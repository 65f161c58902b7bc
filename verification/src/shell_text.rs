//! Text helpers of the kernel shell: decimal and hexadecimal output, the longest common
//! prefix of completions, and the line and word counts of `wc`.
use vstd::prelude::*;
use vstd::string::*;

verus! {

/// The decimal digits of `n`, most significant first ("0" for zero).
pub open spec fn decimal(n: nat) -> Seq<u8>
    decreases n,
{
    if n < 10 { seq![(0x30 + n) as u8] } else { decimal(n / 10).push((0x30 + n % 10) as u8) }
}

/// The decimal digits of `n`, as the shell prints numbers.
pub fn print_u32(n: u32) -> (r: Vec<u8>)
    ensures
        r@ == decimal(n as nat),
{
    let mut digits: Vec<u8> = Vec::new();
    let mut m = n;
    let ghost mut done: Seq<u8> = Seq::empty();
    if m == 0 {
        digits.push(0x30);
        return digits;
    }
    while m >= 10
        invariant
            m > 0,
            decimal(n as nat) == decimal(m as nat) + digits@.reverse(),
        decreases m,
    {
        let d = (m % 10) as u8;
        proof {
            assert(decimal(m as nat) == decimal((m / 10) as nat).push((0x30 + m % 10) as u8));
            assert(decimal((m / 10) as nat).push((0x30 + m % 10) as u8) + digits@.reverse()
                =~= decimal((m / 10) as nat) + digits@.push((0x30 + d) as u8).reverse());
        }
        digits.push(0x30 + d);
        m = m / 10;
    }
    digits.push(0x30 + m as u8);
    proof {
        assert(decimal(m as nat) =~= seq![(0x30 + m) as u8]);
        assert(decimal(n as nat) =~= digits@.reverse());
    }
    let mut out: Vec<u8> = Vec::new();
    let mut i = digits.len();
    while i > 0
        invariant
            i <= digits@.len(),
            out@ == digits@.reverse().subrange(0, digits@.len() - i),
        decreases i,
    {
        i = i - 1;
        out.push(digits[i]);
        assert(out@ =~= digits@.reverse().subrange(0, digits@.len() - i));
    }
    assert(out@ =~= digits@.reverse());
    out
}

/// The decimal digits of a wide number.
pub fn print_u128(n: u128) -> (r: Vec<u8>)
    ensures
        r@ == decimal(n as nat),
{
    let mut digits: Vec<u8> = Vec::new();
    let mut m = n;
    let ghost mut done: Seq<u8> = Seq::empty();
    if m == 0 {
        digits.push(0x30);
        return digits;
    }
    while m >= 10
        invariant
            m > 0,
            decimal(n as nat) == decimal(m as nat) + digits@.reverse(),
        decreases m,
    {
        let d = (m % 10) as u8;
        proof {
            assert(decimal(m as nat) == decimal((m / 10) as nat).push((0x30 + m % 10) as u8));
            assert(decimal((m / 10) as nat).push((0x30 + m % 10) as u8) + digits@.reverse()
                =~= decimal((m / 10) as nat) + digits@.push((0x30 + d) as u8).reverse());
        }
        digits.push(0x30 + d);
        m = m / 10;
    }
    digits.push(0x30 + m as u8);
    proof {
        assert(decimal(m as nat) =~= seq![(0x30 + m) as u8]);
        assert(decimal(n as nat) =~= digits@.reverse());
    }
    let mut out: Vec<u8> = Vec::new();
    let mut i = digits.len();
    while i > 0
        invariant
            i <= digits@.len(),
            out@ == digits@.reverse().subrange(0, digits@.len() - i),
        decreases i,
    {
        i = i - 1;
        out.push(digits[i]);
        assert(out@ =~= digits@.reverse().subrange(0, digits@.len() - i));
    }
    assert(out@ =~= digits@.reverse());
    out
}

/// The lowercase hexadecimal digit of `d` (below 16).
pub open spec fn hex_digit(d: int) -> u8 {
    if d < 10 { (0x30 + d) as u8 } else { (0x61 + d - 10) as u8 }
}

/// The two lowercase hexadecimal digits of `b`.
pub fn print_hex_byte(b: u8) -> (r: [u8; 2])
    ensures
        r@ == seq![hex_digit(b as int / 16), hex_digit(b as int % 16)],
{
    let hi = b >> 4;
    let lo = b & 0xF;
    assert(hi == b / 16 && lo == b % 16) by (bit_vector) requires hi == b >> 4, lo == b & 0xF;
    let h = if hi < 10 { 0x30 + hi } else { 0x61 + hi - 10 };
    let l = if lo < 10 { 0x30 + lo } else { 0x61 + lo - 10 };
    let r = [h, l];
    assert(r@ =~= seq![hex_digit(b as int / 16), hex_digit(b as int % 16)]);
    r
}

/// Whether `p` is a prefix of `s`.
pub open spec fn is_prefix(p: Seq<u8>, s: Seq<u8>) -> bool {
    p.len() <= s.len() && s.subrange(0, p.len() as int) == p
}

/// The longest prefix of `strings[0]` that every string shares (empty for no strings).
pub open spec fn common_prefix_len(strings: Seq<Seq<u8>>, n: int) -> bool {
    &&& strings.len() > 0 ==> 0 <= n <= strings[0].len()
    &&& strings.len() > 0 ==> forall|j: int| 0 <= j < strings.len() ==> is_prefix(strings[0].subrange(0, n), strings[j])
    &&& strings.len() > 0 ==> (n == strings[0].len() || exists|j: int| 0 <= j < strings.len()
        && (n >= strings[j].len() || strings[j][n] != strings[0][n]))
}

/// The longest common prefix of `strings`, as `String` bytes.
pub fn longest_common_prefix(strings: &Vec<Vec<u8>>) -> (r: Vec<u8>)
    ensures
        strings@.len() == 0 ==> r@ == Seq::<u8>::empty(),
        strings@.len() > 0 ==> common_prefix_len(deep_bytes(strings@), r@.len() as int)
            && r@ == strings@[0]@.subrange(0, r@.len() as int),
{
    if strings.len() == 0 {
        return Vec::new();
    }
    let first = &strings[0];
    let mut len: usize = 0;
    let mut stop = false;
    assert forall|j: int| 0 <= j < strings@.len() implies is_prefix(first@.subrange(0, 0), #[trigger] strings@[j]@) by {
        assert(strings@[j]@.subrange(0, 0) =~= first@.subrange(0, 0));
    }
    while len < first.len() && !stop
        invariant
            strings@.len() > 0,
            first@ == strings@[0]@,
            len <= first@.len(),
            forall|j: int| 0 <= j < strings@.len() ==> is_prefix(first@.subrange(0, len as int), #[trigger] strings@[j]@),
            stop ==> exists|j: int| 0 <= j < strings@.len() && (len >= strings@[j]@.len() || strings@[j]@[len as int] != first@[len as int]),
        decreases first@.len() - len, (if stop { 0int } else { 1int }),
    {
        let c = first[len];
        let mut k: usize = 1;
        let mut all = true;
        while k < strings.len() && all
            invariant
                strings@.len() > 0,
                first@ == strings@[0]@,
                len < first@.len(),
                c == first@[len as int],
                1 <= k <= strings@.len(),
                all ==> forall|j: int| 1 <= j < k ==> len < strings@[j]@.len() && strings@[j]@[len as int] == c,
                !all ==> exists|j: int| 0 <= j < strings@.len() && (len >= strings@[j]@.len() || strings@[j]@[len as int] != first@[len as int]),
            decreases strings@.len() - k, (if all { 1int } else { 0int }),
        {
            let s = &strings[k];
            if len >= s.len() || s[len] != c {
                all = false;
            } else {
                k = k + 1;
            }
        }
        if all {
            assert forall|j: int| 0 <= j < strings@.len() implies is_prefix(first@.subrange(0, len + 1), #[trigger] strings@[j]@) by {
                assert(is_prefix(first@.subrange(0, len as int), strings@[j]@));
                if j >= 1 {
                    assert(strings@[j]@.subrange(0, len + 1) =~= first@.subrange(0, len + 1));
                }
            }
            len = len + 1;
        } else {
            stop = true;
        }
    }
    let mut out: Vec<u8> = Vec::new();
    let mut i: usize = 0;
    while i < len
        invariant
            len <= first@.len(),
            i <= len,
            out@ == first@.subrange(0, i as int),
        decreases len - i,
    {
        out.push(first[i]);
        assert(out@ =~= first@.subrange(0, i + 1));
        i = i + 1;
    }
    proof {
        assert forall|j: int| 0 <= j < strings@.len() implies is_prefix(deep_bytes(strings@)[0].subrange(0, len as int), deep_bytes(strings@)[j]) by {
            assert(is_prefix(first@.subrange(0, len as int), strings@[j]@));
        }
        if !stop {
            assert(len == first@.len());
        } else {
            let j = choose|j: int| 0 <= j < strings@.len() && (len >= strings@[j]@.len() || strings@[j]@[len as int] != first@[len as int]);
            assert(deep_bytes(strings@)[j] == strings@[j]@);
        }
    }
    out
}

/// The byte strings of `v`.
pub open spec fn deep_bytes(v: Seq<Vec<u8>>) -> Seq<Seq<u8>> {
    Seq::new(v.len(), |i: int| v[i]@)
}

/// Whether `c` is white space (Unicode `White_Space`, as `char::is_whitespace`).
pub open spec fn is_ws(c: char) -> bool {
    let u = c as u32;
    (0x09 <= u <= 0x0D) || u == 0x20 || u == 0x85 || u == 0xA0 || u == 0x1680 || (0x2000 <= u <= 0x200A)
        || u == 0x2028 || u == 0x2029 || u == 0x202F || u == 0x205F || u == 0x3000
}

pub fn is_whitespace(c: char) -> (r: bool)
    ensures
        r == is_ws(c),
{
    let u = c as u32;
    (0x09 <= u && u <= 0x0D) || u == 0x20 || u == 0x85 || u == 0xA0 || u == 0x1680 || (0x2000 <= u && u <= 0x200A)
        || u == 0x2028 || u == 0x2029 || u == 0x202F || u == 0x205F || u == 0x3000
}

/// The number of words of `s[0..i]`: runs of non-space characters.
pub open spec fn word_count(s: Seq<char>, i: int) -> nat
    decreases i,
{
    if i <= 0 {
        0
    } else if !is_ws(s[i - 1]) && (i == 1 || is_ws(s[i - 2])) {
        word_count(s, i - 1) + 1
    } else {
        word_count(s, i - 1)
    }
}

/// The number of lines of `s` as `str::lines` yields them: one per line feed, plus one for
/// text after the last line feed.
pub open spec fn line_count(s: Seq<char>) -> nat {
    let feeds = s.filter(|c: char| c == '\n').len();
    if s.len() > 0 && s.last() != '\n' { feeds + 1 } else { feeds }
}

/// The counts of `wc` for `text`: lines, words, and `bytes` as given.
pub fn wc_counts(text: &str) -> (r: (usize, usize))
    ensures
        r.0 == line_count(text@),
        r.1 == word_count(text@, text@.len() as int),
{
    let n = text.unicode_len();
    let mut feeds: usize = 0;
    let mut words: usize = 0;
    let mut i: usize = 0;
    while i < n
        invariant
            n == text@.len(),
            i <= n,
            feeds == text@.subrange(0, i as int).filter(|c: char| c == '\n').len(),
            words == word_count(text@, i as int),
            feeds <= i,
            words <= i,
            i > 0 && text@[i - 1] != '\n' ==> feeds < i,
        decreases n - i,
    {
        let c = text.get_char(i);
        proof {
            reveal(Seq::filter);
            assert(text@.subrange(0, i + 1).drop_last() =~= text@.subrange(0, i as int));
        }
        if c == '\n' {
            feeds = feeds + 1;
        }
        if !is_whitespace(c) && (i == 0 || is_whitespace(text.get_char(i - 1))) {
            words = words + 1;
        }
        i = i + 1;
    }
    assert(text@.subrange(0, n as int) =~= text@);
    let lines = if n > 0 && text.get_char(n - 1) != '\n' { feeds + 1 } else { feeds };
    (lines, words)
}

} // verus!
