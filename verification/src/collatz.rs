//! The Collatz map and the quantities the analyzer studies: orbits, stopping times, peaks,
//! parity sequences, the condensed map `n -> (3n + 1) / 2^v` on odd numbers, its preimages,
//! and the binary decomposition `n = 2^y (2^x (2R + 1) - 1)`.
//!
//! Whether every orbit reaches 1 is the open Collatz conjecture, so the functions that follow
//! an orbit to its end ask for an orbit that ends, within the range of the machine's numbers.
use vstd::prelude::*;
use vstd::arithmetic::power2::{pow2, lemma_pow2_pos, lemma_pow2_adds, lemma2_to64};
use vstd::bits::lemma_u64_shr_is_div;

verus! {

/// One step of the Collatz map.
pub open spec fn step(x: nat) -> nat {
    if x % 2 == 0 { x / 2 } else { 3 * x + 1 }
}

/// The `k`-th element of the orbit of `n`.
pub open spec fn orbit(n: nat, k: nat) -> nat
    decreases k,
{
    if k == 0 { n } else { step(orbit(n, (k - 1) as nat)) }
}

/// Whether the orbit of `n` first reaches 1 (or below) at step `k`.
pub open spec fn stops_at(n: nat, k: nat) -> bool {
    orbit(n, k) <= 1 && forall|j: nat| j < k ==> orbit(n, j) > 1
}

/// The largest odd value whose successor `3x + 1` fits in 64 bits.
pub const ODD_LIMIT: u64 = 6148914691236517204;

/// Whether the orbit of `n` reaches 1 (or below) in at most `u64::MAX` steps, every odd
/// element before that small enough for `3x + 1` to fit in 64 bits.
pub open spec fn settles(n: nat) -> bool {
    exists|k: nat| stops_at(n, k) && k <= u64::MAX && forall|j: nat| j < k ==> (orbit(n, j) % 2 == 1 ==> orbit(n, j) <= ODD_LIMIT)
}

/// The orbit of `step(n)` is that of `n` shifted by one.
pub proof fn lemma_orbit_shift(n: nat, j: nat)
    ensures
        orbit(step(n), j) == orbit(n, j + 1),
    decreases j,
{
    assert(orbit(n, j + 1) == step(orbit(n, j)));
    if j > 0 {
        lemma_orbit_shift(n, (j - 1) as nat);
        assert(orbit(step(n), j) == step(orbit(step(n), (j - 1) as nat)));
    } else {
        assert(orbit(n, 1) == step(orbit(n, 0)));
    }
}

/// The step at which an orbit first reaches 1 is unique.
pub proof fn lemma_stop_unique(n: nat, k1: nat, k2: nat)
    requires
        stops_at(n, k1),
        stops_at(n, k2),
    ensures
        k1 == k2,
{
    if k1 < k2 {
        assert(orbit(n, k1) > 1);
    } else if k2 < k1 {
        assert(orbit(n, k2) > 1);
    }
}

/// The largest element of the orbit of `n` up to step `k`.
pub open spec fn orbit_max(n: nat, k: nat) -> nat
    decreases k,
{
    if k == 0 { n } else {
        let m = orbit_max(n, (k - 1) as nat);
        if orbit(n, k) > m { orbit(n, k) } else { m }
    }
}

/// The largest value the orbit of `n` reaches before it comes to 1.
pub fn peak(n: u64) -> (r: u64)
    requires
        settles(n as nat),
    ensures
        forall|k: nat| stops_at(n as nat, k) ==> r == orbit_max(n as nat, k),
{
    let ghost k = choose|k: nat| stops_at(n as nat, k) && k <= u64::MAX
        && forall|j: nat| j < k ==> (orbit(n as nat, j) % 2 == 1 ==> orbit(n as nat, j) <= ODD_LIMIT);
    let mut x = n;
    let mut max = n;
    let ghost mut i: nat = 0;
    while x > 1
        invariant
            stops_at(n as nat, k),
            forall|j: nat| j < k ==> (orbit(n as nat, j) % 2 == 1 ==> orbit(n as nat, j) <= ODD_LIMIT),
            i <= k,
            x == orbit(n as nat, i),
            max == orbit_max(n as nat, i),
        decreases k - i,
    {
        assert(i < k);
        assert(x % 2 == 1 ==> x <= ODD_LIMIT);
        x = if x % 2 == 0 { x / 2 } else { 3 * x + 1 };
        if x > max {
            max = x;
        }
        proof { i = i + 1; }
    }
    proof {
        assert(stops_at(n as nat, i)) by {
            assert forall|j: nat| j < i implies orbit(n as nat, j) > 1 by {
                assert(j < k);
            }
        }
        assert forall|k2: nat| stops_at(n as nat, k2) implies max == orbit_max(n as nat, k2) by {
            lemma_stop_unique(n as nat, i, k2);
        }
    }
    max
}

/// The parities (0 even, 1 odd) of the orbit of `n` before it comes to 1.
pub fn parity_sequence(n: u64) -> (r: Vec<u8>)
    requires
        settles(n as nat),
    ensures
        forall|k: nat| stops_at(n as nat, k) ==> r@ == Seq::new(k, |j: int| (orbit(n as nat, j as nat) % 2) as u8),
{
    let ghost k = choose|k: nat| stops_at(n as nat, k) && k <= u64::MAX
        && forall|j: nat| j < k ==> (orbit(n as nat, j) % 2 == 1 ==> orbit(n as nat, j) <= ODD_LIMIT);
    let mut x = n;
    let mut bits: Vec<u8> = Vec::new();
    let ghost mut i: nat = 0;
    while x > 1
        invariant
            stops_at(n as nat, k),
            forall|j: nat| j < k ==> (orbit(n as nat, j) % 2 == 1 ==> orbit(n as nat, j) <= ODD_LIMIT),
            i <= k,
            x == orbit(n as nat, i),
            bits@ == Seq::new(i, |j: int| (orbit(n as nat, j as nat) % 2) as u8),
        decreases k - i,
    {
        assert(i < k);
        assert(x % 2 == 1 ==> x <= ODD_LIMIT);
        assert((x & 1) == x % 2) by (bit_vector);
        bits.push((x & 1) as u8);
        x = if x % 2 == 0 { x / 2 } else { 3 * x + 1 };
        proof {
            i = i + 1;
            assert(bits@ =~= Seq::new(i, |j: int| (orbit(n as nat, j as nat) % 2) as u8));
        }
    }
    proof {
        assert(stops_at(n as nat, i)) by {
            assert forall|j: nat| j < i implies orbit(n as nat, j) > 1 by {
                assert(j < k);
            }
        }
        assert forall|k2: nat| stops_at(n as nat, k2) implies bits@ == Seq::new(k2, |j: int| (orbit(n as nat, j as nat) % 2) as u8) by {
            lemma_stop_unique(n as nat, i, k2);
        }
    }
    bits
}

/// The number of one bits of `n`.
pub open spec fn ones(n: nat) -> nat
    decreases n,
{
    if n == 0 { 0 } else { ones(n / 2) + n % 2 }
}

/// The number of one bits of `n`.
pub fn popcount(n: u64) -> (r: u32)
    ensures
        r == ones(n as nat),
{
    let mut m = n;
    let mut c: u64 = 0;
    proof {
        lemma2_to64();
        lemma_bits_bound(n as nat, 64);
    }
    while m > 0
        invariant
            c + ones(m as nat) == ones(n as nat),
            c <= 64 - bits_left(m as nat),
            bits_left(m as nat) <= 64,
        decreases m,
    {
        assert((m & 1) == m % 2) by (bit_vector);
        assert((m >> 1) == m / 2) by (bit_vector);
        proof { lemma_bits_left_half(m as nat); }
        c = c + (m & 1);
        m = m >> 1;
    }
    c as u32
}

/// A number of 64 bits has at most 64 one bits.
pub proof fn lemma_popcount_bound(n: nat)
    requires
        n <= u64::MAX,
    ensures
        ones(n) <= 64,
{
    lemma2_to64();
    lemma_bits_bound(n, 64);
    lemma_ones_le_bits(n);
}

proof fn lemma_ones_le_bits(n: nat)
    ensures
        ones(n) <= bits_left(n),
    decreases n,
{
    if n > 0 {
        lemma_ones_le_bits(n / 2);
    }
}

/// The number of binary digits of `n`.
pub open spec fn bits_left(n: nat) -> nat
    decreases n,
{
    if n == 0 { 0 } else { 1 + bits_left(n / 2) }
}

proof fn lemma_bits_left_half(m: nat)
    requires
        0 < m <= u64::MAX,
    ensures
        bits_left(m) == 1 + bits_left(m / 2),
        bits_left(m) <= 64,
        ones(m) == ones(m / 2) + m % 2,
{
    lemma2_to64();
    lemma_bits_bound(m, 64);
}

pub proof fn lemma_pow2_128()
    ensures
        pow2(128) == 0x1_0000_0000_0000_0000_0000_0000_0000_0000,
{
    lemma2_to64();
    lemma_pow2_adds(64, 64);
}

pub proof fn lemma_bits_bound(m: nat, w: nat)
    requires
        m < pow2(w),
    ensures
        bits_left(m) <= w,
    decreases w,
{
    if m > 0 {
        lemma_pow2_pos(w);
        if w == 0 {
            assert(pow2(0) == 1) by { lemma2_to64(); }
        } else {
            vstd::arithmetic::power2::lemma_pow2_unfold(w);
            lemma_bits_bound(m / 2, (w - 1) as nat);
        }
    }
}

/// The number of trailing zero bits of `n` in a word of `w` bits (`w` for zero).
pub open spec fn tz(n: nat, w: nat) -> nat
    decreases n,
{
    if n == 0 { w } else if n % 2 == 1 { 0 } else { 1 + tz(n / 2, w) }
}

/// The number of trailing zero bits of `n` (64 for zero).
pub fn trailing_zeros(n: u64) -> (r: u32)
    ensures
        r == tz(n as nat, 64),
        r <= 64,
        n > 0 ==> r < 64,
{
    if n == 0 {
        return 64;
    }
    let mut m = n;
    let mut c: u32 = 0;
    proof {
        lemma2_to64();
        lemma_bits_bound(n as nat, 64);
    }
    while m % 2 == 0
        invariant
            m > 0,
            c + tz(m as nat, 64) == tz(n as nat, 64),
            c + bits_left(m as nat) <= 64,
        decreases m,
    {
        proof { lemma_bits_left_half(m as nat); }
        m = m / 2;
        c = c + 1;
    }
    proof { lemma_bits_left_half(m as nat); }
    c
}

/// The number of trailing zero bits of a 128-bit `n` (128 for zero).
pub fn trailing_zeros_u128(n: u128) -> (r: u32)
    ensures
        r == tz(n as nat, 128),
        r <= 128,
        n > 0 ==> r < 128,
{
    if n == 0 {
        return 128;
    }
    let mut m = n;
    let mut c: u32 = 0;
    proof {
        lemma_pow2_128();
        lemma_bits_bound(n as nat, 128);
    }
    while m % 2 == 0
        invariant
            m > 0,
            c + tz(m as nat, 128) == tz(n as nat, 128),
            c + bits_left(m as nat) <= 128,
        decreases m,
    {
        proof {
            lemma_pow2_128();
            lemma_bits_bound(m as nat, 128);
        }
        m = m / 2;
        c = c + 1;
    }
    proof {
        lemma_pow2_128();
        lemma_bits_bound(m as nat, 128);
    }
    c
}

/// Bit `i` of `n`.
pub open spec fn bit(n: nat, i: nat) -> nat {
    (n / pow2(i)) % 2
}

/// The first `i` from 1 below `w` at which bit `i` of `n` equals bit `i - 1`, or `w` when the
/// bits alternate: for an odd `n`, a prediction of the trailing zeros of `3n + 1`.
pub open spec fn first_repeat(n: nat, i: nat, w: nat) -> nat
    decreases w - i,
{
    if i >= w { w } else if bit(n, i) == bit(n, (i - 1) as nat) { i } else { first_repeat(n, i + 1, w) }
}

/// Bits of `n` from index 2 on are the bits of `n / 4`.
proof fn lemma_bit_quarter(n: nat, i: nat)
    requires
        i >= 2,
    ensures
        bit(n, i) == bit(n / 4, (i - 2) as nat),
{
    lemma_pow2_adds(2, (i - 2) as nat);
    lemma2_to64();
    lemma_pow2_pos((i - 2) as nat);
    vstd::arithmetic::div_mod::lemma_div_denominator(n as int, 4, pow2((i - 2) as nat) as int);
}

/// Past index 2, looking for a repeated bit in `n` is looking for one in `n / 4`.
proof fn lemma_first_repeat_quarter(n: nat, i: nat, w: nat)
    requires
        3 <= i,
        2 <= w,
    ensures
        first_repeat(n, i, w) == 2 + first_repeat(n / 4, (i - 2) as nat, (w - 2) as nat),
    decreases w - i,
{
    if i < w {
        lemma_bit_quarter(n, i);
        lemma_bit_quarter(n, (i - 1) as nat);
        if bit(n, i) != bit(n, (i - 1) as nat) {
            lemma_first_repeat_quarter(n, i + 1, w);
        }
    }
}

/// For an odd `n`, the trailing zeros of `3n + 1` are the first place from 1 on where a bit of
/// `n` repeats the bit before it; counted up to a width `w`, the smaller of the two.
pub proof fn lemma_first_repeat_is_tz(n: nat, w: nat)
    requires
        n % 2 == 1,
        w >= 1,
    ensures
        first_repeat(n, 1, w) == if tz(3 * n + 1, 64) < w { tz(3 * n + 1, 64) } else { w },
    decreases n,
{
    lemma2_to64();
    assert(bit(n, 0) == n % 2);
    assert(bit(n, 1) == (n / 2) % 2);
    let m = 3 * n + 1;
    if n % 4 == 3 {
        assert(m % 2 == 0 && (m / 2) % 2 == 1);
        assert(tz(m / 2, 64) == 0);
    } else {
        let q = n / 4;
        assert(n == 4 * q + 1);
        assert(m == 4 * (3 * q + 1));
        assert(tz(m, 64) == 2 + tz(3 * q + 1, 64)) by {
            assert(m / 2 == 2 * (3 * q + 1));
            assert((m / 2) / 2 == 3 * q + 1);
            assert(tz(m, 64) == 1 + tz(m / 2, 64));
            assert(tz(m / 2, 64) == 1 + tz((m / 2) / 2, 64));
        }
        if w >= 2 {
            assert(first_repeat(n, 1, w) == first_repeat(n, 2, w));
            if w >= 3 {
                lemma_bit_quarter(n, 2);
                assert(bit(n, 2) == q % 2) by {
                    assert(pow2(0) == 1);
                }
                if q % 2 == 0 {
                    assert(tz(3 * q + 1, 64) == 0);
                } else {
                    assert(first_repeat(n, 2, w) == first_repeat(n, 3, w));
                    lemma_first_repeat_quarter(n, 3, w);
                    assert(n / 4 == q);
                    lemma_first_repeat_is_tz(q, (w - 2) as nat);
                }
            }
        }
    }
}

/// For an odd `n` whose `3n + 1` fits in 64 bits, the first repeated bit of `n` gives the
/// trailing zeros of `3n + 1`: what `predict_trailing_zeros` computes is what
/// `trailing_zeros` would count.
pub proof fn law_first_repeat_predicts_tz(n: u64)
    requires
        n % 2 == 1,
        n <= ODD_LIMIT,
    ensures
        first_repeat(n as nat, 1, 64) == tz(3 * n as nat + 1, 64),
{
    let m: nat = 3 * n as nat + 1;
    lemma_first_repeat_is_tz(n as nat, 64);
    lemma_tz_split(m, 64);
    let t = tz(m, 64);
    if t >= 64 {
        lemma2_to64();
        if t > 64 {
            vstd::arithmetic::power2::lemma_pow2_strictly_increases(64, t);
        }
        assert(pow2(t) >= 0x1_0000_0000_0000_0000);
        lemma_pow2_pos(t);
        assert(pow2(t) * (m / pow2(t)) >= pow2(t)) by (nonlinear_arith)
            requires m / pow2(t) >= 1, pow2(t) > 0;
        assert(false);
    }
}

/// The first bit of `n` equal to the bit before it (see `first_repeat`), 64 when none is.
pub fn predict_trailing_zeros(n: u64) -> (r: u32)
    ensures
        r == first_repeat(n as nat, 1, 64),
{
    let mut prev = n & 1;
    let mut i: u32 = 1;
    assert(prev == bit(n as nat, 0)) by {
        assert(n & 1 == n % 2) by (bit_vector);
        assert(pow2(0) == 1) by { lemma2_to64(); }
    }
    while i < 64
        invariant
            1 <= i <= 64,
            prev == bit(n as nat, (i - 1) as nat),
            first_repeat(n as nat, i as nat, 64) == first_repeat(n as nat, 1, 64),
        decreases 64 - i,
    {
        let sh = (i as u64);
        let curr = (n >> sh) & 1;
        proof {
            lemma_u64_shr_is_div(n, sh);
            let q = n >> sh;
            assert(q & 1 == q % 2) by (bit_vector);
        }
        if curr == prev {
            return i;
        }
        prev = curr;
        i = i + 1;
    }
    64
}

/// The first bit of a 128-bit `n` equal to the bit before it, 128 when none is.
pub fn predict_tz_u128(n: u128) -> (r: u32)
    ensures
        r == first_repeat(n as nat, 1, 128),
{
    let mut prev = n & 1;
    let mut i: u32 = 1;
    assert(prev == bit(n as nat, 0)) by {
        assert(n & 1 == n % 2) by (bit_vector);
        assert(pow2(0) == 1) by { lemma2_to64(); }
    }
    while i < 128
        invariant
            1 <= i <= 128,
            prev == bit(n as nat, (i - 1) as nat),
            first_repeat(n as nat, i as nat, 128) == first_repeat(n as nat, 1, 128),
        decreases 128 - i,
    {
        let sh = (i as u128);
        let curr = (n >> sh) & 1;
        proof {
            vstd::bits::lemma_u128_shr_is_div(n, sh);
            let q = n >> sh;
            assert(q & 1 == q % 2) by (bit_vector);
        }
        if curr == prev {
            return i;
        }
        prev = curr;
        i = i + 1;
    }
    128
}

/// A positive `n` is `2^tz(n)` times an odd number.
pub proof fn lemma_tz_split(n: nat, w: nat)
    requires
        n > 0,
    ensures
        n == pow2(tz(n, w)) * (n / pow2(tz(n, w))),
        (n / pow2(tz(n, w))) % 2 == 1,
    decreases n,
{
    lemma_pow2_pos(tz(n, w));
    if n % 2 == 1 {
        lemma2_to64();
        assert(tz(n, w) == 0);
        assert(pow2(0) == 1);
        assert(n / 1 == n);
    } else {
        let h = n / 2;
        lemma_tz_split(h, w);
        let t = tz(h, w);
        let q = h / pow2(t);
        vstd::arithmetic::power2::lemma_pow2_unfold(t + 1);
        assert(tz(n, w) == t + 1);
        let p = pow2(t);
        assert(n == 2 * p * q) by (nonlinear_arith)
            requires h == p * q, n == 2 * h;
        assert(n / (2 * p) == q) by (nonlinear_arith)
            requires n == 2 * p * q, p > 0;
        assert(pow2(tz(n, w)) == 2 * p);
    }
}

/// The condensed Collatz map: halve an even number; take an odd one to the odd part of
/// `3n + 1`; 1 stays.
pub open spec fn condensed(n: nat) -> nat {
    if n == 1 { 1 } else if n % 2 == 0 { n / 2 } else { (3 * n + 1) / pow2(tz(3 * n + 1, 64)) }
}

/// The condensed Collatz map (see `condensed`).
pub fn condensed_collatz(n: u64) -> (r: u64)
    requires
        n % 2 == 1 ==> n <= ODD_LIMIT,
    ensures
        r == condensed(n as nat),
{
    if n == 1 {
        return 1;
    }
    if n % 2 == 0 {
        n / 2
    } else {
        let t = 3 * n + 1;
        let z = trailing_zeros(t);
        proof { lemma_u64_shr_is_div(t, z as u64); }
        t >> (z as u64)
    }
}

/// The decomposition `n = 2^y (2^x (2R + 1) - 1)` as `(y, x, R)`: `y` counts the trailing
/// zeros of `n`, `x` those of its odd part plus one.
pub open spec fn branch_of(n: nat) -> (nat, nat, nat) {
    let y = tz(n, 64);
    let odd = n / pow2(y);
    let x = tz(odd + 1, 64);
    let m = (odd + 1) / pow2(x);
    (y, x, ((m - 1) / 2) as nat)
}

/// The decomposition of `n` (see `branch_of`); `n` is rebuilt from it.
pub fn decompose_branch(n: u64) -> (r: (u32, u32, u64))
    requires
        0 < n < u64::MAX,
    ensures
        (r.0 as nat, r.1 as nat, r.2 as nat) == branch_of(n as nat),
        r.0 < 64 && r.1 < 64,
        n as int == pow2(r.0 as nat) * (pow2(r.1 as nat) * (2 * r.2 + 1) - 1),
{
    let y = trailing_zeros(n);
    proof { lemma_u64_shr_is_div(n, y as u64); }
    let odd_part = n >> (y as u64);
    proof {
        lemma_tz_split(n as nat, 64);
        lemma_pow2_pos(y as nat);
        assert(odd_part <= n) by (nonlinear_arith)
            requires odd_part == n as nat / pow2(y as nat), pow2(y as nat) > 0;
    }
    let odd_plus_1 = odd_part + 1;
    let x = trailing_zeros(odd_plus_1);
    proof { lemma_u64_shr_is_div(odd_plus_1, x as u64); }
    let m = odd_plus_1 >> (x as u64);
    proof {
        lemma_tz_split(odd_plus_1 as nat, 64);
    }
    let r = (m - 1) / 2;
    proof {
        let py = pow2(y as nat);
        let px = pow2(x as nat);
        assert(m == 2 * r + 1);
        assert(n as int == py * (px * (2 * r + 1) - 1)) by (nonlinear_arith)
            requires n == py * odd_part, odd_part + 1 == px * m, m == 2 * r + 1;
    }
    (y, x, r)
}

/// The step at which the orbit of a settling `n` first reaches 1.
pub open spec fn stop_time(n: nat) -> nat {
    choose|k: nat| stops_at(n, k) && k <= u64::MAX && forall|j: nat| j < k ==> (orbit(n, j) % 2 == 1 ==> orbit(n, j) <= ODD_LIMIT)
}

/// A settling orbit goes on settling after one step, in one step less.
pub proof fn lemma_settles_step(n: nat)
    requires
        n > 1,
        settles(n),
    ensures
        settles(step(n)),
        stop_time(step(n)) + 1 == stop_time(n),
        n % 2 == 1 ==> n <= ODD_LIMIT,
{
    let k = stop_time(n);
    assert(stops_at(n, k) && k <= u64::MAX && forall|j: nat| j < k ==> (orbit(n, j) % 2 == 1 ==> orbit(n, j) <= ODD_LIMIT));
    assert(k > 0) by { if k == 0 { assert(orbit(n, 0) == n); } }
    assert(orbit(n, 0) % 2 == 1 ==> orbit(n, 0) <= ODD_LIMIT);
    let k1 = (k - 1) as nat;
    assert forall|j: nat| j < k1 implies orbit(step(n), j) > 1
        && (orbit(step(n), j) % 2 == 1 ==> orbit(step(n), j) <= ODD_LIMIT) by {
        lemma_orbit_shift(n, j);
        assert(j + 1 < k);
    }
    assert(orbit(step(n), k1) <= 1) by { lemma_orbit_shift(n, k1); }
    assert(stops_at(step(n), k1));
    assert(settles(step(n)));
    let k2 = stop_time(step(n));
    lemma_stop_unique(step(n), k1, k2);
}

/// Every element of the orbit of a positive number is positive.
pub proof fn lemma_orbit_pos(n: nat, j: nat)
    requires
        n > 0,
    ensures
        orbit(n, j) > 0,
    decreases j,
{
    if j > 0 {
        lemma_orbit_pos(n, (j - 1) as nat);
    }
}

/// Whether every entry of a stopping-time cache is right.
pub open spec fn cache_ok(m: Map<u64, u64>) -> bool {
    forall|key: u64| #[trigger] m.contains_key(key) ==> settles(key as nat) && m[key] == stop_time(key as nat)
}

/// The number of steps the orbit of `n` takes to reach 1, odd numbers two steps at a time;
/// each stopping time found is kept in `cache`, and one found there is used.
pub fn stopping_time_cached(n: u64, cache: &mut std::collections::HashMap<u64, u64>) -> (r: u64)
    requires
        n >= 1,
        settles(n as nat),
        cache_ok(old(cache)@),
    ensures
        r == stop_time(n as nat),
        cache_ok(final(cache)@),
        n != 1 ==> final(cache)@.contains_key(n) && final(cache)@[n] == r,
        forall|key: u64| #[trigger] old(cache)@.contains_key(key) ==> final(cache)@.contains_key(key),
    decreases stop_time(n as nat),
{
    broadcast use vstd::std_specs::hash::group_hash_axioms;
    proof {
        if n == 1 {
            assert(stops_at(1, 0));
            lemma_stop_unique(1, 0, stop_time(1));
        }
    }
    if n == 1 {
        return 0;
    }
    match cache.get(&n) {
        Some(s) => { return *s; },
        None => {},
    }
    proof { lemma_settles_step(n as nat); }
    let steps = if n % 2 == 0 {
        let h = n / 2;
        proof {
            assert(step(n as nat) == h);
            lemma_orbit_pos(n as nat, 1);
        }
        1 + stopping_time_cached(h, cache)
    } else {
        let t = 3 * n + 1;
        let h = t / 2;
        proof {
            let s1 = step(n as nat);
            assert(s1 == t);
            lemma_settles_step(s1);
            assert(step(s1) == h);
        }
        2 + stopping_time_cached(h, cache)
    };
    cache.insert(n, steps);
    steps
}

/// The same stopping time, with a cache of those below its length (0 where unknown).
pub fn stopping_time_vec(n: u64, cache: &mut [u64]) -> (r: u64)
    requires
        n >= 1,
        settles(n as nat),
        forall|i: int| 0 <= i < old(cache)@.len() && #[trigger] old(cache)@[i] != 0
            ==> settles(i as nat) && old(cache)@[i] == stop_time(i as nat),
    ensures
        r == stop_time(n as nat),
        final(cache)@.len() == old(cache)@.len(),
        forall|i: int| 0 <= i < final(cache)@.len() && #[trigger] final(cache)@[i] != 0
            ==> settles(i as nat) && final(cache)@[i] == stop_time(i as nat),
        1 < n && (n as int) < final(cache)@.len() ==> final(cache)@[n as int] == r,
    decreases stop_time(n as nat),
{
    proof {
        if n == 1 {
            assert(stops_at(1, 0));
            lemma_stop_unique(1, 0, stop_time(1));
        }
    }
    if n == 1 {
        return 0;
    }
    let cached = (n as u128) < (cache.len() as u128);
    if cached {
        let idx = n as usize;
        if cache[idx] != 0 {
            return cache[idx];
        }
    }
    proof { lemma_settles_step(n as nat); }
    let steps = if n % 2 == 0 {
        let h = n / 2;
        proof {
            assert(step(n as nat) == h);
            lemma_orbit_pos(n as nat, 1);
        }
        1 + stopping_time_vec(h, cache)
    } else {
        let t = 3 * n + 1;
        let h = t / 2;
        proof {
            let s1 = step(n as nat);
            assert(s1 == t);
            lemma_settles_step(s1);
            assert(step(s1) == h);
        }
        2 + stopping_time_vec(h, cache)
    };
    if cached {
        let idx = n as usize;
        cache[idx] = steps;
    }
    steps
}

/// The largest odd value whose successor `3x + 1` fits in 128 bits.
pub const ODD_LIMIT_128: u128 = 113427455640312821154458202477256070484;

/// The exponents `v` of the odd steps `x -> (3x + 1) / 2^v` from `x`, at most `left` of them,
/// stopping at 1; even values are first divided by their power of two.
pub open spec fn v_run(x: nat, left: nat) -> Seq<u32>
    decreases left, (if x % 2 == 0 { 1nat } else { 0nat }),
{
    if x <= 1 || left == 0 {
        Seq::empty()
    } else if x % 2 == 1 {
        let t = 3 * x + 1;
        let v = tz(t, 128);
        seq![v as u32] + v_run(t / pow2(v), (left - 1) as nat)
    } else {
        proof { lemma_tz_split(x, 128); }
        v_run(x / pow2(tz(x, 128)), left)
    }
}

/// Whether each odd value met by `v_run(x, left)` is small enough for `3x + 1` in 128 bits.
pub open spec fn v_run_fits(x: nat, left: nat) -> bool
    decreases left, (if x % 2 == 0 { 1nat } else { 0nat }),
{
    if x <= 1 || left == 0 {
        true
    } else if x % 2 == 1 {
        let t = 3 * x + 1;
        x <= ODD_LIMIT_128 && v_run_fits(t / pow2(tz(t, 128)), (left - 1) as nat)
    } else {
        proof { lemma_tz_split(x, 128); }
        v_run_fits(x / pow2(tz(x, 128)), left)
    }
}

/// The exponents of at most `limit` odd steps from `x` (see `v_run`), and how many there are.
pub fn compute_v_sequence(x: u128, limit: usize) -> (r: (Vec<u32>, usize))
    requires
        v_run_fits(x as nat, limit as nat),
    ensures
        r.0@ == v_run(x as nat, limit as nat),
        r.1 == r.0@.len(),
        r.1 <= limit,
        forall|i: int| 0 <= i < r.0@.len() ==> #[trigger] r.0@[i] < 128,
{
    let mut v_seq: Vec<u32> = Vec::new();
    let mut steps: usize = 0;
    let mut x = x;
    let ghost x0 = x as nat;
    while x > 1 && steps < limit
        invariant
            steps <= limit,
            v_seq@.len() == steps,
            v_seq@ + v_run(x as nat, (limit - steps) as nat) == v_run(x0, limit as nat),
            v_run_fits(x as nat, (limit - steps) as nat),
            forall|i: int| 0 <= i < v_seq@.len() ==> #[trigger] v_seq@[i] < 128,
        decreases 2 * (limit - steps) + (if x % 2 == 0 { 1int } else { 0int }),
    {
        if x % 2 == 1 {
            let t = 3 * x + 1;
            let v = trailing_zeros_u128(t);
            let ghost before = v_seq@;
            v_seq.push(v);
            proof { vstd::bits::lemma_u128_shr_is_div(t, v as u128); }
            let nx = t >> (v as u128);
            proof {
                lemma_tz_split(t as nat, 128);
                assert(v_seq@ + v_run(nx as nat, (limit - steps - 1) as nat) =~= before + v_run(x as nat, (limit - steps) as nat));
            }
            x = nx;
            steps = steps + 1;
        } else {
            let z = trailing_zeros_u128(x);
            proof {
                vstd::bits::lemma_u128_shr_is_div(x, z as u128);
                lemma_tz_split(x as nat, 128);
            }
            x = x >> (z as u128);
        }
    }
    assert(v_run(x as nat, (limit - steps) as nat) =~= Seq::<u32>::empty());
    assert(v_seq@ =~= v_run(x0, limit as nat));
    (v_seq, steps)
}

/// One step of the condensed walk: halve an even number, take an odd one to the odd part of
/// `3x + 1`.
pub open spec fn c_next(x: nat) -> nat {
    if x % 2 == 0 { x / 2 } else { (3 * x + 1) / pow2(tz(3 * x + 1, 64)) }
}

/// The `k`-th element of the condensed walk from `n`.
pub open spec fn c_orbit(n: nat, k: nat) -> nat
    decreases k,
{
    if k == 0 { n } else { c_next(c_orbit(n, (k - 1) as nat)) }
}

/// Whether the condensed walk from `n` first reaches 1 (or below) at step `k`, each odd
/// value before small enough for `3x + 1` in 64 bits.
pub open spec fn c_stops_at(n: nat, k: nat) -> bool {
    &&& c_orbit(n, k) <= 1
    &&& forall|j: nat| j < k ==> c_orbit(n, j) > 1
    &&& forall|j: nat| j < k ==> (c_orbit(n, j) % 2 == 1 ==> c_orbit(n, j) <= ODD_LIMIT)
}

/// Whether the condensed walk from `n` reaches 1 within the machine's numbers.
pub open spec fn c_settles(n: nat) -> bool {
    exists|k: nat| c_stops_at(n, k)
}

/// The step at which the condensed walk from `n` reaches 1.
pub open spec fn c_stop(n: nat) -> nat {
    choose|k: nat| c_stops_at(n, k)
}

pub proof fn lemma_c_stop_unique(n: nat, k1: nat, k2: nat)
    requires
        c_stops_at(n, k1),
        c_stops_at(n, k2),
    ensures
        k1 == k2,
{
    if k1 < k2 {
        assert(c_orbit(n, k1) > 1);
    } else if k2 < k1 {
        assert(c_orbit(n, k2) > 1);
    }
}

pub proof fn lemma_c_orbit_shift(n: nat, j: nat)
    ensures
        c_orbit(c_next(n), j) == c_orbit(n, j + 1),
    decreases j,
{
    assert(c_orbit(n, j + 1) == c_next(c_orbit(n, j)));
    if j > 0 {
        lemma_c_orbit_shift(n, (j - 1) as nat);
        assert(c_orbit(c_next(n), j) == c_next(c_orbit(c_next(n), (j - 1) as nat)));
    } else {
        assert(c_orbit(n, 1) == c_next(c_orbit(n, 0)));
    }
}

/// A settling condensed walk goes on settling after one step, in one step less.
pub proof fn lemma_c_settles_step(n: nat)
    requires
        n > 1,
        c_settles(n),
    ensures
        c_settles(c_next(n)),
        c_stop(c_next(n)) + 1 == c_stop(n),
        n % 2 == 1 ==> n <= ODD_LIMIT,
{
    let k = c_stop(n);
    assert(c_stops_at(n, k));
    assert(k > 0) by { if k == 0 { assert(c_orbit(n, 0) == n); } }
    assert(c_orbit(n, 0) == n);
    let k1 = (k - 1) as nat;
    assert forall|j: nat| j < k1 implies c_orbit(c_next(n), j) > 1
        && (c_orbit(c_next(n), j) % 2 == 1 ==> c_orbit(c_next(n), j) <= ODD_LIMIT) by {
        lemma_c_orbit_shift(n, j);
        assert(j + 1 < k);
    }
    assert(c_orbit(c_next(n), k1) <= 1) by { lemma_c_orbit_shift(n, k1); }
    assert(c_stops_at(c_next(n), k1));
    lemma_c_stop_unique(c_next(n), k1, c_stop(c_next(n)));
}

/// The exponents of the odd steps among the first `k` steps of the condensed walk from `n`.
pub open spec fn c_vs(n: nat, k: nat) -> Seq<u32>
    decreases k,
{
    if k == 0 {
        Seq::empty()
    } else {
        let x = c_orbit(n, (k - 1) as nat);
        c_vs(n, (k - 1) as nat) + (if x % 2 == 1 { seq![tz(3 * x + 1, 64) as u32] } else { Seq::empty() })
    }
}

/// Whether every entry of a cache of exponent sequences is right.
pub open spec fn v_memo_ok(m: Map<u64, Vec<u32>>) -> bool {
    forall|key: u64| #[trigger] m.contains_key(key) ==> c_settles(key as nat) && m[key]@ == c_vs(key as nat, c_stop(key as nat))
}

/// The exponents `v` of the odd steps `x -> (3x + 1) / 2^v` of the condensed walk from `n` to 1
/// (see `c_vs`); results are kept in `memo`, and one found there is used.
pub fn compute_v_seq(n: u64, memo: &mut std::collections::HashMap<u64, Vec<u32>>) -> (r: Vec<u32>)
    requires
        c_settles(n as nat),
        v_memo_ok(old(memo)@),
    ensures
        r@ == c_vs(n as nat, c_stop(n as nat)),
        v_memo_ok(final(memo)@),
{
    broadcast use vstd::std_specs::hash::group_hash_axioms;
    match memo.get(&n) {
        Some(v) => { return v.clone(); },
        None => {},
    }
    let ghost k = c_stop(n as nat);
    assert(c_stops_at(n as nat, k));
    if n == 1 {
        proof {
            assert(c_stops_at(1, 0));
            lemma_c_stop_unique(1, 0, k);
        }
        return Vec::new();
    }
    let mut seq: Vec<u32> = Vec::new();
    let mut x = n;
    let ghost mut i: nat = 0;
    while x > 1
        invariant
            c_stops_at(n as nat, k),
            i <= k,
            x == c_orbit(n as nat, i),
            seq@ == c_vs(n as nat, i),
        decreases k - i,
    {
        assert(i < k);
        if x % 2 == 0 {
            x = condensed_collatz(x);
        } else {
            let t = 3 * x + 1;
            let v = trailing_zeros(t);
            seq.push(v);
            proof { lemma_u64_shr_is_div(t, v as u64); }
            x = t >> (v as u64);
        }
        proof {
            i = i + 1;
            assert(seq@ =~= c_vs(n as nat, i));
        }
    }
    proof {
        assert(c_stops_at(n as nat, i)) by {
            assert forall|j: nat| j < i implies c_orbit(n as nat, j) > 1 by { assert(j < k); }
        }
        lemma_c_stop_unique(n as nat, i, k);
    }
    memo.insert(n, seq.clone());
    seq
}

/// The branch measure `x + y` of `n` (see `branch_of`).
pub open spec fn branch_measure(n: nat) -> nat {
    branch_of(n).0 + branch_of(n).1
}

/// The largest branch measure along the first `k` steps of the condensed walk from `n`, and 1.
pub open spec fn b_peak(n: nat, k: nat) -> nat
    decreases k,
{
    if k == 0 { 1 } else {
        let rest = b_peak(c_next(n), (k - 1) as nat);
        if branch_measure(n) > rest { branch_measure(n) } else { rest }
    }
}

/// Whether every entry of a cache of branch peaks is right.
pub open spec fn b_memo_ok(m: Map<u64, u32>) -> bool {
    forall|key: u64| #[trigger] m.contains_key(key) ==> c_settles(key as nat) && m[key] == b_peak(key as nat, c_stop(key as nat))
}

/// The largest branch measure `x + y` on the condensed walk from `n` to 1 (see `b_peak`);
/// results are kept in `memo`, and one found there is used.
pub fn compute_peak_b1(n: u64, memo: &mut std::collections::HashMap<u64, u32>) -> (r: u32)
    requires
        n >= 1,
        c_settles(n as nat),
        b_memo_ok(old(memo)@),
    ensures
        r == b_peak(n as nat, c_stop(n as nat)),
        b_memo_ok(final(memo)@),
    decreases c_stop(n as nat),
{
    broadcast use vstd::std_specs::hash::group_hash_axioms;
    match memo.get(&n) {
        Some(p) => { return *p; },
        None => {},
    }
    if n == 1 {
        proof {
            assert(c_stops_at(1, 0));
            lemma_c_stop_unique(1, 0, c_stop(1));
        }
        return 1;
    }
    proof { lemma_c_settles_step(n as nat); }
    let (y, bx, _r) = decompose_branch(n);
    let b_here = bx + y;
    let next = condensed_collatz(n);
    proof {
        assert(next == c_next(n as nat));
        if n % 2 == 1 {
            let t = (3 * n + 1) as nat;
            lemma_tz_split(t, 64);
            let p = pow2(tz(t, 64));
            lemma_pow2_pos(tz(t, 64));
            assert(next == t / p);
            assert(next >= 1) by (nonlinear_arith)
                requires t == p * next, p > 0, t > 0;
        }
    }
    let peak_rest = compute_peak_b1(next, memo);
    let result = if b_here > peak_rest { b_here } else { peak_rest };
    memo.insert(n, result);
    result
}

/// The odd preimage of an odd `n` under the condensed map for exponent `v`: the odd `m` with
/// `3m + 1 = 2^v n`, when `2^v n` fits in 128 bits and `m` in 64.
pub open spec fn preimage_for(n: nat, v: nat) -> Option<nat> {
    let p = pow2(v) * n;
    if n % 2 == 1 && p <= u128::MAX && p % 3 == 1 && (p - 1) / 3 <= u64::MAX && ((p - 1) / 3) % 2 == 1 {
        Some(((p - 1) / 3) as nat)
    } else {
        None
    }
}

/// Doubling adds one trailing zero and keeps the odd part.
proof fn lemma_odd_part_double(y: nat, w: nat)
    requires
        y > 0,
    ensures
        tz(2 * y, w) == 1 + tz(y, w),
        (2 * y) / pow2(tz(2 * y, w)) == y / pow2(tz(y, w)),
{
    assert((2 * y) / 2 == y);
    assert(tz(2 * y, w) == 1 + tz(y, w));
    let k = tz(y, w);
    lemma_pow2_pos(k);
    vstd::arithmetic::power2::lemma_pow2_unfold(k + 1);
    vstd::arithmetic::div_mod::lemma_div_denominator((2 * y) as int, 2, pow2(k) as int);
}

/// The odd part of `2^v n` is that of `n`.
proof fn lemma_odd_part_shift(n: nat, v: nat, w: nat)
    requires
        n > 0,
    ensures
        (pow2(v) * n) / pow2(tz(pow2(v) * n, w)) == n / pow2(tz(n, w)),
    decreases v,
{
    if v == 0 {
        lemma2_to64();
    } else {
        lemma_odd_part_shift(n, (v - 1) as nat, w);
        vstd::arithmetic::power2::lemma_pow2_unfold(v);
        lemma_pow2_pos((v - 1) as nat);
        let y = pow2((v - 1) as nat) * n;
        assert(y > 0) by (nonlinear_arith) requires pow2((v - 1) as nat) > 0, n > 0, y == pow2((v - 1) as nat) * n;
        assert(pow2(v) * n == 2 * y) by (nonlinear_arith) requires pow2(v) == 2 * pow2((v - 1) as nat), y == pow2((v - 1) as nat) * n;
        lemma_odd_part_double(y, w);
    }
}

/// The odd part of `n` is `n` exactly when `n` is odd.
proof fn lemma_odd_part_is_self(n: nat, w: nat)
    requires
        n > 0,
    ensures
        (n / pow2(tz(n, w)) == n) == (n % 2 == 1),
{
    lemma2_to64();
    if n % 2 == 0 {
        assert(tz(n, w) == 1 + tz(n / 2, w));
        lemma_pow2_pos(tz(n / 2, w));
        vstd::arithmetic::power2::lemma_pow2_unfold(tz(n, w));
        let d = pow2(tz(n, w));
        assert(d >= 2);
        assert(n / d < n) by (nonlinear_arith) requires d >= 2, n > 0;
    } else {
        assert(tz(n, w) == 0);
        assert(n / pow2(0) == n);
    }
}

/// The preimages of `n` under the condensed map: `2n` when it fits, then the odd ones for
/// the exponents 1 to `v`.
pub open spec fn preimages_upto(n: nat, v: nat) -> Seq<u64>
    decreases v,
{
    if v == 0 {
        if 2 * n <= u64::MAX { seq![(2 * n) as u64] } else { Seq::empty() }
    } else {
        preimages_upto(n, (v - 1) as nat) + match preimage_for(n, v) { Some(m) => seq![m as u64], None => Seq::empty() }
    }
}

/// The preimages of `n` under the condensed map for exponents up to `max_v` (see
/// `preimages_upto`).
pub fn preimages_condensed(n: u64, max_v: u32) -> (r: Vec<u64>)
    requires
        max_v < 128,
        n > 0 || max_v == 0,
    ensures
        r@ == preimages_upto(n as nat, max_v as nat),
{
    let mut result: Vec<u64> = Vec::new();
    if let Some(even) = n.checked_mul(2) {
        result.push(even);
    }
    assert(result@ =~= preimages_upto(n as nat, 0));
    let mut v: u32 = 1;
    let mut pow: u128 = 2;
    proof { lemma2_to64(); }
    while v <= max_v
        invariant
            1 <= v <= max_v + 1,
            max_v < 128,
            n > 0 || max_v == 0,
            v <= 127 ==> pow == pow2(v as nat),
            result@ == preimages_upto(n as nat, (v - 1) as nat),
        decreases max_v + 1 - v,
    {
        let ghost before = result@;
        match pow.checked_mul(n as u128) {
            Some(p) => {
                proof {
                    lemma_pow2_pos(v as nat);
                    assert(p >= 1) by (nonlinear_arith) requires p == pow * (n as u128), pow > 0, n > 0;
                }
                let num = p - 1;
                if num % 3 == 0 && num / 3 <= u64::MAX as u128 {
                    let m = (num / 3) as u64;
                    if m % 2 == 1 {
                        let t = 3 * (m as u128) + 1;
                        let z = trailing_zeros_u128(t);
                        proof { vstd::bits::lemma_u128_shr_is_div(t, z as u128); }
                        let check = t >> (z as u128);
                        assert((check as u64) as u128 == check % 0x1_0000_0000_0000_0000) by (bit_vector);
                        proof {
                            assert(t == p);
                            lemma_odd_part_shift(n as nat, v as nat, 128);
                            lemma_odd_part_is_self(n as nat, 128);
                            lemma_pow2_pos(tz(n as nat, 128));
                            assert(check <= n) by (nonlinear_arith)
                                requires check == (n as nat) / pow2(tz(n as nat, 128)), pow2(tz(n as nat, 128)) > 0;
                        }
                        if check as u64 == n {
                            result.push(m);
                        }
                    }
                }
            },
            None => {},
        }
        proof {
            assert(result@ =~= preimages_upto(n as nat, v as nat));
        }
        if v < 127 {
            proof {
                vstd::arithmetic::power2::lemma_pow2_unfold((v + 1) as nat);
                lemma_pow2_128();
                vstd::arithmetic::power2::lemma_pow2_strictly_increases((v + 1) as nat, 128);
            }
            pow = pow * 2;
        }
        v = v + 1;
    }
    result
}

/// Whether following the odd steps with exponents `vs` and then `last` from `x` meets only odd
/// numbers whose exponent is the predicted one (see `first_repeat`), and ends at 1.
pub open spec fn consistent_from(x: nat, vs: Seq<u32>, last: u32) -> bool
    decreases vs.len(),
{
    if vs.len() == 0 {
        x % 2 == 1 && first_repeat(x, 1, 128) == last && (3 * x + 1) / pow2(last as nat) == 1
    } else {
        x % 2 == 1 && first_repeat(x, 1, 128) == vs[0]
            && consistent_from((3 * x + 1) / pow2(vs[0] as nat), vs.drop_first(), last)
    }
}

/// Whether the odd steps of `x` stay small enough for `3x + 1` in 128 bits, with exponents
/// below 128.
pub open spec fn consistent_fits(x: nat, vs: Seq<u32>, last: u32) -> bool
    decreases vs.len(),
{
    if vs.len() == 0 {
        x % 2 == 1 && first_repeat(x, 1, 128) == last ==> x <= ODD_LIMIT_128 && last < 128
    } else {
        x % 2 == 1 && first_repeat(x, 1, 128) == vs[0] ==> x <= ODD_LIMIT_128 && vs[0] < 128
            && consistent_fits((3 * x + 1) / pow2(vs[0] as nat), vs.drop_first(), last)
    }
}

/// Whether `n0` follows the exponents `v_prefix` then `last_v` to 1 (see `consistent_from`).
pub fn verify_n0_consistency(n0: u128, _k: usize, v_prefix: &[u32], last_v: u32) -> (r: bool)
    requires
        consistent_fits(n0 as nat, v_prefix@, last_v),
    ensures
        r == consistent_from(n0 as nat, v_prefix@, last_v),
{
    let mut x = n0;
    let mut i: usize = 0;
    assert(v_prefix@.subrange(0, v_prefix@.len() as int) =~= v_prefix@);
    while i < v_prefix.len()
        invariant
            i <= v_prefix@.len(),
            consistent_from(x as nat, v_prefix@.subrange(i as int, v_prefix@.len() as int), last_v)
                == consistent_from(n0 as nat, v_prefix@, last_v),
            consistent_fits(x as nat, v_prefix@.subrange(i as int, v_prefix@.len() as int), last_v),
        decreases v_prefix@.len() - i,
    {
        let v = v_prefix[i];
        let ghost rest = v_prefix@.subrange(i as int, v_prefix@.len() as int);
        assert(rest[0] == v);
        assert(rest.drop_first() =~= v_prefix@.subrange(i + 1, v_prefix@.len() as int));
        if x % 2 == 0 {
            return false;
        }
        let v_found = predict_tz_u128(x);
        if v_found != v {
            return false;
        }
        let t = 3 * x + 1;
        proof { vstd::bits::lemma_u128_shr_is_div(t, v as u128); }
        x = t >> (v as u128);
        i = i + 1;
    }
    assert(v_prefix@.subrange(v_prefix@.len() as int, v_prefix@.len() as int) =~= Seq::<u32>::empty());
    if x % 2 == 0 {
        return false;
    }
    let v_found = predict_tz_u128(x);
    if v_found != last_v {
        return false;
    }
    let t = 3 * x + 1;
    proof { vstd::bits::lemma_u128_shr_is_div(t, last_v as u128); }
    x = t >> (last_v as u128);
    x == 1
}

// ---------------------------------------------------------------- inverse tree

/// Whether `l` is strictly increasing.
pub open spec fn increasing(l: Seq<u64>) -> bool {
    forall|i: int, j: int| 0 <= i < j < l.len() ==> l[i] < l[j]
}

/// The elements of the finite set `s` in increasing order.
pub open spec fn sorted_u64(s: Set<u64>) -> Seq<u64> {
    choose|l: Seq<u64>| increasing(l) && l.to_set() == s
}

/// Two increasing sequences with the same elements are equal.
pub proof fn lemma_increasing_unique(a: Seq<u64>, b: Seq<u64>)
    requires
        increasing(a),
        increasing(b),
        a.to_set() == b.to_set(),
    ensures
        a == b,
    decreases a.len(),
{
    if a.len() == 0 {
        if b.len() > 0 {
            assert(b.to_set().contains(b[0]));
        }
        assert(a =~= b);
    } else {
        assert(a.to_set().contains(a[0]));
        assert(b.to_set().contains(a[0]));
        assert(b.to_set().contains(b[0]));
        assert(a.to_set().contains(b[0]));
        let j = choose|j: int| 0 <= j < b.len() && b[j] == a[0];
        let i = choose|i: int| 0 <= i < a.len() && a[i] == b[0];
        assert(a[0] == b[0]) by {
            if j > 0 && i > 0 {
                assert(b[0] < b[j]);
                assert(a[0] < a[i]);
            } else if j > 0 {
                assert(b[0] < b[j]);
            } else {
            }
        }
        let a1 = a.drop_first();
        let b1 = b.drop_first();
        assert(a1.to_set() =~= b1.to_set()) by {
            assert forall|x: u64| a1.to_set().contains(x) <==> b1.to_set().contains(x) by {
                if a1.to_set().contains(x) {
                    let k = choose|k: int| 0 <= k < a1.len() && a1[k] == x;
                    assert(a[k + 1] == x && a[0] < a[k + 1]);
                    assert(a.to_set().contains(x));
                    let m = choose|m: int| 0 <= m < b.len() && b[m] == x;
                    assert(m != 0);
                    assert(b1[m - 1] == x);
                }
                if b1.to_set().contains(x) {
                    let k = choose|k: int| 0 <= k < b1.len() && b1[k] == x;
                    assert(b[k + 1] == x && b[0] < b[k + 1]);
                    assert(b.to_set().contains(x));
                    let m = choose|m: int| 0 <= m < a.len() && a[m] == x;
                    assert(m != 0);
                    assert(a1[m - 1] == x);
                }
            }
        }
        lemma_increasing_unique(a1, b1);
        assert(a =~= b) by {
            assert forall|k: int| 0 <= k < a.len() implies a[k] == b[k] by {
                if k > 0 { assert(a1[k - 1] == b1[k - 1]); }
            }
        }
    }
}

/// The numbers in any level of `levels`.
pub open spec fn seen(levels: Seq<Seq<u64>>) -> Set<u64> {
    Set::new(|x: u64| exists|d: int| 0 <= d < levels.len() && #[trigger] levels[d].contains(x))
}

/// The preimages (exponents up to `max_v`) of the first `i` numbers of `level`, and the
/// first `j` preimages of number `i`, that are not yet in `levels`.
pub open spec fn fresh_upto(levels: Seq<Seq<u64>>, level: Seq<u64>, max_v: nat, i: int, j: int) -> Set<u64> {
    Set::new(|c: u64| !seen(levels).contains(c) && (
        (exists|a: int| 0 <= a < i && #[trigger] preimages_upto(level[a] as nat, max_v).contains(c))
        || (0 <= i < level.len() && preimages_upto(level[i] as nat, max_v).take(j).contains(c))))
}

/// The next level below `levels`: the preimages of its last level not in any level yet.
pub open spec fn next_level(levels: Seq<Seq<u64>>, max_v: nat) -> Set<u64> {
    fresh_upto(levels, levels.last(), max_v, levels.last().len() as int, 0)
}

/// The levels of the condensed tree above `root`, at most `depth` below it, stopping at the
/// first empty one: each in increasing order, no number twice.
pub open spec fn tree_levels(root: u64, depth: nat, max_v: nat) -> Seq<Seq<u64>>
    decreases depth,
{
    if depth == 0 {
        seq![seq![root]]
    } else {
        let t = tree_levels(root, (depth - 1) as nat, max_v);
        if t.len() < depth || next_level(t, max_v) == Set::<u64>::empty() { t } else { t.push(sorted_u64(next_level(t, max_v))) }
    }
}

proof fn lemma_preimages_positive(n: nat, v: nat)
    requires
        n > 0,
    ensures
        forall|k: int| 0 <= k < preimages_upto(n, v).len() ==> preimages_upto(n, v)[k] > 0,
    decreases v,
{
    if v > 0 {
        lemma_preimages_positive(n, (v - 1) as nat);
        let prev = preimages_upto(n, (v - 1) as nat);
        match preimage_for(n, v) {
            Some(m) => {
                assert(m % 2 == 1 && m <= u64::MAX);
                let all = prev + seq![m as u64];
                assert(preimages_upto(n, v) == all);
                assert forall|k: int| 0 <= k < all.len() implies all[k] > 0 by {
                    if k < prev.len() { assert(all[k] == prev[k]); } else { assert(all[k] == m as u64); }
                }
            },
            None => {
                assert(preimages_upto(n, v) =~= prev);
            },
        }
    }
}

/// Whether `v` holds `x`.
fn vec_contains(v: &Vec<u64>, x: u64) -> (r: bool)
    ensures
        r == v@.contains(x),
{
    let mut i: usize = 0;
    while i < v.len()
        invariant
            i <= v@.len(),
            forall|k: int| 0 <= k < i ==> v@[k] != x,
        decreases v@.len() - i,
    {
        if v[i] == x {
            return true;
        }
        i = i + 1;
    }
    false
}

/// Whether any level holds `x`.
pub fn levels_contain(levels: &Vec<Vec<u64>>, x: u64) -> (r: bool)
    ensures
        r == seen(levels@.map_values(|l: Vec<u64>| l@)).contains(x),
{
    let ghost ls = levels@.map_values(|l: Vec<u64>| l@);
    let mut d: usize = 0;
    while d < levels.len()
        invariant
            ls == levels@.map_values(|l: Vec<u64>| l@),
            d <= levels@.len(),
            forall|e: int| 0 <= e < d ==> !ls[e].contains(x),
        decreases levels@.len() - d,
    {
        if vec_contains(&levels[d], x) {
            assert(ls[d as int].contains(x));
            return true;
        }
        d = d + 1;
    }
    false
}

/// Adds `x`, not in `v`, to the increasing `v` in its place.
fn insert_increasing(v: &mut Vec<u64>, x: u64)
    requires
        increasing(old(v)@),
        !old(v)@.contains(x),
    ensures
        increasing(final(v)@),
        final(v)@.to_set() == old(v)@.to_set().insert(x),
{
    let mut p: usize = 0;
    while p < v.len() && v[p] < x
        invariant
            p <= v@.len(),
            forall|k: int| 0 <= k < p ==> v@[k] < x,
        decreases v@.len() - p,
    {
        p = p + 1;
    }
    let ghost v0 = v@;
    proof {
        if p < v@.len() {
            assert(v@[p as int] != x);
        }
    }
    v.insert(p, x);
    assert(v@ =~= v0.insert(p as int, x));
    assert(v@.to_set() =~= v0.to_set().insert(x)) by {
        assert forall|y: u64| v@.to_set().contains(y) <==> v0.to_set().insert(x).contains(y) by {
            if v@.to_set().contains(y) {
                let k = choose|k: int| 0 <= k < v@.len() && v@[k] == y;
                if k < p { assert(v0[k] == y); } else if k > p { assert(v0[k - 1] == y); }
            }
            if v0.to_set().contains(y) {
                let k = choose|k: int| 0 <= k < v0.len() && v0[k] == y;
                if k < p { assert(v@[k] == y); } else { assert(v@[k + 1] == y); }
            }
            if y == x { assert(v@[p as int] == y); }
        }
    }
}

/// The level after `levels` (see `next_level`), in increasing order.
fn build_next(levels: &Vec<Vec<u64>>, max_v: u32) -> (r: Vec<u64>)
    requires
        levels@.len() >= 1,
        max_v < 128,
        forall|d: int, k: int| 0 <= d < levels@.len() && 0 <= k < levels@[d]@.len() ==> #[trigger] levels@[d]@[k] > 0,
    ensures
        increasing(r@),
        r@.to_set() == next_level(levels@.map_values(|l: Vec<u64>| l@), max_v as nat),
        forall|k: int| 0 <= k < r@.len() ==> r@[k] > 0,
{
    let ghost ls = levels@.map_values(|l: Vec<u64>| l@);
    let last = levels.len() - 1;
    let ghost level = ls[last as int];
    let mut next: Vec<u64> = Vec::new();
    let mut i: usize = 0;
    assert(next@.to_set() =~= fresh_upto(ls, level, max_v as nat, 0, 0)) by {
        assert forall|c: u64| !fresh_upto(ls, level, max_v as nat, 0, 0).contains(c) by {
            if 0 < level.len() {
                assert(preimages_upto(level[0] as nat, max_v as nat).take(0) =~= Seq::<u64>::empty());
            }
        }
    }
    while i < levels[last].len()
        invariant
            ls == levels@.map_values(|l: Vec<u64>| l@),
            last == levels@.len() - 1,
            level == ls[last as int],
            level == levels@[last as int]@,
            max_v < 128,
            forall|d: int, k: int| 0 <= d < levels@.len() && 0 <= k < levels@[d]@.len() ==> #[trigger] levels@[d]@[k] > 0,
            i <= level.len(),
            increasing(next@),
            next@.to_set() == fresh_upto(ls, level, max_v as nat, i as int, 0),
        decreases level.len() - i,
    {
        let n = levels[last][i];
        assert(n > 0) by { assert(levels@[last as int]@[i as int] > 0); }
        let kids = preimages_condensed(n, max_v);
        proof { lemma_preimages_positive(n as nat, max_v as nat); }
        let mut j: usize = 0;
        assert(fresh_upto(ls, level, max_v as nat, i as int, 0) =~= fresh_upto(ls, level, max_v as nat, i as int, 0));
        while j < kids.len()
            invariant
                ls == levels@.map_values(|l: Vec<u64>| l@),
                last == levels@.len() - 1,
                level == ls[last as int],
                i < level.len(),
                n == level[i as int],
                kids@ == preimages_upto(n as nat, max_v as nat),
                forall|k: int| 0 <= k < kids@.len() ==> kids@[k] > 0,
                j <= kids@.len(),
                increasing(next@),
                next@.to_set() == fresh_upto(ls, level, max_v as nat, i as int, j as int),
            decreases kids@.len() - j,
        {
            let c = kids[j];
            let ghost before = next@.to_set();
            let in_next = vec_contains(&next, c);
            let in_levels = levels_contain(levels, c);
            if !in_next && !in_levels {
                insert_increasing(&mut next, c);
            }
            proof {
                assert(kids@.take(j + 1) =~= kids@.take(j as int).push(c));
                assert(next@.to_set() =~= fresh_upto(ls, level, max_v as nat, i as int, j + 1)) by {
                    assert forall|x: u64| #![auto] next@.to_set().contains(x) <==> fresh_upto(ls, level, max_v as nat, i as int, j + 1).contains(x) by {
                        if x == c {
                            if in_next {
                                assert(before.contains(c));
                            }
                        }
                        broadcast use vstd::seq_lib::group_seq_properties;
                    }
                }
            }
            j = j + 1;
        }
        proof {
            assert(kids@.take(kids@.len() as int) =~= kids@);
            assert(fresh_upto(ls, level, max_v as nat, i as int, kids@.len() as int)
                =~= fresh_upto(ls, level, max_v as nat, i + 1, 0)) by {
                assert forall|x: u64| fresh_upto(ls, level, max_v as nat, i as int, kids@.len() as int).contains(x)
                    <==> fresh_upto(ls, level, max_v as nat, i + 1, 0).contains(x) by {
                    if i + 1 < level.len() {
                        assert(preimages_upto(level[i + 1] as nat, max_v as nat).take(0) =~= Seq::<u64>::empty());
                    }
                    if exists|a: int| 0 <= a < i + 1 && #[trigger] preimages_upto(level[a] as nat, max_v as nat).contains(x) {
                        let a = choose|a: int| 0 <= a < i + 1 && #[trigger] preimages_upto(level[a] as nat, max_v as nat).contains(x);
                        if a == i {
                            assert(kids@.take(kids@.len() as int).contains(x));
                        }
                    }
                }
            }
        }
        i = i + 1;
    }
    proof {
        assert forall|k: int| 0 <= k < next@.len() implies next@[k] > 0 by {
            let x = next@[k];
            assert(next@.to_set().contains(x));
            let a = choose|a: int| 0 <= a < level.len() && #[trigger] preimages_upto(level[a] as nat, max_v as nat).contains(x);
            assert(level[a] == levels@[last as int]@[a]);
            lemma_preimages_positive(level[a] as nat, max_v as nat);
            let q = choose|q: int| 0 <= q < preimages_upto(level[a] as nat, max_v as nat).len()
                && preimages_upto(level[a] as nat, max_v as nat)[q] == x;
        }
    }
    next
}

/// Once a level comes out empty, the tree grows no more.
proof fn lemma_tree_stops(root: u64, d: nat, e: nat, max_v: nat)
    requires
        d <= e,
        tree_levels(root, d, max_v).len() < d + 1 || next_level(tree_levels(root, d, max_v), max_v) == Set::<u64>::empty(),
        d > 0 ==> tree_levels(root, d, max_v).len() <= d + 1,
    ensures
        tree_levels(root, e, max_v) == tree_levels(root, d, max_v),
    decreases e - d,
{
    lemma_tree_len(root, d, max_v);
    if d < e {
        assert(tree_levels(root, d + 1, max_v) == tree_levels(root, d, max_v));
        lemma_tree_stops(root, d + 1, e, max_v);
    }
}

proof fn lemma_tree_len(root: u64, d: nat, max_v: nat)
    ensures
        1 <= tree_levels(root, d, max_v).len() <= d + 1,
    decreases d,
{
    if d > 0 {
        lemma_tree_len(root, (d - 1) as nat, max_v);
    }
}

/// The levels of the condensed tree above `root` (see `tree_levels`).
pub fn build_subtree(root: u64, depth: usize, max_v: u32) -> (r: Vec<Vec<u64>>)
    requires
        root > 0,
        max_v < 128,
    ensures
        r@.map_values(|l: Vec<u64>| l@) == tree_levels(root, depth as nat, max_v as nat),
{
    let mut levels: Vec<Vec<u64>> = Vec::new();
    let mut first: Vec<u64> = Vec::new();
    first.push(root);
    levels.push(first);
    assert(levels@.map_values(|l: Vec<u64>| l@) =~= tree_levels(root, 0, max_v as nat));
    let mut d: usize = 0;
    while d < depth
        invariant
            root > 0,
            max_v < 128,
            d <= depth,
            levels@.len() == d + 1,
            levels@.map_values(|l: Vec<u64>| l@) == tree_levels(root, d as nat, max_v as nat),
            forall|a: int, k: int| 0 <= a < levels@.len() && 0 <= k < levels@[a]@.len() ==> #[trigger] levels@[a]@[k] > 0,
        decreases depth - d,
    {
        let ghost t = levels@.map_values(|l: Vec<u64>| l@);
        let next = build_next(&levels, max_v);
        if next.len() == 0 {
            proof {
                assert(next@.to_set() =~= Set::<u64>::empty());
                lemma_tree_stops(root, d as nat, depth as nat, max_v as nat);
            }
            return levels;
        }
        proof {
            assert(next@.to_set().contains(next@[0]));
            assert(next_level(t, max_v as nat) != Set::<u64>::empty());
            let w = sorted_u64(next_level(t, max_v as nat));
            assert(increasing(w) && w.to_set() == next_level(t, max_v as nat));
            lemma_increasing_unique(next@, w);
        }
        let ghost nv = next@;
        levels.push(next);
        proof {
            assert(levels@.map_values(|l: Vec<u64>| l@) =~= t.push(nv));
            assert(tree_levels(root, (d + 1) as nat, max_v as nat) == t.push(sorted_u64(next_level(t, max_v as nat))));
        }
        d = d + 1;
    }
    levels
}

/// The number of numbers in levels `from..` of `t`.
pub open spec fn levels_size(t: Seq<Seq<u64>>, from: int) -> nat
    decreases t.len() - from,
{
    if from < 0 || from >= t.len() { 0 } else { t[from].len() + levels_size(t, from + 1) }
}

/// The number of numbers below the root in its tree of at most `depth` levels, with
/// exponents up to 20.
pub fn subtree_size(root: u64, depth: usize) -> (r: usize)
    requires
        root > 0,
        levels_size(tree_levels(root, depth as nat, 20), 1) <= usize::MAX,
    ensures
        r == levels_size(tree_levels(root, depth as nat, 20), 1),
{
    let tree = build_subtree(root, depth, 20);
    let ghost t = tree@.map_values(|l: Vec<u64>| l@);
    let mut total: usize = 0;
    let mut d: usize = tree.len();
    proof { lemma_tree_len(root, depth as nat, 20); }
    while d > 1
        invariant
            t == tree@.map_values(|l: Vec<u64>| l@),
            t == tree_levels(root, depth as nat, 20),
            levels_size(t, 1) <= usize::MAX,
            1 <= d <= tree@.len(),
            total == levels_size(t, d as int),
        decreases d,
    {
        d = d - 1;
        proof { lemma_levels_size_mono(t, 1, d as int); }
        assert(t[d as int].len() == tree@[d as int]@.len());
        total = total + tree[d].len();
    }
    total
}

proof fn lemma_levels_size_mono(t: Seq<Seq<u64>>, a: int, b: int)
    requires
        0 <= a <= b,
    ensures
        levels_size(t, b) <= levels_size(t, a),
    decreases b - a,
{
    if a < b && a < t.len() {
        lemma_levels_size_mono(t, a + 1, b);
    }
}

} // verus!
