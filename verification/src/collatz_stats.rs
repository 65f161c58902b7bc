//! The integer work behind more of the analyzer's reports: the carry chain of one odd step
//! written bit by bit, the distribution of the exponent of `3n + 1`, the record holders of
//! the stopping time, the differences of consecutive stopping times, the runs of the parity
//! sequences, the integer columns of the feature table, the search for cycles, the probe of
//! the condensed walk and the branch layers along it. Shares, means, ratios and growth rates
//! are floating point and are left to the program that prints them.
use vstd::prelude::*;
use crate::collatz::{settles, stop_time, stops_at, orbit, tz, trailing_zeros, parity_sequence, bits_left, bit, ODD_LIMIT};
use crate::collatz::{ones, popcount, lemma_bits_bound, trailing_zeros_u128, ODD_LIMIT_128, first_repeat, predict_trailing_zeros,
    condensed, condensed_collatz, branch_of, decompose_branch, lemma_tz_split};
use crate::collatz_scan::bit_length;
use vstd::bits::lemma_u64_shr_is_div;
use vstd::arithmetic::power2::{pow2, lemma_pow2_pos, lemma_pow2_unfold, lemma2_to64, lemma2_to64_rest, lemma_pow2_strictly_increases};
use crate::collatz_report::{cache_good, stop_of, lemma_limit_bound, abs_diff};

verus! {

/// A vector of `k` zeros.
fn zeros(k: usize) -> (r: Vec<u64>)
    ensures
        r@.len() == k,
        forall|i: int| 0 <= i < k ==> r@[i] == 0,
{
    let mut v: Vec<u64> = Vec::new();
    let mut i: usize = 0;
    while i < k
        invariant
            i <= k,
            v@.len() == i,
            forall|j: int| 0 <= j < i ==> v@[j] == 0,
        decreases k - i,
    {
        v.push(0);
        i = i + 1;
    }
    v
}

// ---------------------------------------------------------------- exponent distribution

/// Whether `n` is odd and `3n + 1` ends in exactly `v` zero bits.
pub open spec fn has_exponent(n: nat, v: nat) -> bool {
    n % 2 == 1 && tz(3 * n + 1, 64) == v
}

/// How many numbers in `1 ..= m` are odd with exponent `v` (see `has_exponent`).
pub open spec fn carry_count(m: nat, v: nat) -> nat
    decreases m,
{
    if m == 0 { 0 } else { carry_count((m - 1) as nat, v) + if has_exponent(m, v) { 1nat } else { 0nat } }
}

/// The least odd number in `1 ..= m` with exponent `v`, 0 when there is none.
pub open spec fn carry_least(m: nat, v: nat) -> nat
    decreases m,
{
    if m == 0 { 0 } else {
        let l = carry_least((m - 1) as nat, v);
        if l != 0 { l } else if has_exponent(m, v) { m } else { 0 }
    }
}

/// For each exponent `v` from 0 to 64, how many odd `n <= limit` have `3n + 1` ending in
/// exactly `v` zero bits, and the least of them (0 when there is none).
pub fn carry_histogram(limit: u64) -> (r: (Vec<u64>, Vec<u64>))
    requires
        limit <= ODD_LIMIT,
    ensures
        r.0@.len() == 65,
        r.1@.len() == 65,
        forall|v: int| 0 <= v < 65 ==> #[trigger] r.0@[v] == carry_count(limit as nat, v as nat)
            && r.1@[v] == carry_least(limit as nat, v as nat),
{
    let mut counts = zeros(65);
    let mut least = zeros(65);
    let mut n: u64 = 1;
    while n <= limit
        invariant
            1 <= n <= limit + 1,
            limit <= ODD_LIMIT,
            counts@.len() == 65,
            least@.len() == 65,
            forall|v: int| 0 <= v < 65 ==> #[trigger] counts@[v] == carry_count((n - 1) as nat, v as nat)
                && least@[v] == carry_least((n - 1) as nat, v as nat),
            forall|v: int| 0 <= v < 65 ==> #[trigger] counts@[v] < n,
        decreases limit + 1 - n,
    {
        let ghost c0 = counts@;
        let ghost l0 = least@;
        if n % 2 == 1 {
            let v = trailing_zeros(3 * n + 1) as usize;
            let c = counts[v];
            counts.set(v, c + 1);
            if least[v] == 0 {
                least.set(v, n);
            }
            assert forall|w: int| 0 <= w < 65 implies #[trigger] counts@[w] == carry_count(n as nat, w as nat)
                && least@[w] == carry_least(n as nat, w as nat) && counts@[w] < n + 1 by {
                assert(c0[w] == carry_count((n - 1) as nat, w as nat));
                assert(has_exponent(n as nat, w as nat) == (w == v));
            }
        } else {
            assert forall|w: int| 0 <= w < 65 implies #[trigger] counts@[w] == carry_count(n as nat, w as nat)
                && least@[w] == carry_least(n as nat, w as nat) && counts@[w] < n + 1 by {
                assert(c0[w] == carry_count((n - 1) as nat, w as nat));
                assert(!has_exponent(n as nat, w as nat));
            }
        }
        n = n + 1;
    }
    (counts, least)
}

// ---------------------------------------------------------------- record holders

/// The largest stopping time among `1 ..= m` (0 for none).
pub open spec fn best_stop(m: nat) -> nat
    decreases m,
{
    if m == 0 { 0 } else {
        let b = best_stop((m - 1) as nat);
        if stop_time(m) > b { stop_time(m) } else { b }
    }
}

/// The numbers in `1 ..= m` whose stopping time exceeds that of every smaller number, in
/// increasing order, each with its stopping time.
pub open spec fn records_upto(m: nat) -> Seq<(u64, u64)>
    decreases m,
{
    if m == 0 { Seq::empty() } else {
        let r = records_upto((m - 1) as nat);
        if stop_time(m) > best_stop((m - 1) as nat) { r.push((m as u64, stop_time(m) as u64)) } else { r }
    }
}

/// The record holders of the stopping time in `1 ..= limit` (see `records_upto`).
pub fn record_holders(limit: u64, cache: &mut Vec<u64>) -> (r: Vec<(u64, u64)>)
    requires
        forall|n: nat| 1 <= n <= limit ==> #[trigger] settles(n),
        cache_good(old(cache)@),
    ensures
        r@ == records_upto(limit as nat),
        cache_good(final(cache)@),
        final(cache)@.len() == old(cache)@.len(),
{
    let mut out: Vec<(u64, u64)> = Vec::new();
    if limit == 0 {
        return out;
    }
    proof { lemma_limit_bound(limit); }
    let mut best: u64 = 0;
    let mut n: u64 = 1;
    while n <= limit
        invariant
            1 <= n <= limit + 1,
            limit <= ODD_LIMIT + 1,
            forall|m: nat| 1 <= m <= limit ==> #[trigger] settles(m),
            cache_good(cache@),
            cache@.len() == old(cache)@.len(),
            best == best_stop((n - 1) as nat),
            out@ == records_upto((n - 1) as nat),
        decreases limit + 1 - n,
    {
        assert(settles(n as nat));
        let s = stop_of(n, cache);
        if s > best {
            best = s;
            out.push((n, s));
        }
        n = n + 1;
    }
    out
}

// ---------------------------------------------------------------- parity runs

/// The parities (0 even, 1 odd) of the orbit of a settling `n` before it comes to 1.
pub open spec fn parity_bits(n: nat) -> Seq<u8> {
    Seq::new(stop_time(n), |j: int| (orbit(n, j as nat) % 2) as u8)
}

/// How many entries of `s` equal `b`.
pub open spec fn count_of(s: Seq<u8>, b: u8) -> nat
    decreases s.len(),
{
    if s.len() == 0 { 0 } else { count_of(s.drop_last(), b) + if s.last() == b { 1nat } else { 0nat } }
}

/// The lengths of the runs of equal entries of `s`, in order.
pub open spec fn runs(s: Seq<u8>) -> Seq<u64>
    decreases s.len(),
{
    if s.len() == 0 {
        Seq::empty()
    } else {
        let r = runs(s.drop_last());
        if s.len() >= 2 && s.last() == s[s.len() - 2] {
            r.update(r.len() - 1, (r.last() + 1) as u64)
        } else {
            r.push(1)
        }
    }
}

/// The zeros, the ones and the run lengths of the parity sequences of `1 ..= m`, the runs of
/// each number after those of the one before.
pub open spec fn parity_stats(m: nat) -> (nat, nat, Seq<u64>)
    decreases m,
{
    if m == 0 { (0, 0, Seq::empty()) } else {
        let (z, o, r) = parity_stats((m - 1) as nat);
        let b = parity_bits(m);
        (z + count_of(b, 0), o + count_of(b, 1), r + runs(b))
    }
}

proof fn lemma_count_bound(s: Seq<u8>)
    ensures
        count_of(s, 0) + count_of(s, 1) <= s.len(),
    decreases s.len(),
{
    if s.len() > 0 {
        lemma_count_bound(s.drop_last());
    }
}

/// The zeros, ones and run lengths of one parity sequence.
fn parity_counts(bits: &Vec<u8>) -> (r: (u64, u64, Vec<u64>))
    ensures
        r.0 == count_of(bits@, 0),
        r.1 == count_of(bits@, 1),
        r.2@ == runs(bits@),
{
    let mut z: u64 = 0;
    let mut o: u64 = 0;
    let mut out: Vec<u64> = Vec::new();
    if bits.len() == 0 {
        return (0, 0, out);
    }
    let mut run: u64 = 1;
    let mut i: usize = 1;
    if bits[0] == 0 { z = 1; } else if bits[0] == 1 { o = 1; }
    proof {
        let t1 = bits@.take(1);
        assert(t1.drop_last() =~= Seq::<u8>::empty());
        assert(t1.last() == bits@[0]);
        assert(count_of(t1.drop_last(), 0) == 0 && count_of(t1.drop_last(), 1) == 0);
        assert(runs(t1.drop_last()) =~= Seq::<u64>::empty());
        assert(count_of(t1, 0) == (if bits@[0] == 0 { 1nat } else { 0nat }));
        assert(count_of(t1, 1) == (if bits@[0] == 1 { 1nat } else { 0nat }));
        assert(runs(t1) =~= seq![1u64]);
        assert(out@.push(run) =~= seq![1u64]);
    }
    while i < bits.len()
        invariant
            1 <= i <= bits@.len(),
            1 <= run <= i,
            z == count_of(bits@.take(i as int), 0),
            o == count_of(bits@.take(i as int), 1),
            z + o <= i,
            out@.push(run) == runs(bits@.take(i as int)),
        decreases bits@.len() - i,
    {
        let ghost t = bits@.take(i + 1);
        proof {
            assert(t.drop_last() =~= bits@.take(i as int));
            assert(t.last() == bits@[i as int]);
            assert(t[t.len() - 2] == bits@[i - 1]);
        }
        if bits[i] == 0 { z = z + 1; } else if bits[i] == 1 { o = o + 1; }
        if bits[i] == bits[i - 1] {
            run = run + 1;
            proof {
                let r0 = runs(bits@.take(i as int));
                assert(r0.update(r0.len() - 1, (r0.last() + 1) as u64) =~= out@.push(run));
            }
        } else {
            out.push(run);
            run = 1;
        }
        i = i + 1;
    }
    assert(bits@.take(bits@.len() as int) =~= bits@);
    out.push(run);
    (z, o, out)
}

/// The zeros, the ones and the run lengths of the parity sequences of `1 ..= min(limit,
/// 10000)` (see `parity_stats`).
pub fn parity_runs(limit: u64) -> (r: (u128, u128, Vec<u64>))
    requires
        forall|n: nat| 1 <= n <= limit && n <= 10_000 ==> #[trigger] settles(n),
    ensures
        ({
            let m = if limit < 10_000 { limit as nat } else { 10_000nat };
            (r.0 as nat, r.1 as nat, r.2@) == parity_stats(m)
        }),
{
    let m: u64 = if limit < 10_000 { limit } else { 10_000 };
    let mut z: u128 = 0;
    let mut o: u128 = 0;
    let mut out: Vec<u64> = Vec::new();
    let mut n: u64 = 1;
    while n <= m
        invariant
            1 <= n <= m + 1,
            m <= 10_000,
            m <= limit,
            forall|k: nat| 1 <= k <= limit && k <= 10_000 ==> #[trigger] settles(k),
            (z as nat, o as nat, out@) == parity_stats((n - 1) as nat),
            z + o <= (n - 1) * 0x1_0000_0000_0000_0000,
        decreases m + 1 - n,
    {
        assert(settles(n as nat));
        let bits = parity_sequence(n);
        proof {
            let k = stop_time(n as nat);
            assert(stops_at(n as nat, k));
            assert(bits@ == parity_bits(n as nat));
            lemma_count_bound(bits@);
        }
        let (bz, bo, mut rl) = parity_counts(&bits);
        z = z + bz as u128;
        o = o + bo as u128;
        out.append(&mut rl);
        n = n + 1;
    }
    (z, o, out)
}

// ---------------------------------------------------------------- stopping-time differences

/// `S(n + 1) - S(n)`.
pub open spec fn stop_diff(n: nat) -> int {
    stop_time(n + 1) - stop_time(n)
}

/// How many `n` in `1 ..= m` have `S(n + 1) - S(n) == d`.
pub open spec fn diff_count(m: nat, d: int) -> nat
    decreases m,
{
    if m == 0 { 0 } else { diff_count((m - 1) as nat, d) + if stop_diff(m) == d { 1nat } else { 0nat } }
}

/// The sum of `S(n + 1) - S(n)` over the `n` in `1 ..= m` with `n % 4 == c`.
pub open spec fn class_diff_sum(m: nat, c: nat) -> int
    decreases m,
{
    if m == 0 { 0 } else { class_diff_sum((m - 1) as nat, c) + if m % 4 == c { stop_diff(m) } else { 0 } }
}

/// How many `n` in `1 ..= m` have `n % 4 == c`.
pub open spec fn class_size(m: nat, c: nat) -> nat
    decreases m,
{
    if m == 0 { 0 } else { class_size((m - 1) as nat, c) + if m % 4 == c { 1nat } else { 0nat } }
}

/// Whether `h` is the histogram of the differences over `1 ..= m`: the differences that
/// occur, each once, in increasing order, each with how often it occurs.
pub open spec fn is_diff_histogram(h: Seq<(i128, u64)>, m: nat) -> bool {
    &&& forall|i: int, j: int| 0 <= i < j < h.len() ==> (#[trigger] h[i]).0 < (#[trigger] h[j]).0
    &&& forall|i: int| 0 <= i < h.len() ==> (#[trigger] h[i]).1 == diff_count(m, h[i].0 as int) && h[i].1 > 0
    &&& forall|d: int| #[trigger] diff_count(m, d) > 0 ==> exists|i: int| 0 <= i < h.len() && (#[trigger] h[i]).0 == d
}

proof fn lemma_diff_count_bound(m: nat, d: int)
    ensures
        diff_count(m, d) <= m,
    decreases m,
{
    if m > 0 {
        lemma_diff_count_bound((m - 1) as nat, d);
    }
}

/// Counts difference `d` in the histogram `h` of `1 ..= m - 1`, making it that of `1 ..= m`.
fn add_diff(h: &mut Vec<(i128, u64)>, d: i128, Ghost(m): Ghost<nat>)
    requires
        m >= 1,
        is_diff_histogram(old(h)@, (m - 1) as nat),
        d == stop_diff(m),
        m <= u64::MAX,
    ensures
        is_diff_histogram(final(h)@, m),
{
    let ghost h0 = h@;
    proof {
        assert forall|e: int| #![trigger diff_count(m, e)] e != d implies diff_count(m, e) == diff_count((m - 1) as nat, e) by {}
        assert(diff_count(m, d as int) == diff_count((m - 1) as nat, d as int) + 1);
        lemma_diff_count_bound(m, d as int);
    }
    let mut p: usize = 0;
    while p < h.len() && h[p].0 < d
        invariant
            p <= h@.len(),
            h@ == h0,
            forall|i: int| 0 <= i < p ==> (#[trigger] h0[i]).0 < d,
        decreases h@.len() - p,
    {
        p = p + 1;
    }
    if p < h.len() && h[p].0 == d {
        let (k, c) = h[p];
        proof {
            assert(h0[p as int].1 == diff_count((m - 1) as nat, d as int));
        }
        h.set(p, (k, c + 1));
        proof {
            let h1 = h@;
            assert forall|i: int| 0 <= i < h1.len() implies (#[trigger] h1[i]).1 == diff_count(m, h1[i].0 as int) && h1[i].1 > 0 by {
                if i != p {
                    assert(h1[i] == h0[i]);
                    assert(h0[i].0 != d) by {
                        if i < p { } else { assert(h0[p as int].0 < h0[i].0); }
                    }
                }
            }
            assert forall|i: int, j: int| 0 <= i < j < h1.len() implies (#[trigger] h1[i]).0 < (#[trigger] h1[j]).0 by {
                assert(h0[i].0 < h0[j].0);
            }
            assert forall|e: int| #[trigger] diff_count(m, e) > 0 implies exists|i: int| 0 <= i < h1.len() && (#[trigger] h1[i]).0 == e by {
                if e == d {
                    assert(h1[p as int].0 == e);
                } else {
                    assert(diff_count((m - 1) as nat, e) > 0);
                    let i = choose|i: int| 0 <= i < h0.len() && (#[trigger] h0[i]).0 == e;
                    assert(h1[i].0 == e);
                }
            }
        }
    } else {
        h.insert(p, (d, 1));
        proof {
            let h1 = h@;
            assert(forall|i: int| p <= i < h0.len() ==> d < (#[trigger] h0[i]).0) by {
                assert forall|i: int| p <= i < h0.len() implies d < (#[trigger] h0[i]).0 by {
                    if p < h0.len() {
                        assert(h0[p as int].0 >= d && h0[p as int].0 != d);
                        if i > p { assert(h0[p as int].0 < h0[i].0); }
                    }
                }
            }
            assert(diff_count((m - 1) as nat, d as int) == 0) by {
                if diff_count((m - 1) as nat, d as int) > 0 {
                    let i = choose|i: int| 0 <= i < h0.len() && (#[trigger] h0[i]).0 == d;
                }
            }
            assert forall|i: int| 0 <= i < h1.len() implies (#[trigger] h1[i]).1 == diff_count(m, h1[i].0 as int) && h1[i].1 > 0 by {
                if i < p {
                    assert(h1[i] == h0[i]);
                } else if i > p {
                    assert(h1[i] == h0[i - 1]);
                }
            }
            assert forall|i: int, j: int| 0 <= i < j < h1.len() implies (#[trigger] h1[i]).0 < (#[trigger] h1[j]).0 by {
                if j < p {
                    assert(h0[i].0 < h0[j].0);
                } else if j == p {
                    assert(h1[i] == h0[i]);
                } else if i < p {
                    assert(h1[j] == h0[j - 1]);
                    assert(h1[i] == h0[i]);
                } else if i == p {
                    assert(h1[j] == h0[j - 1]);
                } else {
                    assert(h0[i - 1].0 < h0[j - 1].0);
                }
            }
            assert forall|e: int| #[trigger] diff_count(m, e) > 0 implies exists|i: int| 0 <= i < h1.len() && (#[trigger] h1[i]).0 == e by {
                if e == d {
                    assert(h1[p as int].0 == e);
                } else {
                    assert(diff_count((m - 1) as nat, e) > 0);
                    let i = choose|i: int| 0 <= i < h0.len() && (#[trigger] h0[i]).0 == e;
                    if i < p { assert(h1[i].0 == e); } else { assert(h1[i + 1].0 == e); }
                }
            }
        }
    }
}

/// The histogram of `S(n + 1) - S(n)` over `1 <= n < limit` (see `is_diff_histogram`), and for
/// each residue `c` of `n` mod 4 the sum of those differences and how many `n` there are.
pub fn stop_diffs(limit: u64, cache: &mut Vec<u64>) -> (r: (Vec<(i128, u64)>, Vec<(i128, u64)>))
    requires
        forall|n: nat| 1 <= n <= limit ==> #[trigger] settles(n),
        cache_good(old(cache)@),
    ensures
        is_diff_histogram(r.0@, if limit > 0 { (limit - 1) as nat } else { 0 }),
        r.1@.len() == 4,
        forall|c: int| 0 <= c < 4 ==> (#[trigger] r.1@[c]).0 == class_diff_sum(if limit > 0 { (limit - 1) as nat } else { 0 }, c as nat)
            && r.1@[c].1 == class_size(if limit > 0 { (limit - 1) as nat } else { 0 }, c as nat),
        cache_good(final(cache)@),
        final(cache)@.len() == old(cache)@.len(),
{
    let mut h: Vec<(i128, u64)> = Vec::new();
    let mut cls: Vec<(i128, u64)> = vec![(0i128, 0u64), (0i128, 0u64), (0i128, 0u64), (0i128, 0u64)];
    if limit == 0 {
        return (h, cls);
    }
    proof { lemma_limit_bound(limit); }
    let mut n: u64 = 1;
    while n < limit
        invariant
            1 <= n <= limit,
            limit <= ODD_LIMIT + 1,
            forall|k: nat| 1 <= k <= limit ==> #[trigger] settles(k),
            cache_good(cache@),
            cache@.len() == old(cache)@.len(),
            is_diff_histogram(h@, (n - 1) as nat),
            cls@.len() == 4,
            forall|c: int| 0 <= c < 4 ==> (#[trigger] cls@[c]).0 == class_diff_sum((n - 1) as nat, c as nat)
                && cls@[c].1 == class_size((n - 1) as nat, c as nat),
            forall|c: int| 0 <= c < 4 ==> (#[trigger] cls@[c]).1 < n
                && -(cls@[c].1 * 0x1_0000_0000_0000_0000) <= cls@[c].0 <= cls@[c].1 * 0x1_0000_0000_0000_0000,
        decreases limit - n,
    {
        assert(settles(n as nat));
        assert(settles((n + 1) as nat));
        let s1 = stop_of(n, cache);
        let s2 = stop_of(n + 1, cache);
        let d: i128 = s2 as i128 - s1 as i128;
        add_diff(&mut h, d, Ghost(n as nat));
        let c = (n % 4) as usize;
        let (sum, cnt) = cls[c];
        proof {
            assert(cnt < n);
            assert(sum <= cnt * 0x1_0000_0000_0000_0000);
            assert(-(cnt * 0x1_0000_0000_0000_0000) <= sum);
            assert(cnt * 0x1_0000_0000_0000_0000 <= 0x8000_0000_0000_0000 * 0x1_0000_0000_0000_0000) by (nonlinear_arith)
                requires cnt <= 0x8000_0000_0000_0000;
            assert((cnt + 1) * 0x1_0000_0000_0000_0000 == cnt * 0x1_0000_0000_0000_0000 + 0x1_0000_0000_0000_0000);
        }
        let ghost cls0 = cls@;
        cls.set(c, (sum + d, cnt + 1));
        proof {
            assert forall|e: int| 0 <= e < 4 implies (#[trigger] cls@[e]).0 == class_diff_sum(n as nat, e as nat)
                && cls@[e].1 == class_size(n as nat, e as nat) && cls@[e].1 < n + 1
                && -(cls@[e].1 * 0x1_0000_0000_0000_0000) <= cls@[e].0 <= cls@[e].1 * 0x1_0000_0000_0000_0000 by {
                if e != c {
                    assert(cls@[e] == cls0[e]);
                }
            }
        }
        n = n + 1;
    }
    (h, cls)
}

// ---------------------------------------------------------------- carry chain

/// The carry into bit `i` when `x + (x >> 1) + 1` is added bit by bit from the lowest bit,
/// bit `i` of `x` meeting bit `i + 1`, starting with the carry 1.
pub open spec fn carry_in(x: nat, i: nat) -> nat
    decreases i,
{
    if i == 0 { 1 } else { (bit(x, (i - 1) as nat) + bit(x, i) + carry_in(x, (i - 1) as nat)) / 2 }
}

/// Bit `i` of that sum.
pub open spec fn sum_bit(x: nat, i: nat) -> nat {
    (bit(x, i) + bit(x, i + 1) + carry_in(x, i)) % 2
}

/// The carries into the bits of `x`, highest bit first.
pub open spec fn carries_msb(x: nat) -> Seq<u8> {
    let l = bits_left(x);
    Seq::new(l, |j: int| carry_in(x, (l - 1 - j) as nat) as u8)
}

/// The bits of the sum, highest first: one per bit of `x`, and a leading 1 when a carry is
/// left over.
pub open spec fn sum_msb(x: nat) -> Seq<u8> {
    let l = bits_left(x);
    (Seq::new(l, |i: int| sum_bit(x, i as nat) as u8)
        + if carry_in(x, l) == 1 { seq![1u8] } else { Seq::<u8>::empty() }).reverse()
}

proof fn lemma_carry_small(x: nat, i: nat)
    ensures
        carry_in(x, i) <= 1,
    decreases i,
{
    if i > 0 {
        lemma_carry_small(x, (i - 1) as nat);
    }
}

/// The number the first `k` sum bits spell, lowest first.
pub open spec fn sum_value(x: nat, k: nat) -> nat
    decreases k,
{
    if k == 0 { 0 } else { sum_value(x, (k - 1) as nat) + sum_bit(x, (k - 1) as nat) * pow2((k - 1) as nat) }
}

/// The low `k + 1` bits of a number are its low `k` bits and bit `k`.
proof fn lemma_low_bits(x: nat, k: nat)
    ensures
        x % pow2(k + 1) == x % pow2(k) + bit(x, k) * pow2(k),
{
    lemma_pow2_pos(k);
    lemma_pow2_unfold(k + 1);
    vstd::arithmetic::div_mod::lemma_mod_breakdown(x as int, pow2(k) as int, 2);
    assert(pow2(k) * 2 == pow2(k + 1));
    assert(pow2(k) * ((x / pow2(k)) % 2) == bit(x, k) * pow2(k)) by (nonlinear_arith);
}

/// A number is below the power of two of its bit length.
proof fn lemma_below_bit_length(n: nat)
    ensures
        n < pow2(bits_left(n)),
    decreases n,
{
    lemma2_to64();
    if n > 0 {
        lemma_below_bit_length(n / 2);
        lemma_pow2_unfold(bits_left(n));
        assert(bits_left(n) == 1 + bits_left(n / 2));
    }
}

/// The first `k` positions of the bitwise addition give the low `k` bits of `x` plus those of
/// `x >> 1` plus 1, with the carry into position `k` worth `2^k`.
proof fn lemma_adder(x: nat, k: nat)
    ensures
        sum_value(x, k) + carry_in(x, k) * pow2(k) == x % pow2(k) + (x / 2) % pow2(k) + 1,
    decreases k,
{
    lemma2_to64();
    if k == 0 {
        assert(x % 1 == 0 && (x / 2) % 1 == 0);
    } else {
        let j = (k - 1) as nat;
        lemma_adder(x, j);
        lemma_low_bits(x, j);
        lemma_low_bits(x / 2, j);
        lemma_pow2_pos(j);
        lemma_pow2_unfold(j + 1);
        vstd::arithmetic::div_mod::lemma_div_denominator(x as int, 2, pow2(j) as int);
        assert(pow2(j + 1) == 2 * pow2(j));
        assert((x / 2) / pow2(j) == x / pow2(j + 1));
        assert(bit(x / 2, j) == bit(x, j + 1));
        lemma_carry_small(x, j);
        let s = bit(x, j) + bit(x, j + 1) + carry_in(x, j);
        assert(carry_in(x, k) == s / 2);
        assert(sum_bit(x, j) == s % 2);
        assert(sum_value(x, k) == sum_value(x, j) + sum_bit(x, j) * pow2(j));
        let p = pow2(j);
        assert(sum_bit(x, j) * p + carry_in(x, k) * (2 * p) == s * p) by (nonlinear_arith)
            requires sum_bit(x, j) == s % 2, carry_in(x, k) == s / 2, s >= 0;
        assert(s * p == bit(x, j) * p + bit(x, j + 1) * p + carry_in(x, j) * p) by (nonlinear_arith)
            requires s == bit(x, j) + bit(x, j + 1) + carry_in(x, j);
    }
}

/// The bits `carry_row` gives spell `x + (x >> 1) + 1`: its sum bits, lowest first, are worth
/// that number, the leftover carry counting `2^l` for a number of `l` bits.
pub proof fn law_carry_row_adds(x: nat)
    ensures
        sum_value(x, bits_left(x)) + carry_in(x, bits_left(x)) * pow2(bits_left(x)) == x + x / 2 + 1,
{
    let l = bits_left(x);
    lemma_adder(x, l);
    lemma_below_bit_length(x);
    lemma_pow2_pos(l);
    vstd::arithmetic::div_mod::lemma_small_mod(x, pow2(l));
    vstd::arithmetic::div_mod::lemma_small_mod(x / 2, pow2(l));
}

/// The entries of `v` in reverse order.
fn reversed(v: &Vec<u8>) -> (r: Vec<u8>)
    ensures
        r@ == v@.reverse(),
{
    let mut out: Vec<u8> = Vec::new();
    let n = v.len();
    let mut i: usize = 0;
    while i < n
        invariant
            i <= n,
            n == v@.len(),
            out@ == Seq::new(i as nat, |k: int| v@[n - 1 - k]),
        decreases n - i,
    {
        out.push(v[n - 1 - i]);
        assert(out@ =~= Seq::new((i + 1) as nat, |k: int| v@[n - 1 - k]));
        i = i + 1;
    }
    assert(out@ =~= v@.reverse());
    out
}

/// One odd step of the walk as a bit-level automaton: the carries into the bits of `x` and
/// the bits of the sum `x + (x >> 1) + 1` that its local rule
/// `b_i' = (b_i + b_(i+1) + carry_i) mod 2` produces, both highest bit first.
pub fn carry_row(x: u64) -> (r: (Vec<u8>, Vec<u8>))
    ensures
        r.0@ == carries_msb(x as nat),
        r.1@ == sum_msb(x as nat),
{
    let l = bit_length(x);
    let mut sums: Vec<u8> = Vec::new();
    let mut cars: Vec<u8> = Vec::new();
    let mut c: u8 = 1;
    let mut y: u64 = x;
    let mut i: u32 = 0;
    proof { lemma2_to64(); }
    while i < l
        invariant
            i <= l,
            l == bits_left(x as nat),
            y == x as nat / pow2(i as nat),
            c == carry_in(x as nat, i as nat),
            c <= 1,
            sums@ == Seq::new(i as nat, |k: int| sum_bit(x as nat, k as nat) as u8),
            cars@ == Seq::new(i as nat, |k: int| carry_in(x as nat, k as nat) as u8),
        decreases l - i,
    {
        let a: u8 = (y % 2) as u8;
        let b: u8 = ((y / 2) % 2) as u8;
        proof {
            lemma_pow2_pos(i as nat);
            lemma_pow2_unfold((i + 1) as nat);
            vstd::arithmetic::div_mod::lemma_div_denominator(x as int, pow2(i as nat) as int, 2);
            assert(pow2(i as nat) * 2 == pow2((i + 1) as nat));
            assert(y / 2 == x as nat / pow2((i + 1) as nat));
            assert(a == bit(x as nat, i as nat));
            assert(b == bit(x as nat, (i + 1) as nat));
        }
        let s: u8 = a + b + c;
        cars.push(c);
        sums.push(s % 2);
        c = s / 2;
        y = y / 2;
        proof {
            assert(sums@ =~= Seq::new((i + 1) as nat, |k: int| sum_bit(x as nat, k as nat) as u8));
            assert(cars@ =~= Seq::new((i + 1) as nat, |k: int| carry_in(x as nat, k as nat) as u8));
        }
        i = i + 1;
    }
    if c > 0 {
        sums.push(1);
    }
    proof {
        assert(sums@ =~= Seq::new(l as nat, |k: int| sum_bit(x as nat, k as nat) as u8)
            + if carry_in(x as nat, l as nat) == 1 { seq![1u8] } else { Seq::<u8>::empty() });
    }
    let carries = reversed(&cars);
    let bits = reversed(&sums);
    proof {
        assert(carries@ =~= carries_msb(x as nat));
    }
    (carries, bits)
}

// ---------------------------------------------------------------- feature table

/// One step of the walk with odd steps taken two at a time: `(3x + 1) / 2` or `x / 2`.
pub open spec fn half_step(x: nat) -> nat {
    if x % 2 == 1 { (3 * x + 1) / 2 } else { x / 2 }
}

/// Whether the first `k` steps of that walk from `x` (it stops at 1) meet only odd values
/// whose `3x + 1` fits in 64 bits.
pub open spec fn half_walk_fits(x: nat, k: nat) -> bool
    decreases k,
{
    k == 0 || x == 1 || ((x % 2 == 1 ==> x <= ODD_LIMIT) && half_walk_fits(half_step(x), (k - 1) as nat))
}

/// The parities of the first `k` values of that walk from `x` before 1, the first as bit `i`.
pub open spec fn parity_code(x: nat, i: nat, k: nat) -> nat
    decreases k,
{
    if k == 0 || x == 1 { 0 } else { (x % 2) * pow2(i) + parity_code(half_step(x), i + 1, (k - 1) as nat) }
}

/// The odd steps, the even steps and the largest value (`x` included) of the first `k`
/// steps of that walk from `x`, which stops at 1.
pub open spec fn walk_stats(x: nat, k: nat) -> (nat, nat, nat)
    decreases k,
{
    if k == 0 || x == 1 { (0, 0, x) } else {
        let (o, e, p) = walk_stats(half_step(x), (k - 1) as nat);
        (o + x % 2, e + (1 - x % 2) as nat, if x > p { x } else { p })
    }
}

/// The number of one bits at the low end of `n`.
pub open spec fn trailing_ones(n: nat) -> nat
    decreases n,
{
    if n % 2 == 1 { 1 + trailing_ones(n / 2) } else { 0 }
}

/// The least distance from `n` to `2^k - 1` for `k` in `1 ..= kmax` (`u64::MAX` for none).
pub open spec fn mersenne_distance(n: nat, kmax: nat) -> nat
    decreases kmax,
{
    if kmax == 0 { u64::MAX as nat } else {
        let d = abs_diff(n, (pow2(kmax) - 1) as nat);
        let r = mersenne_distance(n, (kmax - 1) as nat);
        if d < r { d } else { r }
    }
}

/// The integer columns of the feature table for one number.
#[derive(Clone, Copy, Debug)]
pub struct MlRow {
    pub n: u64,
    pub steps: u64,
    pub popcount: u64,
    pub trailing_zeros: u64,
    pub leading_zeros: u64,
    pub bit_length: u64,
    pub trailing_ones: u64,
    pub parity_code: u64,
    pub mod2: u64,
    pub mod4: u64,
    pub mod8: u64,
    pub mod16: u64,
    pub mod32: u64,
    pub mersenne_distance: u64,
    pub power_of_two_distance: u64,
    pub odd_steps: u64,
    pub even_steps: u64,
    pub peak_value: u64,
}

proof fn lemma_fits_shorter(x: nat, k: nat, j: nat)
    requires
        j <= k,
        half_walk_fits(x, k),
    ensures
        half_walk_fits(x, j),
    decreases j,
{
    if j > 0 && x != 1 {
        lemma_fits_shorter(half_step(x), (k - 1) as nat, (j - 1) as nat);
    }
}

/// The parity code of the first six steps of the walk from `n` (see `parity_code`).
fn code_of(n: u64) -> (r: u64)
    requires
        n >= 1,
        half_walk_fits(n as nat, 6),
    ensures
        r == parity_code(n as nat, 0, 6),
{
    let mut x: u64 = n;
    let mut code: u64 = 0;
    let mut p: u64 = 1;
    let mut i: u64 = 0;
    proof { lemma2_to64(); }
    while i < 6 && x != 1
        invariant
            i <= 6,
            x >= 1,
            p == pow2(i as nat),
            code < p,
            half_walk_fits(x as nat, (6 - i) as nat),
            code + parity_code(x as nat, i as nat, (6 - i) as nat) == parity_code(n as nat, 0, 6),
        decreases 6 - i,
    {
        proof {
            lemma_pow2_unfold((i + 1) as nat);
            lemma2_to64();
            lemma_pow2_strictly_increases(i as nat, 6);
            assert(p < 64);
            assert((x % 2) * p <= p) by (nonlinear_arith) requires x % 2 <= 1;
        }
        code = code + (x % 2) * p;
        x = if x % 2 == 1 { (3 * x + 1) / 2 } else { x / 2 };
        p = p * 2;
        i = i + 1;
    }
    code
}

/// The odd steps, even steps and peak of the first 100 steps of the walk from `n` (see
/// `walk_stats`).
fn walk_of(n: u64) -> (r: (u64, u64, u64))
    requires
        n >= 1,
        half_walk_fits(n as nat, 100),
    ensures
        (r.0 as nat, r.1 as nat, r.2 as nat) == walk_stats(n as nat, 100),
{
    let mut x: u64 = n;
    let mut odd: u64 = 0;
    let mut even: u64 = 0;
    let mut peak: u64 = n;
    let mut i: u64 = 0;
    while i < 100 && x != 1
        invariant
            i <= 100,
            x >= 1,
            peak >= x,
            odd + even == i,
            half_walk_fits(x as nat, (100 - i) as nat),
            ({
                let w = walk_stats(x as nat, (100 - i) as nat);
                let t = walk_stats(n as nat, 100);
                &&& odd + w.0 == t.0
                &&& even + w.1 == t.1
                &&& (if peak > w.2 { peak as nat } else { w.2 }) == t.2
            }),
        decreases 100 - i,
    {
        if x % 2 == 1 {
            odd = odd + 1;
            x = (3 * x + 1) / 2;
        } else {
            even = even + 1;
            x = x / 2;
        }
        if x > peak {
            peak = x;
        }
        i = i + 1;
    }
    (odd, even, peak)
}

/// The integer columns of the feature table for `n` with stopping time `steps`: one bits,
/// trailing zeros, leading zeros and bit length, trailing ones, the parity code of six walk
/// steps, the residues mod 2 to 32, the distances to the nearest `2^k - 1` (`k` up to one
/// past the bit length) and to the powers of two around `n`, and the odd steps, even steps
/// and peak of the first 100 steps of the walk that takes odd steps two at a time.
pub fn ml_row(n: u64, steps: u64) -> (r: MlRow)
    requires
        1 <= n < 0x4000_0000_0000_0000,
        half_walk_fits(n as nat, 100),
    ensures
        r.n == n,
        r.steps == steps,
        r.popcount == ones(n as nat),
        r.trailing_zeros == tz(n as nat, 64),
        r.bit_length == bits_left(n as nat),
        r.leading_zeros == 64 - bits_left(n as nat),
        r.trailing_ones == trailing_ones(n as nat),
        r.parity_code == parity_code(n as nat, 0, 6),
        r.mod2 == n % 2 && r.mod4 == n % 4 && r.mod8 == n % 8 && r.mod16 == n % 16 && r.mod32 == n % 32,
        r.mersenne_distance == mersenne_distance(n as nat, bits_left(n as nat) + 1),
        r.power_of_two_distance == ({
            let a = abs_diff(n as nat, pow2(bits_left(n as nat)));
            let b = abs_diff(n as nat, pow2((bits_left(n as nat) - 1) as nat));
            if a < b { a } else { b }
        }),
        (r.odd_steps as nat, r.even_steps as nat, r.peak_value as nat) == walk_stats(n as nat, 100),
{
    proof {
        lemma2_to64();
        lemma2_to64_rest();
        lemma_bits_bound(n as nat, 62);
        assert(half_walk_fits(n as nat, 6)) by { lemma_fits_shorter(n as nat, 100, 6); }
    }
    let pc = popcount(n);
    let tzn = trailing_zeros(n);
    let bl = bit_length(n);
    let mut to: u64 = 0;
    let mut x: u64 = n;
    while x % 2 == 1
        invariant
            to + trailing_ones(x as nat) == trailing_ones(n as nat),
            to <= 64,
            x < pow2((64 - to) as nat),
        decreases x,
    {
        proof {
            lemma2_to64();
            if to == 64 {
                assert(pow2(0) == 1);
            }
            lemma_pow2_unfold((64 - to) as nat);
        }
        to = to + 1;
        x = x / 2;
    }
    let mut pw: u64 = 1;
    let mut j: u32 = 0;
    while j < bl
        invariant
            j <= bl,
            bl <= 62,
            pw == pow2(j as nat),
        decreases bl - j,
    {
        proof {
            lemma_pow2_unfold((j + 1) as nat);
            lemma_pow2_strictly_increases((j + 1) as nat, 64);
            lemma2_to64_rest();
        }
        pw = pw * 2;
        j = j + 1;
    }
    proof {
        assert(bits_left(n as nat) == 1 + bits_left(n as nat / 2));
        lemma_pow2_unfold(bl as nat);
    }
    let half = pw / 2;
    let a = if n >= pw { n - pw } else { pw - n };
    let b = if n >= half { n - half } else { half - n };
    let p2d = if a < b { a } else { b };
    let code = code_of(n);
    let mut mers: u64 = u64::MAX;
    let mut k: u64 = 1;
    let mut m: u64 = 1;
    while k <= bl as u64 + 1
        invariant
            1 <= k <= bl + 2,
            bl <= 62,
            bl == bits_left(n as nat),
            m == pow2(k as nat) - 1,
            mers == mersenne_distance(n as nat, (k - 1) as nat),
        decreases bl + 2 - k,
    {
        proof {
            lemma_pow2_unfold((k + 1) as nat);
            lemma2_to64_rest();
            if k + 1 < 64 {
                lemma_pow2_strictly_increases((k + 1) as nat, 64);
            }
        }
        let d = if n >= m { n - m } else { m - n };
        if d < mers {
            mers = d;
        }
        m = 2 * m + 1;
        k = k + 1;
    }
    let (odd, even, peak) = walk_of(n);
    MlRow {
        n, steps, popcount: pc as u64, trailing_zeros: tzn as u64, leading_zeros: 64 - bl as u64, bit_length: bl as u64,
        trailing_ones: to, parity_code: code, mod2: n % 2, mod4: n % 4, mod8: n % 8, mod16: n % 16, mod32: n % 32,
        mersenne_distance: mers, power_of_two_distance: p2d, odd_steps: odd, even_steps: even, peak_value: peak,
    }
}

// ---------------------------------------------------------------- cycle search

/// One step of the cycle search's walk on 128-bit numbers: an even number goes to its odd
/// part, an odd one to the odd part of `3x + 1`.
pub open spec fn odd_walk_next(x: nat) -> nat {
    if x % 2 == 0 { x / pow2(tz(x, 128)) } else { (3 * x + 1) / pow2(tz(3 * x + 1, 128)) }
}

/// The `k`-th value of that walk from `n`.
pub open spec fn odd_walk(n: nat, k: nat) -> nat
    decreases k,
{
    if k == 0 { n } else { odd_walk_next(odd_walk(n, (k - 1) as nat)) }
}

/// Whether the walk from `n` stops at step `k`: it reaches 1 (or below) or meets a value it
/// met before.
pub open spec fn walk_event(n: nat, k: nat) -> bool {
    k >= 1 && (odd_walk(n, k) <= 1 || exists|j: nat| j < k && #[trigger] odd_walk(n, j) == odd_walk(n, k))
}

/// Whether the walk from `n` stops at step `k` and not before.
pub open spec fn first_event(n: nat, k: nat) -> bool {
    walk_event(n, k) && forall|j: nat| 1 <= j < k ==> !#[trigger] walk_event(n, j)
}

/// Whether the walk from `n` stops at step `k` with every odd value before small enough for
/// `3x + 1` in 128 bits.
pub open spec fn search_ends(n: nat, k: nat) -> bool {
    &&& walk_event(n, k)
    &&& forall|j: nat| j < k ==> (#[trigger] odd_walk(n, j) % 2 == 1 ==> odd_walk(n, j) <= ODD_LIMIT_128)
}

/// Whether the walk from `n` stops within the machine's numbers.
pub open spec fn search_stops(n: nat) -> bool {
    exists|k: nat| search_ends(n, k)
}

/// The value at which the walk from `n` comes back to itself, when it stops by meeting a
/// value again rather than by reaching 1.
pub open spec fn cycle_of(n: nat) -> Option<nat> {
    let k = choose|k: nat| first_event(n, k);
    if odd_walk(n, k) > 1 { Some(odd_walk(n, k)) } else { None }
}

proof fn lemma_first_event_unique(n: nat, k1: nat, k2: nat)
    requires
        first_event(n, k1),
        first_event(n, k2),
    ensures
        k1 == k2,
{
    if k1 < k2 {
        assert(!walk_event(n, k1));
    } else if k2 < k1 {
        assert(!walk_event(n, k2));
    }
}

/// Follows the walk from `n` (see `odd_walk_next`) until it reaches 1 or meets a value again;
/// in the second case returns that value (see `cycle_of`).
pub fn cycle_in_walk(n: u64) -> (r: Option<u128>)
    requires
        n >= 3,
        search_stops(n as nat),
    ensures
        match r {
            Some(x) => cycle_of(n as nat) == Some(x as nat),
            None => cycle_of(n as nat) is None,
        },
{
    broadcast use vstd::std_specs::hash::group_hash_axioms;
    let ghost kk = choose|k: nat| search_ends(n as nat, k);
    let mut x: u128 = n as u128;
    let mut visited: std::collections::HashSet<u128> = std::collections::HashSet::new();
    visited.insert(x);
    let ghost mut i: nat = 0;
    assert(forall|y: u128| visited@.contains(y) <==> exists|j: nat| j <= i && #[trigger] odd_walk(n as nat, j) == y) by {
        assert forall|y: u128| visited@.contains(y) implies exists|j: nat| j <= i && #[trigger] odd_walk(n as nat, j) == y by {
            assert(odd_walk(n as nat, 0) == y);
        }
    }
    loop
        invariant
            search_ends(n as nat, kk),
            i < kk,
            x as nat == odd_walk(n as nat, i),
            x > 1,
            forall|y: u128| visited@.contains(y) <==> exists|j: nat| j <= i && #[trigger] odd_walk(n as nat, j) == y,
            forall|j: nat| 1 <= j <= i ==> !#[trigger] walk_event(n as nat, j),
            forall|y: u128| #[trigger] visited@.contains(y) ==> y > 1,
        decreases kk - i,
    {
        proof {
            vstd::arithmetic::power2::lemma_pow2_pos(tz(x as nat, 128));
        }
        if x % 2 == 0 {
            let z = trailing_zeros_u128(x);
            proof { vstd::bits::lemma_u128_shr_is_div(x, z as u128); }
            x = x >> (z as u128);
        } else {
            assert(x <= ODD_LIMIT_128);
            let t = 3 * x + 1;
            let z = trailing_zeros_u128(t);
            proof { vstd::bits::lemma_u128_shr_is_div(t, z as u128); }
            x = t >> (z as u128);
        }
        proof {
            i = i + 1;
            assert(x as nat == odd_walk(n as nat, i));
        }
        let ghost vis0 = visited@;
        let fresh = visited.insert(x);
        if !fresh {
            proof {
                assert(vis0.contains(x));
                assert(exists|j: nat| j <= (i - 1) as nat && #[trigger] odd_walk(n as nat, j) == x);
                assert(x > 1);
                assert(walk_event(n as nat, i));
                assert(first_event(n as nat, i));
                lemma_first_event_unique(n as nat, i, choose|k: nat| first_event(n as nat, k));
            }
            if x != 1 {
                return Some(x);
            } else {
                return None;
            }
        }
        if x <= 1 {
            proof {
                assert(walk_event(n as nat, i));
                assert(first_event(n as nat, i));
                lemma_first_event_unique(n as nat, i, choose|k: nat| first_event(n as nat, k));
            }
            return None;
        }
        proof {
            assert(!walk_event(n as nat, i)) by {
                if exists|j: nat| j < i && #[trigger] odd_walk(n as nat, j) == odd_walk(n as nat, i) {
                    let j = choose|j: nat| j < i && #[trigger] odd_walk(n as nat, j) == odd_walk(n as nat, i);
                    assert(j <= (i - 1) as nat);
                }
            }
            assert(i < kk) by {
                if i == kk { }
            }
            assert forall|y: u128| visited@.contains(y) <==> exists|j: nat| j <= i && #[trigger] odd_walk(n as nat, j) == y by {
                if visited@.contains(y) && y != x {
                    let j = choose|j: nat| j <= (i - 1) as nat && #[trigger] odd_walk(n as nat, j) == y;
                    assert(j <= i);
                }
                if exists|j: nat| j <= i && #[trigger] odd_walk(n as nat, j) == y {
                    let j = choose|j: nat| j <= i && #[trigger] odd_walk(n as nat, j) == y;
                    if j < i {
                        assert(j <= (i - 1) as nat);
                    }
                }
            }
        }
    }
}

/// The starts `3, 5, 7, ...` up to `m` whose walk comes back to a value (see `cycle_of`), each
/// with that value, in increasing order.
pub open spec fn cycles_upto(m: nat) -> Seq<(u64, u128)>
    decreases m,
{
    if m < 3 { Seq::empty() } else {
        let r = cycles_upto((m - 1) as nat);
        if m % 2 == 1 && cycle_of(m) is Some { r.push((m as u64, cycle_of(m)->0 as u128)) } else { r }
    }
}

/// The odd starts in `3 ..= limit` whose walk comes back to a value, with that value (see
/// `cycles_upto`).
pub fn find_cycles_up_to(limit: u64) -> (r: Vec<(u64, u128)>)
    requires
        forall|n: nat| 3 <= n <= limit && n % 2 == 1 ==> #[trigger] search_stops(n),
    ensures
        r@ == cycles_upto(limit as nat),
{
    let mut out: Vec<(u64, u128)> = Vec::new();
    let mut n: u64 = 3;
    if limit < 3 {
        return out;
    }
    while n <= limit
        invariant
            3 <= n,
            n <= limit + 1,
            forall|m: nat| 3 <= m <= limit && m % 2 == 1 ==> #[trigger] search_stops(m),
            out@ == cycles_upto((n - 1) as nat),
        decreases limit + 1 - n,
    {
        if n % 2 == 1 {
            assert(search_stops(n as nat));
            match cycle_in_walk(n) {
                Some(x) => { out.push((n, x)); },
                None => {},
            }
        }
        if n == u64::MAX {
            return out;
        }
        n = n + 1;
    }
    out
}

// ---------------------------------------------------------------- probe of the condensed walk

/// One step of the probe's walk on 64-bit numbers: an odd number to the odd part of
/// `3x + 1`, an even one to its odd part.
pub open spec fn probe_next(x: nat) -> nat {
    if x % 2 == 1 { (3 * x + 1) / pow2(tz(3 * x + 1, 64)) } else { x / pow2(tz(x, 64)) }
}

/// Whether the first `k` steps of the probe from `x` (it stops at 1) meet only odd values
/// whose `3x + 1` fits in 64 bits.
pub open spec fn probe_fits(x: nat, k: nat) -> bool
    decreases k,
{
    k == 0 || x <= 1 || ((x % 2 == 1 ==> x <= ODD_LIMIT) && probe_fits(probe_next(x), (k - 1) as nat))
}

/// The first `k` steps of the probe from `x`, each as the value and the next one; it stops at
/// 1.
pub open spec fn probe_rows(x: nat, k: nat) -> Seq<(nat, nat)>
    decreases k,
{
    if k == 0 || x <= 1 { Seq::empty() } else { seq![(x, probe_next(x))] + probe_rows(probe_next(x), (k - 1) as nat) }
}

/// Where the first `k` steps of the probe from `x` end, how many of them were odd and even,
/// and the largest value met (`x` included).
pub open spec fn probe_summary(x: nat, k: nat) -> (nat, nat, nat, nat)
    decreases k,
{
    if k == 0 || x <= 1 { (x, 0, 0, x) } else {
        let (e, o, v, p) = probe_summary(probe_next(x), (k - 1) as nat);
        (e, o + x % 2, v + (1 - x % 2) as nat, if x > p { x } else { p })
    }
}

/// The bits a probe step from `x` shifts off.
pub open spec fn probe_shift(x: nat) -> nat {
    if x % 2 == 1 { tz(3 * x + 1, 64) } else { tz(x, 64) }
}

/// One step of the probe: the value, its exponent predicted from its bits (0 for an even
/// value), the bits shifted off and the next value.
#[derive(Clone, Copy, Debug)]
pub struct ProbeStep {
    pub x: u64,
    pub predicted: u32,
    pub shift: u32,
    pub next: u64,
}

/// Where a probe ended: the last value, the odd and even steps and the peak.
#[derive(Clone, Copy, Debug)]
pub struct ProbeEnd {
    pub x: u64,
    pub odd_steps: u64,
    pub even_steps: u64,
    pub peak: u64,
}

/// Whether `row` is the probe step `(x, next)`.
pub open spec fn row_is(row: ProbeStep, step: (nat, nat)) -> bool {
    &&& row.x as nat == step.0
    &&& row.next as nat == step.1
    &&& row.shift as nat == probe_shift(step.0)
    &&& row.predicted as nat == if step.0 % 2 == 1 { first_repeat(step.0, 1, 64) } else { 0 }
}

/// Follows the walk from `start` for at most 200 steps, stopping at 1: each odd value goes to
/// the odd part of `3x + 1`, each even one to its odd part. Returns the steps (see
/// `probe_rows`) and where the walk ended (see `probe_summary`).
pub fn probe_walk(start: u64) -> (r: (Vec<ProbeStep>, ProbeEnd))
    requires
        probe_fits(start as nat, 200),
    ensures
        r.0@.len() == probe_rows(start as nat, 200).len(),
        forall|t: int| 0 <= t < r.0@.len() ==> row_is(#[trigger] r.0@[t], probe_rows(start as nat, 200)[t]),
        (r.1.x as nat, r.1.odd_steps as nat, r.1.even_steps as nat, r.1.peak as nat) == probe_summary(start as nat, 200),
{
    let mut rows: Vec<ProbeStep> = Vec::new();
    let mut x: u64 = start;
    let mut odd: u64 = 0;
    let mut even: u64 = 0;
    let mut peak: u64 = start;
    let mut i: u64 = 0;
    let ghost all = probe_rows(start as nat, 200);
    proof {
        assert(all =~= Seq::<(nat, nat)>::empty() + probe_rows(x as nat, 200));
    }
    while i < 200 && x > 1
        invariant
            i <= 200,
            peak >= x,
            odd + even == i,
            rows@.len() == i,
            all == probe_rows(start as nat, 200),
            probe_fits(x as nat, (200 - i) as nat),
            all =~= Seq::new(i as nat, |t: int| (rows@[t].x as nat, rows@[t].next as nat)) + probe_rows(x as nat, (200 - i) as nat),
            forall|t: int| 0 <= t < i ==> row_is(#[trigger] rows@[t], (rows@[t].x as nat, rows@[t].next as nat)),
            ({
                let w = probe_summary(x as nat, (200 - i) as nat);
                let s = probe_summary(start as nat, 200);
                &&& w.0 == s.0
                &&& odd + w.1 == s.1
                &&& even + w.2 == s.2
                &&& (if peak > w.3 { peak as nat } else { w.3 }) == s.3
            }),
        decreases 200 - i,
    {
        let ghost pre = Seq::new(i as nat, |t: int| (rows@[t].x as nat, rows@[t].next as nat));
        let predicted: u32;
        let shift: u32;
        let next: u64;
        if x % 2 == 1 {
            predicted = predict_trailing_zeros(x);
            let t = 3 * x + 1;
            shift = trailing_zeros(t);
            proof { lemma_u64_shr_is_div(t, shift as u64); }
            next = t >> (shift as u64);
            odd = odd + 1;
        } else {
            predicted = 0;
            shift = trailing_zeros(x);
            proof { lemma_u64_shr_is_div(x, shift as u64); }
            next = x >> (shift as u64);
            even = even + 1;
        }
        let row = ProbeStep { x, predicted, shift, next };
        rows.push(row);
        proof {
            assert(next as nat == probe_next(x as nat));
            assert(probe_rows(x as nat, (200 - i) as nat) == seq![(x as nat, next as nat)] + probe_rows(next as nat, (200 - i - 1) as nat));
            assert(Seq::new((i + 1) as nat, |t: int| (rows@[t].x as nat, rows@[t].next as nat)) =~= pre.push((x as nat, next as nat)));
            assert(pre.push((x as nat, next as nat)) + probe_rows(next as nat, (200 - i - 1) as nat)
                =~= pre + (seq![(x as nat, next as nat)] + probe_rows(next as nat, (200 - i - 1) as nat)));
        }
        x = next;
        if x > peak {
            peak = x;
        }
        i = i + 1;
    }
    (rows, ProbeEnd { x, odd_steps: odd, even_steps: even, peak })
}

/// How many entries of `s` equal `v`.
pub open spec fn count_u32(s: Seq<u32>, v: u32) -> nat
    decreases s.len(),
{
    if s.len() == 0 { 0 } else { count_u32(s.drop_last(), v) + if s.last() == v { 1nat } else { 0nat } }
}

/// For each `v` from 0 to 64, how many entries of `vs` equal `v`.
pub fn exponent_counts(vs: &Vec<u32>) -> (r: Vec<u64>)
    requires
        forall|i: int| 0 <= i < vs@.len() ==> #[trigger] vs@[i] <= 64,
    ensures
        r@.len() == 65,
        forall|v: int| 0 <= v < 65 ==> #[trigger] r@[v] == count_u32(vs@, v as u32),
{
    let mut counts = zeros(65);
    let mut i: usize = 0;
    while i < vs.len()
        invariant
            i <= vs@.len(),
            forall|j: int| 0 <= j < vs@.len() ==> #[trigger] vs@[j] <= 64,
            counts@.len() == 65,
            forall|v: int| 0 <= v < 65 ==> #[trigger] counts@[v] == count_u32(vs@.take(i as int), v as u32),
            forall|v: int| 0 <= v < 65 ==> #[trigger] counts@[v] <= i,
        decreases vs@.len() - i,
    {
        let v = vs[i] as usize;
        let ghost c0 = counts@;
        let c = counts[v];
        counts.set(v, c + 1);
        proof {
            let t = vs@.take(i + 1);
            assert(t.drop_last() =~= vs@.take(i as int));
            assert(t.last() == vs@[i as int]);
            assert forall|w: int| 0 <= w < 65 implies #[trigger] counts@[w] == count_u32(t, w as u32) && counts@[w] <= i + 1 by {
                assert(c0[w] == count_u32(vs@.take(i as int), w as u32));
            }
        }
        i = i + 1;
    }
    assert(vs@.take(vs@.len() as int) =~= vs@);
    counts
}

// ---------------------------------------------------------------- branch layers along a walk

/// The condensed walk from `x` (see `condensed`), at most `k` values, ending at the first 1.
pub open spec fn condensed_traj(x: nat, k: nat) -> Seq<u64>
    decreases k,
{
    if k == 0 { Seq::empty() } else if x == 1 { seq![1u64] } else { seq![x as u64] + condensed_traj(condensed(x), (k - 1) as nat) }
}

/// Whether the first `k` values of that walk are positive, below `u64::MAX`, and odd only
/// where `3x + 1` fits in 64 bits.
pub open spec fn condensed_fits(x: nat, k: nat) -> bool
    decreases k,
{
    k == 0 || x == 1 || (0 < x < u64::MAX && (x % 2 == 1 ==> x <= ODD_LIMIT) && condensed_fits(condensed(x), (k - 1) as nat))
}

/// One condensed step keeps a number positive and below `u64::MAX`.
proof fn lemma_condensed_range(x: nat)
    requires
        0 < x < u64::MAX,
        x % 2 == 1 ==> x <= ODD_LIMIT,
    ensures
        0 < condensed(x) < u64::MAX,
{
    if x != 1 && x % 2 == 1 {
        let t = 3 * x + 1;
        lemma_tz_split(t, 64);
        let p = pow2(tz(t, 64));
        lemma_pow2_pos(tz(t, 64));
        assert(t / p <= t) by (nonlinear_arith) requires t == p * (t / p), p > 0, t > 0;
    }
}

/// The values of the condensed walk from `n`, at most `k` of them, ending at the first 1.
pub fn condensed_trajectory(n: u64, k: u64) -> (r: Vec<u64>)
    requires
        condensed_fits(n as nat, k as nat),
    ensures
        r@ == condensed_traj(n as nat, k as nat),
{
    let mut out: Vec<u64> = Vec::new();
    let mut x: u64 = n;
    let mut i: u64 = 0;
    while i < k
        invariant
            i <= k,
            condensed_fits(x as nat, (k - i) as nat),
            out@ + condensed_traj(x as nat, (k - i) as nat) == condensed_traj(n as nat, k as nat),
        decreases k - i,
    {
        let ghost before = out@;
        out.push(x);
        if x == 1 {
            assert(out@ =~= before + condensed_traj(x as nat, (k - i) as nat));
            assert(condensed_traj(1, (k - i - 1) as nat) =~= condensed_traj(1, (k - i - 1) as nat));
            return out;
        }
        proof { lemma_condensed_range(x as nat); }
        let nx = condensed_collatz(x);
        assert(out@ + condensed_traj(nx as nat, (k - i - 1) as nat) =~= before + condensed_traj(x as nat, (k - i) as nat));
        x = nx;
        i = i + 1;
    }
    assert(out@ =~= out@ + condensed_traj(x as nat, 0));
    out
}

/// The points of `s` where the walk enters layer `x = 1` (no factor 2, `n = 2(2R + 1) - 1`)
/// coming from a layer above or from the start: each value with the layer `x` of the next
/// value and its `R`. `in_x1` says whether the walk is already in that layer; a value in a
/// layer above ends it.
pub open spec fn waves_of(s: Seq<u64>, in_x1: bool) -> Seq<(u64, u32, u64)>
    decreases s.len(),
{
    if s.len() == 0 {
        Seq::empty()
    } else {
        let (y, bx, r) = branch_of(s[0] as nat);
        if y == 0 && bx == 1 && !in_x1 {
            seq![(s[0], branch_of(condensed(s[0] as nat)).1 as u32, r as u64)] + waves_of(s.drop_first(), true)
        } else if bx > 1 {
            waves_of(s.drop_first(), false)
        } else {
            waves_of(s.drop_first(), in_x1)
        }
    }
}

/// The points of the walk `traj` where it enters layer `x = 1` (see `waves_of`).
pub fn branch_waves(traj: &Vec<u64>) -> (r: Vec<(u64, u32, u64)>)
    requires
        forall|i: int| 0 <= i < traj@.len() ==> 0 < #[trigger] traj@[i] < u64::MAX
            && (traj@[i] % 2 == 1 ==> traj@[i] <= ODD_LIMIT),
    ensures
        r@ == waves_of(traj@, false),
{
    let mut out: Vec<(u64, u32, u64)> = Vec::new();
    let mut in_x1 = false;
    let mut i: usize = 0;
    assert(traj@.skip(0) =~= traj@);
    assert(out@ + waves_of(traj@.skip(0), false) =~= waves_of(traj@, false));
    while i < traj.len()
        invariant
            i <= traj@.len(),
            forall|j: int| 0 <= j < traj@.len() ==> 0 < #[trigger] traj@[j] < u64::MAX
                && (traj@[j] % 2 == 1 ==> traj@[j] <= ODD_LIMIT),
            out@ + waves_of(traj@.skip(i as int), in_x1) == waves_of(traj@, false),
        decreases traj@.len() - i,
    {
        let ghost rest = traj@.skip(i as int);
        assert(rest[0] == traj@[i as int]);
        assert(rest.drop_first() =~= traj@.skip(i + 1));
        let x = traj[i];
        let (y, bx, r) = decompose_branch(x);
        let ghost before = out@;
        if y == 0 && bx == 1 && !in_x1 {
            in_x1 = true;
            proof { lemma_condensed_range(x as nat); }
            let nx = condensed_collatz(x);
            let (_ny, nbx, _nr) = decompose_branch(nx);
            out.push((x, nbx, r));
            assert(out@ + waves_of(traj@.skip(i + 1), true) =~= before + waves_of(rest, false));
        } else if bx > 1 {
            in_x1 = false;
        }
        i = i + 1;
    }
    assert(traj@.skip(traj@.len() as int) =~= Seq::<u64>::empty());
    assert(traj@.skip(0) =~= traj@);
    out
}

} // verus!
