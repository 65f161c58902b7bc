//! The integer work behind the analyzer's reports on stopping times: the prediction of a
//! stopping time from the residue of `n` mod 16 and its error, and the stopping times
//! grouped by the number of one bits and of trailing zeros. The reports' means, ratios and
//! regressions are floating point and are left to the program that prints them.
use vstd::prelude::*;
use crate::collatz::{settles, stop_time, stopping_time_vec, stopping_time_cached, cache_ok, ODD_LIMIT,
    lemma_settles_step, step, ones, tz, popcount, trailing_zeros};

verus! {

/// Whether every nonzero entry of a stopping-time cache is right.
pub open spec fn cache_good(c: Seq<u64>) -> bool {
    forall|i: int| 0 <= i < c.len() && #[trigger] c[i] != 0 ==> settles(i as nat) && c[i] == stop_time(i as nat)
}

/// The cache the reports start from: one zero entry per number below `min(limit, 10^8)`.
pub fn new_cache(limit: u64) -> (r: Vec<u64>)
    ensures
        r@.len() == (if limit < 100_000_000 { limit as nat } else { 100_000_000nat }),
        forall|i: int| 0 <= i < r@.len() ==> r@[i] == 0,
{
    let len: usize = if limit < 100_000_000 { limit as usize } else { 100_000_000 };
    let mut v: Vec<u64> = Vec::new();
    let mut i: usize = 0;
    while i < len
        invariant
            i <= len,
            v@.len() == i,
            forall|j: int| 0 <= j < i ==> v@[j] == 0,
        decreases len - i,
    {
        v.push(0);
        i = i + 1;
    }
    v
}

/// The stopping time of `n`, through the cache when `n` has an entry and through a fresh
/// map otherwise.
pub fn stop_of(n: u64, cache: &mut Vec<u64>) -> (r: u64)
    requires
        n >= 1,
        settles(n as nat),
        cache_good(old(cache)@),
    ensures
        r == stop_time(n as nat),
        cache_good(final(cache)@),
        final(cache)@.len() == old(cache)@.len(),
{
    if (n as u128) < (cache.len() as u128) {
        stopping_time_vec(n, cache.as_mut_slice())
    } else {
        let mut fresh: std::collections::HashMap<u64, u64> = std::collections::HashMap::new();
        proof {
            broadcast use vstd::std_specs::hash::group_hash_axioms;
            assert(fresh@ == Map::<u64, u64>::empty());
            assert(cache_ok(fresh@));
        }
        stopping_time_cached(n, &mut fresh)
    }
}

/// The steps the prediction skips for residue `r` of `n` mod 16.
pub open spec fn residue_delta(r: nat) -> nat {
    if r == 0 { 4 } else if r == 1 { 3 } else if r == 2 { 1 } else if r == 3 { 5 }
    else if r == 4 { 2 } else if r == 5 { 4 } else if r == 6 { 2 } else if r == 7 { 5 }
    else if r == 8 { 3 } else if r == 9 { 4 } else if r == 10 { 1 } else if r == 11 { 5 }
    else if r == 12 { 2 } else if r == 13 { 4 } else if r == 14 { 1 } else { 5 }
}

/// The number the prediction moves `n` to, by the residue of `n` mod 16.
pub open spec fn residue_next(n: nat) -> nat {
    let r = n % 16;
    if r == 0 { n / 16 }
    else if r == 2 || r == 6 || r == 10 || r == 14 { n / 2 }
    else if r == 4 || r == 12 { n / 4 }
    else if r == 8 { n / 8 }
    else if r == 1 || r == 5 || r == 9 || r == 13 { (3 * n + 1) / 4 }
    else { (3 * n + 1) / 8 }
}

/// The steps skipped for residue `r` (see `residue_delta`).
pub fn predictor_delta(r: u64) -> (d: u64)
    requires
        r < 16,
    ensures
        d == residue_delta(r as nat),
{
    if r == 0 { 4 } else if r == 1 { 3 } else if r == 2 { 1 } else if r == 3 { 5 }
    else if r == 4 { 2 } else if r == 5 { 4 } else if r == 6 { 2 } else if r == 7 { 5 }
    else if r == 8 { 3 } else if r == 9 { 4 } else if r == 10 { 1 } else if r == 11 { 5 }
    else if r == 12 { 2 } else if r == 13 { 4 } else if r == 14 { 1 } else { 5 }
}

/// The number the prediction moves `n` to (see `residue_next`).
pub fn predictor_next(n: u64) -> (m: u64)
    requires
        n % 2 == 1 ==> n <= ODD_LIMIT,
    ensures
        m == residue_next(n as nat),
{
    let r = n % 16;
    assert(r % 2 == n % 2) by (nonlinear_arith)
        requires r == n % 16;
    if r == 0 { n / 16 }
    else if r == 2 || r == 6 || r == 10 || r == 14 { n / 2 }
    else if r == 4 || r == 12 { n / 4 }
    else if r == 8 { n / 8 }
    else if r == 1 || r == 5 || r == 9 || r == 13 { (3 * n + 1) / 4 }
    else { (3 * n + 1) / 8 }
}

/// The distance between two numbers.
pub open spec fn abs_diff(a: nat, b: nat) -> nat {
    if a >= b { (a - b) as nat } else { (b - a) as nat }
}

/// The error of the mod-16 prediction at `n`: the distance between its stopping time and
/// the skipped steps plus the stopping time of the number it moves to.
pub open spec fn predictor_error(n: nat) -> nat {
    abs_diff(stop_time(n), residue_delta(n % 16) + stop_time(residue_next(n)))
}

/// What the report gathers for one residue class: how many numbers, the sum and the
/// largest of their prediction errors, and the sum of their stopping times.
#[derive(Clone, Copy, PartialEq, Eq, Structural, Debug)]
pub struct ClassStats {
    pub count: u64,
    pub err_sum: u128,
    pub err_max: u128,
    pub s_sum: u128,
}

/// The statistics of the numbers in `1 ..= m` with residue `r` mod 16.
pub open spec fn class_stats(r: nat, m: nat) -> (nat, nat, nat, nat)
    decreases m,
{
    if m == 0 { (0, 0, 0, 0) } else {
        let (c, e, x, s) = class_stats(r, (m - 1) as nat);
        if m % 16 == r {
            let err = predictor_error(m);
            (c + 1, e + err, if err > x { err } else { x }, s + stop_time(m))
        } else {
            (c, e, x, s)
        }
    }
}

/// Whether the stopping times the mod-16 prediction needs for `1 ..= limit` exist.
pub open spec fn predictor_settles(limit: nat) -> bool {
    forall|n: nat| 1 <= n <= limit ==> #[trigger] settles(n) && settles(residue_next(n))
}

pub proof fn lemma_stop_bound(n: nat)
    requires
        settles(n),
    ensures
        stop_time(n) <= u64::MAX,
        n > 1 && n % 2 == 1 ==> n <= ODD_LIMIT,
{
    if n > 1 {
        lemma_settles_step(n);
    }
}

/// A range `1 ..= limit` of settling numbers ends at most one past the largest odd number
/// whose successor fits.
pub proof fn lemma_limit_bound(limit: u64)
    requires
        limit >= 1,
        forall|n: nat| 1 <= n <= limit ==> #[trigger] settles(n),
    ensures
        limit <= ODD_LIMIT + 1,
{
    assert(settles(limit as nat));
    lemma_stop_bound(limit as nat);
    if limit > 2 && limit % 2 == 0 {
        assert(settles((limit - 1) as nat));
        lemma_stop_bound((limit - 1) as nat);
    }
}

/// The statistics of residue class `r` over `1 ..= limit` (see `class_stats`).
pub fn predictor_class(limit: u64, r: u64, cache: &mut Vec<u64>) -> (st: ClassStats)
    requires
        r < 16,
        predictor_settles(limit as nat),
        cache_good(old(cache)@),
    ensures
        (st.count as nat, st.err_sum as nat, st.err_max as nat, st.s_sum as nat) == class_stats(r as nat, limit as nat),
        cache_good(final(cache)@),
        final(cache)@.len() == old(cache)@.len(),
{
    let mut st = ClassStats { count: 0, err_sum: 0, err_max: 0, s_sum: 0 };
    let mut n: u64 = 1;
    if limit == 0 {
        return st;
    }
    let delta = predictor_delta(r);
    proof {
        lemma_limit_bound(limit);
    }
    while n <= limit
        invariant
            1 <= n <= limit + 1,
            limit <= ODD_LIMIT + 1,
            r < 16,
            delta == residue_delta(r as nat),
            predictor_settles(limit as nat),
            cache_good(cache@),
            cache@.len() == old(cache)@.len(),
            (st.count as nat, st.err_sum as nat, st.err_max as nat, st.s_sum as nat) == class_stats(r as nat, (n - 1) as nat),
            st.count < n,
            st.err_sum <= st.count * 0x1_0000_0000_0000_0005,
            st.s_sum <= st.count * 0x1_0000_0000_0000_0000,
        decreases limit + 1 - n,
    {
        if n % 16 == r {
            assert(settles(n as nat));
            proof {
                lemma_stop_bound(n as nat);
                lemma_stop_bound(residue_next(n as nat));
            }
            let s_real = stop_of(n, cache);
            let n_prime = predictor_next(n);
            proof {
                if n_prime == 0 {
                    assert(false);
                }
            }
            let s_prime = stop_of(n_prime, cache);
            let pred: u128 = delta as u128 + s_prime as u128;
            let err: u128 = if (s_real as u128) >= pred { s_real as u128 - pred } else { pred - s_real as u128 };
            proof {
                assert(err <= 0x1_0000_0000_0000_0005);
                assert(st.count < 0x1_0000_0000_0000_0000);
                assert((st.count + 1) * 0x1_0000_0000_0000_0005 == st.count * 0x1_0000_0000_0000_0005 + 0x1_0000_0000_0000_0005);
                assert((st.count + 1) * 0x1_0000_0000_0000_0000 == st.count * 0x1_0000_0000_0000_0000 + 0x1_0000_0000_0000_0000);
                assert(st.count * 0x1_0000_0000_0000_0005 <= 0x8000_0000_0000_0000 * 0x1_0000_0000_0000_0005) by (nonlinear_arith)
                    requires st.count <= 0x8000_0000_0000_0000;
            }
            st.count = st.count + 1;
            st.err_sum = st.err_sum + err;
            if err > st.err_max {
                st.err_max = err;
            }
            st.s_sum = st.s_sum + s_real as u128;
        }
        n = n + 1;
    }
    st
}

/// Follows the orbit of `x` for up to `k` more steps, odd numbers two steps at a time,
/// stopping at 1; `d` counts the steps taken.
pub open spec fn collapse(x: nat, d: nat, k: nat) -> (nat, nat)
    decreases k,
{
    if k == 0 || x == 1 { (x, d) }
    else if x % 2 == 0 { collapse(x / 2, d + 1, (k - 1) as nat) }
    else { collapse((3 * x + 1) / 2, d + 2, (k - 1) as nat) }
}

/// The number the orbit of `n` reaches after five moves of `collapse`, and the steps taken.
pub fn collapse_prefix(n: u64) -> (r: (u64, u64))
    requires
        n >= 1,
        settles(n as nat),
    ensures
        (r.0 as nat, r.1 as nat) == collapse(n as nat, 0, 5),
        r.0 >= 1,
        settles(r.0 as nat),
        r.1 <= 10,
{
    let mut x = n;
    let mut delta: u64 = 0;
    let mut i: u64 = 0;
    while i < 5 && x != 1
        invariant
            i <= 5,
            x >= 1,
            settles(x as nat),
            delta <= 2 * i,
            collapse(x as nat, delta as nat, (5 - i) as nat) == collapse(n as nat, 0, 5),
        decreases 5 - i,
    {
        proof { lemma_settles_step(x as nat); }
        if x % 2 == 0 {
            assert(step(x as nat) == x / 2);
            x = x / 2;
            delta = delta + 1;
        } else {
            let t = 3 * x + 1;
            proof {
                assert(step(x as nat) == t);
                lemma_settles_step(t as nat);
                assert(step(t as nat) == t / 2);
            }
            x = t / 2;
            delta = delta + 2;
        }
        i = i + 1;
    }
    assert(collapse(x as nat, delta as nat, (5 - i) as nat) == (x as nat, delta as nat));
    (x, delta)
}

/// The error of the five-move prediction at `n`.
pub open spec fn collapse_error(n: nat) -> nat {
    let (x, d) = collapse(n, 0, 5);
    abs_diff(stop_time(n), d + stop_time(x))
}

/// Moving along the orbit with `collapse` keeps the stopping time: the steps taken plus the
/// stopping time of where it ends are the stopping time of where it began.
pub proof fn lemma_collapse_keeps_stop(x: nat, d: nat, k: nat)
    requires
        x >= 1,
        settles(x),
    ensures
        ({
            let (y, e) = collapse(x, d, k);
            y >= 1 && settles(y) && stop_time(x) + d == stop_time(y) + e
        }),
    decreases k,
{
    if k > 0 && x != 1 {
        lemma_settles_step(x);
        if x % 2 == 0 {
            assert(step(x) == x / 2);
            lemma_collapse_keeps_stop(x / 2, d + 1, (k - 1) as nat);
        } else {
            let t = 3 * x + 1;
            assert(step(x) == t);
            lemma_settles_step(t);
            assert(step(t) == t / 2);
            lemma_collapse_keeps_stop(t / 2, d + 2, (k - 1) as nat);
        }
    }
}

/// The five-move prediction is exact: for every settling `n`, the steps of the first five
/// moves plus the stopping time of where they lead are the stopping time of `n`.
pub proof fn law_collapse_error_zero(n: nat)
    requires
        n >= 1,
        settles(n),
    ensures
        collapse_error(n) == 0,
{
    lemma_collapse_keeps_stop(n, 0, 5);
}

/// The count, error sum and largest error of the five-move prediction over the numbers in
/// `1 ..= m` with residue `r` mod 32.
pub open spec fn class32_stats(r: nat, m: nat) -> (nat, nat, nat)
    decreases m,
{
    if m == 0 { (0, 0, 0) } else {
        let (c, e, x) = class32_stats(r, (m - 1) as nat);
        if m % 32 == r {
            let err = collapse_error(m);
            (c + 1, e + err, if err > x { err } else { x })
        } else {
            (c, e, x)
        }
    }
}

/// The five-move prediction over residue class `r` mod 32 among `1 ..= min(limit, 50000)`:
/// how many numbers, the sum and the largest of their errors.
pub fn collapse_class(limit: u64, r: u64, cache: &mut Vec<u64>) -> (st: (u64, u128, u128))
    requires
        r < 32,
        forall|n: nat| 1 <= n <= limit && n <= 50000 ==> #[trigger] settles(n),
        cache_good(old(cache)@),
    ensures
        ({
            let top = if limit < 50000 { limit as nat } else { 50000nat };
            (st.0 as nat, st.1 as nat, st.2 as nat) == class32_stats(r as nat, top)
        }),
        cache_good(final(cache)@),
        final(cache)@.len() == old(cache)@.len(),
{
    let top: u64 = if limit < 50000 { limit } else { 50000 };
    let mut count: u64 = 0;
    let mut sum: u128 = 0;
    let mut max: u128 = 0;
    let mut n: u64 = 1;
    while n <= top
        invariant
            1 <= n <= top + 1,
            top <= 50000,
            top <= limit,
            r < 32,
            forall|m: nat| 1 <= m <= limit && m <= 50000 ==> #[trigger] settles(m),
            cache_good(cache@),
            cache@.len() == old(cache)@.len(),
            (count as nat, sum as nat, max as nat) == class32_stats(r as nat, (n - 1) as nat),
            count < n,
            sum <= count * 0x1_0000_0000_0000_000a,
        decreases top + 1 - n,
    {
        if n % 32 == r {
            assert(settles(n as nat));
            let s_real = stop_of(n, cache);
            let (x, delta) = collapse_prefix(n);
            let s_prime = stop_of(x, cache);
            let pred: u128 = delta as u128 + s_prime as u128;
            let err: u128 = if (s_real as u128) >= pred { s_real as u128 - pred } else { pred - s_real as u128 };
            proof {
                lemma_stop_bound(n as nat);
                lemma_stop_bound(x as nat);
                assert(err <= 0x1_0000_0000_0000_000a);
                assert((count + 1) * 0x1_0000_0000_0000_000a == count * 0x1_0000_0000_0000_000a + 0x1_0000_0000_0000_000a);
                assert(count * 0x1_0000_0000_0000_000a <= 50000 * 0x1_0000_0000_0000_000a) by (nonlinear_arith)
                    requires count <= 50000;
            }
            count = count + 1;
            sum = sum + err;
            if err > max {
                max = err;
            }
        }
        n = n + 1;
    }
    (count, sum, max)
}

/// The stopping times of the numbers in `1 ..= m` with `pc` one bits, in increasing order.
pub open spec fn ones_bucket(m: nat, pc: nat) -> Seq<u64>
    decreases m,
{
    if m == 0 { Seq::empty() } else {
        let rest = ones_bucket((m - 1) as nat, pc);
        if ones(m) == pc { rest.push(stop_time(m) as u64) } else { rest }
    }
}

/// The stopping times of the numbers in `1 ..= m` with `min(v2(n), 32) == t`, in increasing
/// order.
pub open spec fn tz_bucket(m: nat, t: nat) -> Seq<u64>
    decreases m,
{
    if m == 0 { Seq::empty() } else {
        let rest = tz_bucket((m - 1) as nat, t);
        let z = tz(m, 64);
        if (if z < 32 { z } else { 32 }) == t { rest.push(stop_time(m) as u64) } else { rest }
    }
}

/// `count` empty buckets.
fn empty_buckets(count: usize) -> (r: Vec<Vec<u64>>)
    ensures
        r@.len() == count,
        forall|j: int| 0 <= j < count ==> (#[trigger] r@[j])@.len() == 0,
{
    let mut r: Vec<Vec<u64>> = Vec::new();
    let mut i: usize = 0;
    while i < count
        invariant
            i <= count,
            r@.len() == i,
            forall|j: int| 0 <= j < i ==> (#[trigger] r@[j])@.len() == 0,
        decreases count - i,
    {
        r.push(Vec::new());
        i = i + 1;
    }
    r
}

/// The stopping times of `1 ..= limit` grouped by the number of one bits (65 groups) and by
/// the number of trailing zeros, 32 and more counted as 32 (33 groups).
pub fn binary_buckets(limit: u64, cache: &mut Vec<u64>) -> (r: (Vec<Vec<u64>>, Vec<Vec<u64>>))
    requires
        forall|n: nat| 1 <= n <= limit ==> #[trigger] settles(n),
        cache_good(old(cache)@),
    ensures
        r.0@.len() == 65,
        forall|pc: int| 0 <= pc < 65 ==> (#[trigger] r.0@[pc])@ == ones_bucket(limit as nat, pc as nat),
        r.1@.len() == 33,
        forall|t: int| 0 <= t < 33 ==> (#[trigger] r.1@[t])@ == tz_bucket(limit as nat, t as nat),
        cache_good(final(cache)@),
        final(cache)@.len() == old(cache)@.len(),
{
    let mut by_ones = empty_buckets(65);
    let mut by_tz = empty_buckets(33);
    if limit == 0 {
        return (by_ones, by_tz);
    }
    proof {
        lemma_limit_bound(limit);
    }
    let mut n: u64 = 1;
    while n <= limit
        invariant
            1 <= n <= limit + 1,
            limit <= ODD_LIMIT + 1,
            forall|m: nat| 1 <= m <= limit ==> #[trigger] settles(m),
            cache_good(cache@),
            cache@.len() == old(cache)@.len(),
            by_ones@.len() == 65,
            forall|pc: int| 0 <= pc < 65 ==> (#[trigger] by_ones@[pc])@ == ones_bucket((n - 1) as nat, pc as nat),
            by_tz@.len() == 33,
            forall|t: int| 0 <= t < 33 ==> (#[trigger] by_tz@[t])@ == tz_bucket((n - 1) as nat, t as nat),
        decreases limit + 1 - n,
    {
        assert(settles(n as nat));
        let s = stop_of(n, cache);
        let pc = popcount(n) as usize;
        proof { crate::collatz::lemma_popcount_bound(n as nat); }
        let z = trailing_zeros(n);
        let t: usize = if z < 32 { z as usize } else { 32 };
        let ghost ob = by_ones@;
        let ghost tb = by_tz@;
        by_ones[pc].push(s);
        by_tz[t].push(s);
        proof {
            assert forall|j: int| 0 <= j < 65 implies (#[trigger] by_ones@[j])@ == ones_bucket(n as nat, j as nat) by {
                if j != pc { assert(by_ones@[j] == ob[j]); }
            }
            assert forall|j: int| 0 <= j < 33 implies (#[trigger] by_tz@[j])@ == tz_bucket(n as nat, j as nat) by {
                if j != t { assert(by_tz@[j] == tb[j]); }
            }
        }
        n = n + 1;
    }
    (by_ones, by_tz)
}

} // verus!
