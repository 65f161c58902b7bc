//! The counts behind the analyzer's reports on the binary decomposition
//! `n = 2^y (2^x (2R + 1) - 1)`: how often a candidate measure fails to fall under one
//! step of the condensed map, and how often the peak of `x + y` fails to fall.
use vstd::prelude::*;
use vstd::arithmetic::power2::{pow2, lemma_pow2_pos};
use crate::collatz::{branch_of, ones, bits_left, tz, lemma_bits_bound, decompose_branch, popcount, trailing_zeros, condensed, condensed_collatz, ODD_LIMIT, lemma_tz_split,
    c_settles, c_stop, c_next, b_peak, b_memo_ok, compute_peak_b1, lemma_c_settles_step,
    seen, levels_contain, levels_size, tree_levels, subtree_size};

verus! {

/// The candidate measures that the branch-layer report tries, each a function of `(y, x, R)`.
#[derive(Clone, Copy, PartialEq, Eq, Structural, Debug)]
pub enum Measure {
    /// `x + y`
    XY,
    /// `x + y + popcount(R)`
    XYPop,
    /// `x + bit_length(R + 1)`
    XBits,
    /// `x + y + bit_length(R + 1)`
    XYBits,
    /// `x + y + v2(R + 1)`
    XYTz,
}

/// The value of measure `kind` at `n`.
pub open spec fn measure_value(kind: Measure, n: nat) -> nat {
    let (y, x, r) = branch_of(n);
    match kind {
        Measure::XY => x + y,
        Measure::XYPop => x + y + ones(r),
        Measure::XBits => x + bits_left(r + 1),
        Measure::XYBits => x + y + bits_left(r + 1),
        Measure::XYTz => x + y + tz(r + 1, 64),
    }
}

/// The number of binary digits of `n`.
pub fn bit_length(n: u64) -> (r: u32)
    ensures
        r == bits_left(n as nat),
        r <= 64,
{
    let mut m = n;
    let mut c: u32 = 0;
    proof {
        vstd::arithmetic::power2::lemma2_to64();
        lemma_bits_bound(n as nat, 64);
    }
    while m > 0
        invariant
            c + bits_left(m as nat) == bits_left(n as nat),
            bits_left(n as nat) <= 64,
        decreases m,
    {
        c = c + 1;
        m = m / 2;
    }
    c
}

/// The value of measure `kind` at `n` (see `measure_value`).
pub fn measure(kind: Measure, n: u64) -> (r: u64)
    requires
        0 < n < u64::MAX,
    ensures
        r == measure_value(kind, n as nat),
{
    let (y, x, rr) = decompose_branch(n);
    proof {
        lemma_pow2_pos(y as nat);
        lemma_pow2_pos(x as nat);
        let py = pow2(y as nat);
        let px = pow2(x as nat);
        assert(2 * rr + 1 <= n + 1) by (nonlinear_arith)
            requires n == py * (px * (2 * rr + 1) - 1), py >= 1, px >= 1;
    }
    let xy = x as u64 + y as u64;
    match kind {
        Measure::XY => xy,
        Measure::XYPop => xy + popcount(rr) as u64,
        Measure::XBits => x as u64 + bit_length(rr + 1) as u64,
        Measure::XYBits => xy + bit_length(rr + 1) as u64,
        Measure::XYTz => xy + trailing_zeros(rr + 1) as u64,
    }
}

/// The image of `n` under the condensed map, which lies in `1 .. u64::MAX`.
fn next_of(n: u64) -> (r: u64)
    requires
        2 <= n <= ODD_LIMIT,
    ensures
        r == condensed(n as nat),
        0 < r < u64::MAX,
{
    let r = condensed_collatz(n);
    proof {
        if n % 2 == 1 {
            let t = (3 * n + 1) as nat;
            lemma_tz_split(t, 64);
            let p = pow2(tz(t, 64));
            lemma_pow2_pos(tz(t, 64));
            assert(r == t / p);
            assert(1 <= r <= t) by (nonlinear_arith)
                requires t == p * r, p > 0, t > 0;
        }
    }
    r
}

/// Whether measure `kind` fails to fall from `n` to its condensed image.
pub open spec fn violates(kind: Measure, n: nat) -> bool {
    measure_value(kind, condensed(n)) >= measure_value(kind, n)
}

/// How many `n` in `3 ..= m` violate measure `kind`.
pub open spec fn violation_count(kind: Measure, m: nat) -> nat
    decreases m,
{
    if m < 3 { 0 } else { violation_count(kind, (m - 1) as nat) + if violates(kind, m) { 1nat } else { 0nat } }
}

/// The first `n` in `3 ..= m` that violates measure `kind`, or 0.
pub open spec fn first_violation(kind: Measure, m: nat) -> nat
    decreases m,
{
    if m < 3 { 0 } else {
        let f = first_violation(kind, (m - 1) as nat);
        if f == 0 && violates(kind, m) { m } else { f }
    }
}

/// The largest `x + y` over `3 ..= m`, or 0.
pub open spec fn max_measure(m: nat) -> nat
    decreases m,
{
    if m < 3 { 0 } else {
        let b = measure_value(Measure::XY, m);
        let rest = max_measure((m - 1) as nat);
        if b > rest { b } else { rest }
    }
}

/// For every `n` in `3 ..= limit`: how many times measure `kind` does not fall under one step
/// of the condensed map, and the first such `n` (0 if none).
pub fn measure_scan(kind: Measure, limit: u64) -> (r: (u64, u64))
    requires
        limit <= ODD_LIMIT,
    ensures
        r.0 == violation_count(kind, limit as nat),
        r.1 == first_violation(kind, limit as nat),
{
    let mut violations: u64 = 0;
    let mut first: u64 = 0;
    let mut n: u64 = 3;
    if limit < 3 {
        return (0, 0);
    }
    while n <= limit
        invariant
            3 <= n <= limit + 1,
            limit <= ODD_LIMIT,
            violations == violation_count(kind, (n - 1) as nat),
            violations < n,
            first == first_violation(kind, (n - 1) as nat),
        decreases limit + 1 - n,
    {
        let b = measure(kind, n);
        let next = next_of(n);
        let b_next = measure(kind, next);
        if b_next >= b {
            violations = violations + 1;
            if first == 0 {
                first = n;
            }
        }
        n = n + 1;
    }
    (violations, first)
}

/// The branch-layer test of `x + y` over `3 ..= limit`: the number of violations, the
/// largest `x + y` seen (0 if none) and the first violation (0 if none).
pub fn b1_scan(limit: u64) -> (r: (u64, u32, u64))
    requires
        limit <= ODD_LIMIT,
    ensures
        r.0 == violation_count(Measure::XY, limit as nat),
        r.1 == max_measure(limit as nat),
        r.2 == first_violation(Measure::XY, limit as nat),
{
    let mut violations: u64 = 0;
    let mut first: u64 = 0;
    let mut max_b1: u32 = 0;
    if limit < 3 {
        return (0, 0, 0);
    }
    let mut n: u64 = 3;
    while n <= limit
        invariant
            3 <= n <= limit + 1,
            limit <= ODD_LIMIT,
            violations == violation_count(Measure::XY, (n - 1) as nat),
            violations < n,
            first == first_violation(Measure::XY, (n - 1) as nat),
            max_b1 == max_measure((n - 1) as nat),
        decreases limit + 1 - n,
    {
        let (y, x, _r) = decompose_branch(n);
        let b1 = x + y;
        if b1 > max_b1 {
            max_b1 = b1;
        }
        let next = next_of(n);
        let (y_next, x_next, _r_next) = decompose_branch(next);
        let b1_next = x_next + y_next;
        if b1_next >= b1 {
            violations = violations + 1;
            if first == 0 {
                first = n;
            }
        }
        n = n + 1;
    }
    (violations, max_b1, first)
}

/// Whether the peak of `x + y` on the condensed walk fails to fall from `n` to its image.
pub open spec fn peak_violates(n: nat) -> bool {
    b_peak(c_next(n), c_stop(c_next(n))) >= b_peak(n, c_stop(n))
}

/// The odd `n` in `3 ..= m` whose peak does not fall, in increasing order.
pub open spec fn peak_violations(m: nat) -> Seq<u64>
    decreases m,
{
    if m < 3 { Seq::empty() } else {
        let rest = peak_violations((m - 1) as nat);
        if m % 2 == 1 && peak_violates(m) { rest.push(m as u64) } else { rest }
    }
}

/// The peak test over the odd `n` in `3 ..= min(limit, 100000)`: how many were checked, how
/// many had a peak that does not fall under one condensed step, and the first five of those.
pub fn peak_scan(limit: u64) -> (r: (u64, u64, Vec<u64>))
    requires
        forall|n: nat| 3 <= n <= limit && n <= 100000 && n % 2 == 1 ==> #[trigger] c_settles(n),
    ensures
        ({
            let top = if limit < 100000 { limit as nat } else { 100000nat };
            &&& r.0 == (if top < 3 { 0 } else { (top - 1) / 2 })
            &&& r.1 == peak_violations(top).len()
            &&& r.2@ == peak_violations(top).take(if r.1 < 5 { r.1 as int } else { 5 })
        }),
{
    broadcast use vstd::std_specs::hash::group_hash_axioms;
    let top: u64 = if limit < 100000 { limit } else { 100000 };
    let mut memo: std::collections::HashMap<u64, u32> = std::collections::HashMap::new();
    let mut checked: u64 = 0;
    let mut violations: u64 = 0;
    let mut shown: Vec<u64> = Vec::new();
    if top < 3 {
        assert(peak_violations(top as nat) =~= Seq::<u64>::empty()) by {
            reveal_with_fuel(peak_violations, 4);
        }
        return (0, 0, shown);
    }
    let mut n: u64 = 3;
    assert(peak_violations(2) =~= Seq::<u64>::empty());
    while n <= top
        invariant
            3 <= n <= top + 2,
            n % 2 == 1,
            top <= 100000,
            top <= limit,
            forall|m: nat| 3 <= m <= limit && m <= 100000 && m % 2 == 1 ==> #[trigger] c_settles(m),
            b_memo_ok(memo@),
            checked == (n - 3) / 2,
            violations == peak_violations((n - 1) as nat).len(),
            violations <= checked,
            shown@ == peak_violations((n - 1) as nat).take(if violations < 5 { violations as int } else { 5 }),
        decreases top + 2 - n,
    {
        checked = checked + 1;
        assert(c_settles(n as nat));
        proof { lemma_c_settles_step(n as nat); }
        let peak_n = compute_peak_b1(n, &mut memo);
        let next = condensed_collatz(n);
        proof {
            let t = (3 * n + 1) as nat;
            lemma_tz_split(t, 64);
            let p = pow2(tz(t, 64));
            lemma_pow2_pos(tz(t, 64));
            assert(next == t / p);
            assert(next >= 1) by (nonlinear_arith)
                requires t == p * next, p > 0, t > 0;
            assert(next == c_next(n as nat));
        }
        let peak_next = compute_peak_b1(next, &mut memo);
        let ghost before = peak_violations((n - 1) as nat);
        proof {
            assert(peak_violations(n as nat) == (if peak_violates(n as nat) { before.push(n) } else { before }));
            assert(peak_violations((n + 1) as nat) == peak_violations(n as nat));
        }
        if peak_next >= peak_n {
            if violations < 5 {
                shown.push(n);
            }
            violations = violations + 1;
            proof {
                let after = before.push(n);
                if violations - 1 < 5 {
                    assert(shown@ =~= after.take(violations as int));
                } else {
                    assert(after.take(5) =~= before.take(5));
                }
            }
        }
        n = n + 2;
    }
    (checked, violations, shown)
}

/// How many numbers of `nodes`, taken to `(mult * node + add) mod 2^64`, lie in `targets`.
pub open spec fn overlap(nodes: Seq<u64>, mult: u64, add: u64, targets: Set<u64>) -> nat
    decreases nodes.len(),
{
    if nodes.len() == 0 { 0 } else {
        let rest = overlap(nodes.drop_last(), mult, add, targets);
        let t = (nodes.last() as int * mult + add) as u64;
        if targets.contains(t) { rest + 1 } else { rest }
    }
}

/// How many nodes of the tree `tree` (all its levels, in order), under `n -> mult * n + add`
/// in 64 bits, are nodes of the tree `other`.
pub fn overlap_count(tree: &Vec<Vec<u64>>, mult: u64, add: u64, other: &Vec<Vec<u64>>) -> (r: u128)
    requires
        mult <= 32,
        add <= 32,
    ensures
        r == overlap(tree@.map_values(|l: Vec<u64>| l@).flatten(), mult, add,
            seen(other@.map_values(|l: Vec<u64>| l@))),
{
    let ghost ls = tree@.map_values(|l: Vec<u64>| l@);
    let ghost targets = seen(other@.map_values(|l: Vec<u64>| l@));
    let mut count: u128 = 0;
    let mut d: usize = 0;
    assert(ls.subrange(0, 0).flatten() =~= Seq::<u64>::empty());
    while d < tree.len()
        invariant
            ls == tree@.map_values(|l: Vec<u64>| l@),
            targets == seen(other@.map_values(|l: Vec<u64>| l@)),
            mult <= 32,
            add <= 32,
            d <= tree@.len(),
            count == overlap(ls.subrange(0, d as int).flatten(), mult, add, targets),
            count <= d * 0x1_0000_0000_0000_0000,
        decreases tree@.len() - d,
    {
        let level = &tree[d];
        let ghost done = ls.subrange(0, d as int).flatten();
        let mut i: usize = 0;
        while i < level.len()
            invariant
                ls == tree@.map_values(|l: Vec<u64>| l@),
                targets == seen(other@.map_values(|l: Vec<u64>| l@)),
                mult <= 32,
                add <= 32,
                d < tree@.len(),
                level@ == ls[d as int],
                done == ls.subrange(0, d as int).flatten(),
                i <= level@.len(),
                count == overlap(done + level@.subrange(0, i as int), mult, add, targets),
                count <= d * 0x1_0000_0000_0000_0000 + i,
            decreases level@.len() - i,
        {
            let node = level[i];
            assert((node as u128) * (mult as u128) <= 0xffff_ffff_ffff_ffff * 32) by (nonlinear_arith)
                requires mult <= 32;
            let t = ((node as u128) * (mult as u128) + (add as u128)) as u64;
            let ghost prev = done + level@.subrange(0, i as int);
            let ghost next = done + level@.subrange(0, i + 1);
            assert(next.drop_last() =~= prev);
            assert(next.last() == node);
            if levels_contain(other, t) {
                proof {
                    assert(d * 0x1_0000_0000_0000_0000 + i < 0xffff_ffff_ffff_ffff * 0x1_0000_0000_0000_0000 + 0x1_0000_0000_0000_0000) by (nonlinear_arith)
                        requires d < 0x1_0000_0000_0000_0000, i < 0x1_0000_0000_0000_0000, d <= 0xffff_ffff_ffff_ffff;
                }
                count = count + 1;
            }
            i = i + 1;
        }
        proof {
            assert(count <= (d + 1) * 0x1_0000_0000_0000_0000) by (nonlinear_arith)
                requires count <= d * 0x1_0000_0000_0000_0000 + i, i <= 0xffff_ffff_ffff_ffff;
            assert(ls.subrange(0, d + 1) =~= ls.subrange(0, d as int).push(ls[d as int]));
            ls.subrange(0, d as int).lemma_flatten_push(ls[d as int]);
            assert(level@.subrange(0, level@.len() as int) =~= level@);
        }
        d = d + 1;
    }
    assert(ls.subrange(0, tree@.len() as int) =~= ls);
    count
}

/// The number of nodes below the root `r` in its tree of `depth` levels, exponents up to 20.
pub open spec fn tree_size(r: nat, depth: nat) -> nat {
    levels_size(tree_levels(r as u64, depth, 20), 1)
}

/// Over the odd roots `r` in `1 ..= m`: how many have a tree of the same size as the root
/// `a r + b`, and how many do not.
pub open spec fn transform_counts(a: nat, b: nat, depth: nat, m: nat) -> (nat, nat)
    decreases m,
{
    if m == 0 { (0, 0) } else {
        let (yes, no) = transform_counts(a, b, depth, (m - 1) as nat);
        let t = a * m + b;
        if m % 2 == 0 || t == m { (yes, no) }
        else if tree_size(m, depth) == tree_size(t, depth) { (yes + 1, no) }
        else { (yes, no + 1) }
    }
}

/// Whether the tree sizes that the transform test compares, over the odd roots up to 63,
/// fit in `usize`.
pub open spec fn transform_sizes_fit(a: nat, b: nat, depth: nat) -> bool {
    forall|r: nat| 1 <= r <= 63 && r % 2 == 1 ==> #[trigger] tree_size(r, depth) <= usize::MAX
        && tree_size(a * r + b, depth) <= usize::MAX
}

/// Whether `n -> a n + b` keeps the size of the tree of `depth` levels, over the odd roots
/// up to 63: how many roots keep it and how many do not.
pub fn transform_scan(a: u64, b: u64, depth: usize) -> (r: (u64, u64))
    requires
        2 <= a <= 32,
        b < a,
        transform_sizes_fit(a as nat, b as nat, depth as nat),
    ensures
        (r.0 as nat, r.1 as nat) == transform_counts(a as nat, b as nat, depth as nat, 63),
{
    let mut yes: u64 = 0;
    let mut no: u64 = 0;
    let mut root: u64 = 1;
    assert(transform_counts(a as nat, b as nat, depth as nat, 0) == (0nat, 0nat));
    while root <= 63
        invariant
            1 <= root <= 65,
            root % 2 == 1,
            2 <= a <= 32,
            b < a,
            transform_sizes_fit(a as nat, b as nat, depth as nat),
            (yes as nat, no as nat) == transform_counts(a as nat, b as nat, depth as nat, (root - 1) as nat),
            yes + no <= root,
        decreases 65 - root,
    {
        assert(a * root <= 32 * 63 && a * root >= root) by (nonlinear_arith)
            requires 2 <= a <= 32, 1 <= root <= 63;
        let t = a * root + b;
        assert(tree_size(root as nat, depth as nat) <= usize::MAX);
        let ghost prev = transform_counts(a as nat, b as nat, depth as nat, (root - 1) as nat);
        if t != root {
            let sz_r = subtree_size(root, depth);
            let sz_t = subtree_size(t, depth);
            if sz_r == sz_t {
                yes = yes + 1;
            } else {
                no = no + 1;
            }
        }
        assert(transform_counts(a as nat, b as nat, depth as nat, (root + 1) as nat)
            == transform_counts(a as nat, b as nat, depth as nat, root as nat));
        root = root + 2;
    }
    (yes, no)
}

/// Whether `short` is the start of `long`.
pub fn is_prefix_u32(long: &Vec<u32>, short: &Vec<u32>) -> (r: bool)
    ensures
        r == (short@.len() <= long@.len() && long@.subrange(0, short@.len() as int) == short@),
{
    if short.len() > long.len() {
        return false;
    }
    let mut i: usize = 0;
    while i < short.len()
        invariant
            short@.len() <= long@.len(),
            i <= short@.len(),
            forall|j: int| 0 <= j < i ==> long@[j] == short@[j],
        decreases short@.len() - i,
    {
        if long[i] != short[i] {
            assert(long@.subrange(0, short@.len() as int)[i as int] != short@[i as int]);
            return false;
        }
        i = i + 1;
    }
    assert(long@.subrange(0, short@.len() as int) =~= short@);
    true
}

/// How many numbers of `s` are multiples of 3.
pub open spec fn multiples_of_3(s: Seq<u64>) -> nat
    decreases s.len(),
{
    if s.len() == 0 { 0 } else { multiples_of_3(s.drop_last()) + if s.last() % 3 == 0 { 1nat } else { 0nat } }
}

/// How many numbers of a tree level are multiples of 3 (the nodes with no preimage).
pub fn count_multiples_of_3(level: &Vec<u64>) -> (r: usize)
    ensures
        r == multiples_of_3(level@),
{
    let mut c: usize = 0;
    let mut i: usize = 0;
    while i < level.len()
        invariant
            i <= level@.len(),
            c <= i,
            c == multiples_of_3(level@.subrange(0, i as int)),
        decreases level@.len() - i,
    {
        assert(level@.subrange(0, i + 1).drop_last() =~= level@.subrange(0, i as int));
        if level[i] % 3 == 0 {
            c = c + 1;
        }
        i = i + 1;
    }
    assert(level@.subrange(0, level@.len() as int) =~= level@);
    c
}

} // verus!
