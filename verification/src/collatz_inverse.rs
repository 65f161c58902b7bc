//! The inverse Collatz formula: a number whose odd steps divide `3x + 1` by `2^v_1, ...,
//! 2^v_k` on the way to 1 is `n = (2^V - C) / 3^k`, with `V = v_1 + ... + v_k` and
//! `C = sum_j 3^(k-1-j) 2^(v_1 + ... + v_j)`. The functions here compute that start in 128
//! bits, checking every product and sum, and walk the exponents forward from it.
use vstd::prelude::*;
use vstd::arithmetic::power::{pow, lemma_pow_positive, lemma_pow_increases, lemma_pow_adds};
use vstd::arithmetic::power2::{pow2, lemma_pow2_pos, lemma_pow2_strictly_increases, lemma_pow2_unfold};
use crate::collatz::{lemma_pow2_128, compute_v_sequence, v_run, v_run_fits, tz, lemma_tz_split, consistent_fits, consistent_from,
    first_repeat, verify_n0_consistency, ODD_LIMIT_128};

verus! {

/// The sum of the first `j` exponents.
pub open spec fn prefix_sum(vs: Seq<u32>, j: int) -> nat
    decreases j,
{
    if j <= 0 { 0 } else { prefix_sum(vs, j - 1) + vs[j - 1] as nat }
}

/// The `j`-th term of `C`: `3^(k-1-j) 2^(v_1 + ... + v_j)`.
pub open spec fn inv_term(vs: Seq<u32>, j: int) -> nat {
    (pow(3, (vs.len() - 1 - j) as nat) * pow2(prefix_sum(vs, j))) as nat
}

/// The sum of the first `j` terms of `C`.
pub open spec fn inv_c(vs: Seq<u32>, j: int) -> nat
    decreases j,
{
    if j <= 0 { 0 } else { inv_c(vs, j - 1) + inv_term(vs, j - 1) }
}

/// The start `(2^V - C) / 3^k` that the formula gives for the exponents `vs`, when `C` and
/// `2^V` fit in 128 bits, `2^V` exceeds `C` and `3^k` divides the difference.
pub open spec fn inverse_value(vs: Seq<u32>) -> Option<nat> {
    let k = vs.len() as int;
    let c = inv_c(vs, k);
    let v = prefix_sum(vs, k);
    let p3 = pow(3, k as nat);
    if c <= u128::MAX && v < 128 && pow2(v) > c && (pow2(v) - c) % p3 == 0 {
        Some(((pow2(v) - c) / p3) as nat)
    } else {
        None
    }
}

/// Where `v_run(x, left)` stops: at 1 (or below), or after `left` odd steps.
pub open spec fn run_end(x: nat, left: nat) -> nat
    decreases left, (if x % 2 == 0 { 1nat } else { 0nat }),
{
    if x <= 1 || left == 0 {
        x
    } else if x % 2 == 1 {
        let t = 3 * x + 1;
        run_end(t / pow2(tz(t, 128)), (left - 1) as nat)
    } else {
        proof { lemma_tz_split(x, 128); }
        run_end(x / pow2(tz(x, 128)), left)
    }
}

proof fn lemma_prefix_shift(vs: Seq<u32>, i: int)
    requires
        1 <= i <= vs.len(),
    ensures
        prefix_sum(vs, i) == vs[0] as nat + prefix_sum(vs.drop_first(), i - 1),
    decreases i,
{
    let rest = vs.drop_first();
    assert(prefix_sum(vs, i) == prefix_sum(vs, i - 1) + vs[i - 1] as nat);
    if i > 1 {
        lemma_prefix_shift(vs, i - 1);
        assert(rest[i - 2] == vs[i - 1]);
        assert(prefix_sum(rest, i - 1) == prefix_sum(rest, i - 2) + rest[i - 2] as nat);
    } else {
        assert(prefix_sum(vs, 0) == 0);
        assert(prefix_sum(rest, 0) == 0);
    }
}

/// `C` of a sequence is its first term plus `2^v_1` times `C` of the rest.
proof fn lemma_c_split(vs: Seq<u32>, j: int)
    requires
        1 <= j <= vs.len(),
    ensures
        inv_c(vs, j) == pow(3, (vs.len() - 1) as nat) + pow2(vs[0] as nat) * inv_c(vs.drop_first(), j - 1),
    decreases j,
{
    let k = vs.len() as int;
    let rest = vs.drop_first();
    let p = pow2(vs[0] as nat);
    if j == 1 {
        assert(prefix_sum(vs, 0) == 0);
        assert(pow2(0) == 1) by { vstd::arithmetic::power2::lemma2_to64(); }
        assert(inv_c(vs, 1) == inv_c(vs, 0) + inv_term(vs, 0));
        assert(inv_c(rest, 0) == 0);
        assert(inv_c(vs, 0) == 0);
        assert(p * inv_c(rest, 0) == 0) by (nonlinear_arith) requires inv_c(rest, 0) == 0;
        lemma_pow_positive(3, (k - 1) as nat);
        assert((vs.len() - 1 - 0) as nat == (k - 1) as nat);
        assert(pow2(prefix_sum(vs, 0)) == 1);
        let a = pow(3, (k - 1) as nat);
        assert(inv_term(vs, 0) == (a * pow2(prefix_sum(vs, 0))) as nat);
        assert(a * pow2(prefix_sum(vs, 0)) == a) by (nonlinear_arith) requires pow2(prefix_sum(vs, 0)) == 1;
        assert(inv_term(vs, 0) == pow(3, (k - 1) as nat));
    } else {
        lemma_c_split(vs, j - 1);
        lemma_prefix_shift(vs, j - 1);
        let e = (k - 1 - (j - 1)) as nat;
        assert(rest.len() - 1 - (j - 2) == e);
        let q = prefix_sum(rest, j - 2);
        vstd::arithmetic::power2::lemma_pow2_adds(vs[0] as nat, q);
        lemma_pow_positive(3, e);
        lemma_pow2_pos(q);
        lemma_pow2_pos(vs[0] as nat);
        assert(inv_term(vs, j - 1) == pow(3, e) * pow2(vs[0] as nat + q));
        assert(inv_term(rest, j - 2) == pow(3, e) * pow2(q));
        assert(inv_term(vs, j - 1) == p * inv_term(rest, j - 2)) by (nonlinear_arith)
            requires
                inv_term(vs, j - 1) == pow(3, e) * pow2(vs[0] as nat + q),
                inv_term(rest, j - 2) == pow(3, e) * pow2(q),
                pow2(vs[0] as nat + q) == p * pow2(q);
        assert(inv_c(rest, j - 1) == inv_c(rest, j - 2) + inv_term(rest, j - 2));
        assert(p * inv_c(rest, j - 1) == p * inv_c(rest, j - 2) + p * inv_term(rest, j - 2)) by (nonlinear_arith)
            requires inv_c(rest, j - 1) == inv_c(rest, j - 2) + inv_term(rest, j - 2);
        assert(inv_c(vs, j) == inv_c(vs, j - 1) + inv_term(vs, j - 1));
    }
}

/// Along the odd steps from an odd `x`, `x * 3^k + C == 2^V * end`, with `k`, `V` and `C`
/// those of the exponents met and `end` where the walk stops.
proof fn lemma_inverse_identity(x: nat, left: nat)
    requires
        x % 2 == 1 || x <= 1,
        v_run_fits(x, left),
    ensures
        ({
            let vs = v_run(x, left);
            let k = vs.len() as int;
            x * pow(3, k as nat) + inv_c(vs, k) == pow2(prefix_sum(vs, k)) * run_end(x, left)
        }),
    decreases left,
{
    let vs = v_run(x, left);
    let k = vs.len() as int;
    if x <= 1 || left == 0 {
        assert(vs.len() == 0);
        vstd::arithmetic::power::lemma_pow0(3);
        assert(pow2(0) == 1) by { vstd::arithmetic::power2::lemma2_to64(); }
        assert(run_end(x, left) == x);
        assert(prefix_sum(vs, 0) == 0);
        assert(inv_c(vs, 0) == 0);
        assert(pow(3, 0) == 1);
    } else {
        let t = 3 * x + 1;
        let v = tz(t, 128);
        let y = t / pow2(v);
        assert(x % 2 == 1);
        lemma_tz_split(t, 128);
        assert(x <= ODD_LIMIT_128);
        assert(v < 128) by {
            lemma_pow2_pos(v);
            if v >= 128 {
                if v > 128 {
                    lemma_pow2_strictly_increases(128, v);
                }
                lemma_pow2_128();
                assert(t >= pow2(v)) by (nonlinear_arith)
                    requires t == pow2(v) * (t / pow2(v)), (t / pow2(v)) % 2 == 1, pow2(v) > 0;
            }
        }
        lemma_inverse_identity(y, (left - 1) as nat);
        let rest = v_run(y, (left - 1) as nat);
        assert(vs == seq![v as u32] + rest);
        assert(vs.drop_first() =~= rest);
        assert(vs[0] as nat == v);
        lemma_c_split(vs, k);
        lemma_prefix_shift(vs, k);
        let kr = rest.len() as int;
        assert(kr == k - 1);
        let c3 = pow(3, kr as nat);
        vstd::arithmetic::power::lemma_pow_adds(3, 1, kr as nat);
        vstd::arithmetic::power::lemma_pow1(3);
        assert(pow(3, k as nat) == 3 * c3);
        let vr = prefix_sum(rest, kr);
        vstd::arithmetic::power2::lemma_pow2_adds(v, vr);
        let e = run_end(y, (left - 1) as nat);
        assert(run_end(x, left) == e);
        let cr = inv_c(rest, kr);
        let p = pow2(v);
        assert(inv_c(vs, k) == c3 + p * cr);
        assert(x * pow(3, k as nat) + inv_c(vs, k) == pow2(prefix_sum(vs, k)) * e) by (nonlinear_arith)
            requires
                y * c3 + cr == pow2(vr) * e,
                t == p * y,
                t == 3 * x + 1,
                pow(3, k as nat) == 3 * c3,
                inv_c(vs, k) == c3 + p * cr,
                prefix_sum(vs, k) == v + vr,
                pow2(v + vr) == p * pow2(vr);
    }
}

proof fn lemma_prefix_mono(vs: Seq<u32>, i: int, j: int)
    requires
        0 <= i <= j,
    ensures
        prefix_sum(vs, i) <= prefix_sum(vs, j),
    decreases j - i,
{
    if i < j {
        lemma_prefix_mono(vs, i, j - 1);
    }
}

proof fn lemma_c_mono(vs: Seq<u32>, i: int, j: int)
    requires
        0 <= i <= j,
    ensures
        inv_c(vs, i) <= inv_c(vs, j),
    decreases j - i,
{
    if i < j {
        lemma_c_mono(vs, i, j - 1);
    }
}

/// When every power of two and every partial sum fits, the whole-sequence check's `C` is
/// `C` itself.
proof fn lemma_full_c_exact(vs: Seq<u32>, j: int)
    requires
        0 <= j <= vs.len(),
        prefix_sum(vs, vs.len() as int) < 128,
        inv_c(vs, vs.len() as int) <= u128::MAX,
    ensures
        full_c(vs, j, inv_c(vs, j)) == inv_c(vs, vs.len() as int),
    decreases vs.len() - j,
{
    if j < vs.len() {
        lemma_prefix_mono(vs, j, vs.len() as int);
        lemma_c_mono(vs, j + 1, vs.len() as int);
        assert(inv_c(vs, j + 1) == inv_c(vs, j) + inv_term(vs, j));
        lemma_full_c_exact(vs, j + 1);
    }
}

/// The inverse formula rebuilds the start: for an odd `n` whose odd steps reach 1, the
/// formula `(2^V - C) / 3^k` on its own exponents gives `n` back, both as `inverse_start`
/// and as the whole-sequence check compute it, when `C` and `2^V` fit in 128 bits.
pub proof fn law_inverse_rebuilds_start(n: nat, left: nat)
    requires
        n % 2 == 1,
        v_run_fits(n, left),
        run_end(n, left) == 1,
        inv_c(v_run(n, left), v_run(n, left).len() as int) <= u128::MAX,
        prefix_sum(v_run(n, left), v_run(n, left).len() as int) < 128,
    ensures
        inverse_value(v_run(n, left)) == Some(n),
        full_value(v_run(n, left)) == Some(n),
{
    let vs = v_run(n, left);
    let k = vs.len() as int;
    lemma_inverse_identity(n, left);
    let p3 = pow(3, k as nat);
    lemma_pow_positive(3, k as nat);
    let c = inv_c(vs, k);
    let big = pow2(prefix_sum(vs, k));
    assert(big - c == n * p3);
    assert(n * p3 > 0) by (nonlinear_arith) requires n >= 1, p3 > 0;
    vstd::arithmetic::div_mod::lemma_mod_multiples_basic(n as int, p3);
    vstd::arithmetic::div_mod::lemma_div_multiples_vanish(n as int, p3);
    assert(inv_c(vs, 0) == 0);
    lemma_full_c_exact(vs, 0);
}

proof fn lemma_pow3_80()
    ensures
        pow(3, 80) == 147808829414345923316083210206383297601,
{
    reveal(pow);
    assert(pow(3, 1) == 3) by { reveal_with_fuel(pow, 2); }
    lemma_pow_adds(3, 1, 1);
    assert(pow(3, 2) == 9);
    lemma_pow_adds(3, 2, 2);
    assert(pow(3, 4) == 81);
    lemma_pow_adds(3, 4, 1);
    assert(pow(3, 5) == 243);
    lemma_pow_adds(3, 5, 5);
    assert(pow(3, 10) == 59049);
    lemma_pow_adds(3, 10, 10);
    assert(pow(3, 20) == 3486784401);
    lemma_pow_adds(3, 20, 20);
    assert(pow(3, 40) == 12157665459056928801);
    lemma_pow_adds(3, 40, 40);
}

/// `3^e`, for `e` up to 80 (`3^80` fits in 128 bits).
pub fn pow3_u128(e: u32) -> (r: u128)
    requires
        e <= 80,
    ensures
        r == pow(3, e as nat),
{
    proof { lemma_pow3_80(); }
    let mut x: u128 = 1;
    let mut i: u32 = 0;
    proof { reveal(pow); }
    while i < e
        invariant
            i <= e,
            e <= 80,
            x == pow(3, i as nat),
            pow(3, 80) <= u128::MAX,
        decreases e - i,
    {
        proof {
            lemma_pow_increases(3, (i + 1) as nat, 80);
            reveal(pow);
        }
        x = x * 3;
        i = i + 1;
    }
    x
}

/// `2^e` when it fits in 128 bits.
pub fn pow2_u128(e: u32) -> (r: Option<u128>)
    ensures
        e < 128 ==> r == Some(pow2(e as nat) as u128) && pow2(e as nat) <= u128::MAX,
        e >= 128 ==> r is None && pow2(e as nat) > u128::MAX,
{
    proof { lemma_pow2_128(); }
    if e >= 128 {
        proof {
            if e > 128 {
                lemma_pow2_strictly_increases(128, e as nat);
            }
        }
        return None;
    }
    let mut x: u128 = 1;
    let mut i: u32 = 0;
    proof { assert(pow2(0) == 1) by { vstd::arithmetic::power2::lemma2_to64(); } }
    while i < e
        invariant
            i <= e,
            e < 128,
            x == pow2(i as nat),
            pow2(128) == 0x1_0000_0000_0000_0000_0000_0000_0000_0000,
        decreases e - i,
    {
        proof {
            lemma_pow2_unfold((i + 1) as nat);
            if i + 1 < 128 {
                lemma_pow2_strictly_increases((i + 1) as nat, 128);
            }
        }
        x = x * 2;
        i = i + 1;
    }
    proof {
        if e < 128 && (e as nat) < 128 {
            lemma_pow2_strictly_increases(e as nat, 128);
        }
    }
    Some(x)
}

proof fn lemma_inv_c_grows(vs: Seq<u32>, j: int, k: int)
    requires
        0 <= j <= k,
    ensures
        inv_c(vs, j) <= inv_c(vs, k),
    decreases k - j,
{
    if j < k {
        lemma_inv_c_grows(vs, j, k - 1);
    }
}

proof fn lemma_term_bound(vs: Seq<u32>, j: int)
    requires
        0 <= j < vs.len(),
    ensures
        inv_term(vs, j) >= pow2(prefix_sum(vs, j)),
        inv_term(vs, j) >= pow(3, (vs.len() - 1 - j) as nat),
{
    let e = (vs.len() - 1 - j) as nat;
    lemma_pow_positive(3, e);
    lemma_pow2_pos(prefix_sum(vs, j));
    let a = pow(3, e);
    let b = pow2(prefix_sum(vs, j)) as int;
    assert(a * b >= b && a * b >= a) by (nonlinear_arith)
        requires a >= 1, b >= 1;
}

/// The start that the formula gives for the exponents `vs` (see `inverse_value`).
pub fn inverse_start(vs: &[u32]) -> (r: Option<u128>)
    requires
        vs@.len() <= 80,
        forall|i: int| 0 <= i < vs@.len() ==> #[trigger] vs@[i] < 128,
    ensures
        r matches Some(n) ==> inverse_value(vs@) == Some(n as nat),
        r is None ==> inverse_value(vs@) is None,
{
    let k = vs.len();
    let mut c: u128 = 0;
    let mut prefix: u32 = 0;
    let mut j: usize = 0;
    while j < k
        invariant
            j <= k,
            k == vs@.len(),
            k <= 80,
            forall|i: int| 0 <= i < vs@.len() ==> #[trigger] vs@[i] < 128,
            c == inv_c(vs@, j as int),
            prefix == prefix_sum(vs@, j as int),
            prefix <= 127 * j,
        decreases k - j,
    {
        proof {
            lemma_term_bound(vs@, j as int);
            lemma_inv_c_grows(vs@, j as int + 1, k as int);
        }
        let p2 = match pow2_u128(prefix) {
            Some(p) => p,
            None => { return None; },
        };
        let p3 = pow3_u128((k - 1 - j) as u32);
        let term = match p3.checked_mul(p2) {
            Some(t) => t,
            None => { return None; },
        };
        c = match c.checked_add(term) {
            Some(x) => x,
            None => { return None; },
        };
        prefix = prefix + vs[j];
        j = j + 1;
    }
    let p2v = match pow2_u128(prefix) {
        Some(p) => p,
        None => { return None; },
    };
    if p2v <= c {
        return None;
    }
    let p3k = pow3_u128(k as u32);
    proof { lemma_pow_positive(3, k as nat); }
    let num = p2v - c;
    if num % p3k != 0 {
        return None;
    }
    Some(num / p3k)
}

/// Walks the exponents `vs` forward from `x`: each step takes `3x + 1`, with `3x` counted
/// as 0 when it does not fit in 128 bits, and divides by `2^v`.
pub open spec fn walk(x: nat, vs: Seq<u32>) -> nat
    decreases vs.len(),
{
    if vs.len() == 0 { x } else {
        let y = if 3 * x <= u128::MAX { 3 * x } else { 0 };
        walk((y + 1) / pow2(vs[0] as nat), vs.drop_first())
    }
}

/// Whether no step of `walk(x, vs)` meets `3x` equal to the largest 128-bit number, where
/// adding 1 would not fit.
pub open spec fn walk_fits(x: nat, vs: Seq<u32>) -> bool
    decreases vs.len(),
{
    if vs.len() == 0 { true } else {
        let y = if 3 * x <= u128::MAX { 3 * x } else { 0 };
        y != u128::MAX && walk_fits((y + 1) / pow2(vs[0] as nat), vs.drop_first())
    }
}

/// Where the exponents `vs` lead from `x` (see `walk`).
pub fn walk_exponents(x: u128, vs: &[u32]) -> (r: u128)
    requires
        walk_fits(x as nat, vs@),
        forall|i: int| 0 <= i < vs@.len() ==> #[trigger] vs@[i] < 128,
    ensures
        r == walk(x as nat, vs@),
{
    let mut x = x;
    let mut i: usize = 0;
    let ghost x0 = x as nat;
    assert(vs@.subrange(0, vs@.len() as int) =~= vs@);
    while i < vs.len()
        invariant
            i <= vs@.len(),
            forall|j: int| 0 <= j < vs@.len() ==> #[trigger] vs@[j] < 128,
            walk(x as nat, vs@.subrange(i as int, vs@.len() as int)) == walk(x0, vs@),
            walk_fits(x as nat, vs@.subrange(i as int, vs@.len() as int)),
        decreases vs@.len() - i,
    {
        let ghost rest = vs@.subrange(i as int, vs@.len() as int);
        assert(rest.drop_first() =~= vs@.subrange(i + 1, vs@.len() as int));
        let v = vs[i];
        let y: u128 = match 3u128.checked_mul(x) {
            Some(t) => t,
            None => 0,
        };
        let t = y + 1;
        proof { vstd::bits::lemma_u128_shr_is_div(t, v as u128); }
        x = t >> (v as u128);
        i = i + 1;
    }
    assert(vs@.subrange(vs@.len() as int, vs@.len() as int) =~= Seq::<u32>::empty());
    x
}

/// Whether the last `m` exponents of `vs` are confirmed by the formula: it gives an odd start
/// for them, and walking them from that start reaches 1.
pub open spec fn suffix_confirmed(vs: Seq<u32>, m: int) -> bool {
    let sub = vs.subrange(vs.len() - m, vs.len() as int);
    match inverse_value(sub) {
        Some(n) => n % 2 == 1 && walk(n, sub) == 1,
        None => false,
    }
}

/// Whether every start the formula gives for a suffix of `vs` walks within 128 bits.
pub open spec fn suffixes_fit(vs: Seq<u32>) -> bool {
    forall|m: int| 1 <= m <= vs.len() ==> match #[trigger] inverse_value(vs.subrange(vs.len() - m, vs.len() as int)) {
        Some(n) => walk_fits(n, vs.subrange(vs.len() - m, vs.len() as int)),
        None => true,
    }
}

/// The suffix lengths `1 ..= m` of `vs` that the formula confirms, in increasing order.
pub open spec fn confirmed_upto(vs: Seq<u32>, m: int) -> Seq<usize>
    decreases m,
{
    if m <= 0 { Seq::empty() } else {
        let rest = confirmed_upto(vs, m - 1);
        if suffix_confirmed(vs, m) { rest.push(m as usize) } else { rest }
    }
}

/// The formula on every suffix of `vs` (the last 1, 2, ... exponents): for each one it
/// confirms, its length, the start it gives and the sum of its exponents.
pub fn confirm_suffixes(vs: &[u32]) -> (r: Vec<(usize, u128, u32)>)
    requires
        vs@.len() <= 80,
        forall|i: int| 0 <= i < vs@.len() ==> #[trigger] vs@[i] < 128,
        suffixes_fit(vs@),
    ensures
        r@.len() == confirmed_upto(vs@, vs@.len() as int).len(),
        forall|i: int| 0 <= i < r@.len() ==> {
            let m = (#[trigger] r@[i]).0 as int;
            let sub = vs@.subrange(vs@.len() - m, vs@.len() as int);
            &&& m == confirmed_upto(vs@, vs@.len() as int)[i]
            &&& inverse_value(sub) == Some(r@[i].1 as nat)
            &&& r@[i].2 == prefix_sum(sub, m)
        },
{
    let n_v = vs.len();
    let mut out: Vec<(usize, u128, u32)> = Vec::new();
    let mut m: usize = 1;
    while m <= n_v
        invariant
            1 <= m <= n_v + 1,
            n_v == vs@.len(),
            n_v <= 80,
            forall|i: int| 0 <= i < vs@.len() ==> #[trigger] vs@[i] < 128,
            suffixes_fit(vs@),
            out@.len() == confirmed_upto(vs@, m - 1).len(),
            forall|i: int| 0 <= i < out@.len() ==> {
                let mm = (#[trigger] out@[i]).0 as int;
                let sub = vs@.subrange(vs@.len() - mm, vs@.len() as int);
                &&& mm == confirmed_upto(vs@, m - 1)[i]
                &&& inverse_value(sub) == Some(out@[i].1 as nat)
                &&& out@[i].2 == prefix_sum(sub, mm)
            },
        decreases n_v + 1 - m,
    {
        let sub = &vs[n_v - m..n_v];
        let ghost gsub = vs@.subrange(n_v - m, n_v as int);
        assert(sub@ =~= gsub);
        let ghost before = confirmed_upto(vs@, m - 1);
        let mut confirmed = false;
        let mut n0: u128 = 0;
        match inverse_start(sub) {
            Some(n) => {
                if n % 2 == 1 {
                    assert(inverse_value(vs@.subrange(vs@.len() - m, vs@.len() as int)) == Some(n as nat));
                    let x = walk_exponents(n, sub);
                    if x == 1 {
                        confirmed = true;
                        n0 = n;
                    }
                }
            },
            None => {},
        }
        if confirmed {
            let total = vsum(sub);
            out.push((m, n0, total));
            proof {
                assert(confirmed_upto(vs@, m as int) == before.push(m));
            }
        } else {
            assert(confirmed_upto(vs@, m as int) == before);
        }
        m = m + 1;
    }
    out
}

/// Whether `walk(x, vs)` never meets `3x` equal to the largest 128-bit number (see
/// `walk_fits`).
pub fn walk_fits_check(start: u128, vs: &[u32]) -> (r: bool)
    requires
        forall|i: int| 0 <= i < vs@.len() ==> #[trigger] vs@[i] < 128,
    ensures
        r == walk_fits(start as nat, vs@),
{
    let mut x = start;
    let mut i: usize = 0;
    let ghost x0 = x as nat;
    assert(vs@.subrange(0, vs@.len() as int) =~= vs@);
    while i < vs.len()
        invariant
            i <= vs@.len(),
            forall|j: int| 0 <= j < vs@.len() ==> #[trigger] vs@[j] < 128,
            walk_fits(x as nat, vs@.subrange(i as int, vs@.len() as int)) == walk_fits(x0, vs@),
            x0 == start as nat,
        decreases vs@.len() - i,
    {
        let ghost rest = vs@.subrange(i as int, vs@.len() as int);
        assert(rest.drop_first() =~= vs@.subrange(i + 1, vs@.len() as int));
        let v = vs[i];
        let y: u128 = match 3u128.checked_mul(x) {
            Some(t) => t,
            None => 0,
        };
        if y == u128::MAX {
            proof {
                assert(rest.len() > 0);
                assert(rest[0] == v);
                assert(y == (if 3 * x <= u128::MAX { 3 * x } else { 0 }));
                assert(!walk_fits(x as nat, rest));
            }
            return false;
        }
        let t = y + 1;
        proof { vstd::bits::lemma_u128_shr_is_div(t, v as u128); }
        x = t >> (v as u128);
        i = i + 1;
    }
    assert(vs@.subrange(vs@.len() as int, vs@.len() as int) =~= Seq::<u32>::empty());
    true
}

/// Whether every start the formula gives for a suffix of `vs` walks within 128 bits (see
/// `suffixes_fit`).
pub fn suffixes_fit_check(vs: &[u32]) -> (r: bool)
    requires
        vs@.len() <= 80,
        forall|i: int| 0 <= i < vs@.len() ==> #[trigger] vs@[i] < 128,
    ensures
        r == suffixes_fit(vs@),
{
    let n_v = vs.len();
    let mut m: usize = 1;
    while m <= n_v
        invariant
            1 <= m <= n_v + 1,
            n_v == vs@.len(),
            n_v <= 80,
            forall|i: int| 0 <= i < vs@.len() ==> #[trigger] vs@[i] < 128,
            forall|mm: int| 1 <= mm < m ==> match #[trigger] inverse_value(vs@.subrange(vs@.len() - mm, vs@.len() as int)) {
                Some(n) => walk_fits(n, vs@.subrange(vs@.len() - mm, vs@.len() as int)),
                None => true,
            },
        decreases n_v + 1 - m,
    {
        let sub = &vs[n_v - m..n_v];
        let ghost gsub = vs@.subrange(n_v - m, n_v as int);
        assert(sub@ =~= gsub);
        match inverse_start(sub) {
            Some(n) => {
                if !walk_fits_check(n, sub) {
                    assert(!(match inverse_value(vs@.subrange(vs@.len() - m, vs@.len() as int)) {
                        Some(n) => walk_fits(n, vs@.subrange(vs@.len() - m, vs@.len() as int)),
                        None => true,
                    }));
                    return false;
                }
            },
            None => {},
        }
        m = m + 1;
    }
    true
}

/// Whether each odd value met by `v_run(x, limit)` is small enough for `3x + 1` in 128 bits
/// (see `v_run_fits`).
pub fn v_run_fits_check(start: u128, limit: usize) -> (r: bool)
    ensures
        r == v_run_fits(start as nat, limit as nat),
{
    let mut steps: usize = 0;
    let mut x = start;
    let ghost x0 = x as nat;
    while x > 1 && steps < limit
        invariant
            steps <= limit,
            v_run_fits(x as nat, (limit - steps) as nat) == v_run_fits(x0, limit as nat),
            x0 == start as nat,
        decreases 2 * (limit - steps) + (if x % 2 == 0 { 1int } else { 0int }),
    {
        if x % 2 == 1 {
            if x > ODD_LIMIT_128 {
                proof {
                    assert(limit - steps > 0);
                    assert(!v_run_fits(x as nat, (limit - steps) as nat));
                }
                return false;
            }
            let t = 3 * x + 1;
            let v = crate::collatz::trailing_zeros_u128(t);
            proof { vstd::bits::lemma_u128_shr_is_div(t, v as u128); }
            proof { lemma_tz_split(t as nat, 128); }
            x = t >> (v as u128);
            steps = steps + 1;
        } else {
            let z = crate::collatz::trailing_zeros_u128(x);
            proof {
                vstd::bits::lemma_u128_shr_is_div(x, z as u128);
                lemma_tz_split(x as nat, 128);
            }
            x = x >> (z as u128);
        }
    }
    true
}

/// The sum of the exponents.
pub fn vsum(vs: &[u32]) -> (r: u32)
    requires
        vs@.len() <= 80,
        forall|i: int| 0 <= i < vs@.len() ==> #[trigger] vs@[i] < 128,
    ensures
        r == prefix_sum(vs@, vs@.len() as int),
{
    let mut t: u32 = 0;
    let mut i: usize = 0;
    while i < vs.len()
        invariant
            i <= vs@.len(),
            vs@.len() <= 80,
            forall|j: int| 0 <= j < vs@.len() ==> #[trigger] vs@[j] < 128,
            t == prefix_sum(vs@, i as int),
            t <= 127 * i,
        decreases vs@.len() - i,
    {
        t = t + vs[i];
        i = i + 1;
    }
    t
}

/// `C` as the whole-sequence check sums it: a term whose power of two does not fit counts
/// as 0, and the sum stops, keeping what it has, at the first term or sum that does not fit.
pub open spec fn full_c(vs: Seq<u32>, j: int, acc: nat) -> nat
    decreases vs.len() - j,
{
    if j >= vs.len() { acc } else {
        let p = prefix_sum(vs, j);
        let t = if p < 128 { inv_term(vs, j) } else { 0 };
        if t > u128::MAX || acc + t > u128::MAX { acc } else { full_c(vs, j + 1, acc + t) }
    }
}

/// The start the whole-sequence check finds: `(2^V - C) / 3^k` with `C` from `full_c` and
/// `2^V` taken as 0 when it does not fit, when `2^V` exceeds `C` and `3^k` divides the
/// difference.
pub open spec fn full_value(vs: Seq<u32>) -> Option<nat> {
    let k = vs.len();
    let c = full_c(vs, 0, 0);
    let v = prefix_sum(vs, k as int);
    let p = if v < 128 { pow2(v) } else { 0 };
    if p > c && (p - c) % pow(3, k) == 0 { Some(((p - c) / pow(3, k)) as nat) } else { None }
}

/// The start the whole-sequence check finds (see `full_value`).
pub fn full_start(vs: &[u32]) -> (r: Option<u128>)
    requires
        vs@.len() <= 80,
        forall|i: int| 0 <= i < vs@.len() ==> #[trigger] vs@[i] < 128,
    ensures
        r matches Some(n) ==> full_value(vs@) == Some(n as nat),
        r is None ==> full_value(vs@) is None,
{
    let k = vs.len();
    let mut c: u128 = 0;
    let mut prefix: u32 = 0;
    let mut j: usize = 0;
    while j < k
        invariant
            j <= k,
            k == vs@.len(),
            k <= 80,
            forall|i: int| 0 <= i < vs@.len() ==> #[trigger] vs@[i] < 128,
            full_c(vs@, j as int, c as nat) == full_c(vs@, 0, 0),
            prefix == prefix_sum(vs@, j as int),
            prefix <= 127 * j,
        ensures
            c == full_c(vs@, 0, 0),
        decreases k - j,
    {
        let p2: u128 = match pow2_u128(prefix) {
            Some(p) => p,
            None => 0,
        };
        let p3 = pow3_u128((k - 1 - j) as u32);
        let term = match p3.checked_mul(p2) {
            Some(t) => t,
            None => { break; },
        };
        let sum = match c.checked_add(term) {
            Some(x) => x,
            None => { break; },
        };
        c = sum;
        prefix = prefix + vs[j];
        j = j + 1;
    }
    let total = vsum(vs);
    let p2v: u128 = match pow2_u128(total) {
        Some(p) => p,
        None => 0,
    };
    if p2v <= c {
        return None;
    }
    let p3k = pow3_u128(k as u32);
    proof { lemma_pow_positive(3, k as nat); }
    let num = p2v - c;
    if num % p3k != 0 {
        return None;
    }
    Some(num / p3k)
}

/// What the search for `n0` through the inverse formula finds.
pub struct InverseReport {
    /// The exponents of the odd steps of the target, at most `max_k` of them.
    pub v_seq: Vec<u32>,
    /// How many there are.
    pub k: usize,
    /// The suffixes the formula confirms: length, start and exponent sum.
    pub confirmed: Vec<(usize, u128, u32)>,
    /// The start the whole-sequence check finds, if any.
    pub full: Option<u128>,
    /// The sum of all the exponents.
    pub full_v: u32,
}

/// Runs the inverse formula on the odd steps of `target` (at most `max_k` of them): every
/// suffix of its exponents, and the whole sequence, whose start is `target` itself when
/// its walk ends at 1.
pub fn inverse_report(target: u64, max_k: usize) -> (r: InverseReport)
    requires
        v_run(target as nat, max_k as nat).len() <= 80,
        v_run_fits(target as nat, max_k as nat),
        suffixes_fit(v_run(target as nat, max_k as nat)),
    ensures
        r.v_seq@ == v_run(target as nat, max_k as nat),
        r.k == r.v_seq@.len(),
        r.confirmed@.len() == confirmed_upto(r.v_seq@, r.k as int).len(),
        forall|i: int| 0 <= i < r.confirmed@.len() ==> {
            let m = (#[trigger] r.confirmed@[i]).0 as int;
            let sub = r.v_seq@.subrange(r.k - m, r.k as int);
            &&& m == confirmed_upto(r.v_seq@, r.k as int)[i]
            &&& inverse_value(sub) == Some(r.confirmed@[i].1 as nat)
            &&& r.confirmed@[i].2 == prefix_sum(sub, m)
        },
        r.full matches Some(n) ==> full_value(r.v_seq@) == Some(n as nat),
        r.full is None ==> full_value(r.v_seq@) is None,
        r.full_v == prefix_sum(r.v_seq@, r.k as int),
{
    let (v_seq, k) = compute_v_sequence(target as u128, max_k);
    let confirmed = confirm_suffixes(v_seq.as_slice());
    let full = full_start(v_seq.as_slice());
    let full_v = vsum(v_seq.as_slice());
    InverseReport { v_seq, k, confirmed, full, full_v }
}

/// Walks the exponents `vs` from `x` as odd steps `x -> (3x + 1) / 2^v`; `None` when an even
/// number is met first.
pub open spec fn cycle_walk(x: nat, vs: Seq<u32>) -> Option<nat>
    decreases vs.len(),
{
    if vs.len() == 0 { Some(x) }
    else if x % 2 == 0 { None }
    else { cycle_walk((3 * x + 1) / pow2(vs[0] as nat), vs.drop_first()) }
}

/// Whether every `3x + 1` that `cycle_walk(x, vs)` takes fits in 128 bits.
pub open spec fn cycle_walk_fits(x: nat, vs: Seq<u32>) -> bool
    decreases vs.len(),
{
    vs.len() == 0 || x % 2 == 0 || (3 * x + 1 <= u128::MAX && cycle_walk_fits((3 * x + 1) / pow2(vs[0] as nat), vs.drop_first()))
}

/// The number a cycle with the exponents `vs` would start from, `C / (2^V - 3^k)`, when `C`
/// and `2^V` fit in 128 bits, `2^V > 3^k` and the division is exact.
pub open spec fn cycle_start(vs: Seq<u32>) -> Option<nat> {
    let k = vs.len();
    let c = inv_c(vs, k as int);
    let v = prefix_sum(vs, k as int);
    let p3 = pow(3, k);
    if c <= u128::MAX && v < 128 && pow2(v) > p3 && (c as int) % (pow2(v) - p3) == 0 {
        Some(((c as int) / (pow2(v) - p3)) as nat)
    } else {
        None
    }
}

/// The candidate the cycle search keeps for the exponents `vs`: a start other than 0 and 1,
/// odd, from which walking the exponents meets only odd numbers and ends at 1.
pub open spec fn cycle_candidate(vs: Seq<u32>) -> Option<nat> {
    match cycle_start(vs) {
        Some(n0) => if n0 != 0 && n0 != 1 && n0 % 2 == 1 && cycle_walk(n0, vs) == Some(1nat) { Some(n0) } else { None },
        None => None,
    }
}

/// Checks the exponents `v_seq` (`k` of them) for a cycle; a candidate found is appended to
/// `n_targets` and sets `found`.
pub fn cycle_from_v_seq(k: usize, v_seq: &[u32], n_targets: &mut Vec<u128>, found: &mut bool)
    requires
        k == v_seq@.len(),
        k <= 80,
        forall|i: int| 0 <= i < v_seq@.len() ==> #[trigger] v_seq@[i] < 128,
        cycle_start(v_seq@) matches Some(n0) ==> cycle_walk_fits(n0, v_seq@),
    ensures
        cycle_candidate(v_seq@) matches Some(n0) ==> final(n_targets)@ == old(n_targets)@.push(n0 as u128) && *final(found),
        cycle_candidate(v_seq@) is None ==> final(n_targets)@ == old(n_targets)@ && *final(found) == *old(found),
{
    let mut c: u128 = 0;
    let mut prefix: u32 = 0;
    let mut j: usize = 0;
    while j < k
        invariant
            j <= k,
            k == v_seq@.len(),
            k <= 80,
            forall|i: int| 0 <= i < v_seq@.len() ==> #[trigger] v_seq@[i] < 128,
            c == inv_c(v_seq@, j as int),
            prefix == prefix_sum(v_seq@, j as int),
            prefix <= 127 * j,
        decreases k - j,
    {
        proof {
            lemma_term_bound(v_seq@, j as int);
            lemma_inv_c_grows(v_seq@, j as int + 1, k as int);
        }
        let p2 = match pow2_u128(prefix) {
            Some(p) => p,
            None => { return; },
        };
        let p3 = pow3_u128((k - 1 - j) as u32);
        let term = match p3.checked_mul(p2) {
            Some(t) => t,
            None => { return; },
        };
        c = match c.checked_add(term) {
            Some(x) => x,
            None => { return; },
        };
        prefix = prefix + v_seq[j];
        j = j + 1;
    }
    let p3k = pow3_u128(k as u32);
    let p2v = match pow2_u128(prefix) {
        Some(p) => p,
        None => { return; },
    };
    if p2v <= p3k {
        return;
    }
    let denom = p2v - p3k;
    if c % denom != 0 {
        return;
    }
    let n0 = c / denom;
    assert(cycle_start(v_seq@) == Some(n0 as nat));
    if n0 == 0 || n0 % 2 == 0 || n0 == 1 {
        return;
    }
    let mut x = n0;
    let mut i: usize = 0;
    let mut ok = true;
    assert(v_seq@.subrange(0, k as int) =~= v_seq@);
    while i < k && ok
        invariant
            i <= k,
            k == v_seq@.len(),
            forall|t: int| 0 <= t < v_seq@.len() ==> #[trigger] v_seq@[t] < 128,
            ok ==> cycle_walk(x as nat, v_seq@.subrange(i as int, k as int)) == cycle_walk(n0 as nat, v_seq@),
            ok ==> cycle_walk_fits(x as nat, v_seq@.subrange(i as int, k as int)),
            !ok ==> cycle_walk(n0 as nat, v_seq@) is None,
        decreases k - i + (if ok { 1int } else { 0int }),
    {
        let ghost rest = v_seq@.subrange(i as int, k as int);
        assert(rest.drop_first() =~= v_seq@.subrange(i + 1, k as int));
        if x % 2 == 0 {
            ok = false;
        } else {
            let t = 3 * x + 1;
            proof { vstd::bits::lemma_u128_shr_is_div(t, v_seq@[i as int] as u128); }
            x = t >> (v_seq[i] as u128);
            i = i + 1;
        }
    }
    if ok {
        assert(v_seq@.subrange(k as int, k as int) =~= Seq::<u32>::empty());
    }
    if ok && x == 1 {
        *found = true;
        n_targets.push(n0);
    }
}

/// The exponent sequences that extend `prefix` by `left` exponents from `{1, 2, 3}`, in
/// lexicographic order.
pub open spec fn completions(prefix: Seq<u32>, left: nat) -> Seq<Seq<u32>>
    decreases left,
{
    if left == 0 { seq![prefix] } else {
        completions(prefix.push(1), (left - 1) as nat) + completions(prefix.push(2), (left - 1) as nat)
            + completions(prefix.push(3), (left - 1) as nat)
    }
}

/// The cycle candidates of a list of exponent sequences, in order.
pub open spec fn candidates(list: Seq<Seq<u32>>) -> Seq<u128>
    decreases list.len(),
{
    if list.len() == 0 { Seq::empty() } else {
        candidates(list.drop_last()) + match cycle_candidate(list.last()) {
            Some(n) => seq![n as u128],
            None => Seq::empty(),
        }
    }
}

proof fn lemma_candidates_concat(a: Seq<Seq<u32>>, b: Seq<Seq<u32>>)
    ensures
        candidates(a + b) == candidates(a) + candidates(b),
    decreases b.len(),
{
    if b.len() == 0 {
        assert(a + b =~= a);
        assert(candidates(a) + candidates(b) =~= candidates(a));
    } else {
        lemma_candidates_concat(a, b.drop_last());
        assert((a + b).drop_last() =~= a + b.drop_last());
        assert((a + b).last() == b.last());
        let tail = match cycle_candidate(b.last()) { Some(n) => seq![n as u128], None => Seq::<u128>::empty() };
        assert(candidates(a) + candidates(b.drop_last()) + tail =~= candidates(a) + (candidates(b.drop_last()) + tail));
    }
}

proof fn lemma_small_c(vs: Seq<u32>, j: int)
    requires
        vs.len() <= 8,
        0 <= j <= vs.len(),
        forall|i: int| 0 <= i < vs.len() ==> 1 <= #[trigger] vs[i] <= 3,
    ensures
        inv_c(vs, j) <= j * 0x2_0000_0000,
        prefix_sum(vs, j) <= 3 * j,
    decreases j,
{
    if j > 0 {
        lemma_small_c(vs, j - 1);
        let e = (vs.len() - 1 - (j - 1)) as nat;
        let p = prefix_sum(vs, j - 1);
        lemma_pow_increases(3, e, 7);
        lemma_pow_positive(3, e);
        lemma_pow3_small();
        if p < 21 {
            lemma_pow2_strictly_increases(p, 21);
        }
        lemma_pow2_pos(p);
        assert(pow2(21) == 0x20_0000) by { vstd::arithmetic::power2::lemma2_to64(); }
        let a = pow(3, e);
        let b = pow2(p) as int;
        assert(a * b <= 2187 * 0x20_0000) by (nonlinear_arith)
            requires 1 <= a <= 2187, 1 <= b <= 0x20_0000;
    }
}

proof fn lemma_pow3_small()
    ensures
        pow(3, 7) == 2187,
{
    reveal(pow);
    assert(pow(3, 1) == 3) by { reveal_with_fuel(pow, 2); }
    lemma_pow_adds(3, 1, 1);
    assert(pow(3, 2) == 9);
    lemma_pow_adds(3, 2, 2);
    assert(pow(3, 4) == 81);
    lemma_pow_adds(3, 4, 1);
    assert(pow(3, 5) == 243);
    lemma_pow_adds(3, 5, 2);
}

proof fn lemma_walk_fits(x: nat, b: nat, vs: Seq<u32>)
    requires
        x <= b,
        3 * b * pow2(vs.len()) + 1 <= u128::MAX,
        forall|i: int| 0 <= i < vs.len() ==> 1 <= #[trigger] vs[i],
    ensures
        cycle_walk_fits(x, vs),
    decreases vs.len(),
{
    if vs.len() > 0 && x % 2 == 1 {
        let n = vs.len();
        lemma_pow2_unfold(n);
        lemma_pow2_pos((n - 1) as nat);
        assert(3 * b * pow2(n) == 3 * (2 * b) * pow2((n - 1) as nat)) by (nonlinear_arith)
            requires pow2(n) == 2 * pow2((n - 1) as nat);
        assert(3 * b <= 3 * b * pow2(n)) by (nonlinear_arith)
            requires pow2(n) >= 1;
        let v = vs[0] as nat;
        lemma_pow2_pos(v);
        if v > 1 {
            lemma_pow2_strictly_increases(1, v);
        }
        assert(pow2(1) == 2) by { vstd::arithmetic::power2::lemma2_to64(); }
        let t = 3 * x + 1;
        let q = pow2(v);
        assert(t / q <= 2 * b) by (nonlinear_arith)
            requires q >= 2, t == 3 * x + 1, x <= b, x >= 1;
        assert forall|i: int| 0 <= i < vs.drop_first().len() implies 1 <= #[trigger] vs.drop_first()[i] by {
            assert(vs.drop_first()[i] == vs[i + 1]);
        }
        lemma_walk_fits(t / q, 2 * b, vs.drop_first());
    }
}

/// For up to 8 exponents from `{1, 2, 3}`, the walk from a cycle start stays in 128 bits.
proof fn lemma_small_cycle_fits(vs: Seq<u32>)
    requires
        vs.len() <= 8,
        forall|i: int| 0 <= i < vs.len() ==> 1 <= #[trigger] vs[i] <= 3,
    ensures
        cycle_start(vs) matches Some(n0) ==> cycle_walk_fits(n0, vs),
{
    lemma_small_c(vs, vs.len() as int);
    if let Some(n0) = cycle_start(vs) {
        let c = inv_c(vs, vs.len() as int);
        let d = pow2(prefix_sum(vs, vs.len() as int)) - pow(3, vs.len());
        assert(n0 <= c) by (nonlinear_arith)
            requires n0 == (c as int) / d, d >= 1, c >= 0;
        let n = vs.len();
        if n < 8 {
            lemma_pow2_strictly_increases(n, 8);
        }
        assert(pow2(8) == 256) by { vstd::arithmetic::power2::lemma2_to64(); }
        lemma_pow2_pos(n);
        let b = 8 * 0x2_0000_0000nat;
        assert(3 * b * pow2(n) + 1 <= u128::MAX) by (nonlinear_arith)
            requires b == 8 * 0x2_0000_0000nat, pow2(n) <= 256;
        lemma_walk_fits(n0, b, vs);
    }
}

/// The cycle search over every way to fill positions `pos ..` of `v_seq` (`k` exponents)
/// with exponents from `{1, 2, 3}`, in lexicographic order, for `k` up to 8; longer
/// sequences are not searched. Each candidate is appended to `n_targets` and sets `found`.
pub fn find_cycles_k(k: usize, pos: usize, v_seq: &[u32], n_targets: &mut Vec<u128>, found: &mut bool)
    requires
        v_seq@.len() == k,
        pos <= k,
        forall|i: int| 0 <= i < pos ==> 1 <= #[trigger] v_seq@[i] <= 3,
    ensures
        k > 8 ==> final(n_targets)@ == old(n_targets)@ && *final(found) == *old(found),
        k <= 8 ==> {
            let c = candidates(completions(v_seq@.subrange(0, pos as int), (k - pos) as nat));
            &&& final(n_targets)@ == old(n_targets)@ + c
            &&& *final(found) == (*old(found) || c.len() > 0)
        },
    decreases k - pos,
{
    if k > 8 {
        return;
    }
    let ghost pre = v_seq@.subrange(0, pos as int);
    if pos == k {
        assert(pre =~= v_seq@);
        proof { lemma_small_cycle_fits(v_seq@); }
        cycle_from_v_seq(k, v_seq, n_targets, found);
        proof {
            let list = seq![v_seq@];
            assert(list.drop_last() =~= Seq::<Seq<u32>>::empty());
            assert(completions(pre, 0) == list);
            reveal_with_fuel(candidates, 2);
        }
        return;
    }
    let ghost start = n_targets@;
    let ghost found0 = *found;
    let mut next1 = copy_exponents(v_seq);
    next1.set(pos, 1);
    assert(next1@.subrange(0, pos + 1) =~= pre.push(1));
    find_cycles_k(k, pos + 1, next1.as_slice(), n_targets, found);
    let mut next2 = copy_exponents(v_seq);
    next2.set(pos, 2);
    assert(next2@.subrange(0, pos + 1) =~= pre.push(2));
    find_cycles_k(k, pos + 1, next2.as_slice(), n_targets, found);
    let mut next3 = copy_exponents(v_seq);
    next3.set(pos, 3);
    assert(next3@.subrange(0, pos + 1) =~= pre.push(3));
    find_cycles_k(k, pos + 1, next3.as_slice(), n_targets, found);
    proof {
        let left = (k - pos - 1) as nat;
        let c1 = completions(pre.push(1), left);
        let c2 = completions(pre.push(2), left);
        let c3 = completions(pre.push(3), left);
        assert(completions(pre, (k - pos) as nat) == c1 + c2 + c3);
        lemma_candidates_concat(c1 + c2, c3);
        lemma_candidates_concat(c1, c2);
        assert(n_targets@ =~= start + candidates(c1 + c2 + c3));
    }
}

/// A copy of the exponents.
fn copy_exponents(v: &[u32]) -> (r: Vec<u32>)
    ensures
        r@ == v@,
{
    let mut r: Vec<u32> = Vec::new();
    let mut i: usize = 0;
    while i < v.len()
        invariant
            i <= v@.len(),
            r@ == v@.subrange(0, i as int),
        decreases v@.len() - i,
    {
        r.push(v[i]);
        assert(r@ =~= v@.subrange(0, i + 1));
        i = i + 1;
    }
    assert(v@.subrange(0, v@.len() as int) =~= v@);
    r
}

proof fn lemma_first_repeat_pos(n: nat, i: nat, w: nat)
    requires
        1 <= i,
        1 <= w,
    ensures
        first_repeat(n, i, w) >= 1,
    decreases w - i,
{
    if i < w && crate::collatz::bit(n, i) != crate::collatz::bit(n, (i - 1) as nat) {
        lemma_first_repeat_pos(n, i + 1, w);
    }
}

proof fn lemma_pow2_le_pow3(e: nat)
    ensures
        pow2(e) <= pow(3, e),
    decreases e,
{
    if e == 0 {
        assert(pow2(0) == 1) by { vstd::arithmetic::power2::lemma2_to64(); }
        assert(pow(3, 0) == 1) by { reveal(pow); }
    } else {
        lemma_pow2_le_pow3((e - 1) as nat);
        lemma_pow2_unfold(e);
        assert(pow(3, e) == 3 * pow(3, (e - 1) as nat)) by { reveal(pow); }
    }
}

/// A start of at most 64 bits walks up to 80 odd steps whose exponents agree with its bits
/// without leaving the range where `3x + 1` fits in 128 bits.
proof fn lemma_walk_in_range(x: nat, vs: Seq<u32>, last: u32, j: nat, n0: nat)
    requires
        pow2(j) * (x + 1) <= pow(3, j) * (n0 + 1),
        j + vs.len() + 1 <= 80,
        n0 <= u64::MAX,
        last < 128,
        forall|i: int| 0 <= i < vs.len() ==> #[trigger] vs[i] < 128,
    ensures
        consistent_fits(x, vs, last),
    decreases vs.len(),
{
    lemma_pow2_le_pow3((80 - j) as nat);
    vstd::arithmetic::power2::lemma_pow2_adds((80 - j) as nat, j);
    lemma_pow_adds(3, (80 - j) as nat, j);
    lemma_pow3_80();
    assert(pow2(80) == 0x1_0000_0000_0000_0000_0000) by { vstd::arithmetic::power2::lemma2_to64(); lemma_pow2_adds_64_16(); }
    lemma_pow2_pos(j);
    lemma_pow_positive(3, j);
    let a = pow2((80 - j) as nat) as int;
    let b = pow(3, (80 - j) as nat);
    let p2 = pow2(j) as int;
    let p3 = pow(3, j);
    assert(pow2(80) * (x + 1) <= pow(3, 80) * (n0 + 1)) by (nonlinear_arith)
        requires p2 * (x + 1) <= p3 * (n0 + 1), a <= b, a >= 0, p3 >= 1, pow2(80) == a * p2, pow(3, 80) == b * p3,
            x >= 0, n0 >= 0;
    assert(x <= ODD_LIMIT_128) by (nonlinear_arith)
        requires 0x1_0000_0000_0000_0000_0000 * (x + 1) <= 147808829414345923316083210206383297601 * (n0 + 1),
            n0 <= 0xffff_ffff_ffff_ffff;
    if vs.len() > 0 && x % 2 == 1 && first_repeat(x, 1, 128) == vs[0] {
        let v = vs[0] as nat;
        lemma_first_repeat_pos(x, 1, 128);
        lemma_pow2_pos(v);
        if v > 1 {
            lemma_pow2_strictly_increases(1, v);
        }
        assert(pow2(1) == 2) by { vstd::arithmetic::power2::lemma2_to64(); }
        let q = pow2(v) as int;
        let y = (3 * x + 1) / pow2(v);
        assert(2 * (y + 1) <= 3 * (x + 1)) by (nonlinear_arith)
            requires q >= 2, y == ((3 * x + 1) as int) / q, x >= 0;
        lemma_pow2_unfold(j + 1);
        assert(pow(3, j + 1) == 3 * pow(3, j)) by { reveal(pow); }
        assert(pow2(j + 1) * (y + 1) <= pow(3, j + 1) * (n0 + 1)) by (nonlinear_arith)
            requires 2 * (y + 1) <= 3 * (x + 1), p2 * (x + 1) <= p3 * (n0 + 1), pow2(j + 1) == 2 * p2,
                pow(3, j + 1) == 3 * p3, p2 >= 1, y >= 0;
        assert forall|i: int| 0 <= i < vs.drop_first().len() implies #[trigger] vs.drop_first()[i] < 128 by {
            assert(vs.drop_first()[i] == vs[i + 1]);
        }
        lemma_walk_in_range(y, vs.drop_first(), last, j + 1, n0);
    }
}

proof fn lemma_pow2_adds_64_16()
    ensures
        pow2(80) == pow2(64) * pow2(16),
{
    vstd::arithmetic::power2::lemma_pow2_adds(64, 16);
}

/// The exponents the tree walk tries at position `pos` of `k`: even ones up to 14 last
/// (so that `(2^v - 1) / 3` can be whole), 1 to 7 just before, 1 to 5 elsewhere.
pub open spec fn tree_options(k: nat, pos: nat) -> Seq<u32> {
    if pos + 1 == k { seq![2u32, 4, 6, 8, 10, 12, 14] }
    else if pos + 2 == k { seq![1u32, 2, 3, 4, 5, 6, 7] }
    else { seq![1u32, 2, 3, 4, 5] }
}

/// The term that position `pos` of `k` adds to `C`: `3^(k-1-pos) 2^cv`.
pub open spec fn tree_term(k: nat, pos: nat, cv: nat) -> int {
    pow(3, (k - 1 - pos) as nat) * pow2(cv)
}

/// The start the tree walk finds for the exponents `prefix` then `v` in the last position,
/// `c` and `cv` being `C` and the exponent sum before it: kept when the sums fit in 128
/// bits, the division by `3^k` is exact, the start is odd, at most `limit`, and its odd
/// steps have exactly these exponents on the way to 1.
pub open spec fn tree_start(k: nat, prefix: Seq<u32>, c: nat, cv: nat, v: u32, limit: nat) -> Option<u64> {
    let nc = c + tree_term(k, (k - 1) as nat, cv);
    let nv = (cv + v) as nat;
    if nv >= 128 { None } else {
        let pv = pow2(nv);
        if pv <= nc { None } else {
            let num = pv - nc;
            if num % pow(3, k) != 0 { None } else {
                let n0 = num / pow(3, k);
                if n0 > limit || n0 % 2 == 0 || n0 == 0 || !consistent_from(n0 as nat, prefix, v) { None }
                else { Some(n0 as u64) }
            }
        }
    }
}

/// The starts the tree walk finds, in its order, from position `pos` of `k` with exponents
/// `prefix` so far and `C`, exponent sum `c`, `cv`.
pub open spec fn tree_walk(k: nat, pos: nat, prefix: Seq<u32>, c: nat, cv: nat, limit: nat) -> Seq<u64>
    decreases k - pos, 1nat, 0nat,
{
    if pos >= k { Seq::empty() } else { tree_walk_opts(k, pos, prefix, c, cv, limit, tree_options(k, pos).len()) }
}

/// The starts found through the first `m` options at position `pos`.
pub open spec fn tree_walk_opts(k: nat, pos: nat, prefix: Seq<u32>, c: nat, cv: nat, limit: nat, m: nat) -> Seq<u64>
    decreases k - pos, 0nat, m,
{
    if pos >= k || m == 0 || m > tree_options(k, pos).len() { Seq::empty() } else {
        let rest = tree_walk_opts(k, pos, prefix, c, cv, limit, (m - 1) as nat);
        let v = tree_options(k, pos)[m - 1];
        let t = tree_term(k, pos, cv);
        if cv >= 128 || t > u128::MAX || c + t > u128::MAX { rest }
        else if pos + 1 == k {
            rest + match tree_start(k, prefix, c, cv, v, limit) { Some(n) => seq![n], None => Seq::empty() }
        } else {
            rest + tree_walk(k, pos + 1, prefix.push(v), (c + t) as nat, (cv + v) as nat, limit)
        }
    }
}

/// Marks `n` in the coverage bitmap when its word exists and it is not marked yet, counting
/// it and keeping the largest.
pub open spec fn mark(s: (Seq<u64>, u64, u64), n: u64) -> (Seq<u64>, u64, u64) {
    let idx = n / 64;
    let b = n % 64;
    if idx < s.0.len() && (s.0[idx as int] >> b) & 1 == 0 {
        (s.0.update(idx as int, s.0[idx as int] | (1u64 << b)), if s.1 == u64::MAX { 0u64 } else { (s.1 + 1) as u64 },
            if n > s.2 { n } else { s.2 })
    } else {
        s
    }
}

/// Marks every number of `ns`, in order.
pub open spec fn mark_all(s: (Seq<u64>, u64, u64), ns: Seq<u64>) -> (Seq<u64>, u64, u64)
    decreases ns.len(),
{
    if ns.len() == 0 { s } else { mark(mark_all(s, ns.drop_last()), ns.last()) }
}

proof fn lemma_mark_all_concat(s: (Seq<u64>, u64, u64), a: Seq<u64>, b: Seq<u64>)
    ensures
        mark_all(s, a + b) == mark_all(mark_all(s, a), b),
    decreases b.len(),
{
    if b.len() == 0 {
        assert(a + b =~= a);
    } else {
        lemma_mark_all_concat(s, a, b.drop_last());
        assert((a + b).drop_last() =~= a + b.drop_last());
        assert((a + b).last() == b.last());
    }
}

/// The first `n` exponents.
fn copy_prefix(v: &[u32], n: usize) -> (r: Vec<u32>)
    requires
        n <= v@.len(),
    ensures
        r@ == v@.take(n as int),
{
    let mut r: Vec<u32> = Vec::new();
    let mut i: usize = 0;
    while i < n
        invariant
            n <= v@.len(),
            i <= n,
            r@ == v@.take(i as int),
        decreases n - i,
    {
        r.push(v[i]);
        assert(r@ =~= v@.take(i + 1));
        i = i + 1;
    }
    r
}

/// The inverse-tree walk: every exponent sequence of length `k` (see `tree_options`)
/// extending `v_seq[..pos]`, with `C` and exponent sum `current_c`, `current_v` so far;
/// every start found (see `tree_start`) is marked in `covered`, counted in `total_n` and
/// kept in `max_n_found` when it is the largest (see `mark_all`).
pub fn enumerate_tree(k: usize, pos: usize, v_seq: &mut [u32], current_c: u128, current_v: u32,
    covered: &mut Vec<u64>, limit: u64, total_n: &mut u64, max_n_found: &mut u64)
    requires
        1 <= k <= 80,
        pos < k,
        old(v_seq)@.len() >= k,
        current_v <= 14 * pos,
        forall|i: int| 0 <= i < pos ==> #[trigger] old(v_seq)@[i] <= 14,
    ensures
        final(v_seq)@.len() == old(v_seq)@.len(),
        final(v_seq)@.take(pos as int) == old(v_seq)@.take(pos as int),
        forall|i: int| k - 1 <= i < old(v_seq)@.len() ==> #[trigger] final(v_seq)@[i] == old(v_seq)@[i],
        pos + 1 == k ==> final(v_seq)@ == old(v_seq)@,
        (final(covered)@, *final(total_n), *final(max_n_found)) == mark_all((old(covered)@, *old(total_n), *old(max_n_found)),
            tree_walk(k as nat, pos as nat, old(v_seq)@.take(pos as int), current_c as nat, current_v as nat, limit as nat)),
    decreases k - pos,
{
    let ghost pre = v_seq@.take(pos as int);
    let ghost start = (covered@, *total_n, *max_n_found);
    let is_last = pos == k - 1;
    let opts: Vec<u32> = if is_last {
        vec![2, 4, 6, 8, 10, 12, 14]
    } else if pos + 2 == k {
        vec![1, 2, 3, 4, 5, 6, 7]
    } else {
        vec![1, 2, 3, 4, 5]
    };
    assert(opts@ =~= tree_options(k as nat, pos as nat));
    let mut m: usize = 0;
    while m < opts.len()
        invariant
            1 <= k <= 80,
            pos < k,
            is_last == (pos == k - 1),
            opts@ == tree_options(k as nat, pos as nat),
            v_seq@.len() == old(v_seq)@.len(),
            old(v_seq)@.len() >= k,
            v_seq@.take(pos as int) == pre,
            pre == old(v_seq)@.take(pos as int),
            forall|i: int| k - 1 <= i < old(v_seq)@.len() ==> #[trigger] v_seq@[i] == old(v_seq)@[i],
            is_last ==> v_seq@ == old(v_seq)@,
            current_v <= 14 * pos,
            forall|i: int| 0 <= i < pos ==> #[trigger] pre[i] <= 14,
            m <= opts@.len(),
            (covered@, *total_n, *max_n_found) == mark_all(start,
                tree_walk_opts(k as nat, pos as nat, pre, current_c as nat, current_v as nat, limit as nat, m as nat)),
        decreases opts@.len() - m,
    {
        let v = opts[m];
        let ghost before = tree_walk_opts(k as nat, pos as nat, pre, current_c as nat, current_v as nat, limit as nat, m as nat);
        let ghost here = tree_walk_opts(k as nat, pos as nat, pre, current_c as nat, current_v as nat, limit as nat, (m + 1) as nat);
        let p3 = pow3_u128((k - 1 - pos) as u32);
        let p2 = match pow2_u128(current_v) {
            Some(p) => p,
            None => {
                assert(here == before);
                m = m + 1;
                continue;
            },
        };
        let term = match p3.checked_mul(p2) {
            Some(t) => t,
            None => {
                assert(here == before);
                m = m + 1;
                continue;
            },
        };
        let new_c = match current_c.checked_add(term) {
            Some(c) => c,
            None => {
                assert(here == before);
                m = m + 1;
                continue;
            },
        };
        let new_v = current_v + v;
        if is_last {
            let ghost found = tree_start(k as nat, pre, current_c as nat, current_v as nat, v, limit as nat);
            assert(here == before + match found { Some(n) => seq![n], None => Seq::<u64>::empty() });
            let mut n0_found: Option<u64> = None;
            match pow2_u128(new_v) {
                Some(pv) => {
                    if pv > new_c {
                        let p3k = pow3_u128(k as u32);
                        proof { lemma_pow_positive(3, k as nat); }
                        let num = pv - new_c;
                        if num % p3k == 0 {
                            let n0 = num / p3k;
                            if n0 <= limit as u128 && n0 % 2 == 1 {
                                let prefix = copy_prefix(v_seq, pos);
                                assert(prefix@ == pre);
                                proof {
                                    assert(pow2(0) == 1) by { vstd::arithmetic::power2::lemma2_to64(); }
                                    assert(pow(3, 0) == 1) by { reveal(pow); }
                                    assert forall|i: int| 0 <= i < prefix@.len() implies #[trigger] prefix@[i] < 128 by {
                                        assert(pre[i] <= 14);
                                    }
                                    lemma_walk_in_range(n0 as nat, prefix@, v, 0, n0 as nat);
                                }
                                if verify_n0_consistency(n0, k, prefix.as_slice(), v) {
                                    n0_found = Some(n0 as u64);
                                }
                            }
                        }
                    }
                },
                None => {},
            }
            assert(n0_found == found);
            if let Some(n) = n0_found {
                let ghost s0 = (covered@, *total_n, *max_n_found);
                assert(before.push(n).drop_last() =~= before);
                assert(mark_all(start, before.push(n)) == mark(s0, n));
                let idx64 = n / 64;
                let bit = n % 64;
                if (idx64 as u128) < (covered.len() as u128) {
                    let idx = idx64 as usize;
                    if (covered[idx] >> bit) & 1 == 0 {
                        let w = covered[idx] | (1u64 << bit);
                        covered.set(idx, w);
                        *total_n = total_n.wrapping_add(1);
                        if n > *max_n_found {
                            *max_n_found = n;
                        }
                        assert(covered@ == s0.0.update(idx as int, s0.0[idx as int] | (1u64 << bit)));
                    }
                }
                assert(here == before.push(n));
                assert((covered@, *total_n, *max_n_found) == mark(s0, n));
            } else {
                assert(here =~= before);
            }
        } else {
            v_seq[pos] = v;
            assert(v_seq@.take(pos + 1) =~= pre.push(v));
            let ghost child = tree_walk((k as nat), (pos + 1) as nat, pre.push(v), new_c as nat, new_v as nat, limit as nat);
            assert(here == before + child);
            proof {
                lemma_mark_all_concat(start, before, child);
                assert forall|i: int| 0 <= i < pos + 1 implies #[trigger] v_seq@[i] <= 14 by {
                    if i < pos { assert(v_seq@[i] == v_seq@.take(pos as int)[i]); }
                }
            }
            enumerate_tree(k, pos + 1, v_seq, new_c, new_v, covered, limit, total_n, max_n_found);
            assert(v_seq@.take(pos as int) =~= v_seq@.take(pos + 1).take(pos as int));
        }
        m = m + 1;
    }
    assert(opts@.len() == tree_options(k as nat, pos as nat).len());
    assert(is_last ==> v_seq@ =~= old(v_seq)@);
}

/// Whether odd `n` has a word in the bitmap and is not marked there.
pub open spec fn is_gap(words: Seq<u64>, n: u64) -> bool {
    n / 64 < words.len() && (words[(n / 64) as int] >> (n % 64)) & 1 == 0
}

/// The odd numbers in `1 ..= m` that are gaps of the bitmap, in increasing order.
pub open spec fn gaps_upto(words: Seq<u64>, m: nat) -> Seq<u64>
    decreases m,
{
    if m == 0 { Seq::empty() } else {
        let rest = gaps_upto(words, (m - 1) as nat);
        if m % 2 == 1 && m <= u64::MAX && is_gap(words, m as u64) { rest.push(m as u64) } else { rest }
    }
}

/// The gaps of the coverage bitmap among the odd numbers up to `limit`: the first one (0 if
/// none) and the first twenty.
pub fn coverage_gaps(covered: &Vec<u64>, limit: u64) -> (r: (u64, Vec<u64>))
    requires
        limit < u64::MAX,
    ensures
        r.0 == (if gaps_upto(covered@, limit as nat).len() > 0 { gaps_upto(covered@, limit as nat)[0] } else { 0 }),
        r.1@ == gaps_upto(covered@, limit as nat).take(
            if gaps_upto(covered@, limit as nat).len() < 20 { gaps_upto(covered@, limit as nat).len() as int } else { 20 }),
{
    let mut first: u64 = 0;
    let mut gaps: Vec<u64> = Vec::new();
    let mut count: u64 = 0;
    let mut n: u64 = 1;
    assert(gaps_upto(covered@, 0) =~= Seq::<u64>::empty());
    while n <= limit
        invariant
            1 <= n <= limit + 1,
            limit < u64::MAX,
            count == gaps_upto(covered@, (n - 1) as nat).len(),
            first == (if count > 0 { gaps_upto(covered@, (n - 1) as nat)[0] } else { 0 }),
            gaps@ == gaps_upto(covered@, (n - 1) as nat).take(if count < 20 { count as int } else { 20 }),
            count <= n,
        decreases limit + 1 - n,
    {
        let ghost before = gaps_upto(covered@, (n - 1) as nat);
        let idx64 = n / 64;
        let bit = n % 64;
        if n % 2 == 1 && (idx64 as u128) < (covered.len() as u128) && (covered[idx64 as usize] >> bit) & 1 == 0 {
            assert(gaps_upto(covered@, n as nat) == before.push(n));
            if count == 0 {
                first = n;
            }
            if count < 20 {
                gaps.push(n);
                assert(gaps@ =~= before.push(n).take(count + 1));
            } else {
                assert(before.push(n).take(20) =~= before.take(20));
            }
            count = count + 1;
        } else {
            assert(gaps_upto(covered@, n as nat) == before);
        }
        n = n + 1;
    }
    (first, gaps)
}

} // verus!
