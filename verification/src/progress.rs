//! A measure of how far the search has come. Each trail position counts with a
//! weight that falls with its decision level, by a factor larger than the
//! number of positions that a level above can hold. Propagating or deciding
//! raises the measure, and so does learning: going back to level `j` and
//! setting one literal there outweighs every position removed above `j`. The
//! measure is bounded, so the number of conflicts of one search is too.
use vstd::prelude::*;
use vstd::arithmetic::power::pow;
use vstd::arithmetic::power::lemma_pow_positive;
use vstd::arithmetic::power::lemma_pow_increases;
use vstd::arithmetic::power::lemma_pow_adds;
use vstd::arithmetic::power::lemma_pow1;
use crate::solver::count_le;

verus! {

/// The weight of a trail position at decision level `lvl`, among `nv` variables:
/// `(nv + 2)` to the power `nv - lvl`.
pub open spec fn level_weight(nv: nat, lvl: int) -> int {
    pow((nv + 2) as int, if 0 <= lvl <= nv { (nv - lvl) as nat } else { 0 })
}

/// The measure of the trail positions from `s` up to `n`, the level of a
/// position `p` being `count_le(lim, p)`.
pub open spec fn progress(lim: Seq<usize>, s: int, n: int, nv: nat) -> int
    decreases n - s,
{
    if n <= s {
        0
    } else {
        progress(lim, s, n - 1, nv) + level_weight(nv, count_le(lim, n - 1) as int)
    }
}

/// A bound on the number of conflicts of one search among `nv` variables.
pub open spec fn search_bound(nv: nat) -> int {
    nv * pow((nv + 2) as int, nv)
}

/// Every weight is at least 1, and a weight does not grow with the level.
pub proof fn lemma_weight_facts(nv: nat, l1: int, l2: int)
    requires
        0 <= l1 <= l2 <= nv,
    ensures
        level_weight(nv, l1) >= 1,
        level_weight(nv, l2) >= 1,
        level_weight(nv, l2) <= level_weight(nv, l1),
        level_weight(nv, l1) <= pow((nv + 2) as int, nv),
{
    lemma_pow_positive((nv + 2) as int, (nv - l1) as nat);
    lemma_pow_positive((nv + 2) as int, (nv - l2) as nat);
    lemma_pow_increases((nv + 2) as nat, (nv - l2) as nat, (nv - l1) as nat);
    lemma_pow_increases((nv + 2) as nat, (nv - l1) as nat, nv);
}

/// Every weight, at any level, is at least 1.
pub proof fn lemma_weight_pos(nv: nat, l: int)
    ensures
        level_weight(nv, l) >= 1,
{
    lemma_pow_positive((nv + 2) as int, if 0 <= l <= nv { (nv - l) as nat } else { 0 });
}

/// More positions under the same levels measure at least as much.
pub proof fn lemma_progress_grow(lim: Seq<usize>, s: int, n1: int, n2: int, nv: nat)
    requires
        s <= n1 <= n2,
    ensures
        progress(lim, s, n1, nv) <= progress(lim, s, n2, nv),
    decreases n2 - n1,
{
    if n2 > n1 {
        lemma_progress_grow(lim, s, n1, n2 - 1, nv);
        lemma_weight_pos(nv, count_le(lim, n2 - 1) as int);
    }
}

/// One level down weighs `nv + 2` times as much.
pub proof fn lemma_weight_step(nv: nat, j: int)
    requires
        0 <= j < nv,
    ensures
        level_weight(nv, j) == (nv + 2) * level_weight(nv, j + 1),
{
    let b = (nv + 2) as int;
    lemma_pow_adds(b, 1, (nv - j - 1) as nat);
    lemma_pow1(b);
    assert((1 + (nv - j - 1)) as nat == (nv - j) as nat);
}

/// The measure up to `m` and from `m` on add up.
pub proof fn lemma_progress_split(lim: Seq<usize>, s: int, m: int, n: int, nv: nat)
    requires
        s <= m <= n,
    ensures
        progress(lim, s, n, nv) == progress(lim, s, m, nv) + progress(lim, m, n, nv),
    decreases n - m,
{
    if n > m {
        lemma_progress_split(lim, s, m, n - 1, nv);
    }
}

/// Two level counts that agree on the positions from `s` to `n` give the same
/// measure there.
pub proof fn lemma_progress_same(l1: Seq<usize>, l2: Seq<usize>, s: int, n: int, nv: nat)
    requires
        forall|p: int| s <= p < n ==> #[trigger] count_le(l1, p) == count_le(l2, p),
    ensures
        progress(l1, s, n, nv) == progress(l2, s, n, nv),
    decreases n - s,
{
    if n > s {
        lemma_progress_same(l1, l2, s, n - 1, nv);
    }
}

/// Positions whose levels lie between `a` and `nv` weigh at most as much as as
/// many positions at level `a`; the measure is not negative.
pub proof fn lemma_progress_range(lim: Seq<usize>, s: int, n: int, nv: nat, a: int)
    requires
        0 <= a <= nv,
        s <= n,
        forall|p: int| s <= p < n ==> a <= #[trigger] count_le(lim, p) <= nv,
    ensures
        0 <= progress(lim, s, n, nv) <= (n - s) * level_weight(nv, a),
    decreases n - s,
{
    if n > s {
        lemma_progress_range(lim, s, n - 1, nv, a);
        let l = count_le(lim, n - 1) as int;
        lemma_weight_facts(nv, a, l);
        let w = level_weight(nv, a);
        assert((n - 1 - s) * w + w == (n - s) * w) by (nonlinear_arith);
    } else {
        assert((n - s) * level_weight(nv, a) == 0) by (nonlinear_arith)
            requires
                n == s,
        ;
    }
}

/// The measure of positions that all lie at levels from 0 to `nv` is at most
/// their number times the weight of level 0.
pub proof fn lemma_progress_upper(lim: Seq<usize>, s: int, n: int, nv: nat)
    requires
        s <= n <= s + nv,
        forall|p: int| s <= p < n ==> #[trigger] count_le(lim, p) <= nv,
    ensures
        0 <= progress(lim, s, n, nv) <= search_bound(nv),
{
    lemma_progress_range(lim, s, n, nv, 0);
    let w = pow((nv + 2) as int, nv);
    lemma_pow_positive((nv + 2) as int, nv);
    assert((n - s) * w <= nv * w) by (nonlinear_arith)
        requires
            0 <= n - s <= nv,
            w > 0,
    ;
}

/// Going back to level `j` and setting one literal there outweighs the
/// positions above it: at most `nv + 1` positions, all at levels above `j`,
/// weigh less than one position at level `j`.
pub proof fn lemma_progress_tail(lim: Seq<usize>, m: int, n: int, nv: nat, j: int)
    requires
        0 <= j < nv,
        m <= n <= m + nv + 1,
        forall|p: int| m <= p < n ==> j + 1 <= #[trigger] count_le(lim, p) <= nv,
    ensures
        progress(lim, m, n, nv) < level_weight(nv, j),
{
    lemma_progress_range(lim, m, n, nv, j + 1);
    lemma_weight_step(nv, j);
    lemma_weight_facts(nv, j + 1, j + 1);
    let w = level_weight(nv, j + 1);
    assert((n - m) * w < (nv + 2) * w) by (nonlinear_arith)
        requires
            0 <= n - m <= nv + 1,
            w >= 1,
    ;
}

/// Over at most eight variables the bound stays at most 800 million, far
/// below what a clause store can hold.
pub proof fn lemma_search_bound_small(nv: nat)
    requires
        nv <= 8,
    ensures
        0 <= search_bound(nv) <= 800_000_000,
{
    reveal_with_fuel(pow, 9);
    if nv == 0 {
        assert(search_bound(0) == 0);
    } else if nv == 1 {
        assert(search_bound(1) == 3);
    } else if nv == 2 {
        assert(search_bound(2) == 32);
    } else if nv == 3 {
        assert(search_bound(3) == 375);
    } else if nv == 4 {
        assert(search_bound(4) == 5184);
    } else if nv == 5 {
        assert(search_bound(5) == 84035);
    } else if nv == 6 {
        assert(search_bound(6) == 1572864);
    } else if nv == 7 {
        assert(search_bound(7) == 33480783);
    } else {
        assert(search_bound(8) == 800000000);
    }
}

} // verus!
