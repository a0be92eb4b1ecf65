//! The bookkeeping of conflict analysis, as facts about values: how many trail
//! positions of the conflict level are marked, and what the frontier of the
//! learned clause holds at each step of the scans.
use vstd::prelude::*;

use crate::assignment::Assignment;
use crate::clause_db::distinct_vars;
use crate::conflict::{conflict_scan, conflict_step, resolve_scan, resolve_step, ScanState};
use crate::lit::Lit;
use crate::semantics::{clause_holds, lit_holds};
use crate::solver::{lit_false, lit_true};

verus! {

/// Trail position `q` of `t` holds a variable that `seen` marks.
pub open spec fn marked_at(t: Seq<Lit>, seen: Seq<Assignment>, q: int) -> bool {
    seen[t[q].var_spec() as int] != Assignment(0)
}

/// The number of positions in `lo..hi` of `t` whose variable is marked in `seen`.
pub open spec fn count_marked(t: Seq<Lit>, seen: Seq<Assignment>, lo: int, hi: int) -> nat
    decreases hi - lo,
{
    if hi <= lo {
        0
    } else {
        count_marked(t, seen, lo, hi - 1) + if marked_at(t, seen, hi - 1) {
            1nat
        } else {
            0nat
        }
    }
}

/// No more positions are marked than there are positions.
pub proof fn lemma_count_marked_le(t: Seq<Lit>, seen: Seq<Assignment>, lo: int, hi: int)
    requires
        lo <= hi,
    ensures
        count_marked(t, seen, lo, hi) <= hi - lo,
    decreases hi - lo,
{
    if hi > lo {
        lemma_count_marked_le(t, seen, lo, hi - 1);
    }
}

/// The count over `lo..hi` is the count over `lo..m` plus the count over `m..hi`.
pub proof fn lemma_count_marked_split(t: Seq<Lit>, seen: Seq<Assignment>, lo: int, m: int, hi: int)
    requires
        lo <= m <= hi,
    ensures
        count_marked(t, seen, lo, hi) == count_marked(t, seen, lo, m) + count_marked(t, seen, m, hi),
    decreases hi - m,
{
    if hi > m {
        lemma_count_marked_split(t, seen, lo, m, hi - 1);
    }
}

/// A count of zero means that no position of the range is marked.
pub proof fn lemma_count_marked_zero(t: Seq<Lit>, seen: Seq<Assignment>, lo: int, hi: int)
    requires
        count_marked(t, seen, lo, hi) == 0,
    ensures
        forall|q: int| lo <= q < hi ==> !marked_at(t, seen, q),
    decreases hi - lo,
{
    if hi > lo {
        lemma_count_marked_zero(t, seen, lo, hi - 1);
    }
}

/// A positive count has a marked position in the range.
pub proof fn lemma_count_marked_witness(t: Seq<Lit>, seen: Seq<Assignment>, lo: int, hi: int)
    requires
        count_marked(t, seen, lo, hi) > 0,
    ensures
        exists|q: int| lo <= q < hi && marked_at(t, seen, q),
    decreases hi - lo,
{
    if hi > lo && !marked_at(t, seen, hi - 1) {
        lemma_count_marked_witness(t, seen, lo, hi - 1);
    }
}

/// The count depends only on the marks of the variables in the range.
pub proof fn lemma_count_marked_same(t: Seq<Lit>, seen: Seq<Assignment>, seen2: Seq<Assignment>, lo: int, hi: int)
    requires
        forall|q: int| lo <= q < hi ==> (marked_at(t, seen, q) <==> marked_at(t, seen2, q)),
    ensures
        count_marked(t, seen, lo, hi) == count_marked(t, seen2, lo, hi),
    decreases hi - lo,
{
    if hi > lo {
        lemma_count_marked_same(t, seen, seen2, lo, hi - 1);
    }
}

/// Changing the mark of variable `v`, which sits at position `q` and at no other
/// position of the range, changes the count by the change at `q`.
pub proof fn lemma_count_marked_update(t: Seq<Lit>, seen: Seq<Assignment>, lo: int, hi: int, v: int, a: Assignment, q: int)
    requires
        lo <= q < hi,
        t[q].var_spec() == v,
        0 <= v < seen.len(),
        forall|p: int| lo <= p < hi ==> #[trigger] t[p].var_spec() < seen.len(),
        forall|p: int| lo <= p < hi && p != q ==> #[trigger] t[p].var_spec() != v,
    ensures
        count_marked(t, seen.update(v, a), lo, hi) + (if marked_at(t, seen, q) { 1int } else { 0int })
            == count_marked(t, seen, lo, hi) + (if a != Assignment(0) { 1int } else { 0int }),
    decreases hi - lo,
{
    let s2 = seen.update(v, a);
    if q == hi - 1 {
        assert forall|p: int| lo <= p < hi - 1 implies (marked_at(t, seen, p) <==> marked_at(t, s2, p)) by {
            assert(t[p].var_spec() != v);
            assert(t[p].var_spec() < seen.len());
        }
        lemma_count_marked_same(t, seen, s2, lo, hi - 1);
    } else {
        lemma_count_marked_update(t, seen, lo, hi - 1, v, a, q);
        assert(t[hi - 1].var_spec() != v);
    }
}

/// Changing the mark of a variable that sits at no position of the range keeps
/// the count.
pub proof fn lemma_count_marked_update_outside(t: Seq<Lit>, seen: Seq<Assignment>, lo: int, hi: int, v: int, a: Assignment)
    requires
        0 <= v < seen.len(),
        forall|p: int| lo <= p < hi ==> #[trigger] t[p].var_spec() != v,
        forall|p: int| lo <= p < hi ==> #[trigger] t[p].var_spec() < seen.len(),
    ensures
        count_marked(t, seen.update(v, a), lo, hi) == count_marked(t, seen, lo, hi),
{
    assert forall|q: int| lo <= q < hi implies (marked_at(t, seen, q) <==> marked_at(t, seen.update(v, a), q)) by {
        assert(t[q].var_spec() != v);
        assert(t[q].var_spec() < seen.len());
    }
    lemma_count_marked_same(t, seen, seen.update(v, a), lo, hi);
}

/// Some position in `lo..hi` of `t` holds a literal of variable `v`.
pub open spec fn on_trail_in(t: Seq<Lit>, v: int, lo: int, hi: int) -> bool {
    exists|q: int| lo <= q < hi && #[trigger] t[q].var_spec() == v
}

/// Some literal of `f` has variable `v`.
pub open spec fn in_frontier(f: Seq<Lit>, v: int) -> bool {
    exists|k: int| 0 <= k < f.len() && #[trigger] f[k].var_spec() == v
}

/// What the trail `t` gives the analysis of a conflict at level `dl` (at least 1)
/// whose positions start at `start`: every variable below `n`; every position at a
/// level of at most `dl`, equal to `dl` exactly from `start` on; and a variable at
/// a position from `start` on at no other position.
pub open spec fn window_ok(t: Seq<Lit>, levels: Seq<u32>, n: int, dl: int, start: int) -> bool {
    &&& 1 <= dl
    &&& 0 <= start <= t.len()
    &&& levels.len() == n
    &&& forall|p: int| 0 <= p < t.len() ==> (#[trigger] t[p]).var_spec() < n
    &&& forall|p: int| 0 <= p < t.len() ==> levels[(#[trigger] t[p]).var_spec() as int] <= dl
    &&& forall|p: int| 0 <= p < t.len() ==> (levels[(#[trigger] t[p]).var_spec() as int] == dl <==> start <= p)
    &&& forall|p: int, q: int| start <= p < t.len() && 0 <= q < t.len() && p != q ==> (#[trigger] t[p]).var_spec() != (#[trigger] t[q]).var_spec()
}

/// A frontier literal: a false literal below the conflict level whose variable is marked.
pub open spec fn frontier_lit_ok(l: Lit, seen: Seq<Assignment>, vals: Seq<Assignment>, levels: Seq<u32>, n: int, dl: int) -> bool {
    &&& l.var_spec() < n
    &&& seen[l.var_spec() as int] != Assignment(0)
    &&& levels[l.var_spec() as int] < dl
    &&& lit_false(vals, l)
}

/// The analysis state `st` while the trail positions from `hi` on have been dealt
/// with: the count is the number of marked positions in `start..hi`; a marked
/// variable of the conflict level sits in that range and any other marked variable
/// is a frontier variable; the frontier holds distinct false literals below the
/// conflict level with marked variables; and the remembered index and level are
/// those of a highest-level frontier literal (0 and 0 for an empty frontier).
pub open spec fn scan_ok(st: ScanState, t: Seq<Lit>, vals: Seq<Assignment>, levels: Seq<u32>, n: int, dl: int, start: int, hi: int) -> bool {
    let f = st.0;
    let seen = st.4;
    &&& seen.len() == n
    &&& start <= hi <= t.len()
    &&& st.1 == count_marked(t, seen, start, hi)
    &&& forall|v: int| 0 <= v < n && #[trigger] seen[v] != Assignment(0) && levels[v] == dl ==> on_trail_in(t, v, start, hi)
    &&& forall|v: int| 0 <= v < n && #[trigger] seen[v] != Assignment(0) && levels[v] != dl ==> in_frontier(f, v)
    &&& forall|k: int| 0 <= k < f.len() ==> frontier_lit_ok(#[trigger] f[k], seen, vals, levels, n, dl)
    &&& distinct_vars(f)
    &&& 0 <= st.3 < dl
    &&& f.len() == 0 ==> st.3 == 0 && st.2 == 0
    &&& f.len() > 0 ==> 0 <= st.2 < f.len() && levels[f[st.2].var_spec() as int] == st.3
    &&& forall|k: int| 0 <= k < f.len() ==> levels[(#[trigger] f[k]).var_spec() as int] <= st.3
}

/// What a literal of a clause being resolved needs: its variable is on the trail
/// below `hi` and the literal is false.
pub open spec fn clause_lit_ok(l: Lit, t: Seq<Lit>, vals: Seq<Assignment>, n: int, hi: int) -> bool {
    &&& l.var_spec() < n
    &&& lit_false(vals, l)
    &&& on_trail_in(t, l.var_spec() as int, 0, hi)
}

/// Marking a new false literal keeps the analysis state valid.
#[verifier::rlimit(20)]
pub proof fn lemma_mark_new(st: ScanState, l: Lit, pivot: Lit, t: Seq<Lit>, vals: Seq<Assignment>, levels: Seq<u32>, n: int, dl: int, start: int, hi: int)
    requires
        window_ok(t, levels, n, dl, start),
        scan_ok(st, t, vals, levels, n, dl, start, hi),
        clause_lit_ok(l, t, vals, n, hi),
        l != pivot,
        st.4[l.var_spec() as int] == Assignment(0),
    ensures
        scan_ok(resolve_step(st, l, pivot, levels, dl), t, vals, levels, n, dl, start, hi),
{
    let v = l.var_spec() as int;
    let a = Assignment::of_bool(l.is_pos_spec());
    let seen = st.4;
    let seen2 = seen.update(v, a);
    let st2 = resolve_step(st, l, pivot, levels, dl);
    let q = choose|q: int| 0 <= q < hi && #[trigger] t[q].var_spec() == v;
    assert(levels[t[q].var_spec() as int] <= dl);
    let lvl = levels[v] as int;
    assert forall|p: int| start <= p < hi implies #[trigger] t[p].var_spec() < seen.len() by {}
    if lvl == dl {
        assert(start <= q);
        assert forall|p: int| start <= p < hi && p != q implies #[trigger] t[p].var_spec() != v by {}
        lemma_count_marked_update(t, seen, start, hi, v, a, q);
        assert(!marked_at(t, seen, q));
        assert forall|w: int| 0 <= w < n && #[trigger] seen2[w] != Assignment(0) && levels[w] == dl implies on_trail_in(t, w, start, hi) by {
            if w == v {
                assert(t[q].var_spec() == w);
            } else {
                assert(seen[w] != Assignment(0));
            }
        }
        assert forall|w: int| 0 <= w < n && #[trigger] seen2[w] != Assignment(0) && levels[w] != dl implies in_frontier(st.0, w) by {
            assert(w != v);
            assert(seen[w] != Assignment(0));
        }
        assert forall|k: int| 0 <= k < st.0.len() implies frontier_lit_ok(#[trigger] st.0[k], seen2, vals, levels, n, dl) by {
            assert(frontier_lit_ok(st.0[k], seen, vals, levels, n, dl));
        }
        assert(st2 == (st.0, st.1 + 1, st.2, st.3, seen2));
        assert(seen2.len() == n);
        assert(st2.1 == count_marked(t, seen2, start, hi));
    } else {
        assert forall|p: int| start <= p < hi implies #[trigger] t[p].var_spec() != v by {
            if t[p].var_spec() == v {
                assert(levels[t[p].var_spec() as int] == dl);
            }
        }
        lemma_count_marked_update_outside(t, seen, start, hi, v, a);
        let f2 = st.0.push(l);
        assert(st2.0 == f2);
        assert forall|w: int| 0 <= w < n && #[trigger] seen2[w] != Assignment(0) && levels[w] == dl implies on_trail_in(t, w, start, hi) by {
            assert(w != v);
            assert(seen[w] != Assignment(0));
        }
        assert forall|w: int| 0 <= w < n && #[trigger] seen2[w] != Assignment(0) && levels[w] != dl implies in_frontier(f2, w) by {
            if w == v {
                assert(f2[st.0.len() as int].var_spec() == w);
            } else {
                assert(seen[w] != Assignment(0));
                let k = choose|k: int| 0 <= k < st.0.len() && #[trigger] st.0[k].var_spec() == w;
                assert(f2[k] == st.0[k]);
            }
        }
        assert forall|k: int| 0 <= k < f2.len() implies frontier_lit_ok(#[trigger] f2[k], seen2, vals, levels, n, dl) by {
            if k < st.0.len() {
                assert(f2[k] == st.0[k]);
                assert(frontier_lit_ok(st.0[k], seen, vals, levels, n, dl));
            }
        }
        assert(distinct_vars(f2)) by {
            assert forall|i: int, j: int| 0 <= i < f2.len() && 0 <= j < f2.len() && i != j implies #[trigger] f2[i].var_spec() != #[trigger] f2[j].var_spec() by {
                if i < st.0.len() && j < st.0.len() {
                    assert(f2[i] == st.0[i] && f2[j] == st.0[j]);
                } else if i < st.0.len() {
                    assert(frontier_lit_ok(st.0[i], seen, vals, levels, n, dl));
                    assert(f2[i] == st.0[i]);
                } else if j < st.0.len() {
                    assert(frontier_lit_ok(st.0[j], seen, vals, levels, n, dl));
                    assert(f2[j] == st.0[j]);
                }
            }
        }
        assert forall|k: int| 0 <= k < f2.len() implies levels[(#[trigger] f2[k]).var_spec() as int] <= st2.3 by {
            if k < st.0.len() {
                assert(f2[k] == st.0[k]);
            }
        }
        if st.0.len() > 0 && lvl <= st.3 {
            assert(f2[st.2] == st.0[st.2]);
        }
        assert(st2.4 == seen2);
        assert(st2.1 == count_marked(t, seen2, start, hi));
        assert(0 <= st2.3 < dl);
        assert(f2.len() > 0 ==> 0 <= st2.2 < f2.len() && levels[f2[st2.2].var_spec() as int] == st2.3);
    }
}

/// One step of `resolve` keeps the analysis state valid: a literal other than the
/// pivot is a clause literal, and the pivot is the marked literal at position
/// `hi - 1`.
pub proof fn lemma_resolve_step_ok(st: ScanState, l: Lit, pivot: Lit, t: Seq<Lit>, vals: Seq<Assignment>, levels: Seq<u32>, n: int, dl: int, start: int, hi: int)
    requires
        window_ok(t, levels, n, dl, start),
        scan_ok(st, t, vals, levels, n, dl, start, hi),
        start < hi,
        pivot == t[hi - 1],
        l == pivot ==> st.4[pivot.var_spec() as int] != Assignment(0),
        l != pivot ==> clause_lit_ok(l, t, vals, n, hi),
    ensures
        scan_ok(resolve_step(st, l, pivot, levels, dl), t, vals, levels, n, dl, start, hi),
{
    let v = l.var_spec() as int;
    let seen = st.4;
    if l == pivot {
        let seen2 = seen.update(v, Assignment(0));
        assert forall|p: int| start <= p < hi implies #[trigger] t[p].var_spec() < seen.len() by {}
        assert forall|p: int| start <= p < hi && p != hi - 1 implies #[trigger] t[p].var_spec() != v by {}
        lemma_count_marked_update(t, seen, start, hi, v, Assignment(0), hi - 1);
        assert(levels[t[hi - 1].var_spec() as int] == dl);
        assert forall|k: int| 0 <= k < st.0.len() implies frontier_lit_ok(#[trigger] st.0[k], seen2, vals, levels, n, dl) by {
            assert(frontier_lit_ok(st.0[k], seen, vals, levels, n, dl));
        }
        assert forall|w: int| 0 <= w < n && #[trigger] seen2[w] != Assignment(0) && levels[w] == dl implies on_trail_in(t, w, start, hi) by {
            assert(seen[w] != Assignment(0));
        }
        assert forall|w: int| 0 <= w < n && #[trigger] seen2[w] != Assignment(0) && levels[w] != dl implies in_frontier(st.0, w) by {
            assert(seen[w] != Assignment(0));
        }
    } else if seen[v] == Assignment(0) {
        lemma_mark_new(st, l, pivot, t, vals, levels, n, dl, start, hi);
    }
}

/// Leaving out the position `hi - 1`, whose variable is not marked, keeps the
/// analysis state valid.
pub proof fn lemma_scan_shrink(st: ScanState, t: Seq<Lit>, vals: Seq<Assignment>, levels: Seq<u32>, n: int, dl: int, start: int, hi: int)
    requires
        window_ok(t, levels, n, dl, start),
        scan_ok(st, t, vals, levels, n, dl, start, hi),
        start < hi,
        !marked_at(t, st.4, hi - 1),
    ensures
        scan_ok(st, t, vals, levels, n, dl, start, hi - 1),
{
    let seen = st.4;
    assert forall|w: int| 0 <= w < n && #[trigger] seen[w] != Assignment(0) && levels[w] == dl implies on_trail_in(t, w, start, hi - 1) by {
        let q = choose|q: int| start <= q < hi && #[trigger] t[q].var_spec() == w;
        assert(q != hi - 1);
    }
}

/// A range with no marked position has a count of zero.
pub proof fn lemma_count_marked_none(t: Seq<Lit>, seen: Seq<Assignment>, lo: int, hi: int)
    requires
        forall|q: int| lo <= q < hi ==> !marked_at(t, seen, q),
    ensures
        count_marked(t, seen, lo, hi) == 0,
    decreases hi - lo,
{
    if hi > lo {
        lemma_count_marked_none(t, seen, lo, hi - 1);
    }
}

/// With a count of one and position `r` marked, no other position of the range
/// is marked.
pub proof fn lemma_count_marked_one(t: Seq<Lit>, seen: Seq<Assignment>, lo: int, hi: int, r: int)
    requires
        count_marked(t, seen, lo, hi) == 1,
        lo <= r < hi,
        marked_at(t, seen, r),
    ensures
        forall|q: int| lo <= q < hi && q != r ==> !marked_at(t, seen, q),
{
    lemma_count_marked_split(t, seen, lo, r, hi);
    lemma_count_marked_split(t, seen, r, r + 1, hi);
    assert(count_marked(t, seen, r, r + 1) == 1) by {
        assert(count_marked(t, seen, r, r) == 0);
    }
    lemma_count_marked_zero(t, seen, lo, r);
    lemma_count_marked_zero(t, seen, r + 1, hi);
}

/// Dropping the last literal keeps distinct variables.
pub proof fn lemma_distinct_vars_drop_last(s: Seq<Lit>)
    requires
        distinct_vars(s),
        s.len() > 0,
    ensures
        distinct_vars(s.drop_last()),
        forall|k: int| 0 <= k < s.len() - 1 ==> #[trigger] s[k].var_spec() != s.last().var_spec(),
{
    assert forall|i: int, j: int| 0 <= i < s.drop_last().len() && 0 <= j < s.drop_last().len() && i != j implies #[trigger] s.drop_last()[i].var_spec() != #[trigger] s.drop_last()[j].var_spec() by {
        assert(s.drop_last()[i] == s[i] && s.drop_last()[j] == s[j]);
    }
    assert forall|k: int| 0 <= k < s.len() - 1 implies #[trigger] s[k].var_spec() != s.last().var_spec() by {
        assert(s[s.len() - 1] == s.last());
    }
}

/// Resolving with a clause of distinct variables whose literals other than the
/// pivot are clause literals keeps the analysis state valid, and the pivot's
/// variable ends unmarked exactly when the clause contains the pivot.
pub proof fn lemma_resolve_scan_ok(st: ScanState, lits: Seq<Lit>, pivot: Lit, t: Seq<Lit>, vals: Seq<Assignment>, levels: Seq<u32>, n: int, dl: int, start: int, hi: int)
    requires
        window_ok(t, levels, n, dl, start),
        scan_ok(st, t, vals, levels, n, dl, start, hi),
        start < hi,
        pivot == t[hi - 1],
        st.4[pivot.var_spec() as int] != Assignment(0),
        distinct_vars(lits),
        forall|k: int| 0 <= k < lits.len() && lits[k] != pivot ==> clause_lit_ok(#[trigger] lits[k], t, vals, n, hi),
    ensures
        scan_ok(resolve_scan(st, lits, pivot, levels, dl), t, vals, levels, n, dl, start, hi),
        lits.contains(pivot) ==> resolve_scan(st, lits, pivot, levels, dl).4[pivot.var_spec() as int] == Assignment(0),
        !lits.contains(pivot) ==> resolve_scan(st, lits, pivot, levels, dl).4[pivot.var_spec() as int] != Assignment(0),
        resolve_scan(st, lits, pivot, levels, dl).1 + (if lits.contains(pivot) { 1int } else { 0int }) >= st.1,
    decreases lits.len(),
{
    if lits.len() > 0 {
        let d = lits.drop_last();
        let l = lits.last();
        lemma_distinct_vars_drop_last(lits);
        assert forall|k: int| 0 <= k < d.len() && d[k] != pivot implies clause_lit_ok(#[trigger] d[k], t, vals, n, hi) by {
            assert(d[k] == lits[k]);
        }
        lemma_resolve_scan_ok(st, d, pivot, t, vals, levels, n, dl, start, hi);
        let st1 = resolve_scan(st, d, pivot, levels, dl);
        let pv = pivot.var_spec() as int;
        if l == pivot {
            assert(!d.contains(pivot)) by {
                if d.contains(pivot) {
                    let k = choose|k: int| 0 <= k < d.len() && d[k] == pivot;
                    assert(lits[k].var_spec() != l.var_spec());
                }
            }
        } else {
            assert(clause_lit_ok(lits[lits.len() - 1], t, vals, n, hi));
            if d.contains(pivot) {
                let k = choose|k: int| 0 <= k < d.len() && d[k] == pivot;
                assert(lits[k].var_spec() != l.var_spec());
            }
        }
        lemma_resolve_step_ok(st1, l, pivot, t, vals, levels, n, dl, start, hi);
        assert(lits.contains(pivot) <==> (d.contains(pivot) || l == pivot)) by {
            if lits.contains(pivot) && l != pivot {
                let k = choose|k: int| 0 <= k < lits.len() && lits[k] == pivot;
                assert(d[k] == pivot);
            }
            if d.contains(pivot) {
                let k = choose|k: int| 0 <= k < d.len() && d[k] == pivot;
                assert(lits[k] == pivot);
            }
        }
    } else {
        assert(!lits.contains(pivot));
    }
}

/// Starting the analysis on a clause of distinct false literals whose variables
/// are on the trail, with no variable marked, gives a valid analysis state over the
/// whole trail, in which the marked variables are those of the clause.
pub proof fn lemma_conflict_scan_ok(lits: Seq<Lit>, seen0: Seq<Assignment>, t: Seq<Lit>, vals: Seq<Assignment>, levels: Seq<u32>, n: int, dl: int, start: int)
    requires
        window_ok(t, levels, n, dl, start),
        seen0.len() == n,
        forall|v: int| 0 <= v < n ==> #[trigger] seen0[v] == Assignment(0),
        distinct_vars(lits),
        forall|k: int| 0 <= k < lits.len() ==> clause_lit_ok(#[trigger] lits[k], t, vals, n, t.len() as int),
    ensures
        scan_ok(conflict_scan((Seq::empty(), 0, 0, 0, seen0), lits, levels, dl), t, vals, levels, n, dl, start, t.len() as int),
        forall|v: int| 0 <= v < n ==> (#[trigger] conflict_scan((Seq::empty(), 0, 0, 0, seen0), lits, levels, dl).4[v] != Assignment(0)
            <==> exists|k: int| 0 <= k < lits.len() && lits[k].var_spec() == v),
    decreases lits.len(),
{
    let st0: ScanState = (Seq::empty(), 0, 0, 0, seen0);
    let hi = t.len() as int;
    if lits.len() == 0 {
        lemma_count_marked_none(t, seen0, start, hi);
    } else {
        let d = lits.drop_last();
        let l = lits.last();
        lemma_distinct_vars_drop_last(lits);
        assert forall|k: int| 0 <= k < d.len() implies clause_lit_ok(#[trigger] d[k], t, vals, n, hi) by {
            assert(d[k] == lits[k]);
        }
        lemma_conflict_scan_ok(d, seen0, t, vals, levels, n, dl, start);
        let st1 = conflict_scan(st0, d, levels, dl);
        let v = l.var_spec() as int;
        assert(clause_lit_ok(lits[lits.len() - 1], t, vals, n, hi));
        assert(st1.4[v] == Assignment(0)) by {
            if st1.4[v] != Assignment(0) {
                let k = choose|k: int| 0 <= k < d.len() && d[k].var_spec() == v;
                assert(lits[k].var_spec() != l.var_spec());
            }
        }
        let other = l.opposite();
        assert(other != l);
        assert(conflict_step(st1, l, levels, dl) == resolve_step(st1, l, other, levels, dl));
        lemma_mark_new(st1, l, other, t, vals, levels, n, dl, start, hi);
        let st2 = conflict_step(st1, l, levels, dl);
        assert forall|w: int| 0 <= w < n implies (#[trigger] st2.4[w] != Assignment(0)
            <==> exists|k: int| 0 <= k < lits.len() && lits[k].var_spec() == w) by {
            if w == v {
                assert(lits[lits.len() - 1].var_spec() == w);
            } else {
                if exists|k: int| 0 <= k < lits.len() && lits[k].var_spec() == w {
                    let k = choose|k: int| 0 <= k < lits.len() && lits[k].var_spec() == w;
                    assert(k < lits.len() - 1);
                    assert(d[k].var_spec() == w);
                }
                if exists|k: int| 0 <= k < d.len() && d[k].var_spec() == w {
                    let k = choose|k: int| 0 <= k < d.len() && d[k].var_spec() == w;
                    assert(lits[k].var_spec() == w);
                }
            }
        }
    }
}

/// A marked position in the range makes the count positive.
pub proof fn lemma_count_marked_pos(t: Seq<Lit>, seen: Seq<Assignment>, lo: int, hi: int, q: int)
    requires
        lo <= q < hi,
        marked_at(t, seen, q),
    ensures
        count_marked(t, seen, lo, hi) >= 1,
{
    lemma_count_marked_split(t, seen, lo, q, hi);
    lemma_count_marked_split(t, seen, q, q + 1, hi);
    assert(count_marked(t, seen, q, q) == 0);
}

/// The clause that `finalize_clause` builds from the frontier `f`, the negated
/// unique implication point `x` and the index `j` of the frontier literal of the
/// highest level: `x` first, then `f` with its first literal moved to the end,
/// and then the literal of index `j` exchanged with the second one.
pub open spec fn finalized(f: Seq<Lit>, x: Lit, j: int) -> Seq<Lit> {
    let g = f.push(x);
    if f.len() == 0 {
        g
    } else {
        let h = g.update(0, g[f.len() as int]).update(f.len() as int, g[0]);
        let p = if j == 0 { f.len() as int } else { j };
        h.update(p, h[1]).update(1, h[p])
    }
}

/// The position in `finalized(f, x, j)` of the frontier literal of index `k`.
pub open spec fn finalized_pos(m: int, j: int, k: int) -> int {
    let q = if k == 0 { m } else { k };
    let p = if j == 0 { m } else { j };
    if q == p { 1 } else if q == 1 { p } else { q }
}

/// The index in the frontier of the literal at position `pos` (from 1 on) of
/// `finalized(f, x, j)`.
pub open spec fn finalized_src(m: int, j: int, pos: int) -> int {
    let p = if j == 0 { m } else { j };
    let q = if pos == 1 { p } else if pos == p { 1 } else { pos };
    if q == m { 0 } else { q }
}

/// Where the literals of `f` land in `finalized(f, x, j)`.
pub proof fn lemma_finalized(f: Seq<Lit>, x: Lit, j: int)
    requires
        f.len() > 0 ==> 0 <= j < f.len(),
    ensures
        finalized(f, x, j).len() == f.len() + 1,
        finalized(f, x, j)[0] == x,
        forall|k: int| 0 <= k < f.len() ==> 1 <= #[trigger] finalized_pos(f.len() as int, j, k) <= f.len()
            && finalized(f, x, j)[finalized_pos(f.len() as int, j, k)] == f[k],
        forall|pos: int| 1 <= pos <= f.len() ==> 0 <= #[trigger] finalized_src(f.len() as int, j, pos) < f.len()
            && finalized(f, x, j)[pos] == f[finalized_src(f.len() as int, j, pos)],
        f.len() > 0 ==> finalized(f, x, j)[1] == f[j],
{
}

/// The clause learned from a final analysis state `st` (one marked position of
/// the conflict level left, at `r`, holding the true literal `x`): `x` negated,
/// then the frontier. Its literals are distinct, false and over existing
/// variables; all but the first lie below the conflict level, at most at the
/// remembered level, which one of them reaches; and every marked variable is
/// one of its variables.
#[verifier::rlimit(20)]
pub proof fn lemma_learned(st: ScanState, t: Seq<Lit>, vals: Seq<Assignment>, levels: Seq<u32>, n: int, dl: int, start: int, hi: int, r: int, x: Lit)
    requires
        window_ok(t, levels, n, dl, start),
        scan_ok(st, t, vals, levels, n, dl, start, hi),
        st.1 == 1,
        start <= r < hi,
        x == t[r],
        marked_at(t, st.4, r),
        lit_true(vals, x),
    ensures
        ({
            let f2 = finalized(st.0, x.opposite(), st.2);
            &&& f2.len() >= 1
            &&& f2[0] == x.opposite()
            &&& distinct_vars(f2)
            &&& forall|k: int| 0 <= k < f2.len() ==> (#[trigger] f2[k]).var_spec() < n && lit_false(vals, f2[k])
            &&& forall|k: int| 1 <= k < f2.len() ==> levels[(#[trigger] f2[k]).var_spec() as int] <= st.3
            &&& 0 <= st.3 < dl
            &&& f2.len() == 1 ==> st.3 == 0
            &&& f2.len() >= 2 ==> levels[f2[1].var_spec() as int] == st.3
            &&& forall|v: int| 0 <= v < n && #[trigger] st.4[v] != Assignment(0) ==> exists|k: int| 0 <= k < f2.len() && f2[k].var_spec() == v
        }),
{
    let f = st.0;
    let seen = st.4;
    let j0 = st.2;
    let f2 = finalized(f, x.opposite(), j0);
    let m = f.len() as int;
    lemma_count_marked_one(t, seen, start, hi, r);
    lemma_finalized(f, x.opposite(), j0);
    assert(levels[t[r].var_spec() as int] == dl);
    assert forall|k: int| 0 <= k < f2.len() implies (#[trigger] f2[k]).var_spec() < n && lit_false(vals, f2[k])
        && (k >= 1 ==> levels[f2[k].var_spec() as int] < dl && levels[f2[k].var_spec() as int] <= st.3) by {
        if 1 <= k <= m {
            let src = finalized_src(m, j0, k);
            assert(frontier_lit_ok(f[src], seen, vals, levels, n, dl));
        }
    }
    assert(distinct_vars(f2)) by {
        assert forall|i: int, j: int| 0 <= i < f2.len() && 0 <= j < f2.len() && i != j implies #[trigger] f2[i].var_spec() != #[trigger] f2[j].var_spec() by {
            if i != 0 && j != 0 {
                let fi = finalized_src(m, j0, i);
                let fj = finalized_src(m, j0, j);
                assert(fi != fj);
                assert(f[fi].var_spec() != f[fj].var_spec());
            } else if i == 0 {
                assert(levels[f2[j].var_spec() as int] < dl);
            } else {
                assert(levels[f2[i].var_spec() as int] < dl);
            }
        }
    }
    if f2.len() >= 2 {
        assert(f2[1] == f[j0]);
    }
    assert forall|v: int| 0 <= v < n && #[trigger] seen[v] != Assignment(0) implies exists|k: int| 0 <= k < f2.len() && f2[k].var_spec() == v by {
        if levels[v] == dl {
            let q = choose|q: int| start <= q < hi && #[trigger] t[q].var_spec() == v;
            assert(marked_at(t, seen, q));
            assert(f2[0].var_spec() == v);
        } else {
            let k = choose|k: int| 0 <= k < f.len() && #[trigger] f[k].var_spec() == v;
            let pos = finalized_pos(m, j0, k);
            assert(f2[pos].var_spec() == v);
        }
    }
}

/// Resolving extends the frontier, keeps every mark but the pivot's, and leaves
/// the variable of every literal other than the pivot marked.
pub proof fn lemma_resolve_scan_marks(st: ScanState, lits: Seq<Lit>, pivot: Lit, levels: Seq<u32>, dl: int)
    requires
        forall|k: int| 0 <= k < lits.len() ==> 0 <= (#[trigger] lits[k]).var_spec() < st.4.len(),
        0 <= pivot.var_spec() < st.4.len(),
    ensures
        ({
            let r = resolve_scan(st, lits, pivot, levels, dl);
            &&& r.4.len() == st.4.len()
            &&& r.0.len() >= st.0.len()
            &&& forall|k: int| 0 <= k < st.0.len() ==> #[trigger] r.0[k] == st.0[k]
            &&& forall|v: int| 0 <= v < st.4.len() && v != pivot.var_spec() && #[trigger] st.4[v] != Assignment(0) ==> r.4[v] != Assignment(0)
            &&& forall|k: int| 0 <= k < lits.len() && lits[k] != pivot && (#[trigger] lits[k]).var_spec() != pivot.var_spec()
                ==> r.4[lits[k].var_spec() as int] != Assignment(0)
        }),
    decreases lits.len(),
{
    if lits.len() > 0 {
        let d = lits.drop_last();
        let l = lits.last();
        assert forall|k: int| 0 <= k < d.len() implies 0 <= (#[trigger] d[k]).var_spec() < st.4.len() by {
            assert(d[k] == lits[k]);
        }
        lemma_resolve_scan_marks(st, d, pivot, levels, dl);
        let r1 = resolve_scan(st, d, pivot, levels, dl);
        let r = resolve_step(r1, l, pivot, levels, dl);
        assert(0 <= l.var_spec() < st.4.len()) by {
            assert(lits[lits.len() - 1] == l);
        }
        assert forall|k: int| 0 <= k < lits.len() && lits[k] != pivot && (#[trigger] lits[k]).var_spec() != pivot.var_spec()
            implies r.4[lits[k].var_spec() as int] != Assignment(0) by {
            if k < lits.len() - 1 {
                assert(d[k] == lits[k]);
            }
        }
    }
}

/// What the analysis state `st` says of a model `m`: a frontier literal is true
/// in `m`, or a marked trail position in `start..hi` holds a literal false in `m`.
/// It is the learned clause so far holding in `m`.
pub open spec fn scan_holds(st: ScanState, t: Seq<Lit>, m: spec_fn(nat) -> bool, start: int, hi: int) -> bool {
    ||| exists|k: int| 0 <= k < st.0.len() && #[trigger] lit_holds(m, st.0[k])
    ||| exists|q: int| start <= q < hi && marked_at(t, st.4, q) && !lit_holds(m, #[trigger] t[q])
}

/// A clause literal true in `m` whose variable is marked makes the state hold in
/// `m`: at the conflict level its trail position holds its negation, below it the
/// frontier holds the literal itself.
pub proof fn lemma_marked_true_lit(st: ScanState, l: Lit, t: Seq<Lit>, vals: Seq<Assignment>, levels: Seq<u32>, n: int, dl: int, start: int, hi: int, m: spec_fn(nat) -> bool)
    requires
        window_ok(t, levels, n, dl, start),
        scan_ok(st, t, vals, levels, n, dl, start, hi),
        forall|q: int| start <= q < t.len() ==> lit_true(vals, #[trigger] t[q]),
        l.var_spec() < n,
        lit_false(vals, l),
        st.4[l.var_spec() as int] != Assignment(0),
        lit_holds(m, l),
    ensures
        scan_holds(st, t, m, start, hi),
{
    let v = l.var_spec() as int;
    crate::lit::lemma_neg_involution(l);
    if levels[v] == dl {
        let q = choose|q: int| start <= q < hi && #[trigger] t[q].var_spec() == v;
        assert(lit_true(vals, t[q]));
        crate::lit::lemma_lit_determined(t[q], l.opposite());
        assert(t[q] == l.opposite());
        assert(marked_at(t, st.4, q));
        assert(!lit_holds(m, t[q]));
    } else {
        let k = choose|k: int| 0 <= k < st.0.len() && #[trigger] st.0[k].var_spec() == v;
        assert(frontier_lit_ok(st.0[k], st.4, vals, levels, n, dl));
        crate::lit::lemma_lit_determined(st.0[k], l);
        assert(st.0[k] == l);
        assert(lit_holds(m, st.0[k]));
    }
}

/// Resolving with a clause that holds in `m` keeps the state holding in `m`.
pub proof fn lemma_resolve_holds(st: ScanState, lits: Seq<Lit>, pivot: Lit, t: Seq<Lit>, vals: Seq<Assignment>, levels: Seq<u32>, n: int, dl: int, start: int, hi: int, m: spec_fn(nat) -> bool)
    requires
        window_ok(t, levels, n, dl, start),
        scan_ok(st, t, vals, levels, n, dl, start, hi),
        forall|q: int| start <= q < t.len() ==> lit_true(vals, #[trigger] t[q]),
        start < hi,
        pivot == t[hi - 1],
        st.4[pivot.var_spec() as int] != Assignment(0),
        distinct_vars(lits),
        lits.contains(pivot),
        forall|k: int| 0 <= k < lits.len() && lits[k] != pivot ==> clause_lit_ok(#[trigger] lits[k], t, vals, n, hi),
        scan_holds(st, t, m, start, hi),
        clause_holds(m, lits),
    ensures
        scan_holds(resolve_scan(st, lits, pivot, levels, dl), t, m, start, hi),
{
    let r = resolve_scan(st, lits, pivot, levels, dl);
    let pv = pivot.var_spec() as int;
    assert forall|k: int| 0 <= k < lits.len() implies 0 <= (#[trigger] lits[k]).var_spec() < st.4.len() by {
        if lits[k] != pivot {
            assert(clause_lit_ok(lits[k], t, vals, n, hi));
        }
    }
    lemma_resolve_scan_marks(st, lits, pivot, levels, dl);
    lemma_resolve_scan_ok(st, lits, pivot, t, vals, levels, n, dl, start, hi);
    if exists|k: int| 0 <= k < st.0.len() && #[trigger] lit_holds(m, st.0[k]) {
        let k = choose|k: int| 0 <= k < st.0.len() && #[trigger] lit_holds(m, st.0[k]);
        assert(r.0[k] == st.0[k]);
        assert(lit_holds(m, r.0[k]));
    } else {
        let q = choose|q: int| start <= q < hi && marked_at(t, st.4, q) && !lit_holds(m, #[trigger] t[q]);
        if q != hi - 1 {
            assert(t[q].var_spec() != t[hi - 1].var_spec());
            assert(marked_at(t, r.4, q));
        } else {
            let j = choose|j: int| 0 <= j < lits.len() && #[trigger] lit_holds(m, lits[j]);
            assert(lits[j] != pivot);
            let ip = choose|ip: int| 0 <= ip < lits.len() && lits[ip] == pivot;
            assert(j != ip);
            assert(lits[j].var_spec() != lits[ip].var_spec());
            assert(clause_lit_ok(lits[j], t, vals, n, hi));
            lemma_marked_true_lit(r, lits[j], t, vals, levels, n, dl, start, hi, m);
        }
    }
}

/// With the pivot's position `hi - 1` unmarked, the state holds in `m` over
/// `start..hi - 1` as over `start..hi`.
pub proof fn lemma_holds_shrink(st: ScanState, t: Seq<Lit>, m: spec_fn(nat) -> bool, start: int, hi: int)
    requires
        scan_holds(st, t, m, start, hi),
        !marked_at(t, st.4, hi - 1),
    ensures
        scan_holds(st, t, m, start, hi - 1),
{
    if !(exists|k: int| 0 <= k < st.0.len() && #[trigger] lit_holds(m, st.0[k])) {
        let q = choose|q: int| start <= q < hi && marked_at(t, st.4, q) && !lit_holds(m, #[trigger] t[q]);
        assert(q != hi - 1);
    }
}

/// The state that starts the analysis of a conflict clause holding in `m` holds
/// in `m`.
pub proof fn lemma_conflict_holds(lits: Seq<Lit>, seen0: Seq<Assignment>, t: Seq<Lit>, vals: Seq<Assignment>, levels: Seq<u32>, n: int, dl: int, start: int, m: spec_fn(nat) -> bool)
    requires
        window_ok(t, levels, n, dl, start),
        seen0.len() == n,
        forall|v: int| 0 <= v < n ==> #[trigger] seen0[v] == Assignment(0),
        distinct_vars(lits),
        forall|k: int| 0 <= k < lits.len() ==> clause_lit_ok(#[trigger] lits[k], t, vals, n, t.len() as int),
        forall|q: int| start <= q < t.len() ==> lit_true(vals, #[trigger] t[q]),
        clause_holds(m, lits),
    ensures
        scan_holds(conflict_scan((Seq::empty(), 0, 0, 0, seen0), lits, levels, dl), t, m, start, t.len() as int),
{
    lemma_conflict_scan_ok(lits, seen0, t, vals, levels, n, dl, start);
    let st = conflict_scan((Seq::empty(), 0, 0, 0, seen0), lits, levels, dl);
    let j = choose|j: int| 0 <= j < lits.len() && #[trigger] lit_holds(m, lits[j]);
    assert(clause_lit_ok(lits[j], t, vals, n, t.len() as int));
    assert(exists|k: int| 0 <= k < lits.len() && lits[k].var_spec() == lits[j].var_spec());
    lemma_marked_true_lit(st, lits[j], t, vals, levels, n, dl, start, t.len() as int, m);
}

/// The learned clause built from a final state holding in `m` holds in `m`.
pub proof fn lemma_learned_holds(st: ScanState, t: Seq<Lit>, vals: Seq<Assignment>, levels: Seq<u32>, n: int, dl: int, start: int, hi: int, r: int, x: Lit, m: spec_fn(nat) -> bool)
    requires
        window_ok(t, levels, n, dl, start),
        scan_ok(st, t, vals, levels, n, dl, start, hi),
        st.1 == 1,
        start <= r < hi,
        x == t[r],
        marked_at(t, st.4, r),
        scan_holds(st, t, m, start, hi),
    ensures
        clause_holds(m, finalized(st.0, x.opposite(), st.2)),
{
    let f = st.0;
    let f2 = finalized(f, x.opposite(), st.2);
    let mm = f.len() as int;
    lemma_finalized(f, x.opposite(), st.2);
    lemma_count_marked_one(t, st.4, start, hi, r);
    crate::lit::lemma_neg_involution(x);
    if exists|k: int| 0 <= k < f.len() && #[trigger] lit_holds(m, f[k]) {
        let k = choose|k: int| 0 <= k < f.len() && #[trigger] lit_holds(m, f[k]);
        let k2 = finalized_pos(mm, st.2, k);
        assert(f2[k2] == f[k]);
        assert(lit_holds(m, f2[k2]));
    } else {
        let q = choose|q: int| start <= q < hi && marked_at(t, st.4, q) && !lit_holds(m, #[trigger] t[q]);
        assert(q == r);
        assert(lit_holds(m, f2[0]));
    }
}

} // verus!
