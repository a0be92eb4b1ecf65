//! Conflict analysis state: the literals of the clause being learned and the
//! bookkeeping needed to find the first unique implication point.
use vstd::prelude::*;

use crate::analysis::finalized;
use crate::assignment::Assignment;
use crate::clause_db::{distinct_vars, ClauseId};
use crate::lit::Lit;
use crate::variables::VariableDb;
use crate::watchers::{Watcher, WatchersDb};

verus! {

/// The analysis state as a value: the frontier (the literals below the conflict
/// level collected so far), the number of marked literals at the conflict level,
/// the frontier index and the level of the highest-level frontier literal, and the
/// marks of all variables.
pub type ScanState = (Seq<Lit>, int, int, int, Seq<Assignment>);

/// One step of `new_conflict`: mark the literal's variable, then count the literal
/// when it is at the conflict level `dl`, or add it to the frontier otherwise,
/// remembering it if its level is the highest seen so far.
pub open spec fn conflict_step(st: ScanState, l: Lit, levels: Seq<u32>, dl: int) -> ScanState {
    let v = l.var_spec() as int;
    let seen = st.4.update(v, Assignment::of_bool(l.is_pos_spec()));
    let lvl = levels[v] as int;
    if lvl == dl {
        (st.0, st.1 + 1, st.2, st.3, seen)
    } else if st.3 < lvl {
        (st.0.push(l), st.1, st.0.len() as int, lvl, seen)
    } else {
        (st.0.push(l), st.1, st.2, st.3, seen)
    }
}

/// `new_conflict`'s scan of `lits`, from state `st`.
pub open spec fn conflict_scan(st: ScanState, lits: Seq<Lit>, levels: Seq<u32>, dl: int) -> ScanState
    decreases lits.len(),
{
    if lits.len() == 0 {
        st
    } else {
        conflict_step(conflict_scan(st, lits.drop_last(), levels, dl), lits.last(), levels, dl)
    }
}

/// One step of `resolve`: the pivot is unmarked and uncounted; a literal whose
/// variable is already marked is skipped; any other literal is marked and then
/// counted or added to the frontier as in `conflict_step`.
pub open spec fn resolve_step(st: ScanState, l: Lit, pivot: Lit, levels: Seq<u32>, dl: int) -> ScanState {
    let v = l.var_spec() as int;
    if l == pivot {
        (st.0, st.1 - 1, st.2, st.3, st.4.update(v, Assignment(0)))
    } else if st.4[v] != Assignment(0) {
        st
    } else {
        let seen = st.4.update(v, Assignment::of_bool(l.is_pos_spec()));
        let lvl = levels[v] as int;
        if lvl == dl {
            (st.0, st.1 + 1, st.2, st.3, seen)
        } else if lvl > st.3 {
            (st.0.push(l), st.1, st.0.len() as int, lvl, seen)
        } else {
            (st.0.push(l), st.1, st.2, st.3, seen)
        }
    }
}

/// `resolve`'s scan of `lits`, from state `st`.
pub open spec fn resolve_scan(st: ScanState, lits: Seq<Lit>, pivot: Lit, levels: Seq<u32>, dl: int) -> ScanState
    decreases lits.len(),
{
    if lits.len() == 0 {
        st
    } else {
        resolve_step(resolve_scan(st, lits.drop_last(), pivot, levels, dl), lits.last(), pivot, levels, dl)
    }
}

/// How many times `x` occurs in `s`.
pub open spec fn occurrences(s: Seq<Lit>, x: Lit) -> nat
    decreases s.len(),
{
    if s.len() == 0 {
        0
    } else {
        occurrences(s.drop_last(), x) + if s.last() == x {
            1nat
        } else {
            0nat
        }
    }
}

/// The clause being learned during conflict analysis.
pub struct ConflictInfo {
    frontier: Vec<Lit>,
    decision_level: u32,
    num_lit_in_level: usize,
    latest_non_uip: usize,
    latest_non_uip_level: u32,
}

impl ConflictInfo {
    /// The frontier: the literals of the learned clause collected so far.
    pub closed spec fn frontier_seq(self) -> Seq<Lit> {
        self.frontier@
    }

    /// The level of the conflict.
    pub closed spec fn level_spec(self) -> u32 {
        self.decision_level
    }

    /// The number of marked literals at the conflict level.
    pub closed spec fn num_spec(self) -> usize {
        self.num_lit_in_level
    }

    /// The frontier index of the highest-level frontier literal.
    pub closed spec fn lnu_spec(self) -> usize {
        self.latest_non_uip
    }

    /// The level of the highest-level frontier literal.
    pub closed spec fn lnu_level_spec(self) -> u32 {
        self.latest_non_uip_level
    }

    /// The analysis state with the marks `seen`.
    pub open spec fn scan_state(self, seen: Seq<Assignment>) -> ScanState {
        (self.frontier_seq(), self.num_spec() as int, self.lnu_spec() as int, self.lnu_level_spec() as int, seen)
    }

    /// An empty analysis state.
    pub fn new() -> (c: ConflictInfo)
        ensures
            c.frontier_seq() == Seq::<Lit>::empty(),
            c.level_spec() == 0,
            c.num_spec() == 0,
            c.lnu_spec() == 0,
            c.lnu_level_spec() == 0,
    {
        ConflictInfo {
            frontier: Vec::new(),
            decision_level: 0,
            num_lit_in_level: 0,
            latest_non_uip: 0,
            latest_non_uip_level: 0,
        }
    }

    /// The literals of the learned clause collected so far.
    pub fn frontier(&self) -> (f: &Vec<Lit>)
        ensures
            f@ == self.frontier_seq(),
    {
        &self.frontier
    }

    /// The number of marked literals at the conflict level.
    pub fn num_lit_in_level(&self) -> (n: usize)
        ensures
            n == self.num_spec(),
    {
        self.num_lit_in_level
    }

    /// The frontier index of the highest-level frontier literal.
    pub fn latest_non_uip(&self) -> (i: usize)
        ensures
            i == self.lnu_spec(),
    {
        self.latest_non_uip
    }

    /// The level of the highest-level frontier literal.
    pub fn latest_non_uip_level(&self) -> (l: u32)
        ensures
            l == self.lnu_level_spec(),
    {
        self.latest_non_uip_level
    }

    /// The level of the conflict.
    pub fn decision_level(&self) -> (l: u32)
        ensures
            l == self.level_spec(),
    {
        self.decision_level
    }

    /// Starts the analysis of a conflict at `decision_level` on the clause
    /// `conflict_literals`: every literal's variable is marked; the literals at the
    /// conflict level are counted, the others form the frontier.
    pub fn new_conflict(&mut self, variables: &mut VariableDb, decision_level: u32, conflict_literals: &[Lit])
        requires
            old(variables).wf(),
            forall|k: int| 0 <= k < conflict_literals@.len() ==> #[trigger] conflict_literals@[k].var_spec() < old(variables).num_vars(),
        ensures
            final(variables).wf(),
            final(variables).num_vars() == old(variables).num_vars(),
            final(variables).values_seq() == old(variables).values_seq(),
            final(variables).level_seq() == old(variables).level_seq(),
            final(variables).reason_seq() == old(variables).reason_seq(),
            final(self).level_spec() == decision_level,
            final(self).scan_state(final(variables).seen_seq()) == conflict_scan(
                (Seq::empty(), 0, 0, 0, old(variables).seen_seq()),
                conflict_literals@,
                old(variables).level_seq(),
                decision_level as int,
            ),
    {
        self.frontier.clear();
        self.decision_level = decision_level;
        self.latest_non_uip_level = 0;
        self.latest_non_uip = 0;
        self.num_lit_in_level = 0;
        let n = conflict_literals.len();
        let ghost levels = old(variables).level_seq();
        let ghost dl = decision_level as int;
        let ghost st0: ScanState = (Seq::empty(), 0, 0, 0, old(variables).seen_seq());
        for i in 0..n
            invariant
                n == conflict_literals@.len(),
                variables.wf(),
                variables.num_vars() == old(variables).num_vars(),
                variables.values_seq() == old(variables).values_seq(),
                variables.level_seq() == levels,
                variables.reason_seq() == old(variables).reason_seq(),
                self.decision_level == decision_level,
                dl == decision_level as int,
                forall|k: int| 0 <= k < conflict_literals@.len() ==> #[trigger] conflict_literals@[k].var_spec() < old(variables).num_vars(),
                self.num_lit_in_level <= i,
                self.frontier@.len() <= i,
                self.scan_state(variables.seen_seq()) == conflict_scan(st0, conflict_literals@.subrange(0, i as int), levels, dl),
        {
            let lit = conflict_literals[i];
            proof {
                assert(conflict_literals@.subrange(0, i + 1).drop_last() =~= conflict_literals@.subrange(0, i as int));
                assert(conflict_literals@.subrange(0, i + 1).last() == lit);
            }
            let ghost prev = conflict_scan(st0, conflict_literals@.subrange(0, i as int), levels, dl);
            variables.set_seen(lit.var(), Assignment::from_lit(lit));
            let lit_level = variables.get_level(lit.var());
            if lit_level == self.decision_level {
                self.num_lit_in_level += 1;
            } else {
                if self.latest_non_uip_level < lit_level {
                    self.latest_non_uip_level = lit_level;
                    self.latest_non_uip = self.frontier.len();
                }
                self.frontier.push(lit);
            }
            proof {
                let next = conflict_step(prev, lit, levels, dl);
                assert(conflict_scan(st0, conflict_literals@.subrange(0, i + 1), levels, dl) == next);
            }
        }
        proof {
            assert(conflict_literals@.subrange(0, n as int) =~= conflict_literals@);
        }
    }

    /// Resolves the learned clause with `literals`, the reason clause of `pivot`:
    /// the pivot's variable is unmarked and uncounted; every literal whose variable
    /// is not yet marked is marked and then counted (at the conflict level) or added
    /// to the frontier (below it).
    pub fn resolve(&mut self, variables: &mut VariableDb, literals: &[Lit], pivot: Lit)
        requires
            old(variables).wf(),
            forall|k: int| 0 <= k < literals@.len() ==> #[trigger] literals@[k].var_spec() < old(variables).num_vars(),
            occurrences(literals@, pivot) <= old(self).num_spec(),
            old(self).num_spec() + literals@.len() <= usize::MAX + occurrences(literals@, pivot),
            old(self).frontier_seq().len() + literals@.len() <= usize::MAX,
        ensures
            final(variables).wf(),
            final(variables).num_vars() == old(variables).num_vars(),
            final(variables).values_seq() == old(variables).values_seq(),
            final(variables).level_seq() == old(variables).level_seq(),
            final(variables).reason_seq() == old(variables).reason_seq(),
            final(self).level_spec() == old(self).level_spec(),
            final(self).scan_state(final(variables).seen_seq()) == resolve_scan(
                old(self).scan_state(old(variables).seen_seq()),
                literals@,
                pivot,
                old(variables).level_seq(),
                old(self).level_spec() as int,
            ),
    {
        let n = literals.len();
        let ghost levels = old(variables).level_seq();
        let ghost dl = self.decision_level as int;
        let ghost st0 = old(self).scan_state(old(variables).seen_seq());
        proof {
            assert(literals@.subrange(0, n as int) =~= literals@);
            assert(literals@.subrange(0, 0) =~= Seq::<Lit>::empty());
            assert(occurrences(literals@.subrange(0, 0), pivot) == 0);
        }
        let mut i: usize = 0;
        while i < n
            invariant
                0 <= i <= n,
                n == literals@.len(),
                variables.wf(),
                variables.num_vars() == old(variables).num_vars(),
                variables.values_seq() == old(variables).values_seq(),
                variables.level_seq() == levels,
                variables.reason_seq() == old(variables).reason_seq(),
                self.decision_level == old(self).decision_level,
                dl == self.decision_level as int,
                forall|k: int| 0 <= k < literals@.len() ==> #[trigger] literals@[k].var_spec() < old(variables).num_vars(),
                occurrences(literals@, pivot) <= old(self).num_spec(),
                old(self).num_spec() + literals@.len() <= usize::MAX + occurrences(literals@, pivot),
                old(self).frontier_seq().len() + literals@.len() <= usize::MAX,
                occurrences(literals@.subrange(i as int, n as int), pivot) <= self.num_lit_in_level,
                self.num_lit_in_level + occurrences(literals@.subrange(0, i as int), pivot) <= old(self).num_spec() + i,
                occurrences(literals@.subrange(0, i as int), pivot) + occurrences(literals@.subrange(i as int, n as int), pivot) == occurrences(literals@, pivot),
                self.frontier@.len() <= old(self).frontier_seq().len() + i,
                self.scan_state(variables.seen_seq()) == resolve_scan(st0, literals@.subrange(0, i as int), pivot, levels, dl),
            decreases n - i,
        {
            let clause_lit = literals[i];
            proof {
                assert(literals@.subrange(0, i + 1).drop_last() =~= literals@.subrange(0, i as int));
                assert(literals@.subrange(0, i + 1).last() == clause_lit);
                lemma_occurrences_split(literals@, i as int, pivot);
                lemma_occurrences_le_len(literals@.subrange(i + 1, n as int), pivot);
            }
            if clause_lit == pivot {
                self.num_lit_in_level -= 1;
                variables.reset_seen(clause_lit.var());
                i = i + 1;
                continue;
            }
            if !variables.get_seen(clause_lit.var()).is_empty() {
                i = i + 1;
                continue;
            }
            variables.set_seen(clause_lit.var(), Assignment::from_lit(clause_lit));
            let clause_lit_level = variables.get_level(clause_lit.var());
            if clause_lit_level == self.decision_level {
                self.num_lit_in_level += 1;
                i = i + 1;
                continue;
            }
            if clause_lit_level > self.latest_non_uip_level {
                self.latest_non_uip = self.frontier.len();
                self.latest_non_uip_level = clause_lit_level;
            }
            variables.set_seen(clause_lit.var(), Assignment::from_lit(clause_lit));
            self.frontier.push(clause_lit);
            i = i + 1;
        }
        proof {
            assert(literals@.subrange(0, n as int) =~= literals@);
        }
    }

    /// Finds, going down from `trail_index`, the first trail position whose variable
    /// is marked; returns 0 when there is none.
    pub fn find_trail_index_before(&self, variables: &mut VariableDb, trail: &[Lit], trail_index: usize) -> (r: usize)
        requires
            old(variables).wf(),
            trail_index < trail@.len(),
            forall|k: int| 0 <= k < trail@.len() ==> #[trigger] trail@[k].var_spec() < old(variables).num_vars(),
        ensures
            *final(variables) == *old(variables),
            r <= trail_index,
            forall|j: int| r < j <= trail_index ==> old(variables).seen_seq()[#[trigger] trail@[j].var_spec() as int] == Assignment(0),
            old(variables).seen_seq()[trail@[r as int].var_spec() as int] != Assignment(0) || r == 0,
    {
        let mut idx = trail_index;
        loop
            invariant
                variables.wf(),
                idx <= trail_index,
                trail_index < trail@.len(),
                forall|k: int| 0 <= k < trail@.len() ==> #[trigger] trail@[k].var_spec() < variables.num_vars(),
                forall|j: int| idx < j <= trail_index ==> variables.seen_seq()[#[trigger] trail@[j].var_spec() as int] == Assignment(0),
            decreases idx,
        {
            let trail_var = trail[idx].var();
            if !variables.get_seen(trail_var).is_empty() {
                return idx;
            }
            if idx == 0 {
                return 0;
            }
            idx = idx - 1;
        }
    }

    /// Completes the learned clause with the negation of the unique implication
    /// point `uip_lit`, which is placed first; the literal that was first moves to
    /// the end. When the frontier was not empty, the literal of the highest level
    /// among the others is then exchanged with the second one, whose index becomes
    /// the highest-level index.
    pub fn finalize_clause(&mut self, uip_lit: Lit)
        requires
            old(self).frontier_seq().len() < usize::MAX,
            old(self).frontier_seq().len() > 0 ==> old(self).lnu_spec() < old(self).frontier_seq().len(),
        ensures
            final(self).level_spec() == old(self).level_spec(),
            final(self).num_spec() == old(self).num_spec(),
            final(self).lnu_level_spec() == old(self).lnu_level_spec(),
            final(self).frontier_seq() == finalized(old(self).frontier_seq(), uip_lit.opposite(), old(self).lnu_spec() as int),
            old(self).frontier_seq().len() == 0 ==> final(self).lnu_spec() == old(self).lnu_spec(),
            old(self).frontier_seq().len() > 0 ==> final(self).lnu_spec() == 1,
    {
        let ghost f = self.frontier@;
        let last_frontier_index = self.frontier.len();
        self.frontier.push(uip_lit.negate());
        if last_frontier_index == 0 {
            return;
        }
        let a = self.frontier[0];
        let b = self.frontier[last_frontier_index];
        self.frontier.set(0, b);
        self.frontier.set(last_frontier_index, a);
        if self.latest_non_uip == 0 {
            self.latest_non_uip = last_frontier_index;
        }
        let p = self.latest_non_uip;
        let x = self.frontier[p];
        let y = self.frontier[1];
        self.frontier.set(p, y);
        self.frontier.set(1, x);
        self.latest_non_uip = 1;
        proof {
            assert(self.frontier@ =~= finalized(f, uip_lit.opposite(), old(self).lnu_spec() as int));
        }
    }

    /// Adds watches of the learned clause `clause_id` on its first two literals
    /// (only on the first when it has one literal).
    pub fn add_watches(&self, watchers: &mut WatchersDb, clause_id: ClauseId)
        requires
            old(watchers).wf(),
            self.frontier_seq().len() >= 1,
        ensures
            final(watchers).wf(),
            forall|l: Lit| #[trigger] final(watchers).watch_list(l) == if self.frontier_seq().len() > 1 {
                if l == self.frontier_seq()[0] && l == self.frontier_seq()[1] {
                    old(watchers).watch_list(l).push(Watcher { clause: clause_id }).push(Watcher { clause: clause_id })
                } else if l == self.frontier_seq()[0] || l == self.frontier_seq()[1] {
                    old(watchers).watch_list(l).push(Watcher { clause: clause_id })
                } else {
                    old(watchers).watch_list(l)
                }
            } else if l == self.frontier_seq()[0] {
                old(watchers).watch_list(l).push(Watcher { clause: clause_id })
            } else {
                old(watchers).watch_list(l)
            },
    {
        watchers.add_watch(self.frontier[0], Watcher { clause: clause_id });
        if self.frontier.len() > 1 {
            watchers.add_watch(self.frontier[1], Watcher { clause: clause_id });
        }
    }
}

impl Default for ConflictInfo {
    fn default() -> (c: ConflictInfo)
        ensures
            c.frontier_seq() == Seq::<Lit>::empty(),
            c.level_spec() == 0,
            c.num_spec() == 0,
            c.lnu_spec() == 0,
            c.lnu_level_spec() == 0,
    {
        ConflictInfo::new()
    }
}

/// Occurrences split at any position.
pub proof fn lemma_occurrences_split(s: Seq<Lit>, i: int, x: Lit)
    requires
        0 <= i < s.len(),
    ensures
        occurrences(s.subrange(0, i + 1), x) == occurrences(s.subrange(0, i), x) + if s[i] == x { 1nat } else { 0nat },
        occurrences(s.subrange(i, s.len() as int), x) == occurrences(s.subrange(i + 1, s.len() as int), x) + if s[i] == x { 1nat } else { 0nat },
        occurrences(s.subrange(0, i + 1), x) + occurrences(s.subrange(i + 1, s.len() as int), x)
            == occurrences(s.subrange(0, i), x) + occurrences(s.subrange(i, s.len() as int), x),
{
    assert(s.subrange(0, i + 1).drop_last() =~= s.subrange(0, i));
    lemma_occurrences_front(s.subrange(i, s.len() as int), x);
    assert(s.subrange(i, s.len() as int).subrange(1, s.len() - i) =~= s.subrange(i + 1, s.len() as int));
}

/// Occurrences counted from the front.
pub proof fn lemma_occurrences_front(s: Seq<Lit>, x: Lit)
    requires
        s.len() > 0,
    ensures
        occurrences(s, x) == occurrences(s.subrange(1, s.len() as int), x) + if s[0] == x { 1nat } else { 0nat },
    decreases s.len(),
{
    if s.len() > 1 {
        lemma_occurrences_front(s.drop_last(), x);
        assert(s.drop_last().subrange(1, s.len() - 1) =~= s.subrange(1, s.len() as int).drop_last());
    } else {
        assert(s.drop_last() =~= Seq::<Lit>::empty());
        assert(s.subrange(1, s.len() as int) =~= Seq::<Lit>::empty());
    }
}

/// A sequence holds a value at most as many times as it is long.
pub proof fn lemma_occurrences_le_len(s: Seq<Lit>, x: Lit)
    ensures
        occurrences(s, x) <= s.len(),
    decreases s.len(),
{
    if s.len() > 0 {
        lemma_occurrences_le_len(s.drop_last(), x);
    }
}

/// In a sequence of distinct variables a literal occurs once if it occurs at all.
pub proof fn lemma_occurrences_distinct(s: Seq<Lit>, x: Lit)
    requires
        distinct_vars(s),
    ensures
        occurrences(s, x) == if s.contains(x) { 1nat } else { 0nat },
    decreases s.len(),
{
    if s.len() > 0 {
        let d = s.drop_last();
        assert(distinct_vars(d)) by {
            assert forall|i: int, j: int| 0 <= i < d.len() && 0 <= j < d.len() && i != j implies #[trigger] d[i].var_spec() != #[trigger] d[j].var_spec() by {
                assert(d[i] == s[i] && d[j] == s[j]);
            }
        }
        lemma_occurrences_distinct(d, x);
        if s.last() == x {
            assert(!d.contains(x)) by {
                if d.contains(x) {
                    let k = choose|k: int| 0 <= k < d.len() && d[k] == x;
                    assert(s[k].var_spec() != s[s.len() - 1].var_spec());
                }
            }
            assert(s[s.len() - 1] == x);
        } else {
            assert(s.contains(x) <==> d.contains(x)) by {
                if s.contains(x) {
                    let k = choose|k: int| 0 <= k < s.len() && s[k] == x;
                    assert(k != s.len() - 1);
                    assert(d[k] == x);
                }
                if d.contains(x) {
                    let k = choose|k: int| 0 <= k < d.len() && d[k] == x;
                    assert(s[k] == x);
                }
            }
        }
    } else {
        assert(!s.contains(x));
    }
}

} // verus!
