//! The CDCL search: clause addition, unit propagation with two watched literals,
//! decisions, conflict analysis to the first unique implication point, and
//! backjumping.
use vstd::prelude::*;

use crate::clause_db::{
    dedup, distinct_vars, is_tautology, lemma_dedup_contains, lemma_dedup_distinct_vars, lemma_dedup_of_distinct,
    lemma_dedup_len, lemma_distinct_vars_len, lemma_distinct_vars_len_excluding, lemma_swap_contents, swap_spec,
};
use crate::analysis::{
    lemma_conflict_scan_ok, lemma_count_marked_le, lemma_count_marked_pos, lemma_count_marked_witness, lemma_resolve_scan_ok, lemma_scan_shrink,
    marked_at, scan_ok, window_ok, clause_lit_ok, finalized, frontier_lit_ok,
    lemma_learned, lemma_conflict_holds, lemma_resolve_holds, lemma_holds_shrink, lemma_learned_holds, scan_holds,
};
pub use crate::assignment::Assignment;
pub use crate::clause_db::{ClauseAccessor, ClauseDb, ClauseId, NULL_CLAUSE};
pub use crate::conflict::ConflictInfo;
pub use crate::lit::{to_lits, Lit, MAX_VAR};
pub use crate::variables::VariableDb;
pub use crate::watchers::{Watcher, WatchersDb};
use crate::conflict::{conflict_scan, lemma_occurrences_distinct, resolve_scan, ScanState};
use crate::lit::{lemma_lit_determined, lemma_neg_involution};
use crate::semantics::{
    clause_holds, clause_implied, entails, implied, lemma_clause_holds_dedup, lemma_clause_holds_swap, lemma_entails_push, lemma_entails_trans, lemma_models_push,
    lit_holds, models,
};
use crate::progress::{
    lemma_progress_grow, lemma_progress_same, lemma_progress_split, lemma_progress_tail, lemma_progress_upper,
    lemma_weight_pos, progress, search_bound,
};
use crate::text::{assignment_line, push_all, push_assignment_line, sat_text, unknown_text, unsat_text};

verus! {

/// The outcome of a search.
#[derive(Debug, PartialEq, Eq, Structural)]
pub enum SolveResult {
    /// The clauses have a model, which the solver holds.
    Sat,
    /// The clauses have no model.
    Unsat,
    /// The search stopped before an answer: a conflict came when the store
    /// could take no more clause (their ids are `u32`). One search stores at
    /// most `search_bound` of the variable count clauses, so this needs a store
    /// already close to full or very many variables.
    Unknown,
}

/// The variable holds a value (true or false).
pub open spec fn is_assigned(a: Assignment) -> bool {
    a.0 == 1 || a.0 == 2
}

/// The state of literal `l` under the variable values `vals`.
pub open spec fn lit_state(vals: Seq<Assignment>, l: Lit) -> Assignment {
    if l.is_pos_spec() {
        vals[l.var_spec() as int]
    } else {
        vals[l.var_spec() as int].negated_spec()
    }
}

/// `l` is true under `vals`.
pub open spec fn lit_true(vals: Seq<Assignment>, l: Lit) -> bool {
    vals[l.var_spec() as int] == Assignment::of_bool(l.is_pos_spec())
}

/// `l` is false under `vals`.
pub open spec fn lit_false(vals: Seq<Assignment>, l: Lit) -> bool {
    vals[l.var_spec() as int] == Assignment::of_bool(!l.is_pos_spec())
}

/// The number of entries of `d` that are at most `p`: the decision level of trail
/// position `p` when `d` holds the positions of the decisions.
pub open spec fn count_le(d: Seq<usize>, p: int) -> nat
    decreases d.len(),
{
    if d.len() == 0 {
        0
    } else {
        count_le(d.drop_last(), p) + if d.last() <= p {
            1nat
        } else {
            0nat
        }
    }
}

/// Some trail position below `bound` holds a literal of variable `v`.
pub open spec fn on_trail_below(t: Seq<Lit>, v: int, bound: int) -> bool {
    exists|q: int| 0 <= q < bound && q < t.len() && #[trigger] t[q].var_spec() == v
}

/// Some trail literal of variable `v` is true under `vals`.
pub open spec fn value_on_trail(t: Seq<Lit>, vals: Seq<Assignment>, v: int) -> bool {
    exists|q: int| 0 <= q < t.len() && (#[trigger] t[q]).var_spec() == v && lit_true(vals, t[q])
}

/// A CDCL solver.
pub struct Solver {
    clauses: ClauseDb,
    watchers: WatchersDb,
    variables: VariableDb,
    trail_lim: Vec<usize>,
    trail: Vec<Lit>,
    conflict_cache: ConflictInfo,
    formula: Ghost<Seq<Seq<Lit>>>,
}

impl Solver {
    /// The value of each variable.
    pub closed spec fn values(self) -> Seq<Assignment> {
        self.variables.values_seq()
    }

    /// The number of variables.
    pub closed spec fn nvars(self) -> nat {
        self.variables.num_vars()
    }

    /// There is one value per variable.
    pub proof fn lemma_nvars(self)
        ensures
            self.nvars() == self.values().len(),
    {
    }

    /// The stored clauses (the clauses of length two or more given to `add_clause`, then the
    /// learned ones).
    pub closed spec fn clause_seqs(self) -> Seq<Seq<Lit>> {
        self.clauses.clauses()
    }

    /// The assigned literals, in assignment order.
    pub closed spec fn trail_seq(self) -> Seq<Lit> {
        self.trail@
    }

    /// The trail positions of the decisions, one per decision level.
    pub closed spec fn trail_lim_seq(self) -> Seq<usize> {
        self.trail_lim@
    }

    /// The decision level of each variable's assignment.
    pub closed spec fn levels(self) -> Seq<u32> {
        self.variables.level_seq()
    }

    /// The reason of each variable's assignment.
    pub closed spec fn reasons(self) -> Seq<u32> {
        self.variables.reason_seq()
    }

    /// The watch list of literal `l`.
    pub closed spec fn watch_list_of(self, l: Lit) -> Seq<Watcher> {
        self.watchers.watch_list(l)
    }

    /// The analysis marks of the variables.
    pub closed spec fn marks(self) -> Seq<Assignment> {
        self.variables.seen_seq()
    }

    /// Where the assignments above level 0 start on the trail.
    pub closed spec fn level0_end(self) -> int {
        if self.trail_lim@.len() > 0 {
            self.trail_lim@[0] as int
        } else {
            self.trail@.len() as int
        }
    }

    /// The structure of the solver: every index in range, every value one of the
    /// three states, no variable marked, every stored clause of two or more
    /// literals over distinct variables, every watch and reason a stored clause.
    pub closed spec fn wf(self) -> bool {
        &&& self.wf_core()
        &&& forall|v: int| 0 <= v < self.variables.num_vars() ==> #[trigger] self.variables.seen_seq()[v] == Assignment(0)
    }

    /// `wf` but for the analysis marks, which conflict analysis sets.
    pub closed spec fn wf_core(self) -> bool {
        let n = self.variables.num_vars();
        &&& self.variables.wf()
        &&& self.clauses.wf()
        &&& self.watchers.wf()
        &&& n <= MAX_VAR + 1
        &&& forall|v: int| 0 <= v < n ==> 1 <= (#[trigger] self.variables.values_seq()[v]).0 <= 3
        &&& forall|id: int| 0 <= id < self.clauses.num_clauses() ==> {
            &&& (#[trigger] self.clauses.clauses()[id]).len() >= 2
            &&& distinct_vars(self.clauses.clauses()[id])
            &&& forall|k: int| 0 <= k < self.clauses.clauses()[id].len() ==> #[trigger] self.clauses.clauses()[id][k].var_spec() < n
        }
        &&& forall|l: Lit, k: int| 0 <= k < self.watchers.watch_list(l).len() ==> (#[trigger] self.watchers.watch_list(l)[k]).clause < self.clauses.num_clauses()
        &&& forall|p: int| 0 <= p < self.trail@.len() ==> (#[trigger] self.trail@[p]).var_spec() < n
        &&& forall|j: int| 0 <= j < self.trail_lim@.len() ==> #[trigger] self.trail_lim@[j] <= self.trail@.len()
        &&& self.trail_lim@.len() <= MAX_VAR + 1
        &&& forall|i: int, j: int| 0 <= i < j < self.trail_lim@.len() ==> #[trigger] self.trail_lim@[i] < #[trigger] self.trail_lim@[j]
        &&& forall|v: int| 0 <= v < n && is_assigned(self.variables.values_seq()[v]) ==> (#[trigger] self.variables.reason_seq()[v] == NULL_CLAUSE || self.variables.reason_seq()[v] < self.clauses.num_clauses())
    }

    /// The trail agrees with the variable values: every trail variable is assigned
    /// and every assigned variable is on the trail; above level 0 each variable
    /// occurs once, with the sign of its value; the level of each trail position is
    /// the number of decisions at or before it; and every propagated assignment
    /// above level 0 has a reason clause that holds it and whose other literals are
    /// false and assigned earlier, while the other assignments above level 0 are
    /// the decisions.
    pub closed spec fn trail_ok(self) -> bool {
        &&& self.trail_core()
        &&& forall|j: int| 0 <= j < self.trail_lim@.len() ==> #[trigger] self.trail_lim@[j] < self.trail@.len()
        &&& self.sem_ok()
    }

    /// Trail position `p` lies above level 0, holds a literal assigned without a
    /// reason clause, and is no decision: a clause of one literal that was added
    /// above level 0.
    pub closed spec fn is_pending(self, p: int) -> bool {
        &&& self.level0_end() <= p < self.trail@.len()
        &&& self.variables.reason_seq()[self.trail@[p].var_spec() as int] == NULL_CLAUSE
        &&& !(exists|j: int| 0 <= j < self.trail_lim@.len() && self.trail_lim@[j] == p)
    }

    /// `trail_ok`, but above level 0 a position may also hold the literal of a
    /// clause of one literal added there (see `is_pending`), which holds in every
    /// model of the formula. Every state that the public operations leave is so.
    pub closed spec fn trail_loose(self) -> bool {
        let t = self.trail@;
        let d = self.trail_lim@;
        let vals = self.variables.values_seq();
        let l0 = self.level0_end();
        &&& forall|p: int| 0 <= p < t.len() ==> is_assigned(vals[(#[trigger] t[p]).var_spec() as int])
        &&& forall|v: int| 0 <= v < self.variables.num_vars() && is_assigned(#[trigger] vals[v]) ==> on_trail_below(t, v, t.len() as int)
        &&& forall|p: int, q: int| 0 <= p < t.len() && 0 <= q < t.len() && p != q && l0 <= p ==> (#[trigger] t[p]).var_spec() != (#[trigger] t[q]).var_spec()
        &&& forall|p: int| l0 <= p < t.len() ==> lit_true(vals, #[trigger] t[p])
        &&& forall|p: int| 0 <= p < t.len() ==> self.variables.level_seq()[(#[trigger] t[p]).var_spec() as int] == count_le(d, p)
        &&& forall|p: int| l0 <= p < t.len() ==> #[trigger] self.reason_ok(p) || (self.is_pending(p) && implied(self.formula@, t[p]))
        &&& forall|j: int| 0 <= j < self.trail_lim@.len() ==> #[trigger] self.trail_lim@[j] < self.trail@.len()
        &&& self.sem_ok()
    }

    /// The clauses given to the solver, in order (learned clauses included).
    pub closed spec fn formula(self) -> Seq<Seq<Lit>> {
        self.formula@
    }

    /// The stored clauses and the assignments of level 0 hold in every model of
    /// the formula, and every assigned variable has the value of one of its trail
    /// literals.
    #[verifier::opaque]
    pub closed spec fn sem_ok(self) -> bool {
        let f = self.formula@;
        &&& forall|id: int| 0 <= id < self.clauses.num_clauses() ==> clause_implied(f, #[trigger] self.clauses.clauses()[id])
        &&& forall|p: int| 0 <= p < self.level0_end() ==> implied(f, #[trigger] self.trail@[p])
        &&& forall|v: int| 0 <= v < self.variables.num_vars() && is_assigned(#[trigger] self.variables.values_seq()[v])
            ==> value_on_trail(self.trail@, self.variables.values_seq(), v)
    }

    /// `trail_ok` but for the last decision, which may still be about to be pushed.
    pub closed spec fn trail_core(self) -> bool {
        let t = self.trail@;
        let d = self.trail_lim@;
        let vals = self.variables.values_seq();
        let l0 = self.level0_end();
        &&& forall|p: int| 0 <= p < t.len() ==> is_assigned(vals[(#[trigger] t[p]).var_spec() as int])
        &&& forall|v: int| 0 <= v < self.variables.num_vars() && is_assigned(#[trigger] vals[v]) ==> on_trail_below(t, v, t.len() as int)
        &&& forall|p: int, q: int| 0 <= p < t.len() && 0 <= q < t.len() && p != q && l0 <= p ==> (#[trigger] t[p]).var_spec() != (#[trigger] t[q]).var_spec()
        &&& forall|p: int| l0 <= p < t.len() ==> lit_true(vals, #[trigger] t[p])
        &&& forall|p: int| 0 <= p < t.len() ==> self.variables.level_seq()[(#[trigger] t[p]).var_spec() as int] == count_le(d, p)
        &&& forall|p: int| l0 <= p < t.len() ==> #[trigger] self.reason_ok(p)
    }

    /// Trail position `p` is a decision, or its reason clause holds its literal and
    /// that clause's other literals are false and assigned before `p`.
    pub closed spec fn reason_ok(self, p: int) -> bool {
        let lit = self.trail@[p];
        let r = self.variables.reason_seq()[lit.var_spec() as int];
        if r == NULL_CLAUSE {
            exists|j: int| 0 <= j < self.trail_lim@.len() && self.trail_lim@[j] == p
        } else {
            let c = self.clauses.clauses()[r as int];
            &&& c.contains(lit)
            &&& forall|k: int| 0 <= k < c.len() && c[k] != lit ==> {
                &&& lit_false(self.variables.values_seq(), #[trigger] c[k])
                &&& on_trail_below(self.trail@, c[k].var_spec() as int, p)
            }
        }
    }

    /// A solver with no clause and no variable.
    pub fn new() -> (s: Solver)
        ensures
            s.wf(),
            s.trail_ok(),
            s.nvars() == 0,
            s.clause_seqs() == Seq::<Seq<Lit>>::empty(),
            s.trail_seq() == Seq::<Lit>::empty(),
            s.trail_lim_seq() == Seq::<usize>::empty(),
            s.formula() == Seq::<Seq<Lit>>::empty(),
            s.formula_covered(),
            s.trail_loose(),
            s.formula_covered_loose(),
            vars_below(s.formula(), s.nvars()),
            forall|l: Lit| #[trigger] s.watch_list_of(l) == Seq::<Watcher>::empty(),
    {
        let s = Solver {
            clauses: ClauseDb::new(),
            watchers: WatchersDb::new(),
            variables: VariableDb::new(),
            trail_lim: Vec::new(),
            trail: Vec::new(),
            conflict_cache: ConflictInfo::new(),
            formula: Ghost(Seq::empty()),
        };
        proof {
            reveal(Solver::sem_ok);
            reveal(Solver::formula_covered);
            s.lemma_loose_of_strict();
        }
        s
    }
}

impl Solver {
    /// The literals that the accessor `c` designates.
    pub closed spec fn clause_at(self, c: ClauseAccessor) -> Seq<Lit> {
        self.clauses.accessor_lits(c)
    }

    /// `c` is the accessor of a stored clause.
    pub closed spec fn is_clause_accessor(self, c: ClauseAccessor) -> bool {
        self.clauses.is_accessor(c)
    }

    /// The trail holds at most as many positions above level 0 as there are
    /// variables, and at least one per decision.
    proof fn lemma_trail_bounds(self)
        requires
            self.wf_core(),
            self.trail_ok(),
        ensures
            self.level0_end() <= self.trail@.len(),
            self.trail@.len() - self.level0_end() <= self.variables.num_vars(),
            self.trail_lim@.len() <= self.trail@.len() - self.level0_end(),
            self.trail_lim@.len() <= MAX_VAR + 1,
    {
        let l0 = self.level0_end();
        let t = self.trail@;
        let d = self.trail_lim@;
        let seg = t.subrange(l0, t.len() as int);
        assert(distinct_vars(seg)) by {
            assert forall|i: int, j: int| 0 <= i < seg.len() && 0 <= j < seg.len() && i != j implies #[trigger] seg[i].var_spec() != #[trigger] seg[j].var_spec() by {
                assert(t[l0 + i].var_spec() != t[l0 + j].var_spec());
            }
        }
        assert forall|k: int| 0 <= k < seg.len() implies #[trigger] seg[k].var_spec() < self.variables.num_vars() by {
            assert(t[l0 + k].var_spec() < self.variables.num_vars());
        }
        lemma_distinct_vars_len(seg, self.variables.num_vars());
        if d.len() > 0 {
            lemma_increasing_spread(d);
            assert(d[d.len() - 1] >= d[0] + d.len() - 1);
        }
    }

    /// The state of literal `lit`: its variable's value, negated for a negative literal.
    fn literal_state(&self, lit: Lit) -> (a: Assignment)
        requires
            self.wf(),
            lit.var_spec() < self.nvars(),
        ensures
            a == lit_state(self.values(), lit),
            1 <= a.0 <= 3,
    {
        let assignment = self.variables.get_value(lit.var());
        if lit.is_pos() {
            assignment
        } else {
            assignment.negated()
        }
    }

    /// The first unassigned variable at or after `start`.
    fn find_first_unassigned_var(&self, start: usize) -> (r: Option<usize>)
        requires
            self.wf(),
        ensures
            match r {
                Some(i) => start <= i < self.nvars() && self.values()[i as int].0 == 3 && forall|j: int|
                    start <= j < i ==> (#[trigger] self.values()[j]).0 != 3,
                None => forall|j: int| start <= j < self.nvars() ==> (#[trigger] self.values()[j]).0 != 3,
            },
    {
        let n = self.variables.len();
        let mut i = start;
        while i < n
            invariant
                self.wf(),
                n == self.nvars(),
                start <= i,
                forall|j: int| start <= j < i ==> (#[trigger] self.values()[j]).0 != 3,
            decreases n - i,
        {
            if self.variables.get_value(i).is_unassigned() {
                return Some(i);
            }
            i = i + 1;
        }
        None
    }

    /// The index, at or after `first_lit_index`, of the first literal of the clause
    /// that is not false (true or unassigned).
    pub fn find_satisfiable_literal(&self, clause: ClauseAccessor, first_lit_index: usize) -> (r: Option<usize>)
        requires
            self.wf(),
            self.is_clause_accessor(clause),
        ensures
            match r {
                Some(i) => first_lit_index <= i < self.clause_at(clause).len() && lit_state(self.values(), self.clause_at(clause)[i as int]).has_pos()
                    && forall|j: int| first_lit_index <= j < i ==> !(#[trigger] lit_state(self.values(), self.clause_at(clause)[j])).has_pos(),
                None => forall|j: int| first_lit_index <= j < self.clause_at(clause).len() ==> !(#[trigger] lit_state(self.values(), self.clause_at(clause)[j])).has_pos(),
            },
    {
        proof {
            let id = choose|id: int| 0 <= id < self.clauses.num_clauses() && self.clauses.spec_get(id) == clause;
            self.clauses.lemma_spec_get(id);
        }
        let lits = self.clauses.literals(clause);
        let n = lits.len();
        let mut i = first_lit_index;
        while i < n
            invariant
                self.wf(),
                lits@ == self.clause_at(clause),
                n == lits@.len(),
                forall|k: int| 0 <= k < lits@.len() ==> #[trigger] lits@[k].var_spec() < self.nvars(),
                first_lit_index <= i,
                forall|j: int| first_lit_index <= j < i ==> !(#[trigger] lit_state(self.values(), lits@[j])).has_pos(),
            decreases n - i,
        {
            let state = self.literal_state(lits[i]);
            let x: u8 = state.0;
            assert(1 <= x <= 3 ==> ((x & 2u8 == 2u8) == (x >= 2u8))) by (bit_vector);
            if state.contains(Assignment::positive()) {
                return Some(i);
            }
            i = i + 1;
        }
        None
    }
}

impl Solver {
    /// Records `lit` as true, with `reason`, at the current decision level, and
    /// pushes it on the trail.
    #[verifier::rlimit(30)]
    fn set_literal(&mut self, lit: Lit, reason: u32)
        requires
            old(self).wf(),
            lit.var_spec() < old(self).nvars(),
            reason == NULL_CLAUSE || reason < old(self).clause_seqs().len(),
        ensures
            final(self).wf(),
            final(self).nvars() == old(self).nvars(),
            final(self).values() == old(self).values().update(lit.var_spec() as int, Assignment::of_bool(lit.is_pos_spec())),
            final(self).levels() == old(self).levels().update(lit.var_spec() as int, old(self).trail_lim_seq().len() as u32),
            final(self).reasons() == old(self).reasons().update(lit.var_spec() as int, reason),
            final(self).trail_seq() == old(self).trail_seq().push(lit),
            final(self).trail_lim_seq() == old(self).trail_lim_seq(),
            final(self).clause_seqs() == old(self).clause_seqs(),
            final(self).clauses == old(self).clauses,
            final(self).watchers == old(self).watchers,
            final(self).conflict_cache == old(self).conflict_cache,
            final(self).formula() == old(self).formula(),
            old(self).trail_core() && old(self).sem_ok() && (if old(self).trail_lim_seq().len() == 0 {
                implied(old(self).formula(), lit)
            } else {
                old(self).values()[lit.var_spec() as int].0 == 3 && old(self).new_reason_ok(lit, reason)
            }) ==> final(self).trail_ok(),
    {
        self.variables.set_value(lit.var(), Assignment::from_bool(lit.is_pos()));
        self.variables.set_history(lit.var(), reason, self.trail_lim.len() as u32);
        self.trail.push(lit);
        proof {
            if old(self).trail_core() && old(self).sem_ok() && (if old(self).trail_lim_seq().len() == 0 {
                implied(old(self).formula(), lit)
            } else {
                old(self).values()[lit.var_spec() as int].0 == 3 && old(self).new_reason_ok(lit, reason)
            }) {
                self.lemma_set_literal_trail_ok(*old(self), lit, reason);
            }
        }
    }

    /// Setting `lit` with `reason` at the end of the trail would give a valid reason.
    pub closed spec fn new_reason_ok(self, lit: Lit, reason: u32) -> bool {
        if reason == NULL_CLAUSE {
            self.trail_lim@.len() > 0 && self.trail_lim@[self.trail_lim@.len() - 1] == self.trail@.len()
        } else {
            let c = self.clauses.clauses()[reason as int];
            &&& c.contains(lit)
            &&& forall|k: int| 0 <= k < c.len() && c[k] != lit ==> lit_false(self.variables.values_seq(), #[trigger] c[k])
        }
    }

    /// `set_literal` keeps the trail in agreement with the values.
    #[verifier::rlimit(20)]
    proof fn lemma_set_literal_trail_ok(self, pre: Solver, lit: Lit, reason: u32)
        requires
            pre.wf(),
            pre.trail_core(),
            lit.var_spec() < pre.nvars(),
            pre.trail_lim@.len() <= MAX_VAR + 1,
            reason == NULL_CLAUSE || reason < pre.clauses.num_clauses(),
            pre.trail_lim@.len() == 0 || (pre.values()[lit.var_spec() as int].0 == 3 && pre.new_reason_ok(lit, reason)),
            pre.sem_ok(),
            pre.trail_lim@.len() == 0 ==> implied(pre.formula@, lit),
            self.formula == pre.formula,
            self.variables.wf(),
            self.variables.num_vars() == pre.variables.num_vars(),
            self.variables.values_seq() == pre.variables.values_seq().update(lit.var_spec() as int, Assignment::of_bool(lit.is_pos_spec())),
            self.variables.level_seq() == pre.variables.level_seq().update(lit.var_spec() as int, pre.trail_lim@.len() as u32),
            self.variables.reason_seq() == pre.variables.reason_seq().update(lit.var_spec() as int, reason),
            self.trail@ == pre.trail@.push(lit),
            self.trail_lim@ == pre.trail_lim@,
            self.clauses == pre.clauses,
        ensures
            self.trail_ok(),
    {
        reveal(Solver::sem_ok);
        let t = self.trail@;
        let d = self.trail_lim@;
        let v = lit.var_spec() as int;
        let n = pre.trail@.len() as int;
        let vals = self.variables.values_seq();
        let pvals = pre.variables.values_seq();
        assert(self.level0_end() == if d.len() > 0 { pre.level0_end() } else { n + 1 });
        lemma_count_le_all(d, n);
        assert forall|p: int| 0 <= p < t.len() implies is_assigned(vals[(#[trigger] t[p]).var_spec() as int]) by {
            if p < n {
                assert(t[p] == pre.trail@[p]);
            }
        }
        assert forall|w: int| 0 <= w < self.variables.num_vars() && is_assigned(#[trigger] vals[w]) implies on_trail_below(t, w, t.len() as int) by {
            if w == v {
                assert(t[n].var_spec() == w);
            } else {
                assert(on_trail_below(pre.trail@, w, n));
                let q = choose|q: int| 0 <= q < n && q < pre.trail@.len() && #[trigger] pre.trail@[q].var_spec() == w;
                assert(t[q] == pre.trail@[q]);
            }
        }
        if d.len() > 0 {
            // The variable was unassigned, so it was nowhere on the trail.
            assert forall|q: int| 0 <= q < n implies (#[trigger] pre.trail@[q]).var_spec() != v by {
                assert(is_assigned(pvals[pre.trail@[q].var_spec() as int]));
            }
            assert forall|p: int, q: int| 0 <= p < t.len() && 0 <= q < t.len() && p != q && self.level0_end() <= p implies (#[trigger] t[p]).var_spec() != (#[trigger] t[q]).var_spec() by {
                if p < n && q < n {
                    assert(t[p] == pre.trail@[p] && t[q] == pre.trail@[q]);
                } else if p < n {
                    assert(t[p] == pre.trail@[p]);
                } else {
                    assert(t[q] == pre.trail@[q]);
                }
            }
            assert forall|p: int| self.level0_end() <= p < t.len() implies lit_true(vals, #[trigger] t[p]) by {
                if p < n {
                    assert(t[p] == pre.trail@[p]);
                    assert(lit_true(pvals, pre.trail@[p]));
                }
            }
            assert forall|p: int| 0 <= p < t.len() implies self.variables.level_seq()[(#[trigger] t[p]).var_spec() as int] == count_le(d, p) by {
                if p < n {
                    assert(t[p] == pre.trail@[p]);
                }
            }
            assert forall|p: int| self.level0_end() <= p < t.len() implies #[trigger] self.reason_ok(p) by {
                if p < n {
                    assert(t[p] == pre.trail@[p]);
                    assert(pre.reason_ok(p));
                    let lp = t[p];
                    let r = self.variables.reason_seq()[lp.var_spec() as int];
                    assert(r == pre.variables.reason_seq()[lp.var_spec() as int]);
                    if r != NULL_CLAUSE {
                        let c = self.clauses.clauses()[r as int];
                        assert forall|k: int| 0 <= k < c.len() && c[k] != lp implies {
                            &&& lit_false(vals, #[trigger] c[k])
                            &&& on_trail_below(t, c[k].var_spec() as int, p)
                        } by {
                            assert(lit_false(pvals, c[k]));
                            assert(on_trail_below(pre.trail@, c[k].var_spec() as int, p));
                            let q = choose|q: int| 0 <= q < p && q < pre.trail@.len() && #[trigger] pre.trail@[q].var_spec() == c[k].var_spec() as int;
                            assert(t[q] == pre.trail@[q]);
                        }
                    }
                } else {
                    assert(t[p] == lit);
                    let r = reason;
                    if r != NULL_CLAUSE {
                        let c = self.clauses.clauses()[r as int];
                        assert forall|k: int| 0 <= k < c.len() && c[k] != lit implies {
                            &&& lit_false(vals, #[trigger] c[k])
                            &&& on_trail_below(t, c[k].var_spec() as int, p)
                        } by {
                            assert(lit_false(pvals, c[k]));
                            assert(is_assigned(pvals[c[k].var_spec() as int]));
                            assert(c[k].var_spec() < pre.nvars());
                            assert(on_trail_below(pre.trail@, c[k].var_spec() as int, n));
                            let q = choose|q: int| 0 <= q < n && q < pre.trail@.len() && #[trigger] pre.trail@[q].var_spec() == c[k].var_spec() as int;
                            assert(t[q] == pre.trail@[q]);
                        }
                    } else {
                        assert(d[d.len() - 1] == p);
                    }
                }
            }
        } else {
            assert forall|p: int| 0 <= p < t.len() implies self.variables.level_seq()[(#[trigger] t[p]).var_spec() as int] == count_le(d, p) by {
                if p < n {
                    assert(t[p] == pre.trail@[p]);
                }
            }
        }
        assert forall|p: int| 0 <= p < self.level0_end() implies implied(self.formula@, #[trigger] t[p]) by {
            if p < n {
                assert(t[p] == pre.trail@[p]);
                if d.len() > 0 {
                    assert(p < pre.level0_end());
                }
            }
        }
        assert forall|w: int| 0 <= w < self.variables.num_vars() && is_assigned(#[trigger] vals[w]) implies value_on_trail(t, vals, w) by {
            if w == v {
                assert(t[n].var_spec() == w && lit_true(vals, t[n]));
            } else {
                assert(vals[w] == pvals[w]);
                let q = choose|q: int| 0 <= q < pre.trail@.len() && (#[trigger] pre.trail@[q]).var_spec() == w && lit_true(pvals, pre.trail@[q]);
                assert(t[q] == pre.trail@[q]);
            }
        }
    }

    /// Setting, above level 0, the unassigned literal `lit` of a clause of one
    /// literal, without a reason clause, keeps the looser invariant.
    #[verifier::rlimit(30)]
    proof fn lemma_set_pending_loose(self, pre: Solver, lit: Lit)
        requires
            pre.wf(),
            pre.trail_loose(),
            lit.var_spec() < pre.nvars(),
            pre.trail_lim@.len() > 0,
            pre.values()[lit.var_spec() as int].0 == 3,
            implied(pre.formula@, lit),
            self.formula == pre.formula,
            self.variables.wf(),
            self.variables.num_vars() == pre.variables.num_vars(),
            self.variables.values_seq() == pre.variables.values_seq().update(lit.var_spec() as int, Assignment::of_bool(lit.is_pos_spec())),
            self.variables.level_seq() == pre.variables.level_seq().update(lit.var_spec() as int, pre.trail_lim@.len() as u32),
            self.variables.reason_seq() == pre.variables.reason_seq().update(lit.var_spec() as int, NULL_CLAUSE),
            self.trail@ == pre.trail@.push(lit),
            self.trail_lim@ == pre.trail_lim@,
            self.clauses == pre.clauses,
        ensures
            self.trail_loose(),
    {
        reveal(Solver::sem_ok);
        let t = self.trail@;
        let d = self.trail_lim@;
        let v = lit.var_spec() as int;
        let n = pre.trail@.len() as int;
        let vals = self.variables.values_seq();
        let pvals = pre.variables.values_seq();
        assert(self.level0_end() == pre.level0_end());
        lemma_count_le_all(d, n);
        assert forall|p: int| 0 <= p < t.len() implies is_assigned(vals[(#[trigger] t[p]).var_spec() as int]) by {
            if p < n {
                assert(t[p] == pre.trail@[p]);
            }
        }
        assert forall|w: int| 0 <= w < self.variables.num_vars() && is_assigned(#[trigger] vals[w]) implies on_trail_below(t, w, t.len() as int) by {
            if w == v {
                assert(t[n].var_spec() == w);
            } else {
                assert(on_trail_below(pre.trail@, w, n));
                let q = choose|q: int| 0 <= q < n && q < pre.trail@.len() && #[trigger] pre.trail@[q].var_spec() == w;
                assert(t[q] == pre.trail@[q]);
            }
        }
        assert forall|q: int| 0 <= q < n implies (#[trigger] pre.trail@[q]).var_spec() != v by {
            assert(is_assigned(pvals[pre.trail@[q].var_spec() as int]));
        }
        assert forall|p: int, q: int| 0 <= p < t.len() && 0 <= q < t.len() && p != q && self.level0_end() <= p implies (#[trigger] t[p]).var_spec() != (#[trigger] t[q]).var_spec() by {
            if p < n && q < n {
                assert(t[p] == pre.trail@[p] && t[q] == pre.trail@[q]);
            } else if p < n {
                assert(t[p] == pre.trail@[p]);
            } else {
                assert(t[q] == pre.trail@[q]);
            }
        }
        assert forall|p: int| self.level0_end() <= p < t.len() implies lit_true(vals, #[trigger] t[p]) by {
            if p < n {
                assert(t[p] == pre.trail@[p]);
                assert(lit_true(pvals, pre.trail@[p]));
            }
        }
        assert forall|p: int| 0 <= p < t.len() implies self.variables.level_seq()[(#[trigger] t[p]).var_spec() as int] == count_le(d, p) by {
            if p < n {
                assert(t[p] == pre.trail@[p]);
            }
        }
        assert forall|p: int| self.level0_end() <= p < t.len() implies
            #[trigger] self.reason_ok(p) || (self.is_pending(p) && implied(self.formula@, t[p])) by {
            if p < n {
                assert(t[p] == pre.trail@[p]);
                let lp = t[p];
                let r = self.variables.reason_seq()[lp.var_spec() as int];
                assert(r == pre.variables.reason_seq()[lp.var_spec() as int]);
                if pre.reason_ok(p) {
                    if r != NULL_CLAUSE {
                        let c = self.clauses.clauses()[r as int];
                        assert forall|k: int| 0 <= k < c.len() && c[k] != lp implies {
                            &&& lit_false(vals, #[trigger] c[k])
                            &&& on_trail_below(t, c[k].var_spec() as int, p)
                        } by {
                            assert(lit_false(pvals, c[k]));
                            assert(on_trail_below(pre.trail@, c[k].var_spec() as int, p));
                            let q = choose|q: int| 0 <= q < p && q < pre.trail@.len() && #[trigger] pre.trail@[q].var_spec() == c[k].var_spec() as int;
                            assert(t[q] == pre.trail@[q]);
                        }
                        assert(self.reason_ok(p));
                    } else {
                        assert(self.reason_ok(p));
                    }
                } else {
                    assert(pre.is_pending(p));
                    assert(self.is_pending(p));
                }
            } else {
                assert(t[p] == lit);
                assert(forall|j: int| 0 <= j < d.len() ==> #[trigger] d[j] < n);
                assert(self.is_pending(p));
            }
        }
        assert forall|j: int| 0 <= j < self.trail_lim@.len() implies #[trigger] self.trail_lim@[j] < self.trail@.len() by {
            assert(pre.trail_lim@[j] < pre.trail@.len());
        }
        assert forall|p: int| 0 <= p < self.level0_end() implies implied(self.formula@, #[trigger] t[p]) by {
            assert(t[p] == pre.trail@[p]);
        }
        assert forall|w: int| 0 <= w < self.variables.num_vars() && is_assigned(#[trigger] vals[w]) implies value_on_trail(t, vals, w) by {
            if w == v {
                assert(t[n].var_spec() == w && lit_true(vals, t[n]));
            } else {
                assert(vals[w] == pvals[w]);
                let q = choose|q: int| 0 <= q < pre.trail@.len() && (#[trigger] pre.trail@[q]).var_spec() == w && lit_true(pvals, pre.trail@[q]);
                assert(t[q] == pre.trail@[q]);
            }
        }
    }

}

/// Every entry of `d` is at most `p`: all of them count.
proof fn lemma_count_le_all(d: Seq<usize>, p: int)
    ensures
        (forall|j: int| 0 <= j < d.len() ==> #[trigger] d[j] <= p) ==> count_le(d, p) == d.len(),
        (forall|j: int| 0 <= j < d.len() ==> #[trigger] d[j] > p) ==> count_le(d, p) == 0,
    decreases d.len(),
{
    if d.len() > 0 {
        lemma_count_le_all(d.drop_last(), p);
        assert(forall|j: int| 0 <= j < d.len() - 1 ==> #[trigger] d.drop_last()[j] == d[j]);
    }
}

impl Solver {
    /// Grows the variable tables to hold `var`: the new variables are unassigned.
    #[verifier::rlimit(30)]
    fn ensure_vars(&mut self, var: usize)
        requires
            old(self).wf(),
            var <= MAX_VAR,
        ensures
            final(self).wf(),
            final(self).nvars() == if var < old(self).nvars() { old(self).nvars() as int } else { var + 1 },
            final(self).values() == old(self).values() + Seq::new((final(self).nvars() - old(self).nvars()) as nat, |i: int| Assignment(3)),
            final(self).trail_seq() == old(self).trail_seq(),
            final(self).trail_lim_seq() == old(self).trail_lim_seq(),
            final(self).clause_seqs() == old(self).clause_seqs(),
            final(self).clauses == old(self).clauses,
            final(self).watchers == old(self).watchers,
            forall|v: int| 0 <= v < old(self).nvars() ==> #[trigger] final(self).levels()[v] == old(self).levels()[v]
                && final(self).reasons()[v] == old(self).reasons()[v],
            final(self).formula() == old(self).formula(),
            old(self).trail_ok() ==> final(self).trail_ok(),
            old(self).trail_loose() ==> final(self).trail_loose(),
    {
        self.variables.ensure_vars(var);
        proof {
            let on = old(self).variables.num_vars();
            let nn = self.variables.num_vars();
            assert forall|v: int| 0 <= v < on implies #[trigger] self.variables.values_seq()[v] == old(self).variables.values_seq()[v]
                && self.variables.seen_seq()[v] == old(self).variables.seen_seq()[v]
                && self.variables.level_seq()[v] == old(self).variables.level_seq()[v]
                && self.variables.reason_seq()[v] == old(self).variables.reason_seq()[v] by {
                assert(self.variables.values_seq().subrange(0, on as int)[v] == self.variables.values_seq()[v]);
                assert(self.variables.seen_seq().subrange(0, on as int)[v] == self.variables.seen_seq()[v]);
                assert(self.variables.level_seq().subrange(0, on as int)[v] == self.variables.level_seq()[v]);
                assert(self.variables.reason_seq().subrange(0, on as int)[v] == self.variables.reason_seq()[v]);
            }
            assert(self.variables.values_seq() =~= old(self).variables.values_seq() + Seq::new((nn - on) as nat, |i: int| Assignment(3)));
            assert(self.variables.wf());
            assert(forall|v: int| 0 <= v < nn ==> 1 <= (#[trigger] self.variables.values_seq()[v]).0 <= 3);
            assert forall|v: int| 0 <= v < nn implies #[trigger] self.variables.seen_seq()[v] == Assignment(0) by {
                if v >= on {
                    assert(self.variables.values_seq()[v] == Assignment(3));
                } else {
                    assert(self.variables.values_seq()[v] == old(self).variables.values_seq()[v]);
                    assert(old(self).variables.seen_seq()[v] == Assignment(0));
                }
            }
            assert(forall|v: int| 0 <= v < nn && is_assigned(self.variables.values_seq()[v]) ==> (#[trigger] self.variables.reason_seq()[v] == NULL_CLAUSE || self.variables.reason_seq()[v] < self.clauses.num_clauses()));
            assert forall|id: int| 0 <= id < self.clauses.num_clauses() implies {
                &&& (#[trigger] self.clauses.clauses()[id]).len() >= 2
                &&& distinct_vars(self.clauses.clauses()[id])
                &&& forall|k: int| 0 <= k < self.clauses.clauses()[id].len() ==> #[trigger] self.clauses.clauses()[id][k].var_spec() < nn
            } by {
                assert(forall|k: int| 0 <= k < self.clauses.clauses()[id].len() ==> #[trigger] self.clauses.clauses()[id][k].var_spec() < on);
            }
            if old(self).trail_ok() || old(self).trail_loose() {
                let t = self.trail@;
                if old(self).trail_ok() {
                    assert forall|p: int| self.level0_end() <= p < t.len() implies #[trigger] self.reason_ok(p) by {
                        assert(old(self).reason_ok(p));
                    }
                }
                assert forall|p: int| self.level0_end() <= p < t.len() && old(self).trail_loose() implies
                    #[trigger] self.reason_ok(p) || (self.is_pending(p) && implied(self.formula@, t[p])) by {
                    if old(self).reason_ok(p) {
                        assert(self.reason_ok(p));
                    } else {
                        assert(old(self).is_pending(p));
                    }
                }
                reveal(Solver::sem_ok);
                let vals = self.variables.values_seq();
                let ovals = old(self).variables.values_seq();
                assert forall|v: int| 0 <= v < nn && is_assigned(#[trigger] vals[v]) implies value_on_trail(t, vals, v) by {
                    if v >= on {
                        assert(vals[v] == Assignment(3));
                    } else {
                        assert(vals[v] == ovals[v]);
                        let q = choose|q: int| 0 <= q < t.len() && (#[trigger] t[q]).var_spec() == v && lit_true(ovals, t[q]);
                        assert(lit_true(vals, t[q]));
                    }
                }
            }
        }
    }

    /// Adds the clause of `lits` and, on success, returns its id.
    ///
    /// `None` means the clause is empty, so the clauses cannot be satisfied.
    /// `Some(NULL_CLAUSE)` means the clause was taken into account without being
    /// stored: it is a tautology, which is ignored, or it has a single literal
    /// (after repeated literals are dropped), which is assigned at once, with no
    /// reason clause, at the current decision level. When that literal's variable
    /// already has a value above level 0, the search is undone to level 0 first
    /// and the literal is assigned there: a second trail entry for one variable
    /// above level 0 would contradict the values. Otherwise the clause, with
    /// repeated literals dropped, is stored under the returned id. The variables
    /// of `lits` are created as needed.
    #[verifier::rlimit(80)]
    pub fn add_clause(&mut self, lits: &[Lit]) -> (r: Option<ClauseId>)
        requires
            old(self).wf(),
            old(self).trail_loose(),
            lits@.len() <= u32::MAX,
            old(self).clause_seqs().len() + 1 < NULL_CLAUSE,
        ensures
            final(self).wf(),
            final(self).trail_loose(),
            old(self).trail_ok() && (old(self).trail_lim_seq().len() == 0 || is_tautology(lits@) || dedup(lits@).len() != 1)
                ==> final(self).trail_ok(),
            lits@.len() == 0 ==> r is None && *final(self) == *old(self),
            lits@.len() > 0 && !unit_over_assigned(*old(self), lits@) ==> clause_added(*old(self), *final(self), lits@),
            lits@.len() > 0 && unit_over_assigned(*old(self), lits@) ==> unit_restarted(*old(self), *final(self), lits@),
            lits@.len() > 0 ==> r == if !is_tautology(lits@) && dedup(lits@).len() >= 2 {
                Some(old(self).clause_seqs().len() as u32)
            } else {
                Some(NULL_CLAUSE)
            },
            forall|l: Lit| #[trigger] final(self).watch_list_of(l) == old(self).watch_list_of(l),
            lits@.len() > 0 && !is_tautology(lits@) && dedup(lits@).len() == 1 ==> {
                let v = dedup(lits@)[0].var_spec() as int;
                &&& final(self).levels()[v] == final(self).trail_lim_seq().len()
                &&& final(self).reasons()[v] == NULL_CLAUSE
            },
            old(self).formula_covered_loose() ==> final(self).formula_covered_loose(),
            old(self).formula_covered() && (old(self).trail_lim_seq().len() == 0 || is_tautology(lits@) || dedup(lits@).len() != 1)
                ==> final(self).formula_covered(),
            vars_below(old(self).formula(), old(self).nvars()) ==> vars_below(final(self).formula(), final(self).nvars()),
    {
        if lits.len() == 0 {
            return None;
        }
        let ghost before = *self;
        self.formula = Ghost(self.formula@.push(lits@));
        proof {
            assert forall|m: spec_fn(nat) -> bool| #[trigger] models(m, self.formula@) implies models(m, before.formula@) by {
                lemma_models_push(m, before.formula@, lits@);
            }
            self.lemma_sem_weaker_formula(before);
            if before.trail_ok() {
                assert forall|p: int| self.level0_end() <= p < self.trail@.len() implies #[trigger] self.reason_ok(p) by {
                    assert(before.reason_ok(p));
                }
            }
            assert forall|p: int| self.level0_end() <= p < self.trail@.len() implies
                #[trigger] self.reason_ok(p) || (self.is_pending(p) && implied(self.formula@, self.trail@[p])) by {
                if !before.reason_ok(p) {
                    assert(before.is_pending(p) && implied(before.formula@, self.trail@[p]));
                    assert forall|m: spec_fn(nat) -> bool| #[trigger] models(m, self.formula@) implies lit_holds(m, self.trail@[p]) by {
                        assert(models(m, before.formula@));
                    }
                }
            }
        }
        let mut max_var: usize = lits[0].var();
        proof {
            lemma_var_bound_push(Seq::empty(), lits@[0]);
            assert(lits@.subrange(0, 1) =~= Seq::<Lit>::empty().push(lits@[0]));
        }
        let mut i: usize = 1;
        while i < lits.len()
            invariant
                1 <= i <= lits@.len(),
                max_var <= MAX_VAR,
                max_var + 1 == var_bound(lits@.subrange(0, i as int)),
            decreases lits@.len() - i,
        {
            proof {
                lemma_var_bound_push(lits@.subrange(0, i as int), lits@[i as int]);
                assert(lits@.subrange(0, i + 1) =~= lits@.subrange(0, i as int).push(lits@[i as int]));
            }
            let v = lits[i].var();
            if v > max_var {
                max_var = v;
            }
            i = i + 1;
        }
        proof {
            assert(lits@.subrange(0, lits@.len() as int) =~= lits@);
            lemma_var_bound_push(Seq::empty(), lits@[0]);
            assert(lits@.subrange(0, 1) =~= Seq::<Lit>::empty().push(lits@[0]));
            lemma_var_bound_max(lits@);
        }
        self.ensure_vars(max_var);
        let ghost mid = *self;
        proof {
            assert forall|v: int| 0 <= v < old(self).nvars() && is_assigned(#[trigger] old(self).values()[v])
                implies mid.reasons()[v] == old(self).reasons()[v] && mid.values()[v] == old(self).values()[v] by {
                assert(mid.levels()[v] == before.levels()[v]);
                assert(mid.values()[v] == (before.values() + Seq::new((mid.nvars() - before.nvars()) as nat, |i: int| Assignment(3)))[v]);
            }
        }
        let clause_id = self.clauses.push(lits, &mut self.variables);
        proof {
            lemma_dedup_len(lits@);
            if !is_tautology(lits@) {
                lemma_dedup_distinct_vars(lits@);
                assert forall|k: int| 0 <= k < dedup(lits@).len() implies #[trigger] dedup(lits@)[k].var_spec() < self.variables.num_vars() by {
                    let x = dedup(lits@)[k];
                    assert(dedup(lits@).contains(x));
                    lemma_dedup_contains(lits@, x);
                }
                if dedup(lits@).len() == 0 {
                    assert(lits@.contains(lits@[0]));
                    lemma_dedup_contains(lits@, lits@[0]);
                }
            }
        }
        if clause_id == NULL_CLAUSE {
            proof {
                self.lemma_sem_same_clauses(mid);
                if before.trail_ok() {
                    assert forall|p: int| self.level0_end() <= p < self.trail@.len() implies #[trigger] self.reason_ok(p) by {
                        assert(mid.reason_ok(p));
                    }
                }
                assert forall|p: int| self.level0_end() <= p < self.trail@.len() implies
                    #[trigger] self.reason_ok(p) || (self.is_pending(p) && implied(self.formula@, self.trail@[p])) by {
                    if mid.reason_ok(p) {
                        assert(self.reason_ok(p));
                    } else {
                        assert(mid.is_pending(p));
                    }
                }
                assert(clause_added(*old(self), *self, lits@));
                if old(self).formula_covered() && (old(self).trail_lim@.len() == 0 || is_tautology(lits@) || dedup(lits@).len() != 1) {
                    old(self).lemma_covered_added(*self, lits@);
                }
                if old(self).formula_covered_loose() {
                    old(self).lemma_covered_loose_added(*self, lits@);
                }
            }
            return Some(NULL_CLAUSE);
        }
        let num_lits = self.clauses.get(clause_id).len();
        if num_lits == 1 {
            let lit = self.clauses.literals(self.clauses.get(clause_id))[0];
            self.clauses.drop_last_clause();
            proof {
                assert(self.clauses.clauses() =~= mid.clauses.clauses());
                self.lemma_sem_same_clauses(mid);
                assert forall|m: spec_fn(nat) -> bool| #[trigger] models(m, self.formula@) implies lit_holds(m, lit) by {
                    lemma_models_push(m, before.formula@, lits@);
                    lemma_clause_holds_dedup(m, lits@);
                }
                assert forall|p: int| self.level0_end() <= p < self.trail@.len() implies
                    #[trigger] self.reason_ok(p) || (self.is_pending(p) && implied(self.formula@, self.trail@[p])) by {
                    if mid.reason_ok(p) {
                        assert(self.reason_ok(p));
                    } else {
                        assert(mid.is_pending(p));
                    }
                }
                assert(lit == dedup(lits@)[0]);
            }
            let ghost before_set = *self;
            if self.trail_lim.is_empty() {
                proof {
                    assert forall|p: int| self.level0_end() <= p < self.trail@.len() implies #[trigger] self.reason_ok(p) by {}
                }
                self.set_literal(lit, NULL_CLAUSE);
                proof {
                    self.lemma_loose_of_ok();
                    assert(clause_added(*old(self), *self, lits@));
                    if old(self).formula_covered() {
                        old(self).lemma_covered_added(*self, lits@);
                    }
                    if old(self).formula_covered_loose() {
                        old(self).lemma_covered_loose_added(*self, lits@);
                    }
                }
            } else {
                let state = self.literal_state(lit);
                if state == Assignment::unassigned() {
                    self.set_literal(lit, NULL_CLAUSE);
                    proof {
                        self.lemma_set_pending_loose(before_set, lit);
                        assert(!unit_over_assigned(*old(self), lits@));
                        assert(clause_added(*old(self), *self, lits@));
                        if old(self).formula_covered_loose() {
                            old(self).lemma_covered_loose_added(*self, lits@);
                        }
                    }
                } else {
                    let ghost pre_restart = *self;
                    proof {
                        if old(self).formula_covered_loose() {
                            old(self).lemma_covered_loose_same(pre_restart);
                            reveal(Solver::formula_covered_loose);
                            assert forall|i: int| 0 <= i < old(self).formula@.len() implies #[trigger] pre_restart.clause_covered_loose(old(self).formula@[i]) by {
                                assert(old(self).clause_covered_loose(old(self).formula@[i]));
                            }
                        }
                    }
                    self.restart();
                    let ghost restarted = *self;
                    self.set_literal(lit, NULL_CLAUSE);
                    proof {
                        self.lemma_loose_of_ok();
                        assert(unit_over_assigned(*old(self), lits@));
                        assert(self.trail@.subrange(0, old(self).level0_end()) =~= old(self).trail@.subrange(0, old(self).level0_end())) by {
                            assert(self.trail@.subrange(0, restarted.trail@.len() as int) =~= restarted.trail@);
                        }
                        let d = dedup(lits@);
                        assert(lits@.contains(lits@[0]));
                        lemma_var_bound_max(lits@);
                        if var_bound(lits@) > old(self).nvars() {
                            let k = choose|k: int| 0 <= k < lits@.len() && lits@[k].var_spec() + 1 == var_bound(lits@);
                            assert(lits@.contains(lits@[k]));
                            lemma_dedup_contains(lits@, lits@[k]);
                            assert(d.contains(lits@[k]));
                            assert(lits@[k] == d[0]);
                        }
                        assert(self.nvars() == old(self).nvars());
                        assert(self.trail_lim_seq() == Seq::<usize>::empty());
                        assert(self.formula() == old(self).formula().push(lits@));
                        assert(self.clause_seqs() == old(self).clause_seqs());
                        assert(self.trail_seq().last() == d[0]);
                        assert(lit_true(self.values(), d[0]));
                        assert(unit_restarted(*old(self), *self, lits@));
                        if old(self).formula_covered_loose() {
                            pre_restart.lemma_covered_restarted(restarted, *self, lits@, old(self).formula@);
                            self.lemma_loose_of_strict();
                        }
                    }
                }
            }
            Some(NULL_CLAUSE)
        } else {
            proof {
                if before.trail_ok() {
                    assert forall|p: int| self.level0_end() <= p < self.trail@.len() implies #[trigger] self.reason_ok(p) by {
                        assert(mid.reason_ok(p));
                    }
                }
                assert forall|p: int| self.level0_end() <= p < self.trail@.len() implies
                    #[trigger] self.reason_ok(p) || (self.is_pending(p) && implied(self.formula@, self.trail@[p])) by {
                    if mid.reason_ok(p) {
                        assert(self.reason_ok(p));
                    } else {
                        assert(mid.is_pending(p));
                    }
                }
                assert forall|m: spec_fn(nat) -> bool| #[trigger] models(m, self.formula@) implies clause_holds(m, dedup(lits@)) by {
                    lemma_models_push(m, before.formula@, lits@);
                    lemma_clause_holds_dedup(m, lits@);
                }
                self.lemma_sem_push_clause(mid, dedup(lits@));
                assert(clause_added(*old(self), *self, lits@));
                if old(self).formula_covered() {
                    old(self).lemma_covered_added(*self, lits@);
                }
                if old(self).formula_covered_loose() {
                    old(self).lemma_covered_loose_added(*self, lits@);
                }
            }
            Some(clause_id)
        }
    }

    /// At level 0 a false literal's negation holds in every model of the formula.
    proof fn lemma_false_at_level0(self, l: Lit)
        requires
            self.wf(),
            self.trail_ok(),
            self.trail_lim@.len() == 0,
            l.var_spec() < self.nvars(),
            lit_false(self.values(), l),
        ensures
            implied(self.formula@, l.opposite()),
    {
        reveal(Solver::sem_ok);
        let t = self.trail@;
        let vals = self.variables.values_seq();
        let v = l.var_spec() as int;
        assert(is_assigned(vals[v]));
        let q = choose|q: int| 0 <= q < t.len() && (#[trigger] t[q]).var_spec() == v && lit_true(vals, t[q]);
        lemma_neg_involution(l);
        crate::lit::lemma_lit_determined(t[q], l.opposite());
        assert(t[q] == l.opposite());
        assert(implied(self.formula@, t[q]));
    }

    /// At level 0, a stored clause whose second literal is the negation of an
    /// implied literal and whose literals from the third on are false forces its
    /// first literal in every model of the formula.
    proof fn lemma_level0_forced(self, id: int, set_lit: Lit)
        requires
            self.wf(),
            self.trail_ok(),
            self.trail_lim@.len() == 0,
            0 <= id < self.clauses.num_clauses(),
            self.clauses.clauses()[id][1] == set_lit.opposite(),
            implied(self.formula@, set_lit),
            forall|k: int| 2 <= k < self.clauses.clauses()[id].len() ==> lit_false(self.values(), #[trigger] self.clauses.clauses()[id][k]),
        ensures
            implied(self.formula@, self.clauses.clauses()[id][0]),
    {
        let c = self.clauses.clauses()[id];
        assert(clause_implied(self.formula@, c)) by {
            reveal(Solver::sem_ok);
        }
        assert forall|k: int| 2 <= k < c.len() implies implied(self.formula@, (#[trigger] c[k]).opposite()) by {
            assert(c[k].var_spec() < self.nvars());
            self.lemma_false_at_level0(c[k]);
        }
        assert forall|m: spec_fn(nat) -> bool| #[trigger] models(m, self.formula@) implies lit_holds(m, c[0]) by {
            assert(clause_holds(m, c));
            assert forall|k: int| 0 <= k < c.len() && k != 0 implies !lit_holds(m, #[trigger] c[k]) by {
                lemma_neg_involution(c[k]);
                if k == 1 {
                    assert(lit_holds(m, set_lit));
                } else {
                    assert(implied(self.formula@, c[k].opposite()));
                    assert(lit_holds(m, c[k].opposite()));
                }
            }
        }
    }

    /// At level 0 every trail literal holds in every model of the formula.
    proof fn lemma_trail_implied(self, p: int)
        requires
            self.trail_ok(),
            self.trail_lim@.len() == 0,
            0 <= p < self.trail@.len(),
        ensures
            implied(self.formula@, self.trail@[p]),
    {
        reveal(Solver::sem_ok);
    }

    /// A stored clause whose literals are false at level 0, the second being the
    /// negation of a trail literal, leaves the formula without a model.
    #[verifier::rlimit(20)]
    proof fn lemma_level0_conflict(self, id: int, p: int)
        requires
            self.wf(),
            self.trail_ok(),
            self.trail_lim@.len() == 0,
            0 <= id < self.clauses.num_clauses(),
            0 <= p < self.trail@.len(),
            self.clauses.clauses()[id][1] == self.trail@[p].opposite(),
            forall|k: int| 0 <= k < self.clauses.clauses()[id].len() && k != 1 ==> lit_false(self.values(), #[trigger] self.clauses.clauses()[id][k]),
        ensures
            forall|m: spec_fn(nat) -> bool| !models(m, self.formula@),
    {
        let c = self.clauses.clauses()[id];
        assert(clause_implied(self.formula@, c)) by {
            reveal(Solver::sem_ok);
        }
        self.lemma_trail_implied(p);
        assert forall|k: int| 0 <= k < c.len() && k != 1 implies implied(self.formula@, (#[trigger] c[k]).opposite()) by {
            assert(c[k].var_spec() < self.nvars());
            self.lemma_false_at_level0(c[k]);
        }
        assert forall|m: spec_fn(nat) -> bool| !models(m, self.formula@) by {
            if models(m, self.formula@) {
                assert(clause_holds(m, c));
                let j = choose|j: int| 0 <= j < c.len() && #[trigger] lit_holds(m, c[j]);
                lemma_neg_involution(c[j]);
                if j == 1 {
                    lemma_neg_involution(self.trail@[p]);
                    assert(lit_holds(m, self.trail@[p]));
                } else {
                    assert(implied(self.formula@, c[j].opposite()));
                    assert(lit_holds(m, c[j].opposite()));
                }
            }
        }
    }

    /// The meaning invariant survives a formula with fewer models.
    proof fn lemma_sem_weaker_formula(self, pre: Solver)
        requires
            pre.sem_ok(),
            entails(self.formula@, pre.formula@),
            self.clauses == pre.clauses,
            self.trail == pre.trail,
            self.trail_lim == pre.trail_lim,
            self.variables == pre.variables,
        ensures
            self.sem_ok(),
    {
        reveal(Solver::sem_ok);
        assert forall|id: int| 0 <= id < self.clauses.num_clauses() implies clause_implied(self.formula@, #[trigger] self.clauses.clauses()[id]) by {
            assert(clause_implied(pre.formula@, pre.clauses.clauses()[id]));
            assert forall|m: spec_fn(nat) -> bool| #[trigger] models(m, self.formula@) implies clause_holds(m, self.clauses.clauses()[id]) by {
                assert(models(m, pre.formula@));
            }
        }
        assert forall|p: int| 0 <= p < self.level0_end() implies implied(self.formula@, #[trigger] self.trail@[p]) by {
            assert(implied(pre.formula@, pre.trail@[p]));
            assert forall|m: spec_fn(nat) -> bool| #[trigger] models(m, self.formula@) implies lit_holds(m, self.trail@[p]) by {
                assert(models(m, pre.formula@));
            }
        }
    }

    /// The meaning invariant depends on the clause contents, not on their storage.
    proof fn lemma_sem_same_clauses(self, pre: Solver)
        requires
            pre.sem_ok(),
            self.formula == pre.formula,
            self.clauses.clauses() == pre.clauses.clauses(),
            self.trail == pre.trail,
            self.trail_lim == pre.trail_lim,
            self.variables.values_seq() == pre.variables.values_seq(),
        ensures
            self.sem_ok(),
    {
        reveal(Solver::sem_ok);
    }

    /// Storing a clause that holds in every model keeps the meaning invariant.
    proof fn lemma_sem_push_clause(self, pre: Solver, c: Seq<Lit>)
        requires
            pre.sem_ok(),
            self.formula == pre.formula,
            self.clauses.clauses() == pre.clauses.clauses().push(c),
            clause_implied(self.formula@, c),
            self.trail == pre.trail,
            self.trail_lim == pre.trail_lim,
            self.variables.values_seq() == pre.variables.values_seq(),
        ensures
            self.sem_ok(),
    {
        reveal(Solver::sem_ok);
        assert forall|id: int| 0 <= id < self.clauses.num_clauses() implies clause_implied(self.formula@, #[trigger] self.clauses.clauses()[id]) by {
            if id < pre.clauses.num_clauses() {
                assert(self.clauses.clauses()[id] == pre.clauses.clauses()[id]);
            }
        }
    }
}

/// The effect of adding the non-empty clause `lits` to `pre`, giving `post`: the
/// formula gets `lits`; the variables grow to hold those of `lits` (new ones
/// unassigned); a tautology is dropped; a clause of one literal once repeated
/// literals are dropped is assigned at once; any other clause is stored without
/// its repeated literals.
pub open spec fn clause_added(pre: Solver, post: Solver, lits: Seq<Lit>) -> bool {
    let d = dedup(lits);
    let n = if var_bound(lits) <= pre.nvars() { pre.nvars() } else { var_bound(lits) };
    let grown = pre.values() + Seq::new((n - pre.nvars()) as nat, |i: int| Assignment(3));
    &&& post.nvars() == n
    &&& post.trail_lim_seq() == pre.trail_lim_seq()
    &&& post.formula() == pre.formula().push(lits)
    &&& is_tautology(lits) ==> {
        &&& post.clause_seqs() == pre.clause_seqs()
        &&& post.trail_seq() == pre.trail_seq()
        &&& post.values() == grown
    }
    &&& !is_tautology(lits) && d.len() == 1 ==> {
        &&& post.clause_seqs() == pre.clause_seqs()
        &&& post.trail_seq() == pre.trail_seq().push(d[0])
        &&& post.values() == grown.update(d[0].var_spec() as int, Assignment::of_bool(d[0].is_pos_spec()))
    }
    &&& !is_tautology(lits) && d.len() >= 2 ==> {
        &&& post.clause_seqs() == pre.clause_seqs().push(d)
        &&& post.trail_seq() == pre.trail_seq()
        &&& post.values() == grown
    }
}

/// The clause `lits` has one literal once repeated literals are dropped, and it
/// comes above level 0 while that literal's variable has a value.
pub open spec fn unit_over_assigned(pre: Solver, lits: Seq<Lit>) -> bool {
    &&& pre.trail_lim_seq().len() > 0
    &&& !is_tautology(lits)
    &&& dedup(lits).len() == 1
    &&& dedup(lits)[0].var_spec() < pre.nvars()
    &&& is_assigned(pre.values()[dedup(lits)[0].var_spec() as int])
}

/// The effect of adding such a clause (see `unit_over_assigned`) to `pre`,
/// giving `post`: the search goes back to level 0, where the clauses of one
/// literal added above it are set again, and then the literal is set there; the
/// formula gets `lits`.
pub open spec fn unit_restarted(pre: Solver, post: Solver, lits: Seq<Lit>) -> bool {
    let d = dedup(lits);
    &&& post.nvars() == pre.nvars()
    &&& post.trail_lim_seq() == Seq::<usize>::empty()
    &&& post.formula() == pre.formula().push(lits)
    &&& post.clause_seqs() == pre.clause_seqs()
    &&& post.trail_seq().len() > pre.level0_end()
    &&& post.trail_seq().last() == d[0]
    &&& lit_true(post.values(), d[0])
    &&& post.trail_seq().subrange(0, pre.level0_end()) == pre.trail_seq().subrange(0, pre.level0_end())
}

/// Every literal of every clause of `f` is of a variable below `n`.
pub open spec fn vars_below(f: Seq<Seq<Lit>>, n: nat) -> bool {
    forall|i: int, k: int| 0 <= i < f.len() && 0 <= k < f[i].len() ==> #[trigger] f[i][k].var_spec() < n
}

/// One more than the largest variable of `s` (0 for an empty sequence): the
/// number of variables needed to hold the literals of `s`.
pub open spec fn var_bound(s: Seq<Lit>) -> nat
    decreases s.len(),
{
    if s.len() == 0 {
        0
    } else {
        let b = var_bound(s.drop_last());
        if s.last().var_spec() + 1 > b {
            s.last().var_spec() + 1
        } else {
            b
        }
    }
}

proof fn lemma_var_bound_push(s: Seq<Lit>, x: Lit)
    ensures
        var_bound(s.push(x)) == if x.var_spec() + 1 > var_bound(s) { x.var_spec() + 1 } else { var_bound(s) },
{
    assert(s.push(x).drop_last() =~= s);
}

/// Every variable of `s` lies below `var_bound(s)`, which is at most `MAX_VAR + 1`.
proof fn lemma_var_bound_max(s: Seq<Lit>)
    ensures
        forall|k: int| 0 <= k < s.len() ==> #[trigger] s[k].var_spec() < var_bound(s),
        var_bound(s) <= MAX_VAR + 1,
        s.len() > 0 ==> exists|k: int| 0 <= k < s.len() && s[k].var_spec() + 1 == var_bound(s),
    decreases s.len(),
{
    if s.len() > 0 {
        lemma_var_bound_max(s.drop_last());
        assert forall|k: int| 0 <= k < s.len() implies #[trigger] s[k].var_spec() < var_bound(s) by {
            if k < s.len() - 1 {
                assert(s.drop_last()[k] == s[k]);
            }
        }
        if s.len() > 1 && s.last().var_spec() + 1 <= var_bound(s.drop_last()) {
            let k = choose|k: int| 0 <= k < s.drop_last().len() && s.drop_last()[k].var_spec() + 1 == var_bound(s.drop_last());
            assert(s[k] == s.drop_last()[k]);
        }
    }
}

impl Solver {
    /// The trail above level 0 holds fewer positions than there are variables
    /// when variable `u` is unassigned.
    proof fn lemma_trail_bound_unassigned(self, u: int)
        requires
            self.wf(),
            self.trail_ok(),
            0 <= u < self.variables.num_vars(),
            self.variables.values_seq()[u].0 == 3,
        ensures
            self.trail@.len() - self.level0_end() < self.variables.num_vars(),
            self.trail_lim@.len() < self.variables.num_vars(),
    {
        self.lemma_trail_bounds();
        let l0 = self.level0_end();
        let t = self.trail@;
        let seg = t.subrange(l0, t.len() as int);
        assert(distinct_vars(seg)) by {
            assert forall|i: int, j: int| 0 <= i < seg.len() && 0 <= j < seg.len() && i != j implies #[trigger] seg[i].var_spec() != #[trigger] seg[j].var_spec() by {
                assert(t[l0 + i].var_spec() != t[l0 + j].var_spec());
            }
        }
        assert forall|k: int| 0 <= k < seg.len() implies #[trigger] seg[k].var_spec() < self.variables.num_vars() && seg[k].var_spec() != u by {
            assert(t[l0 + k].var_spec() < self.variables.num_vars());
            assert(is_assigned(self.variables.values_seq()[t[l0 + k].var_spec() as int]));
        }
        lemma_distinct_vars_len_excluding(seg, self.variables.num_vars(), u as nat);
    }

    /// Undoes every assignment made at a decision level above `level`: the trail is
    /// cut back to where decision `level` was made and the removed variables become
    /// unassigned.
    #[verifier::rlimit(30)]
    fn backjump(&mut self, level: usize)
        requires
            old(self).wf(),
            old(self).trail_ok() || (level == 0 && old(self).trail_loose()),
            level < old(self).trail_lim_seq().len(),
        ensures
            final(self).wf(),
            final(self).trail_ok(),
            final(self).trail_seq() == old(self).trail_seq().subrange(0, old(self).trail_lim_seq()[level as int] as int),
            final(self).trail_lim_seq() == old(self).trail_lim_seq().subrange(0, level as int),
            forall|v: int| 0 <= v < old(self).nvars() ==> #[trigger] final(self).values()[v] == if on_trail_from(old(self).trail_seq(), v, old(self).trail_lim_seq()[level as int] as int) {
                Assignment(3)
            } else {
                old(self).values()[v]
            },
            final(self).nvars() == old(self).nvars(),
            final(self).levels() == old(self).levels(),
            final(self).reasons() == old(self).reasons(),
            final(self).clause_seqs() == old(self).clause_seqs(),
            final(self).clauses == old(self).clauses,
            final(self).watchers == old(self).watchers,
            final(self).conflict_cache == old(self).conflict_cache,
            final(self).formula() == old(self).formula(),
            num_unassigned(final(self).values()) + final(self).trail_seq().len() == num_unassigned(old(self).values()) + old(self).trail_seq().len(),
    {
        proof {
            if old(self).trail_ok() {
                old(self).lemma_loose_of_ok();
            }
        }
        let target_trail = self.trail_lim[level];
        let ghost ot = self.trail@;
        let ghost ov = self.variables.values_seq();
        proof {
            lemma_count_le_prefix(self.trail_lim@, level as int);
            assert(self.trail_lim@[0] <= self.trail_lim@[level as int]) by {
                if level > 0 {
                    assert(self.trail_lim@[0] < self.trail_lim@[level as int]);
                }
            }
        }
        self.trail_lim.truncate(level);
        while target_trail < self.trail.len()
            invariant
                self.variables.wf(),
                self.clauses == old(self).clauses,
                self.watchers == old(self).watchers,
                self.conflict_cache == old(self).conflict_cache,
                self.formula == old(self).formula,
                self.variables.num_vars() == old(self).variables.num_vars(),
                self.variables.level_seq() == old(self).variables.level_seq(),
                self.variables.reason_seq() == old(self).variables.reason_seq(),
                self.variables.seen_seq() == old(self).variables.seen_seq(),
                self.trail_lim@ == old(self).trail_lim@.subrange(0, level as int),
                target_trail <= self.trail@.len() <= ot.len(),
                self.trail@ == ot.subrange(0, self.trail@.len() as int),
                target_trail == old(self).trail_lim@[level as int],
                old(self).wf(),
                old(self).trail_loose(),
                level == 0 || old(self).trail_ok(),
                old(self).level0_end() <= target_trail,
                ov == old(self).variables.values_seq(),
                ot == old(self).trail@,
                num_unassigned(self.variables.values_seq()) + self.trail@.len() == num_unassigned(ov) + ot.len(),
                forall|p: int| 0 <= p < ot.len() ==> (#[trigger] ot[p]).var_spec() < old(self).variables.num_vars(),
                forall|v: int| 0 <= v < old(self).variables.num_vars() ==> #[trigger] self.variables.values_seq()[v] == if on_trail_from(ot, v, self.trail@.len() as int) {
                    Assignment(3)
                } else {
                    ov[v]
                },
            decreases self.trail@.len(),
        {
            let ghost before_vals = self.variables.values_seq();
            let assigned_lit = self.trail.pop().unwrap();
            self.variables.set_value(assigned_lit.var(), Assignment::unassigned());
            proof {
                let k = self.trail@.len() as int;
                assert(ot[k] == assigned_lit);
                // The popped variable was assigned: it occurs once above level 0.
                let v = assigned_lit.var_spec() as int;
                assert(old(self).level0_end() <= k);
                if on_trail_from(ot, v, k + 1) {
                    let q = choose|q: int| k + 1 <= q < ot.len() && #[trigger] ot[q].var_spec() == v;
                    assert(ot[q].var_spec() != ot[k].var_spec());
                }
                assert(before_vals[v] == ov[v]);
                assert(is_assigned(ov[ot[k].var_spec() as int]));
                lemma_num_unassigned_assign(self.variables.values_seq(), v, before_vals[v]);
                assert(self.variables.values_seq().update(v, before_vals[v]) =~= before_vals);
                assert(self.trail@ =~= ot.subrange(0, k));
                assert forall|v: int| 0 <= v < old(self).variables.num_vars() implies #[trigger] self.variables.values_seq()[v] == if on_trail_from(ot, v, k) {
                    Assignment(3)
                } else {
                    ov[v]
                } by {
                    if v == assigned_lit.var_spec() as int {
                        assert(on_trail_from(ot, v, k));
                    } else if on_trail_from(ot, v, k) {
                        let q = choose|q: int| k <= q < ot.len() && #[trigger] ot[q].var_spec() == v;
                        assert(q != k);
                        assert(on_trail_from(ot, v, k + 1));
                    } else {
                        if on_trail_from(ot, v, k + 1) {
                            let q = choose|q: int| k + 1 <= q < ot.len() && #[trigger] ot[q].var_spec() == v;
                            assert(on_trail_from(ot, v, k));
                        }
                    }
                }
            }
        }
        proof {
            self.lemma_backjump_ok(*old(self), level as int);
        }
    }

    /// After a backjump to `level`, the solver is well formed and its trail agrees
    /// with the values.
    #[verifier::rlimit(20)]
    proof fn lemma_backjump_ok(self, pre: Solver, level: int)
        requires
            pre.wf(),
            pre.trail_loose(),
            level == 0 || pre.trail_ok(),
            0 <= level < pre.trail_lim@.len(),
            self.variables.wf(),
            self.clauses == pre.clauses,
            self.watchers == pre.watchers,
            self.variables.num_vars() == pre.variables.num_vars(),
            self.variables.level_seq() == pre.variables.level_seq(),
            self.variables.reason_seq() == pre.variables.reason_seq(),
            self.variables.seen_seq() == pre.variables.seen_seq(),
            self.trail_lim@ == pre.trail_lim@.subrange(0, level),
            self.trail@ == pre.trail@.subrange(0, pre.trail_lim@[level] as int),
            self.formula == pre.formula,
            forall|d: Seq<usize>, p: int| #![trigger count_le(d, p)] d == pre.trail_lim@ && p < pre.trail_lim@[level] ==> count_le(d.subrange(0, level), p) == count_le(d, p),
            forall|v: int| 0 <= v < pre.variables.num_vars() ==> #[trigger] self.variables.values_seq()[v] == if on_trail_from(pre.trail@, v, pre.trail_lim@[level] as int) {
                Assignment(3)
            } else {
                pre.variables.values_seq()[v]
            },
        ensures
            self.wf(),
            self.trail_ok(),
    {
        reveal(Solver::sem_ok);
        let t = self.trail@;
        let ot = pre.trail@;
        let d = self.trail_lim@;
        let od = pre.trail_lim@;
        let target = od[level] as int;
        let vals = self.variables.values_seq();
        let ovals = pre.variables.values_seq();
        let n = self.variables.num_vars();
        assert(od[0] <= od[level]) by {
            if level > 0 {
                assert(od[0] < od[level]);
            }
        }
        assert(self.level0_end() == pre.level0_end());
        // A variable removed from the trail occurs nowhere below the cut.
        assert forall|q: int| 0 <= q < target implies !on_trail_from(ot, (#[trigger] ot[q]).var_spec() as int, target) by {
            let w = ot[q].var_spec() as int;
            if on_trail_from(ot, w, target) {
                let r = choose|r: int| target <= r < ot.len() && #[trigger] ot[r].var_spec() == w;
                assert(ot[r].var_spec() != ot[q].var_spec());
            }
        }
        assert forall|p: int| 0 <= p < t.len() implies #[trigger] vals[t[p].var_spec() as int] == ovals[t[p].var_spec() as int] by {
            assert(t[p] == ot[p]);
        }
        assert forall|v: int| 0 <= v < n && is_assigned(#[trigger] vals[v]) implies on_trail_below(t, v, t.len() as int) by {
            assert(!on_trail_from(ot, v, target));
            assert(on_trail_below(ot, v, ot.len() as int));
            let q = choose|q: int| 0 <= q < ot.len() && q < ot.len() && #[trigger] ot[q].var_spec() == v;
            if q >= target {
                assert(on_trail_from(ot, v, target));
            }
            assert(t[q] == ot[q]);
        }
        assert forall|p: int| 0 <= p < t.len() implies self.variables.level_seq()[(#[trigger] t[p]).var_spec() as int] == count_le(d, p) by {
            assert(t[p] == ot[p]);
            assert(count_le(od.subrange(0, level), p) == count_le(od, p));
        }
        assert forall|p: int| self.level0_end() <= p < t.len() implies #[trigger] self.reason_ok(p) by {
            assert(t[p] == ot[p]);
            assert(level > 0);
            assert(pre.reason_ok(p));
            let lp = t[p];
            let r = self.variables.reason_seq()[lp.var_spec() as int];
            if r != NULL_CLAUSE {
                let c = self.clauses.clauses()[r as int];
                assert forall|k: int| 0 <= k < c.len() && c[k] != lp implies {
                    &&& lit_false(vals, #[trigger] c[k])
                    &&& on_trail_below(t, c[k].var_spec() as int, p)
                } by {
                    assert(on_trail_below(ot, c[k].var_spec() as int, p));
                    let q = choose|q: int| 0 <= q < p && q < ot.len() && #[trigger] ot[q].var_spec() == c[k].var_spec() as int;
                    assert(t[q] == ot[q]);
                    assert(!on_trail_from(ot, c[k].var_spec() as int, target));
                }
            } else {
                let j = choose|j: int| 0 <= j < od.len() && od[j] == p;
                if j >= level {
                    if j > level {
                        assert(od[level] < od[j]);
                    }
                    assert(false);
                }
                assert(d[j] == p);
            }
        }
        assert forall|p: int| self.level0_end() <= p < t.len() implies lit_true(vals, #[trigger] t[p]) by {
            assert(t[p] == ot[p]);
        }
        assert forall|j: int| 0 <= j < d.len() implies #[trigger] d[j] < t.len() by {
            assert(od[j] < od[level]);
        }
        assert forall|v: int| 0 <= v < n && is_assigned(vals[v]) implies (#[trigger] self.variables.reason_seq()[v] == NULL_CLAUSE || self.variables.reason_seq()[v] < self.clauses.num_clauses()) by {
            if on_trail_from(ot, v, target) {
            } else {
                assert(vals[v] == ovals[v]);
            }
        }
        assert forall|v: int| 0 <= v < n implies 1 <= (#[trigger] vals[v]).0 <= 3 by {
            if !on_trail_from(ot, v, target) {
                assert(vals[v] == ovals[v]);
            }
        }
        assert forall|p: int| 0 <= p < self.level0_end() implies implied(self.formula@, #[trigger] t[p]) by {
            assert(t[p] == ot[p]);
        }
        assert forall|v: int| 0 <= v < n && is_assigned(#[trigger] vals[v]) implies value_on_trail(t, vals, v) by {
            assert(!on_trail_from(ot, v, target));
            assert(vals[v] == ovals[v]);
            let q = choose|q: int| 0 <= q < ot.len() && (#[trigger] ot[q]).var_spec() == v && lit_true(ovals, ot[q]);
            if q >= target {
                assert(on_trail_from(ot, v, target));
            }
            assert(t[q] == ot[q]);
        }
    }

    /// Decides the first unassigned variable from variable 1 on, as false, at a new
    /// decision level. Returns `None` when every such variable is assigned.
    #[verifier::rlimit(30)]
    fn make_decision(&mut self) -> (r: Option<()>)
        requires
            old(self).wf(),
            old(self).trail_ok(),
        ensures
            final(self).wf(),
            final(self).trail_ok(),
            final(self).nvars() == old(self).nvars(),
            final(self).clause_seqs() == old(self).clause_seqs(),
            final(self).clauses == old(self).clauses,
            final(self).watchers == old(self).watchers,
            final(self).conflict_cache == old(self).conflict_cache,
            final(self).formula() == old(self).formula(),
            match r {
                None => *final(self) == *old(self) && forall|v: int| 1 <= v < old(self).nvars() ==> (#[trigger] old(self).values()[v]).0 != 3,
                Some(_) => exists|u: int| 1 <= u < old(self).nvars() && old(self).values()[u].0 == 3
                    && (forall|v: int| 1 <= v < u ==> (#[trigger] old(self).values()[v]).0 != 3)
                    && final(self).trail_seq() == old(self).trail_seq().push(Lit::spec_new(u as nat, true))
                    && final(self).trail_lim_seq() == old(self).trail_lim_seq().push(old(self).trail_seq().len() as usize)
                    && final(self).values() == old(self).values().update(u, Assignment(1)),
            },
    {
        let unassigned = match self.find_first_unassigned_var(1) {
            Some(u) => u,
            None => {
                return None;
            },
        };
        proof {
            self.lemma_trail_bound_unassigned(unassigned as int);
            crate::lit::lemma_neg_involution(Lit::spec_new(unassigned as nat, false));
        }
        let choice = Lit::new(unassigned, false).negate();
        proof {
            crate::lit::lemma_lit_determined(choice, Lit::spec_new(unassigned as nat, true));
        }
        let ghost before = *self;
        self.trail_lim.push(self.trail.len());
        proof {
            assert(self.level0_end() == if before.trail_lim@.len() > 0 { before.level0_end() } else { before.trail@.len() as int });
            lemma_count_le_push_above(before.trail_lim@, before.trail@.len() as int);
            assert forall|p: int| self.level0_end() <= p < self.trail@.len() implies #[trigger] self.reason_ok(p) by {
                assert(before.reason_ok(p));
                let lp = self.trail@[p];
                if self.variables.reason_seq()[lp.var_spec() as int] == NULL_CLAUSE {
                    let j = choose|j: int| 0 <= j < before.trail_lim@.len() && before.trail_lim@[j] == p;
                    assert(self.trail_lim@[j] == p);
                }
            }
            assert(self.trail_core());
            assert(self.new_reason_ok(choice, NULL_CLAUSE));
            assert(self.level0_end() == before.level0_end());
            assert(self.sem_ok()) by {
                reveal(Solver::sem_ok);
            }
        }
        self.set_literal(choice, NULL_CLAUSE);
        Some(())
    }
}

impl Solver {
    /// Whether trail position `p` is where a decision was made.
    fn is_decision_pos(&self, p: usize) -> (b: bool)
        ensures
            b == exists|j: int| 0 <= j < self.trail_lim@.len() && self.trail_lim@[j] == p,
    {
        let mut j: usize = 0;
        while j < self.trail_lim.len()
            invariant
                j <= self.trail_lim@.len(),
                forall|i: int| 0 <= i < j ==> self.trail_lim@[i] != p,
            decreases self.trail_lim@.len() - j,
        {
            if self.trail_lim[j] == p {
                return true;
            }
            j = j + 1;
        }
        false
    }

    /// Goes back to level 0 and sets there again the literals of the clauses of
    /// one literal that were added above it (see `is_pending`), in trail order.
    #[verifier::rlimit(30)]
    fn restart(&mut self)
        requires
            old(self).wf(),
            old(self).trail_loose(),
            old(self).trail_lim_seq().len() > 0,
        ensures
            final(self).wf(),
            final(self).trail_ok(),
            final(self).trail_lim_seq().len() == 0,
            final(self).clauses == old(self).clauses,
            final(self).watchers == old(self).watchers,
            final(self).conflict_cache == old(self).conflict_cache,
            final(self).formula() == old(self).formula(),
            final(self).nvars() == old(self).nvars(),
            final(self).trail_seq().len() >= old(self).level0_end(),
            final(self).trail_seq().subrange(0, old(self).level0_end()) == old(self).trail_seq().subrange(0, old(self).level0_end()),
            forall|c: Seq<Lit>| #[trigger] old(self).clause_covered_loose(c) ==> final(self).clause_covered(c),
            old(self).formula_covered_loose() ==> final(self).formula_covered(),
    {
        let ghost pre = *self;
        let l0 = self.trail_lim[0];
        let mut units: Vec<Lit> = Vec::new();
        let ghost mut pos: Seq<int> = Seq::empty();
        let mut p: usize = l0;
        proof {
            assert(pre.level0_end() == l0);
        }
        while p < self.trail.len()
            invariant
                *self == pre,
                pre.wf(),
                pre.trail_lim@.len() > 0,
                l0 == pre.level0_end(),
                l0 <= p <= pre.trail@.len(),
                units@.len() == pos.len(),
                forall|k: int| 0 <= k < pos.len() ==> l0 <= #[trigger] pos[k] < p && pre.is_pending(pos[k]) && units@[k] == pre.trail@[pos[k]],
                forall|k: int, k2: int| 0 <= k < k2 < pos.len() ==> #[trigger] pos[k] < #[trigger] pos[k2],
                forall|q: int| l0 <= q < p && #[trigger] pre.is_pending(q) ==> exists|k: int| 0 <= k < pos.len() && pos[k] == q,
            decreases pre.trail@.len() - p,
        {
            let ghost pos_before = pos;
            let lit = self.trail[p];
            let r = self.variables.get_reason(lit.var());
            let decision = self.is_decision_pos(p);
            if r == NULL_CLAUSE && !decision {
                units.push(lit);
                proof {
                    pos = pos.push(p as int);
                    assert(pre.is_pending(p as int));
                }
            }
            proof {
                assert forall|q: int| l0 <= q < p + 1 && #[trigger] pre.is_pending(q) implies exists|k: int| 0 <= k < pos.len() && pos[k] == q by {
                    if q == p {
                        assert(pos[pos.len() - 1] == q);
                    } else {
                        let kk = choose|kk: int| 0 <= kk < pos_before.len() && pos_before[kk] == q;
                        assert(pos[kk] == q);
                    }
                }
            }
            p = p + 1;
        }
        proof {
            assert forall|k: int| 0 <= k < units@.len() implies implied(pre.formula@, #[trigger] units@[k]) && units@[k].var_spec() < pre.nvars() by {
                let q = pos[k];
                assert(pre.is_pending(q));
                assert(!pre.reason_ok(q));
            }
        }
        self.backjump(0);
        let ghost jumped = *self;
        let mut k: usize = 0;
        while k < units.len()
            invariant
                self.wf(),
                self.trail_ok(),
                self.trail_lim@.len() == 0,
                self.clauses == pre.clauses,
                self.watchers == pre.watchers,
                self.conflict_cache == pre.conflict_cache,
                self.formula == pre.formula,
                self.nvars() == pre.nvars(),
                l0 <= pre.trail@.len(),
                0 <= k <= units@.len(),
                self.trail@ == pre.trail@.subrange(0, l0 as int) + units@.subrange(0, k as int),
                forall|i: int| 0 <= i < units@.len() ==> implied(pre.formula@, #[trigger] units@[i]) && units@[i].var_spec() < pre.nvars(),
            decreases units@.len() - k,
        {
            let lit = units[k];
            self.set_literal(lit, NULL_CLAUSE);
            proof {
                assert(self.trail@ =~= pre.trail@.subrange(0, l0 as int) + units@.subrange(0, k + 1));
            }
            k = k + 1;
        }
        proof {
            let t = self.trail@;
            assert(units@.subrange(0, units@.len() as int) =~= units@);
            assert(self.level0_end() == t.len());
            assert(t.subrange(0, self.level0_end()) =~= t);
            assert(t.subrange(0, l0 as int) =~= pre.trail@.subrange(0, l0 as int));
            assert forall|c: Seq<Lit>| #[trigger] pre.clause_covered_loose(c) implies self.clause_covered(c) by {
                if pre.clause_covered(c) {
                    if !is_tautology(c) && dedup(c).len() == 1 && pre.trail@.subrange(0, l0 as int).contains(dedup(c)[0]) {
                        let sub = pre.trail@.subrange(0, l0 as int);
                        let j = choose|j: int| 0 <= j < sub.len() && sub[j] == dedup(c)[0];
                        assert(t[j] == sub[j]);
                    } else if !is_tautology(c) && !(dedup(c).len() == 1 && pre.trail@.subrange(0, l0 as int).contains(dedup(c)[0])) {
                        let id = choose|id: int| 0 <= id < pre.clauses.num_clauses() && same_lits(dedup(c), #[trigger] pre.clauses.clauses()[id]);
                        assert(same_lits(dedup(c), self.clauses.clauses()[id]));
                    }
                } else {
                    let q = choose|q: int| #[trigger] pre.is_pending(q) && pre.trail@[q] == dedup(c)[0];
                    assert(l0 <= q < pre.trail@.len());
                    let kk = choose|kk: int| 0 <= kk < pos.len() && pos[kk] == q;
                    assert(t[l0 + kk] == units@[kk]);
                    assert(t.contains(dedup(c)[0]));
                }
            }
            if pre.formula_covered_loose() {
                reveal(Solver::formula_covered);
                reveal(Solver::formula_covered_loose);
                assert forall|i: int| 0 <= i < self.formula@.len() implies #[trigger] self.clause_covered(self.formula@[i]) by {
                    assert(pre.clause_covered_loose(self.formula@[i]));
                }
            }
        }
    }
}

impl Solver {
    /// Exchanging two literals of a stored clause keeps the solver well formed and
    /// its trail in agreement with the values.
    #[verifier::rlimit(20)]
    proof fn lemma_swap_keeps(self, pre: Solver, id: int, i: int, j: int)
        requires
            pre.wf(),
            0 <= id < pre.clauses.num_clauses(),
            0 <= i < pre.clauses.clauses()[id].len(),
            0 <= j < pre.clauses.clauses()[id].len(),
            self.clauses.wf(),
            self.clauses.clauses() == pre.clauses.clauses().update(id, swap_spec(pre.clauses.clauses()[id], i, j)),
            self.variables == pre.variables,
            self.watchers == pre.watchers,
            self.trail == pre.trail,
            self.trail_lim == pre.trail_lim,
            self.formula == pre.formula,
        ensures
            self.wf(),
            pre.trail_ok() ==> self.trail_ok(),
            pre.trail_core() ==> self.trail_core(),
    {
        reveal(Solver::sem_ok);
        let c = pre.clauses.clauses()[id];
        lemma_swap_contents(c, i, j);
        if pre.sem_ok() {
            assert forall|k: int| 0 <= k < self.clauses.num_clauses() implies clause_implied(self.formula@, #[trigger] self.clauses.clauses()[k]) by {
                if k == id {
                    assert forall|m: spec_fn(nat) -> bool| #[trigger] models(m, self.formula@) implies clause_holds(m, self.clauses.clauses()[k]) by {
                        assert(clause_implied(pre.formula@, c));
                        lemma_clause_holds_swap(m, c, i, j);
                    }
                } else {
                    assert(clause_implied(pre.formula@, pre.clauses.clauses()[k]));
                }
            }
        }
        let sc = swap_spec(c, i, j);
        assert forall|k: int| 0 <= k < self.clauses.num_clauses() implies {
            &&& (#[trigger] self.clauses.clauses()[k]).len() >= 2
            &&& distinct_vars(self.clauses.clauses()[k])
            &&& forall|m: int| 0 <= m < self.clauses.clauses()[k].len() ==> #[trigger] self.clauses.clauses()[k][m].var_spec() < self.variables.num_vars()
        } by {
            if k == id {
                assert forall|m: int| 0 <= m < sc.len() implies #[trigger] sc[m].var_spec() < self.variables.num_vars() by {
                    let m2 = if m == i { j } else if m == j { i } else { m };
                    assert(c[m2].var_spec() < pre.variables.num_vars());
                }
            }
        }
        assert(self.wf());
        if pre.trail_core() {
            assert forall|p: int| self.level0_end() <= p < self.trail@.len() implies #[trigger] self.reason_ok(p) by {
                assert(pre.reason_ok(p));
                let lp = self.trail@[p];
                let r = self.variables.reason_seq()[lp.var_spec() as int];
                if r != NULL_CLAUSE && r as int == id {
                    assert forall|k: int| 0 <= k < sc.len() && sc[k] != lp implies {
                        &&& lit_false(self.variables.values_seq(), #[trigger] sc[k])
                        &&& on_trail_below(self.trail@, sc[k].var_spec() as int, p)
                    } by {
                        let k2 = if k == i { j } else if k == j { i } else { k };
                        assert(sc[k] == c[k2]);
                    }
                }
            }
        }
    }

    /// Propagates the clause `clause_id` (designated by `clause`) once its literal
    /// `falsified_lit` became false.
    ///
    /// Nothing happens unless `falsified_lit` is one of the two watched literals
    /// (the first two), as a watch may be stale; it is then moved to the second
    /// position. If the first literal is true, nothing more happens. Otherwise, if
    /// a literal from the third on is not false, it becomes the second watched
    /// literal and gets a watch. Otherwise the first literal is false, which is a
    /// conflict (`None`), or unassigned, and it is then set with this clause as its
    /// reason.
    #[verifier::rlimit(30)]
    fn propagate_clause(&mut self, clause_id: ClauseId, clause: ClauseAccessor, falsified_lit: Lit) -> (r: Option<()>)
        requires
            old(self).wf(),
            old(self).trail_ok(),
            clause_id < old(self).clause_seqs().len(),
            clause == old(self).clauses.spec_get(clause_id as int),
            falsified_lit.var_spec() < old(self).nvars(),
            old(self).trail_lim_seq().len() == 0 || lit_false(old(self).values(), falsified_lit),
            old(self).trail_lim_seq().len() == 0 && (old(self).clause_seqs()[clause_id as int][0] == falsified_lit
                || old(self).clause_seqs()[clause_id as int][1] == falsified_lit) ==> implied(old(self).formula(), falsified_lit.opposite()),
        ensures
            final(self).wf(),
            final(self).trail_ok(),
            old(self).same_frame(*final(self)),
            final(self).trail_seq() == old(self).trail_seq() ==> final(self).levels() == old(self).levels() && final(self).reasons() == old(self).reasons(),
            final(self).trail_seq().len() > old(self).trail_seq().len() ==> {
                let v = final(self).trail_seq().last().var_spec() as int;
                &&& final(self).levels() == old(self).levels().update(v, old(self).trail_lim_seq().len() as u32)
                &&& final(self).reasons() == old(self).reasons().update(v, clause_id)
            },
            ({
                let c = old(self).clause_seqs()[clause_id as int];
                let watched = c[0] == falsified_lit || c[1] == falsified_lit;
                let c1 = if c[0] == falsified_lit { swap_spec(c, 0, 1) } else { c };
                &&& !watched ==> r is Some && *final(self) == *old(self)
                &&& watched ==> watched_outcome(*old(self), *final(self), clause_id as int, c1, r)
            }),
    {
        proof {
            self.clauses.lemma_spec_get(clause_id as int);
        }
        let ghost c = self.clauses.clauses()[clause_id as int];
        let ghost pre = *self;
        let len = clause.len();
        assert(len >= 2);
        let lits = self.clauses.literals(clause);
        if lits[0] != falsified_lit && lits[1] != falsified_lit {
            // A stale watch: the clause no longer watches this literal.
            proof {
                pre.same_frame_refl();
            }
            return Some(());
        }
        proof {
            pre.clauses.lemma_get_injective(
                choose|id: int| 0 <= id < pre.clauses.num_clauses() && pre.clauses.spec_get(id) == clause,
                clause_id as int,
            );
        }
        self.clauses.ensure_falsified_at_pos1(clause, falsified_lit);
        proof {
            lemma_swap_contents(c, 0, 1);
            if c[0] == falsified_lit {
                self.lemma_swap_keeps(pre, clause_id as int, 0, 1);
            } else {
                assert(swap_spec(c, 0, 0) =~= c);
                assert(self.clauses.clauses() =~= pre.clauses.clauses().update(clause_id as int, swap_spec(c, 0, 0)));
                self.lemma_swap_keeps(pre, clause_id as int, 0, 0);
            }
            assert(self.trail@.subrange(0, self.trail@.len() as int) =~= self.trail@);
        }
        let set_lit = falsified_lit.negate();
        let ghost mid = *self;
        let ghost c1 = self.clauses.clauses()[clause_id as int];
        proof {
            lemma_neg_involution(falsified_lit);
            assert(c1[1] == falsified_lit);
        }
        let r = self.propagate_watched(clause_id, clause, set_lit);
        proof {
            assert(pre.clause_seqs().update(clause_id as int, c1) =~= mid.clause_seqs());
            lemma_watched_outcome_base(mid, pre, *self, clause_id as int, c1, r);
        }
        r
    }

    /// The fields that propagation never changes, and what it keeps of the others.
    pub closed spec fn same_frame(self, post: Solver) -> bool {
        &&& post.formula == self.formula
        &&& post.nvars() == self.nvars()
        &&& post.trail_lim@ == self.trail_lim@
        &&& post.conflict_cache == self.conflict_cache
        &&& post.clauses.num_clauses() == self.clauses.num_clauses()
        &&& forall|k: int| 0 <= k < self.clauses.num_clauses() ==> #[trigger] post.clauses.spec_get(k) == self.clauses.spec_get(k)
        &&& forall|k: int| 0 <= k < self.clauses.num_clauses() ==> same_lits(self.clauses.clauses()[k], #[trigger] post.clauses.clauses()[k])
        &&& post.variables.level_seq().len() == self.variables.level_seq().len()
        &&& num_unassigned(post.values()) + post.trail@.len() == num_unassigned(self.values()) + self.trail@.len()
        &&& post.trail@.len() >= self.trail@.len()
        &&& post.trail@.subrange(0, self.trail@.len() as int) == self.trail@
    }

    /// Propagation of clause `clause_id` once the negation of `set_lit`, which was
    /// set, is its second literal.
    #[verifier::rlimit(30)]
    fn propagate_watched(&mut self, clause_id: ClauseId, clause: ClauseAccessor, set_lit: Lit) -> (r: Option<()>)
        requires
            old(self).wf(),
            old(self).trail_ok(),
            clause_id < old(self).clause_seqs().len(),
            clause == old(self).clauses.spec_get(clause_id as int),
            old(self).clause_seqs()[clause_id as int][1] == set_lit.opposite(),
            old(self).trail_lim_seq().len() == 0 || lit_true(old(self).values(), set_lit),
            old(self).trail_lim_seq().len() == 0 ==> implied(old(self).formula(), set_lit),
        ensures
            final(self).wf(),
            final(self).trail_ok(),
            old(self).same_frame(*final(self)),
            final(self).trail_seq() == old(self).trail_seq() ==> final(self).levels() == old(self).levels() && final(self).reasons() == old(self).reasons(),
            final(self).trail_seq().len() > old(self).trail_seq().len() ==> {
                let v = final(self).trail_seq().last().var_spec() as int;
                &&& final(self).levels() == old(self).levels().update(v, old(self).trail_lim_seq().len() as u32)
                &&& final(self).reasons() == old(self).reasons().update(v, clause_id)
            },
            watched_outcome(*old(self), *final(self), clause_id as int, old(self).clause_seqs()[clause_id as int], r),
    {
        proof {
            self.clauses.lemma_spec_get(clause_id as int);
        }
        let ghost c1 = self.clauses.clauses()[clause_id as int];
        let ghost vals = self.variables.values_seq();
        let blocking_literal = self.clauses.literals(clause)[0];
        let blocking_state = self.literal_state(blocking_literal);
        if blocking_state == Assignment::positive() {
            proof {
                assert(self.clause_seqs().update(clause_id as int, c1) =~= self.clause_seqs());
                assert(self.trail@.subrange(0, self.trail@.len() as int) =~= self.trail@);
            }
            return Some(());
        }
        let found = self.find_satisfiable_literal(clause, 2);
        proof {
            assert(self.clause_at(clause) == c1);
        }
        if let Some(nonempty_pos) = found {
            proof {
                assert(is_first_free(vals, c1, 2, nonempty_pos as int));
                let chosen = choose|pos: int| is_first_free(vals, c1, 2, pos);
                lemma_first_free_unique(vals, c1, 2, chosen, nonempty_pos as int);
            }
            self.move_second_watch(clause_id, clause, nonempty_pos);
            Some(())
        } else {
            proof {
                assert forall|j: int| 2 <= j < c1.len() implies !(#[trigger] lit_state(vals, c1[j])).has_pos() by {
                    assert(c1[j] == self.clause_at(clause)[j]);
                }
                assert forall|pos: int| !is_first_free(vals, c1, 2, pos) by {
                    if 2 <= pos < c1.len() {
                        assert(!lit_state(vals, c1[pos]).has_pos());
                    }
                }
                assert(self.clause_seqs().update(clause_id as int, c1) =~= self.clause_seqs());
            }
            self.assign_or_conflict(clause_id, set_lit, blocking_literal, blocking_state)
        }
    }

    /// Makes the literal at `pos` (not false) the second watched literal of clause
    /// `clause_id` and gives it a watch.
    #[verifier::rlimit(30)]
    fn move_second_watch(&mut self, clause_id: ClauseId, clause: ClauseAccessor, pos: usize)
        requires
            old(self).wf(),
            old(self).trail_ok(),
            clause_id < old(self).clause_seqs().len(),
            clause == old(self).clauses.spec_get(clause_id as int),
            2 <= pos < old(self).clause_seqs()[clause_id as int].len(),
        ensures
            final(self).wf(),
            final(self).trail_ok(),
            old(self).same_frame(*final(self)),
            final(self).clause_seqs() == old(self).clause_seqs().update(clause_id as int, swap_spec(old(self).clause_seqs()[clause_id as int], 1, pos as int)),
            final(self).values() == old(self).values(),
            final(self).trail_seq() == old(self).trail_seq(),
            final(self).levels() == old(self).levels(),
            final(self).reasons() == old(self).reasons(),
            forall|l: Lit| #[trigger] final(self).watch_list_of(l) == if l == old(self).clause_seqs()[clause_id as int][pos as int] {
                old(self).watch_list_of(l).push(Watcher { clause: clause_id })
            } else {
                old(self).watch_list_of(l)
            },
    {
        let ghost c1 = self.clauses.clauses()[clause_id as int];
        let ghost mid = *self;
        proof {
            self.clauses.lemma_spec_get(clause_id as int);
        }
        self.clauses.swap_literals(Ghost(clause_id as int), clause, 1, pos);
        proof {
            lemma_swap_contents(c1, 1, pos as int);
            self.lemma_swap_keeps(mid, clause_id as int, 1, pos as int);
            self.clauses.lemma_spec_get(clause_id as int);
        }
        let new_watched_lit = self.clauses.literals(clause)[1];
        let ghost before_watch = *self;
        self.watchers.add_watch(new_watched_lit, Watcher { clause: clause_id });
        proof {
            self.lemma_same_trail(before_watch);
            assert(new_watched_lit == c1[pos as int]);
            assert(self.trail@.subrange(0, self.trail@.len() as int) =~= self.trail@);
        }
    }

    /// The end of propagating a clause whose literals from the second on are all
    /// false: a false first literal is a conflict (`None`); an unassigned one is set
    /// with this clause as its reason.
    #[verifier::rlimit(30)]
    fn assign_or_conflict(&mut self, clause_id: ClauseId, set_lit: Lit, blocking_literal: Lit, blocking_state: Assignment) -> (r: Option<()>)
        requires
            old(self).wf(),
            old(self).trail_ok(),
            clause_id < old(self).clause_seqs().len(),
            old(self).clause_seqs()[clause_id as int][1] == set_lit.opposite(),
            old(self).clause_seqs()[clause_id as int][0] == blocking_literal,
            blocking_state == lit_state(old(self).values(), blocking_literal),
            blocking_state != Assignment(2),
            old(self).trail_lim_seq().len() == 0 || lit_true(old(self).values(), set_lit),
            old(self).trail_lim_seq().len() == 0 ==> implied(old(self).formula(), set_lit),
            forall|j: int| 2 <= j < old(self).clause_seqs()[clause_id as int].len() ==> !(#[trigger] lit_state(old(self).values(), old(self).clause_seqs()[clause_id as int][j])).has_pos(),
        ensures
            final(self).wf(),
            final(self).trail_ok(),
            old(self).same_frame(*final(self)),
            final(self).trail_seq() == old(self).trail_seq() ==> final(self).levels() == old(self).levels() && final(self).reasons() == old(self).reasons(),
            final(self).trail_seq().len() > old(self).trail_seq().len() ==> {
                let v = final(self).trail_seq().last().var_spec() as int;
                &&& final(self).levels() == old(self).levels().update(v, old(self).trail_lim_seq().len() as u32)
                &&& final(self).reasons() == old(self).reasons().update(v, clause_id)
            },
            final(self).clause_seqs() == old(self).clause_seqs(),
            final(self).watchers == old(self).watchers,
            ({
                let c1 = old(self).clause_seqs()[clause_id as int];
                let vals = old(self).values();
                if blocking_state == Assignment(1) {
                    &&& r is None
                    &&& final(self).values() == vals
                    &&& final(self).trail_seq() == old(self).trail_seq()
                    &&& forall|k: int| 0 <= k < c1.len() && k != 1 ==> lit_false(vals, #[trigger] c1[k])
                } else {
                    &&& r is Some
                    &&& final(self).values() == vals.update(blocking_literal.var_spec() as int, Assignment::of_bool(blocking_literal.is_pos_spec()))
                    &&& final(self).trail_seq() == old(self).trail_seq().push(blocking_literal)
                }
            }),
    {
        let ghost c1 = self.clauses.clauses()[clause_id as int];
        let ghost vals = self.variables.values_seq();
        proof {
            assert(self.trail@.subrange(0, self.trail@.len() as int) =~= self.trail@);
            assert(c1[0].var_spec() < self.nvars());
            assert forall|k: int| 2 <= k < c1.len() implies lit_false(vals, #[trigger] c1[k]) by {
                assert(!lit_state(vals, c1[k]).has_pos());
                assert(c1[k].var_spec() < self.nvars());
                lemma_state_false(vals, c1[k]);
            }
        }
        if blocking_state == Assignment::negative() {
            proof {
                lemma_state_false(vals, c1[0]);
            }
            return None;
        }
        proof {
            lemma_state_unassigned(vals, blocking_literal);
            assert(c1.contains(blocking_literal));
            if self.trail_lim@.len() > 0 {
                assert forall|k: int| 0 <= k < c1.len() && c1[k] != blocking_literal implies lit_false(vals, #[trigger] c1[k]) by {
                    if k == 1 {
                        assert(c1[1] == set_lit.opposite());
                    }
                }
                self.clauses.lemma_num_bound();
                assert(self.new_reason_ok(blocking_literal, clause_id));
            } else {
                self.lemma_level0_forced(clause_id as int, set_lit);
            }
        }
        self.set_literal(blocking_literal, clause_id);
        proof {
            lemma_num_unassigned_assign(vals, blocking_literal.var_spec() as int, Assignment::of_bool(blocking_literal.is_pos_spec()));
            assert(self.trail@.subrange(0, self.trail@.len() - 1) =~= old(self).trail@);
        }
        Some(())
    }
}

impl Solver {
    /// Whether the trail agrees with the values depends on the variables, the
    /// trail and the clauses only; and adding a watch on a stored clause keeps the
    /// solver well formed.
    proof fn lemma_same_trail(self, pre: Solver)
        requires
            pre.wf(),
            self.variables == pre.variables,
            self.trail == pre.trail,
            self.trail_lim == pre.trail_lim,
            self.clauses == pre.clauses,
            self.formula == pre.formula,
            self.watchers.wf(),
            forall|l: Lit, k: int| 0 <= k < self.watchers.watch_list(l).len() ==> (#[trigger] self.watchers.watch_list(l)[k]).clause < self.clauses.num_clauses(),
        ensures
            self.wf(),
            pre.trail_ok() ==> self.trail_ok(),
            pre.trail_core() ==> self.trail_core(),
    {
        reveal(Solver::sem_ok);
        if pre.trail_core() {
            assert forall|p: int| self.level0_end() <= p < self.trail@.len() implies #[trigger] self.reason_ok(p) by {
                assert(pre.reason_ok(p));
            }
        }
    }
}

/// `pos` is the first index at or after `from` whose literal in `c` is not false.
pub open spec fn is_first_free(vals: Seq<Assignment>, c: Seq<Lit>, from: int, pos: int) -> bool {
    &&& from <= pos < c.len()
    &&& lit_state(vals, c[pos]).has_pos()
    &&& forall|j: int| from <= j < pos ==> !(#[trigger] lit_state(vals, c[j])).has_pos()
}

/// What propagating a clause whose second literal is the falsified one does,
/// with `c1` that clause: nothing when the first literal is true; a new second
/// watched literal when some literal from the third on is not false; otherwise a
/// conflict when the first literal is false, or the assignment of the first
/// literal.
pub open spec fn watched_outcome(pre: Solver, post: Solver, id: int, c1: Seq<Lit>, r: Option<()>) -> bool {
    let vals = pre.values();
    let b = c1[0];
    let base = pre.clause_seqs();
    if lit_state(vals, b) == Assignment(2) {
        &&& r is Some
        &&& post.clause_seqs() == base.update(id, c1)
        &&& post.values() == vals
        &&& post.trail_seq() == pre.trail_seq()
        &&& forall|l: Lit| #[trigger] post.watch_list_of(l) == pre.watch_list_of(l)
    } else if exists|pos: int| is_first_free(vals, c1, 2, pos) {
        let pos = choose|pos: int| is_first_free(vals, c1, 2, pos);
        &&& r is Some
        &&& post.clause_seqs() == base.update(id, swap_spec(c1, 1, pos))
        &&& post.values() == vals
        &&& post.trail_seq() == pre.trail_seq()
        &&& forall|l: Lit| #[trigger] post.watch_list_of(l) == if l == c1[pos] {
            pre.watch_list_of(l).push(Watcher { clause: id as u32 })
        } else {
            pre.watch_list_of(l)
        }
    } else if lit_state(vals, b) == Assignment(1) {
        &&& r is None
        &&& post.clause_seqs() == base.update(id, c1)
        &&& post.values() == vals
        &&& post.trail_seq() == pre.trail_seq()
        &&& forall|l: Lit| #[trigger] post.watch_list_of(l) == pre.watch_list_of(l)
        &&& forall|k: int| 0 <= k < c1.len() && k != 1 ==> lit_false(vals, #[trigger] c1[k])
    } else {
        &&& r is Some
        &&& post.clause_seqs() == base.update(id, c1)
        &&& post.values() == vals.update(b.var_spec() as int, Assignment::of_bool(b.is_pos_spec()))
        &&& post.trail_seq() == pre.trail_seq().push(b)
        &&& forall|l: Lit| #[trigger] post.watch_list_of(l) == pre.watch_list_of(l)
    }
}

/// `watched_outcome` relative to a state that differs from `pre` only in clause `id`.
proof fn lemma_watched_outcome_base(mid: Solver, pre: Solver, post: Solver, id: int, c1: Seq<Lit>, r: Option<()>)
    requires
        watched_outcome(mid, post, id, c1, r),
        mid.clause_seqs() == pre.clause_seqs().update(id, c1),
        0 <= id < pre.clause_seqs().len(),
        mid.values() == pre.values(),
        mid.trail_seq() == pre.trail_seq(),
        forall|l: Lit| #[trigger] mid.watch_list_of(l) == pre.watch_list_of(l),
    ensures
        watched_outcome(pre, post, id, c1, r),
{
    assert(mid.clause_seqs().update(id, c1) =~= pre.clause_seqs().update(id, c1));
    if exists|pos: int| is_first_free(pre.values(), c1, 2, pos) {
        let pos = choose|pos: int| is_first_free(pre.values(), c1, 2, pos);
        assert(mid.clause_seqs().update(id, swap_spec(c1, 1, pos)) =~= pre.clause_seqs().update(id, swap_spec(c1, 1, pos)));
    }
}

/// There is only one first free position.
proof fn lemma_first_free_unique(vals: Seq<Assignment>, c: Seq<Lit>, from: int, a: int, b: int)
    requires
        is_first_free(vals, c, from, a),
        is_first_free(vals, c, from, b),
    ensures
        a == b,
{
    if a < b {
        assert(!lit_state(vals, c[a]).has_pos());
    } else if b < a {
        assert(!lit_state(vals, c[b]).has_pos());
    }
}

/// The number of unassigned variables.
pub open spec fn num_unassigned(vals: Seq<Assignment>) -> nat
    decreases vals.len(),
{
    if vals.len() == 0 {
        0
    } else {
        num_unassigned(vals.drop_last()) + if vals.last().0 == 3 {
            1nat
        } else {
            0nat
        }
    }
}

/// Assigning an unassigned variable removes one unassigned variable.
proof fn lemma_num_unassigned_assign(vals: Seq<Assignment>, v: int, a: Assignment)
    requires
        0 <= v < vals.len(),
        vals[v].0 == 3,
        a.0 != 3,
    ensures
        num_unassigned(vals.update(v, a)) + 1 == num_unassigned(vals),
    decreases vals.len(),
{
    if v == vals.len() - 1 {
        assert(vals.update(v, a).drop_last() =~= vals.drop_last());
    } else {
        lemma_num_unassigned_assign(vals.drop_last(), v, a);
        assert(vals.update(v, a).drop_last() =~= vals.drop_last().update(v, a));
    }
}

/// A valid literal state that cannot be true is "false", and the literal is false.
proof fn lemma_state_false(vals: Seq<Assignment>, l: Lit)
    requires
        0 <= l.var_spec() < vals.len(),
        1 <= vals[l.var_spec() as int].0 <= 3,
        !lit_state(vals, l).has_pos() || lit_state(vals, l) == Assignment(1),
    ensures
        lit_false(vals, l),
{
}

/// A valid literal state that is neither true nor false is unassigned.
proof fn lemma_state_unassigned(vals: Seq<Assignment>, l: Lit)
    requires
        0 <= l.var_spec() < vals.len(),
        1 <= vals[l.var_spec() as int].0 <= 3,
        lit_state(vals, l) != Assignment(1),
        lit_state(vals, l) != Assignment(2),
    ensures
        vals[l.var_spec() as int].0 == 3,
{
}

impl Solver {
    /// Starts the watches of clause `clause_id` before the search, at level 0: its
    /// second then its first literal is watched when it is not false, and
    /// propagated as a falsified literal when it is. `None` means that all the
    /// literals of the clause are false, so the clauses have no model.
    #[verifier::rlimit(60)]
    fn initial_propagate_clause(&mut self, clause_id: ClauseId) -> (r: Option<()>)
        requires
            old(self).wf(),
            old(self).trail_ok(),
            old(self).trail_lim_seq().len() == 0,
            old(self).all_true(),
            clause_id < old(self).clause_seqs().len(),
        ensures
            final(self).wf(),
            final(self).trail_ok(),
            old(self).same_frame(*final(self)),
            old(self).watches_grow(*final(self)),
            forall|k: int| 0 <= k < old(self).clause_seqs().len() && k != clause_id ==> #[trigger] final(self).clause_seqs()[k] == old(self).clause_seqs()[k],
            same_lits(old(self).clause_seqs()[clause_id as int], final(self).clause_seqs()[clause_id as int]),
            forall|v: int| 0 <= v < old(self).nvars() && is_assigned(#[trigger] old(self).values()[v]) ==> final(self).values()[v] == old(self).values()[v],
            final(self).all_true(),
            r is None ==> forall|m: spec_fn(nat) -> bool| !models(m, old(self).formula()),
            r is Some ==> final(self).clause_watch_ok(clause_id as int, 0),
    {
        let ghost id = clause_id as int;
        let clause = self.clauses.get(clause_id);
        let ghost pre = *self;
        let ghost c = self.clauses.clauses()[id];
        proof {
            self.clauses.lemma_spec_get(id);
            pre.same_frame_refl();
            pre.lemma_watches_grow_same(pre);
            assert(c.len() >= 2);
            assert(c[0].var_spec() != c[1].var_spec());
        }
        // The second literal.
        let lit1 = self.clauses.literals(clause)[1];
        let state1 = self.literal_state(lit1);
        proof {
            assert(lit1 == c[1]);
            lemma_state_false_iff(pre.values(), lit1);
            lemma_neg_involution(lit1);
        }
        if state1 == Assignment::negative() {
            proof {
                self.lemma_false_at_level0(lit1);
            }
            let r = self.propagate_clause(clause_id, clause, lit1);
            proof {
                assert(c[0] != lit1);
                pre.lemma_init_outcome(*self, id, c, r);
            }
            if r.is_none() {
                proof {
                    self.lemma_all_false_level0(id);
                }
                return None;
            }
        } else {
            self.watchers.add_watch(lit1, Watcher { clause: clause_id });
            proof {
                self.lemma_same_trail(pre);
                pre.lemma_frame_of_watch_change(*self);
                pre.lemma_add_watch_grow(*self, lit1, clause_id);
                assert(self.clause_seqs() == pre.clause_seqs());
            }
        }
        let ghost s1 = *self;
        let ghost d = self.clauses.clauses()[id];
        proof {
            assert(forall|x: Lit| d.contains(x) <==> c.contains(x));
            assert(s1.clauses.spec_get(id) == clause);
            s1.clauses.lemma_spec_get(id);
            assert(d.len() >= 2);
            assert(d[0].var_spec() != d[1].var_spec());
            s1.lemma_all_true_after(pre);
            // The second literal is watched and not false, or the first is true
            // and the second false.
            assert((watched_in(s1.watch_list_of(d[1]), id, 0, s1.watch_list_of(d[1]).len() as int) && !lit_false(s1.values(), d[1]))
                || (lit_true(s1.values(), d[0]) && lit_false(s1.values(), d[1])));
        }
        // The first literal.
        let lit0 = self.clauses.literals(clause)[0];
        let state0 = self.literal_state(lit0);
        proof {
            assert(lit0 == d[0]);
            lemma_state_false_iff(s1.values(), lit0);
            lemma_neg_involution(lit0);
        }
        if state0 == Assignment::negative() {
            proof {
                self.lemma_false_at_level0(lit0);
                lemma_swap_contents(d, 0, 1);
            }
            let r = self.propagate_clause(clause_id, clause, lit0);
            proof {
                s1.lemma_init_outcome(*self, id, swap_spec(d, 0, 1), r);
            }
            if r.is_none() {
                proof {
                    self.lemma_all_false_level0(id);
                    assert forall|m: spec_fn(nat) -> bool| !models(m, old(self).formula()) by {
                        assert(self.formula@ == old(self).formula@);
                    }
                }
                return None;
            }
            proof {
                let e = self.clauses.clauses()[id];
                // `d[1]`, watched in `s1`, is now first.
                assert(e[0] == d[1]);
                s1.lemma_watched_grows(*self, d[1], id);
            }
        } else {
            let ghost before = *self;
            self.watchers.add_watch(lit0, Watcher { clause: clause_id });
            proof {
                self.lemma_same_trail(before);
                before.lemma_frame_of_watch_change(*self);
                before.lemma_add_watch_grow(*self, lit0, clause_id);
                assert(self.clause_seqs() == before.clause_seqs());
                before.lemma_watched_grows(*self, d[1], id);
            }
        }
        proof {
            pre.same_frame_trans(s1, *self);
            pre.lemma_watches_grow_trans(s1, *self);
            self.lemma_all_true_after(s1);
            let e = self.clauses.clauses()[id];
            assert(forall|x: Lit| e.contains(x) <==> c.contains(x));
            self.lemma_init_watch_ok(id);
        }
        Some(())
    }

    /// Starts the watches of every stored clause, in clause order, before the
    /// search, at level 0. `None` means that the clauses have no model.
    #[verifier::rlimit(30)]
    fn initial_propagate(&mut self) -> (r: Option<()>)
        requires
            old(self).wf(),
            old(self).trail_ok(),
            old(self).trail_lim_seq().len() == 0,
            old(self).all_true(),
        ensures
            final(self).wf(),
            final(self).trail_ok(),
            old(self).same_frame(*final(self)),
            forall|k: int| 0 <= k < old(self).clause_seqs().len() ==> same_lits(old(self).clause_seqs()[k], #[trigger] final(self).clause_seqs()[k]),
            r is None ==> forall|m: spec_fn(nat) -> bool| !models(m, old(self).formula()),
            r is Some ==> final(self).all_true() && final(self).watches_sound(0, final(self).clause_seqs()),
    {
        let n = self.clauses.len();
        let ghost pre = *self;
        proof {
            pre.same_frame_refl();
        }
        let mut id: usize = 0;
        while id < n
            invariant
                pre == *old(self),
                0 <= id <= n,
                n == pre.clauses.num_clauses(),
                pre.wf(),
                pre.trail_ok(),
                self.wf(),
                self.trail_ok(),
                pre.same_frame(*self),
                self.trail_lim@.len() == 0,
                self.all_true(),
                forall|k: int| 0 <= k < n ==> same_lits(pre.clause_seqs()[k], #[trigger] self.clause_seqs()[k]),
                forall|k: int| 0 <= k < id ==> #[trigger] self.clause_watch_ok(k, 0),
            decreases n - id,
        {
            let ghost before = *self;
            proof {
                pre.clauses.lemma_num_bound();
            }
            let r = self.initial_propagate_clause(id as u32);
            proof {
                pre.same_frame_trans(before, *self);
                assert forall|k: int| 0 <= k < n implies same_lits(pre.clause_seqs()[k], #[trigger] self.clause_seqs()[k]) by {
                    assert(same_lits(pre.clause_seqs()[k], before.clause_seqs()[k]));
                    if k != id {
                        assert(self.clause_seqs()[k] == before.clause_seqs()[k]);
                    }
                }
            }
            if r.is_none() {
                proof {
                    assert(before.formula@ == pre.formula@);
                    assert forall|m: spec_fn(nat) -> bool| !models(m, pre.formula()) by {
                        assert(!models(m, before.formula()));
                    }
                }
                return None;
            }
            proof {
                let b = before.clause_seqs().subrange(0, id as int);
                assert forall|k: int| 0 <= k < b.len() implies same_lits(#[trigger] b[k], before.clauses.clauses()[k]) by {
                }
                assert(before.watches_sound(0, b));
                assert forall|k: int| 0 <= k < b.len() implies #[trigger] self.clauses.clauses()[k] == before.clauses.clauses()[k] by {
                }
                assert forall|p: int| 0 <= p < before.trail@.len() implies #[trigger] count_le(self.trail_lim@, p) == count_le(before.trail_lim@, p) by {
                }
                before.lemma_sound_frame(*self, 0, b);
                assert forall|k: int| 0 <= k < id + 1 implies #[trigger] self.clause_watch_ok(k, 0) by {
                    if k < id {
                        assert(b[k] == before.clause_seqs()[k]);
                    }
                }
                assert forall|k: int| 0 <= k < n implies same_lits(pre.clause_seqs()[k], #[trigger] self.clause_seqs()[k]) by {
                    assert(same_lits(pre.clause_seqs()[k], before.clause_seqs()[k]));
                    if k != id {
                        assert(self.clause_seqs()[k] == before.clause_seqs()[k]);
                    }
                }
            }
            id = id + 1;
        }
        proof {
            assert forall|k: int| 0 <= k < self.clause_seqs().len() implies same_lits(#[trigger] self.clause_seqs()[k], self.clauses.clauses()[k]) by {
            }
        }
        Some(())
    }

    /// Whether every trail literal is true: a false one means that the clauses of
    /// one literal given so far contradict each other.
    fn trail_all_true(&self) -> (b: bool)
        requires
            self.wf(),
        ensures
            b == self.all_true(),
    {
        let mut p: usize = 0;
        while p < self.trail.len()
            invariant
                self.wf(),
                p <= self.trail@.len(),
                forall|k: int| 0 <= k < p ==> lit_true(self.values(), #[trigger] self.trail@[k]),
            decreases self.trail@.len() - p,
        {
            let lit = self.trail[p];
            let state = self.literal_state(lit);
            proof {
                lemma_state_false_iff(self.values(), lit);
            }
            if state != Assignment::positive() {
                return false;
            }
            p = p + 1;
        }
        true
    }
}

impl Solver {
    /// What propagating a clause `c1` whose second literal is false does (see
    /// `watched_outcome`), as the start of the watches needs it: the clause keeps
    /// its literals and its first one; on success its first literal is true and
    /// its second false, or its second literal is watched and not false; on a
    /// conflict all its literals are false.
    #[verifier::rlimit(20)]
    proof fn lemma_init_outcome(self, post: Solver, id: int, c1: Seq<Lit>, r: Option<()>)
        requires
            self.wf(),
            0 <= id < self.clause_seqs().len(),
            watched_outcome(self, post, id, c1, r),
            c1.len() >= 2,
            c1[0].var_spec() != c1[1].var_spec(),
            forall|k: int| 0 <= k < c1.len() ==> #[trigger] c1[k].var_spec() < self.nvars(),
            lit_false(self.values(), c1[1]),
        ensures
            post.clause_seqs().len() == self.clause_seqs().len(),
            forall|k: int| 0 <= k < self.clause_seqs().len() && k != id ==> #[trigger] post.clause_seqs()[k] == self.clause_seqs()[k],
            post.clause_seqs()[id].len() == c1.len(),
            post.clause_seqs()[id][0] == c1[0],
            forall|x: Lit| post.clause_seqs()[id].contains(x) <==> c1.contains(x),
            self.watches_grow(post),
            forall|v: int| 0 <= v < self.nvars() && is_assigned(#[trigger] self.values()[v]) ==> post.values()[v] == self.values()[v],
            post.values().len() == self.values().len(),
            post.trail_seq() == self.trail_seq() || (post.trail_seq() == self.trail_seq().push(c1[0]) && lit_true(post.values(), c1[0])),
            r is None ==> forall|k: int| 0 <= k < c1.len() ==> lit_false(post.values(), #[trigger] post.clause_seqs()[id][k]),
            r is Some ==> {
                let e = post.clause_seqs()[id];
                ||| (lit_true(post.values(), e[0]) && lit_false(post.values(), e[1]))
                ||| (watched_in(post.watch_list_of(e[1]), id, 0, post.watch_list_of(e[1]).len() as int) && !lit_false(post.values(), e[1]))
            },
    {
        let vals = self.values();
        let b = c1[0];
        assert(1 <= vals[b.var_spec() as int].0 <= 3);
        lemma_state_false_iff(vals, b);
        if lit_state(vals, b) == Assignment(2) {
            self.lemma_watches_grow_same(post);
            assert(post.clause_seqs()[id] == c1);
            assert(forall|x: Lit| post.clause_seqs()[id].contains(x) <==> c1.contains(x));
        } else if exists|pos: int| is_first_free(vals, c1, 2, pos) {
            let pos = choose|pos: int| is_first_free(vals, c1, 2, pos);
            lemma_swap_contents(c1, 1, pos);
            let e = swap_spec(c1, 1, pos);
            assert(post.clause_seqs()[id] == e);
            assert(e[1] == c1[pos]);
            assert(1 <= vals[c1[pos].var_spec() as int].0 <= 3);
            lemma_state_false_iff(vals, c1[pos]);
            let w = Watcher { clause: id as u32 };
            let wl = post.watch_list_of(e[1]);
            assert(wl == self.watch_list_of(e[1]).push(w));
            self.clauses.lemma_num_bound();
            assert(wl[wl.len() - 1].clause == id);
            assert forall|l: Lit| #[trigger] watch_prefix(self.watchers.watch_list(l), post.watchers.watch_list(l)) by {
                let a = self.watchers.watch_list(l);
                if l == e[1] {
                    assert(post.watch_list_of(l) == a.push(w));
                    assert(a.push(w).subrange(0, a.len() as int) =~= a);
                } else {
                    assert(post.watch_list_of(l) == a);
                    assert(a.subrange(0, a.len() as int) =~= a);
                }
            }
        } else if lit_state(vals, b) == Assignment(1) {
            self.lemma_watches_grow_same(post);
            assert(post.clause_seqs()[id] == c1);
            assert(forall|x: Lit| post.clause_seqs()[id].contains(x) <==> c1.contains(x));
        } else {
            self.lemma_watches_grow_same(post);
            assert(post.clause_seqs()[id] == c1);
            assert(forall|x: Lit| post.clause_seqs()[id].contains(x) <==> c1.contains(x));
            assert(vals[b.var_spec() as int].0 == 3);
        }
    }

    /// At level 0, a clause whose first two literals are both watched, or one of
    /// them watched and true while the other is false, is soundly watched from the
    /// start of the trail.
    #[verifier::rlimit(20)]
    proof fn lemma_init_watch_ok(self, id: int)
        requires
            self.wf(),
            self.trail_ok(),
            self.trail_lim@.len() == 0,
            0 <= id < self.clause_seqs().len(),
            ({
                let e = self.clause_seqs()[id];
                let w0 = watched_in(self.watch_list_of(e[0]), id, 0, self.watch_list_of(e[0]).len() as int);
                let w1 = watched_in(self.watch_list_of(e[1]), id, 0, self.watch_list_of(e[1]).len() as int);
                ||| (w0 && w1)
                ||| (w0 && lit_true(self.values(), e[0]) && lit_false(self.values(), e[1]))
            }),
        ensures
            self.clause_watch_ok(id, 0),
    {
        let e = self.clauses.clauses()[id];
        let vals = self.values();
        let lv = self.variables.level_seq();
        assert(e.len() >= 2);
        assert(!on_trail_below(self.trail@, e[0].var_spec() as int, 0));
        assert(!on_trail_below(self.trail@, e[1].var_spec() as int, 0));
        assert(settled_ok(vals, lv, self.trail@, e, 0, 0));
        assert(settled_ok(vals, lv, self.trail@, e, 1, 0));
        if lit_true(vals, e[0]) && lit_false(vals, e[1]) {
            assert(e[0].var_spec() < self.nvars());
            assert(e[1].var_spec() < self.nvars());
            let p0 = self.lemma_assigned_level(e[0].var_spec() as int);
            let p1 = self.lemma_assigned_level(e[1].var_spec() as int);
            assert(count_le(self.trail_lim@, p0) == 0);
            assert(count_le(self.trail_lim@, p1) == 0);
            assert(fixed_false(vals, lv, e[1]));
            assert(lit_true(vals, e[0]) && lv[e[0].var_spec() as int] == 0);
            assert(var0_ok(vals, lv, e));
        }
    }

    /// At level 0, a stored clause whose literals are all false leaves the formula
    /// without a model.
    #[verifier::rlimit(20)]
    proof fn lemma_all_false_level0(self, id: int)
        requires
            self.wf(),
            self.trail_ok(),
            self.trail_lim@.len() == 0,
            0 <= id < self.clauses.num_clauses(),
            forall|k: int| 0 <= k < self.clauses.clauses()[id].len() ==> lit_false(self.values(), #[trigger] self.clauses.clauses()[id][k]),
        ensures
            forall|m: spec_fn(nat) -> bool| !models(m, self.formula@),
    {
        let c = self.clauses.clauses()[id];
        assert(clause_implied(self.formula@, c)) by {
            reveal(Solver::sem_ok);
        }
        assert forall|k: int| 0 <= k < c.len() implies implied(self.formula@, (#[trigger] c[k]).opposite()) by {
            assert(c[k].var_spec() < self.nvars());
            self.lemma_false_at_level0(c[k]);
        }
        assert forall|m: spec_fn(nat) -> bool| !models(m, self.formula@) by {
            if models(m, self.formula@) {
                assert(clause_holds(m, c));
                let j = choose|j: int| 0 <= j < c.len() && #[trigger] lit_holds(m, c[j]);
                lemma_neg_involution(c[j]);
                assert(implied(self.formula@, c[j].opposite()));
                assert(lit_holds(m, c[j].opposite()));
            }
        }
    }

    /// At level 0, a false trail literal leaves the formula without a model: its
    /// negation stands on the trail too.
    proof fn lemma_false_on_trail(self, p: int)
        requires
            self.wf(),
            self.trail_ok(),
            self.trail_lim@.len() == 0,
            0 <= p < self.trail@.len(),
            !lit_true(self.values(), self.trail@[p]),
        ensures
            forall|m: spec_fn(nat) -> bool| !models(m, self.formula@),
    {
        let l = self.trail@[p];
        assert(l.var_spec() < self.nvars());
        assert(is_assigned(self.values()[l.var_spec() as int]));
        assert(lit_false(self.values(), l));
        self.lemma_false_at_level0(l);
        self.lemma_trail_implied(p);
        assert forall|m: spec_fn(nat) -> bool| !models(m, self.formula@) by {
            if models(m, self.formula@) {
                lemma_neg_involution(l);
                assert(lit_holds(m, l));
                assert(lit_holds(m, l.opposite()));
            }
        }
    }

    /// Adding a watch of clause `id` to the list of `l` only grows the lists.
    proof fn lemma_add_watch_grow(self, post: Solver, l: Lit, id: u32)
        requires
            forall|x: Lit| #[trigger] post.watch_list_of(x) == if x == l {
                self.watch_list_of(x).push(Watcher { clause: id })
            } else {
                self.watch_list_of(x)
            },
        ensures
            self.watches_grow(post),
            watched_in(post.watch_list_of(l), id as int, 0, post.watch_list_of(l).len() as int),
    {
        let w = Watcher { clause: id };
        assert forall|x: Lit| #[trigger] watch_prefix(self.watchers.watch_list(x), post.watchers.watch_list(x)) by {
            let a = self.watchers.watch_list(x);
            if x == l {
                assert(post.watch_list_of(x) == a.push(w));
                assert(a.push(w).subrange(0, a.len() as int) =~= a);
            } else {
                assert(post.watch_list_of(x) == a);
                assert(a.subrange(0, a.len() as int) =~= a);
            }
        }
        let wl = post.watch_list_of(l);
        assert(wl[wl.len() - 1] == w);
    }

    /// A watch of clause `id` in the list of `l` stays when the lists grow.
    proof fn lemma_watched_grows(self, post: Solver, l: Lit, id: int)
        requires
            self.watches_grow(post),
        ensures
            watched_in(self.watch_list_of(l), id, 0, self.watch_list_of(l).len() as int)
                ==> watched_in(post.watch_list_of(l), id, 0, post.watch_list_of(l).len() as int),
    {
        let a = self.watch_list_of(l);
        let b = post.watch_list_of(l);
        if watched_in(a, id, 0, a.len() as int) {
            assert(watch_prefix(self.watchers.watch_list(l), post.watchers.watch_list(l)));
            let k = choose|k: int| 0 <= k < a.len() && k < a.len() && (#[trigger] a[k]).clause == id;
            assert(b.subrange(0, a.len() as int)[k] == b[k]);
        }
    }

    /// Growing watch lists compose.
    proof fn lemma_watches_grow_trans(self, mid: Solver, post: Solver)
        requires
            self.watches_grow(mid),
            mid.watches_grow(post),
        ensures
            self.watches_grow(post),
    {
        assert forall|l: Lit| #[trigger] watch_prefix(self.watchers.watch_list(l), post.watchers.watch_list(l)) by {
            let a = self.watchers.watch_list(l);
            let b = mid.watchers.watch_list(l);
            let c = post.watchers.watch_list(l);
            assert(watch_prefix(a, b));
            assert(watch_prefix(b, c));
            assert(c.subrange(0, a.len() as int) =~= c.subrange(0, b.len() as int).subrange(0, a.len() as int));
        }
    }

    /// Every trail literal stays true when the trail of `pre`, all true, grows by
    /// true literals and assigned variables keep their values.
    proof fn lemma_all_true_after(self, pre: Solver)
        requires
            pre.all_true(),
            self.trail@.len() >= pre.trail@.len(),
            self.trail@.subrange(0, pre.trail@.len() as int) == pre.trail@,
            forall|p: int| pre.trail@.len() <= p < self.trail@.len() ==> lit_true(self.values(), #[trigger] self.trail@[p]),
            forall|p: int| 0 <= p < pre.trail@.len() ==> self.values()[(#[trigger] pre.trail@[p]).var_spec() as int] == pre.values()[pre.trail@[p].var_spec() as int],
        ensures
            self.all_true(),
    {
        assert forall|p: int| 0 <= p < self.trail@.len() implies lit_true(self.variables.values_seq(), #[trigger] self.trail@[p]) by {
            if p < pre.trail@.len() {
                assert(self.trail@[p] == self.trail@.subrange(0, pre.trail@.len() as int)[p]);
                assert(lit_true(pre.values(), pre.trail@[p]));
            }
        }
    }
}

/// For a valid value, a literal's state is "false" exactly when the literal is false.
proof fn lemma_state_false_iff(vals: Seq<Assignment>, l: Lit)
    requires
        0 <= l.var_spec() < vals.len(),
        1 <= vals[l.var_spec() as int].0 <= 3,
    ensures
        (lit_state(vals, l) == Assignment(1)) == lit_false(vals, l),
        (lit_state(vals, l) == Assignment(2)) == lit_true(vals, l),
{
}

impl Solver {
    /// Propagates every clause that watches the negation of `set_lit`, which was
    /// just set. Watches of clauses that no longer watch that literal are dropped
    /// from its list. Returns the id of a clause whose literals are all false, if
    /// one is met; the watches not yet visited then stay in the list. Otherwise
    /// every watch left in the list is of a clause whose second literal is that
    /// negation and whose first literal is true.
    #[verifier::spinoff_prover]
    #[verifier::rlimit(40)]
    fn propagate_literal(&mut self, set_lit: Lit, Ghost(q): Ghost<int>, Ghost(base): Ghost<Seq<Seq<Lit>>>) -> (r: Option<ClauseId>)
        requires
            old(self).wf(),
            old(self).trail_ok(),
            set_lit.var_spec() < old(self).nvars(),
            old(self).trail_lim_seq().len() == 0 || lit_true(old(self).values(), set_lit),
            old(self).trail_lim_seq().len() == 0 ==> implied(old(self).formula(), set_lit),
        ensures
            final(self).wf(),
            final(self).trail_ok(),
            old(self).same_frame(*final(self)),
            old(self).trail_lim_seq().len() == 0 || lit_true(final(self).values(), set_lit),
            match r {
                Some(cid) => cid < final(self).clause_seqs().len()
                    && old(self).watch_list_of(set_lit.opposite()).contains(Watcher { clause: cid })
                    && final(self).clause_seqs()[cid as int][1] == set_lit.opposite()
                    && forall|k: int| 0 <= k < final(self).clause_seqs()[cid as int].len() && k != 1
                        ==> lit_false(final(self).values(), #[trigger] final(self).clause_seqs()[cid as int][k]),
                None => true,
            },
            r is None ==> final(self).kept_watches_ok(set_lit.opposite(), final(self).watch_list_of(set_lit.opposite()).len() as int),
            old(self).touched_only(*final(self), set_lit.opposite()),
            old(self).prop_ready(set_lit, q, base) ==> final(self).all_true() && match r {
                None => final(self).watches_sound(q + 1, base),
                Some(_) => final(self).watches_sound(q, base),
            },
    {
        let falsified_lit = set_lit.negate();
        let mut num_written_entries: usize = 0;
        let n = self.watchers.watches(falsified_lit).len();
        let ghost pre = *self;
        proof {
            reveal(Solver::kept_watches_ok);
            reveal(Solver::touched_only);
            pre.same_frame_refl();
            if pre.prop_ready(set_lit, q, base) {
                pre.lemma_live_init(q, base, set_lit);
            }
        }
        let mut i: usize = 0;
        while i < n
            invariant
                pre == *old(self),
                pre.wf(),
                pre.trail_ok(),
                self.wf(),
                self.trail_ok(),
                pre.same_frame(*self),
                falsified_lit == set_lit.opposite(),
                set_lit.var_spec() < pre.nvars(),
                pre.trail_lim@.len() == 0 || lit_true(self.values(), set_lit),
                pre.trail_lim@.len() == 0 ==> implied(pre.formula@, set_lit),
                num_written_entries <= i <= n,
                self.watch_list_of(falsified_lit).len() == n,
                pre.watch_list_of(falsified_lit).len() == n,
                forall|j: int| i <= j < n ==> #[trigger] self.watch_list_of(falsified_lit)[j] == pre.watch_list_of(falsified_lit)[j],
                self.kept_watches_ok(falsified_lit, num_written_entries as int),
                pre.touched_only(*self, falsified_lit),
                pre.prop_ready(set_lit, q, base) ==> {
                    &&& self.all_true()
                    &&& base.len() <= self.clauses.num_clauses()
                    &&& forall|id: int| 0 <= id < base.len() ==> #[trigger] self.live_ok(id, q, falsified_lit, num_written_entries as int, i as int, base[id])
                },
            decreases n - i,
        {
            let watcher = self.watchers.get_watch(falsified_lit, i);
            let clause = self.clauses.get(watcher.clause);
            let ghost before = *self;
            proof {
                assert(watcher == pre.watch_list_of(falsified_lit)[i as int]);
                assert(pre.watch_list_of(falsified_lit).contains(watcher));
            }
            proof {
                assert(watcher.clause < self.clauses.num_clauses());
            }
            proof {
                lemma_neg_involution(set_lit);
            }
            let res = self.propagate_clause(watcher.clause, clause, falsified_lit);
            proof {
                if before == *self {
                    before.same_frame_refl();
                }
                pre.same_frame_trans(before, *self);
                self.lemma_propagate_effects(before, watcher.clause as int, set_lit, res);
                self.lemma_propagate_grow(before, watcher.clause as int, set_lit, res);
                if res is Some {
                    before.lemma_kept_visit(*self, watcher.clause as int, falsified_lit, res, num_written_entries as int);
                }
                pre.lemma_touched_visit(before, *self, watcher.clause as int, falsified_lit, res);
                if pre.trail_lim@.len() > 0 {
                    assert(is_assigned(before.values()[set_lit.var_spec() as int]));
                }
            }
            proof {
                if pre.prop_ready(set_lit, q, base) {
                    assert(before.trail@[q] == set_lit) by {
                        assert(before.trail@.subrange(0, pre.trail@.len() as int)[q] == before.trail@[q]);
                    }
                }
            }
            if res.is_none() {
                let ghost at_conflict = *self;
                self.watchers.remove_watches(falsified_lit, num_written_entries, i);
                proof {
                    pre.lemma_touched_list(at_conflict, *self, falsified_lit);
                    self.lemma_same_trail(at_conflict);
                    at_conflict.lemma_frame_of_watch_change(*self);
                    pre.same_frame_trans(at_conflict, *self);
                    at_conflict.lemma_conflict_clause(before, watcher.clause as int, set_lit, res);
                    if pre.prop_ready(set_lit, q, base) {
                        let id = watcher.clause as int;
                        let c = before.clause_seqs()[id];
                        let c1 = if c[0] == falsified_lit { swap_spec(c, 0, 1) } else { c };
                        assert(c[0] == falsified_lit || c[1] == falsified_lit);
                        assert(watched_outcome(before, at_conflict, id, c1, res));
                        assert(lit_state(before.values(), c1[0]) == Assignment(1)) by {
                            if lit_state(before.values(), c1[0]) != Assignment(1) {
                                assert(res is Some);
                            }
                        }
                        assert forall|l: Lit| #[trigger] self.watch_list_of(l) == if l == falsified_lit {
                            before.watch_list_of(falsified_lit).subrange(0, num_written_entries as int) + before.watch_list_of(falsified_lit).subrange(i as int, before.watch_list_of(falsified_lit).len() as int)
                        } else {
                            before.watch_list_of(l)
                        } by {
                            assert(at_conflict.watch_list_of(l) == before.watch_list_of(l));
                        }
                        before.lemma_live_cut(*self, q, falsified_lit, num_written_entries as int, i as int, id, c1, base);
                    }
                }
                return Some(watcher.clause);
            }
            proof {
                self.clauses.lemma_spec_get(watcher.clause as int);
            }
            let ghost mid = *self;
            if clause.len() >= 2 {
                let literals = self.clauses.literals(clause);
                if literals[0] != falsified_lit && literals[1] != falsified_lit {
                    proof {
                        if pre.prop_ready(set_lit, q, base) {
                            assert(literals@ == mid.clause_seqs()[watcher.clause as int]);
                            before.lemma_live_step(mid, *self, q, set_lit, num_written_entries as int, i as int, false, num_written_entries as int, watcher.clause as int, base, res);
                        }
                    }
                    i = i + 1;
                    continue;
                }
            }
            let ghost before_set = *self;
            self.watchers.set_watch(falsified_lit, num_written_entries, Watcher { clause: watcher.clause });
            proof {
                pre.lemma_touched_list(before_set, *self, falsified_lit);
                reveal(Solver::kept_watches_ok);
                self.lemma_same_trail(before_set);
                assert(self.watch_list_of(falsified_lit) == before_set.watch_list_of(falsified_lit).update(num_written_entries as int, Watcher { clause: watcher.clause }));
                assert forall|j: int| 0 <= j < num_written_entries + 1 && j < self.watchers.watch_list(falsified_lit).len() implies {
                    let cid = (#[trigger] self.watchers.watch_list(falsified_lit)[j]).clause as int;
                    &&& self.clauses.clauses()[cid][1] == falsified_lit
                    &&& lit_true(self.variables.values_seq(), self.clauses.clauses()[cid][0])
                } by {
                    if j < num_written_entries {
                        assert(self.watchers.watch_list(falsified_lit)[j] == before_set.watchers.watch_list(falsified_lit)[j]);
                    }
                }
                before_set.lemma_frame_of_watch_change(*self);
                pre.same_frame_trans(before_set, *self);
                if pre.prop_ready(set_lit, q, base) {
                    assert(self.clauses.accessor_lits(clause) == mid.clause_seqs()[watcher.clause as int]);
                    before.lemma_live_step(mid, *self, q, set_lit, num_written_entries as int, i as int, true, num_written_entries + 1, watcher.clause as int, base, res);
                }
            }
            num_written_entries += 1;
            i = i + 1;
        }
        let ghost at_end = *self;
        self.watchers.remove_watches(falsified_lit, num_written_entries, n);
        proof {
            pre.lemma_touched_list(at_end, *self, falsified_lit);
            reveal(Solver::kept_watches_ok);
            self.lemma_same_trail(at_end);
            assert(self.watch_list_of(falsified_lit) =~= at_end.watch_list_of(falsified_lit).subrange(0, num_written_entries as int));
            assert forall|j: int| 0 <= j < self.watchers.watch_list(falsified_lit).len() implies {
                let cid = (#[trigger] self.watchers.watch_list(falsified_lit)[j]).clause as int;
                &&& self.clauses.clauses()[cid][1] == falsified_lit
                &&& lit_true(self.variables.values_seq(), self.clauses.clauses()[cid][0])
            } by {
                assert(self.watchers.watch_list(falsified_lit)[j] == at_end.watchers.watch_list(falsified_lit)[j]);
            }
            at_end.lemma_frame_of_watch_change(*self);
            pre.same_frame_trans(at_end, *self);
            if pre.prop_ready(set_lit, q, base) {
                at_end.lemma_live_end(*self, q, falsified_lit, num_written_entries as int, base);
            }
        }
        None
    }

    /// From `self` to `post`, only the watch list of `f` and those of literals not
    /// false in `self` changed, only clauses whose first or second literal is `f`
    /// changed, and every assigned variable kept its value.
    #[verifier::opaque]
    pub closed spec fn touched_only(self, post: Solver, f: Lit) -> bool {
        &&& forall|l: Lit| l != f && l.var_spec() < self.nvars() && lit_false(self.values(), l)
            ==> #[trigger] post.watch_list_of(l) == self.watch_list_of(l)
        &&& forall|k: int| 0 <= k < self.clause_seqs().len() && #[trigger] post.clause_seqs()[k] != self.clause_seqs()[k]
            ==> self.clause_seqs()[k][0] == f || self.clause_seqs()[k][1] == f
        &&& forall|v: int| 0 <= v < self.nvars() && is_assigned(#[trigger] self.values()[v]) ==> post.values()[v] == self.values()[v]
    }

    /// `touched_only` carries over a propagation of clause `id` for `f`.
    #[verifier::rlimit(20)]
    proof fn lemma_touched_visit(self, before: Solver, post: Solver, id: int, f: Lit, r: Option<()>)
        requires
            self.wf(),
            before.wf(),
            self.touched_only(before, f),
            self.nvars() == before.nvars(),
            self.clause_seqs().len() == before.clause_seqs().len(),
            0 <= id < before.clause_seqs().len(),
            ({
                let c = before.clause_seqs()[id];
                let watched = c[0] == f || c[1] == f;
                let c1 = if c[0] == f { swap_spec(c, 0, 1) } else { c };
                &&& !watched ==> r is Some && post == before
                &&& watched ==> watched_outcome(before, post, id, c1, r)
            }),
            post.clause_seqs().len() == before.clause_seqs().len(),
            forall|k: int| 0 <= k < before.clause_seqs().len() && k != id ==> #[trigger] post.clauses.clauses()[k] == before.clauses.clauses()[k],
            forall|v: int| 0 <= v < before.nvars() && is_assigned(#[trigger] before.values()[v]) ==> post.values()[v] == before.values()[v],
        ensures
            self.touched_only(post, f),
    {
        reveal(Solver::touched_only);
        before.lemma_visit_frame(post, id, f, r);
        assert forall|l: Lit| l != f && l.var_spec() < self.nvars() && lit_false(self.values(), l)
            implies #[trigger] post.watch_list_of(l) == self.watch_list_of(l) by {
            assert(is_assigned(self.values()[l.var_spec() as int]));
            assert(lit_false(before.values(), l));
        }
        assert forall|k: int| 0 <= k < self.clause_seqs().len() && #[trigger] post.clause_seqs()[k] != self.clause_seqs()[k]
            implies self.clause_seqs()[k][0] == f || self.clause_seqs()[k][1] == f by {
            if before.clause_seqs()[k] == self.clause_seqs()[k] {
                assert(post.clause_seqs()[k] != before.clause_seqs()[k]);
            }
        }
        assert forall|v: int| 0 <= v < self.nvars() && is_assigned(#[trigger] self.values()[v]) implies post.values()[v] == self.values()[v] by {
            assert(is_assigned(before.values()[v]));
        }
    }

    /// `touched_only` carries over a change of the watch list of `f` alone.
    proof fn lemma_touched_list(self, before: Solver, post: Solver, f: Lit)
        requires
            self.touched_only(before, f),
            forall|l: Lit| l != f ==> #[trigger] post.watch_list_of(l) == before.watch_list_of(l),
            post.clauses == before.clauses,
            post.variables == before.variables,
        ensures
            self.touched_only(post, f),
    {
        reveal(Solver::touched_only);
        assert forall|l: Lit| l != f && l.var_spec() < self.nvars() && lit_false(self.values(), l)
            implies #[trigger] post.watch_list_of(l) == self.watch_list_of(l) by {
            assert(before.watch_list_of(l) == self.watch_list_of(l));
        }
        assert forall|k: int| 0 <= k < self.clause_seqs().len() && #[trigger] post.clause_seqs()[k] != self.clause_seqs()[k]
            implies self.clause_seqs()[k][0] == f || self.clause_seqs()[k][1] == f by {
            assert(post.clause_seqs()[k] == before.clause_seqs()[k]);
        }
    }

    /// Propagating clause `id` for the falsified literal `f` changes no watch
    /// list of a false literal, and changes that clause only when it watches `f`.
    #[verifier::rlimit(20)]
    proof fn lemma_visit_frame(self, post: Solver, id: int, f: Lit, r: Option<()>)
        requires
            self.wf(),
            0 <= id < self.clause_seqs().len(),
            ({
                let c = self.clause_seqs()[id];
                let watched = c[0] == f || c[1] == f;
                let c1 = if c[0] == f { swap_spec(c, 0, 1) } else { c };
                &&& !watched ==> r is Some && post == self
                &&& watched ==> watched_outcome(self, post, id, c1, r)
            }),
        ensures
            forall|l: Lit| l.var_spec() < self.nvars() && lit_false(self.values(), l) ==> #[trigger] post.watch_list_of(l) == self.watch_list_of(l),
            post.clause_seqs()[id] != self.clause_seqs()[id] ==> self.clause_seqs()[id][0] == f || self.clause_seqs()[id][1] == f,
    {
        let c = self.clause_seqs()[id];
        let vals = self.values();
        if c[0] == f || c[1] == f {
            let c1 = if c[0] == f { swap_spec(c, 0, 1) } else { c };
            lemma_swap_contents(c, 0, 1);
            if lit_state(vals, c1[0]) != Assignment(2) && exists|pos: int| is_first_free(vals, c1, 2, pos) {
                let pos = choose|pos: int| is_first_free(vals, c1, 2, pos);
                assert forall|l: Lit| l.var_spec() < self.nvars() && lit_false(vals, l) implies #[trigger] post.watch_list_of(l) == self.watch_list_of(l) by {
                    if l == c1[pos] {
                        assert(c1[pos].var_spec() < self.nvars());
                        lemma_state_false_iff(vals, l);
                    }
                }
            }
        }
    }

    /// Every watch of `f` below index `k` is of a clause whose second literal is
    /// `f` and whose first literal is true.
    #[verifier::opaque]
    pub closed spec fn kept_watches_ok(self, f: Lit, k: int) -> bool {
        forall|j: int| 0 <= j < k && j < self.watchers.watch_list(f).len() ==> {
            let cid = (#[trigger] self.watchers.watch_list(f)[j]).clause as int;
            &&& self.clauses.clauses()[cid][1] == f
            &&& lit_true(self.variables.values_seq(), self.clauses.clauses()[cid][0])
        }
    }

    /// Propagating clause `id` for the falsified literal `f` keeps the watches of
    /// `f` below index `w` as `kept_watches_ok` describes them, and leaves clause
    /// `id` watching `f` only as its second literal, with its first literal true.
    #[verifier::rlimit(20)]
    proof fn lemma_kept_visit(self, post: Solver, id: int, f: Lit, r: Option<()>, w: int)
        requires
            self.wf(),
            0 <= id < self.clause_seqs().len(),
            r is Some,
            ({
                let c = self.clause_seqs()[id];
                let watched = c[0] == f || c[1] == f;
                let c1 = if c[0] == f { swap_spec(c, 0, 1) } else { c };
                &&& !watched ==> r is Some && post == self
                &&& watched ==> watched_outcome(self, post, id, c1, r)
            }),
            self.kept_watches_ok(f, w),
            post.watch_list_of(f) == self.watch_list_of(f),
            post.clause_seqs().len() == self.clause_seqs().len(),
            forall|k: int| 0 <= k < self.clause_seqs().len() && k != id ==> #[trigger] post.clauses.clauses()[k] == self.clauses.clauses()[k],
            forall|v: int| 0 <= v < self.nvars() && is_assigned(#[trigger] self.values()[v]) ==> post.values()[v] == self.values()[v],
        ensures
            post.kept_watches_ok(f, w),
            post.clause_seqs()[id][0] == f || post.clause_seqs()[id][1] == f
                ==> post.clause_seqs()[id][1] == f && lit_true(post.values(), post.clause_seqs()[id][0]),
    {
        reveal(Solver::kept_watches_ok);
        let c = self.clause_seqs()[id];
        let vals = self.values();
        assert(c.len() >= 2);
        assert(c[0].var_spec() != c[1].var_spec());
        let c1 = if c[0] == f { swap_spec(c, 0, 1) } else { c };
        lemma_swap_contents(c, 0, 1);
        if c[0] == f || c[1] == f {
            assert(c1[1] == f);
            assert(c1[0].var_spec() != f.var_spec());
            assert(1 <= vals[c1[0].var_spec() as int].0 <= 3);
            lemma_state_false_iff(vals, c1[0]);
            if exists|pos: int| is_first_free(vals, c1, 2, pos) && lit_state(vals, c1[0]) != Assignment(2) {
                let pos = choose|pos: int| is_first_free(vals, c1, 2, pos);
                lemma_swap_contents(c1, 1, pos);
                assert(distinct_vars(c1));
                assert(c1[pos].var_spec() != c1[1].var_spec());
            }
        }
        assert forall|j: int| 0 <= j < w && j < post.watchers.watch_list(f).len() implies {
            let cid = (#[trigger] post.watchers.watch_list(f)[j]).clause as int;
            &&& post.clauses.clauses()[cid][1] == f
            &&& lit_true(post.variables.values_seq(), post.clauses.clauses()[cid][0])
        } by {
            let cid = self.watchers.watch_list(f)[j].clause as int;
            assert(post.watchers.watch_list(f)[j] == self.watchers.watch_list(f)[j]);
            let x = self.clauses.clauses()[cid][0];
            assert(self.clauses.clauses()[cid][1] == f);
            assert(lit_true(vals, x));
            assert(0 <= cid < self.clause_seqs().len());
            assert(x.var_spec() < self.nvars());
            assert(is_assigned(vals[x.var_spec() as int]));
            if cid == id {
                assert(c[1] == f);
                assert(c1 == c);
                assert(lit_state(vals, c[0]) == Assignment(2));
            }
        }
    }

    /// Above level 0, propagating the trail literal at position `k` keeps the
    /// watches of the negations of the trail literals from `lo` to below `k` as
    /// `kept_watches_ok` describes them.
    #[verifier::rlimit(20)]
    proof fn lemma_kept_others(self, post: Solver, lo: int, k: int, set_lit: Lit)
        requires
            self.wf(),
            self.trail_ok(),
            post.wf(),
            self.trail_lim@.len() > 0,
            self.level0_end() <= lo <= k < self.trail@.len(),
            set_lit == self.trail@[k],
            self.same_frame(post),
            forall|p: int| lo <= p < k ==> self.kept_watches_ok((#[trigger] self.trail@[p]).opposite(), self.watch_list_of(self.trail@[p].opposite()).len() as int),
            post.kept_watches_ok(set_lit.opposite(), post.watch_list_of(set_lit.opposite()).len() as int),
            self.touched_only(post, set_lit.opposite()),
        ensures
            forall|p: int| lo <= p < k + 1 ==> post.kept_watches_ok((#[trigger] post.trail@[p]).opposite(), post.watch_list_of(post.trail@[p].opposite()).len() as int),
    {
        reveal(Solver::kept_watches_ok);
        reveal(Solver::touched_only);
        let t = self.trail@;
        assert forall|p: int| lo <= p < k + 1 implies post.kept_watches_ok((#[trigger] post.trail@[p]).opposite(), post.watch_list_of(post.trail@[p].opposite()).len() as int) by {
            assert(post.trail@[p] == post.trail@.subrange(0, t.len() as int)[p]);
            assert(post.trail@[p] == t[p]);
            if p < k {
                let g = t[p].opposite();
                lemma_neg_involution(t[p]);
                lemma_neg_involution(set_lit);
                assert(t[p].var_spec() != t[k].var_spec());
                assert(lit_true(self.values(), t[p]));
                assert(lit_true(self.values(), t[k]));
                assert(t[p].var_spec() < self.nvars());
                assert(lit_false(self.values(), g));
                assert(g != set_lit.opposite());
                assert(post.watch_list_of(g) == self.watch_list_of(g));
                assert(self.kept_watches_ok(g, self.watch_list_of(g).len() as int));
                assert forall|j: int| 0 <= j < post.watchers.watch_list(g).len() implies {
                    let cid = (#[trigger] post.watchers.watch_list(g)[j]).clause as int;
                    &&& post.clauses.clauses()[cid][1] == g
                    &&& lit_true(post.variables.values_seq(), post.clauses.clauses()[cid][0])
                } by {
                    let cid = self.watchers.watch_list(g)[j].clause as int;
                    assert(post.watchers.watch_list(g)[j] == self.watchers.watch_list(g)[j]);
                    let c = self.clauses.clauses()[cid];
                    assert(c[1] == g);
                    assert(lit_true(self.values(), c[0]));
                    assert(0 <= cid < self.clause_seqs().len());
                    assert(c[0].var_spec() < self.nvars());
                    assert(is_assigned(self.values()[c[0].var_spec() as int]));
                    assert(c[0] != set_lit.opposite());
                    assert(post.clause_seqs()[cid] == self.clause_seqs()[cid]);
                }
            }
        }
    }

    /// `same_frame` composes.
    proof fn same_frame_trans(self, mid: Solver, post: Solver)
        requires
            self.same_frame(mid),
            mid.same_frame(post),
        ensures
            self.same_frame(post),
    {
        let a = self.trail@.len() as int;
        let b = mid.trail@.len() as int;
        assert(post.trail@.subrange(0, a) =~= post.trail@.subrange(0, b).subrange(0, a));
    }

    /// A change of watches alone keeps the frame.
    proof fn lemma_frame_of_watch_change(self, post: Solver)
        requires
            post.clauses == self.clauses,
            post.variables == self.variables,
            post.trail == self.trail,
            post.trail_lim == self.trail_lim,
            post.conflict_cache == self.conflict_cache,
            post.formula == self.formula,
        ensures
            self.same_frame(post),
    {
        assert(self.trail@.subrange(0, self.trail@.len() as int) =~= self.trail@);
    }

    /// `same_frame` is reflexive.
    proof fn same_frame_refl(self)
        ensures
            self.same_frame(self),
    {
        assert(self.trail@.subrange(0, self.trail@.len() as int) =~= self.trail@);
    }

    /// Propagating a clause on `set_lit` adds no watch on the negation of `set_lit`
    /// and changes the value of no assigned variable.
    proof fn lemma_propagate_effects(self, pre: Solver, id: int, set_lit: Lit, r: Option<()>)
        requires
            pre.wf(),
            0 <= id < pre.clause_seqs().len(),
            ({
                let c = pre.clause_seqs()[id];
                let neg = set_lit.opposite();
                let watched = c[0] == neg || c[1] == neg;
                let c1 = if c[0] == neg { swap_spec(c, 0, 1) } else { c };
                &&& !watched ==> r is Some && self == pre
                &&& watched ==> watched_outcome(pre, self, id, c1, r)
            }),
        ensures
            self.watch_list_of(set_lit.opposite()) == pre.watch_list_of(set_lit.opposite()),
            forall|v: int| 0 <= v < pre.nvars() && is_assigned(#[trigger] pre.values()[v]) ==> self.values()[v] == pre.values()[v],
    {
        let c = pre.clause_seqs()[id];
        let neg = set_lit.opposite();
        let watched = c[0] == neg || c[1] == neg;
        if watched {
            let c1 = if c[0] == neg { swap_spec(c, 0, 1) } else { c };
            lemma_swap_contents(c, 0, 1);
            let vals = pre.values();
            assert(c1[0].var_spec() < pre.nvars());
            if lit_state(vals, c1[0]) != Assignment(2) && !(exists|pos: int| is_first_free(vals, c1, 2, pos)) && lit_state(vals, c1[0]) != Assignment(1) {
                lemma_state_unassigned(vals, c1[0]);
            }
            if lit_state(vals, c1[0]) != Assignment(2) && exists|pos: int| is_first_free(vals, c1, 2, pos) {
                let pos = choose|pos: int| is_first_free(vals, c1, 2, pos);
                assert(distinct_vars(c));
                assert(c1[pos] == c[pos]);
                assert(c[pos].var_spec() != c[0].var_spec());
                assert(c[pos].var_spec() != c[1].var_spec());
                assert(c1[pos] != neg);
            }
        }
    }

    /// After a conflict on clause `id` while propagating `set_lit`, its second
    /// literal is the negation of `set_lit` and the others are false.
    #[verifier::rlimit(20)]
    proof fn lemma_conflict_clause(self, pre: Solver, id: int, set_lit: Lit, r: Option<()>)
        requires
            pre.wf(),
            0 <= id < pre.clause_seqs().len(),
            r is None,
            ({
                let c = pre.clause_seqs()[id];
                let neg = set_lit.opposite();
                let watched = c[0] == neg || c[1] == neg;
                let c1 = if c[0] == neg { swap_spec(c, 0, 1) } else { c };
                &&& !watched ==> r is Some && self == pre
                &&& watched ==> watched_outcome(pre, self, id, c1, r)
            }),
        ensures
            self.clause_seqs()[id][1] == set_lit.opposite(),
            forall|k: int| 0 <= k < self.clause_seqs()[id].len() && k != 1 ==> lit_false(self.values(), #[trigger] self.clause_seqs()[id][k]),
    {
        let c = pre.clause_seqs()[id];
        let neg = set_lit.opposite();
        lemma_swap_contents(c, 0, 1);
        let c1 = if c[0] == neg { swap_spec(c, 0, 1) } else { c };
        let vals = pre.values();
        if lit_state(vals, c1[0]) != Assignment(2) && exists|pos: int| is_first_free(vals, c1, 2, pos) {
            assert(false);
        }
        assert(self.clause_seqs()[id] == c1);
    }
}

impl Solver {
    /// Propagates the trail literals from position `trail_read_start` on, including
    /// those that the propagation itself assigns, until every one was propagated
    /// (`None`) or a clause has all its literals false (its id is returned). Above
    /// level 0, once every one was propagated, every watch left for the negation of
    /// each of them is of a clause whose second literal is that negation and whose
    /// first literal is true.
    #[verifier::rlimit(30)]
    fn bcp(&mut self, trail_read_start: usize, Ghost(base): Ghost<Seq<Seq<Lit>>>) -> (r: Option<ClauseId>)
        requires
            old(self).wf(),
            old(self).trail_ok(),
            trail_read_start <= old(self).trail_seq().len(),
            old(self).trail_lim_seq().len() == 0 || old(self).level0_end() <= trail_read_start,
        ensures
            final(self).wf(),
            final(self).trail_ok(),
            old(self).same_frame(*final(self)),
            match r {
                Some(cid) => {
                    let c = final(self).clause_seqs()[cid as int];
                    &&& cid < final(self).clause_seqs().len()
                    &&& forall|k: int| 0 <= k < c.len() && (k != 1 || final(self).trail_lim_seq().len() > 0) ==> lit_false(final(self).values(), #[trigger] c[k])
                    &&& exists|p: int| trail_read_start <= p < final(self).trail_seq().len() && c[1] == (#[trigger] final(self).trail_seq()[p]).opposite()
                },
                None => true,
            },
            r is None && old(self).trail_lim_seq().len() > 0 ==> forall|p: int| trail_read_start <= p < final(self).trail_seq().len()
                ==> final(self).kept_watches_ok((#[trigger] final(self).trail_seq()[p]).opposite(),
                    final(self).watch_list_of(final(self).trail_seq()[p].opposite()).len() as int),
            old(self).bcp_ready(trail_read_start as int, base) ==> final(self).all_true() && match r {
                None => final(self).watches_sound(final(self).trail_seq().len() as int, base),
                Some(_) => final(self).watches_sound(trail_read_start as int, base),
            },
    {
        let ghost pre = *self;
        proof {
            pre.same_frame_refl();
        }
        let mut trail_read = trail_read_start;
        while trail_read < self.trail.len()
            invariant
                pre == *old(self),
                pre.wf(),
                pre.trail_ok(),
                self.wf(),
                self.trail_ok(),
                pre.same_frame(*self),
                trail_read_start <= trail_read <= self.trail@.len(),
                pre.trail_lim@.len() == 0 || pre.level0_end() <= trail_read_start,
                pre.bcp_ready(trail_read_start as int, base) ==> self.watches_sound(trail_read as int, base) && self.all_true(),
                pre.trail_lim@.len() > 0 ==> forall|p: int| trail_read_start <= p < trail_read
                    ==> self.kept_watches_ok((#[trigger] self.trail@[p]).opposite(), self.watch_list_of(self.trail@[p].opposite()).len() as int),
            decreases num_unassigned(pre.values()) + pre.trail@.len() - trail_read,
        {
            let set_lit = self.trail[trail_read];
            let ghost before = *self;
            proof {
                assert(set_lit.var_spec() < self.nvars());
                if self.trail_lim@.len() > 0 {
                    assert(self.level0_end() <= trail_read);
                    assert(lit_true(self.values(), self.trail@[trail_read as int]));
                } else {
                    self.lemma_trail_implied(trail_read as int);
                }
            }
            proof {
                if pre.bcp_ready(trail_read_start as int, base) {
                    assert(before.trail_lim@ == pre.trail_lim@);
                    assert(before.prop_ready(set_lit, trail_read as int, base));
                }
            }
            let res = self.propagate_literal(set_lit, Ghost(trail_read as int), Ghost(base));
            proof {
                pre.same_frame_trans(before, *self);
                if pre.bcp_ready(trail_read_start as int, base) && res is Some {
                    self.lemma_sound_mono(trail_read as int, trail_read_start as int, base);
                }
                assert(self.trail@[trail_read as int] == before.trail@.subrange(0, before.trail@.len() as int)[trail_read as int]);
                if pre.trail_lim@.len() > 0 && res is None {
                    before.lemma_kept_others(*self, trail_read_start as int, trail_read as int, set_lit);
                }
            }
            if let Some(conflict_reason) = res {
                proof {
                    let c = self.clause_seqs()[conflict_reason as int];
                    assert(c.len() >= 2);
                    assert(c[1] == self.trail@[trail_read as int].opposite());
                    assert(c[1] == self.trail_seq()[trail_read as int].opposite());
                    assert(trail_read < self.trail_seq().len());
                    assert(lit_true(self.values(), set_lit) || pre.trail_lim@.len() == 0);
                    assert forall|k: int| 0 <= k < c.len() && (k != 1 || self.trail_lim@.len() > 0) implies lit_false(self.values(), #[trigger] c[k]) by {
                        if k == 1 {
                            assert(is_assigned(self.values()[set_lit.var_spec() as int]));
                        }
                    }
                }
                return Some(conflict_reason);
            }
            trail_read += 1;
        }
        None
    }
}

/// At most `d.len()` entries are at most `p`, and all are exactly when the last
/// one is.
proof fn lemma_count_le_full(d: Seq<usize>, p: int)
    requires
        forall|i: int, j: int| 0 <= i < j < d.len() ==> #[trigger] d[i] < #[trigger] d[j],
    ensures
        count_le(d, p) <= d.len(),
        d.len() > 0 ==> (count_le(d, p) == d.len() <==> d[d.len() - 1] <= p),
    decreases d.len(),
{
    if d.len() > 0 {
        let e = d.drop_last();
        assert forall|i: int, j: int| 0 <= i < j < e.len() implies #[trigger] e[i] < #[trigger] e[j] by {
            assert(e[i] == d[i] && e[j] == d[j]);
        }
        lemma_count_le_full(e, p);
        if d[d.len() - 1] <= p {
            assert forall|j: int| 0 <= j < d.len() implies #[trigger] d[j] <= p by {
                if j < d.len() - 1 {
                    assert(d[j] < d[d.len() - 1]);
                }
            }
            lemma_count_le_all(d, p);
        }
    }
}

impl Solver {
    /// The variable tables, clauses, watches, trail and decisions are those of
    /// `self`, but for the analysis marks (and the cached analysis state).
    pub closed spec fn same_but_marks(self, post: Solver) -> bool {
        &&& post.trail == self.trail
        &&& post.trail_lim == self.trail_lim
        &&& post.clauses == self.clauses
        &&& post.watchers == self.watchers
        &&& post.formula == self.formula
        &&& post.variables.wf()
        &&& post.variables.num_vars() == self.variables.num_vars()
        &&& post.variables.values_seq() == self.variables.values_seq()
        &&& post.variables.level_seq() == self.variables.level_seq()
        &&& post.variables.reason_seq() == self.variables.reason_seq()
    }

    /// A change of the marks alone keeps the structure and the trail.
    proof fn lemma_marks_only(self, post: Solver)
        requires
            self.wf_core(),
            self.trail_ok(),
            self.same_but_marks(post),
        ensures
            post.wf_core(),
            post.trail_ok(),
    {
        reveal(Solver::sem_ok);
        assert forall|p: int| post.level0_end() <= p < post.trail@.len() implies #[trigger] post.reason_ok(p) by {
            assert(self.reason_ok(p));
        }
    }

    /// The trail seen from the conflict level: see `window_ok`.
    proof fn lemma_window(self)
        requires
            self.wf_core(),
            self.trail_ok(),
            self.trail_lim@.len() >= 1,
        ensures
            window_ok(self.trail@, self.variables.level_seq(), self.variables.num_vars() as int, self.trail_lim@.len() as int,
                self.trail_lim@[self.trail_lim@.len() - 1] as int),
            self.level0_end() <= self.trail_lim@[self.trail_lim@.len() - 1],
    {
        let t = self.trail@;
        let d = self.trail_lim@;
        let start = d[d.len() - 1] as int;
        let levels = self.variables.level_seq();
        assert(d[0] <= d[d.len() - 1]) by {
            if d.len() > 1 {
                assert(d[0] < d[d.len() - 1]);
            }
        }
        assert forall|p: int| 0 <= p < t.len() implies levels[(#[trigger] t[p]).var_spec() as int] <= d.len()
            && (levels[t[p].var_spec() as int] == d.len() <==> start <= p) by {
            lemma_count_le_full(d, p);
        }
    }

    /// Conflict analysis at level `trail_lim.len()` with the state `ci`, the trail
    /// positions from `hi` on dealt with: see `scan_ok`; at least one marked
    /// position is left.
    /// Every model of the stored clauses satisfies `c`.
    #[verifier::opaque]
    pub closed spec fn implied_by_stored(self, c: Seq<Lit>) -> bool {
        clause_implied(self.clauses.clauses(), c)
    }

    /// `f` is the clause learned at the first unique implication point of the
    /// conflict on the stored clause `id`: the analysis marks the literals of that
    /// clause, then resolves back from the end of the trail (see `uip_run`) down to
    /// the first position `hi` where one position `r` of the conflict level is left
    /// marked; `f` is the negation of the literal at `r`, then the other literals
    /// gathered (see `finalized`).
    #[verifier::opaque]
    pub closed spec fn first_uip_clause(self, id: int, f: Seq<Lit>) -> bool {
        let t = self.trail@;
        let d = self.trail_lim@;
        let dl = d.len() as int;
        let st0 = conflict_scan((Seq::empty(), 0, 0, 0, self.variables.seen_seq()), self.clauses.clauses()[id], self.variables.level_seq(), dl);
        exists|hi: int, r: int| #![trigger uip_run(st0, t, self.clauses.clauses(), self.variables.reason_seq(), self.variables.level_seq(), dl, hi), t[r]] {
            let st = uip_run(st0, t, self.clauses.clauses(), self.variables.reason_seq(), self.variables.level_seq(), dl, hi);
            &&& d[d.len() - 1] <= r < hi <= t.len()
            &&& st.1 == 1
            &&& marked_at(t, st.4, r)
            &&& (forall|h: int| hi < h <= t.len() ==> (#[trigger] uip_run(st0, t, self.clauses.clauses(), self.variables.reason_seq(), self.variables.level_seq(), dl, h)).1 > 1)
            &&& f == finalized(st.0, t[r].opposite(), st.2)
        }
    }

    pub closed spec fn analysis_ok(self, ci: ConflictInfo, hi: int) -> bool {
        let d = self.trail_lim@;
        &&& d.len() >= 1
        &&& ci.level_spec() == d.len()
        &&& ci.num_spec() >= 1
        &&& scan_ok(ci.scan_state(self.variables.seen_seq()), self.trail@, self.variables.values_seq(), self.variables.level_seq(),
            self.variables.num_vars() as int, d.len() as int, d[d.len() - 1] as int, hi)
        &&& forall|m: spec_fn(nat) -> bool| #[trigger] models(m, self.clauses.clauses())
            ==> scan_holds(ci.scan_state(self.variables.seen_seq()), self.trail@, m, d[d.len() - 1] as int, hi)
    }

    /// Resolves the learned clause with the reason clauses of the marked trail
    /// positions of the conflict level, from the last down, while more than one
    /// position of that level is marked; returns the literal of the one left, the
    /// first unique implication point.
    #[verifier::rlimit(30)]
    fn resolve_until_1uip(&mut self, conflict_info: &mut ConflictInfo) -> (uip: Lit)
        requires
            old(self).wf_core(),
            old(self).trail_ok(),
            old(self).analysis_ok(*old(conflict_info), old(self).trail@.len() as int),
        ensures
            old(self).same_but_marks(*final(self)),
            final(conflict_info).num_spec() == 1,
            exists|r: int, hi: int| {
                &&& old(self).trail_lim@[old(self).trail_lim@.len() - 1] <= r < hi <= old(self).trail@.len()
                &&& uip == old(self).trail@[r]
                &&& marked_at(old(self).trail@, final(self).variables.seen_seq(), r)
                &&& final(self).analysis_ok(*final(conflict_info), hi)
                &&& final(conflict_info).scan_state(final(self).variables.seen_seq()) == uip_run(
                    old(conflict_info).scan_state(old(self).variables.seen_seq()), old(self).trail@, old(self).clause_seqs(),
                    old(self).reasons(), old(self).levels(), old(self).trail_lim@.len() as int, hi)
                &&& forall|h: int| hi < h <= old(self).trail@.len() ==> (#[trigger] uip_run(
                    old(conflict_info).scan_state(old(self).variables.seen_seq()), old(self).trail@, old(self).clause_seqs(),
                    old(self).reasons(), old(self).levels(), old(self).trail_lim@.len() as int, h)).1 > 1
            },
    {
        let ghost t = self.trail@;
        let ghost d = self.trail_lim@;
        let ghost dl = d.len() as int;
        let ghost start = d[d.len() - 1] as int;
        let ghost n = self.variables.num_vars() as int;
        let ghost levels = self.variables.level_seq();
        let ghost vals = self.variables.values_seq();
        proof {
            self.lemma_window();
            self.lemma_trail_bounds();
            assert(self.same_but_marks(*self));
        }
        let ghost st0 = conflict_info.scan_state(self.variables.seen_seq());
        let ghost cs = self.clause_seqs();
        let ghost reasons = self.reasons();
        let mut trail_index: usize = self.trail.len();
        while conflict_info.num_lit_in_level() > 1
            invariant
                trail_index <= t.len(),
                st0 == old(conflict_info).scan_state(old(self).variables.seen_seq()),
                cs == old(self).clause_seqs(),
                reasons == old(self).reasons(),
                conflict_info.scan_state(self.variables.seen_seq()) == uip_run(st0, t, cs, reasons, levels, dl, trail_index as int),
                forall|h: int| trail_index < h <= t.len() ==> (#[trigger] uip_run(st0, t, cs, reasons, levels, dl, h)).1 > 1,
                old(self).wf_core(),
                old(self).trail_ok(),
                old(self).same_but_marks(*self),
                t == old(self).trail@,
                d == old(self).trail_lim@,
                dl == d.len(),
                dl >= 1,
                start == d[d.len() - 1],
                n == old(self).variables.num_vars(),
                levels == old(self).variables.level_seq(),
                vals == old(self).variables.values_seq(),
                window_ok(t, levels, n, dl, start),
                old(self).level0_end() <= start,
                t.len() - old(self).level0_end() <= n,
                n <= MAX_VAR + 1,
                self.analysis_ok(*conflict_info, trail_index as int),
            decreases trail_index,
        {
            let ghost st = conflict_info.scan_state(self.variables.seen_seq());
            proof {
                lemma_count_marked_le(t, st.4, start, trail_index as int);
                old(self).lemma_marks_only(*self);
            }
            trail_index -= 1;
            let trail_lit = self.trail[trail_index];
            let trail_var = trail_lit.var();
            if self.variables.get_seen(trail_var).is_empty() {
                proof {
                    lemma_scan_shrink(st, t, vals, levels, n, dl, start, trail_index + 1);
                    assert forall|m: spec_fn(nat) -> bool| #[trigger] models(m, self.clauses.clauses()) implies scan_holds(st, t, m, start, trail_index as int) by {
                        lemma_holds_shrink(st, t, m, start, trail_index + 1);
                    }
                }
                continue;
            }
            let ghost p = trail_index as int;
            let reason = self.variables.get_reason(trail_var);
            proof {
                assert(old(self).reason_ok(p));
                if reason == NULL_CLAUSE {
                    let j = choose|j: int| 0 <= j < d.len() && d[j] == p;
                    if j < d.len() - 1 {
                        assert(d[j] < d[d.len() - 1]);
                    }
                }
                assert(is_assigned(vals[t[p].var_spec() as int]));
                self.clauses.lemma_spec_get(reason as int);
            }
            let clause = self.clauses.get(reason);
            let ghost c = self.clauses.clauses()[reason as int];
            proof {
                assert(self.clauses.accessor_lits(clause) == c);
                assert(distinct_vars(c));
                lemma_occurrences_distinct(c, trail_lit);
                lemma_distinct_vars_len(c, n as nat);
                lemma_distinct_vars_len_excluding(st.0, n as nat, trail_var as nat);
                assert forall|k: int| 0 <= k < c.len() && c[k] != trail_lit implies clause_lit_ok(#[trigger] c[k], t, vals, n, p + 1) by {
                    assert(c[k].var_spec() < n);
                    assert(on_trail_below(t, c[k].var_spec() as int, p));
                    let q = choose|q: int| 0 <= q < p && q < t.len() && #[trigger] t[q].var_spec() == c[k].var_spec();
                    assert(0 <= q < p + 1 && t[q].var_spec() == c[k].var_spec());
                }
                assert(st.4[trail_lit.var_spec() as int] != Assignment(0));
                lemma_resolve_scan_ok(st, c, trail_lit, t, vals, levels, n, dl, start, p + 1);
            }
            conflict_info.resolve(&mut self.variables, self.clauses.literals(clause), trail_lit);
            proof {
                let st2 = conflict_info.scan_state(self.variables.seen_seq());
                assert(st2 == resolve_scan(st, c, trail_lit, levels, dl));
                lemma_scan_shrink(st2, t, vals, levels, n, dl, start, p + 1);
                assert forall|m: spec_fn(nat) -> bool| #[trigger] models(m, self.clauses.clauses()) implies scan_holds(st2, t, m, start, p) by {
                    assert(clause_holds(m, self.clauses.clauses()[reason as int]));
                    assert(c.contains(trail_lit));
                    lemma_resolve_holds(st, c, trail_lit, t, vals, levels, n, dl, start, p + 1, m);
                    lemma_holds_shrink(st2, t, m, start, p + 1);
                }
            }
        }
        let ghost st = conflict_info.scan_state(self.variables.seen_seq());
        proof {
            lemma_count_marked_le(t, st.4, start, trail_index as int);
            lemma_count_marked_witness(t, st.4, start, trail_index as int);
            old(self).lemma_marks_only(*self);
        }
        let trail_uip = conflict_info.find_trail_index_before(&mut self.variables, &self.trail, trail_index - 1);
        proof {
            let q = choose|q: int| start <= q < trail_index && marked_at(t, st.4, q);
            if q > trail_uip {
                assert(st.4[t[q].var_spec() as int] == Assignment(0));
            }
            assert(marked_at(t, st.4, trail_uip as int));
        }
        self.trail[trail_uip]
    }
}

/// The analysis state reached from `st0` once the trail positions from `h` on
/// are processed from the last down: a marked position is resolved with the
/// reason clause (in `cs`, by `reasons`) of its variable, an unmarked one is
/// passed over. Conflict analysis stops at the first `h`, from the end, where one
/// position of the conflict level `dl` is left marked: the first unique
/// implication point.
pub open spec fn uip_run(st0: ScanState, t: Seq<Lit>, cs: Seq<Seq<Lit>>, reasons: Seq<u32>, levels: Seq<u32>, dl: int, h: int) -> ScanState
    decreases t.len() - h,
{
    if h >= t.len() {
        st0
    } else {
        let st = uip_run(st0, t, cs, reasons, levels, dl, h + 1);
        let v = t[h].var_spec() as int;
        if st.4[v] == Assignment(0) {
            st
        } else {
            resolve_scan(st, cs[reasons[v] as int], t[h], levels, dl)
        }
    }
}

impl Solver {
    /// `f` is a learned clause for a conflict at the current decision level, with
    /// `lnu_level` the level to go back to: its literals are distinct, false and
    /// over existing variables; the first is the negation of a trail literal of the
    /// current level; the others lie at levels of at most `lnu_level`, which is
    /// below the current level, reached by one of them, and 0 when there is none.
    #[verifier::opaque]
    pub open spec fn learned_clause_ok(self, f: Seq<Lit>, lnu_level: int) -> bool {
        let t = self.trail_seq();
        let d = self.trail_lim_seq();
        &&& d.len() >= 1
        &&& f.len() >= 1
        &&& distinct_vars(f)
        &&& forall|k: int| 0 <= k < f.len() ==> (#[trigger] f[k]).var_spec() < self.nvars() && lit_false(self.values(), f[k])
        &&& exists|r: int| d[d.len() - 1] <= r < t.len() && f[0] == (#[trigger] t[r]).opposite()
        &&& forall|k: int| 1 <= k < f.len() ==> self.levels()[(#[trigger] f[k]).var_spec() as int] <= lnu_level
        &&& 0 <= lnu_level < d.len()
        &&& f.len() == 1 ==> lnu_level == 0
        &&& f.len() >= 2 ==> exists|k: int| 1 <= k < f.len() && self.levels()[(#[trigger] f[k]).var_spec() as int] == lnu_level
        &&& f.len() >= 2 ==> self.levels()[f[1].var_spec() as int] == lnu_level
    }

    /// The clause that conflict analysis learns, `f2`, built from the analysis
    /// state `ci` of `at` (which differs from `self` only in its marks) once the
    /// unique implication point `uip` is found, is a learned clause of `self`
    /// (see `learned_clause_ok`) that holds the variable of every mark.
    #[verifier::rlimit(20)]
    proof fn lemma_learned_clause(self, at: Solver, ci: ConflictInfo, uip: Lit, f2: Seq<Lit>, r: int, hi: int)
        requires
            self.wf_core(),
            self.trail_ok(),
            self.trail_lim@.len() >= 1,
            self.same_but_marks(at),
            ci.num_spec() == 1,
            self.trail_lim@[self.trail_lim@.len() - 1] <= r < hi <= self.trail@.len(),
            uip == self.trail@[r],
            marked_at(self.trail@, at.variables.seen_seq(), r),
            at.analysis_ok(ci, hi),
            f2 == finalized(ci.frontier_seq(), uip.opposite(), ci.lnu_spec() as int),
        ensures
            self.learned_clause_ok(f2, ci.lnu_level_spec() as int),
            clause_implied(self.formula@, f2),
            clause_implied(self.clauses.clauses(), f2),
            ci.frontier_seq().len() > 0 ==> f2.len() >= 2,
            forall|v: int| 0 <= v < self.variables.num_vars() && #[trigger] at.variables.seen_seq()[v] != Assignment(0)
                ==> exists|k: int| 0 <= k < f2.len() && f2[k].var_spec() == v,
    {
        let t = self.trail@;
        let d = self.trail_lim@;
        let dl = d.len() as int;
        let start = d[d.len() - 1] as int;
        let n = self.variables.num_vars() as int;
        let levels = self.variables.level_seq();
        let vals = self.variables.values_seq();
        let st = ci.scan_state(at.variables.seen_seq());
        self.lemma_window();
        assert(lit_true(vals, t[r]));
        lemma_learned(st, t, vals, levels, n, dl, start, hi, r, uip);
        assert forall|m: spec_fn(nat) -> bool| #[trigger] models(m, self.clauses.clauses()) implies clause_holds(m, f2) by {
            assert(models(m, at.clauses.clauses()));
            lemma_learned_holds(st, t, vals, levels, n, dl, start, hi, r, uip, m);
        }
        assert forall|m: spec_fn(nat) -> bool| #[trigger] models(m, self.formula@) implies clause_holds(m, f2) by {
            assert forall|i: int| 0 <= i < self.clauses.clauses().len() implies #[trigger] clause_holds(m, self.clauses.clauses()[i]) by {
                assert(clause_implied(self.formula@, self.clauses.clauses()[i])) by {
                    reveal(Solver::sem_ok);
                }
            }
            assert(models(m, self.clauses.clauses()));
        }
        assert(f2[0] == t[r].opposite());
        assert(d.len() >= 1);
        assert(f2.len() >= 1);
        assert(distinct_vars(f2));
        assert(forall|k: int| 0 <= k < f2.len() ==> (#[trigger] f2[k]).var_spec() < self.nvars() && lit_false(self.values(), f2[k]));
        assert(exists|r: int| d[d.len() - 1] <= r < t.len() && f2[0] == (#[trigger] t[r]).opposite());
        assert(forall|k: int| 1 <= k < f2.len() ==> self.levels()[(#[trigger] f2[k]).var_spec() as int] <= ci.lnu_level_spec() as int);
        assert(0 <= ci.lnu_level_spec() < d.len());
        if f2.len() >= 2 {
            let k = choose|k: int| 1 <= k < f2.len() && levels[(#[trigger] f2[k]).var_spec() as int] == st.3;
            assert(self.levels()[f2[k].var_spec() as int] == ci.lnu_level_spec() as int);
            assert(exists|k: int| 1 <= k < f2.len() && self.levels()[(#[trigger] f2[k]).var_spec() as int] == ci.lnu_level_spec() as int);
        }
        assert(f2.len() == 1 ==> ci.lnu_level_spec() == 0);
        let lnu = ci.lnu_level_spec() as int;
        assert(self.trail_seq() == t);
        assert(self.trail_lim_seq() == d);
        assert(exists|r: int| d[d.len() - 1] <= r < self.trail_seq().len() && f2[0] == (#[trigger] self.trail_seq()[r]).opposite());
        assert(f2.len() >= 2 ==> exists|k: int| 1 <= k < f2.len() && self.levels()[(#[trigger] f2[k]).var_spec() as int] == lnu);
        assert(self.learned_clause_ok(f2, lnu)) by {
            reveal(Solver::learned_clause_ok);
        }
    }

    /// The state right after `new_conflict` on clause `id`, whose literals are
    /// false with one at the current level, starts a valid analysis.
    #[verifier::spinoff_prover]
    #[verifier::rlimit(40)]
    proof fn lemma_analysis_start(self, pre: Solver, ci: ConflictInfo, id: int)
        requires
            pre.wf(),
            pre.trail_ok(),
            pre.trail_lim@.len() >= 1,
            0 <= id < pre.clauses.num_clauses(),
            pre.same_but_marks(self),
            ({
                let c = pre.clauses.clauses()[id];
                let t = pre.trail@;
                let d = pre.trail_lim@;
                &&& forall|k: int| 0 <= k < c.len() ==> lit_false(pre.variables.values_seq(), #[trigger] c[k])
                &&& exists|p: int| d[d.len() - 1] <= p < t.len() && c[1] == (#[trigger] t[p]).opposite()
            }),
            ci.level_spec() == pre.trail_lim@.len(),
            ci.scan_state(self.variables.seen_seq()) == conflict_scan(
                (Seq::empty(), 0, 0, 0, pre.variables.seen_seq()),
                pre.clauses.clauses()[id],
                pre.variables.level_seq(),
                pre.trail_lim@.len() as int,
            ),
        ensures
            self.analysis_ok(ci, self.trail@.len() as int),
    {
        let t = pre.trail@;
        let d = pre.trail_lim@;
        let dl = d.len() as int;
        let start = d[d.len() - 1] as int;
        let n = pre.variables.num_vars() as int;
        let levels = pre.variables.level_seq();
        let vals = pre.variables.values_seq();
        let c = pre.clauses.clauses()[id];
        pre.lemma_window();
        assert forall|k: int| 0 <= k < c.len() implies clause_lit_ok(#[trigger] c[k], t, vals, n, t.len() as int) by {
            assert(c[k].var_spec() < n);
            assert(is_assigned(vals[c[k].var_spec() as int]));
            assert(on_trail_below(t, c[k].var_spec() as int, t.len() as int));
            let q = choose|q: int| 0 <= q < t.len() && q < t.len() && #[trigger] t[q].var_spec() == c[k].var_spec();
            assert(0 <= q < t.len() && t[q].var_spec() == c[k].var_spec());
        }
        lemma_conflict_scan_ok(c, pre.variables.seen_seq(), t, vals, levels, n, dl, start);
        let st = ci.scan_state(self.variables.seen_seq());
        let p = choose|p: int| start <= p < t.len() && c[1] == (#[trigger] t[p]).opposite();
        assert(c[1].var_spec() == t[p].var_spec());
        assert(exists|k: int| 0 <= k < c.len() && c[k].var_spec() == t[p].var_spec());
        assert(marked_at(t, st.4, p));
        lemma_count_marked_pos(t, st.4, start, t.len() as int, p);
        assert forall|q: int| start <= q < t.len() implies lit_true(vals, #[trigger] t[q]) by {
            assert(pre.level0_end() <= q);
        }
        assert forall|m: spec_fn(nat) -> bool| #[trigger] models(m, self.clauses.clauses()) implies scan_holds(st, t, m, start, t.len() as int) by {
            assert(clause_holds(m, self.clauses.clauses()[id]));
            lemma_conflict_holds(c, pre.variables.seen_seq(), t, vals, levels, n, dl, start, m);
        }
    }

    /// During analysis the frontier holds at most one literal per variable.
    proof fn lemma_frontier_len(self, ci: ConflictInfo, hi: int)
        requires
            self.analysis_ok(ci, hi),
        ensures
            ci.frontier_seq().len() <= self.variables.num_vars(),
    {
        let f = ci.frontier_seq();
        let n = self.variables.num_vars() as int;
        let d = self.trail_lim@;
        assert forall|k: int| 0 <= k < f.len() implies #[trigger] f[k].var_spec() < n by {
            assert(frontier_lit_ok(f[k], self.variables.seen_seq(), self.variables.values_seq(), self.variables.level_seq(), n, d.len() as int));
        }
        lemma_distinct_vars_len(f, n as nat);
    }

    /// Clearing the marks of the variables of `f2`, which holds every variable
    /// marked in `at`, leaves no mark: `self` is then well formed.
    #[verifier::rlimit(20)]
    proof fn lemma_marks_cleared(self, pre: Solver, at: Solver, f2: Seq<Lit>)
        requires
            pre.wf_core(),
            pre.trail_ok(),
            pre.same_but_marks(at),
            self.trail == pre.trail,
            self.trail_lim == pre.trail_lim,
            self.clauses == pre.clauses,
            self.watchers == pre.watchers,
            self.formula == pre.formula,
            self.variables.wf(),
            self.variables.num_vars() == pre.variables.num_vars(),
            self.variables.values_seq() == pre.variables.values_seq(),
            self.variables.level_seq() == pre.variables.level_seq(),
            self.variables.reason_seq() == pre.variables.reason_seq(),
            forall|v: int| 0 <= v < pre.variables.num_vars() && #[trigger] at.variables.seen_seq()[v] != Assignment(0)
                ==> exists|k: int| 0 <= k < f2.len() && f2[k].var_spec() == v,
            forall|v: int|
                0 <= v < at.variables.num_vars() ==> #[trigger] self.variables.seen_seq()[v] == if exists|k: int|
                    0 <= k < f2.len() && f2[k].var_spec() == v {
                    Assignment(0)
                } else {
                    at.variables.seen_seq()[v]
                },
        ensures
            self.wf(),
            self.trail_ok(),
    {
        assert forall|v: int| 0 <= v < self.variables.num_vars() implies #[trigger] self.variables.seen_seq()[v] == Assignment(0) by {
            if !(exists|k: int| 0 <= k < f2.len() && f2[k].var_spec() == v) {
                assert(!(at.variables.seen_seq()[v] != Assignment(0)));
            }
        }
        assert(pre.same_but_marks(self));
        pre.lemma_marks_only(self);
    }

    /// Analyses the conflict on clause `conflicting_clause_id`, whose literals are
    /// false with one at the current decision level, and returns the analysis
    /// state whose frontier is the learned clause: the negation of the first
    /// unique implication point first, then the literals of lower levels.
    #[verifier::spinoff_prover]
    #[verifier::rlimit(30)]
    fn make_conflict_clause(&mut self, conflicting_clause_id: ClauseId) -> (ci: ConflictInfo)
        requires
            old(self).wf(),
            old(self).trail_ok(),
            old(self).trail_lim@.len() >= 1,
            conflicting_clause_id < old(self).clause_seqs().len(),
            ({
                let c = old(self).clause_seqs()[conflicting_clause_id as int];
                let t = old(self).trail_seq();
                let d = old(self).trail_lim_seq();
                &&& forall|k: int| 0 <= k < c.len() ==> lit_false(old(self).values(), #[trigger] c[k])
                &&& exists|p: int| d[d.len() - 1] <= p < t.len() && c[1] == (#[trigger] t[p]).opposite()
            }),
        ensures
            final(self).wf(),
            final(self).trail_ok(),
            final(self).trail == old(self).trail,
            final(self).trail_lim == old(self).trail_lim,
            final(self).clauses == old(self).clauses,
            final(self).watchers == old(self).watchers,
            final(self).variables.num_vars() == old(self).variables.num_vars(),
            final(self).variables.values_seq() == old(self).variables.values_seq(),
            final(self).variables.level_seq() == old(self).variables.level_seq(),
            final(self).variables.reason_seq() == old(self).variables.reason_seq(),
            old(self).learned_clause_ok(ci.frontier_seq(), ci.lnu_level_spec() as int),
            clause_implied(old(self).formula(), ci.frontier_seq()),
            old(self).implied_by_stored(ci.frontier_seq()),
            old(self).first_uip_clause(conflicting_clause_id as int, ci.frontier_seq()),
            final(self).formula() == old(self).formula(),
            ci.frontier_seq().len() >= 2 ==> ci.lnu_spec() == 1,
    {
        let ghost t = self.trail@;
        let ghost d = self.trail_lim@;
        let ghost dl = d.len() as int;
        let ghost start = d[d.len() - 1] as int;
        let ghost n = self.variables.num_vars() as int;
        let ghost levels = self.variables.level_seq();
        let ghost vals = self.variables.values_seq();
        let ghost c = self.clauses.clauses()[conflicting_clause_id as int];
        let mut conflict_info = ConflictInfo::new();
        std::mem::swap(&mut conflict_info, &mut self.conflict_cache);
        proof {
            self.clauses.lemma_spec_get(conflicting_clause_id as int);
        }
        let conflicting_clause = self.clauses.get(conflicting_clause_id);
        let level = self.trail_lim.len() as u32;
        proof {
            assert(self.clauses.accessor_lits(conflicting_clause) == c);
        }
        conflict_info.new_conflict(&mut self.variables, level, self.clauses.literals(conflicting_clause));
        proof {
            self.lemma_analysis_start(*old(self), conflict_info, conflicting_clause_id as int);
            old(self).lemma_marks_only(*self);
        }
        let ghost mid = *self;
        let ghost ci_mid = conflict_info;
        let lit_1uip = self.resolve_until_1uip(&mut conflict_info);
        let ghost ci_uip = conflict_info;
        let ghost at_uip = *self;
        let ghost (r, hi) = choose|r: int, hi: int| {
            &&& mid.trail_lim@[mid.trail_lim@.len() - 1] <= r < hi <= mid.trail@.len()
            &&& lit_1uip == mid.trail@[r]
            &&& marked_at(mid.trail@, at_uip.variables.seen_seq(), r)
            &&& at_uip.analysis_ok(ci_uip, hi)
            &&& ci_uip.scan_state(at_uip.variables.seen_seq()) == uip_run(
                ci_mid.scan_state(mid.variables.seen_seq()), mid.trail@, mid.clause_seqs(),
                mid.reasons(), mid.levels(), mid.trail_lim@.len() as int, hi)
            &&& forall|h: int| hi < h <= mid.trail@.len() ==> (#[trigger] uip_run(
                ci_mid.scan_state(mid.variables.seen_seq()), mid.trail@, mid.clause_seqs(),
                mid.reasons(), mid.levels(), mid.trail_lim@.len() as int, h)).1 > 1
        };
        self.finish_learned_clause(&mut conflict_info, lit_1uip, Ghost(*old(self)), Ghost(r), Ghost(hi));
        proof {
            reveal(Solver::implied_by_stored);
            reveal(Solver::first_uip_clause);
            let st = ci_uip.scan_state(at_uip.variables.seen_seq());
            assert(conflict_info.frontier_seq() == finalized(st.0, old(self).trail@[r].opposite(), st.2));
        }
        conflict_info
    }

    /// Ends the analysis of a conflict of `base` (which `self` matches but for the
    /// marks) once the unique implication point `lit_1uip`, at trail position `r`,
    /// is the one marked position of the conflict level: the learned clause gets
    /// its negation and every mark is cleared.
    #[verifier::rlimit(30)]
    fn finish_learned_clause(&mut self, conflict_info: &mut ConflictInfo, lit_1uip: Lit, Ghost(base): Ghost<Solver>, Ghost(r): Ghost<int>, Ghost(hi): Ghost<int>)
        requires
            base.wf(),
            base.trail_ok(),
            base.trail_lim@.len() >= 1,
            base.same_but_marks(*old(self)),
            old(conflict_info).num_spec() == 1,
            base.trail_lim@[base.trail_lim@.len() - 1] <= r < hi <= base.trail@.len(),
            lit_1uip == base.trail@[r],
            marked_at(base.trail@, old(self).variables.seen_seq(), r),
            old(self).analysis_ok(*old(conflict_info), hi),
        ensures
            final(self).wf(),
            final(self).trail_ok(),
            base.same_but_marks(*final(self)),
            base.learned_clause_ok(final(conflict_info).frontier_seq(), final(conflict_info).lnu_level_spec() as int),
            clause_implied(base.formula(), final(conflict_info).frontier_seq()),
            clause_implied(base.clause_seqs(), final(conflict_info).frontier_seq()),
            final(conflict_info).frontier_seq() == finalized(old(conflict_info).frontier_seq(), lit_1uip.opposite(), old(conflict_info).lnu_spec() as int),
            final(conflict_info).frontier_seq().len() >= 2 ==> final(conflict_info).lnu_spec() == 1,
    {
        let ghost at_uip = *self;
        let ghost ci_uip = *conflict_info;
        proof {
            self.lemma_frontier_len(*conflict_info, hi);
        }
        conflict_info.finalize_clause(lit_1uip);
        let lits = conflict_info.frontier().as_slice();
        let ghost f2 = lits@;
        self.variables.reset_seen_literals(lits);
        proof {
            base.lemma_learned_clause(at_uip, ci_uip, lit_1uip, f2, r, hi);
            self.lemma_marks_cleared(base, at_uip, f2);
        }
    }
}

/// With increasing `d`, a position at or after `d[l]` counts at least `l + 1` entries.
proof fn lemma_count_le_at_least(d: Seq<usize>, q: int, l: int)
    requires
        forall|i: int, j: int| 0 <= i < j < d.len() ==> #[trigger] d[i] < #[trigger] d[j],
        0 <= l < d.len(),
        d[l] <= q,
    ensures
        count_le(d, q) >= l + 1,
    decreases d.len(),
{
    let e = d.drop_last();
    assert forall|i: int, j: int| 0 <= i < j < e.len() implies #[trigger] e[i] < #[trigger] e[j] by {
        assert(e[i] == d[i] && e[j] == d[j]);
    }
    if l < d.len() - 1 {
        assert(e[l] == d[l]);
        lemma_count_le_at_least(e, q, l);
    } else {
        assert forall|j: int| 0 <= j < e.len() implies #[trigger] e[j] <= q by {
            assert(e[j] == d[j]);
            assert(d[j] < d[l]);
        }
        lemma_count_le_all(e, q);
    }
}

impl Solver {
    /// Going back to level `lvl` keeps the values of the literals of a learned
    /// clause other than the first, and undoes the first one's variable.
    #[verifier::rlimit(20)]
    proof fn lemma_learned_after_backjump(self, f: Seq<Lit>, lvl: int)
        requires
            self.wf_core(),
            self.trail_ok(),
            self.learned_clause_ok(f, lvl),
        ensures
            forall|k: int| 1 <= k < f.len() ==> !on_trail_from(self.trail@, (#[trigger] f[k]).var_spec() as int, self.trail_lim@[lvl] as int),
            on_trail_from(self.trail@, f[0].var_spec() as int, self.trail_lim@[lvl] as int),
    {
        reveal(Solver::learned_clause_ok);
        let t = self.trail@;
        let d = self.trail_lim@;
        let vals = self.variables.values_seq();
        let levels = self.variables.level_seq();
        let r = choose|r: int| d[d.len() - 1] <= r < t.len() && f[0] == (#[trigger] t[r]).opposite();
        assert(t[r].var_spec() == f[0].var_spec());
        assert(d[lvl] <= d[d.len() - 1]) by {
            if lvl < d.len() - 1 {
                assert(d[lvl] < d[d.len() - 1]);
            }
        }
        assert(t[r].var_spec() == f[0].var_spec());
        assert(d[0] <= d[lvl]) by {
            if 0 < lvl {
                assert(d[0] < d[lvl]);
            }
        }
        assert forall|k: int| 1 <= k < f.len() implies !on_trail_from(t, (#[trigger] f[k]).var_spec() as int, d[lvl] as int) by {
            let v = f[k].var_spec() as int;
            assert(lit_false(vals, f[k]));
            assert(is_assigned(vals[v]));
            assert(on_trail_below(t, v, t.len() as int));
            let q = choose|q: int| 0 <= q < t.len() && q < t.len() && #[trigger] t[q].var_spec() == v;
            assert(levels[t[q].var_spec() as int] == count_le(d, q));
            assert(levels[v] <= lvl);
            if q >= d[lvl] {
                lemma_count_le_at_least(d, q, lvl);
            }
            if on_trail_from(t, v, d[lvl] as int) {
                let q2 = choose|q2: int| d[lvl] <= q2 < t.len() && #[trigger] t[q2].var_spec() == v;
                assert(self.level0_end() <= q2);
                assert(t[q2].var_spec() != t[q].var_spec());
            }
        }
    }

    /// Handles the conflict on clause `conflicting_clause`, whose literals are
    /// false with one at the current decision level. At level 0 the clauses are
    /// unsatisfiable (`None`). Otherwise the learned clause is computed: with one
    /// literal, the search goes back to level 0 and sets it; with more, the clause
    /// is stored and watched on its first two literals, the search goes back to
    /// the highest level among its other literals, and the clause sets its first
    /// literal there.
    #[verifier::spinoff_prover]
    #[verifier::rlimit(100)]
    fn handle_conflict(&mut self, conflicting_clause: ClauseId, Ghost(q): Ghost<int>, Ghost(base): Ghost<Seq<Seq<Lit>>>) -> (r: Option<()>)
        requires
            old(self).wf(),
            old(self).trail_ok(),
            conflicting_clause < old(self).clause_seqs().len(),
            old(self).trail_lim_seq().len() > 0 ==> {
                let c = old(self).clause_seqs()[conflicting_clause as int];
                let t = old(self).trail_seq();
                let d = old(self).trail_lim_seq();
                &&& forall|k: int| 0 <= k < c.len() ==> lit_false(old(self).values(), #[trigger] c[k])
                &&& exists|p: int| d[d.len() - 1] <= p < t.len() && c[1] == (#[trigger] t[p]).opposite()
                &&& old(self).clause_seqs().len() + 1 < NULL_CLAUSE
            },
        ensures
            final(self).wf(),
            final(self).trail_ok(),
            final(self).nvars() == old(self).nvars(),
            r is None <==> old(self).trail_lim_seq().len() == 0,
            r is None ==> *final(self) == *old(self),
            entails(old(self).formula(), final(self).formula()),
            entails(final(self).formula(), old(self).formula()),
            r is Some ==> exists|f: Seq<Lit>, lvl: int| {
                &&& #[trigger] old(self).learned_clause_ok(f, lvl)
                &&& clause_implied(old(self).formula(), f)
                &&& final(self).trail_lim_seq().len() == lvl
                &&& final(self).trail_seq().len() > 0
                &&& final(self).trail_seq().last() == f[0]
                &&& 0 <= lvl < old(self).trail_lim_seq().len()
                &&& final(self).trail_lim_seq() == old(self).trail_lim_seq().subrange(0, lvl)
                &&& final(self).trail_seq() == old(self).trail_seq().subrange(0, old(self).trail_lim_seq()[lvl] as int).push(f[0])
                &&& lit_true(final(self).values(), f[0])
                &&& f.len() == 1 ==> final(self).clause_seqs() == old(self).clause_seqs()
                &&& f.len() >= 2 ==> final(self).clause_seqs() == old(self).clause_seqs().push(f)
            },
            r is Some ==> {
                &&& final(self).trail_seq().len() > old(self).level0_end()
                &&& final(self).trail_seq().subrange(0, old(self).level0_end()) == old(self).trail_seq().subrange(0, old(self).level0_end())
                &&& (final(self).trail_lim_seq().len() > 0 ==> final(self).trail_lim_seq()[0] == old(self).trail_lim_seq()[0])
            },
            old(self).conflict_ready(q, base) && r is Some ==> final(self).bcp_ready(final(self).trail_seq().len() - 1, base),
            r is Some ==> num_unassigned(final(self).values()) + final(self).trail_seq().len() == num_unassigned(old(self).values()) + old(self).trail_seq().len(),
            r is Some ==> final(self).level0_end() >= old(self).level0_end(),
            r is Some ==> final(self).clause_seqs().len() + final(self).level0_end() > old(self).clause_seqs().len() + old(self).level0_end(),
            old(self).formula_covered() ==> final(self).formula_covered(),
            vars_below(old(self).formula(), old(self).nvars()) ==> vars_below(final(self).formula(), final(self).nvars()),
    {
        proof {
            self.lemma_entails_refl();
        }
        if self.trail_lim.is_empty() {
            return None;
        }
        let ghost pre = *self;
        let ghost ready = pre.conflict_ready(q, base);
        let ghost cov = pre.formula_covered();
        let conflict_info = self.make_conflict_clause(conflicting_clause);
        proof {
            if cov {
                pre.lemma_covered_same(*self);
            }
        }
        let ghost f = conflict_info.frontier_seq();
        let ghost lvl = conflict_info.lnu_level_spec() as int;
        proof {
            reveal(Solver::learned_clause_ok);
            lemma_distinct_vars_len(f, self.variables.num_vars());
            if ready {
                pre.lemma_sound_same(*self, q, base);
            }
            assert(pre.trail_lim@[0] <= pre.trail_lim@[lvl]) by {
                if lvl > 0 {
                    assert(pre.trail_lim@[0] < pre.trail_lim@[lvl]);
                }
            }
            assert(pre.trail_lim@[lvl] <= pre.trail_lim@[pre.trail_lim@.len() - 1]) by {
                if lvl < pre.trail_lim@.len() - 1 {
                    assert(pre.trail_lim@[lvl] < pre.trail_lim@[pre.trail_lim@.len() - 1]);
                }
            }
        }
        if conflict_info.frontier().len() == 1 {
            let uip_lit = conflict_info.frontier()[0];
            let ghost s1 = *self;
            proof {
                pre.lemma_learned_after_backjump(f, 0);
            }
            self.backjump(0);
            proof {
                if cov {
                    s1.lemma_covered_backjump(*self, 0);
                }
                if ready {
                    s1.lemma_sound_backjump(*self, 0, q, base);
                    s1.lemma_all_true_backjump(*self, 0);
                }
            }
            let ghost s4 = *self;
            proof {
                assert forall|m: spec_fn(nat) -> bool| #[trigger] models(m, self.formula@) implies lit_holds(m, uip_lit) by {
                    assert(clause_holds(m, f));
                }
            }
            self.set_literal(uip_lit, NULL_CLAUSE);
            proof {
                if cov {
                    assert(self.trail@.subrange(0, s4.trail@.len() as int) =~= s4.trail@);
                    assert(s4.trail@.subrange(0, s4.trail@.len() as int) =~= s4.trail@);
                    s4.lemma_covered_keep(*self);
                }
                assert(self.trail_seq().last() == f[0]);
                assert(self.trail_seq() == pre.trail_seq().subrange(0, pre.trail_lim_seq()[0] as int).push(f[0]));
                assert(old(self).learned_clause_ok(f, 0));
                self.lemma_entails_refl();
                assert(self.trail@.subrange(0, pre.level0_end()) =~= pre.trail@.subrange(0, pre.level0_end()));
                assert(s4.values()[uip_lit.var_spec() as int] == Assignment(3));
                lemma_num_unassigned_assign(s4.values(), uip_lit.var_spec() as int, Assignment::of_bool(uip_lit.is_pos_spec()));
                if ready {
                    assert(self.trail@.subrange(0, s4.trail@.len() as int) =~= s4.trail@);
                    assert forall|v: int| 0 <= v < s4.nvars() && is_assigned(#[trigger] s4.values()[v]) implies self.values()[v] == s4.values()[v] by {
                    }
                    s4.lemma_watches_grow_same(*self);
                    s4.lemma_sound_frame(*self, s4.trail@.len() as int, base);
                    s4.lemma_all_true_keep(*self);
                }
            }
            return Some(());
        }
        let ghost before_add = *self;
        let added = self.add_clause(conflict_info.frontier().as_slice());
        proof {
            lemma_dedup_of_distinct(f);
            lemma_var_bound_max(f);
            if var_bound(f) > before_add.nvars() {
                let k = choose|k: int| 0 <= k < f.len() && f[k].var_spec() + 1 == var_bound(f);
                assert(f[k].var_spec() < before_add.nvars());
            }
            assert(self.values() =~= pre.values());
            if ready && f.len() >= 2 {
                assert(self.trail@.subrange(0, before_add.trail@.len() as int) =~= before_add.trail@);
                before_add.lemma_watches_grow_same(*self);
                assert(dedup(f) == f);
                before_add.lemma_sound_frame(*self, q, base);
            }
        }
        let conflict_clause_id = match added {
            Some(id) => id,
            None => {
                return None;
            },
        };
        let ghost before_watch = *self;
        conflict_info.add_watches(&mut self.watchers, conflict_clause_id);
        proof {
            self.lemma_same_trail(before_watch);
            if cov {
                assert(dedup(f) == f);
                before_watch.lemma_covered_same(*self);
            }
            if ready {
                assert forall|l: Lit| #[trigger] watch_prefix(before_watch.watchers.watch_list(l), self.watchers.watch_list(l)) by {
                    let wl = before_watch.watchers.watch_list(l);
                    let w = Watcher { clause: conflict_clause_id };
                    assert(wl.subrange(0, wl.len() as int) =~= wl);
                    assert(wl.push(w).subrange(0, wl.len() as int) =~= wl);
                    assert(wl.push(w).push(w).subrange(0, wl.len() as int) =~= wl);
                }
                assert(self.trail@.subrange(0, before_watch.trail@.len() as int) =~= before_watch.trail@);
                before_watch.lemma_sound_frame(*self, q, base);
            }
        }
        let latest_non_uip_lit = conflict_info.frontier()[conflict_info.latest_non_uip()];
        let ghost before_jump = *self;
        proof {
            pre.lemma_learned_after_backjump(f, lvl);
        }
        self.backjump(conflict_info.latest_non_uip_level() as usize);
        let ghost before_cache = *self;
        self.conflict_cache = conflict_info;
        proof {
            self.lemma_same_trail(before_cache);
            if cov {
                before_jump.lemma_covered_backjump(before_cache, lvl);
                before_cache.lemma_covered_same(*self);
            }
            if ready {
                before_jump.lemma_sound_backjump(before_cache, lvl, q, base);
                before_jump.lemma_all_true_backjump(before_cache, lvl);
                before_cache.lemma_sound_same(*self, before_jump.trail_lim@[lvl] as int, base);
            }
        }
        if conflict_clause_id == NULL_CLAUSE {
            return Some(());
        }
        proof {
            self.clauses.lemma_spec_get(conflict_clause_id as int);
            assert(before_jump.values() == pre.values());
            assert(before_jump.trail_seq() == pre.trail_seq());
            assert(before_jump.trail_lim_seq() == pre.trail_lim_seq());
            assert forall|k: int| 1 <= k < f.len() implies #[trigger] self.values()[f[k].var_spec() as int] == pre.values()[f[k].var_spec() as int] by {
                assert(!on_trail_from(pre.trail@, f[k].var_spec() as int, pre.trail_lim@[lvl] as int));
                assert(before_cache.values()[f[k].var_spec() as int] == before_jump.values()[f[k].var_spec() as int]);
            }
            assert(self.values()[f[0].var_spec() as int] == Assignment(3)) by {
                assert(before_cache.values()[f[0].var_spec() as int] == Assignment(3));
            }
            assert(lit_false(pre.values(), f[1]));
            assert(latest_non_uip_lit == f[1]);
            lemma_neg_involution(f[1]);
            assert(lit_true(self.values(), latest_non_uip_lit.opposite()));
            assert(lit_false(self.values(), latest_non_uip_lit));
            if self.trail_lim@.len() == 0 {
                assert(lit_false(self.values(), f[1]));
                self.lemma_false_at_level0(f[1]);
            }
        }
        let conflict_clause = self.clauses.get(conflict_clause_id);
        let ghost before_prop = *self;
        let res = self.propagate_clause(conflict_clause_id, conflict_clause, latest_non_uip_lit);
        proof {
            if cov {
                before_prop.lemma_covered_frame(*self);
            }
            let id = conflict_clause_id as int;
            let vals = before_prop.values();
            let c = before_prop.clause_seqs()[id];
            assert(c == f);
            lemma_neg_involution(f[1]);
            assert(f[0].var_spec() != f[1].var_spec());
            assert(vals[f[0].var_spec() as int] == Assignment(3));
            assert forall|pos: int| !is_first_free(vals, f, 2, pos) by {
                if 2 <= pos < f.len() {
                    assert(vals[f[pos].var_spec() as int] == pre.values()[f[pos].var_spec() as int]);
                    assert(lit_false(pre.values(), f[pos]));
                }
            }
            assert(before_prop.clause_seqs().update(id, f) =~= before_prop.clause_seqs());
            assert(self.trail_seq().last() == f[0]);
            assert(self.trail@ == before_prop.trail@.push(f[0]));
            assert(self.trail@ == pre.trail@.subrange(0, pre.trail_lim@[lvl] as int).push(f[0]));
            lemma_entails_push(pre.formula@, f);
            assert(self.trail@.subrange(0, pre.level0_end()) =~= pre.trail@.subrange(0, pre.level0_end())) by {
                assert(self.trail@.subrange(0, before_prop.trail@.len() as int) == before_prop.trail@);
                assert(before_prop.trail@ == pre.trail@.subrange(0, pre.trail_lim@[lvl] as int));
            }
            if ready && res is Some {
                let lit = latest_non_uip_lit.opposite();
                self.lemma_propagate_effects(before_prop, id, lit, res);
                self.lemma_propagate_grow(before_prop, id, lit, res);
                assert(self.trail@ == before_prop.trail@.push(f[0]));
                assert(self.trail@.subrange(0, before_prop.trail@.len() as int) =~= before_prop.trail@);
                assert(base.len() <= id);
                before_prop.lemma_sound_frame(*self, before_prop.trail@.len() as int, base);
                assert(self.trail@.drop_last() =~= before_prop.trail@);
                before_prop.lemma_all_true_keep(*self);
            }
        }
        res
    }

    /// Every formula entails itself.
    proof fn lemma_entails_refl(self)
        ensures
            entails(self.formula@, self.formula@),
    {
    }
}

impl Solver {
    /// The search, from decision level 0, once the watches of every stored clause
    /// are started and every trail literal is true: propagate the trail from
    /// `trail_read_pos`; on a conflict, handle it (at level 0 the answer is
    /// `Unsat`) and propagate again from the literal it set; without a conflict,
    /// decide the next variable, or answer `Sat` when every variable from 1 on is
    /// assigned, which leaves a true literal in every clause stored at the start
    /// and every literal of the starting trail true, and the values a model of the
    /// formula and of every stored clause. The answer is `Unknown` when a conflict
    /// comes above level 0 while the clause store is full. The search always ends:
    /// each conflict stores a clause or assigns a variable at level 0, and between
    /// conflicts each round assigns a variable. Each conflict also raises the
    /// measure `progress` of the positions above the starting trail, which
    /// `search_bound` of the variable count bounds, and stores at most one clause:
    /// so `Unknown` needs the clauses stored at the start plus that bound to reach
    /// the capacity of the store.
    #[verifier::rlimit(30)]
    fn solve_loop(&mut self) -> (r: SolveResult)
        requires
            old(self).wf(),
            old(self).trail_ok(),
            old(self).trail_lim_seq().len() == 0,
            old(self).formula_covered(),
            old(self).watches_sound(0, old(self).clause_seqs()),
            old(self).all_true(),
        ensures
            final(self).formula_covered(),
            final(self).wf(),
            final(self).trail_ok(),
            final(self).nvars() == old(self).nvars(),
            r == SolveResult::Sat ==> forall|v: int| 1 <= v < final(self).nvars() ==> is_assigned(#[trigger] final(self).values()[v]),
            r == SolveResult::Unsat ==> final(self).trail_lim_seq().len() == 0,
            r == SolveResult::Unsat ==> forall|m: spec_fn(nat) -> bool| !models(m, old(self).formula()),
            entails(old(self).formula(), final(self).formula()),
            r == SolveResult::Unknown ==> final(self).clause_seqs().len() + 1 >= NULL_CLAUSE && final(self).trail_lim_seq().len() > 0,
            r == SolveResult::Unknown ==> NULL_CLAUSE <= old(self).clause_seqs().len() + 1 + search_bound(old(self).nvars()),
            vars_below(old(self).formula(), old(self).nvars()) ==> vars_below(final(self).formula(), final(self).nvars()),
            r == SolveResult::Sat ==> {
                &&& forall|id: int| 0 <= id < old(self).clause_seqs().len() ==> has_true_lit(final(self).values(), #[trigger] old(self).clause_seqs()[id])
                &&& forall|p: int| 0 <= p < old(self).trail_seq().len() ==> lit_true(final(self).values(), #[trigger] old(self).trail_seq()[p])
                &&& models(final(self).model(), old(self).formula())
                &&& forall|id: int| 0 <= id < final(self).clause_seqs().len() ==> clause_holds(final(self).model(), #[trigger] final(self).clause_seqs()[id])
            },
    {
        let mut trail_read_pos: usize = 0;
        let ghost base = self.clause_seqs();
        proof {
            self.lemma_entails_refl();
            assert(self.trail@.subrange(0, self.trail@.len() as int) =~= self.trail@);
        }
        // Each conflict stores a clause or assigns a variable at level 0, and
        // between conflicts each round assigns a variable: the search ends.
        let ghost total = num_unassigned(self.values()) + self.trail@.len();
        // Every conflict raises the measure of the positions above the starting
        // trail by at least one, and stores at most one clause.
        let ghost s0 = self.trail@.len() as int;
        let ghost nv = self.nvars();
        proof {
            lemma_num_unassigned_le(self.values());
            self.lemma_nvars();
        }
        loop
            invariant
                self.wf(),
                self.trail_ok(),
                self.nvars() == old(self).nvars(),
                trail_read_pos <= self.trail@.len(),
                self.trail_lim@.len() == 0 || self.trail_lim@[self.trail_lim@.len() - 1] <= trail_read_pos,
                entails(old(self).formula@, self.formula@),
                base == old(self).clause_seqs(),
                self.bcp_ready(trail_read_pos as int, base),
                self.trail@.len() >= old(self).trail@.len(),
                self.trail@.subrange(0, old(self).trail@.len() as int) == old(self).trail@,
                (self.trail_lim@.len() > 0 ==> self.trail_lim@[0] >= old(self).trail@.len()),
                num_unassigned(self.values()) + self.trail@.len() == total,
                self.formula_covered(),
                old(self).wf(),
                old(self).formula_covered(),
                s0 == old(self).trail@.len(),
                nv == old(self).nvars(),
                total <= s0 + nv,
                vars_below(old(self).formula(), nv) ==> vars_below(self.formula(), nv),
                self.clause_seqs().len() <= base.len() + progress(self.trail_lim@, s0, self.trail@.len() as int, nv),
            decreases
                (NULL_CLAUSE - self.clause_seqs().len()) + (total - self.level0_end()),
                num_unassigned(self.values()),
        {
            proof {
                self.clauses.lemma_num_bound();
                assert(self.level0_end() <= self.trail@.len());
                if self.trail_lim@.len() > 0 {
                    assert(self.trail_lim@[0] <= self.trail_lim@[self.trail_lim@.len() - 1]) by {
                        if self.trail_lim@.len() > 1 {
                            assert(self.trail_lim@[0] < self.trail_lim@[self.trail_lim@.len() - 1]);
                        }
                    }
                }
            }
            let ghost before_bcp = *self;
            let bcp_result = self.bcp(trail_read_pos, Ghost(base));
            proof {
                before_bcp.lemma_covered_frame(*self);
                assert(self.clause_seqs().len() == before_bcp.clause_seqs().len());
                assert(self.trail_lim@ == before_bcp.trail_lim@);
                assert(self.level0_end() >= before_bcp.level0_end());
                assert(num_unassigned(self.values()) <= num_unassigned(before_bcp.values()));
                assert(self.trail@.subrange(0, old(self).trail@.len() as int) == old(self).trail@) by {
                    assert(self.trail@.subrange(0, before_bcp.trail@.len() as int) == before_bcp.trail@);
                    assert(self.trail@.subrange(0, old(self).trail@.len() as int) =~= self.trail@.subrange(0, before_bcp.trail@.len() as int).subrange(0, old(self).trail@.len() as int));
                }
                lemma_progress_grow(self.trail_lim@, s0, before_bcp.trail@.len() as int, self.trail@.len() as int, nv);
            }
            if let Some(conflict_reason) = bcp_result {
                if !self.trail_lim.is_empty() && self.clauses.len() >= (NULL_CLAUSE - 1) as usize {
                    proof {
                        lemma_levels_bounded(self.trail_lim@, s0, self.trail@.len() as int);
                        lemma_progress_upper(self.trail_lim@, s0, self.trail@.len() as int, nv);
                    }
                    return SolveResult::Unknown;
                }
                proof {
                    self.clauses.lemma_num_bound();
                }
                let ghost at_conflict = *self;
                if self.handle_conflict(conflict_reason, Ghost(trail_read_pos as int), Ghost(base)).is_none() {
                    proof {
                        let c = at_conflict.clause_seqs()[conflict_reason as int];
                        let p = choose|p: int| trail_read_pos <= p < at_conflict.trail_seq().len() && c[1] == (#[trigger] at_conflict.trail_seq()[p]).opposite();
                        at_conflict.lemma_level0_conflict(conflict_reason as int, p);
                        assert forall|m: spec_fn(nat) -> bool| !models(m, old(self).formula@) by {
                            if models(m, old(self).formula@) {
                                assert(models(m, before_bcp.formula@));
                            }
                        }
                    }
                    return SolveResult::Unsat;
                }
                proof {
                    let (f, lvl) = choose|f: Seq<Lit>, lvl: int| {
                        &&& #[trigger] at_conflict.learned_clause_ok(f, lvl)
                        &&& clause_implied(at_conflict.formula(), f)
                        &&& self.trail_lim_seq().len() == lvl
                        &&& self.trail_seq().len() > 0
                        &&& self.trail_seq().last() == f[0]
                        &&& 0 <= lvl < at_conflict.trail_lim_seq().len()
                        &&& self.trail_lim_seq() == at_conflict.trail_lim_seq().subrange(0, lvl)
                        &&& self.trail_seq() == at_conflict.trail_seq().subrange(0, at_conflict.trail_lim_seq()[lvl] as int).push(f[0])
                        &&& lit_true(self.values(), f[0])
                        &&& f.len() == 1 ==> self.clause_seqs() == at_conflict.clause_seqs()
                        &&& f.len() >= 2 ==> self.clause_seqs() == at_conflict.clause_seqs().push(f)
                    };
                    assert(f.len() >= 1) by {
                        reveal(Solver::learned_clause_ok);
                    }
                    lemma_progress_learn(at_conflict.trail_lim@, s0, at_conflict.trail@.len() as int, nv, lvl);
                    lemma_entails_trans(old(self).formula@, at_conflict.formula@, self.formula@);
                    let l0 = at_conflict.level0_end();
                    let n0 = old(self).trail@.len() as int;
                    assert(self.trail@.subrange(0, n0) =~= self.trail@.subrange(0, l0).subrange(0, n0));
                    assert(at_conflict.trail@.subrange(0, n0) =~= at_conflict.trail@.subrange(0, l0).subrange(0, n0));
                    self.clauses.lemma_num_bound();
                    assert(self.level0_end() <= self.trail@.len());
                    assert((NULL_CLAUSE - self.clause_seqs().len()) + (total - self.level0_end())
                        < (NULL_CLAUSE - before_bcp.clause_seqs().len()) + (total - before_bcp.level0_end()));
                }
                trail_read_pos = self.trail.len() - 1;
                continue;
            }
            trail_read_pos = self.trail.len();
            let ghost before_decision = *self;
            let decided = self.make_decision();
            proof {
                if decided is Some {
                    let n = before_decision.trail@.len() as int;
                    assert(self.trail@.subrange(0, before_decision.level0_end()) =~= before_decision.trail@.subrange(0, before_decision.level0_end()));
                    assert(self.level0_end() == before_decision.level0_end());
                    before_decision.lemma_covered_keep(*self);
                }
            }
            if decided.is_none() {
                proof {
                    assert forall|v: int| 1 <= v < self.nvars() implies is_assigned(#[trigger] self.values()[v]) by {
                        assert(1 <= self.values()[v].0 <= 3);
                    }
                    self.lemma_sound_sat(base);
                    assert forall|p: int| 0 <= p < old(self).trail_seq().len() implies lit_true(self.values(), #[trigger] old(self).trail_seq()[p]) by {
                        assert(self.trail@.subrange(0, old(self).trail@.len() as int)[p] == self.trail@[p]);
                    }
                    self.lemma_model_of_covered(*old(self));
                    assert(models(self.model(), self.formula@));
                    self.lemma_stored_hold(self.model());
                }
                return SolveResult::Sat;
            }
            proof {
                let u = choose|u: int| 1 <= u < before_decision.nvars() && before_decision.values()[u].0 == 3
                    && (forall|v: int| 1 <= v < u ==> (#[trigger] before_decision.values()[v]).0 != 3)
                    && self.trail_seq() == before_decision.trail_seq().push(Lit::spec_new(u as nat, true))
                    && self.trail_lim_seq() == before_decision.trail_lim_seq().push(before_decision.trail_seq().len() as usize)
                    && self.values() == before_decision.values().update(u, Assignment(1));
                lemma_num_unassigned_assign(before_decision.values(), u, Assignment(1));
                assert(self.level0_end() == before_decision.level0_end());
                let u = choose|u: int| 1 <= u < before_decision.nvars() && before_decision.values()[u].0 == 3
                    && (forall|v: int| 1 <= v < u ==> (#[trigger] before_decision.values()[v]).0 != 3)
                    && self.trail_seq() == before_decision.trail_seq().push(Lit::spec_new(u as nat, true))
                    && self.trail_lim_seq() == before_decision.trail_lim_seq().push(before_decision.trail_seq().len() as usize)
                    && self.values() == before_decision.values().update(u, Assignment(1));
                crate::lit::lemma_new_roundtrip(u as nat, true);
                let n = before_decision.trail@.len() as int;
                assert(forall|j: int| 0 <= j < before_decision.trail_lim@.len() ==> #[trigger] before_decision.trail_lim@[j] <= n);
                lemma_count_le_push_above(before_decision.trail_lim@, n);
                lemma_progress_decide(before_decision.trail_lim@, s0, n, nv);
                assert(self.trail@.subrange(0, n) =~= before_decision.trail@);
                assert forall|p: int| 0 <= p < n implies #[trigger] count_le(self.trail_lim@, p) == count_le(before_decision.trail_lim@, p) by {
                }
                before_decision.lemma_watches_grow_same(*self);
                before_decision.lemma_sound_frame(*self, n, base);
                assert(self.trail@.drop_last() =~= before_decision.trail@);
                before_decision.lemma_all_true_keep(*self);
                assert(self.trail@.subrange(0, old(self).trail@.len() as int) =~= before_decision.trail@.subrange(0, old(self).trail@.len() as int));
            }
        }
    }

    /// Solves the clauses, from decision level 0 (a search left above it is
    /// undone first). `Unsat` means that the clauses given have no model, and is
    /// answered at decision level 0: when clauses of one literal contradict each
    /// other, when the watches cannot be started without a clause whose literals
    /// are all false, or when the search meets a conflict at level 0. `Sat`
    /// leaves every variable from 1 on assigned, and the values satisfy every
    /// clause given; read through `value_of`, every clause given has a literal
    /// reported true, as every variable of the clauses given exists (`vars_below`,
    /// which `new` and `add_clause` keep). The clauses learned on the way hold in
    /// every model of the clauses given. `Unknown` comes only when a conflict
    /// above level 0 meets a full clause store, which needs the clauses stored
    /// before plus `search_bound` of the variable count to reach its capacity
    /// (over at most eight variables that bound is at most 800 million, see
    /// `lemma_search_bound_small`).
    #[verifier::rlimit(30)]
    pub fn solve(&mut self) -> (r: SolveResult)
        requires
            old(self).wf(),
            old(self).trail_loose(),
            old(self).formula_covered_loose(),
        ensures
            final(self).wf(),
            final(self).trail_ok(),
            final(self).trail_loose(),
            final(self).formula_covered_loose(),
            final(self).nvars() == old(self).nvars(),
            r == SolveResult::Sat ==> forall|v: int| 1 <= v < final(self).nvars() ==> is_assigned(#[trigger] final(self).values()[v]),
            r == SolveResult::Unsat ==> final(self).trail_lim_seq().len() == 0,
            r == SolveResult::Unsat ==> forall|m: spec_fn(nat) -> bool| !models(m, old(self).formula()),
            r == SolveResult::Sat ==> models(final(self).model(), old(self).formula()),
            entails(old(self).formula(), final(self).formula()),
            r == SolveResult::Sat ==> forall|id: int| 0 <= id < final(self).clause_seqs().len() ==> clause_holds(final(self).model(), #[trigger] final(self).clause_seqs()[id]),
            r == SolveResult::Unknown ==> final(self).clause_seqs().len() + 1 >= NULL_CLAUSE && final(self).trail_lim_seq().len() > 0,
            r == SolveResult::Unknown ==> NULL_CLAUSE <= old(self).clause_seqs().len() + 1 + search_bound(old(self).nvars()),
            final(self).formula_covered(),
            vars_below(old(self).formula(), old(self).nvars()) ==> vars_below(final(self).formula(), final(self).nvars()),
            r == SolveResult::Sat && vars_below(old(self).formula(), old(self).nvars()) ==> forall|i: int| 0 <= i < old(self).formula().len()
                ==> #[trigger] final(self).value_of_satisfies(old(self).formula()[i]),
    {
        let ghost entry = *self;
        proof {
            self.lemma_entails_refl();
        }
        if !self.trail_lim.is_empty() {
            self.restart();
        } else {
            proof {
                self.lemma_strict_at_level0();
            }
        }
        let ghost at0 = *self;
        if !self.trail_all_true() {
            proof {
                let p = choose|p: int| 0 <= p < self.trail@.len() && !lit_true(self.variables.values_seq(), #[trigger] self.trail@[p]);
                self.lemma_false_on_trail(p);
                self.lemma_loose_of_strict();
            }
            return SolveResult::Unsat;
        }
        let init = self.initial_propagate();
        proof {
            at0.lemma_covered_frame(*self);
        }
        if init.is_none() {
            proof {
                self.lemma_loose_of_strict();
            }
            return SolveResult::Unsat;
        }
        let ghost start = *self;
        proof {
            assert(start.trail@.subrange(0, at0.trail@.len() as int) == at0.trail@);
            assert(start.trail@.subrange(0, at0.level0_end()) =~= at0.trail@.subrange(0, at0.level0_end()));
            assert(start.formula() == old(self).formula());
        }
        let r = self.solve_loop();
        proof {
            self.lemma_loose_of_strict();
            if r == SolveResult::Sat && vars_below(old(self).formula(), old(self).nvars()) {
                self.lemma_sat_values(old(self).formula());
            }
        }
        r
    }
}

impl Solver {
    /// What `value_of` reports for variable `var`: whether it is true, for an
    /// existing variable.
    pub open spec fn value_spec(self, var: int) -> Option<bool> {
        if 0 <= var < self.nvars() {
            Some(self.values()[var] == Assignment(2))
        } else {
            None
        }
    }

    /// The lines that report the variables from 1 to `k - 1`.
    pub open spec fn assignments_text(self, k: int) -> Seq<u8>
        decreases k,
    {
        if k <= 1 {
            Seq::empty()
        } else {
            self.assignments_text(k - 1) + assignment_line((k - 1) as nat, self.value_spec(k - 1))
        }
    }

    /// The number of stored clauses.
    pub fn num_clauses(&self) -> (n: usize)
        requires
            self.wf(),
        ensures
            n == self.clause_seqs().len(),
    {
        self.clauses.len()
    }

    /// The number of variables.
    pub fn values_len(&self) -> (n: usize)
        requires
            self.wf(),
        ensures
            n == self.nvars(),
    {
        self.variables.len()
    }

    /// The current value of variable `var`: `None` for a variable that does not
    /// exist, otherwise whether it is true (an unassigned variable reads false).
    pub fn value_of(&self, var: usize) -> (r: Option<bool>)
        requires
            self.wf(),
        ensures
            r == self.value_spec(var as int),
    {
        if var >= self.variables.len() {
            None
        } else {
            Some(self.variables.get_value(var) == Assignment::positive())
        }
    }

    /// Appends one line per variable from 1 on: `V`, the variable, `=`, and its
    /// value as `1` or `0`.
    pub fn write_assignments(&self, out: &mut Vec<u8>)
        requires
            self.wf(),
        ensures
            final(out)@ == old(out)@ + self.assignments_text(self.nvars() as int),
    {
        let n = self.values_len();
        let mut var: usize = 1;
        if n == 0 {
            return;
        }
        while var < n
            invariant
                self.wf(),
                n == self.nvars(),
                1 <= var <= n,
                out@ == old(out)@ + self.assignments_text(var as int),
            decreases n - var,
        {
            let ghost before = out@;
            let value = self.value_of(var);
            push_assignment_line(out, var, value);
            proof {
                assert(self.assignments_text(var + 1) == self.assignments_text(var as int) + assignment_line(var as nat, self.value_spec(var as int)));
                assert(out@ =~= old(out)@ + self.assignments_text(var + 1));
            }
            var = var + 1;
        }
    }

    /// Solves the clauses and appends the report: `SAT` and the assignment lines,
    /// `UNSAT`, or `UNKNOWN` when the clause store was full, each answer on
    /// a line of its own. Returns the answer.
    #[verifier::rlimit(30)]
    pub fn solve_and_write(&mut self, out: &mut Vec<u8>) -> (r: SolveResult)
        requires
            old(self).wf(),
            old(self).trail_loose(),
            old(self).formula_covered_loose(),
        ensures
            final(self).wf(),
            final(self).trail_ok(),
            final(self).trail_loose(),
            final(self).formula_covered_loose(),
            final(self).nvars() == old(self).nvars(),
            r == SolveResult::Sat ==> forall|v: int| 1 <= v < final(self).nvars() ==> is_assigned(#[trigger] final(self).values()[v]),
            r == SolveResult::Unsat ==> final(self).trail_lim_seq().len() == 0,
            r == SolveResult::Unsat ==> forall|m: spec_fn(nat) -> bool| !models(m, old(self).formula()),
            r == SolveResult::Sat ==> models(final(self).model(), old(self).formula()),
            r == SolveResult::Sat ==> forall|id: int| 0 <= id < final(self).clause_seqs().len() ==> clause_holds(final(self).model(), #[trigger] final(self).clause_seqs()[id]),
            final(self).formula_covered(),
            entails(old(self).formula(), final(self).formula()),
            r == SolveResult::Unknown ==> final(self).clause_seqs().len() + 1 >= NULL_CLAUSE && final(self).trail_lim_seq().len() > 0,
            r == SolveResult::Unknown ==> NULL_CLAUSE <= old(self).clause_seqs().len() + 1 + search_bound(old(self).nvars()),
            vars_below(old(self).formula(), old(self).nvars()) ==> vars_below(final(self).formula(), final(self).nvars()),
            r == SolveResult::Sat && vars_below(old(self).formula(), old(self).nvars()) ==> forall|i: int| 0 <= i < old(self).formula().len()
                ==> #[trigger] final(self).value_of_satisfies(old(self).formula()[i]),
            final(out)@ == old(out)@ + match r {
                SolveResult::Sat => sat_text() + final(self).assignments_text(final(self).nvars() as int),
                SolveResult::Unsat => unsat_text(),
                SolveResult::Unknown => unknown_text(),
            },
    {
        let r = self.solve();
        match r {
            SolveResult::Unsat => {
                push_all(out, &[85u8, 78u8, 83u8, 65u8, 84u8, 10u8]);
            },
            SolveResult::Sat => {
                push_all(out, &[83u8, 65u8, 84u8, 10u8]);
                let ghost mid = out@;
                self.write_assignments(out);
                proof {
                    assert(out@ =~= old(out)@ + (sat_text() + self.assignments_text(self.nvars() as int)));
                }
            },
            SolveResult::Unknown => {
                push_all(out, &[85u8, 78u8, 75u8, 78u8, 79u8, 87u8, 78u8, 10u8]);
            },
        }
        r
    }
}

impl Default for Solver {
    /// A solver with no clause and no variable.
    fn default() -> (s: Solver)
        ensures
            s.wf(),
            s.trail_ok(),
            s.nvars() == 0,
            s.clause_seqs() == Seq::<Seq<Lit>>::empty(),
            s.trail_seq() == Seq::<Lit>::empty(),
            s.trail_lim_seq() == Seq::<usize>::empty(),
            s.formula() == Seq::<Seq<Lit>>::empty(),
            s.formula_covered(),
            s.trail_loose(),
            s.formula_covered_loose(),
    {
        Solver::new()
    }
}

/// Some trail position at or after `from` holds a literal of variable `v`.
pub open spec fn on_trail_from(t: Seq<Lit>, v: int, from: int) -> bool {
    exists|q: int| from <= q < t.len() && #[trigger] t[q].var_spec() == v
}

/// Dropping the entries from `k` on does not change the count at positions
/// below entry `k` of an increasing sequence.
proof fn lemma_count_le_prefix(d: Seq<usize>, k: int)
    requires
        0 <= k < d.len(),
        forall|i: int, j: int| 0 <= i < j < d.len() ==> #[trigger] d[i] < #[trigger] d[j],
    ensures
        forall|e: Seq<usize>, p: int| #![trigger count_le(e, p)] e == d && p < d[k] ==> count_le(e.subrange(0, k), p) == count_le(e, p),
    decreases d.len(),
{
    assert forall|e: Seq<usize>, p: int| #![trigger count_le(e, p)] e == d && p < d[k] implies count_le(e.subrange(0, k), p) == count_le(e, p) by {
        lemma_count_le_prefix_at(d, k, p);
    }
}

proof fn lemma_count_le_prefix_at(d: Seq<usize>, k: int, p: int)
    requires
        0 <= k <= d.len(),
        forall|j: int| k <= j < d.len() ==> #[trigger] d[j] > p,
    ensures
        count_le(d.subrange(0, k), p) == count_le(d, p),
    decreases d.len(),
{
    if d.len() > k {
        let e = d.drop_last();
        assert forall|j: int| k <= j < e.len() implies #[trigger] e[j] > p by {
            assert(e[j] == d[j]);
        }
        lemma_count_le_prefix_at(e, k, p);
        assert(e.subrange(0, k) =~= d.subrange(0, k));
    } else {
        assert(d.subrange(0, k) =~= d);
    }
}

/// Pushing an entry above `p` does not change the count at `p`; pushing the
/// position just after every entry adds one at that position.
/// A variable count bounds the number of unassigned variables.
proof fn lemma_num_unassigned_le(vals: Seq<Assignment>)
    ensures
        num_unassigned(vals) <= vals.len(),
    decreases vals.len(),
{
    if vals.len() > 0 {
        lemma_num_unassigned_le(vals.drop_last());
    }
}

/// Entry `k` of a strictly increasing sequence is at least `k` above the first.
proof fn lemma_lim_spread(d: Seq<usize>, k: int)
    requires
        forall|i: int, j: int| 0 <= i < j < d.len() ==> #[trigger] d[i] < #[trigger] d[j],
        0 <= k < d.len(),
    ensures
        d[k] >= d[0] + k,
    decreases k,
{
    if k > 0 {
        lemma_lim_spread(d, k - 1);
        assert(d[k - 1] < d[k]);
    }
}

/// Levels counted by a strictly increasing sequence of level starts, all from
/// `s` on and below `n`: there are at most `n - s` of them, and no position has
/// a level above their number.
proof fn lemma_levels_bounded(d: Seq<usize>, s: int, n: int)
    requires
        forall|i: int, j: int| 0 <= i < j < d.len() ==> #[trigger] d[i] < #[trigger] d[j],
        forall|j: int| 0 <= j < d.len() ==> #[trigger] d[j] < n,
        d.len() > 0 ==> d[0] >= s,
        s <= n,
    ensures
        d.len() <= n - s,
        forall|p: int| #[trigger] count_le(d, p) <= d.len(),
{
    if d.len() > 0 {
        lemma_lim_spread(d, d.len() - 1);
    }
    assert forall|p: int| #[trigger] count_le(d, p) <= d.len() by {
        lemma_count_le_full(d, p);
    }
}

/// A decision, a new level started at position `n`, raises the measure.
proof fn lemma_progress_decide(d: Seq<usize>, s: int, n: int, nv: nat)
    requires
        forall|j: int| 0 <= j < d.len() ==> #[trigger] d[j] <= n,
        0 <= s <= n <= usize::MAX,
    ensures
        progress(d.push(n as usize), s, n + 1, nv) >= progress(d, s, n, nv) + 1,
{
    lemma_count_le_push_above(d, n);
    lemma_progress_same(d.push(n as usize), d, s, n, nv);
    lemma_weight_pos(nv, count_le(d.push(n as usize), n) as int);
}

/// Going back to level `lvl` and setting one literal there raises the measure.
proof fn lemma_progress_learn(d: Seq<usize>, s: int, n: int, nv: nat, lvl: int)
    requires
        forall|i: int, j: int| 0 <= i < j < d.len() ==> #[trigger] d[i] < #[trigger] d[j],
        forall|j: int| 0 <= j < d.len() ==> #[trigger] d[j] < n,
        0 <= lvl < d.len(),
        s <= d[0],
        n - s <= nv,
    ensures
        progress(d.subrange(0, lvl), s, d[lvl] + 1, nv) > progress(d, s, n, nv),
{
    let m = d[lvl] as int;
    let e = d.subrange(0, lvl);
    lemma_levels_bounded(d, s, n);
    if lvl > 0 {
        lemma_lim_spread(d, lvl);
    }
    lemma_progress_split(d, s, m, n, nv);
    assert forall|p: int| s <= p < m implies #[trigger] count_le(e, p) == count_le(d, p) by {
        assert forall|j: int| lvl <= j < d.len() implies #[trigger] d[j] > p by {
            if j > lvl {
                assert(d[lvl] < d[j]);
            }
        }
        lemma_count_le_prefix_at(d, lvl, p);
    }
    lemma_progress_same(e, d, s, m, nv);
    assert forall|j: int| 0 <= j < e.len() implies #[trigger] e[j] <= m by {
        assert(d[j] < d[lvl]);
    }
    lemma_count_le_all(e, m);
    assert forall|p: int| m <= p < n implies lvl + 1 <= #[trigger] count_le(d, p) <= nv by {
        lemma_count_le_at_least(d, p, lvl);
    }
    lemma_progress_tail(d, m, n, nv, lvl);
}

proof fn lemma_count_le_push_above(d: Seq<usize>, len: int)
    requires
        forall|j: int| 0 <= j < d.len() ==> #[trigger] d[j] <= len,
        0 <= len <= usize::MAX,
    ensures
        forall|p: int| #![trigger count_le(d.push(len as usize), p)] p < len ==> count_le(d.push(len as usize), p) == count_le(d, p),
        count_le(d.push(len as usize), len) == d.len() + 1,
{
    assert forall|p: int| #![trigger count_le(d.push(len as usize), p)] p < len implies count_le(d.push(len as usize), p) == count_le(d, p) by {
        assert(d.push(len as usize).drop_last() =~= d);
    }
    assert(d.push(len as usize).drop_last() =~= d);
    lemma_count_le_all(d, len);
}

/// A strictly increasing sequence spreads at least one step per entry.
proof fn lemma_increasing_spread(d: Seq<usize>)
    requires
        forall|i: int, j: int| 0 <= i < j < d.len() ==> #[trigger] d[i] < #[trigger] d[j],
    ensures
        forall|j: int| 0 <= j < d.len() ==> #[trigger] d[j] >= d[0] + j,
    decreases d.len(),
{
    if d.len() > 1 {
        lemma_increasing_spread(d.drop_last());
        assert forall|j: int| 0 <= j < d.len() implies #[trigger] d[j] >= d[0] + j by {
            if j == d.len() - 1 {
                assert(d.drop_last()[j - 1] >= d[0] + j - 1);
                assert(d[j - 1] < d[j]);
            } else {
                assert(d.drop_last()[j] == d[j]);
            }
        }
    }
}


/// `s` and `t` hold the same literals.
pub open spec fn same_lits(s: Seq<Lit>, t: Seq<Lit>) -> bool {
    forall|x: Lit| s.contains(x) <==> t.contains(x)
}

/// `a` is a prefix of `b`.
pub open spec fn watch_prefix(a: Seq<Watcher>, b: Seq<Watcher>) -> bool {
    a.len() <= b.len() && b.subrange(0, a.len() as int) == a
}

/// Some literal of `c` is true under `vals`.
pub open spec fn has_true_lit(vals: Seq<Assignment>, c: Seq<Lit>) -> bool {
    exists|k: int| 0 <= k < c.len() && #[trigger] lit_true(vals, c[k])
}

/// The watch list `wl` holds a watch of clause `id` at an index from `lo` to
/// below `hi`.
pub open spec fn watched_in(wl: Seq<Watcher>, id: int, lo: int, hi: int) -> bool {
    exists|k: int| lo <= k < hi && k < wl.len() && (#[trigger] wl[k]).clause == id
}

/// When the variable of `c[i]` stands on the trail `t` below position `q`, some
/// literal of `c` is true under `vals` with a level (by `levels`) no higher than
/// that variable's.
pub open spec fn settled_ok(vals: Seq<Assignment>, levels: Seq<u32>, t: Seq<Lit>, c: Seq<Lit>, i: int, q: int) -> bool {
    on_trail_below(t, c[i].var_spec() as int, q) ==> exists|j: int|
        0 <= j < c.len() && #[trigger] lit_true(vals, c[j]) && levels[c[j].var_spec() as int] <= levels[c[i].var_spec() as int]
}

/// `l` is false, its variable assigned at level 0 (by `levels`).
pub open spec fn fixed_false(vals: Seq<Assignment>, levels: Seq<u32>, l: Lit) -> bool {
    lit_false(vals, l) && levels[l.var_spec() as int] == 0
}

/// No literal of `c` is on variable 0, or variable 0 is assigned at level 0, or
/// some literal of `c` is true from level 0.
pub open spec fn var0_ok(vals: Seq<Assignment>, levels: Seq<u32>, c: Seq<Lit>) -> bool {
    ||| (forall|k: int| 0 <= k < c.len() ==> #[trigger] c[k].var_spec() != 0)
    ||| (is_assigned(vals[0]) && levels[0] == 0)
    ||| exists|j: int| 0 <= j < c.len() && #[trigger] lit_true(vals, c[j]) && levels[c[j].var_spec() as int] == 0
}

/// The watch state of a clause, from facts on its first two literals: both are
/// watched (`w0`, `w1`) and settled (`s0`, `s1`, see `settled_ok`); or one is
/// watched and settled while the other is false from level 0 (`z0`, `z1`) and
/// variable 0 is out of the way (`v`, see `var0_ok`).
pub open spec fn pair_ok(w0: bool, w1: bool, s0: bool, s1: bool, z0: bool, z1: bool, v: bool) -> bool {
    ||| (w0 && w1 && s0 && s1)
    ||| (w0 && s0 && z1 && v)
    ||| (w1 && s1 && z0 && v)
}

/// A position `p` below `d[level]` of a strictly increasing `d` counts at most
/// `level` entries.
proof fn lemma_count_le_below(d: Seq<usize>, level: int, p: int)
    requires
        forall|i: int, j: int| 0 <= i < j < d.len() ==> #[trigger] d[i] < #[trigger] d[j],
        0 <= level < d.len(),
        p < d[level],
    ensures
        count_le(d, p) <= level,
{
    assert forall|j: int| level <= j < d.len() implies #[trigger] d[j] > p by {
        if j > level {
            assert(d[level] < d[j]);
        }
    }
    lemma_count_le_prefix_at(d, level, p);
    let e = d.subrange(0, level);
    assert forall|i: int, j: int| 0 <= i < j < e.len() implies #[trigger] e[i] < #[trigger] e[j] by {
        assert(e[i] == d[i] && e[j] == d[j]);
    }
    lemma_count_le_full(e, p);
}

impl Solver {
    /// Every trail literal is true.
    pub closed spec fn all_true(self) -> bool {
        forall|p: int| 0 <= p < self.trail@.len() ==> lit_true(self.variables.values_seq(), #[trigger] self.trail@[p])
    }

    /// Clause `id` has a watch in the list of `l`; in the list of `f` the watches
    /// counted are those below index `w` and those from index `i` on.
    pub closed spec fn watched_live(self, l: Lit, id: int, f: Lit, w: int, i: int) -> bool {
        let wl = self.watchers.watch_list(l);
        if l == f {
            watched_in(wl, id, 0, w) || watched_in(wl, id, i, wl.len() as int)
        } else {
            watched_in(wl, id, 0, wl.len() as int)
        }
    }

    /// Clause `id` is in the watch state that `pair_ok` describes, up to trail
    /// position `q`, with the watches counted as `watched_live` counts them.
    pub closed spec fn clause_watch_live(self, id: int, q: int, f: Lit, w: int, i: int) -> bool {
        let c = self.clauses.clauses()[id];
        let vals = self.variables.values_seq();
        let lv = self.variables.level_seq();
        pair_ok(
            self.watched_live(c[0], id, f, w, i),
            self.watched_live(c[1], id, f, w, i),
            settled_ok(vals, lv, self.trail@, c, 0, q),
            settled_ok(vals, lv, self.trail@, c, 1, q),
            fixed_false(vals, lv, c[0]),
            fixed_false(vals, lv, c[1]),
            var0_ok(vals, lv, c),
        )
    }

    /// Clause `id` is in the watch state that `pair_ok` describes, up to trail
    /// position `q`: both first literals watched and settled, or one of them
    /// watched and settled while the other is false from level 0.
    pub closed spec fn clause_watch_ok(self, id: int, q: int) -> bool {
        let c = self.clauses.clauses()[id];
        let vals = self.variables.values_seq();
        let lv = self.variables.level_seq();
        let w0 = self.watchers.watch_list(c[0]);
        let w1 = self.watchers.watch_list(c[1]);
        pair_ok(
            watched_in(w0, id, 0, w0.len() as int),
            watched_in(w1, id, 0, w1.len() as int),
            settled_ok(vals, lv, self.trail@, c, 0, q),
            settled_ok(vals, lv, self.trail@, c, 1, q),
            fixed_false(vals, lv, c[0]),
            fixed_false(vals, lv, c[1]),
            var0_ok(vals, lv, c),
        )
    }

    /// The first `base.len()` stored clauses hold the literals of `base`, and each
    /// is soundly watched up to trail position `q` (see `clause_watch_ok`).
    pub closed spec fn watches_sound(self, q: int, base: Seq<Seq<Lit>>) -> bool {
        &&& base.len() <= self.clauses.num_clauses()
        &&& forall|id: int| 0 <= id < base.len() ==> same_lits(#[trigger] base[id], self.clauses.clauses()[id])
        &&& forall|id: int| 0 <= id < base.len() ==> #[trigger] self.clause_watch_ok(id, q)
    }

    /// Every watch of `self` stays at its index in `post`.
    pub closed spec fn watches_grow(self, post: Solver) -> bool {
        forall|l: Lit| #[trigger] watch_prefix(self.watchers.watch_list(l), post.watchers.watch_list(l))
    }

    /// An assigned variable's level is that of each of its trail positions.
    proof fn lemma_assigned_level(self, v: int) -> (p: int)
        requires
            self.wf_core(),
            self.trail_core(),
            0 <= v < self.nvars(),
            is_assigned(self.values()[v]),
        ensures
            0 <= p < self.trail@.len(),
            self.trail@[p].var_spec() == v,
            self.variables.level_seq()[v] == count_le(self.trail_lim@, p),
    {
        assert(on_trail_below(self.trail@, v, self.trail@.len() as int));
        let p = choose|p: int| 0 <= p < self.trail@.len() && p < self.trail@.len() && #[trigger] self.trail@[p].var_spec() == v;
        p
    }

    /// Assigned variables keep their levels when the trail of `self` is a prefix
    /// of that of `post` with the same levels of its positions.
    proof fn lemma_levels_kept(self, post: Solver)
        requires
            self.wf_core(),
            self.trail_core(),
            post.wf_core(),
            post.trail_core(),
            post.trail@.len() >= self.trail@.len(),
            post.trail@.subrange(0, self.trail@.len() as int) == self.trail@,
            forall|p: int| 0 <= p < self.trail@.len() ==> #[trigger] count_le(post.trail_lim@, p) == count_le(self.trail_lim@, p),
        ensures
            forall|v: int| 0 <= v < self.nvars() && is_assigned(#[trigger] self.values()[v]) ==> post.variables.level_seq()[v] == self.variables.level_seq()[v],
    {
        let t = self.trail@;
        assert forall|v: int| 0 <= v < self.nvars() && is_assigned(#[trigger] self.values()[v]) implies post.variables.level_seq()[v] == self.variables.level_seq()[v] by {
            let p = self.lemma_assigned_level(v);
            assert(post.trail@[p] == post.trail@.subrange(0, t.len() as int)[p]);
            assert(post.trail@[p] == t[p]);
            assert(post.variables.level_seq()[post.trail@[p].var_spec() as int] == count_le(post.trail_lim@, p));
        }
    }

    /// Literals false from level 0 stay so, and `var0_ok` carries over to `c2`
    /// (which holds the same literals as `c`), when the trail of `self` is a prefix of
    /// that of `post` with the same levels and assigned variables keep their values.
    #[verifier::rlimit(20)]
    proof fn lemma_fixed_move(self, post: Solver, c: Seq<Lit>, c2: Seq<Lit>)
        requires
            self.wf_core(),
            self.trail_core(),
            post.wf_core(),
            post.trail_core(),
            c.len() > 0,
            forall|k: int| 0 <= k < c.len() ==> #[trigger] c[k].var_spec() < self.nvars(),
            forall|x: Lit| c2.contains(x) ==> c.contains(x),
            forall|x: Lit| c.contains(x) ==> c2.contains(x),
            post.trail@.len() >= self.trail@.len(),
            post.trail@.subrange(0, self.trail@.len() as int) == self.trail@,
            forall|p: int| 0 <= p < self.trail@.len() ==> #[trigger] count_le(post.trail_lim@, p) == count_le(self.trail_lim@, p),
            post.nvars() >= self.nvars(),
            forall|v: int| 0 <= v < self.nvars() && is_assigned(#[trigger] self.values()[v]) ==> post.values()[v] == self.values()[v],
        ensures
            forall|l: Lit| l.var_spec() < self.nvars() && #[trigger] fixed_false(self.values(), self.variables.level_seq(), l)
                ==> fixed_false(post.values(), post.variables.level_seq(), l),
            var0_ok(self.values(), self.variables.level_seq(), c) ==> var0_ok(post.values(), post.variables.level_seq(), c2),
    {
        self.lemma_levels_kept(post);
        assert forall|l: Lit| l.var_spec() < self.nvars() && #[trigger] fixed_false(self.values(), self.variables.level_seq(), l)
            implies fixed_false(post.values(), post.variables.level_seq(), l) by {
            assert(is_assigned(self.values()[l.var_spec() as int]));
        }
        if var0_ok(self.values(), self.variables.level_seq(), c) {
            if forall|k: int| 0 <= k < c.len() ==> #[trigger] c[k].var_spec() != 0 {
                assert forall|k: int| 0 <= k < c2.len() implies #[trigger] c2[k].var_spec() != 0 by {
                    assert(c2.contains(c2[k]));
                    let j = choose|j: int| 0 <= j < c.len() && c[j] == c2[k];
                    assert(c[j].var_spec() != 0);
                }
            } else if is_assigned(self.values()[0]) && self.variables.level_seq()[0] == 0 {
                assert(c[0].var_spec() < self.nvars());
                assert(0 < self.nvars());
            } else {
                let j = choose|j: int| 0 <= j < c.len() && #[trigger] lit_true(self.values(), c[j])
                    && self.variables.level_seq()[c[j].var_spec() as int] == 0;
                assert(c.contains(c[j]));
                let j2 = choose|j2: int| 0 <= j2 < c2.len() && c2[j2] == c[j];
                assert(is_assigned(self.values()[c[j].var_spec() as int]));
                assert(lit_true(post.values(), c2[j2]));
            }
        }
    }

    /// A watch, a settled literal, a literal false from level 0 and `var0_ok` of
    /// clause `c` (stored under `id`) carry over from `self` to `post` for position
    /// `p`, under the conditions of `lemma_sound_frame`.
    #[verifier::rlimit(20)]
    proof fn lemma_pos_frame(self, post: Solver, id: int, c: Seq<Lit>, p: int, q: int)
        requires
            self.wf_core(),
            self.trail_core(),
            post.wf_core(),
            post.trail_core(),
            0 <= id < self.clauses.num_clauses(),
            c == self.clauses.clauses()[id],
            0 <= p < 2,
            0 <= q <= self.trail@.len(),
            self.watches_grow(post),
            post.trail@.len() >= self.trail@.len(),
            post.trail@.subrange(0, self.trail@.len() as int) == self.trail@,
            forall|k: int| 0 <= k < self.trail@.len() ==> #[trigger] count_le(post.trail_lim@, k) == count_le(self.trail_lim@, k),
            post.nvars() >= self.nvars(),
            forall|v: int| 0 <= v < self.nvars() && is_assigned(#[trigger] self.values()[v]) ==> post.values()[v] == self.values()[v],
        ensures
            watched_in(self.watchers.watch_list(c[p]), id, 0, self.watchers.watch_list(c[p]).len() as int)
                ==> watched_in(post.watchers.watch_list(c[p]), id, 0, post.watchers.watch_list(c[p]).len() as int),
            settled_ok(self.values(), self.variables.level_seq(), self.trail@, c, p, q)
                ==> settled_ok(post.values(), post.variables.level_seq(), post.trail@, c, p, q),
            fixed_false(self.values(), self.variables.level_seq(), c[p]) ==> fixed_false(post.values(), post.variables.level_seq(), c[p]),
            var0_ok(self.values(), self.variables.level_seq(), c) ==> var0_ok(post.values(), post.variables.level_seq(), c),
    {
        assert(c.len() >= 2);
        let wl = self.watchers.watch_list(c[p]);
        if watched_in(wl, id, 0, wl.len() as int) {
            let k = choose|k: int| 0 <= k < wl.len() && k < wl.len() && (#[trigger] wl[k]).clause == id;
            assert(watch_prefix(wl, post.watchers.watch_list(c[p])));
            assert(post.watchers.watch_list(c[p]).subrange(0, wl.len() as int)[k] == post.watchers.watch_list(c[p])[k]);
        }
        if settled_ok(self.values(), self.variables.level_seq(), self.trail@, c, p, q) {
            self.lemma_settled_move(post, c, p, q, c, p, q);
        }
        self.lemma_fixed_move(post, c, c);
        assert(c[p].var_spec() < self.nvars());
    }

    /// A change that keeps the first `base.len()` clauses in place, loses no
    /// watch, only grows the trail, keeps the level of each trail position and the
    /// value of each assigned variable keeps the watch invariant.
    #[verifier::rlimit(20)]
    proof fn lemma_sound_frame(self, post: Solver, q: int, base: Seq<Seq<Lit>>)
        requires
            self.wf_core(),
            self.trail_core(),
            post.wf_core(),
            post.trail_core(),
            self.watches_sound(q, base),
            0 <= q <= self.trail@.len(),
            base.len() <= post.clauses.num_clauses(),
            forall|id: int| 0 <= id < base.len() ==> #[trigger] post.clauses.clauses()[id] == self.clauses.clauses()[id],
            self.watches_grow(post),
            post.trail@.len() >= self.trail@.len(),
            post.trail@.subrange(0, self.trail@.len() as int) == self.trail@,
            forall|p: int| 0 <= p < self.trail@.len() ==> #[trigger] count_le(post.trail_lim@, p) == count_le(self.trail_lim@, p),
            post.nvars() >= self.nvars(),
            forall|v: int| 0 <= v < self.nvars() && is_assigned(#[trigger] self.values()[v]) ==> post.values()[v] == self.values()[v],
        ensures
            post.watches_sound(q, base),
    {
        assert forall|id: int| 0 <= id < base.len() implies #[trigger] post.clause_watch_ok(id, q) by {
            assert(self.clause_watch_ok(id, q));
            let c = self.clauses.clauses()[id];
            assert(post.clauses.clauses()[id] == c);
            self.lemma_pos_frame(post, id, c, 0, q);
            self.lemma_pos_frame(post, id, c, 1, q);
        }
        assert forall|id: int| 0 <= id < base.len() implies same_lits(#[trigger] base[id], post.clauses.clauses()[id]) by {
            assert(same_lits(base[id], self.clauses.clauses()[id]));
        }
    }

    /// Going back to decision level `level`, from a state soundly watched up to a
    /// trail position at or after the one where that level's decision was made,
    /// leaves the clauses soundly watched up to that position.
    #[verifier::rlimit(20)]
    proof fn lemma_sound_backjump(self, post: Solver, level: int, q: int, base: Seq<Seq<Lit>>)
        requires
            self.wf(),
            self.trail_ok(),
            0 <= level < self.trail_lim@.len(),
            self.trail_lim@[level] <= q <= self.trail@.len(),
            self.watches_sound(q, base),
            post.trail_seq() == self.trail_seq().subrange(0, self.trail_lim_seq()[level] as int),
            post.nvars() == self.nvars(),
            forall|v: int| 0 <= v < self.nvars() ==> #[trigger] post.values()[v] == if on_trail_from(self.trail_seq(), v, self.trail_lim_seq()[level] as int) {
                Assignment(3)
            } else {
                self.values()[v]
            },
            post.levels() == self.levels(),
            post.clauses == self.clauses,
            post.watchers == self.watchers,
        ensures
            post.watches_sound(self.trail_lim@[level] as int, base),
    {
        let t = self.trail@;
        let d = self.trail_lim@;
        let top = d[level] as int;
        assert forall|x: int| 0 <= x < self.nvars() && is_assigned(self.values()[x]) && self.variables.level_seq()[x] <= level
            implies #[trigger] post.values()[x] == self.values()[x] by {
            if on_trail_from(t, x, top) {
                let p3 = choose|p3: int| top <= p3 < t.len() && #[trigger] t[p3].var_spec() == x;
                lemma_count_le_at_least(d, p3, level);
                assert(self.variables.level_seq()[t[p3].var_spec() as int] == count_le(d, p3));
            }
        }
        assert forall|id: int| 0 <= id < base.len() implies #[trigger] post.clause_watch_ok(id, top) by {
            assert(self.clause_watch_ok(id, q));
            let c = self.clauses.clauses()[id];
            assert(c.len() >= 2);
            assert forall|i: int| 0 <= i < 2 && #[trigger] fixed_false(self.values(), self.variables.level_seq(), c[i])
                implies fixed_false(post.values(), post.variables.level_seq(), c[i]) by {
                assert(c[i].var_spec() < self.nvars());
            }
            if var0_ok(self.values(), self.variables.level_seq(), c) && !(forall|k: int| 0 <= k < c.len() ==> #[trigger] c[k].var_spec() != 0) {
                if is_assigned(self.values()[0]) && self.variables.level_seq()[0] == 0 {
                    assert(c[0].var_spec() < self.nvars());
                    assert(post.values()[0] == self.values()[0]);
                } else {
                    let j = choose|j: int| 0 <= j < c.len() && #[trigger] lit_true(self.values(), c[j])
                        && self.variables.level_seq()[c[j].var_spec() as int] == 0;
                    assert(c[j].var_spec() < self.nvars());
                    assert(post.values()[c[j].var_spec() as int] == self.values()[c[j].var_spec() as int]);
                    assert(lit_true(post.values(), c[j]));
                }
                assert(var0_ok(post.values(), post.variables.level_seq(), c));
            }
            assert forall|i: int| 0 <= i < 2 && settled_ok(self.values(), self.variables.level_seq(), self.trail@, c, i, q)
                implies #[trigger] settled_ok(post.values(), post.variables.level_seq(), post.trail@, c, i, top) by {
                let v = c[i].var_spec() as int;
                if on_trail_below(post.trail@, v, top) {
                    let pv = choose|pv: int| 0 <= pv < top && pv < post.trail@.len() && #[trigger] post.trail@[pv].var_spec() == v;
                    assert(post.trail@[pv] == t[pv]);
                    assert(on_trail_below(t, v, q));
                    let j = choose|j: int| 0 <= j < c.len() && #[trigger] lit_true(self.values(), c[j])
                        && self.variables.level_seq()[c[j].var_spec() as int] <= self.variables.level_seq()[v];
                    let x = c[j].var_spec() as int;
                    assert(x < self.nvars());
                    assert(self.variables.level_seq()[t[pv].var_spec() as int] == count_le(d, pv));
                    lemma_count_le_below(d, level, pv);
                    assert(is_assigned(self.values()[x]));
                    assert(post.values()[x] == self.values()[x]);
                    assert(lit_true(post.values(), c[j]));
                }
            }
            assert(settled_ok(self.values(), self.variables.level_seq(), self.trail@, c, 0, q)
                ==> settled_ok(post.values(), post.variables.level_seq(), post.trail@, c, 0, top));
            assert(settled_ok(self.values(), self.variables.level_seq(), self.trail@, c, 1, q)
                ==> settled_ok(post.values(), post.variables.level_seq(), post.trail@, c, 1, top));
            assert(fixed_false(self.values(), self.variables.level_seq(), c[0]) ==> fixed_false(post.values(), post.variables.level_seq(), c[0]));
            assert(fixed_false(self.values(), self.variables.level_seq(), c[1]) ==> fixed_false(post.values(), post.variables.level_seq(), c[1]));
        }
    }

    /// With every variable from 1 on assigned and the clauses soundly watched up to
    /// the end of the trail, each clause of `base` holds a true literal.
    #[verifier::rlimit(20)]
    proof fn lemma_sound_sat(self, base: Seq<Seq<Lit>>)
        requires
            self.wf(),
            self.trail_ok(),
            self.watches_sound(self.trail@.len() as int, base),
            forall|v: int| 1 <= v < self.nvars() ==> is_assigned(#[trigger] self.values()[v]),
        ensures
            forall|id: int| 0 <= id < base.len() ==> has_true_lit(self.values(), #[trigger] base[id]),
    {
        assert forall|id: int| 0 <= id < base.len() implies has_true_lit(self.values(), #[trigger] base[id]) by {
            let q = self.trail@.len() as int;
            assert(self.clause_watch_ok(id, q));
            let c = self.clauses.clauses()[id];
            let vals = self.values();
            let lv = self.variables.level_seq();
            assert(c.len() >= 2);
            assert(same_lits(base[id], c));
            if exists|j: int| 0 <= j < c.len() && #[trigger] lit_true(vals, c[j]) && lv[c[j].var_spec() as int] == 0 {
                let j = choose|j: int| 0 <= j < c.len() && #[trigger] lit_true(vals, c[j]) && lv[c[j].var_spec() as int] == 0;
                assert(c.contains(c[j]));
                assert(base[id].contains(c[j]));
                let k = choose|k: int| 0 <= k < base[id].len() && base[id][k] == c[j];
                assert(lit_true(self.values(), base[id][k]));
            } else {
                assert(c[0].var_spec() != c[1].var_spec());
                let s0 = settled_ok(vals, lv, self.trail@, c, 0, q);
                let s1 = settled_ok(vals, lv, self.trail@, c, 1, q);
                // A settled position whose variable is assigned: one of variable 1 or
                // more, or variable 0 when `var0_ok` says it is assigned.
                let i: int = if s0 && s1 {
                    if c[0].var_spec() >= 1 { 0 } else { 1 }
                } else if s0 {
                    0
                } else {
                    1
                };
                assert(settled_ok(vals, lv, self.trail@, c, i, q));
                if c[i].var_spec() == 0 {
                    assert(!(s0 && s1));
                    assert(var0_ok(vals, lv, c));
                    assert(!(forall|k: int| 0 <= k < c.len() ==> #[trigger] c[k].var_spec() != 0)) by {
                        assert(c[i].var_spec() == 0);
                    }
                }
                let v = c[i].var_spec() as int;
                assert(v < self.nvars());
                assert(is_assigned(self.values()[v]));
                assert(on_trail_below(self.trail@, v, self.trail@.len() as int));
                assert(settled_ok(self.values(), self.variables.level_seq(), self.trail@, c, i, self.trail@.len() as int));
                let j = choose|j: int| 0 <= j < c.len() && #[trigger] lit_true(self.values(), c[j])
                    && self.variables.level_seq()[c[j].var_spec() as int] <= self.variables.level_seq()[v];
                assert(c.contains(c[j]));
                assert(same_lits(base[id], c));
                assert(base[id].contains(c[j]));
                let k = choose|k: int| 0 <= k < base[id].len() && base[id][k] == c[j];
                assert(lit_true(self.values(), base[id][k]));
            }
        }
    }

    /// During the propagation of the trail literal at position `q`, whose negation
    /// is `f`, with the watches of `f` visited below index `i` and kept below index
    /// `w`: clause `id` holds the literals of `b` and is soundly watched up to
    /// `q + 1`, or it watches `f`, is still to be visited, and is soundly watched
    /// up to `q`.
    pub closed spec fn live_ok(self, id: int, q: int, f: Lit, w: int, i: int, b: Seq<Lit>) -> bool {
        let c = self.clauses.clauses()[id];
        let wl = self.watchers.watch_list(f);
        &&& same_lits(b, c)
        &&& (self.clause_watch_live(id, q + 1, f, w, i) || (self.clause_watch_live(id, q, f, w, i) && (c[0] == f || c[1] == f)
            && watched_in(wl, id, i, wl.len() as int)))
    }

    /// `settled_ok` carries over from `self` to `post` for the literal `c[i]`,
    /// found again at `c2[i2]` with `c2` holding every literal of `c`, when the
    /// trail of `self` is a prefix of that of `post` with the same levels, assigned
    /// variables keep their values, and every position of `post`'s trail below
    /// `q2` with the variable of `c[i]` lies below `q`.
    #[verifier::rlimit(20)]
    proof fn lemma_settled_move(self, post: Solver, c: Seq<Lit>, i: int, q: int, c2: Seq<Lit>, i2: int, q2: int)
        requires
            self.wf_core(),
            self.trail_core(),
            post.wf_core(),
            post.trail_core(),
            settled_ok(self.values(), self.variables.level_seq(), self.trail@, c, i, q),
            0 <= i < c.len(),
            0 <= i2 < c2.len(),
            c2[i2] == c[i],
            forall|x: Lit| c.contains(x) ==> c2.contains(x),
            forall|k: int| 0 <= k < c.len() ==> #[trigger] c[k].var_spec() < self.nvars(),
            0 <= q <= self.trail@.len(),
            post.trail@.len() >= self.trail@.len(),
            post.trail@.subrange(0, self.trail@.len() as int) == self.trail@,
            forall|p: int| 0 <= p < self.trail@.len() ==> #[trigger] count_le(post.trail_lim@, p) == count_le(self.trail_lim@, p),
            post.nvars() >= self.nvars(),
            forall|v: int| 0 <= v < self.nvars() && is_assigned(#[trigger] self.values()[v]) ==> post.values()[v] == self.values()[v],
            forall|k: int| 0 <= k < q2 && k < post.trail@.len() && #[trigger] post.trail@[k].var_spec() == c[i].var_spec() ==> k < q,
        ensures
            settled_ok(post.values(), post.variables.level_seq(), post.trail@, c2, i2, q2),
    {
        let t = self.trail@;
        let v = c[i].var_spec() as int;
        if on_trail_below(post.trail@, v, q2) {
            let k = choose|k: int| 0 <= k < q2 && k < post.trail@.len() && #[trigger] post.trail@[k].var_spec() == v;
            assert(k < q);
            assert(post.trail@[k] == post.trail@.subrange(0, t.len() as int)[k]);
            assert(post.trail@[k] == t[k]);
            assert(on_trail_below(t, v, q));
            let j = choose|j: int| 0 <= j < c.len() && #[trigger] lit_true(self.values(), c[j])
                && self.variables.level_seq()[c[j].var_spec() as int] <= self.variables.level_seq()[v];
            let x = c[j].var_spec() as int;
            assert(x < self.nvars());
            assert(is_assigned(self.values()[x]));
            let px = self.lemma_assigned_level(x);
            assert(post.trail@[px] == post.trail@.subrange(0, t.len() as int)[px]);
            assert(post.trail@[px] == t[px]);
            assert(post.variables.level_seq()[post.trail@[px].var_spec() as int] == count_le(post.trail_lim@, px));
            assert(self.variables.level_seq()[t[k].var_spec() as int] == count_le(self.trail_lim@, k));
            assert(post.variables.level_seq()[post.trail@[k].var_spec() as int] == count_le(post.trail_lim@, k));
            assert(c.contains(c[j]));
            assert(c2.contains(c[j]));
            let j2 = choose|j2: int| 0 <= j2 < c2.len() && c2[j2] == c[j];
            assert(lit_true(post.values(), c2[j2]));
        }
    }

    /// At the start of the propagation of the trail literal `set_lit` at position
    /// `q`, every clause of `base` is in the state `live_ok` describes.
    #[verifier::rlimit(20)]
    proof fn lemma_live_init(self, q: int, base: Seq<Seq<Lit>>, set_lit: Lit)
        requires
            self.wf_core(),
            self.trail_core(),
            self.watches_sound(q, base),
            self.all_true(),
            0 <= q < self.trail@.len(),
            self.trail@[q] == set_lit,
        ensures
            forall|id: int| 0 <= id < base.len() ==> #[trigger] self.live_ok(id, q, set_lit.opposite(), 0, 0, base[id]),
    {
        let f = set_lit.opposite();
        lemma_neg_involution(set_lit);
        assert(self.trail@.subrange(0, self.trail@.len() as int) =~= self.trail@);
        assert forall|id: int| 0 <= id < base.len() implies #[trigger] self.live_ok(id, q, f, 0, 0, base[id]) by {
            assert(self.clause_watch_ok(id, q));
            assert(same_lits(base[id], self.clauses.clauses()[id]));
            let c = self.clauses.clauses()[id];
            let vals = self.values();
            let lv = self.variables.level_seq();
            let wl = self.watchers.watch_list(f);
            assert(c.len() >= 2);
            assert(c[0].var_spec() != c[1].var_spec());
            assert forall|p: int| 0 <= p < 2 implies #[trigger] self.watched_live(c[p], id, f, 0, 0)
                == watched_in(self.watchers.watch_list(c[p]), id, 0, self.watchers.watch_list(c[p]).len() as int) by {
            }
            // A settled literal whose variable is not that of `set_lit` stays
            // settled one position further; a literal of that variable other than
            // `f` is `set_lit`, which is true.
            assert forall|p: int| 0 <= p < 2 && c[p] != f && #[trigger] settled_ok(vals, lv, self.trail@, c, p, q)
                implies settled_ok(vals, lv, self.trail@, c, p, q + 1) by {
                if self.trail@[q].var_spec() == c[p].var_spec() {
                    lemma_lit_determined(c[p], set_lit);
                    lemma_lit_determined(c[p], f);
                    assert(c[p] == set_lit);
                    assert(lit_true(vals, c[p]));
                } else {
                    assert forall|k: int| 0 <= k < q + 1 && k < self.trail@.len() && #[trigger] self.trail@[k].var_spec() == c[p].var_spec() implies k < q by {
                    }
                    self.lemma_settled_move(self, c, p, q, c, p, q + 1);
                }
            }
            if (c[0] == f || c[1] == f) && watched_in(wl, id, 0, wl.len() as int) {
                assert(self.clause_watch_live(id, q, f, 0, 0));
            } else {
                assert(settled_ok(vals, lv, self.trail@, c, 0, q) && c[0] != f ==> settled_ok(vals, lv, self.trail@, c, 0, q + 1));
                assert(settled_ok(vals, lv, self.trail@, c, 1, q) && c[1] != f ==> settled_ok(vals, lv, self.trail@, c, 1, q + 1));
                assert(self.clause_watch_live(id, q + 1, f, 0, 0));
            }
        }
    }

    /// One visited watch of `f` (clause `id_i`, at index `i`) leaves every other
    /// clause of `base` in the state `live_ok` describes: `post` keeps that
    /// clause, every watch but the one rewritten at index `w` when the visited
    /// watch is `kept`, the trail as a prefix with its levels, and the value of
    /// every assigned variable.
    #[verifier::rlimit(20)]
    proof fn lemma_live_other(self, post: Solver, id: int, q: int, f: Lit, w: int, i: int, kept: bool, id_i: int, b: Seq<Lit>)
        requires
            self.wf_core(),
            self.trail_core(),
            post.wf_core(),
            post.trail_core(),
            self.live_ok(id, q, f, w, i, b),
            0 <= id < self.clauses.num_clauses(),
            id != id_i,
            post.clauses.clauses()[id] == self.clauses.clauses()[id],
            0 <= q < self.trail@.len(),
            0 <= w <= i < self.watchers.watch_list(f).len(),
            self.watchers.watch_list(f)[i].clause == id_i,
            post.watchers.watch_list(f).len() == self.watchers.watch_list(f).len(),
            forall|k: int| 0 <= k < self.watchers.watch_list(f).len() && (k != w || !kept) ==> #[trigger] post.watchers.watch_list(f)[k] == self.watchers.watch_list(f)[k],
            forall|l: Lit| l != f ==> #[trigger] watch_prefix(self.watchers.watch_list(l), post.watchers.watch_list(l)),
            post.trail@.len() >= self.trail@.len(),
            post.trail@.subrange(0, self.trail@.len() as int) == self.trail@,
            forall|p: int| 0 <= p < self.trail@.len() ==> #[trigger] count_le(post.trail_lim@, p) == count_le(self.trail_lim@, p),
            post.nvars() >= self.nvars(),
            forall|v: int| 0 <= v < self.nvars() && is_assigned(#[trigger] self.values()[v]) ==> post.values()[v] == self.values()[v],
        ensures
            post.live_ok(id, q, f, if kept { w + 1 } else { w }, i + 1, b),
    {
        let c = self.clauses.clauses()[id];
        let w2: int = if kept { w + 1 } else { w };
        let wl = self.watchers.watch_list(f);
        let pwl = post.watchers.watch_list(f);
        assert(c.len() >= 2);
        assert forall|p: int| 0 <= p < 2 && self.watched_live(c[p], id, f, w, i) implies #[trigger] post.watched_live(c[p], id, f, w2, i + 1) by {
            let l = c[p];
            if l == f {
                if watched_in(wl, id, 0, w) {
                    let k = choose|k: int| 0 <= k < w && k < wl.len() && (#[trigger] wl[k]).clause == id;
                    assert(pwl[k] == wl[k]);
                    assert(watched_in(pwl, id, 0, w2));
                } else {
                    let k = choose|k: int| i <= k < wl.len() && k < wl.len() && (#[trigger] wl[k]).clause == id;
                    assert(k != i);
                    assert(pwl[k] == wl[k]);
                    assert(watched_in(pwl, id, i + 1, pwl.len() as int));
                }
            } else {
                let ol = self.watchers.watch_list(l);
                let k = choose|k: int| 0 <= k < ol.len() && k < ol.len() && (#[trigger] ol[k]).clause == id;
                assert(watch_prefix(ol, post.watchers.watch_list(l)));
                assert(post.watchers.watch_list(l).subrange(0, ol.len() as int)[k] == post.watchers.watch_list(l)[k]);
                assert(post.watchers.watch_list(l)[k] == ol[k]);
            }
        }
        assert(self.watched_live(c[0], id, f, w, i) ==> post.watched_live(c[0], id, f, w2, i + 1));
        assert(self.watched_live(c[1], id, f, w, i) ==> post.watched_live(c[1], id, f, w2, i + 1));
        assert forall|p: int, qq: int| 0 <= p < 2 && (qq == q || qq == q + 1) && settled_ok(self.values(), self.variables.level_seq(), self.trail@, c, p, qq)
            implies #[trigger] settled_ok(post.values(), post.variables.level_seq(), post.trail@, c, p, qq) by {
            self.lemma_settled_move(post, c, p, qq, c, p, qq);
        }
        self.lemma_fixed_move(post, c, c);
        assert(c[0].var_spec() < self.nvars() && c[1].var_spec() < self.nvars());
        assert(fixed_false(self.values(), self.variables.level_seq(), c[0]) ==> fixed_false(post.values(), post.variables.level_seq(), c[0]));
        assert(fixed_false(self.values(), self.variables.level_seq(), c[1]) ==> fixed_false(post.values(), post.variables.level_seq(), c[1]));
        if self.clause_watch_live(id, q + 1, f, w, i) {
            assert(settled_ok(self.values(), self.variables.level_seq(), self.trail@, c, 0, q + 1) ==> settled_ok(post.values(), post.variables.level_seq(), post.trail@, c, 0, q + 1));
            assert(settled_ok(self.values(), self.variables.level_seq(), self.trail@, c, 1, q + 1) ==> settled_ok(post.values(), post.variables.level_seq(), post.trail@, c, 1, q + 1));
            assert(post.clause_watch_live(id, q + 1, f, w2, i + 1));
        } else {
            assert(settled_ok(self.values(), self.variables.level_seq(), self.trail@, c, 0, q) ==> settled_ok(post.values(), post.variables.level_seq(), post.trail@, c, 0, q));
            assert(settled_ok(self.values(), self.variables.level_seq(), self.trail@, c, 1, q) ==> settled_ok(post.values(), post.variables.level_seq(), post.trail@, c, 1, q));
            assert(post.clause_watch_live(id, q, f, w2, i + 1));
            let k = choose|k: int| i <= k < wl.len() && k < wl.len() && (#[trigger] wl[k]).clause == id;
            assert(k != i);
            assert(pwl[k] == wl[k]);
            assert(watched_in(pwl, id, i + 1, pwl.len() as int));
        }
    }

    /// After a visited watch of `f`, whose clause `id_i` now holds `c1` (true first
    /// literal `c1[0]`, watched, and `f` second), has been rewritten at index `w`,
    /// that clause is soundly watched up to `q + 1`.
    proof fn lemma_live_self_true(self, post: Solver, q: int, set_lit: Lit, w: int, i: int, id_i: int, c1: Seq<Lit>)
        requires
            post.wf(),
            post.trail_ok(),
            0 <= q < post.trail@.len(),
            post.trail@[q] == set_lit,
            post.trail_lim@.len() == 0 || post.trail_lim@[post.trail_lim@.len() - 1] <= q,
            0 <= id_i < post.clauses.num_clauses(),
            post.clauses.clauses()[id_i] == c1,
            c1[1] == set_lit.opposite(),
            c1[0] != set_lit.opposite(),
            lit_true(post.values(), c1[0]),
            watched_in(post.watchers.watch_list(c1[0]), id_i, 0, post.watchers.watch_list(c1[0]).len() as int),
            0 <= w < post.watchers.watch_list(set_lit.opposite()).len(),
            post.watchers.watch_list(set_lit.opposite())[w].clause == id_i,
        ensures
            post.clause_watch_live(id_i, q + 1, set_lit.opposite(), w + 1, i + 1),
    {
        let f = set_lit.opposite();
        let d = post.trail_lim@;
        lemma_neg_involution(set_lit);
        assert(watched_in(post.watchers.watch_list(f), id_i, 0, w + 1));
        assert(post.watched_live(c1[0], id_i, f, w + 1, i + 1));
        assert(post.watched_live(c1[1], id_i, f, w + 1, i + 1));
        assert(c1[0].var_spec() < post.nvars());
        let p = post.lemma_assigned_level(c1[0].var_spec() as int);
        lemma_count_le_full(d, p);
        lemma_count_le_full(d, q);
        assert(post.variables.level_seq()[post.trail@[q].var_spec() as int] == count_le(d, q));
        assert(settled_ok(post.values(), post.variables.level_seq(), post.trail@, c1, 0, q + 1));
        assert(settled_ok(post.values(), post.variables.level_seq(), post.trail@, c1, 1, q + 1));
    }

    /// After a visited watch of `f` moved clause `id_i`'s second watch from `f` to
    /// the literal `c1[pos]`, not false, the clause now holding `c2`, that clause is
    /// soundly watched up to `q + 1`.
    #[verifier::rlimit(20)]
    proof fn lemma_live_self_move(self, post: Solver, q: int, set_lit: Lit, w: int, i: int, id_i: int, c: Seq<Lit>, p0: int, c2: Seq<Lit>)
        requires
            self.wf(),
            self.trail_ok(),
            post.wf(),
            post.trail_ok(),
            0 <= q < self.trail@.len(),
            self.trail@[q] == set_lit,
            0 <= id_i < self.clauses.num_clauses(),
            c == self.clauses.clauses()[id_i],
            0 <= p0 < 2,
            settled_ok(self.values(), self.variables.level_seq(), self.trail@, c, p0, q),
            c[p0].var_spec() != set_lit.var_spec(),
            post.clauses.clauses()[id_i] == c2,
            c2[0] == c[p0],
            c2[1] != set_lit.opposite(),
            c2[0] != set_lit.opposite(),
            forall|x: Lit| c.contains(x) ==> c2.contains(x),
            lit_state(self.values(), c2[1]).has_pos(),
            c2[1].var_spec() < self.nvars(),
            watched_in(post.watchers.watch_list(c2[0]), id_i, 0, post.watchers.watch_list(c2[0]).len() as int),
            watched_in(post.watchers.watch_list(c2[1]), id_i, 0, post.watchers.watch_list(c2[1]).len() as int),
            post.values() == self.values(),
            post.trail@ == self.trail@,
            post.trail_lim@ == self.trail_lim@,
            post.nvars() == self.nvars(),
        ensures
            post.clause_watch_live(id_i, q + 1, set_lit.opposite(), w, i + 1),
    {
        let f = set_lit.opposite();
        let vals = self.values();
        let g = c2[1];
        assert(post.watched_live(c2[0], id_i, f, w, i + 1));
        assert(post.watched_live(c2[1], id_i, f, w, i + 1));
        if !lit_true(vals, g) {
            assert(vals[g.var_spec() as int].0 == 3);
            if on_trail_below(post.trail@, g.var_spec() as int, q + 1) {
                let k = choose|k: int| 0 <= k < q + 1 && k < post.trail@.len() && #[trigger] post.trail@[k].var_spec() == g.var_spec();
                assert(is_assigned(vals[self.trail@[k].var_spec() as int]));
            }
        }
        assert(settled_ok(post.values(), post.variables.level_seq(), post.trail@, c2, 1, q + 1));
        assert(self.trail@.subrange(0, self.trail@.len() as int) =~= self.trail@);
        assert forall|k: int| 0 <= k < q + 1 && k < post.trail@.len() && #[trigger] post.trail@[k].var_spec() == c[p0].var_spec() implies k < q by {
        }
        self.lemma_settled_move(post, c, p0, q, c2, 0, q + 1);
    }

    /// After a visited watch of `f` moved clause `id_i`'s second watch from `f` to
    /// the literal `c2[1]`, not false, while its first literal `c2[0]` is false
    /// from level 0, that clause is soundly watched up to `q + 1`.
    #[verifier::rlimit(20)]
    proof fn lemma_live_self_move_dead(self, post: Solver, q: int, set_lit: Lit, w: int, i: int, id_i: int, c: Seq<Lit>, c2: Seq<Lit>)
        requires
            self.wf(),
            self.trail_ok(),
            post.wf(),
            post.trail_ok(),
            0 <= q < self.trail@.len(),
            self.trail@[q] == set_lit,
            0 <= id_i < self.clauses.num_clauses(),
            c == self.clauses.clauses()[id_i],
            var0_ok(self.values(), self.variables.level_seq(), c),
            post.clauses.clauses()[id_i] == c2,
            c2.len() >= 2,
            fixed_false(self.values(), self.variables.level_seq(), c2[0]),
            c2[0].var_spec() < self.nvars(),
            c2[1] != set_lit.opposite(),
            c2[0] != set_lit.opposite(),
            forall|x: Lit| c2.contains(x) ==> c.contains(x),
            forall|x: Lit| c.contains(x) ==> c2.contains(x),
            lit_state(self.values(), c2[1]).has_pos(),
            c2[1].var_spec() < self.nvars(),
            watched_in(post.watchers.watch_list(c2[1]), id_i, 0, post.watchers.watch_list(c2[1]).len() as int),
            post.values() == self.values(),
            post.trail@ == self.trail@,
            post.trail_lim@ == self.trail_lim@,
            post.nvars() == self.nvars(),
        ensures
            post.clause_watch_live(id_i, q + 1, set_lit.opposite(), w, i + 1),
    {
        let f = set_lit.opposite();
        let vals = self.values();
        let g = c2[1];
        assert(post.watched_live(c2[1], id_i, f, w, i + 1));
        if !lit_true(vals, g) {
            assert(vals[g.var_spec() as int].0 == 3);
            if on_trail_below(post.trail@, g.var_spec() as int, q + 1) {
                let k = choose|k: int| 0 <= k < q + 1 && k < post.trail@.len() && #[trigger] post.trail@[k].var_spec() == g.var_spec();
                assert(is_assigned(vals[self.trail@[k].var_spec() as int]));
            }
        }
        assert(settled_ok(post.values(), post.variables.level_seq(), post.trail@, c2, 1, q + 1));
        assert(self.trail@.subrange(0, self.trail@.len() as int) =~= self.trail@);
        assert(c.len() >= 2);
        self.lemma_fixed_move(post, c, c2);
        assert(fixed_false(post.values(), post.variables.level_seq(), c2[0]));
        assert(var0_ok(post.values(), post.variables.level_seq(), c2));
    }

    /// After a visited watch of `f` made clause `id_i` (holding `c1`, `f` second)
    /// set its first literal, and the watch was rewritten at index `w`, that
    /// clause is soundly watched up to `q + 1`.
    proof fn lemma_live_self_assign(self, post: Solver, q: int, set_lit: Lit, w: int, i: int, id_i: int, c1: Seq<Lit>)
        requires
            self.wf(),
            self.trail_ok(),
            post.wf(),
            post.trail_ok(),
            0 <= q < self.trail@.len(),
            self.trail@[q] == set_lit,
            self.trail_lim@.len() == 0 || self.trail_lim@[self.trail_lim@.len() - 1] <= q,
            0 <= id_i < post.clauses.num_clauses(),
            post.clauses.clauses()[id_i] == c1,
            c1[1] == set_lit.opposite(),
            c1[0] != set_lit.opposite(),
            post.trail@ == self.trail@.push(c1[0]),
            post.trail_lim@ == self.trail_lim@,
            lit_true(post.values(), c1[0]),
            watched_in(post.watchers.watch_list(c1[0]), id_i, 0, post.watchers.watch_list(c1[0]).len() as int),
            0 <= w < post.watchers.watch_list(set_lit.opposite()).len(),
            post.watchers.watch_list(set_lit.opposite())[w].clause == id_i,
        ensures
            post.clause_watch_live(id_i, q + 1, set_lit.opposite(), w + 1, i + 1),
    {
        let f = set_lit.opposite();
        let d = post.trail_lim@;
        lemma_neg_involution(set_lit);
        assert(watched_in(post.watchers.watch_list(f), id_i, 0, w + 1));
        assert(post.watched_live(c1[0], id_i, f, w + 1, i + 1));
        assert(post.watched_live(c1[1], id_i, f, w + 1, i + 1));
        let n = self.trail@.len() as int;
        assert(post.trail@[n] == c1[0]);
        assert(post.variables.level_seq()[post.trail@[n].var_spec() as int] == count_le(d, n));
        assert(forall|j: int| 0 <= j < d.len() ==> #[trigger] d[j] <= n);
        lemma_count_le_full(d, n);
        lemma_count_le_full(d, q);
        assert(post.trail@[q] == set_lit);
        assert(post.variables.level_seq()[post.trail@[q].var_spec() as int] == count_le(d, q));
        assert(settled_ok(post.values(), post.variables.level_seq(), post.trail@, c1, 0, q + 1));
        assert(settled_ok(post.values(), post.variables.level_seq(), post.trail@, c1, 1, q + 1));
    }
    /// The visited clause, whose first literal other than `f` (`c[p0]`) is watched
    /// and settled, ends up soundly watched up to `q + 1` with both its first
    /// literals watched and settled; every trail literal stays true.
    #[verifier::rlimit(30)]
    proof fn lemma_live_self_watched(self, mid: Solver, post: Solver, q: int, set_lit: Lit, w: int, i: int, kept: bool, id_i: int, r: Option<()>, c: Seq<Lit>, c1: Seq<Lit>, p0: int)
        requires
            self.wf(),
            self.trail_ok(),
            mid.wf(),
            mid.trail_ok(),
            post.wf(),
            post.trail_ok(),
            self.all_true(),
            0 <= q < self.trail@.len(),
            self.trail@[q] == set_lit,
            self.trail_lim@.len() == 0 || self.trail_lim@[self.trail_lim@.len() - 1] <= q,
            0 <= id_i < self.clauses.num_clauses(),
            0 <= w <= i < self.watchers.watch_list(set_lit.opposite()).len(),
            r is Some,
            c == self.clause_seqs()[id_i],
            0 <= p0 < 2,
            c[1 - p0] == set_lit.opposite(),
            c1 == if p0 == 1 { swap_spec(c, 0, 1) } else { c },
            watched_outcome(self, mid, id_i, c1, r),
            self.same_frame(mid),
            kept == (mid.clause_seqs()[id_i][0] == set_lit.opposite() || mid.clause_seqs()[id_i][1] == set_lit.opposite()),
            post.clauses == mid.clauses,
            post.variables == mid.variables,
            post.trail == mid.trail,
            post.trail_lim == mid.trail_lim,
            kept ==> forall|l: Lit| #[trigger] post.watch_list_of(l) == if l == set_lit.opposite() {
                mid.watch_list_of(l).update(w, Watcher { clause: id_i as u32 })
            } else {
                mid.watch_list_of(l)
            },
            !kept ==> post.watchers == mid.watchers,
            watched_in(self.watch_list_of(c[p0]), id_i, 0, self.watch_list_of(c[p0]).len() as int),
            settled_ok(self.values(), self.variables.level_seq(), self.trail@, c, p0, q),
        ensures
            post.clause_watch_live(id_i, q + 1, set_lit.opposite(), if kept { w + 1 } else { w }, i + 1),
            post.all_true(),
            forall|x: Lit| post.clause_seqs()[id_i].contains(x) <==> c.contains(x),
    {
        let f = set_lit.opposite();
        let vals = self.values();
        let lv = self.variables.level_seq();
        lemma_neg_involution(set_lit);
        assert(lit_true(vals, self.trail@[q]));
        assert(lit_false(vals, f));
        assert(c.len() >= 2);
        assert(c[0].var_spec() != c[1].var_spec());
        assert(self.trail@.subrange(0, self.trail@.len() as int) =~= self.trail@);
        lemma_swap_contents(c, 0, 1);
        assert(c1[1] == f);
        assert(c1[0] != f);
        assert(c1[0] == c[p0]);
        assert(forall|x: Lit| c1.contains(x) <==> c.contains(x));
        assert(distinct_vars(c1));
        self.clauses.lemma_num_bound();
        let l0 = c1[0];
        let ol0 = self.watch_list_of(l0);
        if lit_state(vals, c1[0]) == Assignment(2) {
            assert(mid.clause_seqs() == self.clause_seqs().update(id_i, c1));
            assert(kept);
            assert(post.watch_list_of(l0) == mid.watch_list_of(l0));
            assert(mid.watch_list_of(l0) == ol0);
            assert(post.watch_list_of(f) == mid.watch_list_of(f).update(w, Watcher { clause: id_i as u32 }));
            assert(mid.watch_list_of(f) == self.watch_list_of(f));
            self.lemma_live_self_true(post, q, set_lit, w, i, id_i, c1);
            assert(post.all_true());
        } else if exists|pos: int| is_first_free(vals, c1, 2, pos) {
            let pos = choose|pos: int| is_first_free(vals, c1, 2, pos);
            let c2 = swap_spec(c1, 1, pos);
            lemma_swap_contents(c1, 1, pos);
            let g = c1[pos];
            assert(mid.clause_seqs() == self.clause_seqs().update(id_i, c2));
            assert(c2[0] == c1[0]);
            assert(c2[1] == g);
            assert(g != f);
            assert(c1[0].var_spec() != g.var_spec());
            assert(!kept);
            assert(mid.watch_list_of(g) == self.watch_list_of(g).push(Watcher { clause: id_i as u32 }));
            let gl = mid.watch_list_of(g);
            assert(gl[gl.len() - 1].clause == id_i);
            assert(watched_in(gl, id_i, 0, gl.len() as int));
            assert(mid.watch_list_of(l0) == ol0);
            assert forall|x: Lit| c.contains(x) implies c2.contains(x) by {
                assert(c1.contains(x));
            }
            assert(c[p0].var_spec() != f.var_spec());
            self.lemma_live_self_move(post, q, set_lit, w, i, id_i, c, p0, c2);
            assert(post.all_true());
        } else if lit_state(vals, c1[0]) == Assignment(1) {
            assert(r is None);
        } else {
            let bl = c1[0];
            assert(mid.clause_seqs() == self.clause_seqs().update(id_i, c1));
            assert(mid.trail_seq() == self.trail_seq().push(bl));
            assert(kept);
            assert(post.watch_list_of(l0) == mid.watch_list_of(l0));
            assert(mid.watch_list_of(l0) == ol0);
            assert(post.watch_list_of(f) == mid.watch_list_of(f).update(w, Watcher { clause: id_i as u32 }));
            assert(mid.watch_list_of(f) == self.watch_list_of(f));
            self.lemma_live_self_assign(post, q, set_lit, w, i, id_i, c1);
            let n = self.trail@.len() as int;
            assert(vals[bl.var_spec() as int].0 == 3);
            assert forall|p: int| 0 <= p < post.trail@.len() implies lit_true(post.values(), #[trigger] post.trail@[p]) by {
                if p < n {
                    assert(post.trail@[p] == self.trail@[p]);
                    assert(lit_true(vals, self.trail@[p]));
                    assert(self.trail@[p].var_spec() != bl.var_spec());
                }
            }
        }
    }

    /// The visited clause, whose first literal other than `f` (`c[p0]`) is false
    /// from level 0, moves its second watch on (a conflict is not this case) and
    /// ends up soundly watched up to `q + 1`; every trail literal stays true.
    #[verifier::rlimit(30)]
    proof fn lemma_live_self_dead(self, mid: Solver, post: Solver, q: int, set_lit: Lit, w: int, i: int, kept: bool, id_i: int, r: Option<()>, c: Seq<Lit>, c1: Seq<Lit>, p0: int)
        requires
            self.wf(),
            self.trail_ok(),
            mid.wf(),
            mid.trail_ok(),
            post.wf(),
            post.trail_ok(),
            self.all_true(),
            0 <= q < self.trail@.len(),
            self.trail@[q] == set_lit,
            self.trail_lim@.len() == 0 || self.trail_lim@[self.trail_lim@.len() - 1] <= q,
            0 <= id_i < self.clauses.num_clauses(),
            0 <= w <= i < self.watchers.watch_list(set_lit.opposite()).len(),
            r is Some,
            c == self.clause_seqs()[id_i],
            0 <= p0 < 2,
            c[1 - p0] == set_lit.opposite(),
            c1 == if p0 == 1 { swap_spec(c, 0, 1) } else { c },
            watched_outcome(self, mid, id_i, c1, r),
            self.same_frame(mid),
            kept == (mid.clause_seqs()[id_i][0] == set_lit.opposite() || mid.clause_seqs()[id_i][1] == set_lit.opposite()),
            post.clauses == mid.clauses,
            post.variables == mid.variables,
            post.trail == mid.trail,
            post.trail_lim == mid.trail_lim,
            kept ==> forall|l: Lit| #[trigger] post.watch_list_of(l) == if l == set_lit.opposite() {
                mid.watch_list_of(l).update(w, Watcher { clause: id_i as u32 })
            } else {
                mid.watch_list_of(l)
            },
            !kept ==> post.watchers == mid.watchers,
            fixed_false(self.values(), self.variables.level_seq(), c[p0]),
            var0_ok(self.values(), self.variables.level_seq(), c),
        ensures
            post.clause_watch_live(id_i, q + 1, set_lit.opposite(), if kept { w + 1 } else { w }, i + 1),
            post.all_true(),
            forall|x: Lit| post.clause_seqs()[id_i].contains(x) <==> c.contains(x),
    {
        let f = set_lit.opposite();
        let vals = self.values();
        let lv = self.variables.level_seq();
        lemma_neg_involution(set_lit);
        assert(lit_true(vals, self.trail@[q]));
        assert(lit_false(vals, f));
        assert(c.len() >= 2);
        assert(c[0].var_spec() != c[1].var_spec());
        assert(self.trail@.subrange(0, self.trail@.len() as int) =~= self.trail@);
        lemma_swap_contents(c, 0, 1);
        assert(c1[1] == f);
        assert(c1[0] != f);
        assert(c1[0] == c[p0]);
        assert(forall|x: Lit| c1.contains(x) <==> c.contains(x));
        assert(distinct_vars(c1));
        self.clauses.lemma_num_bound();
        let pf: int = 1 - p0;
        assert(c[pf] == f);
        assert(fixed_false(vals, lv, c[p0]));
        assert(var0_ok(vals, lv, c));
        assert(lit_state(vals, c1[0]) == Assignment(1));
        if exists|pos: int| is_first_free(vals, c1, 2, pos) {
            let pos = choose|pos: int| is_first_free(vals, c1, 2, pos);
            let c2 = swap_spec(c1, 1, pos);
            lemma_swap_contents(c1, 1, pos);
            let g = c1[pos];
            assert(mid.clause_seqs() == self.clause_seqs().update(id_i, c2));
            assert(c2[0] == c1[0]);
            assert(c2[1] == g);
            assert(g != f);
            assert(c1[0].var_spec() != g.var_spec());
            assert(!kept);
            assert(mid.watch_list_of(g) == self.watch_list_of(g).push(Watcher { clause: id_i as u32 }));
            let gl = mid.watch_list_of(g);
            assert(gl[gl.len() - 1].clause == id_i);
            assert(watched_in(gl, id_i, 0, gl.len() as int));
            assert forall|x: Lit| c2.contains(x) implies c.contains(x) by {
                assert(c1.contains(x));
            }
            assert forall|x: Lit| c.contains(x) implies c2.contains(x) by {
                assert(c1.contains(x));
            }
            self.lemma_live_self_move_dead(post, q, set_lit, w, i, id_i, c, c2);
            assert(post.all_true());
        } else {
            assert(r is None);
        }
    }

    /// The visited watch of `f` (clause `id_i`, at index `i`), once its clause is
    /// propagated (`mid`) without a conflict and the watch is rewritten at index
    /// `w` when `kept` (`post`), leaves that clause soundly watched up to `q + 1`
    /// and every trail literal true.
    #[verifier::rlimit(30)]
    proof fn lemma_live_self(self, mid: Solver, post: Solver, q: int, set_lit: Lit, w: int, i: int, kept: bool, id_i: int, b: Seq<Lit>, r: Option<()>)
        requires
            self.wf(),
            self.trail_ok(),
            mid.wf(),
            mid.trail_ok(),
            post.wf(),
            post.trail_ok(),
            self.all_true(),
            0 <= q < self.trail@.len(),
            self.trail@[q] == set_lit,
            self.trail_lim@.len() == 0 || self.trail_lim@[self.trail_lim@.len() - 1] <= q,
            self.live_ok(id_i, q, set_lit.opposite(), w, i, b),
            0 <= id_i < self.clauses.num_clauses(),
            0 <= w <= i < self.watchers.watch_list(set_lit.opposite()).len(),
            r is Some,
            ({
                let c = self.clause_seqs()[id_i];
                let neg = set_lit.opposite();
                let watched = c[0] == neg || c[1] == neg;
                let c1 = if c[0] == neg { swap_spec(c, 0, 1) } else { c };
                &&& !watched ==> mid == self
                &&& watched ==> watched_outcome(self, mid, id_i, c1, r)
            }),
            self.same_frame(mid),
            kept == (mid.clause_seqs()[id_i][0] == set_lit.opposite() || mid.clause_seqs()[id_i][1] == set_lit.opposite()),
            post.clauses == mid.clauses,
            post.variables == mid.variables,
            post.trail == mid.trail,
            post.trail_lim == mid.trail_lim,
            kept ==> forall|l: Lit| #[trigger] post.watch_list_of(l) == if l == set_lit.opposite() {
                mid.watch_list_of(l).update(w, Watcher { clause: id_i as u32 })
            } else {
                mid.watch_list_of(l)
            },
            !kept ==> post.watchers == mid.watchers,
        ensures
            post.clause_watch_live(id_i, q + 1, set_lit.opposite(), if kept { w + 1 } else { w }, i + 1),
            same_lits(b, post.clause_seqs()[id_i]),
            post.all_true(),
    {
        let f = set_lit.opposite();
        let c = self.clauses.clauses()[id_i];
        let vals = self.values();
        let lv = self.variables.level_seq();
        let w2: int = if kept { w + 1 } else { w };
        lemma_neg_involution(set_lit);
        assert(lit_true(vals, self.trail@[q]));
        assert(lit_false(vals, f));
        assert(c.len() >= 2);
        assert(c[0].var_spec() != c[1].var_spec());
        assert(same_lits(b, c));
        assert(self.trail@.subrange(0, self.trail@.len() as int) =~= self.trail@);
        if !(c[0] == f || c[1] == f) {
            assert(mid == self);
            assert(!kept);
            assert(self.clause_watch_live(id_i, q + 1, f, w, i));
            assert(self.watched_live(c[0], id_i, f, w, i) ==> post.watched_live(c[0], id_i, f, w2, i + 1));
            assert(self.watched_live(c[1], id_i, f, w, i) ==> post.watched_live(c[1], id_i, f, w2, i + 1));
            assert(post.clause_seqs()[id_i] == c);
            assert(post.clause_watch_live(id_i, q + 1, f, w2, i + 1));
            assert(post.all_true());
        } else {
            let c1 = if c[0] == f { swap_spec(c, 0, 1) } else { c };
            lemma_swap_contents(c, 0, 1);
            assert(c1[1] == f);
            assert(c1[0] != f);
            let p0: int = if c[0] == f { 1 } else { 0 };
            assert(c1[0] == c[p0]);
            assert(forall|x: Lit| c1.contains(x) <==> c.contains(x));
            assert(distinct_vars(c1));
            let qq: int = if self.clause_watch_live(id_i, q + 1, f, w, i) { q + 1 } else { q };
            assert(self.clause_watch_live(id_i, qq, f, w, i));
            let wo = self.watched_live(c[p0], id_i, f, w, i);
            let so = settled_ok(vals, lv, self.trail@, c, p0, qq);
            if wo && so {
                let l0 = c1[0];
                let ol0 = self.watch_list_of(l0);
                assert(watched_in(ol0, id_i, 0, ol0.len() as int));
                if qq == q + 1 {
                    self.lemma_settled_move(self, c, p0, q + 1, c, p0, q);
                }
                self.lemma_live_self_watched(mid, post, q, set_lit, w, i, kept, id_i, r, c, c1, p0);
            } else {
                assert(fixed_false(vals, lv, c[p0]));
                assert(var0_ok(vals, lv, c));
                self.lemma_live_self_dead(mid, post, q, set_lit, w, i, kept, id_i, r, c, c1, p0);
            }
        }
    }

    /// What clause `id` (holding `c` in `self`, `cf` in `fin`) has at position
    /// `p2` in `self` it has at position `p` in `fin`, where the list of `f` is cut
    /// down to its watches below index `w` and from index `i` on.
    #[verifier::rlimit(20)]
    proof fn lemma_cut_pos(self, fin: Solver, id: int, c: Seq<Lit>, p2: int, cf: Seq<Lit>, p: int, q: int, qq: int, f: Lit, w: int, i: int)
        requires
            self.wf(),
            self.trail_ok(),
            fin.wf(),
            fin.trail_ok(),
            0 <= id < self.clauses.num_clauses(),
            c == self.clauses.clauses()[id],
            0 <= p2 < 2,
            0 <= p < 2,
            cf.len() >= 2,
            cf[p] == c[p2],
            forall|x: Lit| cf.contains(x) ==> c.contains(x),
            forall|x: Lit| c.contains(x) ==> cf.contains(x),
            0 <= q <= qq <= q + 1,
            q < self.trail@.len(),
            0 <= w <= i <= self.watchers.watch_list(f).len(),
            fin.values() == self.values(),
            fin.trail@ == self.trail@,
            fin.trail_lim@ == self.trail_lim@,
            fin.nvars() == self.nvars(),
            forall|l: Lit| #[trigger] fin.watch_list_of(l) == if l == f {
                self.watch_list_of(f).subrange(0, w) + self.watch_list_of(f).subrange(i, self.watch_list_of(f).len() as int)
            } else {
                self.watch_list_of(l)
            },
        ensures
            self.watched_live(c[p2], id, f, w, i) ==> watched_in(fin.watchers.watch_list(cf[p]), id, 0, fin.watchers.watch_list(cf[p]).len() as int),
            settled_ok(self.values(), self.variables.level_seq(), self.trail@, c, p2, qq)
                ==> settled_ok(fin.values(), fin.variables.level_seq(), fin.trail@, cf, p, q),
            fixed_false(self.values(), self.variables.level_seq(), c[p2]) ==> fixed_false(fin.values(), fin.variables.level_seq(), cf[p]),
            var0_ok(self.values(), self.variables.level_seq(), c) ==> var0_ok(fin.values(), fin.variables.level_seq(), cf),
    {
        let wl = self.watch_list_of(f);
        let fl = fin.watch_list_of(f);
        let l = c[p2];
        assert(c.len() >= 2);
        if self.watched_live(l, id, f, w, i) {
            if l == f {
                if watched_in(wl, id, 0, w) {
                    let k = choose|k: int| 0 <= k < w && k < wl.len() && (#[trigger] wl[k]).clause == id;
                    assert(fl[k] == wl[k]);
                } else {
                    let k = choose|k: int| i <= k < wl.len() && k < wl.len() && (#[trigger] wl[k]).clause == id;
                    assert(fl[w + k - i] == wl[k]);
                }
            } else {
                assert(fin.watch_list_of(l) == self.watch_list_of(l));
            }
        }
        assert(self.trail@.subrange(0, self.trail@.len() as int) =~= self.trail@);
        if settled_ok(self.values(), self.variables.level_seq(), self.trail@, c, p2, qq) {
            self.lemma_settled_move(fin, c, p2, qq, cf, p, q);
        }
        self.lemma_fixed_move(fin, c, cf);
        assert(c[p2].var_spec() < self.nvars());
    }

    /// The watches of `f` kept below index `w` and those not visited from index
    /// `i` on, when the list is cut down to them, still count for every clause of
    /// `base`, which is then soundly watched up to `q` in `fin`, where clause
    /// `id_i` holds `c1` (its first two literals possibly exchanged) and nothing
    /// else but the list of `f` changed.
    #[verifier::rlimit(20)]
    proof fn lemma_live_cut(self, fin: Solver, q: int, f: Lit, w: int, i: int, id_i: int, c1: Seq<Lit>, base: Seq<Seq<Lit>>)
        requires
            self.wf(),
            self.trail_ok(),
            fin.wf(),
            fin.trail_ok(),
            0 <= q < self.trail@.len(),
            base.len() <= self.clauses.num_clauses(),
            forall|id: int| 0 <= id < base.len() ==> #[trigger] self.live_ok(id, q, f, w, i, base[id]),
            0 <= w <= i <= self.watchers.watch_list(f).len(),
            0 <= id_i < self.clauses.num_clauses(),
            c1 == self.clauses.clauses()[id_i] || c1 == swap_spec(self.clauses.clauses()[id_i], 0, 1),
            fin.clauses.clauses() == self.clauses.clauses().update(id_i, c1),
            fin.values() == self.values(),
            fin.trail@ == self.trail@,
            fin.trail_lim@ == self.trail_lim@,
            fin.nvars() == self.nvars(),
            forall|l: Lit| #[trigger] fin.watch_list_of(l) == if l == f {
                self.watch_list_of(f).subrange(0, w) + self.watch_list_of(f).subrange(i, self.watch_list_of(f).len() as int)
            } else {
                self.watch_list_of(l)
            },
        ensures
            fin.watches_sound(q, base),
    {
        let wl = self.watch_list_of(f);
        let fl = fin.watch_list_of(f);
        assert(self.trail@.subrange(0, self.trail@.len() as int) =~= self.trail@);
        assert forall|id: int| 0 <= id < base.len() implies #[trigger] fin.clause_watch_ok(id, q) && same_lits(base[id], fin.clauses.clauses()[id]) by {
            assert(self.live_ok(id, q, f, w, i, base[id]));
            let c = self.clauses.clauses()[id];
            let cf = fin.clauses.clauses()[id];
            lemma_swap_contents(c, 0, 1);
            assert(c.len() >= 2);
            assert(cf == if id == id_i { c1 } else { c });
            assert(forall|x: Lit| cf.contains(x) <==> c.contains(x));
            let qq: int = if self.clause_watch_live(id, q + 1, f, w, i) { q + 1 } else { q };
            assert(self.clause_watch_live(id, qq, f, w, i));
            if cf == c {
                self.lemma_cut_pos(fin, id, c, 0, cf, 0, q, qq, f, w, i);
                self.lemma_cut_pos(fin, id, c, 1, cf, 1, q, qq, f, w, i);
            } else {
                assert(cf == swap_spec(c, 0, 1));
                self.lemma_cut_pos(fin, id, c, 1, cf, 0, q, qq, f, w, i);
                self.lemma_cut_pos(fin, id, c, 0, cf, 1, q, qq, f, w, i);
            }
            assert(fin.clause_watch_ok(id, q));
            assert(same_lits(base[id], c));
        }
        assert forall|id: int| 0 <= id < base.len() implies same_lits(#[trigger] base[id], fin.clauses.clauses()[id]) by {
            assert(fin.clause_watch_ok(id, q) && same_lits(base[id], fin.clauses.clauses()[id]));
        }
        assert(fin.clauses.clauses().len() == self.clauses.clauses().len());
    }

    /// Once every watch of `f` is visited (index `n`, the list's length), with the
    /// kept ones below index `w`, cutting the list down to them leaves every clause
    /// of `base` soundly watched up to `q + 1`.
    #[verifier::rlimit(20)]
    proof fn lemma_live_end(self, fin: Solver, q: int, f: Lit, w: int, base: Seq<Seq<Lit>>)
        requires
            self.wf(),
            base.len() <= self.clauses.num_clauses(),
            forall|id: int| 0 <= id < base.len() ==> #[trigger] self.live_ok(id, q, f, w, self.watch_list_of(f).len() as int, base[id]),
            0 <= w <= self.watch_list_of(f).len(),
            fin.clauses == self.clauses,
            fin.variables == self.variables,
            fin.trail == self.trail,
            forall|l: Lit| #[trigger] fin.watch_list_of(l) == if l == f {
                self.watch_list_of(f).subrange(0, w) + self.watch_list_of(f).subrange(self.watch_list_of(f).len() as int, self.watch_list_of(f).len() as int)
            } else {
                self.watch_list_of(l)
            },
        ensures
            fin.watches_sound(q + 1, base),
    {
        let n = self.watch_list_of(f).len() as int;
        let wl = self.watch_list_of(f);
        let fl = fin.watch_list_of(f);
        assert forall|id: int| 0 <= id < base.len() implies #[trigger] fin.clause_watch_ok(id, q + 1) && same_lits(base[id], fin.clauses.clauses()[id]) by {
            assert(self.live_ok(id, q, f, w, n, base[id]));
            let c = self.clauses.clauses()[id];
            assert(!watched_in(wl, id, n, n));
            assert(self.clause_watch_live(id, q + 1, f, w, n));
            assert forall|p: int| 0 <= p < 2 && #[trigger] self.watched_live(c[p], id, f, w, n) implies watched_in(fin.watch_list_of(c[p]), id, 0, fin.watch_list_of(c[p]).len() as int) by {
                if c[p] == f {
                    let k = choose|k: int| 0 <= k < w && k < wl.len() && (#[trigger] wl[k]).clause == id;
                    assert(fl[k] == wl[k]);
                } else {
                    assert(fin.watch_list_of(c[p]) == self.watch_list_of(c[p]));
                }
            }
            assert(self.watched_live(c[0], id, f, w, n) ==> watched_in(fin.watch_list_of(c[0]), id, 0, fin.watch_list_of(c[0]).len() as int));
            assert(self.watched_live(c[1], id, f, w, n) ==> watched_in(fin.watch_list_of(c[1]), id, 0, fin.watch_list_of(c[1]).len() as int));
        }
        assert forall|id: int| 0 <= id < base.len() implies same_lits(#[trigger] base[id], fin.clauses.clauses()[id]) by {
            assert(fin.clause_watch_ok(id, q + 1) && same_lits(base[id], fin.clauses.clauses()[id]));
        }
    }

    /// Every trail literal stays true when assigned variables keep their values
    /// and the trail only gets a true literal, or nothing, appended.
    proof fn lemma_all_true_keep(self, post: Solver)
        requires
            self.wf_core(),
            self.trail_core(),
            self.all_true(),
            post.nvars() >= self.nvars(),
            forall|v: int| 0 <= v < self.nvars() && is_assigned(#[trigger] self.values()[v]) ==> post.values()[v] == self.values()[v],
            post.trail@ == self.trail@ || (post.trail@.len() == self.trail@.len() + 1 && post.trail@.drop_last() == self.trail@
                && lit_true(post.values(), post.trail@.last())),
        ensures
            post.all_true(),
    {
        assert forall|p: int| 0 <= p < post.trail@.len() implies lit_true(post.values(), #[trigger] post.trail@[p]) by {
            if p < self.trail@.len() {
                assert(post.trail@[p] == self.trail@[p]) by {
                    if post.trail@ != self.trail@ {
                        assert(post.trail@.drop_last()[p] == post.trail@[p]);
                    }
                }
                assert(lit_true(self.values(), self.trail@[p]));
                assert(is_assigned(self.values()[self.trail@[p].var_spec() as int]));
            }
        }
    }

    /// The start of the propagation of `set_lit`, the trail literal at position
    /// `q`: the clauses of `base` are soundly watched up to `q`, every trail
    /// literal is true, and `q` lies at the current decision level.
    pub closed spec fn prop_ready(self, set_lit: Lit, q: int, base: Seq<Seq<Lit>>) -> bool {
        &&& self.watches_sound(q, base)
        &&& self.all_true()
        &&& 0 <= q < self.trail@.len()
        &&& self.trail@[q] == set_lit
        &&& (self.trail_lim@.len() == 0 || self.trail_lim@[self.trail_lim@.len() - 1] <= q)
    }

    /// Propagating clause `id_i` on `set_lit` (`mid`) and rewriting the watch of
    /// `f` at index `w` when `kept` (`post`) keeps the watches of any other literal
    /// `l`, at their indices.
    #[verifier::rlimit(20)]
    proof fn lemma_step_watch_at(self, mid: Solver, post: Solver, set_lit: Lit, w: int, kept: bool, id_i: int, r: Option<()>, l: Lit)
        requires
            self.wf(),
            0 <= id_i < self.clauses.num_clauses(),
            ({
                let c = self.clause_seqs()[id_i];
                let neg = set_lit.opposite();
                let watched = c[0] == neg || c[1] == neg;
                let c1 = if c[0] == neg { swap_spec(c, 0, 1) } else { c };
                &&& !watched ==> mid == self
                &&& watched ==> watched_outcome(self, mid, id_i, c1, r)
            }),
            kept ==> forall|l: Lit| #[trigger] post.watch_list_of(l) == if l == set_lit.opposite() {
                mid.watch_list_of(l).update(w, Watcher { clause: id_i as u32 })
            } else {
                mid.watch_list_of(l)
            },
            !kept ==> post.watchers == mid.watchers,
            l != set_lit.opposite(),
        ensures
            watch_prefix(self.watchers.watch_list(l), post.watchers.watch_list(l)),
    {
        let f = set_lit.opposite();
        let c = self.clauses.clauses()[id_i];
        let vals = self.values();
        let watched = c[0] == f || c[1] == f;
        let c1 = if c[0] == f { swap_spec(c, 0, 1) } else { c };
        assert(post.watch_list_of(l) == mid.watch_list_of(l));
        if watched {
            if lit_state(vals, c1[0]) != Assignment(2) && exists|pos: int| is_first_free(vals, c1, 2, pos) {
                let pos = choose|pos: int| is_first_free(vals, c1, 2, pos);
                if l == c1[pos] {
                    assert(mid.watch_list_of(l) == self.watch_list_of(l).push(Watcher { clause: id_i as u32 }));
                    assert(self.watch_list_of(l).push(Watcher { clause: id_i as u32 }).subrange(0, self.watch_list_of(l).len() as int) =~= self.watch_list_of(l));
                } else {
                    assert(mid.watch_list_of(l) == self.watch_list_of(l));
                }
            } else {
                assert(mid.watch_list_of(l) == self.watch_list_of(l));
            }
        } else {
            assert(mid == self);
        }
        assert(self.watch_list_of(l).subrange(0, self.watch_list_of(l).len() as int) =~= self.watch_list_of(l));
    }

    /// One visited watch of `f` (clause `id_i`, at index `i`), propagated without a
    /// conflict (`mid`) and rewritten at index `w` when `kept` (`post`), keeps
    /// every clause of `base` in the state `live_ok` describes, one visit further.
    #[verifier::rlimit(30)]
    proof fn lemma_live_step(self, mid: Solver, post: Solver, q: int, set_lit: Lit, w: int, i: int, kept: bool, w2: int, id_i: int, base: Seq<Seq<Lit>>, r: Option<()>)
        requires
            w2 == if kept { w + 1 } else { w },
            self.wf(),
            self.trail_ok(),
            mid.wf(),
            mid.trail_ok(),
            post.wf(),
            post.trail_ok(),
            self.all_true(),
            0 <= q < self.trail@.len(),
            self.trail@[q] == set_lit,
            self.trail_lim@.len() == 0 || self.trail_lim@[self.trail_lim@.len() - 1] <= q,
            base.len() <= self.clauses.num_clauses(),
            forall|id: int| 0 <= id < base.len() ==> #[trigger] self.live_ok(id, q, set_lit.opposite(), w, i, base[id]),
            0 <= id_i < self.clauses.num_clauses(),
            0 <= w <= i < self.watchers.watch_list(set_lit.opposite()).len(),
            self.watchers.watch_list(set_lit.opposite())[i].clause == id_i,
            r is Some,
            ({
                let c = self.clause_seqs()[id_i];
                let neg = set_lit.opposite();
                let watched = c[0] == neg || c[1] == neg;
                let c1 = if c[0] == neg { swap_spec(c, 0, 1) } else { c };
                &&& !watched ==> mid == self
                &&& watched ==> watched_outcome(self, mid, id_i, c1, r)
            }),
            self.same_frame(mid),
            mid.watch_list_of(set_lit.opposite()) == self.watch_list_of(set_lit.opposite()),
            forall|v: int| 0 <= v < self.nvars() && is_assigned(#[trigger] self.values()[v]) ==> mid.values()[v] == self.values()[v],
            kept == (mid.clause_seqs()[id_i][0] == set_lit.opposite() || mid.clause_seqs()[id_i][1] == set_lit.opposite()),
            post.clauses == mid.clauses,
            post.variables == mid.variables,
            post.trail == mid.trail,
            post.trail_lim == mid.trail_lim,
            kept ==> forall|l: Lit| #[trigger] post.watch_list_of(l) == if l == set_lit.opposite() {
                mid.watch_list_of(l).update(w, Watcher { clause: id_i as u32 })
            } else {
                mid.watch_list_of(l)
            },
            !kept ==> post.watchers == mid.watchers,
        ensures
            post.all_true(),
            base.len() <= post.clauses.num_clauses(),
            forall|id: int| 0 <= id < base.len() ==> #[trigger] post.live_ok(id, q, set_lit.opposite(), w2, i + 1, base[id]),
    {
        let f = set_lit.opposite();
        let c = self.clauses.clauses()[id_i];
        let vals = self.values();
        lemma_neg_involution(set_lit);
        let watched = c[0] == f || c[1] == f;
        let c1 = if c[0] == f { swap_spec(c, 0, 1) } else { c };
        // What the propagation of clause `id_i` changed.
        assert(forall|id: int| 0 <= id < self.clauses.num_clauses() && id != id_i ==> #[trigger] mid.clause_seqs()[id] == self.clause_seqs()[id]);
        assert forall|l: Lit| l != f implies #[trigger] watch_prefix(self.watchers.watch_list(l), post.watchers.watch_list(l)) by {
            self.lemma_step_watch_at(mid, post, set_lit, w, kept, id_i, r, l);
        }
        let wl = self.watchers.watch_list(f);
        let pwl = post.watchers.watch_list(f);
        assert(post.watch_list_of(f) == if kept { wl.update(w, Watcher { clause: id_i as u32 }) } else { wl });
        assert(forall|k: int| 0 <= k < wl.len() && (k != w || !kept) ==> #[trigger] pwl[k] == wl[k]);
        assert(post.trail@.subrange(0, self.trail@.len() as int) == self.trail@);
        assert(post.trail_lim@ == self.trail_lim@);
        // Every trail literal stays true.
        if watched && lit_state(vals, c1[0]) != Assignment(2) && !(exists|pos: int| is_first_free(vals, c1, 2, pos)) && lit_state(vals, c1[0]) != Assignment(1) {
            assert(mid.trail_seq() == self.trail_seq().push(c1[0]));
            assert(post.trail@.drop_last() =~= self.trail@);
            assert(lit_true(post.values(), post.trail@.last()));
        } else {
            assert(post.trail@ == self.trail@);
        }
        self.lemma_all_true_keep(post);
        assert forall|id: int| 0 <= id < base.len() implies #[trigger] post.live_ok(id, q, f, w2, i + 1, base[id]) by {
            if id == id_i {
                self.lemma_live_self(mid, post, q, set_lit, w, i, kept, id_i, base[id], r);
            } else {
                assert(post.clauses.clauses()[id] == self.clauses.clauses()[id]);
                self.lemma_live_other(post, id, q, f, w, i, kept, id_i, base[id]);
            }
        }
    }

    /// Sound watching up to `q` is sound watching up to any earlier position.
    proof fn lemma_sound_mono(self, q: int, q2: int, base: Seq<Seq<Lit>>)
        requires
            self.wf_core(),
            self.trail_core(),
            self.watches_sound(q, base),
            0 <= q2 <= q <= self.trail@.len(),
        ensures
            self.watches_sound(q2, base),
    {
        assert(self.trail@.subrange(0, self.trail@.len() as int) =~= self.trail@);
        assert forall|id: int| 0 <= id < base.len() implies #[trigger] self.clause_watch_ok(id, q2) by {
            assert(self.clause_watch_ok(id, q));
            let c = self.clauses.clauses()[id];
            assert(c.len() >= 2);
            if settled_ok(self.values(), self.variables.level_seq(), self.trail@, c, 0, q) {
                self.lemma_settled_move(self, c, 0, q, c, 0, q2);
            }
            if settled_ok(self.values(), self.variables.level_seq(), self.trail@, c, 1, q) {
                self.lemma_settled_move(self, c, 1, q, c, 1, q2);
            }
        }
    }

    /// The start of propagating the trail from position `start`: the clauses of
    /// `base` are soundly watched up to `start`, every trail literal is true, and
    /// `start` lies at the current decision level.
    pub closed spec fn bcp_ready(self, start: int, base: Seq<Seq<Lit>>) -> bool {
        &&& self.watches_sound(start, base)
        &&& self.all_true()
        &&& 0 <= start <= self.trail@.len()
        &&& (self.trail_lim@.len() == 0 || self.trail_lim@[self.trail_lim@.len() - 1] <= start)
    }

    /// Going back to decision level `level` keeps every remaining trail literal
    /// true.
    #[verifier::rlimit(20)]
    proof fn lemma_all_true_backjump(self, post: Solver, level: int)
        requires
            self.wf(),
            self.trail_ok(),
            self.all_true(),
            0 <= level < self.trail_lim@.len(),
            post.trail_seq() == self.trail_seq().subrange(0, self.trail_lim_seq()[level] as int),
            post.nvars() == self.nvars(),
            forall|v: int| 0 <= v < self.nvars() ==> #[trigger] post.values()[v] == if on_trail_from(self.trail_seq(), v, self.trail_lim_seq()[level] as int) {
                Assignment(3)
            } else {
                self.values()[v]
            },
        ensures
            post.all_true(),
    {
        let t = self.trail@;
        let d = self.trail_lim@;
        let top = d[level] as int;
        assert(d[0] <= top) by {
            if level > 0 {
                assert(d[0] < d[level]);
            }
        }
        assert forall|p: int| 0 <= p < post.trail@.len() implies lit_true(post.values(), #[trigger] post.trail@[p]) by {
            assert(post.trail@[p] == t[p]);
            let v = t[p].var_spec() as int;
            if on_trail_from(t, v, top) {
                let p2 = choose|p2: int| top <= p2 < t.len() && #[trigger] t[p2].var_spec() == v;
                assert(self.level0_end() <= p2);
                assert(t[p2].var_spec() != t[p].var_spec());
            }
            assert(lit_true(self.values(), t[p]));
        }
    }

    /// The state in which a conflict met while propagating from trail position
    /// `q` is handled: the clauses of `base` are soundly watched up to `q`, every
    /// trail literal is true, and `q` lies at the current decision level, above 0.
    pub closed spec fn conflict_ready(self, q: int, base: Seq<Seq<Lit>>) -> bool {
        &&& self.watches_sound(q, base)
        &&& self.all_true()
        &&& self.trail_lim@.len() > 0
        &&& self.trail_lim@[self.trail_lim@.len() - 1] <= q <= self.trail@.len()
    }

    /// A change that keeps the clauses, watches, values, levels and trail keeps
    /// the watch invariant and the truth of the trail.
    proof fn lemma_sound_same(self, post: Solver, q: int, base: Seq<Seq<Lit>>)
        requires
            self.watches_sound(q, base),
            self.all_true(),
            post.clauses == self.clauses,
            post.watchers == self.watchers,
            post.variables.values_seq() == self.variables.values_seq(),
            post.variables.level_seq() == self.variables.level_seq(),
            post.trail == self.trail,
        ensures
            post.watches_sound(q, base),
            post.all_true(),
    {
        assert forall|id: int| 0 <= id < base.len() implies #[trigger] post.clause_watch_ok(id, q) by {
            assert(self.clause_watch_ok(id, q));
        }
    }

    /// Unchanged watch lists lose no watch.
    proof fn lemma_watches_grow_same(self, post: Solver)
        requires
            forall|l: Lit| #[trigger] post.watch_list_of(l) == self.watch_list_of(l),
        ensures
            self.watches_grow(post),
    {
        assert forall|l: Lit| #[trigger] watch_prefix(self.watchers.watch_list(l), post.watchers.watch_list(l)) by {
            assert(post.watch_list_of(l) == self.watch_list_of(l));
            assert(self.watchers.watch_list(l).subrange(0, self.watchers.watch_list(l).len() as int) =~= self.watchers.watch_list(l));
        }
    }

    /// Propagating clause `id` on `set_lit` loses no watch and changes no other
    /// clause.
    #[verifier::rlimit(20)]
    proof fn lemma_propagate_grow(self, pre: Solver, id: int, set_lit: Lit, r: Option<()>)
        requires
            pre.wf(),
            0 <= id < pre.clause_seqs().len(),
            ({
                let c = pre.clause_seqs()[id];
                let neg = set_lit.opposite();
                let watched = c[0] == neg || c[1] == neg;
                let c1 = if c[0] == neg { swap_spec(c, 0, 1) } else { c };
                &&& !watched ==> r is Some && self == pre
                &&& watched ==> watched_outcome(pre, self, id, c1, r)
            }),
        ensures
            pre.watches_grow(self),
            forall|k: int| 0 <= k < pre.clause_seqs().len() && k != id ==> #[trigger] self.clauses.clauses()[k] == pre.clauses.clauses()[k],
    {
        let c = pre.clause_seqs()[id];
        let neg = set_lit.opposite();
        let watched = c[0] == neg || c[1] == neg;
        let c1 = if c[0] == neg { swap_spec(c, 0, 1) } else { c };
        let vals = pre.values();
        assert forall|l: Lit| #[trigger] watch_prefix(pre.watchers.watch_list(l), self.watchers.watch_list(l)) by {
            let wl = pre.watchers.watch_list(l);
            assert(wl.subrange(0, wl.len() as int) =~= wl);
            if watched {
                if lit_state(vals, c1[0]) != Assignment(2) && exists|pos: int| is_first_free(vals, c1, 2, pos) {
                    let pos = choose|pos: int| is_first_free(vals, c1, 2, pos);
                    if l == c1[pos] {
                        assert(self.watch_list_of(l) == pre.watch_list_of(l).push(Watcher { clause: id as u32 }));
                        assert(wl.push(Watcher { clause: id as u32 }).subrange(0, wl.len() as int) =~= wl);
                    } else {
                        assert(self.watch_list_of(l) == pre.watch_list_of(l));
                    }
                } else {
                    assert(self.watch_list_of(l) == pre.watch_list_of(l));
                }
            }
        }
    }

    /// The assignment that the values give: a variable is true when its value is
    /// "true" (an unassigned variable reads false, as in `value_of`).
    pub closed spec fn model(self) -> spec_fn(nat) -> bool {
        |v: nat| self.variables.values_seq()[v as int] == Assignment(2)
    }

    /// Clause `c` of the formula is a tautology, a clause with one literal (once
    /// repeated literals are dropped) that stands on the trail at level 0, or a
    /// stored clause up to the order and repetition of its literals.
    pub closed spec fn clause_covered(self, c: Seq<Lit>) -> bool {
        ||| is_tautology(c)
        ||| (dedup(c).len() == 1 && self.trail@.subrange(0, self.level0_end()).contains(dedup(c)[0]))
        ||| exists|id: int| 0 <= id < self.clauses.num_clauses() && same_lits(dedup(c), #[trigger] self.clauses.clauses()[id])
    }

    /// Every clause of the formula is accounted for by the trail at level 0 or the
    /// stored clauses (see `clause_covered`). The DIMACS reader and `solve` leave
    /// the solver so; `formula_covered_loose` is what every public operation keeps.
    #[verifier::opaque]
    pub closed spec fn formula_covered(self) -> bool {
        forall|i: int| 0 <= i < self.formula@.len() ==> #[trigger] self.clause_covered(self.formula@[i])
    }

    /// `clause_covered`, where a clause of one literal may also stand on the trail
    /// above level 0 as a clause of one literal added there (see `is_pending`).
    pub closed spec fn clause_covered_loose(self, c: Seq<Lit>) -> bool {
        ||| self.clause_covered(c)
        ||| (dedup(c).len() == 1 && exists|p: int| #[trigger] self.is_pending(p) && self.trail@[p] == dedup(c)[0])
    }

    /// Every clause of the formula is accounted for (see `clause_covered_loose`).
    /// `new`, `default`, `add_clause`, the DIMACS reader and `solve` all leave the
    /// solver so.
    #[verifier::opaque]
    pub closed spec fn formula_covered_loose(self) -> bool {
        forall|i: int| 0 <= i < self.formula@.len() ==> #[trigger] self.clause_covered_loose(self.formula@[i])
    }

    /// What the search keeps implies what the public operations keep.
    pub proof fn lemma_loose_of_strict(self)
        requires
            self.trail_ok(),
            self.formula_covered(),
        ensures
            self.trail_loose(),
            self.formula_covered_loose(),
    {
        reveal(Solver::formula_covered);
        reveal(Solver::formula_covered_loose);
        assert forall|i: int| 0 <= i < self.formula@.len() implies #[trigger] self.clause_covered_loose(self.formula@[i]) by {
            assert(self.clause_covered(self.formula@[i]));
        }
    }

    /// The invariant of the search implies the looser one of the public operations.
    pub proof fn lemma_loose_of_ok(self)
        requires
            self.trail_ok(),
        ensures
            self.trail_loose(),
    {
        assert forall|p: int| self.level0_end() <= p < self.trail@.len() implies
            #[trigger] self.reason_ok(p) || (self.is_pending(p) && implied(self.formula@, self.trail@[p])) by {
            assert(self.reason_ok(p));
        }
    }

    /// In a model of the formula every stored clause holds.
    proof fn lemma_stored_hold(self, m: spec_fn(nat) -> bool)
        requires
            self.trail_ok(),
            models(m, self.formula@),
        ensures
            forall|id: int| 0 <= id < self.clauses.num_clauses() ==> clause_holds(m, #[trigger] self.clauses.clauses()[id]),
    {
        reveal(Solver::sem_ok);
        assert forall|id: int| 0 <= id < self.clauses.num_clauses() implies clause_holds(m, #[trigger] self.clauses.clauses()[id]) by {
            assert(clause_implied(self.formula@, self.clauses.clauses()[id]));
        }
    }

    /// At level 0 no position is pending, and the two kinds of invariants agree.
    proof fn lemma_strict_at_level0(self)
        requires
            self.trail_loose(),
            self.formula_covered_loose(),
            self.trail_lim@.len() == 0,
        ensures
            self.trail_ok(),
            self.formula_covered(),
    {
        reveal(Solver::formula_covered);
        reveal(Solver::formula_covered_loose);
        assert forall|i: int| 0 <= i < self.formula@.len() implies #[trigger] self.clause_covered(self.formula@[i]) by {
            assert(self.clause_covered_loose(self.formula@[i]));
        }
        assert forall|p: int| self.level0_end() <= p < self.trail@.len() implies #[trigger] self.reason_ok(p) by {}
    }

    /// A literal true under the values holds in `model`.
    proof fn lemma_model_lit(self, l: Lit)
        requires
            lit_true(self.values(), l),
        ensures
            lit_holds(self.model(), l),
    {
    }

    /// From a covered formula whose trail literals and stored clauses (`pre`'s)
    /// all hold a true literal in `self`, the values give a model.
    #[verifier::rlimit(20)]
    proof fn lemma_model_of_covered(self, pre: Solver)
        requires
            pre.wf(),
            pre.formula_covered(),
            forall|id: int| 0 <= id < pre.clause_seqs().len() ==> has_true_lit(self.values(), #[trigger] pre.clause_seqs()[id]),
            forall|p: int| 0 <= p < pre.trail_seq().len() ==> lit_true(self.values(), #[trigger] pre.trail_seq()[p]),
        ensures
            models(self.model(), pre.formula()),
    {
        reveal(Solver::formula_covered);
        let m = self.model();
        let fm = pre.formula@;
        assert forall|i: int| 0 <= i < fm.len() implies #[trigger] clause_holds(m, fm[i]) by {
            let c = fm[i];
            assert(pre.clause_covered(c));
            if is_tautology(c) {
                let (a, b) = choose|a: int, b: int| 0 <= a < c.len() && 0 <= b < c.len() && #[trigger] c[a] == #[trigger] c[b].opposite();
                lemma_neg_involution(c[b]);
                if lit_holds(m, c[b]) {
                    assert(lit_holds(m, c[b]));
                } else {
                    assert(lit_holds(m, c[a]));
                }
            } else if dedup(c).len() == 1 && pre.trail@.subrange(0, pre.level0_end()).contains(dedup(c)[0]) {
                let x = dedup(c)[0];
                let sub = pre.trail@.subrange(0, pre.level0_end());
                let p = choose|p: int| 0 <= p < sub.len() && sub[p] == x;
                assert(sub[p] == pre.trail@[p]);
                assert(lit_true(self.values(), pre.trail_seq()[p]));
                assert(dedup(c).contains(x));
                lemma_dedup_contains(c, x);
                let k = choose|k: int| 0 <= k < c.len() && c[k] == x;
                self.lemma_model_lit(x);
                assert(lit_holds(m, c[k]));
            } else {
                let id = choose|id: int| 0 <= id < pre.clauses.num_clauses() && same_lits(dedup(c), #[trigger] pre.clauses.clauses()[id]);
                let st = pre.clause_seqs()[id];
                assert(has_true_lit(self.values(), st));
                let j = choose|j: int| 0 <= j < st.len() && #[trigger] lit_true(self.values(), st[j]);
                let x = st[j];
                assert(st.contains(x));
                assert(dedup(c).contains(x));
                lemma_dedup_contains(c, x);
                let k = choose|k: int| 0 <= k < c.len() && c[k] == x;
                self.lemma_model_lit(x);
                assert(lit_holds(m, c[k]));
            }
        }
    }

    /// Adding a non-empty clause keeps the formula accounted for.
    #[verifier::rlimit(20)]
    proof fn lemma_covered_added(self, post: Solver, lits: Seq<Lit>)
        requires
            self.wf(),
            self.formula_covered(),
            lits.len() > 0,
            clause_added(self, post, lits),
            self.trail_lim@.len() == 0 || is_tautology(lits) || dedup(lits).len() != 1,
        ensures
            post.formula_covered(),
    {
        reveal(Solver::formula_covered);
        let l0 = self.level0_end();
        assert(l0 <= self.trail@.len());
        assert(post.level0_end() >= l0);
        assert(post.trail@.subrange(0, l0) =~= self.trail@.subrange(0, l0)) by {
            assert(post.trail@.len() >= self.trail@.len());
            assert forall|k: int| 0 <= k < l0 implies post.trail@[k] == self.trail@[k] by {
                if post.trail@ != self.trail@ {
                    assert(post.trail@ == self.trail@.push(dedup(lits)[0]));
                }
            }
        }
        let d = dedup(lits);
        let fm = post.formula@;
        assert(lits.contains(lits[0]));
        lemma_dedup_contains(lits, lits[0]);
        assert(d.len() > 0);
        assert forall|i: int| 0 <= i < fm.len() implies #[trigger] post.clause_covered(fm[i]) by {
            let c = fm[i];
            if i < self.formula@.len() {
                assert(fm[i] == self.formula@[i]);
                assert(self.clause_covered(c));
                if !is_tautology(c) {
                    if dedup(c).len() == 1 && self.trail@.subrange(0, l0).contains(dedup(c)[0]) {
                        let sub = self.trail@.subrange(0, l0);
                        let p = choose|p: int| 0 <= p < sub.len() && sub[p] == dedup(c)[0];
                        assert(post.trail@.subrange(0, post.level0_end())[p] == sub[p]);
                    } else {
                        let id = choose|id: int| 0 <= id < self.clauses.num_clauses() && same_lits(dedup(c), #[trigger] self.clauses.clauses()[id]);
                        assert(post.clause_seqs()[id] == self.clause_seqs()[id]);
                        assert(same_lits(dedup(c), post.clauses.clauses()[id]));
                    }
                }
            } else {
                assert(c == lits);
                if !is_tautology(c) {
                    if d.len() == 1 {
                        assert(post.trail@[self.trail@.len() as int] == d[0]);
                        assert(post.trail@.subrange(0, post.level0_end())[self.trail@.len() as int] == d[0]);
                    } else {
                        let id = self.clauses.num_clauses() as int;
                        assert(post.clause_seqs()[id] == d);
                        assert(same_lits(d, post.clauses.clauses()[id]));
                    }
                }
            }
        }
    }

    /// Adding a non-empty clause keeps the formula accounted for in the looser
    /// sense, also when a clause of one literal is set above level 0.
    #[verifier::rlimit(30)]
    proof fn lemma_covered_loose_added(self, post: Solver, lits: Seq<Lit>)
        requires
            self.wf(),
            self.trail_loose(),
            self.formula_covered_loose(),
            lits.len() > 0,
            clause_added(self, post, lits),
            self.trail_lim@.len() > 0 ==> forall|v: int| 0 <= v < self.nvars() && is_assigned(#[trigger] self.values()[v])
                ==> post.reasons()[v] == self.reasons()[v],
            self.trail_lim@.len() > 0 && !is_tautology(lits) && dedup(lits).len() == 1
                ==> post.reasons()[dedup(lits)[0].var_spec() as int] == NULL_CLAUSE,
        ensures
            post.formula_covered_loose(),
    {
        reveal(Solver::formula_covered_loose);
        let l0 = self.level0_end();
        let n = self.trail@.len() as int;
        assert(l0 <= n);
        assert(post.level0_end() >= l0);
        assert(post.trail@.len() >= n);
        assert forall|k: int| 0 <= k < n implies post.trail@[k] == self.trail@[k] by {
            if post.trail@ != self.trail@ {
                assert(post.trail@ == self.trail@.push(dedup(lits)[0]));
            }
        }
        assert(post.trail@.subrange(0, l0) =~= self.trail@.subrange(0, l0));
        assert forall|p: int| #[trigger] self.is_pending(p) implies post.is_pending(p) by {
            assert(self.trail_lim@.len() > 0);
            let v = self.trail@[p].var_spec() as int;
            assert(v < self.nvars());
            assert(is_assigned(self.values()[v]));
            assert(post.trail@[p] == self.trail@[p]);
        }
        let d = dedup(lits);
        let fm = post.formula@;
        assert(lits.contains(lits[0]));
        lemma_dedup_contains(lits, lits[0]);
        assert(d.len() > 0);
        assert forall|i: int| 0 <= i < fm.len() implies #[trigger] post.clause_covered_loose(fm[i]) by {
            let c = fm[i];
            if i < self.formula@.len() {
                assert(fm[i] == self.formula@[i]);
                assert(self.clause_covered_loose(c));
                if !is_tautology(c) {
                    if dedup(c).len() == 1 && self.trail@.subrange(0, l0).contains(dedup(c)[0]) {
                        let sub = self.trail@.subrange(0, l0);
                        let p = choose|p: int| 0 <= p < sub.len() && sub[p] == dedup(c)[0];
                        assert(post.trail@.subrange(0, post.level0_end())[p] == sub[p]);
                        assert(post.clause_covered(c));
                    } else if exists|id: int| 0 <= id < self.clauses.num_clauses() && same_lits(dedup(c), #[trigger] self.clauses.clauses()[id]) {
                        let id = choose|id: int| 0 <= id < self.clauses.num_clauses() && same_lits(dedup(c), #[trigger] self.clauses.clauses()[id]);
                        assert(post.clause_seqs()[id] == self.clause_seqs()[id]);
                        assert(same_lits(dedup(c), post.clauses.clauses()[id]));
                        assert(post.clause_covered(c));
                    } else {
                        let p = choose|p: int| #[trigger] self.is_pending(p) && self.trail@[p] == dedup(c)[0];
                        assert(post.is_pending(p));
                        assert(post.trail@[p] == dedup(c)[0]);
                    }
                }
            } else {
                assert(c == lits);
                if !is_tautology(c) {
                    if d.len() == 1 {
                        assert(post.trail@[n] == d[0]);
                        if self.trail_lim@.len() == 0 {
                            assert(post.trail@.subrange(0, post.level0_end())[n] == d[0]);
                            assert(post.clause_covered(c));
                        } else {
                            assert(forall|j: int| 0 <= j < self.trail_lim@.len() ==> #[trigger] self.trail_lim@[j] < n);
                            assert(post.is_pending(n));
                        }
                    } else {
                        let id = self.clauses.num_clauses() as int;
                        assert(post.clause_seqs()[id] == d);
                        assert(same_lits(d, post.clauses.clauses()[id]));
                        assert(post.clause_covered(c));
                    }
                }
            }
        }
    }

    /// Whether a clause is accounted for in the looser sense survives changes that
    /// keep the trail, the decisions and the stored clauses, and the reasons of the
    /// assigned variables.
    proof fn lemma_covered_loose_same(self, post: Solver)
        requires
            self.trail_loose(),
            post.trail@ == self.trail@,
            post.trail_lim@ == self.trail_lim@,
            post.clauses.clauses() == self.clauses.clauses(),
            forall|v: int| 0 <= v < self.nvars() && is_assigned(#[trigger] self.values()[v]) ==> post.reasons()[v] == self.reasons()[v],
            self.wf(),
        ensures
            forall|c: Seq<Lit>| #[trigger] self.clause_covered_loose(c) ==> post.clause_covered_loose(c),
    {
        assert forall|p: int| #[trigger] self.is_pending(p) implies post.is_pending(p) by {
            let v = self.trail@[p].var_spec() as int;
            assert(v < self.nvars());
            assert(is_assigned(self.values()[v]));
        }
        assert forall|c: Seq<Lit>| #[trigger] self.clause_covered_loose(c) implies post.clause_covered_loose(c) by {
            if self.clause_covered(c) {
                assert(post.clause_covered(c));
            } else {
                let p = choose|p: int| #[trigger] self.is_pending(p) && self.trail@[p] == dedup(c)[0];
                assert(post.is_pending(p));
            }
        }
    }

    /// Adding a clause of one literal over a variable with a value above level 0,
    /// through a restart, leaves the formula accounted for at level 0.
    #[verifier::rlimit(20)]
    proof fn lemma_covered_restarted(self, restarted: Solver, post: Solver, lits: Seq<Lit>, f0: Seq<Seq<Lit>>)
        requires
            self.formula@ == f0.push(lits),
            forall|i: int| 0 <= i < f0.len() ==> #[trigger] self.clause_covered_loose(f0[i]),
            forall|c: Seq<Lit>| #[trigger] self.clause_covered_loose(c) ==> restarted.clause_covered(c),
            restarted.trail_lim@.len() == 0,
            post.trail_lim@.len() == 0,
            post.formula == self.formula,
            post.clauses == restarted.clauses,
            post.trail@ == restarted.trail@.push(dedup(lits)[0]),
            !is_tautology(lits),
            dedup(lits).len() == 1,
        ensures
            post.formula_covered(),
    {
        reveal(Solver::formula_covered);
        let t = post.trail@;
        let n = restarted.trail@.len() as int;
        assert(post.level0_end() == n + 1);
        assert forall|i: int| 0 <= i < post.formula@.len() implies #[trigger] post.clause_covered(post.formula@[i]) by {
            let c = post.formula@[i];
            if i < f0.len() {
                assert(c == f0[i]);
                assert(self.clause_covered_loose(f0[i]));
                assert(restarted.clause_covered(c));
                if !is_tautology(c) && dedup(c).len() == 1 && restarted.trail@.subrange(0, n).contains(dedup(c)[0]) {
                    let sub = restarted.trail@.subrange(0, n);
                    let p = choose|p: int| 0 <= p < sub.len() && sub[p] == dedup(c)[0];
                    assert(t.subrange(0, n + 1)[p] == sub[p]);
                }
            } else {
                assert(c == lits);
                assert(t.subrange(0, n + 1)[n] == dedup(c)[0]);
            }
        }
    }

    /// Going back to a decision level keeps the formula accounted for.
    proof fn lemma_covered_backjump(self, post: Solver, level: int)
        requires
            self.wf(),
            self.formula_covered(),
            0 <= level < self.trail_lim@.len(),
            post.formula() == self.formula(),
            post.clause_seqs() == self.clause_seqs(),
            post.trail_seq() == self.trail_seq().subrange(0, self.trail_lim_seq()[level] as int),
            post.trail_lim_seq() == self.trail_lim_seq().subrange(0, level),
        ensures
            post.formula_covered(),
    {
        let d = self.trail_lim@;
        assert(d[0] <= d[level]) by {
            if level > 0 {
                assert(d[0] < d[level]);
            }
        }
        assert(post.level0_end() == self.level0_end());
        assert(post.trail@.subrange(0, self.level0_end()) =~= self.trail@.subrange(0, self.level0_end()));
        self.lemma_covered_keep(post);
    }

    /// Whether the formula is accounted for depends on the formula, the stored
    /// clauses and the trail alone.
    proof fn lemma_covered_same(self, post: Solver)
        requires
            self.formula_covered(),
            post.formula == self.formula,
            post.clauses.clauses() == self.clauses.clauses(),
            post.trail == self.trail,
            post.trail_lim == self.trail_lim,
        ensures
            post.formula_covered(),
    {
        reveal(Solver::formula_covered);
        assert forall|i: int| 0 <= i < post.formula@.len() implies #[trigger] post.clause_covered(post.formula@[i]) by {
            assert(self.clause_covered(self.formula@[i]));
        }
    }

    /// Propagation keeps the formula accounted for.
    proof fn lemma_covered_frame(self, post: Solver)
        requires
            self.wf(),
            post.wf(),
            self.formula_covered(),
            self.same_frame(post),
        ensures
            post.formula_covered(),
    {
        let l0 = self.level0_end();
        assert(l0 <= self.trail@.len());
        assert(post.trail@.subrange(0, l0) =~= post.trail@.subrange(0, self.trail@.len() as int).subrange(0, l0));
        assert(self.trail@.subrange(0, l0) =~= self.trail@.subrange(0, l0));
        self.lemma_covered_keep(post);
    }

    /// The formula stays accounted for when each stored clause keeps its literals
    /// and the assignments of level 0 only grow.
    #[verifier::rlimit(20)]
    proof fn lemma_covered_keep(self, post: Solver)
        requires
            self.formula_covered(),
            post.formula() == self.formula(),
            post.clause_seqs().len() == self.clause_seqs().len(),
            forall|k: int| 0 <= k < self.clause_seqs().len() ==> same_lits(self.clause_seqs()[k], #[trigger] post.clause_seqs()[k]),
            0 <= self.level0_end() <= post.level0_end() <= post.trail@.len(),
            self.level0_end() <= self.trail@.len(),
            post.trail@.subrange(0, self.level0_end()) == self.trail@.subrange(0, self.level0_end()),
        ensures
            post.formula_covered(),
    {
        reveal(Solver::formula_covered);
        let l0 = self.level0_end();
        assert forall|i: int| 0 <= i < post.formula@.len() implies #[trigger] post.clause_covered(post.formula@[i]) by {
            let c = self.formula@[i];
            assert(self.clause_covered(c));
            if !is_tautology(c) {
                if dedup(c).len() == 1 && self.trail@.subrange(0, l0).contains(dedup(c)[0]) {
                    let sub = self.trail@.subrange(0, l0);
                    let p = choose|p: int| 0 <= p < sub.len() && sub[p] == dedup(c)[0];
                    assert(post.trail@.subrange(0, l0)[p] == sub[p]);
                    assert(post.trail@.subrange(0, post.level0_end())[p] == post.trail@.subrange(0, l0)[p]);
                } else {
                    let id = choose|id: int| 0 <= id < self.clauses.num_clauses() && same_lits(dedup(c), #[trigger] self.clauses.clauses()[id]);
                    assert(same_lits(self.clause_seqs()[id], post.clause_seqs()[id]));
                    assert(same_lits(dedup(c), post.clauses.clauses()[id]));
                }
            }
        }
    }

    /// Some literal of `c` is one that `value_of` reports true: its variable
    /// exists and has the literal's sign.
    pub open spec fn value_of_satisfies(self, c: Seq<Lit>) -> bool {
        exists|k: int| 0 <= k < c.len() && self.value_spec(#[trigger] c[k].var_spec() as int) == Some(c[k].is_pos_spec())
    }

    /// In a model that the values give, each clause of `f` whose variables all
    /// exist has a literal that `value_of` reports true.
    pub proof fn lemma_sat_values(self, f: Seq<Seq<Lit>>)
        requires
            models(self.model(), f),
            vars_below(f, self.nvars()),
        ensures
            forall|i: int| 0 <= i < f.len() ==> #[trigger] self.value_of_satisfies(f[i]),
    {
        assert forall|i: int| 0 <= i < f.len() implies #[trigger] self.value_of_satisfies(f[i]) by {
            assert(clause_holds(self.model(), f[i]));
            let k = choose|k: int| 0 <= k < f[i].len() && #[trigger] lit_holds(self.model(), f[i][k]);
            assert(f[i][k].var_spec() < self.nvars());
            self.lemma_model_value(f[i][k].var_spec());
            assert(self.value_spec(f[i][k].var_spec() as int) == Some(f[i][k].is_pos_spec()));
        }
    }

    /// `model` is what `value_of` reports of each existing variable.
    pub proof fn lemma_model_value(self, v: nat)
        requires
            v < self.nvars(),
        ensures
            self.value_spec(v as int) == Some((self.model())(v)),
    {
    }

}

} // verus!
