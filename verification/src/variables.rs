//! Per-variable state: the current assignment, the level and reason of the
//! assignment, and a mark used while a clause is built or a conflict analysed.
use vstd::prelude::*;

use crate::assignment::Assignment;
use crate::lit::Lit;

verus! {

/// Why and at which decision level a variable got its value.
#[derive(Clone, Copy, Debug)]
pub struct AssignmentHistory {
    pub reason: u32,
    pub level: u32,
}

/// The state of every variable, indexed by variable.
///
/// Outside of clause construction and conflict analysis every mark is empty.
pub struct VariableDb {
    values: Vec<Assignment>,
    history: Vec<AssignmentHistory>,
    seen_in_clause: Vec<Assignment>,
}

impl VariableDb {
    /// The assignment of each variable.
    pub closed spec fn values_seq(&self) -> Seq<Assignment> {
        self.values@
    }

    /// The mark of each variable.
    pub closed spec fn seen_seq(&self) -> Seq<Assignment> {
        self.seen_in_clause@
    }

    /// The decision level at which each variable was assigned.
    pub closed spec fn level_seq(&self) -> Seq<u32> {
        self.history@.map_values(|h: AssignmentHistory| h.level)
    }

    /// The reason (a clause id) for each variable's assignment.
    pub closed spec fn reason_seq(&self) -> Seq<u32> {
        self.history@.map_values(|h: AssignmentHistory| h.reason)
    }

    /// The number of variables.
    pub open spec fn num_vars(&self) -> nat {
        self.values_seq().len()
    }

    /// All per-variable tables have one entry per variable.
    pub open spec fn wf(&self) -> bool {
        &&& self.seen_seq().len() == self.num_vars()
        &&& self.level_seq().len() == self.num_vars()
        &&& self.reason_seq().len() == self.num_vars()
    }

    /// No variable, and so no mark.
    pub fn new() -> (db: VariableDb)
        ensures
            db.wf(),
            db.num_vars() == 0,
    {
        VariableDb { values: Vec::new(), history: Vec::new(), seen_in_clause: Vec::new() }
    }

    /// Grows the tables so that `var` is a valid index; new variables are
    /// unassigned, at level 0 with reason 0, and unmarked.
    pub fn ensure_vars(&mut self, var: usize)
        requires
            old(self).wf(),
            var < usize::MAX,
        ensures
            final(self).wf(),
            final(self).num_vars() == if var < old(self).num_vars() {
                old(self).num_vars() as int
            } else {
                var + 1
            },
            final(self).values_seq().subrange(0, old(self).num_vars() as int)
                == old(self).values_seq(),
            final(self).seen_seq().subrange(0, old(self).num_vars() as int)
                == old(self).seen_seq(),
            final(self).level_seq().subrange(0, old(self).num_vars() as int)
                == old(self).level_seq(),
            final(self).reason_seq().subrange(0, old(self).num_vars() as int)
                == old(self).reason_seq(),
            forall|v: int|
                old(self).num_vars() <= v < final(self).num_vars() ==> {
                    &&& #[trigger] final(self).values_seq()[v] == Assignment(3)
                    &&& final(self).seen_seq()[v] == Assignment(0)
                    &&& final(self).level_seq()[v] == 0
                    &&& final(self).reason_seq()[v] == 0
                },
    {
        if var >= self.len() {
            let ghost old_hist = self.history@;
            self.values.resize(var + 1, Assignment::unassigned());
            self.history.resize(var + 1, AssignmentHistory { reason: 0, level: 0 });
            self.seen_in_clause.resize(var + 1, Assignment::empty());
            assert(self.level_seq().subrange(0, old_hist.len() as int)
                =~= old_hist.map_values(|h: AssignmentHistory| h.level));
            assert(self.reason_seq().subrange(0, old_hist.len() as int)
                =~= old_hist.map_values(|h: AssignmentHistory| h.reason));
        } else {
            assert(self.values_seq().subrange(0, self.num_vars() as int) =~= self.values_seq());
            assert(self.seen_seq().subrange(0, self.num_vars() as int) =~= self.seen_seq());
            assert(self.level_seq().subrange(0, self.num_vars() as int) =~= self.level_seq());
            assert(self.reason_seq().subrange(0, self.num_vars() as int) =~= self.reason_seq());
        }
    }

    /// The assignment of variable `i`.
    pub fn get_value(&self, i: usize) -> (a: Assignment)
        requires
            self.wf(),
            i < self.num_vars(),
        ensures
            a == self.values_seq()[i as int],
    {
        self.values[i]
    }

    /// Sets the assignment of variable `i`; nothing else changes.
    pub fn set_value(&mut self, i: usize, value: Assignment)
        requires
            old(self).wf(),
            i < old(self).num_vars(),
        ensures
            final(self).wf(),
            final(self).values_seq() == old(self).values_seq().update(i as int, value),
            final(self).seen_seq() == old(self).seen_seq(),
            final(self).level_seq() == old(self).level_seq(),
            final(self).reason_seq() == old(self).reason_seq(),
    {
        self.values.set(i, value);
    }

    /// The number of variables.
    pub fn len(&self) -> (n: usize)
        requires
            self.wf(),
        ensures
            n == self.num_vars(),
    {
        self.values.len()
    }

    /// The mark of variable `var`.
    pub fn get_seen(&self, var: usize) -> (a: Assignment)
        requires
            self.wf(),
            var < self.num_vars(),
        ensures
            a == self.seen_seq()[var as int],
    {
        self.seen_in_clause[var]
    }

    /// Sets the mark of variable `var`; nothing else changes.
    pub fn set_seen(&mut self, var: usize, seen: Assignment)
        requires
            old(self).wf(),
            var < old(self).num_vars(),
        ensures
            final(self).wf(),
            final(self).seen_seq() == old(self).seen_seq().update(var as int, seen),
            final(self).values_seq() == old(self).values_seq(),
            final(self).level_seq() == old(self).level_seq(),
            final(self).reason_seq() == old(self).reason_seq(),
    {
        self.seen_in_clause.set(var, seen);
    }

    /// Clears the mark of variable `var`; nothing else changes.
    pub fn reset_seen(&mut self, var: usize)
        requires
            old(self).wf(),
            var < old(self).num_vars(),
        ensures
            final(self).wf(),
            final(self).seen_seq() == old(self).seen_seq().update(var as int, Assignment(0)),
            final(self).values_seq() == old(self).values_seq(),
            final(self).level_seq() == old(self).level_seq(),
            final(self).reason_seq() == old(self).reason_seq(),
    {
        self.seen_in_clause.set(var, Assignment::empty());
    }

    /// Clears the marks of the variables of `literals`; nothing else changes.
    pub fn reset_seen_literals(&mut self, literals: &[Lit])
        requires
            old(self).wf(),
            forall|k: int| 0 <= k < literals@.len() ==> #[trigger] literals@[k].var_spec() < old(self).num_vars(),
        ensures
            final(self).wf(),
            final(self).num_vars() == old(self).num_vars(),
            forall|v: int|
                0 <= v < old(self).num_vars() ==> #[trigger] final(self).seen_seq()[v] == if exists|k: int|
                    0 <= k < literals@.len() && literals@[k].var_spec() == v {
                    Assignment(0)
                } else {
                    old(self).seen_seq()[v]
                },
            final(self).values_seq() == old(self).values_seq(),
            final(self).level_seq() == old(self).level_seq(),
            final(self).reason_seq() == old(self).reason_seq(),
    {
        let n = literals.len();
        for i in 0..n
            invariant
                n == literals@.len(),
                self.wf(),
                self.num_vars() == old(self).num_vars(),
                forall|k: int| 0 <= k < literals@.len() ==> #[trigger] literals@[k].var_spec() < old(self).num_vars(),
                forall|v: int|
                    0 <= v < old(self).num_vars() ==> #[trigger] self.seen_seq()[v] == if exists|k: int|
                        0 <= k < i && literals@[k].var_spec() == v {
                        Assignment(0)
                    } else {
                        old(self).seen_seq()[v]
                    },
                self.values_seq() == old(self).values_seq(),
                self.level_seq() == old(self).level_seq(),
                self.reason_seq() == old(self).reason_seq(),
        {
            let lit = literals[i];
            self.reset_seen(lit.var());
            assert forall|v: int| 0 <= v < old(self).num_vars() implies #[trigger] self.seen_seq()[v]
                == if exists|k: int| 0 <= k < i + 1 && literals@[k].var_spec() == v {
                Assignment(0)
            } else {
                old(self).seen_seq()[v]
            } by {
                if v == lit.var_spec() {
                    assert(literals@[i as int].var_spec() == v);
                } else if exists|k: int| 0 <= k < i + 1 && literals@[k].var_spec() == v {
                    let k = choose|k: int| 0 <= k < i + 1 && literals@[k].var_spec() == v;
                    assert(k < i);
                }
            }
        }
    }

    /// The decision level of variable `var`'s assignment.
    pub fn get_level(&self, var: usize) -> (l: u32)
        requires
            self.wf(),
            var < self.num_vars(),
        ensures
            l == self.level_seq()[var as int],
    {
        self.history[var].level
    }

    /// The reason of variable `var`'s assignment.
    pub fn get_reason(&self, var: usize) -> (r: u32)
        requires
            self.wf(),
            var < self.num_vars(),
        ensures
            r == self.reason_seq()[var as int],
    {
        self.history[var].reason
    }

    /// Records the reason and level of variable `var`'s assignment; nothing else changes.
    pub fn set_history(&mut self, var: usize, reason: u32, level: u32)
        requires
            old(self).wf(),
            var < old(self).num_vars(),
        ensures
            final(self).wf(),
            final(self).level_seq() == old(self).level_seq().update(var as int, level),
            final(self).reason_seq() == old(self).reason_seq().update(var as int, reason),
            final(self).values_seq() == old(self).values_seq(),
            final(self).seen_seq() == old(self).seen_seq(),
    {
        self.history.set(var, AssignmentHistory { reason, level });
        assert(self.level_seq() =~= old(self).level_seq().update(var as int, level));
        assert(self.reason_seq() =~= old(self).reason_seq().update(var as int, reason));
    }
}

impl Default for VariableDb {
    fn default() -> (db: VariableDb)
        ensures
            db.wf(),
            db.num_vars() == 0,
    {
        VariableDb::new()
    }
}

} // verus!
