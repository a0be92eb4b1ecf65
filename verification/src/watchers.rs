//! Watch lists: for each literal, the clauses to visit when it becomes false.
use vstd::prelude::*;

use crate::clause_db::ClauseId;
use crate::lit::Lit;

verus! {

/// A clause that watches a literal.
#[derive(Clone, Copy, PartialEq, Eq, Debug, Structural)]
pub struct Watcher {
    pub clause: ClauseId,
}

/// The watch lists of all literals: one table for positive literals and one for
/// negative literals, each indexed by variable. A literal whose variable lies
/// beyond its table has an empty list.
pub struct WatchersDb {
    pos_watchers: Vec<Vec<Watcher>>,
    neg_watchers: Vec<Vec<Watcher>>,
    no_watchers: Vec<Watcher>,
}

impl WatchersDb {
    /// The table that holds the lists of literals with the sign of `lit`.
    closed spec fn table(self, lit: Lit) -> Seq<Vec<Watcher>> {
        if lit.is_pos_spec() {
            self.pos_watchers@
        } else {
            self.neg_watchers@
        }
    }

    /// The watch list of `lit`.
    pub closed spec fn watch_list(self, lit: Lit) -> Seq<Watcher> {
        if lit.var_spec() < self.table(lit).len() {
            self.table(lit)[lit.var_spec() as int]@
        } else {
            Seq::empty()
        }
    }

    /// The stand-in for an absent list stays empty.
    pub closed spec fn wf(self) -> bool {
        self.no_watchers@.len() == 0
    }

    /// No literal is watched.
    pub fn new() -> (db: WatchersDb)
        ensures
            db.wf(),
            forall|l: Lit| #[trigger] db.watch_list(l) == Seq::<Watcher>::empty(),
    {
        WatchersDb { pos_watchers: Vec::new(), neg_watchers: Vec::new(), no_watchers: Vec::new() }
    }

    /// Makes the table of `lit`'s sign long enough to hold `lit`'s list; no list changes.
    fn ensure_list(&mut self, lit: Lit)
        requires
            old(self).wf(),
        ensures
            final(self).wf(),
            lit.var_spec() < final(self).table(lit).len(),
            forall|l: Lit| #[trigger] final(self).watch_list(l) == old(self).watch_list(l),
            final(self).table(lit.opposite()) == old(self).table(lit.opposite()),
    {
        let v = lit.var();
        if lit.is_pos() {
            if v >= self.pos_watchers.len() {
                let ghost before = self.pos_watchers@;
                let empty: Vec<Watcher> = Vec::new();
                let ghost e = empty;
                self.pos_watchers.resize(v + 1, empty);
                proof {
                    assert forall|l: Lit| #[trigger] self.watch_list(l) == old(self).watch_list(l) by {
                        if l.is_pos_spec() && l.var_spec() >= before.len() && l.var_spec() < self.pos_watchers@.len() {
                            assert(vstd::pervasive::cloned::<Vec<Watcher>>(e, self.pos_watchers@[l.var_spec() as int]));
                            assert(self.pos_watchers@[l.var_spec() as int]@ =~= Seq::<Watcher>::empty());
                        }
                        if l.is_pos_spec() && l.var_spec() < before.len() {
                            assert(self.pos_watchers@.subrange(0, before.len() as int)[l.var_spec() as int] == self.pos_watchers@[l.var_spec() as int]);
                        }
                    }
                }
            }
        } else {
            if v >= self.neg_watchers.len() {
                let ghost before = self.neg_watchers@;
                let empty: Vec<Watcher> = Vec::new();
                let ghost e = empty;
                self.neg_watchers.resize(v + 1, empty);
                proof {
                    assert forall|l: Lit| #[trigger] self.watch_list(l) == old(self).watch_list(l) by {
                        if !l.is_pos_spec() && l.var_spec() >= before.len() && l.var_spec() < self.neg_watchers@.len() {
                            assert(vstd::pervasive::cloned::<Vec<Watcher>>(e, self.neg_watchers@[l.var_spec() as int]));
                            assert(self.neg_watchers@[l.var_spec() as int]@ =~= Seq::<Watcher>::empty());
                        }
                        if !l.is_pos_spec() && l.var_spec() < before.len() {
                            assert(self.neg_watchers@.subrange(0, before.len() as int)[l.var_spec() as int] == self.neg_watchers@[l.var_spec() as int]);
                        }
                    }
                }
            }
        }
    }

    /// Appends `watch` to the watch list of `lit`; no other list changes.
    pub fn add_watch(&mut self, lit: Lit, watch: Watcher)
        requires
            old(self).wf(),
        ensures
            final(self).wf(),
            forall|l: Lit| #[trigger] final(self).watch_list(l) == if l == lit {
                old(self).watch_list(lit).push(watch)
            } else {
                old(self).watch_list(l)
            },
    {
        self.ensure_list(lit);
        let ghost mid = *self;
        let v = lit.var();
        if lit.is_pos() {
            self.pos_watchers[v].push(watch);
        } else {
            self.neg_watchers[v].push(watch);
        }
        proof {
            assert forall|l: Lit| #[trigger] self.watch_list(l) == if l == lit {
                old(self).watch_list(lit).push(watch)
            } else {
                old(self).watch_list(l)
            } by {
                crate::lit::lemma_lit_determined(l, lit);
                assert(mid.watch_list(l) == old(self).watch_list(l));
            }
        }
    }

    /// The watch list of `lit`.
    pub fn watches(&self, lit: Lit) -> (list: &Vec<Watcher>)
        requires
            self.wf(),
        ensures
            list@ == self.watch_list(lit),
    {
        let v = lit.var();
        let table = if lit.is_pos() {
            &self.pos_watchers
        } else {
            &self.neg_watchers
        };
        if v < table.len() {
            &table[v]
        } else {
            &self.no_watchers
        }
    }

    /// The watch at position `i` of `lit`'s list.
    pub fn get_watch(&self, lit: Lit, i: usize) -> (w: Watcher)
        requires
            self.wf(),
            i < self.watch_list(lit).len(),
        ensures
            w == self.watch_list(lit)[i as int],
    {
        let list = self.watches(lit);
        list[i]
    }

    /// Overwrites the watch at position `i` of `lit`'s list; no other entry changes.
    pub fn set_watch(&mut self, lit: Lit, i: usize, w: Watcher)
        requires
            old(self).wf(),
            i < old(self).watch_list(lit).len(),
        ensures
            final(self).wf(),
            forall|l: Lit| #[trigger] final(self).watch_list(l) == if l == lit {
                old(self).watch_list(lit).update(i as int, w)
            } else {
                old(self).watch_list(l)
            },
    {
        let v = lit.var();
        if lit.is_pos() {
            self.pos_watchers[v].set(i, w);
        } else {
            self.neg_watchers[v].set(i, w);
        }
        proof {
            assert forall|l: Lit| #[trigger] self.watch_list(l) == if l == lit {
                old(self).watch_list(lit).update(i as int, w)
            } else {
                old(self).watch_list(l)
            } by {
                crate::lit::lemma_lit_determined(l, lit);
            }
        }
    }

    /// Removes the entries at positions `from..to` of `lit`'s list, keeping the
    /// order of the others; no other list changes.
    pub fn remove_watches(&mut self, lit: Lit, from: usize, to: usize)
        requires
            old(self).wf(),
            from <= to <= old(self).watch_list(lit).len(),
        ensures
            final(self).wf(),
            forall|l: Lit| #[trigger] final(self).watch_list(l) == if l == lit {
                old(self).watch_list(lit).subrange(0, from as int) + old(self).watch_list(lit).subrange(to as int, old(self).watch_list(lit).len() as int)
            } else {
                old(self).watch_list(l)
            },
    {
        if from == to {
            proof {
                assert forall|l: Lit| #[trigger] self.watch_list(l) == if l == lit {
                    old(self).watch_list(lit).subrange(0, from as int) + old(self).watch_list(lit).subrange(to as int, old(self).watch_list(lit).len() as int)
                } else {
                    old(self).watch_list(l)
                } by {
                    if l == lit {
                        assert(old(self).watch_list(lit) =~= old(self).watch_list(lit).subrange(0, from as int) + old(self).watch_list(lit).subrange(to as int, old(self).watch_list(lit).len() as int));
                    }
                }
            }
            return;
        }
        let v = lit.var();
        if lit.is_pos() {
            remove_range(&mut self.pos_watchers[v], from, to);
        } else {
            remove_range(&mut self.neg_watchers[v], from, to);
        }
        proof {
            assert forall|l: Lit| #[trigger] self.watch_list(l) == if l == lit {
                old(self).watch_list(lit).subrange(0, from as int) + old(self).watch_list(lit).subrange(to as int, old(self).watch_list(lit).len() as int)
            } else {
                old(self).watch_list(l)
            } by {
                crate::lit::lemma_lit_determined(l, lit);
            }
        }
    }
}

/// Removes the entries at positions `from..to` of `list`, keeping the order of the others.
fn remove_range(list: &mut Vec<Watcher>, from: usize, to: usize)
    requires
        from <= to <= old(list)@.len(),
    ensures
        final(list)@ == old(list)@.subrange(0, from as int) + old(list)@.subrange(to as int, old(list)@.len() as int),
{
    let n = list.len();
    let mut read = to;
    let mut write = from;
    while read < n
        invariant
            n == old(list)@.len(),
            list@.len() == n,
            from <= write <= read <= n,
            write - from == read - to,
            list@.subrange(0, write as int) == old(list)@.subrange(0, from as int) + old(list)@.subrange(to as int, read as int),
            list@.subrange(read as int, n as int) == old(list)@.subrange(read as int, n as int),
        decreases n - read,
    {
        let w = list[read];
        let ghost before = list@;
        list.set(write, w);
        proof {
            assert(list@.subrange(0, write + 1) =~= before.subrange(0, write as int).push(w));
            assert(old(list)@.subrange(to as int, read + 1) =~= old(list)@.subrange(to as int, read as int).push(w)) by {
                assert(before.subrange(read as int, n as int)[0] == w);
            }
            assert(list@.subrange(read + 1, n as int) =~= before.subrange(read + 1, n as int));
            assert(before.subrange(read + 1, n as int) =~= old(list)@.subrange(read + 1, n as int)) by {
                assert forall|t: int| 0 <= t < n - read - 1 implies #[trigger] before.subrange(read + 1, n as int)[t] == old(list)@.subrange(read + 1, n as int)[t] by {
                    assert(before.subrange(read as int, n as int)[t + 1] == old(list)@.subrange(read as int, n as int)[t + 1]);
                }
            }
        }
        read = read + 1;
        write = write + 1;
    }
    list.truncate(write);
    proof {
        assert(old(list)@.subrange(to as int, n as int) == old(list)@.subrange(to as int, read as int));
    }
}

impl Default for WatchersDb {
    fn default() -> (db: WatchersDb)
        ensures
            db.wf(),
            forall|l: Lit| #[trigger] db.watch_list(l) == Seq::<Watcher>::empty(),
    {
        WatchersDb::new()
    }
}

} // verus!
