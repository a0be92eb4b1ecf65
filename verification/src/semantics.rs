//! What clauses mean: a model gives each variable a truth value; a clause holds
//! when one of its literals does; a formula holds when all its clauses do.
use vstd::prelude::*;

use crate::clause_db::{dedup, lemma_dedup_contains, swap_spec};
use crate::lit::Lit;

verus! {

/// Literal `l` is true in the model `m`.
pub open spec fn lit_holds(m: spec_fn(nat) -> bool, l: Lit) -> bool {
    m(l.var_spec()) == l.is_pos_spec()
}

/// Some literal of `c` is true in `m`.
pub open spec fn clause_holds(m: spec_fn(nat) -> bool, c: Seq<Lit>) -> bool {
    exists|k: int| 0 <= k < c.len() && #[trigger] lit_holds(m, c[k])
}

/// Every clause of `f` holds in `m`: `m` is a model of `f`.
pub open spec fn models(m: spec_fn(nat) -> bool, f: Seq<Seq<Lit>>) -> bool {
    forall|i: int| 0 <= i < f.len() ==> #[trigger] clause_holds(m, f[i])
}

/// Literal `l` is true in every model of `f`.
pub open spec fn implied(f: Seq<Seq<Lit>>, l: Lit) -> bool {
    forall|m: spec_fn(nat) -> bool| #[trigger] models(m, f) ==> lit_holds(m, l)
}

/// Clause `c` holds in every model of `f`.
pub open spec fn clause_implied(f: Seq<Seq<Lit>>, c: Seq<Lit>) -> bool {
    forall|m: spec_fn(nat) -> bool| #[trigger] models(m, f) ==> clause_holds(m, c)
}

/// Every model of `f` is a model of `g`.
pub open spec fn entails(f: Seq<Seq<Lit>>, g: Seq<Seq<Lit>>) -> bool {
    forall|m: spec_fn(nat) -> bool| #[trigger] models(m, f) ==> models(m, g)
}

/// A model of `f` with `c` added is a model of `f` in which `c` holds.
pub proof fn lemma_models_push(m: spec_fn(nat) -> bool, f: Seq<Seq<Lit>>, c: Seq<Lit>)
    ensures
        models(m, f.push(c)) <==> models(m, f) && clause_holds(m, c),
{
    if models(m, f.push(c)) {
        assert forall|i: int| 0 <= i < f.len() implies #[trigger] clause_holds(m, f[i]) by {
            assert(f.push(c)[i] == f[i]);
        }
        assert(f.push(c)[f.len() as int] == c);
    }
    if models(m, f) && clause_holds(m, c) {
        assert forall|i: int| 0 <= i < f.push(c).len() implies #[trigger] clause_holds(m, f.push(c)[i]) by {
            if i < f.len() {
                assert(f.push(c)[i] == f[i]);
            }
        }
    }
}

/// Adding a clause that every model of `f` satisfies keeps the models of `f`.
pub proof fn lemma_entails_push(f: Seq<Seq<Lit>>, c: Seq<Lit>)
    requires
        clause_implied(f, c),
    ensures
        entails(f, f.push(c)),
        entails(f.push(c), f),
{
    assert forall|m: spec_fn(nat) -> bool| #[trigger] models(m, f) implies models(m, f.push(c)) by {
        lemma_models_push(m, f, c);
    }
    assert forall|m: spec_fn(nat) -> bool| #[trigger] models(m, f.push(c)) implies models(m, f) by {
        lemma_models_push(m, f, c);
    }
}

/// Exchanging two literals of a clause does not change whether it holds.
pub proof fn lemma_clause_holds_swap(m: spec_fn(nat) -> bool, c: Seq<Lit>, i: int, j: int)
    requires
        0 <= i < c.len(),
        0 <= j < c.len(),
    ensures
        clause_holds(m, swap_spec(c, i, j)) == clause_holds(m, c),
{
    let s = swap_spec(c, i, j);
    if clause_holds(m, c) {
        let k = choose|k: int| 0 <= k < c.len() && #[trigger] lit_holds(m, c[k]);
        let k2 = if k == i { j } else if k == j { i } else { k };
        assert(s[k2] == c[k]);
    }
    if clause_holds(m, s) {
        let k = choose|k: int| 0 <= k < s.len() && #[trigger] lit_holds(m, s[k]);
        let k2 = if k == i { j } else if k == j { i } else { k };
        assert(s[k] == c[k2]);
    }
}

/// Dropping repeated literals does not change whether a clause holds.
pub proof fn lemma_clause_holds_dedup(m: spec_fn(nat) -> bool, c: Seq<Lit>)
    ensures
        clause_holds(m, dedup(c)) == clause_holds(m, c),
{
    let d = dedup(c);
    if clause_holds(m, c) {
        let k = choose|k: int| 0 <= k < c.len() && #[trigger] lit_holds(m, c[k]);
        assert(c.contains(c[k]));
        lemma_dedup_contains(c, c[k]);
        let j = choose|j: int| 0 <= j < d.len() && d[j] == c[k];
        assert(lit_holds(m, d[j]));
    }
    if clause_holds(m, d) {
        let k = choose|k: int| 0 <= k < d.len() && #[trigger] lit_holds(m, d[k]);
        assert(d.contains(d[k]));
        lemma_dedup_contains(c, d[k]);
        let j = choose|j: int| 0 <= j < c.len() && c[j] == d[k];
        assert(lit_holds(m, c[j]));
    }
}

/// `entails` is transitive.
pub proof fn lemma_entails_trans(f: Seq<Seq<Lit>>, g: Seq<Seq<Lit>>, h: Seq<Seq<Lit>>)
    requires
        entails(f, g),
        entails(g, h),
    ensures
        entails(f, h),
{
    assert forall|m: spec_fn(nat) -> bool| #[trigger] models(m, f) implies models(m, h) by {
        assert(models(m, g));
    }
}

} // verus!
