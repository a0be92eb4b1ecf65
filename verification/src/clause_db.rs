//! Clause storage: all clauses in one pool of literals, each preceded by a
//! header that holds its length.
use vstd::prelude::*;

use crate::assignment::Assignment;
use crate::lit::Lit;
use crate::variables::VariableDb;

verus! {

/// The index of a clause in the clause database.
pub type ClauseId = u32;

/// The clause id that stands for "no clause".
pub const NULL_CLAUSE: ClauseId = 0xffff_ffff;

/// Whether `s` holds a literal together with its negation.
pub open spec fn is_tautology(s: Seq<Lit>) -> bool {
    exists|i: int, j: int| 0 <= i < s.len() && 0 <= j < s.len() && #[trigger] s[i] == #[trigger] s[j].opposite()
}

/// `s` with every literal kept at its first occurrence only.
pub open spec fn dedup(s: Seq<Lit>) -> Seq<Lit>
    decreases s.len(),
{
    if s.len() == 0 {
        Seq::empty()
    } else {
        let d = dedup(s.drop_last());
        if d.contains(s.last()) {
            d
        } else {
            d.push(s.last())
        }
    }
}

/// No two literals of `s` share a variable.
pub open spec fn distinct_vars(s: Seq<Lit>) -> bool {
    forall|i: int, j: int| 0 <= i < s.len() && 0 <= j < s.len() && i != j ==> #[trigger] s[i].var_spec() != #[trigger] s[j].var_spec()
}

/// Exchanging two entries keeps the length, the entries and distinct variables.
pub proof fn lemma_swap_contents(s: Seq<Lit>, i: int, j: int)
    requires
        0 <= i < s.len(),
        0 <= j < s.len(),
    ensures
        swap_spec(s, i, j).len() == s.len(),
        forall|k: int| 0 <= k < s.len() ==> #[trigger] swap_spec(s, i, j)[k] == s[if k == i { j } else if k == j { i } else { k }],
        forall|x: Lit| swap_spec(s, i, j).contains(x) <==> s.contains(x),
        distinct_vars(s) ==> distinct_vars(swap_spec(s, i, j)),
{
    let t = swap_spec(s, i, j);
    assert forall|k: int| 0 <= k < s.len() implies #[trigger] t[k] == s[if k == i { j } else if k == j { i } else { k }] by {}
    assert forall|x: Lit| t.contains(x) <==> s.contains(x) by {
        if t.contains(x) {
            let k = choose|k: int| 0 <= k < t.len() && t[k] == x;
            let k2 = if k == i { j } else if k == j { i } else { k };
            assert(s[k2] == x);
        }
        if s.contains(x) {
            let k = choose|k: int| 0 <= k < s.len() && s[k] == x;
            let k2 = if k == i { j } else if k == j { i } else { k };
            assert(t[k2] == x);
        }
    }
    if distinct_vars(s) {
        assert forall|a: int, b: int| 0 <= a < t.len() && 0 <= b < t.len() && a != b implies #[trigger] t[a].var_spec() != #[trigger] t[b].var_spec() by {
            let a2 = if a == i { j } else if a == j { i } else { a };
            let b2 = if b == i { j } else if b == j { i } else { b };
            assert(s[a2].var_spec() != s[b2].var_spec());
        }
    }
}

/// Some position of `s` in `[a, b)` holds a literal of variable `v`.
pub open spec fn seg_has_var(s: Seq<Lit>, a: int, b: int, v: int) -> bool {
    exists|j: int| a <= j < b && s[j].var_spec() == v
}

/// `s` with the entries at `i` and `j` exchanged.
pub open spec fn swap_spec(s: Seq<Lit>, i: int, j: int) -> Seq<Lit> {
    s.update(i, s[j]).update(j, s[i])
}

/// The literals that `dedup` keeps are those of `s`.
pub proof fn lemma_dedup_contains(s: Seq<Lit>, x: Lit)
    ensures
        dedup(s).contains(x) <==> s.contains(x),
    decreases s.len(),
{
    if s.len() > 0 {
        lemma_dedup_contains(s.drop_last(), x);
        let d = dedup(s.drop_last());
        if s.contains(x) && !s.drop_last().contains(x) {
            let k = choose|k: int| 0 <= k < s.len() && s[k] == x;
            if k < s.len() - 1 {
                assert(s.drop_last()[k] == x);
            }
        }
        if s.drop_last().contains(x) {
            let k = choose|k: int| 0 <= k < s.drop_last().len() && s.drop_last()[k] == x;
            assert(s[k] == x);
        }
        if !d.contains(s.last()) {
            assert(d.push(s.last()).last() == s.last());
            if d.push(s.last()).contains(x) {
                let k = choose|k: int| 0 <= k < d.push(s.last()).len() && d.push(s.last())[k] == x;
                if k < d.len() {
                    assert(d[k] == x);
                }
            }
            if d.contains(x) {
                let k = choose|k: int| 0 <= k < d.len() && d[k] == x;
                assert(d.push(s.last())[k] == x);
            }
        }
    }
}

/// `dedup` never makes a sequence longer.
pub proof fn lemma_dedup_len(s: Seq<Lit>)
    ensures
        dedup(s).len() <= s.len(),
    decreases s.len(),
{
    if s.len() > 0 {
        lemma_dedup_len(s.drop_last());
    }
}

/// A sequence without a literal and its negation keeps distinct variables after `dedup`.
pub proof fn lemma_dedup_distinct_vars(s: Seq<Lit>)
    requires
        !is_tautology(s),
    ensures
        distinct_vars(dedup(s)),
    decreases s.len(),
{
    if s.len() > 0 {
        let t = s.drop_last();
        assert(!is_tautology(t)) by {
            if is_tautology(t) {
                let (i, j) = choose|i: int, j: int| 0 <= i < t.len() && 0 <= j < t.len() && #[trigger] t[i] == #[trigger] t[j].opposite();
                assert(s[i] == s[j].opposite());
            }
        }
        lemma_dedup_distinct_vars(t);
        let d = dedup(t);
        let x = s.last();
        if !d.contains(x) {
            let e = d.push(x);
            assert forall|i: int, j: int| 0 <= i < e.len() && 0 <= j < e.len() && i != j implies #[trigger] e[i].var_spec() != #[trigger] e[j].var_spec() by {
                if i < d.len() && j < d.len() {
                    assert(e[i] == d[i] && e[j] == d[j]);
                } else {
                    let k = if i < d.len() { i } else { j };
                    assert(k < d.len());
                    let y = d[k];
                    assert(d.contains(y));
                    lemma_dedup_contains(t, y);
                    let m = choose|m: int| 0 <= m < t.len() && t[m] == y;
                    if y.var_spec() == x.var_spec() {
                        crate::lit::lemma_lit_determined(y, x);
                        if y.is_pos_spec() == x.is_pos_spec() {
                            assert(false);
                        } else {
                            crate::lit::lemma_lit_determined(y, x.opposite());
                            assert(s[m] == s[s.len() - 1].opposite());
                            assert(false);
                        }
                    }
                }
            }
        }
    }
}

/// A sequence of literals with distinct variables, all below `n`, has at most `n` entries.
pub proof fn lemma_distinct_vars_len(s: Seq<Lit>, n: nat)
    requires
        distinct_vars(s),
        forall|k: int| 0 <= k < s.len() ==> #[trigger] s[k].var_spec() < n,
    ensures
        s.len() <= n,
{
    let vs = s.map_values(|l: Lit| l.var_spec() as int);
    assert(vs.no_duplicates()) by {
        assert forall|i: int, j: int| 0 <= i < vs.len() && 0 <= j < vs.len() && i != j implies vs[i] != vs[j] by {
            assert(s[i].var_spec() != s[j].var_spec());
        }
    }
    vs.unique_seq_to_set();
    vstd::set_lib::lemma_int_range(0, n as int);
    assert(vs.to_set().subset_of(vstd::set_lib::set_int_range(0, n as int))) by {
        assert forall|x: int| vs.to_set().contains(x) implies vstd::set_lib::set_int_range(0, n as int).contains(x) by {
            let k = choose|k: int| 0 <= k < vs.len() && vs[k] == x;
            assert(s[k].var_spec() < n);
        }
    }
    vstd::set_lib::lemma_len_subset(vs.to_set(), vstd::set_lib::set_int_range(0, n as int));
}

/// A sequence of literals with distinct variables, all below `n` and all other
/// than `u < n`, has fewer than `n` entries.
pub proof fn lemma_distinct_vars_len_excluding(s: Seq<Lit>, n: nat, u: nat)
    requires
        distinct_vars(s),
        u < n,
        forall|k: int| 0 <= k < s.len() ==> #[trigger] s[k].var_spec() < n && s[k].var_spec() != u,
    ensures
        s.len() < n,
{
    let vs = s.map_values(|l: Lit| l.var_spec() as int);
    assert(vs.no_duplicates()) by {
        assert forall|i: int, j: int| 0 <= i < vs.len() && 0 <= j < vs.len() && i != j implies vs[i] != vs[j] by {
            assert(s[i].var_spec() != s[j].var_spec());
        }
    }
    vs.unique_seq_to_set();
    vstd::set_lib::lemma_int_range(0, n as int);
    let r = vstd::set_lib::set_int_range(0, n as int);
    assert(r.contains(u as int));
    assert(vs.to_set().subset_of(r.remove(u as int))) by {
        assert forall|x: int| vs.to_set().contains(x) implies r.remove(u as int).contains(x) by {
            let k = choose|k: int| 0 <= k < vs.len() && vs[k] == x;
            assert(s[k].var_spec() < n && s[k].var_spec() != u);
        }
    }
    vstd::set_lib::lemma_len_subset(vs.to_set(), r.remove(u as int));
}

/// Appends to `pool` the literals of `lits` at their first occurrence, marking the
/// variable of each appended literal with its sign. Stops at the first literal whose
/// negation was appended before, and returns whether it stopped there.
fn append_unique(pool: &mut Vec<Lit>, lits: &[Lit], variables: &mut VariableDb) -> (is_tautology: bool)
    requires
        old(variables).wf(),
        forall|k: int| 0 <= k < lits@.len() ==> #[trigger] lits@[k].var_spec() < old(variables).num_vars(),
        forall|k: int| 0 <= k < lits@.len() ==> old(variables).seen_seq()[#[trigger] lits@[k].var_spec() as int] == Assignment(0),
    ensures
        final(pool)@.len() >= old(pool)@.len(),
        final(pool)@.subrange(0, old(pool)@.len() as int) == old(pool)@,
        is_tautology == crate::clause_db::is_tautology(lits@),
        !is_tautology ==> final(pool)@.subrange(old(pool)@.len() as int, final(pool)@.len() as int) == dedup(lits@),
        final(variables).wf(),
        final(variables).num_vars() == old(variables).num_vars(),
        final(variables).values_seq() == old(variables).values_seq(),
        final(variables).level_seq() == old(variables).level_seq(),
        final(variables).reason_seq() == old(variables).reason_seq(),
        distinct_vars(final(pool)@.subrange(old(pool)@.len() as int, final(pool)@.len() as int)),
        forall|j: int| old(pool)@.len() <= j < final(pool)@.len() ==> #[trigger] final(pool)@[j].var_spec() < old(variables).num_vars(),
        forall|j: int| old(pool)@.len() <= j < final(pool)@.len() ==> old(variables).seen_seq()[#[trigger] final(pool)@[j].var_spec() as int] == Assignment(0),
        forall|j: int| old(pool)@.len() <= j < final(pool)@.len() ==> final(variables).seen_seq()[#[trigger] final(pool)@[j].var_spec() as int] == Assignment::of_bool(final(pool)@[j].is_pos_spec()),
        forall|v: int| 0 <= v < old(variables).num_vars() && !seg_has_var(final(pool)@, old(pool)@.len() as int, final(pool)@.len() as int, v) ==> #[trigger] final(variables).seen_seq()[v] == old(variables).seen_seq()[v],
{
    let start = pool.len();
    let mut is_tautology = false;
    let len = lits.len();
        let mut k: usize = 0;
        while k < len
            invariant_except_break
                !is_tautology,
                !crate::clause_db::is_tautology(lits@.subrange(0, k as int)),
            invariant
                0 <= k <= len,
                len == lits@.len(),
                variables.wf(),
                variables.num_vars() == old(variables).num_vars(),
                variables.values_seq() == old(variables).values_seq(),
                variables.level_seq() == old(variables).level_seq(),
                variables.reason_seq() == old(variables).reason_seq(),
                forall|j: int| 0 <= j < lits@.len() ==> #[trigger] lits@[j].var_spec() < old(variables).num_vars(),
                forall|j: int| 0 <= j < lits@.len() ==> old(variables).seen_seq()[#[trigger] lits@[j].var_spec() as int] == Assignment(0),
                start == old(pool)@.len(),
                pool@.len() >= start,
                pool@.subrange(0, start as int) == old(pool)@,
                pool@.subrange(start as int, pool@.len() as int)
                    == dedup(lits@.subrange(0, k as int)),
                distinct_vars(pool@.subrange(start as int, pool@.len() as int)),
                forall|j: int| start <= j < pool@.len() ==> #[trigger] pool@[j].var_spec() < old(variables).num_vars(),
                forall|j: int| start <= j < pool@.len() ==> old(variables).seen_seq()[#[trigger] pool@[j].var_spec() as int] == Assignment(0),
                forall|j: int| start <= j < pool@.len() ==> variables.seen_seq()[#[trigger] pool@[j].var_spec() as int] == Assignment::of_bool(pool@[j].is_pos_spec()),
                forall|v: int| 0 <= v < variables.num_vars() && !seg_has_var(pool@, start as int, pool@.len() as int, v) ==> #[trigger] variables.seen_seq()[v] == old(variables).seen_seq()[v],
                is_tautology ==> crate::clause_db::is_tautology(lits@),
            ensures
                is_tautology || k == len,
                !is_tautology ==> !crate::clause_db::is_tautology(lits@.subrange(0, k as int)),
            decreases len - k,
        {
            let lit = lits[k];
            let var = lit.var();
            let next_seen = Assignment::from_lit(lit);
            let ghost prefix = lits@.subrange(0, k as int);
            let ghost d = dedup(prefix);
            assert(lits@.subrange(0, k + 1).drop_last() =~= prefix);
            assert(lits@.subrange(0, k + 1).last() == lit);
            let ghost tail = pool@.subrange(start as int, pool@.len() as int);
            assert(tail == d);
            assert(old(variables).seen_seq()[lits@[k as int].var_spec() as int] == Assignment(0));
            let seen = variables.get_seen(var);
            if seen == next_seen {
                // A literal already in the clause: skip it.
                proof {
                    assert(seg_has_var(pool@, start as int, pool@.len() as int, var as int));
                    let j = choose|j: int| start <= j < pool@.len() && pool@[j].var_spec() == var;
                    let y = pool@[j];
                    assert(variables.seen_seq()[y.var_spec() as int] == Assignment::of_bool(y.is_pos_spec()));
                    crate::lit::lemma_lit_determined(y, lit);
                    assert(tail[j - start] == lit);
                    assert(d.contains(lit));
                    lemma_no_taut_extend(lits@, k as int);
                    assert(dedup(lits@.subrange(0, k + 1)) == d);
                }
                k = k + 1;
                continue;
            }
            if !seen.is_empty() {
                proof {
                    assert(seg_has_var(pool@, start as int, pool@.len() as int, var as int));
                    let j = choose|j: int| start <= j < pool@.len() && pool@[j].var_spec() == var;
                    let y = pool@[j];
                    assert(variables.seen_seq()[y.var_spec() as int] == Assignment::of_bool(y.is_pos_spec()));
                    assert(tail[j - start] == y);
                    assert(d.contains(y));
                    lemma_dedup_contains(prefix, y);
                    let m = choose|m: int| 0 <= m < prefix.len() && prefix[m] == y;
                    crate::lit::lemma_lit_determined(y, lit.opposite());
                    assert(lits@[m] == lits@[k as int].opposite());
                }
                is_tautology = true;
                break;
            }
            proof {
                if seg_has_var(pool@, start as int, pool@.len() as int, var as int) {
                    let j = choose|j: int| start <= j < pool@.len() && pool@[j].var_spec() == var;
                    assert(variables.seen_seq()[pool@[j].var_spec() as int] == Assignment::of_bool(pool@[j].is_pos_spec()));
                    assert(false);
                }
                if d.contains(lit) {
                    let j = choose|j: int| 0 <= j < d.len() && d[j] == lit;
                    assert(pool@[start + j] == lit);
                    assert(false);
                }
            }
            let ghost prev_seen = variables.seen_seq();
            variables.set_seen(var, next_seen);
            let ghost before = pool@;
            pool.push(lit);
            proof {
                assert(pool@.subrange(0, start as int) =~= before.subrange(0, start as int));
                assert(pool@.subrange(start as int, pool@.len() as int) =~= d.push(lit));
                assert(dedup(lits@.subrange(0, k + 1)) == d.push(lit));
                lemma_no_taut_extend_new(lits@, k as int, start as int, before);
                let seg = pool@.subrange(start as int, pool@.len() as int);
                let oseg = before.subrange(start as int, before.len() as int);
                assert forall|a: int, b: int| 0 <= a < seg.len() && 0 <= b < seg.len() && a != b implies #[trigger] seg[a].var_spec() != #[trigger] seg[b].var_spec() by {
                    if a < oseg.len() && b < oseg.len() {
                        assert(seg[a] == oseg[a] && seg[b] == oseg[b]);
                    } else if a < oseg.len() {
                        assert(seg[a] == before[start + a]);
                    } else {
                        assert(seg[b] == before[start + b]);
                    }
                }
                assert forall|v: int| 0 <= v < variables.num_vars() && !seg_has_var(pool@, start as int, pool@.len() as int, v) implies #[trigger] variables.seen_seq()[v] == old(variables).seen_seq()[v] by {
                    assert(pool@[before.len() as int].var_spec() == var);
                    if v == var as int {
                        assert(seg_has_var(pool@, start as int, pool@.len() as int, v));
                    }
                    if seg_has_var(before, start as int, before.len() as int, v) {
                        let j = choose|j: int| start <= j < before.len() && before[j].var_spec() == v;
                        assert(pool@[j] == before[j]);
                        assert(seg_has_var(pool@, start as int, pool@.len() as int, v));
                    }
                    assert(variables.seen_seq()[v] == prev_seen[v]);
                }
                assert forall|j: int| start <= j < pool@.len() implies variables.seen_seq()[#[trigger] pool@[j].var_spec() as int] == Assignment::of_bool(pool@[j].is_pos_spec()) by {
                    if j < before.len() {
                        assert(pool@[j] == before[j]);
                        assert(before[j].var_spec() != var);
                        assert(prev_seen[before[j].var_spec() as int] == Assignment::of_bool(before[j].is_pos_spec()));
                    }
                }
                assert forall|j: int| start <= j < pool@.len() implies old(variables).seen_seq()[#[trigger] pool@[j].var_spec() as int] == Assignment(0) by {
                    if j < before.len() {
                        assert(pool@[j] == before[j]);
                    }
                }
            }
            k = k + 1;
        }
    proof {
        if !is_tautology {
            assert(lits@.subrange(0, len as int) =~= lits@);
        }
    }
    is_tautology
}

/// Clears the marks that `append_unique` set on the variables of `pool[start..]`.
fn clear_marks(pool: &Vec<Lit>, start: usize, variables: &mut VariableDb, orig: Ghost<Seq<Assignment>>)
    requires
        old(variables).wf(),
        start <= pool@.len(),
        orig@.len() == old(variables).num_vars(),
        distinct_vars(pool@.subrange(start as int, pool@.len() as int)),
        forall|j: int| start <= j < pool@.len() ==> #[trigger] pool@[j].var_spec() < old(variables).num_vars(),
        forall|j: int| start <= j < pool@.len() ==> orig@[#[trigger] pool@[j].var_spec() as int] == Assignment(0),
        forall|j: int| start <= j < pool@.len() ==> old(variables).seen_seq()[#[trigger] pool@[j].var_spec() as int] == Assignment::of_bool(pool@[j].is_pos_spec()),
        forall|v: int| 0 <= v < old(variables).num_vars() && !seg_has_var(pool@, start as int, pool@.len() as int, v) ==> #[trigger] old(variables).seen_seq()[v] == orig@[v],
    ensures
        final(variables).wf(),
        final(variables).num_vars() == old(variables).num_vars(),
        final(variables).values_seq() == old(variables).values_seq(),
        final(variables).level_seq() == old(variables).level_seq(),
        final(variables).reason_seq() == old(variables).reason_seq(),
        final(variables).seen_seq() == orig@,
{
        let end = pool.len();
        let mut i = start;
        while i < end
            invariant
                start <= i <= end,
                end == pool@.len(),
                variables.wf(),
                variables.num_vars() == old(variables).num_vars(),
                variables.values_seq() == old(variables).values_seq(),
                variables.level_seq() == old(variables).level_seq(),
                variables.reason_seq() == old(variables).reason_seq(),
                distinct_vars(pool@.subrange(start as int, end as int)),
                forall|j: int| start <= j < end ==> #[trigger] pool@[j].var_spec() < variables.num_vars(),
                forall|j: int| start <= j < end ==> orig@[#[trigger] pool@[j].var_spec() as int] == Assignment(0),
                forall|j: int| i <= j < end ==> variables.seen_seq()[#[trigger] pool@[j].var_spec() as int] == Assignment::of_bool(pool@[j].is_pos_spec()),
                forall|v: int| 0 <= v < variables.num_vars() && !seg_has_var(pool@, i as int, end as int, v) ==> #[trigger] variables.seen_seq()[v] == orig@[v],
            decreases end - i,
        {
            let v = pool[i].var();
            variables.reset_seen(v);
            proof {
                let seg = pool@.subrange(start as int, end as int);
                assert forall|j: int| i + 1 <= j < end implies variables.seen_seq()[#[trigger] pool@[j].var_spec() as int] == Assignment::of_bool(pool@[j].is_pos_spec()) by {
                    assert(seg[j - start].var_spec() != seg[i - start].var_spec());
                }
                assert forall|w: int| 0 <= w < variables.num_vars() && !seg_has_var(pool@, i + 1, end as int, w) implies #[trigger] variables.seen_seq()[w] == orig@[w] by {
                    if w == v as int {
                        assert(orig@[pool@[i as int].var_spec() as int] == Assignment(0));
                    } else if seg_has_var(pool@, i as int, end as int, w) {
                        let j = choose|j: int| i <= j < end && pool@[j].var_spec() == w;
                        assert(j != i);
                        assert(false);
                    }
                }
            }
            i = i + 1;
        }
    proof {
        assert forall|w: int| 0 <= w < variables.num_vars() implies #[trigger] variables.seen_seq()[w] == orig@[w] by {
            assert(!seg_has_var(pool@, end as int, end as int, w));
        }
        assert(variables.seen_seq() =~= orig@);
    }
}

/// Extending a prefix that has no complementary pair by a literal already kept
/// keeps it free of complementary pairs.
proof fn lemma_no_taut_extend(lits: Seq<Lit>, k: int)
    requires
        0 <= k < lits.len(),
        !is_tautology(lits.subrange(0, k)),
        dedup(lits.subrange(0, k)).contains(lits[k]),
    ensures
        !is_tautology(lits.subrange(0, k + 1)),
{
    let p = lits.subrange(0, k);
    let q = lits.subrange(0, k + 1);
    lemma_dedup_contains(p, lits[k]);
    let m = choose|m: int| 0 <= m < p.len() && p[m] == lits[k];
    if is_tautology(q) {
        let (i, j) = choose|i: int, j: int| 0 <= i < q.len() && 0 <= j < q.len() && #[trigger] q[i] == #[trigger] q[j].opposite();
        let i2 = if i == k { m } else { i };
        let j2 = if j == k { m } else { j };
        assert(p[i2] == q[i] && p[j2] == q[j]);
        assert(p[i2] == p[j2].opposite());
    }
}

/// Extending a prefix by a literal whose variable is not yet in it keeps it
/// free of complementary pairs.
proof fn lemma_no_taut_extend_new(lits: Seq<Lit>, k: int, literal_start: int, before: Seq<Lit>)
    requires
        0 <= k < lits.len(),
        !is_tautology(lits.subrange(0, k)),
        0 <= literal_start <= before.len(),
        before.subrange(literal_start, before.len() as int) == dedup(lits.subrange(0, k)),
        forall|j: int| literal_start <= j < before.len() ==> before[j].var_spec() != lits[k].var_spec(),
    ensures
        !is_tautology(lits.subrange(0, k + 1)),
{
    let p = lits.subrange(0, k);
    let q = lits.subrange(0, k + 1);
    if is_tautology(q) {
        let (i, j) = choose|i: int, j: int| 0 <= i < q.len() && 0 <= j < q.len() && #[trigger] q[i] == #[trigger] q[j].opposite();
        if i == k || j == k {
            let o = if i == k { j } else { i };
            crate::lit::lemma_neg_involution(q[j]);
            assert(q[o].var_spec() == lits[k].var_spec());
            if o == k {
                crate::lit::lemma_neg_involution(q[k]);
                assert(false);
            }
            assert(p.contains(q[o]));
            lemma_dedup_contains(p, q[o]);
            let t = choose|t: int| 0 <= t < dedup(p).len() && dedup(p)[t] == q[o];
            assert(before[literal_start + t] == q[o]);
            assert(false);
        } else {
            assert(p[i] == p[j].opposite());
        }
    }
}

/// A contiguous range of the pool that holds the literals of one clause.
#[derive(Clone, Copy, Debug)]
pub struct ClauseAccessor {
    begin: usize,
    post_end: usize,
}

impl ClauseAccessor {
    #[verifier::type_invariant]
    spec fn range_ok(self) -> bool {
        self.begin <= self.post_end
    }

    /// Where the clause's literals start in the pool.
    pub closed spec fn begin_spec(self) -> nat {
        self.begin as nat
    }

    /// Where the clause's literals end in the pool (exclusive).
    pub closed spec fn end_spec(self) -> nat {
        self.post_end as nat
    }

    /// The number of literals of the clause.
    pub closed spec fn len_spec(self) -> nat {
        (self.post_end - self.begin) as nat
    }

    /// The number of literals of the clause.
    pub fn len(&self) -> (n: usize)
        ensures
            n == self.len_spec(),
    {
        proof {
            use_type_invariant(self);
        }
        self.post_end - self.begin
    }

    /// Whether the clause has no literal.
    pub fn is_empty(&self) -> (b: bool)
        ensures
            b == (self.len_spec() == 0),
    {
        proof {
            use_type_invariant(self);
        }
        self.post_end == self.begin
    }
}

/// All clauses, stored back to back in one pool of literals. Clause `i` starts
/// at `offsets[i]` with a header whose code is the clause's length, followed by
/// its literals.
pub struct ClauseDb {
    pool: Vec<Lit>,
    offsets: Vec<usize>,
}

impl ClauseDb {
    /// The number of literals of clause `i`, as its header holds it.
    closed spec fn size_at(self, i: int) -> int {
        self.pool@[self.offsets@[i] as int].0 as int
    }

    /// Where clause `i` ends in the pool (exclusive).
    closed spec fn clause_end(self, i: int) -> int {
        self.offsets@[i] + 1 + self.size_at(i)
    }

    /// Where the clause after clause `i` starts, or the pool's end.
    closed spec fn next_start(self, i: int) -> int {
        if i + 1 < self.offsets@.len() {
            self.offsets@[i + 1] as int
        } else {
            self.pool@.len() as int
        }
    }

    /// The pool is laid out as described above and ids fit below `NULL_CLAUSE`.
    pub closed spec fn wf(self) -> bool {
        &&& self.offsets@.len() < NULL_CLAUSE
        &&& self.pool@.len() <= usize::MAX
        &&& (self.offsets@.len() == 0 ==> self.pool@.len() == 0)
        &&& (self.offsets@.len() > 0 ==> self.offsets@[0] == 0)
        &&& forall|i: int|
            0 <= i < self.offsets@.len() ==> {
                &&& #[trigger] self.offsets@[i] < self.pool@.len()
                &&& self.clause_end(i) == self.next_start(i)
            }
    }

    /// The pool of literals, headers included.
    pub closed spec fn pool_seq(self) -> Seq<Lit> {
        self.pool@
    }

    /// Where each clause's header is in the pool.
    pub closed spec fn offsets_seq(self) -> Seq<usize> {
        self.offsets@
    }

    /// The stored clauses, in id order.
    pub closed spec fn clauses(self) -> Seq<Seq<Lit>> {
        Seq::new(
            self.offsets@.len(),
            |i: int| self.pool@.subrange(self.offsets@[i] + 1, self.clause_end(i)),
        )
    }

    /// The number of stored clauses.
    pub open spec fn num_clauses(self) -> nat {
        self.clauses().len()
    }

    /// The accessor that `get(id)` returns.
    pub closed spec fn spec_get(self, id: int) -> ClauseAccessor {
        ClauseAccessor {
            begin: (self.offsets@[id] + 1) as usize,
            post_end: self.clause_end(id) as usize,
        }
    }

    /// The literals that `c` designates in the pool.
    pub closed spec fn accessor_lits(self, c: ClauseAccessor) -> Seq<Lit> {
        self.pool@.subrange(c.begin as int, c.post_end as int)
    }

    /// `c` designates a range inside the pool.
    pub closed spec fn accessor_valid(self, c: ClauseAccessor) -> bool {
        c.post_end <= self.pool@.len()
    }

    /// `c` is the accessor of some stored clause.
    pub open spec fn is_accessor(self, c: ClauseAccessor) -> bool {
        exists|id: int| 0 <= id < self.num_clauses() && self.spec_get(id) == c
    }

    /// What the accessor of a clause designates, and how long it is.
    pub proof fn lemma_spec_get(self, id: int)
        requires
            self.wf(),
            0 <= id < self.num_clauses(),
        ensures
            self.accessor_valid(self.spec_get(id)),
            self.accessor_lits(self.spec_get(id)) == self.clauses()[id],
            self.spec_get(id).len_spec() == self.clauses()[id].len(),
    {
        self.lemma_clause_bounds(id);
        let c = self.spec_get(id);
        assert(c.begin == self.offsets@[id] + 1);
        assert(c.post_end == self.clause_end(id));
        assert(self.clauses()[id] == self.pool@.subrange(self.offsets@[id] + 1, self.clause_end(id)));
    }

    /// Clause `id` lies between its header and the next clause.
    proof fn lemma_clause_bounds(self, id: int)
        requires
            self.wf(),
            0 <= id < self.offsets@.len(),
        ensures
            self.offsets@[id] + 1 <= self.clause_end(id) <= self.pool@.len(),
            forall|j: int| id < j < self.offsets@.len() ==> self.clause_end(id) <= #[trigger] self.offsets@[j],
        decreases self.offsets@.len() - id,
    {
        if id + 1 < self.offsets@.len() {
            self.lemma_clause_bounds(id + 1);
        }
    }

    /// Accessors of different clauses designate disjoint ranges.
    proof fn lemma_disjoint(self, a: int, b: int)
        requires
            self.wf(),
            0 <= a < b < self.offsets@.len(),
        ensures
            self.clause_end(a) <= self.offsets@[b],
    {
        self.lemma_clause_bounds(a);
    }

    /// Clause ids stay below `NULL_CLAUSE`.
    pub proof fn lemma_num_bound(self)
        requires
            self.wf(),
        ensures
            self.num_clauses() < NULL_CLAUSE,
    {
    }

    /// Different clauses have different accessors.
    pub proof fn lemma_get_injective(self, a: int, b: int)
        requires
            self.wf(),
            0 <= a < self.num_clauses(),
            0 <= b < self.num_clauses(),
            self.spec_get(a) == self.spec_get(b),
        ensures
            a == b,
    {
        if a < b {
            self.lemma_clause_bounds(a);
            self.lemma_disjoint(a, b);
        } else if b < a {
            self.lemma_clause_bounds(b);
            self.lemma_disjoint(b, a);
        }
    }

    /// An empty database.
    pub fn new() -> (db: ClauseDb)
        ensures
            db.wf(),
            db.clauses() == Seq::<Seq<Lit>>::empty(),
    {
        let db = ClauseDb { pool: Vec::new(), offsets: Vec::new() };
        assert(db.clauses() =~= Seq::<Seq<Lit>>::empty());
        db
    }

    /// The number of stored clauses.
    pub fn len(&self) -> (n: usize)
        requires
            self.wf(),
        ensures
            n == self.num_clauses(),
    {
        self.offsets.len()
    }

    /// Whether no clause is stored.
    pub fn is_empty(&self) -> (b: bool)
        requires
            self.wf(),
        ensures
            b == (self.num_clauses() == 0),
    {
        self.offsets.len() == 0
    }

    /// Pushes the clause of `lits`, with repeated literals dropped, and returns its id.
    ///
    /// A clause with a literal and its negation is a tautology: nothing is stored and
    /// `NULL_CLAUSE` is returned. Any other clause, the empty one included, is stored.
    /// The marks of `variables` are used while the clause is built and left as they were.
    pub fn push(&mut self, lits: &[Lit], variables: &mut VariableDb) -> (id: ClauseId)
        requires
            old(self).wf(),
            old(self).num_clauses() + 1 < NULL_CLAUSE,
            lits@.len() <= u32::MAX,
            old(variables).wf(),
            forall|k: int| 0 <= k < lits@.len() ==> #[trigger] lits@[k].var_spec() < old(variables).num_vars(),
            forall|k: int| 0 <= k < lits@.len() ==> old(variables).seen_seq()[#[trigger] lits@[k].var_spec() as int] == Assignment(0),
        ensures
            final(self).wf(),
            final(variables).wf(),
            final(variables).num_vars() == old(variables).num_vars(),
            final(variables).values_seq() == old(variables).values_seq(),
            final(variables).seen_seq() == old(variables).seen_seq(),
            final(variables).level_seq() == old(variables).level_seq(),
            final(variables).reason_seq() == old(variables).reason_seq(),
            is_tautology(lits@) ==> id == NULL_CLAUSE && final(self).clauses() == old(self).clauses(),
            !is_tautology(lits@) ==> id == old(self).num_clauses() && final(self).clauses()
                == old(self).clauses().push(dedup(lits@)),
            forall|j: int| 0 <= j < old(self).num_clauses() ==> #[trigger] final(self).spec_get(j) == old(self).spec_get(j),
    {
        let ghost old_db = *self;
        let ghost n = self.offsets@.len();
        let clause_id = self.offsets.len() as ClauseId;
        let clause_start = self.pool.len();
        self.offsets.push(clause_start);

        // The header is the clause's length; it is fixed once the literals are known.
        let stored_size = Lit(lits.len() as u32);
        self.pool.push(stored_size);
        let literal_start = self.pool.len();
        let ghost orig_seen = variables.seen_seq();
        let ghost with_header = self.pool@;
        assert(with_header == old_db.pool@.push(stored_size));
        let is_tautology = append_unique(&mut self.pool, lits, variables);
        clear_marks(&self.pool, literal_start, variables, Ghost(orig_seen));
        proof {
            assert(variables.seen_seq() =~= old(variables).seen_seq());
        }
        if is_tautology {
            self.offsets.pop();
            self.pool.truncate(clause_start);
            proof {
                assert(self.offsets@ =~= old_db.offsets@);
                assert(self.pool@ =~= old_db.pool@);
            }
            NULL_CLAUSE
        } else {
            proof {
                lemma_dedup_len(lits@);
            }
            let kept = self.pool.len() - literal_start;
            let ghost before = self.pool@;
            self.pool.set(clause_start, Lit(kept as u32));
            let _final_len = self.pool.len();
            proof {
                assert(before.subrange(0, literal_start as int)[clause_start as int] == stored_size);
                assert forall|t: int| 0 <= t < clause_start implies self.pool@[t] == old_db.pool@[t] by {
                    assert(before.subrange(0, literal_start as int)[t] == before[t]);
                }
                assert(self.pool@.subrange(0, clause_start as int) =~= old_db.pool@);
                assert(self.pool@.subrange(literal_start as int, self.pool@.len() as int)
                    =~= before.subrange(literal_start as int, before.len() as int));
                self.lemma_push_layout(old_db, clause_start as int, dedup(lits@));
            }
            clause_id
        }
    }

    /// The layout part of `lemma_push_layout`.
    proof fn lemma_push_layout_wf(self, old_db: ClauseDb, clause_start: int, kept: Seq<Lit>)
        requires
            old_db.wf(),
            old_db.offsets@.len() + 1 < NULL_CLAUSE,
            clause_start == old_db.pool@.len(),
            self.offsets@ == old_db.offsets@.push(clause_start as usize),
            self.pool@.len() == clause_start + 1 + kept.len(),
            self.pool@.subrange(0, clause_start) == old_db.pool@,
            self.pool@[clause_start].0 == kept.len(),
            self.pool@.len() <= usize::MAX,
        ensures
            self.wf(),
            forall|i: int| 0 <= i < old_db.offsets@.len() ==> #[trigger] self.clause_end(i) == old_db.clause_end(i),
    {
        let n = old_db.offsets@.len() as int;
        assert forall|i: int| 0 <= i < n implies #[trigger] self.clause_end(i) == old_db.clause_end(i) by {
            assert(self.offsets@[i] == old_db.offsets@[i]);
            assert(old_db.offsets@[i] < old_db.pool@.len());
            assert(self.pool@.subrange(0, clause_start)[old_db.offsets@[i] as int] == self.pool@[old_db.offsets@[i] as int]);
        }
        assert forall|i: int| 0 <= i < self.offsets@.len() implies {
            &&& #[trigger] self.offsets@[i] < self.pool@.len()
            &&& self.clause_end(i) == self.next_start(i)
        } by {
            if i < n {
                assert(self.clause_end(i) == old_db.clause_end(i));
                assert(old_db.clause_end(i) == old_db.next_start(i));
                if i + 1 < n {
                    assert(self.offsets@[i + 1] == old_db.offsets@[i + 1]);
                } else {
                    assert(self.offsets@[i + 1] == clause_start);
                }
            } else {
                assert(self.offsets@[i] == clause_start);
            }
        }
    }

    /// After the header of a new last clause is written, the database holds the old
    /// clauses followed by the new one.
    proof fn lemma_push_layout(self, old_db: ClauseDb, clause_start: int, kept: Seq<Lit>)
        requires
            old_db.wf(),
            old_db.offsets@.len() + 1 < NULL_CLAUSE,
            clause_start == old_db.pool@.len(),
            self.offsets@ == old_db.offsets@.push(clause_start as usize),
            self.pool@.len() == clause_start + 1 + kept.len(),
            self.pool@.subrange(0, clause_start) == old_db.pool@,
            self.pool@[clause_start].0 == kept.len(),
            self.pool@.subrange(clause_start + 1, self.pool@.len() as int) == kept,
            self.pool@.len() <= usize::MAX,
        ensures
            self.wf(),
            self.clauses() == old_db.clauses().push(kept),
            forall|j: int| 0 <= j < old_db.clauses().len() ==> #[trigger] self.spec_get(j) == old_db.spec_get(j),
    {
        let n = old_db.offsets@.len() as int;
        self.lemma_push_layout_wf(old_db, clause_start, kept);
        assert forall|i: int| 0 <= i < n implies self.pool@[#[trigger] self.offsets@[i] as int] == old_db.pool@[old_db.offsets@[i] as int] by {
            assert(self.offsets@[i] == old_db.offsets@[i]);
            assert(old_db.offsets@[i] < old_db.pool@.len());
            assert(self.pool@.subrange(0, clause_start)[old_db.offsets@[i] as int] == self.pool@[old_db.offsets@[i] as int]);
        }
        assert forall|i: int| 0 <= i < n implies #[trigger] self.clause_end(i) == old_db.clause_end(i) by {
            assert(self.pool@[self.offsets@[i] as int] == old_db.pool@[old_db.offsets@[i] as int]);
        }
        assert(self.wf());
        assert forall|i: int| 0 <= i < n implies #[trigger] self.clauses()[i] == old_db.clauses()[i] by {
            old_db.lemma_clause_bounds(i);
            assert(self.clauses()[i] =~= old_db.clauses()[i]) by {
                assert forall|t: int| 0 <= t < self.clauses()[i].len() implies self.clauses()[i][t] == old_db.clauses()[i][t] by {
                    assert(self.pool@.subrange(0, clause_start)[self.offsets@[i] + 1 + t] == self.pool@[self.offsets@[i] + 1 + t]);
                }
            }
        }
        assert(self.clauses()[n] =~= kept);
        assert(self.clauses() =~= old_db.clauses().push(kept));
        assert forall|j: int| 0 <= j < old_db.clauses().len() implies #[trigger] self.spec_get(j) == old_db.spec_get(j) by {
            assert(self.clause_end(j) == old_db.clause_end(j));
        }
    }

    /// Pushing a clause that is no tautology and then dropping the last clause
    /// gives back the clauses there were, each read through the same accessor as
    /// before (the states are those that `push` and then `drop_last_clause`
    /// leave).
    pub proof fn lemma_push_then_drop(before: ClauseDb, pushed: ClauseDb, after: ClauseDb, lits: Seq<Lit>)
        requires
            !is_tautology(lits),
            pushed.clauses() == before.clauses().push(dedup(lits)),
            forall|j: int| 0 <= j < before.num_clauses() ==> #[trigger] pushed.spec_get(j) == before.spec_get(j),
            after.clauses() == pushed.clauses().drop_last(),
            forall|j: int| 0 <= j < after.num_clauses() ==> #[trigger] after.spec_get(j) == pushed.spec_get(j),
        ensures
            after.clauses() == before.clauses(),
            forall|j: int| 0 <= j < before.num_clauses() ==> #[trigger] after.spec_get(j) == before.spec_get(j),
    {
        assert(before.clauses().push(dedup(lits)).drop_last() =~= before.clauses());
    }

    /// Removes the last clause, if there is one.
    #[verifier::spinoff_prover]
    #[verifier::rlimit(40)]
    pub fn drop_last_clause(&mut self)
        requires
            old(self).wf(),
        ensures
            final(self).wf(),
            old(self).num_clauses() == 0 ==> final(self).clauses() == old(self).clauses(),
            old(self).num_clauses() > 0 ==> final(self).clauses() == old(self).clauses().drop_last(),
            forall|j: int| 0 <= j < final(self).num_clauses() ==> #[trigger] final(self).spec_get(j) == old(self).spec_get(j),
    {
        let ghost old_db = *self;
        if let Some(last_offset) = self.offsets.pop() {
            self.pool.truncate(last_offset);
            proof {
                let n = self.offsets@.len() as int;
                old_db.lemma_clause_bounds(n);
                assert forall|i: int| 0 <= i < n implies #[trigger] self.clause_end(i) == old_db.clause_end(i) by {
                    old_db.lemma_clause_bounds(i);
                    old_db.lemma_disjoint(i, n);
                    assert(self.pool@[self.offsets@[i] as int] == old_db.pool@[old_db.offsets@[i] as int]);
                }
                assert forall|i: int| 0 <= i < n implies {
                    &&& #[trigger] self.offsets@[i] < self.pool@.len()
                    &&& self.clause_end(i) == self.next_start(i)
                } by {
                    old_db.lemma_clause_bounds(i);
                    old_db.lemma_disjoint(i, n);
                }
                assert forall|i: int| 0 <= i < n implies #[trigger] self.clauses()[i] == old_db.clauses()[i] by {
                    old_db.lemma_clause_bounds(i);
                    old_db.lemma_disjoint(i, n);
                    assert(self.clauses()[i] =~= old_db.clauses()[i]);
                }
                assert(self.clauses() =~= old_db.clauses().drop_last());
                assert forall|j: int| 0 <= j < n implies #[trigger] self.spec_get(j) == old_db.spec_get(j) by {
                    assert(self.clause_end(j) == old_db.clause_end(j));
                }
            }
        }
    }

    /// The accessor of clause `id`.
    pub fn get(&self, id: ClauseId) -> (c: ClauseAccessor)
        requires
            self.wf(),
            id < self.num_clauses(),
        ensures
            c == self.spec_get(id as int),
            self.accessor_valid(c),
            self.accessor_lits(c) == self.clauses()[id as int],
            c.len_spec() == self.clauses()[id as int].len(),
    {
        proof {
            self.lemma_clause_bounds(id as int);
        }
        let header_pos = self.offsets[id as usize];
        let size = self.pool[header_pos].0 as usize;
        let begin = header_pos + 1;
        ClauseAccessor { begin, post_end: begin + size }
    }

    /// The literals of the clause that `clause` designates.
    pub fn literals(&self, clause: ClauseAccessor) -> (lits: &[Lit])
        requires
            self.accessor_valid(clause),
        ensures
            lits@ == self.accessor_lits(clause),
    {
        proof {
            use_type_invariant(&clause);
        }
        let s = self.pool.as_slice();
        &s[clause.begin..clause.post_end]
    }

    /// The literals of the clause that `clause` designates, for writing.
    #[verifier::rlimit(100)]
    pub fn literals_mut(&mut self, clause: ClauseAccessor) -> (lits: &mut [Lit])
        requires
            old(self).wf(),
            old(self).is_accessor(clause),
        ensures
            lits@ == old(self).accessor_lits(clause),
            final(self).offsets_seq() == old(self).offsets_seq(),
            final(self).pool_seq() == old(self).pool_seq().subrange(0, clause.begin_spec() as int) + final(lits)@
                + old(self).pool_seq().subrange(clause.end_spec() as int, old(self).pool_seq().len() as int),
    {
        proof {
            use_type_invariant(&clause);
            let id = choose|id: int| 0 <= id < old(self).num_clauses() && old(self).spec_get(id) == clause;
            self.lemma_clause_bounds(id);
        }
        let ghost old_db = *self;
        let begin = clause.begin;
        let len = clause.post_end - clause.begin;
        let s = self.pool.as_mut_slice();
        let (head, tail) = s.split_at_mut(begin);
        let (mid, rest) = tail.split_at_mut(len);
        proof {
            assert(has_resolved(head));
            assert(has_resolved(rest));
        }
        mid
    }

    /// What a database holds after the literals that `literals_mut(clause)` handed
    /// out were overwritten by `written` (a slice keeps its length): the same layout,
    /// with `written` in place of the clause.
    pub proof fn lemma_literals_written(old_db: ClauseDb, new_db: ClauseDb, clause: ClauseAccessor, written: Seq<Lit>)
        requires
            old_db.wf(),
            old_db.is_accessor(clause),
            written.len() == clause.len_spec(),
            new_db.offsets_seq() == old_db.offsets_seq(),
            new_db.pool_seq() == old_db.pool_seq().subrange(0, clause.begin_spec() as int) + written
                + old_db.pool_seq().subrange(clause.end_spec() as int, old_db.pool_seq().len() as int),
        ensures
            new_db.wf(),
            new_db.num_clauses() == old_db.num_clauses(),
            forall|j: int| 0 <= j < old_db.num_clauses() ==> #[trigger] new_db.spec_get(j) == old_db.spec_get(j),
            forall|j: int| 0 <= j < old_db.num_clauses() ==> #[trigger] new_db.clauses()[j] == if old_db.spec_get(j) == clause {
                written
            } else {
                old_db.clauses()[j]
            },
    {
        let id = choose|id: int| 0 <= id < old_db.num_clauses() && old_db.spec_get(id) == clause;
        old_db.lemma_spec_get(id);
        old_db.lemma_clause_bounds(id);
        assert forall|t: int| 0 <= t < new_db.pool@.len() && !(old_db.offsets@[id] + 1 <= t < old_db.clause_end(id))
            implies new_db.pool@[t] == old_db.pool@[t] by {
            if t < clause.begin {
                assert(new_db.pool@[t] == old_db.pool@.subrange(0, clause.begin as int)[t]);
            } else {
                assert(new_db.pool@[t] == old_db.pool@.subrange(clause.post_end as int, old_db.pool@.len() as int)[t - clause.post_end]);
            }
        }
        assert(new_db.edits_only(old_db, id));
        new_db.lemma_range_edit(old_db, id);
        assert(new_db.accessor_lits(clause) =~= written);
        assert forall|j: int| 0 <= j < old_db.num_clauses() && old_db.spec_get(j) == clause implies j == id by {
            if j != id {
                old_db.lemma_clause_bounds(j);
                if j < id {
                    old_db.lemma_disjoint(j, id);
                } else {
                    old_db.lemma_disjoint(id, j);
                }
            }
        }
    }

    /// Exchanges the literals at positions `i` and `j` of clause `id`; nothing else changes.
    pub fn swap_literals(&mut self, id: Ghost<int>, clause: ClauseAccessor, i: usize, j: usize)
        requires
            old(self).wf(),
            0 <= id@ < old(self).num_clauses(),
            clause == old(self).spec_get(id@),
            i < clause.len_spec(),
            j < clause.len_spec(),
        ensures
            final(self).wf(),
            final(self).num_clauses() == old(self).num_clauses(),
            forall|k: int| 0 <= k < old(self).num_clauses() ==> #[trigger] final(self).spec_get(k) == old(self).spec_get(k),
            final(self).clauses() == old(self).clauses().update(id@, swap_spec(old(self).clauses()[id@], i as int, j as int)),
    {
        proof {
            use_type_invariant(&clause);
            self.lemma_clause_bounds(id@);
        }
        let ghost old_db = *self;
        let a = clause.begin + i;
        let b = clause.begin + j;
        let x = self.pool[a];
        let y = self.pool[b];
        self.pool.set(a, y);
        self.pool.set(b, x);
        proof {
            assert(self.edits_only(old_db, id@));
            self.lemma_range_edit(old_db, id@);
            assert(self.clauses()[id@] =~= swap_spec(old_db.clauses()[id@], i as int, j as int));
            assert(self.clauses() =~= old_db.clauses().update(id@, swap_spec(old_db.clauses()[id@], i as int, j as int)));
        }
    }

    /// `self` differs from `old_db` only inside the literals of clause `id`.
    pub closed spec fn edits_only(self, old_db: ClauseDb, id: int) -> bool {
        &&& self.offsets@ == old_db.offsets@
        &&& self.pool@.len() == old_db.pool@.len()
        &&& forall|t: int|
            0 <= t < self.pool@.len() && !(old_db.offsets@[id] + 1 <= t < old_db.clause_end(id))
                ==> self.pool@[t] == old_db.pool@[t]
    }

    /// Writing inside the literals of clause `id` keeps the layout and every other clause.
    proof fn lemma_range_edit(self, old_db: ClauseDb, id: int)
        requires
            old_db.wf(),
            0 <= id < old_db.offsets@.len(),
            self.edits_only(old_db, id),
        ensures
            self.wf(),
            forall|k: int| 0 <= k < old_db.offsets@.len() ==> #[trigger] self.spec_get(k) == old_db.spec_get(k),
            forall|k: int| 0 <= k < old_db.offsets@.len() && k != id ==> #[trigger] self.clauses()[k] == old_db.clauses()[k],
            self.clauses().len() == old_db.clauses().len(),
            self.clauses()[id] == self.pool@.subrange(old_db.offsets@[id] + 1, old_db.clause_end(id)),
            self.clauses()[id] == self.accessor_lits(old_db.spec_get(id)),
    {
        let n = old_db.offsets@.len() as int;
        old_db.lemma_clause_bounds(id);
        assert forall|k: int| 0 <= k < n implies #[trigger] self.clause_end(k) == old_db.clause_end(k) by {
            old_db.lemma_clause_bounds(k);
            if k < id {
                old_db.lemma_disjoint(k, id);
            } else if k > id {
                old_db.lemma_disjoint(id, k);
            }
            assert(self.pool@[self.offsets@[k] as int] == old_db.pool@[old_db.offsets@[k] as int]);
        }
        assert forall|k: int| 0 <= k < n implies {
            &&& #[trigger] self.offsets@[k] < self.pool@.len()
            &&& self.clause_end(k) == self.next_start(k)
        } by {
            assert(self.clause_end(k) == old_db.clause_end(k));
        }
        assert forall|k: int| 0 <= k < n implies #[trigger] self.spec_get(k) == old_db.spec_get(k) by {
            assert(self.clause_end(k) == old_db.clause_end(k));
        }
        assert forall|k: int| 0 <= k < n && k != id implies #[trigger] self.clauses()[k] == old_db.clauses()[k] by {
            old_db.lemma_clause_bounds(k);
            if k < id {
                old_db.lemma_disjoint(k, id);
            } else {
                old_db.lemma_disjoint(id, k);
            }
            assert(self.clause_end(k) == old_db.clause_end(k));
            assert(self.clauses()[k] =~= old_db.clauses()[k]);
        }
        assert(self.clause_end(id) == old_db.clause_end(id));
    }

    /// Makes sure that the falsified literal `falsified_lit` sits in the second
    /// watched position.
    ///
    /// The first two literals of a clause are its watched positions. If
    /// `falsified_lit` is the first one, the first two are exchanged. It must be
    /// one of the first two literals of the clause.
    pub fn ensure_falsified_at_pos1(&mut self, clause: ClauseAccessor, falsified_lit: Lit) -> (r: Option<()>)
        requires
            old(self).wf(),
            old(self).is_accessor(clause),
            clause.len_spec() >= 2,
            ({
                let id = choose|id: int| 0 <= id < old(self).num_clauses() && old(self).spec_get(id) == clause;
                let c = old(self).clauses()[id];
                c[0] == falsified_lit || c[1] == falsified_lit
            }),
        ensures
            final(self).wf(),
            final(self).num_clauses() == old(self).num_clauses(),
            forall|k: int| 0 <= k < old(self).num_clauses() ==> #[trigger] final(self).spec_get(k) == old(self).spec_get(k),
            r == Some(()),
            ({
                let id = choose|id: int| 0 <= id < old(self).num_clauses() && old(self).spec_get(id) == clause;
                let c = old(self).clauses()[id];
                final(self).clauses() == if c[0] == falsified_lit {
                    old(self).clauses().update(id, swap_spec(c, 0, 1))
                } else {
                    old(self).clauses()
                }
            }),
    {
        let ghost id = choose|id: int| 0 <= id < old(self).num_clauses() && old(self).spec_get(id) == clause;
        proof {
            self.lemma_spec_get(id);
        }
        let lits = self.literals(clause);
        let first = lits[0];
        if first == falsified_lit {
            self.swap_literals(Ghost(id), clause, 0, 1);
        }
        Some(())
    }
}

impl Default for ClauseDb {
    fn default() -> (db: ClauseDb)
        ensures
            db.wf(),
            db.clauses() == Seq::<Seq<Lit>>::empty(),
    {
        ClauseDb::new()
    }
}

/// A sequence of distinct variables is no tautology and `dedup` keeps it whole.
pub proof fn lemma_dedup_of_distinct(s: Seq<Lit>)
    requires
        distinct_vars(s),
    ensures
        dedup(s) == s,
        !is_tautology(s),
    decreases s.len(),
{
    if s.len() > 0 {
        let t = s.drop_last();
        assert(distinct_vars(t)) by {
            assert forall|i: int, j: int| 0 <= i < t.len() && 0 <= j < t.len() && i != j implies #[trigger] t[i].var_spec() != #[trigger] t[j].var_spec() by {
                assert(t[i] == s[i] && t[j] == s[j]);
            }
        }
        lemma_dedup_of_distinct(t);
        assert(!t.contains(s.last())) by {
            if t.contains(s.last()) {
                let k = choose|k: int| 0 <= k < t.len() && t[k] == s.last();
                assert(s[k].var_spec() != s[s.len() - 1].var_spec());
            }
        }
        assert(t.push(s.last()) =~= s);
    } else {
        assert(dedup(s) =~= s);
    }
    assert(!is_tautology(s)) by {
        if is_tautology(s) {
            let (i, j) = choose|i: int, j: int| 0 <= i < s.len() && 0 <= j < s.len() && #[trigger] s[i] == #[trigger] s[j].opposite();
            if i == j {
                assert(s[i] != s[i].opposite());
            } else {
                assert(s[i].var_spec() == s[j].var_spec());
            }
        }
    }
}

} // verus!
