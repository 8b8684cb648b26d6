//! The mathematical reading of formulas: total assignments, satisfaction,
//! satisfiability of a subformula selected by clause indices, and entailment
//! of a clause by such a subformula.  The solver's contracts are stated over
//! these functions, and the resolution lemma here is what justifies every
//! learned clause.

use vstd::prelude::*;

use crate::literal::Literal;

verus! {

/// A literal holds under a total assignment when its variable is in range and
/// carries the literal's polarity.
pub open spec fn lit_sat(m: Seq<bool>, l: Literal) -> bool {
    l.v_id < m.len() && m[l.v_id as int] == l.polarity
}

/// A clause holds when at least one of its literals holds.
pub open spec fn clause_sat(m: Seq<bool>, c: Seq<Literal>) -> bool {
    exists|i: int| 0 <= i < c.len() && lit_sat(m, #[trigger] c[i])
}

/// A formula holds when every clause holds.
pub open spec fn formula_sat(m: Seq<bool>, f: Seq<Seq<Literal>>) -> bool {
    forall|i: int| 0 <= i < f.len() ==> clause_sat(m, #[trigger] f[i])
}

/// A formula over `n` variables is satisfiable when some total assignment of
/// the `n` variables satisfies it.
pub open spec fn satisfiable(f: Seq<Seq<Literal>>, n: nat) -> bool {
    exists|m: Seq<bool>| m.len() == n && formula_sat(m, f)
}

/// The subformula of `f` selected by the clause indices in `ids` holds under
/// `m` when each selected clause holds.
pub open spec fn sat_on(m: Seq<bool>, f: Seq<Seq<Literal>>, ids: Seq<usize>) -> bool {
    forall|j: usize| #[trigger] ids.contains(j) ==> clause_sat(m, f[j as int])
}

/// The subformula of `f` selected by `ids` is satisfiable over `n` variables.
pub open spec fn subset_satisfiable(f: Seq<Seq<Literal>>, n: nat, ids: Seq<usize>) -> bool {
    exists|m: Seq<bool>| m.len() == n && sat_on(m, f, ids)
}

/// Every total assignment of `n` variables satisfying the subformula selected
/// by `ids` satisfies the clause `c`.
pub open spec fn entails_on(f: Seq<Seq<Literal>>, n: nat, ids: Seq<usize>, c: Seq<Literal>) -> bool {
    forall|m: Seq<bool>| m.len() == n && #[trigger] sat_on(m, f, ids) ==> clause_sat(m, c)
}

/// A partial valuation agrees with a total assignment of the same length on
/// every variable it assigns.
pub open spec fn extends(m: Seq<bool>, val: Seq<Option<bool>>) -> bool {
    &&& m.len() == val.len()
    &&& forall|v: int| 0 <= v < val.len() && #[trigger] val[v] is Some ==> val[v] == Some(m[v])
}

pub proof fn lemma_entails_on_apply(
    f: Seq<Seq<Literal>>,
    n: nat,
    ids: Seq<usize>,
    c: Seq<Literal>,
    m: Seq<bool>,
)
    requires
        entails_on(f, n, ids, c),
        m.len() == n,
        sat_on(m, f, ids),
    ensures
        clause_sat(m, c),
{
}

/// Satisfying a larger selection of clauses satisfies any smaller one.
pub proof fn lemma_sat_on_subset(
    m: Seq<bool>,
    f: Seq<Seq<Literal>>,
    small: Seq<usize>,
    big: Seq<usize>,
)
    requires
        sat_on(m, f, big),
        forall|j: usize| #[trigger] small.contains(j) ==> big.contains(j),
    ensures
        sat_on(m, f, small),
{
}

pub proof fn lemma_contains_concat(a: Seq<usize>, b: Seq<usize>)
    ensures
        forall|j: usize| #[trigger] (a + b).contains(j) ==> a.contains(j) || b.contains(j),
        forall|j: usize| #[trigger] a.contains(j) ==> (a + b).contains(j),
        forall|j: usize| #[trigger] b.contains(j) ==> (a + b).contains(j),
{
    assert forall|j: usize| #[trigger] (a + b).contains(j) implies a.contains(j) || b.contains(j) by {
        let i = choose|i: int| 0 <= i < (a + b).len() && (a + b)[i] == j;
        if i < a.len() {
            assert(a[i] == j);
        } else {
            assert(b[i - a.len()] == j);
        }
    }
    assert forall|j: usize| #[trigger] a.contains(j) implies (a + b).contains(j) by {
        let i = choose|i: int| 0 <= i < a.len() && a[i] == j;
        assert((a + b)[i] == j);
    }
    assert forall|j: usize| #[trigger] b.contains(j) implies (a + b).contains(j) by {
        let i = choose|i: int| 0 <= i < b.len() && b[i] == j;
        assert((a + b)[a.len() + i] == j);
    }
}

/// A selection satisfies both halves of a concatenation exactly when it
/// satisfies the concatenation.
pub proof fn lemma_sat_on_concat(m: Seq<bool>, f: Seq<Seq<Literal>>, a: Seq<usize>, b: Seq<usize>)
    ensures
        sat_on(m, f, a + b) <==> (sat_on(m, f, a) && sat_on(m, f, b)),
{
    lemma_contains_concat(a, b);
}

/// A clause of the formula is entailed by the selection holding its own index.
pub proof fn lemma_clause_entails_itself(f: Seq<Seq<Literal>>, n: nat, j: usize)
    requires
        j < f.len(),
    ensures
        entails_on(f, n, seq![j], f[j as int]),
{
    assert(seq![j][0] == j);
    assert(seq![j].contains(j));
}

/// Resolution soundness.  If a subformula entails `c1` and another entails
/// `c2`, the clauses disagree on the pivot variable, and `r` keeps every
/// literal of either clause that is not over the pivot, then the union of the
/// two subformulas entails `r`.
pub proof fn lemma_resolution(
    f: Seq<Seq<Literal>>,
    n: nat,
    o1: Seq<usize>,
    o2: Seq<usize>,
    c1: Seq<Literal>,
    c2: Seq<Literal>,
    pivot: usize,
    r: Seq<Literal>,
)
    requires
        entails_on(f, n, o1, c1),
        entails_on(f, n, o2, c2),
        forall|i: int, j: int|
            0 <= i < c1.len() && 0 <= j < c2.len() && (#[trigger] c1[i]).v_id == pivot
                && (#[trigger] c2[j]).v_id == pivot ==> c1[i].polarity != c2[j].polarity,
        forall|i: int|
            0 <= i < c1.len() && (#[trigger] c1[i]).v_id != pivot ==> r.contains(c1[i]),
        forall|i: int|
            0 <= i < c2.len() && (#[trigger] c2[i]).v_id != pivot ==> r.contains(c2[i]),
    ensures
        entails_on(f, n, o1 + o2, r),
{
    assert forall|m: Seq<bool>| m.len() == n && #[trigger] sat_on(m, f, o1 + o2) implies clause_sat(
        m,
        r,
    ) by {
        lemma_sat_on_concat(m, f, o1, o2);
        lemma_entails_on_apply(f, n, o1, c1, m);
        lemma_entails_on_apply(f, n, o2, c2, m);
        let i1 = choose|i: int| 0 <= i < c1.len() && lit_sat(m, #[trigger] c1[i]);
        let i2 = choose|i: int| 0 <= i < c2.len() && lit_sat(m, #[trigger] c2[i]);
        if c1[i1].v_id != pivot {
            assert(r.contains(c1[i1]));
            let k = choose|k: int| 0 <= k < r.len() && r[k] == c1[i1];
            assert(lit_sat(m, r[k]));
        } else if c2[i2].v_id != pivot {
            assert(r.contains(c2[i2]));
            let k = choose|k: int| 0 <= k < r.len() && r[k] == c2[i2];
            assert(lit_sat(m, r[k]));
        } else {
            // both satisfied literals sit on the pivot variable with opposite
            // polarities: impossible under one assignment
            assert(m[pivot as int] == c1[i1].polarity);
            assert(m[pivot as int] == c2[i2].polarity);
            assert(false);
        }
    }
}

/// A literal over variable `v` with the given polarity occurs in the
/// formula before position `(ci, li)` (clause-major order).
pub open spec fn occurs_before(
    f: Seq<Seq<Literal>>,
    v: int,
    polarity: bool,
    ci: int,
    li: int,
) -> bool {
    exists|c: int, l: int|
        #![auto]
        0 <= c < f.len() && 0 <= l < f[c].len() && (c < ci || (c == ci && l < li)) && f[c][l] == (
        Literal { v_id: v as usize, polarity })
}

/// A literal over variable `v` with the given polarity occurs somewhere in
/// the formula.
pub open spec fn occurs_with(f: Seq<Seq<Literal>>, v: int, polarity: bool) -> bool {
    occurs_before(f, v, polarity, f.len() as int, 0)
}

/// The variable of `l` occurs in the formula only with `l`'s polarity.
pub open spec fn pure_lit(f: Seq<Seq<Literal>>, l: Literal) -> bool {
    forall|ci: int, li: int|
        0 <= ci < f.len() && 0 <= li < f[ci].len() && (#[trigger] f[ci][li]).v_id == l.v_id
            ==> f[ci][li].polarity == l.polarity
}

/// Two clauses with the same literals (in any order, with any repetition) are
/// satisfied by the same assignments.
pub open spec fn clause_same_lits(c1: Seq<Literal>, c2: Seq<Literal>) -> bool {
    forall|l: Literal| #[trigger] c1.contains(l) <==> #[trigger] c2.contains(l)
}

/// Each clause of either formula appears, up to literal order and repetition,
/// in the other.
pub open spec fn formula_equiv(f1: Seq<Seq<Literal>>, f2: Seq<Seq<Literal>>) -> bool {
    &&& forall|i: int|
        0 <= i < f1.len() ==> exists|j: int|
            0 <= j < f2.len() && clause_same_lits(#[trigger] f1[i], f2[j])
    &&& forall|j: int|
        0 <= j < f2.len() ==> exists|i: int|
            0 <= i < f1.len() && clause_same_lits(f1[i], #[trigger] f2[j])
}

proof fn lemma_clause_sat_same_lits(m: Seq<bool>, c1: Seq<Literal>, c2: Seq<Literal>)
    requires
        clause_same_lits(c1, c2),
        clause_sat(m, c1),
    ensures
        clause_sat(m, c2),
{
    let i = choose|i: int| 0 <= i < c1.len() && lit_sat(m, #[trigger] c1[i]);
    assert(c1.contains(c1[i]));
    assert(c2.contains(c1[i]));
    let k = choose|k: int| 0 <= k < c2.len() && c2[k] == c1[i];
    assert(lit_sat(m, c2[k]));
}

proof fn lemma_clause_sat_same_lits_rev(m: Seq<bool>, c1: Seq<Literal>, c2: Seq<Literal>)
    requires
        clause_same_lits(c1, c2),
        clause_sat(m, c2),
    ensures
        clause_sat(m, c1),
{
    let i = choose|i: int| 0 <= i < c2.len() && lit_sat(m, #[trigger] c2[i]);
    assert(c2.contains(c2[i]));
    assert(c1.contains(c2[i]));
    let k = choose|k: int| 0 <= k < c1.len() && c1[k] == c2[i];
    assert(lit_sat(m, c1[k]));
}

proof fn lemma_formula_sat_equiv(m: Seq<bool>, f1: Seq<Seq<Literal>>, f2: Seq<Seq<Literal>>)
    requires
        formula_equiv(f1, f2),
        formula_sat(m, f1),
    ensures
        formula_sat(m, f2),
{
    assert forall|j: int| 0 <= j < f2.len() implies clause_sat(m, #[trigger] f2[j]) by {
        let i = choose|i: int| 0 <= i < f1.len() && clause_same_lits(f1[i], f2[j]);
        lemma_clause_sat_same_lits(m, f1[i], f2[j]);
    }
}

proof fn lemma_formula_sat_equiv_rev(m: Seq<bool>, f1: Seq<Seq<Literal>>, f2: Seq<Seq<Literal>>)
    requires
        formula_equiv(f1, f2),
        formula_sat(m, f2),
    ensures
        formula_sat(m, f1),
{
    assert forall|i: int| 0 <= i < f1.len() implies clause_sat(m, #[trigger] f1[i]) by {
        let j = choose|j: int| 0 <= j < f2.len() && clause_same_lits(f1[i], f2[j]);
        lemma_clause_sat_same_lits_rev(m, f1[i], f2[j]);
    }
}

/// Reordering the clauses of a formula, or the literals inside a clause, does
/// not change satisfiability.
pub proof fn lemma_satisfiable_equiv(f1: Seq<Seq<Literal>>, f2: Seq<Seq<Literal>>, n: nat)
    requires
        formula_equiv(f1, f2),
    ensures
        satisfiable(f1, n) == satisfiable(f2, n),
{
    if satisfiable(f1, n) {
        let m = choose|m: Seq<bool>| m.len() == n && formula_sat(m, f1);
        lemma_formula_sat_equiv(m, f1, f2);
        assert(m.len() == n && formula_sat(m, f2));
    }
    if satisfiable(f2, n) {
        let m = choose|m: Seq<bool>| m.len() == n && formula_sat(m, f2);
        lemma_formula_sat_equiv_rev(m, f1, f2);
        assert(m.len() == n && formula_sat(m, f1));
    }
}

/// If some selection of a formula's clauses is unsatisfiable, the whole
/// formula is unsatisfiable.
pub proof fn lemma_unsat_subset(f: Seq<Seq<Literal>>, n: nat, ids: Seq<usize>)
    requires
        !subset_satisfiable(f, n, ids),
        forall|j: usize| #[trigger] ids.contains(j) ==> j < f.len(),
    ensures
        !satisfiable(f, n),
{
    if satisfiable(f, n) {
        let m = choose|m: Seq<bool>| m.len() == n && formula_sat(m, f);
        assert(sat_on(m, f, ids));
        assert(subset_satisfiable(f, n, ids));
    }
}

} // verus!
