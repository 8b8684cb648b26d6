//! The two soundness theorems of the solver.  A complete valuation that
//! satisfies every input clause witnesses satisfiability; and a clause
//! falsified at decision level zero proves that the input clauses selected by
//! the accumulated origin indices — and with them the whole formula — cannot
//! be satisfied.

use vstd::prelude::*;

use crate::literal::Literal;
use crate::semantics::{
    clause_sat, entails_on, formula_sat, lemma_entails_on_apply, lemma_sat_on_subset, lit_sat,
    pure_lit, sat_on, satisfiable, subset_satisfiable,
};
use crate::solve::base::{LiteralSource, Solve};
use crate::stored_clause::ClauseKey;
use crate::valuation::lit_false;

verus! {

impl Solve {
    /// The origin indices of the clause that justifies trail entry `i`
    /// (empty for a decision or a pure literal).
    pub open spec fn entry_origins(&self, i: int) -> Seq<usize> {
        match self.trail@[i].source {
            LiteralSource::Choice => Seq::empty(),
            LiteralSource::HobsonChoice => Seq::empty(),
            LiteralSource::Deduced(j) => seq![j],
            LiteralSource::StoredClause(k) => self.key_origins(k),
        }
    }

    /// `ids` covers the justification of every trail entry.
    pub open spec fn covers_trail(&self, ids: Seq<usize>) -> bool {
        forall|i: int, oi: int|
            0 <= i < self.trail@.len() && 0 <= oi < self.entry_origins(i).len() ==> ids.contains(
                #[trigger] self.entry_origins(i)[oi],
            )
    }

    /// At level zero, any assignment satisfying the clauses of `ids` can be
    /// rewritten, without leaving those clauses, to agree with the first `e`
    /// trail entries.
    proof fn lemma_l0_extension(&self, ids: Seq<usize>, e: int, m: Seq<bool>)
        requires
            self.wf(),
            self.levels@.len() == 1,
            self.covers_trail(ids),
            forall|j: usize| #[trigger] ids.contains(j) ==> j < self.fml().len(),
            0 <= e <= self.trail@.len(),
            m.len() == self.n(),
            sat_on(m, self.fml(), ids),
        ensures
            exists|m2: Seq<bool>|
                m2.len() == self.n() && #[trigger] sat_on(m2, self.fml(), ids) && forall|j: int|
                    0 <= j < e ==> lit_sat(m2, (#[trigger] self.trail@[j]).lit),
        decreases e,
    {
        if e == 0 {
            assert(m.len() == self.n() && sat_on(m, self.fml(), ids) && forall|j: int|
                0 <= j < e ==> lit_sat(m, (#[trigger] self.trail@[j]).lit));
        } else {
            self.lemma_l0_extension(ids, e - 1, m);
            let m1 = choose|m2: Seq<bool>|
                m2.len() == self.n() && #[trigger] sat_on(m2, self.fml(), ids) && forall|j: int|
                    0 <= j < e - 1 ==> lit_sat(m2, (#[trigger] self.trail@[j]).lit);
            let entry = self.trail@[e - 1];
            let l = entry.lit;
            assert(self.entry_just(e - 1));
            assert(entry.level == 0) by {
                assert(entry.level < self.levels@.len());
            }
            match entry.source {
                LiteralSource::Choice => {
                    // no decision sits at level zero
                    assert(entry.level >= 1);
                    assert(false);
                },
                LiteralSource::Deduced(j) => {
                    // a unit input clause: any satisfying assignment makes
                    // its sole literal true
                    assert(self.entry_origins(e - 1)[0] == j);
                    assert(ids.contains(j));
                    assert(clause_sat(m1, self.fml()[j as int]));
                    let li = choose|li: int|
                        0 <= li < self.fml()[j as int].len() && lit_sat(
                            m1,
                            #[trigger] self.fml()[j as int][li],
                        );
                    assert(self.fml()[j as int][li] == l);
                    assert(m1.len() == self.n() && sat_on(m1, self.fml(), ids) && forall|jj: int|
                        0 <= jj < e ==> lit_sat(m1, (#[trigger] self.trail@[jj]).lit));
                },
                LiteralSource::HobsonChoice => {
                    // a pure literal: setting its variable to its polarity
                    // cannot falsify any clause of the formula
                    let m2 = m1.update(l.v_id as int, l.polarity);
                    assert(pure_lit(self.fml(), l));
                    assert forall|j: usize| #[trigger] ids.contains(j) implies clause_sat(
                        m2,
                        self.fml()[j as int],
                    ) by {
                        assert(clause_sat(m1, self.fml()[j as int]));
                        let li = choose|li: int|
                            0 <= li < self.fml()[j as int].len() && lit_sat(
                                m1,
                                #[trigger] self.fml()[j as int][li],
                            );
                        let sl = self.fml()[j as int][li];
                        if sl.v_id == l.v_id {
                            assert(sl.polarity == l.polarity);
                            assert(lit_sat(m2, sl));
                        } else {
                            assert(lit_sat(m2, sl));
                        }
                    }
                    assert forall|jj: int| 0 <= jj < e implies lit_sat(
                        m2,
                        (#[trigger] self.trail@[jj]).lit,
                    ) by {
                        if jj < e - 1 {
                            assert(self.trail@[jj].lit.v_id != l.v_id);
                            assert(lit_sat(m1, self.trail@[jj].lit));
                        } else {
                            assert(lit_sat(m2, l));
                        }
                    }
                    assert(m2.len() == self.n() && sat_on(m2, self.fml(), ids) && forall|jj: int|
                        0 <= jj < e ==> lit_sat(m2, (#[trigger] self.trail@[jj]).lit));
                },
                LiteralSource::StoredClause(k) => {
                    // a propagation: the clause is entailed by covered
                    // origins and all its other literals are false on the
                    // earlier trail, so the assignment must satisfy this one
                    self.lemma_key_entailed(k);
                    assert forall|oi2: usize| #[trigger] self.key_origins(k).contains(
                        oi2,
                    ) implies ids.contains(oi2) by {
                        let oi = choose|oi: int|
                            0 <= oi < self.key_origins(k).len() && self.key_origins(k)[oi] == oi2;
                        assert(ids.contains(self.entry_origins(e - 1)[oi]));
                    }
                    lemma_sat_on_subset(m1, self.fml(), self.key_origins(k), ids);
                    lemma_entails_on_apply(
                        self.fml(),
                        self.n(),
                        self.key_origins(k),
                        self.key_lits(k),
                        m1,
                    );
                    let li = choose|li: int|
                        0 <= li < self.key_lits(k).len() && lit_sat(
                            m1,
                            #[trigger] self.key_lits(k)[li],
                        );
                    let sl = self.key_lits(k)[li];
                    assert(sl == l) by {
                        if sl != l {
                            let j = choose|j: int|
                                0 <= j < e - 1 && (#[trigger] self.trail@[j]).lit
                                    == sl.spec_negate();
                            assert(lit_sat(m1, self.trail@[j].lit));
                            assert(m1[sl.v_id as int] == !sl.polarity);
                        }
                    }
                    assert(m1.len() == self.n() && sat_on(m1, self.fml(), ids) && forall|jj: int|
                        0 <= jj < e ==> lit_sat(m1, (#[trigger] self.trail@[jj]).lit));
                },
            }
        }
    }

    /// A clause all of whose literals are false at decision level zero makes
    /// the selected input clauses — and the whole formula — unsatisfiable.
    pub proof fn lemma_l0_conflict_unsat(&self, k: ClauseKey, ids: Seq<usize>)
        requires
            self.wf(),
            self.levels@.len() == 1,
            self.key_valid(k),
            forall|x: int|
                0 <= x < self.key_lits(k).len() ==> lit_false(
                    self.valuation@,
                    #[trigger] self.key_lits(k)[x],
                ),
            self.covers_trail(ids),
            forall|oi2: usize| #[trigger] self.key_origins(k).contains(oi2) ==> ids.contains(oi2),
            forall|j: usize| #[trigger] ids.contains(j) ==> j < self.fml().len(),
        ensures
            !subset_satisfiable(self.fml(), self.n(), ids),
            !satisfiable(self.fml(), self.n()),
    {
        self.lemma_key_lits_wf(k);
        if subset_satisfiable(self.fml(), self.n(), ids) {
            let m = choose|m: Seq<bool>| m.len() == self.n() && sat_on(m, self.fml(), ids);
            self.lemma_l0_extension(ids, self.trail@.len() as int, m);
            let m2 = choose|m2: Seq<bool>|
                m2.len() == self.n() && #[trigger] sat_on(m2, self.fml(), ids) && forall|j: int|
                    0 <= j < self.trail@.len() ==> lit_sat(m2, (#[trigger] self.trail@[j]).lit);
            self.lemma_key_entailed(k);
            lemma_sat_on_subset(m2, self.fml(), self.key_origins(k), ids);
            lemma_entails_on_apply(
                self.fml(),
                self.n(),
                self.key_origins(k),
                self.key_lits(k),
                m2,
            );
            let li = choose|li: int|
                0 <= li < self.key_lits(k).len() && lit_sat(m2, #[trigger] self.key_lits(k)[li]);
            let sl = self.key_lits(k)[li];
            assert(lit_false(self.valuation@, sl));
            self.lemma_false_lit_on_trail(sl);
            let j = choose|j: int|
                0 <= j < self.trail@.len() && (#[trigger] self.trail@[j]).lit == sl.spec_negate();
            assert(lit_sat(m2, self.trail@[j].lit));
            assert(false);
        }
        crate::semantics::lemma_unsat_subset(self.fml(), self.n(), ids);
    }

    /// Collect the origin indices that justify the conflict: those of the
    /// falsified clause and of every trail antecedent.
    pub fn collect_core(&self, k: ClauseKey) -> (r: Vec<usize>)
        requires
            self.wf(),
            self.key_valid(k),
        ensures
            self.covers_trail(r@),
            forall|oi2: usize| #[trigger] self.key_origins(k).contains(oi2) ==> r@.contains(oi2),
            forall|j: usize| #[trigger] r@.contains(j) ==> j < self.fml().len(),
    {
        let mut r = self.key_origins_clone(k);
        proof {
            self.lemma_key_entailed(k);
            assert forall|oi2: usize| #[trigger] self.key_origins(k).contains(oi2) implies
                r@.contains(oi2) by {}
            assert forall|j2: usize| #[trigger] r@.contains(j2) implies j2 < self.fml().len() by {
                let oi = choose|oi: int| 0 <= oi < r@.len() && r@[oi] == j2;
            }
        }
        let tn = self.trail.len();
        let mut i: usize = 0;
        while i < tn
            invariant
                i <= tn,
                tn == self.trail@.len(),
                self.wf(),
                self.key_valid(k),
                forall|j2: usize| #[trigger] r@.contains(j2) ==> j2 < self.fml().len(),
                forall|oi2: usize|
                    #[trigger] self.key_origins(k).contains(oi2) ==> r@.contains(oi2),
                forall|i2: int, oi: int|
                    0 <= i2 < i && 0 <= oi < self.entry_origins(i2).len() ==> r@.contains(
                        #[trigger] self.entry_origins(i2)[oi],
                    ),
            decreases tn - i,
        {
            let ghost pre = r@;
            let src = self.trail[i].source;
            match src {
                LiteralSource::Choice => {},
                LiteralSource::HobsonChoice => {},
                LiteralSource::Deduced(j) => {
                    proof {
                        assert(self.entry_just(i as int));
                    }
                    r.push(j);
                    proof {
                        assert(self.entry_origins(i as int) =~= seq![j]);
                        assert(r@[r@.len() - 1] == j);
                        assert forall|j2: usize| #[trigger] pre.contains(j2) implies r@.contains(
                            j2,
                        ) by {
                            let w = choose|w: int| 0 <= w < pre.len() && pre[w] == j2;
                            assert(r@[w] == j2);
                        }
                        assert forall|j2: usize| #[trigger] r@.contains(j2) implies j2
                            < self.fml().len() by {
                            let w = choose|w: int| 0 <= w < r@.len() && r@[w] == j2;
                            if w < pre.len() {
                                assert(pre.contains(j2));
                            } else {
                                assert(j2 == j);
                            }
                        }
                    }
                },
                LiteralSource::StoredClause(ak) => {
                    proof {
                        assert(self.entry_just(i as int));
                        self.lemma_key_entailed(ak);
                    }
                    let more = self.key_origins_clone(ak);
                    let mut oi: usize = 0;
                    let on = more.len();
                    while oi < on
                        invariant
                            oi <= on,
                            on == more@.len(),
                            more@ == self.entry_origins(i as int),
                            self.wf(),
                            self.key_valid(ak),
                            forall|oim: int|
                                0 <= oim < more@.len() ==> #[trigger] more@[oim] < self.fml().len(),
                            forall|j2: usize| #[trigger] pre.contains(j2) ==> r@.contains(j2),
                            forall|x: int| 0 <= x < oi ==> r@.contains(#[trigger] more@[x]),
                            forall|j2: usize| #[trigger] r@.contains(j2) ==> j2 < self.fml().len(),
                        decreases on - oi,
                    {
                        let ghost mid = r@;
                        r.push(more[oi]);
                        proof {
                            assert(r@[r@.len() - 1] == more@[oi as int]);
                            assert forall|j2: usize| #[trigger] pre.contains(j2) implies
                                r@.contains(j2) by {
                                assert(mid.contains(j2));
                                let w = choose|w: int| 0 <= w < mid.len() && mid[w] == j2;
                                assert(r@[w] == j2);
                            }
                            assert forall|x: int| 0 <= x < oi + 1 implies r@.contains(
                                #[trigger] more@[x],
                            ) by {
                                if x < oi {
                                    let w = choose|w: int| 0 <= w < mid.len() && mid[w] == more@[x];
                                    assert(r@[w] == more@[x]);
                                }
                            }
                            assert forall|j2: usize| #[trigger] r@.contains(j2) implies j2
                                < self.fml().len() by {
                                let w = choose|w: int| 0 <= w < r@.len() && r@[w] == j2;
                                if w < mid.len() {
                                    assert(mid.contains(j2));
                                } else {
                                    assert(j2 == more@[oi as int]);
                                }
                            }
                        }
                        oi = oi + 1;
                    }
                },
            }
            proof {
                assert forall|j2: usize| #[trigger] pre.contains(j2) implies r@.contains(j2) by {
                    match self.trail@[i as int].source {
                        LiteralSource::Choice => {},
                        LiteralSource::HobsonChoice => {},
                        _ => {},
                    }
                }
                assert forall|i2: int, oi: int|
                    0 <= i2 < i + 1 && 0 <= oi < self.entry_origins(i2).len() implies r@.contains(
                    #[trigger] self.entry_origins(i2)[oi],
                ) by {
                    if i2 < i {
                        assert(pre.contains(self.entry_origins(i2)[oi]));
                    } else {
                        match self.trail@[i2].source {
                            LiteralSource::StoredClause(_) => {},
                            LiteralSource::Deduced(_) => {},
                            _ => {},
                        }
                    }
                }
                assert forall|oi2: usize| #[trigger] self.key_origins(k).contains(oi2) implies
                    r@.contains(oi2) by {
                    assert(pre.contains(oi2));
                }
            }
            i = i + 1;
        }
        r
    }
}

} // verus!