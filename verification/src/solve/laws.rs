//! The solver's invariants, stated on their own as public theorems over the
//! well-formedness predicate, and the runtime-validated watch condition.

use vstd::prelude::*;

use crate::literal::Literal;
use crate::solve::base::{LiteralSource, Solve};
use crate::stored_clause::ClauseKey;
use crate::valuation::{lit_true, lit_unassigned};

verus! {

impl Solve {
    /// Every literal on the trail carries its polarity in the valuation:
    /// assignments stay in force until a backjump removes them.
    pub proof fn lemma_assignment_monotonicity(&self)
        requires
            self.wf(),
        ensures
            forall|i: int|
                0 <= i < self.trail@.len() ==> lit_true(
                    self.valuation@,
                    (#[trigger] self.trail@[i]).lit,
                ),
    {
    }

    /// Decision levels along the trail never decrease.
    pub proof fn lemma_level_monotonicity(&self)
        requires
            self.wf(),
        ensures
            forall|i: int, j: int|
                0 <= i <= j < self.trail@.len() ==> (#[trigger] self.trail@[i]).level <= (
                #[trigger] self.trail@[j]).level,
    {
        assert forall|i: int, j: int|
            0 <= i <= j < self.trail@.len() implies (#[trigger] self.trail@[i]).level <= (
        #[trigger] self.trail@[j]).level by {
            if self.trail@[i].level > self.trail@[j].level {
                assert(self.levels@[self.trail@[i].level as int] <= i);
                assert(j < self.levels@[self.trail@[i].level as int]);
            }
        }
    }

    /// Antecedent soundness: a propagated literal's clause contains it, and
    /// every other literal of that clause was falsified by an earlier trail
    /// entry — so at the moment of the push the clause had exactly one
    /// non-false literal, the propagated one, whose variable was not yet on
    /// the trail.
    pub proof fn lemma_antecedent_soundness(&self, i: int, k: ClauseKey)
        requires
            self.wf(),
            0 <= i < self.trail@.len(),
            self.trail@[i].source == LiteralSource::StoredClause(k),
        ensures
            self.key_valid(k),
            exists|x: int|
                0 <= x < self.key_lits(k).len() && #[trigger] self.key_lits(k)[x]
                    == self.trail@[i].lit,
            forall|x: int|
                0 <= x < self.key_lits(k).len() && #[trigger] self.key_lits(k)[x]
                    != self.trail@[i].lit ==> exists|j: int|
                    0 <= j < i && (#[trigger] self.trail@[j]).lit == self.key_lits(
                        k,
                    )[x].spec_negate(),
            forall|j: int|
                0 <= j < i ==> (#[trigger] self.trail@[j]).lit.v_id != self.trail@[i].lit.v_id,
    {
        assert(self.entry_just(i));
        assert forall|j: int| 0 <= j < i implies (#[trigger] self.trail@[j]).lit.v_id
            != self.trail@[i].lit.v_id by {
            assert(self.trail@[j].lit.v_id != self.trail@[i].lit.v_id);
        }
    }

    /// Every learned clause is entailed by the input clauses its origin
    /// indices select: the soundness behind every unsatisfiability verdict.
    pub proof fn lemma_learnt_entailed(&self, k: ClauseKey)
        requires
            self.wf(),
            self.key_valid(k),
        ensures
            crate::semantics::entails_on(
                self.fml(),
                self.n(),
                self.key_origins(k),
                self.key_lits(k),
            ),
    {
        self.lemma_key_entailed(k);
    }

    /// The watch condition at a propagation fixpoint: every live clause with
    /// two positions to watch has a true watched literal or two unassigned
    /// watched literals.
    #[verifier::opaque]
    pub open spec fn watch_fixpoint_inv(&self) -> bool {
        &&& forall|j: int|
            0 <= j < self.formula_clauses@.len() ==> Self::clause_watch_ok(
                #[trigger] self.formula_clauses@[j],
                self.valuation@,
            )
        &&& forall|dk: slotmap::DefaultKey|
            self.lm().dom().contains(dk) ==> Self::clause_watch_ok(
                #[trigger] self.lm()[dk],
                self.valuation@,
            )
    }

    pub open spec fn clause_watch_ok(
        c: crate::stored_clause::StoredClause,
        val: Seq<Option<bool>>,
    ) -> bool {
        c.lits@.len() >= 2 ==> {
            ||| lit_true(val, c.lits@[c.watch_a as int])
            ||| lit_true(val, c.lits@[c.watch_b as int])
            ||| (lit_unassigned(val, c.lits@[c.watch_a as int]) && lit_unassigned(
                val,
                c.lits@[c.watch_b as int],
            ))
        }
    }

    /// Decide whether the watch condition holds of one clause.
    fn clause_watch_check(&self, k: ClauseKey) -> (r: bool)
        requires
            self.wf(),
            self.key_valid(k),
        ensures
            r == Self::clause_watch_ok(self.key_clause(k), self.valuation@),
    {
        proof {
            self.lemma_key_lits_wf(k);
        }
        let c = self.clause_ref(k);
        if c.lits.len() < 2 {
            return true;
        }
        let la = c.lits[c.watch_a];
        let lb = c.lits[c.watch_b];
        let va = self.valuation.of_v_id(la.v_id);
        let vb = self.valuation.of_v_id(lb.v_id);
        let a_true = va == Some(la.polarity);
        let b_true = vb == Some(lb.polarity);
        let both_unassigned = va.is_none() && vb.is_none();
        a_true || b_true || both_unassigned
    }

    /// Decide whether the watch condition holds of every live clause.
    pub fn check_watch_invariant(&self) -> (r: bool)
        requires
            self.wf(),
        ensures
            r == self.watch_fixpoint_inv(),
    {
        let count = self.formula_clauses.len();
        let mut j: usize = 0;
        while j < count
            invariant
                j <= count,
                count == self.formula_clauses@.len(),
                self.wf(),
                forall|j2: int|
                    0 <= j2 < j ==> Self::clause_watch_ok(
                        #[trigger] self.formula_clauses@[j2],
                        self.valuation@,
                    ),
            decreases count - j,
        {
            if !self.clause_watch_check(ClauseKey::Formula(j)) {
                proof {
                    reveal(Solve::watch_fixpoint_inv);
                }
                return false;
            }
            j = j + 1;
        }
        let keys = crate::learnt_store::learnt_store_keys(&self.learnt_clauses);
        let kn = keys.len();
        let mut ki: usize = 0;
        while ki < kn
            invariant
                ki <= kn,
                kn == keys@.len(),
                self.wf(),
                keys@.no_duplicates(),
                forall|dk: slotmap::DefaultKey| #[trigger]
                    keys@.contains(dk) <==> self.lm().dom().contains(dk),
                forall|x: int|
                    0 <= x < ki ==> Self::clause_watch_ok(
                        self.lm()[#[trigger] keys@[x]],
                        self.valuation@,
                    ),
            decreases kn - ki,
        {
            let dk = keys[ki];
            proof {
                assert(keys@.contains(keys@[ki as int]));
            }
            if !self.clause_watch_check(ClauseKey::Learnt(dk)) {
                proof {
                    reveal(Solve::watch_fixpoint_inv);
                }
                return false;
            }
            ki = ki + 1;
        }
        proof {
            assert forall|dk: slotmap::DefaultKey|
                self.lm().dom().contains(dk) implies Self::clause_watch_ok(
                #[trigger] self.lm()[dk],
                self.valuation@,
            ) by {
                assert(keys@.contains(dk));
                let x = choose|x: int| 0 <= x < keys@.len() && keys@[x] == dk;
                assert(Self::clause_watch_ok(self.lm()[keys@[x]], self.valuation@));
            }
            reveal(Solve::watch_fixpoint_inv);
        }
        true
    }
}

} // verus!
