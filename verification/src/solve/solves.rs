//! The main loop: propagate to fixpoint; on a conflict analyze, learn and
//! backjump (or conclude unsatisfiability at level zero); otherwise decide,
//! until every variable is assigned and every input clause checked true, or
//! the budget runs out.

use vstd::prelude::*;

use crate::literal::Literal;
use crate::semantics::{clause_sat, formula_sat, lit_sat, satisfiable, subset_satisfiable};
use crate::solve::base::{LiteralSource, Solve, SolveError, SolveOk};
use crate::solve::stats::SolveStats;
use crate::stored_clause::ClauseKey;
use crate::valuation::{lit_true, lit_unassigned};
use crate::variable::Variable;

verus! {

/// The verdict of a solve.
#[derive(Clone, Copy, Debug, PartialEq, Eq, Structural)]
pub enum SolveResult {
    Satisfiable,
    Unsatisfiable,
    Unknown,
}

impl Solve {
    /// The unassigned variable with the highest activity, ties broken by the
    /// smallest identifier.
    pub fn most_active_none(&self) -> (r: Option<usize>)
        requires
            self.wf(),
        ensures
            match r {
                Some(v) => v < self.n() && self.valuation@[v as int] is None && forall|u: int|
                    0 <= u < self.n() && #[trigger] self.valuation@[u] is None
                        ==> self.variables@[u].activity < self.variables@[v as int].activity || (
                    self.variables@[u].activity == self.variables@[v as int].activity && v <= u),
                None => forall|v: int| 0 <= v < self.n() ==> #[trigger] self.valuation@[v] is Some,
            },
    {
        let n = self.variables.len();
        let mut best: Option<usize> = None;
        let mut best_activity: u64 = 0;
        let mut v: usize = 0;
        while v < n
            invariant
                v <= n,
                n == self.n(),
                self.wf(),
                match best {
                    Some(b) => b < v && b < self.n() && self.valuation@[b as int] is None
                        && best_activity == self.variables@[b as int].activity && forall|u: int|
                        0 <= u < v && #[trigger] self.valuation@[u] is None
                            ==> self.variables@[u].activity < best_activity || (
                        self.variables@[u].activity == best_activity && b <= u),
                    None => forall|u: int| 0 <= u < v ==> #[trigger] self.valuation@[u] is Some,
                },
            decreases n - v,
        {
            if self.valuation.of_v_id(v).is_none() {
                let a = self.variables[v].activity;
                match best {
                    Some(_) => {
                        if a > best_activity {
                            best = Some(v);
                            best_activity = a;
                        }
                    },
                    None => {
                        best = Some(v);
                        best_activity = a;
                    },
                }
            }
            v = v + 1;
        }
        best
    }

    /// Input clause `j` has a true literal under the current valuation.
    pub open spec fn clause_checked(&self, j: int) -> bool {
        exists|x: int|
            0 <= x < self.fml()[j].len() && lit_true(self.valuation@, #[trigger] self.fml()[j][x])
    }

    /// Whether input clause `j` has a true literal under the current
    /// valuation.
    fn clause_true_under(&self, j: usize) -> (r: bool)
        requires
            self.wf(),
            self.ingested(),
            j < self.fml().len(),
        ensures
            r == self.clause_checked(j as int),
    {
        proof {
            self.lemma_key_lits_wf(ClauseKey::Formula(j));
        }
        let clen = self.formula_clauses[j].lits.len();
        let mut x: usize = 0;
        while x < clen
            invariant
                x <= clen,
                j < self.fml().len(),
                self.wf(),
                self.ingested(),
                clen == self.fml()[j as int].len(),
                crate::clause::clause_wf(self.fml()[j as int], self.n()),
                forall|x2: int|
                    0 <= x2 < x ==> !lit_true(self.valuation@, #[trigger] self.fml()[j as int][x2]),
            decreases clen - x,
        {
            let l = self.formula_clauses[j].lits[x];
            proof {
                assert(l == self.fml()[j as int][x as int]);
                assert(l.v_id < self.n());
            }
            match self.valuation.of_v_id(l.v_id) {
                Some(p) => {
                    if p == l.polarity {
                        proof {
                            assert(lit_true(self.valuation@, self.fml()[j as int][x as int]));
                            assert(self.clause_checked(j as int));
                        }
                        return true;
                    }
                },
                None => {},
            }
            x = x + 1;
        }
        false
    }

    /// Whether every input clause has a true literal under the current
    /// valuation.
    pub fn formula_sat_check(&self) -> (r: bool)
        requires
            self.wf(),
            self.ingested(),
        ensures
            r == forall|j: int|
                0 <= j < self.fml().len() ==> #[trigger] self.clause_checked(j),
    {
        let count = self.formula_clauses.len();
        let mut j: usize = 0;
        while j < count
            invariant
                j <= count,
                count == self.fml().len(),
                self.wf(),
                self.ingested(),
                forall|j2: int| 0 <= j2 < j ==> #[trigger] self.clause_checked(j2),
            decreases count - j,
        {
            if !self.clause_true_under(j) {
                return false;
            }
            j = j + 1;
        }
        true
    }

    /// A complete valuation under which every input clause has a true
    /// literal witnesses satisfiability.
    pub proof fn lemma_sat_exit(&self)
        requires
            self.wf(),
            forall|v: int| 0 <= v < self.n() ==> #[trigger] self.valuation@[v] is Some,
            forall|j: int| 0 <= j < self.fml().len() ==> #[trigger] self.clause_checked(j),
        ensures
            satisfiable(self.fml(), self.n()),
            formula_sat(
                Seq::new(self.n(), |v: int| self.valuation@[v] == Some(true)),
                self.fml(),
            ),
    {
        let m = Seq::new(self.n(), |v: int| self.valuation@[v] == Some(true));
        assert forall|j: int| 0 <= j < self.fml().len() implies clause_sat(m, #[trigger] self.fml()[j]) by {
            assert(self.clause_checked(j));
            let x = choose|x: int|
                0 <= x < self.fml()[j].len() && lit_true(
                    self.valuation@,
                    #[trigger] self.fml()[j][x],
                );
            let l = self.fml()[j][x];
            assert(self.valuation@[l.v_id as int] == Some(l.polarity));
            assert(m[l.v_id as int] == l.polarity);
            assert(lit_sat(m, l));
        }
        assert(m.len() == self.n() && formula_sat(m, self.fml()));
    }

    /// Level starts step by at least one, so the level count is bounded by
    /// the trail.
    proof fn lemma_levels_bound(&self, l: int)
        requires
            self.wf(),
            1 <= l < self.levels@.len(),
        ensures
            self.levels@[l] >= l - 1,
        decreases l,
    {
        if l > 1 {
            self.lemma_levels_bound(l - 1);
            assert(self.levels@[l - 1] <= self.levels@[l]);
            assert(self.trail@[self.levels@[l - 1] as int].level == l - 1);
            assert(self.levels@[l - 1] != self.levels@[l]) by {
                assert(self.trail@[self.levels@[l] as int].level == l);
            }
        }
    }

    /// The solver never opens more decision levels than it has variables.
    proof fn lemma_level_count_bound(&self)
        requires
            self.wf(),
        ensures
            self.levels@.len() <= self.n() + 1,
    {
        self.lemma_trail_len_bound();
        if self.levels@.len() >= 2 {
            let l = self.levels@.len() - 1;
            self.lemma_levels_bound(l);
            assert(self.levels@[l] < self.trail@.len());
        }
    }

    /// Run the search to an answer.  On `Satisfiable` the valuation is a
    /// model of every input clause; on `Unsatisfiable` the input clauses
    /// selected by `unsat_core` — and with them the formula — admit no
    /// satisfying assignment.  `Unknown` reports an exhausted budget or a
    /// full learned-clause store; an internal-invariant failure is surfaced
    /// as an error and trusts nothing.
    #[verifier::rlimit(100)]
    #[verifier::spinoff_prover]
    pub fn implication_solve(&mut self) -> (r: Result<(SolveResult, SolveStats), SolveError>)
        requires
            old(self).wf(),
            old(self).ingested(),
            old(self).n() + 2 < usize::MAX,
            old(self).iterations <= old(self).config.budget,
        ensures
            final(self).wf(),
            final(self).formula == old(self).formula,
            final(self).config == old(self).config,
            match r {
                Ok((SolveResult::Satisfiable, _)) => {
                    &&& satisfiable(final(self).fml(), final(self).n())
                    &&& forall|v: int|
                        0 <= v < final(self).n() ==> #[trigger] final(self).valuation@[v] is Some
                    &&& formula_sat(
                        Seq::new(
                            final(self).n(),
                            |v: int| final(self).valuation@[v] == Some(true),
                        ),
                        final(self).fml(),
                    )
                },
                Ok((SolveResult::Unsatisfiable, _)) => {
                    &&& !satisfiable(final(self).fml(), final(self).n())
                    &&& !subset_satisfiable(
                        final(self).fml(),
                        final(self).n(),
                        final(self).unsat_core@,
                    )
                    &&& forall|j: usize|
                        #[trigger] final(self).unsat_core@.contains(j)
                            ==> j < final(self).fml().len()
                },
                Ok((SolveResult::Unknown, _)) => (final(self).iterations
                    >= final(self).config.budget || final(self).next_learnt_id
                    >= 0xFFFF_0000usize) && final(self).iterations - old(self).iterations <= (
                final(self).next_learnt_id - old(self).next_learnt_id) * (old(self).n() + 2) + old(
                    self,
                ).n() + 1,
                Err(e) => e == SolveError::Hek && (!final(self).watch_fixpoint_inv() || ((forall|
                    v: int,
                |
                    0 <= v < final(self).n() ==> #[trigger] final(self).valuation@[v] is Some) && !(
                forall|j: int|
                    0 <= j < final(self).fml().len() ==> #[trigger] final(self).clause_checked(
                        j,
                    )))),
            },
            r matches Ok(p) ==> p.1 == (SolveStats {
                iterations: final(self).iterations,
                conflicts: final(self).conflicts,
                forgets: final(self).forgets,
            }),
            final(self).iterations >= old(self).iterations,
            final(self).ingested(),
            old(self).n() == 0 ==> final(self).next_learnt_id == old(self).next_learnt_id,
    {
        let ghost orig = *self;
        loop
            invariant
                self.wf(),
                self.ingested(),
                self.formula == orig.formula,
                self.config == orig.config,
                orig == *old(self),
                self.n() + 2 < usize::MAX,
                self.iterations <= self.config.budget,
                self.iterations >= orig.iterations,
                self.next_learnt_id >= orig.next_learnt_id,
                self.iterations - orig.iterations <= (self.next_learnt_id - orig.next_learnt_id)
                    * (orig.n() + 2) + self.trail@.len(),
                orig.n() == 0 ==> self.next_learnt_id == orig.next_learnt_id,
            decreases self.config.budget - self.iterations,
        {
            if self.iterations >= self.config.budget {
                proof {
                    self.lemma_trail_len_bound();
                }
                let stats = SolveStats {
                    iterations: self.iterations,
                    conflicts: self.conflicts,
                    forgets: self.forgets,
                };
                return Ok((SolveResult::Unknown, stats));
            }
            let ghost at_top = *self;
            self.iterations = self.iterations + 1;
            proof {
                Self::lemma_wf_counters(at_top, *self);
            }
            match self.propagate() {
                crate::solve::propagation::PropagateOutcome::Fault => {
                    // the fixpoint watch condition failed its validation: an
                    // internal fault, never recovered
                    return Err(SolveError::Hek);
                },
                crate::solve::propagation::PropagateOutcome::Conflict(conflict_key) => {
                    let ghost pre_cnt = *self;
                    if self.conflicts < usize::MAX {
                        self.conflicts = self.conflicts + 1;
                    }
                    if self.conflicts_since_last_forget < usize::MAX {
                        self.conflicts_since_last_forget = self.conflicts_since_last_forget + 1;
                    }
                    proof {
                        Self::lemma_wf_counters(pre_cnt, *self);
                        assert(self.conflict_on(conflict_key)) by {
                            assert(pre_cnt.conflict_on(conflict_key));
                        }
                        // over zero variables no clause can exist, so no
                        // conflict can arise
                        if orig.n() == 0 {
                            match conflict_key {
                                ClauseKey::Formula(j) => {
                                    assert(crate::clause::clause_wf(self.fml()[j as int], 0));
                                    assert(self.fml()[j as int][0].v_id < 0);
                                    assert(false);
                                },
                                ClauseKey::Learnt(dk) => {
                                    assert(self.lm()[dk].wf(0));
                                    assert(self.lm()[dk].lits@[0].v_id < 0);
                                    assert(false);
                                },
                            }
                        }
                    }
                    let ghost pre_fix = *self;
                    match self.attempt_fix(conflict_key) {
                        Err(SolveError::NoSolution) => {
                            // a conflict at level zero: the formula is
                            // unsatisfiable, and the collected origins are an
                            // unsatisfiable core
                            let core_ids = self.collect_core(conflict_key);
                            proof {
                                self.lemma_l0_conflict_unsat(conflict_key, core_ids@);
                            }
                            let ghost pre_core = *self;
                            self.unsat_core = core_ids;
                            proof {
                                Self::lemma_wf_counters(pre_core, *self);
                            }
                            let stats = SolveStats {
                                iterations: self.iterations,
                                conflicts: self.conflicts,
                                forgets: self.forgets,
                            };
                            proof {
                                assert(!subset_satisfiable(
                                    self.fml(),
                                    self.n(),
                                    self.unsat_core@,
                                ));
                            }
                            return Ok((SolveResult::Unsatisfiable, stats));
                        },
                        Err(_) => {
                            // the learned-clause store is full: give up
                            proof {
                                assert(self.next_learnt_id >= 0xFFFF_0000usize);
                                at_top.lemma_trail_len_bound();
                                assert(self.iterations - orig.iterations <= (self.next_learnt_id
                                    - orig.next_learnt_id) * (orig.n() + 2) + orig.n() + 1);
                            }
                            let stats = SolveStats {
                                iterations: self.iterations,
                                conflicts: self.conflicts,
                                forgets: self.forgets,
                            };
                            return Ok((SolveResult::Unknown, stats));
                        },
                        Ok(_) => {
                            let di = self.config.decay_interval;
                            if di > 0 && self.conflicts % di == 0 {
                                self.decay_activities();
                            }
                            proof {
                                // a learned clause pays for this pass
                                at_top.lemma_trail_len_bound();
                                let d0 = at_top.next_learnt_id - orig.next_learnt_id;
                                let nn = orig.n() + 2;
                                assert((d0 + 1) * nn == d0 * nn + nn) by (nonlinear_arith);
                                assert(self.next_learnt_id == at_top.next_learnt_id + 1);
                                assert(self.trail@.len() >= 1);
                                assert(self.iterations - orig.iterations <= (self.next_learnt_id
                                    - orig.next_learnt_id) * (orig.n() + 2) + self.trail@.len());
                            }
                        },
                    }
                },
                crate::solve::propagation::PropagateOutcome::Fixpoint => {
                    match self.most_active_none() {
                        None => {
                            // everything is assigned: validate and answer
                            if self.formula_sat_check() {
                                proof {
                                    self.lemma_sat_exit();
                                }
                                let stats = SolveStats {
                                    iterations: self.iterations,
                                    conflicts: self.conflicts,
                                    forgets: self.forgets,
                                };
                                return Ok((SolveResult::Satisfiable, stats));
                            } else {
                                // a falsified clause escaped the watch
                                // scheme: an internal invariant failed
                                return Err(SolveError::Hek);
                            }
                        },
                        Some(v) => {
                            if self.time_to_reduce() {
                                self.reduce();
                            }
                            proof {
                                self.lemma_level_count_bound();
                            }
                            let ghost pre_decide = *self;
                            self.decide(v);
                            proof {
                                // the new decision pays for this pass
                                assert(self.trail@.len() == pre_decide.trail@.len() + 1);
                                assert(pre_decide.trail@.len() >= at_top.trail@.len());
                                assert(self.iterations - orig.iterations <= (self.next_learnt_id
                                    - orig.next_learnt_id) * (orig.n() + 2) + self.trail@.len());
                            }
                        },
                    }
                },
            }
        }
    }

    /// Whether the reduction policy should fire.
    pub fn time_to_reduce(&self) -> (r: bool)
        ensures
            r == (self.conflicts_since_last_forget >= self.config.forget_interval),
    {
        self.conflicts_since_last_forget >= self.config.forget_interval
    }
}

} // verus!
