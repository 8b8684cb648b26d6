//! Clauses as the solver stores them: the literals together with the two
//! watch indices, the LBD score, and the indices of the input clauses the
//! clause was derived from.

use vstd::prelude::*;

use crate::clause::{clause_wf, ClauseId};
use crate::literal::Literal;
use crate::valuation::{lit_false, lit_true, lit_unassigned, ValuationVec};

verus! {

/// Where a stored clause came from: the input formula, or resolution during
/// conflict analysis.
#[derive(Clone, Copy, Debug, PartialEq, Eq, Structural)]
pub enum ClauseSource {
    Formula,
    Resolution,
}

/// A stable handle of a stored clause: an index into the formula store, or a
/// slot-map key into the learned store.
#[derive(Clone, Copy, Debug)]
pub enum ClauseKey {
    Formula(usize),
    Learnt(slotmap::DefaultKey),
}

/// Which of the two watched positions of a clause is meant.
#[derive(Clone, Copy, Debug, PartialEq, Eq, Structural)]
pub enum Watch {
    A,
    B,
}

/// What the two watched literals of a clause say about it under a valuation.
#[derive(Clone, Copy, Debug, PartialEq, Eq, Structural)]
pub enum ClauseStatus {
    /// Some watched literal is true.
    Satisfied,
    /// Both watched literals are false.
    Conflict,
    /// The named literal is unassigned and the other watched literal is
    /// false: the clause entails it.
    Entails(Literal),
    /// Both watched literals are unassigned.
    Unsatisfied,
}

/// A clause in the store.  `origins` lists indices of input clauses whose
/// conjunction entails this clause (for a formula clause, its own index).
#[derive(Clone, Debug)]
pub struct StoredClause {
    pub id: ClauseId,
    pub source: ClauseSource,
    pub lits: Vec<Literal>,
    pub watch_a: usize,
    pub watch_b: usize,
    pub lbd: usize,
    pub origins: Vec<usize>,
}

impl StoredClause {
    /// Watch indices are in range, and distinct on clauses that have two
    /// positions to watch.
    pub open spec fn watches_wf(&self) -> bool {
        &&& self.watch_a < self.lits@.len()
        &&& self.watch_b < self.lits@.len()
        &&& self.lits@.len() >= 2 ==> self.watch_a != self.watch_b
    }

    pub open spec fn wf(&self, n: nat) -> bool {
        &&& clause_wf(self.lits@, n)
        &&& self.watches_wf()
    }

    pub fn new_from(id: ClauseId, lits: Vec<Literal>, source: ClauseSource, origins: Vec<usize>) -> (c:
        StoredClause)
        requires
            lits@.len() >= 1,
        ensures
            c.id == id,
            c.source == source,
            c.lits == lits,
            c.origins == origins,
            c.lbd == 0,
            c.watches_wf(),
    {
        let watch_b: usize = if lits.len() >= 2 {
            1
        } else {
            0
        };
        StoredClause { id, source, lits, watch_a: 0, watch_b, lbd: 0, origins }
    }

    pub fn id(&self) -> (r: ClauseId)
        ensures
            r == self.id,
    {
        self.id
    }

    pub fn source(&self) -> (r: ClauseSource)
        ensures
            r == self.source,
    {
        self.source
    }

    pub fn clause(&self) -> (r: &Vec<Literal>)
        ensures
            r == &self.lits,
    {
        &self.lits
    }

    pub fn literal_at(&self, position: usize) -> (r: Literal)
        requires
            position < self.lits@.len(),
        ensures
            r == self.lits@[position as int],
    {
        self.lits[position]
    }

    pub fn length(&self) -> (r: usize)
        ensures
            r == self.lits@.len(),
    {
        self.lits.len()
    }

    pub fn get_watch(&self, a_or_b: Watch) -> (r: usize)
        ensures
            r == match a_or_b {
                Watch::A => self.watch_a,
                Watch::B => self.watch_b,
            },
    {
        match a_or_b {
            Watch::A => self.watch_a,
            Watch::B => self.watch_b,
        }
    }

    pub fn watched_a(&self) -> (r: Literal)
        requires
            self.watches_wf(),
            self.lits@.len() >= 1,
        ensures
            r == self.lits@[self.watch_a as int],
    {
        self.lits[self.watch_a]
    }

    pub fn watched_b(&self) -> (r: Literal)
        requires
            self.watches_wf(),
            self.lits@.len() >= 1,
        ensures
            r == self.lits@[self.watch_b as int],
    {
        self.lits[self.watch_b]
    }

    pub fn set_lbd(&mut self, lbd: usize)
        ensures
            *final(self) == (StoredClause { lbd, ..*old(self) }),
    {
        self.lbd = lbd;
    }

    pub fn lbd(&self) -> (r: usize)
        ensures
            r == self.lbd,
    {
        self.lbd
    }

    /// A copy of the clause's literals.
    pub fn clause_clone(&self) -> (r: Vec<Literal>)
        ensures
            r@ == self.lits@,
    {
        let r = self.lits.clone();
        proof {
            assert forall|i: int| 0 <= i < self.lits@.len() implies r@[i] == self.lits@[i] by {
                assert(cloned::<Literal>(self.lits@[i], r@[i]));
            }
            assert(r@ =~= self.lits@);
        }
        r
    }

    /// What the watched literals say about the clause under `val`.  A unit
    /// clause watches its sole literal from both positions.
    pub fn watch_choices(&self, val: &ValuationVec) -> (r: ClauseStatus)
        requires
            self.watches_wf(),
            self.lits@.len() >= 1,
            self.lits@[self.watch_a as int].v_id < val@.len(),
            self.lits@[self.watch_b as int].v_id < val@.len(),
        ensures
            ({
                let la = self.lits@[self.watch_a as int];
                let lb = self.lits@[self.watch_b as int];
                match r {
                    ClauseStatus::Satisfied => lit_true(val@, la) || lit_true(val@, lb),
                    ClauseStatus::Conflict => lit_false(val@, la) && lit_false(val@, lb),
                    ClauseStatus::Entails(l) => lit_unassigned(val@, l) && ((l == la && lit_false(
                        val@,
                        lb,
                    )) || (l == lb && lit_false(val@, la)) || (self.lits@.len() == 1 && l == la)),
                    ClauseStatus::Unsatisfied => lit_unassigned(val@, la) && lit_unassigned(
                        val@,
                        lb,
                    ) && self.lits@.len() >= 2,
                }
            }),
    {
        let a_literal = self.lits[self.watch_a];
        let a_val = val.of_v_id(a_literal.v_id);
        if self.lits.len() == 1 {
            // both watches point at the sole literal
            return match a_val {
                Some(p) => {
                    if p == a_literal.polarity {
                        ClauseStatus::Satisfied
                    } else {
                        ClauseStatus::Conflict
                    }
                },
                None => ClauseStatus::Entails(a_literal),
            };
        }
        let b_literal = self.lits[self.watch_b];
        let b_val = val.of_v_id(b_literal.v_id);
        match (a_val, b_val) {
            (Some(pa), Some(pb)) => {
                if pa == a_literal.polarity || pb == b_literal.polarity {
                    ClauseStatus::Satisfied
                } else {
                    ClauseStatus::Conflict
                }
            },
            (Some(pa), None) => {
                if pa == a_literal.polarity {
                    ClauseStatus::Satisfied
                } else {
                    ClauseStatus::Entails(b_literal)
                }
            },
            (None, Some(pb)) => {
                if pb == b_literal.polarity {
                    ClauseStatus::Satisfied
                } else {
                    ClauseStatus::Entails(a_literal)
                }
            },
            (None, None) => ClauseStatus::Unsatisfied,
        }
    }
}

} // verus!
