//! Clauses as plain literal sequences, with the structural well-formedness
//! the solver relies on and the queries a valuation supports on a clause.

use vstd::prelude::*;

use crate::literal::Literal;
use crate::semantics::{clause_sat, lit_sat};
use crate::valuation::{lit_false, lit_true, lit_unassigned, ValuationVec};

verus! {

/// Identifier a clause carries: for an ingested clause its position in the
/// input, for a learned clause a fresh number from the solver's counter.
pub type ClauseId = usize;

#[derive(Clone, Copy, Debug, PartialEq, Eq, Structural)]
pub enum ClauseError {
    /// A clause with no literal can never be satisfied; ingest rejects it.
    Empty,
    /// A literal names a variable at or above the declared variable count.
    OutOfRange,
}

/// A clause under construction or as ingested: an identifier and its
/// literals.
#[derive(Clone, Debug)]
pub struct Clause {
    pub id: usize,
    pub literals: Vec<Literal>,
}

/// Structural well-formedness of a clause over `n` variables: at least one
/// literal, every variable in range, and no variable twice (which also rules
/// out tautologies).
pub open spec fn clause_wf(c: Seq<Literal>, n: nat) -> bool {
    &&& 1 <= c.len()
    &&& forall|i: int| 0 <= i < c.len() ==> (#[trigger] c[i]).v_id < n
    &&& forall|i: int, j: int|
        0 <= i < j < c.len() ==> (#[trigger] c[i]).v_id != (#[trigger] c[j]).v_id
}

/// Position `idx` of `c` is the sole unassigned literal and every other
/// literal of `c` is false.
pub open spec fn is_unit_on(c: Seq<Literal>, val: Seq<Option<bool>>, idx: int) -> bool {
    &&& 0 <= idx < c.len()
    &&& lit_unassigned(val, c[idx])
    &&& forall|j: int| 0 <= j < c.len() && j != idx ==> lit_false(val, #[trigger] c[j])
}

impl Clause {
    pub fn new(position: usize) -> (c: Clause)
        ensures
            c.id == position,
            c.literals@ == Seq::<Literal>::empty(),
    {
        Clause { id: position, literals: Vec::new() }
    }

    pub fn add_literal(&mut self, literal: Literal) -> (r: Result<(), ClauseError>)
        ensures
            r is Ok,
            final(self).id == old(self).id,
            final(self).literals@ == old(self).literals@.push(literal),
    {
        self.literals.push(literal);
        Ok(())
    }

    /// Whether some literal of the clause holds under the valuation.
    pub fn is_sat_on(&self, assignment: &ValuationVec) -> (r: bool)
        ensures
            r == exists|i: int|
                0 <= i < self.literals@.len() && lit_true(assignment@, #[trigger] self.literals@[i]),
    {
        let n = self.literals.len();
        let mut i: usize = 0;
        while i < n
            invariant
                i <= n,
                n == self.literals@.len(),
                forall|j: int| 0 <= j < i ==> !lit_true(assignment@, #[trigger] self.literals@[j]),
            decreases n - i,
        {
            let l = self.literals[i];
            if l.v_id < assignment.len() {
                match assignment.of_v_id(l.v_id) {
                    Some(p) => {
                        if p == l.polarity {
                            return true;
                        }
                    },
                    None => {},
                }
            }
            i = i + 1;
        }
        false
    }

    /// Whether every literal of the clause is false under the valuation.
    pub fn is_unsat_on(&self, assignment: &ValuationVec) -> (r: bool)
        ensures
            r == forall|i: int|
                0 <= i < self.literals@.len() ==> lit_false(assignment@, #[trigger] self.literals@[i]),
    {
        let n = self.literals.len();
        let mut i: usize = 0;
        while i < n
            invariant
                i <= n,
                n == self.literals@.len(),
                forall|j: int| 0 <= j < i ==> lit_false(assignment@, #[trigger] self.literals@[j]),
            decreases n - i,
        {
            let l = self.literals[i];
            let mut falsified = false;
            if l.v_id < assignment.len() {
                match assignment.of_v_id(l.v_id) {
                    Some(p) => {
                        if p != l.polarity {
                            falsified = true;
                        }
                    },
                    None => {},
                }
            }
            if !falsified {
                return false;
            }
            i = i + 1;
        }
        true
    }

    /// The unit consequence of the clause, if any: the sole unassigned
    /// literal when every other literal is false.
    pub fn find_unit_literal(&self, assignment: &ValuationVec) -> (r: Option<Literal>)
        requires
            forall|i: int|
                0 <= i < self.literals@.len() ==> (#[trigger] self.literals@[i]).v_id
                    < assignment@.len(),
        ensures
            match r {
                Some(l) => exists|idx: int|
                    #![auto]
                    is_unit_on(self.literals@, assignment@, idx) && self.literals@[idx] == l,
                None => forall|idx: int| !is_unit_on(self.literals@, assignment@, idx),
            },
    {
        let n = self.literals.len();
        let mut i: usize = 0;
        let mut unit: Option<Literal> = None;
        let ghost mut unit_idx: int = 0;
        while i < n
            invariant
                i <= n,
                n == self.literals@.len(),
                forall|j: int|
                    0 <= j < self.literals@.len() ==> (#[trigger] self.literals@[j]).v_id
                        < assignment@.len(),
                match unit {
                    Some(l) => {
                        &&& 0 <= unit_idx < i
                        &&& self.literals@[unit_idx] == l
                        &&& lit_unassigned(assignment@, l)
                        &&& forall|j: int|
                            0 <= j < i && j != unit_idx ==> lit_false(
                                assignment@,
                                #[trigger] self.literals@[j],
                            )
                    },
                    None => forall|j: int|
                        0 <= j < i ==> lit_false(assignment@, #[trigger] self.literals@[j]),
                },
            decreases n - i,
        {
            let l = self.literals[i];
            match assignment.of_v_id(l.v_id) {
                Some(p) => {
                    if p == l.polarity {
                        // the clause is satisfied: it forces nothing
                        assert(forall|idx: int|
                            is_unit_on(self.literals@, assignment@, idx) ==> false);
                        return None;
                    }
                },
                None => {
                    match unit {
                        Some(_) => {
                            // two unassigned literals: the clause forces nothing
                            assert forall|idx: int| !is_unit_on(
                                self.literals@,
                                assignment@,
                                idx,
                            ) by {
                                if is_unit_on(self.literals@, assignment@, idx) {
                                    if idx != unit_idx {
                                        assert(lit_false(
                                            assignment@,
                                            self.literals@[unit_idx],
                                        ));
                                    }
                                    if idx != i {
                                        assert(lit_false(assignment@, self.literals@[i as int]));
                                    }
                                }
                            }
                            return None;
                        },
                        None => {
                            unit = Some(l);
                            proof {
                                unit_idx = i as int;
                            }
                        },
                    }
                },
            }
            i = i + 1;
        }
        unit
    }
}

/// A well-formed clause false under a complete valuation is falsified by the
/// corresponding total assignment.
pub proof fn lemma_clause_false_unsat(c: Seq<Literal>, val: Seq<Option<bool>>, m: Seq<bool>)
    requires
        forall|i: int| 0 <= i < c.len() ==> lit_false(val, #[trigger] c[i]),
        m.len() == val.len(),
        forall|v: int| 0 <= v < val.len() && #[trigger] val[v] is Some ==> val[v] == Some(m[v]),
    ensures
        !clause_sat(m, c),
{
    assert forall|i: int| 0 <= i < c.len() implies !lit_sat(m, #[trigger] c[i]) by {
        assert(lit_false(val, c[i]));
        assert(val[c[i].v_id as int] is Some);
    }
}

} // verus!
