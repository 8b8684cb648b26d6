//! The partial assignment: one `Option<bool>` per variable.

use vstd::prelude::*;

use crate::literal::{Literal, VariableId};

verus! {

/// A partial assignment of fixed size: entry `v` is the value of variable `v`,
/// or `None` while the variable is unassigned.
#[derive(Clone, Debug)]
pub struct ValuationVec {
    pub status: Vec<Option<bool>>,
}

impl View for ValuationVec {
    type V = Seq<Option<bool>>;

    open spec fn view(&self) -> Seq<Option<bool>> {
        self.status@
    }
}

/// The literal holds under the partial valuation.
pub open spec fn lit_true(val: Seq<Option<bool>>, l: Literal) -> bool {
    l.v_id < val.len() && val[l.v_id as int] == Some(l.polarity)
}

/// The literal's variable is assigned the opposite polarity.
pub open spec fn lit_false(val: Seq<Option<bool>>, l: Literal) -> bool {
    l.v_id < val.len() && val[l.v_id as int] == Some(!l.polarity)
}

/// The literal's variable is in range and not yet assigned.
pub open spec fn lit_unassigned(val: Seq<Option<bool>>, l: Literal) -> bool {
    l.v_id < val.len() && val[l.v_id as int] is None
}

impl ValuationVec {
    /// A valuation of `n` variables, all unassigned.
    pub fn new_for_variables(n: usize) -> (r: ValuationVec)
        ensures
            r@.len() == n,
            forall|v: int| 0 <= v < n ==> r@[v] is None,
    {
        let mut status: Vec<Option<bool>> = Vec::new();
        let mut i: usize = 0;
        while i < n
            invariant
                i <= n,
                status@.len() == i,
                forall|v: int| 0 <= v < i ==> status@[v] is None,
            decreases n - i,
        {
            status.push(None);
            i = i + 1;
        }
        ValuationVec { status }
    }

    pub fn len(&self) -> (r: usize)
        ensures
            r == self@.len(),
    {
        self.status.len()
    }

    /// The current value of variable `v`.
    pub fn of_v_id(&self, v: VariableId) -> (r: Option<bool>)
        requires
            v < self@.len(),
        ensures
            r == self@[v as int],
    {
        self.status[v]
    }

    /// Record a value for variable `v`.
    pub fn set_v_id(&mut self, v: VariableId, polarity: bool)
        requires
            v < old(self)@.len(),
        ensures
            final(self)@ == old(self)@.update(v as int, Some(polarity)),
    {
        self.status.set(v, Some(polarity));
    }

    /// Return variable `v` to the unassigned state.
    pub fn clear_v_id(&mut self, v: VariableId)
        requires
            v < old(self)@.len(),
        ensures
            final(self)@ == old(self)@.update(v as int, None::<bool>),
    {
        self.status.set(v, None);
    }

    /// Whether every variable is assigned.
    pub fn is_complete(&self) -> (r: bool)
        ensures
            r == forall|v: int| 0 <= v < self@.len() ==> self@[v] is Some,
    {
        let mut i: usize = 0;
        let n = self.status.len();
        while i < n
            invariant
                i <= n,
                n == self@.len(),
                forall|v: int| 0 <= v < i ==> self@[v] is Some,
            decreases n - i,
        {
            if self.status[i].is_none() {
                return false;
            }
            i = i + 1;
        }
        true
    }

    /// Collapse a complete valuation into a total assignment.
    pub fn as_model(&self) -> (r: Vec<bool>)
        requires
            forall|v: int| 0 <= v < self@.len() ==> self@[v] is Some,
        ensures
            r@.len() == self@.len(),
            forall|v: int| 0 <= v < self@.len() ==> self@[v] == Some(r@[v]),
    {
        let mut r: Vec<bool> = Vec::new();
        let mut i: usize = 0;
        let n = self.status.len();
        while i < n
            invariant
                i <= n,
                n == self@.len(),
                r@.len() == i,
                forall|v: int| 0 <= v < self@.len() ==> self@[v] is Some,
                forall|v: int| 0 <= v < i ==> self@[v] == Some(r@[v]),
            decreases n - i,
        {
            match self.status[i] {
                Some(b) => r.push(b),
                None => r.push(false),
            }
            i = i + 1;
        }
        r
    }
}

} // verus!
