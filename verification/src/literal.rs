use vstd::prelude::*;

verus! {

/// Identifier of a variable: a dense index below the variable count of the
/// formula at hand.
pub type VariableId = usize;

/// A propositional literal: a variable paired with a polarity.
/// `polarity == true` stands for the variable itself, `false` for its
/// negation.
#[derive(Clone, Copy, Debug, PartialEq, Eq, Structural, Hash)]
pub struct Literal {
    pub v_id: VariableId,
    pub polarity: bool,
}

impl Literal {
    /// The literal over the same variable with the opposite polarity.
    pub open spec fn spec_negate(self) -> Literal {
        Literal { v_id: self.v_id, polarity: !self.polarity }
    }

    pub fn new(v_id: VariableId, polarity: bool) -> (l: Literal)
        ensures
            l == (Literal { v_id, polarity }),
    {
        Literal { v_id, polarity }
    }

    pub fn negate(&self) -> (r: Literal)
        ensures
            r == self.spec_negate(),
    {
        Literal { v_id: self.v_id, polarity: !self.polarity }
    }
}

} // verus!
