//! Variables of the numerical domains.
use vstd::prelude::*;

verus! {

/// A variable, identified by its position in the registry that made it.
#[derive(Clone, Copy, Debug, PartialEq, Eq, PartialOrd, Ord, Hash, Structural)]
pub struct Variable {
    pub id: u64,
}

impl Variable {
    pub fn new(id: u64) -> (r: Variable)
        ensures r.id == id,
    {
        Variable { id }
    }

    pub fn id(&self) -> (r: u64)
        ensures r == self.id,
    {
        self.id
    }
}

}
