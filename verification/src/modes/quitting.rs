//! The mode in which the editor ends.

use vstd::prelude::*;

verus! {

/// The last mode: once it is on top of the stack, no more input is taken.
#[derive(Debug, PartialEq, Eq, Clone, Copy, Structural)]
pub struct Quitting();

impl Quitting {
    pub fn name(&self) -> (r: String)
        ensures
            r@ == "QUITTING"@,
    {
        "QUITTING".to_owned()
    }
}

} // verus!
