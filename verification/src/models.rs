use vstd::prelude::*;

verus! {

/// The right an option contract carries.
#[derive(Debug, Clone, Copy, PartialEq, Eq, Structural)]
pub enum OptionKind {
    Call,
    Put,
}

} // verus!
