use vstd::prelude::*;

verus! {

/// The kinds of bank account.
#[derive(Debug, Clone, Copy, PartialEq, Eq, Structural)]
pub enum AccType {
    Current,
    Savings,
    Investment,
}

} // verus!
