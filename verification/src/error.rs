use vstd::prelude::*;

verus! {

/// Why an operation rejected its input.
#[derive(Debug, Clone, Copy, PartialEq, Eq, Structural)]
pub enum Error {
    /// The sequence holds a symbol that has no complement.
    InvalidSymbol,
}

} // verus!
