use vstd::prelude::*;

verus! {

/// The ways a traversal can fail. The first failure anywhere in the call chain
/// stops all further callbacks for that traversal and is returned to whoever
/// initiated it; partial destination state is to be discarded by the caller.
#[derive(Clone, Copy, PartialEq, Eq, Structural, Debug)]
pub enum GeomError {
    /// The destination could not accept emitted output.
    Encoding,
    /// The consumer was handed an event for a geometry kind it deliberately
    /// does not support.
    Unsupported,
    /// The driver broke the begin/end or index discipline.
    Violation,
}

} // verus!
