use vstd::prelude::*;

verus! {

/// The recoverable failures of the tree and proof operations.
#[derive(Clone, Copy, Debug, PartialEq, Eq, Structural)]
pub enum MerkleError {
    /// A tree was requested over no leaves at all.
    EmptyInput,
    /// The top level of a tree does not hold exactly one hash.
    MalformedTree,
    /// A root was requested from a proof without links.
    EmptyProof,
    /// A link of a proof after the first gives no side to join its hash on.
    MalformedProof,
}

} // verus!
