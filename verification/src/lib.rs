//! A Merkle tree over an ordered sequence of text leaves: construction,
//! inclusion proofs, and verification of a proof against a known root.
//!
//! The hash function is supplied by the caller. Contracts speak of it through
//! [`hashing::computes`]: whatever mathematical function the caller's hash
//! function computes, the tree and the recomputed root are stated over it.

pub mod error;
pub mod hashing;
pub mod inclusion;
pub mod laws;
pub mod levels;
pub mod sha256;
pub mod tree;

pub use error::MerkleError;
pub use inclusion::{
    verify_belongs_to_tree, MerkleTreeDirection, MerkleTreeProof, MerkleTreeProofLink,
};
pub use sha256::{sha256_hash, try_sha256_hash};
pub use tree::MerkleTree;

use vstd::prelude::*;
use vstd::string::*;

verus! {

/// An opaque digest, held as text. Two hashes are the same when their text is.
#[derive(Debug)]
pub struct Hash {
    value: String,
}

impl View for Hash {
    type V = Seq<char>;

    closed spec fn view(&self) -> Seq<char> {
        self.value@
    }
}

impl Hash {
    /// The hash whose text is `value`.
    pub fn new(value: &str) -> (hash: Hash)
        ensures
            hash@ == value@,
    {
        Hash { value: String::from_str(value) }
    }

    /// The text of this hash.
    pub fn as_str(&self) -> (text: &str)
        ensures
            text@ == self@,
    {
        self.value.as_str()
    }

    /// The text of this hash followed by the text of `right`: what a hash
    /// function is given for a pair of children.
    pub fn joined(&self, right: &Hash) -> (text: String)
        ensures
            text@ == self@ + right@,
    {
        self.value.clone().concat(right.value.as_str())
    }
}

impl Clone for Hash {
    fn clone(&self) -> (copy: Hash)
        ensures
            copy == *self,
    {
        Hash { value: self.value.clone() }
    }
}

impl PartialEq for Hash {
    fn eq(&self, other: &Hash) -> (same: bool) {
        self.value == other.value
    }
}

impl vstd::std_specs::cmp::PartialEqSpecImpl for Hash {
    open spec fn obeys_eq_spec() -> bool {
        true
    }

    open spec fn eq_spec(&self, other: &Hash) -> bool {
        self@ == other@
    }
}

} // verus!
