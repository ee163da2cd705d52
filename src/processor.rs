//! What a node's parameters offer to the host: their state as bytes.
use vstd::prelude::*;

verus! {

/// A node's parameter state, saved to and restored from bytes.
pub trait Parameters {
    fn serialize(&self) -> Vec<u8>;

    fn deserialize(&self, bytes: &[u8]);
}

impl Parameters for () {
    fn serialize(&self) -> Vec<u8> {
        Vec::new()
    }

    fn deserialize(&self, bytes: &[u8]) {
    }
}

} // verus!
