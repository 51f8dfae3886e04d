//! The hook by which a format brings a byte transform of its own.

use vstd::prelude::*;

verus! {

/// A byte transform that a format supplies: it takes the bytes as they were
/// read and gives the bytes to parse. Nothing is asked of what it returns.
pub trait CustomDecoder {
    fn decode(&self, bytes: &[u8]) -> Vec<u8>;
}

} // verus!
