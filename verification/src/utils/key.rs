use vstd::prelude::*;

verus! {

/// Keys that the hash tables of this crate accept.
///
/// The module is private, so the types below are the only ones: each compares and hashes by the
/// integers it is made of.
pub trait HashKey {

}

impl HashKey for usize {

}

impl HashKey for (usize, usize) {

}

impl HashKey for (usize, usize, usize) {

}

} // verus!
