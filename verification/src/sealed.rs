//! The marker that closes the set of alphabets.
use vstd::prelude::*;

verus! {

/// Implemented by the alphabets of this crate and by nothing else: the
/// module that holds it is private.
pub trait Sealed {

}

} // verus!
