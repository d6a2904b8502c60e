//! The closed list of key types.

use vstd::prelude::*;

verus! {

/// Implemented by the key types of this library and by no other type.
pub trait Sealed {

}

impl Sealed for usize {

}

impl Sealed for i128 {

}

impl Sealed for (usize, usize) {

}

impl Sealed for (usize, usize, usize) {

}

} // verus!
