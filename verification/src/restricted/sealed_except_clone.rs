//! The marker behind
//! [`CanUseCannotImplementExceptWhenClonable`](super::CanUseCannotImplementExceptWhenClonable).

use vstd::prelude::*;

verus! {

/// Marks the types that may implement the sealed trait: every `Clone` type,
/// and no other.
pub trait Sealed {

}

impl<T> Sealed for T where T: Clone {

}

} // verus!
