//! Public traits that other crates may use as bounds but cannot freely
//! implement.
//!
//! Each trait has a supertrait that lives in a private module. A crate
//! outside this one cannot name that supertrait, so it cannot write an impl
//! of it, and without one it cannot implement the public trait either.

mod sealed;
mod sealed_except_clone;

use vstd::prelude::*;

verus! {

/// A trait for this crate alone: nothing outside can see it.
#[allow(dead_code)]
pub(crate) trait PrivateTraitA {

}

/// A trait that no other crate can implement: its supertrait has no impl
/// outside this crate.
pub trait CanUseCannotImplement: sealed::Sealed {

}

/// A trait that another crate can implement only for types that are
/// `Clone`: those are the types that have the supertrait.
pub trait CanUseCannotImplementExceptWhenClonable: sealed_except_clone::Sealed {

}

} // verus!
