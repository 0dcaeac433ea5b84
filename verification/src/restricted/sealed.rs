//! The marker behind [`CanUseCannotImplement`](super::CanUseCannotImplement).

use vstd::prelude::*;

verus! {

/// Marks the types that may implement the sealed trait. Nothing outside
/// this crate can reach it.
pub trait Sealed {

}

} // verus!
