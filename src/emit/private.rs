use vstd::prelude::*;

verus! {

/// Keeps the trait that requires it closed to implementations outside this
/// crate.
pub trait Sealed {}

} // verus!
