//! The mark of the key types of this crate.

use vstd::prelude::*;
use crate::principal::Principal;
use crate::table::EventParty;

verus! {

/// Only this crate says which types are keys: the equality of each of them
/// is decided by code that is verified here.
pub trait Sealed {}

impl Sealed for u64 {}

impl Sealed for Principal {}

impl Sealed for EventParty {}

} // verus!
