//! Index-based handles into the output profile's tables.
//!
//! Every string, category, marker schema, marker, counter, thread and
//! process that crosses into the output profile is referred to by an index
//! into the corresponding table.

use vstd::prelude::*;

verus! {

/// Handle of an interned string in the profile's string table.
#[derive(Clone, Copy, Debug, PartialEq, Eq, Structural)]
pub struct StringHandle(pub usize);

/// Handle of a category in the profile's category table.
#[derive(Clone, Copy, Debug, PartialEq, Eq, Structural)]
pub struct CategoryHandle(pub usize);

/// Handle of a registered marker schema.
#[derive(Clone, Copy, Debug, PartialEq, Eq, Structural)]
pub struct MarkerTypeHandle(pub usize);

/// Handle of a marker instance already added to the profile.
#[derive(Clone, Copy, Debug, PartialEq, Eq, Structural)]
pub struct MarkerHandle(pub usize);

/// Handle of a counter track.
#[derive(Clone, Copy, Debug, PartialEq, Eq, Structural)]
pub struct CounterHandle(pub usize);

/// Handle of a thread, assigned by the collaborator that registered it.
#[derive(Clone, Copy, Debug, PartialEq, Eq, Structural)]
pub struct ThreadHandle(pub usize);

/// Handle of a process, assigned by the collaborator that registered it.
#[derive(Clone, Copy, Debug, PartialEq, Eq, Structural)]
pub struct ProcessHandle(pub usize);

} // verus!
