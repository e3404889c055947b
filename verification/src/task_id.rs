//! Task identifiers.

use core::cmp::Ordering;
use vstd::prelude::*;

verus! {

/// An opaque task identifier, wrapping around a `u64`. Comparison operations tell whether two
/// identifiers are equal and which of them is older. In general, a task made later has a greater
/// identifier.
///
/// *However,* identifiers are made with a wrapping addition, so after `u64::MAX` further tasks the
/// "age" of a task can no longer be told from comparison operations; `CosyncTaskId(0)` comes
/// around again eventually.
#[derive(Debug, Clone, Copy, PartialEq, Eq, Ord, Structural)]
pub struct CosyncTaskId(pub u64);

impl CosyncTaskId {
    /// A task identifier set to the greatest value there is. In theory it could refer to a valid
    /// task, but only to one made after `u64::MAX` others.
    pub fn dangling() -> (id: CosyncTaskId)
        ensures
            id.0 == u64::MAX,
    {
        CosyncTaskId(u64::MAX)
    }
}

impl vstd::std_specs::cmp::PartialOrdSpecImpl for CosyncTaskId {
    open spec fn obeys_partial_cmp_spec() -> bool {
        true
    }

    open spec fn partial_cmp_spec(&self, other: &CosyncTaskId) -> Option<Ordering> {
        if self.0 < other.0 {
            Some(Ordering::Less)
        } else if self.0 > other.0 {
            Some(Ordering::Greater)
        } else {
            Some(Ordering::Equal)
        }
    }
}

impl PartialOrd for CosyncTaskId {
    fn partial_cmp(&self, other: &CosyncTaskId) -> (order: Option<Ordering>) {
        if self.0 < other.0 {
            Some(Ordering::Less)
        } else if self.0 > other.0 {
            Some(Ordering::Greater)
        } else {
            Some(Ordering::Equal)
        }
    }
}

} // verus!
