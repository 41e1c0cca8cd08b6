//! A uniform identifier for permission-holding principals.

use vstd::prelude::*;

verus! {

/// Identifies a principal — an individual caller or a group/role — in one
/// shared key space, so that a single grants map can hold either kind.
/// Two identifiers are equal exactly when their underlying numeric values
/// match, regardless of which principal kind produced them.
#[derive(Copy, Clone, Debug, Eq, Hash, PartialEq, Structural)]
pub struct EntityId(pub u64);

impl From<u64> for EntityId {
    fn from(item: u64) -> (r: EntityId)
        ensures
            r.0 == item,
    {
        EntityId(item)
    }
}

impl vstd::std_specs::convert::FromSpecImpl<u64> for EntityId {
    open spec fn obeys_from_spec() -> bool {
        true
    }

    open spec fn from_spec(v: u64) -> EntityId {
        EntityId(v)
    }
}

impl From<EntityId> for u64 {
    fn from(item: EntityId) -> (r: u64)
        ensures
            r == item.0,
    {
        item.0
    }
}

impl vstd::std_specs::convert::FromSpecImpl<EntityId> for u64 {
    open spec fn obeys_from_spec() -> bool {
        true
    }

    open spec fn from_spec(v: EntityId) -> u64 {
        v.0
    }
}

impl Default for EntityId {
    fn default() -> (r: EntityId)
        ensures
            r.0 == 0,
    {
        EntityId(0)
    }
}

} // verus!
