//! Hierarchical permission levels and their dominance order.

use vstd::prelude::*;

verus! {

/// A grant level, ordered from most to least privileged. `Owner` is a
/// sentinel maximum that is never user-assignable; `None` is the absence
/// of a grant.
#[derive(Debug, Clone, Copy, PartialEq, Eq, Structural)]
pub enum BotPermission {
    Owner,
    Admin,
    Moderator,
    User,
    NoPerm,
}

/// Numeric rank of a level; dominance compares these ranks.
pub open spec fn spec_level(p: BotPermission) -> u8 {
    match p {
        BotPermission::Owner => u8::MAX,
        BotPermission::Admin => 3,
        BotPermission::Moderator => 2,
        BotPermission::User => 1,
        BotPermission::NoPerm => 0,
    }
}

/// `a` dominates `b` when `a` is at least as privileged as `b`.
pub open spec fn spec_dominates(a: BotPermission, b: BotPermission) -> bool {
    spec_level(a) >= spec_level(b)
}

impl BotPermission {
    /// Rank of this level as an integer.
    pub fn level(&self) -> (r: u8)
        ensures
            r == spec_level(*self),
    {
        match self {
            BotPermission::Owner => u8::MAX,
            BotPermission::Admin => 3,
            BotPermission::Moderator => 2,
            BotPermission::User => 1,
            BotPermission::NoPerm => 0,
        }
    }

    /// Whether this level is at least as privileged as `perm`.
    pub fn dominates(&self, perm: &BotPermission) -> (r: bool)
        ensures
            r == spec_dominates(*self, *perm),
    {
        self.level() >= perm.level()
    }
}

/// Dominance is a total order on levels: it is reflexive, antisymmetric,
/// transitive and total; `Owner` dominates every level, every level
/// dominates `None`, and for distinct levels exactly one direction of
/// dominance holds.
pub proof fn lemma_dominance_total_order()
    ensures
        forall|a: BotPermission| #[trigger] spec_dominates(a, a),
        forall|a: BotPermission, b: BotPermission|
            #[trigger] spec_dominates(a, b) && spec_dominates(b, a) ==> a == b,
        forall|a: BotPermission, b: BotPermission, c: BotPermission|
            #[trigger] spec_dominates(a, b) && #[trigger] spec_dominates(b, c)
                ==> spec_dominates(a, c),
        forall|a: BotPermission, b: BotPermission|
            #[trigger] spec_dominates(a, b) || #[trigger] spec_dominates(b, a),
        forall|a: BotPermission| #[trigger] spec_dominates(BotPermission::Owner, a),
        forall|a: BotPermission| #[trigger] spec_dominates(a, BotPermission::NoPerm),
        forall|a: BotPermission, b: BotPermission|
            a != b ==> !(#[trigger] spec_dominates(a, b) && #[trigger] spec_dominates(b, a)),
{
    assert forall|a: BotPermission, b: BotPermission|
        spec_dominates(a, b) && spec_dominates(b, a) implies a == b by {
        lemma_level_injective(a, b);
    }
    assert forall|a: BotPermission, b: BotPermission|
        a != b implies !(spec_dominates(a, b) && spec_dominates(b, a)) by {
        lemma_level_injective(a, b);
    }
}

/// Two levels with the same rank are the same level.
pub proof fn lemma_level_injective(a: BotPermission, b: BotPermission)
    ensures
        spec_level(a) == spec_level(b) ==> a == b,
{
}

} // verus!
