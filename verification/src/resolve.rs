//! Pure resolution of a caller's effective permission from a snapshot
//! of the configuration store.
//!
//! The caller's group memberships are handed in as plain values: the
//! transport layer fetches them outside of any lock and outside of this
//! library, then resolution runs as a total, deterministic computation.

use vstd::prelude::*;

use crate::config::{ConfigModel, ConfigStruct, GuildModel};
use crate::entity_id::EntityId;
use crate::permission::{lemma_level_injective, spec_dominates, BotPermission};

verus! {

/// Why a command was refused: the guild has no configuration record, or
/// the caller's resolved level does not dominate the required one.
#[derive(Debug, Clone, Copy, PartialEq, Eq, Structural)]
pub enum BotError {
    GuildNotInitialized,
    InsufficientPermission,
}

/// The level an optional grant confers: an absent grant confers none.
pub open spec fn opt_level(o: Option<BotPermission>) -> BotPermission {
    match o {
        Some(p) => p,
        None => BotPermission::NoPerm,
    }
}

/// Raises `acc` to a grant's level when that level dominates it.
pub open spec fn spec_raise(acc: BotPermission, o: Option<BotPermission>) -> BotPermission {
    match o {
        Some(p) => if spec_dominates(p, acc) {
            p
        } else {
            acc
        },
        None => acc,
    }
}

/// The baseline every caller starts from in a guild: `User` when the
/// guild defaults users in, else no permission.
pub open spec fn spec_base(g: GuildModel) -> BotPermission {
    if g.user_default {
        BotPermission::User
    } else {
        BotPermission::NoPerm
    }
}

/// Folds the grants of the given group memberships into `acc`, keeping
/// the maximum under dominance.
pub open spec fn spec_resolve_roles(g: GuildModel, roles: Seq<u64>, acc: BotPermission) -> BotPermission
    decreases roles.len(),
{
    if roles.len() == 0 {
        acc
    } else {
        spec_resolve_roles(g, roles.drop_first(), spec_raise(acc, g.grant_of(roles[0])))
    }
}

/// The effective permission of `caller` with group memberships `roles`
/// inside guild `g`: the dominance maximum of the guild baseline, the
/// caller's own grant, and the grants of the caller's groups.
pub open spec fn spec_resolve_in_guild(g: GuildModel, caller: u64, roles: Seq<u64>) -> BotPermission {
    spec_resolve_roles(g, roles, spec_raise(spec_base(g), g.grant_of(caller)))
}

/// The identifiers of a membership list.
pub open spec fn ids_of(roles: Seq<EntityId>) -> Seq<u64> {
    roles.map_values(|e: EntityId| e.0)
}

/// What resolution returns: the owner always resolves to `Owner`; with
/// no guild context nothing guild-scoped applies; a guild without a
/// configuration record is a configuration error; otherwise the
/// in-guild resolution decides.
pub open spec fn spec_user_permission(
    m: ConfigModel,
    caller: u64,
    roles: Seq<u64>,
    guild: Option<u64>,
) -> Result<BotPermission, BotError> {
    if caller == m.owner_id {
        Ok(BotPermission::Owner)
    } else {
        match guild {
            None => Ok(BotPermission::NoPerm),
            Some(gid) => match m.guild(gid) {
                None => Err(BotError::GuildNotInitialized),
                Some(gm) => Ok(spec_resolve_in_guild(gm, caller, roles)),
            },
        }
    }
}

/// Resolves the effective permission of `caller` from the snapshot
/// `cfg`, given the caller's group memberships and the guild context of
/// the invocation, if any.
pub fn user_permission(
    cfg: &ConfigStruct,
    caller: EntityId,
    roles: &Vec<EntityId>,
    guild: Option<u64>,
) -> (r: Result<BotPermission, BotError>)
    requires
        cfg@.wf(),
    ensures
        r == spec_user_permission(cfg@, caller.0, ids_of(roles@), guild),
{
    if caller.0 == cfg.owner_id {
        return Ok(BotPermission::Owner);
    }
    let gid = match guild {
        Some(gid) => gid,
        None => {
            return Ok(BotPermission::NoPerm);
        },
    };
    let server = match cfg.get_server(gid) {
        Some(server) => server,
        None => {
            return Err(BotError::GuildNotInitialized);
        },
    };
    let ghost gm = server@;
    let ghost ids = ids_of(roles@);

    let mut ret_perm = if server.user_default {
        BotPermission::User
    } else {
        BotPermission::NoPerm
    };
    match server.get_permission(caller) {
        Some(perm) => {
            if perm.dominates(&ret_perm) {
                ret_perm = perm;
            }
        },
        None => {},
    }
    let ghost acc0 = ret_perm;
    assert(acc0 == spec_raise(spec_base(gm), gm.grant_of(caller.0)));

    let n = roles.len();
    let mut k: usize = 0;
    proof {
        assert(ids.skip(0) =~= ids);
    }
    while k < n
        invariant
            k <= n,
            n == roles@.len(),
            cfg@.wf(),
            gm == server@,
            gm.wf(),
            ids == ids_of(roles@),
            spec_resolve_roles(gm, ids.skip(k as int), ret_perm) == spec_resolve_roles(
                gm,
                ids,
                acc0,
            ),
        decreases n - k,
    {
        proof {
            assert(ids.skip(k as int).len() > 0);
            assert(ids.skip(k as int)[0] == ids[k as int]);
            assert(ids.skip(k as int).drop_first() =~= ids.skip(k as int + 1));
        }
        match server.get_permission(roles[k]) {
            Some(perm) => {
                if perm.dominates(&ret_perm) {
                    ret_perm = perm;
                }
            },
            None => {},
        }
        k = k + 1;
    }
    proof {
        assert(ids.skip(n as int) =~= Seq::<u64>::empty());
    }
    Ok(ret_perm)
}

/// What authorization returns: success exactly when the resolved level
/// dominates the required one; resolution errors pass through.
pub open spec fn spec_verify_permission(
    m: ConfigModel,
    caller: u64,
    roles: Seq<u64>,
    guild: Option<u64>,
    required: BotPermission,
) -> Result<(), BotError> {
    match spec_user_permission(m, caller, roles, guild) {
        Ok(p) => if spec_dominates(p, required) {
            Ok(())
        } else {
            Err(BotError::InsufficientPermission)
        },
        Err(e) => Err(e),
    }
}

/// Authorizes a command that demands `command_permission`: succeeds
/// exactly when the caller's resolved level dominates it.
pub fn verify_permission(
    cfg: &ConfigStruct,
    caller: EntityId,
    roles: &Vec<EntityId>,
    guild: Option<u64>,
    command_permission: BotPermission,
) -> (r: Result<(), BotError>)
    requires
        cfg@.wf(),
    ensures
        r == spec_verify_permission(cfg@, caller.0, ids_of(roles@), guild, command_permission),
{
    match user_permission(cfg, caller, roles, guild) {
        Ok(perm) => {
            if perm.dominates(&command_permission) {
                Ok(())
            } else {
                Err(BotError::InsufficientPermission)
            }
        },
        Err(e) => Err(e),
    }
}

/// Authorizes a command restricted to the owner.
pub fn verify_owner(
    cfg: &ConfigStruct,
    caller: EntityId,
    roles: &Vec<EntityId>,
    guild: Option<u64>,
) -> (r: Result<(), BotError>)
    requires
        cfg@.wf(),
    ensures
        r == spec_verify_permission(
            cfg@,
            caller.0,
            ids_of(roles@),
            guild,
            BotPermission::Owner,
        ),
{
    verify_permission(cfg, caller, roles, guild, BotPermission::Owner)
}

/// Authorizes a command restricted to admins.
pub fn verify_admin(
    cfg: &ConfigStruct,
    caller: EntityId,
    roles: &Vec<EntityId>,
    guild: Option<u64>,
) -> (r: Result<(), BotError>)
    requires
        cfg@.wf(),
    ensures
        r == spec_verify_permission(
            cfg@,
            caller.0,
            ids_of(roles@),
            guild,
            BotPermission::Admin,
        ),
{
    verify_permission(cfg, caller, roles, guild, BotPermission::Admin)
}

/// Authorizes a command restricted to moderators.
pub fn verify_moderator(
    cfg: &ConfigStruct,
    caller: EntityId,
    roles: &Vec<EntityId>,
    guild: Option<u64>,
) -> (r: Result<(), BotError>)
    requires
        cfg@.wf(),
    ensures
        r == spec_verify_permission(
            cfg@,
            caller.0,
            ids_of(roles@),
            guild,
            BotPermission::Moderator,
        ),
{
    verify_permission(cfg, caller, roles, guild, BotPermission::Moderator)
}

/// Authorizes a command restricted to users.
pub fn verify_user(
    cfg: &ConfigStruct,
    caller: EntityId,
    roles: &Vec<EntityId>,
    guild: Option<u64>,
) -> (r: Result<(), BotError>)
    requires
        cfg@.wf(),
    ensures
        r == spec_verify_permission(cfg@, caller.0, ids_of(roles@), guild, BotPermission::User),
{
    verify_permission(cfg, caller, roles, guild, BotPermission::User)
}

/// One guild's grants pointwise dominate another's.
pub open spec fn grants_dominated(g1: GuildModel, g2: GuildModel) -> bool {
    forall|k: u64| spec_dominates(opt_level(#[trigger] g2.grant_of(k)), opt_level(g1.grant_of(k)))
}

/// Folding the same memberships from a dominating accumulator over
/// pointwise-dominating grants yields a dominating result.
proof fn lemma_resolve_roles_mono(
    g1: GuildModel,
    g2: GuildModel,
    roles: Seq<u64>,
    acc1: BotPermission,
    acc2: BotPermission,
)
    requires
        grants_dominated(g1, g2),
        spec_dominates(acc2, acc1),
    ensures
        spec_dominates(
            spec_resolve_roles(g2, roles, acc2),
            spec_resolve_roles(g1, roles, acc1),
        ),
    decreases roles.len(),
{
    if roles.len() > 0 {
        assert(spec_dominates(opt_level(g2.grant_of(roles[0])), opt_level(g1.grant_of(roles[0]))));
        lemma_resolve_roles_mono(
            g1,
            g2,
            roles.drop_first(),
            spec_raise(acc1, g1.grant_of(roles[0])),
            spec_raise(acc2, g2.grant_of(roles[0])),
        );
    }
}

/// Resolution is monotone: if one guild configuration dominates another
/// pointwise in its grants (the user-default flag held fixed), every
/// caller resolves to a level that dominates the one resolved before.
pub proof fn lemma_resolution_monotonic(
    g1: GuildModel,
    g2: GuildModel,
    caller: u64,
    roles: Seq<u64>,
)
    requires
        g1.user_default == g2.user_default,
        grants_dominated(g1, g2),
    ensures
        spec_dominates(
            spec_resolve_in_guild(g2, caller, roles),
            spec_resolve_in_guild(g1, caller, roles),
        ),
{
    assert(spec_dominates(opt_level(g2.grant_of(caller)), opt_level(g1.grant_of(caller))));
    lemma_resolve_roles_mono(
        g1,
        g2,
        roles,
        spec_raise(spec_base(g1), g1.grant_of(caller)),
        spec_raise(spec_base(g2), g2.grant_of(caller)),
    );
}

/// Granting one entity a level that dominates its previous grant, all
/// other grants and the user-default flag held fixed, can only raise or
/// preserve every caller's resolved permission, never lower it.
pub proof fn lemma_grant_raises_resolution(
    g1: GuildModel,
    g2: GuildModel,
    caller: u64,
    roles: Seq<u64>,
    e: u64,
    p: BotPermission,
)
    requires
        g1.user_default == g2.user_default,
        g2.grant_of(e) == Some(p),
        spec_dominates(p, opt_level(g1.grant_of(e))),
        forall|x: u64| x != e ==> #[trigger] g2.grant_of(x) == g1.grant_of(x),
    ensures
        spec_dominates(
            spec_resolve_in_guild(g2, caller, roles),
            spec_resolve_in_guild(g1, caller, roles),
        ),
{
    assert forall|k: u64|
        spec_dominates(opt_level(#[trigger] g2.grant_of(k)), opt_level(g1.grant_of(k))) by {
        if k != e {
            assert(g2.grant_of(k) == g1.grant_of(k));
        }
    }
    lemma_resolution_monotonic(g1, g2, caller, roles);
}

/// The fold result dominates its accumulator.
proof fn lemma_resolve_roles_dominates_acc(g: GuildModel, roles: Seq<u64>, acc: BotPermission)
    ensures
        spec_dominates(spec_resolve_roles(g, roles, acc), acc),
    decreases roles.len(),
{
    if roles.len() > 0 {
        lemma_resolve_roles_dominates_acc(
            g,
            roles.drop_first(),
            spec_raise(acc, g.grant_of(roles[0])),
        );
    }
}

/// The fold result dominates the grant of every listed membership.
proof fn lemma_resolve_roles_dominates_member(
    g: GuildModel,
    roles: Seq<u64>,
    acc: BotPermission,
    i: int,
)
    requires
        0 <= i < roles.len(),
    ensures
        spec_dominates(spec_resolve_roles(g, roles, acc), opt_level(g.grant_of(roles[i]))),
    decreases roles.len(),
{
    if i == 0 {
        lemma_resolve_roles_dominates_acc(
            g,
            roles.drop_first(),
            spec_raise(acc, g.grant_of(roles[0])),
        );
    } else {
        assert(roles.drop_first()[i - 1] == roles[i]);
        lemma_resolve_roles_dominates_member(
            g,
            roles.drop_first(),
            spec_raise(acc, g.grant_of(roles[0])),
            i - 1,
        );
    }
}

/// The fold result is the accumulator itself or the grant of one of the
/// listed memberships.
proof fn lemma_resolve_roles_contribution(g: GuildModel, roles: Seq<u64>, acc: BotPermission)
    ensures
        spec_resolve_roles(g, roles, acc) == acc || exists|i: int|
            0 <= i < roles.len() && Some(spec_resolve_roles(g, roles, acc)) == #[trigger] g.grant_of(
                roles[i],
            ),
    decreases roles.len(),
{
    if roles.len() > 0 {
        let acc1 = spec_raise(acc, g.grant_of(roles[0]));
        let r = spec_resolve_roles(g, roles, acc);
        lemma_resolve_roles_contribution(g, roles.drop_first(), acc1);
        if r == acc1 {
            if acc1 != acc {
                assert(Some(r) == g.grant_of(roles[0]));
            }
        } else {
            let i = choose|i: int|
                0 <= i < roles.drop_first().len() && Some(r) == #[trigger] g.grant_of(
                    roles.drop_first()[i],
                );
            assert(roles.drop_first()[i] == roles[i + 1]);
            assert(Some(r) == g.grant_of(roles[i + 1]));
        }
    }
}

/// Resolution does not depend on the order in which the caller's group
/// memberships are listed: permuting the membership sequence leaves the
/// resolved permission unchanged.
pub proof fn lemma_resolution_permutation(
    g: GuildModel,
    caller: u64,
    roles1: Seq<u64>,
    roles2: Seq<u64>,
)
    requires
        roles1.to_multiset() == roles2.to_multiset(),
    ensures
        spec_resolve_in_guild(g, caller, roles1) == spec_resolve_in_guild(g, caller, roles2),
{
    let acc0 = spec_raise(spec_base(g), g.grant_of(caller));
    let r1 = spec_resolve_roles(g, roles1, acc0);
    let r2 = spec_resolve_roles(g, roles2, acc0);
    roles1.to_multiset_ensures();
    roles2.to_multiset_ensures();
    lemma_resolve_dominates_other(g, roles1, roles2, acc0);
    lemma_resolve_dominates_other(g, roles2, roles1, acc0);
    lemma_level_injective(r1, r2);
}

/// One direction of the permutation argument: the fold over one listing
/// dominates the fold over a listing with the same memberships.
proof fn lemma_resolve_dominates_other(
    g: GuildModel,
    roles1: Seq<u64>,
    roles2: Seq<u64>,
    acc: BotPermission,
)
    requires
        roles1.to_multiset() == roles2.to_multiset(),
    ensures
        spec_dominates(
            spec_resolve_roles(g, roles2, acc),
            spec_resolve_roles(g, roles1, acc),
        ),
{
    let r1 = spec_resolve_roles(g, roles1, acc);
    roles1.to_multiset_ensures();
    roles2.to_multiset_ensures();
    lemma_resolve_roles_contribution(g, roles1, acc);
    if r1 == acc {
        lemma_resolve_roles_dominates_acc(g, roles2, acc);
    } else {
        let i = choose|i: int|
            0 <= i < roles1.len() && Some(r1) == #[trigger] g.grant_of(roles1[i]);
        assert(roles1.contains(roles1[i]));
        assert(roles1.to_multiset().count(roles1[i]) > 0);
        assert(roles2.to_multiset().count(roles1[i]) > 0);
        assert(roles2.contains(roles1[i]));
        let j = choose|j: int| 0 <= j < roles2.len() && roles2[j] == roles1[i];
        lemma_resolve_roles_dominates_member(g, roles2, acc, j);
    }
}

/// Permutation invariance lifted to the whole resolution: the owner
/// override, the no-guild case and the missing-guild error never read
/// the memberships, and in-guild resolution is order-independent.
pub proof fn lemma_user_permission_permutation(
    m: ConfigModel,
    caller: u64,
    roles1: Seq<u64>,
    roles2: Seq<u64>,
    guild: Option<u64>,
)
    requires
        roles1.to_multiset() == roles2.to_multiset(),
    ensures
        spec_user_permission(m, caller, roles1, guild) == spec_user_permission(
            m,
            caller,
            roles2,
            guild,
        ),
{
    if caller != m.owner_id {
        match guild {
            Some(g) => match m.guild(g) {
                Some(gm) => lemma_resolution_permutation(gm, caller, roles1, roles2),
                None => {},
            },
            None => {},
        }
    }
}

} // verus!
