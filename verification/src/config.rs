//! The configuration store: per-guild settings with explicit permission
//! grants, plus the global settings that are not guild-scoped.

use vstd::prelude::*;
use vstd::pervasive::VecAdditionalExecFns;
use vstd::string::StringExecFns;

use crate::entity_id::EntityId;
use crate::permission::BotPermission;
use crate::table::{
    keys_strictly_sorted, lemma_lookup_absent, lemma_lookup_at, lemma_lookup_insert,
    lemma_lookup_remove, lemma_lookup_update, lemma_remove_insert_is_update, locate_key,
    spec_lookup,
};

verus! {

/// Which command families the process serves.
#[derive(Debug, Clone, Copy, PartialEq, Eq, Structural)]
pub enum BotModes {
    Latex,
    Music,
    Soundboard,
    All,
}

/// The advertised display status, held as the library's own value so
/// that the store can carry it without the transport layer's types.
#[derive(Debug, Clone, Copy, PartialEq, Eq, Structural)]
pub enum ActivityKind {
    Playing,
    Streaming,
    Listening,
    Watching,
    Competing,
}

/// The single secret used to authenticate to the external transport.
#[derive(Debug)]
pub struct Credentials {
    pub token: String,
}

impl Default for Credentials {
    fn default() -> (r: Credentials)
        ensures
            r.token@ == "<fancy_token>"@,
    {
        Credentials { token: String::from_str("<fancy_token>") }
    }
}

/// `v` forced into the allowed volume range.
pub open spec fn spec_clamp_volume(v: u8) -> u8 {
    if v < 10 {
        10
    } else if v > 100 {
        100
    } else {
        v
    }
}

/// Mathematical model of one guild's configuration.
#[verifier::ext_equal]
pub ghost struct GuildModel {
    pub volume: u8,
    pub auto_playlist: bool,
    pub user_default: bool,
    pub grants: Seq<(u64, BotPermission)>,
}

impl GuildModel {
    /// Grants are canonically sorted, hold no revoked (`NoPerm`) entry,
    /// and the volume lies in the allowed range.
    pub open spec fn wf(self) -> bool {
        &&& keys_strictly_sorted(self.grants)
        &&& 10 <= self.volume <= 100
        &&& forall|i: int|
            0 <= i < self.grants.len() ==> (#[trigger] self.grants[i]).1 != BotPermission::NoPerm
    }

    /// The explicit grant held by `id`, if any.
    pub open spec fn grant_of(self, id: u64) -> Option<BotPermission> {
        spec_lookup(self.grants, id)
    }

    /// The model a freshly initialised guild starts from.
    pub open spec fn default_model() -> GuildModel {
        GuildModel { volume: 80, auto_playlist: false, user_default: false, grants: Seq::empty() }
    }
}

/// Per-guild settings: volume, feature flags and the explicit
/// entity-to-permission grants.
#[derive(Debug)]
pub struct ServerAudioStruct {
    pub volume: u8,
    pub auto_playlist: bool,
    pub user_default: bool,
    pub entity_permission: Vec<(u64, BotPermission)>,
}

impl View for ServerAudioStruct {
    type V = GuildModel;

    open spec fn view(&self) -> GuildModel {
        GuildModel {
            volume: self.volume,
            auto_playlist: self.auto_playlist,
            user_default: self.user_default,
            grants: self.entity_permission@,
        }
    }
}

impl Default for ServerAudioStruct {
    fn default() -> (r: ServerAudioStruct)
        ensures
            r@ == GuildModel::default_model(),
            r@.wf(),
    {
        let r = ServerAudioStruct {
            volume: 80,
            auto_playlist: false,
            user_default: false,
            entity_permission: Vec::new(),
        };
        proof {
            assert(r@.grants =~= GuildModel::default_model().grants);
            assert(r@ =~= GuildModel::default_model());
        }
        r
    }
}

impl ServerAudioStruct {
    /// Records `perm` as the explicit grant of `entity`, overwriting any
    /// earlier grant. A `NoPerm` grant is not stored: it removes the
    /// entity's entry, so the map only ever holds positive grants.
    pub fn insert_entity_permission(&mut self, entity: EntityId, perm: BotPermission)
        requires
            old(self)@.wf(),
        ensures
            final(self)@.wf(),
            final(self)@.volume == old(self)@.volume,
            final(self)@.auto_playlist == old(self)@.auto_playlist,
            final(self)@.user_default == old(self)@.user_default,
            perm == BotPermission::NoPerm ==> final(self)@.grant_of(entity.0) is None,
            perm != BotPermission::NoPerm ==> final(self)@.grant_of(entity.0) == Some(perm),
            forall|x: u64| x != entity.0
                ==> #[trigger] final(self)@.grant_of(x) == old(self)@.grant_of(x),
    {
        let is_revoke = matches!(perm, BotPermission::NoPerm);
        match locate_key(&self.entity_permission, entity.0) {
            Ok(i) => {
                if !is_revoke {
                    self.entity_permission.set(i, (entity.0, perm));
                    proof {
                        lemma_lookup_update(old(self).entity_permission@, i as int, perm);
                    }
                } else {
                    self.entity_permission.remove(i);
                    proof {
                        lemma_lookup_remove(old(self).entity_permission@, i as int);
                        old(self).entity_permission@.remove_ensures(i as int);
                    }
                }
            },
            Err(pos) => {
                if !is_revoke {
                    self.entity_permission.insert(pos, (entity.0, perm));
                    proof {
                        lemma_lookup_insert(
                            old(self).entity_permission@,
                            pos as int,
                            entity.0,
                            perm,
                        );
                        old(self).entity_permission@.insert_ensures(pos as int, (entity.0, perm));
                    }
                } else {
                    proof {
                        lemma_lookup_absent(self.entity_permission@, entity.0);
                    }
                }
            },
        }
    }

    /// Stores `volume` clamped to the allowed range.
    pub fn set_volume(&mut self, volume: u8)
        requires
            old(self)@.wf(),
        ensures
            final(self)@.wf(),
            final(self)@.volume == spec_clamp_volume(volume),
            final(self)@.auto_playlist == old(self)@.auto_playlist,
            final(self)@.user_default == old(self)@.user_default,
            final(self)@.grants == old(self)@.grants,
    {
        self.volume = if volume < 10 {
            10
        } else if volume > 100 {
            100
        } else {
            volume
        };
    }

    /// The explicit grant held by `entity`, if any.
    pub fn get_permission(&self, entity: EntityId) -> (r: Option<BotPermission>)
        requires
            self@.wf(),
        ensures
            r == self@.grant_of(entity.0),
    {
        match locate_key(&self.entity_permission, entity.0) {
            Ok(i) => {
                proof {
                    lemma_lookup_at(self.entity_permission@, i as int);
                }
                Some(self.entity_permission[i].1)
            },
            Err(_) => {
                proof {
                    lemma_lookup_absent(self.entity_permission@, entity.0);
                }
                None
            },
        }
    }
}

/// Mathematical model of the whole configuration store.
#[verifier::ext_equal]
pub ghost struct ConfigModel {
    pub owner_id: u64,
    pub prefix: char,
    pub auto_reconnect: bool,
    pub bot_mode: BotModes,
    pub activity: ActivityKind,
    pub guilds: Seq<(u64, GuildModel)>,
}

impl ConfigModel {
    /// Guild records are canonically sorted and each is well formed.
    pub open spec fn wf(self) -> bool {
        &&& keys_strictly_sorted(self.guilds)
        &&& forall|i: int| 0 <= i < self.guilds.len() ==> (#[trigger] self.guilds[i]).1.wf()
    }

    /// The configuration of guild `g`, if one was initialised.
    pub open spec fn guild(self, g: u64) -> Option<GuildModel> {
        spec_lookup(self.guilds, g)
    }

    /// The stored volume of guild `g`, or the conservative floor of 10
    /// when no record exists at all.
    pub open spec fn guild_volume(self, g: u64) -> u8 {
        match self.guild(g) {
            Some(gm) => gm.volume,
            None => 10,
        }
    }

    /// The user-default flag of guild `g`, `false` when unknown.
    pub open spec fn guild_user_default(self, g: u64) -> bool {
        match self.guild(g) {
            Some(gm) => gm.user_default,
            None => false,
        }
    }

    /// The auto-playlist flag of guild `g`, `false` when unknown.
    pub open spec fn guild_auto_playlist(self, g: u64) -> bool {
        match self.guild(g) {
            Some(gm) => gm.auto_playlist,
            None => false,
        }
    }

    /// The settings that are global rather than guild-scoped agree.
    pub open spec fn same_globals(self, other: ConfigModel) -> bool {
        &&& self.owner_id == other.owner_id
        &&& self.prefix == other.prefix
        &&& self.auto_reconnect == other.auto_reconnect
        &&& self.bot_mode == other.bot_mode
        &&& self.activity == other.activity
    }
}

/// The process-wide configuration store: the one source of truth for
/// global settings and every guild's configuration.
#[derive(Debug)]
pub struct ConfigStruct {
    pub owner_id: u64,
    pub prefix: char,
    pub auto_reconnect: bool,
    pub bot_mode: BotModes,
    pub activity: ActivityKind,
    pub server_cfgs: Vec<(u64, ServerAudioStruct)>,
}

impl View for ConfigStruct {
    type V = ConfigModel;

    open spec fn view(&self) -> ConfigModel {
        ConfigModel {
            owner_id: self.owner_id,
            prefix: self.prefix,
            auto_reconnect: self.auto_reconnect,
            bot_mode: self.bot_mode,
            activity: self.activity,
            guilds: Seq::new(
                self.server_cfgs@.len(),
                |i: int| (self.server_cfgs@[i].0, self.server_cfgs@[i].1@),
            ),
        }
    }
}

impl Default for ConfigStruct {
    fn default() -> (r: ConfigStruct)
        ensures
            r@.wf(),
            r@.owner_id == 0,
            r@.prefix == '!',
            r@.auto_reconnect == false,
            r@.bot_mode == BotModes::Latex,
            r@.activity == ActivityKind::Watching,
            r@.guilds == Seq::<(u64, GuildModel)>::empty(),
    {
        let r = ConfigStruct {
            owner_id: 0,
            prefix: '!',
            auto_reconnect: false,
            bot_mode: BotModes::Latex,
            activity: ActivityKind::Watching,
            server_cfgs: Vec::new(),
        };
        proof {
            assert(r@.guilds =~= Seq::<(u64, GuildModel)>::empty());
        }
        r
    }
}

/// The guild keys of the store's representation are those of its model,
/// so the representation is sorted exactly when the model is.
proof fn lemma_rep_sorted(c: ConfigStruct)
    requires
        keys_strictly_sorted(c@.guilds),
    ensures
        keys_strictly_sorted(c.server_cfgs@),
{
    assert forall|i: int, j: int| 0 <= i < j < c.server_cfgs@.len()
        implies c.server_cfgs@[i].0 < c.server_cfgs@[j].0 by {
        assert(c@.guilds[i].0 == c.server_cfgs@[i].0);
        assert(c@.guilds[j].0 == c.server_cfgs@[j].0);
        assert(c@.guilds[i].0 < c@.guilds[j].0);
    }
}

/// Updating one entry of the representation updates the same entry of
/// the model.
proof fn lemma_view_update(pre: ConfigStruct, post: ConfigStruct, i: int, e: (u64, ServerAudioStruct))
    requires
        0 <= i < pre.server_cfgs@.len(),
        post.server_cfgs@ == pre.server_cfgs@.update(i, e),
    ensures
        post@.guilds == pre@.guilds.update(i, (e.0, e.1@)),
{
    assert forall|j: int| 0 <= j < post@.guilds.len()
        implies post@.guilds[j] == pre@.guilds.update(i, (e.0, e.1@))[j] by {
        if j != i {
            assert(post.server_cfgs@[j] == pre.server_cfgs@[j]);
        }
    }
    assert(post@.guilds =~= pre@.guilds.update(i, (e.0, e.1@)));
}

/// Inserting an entry into the representation inserts the same entry
/// into the model.
proof fn lemma_view_insert(pre: ConfigStruct, post: ConfigStruct, i: int, e: (u64, ServerAudioStruct))
    requires
        0 <= i <= pre.server_cfgs@.len(),
        post.server_cfgs@ == pre.server_cfgs@.insert(i, e),
    ensures
        post@.guilds == pre@.guilds.insert(i, (e.0, e.1@)),
{
    pre.server_cfgs@.insert_ensures(i, e);
    pre@.guilds.insert_ensures(i, (e.0, e.1@));
    assert forall|j: int| 0 <= j < post@.guilds.len()
        implies post@.guilds[j] == pre@.guilds.insert(i, (e.0, e.1@))[j] by {
        if j < i {
            assert(post.server_cfgs@[j] == pre.server_cfgs@[j]);
            assert(pre@.guilds.insert(i, (e.0, e.1@))[j] == pre@.guilds[j]);
        } else if j == i {
            assert(post.server_cfgs@[j] == e);
        } else {
            assert(post.server_cfgs@[j] == pre.server_cfgs@[j - 1]);
            assert(pre@.guilds.insert(i, (e.0, e.1@))[j] == pre@.guilds[j - 1]);
        }
    }
    assert(post@.guilds =~= pre@.guilds.insert(i, (e.0, e.1@)));
}

impl ConfigStruct {
    /// Inserts a default configuration for `guild` when none exists;
    /// a guild that already has one is left untouched.
    pub fn init_server(&mut self, guild: u64)
        requires
            old(self)@.wf(),
        ensures
            final(self)@.wf(),
            final(self)@.same_globals(old(self)@),
            final(self)@.guild(guild) == match old(self)@.guild(guild) {
                Some(gm) => Some(gm),
                None => Some(GuildModel::default_model()),
            },
            old(self)@.guild(guild) is Some ==> *final(self) == *old(self),
            forall|x: u64| x != guild ==> #[trigger] final(self)@.guild(x) == old(self)@.guild(x),
    {
        proof {
            lemma_rep_sorted(*self);
        }
        match locate_key(&self.server_cfgs, guild) {
            Ok(i) => {
                proof {
                    assert(self@.guilds[i as int].0 == guild);
                    lemma_lookup_at(self@.guilds, i as int);
                }
            },
            Err(pos) => {
                let entry = (guild, ServerAudioStruct::default());
                proof {
                    assert forall|j: int| 0 <= j < self@.guilds.len()
                        implies (#[trigger] self@.guilds[j]).0 != guild by {
                        assert(self@.guilds[j].0 == self.server_cfgs@[j].0);
                    }
                    lemma_lookup_absent(self@.guilds, guild);
                }
                self.server_cfgs.insert(pos, entry);
                proof {
                    lemma_view_insert(*old(self), *self, pos as int, entry);
                    assert forall|j: int| 0 <= j < pos as int
                        implies (#[trigger] old(self)@.guilds[j]).0 < guild by {
                        assert(old(self)@.guilds[j].0 == old(self).server_cfgs@[j].0);
                    }
                    assert forall|j: int| pos as int <= j < old(self)@.guilds.len()
                        implies (#[trigger] old(self)@.guilds[j]).0 > guild by {
                        assert(old(self)@.guilds[j].0 == old(self).server_cfgs@[j].0);
                    }
                    lemma_lookup_insert(
                        old(self)@.guilds,
                        pos as int,
                        guild,
                        GuildModel::default_model(),
                    );
                    old(self)@.guilds.insert_ensures(pos as int, (guild, GuildModel::default_model()));
                }
            },
        }
    }

    /// The configuration record of `guild`, if one was initialised.
    pub fn get_server(&self, guild: u64) -> (r: Option<&ServerAudioStruct>)
        requires
            self@.wf(),
        ensures
            match r {
                Some(s) => self@.guild(guild) == Some(s@) && s@.wf(),
                None => self@.guild(guild) is None,
            },
    {
        proof {
            lemma_rep_sorted(*self);
        }
        match locate_key(&self.server_cfgs, guild) {
            Ok(i) => {
                proof {
                    assert(self@.guilds[i as int].0 == guild);
                    lemma_lookup_at(self@.guilds, i as int);
                }
                Some(&self.server_cfgs[i].1)
            },
            Err(_) => {
                proof {
                    assert forall|j: int| 0 <= j < self@.guilds.len()
                        implies (#[trigger] self@.guilds[j]).0 != guild by {
                        assert(self@.guilds[j].0 == self.server_cfgs@[j].0);
                    }
                    lemma_lookup_absent(self@.guilds, guild);
                }
                None
            },
        }
    }

    /// Records `perm` as the explicit grant of `entity` in `guild`,
    /// pruning the entry when `perm` is `NoPerm`; unknown guilds are
    /// left untouched.
    pub fn insert_entity_guild(&mut self, guild: u64, entity: EntityId, perm: BotPermission)
        requires
            old(self)@.wf(),
        ensures
            final(self)@.wf(),
            final(self)@.same_globals(old(self)@),
            old(self)@.guild(guild) is None ==> *final(self) == *old(self),
            forall|x: u64| x != guild ==> #[trigger] final(self)@.guild(x) == old(self)@.guild(x),
            match old(self)@.guild(guild) {
                Some(gm) => {
                    &&& final(self)@.guild(guild) is Some
                    &&& {
                        let gm2 = final(self)@.guild(guild)->Some_0;
                        &&& gm2.volume == gm.volume
                        &&& gm2.auto_playlist == gm.auto_playlist
                        &&& gm2.user_default == gm.user_default
                        &&& (perm == BotPermission::NoPerm ==> gm2.grant_of(entity.0) is None)
                        &&& (perm != BotPermission::NoPerm ==> gm2.grant_of(entity.0) == Some(perm))
                        &&& forall|x: u64| x != entity.0
                            ==> #[trigger] gm2.grant_of(x) == gm.grant_of(x)
                    }
                },
                None => true,
            },
    {
        proof {
            lemma_rep_sorted(*self);
        }
        match locate_key(&self.server_cfgs, guild) {
            Ok(i) => {
                proof {
                    assert(self@.guilds[i as int].0 == guild);
                    lemma_lookup_at(self@.guilds, i as int);
                }
                let mut entry = self.server_cfgs.remove(i);
                entry.1.insert_entity_permission(entity, perm);
                self.server_cfgs.insert(i, entry);
                proof {
                    lemma_remove_insert_is_update(old(self).server_cfgs@, i as int, entry);
                    lemma_view_update(*old(self), *self, i as int, entry);
                    lemma_lookup_update(old(self)@.guilds, i as int, entry.1@);
                }
            },
            Err(_) => {
                proof {
                    assert forall|j: int| 0 <= j < self@.guilds.len()
                        implies (#[trigger] self@.guilds[j]).0 != guild by {
                        assert(self@.guilds[j].0 == self.server_cfgs@[j].0);
                    }
                    lemma_lookup_absent(self@.guilds, guild);
                }
            },
        }
    }

    /// Stores the clamped volume for `guild`; unknown guilds are left
    /// untouched. Afterwards a known guild reads back exactly the
    /// clamped value.
    pub fn set_guild_volume(&mut self, guild: u64, volume: u8)
        requires
            old(self)@.wf(),
        ensures
            final(self)@.wf(),
            final(self)@.same_globals(old(self)@),
            old(self)@.guild(guild) is None ==> *final(self) == *old(self),
            forall|x: u64| x != guild ==> #[trigger] final(self)@.guild(x) == old(self)@.guild(x),
            old(self)@.guild(guild) is Some
                ==> final(self)@.guild_volume(guild) == spec_clamp_volume(volume),
            match old(self)@.guild(guild) {
                Some(gm) => final(self)@.guild(guild) == Some(
                    GuildModel {
                        volume: spec_clamp_volume(volume),
                        auto_playlist: gm.auto_playlist,
                        user_default: gm.user_default,
                        grants: gm.grants,
                    },
                ),
                None => true,
            },
    {
        proof {
            lemma_rep_sorted(*self);
        }
        match locate_key(&self.server_cfgs, guild) {
            Ok(i) => {
                proof {
                    assert(self@.guilds[i as int].0 == guild);
                    lemma_lookup_at(self@.guilds, i as int);
                }
                let mut entry = self.server_cfgs.remove(i);
                entry.1.set_volume(volume);
                self.server_cfgs.insert(i, entry);
                proof {
                    lemma_remove_insert_is_update(old(self).server_cfgs@, i as int, entry);
                    lemma_view_update(*old(self), *self, i as int, entry);
                    lemma_lookup_update(old(self)@.guilds, i as int, entry.1@);
                }
            },
            Err(_) => {
                proof {
                    assert forall|j: int| 0 <= j < self@.guilds.len()
                        implies (#[trigger] self@.guilds[j]).0 != guild by {
                        assert(self@.guilds[j].0 == self.server_cfgs@[j].0);
                    }
                    lemma_lookup_absent(self@.guilds, guild);
                }
            },
        }
    }

    /// The stored volume of `guild`, or the conservative floor of 10
    /// when the guild is unknown.
    pub fn get_guild_volume(&mut self, guild: u64) -> (r: u8)
        requires
            old(self)@.wf(),
        ensures
            *final(self) == *old(self),
            r == old(self)@.guild_volume(guild),
    {
        proof {
            lemma_rep_sorted(*self);
        }
        match locate_key(&self.server_cfgs, guild) {
            Ok(i) => {
                proof {
                    assert(self@.guilds[i as int].0 == guild);
                    lemma_lookup_at(self@.guilds, i as int);
                }
                self.server_cfgs[i].1.volume
            },
            Err(_) => {
                proof {
                    assert forall|j: int| 0 <= j < self@.guilds.len()
                        implies (#[trigger] self@.guilds[j]).0 != guild by {
                        assert(self@.guilds[j].0 == self.server_cfgs@[j].0);
                    }
                    lemma_lookup_absent(self@.guilds, guild);
                }
                10
            },
        }
    }

    /// Stores the user-default flag for `guild`; unknown guilds are
    /// left untouched.
    pub fn set_guild_user_default(&mut self, guild: u64, setting: bool)
        requires
            old(self)@.wf(),
        ensures
            final(self)@.wf(),
            final(self)@.same_globals(old(self)@),
            old(self)@.guild(guild) is None ==> *final(self) == *old(self),
            forall|x: u64| x != guild ==> #[trigger] final(self)@.guild(x) == old(self)@.guild(x),
            match old(self)@.guild(guild) {
                Some(gm) => final(self)@.guild(guild) == Some(
                    GuildModel {
                        volume: gm.volume,
                        auto_playlist: gm.auto_playlist,
                        user_default: setting,
                        grants: gm.grants,
                    },
                ),
                None => true,
            },
    {
        proof {
            lemma_rep_sorted(*self);
        }
        match locate_key(&self.server_cfgs, guild) {
            Ok(i) => {
                proof {
                    assert(self@.guilds[i as int].0 == guild);
                    lemma_lookup_at(self@.guilds, i as int);
                }
                let mut entry = self.server_cfgs.remove(i);
                entry.1.user_default = setting;
                self.server_cfgs.insert(i, entry);
                proof {
                    lemma_remove_insert_is_update(old(self).server_cfgs@, i as int, entry);
                    lemma_view_update(*old(self), *self, i as int, entry);
                    lemma_lookup_update(old(self)@.guilds, i as int, entry.1@);
                }
            },
            Err(_) => {
                proof {
                    assert forall|j: int| 0 <= j < self@.guilds.len()
                        implies (#[trigger] self@.guilds[j]).0 != guild by {
                        assert(self@.guilds[j].0 == self.server_cfgs@[j].0);
                    }
                    lemma_lookup_absent(self@.guilds, guild);
                }
            },
        }
    }

    /// The user-default flag of `guild`, `false` when the guild is
    /// unknown.
    pub fn get_guild_user_default(&mut self, guild: u64) -> (r: bool)
        requires
            old(self)@.wf(),
        ensures
            *final(self) == *old(self),
            r == old(self)@.guild_user_default(guild),
    {
        proof {
            lemma_rep_sorted(*self);
        }
        match locate_key(&self.server_cfgs, guild) {
            Ok(i) => {
                proof {
                    assert(self@.guilds[i as int].0 == guild);
                    lemma_lookup_at(self@.guilds, i as int);
                }
                self.server_cfgs[i].1.user_default
            },
            Err(_) => {
                proof {
                    assert forall|j: int| 0 <= j < self@.guilds.len()
                        implies (#[trigger] self@.guilds[j]).0 != guild by {
                        assert(self@.guilds[j].0 == self.server_cfgs@[j].0);
                    }
                    lemma_lookup_absent(self@.guilds, guild);
                }
                false
            },
        }
    }

    /// Stores the auto-playlist flag for `guild`; unknown guilds are
    /// left untouched.
    pub fn set_guild_auto_playlist(&mut self, guild: u64, setting: bool)
        requires
            old(self)@.wf(),
        ensures
            final(self)@.wf(),
            final(self)@.same_globals(old(self)@),
            old(self)@.guild(guild) is None ==> *final(self) == *old(self),
            forall|x: u64| x != guild ==> #[trigger] final(self)@.guild(x) == old(self)@.guild(x),
            match old(self)@.guild(guild) {
                Some(gm) => final(self)@.guild(guild) == Some(
                    GuildModel {
                        volume: gm.volume,
                        auto_playlist: setting,
                        user_default: gm.user_default,
                        grants: gm.grants,
                    },
                ),
                None => true,
            },
    {
        proof {
            lemma_rep_sorted(*self);
        }
        match locate_key(&self.server_cfgs, guild) {
            Ok(i) => {
                proof {
                    assert(self@.guilds[i as int].0 == guild);
                    lemma_lookup_at(self@.guilds, i as int);
                }
                let mut entry = self.server_cfgs.remove(i);
                entry.1.auto_playlist = setting;
                self.server_cfgs.insert(i, entry);
                proof {
                    lemma_remove_insert_is_update(old(self).server_cfgs@, i as int, entry);
                    lemma_view_update(*old(self), *self, i as int, entry);
                    lemma_lookup_update(old(self)@.guilds, i as int, entry.1@);
                }
            },
            Err(_) => {
                proof {
                    assert forall|j: int| 0 <= j < self@.guilds.len()
                        implies (#[trigger] self@.guilds[j]).0 != guild by {
                        assert(self@.guilds[j].0 == self.server_cfgs@[j].0);
                    }
                    lemma_lookup_absent(self@.guilds, guild);
                }
            },
        }
    }

    /// The auto-playlist flag of `guild`, `false` when the guild is
    /// unknown.
    pub fn get_guild_auto_playlist(&mut self, guild: u64) -> (r: bool)
        requires
            old(self)@.wf(),
        ensures
            *final(self) == *old(self),
            r == old(self)@.guild_auto_playlist(guild),
    {
        proof {
            lemma_rep_sorted(*self);
        }
        match locate_key(&self.server_cfgs, guild) {
            Ok(i) => {
                proof {
                    assert(self@.guilds[i as int].0 == guild);
                    lemma_lookup_at(self@.guilds, i as int);
                }
                self.server_cfgs[i].1.auto_playlist
            },
            Err(_) => {
                proof {
                    assert forall|j: int| 0 <= j < self@.guilds.len()
                        implies (#[trigger] self@.guilds[j]).0 != guild by {
                        assert(self@.guilds[j].0 == self.server_cfgs@[j].0);
                    }
                    lemma_lookup_absent(self@.guilds, guild);
                }
                false
            },
        }
    }
}

} // verus!
