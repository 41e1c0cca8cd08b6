use botcore::config::{ActivityKind, BotModes, ConfigStruct, Credentials, ServerAudioStruct};
use botcore::entity_id::EntityId;
use botcore::permission::BotPermission;

#[test]
fn store_defaults() {
    let c = ConfigStruct::default();
    assert_eq!(c.owner_id, 0);
    assert_eq!(c.prefix, '!');
    assert!(!c.auto_reconnect);
    assert!(matches!(c.bot_mode, BotModes::Latex));
    assert!(matches!(c.activity, ActivityKind::Watching));
    assert!(c.server_cfgs.is_empty());
}

#[test]
fn credentials_default_token() {
    assert_eq!(Credentials::default().token, "<fancy_token>");
}

#[test]
fn guild_defaults_after_init() {
    let mut c = ConfigStruct::default();
    c.init_server(5);
    assert_eq!(c.get_guild_volume(5), 80);
    assert!(!c.get_guild_user_default(5));
    assert!(!c.get_guild_auto_playlist(5));
}

#[test]
fn init_server_is_idempotent() {
    let mut c = ConfigStruct::default();
    c.init_server(5);
    c.set_guild_volume(5, 42);
    c.init_server(5);
    assert_eq!(c.get_guild_volume(5), 42);
    assert_eq!(c.server_cfgs.len(), 1);
}

#[test]
fn unknown_guild_reads_fall_back() {
    let mut c = ConfigStruct::default();
    assert_eq!(c.get_guild_volume(9), 10);
    assert!(!c.get_guild_user_default(9));
    assert!(!c.get_guild_auto_playlist(9));
}

#[test]
fn unknown_guild_writes_are_no_ops() {
    let mut c = ConfigStruct::default();
    c.set_guild_volume(9, 50);
    c.set_guild_user_default(9, true);
    c.set_guild_auto_playlist(9, true);
    c.insert_entity_guild(9, EntityId(7), BotPermission::Admin);
    assert!(c.server_cfgs.is_empty());
    assert_eq!(c.get_guild_volume(9), 10);
    assert!(!c.get_guild_user_default(9));
}

#[test]
fn volume_is_always_clamped() {
    let mut c = ConfigStruct::default();
    c.init_server(1);
    for (input, expected) in [
        (0u8, 10u8),
        (9, 10),
        (10, 10),
        (55, 55),
        (100, 100),
        (101, 100),
        (255, 100),
    ] {
        c.set_guild_volume(1, input);
        assert_eq!(c.get_guild_volume(1), expected);
    }
}

#[test]
fn server_set_volume_clamps() {
    let mut s = ServerAudioStruct::default();
    s.set_volume(5);
    assert_eq!(s.volume, 10);
    s.set_volume(200);
    assert_eq!(s.volume, 100);
    s.set_volume(77);
    assert_eq!(s.volume, 77);
}

#[test]
fn grant_insert_and_overwrite() {
    let mut s = ServerAudioStruct::default();
    s.insert_entity_permission(EntityId(7), BotPermission::Moderator);
    assert_eq!(s.get_permission(EntityId(7)), Some(BotPermission::Moderator));
    s.insert_entity_permission(EntityId(7), BotPermission::Admin);
    assert_eq!(s.get_permission(EntityId(7)), Some(BotPermission::Admin));
    assert_eq!(s.get_permission(EntityId(8)), None);
}

#[test]
fn grant_pruning_removes_entry() {
    let mut granted = ServerAudioStruct::default();
    granted.insert_entity_permission(EntityId(7), BotPermission::Admin);
    granted.insert_entity_permission(EntityId(7), BotPermission::NoPerm);
    assert_eq!(granted.get_permission(EntityId(7)), None);

    let never = ServerAudioStruct::default();
    assert_eq!(granted.entity_permission, never.entity_permission);
}

#[test]
fn revoking_an_absent_grant_is_a_no_op() {
    let mut s = ServerAudioStruct::default();
    s.insert_entity_permission(EntityId(3), BotPermission::User);
    s.insert_entity_permission(EntityId(9), BotPermission::NoPerm);
    assert_eq!(s.get_permission(EntityId(3)), Some(BotPermission::User));
    assert_eq!(s.get_permission(EntityId(9)), None);
    assert_eq!(s.entity_permission.len(), 1);
}

#[test]
fn pruning_leaves_other_grants_alone() {
    let mut s = ServerAudioStruct::default();
    s.insert_entity_permission(EntityId(1), BotPermission::User);
    s.insert_entity_permission(EntityId(2), BotPermission::Moderator);
    s.insert_entity_permission(EntityId(3), BotPermission::Admin);
    s.insert_entity_permission(EntityId(2), BotPermission::NoPerm);
    assert_eq!(s.get_permission(EntityId(1)), Some(BotPermission::User));
    assert_eq!(s.get_permission(EntityId(2)), None);
    assert_eq!(s.get_permission(EntityId(3)), Some(BotPermission::Admin));
}

#[test]
fn grants_through_the_store() {
    let mut c = ConfigStruct::default();
    c.init_server(1);
    c.insert_entity_guild(1, EntityId(7), BotPermission::Moderator);
    let server = c.get_server(1).expect("guild was initialised");
    assert_eq!(server.get_permission(EntityId(7)), Some(BotPermission::Moderator));
    assert!(c.get_server(2).is_none());
}

#[test]
fn flags_set_and_get() {
    let mut c = ConfigStruct::default();
    c.init_server(1);
    c.set_guild_user_default(1, true);
    assert!(c.get_guild_user_default(1));
    c.set_guild_user_default(1, false);
    assert!(!c.get_guild_user_default(1));
    c.set_guild_auto_playlist(1, true);
    assert!(c.get_guild_auto_playlist(1));
    assert!(!c.get_guild_user_default(1));
}

#[test]
fn guilds_are_independent() {
    let mut c = ConfigStruct::default();
    c.init_server(1);
    c.init_server(2);
    c.set_guild_volume(1, 30);
    c.set_guild_volume(2, 90);
    c.insert_entity_guild(1, EntityId(7), BotPermission::Admin);
    assert_eq!(c.get_guild_volume(1), 30);
    assert_eq!(c.get_guild_volume(2), 90);
    assert!(c.get_server(2).unwrap().get_permission(EntityId(7)).is_none());
}
