use botcore::codec::{decode_config, encode_config};
use botcore::config::{ActivityKind, BotModes, ConfigStruct};
use botcore::entity_id::EntityId;
use botcore::permission::BotPermission;

fn populated_store() -> ConfigStruct {
    let mut c = ConfigStruct::default();
    c.owner_id = 42;
    c.prefix = '?';
    c.auto_reconnect = true;
    c.bot_mode = BotModes::All;
    c.activity = ActivityKind::Listening;
    c.init_server(3);
    c.init_server(1);
    c.set_guild_volume(1, 35);
    c.set_guild_user_default(1, true);
    c.set_guild_auto_playlist(3, true);
    c.insert_entity_guild(1, EntityId(7), BotPermission::Moderator);
    c.insert_entity_guild(1, EntityId(5), BotPermission::Admin);
    c.insert_entity_guild(3, EntityId(9), BotPermission::User);
    c
}

#[test]
fn round_trip_default_store() {
    let c = ConfigStruct::default();
    let bytes = encode_config(&c);
    let d = decode_config(&bytes).expect("own encoding must decode");
    assert_eq!(d.owner_id, 0);
    assert_eq!(d.prefix, '!');
    assert!(!d.auto_reconnect);
    assert!(matches!(d.bot_mode, BotModes::Latex));
    assert!(matches!(d.activity, ActivityKind::Watching));
    assert!(d.server_cfgs.is_empty());
}

#[test]
fn round_trip_populated_store() {
    let c = populated_store();
    let bytes = encode_config(&c);
    let mut d = decode_config(&bytes).expect("own encoding must decode");
    assert_eq!(d.owner_id, 42);
    assert_eq!(d.prefix, '?');
    assert!(d.auto_reconnect);
    assert!(matches!(d.bot_mode, BotModes::All));
    assert!(matches!(d.activity, ActivityKind::Listening));
    assert_eq!(d.server_cfgs.len(), 2);
    assert_eq!(d.get_guild_volume(1), 35);
    assert_eq!(d.get_guild_volume(3), 80);
    assert!(d.get_guild_user_default(1));
    assert!(!d.get_guild_user_default(3));
    assert!(d.get_guild_auto_playlist(3));
    let g1 = d.get_server(1).unwrap();
    assert_eq!(g1.get_permission(EntityId(7)), Some(BotPermission::Moderator));
    assert_eq!(g1.get_permission(EntityId(5)), Some(BotPermission::Admin));
    assert_eq!(g1.get_permission(EntityId(9)), None);
    let g3 = d.get_server(3).unwrap();
    assert_eq!(g3.get_permission(EntityId(9)), Some(BotPermission::User));
}

#[test]
fn reencoding_a_decoded_store_is_identical() {
    let c = populated_store();
    let bytes = encode_config(&c);
    let d = decode_config(&bytes).unwrap();
    assert_eq!(encode_config(&d), bytes);
}

#[test]
fn encoding_is_canonical_in_grant_order() {
    let mut a = ConfigStruct::default();
    a.init_server(1);
    a.insert_entity_guild(1, EntityId(5), BotPermission::Admin);
    a.insert_entity_guild(1, EntityId(3), BotPermission::User);

    let mut b = ConfigStruct::default();
    b.init_server(1);
    b.insert_entity_guild(1, EntityId(3), BotPermission::User);
    b.insert_entity_guild(1, EntityId(5), BotPermission::Admin);

    assert_eq!(encode_config(&a), encode_config(&b));
}

#[test]
fn revoked_grant_encodes_like_never_granted() {
    let mut revoked = ConfigStruct::default();
    revoked.init_server(1);
    revoked.insert_entity_guild(1, EntityId(7), BotPermission::Admin);
    revoked.insert_entity_guild(1, EntityId(7), BotPermission::NoPerm);

    let mut never = ConfigStruct::default();
    never.init_server(1);

    assert_eq!(encode_config(&revoked), encode_config(&never));
}

#[test]
fn decode_rejects_empty_input() {
    let bytes: Vec<u8> = Vec::new();
    assert!(decode_config(&bytes).is_err());
}

#[test]
fn decode_rejects_truncated_input() {
    let c = populated_store();
    let mut bytes = encode_config(&c);
    bytes.pop();
    assert!(decode_config(&bytes).is_err());
}

#[test]
fn decode_rejects_trailing_garbage() {
    let c = populated_store();
    let mut bytes = encode_config(&c);
    bytes.push(0);
    assert!(decode_config(&bytes).is_err());
}

#[test]
fn decode_rejects_bad_level_tag() {
    // One guild with one grant: the grant's level word starts at byte
    // 48 (header) + 40 (guild fields) + 8 (entity id) = 96.
    let mut c = ConfigStruct::default();
    c.init_server(1);
    c.insert_entity_guild(1, EntityId(7), BotPermission::User);
    let good = encode_config(&c);
    assert!(decode_config(&good).is_ok());

    let mut bad_tag = good.clone();
    bad_tag[96] = 9;
    assert!(decode_config(&bad_tag).is_err());

    // Tag 0 stands for a revoked grant, which is never stored.
    let mut revoked_tag = good;
    revoked_tag[96] = 0;
    assert!(decode_config(&revoked_tag).is_err());
}

#[test]
fn decode_rejects_out_of_range_volume() {
    // The volume word of the first guild starts at byte 48 + 8 = 56.
    let mut c = ConfigStruct::default();
    c.init_server(1);
    let mut bytes = encode_config(&c);
    bytes[56] = 5;
    assert!(decode_config(&bytes).is_err());
}

#[test]
fn decode_rejects_unsorted_guilds() {
    // Splice two guild blocks in descending id order under a header
    // that announces two guilds.
    let mut two = ConfigStruct::default();
    two.init_server(1);
    two.init_server(2);
    let header: Vec<u8> = encode_config(&two)[..48].to_vec();

    let mut only1 = ConfigStruct::default();
    only1.init_server(1);
    let block1: Vec<u8> = encode_config(&only1)[48..].to_vec();

    let mut only2 = ConfigStruct::default();
    only2.init_server(2);
    let block2: Vec<u8> = encode_config(&only2)[48..].to_vec();

    let mut ascending = header.clone();
    ascending.extend_from_slice(&block1);
    ascending.extend_from_slice(&block2);
    assert!(decode_config(&ascending).is_ok());

    let mut descending = header;
    descending.extend_from_slice(&block2);
    descending.extend_from_slice(&block1);
    assert!(decode_config(&descending).is_err());
}

#[test]
fn decode_rejects_bad_flag_word() {
    // The auto-reconnect word starts at byte 16.
    let c = ConfigStruct::default();
    let mut bytes = encode_config(&c);
    bytes[16] = 2;
    assert!(decode_config(&bytes).is_err());
}

#[test]
fn decode_rejects_surrogate_prefix_code() {
    // The prefix word starts at byte 8; 0xD800 is a surrogate code.
    let c = ConfigStruct::default();
    let mut bytes = encode_config(&c);
    bytes[8] = 0x00;
    bytes[9] = 0xD8;
    assert!(decode_config(&bytes).is_err());
}

#[test]
fn round_trip_covers_every_mode_and_activity() {
    let modes = [BotModes::Latex, BotModes::Music, BotModes::Soundboard, BotModes::All];
    let activities = [
        ActivityKind::Playing,
        ActivityKind::Streaming,
        ActivityKind::Listening,
        ActivityKind::Watching,
        ActivityKind::Competing,
    ];
    for (i, mode) in modes.into_iter().enumerate() {
        let mut c = ConfigStruct::default();
        c.bot_mode = mode;
        c.activity = activities[i];
        let d = decode_config(&encode_config(&c)).unwrap();
        assert_eq!(d.bot_mode, mode);
        assert_eq!(d.activity, activities[i]);
    }
    let mut c = ConfigStruct::default();
    c.activity = ActivityKind::Competing;
    let d = decode_config(&encode_config(&c)).unwrap();
    assert_eq!(d.activity, ActivityKind::Competing);
}

#[test]
fn round_trip_keeps_every_grant_level() {
    let mut c = ConfigStruct::default();
    c.init_server(1);
    c.insert_entity_guild(1, EntityId(1), BotPermission::User);
    c.insert_entity_guild(1, EntityId(2), BotPermission::Moderator);
    c.insert_entity_guild(1, EntityId(3), BotPermission::Admin);
    c.insert_entity_guild(1, EntityId(4), BotPermission::Owner);
    let d = decode_config(&encode_config(&c)).unwrap();
    let g = d.get_server(1).unwrap();
    assert_eq!(g.get_permission(EntityId(1)), Some(BotPermission::User));
    assert_eq!(g.get_permission(EntityId(2)), Some(BotPermission::Moderator));
    assert_eq!(g.get_permission(EntityId(3)), Some(BotPermission::Admin));
    assert_eq!(g.get_permission(EntityId(4)), Some(BotPermission::Owner));
}
