use botcore::config::ConfigStruct;
use botcore::entity_id::EntityId;
use botcore::permission::BotPermission;
use botcore::resolve::{
    user_permission, verify_admin, verify_moderator, verify_owner, verify_permission, verify_user,
    BotError,
};

fn store_with_owner(owner: u64) -> ConfigStruct {
    let mut c = ConfigStruct::default();
    c.owner_id = owner;
    c
}

#[test]
fn owner_always_resolves_owner() {
    let mut c = store_with_owner(42);
    c.init_server(1);
    let no_roles: Vec<EntityId> = Vec::new();
    assert_eq!(
        user_permission(&c, EntityId(42), &no_roles, Some(1)),
        Ok(BotPermission::Owner)
    );
    assert_eq!(
        user_permission(&c, EntityId(42), &no_roles, None),
        Ok(BotPermission::Owner)
    );
    assert_eq!(
        user_permission(&c, EntityId(42), &no_roles, Some(99)),
        Ok(BotPermission::Owner)
    );
}

#[test]
fn no_guild_context_resolves_noperm() {
    let c = store_with_owner(42);
    let no_roles: Vec<EntityId> = Vec::new();
    assert_eq!(
        user_permission(&c, EntityId(7), &no_roles, None),
        Ok(BotPermission::NoPerm)
    );
}

#[test]
fn unknown_guild_is_a_configuration_error() {
    let c = store_with_owner(42);
    let no_roles: Vec<EntityId> = Vec::new();
    assert_eq!(
        user_permission(&c, EntityId(7), &no_roles, Some(99)),
        Err(BotError::GuildNotInitialized)
    );
}

#[test]
fn user_default_grants_baseline_user() {
    let mut c = store_with_owner(42);
    c.init_server(1);
    let no_roles: Vec<EntityId> = Vec::new();
    assert_eq!(
        user_permission(&c, EntityId(7), &no_roles, Some(1)),
        Ok(BotPermission::NoPerm)
    );
    c.set_guild_user_default(1, true);
    assert_eq!(
        user_permission(&c, EntityId(7), &no_roles, Some(1)),
        Ok(BotPermission::User)
    );
}

#[test]
fn owner_scenario_chain() {
    let role_a = 1000u64;
    let mut c = store_with_owner(42);
    c.init_server(1);
    c.set_guild_user_default(1, true);
    let no_roles: Vec<EntityId> = Vec::new();
    let in_role_a = vec![EntityId(role_a)];

    assert_eq!(
        user_permission(&c, EntityId(7), &no_roles, Some(1)),
        Ok(BotPermission::User)
    );

    c.insert_entity_guild(1, EntityId(7), BotPermission::Moderator);
    assert_eq!(
        user_permission(&c, EntityId(7), &no_roles, Some(1)),
        Ok(BotPermission::Moderator)
    );

    c.insert_entity_guild(1, EntityId(role_a), BotPermission::Admin);
    assert_eq!(
        user_permission(&c, EntityId(7), &in_role_a, Some(1)),
        Ok(BotPermission::Admin)
    );

    c.insert_entity_guild(1, EntityId(7), BotPermission::NoPerm);
    assert_eq!(
        c.get_server(1).unwrap().get_permission(EntityId(7)),
        None
    );
    assert_eq!(
        user_permission(&c, EntityId(7), &in_role_a, Some(1)),
        Ok(BotPermission::Admin)
    );
}

#[test]
fn role_permutation_gives_same_result() {
    let mut c = store_with_owner(42);
    c.init_server(1);
    c.insert_entity_guild(1, EntityId(10), BotPermission::User);
    c.insert_entity_guild(1, EntityId(11), BotPermission::Admin);
    c.insert_entity_guild(1, EntityId(12), BotPermission::Moderator);
    let order_one = vec![EntityId(10), EntityId(11), EntityId(12)];
    let order_two = vec![EntityId(12), EntityId(10), EntityId(11)];
    let order_three = vec![EntityId(11), EntityId(12), EntityId(10)];
    let r1 = user_permission(&c, EntityId(7), &order_one, Some(1));
    let r2 = user_permission(&c, EntityId(7), &order_two, Some(1));
    let r3 = user_permission(&c, EntityId(7), &order_three, Some(1));
    assert_eq!(r1, Ok(BotPermission::Admin));
    assert_eq!(r1, r2);
    assert_eq!(r1, r3);
}

#[test]
fn raising_a_grant_never_lowers_resolution() {
    let mut c = store_with_owner(42);
    c.init_server(1);
    c.set_guild_user_default(1, true);
    c.insert_entity_guild(1, EntityId(20), BotPermission::User);
    let roles = vec![EntityId(20)];
    let before = user_permission(&c, EntityId(7), &roles, Some(1)).unwrap();

    c.insert_entity_guild(1, EntityId(7), BotPermission::Moderator);
    let after = user_permission(&c, EntityId(7), &roles, Some(1)).unwrap();
    assert!(after.dominates(&before));

    c.insert_entity_guild(1, EntityId(20), BotPermission::Admin);
    let later = user_permission(&c, EntityId(7), &roles, Some(1)).unwrap();
    assert!(later.dominates(&after));
    assert_eq!(later, BotPermission::Admin);
}

#[test]
fn baseline_survives_lower_explicit_grant() {
    let mut c = store_with_owner(42);
    c.init_server(1);
    c.insert_entity_guild(1, EntityId(7), BotPermission::Admin);
    c.insert_entity_guild(1, EntityId(7), BotPermission::User);
    let no_roles: Vec<EntityId> = Vec::new();
    assert_eq!(
        user_permission(&c, EntityId(7), &no_roles, Some(1)),
        Ok(BotPermission::User)
    );
}

#[test]
fn verify_permission_checks_dominance() {
    let mut c = store_with_owner(42);
    c.init_server(1);
    c.insert_entity_guild(1, EntityId(7), BotPermission::Moderator);
    let no_roles: Vec<EntityId> = Vec::new();
    assert_eq!(verify_user(&c, EntityId(7), &no_roles, Some(1)), Ok(()));
    assert_eq!(verify_moderator(&c, EntityId(7), &no_roles, Some(1)), Ok(()));
    assert_eq!(
        verify_admin(&c, EntityId(7), &no_roles, Some(1)),
        Err(BotError::InsufficientPermission)
    );
    assert_eq!(
        verify_owner(&c, EntityId(7), &no_roles, Some(1)),
        Err(BotError::InsufficientPermission)
    );
    assert_eq!(verify_owner(&c, EntityId(42), &no_roles, Some(1)), Ok(()));
}

#[test]
fn verify_passes_configuration_errors_through() {
    let c = store_with_owner(42);
    let no_roles: Vec<EntityId> = Vec::new();
    assert_eq!(
        verify_permission(&c, EntityId(7), &no_roles, Some(3), BotPermission::User),
        Err(BotError::GuildNotInitialized)
    );
}

#[test]
fn noperm_caller_satisfies_noperm_requirement() {
    let mut c = store_with_owner(42);
    c.init_server(1);
    let no_roles: Vec<EntityId> = Vec::new();
    assert_eq!(
        verify_permission(&c, EntityId(7), &no_roles, Some(1), BotPermission::NoPerm),
        Ok(())
    );
    assert_eq!(
        verify_user(&c, EntityId(7), &no_roles, Some(1)),
        Err(BotError::InsufficientPermission)
    );
}

#[test]
fn explicit_owner_grant_resolves_owner() {
    let mut c = store_with_owner(42);
    c.init_server(1);
    c.insert_entity_guild(1, EntityId(7), BotPermission::Owner);
    let no_roles: Vec<EntityId> = Vec::new();
    assert_eq!(
        user_permission(&c, EntityId(7), &no_roles, Some(1)),
        Ok(BotPermission::Owner)
    );
    assert_eq!(verify_owner(&c, EntityId(7), &no_roles, Some(1)), Ok(()));
}
