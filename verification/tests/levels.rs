use botcore::entity_id::EntityId;
use botcore::permission::BotPermission;

const ALL_LEVELS: [BotPermission; 5] = [
    BotPermission::Owner,
    BotPermission::Admin,
    BotPermission::Moderator,
    BotPermission::User,
    BotPermission::NoPerm,
];

#[test]
fn level_values() {
    assert_eq!(BotPermission::Owner.level(), u8::MAX);
    assert_eq!(BotPermission::Admin.level(), 3);
    assert_eq!(BotPermission::Moderator.level(), 2);
    assert_eq!(BotPermission::User.level(), 1);
    assert_eq!(BotPermission::NoPerm.level(), 0);
}

#[test]
fn dominance_is_reflexive() {
    for a in ALL_LEVELS {
        assert!(a.dominates(&a));
    }
}

#[test]
fn dominance_is_total_and_antisymmetric() {
    for a in ALL_LEVELS {
        for b in ALL_LEVELS {
            assert!(a.dominates(&b) || b.dominates(&a));
            if a.dominates(&b) && b.dominates(&a) {
                assert_eq!(a, b);
            }
            if a != b {
                assert!(!(a.dominates(&b) && b.dominates(&a)));
            }
        }
    }
}

#[test]
fn dominance_is_transitive() {
    for a in ALL_LEVELS {
        for b in ALL_LEVELS {
            for c in ALL_LEVELS {
                if a.dominates(&b) && b.dominates(&c) {
                    assert!(a.dominates(&c));
                }
            }
        }
    }
}

#[test]
fn owner_dominates_every_level() {
    for a in ALL_LEVELS {
        assert!(BotPermission::Owner.dominates(&a));
    }
}

#[test]
fn every_level_dominates_noperm() {
    for a in ALL_LEVELS {
        assert!(a.dominates(&BotPermission::NoPerm));
        if a != BotPermission::NoPerm {
            assert!(!BotPermission::NoPerm.dominates(&a));
        }
    }
}

#[test]
fn entity_id_round_trips_through_u64() {
    let e = EntityId::from(42u64);
    assert_eq!(u64::from(e), 42);
    assert_eq!(e, EntityId(42));
    assert_eq!(u64::from(EntityId::from(u64::MAX)), u64::MAX);
}

#[test]
fn entity_id_default_is_zero() {
    assert_eq!(EntityId::default().0, 0);
}

#[test]
fn entity_id_equality_is_by_number() {
    assert_eq!(EntityId(7), EntityId::from(7u64));
    assert_ne!(EntityId(7), EntityId(8));
}
