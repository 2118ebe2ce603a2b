use pixelypse::{Behavior, EntityType, KeyboardData, MoveKey};

#[test]
fn keys_start_released() {
    let k = KeyboardData::new();
    assert!(!k.w && !k.a && !k.s && !k.d);
    assert_eq!(k.direction(), (0, 0));
}

#[test]
fn press_and_release_one_key() {
    let mut k = KeyboardData::new();
    k.set_key(MoveKey::W, true);
    assert!(k.w && !k.a && !k.s && !k.d);
    k.set_key(MoveKey::D, true);
    assert!(k.w && k.d);
    k.set_key(MoveKey::W, false);
    assert!(!k.w && k.d);
}

#[test]
fn direction_of_held_keys() {
    let mut k = KeyboardData::new();
    k.set_key(MoveKey::W, true);
    assert_eq!(k.direction(), (0, -1));
    k.set_key(MoveKey::A, true);
    assert_eq!(k.direction(), (-1, -1));
    k.set_key(MoveKey::S, true);
    assert_eq!(k.direction(), (-1, 0));
    k.set_key(MoveKey::D, true);
    assert_eq!(k.direction(), (0, 0));
    k.set_key(MoveKey::A, false);
    assert_eq!(k.direction(), (1, 0));
}

#[test]
fn entity_kinds_compare() {
    assert_eq!(EntityType::PLAYER, EntityType::PLAYER);
    assert_ne!(EntityType::PLAYER, EntityType::ZOMBIE);
    assert_ne!(Behavior::STATIC, Behavior::CHASING);
}
