use spacesim::game::{
    authorize_owner, authorize_server, insert_at_free_key, GameCmdExecutionError,
    InsertRandomKey, Material, User,
};
use spacesim::timing::{GameSync, Interval};
use std::collections::HashMap;

#[test]
fn server_only_commands() {
    assert_eq!(authorize_server(User::Server), Ok(()));
    assert_eq!(authorize_server(User::Spectator), Err(GameCmdExecutionError::NotAuthorized));
    assert_eq!(authorize_server(User::Player(3)), Err(GameCmdExecutionError::NotAuthorized));
}

#[test]
fn owner_commands() {
    assert_eq!(authorize_owner(User::Server, 3), Ok(()));
    assert_eq!(authorize_owner(User::Player(3), 3), Ok(()));
    assert_eq!(authorize_owner(User::Player(4), 3), Err(GameCmdExecutionError::NotAuthorized));
    assert_eq!(authorize_owner(User::Spectator, 3), Err(GameCmdExecutionError::NotAuthorized));
}

#[test]
fn material_rolls() {
    assert_eq!(Material::from_roll(0), Material::Iron);
    assert_eq!(Material::from_roll(1), Material::Nickel);
    assert_eq!(Material::from_roll(2), Material::Silicates);
    assert_eq!(Material::from_roll(3), Material::Copper);
    assert_eq!(Material::from_roll(4), Material::Carbon);
    assert_eq!(Material::from_roll(77), Material::Carbon);
}

#[test]
fn free_key_probing() {
    let mut m: HashMap<u16, &str> = HashMap::new();
    assert_eq!(insert_at_free_key(&mut m, 10, "a"), Some(10));
    assert_eq!(insert_at_free_key(&mut m, 10, "b"), Some(11));
    assert_eq!(insert_at_free_key(&mut m, u16::MAX, "c"), Some(u16::MAX));
    assert_eq!(insert_at_free_key(&mut m, u16::MAX, "d"), Some(0));
    assert_eq!(m.len(), 4);
    assert_eq!(m[&11], "b");
}

#[test]
fn full_table_has_no_free_key() {
    let mut m: HashMap<u16, u8> = HashMap::new();
    for k in 0..=u16::MAX {
        m.insert(k, 0);
    }
    assert_eq!(insert_at_free_key(&mut m, 5, 1), None);
    assert_eq!(m.len(), 65536);
    assert_eq!(m.insert_with_unique_key(1, &vec![3, 9]), None);
    assert_eq!(m.len(), 65536);
}

#[test]
fn first_free_draw_is_taken() {
    let mut m: HashMap<u16, &str> = HashMap::new();
    m.insert(40, "x");
    m.insert(7, "y");
    assert_eq!(m.insert_with_unique_key("a", &vec![40, 7, 12, 99]), Some(12));
    assert_eq!(m[&12], "a");
    assert_eq!(m.insert_with_unique_key("b", &vec![40, 7, 12]), Some(13));
    assert_eq!(m.insert_with_unique_key("c", &vec![]), Some(0));
    assert_eq!(m.len(), 5);
}

#[test]
fn drawn_keys_are_unique() {
    let mut m: HashMap<u16, usize> = HashMap::new();
    let mut keys = vec![];
    for i in 0..500usize {
        let draws: Vec<u16> = (0..4).map(|j| ((i * 7919 + j * 104729) % 600) as u16).collect();
        keys.push(m.insert_with_unique_key(i, &draws).unwrap());
    }
    keys.sort();
    keys.dedup();
    assert_eq!(keys.len(), 500);
    assert_eq!(m.len(), 500);
}

#[test]
fn interval_fires_after_period() {
    let mut t = Interval::new(100, 1000);
    assert_eq!(t.last_fired(), 1000);
    assert!(!t.check(1050));
    assert!(!t.check(1100));
    assert!(t.check(1101));
    assert_eq!(t.last_fired(), 1101);
    assert!(!t.check(900));
    assert_eq!(t.last_fired(), 1101);
    assert_eq!(t.period(), 100);
}

#[test]
fn game_sync_counts_frames() {
    let mut s = GameSync::new(10);
    assert_eq!(s, GameSync { last_update: 10, frame: 0 });
    s.update(42);
    assert_eq!(s, GameSync { last_update: 42, frame: 1 });
    s.update(50);
    assert_eq!(s.frame, 2);
}
