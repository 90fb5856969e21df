use vstd::prelude::*;

verus! {

use crate::collision::{GameObjectId, PlayerToken};
use std::collections::HashMap;

/// Who issues a command.
#[derive(Clone, Copy, Debug, PartialEq, Eq, Structural)]
pub enum User {
    Server,
    Spectator,
    Player(PlayerToken),
}

/// Why a command was not executed.
#[derive(Clone, Debug, PartialEq, Eq)]
pub enum GameCmdExecutionError {
    NotAuthorized,
    InvalidId,
    Other(String),
}

/// Admits commands that only the server may issue.
pub fn authorize_server(user: User) -> (r: Result<(), GameCmdExecutionError>)
    ensures
        user == User::Server ==> r == Ok::<(), GameCmdExecutionError>(()),
        user != User::Server ==> r == Err::<(), GameCmdExecutionError>(
            GameCmdExecutionError::NotAuthorized,
        ),
{
    match user {
        User::Server => Ok(()),
        _ => Err(GameCmdExecutionError::NotAuthorized),
    }
}

/// Admits commands on an object owned by `owner`: the server and the owner
/// may issue them, spectators and other players may not.
pub fn authorize_owner(user: User, owner: PlayerToken) -> (r: Result<(), GameCmdExecutionError>)
    ensures
        (user == User::Server || user == User::Player(owner)) ==> r == Ok::<
            (),
            GameCmdExecutionError,
        >(()),
        !(user == User::Server || user == User::Player(owner)) ==> r == Err::<
            (),
            GameCmdExecutionError,
        >(GameCmdExecutionError::NotAuthorized),
{
    match user {
        User::Server => Ok(()),
        User::Spectator => Err(GameCmdExecutionError::NotAuthorized),
        User::Player(p) => {
            if p == owner {
                Ok(())
            } else {
                Err(GameCmdExecutionError::NotAuthorized)
            }
        },
    }
}

/// Raw materials, gained by damaging objects and spent on building.
#[derive(Clone, Copy, Debug, PartialEq, Eq, Structural, PartialOrd, Ord, Hash)]
pub enum Material {
    Iron,
    Nickel,
    Silicates,
    Copper,
    Carbon,
}

pub open spec fn spec_material_of_roll(roll: u32) -> Material {
    if roll == 0 {
        Material::Iron
    } else if roll == 1 {
        Material::Nickel
    } else if roll == 2 {
        Material::Silicates
    } else if roll == 3 {
        Material::Copper
    } else {
        Material::Carbon
    }
}

impl Material {
    /// The material drawn by a roll in `0..5`; a larger roll counts as the
    /// last material.
    pub fn from_roll(roll: u32) -> (r: Material)
        ensures
            r == spec_material_of_roll(roll),
    {
        match roll {
            0 => Material::Iron,
            1 => Material::Nickel,
            2 => Material::Silicates,
            3 => Material::Copper,
            _ => Material::Carbon,
        }
    }
}

/// The kinds of projectile that weapons fire.
#[derive(Clone, Copy, Debug, PartialEq, Eq, Structural)]
pub enum ProjectileType {
    Bullet,
    Missile,
    Laser,
}

/// Failures of the network layer.
#[derive(Clone, Copy, Debug, PartialEq, Eq, Structural)]
pub enum NetworkError {
    IncorrectDataFormat,
    WebsocketTrouble,
    NoMsgReceived,
    WrongAuthToken,
    NotAuthorized,
}

/// The key reached after `j` steps of probing upwards from `start`.
pub open spec fn probe_key(start: GameObjectId, j: int) -> GameObjectId {
    ((start + j) % 0x10000) as GameObjectId
}

/// Inserts `value` under the first free key met when probing upwards from
/// `start`, wrapping around after `u16::MAX`. Returns that key, or `None`,
/// leaving the map as it was, when every key is taken.
pub fn insert_at_free_key<V>(map: &mut HashMap<GameObjectId, V>, start: GameObjectId, value: V) -> (r:
    Option<GameObjectId>)
    ensures
        r is None <==> forall|k: GameObjectId| old(map)@.contains_key(k),
        r is None ==> final(map)@ == old(map)@,
        r matches Some(k) ==> !old(map)@.contains_key(k) && final(map)@ == old(map)@.insert(
            k,
            value,
        ),
        r matches Some(k) ==> forall|j: int|
            0 <= j < (k - start + 0x10000) % 0x10000 ==> old(map)@.contains_key(
                #[trigger] probe_key(start, j),
            ),
{
    broadcast use vstd::std_specs::hash::group_hash_axioms;

    let mut key: GameObjectId = start;
    let mut tried: u32 = 0;
    while tried < 0x10000
        invariant
            tried <= 0x10000,
            key as int == (start + tried) % 0x10000,
            map@ == old(map)@,
            forall|j: int| 0 <= j < tried ==> map@.contains_key(#[trigger] probe_key(start, j)),
        decreases 0x10000 - tried,
    {
        if !map.contains_key(&key) {
            map.insert(key, value);
            assert((key - start + 0x10000) % 0x10000 == tried);
            return Some(key);
        }
        key = if key == u16::MAX { 0 } else { key + 1 };
        tried = tried + 1;
    }
    assert forall|k: GameObjectId| map@.contains_key(k) by {
        let j = (k - start + 0x10000) % 0x10000;
        assert(probe_key(start, j) == k);
    }
    None
}

/// Inserting a value under a fresh key chosen from random draws.
pub trait InsertRandomKey<K, V> {
    /// Inserts `value` under the first of the drawn keys `draws` that is not
    /// in use, or, if all are in use, under the first free key met when
    /// probing upwards from the last draw; returns the key, or `None` when no
    /// key is free.
    fn insert_with_unique_key(&mut self, value: V, draws: &Vec<K>) -> Option<K>;
}

/// Every draw before index `i` is a key in use in `m`.
pub open spec fn draws_taken<V>(m: Map<GameObjectId, V>, draws: Seq<GameObjectId>, i: int) -> bool {
    forall|j: int| 0 <= j < i ==> #[trigger] m.contains_key(draws[j])
}

impl<V> InsertRandomKey<GameObjectId, V> for HashMap<GameObjectId, V> {
    fn insert_with_unique_key(&mut self, value: V, draws: &Vec<GameObjectId>) -> (r: Option<
        GameObjectId,
    >)
        ensures
            r is None <==> forall|k: GameObjectId| old(self)@.contains_key(k),
            r is None ==> final(self)@ == old(self)@,
            r matches Some(k) ==> !old(self)@.contains_key(k) && final(self)@ == old(self)@.insert(
                k,
                value,
            ),
            forall|i: int|
                0 <= i < draws@.len() && !old(self)@.contains_key(#[trigger] draws@[i])
                    && draws_taken(old(self)@, draws@, i) ==> r == Some(draws@[i]),
    {
        broadcast use vstd::std_specs::hash::group_hash_axioms;

        let ghost m0 = self@;
        assert(m0 == old(self)@);
        let n = draws.len();
        let mut i: usize = 0;
        while i < n
            invariant
                n == draws@.len(),
                i <= n,
                self@ == m0,
                m0 == old(self)@,
                draws_taken(m0, draws@, i as int),
            decreases n - i,
        {
            let key = draws[i];
            if !self.contains_key(&key) {
                assert(!m0.contains_key(draws@[i as int]));
                self.insert(key, value);
                assert(self@ == m0.insert(key, value));
                proof {
                    assert forall|p: int|
                        0 <= p < draws@.len() && !m0.contains_key(#[trigger] draws@[p])
                            && draws_taken(m0, draws@, p) implies draws@[p] == key by {
                        if p < i {
                            assert(m0.contains_key(draws@[p]));
                        } else if p > i {
                            assert(m0.contains_key(draws@[i as int]));
                        }
                    }
                }
                return Some(key);
            }
            i = i + 1;
        }
        assert forall|p: int|
            0 <= p < draws@.len() && !m0.contains_key(#[trigger] draws@[p]) && draws_taken(
                m0,
                draws@,
                p,
            ) implies false by {
            assert(m0.contains_key(draws@[p]));
        }
        let start: GameObjectId = if n > 0 {
            draws[n - 1]
        } else {
            0
        };
        insert_at_free_key(self, start, value)
    }
}

} // verus!
