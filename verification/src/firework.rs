//! The firework rocket item: used while gliding, it boosts the player by
//! shooting a rocket from where the player is.

use vstd::prelude::*;

verus! {

/// The item id of the firework rocket.
pub const FIREWORK_ROCKET_ID: u16 = 1242;

/// The behaviour of the firework rocket item.
pub struct FireworkRocketItem;

/// A position, each coordinate the bit pattern of its `f64`.
#[derive(Clone, Copy, Debug, PartialEq, Eq, Structural)]
pub struct PositionBits {
    pub x: u64,
    pub y: u64,
    pub z: u64,
}

/// The player using the item, as the item reads it: its entity id, its
/// position, and whether it is gliding.
#[derive(Clone, Copy, Debug, PartialEq, Eq, Structural)]
pub struct ItemUser {
    pub entity_id: i32,
    pub position: PositionBits,
    pub fall_flying: bool,
}

/// The kind of an entity an item use spawns.
#[derive(Clone, Copy, Debug, PartialEq, Eq, Structural)]
pub enum SpawnedKind {
    FireworkRocket,
}

/// An entity to spawn in the user's world: its kind, the entity that shot
/// it, and its position.
#[derive(Clone, Copy, Debug, PartialEq, Eq, Structural)]
pub struct Spawn {
    pub kind: SpawnedKind,
    pub shooter: i32,
    pub position: PositionBits,
}

/// What a use of the rocket spawns: a rocket shot by a gliding user at the
/// user's position, and nothing otherwise.
pub open spec fn rocket_use(user: ItemUser) -> Option<Spawn> {
    if user.fall_flying {
        Some(
            Spawn {
                kind: SpawnedKind::FireworkRocket,
                shooter: user.entity_id,
                position: user.position,
            },
        )
    } else {
        None
    }
}

impl FireworkRocketItem {
    /// The items this behaviour applies to.
    pub fn ids() -> (ids: Vec<u16>)
        ensures
            ids@ == seq![FIREWORK_ROCKET_ID],
    {
        let mut ids: Vec<u16> = Vec::new();
        ids.push(FIREWORK_ROCKET_ID);
        ids
    }

    /// Used while aiming at a block: rockets are not placed, so, as when
    /// aiming at air, a rocket is shot from a gliding user and nothing
    /// happens otherwise. Returns the one entity to spawn, if any; no block
    /// is placed and the stack is left as it is.
    pub fn use_on_block(&self, user: ItemUser) -> (spawn: Option<Spawn>)
        ensures
            spawn == rocket_use(user),
    {
        self.normal_use(user)
    }

    /// Used while aiming at air: a rocket is shot from a gliding user.
    /// Returns the one entity to spawn, if any.
    pub fn normal_use(&self, user: ItemUser) -> (spawn: Option<Spawn>)
        ensures
            spawn == rocket_use(user),
    {
        if user.fall_flying {
            Some(
                Spawn {
                    kind: SpawnedKind::FireworkRocket,
                    shooter: user.entity_id,
                    position: user.position,
                },
            )
        } else {
            None
        }
    }
}

} // verus!
