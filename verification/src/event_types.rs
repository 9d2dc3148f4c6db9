//! Ready-made game events.

use crate::entity::EntityId;
use crate::event_bus::Event;
use crate::system::type_id_of;
use std::any::TypeId;
use vstd::prelude::*;

verus! {

/// Game state (data carried by `GameStateChanged`)
#[derive(Clone, Debug, PartialEq, Eq, Structural)]
pub enum GameState {
    Playing,
    Paused,
    Menu,
    GameOver,
}

/// Enemy defeated
#[derive(Clone, Debug)]
pub struct EnemyDefeated {
    pub entity: EntityId,
    pub reward: u32,
}

impl Event for EnemyDefeated {
    fn event_type_id(&self) -> TypeId {
        type_id_of::<Self>()
    }

    fn event_name(&self) -> (r: &str)
        ensures
            r@ == "EnemyDefeated"@,
    {
        "EnemyDefeated"
    }
}

/// Player level up
#[derive(Clone, Debug)]
pub struct PlayerLevelUp {
    pub entity: EntityId,
    pub new_level: u32,
}

impl Event for PlayerLevelUp {
    fn event_type_id(&self) -> TypeId {
        type_id_of::<Self>()
    }

    fn event_name(&self) -> (r: &str)
        ensures
            r@ == "PlayerLevelUp"@,
    {
        "PlayerLevelUp"
    }
}

/// Game state changed
#[derive(Clone, Debug)]
pub struct GameStateChanged {
    pub old_state: GameState,
    pub new_state: GameState,
}

impl Event for GameStateChanged {
    fn event_type_id(&self) -> TypeId {
        type_id_of::<Self>()
    }

    fn event_name(&self) -> (r: &str)
        ensures
            r@ == "GameStateChanged"@,
    {
        "GameStateChanged"
    }
}

/// Inventory item added
#[derive(Clone, Debug)]
pub struct ItemAdded {
    pub entity: EntityId,
    pub item_id: String,
    pub quantity: u32,
}

impl Event for ItemAdded {
    fn event_type_id(&self) -> TypeId {
        type_id_of::<Self>()
    }

    fn event_name(&self) -> (r: &str)
        ensures
            r@ == "ItemAdded"@,
    {
        "ItemAdded"
    }
}

/// Collision occurred
#[derive(Clone, Debug)]
pub struct Collision {
    pub entity_a: EntityId,
    pub entity_b: EntityId,
}

impl Event for Collision {
    fn event_type_id(&self) -> TypeId {
        type_id_of::<Self>()
    }

    fn event_name(&self) -> (r: &str)
        ensures
            r@ == "Collision"@,
    {
        "Collision"
    }
}

} // verus!
