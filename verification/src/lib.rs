//! The authoritative core of a small real-time strategy game: the terrain grid, shortest
//! paths over it, units with movement and attack orders, combat resolved in fixed time
//! steps, and the command/rejection protocol between a client and the simulation.
use vstd::prelude::*;

pub mod connection;
pub mod map;
pub mod pathfinding;
pub mod protocol;
pub mod world;

pub use connection::{command_rejection, TickClock};
pub use map::{GameMap, MapError, MapView, Terrain};
pub use pathfinding::find_path;
pub use protocol::{ClientCommand, CommandRejected, GridPosition, PlayerId, UnitId};
pub use world::{
    AttackError, CommandError, GameEvent, GameWorld, Health, MoveError, Movement, SpawnError, Unit,
    UnitSnapshot, UnitStats, DEFAULT_ATTACK_DAMAGE, DEFAULT_ATTACK_INTERVAL_NANOS,
    DEFAULT_MAX_HEALTH, SERVER_TICK_NANOS,
};

verus! {

} // verus!
