//! Plain values exchanged between a client and the authoritative simulation.
use vstd::prelude::*;

verus! {

/// A tile coordinate on the game map.
#[derive(Debug, Clone, Copy, PartialEq, Eq, Hash, Structural)]
pub struct GridPosition {
    pub x: i32,
    pub y: i32,
}

impl GridPosition {
    pub fn new(x: i32, y: i32) -> (position: Self)
        ensures
            position.x == x,
            position.y == y,
    {
        Self { x, y }
    }
}

/// A stable identifier of a unit in the simulation.
#[derive(Debug, Clone, Copy, PartialEq, Eq, Hash, Structural)]
pub struct UnitId(pub u64);

/// A stable identifier of a player.
#[derive(Debug, Clone, Copy, PartialEq, Eq, Hash, Structural)]
pub struct PlayerId(pub u64);

/// An intent sent by a client; the simulation decides what becomes of it.
#[derive(Debug, Clone, PartialEq, Eq)]
pub enum ClientCommand {
    MoveUnits { units: Vec<UnitId>, destination: GridPosition },
    Attack { attackers: Vec<UnitId>, unit: UnitId },
}

/// Why the simulation refused a command, as reported to the client.
#[derive(Debug, Clone, Copy, PartialEq, Eq, Structural)]
pub enum CommandRejected {
    EmptyUnitSelection,
    UnitNotFound { unit: UnitId },
    NoPath { start: GridPosition, goal: GridPosition },
    UnitNotOwned { unit: UnitId },
    FriendlyTarger { unit: UnitId },
}

} // verus!
