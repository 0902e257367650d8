//! The authoritative simulation state: units, their orders, combat and deaths.
//!
//! Continuous positions are kept by the caller; this state records for every unit the
//! grid cell it stands nearest to, which is what orders are planned from.
use vstd::prelude::*;
use std::collections::VecDeque;
use crate::map::{GameMap, MapView};
use crate::pathfinding::{find_path, is_shortest_path, path_exists};
use crate::protocol::{ClientCommand, GridPosition, PlayerId, UnitId};

verus! {

/// Length of one simulation step, in nanoseconds (50 ms).
pub const SERVER_TICK_NANOS: u64 = 50_000_000;

/// Health a freshly spawned unit starts with.
pub const DEFAULT_MAX_HEALTH: u32 = 100;

/// Damage one attack of a freshly spawned unit deals.
pub const DEFAULT_ATTACK_DAMAGE: u32 = 10;

/// Time between two attacks of a freshly spawned unit, in nanoseconds (500 ms).
pub const DEFAULT_ATTACK_INTERVAL_NANOS: u64 = 500_000_000;

/// Current and maximum hit points of a unit.
#[derive(Debug, Clone, Copy, PartialEq, Eq, Structural)]
pub struct Health {
    current: u32,
    maximum: u32,
}

impl Health {
    pub closed spec fn spec_current(&self) -> u32 {
        self.current
    }

    pub closed spec fn spec_maximum(&self) -> u32 {
        self.maximum
    }

    pub closed spec fn spec_new(maximum: u32) -> Health {
        Health { current: maximum, maximum: maximum }
    }

    /// Full health.
    #[verifier::when_used_as_spec(spec_new)]
    pub fn new(maximum: u32) -> (health: Self)
        ensures
            health == Health::spec_new(maximum),
            health.current() == maximum,
            health.maximum() == maximum,
    {
        Self { current: maximum, maximum: maximum }
    }

    #[verifier::when_used_as_spec(spec_current)]
    pub fn current(&self) -> (current: u32)
        ensures
            current == self.spec_current(),
    {
        self.current
    }

    #[verifier::when_used_as_spec(spec_maximum)]
    pub fn maximum(&self) -> (maximum: u32)
        ensures
            maximum == self.spec_maximum(),
    {
        self.maximum
    }

    pub fn is_dead(&self) -> (dead: bool)
        ensures
            dead == (self.current() == 0),
    {
        self.current == 0
    }

    /// Loses `amount` hit points, stopping at zero; the maximum is unchanged.
    pub fn apply_damage(&mut self, amount: u32)
        ensures
            final(self).current() == old(self).current().saturating_sub(amount),
            final(self).maximum() == old(self).maximum(),
    {
        self.current = self.current.saturating_sub(amount);
    }

    /// This health after losing `total` hit points in all, stopping at zero.
    pub closed spec fn spec_after_damage(self, total: int) -> Health {
        Health {
            current: if self.current >= total {
                (self.current - total) as u32
            } else {
                0
            },
            maximum: self.maximum,
        }
    }

    /// Full health holds its maximum.
    pub broadcast proof fn lemma_full_health(maximum: u32)
        ensures
            #[trigger] Health::spec_new(maximum).current() == maximum,
            Health::spec_new(maximum).maximum() == maximum,
    {
    }

    pub proof fn lemma_after_damage(self, total: int)
        requires
            total >= 0,
        ensures
            self.spec_after_damage(total).current() == (if self.current() >= total {
                self.current() - total
            } else {
                0
            }),
            self.spec_after_damage(total).maximum() == self.maximum(),
    {
    }
}

/// The remaining waypoints of a unit on the move, the next one first.
#[derive(Debug, Clone, PartialEq)]
pub struct Movement {
    pub path: VecDeque<GridPosition>,
}

/// The combat figures of a unit; the attack interval is in nanoseconds.
#[derive(Debug, Clone, Copy, PartialEq, Eq, Structural)]
pub struct UnitStats {
    pub base_max_health: u32,
    pub base_attack_damage: u32,
    pub base_attack_interval: u64,
}

impl UnitStats {
    pub open spec fn spec_standard() -> UnitStats {
        UnitStats {
            base_max_health: DEFAULT_MAX_HEALTH,
            base_attack_damage: DEFAULT_ATTACK_DAMAGE,
            base_attack_interval: DEFAULT_ATTACK_INTERVAL_NANOS,
        }
    }

    /// The figures every spawned unit starts with.
    #[verifier::when_used_as_spec(spec_standard)]
    pub fn standard() -> (stats: Self)
        ensures
            stats == UnitStats::spec_standard(),
            stats.base_max_health == DEFAULT_MAX_HEALTH,
            stats.base_attack_damage == DEFAULT_ATTACK_DAMAGE,
            stats.base_attack_interval == DEFAULT_ATTACK_INTERVAL_NANOS,
    {
        UnitStats {
            base_max_health: DEFAULT_MAX_HEALTH,
            base_attack_damage: DEFAULT_ATTACK_DAMAGE,
            base_attack_interval: DEFAULT_ATTACK_INTERVAL_NANOS,
        }
    }
}

#[derive(Debug, Clone, Copy, PartialEq, Eq, Structural)]
pub enum SpawnError {
    PositionNotWalkable(GridPosition),
}

#[derive(Debug, Clone, Copy, PartialEq, Eq, Structural)]
pub enum MoveError {
    UnitNotFound(UnitId),
    NoPath { start: GridPosition, goal: GridPosition },
}

#[derive(Debug, Clone, Copy, PartialEq, Eq, Structural)]
pub enum AttackError {
    AttackerNotFound(UnitId),
    TargetNotFound(UnitId),
    FriendlyTarget(UnitId),
}

#[derive(Debug, Clone, Copy, PartialEq, Eq, Structural)]
pub enum CommandError {
    EmptyUnitSelection,
    Move(MoveError),
    Attack(AttackError),
    UnitNotOwned(UnitId),
}

impl From<MoveError> for CommandError {
    fn from(error: MoveError) -> (converted: Self) {
        CommandError::Move(error)
    }
}

impl vstd::std_specs::convert::FromSpecImpl<MoveError> for CommandError {
    open spec fn obeys_from_spec() -> bool {
        true
    }

    open spec fn from_spec(error: MoveError) -> Self {
        CommandError::Move(error)
    }
}

impl From<AttackError> for CommandError {
    fn from(error: AttackError) -> (converted: Self) {
        CommandError::Attack(error)
    }
}

impl vstd::std_specs::convert::FromSpecImpl<AttackError> for CommandError {
    open spec fn obeys_from_spec() -> bool {
        true
    }

    open spec fn from_spec(error: AttackError) -> Self {
        CommandError::Attack(error)
    }
}

#[derive(Debug, Clone, Copy, PartialEq, Eq, Structural)]
pub enum GameEvent {
    UnitDied { unit: UnitId },
}

/// A unit of the simulation. `cell` is the grid cell nearest to the unit's position.
#[derive(Debug)]
pub struct Unit {
    pub id: UnitId,
    pub owner: PlayerId,
    pub cell: GridPosition,
    pub movement: Option<Movement>,
    pub health: Health,
    pub attack_target: Option<UnitId>,
    pub stats: UnitStats,
    attack_cooldown: u64,
}

/// The abstract state of a unit; `path` is `None` when it has no movement order and
/// `cooldown` is the time, in nanoseconds, until it may attack again.
pub struct UnitView {
    pub id: UnitId,
    pub owner: PlayerId,
    pub cell: GridPosition,
    pub path: Option<Seq<GridPosition>>,
    pub health: Health,
    pub attack_target: Option<UnitId>,
    pub stats: UnitStats,
    pub cooldown: u64,
}

impl View for Unit {
    type V = UnitView;

    closed spec fn view(&self) -> UnitView {
        UnitView {
            id: self.id,
            owner: self.owner,
            cell: self.cell,
            path: match self.movement {
                Some(m) => Some(m.path@),
                None => None,
            },
            health: self.health,
            attack_target: self.attack_target,
            stats: self.stats,
            cooldown: self.attack_cooldown,
        }
    }
}

impl Unit {
    pub fn attack_damage(&self) -> (damage: u32)
        ensures
            damage == self@.stats.base_attack_damage,
    {
        self.stats.base_attack_damage
    }

    /// Time between two attacks, in nanoseconds.
    pub fn attack_interval(&self) -> (interval: u64)
        ensures
            interval == self@.stats.base_attack_interval,
    {
        self.stats.base_attack_interval
    }
}

/// What a snapshot tells of one unit.
#[derive(Debug, Clone, Copy, PartialEq, Eq, Structural)]
pub struct UnitSnapshot {
    pub id: UnitId,
    pub owner: PlayerId,
    pub health: u32,
    pub max_health: u32,
}

pub open spec fn snapshot_of(u: UnitView) -> UnitSnapshot {
    UnitSnapshot {
        id: u.id,
        owner: u.owner,
        health: u.health.current(),
        max_health: u.health.maximum(),
    }
}

/// The abstract state of the world: the map, the units in increasing id order, and the
/// id the next spawned unit receives.
pub struct WorldView {
    pub map: MapView,
    pub units: Seq<UnitView>,
    pub next_unit_id: u64,
}

impl WorldView {
    pub open spec fn has_unit(self, id: UnitId) -> bool {
        exists|i: int| 0 <= i < self.units.len() && #[trigger] self.units[i].id == id
    }

    pub open spec fn unit_index(self, id: UnitId) -> int {
        choose|i: int| 0 <= i < self.units.len() && #[trigger] self.units[i].id == id
    }

    /// The unit with the given id, if there is one.
    pub open spec fn unit(self, id: UnitId) -> Option<UnitView> {
        if self.has_unit(id) {
            Some(self.units[self.unit_index(id)])
        } else {
            None
        }
    }

    pub open spec fn ids_increasing(self) -> bool {
        forall|i: int, j: int|
            0 <= i < j < self.units.len() ==> #[trigger] self.units[i].id.0
                < #[trigger] self.units[j].id.0
    }

    /// What holds of every unit between two calls: it is alive, its health does not
    /// exceed its maximum, a movement order has a waypoint left, it never holds a
    /// movement order and an attack target at once, and its target is an existing
    /// unit of another owner.
    pub open spec fn unit_ok(self, u: UnitView) -> bool {
        &&& u.health.current() > 0
        &&& u.health.current() <= u.health.maximum()
        &&& (u.path matches Some(p) ==> p.len() > 0)
        &&& !(u.path is Some && u.attack_target is Some)
        &&& (u.attack_target matches Some(t) ==> self.has_unit(t) && self.unit(t).unwrap().owner
            != u.owner)
    }

    pub open spec fn wf(self) -> bool {
        &&& self.map.wf()
        &&& self.next_unit_id >= 1
        &&& self.ids_increasing()
        &&& forall|i: int|
            0 <= i < self.units.len() ==> 1 <= (#[trigger] self.units[i]).id.0 < self.next_unit_id
        &&& forall|i: int| 0 <= i < self.units.len() ==> self.unit_ok(#[trigger] self.units[i])
    }

    /// What holds of every unit in the middle of a step, before dead units are removed:
    /// everything `unit_ok` asks except being alive.
    pub open spec fn orders_ok(self, u: UnitView) -> bool {
        &&& u.health.current() <= u.health.maximum()
        &&& (u.path matches Some(p) ==> p.len() > 0)
        &&& !(u.path is Some && u.attack_target is Some)
        &&& (u.attack_target matches Some(t) ==> self.has_unit(t) && self.unit(t).unwrap().owner
            != u.owner)
    }

    /// Well formed except that some units may have no health left.
    pub open spec fn combat_ok(self) -> bool {
        &&& self.map.wf()
        &&& self.next_unit_id >= 1
        &&& self.ids_increasing()
        &&& forall|i: int|
            0 <= i < self.units.len() ==> 1 <= (#[trigger] self.units[i]).id.0 < self.next_unit_id
        &&& forall|i: int| 0 <= i < self.units.len() ==> self.orders_ok(#[trigger] self.units[i])
    }

    /// Why unit `id` cannot be sent to `goal` on behalf of `owner`, if it cannot: it
    /// does not exist, belongs to someone else, or no path leads from its cell to `goal`.
    pub open spec fn move_error(self, owner: PlayerId, goal: GridPosition, id: UnitId) -> Option<
        CommandError,
    > {
        match self.unit(id) {
            None => Some(CommandError::Move(MoveError::UnitNotFound(id))),
            Some(u) => if u.owner != owner {
                Some(CommandError::UnitNotOwned(id))
            } else if !path_exists(self.map, u.cell, goal) {
                Some(CommandError::Move(MoveError::NoPath { start: u.cell, goal }))
            } else {
                None
            },
        }
    }

    /// The error of the first unit in `ids` that cannot be sent to `goal`.
    pub open spec fn first_move_error(self, owner: PlayerId, goal: GridPosition, ids: Seq<UnitId>) -> Option<CommandError>
        decreases ids.len(),
    {
        if ids.len() == 0 {
            None
        } else {
            match self.move_error(owner, goal, ids[0]) {
                Some(e) => Some(e),
                None => self.first_move_error(owner, goal, ids.drop_first()),
            }
        }
    }

    /// `v` is `u` sent along a shortest path to `goal` (no order when already there),
    /// with its attack target dropped.
    pub open spec fn sent_to(self, goal: GridPosition, u: UnitView, v: UnitView) -> bool {
        exists|p: Seq<GridPosition>|
            #[trigger] is_shortest_path(self.map, u.cell, goal, p) && v == UnitView {
                path: if p.len() == 0 {
                    None
                } else {
                    Some(p)
                },
                attack_target: None,
                ..u
            }
    }

    /// `after` is this world with every unit listed in `ids` sent to `goal` and every
    /// other unit unchanged.
    pub open spec fn moved_to(self, after: WorldView, goal: GridPosition, ids: Seq<UnitId>) -> bool {
        &&& after.map == self.map
        &&& after.next_unit_id == self.next_unit_id
        &&& after.units.len() == self.units.len()
        &&& forall|i: int|
            0 <= i < self.units.len() ==> if ids.contains(self.units[i].id) {
                self.sent_to(goal, self.units[i], #[trigger] after.units[i])
            } else {
                after.units[i] == self.units[i]
            }
    }

    /// Why unit `id` cannot attack on behalf of `owner`, if it cannot.
    pub open spec fn attacker_error(self, owner: PlayerId, id: UnitId) -> Option<CommandError> {
        match self.unit(id) {
            None => Some(CommandError::Attack(AttackError::AttackerNotFound(id))),
            Some(u) => if u.owner != owner {
                Some(CommandError::UnitNotOwned(id))
            } else if u.health.current() == 0 {
                Some(CommandError::Attack(AttackError::AttackerNotFound(id)))
            } else {
                None
            },
        }
    }

    pub open spec fn first_attacker_error(self, owner: PlayerId, ids: Seq<UnitId>) -> Option<CommandError>
        decreases ids.len(),
    {
        if ids.len() == 0 {
            None
        } else {
            match self.attacker_error(owner, ids[0]) {
                Some(e) => Some(e),
                None => self.first_attacker_error(owner, ids.drop_first()),
            }
        }
    }

    /// Why unit `target` cannot be attacked by `owner`, if it cannot.
    pub open spec fn target_error(self, owner: PlayerId, target: UnitId) -> Option<CommandError> {
        match self.unit(target) {
            None => Some(CommandError::Attack(AttackError::TargetNotFound(target))),
            Some(u) => if u.owner == owner {
                Some(CommandError::Attack(AttackError::FriendlyTarget(target)))
            } else if u.health.current() == 0 {
                Some(CommandError::Attack(AttackError::TargetNotFound(target)))
            } else {
                None
            },
        }
    }

    /// Why the attack order fails: no attacker listed, then the first attacker in order
    /// that cannot attack, then the target.
    pub open spec fn attack_error(self, owner: PlayerId, ids: Seq<UnitId>, target: UnitId) -> Option<CommandError> {
        if ids.len() == 0 {
            Some(CommandError::EmptyUnitSelection)
        } else {
            match self.first_attacker_error(owner, ids) {
                Some(e) => Some(e),
                None => self.target_error(owner, target),
            }
        }
    }

    /// This world after unit `id` moved on its path: having reached its next waypoint it
    /// stands on it and drops it (its order ends with the last waypoint); otherwise it
    /// stands nearest to `cell`. A missing unit or one without a movement order is unchanged.
    pub open spec fn progressed(self, id: UnitId, cell: GridPosition, reached_waypoint: bool) -> WorldView {
        match self.unit(id) {
            Some(u) => match u.path {
                Some(p) => WorldView {
                    units: self.units.update(
                        self.unit_index(id),
                        if reached_waypoint {
                            UnitView {
                                cell: p[0],
                                path: if p.len() == 1 {
                                    None
                                } else {
                                    Some(p.drop_first())
                                },
                                ..u
                            }
                        } else {
                            UnitView { cell, ..u }
                        },
                    ),
                    ..self
                },
                None => self,
            },
            None => self,
        }
    }

    /// This world once `delta` nanoseconds have passed on every unit's cooldown.
    pub open spec fn cooled_down(self, delta: u64) -> WorldView {
        WorldView {
            units: self.units.map_values(
                |u: UnitView| UnitView { cooldown: u.cooldown.saturating_sub(delta), ..u },
            ),
            ..self
        }
    }

    /// Whether `u` strikes its target now: it is alive and ready, and its target exists,
    /// is alive and is within its range (`in_range` lists the units whose target is).
    pub open spec fn strikes(self, in_range: Seq<UnitId>, u: UnitView) -> bool {
        &&& u.health.current() > 0
        &&& u.cooldown == 0
        &&& u.attack_target matches Some(t) && self.has_unit(t) && self.unit(t).unwrap().health.current()
            > 0
        &&& in_range.contains(u.id)
    }

    /// Damage that the first `k` units deal to `target` now.
    pub open spec fn damage_dealt(self, in_range: Seq<UnitId>, target: UnitId, k: nat) -> int
        decreases k,
    {
        if k == 0 || k > self.units.len() {
            0
        } else {
            let u = self.units[k - 1];
            self.damage_dealt(in_range, target, (k - 1) as nat) + if self.strikes(in_range, u)
                && u.attack_target == Some(target) {
                u.stats.base_attack_damage as int
            } else {
                0
            }
        }
    }

    /// Damage that `target` takes from all strikes now.
    pub open spec fn damage_taken(self, in_range: Seq<UnitId>, target: UnitId) -> int {
        self.damage_dealt(in_range, target, self.units.len())
    }

    /// This world after every striking unit has hit its target and started its cooldown.
    pub open spec fn after_strikes(self, in_range: Seq<UnitId>) -> WorldView {
        WorldView {
            units: self.units.map_values(
                |u: UnitView|
                    UnitView {
                        cooldown: if self.strikes(in_range, u) {
                            u.stats.base_attack_interval
                        } else {
                            u.cooldown
                        },
                        health: u.health.spec_after_damage(self.damage_taken(in_range, u.id)),
                        ..u
                    },
            ),
            ..self
        }
    }

    /// `u` with its target dropped when that target has no health left.
    pub open spec fn without_dead_target(self, u: UnitView) -> UnitView {
        UnitView {
            attack_target: match u.attack_target {
                Some(t) => if self.has_unit(t) && self.unit(t).unwrap().health.current() == 0 {
                    None
                } else {
                    Some(t)
                },
                None => None,
            },
            ..u
        }
    }

    /// This world with targets on dead units dropped and dead units removed.
    pub open spec fn buried(self) -> WorldView {
        WorldView {
            units: self.units.map_values(|u: UnitView| self.without_dead_target(u)).filter(
                |u: UnitView| u.health.current() > 0,
            ),
            ..self
        }
    }

    /// One death event per unit without health left, in increasing id order.
    pub open spec fn casualties(self) -> Seq<GameEvent> {
        self.units.filter(|u: UnitView| u.health.current() == 0).map_values(
            |u: UnitView| GameEvent::UnitDied { unit: u.id },
        )
    }

    /// This world with every unit listed in `ids` targeting `target` and stopped.
    pub open spec fn with_attack_orders(self, ids: Seq<UnitId>, target: UnitId) -> WorldView {
        WorldView {
            units: Seq::new(
                self.units.len(),
                |i: int|
                    if ids.contains(self.units[i].id) {
                        UnitView { attack_target: Some(target), path: None, ..self.units[i] }
                    } else {
                        self.units[i]
                    },
            ),
            ..self
        }
    }
}

/// In a world whose ids increase, the unit at index `j` is the one `unit` finds by its id.
pub proof fn lemma_unit_at(w: WorldView, j: int)
    requires
        w.ids_increasing(),
        0 <= j < w.units.len(),
    ensures
        w.has_unit(w.units[j].id),
        w.unit_index(w.units[j].id) == j,
        w.unit(w.units[j].id) == Some(w.units[j]),
{
    let id = w.units[j].id;
    assert(w.units[j].id == id);
    let k = w.unit_index(id);
    if k < j {
        assert(w.units[k].id.0 < w.units[j].id.0);
    } else if k > j {
        assert(w.units[j].id.0 < w.units[k].id.0);
    }
}

/// The map, the units and the id counter of the simulation.
#[derive(Debug)]
pub struct GameWorld {
    map: GameMap,
    units: Vec<Unit>,
    next_unit_id: u64,
}

impl View for GameWorld {
    type V = WorldView;

    closed spec fn view(&self) -> WorldView {
        WorldView {
            map: self.map@,
            units: self.units@.map_values(|u: Unit| u@),
            next_unit_id: self.next_unit_id,
        }
    }
}

impl GameWorld {
    /// A world on `map` with no units; the first unit spawned gets id 1.
    pub fn new(map: GameMap) -> (world: Self)
        requires
            map@.wf(),
        ensures
            world@.wf(),
            world@.map == map@,
            world@.units.len() == 0,
            world@.next_unit_id == 1,
    {
        let world = Self { map, units: Vec::new(), next_unit_id: 1 };
        assert(world@.units =~= Seq::<UnitView>::empty());
        world
    }

    pub fn map(&self) -> (map: &GameMap)
        ensures
            map@ == self@.map,
    {
        &self.map
    }

    /// The id the next spawned unit receives.
    pub fn next_unit_id(&self) -> (id: u64)
        ensures
            id == self@.next_unit_id,
    {
        self.next_unit_id
    }

    /// Index in `units` of the unit with id `id`.
    fn find_index(&self, id: UnitId) -> (index: Option<usize>)
        requires
            self@.ids_increasing(),
        ensures
            match index {
                Some(i) => i < self@.units.len() && self@.units[i as int].id == id
                    && self@.unit_index(id) == i && self@.unit(id) == Some(self@.units[i as int]),
                None => !self@.has_unit(id),
            },
    {
        let mut i: usize = 0;
        while i < self.units.len()
            invariant
                self@.ids_increasing(),
                0 <= i <= self.units@.len(),
                forall|k: int| 0 <= k < i ==> #[trigger] self@.units[k].id != id,
            decreases self.units@.len() - i,
        {
            if self.units[i].id == id {
                proof {
                    lemma_unit_at(self@, i as int);
                }
                return Some(i);
            }
            i = i + 1;
        }
        None
    }

    /// The unit with id `id`, if there is one.
    pub fn unit(&self, id: UnitId) -> (unit: Option<&Unit>)
        requires
            self@.wf(),
        ensures
            match unit {
                Some(u) => self@.unit(id) == Some(u@),
                None => self@.unit(id) is None,
            },
    {
        match self.find_index(id) {
            Some(i) => Some(&self.units[i]),
            None => None,
        }
    }

    /// The units in increasing id order.
    pub fn units(&self) -> (units: &Vec<Unit>)
        ensures
            units@.map_values(|u: Unit| u@) == self@.units,
    {
        &self.units
    }

    /// Places a new unit of `owner` on a walkable cell with full standard health and no
    /// orders. The new id is the counter's value, which no existing unit carries.
    pub fn spawn_unit(&mut self, owner: PlayerId, position: GridPosition) -> (result: Result<
        UnitId,
        SpawnError,
    >)
        requires
            old(self)@.wf(),
            old(self)@.map.walkable(position) ==> old(self)@.next_unit_id < u64::MAX,
        ensures
            final(self)@.wf(),
            match result {
                Ok(id) => {
                    &&& old(self)@.map.walkable(position)
                    &&& id.0 == old(self)@.next_unit_id
                    &&& !old(self)@.has_unit(id)
                    &&& final(self)@.map == old(self)@.map
                    &&& final(self)@.next_unit_id == old(self)@.next_unit_id + 1
                    &&& final(self)@.units == old(self)@.units.push(
                        UnitView {
                            id,
                            owner,
                            cell: position,
                            path: None,
                            health: Health::new(DEFAULT_MAX_HEALTH),
                            attack_target: None,
                            stats: UnitStats::standard(),
                            cooldown: 0,
                        },
                    )
                },
                Err(e) => {
                    &&& !old(self)@.map.walkable(position)
                    &&& e == SpawnError::PositionNotWalkable(position)
                    &&& final(self)@ == old(self)@
                },
            },
    {
        if !self.map.is_walkable(position) {
            return Err(SpawnError::PositionNotWalkable(position));
        }
        let ghost w1 = self@;
        let id = UnitId(self.next_unit_id);
        self.next_unit_id = self.next_unit_id + 1;
        let unit = Unit {
            id,
            owner,
            cell: position,
            movement: None,
            health: Health::new(DEFAULT_MAX_HEALTH),
            attack_target: None,
            stats: UnitStats::standard(),
            attack_cooldown: 0,
        };
        self.units.push(unit);
        proof {
            let w2 = self@;
            assert(w2.units =~= w1.units.push(unit@));
            assert(!w1.has_unit(id));
            assert forall|i: int| 0 <= i < w2.units.len() implies w2.unit_ok(#[trigger] w2.units[i]) by {
                if i < w1.units.len() {
                    assert(w1.unit_ok(w1.units[i]));
                    if let Some(t) = w1.units[i].attack_target {
                        lemma_unit_stable(w1, w2, t);
                    }
                }
            }
        }
        Ok(id)
    }
}

/// Each planned movement belongs to the unit listed at the same place in `ids`, which can
/// be sent to `goal`, and follows a shortest path from that unit's cell.
#[verifier::opaque]
spec fn plans_ok(
    w: WorldView,
    owner: PlayerId,
    goal: GridPosition,
    ids: Seq<UnitId>,
    plans: Seq<(UnitId, VecDeque<GridPosition>)>,
) -> bool {
    &&& plans.len() <= ids.len()
    &&& forall|k: int|
        0 <= k < plans.len() ==> {
            &&& (#[trigger] plans[k]).0 == ids[k]
            &&& w.move_error(owner, goal, ids[k]) is None
            &&& is_shortest_path(w.map, w.unit(ids[k]).unwrap().cell, goal, plans[k].1@)
        }
}

proof fn lemma_plans_push(
    w: WorldView,
    owner: PlayerId,
    goal: GridPosition,
    ids: Seq<UnitId>,
    plans: Seq<(UnitId, VecDeque<GridPosition>)>,
    path: VecDeque<GridPosition>,
)
    requires
        plans_ok(w, owner, goal, ids, plans),
        plans.len() < ids.len(),
        w.move_error(owner, goal, ids[plans.len() as int]) is None,
        is_shortest_path(w.map, w.unit(ids[plans.len() as int]).unwrap().cell, goal, path@),
    ensures
        plans_ok(w, owner, goal, ids, plans.push((ids[plans.len() as int], path))),
{
    reveal(plans_ok);
    let next = plans.push((ids[plans.len() as int], path));
    assert forall|k: int| 0 <= k < next.len() implies {
        &&& (#[trigger] next[k]).0 == ids[k]
        &&& w.move_error(owner, goal, ids[k]) is None
        &&& is_shortest_path(w.map, w.unit(ids[k]).unwrap().cell, goal, next[k].1@)
    } by {
        if k < plans.len() {
            assert(next[k] == plans[k]);
        }
    }
}

proof fn lemma_plan_at(
    w: WorldView,
    owner: PlayerId,
    goal: GridPosition,
    ids: Seq<UnitId>,
    plans: Seq<(UnitId, VecDeque<GridPosition>)>,
    k: int,
)
    requires
        plans_ok(w, owner, goal, ids, plans),
        0 <= k < plans.len(),
    ensures
        plans[k].0 == ids[k],
        w.move_error(owner, goal, ids[k]) is None,
        is_shortest_path(w.map, w.unit(ids[k]).unwrap().cell, goal, plans[k].1@),
{
    reveal(plans_ok);
}

impl GameWorld {
    /// What each unit shows, in increasing id order.
    pub fn snapshot(&self) -> (units: Vec<UnitSnapshot>)
        requires
            self@.wf(),
        ensures
            units@ == self@.units.map_values(|u: UnitView| snapshot_of(u)),
            units@.len() == self@.units.len(),
            forall|i: int|
                #![trigger units@[i]]
                0 <= i < units@.len() ==> {
                    &&& units@[i].id == self@.units[i].id
                    &&& units@[i].owner == self@.units[i].owner
                    &&& units@[i].health == self@.units[i].health.current()
                    &&& units@[i].max_health == self@.units[i].health.maximum()
                },
            forall|i: int, j: int|
                0 <= i < j < units@.len() ==> #[trigger] units@[i].id.0 < #[trigger] units@[j].id.0,
    {
        let mut units: Vec<UnitSnapshot> = Vec::new();
        let mut i: usize = 0;
        while i < self.units.len()
            invariant
                self@.wf(),
                0 <= i <= self@.units.len(),
                units@ == self@.units.take(i as int).map_values(|u: UnitView| snapshot_of(u)),
            decreases self@.units.len() - i,
        {
            let unit = &self.units[i];
            units.push(
                UnitSnapshot {
                    id: unit.id,
                    owner: unit.owner,
                    health: unit.health.current(),
                    max_health: unit.health.maximum(),
                },
            );
            proof {
                assert(self@.units[i as int] == unit@);
                assert(self@.units.take(i + 1) =~= self@.units.take(i as int).push(unit@));
                assert(units@ =~= self@.units.take(i + 1).map_values(|u: UnitView| snapshot_of(u)));
            }
            i = i + 1;
        }
        proof {
            assert(self@.units.take(i as int) =~= self@.units);
        }
        units
    }

    /// The path unit `id` would take to `goal` on behalf of `player`, or why it cannot go.
    fn plan_move(&self, id: UnitId, player: PlayerId, goal: GridPosition) -> (plan: Result<
        VecDeque<GridPosition>,
        CommandError,
    >)
        requires
            self@.wf(),
        ensures
            match self@.move_error(player, goal, id) {
                Some(e) => plan == Err::<VecDeque<GridPosition>, CommandError>(e),
                None => plan matches Ok(p) && is_shortest_path(
                    self@.map,
                    self@.unit(id).unwrap().cell,
                    goal,
                    p@,
                ),
            },
    {
        let i = match self.find_index(id) {
            Some(i) => i,
            None => {
                return Err(CommandError::Move(MoveError::UnitNotFound(id)));
            },
        };
        if self.units[i].owner != player {
            return Err(CommandError::UnitNotOwned(id));
        }
        let start = self.units[i].cell;
        match find_path(&self.map, start, goal) {
            Some(path) => Ok(path),
            None => Err(CommandError::Move(MoveError::NoPath { start, goal })),
        }
    }

    /// Gives unit `id` the movement order `path` (none when empty) and drops its target.
    fn apply_movement(&mut self, id: UnitId, path: VecDeque<GridPosition>)
        requires
            old(self)@.wf(),
            old(self)@.has_unit(id),
        ensures
            final(self)@.wf(),
            final(self)@.map == old(self)@.map,
            final(self)@.next_unit_id == old(self)@.next_unit_id,
            final(self)@.units == old(self)@.units.update(
                old(self)@.unit_index(id),
                UnitView {
                    path: if path@.len() == 0 {
                        None
                    } else {
                        Some(path@)
                    },
                    attack_target: None,
                    ..old(self)@.units[old(self)@.unit_index(id)]
                },
            ),
    {
        let ghost w1 = self@;
        let i = self.find_index(id).unwrap();
        let movement = if path.len() == 0 {
            None
        } else {
            Some(Movement { path })
        };
        self.units[i].movement = movement;
        self.units[i].attack_target = None;
        proof {
            let w2 = self@;
            assert(w2.units =~= w1.units.update(
                i as int,
                UnitView {
                    path: if path@.len() == 0 {
                        None
                    } else {
                        Some(path@)
                    },
                    attack_target: None,
                    ..w1.units[i as int]
                },
            ));
            lemma_preserve_wf_same_roster(w1, w2);
        }
    }

    /// Sends every unit of `units` to `destination` along a shortest path, or, when some
    /// unit cannot go, reports the first such unit and changes nothing.
    fn handle_move_command(&mut self, owner: PlayerId, units: Vec<UnitId>, destination: GridPosition) -> (result: Result<(), CommandError>)
        requires
            old(self)@.wf(),
            units@.len() > 0,
        ensures
            final(self)@.wf(),
            match old(self)@.first_move_error(owner, destination, units@) {
                Some(e) => result == Err::<(), CommandError>(e) && final(self)@ == old(self)@,
                None => result is Ok && old(self)@.moved_to(final(self)@, destination, units@),
            },
    {
        let ghost w0 = self@;
        let ghost ids = units@;
        // Validate and plan every movement before changing any unit.
        let mut planned: Vec<(UnitId, VecDeque<GridPosition>)> = Vec::new();
        let mut i: usize = 0;
        proof {
            assert(ids.subrange(0, ids.len() as int) =~= ids);
            reveal(plans_ok);
        }
        while i < units.len()
            invariant
                self@ == w0,
                w0.wf(),
                ids == units@,
                0 <= i <= ids.len(),
                w0.first_move_error(owner, destination, ids) == w0.first_move_error(
                    owner,
                    destination,
                    ids.subrange(i as int, ids.len() as int),
                ),
                planned@.len() == i,
                plans_ok(w0, owner, destination, ids, planned@),
            decreases ids.len() - i,
        {
            let id = units[i];
            proof {
                let rest = ids.subrange(i as int, ids.len() as int);
                assert(rest[0] == id);
                assert(rest.drop_first() =~= ids.subrange(i + 1, ids.len() as int));
            }
            let path = match self.plan_move(id, owner, destination) {
                Ok(path) => path,
                Err(e) => {
                    return Err(e);
                },
            };
            proof {
                lemma_plans_push(w0, owner, destination, ids, planned@, path);
            }
            planned.push((id, path));
            i = i + 1;
        }
        proof {
            assert(ids.subrange(ids.len() as int, ids.len() as int) =~= Seq::<UnitId>::empty());
        }
        // Every movement is valid, so all of them are applied.
        let ghost all = planned@;
        let total = units.len();
        let mut k: usize = 0;
        while planned.len() > 0
            invariant
                w0.wf(),
                self@.wf(),
                ids == units@,
                ids.len() == all.len(),
                ids.len() == total,
                0 <= k <= all.len(),
                planned@ == all.subrange(k as int, all.len() as int),
                plans_ok(w0, owner, destination, ids, all),
                self@.map == w0.map,
                self@.next_unit_id == w0.next_unit_id,
                self@.units.len() == w0.units.len(),
                forall|j: int|
                    0 <= j < w0.units.len() ==> {
                        &&& (#[trigger] self@.units[j]).id == w0.units[j].id
                        &&& self@.units[j].owner == w0.units[j].owner
                        &&& self@.units[j].cell == w0.units[j].cell
                        &&& self@.units[j].health == w0.units[j].health
                        &&& self@.units[j].stats == w0.units[j].stats
                        &&& self@.units[j].cooldown == w0.units[j].cooldown
                    },
                forall|j: int|
                    0 <= j < w0.units.len() ==> if ids.take(k as int).contains(w0.units[j].id) {
                        w0.sent_to(destination, w0.units[j], #[trigger] self@.units[j])
                    } else {
                        self@.units[j] == w0.units[j]
                    },
            decreases planned@.len(),
        {
            let ghost w1 = self@;
            let (id, path) = planned.remove(0);
            proof {
                assert(all[k as int] == (id, path));
                lemma_plan_at(w0, owner, destination, ids, all, k as int);
                assert(planned@ =~= all.subrange(k + 1, all.len() as int));
                let j0 = w0.unit_index(id);
                lemma_same_roster(w0, w1, id);
                assert(w0.move_error(owner, destination, id) is None);
            }
            self.apply_movement(id, path);
            proof {
                let w2 = self@;
                let j0 = w0.unit_index(id);
                assert(w0.units[j0].id == id);
                assert(ids.take(k + 1) =~= ids.take(k as int).push(id));
                assert forall|j: int|
                    0 <= j < w0.units.len() implies if ids.take(k + 1).contains(w0.units[j].id) {
                        w0.sent_to(destination, w0.units[j], #[trigger] w2.units[j])
                    } else {
                        w2.units[j] == w0.units[j]
                    } by {
                    if j == j0 {
                        lemma_contains_push(ids.take(k as int), id, id);
                        let p = path@;
                        assert(is_shortest_path(w0.map, w0.units[j0].cell, destination, p));
                        assert(w2.units[j] == UnitView {
                            path: if p.len() == 0 {
                                None
                            } else {
                                Some(p)
                            },
                            attack_target: None,
                            ..w0.units[j]
                        });
                    } else {
                        assert(w0.units[j].id != id) by {
                            lemma_unit_at(w0, j);
                        }
                        lemma_contains_push(ids.take(k as int), id, w0.units[j].id);
                    }
                }
            }
            k = k + 1;
        }
        proof {
            assert(ids.take(k as int) =~= ids);
        }
        Ok(())
    }
}

impl GameWorld {
    /// Orders every unit of `attackers` to attack `target_id` and stops them, or, when the
    /// order is invalid, reports why and changes nothing.
    fn handle_attack_command(&mut self, player: PlayerId, attackers: Vec<UnitId>, target_id: UnitId) -> (result: Result<(), CommandError>)
        requires
            old(self)@.wf(),
        ensures
            final(self)@.wf(),
            match old(self)@.attack_error(player, attackers@, target_id) {
                Some(e) => result == Err::<(), CommandError>(e) && final(self)@ == old(self)@,
                None => result is Ok && final(self)@ == old(self)@.with_attack_orders(attackers@, target_id),
            },
    {
        let ghost w0 = self@;
        let ghost ids = attackers@;
        if attackers.len() == 0 {
            return Err(CommandError::EmptyUnitSelection);
        }
        let mut i: usize = 0;
        proof {
            assert(ids.subrange(0, ids.len() as int) =~= ids);
        }
        while i < attackers.len()
            invariant
                self@ == w0,
                w0.wf(),
                ids == attackers@,
                0 <= i <= ids.len(),
                w0.first_attacker_error(player, ids) == w0.first_attacker_error(
                    player,
                    ids.subrange(i as int, ids.len() as int),
                ),
                forall|k: int| 0 <= k < i ==> w0.attacker_error(player, #[trigger] ids[k]) is None,
            decreases ids.len() - i,
        {
            let attacker_id = attackers[i];
            proof {
                let rest = ids.subrange(i as int, ids.len() as int);
                assert(rest[0] == attacker_id);
                assert(rest.drop_first() =~= ids.subrange(i + 1, ids.len() as int));
            }
            let index = match self.find_index(attacker_id) {
                Some(index) => index,
                None => {
                    return Err(CommandError::Attack(AttackError::AttackerNotFound(attacker_id)));
                },
            };
            if self.units[index].owner != player {
                return Err(CommandError::UnitNotOwned(attacker_id));
            }
            if self.units[index].health.is_dead() {
                return Err(CommandError::Attack(AttackError::AttackerNotFound(attacker_id)));
            }
            i = i + 1;
        }
        proof {
            assert(ids.subrange(ids.len() as int, ids.len() as int) =~= Seq::<UnitId>::empty());
        }
        let target_index = match self.find_index(target_id) {
            Some(index) => index,
            None => {
                return Err(CommandError::Attack(AttackError::TargetNotFound(target_id)));
            },
        };
        if self.units[target_index].owner == player {
            return Err(CommandError::Attack(AttackError::FriendlyTarget(target_id)));
        }
        if self.units[target_index].health.is_dead() {
            return Err(CommandError::Attack(AttackError::TargetNotFound(target_id)));
        }
        let mut k: usize = 0;
        proof {
            assert(self@.units =~= Seq::new(
                w0.units.len(),
                |j: int|
                    if ids.take(0).contains(w0.units[j].id) {
                        UnitView { attack_target: Some(target_id), path: None, ..w0.units[j] }
                    } else {
                        w0.units[j]
                    },
            ));
        }
        while k < attackers.len()
            invariant
                w0.wf(),
                ids == attackers@,
                0 <= k <= ids.len(),
                forall|j: int| 0 <= j < ids.len() ==> w0.attacker_error(player, #[trigger] ids[j]) is None,
                w0.target_error(player, target_id) is None,
                self@ == (WorldView {
                    units: Seq::new(
                        w0.units.len(),
                        |j: int|
                            if ids.take(k as int).contains(w0.units[j].id) {
                                UnitView { attack_target: Some(target_id), path: None, ..w0.units[j] }
                            } else {
                                w0.units[j]
                            },
                    ),
                    ..w0
                }),
                self@.wf(),
            decreases ids.len() - k,
        {
            let ghost w1 = self@;
            let attacker_id = attackers[k];
            proof {
                assert(w0.attacker_error(player, ids[k as int]) is None);
                lemma_same_roster(w0, w1, attacker_id);
            }
            let index = self.find_index(attacker_id).unwrap();
            self.units[index].attack_target = Some(target_id);
            self.units[index].movement = None;
            proof {
                let w2 = self@;
                let j0 = index as int;
                assert(w2.units =~= w1.units.update(
                    j0,
                    UnitView { attack_target: Some(target_id), path: None, ..w1.units[j0] },
                ));
                assert(w0.units[j0].id == attacker_id);
                assert(ids.take(k + 1) =~= ids.take(k as int).push(attacker_id));
                let expected = WorldView {
                    units: Seq::new(
                        w0.units.len(),
                        |j: int|
                            if ids.take(k + 1).contains(w0.units[j].id) {
                                UnitView { attack_target: Some(target_id), path: None, ..w0.units[j] }
                            } else {
                                w0.units[j]
                            },
                    ),
                    ..w0
                };
                assert forall|j: int| 0 <= j < w0.units.len() implies #[trigger] w2.units[j] == expected.units[j] by {
                    if j == j0 {
                        lemma_contains_push(ids.take(k as int), attacker_id, attacker_id);
                    } else {
                        assert(w0.units[j].id != attacker_id) by {
                            lemma_unit_at(w0, j);
                        }
                        lemma_contains_push(ids.take(k as int), attacker_id, w0.units[j].id);
                    }
                }
                assert(w2.units =~= expected.units);
                assert(w2 == expected);
                // The new target exists, is alive, and belongs to another player.
                lemma_same_roster(w0, w2, target_id);
                assert(w0.unit(attacker_id).unwrap().owner == player);
                assert forall|j: int| 0 <= j < w2.units.len() implies w2.unit_ok(#[trigger] w2.units[j]) by {
                    if j == j0 {
                        assert(w2.units[j].owner == player);
                    } else {
                        assert(w1.unit_ok(w1.units[j]));
                        if let Some(t) = w2.units[j].attack_target {
                            lemma_same_roster(w1, w2, t);
                        }
                    }
                }
            }
            k = k + 1;
        }
        proof {
            assert(ids.take(k as int) =~= ids);
        }
        Ok(())
    }

    /// Carries out a client's command on behalf of `owner`: a move order sends every listed
    /// unit along a shortest path to the destination, an attack order sets every listed
    /// unit's target. An order that fails for any listed unit changes nothing.
    pub fn handle_command(&mut self, owner: PlayerId, command: ClientCommand) -> (result: Result<(), CommandError>)
        requires
            old(self)@.wf(),
        ensures
            final(self)@.wf(),
            match command {
                ClientCommand::MoveUnits { units, destination } => if units@.len() == 0 {
                    result == Err::<(), CommandError>(CommandError::EmptyUnitSelection)
                        && final(self)@ == old(self)@
                } else {
                    match old(self)@.first_move_error(owner, destination, units@) {
                        Some(e) => result == Err::<(), CommandError>(e) && final(self)@ == old(self)@,
                        None => result is Ok && old(self)@.moved_to(final(self)@, destination, units@),
                    }
                },
                ClientCommand::Attack { attackers, unit } => match old(self)@.attack_error(owner, attackers@, unit) {
                    Some(e) => result == Err::<(), CommandError>(e) && final(self)@ == old(self)@,
                    None => result is Ok && final(self)@ == old(self)@.with_attack_orders(attackers@, unit),
                },
            },
            result is Err ==> final(self)@ == old(self)@,
            command matches ClientCommand::MoveUnits { units, destination } ==> (result is Ok ==> ({
                &&& units@.len() > 0
                &&& forall|k: int|
                    #![trigger units@[k]]
                    0 <= k < units@.len() ==> {
                        &&& old(self)@.has_unit(units@[k])
                        &&& old(self)@.unit(units@[k]).unwrap().owner == owner
                        &&& path_exists(old(self)@.map, old(self)@.unit(units@[k]).unwrap().cell, destination)
                    }
                &&& final(self)@.map == old(self)@.map
                &&& final(self)@.next_unit_id == old(self)@.next_unit_id
                &&& final(self)@.units.len() == old(self)@.units.len()
                &&& forall|i: int|
                    #![trigger final(self)@.units[i]]
                    0 <= i < old(self)@.units.len() ==> if units@.contains(old(self)@.units[i].id) {
                        exists|p: Seq<GridPosition>|
                            #[trigger] is_shortest_path(old(self)@.map, old(self)@.units[i].cell, destination, p)
                                && final(self)@.units[i] == UnitView {
                                path: if p.len() == 0 {
                                    None
                                } else {
                                    Some(p)
                                },
                                attack_target: None,
                                ..old(self)@.units[i]
                            }
                    } else {
                        final(self)@.units[i] == old(self)@.units[i]
                    }
            })),
            command matches ClientCommand::Attack { attackers, unit } ==> (result is Ok ==> ({
                &&& attackers@.len() > 0
                &&& forall|k: int|
                    #![trigger attackers@[k]]
                    0 <= k < attackers@.len() ==> {
                        &&& old(self)@.has_unit(attackers@[k])
                        &&& old(self)@.unit(attackers@[k]).unwrap().owner == owner
                        &&& old(self)@.unit(attackers@[k]).unwrap().health.current() > 0
                    }
                &&& old(self)@.has_unit(unit)
                &&& old(self)@.unit(unit).unwrap().owner != owner
                &&& old(self)@.unit(unit).unwrap().health.current() > 0
                &&& final(self)@.map == old(self)@.map
                &&& final(self)@.next_unit_id == old(self)@.next_unit_id
                &&& final(self)@.units.len() == old(self)@.units.len()
                &&& forall|i: int|
                    #![trigger final(self)@.units[i]]
                    0 <= i < old(self)@.units.len() ==> final(self)@.units[i] == if attackers@.contains(
                        old(self)@.units[i].id,
                    ) {
                        UnitView { attack_target: Some(unit), path: None, ..old(self)@.units[i] }
                    } else {
                        old(self)@.units[i]
                    }
            })),
    {
        match command {
            ClientCommand::MoveUnits { units, destination } => {
                if units.len() == 0 {
                    return Err(CommandError::EmptyUnitSelection);
                }
                let ghost w0 = self@;
                let ghost ids = units@;
                let result = self.handle_move_command(owner, units, destination);
                proof {
                    if result is Ok {
                        lemma_no_move_error(w0, owner, destination, ids);
                        let w1 = self@;
                        assert forall|i: int| 0 <= i < w0.units.len() && ids.contains(w0.units[i].id) implies exists|p: Seq<GridPosition>|
                            #[trigger] is_shortest_path(w0.map, w0.units[i].cell, destination, p)
                                && w1.units[i] == UnitView {
                                path: if p.len() == 0 {
                                    None
                                } else {
                                    Some(p)
                                },
                                attack_target: None,
                                ..w0.units[i]
                            } by {
                            assert(w0.sent_to(destination, w0.units[i], w1.units[i]));
                        }
                    }
                }
                result
            },
            ClientCommand::Attack { attackers, unit } => {
                proof {
                    lemma_no_attacker_error(self@, owner, attackers@);
                }
                self.handle_attack_command(owner, attackers, unit)
            },
        }
    }
}

/// When no unit of `ids` fails, each of them can be sent to `goal`.
proof fn lemma_no_move_error(w: WorldView, owner: PlayerId, goal: GridPosition, ids: Seq<UnitId>)
    ensures
        w.first_move_error(owner, goal, ids) is None ==> forall|k: int|
            0 <= k < ids.len() ==> w.move_error(owner, goal, #[trigger] ids[k]) is None,
    decreases ids.len(),
{
    if ids.len() > 0 {
        lemma_no_move_error(w, owner, goal, ids.drop_first());
        if w.first_move_error(owner, goal, ids) is None {
            assert forall|k: int| 0 <= k < ids.len() implies w.move_error(owner, goal, #[trigger] ids[k]) is None by {
                if k > 0 {
                    assert(ids[k] == ids.drop_first()[k - 1]);
                }
            }
        }
    }
}

/// When no unit of `ids` fails as an attacker, each of them can attack.
proof fn lemma_no_attacker_error(w: WorldView, owner: PlayerId, ids: Seq<UnitId>)
    ensures
        w.first_attacker_error(owner, ids) is None ==> forall|k: int|
            0 <= k < ids.len() ==> w.attacker_error(owner, #[trigger] ids[k]) is None,
    decreases ids.len(),
{
    if ids.len() > 0 {
        lemma_no_attacker_error(w, owner, ids.drop_first());
        if w.first_attacker_error(owner, ids) is None {
            assert forall|k: int| 0 <= k < ids.len() implies w.attacker_error(owner, #[trigger] ids[k]) is None by {
                if k > 0 {
                    assert(ids[k] == ids.drop_first()[k - 1]);
                }
            }
        }
    }
}

/// Right after a spawn, looking up the new id gives the unit just placed, and every other
/// id is found as before.
pub proof fn lemma_spawned_unit_found(before: WorldView, after: WorldView, u: UnitView, other: UnitId)
    requires
        before.wf(),
        u.id.0 == before.next_unit_id,
        after.units == before.units.push(u),
    ensures
        after.unit(u.id) == Some(u),
        other != u.id ==> after.unit(other) == before.unit(other),
{
    assert forall|i: int, j: int| 0 <= i < j < after.units.len() implies #[trigger] after.units[i].id.0
        < #[trigger] after.units[j].id.0 by {
        if j == before.units.len() {
            assert(before.units[i].id.0 < before.next_unit_id);
        } else {
            assert(before.units[i].id.0 < before.units[j].id.0);
        }
    }
    lemma_unit_at(after, before.units.len() as int);
    if other != u.id {
        if before.has_unit(other) {
            lemma_unit_stable(before, after, other);
        }
        if after.has_unit(other) {
            let j = after.unit_index(other);
            assert(j < before.units.len());
            assert(before.units[j].id == other);
        }
    }
}

/// A unit whose cooldown outlasts the elapsed time does not strike.
pub proof fn lemma_cooldown_blocks_strike(w: WorldView, delta: u64, in_range: Seq<UnitId>, i: int)
    requires
        0 <= i < w.units.len(),
        w.units[i].cooldown > delta,
    ensures
        !w.cooled_down(delta).strikes(in_range, w.cooled_down(delta).units[i]),
{
}

/// A unit that strikes must then wait its whole attack interval before striking again.
pub proof fn lemma_strike_restarts_cooldown(w: WorldView, in_range: Seq<UnitId>, i: int)
    requires
        0 <= i < w.units.len(),
        w.strikes(in_range, w.units[i]),
    ensures
        w.after_strikes(in_range).units[i].cooldown == w.units[i].stats.base_attack_interval,
{
}

/// A unit loses exactly the damage it takes, stopping at zero, and so dies exactly when
/// that damage reaches its health.
pub proof fn lemma_damage_rule(w: WorldView, in_range: Seq<UnitId>, i: int)
    requires
        0 <= i < w.units.len(),
    ensures
        ({
            let before = w.units[i].health;
            let after = w.after_strikes(in_range).units[i].health;
            let taken = w.damage_taken(in_range, w.units[i].id);
            &&& taken >= 0
            &&& after.current() == (if before.current() >= taken {
                before.current() - taken
            } else {
                0
            })
            &&& (after.current() == 0 <==> before.current() <= taken)
            &&& after.maximum() == before.maximum()
        }),
{
    lemma_damage_dealt_nonneg(w, in_range, w.units[i].id, w.units.len());
    w.units[i].health.lemma_after_damage(w.damage_taken(in_range, w.units[i].id));
}

/// A unit that is alive, ready (no cooldown left) and listed as within range of its
/// target, where that target exists and is alive, strikes, whatever the two ids: its
/// cooldown restarts at its attack interval, and its target loses at least its attack
/// damage (stopping at zero), exactly that much when no other unit targets it.
pub proof fn lemma_ready_unit_strikes(w: WorldView, in_range: Seq<UnitId>, i: int, j: int)
    requires
        w.ids_increasing(),
        0 <= i < w.units.len(),
        0 <= j < w.units.len(),
        w.units[i].health.current() > 0,
        w.units[i].cooldown == 0,
        w.units[i].attack_target == Some(w.units[j].id),
        w.units[j].health.current() > 0,
        in_range.contains(w.units[i].id),
    ensures
        w.after_strikes(in_range).units.len() == w.units.len(),
        w.after_strikes(in_range).units[i].cooldown == w.units[i].stats.base_attack_interval,
        w.after_strikes(in_range).units[j].health.maximum() == w.units[j].health.maximum(),
        w.after_strikes(in_range).units[j].health.current() <= w.units[j].health.current().saturating_sub(
            w.units[i].stats.base_attack_damage,
        ),
        (forall|k: int|
            0 <= k < w.units.len() && k != i ==> (#[trigger] w.units[k]).attack_target != Some(
                w.units[j].id,
            )) ==> w.after_strikes(in_range).units[j].health.current()
            == w.units[j].health.current().saturating_sub(w.units[i].stats.base_attack_damage),
{
    let t = w.units[j].id;
    lemma_unit_at(w, j);
    assert(w.strikes(in_range, w.units[i]));
    lemma_damage_includes(w, in_range, t, i, w.units.len());
    w.units[j].health.lemma_after_damage(w.damage_taken(in_range, t));
}

/// The damage that the first `k` units deal to `target` includes that of a striking unit
/// `i` among them, and is exactly that when no other unit targets `target`.
proof fn lemma_damage_includes(w: WorldView, in_range: Seq<UnitId>, target: UnitId, i: int, k: nat)
    requires
        0 <= i < w.units.len(),
        k <= w.units.len(),
        w.strikes(in_range, w.units[i]),
        w.units[i].attack_target == Some(target),
    ensures
        w.damage_dealt(in_range, target, k) >= (if k > i {
            w.units[i].stats.base_attack_damage as int
        } else {
            0
        }),
        (forall|m: int|
            0 <= m < w.units.len() && m != i ==> (#[trigger] w.units[m]).attack_target != Some(target))
            ==> w.damage_dealt(in_range, target, k) == (if k > i {
            w.units[i].stats.base_attack_damage as int
        } else {
            0
        }),
    decreases k,
{
    if k > 0 {
        lemma_damage_includes(w, in_range, target, i, (k - 1) as nat);
    }
}

/// Strikes change nothing but health and the cooldown of the units that strike: a unit
/// that is dead, not ready, without a target or not listed as within range keeps its
/// cooldown.
pub proof fn lemma_strikes_change_little(w: WorldView, in_range: Seq<UnitId>, i: int)
    requires
        0 <= i < w.units.len(),
    ensures
        w.after_strikes(in_range).map == w.map,
        w.after_strikes(in_range).next_unit_id == w.next_unit_id,
        w.after_strikes(in_range).units.len() == w.units.len(),
        (UnitView {
            health: w.units[i].health,
            cooldown: w.units[i].cooldown,
            ..w.after_strikes(in_range).units[i]
        }) == w.units[i],
        (w.units[i].health.current() == 0 || w.units[i].cooldown > 0 || w.units[i].attack_target is None
            || !in_range.contains(w.units[i].id)) ==> w.after_strikes(in_range).units[i].cooldown
            == w.units[i].cooldown,
{
}

/// Strikes on one target add up: two different units that both strike it take away at
/// least the sum of their attack damages (stopping at zero).
pub proof fn lemma_strikes_add_up(w: WorldView, in_range: Seq<UnitId>, i1: int, i2: int, j: int)
    requires
        w.ids_increasing(),
        0 <= i1 < w.units.len(),
        0 <= i2 < w.units.len(),
        0 <= j < w.units.len(),
        i1 != i2,
        w.units[i1].health.current() > 0,
        w.units[i2].health.current() > 0,
        w.units[i1].cooldown == 0,
        w.units[i2].cooldown == 0,
        w.units[i1].attack_target == Some(w.units[j].id),
        w.units[i2].attack_target == Some(w.units[j].id),
        w.units[j].health.current() > 0,
        in_range.contains(w.units[i1].id),
        in_range.contains(w.units[i2].id),
    ensures
        w.after_strikes(in_range).units[j].health.current() == 0 || w.after_strikes(
            in_range,
        ).units[j].health.current() + w.units[i1].stats.base_attack_damage
            + w.units[i2].stats.base_attack_damage <= w.units[j].health.current(),
{
    let t = w.units[j].id;
    lemma_unit_at(w, j);
    assert(w.strikes(in_range, w.units[i1]));
    assert(w.strikes(in_range, w.units[i2]));
    lemma_damage_includes_two(w, in_range, t, i1, i2, w.units.len());
    w.units[j].health.lemma_after_damage(w.damage_taken(in_range, t));
}

proof fn lemma_damage_includes_two(w: WorldView, in_range: Seq<UnitId>, target: UnitId, i1: int, i2: int, k: nat)
    requires
        0 <= i1 < w.units.len(),
        0 <= i2 < w.units.len(),
        i1 != i2,
        k <= w.units.len(),
        w.strikes(in_range, w.units[i1]),
        w.strikes(in_range, w.units[i2]),
        w.units[i1].attack_target == Some(target),
        w.units[i2].attack_target == Some(target),
    ensures
        w.damage_dealt(in_range, target, k) >= (if k > i1 {
            w.units[i1].stats.base_attack_damage as int
        } else {
            0
        }) + (if k > i2 {
            w.units[i2].stats.base_attack_damage as int
        } else {
            0
        }),
    decreases k,
{
    if k > 0 {
        lemma_damage_includes_two(w, in_range, target, i1, i2, (k - 1) as nat);
    }
}

/// Time runs down every cooldown by the elapsed time, stopping at zero, and changes
/// nothing else.
pub proof fn lemma_cooldown_runs_down(w: WorldView, delta: u64, i: int)
    requires
        0 <= i < w.units.len(),
    ensures
        w.cooled_down(delta).map == w.map,
        w.cooled_down(delta).next_unit_id == w.next_unit_id,
        w.cooled_down(delta).units.len() == w.units.len(),
        w.cooled_down(delta).units[i].cooldown == (if w.units[i].cooldown > delta {
            w.units[i].cooldown - delta
        } else {
            0
        }),
        (UnitView { cooldown: w.units[i].cooldown, ..w.cooled_down(delta).units[i] }) == w.units[i],
{
}

/// In a well-formed world every unit is alive, never both moves and attacks, and only
/// ever targets an existing unit of another owner (hence never itself).
pub proof fn lemma_orders_consistent(w: WorldView, i: int)
    requires
        w.wf(),
        0 <= i < w.units.len(),
    ensures
        w.units[i].health.current() > 0,
        !(w.units[i].path is Some && w.units[i].attack_target is Some),
        w.units[i].attack_target matches Some(t) ==> {
            &&& w.has_unit(t)
            &&& w.unit(t).unwrap().owner != w.units[i].owner
            &&& t != w.units[i].id
        },
{
    assert(w.unit_ok(w.units[i]));
    if let Some(t) = w.units[i].attack_target {
        if t == w.units[i].id {
            lemma_unit_at(w, i);
        }
    }
}

/// Health never exceeds its maximum: full health starts there and damage only lowers it.
pub proof fn lemma_health_bounded(h: Health, amount: u32)
    requires
        h.current() <= h.maximum(),
    ensures
        h.current().saturating_sub(amount) <= h.maximum(),
        Health::new(h.maximum()).current() <= Health::new(h.maximum()).maximum(),
{
}

/// Whether `id` is listed in `ids`.
fn listed(ids: &Vec<UnitId>, id: UnitId) -> (found: bool)
    ensures
        found == ids@.contains(id),
{
    let mut i: usize = 0;
    while i < ids.len()
        invariant
            0 <= i <= ids@.len(),
            forall|k: int| 0 <= k < i ==> ids@[k] != id,
        decreases ids@.len() - i,
    {
        if ids[i] == id {
            proof {
                assert(ids@[i as int] == id);
            }
            return true;
        }
        i = i + 1;
    }
    false
}

proof fn lemma_filter_increasing(s: Seq<UnitView>, p: spec_fn(UnitView) -> bool)
    requires
        forall|i: int, j: int| 0 <= i < j < s.len() ==> #[trigger] s[i].id.0 < #[trigger] s[j].id.0,
    ensures
        forall|i: int, j: int|
            0 <= i < j < s.filter(p).len() ==> #[trigger] s.filter(p)[i].id.0 < #[trigger] s.filter(
                p,
            )[j].id.0,
    decreases s.len(),
{
    reveal(Seq::filter);
    if s.len() > 0 {
        let d = s.drop_last();
        lemma_filter_increasing(d, p);
        let f = d.filter(p);
        if p(s.last()) {
            assert(s.filter(p) == f.push(s.last()));
            assert forall|i: int, j: int|
                0 <= i < j < f.len() + 1 implies #[trigger] f.push(s.last())[i].id.0
                < #[trigger] f.push(s.last())[j].id.0 by {
                if j == f.len() {
                    assert(f.contains(f[i]));
                    d.lemma_filter_contains_rev(p, f[i]);
                    let k = choose|k: int| 0 <= k < d.len() && d[k] == f[i];
                    assert(s[k] == d[k]);
                }
            }
        } else {
            assert(s.filter(p) == f);
        }
    }
}

proof fn lemma_filter_congruent(s: Seq<UnitView>, p: spec_fn(UnitView) -> bool, q: spec_fn(UnitView) -> bool)
    requires
        forall|i: int| 0 <= i < s.len() ==> p(#[trigger] s[i]) == q(s[i]),
    ensures
        s.filter(p) == s.filter(q),
    decreases s.len(),
{
    reveal(Seq::filter);
    if s.len() > 0 {
        let d = s.drop_last();
        assert forall|i: int| 0 <= i < d.len() implies p(#[trigger] d[i]) == q(d[i]) by {
            assert(d[i] == s[i]);
        }
        lemma_filter_congruent(d, p, q);
        assert(p(s[s.len() - 1]) == q(s[s.len() - 1]));
    }
}

proof fn lemma_filter_all(s: Seq<UnitView>, p: spec_fn(UnitView) -> bool)
    requires
        forall|i: int| 0 <= i < s.len() ==> p(#[trigger] s[i]),
    ensures
        s.filter(p) == s,
    decreases s.len(),
{
    reveal(Seq::filter);
    if s.len() > 0 {
        let d = s.drop_last();
        assert forall|i: int| 0 <= i < d.len() implies p(#[trigger] d[i]) by {
            assert(d[i] == s[i]);
        }
        lemma_filter_all(d, p);
        assert(p(s[s.len() - 1]));
        assert(d.push(s.last()) =~= s);
    }
}

/// The dead units' ids are listed exactly when they name a unit without health left.
proof fn lemma_dead_ids(w: WorldView, t: UnitId)
    requires
        w.ids_increasing(),
    ensures
        w.units.filter(|u: UnitView| u.health.current() == 0).map_values(|u: UnitView| u.id).contains(t)
            <==> (w.has_unit(t) && w.unit(t).unwrap().health.current() == 0),
{
    let pred = |u: UnitView| u.health.current() == 0;
    let f = w.units.filter(pred);
    let ids = f.map_values(|u: UnitView| u.id);
    if ids.contains(t) {
        let k = choose|k: int| 0 <= k < ids.len() && ids[k] == t;
        w.units.lemma_filter_pred(pred, k);
        assert(f.contains(f[k]));
        w.units.lemma_filter_contains_rev(pred, f[k]);
        let j = choose|j: int| 0 <= j < w.units.len() && w.units[j] == f[k];
        lemma_unit_at(w, j);
    }
    if w.has_unit(t) && w.unit(t).unwrap().health.current() == 0 {
        let j = w.unit_index(t);
        w.units.lemma_filter_contains(pred, j);
        let k = choose|k: int| 0 <= k < f.len() && f[k] == w.units[j];
        assert(ids[k] == t);
    }
}

/// Dropping targets on dead units and removing dead units leaves a well-formed world.
proof fn lemma_buried_wf(w: WorldView)
    requires
        w.combat_ok(),
    ensures
        w.buried().wf(),
{
    let cleared = w.units.map_values(|u: UnitView| w.without_dead_target(u));
    let alive = |u: UnitView| u.health.current() > 0;
    let b = w.buried();
    assert(b.units == cleared.filter(alive));
    assert forall|i: int, j: int| 0 <= i < j < cleared.len() implies #[trigger] cleared[i].id.0
        < #[trigger] cleared[j].id.0 by {
        assert(w.units[i].id.0 < w.units[j].id.0);
    }
    lemma_filter_increasing(cleared, alive);
    // Every kept unit comes from the cleared sequence.
    assert forall|k: int| 0 <= k < b.units.len() implies {
        &&& cleared.contains(#[trigger] b.units[k])
        &&& alive(b.units[k])
    } by {
        assert(b.units.contains(b.units[k]));
        cleared.lemma_filter_contains_rev(alive, b.units[k]);
        cleared.lemma_filter_pred(alive, k);
    }
    assert forall|k: int| 0 <= k < b.units.len() implies 1 <= (#[trigger] b.units[k]).id.0
        < b.next_unit_id && b.unit_ok(b.units[k]) by {
        assert(cleared.contains(b.units[k]));
        let i = choose|i: int| 0 <= i < cleared.len() && cleared[i] == b.units[k];
        let u = w.units[i];
        assert(w.orders_ok(u));
        if let Some(t) = b.units[k].attack_target {
            assert(u.attack_target == Some(t));
            assert(w.has_unit(t));
            let jt = w.unit_index(t);
            lemma_unit_at(w, jt);
            assert(w.units[jt].health.current() > 0);
            cleared.lemma_filter_contains(alive, jt);
            let m = choose|m: int| 0 <= m < b.units.len() && b.units[m] == cleared[jt];
            assert(b.units[m].id == t);
            lemma_unit_at(b, m);
        }
    }
}

/// Burying removes exactly the units without health left: a unit stays if and only if it
/// has health left, and it stays as it was but for a target without health left, which
/// it drops.
pub proof fn lemma_buried_keeps_living(w: WorldView, id: UnitId)
    requires
        w.ids_increasing(),
    ensures
        w.buried().has_unit(id) <==> (w.has_unit(id) && w.unit(id).unwrap().health.current() > 0),
        w.buried().has_unit(id) ==> ({
            let u = w.unit(id).unwrap();
            w.buried().unit(id).unwrap() == UnitView {
                attack_target: match u.attack_target {
                    Some(t) => if w.has_unit(t) && w.unit(t).unwrap().health.current() == 0 {
                        None
                    } else {
                        Some(t)
                    },
                    None => None,
                },
                ..u
            }
        }),
{
    let cleared = w.units.map_values(|u: UnitView| w.without_dead_target(u));
    let alive = |u: UnitView| u.health.current() > 0;
    let b = w.buried();
    assert(b.units == cleared.filter(alive));
    assert forall|i: int, j: int| 0 <= i < j < cleared.len() implies #[trigger] cleared[i].id.0
        < #[trigger] cleared[j].id.0 by {
        assert(w.units[i].id.0 < w.units[j].id.0);
    }
    lemma_filter_increasing(cleared, alive);
    if b.has_unit(id) {
        let k = b.unit_index(id);
        lemma_unit_at(b, k);
        assert(b.units.contains(b.units[k]));
        cleared.lemma_filter_contains_rev(alive, b.units[k]);
        cleared.lemma_filter_pred(alive, k);
        let i = choose|i: int| 0 <= i < cleared.len() && cleared[i] == b.units[k];
        lemma_unit_at(w, i);
    }
    if w.has_unit(id) && w.unit(id).unwrap().health.current() > 0 {
        let j = w.unit_index(id);
        cleared.lemma_filter_contains(alive, j);
        let m = choose|m: int| 0 <= m < b.units.len() && b.units[m] == cleared[j];
        assert(b.units[m].id == id);
    }
}

/// A step reports the death of exactly the units without health left.
pub proof fn lemma_casualties_are_dead(w: WorldView, id: UnitId)
    requires
        w.ids_increasing(),
    ensures
        w.casualties().contains(GameEvent::UnitDied { unit: id }) <==> (w.has_unit(id) && w.unit(
            id,
        ).unwrap().health.current() == 0),
        forall|a: int, b: int|
            0 <= a < b < w.casualties().len() ==> (#[trigger] w.casualties()[a])->unit.0
                < (#[trigger] w.casualties()[b])->unit.0,
{
    lemma_filter_increasing(w.units, |u: UnitView| u.health.current() == 0);
    let f = w.units.filter(|u: UnitView| u.health.current() == 0);
    let ids = f.map_values(|u: UnitView| u.id);
    let events = w.casualties();
    lemma_dead_ids(w, id);
    if events.contains(GameEvent::UnitDied { unit: id }) {
        let k = choose|k: int| 0 <= k < events.len() && events[k] == GameEvent::UnitDied { unit: id };
        assert(ids[k] == id);
    }
    if ids.contains(id) {
        let k = choose|k: int| 0 <= k < ids.len() && ids[k] == id;
        assert(events[k] == GameEvent::UnitDied { unit: id });
    }
}

impl GameWorld {
    /// Ids of the units without health left, in increasing order.
    fn collect_dead_units(&self) -> (dead: Vec<UnitId>)
        requires
            self@.combat_ok(),
        ensures
            dead@ == self@.units.filter(|u: UnitView| u.health.current() == 0).map_values(
                |u: UnitView| u.id,
            ),
    {
        let ghost pred = |u: UnitView| u.health.current() == 0;
        let mut dead: Vec<UnitId> = Vec::new();
        let mut i: usize = 0;
        proof {
            reveal(Seq::filter);
            assert(self@.units.take(0).filter(pred) =~= Seq::<UnitView>::empty());
        }
        while i < self.units.len()
            invariant
                pred == (|u: UnitView| u.health.current() == 0),
                0 <= i <= self@.units.len(),
                dead@ == self@.units.take(i as int).filter(pred).map_values(|u: UnitView| u.id),
            decreases self@.units.len() - i,
        {
            let unit = &self.units[i];
            proof {
                assert(self@.units[i as int] == unit@);
                assert(self@.units.take(i + 1) =~= self@.units.take(i as int).push(unit@));
                self@.units.take(i as int).lemma_filter_push(unit@, pred);
            }
            if unit.health.is_dead() {
                dead.push(unit.id);
                proof {
                    assert(self@.units.take(i + 1).filter(pred) == self@.units.take(i as int).filter(pred).push(unit@));
                    assert(dead@ =~= self@.units.take(i + 1).filter(pred).map_values(|u: UnitView| u.id));
                }
            } else {
                proof {
                    assert(self@.units.take(i + 1).filter(pred) == self@.units.take(i as int).filter(pred));
                }
            }
            i = i + 1;
        }
        proof {
            assert(self@.units.take(i as int) =~= self@.units);
        }
        dead
    }

    /// Drops every attack target listed in `removed`.
    fn clear_targets_referencing(&mut self, removed: &Vec<UnitId>)
        requires
            old(self)@.combat_ok(),
            forall|t: UnitId|
                #[trigger] removed@.contains(t) <==> (old(self)@.has_unit(t) && old(self)@.unit(
                    t,
                ).unwrap().health.current() == 0),
        ensures
            final(self)@ == (WorldView {
                units: old(self)@.units.map_values(|u: UnitView| old(self)@.without_dead_target(u)),
                ..old(self)@
            }),
    {
        let ghost w0 = self@;
        let mut i: usize = 0;
        while i < self.units.len()
            invariant
                w0.combat_ok(),
                forall|t: UnitId|
                    #[trigger] removed@.contains(t) <==> (w0.has_unit(t) && w0.unit(t).unwrap().health.current() == 0),
                0 <= i <= w0.units.len(),
                self@.map == w0.map,
                self@.next_unit_id == w0.next_unit_id,
                self@.units.len() == w0.units.len(),
                forall|j: int|
                    0 <= j < w0.units.len() ==> #[trigger] self@.units[j] == if j < i {
                        w0.without_dead_target(w0.units[j])
                    } else {
                        w0.units[j]
                    },
            decreases w0.units.len() - i,
        {
            let ghost w1 = self@;
            if let Some(target) = self.units[i].attack_target {
                if listed(removed, target) {
                    self.units[i].attack_target = None;
                }
            }
            proof {
                assert(w1.units[i as int] == w0.units[i as int]);
                assert(self@.units =~= w1.units.update(i as int, w0.without_dead_target(w0.units[i as int])));
            }
            i = i + 1;
        }
        proof {
            assert(self@.units =~= w0.units.map_values(|u: UnitView| w0.without_dead_target(u)));
        }
    }

    /// Removes every unit whose id is listed in `removed`, keeping the others in order.
    fn remove_units(&mut self, removed: &Vec<UnitId>)
        ensures
            final(self)@ == (WorldView {
                units: old(self)@.units.filter(|u: UnitView| !removed@.contains(u.id)),
                ..old(self)@
            }),
    {
        let ghost w0 = self@;
        let ghost keep = |u: UnitView| !removed@.contains(u.id);
        let mut remaining: Vec<Unit> = Vec::new();
        std::mem::swap(&mut remaining, &mut self.units);
        let ghost all = remaining@;
        let ghost views = w0.units;
        let total = remaining.len();
        let mut k: usize = 0;
        proof {
            reveal(Seq::filter);
            assert(views.take(0).filter(keep) =~= Seq::<UnitView>::empty());
            assert(self.units@.map_values(|u: Unit| u@) =~= views.take(0).filter(keep));
            assert(views == all.map_values(|u: Unit| u@));
            assert(remaining@ =~= all.skip(0));
        }
        while remaining.len() > 0
            invariant
                views == all.map_values(|u: Unit| u@),
                keep == (|u: UnitView| !removed@.contains(u.id)),
                all.len() == total,
                0 <= k <= all.len(),
                remaining@ == all.skip(k as int),
                self.units@.map_values(|u: Unit| u@) == views.take(k as int).filter(keep),
                self.map@ == w0.map,
                self.next_unit_id == w0.next_unit_id,
            decreases remaining@.len(),
        {
            let unit = remaining.remove(0);
            proof {
                assert(unit == all[k as int]);
                assert(remaining@ =~= all.skip(k + 1));
                assert(views.take(k + 1) =~= views.take(k as int).push(unit@));
                views.take(k as int).lemma_filter_push(unit@, keep);
            }
            let ghost before = self.units@;
            proof {
                assert(views[k as int] == unit@);
            }
            if !listed(removed, unit.id) {
                self.units.push(unit);
                proof {
                    assert(keep(unit@));
                    assert(views.take(k + 1).filter(keep) == views.take(k as int).filter(keep).push(unit@));
                    assert(self.units@.map_values(|u: Unit| u@) =~= before.map_values(|u: Unit| u@).push(
                        all[k as int]@,
                    ));
                }
            } else {
                proof {
                    assert(!keep(unit@));
                    assert(views.take(k + 1).filter(keep) == views.take(k as int).filter(keep));
                }
            }
            k = k + 1;
        }
        proof {
            assert(views.take(k as int) =~= views);
        }
    }

    /// Reports every unit without health left, drops the targets on them and removes them.
    fn handle_dead_units(&mut self) -> (events: Vec<GameEvent>)
        requires
            old(self)@.combat_ok(),
        ensures
            final(self)@ == old(self)@.buried(),
            events@ == old(self)@.casualties(),
            final(self)@.wf(),
    {
        let ghost w0 = self@;
        let ghost dead_pred = |u: UnitView| u.health.current() == 0;
        let ghost alive = |u: UnitView| u.health.current() > 0;
        let dead_units = self.collect_dead_units();
        proof {
            assert forall|t: UnitId| #[trigger] dead_units@.contains(t) <==> (w0.has_unit(t) && w0.unit(t).unwrap().health.current() == 0) by {
                lemma_dead_ids(w0, t);
            }
            lemma_buried_wf(w0);
        }
        if dead_units.len() == 0 {
            proof {
                assert forall|i: int| 0 <= i < w0.units.len() implies alive(#[trigger] w0.units[i]) by {
                    lemma_unit_at(w0, i);
                    if w0.units[i].health.current() == 0 {
                        assert(dead_units@.contains(w0.units[i].id));
                    }
                }
                let cleared = w0.units.map_values(|u: UnitView| w0.without_dead_target(u));
                assert forall|i: int| 0 <= i < cleared.len() implies #[trigger] cleared[i] == w0.units[i] by {
                    if let Some(t) = w0.units[i].attack_target {
                        assert(w0.orders_ok(w0.units[i]));
                        let jt = w0.unit_index(t);
                        lemma_unit_at(w0, jt);
                    }
                }
                assert(cleared =~= w0.units);
                lemma_filter_all(w0.units, alive);
                assert(w0.units.filter(dead_pred).len() == 0);
                assert(self@ == w0.buried());
                assert(Seq::<GameEvent>::empty() =~= w0.casualties());
            }
            return Vec::new();
        }
        let mut events: Vec<GameEvent> = Vec::new();
        let mut i: usize = 0;
        while i < dead_units.len()
            invariant
                0 <= i <= dead_units@.len(),
                events@ == dead_units@.take(i as int).map_values(|id: UnitId| GameEvent::UnitDied { unit: id }),
            decreases dead_units@.len() - i,
        {
            events.push(GameEvent::UnitDied { unit: dead_units[i] });
            proof {
                assert(events@ =~= dead_units@.take(i + 1).map_values(|id: UnitId| GameEvent::UnitDied { unit: id }));
            }
            i = i + 1;
        }
        proof {
            assert(dead_units@.take(i as int) =~= dead_units@);
            assert(events@ =~= w0.casualties());
        }
        self.clear_targets_referencing(&dead_units);
        let ghost w1 = self@;
        self.remove_units(&dead_units);
        proof {
            let cleared = w0.units.map_values(|u: UnitView| w0.without_dead_target(u));
            let keep = |u: UnitView| !dead_units@.contains(u.id);
            assert(w1.units == cleared);
            assert forall|i: int| 0 <= i < cleared.len() implies keep(#[trigger] cleared[i]) == alive(cleared[i]) by {
                lemma_unit_at(w0, i);
            }
            lemma_filter_congruent(cleared, keep, alive);
        }
        events
    }
}

impl GameWorld {
    /// The waypoint unit `id` heads for, if it exists and is moving.
    pub fn next_waypoint(&self, id: UnitId) -> (waypoint: Option<GridPosition>)
        requires
            self@.wf(),
        ensures
            waypoint == match self@.unit(id) {
                Some(u) => match u.path {
                    Some(p) => Some(p[0]),
                    None => None,
                },
                None => None,
            },
    {
        match self.find_index(id) {
            Some(i) => {
                proof {
                    assert(self@.unit_ok(self@.units[i as int]));
                }
                match &self.units[i].movement {
                    Some(movement) => Some(movement.path[0]),
                    None => None,
                }
            },
            None => None,
        }
    }

    /// Records how far unit `id` got along its path during a step (see `progressed`).
    pub fn record_progress(&mut self, id: UnitId, cell: GridPosition, reached_waypoint: bool)
        requires
            old(self)@.wf(),
        ensures
            final(self)@.wf(),
            final(self)@ == old(self)@.progressed(id, cell, reached_waypoint),
            final(self)@.map == old(self)@.map,
            final(self)@.next_unit_id == old(self)@.next_unit_id,
            final(self)@.units.len() == old(self)@.units.len(),
            forall|i: int|
                #![trigger final(self)@.units[i]]
                0 <= i < old(self)@.units.len() ==> final(self)@.units[i] == if old(self)@.units[i].id
                    != id {
                    old(self)@.units[i]
                } else {
                    match old(self)@.units[i].path {
                        None => old(self)@.units[i],
                        Some(p) => if reached_waypoint {
                            UnitView {
                                cell: p[0],
                                path: if p.len() == 1 {
                                    None
                                } else {
                                    Some(p.drop_first())
                                },
                                ..old(self)@.units[i]
                            }
                        } else {
                            UnitView { cell, ..old(self)@.units[i] }
                        },
                    }
                },
    {
        let ghost w0 = self@;
        proof {
            lemma_progressed_units(w0, id, cell, reached_waypoint);
        }
        let i = match self.find_index(id) {
            Some(i) => i,
            None => {
                return ;
            },
        };
        proof {
            assert(w0.unit_ok(w0.units[i as int]));
        }
        let movement = self.units[i].movement.take();
        match movement {
            None => {
                proof {
                    assert(self@.units =~= w0.units);
                }
            },
            Some(mut movement) => {
                let ghost p = movement.path@;
                if reached_waypoint {
                    let waypoint = movement.path.pop_front();
                    if let Some(waypoint) = waypoint {
                        self.units[i].cell = waypoint;
                    }
                    if movement.path.len() == 0 {
                        self.units[i].movement = None;
                    } else {
                        self.units[i].movement = Some(movement);
                    }
                    proof {
                        assert(p.drop_first() =~= p.subrange(1, p.len() as int));
                    }
                } else {
                    self.units[i].cell = cell;
                    self.units[i].movement = Some(movement);
                }
                proof {
                    let expected = w0.progressed(id, cell, reached_waypoint);
                    assert(self@.units =~= expected.units);
                    lemma_preserve_wf_same_roster(w0, self@);
                }
            },
        }
    }
}

/// Unit by unit, what `progressed` does: only the unit with the given id changes, and only
/// when it is moving.
proof fn lemma_progressed_units(w: WorldView, id: UnitId, cell: GridPosition, reached_waypoint: bool)
    requires
        w.ids_increasing(),
    ensures
        w.progressed(id, cell, reached_waypoint).map == w.map,
        w.progressed(id, cell, reached_waypoint).next_unit_id == w.next_unit_id,
        w.progressed(id, cell, reached_waypoint).units.len() == w.units.len(),
        forall|i: int|
            #![trigger w.progressed(id, cell, reached_waypoint).units[i]]
            0 <= i < w.units.len() ==> w.progressed(id, cell, reached_waypoint).units[i] == if w.units[i].id
                != id {
                w.units[i]
            } else {
                match w.units[i].path {
                    None => w.units[i],
                    Some(p) => if reached_waypoint {
                        UnitView {
                            cell: p[0],
                            path: if p.len() == 1 {
                                None
                            } else {
                                Some(p.drop_first())
                            },
                            ..w.units[i]
                        }
                    } else {
                        UnitView { cell, ..w.units[i] }
                    },
                }
            },
{
    let after = w.progressed(id, cell, reached_waypoint);
    assert forall|i: int| 0 <= i < w.units.len() implies #[trigger] after.units[i] == if w.units[i].id != id {
        w.units[i]
    } else {
        match w.units[i].path {
            None => w.units[i],
            Some(p) => if reached_waypoint {
                UnitView {
                    cell: p[0],
                    path: if p.len() == 1 {
                        None
                    } else {
                        Some(p.drop_first())
                    },
                    ..w.units[i]
                }
            } else {
                UnitView { cell, ..w.units[i] }
            },
        }
    } by {
        lemma_unit_at(w, i);
        if w.has_unit(id) {
            let k = w.unit_index(id);
            lemma_unit_at(w, k);
        }
    }
}

/// Damage that the listed strikes (attacker index, target index) deal to the unit at index `j`.
spec fn listed_damage(w: WorldView, attacks: Seq<(usize, usize)>, j: int) -> int
    decreases attacks.len(),
{
    if attacks.len() == 0 {
        0
    } else {
        listed_damage(w, attacks.drop_last(), j) + if attacks.last().1 == j {
            w.units[attacks.last().0 as int].stats.base_attack_damage as int
        } else {
            0
        }
    }
}

proof fn lemma_listed_damage_nonneg(w: WorldView, attacks: Seq<(usize, usize)>, j: int)
    ensures
        listed_damage(w, attacks, j) >= 0,
    decreases attacks.len(),
{
    if attacks.len() > 0 {
        lemma_listed_damage_nonneg(w, attacks.drop_last(), j);
    }
}

proof fn lemma_damage_dealt_nonneg(w: WorldView, in_range: Seq<UnitId>, target: UnitId, k: nat)
    ensures
        w.damage_dealt(in_range, target, k) >= 0,
    decreases k,
{
    if k > 0 && k <= w.units.len() {
        lemma_damage_dealt_nonneg(w, in_range, target, (k - 1) as nat);
    }
}

/// Losing `a` and then `b` hit points is losing `a + b`.
proof fn lemma_damage_adds(h: Health, a: int, b: u32)
    requires
        a >= 0,
    ensures
        h.spec_after_damage(a).current().saturating_sub(b) == h.spec_after_damage(a + b).current(),
        h.spec_after_damage(a + b).maximum() == h.maximum(),
{
}

/// Each listed pair names a striking attacker among the first `i` units and the index of
/// its target.
#[verifier::opaque]
spec fn pairs_ok(w: WorldView, in_range: Seq<UnitId>, attacks: Seq<(usize, usize)>, i: int) -> bool {
    forall|m: int|
        0 <= m < attacks.len() ==> {
            &&& (#[trigger] attacks[m]).0 < i
            &&& attacks[m].1 < w.units.len()
            &&& w.strikes(in_range, w.units[attacks[m].0 as int])
            &&& w.units[attacks[m].0 as int].attack_target == Some(w.units[attacks[m].1 as int].id)
        }
}

/// Exactly the striking units among the first `i` are listed.
#[verifier::opaque]
spec fn strikers_listed(w: WorldView, in_range: Seq<UnitId>, attacks: Seq<(usize, usize)>, i: int) -> bool {
    forall|j: int|
        0 <= j < i ==> (w.strikes(in_range, #[trigger] w.units[j]) <==> exists|m: int|
            0 <= m < attacks.len() && attacks[m].0 == j)
}

/// The listed damage to every unit matches what the first `i` units deal to it.
#[verifier::opaque]
spec fn damage_listed(w: WorldView, in_range: Seq<UnitId>, attacks: Seq<(usize, usize)>, i: int) -> bool {
    forall|j: int|
        0 <= j < w.units.len() ==> listed_damage(w, attacks, j) == w.damage_dealt(
            in_range,
            (#[trigger] w.units[j]).id,
            i as nat,
        )
}

/// The strikes decided among the first `i` units.
spec fn decided_among(w: WorldView, in_range: Seq<UnitId>, attacks: Seq<(usize, usize)>, i: int) -> bool {
    &&& pairs_ok(w, in_range, attacks, i)
    &&& strikers_listed(w, in_range, attacks, i)
    &&& damage_listed(w, in_range, attacks, i)
}

proof fn lemma_decided_start(w: WorldView, in_range: Seq<UnitId>)
    ensures
        decided_among(w, in_range, Seq::empty(), 0),
{
    reveal(pairs_ok);
    reveal(strikers_listed);
    reveal(damage_listed);
}

/// Listing a strike of unit `i` on the unit at `index` adds its damage to that unit only,
/// as does counting unit `i` among the units that deal damage.
proof fn lemma_damage_step_listed(
    w: WorldView,
    in_range: Seq<UnitId>,
    attacks: Seq<(usize, usize)>,
    i: usize,
    index: usize,
    j: int,
)
    requires
        w.ids_increasing(),
        i < w.units.len(),
        0 <= j < w.units.len(),
        index < w.units.len(),
        w.strikes(in_range, w.units[i as int]),
        w.units[i as int].attack_target == Some(w.units[index as int].id),
        listed_damage(w, attacks, j) == w.damage_dealt(in_range, w.units[j].id, i as nat),
    ensures
        listed_damage(w, attacks.push((i, index)), j) == w.damage_dealt(
            in_range,
            w.units[j].id,
            (i + 1) as nat,
        ),
{
    let next = attacks.push((i, index));
    assert(next.drop_last() =~= attacks);
    if j != index {
        lemma_unit_at(w, j);
        lemma_unit_at(w, index as int);
        assert(w.units[j].id != w.units[index as int].id);
    }
}

proof fn lemma_damage_listed_step(
    w: WorldView,
    in_range: Seq<UnitId>,
    attacks: Seq<(usize, usize)>,
    i: usize,
    target_index: Option<usize>,
)
    requires
        w.ids_increasing(),
        i < w.units.len(),
        damage_listed(w, in_range, attacks, i as int),
        w.strikes(in_range, w.units[i as int]) <==> target_index is Some,
        target_index matches Some(index) ==> index < w.units.len() && w.units[i as int].attack_target
            == Some(w.units[index as int].id),
    ensures
        damage_listed(
            w,
            in_range,
            match target_index {
                Some(index) => attacks.push((i, index)),
                None => attacks,
            },
            i + 1,
        ),
{
    reveal(damage_listed);
    match target_index {
        Some(index) => {
            assert forall|j: int| 0 <= j < w.units.len() implies listed_damage(w, attacks.push((i, index)), j)
                == w.damage_dealt(in_range, (#[trigger] w.units[j]).id, (i + 1) as nat) by {
                lemma_damage_step_listed(w, in_range, attacks, i, index, j);
            }
        },
        None => {
            assert forall|j: int| 0 <= j < w.units.len() implies listed_damage(w, attacks, j)
                == w.damage_dealt(in_range, (#[trigger] w.units[j]).id, (i + 1) as nat) by {
                assert(listed_damage(w, attacks, j) == w.damage_dealt(in_range, w.units[j].id, i as nat));
            }
        },
    }
}

proof fn lemma_strikers_listed_step(
    w: WorldView,
    in_range: Seq<UnitId>,
    attacks: Seq<(usize, usize)>,
    i: usize,
    target_index: Option<usize>,
)
    requires
        i < w.units.len(),
        pairs_ok(w, in_range, attacks, i as int),
        strikers_listed(w, in_range, attacks, i as int),
        w.strikes(in_range, w.units[i as int]) <==> target_index is Some,
    ensures
        strikers_listed(
            w,
            in_range,
            match target_index {
                Some(index) => attacks.push((i, index)),
                None => attacks,
            },
            i + 1,
        ),
{
    reveal(strikers_listed);
    reveal(pairs_ok);
    match target_index {
        Some(index) => {
            let next = attacks.push((i, index));
            assert forall|j: int|
                0 <= j < i + 1 implies (w.strikes(in_range, #[trigger] w.units[j]) <==> exists|m: int|
                    0 <= m < next.len() && next[m].0 == j) by {
                if j < i {
                    if exists|m: int| 0 <= m < attacks.len() && attacks[m].0 == j {
                        let m = choose|m: int| 0 <= m < attacks.len() && attacks[m].0 == j;
                        assert(next[m] == attacks[m]);
                    }
                    if exists|m: int| 0 <= m < next.len() && next[m].0 == j {
                        let m = choose|m: int| 0 <= m < next.len() && next[m].0 == j;
                        assert(m < attacks.len());
                        assert(attacks[m] == next[m]);
                    }
                } else {
                    assert(next[attacks.len() as int].0 == j);
                }
            }
        },
        None => {
            assert forall|j: int|
                0 <= j < i + 1 implies (w.strikes(in_range, #[trigger] w.units[j]) <==> exists|m: int|
                    0 <= m < attacks.len() && attacks[m].0 == j) by {
                if j == i {
                    if exists|m: int| 0 <= m < attacks.len() && attacks[m].0 == j {
                        let m = choose|m: int| 0 <= m < attacks.len() && attacks[m].0 == j;
                        assert(attacks[m].0 < i);
                    }
                }
            }
        },
    }
}

proof fn lemma_pairs_ok_step(
    w: WorldView,
    in_range: Seq<UnitId>,
    attacks: Seq<(usize, usize)>,
    i: usize,
    target_index: Option<usize>,
)
    requires
        i < w.units.len(),
        pairs_ok(w, in_range, attacks, i as int),
        w.strikes(in_range, w.units[i as int]) <==> target_index is Some,
        target_index matches Some(index) ==> index < w.units.len() && w.units[i as int].attack_target
            == Some(w.units[index as int].id),
    ensures
        pairs_ok(
            w,
            in_range,
            match target_index {
                Some(index) => attacks.push((i, index)),
                None => attacks,
            },
            i + 1,
        ),
{
    reveal(pairs_ok);
    if let Some(index) = target_index {
        let next = attacks.push((i, index));
        assert forall|m: int| 0 <= m < next.len() implies {
            &&& (#[trigger] next[m]).0 < i + 1
            &&& next[m].1 < w.units.len()
            &&& w.strikes(in_range, w.units[next[m].0 as int])
            &&& w.units[next[m].0 as int].attack_target == Some(w.units[next[m].1 as int].id)
        } by {
            if m < attacks.len() {
                assert(next[m] == attacks[m]);
            }
        }
    }
}

proof fn lemma_decided_all(w: WorldView, in_range: Seq<UnitId>, attacks: Seq<(usize, usize)>)
    requires
        decided_among(w, in_range, attacks, w.units.len() as int),
    ensures
        forall|m: int|
            0 <= m < attacks.len() ==> {
                &&& (#[trigger] attacks[m]).0 < w.units.len()
                &&& attacks[m].1 < w.units.len()
            },
        forall|j: int|
            0 <= j < w.units.len() ==> (w.strikes(in_range, #[trigger] w.units[j]) <==> exists|m: int|
                0 <= m < attacks.len() && attacks[m].0 == j),
        forall|j: int|
            0 <= j < w.units.len() ==> listed_damage(w, attacks, j) == w.damage_taken(
                in_range,
                (#[trigger] w.units[j]).id,
            ),
{
    reveal(pairs_ok);
    reveal(strikers_listed);
    reveal(damage_listed);
}

impl GameWorld {
    /// The strikes due now, as (attacker index, target index) pairs in attacker order.
    fn decide_attacks(&self, in_range: &Vec<UnitId>) -> (attacks: Vec<(usize, usize)>)
        requires
            self@.wf(),
        ensures
            forall|m: int|
                0 <= m < attacks@.len() ==> {
                    &&& (#[trigger] attacks@[m]).0 < self@.units.len()
                    &&& attacks@[m].1 < self@.units.len()
                },
            forall|j: int|
                0 <= j < self@.units.len() ==> (self@.strikes(in_range@, #[trigger] self@.units[j])
                    <==> exists|m: int| 0 <= m < attacks@.len() && attacks@[m].0 == j),
            forall|j: int|
                0 <= j < self@.units.len() ==> listed_damage(self@, attacks@, j)
                    == self@.damage_taken(in_range@, (#[trigger] self@.units[j]).id),
    {
        let ghost w0 = self@;
        let mut attacks: Vec<(usize, usize)> = Vec::new();
        let mut i: usize = 0;
        proof {
            lemma_decided_start(w0, in_range@);
        }
        while i < self.units.len()
            invariant
                self@ == w0,
                w0.wf(),
                0 <= i <= w0.units.len(),
                decided_among(w0, in_range@, attacks@, i as int),
            decreases w0.units.len() - i,
        {
            let unit = &self.units[i];
            let mut target_index: Option<usize> = None;
            if !unit.health.is_dead() && unit.attack_cooldown == 0 {
                if let Some(target) = unit.attack_target {
                    if let Some(index) = self.find_index(target) {
                        if !self.units[index].health.is_dead() && listed(in_range, unit.id) {
                            target_index = Some(index);
                        }
                    }
                }
            }
            proof {
                assert(w0.units[i as int] == unit@);
                lemma_pairs_ok_step(w0, in_range@, attacks@, i, target_index);
                lemma_strikers_listed_step(w0, in_range@, attacks@, i, target_index);
                lemma_damage_listed_step(w0, in_range@, attacks@, i, target_index);
            }
            if let Some(index) = target_index {
                attacks.push((i, index));
            }
            i = i + 1;
        }
        proof {
            lemma_decided_all(w0, in_range@, attacks@);
        }
        attacks
    }

    /// Every unit that strikes now hits its target and starts its cooldown; the decisions
    /// are all taken before any damage is dealt.
    fn resolve_attacks(&mut self, in_range: &Vec<UnitId>)
        requires
            old(self)@.wf(),
        ensures
            final(self)@ == old(self)@.after_strikes(in_range@),
            final(self)@.combat_ok(),
    {
        let ghost w0 = self@;
        let ghost n = w0.units.len();
        let attacks = self.decide_attacks(in_range);
        // Apply the decided strikes.
        let ghost decided = attacks@;
        let mut k: usize = 0;
        while k < attacks.len()
            invariant
                w0.wf(),
                n == w0.units.len(),
                decided == attacks@,
                0 <= k <= decided.len(),
                forall|m: int|
                    0 <= m < decided.len() ==> {
                        &&& (#[trigger] decided[m]).0 < n
                        &&& decided[m].1 < n
                    },
                self@.map == w0.map,
                self@.next_unit_id == w0.next_unit_id,
                self@.units.len() == n,
                forall|j: int|
                    0 <= j < n ==> #[trigger] self@.units[j] == (UnitView {
                        cooldown: if exists|m: int| 0 <= m < k && decided[m].0 == j {
                            w0.units[j].stats.base_attack_interval
                        } else {
                            w0.units[j].cooldown
                        },
                        health: w0.units[j].health.spec_after_damage(
                            listed_damage(w0, decided.take(k as int), j),
                        ),
                        ..w0.units[j]
                    }),
            decreases decided.len() - k,
        {
            let ghost w1 = self@;
            let (attacker, target) = attacks[k];
            let interval = self.units[attacker].attack_interval();
            self.units[attacker].attack_cooldown = interval;
            let damage = self.units[attacker].attack_damage();
            let mut health = self.units[target].health;
            health.apply_damage(damage);
            self.units[target].health = health;
            proof {
                let prefix = decided.take(k as int);
                let next_prefix = decided.take(k + 1);
                assert(next_prefix.drop_last() =~= prefix);
                assert(next_prefix.last() == (attacker, target));
                assert(self@.units =~= w1.units.update(
                    attacker as int,
                    UnitView { cooldown: interval, ..w1.units[attacker as int] },
                ).update(
                    target as int,
                    UnitView {
                        health: health,
                        ..w1.units.update(
                            attacker as int,
                            UnitView { cooldown: interval, ..w1.units[attacker as int] },
                        )[target as int]
                    },
                ));
                assert forall|j: int| 0 <= j < n implies #[trigger] self@.units[j] == (UnitView {
                    cooldown: if exists|m: int| 0 <= m < k + 1 && decided[m].0 == j {
                        w0.units[j].stats.base_attack_interval
                    } else {
                        w0.units[j].cooldown
                    },
                    health: w0.units[j].health.spec_after_damage(listed_damage(w0, next_prefix, j)),
                    ..w0.units[j]
                }) by {
                    lemma_listed_damage_nonneg(w0, prefix, j);
                    lemma_damage_adds(w0.units[j].health, listed_damage(w0, prefix, j), damage);
                    if j == attacker {
                        assert(decided[k as int].0 == j);
                    } else {
                        if exists|m: int| 0 <= m < k + 1 && decided[m].0 == j {
                            let m = choose|m: int| 0 <= m < k + 1 && decided[m].0 == j;
                            assert(m < k);
                        }
                    }
                }
            }
            k = k + 1;
        }
        proof {
            assert(decided.take(k as int) =~= decided);
            let w2 = self@;
            let expected = w0.after_strikes(in_range@);
            assert forall|j: int| 0 <= j < n implies #[trigger] w2.units[j] == expected.units[j] by {
                assert(w0.strikes(in_range@, w0.units[j]) <==> exists|m: int|
                    0 <= m < decided.len() && decided[m].0 == j);
                assert(listed_damage(w0, decided, j) == w0.damage_taken(in_range@, w0.units[j].id));
            }
            assert(w2.units =~= expected.units);
            assert forall|j: int| 0 <= j < n implies w2.orders_ok(#[trigger] w2.units[j]) by {
                assert(w0.unit_ok(w0.units[j]));
                lemma_listed_damage_nonneg(w0, decided, j);
                w0.units[j].health.lemma_after_damage(listed_damage(w0, decided, j));
                if let Some(t) = w2.units[j].attack_target {
                    lemma_same_roster(w0, w2, t);
                }
            }
            lemma_same_roster(w0, w2, UnitId(0));
        }
    }

    /// Advances the simulation by `delta` nanoseconds once positions have been updated:
    /// cooldowns run down, every unit whose target lies within range (`in_range` lists
    /// them) and is ready strikes, then dead units are reported, their attackers lose
    /// them as targets, and they are removed.
    pub fn tick(&mut self, delta: u64, in_range: &Vec<UnitId>) -> (events: Vec<GameEvent>)
        requires
            old(self)@.wf(),
        ensures
            final(self)@.wf(),
            final(self)@ == old(self)@.cooled_down(delta).after_strikes(in_range@).buried(),
            events@ == old(self)@.cooled_down(delta).after_strikes(in_range@).casualties(),
    {
        let ghost w0 = self@;
        let mut i: usize = 0;
        while i < self.units.len()
            invariant
                w0.wf(),
                0 <= i <= w0.units.len(),
                self@.map == w0.map,
                self@.next_unit_id == w0.next_unit_id,
                self@.units.len() == w0.units.len(),
                forall|j: int|
                    0 <= j < w0.units.len() ==> #[trigger] self@.units[j] == if j < i {
                        UnitView { cooldown: w0.units[j].cooldown.saturating_sub(delta), ..w0.units[j] }
                    } else {
                        w0.units[j]
                    },
            decreases w0.units.len() - i,
        {
            let ghost w1 = self@;
            let cooldown = self.units[i].attack_cooldown.saturating_sub(delta);
            self.units[i].attack_cooldown = cooldown;
            proof {
                assert(self@.units =~= w1.units.update(i as int, UnitView { cooldown, ..w1.units[i as int] }));
            }
            i = i + 1;
        }
        proof {
            assert(self@.units =~= w0.cooled_down(delta).units);
            lemma_preserve_wf_same_roster(w0, self@);
        }
        self.resolve_attacks(in_range);
        self.handle_dead_units()
    }
}

/// A world whose units keep their ids and owners, whose units stay alive within their
/// maximum, and whose orders stay consistent, stays well formed.
pub proof fn lemma_preserve_wf_same_roster(w1: WorldView, w2: WorldView)
    requires
        w1.wf(),
        w2.map == w1.map,
        w2.next_unit_id == w1.next_unit_id,
        w1.units.len() == w2.units.len(),
        forall|i: int|
            0 <= i < w1.units.len() ==> {
                &&& (#[trigger] w2.units[i]).id == w1.units[i].id
                &&& w2.units[i].owner == w1.units[i].owner
                &&& w2.units[i].health == w1.units[i].health
                &&& (w2.units[i].path matches Some(p) ==> p.len() > 0)
                &&& !(w2.units[i].path is Some && w2.units[i].attack_target is Some)
                &&& (w2.units[i].attack_target is None || w2.units[i].attack_target
                    == w1.units[i].attack_target)
            },
    ensures
        w2.wf(),
{
    assert forall|i: int| 0 <= i < w2.units.len() implies w2.unit_ok(#[trigger] w2.units[i]) by {
        assert(w1.unit_ok(w1.units[i]));
        if let Some(t) = w2.units[i].attack_target {
            lemma_same_roster(w1, w2, t);
        }
    }
    lemma_same_roster(w1, w2, UnitId(0));
}

proof fn lemma_contains_push<A>(s: Seq<A>, e: A, x: A)
    ensures
        s.push(e).contains(x) == (s.contains(x) || x == e),
{
    if s.push(e).contains(x) {
        let i = choose|i: int| 0 <= i < s.push(e).len() && s.push(e)[i] == x;
        if i < s.len() {
            assert(s[i] == x);
        }
    }
    if s.contains(x) {
        let i = choose|i: int| 0 <= i < s.len() && s[i] == x;
        assert(s.push(e)[i] == x);
    }
    if x == e {
        assert(s.push(e)[s.len() as int] == x);
    }
}

/// Two worlds listing the same ids with the same owners in the same order find the same
/// ids, at the same indices, with the same owners.
pub proof fn lemma_same_roster(w1: WorldView, w2: WorldView, id: UnitId)
    requires
        w1.ids_increasing(),
        w1.units.len() == w2.units.len(),
        forall|i: int|
            0 <= i < w1.units.len() ==> (#[trigger] w2.units[i]).id == w1.units[i].id
                && w2.units[i].owner == w1.units[i].owner,
    ensures
        w2.ids_increasing(),
        w2.has_unit(id) == w1.has_unit(id),
        w1.has_unit(id) ==> w2.unit_index(id) == w1.unit_index(id) && w2.unit(id).unwrap().owner
            == w1.unit(id).unwrap().owner,
{
    assert forall|i: int, j: int| 0 <= i < j < w2.units.len() implies #[trigger] w2.units[i].id.0
        < #[trigger] w2.units[j].id.0 by {
        assert(w1.units[i].id.0 < w1.units[j].id.0);
    }
    if w1.has_unit(id) {
        let j = w1.unit_index(id);
        lemma_unit_at(w1, j);
        lemma_unit_at(w2, j);
    }
    if w2.has_unit(id) {
        let j = w2.unit_index(id);
        assert(w1.units[j].id == id);
    }
}

/// Looking up an id that exists in `w1` gives the same unit in a world whose units begin
/// with those of `w1` and whose ids increase.
pub proof fn lemma_unit_stable(w1: WorldView, w2: WorldView, id: UnitId)
    requires
        w1.has_unit(id),
        w2.ids_increasing(),
        w1.units.len() <= w2.units.len(),
        forall|i: int| 0 <= i < w1.units.len() ==> w2.units[i] == w1.units[i],
    ensures
        w2.has_unit(id),
        w2.unit(id) == w1.unit(id),
{
    let j = w1.unit_index(id);
    assert(w1.units[j].id == id);
    lemma_unit_at(w2, j);
}

} // verus!
