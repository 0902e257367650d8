use game::{
    AttackError, ClientCommand, CommandError, GameEvent, GameMap, GameWorld, GridPosition, Health,
    MoveError, PlayerId, SpawnError, Terrain, UnitId, UnitSnapshot, DEFAULT_ATTACK_DAMAGE,
    DEFAULT_ATTACK_INTERVAL_NANOS, DEFAULT_MAX_HEALTH, SERVER_TICK_NANOS,
};

const PLAYER: PlayerId = PlayerId(1);
const OTHER_PLAYER: PlayerId = PlayerId(2);
const MILLISECOND: u64 = 1_000_000;

fn attack(world: &mut GameWorld, player: PlayerId, attackers: Vec<UnitId>, unit: UnitId) -> Result<(), CommandError> {
    world.handle_command(player, ClientCommand::Attack { attackers, unit })
}

#[test]
fn spawns_a_unit_on_walkable_terrain() {
    let map = GameMap::new(8, 8, Terrain::Grass);
    let mut world = GameWorld::new(map);

    let id = world
        .spawn_unit(PLAYER, GridPosition::new(2, 3))
        .expect("spawn position should be walkable");

    let unit = world.unit(id).expect("spawned unit should exist");

    assert_eq!(unit.id, id);
    assert_eq!(unit.cell, GridPosition::new(2, 3));
}

#[test]
fn assigns_unique_unit_ids() {
    let map = GameMap::new(8, 8, Terrain::Grass);
    let mut world = GameWorld::new(map);

    let first = world.spawn_unit(PLAYER, GridPosition::new(1, 1)).unwrap();
    let second = world.spawn_unit(PLAYER, GridPosition::new(2, 1)).unwrap();

    assert_ne!(first, second);
}

#[test]
fn rejects_a_unit_spawned_on_water() {
    let mut map = GameMap::new(8, 8, Terrain::Grass);
    let water = GridPosition::new(3, 2);

    map.set_terrain(water, Terrain::Water).unwrap();

    let mut world = GameWorld::new(map);

    assert_eq!(
        world.spawn_unit(PLAYER, water),
        Err(SpawnError::PositionNotWalkable(water))
    );
}

#[test]
fn movement_to_water_is_rejected() {
    let mut map = GameMap::new(8, 8, Terrain::Grass);
    let water = GridPosition::new(3, 2);
    map.set_terrain(water, Terrain::Water).unwrap();

    let mut world = GameWorld::new(map);
    let id = world.spawn_unit(PLAYER, GridPosition::new(0, 0)).unwrap();

    assert_eq!(
        world.handle_command(
            PLAYER,
            ClientCommand::MoveUnits {
                units: vec![id],
                destination: water,
            }
        ),
        Err(CommandError::Move(MoveError::NoPath {
            start: GridPosition::new(0, 0),
            goal: water,
        }))
    );
}

#[test]
fn rejects_an_empty_move_command() {
    let map = GameMap::new(8, 8, Terrain::Grass);
    let mut world = GameWorld::new(map);

    assert_eq!(
        world.handle_command(
            PLAYER,
            ClientCommand::MoveUnits {
                units: vec![],
                destination: GridPosition::new(2, 2),
            }
        ),
        Err(CommandError::EmptyUnitSelection)
    );
}

#[test]
fn invalid_group_command_does_not_move_valid_unit() {
    let map = GameMap::new(8, 8, Terrain::Grass);
    let mut world = GameWorld::new(map);

    let valid_id = world.spawn_unit(PLAYER, GridPosition::new(0, 0)).unwrap();

    let missing_id = UnitId(999);

    assert_eq!(
        world.handle_command(
            PLAYER,
            ClientCommand::MoveUnits {
                units: vec![valid_id, missing_id],
                destination: GridPosition::new(4, 3),
            }
        ),
        Err(CommandError::Move(MoveError::UnitNotFound(missing_id)))
    );

    assert_eq!(world.unit(valid_id).unwrap().movement, None);
}

#[test]
fn new_unit_has_full_health() {
    let map = GameMap::new(8, 8, Terrain::Grass);
    let mut world = GameWorld::new(map);

    let id = world.spawn_unit(PLAYER, GridPosition::new(1, 1)).unwrap();

    let unit = world.unit(id).unwrap();

    assert_eq!(unit.health.current(), DEFAULT_MAX_HEALTH);
    assert_eq!(unit.health.maximum(), DEFAULT_MAX_HEALTH);
    assert!(!unit.health.is_dead());
}

#[test]
fn damage_cannot_reduce_health_below_zero() {
    let mut health = Health::new(100);

    health.apply_damage(150);

    assert_eq!(health.current(), 0);
    assert!(health.is_dead());
}

#[test]
fn attack_sets_enemy_as_target() {
    let map = GameMap::new(8, 8, Terrain::Grass);
    let mut world = GameWorld::new(map);

    let attacker = world.spawn_unit(PLAYER, GridPosition::new(1, 1)).unwrap();
    let target = world.spawn_unit(OTHER_PLAYER, GridPosition::new(2, 1)).unwrap();

    attack(&mut world, PLAYER, vec![attacker], target).unwrap();

    assert_eq!(world.unit(attacker).unwrap().attack_target, Some(target));
}

#[test]
fn player_cannot_command_another_players_attacker() {
    let map = GameMap::new(8, 8, Terrain::Grass);
    let mut world = GameWorld::new(map);

    let attacker = world.spawn_unit(OTHER_PLAYER, GridPosition::new(1, 1)).unwrap();
    let target = world.spawn_unit(PLAYER, GridPosition::new(2, 1)).unwrap();

    assert_eq!(
        attack(&mut world, PLAYER, vec![attacker], target),
        Err(CommandError::UnitNotOwned(attacker))
    );

    assert_eq!(world.unit(attacker).unwrap().attack_target, None);
}

#[test]
fn cannot_attack_friendly_unit() {
    let map = GameMap::new(8, 8, Terrain::Grass);
    let mut world = GameWorld::new(map);

    let attacker = world.spawn_unit(PLAYER, GridPosition::new(1, 1)).unwrap();
    let target = world.spawn_unit(PLAYER, GridPosition::new(2, 1)).unwrap();

    assert_eq!(
        attack(&mut world, PLAYER, vec![attacker], target),
        Err(CommandError::Attack(AttackError::FriendlyTarget(target)))
    );

    assert_eq!(world.unit(attacker).unwrap().attack_target, None);
}

#[test]
fn attack_rejects_missing_attacker() {
    let map = GameMap::new(8, 8, Terrain::Grass);
    let mut world = GameWorld::new(map);

    let missing_attacker = UnitId(999);
    let target = world.spawn_unit(OTHER_PLAYER, GridPosition::new(2, 1)).unwrap();

    assert_eq!(
        attack(&mut world, PLAYER, vec![missing_attacker], target),
        Err(CommandError::Attack(AttackError::AttackerNotFound(missing_attacker)))
    );
}

#[test]
fn attack_rejects_missing_target() {
    let map = GameMap::new(8, 8, Terrain::Grass);
    let mut world = GameWorld::new(map);

    let attacker = world.spawn_unit(PLAYER, GridPosition::new(1, 1)).unwrap();
    let missing_target = UnitId(999);

    assert_eq!(
        attack(&mut world, PLAYER, vec![attacker], missing_target),
        Err(CommandError::Attack(AttackError::TargetNotFound(missing_target)))
    );

    assert_eq!(world.unit(attacker).unwrap().attack_target, None);
}

#[test]
fn invalid_group_attack_does_not_update_valid_attacker() {
    let map = GameMap::new(8, 8, Terrain::Grass);
    let mut world = GameWorld::new(map);

    let valid_attacker = world.spawn_unit(PLAYER, GridPosition::new(1, 1)).unwrap();
    let foreign_attacker = world.spawn_unit(OTHER_PLAYER, GridPosition::new(1, 2)).unwrap();
    let target = world.spawn_unit(OTHER_PLAYER, GridPosition::new(2, 1)).unwrap();

    assert_eq!(
        attack(&mut world, PLAYER, vec![valid_attacker, foreign_attacker], target),
        Err(CommandError::UnitNotOwned(foreign_attacker))
    );

    assert_eq!(world.unit(valid_attacker).unwrap().attack_target, None);
}

// Units one cell apart are within the standard attack range, so the attacker is listed
// as in range of its target.
#[test]
fn in_range_attacker_damages_target_on_tick() {
    let map = GameMap::new(8, 8, Terrain::Grass);
    let mut world = GameWorld::new(map);

    let attacker = world.spawn_unit(PLAYER, GridPosition::new(1, 1)).unwrap();
    let target = world.spawn_unit(OTHER_PLAYER, GridPosition::new(2, 1)).unwrap();

    attack(&mut world, PLAYER, vec![attacker], target).unwrap();

    world.tick(SERVER_TICK_NANOS, &vec![attacker]);

    assert_eq!(
        world.unit(target).unwrap().health.current(),
        DEFAULT_MAX_HEALTH - DEFAULT_ATTACK_DAMAGE,
    );
}

#[test]
fn attack_respects_attack_interval() {
    let map = GameMap::new(8, 8, Terrain::Grass);
    let mut world = GameWorld::new(map);

    let attacker = world.spawn_unit(PLAYER, GridPosition::new(1, 1)).unwrap();
    let target = world.spawn_unit(OTHER_PLAYER, GridPosition::new(2, 1)).unwrap();

    attack(&mut world, PLAYER, vec![attacker], target).unwrap();

    // The first available attack happens immediately.
    world.tick(SERVER_TICK_NANOS, &vec![attacker]);

    assert_eq!(
        world.unit(target).unwrap().health.current(),
        DEFAULT_MAX_HEALTH - DEFAULT_ATTACK_DAMAGE
    );

    // The interval has not completely elapsed.
    world.tick(499 * MILLISECOND, &vec![attacker]);

    assert_eq!(
        world.unit(target).unwrap().health.current(),
        DEFAULT_MAX_HEALTH - DEFAULT_ATTACK_DAMAGE
    );

    // The final millisecond completes the cooldown.
    world.tick(MILLISECOND, &vec![attacker]);

    assert_eq!(
        world.unit(target).unwrap().health.current(),
        DEFAULT_MAX_HEALTH - DEFAULT_ATTACK_DAMAGE * 2
    );
}

// Units three cells apart are beyond the standard attack range: nobody is listed as in range.
#[test]
fn out_of_range_attacker_does_not_damage_target() {
    let map = GameMap::new(8, 8, Terrain::Grass);
    let mut world = GameWorld::new(map);

    let attacker = world.spawn_unit(PLAYER, GridPosition::new(0, 0)).unwrap();
    let target = world.spawn_unit(OTHER_PLAYER, GridPosition::new(3, 0)).unwrap();

    attack(&mut world, PLAYER, vec![attacker], target).unwrap();

    world.tick(SERVER_TICK_NANOS, &vec![]);

    assert_eq!(world.unit(target).unwrap().health.current(), DEFAULT_MAX_HEALTH);

    assert_eq!(world.unit(attacker).unwrap().attack_target, Some(target));
}

#[test]
fn move_command_cancels_attack_target() {
    let map = GameMap::new(8, 8, Terrain::Grass);
    let mut world = GameWorld::new(map);

    let attacker = world.spawn_unit(PLAYER, GridPosition::new(0, 0)).unwrap();
    let target = world.spawn_unit(OTHER_PLAYER, GridPosition::new(1, 0)).unwrap();

    attack(&mut world, PLAYER, vec![attacker], target).unwrap();

    world
        .handle_command(
            PLAYER,
            ClientCommand::MoveUnits {
                units: vec![attacker],
                destination: GridPosition::new(0, 2),
            },
        )
        .unwrap();

    let unit = world.unit(attacker).unwrap();

    assert_eq!(unit.attack_target, None);
    assert!(unit.movement.is_some());
}

#[test]
fn attacker_clears_target_after_target_dies() {
    let map = GameMap::new(8, 8, Terrain::Grass);
    let mut world = GameWorld::new(map);

    let attacker = world.spawn_unit(PLAYER, GridPosition::new(1, 1)).unwrap();
    let target = world.spawn_unit(OTHER_PLAYER, GridPosition::new(2, 1)).unwrap();

    attack(&mut world, PLAYER, vec![attacker], target).unwrap();

    let mut events = Vec::new();

    for _ in 0..10 {
        events.extend(world.tick(DEFAULT_ATTACK_INTERVAL_NANOS, &vec![attacker]));
    }

    assert_eq!(events, vec![GameEvent::UnitDied { unit: target }]);

    assert!(world.unit(target).is_none());

    assert_eq!(world.unit(attacker).unwrap().attack_target, None);
}

#[test]
fn unit_walks_its_path_to_the_destination() {
    let map = GameMap::new(8, 8, Terrain::Grass);
    let mut world = GameWorld::new(map);

    let id = world.spawn_unit(PLAYER, GridPosition::new(0, 0)).unwrap();

    world
        .handle_command(
            PLAYER,
            ClientCommand::MoveUnits { units: vec![id], destination: GridPosition::new(4, 3) },
        )
        .unwrap();

    assert_eq!(world.unit(id).unwrap().movement.as_ref().unwrap().path.len(), 7);

    let mut steps = 0;
    while let Some(waypoint) = world.next_waypoint(id) {
        world.record_progress(id, waypoint, true);
        assert_eq!(world.unit(id).unwrap().cell, waypoint);
        steps += 1;
    }

    let unit = world.unit(id).unwrap();
    assert_eq!(steps, 7);
    assert_eq!(unit.cell, GridPosition::new(4, 3));
    assert_eq!(unit.movement, None);
}

#[test]
fn progress_short_of_a_waypoint_only_moves_the_cell() {
    let map = GameMap::new(8, 8, Terrain::Grass);
    let mut world = GameWorld::new(map);

    let id = world.spawn_unit(PLAYER, GridPosition::new(0, 0)).unwrap();
    world
        .handle_command(
            PLAYER,
            ClientCommand::MoveUnits { units: vec![id], destination: GridPosition::new(2, 0) },
        )
        .unwrap();

    let first = world.next_waypoint(id).unwrap();
    world.record_progress(id, GridPosition::new(0, 0), false);

    assert_eq!(world.next_waypoint(id), Some(first));
    assert_eq!(world.unit(id).unwrap().cell, GridPosition::new(0, 0));
}

#[test]
fn moving_to_the_current_cell_gives_no_movement_order() {
    let map = GameMap::new(4, 4, Terrain::Grass);
    let mut world = GameWorld::new(map);

    let id = world.spawn_unit(PLAYER, GridPosition::new(1, 1)).unwrap();

    assert_eq!(
        world.handle_command(
            PLAYER,
            ClientCommand::MoveUnits { units: vec![id], destination: GridPosition::new(1, 1) },
        ),
        Ok(())
    );
    assert_eq!(world.unit(id).unwrap().movement, None);
    assert_eq!(world.next_waypoint(id), None);
}

#[test]
fn moving_another_players_unit_is_refused() {
    let map = GameMap::new(4, 4, Terrain::Grass);
    let mut world = GameWorld::new(map);

    let id = world.spawn_unit(OTHER_PLAYER, GridPosition::new(1, 1)).unwrap();

    assert_eq!(
        world.handle_command(
            PLAYER,
            ClientCommand::MoveUnits { units: vec![id], destination: GridPosition::new(2, 2) },
        ),
        Err(CommandError::UnitNotOwned(id))
    );
    assert_eq!(world.unit(id).unwrap().movement, None);
}

#[test]
fn attack_command_stops_a_moving_unit() {
    let map = GameMap::new(8, 8, Terrain::Grass);
    let mut world = GameWorld::new(map);

    let attacker = world.spawn_unit(PLAYER, GridPosition::new(0, 0)).unwrap();
    let target = world.spawn_unit(OTHER_PLAYER, GridPosition::new(5, 5)).unwrap();

    world
        .handle_command(
            PLAYER,
            ClientCommand::MoveUnits { units: vec![attacker], destination: GridPosition::new(3, 0) },
        )
        .unwrap();
    assert!(world.unit(attacker).unwrap().movement.is_some());

    attack(&mut world, PLAYER, vec![attacker], target).unwrap();

    let unit = world.unit(attacker).unwrap();
    assert_eq!(unit.movement, None);
    assert_eq!(unit.attack_target, Some(target));
}

#[test]
fn empty_attack_command_is_refused() {
    let map = GameMap::new(4, 4, Terrain::Grass);
    let mut world = GameWorld::new(map);
    let target = world.spawn_unit(OTHER_PLAYER, GridPosition::new(1, 1)).unwrap();

    assert_eq!(attack(&mut world, PLAYER, vec![], target), Err(CommandError::EmptyUnitSelection));
}

#[test]
fn snapshot_lists_units_in_id_order() {
    let map = GameMap::new(8, 8, Terrain::Grass);
    let mut world = GameWorld::new(map);

    let first = world.spawn_unit(PLAYER, GridPosition::new(1, 2)).unwrap();
    let second = world.spawn_unit(OTHER_PLAYER, GridPosition::new(4, 5)).unwrap();

    assert_eq!(
        world.snapshot(),
        vec![
            UnitSnapshot {
                id: first,
                owner: PLAYER,
                health: DEFAULT_MAX_HEALTH,
                max_health: DEFAULT_MAX_HEALTH,
            },
            UnitSnapshot {
                id: second,
                owner: OTHER_PLAYER,
                health: DEFAULT_MAX_HEALTH,
                max_health: DEFAULT_MAX_HEALTH,
            },
        ]
    );
}

#[test]
fn two_attackers_add_their_damage() {
    let map = GameMap::new(8, 8, Terrain::Grass);
    let mut world = GameWorld::new(map);

    let left = world.spawn_unit(PLAYER, GridPosition::new(1, 1)).unwrap();
    let right = world.spawn_unit(PLAYER, GridPosition::new(3, 1)).unwrap();
    let target = world.spawn_unit(OTHER_PLAYER, GridPosition::new(2, 1)).unwrap();

    attack(&mut world, PLAYER, vec![left, right], target).unwrap();
    let events = world.tick(SERVER_TICK_NANOS, &vec![left, right]);

    assert!(events.is_empty());
    assert_eq!(
        world.unit(target).unwrap().health.current(),
        DEFAULT_MAX_HEALTH - 2 * DEFAULT_ATTACK_DAMAGE
    );
}

#[test]
fn spawn_ids_count_up_from_one() {
    let map = GameMap::new(4, 4, Terrain::Grass);
    let mut world = GameWorld::new(map);

    assert_eq!(world.next_unit_id(), 1);
    assert_eq!(world.spawn_unit(PLAYER, GridPosition::new(0, 0)), Ok(UnitId(1)));
    assert_eq!(world.spawn_unit(PLAYER, GridPosition::new(1, 0)), Ok(UnitId(2)));
    assert_eq!(world.next_unit_id(), 3);
}
