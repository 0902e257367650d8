use std::collections::VecDeque;

use game::{find_path, GameMap, GridPosition, Terrain};

#[test]
fn finds_a_shortest_path() {
    let map = GameMap::new(4, 4, Terrain::Grass);

    let path = find_path(&map, GridPosition::new(0, 0), GridPosition::new(2, 1))
        .expect("a path should exist");

    assert_eq!(path.len(), 3);
    assert_eq!(path.back(), Some(&GridPosition::new(2, 1)));
}

#[test]
fn path_avoids_water() {
    let mut map = GameMap::new(3, 3, Terrain::Grass);

    map.set_terrain(GridPosition::new(1, 0), Terrain::Water)
        .unwrap();

    let path = find_path(&map, GridPosition::new(0, 0), GridPosition::new(2, 0))
        .expect("the unit should walk around the water");

    assert_eq!(path.len(), 4);
    assert!(!path.contains(&GridPosition::new(1, 0)));
}

#[test]
fn water_target_has_no_path() {
    let mut map = GameMap::new(3, 3, Terrain::Grass);
    let goal = GridPosition::new(2, 2);

    map.set_terrain(goal, Terrain::Water).unwrap();

    assert_eq!(find_path(&map, GridPosition::new(0, 0), goal), None);
}

#[test]
fn start_equal_to_goal_returns_empty_path() {
    let map = GameMap::new(3, 3, Terrain::Grass);
    let position = GridPosition::new(1, 1);

    assert_eq!(find_path(&map, position, position), Some(VecDeque::new()));
}

#[test]
fn outside_destination_has_no_path() {
    let map = GameMap::new(3, 3, Terrain::Grass);

    assert_eq!(
        find_path(&map, GridPosition::new(0, 0), GridPosition::new(3, 0),),
        None
    );
}

fn is_step(a: GridPosition, b: GridPosition) -> bool {
    (a.x - b.x).abs() + (a.y - b.y).abs() == 1
}

#[test]
fn every_step_of_a_path_is_one_cardinal_move_onto_grass() {
    let map = GameMap::demo_8x8();
    let start = GridPosition::new(2, 2);
    let goal = GridPosition::new(5, 3);

    let path = find_path(&map, start, goal).expect("the pond can be walked around");

    let mut previous = start;
    for &cell in path.iter() {
        assert!(is_step(previous, cell));
        assert!(map.is_walkable(cell));
        previous = cell;
    }
    assert_eq!(previous, goal);
    assert_eq!(path.len(), 6);
}

#[test]
fn open_map_path_length_is_the_grid_distance() {
    let map = GameMap::new(6, 5, Terrain::Grass);

    let path = find_path(&map, GridPosition::new(5, 4), GridPosition::new(1, 0)).unwrap();

    assert_eq!(path.len(), 8);
}

#[test]
fn water_start_has_no_path() {
    let mut map = GameMap::new(3, 3, Terrain::Grass);
    map.set_terrain(GridPosition::new(0, 0), Terrain::Water).unwrap();

    assert_eq!(find_path(&map, GridPosition::new(0, 0), GridPosition::new(2, 2)), None);
}

#[test]
fn walled_off_goal_has_no_path() {
    let mut map = GameMap::new(3, 3, Terrain::Grass);
    for y in 0..3 {
        map.set_terrain(GridPosition::new(1, y), Terrain::Water).unwrap();
    }

    assert_eq!(find_path(&map, GridPosition::new(0, 1), GridPosition::new(2, 1)), None);
}

#[test]
fn neighbouring_cell_is_one_step_away() {
    let map = GameMap::new(2, 1, Terrain::Grass);

    let path = find_path(&map, GridPosition::new(0, 0), GridPosition::new(1, 0)).unwrap();

    assert_eq!(path, VecDeque::from(vec![GridPosition::new(1, 0)]));
}
