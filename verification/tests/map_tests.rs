use game::{GameMap, GridPosition, MapError, Terrain};

#[test]
fn creates_grid_position() {
    let position = GridPosition::new(4, 7);

    assert_eq!(position.x, 4);
    assert_eq!(position.y, 7);
}

#[test]
fn creates_an_8_by_8_grass_map() {
    let map = GameMap::new(8, 8, Terrain::Grass);

    assert_eq!(map.width(), 8);
    assert_eq!(map.height(), 8);
    assert_eq!(map.terrain(GridPosition::new(4, 7)), Some(&Terrain::Grass));
}

#[test]
fn positions_outside_the_map_are_rejected() {
    let map = GameMap::new(8, 8, Terrain::Grass);

    assert!(!map.is_inside(GridPosition::new(-1, 0)));
    assert!(!map.is_inside(GridPosition::new(8, 0)));
    assert!(!map.is_inside(GridPosition::new(0, 8)));
    assert_eq!(map.terrain(GridPosition::new(8, 0)), None);
}

#[test]
fn water_is_not_walkable() {
    let mut map = GameMap::new(8, 8, Terrain::Grass);
    let water_position = GridPosition::new(3, 2);

    map.set_terrain(water_position, Terrain::Water)
        .expect("test position should be inside the map");

    assert!(!map.is_walkable(water_position));
    assert!(map.is_walkable(GridPosition::new(2, 2)));
}

#[test]
fn demo_map_is_8_by_8_and_contains_water() {
    let map = GameMap::demo_8x8();

    assert_eq!(map.width(), 8);
    assert_eq!(map.height(), 8);

    assert_eq!(map.terrain(GridPosition::new(3, 2)), Some(&Terrain::Water));
}

#[test]
fn demo_map_pond_covers_exactly_four_cells() {
    let map = GameMap::demo_8x8();
    let mut water = Vec::new();
    for y in 0..8 {
        for x in 0..8 {
            if map.terrain(GridPosition::new(x, y)) == Some(&Terrain::Water) {
                water.push((x, y));
            }
        }
    }
    assert_eq!(water, vec![(3, 2), (4, 2), (3, 3), (4, 3)]);
}

#[test]
fn setting_terrain_outside_the_map_is_refused_and_changes_nothing() {
    let mut map = GameMap::new(3, 2, Terrain::Grass);
    let outside = GridPosition::new(3, 0);

    assert_eq!(map.set_terrain(outside, Terrain::Water), Err(MapError::OutsideMap(outside)));
    for y in 0..2 {
        for x in 0..3 {
            assert_eq!(map.terrain(GridPosition::new(x, y)), Some(&Terrain::Grass));
        }
    }
}

#[test]
fn reading_after_writing_gives_the_written_terrain_only_there() {
    let mut map = GameMap::new(4, 3, Terrain::Grass);
    let cell = GridPosition::new(2, 1);

    assert_eq!(map.set_terrain(cell, Terrain::Water), Ok(()));
    assert_eq!(map.terrain(cell), Some(&Terrain::Water));
    assert_eq!(map.terrain(GridPosition::new(1, 2)), Some(&Terrain::Grass));
    assert_eq!(map.terrain(GridPosition::new(3, 1)), Some(&Terrain::Grass));

    assert_eq!(map.set_terrain(cell, Terrain::Grass), Ok(()));
    assert!(map.is_walkable(cell));
}

#[test]
fn cells_off_the_map_are_not_walkable() {
    let map = GameMap::new(2, 2, Terrain::Grass);

    assert!(map.is_walkable(GridPosition::new(1, 1)));
    assert!(!map.is_walkable(GridPosition::new(2, 1)));
    assert!(!map.is_walkable(GridPosition::new(0, -1)));
}

#[test]
fn water_map_is_water_everywhere() {
    let map = GameMap::new(2, 3, Terrain::Water);

    assert_eq!(map.width(), 2);
    assert_eq!(map.height(), 3);
    assert_eq!(map.terrain(GridPosition::new(1, 2)), Some(&Terrain::Water));
    assert!(!map.is_walkable(GridPosition::new(0, 0)));
}
