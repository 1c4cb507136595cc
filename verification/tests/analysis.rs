use mapgen::generator::TileMap;
use mapgen::room::load_rooms;
use mapgen::room::HallwayKind;
use mapgen::room::RoomKind;
use mapgen::tile::ConnectRule;
use mapgen::tile::TileArray;
use mapgen::tile::TileKind;

/// Builds a map directly from tiles, keeping the hallway list in sync with
/// the grid.
fn map_from_tiles(width: usize, height: usize, tiles: &[(usize, usize, TileKind)]) -> TileMap {
    let mut occupied = TileArray::new(width, height);
    let mut hallways = Vec::new();
    for &(x, y, kind) in tiles.iter() {
        occupied.set(x, y, kind);
        if kind == TileKind::Hallway {
            hallways.push((x, y));
        }
    }
    TileMap { occupied, rooms: Vec::new(), hallways, width, height }
}

#[test]
fn separated_hallways_form_two_components() {
    let m = map_from_tiles(
        5,
        1,
        &[(0, 0, TileKind::Hallway), (4, 0, TileKind::Hallway)],
    );
    let comps = m.connected_hallways();
    assert_eq!(comps.len(), 2);
    assert_eq!(comps[0], vec![(0, 0)]);
    assert_eq!(comps[1], vec![(4, 0)]);
}

#[test]
fn adjacent_hallways_form_one_component() {
    let m = map_from_tiles(
        5,
        1,
        &[(1, 0, TileKind::Hallway), (2, 0, TileKind::Hallway)],
    );
    assert_eq!(m.connected_hallways().len(), 1);
}

#[test]
fn hallways_connect_through_doors_but_not_rooms() {
    // hallway - door - hallway is one component
    let joined = map_from_tiles(
        3,
        1,
        &[
            (0, 0, TileKind::Hallway),
            (1, 0, TileKind::Door),
            (2, 0, TileKind::Hallway),
        ],
    );
    assert_eq!(joined.connected_hallways().len(), 1);
    // two rooms of different ids do not connect to each other
    let split = map_from_tiles(
        4,
        1,
        &[
            (0, 0, TileKind::Hallway),
            (1, 0, TileKind::Room(1)),
            (2, 0, TileKind::Room(2)),
            (3, 0, TileKind::Hallway),
        ],
    );
    assert_eq!(split.connected_hallways().len(), 2);
}

#[test]
fn isolated_hallway_is_not_flagged_as_dead_end() {
    // the all-false pattern aliases the all-true variant, so a lone
    // hallway tile never counts as a single-direction dead end
    let m = map_from_tiles(5, 5, &[(2, 2, TileKind::Hallway)]);
    assert_eq!(m.occupied.hallway_kind(2, 2), HallwayKind::NorthEastSouthWest);
    assert_eq!(m.get_single_hallways().len(), 0);
}

#[test]
fn seed_beside_its_door_is_flagged_as_dead_end() {
    let m = map_from_tiles(
        5,
        5,
        &[(2, 2, TileKind::Door), (1, 2, TileKind::Hallway)],
    );
    assert_eq!(m.occupied.hallway_kind(1, 2), HallwayKind::East);
    assert_eq!(m.get_single_hallways(), vec![(1, 2)]);
}

#[test]
fn get_connections_follows_the_callers_rule() {
    let mut g = TileArray::new(3, 3);
    g.set(1, 1, TileKind::Hallway);
    g.set(0, 1, TileKind::Door);
    g.set(2, 1, TileKind::Room(0));
    g.set(1, 0, TileKind::Hallway);
    // semantically, a hallway connects to the door and the hallway, not to
    // the room or the empty tile
    let sem = g.get_connections(1, 1, ConnectRule::Semantic);
    assert_eq!(sem.len(), 2);
    assert!(sem.contains(&(0, 1, TileKind::Door)));
    assert!(sem.contains(&(1, 0, TileKind::Hallway)));
    // for pathing, empty space and hallways are traversable, doors and
    // rooms are not
    let path = g.get_connections(1, 1, ConnectRule::Pathing);
    assert_eq!(path.len(), 2);
    assert!(path.contains(&(1, 0, TileKind::Hallway)));
    assert!(path.contains(&(1, 2, TileKind::Empty)));
}

#[test]
fn scatter_origin_in_free_space_places_a_second_room() {
    let catalog = load_rooms();
    let mut m = TileMap::new(30, 30);
    let origins = vec![(2, 2)];
    assert_eq!(m.generate_from(&catalog, &origins), Ok(()));
    assert_eq!(m.rooms.len(), 2);
    assert_eq!(m.rooms[0], (RoomKind::Security, (14, 14)));
    assert_eq!(m.rooms[1], (RoomKind::Empty, (2, 2)));
    assert_eq!(m.connected_hallways().len(), 1);
    assert_eq!(m.get_single_hallways().len(), 0);
}
