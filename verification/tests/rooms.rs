use mapgen::room::catalog_find;
use mapgen::room::load_rooms;
use mapgen::room::Direction;
use mapgen::room::HallwayKind;
use mapgen::room::Room;
use mapgen::room::RoomKind;

#[test]
fn door_positions_follow_the_edge_formula() {
    let room = Room::new(
        3,
        3,
        vec![(1, Direction::West), (1, Direction::East)],
    );
    assert_eq!(room.width, 3);
    assert_eq!(room.height, 3);
    assert_eq!(room.doors.len(), 2);
    // doors come out grouped north, east, south, west
    assert_eq!(room.doors[0], (2, 1, Direction::East));
    assert_eq!(room.doors[1], (0, 1, Direction::West));
}

#[test]
fn doors_are_grouped_by_direction_with_ascending_offsets() {
    let room = Room::new(
        4,
        4,
        vec![
            (3, Direction::West),
            (1, Direction::West),
            (2, Direction::North),
            (0, Direction::East),
        ],
    );
    assert_eq!(
        room.doors,
        vec![
            (2, 3, Direction::North),
            (3, 0, Direction::East),
            (0, 1, Direction::West),
            (0, 3, Direction::West),
        ]
    );
}

#[test]
fn door_positions_for_all_edges() {
    let room = Room::new(
        4,
        3,
        vec![
            (2, Direction::North),
            (1, Direction::East),
            (3, Direction::South),
            (0, Direction::West),
        ],
    );
    assert_eq!(room.doors[0], (2, 2, Direction::North));
    assert_eq!(room.doors[1], (3, 1, Direction::East));
    assert_eq!(room.doors[2], (3, 0, Direction::South));
    assert_eq!(room.doors[3], (0, 0, Direction::West));
}

#[test]
fn catalog_holds_all_seventeen_templates() {
    let catalog = load_rooms();
    assert_eq!(catalog.len(), 17);
    assert_eq!(catalog[0].0, RoomKind::Security);
    assert_eq!(catalog[0].1.width, 3);
    assert_eq!(catalog[0].1.height, 3);
    assert_eq!(catalog[0].1.doors, vec![(2, 1, Direction::East), (0, 1, Direction::West)]);
    assert_eq!(catalog[1].0, RoomKind::Empty);
    assert_eq!(catalog[1].1.width, 4);
    assert_eq!(catalog[1].1.height, 3);
    assert_eq!(catalog[1].1.doors, vec![(1, 0, Direction::South), (0, 1, Direction::West)]);
    for (_, room) in catalog.iter().skip(2) {
        assert_eq!(room.width, 1);
        assert_eq!(room.height, 1);
        assert!(room.doors.len() >= 1);
    }
}

#[test]
fn catalog_find_returns_first_match() {
    let catalog = load_rooms();
    assert_eq!(catalog_find(&catalog, RoomKind::Security), Some(0));
    assert_eq!(catalog_find(&catalog, RoomKind::Empty), Some(1));
    let i = catalog_find(&catalog, RoomKind::Hallway(HallwayKind::EastWest)).unwrap();
    assert_eq!(catalog[i].0, RoomKind::Hallway(HallwayKind::EastWest));
    let empty_catalog: Vec<(RoomKind, Room)> = Vec::new();
    assert_eq!(catalog_find(&empty_catalog, RoomKind::Security), None);
}
