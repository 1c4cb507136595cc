use mapgen::generator::MapGenError;
use mapgen::generator::TileMap;
use mapgen::randsrc::rng_from_seed;
use mapgen::room::load_rooms;
use mapgen::room::Direction;
use mapgen::room::HallwayKind;
use mapgen::room::Room;
use mapgen::room::RoomKind;
use mapgen::tile::TileKind;

fn is_occupied(k: TileKind) -> bool {
    k == TileKind::Hallway || k == TileKind::Door
}

/// Counts how many cardinal neighbors of `(x, y)` hold a hallway or a door.
fn occupied_dirs(m: &TileMap, x: usize, y: usize) -> usize {
    let mut c = 0;
    if y + 1 < m.height && is_occupied(m.occupied.get(x, y + 1)) {
        c += 1;
    }
    if x + 1 < m.width && is_occupied(m.occupied.get(x + 1, y)) {
        c += 1;
    }
    if y >= 1 && is_occupied(m.occupied.get(x, y - 1)) {
        c += 1;
    }
    if x >= 1 && is_occupied(m.occupied.get(x - 1, y)) {
        c += 1;
    }
    c
}

fn has_door_neighbor(m: &TileMap, x: usize, y: usize) -> bool {
    (y + 1 < m.height && m.occupied.get(x, y + 1) == TileKind::Door)
        || (x + 1 < m.width && m.occupied.get(x + 1, y) == TileKind::Door)
        || (y >= 1 && m.occupied.get(x, y - 1) == TileKind::Door)
        || (x >= 1 && m.occupied.get(x - 1, y) == TileKind::Door)
}

/// The footprint and hallway seed tiles of a placement.
fn region_tiles(room: &Room, ox: usize, oy: usize) -> Vec<(usize, usize)> {
    let mut tiles = Vec::new();
    for dy in 0..room.height {
        for dx in 0..room.width {
            tiles.push((ox + dx, oy + dy));
        }
    }
    for &(dx, dy, dir) in room.doors.iter() {
        let (ax, ay) = (ox + dx, oy + dy);
        let seed = match dir {
            Direction::North => (ax, ay + 1),
            Direction::East => (ax + 1, ay),
            Direction::South => (ax, ay - 1),
            Direction::West => (ax - 1, ay),
        };
        tiles.push(seed);
    }
    tiles
}

/// Checks the generator's guarantees on a finished map.
fn check_invariants(m: &TileMap, catalog: &Vec<(RoomKind, Room)>) {
    // exactly one connected hallway component
    let comps = m.connected_hallways();
    assert_eq!(comps.len(), 1);
    // no dead ends remain
    assert_eq!(m.get_single_hallways().len(), 0);
    // every hallway tile has two or more occupied directions, or a door
    for &(x, y) in m.hallways.iter() {
        assert_eq!(m.occupied.get(x, y), TileKind::Hallway);
        let k = m.occupied.hallway_kind(x, y);
        assert!(!matches!(
            k,
            HallwayKind::North | HallwayKind::East | HallwayKind::South | HallwayKind::West
        ));
        assert!(occupied_dirs(m, x, y) >= 2 || has_door_neighbor(m, x, y));
    }
    // no two placed rooms' footprints or seeds overlap
    let regions: Vec<Vec<(usize, usize)>> = m
        .rooms
        .iter()
        .map(|&(kind, (ox, oy))| {
            let template = if kind == RoomKind::Security {
                &catalog[0].1
            } else {
                &catalog[1].1
            };
            region_tiles(template, ox, oy)
        })
        .collect();
    for i in 0..regions.len() {
        for j in 0..regions.len() {
            if i != j {
                for t in regions[i].iter() {
                    assert!(!regions[j].contains(t));
                }
            }
        }
    }
    // the hallway list holds exactly the grid's hallway tiles, each once
    let mut listed = m.hallways.clone();
    listed.sort();
    for w in listed.windows(2) {
        assert!(w[0] != w[1]);
    }
    let mut count = 0;
    for y in 0..m.height {
        for x in 0..m.width {
            if m.occupied.get(x, y) == TileKind::Hallway {
                assert!(m.hallways.contains(&(x, y)));
                count += 1;
            }
        }
    }
    assert_eq!(count, m.hallways.len());
}

#[test]
fn anchor_only_repair_carves_one_path() {
    let catalog = load_rooms();
    let mut m = TileMap::new(10, 10);
    let r = m.generate_from(&catalog, &Vec::new());
    assert_eq!(r, Ok(()));
    // one room, placed at the center
    assert_eq!(m.rooms.len(), 1);
    assert_eq!(m.rooms[0], (RoomKind::Security, (4, 4)));
    // its two seeds sit outside the east and west doors, in door order
    assert_eq!(m.hallways[0], (7, 5));
    assert_eq!(m.hallways[1], (3, 5));
    // one shortest path around the room joins them: nine hallway tiles
    assert_eq!(m.hallways.len(), 9);
    check_invariants(&m, &catalog);
}

#[test]
fn oversize_template_yields_configuration_error() {
    let catalog = vec![(
        RoomKind::Security,
        Room::new(12, 3, vec![(1, Direction::West), (1, Direction::East)]),
    )];
    let mut m = TileMap::new(10, 10);
    let r = m.generate_from(&catalog, &Vec::new());
    assert_eq!(r, Err(MapGenError::ConfigurationError));
    // the grid is untouched by the failing configuration
    assert_eq!(m.rooms.len(), 0);
    assert_eq!(m.hallways.len(), 0);
    for y in 0..10 {
        for x in 0..10 {
            assert_eq!(m.occupied.get(x, y), TileKind::Empty);
        }
    }
}

#[test]
fn missing_anchor_yields_configuration_error() {
    let catalog: Vec<(RoomKind, Room)> = Vec::new();
    let mut m = TileMap::new(10, 10);
    assert_eq!(m.generate_from(&catalog, &Vec::new()), Err(MapGenError::ConfigurationError));
}

#[test]
fn missing_scatter_template_yields_configuration_error() {
    let catalog = vec![(
        RoomKind::Security,
        Room::new(3, 3, vec![(1, Direction::West), (1, Direction::East)]),
    )];
    let mut m = TileMap::new(20, 20);
    let origins = vec![(5, 5)];
    assert_eq!(m.generate_from(&catalog, &origins), Err(MapGenError::ConfigurationError));
}

#[test]
fn oversize_scatter_template_yields_configuration_error() {
    let catalog = vec![
        (
            RoomKind::Security,
            Room::new(3, 3, vec![(1, Direction::West), (1, Direction::East)]),
        ),
        (RoomKind::Empty, Room::new(9, 9, vec![(1, Direction::West)])),
    ];
    let mut m = TileMap::new(10, 10);
    let mut rng = rng_from_seed(1);
    assert_eq!(m.generate(&catalog, 3, &mut rng), Err(MapGenError::ConfigurationError));
}

#[test]
fn single_door_anchor_alone_is_unconnectable() {
    let catalog = vec![(RoomKind::Security, Room::new(3, 3, vec![(1, Direction::West)]))];
    let mut m = TileMap::new(10, 10);
    assert_eq!(m.generate_from(&catalog, &Vec::new()), Err(MapGenError::UnconnectableMapError));
}

#[test]
fn degenerate_origins_skip_every_scatter_attempt() {
    let catalog = load_rooms();
    let mut m = TileMap::new(30, 30);
    // the anchor occupies the center; aiming every attempt at its origin
    // blocks them all
    let origins = vec![(14, 14); 8];
    let r = m.generate_from(&catalog, &origins);
    assert_eq!(r, Ok(()));
    assert_eq!(m.rooms.len(), 1);
    assert_eq!(m.rooms[0], (RoomKind::Security, (14, 14)));
    check_invariants(&m, &catalog);
}

#[test]
fn seeded_generation_meets_all_invariants() {
    let catalog = load_rooms();
    for seed in [0u64, 7, 42, 1234] {
        let mut m = TileMap::new(20, 20);
        let mut rng = rng_from_seed(seed);
        let r = m.generate(&catalog, 8, &mut rng);
        assert_eq!(r, Ok(()));
        assert!(m.rooms.len() >= 1);
        assert!(m.rooms.len() <= 9);
        assert_eq!(m.rooms[0], (RoomKind::Security, (9, 9)));
        for entry in m.rooms.iter().skip(1) {
            assert_eq!(entry.0, RoomKind::Empty);
        }
        check_invariants(&m, &catalog);
    }
}

#[test]
fn anchor_origin_is_independent_of_the_random_stream() {
    let catalog = load_rooms();
    for seed in [1u64, 2, 99] {
        let mut m = TileMap::new(20, 20);
        let mut rng = rng_from_seed(seed);
        assert_eq!(m.generate(&catalog, 8, &mut rng), Ok(()));
        // width/2 - w/2 and height/2 - h/2 exactly
        assert_eq!(m.rooms[0], (RoomKind::Security, (20 / 2 - 3 / 2, 20 / 2 - 3 / 2)));
    }
}

#[test]
fn equal_seeds_generate_equal_maps() {
    let catalog = load_rooms();
    let mut m1 = TileMap::new(24, 24);
    let mut rng1 = rng_from_seed(42);
    assert_eq!(m1.generate(&catalog, 8, &mut rng1), Ok(()));
    let mut m2 = TileMap::new(24, 24);
    let mut rng2 = rng_from_seed(42);
    assert_eq!(m2.generate(&catalog, 8, &mut rng2), Ok(()));
    assert_eq!(m1.rooms, m2.rooms);
    assert_eq!(m1.hallways, m2.hallways);
    // the seeded entry point reproduces the same layout
    let mut m3 = TileMap::new(24, 24);
    assert_eq!(m3.generate_seeded(&catalog, 8, 42), Ok(()));
    assert_eq!(m3.rooms, m1.rooms);
    assert_eq!(m3.hallways, m1.hallways);
}
