use mapgen::room::HallwayKind;
use mapgen::tile::TileArray;
use mapgen::tile::TileKind;

/// Builds a 3x3 grid whose center neighborhood matches the given
/// north/east/south/west occupancy pattern, using the given occupied kind.
fn neighborhood(n: bool, e: bool, s: bool, w: bool, kind: TileKind) -> TileArray {
    let mut g = TileArray::new(3, 3);
    g.set(1, 1, TileKind::Hallway);
    if n {
        g.set(1, 2, kind);
    }
    if e {
        g.set(2, 1, kind);
    }
    if s {
        g.set(1, 0, kind);
    }
    if w {
        g.set(0, 1, kind);
    }
    g
}

#[test]
fn classifies_all_sixteen_patterns() {
    let cases: [(bool, bool, bool, bool, HallwayKind); 16] = [
        (true, true, true, true, HallwayKind::NorthEastSouthWest),
        (true, true, true, false, HallwayKind::NorthEastSouth),
        (true, true, false, true, HallwayKind::NorthEastWest),
        (true, false, true, true, HallwayKind::NorthSouthWest),
        (false, true, true, true, HallwayKind::EastSouthWest),
        (true, true, false, false, HallwayKind::NorthEast),
        (true, false, true, false, HallwayKind::NorthSouth),
        (true, false, false, true, HallwayKind::NorthWest),
        (false, true, true, false, HallwayKind::EastSouth),
        (false, true, false, true, HallwayKind::EastWest),
        (false, false, true, true, HallwayKind::SouthWest),
        (true, false, false, false, HallwayKind::North),
        (false, true, false, false, HallwayKind::East),
        (false, false, true, false, HallwayKind::South),
        (false, false, false, true, HallwayKind::West),
        (false, false, false, false, HallwayKind::NorthEastSouthWest),
    ];
    for &(n, e, s, w, expected) in cases.iter() {
        let g = neighborhood(n, e, s, w, TileKind::Hallway);
        assert_eq!(g.hallway_kind(1, 1), expected);
    }
}

#[test]
fn doors_count_as_occupied_neighbors() {
    let g = neighborhood(true, false, true, false, TileKind::Door);
    assert_eq!(g.hallway_kind(1, 1), HallwayKind::NorthSouth);
}

#[test]
fn rooms_do_not_count_as_occupied_neighbors() {
    let g = neighborhood(true, true, true, true, TileKind::Room(3));
    assert_eq!(g.hallway_kind(1, 1), HallwayKind::NorthEastSouthWest);
    let mut g2 = TileArray::new(3, 3);
    g2.set(1, 1, TileKind::Hallway);
    g2.set(1, 2, TileKind::Room(0));
    g2.set(2, 1, TileKind::Hallway);
    assert_eq!(g2.hallway_kind(1, 1), HallwayKind::East);
}

#[test]
fn grid_edges_count_as_unoccupied() {
    let mut g = TileArray::new(2, 2);
    g.set(0, 0, TileKind::Hallway);
    g.set(1, 0, TileKind::Hallway);
    assert_eq!(g.hallway_kind(0, 0), HallwayKind::East);
    assert_eq!(g.hallway_kind(1, 0), HallwayKind::West);
}

#[test]
fn classifier_is_idempotent_and_depends_on_neighbors_only() {
    let g = neighborhood(true, false, false, true, TileKind::Hallway);
    let first = g.hallway_kind(1, 1);
    let second = g.hallway_kind(1, 1);
    assert_eq!(first, second);
    // a different grid with the same neighborhood pattern classifies the same
    let mut big = TileArray::new(7, 7);
    big.set(3, 3, TileKind::Hallway);
    big.set(3, 4, TileKind::Door);
    big.set(2, 3, TileKind::Hallway);
    big.set(0, 0, TileKind::Room(1));
    assert_eq!(big.hallway_kind(3, 3), first);
}
