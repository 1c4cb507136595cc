//! The map and its generator: anchor placement, scattered placement with
//! strict overlap rejection, and the corridor repair engine that carves
//! hallway until one connected, dead-end-free corridor network remains.

use vstd::prelude::*;

use crate::room::Direction;
use crate::room::HallwayKind;
use crate::room::Room;
use crate::room::RoomKind;
use crate::room::catalog_find;
use crate::room::catalog_has;
use crate::room::lemma_catalog_index;
use crate::room::spec_catalog_room;
use crate::tile::ConnectRule;
use crate::tile::TileArray;
use crate::tile::TileKind;
use crate::tile::count_empty;
use crate::tile::lemma_count_empty_update;
use crate::tile::lemma_single_iff_count_one;
use crate::tile::pt;
use crate::tile::spec_occ;
use crate::tile::spec_occ_count;
use crate::tile::spec_reach;
use crate::tile::spec_step;
use crate::search::comps_cover;
use crate::search::comps_members_ok;
use crate::search::comps_mutual;
use crate::search::comps_nonempty;
use crate::search::comps_separated;
use crate::search::find_path;
use crate::search::hallway_components;
use crate::search::SearchGoal;

verus! {

/// The generator's fatal failures: a configuration the grid cannot hold, or
/// a repair search that cannot connect the corridor network.
#[derive(Clone, Copy, PartialEq, Eq, Structural, Debug)]
pub enum MapGenError {
    ConfigurationError,
    UnconnectableMapError,
}

/// A generated map: the tile grid, the placed rooms in placement order, and
/// the hallway tiles in the order they were laid down.
pub struct TileMap {
    pub occupied: TileArray,
    pub rooms: Vec<(RoomKind, (usize, usize))>,
    pub hallways: Vec<(usize, usize)>,
    pub width: usize,
    pub height: usize,
}

/// Every hallway tile has at least one hallway or door neighbor.
pub open spec fn hallways_supported(g: TileArray) -> bool {
    forall|x: int, y: int|
        g.spec_in_bounds(x, y) && #[trigger] g.at(x, y) == TileKind::Hallway ==> spec_occ_count(
            g,
            x,
            y,
        ) >= 1
}

/// No hallway tile has exactly one hallway or door neighbor.
pub open spec fn no_dead_ends(g: TileArray) -> bool {
    forall|x: int, y: int|
        g.spec_in_bounds(x, y) && #[trigger] g.at(x, y) == TileKind::Hallway ==> spec_occ_count(
            g,
            x,
            y,
        ) != 1
}

/// Whether some cardinal neighbor of `(x, y)` holds a door.
pub open spec fn spec_has_door_neighbor(g: TileArray, x: int, y: int) -> bool {
    ||| (g.spec_in_bounds(x, y + 1) && g.at(x, y + 1) == TileKind::Door)
    ||| (g.spec_in_bounds(x + 1, y) && g.at(x + 1, y) == TileKind::Door)
    ||| (g.spec_in_bounds(x, y - 1) && g.at(x, y - 1) == TileKind::Door)
    ||| (g.spec_in_bounds(x - 1, y) && g.at(x - 1, y) == TileKind::Door)
}

/// Every dead-end hallway tile leans on a door: the repair engine only ever
/// has to resolve hallway seeds, never a lone corridor stub.
pub open spec fn dead_ends_doored(g: TileArray) -> bool {
    forall|x: int, y: int|
        g.spec_in_bounds(x, y) && #[trigger] g.at(x, y) == TileKind::Hallway && spec_occ_count(
            g,
            x,
            y,
        ) == 1 ==> spec_has_door_neighbor(g, x, y)
}

/// Two distinct occupied neighbors give a tile at least two occupied
/// directions.
proof fn lemma_two_adjacent_occupied(
    g: TileArray,
    x: int,
    y: int,
    a: (int, int),
    b: (int, int),
)
    requires
        crate::tile::spec_adjacent((x, y), a),
        crate::tile::spec_adjacent((x, y), b),
        a != b,
        spec_occ(g, a.0, a.1),
        spec_occ(g, b.0, b.1),
    ensures
        spec_occ_count(g, x, y) >= 2,
{
}

/// Any two hallway tiles reach each other under the semantic rule.
pub open spec fn hallways_connected(g: TileArray) -> bool {
    forall|ax: int, ay: int, bx: int, by: int|
        g.spec_in_bounds(ax, ay) && g.spec_in_bounds(bx, by) && #[trigger] g.at(ax, ay)
            == TileKind::Hallway && #[trigger] g.at(bx, by) == TileKind::Hallway
            ==> crate::tile::spec_reach(
            g,
            crate::tile::ConnectRule::Semantic,
            (ax, ay),
            (bx, by),
        )
}

/// The kind a placement stamp leaves at `(x, y)`: hallway on the seed
/// tiles, door on the door tiles, the room id on the rest of the footprint,
/// and whatever was there before elsewhere.
pub open spec fn spec_stamp(
    room: Room,
    ox: int,
    oy: int,
    id: usize,
    prev: TileKind,
    x: int,
    y: int,
) -> TileKind {
    if room.spec_is_seed(ox, oy, x, y) {
        TileKind::Hallway
    } else if room.spec_is_door(ox, oy, x, y) {
        TileKind::Door
    } else if room.spec_in_footprint(ox, oy, x, y) {
        TileKind::Room(id)
    } else {
        prev
    }
}

/// The template a placement record refers to: the anchor template for the
/// security room, the scatter template for the rest.
pub open spec fn spec_room_of(entry: (RoomKind, (usize, usize)), anchor: Room, scatter: Room) -> Room {
    if entry.0 == RoomKind::Security {
        anchor
    } else {
        scatter
    }
}

/// Whether `(x, y)` belongs to the footprint or seed tiles of a placement
/// record.
pub open spec fn spec_entry_region(
    entry: (RoomKind, (usize, usize)),
    anchor: Room,
    scatter: Room,
    x: int,
    y: int,
) -> bool {
    spec_room_of(entry, anchor, scatter).spec_in_region(
        entry.1.0 as int,
        entry.1.1 as int,
        x,
        y,
    )
}

/// No tile belongs to the regions of two distinct placements.
pub open spec fn placements_disjoint(
    rooms: Seq<(RoomKind, (usize, usize))>,
    anchor: Room,
    scatter: Room,
) -> bool {
    forall|i: int, j: int, x: int, y: int|
        0 <= i < rooms.len() && 0 <= j < rooms.len() && i != j && #[trigger] spec_entry_region(
            rooms[i],
            anchor,
            scatter,
            x,
            y,
        ) ==> !#[trigger] spec_entry_region(rooms[j], anchor, scatter, x, y)
}

/// Every placement's region holds occupied tiles.
pub open spec fn placements_stamped(
    g: TileArray,
    rooms: Seq<(RoomKind, (usize, usize))>,
    anchor: Room,
    scatter: Room,
) -> bool {
    forall|i: int, x: int, y: int|
        0 <= i < rooms.len() && #[trigger] spec_entry_region(rooms[i], anchor, scatter, x, y)
            ==> g.spec_in_bounds(x, y) && g.at(x, y) != TileKind::Empty
}

impl TileMap {
    /// The grid matches the declared size, and the hallway list holds
    /// exactly the grid's hallway tiles, each once.
    pub open spec fn wf(self) -> bool {
        &&& self.occupied.wf()
        &&& self.occupied.width == self.width
        &&& self.occupied.height == self.height
        &&& forall|x: int, y: int|
            self.occupied.spec_in_bounds(x, y) ==> ((#[trigger] self.occupied.at(x, y))
                == TileKind::Hallway <==> self.hallways@.contains((x as usize, y as usize)))
        &&& forall|k: int|
            0 <= k < self.hallways@.len() ==> self.occupied.spec_in_bounds(
                (#[trigger] self.hallways@[k]).0 as int,
                self.hallways@[k].1 as int,
            )
        &&& self.hallways@.no_duplicates()
    }

    /// A map fresh from `new`: nothing placed, every tile empty.
    pub open spec fn is_blank(self) -> bool {
        &&& self.rooms@.len() == 0
        &&& self.hallways@.len() == 0
        &&& forall|x: int, y: int|
            self.occupied.spec_in_bounds(x, y) ==> #[trigger] self.occupied.at(x, y)
                == TileKind::Empty
    }

    /// Builds an empty map of the given size.
    pub fn new(width: usize, height: usize) -> (r: TileMap)
        requires
            width * height <= usize::MAX,
        ensures
            r.wf(),
            r.width == width,
            r.height == height,
            r.is_blank(),
    {
        let r = TileMap {
            occupied: TileArray::new(width, height),
            rooms: Vec::new(),
            hallways: Vec::new(),
            width,
            height,
        };
        r
    }
}

/// Fills the rectangle `[ox, ox + w) x [oy, oy + h)` with the given room
/// id.
fn stamp_rect(g: &mut TileArray, ox: usize, oy: usize, w: usize, h: usize, id: usize)
    requires
        old(g).wf(),
        ox + w <= old(g).width,
        oy + h <= old(g).height,
    ensures
        final(g).wf(),
        final(g).width == old(g).width,
        final(g).height == old(g).height,
        forall|x: int, y: int|
            final(g).spec_in_bounds(x, y) ==> final(g).at(x, y) == (if ox <= x < ox + w && oy <= y
                < oy + h {
                TileKind::Room(id)
            } else {
                old(g).at(x, y)
            }),
{
    let mut dy: usize = 0;
    while dy < h
        invariant
            g.wf(),
            g.width == old(g).width,
            g.height == old(g).height,
            ox + w <= g.width,
            oy + h <= g.height,
            dy <= h,
            forall|x: int, y: int|
                g.spec_in_bounds(x, y) ==> g.at(x, y) == (if ox <= x < ox + w && oy <= y < oy
                    + dy {
                    TileKind::Room(id)
                } else {
                    old(g).at(x, y)
                }),
        decreases h - dy,
    {
        let mut dx: usize = 0;
        while dx < w
            invariant
                g.wf(),
                g.width == old(g).width,
                g.height == old(g).height,
                ox + w <= g.width,
                oy + h <= g.height,
                dy < h,
                dx <= w,
                forall|x: int, y: int|
                    g.spec_in_bounds(x, y) ==> g.at(x, y) == (if (ox <= x < ox + w && oy <= y < oy
                        + dy) || (y == oy + dy && ox <= x < ox + dx) {
                        TileKind::Room(id)
                    } else {
                        old(g).at(x, y)
                    }),
            decreases w - dx,
        {
            g.set(ox + dx, oy + dy, TileKind::Room(id));
            dx = dx + 1;
        }
        dy = dy + 1;
    }
}

/// Stamps a door on every door tile of the placed room.
fn stamp_doors(g: &mut TileArray, room: &Room, ox: usize, oy: usize)
    requires
        old(g).wf(),
        room.wf(),
        ox + room.width <= old(g).width,
        oy + room.height <= old(g).height,
    ensures
        final(g).wf(),
        final(g).width == old(g).width,
        final(g).height == old(g).height,
        forall|x: int, y: int|
            final(g).spec_in_bounds(x, y) ==> final(g).at(x, y) == (if room.spec_is_door(
                ox as int,
                oy as int,
                x,
                y,
            ) {
                TileKind::Door
            } else {
                old(g).at(x, y)
            }),
{
    proof {
        room.lemma_doors_in_footprint(ox as int, oy as int);
    }
    let mut i: usize = 0;
    while i < room.doors.len()
        invariant
            g.wf(),
            g.width == old(g).width,
            g.height == old(g).height,
            room.wf(),
            ox + room.width <= g.width,
            oy + room.height <= g.height,
            i <= room.doors@.len(),
            forall|x: int, y: int|
                room.spec_is_door(ox as int, oy as int, x, y) ==> room.spec_in_footprint(
                    ox as int,
                    oy as int,
                    x,
                    y,
                ),
            forall|x: int, y: int|
                g.spec_in_bounds(x, y) ==> g.at(x, y) == (if exists|j: int|
                    0 <= j < i && #[trigger] room.spec_door_abs(ox as int, oy as int, j) == (
                    x,
                    y,
                ) {
                    TileKind::Door
                } else {
                    old(g).at(x, y)
                }),
        decreases room.doors@.len() - i,
    {
        let (dx, dy, _d) = room.doors[i];
        proof {
            assert(room.door_wf(i as int));
        }
        let ax: usize = ox + dx;
        let ay: usize = oy + dy;
        let ghost pre = *g;
        g.set(ax, ay, TileKind::Door);
        proof {
            assert(room.spec_door_abs(ox as int, oy as int, i as int) == (ax as int, ay as int));
            assert forall|x: int, y: int|
                g.spec_in_bounds(x, y) implies g.at(x, y) == (if exists|j: int|
                0 <= j < i + 1 && #[trigger] room.spec_door_abs(ox as int, oy as int, j) == (
                x,
                y,
            ) {
                TileKind::Door
            } else {
                old(g).at(x, y)
            }) by {
                if x == ax as int && y == ay as int {
                    assert(room.spec_door_abs(ox as int, oy as int, i as int) == (x, y));
                } else {
                    assert(g.at(x, y) == pre.at(x, y));
                    if exists|j: int|
                        0 <= j < i + 1 && #[trigger] room.spec_door_abs(ox as int, oy as int, j)
                            == (x, y) {
                        let j = choose|j: int|
                            0 <= j < i + 1 && #[trigger] room.spec_door_abs(
                                ox as int,
                                oy as int,
                                j,
                            ) == (x, y);
                        assert(j < i);
                    }
                }
            }
        }
        i = i + 1;
    }
    proof {
        assert forall|x: int, y: int|
            g.spec_in_bounds(x, y) implies g.at(x, y) == (if room.spec_is_door(
            ox as int,
            oy as int,
            x,
            y,
        ) {
            TileKind::Door
        } else {
            old(g).at(x, y)
        }) by {
            if room.spec_is_door(ox as int, oy as int, x, y) {
                let j = choose|j: int|
                    0 <= j < room.doors@.len() && #[trigger] room.spec_door_abs(
                        ox as int,
                        oy as int,
                        j,
                    ) == (x, y);
                assert(0 <= j < i && room.spec_door_abs(ox as int, oy as int, j) == (x, y));
            }
        }
    }
}

impl TileMap {
    /// Stamps a hallway seed outside every door and records each newly
    /// carved seed tile in the hallway list.
    fn stamp_seeds(&mut self, room: &Room, ox: usize, oy: usize)
        requires
            old(self).wf(),
            room.wf(),
            ox + room.width <= old(self).width,
            oy + room.height <= old(self).height,
            forall|i: int|
                0 <= i < room.doors@.len() ==> {
                    let s = #[trigger] room.spec_seed_abs(ox as int, oy as int, i);
                    0 <= s.0 < old(self).width && 0 <= s.1 < old(self).height
                },
            forall|i: int|
                0 <= i < room.doors@.len() ==> {
                    let s = #[trigger] room.spec_seed_abs(ox as int, oy as int, i);
                    old(self).occupied.at(s.0, s.1) == TileKind::Empty || old(self).occupied.at(
                        s.0,
                        s.1,
                    ) == TileKind::Hallway
                },
        ensures
            final(self).wf(),
            final(self).width == old(self).width,
            final(self).height == old(self).height,
            final(self).occupied.width == old(self).occupied.width,
            final(self).occupied.height == old(self).occupied.height,
            final(self).rooms@ == old(self).rooms@,
            old(self).hallways@.is_prefix_of(final(self).hallways@),
            forall|x: int, y: int|
                final(self).occupied.spec_in_bounds(x, y) ==> final(self).occupied.at(x, y) == (
                if room.spec_is_seed(ox as int, oy as int, x, y) {
                    TileKind::Hallway
                } else {
                    old(self).occupied.at(x, y)
                }),
    {
        let mut i: usize = 0;
        while i < room.doors.len()
            invariant
                self.wf(),
                self.width == old(self).width,
                self.height == old(self).height,
                self.rooms@ == old(self).rooms@,
                room.wf(),
                ox + room.width <= self.width,
                oy + room.height <= self.height,
                i <= room.doors@.len(),
                old(self).hallways@.is_prefix_of(self.hallways@),
                forall|j: int|
                    0 <= j < room.doors@.len() ==> {
                        let s = #[trigger] room.spec_seed_abs(ox as int, oy as int, j);
                        0 <= s.0 < self.width && 0 <= s.1 < self.height
                    },
                forall|j: int|
                    0 <= j < room.doors@.len() ==> {
                        let s = #[trigger] room.spec_seed_abs(ox as int, oy as int, j);
                        old(self).occupied.at(s.0, s.1) == TileKind::Empty || old(self).occupied.at(s.0, s.1) == TileKind::Hallway
                    },
                forall|x: int, y: int|
                    self.occupied.spec_in_bounds(x, y) ==> self.occupied.at(x, y) == (if exists|
                        j: int,
                    |
                        0 <= j < i && #[trigger] room.spec_seed_abs(ox as int, oy as int, j) == (
                        x,
                        y,
                    ) {
                        TileKind::Hallway
                    } else {
                        old(self).occupied.at(x, y)
                    }),
            decreases room.doors@.len() - i,
        {
            let (dx, dy, dir) = room.doors[i];
            proof {
                assert(room.door_wf(i as int));
                assert(room.spec_seed_abs(ox as int, oy as int, i as int)
                    == crate::room::spec_seed_pos(
                    ((ox + dx) as int, (oy + dy) as int),
                    room.doors@[i as int].2,
                ));
            }
            let ax: usize = ox + dx;
            let ay: usize = oy + dy;
            let (sx2, sy2): (usize, usize) = match dir {
                Direction::North => (ax, ay + 1),
                Direction::East => (ax + 1, ay),
                Direction::South => (ax, ay - 1),
                Direction::West => (ax - 1, ay),
            };
            proof {
                assert((sx2 as int, sy2 as int) == room.spec_seed_abs(
                    ox as int,
                    oy as int,
                    i as int,
                ));
            }
            let ghost pre = *self;
            let k = self.occupied.get(sx2, sy2);
            if k == TileKind::Empty {
                self.occupied.set(sx2, sy2, TileKind::Hallway);
                self.hallways.push((sx2, sy2));
                proof {
                    assert(self.hallways@[self.hallways@.len() - 1] == (sx2, sy2));
                    assert(self.hallways@.contains((sx2, sy2)));
                    assert(!pre.hallways@.contains((sx2, sy2)));
                    assert forall|x: int, y: int|
                        self.occupied.spec_in_bounds(x, y) implies ((#[trigger] self.occupied.at(
                        x,
                        y,
                    )) == TileKind::Hallway <==> self.hallways@.contains(
                        (x as usize, y as usize),
                    )) by {
                        if x == sx2 as int && y == sy2 as int {
                        } else {
                            assert(self.occupied.at(x, y) == pre.occupied.at(x, y));
                            if self.hallways@.contains((x as usize, y as usize)) {
                                let ki = choose|ki: int|
                                    0 <= ki < self.hallways@.len() && self.hallways@[ki] == (
                                    x as usize,
                                    y as usize,
                                    );
                                assert(ki < pre.hallways@.len());
                                assert(pre.hallways@.contains((x as usize, y as usize)));
                            } else {
                                if pre.hallways@.contains((x as usize, y as usize)) {
                                    let ki = choose|ki: int|
                                        0 <= ki < pre.hallways@.len() && pre.hallways@[ki] == (
                                        x as usize,
                                        y as usize,
                                        );
                                    assert(self.hallways@[ki] == (x as usize, y as usize));
                                    assert(false);
                                }
                            }
                        }
                    }
                }
            } else {
                proof {
                    assert(k == TileKind::Hallway);
                }
            }
            proof {
                assert forall|x: int, y: int|
                    self.occupied.spec_in_bounds(x, y) implies self.occupied.at(x, y) == (if exists|
                    j: int,
                |
                    0 <= j < i + 1 && #[trigger] room.spec_seed_abs(ox as int, oy as int, j) == (
                    x,
                    y,
                ) {
                    TileKind::Hallway
                } else {
                    old(self).occupied.at(x, y)
                }) by {
                    if x == sx2 as int && y == sy2 as int {
                        assert(room.spec_seed_abs(ox as int, oy as int, i as int) == (x, y));
                        assert(self.occupied.at(x, y) == TileKind::Hallway);
                    } else {
                        assert(self.occupied.at(x, y) == pre.occupied.at(x, y));
                        if exists|j: int|
                            0 <= j < i + 1 && #[trigger] room.spec_seed_abs(
                                ox as int,
                                oy as int,
                                j,
                            ) == (x, y) {
                            let j = choose|j: int|
                                0 <= j < i + 1 && #[trigger] room.spec_seed_abs(
                                    ox as int,
                                    oy as int,
                                    j,
                                ) == (x, y);
                            assert(j < i);
                        }
                    }
                }
            }
            i = i + 1;
        }
        proof {
            assert forall|x: int, y: int|
                self.occupied.spec_in_bounds(x, y) implies self.occupied.at(x, y) == (if room.spec_is_seed(
                ox as int,
                oy as int,
                x,
                y,
            ) {
                TileKind::Hallway
            } else {
                old(self).occupied.at(x, y)
            }) by {
                if room.spec_is_seed(ox as int, oy as int, x, y) {
                    let j = choose|j: int|
                        0 <= j < room.doors@.len() && #[trigger] room.spec_seed_abs(
                            ox as int,
                            oy as int,
                            j,
                        ) == (x, y);
                    assert(0 <= j < i && room.spec_seed_abs(ox as int, oy as int, j) == (x, y));
                }
            }
        }
    }

    /// Stamps one room: its footprint with the room id, a door on each door
    /// tile, and a hallway seed outside each door, and records the
    /// placement.
    #[verifier::rlimit(60)]
    fn place_room(&mut self, room: &Room, kind: RoomKind, ox: usize, oy: usize, id: usize)
        requires
            old(self).wf(),
            room.placement_ok(ox as int, oy as int, old(self).width as int, old(self).height as int),
            forall|x: int, y: int|
                #[trigger] room.spec_in_footprint(ox as int, oy as int, x, y) ==> old(self).occupied.at(x, y) == TileKind::Empty,
            forall|i: int|
                0 <= i < room.doors@.len() ==> {
                    let s = #[trigger] room.spec_seed_abs(ox as int, oy as int, i);
                    old(self).occupied.at(s.0, s.1) == TileKind::Empty
                },
            hallways_supported(old(self).occupied),
            dead_ends_doored(old(self).occupied),
        ensures
            final(self).wf(),
            final(self).width == old(self).width,
            final(self).height == old(self).height,
            final(self).rooms@ == old(self).rooms@.push((kind, (ox, oy))),
            old(self).hallways@.is_prefix_of(final(self).hallways@),
            forall|x: int, y: int|
                final(self).occupied.spec_in_bounds(x, y) ==> final(self).occupied.at(x, y)
                    == spec_stamp(*room, ox as int, oy as int, id, old(self).occupied.at(x, y), x, y),
            hallways_supported(final(self).occupied),
            dead_ends_doored(final(self).occupied),
    {
        proof {
            room.lemma_doors_in_footprint(ox as int, oy as int);
            room.lemma_seeds_outside_footprint(ox as int, oy as int);
        }
        let ghost g0 = self.occupied;
        stamp_rect(&mut self.occupied, ox, oy, room.width, room.height, id);
        let ghost g1 = self.occupied;
        stamp_doors(&mut self.occupied, room, ox, oy);
        let ghost g2 = self.occupied;
        proof {
            // the new room and door tiles were empty, so the hallway list
            // still matches the grid
            assert forall|x: int, y: int|
                self.occupied.spec_in_bounds(x, y) implies ((#[trigger] self.occupied.at(x, y))
                == TileKind::Hallway <==> self.hallways@.contains((x as usize, y as usize))) by {
                if room.spec_in_footprint(ox as int, oy as int, x, y) {
                    assert(g0.at(x, y) == TileKind::Empty);
                    assert(!old(self).hallways@.contains((x as usize, y as usize)));
                    assert(self.occupied.at(x, y) != TileKind::Hallway);
                } else {
                    assert(self.occupied.at(x, y) == g0.at(x, y));
                }
            }
            assert(self.wf());
            assert forall|i: int| 0 <= i < room.doors@.len() implies {
                let s = #[trigger] room.spec_seed_abs(ox as int, oy as int, i);
                self.occupied.at(s.0, s.1) == TileKind::Empty || self.occupied.at(s.0, s.1)
                    == TileKind::Hallway
            } by {
                let s = room.spec_seed_abs(ox as int, oy as int, i);
                assert(room.spec_is_seed(ox as int, oy as int, s.0, s.1));
                assert(!room.spec_in_footprint(ox as int, oy as int, s.0, s.1));
                if room.spec_is_door(ox as int, oy as int, s.0, s.1) {
                    assert(room.spec_in_footprint(ox as int, oy as int, s.0, s.1));
                    assert(false);
                }
                assert(self.occupied.at(s.0, s.1) == g0.at(s.0, s.1));
                assert(g0.at(s.0, s.1) == TileKind::Empty);
            }
        }
        self.stamp_seeds(room, ox, oy);
        self.rooms.push((kind, (ox, oy)));
        proof {
            assert forall|x: int, y: int|
                self.occupied.spec_in_bounds(x, y) implies self.occupied.at(x, y) == spec_stamp(
                *room,
                ox as int,
                oy as int,
                id,
                old(self).occupied.at(x, y),
                x,
                y,
            ) by {
                if room.spec_is_seed(ox as int, oy as int, x, y) {
                } else if room.spec_is_door(ox as int, oy as int, x, y) {
                    assert(self.occupied.at(x, y) == g2.at(x, y));
                } else if room.spec_in_footprint(ox as int, oy as int, x, y) {
                    assert(self.occupied.at(x, y) == g2.at(x, y));
                    assert(g2.at(x, y) == g1.at(x, y));
                } else {
                    assert(self.occupied.at(x, y) == g2.at(x, y));
                    assert(g2.at(x, y) == g1.at(x, y));
                    assert(g1.at(x, y) == g0.at(x, y));
                }
            }
            // every hallway tile keeps a hallway or door neighbor
            assert forall|a: int, b: int|
                #[trigger] spec_occ(old(self).occupied, a, b) implies spec_occ(
                self.occupied,
                a,
                b,
            ) by {
                assert(old(self).occupied.at(a, b) == TileKind::Hallway || old(self).occupied.at(
                    a,
                    b,
                ) == TileKind::Door);
                if room.spec_in_footprint(ox as int, oy as int, a, b) {
                    assert(old(self).occupied.at(a, b) == TileKind::Empty);
                    assert(false);
                }
                if room.spec_is_seed(ox as int, oy as int, a, b) {
                    let j = choose|j: int|
                        0 <= j < room.doors@.len() && #[trigger] room.spec_seed_abs(
                            ox as int,
                            oy as int,
                            j,
                        ) == (a, b);
                    assert(old(self).occupied.at(a, b) == TileKind::Empty);
                    assert(false);
                }
            }
            assert forall|x: int, y: int|
                self.occupied.spec_in_bounds(x, y) && #[trigger] self.occupied.at(x, y)
                    == TileKind::Hallway implies spec_occ_count(self.occupied, x, y) >= 1 by {
                if old(self).occupied.spec_in_bounds(x, y) && old(self).occupied.at(x, y)
                    == TileKind::Hallway {
                    crate::tile::lemma_occ_count_monotone(old(self).occupied, self.occupied, x, y);
                } else {
                    // a fresh seed: its own door sits beside it
                    assert(room.spec_is_seed(ox as int, oy as int, x, y));
                    let j = choose|j: int|
                        0 <= j < room.doors@.len() && #[trigger] room.spec_seed_abs(
                            ox as int,
                            oy as int,
                            j,
                        ) == (x, y);
                    let d = room.spec_door_abs(ox as int, oy as int, j);
                    assert(room.door_wf(j));
                    assert(room.spec_in_footprint(ox as int, oy as int, d.0, d.1));
                    assert(room.spec_is_door(ox as int, oy as int, d.0, d.1));
                    assert(!room.spec_is_seed(ox as int, oy as int, d.0, d.1));
                    assert(self.occupied.at(d.0, d.1) == TileKind::Door);
                    assert(spec_occ(self.occupied, d.0, d.1));
                    match room.doors@[j].2 {
                        Direction::North => {
                            assert(d == (x, y - 1));
                        },
                        Direction::East => {
                            assert(d == (x - 1, y));
                        },
                        Direction::South => {
                            assert(d == (x, y + 1));
                        },
                        Direction::West => {
                            assert(d == (x + 1, y));
                        },
                    }
                }
            }
            lemma_stamp_doored(
                old(self).occupied,
                self.occupied,
                *room,
                ox as int,
                oy as int,
                id,
            );
        }
    }
}


/// One carve step extends the processed-prefix description of the grid.
proof fn lemma_carve_prefix(
    g0: TileArray,
    gpre: TileArray,
    gpost: TileArray,
    path: Seq<(usize, usize)>,
    i: int,
    changed: bool,
)
    requires
        0 <= i < path.len(),
        gpre.width == g0.width,
        gpre.height == g0.height,
        gpost.width == gpre.width,
        gpost.height == gpre.height,
        forall|x: int, y: int|
            gpre.spec_in_bounds(x, y) ==> gpre.at(x, y) == (if g0.at(x, y) == TileKind::Empty && (
            exists|j: int| 0 <= j < i && #[trigger] path[j] == (x as usize, y as usize)) {
                TileKind::Hallway
            } else {
                g0.at(x, y)
            }),
        ({
            let cx = path[i].0 as int;
            let cy = path[i].1 as int;
            if changed {
                g0.at(cx, cy) == TileKind::Empty && gpost.at(cx, cy) == TileKind::Hallway && (
                forall|x: int, y: int|
                    gpost.spec_in_bounds(x, y) && !(x == cx && y == cy) ==> gpost.at(x, y)
                        == gpre.at(x, y))
            } else {
                (forall|x: int, y: int|
                    gpost.spec_in_bounds(x, y) ==> gpost.at(x, y) == gpre.at(x, y)) && (g0.at(
                    cx,
                    cy,
                ) != TileKind::Empty || gpre.at(cx, cy) == TileKind::Hallway)
            }
        }),
    ensures
        forall|x: int, y: int|
            gpost.spec_in_bounds(x, y) ==> gpost.at(x, y) == (if g0.at(x, y) == TileKind::Empty
                && (exists|j: int| 0 <= j < i + 1 && #[trigger] path[j] == (x as usize, y as usize)) {
                TileKind::Hallway
            } else {
                g0.at(x, y)
            }),
{
    let cx = path[i].0 as int;
    let cy = path[i].1 as int;
    assert forall|x: int, y: int|
        gpost.spec_in_bounds(x, y) implies gpost.at(x, y) == (if g0.at(x, y) == TileKind::Empty
        && (exists|j: int| 0 <= j < i + 1 && #[trigger] path[j] == (x as usize, y as usize)) {
        TileKind::Hallway
    } else {
        g0.at(x, y)
    }) by {
        if x == cx && y == cy {
            assert(path[i] == (x as usize, y as usize));
            if !changed {
                assert(gpost.at(x, y) == gpre.at(x, y));
                if g0.at(x, y) == TileKind::Empty {
                    assert(gpre.at(x, y) == TileKind::Hallway);
                }
            }
        } else {
            assert(gpost.at(x, y) == gpre.at(x, y));
            if g0.at(x, y) == TileKind::Empty && (exists|j: int|
                0 <= j < i + 1 && #[trigger] path[j] == (x as usize, y as usize)) {
                let j = choose|j: int|
                    0 <= j < i + 1 && #[trigger] path[j] == (x as usize, y as usize);
                assert(j < i);
            }
        }
    }
}

/// Stamping one empty tile beside an occupied one keeps every hallway tile
/// supported.
proof fn lemma_carve_supported(
    gpre: TileArray,
    gpost: TileArray,
    cx: int,
    cy: int,
    px: int,
    py: int,
)
    requires
        gpost.width == gpre.width,
        gpost.height == gpre.height,
        hallways_supported(gpre),
        gpost.spec_in_bounds(cx, cy),
        gpost.spec_in_bounds(px, py),
        crate::tile::spec_adjacent((px, py), (cx, cy)),
        gpost.at(px, py) == TileKind::Hallway || gpost.at(px, py) == TileKind::Door,
        gpre.at(cx, cy) == TileKind::Empty,
        gpost.at(cx, cy) == TileKind::Hallway,
        forall|x: int, y: int|
            gpost.spec_in_bounds(x, y) && !(x == cx && y == cy) ==> gpost.at(x, y) == gpre.at(
                x,
                y,
            ),
    ensures
        hallways_supported(gpost),
{
    assert forall|a: int, b: int| #[trigger] spec_occ(gpre, a, b) implies spec_occ(
        gpost,
        a,
        b,
    ) by {}
    assert forall|x: int, y: int|
        gpost.spec_in_bounds(x, y) && #[trigger] gpost.at(x, y)
            == TileKind::Hallway implies spec_occ_count(gpost, x, y) >= 1 by {
        if x == cx && y == cy {
            assert(spec_occ(gpost, px, py));
        } else {
            assert(gpre.at(x, y) == TileKind::Hallway);
            crate::tile::lemma_occ_count_monotone(gpre, gpost, x, y);
        }
    }
}

/// A carved path tile gains two occupied directions: its two distinct path
/// neighbors are hallway tiles once the carve is done.
proof fn lemma_carved_two_neighbors(
    g0: TileArray,
    g1: TileArray,
    p: Seq<(usize, usize)>,
    j: int,
)
    requires
        g1.width == g0.width,
        g1.height == g0.height,
        p.len() >= 1,
        forall|i: int|
            0 <= i < p.len() ==> g0.spec_in_bounds((#[trigger] p[i]).0 as int, p[i].1 as int),
        forall|i: int|
            0 <= i < p.len() - 1 ==> spec_step(
                g0,
                ConnectRule::Pathing,
                pt(#[trigger] p[i]),
                pt(p[i + 1]),
            ),
        forall|i: int, i2: int| 0 <= i < i2 < p.len() ==> p[i] != p[i2],
        g0.at(p[0].0 as int, p[0].1 as int) == TileKind::Hallway,
        forall|x2: int, y2: int|
            g1.spec_in_bounds(x2, y2) ==> g1.at(x2, y2) == (if g0.at(x2, y2) == TileKind::Empty
                && p.contains((x2 as usize, y2 as usize)) {
                TileKind::Hallway
            } else {
                g0.at(x2, y2)
            }),
        1 <= j < p.len() - 1,
    ensures
        spec_occ_count(g1, p[j].0 as int, p[j].1 as int) >= 2,
{
    let x = p[j].0 as int;
    let y = p[j].1 as int;
    let a = pt(p[j - 1]);
    let b = pt(p[j + 1]);
    assert(spec_step(g0, ConnectRule::Pathing, pt(p[j - 1]), pt(p[j - 1 + 1])));
    assert(spec_step(g0, ConnectRule::Pathing, pt(p[j]), pt(p[j + 1])));
    assert(p.contains(p[j - 1]));
    assert(p.contains(p[j + 1]));
    if j - 1 == 0 {
        assert(g0.at(a.0, a.1) == TileKind::Hallway);
    } else {
        assert(spec_step(g0, ConnectRule::Pathing, pt(p[j - 2]), pt(p[j - 2 + 1])));
    }
    assert(g0.at(a.0, a.1) == TileKind::Empty || g0.at(a.0, a.1) == TileKind::Hallway);
    assert(g1.at(a.0, a.1) == TileKind::Hallway);
    assert(g0.at(b.0, b.1) == TileKind::Empty || g0.at(b.0, b.1) == TileKind::Hallway);
    assert(g1.at(b.0, b.1) == TileKind::Hallway);
    assert(p[j - 1] != p[j + 1]);
    assert(crate::tile::spec_adjacent((x, y), a));
    assert(crate::tile::spec_adjacent((x, y), b));
    lemma_two_adjacent_occupied(g1, x, y, a, b);
}

/// A hallway tile that predates a mark-only grid change and is still a dead
/// end keeps a door beside it.
proof fn lemma_old_tile_doored(g0: TileArray, g1: TileArray, x: int, y: int)
    requires
        g1.width == g0.width,
        g1.height == g0.height,
        g0.spec_in_bounds(x, y),
        g0.at(x, y) == TileKind::Hallway,
        hallways_supported(g0),
        dead_ends_doored(g0),
        forall|a: int, b: int| #[trigger] spec_occ(g0, a, b) ==> spec_occ(g1, a, b),
        forall|a: int, b: int|
            g0.spec_in_bounds(a, b) && #[trigger] g0.at(a, b) == TileKind::Door ==> g1.at(a, b)
                == TileKind::Door,
        spec_occ_count(g1, x, y) == 1,
    ensures
        spec_has_door_neighbor(g1, x, y),
{
    crate::tile::lemma_occ_count_monotone(g0, g1, x, y);
    assert(spec_occ_count(g0, x, y) == 1);
    assert(spec_has_door_neighbor(g0, x, y));
}

/// Carving a corridor path whose both ends are hallway tiles keeps every
/// dead end leaning on a door: carved tiles gain two occupied directions
/// from their path neighbors, and old tiles keep theirs.
#[verifier::rlimit(100)]
#[verifier::spinoff_prover]
proof fn lemma_carve_doored(g0: TileArray, g1: TileArray, p: Seq<(usize, usize)>)
    requires
        g1.width == g0.width,
        g1.height == g0.height,
        p.len() >= 1,
        forall|i: int|
            0 <= i < p.len() ==> g0.spec_in_bounds((#[trigger] p[i]).0 as int, p[i].1 as int),
        forall|i: int|
            0 <= i < p.len() - 1 ==> spec_step(
                g0,
                ConnectRule::Pathing,
                pt(#[trigger] p[i]),
                pt(p[i + 1]),
            ),
        g0.at(p[0].0 as int, p[0].1 as int) == TileKind::Hallway,
        g0.at(p[p.len() - 1].0 as int, p[p.len() - 1].1 as int) == TileKind::Hallway,
        forall|i: int, j: int| 0 <= i < j < p.len() ==> p[i] != p[j],
        hallways_supported(g0),
        dead_ends_doored(g0),
        forall|x2: int, y2: int|
            g1.spec_in_bounds(x2, y2) ==> g1.at(x2, y2) == (if g0.at(x2, y2) == TileKind::Empty
                && p.contains((x2 as usize, y2 as usize)) {
                TileKind::Hallway
            } else {
                g0.at(x2, y2)
            }),
    ensures
        dead_ends_doored(g1),
{
    assert forall|a: int, b: int| #[trigger] spec_occ(g0, a, b) implies spec_occ(g1, a, b) by {
        assert(g0.at(a, b) != TileKind::Empty);
        assert(g1.at(a, b) == g0.at(a, b));
    }
    assert forall|a: int, b: int|
        g0.spec_in_bounds(a, b) && #[trigger] g0.at(a, b)
            == TileKind::Door implies g1.at(a, b) == TileKind::Door by {
        assert(g0.at(a, b) != TileKind::Empty);
        assert(g1.at(a, b) == g0.at(a, b));
    }
    assert forall|x: int, y: int|
        g1.spec_in_bounds(x, y) && #[trigger] g1.at(x, y) == TileKind::Hallway && spec_occ_count(
            g1,
            x,
            y,
        ) == 1 implies spec_has_door_neighbor(g1, x, y) by {
        let tu = (x as usize, y as usize);
        if g0.at(x, y) == TileKind::Empty && p.contains(tu) {
            let j = choose|j: int| 0 <= j < p.len() && p[j] == tu;
            assert(p[0] != tu);
            assert(p[p.len() - 1] != tu);
            assert(1 <= j < p.len() - 1);
            lemma_carved_two_neighbors(g0, g1, p, j);
            assert(false);
        } else {
            assert(g0.at(x, y) == TileKind::Hallway);
            lemma_old_tile_doored(g0, g1, x, y);
        }
    }
}

/// Stamping a room whose target tiles were all empty keeps every dead end
/// leaning on a door: a fresh seed leans on its own door, older tiles keep
/// theirs.
proof fn lemma_stamp_doored(g0: TileArray, g1: TileArray, room: Room, ox: int, oy: int, id: usize)
    requires
        g1.width == g0.width,
        g1.height == g0.height,
        room.placement_ok(ox, oy, g0.width as int, g0.height as int),
        forall|x: int, y: int|
            #[trigger] room.spec_in_footprint(ox, oy, x, y) ==> g0.at(x, y) == TileKind::Empty,
        forall|i: int|
            0 <= i < room.doors@.len() ==> {
                let sd = #[trigger] room.spec_seed_abs(ox, oy, i);
                g0.at(sd.0, sd.1) == TileKind::Empty
            },
        forall|x: int, y: int|
            g1.spec_in_bounds(x, y) ==> g1.at(x, y) == spec_stamp(
                room,
                ox,
                oy,
                id,
                g0.at(x, y),
                x,
                y,
            ),
        hallways_supported(g0),
        dead_ends_doored(g0),
    ensures
        dead_ends_doored(g1),
{
    assert forall|a: int, b: int| #[trigger] spec_occ(g0, a, b) implies spec_occ(g1, a, b) by {
        if room.spec_in_footprint(ox, oy, a, b) {
            assert(g0.at(a, b) == TileKind::Empty);
            assert(false);
        }
        if room.spec_is_seed(ox, oy, a, b) {
            let jj = choose|jj: int|
                0 <= jj < room.doors@.len() && #[trigger] room.spec_seed_abs(ox, oy, jj) == (
                a,
                b,
                );
            assert(g0.at(a, b) == TileKind::Empty);
            assert(false);
        }
    }
    assert forall|a: int, b: int|
        g0.spec_in_bounds(a, b) && #[trigger] g0.at(a, b)
            == TileKind::Door implies g1.at(a, b) == TileKind::Door by {
        if room.spec_is_seed(ox, oy, a, b) {
            let jj = choose|jj: int|
                0 <= jj < room.doors@.len() && #[trigger] room.spec_seed_abs(ox, oy, jj) == (
                a,
                b,
                );
            assert(g0.at(a, b) == TileKind::Empty);
            assert(false);
        } else if room.spec_is_door(ox, oy, a, b) {
        } else if room.spec_in_footprint(ox, oy, a, b) {
            assert(g0.at(a, b) == TileKind::Empty);
            assert(false);
        }
    }
    assert forall|x: int, y: int|
        g1.spec_in_bounds(x, y) && #[trigger] g1.at(x, y) == TileKind::Hallway && spec_occ_count(
            g1,
            x,
            y,
        ) == 1 implies spec_has_door_neighbor(g1, x, y) by {
        if g0.at(x, y) == TileKind::Hallway {
            crate::tile::lemma_occ_count_monotone(g0, g1, x, y);
            assert(spec_occ_count(g0, x, y) == 1);
            assert(spec_has_door_neighbor(g0, x, y));
        } else {
            // a fresh seed: its own door sits beside it
            assert(room.spec_is_seed(ox, oy, x, y));
            let j = choose|j: int|
                0 <= j < room.doors@.len() && #[trigger] room.spec_seed_abs(ox, oy, j) == (x, y);
            let d = room.spec_door_abs(ox, oy, j);
            assert(room.door_wf(j));
            assert(room.spec_in_footprint(ox, oy, d.0, d.1));
            assert(room.spec_is_door(ox, oy, d.0, d.1));
            if room.spec_is_seed(ox, oy, d.0, d.1) {
                let ii = choose|ii: int|
                    0 <= ii < room.doors@.len() && #[trigger] room.spec_seed_abs(ox, oy, ii) == (
                    d.0,
                    d.1,
                    );
                assert(room.door_wf(ii));
                assert(false);
            }
            assert(g1.at(d.0, d.1) == TileKind::Door);
            match room.doors@[j].2 {
                Direction::North => {
                    assert(d == (x, y - 1));
                },
                Direction::East => {
                    assert(d == (x - 1, y));
                },
                Direction::South => {
                    assert(d == (x, y + 1));
                },
                Direction::West => {
                    assert(d == (x + 1, y));
                },
            }
        }
    }
}


/// A hallway tile from which merging cannot proceed: every hallway tile
/// the pathing rule can reach from it already sits in its semantic
/// component, yet some hallway tile lies outside that component.
pub open spec fn spec_merge_stuck(g: TileArray, h: (int, int)) -> bool {
    &&& g.spec_in_bounds(h.0, h.1)
    &&& g.at(h.0, h.1) == TileKind::Hallway
    &&& forall|x: int, y: int|
        g.spec_in_bounds(x, y) && g.at(x, y) == TileKind::Hallway && #[trigger] spec_reach(
            g,
            ConnectRule::Pathing,
            h,
            (x, y),
        ) ==> spec_reach(g, ConnectRule::Semantic, h, (x, y))
    &&& exists|x: int, y: int|
        g.spec_in_bounds(x, y) && #[trigger] g.at(x, y) == TileKind::Hallway && !spec_reach(
            g,
            ConnectRule::Semantic,
            h,
            (x, y),
        )
}

/// A dead end from which attaching cannot proceed: the tile has exactly
/// one occupied direction and no distinct hallway tile is reachable from
/// it under the pathing rule.
pub open spec fn spec_attach_stuck(g: TileArray, h: (int, int)) -> bool {
    &&& g.spec_in_bounds(h.0, h.1)
    &&& g.at(h.0, h.1) == TileKind::Hallway
    &&& spec_occ_count(g, h.0, h.1) == 1
    &&& forall|x: int, y: int|
        g.spec_in_bounds(x, y) && g.at(x, y) == TileKind::Hallway && #[trigger] spec_reach(
            g,
            ConnectRule::Pathing,
            h,
            (x, y),
        ) ==> (x, y) == h
}

/// The corridor repair is genuinely stuck: some hallway tile witnesses a
/// merge or an attach that no carve can perform.
#[verifier::opaque]
pub open spec fn spec_repair_stuck(g: TileArray) -> bool {
    (exists|h: (int, int)| #[trigger] spec_merge_stuck(g, h)) || (exists|h: (int, int)|
        #[trigger] spec_attach_stuck(g, h))
}

/// Every placement's claimed tiles lie inside the grid.
pub open spec fn placements_in_grid(
    rooms: Seq<(RoomKind, (usize, usize))>,
    anchor: Room,
    scatter: Room,
    gw: int,
    gh: int,
) -> bool {
    forall|i: int, x: int, y: int|
        0 <= i < rooms.len() && #[trigger] spec_entry_region(rooms[i], anchor, scatter, x, y)
            ==> 0 <= x < gw && 0 <= y < gh
}


/// What the generator's placements guarantee once the anchor is down: the
/// security room first, at the grid's center, empty rooms after it, every
/// claimed tile inside the grid, and no two placements overlapping.
#[verifier::opaque]
pub open spec fn spec_placements_ok(
    rooms: Seq<(RoomKind, (usize, usize))>,
    catalog: Seq<(RoomKind, Room)>,
    gw: int,
    gh: int,
    limit: int,
) -> bool {
    let anchor = spec_catalog_room(catalog, RoomKind::Security);
    let scatter = spec_catalog_room(catalog, RoomKind::Empty);
    &&& rooms.len() >= 1
    &&& rooms.len() <= 1 + limit
    &&& rooms[0].0 == RoomKind::Security
    &&& pt(rooms[0].1) == (
        spec_anchor_origin(gw, anchor.width as int),
        spec_anchor_origin(gh, anchor.height as int),
    )
    &&& forall|i: int| 1 <= i < rooms.len() ==> (#[trigger] rooms[i]).0 == RoomKind::Empty
    &&& placements_disjoint(rooms, anchor, scatter)
    &&& placements_in_grid(rooms, anchor, scatter, gw, gh)
}

/// A grid change that only turned empty tiles into hallway.
#[verifier::opaque]
pub open spec fn grid_only_carved(g0: TileArray, g1: TileArray) -> bool {
    forall|x: int, y: int|
        g1.spec_in_bounds(x, y) ==> g1.at(x, y) == g0.at(x, y) || (g0.at(x, y)
            == TileKind::Empty && g1.at(x, y) == TileKind::Hallway)
}

/// The dead-end list the repair engine works from: the hallway tiles with
/// exactly one occupied direction, in hallway-list order.
pub open spec fn spec_dead_end_list(g: TileArray, hs: Seq<(usize, usize)>) -> Seq<(usize, usize)>
    decreases hs.len(),
{
    if hs.len() == 0 {
        Seq::empty()
    } else if spec_occ_count(g, hs.last().0 as int, hs.last().1 as int) == 1 {
        spec_dead_end_list(g, hs.drop_last()).push(hs.last())
    } else {
        spec_dead_end_list(g, hs.drop_last())
    }
}

/// Some in-bounds tile holds a hallway.
pub open spec fn has_hallway(g: TileArray) -> bool {
    exists|x: int, y: int|
        g.spec_in_bounds(x, y) && #[trigger] g.at(x, y) == TileKind::Hallway
}

impl TileMap {

    /// Stamps one empty tile as hallway and appends it to the hallway list.
    fn set_hallway(&mut self, x: usize, y: usize)
        requires
            old(self).wf(),
            old(self).occupied.spec_in_bounds(x as int, y as int),
            old(self).occupied.at(x as int, y as int) == TileKind::Empty,
        ensures
            final(self).wf(),
            final(self).width == old(self).width,
            final(self).height == old(self).height,
            final(self).rooms@ == old(self).rooms@,
            final(self).hallways@ == old(self).hallways@.push((x, y)),
            final(self).occupied.at(x as int, y as int) == TileKind::Hallway,
            forall|x2: int, y2: int|
                final(self).occupied.spec_in_bounds(x2, y2) && !(x2 == x as int && y2 == y as int)
                    ==> final(self).occupied.at(x2, y2) == old(self).occupied.at(x2, y2),
            count_empty(final(self).occupied.inner@) + 1 == count_empty(old(self).occupied.inner@),
    {
        proof {
            crate::tile::lemma_idx_bounds(
                self.occupied.width as int,
                self.occupied.height as int,
                x as int,
                y as int,
            );
            lemma_count_empty_update(
                self.occupied.inner@,
                y as int * self.occupied.width + x as int,
                TileKind::Hallway,
            );
        }
        let ghost pre = *self;
        self.occupied.set(x, y, TileKind::Hallway);
        self.hallways.push((x, y));
        proof {
            assert(self.hallways@[self.hallways@.len() - 1] == (x, y));
            assert(self.hallways@.contains((x, y)));
            assert(!pre.hallways@.contains((x, y)));
            assert forall|x2: int, y2: int|
                self.occupied.spec_in_bounds(x2, y2) implies ((#[trigger] self.occupied.at(
                x2,
                y2,
            )) == TileKind::Hallway <==> self.hallways@.contains((x2 as usize, y2 as usize))) by {
                if x2 == x as int && y2 == y as int {
                } else {
                    assert(self.occupied.at(x2, y2) == pre.occupied.at(x2, y2));
                    if self.hallways@.contains((x2 as usize, y2 as usize)) {
                        let ki = choose|ki: int|
                            0 <= ki < self.hallways@.len() && self.hallways@[ki] == (
                            x2 as usize,
                            y2 as usize,
                            );
                        assert(ki < pre.hallways@.len());
                        assert(pre.hallways@.contains((x2 as usize, y2 as usize)));
                    } else {
                        if pre.hallways@.contains((x2 as usize, y2 as usize)) {
                            let ki = choose|ki: int|
                                0 <= ki < pre.hallways@.len() && pre.hallways@[ki] == (
                                x2 as usize,
                                y2 as usize,
                                );
                            assert(self.hallways@[ki] == (x2 as usize, y2 as usize));
                            assert(false);
                        }
                    }
                }
            }
        }
    }

    /// Stamps every empty tile of the path as hallway, records the newly
    /// carved tiles in the hallway list, and returns how many tiles it
    /// carved.
    #[verifier::rlimit(100)]
    fn carve_path(&mut self, path: &Vec<(usize, usize)>) -> (added: usize)
        requires
            old(self).wf(),
            path@.len() >= 1,
            forall|i: int|
                0 <= i < path@.len() ==> old(self).occupied.spec_in_bounds(
                    (#[trigger] path@[i]).0 as int,
                    path@[i].1 as int,
                ),
            old(self).occupied.at(path@[0].0 as int, path@[0].1 as int) == TileKind::Hallway,
            old(self).occupied.at(
                path@[path@.len() - 1].0 as int,
                path@[path@.len() - 1].1 as int,
            ) == TileKind::Hallway,
            forall|i: int|
                0 <= i < path@.len() - 1 ==> spec_step(
                    old(self).occupied,
                    ConnectRule::Pathing,
                    pt(#[trigger] path@[i]),
                    pt(path@[i + 1]),
                ),
            forall|i: int, j: int| 0 <= i < j < path@.len() ==> path@[i] != path@[j],
            hallways_supported(old(self).occupied),
            dead_ends_doored(old(self).occupied),
        ensures
            final(self).wf(),
            final(self).width == old(self).width,
            final(self).height == old(self).height,
            final(self).rooms@ == old(self).rooms@,
            old(self).hallways@.is_prefix_of(final(self).hallways@),
            forall|x: int, y: int|
                final(self).occupied.spec_in_bounds(x, y) ==> final(self).occupied.at(x, y) == (
                if old(self).occupied.at(x, y) == TileKind::Empty && path@.contains(
                    (x as usize, y as usize),
                ) {
                    TileKind::Hallway
                } else {
                    old(self).occupied.at(x, y)
                }),
            hallways_supported(final(self).occupied),
            dead_ends_doored(final(self).occupied),
            count_empty(final(self).occupied.inner@) + added == count_empty(
                old(self).occupied.inner@,
            ),
            added == 0 ==> forall|i: int|
                0 <= i < path@.len() ==> old(self).occupied.at(
                    (#[trigger] path@[i]).0 as int,
                    path@[i].1 as int,
                ) != TileKind::Empty,
    {
        let mut added: usize = 0;
        let mut i: usize = 0;
        while i < path.len()
            invariant
                self.wf(),
                self.width == old(self).width,
                self.height == old(self).height,
                self.occupied.width == old(self).occupied.width,
                self.occupied.height == old(self).occupied.height,
                self.rooms@ == old(self).rooms@,
                old(self).hallways@.is_prefix_of(self.hallways@),
                i <= path@.len(),
                added <= i,
                path@.len() >= 1,
                forall|j: int|
                    0 <= j < path@.len() ==> old(self).occupied.spec_in_bounds(
                        (#[trigger] path@[j]).0 as int,
                        path@[j].1 as int,
                    ),
                old(self).occupied.at(path@[0].0 as int, path@[0].1 as int) == TileKind::Hallway,
                forall|j: int|
                    0 <= j < path@.len() - 1 ==> spec_step(
                        old(self).occupied,
                        ConnectRule::Pathing,
                        pt(#[trigger] path@[j]),
                        pt(path@[j + 1]),
                    ),
                forall|x: int, y: int|
                    self.occupied.spec_in_bounds(x, y) ==> self.occupied.at(x, y) == (if old(self).occupied.at(x, y) == TileKind::Empty && (exists|j: int|
                        0 <= j < i && #[trigger] path@[j] == (x as usize, y as usize)) {
                        TileKind::Hallway
                    } else {
                        old(self).occupied.at(x, y)
                    }),
                forall|j: int|
                    0 <= j < i ==> self.occupied.at(
                        (#[trigger] path@[j]).0 as int,
                        path@[j].1 as int,
                    ) == TileKind::Hallway,
                hallways_supported(self.occupied),
                count_empty(self.occupied.inner@) + added == count_empty(
                    old(self).occupied.inner@,
                ),
                added == 0 ==> forall|j: int|
                    0 <= j < i ==> old(self).occupied.at(
                        (#[trigger] path@[j]).0 as int,
                        path@[j].1 as int,
                    ) != TileKind::Empty,
            decreases path@.len() - i,
        {
            let t = path[i];
            let (cx, cy): (usize, usize) = t;
            let ghost pre = *self;
            let k = self.occupied.get(cx, cy);
            if k == TileKind::Empty {
                proof {
                    // the path start is a hallway tile, so this is not it
                    assert(old(self).occupied.at(cx as int, cy as int) == TileKind::Empty);
                    if i == 0 {
                        assert(false);
                    }
                }
                self.set_hallway(cx, cy);
                added = added + 1;
                proof {
                    // the freshly carved tile leans on its path predecessor
                    let prev = pt(path@[i - 1]);
                    assert(spec_step(
                        old(self).occupied,
                        ConnectRule::Pathing,
                        prev,
                        pt(path@[i - 1 + 1]),
                    ));
                    assert(pre.occupied.at(prev.0, prev.1) == TileKind::Hallway);
                    assert(self.occupied.at(prev.0, prev.1) == TileKind::Hallway);
                    lemma_carve_supported(
                        pre.occupied,
                        self.occupied,
                        cx as int,
                        cy as int,
                        prev.0,
                        prev.1,
                    );
                    lemma_carve_prefix(
                        old(self).occupied,
                        pre.occupied,
                        self.occupied,
                        path@,
                        i as int,
                        true,
                    );
                }
            } else {
                proof {
                    if old(self).occupied.at(cx as int, cy as int) == TileKind::Empty {
                        assert(self.occupied.at(cx as int, cy as int) == TileKind::Hallway
                            || self.occupied.at(cx as int, cy as int) == old(self).occupied.at(
                            cx as int,
                            cy as int,
                        ));
                        assert(k == TileKind::Hallway);
                    } else {
                        if i > 0 {
                            assert(spec_step(
                                old(self).occupied,
                                ConnectRule::Pathing,
                                pt(path@[i - 1]),
                                pt(path@[i - 1 + 1]),
                            ));
                            assert(old(self).occupied.at(cx as int, cy as int)
                                == TileKind::Hallway);
                        }
                        assert(self.occupied.at(cx as int, cy as int) == old(self).occupied.at(
                            cx as int,
                            cy as int,
                        ));
                        assert(k == TileKind::Hallway);
                    }
                    lemma_carve_prefix(
                        old(self).occupied,
                        pre.occupied,
                        self.occupied,
                        path@,
                        i as int,
                        false,
                    );
                }
            }
            i = i + 1;
        }
        proof {
            assert forall|x: int, y: int|
                self.occupied.spec_in_bounds(x, y) implies self.occupied.at(x, y) == (if old(self).occupied.at(x, y) == TileKind::Empty && path@.contains((x as usize, y as usize)) {
                TileKind::Hallway
            } else {
                old(self).occupied.at(x, y)
            }) by {
                if old(self).occupied.at(x, y) == TileKind::Empty && path@.contains(
                    (x as usize, y as usize),
                ) {
                    let j = choose|j: int|
                        0 <= j < path@.len() && path@[j] == (x as usize, y as usize);
                    assert(0 <= j < i && path@[j] == (x as usize, y as usize));
                } else {
                    if exists|j: int| 0 <= j < i && #[trigger] path@[j] == (x as usize, y as usize) {
                        let j = choose|j: int|
                            0 <= j < i && #[trigger] path@[j] == (x as usize, y as usize);
                        assert(path@.contains((x as usize, y as usize)));
                    }
                }
            }
            lemma_carve_doored(old(self).occupied, self.occupied, path@);
        }
        added
    }

    /// The hallway tiles whose classification resolves to exactly one
    /// cardinal direction: the dead ends the repair engine must resolve,
    /// kept in the order of the hallway list.
    pub fn get_single_hallways(&self) -> (r: Vec<(usize, usize)>)
        requires
            self.wf(),
        ensures
            r@ == spec_dead_end_list(self.occupied, self.hallways@),
            forall|j: int|
                0 <= j < r@.len() ==> {
                    let t = #[trigger] r@[j];
                    &&& self.occupied.spec_in_bounds(t.0 as int, t.1 as int)
                    &&& self.occupied.at(t.0 as int, t.1 as int) == TileKind::Hallway
                    &&& spec_occ_count(self.occupied, t.0 as int, t.1 as int) == 1
                },
            forall|k: int|
                0 <= k < self.hallways@.len() && spec_occ_count(
                    self.occupied,
                    (#[trigger] self.hallways@[k]).0 as int,
                    self.hallways@[k].1 as int,
                ) == 1 ==> r@.contains(self.hallways@[k]),
            r@.len() == 0 ==> no_dead_ends(self.occupied),
    {
        let mut r: Vec<(usize, usize)> = Vec::new();
        let mut k: usize = 0;
        while k < self.hallways.len()
            invariant
                self.wf(),
                k <= self.hallways@.len(),
                r@ == spec_dead_end_list(self.occupied, self.hallways@.take(k as int)),
                forall|j: int|
                    0 <= j < r@.len() ==> {
                        let t = #[trigger] r@[j];
                        &&& self.occupied.spec_in_bounds(t.0 as int, t.1 as int)
                        &&& self.occupied.at(t.0 as int, t.1 as int) == TileKind::Hallway
                        &&& spec_occ_count(self.occupied, t.0 as int, t.1 as int) == 1
                    },
                forall|kk: int|
                    0 <= kk < k && spec_occ_count(
                        self.occupied,
                        (#[trigger] self.hallways@[kk]).0 as int,
                        self.hallways@[kk].1 as int,
                    ) == 1 ==> r@.contains(self.hallways@[kk]),
            decreases self.hallways@.len() - k,
        {
            let t = self.hallways[k];
            let ghost pre_r = r@;
            proof {
                assert(self.hallways@.contains(self.hallways@[k as int]));
                lemma_single_iff_count_one(self.occupied, t.0 as int, t.1 as int);
            }
            let hk = self.occupied.hallway_kind(t.0, t.1);
            let single = match hk {
                HallwayKind::North => true,
                HallwayKind::East => true,
                HallwayKind::South => true,
                HallwayKind::West => true,
                _ => false,
            };
            if single {
                r.push(t);
                proof {
                    assert(r@[r@.len() - 1] == t);
                    assert(r@.contains(t));
                }
            }
            proof {
                assert(self.hallways@.take(k + 1).drop_last() =~= self.hallways@.take(k as int));
                assert(self.hallways@.take(k + 1).last() == self.hallways@[k as int]);
                assert forall|kk: int|
                    0 <= kk < k + 1 && spec_occ_count(
                        self.occupied,
                        (#[trigger] self.hallways@[kk]).0 as int,
                        self.hallways@[kk].1 as int,
                    ) == 1 implies r@.contains(self.hallways@[kk]) by {
                    if kk < k {
                        assert(pre_r.contains(self.hallways@[kk]));
                        let j = choose|j: int|
                            0 <= j < pre_r.len() && pre_r[j] == self.hallways@[kk];
                        assert(r@[j] == self.hallways@[kk]);
                    } else {
                        assert(r@.contains(t));
                    }
                }
            }
            k = k + 1;
        }
        proof {
            assert(self.hallways@.take(self.hallways@.len() as int) =~= self.hallways@);
            if r@.len() == 0 {
                assert forall|x: int, y: int|
                    self.occupied.spec_in_bounds(x, y) && #[trigger] self.occupied.at(x, y)
                        == TileKind::Hallway implies spec_occ_count(self.occupied, x, y) != 1 by {
                    assert(self.hallways@.contains((x as usize, y as usize)));
                    let kk = choose|kk: int|
                        0 <= kk < self.hallways@.len() && self.hallways@[kk] == (
                        x as usize,
                        y as usize,
                        );
                    if spec_occ_count(self.occupied, x, y) == 1 {
                        assert(r@.contains(self.hallways@[kk]));
                        assert(false);
                    }
                }
            }
        }
        r
    }

    /// The connected components of the occupied tiles, each reduced to its
    /// hallway members. The list has exactly one entry precisely when the
    /// grid holds a hallway tile and all hallway tiles reach one another.
    pub fn connected_hallways(&self) -> (r: Vec<Vec<(usize, usize)>>)
        requires
            self.wf(),
        ensures
            comps_nonempty(r@),
            comps_members_ok(self.occupied, r@),
            comps_mutual(self.occupied, r@),
            comps_cover(self.occupied, r@),
            comps_separated(self.occupied, r@),
            r@.len() == 1 <==> (has_hallway(self.occupied) && hallways_connected(self.occupied)),
    {
        let comps = hallway_components(&self.occupied);
        proof {
            let g = self.occupied;
            if comps@.len() == 1 {
                let t0 = comps@[0]@[0];
                assert(g.at(t0.0 as int, t0.1 as int) == TileKind::Hallway);
                assert(has_hallway(g));
                assert forall|ax: int, ay: int, bx: int, by: int|
                    g.spec_in_bounds(ax, ay) && g.spec_in_bounds(bx, by) && #[trigger] g.at(ax, ay)
                        == TileKind::Hallway && #[trigger] g.at(bx, by)
                        == TileKind::Hallway implies spec_reach(
                    g,
                    ConnectRule::Semantic,
                    (ax, ay),
                    (bx, by),
                ) by {
                    let ia = choose|ia: int|
                        0 <= ia < comps@.len() && #[trigger] comps@[ia]@.contains(
                            (ax as usize, ay as usize),
                        );
                    let ib = choose|ib: int|
                        0 <= ib < comps@.len() && #[trigger] comps@[ib]@.contains(
                            (bx as usize, by as usize),
                        );
                    assert(ia == 0 && ib == 0);
                    let ja = choose|ja: int|
                        0 <= ja < comps@[0]@.len() && comps@[0]@[ja] == (ax as usize, ay as usize);
                    let jb = choose|jb: int|
                        0 <= jb < comps@[0]@.len() && comps@[0]@[jb] == (bx as usize, by as usize);
                    assert(spec_reach(
                        g,
                        ConnectRule::Semantic,
                        pt(comps@[0]@[ja]),
                        pt(comps@[0]@[jb]),
                    ));
                }
                assert(hallways_connected(g));
            }
            if has_hallway(g) && hallways_connected(g) {
                let (hx, hy) = choose|hx: int, hy: int|
                    g.spec_in_bounds(hx, hy) && #[trigger] g.at(hx, hy) == TileKind::Hallway;
                let ih = choose|ih: int|
                    0 <= ih < comps@.len() && #[trigger] comps@[ih]@.contains(
                        (hx as usize, hy as usize),
                    );
                assert(comps@.len() >= 1);
                if comps@.len() >= 2 {
                    let t0 = comps@[0]@[0];
                    let t1 = comps@[1]@[0];
                    assert(g.at(t0.0 as int, t0.1 as int) == TileKind::Hallway);
                    assert(g.at(t1.0 as int, t1.1 as int) == TileKind::Hallway);
                    assert(spec_reach(g, ConnectRule::Semantic, pt(t0), pt(t1)));
                    assert(!spec_reach(
                        g,
                        ConnectRule::Semantic,
                        pt(comps@[0]@[0]),
                        pt(comps@[1]@[0]),
                    ));
                    assert(false);
                }
            }
        }
        comps
    }
}

/// The anchor origin along one axis: grid midpoint minus half the room,
/// with integer floor.
pub open spec fn spec_anchor_origin(gdim: int, rdim: int) -> int {
    gdim / 2 - rdim / 2
}

/// The anchor template can be placed at the grid's center: it is
/// well-formed, carries at least one door, and its footprint and seeds all
/// land inside the grid.
pub open spec fn anchor_fits(room: Room, gw: int, gh: int) -> bool {
    &&& room.wf()
    &&& room.doors@.len() >= 1
    &&& room.width <= gw
    &&& room.height <= gh
    &&& room.placement_ok(
        spec_anchor_origin(gw, room.width as int),
        spec_anchor_origin(gh, room.height as int),
        gw,
        gh,
    )
}

/// The scatter template leaves a non-empty origin range `[1, gw - w)` on
/// both axes and carries at least one door.
pub open spec fn scatter_fits(room: Room, gw: int, gh: int) -> bool {
    &&& room.wf()
    &&& room.doors@.len() >= 1
    &&& room.width + 2 <= gw
    &&& room.height + 2 <= gh
}

/// The whole configuration is usable: the catalog holds a fitting anchor
/// template and, when scattered rooms are asked for, a fitting scatter
/// template.
pub open spec fn spec_config_ok(
    catalog: Seq<(RoomKind, Room)>,
    gw: int,
    gh: int,
    scatter_wanted: bool,
) -> bool {
    &&& catalog_has(catalog, RoomKind::Security)
    &&& anchor_fits(spec_catalog_room(catalog, RoomKind::Security), gw, gh)
    &&& (scatter_wanted ==> catalog_has(catalog, RoomKind::Empty) && scatter_fits(
        spec_catalog_room(catalog, RoomKind::Empty),
        gw,
        gh,
    ))
}

/// Any origin from the scatter range yields an in-grid placement.
proof fn lemma_scatter_range_fits(room: Room, ox: int, oy: int, gw: int, gh: int)
    requires
        room.wf(),
        1 <= ox,
        ox + room.width < gw,
        1 <= oy,
        oy + room.height < gh,
    ensures
        room.placement_ok(ox, oy, gw, gh),
{
    assert forall|i: int| 0 <= i < room.doors@.len() implies {
        let s = #[trigger] room.spec_seed_abs(ox, oy, i);
        0 <= s.0 < gw && 0 <= s.1 < gh
    } by {
        assert(room.door_wf(i));
    }
}

/// A corridor path whose tiles are all hallway links its ends under the
/// semantic rule as well.
proof fn lemma_hallway_path_reach(g: TileArray, p: Seq<(usize, usize)>, i: int)
    requires
        0 <= i < p.len(),
        forall|j: int|
            0 <= j < p.len() ==> g.spec_in_bounds((#[trigger] p[j]).0 as int, p[j].1 as int),
        forall|j: int|
            0 <= j < p.len() - 1 ==> spec_step(
                g,
                ConnectRule::Pathing,
                pt(#[trigger] p[j]),
                pt(p[j + 1]),
            ),
        forall|j: int|
            0 <= j < p.len() ==> g.at((#[trigger] p[j]).0 as int, p[j].1 as int)
                == TileKind::Hallway,
    ensures
        spec_reach(g, ConnectRule::Semantic, pt(p[0]), pt(p[i])),
    decreases i,
{
    if i == 0 {
        assert(crate::tile::spec_reach_n(g, ConnectRule::Semantic, pt(p[0]), pt(p[0]), 0));
    } else {
        lemma_hallway_path_reach(g, p, i - 1);
        assert(spec_step(g, ConnectRule::Pathing, pt(p[i - 1]), pt(p[i - 1 + 1])));
        assert(spec_step(g, ConnectRule::Semantic, pt(p[i - 1]), pt(p[i])));
        let a0 = pt(p[0]);
        let a1 = pt(p[i - 1]);
        let n = choose|n: nat| crate::tile::spec_reach_n(g, ConnectRule::Semantic, a0, a1, n);
        crate::tile::lemma_reach_step_right(
            g,
            ConnectRule::Semantic,
            pt(p[0]),
            pt(p[i - 1]),
            pt(p[i]),
            n,
        );
    }
}

/// Copies a tile list.
fn copy_tiles(v: &Vec<(usize, usize)>) -> (r: Vec<(usize, usize)>)
    ensures
        r@ == v@,
{
    let mut r: Vec<(usize, usize)> = Vec::new();
    let mut i: usize = 0;
    while i < v.len()
        invariant
            i <= v@.len(),
            r@ == v@.take(i as int),
        decreases v@.len() - i,
    {
        r.push(v[i]);
        proof {
            assert(v@.take(i + 1) =~= v@.take(i as int).push(v@[i as int]));
        }
        i = i + 1;
    }
    proof {
        assert(v@.take(v@.len() as int) =~= v@);
    }
    r
}

/// Checks that a placement's footprint and seed tiles all lie inside a
/// `gw` by `gh` grid.
fn placement_fits(room: &Room, ox: usize, oy: usize, gw: usize, gh: usize) -> (r: bool)
    requires
        room.wf(),
    ensures
        r == room.placement_ok(ox as int, oy as int, gw as int, gh as int),
{
    if room.width > gw || ox > gw - room.width {
        return false;
    }
    if room.height > gh || oy > gh - room.height {
        return false;
    }
    let mut i: usize = 0;
    while i < room.doors.len()
        invariant
            room.wf(),
            i <= room.doors@.len(),
            ox + room.width <= gw,
            oy + room.height <= gh,
            forall|j: int| 0 <= j < i ==> {
                let s = #[trigger] room.spec_seed_abs(ox as int, oy as int, j);
                0 <= s.0 < gw && 0 <= s.1 < gh
            },
        decreases room.doors@.len() - i,
    {
        let (dx, dy, dir) = room.doors[i];
        proof {
            assert(room.door_wf(i as int));
        }
        let ax: usize = ox + dx;
        let ay: usize = oy + dy;
        let ok: bool = match dir {
            Direction::North => ay + 1 < gh,
            Direction::East => ax + 1 < gw,
            Direction::South => ay >= 1,
            Direction::West => ax >= 1,
        };
        if !ok {
            proof {
                let s = room.spec_seed_abs(ox as int, oy as int, i as int);
                assert(!(0 <= s.0 < gw && 0 <= s.1 < gh));
            }
            return false;
        }
        i = i + 1;
    }
    true
}

impl TileMap {
    /// Whether any target tile of the placement, footprint or seed, is
    /// already occupied.
    fn region_blocked(&self, room: &Room, ox: usize, oy: usize) -> (r: bool)
        requires
            self.wf(),
            room.placement_ok(ox as int, oy as int, self.width as int, self.height as int),
        ensures
            !r == ((forall|x: int, y: int|
                #[trigger] room.spec_in_footprint(ox as int, oy as int, x, y)
                    ==> self.occupied.at(x, y) == TileKind::Empty) && (forall|i: int|
                0 <= i < room.doors@.len() ==> {
                    let s = #[trigger] room.spec_seed_abs(ox as int, oy as int, i);
                    self.occupied.at(s.0, s.1) == TileKind::Empty
                })),
    {
        let mut dy: usize = 0;
        while dy < room.height
            invariant
                self.wf(),
                room.placement_ok(ox as int, oy as int, self.width as int, self.height as int),
                dy <= room.height,
                forall|x: int, y: int|
                    #[trigger] room.spec_in_footprint(ox as int, oy as int, x, y) && y < oy + dy
                        ==> self.occupied.at(x, y) == TileKind::Empty,
            decreases room.height - dy,
        {
            let mut dx: usize = 0;
            while dx < room.width
                invariant
                    self.wf(),
                    room.placement_ok(ox as int, oy as int, self.width as int, self.height as int),
                    dy < room.height,
                    dx <= room.width,
                    forall|x: int, y: int|
                        #[trigger] room.spec_in_footprint(ox as int, oy as int, x, y) && (y < oy
                            + dy || (y == oy + dy && x < ox + dx)) ==> self.occupied.at(x, y)
                            == TileKind::Empty,
                decreases room.width - dx,
            {
                if self.occupied.get(ox + dx, oy + dy) != TileKind::Empty {
                    proof {
                        assert(room.spec_in_footprint(
                            ox as int,
                            oy as int,
                            (ox + dx) as int,
                            (oy + dy) as int,
                        ));
                    }
                    return true;
                }
                dx = dx + 1;
            }
            dy = dy + 1;
        }
        let mut i: usize = 0;
        while i < room.doors.len()
            invariant
                self.wf(),
                room.placement_ok(ox as int, oy as int, self.width as int, self.height as int),
                i <= room.doors@.len(),
                forall|x: int, y: int|
                    #[trigger] room.spec_in_footprint(ox as int, oy as int, x, y)
                        ==> self.occupied.at(x, y) == TileKind::Empty,
                forall|j: int| 0 <= j < i ==> {
                    let s = #[trigger] room.spec_seed_abs(ox as int, oy as int, j);
                    self.occupied.at(s.0, s.1) == TileKind::Empty
                },
            decreases room.doors@.len() - i,
        {
            let (dx2, dy2, dir) = room.doors[i];
            proof {
                assert(room.door_wf(i as int));
                let s = room.spec_seed_abs(ox as int, oy as int, i as int);
                assert(0 <= s.0 < self.width && 0 <= s.1 < self.height);
            }
            let ax: usize = ox + dx2;
            let ay: usize = oy + dy2;
            let (sx2, sy2): (usize, usize) = match dir {
                Direction::North => (ax, ay + 1),
                Direction::East => (ax + 1, ay),
                Direction::South => (ax, ay - 1),
                Direction::West => (ax - 1, ay),
            };
            proof {
                assert((sx2 as int, sy2 as int) == room.spec_seed_abs(
                    ox as int,
                    oy as int,
                    i as int,
                ));
            }
            if self.occupied.get(sx2, sy2) != TileKind::Empty {
                return true;
            }
            i = i + 1;
        }
        false
    }
}

/// Checks the whole configuration: a fitting anchor template under the
/// security key and, when scattered rooms are wanted, a fitting scatter
/// template under the empty key.
fn config_check(catalog: &Vec<(RoomKind, Room)>, gw: usize, gh: usize, want_scatter: bool) -> (r:
    bool)
    requires
        forall|i: int| 0 <= i < catalog@.len() ==> (#[trigger] catalog@[i]).1.wf(),
    ensures
        r == spec_config_ok(catalog@, gw as int, gh as int, want_scatter),
{
    let anchor_i = match catalog_find(catalog, RoomKind::Security) {
        Option::None => {
            return false;
        },
        Option::Some(ii) => ii,
    };
    proof {
        lemma_catalog_index(catalog@, RoomKind::Security, anchor_i as int);
    }
    let anchor: &Room = &catalog[anchor_i].1;
    if anchor.doors.len() == 0 {
        return false;
    }
    if anchor.width > gw || anchor.height > gh {
        return false;
    }
    proof {
        vstd::arithmetic::div_mod::lemma_div_is_ordered(
            anchor.width as int,
            gw as int,
            2,
        );
        vstd::arithmetic::div_mod::lemma_div_is_ordered(
            anchor.height as int,
            gh as int,
            2,
        );
    }
    let aox: usize = gw / 2 - anchor.width / 2;
    let aoy: usize = gh / 2 - anchor.height / 2;
    if !placement_fits(anchor, aox, aoy, gw, gh) {
        return false;
    }
    if want_scatter {
        let scatter_i = match catalog_find(catalog, RoomKind::Empty) {
            Option::None => {
                return false;
            },
            Option::Some(ii) => ii,
        };
        proof {
            lemma_catalog_index(catalog@, RoomKind::Empty, scatter_i as int);
        }
        let sc: &Room = &catalog[scatter_i].1;
        if sc.doors.len() == 0 {
            return false;
        }
        if sc.width > gw || gw - sc.width < 2 || sc.height > gh || gh - sc.height < 2 {
            return false;
        }
    }
    true
}

impl TileMap {
    /// Runs the full generation with the given scattered-room origins:
    /// checks the configuration, stamps the anchor room at the grid's
    /// center, stamps each scattered room whose target tiles are all free,
    /// and repairs the corridor network until it is one connected component
    /// without dead ends. Overlap-blocked scatter attempts are skipped
    /// silently; nothing is stamped before every configuration check has
    /// passed.
    #[verifier::rlimit(100)]
    pub fn generate_from(
        &mut self,
        catalog: &Vec<(RoomKind, Room)>,
        origins: &Vec<(usize, usize)>,
    ) -> (r: Result<(), MapGenError>)
        requires
            old(self).wf(),
            old(self).is_blank(),
            forall|i: int| 0 <= i < catalog@.len() ==> (#[trigger] catalog@[i]).1.wf(),
            origins@.len() > 0 && catalog_has(catalog@, RoomKind::Empty) ==> (forall|k: int|
                0 <= k < origins@.len() ==> {
                    let o = #[trigger] origins@[k];
                    let sc = spec_catalog_room(catalog@, RoomKind::Empty);
                    1 <= o.0 && o.0 + sc.width < old(self).width && 1 <= o.1 && o.1 + sc.height
                        < old(self).height
                }),
        ensures
            final(self).width == old(self).width,
            final(self).height == old(self).height,
            match r {
                Result::Ok(u) => spec_config_ok(
                    catalog@,
                    old(self).width as int,
                    old(self).height as int,
                    origins@.len() > 0,
                ) && final(self).wf() && has_hallway(final(self).occupied) && hallways_connected(
                    final(self).occupied,
                ) && hallways_supported(final(self).occupied) && no_dead_ends(
                    final(self).occupied,
                ) && spec_placements_ok(
                    final(self).rooms@,
                    catalog@,
                    old(self).width as int,
                    old(self).height as int,
                    origins@.len() as int,
                ) && final(self).hallways@.len() >= 1,
                Result::Err(e) => if e == MapGenError::ConfigurationError {
                    !spec_config_ok(
                        catalog@,
                        old(self).width as int,
                        old(self).height as int,
                        origins@.len() > 0,
                    ) && final(self).occupied.inner@ == old(self).occupied.inner@ && final(self).rooms@ == old(self).rooms@ && final(self).hallways@ == old(self).hallways@
                } else {
                    spec_config_ok(
                        catalog@,
                        old(self).width as int,
                        old(self).height as int,
                        origins@.len() > 0,
                    ) && final(self).wf() && hallways_supported(final(self).occupied)
                        && spec_placements_ok(
                        final(self).rooms@,
                        catalog@,
                        old(self).width as int,
                        old(self).height as int,
                        origins@.len() as int,
                    ) && final(self).hallways@.len() >= 1 && spec_repair_stuck(final(self).occupied)
                },
            },
    {
        let gw = self.width;
        let gh = self.height;
        // reject any bad configuration before touching the grid
        if !config_check(catalog, gw, gh, origins.len() > 0) {
            return Result::Err(MapGenError::ConfigurationError);
        }
        let anchor_i = match catalog_find(catalog, RoomKind::Security) {
            Option::None => {
                // unreachable: the configuration check found this entry
                proof {
                    assert(false);
                }
                return Result::Err(MapGenError::ConfigurationError);
            },
            Option::Some(ii) => ii,
        };
        proof {
            lemma_catalog_index(catalog@, RoomKind::Security, anchor_i as int);
        }
        let anchor: &Room = &catalog[anchor_i].1;
        let ghost anchor_room = *anchor;
        proof {
            vstd::arithmetic::div_mod::lemma_div_is_ordered(anchor.width as int, gw as int, 2);
            vstd::arithmetic::div_mod::lemma_div_is_ordered(anchor.height as int, gh as int, 2);
        }
        let aox: usize = gw / 2 - anchor.width / 2;
        let aoy: usize = gh / 2 - anchor.height / 2;
        proof {
            assert(aox as int == spec_anchor_origin(gw as int, anchor.width as int));
            assert(aoy as int == spec_anchor_origin(gh as int, anchor.height as int));
            assert(anchor.placement_ok(aox as int, aoy as int, gw as int, gh as int));
            // a blank grid satisfies every emptiness precondition
            assert forall|x: int, y: int|
                #[trigger] anchor_room.spec_in_footprint(aox as int, aoy as int, x, y) implies self.occupied.at(
                x,
                y,
            ) == TileKind::Empty by {
                assert(self.occupied.spec_in_bounds(x, y));
            }
            assert forall|i: int| 0 <= i < anchor_room.doors@.len() implies {
                let sd = #[trigger] anchor_room.spec_seed_abs(aox as int, aoy as int, i);
                self.occupied.at(sd.0, sd.1) == TileKind::Empty
            } by {
                let sd = anchor_room.spec_seed_abs(aox as int, aoy as int, i);
                assert(self.occupied.spec_in_bounds(sd.0, sd.1));
            }
            assert forall|x: int, y: int|
                self.occupied.spec_in_bounds(x, y) && #[trigger] self.occupied.at(x, y)
                    == TileKind::Hallway implies spec_occ_count(self.occupied, x, y) >= 1 by {
                assert(false);
            }
            assert forall|x: int, y: int|
                self.occupied.spec_in_bounds(x, y) && #[trigger] self.occupied.at(x, y)
                    == TileKind::Hallway && spec_occ_count(self.occupied, x, y)
                    == 1 implies spec_has_door_neighbor(self.occupied, x, y) by {
                assert(false);
            }
        }
        self.place_room(anchor, RoomKind::Security, aox, aoy, 0);
        let ghost scatter_room = spec_catalog_room(catalog@, RoomKind::Empty);
        proof {
            // the first seed of the anchor proves the hallway list nonempty
            let sd = anchor_room.spec_seed_abs(aox as int, aoy as int, 0);
            assert(anchor_room.spec_is_seed(aox as int, aoy as int, sd.0, sd.1));
            assert(self.occupied.at(sd.0, sd.1) == TileKind::Hallway);
            assert(self.hallways@.contains((sd.0 as usize, sd.1 as usize)));
            let ki = choose|ki: int|
                0 <= ki < self.hallways@.len() && self.hallways@[ki] == (
                sd.0 as usize,
                sd.1 as usize,
                );
            assert(self.hallways@.len() >= 1);
            // the anchor placement region is stamped
            assert forall|ii: int, x: int, y: int|
                0 <= ii < self.rooms@.len() && #[trigger] spec_entry_region(
                    self.rooms@[ii],
                    anchor_room,
                    scatter_room,
                    x,
                    y,
                ) implies self.occupied.spec_in_bounds(x, y) && self.occupied.at(x, y)
                != TileKind::Empty by {
                assert(self.rooms@[ii] == (RoomKind::Security, (aox, aoy)));
                assert(spec_room_of(self.rooms@[ii], anchor_room, scatter_room) == anchor_room);
                if anchor_room.spec_is_seed(aox as int, aoy as int, x, y) {
                    let j = choose|j: int|
                        0 <= j < anchor_room.doors@.len() && #[trigger] anchor_room.spec_seed_abs(
                            aox as int,
                            aoy as int,
                            j,
                        ) == (x, y);
                    assert(self.occupied.at(x, y) == TileKind::Hallway);
                } else {
                    assert(anchor_room.spec_in_footprint(aox as int, aoy as int, x, y));
                }
            }
        }
        // scattered rooms: draw an origin per attempt, skip blocked targets
        if origins.len() > 0 {
            let scatter_i = match catalog_find(catalog, RoomKind::Empty) {
                Option::None => {
                    // unreachable: the configuration check found this entry
                    proof {
                        assert(false);
                    }
                    return Result::Err(MapGenError::ConfigurationError);
                },
                Option::Some(ii) => ii,
            };
            proof {
                lemma_catalog_index(catalog@, RoomKind::Empty, scatter_i as int);
            }
            let sc: &Room = &catalog[scatter_i].1;
            let mut k: usize = 0;
            while k < origins.len()
                invariant
                    self.wf(),
                    self.width == gw,
                    self.height == gh,
                    gw == old(self).width,
                    gh == old(self).height,
                    k <= origins@.len(),
                    *sc == scatter_room,
                    sc.wf(),
                    scatter_fits(scatter_room, gw as int, gh as int),
                    forall|kk: int|
                        0 <= kk < origins@.len() ==> {
                            let o = #[trigger] origins@[kk];
                            1 <= o.0 && o.0 + sc.width < gw && 1 <= o.1 && o.1 + sc.height < gh
                        },
                    hallways_supported(self.occupied),
                    dead_ends_doored(self.occupied),
                    self.hallways@.len() >= 1,
                    self.rooms@.len() >= 1,
                    self.rooms@.len() <= 1 + k,
                    self.rooms@[0] == (RoomKind::Security, (aox, aoy)),
                    forall|i: int|
                        1 <= i < self.rooms@.len() ==> (#[trigger] self.rooms@[i]).0
                            == RoomKind::Empty,
                    placements_stamped(self.occupied, self.rooms@, anchor_room, scatter_room),
                    placements_disjoint(self.rooms@, anchor_room, scatter_room),
                decreases origins@.len() - k,
            {
                let o = origins[k];
                let (rx, ry): (usize, usize) = o;
                proof {
                    lemma_scatter_range_fits(
                        *sc,
                        rx as int,
                        ry as int,
                        gw as int,
                        gh as int,
                    );
                }
                let blocked = self.region_blocked(sc, rx, ry);
                if !blocked {
                    let ghost pre = *self;
                    self.place_room(sc, RoomKind::Empty, rx, ry, k + 1);
                    proof {
                        let rs = self.rooms@;
                        let last = rs.len() - 1;
                        assert(rs[last] == (RoomKind::Empty, (rx, ry)));
                        assert(spec_room_of(rs[last], anchor_room, scatter_room) == scatter_room);
                        // regions of all placements remain occupied
                        assert forall|ii: int, x: int, y: int|
                            0 <= ii < rs.len() && #[trigger] spec_entry_region(
                                rs[ii],
                                anchor_room,
                                scatter_room,
                                x,
                                y,
                            ) implies self.occupied.spec_in_bounds(x, y) && self.occupied.at(x, y)
                            != TileKind::Empty by {
                            if ii < last {
                                assert(rs[ii] == pre.rooms@[ii]);
                                assert(pre.occupied.at(x, y) != TileKind::Empty);
                                assert(self.occupied.at(x, y) == spec_stamp(
                                    scatter_room,
                                    rx as int,
                                    ry as int,
                                    (k + 1) as usize,
                                    pre.occupied.at(x, y),
                                    x,
                                    y,
                                ));
                            } else {
                                if scatter_room.spec_is_seed(rx as int, ry as int, x, y) {
                                    let j = choose|j: int|
                                        0 <= j < scatter_room.doors@.len()
                                            && #[trigger] scatter_room.spec_seed_abs(
                                            rx as int,
                                            ry as int,
                                            j,
                                        ) == (x, y);
                                    assert(self.occupied.at(x, y) == TileKind::Hallway);
                                } else {
                                    assert(scatter_room.spec_in_footprint(
                                        rx as int,
                                        ry as int,
                                        x,
                                        y,
                                    ));
                                }
                            }
                        }
                        // the fresh region was empty, every older one occupied
                        assert forall|ii: int, jj: int, x: int, y: int|
                            0 <= ii < rs.len() && 0 <= jj < rs.len() && ii != jj
                                && #[trigger] spec_entry_region(
                                rs[ii],
                                anchor_room,
                                scatter_room,
                                x,
                                y,
                            ) implies !#[trigger] spec_entry_region(
                            rs[jj],
                            anchor_room,
                            scatter_room,
                            x,
                            y,
                        ) by {
                            if ii < last && jj < last {
                                assert(rs[ii] == pre.rooms@[ii]);
                                assert(rs[jj] == pre.rooms@[jj]);
                            } else if jj == last {
                                assert(rs[ii] == pre.rooms@[ii]);
                                assert(pre.occupied.at(x, y) != TileKind::Empty);
                                if spec_entry_region(rs[jj], anchor_room, scatter_room, x, y) {
                                    if scatter_room.spec_is_seed(rx as int, ry as int, x, y) {
                                        let j = choose|j: int|
                                            0 <= j < scatter_room.doors@.len()
                                                && #[trigger] scatter_room.spec_seed_abs(
                                                rx as int,
                                                ry as int,
                                                j,
                                            ) == (x, y);
                                        assert(pre.occupied.at(x, y) == TileKind::Empty);
                                    } else {
                                        assert(scatter_room.spec_in_footprint(
                                            rx as int,
                                            ry as int,
                                            x,
                                            y,
                                        ));
                                        assert(pre.occupied.at(x, y) == TileKind::Empty);
                                    }
                                    assert(false);
                                }
                            } else {
                                assert(rs[jj] == pre.rooms@[jj]);
                                assert(pre.occupied.at(x, y) == TileKind::Empty);
                                if spec_entry_region(rs[jj], anchor_room, scatter_room, x, y) {
                                    assert(pre.occupied.at(x, y) != TileKind::Empty);
                                    assert(false);
                                }
                            }
                        }
                    }
                }
                k = k + 1;
            }
        }
        proof {
            // every placement's claimed tile sits inside the grid
            assert(placements_stamped(self.occupied, self.rooms@, anchor_room, scatter_room));
            assert forall|i: int, x: int, y: int|
                0 <= i < self.rooms@.len() && #[trigger] spec_entry_region(
                    self.rooms@[i],
                    anchor_room,
                    scatter_room,
                    x,
                    y,
                ) implies 0 <= x < gw && 0 <= y < gh by {
                assert(self.occupied.spec_in_bounds(x, y));
            }
            assert(placements_in_grid(
                self.rooms@,
                anchor_room,
                scatter_room,
                gw as int,
                gh as int,
            ));
            reveal(spec_placements_ok);
            assert(spec_placements_ok(
                self.rooms@,
                catalog@,
                gw as int,
                gh as int,
                origins@.len() as int,
            ));
        }
        // corridor repair: merge components, then resolve dead ends, until
        // the network is one connected component without dead ends
        let ghost rooms_done = self.rooms@;
        loop
            invariant
                self.wf(),
                self.width == gw,
                self.height == gh,
                gw == old(self).width,
                gh == old(self).height,
                spec_config_ok(catalog@, gw as int, gh as int, origins@.len() > 0),
                hallways_supported(self.occupied),
                dead_ends_doored(self.occupied),
                self.hallways@.len() >= 1,
                self.rooms@ == rooms_done,
                rooms_done.len() >= 1,
                rooms_done.len() <= 1 + origins@.len(),
                rooms_done[0] == (RoomKind::Security, (aox, aoy)),
                forall|i: int|
                    1 <= i < rooms_done.len() ==> (#[trigger] rooms_done[i]).0 == RoomKind::Empty,
                placements_disjoint(rooms_done, anchor_room, scatter_room),
                spec_placements_ok(
                    rooms_done,
                    catalog@,
                    gw as int,
                    gh as int,
                    origins@.len() as int,
                ),
            ensures
                self.wf(),
                self.width == gw,
                self.height == gh,
                hallways_supported(self.occupied),
                self.hallways@.len() >= 1,
                self.rooms@ == rooms_done,
                has_hallway(self.occupied),
                hallways_connected(self.occupied),
                no_dead_ends(self.occupied),
            decreases count_empty(self.occupied.inner@),
        {
            let comps = self.connected_hallways();
            if comps.len() > 1 {
                match self.merge_step(&comps) {
                    Result::Err(e) => {
                        return Result::Err(e);
                    },
                    Result::Ok(u) => {},
                }
            } else {
                let singles = self.get_single_hallways();
                if singles.len() == 0 {
                    proof {
                        let t0 = self.hallways@[0];
                        assert(self.hallways@.contains(t0));
                        assert(self.occupied.at(t0.0 as int, t0.1 as int) == TileKind::Hallway);
                        assert(has_hallway(self.occupied));
                        assert(comps@.len() >= 1);
                        assert(comps@.len() == 1);
                    }
                    break;
                }
                // resolve one dead end by carving toward another hallway
                let s: (usize, usize) = singles[0];
                match self.attach_step(s) {
                    Result::Err(e) => {
                        return Result::Err(e);
                    },
                    Result::Ok(u) => {},
                }
            }
        }
        Result::Ok(())
    }


    /// One merge carve of the repair engine: joins the first two hallway
    /// components along a breadth-first path through empty space, or
    /// reports the network unconnectable when no path exists.
    #[verifier::rlimit(60)]
    fn merge_step(&mut self, comps: &Vec<Vec<(usize, usize)>>) -> (r: Result<(), MapGenError>)
        requires
            old(self).wf(),
            hallways_supported(old(self).occupied),
            dead_ends_doored(old(self).occupied),
            comps@.len() > 1,
            comps_nonempty(comps@),
            comps_members_ok(old(self).occupied, comps@),
            comps_mutual(old(self).occupied, comps@),
            comps_separated(old(self).occupied, comps@),
            comps_cover(old(self).occupied, comps@),
        ensures
            final(self).wf(),
            final(self).width == old(self).width,
            final(self).height == old(self).height,
            final(self).rooms@ == old(self).rooms@,
            final(self).hallways@.len() >= old(self).hallways@.len(),
            hallways_supported(final(self).occupied),
            dead_ends_doored(final(self).occupied),
            grid_only_carved(old(self).occupied, final(self).occupied),
            match r {
                Result::Ok(u) => count_empty(final(self).occupied.inner@) < count_empty(
                    old(self).occupied.inner@,
                ),
                Result::Err(e) => e == MapGenError::UnconnectableMapError && spec_repair_stuck(
                    final(self).occupied,
                ),
            },
    {
        let start: (usize, usize) = comps[0][0];
        let target: (usize, usize) = comps[1][0];
        let component = copy_tiles(&comps[0]);
        let goal = SearchGoal::Merge { target, component };
        match find_path(&self.occupied, start.0, start.1, &goal) {
            Option::None => {
                proof {
                    let g = self.occupied;
                    let h = pt(start);
                    // every hallway tile the carve could reach stays in the
                    // source component, so it is semantically reachable
                    assert forall|x: int, y: int|
                        g.spec_in_bounds(x, y) && g.at(x, y) == TileKind::Hallway
                            && #[trigger] spec_reach(
                            g,
                            ConnectRule::Pathing,
                            h,
                            (x, y),
                        ) implies spec_reach(g, ConnectRule::Semantic, h, (x, y)) by {
                        assert(!goal.holds(g, (x, y)));
                        assert(comps@[0]@.contains((x as usize, y as usize)));
                        let jc = choose|jc: int|
                            0 <= jc < comps@[0]@.len() && comps@[0]@[jc] == (
                            x as usize,
                            y as usize,
                            );
                        assert(spec_reach(
                            g,
                            ConnectRule::Semantic,
                            pt(comps@[0]@[0]),
                            pt(comps@[0]@[jc]),
                        ));
                        assert(pt(comps@[0]@[jc]) == (x, y));
                    }
                    // yet the second component's first tile is out of reach
                    let t1 = comps@[1]@[0];
                    assert(g.at(t1.0 as int, t1.1 as int) == TileKind::Hallway);
                    assert(!spec_reach(
                        g,
                        ConnectRule::Semantic,
                        pt(comps@[0]@[0]),
                        pt(comps@[1]@[0]),
                    ));
                    assert(spec_merge_stuck(g, h));
                    reveal(spec_repair_stuck);
                    reveal(grid_only_carved);
                }
                Result::Err(MapGenError::UnconnectableMapError)
            },
            Option::Some(p) => {
                proof {
                    let g = self.occupied;
                    let lastj = p@.len() - 1;
                    let lastt = p@[lastj];
                    assert(goal.holds(g, pt(lastt)));
                    // the path ends on a hallway tile
                    if pt(lastt) == pt(target) {
                        assert(lastt == target);
                    }
                    assert(g.at(lastt.0 as int, lastt.1 as int) == TileKind::Hallway);
                    // some path tile is empty: otherwise the end would
                    // already sit in the source component
                    if forall|j: int|
                        0 <= j < p@.len() ==> g.at(
                            (#[trigger] p@[j]).0 as int,
                            p@[j].1 as int,
                        ) != TileKind::Empty {
                        assert forall|j: int|
                            0 <= j < p@.len() implies g.at(
                            (#[trigger] p@[j]).0 as int,
                            p@[j].1 as int,
                        ) == TileKind::Hallway by {
                            if j > 0 {
                                assert(spec_step(
                                    g,
                                    ConnectRule::Pathing,
                                    pt(p@[j - 1]),
                                    pt(p@[j - 1 + 1]),
                                ));
                            }
                        }
                        lemma_hallway_path_reach(g, p@, lastj);
                        if pt(lastt) == pt(target) {
                            assert(spec_reach(
                                g,
                                ConnectRule::Semantic,
                                pt(comps@[0]@[0]),
                                pt(comps@[1]@[0]),
                            ));
                            assert(false);
                        } else {
                            let ic = choose|ic: int|
                                0 <= ic < comps@.len() && #[trigger] comps@[ic]@.contains(
                                    (lastt.0 as usize, lastt.1 as usize),
                                );
                            let jc = choose|jc: int|
                                0 <= jc < comps@[ic]@.len() && comps@[ic]@[jc] == (
                                lastt.0 as usize,
                                lastt.1 as usize,
                                );
                            if ic == 0 {
                                assert(comps@[0]@.contains(lastt));
                                assert(false);
                            } else {
                                assert(spec_reach(
                                    g,
                                    ConnectRule::Semantic,
                                    pt(comps@[0]@[0]),
                                    pt(comps@[ic]@[jc]),
                                ));
                                assert(false);
                            }
                        }
                    }
                }
                let added = self.carve_path(&p);
                proof {
                    assert(added >= 1);
                    reveal(grid_only_carved);
                    assert forall|x: int, y: int|
                        self.occupied.spec_in_bounds(x, y) implies self.occupied.at(x, y) == old(
                        self,
                    ).occupied.at(x, y) || (old(self).occupied.at(x, y) == TileKind::Empty
                        && self.occupied.at(x, y) == TileKind::Hallway) by {}
                }
                Result::Ok(())
            },
        }
    }

    /// One dead-end carve of the repair engine: connects a hallway tile
    /// with exactly one occupied direction to another hallway tile, or
    /// reports the network unconnectable when no path exists.
    fn attach_step(&mut self, s: (usize, usize)) -> (r: Result<(), MapGenError>)
        requires
            old(self).wf(),
            hallways_supported(old(self).occupied),
            dead_ends_doored(old(self).occupied),
            old(self).occupied.spec_in_bounds(s.0 as int, s.1 as int),
            old(self).occupied.at(s.0 as int, s.1 as int) == TileKind::Hallway,
            spec_occ_count(old(self).occupied, s.0 as int, s.1 as int) == 1,
        ensures
            final(self).wf(),
            final(self).width == old(self).width,
            final(self).height == old(self).height,
            final(self).rooms@ == old(self).rooms@,
            final(self).hallways@.len() >= old(self).hallways@.len(),
            hallways_supported(final(self).occupied),
            dead_ends_doored(final(self).occupied),
            grid_only_carved(old(self).occupied, final(self).occupied),
            match r {
                Result::Ok(u) => count_empty(final(self).occupied.inner@) < count_empty(
                    old(self).occupied.inner@,
                ),
                Result::Err(e) => e == MapGenError::UnconnectableMapError && spec_repair_stuck(
                    final(self).occupied,
                ),
            },
    {
        let goal = SearchGoal::Attach { origin: s };
        match find_path(&self.occupied, s.0, s.1, &goal) {
            Option::None => {
                proof {
                    let g = self.occupied;
                    let h = (s.0 as int, s.1 as int);
                    // no distinct hallway tile is reachable from the dead end
                    assert forall|x: int, y: int|
                        g.spec_in_bounds(x, y) && g.at(x, y) == TileKind::Hallway
                            && #[trigger] spec_reach(
                            g,
                            ConnectRule::Pathing,
                            h,
                            (x, y),
                        ) implies (x, y) == h by {
                        assert(!goal.holds(g, (x, y)));
                    }
                    assert(spec_attach_stuck(g, h));
                    reveal(spec_repair_stuck);
                    reveal(grid_only_carved);
                }
                Result::Err(MapGenError::UnconnectableMapError)
            },
            Option::Some(p) => {
                proof {
                    let g = self.occupied;
                    let sxi = s.0 as int;
                    let syi = s.1 as int;
                    let lastj = p@.len() - 1;
                    let lastt = p@[lastj];
                    assert(goal.holds(g, pt(lastt)));
                    assert(g.at(lastt.0 as int, lastt.1 as int) == TileKind::Hallway);
                    assert(pt(lastt) != pt(s));
                    assert(p@.len() >= 2);
                    // the dead end leans on a door alone, so the second
                    // path tile cannot be a hallway: it is empty
                    assert(spec_has_door_neighbor(g, sxi, syi));
                    let d: (int, int) = if g.spec_in_bounds(sxi, syi + 1) && g.at(sxi, syi + 1)
                        == TileKind::Door {
                        (sxi, syi + 1)
                    } else if g.spec_in_bounds(sxi + 1, syi) && g.at(sxi + 1, syi)
                        == TileKind::Door {
                        (sxi + 1, syi)
                    } else if g.spec_in_bounds(sxi, syi - 1) && g.at(sxi, syi - 1)
                        == TileKind::Door {
                        (sxi, syi - 1)
                    } else {
                        (sxi - 1, syi)
                    };
                    assert(g.at(d.0, d.1) == TileKind::Door);
                    assert(crate::tile::spec_adjacent((sxi, syi), d));
                    assert(spec_occ(g, d.0, d.1));
                    assert(spec_step(g, ConnectRule::Pathing, pt(p@[0]), pt(p@[0int + 1])));
                    let nxt = pt(p@[1]);
                    if g.at(nxt.0, nxt.1) == TileKind::Hallway {
                        assert(spec_occ(g, nxt.0, nxt.1));
                        assert(nxt != d);
                        assert(crate::tile::spec_adjacent((sxi, syi), nxt));
                        lemma_two_adjacent_occupied(g, sxi, syi, d, nxt);
                        assert(false);
                    }
                    assert(g.at(nxt.0, nxt.1) == TileKind::Empty);
                }
                let added = self.carve_path(&p);
                proof {
                    if added == 0 {
                        assert(old(self).occupied.at(
                            (p@[1]).0 as int,
                            p@[1].1 as int,
                        ) != TileKind::Empty);
                        assert(false);
                    }
                    reveal(grid_only_carved);
                    assert forall|x: int, y: int|
                        self.occupied.spec_in_bounds(x, y) implies self.occupied.at(x, y) == old(
                        self,
                    ).occupied.at(x, y) || (old(self).occupied.at(x, y) == TileKind::Empty
                        && self.occupied.at(x, y) == TileKind::Hallway) by {}
                }
                Result::Ok(())
            },
        }
    }

    /// Generates the map: places the anchor room at the grid's center,
    /// attempts `scatter_count` scattered rooms at random origins drawn
    /// from the stream, and repairs the corridor network. Ending with fewer
    /// rooms than requested is accepted behavior: a blocked attempt is
    /// skipped, never retried.
    pub fn generate(
        &mut self,
        catalog: &Vec<(RoomKind, Room)>,
        scatter_count: usize,
        rng: &mut rand::rngs::StdRng,
    ) -> (r: Result<(), MapGenError>)
        requires
            old(self).wf(),
            old(self).is_blank(),
            forall|i: int| 0 <= i < catalog@.len() ==> (#[trigger] catalog@[i]).1.wf(),
        ensures
            final(self).width == old(self).width,
            final(self).height == old(self).height,
            match r {
                Result::Ok(u) => spec_config_ok(
                    catalog@,
                    old(self).width as int,
                    old(self).height as int,
                    scatter_count > 0,
                ) && final(self).wf() && has_hallway(final(self).occupied) && hallways_connected(
                    final(self).occupied,
                ) && hallways_supported(final(self).occupied) && no_dead_ends(
                    final(self).occupied,
                ) && spec_placements_ok(
                    final(self).rooms@,
                    catalog@,
                    old(self).width as int,
                    old(self).height as int,
                    scatter_count as int,
                ) && final(self).hallways@.len() >= 1,
                Result::Err(e) => if e == MapGenError::ConfigurationError {
                    !spec_config_ok(
                        catalog@,
                        old(self).width as int,
                        old(self).height as int,
                        scatter_count > 0,
                    ) && final(self).occupied.inner@ == old(self).occupied.inner@ && final(self).rooms@ == old(self).rooms@ && final(self).hallways@ == old(self).hallways@
                } else {
                    spec_config_ok(
                        catalog@,
                        old(self).width as int,
                        old(self).height as int,
                        scatter_count > 0,
                    ) && final(self).wf() && hallways_supported(final(self).occupied)
                        && spec_placements_ok(
                        final(self).rooms@,
                        catalog@,
                        old(self).width as int,
                        old(self).height as int,
                        scatter_count as int,
                    ) && final(self).hallways@.len() >= 1 && spec_repair_stuck(final(self).occupied)
                },
            },
    {
        let gw = self.width;
        let gh = self.height;
        if !config_check(catalog, gw, gh, scatter_count > 0) {
            return Result::Err(MapGenError::ConfigurationError);
        }
        let mut origins: Vec<(usize, usize)> = Vec::new();
        if scatter_count > 0 {
            let scatter_i = match catalog_find(catalog, RoomKind::Empty) {
                Option::None => {
                    // unreachable: the configuration check found this entry
                    proof {
                        assert(false);
                    }
                    return Result::Err(MapGenError::ConfigurationError);
                },
                Option::Some(ii) => ii,
            };
            proof {
                lemma_catalog_index(catalog@, RoomKind::Empty, scatter_i as int);
            }
            let sc: &Room = &catalog[scatter_i].1;
            let mut k: usize = 0;
            while k < scatter_count
                invariant
                    k <= scatter_count,
                    origins@.len() == k,
                    sc.width + 2 <= gw,
                    sc.height + 2 <= gh,
                    forall|kk: int|
                        0 <= kk < origins@.len() ==> {
                            let o = #[trigger] origins@[kk];
                            1 <= o.0 && o.0 + sc.width < gw && 1 <= o.1 && o.1 + sc.height < gh
                        },
                decreases scatter_count - k,
            {
                let rx = crate::randsrc::rng_gen_range(rng, 1, gw - sc.width);
                let ry = crate::randsrc::rng_gen_range(rng, 1, gh - sc.height);
                origins.push((rx, ry));
                k = k + 1;
            }
        }
        self.generate_from(catalog, &origins)
    }

    /// Generates the map from a seed: with the same grid size, catalog,
    /// room count and seed, the layout comes out the same.
    pub fn generate_seeded(
        &mut self,
        catalog: &Vec<(RoomKind, Room)>,
        scatter_count: usize,
        seed: u64,
    ) -> (r: Result<(), MapGenError>)
        requires
            old(self).wf(),
            old(self).is_blank(),
            forall|i: int| 0 <= i < catalog@.len() ==> (#[trigger] catalog@[i]).1.wf(),
        ensures
            final(self).width == old(self).width,
            final(self).height == old(self).height,
            match r {
                Result::Ok(u) => spec_config_ok(
                    catalog@,
                    old(self).width as int,
                    old(self).height as int,
                    scatter_count > 0,
                ) && final(self).wf() && has_hallway(final(self).occupied) && hallways_connected(
                    final(self).occupied,
                ) && hallways_supported(final(self).occupied) && no_dead_ends(
                    final(self).occupied,
                ) && spec_placements_ok(
                    final(self).rooms@,
                    catalog@,
                    old(self).width as int,
                    old(self).height as int,
                    scatter_count as int,
                ) && final(self).hallways@.len() >= 1,
                Result::Err(e) => if e == MapGenError::ConfigurationError {
                    !spec_config_ok(
                        catalog@,
                        old(self).width as int,
                        old(self).height as int,
                        scatter_count > 0,
                    ) && final(self).occupied.inner@ == old(self).occupied.inner@ && final(self).rooms@ == old(self).rooms@ && final(self).hallways@ == old(self).hallways@
                } else {
                    spec_config_ok(
                        catalog@,
                        old(self).width as int,
                        old(self).height as int,
                        scatter_count > 0,
                    ) && final(self).wf() && hallways_supported(final(self).occupied)
                        && spec_placements_ok(
                        final(self).rooms@,
                        catalog@,
                        old(self).width as int,
                        old(self).height as int,
                        scatter_count as int,
                    ) && final(self).hallways@.len() >= 1 && spec_repair_stuck(final(self).occupied)
                },
            },
    {
        let mut rng = crate::randsrc::rng_from_seed(seed);
        self.generate(catalog, scatter_count, &mut rng)
    }
}

/// On a repaired grid every hallway tile's classified pattern has at least
/// two occupied directions: each hallway tile keeps a hallway or door
/// neighbor, and the repair engine leaves no tile with exactly one.
pub proof fn lemma_repaired_tile_degree(g: TileArray, x: int, y: int)
    requires
        hallways_supported(g),
        no_dead_ends(g),
        g.spec_in_bounds(x, y),
        g.at(x, y) == TileKind::Hallway,
    ensures
        spec_occ_count(g, x, y) >= 2,
{
}

} // verus!
