//! Room templates: footprint size plus door descriptors, and the keyed
//! catalog that maps a room kind to its template.

use vstd::prelude::*;

verus! {

/// A cardinal direction; doors face one of these.
#[derive(Clone, Copy, PartialEq, Eq, Structural, Debug)]
pub enum Direction {
    North,
    East,
    South,
    West,
}

/// The fifteen sprite-selection variants for a hallway tile, named after the
/// cardinal directions in which the tile has a hallway or door neighbor.
#[derive(Clone, Copy, PartialEq, Eq, Structural, Debug)]
pub enum HallwayKind {
    NorthEastSouthWest,
    NorthEastSouth,
    NorthEastWest,
    NorthSouthWest,
    EastSouthWest,
    NorthEast,
    EastSouth,
    SouthWest,
    NorthWest,
    NorthSouth,
    EastWest,
    North,
    East,
    South,
    West,
}

/// The key of a room template in the catalog.
#[derive(Clone, Copy, PartialEq, Eq, Structural, Debug)]
pub enum RoomKind {
    Security,
    Empty,
    Hallway(HallwayKind),
}

/// A room template: a rectangular footprint and a list of doors, each an
/// absolute tile within the footprint together with the edge it penetrates.
pub struct Room {
    pub width: usize,
    pub height: usize,
    pub doors: Vec<(usize, usize, Direction)>,
}

/// Whether a door's edge offset fits the template: offsets along the north and
/// south edges run over the width, those along the east and west edges over
/// the height.
pub open spec fn offset_ok(off: usize, d: Direction, w: usize, h: usize) -> bool {
    match d {
        Direction::North => off < w,
        Direction::South => off < w,
        Direction::East => off < h,
        Direction::West => off < h,
    }
}

/// The tile a door with the given edge offset occupies, relative to the
/// room's lower-left corner.
pub open spec fn spec_door_pos(w: int, h: int, off: int, d: Direction) -> (int, int) {
    match d {
        Direction::North => (off, h - 1),
        Direction::East => (w - 1, off),
        Direction::South => (off, 0),
        Direction::West => (0, off),
    }
}

/// The tile immediately outside a door at `p`, along the door's direction.
pub open spec fn spec_seed_pos(p: (int, int), d: Direction) -> (int, int) {
    match d {
        Direction::North => (p.0, p.1 + 1),
        Direction::East => (p.0 + 1, p.1),
        Direction::South => (p.0, p.1 - 1),
        Direction::West => (p.0 - 1, p.1),
    }
}


/// The offsets of the doors that face direction `d`, in input order.
pub open spec fn spec_dir_offsets(doors: Seq<(usize, Direction)>, d: Direction) -> Seq<usize>
    decreases doors.len(),
{
    if doors.len() == 0 {
        Seq::empty()
    } else if doors.last().1 == d {
        spec_dir_offsets(doors.drop_last(), d).push(doors.last().0)
    } else {
        spec_dir_offsets(doors.drop_last(), d)
    }
}

/// `v` inserted before the first entry not below it.
pub open spec fn spec_insert_sorted(s: Seq<usize>, v: usize) -> Seq<usize>
    decreases s.len(),
{
    if s.len() == 0 {
        seq![v]
    } else if v <= s[0] {
        seq![v] + s
    } else {
        seq![s[0]] + spec_insert_sorted(s.drop_first(), v)
    }
}

/// The offsets rearranged into ascending order by insertion sort.
pub open spec fn spec_sort_offsets(s: Seq<usize>) -> Seq<usize>
    decreases s.len(),
{
    if s.len() == 0 {
        Seq::empty()
    } else {
        spec_insert_sorted(spec_sort_offsets(s.drop_last()), s.last())
    }
}

/// The door tuple a direction and edge offset translate to.
pub open spec fn spec_door_tuple(w: usize, h: usize, off: usize, d: Direction) -> (
    usize,
    usize,
    Direction,
) {
    match d {
        Direction::North => (off, (h - 1) as usize, d),
        Direction::East => ((w - 1) as usize, off, d),
        Direction::South => (off, 0usize, d),
        Direction::West => (0usize, off, d),
    }
}

/// One direction's group of translated door tuples.
pub open spec fn spec_translated(offs: Seq<usize>, d: Direction, w: usize, h: usize) -> Seq<
    (usize, usize, Direction),
> {
    Seq::new(offs.len(), |i: int| spec_door_tuple(w, h, offs[i], d))
}

/// The door list a template is built with: doors grouped north, east,
/// south, west, offsets ascending within each group, each translated onto
/// its edge.
pub open spec fn spec_room_doors(w: usize, h: usize, doors: Seq<(usize, Direction)>) -> Seq<
    (usize, usize, Direction),
> {
    spec_translated(spec_sort_offsets(spec_dir_offsets(doors, Direction::North)), Direction::North, w, h)
        + spec_translated(
        spec_sort_offsets(spec_dir_offsets(doors, Direction::East)),
        Direction::East,
        w,
        h,
    ) + spec_translated(
        spec_sort_offsets(spec_dir_offsets(doors, Direction::South)),
        Direction::South,
        w,
        h,
    ) + spec_translated(
        spec_sort_offsets(spec_dir_offsets(doors, Direction::West)),
        Direction::West,
        w,
        h,
    )
}

/// Inserting grows the sequence by one and keeps any strict bound.
proof fn lemma_insert_sorted_facts(s: Seq<usize>, v: usize, b: usize)
    requires
        forall|j: int| 0 <= j < s.len() ==> s[j] < b,
        v < b,
    ensures
        spec_insert_sorted(s, v).len() == s.len() + 1,
        forall|j: int|
            0 <= j < spec_insert_sorted(s, v).len() ==> #[trigger] spec_insert_sorted(s, v)[j]
                < b,
    decreases s.len(),
{
    if s.len() == 0 {
    } else if v <= s[0] {
    } else {
        lemma_insert_sorted_facts(s.drop_first(), v, b);
    }
}

/// Sorting keeps the length and any strict bound.
proof fn lemma_sort_offsets_facts(s: Seq<usize>, b: usize)
    requires
        forall|j: int| 0 <= j < s.len() ==> s[j] < b,
    ensures
        spec_sort_offsets(s).len() == s.len(),
        forall|j: int|
            0 <= j < spec_sort_offsets(s).len() ==> #[trigger] spec_sort_offsets(s)[j] < b,
    decreases s.len(),
{
    if s.len() > 0 {
        lemma_sort_offsets_facts(s.drop_last(), b);
        lemma_insert_sorted_facts(spec_sort_offsets(s.drop_last()), s.last(), b);
    }
}

/// Every door lands in exactly one direction group.
proof fn lemma_dir_offsets_total(doors: Seq<(usize, Direction)>)
    ensures
        spec_dir_offsets(doors, Direction::North).len() + spec_dir_offsets(
            doors,
            Direction::East,
        ).len() + spec_dir_offsets(doors, Direction::South).len() + spec_dir_offsets(
            doors,
            Direction::West,
        ).len() == doors.len(),
    decreases doors.len(),
{
    if doors.len() > 0 {
        lemma_dir_offsets_total(doors.drop_last());
    }
}

/// A direction group's offsets satisfy that direction's edge bound.
proof fn lemma_dir_offsets_ok(doors: Seq<(usize, Direction)>, d: Direction, w: usize, h: usize)
    requires
        forall|i: int| 0 <= i < doors.len() ==> offset_ok(doors[i].0, doors[i].1, w, h),
    ensures
        forall|j: int|
            0 <= j < spec_dir_offsets(doors, d).len() ==> offset_ok(
                #[trigger] spec_dir_offsets(doors, d)[j],
                d,
                w,
                h,
            ),
    decreases doors.len(),
{
    if doors.len() > 0 {
        assert(offset_ok(doors.last().0, doors.last().1, w, h));
        assert(doors[doors.len() - 1] == doors.last());
        lemma_dir_offsets_ok(doors.drop_last(), d, w, h);
        let rec = spec_dir_offsets(doors.drop_last(), d);
        assert forall|j: int|
            0 <= j < spec_dir_offsets(doors, d).len() implies offset_ok(
            #[trigger] spec_dir_offsets(doors, d)[j],
            d,
            w,
            h,
        ) by {
            if doors.last().1 == d {
                if j < spec_dir_offsets(doors, d).len() - 1 {
                    assert(spec_dir_offsets(doors, d)[j] == rec[j]);
                } else {
                    assert(spec_dir_offsets(doors, d)[j] == doors.last().0);
                }
            } else {
                assert(spec_dir_offsets(doors, d)[j] == rec[j]);
            }
        }
    }
}

/// Inserting before the first entry not below `v` is what
/// `spec_insert_sorted` computes.
proof fn lemma_insert_sorted_split(s: Seq<usize>, v: usize, k: int)
    requires
        0 <= k <= s.len(),
        forall|j: int| 0 <= j < k ==> s[j] < v,
        k < s.len() ==> v <= s[k],
    ensures
        spec_insert_sorted(s, v) == s.take(k) + seq![v] + s.skip(k),
    decreases k,
{
    if k == 0 {
        if s.len() == 0 {
            assert(spec_insert_sorted(s, v) =~= s.take(0) + seq![v] + s.skip(0));
        } else {
            assert(v <= s[0]);
            assert(spec_insert_sorted(s, v) =~= s.take(0) + seq![v] + s.skip(0));
        }
    } else {
        assert(s[0] < v);
        lemma_insert_sorted_split(s.drop_first(), v, k - 1);
        assert(s.take(k) =~= seq![s[0]] + s.drop_first().take(k - 1));
        assert(s.skip(k) =~= s.drop_first().skip(k - 1));
        assert(spec_insert_sorted(s, v) =~= s.take(k) + seq![v] + s.skip(k));
    }
}

/// Builds `spec_insert_sorted(s@, v)`.
fn insert_sorted(s: &Vec<usize>, v: usize) -> (r: Vec<usize>)
    ensures
        r@ == spec_insert_sorted(s@, v),
{
    let mut r: Vec<usize> = Vec::new();
    let mut i: usize = 0;
    while i < s.len() && s[i] < v
        invariant
            i <= s@.len(),
            r@ == s@.take(i as int),
            forall|j: int| 0 <= j < i ==> s@[j] < v,
        decreases s@.len() - i,
    {
        r.push(s[i]);
        proof {
            assert(s@.take(i + 1) =~= s@.take(i as int).push(s@[i as int]));
        }
        i = i + 1;
    }
    let ghost k = i as int;
    r.push(v);
    proof {
        assert(r@ =~= s@.take(k) + seq![v] + s@.subrange(k, k));
    }
    while i < s.len()
        invariant
            0 <= k <= i <= s@.len(),
            forall|j: int| 0 <= j < k ==> s@[j] < v,
            k < s@.len() ==> v <= s@[k],
            r@ == s@.take(k) + seq![v] + s@.subrange(k, i as int),
        decreases s@.len() - i,
    {
        r.push(s[i]);
        proof {
            assert(s@.subrange(k, i + 1) =~= s@.subrange(k, i as int).push(s@[i as int]));
            assert(r@ =~= s@.take(k) + seq![v] + s@.subrange(k, i + 1));
        }
        i = i + 1;
    }
    proof {
        assert(s@.skip(k) =~= s@.subrange(k, s@.len() as int));
        lemma_insert_sorted_split(s@, v, k);
    }
    r
}

/// Builds `spec_sort_offsets(s@)`.
fn sort_offsets(s: &Vec<usize>) -> (r: Vec<usize>)
    ensures
        r@ == spec_sort_offsets(s@),
{
    let mut r: Vec<usize> = Vec::new();
    let mut i: usize = 0;
    while i < s.len()
        invariant
            i <= s@.len(),
            r@ == spec_sort_offsets(s@.take(i as int)),
        decreases s@.len() - i,
    {
        r = insert_sorted(&r, s[i]);
        proof {
            assert(s@.take(i + 1).drop_last() =~= s@.take(i as int));
            assert(s@.take(i + 1).last() == s@[i as int]);
        }
        i = i + 1;
    }
    proof {
        assert(s@.take(s@.len() as int) =~= s@);
    }
    r
}

/// Collects the offsets of the doors facing `d`, in input order.
fn dir_offsets(doors: &Vec<(usize, Direction)>, d: Direction) -> (r: Vec<usize>)
    ensures
        r@ == spec_dir_offsets(doors@, d),
{
    let mut r: Vec<usize> = Vec::new();
    let mut i: usize = 0;
    while i < doors.len()
        invariant
            i <= doors@.len(),
            r@ == spec_dir_offsets(doors@.take(i as int), d),
        decreases doors@.len() - i,
    {
        let (off, dd) = doors[i];
        if dd == d {
            r.push(off);
        }
        proof {
            assert(doors@.take(i + 1).drop_last() =~= doors@.take(i as int));
            assert(doors@.take(i + 1).last() == doors@[i as int]);
        }
        i = i + 1;
    }
    proof {
        assert(doors@.take(doors@.len() as int) =~= doors@);
    }
    r
}

/// Appends one direction group of translated door tuples.
fn push_door_group(
    out: &mut Vec<(usize, usize, Direction)>,
    offs: &Vec<usize>,
    d: Direction,
    width: usize,
    height: usize,
)
    requires
        width >= 1,
        height >= 1,
    ensures
        final(out)@ == old(out)@ + spec_translated(offs@, d, width, height),
{
    let mut i: usize = 0;
    while i < offs.len()
        invariant
            i <= offs@.len(),
            width >= 1,
            height >= 1,
            out@.len() == old(out)@.len() + i,
            forall|j: int| 0 <= j < old(out)@.len() ==> out@[j] == old(out)@[j],
            forall|j: int|
                0 <= j < i ==> out@[old(out)@.len() + j] == spec_door_tuple(
                    width,
                    height,
                    offs@[j],
                    d,
                ),
        decreases offs@.len() - i,
    {
        let off = offs[i];
        let t: (usize, usize, Direction) = match d {
            Direction::North => (off, height - 1, d),
            Direction::East => (width - 1, off, d),
            Direction::South => (off, 0, d),
            Direction::West => (0, off, d),
        };
        out.push(t);
        proof {
            assert(t == spec_door_tuple(width, height, off, d));
        }
        i = i + 1;
    }
    proof {
        assert(out@ =~= old(out)@ + spec_translated(offs@, d, width, height));
    }
}

impl Room {
    /// Door `i` lies on the edge its direction names.
    pub open spec fn door_wf(self, i: int) -> bool {
        let (dx, dy, d) = self.doors@[i];
        match d {
            Direction::North => dx < self.width && dy == self.height - 1,
            Direction::East => dx == self.width - 1 && dy < self.height,
            Direction::South => dx < self.width && dy == 0,
            Direction::West => dx == 0 && dy < self.height,
        }
    }

    /// A well-formed template has a non-degenerate footprint and every door
    /// on the edge it names.
    pub open spec fn wf(self) -> bool {
        &&& self.width >= 1
        &&& self.height >= 1
        &&& forall|i: int| 0 <= i < self.doors@.len() ==> self.door_wf(i)
    }

    /// The absolute tile of door `i` when the room's lower-left corner is at
    /// `(ox, oy)`.
    pub open spec fn spec_door_abs(self, ox: int, oy: int, i: int) -> (int, int) {
        (self.doors@[i].0 + ox, self.doors@[i].1 + oy)
    }

    /// The absolute tile of the hallway seed belonging to door `i`.
    pub open spec fn spec_seed_abs(self, ox: int, oy: int, i: int) -> (int, int) {
        spec_seed_pos(self.spec_door_abs(ox, oy, i), self.doors@[i].2)
    }

    /// Whether `(x, y)` lies inside the room's footprint placed at `(ox, oy)`.
    pub open spec fn spec_in_footprint(self, ox: int, oy: int, x: int, y: int) -> bool {
        ox <= x < ox + self.width && oy <= y < oy + self.height
    }

    /// A placement fits a `gw` by `gh` grid when the footprint lies inside it
    /// and every hallway seed does too.
    pub open spec fn placement_ok(self, ox: int, oy: int, gw: int, gh: int) -> bool {
        &&& self.wf()
        &&& 0 <= ox
        &&& 0 <= oy
        &&& ox + self.width <= gw
        &&& oy + self.height <= gh
        &&& forall|i: int| 0 <= i < self.doors@.len() ==> {
            let s = #[trigger] self.spec_seed_abs(ox, oy, i);
            0 <= s.0 < gw && 0 <= s.1 < gh
        }
    }

    /// Whether `(x, y)` is one of the room's door tiles when placed at
    /// `(ox, oy)`.
    pub open spec fn spec_is_door(self, ox: int, oy: int, x: int, y: int) -> bool {
        exists|i: int|
            0 <= i < self.doors@.len() && #[trigger] self.spec_door_abs(ox, oy, i) == (x, y)
    }

    /// Whether `(x, y)` is one of the room's hallway seed tiles when placed
    /// at `(ox, oy)`.
    pub open spec fn spec_is_seed(self, ox: int, oy: int, x: int, y: int) -> bool {
        exists|i: int|
            0 <= i < self.doors@.len() && #[trigger] self.spec_seed_abs(ox, oy, i) == (x, y)
    }

    /// The tiles a placement claims: its footprint and its hallway seeds.
    pub open spec fn spec_in_region(self, ox: int, oy: int, x: int, y: int) -> bool {
        self.spec_in_footprint(ox, oy, x, y) || self.spec_is_seed(ox, oy, x, y)
    }

    /// Door tiles lie inside the footprint.
    pub proof fn lemma_doors_in_footprint(self, ox: int, oy: int)
        requires
            self.wf(),
        ensures
            forall|x: int, y: int|
                self.spec_is_door(ox, oy, x, y) ==> self.spec_in_footprint(ox, oy, x, y),
    {
        assert forall|x: int, y: int|
            self.spec_is_door(ox, oy, x, y) implies self.spec_in_footprint(ox, oy, x, y) by {
            let i = choose|i: int|
                0 <= i < self.doors@.len() && #[trigger] self.spec_door_abs(ox, oy, i) == (x, y);
            assert(self.door_wf(i));
        }
    }

    /// Seed tiles lie outside the footprint.
    pub proof fn lemma_seeds_outside_footprint(self, ox: int, oy: int)
        requires
            self.wf(),
        ensures
            forall|x: int, y: int|
                self.spec_is_seed(ox, oy, x, y) ==> !self.spec_in_footprint(ox, oy, x, y),
    {
        assert forall|x: int, y: int|
            self.spec_is_seed(ox, oy, x, y) implies !self.spec_in_footprint(ox, oy, x, y) by {
            let i = choose|i: int|
                0 <= i < self.doors@.len() && #[trigger] self.spec_seed_abs(ox, oy, i) == (x, y);
            assert(self.door_wf(i));
        }
    }

    /// Builds a template from a footprint size and `(edge offset, direction)`
    /// door descriptors. The doors are grouped north, east, south, west,
    /// with offsets ascending within each group, and each is placed on the
    /// edge its direction names: north doors at `(offset, height - 1)`,
    /// east doors at `(width - 1, offset)`, south doors at `(offset, 0)`
    /// and west doors at `(0, offset)`.
    pub fn new(width: usize, height: usize, doors: Vec<(usize, Direction)>) -> (r: Room)
        requires
            width >= 1,
            height >= 1,
            forall|i: int| 0 <= i < doors@.len() ==> offset_ok(
                doors@[i].0,
                doors@[i].1,
                width,
                height,
            ),
        ensures
            r.width == width,
            r.height == height,
            r.doors@ == spec_room_doors(width, height, doors@),
            r.doors@.len() == doors@.len(),
            r.wf(),
    {
        let offs_n = sort_offsets(&dir_offsets(&doors, Direction::North));
        let offs_e = sort_offsets(&dir_offsets(&doors, Direction::East));
        let offs_s = sort_offsets(&dir_offsets(&doors, Direction::South));
        let offs_w = sort_offsets(&dir_offsets(&doors, Direction::West));
        proof {
            lemma_dir_offsets_ok(doors@, Direction::North, width, height);
            lemma_dir_offsets_ok(doors@, Direction::East, width, height);
            lemma_dir_offsets_ok(doors@, Direction::South, width, height);
            lemma_dir_offsets_ok(doors@, Direction::West, width, height);
            lemma_sort_offsets_facts(spec_dir_offsets(doors@, Direction::North), width);
            lemma_sort_offsets_facts(spec_dir_offsets(doors@, Direction::East), height);
            lemma_sort_offsets_facts(spec_dir_offsets(doors@, Direction::South), width);
            lemma_sort_offsets_facts(spec_dir_offsets(doors@, Direction::West), height);
            lemma_dir_offsets_total(doors@);
        }
        let mut out: Vec<(usize, usize, Direction)> = Vec::new();
        push_door_group(&mut out, &offs_n, Direction::North, width, height);
        push_door_group(&mut out, &offs_e, Direction::East, width, height);
        push_door_group(&mut out, &offs_s, Direction::South, width, height);
        push_door_group(&mut out, &offs_w, Direction::West, width, height);
        proof {
            assert(out@ =~= spec_room_doors(width, height, doors@));
        }
        let r = Room { width, height, doors: out };
        proof {
            let ln = offs_n@.len() as int;
            let le = offs_e@.len() as int;
            let ls = offs_s@.len() as int;
            let lw = offs_w@.len() as int;
            assert forall|i: int| 0 <= i < r.doors@.len() implies r.door_wf(i) by {
                if i < ln {
                    assert(r.doors@[i] == spec_door_tuple(width, height, offs_n@[i], Direction::North));
                    assert(offset_ok(offs_n@[i], Direction::North, width, height));
                } else if i < ln + le {
                    assert(r.doors@[i] == spec_door_tuple(
                        width,
                        height,
                        offs_e@[i - ln],
                        Direction::East,
                    ));
                    assert(offset_ok(offs_e@[i - ln], Direction::East, width, height));
                } else if i < ln + le + ls {
                    assert(r.doors@[i] == spec_door_tuple(
                        width,
                        height,
                        offs_s@[i - ln - le],
                        Direction::South,
                    ));
                    assert(offset_ok(offs_s@[i - ln - le], Direction::South, width, height));
                } else {
                    assert(r.doors@[i] == spec_door_tuple(
                        width,
                        height,
                        offs_w@[i - ln - le - ls],
                        Direction::West,
                    ));
                    assert(offset_ok(offs_w@[i - ln - le - ls], Direction::West, width, height));
                }
            }
        }
        r
    }
}

/// Finds the first catalog entry whose kind equals `kind`, returning its
/// index.
pub fn catalog_find(catalog: &Vec<(RoomKind, Room)>, kind: RoomKind) -> (r: Option<usize>)
    ensures
        match r {
            Some(i) => {
                &&& i < catalog@.len()
                &&& catalog@[i as int].0 == kind
                &&& forall|j: int| 0 <= j < i ==> catalog@[j].0 != kind
            },
            None => forall|j: int| 0 <= j < catalog@.len() ==> catalog@[j].0 != kind,
        },
{
    let mut i: usize = 0;
    while i < catalog.len()
        invariant
            i <= catalog@.len(),
            forall|j: int| 0 <= j < i ==> catalog@[j].0 != kind,
        decreases catalog@.len() - i,
    {
        if catalog[i].0 == kind {
            return Some(i);
        }
        i = i + 1;
    }
    None
}

/// Whether some catalog entry carries the given kind.
pub open spec fn catalog_has(catalog: Seq<(RoomKind, Room)>, kind: RoomKind) -> bool {
    exists|i: int| 0 <= i < catalog.len() && catalog[i].0 == kind
}

/// The index of the first catalog entry of the given kind.
pub open spec fn spec_catalog_index(catalog: Seq<(RoomKind, Room)>, kind: RoomKind) -> int {
    choose|i: int|
        0 <= i < catalog.len() && catalog[i].0 == kind && (forall|j: int|
            0 <= j < i ==> catalog[j].0 != kind)
}

/// The template of the first catalog entry of the given kind.
pub open spec fn spec_catalog_room(catalog: Seq<(RoomKind, Room)>, kind: RoomKind) -> Room {
    catalog[spec_catalog_index(catalog, kind)].1
}

/// A first match at index `i` is the index `spec_catalog_index` names.
pub proof fn lemma_catalog_index(catalog: Seq<(RoomKind, Room)>, kind: RoomKind, i: int)
    requires
        0 <= i < catalog.len(),
        catalog[i].0 == kind,
        forall|j: int| 0 <= j < i ==> catalog[j].0 != kind,
    ensures
        spec_catalog_index(catalog, kind) == i,
        spec_catalog_room(catalog, kind) == catalog[i].1,
{
    let w = choose|w: int|
        0 <= w < catalog.len() && catalog[w].0 == kind && (forall|j: int|
            0 <= j < w ==> catalog[j].0 != kind);
    assert(0 <= w < catalog.len() && catalog[w].0 == kind && (forall|j: int|
        0 <= j < w ==> catalog[j].0 != kind)) by {
        assert(0 <= i < catalog.len() && catalog[i].0 == kind && (forall|j: int|
            0 <= j < i ==> catalog[j].0 != kind));
    }
    if w < i {
        assert(catalog[w].0 != kind);
    }
    if i < w {
        assert(catalog[i].0 != kind);
    }
}

/// Builds the standard room catalog: the anchor security room, the
/// scattered empty room, and one single-tile hallway room per shape
/// variant, each hallway room's doors being exactly the directions its
/// variant names. The sprite assets that accompany these templates are
/// loaded by the embedding application, not here.
#[verifier::rlimit(60)]
pub fn load_rooms() -> (r: Vec<(RoomKind, Room)>)
    ensures
        r@.len() == 17,
        forall|i: int| 0 <= i < r@.len() ==> (#[trigger] r@[i]).1.wf(),
        r@[0].0 == RoomKind::Security,
        r@[0].1.width == 3,
        r@[0].1.height == 3,
        r@[0].1.doors@ == seq![(2usize, 1usize, Direction::East), (0usize, 1usize, Direction::West)],
        r@[1].0 == RoomKind::Empty,
        r@[1].1.width == 4,
        r@[1].1.height == 3,
        r@[1].1.doors@ == seq![(1usize, 0usize, Direction::South), (0usize, 1usize, Direction::West)],
        r@[2].0 == RoomKind::Hallway(HallwayKind::North),
        r@[2].1.width == 1,
        r@[2].1.height == 1,
        r@[2].1.doors@ == seq![(0usize, 0usize, Direction::North)],
        r@[3].0 == RoomKind::Hallway(HallwayKind::West),
        r@[3].1.width == 1,
        r@[3].1.height == 1,
        r@[3].1.doors@ == seq![(0usize, 0usize, Direction::West)],
        r@[4].0 == RoomKind::Hallway(HallwayKind::South),
        r@[4].1.width == 1,
        r@[4].1.height == 1,
        r@[4].1.doors@ == seq![(0usize, 0usize, Direction::South)],
        r@[5].0 == RoomKind::Hallway(HallwayKind::East),
        r@[5].1.width == 1,
        r@[5].1.height == 1,
        r@[5].1.doors@ == seq![(0usize, 0usize, Direction::East)],
        r@[6].0 == RoomKind::Hallway(HallwayKind::NorthSouth),
        r@[6].1.width == 1,
        r@[6].1.height == 1,
        r@[6].1.doors@ == seq![(0usize, 0usize, Direction::North), (0usize, 0usize, Direction::South)],
        r@[7].0 == RoomKind::Hallway(HallwayKind::EastWest),
        r@[7].1.width == 1,
        r@[7].1.height == 1,
        r@[7].1.doors@ == seq![(0usize, 0usize, Direction::East), (0usize, 0usize, Direction::West)],
        r@[8].0 == RoomKind::Hallway(HallwayKind::NorthEast),
        r@[8].1.width == 1,
        r@[8].1.height == 1,
        r@[8].1.doors@ == seq![(0usize, 0usize, Direction::North), (0usize, 0usize, Direction::East)],
        r@[9].0 == RoomKind::Hallway(HallwayKind::NorthWest),
        r@[9].1.width == 1,
        r@[9].1.height == 1,
        r@[9].1.doors@ == seq![(0usize, 0usize, Direction::North), (0usize, 0usize, Direction::West)],
        r@[10].0 == RoomKind::Hallway(HallwayKind::SouthWest),
        r@[10].1.width == 1,
        r@[10].1.height == 1,
        r@[10].1.doors@ == seq![(0usize, 0usize, Direction::South), (0usize, 0usize, Direction::West)],
        r@[11].0 == RoomKind::Hallway(HallwayKind::EastSouth),
        r@[11].1.width == 1,
        r@[11].1.height == 1,
        r@[11].1.doors@ == seq![(0usize, 0usize, Direction::East), (0usize, 0usize, Direction::South)],
        r@[12].0 == RoomKind::Hallway(HallwayKind::NorthEastWest),
        r@[12].1.width == 1,
        r@[12].1.height == 1,
        r@[12].1.doors@ == seq![(0usize, 0usize, Direction::North), (0usize, 0usize, Direction::East), (0usize, 0usize, Direction::West)],
        r@[13].0 == RoomKind::Hallway(HallwayKind::NorthSouthWest),
        r@[13].1.width == 1,
        r@[13].1.height == 1,
        r@[13].1.doors@ == seq![(0usize, 0usize, Direction::North), (0usize, 0usize, Direction::South), (0usize, 0usize, Direction::West)],
        r@[14].0 == RoomKind::Hallway(HallwayKind::EastSouthWest),
        r@[14].1.width == 1,
        r@[14].1.height == 1,
        r@[14].1.doors@ == seq![(0usize, 0usize, Direction::East), (0usize, 0usize, Direction::South), (0usize, 0usize, Direction::West)],
        r@[15].0 == RoomKind::Hallway(HallwayKind::NorthEastSouth),
        r@[15].1.width == 1,
        r@[15].1.height == 1,
        r@[15].1.doors@ == seq![(0usize, 0usize, Direction::North), (0usize, 0usize, Direction::East), (0usize, 0usize, Direction::South)],
        r@[16].0 == RoomKind::Hallway(HallwayKind::NorthEastSouthWest),
        r@[16].1.width == 1,
        r@[16].1.height == 1,
        r@[16].1.doors@ == seq![(0usize, 0usize, Direction::North), (0usize, 0usize, Direction::East), (0usize, 0usize, Direction::South), (0usize, 0usize, Direction::West)],
        spec_catalog_index(r@, RoomKind::Security) == 0,
        spec_catalog_room(r@, RoomKind::Security) == r@[0].1,
        spec_catalog_index(r@, RoomKind::Empty) == 1,
        spec_catalog_room(r@, RoomKind::Empty) == r@[1].1,
{
    let mut r: Vec<(RoomKind, Room)> = Vec::new();
    let mut doors: Vec<(usize, Direction)> = Vec::new();
    doors.push((1, Direction::West));
    doors.push((1, Direction::East));
    let rm = Room::new(3, 3, doors);
    proof {
        reveal_with_fuel(spec_dir_offsets, 6);
        reveal_with_fuel(spec_sort_offsets, 6);
        reveal_with_fuel(spec_insert_sorted, 6);
        assert(rm.doors@ =~= seq![(2usize, 1usize, Direction::East), (0usize, 1usize, Direction::West)]);
    }
    r.push((RoomKind::Security, rm));
    let mut doors: Vec<(usize, Direction)> = Vec::new();
    doors.push((1, Direction::South));
    doors.push((1, Direction::West));
    let rm = Room::new(4, 3, doors);
    proof {
        reveal_with_fuel(spec_dir_offsets, 6);
        reveal_with_fuel(spec_sort_offsets, 6);
        reveal_with_fuel(spec_insert_sorted, 6);
        assert(rm.doors@ =~= seq![(1usize, 0usize, Direction::South), (0usize, 1usize, Direction::West)]);
    }
    r.push((RoomKind::Empty, rm));
    let mut doors: Vec<(usize, Direction)> = Vec::new();
    doors.push((0, Direction::North));
    let rm = Room::new(1, 1, doors);
    proof {
        reveal_with_fuel(spec_dir_offsets, 6);
        reveal_with_fuel(spec_sort_offsets, 6);
        reveal_with_fuel(spec_insert_sorted, 6);
        assert(rm.doors@ =~= seq![(0usize, 0usize, Direction::North)]);
    }
    r.push((RoomKind::Hallway(HallwayKind::North), rm));
    let mut doors: Vec<(usize, Direction)> = Vec::new();
    doors.push((0, Direction::West));
    let rm = Room::new(1, 1, doors);
    proof {
        reveal_with_fuel(spec_dir_offsets, 6);
        reveal_with_fuel(spec_sort_offsets, 6);
        reveal_with_fuel(spec_insert_sorted, 6);
        assert(rm.doors@ =~= seq![(0usize, 0usize, Direction::West)]);
    }
    r.push((RoomKind::Hallway(HallwayKind::West), rm));
    let mut doors: Vec<(usize, Direction)> = Vec::new();
    doors.push((0, Direction::South));
    let rm = Room::new(1, 1, doors);
    proof {
        reveal_with_fuel(spec_dir_offsets, 6);
        reveal_with_fuel(spec_sort_offsets, 6);
        reveal_with_fuel(spec_insert_sorted, 6);
        assert(rm.doors@ =~= seq![(0usize, 0usize, Direction::South)]);
    }
    r.push((RoomKind::Hallway(HallwayKind::South), rm));
    let mut doors: Vec<(usize, Direction)> = Vec::new();
    doors.push((0, Direction::East));
    let rm = Room::new(1, 1, doors);
    proof {
        reveal_with_fuel(spec_dir_offsets, 6);
        reveal_with_fuel(spec_sort_offsets, 6);
        reveal_with_fuel(spec_insert_sorted, 6);
        assert(rm.doors@ =~= seq![(0usize, 0usize, Direction::East)]);
    }
    r.push((RoomKind::Hallway(HallwayKind::East), rm));
    let mut doors: Vec<(usize, Direction)> = Vec::new();
    doors.push((0, Direction::North));
    doors.push((0, Direction::South));
    let rm = Room::new(1, 1, doors);
    proof {
        reveal_with_fuel(spec_dir_offsets, 6);
        reveal_with_fuel(spec_sort_offsets, 6);
        reveal_with_fuel(spec_insert_sorted, 6);
        assert(rm.doors@ =~= seq![(0usize, 0usize, Direction::North), (0usize, 0usize, Direction::South)]);
    }
    r.push((RoomKind::Hallway(HallwayKind::NorthSouth), rm));
    let mut doors: Vec<(usize, Direction)> = Vec::new();
    doors.push((0, Direction::East));
    doors.push((0, Direction::West));
    let rm = Room::new(1, 1, doors);
    proof {
        reveal_with_fuel(spec_dir_offsets, 6);
        reveal_with_fuel(spec_sort_offsets, 6);
        reveal_with_fuel(spec_insert_sorted, 6);
        assert(rm.doors@ =~= seq![(0usize, 0usize, Direction::East), (0usize, 0usize, Direction::West)]);
    }
    r.push((RoomKind::Hallway(HallwayKind::EastWest), rm));
    let mut doors: Vec<(usize, Direction)> = Vec::new();
    doors.push((0, Direction::North));
    doors.push((0, Direction::East));
    let rm = Room::new(1, 1, doors);
    proof {
        reveal_with_fuel(spec_dir_offsets, 6);
        reveal_with_fuel(spec_sort_offsets, 6);
        reveal_with_fuel(spec_insert_sorted, 6);
        assert(rm.doors@ =~= seq![(0usize, 0usize, Direction::North), (0usize, 0usize, Direction::East)]);
    }
    r.push((RoomKind::Hallway(HallwayKind::NorthEast), rm));
    let mut doors: Vec<(usize, Direction)> = Vec::new();
    doors.push((0, Direction::North));
    doors.push((0, Direction::West));
    let rm = Room::new(1, 1, doors);
    proof {
        reveal_with_fuel(spec_dir_offsets, 6);
        reveal_with_fuel(spec_sort_offsets, 6);
        reveal_with_fuel(spec_insert_sorted, 6);
        assert(rm.doors@ =~= seq![(0usize, 0usize, Direction::North), (0usize, 0usize, Direction::West)]);
    }
    r.push((RoomKind::Hallway(HallwayKind::NorthWest), rm));
    let mut doors: Vec<(usize, Direction)> = Vec::new();
    doors.push((0, Direction::South));
    doors.push((0, Direction::West));
    let rm = Room::new(1, 1, doors);
    proof {
        reveal_with_fuel(spec_dir_offsets, 6);
        reveal_with_fuel(spec_sort_offsets, 6);
        reveal_with_fuel(spec_insert_sorted, 6);
        assert(rm.doors@ =~= seq![(0usize, 0usize, Direction::South), (0usize, 0usize, Direction::West)]);
    }
    r.push((RoomKind::Hallway(HallwayKind::SouthWest), rm));
    let mut doors: Vec<(usize, Direction)> = Vec::new();
    doors.push((0, Direction::East));
    doors.push((0, Direction::South));
    let rm = Room::new(1, 1, doors);
    proof {
        reveal_with_fuel(spec_dir_offsets, 6);
        reveal_with_fuel(spec_sort_offsets, 6);
        reveal_with_fuel(spec_insert_sorted, 6);
        assert(rm.doors@ =~= seq![(0usize, 0usize, Direction::East), (0usize, 0usize, Direction::South)]);
    }
    r.push((RoomKind::Hallway(HallwayKind::EastSouth), rm));
    let mut doors: Vec<(usize, Direction)> = Vec::new();
    doors.push((0, Direction::North));
    doors.push((0, Direction::East));
    doors.push((0, Direction::West));
    let rm = Room::new(1, 1, doors);
    proof {
        reveal_with_fuel(spec_dir_offsets, 6);
        reveal_with_fuel(spec_sort_offsets, 6);
        reveal_with_fuel(spec_insert_sorted, 6);
        assert(rm.doors@ =~= seq![(0usize, 0usize, Direction::North), (0usize, 0usize, Direction::East), (0usize, 0usize, Direction::West)]);
    }
    r.push((RoomKind::Hallway(HallwayKind::NorthEastWest), rm));
    let mut doors: Vec<(usize, Direction)> = Vec::new();
    doors.push((0, Direction::North));
    doors.push((0, Direction::South));
    doors.push((0, Direction::West));
    let rm = Room::new(1, 1, doors);
    proof {
        reveal_with_fuel(spec_dir_offsets, 6);
        reveal_with_fuel(spec_sort_offsets, 6);
        reveal_with_fuel(spec_insert_sorted, 6);
        assert(rm.doors@ =~= seq![(0usize, 0usize, Direction::North), (0usize, 0usize, Direction::South), (0usize, 0usize, Direction::West)]);
    }
    r.push((RoomKind::Hallway(HallwayKind::NorthSouthWest), rm));
    let mut doors: Vec<(usize, Direction)> = Vec::new();
    doors.push((0, Direction::East));
    doors.push((0, Direction::South));
    doors.push((0, Direction::West));
    let rm = Room::new(1, 1, doors);
    proof {
        reveal_with_fuel(spec_dir_offsets, 6);
        reveal_with_fuel(spec_sort_offsets, 6);
        reveal_with_fuel(spec_insert_sorted, 6);
        assert(rm.doors@ =~= seq![(0usize, 0usize, Direction::East), (0usize, 0usize, Direction::South), (0usize, 0usize, Direction::West)]);
    }
    r.push((RoomKind::Hallway(HallwayKind::EastSouthWest), rm));
    let mut doors: Vec<(usize, Direction)> = Vec::new();
    doors.push((0, Direction::North));
    doors.push((0, Direction::East));
    doors.push((0, Direction::South));
    let rm = Room::new(1, 1, doors);
    proof {
        reveal_with_fuel(spec_dir_offsets, 6);
        reveal_with_fuel(spec_sort_offsets, 6);
        reveal_with_fuel(spec_insert_sorted, 6);
        assert(rm.doors@ =~= seq![(0usize, 0usize, Direction::North), (0usize, 0usize, Direction::East), (0usize, 0usize, Direction::South)]);
    }
    r.push((RoomKind::Hallway(HallwayKind::NorthEastSouth), rm));
    let mut doors: Vec<(usize, Direction)> = Vec::new();
    doors.push((0, Direction::North));
    doors.push((0, Direction::East));
    doors.push((0, Direction::South));
    doors.push((0, Direction::West));
    let rm = Room::new(1, 1, doors);
    proof {
        reveal_with_fuel(spec_dir_offsets, 6);
        reveal_with_fuel(spec_sort_offsets, 6);
        reveal_with_fuel(spec_insert_sorted, 6);
        assert(rm.doors@ =~= seq![(0usize, 0usize, Direction::North), (0usize, 0usize, Direction::East), (0usize, 0usize, Direction::South), (0usize, 0usize, Direction::West)]);
    }
    r.push((RoomKind::Hallway(HallwayKind::NorthEastSouthWest), rm));
    proof {
        lemma_catalog_index(r@, RoomKind::Security, 0);
        lemma_catalog_index(r@, RoomKind::Empty, 1);
    }
    r
}

} // verus!
