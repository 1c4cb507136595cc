//! The tile grid: a bounds-checked, row-major occupancy array, the two
//! adjacency predicates the generator uses, the hallway shape classifier,
//! and the reachability notions the connectivity contracts are stated over.

use vstd::prelude::*;

use crate::room::HallwayKind;

verus! {

/// What a grid cell holds. A `Room` tile carries the id of its placement, so
/// tiles of different rooms never count as connected directly.
#[derive(Clone, Copy, PartialEq, Eq, Structural, Debug)]
pub enum TileKind {
    Empty,
    Room(usize),
    Door,
    Hallway,
}

/// The semantic adjacency rule: empty connects to nothing, a room tile only
/// to its own room and to doors, a door to anything occupied, a hallway to
/// hallways and doors.
pub open spec fn spec_connects(a: TileKind, b: TileKind) -> bool {
    match a {
        TileKind::Empty => false,
        TileKind::Room(id) => b == TileKind::Room(id) || b == TileKind::Door,
        TileKind::Door => b != TileKind::Empty,
        TileKind::Hallway => b == TileKind::Hallway || b == TileKind::Door,
    }
}

/// The pathing rule used while carving corridor: empty space is traversable
/// from anything, a hallway tile can be entered from hallways and empty
/// space, rooms and doors are not traversable.
pub open spec fn spec_connects_pathing(a: TileKind, b: TileKind) -> bool {
    match a {
        TileKind::Empty => true,
        TileKind::Hallway => b == TileKind::Hallway || b == TileKind::Empty,
        TileKind::Room(id) => false,
        TileKind::Door => false,
    }
}

/// The semantic rule is symmetric.
pub proof fn lemma_connects_sym(a: TileKind, b: TileKind)
    ensures
        spec_connects(a, b) == spec_connects(b, a),
{
}

impl TileKind {
    /// Whether `self`, as a neighbor, connects to a cell of kind `other`
    /// under the semantic adjacency rule.
    pub fn connects(&self, other: &TileKind) -> (r: bool)
        ensures
            r == spec_connects(*self, *other),
    {
        match *self {
            TileKind::Empty => false,
            TileKind::Room(id) => *other == TileKind::Room(id) || *other == TileKind::Door,
            TileKind::Door => *other != TileKind::Empty,
            TileKind::Hallway => *other == TileKind::Hallway || *other == TileKind::Door,
        }
    }

    /// Whether `self`, as a neighbor, connects to a cell of kind `other`
    /// under the corridor pathing rule.
    pub fn connects_hallway_pathing(&self, other: &TileKind) -> (r: bool)
        ensures
            r == spec_connects_pathing(*self, *other),
    {
        match *self {
            TileKind::Empty => true,
            TileKind::Hallway => *other == TileKind::Hallway || *other == TileKind::Empty,
            _ => false,
        }
    }
}

/// Selects one of the two adjacency rules; the grid's neighbor lookup takes
/// the rule from its caller rather than baking one in.
#[derive(Clone, Copy, PartialEq, Eq, Structural, Debug)]
pub enum ConnectRule {
    Semantic,
    Pathing,
}

impl ConnectRule {
    /// Whether a neighbor of kind `a` connects to a cell of kind `b` under
    /// this rule.
    pub open spec fn spec_connects(self, a: TileKind, b: TileKind) -> bool {
        match self {
            ConnectRule::Semantic => spec_connects(a, b),
            ConnectRule::Pathing => spec_connects_pathing(a, b),
        }
    }

    /// Evaluates the rule on a neighbor kind `a` and a cell kind `b`.
    pub fn connects(&self, a: &TileKind, b: &TileKind) -> (r: bool)
        ensures
            r == self.spec_connects(*a, *b),
    {
        match *self {
            ConnectRule::Semantic => a.connects(b),
            ConnectRule::Pathing => a.connects_hallway_pathing(b),
        }
    }
}

/// A row-major `width` by `height` array of tile kinds.
pub struct TileArray {
    pub inner: Vec<TileKind>,
    pub width: usize,
    pub height: usize,
}

/// A flat row-major index stays inside the array.
pub proof fn lemma_idx_bounds(w: int, h: int, x: int, y: int)
    requires
        0 <= x < w,
        0 <= y < h,
    ensures
        0 <= y * w + x < w * h,
{
    assert(y * w + x < w * h) by (nonlinear_arith)
        requires
            0 <= x < w,
            0 <= y < h,
    ;
    assert(0 <= y * w) by (nonlinear_arith)
        requires
            0 <= y,
            0 < w,
    ;
}

/// Distinct in-bounds coordinates have distinct flat indices.
pub proof fn lemma_idx_ne(w: int, h: int, x1: int, y1: int, x2: int, y2: int)
    requires
        0 <= x1 < w,
        0 <= y1 < h,
        0 <= x2 < w,
        0 <= y2 < h,
        !(x1 == x2 && y1 == y2),
    ensures
        y1 * w + x1 != y2 * w + x2,
{
    assert(y1 * w + x1 != y2 * w + x2) by (nonlinear_arith)
        requires
            0 <= x1 < w,
            0 <= y1 < h,
            0 <= x2 < w,
            0 <= y2 < h,
            !(x1 == x2 && y1 == y2),
    ;
}

impl TileArray {
    /// The backing vector covers the whole rectangle.
    pub open spec fn wf(self) -> bool {
        self.inner@.len() == self.width * self.height
    }

    /// Whether `(x, y)` lies inside the grid.
    pub open spec fn spec_in_bounds(self, x: int, y: int) -> bool {
        0 <= x < self.width && 0 <= y < self.height
    }

    /// The kind of the tile at `(x, y)`.
    pub open spec fn at(self, x: int, y: int) -> TileKind {
        self.inner@[y * self.width + x]
    }

    /// Builds a grid with every tile empty.
    pub fn new(width: usize, height: usize) -> (r: TileArray)
        requires
            width * height <= usize::MAX,
        ensures
            r.wf(),
            r.width == width,
            r.height == height,
            forall|x: int, y: int| r.spec_in_bounds(x, y) ==> r.at(x, y) == TileKind::Empty,
    {
        let n: usize = width * height;
        let mut inner: Vec<TileKind> = Vec::new();
        let mut i: usize = 0;
        while i < n
            invariant
                i <= n,
                inner@.len() == i,
                forall|j: int| 0 <= j < i ==> inner@[j] == TileKind::Empty,
            decreases n - i,
        {
            inner.push(TileKind::Empty);
            i = i + 1;
        }
        let r = TileArray { inner, width, height };
        proof {
            assert forall|x: int, y: int| r.spec_in_bounds(x, y) implies r.at(x, y)
                == TileKind::Empty by {
                lemma_idx_bounds(width as int, height as int, x, y);
            }
        }
        r
    }

    /// Reads the tile at `(x, y)`; reading outside the grid is a
    /// precondition violation.
    pub fn get(&self, x: usize, y: usize) -> (r: TileKind)
        requires
            self.wf(),
            self.spec_in_bounds(x as int, y as int),
        ensures
            r == self.at(x as int, y as int),
    {
        proof {
            lemma_idx_bounds(self.width as int, self.height as int, x as int, y as int);
        }
        let n: usize = self.inner.len();
        let i: usize = y * self.width + x;
        self.inner[i]
    }

    /// Writes the tile at `(x, y)`; writing outside the grid is a
    /// precondition violation.
    pub fn set(&mut self, x: usize, y: usize, kind: TileKind)
        requires
            old(self).wf(),
            old(self).spec_in_bounds(x as int, y as int),
        ensures
            final(self).wf(),
            final(self).width == old(self).width,
            final(self).height == old(self).height,
            final(self).at(x as int, y as int) == kind,
            forall|x2: int, y2: int|
                final(self).spec_in_bounds(x2, y2) && !(x2 == x as int && y2 == y as int)
                    ==> final(self).at(x2, y2) == old(self).at(x2, y2),
            final(self).inner@ == old(self).inner@.update(
                y as int * old(self).width + x as int,
                kind,
            ),
    {
        proof {
            lemma_idx_bounds(self.width as int, self.height as int, x as int, y as int);
        }
        let n: usize = self.inner.len();
        let i: usize = y * self.width + x;
        self.inner.set(i, kind);
        proof {
            assert forall|x2: int, y2: int|
                self.spec_in_bounds(x2, y2) && !(x2 == x as int && y2 == y as int) implies self.at(
                x2,
                y2,
            ) == old(self).at(x2, y2) by {
                lemma_idx_bounds(self.width as int, self.height as int, x2, y2);
                lemma_idx_ne(
                    self.width as int,
                    self.height as int,
                    x as int,
                    y as int,
                    x2,
                    y2,
                );
            }
        }
    }
}

/// A tile coordinate pair as mathematical integers.
pub open spec fn pt(p: (usize, usize)) -> (int, int) {
    (p.0 as int, p.1 as int)
}

/// Whether two cells are cardinal neighbors.
pub open spec fn spec_adjacent(a: (int, int), b: (int, int)) -> bool {
    ||| (b.0 == a.0 - 1 && b.1 == a.1)
    ||| (b.0 == a.0 + 1 && b.1 == a.1)
    ||| (b.0 == a.0 && b.1 == a.1 - 1)
    ||| (b.0 == a.0 && b.1 == a.1 + 1)
}

/// A single connectivity step from `a` to its neighbor `b`: both in bounds,
/// cardinally adjacent, and the neighbor's kind connects to `a`'s kind under
/// the rule.
pub open spec fn spec_step(g: TileArray, rule: ConnectRule, a: (int, int), b: (int, int)) -> bool {
    &&& g.spec_in_bounds(a.0, a.1)
    &&& g.spec_in_bounds(b.0, b.1)
    &&& spec_adjacent(a, b)
    &&& rule.spec_connects(g.at(b.0, b.1), g.at(a.0, a.1))
}

/// Reachability in at most `n` steps.
pub open spec fn spec_reach_n(
    g: TileArray,
    rule: ConnectRule,
    a: (int, int),
    b: (int, int),
    n: nat,
) -> bool
    decreases n,
{
    a == b || (n > 0 && exists|c: (int, int)|
        spec_step(g, rule, a, c) && spec_reach_n(g, rule, c, b, (n - 1) as nat))
}

/// Reachability under the given rule: a finite chain of steps leads from
/// `a` to `b`.
pub open spec fn spec_reach(g: TileArray, rule: ConnectRule, a: (int, int), b: (int, int)) -> bool {
    exists|n: nat| spec_reach_n(g, rule, a, b, n)
}

/// A reachable cell is still reachable after one more step.
pub proof fn lemma_reach_step_right(
    g: TileArray,
    rule: ConnectRule,
    a: (int, int),
    b: (int, int),
    c: (int, int),
    n: nat,
)
    requires
        spec_reach_n(g, rule, a, b, n),
        spec_step(g, rule, b, c),
    ensures
        spec_reach_n(g, rule, a, c, n + 1),
    decreases n,
{
    if a == b {
        assert(spec_reach_n(g, rule, c, c, 0));
        assert(spec_step(g, rule, a, c) && spec_reach_n(g, rule, c, c, (n + 1 - 1) as nat));
    } else {
        let m = choose|m: (int, int)|
            spec_step(g, rule, a, m) && spec_reach_n(g, rule, m, b, (n - 1) as nat);
        lemma_reach_step_right(g, rule, m, b, c, (n - 1) as nat);
        assert(spec_step(g, rule, a, m) && spec_reach_n(g, rule, m, c, (n + 1 - 1) as nat));
    }
}

/// Reachability is transitive.
pub proof fn lemma_reach_trans(
    g: TileArray,
    rule: ConnectRule,
    a: (int, int),
    b: (int, int),
    c: (int, int),
)
    requires
        spec_reach(g, rule, a, b),
        spec_reach(g, rule, b, c),
    ensures
        spec_reach(g, rule, a, c),
{
    let m = choose|m: nat| spec_reach_n(g, rule, b, c, m);
    lemma_reach_trans_n(g, rule, a, b, c, m);
}

proof fn lemma_reach_trans_n(
    g: TileArray,
    rule: ConnectRule,
    a: (int, int),
    b: (int, int),
    c: (int, int),
    m: nat,
)
    requires
        spec_reach(g, rule, a, b),
        spec_reach_n(g, rule, b, c, m),
    ensures
        spec_reach(g, rule, a, c),
    decreases m,
{
    if b == c {
        assert(spec_reach(g, rule, a, c));
    } else {
        let d = choose|d: (int, int)|
            spec_step(g, rule, b, d) && spec_reach_n(g, rule, d, c, (m - 1) as nat);
        let n = choose|n: nat| spec_reach_n(g, rule, a, b, n);
        lemma_reach_step_right(g, rule, a, b, d, n);
        assert(spec_reach_n(g, rule, a, d, n + 1));
        assert(spec_reach(g, rule, a, d));
        lemma_reach_trans_n(g, rule, a, d, c, (m - 1) as nat);
    }
}

/// Under the semantic rule, reachability is symmetric.
pub proof fn lemma_reach_sym(g: TileArray, a: (int, int), b: (int, int))
    requires
        spec_reach(g, ConnectRule::Semantic, a, b),
    ensures
        spec_reach(g, ConnectRule::Semantic, b, a),
{
    let n = choose|n: nat| spec_reach_n(g, ConnectRule::Semantic, a, b, n);
    lemma_reach_sym_n(g, a, b, n);
}

proof fn lemma_reach_sym_n(g: TileArray, a: (int, int), b: (int, int), n: nat)
    requires
        spec_reach_n(g, ConnectRule::Semantic, a, b, n),
    ensures
        spec_reach(g, ConnectRule::Semantic, b, a),
    decreases n,
{
    let rule = ConnectRule::Semantic;
    if a == b {
        assert(spec_reach_n(g, rule, b, a, 0));
    } else {
        let c = choose|c: (int, int)|
            spec_step(g, rule, a, c) && spec_reach_n(g, rule, c, b, (n - 1) as nat);
        lemma_reach_sym_n(g, c, b, (n - 1) as nat);
        let m = choose|m: nat| spec_reach_n(g, rule, b, c, m);
        lemma_connects_sym(g.at(a.0, a.1), g.at(c.0, c.1));
        assert(spec_step(g, rule, c, a));
        lemma_reach_step_right(g, rule, b, c, a, m);
        assert(spec_reach_n(g, rule, b, a, m + 1));
    }
}

/// Whether the neighbor of `(x, y)` in direction `d` counts as occupied for
/// the shape classifier: in bounds and holding a hallway or a door.
pub open spec fn spec_occ(g: TileArray, x: int, y: int) -> bool {
    g.spec_in_bounds(x, y) && (g.at(x, y) == TileKind::Hallway || g.at(x, y) == TileKind::Door)
}

/// Maps the four occupancy flags, in north, east, south, west order, to a
/// shape variant. The all-false pattern aliases the all-true variant, a
/// quirk kept from the generator's sprite table.
pub open spec fn spec_classify(n: bool, e: bool, s: bool, w: bool) -> HallwayKind {
    if n && e && s && w {
        HallwayKind::NorthEastSouthWest
    } else if n && e && s && !w {
        HallwayKind::NorthEastSouth
    } else if n && e && !s && w {
        HallwayKind::NorthEastWest
    } else if n && !e && s && w {
        HallwayKind::NorthSouthWest
    } else if !n && e && s && w {
        HallwayKind::EastSouthWest
    } else if n && e && !s && !w {
        HallwayKind::NorthEast
    } else if n && !e && s && !w {
        HallwayKind::NorthSouth
    } else if n && !e && !s && w {
        HallwayKind::NorthWest
    } else if !n && e && s && !w {
        HallwayKind::EastSouth
    } else if !n && e && !s && w {
        HallwayKind::EastWest
    } else if !n && !e && s && w {
        HallwayKind::SouthWest
    } else if n && !e && !s && !w {
        HallwayKind::North
    } else if !n && e && !s && !w {
        HallwayKind::East
    } else if !n && !e && s && !w {
        HallwayKind::South
    } else if !n && !e && !s && w {
        HallwayKind::West
    } else {
        HallwayKind::NorthEastSouthWest
    }
}

/// The classification of the tile at `(x, y)` from its four-neighborhood.
pub open spec fn spec_hallway_kind(g: TileArray, x: int, y: int) -> HallwayKind {
    spec_classify(
        spec_occ(g, x, y + 1),
        spec_occ(g, x + 1, y),
        spec_occ(g, x, y - 1),
        spec_occ(g, x - 1, y),
    )
}

/// How many of the four cardinal neighbors of `(x, y)` are occupied.
pub open spec fn spec_occ_count(g: TileArray, x: int, y: int) -> int {
    (if spec_occ(g, x, y + 1) {
        1int
    } else {
        0int
    }) + (if spec_occ(g, x + 1, y) {
        1int
    } else {
        0int
    }) + (if spec_occ(g, x, y - 1) {
        1int
    } else {
        0int
    }) + (if spec_occ(g, x - 1, y) {
        1int
    } else {
        0int
    })
}

/// The shape classifier is a pure function of the four neighbor occupancy
/// flags alone: any two tiles on any grids with the same north, east,
/// south, west occupancy classify identically. In particular, classifying
/// an unchanged tile again yields the same variant.
pub proof fn lemma_classifier_pure(
    g1: TileArray,
    x1: int,
    y1: int,
    g2: TileArray,
    x2: int,
    y2: int,
)
    requires
        spec_occ(g1, x1, y1 + 1) == spec_occ(g2, x2, y2 + 1),
        spec_occ(g1, x1 + 1, y1) == spec_occ(g2, x2 + 1, y2),
        spec_occ(g1, x1, y1 - 1) == spec_occ(g2, x2, y2 - 1),
        spec_occ(g1, x1 - 1, y1) == spec_occ(g2, x2 - 1, y2),
    ensures
        spec_hallway_kind(g1, x1, y1) == spec_hallway_kind(g2, x2, y2),
{
}

/// A grid whose occupied cells only grow never loses occupancy counts.
pub proof fn lemma_occ_count_monotone(g1: TileArray, g2: TileArray, x: int, y: int)
    requires
        forall|a: int, b: int| #[trigger] spec_occ(g1, a, b) ==> spec_occ(g2, a, b),
    ensures
        spec_occ_count(g2, x, y) >= spec_occ_count(g1, x, y),
{
}

/// The classifier yields a single-direction variant exactly on the patterns
/// with one occupied neighbor.
pub proof fn lemma_single_iff_count_one(g: TileArray, x: int, y: int)
    ensures
        (spec_hallway_kind(g, x, y) == HallwayKind::North || spec_hallway_kind(g, x, y)
            == HallwayKind::East || spec_hallway_kind(g, x, y) == HallwayKind::South
            || spec_hallway_kind(g, x, y) == HallwayKind::West) <==> spec_occ_count(g, x, y) == 1,
{
}

impl TileArray {
    /// Whether the classifier counts `(x, y)` as occupied, tolerating
    /// coordinates just outside the grid.
    fn occ_at(&self, x: usize, y: usize, dx: i8, dy: i8) -> (r: bool)
        requires
            self.wf(),
            self.spec_in_bounds(x as int, y as int),
            -1 <= dx <= 1,
            -1 <= dy <= 1,
        ensures
            r == spec_occ(*self, x + dx as int, y + dy as int),
    {
        let nx: usize = if dx < 0 {
            if x == 0 {
                return false;
            }
            x - 1
        } else if dx > 0 {
            if x >= self.width - 1 {
                return false;
            }
            x + 1
        } else {
            x
        };
        let ny: usize = if dy < 0 {
            if y == 0 {
                return false;
            }
            y - 1
        } else if dy > 0 {
            if y >= self.height - 1 {
                return false;
            }
            y + 1
        } else {
            y
        };
        let k = self.get(nx, ny);
        k == TileKind::Hallway || k == TileKind::Door
    }

    /// Classifies the hallway tile at `(x, y)` by which of its cardinal
    /// neighbors, checked in north, east, south, west order, hold a hallway
    /// or a door.
    pub fn hallway_kind(&self, x: usize, y: usize) -> (r: HallwayKind)
        requires
            self.wf(),
            self.spec_in_bounds(x as int, y as int),
        ensures
            r == spec_hallway_kind(*self, x as int, y as int),
    {
        let n = self.occ_at(x, y, 0, 1);
        let e = self.occ_at(x, y, 1, 0);
        let s = self.occ_at(x, y, 0, -1);
        let w = self.occ_at(x, y, -1, 0);
        match (n, e, s, w) {
            (true, true, true, true) => HallwayKind::NorthEastSouthWest,
            (true, true, true, false) => HallwayKind::NorthEastSouth,
            (true, true, false, true) => HallwayKind::NorthEastWest,
            (true, false, true, true) => HallwayKind::NorthSouthWest,
            (false, true, true, true) => HallwayKind::EastSouthWest,
            (true, true, false, false) => HallwayKind::NorthEast,
            (true, false, true, false) => HallwayKind::NorthSouth,
            (true, false, false, true) => HallwayKind::NorthWest,
            (false, true, true, false) => HallwayKind::EastSouth,
            (false, true, false, true) => HallwayKind::EastWest,
            (false, false, true, true) => HallwayKind::SouthWest,
            (true, false, false, false) => HallwayKind::North,
            (false, true, false, false) => HallwayKind::East,
            (false, false, true, false) => HallwayKind::South,
            (false, false, false, true) => HallwayKind::West,
            (false, false, false, false) => HallwayKind::NorthEastSouthWest,
        }
    }

    /// The in-bounds neighbor of `(x, y)` in slot `d` of the fixed expansion
    /// order west, east, south, north.
    pub open spec fn spec_neighbor(self, x: int, y: int, d: int) -> Option<(int, int)> {
        let c: (int, int) = if d == 0 {
            (x - 1, y)
        } else if d == 1 {
            (x + 1, y)
        } else if d == 2 {
            (x, y - 1)
        } else {
            (x, y + 1)
        };
        if self.spec_in_bounds(c.0, c.1) {
            Some(c)
        } else {
            None
        }
    }

    /// Returns the neighbor in expansion slot `d`, if it lies in bounds.
    fn neighbor_in_dir(&self, x: usize, y: usize, d: usize) -> (r: Option<(usize, usize)>)
        requires
            self.wf(),
            self.spec_in_bounds(x as int, y as int),
            d < 4,
        ensures
            match r {
                Some(p) => self.spec_neighbor(x as int, y as int, d as int) == Some(
                    (p.0 as int, p.1 as int),
                ),
                None => self.spec_neighbor(x as int, y as int, d as int) is None,
            },
    {
        if d == 0 {
            if x == 0 {
                None
            } else {
                Some((x - 1, y))
            }
        } else if d == 1 {
            if x >= self.width - 1 {
                None
            } else {
                Some((x + 1, y))
            }
        } else if d == 2 {
            if y == 0 {
                None
            } else {
                Some((x, y - 1))
            }
        } else {
            if y >= self.height - 1 {
                None
            } else {
                Some((x, y + 1))
            }
        }
    }

    /// Every cardinal neighbor relation comes from one of the four expansion
    /// slots.
    pub proof fn lemma_adjacent_has_dir(self, a: (int, int), b: (int, int))
        requires
            self.spec_in_bounds(a.0, a.1),
            self.spec_in_bounds(b.0, b.1),
            spec_adjacent(a, b),
        ensures
            exists|d: int| 0 <= d < 4 && self.spec_neighbor(a.0, a.1, d) == Some(b),
    {
        if b.0 == a.0 - 1 && b.1 == a.1 {
            assert(self.spec_neighbor(a.0, a.1, 0) == Some(b));
        } else if b.0 == a.0 + 1 && b.1 == a.1 {
            assert(self.spec_neighbor(a.0, a.1, 1) == Some(b));
        } else if b.0 == a.0 && b.1 == a.1 - 1 {
            assert(self.spec_neighbor(a.0, a.1, 2) == Some(b));
        } else {
            assert(self.spec_neighbor(a.0, a.1, 3) == Some(b));
        }
    }

    /// Collects the in-bounds cardinal neighbors of `(x, y)` whose kind
    /// connects to this cell's kind under the caller's rule, in the fixed,
    /// deterministic expansion order west, east, south, north; ties among
    /// equal-length corridor paths downstream are broken by this order
    /// alone.
    pub fn get_connections(&self, x: usize, y: usize, rule: ConnectRule) -> (r: Vec<
        (usize, usize, TileKind),
    >)
        requires
            self.wf(),
            self.spec_in_bounds(x as int, y as int),
        ensures
            r@ == spec_connections(*self, rule, x as int, y as int),
            r@.len() <= 4,
            forall|j: int|
                0 <= j < r@.len() ==> {
                    let (nx, ny, k) = #[trigger] r@[j];
                    &&& spec_step(
                        *self,
                        rule,
                        (x as int, y as int),
                        (nx as int, ny as int),
                    )
                    &&& k == self.at(nx as int, ny as int)
                },
            forall|b: (int, int)|
                spec_step(*self, rule, (x as int, y as int), b) ==> exists|j: int|
                    0 <= j < r@.len() && (r@[j].0 as int, r@[j].1 as int) == b,
    {
        let tile = self.get(x, y);
        let mut adj: Vec<(usize, usize, TileKind)> = Vec::new();
        let mut d: usize = 0;
        while d < 4
            invariant
                d <= 4,
                self.wf(),
                self.spec_in_bounds(x as int, y as int),
                tile == self.at(x as int, y as int),
                adj@ == spec_connections_upto(*self, rule, x as int, y as int, d as int),
                adj@.len() <= d,
                forall|j: int|
                    0 <= j < adj@.len() ==> {
                        let (nx, ny, k) = #[trigger] adj@[j];
                        &&& spec_step(
                            *self,
                            rule,
                            (x as int, y as int),
                            (nx as int, ny as int),
                        )
                        &&& k == self.at(nx as int, ny as int)
                    },
                forall|dd: int, b: (int, int)|
                    0 <= dd < d && self.spec_neighbor(x as int, y as int, dd) == Some(b)
                        && rule.spec_connects(self.at(b.0, b.1), self.at(x as int, y as int))
                        ==> exists|j: int|
                        0 <= j < adj@.len() && (adj@[j].0 as int, adj@[j].1 as int) == b,
            decreases 4 - d,
        {
            let ghost old_adj = adj@;
            let nb = self.neighbor_in_dir(x, y, d);
            if let Some(p) = nb {
                let k = self.get(p.0, p.1);
                if rule.connects(&k, &tile) {
                    adj.push((p.0, p.1, k));
                    proof {
                        let last = adj@.len() - 1;
                        assert(0 <= last < adj@.len() && (adj@[last].0 as int, adj@[last].1 as int)
                            == (p.0 as int, p.1 as int));
                        assert(exists|j: int|
                            0 <= j < adj@.len() && (adj@[j].0 as int, adj@[j].1 as int) == (
                            p.0 as int,
                            p.1 as int,
                            ));
                    }
                }
            }
            proof {
                assert(adj@ =~= spec_connections_upto(
                    *self,
                    rule,
                    x as int,
                    y as int,
                    d + 1,
                ));
                assert forall|dd: int, b: (int, int)|
                    0 <= dd < d + 1 && self.spec_neighbor(x as int, y as int, dd) == Some(b)
                        && rule.spec_connects(
                        self.at(b.0, b.1),
                        self.at(x as int, y as int),
                    ) implies exists|j: int|
                    0 <= j < adj@.len() && (adj@[j].0 as int, adj@[j].1 as int) == b by {
                    if dd < d {
                        let j = choose|j: int|
                            0 <= j < old_adj.len() && (old_adj[j].0 as int, old_adj[j].1 as int)
                                == b;
                        assert(adj@[j] == old_adj[j]);
                        assert(0 <= j < adj@.len() && (adj@[j].0 as int, adj@[j].1 as int) == b);
                    }
                }
            }
            d = d + 1;
        }
        proof {
            assert forall|b: (int, int)|
                spec_step(*self, rule, (x as int, y as int), b) implies exists|j: int|
                0 <= j < adj@.len() && (adj@[j].0 as int, adj@[j].1 as int) == b by {
                self.lemma_adjacent_has_dir((x as int, y as int), b);
            }
        }
        adj
    }
}


/// The entry one expansion slot contributes to the neighbor list.
pub open spec fn spec_conn_at(g: TileArray, rule: ConnectRule, x: int, y: int, d: int) -> Seq<
    (usize, usize, TileKind),
> {
    match g.spec_neighbor(x, y, d) {
        Option::Some(c) => if rule.spec_connects(g.at(c.0, c.1), g.at(x, y)) {
            seq![(c.0 as usize, c.1 as usize, g.at(c.0, c.1))]
        } else {
            Seq::empty()
        },
        Option::None => Seq::empty(),
    }
}

/// The contributions of the first `k` expansion slots, in the fixed order
/// west, east, south, north.
pub open spec fn spec_connections_upto(
    g: TileArray,
    rule: ConnectRule,
    x: int,
    y: int,
    k: int,
) -> Seq<(usize, usize, TileKind)>
    decreases k,
{
    if k <= 0 {
        Seq::empty()
    } else {
        spec_connections_upto(g, rule, x, y, k - 1) + spec_conn_at(g, rule, x, y, k - 1)
    }
}

/// The exact neighbor list `get_connections` returns: the in-bounds
/// cardinal neighbors whose kind connects to the cell's kind, in the fixed
/// expansion order west, east, south, north.
pub open spec fn spec_connections(g: TileArray, rule: ConnectRule, x: int, y: int) -> Seq<
    (usize, usize, TileKind),
> {
    spec_connections_upto(g, rule, x, y, 4)
}

/// How many tiles of a row-major sequence are empty.
pub open spec fn count_empty(s: Seq<TileKind>) -> nat
    decreases s.len(),
{
    if s.len() == 0 {
        0
    } else {
        count_empty(s.drop_last()) + (if s.last() == TileKind::Empty {
            1nat
        } else {
            0nat
        })
    }
}

/// Overwriting an empty tile with a non-empty kind lowers the empty count by
/// one.
pub proof fn lemma_count_empty_update(s: Seq<TileKind>, i: int, v: TileKind)
    requires
        0 <= i < s.len(),
        s[i] == TileKind::Empty,
        v != TileKind::Empty,
    ensures
        count_empty(s.update(i, v)) + 1 == count_empty(s),
    decreases s.len(),
{
    let t = s.update(i, v);
    if i == s.len() - 1 {
        assert(t.drop_last() =~= s.drop_last());
    } else {
        assert(t.drop_last() =~= s.drop_last().update(i, v));
        assert(t.last() == s.last());
        lemma_count_empty_update(s.drop_last(), i, v);
    }
}

/// How many flags of a sequence are set.
pub open spec fn count_true(s: Seq<bool>) -> nat
    decreases s.len(),
{
    if s.len() == 0 {
        0
    } else {
        count_true(s.drop_last()) + (if s.last() {
            1nat
        } else {
            0nat
        })
    }
}

/// The number of set flags never exceeds the length.
pub proof fn lemma_count_true_le_len(s: Seq<bool>)
    ensures
        count_true(s) <= s.len(),
    decreases s.len(),
{
    if s.len() > 0 {
        lemma_count_true_le_len(s.drop_last());
    }
}

/// Setting a clear flag raises the count of set flags by one.
pub proof fn lemma_count_true_update(s: Seq<bool>, i: int)
    requires
        0 <= i < s.len(),
        !s[i],
    ensures
        count_true(s.update(i, true)) == count_true(s) + 1,
    decreases s.len(),
{
    let t = s.update(i, true);
    if i == s.len() - 1 {
        assert(t.drop_last() =~= s.drop_last());
    } else {
        assert(t.drop_last() =~= s.drop_last().update(i, true));
        assert(t.last() == s.last());
        lemma_count_true_update(s.drop_last(), i);
    }
}

} // verus!
