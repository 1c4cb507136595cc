//! Connectivity analysis and corridor path search: flood-filled connected
//! components of occupied tiles under the semantic rule, and a
//! breadth-first path search under the pathing rule.

use vstd::prelude::*;

use crate::tile::ConnectRule;
use crate::tile::TileArray;
use crate::tile::TileKind;
use crate::tile::count_true;
use crate::tile::lemma_count_true_le_len;
use crate::tile::lemma_count_true_update;
use crate::tile::lemma_idx_bounds;
use crate::tile::lemma_idx_ne;
use crate::tile::lemma_reach_step_right;
use crate::tile::lemma_reach_sym;
use crate::tile::lemma_reach_trans;
use crate::tile::pt;
use crate::tile::spec_reach;
use crate::tile::spec_reach_n;
use crate::tile::spec_step;

verus! {

/// The mark vector covers the grid.
pub open spec fn vis_dims(g: TileArray, vis: Seq<bool>) -> bool {
    vis.len() == g.width * g.height
}

/// Whether the cell `(x, y)` is marked.
pub open spec fn vis_at(g: TileArray, vis: Seq<bool>, x: int, y: int) -> bool {
    vis[y * g.width + x]
}

/// Every marked cell is occupied.
pub open spec fn vis_occupied(g: TileArray, vis: Seq<bool>) -> bool {
    forall|x: int, y: int|
        g.spec_in_bounds(x, y) && #[trigger] vis_at(g, vis, x, y) ==> g.at(x, y)
            != TileKind::Empty
}

/// The marked set is closed under steps of the given rule.
pub open spec fn vis_closed(g: TileArray, rule: ConnectRule, vis: Seq<bool>) -> bool {
    forall|a: (int, int), b: (int, int)|
        g.spec_in_bounds(a.0, a.1) && vis_at(g, vis, a.0, a.1) && #[trigger] spec_step(
            g,
            rule,
            a,
            b,
        ) ==> vis_at(g, vis, b.0, b.1)
}

/// Whatever is reachable from a marked cell of a step-closed marked set is
/// itself marked.
pub proof fn lemma_closed_reach(
    g: TileArray,
    rule: ConnectRule,
    vis: Seq<bool>,
    a: (int, int),
    b: (int, int),
    n: nat,
)
    requires
        g.spec_in_bounds(a.0, a.1),
        vis_at(g, vis, a.0, a.1),
        vis_closed(g, rule, vis),
        spec_reach_n(g, rule, a, b, n),
    ensures
        g.spec_in_bounds(b.0, b.1),
        vis_at(g, vis, b.0, b.1),
    decreases n,
{
    if a == b {
    } else {
        let c = choose|c: (int, int)|
            spec_step(g, rule, a, c) && spec_reach_n(g, rule, c, b, (n - 1) as nat);
        assert(vis_at(g, vis, c.0, c.1));
        lemma_closed_reach(g, rule, vis, c, b, (n - 1) as nat);
    }
}

/// Reads the mark of cell `(x, y)`.
fn vis_get(g: &TileArray, vis: &Vec<bool>, x: usize, y: usize) -> (r: bool)
    requires
        g.wf(),
        vis_dims(*g, vis@),
        g.spec_in_bounds(x as int, y as int),
    ensures
        r == vis_at(*g, vis@, x as int, y as int),
{
    proof {
        lemma_idx_bounds(g.width as int, g.height as int, x as int, y as int);
    }
    let n: usize = vis.len();
    vis[y * g.width + x]
}

/// Marks the cell `(x, y)`, raising the mark count by one.
fn vis_mark(g: &TileArray, vis: &mut Vec<bool>, x: usize, y: usize)
    requires
        g.wf(),
        vis_dims(*g, old(vis)@),
        g.spec_in_bounds(x as int, y as int),
        !vis_at(*g, old(vis)@, x as int, y as int),
    ensures
        vis_dims(*g, final(vis)@),
        vis_at(*g, final(vis)@, x as int, y as int),
        forall|x2: int, y2: int|
            g.spec_in_bounds(x2, y2) && !(x2 == x as int && y2 == y as int) ==> vis_at(
                *g,
                final(vis)@,
                x2,
                y2,
            ) == vis_at(*g, old(vis)@, x2, y2),
        count_true(final(vis)@) == count_true(old(vis)@) + 1,
{
    proof {
        lemma_idx_bounds(g.width as int, g.height as int, x as int, y as int);
        lemma_count_true_update(vis@, y as int * g.width + x as int);
    }
    let n: usize = vis.len();
    let i: usize = y * g.width + x;
    vis.set(i, true);
    proof {
        assert forall|x2: int, y2: int|
            g.spec_in_bounds(x2, y2) && !(x2 == x as int && y2 == y as int) implies vis_at(
            *g,
            vis@,
            x2,
            y2,
        ) == vis_at(*g, old(vis)@, x2, y2) by {
            lemma_idx_bounds(g.width as int, g.height as int, x2, y2);
            lemma_idx_ne(g.width as int, g.height as int, x as int, y as int, x2, y2);
        }
    }
}

/// Flood-fills the component of `(rx, ry)` under the semantic rule, marking
/// every cell it reaches and returning the component's hallway members.
fn flood_from(g: &TileArray, vis: &mut Vec<bool>, rx: usize, ry: usize) -> (comp: Vec<
    (usize, usize),
>)
    requires
        g.wf(),
        vis_dims(*g, old(vis)@),
        vis_occupied(*g, old(vis)@),
        vis_closed(*g, ConnectRule::Semantic, old(vis)@),
        g.spec_in_bounds(rx as int, ry as int),
        g.at(rx as int, ry as int) != TileKind::Empty,
        !vis_at(*g, old(vis)@, rx as int, ry as int),
    ensures
        vis_dims(*g, final(vis)@),
        vis_occupied(*g, final(vis)@),
        vis_closed(*g, ConnectRule::Semantic, final(vis)@),
        // marks only grow
        forall|x: int, y: int|
            g.spec_in_bounds(x, y) && vis_at(*g, old(vis)@, x, y) ==> vis_at(
                *g,
                final(vis)@,
                x,
                y,
            ),
        vis_at(*g, final(vis)@, rx as int, ry as int),
        // the component's hallway members, all reachable from the root
        forall|j: int|
            0 <= j < comp@.len() ==> {
                let t = #[trigger] comp@[j];
                &&& g.spec_in_bounds(t.0 as int, t.1 as int)
                &&& g.at(t.0 as int, t.1 as int) == TileKind::Hallway
                &&& !vis_at(*g, old(vis)@, t.0 as int, t.1 as int)
                &&& vis_at(*g, final(vis)@, t.0 as int, t.1 as int)
                &&& spec_reach(*g, ConnectRule::Semantic, (rx as int, ry as int), pt(t))
            },
        // every newly marked hallway tile is in the component
        forall|x: int, y: int|
            g.spec_in_bounds(x, y) && vis_at(*g, final(vis)@, x, y) && !vis_at(
                *g,
                old(vis)@,
                x,
                y,
            ) && g.at(x, y) == TileKind::Hallway ==> comp@.contains((x as usize, y as usize)),
        // newly marked cells hang off the root
        forall|x: int, y: int|
            g.spec_in_bounds(x, y) && vis_at(*g, final(vis)@, x, y) && !vis_at(
                *g,
                old(vis)@,
                x,
                y,
            ) ==> spec_reach(*g, ConnectRule::Semantic, (rx as int, ry as int), (x, y)),
{
    let rule = ConnectRule::Semantic;
    let n: usize = vis.len();
    let root: (usize, usize) = (rx, ry);
    let mut queue: Vec<(usize, usize)> = Vec::new();
    let mut comp: Vec<(usize, usize)> = Vec::new();
    let mut head: usize = 0;
    vis_mark(g, vis, rx, ry);
    queue.push(root);
    if g.get(rx, ry) == TileKind::Hallway {
        comp.push(root);
    }
    proof {
        assert(spec_reach_n(*g, rule, pt(root), pt(root), 0));
    }
    proof {
        lemma_count_true_le_len(vis@);
        assert(queue@[0] == root);
        assert forall|x: int, y: int|
            g.spec_in_bounds(x, y) && #[trigger] vis_at(*g, vis@, x, y) && !vis_at(
                *g,
                old(vis)@,
                x,
                y,
            ) implies queue@.contains((x as usize, y as usize)) by {
            assert(x == rx as int && y == ry as int);
            assert(queue@[0] == (x as usize, y as usize));
        }
        assert forall|a: (int, int), b: (int, int)|
            g.spec_in_bounds(a.0, a.1) && vis_at(*g, vis@, a.0, a.1) && #[trigger] spec_step(
            *g,
            rule,
            a,
            b,
        ) implies vis_at(*g, vis@, b.0, b.1) || exists|qi: int|
            #![trigger queue@[qi]]
            0 <= qi < queue@.len() && pt(queue@[qi]) == a by {
            if a == (rx as int, ry as int) {
                assert(pt(queue@[0]) == a);
            } else {
                assert(vis_at(*g, old(vis)@, a.0, a.1));
                assert(vis_at(*g, old(vis)@, b.0, b.1));
            }
        }
    }
    while head < queue.len()
        invariant
            g.wf(),
            vis_dims(*g, vis@),
            vis_occupied(*g, vis@),
            rule == ConnectRule::Semantic,
            n == g.width * g.height,
            head <= queue@.len(),
            queue@.len() >= 1,
            queue@[0] == (rx, ry),
            count_true(vis@) <= n,
            g.spec_in_bounds(rx as int, ry as int),
            // queue members
            forall|qi: int|
                0 <= qi < queue@.len() ==> {
                    let t = #[trigger] queue@[qi];
                    &&& g.spec_in_bounds(t.0 as int, t.1 as int)
                    &&& vis_at(*g, vis@, t.0 as int, t.1 as int)
                    &&& !vis_at(*g, old(vis)@, t.0 as int, t.1 as int)
                    &&& spec_reach(*g, rule, (rx as int, ry as int), pt(t))
                },
            // marks only grow
            forall|x: int, y: int|
                g.spec_in_bounds(x, y) && vis_at(*g, old(vis)@, x, y) ==> vis_at(*g, vis@, x, y),
            // newly marked cells all sit in the queue
            forall|x: int, y: int|
                g.spec_in_bounds(x, y) && #[trigger] vis_at(*g, vis@, x, y) && !vis_at(
                    *g,
                    old(vis)@,
                    x,
                    y,
                ) ==> queue@.contains((x as usize, y as usize)),
            // closure, except at the unprocessed frontier
            forall|a: (int, int), b: (int, int)|
                g.spec_in_bounds(a.0, a.1) && vis_at(*g, vis@, a.0, a.1) && #[trigger] spec_step(
                    *g,
                    rule,
                    a,
                    b,
                ) ==> vis_at(*g, vis@, b.0, b.1) || exists|qi: int|
                    #![trigger queue@[qi]]
                    head <= qi < queue@.len() && pt(queue@[qi]) == a,
            // component members
            forall|j: int|
                0 <= j < comp@.len() ==> {
                    let t = #[trigger] comp@[j];
                    &&& g.spec_in_bounds(t.0 as int, t.1 as int)
                    &&& g.at(t.0 as int, t.1 as int) == TileKind::Hallway
                    &&& !vis_at(*g, old(vis)@, t.0 as int, t.1 as int)
                    &&& vis_at(*g, vis@, t.0 as int, t.1 as int)
                    &&& spec_reach(*g, rule, (rx as int, ry as int), pt(t))
                },
            // every queued hallway tile is recorded in the component
            forall|qi: int|
                0 <= qi < queue@.len() && g.at(
                    #[trigger] queue@[qi].0 as int,
                    queue@[qi].1 as int,
                ) == TileKind::Hallway ==> comp@.contains(queue@[qi]),
        decreases n - count_true(vis@) + queue@.len() - head,
    {
        let cur: (usize, usize) = queue[head];
        let conns = g.get_connections(cur.0, cur.1, ConnectRule::Semantic);
        let ghost balance = queue@.len() - count_true(vis@);
        let mut ci: usize = 0;
        while ci < conns.len()
            invariant
                g.wf(),
                vis_dims(*g, vis@),
                vis_occupied(*g, vis@),
                rule == ConnectRule::Semantic,
                n == g.width * g.height,
                head < queue@.len(),
                queue@[0] == (rx, ry),
                count_true(vis@) <= n,
                ci <= conns@.len(),
                g.spec_in_bounds(rx as int, ry as int),
                cur == queue@[head as int],
                forall|j: int|
                    0 <= j < conns@.len() ==> {
                        let (nx, ny, k) = #[trigger] conns@[j];
                        &&& spec_step(*g, rule, pt(cur), (nx as int, ny as int))
                        &&& k == g.at(nx as int, ny as int)
                    },
                forall|b: (int, int)|
                    #[trigger] spec_step(*g, rule, pt(cur), b) ==> exists|j: int|
                        0 <= j < conns@.len() && (conns@[j].0 as int, conns@[j].1 as int) == b,
                forall|qi: int|
                    0 <= qi < queue@.len() ==> {
                        let t = #[trigger] queue@[qi];
                        &&& g.spec_in_bounds(t.0 as int, t.1 as int)
                        &&& vis_at(*g, vis@, t.0 as int, t.1 as int)
                        &&& !vis_at(*g, old(vis)@, t.0 as int, t.1 as int)
                        &&& spec_reach(*g, rule, (rx as int, ry as int), pt(t))
                    },
                forall|x: int, y: int|
                    g.spec_in_bounds(x, y) && vis_at(*g, old(vis)@, x, y) ==> vis_at(
                        *g,
                        vis@,
                        x,
                        y,
                    ),
                forall|x: int, y: int|
                    g.spec_in_bounds(x, y) && #[trigger] vis_at(*g, vis@, x, y) && !vis_at(
                        *g,
                        old(vis)@,
                        x,
                        y,
                    ) ==> queue@.contains((x as usize, y as usize)),
                // the processed prefix of the neighbor list is marked
                forall|j: int|
                    0 <= j < ci ==> vis_at(
                        *g,
                        vis@,
                        #[trigger] conns@[j].0 as int,
                        conns@[j].1 as int,
                    ),
                forall|a: (int, int), b: (int, int)|
                    g.spec_in_bounds(a.0, a.1) && vis_at(*g, vis@, a.0, a.1)
                        && #[trigger] spec_step(*g, rule, a, b) ==> vis_at(*g, vis@, b.0, b.1)
                        || exists|qi: int|
                        #![trigger queue@[qi]]
                        head <= qi < queue@.len() && pt(queue@[qi]) == a,
                forall|j: int|
                    0 <= j < comp@.len() ==> {
                        let t = #[trigger] comp@[j];
                        &&& g.spec_in_bounds(t.0 as int, t.1 as int)
                        &&& g.at(t.0 as int, t.1 as int) == TileKind::Hallway
                        &&& !vis_at(*g, old(vis)@, t.0 as int, t.1 as int)
                        &&& vis_at(*g, vis@, t.0 as int, t.1 as int)
                        &&& spec_reach(*g, rule, (rx as int, ry as int), pt(t))
                    },
                forall|qi: int|
                    0 <= qi < queue@.len() && g.at(
                        #[trigger] queue@[qi].0 as int,
                        queue@[qi].1 as int,
                    ) == TileKind::Hallway ==> comp@.contains(queue@[qi]),
                // marks and queue entries stay paired up
                queue@.len() - count_true(vis@) == balance,
            decreases conns@.len() - ci,
        {
            let c = conns[ci];
            if !vis_get(g, vis, c.0, c.1) {
                let ghost pre_vis = vis@;
                let ghost pre_q = queue@;
                let ghost pre_comp = comp@;
                proof {
                    let curp = pt(cur);
                    let cp = (c.0 as int, c.1 as int);
                    assert(spec_step(*g, rule, curp, cp));
                    let m = choose|m: nat| spec_reach_n(*g, rule, (rx as int, ry as int), curp, m);
                    lemma_reach_step_right(*g, rule, (rx as int, ry as int), curp, cp, m);
                    assert(spec_reach(*g, rule, (rx as int, ry as int), cp));
                }
                vis_mark(g, vis, c.0, c.1);
                queue.push((c.0, c.1));
                if c.2 == TileKind::Hallway {
                    comp.push((c.0, c.1));
                }
                proof {
                    lemma_count_true_le_len(vis@);
                    assert(queue@ == pre_q.push((c.0, c.1)));
                    assert(queue@[queue@.len() - 1] == (c.0, c.1));
                    assert(queue@.contains((c.0, c.1)));
                    assert(pt(queue@[queue@.len() - 1]) == (c.0 as int, c.1 as int));
                    if c.2 == TileKind::Hallway {
                        assert(comp@[comp@.len() - 1] == (c.0, c.1));
                        assert(comp@.contains((c.0, c.1)));
                    }
                    assert forall|a: (int, int), b: (int, int)|
                        g.spec_in_bounds(a.0, a.1) && vis_at(*g, vis@, a.0, a.1)
                            && #[trigger] spec_step(*g, rule, a, b) implies vis_at(
                        *g,
                        vis@,
                        b.0,
                        b.1,
                    ) || exists|qi: int|
                        #![trigger queue@[qi]]
                        head <= qi < queue@.len() && pt(queue@[qi]) == a by {
                        if a == (c.0 as int, c.1 as int) {
                            assert(pt(queue@[queue@.len() - 1]) == a);
                        } else if !vis_at(*g, vis@, b.0, b.1) {
                            assert(vis_at(*g, pre_vis, a.0, a.1));
                            assert(!vis_at(*g, pre_vis, b.0, b.1));
                            let qi = choose|qi: int|
                                #![trigger pre_q[qi]]
                                head <= qi < pre_q.len() && pt(pre_q[qi]) == a;
                            assert(queue@[qi] == pre_q[qi]);
                            assert(head <= qi < queue@.len() && pt(queue@[qi]) == a);
                        }
                    }
                    assert forall|qi: int|
                        0 <= qi < queue@.len() && g.at(
                            #[trigger] queue@[qi].0 as int,
                            queue@[qi].1 as int,
                        ) == TileKind::Hallway implies comp@.contains(queue@[qi]) by {
                        if qi == queue@.len() - 1 {
                        } else {
                            assert(pre_q[qi] == queue@[qi]);
                            let cj = choose|cj: int|
                                0 <= cj < pre_comp.len() && pre_comp[cj] == queue@[qi];
                            assert(comp@[cj] == queue@[qi]);
                        }
                    }
                    assert forall|x: int, y: int|
                        g.spec_in_bounds(x, y) && #[trigger] vis_at(*g, vis@, x, y) && !vis_at(
                            *g,
                            old(vis)@,
                            x,
                            y,
                        ) implies queue@.contains((x as usize, y as usize)) by {
                        if x == c.0 as int && y == c.1 as int {
                        } else {
                            assert(vis_at(*g, pre_vis, x, y));
                            let p = (x as usize, y as usize);
                            assert(pre_q.contains(p));
                            let qi = choose|qi: int| 0 <= qi < pre_q.len() && pre_q[qi] == p;
                            assert(queue@[qi] == p);
                        }
                    }
                }
            }
            ci = ci + 1;
        }
        proof {
            assert forall|a: (int, int), b: (int, int)|
                g.spec_in_bounds(a.0, a.1) && vis_at(*g, vis@, a.0, a.1) && #[trigger] spec_step(
                *g,
                rule,
                a,
                b,
            ) implies vis_at(*g, vis@, b.0, b.1) || exists|qi: int|
                #![trigger queue@[qi]]
                head + 1 <= qi < queue@.len() && pt(queue@[qi]) == a by {
                if !vis_at(*g, vis@, b.0, b.1) {
                    let qi = choose|qi: int|
                        #![trigger queue@[qi]]
                        head <= qi < queue@.len() && pt(queue@[qi]) == a;
                    if qi == head {
                        assert(a == pt(cur));
                        let j = choose|j: int|
                            0 <= j < conns@.len() && (conns@[j].0 as int, conns@[j].1 as int) == b;
                        assert(vis_at(*g, vis@, conns@[j].0 as int, conns@[j].1 as int));
                        assert(false);
                    } else {
                        assert(head + 1 <= qi < queue@.len() && pt(queue@[qi]) == a);
                    }
                }
            }
        }
        head = head + 1;
    }
    proof {
        // at exit the marked set is closed: the frontier is empty
        assert forall|a: (int, int), b: (int, int)|
            g.spec_in_bounds(a.0, a.1) && vis_at(*g, vis@, a.0, a.1) && #[trigger] spec_step(
            *g,
            ConnectRule::Semantic,
            a,
            b,
        ) implies vis_at(*g, vis@, b.0, b.1) by {
            if !vis_at(*g, vis@, b.0, b.1) {
                let qi = choose|qi: int|
                    #![trigger queue@[qi]]
                    head <= qi < queue@.len() && pt(queue@[qi]) == a;
                assert(false);
            }
        }
        assert(vis_closed(*g, ConnectRule::Semantic, vis@));
        assert forall|x: int, y: int|
            g.spec_in_bounds(x, y) && vis_at(*g, vis@, x, y) && !vis_at(
                *g,
                old(vis)@,
                x,
                y,
            ) && g.at(x, y) == TileKind::Hallway implies comp@.contains(
            (x as usize, y as usize),
        ) by {
            assert(queue@.contains((x as usize, y as usize)));
            let qi = choose|qi: int| 0 <= qi < queue@.len() && queue@[qi] == (x as usize, y as usize);
            assert(g.at(queue@[qi].0 as int, queue@[qi].1 as int) == TileKind::Hallway);
        }
        assert forall|x: int, y: int|
            g.spec_in_bounds(x, y) && vis_at(*g, vis@, x, y) && !vis_at(
                *g,
                old(vis)@,
                x,
                y,
            ) implies spec_reach(*g, ConnectRule::Semantic, (rx as int, ry as int), (x, y)) by {
            assert(queue@.contains((x as usize, y as usize)));
            let qi = choose|qi: int| 0 <= qi < queue@.len() && queue@[qi] == (x as usize, y as usize);
            assert(pt(queue@[qi]) == (x, y));
        }
    }
    comp
}

/// Every component list is nonempty.
pub open spec fn comps_nonempty(rs: Seq<Vec<(usize, usize)>>) -> bool {
    forall|i: int| 0 <= i < rs.len() ==> (#[trigger] rs[i])@.len() > 0
}

/// Every listed member is an in-bounds hallway tile.
pub open spec fn comps_members_ok(g: TileArray, rs: Seq<Vec<(usize, usize)>>) -> bool {
    forall|i: int, j: int|
        0 <= i < rs.len() && 0 <= j < rs[i]@.len() ==> {
            let t = #[trigger] rs[i]@[j];
            g.spec_in_bounds(t.0 as int, t.1 as int) && g.at(t.0 as int, t.1 as int)
                == TileKind::Hallway
        }
}

/// Members of one component reach each other under the semantic rule.
pub open spec fn comps_mutual(g: TileArray, rs: Seq<Vec<(usize, usize)>>) -> bool {
    forall|i: int, j: int, k: int|
        0 <= i < rs.len() && 0 <= j < rs[i]@.len() && 0 <= k < rs[i]@.len()
            ==> #[trigger] spec_reach(g, ConnectRule::Semantic, pt(rs[i]@[j]), pt(rs[i]@[k]))
}

/// Every hallway tile of the grid is listed in some component.
pub open spec fn comps_cover(g: TileArray, rs: Seq<Vec<(usize, usize)>>) -> bool {
    forall|x: int, y: int|
        g.spec_in_bounds(x, y) && #[trigger] g.at(x, y) == TileKind::Hallway ==> exists|i: int|
            0 <= i < rs.len() && #[trigger] rs[i]@.contains((x as usize, y as usize))
}

/// Members of distinct components do not reach each other.
pub open spec fn comps_separated(g: TileArray, rs: Seq<Vec<(usize, usize)>>) -> bool {
    forall|i1: int, j1: int, i2: int, j2: int|
        0 <= i1 < rs.len() && 0 <= j1 < rs[i1]@.len() && 0 <= i2 < rs.len() && 0 <= j2
            < rs[i2]@.len() && i1 != i2 ==> !#[trigger] spec_reach(
            g,
            ConnectRule::Semantic,
            pt(rs[i1]@[j1]),
            pt(rs[i2]@[j2]),
        )
}

/// All members sit in the marked set.
pub open spec fn comps_marked(g: TileArray, rs: Seq<Vec<(usize, usize)>>, vis: Seq<bool>) -> bool {
    forall|i: int, j: int|
        0 <= i < rs.len() && 0 <= j < rs[i]@.len() ==> {
            let t = #[trigger] rs[i]@[j];
            vis_at(g, vis, t.0 as int, t.1 as int)
        }
}

/// Every marked hallway tile is listed in some component.
pub open spec fn marked_recorded(g: TileArray, rs: Seq<Vec<(usize, usize)>>, vis: Seq<bool>) -> bool {
    forall|x: int, y: int|
        g.spec_in_bounds(x, y) && #[trigger] vis_at(g, vis, x, y) && g.at(x, y)
            == TileKind::Hallway ==> exists|i: int|
            0 <= i < rs.len() && #[trigger] rs[i]@.contains((x as usize, y as usize))
}

/// Computes the connected components of the occupied tiles under the
/// semantic adjacency rule, each reduced to its hallway members. The scan
/// runs in row-major order, so the component list and each component's
/// first tile are deterministic: a component is led by its first tile in
/// row-major order, which fixes the endpoints the repair engine picks.
/// Components without a hallway member do not arise from the generator's
/// placements, since every placed room carries at least one hallway seed;
/// they are omitted from the returned list.
pub fn hallway_components(g: &TileArray) -> (r: Vec<Vec<(usize, usize)>>)
    requires
        g.wf(),
    ensures
        comps_nonempty(r@),
        comps_members_ok(*g, r@),
        comps_mutual(*g, r@),
        comps_cover(*g, r@),
        comps_separated(*g, r@),
{
    let n: usize = g.inner.len();
    let mut vis: Vec<bool> = Vec::new();
    let mut i: usize = 0;
    while i < n
        invariant
            i <= n,
            vis@.len() == i,
            forall|j: int| 0 <= j < i ==> !vis@[j],
        decreases n - i,
    {
        vis.push(false);
        i = i + 1;
    }
    let mut result: Vec<Vec<(usize, usize)>> = Vec::new();
    proof {
        assert forall|x: int, y: int|
            g.spec_in_bounds(x, y) implies !vis_at(*g, vis@, x, y) by {
            lemma_idx_bounds(g.width as int, g.height as int, x, y);
        }
    }
    let mut y: usize = 0;
    while y < g.height
        invariant
            g.wf(),
            n == g.width * g.height,
            y <= g.height,
            vis_dims(*g, vis@),
            vis_occupied(*g, vis@),
            vis_closed(*g, ConnectRule::Semantic, vis@),
            comps_nonempty(result@),
            comps_members_ok(*g, result@),
            comps_mutual(*g, result@),
            comps_separated(*g, result@),
            comps_marked(*g, result@, vis@),
            marked_recorded(*g, result@, vis@),
            forall|x2: int, y2: int|
                g.spec_in_bounds(x2, y2) && y2 < y && g.at(x2, y2) != TileKind::Empty
                    ==> vis_at(*g, vis@, x2, y2),
        decreases g.height - y,
    {
        let mut x: usize = 0;
        while x < g.width
            invariant
                g.wf(),
                n == g.width * g.height,
                y < g.height,
                x <= g.width,
                vis_dims(*g, vis@),
                vis_occupied(*g, vis@),
                vis_closed(*g, ConnectRule::Semantic, vis@),
                comps_nonempty(result@),
                comps_members_ok(*g, result@),
                comps_mutual(*g, result@),
                comps_separated(*g, result@),
                comps_marked(*g, result@, vis@),
                marked_recorded(*g, result@, vis@),
                forall|x2: int, y2: int|
                    g.spec_in_bounds(x2, y2) && (y2 < y || (y2 == y && x2 < x)) && g.at(x2, y2)
                        != TileKind::Empty ==> vis_at(*g, vis@, x2, y2),
            decreases g.width - x,
        {
            let occupied_here = g.get(x, y) != TileKind::Empty;
            if occupied_here && !vis_get(g, &vis, x, y) {
                let ghost pre_vis = vis@;
                let ghost pre_rs = result@;
                let comp = flood_from(g, &mut vis, x, y);
                let ghost rootp = (x as int, y as int);
                if comp.len() > 0 {
                    result.push(comp);
                    proof {
                        let rs = result@;
                        let last = rs.len() - 1;
                        assert(rs[last] == comp);
                        assert forall|i1: int, j: int|
                            0 <= i1 < rs.len() && 0 <= j < rs[i1]@.len() implies {
                            let t = #[trigger] rs[i1]@[j];
                            &&& g.spec_in_bounds(t.0 as int, t.1 as int)
                            &&& g.at(t.0 as int, t.1 as int) == TileKind::Hallway
                            &&& vis_at(*g, vis@, t.0 as int, t.1 as int)
                        } by {
                            if i1 < last {
                                assert(rs[i1] == pre_rs[i1]);
                                let t = rs[i1]@[j];
                                assert(vis_at(*g, pre_vis, t.0 as int, t.1 as int));
                            }
                        }
                        assert(comps_members_ok(*g, rs));
                        assert(comps_marked(*g, rs, vis@));
                        assert forall|i1: int, j: int, k: int|
                            0 <= i1 < rs.len() && 0 <= j < rs[i1]@.len() && 0 <= k
                                < rs[i1]@.len() implies #[trigger] spec_reach(
                            *g,
                            ConnectRule::Semantic,
                            pt(rs[i1]@[j]),
                            pt(rs[i1]@[k]),
                        ) by {
                            if i1 < last {
                                assert(rs[i1] == pre_rs[i1]);
                                assert(spec_reach(
                                    *g,
                                    ConnectRule::Semantic,
                                    pt(pre_rs[i1]@[j]),
                                    pt(pre_rs[i1]@[k]),
                                ));
                            } else {
                                let ta = comp@[j];
                                let tb = comp@[k];
                                assert(spec_reach(*g, ConnectRule::Semantic, rootp, pt(ta)));
                                assert(spec_reach(*g, ConnectRule::Semantic, rootp, pt(tb)));
                                lemma_reach_sym(*g, rootp, pt(ta));
                                lemma_reach_trans(
                                    *g,
                                    ConnectRule::Semantic,
                                    pt(ta),
                                    rootp,
                                    pt(tb),
                                );
                            }
                        }
                        assert(comps_mutual(*g, rs));
                        assert forall|i1: int, j1: int, i2: int, j2: int|
                            0 <= i1 < rs.len() && 0 <= j1 < rs[i1]@.len() && 0 <= i2 < rs.len()
                                && 0 <= j2 < rs[i2]@.len() && i1 != i2 implies !#[trigger] spec_reach(
                            *g,
                            ConnectRule::Semantic,
                            pt(rs[i1]@[j1]),
                            pt(rs[i2]@[j2]),
                        ) by {
                            if i1 < last && i2 < last {
                                assert(rs[i1] == pre_rs[i1]);
                                assert(rs[i2] == pre_rs[i2]);
                                assert(!spec_reach(
                                    *g,
                                    ConnectRule::Semantic,
                                    pt(pre_rs[i1]@[j1]),
                                    pt(pre_rs[i2]@[j2]),
                                ));
                            } else if i1 == last {
                                // a fresh member is unreached from an older one
                                assert(rs[i2] == pre_rs[i2]);
                                let ta = comp@[j1];
                                let tb = rs[i2]@[j2];
                                if spec_reach(*g, ConnectRule::Semantic, pt(ta), pt(tb)) {
                                    lemma_reach_sym(*g, pt(ta), pt(tb));
                                    let m = choose|m: nat|
                                        spec_reach_n(
                                            *g,
                                            ConnectRule::Semantic,
                                            pt(tb),
                                            pt(ta),
                                            m,
                                        );
                                    assert(vis_at(*g, pre_vis, tb.0 as int, tb.1 as int));
                                    lemma_closed_reach(
                                        *g,
                                        ConnectRule::Semantic,
                                        pre_vis,
                                        pt(tb),
                                        pt(ta),
                                        m,
                                    );
                                    assert(!vis_at(*g, pre_vis, ta.0 as int, ta.1 as int));
                                    assert(false);
                                }
                            } else {
                                assert(rs[i1] == pre_rs[i1]);
                                let ta = rs[i1]@[j1];
                                let tb = comp@[j2];
                                if spec_reach(*g, ConnectRule::Semantic, pt(ta), pt(tb)) {
                                    let m = choose|m: nat|
                                        spec_reach_n(
                                            *g,
                                            ConnectRule::Semantic,
                                            pt(ta),
                                            pt(tb),
                                            m,
                                        );
                                    assert(vis_at(*g, pre_vis, ta.0 as int, ta.1 as int));
                                    lemma_closed_reach(
                                        *g,
                                        ConnectRule::Semantic,
                                        pre_vis,
                                        pt(ta),
                                        pt(tb),
                                        m,
                                    );
                                    assert(!vis_at(*g, pre_vis, tb.0 as int, tb.1 as int));
                                    assert(false);
                                }
                            }
                        }
                        assert(comps_separated(*g, rs));
                        assert forall|x2: int, y2: int|
                            g.spec_in_bounds(x2, y2) && #[trigger] vis_at(*g, vis@, x2, y2)
                                && g.at(x2, y2) == TileKind::Hallway implies exists|i1: int|
                            0 <= i1 < rs.len() && #[trigger] rs[i1]@.contains(
                                (x2 as usize, y2 as usize),
                            ) by {
                            if vis_at(*g, pre_vis, x2, y2) {
                                let i1 = choose|i1: int|
                                    0 <= i1 < pre_rs.len() && #[trigger] pre_rs[i1]@.contains(
                                        (x2 as usize, y2 as usize),
                                    );
                                assert(rs[i1] == pre_rs[i1]);
                                assert(rs[i1]@.contains((x2 as usize, y2 as usize)));
                            } else {
                                assert(comp@.contains((x2 as usize, y2 as usize)));
                                assert(rs[last]@.contains((x2 as usize, y2 as usize)));
                            }
                        }
                        assert(marked_recorded(*g, rs, vis@));
                    }
                } else {
                    proof {
                        assert forall|x2: int, y2: int|
                            g.spec_in_bounds(x2, y2) && #[trigger] vis_at(*g, vis@, x2, y2)
                                && g.at(x2, y2) == TileKind::Hallway implies exists|i1: int|
                            0 <= i1 < result@.len() && #[trigger] result@[i1]@.contains(
                                (x2 as usize, y2 as usize),
                            ) by {
                            if vis_at(*g, pre_vis, x2, y2) {
                                let i1 = choose|i1: int|
                                    0 <= i1 < pre_rs.len() && #[trigger] pre_rs[i1]@.contains(
                                        (x2 as usize, y2 as usize),
                                    );
                                assert(result@[i1]@.contains((x2 as usize, y2 as usize)));
                            } else {
                                assert(comp@.contains((x2 as usize, y2 as usize)));
                                assert(false);
                            }
                        }
                        assert(marked_recorded(*g, result@, vis@));
                        assert forall|i1: int, j: int|
                            0 <= i1 < result@.len() && 0 <= j < result@[i1]@.len() implies {
                            let t = #[trigger] result@[i1]@[j];
                            vis_at(*g, vis@, t.0 as int, t.1 as int)
                        } by {
                            let t = result@[i1]@[j];
                            assert(vis_at(*g, pre_vis, t.0 as int, t.1 as int));
                        }
                        assert(comps_marked(*g, result@, vis@));
                    }
                }
            }
            x = x + 1;
        }
        y = y + 1;
    }
    proof {
        assert forall|x2: int, y2: int|
            g.spec_in_bounds(x2, y2) && #[trigger] g.at(x2, y2) == TileKind::Hallway implies exists|
            i1: int,
        |
            0 <= i1 < result@.len() && #[trigger] result@[i1]@.contains(
                (x2 as usize, y2 as usize),
            ) by {
            assert(vis_at(*g, vis@, x2, y2));
        }
        assert(comps_cover(*g, result@));
    }
    result
}

/// Whether the list holds the tile `(x, y)`.
fn contains_tile(v: &Vec<(usize, usize)>, x: usize, y: usize) -> (r: bool)
    ensures
        r == v@.contains((x, y)),
{
    let mut i: usize = 0;
    while i < v.len()
        invariant
            i <= v@.len(),
            forall|j: int| 0 <= j < i ==> v@[j] != (x, y),
        decreases v@.len() - i,
    {
        let e = v[i];
        if e.0 == x && e.1 == y {
            proof {
                assert(v@[i as int] == (x, y));
            }
            return true;
        }
        i = i + 1;
    }
    proof {
        if v@.contains((x, y)) {
            let j = choose|j: int| 0 <= j < v@.len() && v@[j] == (x, y);
            assert(false);
        }
    }
    false
}

/// The goal test of a corridor repair search.
pub enum SearchGoal {
    /// Reach the first tile of another component, or any hallway tile that
    /// lies outside the source component.
    Merge { target: (usize, usize), component: Vec<(usize, usize)> },
    /// Reach any hallway tile other than the dead end being repaired.
    Attach { origin: (usize, usize) },
}

impl SearchGoal {
    /// Whether the tile `t` satisfies this goal on grid `g`.
    pub open spec fn holds(self, g: TileArray, t: (int, int)) -> bool {
        match self {
            SearchGoal::Merge { target, component } => t == pt(target) || (g.at(t.0, t.1)
                == TileKind::Hallway && !component@.contains((t.0 as usize, t.1 as usize))),
            SearchGoal::Attach { origin } => g.at(t.0, t.1) == TileKind::Hallway && t != pt(
                origin,
            ),
        }
    }

    /// Evaluates the goal on the tile `(x, y)`.
    fn check(&self, g: &TileArray, x: usize, y: usize) -> (r: bool)
        requires
            g.wf(),
            g.spec_in_bounds(x as int, y as int),
        ensures
            r == self.holds(*g, (x as int, y as int)),
    {
        match self {
            SearchGoal::Merge { target, component } => {
                if target.0 == x && target.1 == y {
                    true
                } else {
                    let k = g.get(x, y);
                    k == TileKind::Hallway && !contains_tile(component, x, y)
                }
            },
            SearchGoal::Attach { origin } => {
                let k = g.get(x, y);
                k == TileKind::Hallway && !(origin.0 == x && origin.1 == y)
            },
        }
    }
}

/// Breadth-first search from `(sx, sy)` under the pathing rule. Returns a
/// path whose tiles step from the start to a goal tile, or `None` exactly
/// when no tile satisfying the goal can be reached.
pub fn find_path(g: &TileArray, sx: usize, sy: usize, goal: &SearchGoal) -> (r: Option<
    Vec<(usize, usize)>,
>)
    requires
        g.wf(),
        g.spec_in_bounds(sx as int, sy as int),
    ensures
        match r {
            Some(p) => {
                &&& p@.len() >= 1
                &&& p@[0] == (sx, sy)
                &&& forall|i: int|
                    0 <= i < p@.len() ==> g.spec_in_bounds(
                        (#[trigger] p@[i]).0 as int,
                        p@[i].1 as int,
                    )
                &&& forall|i: int|
                    0 <= i < p@.len() - 1 ==> spec_step(
                        *g,
                        ConnectRule::Pathing,
                        pt(#[trigger] p@[i]),
                        pt(p@[i + 1]),
                    )
                &&& goal.holds(*g, pt(p@[p@.len() - 1]))
                &&& forall|i: int, j: int| 0 <= i < j < p@.len() ==> p@[i] != p@[j]
            },
            None => forall|t: (int, int)|
                spec_reach(*g, ConnectRule::Pathing, (sx as int, sy as int), t) ==> !goal.holds(
                    *g,
                    t,
                ),
        },
{
    let rule = ConnectRule::Pathing;
    let n: usize = g.inner.len();
    let mut vis: Vec<bool> = Vec::new();
    let mut i: usize = 0;
    while i < n
        invariant
            i <= n,
            vis@.len() == i,
            forall|j: int| 0 <= j < i ==> !vis@[j],
        decreases n - i,
    {
        vis.push(false);
        i = i + 1;
    }
    proof {
        assert forall|x: int, y: int|
            g.spec_in_bounds(x, y) implies !vis_at(*g, vis@, x, y) by {
            lemma_idx_bounds(g.width as int, g.height as int, x, y);
        }
    }
    let mut queue: Vec<(usize, usize)> = Vec::new();
    let mut parent: Vec<usize> = Vec::new();
    let mut head: usize = 0;
    vis_mark(g, &mut vis, sx, sy);
    queue.push((sx, sy));
    parent.push(0);
    proof {
        lemma_count_true_le_len(vis@);
        assert(queue@[0] == (sx, sy));
        assert forall|a: (int, int), b: (int, int)|
            g.spec_in_bounds(a.0, a.1) && vis_at(*g, vis@, a.0, a.1) && #[trigger] spec_step(
            *g,
            rule,
            a,
            b,
        ) implies vis_at(*g, vis@, b.0, b.1) || exists|qi: int|
            #![trigger queue@[qi]]
            0 <= qi < queue@.len() && pt(queue@[qi]) == a by {
            assert(a == (sx as int, sy as int));
            assert(pt(queue@[0]) == a);
        }
    }
    while head < queue.len()
        invariant
            g.wf(),
            rule == ConnectRule::Pathing,
            n == g.width * g.height,
            vis_dims(*g, vis@),
            head <= queue@.len(),
            count_true(vis@) <= n,
            queue@.len() == parent@.len(),
            queue@.len() >= 1,
            queue@[0] == (sx, sy),
            g.spec_in_bounds(sx as int, sy as int),
            forall|qi: int|
                0 <= qi < queue@.len() ==> {
                    let t = #[trigger] queue@[qi];
                    g.spec_in_bounds(t.0 as int, t.1 as int) && vis_at(
                        *g,
                        vis@,
                        t.0 as int,
                        t.1 as int,
                    )
                },
            forall|qi: int, qj: int| 0 <= qi < qj < queue@.len() ==> queue@[qi] != queue@[qj],
            parent@[0] == 0,
            forall|qi: int|
                1 <= qi < queue@.len() ==> (#[trigger] parent@[qi]) < qi && spec_step(
                    *g,
                    rule,
                    pt(queue@[parent@[qi] as int]),
                    pt(queue@[qi]),
                ),
            forall|x: int, y: int|
                g.spec_in_bounds(x, y) && #[trigger] vis_at(*g, vis@, x, y) ==> queue@.contains(
                    (x as usize, y as usize),
                ),
            forall|qi: int| 0 <= qi < head ==> !goal.holds(*g, pt(#[trigger] queue@[qi])),
            forall|a: (int, int), b: (int, int)|
                g.spec_in_bounds(a.0, a.1) && vis_at(*g, vis@, a.0, a.1) && #[trigger] spec_step(
                    *g,
                    rule,
                    a,
                    b,
                ) ==> vis_at(*g, vis@, b.0, b.1) || exists|qi: int|
                    #![trigger queue@[qi]]
                    head <= qi < queue@.len() && pt(queue@[qi]) == a,
        decreases n - count_true(vis@) + queue@.len() - head,
    {
        let cur: (usize, usize) = queue[head];
        if goal.check(g, cur.0, cur.1) {
            let ghost goal_idx = head as int;
            let mut rev: Vec<(usize, usize)> = Vec::new();
            let ghost mut idxs: Seq<int> = Seq::empty();
            let mut i2: usize = head;
            loop
                invariant_except_break
                    rev@.len() == 0 ==> i2 as int == goal_idx,
                    rev@.len() >= 1 ==> spec_step(
                        *g,
                        rule,
                        pt(queue@[i2 as int]),
                        pt(rev@[rev@.len() - 1]),
                    ),
                    rev@.len() >= 1 ==> (i2 as int) < idxs[rev@.len() - 1],
                invariant
                    idxs.len() == rev@.len(),
                    forall|a: int|
                        0 <= a < rev@.len() ==> 0 <= #[trigger] idxs[a] < queue@.len()
                            && rev@[a] == queue@[idxs[a]],
                    forall|a: int, b: int| 0 <= a < b < idxs.len() ==> idxs[a] > idxs[b],
                    forall|qi: int, qj: int|
                        0 <= qi < qj < queue@.len() ==> queue@[qi] != queue@[qj],
                    g.wf(),
                    rule == ConnectRule::Pathing,
                    queue@.len() == parent@.len(),
                    queue@.len() >= 1,
                    queue@[0] == (sx, sy),
                    0 <= goal_idx < queue@.len(),
                    i2 < queue@.len(),
                    parent@[0] == 0,
                    forall|qi: int|
                        0 <= qi < queue@.len() ==> g.spec_in_bounds(
                            (#[trigger] queue@[qi]).0 as int,
                            queue@[qi].1 as int,
                        ),
                    forall|qi: int|
                        1 <= qi < queue@.len() ==> (#[trigger] parent@[qi]) < qi && spec_step(
                            *g,
                            rule,
                            pt(queue@[parent@[qi] as int]),
                            pt(queue@[qi]),
                        ),
                    rev@.len() >= 1 ==> rev@[0] == queue@[goal_idx],
                    forall|j: int|
                        0 <= j < rev@.len() - 1 ==> spec_step(
                            *g,
                            rule,
                            pt(rev@[j + 1]),
                            pt(#[trigger] rev@[j]),
                        ),
                    forall|j: int|
                        0 <= j < rev@.len() ==> g.spec_in_bounds(
                            (#[trigger] rev@[j]).0 as int,
                            rev@[j].1 as int,
                        ),
                ensures
                    rev@.len() >= 1,
                    rev@[0] == queue@[goal_idx],
                    rev@[rev@.len() - 1] == (sx, sy),
                    forall|a: int, b: int| 0 <= a < b < rev@.len() ==> rev@[a] != rev@[b],
                    forall|j: int|
                        0 <= j < rev@.len() - 1 ==> spec_step(
                            *g,
                            rule,
                            pt(rev@[j + 1]),
                            pt(#[trigger] rev@[j]),
                        ),
                    forall|j: int|
                        0 <= j < rev@.len() ==> g.spec_in_bounds(
                            (#[trigger] rev@[j]).0 as int,
                            rev@[j].1 as int,
                        ),
                decreases i2,
            {
                rev.push(queue[i2]);
                proof {
                    idxs = idxs.push(i2 as int);
                    assert forall|a: int, b: int|
                        0 <= a < b < idxs.len() implies idxs[a] > idxs[b] by {
                        if b == idxs.len() - 1 {
                            if a < idxs.len() - 2 {
                                assert(idxs[a] > idxs[idxs.len() - 2]);
                            }
                        }
                    }
                    assert forall|a: int, b: int|
                        0 <= a < b < rev@.len() implies rev@[a] != rev@[b] by {
                        assert(rev@[a] == queue@[idxs[a]]);
                        assert(rev@[b] == queue@[idxs[b]]);
                        assert(idxs[a] > idxs[b]);
                        assert(queue@[idxs[b]] != queue@[idxs[a]]);
                    }
                }
                if i2 == 0 {
                    break;
                }
                i2 = parent[i2];
            }
            let mut path: Vec<(usize, usize)> = Vec::new();
            let mut k: usize = rev.len();
            while k > 0
                invariant
                    k <= rev@.len(),
                    path@.len() + k == rev@.len(),
                    forall|j: int|
                        0 <= j < path@.len() ==> #[trigger] path@[j] == rev@[rev@.len() - 1 - j],
                decreases k,
            {
                k = k - 1;
                path.push(rev[k]);
            }
            proof {
                let pl = path@.len() as int;
                assert(path@[0] == rev@[rev@.len() - 1]);
                assert(path@[pl - 1] == rev@[0]);
                assert(goal.holds(*g, pt(queue@[goal_idx])));
                assert forall|j: int|
                    0 <= j < pl - 1 implies spec_step(
                    *g,
                    rule,
                    pt(#[trigger] path@[j]),
                    pt(path@[j + 1]),
                ) by {
                    assert(path@[j] == rev@[rev@.len() - 1 - j]);
                    assert(path@[j + 1] == rev@[rev@.len() - 1 - (j + 1)]);
                    assert(spec_step(
                        *g,
                        rule,
                        pt(rev@[(rev@.len() - 2 - j) + 1]),
                        pt(rev@[rev@.len() - 2 - j]),
                    ));
                }
                assert forall|j: int|
                    0 <= j < pl implies g.spec_in_bounds(
                    (#[trigger] path@[j]).0 as int,
                    path@[j].1 as int,
                ) by {
                    assert(path@[j] == rev@[rev@.len() - 1 - j]);
                }
                assert forall|a: int, b: int|
                    0 <= a < b < pl implies path@[a] != path@[b] by {
                    assert(path@[a] == rev@[rev@.len() - 1 - a]);
                    assert(path@[b] == rev@[rev@.len() - 1 - b]);
                    assert(rev@[rev@.len() - 1 - b] != rev@[rev@.len() - 1 - a]);
                }
            }
            return Some(path);
        }
        let conns = g.get_connections(cur.0, cur.1, ConnectRule::Pathing);
        let ghost balance = queue@.len() - count_true(vis@);
        let mut ci: usize = 0;
        while ci < conns.len()
            invariant
                g.wf(),
                rule == ConnectRule::Pathing,
                n == g.width * g.height,
                head < queue@.len(),
                queue@[0] == (sx, sy),
                count_true(vis@) <= n,
                ci <= conns@.len(),
                g.spec_in_bounds(sx as int, sy as int),
                cur == queue@[head as int],
                !goal.holds(*g, pt(cur)),
                vis_dims(*g, vis@),
                queue@.len() == parent@.len(),
                parent@[0] == 0,
                forall|j: int|
                    0 <= j < conns@.len() ==> {
                        let (nx, ny, k) = #[trigger] conns@[j];
                        &&& spec_step(*g, rule, pt(cur), (nx as int, ny as int))
                        &&& k == g.at(nx as int, ny as int)
                    },
                forall|b: (int, int)|
                    #[trigger] spec_step(*g, rule, pt(cur), b) ==> exists|j: int|
                        0 <= j < conns@.len() && (conns@[j].0 as int, conns@[j].1 as int) == b,
                forall|qi: int|
                    0 <= qi < queue@.len() ==> {
                        let t = #[trigger] queue@[qi];
                        g.spec_in_bounds(t.0 as int, t.1 as int) && vis_at(
                            *g,
                            vis@,
                            t.0 as int,
                            t.1 as int,
                        )
                    },
                forall|qi: int|
                    1 <= qi < queue@.len() ==> (#[trigger] parent@[qi]) < qi && spec_step(
                        *g,
                        rule,
                        pt(queue@[parent@[qi] as int]),
                        pt(queue@[qi]),
                    ),
                forall|qi: int, qj: int| 0 <= qi < qj < queue@.len() ==> queue@[qi] != queue@[qj],
                forall|x: int, y: int|
                    g.spec_in_bounds(x, y) && #[trigger] vis_at(*g, vis@, x, y)
                        ==> queue@.contains((x as usize, y as usize)),
                forall|qi: int| 0 <= qi < head ==> !goal.holds(*g, pt(#[trigger] queue@[qi])),
                forall|j: int|
                    0 <= j < ci ==> vis_at(
                        *g,
                        vis@,
                        #[trigger] conns@[j].0 as int,
                        conns@[j].1 as int,
                    ),
                forall|a: (int, int), b: (int, int)|
                    g.spec_in_bounds(a.0, a.1) && vis_at(*g, vis@, a.0, a.1)
                        && #[trigger] spec_step(*g, rule, a, b) ==> vis_at(*g, vis@, b.0, b.1)
                        || exists|qi: int|
                        #![trigger queue@[qi]]
                        head <= qi < queue@.len() && pt(queue@[qi]) == a,
                queue@.len() - count_true(vis@) == balance,
            decreases conns@.len() - ci,
        {
            let c = conns[ci];
            if !vis_get(g, &vis, c.0, c.1) {
                let ghost pre_vis = vis@;
                let ghost pre_q = queue@;
                vis_mark(g, &mut vis, c.0, c.1);
                queue.push((c.0, c.1));
                parent.push(head);
                proof {
                    lemma_count_true_le_len(vis@);
                    assert(queue@ == pre_q.push((c.0, c.1)));
                    assert(queue@[queue@.len() - 1] == (c.0, c.1));
                    assert(queue@.contains((c.0, c.1)));
                    assert(pt(queue@[queue@.len() - 1]) == (c.0 as int, c.1 as int));
                    assert(spec_step(*g, rule, pt(cur), (c.0 as int, c.1 as int)));
                    assert(parent@[queue@.len() - 1] == head);
                    assert forall|qi: int, qj: int|
                        0 <= qi < qj < queue@.len() implies queue@[qi] != queue@[qj] by {
                        if qj == queue@.len() - 1 {
                            let t = pre_q[qi];
                            assert(vis_at(*g, pre_vis, t.0 as int, t.1 as int));
                            assert(!vis_at(*g, pre_vis, c.0 as int, c.1 as int));
                        } else {
                            assert(queue@[qi] == pre_q[qi]);
                            assert(queue@[qj] == pre_q[qj]);
                        }
                    }
                    assert forall|x: int, y: int|
                        g.spec_in_bounds(x, y) && #[trigger] vis_at(*g, vis@, x, y) implies queue@.contains(
                        (x as usize, y as usize),
                    ) by {
                        if x == c.0 as int && y == c.1 as int {
                        } else {
                            assert(vis_at(*g, pre_vis, x, y));
                            let p = (x as usize, y as usize);
                            assert(pre_q.contains(p));
                            let qi = choose|qi: int| 0 <= qi < pre_q.len() && pre_q[qi] == p;
                            assert(queue@[qi] == p);
                        }
                    }
                    assert forall|a: (int, int), b: (int, int)|
                        g.spec_in_bounds(a.0, a.1) && vis_at(*g, vis@, a.0, a.1)
                            && #[trigger] spec_step(*g, rule, a, b) implies vis_at(
                        *g,
                        vis@,
                        b.0,
                        b.1,
                    ) || exists|qi: int|
                        #![trigger queue@[qi]]
                        head <= qi < queue@.len() && pt(queue@[qi]) == a by {
                        if a == (c.0 as int, c.1 as int) {
                            assert(pt(queue@[queue@.len() - 1]) == a);
                        } else if !vis_at(*g, vis@, b.0, b.1) {
                            assert(vis_at(*g, pre_vis, a.0, a.1));
                            assert(!vis_at(*g, pre_vis, b.0, b.1));
                            let qi = choose|qi: int|
                                #![trigger pre_q[qi]]
                                head <= qi < pre_q.len() && pt(pre_q[qi]) == a;
                            assert(queue@[qi] == pre_q[qi]);
                            assert(head <= qi < queue@.len() && pt(queue@[qi]) == a);
                        }
                    }
                }
            }
            ci = ci + 1;
        }
        proof {
            assert forall|a: (int, int), b: (int, int)|
                g.spec_in_bounds(a.0, a.1) && vis_at(*g, vis@, a.0, a.1) && #[trigger] spec_step(
                *g,
                rule,
                a,
                b,
            ) implies vis_at(*g, vis@, b.0, b.1) || exists|qi: int|
                #![trigger queue@[qi]]
                head + 1 <= qi < queue@.len() && pt(queue@[qi]) == a by {
                if !vis_at(*g, vis@, b.0, b.1) {
                    let qi = choose|qi: int|
                        #![trigger queue@[qi]]
                        head <= qi < queue@.len() && pt(queue@[qi]) == a;
                    if qi == head {
                        assert(a == pt(cur));
                        let j = choose|j: int|
                            0 <= j < conns@.len() && (conns@[j].0 as int, conns@[j].1 as int) == b;
                        assert(vis_at(*g, vis@, conns@[j].0 as int, conns@[j].1 as int));
                        assert(false);
                    } else {
                        assert(head + 1 <= qi < queue@.len() && pt(queue@[qi]) == a);
                    }
                }
            }
        }
        head = head + 1;
    }
    proof {
        assert forall|a: (int, int), b: (int, int)|
            g.spec_in_bounds(a.0, a.1) && vis_at(*g, vis@, a.0, a.1) && #[trigger] spec_step(
            *g,
            rule,
            a,
            b,
        ) implies vis_at(*g, vis@, b.0, b.1) by {
            if !vis_at(*g, vis@, b.0, b.1) {
                let qi = choose|qi: int|
                    #![trigger queue@[qi]]
                    head <= qi < queue@.len() && pt(queue@[qi]) == a;
                assert(false);
            }
        }
        assert(vis_closed(*g, rule, vis@));
        assert forall|t: (int, int)|
            spec_reach(*g, ConnectRule::Pathing, (sx as int, sy as int), t) implies !goal.holds(
            *g,
            t,
        ) by {
            let m = choose|m: nat|
                spec_reach_n(*g, ConnectRule::Pathing, (sx as int, sy as int), t, m);
            lemma_closed_reach(*g, rule, vis@, (sx as int, sy as int), t, m);
            assert(queue@.contains((t.0 as usize, t.1 as usize)));
            let qi = choose|qi: int|
                0 <= qi < queue@.len() && queue@[qi] == (t.0 as usize, t.1 as usize);
            assert(!goal.holds(*g, pt(queue@[qi])));
            assert(pt(queue@[qi]) == t);
        }
    }
    None
}

} // verus!
