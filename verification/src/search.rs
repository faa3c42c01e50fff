//! Budgeted best-first path search on the unit map: frontier ranked by steps
//! taken plus the wrap-around L1 distance still to go, expansion through
//! unoccupied cells only, work capped at half the grid area. A returned path
//! runs from start to destination over free cells; an empty result means the
//! search gave up and the caller must fall back to a local step.

use vstd::prelude::*;
use crate::coord::{Coord, valid_bound, COORD_LIMIT, DIM_MAX};
use crate::mapraw::{Unit, UnitMap};
use crate::rng::shuffle_vec;

verus! {

/// One search node: a cell, the steps taken to it, the frontier priority, and
/// the index (into the processed list) of the node it was reached from.
struct Node {
    c: Coord,
    g: usize,
    f: usize,
    parent: usize,
}

/// Wrap-around L1 distance between `start` and `dest` after normalization.
pub fn heuristic_cost(start: Coord, dest: Coord, boundary: Coord) -> (r: usize)
    requires
        start.bounded(COORD_LIMIT as int),
        dest.bounded(COORD_LIMIT as int),
        valid_bound(boundary),
    ensures
        r == start.norm_spec(boundary).wdist(dest.norm_spec(boundary), boundary),
        r <= 2 * DIM_MAX,
{
    let d = start.diff_wrap_around(&dest, &boundary);
    d.abs() as usize
}

/// A returned path is either empty, or runs from the (normalized) start to
/// the destination in unit steps over cells that are free on the unit map,
/// and is at least as long as the wrap-around L1 distance demands.
pub open spec fn path_ok(r: Seq<Coord>, sn: Coord, dn: Coord, dim: Coord, m: UnitMap) -> bool {
    &&& (r.len() > 0 ==> r[0] == sn && r[r.len() - 1] == dn)
    &&& forall|i: int| 0 <= i < r.len() ==> (#[trigger] r[i]).normed(dim)
    &&& forall|i: int| 0 <= i < r.len() - 1 ==> (#[trigger] r[i]).wdist(r[i + 1], dim) == 1
    &&& forall|i: int| 1 <= i < r.len() ==> m.base.at(#[trigger] r[i]) == Unit::Empty
    &&& (r.len() > 0 ==> r.len() >= 1 + sn.wdist(dn, dim))
}

/// Every cell of the unit map is free.
pub open spec fn grid_free(m: UnitMap) -> bool {
    forall|y: int, x: int|
        0 <= y < m.base.dim.ys() && 0 <= x < m.base.dim.xs() ==> #[trigger] m.base.cell(y, x)
            == Unit::Empty
}

/// The cell lies on some shortest route between the two endpoints.
pub open spec fn on_diamond(c: Coord, sn: Coord, dn: Coord, dim: Coord) -> bool {
    sn.wdist(c, dim) + c.wdist(dn, dim) == sn.wdist(dn, dim)
}

/// The processed list holds the cell.
spec fn in_done(done: Seq<Node>, c: Coord) -> bool {
    exists|i: int| 0 <= i < done.len() && (#[trigger] done[i]).c == c
}

/// The frontier holds an entry for this cell with this step count.
spec fn has_entry(fr: Seq<Node>, c: Coord, g: int) -> bool {
    exists|k: int| 0 <= k < fr.len() && (#[trigger] fr[k]).c == c && fr[k].g == g
}

/// One of the four axis-aligned unit offsets.
spec fn is_unit_off(dy: int, dx: int) -> bool {
    (dy == -1 && dx == 0) || (dy == 1 && dx == 0) || (dy == 0 && dx == -1) || (dy == 0 && dx == 1)
}

/// The wrapped cell one offset away.
spec fn off_step(c: Coord, dy: int, dx: int, dim: Coord) -> Coord {
    Coord(
        (crate::coord::norm1(c.ys() + dy, dim.ys())) as i32,
        (crate::coord::norm1(c.xs() + dx, dim.xs())) as i32,
    )
}

/// The neighbour of a processed node reached by one offset, as one term for
/// quantifiers to trigger on.
spec fn succ_of(done: Seq<Node>, i: int, dy: int, dx: int, dim: Coord) -> Coord {
    off_step(done[i].c, dy, dx, dim)
}

/// On a free grid every processed node carries its true distance from the
/// start and lies on a shortest route to the destination.
#[verifier::opaque]
spec fn done_opt(done: Seq<Node>, sn: Coord, dn: Coord, dim: Coord) -> bool {
    forall|i: int|
        0 <= i < done.len() ==> (#[trigger] done[i]).g == sn.wdist(done[i].c, dim) && on_diamond(
            done[i].c,
            sn,
            dn,
            dim,
        )
}

/// Every true-step neighbour of every processed node was either processed
/// itself or still waits in the frontier one step deeper.
#[verifier::opaque]
spec fn succ_pushed(done: Seq<Node>, fr: Seq<Node>, dim: Coord) -> bool {
    forall|i: int, dy: int, dx: int|
        0 <= i < done.len() && is_unit_off(dy, dx) ==> {
            let s = #[trigger] succ_of(done, i, dy, dx, dim);
            s == done[i].c || in_done(done, s) || has_entry(fr, s, done[i].g + 1)
        }
}

/// The processed list is a tree of unit steps rooted at the start cell, over
/// free cells, with exact step counts and distinct cells.
#[verifier::opaque]
spec fn done_inv(done: Seq<Node>, sn: Coord, dim: Coord, m: UnitMap) -> bool {
    &&& (done.len() > 0 ==> done[0].c == sn && done[0].g == 0 && done[0].parent == 0)
    &&& forall|i: int| 0 <= i < done.len() ==> (#[trigger] done[i]).c.normed(dim)
    &&& forall|i: int|
        1 <= i < done.len() ==> (#[trigger] done[i]).parent < i && done[i].g == done[done[i].parent as int].g
            + 1 && done[done[i].parent as int].c.wdist(done[i].c, dim) == 1 && m.base.at(done[i].c)
            == Unit::Empty
    &&& forall|i: int| 0 <= i < done.len() ==> (#[trigger] done[i]).g <= i
    &&& forall|i: int|
        0 <= i < done.len() ==> sn.wdist((#[trigger] done[i]).c, dim) <= done[i].g
    &&& forall|i: int, j: int|
        0 <= i < done.len() && 0 <= j < done.len() && i != j ==> (#[trigger] done[i]).c != (
        #[trigger] done[j]).c
}

/// A frontier entry is the start node itself or a unit-step child of a
/// processed node through a free cell, ranked by steps taken plus the
/// wrap-around distance still to go.
#[verifier::opaque]
spec fn frontier_entry_inv(e: Node, done: Seq<Node>, sn: Coord, dn: Coord, dim: Coord, m: UnitMap) -> bool {
    &&& e.c.normed(dim)
    &&& sn.wdist(e.c, dim) <= e.g
    &&& e.f == e.g + e.c.wdist(dn, dim)
    &&& (e.c == sn && e.g == 0 || (e.parent < done.len() && e.g == done[e.parent as int].g + 1
        && done[e.parent as int].c.wdist(e.c, dim) == 1 && m.base.at(e.c) == Unit::Empty))
    &&& e.g <= done.len()
}

/// Remove and return a frontier entry of minimal priority.
fn pop_min(frontier: &mut Vec<Node>) -> (r: Node)
    requires
        old(frontier)@.len() > 0,
    ensures
        final(frontier)@.len() == old(frontier)@.len() - 1,
        exists|t: int|
            0 <= t < old(frontier)@.len() && old(frontier)@[t] == r && final(frontier)@ == old(
                frontier,
            )@.update(t, old(frontier)@.last()).drop_last(),
        forall|t: int| 0 <= t < old(frontier)@.len() ==> r.f <= (#[trigger] old(frontier)@[t]).f,
{
    let mut best: usize = 0;
    let mut k: usize = 1;
    while k < frontier.len()
        invariant
            frontier@.len() > 0,
            0 <= best < frontier@.len(),
            0 <= k <= frontier@.len(),
            forall|t: int|
                0 <= t < k ==> frontier@[best as int].f <= (#[trigger] frontier@[t]).f,
        decreases frontier@.len() - k,
    {
        if frontier[k].f < frontier[best].f {
            best = k;
        }
        k = k + 1;
    }
    let ghost fr0 = frontier@;
    let r = frontier.swap_remove(best);
    proof {
        assert(fr0[best as int] == r && frontier@ == fr0.update(best as int, fr0.last()).drop_last());
    }
    r
}

/// Whether the processed list already holds `c`.
fn contains_coord(done: &Vec<Node>, c: Coord) -> (r: bool)
    ensures
        r == exists|i: int| 0 <= i < done@.len() && (#[trigger] done@[i]).c == c,
{
    let n = done.len();
    let mut i: usize = 0;
    while i < n
        invariant
            n == done@.len(),
            0 <= i <= n,
            forall|k: int| 0 <= k < i ==> (#[trigger] done@[k]).c != c,
        decreases n - i,
    {
        if done[i].c.y() == c.y() && done[i].c.x() == c.x() {
            proof {
                assert(done@[i as int].c == c);
            }
            return true;
        }
        i = i + 1;
    }
    false
}

/// Best-first search from `start` to `dest` over unoccupied cells of `map`,
/// with the work capped at half the grid area. On success the path begins at
/// the (normalized) start, ends at the destination, moves in unit steps, and
/// touches only free cells after the start; on a grid with no obstacles at
/// all, a found path is exactly as long as the wrap-around L1 distance
/// demands, endpoints included.
#[verifier::rlimit(100)]
pub fn search_path(start: Coord, dest: Coord, map: &UnitMap) -> (r: Vec<Coord>)
    requires
        map.wf(),
        start.bounded(COORD_LIMIT as int),
        dest.bounded(COORD_LIMIT as int),
    ensures
        path_ok(
            r@,
            start.norm_spec(map.base.dim),
            dest.norm_spec(map.base.dim),
            map.base.dim,
            *map,
        ),
        grid_free(*map) && r@.len() > 0 ==> r@.len() == 1 + start.norm_spec(
            map.base.dim,
        ).wdist(dest.norm_spec(map.base.dim), map.base.dim),
        start.norm_spec(map.base.dim) == dest.norm_spec(map.base.dim) ==> r@.len() > 0,
        grid_free(*map) && start.norm_spec(map.base.dim).wdist(
            dest.norm_spec(map.base.dim),
            map.base.dim,
        ) == 1 ==> r@.len() > 0,
{
    let dim = map.dim();
    let sn = start.modulo(&dim);
    let dn = dest.modulo(&dim);
    proof {
        assert(1 <= dim.ys() * dim.xs() <= 1048576) by (nonlinear_arith)
            requires
                1 <= dim.ys() <= 1024,
                1 <= dim.xs() <= 1024,
        ;
    }
    let cap: usize = (dim.0 as usize) * (dim.1 as usize) / 2;
    let mut done: Vec<Node> = Vec::new();
    let mut frontier: Vec<Node> = Vec::new();
    let h0 = heuristic_cost(sn, dn, dim);
    frontier.push(Node { c: sn, g: 0, f: h0, parent: 0 });
    let mut found = false;
    proof {
        reveal(done_inv);
        reveal(frontier_entry_inv);
        reveal(done_opt);
        reveal(succ_pushed);
        crate::grid::lemma_norm_identity(sn, dim);
        crate::grid::lemma_norm_identity(dn, dim);
        assert(done_inv(done@, sn, dim, *map));
        assert(frontier_entry_inv(frontier@[0], done@, sn, dn, dim, *map));
    }
    while frontier.len() > 0 && !found
        invariant
            map.wf(),
            dim == map.base.dim,
            valid_bound(dim),
            sn.normed(dim),
            dn.normed(dim),
            cap <= 524288,
            done_inv(done@, sn, dim, *map),
            done@.len() <= cap + 1,
            forall|k: int|
                0 <= k < frontier@.len() ==> frontier_entry_inv(
                #[trigger] frontier@[k],
                done@,
                sn,
                dn,
                dim,
                *map,
            ),
            found ==> done@.len() > 0 && done@.last().c == dn,
            grid_free(*map) ==> done_opt(done@, sn, dn, dim),
            !found ==> !in_done(done@, dn),
            grid_free(*map) && !found && done@.len() <= cap ==> succ_pushed(
                done@,
                frontier@,
                dim,
            ),
            done@.len() == 0 ==> frontier@.len() >= 1,
        ensures
            found || done@.len() > cap || frontier@.len() == 0,
        decreases cap + 2 - done@.len(), frontier@.len(),
    {
        let ghost fr0 = frontier@;
        let node = pop_min(&mut frontier);
        let ghost t0 = choose|t: int|
            0 <= t < fr0.len() && fr0[t] == node && frontier@ == fr0.update(
                t,
                fr0.last(),
            ).drop_last();
        proof {
            lemma_fr_after_pop(done@, fr0, frontier@, node, t0, sn, dn, dim, *map);
        }
        if contains_coord(&done, node.c) {
            proof {
                if grid_free(*map) && done@.len() <= cap {
                    assert(in_done(done@, node.c));
                    lemma_succ_after_pop(done@, fr0, frontier@, node, t0, dim);
                }
            }
            continue ;
        }
        if done.len() > cap {
            // expansion budget exhausted: give up
            break ;
        }
        proof {
            if grid_free(*map) {
                lemma_popped_optimal(done@, fr0, node, sn, dn, dim, *map);
            }
        }
        // process the node
        let ghost done0 = done@;
        let parent = if done.len() == 0 {
            0
        } else {
            node.parent
        };
        done.push(Node { c: node.c, g: node.g, f: node.f, parent });
        proof {
            lemma_push_node(done0, done@, frontier@, node, parent, sn, dn, dim, *map);
        }
        proof {
            if grid_free(*map) {
                lemma_done_opt_push(done0, done@, sn, dn, dim);
            }
        }
        if node.c.y() == dn.y() && node.c.x() == dn.x() {
            proof {
                assert(node.c == dn);
            }
            found = true;
        } else {
            proof {
                lemma_not_done_push(done0, done@, dn);
            }
            let ghost fr1 = frontier@;
            expand_frontier(&mut frontier, &done, dn, dim, map, Ghost(sn));
            proof {
                if grid_free(*map) {
                    lemma_succ_after_process(
                        done0,
                        done@,
                        fr0,
                        fr1,
                        frontier@,
                        node,
                        t0,
                        dim,
                    );
                }
            }
        }
    }
    proof {
        // the degenerate search and the adjacent search on a free grid
        // cannot give up: the processed list would have to hold the
        // destination, or the frontier would still hold a shortest-route
        // entry
        if !found {
            reveal(done_inv);
            if sn == dn {
                if done@.len() > 0 {
                    assert(done@[0].c == dn);
                    assert(in_done(done@, dn));
                }
                assert(done@.len() == 0);
                assert(false);
            }
            if grid_free(*map) && sn.wdist(dn, dim) == 1 {
                reveal(done_opt);
                assert forall|i: int| 0 <= i < done@.len() implies (#[trigger] done@[i]).c
                    == sn by {
                    let c = done@[i].c;
                    assert(sn.wdist(c, dim) + c.wdist(dn, dim) == 1);
                    if sn.wdist(c, dim) == 0 {
                        assert(c == sn);
                    } else {
                        assert(c.wdist(dn, dim) == 0);
                        assert(c == dn);
                        assert(in_done(done@, dn));
                    }
                }
                assert(done@.len() <= 1) by {
                    if done@.len() >= 2 {
                        assert(done@[0].c == sn && done@[1].c == sn);
                        assert(done@[0].c != done@[1].c);
                    }
                }
                assert(cap >= 1) by {
                    assert(dim.ys() * dim.xs() >= 2) by (nonlinear_arith)
                        requires
                            1 <= dim.ys(),
                            1 <= dim.xs(),
                            dim.ys() >= 2 || dim.xs() >= 2,
                    ;
                }
                assert(frontier@.len() == 0);
                assert(done@.len() == 1);
                assert(in_done(done@, sn)) by {
                    assert(done@[0].c == sn);
                }
                assert(on_diamond(sn, sn, dn, dim));
                lemma_find_witness(done@, frontier@, sn, dn, dim, sn);
                let k = choose|k: int|
                    0 <= k < frontier@.len() && (#[trigger] frontier@[k]).g == sn.wdist(
                        frontier@[k].c,
                        dim,
                    ) && on_diamond(frontier@[k].c, sn, dn, dim);
                assert(false);
            }
        }
    }
    // reconstruct the path by walking parent links back to the start
    let r = if found {
        reconstruct_path(&done, dn, dim, map, Ghost(sn))
    } else {
        Vec::new()
    };
    proof {
        if grid_free(*map) && found {
            reveal(done_opt);
            assert(done@[done@.len() - 1].g == sn.wdist(dn, dim));
        }
    }
    r
}

/// On a free grid, a processed cell short of the destination always has a
/// one-step-deeper shortest-route cell waiting in the frontier: walk the
/// shortest route onward until it leaves the processed set; the step that
/// leaves was pushed when its predecessor was processed.
#[verifier::rlimit(100)]
proof fn lemma_find_witness(
    done: Seq<Node>,
    fr: Seq<Node>,
    sn: Coord,
    dn: Coord,
    dim: Coord,
    c: Coord,
)
    requires
        valid_bound(dim),
        sn.normed(dim),
        dn.normed(dim),
        c.normed(dim),
        in_done(done, c),
        on_diamond(c, sn, dn, dim),
        !in_done(done, dn),
        done_opt(done, sn, dn, dim),
        succ_pushed(done, fr, dim),
    ensures
        exists|k: int|
            0 <= k < fr.len() && (#[trigger] fr[k]).g == sn.wdist(fr[k].c, dim) && on_diamond(
                fr[k].c,
                sn,
                dn,
                dim,
            ),
    decreases c.wdist(dn, dim),
{
    reveal(done_opt);
    reveal(succ_pushed);
    let i = choose|i: int| 0 <= i < done.len() && (#[trigger] done[i]).c == c;
    assert(done[i].g == sn.wdist(c, dim));
    assert(c != dn);
    assert(c.wdist(dn, dim) > 0) by {
        if c.wdist(dn, dim) == 0 {
            assert(c.ys() == dn.ys() && c.xs() == dn.xs());
        }
    }
    // step one cell along the shortest route toward the destination
    let dy: int = if crate::coord::wd1(c.ys(), dn.ys(), dim.ys()) > 0 {
        if crate::coord::sdelta1(dn.ys(), c.ys(), dim.ys()) >= 1 {
            1
        } else {
            -1
        }
    } else {
        0
    };
    let dx: int = if dy != 0 {
        0
    } else {
        if crate::coord::sdelta1(dn.xs(), c.xs(), dim.xs()) >= 1 {
            1
        } else {
            -1
        }
    };
    crate::coord::lemma_sdelta_is_wd(dn.ys(), c.ys(), dim.ys());
    crate::coord::lemma_sdelta_is_wd(dn.xs(), c.xs(), dim.xs());
    assert(is_unit_off(dy, dx));
    let sc = off_step(c, dy, dx, dim);
    if dy != 0 {
        crate::coord::lemma_wd1_toward(c.ys(), dn.ys(), dim.ys(), dy);
        crate::coord::lemma_wd1_unit_step(c.ys(), dy, dim.ys());
        crate::coord::lemma_norm_small(c.xs(), dim.xs());
    } else {
        crate::coord::lemma_wd1_toward(c.xs(), dn.xs(), dim.xs(), dx);
        crate::coord::lemma_wd1_unit_step(c.xs(), dx, dim.xs());
        crate::coord::lemma_norm_small(c.ys(), dim.ys());
    }
    assert(sc.wdist(dn, dim) == c.wdist(dn, dim) - 1);
    assert(c.wdist(sc, dim) == 1);
    assert(sc.normed(dim)) by {
        vstd::arithmetic::div_mod::lemma_mod_division_less_than_divisor(c.ys() + dy, dim.ys());
        vstd::arithmetic::div_mod::lemma_mod_division_less_than_divisor(c.xs() + dx, dim.xs());
    }
    // the step stays on a shortest route, one deeper
    assert(sn.wdist(sc, dim) <= sn.wdist(c, dim) + 1) by {
        crate::coord::lemma_wd1_triangle(sn.ys(), c.ys(), sc.ys(), dim.ys());
        crate::coord::lemma_wd1_triangle(sn.xs(), c.xs(), sc.xs(), dim.xs());
    }
    assert(sn.wdist(dn, dim) <= sn.wdist(sc, dim) + sc.wdist(dn, dim)) by {
        crate::coord::lemma_wd1_triangle(sn.ys(), sc.ys(), dn.ys(), dim.ys());
        crate::coord::lemma_wd1_triangle(sn.xs(), sc.xs(), dn.xs(), dim.xs());
    }
    assert(sn.wdist(sc, dim) == sn.wdist(c, dim) + 1);
    assert(on_diamond(sc, sn, dn, dim));
    assert(sc != c);
    assert(succ_of(done, i, dy, dx, dim) == sc);
    if in_done(done, sc) {
        lemma_find_witness(done, fr, sn, dn, dim, sc);
    } else {
        assert(has_entry(fr, sc, done[i].g + 1));
        let k = choose|k: int|
            0 <= k < fr.len() && (#[trigger] fr[k]).c == sc && fr[k].g == done[i].g + 1;
        assert(fr[k].g == sn.wdist(fr[k].c, dim) && on_diamond(fr[k].c, sn, dn, dim));
    }
}

/// On a free grid the entry popped with minimal priority carries its true
/// distance from the start and lies on a shortest route: some frontier entry
/// prices a shortest route exactly, every entry prices at least that, and
/// the popped one is minimal.
proof fn lemma_popped_optimal(
    done: Seq<Node>,
    fr0: Seq<Node>,
    node: Node,
    sn: Coord,
    dn: Coord,
    dim: Coord,
    m: UnitMap,
)
    requires
        valid_bound(dim),
        sn.normed(dim),
        dn.normed(dim),
        done_inv(done, sn, dim, m),
        done_opt(done, sn, dn, dim),
        succ_pushed(done, fr0, dim),
        !in_done(done, dn),
        forall|k: int|
            0 <= k < fr0.len() ==> frontier_entry_inv(#[trigger] fr0[k], done, sn, dn, dim, m),
        exists|t: int| 0 <= t < fr0.len() && #[trigger] fr0[t] == node,
        forall|t: int| 0 <= t < fr0.len() ==> node.f <= (#[trigger] fr0[t]).f,
    ensures
        node.g == sn.wdist(node.c, dim),
        on_diamond(node.c, sn, dn, dim),
{
    reveal(frontier_entry_inv);
    reveal(done_inv);
    let d_all = sn.wdist(dn, dim);
    let tn = choose|t: int| 0 <= t < fr0.len() && #[trigger] fr0[t] == node;
    assert(frontier_entry_inv(node, done, sn, dn, dim, m));
    assert(node.f >= d_all) by {
        crate::coord::lemma_wd1_triangle(sn.ys(), node.c.ys(), dn.ys(), dim.ys());
        crate::coord::lemma_wd1_triangle(sn.xs(), node.c.xs(), dn.xs(), dim.xs());
    }
    if done.len() == 0 {
        assert(node.c == sn && node.g == 0) by {
            if !(node.c == sn && node.g == 0) {
                assert(node.parent < done.len());
            }
        }
        assert(on_diamond(sn, sn, dn, dim));
    } else {
        assert(done[0].c == sn);
        assert(in_done(done, sn));
        reveal(done_opt);
        assert(on_diamond(sn, sn, dn, dim));
        lemma_find_witness(done, fr0, sn, dn, dim, sn);
        let k = choose|k: int|
            0 <= k < fr0.len() && (#[trigger] fr0[k]).g == sn.wdist(fr0[k].c, dim) && on_diamond(
                fr0[k].c,
                sn,
                dn,
                dim,
            );
        assert(fr0[k].f == fr0[k].g + fr0[k].c.wdist(dn, dim));
        assert(fr0[k].f == d_all);
        assert(node.f <= d_all);
        assert(node.f == d_all);
        assert(node.g >= sn.wdist(node.c, dim));
        assert(sn.wdist(node.c, dim) + node.c.wdist(dn, dim) >= d_all) by {
            crate::coord::lemma_wd1_triangle(sn.ys(), node.c.ys(), dn.ys(), dim.ys());
            crate::coord::lemma_wd1_triangle(sn.xs(), node.c.xs(), dn.xs(), dim.xs());
        }
    }
}

/// Popping one frontier entry leaves every remaining entry, and the popped
/// one, sound against the unchanged processed list.
proof fn lemma_fr_after_pop(
    done: Seq<Node>,
    fr0: Seq<Node>,
    fr1: Seq<Node>,
    node: Node,
    t0: int,
    sn: Coord,
    dn: Coord,
    dim: Coord,
    m: UnitMap,
)
    requires
        forall|k: int|
            0 <= k < fr0.len() ==> frontier_entry_inv(#[trigger] fr0[k], done, sn, dn, dim, m),
        0 <= t0 < fr0.len(),
        fr0[t0] == node,
        fr1 == fr0.update(t0, fr0.last()).drop_last(),
    ensures
        frontier_entry_inv(node, done, sn, dn, dim, m),
        forall|k: int|
            0 <= k < fr1.len() ==> frontier_entry_inv(#[trigger] fr1[k], done, sn, dn, dim, m),
{
    assert forall|k2: int|
        0 <= k2 < fr1.len() implies frontier_entry_inv(#[trigger] fr1[k2], done, sn, dn, dim, m) by {
        if k2 == t0 {
            assert(fr1[k2] == fr0[fr0.len() - 1]);
        } else {
            assert(fr1[k2] == fr0[k2]);
        }
    }
}

/// Processing the popped node: the grown list is still a well-formed tree of
/// unit steps, and every waiting frontier entry stays sound against it.
#[verifier::rlimit(100)]
proof fn lemma_push_node(
    done0: Seq<Node>,
    done1: Seq<Node>,
    fr: Seq<Node>,
    node: Node,
    parent: usize,
    sn: Coord,
    dn: Coord,
    dim: Coord,
    m: UnitMap,
)
    requires
        done_inv(done0, sn, dim, m),
        frontier_entry_inv(node, done0, sn, dn, dim, m),
        forall|k: int|
            0 <= k < fr.len() ==> frontier_entry_inv(#[trigger] fr[k], done0, sn, dn, dim, m),
        !in_done(done0, node.c),
        done1.len() == done0.len() + 1,
        done1 == done0.push(done1.last()),
        done1.last() == (Node { c: node.c, g: node.g, f: node.f, parent }),
        done0.len() == 0 ==> parent == 0,
        done0.len() > 0 ==> parent == node.parent,
    ensures
        done_inv(done1, sn, dim, m),
        forall|k: int|
            0 <= k < fr.len() ==> frontier_entry_inv(#[trigger] fr[k], done1, sn, dn, dim, m),
{
    reveal(done_inv);
    reveal(frontier_entry_inv);
    assert(done1.drop_last() =~= done0);
    if done0.len() == 0 {
        assert(node.c == sn && node.g == 0) by {
            if !(node.c == sn && node.g == 0) {
                assert(node.parent < done0.len());
            }
        }
    }
    assert(done_inv(done1, sn, dim, m)) by {
        assert forall|i: int|
            1 <= i < done1.len() implies (#[trigger] done1[i]).parent < i && done1[i].g
            == done1[done1[i].parent as int].g + 1 && done1[done1[i].parent as int].c.wdist(
            done1[i].c,
            dim,
        ) == 1 && m.base.at(done1[i].c) == Unit::Empty by {
            if i < done0.len() {
                assert(done1[i] == done0[i]);
            }
        }
    }
    assert forall|k2: int|
        0 <= k2 < fr.len() implies frontier_entry_inv(#[trigger] fr[k2], done1, sn, dn, dim, m) by {
        let e = fr[k2];
        assert(frontier_entry_inv(e, done0, sn, dn, dim, m));
        if !(e.c == sn && e.g == 0) {
            assert(done1[e.parent as int] == done0[e.parent as int]);
        }
    }
}

/// Appending a node that carries its true distance and lies on a shortest
/// route keeps the processed list optimal.
proof fn lemma_done_opt_push(done0: Seq<Node>, done1: Seq<Node>, sn: Coord, dn: Coord, dim: Coord)
    requires
        done_opt(done0, sn, dn, dim),
        done1.len() == done0.len() + 1,
        done1 == done0.push(done1.last()),
        done1.last().g == sn.wdist(done1.last().c, dim),
        on_diamond(done1.last().c, sn, dn, dim),
    ensures
        done_opt(done1, sn, dn, dim),
{
    reveal(done_opt);
    assert forall|i: int|
        0 <= i < done1.len() implies (#[trigger] done1[i]).g == sn.wdist(done1[i].c, dim)
        && on_diamond(done1[i].c, sn, dn, dim) by {
        if i < done0.len() {
            assert(done1[i] == done0[i]);
        }
    }
}

/// Appending a node at some other cell cannot make the list hold this one.
proof fn lemma_not_done_push(done0: Seq<Node>, done1: Seq<Node>, c: Coord)
    requires
        !in_done(done0, c),
        done1.len() == done0.len() + 1,
        done1 == done0.push(done1.last()),
        done1.last().c != c,
    ensures
        !in_done(done1, c),
{
    if in_done(done1, c) {
        let i = choose|i: int| 0 <= i < done1.len() && (#[trigger] done1[i]).c == c;
        if i < done0.len() {
            assert(done0[i] == done1[i]);
            assert(in_done(done0, c));
        }
    }
}

/// Discarding a frontier entry whose cell was already processed keeps every
/// processed node's neighbours accounted for.
proof fn lemma_succ_after_pop(
    done: Seq<Node>,
    fr0: Seq<Node>,
    fr1: Seq<Node>,
    node: Node,
    t0: int,
    dim: Coord,
)
    requires
        succ_pushed(done, fr0, dim),
        in_done(done, node.c),
        0 <= t0 < fr0.len(),
        fr0[t0] == node,
        fr1 == fr0.update(t0, fr0.last()).drop_last(),
    ensures
        succ_pushed(done, fr1, dim),
{
    reveal(succ_pushed);
    assert forall|i: int, dy: int, dx: int|
        0 <= i < done.len() && is_unit_off(dy, dx) implies ({
        let s = #[trigger] succ_of(done, i, dy, dx, dim);
        s == done[i].c || in_done(done, s) || has_entry(fr1, s, done[i].g + 1)
    }) by {
        let s = succ_of(done, i, dy, dx, dim);
        if !(s == done[i].c) && !in_done(done, s) {
            assert(has_entry(fr0, s, done[i].g + 1));
            let k = choose|k: int|
                0 <= k < fr0.len() && (#[trigger] fr0[k]).c == s && fr0[k].g == done[i].g + 1;
            if k == t0 {
                assert(s == node.c);
                assert(false);
            } else if k == fr0.len() - 1 {
                assert(fr1[t0] == fr0[k]);
                assert(has_entry(fr1, s, done[i].g + 1));
            } else {
                assert(fr1[k] == fr0[k]);
                assert(has_entry(fr1, s, done[i].g + 1));
            }
        }
    }
}

/// Processing the popped node and queueing its neighbours keeps every
/// processed node's neighbours accounted for: old witnesses survive the pop
/// and the expansion, the popped cell is now processed, and the new node's
/// neighbours were just queued.
proof fn lemma_succ_after_process(
    done0: Seq<Node>,
    done1: Seq<Node>,
    fr0: Seq<Node>,
    fr1: Seq<Node>,
    fr2: Seq<Node>,
    node: Node,
    t0: int,
    dim: Coord,
)
    requires
        succ_pushed(done0, fr0, dim),
        done1.len() == done0.len() + 1,
        done1 == done0.push(done1.last()),
        done1.last().c == node.c,
        done1.last().g == node.g,
        0 <= t0 < fr0.len(),
        fr0[t0] == node,
        fr1 == fr0.update(t0, fr0.last()).drop_last(),
        fr2.len() >= fr1.len(),
        forall|k: int| 0 <= k < fr1.len() ==> #[trigger] fr2[k] == fr1[k],
        forall|dy: int, dx: int|
            is_unit_off(dy, dx) ==> #[trigger] off_step(done1[done1.len() - 1].c, dy, dx, dim)
                == done1[done1.len() - 1].c || has_entry(
                fr2,
                off_step(done1[done1.len() - 1].c, dy, dx, dim),
                done1[done1.len() - 1].g + 1,
            ),
    ensures
        succ_pushed(done1, fr2, dim),
{
    reveal(succ_pushed);
    assert forall|i: int, dy: int, dx: int|
        0 <= i < done1.len() && is_unit_off(dy, dx) implies ({
        let s = #[trigger] succ_of(done1, i, dy, dx, dim);
        s == done1[i].c || in_done(done1, s) || has_entry(fr2, s, done1[i].g + 1)
    }) by {
        let s = succ_of(done1, i, dy, dx, dim);
        if i == done1.len() - 1 {
            assert(off_step(done1[done1.len() - 1].c, dy, dx, dim) == s);
        } else {
            assert(done1[i] == done0[i]);
            assert(succ_of(done0, i, dy, dx, dim) == s);
            if !(s == done0[i].c) && !in_done(done0, s) {
                assert(has_entry(fr0, s, done0[i].g + 1));
                let k = choose|k: int|
                    0 <= k < fr0.len() && (#[trigger] fr0[k]).c == s && fr0[k].g == done0[i].g
                        + 1;
                if k == t0 {
                    assert(s == node.c);
                    assert(done1[done1.len() - 1].c == s);
                    assert(in_done(done1, s));
                } else {
                    let k1: int = if k == fr0.len() - 1 {
                        t0
                    } else {
                        k
                    };
                    if k1 < fr1.len() {
                        assert(fr1[k1] == fr0[k]);
                        assert(fr2[k1] == fr1[k1]);
                        assert(has_entry(fr2, s, done1[i].g + 1));
                    } else {
                        // only possible when the popped entry was the last:
                        // then it equals the node, handled above
                        assert(k1 == t0 && t0 == fr0.len() - 1);
                        assert(fr0[k] == node);
                        assert(s == node.c);
                        assert(in_done(done1, s));
                    }
                }
            } else if in_done(done0, s) {
                let j = choose|j: int| 0 <= j < done0.len() && (#[trigger] done0[j]).c == s;
                assert(done1[j] == done0[j]);
                assert(in_done(done1, s));
            }
        }
    }
}

/// Adding a unit offset and normalizing lands on a wrap-adjacent cell,
/// unless the stepped axis is a single cell wide and the step wraps home.
proof fn lemma_step_adjacent(c: Coord, off: Coord, pos: Coord, dim: Coord)
    requires
        valid_bound(dim),
        c.normed(dim),
        off.bounded(1int),
        off.l1() == 1,
        pos.ys() == crate::coord::norm1(c.ys() + off.ys(), dim.ys()),
        pos.xs() == crate::coord::norm1(c.xs() + off.xs(), dim.xs()),
        pos != c,
    ensures
        c.wdist(pos, dim) == 1,
{
    crate::coord::lemma_norm_small(c.ys() + off.ys(), dim.ys());
    crate::coord::lemma_norm_small(c.xs() + off.xs(), dim.xs());
}

/// Consider one neighbour offset of the newest processed node: if the step
/// really moves and the cell is free, queue it as a frontier candidate.
fn consider_neighbour(
    cands: &mut Vec<Node>,
    off: Coord,
    dn: Coord,
    dim: Coord,
    map: &UnitMap,
    done: &Vec<Node>,
    Ghost(sn): Ghost<Coord>,
)
    requires
        map.wf(),
        dim == map.base.dim,
        valid_bound(dim),
        sn.normed(dim),
        dn.normed(dim),
        done_inv(done@, sn, dim, *map),
        1 <= done@.len() <= 1048577,
        off.bounded(1int),
        off.l1() == 1,
        forall|k: int|
            0 <= k < old(cands)@.len() ==> frontier_entry_inv(
                #[trigger] old(cands)@[k],
                done@,
                sn,
                dn,
                dim,
                *map,
            ),
    ensures
        forall|k: int|
            0 <= k < final(cands)@.len() ==> frontier_entry_inv(
                #[trigger] final(cands)@[k],
                done@,
                sn,
                dn,
                dim,
                *map,
            ),
        final(cands)@.len() >= old(cands)@.len(),
        forall|k: int|
            0 <= k < old(cands)@.len() ==> #[trigger] final(cands)@[k] == old(cands)@[k],
        grid_free(*map) ==> off_step(done@[done@.len() - 1].c, off.ys(), off.xs(), dim)
            == done@[done@.len() - 1].c || has_entry(
            final(cands)@,
            off_step(done@[done@.len() - 1].c, off.ys(), off.xs(), dim),
            done@[done@.len() - 1].g + 1,
        ),
{
    let pi = done.len() - 1;
    let node_c = done[pi].c;
    let node_g = done[pi].g;
    proof {
        reveal(done_inv);
        assert(done@[pi as int].g <= pi as int);
        assert(done@[pi as int].c.normed(dim));
    }
    let pos = node_c.add(off).modulo(&dim);
    proof {
        assert(pos == off_step(node_c, off.ys(), off.xs(), dim));
    }
    if !(pos.y() == node_c.y() && pos.x() == node_c.x()) {
        match map.get(pos) {
            Unit::Empty => {
                let g2 = node_g + 1;
                let h2 = heuristic_cost(pos, dn, dim);
                proof {
                    reveal(done_inv);
                    reveal(frontier_entry_inv);
                    crate::grid::lemma_norm_identity(pos, dim);
                    crate::grid::lemma_norm_identity(dn, dim);
                    lemma_step_adjacent(node_c, off, pos, dim);
                    assert(sn.wdist(pos, dim) <= g2) by {
                        crate::coord::lemma_wd1_triangle(sn.ys(), node_c.ys(), pos.ys(), dim.ys());
                        crate::coord::lemma_wd1_triangle(sn.xs(), node_c.xs(), pos.xs(), dim.xs());
                    }
                }
                cands.push(Node { c: pos, g: g2, f: g2 + h2, parent: pi });
                proof {
                    reveal(frontier_entry_inv);
                    assert forall|k: int|
                        0 <= k < cands@.len() implies frontier_entry_inv(
                        #[trigger] cands@[k],
                        done@,
                        sn,
                        dn,
                        dim,
                        *map,
                    ) by {
                        if k < cands@.len() - 1 {
                            assert(cands@[k] == cands@.drop_last()[k]);
                        }
                    }
                    assert(cands@[cands@.len() - 1].c == pos && cands@[cands@.len() - 1].g
                        == g2);
                    assert(has_entry(cands@, pos, node_g + 1));
                }
            },
            Unit::Ship { player, id, halite } => {
                proof {
                    if grid_free(*map) {
                        crate::grid::lemma_norm_identity(pos, dim);
                        assert(map.base.cell(pos.ys(), pos.xs()) == Unit::Empty);
                        assert(false);
                    }
                }
            },
        }
    }
}

/// Push the free, genuinely adjacent neighbours of the newest processed node
/// onto the frontier, in a shuffled order.
fn expand_frontier(
    frontier: &mut Vec<Node>,
    done: &Vec<Node>,
    dn: Coord,
    dim: Coord,
    map: &UnitMap,
    Ghost(sn): Ghost<Coord>,
)
    requires
        map.wf(),
        dim == map.base.dim,
        valid_bound(dim),
        sn.normed(dim),
        dn.normed(dim),
        done_inv(done@, sn, dim, *map),
        1 <= done@.len() <= 1048577,
        forall|k2: int|
            0 <= k2 < old(frontier)@.len() ==> frontier_entry_inv(
                #[trigger] old(frontier)@[k2],
                done@,
                sn,
                dn,
                dim,
                *map,
            ),
    ensures
        forall|k2: int|
            0 <= k2 < final(frontier)@.len() ==> frontier_entry_inv(
                #[trigger] final(frontier)@[k2],
                done@,
                sn,
                dn,
                dim,
                *map,
            ),
        final(frontier)@.len() >= old(frontier)@.len(),
        forall|k2: int|
            0 <= k2 < old(frontier)@.len() ==> #[trigger] final(frontier)@[k2] == old(
                frontier,
            )@[k2],
        grid_free(*map) ==> forall|dy: int, dx: int|
            is_unit_off(dy, dx) ==> #[trigger] off_step(done@[done@.len() - 1].c, dy, dx, dim)
                == done@[done@.len() - 1].c || has_entry(
                final(frontier)@,
                off_step(done@[done@.len() - 1].c, dy, dx, dim),
                done@[done@.len() - 1].g + 1,
            ),
{
    let ghost nc = done@[done@.len() - 1].c;
    let ghost ng1 = done@[done@.len() - 1].g + 1;
    let mut cands: Vec<Node> = Vec::new();
    consider_neighbour(&mut cands, Coord(-1, 0), dn, dim, map, done, Ghost(sn));
    let ghost c1 = cands@;
    consider_neighbour(&mut cands, Coord(1, 0), dn, dim, map, done, Ghost(sn));
    let ghost c2 = cands@;
    consider_neighbour(&mut cands, Coord(0, -1), dn, dim, map, done, Ghost(sn));
    let ghost c3 = cands@;
    consider_neighbour(&mut cands, Coord(0, 1), dn, dim, map, done, Ghost(sn));
    proof {
        if grid_free(*map) {
            assert forall|dy: int, dx: int| is_unit_off(dy, dx) implies #[trigger] off_step(
                nc,
                dy,
                dx,
                dim,
            ) == nc || has_entry(cands@, off_step(nc, dy, dx, dim), ng1) by {
                let s = off_step(nc, dy, dx, dim);
                let src = if dy == -1 {
                    c1
                } else if dy == 1 {
                    c2
                } else if dx == -1 {
                    c3
                } else {
                    cands@
                };
                if s != nc {
                    assert(has_entry(src, s, ng1));
                    let k = choose|k: int|
                        0 <= k < src.len() && (#[trigger] src[k]).c == s && src[k].g == ng1;
                    assert(cands@[k] == src[k]);
                    assert(has_entry(cands@, s, ng1));
                }
            }
        }
    }
    let ghost cands0 = cands@;
    shuffle_vec(&mut cands);
    proof {
        lemma_perm_entries(cands0, cands@, done@, sn, dn, dim, *map);
    }
    let ghost cands_sh = cands@;
    let ghost fr0 = frontier@;
    frontier.append(&mut cands);
    proof {
        assert forall|k2: int|
            0 <= k2 < frontier@.len() implies frontier_entry_inv(
                #[trigger] frontier@[k2],
                done@,
                sn,
                dn,
                dim,
                *map,
            ) by {
            if k2 < fr0.len() {
                assert(frontier@[k2] == fr0[k2]);
            }
        }
        if grid_free(*map) {
            assert forall|dy: int, dx: int| is_unit_off(dy, dx) implies #[trigger] off_step(
                nc,
                dy,
                dx,
                dim,
            ) == nc || has_entry(frontier@, off_step(nc, dy, dx, dim), ng1) by {
                let s = off_step(nc, dy, dx, dim);
                if s != nc {
                    assert(has_entry(cands0, s, ng1));
                    assert(has_entry(cands_sh, s, ng1));
                    let k = choose|k: int|
                        0 <= k < cands_sh.len() && (#[trigger] cands_sh[k]).c == s && cands_sh[k].g
                            == ng1;
                    assert(frontier@[fr0.len() + k] == cands_sh[k]);
                    assert(has_entry(frontier@, s, ng1));
                }
            }
        }
    }
}

/// A permutation of frontier candidates still holds only sound candidates.
proof fn lemma_perm_entries(
    v0: Seq<Node>,
    v1: Seq<Node>,
    done: Seq<Node>,
    sn: Coord,
    dn: Coord,
    dim: Coord,
    m: UnitMap,
)
    requires
        v1.to_multiset() == v0.to_multiset(),
        forall|k: int|
            0 <= k < v0.len() ==> frontier_entry_inv(#[trigger] v0[k], done, sn, dn, dim, m),
    ensures
        forall|k: int|
            0 <= k < v1.len() ==> frontier_entry_inv(#[trigger] v1[k], done, sn, dn, dim, m),
        forall|c: Coord, g: int| #[trigger] has_entry(v0, c, g) ==> has_entry(v1, c, g),
{
    broadcast use vstd::seq_lib::group_to_multiset_ensures;

    assert forall|c: Coord, g: int| #[trigger] has_entry(v0, c, g) implies has_entry(
        v1,
        c,
        g,
    ) by {
        let k = choose|k: int| 0 <= k < v0.len() && (#[trigger] v0[k]).c == c && v0[k].g == g;
        assert(v0.contains(v0[k]));
        assert(v0.to_multiset().count(v0[k]) > 0);
        assert(v1.contains(v0[k]));
        let k2 = choose|k2: int| 0 <= k2 < v1.len() && v1[k2] == v0[k];
        assert(v1[k2].c == c && v1[k2].g == g);
    }
    assert forall|k: int|
        0 <= k < v1.len() implies frontier_entry_inv(#[trigger] v1[k], done, sn, dn, dim, m) by {
        assert(v1.contains(v1[k]));
        assert(v1.to_multiset().count(v1[k]) > 0);
        assert(v0.contains(v1[k]));
        let j = choose|j: int| 0 <= j < v0.len() && v0[j] == v1[k];
        assert(frontier_entry_inv(v0[j], done, sn, dn, dim, m));
    }
}

/// Walk the parent links from the processed destination back to the start
/// and emit the path front to back.
fn reconstruct_path(
    done: &Vec<Node>,
    dn: Coord,
    dim: Coord,
    map: &UnitMap,
    Ghost(sn): Ghost<Coord>,
) -> (r: Vec<Coord>)
    requires
        map.wf(),
        dim == map.base.dim,
        valid_bound(dim),
        sn.normed(dim),
        dn.normed(dim),
        done_inv(done@, sn, dim, *map),
        done@.len() > 0,
        done@.last().c == dn,
    ensures
        path_ok(r@, sn, dn, dim, *map),
        r@.len() > 0,
        r@.len() == done@[done@.len() - 1].g + 1,
{
    let mut r: Vec<Coord> = Vec::new();
    let mut back: Vec<Coord> = Vec::new();
    let mut cur: usize = done.len() - 1;
    back.push(done[cur].c);
    proof {
        lemma_done_facts(done@, sn, dim, *map, cur as int);
    }
    while cur > 0
        invariant
            done_inv(done@, sn, dim, *map),
            0 <= cur < done@.len(),
            back@.len() >= 1,
            back@.len() == done@[done@.len() - 1].g - done@[cur as int].g + 1,
            back@[0] == done@[done@.len() - 1].c,
            back@.last() == done@[cur as int].c,
            forall|i: int| 0 <= i < back@.len() ==> (#[trigger] back@[i]).normed(dim),
            forall|i: int|
                0 <= i < back@.len() - 1 ==> (#[trigger] back@[i + 1]).wdist(back@[i], dim) == 1,
            forall|i: int|
                0 <= i < back@.len() - 1 ==> map.base.at(#[trigger] back@[i]) == Unit::Empty,
        decreases cur,
    {
        let ghost back0 = back@;
        let prev = done[cur].parent;
        proof {
            lemma_done_facts(done@, sn, dim, *map, cur as int);
        }
        cur = prev;
        back.push(done[cur].c);
        proof {
            lemma_done_facts(done@, sn, dim, *map, cur as int);
            assert(back@.drop_last() =~= back0);
        }
    }
    // the chain ends at the start node; emit it front to back
    let n = back.len();
    let mut t: usize = 0;
    while t < n
        invariant
            n == back@.len(),
            n >= 1,
            0 <= t <= n,
            r@.len() == t,
            forall|i: int| 0 <= i < t ==> #[trigger] r@[i] == back@[n - 1 - i],
        decreases n - t,
    {
        r.push(back[n - 1 - t]);
        t = t + 1;
    }
    proof {
        lemma_done_facts(done@, sn, dim, *map, done@.len() - 1);
        let g_dest = done@[done@.len() - 1].g as int;
        assert(back@.last() == sn);
        assert(back@.len() == g_dest + 1);
        assert(r@[0] == sn);
        assert(r@[r@.len() - 1] == back@[0]);
        assert(back@[0] == dn);
        assert(sn.wdist(dn, dim) <= g_dest);
        assert forall|i: int| 0 <= i < r@.len() - 1 implies (#[trigger] r@[i]).wdist(
            r@[i + 1],
            dim,
        ) == 1 by {
            let j = r@.len() - 2 - i;
            assert(r@[i] == back@[n - 1 - i]);
            assert(r@[i + 1] == back@[n - 2 - i]);
            assert(back@[j + 1].wdist(back@[j], dim) == 1);
            lemma_wdist_sym(back@[j + 1], back@[j], dim);
        }
        assert forall|i: int| 1 <= i < r@.len() implies map.base.at(#[trigger] r@[i])
            == Unit::Empty by {
            assert(r@[i] == back@[n - 1 - i]);
        }
    }
    r
}

/// Unfold the processed-list invariant at one index.
proof fn lemma_done_facts(done: Seq<Node>, sn: Coord, dim: Coord, m: UnitMap, i: int)
    requires
        done_inv(done, sn, dim, m),
        0 <= i < done.len(),
    ensures
        done[i].c.normed(dim),
        done[i].g <= i,
        sn.wdist(done[i].c, dim) <= done[i].g,
        done[0].c == sn && done[0].g == 0,
        i > 0 ==> done[i].parent < i && done[i].g == done[done[i].parent as int].g + 1 && done[done[i].parent as int].c.wdist(
            done[i].c,
            dim,
        ) == 1 && m.base.at(done[i].c) == Unit::Empty,
    decreases i,
{
    reveal(done_inv);
}

/// The wrap-around distance is symmetric.
proof fn lemma_wdist_sym(a: Coord, b: Coord, dim: Coord)
    ensures
        a.wdist(b, dim) == b.wdist(a, dim),
{
}

} // verus!
