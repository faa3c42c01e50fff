//! Turn-level planning: candidate direction ranking, neighbourhood queries,
//! and the greedy conflict-resolving scheduler that turns per-agent intents
//! into a collision-free set of single-step moves, updating the unit map
//! eagerly as each move is accepted.

use vstd::prelude::*;
use crate::coord::{
    Coord, Dir, step_to, sdelta1, valid_bound, lemma_wd1_toward, COORD_LIMIT, DIM_MAX,
};
use crate::grid::lemma_norm_identity;
use crate::mapraw::{Player, RawMaps, Unit, UnitMap};
use crate::rng::shuffle_vec;

verus! {

/// How many of the four neighbouring cells of `c` are free on the unit map.
pub open spec fn spec_free_neighbours(m: UnitMap, c: Coord) -> int {
    (if m.at_off(c, -1, 0) is Empty {
        1int
    } else {
        0int
    }) + (if m.at_off(c, 1, 0) is Empty {
        1int
    } else {
        0int
    }) + (if m.at_off(c, 0, -1) is Empty {
        1int
    } else {
        0int
    }) + (if m.at_off(c, 0, 1) is Empty {
        1int
    } else {
        0int
    })
}

/// Count the free cells among the four neighbours of `c`.
pub fn get_num_free_neighours(c: Coord, map: &RawMaps) -> (r: usize)
    requires
        map.wf(),
        c.bounded((COORD_LIMIT - 2 * DIM_MAX) as int),
    ensures
        r == spec_free_neighbours(map.map_u, c),
        r <= 4,
{
    let dim = map.map_u.dim();
    let mut count: usize = 0;
    let n0 = map.map_u.get(c.add(Coord(-1, 0)));
    let n1 = map.map_u.get(c.add(Coord(1, 0)));
    let n2 = map.map_u.get(c.add(Coord(0, -1)));
    let n3 = map.map_u.get(c.add(Coord(0, 1)));
    if matches!(n0, Unit::Empty) {
        count = count + 1;
    }
    if matches!(n1, Unit::Empty) {
        count = count + 1;
    }
    if matches!(n2, Unit::Empty) {
        count = count + 1;
    }
    if matches!(n3, Unit::Empty) {
        count = count + 1;
    }
    count
}

/// A unit step whose sign matches a nonzero component of the shortest
/// signed wrap-around difference from `fc` to `tc`: one of the short ways.
pub open spec fn is_pref_dir(d: Dir, fc: Coord, tc: Coord, dim: Coord) -> bool {
    let dy = sdelta1(tc.ys(), fc.ys(), dim.ys());
    let dx = sdelta1(tc.xs(), fc.xs(), dim.xs());
    (dy >= 1 && d == Dir(1i32, 0i32)) || (dy <= -1 && d == Dir(-1i32, 0i32)) || (dx >= 1 && d
        == Dir(0i32, 1i32)) || (dx <= -1 && d == Dir(0i32, -1i32))
}

/// How many axes still separate `fc` from `tc`.
pub open spec fn pref_count(fc: Coord, tc: Coord, dim: Coord) -> int {
    (if sdelta1(tc.ys(), fc.ys(), dim.ys()) != 0 {
        1int
    } else {
        0int
    }) + (if sdelta1(tc.xs(), fc.xs(), dim.xs()) != 0 {
        1int
    } else {
        0int
    })
}

/// The candidate list holds this step.
pub open spec fn has_dir(r: Seq<Dir>, d: Dir) -> bool {
    exists|k: int| 0 <= k < r.len() && #[trigger] r[k] == d
}

impl Coord {
    /// Candidate unit steps toward `dest`, the short way around the torus
    /// first: the one or two directions that reduce the wrap-around distance,
    /// then the remaining unit directions, each group in a random order.
    #[verifier::rlimit(100)]
    pub fn get_prioritized_dir(&self, dest: &Coord, rawmap: &RawMaps) -> (r: Vec<Dir>)
        requires
            rawmap.wf(),
            self.bounded(COORD_LIMIT as int),
            dest.bounded(COORD_LIMIT as int),
        ensures
            r@.len() == 4,
            forall|k: int| 0 <= k < 4 ==> (#[trigger] r@[k]).is_unit(),
            ({
                let dim = rawmap.map_r.base.dim;
                let fn_ = self.norm_spec(dim);
                let tn = dest.norm_spec(dim);
                fn_ != tn ==> step_to(fn_, r@[0], dim).wdist(tn, dim) == fn_.wdist(tn, dim) - 1
            }),
            ({
                let dim = rawmap.map_r.base.dim;
                let fn_ = self.norm_spec(dim);
                let tn = dest.norm_spec(dim);
                &&& forall|k: int|
                    0 <= k < pref_count(fn_, tn, dim) ==> is_pref_dir(
                        #[trigger] r@[k],
                        fn_,
                        tn,
                        dim,
                    ) && dir_reduces(r@[k], fn_, tn, dim)
                &&& forall|k: int|
                    pref_count(fn_, tn, dim) <= k < 4 ==> !is_pref_dir(
                        #[trigger] r@[k],
                        fn_,
                        tn,
                        dim,
                    )
                &&& forall|d: Dir| #[trigger] d.is_unit() ==> has_dir(r@, d)
            }),
    {
        let dim = rawmap.map_r.dim();
        let dif = dest.diff_wrap_around(self, &dim);
        let fc = self.modulo(&dim);
        let tc = dest.modulo(&dim);
        let mut choices: Vec<Dir> = Vec::new();
        let mut choices_no: Vec<Dir> = Vec::new();
        if dif.0 >= 1 {
            choices.push(Dir(1, 0));
            choices_no.push(Dir(-1, 0));
        } else if dif.0 <= -1 {
            choices.push(Dir(-1, 0));
            choices_no.push(Dir(1, 0));
        } else {
            choices_no.push(Dir(1, 0));
            choices_no.push(Dir(-1, 0));
        }
        if dif.1 >= 1 {
            choices.push(Dir(0, 1));
            choices_no.push(Dir(0, -1));
        } else if dif.1 <= -1 {
            choices.push(Dir(0, -1));
            choices_no.push(Dir(0, 1));
        } else {
            choices_no.push(Dir(0, 1));
            choices_no.push(Dir(0, -1));
        }
        proof {
            if dif.ys() >= 1 {
                lemma_wd1_toward(fc.ys(), tc.ys(), dim.ys(), 1);
            }
            if dif.ys() <= -1 {
                lemma_wd1_toward(fc.ys(), tc.ys(), dim.ys(), -1);
            }
            if dif.xs() >= 1 {
                lemma_wd1_toward(fc.xs(), tc.xs(), dim.xs(), 1);
            }
            if dif.xs() <= -1 {
                lemma_wd1_toward(fc.xs(), tc.xs(), dim.xs(), -1);
            }
            crate::coord::lemma_norm_small(fc.ys(), dim.ys());
            crate::coord::lemma_norm_small(fc.xs(), dim.xs());
            assert forall|k: int|
                0 <= k < choices@.len() implies (#[trigger] choices@[k]).is_unit() && dir_reduces(
                choices@[k],
                fc,
                tc,
                dim,
            ) && is_pref_dir(choices@[k], fc, tc, dim) by {}
            assert forall|k: int|
                0 <= k < choices_no@.len() implies (#[trigger] choices_no@[k]).is_unit()
                && !is_pref_dir(choices_no@[k], fc, tc, dim) by {}
            assert(choices@.len() == pref_count(fc, tc, dim));
            assert(choices@.len() + choices_no@.len() == 4);
            let cy: int = if dif.ys() != 0 {
                1
            } else {
                0
            };
            let ny: int = if dif.ys() != 0 {
                1
            } else {
                2
            };
            if dif.ys() >= 1 {
                assert(choices@[0] == Dir(1i32, 0i32));
                assert(choices_no@[0] == Dir(-1i32, 0i32));
            } else if dif.ys() <= -1 {
                assert(choices@[0] == Dir(-1i32, 0i32));
                assert(choices_no@[0] == Dir(1i32, 0i32));
            } else {
                assert(choices_no@[0] == Dir(1i32, 0i32));
                assert(choices_no@[1] == Dir(-1i32, 0i32));
            }
            if dif.xs() >= 1 {
                assert(choices@[cy] == Dir(0i32, 1i32));
                assert(choices_no@[ny] == Dir(0i32, -1i32));
            } else if dif.xs() <= -1 {
                assert(choices@[cy] == Dir(0i32, -1i32));
                assert(choices_no@[ny] == Dir(0i32, 1i32));
            } else {
                assert(choices_no@[ny] == Dir(0i32, 1i32));
                assert(choices_no@[ny + 1] == Dir(0i32, -1i32));
            }
            assert(choices@.contains(Dir(1i32, 0i32)) || choices_no@.contains(Dir(1i32, 0i32)));
            assert(choices@.contains(Dir(-1i32, 0i32)) || choices_no@.contains(
                Dir(-1i32, 0i32),
            ));
            assert(choices@.contains(Dir(0i32, 1i32)) || choices_no@.contains(Dir(0i32, 1i32)));
            assert(choices@.contains(Dir(0i32, -1i32)) || choices_no@.contains(
                Dir(0i32, -1i32),
            ));
        }
        let ghost pref0 = choices@;
        shuffle_vec(&mut choices);
        proof {
            lemma_perm_dirs(pref0, choices@, fc, tc, dim);
        }
        let ghost no0 = choices_no@;
        shuffle_vec(&mut choices_no);
        proof {
            lemma_perm_unit_dirs(no0, choices_no@, fc, tc, dim);
        }
        let mut r = choices;
        let ghost rc = r@;
        let ghost no_sh_v = choices_no@;
        r.append(&mut choices_no);
        proof {
            assert(r@.subrange(0, rc.len() as int) =~= rc);
            assert(r@.subrange(rc.len() as int, r@.len() as int) =~= no_sh_v);
            if fc != tc {
                assert(fc.wdist(tc, dim) > 0) by {
                    if fc.wdist(tc, dim) == 0 {
                        assert(fc.ys() == tc.ys() && fc.xs() == tc.xs());
                    }
                }
                assert(dif.l1() == fc.wdist(tc, dim));
                assert(rc.len() >= 1);
                assert(r@[0] == rc[0]);
            }
            assert forall|k: int|
                0 <= k < pref_count(fc, tc, dim) implies is_pref_dir(
                #[trigger] r@[k],
                fc,
                tc,
                dim,
            ) && dir_reduces(r@[k], fc, tc, dim) by {
                assert(r@[k] == rc[k]);
            }
            assert forall|k: int|
                pref_count(fc, tc, dim) <= k < 4 implies !is_pref_dir(
                #[trigger] r@[k],
                fc,
                tc,
                dim,
            ) by {}
            assert forall|d: Dir| #[trigger] d.is_unit() implies has_dir(r@, d) by {
                assert(d == Dir(1i32, 0i32) || d == Dir(-1i32, 0i32) || d == Dir(0i32, 1i32)
                    || d == Dir(0i32, -1i32));
                lemma_dir_present(pref0, no0, rc, r@, d);
            }
        }
        r
    }
}

/// A step carried by either group before the shuffles is still in the
/// concatenation of the shuffled groups.
proof fn lemma_dir_present(
    pref0: Seq<Dir>,
    no0: Seq<Dir>,
    c_sh: Seq<Dir>,
    r: Seq<Dir>,
    d: Dir,
)
    requires
        c_sh.to_multiset() == pref0.to_multiset(),
        c_sh.len() <= r.len(),
        r.subrange(0, c_sh.len() as int) == c_sh,
        r.subrange(c_sh.len() as int, r.len() as int).to_multiset() == no0.to_multiset(),
        pref0.contains(d) || no0.contains(d),
    ensures
        has_dir(r, d),
{
    broadcast use vstd::seq_lib::group_to_multiset_ensures;
    broadcast use vstd::multiset::group_multiset_axioms;

    let no_sh = r.subrange(c_sh.len() as int, r.len() as int);
    if pref0.contains(d) {
        assert(pref0.to_multiset().count(d) > 0);
        assert(c_sh.to_multiset().count(d) > 0);
        assert(c_sh.contains(d));
        let k = choose|k: int| 0 <= k < c_sh.len() && c_sh[k] == d;
        assert(r.subrange(0, c_sh.len() as int)[k] == c_sh[k]);
        assert(r[k] == c_sh[k]);
        assert(has_dir(r, d));
    } else {
        assert(no0.to_multiset().count(d) > 0);
        assert(no_sh.to_multiset().count(d) > 0);
        assert(no_sh.contains(d));
        let k = choose|k: int| 0 <= k < no_sh.len() && no_sh[k] == d;
        assert(no_sh[k] == r[c_sh.len() + k]);
        assert(has_dir(r, d));
    }
}

/// A unit that belongs to another player.
pub open spec fn enemy(u: Unit, my_id: usize) -> bool {
    u.is_ship() && !u.owned_by(my_id)
}

/// The queued intents are sound: every origin is a distinct normalized cell
/// holding one of the player's own ships, targets are in range, and agent ids
/// are distinct.
pub open spec fn queued_ok(q: Seq<(i32, Coord, Coord)>, m: RawMaps, my_id: usize) -> bool {
    &&& forall|t: int|
        0 <= t < q.len() ==> (#[trigger] q[t]).1.normed(m.map_r.base.dim) && q[t].2.bounded(
            COORD_LIMIT as int,
        )
    &&& forall|t: int| 0 <= t < q.len() ==> m.map_u.base.at((#[trigger] q[t]).1).owned_by(my_id)
    &&& forall|t1: int, t2: int|
        0 <= t1 < q.len() && 0 <= t2 < q.len() && t1 != t2 ==> (#[trigger] q[t1]).0 != (
        #[trigger] q[t2]).0 && q[t1].1 != q[t2].1
}

/// No unit step from `from` is currently acceptable: every neighbouring
/// cell holds a unit, and in the end game none of them is a dropoff the
/// player owns.
pub open spec fn no_step(m: RawMaps, my_id: usize, from: Coord, is_end_game: bool) -> bool {
    forall|d: Dir|
        #[trigger] d.is_unit() ==> !(m.map_u.base.at(step_to(from, d, m.map_r.base.dim))
            == Unit::Empty) && !(is_end_game && m.map_d.base.at(
            step_to(from, d, m.map_r.base.dim),
        ) == Some(Player(my_id)))
}

/// Some queued intent carries agent `id`.
pub open spec fn has_queued_id(q: Seq<(i32, Coord, Coord)>, id: i32) -> bool {
    exists|t: int| 0 <= t < q.len() && (#[trigger] q[t]).0 == id
}

/// The queued entry index carrying agent `id`.
pub open spec fn queued_idx(q: Seq<(i32, Coord, Coord)>, id: i32) -> int {
    choose|t: int| 0 <= t < q.len() && (#[trigger] q[t]).0 == id
}

/// The origin cell of agent `id` in the queued intents.
pub open spec fn queued_from(q: Seq<(i32, Coord, Coord)>, id: i32) -> Coord {
    q[queued_idx(q, id)].1
}

/// The cell a scheduled command sends its agent to.
pub open spec fn sched_dest(q: Seq<(i32, Coord, Coord)>, dim: Coord, e: (i32, Dir)) -> Coord {
    step_to(queued_from(q, e.0), e.1, dim)
}

/// The scheduler passes this intent over: it belongs to the agent spawned
/// this turn, or its wrap-around delta is zero (no movement required).
pub open spec fn skipped_intent(
    e: (i32, Coord, Coord),
    dim: Coord,
    new_agent_id: Option<i32>,
) -> bool {
    (new_agent_id matches Some(nid) && e.0 == nid) || e.2.norm_spec(dim) == e.1
}

/// The reordered intent list holds this row.
pub open spec fn row_in(q2: Seq<(i32, Coord, Coord)>, e: (i32, Coord, Coord)) -> bool {
    exists|t2: int| 0 <= t2 < q2.len() && #[trigger] q2[t2] == e
}

/// Some scheduled command's agent set out from this cell.
pub open spec fn vacated_by(out: Seq<(i32, Dir)>, q: Seq<(i32, Coord, Coord)>, c: Coord) -> bool {
    exists|j: int| 0 <= j < out.len() && queued_from(q, (#[trigger] out[j]).0) == c
}

/// Some scheduled command's origin or destination is the cell (y, x).
pub open spec fn touches(
    out: Seq<(i32, Dir)>,
    q: Seq<(i32, Coord, Coord)>,
    dim: Coord,
    y: int,
    x: int,
) -> bool {
    exists|i: int|
        0 <= i < out.len() && ({
            let f = queued_from(q, (#[trigger] out[i]).0);
            let d = sched_dest(q, dim, out[i]);
            (f.ys() == y && f.xs() == x) || (d.ys() == y && d.xs() == x)
        })
}

/// Some accepted move set out from this cell.
pub open spec fn mv_vacated(mvs: Seq<(i32, Coord, Coord)>, c: Coord) -> bool {
    exists|j: int| 0 <= j < mvs.len() && (#[trigger] mvs[j]).1 == c
}

/// Some accepted move's origin or destination is the cell (y, x).
pub open spec fn mv_touches(mvs: Seq<(i32, Coord, Coord)>, y: int, x: int) -> bool {
    exists|i: int|
        0 <= i < mvs.len() && (((#[trigger] mvs[i]).1.ys() == y && mvs[i].1.xs() == x) || (
        mvs[i].2.ys() == y && mvs[i].2.xs() == x))
}

/// One accepted move with its bookkeeping: output entry `e`, taken from the
/// intents before index `t`, whose recorded origin and destination fit.
pub open spec fn mv_ok(
    m: (i32, Coord, Coord),
    e: (i32, Dir),
    q: Seq<(i32, Coord, Coord)>,
    t: int,
    dim: Coord,
) -> bool {
    &&& e.0 == m.0
    &&& e.1.is_unit()
    &&& m.2 == step_to(m.1, e.1, dim)
    &&& m.1.normed(dim)
    &&& m.2.normed(dim)
    &&& exists|tt: int|
        0 <= tt < t && (#[trigger] q[tt]).0 == m.0 && q[tt].1 == m.1 && q[tt].2.norm_spec(dim)
            != q[tt].1
}

/// Try one agent's candidate directions in order and take the first whose
/// destination is free — or, in the end game, is one of the player's own
/// dropoffs. An accepted move is applied to the unit map at once: the record
/// moves to the destination and the origin cell becomes free.
fn try_accept(map: &mut RawMaps, my_id: usize, from: Coord, to: Coord, is_end_game: bool) -> (r:
    Option<Dir>)
    requires
        old(map).wf(),
        from.normed(old(map).map_r.base.dim),
        to.bounded(COORD_LIMIT as int),
        old(map).map_u.base.at(from).is_ship(),
    ensures
        final(map).wf(),
        final(map).map_r == old(map).map_r,
        final(map).map_d == old(map).map_d,
        final(map).map_u.base.dim == old(map).map_u.base.dim,
        match r {
            Option::None => final(map).map_u == old(map).map_u && no_step(
                *old(map),
                my_id,
                from,
                is_end_game,
            ),
            Option::Some(d) => {
                let dim = old(map).map_r.base.dim;
                let dst = step_to(from, d, dim);
                &&& d.is_unit()
                &&& dst.normed(dim)
                &&& (old(map).map_u.base.at(dst) == Unit::Empty || (is_end_game && old(map).map_d.base.at(dst) == Some(Player(my_id))))
                &&& final(map).map_u.base.at(dst).is_ship()
                &&& final(map).map_u.base.at(dst) == old(map).map_u.base.at(from)
                &&& (dst != from ==> final(map).map_u.base.at(from) == Unit::Empty)
                &&& forall|y: int, x: int|
                    0 <= y < dim.ys() && 0 <= x < dim.xs() && !(y == dst.ys() && x == dst.xs())
                        && !(y == from.ys() && x == from.xs()) ==> #[trigger] final(map).map_u.base.cell(y, x) == old(map).map_u.base.cell(y, x)
            },
        },
{
    let dim = map.map_r.dim();
    let cands = from.get_prioritized_dir(&to, map);
    let n = cands.len();
    let mut k: usize = 0;
    while k < n
        invariant
            *map == *old(map),
            old(map).wf(),
            dim == old(map).map_r.base.dim,
            from.normed(dim),
            old(map).map_u.base.at(from).is_ship(),
            n == cands@.len(),
            n == 4,
            0 <= k <= n,
            forall|j: int| 0 <= j < n ==> (#[trigger] cands@[j]).is_unit(),
            forall|d: Dir| #[trigger] d.is_unit() ==> has_dir(cands@, d),
            forall|j: int|
                0 <= j < k ==> !(old(map).map_u.base.at(
                    step_to(from, #[trigger] cands@[j], dim),
                ) == Unit::Empty) && !(is_end_game && old(map).map_d.base.at(
                    step_to(from, cands@[j], dim),
                ) == Some(Player(my_id))),
        decreases n - k,
    {
        let dir = cands[k];
        let dst = from.add(Coord(dir.0, dir.1)).modulo(&dim);
        proof {
            assert(dst == step_to(from, dir, dim));
            lemma_norm_identity(dst, dim);
        }
        let free = matches!(map.map_u.get(dst), Unit::Empty);
        let mut over = false;
        if !free && is_end_game {
            match map.map_d.get(dst) {
                Some(p) => {
                    if p.0 == my_id {
                        over = true;
                    }
                },
                None => {},
            }
        }
        if free || over {
            let unit = map.map_u.get(from);
            proof {
                lemma_norm_identity(from, dim);
                match unit {
                    Unit::Ship { player, id, halite } => {
                        assert(map.map_u.cell_ok(from.ys(), from.xs()));
                        assert(map.map_u.base.inv_has(player, id) && map.map_u.base.inv_at(
                            player,
                            id,
                        ) == from);
                    },
                    Unit::Empty => {
                        assert(false);
                    },
                }
            }
            map.map_u.set(dst, unit);
            return Some(dir);
        }
        k = k + 1;
    }
    proof {
        assert forall|d: Dir| #[trigger] d.is_unit() implies !(old(map).map_u.base.at(
            step_to(from, d, dim),
        ) == Unit::Empty) && !(is_end_game && old(map).map_d.base.at(step_to(from, d, dim))
            == Some(Player(my_id))) by {
            assert(has_dir(cands@, d));
            let j = choose|j: int| 0 <= j < cands@.len() && #[trigger] cands@[j] == d;
        }
    }
    None
}

/// Greedy single-pass scheduler: intents are processed in order; an agent
/// whose wrap-around delta is zero (or that was spawned this turn) is
/// skipped; otherwise the first candidate direction whose destination is free
/// — or, in the end game, an owned dropoff — is accepted and applied to the
/// unit map at once, so no later agent can claim the same cell. Two accepted
/// commands resolve to the same destination only under the end-game dropoff
/// override; outside the end game an accepted destination is never a cell an
/// enemy ship occupied when scheduling began, and a claimed cell keeps an
/// own ship until its standing agent departs by a later accepted move. An
/// empty command list means every live intent was out of takeable steps.
#[verifier::rlimit(100)]
fn schedule_core(
    my_id: usize,
    queued: &Vec<(i32, Coord, Coord)>,
    map: &mut RawMaps,
    is_end_game: bool,
    new_agent_id: Option<i32>,
    use_paths: bool,
) -> (out: Vec<(i32, Dir)>)
    requires
        old(map).wf(),
        queued_ok(queued@, *old(map), my_id),
    ensures
        final(map).wf(),
        final(map).map_r == old(map).map_r,
        final(map).map_d == old(map).map_d,
        final(map).map_u.base.dim == old(map).map_u.base.dim,
        forall|i: int| 0 <= i < out@.len() ==> (#[trigger] out@[i]).1.is_unit(),
        forall|i: int| 0 <= i < out@.len() ==> has_queued_id(queued@, (#[trigger] out@[i]).0),
        forall|i: int, j: int|
            0 <= i < out@.len() && 0 <= j < out@.len() && i != j ==> (#[trigger] out@[i]).0 != (
            #[trigger] out@[j]).0,
        forall|i: int, j: int|
            0 <= i < out@.len() && 0 <= j < out@.len() && i != j && sched_dest(
                queued@,
                old(map).map_r.base.dim,
                #[trigger] out@[i],
            ) == sched_dest(queued@, old(map).map_r.base.dim, #[trigger] out@[j]) ==> is_end_game
                && old(map).map_d.base.at(
                sched_dest(queued@, old(map).map_r.base.dim, out@[i]),
            ) == Some(Player(my_id)),
        !is_end_game ==> forall|i: int|
            0 <= i < out@.len() ==> !enemy(
                old(map).map_u.base.at(
                    sched_dest(queued@, old(map).map_r.base.dim, #[trigger] out@[i]),
                ),
                my_id,
            ),
        // commands only for intents that were not passed over
        forall|i: int|
            0 <= i < out@.len() ==> !skipped_intent(
                queued@[queued_idx(queued@, (#[trigger] out@[i]).0)],
                old(map).map_r.base.dim,
                new_agent_id,
            ),
        // if nothing was scheduled, no intent had an acceptable step
        out@.len() == 0 ==> forall|tt: int|
            0 <= tt < queued@.len() ==> skipped_intent(
                #[trigger] queued@[tt],
                old(map).map_r.base.dim,
                new_agent_id,
            ) || no_step(*old(map), my_id, queued@[tt].1, is_end_game),
        // each accepted destination holds one of the player's own ships until
        // its own standing agent departs in a later accepted move
        forall|i: int|
            0 <= i < out@.len() ==> final(map).map_u.base.at(
                sched_dest(queued@, old(map).map_r.base.dim, #[trigger] out@[i]),
            ).owned_by(my_id) || vacated_by(
                out@,
                queued@,
                sched_dest(queued@, old(map).map_r.base.dim, out@[i]),
            ),
        // only origins and destinations of accepted moves change
        forall|y: int, x: int|
            0 <= y < old(map).map_r.base.dim.ys() && 0 <= x < old(map).map_r.base.dim.xs()
                && !touches(out@, queued@, old(map).map_r.base.dim, y, x) ==> #[trigger] final(map).map_u.base.cell(y, x) == old(map).map_u.base.cell(y, x),
        // outside the end game a destination was free when claimed: it was
        // empty at the start or an accepted mover had vacated it
        !is_end_game ==> forall|i: int|
            0 <= i < out@.len() ==> old(map).map_u.base.at(
                sched_dest(queued@, old(map).map_r.base.dim, #[trigger] out@[i]),
            ) == Unit::Empty || vacated_by(
                out@,
                queued@,
                sched_dest(queued@, old(map).map_r.base.dim, out@[i]),
            ),
{
    let ghost dim = old(map).map_r.base.dim;
    let ghost q = queued@;
    let mut out: Vec<(i32, Dir)> = Vec::new();
    let ghost mut mvs: Seq<(i32, Coord, Coord)> = Seq::empty();
    let n = queued.len();
    let mut t: usize = 0;
    while t < n
        invariant
            map.wf(),
            map.map_r == old(map).map_r,
            map.map_d == old(map).map_d,
            map.map_u.base.dim == dim,
            dim == old(map).map_r.base.dim,
            q == queued@,
            queued_ok(q, *old(map), my_id),
            n == q.len(),
            0 <= t <= n,
            out@.len() == mvs.len(),
            forall|i: int|
                0 <= i < mvs.len() ==> mv_ok(#[trigger] mvs[i], out@[i], q, t as int, dim),
            forall|i: int, j: int|
                0 <= i < mvs.len() && 0 <= j < mvs.len() && i != j ==> (#[trigger] mvs[i]).0 != (
                #[trigger] mvs[j]).0,
            // unprocessed origins still hold their agents' own ships
            forall|tt: int|
                t <= tt < n ==> map.map_u.base.at((#[trigger] q[tt]).1).owned_by(my_id),
            // an accepted destination stays occupied by an own ship until its
            // own standing agent moves
            forall|i: int|
                0 <= i < mvs.len() ==> map.map_u.base.at((#[trigger] mvs[i]).2).owned_by(my_id)
                    || (exists|j: int| i < j < mvs.len() && (#[trigger] mvs[j]).1 == mvs[i].2),
            // only origins and destinations of accepted moves have changed
            forall|y: int, x: int|
                0 <= y < dim.ys() && 0 <= x < dim.xs() && !mv_touches(mvs, y, x)
                    ==> #[trigger] map.map_u.base.cell(y, x) == old(map).map_u.base.cell(y, x),
            // outside the end game a claimed destination started empty or had
            // been vacated by an earlier accepted move
            !is_end_game ==> forall|i: int|
                0 <= i < mvs.len() ==> old(map).map_u.base.at((#[trigger] mvs[i]).2)
                    == Unit::Empty || mv_vacated(mvs, mvs[i].2),
            // while nothing is scheduled, every processed intent was skipped
            // or had no acceptable step
            mvs.len() == 0 ==> forall|tt: int|
                0 <= tt < t ==> skipped_intent(#[trigger] q[tt], dim, new_agent_id) || no_step(
                    *old(map),
                    my_id,
                    q[tt].1,
                    is_end_game,
                ),
            // the spawned agent never receives a command
            forall|i: int|
                0 <= i < mvs.len() ==> !(new_agent_id matches Some(nid) && (#[trigger] mvs[i]).0
                    == nid),
            // a destination taken while free is no unprocessed or later origin
            forall|i: int, tt: int|
                0 <= i < mvs.len() && t <= tt < n ==> (is_end_game && old(map).map_d.base.at(
                    (#[trigger] mvs[i]).2,
                ) == Some(Player(my_id))) || (#[trigger] q[tt]).1 != mvs[i].2,
            forall|i: int, j: int|
                0 <= i < mvs.len() && i < j < mvs.len() ==> (is_end_game && old(map).map_d.base.at((#[trigger] mvs[i]).2) == Some(Player(my_id))) || (
                #[trigger] mvs[j]).1 != mvs[i].2,
            // no two accepted moves share a destination outside the override
            forall|i: int, j: int|
                0 <= i < mvs.len() && 0 <= j < mvs.len() && i != j && (#[trigger] mvs[i]).2 == (
                #[trigger] mvs[j]).2 ==> is_end_game && old(map).map_d.base.at(mvs[i].2) == Some(
                    Player(my_id),
                ),
            // cells that held enemy ships are untouched outside the end game
            !is_end_game ==> forall|y: int, x: int|
                0 <= y < dim.ys() && 0 <= x < dim.xs() && enemy(
                    old(map).map_u.base.cell(y, x),
                    my_id,
                ) ==> #[trigger] map.map_u.base.cell(y, x) == old(map).map_u.base.cell(y, x),
            // no accepted destination was an enemy cell at the start
            !is_end_game ==> forall|i: int|
                0 <= i < mvs.len() ==> !enemy(old(map).map_u.base.at((#[trigger] mvs[i]).2), my_id),
        decreases n - t,
    {
        let (id, from, to) = queued[t];
        let mut skip = false;
        match new_agent_id {
            Some(nid) => {
                if nid == id {
                    skip = true;
                }
            },
            None => {},
        }
        let dimc = map.map_r.dim();
        let tn = to.modulo(&dimc);
        if tn.y() == from.y() && tn.x() == from.x() {
            // zero wrap-around delta: no movement required this turn
            skip = true;
        }
        if !skip {
            proof {
                assert(map.map_u.base.at(q[t as int].1).is_ship());
            }
            let ghost pre = *map;
            let acc = if use_paths {
                try_accept_v2(map, my_id, from, tn, is_end_game)
            } else {
                try_accept(map, my_id, from, tn, is_end_game)
            };
            match acc {
                Some(dir) => {
                    let ghost dst = step_to(from, dir, dim);
                    let ghost m_new: (i32, Coord, Coord) = (id, from, dst);
                    out.push((id, dir));
                    proof {
                        let ghost mvs0 = mvs;
                        mvs = mvs.push(m_new);
                        let L = mvs0.len() as int;
                        assert(mvs[L] == m_new);
                        assert forall|i: int| 0 <= i < mvs.len() implies mv_ok(
                            #[trigger] mvs[i],
                            out@[i],
                            q,
                            t + 1,
                            dim,
                        ) by {
                            if i < L {
                                assert(mvs[i] == mvs0[i]);
                                assert(out@[i] == out@.drop_last()[i]);
                                assert(mv_ok(mvs0[i], out@.drop_last()[i], q, t as int, dim));
                                let tt = choose|tt: int|
                                    0 <= tt < t && (#[trigger] q[tt]).0 == mvs0[i].0 && q[tt].1
                                        == mvs0[i].1 && q[tt].2.norm_spec(dim) != q[tt].1;
                                assert(0 <= tt < t + 1 && q[tt].0 == mvs[i].0 && q[tt].1
                                    == mvs[i].1);
                            } else {
                                assert(out@[i] == (id, dir));
                                assert(q[t as int].0 == id && q[t as int].1 == from);
                                assert(q[t as int].2.norm_spec(dim) != q[t as int].1);
                            }
                        }
                        assert forall|i: int, j: int|
                            0 <= i < mvs.len() && 0 <= j < mvs.len() && i != j implies (
                        #[trigger] mvs[i]).0 != (#[trigger] mvs[j]).0 by {
                            if i < L && j < L {
                                assert(mvs0[i].0 != mvs0[j].0);
                            } else {
                                let s = if i < L {
                                    i
                                } else {
                                    j
                                };
                                assert(mv_ok(mvs0[s], out@.drop_last()[s], q, t as int, dim));
                                let tt = choose|tt: int|
                                    0 <= tt < t && (#[trigger] q[tt]).0 == mvs0[s].0 && q[tt].1
                                        == mvs0[s].1;
                                assert(q[tt].0 != q[t as int].0);
                            }
                        }
                        // unprocessed origins: only the current origin was
                        // cleared, and the destination received an own ship
                        assert(map.map_u.base.at(dst) == pre.map_u.base.at(from));
                        assert(pre.map_u.base.at(from).owned_by(my_id));
                        assert forall|tt: int|
                            t + 1 <= tt < n implies map.map_u.base.at(
                            (#[trigger] q[tt]).1,
                        ).owned_by(my_id) by {
                            assert(q[tt].1 != from);
                            if q[tt].1.ys() == dst.ys() && q[tt].1.xs() == dst.xs() {
                                assert(q[tt].1 == dst);
                                assert(map.map_u.base.at(dst).owned_by(my_id));
                            } else {
                                assert(map.map_u.base.cell(q[tt].1.ys(), q[tt].1.xs())
                                    == pre.map_u.base.cell(q[tt].1.ys(), q[tt].1.xs()));
                                assert(pre.map_u.base.at(q[tt].1).owned_by(my_id));
                            }
                        }
                        // occupied destinations
                        assert forall|i: int|
                            0 <= i < mvs.len() implies map.map_u.base.at(
                            (#[trigger] mvs[i]).2,
                        ).owned_by(my_id) || (exists|j: int|
                            i < j < mvs.len() && (#[trigger] mvs[j]).1 == mvs[i].2) by {
                            if i < L {
                                if mvs0[i].2 == from {
                                    assert(mvs[L].1 == from);
                                } else if mvs0[i].2.ys() == dst.ys() && mvs0[i].2.xs()
                                    == dst.xs() {
                                    assert(map.map_u.base.at(dst).owned_by(my_id));
                                } else if pre.map_u.base.at(mvs0[i].2).owned_by(my_id) {
                                    assert(map.map_u.base.cell(mvs0[i].2.ys(), mvs0[i].2.xs())
                                        == pre.map_u.base.cell(mvs0[i].2.ys(), mvs0[i].2.xs()));
                                } else {
                                    let j = choose|j: int|
                                        i < j < mvs0.len() && (#[trigger] mvs0[j]).1 == mvs0[i].2;
                                    assert(mvs[j].1 == mvs[i].2);
                                }
                            } else {
                                assert(map.map_u.base.at(dst).owned_by(my_id));
                            }
                        }
                        // free-taken destinations are no remaining origins
                        assert forall|i: int, tt: int|
                            0 <= i < mvs.len() && t + 1 <= tt < n implies (is_end_game && old(map).map_d.base.at((#[trigger] mvs[i]).2) == Some(Player(my_id))) || (
                        #[trigger] q[tt]).1 != mvs[i].2 by {
                            if i == L {
                                if !(is_end_game && old(map).map_d.base.at(dst) == Some(
                                    Player(my_id),
                                )) {
                                    assert(pre.map_u.base.at(dst) == Unit::Empty);
                                    assert(pre.map_u.base.at(q[tt].1).is_ship());
                                    if q[tt].1 == dst {
                                        assert(false);
                                    }
                                }
                            }
                        }
                        assert forall|i: int, j: int|
                            0 <= i < mvs.len() && i < j < mvs.len() implies (is_end_game && old(map).map_d.base.at((#[trigger] mvs[i]).2) == Some(Player(my_id))) || (
                        #[trigger] mvs[j]).1 != mvs[i].2 by {
                            if j == L && i < L {
                                if !(is_end_game && old(map).map_d.base.at(mvs0[i].2) == Some(
                                    Player(my_id),
                                )) {
                                    assert(q[t as int].1 != mvs0[i].2);
                                    assert(mvs[j].1 == from);
                                }
                            }
                        }
                        // pairwise distinct destinations outside the override
                        assert forall|i: int, j: int|
                            0 <= i < mvs.len() && 0 <= j < mvs.len() && i != j && (
                        #[trigger] mvs[i]).2 == (#[trigger] mvs[j]).2 implies is_end_game && old(map).map_d.base.at(mvs[i].2) == Some(Player(my_id)) by {
                            let lo = if i < j {
                                i
                            } else {
                                j
                            };
                            let hi = if i < j {
                                j
                            } else {
                                i
                            };
                            if hi == L {
                                if !(is_end_game && old(map).map_d.base.at(mvs[lo].2) == Some(
                                    Player(my_id),
                                )) {
                                    // the new move found the cell free, so the
                                    // earlier occupant must have left through
                                    // its own later move, which cannot exist
                                    assert(pre.map_u.base.at(dst) == Unit::Empty);
                                    assert(mvs0[lo].2 == dst);
                                    assert(pre.map_u.base.at(mvs0[lo].2).owned_by(my_id) || (
                                    exists|j2: int|
                                        lo < j2 < mvs0.len() && (#[trigger] mvs0[j2]).1
                                            == mvs0[lo].2));
                                    let j2 = choose|j2: int|
                                        lo < j2 < mvs0.len() && (#[trigger] mvs0[j2]).1
                                            == mvs0[lo].2;
                                    assert((is_end_game && old(map).map_d.base.at(mvs0[lo].2)
                                        == Some(Player(my_id))) || mvs0[j2].1 != mvs0[lo].2);
                                    assert(false);
                                }
                            }
                        }
                        // enemy cells and enemy destinations
                        if !is_end_game {
                            assert forall|y: int, x: int|
                                0 <= y < dim.ys() && 0 <= x < dim.xs() && enemy(
                                    old(map).map_u.base.cell(y, x),
                                    my_id,
                                ) implies #[trigger] map.map_u.base.cell(y, x) == old(map).map_u.base.cell(y, x) by {
                                if y == dst.ys() && x == dst.xs() {
                                    assert(pre.map_u.base.at(dst) == Unit::Empty);
                                    assert(pre.map_u.base.cell(y, x) == old(map).map_u.base.cell(
                                        y,
                                        x,
                                    ));
                                } else if y == from.ys() && x == from.xs() {
                                    assert(old(map).map_u.base.at(from).owned_by(my_id));
                                } else {
                                    assert(map.map_u.base.cell(y, x) == pre.map_u.base.cell(y, x));
                                }
                            }
                            assert forall|i: int| 0 <= i < mvs.len() implies !enemy(
                                old(map).map_u.base.at((#[trigger] mvs[i]).2),
                                my_id,
                            ) by {
                                if i == L {
                                    if enemy(old(map).map_u.base.at(dst), my_id) {
                                        assert(pre.map_u.base.cell(dst.ys(), dst.xs()) == old(map).map_u.base.cell(dst.ys(), dst.xs()));
                                        assert(pre.map_u.base.at(dst) == Unit::Empty);
                                    }
                                }
                            }
                        }
                        // frame: only recorded origins and destinations change
                        assert forall|y: int, x: int|
                            0 <= y < dim.ys() && 0 <= x < dim.xs() && !mv_touches(
                                mvs,
                                y,
                                x,
                            ) implies #[trigger] map.map_u.base.cell(y, x) == old(map).map_u.base.cell(y, x) by {
                            assert(!((mvs[L]).1.ys() == y && mvs[L].1.xs() == x) && !(
                            mvs[L].2.ys() == y && mvs[L].2.xs() == x));
                            assert(!mv_touches(mvs0, y, x)) by {
                                if mv_touches(mvs0, y, x) {
                                    let i = choose|i: int|
                                        0 <= i < mvs0.len() && (((#[trigger] mvs0[i]).1.ys() == y
                                            && mvs0[i].1.xs() == x) || (mvs0[i].2.ys() == y
                                            && mvs0[i].2.xs() == x));
                                    assert(mvs[i] == mvs0[i]);
                                    assert(mv_touches(mvs, y, x));
                                }
                            }
                            assert(map.map_u.base.cell(y, x) == pre.map_u.base.cell(y, x));
                        }
                        // outside the end game the claim found the cell free
                        if !is_end_game {
                            assert forall|i: int|
                                0 <= i < mvs.len() implies old(map).map_u.base.at(
                                (#[trigger] mvs[i]).2,
                            ) == Unit::Empty || mv_vacated(mvs, mvs[i].2) by {
                                if i < L {
                                    if old(map).map_u.base.at(mvs0[i].2) == Unit::Empty {
                                    } else {
                                        assert(mv_vacated(mvs0, mvs0[i].2));
                                        let j = choose|j: int|
                                            0 <= j < mvs0.len() && (#[trigger] mvs0[j]).1
                                                == mvs0[i].2;
                                        assert(mvs[j].1 == mvs[i].2);
                                        assert(mv_vacated(mvs, mvs[i].2));
                                    }
                                } else {
                                    assert(pre.map_u.base.at(dst) == Unit::Empty);
                                    if old(map).map_u.base.at(dst) != Unit::Empty {
                                        assert(mv_touches(mvs0, dst.ys(), dst.xs())) by {
                                            if !mv_touches(mvs0, dst.ys(), dst.xs()) {
                                                assert(pre.map_u.base.cell(dst.ys(), dst.xs())
                                                    == old(map).map_u.base.cell(
                                                    dst.ys(),
                                                    dst.xs(),
                                                ));
                                            }
                                        }
                                        let i2 = choose|i2: int|
                                            0 <= i2 < mvs0.len() && (((#[trigger] mvs0[i2]).1.ys()
                                                == dst.ys() && mvs0[i2].1.xs() == dst.xs()) || (
                                            mvs0[i2].2.ys() == dst.ys() && mvs0[i2].2.xs()
                                                == dst.xs()));
                                        if mvs0[i2].1.ys() == dst.ys() && mvs0[i2].1.xs()
                                            == dst.xs() {
                                            assert(mvs0[i2].1 == dst);
                                            assert(mvs[i2].1 == dst);
                                            assert(mv_vacated(mvs, dst));
                                        } else {
                                            assert(mvs0[i2].2 == dst);
                                            assert(pre.map_u.base.at(mvs0[i2].2).owned_by(my_id)
                                                || (exists|j2: int|
                                                i2 < j2 < mvs0.len() && (#[trigger] mvs0[j2]).1
                                                    == mvs0[i2].2));
                                            if pre.map_u.base.at(mvs0[i2].2).owned_by(my_id) {
                                                assert(false);
                                            }
                                            let j2 = choose|j2: int|
                                                i2 < j2 < mvs0.len() && (#[trigger] mvs0[j2]).1
                                                    == mvs0[i2].2;
                                            assert(mvs[j2].1 == dst);
                                            assert(mv_vacated(mvs, dst));
                                        }
                                    }
                                }
                            }
                        }
                        // the spawned agent stays uncommanded
                        assert forall|i: int|
                            0 <= i < mvs.len() implies !(new_agent_id matches Some(nid) && (
                        #[trigger] mvs[i]).0 == nid) by {
                            if i < L {
                                assert(mvs[i] == mvs0[i]);
                            }
                        }
                    }
                },
                None => {
                    proof {
                        if mvs.len() == 0 {
                            assert forall|d: Dir| #[trigger] d.is_unit() implies !(old(map).map_u.base.at(step_to(from, d, dim)) == Unit::Empty) && !(
                            is_end_game && old(map).map_d.base.at(step_to(from, d, dim)) == Some(
                                Player(my_id),
                            )) by {
                                let c = step_to(from, d, dim);
                                vstd::arithmetic::div_mod::lemma_mod_division_less_than_divisor(
                                    from.ys() + d.ys(),
                                    dim.ys(),
                                );
                                vstd::arithmetic::div_mod::lemma_mod_division_less_than_divisor(
                                    from.xs() + d.xs(),
                                    dim.xs(),
                                );
                                assert(!mv_touches(mvs, c.ys(), c.xs()));
                                assert(map.map_u.base.cell(c.ys(), c.xs()) == old(map).map_u.base.cell(c.ys(), c.xs()));
                                assert(pre.map_u.base.cell(c.ys(), c.xs()) == map.map_u.base.cell(
                                    c.ys(),
                                    c.xs(),
                                ));
                                assert(!(pre.map_u.base.at(c) == Unit::Empty));
                            }
                            assert(no_step(*old(map), my_id, q[t as int].1, is_end_game));
                        }
                    }
                },
            }
        } else {
            proof {
                assert(skipped_intent(q[t as int], dim, new_agent_id));
            }
        }
        t = t + 1;
    }
    proof {
        assert forall|i: int| 0 <= i < out@.len() implies (#[trigger] out@[i]).1.is_unit() by {
            assert(mv_ok(mvs[i], out@[i], q, n as int, dim));
        }
        assert forall|i: int| 0 <= i < out@.len() implies has_queued_id(
            queued@,
            (#[trigger] out@[i]).0,
        ) by {
            assert(mv_ok(mvs[i], out@[i], q, n as int, dim));
            let tt = choose|tt: int|
                0 <= tt < n && (#[trigger] q[tt]).0 == mvs[i].0 && q[tt].1 == mvs[i].1;
            assert(0 <= tt < queued@.len() && queued@[tt].0 == out@[i].0);
        }
        assert forall|i: int, j: int|
            0 <= i < out@.len() && 0 <= j < out@.len() && i != j implies (#[trigger] out@[i]).0
            != (#[trigger] out@[j]).0 by {
            assert(mvs[i].0 != mvs[j].0);
            assert(mv_ok(mvs[i], out@[i], q, n as int, dim));
            assert(mv_ok(mvs[j], out@[j], q, n as int, dim));
        }
        assert forall|i: int| 0 <= i < out@.len() implies sched_dest(q, dim, #[trigger] out@[i])
            == mvs[i].2 && queued_from(q, out@[i].0) == mvs[i].1 by {
            assert(mv_ok(mvs[i], out@[i], q, n as int, dim));
            let tt = choose|tt: int|
                0 <= tt < n && (#[trigger] q[tt]).0 == mvs[i].0 && q[tt].1 == mvs[i].1;
            let ti = queued_idx(q, out@[i].0);
            assert(q[ti].0 == out@[i].0);
            assert(ti == tt);
            assert(queued_from(q, out@[i].0) == mvs[i].1);
        }
        // commands only for live intents
        assert forall|i: int| 0 <= i < out@.len() implies !skipped_intent(
            q[queued_idx(q, (#[trigger] out@[i]).0)],
            dim,
            new_agent_id,
        ) by {
            assert(mv_ok(mvs[i], out@[i], q, n as int, dim));
            let tt = choose|tt: int|
                0 <= tt < n && (#[trigger] q[tt]).0 == mvs[i].0 && q[tt].1 == mvs[i].1
                    && q[tt].2.norm_spec(dim) != q[tt].1;
            let ti = queued_idx(q, out@[i].0);
            assert(q[ti].0 == out@[i].0);
            assert(ti == tt);
        }
        // destination occupancy until vacated
        assert forall|i: int| 0 <= i < out@.len() implies map.map_u.base.at(
            sched_dest(q, dim, #[trigger] out@[i]),
        ).owned_by(my_id) || vacated_by(out@, q, sched_dest(q, dim, out@[i])) by {
            if !map.map_u.base.at(mvs[i].2).owned_by(my_id) {
                let j = choose|j: int|
                    i < j < mvs.len() && (#[trigger] mvs[j]).1 == mvs[i].2;
                assert(queued_from(q, (out@[j]).0) == mvs[j].1);
                assert(vacated_by(out@, q, mvs[i].2));
            }
        }
        // frame: untouched cells kept their content
        assert forall|y: int, x: int|
            0 <= y < dim.ys() && 0 <= x < dim.xs() && !touches(out@, q, dim, y, x) implies
            #[trigger] map.map_u.base.cell(y, x) == old(map).map_u.base.cell(y, x) by {
            assert(!mv_touches(mvs, y, x)) by {
                if mv_touches(mvs, y, x) {
                    let i = choose|i: int|
                        0 <= i < mvs.len() && (((#[trigger] mvs[i]).1.ys() == y && mvs[i].1.xs()
                            == x) || (mvs[i].2.ys() == y && mvs[i].2.xs() == x));
                    assert(queued_from(q, (out@[i]).0) == mvs[i].1 && sched_dest(q, dim, out@[i])
                        == mvs[i].2);
                    assert(touches(out@, q, dim, y, x));
                }
            }
        }
        // outside the end game, claims found the cell free
        if !is_end_game {
            assert forall|i: int| 0 <= i < out@.len() implies old(map).map_u.base.at(
                sched_dest(q, dim, #[trigger] out@[i]),
            ) == Unit::Empty || vacated_by(out@, q, sched_dest(q, dim, out@[i])) by {
                if old(map).map_u.base.at(mvs[i].2) != Unit::Empty {
                    assert(mv_vacated(mvs, mvs[i].2));
                    let j = choose|j: int|
                        0 <= j < mvs.len() && (#[trigger] mvs[j]).1 == mvs[i].2;
                    assert(queued_from(q, (out@[j]).0) == mvs[j].1);
                    assert(vacated_by(out@, q, mvs[i].2));
                }
            }
        }
    }
    out
}

/// The free neighbours of each of the four neighbours of `c`, sorted so the
/// most open neighbouring cell comes first, ties in random order.
pub fn get_neighours_most_free(c: Coord, map: &RawMaps) -> (r: Vec<(Coord, usize)>)
    requires
        map.wf(),
        c.normed(map.map_r.base.dim),
    ensures
        r@.len() == 4,
        forall|k: int|
            0 <= k < 4 ==> (#[trigger] r@[k]).1 == spec_free_neighbours(map.map_u, r@[k].0)
                && r@[k].0.normed(map.map_r.base.dim),
        forall|a: int, b: int| 0 <= a < b < 4 ==> (#[trigger] r@[a]).1 >= (#[trigger] r@[b]).1,
{
    let dim = map.map_u.dim();
    let mut offsets: Vec<Coord> = Vec::new();
    offsets.push(Coord(-1, 0));
    offsets.push(Coord(1, 0));
    offsets.push(Coord(0, -1));
    offsets.push(Coord(0, 1));
    let mut r: Vec<(Coord, usize)> = Vec::new();
    let mut k: usize = 0;
    while k < 4
        invariant
            map.wf(),
            c.normed(map.map_r.base.dim),
            dim == map.map_r.base.dim,
            offsets@.len() == 4,
            forall|t: int| 0 <= t < 4 ==> (#[trigger] offsets@[t]).bounded(1int),
            0 <= k <= 4,
            r@.len() == k,
            forall|t: int|
                0 <= t < k ==> (#[trigger] r@[t]).1 == spec_free_neighbours(map.map_u, r@[t].0)
                    && r@[t].0.normed(map.map_r.base.dim),
        decreases 4 - k,
    {
        let pos = c.add(offsets[k]).modulo(&dim);
        let free = get_num_free_neighours(pos, map);
        r.push((pos, free));
        k = k + 1;
    }
    let ghost r0 = r@;
    shuffle_vec(&mut r);
    proof {
        lemma_perm_neigh(r0, r@, *map);
    }
    // most open first
    let n = r.len();
    let mut i: usize = 0;
    while i < n
        invariant
            map.wf(),
            n == r@.len(),
            n == 4,
            0 <= i <= n,
            forall|t: int|
                0 <= t < n ==> (#[trigger] r@[t]).1 == spec_free_neighbours(map.map_u, r@[t].0)
                    && r@[t].0.normed(map.map_r.base.dim),
            forall|a: int, b: int| 0 <= a < b < i ==> (#[trigger] r@[a]).1 >= (#[trigger] r@[b]).1,
            forall|a: int, b: int|
                0 <= a < i && i <= b < n ==> (#[trigger] r@[a]).1 >= (#[trigger] r@[b]).1,
        decreases n - i,
    {
        let mut best: usize = i;
        let mut j: usize = i + 1;
        while j < n
            invariant
                n == r@.len(),
                0 <= i <= best < n,
                i < j <= n,
                forall|t: int| i <= t < j ==> (#[trigger] r@[t]).1 <= r@[best as int].1,
            decreases n - j,
        {
            if r[j].1 > r[best].1 {
                best = j;
            }
            j = j + 1;
        }
        let ghost before = r@;
        let ri = r[i];
        let rb = r[best];
        r[i] = rb;
        r[best] = ri;
        proof {
            assert forall|a: int, b: int|
                0 <= a < b < i + 1 implies (#[trigger] r@[a]).1 >= (#[trigger] r@[b]).1 by {
                if b < i {
                    assert(r@[a] == before[a] && r@[b] == before[b]);
                } else {
                    assert(r@[b] == before[best as int]);
                    if a < i {
                        assert(r@[a] == before[a]);
                    }
                }
            }
            assert forall|a: int, b: int|
                0 <= a < i + 1 && i + 1 <= b < n implies (#[trigger] r@[a]).1 >= (
            #[trigger] r@[b]).1 by {
                let vb_old = if b == best {
                    before[i as int]
                } else {
                    before[b]
                };
                assert(r@[b] == vb_old);
                if a < i {
                    assert(r@[a] == before[a]);
                } else {
                    assert(r@[a] == before[best as int]);
                }
            }
            assert forall|t: int|
                0 <= t < n implies (#[trigger] r@[t]).1 == spec_free_neighbours(
                map.map_u,
                r@[t].0,
            ) && r@[t].0.normed(map.map_r.base.dim) by {
                if t != i as int && t != best as int {
                    assert(r@[t] == before[t]);
                }
            }
        }
        i = i + 1;
    }
    r
}

/// A permutation of neighbour records keeps every record true to the map.
proof fn lemma_perm_neigh(v0: Seq<(Coord, usize)>, v1: Seq<(Coord, usize)>, m: RawMaps)
    requires
        v1.to_multiset() == v0.to_multiset(),
        forall|t: int|
            0 <= t < v0.len() ==> (#[trigger] v0[t]).1 == spec_free_neighbours(m.map_u, v0[t].0)
                && v0[t].0.normed(m.map_r.base.dim),
    ensures
        v1.len() == v0.len(),
        forall|t: int|
            0 <= t < v1.len() ==> (#[trigger] v1[t]).1 == spec_free_neighbours(m.map_u, v1[t].0)
                && v1[t].0.normed(m.map_r.base.dim),
{
    broadcast use vstd::seq_lib::group_to_multiset_ensures;

    assert(v1.len() == v1.to_multiset().len());
    assert(v0.len() == v0.to_multiset().len());
    assert forall|t: int|
        0 <= t < v1.len() implies (#[trigger] v1[t]).1 == spec_free_neighbours(m.map_u, v1[t].0)
        && v1[t].0.normed(m.map_r.base.dim) by {
        assert(v1.contains(v1[t]));
        assert(v1.to_multiset().count(v1[t]) > 0);
        assert(v0.contains(v1[t]));
        let j = choose|j: int| 0 <= j < v0.len() && v0[j] == v1[t];
    }
}

/// Rank candidate harvesting cells for the turn: the halite field convolved
/// with the Gaussian kernel, every cell ranked best-score-first.
pub fn find_resource_to_mine(
    my_id: usize,
    player_agents: &Vec<crate::agent::Agent>,
    rawmaps: &RawMaps,
    kernel_dim: usize,
) -> (r: Vec<Coord>)
    requires
        rawmaps.wf(),
        1 <= kernel_dim <= crate::select::KERNEL_SIDE_MAX,
    ensures
        forall|i: int|
            0 <= i < r@.len() ==> (#[trigger] r@[i]).normed(rawmaps.map_r.base.dim),
        forall|a: int, b: int|
            0 <= a < b < r@.len() ==> crate::select::spec_score_kv(
                rawmaps.map_r.base.cells@,
                rawmaps.map_r.base.dim,
                crate::select::ConvolveKernelVal::Gaussian,
                kernel_dim as int,
                (#[trigger] r@[a]).ys(),
                r@[a].xs(),
            ) >= crate::select::spec_score_kv(
                rawmaps.map_r.base.cells@,
                rawmaps.map_r.base.dim,
                crate::select::ConvolveKernelVal::Gaussian,
                kernel_dim as int,
                (#[trigger] r@[b]).ys(),
                r@[b].xs(),
            ),
        forall|i: int, j: int|
            0 <= i < r@.len() && 0 <= j < r@.len() && i != j ==> (#[trigger] r@[i]) != (
            #[trigger] r@[j]),
        r@.len() == rawmaps.map_r.base.dim.ys() * rawmaps.map_r.base.dim.xs(),
{
    proof {
        let cells = rawmaps.map_r.base.cells@;
        let dim = rawmaps.map_r.base.dim;
        assert(cells.len() == dim.ys());
        assert(cells[0]@.len() == dim.xs());
        assert(crate::select::dims_of(cells) == dim);
        assert forall|y: int, x: int|
            0 <= y < dim.ys() && 0 <= x < dim.xs() implies #[trigger] cells[y]@[x]
            <= crate::mapraw::RESOURCE_CELL_MAX by {
            assert(rawmaps.map_r.base.cell(y, x) <= crate::mapraw::RESOURCE_CELL_MAX);
        }
        assert(crate::select::field_ok(cells, crate::select::dims_of(cells)));
    }
    crate::select::get_best_locations(
        crate::select::ConvolveKernelVal::Gaussian,
        kernel_dim,
        &rawmaps.map_r.base.cells,
        None,
    )
}

/// Whether a straight-line walk adds the yield of the target cell or only
/// pays transit costs.
#[derive(Clone, Copy, Debug)]
pub enum PathAction {
    Subtract,
    Add,
}

/// Round-trip profit estimates are cut off below this: a candidate whose
/// exponential distance penalty saturates is treated as unreachable.
pub const PROFIT_REJECT_FLOOR: i64 = -1000000000;

/// The saturated ceiling of the exponential distance penalty.
pub const PENALTY_CAP: u64 = 1000000000000;

/// e^n in thousandths, saturated at the penalty cap.
pub open spec fn spec_exp_step(n: nat) -> int
    decreases n,
{
    if n == 0 {
        1000
    } else {
        let p = spec_exp_step((n - 1) as nat);
        if p >= PENALTY_CAP {
            PENALTY_CAP as int
        } else {
            p * 2718 / 1000
        }
    }
}

/// The exponential distance penalty for a trip, from the argument in
/// thousandths: e to that power, whole halite units, saturated at the cap.
pub open spec fn spec_exp_penalty(q_milli: int) -> int {
    let n = q_milli / 1000;
    let f = q_milli % 1000;
    if n >= 40 {
        PENALTY_CAP as int
    } else {
        spec_exp_step(n as nat) * (1000 + f + f * f / 2000) / 1000000
    }
}

/// e raised to `q_milli` thousandths, in whole units, saturated at the cap.
fn exp_penalty(q_milli: u64) -> (r: u64)
    ensures
        r == spec_exp_penalty(q_milli as int),
        r <= PENALTY_CAP,
{
    let n = q_milli / 1000;
    let f = q_milli % 1000;
    if n >= 40 {
        PENALTY_CAP
    } else {
        let mut acc: u64 = 1000;
        let mut i: u64 = 0;
        while i < n
            invariant
                0 <= i <= n < 40,
                acc == spec_exp_step(i as nat),
                1000 <= acc <= 3 * PENALTY_CAP,
            decreases n - i,
        {
            if acc >= PENALTY_CAP {
                acc = PENALTY_CAP;
                proof {
                    assert(spec_exp_step((i + 1) as nat) == PENALTY_CAP as int);
                    lemma_exp_step_stays_capped((i + 1) as nat, n as nat);
                }
                i = n;
            } else {
                acc = acc * 2718 / 1000;
                i = i + 1;
            }
        }
        proof {
            assert(1000 + f + f * f / 2000 <= 2499) by (nonlinear_arith)
                requires
                    0 <= f < 1000,
            ;
            assert(acc * (1000 + f + f * f / 2000) <= 3 * PENALTY_CAP * 2499 && acc * (1000 + f + f
                * f / 2000) / 1000000 <= PENALTY_CAP) by (nonlinear_arith)
                requires
                    acc <= 3 * PENALTY_CAP,
                    0 < 1000 + f + f * f / 2000 <= 2499,
                    PENALTY_CAP == 1000000000000,
            ;
        }
        let fm: u64 = 1000 + f + f * f / 2000;
        acc * fm / 1000000
    }
}

/// Once saturated, the stepped exponential stays saturated.
proof fn lemma_exp_step_stays_capped(a: nat, b: nat)
    requires
        a <= b,
        spec_exp_step(a) == PENALTY_CAP as int,
    ensures
        spec_exp_step(b) == PENALTY_CAP as int,
    decreases b - a,
{
    if a < b {
        assert(spec_exp_step((a + 1) as nat) == PENALTY_CAP as int);
        lemma_exp_step_stays_capped((a + 1) as nat, b);
    }
}

/// The stepped exponential stays within three times the cap.
proof fn lemma_exp_step_bound(n: nat)
    ensures
        1000 <= spec_exp_step(n) <= 3 * PENALTY_CAP,
    decreases n,
{
    if n > 0 {
        lemma_exp_step_bound((n - 1) as nat);
        let p = spec_exp_step((n - 1) as nat);
        if p < PENALTY_CAP {
            assert(1000 <= p * 2718 / 1000 <= 3 * PENALTY_CAP) by (nonlinear_arith)
                requires
                    1000 <= p < PENALTY_CAP,
                    PENALTY_CAP == 1000000000000,
            ;
        }
    }
}

/// The exponential penalty is nonnegative and saturates at the cap.
pub proof fn lemma_exp_penalty_bound(q: int)
    requires
        q >= 0,
    ensures
        0 <= spec_exp_penalty(q) <= PENALTY_CAP,
{
    let n = q / 1000;
    let f = q % 1000;
    if n < 40 {
        lemma_exp_step_bound(n as nat);
        let b = spec_exp_step(n as nat);
        assert(0 <= b * (1000 + f + f * f / 2000) / 1000000 <= PENALTY_CAP) by (nonlinear_arith)
            requires
                1000 <= b <= 3 * PENALTY_CAP,
                0 <= f < 1000,
                PENALTY_CAP == 1000000000000,
        ;
    }
}

/// Estimate the halite left after a straight-line wrap-around walk from
/// `start` to `end`: outbound walks pay a tenth of each traversed cell in
/// transit (floored at zero), return walks first bank the target cell's
/// yield and then pay seven percent per cell; the whole estimate is finally
/// discounted by an exponential penalty in the distance and the map's
/// average remaining richness. If start and end coincide the amount passes
/// through untouched.
#[verifier::rlimit(100)]
pub fn get_approx_halite_in_path(
    halite_amount: i64,
    start: Coord,
    end: Coord,
    map: &RawMaps,
    path_action: PathAction,
    avg_map_resource_milli: u64,
) -> (r: i64)
    requires
        map.wf(),
        start.bounded(COORD_LIMIT as int),
        end.bounded(COORD_LIMIT as int),
        -10000000000000 <= halite_amount <= 100000000,
        avg_map_resource_milli <= 1000000,
    ensures
        ({
            let dim = map.map_r.base.dim;
            let sn = start.norm_spec(dim);
            let en = end.norm_spec(dim);
            let dist = sn.wdist(en, dim);
            let pen = spec_exp_penalty(avg_map_resource_milli * dist / 10);
            &&& (sn == en ==> r == halite_amount)
            &&& (sn != en && path_action is Subtract ==> 0 <= r + pen <= (if halite_amount >= 0 {
                halite_amount
            } else {
                0
            }))
            &&& (sn != en && path_action is Add ==> halite_amount - 143360 <= r + pen
                <= halite_amount + 1000)
        }),
{
    let dim = map.map_r.dim();
    let sn = start.modulo(&dim);
    let en = end.modulo(&dim);
    let ghost dist0 = sn.wdist(en, dim);
    if sn.y() == en.y() && sn.x() == en.x() {
        proof {
            assert(sn == en);
        }
        return halite_amount;
    }
    let mut halite: i64 = halite_amount;
    match path_action {
        PathAction::Subtract => {
            // a negative running amount floors immediately
            if halite < 0 {
                halite = 0;
            }
        },
        PathAction::Add => {},
    }
    let mut s = sn;
    let mut got_first = false;
    let ghost max0: int = if halite_amount >= 0 {
        halite_amount as int
    } else {
        0
    };
    while s.y() != en.y() || s.x() != en.x()
        invariant
            map.wf(),
            dim == map.map_r.base.dim,
            valid_bound(dim),
            sn.normed(dim),
            en.normed(dim),
            s.normed(dim),
            dist0 == sn.wdist(en, dim),
            s.wdist(en, dim) <= dist0,
            dist0 <= 2 * DIM_MAX,
            -10000000000000 <= halite_amount <= 100000000,
            max0 == if halite_amount >= 0 {
                halite_amount as int
            } else {
                0
            },
            s == sn || s.wdist(en, dim) < dist0,
            path_action is Subtract ==> 0 <= halite <= max0,
            path_action is Add ==> ((s == sn && !got_first && halite == halite_amount) || (
            got_first && halite_amount - (dist0 - s.wdist(en, dim)) * 70 <= halite
                <= halite_amount + 1000)),
        decreases s.wdist(en, dim),
    {
        proof {
            assert(s != en);
        }
        let dirs = s.get_prioritized_dir(&en, map);
        let deposit = map.map_r.get(s);
        let ghost dist_before = s.wdist(en, dim);
        match path_action {
            PathAction::Subtract => {
                halite = halite - (deposit as i64) / 10;
                if halite < 0 {
                    halite = 0;
                    proof {
                        crate::grid::lemma_norm_identity(s, dim);
                        crate::grid::lemma_norm_identity(en, dim);
                    }
                    break ;
                }
            },
            PathAction::Add => {
                if !got_first {
                    halite = halite + (deposit as i64);
                    got_first = true;
                } else {
                    halite = halite - 7 * (deposit as i64) / 100;
                }
            },
        }
        let d0 = dirs[0];
        proof {
            crate::grid::lemma_norm_identity(s, dim);
            crate::grid::lemma_norm_identity(en, dim);
        }
        let s2 = s.add(Coord(d0.0, d0.1)).modulo(&dim);
        proof {
            assert(s2 == step_to(s, d0, dim));
            assert(s2.wdist(en, dim) == s.wdist(en, dim) - 1);
        }
        s = s2;
    }
    let dif = sn.diff_wrap_around(&en, &dim);
    let dist = dif.abs() as i64;
    proof {
        crate::grid::lemma_norm_identity(sn, dim);
        crate::grid::lemma_norm_identity(en, dim);
        assert(dist == dist0);
    }
    proof {
        assert(avg_map_resource_milli * dist <= 2048000000) by (nonlinear_arith)
            requires
                avg_map_resource_milli <= 1000000,
                0 <= dist <= 2048,
        ;
    }
    let q: u64 = avg_map_resource_milli * (dist as u64) / 10;
    let pen = exp_penalty(q);
    halite - (pen as i64)
}

/// There is some dropoff registered for the player.
pub open spec fn has_dropoff(md: crate::mapraw::DropoffMap, my_id: usize) -> bool {
    exists|i: i32| #[trigger] md.base.inv_has(my_id, i)
}

/// `d` is a registered dropoff of the player at minimal wrap-around distance
/// from `target`.
pub open spec fn is_nearest_dropoff(
    md: crate::mapraw::DropoffMap,
    my_id: usize,
    target: Coord,
    d: Coord,
) -> bool {
    &&& exists|i: i32| #[trigger] md.base.inv_has(my_id, i) && md.base.inv_at(my_id, i) == d
    &&& forall|i: i32|
        #[trigger] md.base.inv_has(my_id, i) ==> d.wdist(target, md.base.dim)
            <= md.base.inv_at(my_id, i).wdist(target, md.base.dim)
}

/// The player's dropoff closest to `target` by wrap-around distance.
pub fn nearest_dropoff(md: &crate::mapraw::DropoffMap, my_id: usize, target: Coord) -> (r: Option<
    Coord,
>)
    requires
        md.wf(),
        target.normed(md.base.dim),
    ensures
        match r {
            Some(d) => is_nearest_dropoff(*md, my_id, target, d) && d.normed(md.base.dim),
            None => !has_dropoff(*md, my_id),
        },
{
    let dim = md.dim();
    let list = md.get_player_dropoffs(my_id);
    let n = list.len();
    if n == 0 {
        proof {
            if has_dropoff(*md, my_id) {
                let i = choose|i: i32| #[trigger] md.base.inv_has(my_id, i);
                let j = choose|j: int|
                    0 <= j < list@.len() && (#[trigger] list@[j]).0 == i;
            }
        }
        return None;
    }
    let mut best: usize = 0;
    proof {
        crate::grid::lemma_norm_identity(list@[0].1, dim);
        crate::grid::lemma_norm_identity(target, dim);
    }
    let mut best_dist = list[0].1.diff_wrap_around(&target, &dim).abs();
    let mut j: usize = 1;
    while j < n
        invariant
            md.wf(),
            dim == md.base.dim,
            target.normed(dim),
            n == list@.len(),
            0 <= best < n,
            1 <= j <= n,
            forall|t: int|
                0 <= t < list@.len() ==> md.base.inv_has(my_id, (#[trigger] list@[t]).0)
                    && md.base.inv_at(my_id, list@[t].0) == list@[t].1 && list@[t].1.normed(dim),
            forall|i: i32|
                md.base.inv_has(my_id, i) ==> exists|t: int|
                    0 <= t < list@.len() && (#[trigger] list@[t]).0 == i,
            best_dist == list@[best as int].1.wdist(target, dim),
            forall|t: int|
                0 <= t < j ==> best_dist <= (#[trigger] list@[t]).1.wdist(target, dim),
        decreases n - j,
    {
        let d = list[j].1.diff_wrap_around(&target, &dim).abs();
        proof {
            crate::grid::lemma_norm_identity(list@[j as int].1, dim);
            crate::grid::lemma_norm_identity(target, dim);
        }
        if d < best_dist {
            best = j;
            best_dist = d;
        }
        j = j + 1;
    }
    proof {
        crate::grid::lemma_norm_identity(list@[best as int].1, dim);
        crate::grid::lemma_norm_identity(target, dim);
        assert(md.base.inv_has(my_id, list@[best as int].0) && md.base.inv_at(
            my_id,
            list@[best as int].0,
        ) == list@[best as int].1);
        assert forall|i: i32| #[trigger] md.base.inv_has(my_id, i) implies list@[best as int].1.wdist(
            target,
            dim,
        ) <= md.base.inv_at(my_id, i).wdist(target, dim) by {
            let t = choose|t: int| 0 <= t < list@.len() && (#[trigger] list@[t]).0 == i;
            assert(best_dist <= list@[t].1.wdist(target, dim));
        }
    }
    Some(list[best].1)
}

/// The candidate list holds this cell.
pub open spec fn loc_in(locs: Seq<Coord>, c: Coord) -> bool {
    exists|t: int| 0 <= t < locs.len() && #[trigger] locs[t] == c
}

/// Whether the list holds this cell.
fn coord_vec_contains(v: &Vec<Coord>, c: Coord) -> (r: bool)
    ensures
        r == loc_in(v@, c),
{
    let n = v.len();
    let mut t: usize = 0;
    while t < n
        invariant
            n == v@.len(),
            0 <= t <= n,
            forall|j: int| 0 <= j < t ==> #[trigger] v@[j] != c,
        decreases n - t,
    {
        if v[t].y() == c.y() && v[t].x() == c.x() {
            proof {
                assert(v@[t as int] == c);
            }
            return true;
        }
        t = t + 1;
    }
    proof {
        if loc_in(v@, c) {
            let j = choose|j: int| 0 <= j < v@.len() && #[trigger] v@[j] == c;
            assert(false);
        }
    }
    false
}

/// The agent was idle and has just been routed to a fresh mine.
pub open spec fn newly_routed(a0: crate::agent::Agent, a1: crate::agent::Agent) -> bool {
    a0.status is Idle && a1.status is MoveToMine
}

/// Route every idle agent to a harvesting candidate and refresh returners'
/// dropoffs. An idle agent scans the ranked candidates front to back and
/// claims the first unclaimed one whose estimated round-trip profit clears
/// the rejection floor; its dropoff becomes the one nearest the claimed mine,
/// and a claimed candidate is never handed to a second agent. An agent on its
/// way to a dropoff is retargeted to the dropoff nearest its position.
#[verifier::rlimit(60)]
pub fn assign_agents_to_mine(
    my_id: usize,
    player_agents: &mut Vec<crate::agent::Agent>,
    rawmaps: &RawMaps,
    locations: &Vec<Coord>,
)
    requires
        rawmaps.wf(),
        has_dropoff(rawmaps.map_d, my_id),
        forall|k: int|
            0 <= k < old(player_agents)@.len() ==> (#[trigger] old(player_agents)@[k]).wf_targets() && old(player_agents)@[k].coords_ok(rawmaps.map_r.base.dim) && old(player_agents)@[k].halite <= 1000000,
        forall|t: int|
            0 <= t < locations@.len() ==> (#[trigger] locations@[t]).normed(rawmaps.map_r.base.dim),
    ensures
        final(player_agents)@.len() == old(player_agents)@.len(),
        forall|k: int|
            0 <= k < old(player_agents)@.len() ==> agent_assign_ok(
                #[trigger] old(player_agents)@[k],
                final(player_agents)@[k],
                *rawmaps,
                my_id,
                locations@,
            ),
        forall|k1: int, k2: int|
            0 <= k1 < old(player_agents)@.len() && 0 <= k2 < old(player_agents)@.len() && k1 != k2
                && newly_routed(
                #[trigger] old(player_agents)@[k1],
                #[trigger] final(player_agents)@[k1],
            ) && newly_routed(
                #[trigger] old(player_agents)@[k2],
                #[trigger] final(player_agents)@[k2],
            ) ==> final(player_agents)@[k1].assigned_mine != final(player_agents)@[k2].assigned_mine,
        // an idle agent stays unrouted only when every candidate was already
        // claimed earlier in the batch or might have failed its profit test
        forall|k: int, j: int|
            #![trigger old(player_agents)@[k], locations@[j]]
            0 <= k < old(player_agents)@.len() && 0 <= j < locations@.len() && old(
                player_agents,
            )@[k].status is Idle && !newly_routed(old(player_agents)@[k], final(player_agents)@[k])
                ==> claimed_by_prior(
                old(player_agents)@,
                final(player_agents)@,
                k,
                locations@[j],
            ) || !sure_candidate(*rawmaps, my_id, old(player_agents)@[k].pos, locations@[j]),
        // a routed agent took the first candidate still free to take
        forall|k: int|
            0 <= k < old(player_agents)@.len() && newly_routed(
                #[trigger] old(player_agents)@[k],
                #[trigger] final(player_agents)@[k],
            ) ==> first_cleared(
                old(player_agents)@,
                final(player_agents)@,
                *rawmaps,
                my_id,
                k,
                locations@,
            ),
{
    let dim = rawmaps.map_r.dim();
    let avg_raw = rawmaps.map_r.avg_remain_milli();
    let avg = if avg_raw > 1000000 {
        1000000
    } else {
        avg_raw
    };
    proof {
        assert(avg as int == clamped_avg_milli(rawmaps.map_r));
    }
    let mut claimed: Vec<Coord> = Vec::new();
    let n = player_agents.len();
    let mut k: usize = 0;
    while k < n
        invariant
            rawmaps.wf(),
            dim == rawmaps.map_r.base.dim,
            has_dropoff(rawmaps.map_d, my_id),
            avg <= 1000000,
            avg as int == clamped_avg_milli(rawmaps.map_r),
            forall|t: int|
                0 <= t < locations@.len() ==> (#[trigger] locations@[t]).normed(dim),
            n == player_agents@.len(),
            player_agents@.len() == old(player_agents)@.len(),
            0 <= k <= n,
            forall|k2: int|
                0 <= k2 < old(player_agents)@.len() ==> (#[trigger] old(player_agents)@[k2]).wf_targets() && old(player_agents)@[k2].coords_ok(dim) && old(player_agents)@[k2].halite <= 1000000,
            forall|k2: int| k <= k2 < n ==> #[trigger] player_agents@[k2] == old(player_agents)@[k2],
            forall|k2: int|
                0 <= k2 < k ==> agent_assign_ok(
                    #[trigger] old(player_agents)@[k2],
                    player_agents@[k2],
                    *rawmaps,
                    my_id,
                    locations@,
                ),
            forall|k2: int|
                0 <= k2 < k && newly_routed(
                    #[trigger] old(player_agents)@[k2],
                    player_agents@[k2],
                ) ==> loc_in(claimed@, player_agents@[k2].assigned_mine->Some_0),
            forall|k1: int, k2: int|
                0 <= k1 < k && 0 <= k2 < k && k1 != k2 && newly_routed(
                    #[trigger] old(player_agents)@[k1],
                    #[trigger] player_agents@[k1],
                ) && newly_routed(
                    #[trigger] old(player_agents)@[k2],
                    #[trigger] player_agents@[k2],
                ) ==> player_agents@[k1].assigned_mine != player_agents@[k2].assigned_mine,
            // every claimed cell is the mine of an earlier routed agent
            forall|t: int|
                0 <= t < claimed@.len() ==> claimed_by_prior(
                    old(player_agents)@,
                    player_agents@,
                    k as int,
                    #[trigger] claimed@[t],
                ),
            // processed idle agents were routed or saw nothing left to take
            forall|k2: int, j: int|
                #![trigger old(player_agents)@[k2], locations@[j]]
                0 <= k2 < k && 0 <= j < locations@.len() && old(player_agents)@[k2].status is Idle
                    && !newly_routed(old(player_agents)@[k2], player_agents@[k2])
                    ==> claimed_by_prior(
                    old(player_agents)@,
                    player_agents@,
                    k2,
                    locations@[j],
                ) || !sure_candidate(*rawmaps, my_id, old(player_agents)@[k2].pos, locations@[j]),
            forall|k2: int|
                0 <= k2 < k && newly_routed(
                    #[trigger] old(player_agents)@[k2],
                    #[trigger] player_agents@[k2],
                ) ==> first_cleared(
                    old(player_agents)@,
                    player_agents@,
                    *rawmaps,
                    my_id,
                    k2,
                    locations@,
                ),
        decreases n - k,
    {
        let a = player_agents[k];
        let ghost pa0 = player_agents@;
        let ghost claimed0 = claimed@;
        let status_idle = matches!(a.status, crate::agent::AgentStatus::Idle);
        let status_return = matches!(a.status, crate::agent::AgentStatus::MoveToDropoff);
        if status_idle {
            let pos_start = a.pos;
            let m = locations.len();
            let mut j: usize = 0;
            let mut done = false;
            let ghost mut jw: int = 0;
            while j < m && !done
                invariant
                    rawmaps.wf(),
                    dim == rawmaps.map_r.base.dim,
                    has_dropoff(rawmaps.map_d, my_id),
                    avg <= 1000000,
                    avg as int == clamped_avg_milli(rawmaps.map_r),
                    m == locations@.len(),
                    0 <= j <= m,
                    0 <= k < n,
                    n == player_agents@.len(),
                    pos_start == a.pos,
                    a == old(player_agents)@[k as int],
                    a.status is Idle,
                    a.coords_ok(dim),
                    a.halite <= 1000000,
                    forall|t: int|
                        0 <= t < locations@.len() ==> (#[trigger] locations@[t]).normed(dim),
                    pa0[k as int] == old(player_agents)@[k as int],
                    pa0.len() == n,
                    !done ==> player_agents@ == pa0 && claimed@ == claimed0,
                    // rejected candidates were taken or not surely worthwhile
                    !done ==> forall|j2: int|
                        0 <= j2 < j ==> loc_in(claimed0, #[trigger] locations@[j2])
                            || !sure_candidate(*rawmaps, my_id, pos_start, locations@[j2]),
                    done ==> ({
                        &&& player_agents@ == pa0.update(k as int, player_agents@[k as int])
                        &&& agent_assign_ok(
                            old(player_agents)@[k as int],
                            player_agents@[k as int],
                            *rawmaps,
                            my_id,
                            locations@,
                        )
                        &&& newly_routed(old(player_agents)@[k as int], player_agents@[k as int])
                        &&& !loc_in(claimed0, player_agents@[k as int].assigned_mine->Some_0)
                        &&& claimed@ == claimed0.push(
                            player_agents@[k as int].assigned_mine->Some_0,
                        )
                        &&& 0 <= jw < locations@.len()
                        &&& player_agents@[k as int].assigned_mine == Some(locations@[jw])
                        &&& forall|j2: int|
                            0 <= j2 < jw ==> loc_in(claimed0, #[trigger] locations@[j2])
                                || !sure_candidate(*rawmaps, my_id, pos_start, locations@[j2])
                    }),
                decreases m - j,
            {
                let pos_end = locations[j];
                let already = coord_vec_contains(&claimed, pos_end);
                if !already {
                    let dropoff_point = match nearest_dropoff(&rawmaps.map_d, my_id, pos_end) {
                        Some(d) => d,
                        None => {
                            proof {
                                assert(false);
                            }
                            pos_end
                        },
                    };
                    let halite_1 = get_approx_halite_in_path(
                        a.halite as i64,
                        pos_start,
                        pos_end,
                        rawmaps,
                        PathAction::Subtract,
                        avg,
                    );
                    proof {
                        lemma_exp_penalty_bound(
                            avg * pos_start.norm_spec(dim).wdist(
                                pos_end.norm_spec(dim),
                                dim,
                            ) / 10,
                        );
                    }
                    let halite_2 = get_approx_halite_in_path(
                        halite_1,
                        pos_end,
                        dropoff_point,
                        rawmaps,
                        PathAction::Add,
                        avg,
                    );
                    if halite_2 > PROFIT_REJECT_FLOOR {
                        let mut a2 = a;
                        a2.status = crate::agent::AgentStatus::MoveToMine;
                        a2.assigned_mine = Some(pos_end);
                        a2.assigned_dropoff = Some(dropoff_point);
                        a2.cooldown_movetomine = crate::agent::COOLDOWN_MOVETOMINE_RESET;
                        player_agents[k] = a2;
                        claimed.push(pos_end);
                        done = true;
                        proof {
                            jw = j as int;
                        }
                    } else {
                        proof {
                            // a sure candidate cannot fail the profit test:
                            // its estimate stays above the floor however the
                            // transit draws fall
                            if sure_candidate(*rawmaps, my_id, pos_start, pos_end) {
                                crate::grid::lemma_norm_identity(pos_start, dim);
                                crate::grid::lemma_norm_identity(pos_end, dim);
                                crate::grid::lemma_norm_identity(dropoff_point, dim);
                                assert(dropoff_point.wdist(pos_end, dim) == nearest_dropoff_dist(
                                    rawmaps.map_d,
                                    my_id,
                                    pos_end,
                                )) by {
                                    let dd = choose|d: Coord|
                                        is_nearest_dropoff(rawmaps.map_d, my_id, pos_end, d);
                                    assert(is_nearest_dropoff(
                                        rawmaps.map_d,
                                        my_id,
                                        pos_end,
                                        dropoff_point,
                                    ));
                                    assert(is_nearest_dropoff(rawmaps.map_d, my_id, pos_end, dd));
                                    let i1 = choose|i: i32|
                                        #[trigger] rawmaps.map_d.base.inv_has(my_id, i)
                                            && rawmaps.map_d.base.inv_at(my_id, i) == dd;
                                    let i2 = choose|i: i32|
                                        #[trigger] rawmaps.map_d.base.inv_has(my_id, i)
                                            && rawmaps.map_d.base.inv_at(my_id, i)
                                            == dropoff_point;
                                    assert(dropoff_point.wdist(pos_end, dim) <= dd.wdist(
                                        pos_end,
                                        dim,
                                    ));
                                    assert(dd.wdist(pos_end, dim) <= dropoff_point.wdist(
                                        pos_end,
                                        dim,
                                    ));
                                }
                                lemma_exp_penalty_bound(
                                    avg * pos_start.wdist(pos_end, dim) / 10,
                                );
                                lemma_exp_penalty_bound(
                                    avg * pos_end.wdist(dropoff_point, dim) / 10,
                                );
                                assert(halite_1 >= -spec_exp_penalty(
                                    avg * pos_start.wdist(pos_end, dim) / 10,
                                ));
                                assert(halite_2 >= halite_1 - 143360 - spec_exp_penalty(
                                    avg * pos_end.wdist(dropoff_point, dim) / 10,
                                ));
                                assert(halite_2 > PROFIT_REJECT_FLOOR);
                                assert(false);
                            }
                        }
                        proof {
                            assert(agent_assign_ok(
                                old(player_agents)@[k as int],
                                player_agents@[k as int],
                                *rawmaps,
                                my_id,
                                locations@,
                            )) by {
                                assert(locations@[j as int] == pos_end);
                                assert(loc_in(locations@, pos_end));
                            }
                        }
                    }
                }
                j = j + 1;
            }
        } else if status_return {
            let dp = match nearest_dropoff(&rawmaps.map_d, my_id, a.pos) {
                Some(d) => d,
                None => {
                    proof {
                        assert(false);
                    }
                    a.pos
                },
            };
            let mut a2 = a;
            a2.assigned_dropoff = Some(dp);
            player_agents[k] = a2;
        }
        proof {
            assert forall|k2: int|
                0 <= k2 < k + 1 implies agent_assign_ok(
                #[trigger] old(player_agents)@[k2],
                player_agents@[k2],
                *rawmaps,
                my_id,
                locations@,
            ) by {
                if k2 < k {
                    assert(player_agents@[k2] == old(player_agents)@.update(
                        k2,
                        player_agents@[k2],
                    )[k2]);
                }
                if k2 == k {
                    if !(old(player_agents)@[k2].status is Idle) && !(old(player_agents)@[k2].status is MoveToDropoff) {
                        assert(player_agents@[k2] == old(player_agents)@[k2]);
                    }
                }
            }
            assert forall|k2: int|
                0 <= k2 < k + 1 && newly_routed(
                    #[trigger] old(player_agents)@[k2],
                    player_agents@[k2],
                ) implies loc_in(claimed@, player_agents@[k2].assigned_mine->Some_0) by {
                if k2 < k {
                    assert(player_agents@[k2] == pa0[k2]);
                    assert(loc_in(claimed0, player_agents@[k2].assigned_mine->Some_0));
                    let t = choose|t: int|
                        0 <= t < claimed0.len() && #[trigger] claimed0[t]
                            == player_agents@[k2].assigned_mine->Some_0;
                    assert(claimed@[t] == claimed0[t]);
                } else {
                    assert(claimed@[claimed@.len() - 1] == player_agents@[k2].assigned_mine->Some_0);
                }
            }
            assert forall|k1: int, k2: int|
                0 <= k1 < k + 1 && 0 <= k2 < k + 1 && k1 != k2 && newly_routed(
                    #[trigger] old(player_agents)@[k1],
                    #[trigger] player_agents@[k1],
                ) && newly_routed(
                    #[trigger] old(player_agents)@[k2],
                    #[trigger] player_agents@[k2],
                ) implies player_agents@[k1].assigned_mine != player_agents@[k2].assigned_mine by {
                let lo = if k1 < k2 {
                    k1
                } else {
                    k2
                };
                let hi = if k1 < k2 {
                    k2
                } else {
                    k1
                };
                if hi == k && newly_routed(old(player_agents)@[hi], player_agents@[hi]) {
                    assert(loc_in(claimed0, player_agents@[lo].assigned_mine->Some_0));
                    assert(!loc_in(claimed0, player_agents@[hi].assigned_mine->Some_0));
                }
            }
        }
        k = k + 1;
    }
}

/// How one agent may change during mine assignment: an idle agent is either
/// untouched or routed to a candidate mine with the dropoff nearest that
/// mine; a returner keeps its plan with its dropoff refreshed to the nearest
/// one; every other agent is untouched. Identity, position, cargo, cooldowns
/// and the conversion target never change.
pub open spec fn agent_assign_ok(
    a0: crate::agent::Agent,
    a1: crate::agent::Agent,
    m: RawMaps,
    my_id: usize,
    locs: Seq<Coord>,
) -> bool {
    &&& a1.id == a0.id
    &&& a1.pos == a0.pos
    &&& a1.halite == a0.halite
    &&& a1.cooldown_mine == a0.cooldown_mine
    &&& a1.create_dropoff == a0.create_dropoff
    &&& a1.wf_targets()
    &&& a1.coords_ok(m.map_r.base.dim)
    &&& match a0.status {
        crate::agent::AgentStatus::Idle => a1 == a0 || (a1.status is MoveToMine
            && a1.cooldown_movetomine == crate::agent::COOLDOWN_MOVETOMINE_RESET
            && (a1.assigned_mine matches Some(mc) && loc_in(locs, mc) && (a1.assigned_dropoff
            matches Some(d) && is_nearest_dropoff(m.map_d, my_id, mc, d)))),
        crate::agent::AgentStatus::MoveToDropoff => a1.status == a0.status && a1.assigned_mine
            == a0.assigned_mine && a1.cooldown_movetomine == a0.cooldown_movetomine && (
        a1.assigned_dropoff matches Some(d) && is_nearest_dropoff(m.map_d, my_id, a0.pos, d)),
        _ => a1 == a0,
    }
}

/// The map's average remaining halite per cell in thousandths, as the
/// assignment pass prices trips: capped at one whole cell's worth.
pub open spec fn clamped_avg_milli(m: crate::mapraw::ResourceMap) -> int {
    let v = crate::mapraw::sum_grid(m.base.cells@) * 1000 / (m.base.dim.ys() * m.base.dim.xs());
    if v > 1000000 {
        1000000
    } else {
        v
    }
}

/// The wrap-around distance from `c` to the player's nearest dropoff.
pub open spec fn nearest_dropoff_dist(md: crate::mapraw::DropoffMap, my_id: usize, c: Coord) -> int {
    (choose|d: Coord| is_nearest_dropoff(md, my_id, c, d)).wdist(c, md.base.dim)
}

/// A candidate whose profit estimate clears the rejection floor whatever
/// the transit draws: the estimate can fall at most the two distance
/// penalties plus the worst-case return-leg spend below zero.
pub open spec fn sure_candidate(m: RawMaps, my_id: usize, pos: Coord, loc: Coord) -> bool {
    let dim = m.map_r.base.dim;
    let avg = clamped_avg_milli(m.map_r);
    spec_exp_penalty(avg * pos.wdist(loc, dim) / 10) + spec_exp_penalty(
        avg * nearest_dropoff_dist(m.map_d, my_id, loc) / 10,
    ) + 143360 < 1000000000
}

/// Every candidate before this one was already claimed by an earlier routed
/// agent of the batch.
pub open spec fn claimed_by_prior(
    olds: Seq<crate::agent::Agent>,
    finals: Seq<crate::agent::Agent>,
    k: int,
    c: Coord,
) -> bool {
    exists|k2: int|
        0 <= k2 < k && newly_routed(#[trigger] olds[k2], finals[k2]) && finals[k2].assigned_mine
            == Some(c)
}

/// The routed agent took the first candidate still free to take: everything
/// ranked before its mine was claimed earlier in the batch or might have
/// failed its draw-dependent profit test.
pub open spec fn first_cleared(
    olds: Seq<crate::agent::Agent>,
    finals: Seq<crate::agent::Agent>,
    m: RawMaps,
    my_id: usize,
    k: int,
    locs: Seq<Coord>,
) -> bool {
    exists|j: int|
        0 <= j < locs.len() && finals[k].assigned_mine == Some(#[trigger] locs[j]) && (forall|
            j2: int,
        |
            0 <= j2 < j ==> claimed_by_prior(olds, finals, k, #[trigger] locs[j2])
                || !sure_candidate(m, my_id, olds[k].pos, locs[j2]))
}

/// The intents list holds exactly this triple.
pub open spec fn triple_listed(s: Seq<(i32, Coord, Coord)>, e: (i32, Coord, Coord)) -> bool {
    exists|j: int| 0 <= j < s.len() && #[trigger] s[j] == e
}

/// The id list holds this id.
pub open spec fn id_listed(s: Seq<i32>, id: i32) -> bool {
    exists|j: int| 0 <= j < s.len() && #[trigger] s[j] == id
}

/// Emit every agent's intent for the turn: agents designated to found a
/// dropoff are queued for conversion, every other agent reports its
/// (id, position, desired destination) triple and ticks its cooldown.
pub fn synthesize_agent_actions(my_id: usize, agents: &mut Vec<crate::agent::Agent>, rawmaps: &RawMaps) -> (r: (
    Vec<(i32, Coord, Coord)>,
    Vec<i32>,
))
    requires
        rawmaps.wf(),
        forall|k: int| 0 <= k < old(agents)@.len() ==> (#[trigger] old(agents)@[k]).wf_targets(),
    ensures
        final(agents)@.len() == old(agents)@.len(),
        forall|k: int|
            0 <= k < final(agents)@.len() ==> (#[trigger] final(agents)@[k]).wf_targets() && final(agents)@[k].id == old(agents)@[k].id && final(agents)@[k].pos == old(agents)@[k].pos && final(agents)@[k].status == old(agents)@[k].status,
        r.0@.len() + r.1@.len() == old(agents)@.len(),
        forall|k: int|
            0 <= k < old(agents)@.len() && !((#[trigger] old(agents)@[k]).status
                is CreateDropoff) ==> triple_listed(
                r.0@,
                (old(agents)@[k].id, old(agents)@[k].pos, old(agents)@[k].desired_dest()),
            ),
        forall|k: int|
            0 <= k < old(agents)@.len() && (#[trigger] old(agents)@[k]).status
                is CreateDropoff ==> id_listed(r.1@, old(agents)@[k].id),
{
    let mut queued_movements: Vec<(i32, Coord, Coord)> = Vec::new();
    let mut queued_new_dropoffs: Vec<i32> = Vec::new();
    let n = agents.len();
    let mut k: usize = 0;
    while k < n
        invariant
            rawmaps.wf(),
            n == agents@.len(),
            agents@.len() == old(agents)@.len(),
            0 <= k <= n,
            forall|k2: int|
                0 <= k2 < agents@.len() ==> (#[trigger] agents@[k2]).wf_targets() && agents@[k2].id
                    == old(agents)@[k2].id && agents@[k2].pos == old(agents)@[k2].pos
                    && agents@[k2].status == old(agents)@[k2].status && agents@[k2].desired_dest()
                    == old(agents)@[k2].desired_dest(),
            queued_movements@.len() + queued_new_dropoffs@.len() == k,
            forall|k2: int|
                0 <= k2 < k && !((#[trigger] old(agents)@[k2]).status is CreateDropoff)
                    ==> triple_listed(
                    queued_movements@,
                    (old(agents)@[k2].id, old(agents)@[k2].pos, old(agents)@[k2].desired_dest()),
                ),
            forall|k2: int|
                0 <= k2 < k && (#[trigger] old(agents)@[k2]).status is CreateDropoff ==> id_listed(
                    queued_new_dropoffs@,
                    old(agents)@[k2].id,
                ),
        decreases n - k,
    {
        let ghost qm0 = queued_movements@;
        let ghost qd0 = queued_new_dropoffs@;
        let status_is_create = matches!(agents[k].status, crate::agent::AgentStatus::CreateDropoff);
        if status_is_create {
            let id = agents[k].id;
            queued_new_dropoffs.push(id);
        } else {
            let mut a = agents[k];
            let triple = a.execute(&rawmaps.map_r);
            agents[k] = a;
            queued_movements.push(triple);
        }
        proof {
            assert forall|k2: int|
                0 <= k2 < k + 1 && !((#[trigger] old(agents)@[k2]).status
                    is CreateDropoff) implies triple_listed(
                queued_movements@,
                (old(agents)@[k2].id, old(agents)@[k2].pos, old(agents)@[k2].desired_dest()),
            ) by {
                if k2 < k {
                    assert(triple_listed(
                        qm0,
                        (
                        old(agents)@[k2].id,
                        old(agents)@[k2].pos,
                        old(agents)@[k2].desired_dest(),
                        ),
                    ));
                    let j = choose|j: int|
                        0 <= j < qm0.len() && #[trigger] qm0[j] == (
                        old(agents)@[k2].id,
                        old(agents)@[k2].pos,
                        old(agents)@[k2].desired_dest(),
                        );
                    assert(queued_movements@[j] == qm0[j]);
                } else {
                    assert(queued_movements@[queued_movements@.len() - 1] == (
                    old(agents)@[k2].id,
                    old(agents)@[k2].pos,
                    old(agents)@[k2].desired_dest(),
                    ));
                }
            }
            assert forall|k2: int|
                0 <= k2 < k + 1 && (#[trigger] old(agents)@[k2]).status
                    is CreateDropoff implies id_listed(
                queued_new_dropoffs@,
                old(agents)@[k2].id,
            ) by {
                if k2 < k {
                    assert(id_listed(qd0, old(agents)@[k2].id));
                    let j = choose|j: int|
                        0 <= j < qd0.len() && #[trigger] qd0[j] == old(agents)@[k2].id;
                    assert(queued_new_dropoffs@[j] == qd0[j]);
                } else {
                    assert(queued_new_dropoffs@[queued_new_dropoffs@.len() - 1] == old(agents)@[k2].id);
                }
            }
        }
        k = k + 1;
    }
    (queued_movements, queued_new_dropoffs)
}

/// Try the next waypoint of a fresh best-first path before falling back to
/// the candidate directions; acceptance and the eager unit-map update are
/// the same as for the plain candidate scan.
fn try_accept_v2(map: &mut RawMaps, my_id: usize, from: Coord, to: Coord, is_end_game: bool) -> (r:
    Option<Dir>)
    requires
        old(map).wf(),
        from.normed(old(map).map_r.base.dim),
        to.bounded(COORD_LIMIT as int),
        old(map).map_u.base.at(from).is_ship(),
    ensures
        final(map).wf(),
        final(map).map_r == old(map).map_r,
        final(map).map_d == old(map).map_d,
        final(map).map_u.base.dim == old(map).map_u.base.dim,
        match r {
            Option::None => final(map).map_u == old(map).map_u && no_step(
                *old(map),
                my_id,
                from,
                is_end_game,
            ),
            Option::Some(d) => {
                let dim = old(map).map_r.base.dim;
                let dst = step_to(from, d, dim);
                &&& d.is_unit()
                &&& dst.normed(dim)
                &&& (old(map).map_u.base.at(dst) == Unit::Empty || (is_end_game && old(map).map_d.base.at(dst) == Some(Player(my_id))))
                &&& final(map).map_u.base.at(dst).is_ship()
                &&& final(map).map_u.base.at(dst) == old(map).map_u.base.at(from)
                &&& (dst != from ==> final(map).map_u.base.at(from) == Unit::Empty)
                &&& forall|y: int, x: int|
                    0 <= y < dim.ys() && 0 <= x < dim.xs() && !(y == dst.ys() && x == dst.xs())
                        && !(y == from.ys() && x == from.xs()) ==> #[trigger] final(map).map_u.base.cell(y, x) == old(map).map_u.base.cell(y, x)
            },
        },
{
    let dim = map.map_r.dim();
    let path = crate::search::search_path(from, to, &map.map_u);
    if path.len() > 1 {
        let nxt = path[1];
        proof {
            crate::grid::lemma_norm_identity(from, dim);
            assert(path@[0] == from.norm_spec(dim));
            assert(path@[1].normed(dim));
            assert(map.map_u.base.at(path@[1]) == Unit::Empty);
            assert(path@[0].wdist(path@[1], dim) == 1);
        }
        let free = matches!(map.map_u.get(nxt), Unit::Empty);
        if free {
            let d = nxt.diff_wrap_around(&from, &dim);
            proof {
                crate::grid::lemma_norm_identity(nxt, dim);
                crate::coord::lemma_norm_step_delta(from.ys(), nxt.ys(), dim.ys());
                crate::coord::lemma_norm_step_delta(from.xs(), nxt.xs(), dim.xs());
                assert(step_to(from, Dir(d.0, d.1), dim) == nxt);
            }
            let unit = map.map_u.get(from);
            proof {
                match unit {
                    Unit::Ship { player, id, halite } => {
                        assert(map.map_u.cell_ok(from.ys(), from.xs()));
                        assert(map.map_u.base.inv_has(player, id) && map.map_u.base.inv_at(
                            player,
                            id,
                        ) == from);
                    },
                    Unit::Empty => {
                        assert(false);
                    },
                }
            }
            map.map_u.set(nxt, unit);
            return Some(Dir(d.0, d.1));
        }
    }
    try_accept(map, my_id, from, to, is_end_game)
}

/// Greedy single-pass scheduler over the intents in their given order: an
/// agent with a zero wrap-around delta (or spawned this turn) is skipped;
/// otherwise the first candidate direction whose destination is free — or,
/// in the end game, an owned dropoff — is accepted and applied to the unit
/// map at once, so no later agent can claim the same cell. Two accepted
/// commands resolve to the same destination only under the end-game dropoff
/// override; outside the end game an accepted destination is never a cell an
/// enemy ship occupied when scheduling began, and a claimed cell keeps an
/// own ship until its standing agent departs by a later accepted move. An
/// empty command list means every live intent was out of takeable steps.
pub fn schedule(
    my_id: usize,
    queued: &Vec<(i32, Coord, Coord)>,
    map: &mut RawMaps,
    is_end_game: bool,
    new_agent_id: Option<i32>,
) -> (out: Vec<(i32, Dir)>)
    requires
        old(map).wf(),
        queued_ok(queued@, *old(map), my_id),
    ensures
        final(map).wf(),
        final(map).map_r == old(map).map_r,
        final(map).map_d == old(map).map_d,
        final(map).map_u.base.dim == old(map).map_u.base.dim,
        forall|i: int| 0 <= i < out@.len() ==> (#[trigger] out@[i]).1.is_unit(),
        forall|i: int| 0 <= i < out@.len() ==> has_queued_id(queued@, (#[trigger] out@[i]).0),
        forall|i: int, j: int|
            0 <= i < out@.len() && 0 <= j < out@.len() && i != j ==> (#[trigger] out@[i]).0 != (
            #[trigger] out@[j]).0,
        forall|i: int, j: int|
            0 <= i < out@.len() && 0 <= j < out@.len() && i != j && sched_dest(
                queued@,
                old(map).map_r.base.dim,
                #[trigger] out@[i],
            ) == sched_dest(queued@, old(map).map_r.base.dim, #[trigger] out@[j]) ==> is_end_game
                && old(map).map_d.base.at(
                sched_dest(queued@, old(map).map_r.base.dim, out@[i]),
            ) == Some(Player(my_id)),
        !is_end_game ==> forall|i: int|
            0 <= i < out@.len() ==> !enemy(
                old(map).map_u.base.at(
                    sched_dest(queued@, old(map).map_r.base.dim, #[trigger] out@[i]),
                ),
                my_id,
            ),
        // commands only for intents that were not passed over
        forall|i: int|
            0 <= i < out@.len() ==> !skipped_intent(
                queued@[queued_idx(queued@, (#[trigger] out@[i]).0)],
                old(map).map_r.base.dim,
                new_agent_id,
            ),
        // if nothing was scheduled, no intent had an acceptable step
        out@.len() == 0 ==> forall|tt: int|
            0 <= tt < queued@.len() ==> skipped_intent(
                #[trigger] queued@[tt],
                old(map).map_r.base.dim,
                new_agent_id,
            ) || no_step(*old(map), my_id, queued@[tt].1, is_end_game),
        // each accepted destination holds one of the player's own ships until
        // its own standing agent departs in a later accepted move
        forall|i: int|
            0 <= i < out@.len() ==> final(map).map_u.base.at(
                sched_dest(queued@, old(map).map_r.base.dim, #[trigger] out@[i]),
            ).owned_by(my_id) || vacated_by(
                out@,
                queued@,
                sched_dest(queued@, old(map).map_r.base.dim, out@[i]),
            ),
        // only origins and destinations of accepted moves change
        forall|y: int, x: int|
            0 <= y < old(map).map_r.base.dim.ys() && 0 <= x < old(map).map_r.base.dim.xs()
                && !touches(out@, queued@, old(map).map_r.base.dim, y, x) ==> #[trigger] final(map).map_u.base.cell(y, x) == old(map).map_u.base.cell(y, x),
        // outside the end game a destination was free when claimed: it was
        // empty at the start or an accepted mover had vacated it
        !is_end_game ==> forall|i: int|
            0 <= i < out@.len() ==> old(map).map_u.base.at(
                sched_dest(queued@, old(map).map_r.base.dim, #[trigger] out@[i]),
            ) == Unit::Empty || vacated_by(
                out@,
                queued@,
                sched_dest(queued@, old(map).map_r.base.dim, out@[i]),
            ),
{
    schedule_core(my_id, queued, map, is_end_game, new_agent_id, false)
}

/// A reordering of the intents keeps them sound and keeps each agent's
/// origin lookup unchanged.
proof fn lemma_perm_queue(
    q: Seq<(i32, Coord, Coord)>,
    q2: Seq<(i32, Coord, Coord)>,
    m: RawMaps,
    my_id: usize,
)
    requires
        q2.to_multiset() == q.to_multiset(),
        queued_ok(q, m, my_id),
    ensures
        queued_ok(q2, m, my_id),
        q2.len() == q.len(),
        forall|id: i32| #[trigger] has_queued_id(q2, id) == has_queued_id(q, id),
        forall|id: i32|
            has_queued_id(q, id) ==> #[trigger] queued_from(q2, id) == queued_from(q, id),
        forall|id: i32|
            has_queued_id(q, id) ==> #[trigger] q2[queued_idx(q2, id)] == q[queued_idx(q, id)],
        forall|tt: int| 0 <= tt < q.len() ==> row_in(q2, #[trigger] q[tt]),
{
    broadcast use vstd::seq_lib::group_to_multiset_ensures;

    assert(q2.len() == q2.to_multiset().len());
    assert(q.len() == q.to_multiset().len());
    assert forall|t: int|
        0 <= t < q2.len() implies (#[trigger] q2[t]).1.normed(m.map_r.base.dim) && q2[t].2.bounded(
        COORD_LIMIT as int,
    ) && m.map_u.base.at(q2[t].1).owned_by(my_id) by {
        assert(q2.contains(q2[t]));
        assert(q2.to_multiset().count(q2[t]) > 0);
        assert(q.contains(q2[t]));
        let j = choose|j: int| 0 <= j < q.len() && q[j] == q2[t];
        assert(q[j].1.normed(m.map_r.base.dim));
        assert(m.map_u.base.at(q[j].1).owned_by(my_id));
    }
    assert forall|t1: int, t2: int|
        0 <= t1 < q.len() && 0 <= t2 < q.len() && t1 != t2 implies q[t1] != q[t2] by {
        assert(q[t1].0 != q[t2].0);
    }
    q.lemma_multiset_has_no_duplicates();
    q2.lemma_multiset_has_no_duplicates_conv();
    assert forall|t1: int, t2: int|
        0 <= t1 < q2.len() && 0 <= t2 < q2.len() && t1 != t2 implies (#[trigger] q2[t1]).0 != (
    #[trigger] q2[t2]).0 && q2[t1].1 != q2[t2].1 by {
        assert(q2.no_duplicates());
        assert(q2[t1] != q2[t2]);
        assert(q2.contains(q2[t1]) && q2.contains(q2[t2]));
        assert(q2.to_multiset().count(q2[t1]) > 0 && q2.to_multiset().count(q2[t2]) > 0);
        assert(q.contains(q2[t1]) && q.contains(q2[t2]));
        let j1 = choose|j: int| 0 <= j < q.len() && q[j] == q2[t1];
        let j2 = choose|j: int| 0 <= j < q.len() && q[j] == q2[t2];
        assert(j1 != j2);
        assert(q[j1].0 != q[j2].0 && q[j1].1 != q[j2].1);
    }
    assert forall|id: i32| #[trigger] has_queued_id(q2, id) == has_queued_id(q, id) by {
        if has_queued_id(q, id) {
            let t = queued_idx(q, id);
            assert(q.contains(q[t]));
            assert(q.to_multiset().count(q[t]) > 0);
            assert(q2.contains(q[t]));
            let t2 = choose|j: int| 0 <= j < q2.len() && q2[j] == q[t];
            assert(q2[t2].0 == id);
        }
        if has_queued_id(q2, id) {
            let t = queued_idx(q2, id);
            assert(q2.contains(q2[t]));
            assert(q2.to_multiset().count(q2[t]) > 0);
            assert(q.contains(q2[t]));
            let t2 = choose|j: int| 0 <= j < q.len() && q[j] == q2[t];
            assert(q[t2].0 == id);
        }
    }
    assert forall|id: i32| has_queued_id(q, id) implies #[trigger] queued_from(q2, id)
        == queued_from(q, id) && q2[queued_idx(q2, id)] == q[queued_idx(q, id)] by {
        let t = queued_idx(q, id);
        assert(0 <= t < q.len() && q[t].0 == id);
        assert(has_queued_id(q2, id));
        let t2 = queued_idx(q2, id);
        assert(0 <= t2 < q2.len() && q2[t2].0 == id);
        assert(q2.contains(q2[t2]));
        assert(q2.to_multiset().count(q2[t2]) > 0);
        assert(q.contains(q2[t2]));
        let t3 = choose|j: int| 0 <= j < q.len() && q[j] == q2[t2];
        assert(q[t3].0 == id);
        assert(t3 == t);
    }
    assert forall|tt: int| 0 <= tt < q.len() implies row_in(q2, #[trigger] q[tt]) by {
        assert(q.contains(q[tt]));
        assert(q.to_multiset().count(q[tt]) > 0);
        assert(q2.contains(q[tt]));
        let t2 = choose|j: int| 0 <= j < q2.len() && q2[j] == q[tt];
        assert(q2[t2] == q[tt]);
    }
}

/// The scheduler proper: intents are processed most-constrained-first (by
/// the number of currently free neighbouring cells, fewest first, ties in
/// their given order), each agent first tries the next waypoint of a fresh
/// best-first path and then its candidate directions. Acceptance, the eager
/// unit-map update, and the guarantees on destinations are the same as for
/// the in-order scheduler.
#[verifier::rlimit(60)]
pub fn schedule_v2(
    my_id: usize,
    queued: &Vec<(i32, Coord, Coord)>,
    map: &mut RawMaps,
    is_end_game: bool,
    new_agent_id: Option<i32>,
) -> (out: Vec<(i32, Dir)>)
    requires
        old(map).wf(),
        queued_ok(queued@, *old(map), my_id),
    ensures
        final(map).wf(),
        final(map).map_r == old(map).map_r,
        final(map).map_d == old(map).map_d,
        final(map).map_u.base.dim == old(map).map_u.base.dim,
        forall|i: int| 0 <= i < out@.len() ==> (#[trigger] out@[i]).1.is_unit(),
        forall|i: int| 0 <= i < out@.len() ==> has_queued_id(queued@, (#[trigger] out@[i]).0),
        forall|i: int, j: int|
            0 <= i < out@.len() && 0 <= j < out@.len() && i != j ==> (#[trigger] out@[i]).0 != (
            #[trigger] out@[j]).0,
        forall|i: int, j: int|
            0 <= i < out@.len() && 0 <= j < out@.len() && i != j && sched_dest(
                queued@,
                old(map).map_r.base.dim,
                #[trigger] out@[i],
            ) == sched_dest(queued@, old(map).map_r.base.dim, #[trigger] out@[j]) ==> is_end_game
                && old(map).map_d.base.at(
                sched_dest(queued@, old(map).map_r.base.dim, out@[i]),
            ) == Some(Player(my_id)),
        !is_end_game ==> forall|i: int|
            0 <= i < out@.len() ==> !enemy(
                old(map).map_u.base.at(
                    sched_dest(queued@, old(map).map_r.base.dim, #[trigger] out@[i]),
                ),
                my_id,
            ),
        // commands only for intents that were not passed over
        forall|i: int|
            0 <= i < out@.len() ==> !skipped_intent(
                queued@[queued_idx(queued@, (#[trigger] out@[i]).0)],
                old(map).map_r.base.dim,
                new_agent_id,
            ),
        // if nothing was scheduled, no intent had an acceptable step
        out@.len() == 0 ==> forall|tt: int|
            0 <= tt < queued@.len() ==> skipped_intent(
                #[trigger] queued@[tt],
                old(map).map_r.base.dim,
                new_agent_id,
            ) || no_step(*old(map), my_id, queued@[tt].1, is_end_game),
        // each accepted destination holds one of the player's own ships until
        // its own standing agent departs in a later accepted move
        forall|i: int|
            0 <= i < out@.len() ==> final(map).map_u.base.at(
                sched_dest(queued@, old(map).map_r.base.dim, #[trigger] out@[i]),
            ).owned_by(my_id) || vacated_by(
                out@,
                queued@,
                sched_dest(queued@, old(map).map_r.base.dim, out@[i]),
            ),
        // only origins and destinations of accepted moves change
        forall|y: int, x: int|
            0 <= y < old(map).map_r.base.dim.ys() && 0 <= x < old(map).map_r.base.dim.xs()
                && !touches(out@, queued@, old(map).map_r.base.dim, y, x) ==> #[trigger] final(map).map_u.base.cell(y, x) == old(map).map_u.base.cell(y, x),
        // outside the end game a destination was free when claimed: it was
        // empty at the start or an accepted mover had vacated it
        !is_end_game ==> forall|i: int|
            0 <= i < out@.len() ==> old(map).map_u.base.at(
                sched_dest(queued@, old(map).map_r.base.dim, #[trigger] out@[i]),
            ) == Unit::Empty || vacated_by(
                out@,
                queued@,
                sched_dest(queued@, old(map).map_r.base.dim, out@[i]),
            ),
{
    let ghost dim = old(map).map_r.base.dim;
    // order the intents by how few free neighbouring cells their agents have
    let mut q2: Vec<(i32, Coord, Coord)> = Vec::new();
    let n = queued.len();
    let mut t: usize = 0;
    while t < n
        invariant
            n == queued@.len(),
            0 <= t <= n,
            q2@ == queued@.take(t as int),
        decreases n - t,
    {
        let e = queued[t];
        q2.push(e);
        proof {
            assert(queued@.take(t + 1).drop_last() =~= queued@.take(t as int));
            assert(q2@ =~= queued@.take(t + 1));
        }
        t = t + 1;
    }
    proof {
        assert(q2@ =~= queued@);
    }
    let mut i: usize = 0;
    while i < n
        invariant
            map.wf(),
            *map == *old(map),
            dim == old(map).map_r.base.dim,
            queued_ok(queued@, *old(map), my_id),
            n == q2@.len(),
            n == queued@.len(),
            0 <= i <= n,
            q2@.to_multiset() == queued@.to_multiset(),
        decreases n - i,
    {
        let mut best: usize = i;
        let ghost q2pre = q2@;
        proof {
            lemma_perm_queue(queued@, q2@, *old(map), my_id);
        }
        let mut bestc = get_num_free_neighours(q2[best].1, map);
        let mut j: usize = i + 1;
        while j < n
            invariant
                map.wf(),
                *map == *old(map),
                dim == old(map).map_r.base.dim,
                queued_ok(q2@, *old(map), my_id),
                n == q2@.len(),
                i <= best < n,
                i < j <= n,
                bestc == spec_free_neighbours(map.map_u, q2@[best as int].1),
                forall|t2: int|
                    i <= t2 < j ==> bestc <= spec_free_neighbours(
                        map.map_u,
                        (#[trigger] q2@[t2]).1,
                    ),
            decreases n - j,
        {
            let c = get_num_free_neighours(q2[j].1, map);
            if c < bestc {
                best = j;
                bestc = c;
            }
            j = j + 1;
        }
        let ghost before = q2@;
        let ei = q2[i];
        let eb = q2[best];
        q2[i] = eb;
        q2[best] = ei;
        proof {
            crate::select::lemma_swap_multiset(before, q2@, i as int, best as int);
        }
        i = i + 1;
    }
    proof {
        lemma_perm_queue(queued@, q2@, *old(map), my_id);
    }
    let out = schedule_core(my_id, &q2, map, is_end_game, new_agent_id, true);
    proof {
        assert forall|i2: int| 0 <= i2 < out@.len() implies has_queued_id(
            queued@,
            (#[trigger] out@[i2]).0,
        ) by {
            assert(has_queued_id(q2@, out@[i2].0));
        }
        assert forall|i2: int| 0 <= i2 < out@.len() implies sched_dest(
            queued@,
            dim,
            #[trigger] out@[i2],
        ) == sched_dest(q2@, dim, out@[i2]) && queued_from(queued@, out@[i2].0) == queued_from(
            q2@,
            out@[i2].0,
        ) by {
            assert(has_queued_id(q2@, out@[i2].0));
            assert(has_queued_id(queued@, out@[i2].0));
            assert(queued_from(q2@, out@[i2].0) == queued_from(queued@, out@[i2].0));
        }
        // the reordering keeps each agent's own intent row
        assert forall|i2: int| 0 <= i2 < out@.len() implies !skipped_intent(
            queued@[queued_idx(queued@, (#[trigger] out@[i2]).0)],
            dim,
            new_agent_id,
        ) by {
            assert(has_queued_id(q2@, out@[i2].0));
            assert(has_queued_id(queued@, out@[i2].0));
            assert(q2@[queued_idx(q2@, out@[i2].0)] == queued@[queued_idx(queued@, out@[i2].0)]);
        }
        if out@.len() == 0 {
            assert forall|tt: int| 0 <= tt < queued@.len() implies skipped_intent(
                #[trigger] queued@[tt],
                dim,
                new_agent_id,
            ) || no_step(*old(map), my_id, queued@[tt].1, is_end_game) by {
                assert(row_in(q2@, queued@[tt]));
                let t2 = choose|t2: int| 0 <= t2 < q2@.len() && #[trigger] q2@[t2] == queued@[tt];
                assert(skipped_intent(q2@[t2], dim, new_agent_id) || no_step(
                    *old(map),
                    my_id,
                    q2@[t2].1,
                    is_end_game,
                ));
            }
        }
        // transfer the vacated-by and touches views across the reordering
        assert forall|c: Coord| #[trigger] vacated_by(out@, q2@, c) implies vacated_by(
            out@,
            queued@,
            c,
        ) by {
            let j = choose|j: int|
                0 <= j < out@.len() && queued_from(q2@, (#[trigger] out@[j]).0) == c;
            assert(queued_from(queued@, out@[j].0) == c);
        }
        assert forall|i2: int| 0 <= i2 < out@.len() implies (final(map).map_u.base.at(
            sched_dest(queued@, dim, #[trigger] out@[i2]),
        ).owned_by(my_id) || vacated_by(out@, queued@, sched_dest(queued@, dim, out@[i2]))) by {
            assert(sched_dest(queued@, dim, out@[i2]) == sched_dest(q2@, dim, out@[i2]));
        }
        assert forall|y: int, x: int|
            0 <= y < dim.ys() && 0 <= x < dim.xs() && !touches(
                out@,
                queued@,
                dim,
                y,
                x,
            ) implies #[trigger] map.map_u.base.cell(y, x) == old(map).map_u.base.cell(y, x) by {
            assert(!touches(out@, q2@, dim, y, x)) by {
                if touches(out@, q2@, dim, y, x) {
                    let i2 = choose|i2: int|
                        0 <= i2 < out@.len() && ({
                            let f = queued_from(q2@, (#[trigger] out@[i2]).0);
                            let d = sched_dest(q2@, dim, out@[i2]);
                            (f.ys() == y && f.xs() == x) || (d.ys() == y && d.xs() == x)
                        });
                    assert(queued_from(queued@, out@[i2].0) == queued_from(q2@, out@[i2].0));
                    assert(sched_dest(queued@, dim, out@[i2]) == sched_dest(q2@, dim, out@[i2]));
                    assert(touches(out@, queued@, dim, y, x));
                }
            }
        }
        if !is_end_game {
            assert forall|i2: int| 0 <= i2 < out@.len() implies (old(map).map_u.base.at(
                sched_dest(queued@, dim, #[trigger] out@[i2]),
            ) == Unit::Empty || vacated_by(out@, queued@, sched_dest(queued@, dim, out@[i2]))) by {
                assert(sched_dest(queued@, dim, out@[i2]) == sched_dest(q2@, dim, out@[i2]));
            }
        }
    }
    out
}

/// Whether a unit step takes `fc` one closer to `tc` on the torus.
pub open spec fn dir_reduces(d: Dir, fc: Coord, tc: Coord, dim: Coord) -> bool {
    step_to(fc, d, dim).wdist(tc, dim) == fc.wdist(tc, dim) - 1
}

/// After a shuffle, the preferred directions still are unit steps that each
/// bring the position one closer to the target.
proof fn lemma_perm_dirs(v0: Seq<Dir>, v1: Seq<Dir>, fc: Coord, tc: Coord, dim: Coord)
    requires
        v1.to_multiset() == v0.to_multiset(),
        forall|k: int|
            0 <= k < v0.len() ==> (#[trigger] v0[k]).is_unit() && dir_reduces(v0[k], fc, tc, dim)
                && is_pref_dir(v0[k], fc, tc, dim),
    ensures
        forall|k: int|
            0 <= k < v1.len() ==> (#[trigger] v1[k]).is_unit() && dir_reduces(v1[k], fc, tc, dim)
                && is_pref_dir(v1[k], fc, tc, dim),
{
    broadcast use vstd::seq_lib::group_to_multiset_ensures;

    assert forall|k: int|
        0 <= k < v1.len() implies (#[trigger] v1[k]).is_unit() && dir_reduces(v1[k], fc, tc, dim)
        && is_pref_dir(v1[k], fc, tc, dim) by {
        assert(v1.contains(v1[k]));
        assert(v1.to_multiset().count(v1[k]) > 0);
        assert(v0.contains(v1[k]));
        let j = choose|j: int| 0 <= j < v0.len() && v0[j] == v1[k];
        assert(v0[j].is_unit() && dir_reduces(v0[j], fc, tc, dim));
    }
}

/// After a shuffle, the fallback directions still are unit steps.
proof fn lemma_perm_unit_dirs(v0: Seq<Dir>, v1: Seq<Dir>, fc: Coord, tc: Coord, dim: Coord)
    requires
        v1.to_multiset() == v0.to_multiset(),
        forall|k: int|
            0 <= k < v0.len() ==> (#[trigger] v0[k]).is_unit() && !is_pref_dir(
                v0[k],
                fc,
                tc,
                dim,
            ),
    ensures
        forall|k: int|
            0 <= k < v1.len() ==> (#[trigger] v1[k]).is_unit() && !is_pref_dir(
                v1[k],
                fc,
                tc,
                dim,
            ),
{
    broadcast use vstd::seq_lib::group_to_multiset_ensures;

    assert forall|k: int| 0 <= k < v1.len() implies (#[trigger] v1[k]).is_unit() && !is_pref_dir(
        v1[k],
        fc,
        tc,
        dim,
    ) by {
        assert(v1.contains(v1[k]));
        assert(v1.to_multiset().count(v1[k]) > 0);
        assert(v0.contains(v1[k]));
        let j = choose|j: int| 0 <= j < v0.len() && v0[j] == v1[k];
        assert(v0[j].is_unit() && !is_pref_dir(v0[j], fc, tc, dim));
    }
}

} // verus!
