//! Per-turn fleet synchronization: the authoritative (id, cell, cargo)
//! update is folded into the known agents — existing agents keep their plans
//! and get fresh position and cargo, unknown ids become new idle agents, and
//! ids absent from the update are reported as removed.

use vstd::prelude::*;
use crate::agent::{Agent, AgentStatus};
use crate::coord::Coord;

verus! {

/// Some agent in the fleet carries `id`.
pub open spec fn fleet_has(f: Seq<Agent>, id: i32) -> bool {
    exists|k: int| 0 <= k < f.len() && (#[trigger] f[k]).id == id
}

/// The index of the fleet agent carrying `id`.
pub open spec fn fleet_idx(f: Seq<Agent>, id: i32) -> int {
    choose|k: int| 0 <= k < f.len() && (#[trigger] f[k]).id == id
}

/// Some update row carries `id`.
pub open spec fn update_has(u: Seq<(i32, Coord, usize)>, id: i32) -> bool {
    exists|t: int| 0 <= t < u.len() && (#[trigger] u[t]).0 == id
}

/// A known agent carried over: plans and cooldowns kept, position and cargo
/// taken from the update row.
pub open spec fn carried_over(a: Agent, prev: Agent, row: (i32, Coord, usize)) -> bool {
    a == (Agent { pos: row.1, halite: row.2, ..prev })
}

/// A freshly seen id: an idle agent with no plans at the reported cell.
pub open spec fn fresh_agent(a: Agent, row: (i32, Coord, usize)) -> bool {
    a == (Agent {
        assigned_mine: Option::None,
        assigned_dropoff: Option::None,
        status: AgentStatus::Idle,
        halite: row.2,
        pos: row.1,
        id: row.0,
        cooldown_mine: 0,
        cooldown_movetomine: 0,
        create_dropoff: Option::None,
    })
}

/// The agent was in the old fleet under an id the update no longer carries.
pub open spec fn removed_ok(a: Agent, f: Seq<Agent>, u: Seq<(i32, Coord, usize)>) -> bool {
    exists|k: int|
        0 <= k < f.len() && a == #[trigger] f[k] && !update_has(u, f[k].id)
}

/// The sequence holds this agent.
pub open spec fn holds_agent(s: Seq<Agent>, a: Agent) -> bool {
    exists|m: int| 0 <= m < s.len() && #[trigger] s[m] == a
}

/// Find the fleet agent carrying `id`.
fn find_agent(f: &Vec<Agent>, id: i32) -> (r: Option<usize>)
    ensures
        match r {
            Some(k) => k < f@.len() && f@[k as int].id == id,
            None => !fleet_has(f@, id),
        },
{
    let n = f.len();
    let mut k: usize = 0;
    while k < n
        invariant
            n == f@.len(),
            0 <= k <= n,
            forall|j: int| 0 <= j < k ==> (#[trigger] f@[j]).id != id,
        decreases n - k,
    {
        if f[k].id == id {
            return Some(k);
        }
        k = k + 1;
    }
    proof {
        if fleet_has(f@, id) {
            let j = fleet_idx(f@, id);
            assert(f@[j].id == id);
        }
    }
    None
}

/// Whether some update row carries `id`.
fn update_contains(u: &Vec<(i32, Coord, usize)>, id: i32) -> (r: bool)
    ensures
        r == update_has(u@, id),
{
    let n = u.len();
    let mut t: usize = 0;
    while t < n
        invariant
            n == u@.len(),
            0 <= t <= n,
            forall|j: int| 0 <= j < t ==> (#[trigger] u@[j]).0 != id,
        decreases n - t,
    {
        if u[t].0 == id {
            proof {
                assert(u@[t as int].0 == id);
            }
            return true;
        }
        t = t + 1;
    }
    proof {
        if update_has(u@, id) {
            let j = choose|j: int| 0 <= j < u@.len() && (#[trigger] u@[j]).0 == id;
            assert(false);
        }
    }
    false
}

/// Fold the turn's authoritative (id, cell, cargo) rows into the known fleet.
/// Row by row: a known id keeps its agent's plans with position and cargo
/// refreshed; an unknown id becomes a fresh idle agent and is reported as the
/// newly spawned one. Agents whose id no longer appears are returned removed.
pub fn synchronize_player_agents(player_agents: &Vec<Agent>, update: &Vec<(i32, Coord, usize)>) -> (r: (
    Option<i32>,
    Vec<Agent>,
    Vec<Agent>,
))
    requires
        forall|k1: int, k2: int|
            0 <= k1 < player_agents@.len() && 0 <= k2 < player_agents@.len() && k1 != k2 ==> (
            #[trigger] player_agents@[k1]).id != (#[trigger] player_agents@[k2]).id,
    ensures
        r.1@.len() == update@.len(),
        forall|j: int|
            0 <= j < update@.len() ==> {
                let row = #[trigger] update@[j];
                if fleet_has(player_agents@, row.0) {
                    carried_over(r.1@[j], player_agents@[fleet_idx(player_agents@, row.0)], row)
                } else {
                    fresh_agent(r.1@[j], row)
                }
            },
        match r.0 {
            Some(id) => update_has(update@, id) && !fleet_has(player_agents@, id),
            None => forall|j: int|
                0 <= j < update@.len() ==> fleet_has(player_agents@, (#[trigger] update@[j]).0),
        },
        forall|m: int|
            0 <= m < r.2@.len() ==> removed_ok(#[trigger] r.2@[m], player_agents@, update@),
        forall|k: int|
            0 <= k < player_agents@.len() && !update_has(
                update@,
                (#[trigger] player_agents@[k]).id,
            ) ==> holds_agent(r.2@, player_agents@[k]),
        forall|m1: int, m2: int|
            0 <= m1 < r.2@.len() && 0 <= m2 < r.2@.len() && m1 != m2 ==> (#[trigger] r.2@[m1]).id
                != (#[trigger] r.2@[m2]).id,
{
    let mut ret: Vec<Agent> = Vec::new();
    let mut new_agent: Option<i32> = None;
    let n = update.len();
    let mut j: usize = 0;
    while j < n
        invariant
            n == update@.len(),
            0 <= j <= n,
            ret@.len() == j,
            forall|k1: int, k2: int|
                0 <= k1 < player_agents@.len() && 0 <= k2 < player_agents@.len() && k1 != k2 ==> (
                #[trigger] player_agents@[k1]).id != (#[trigger] player_agents@[k2]).id,
            forall|i: int|
                0 <= i < j ==> {
                    let row = #[trigger] update@[i];
                    if fleet_has(player_agents@, row.0) {
                        carried_over(
                            ret@[i],
                            player_agents@[fleet_idx(player_agents@, row.0)],
                            row,
                        )
                    } else {
                        fresh_agent(ret@[i], row)
                    }
                },
            match new_agent {
                Some(id) => update_has(update@, id) && !fleet_has(player_agents@, id),
                None => forall|i: int|
                    0 <= i < j ==> fleet_has(player_agents@, (#[trigger] update@[i]).0),
            },
        decreases n - j,
    {
        let (id, coord, halite) = update[j];
        match find_agent(player_agents, id) {
            Some(k) => {
                let prev = player_agents[k];
                let a = Agent { pos: coord, halite, ..prev };
                ret.push(a);
                proof {
                    assert(player_agents@[k as int].id == id);
                    assert(fleet_has(player_agents@, id));
                    assert(fleet_idx(player_agents@, id) == k);
                    assert(update@[j as int].0 == id);
                }
            },
            None => {
                let a = Agent {
                    assigned_mine: None,
                    assigned_dropoff: None,
                    status: AgentStatus::Idle,
                    halite,
                    pos: coord,
                    id,
                    cooldown_mine: 0,
                    cooldown_movetomine: 0,
                    create_dropoff: None,
                };
                ret.push(a);
                new_agent = Some(id);
                proof {
                    assert(update@[j as int].0 == id);
                    assert(update_has(update@, id));
                }
            },
        }
        j = j + 1;
    }
    let mut removed: Vec<Agent> = Vec::new();
    let m = player_agents.len();
    let mut k: usize = 0;
    while k < m
        invariant
            m == player_agents@.len(),
            0 <= k <= m,
            forall|k1: int, k2: int|
                0 <= k1 < player_agents@.len() && 0 <= k2 < player_agents@.len() && k1 != k2 ==> (
                #[trigger] player_agents@[k1]).id != (#[trigger] player_agents@[k2]).id,
            forall|i: int|
                0 <= i < removed@.len() ==> removed_ok(
                    #[trigger] removed@[i],
                    player_agents@,
                    update@,
                ),
            forall|k2: int|
                0 <= k2 < k && !update_has(update@, (#[trigger] player_agents@[k2]).id)
                    ==> holds_agent(removed@, player_agents@[k2]),
            forall|i: int|
                0 <= i < removed@.len() ==> exists|k2: int|
                    0 <= k2 < k && #[trigger] removed@[i] == player_agents@[k2],
            forall|m1: int, m2: int|
                0 <= m1 < removed@.len() && 0 <= m2 < removed@.len() && m1 != m2 ==> (
                #[trigger] removed@[m1]).id != (#[trigger] removed@[m2]).id,
        decreases m - k,
    {
        let ghost removed0 = removed@;
        let present = update_contains(update, player_agents[k].id);
        if !present {
            removed.push(player_agents[k]);
        }
        proof {
            assert forall|k2: int|
                0 <= k2 < k + 1 && !update_has(
                    update@,
                    (#[trigger] player_agents@[k2]).id,
                ) implies holds_agent(removed@, player_agents@[k2]) by {
                if k2 < k {
                    assert(holds_agent(removed0, player_agents@[k2]));
                    let i = choose|i: int|
                        0 <= i < removed0.len() && #[trigger] removed0[i] == player_agents@[k2];
                    assert(removed@[i] == player_agents@[k2]);
                } else {
                    assert(removed@[removed@.len() - 1] == player_agents@[k2]);
                }
            }
            assert forall|i: int| 0 <= i < removed@.len() implies removed_ok(
                #[trigger] removed@[i],
                player_agents@,
                update@,
            ) by {
                if i < removed0.len() {
                    assert(removed@[i] == removed0[i]);
                    assert(removed_ok(removed0[i], player_agents@, update@));
                } else {
                    assert(removed@[i] == player_agents@[k as int]);
                }
            }
        }
        k = k + 1;
    }
    (new_agent, ret, removed)
}

} // verus!
