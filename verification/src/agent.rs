//! The per-agent decision state machine. Random draws are taken as plain
//! arguments by the policy step, so the transition table is verified for
//! every draw; the public entry points pull the draws from the generator and
//! hand them in.

use vstd::prelude::*;
use crate::coord::Coord;
use crate::mapraw::{RawMaps, ResourceMap, Unit};
use crate::rng::draw_below;

verus! {

/// Cargo level at or above which a miner heads home with certainty.
pub const CARGO_NEAR_FULL: usize = 975;

/// Random draws are uniform below this scale; band thresholds are measured
/// against it.
pub const DRAW_SCALE: u32 = 10000;

/// A mining cell with less halite than this counts as depleted.
pub const MINE_DEPLETED_FLOOR: usize = 10;

/// Turns a fresh miner waits before the leave-mining draw may fire.
pub const COOLDOWN_MINE_RESET: i32 = 5;

/// Turns a traveller waits before move-to-mine reassignment may fire.
pub const COOLDOWN_MOVETOMINE_RESET: i32 = 5;

/// What an agent is currently doing.
#[derive(Clone, Copy, Debug, Eq, PartialEq, Structural)]
pub enum AgentStatus {
    MoveToMine,
    MoveToDropoff,
    Mining,
    Idle,
    EndGame,
    CreateDropoff,
}

impl Default for AgentStatus {
    /// A fresh agent starts idle.
    fn default() -> (r: AgentStatus)
        ensures
            r == AgentStatus::Idle,
    {
        AgentStatus::Idle
    }
}

/// One ship-controlling agent.
#[derive(Clone, Copy, Debug)]
pub struct Agent {
    pub assigned_mine: Option<Coord>,
    pub assigned_dropoff: Option<Coord>,
    pub status: AgentStatus,
    pub halite: usize,
    pub pos: Coord,
    pub id: i32,
    pub cooldown_mine: i32,
    pub cooldown_movetomine: i32,
    pub create_dropoff: Option<Coord>,
}

/// Probability threshold (against the draw scale) of leaving the mining state
/// this turn, keyed by cargo band: the fuller the ship, the likelier it heads
/// home.
pub open spec fn spec_band_threshold(halite: usize) -> u32 {
    if halite >= 900 {
        8000
    } else if halite >= 700 {
        2000
    } else {
        5
    }
}

impl Agent {
    /// Every state that needs a target has one.
    pub open spec fn wf_targets(self) -> bool {
        &&& (self.status is MoveToMine || self.status is Mining || self.status is MoveToDropoff
            ==> self.assigned_mine is Some && self.assigned_dropoff is Some)
        &&& (self.status is EndGame ==> self.assigned_dropoff is Some)
        &&& (self.status is CreateDropoff ==> self.create_dropoff is Some)
    }

    /// All held coordinates are inside the grid of dimensions `dim`.
    pub open spec fn coords_ok(self, dim: Coord) -> bool {
        &&& self.pos.normed(dim)
        &&& (self.assigned_mine matches Some(c) ==> c.normed(dim))
        &&& (self.assigned_dropoff matches Some(c) ==> c.normed(dim))
        &&& (self.create_dropoff matches Some(c) ==> c.normed(dim))
    }

    /// The destination the agent wants to reach in its current state; idle
    /// agents want to stay put.
    pub open spec fn desired_dest(self) -> Coord {
        match self.status {
            AgentStatus::Mining => self.assigned_mine->Some_0,
            AgentStatus::MoveToMine => self.assigned_mine->Some_0,
            AgentStatus::MoveToDropoff => self.assigned_dropoff->Some_0,
            AgentStatus::EndGame => self.assigned_dropoff->Some_0,
            AgentStatus::CreateDropoff => self.create_dropoff->Some_0,
            AgentStatus::Idle => self.pos,
        }
    }

    /// The transition table, evaluated once against the current state:
    /// a traveller that reached its mine starts mining with fresh cooldowns;
    /// a miner leaves for a dropoff when near-full, or by a cargo-band draw
    /// once its cooldown has run out, or goes idle for reassignment when its
    /// patch is depleted; a returner that reached its dropoff heads out again.
    pub open spec fn spec_update(
        self,
        local_halite: usize,
        area_halite: usize,
        kernel_dim: usize,
        draw: u32,
    ) -> Agent {
        match self.status {
            AgentStatus::MoveToMine => {
                if self.assigned_mine == Some(self.pos) {
                    Agent {
                        status: AgentStatus::Mining,
                        cooldown_mine: COOLDOWN_MINE_RESET,
                        cooldown_movetomine: 0,
                        ..self
                    }
                } else {
                    self
                }
            },
            AgentStatus::Mining => {
                if self.halite >= CARGO_NEAR_FULL || (self.cooldown_mine <= 0 && (draw as int)
                    < spec_band_threshold(self.halite)) {
                    Agent { status: AgentStatus::MoveToDropoff, ..self }
                } else if self.cooldown_mine <= 0 && local_halite < MINE_DEPLETED_FLOOR
                    && area_halite < MINE_DEPLETED_FLOOR * kernel_dim * kernel_dim {
                    Agent { status: AgentStatus::Idle, ..self }
                } else {
                    self
                }
            },
            AgentStatus::MoveToDropoff => {
                if self.assigned_dropoff == Some(self.pos) {
                    Agent {
                        status: AgentStatus::MoveToMine,
                        cooldown_movetomine: COOLDOWN_MOVETOMINE_RESET,
                        ..self
                    }
                } else {
                    self
                }
            },
            _ => self,
        }
    }

    /// One verified policy step on plain values: the whole transition table
    /// for a given draw. A miner at or above the near-full cargo threshold
    /// heads for a dropoff whatever the draw.
    pub fn update_state_with_draw(
        &mut self,
        local_halite: usize,
        area_halite: usize,
        kernel_dim: usize,
        draw: u32,
    )
        requires
            old(self).wf_targets(),
            kernel_dim <= 100,
            draw < DRAW_SCALE,
        ensures
            *final(self) == old(self).spec_update(local_halite, area_halite, kernel_dim, draw),
            final(self).wf_targets(),
            old(self).status is Mining && old(self).halite >= CARGO_NEAR_FULL ==> final(self).status is MoveToDropoff,
            final(self).pos == old(self).pos,
            final(self).halite == old(self).halite,
            final(self).id == old(self).id,
            final(self).assigned_mine == old(self).assigned_mine,
            final(self).assigned_dropoff == old(self).assigned_dropoff,
            final(self).create_dropoff == old(self).create_dropoff,
    {
        match self.status {
            AgentStatus::MoveToMine => {
                let mut arrived = false;
                match self.assigned_mine {
                    Some(m) => {
                        if m.y() == self.pos.y() && m.x() == self.pos.x() {
                            arrived = true;
                            proof {
                                assert(m == self.pos);
                            }
                        }
                    },
                    None => {},
                }
                if arrived {
                    self.status = AgentStatus::Mining;
                    self.cooldown_mine = COOLDOWN_MINE_RESET;
                    self.cooldown_movetomine = 0;
                }
            },
            AgentStatus::Mining => {
                proof {
                    assert(MINE_DEPLETED_FLOOR * kernel_dim * kernel_dim <= 100000)
                        by (nonlinear_arith)
                        requires
                            kernel_dim <= 100,
                            MINE_DEPLETED_FLOOR == 10,
                    ;
                }
                let threshold: u32 = if self.halite >= 900 {
                    8000
                } else if self.halite >= 700 {
                    2000
                } else {
                    5
                };
                if self.halite >= CARGO_NEAR_FULL || (self.cooldown_mine <= 0 && draw
                    < threshold) {
                    self.status = AgentStatus::MoveToDropoff;
                } else if self.cooldown_mine <= 0 && local_halite < MINE_DEPLETED_FLOOR
                    && area_halite < MINE_DEPLETED_FLOOR * kernel_dim * kernel_dim {
                    self.status = AgentStatus::Idle;
                }
            },
            AgentStatus::MoveToDropoff => {
                let mut arrived = false;
                match self.assigned_dropoff {
                    Some(d) => {
                        if d.y() == self.pos.y() && d.x() == self.pos.x() {
                            arrived = true;
                            proof {
                                assert(d == self.pos);
                            }
                        }
                    },
                    None => {},
                }
                if arrived {
                    self.status = AgentStatus::MoveToMine;
                    self.cooldown_movetomine = COOLDOWN_MOVETOMINE_RESET;
                }
            },
            _ => {},
        }
    }

    /// The halite in the window the depletion test reads: for a miner, the
    /// square of side `2 * (kernel_dim / 2) + 1` around its assigned mine;
    /// zero for every other state, whose transitions never read it.
    pub open spec fn depletion_window(self, m: ResourceMap, kernel_dim: usize) -> usize {
        if self.status is Mining {
            (m.area_sum(
                self.assigned_mine->Some_0.ys() - kernel_dim as int / 2,
                self.assigned_mine->Some_0.xs() - kernel_dim as int / 2,
                (2 * (kernel_dim as int / 2) + 1) as nat,
                (2 * (kernel_dim as int / 2) + 1) as nat,
            )) as usize
        } else {
            0
        }
    }

    /// Advance the state machine one turn against the current fields: reads
    /// the halite under the agent and around its assigned mine, takes one
    /// random draw, and applies the transition table to it.
    pub fn update_state(&mut self, mapraw: &RawMaps, kernel_dim: usize)
        requires
            old(self).wf_targets(),
            old(self).coords_ok(mapraw.map_r.base.dim),
            mapraw.wf(),
            1 <= kernel_dim <= 100,
        ensures
            final(self).wf_targets(),
            final(self).coords_ok(mapraw.map_r.base.dim),
            exists|draw: u32|
                draw < DRAW_SCALE && *final(self) == old(self).spec_update(
                    mapraw.map_r.base.read(old(self).pos),
                    old(self).depletion_window(mapraw.map_r, kernel_dim),
                    kernel_dim,
                    draw,
                ),
            old(self).status is Mining && old(self).halite >= CARGO_NEAR_FULL ==> final(self).status is MoveToDropoff,
    {
        let local_halite = mapraw.map_r.get(self.pos);
        let mut area_halite: usize = 0;
        match self.status {
            AgentStatus::Mining => {
                match self.assigned_mine {
                    Some(m) => {
                        area_halite = mapraw.map_r.area_remain(m, (kernel_dim as i32) / 2);
                    },
                    None => {},
                }
            },
            _ => {},
        }
        proof {
            assert(local_halite == mapraw.map_r.base.read(old(self).pos));
            assert(area_halite == old(self).depletion_window(mapraw.map_r, kernel_dim));
        }
        let draw = draw_below(DRAW_SCALE);
        let ghost pre = *self;
        self.update_state_with_draw(local_halite, area_halite, kernel_dim, draw);
        proof {
            assert(draw < DRAW_SCALE && *self == pre.spec_update(
                local_halite,
                area_halite,
                kernel_dim,
                draw,
            ));
        }
    }

    /// A miner standing on a nearly exhausted cell re-targets locally: it
    /// walks an outward square spiral from its assigned mine and, with a
    /// probability keyed to each visited cell's halite band, claims the first
    /// free cell the draw accepts. Everything but the assigned mine is left
    /// alone, and only an active miner on a poor cell moves its mine.
    pub fn assign_mine_locally(&mut self, rawmaps: &RawMaps, kernel_dim: usize)
        requires
            old(self).wf_targets(),
            old(self).coords_ok(rawmaps.map_r.base.dim),
            rawmaps.wf(),
            1 <= kernel_dim <= 50,
        ensures
            final(self).wf_targets(),
            final(self).coords_ok(rawmaps.map_r.base.dim),
            final(self).status == old(self).status,
            final(self).id == old(self).id,
            final(self).pos == old(self).pos,
            final(self).halite == old(self).halite,
            final(self).assigned_dropoff == old(self).assigned_dropoff,
            final(self).create_dropoff == old(self).create_dropoff,
            final(self).cooldown_mine == old(self).cooldown_mine,
            final(self).cooldown_movetomine == old(self).cooldown_movetomine,
            final(self).assigned_mine == old(self).assigned_mine || (old(self).status is Mining
                && rawmaps.map_r.base.read(old(self).pos) <= 20 && (final(self).assigned_mine
                matches Some(c) && c.normed(rawmaps.map_r.base.dim) && rawmaps.map_u.base.at(c)
                == Unit::Empty)),
            !(old(self).status is Mining) ==> *final(self) == *old(self),
    {
        match self.status {
            AgentStatus::Mining => {},
            _ => {
                return ;
            },
        }
        let dim = rawmaps.map_r.dim();
        let current_cell_halite = rawmaps.map_r.get(self.pos);
        if current_cell_halite > 20 {
            return ;
        }
        let mine_pos = match self.assigned_mine {
            Some(m) => m,
            None => {
                proof {
                    assert(false);
                }
                self.pos
            },
        };
        let my: i32 = mine_pos.0;
        let mx: i32 = mine_pos.1;
        let mut step_stop: i32 = 2;
        let mut py: i32 = my + step_stop / 2;
        let mut px: i32 = mx + step_stop / 2;
        let mut step_count: i32 = 0;
        // trace direction: 0 up, 1 left, 2 down, 3 right
        let mut d: u8 = 0;
        proof {
            assert(kernel_dim * kernel_dim * 3 <= 7500) by (nonlinear_arith)
                requires
                    1 <= kernel_dim <= 50,
            ;
        }
        let budget = kernel_dim * kernel_dim * 3;
        let mut it: usize = 0;
        while it < budget
            invariant
                rawmaps.wf(),
                dim == rawmaps.map_r.base.dim,
                *self == *old(self),
                old(self).status is Mining,
                old(self).wf_targets(),
                old(self).coords_ok(dim),
                mine_pos.normed(dim),
                my == mine_pos.ys(),
                mx == mine_pos.xs(),
                budget <= 7500,
                0 <= it <= budget,
                0 <= step_count,
                2 <= step_stop <= 3 + it,
                rawmaps.map_r.base.read(old(self).pos) <= 20,
                my - 3 - it <= py <= my + 3 + it,
                mx - 3 - it <= px <= mx + 3 + it,
                d < 4,
            decreases budget - it,
        {
            if step_count >= step_stop {
                if d == 1 {
                    d = 2;
                } else if d == 2 {
                    d = 3;
                } else if d == 3 {
                    step_stop = step_stop + 1;
                    py = my + step_stop / 2;
                    px = mx + step_stop / 2;
                    d = 0;
                } else {
                    d = 1;
                }
                step_count = 0;
            }
            if d == 1 {
                px = px - 1;
            } else if d == 2 {
                py = py + 1;
            } else if d == 3 {
                px = px + 1;
            } else {
                py = py - 1;
            }
            step_count = step_count + 1;
            let cand = Coord(py, px);
            let halite_in_cell = rawmaps.map_r.get(cand);
            let draw = draw_below(DRAW_SCALE);
            let accept = (halite_in_cell >= 750 && draw < 8500) || (halite_in_cell >= 500
                && halite_in_cell < 750 && draw < 7000) || (halite_in_cell >= 250
                && halite_in_cell < 500 && draw < 5000) || (halite_in_cell >= 100
                && halite_in_cell < 200 && draw < 2500) || (halite_in_cell >= 30
                && halite_in_cell < 100 && draw < 1000) || (halite_in_cell < 30 && draw < 100);
            if accept {
                match rawmaps.map_u.get(cand) {
                    Unit::Empty => {
                        let cn = cand.modulo(&dim);
                        self.assigned_mine = Some(cn);
                        proof {
                            crate::grid::lemma_norm_identity(cn, dim);
                        }
                        return ;
                    },
                    Unit::Ship { player, id, halite } => {},
                }
            }
            it = it + 1;
        }
    }

    /// The agent's intent this turn: its id, where it stands, and where it
    /// wants to be. Idle agents want their own cell; the cooldown of the
    /// current state ticks down.
    pub fn execute(&mut self, map_r: &ResourceMap) -> (r: (i32, Coord, Coord))
        requires
            old(self).wf_targets(),
        ensures
            final(self).wf_targets(),
            r.0 == old(self).id,
            r.1 == old(self).pos,
            r.2 == old(self).desired_dest(),
            *final(self) == (Agent {
                cooldown_mine: final(self).cooldown_mine,
                cooldown_movetomine: final(self).cooldown_movetomine,
                ..*old(self)
            }),
            final(self).cooldown_mine == if old(self).status is Mining && old(self).cooldown_mine
                > 0 {
                old(self).cooldown_mine - 1
            } else {
                old(self).cooldown_mine as int
            },
            final(self).cooldown_movetomine == if old(self).status is MoveToMine && old(self).cooldown_movetomine > 0 {
                old(self).cooldown_movetomine - 1
            } else {
                old(self).cooldown_movetomine as int
            },
            final(self).coords_ok(map_r.base.dim) == old(self).coords_ok(map_r.base.dim),
    {
        match self.status {
            AgentStatus::Mining => {
                if self.cooldown_mine > 0 {
                    self.cooldown_mine = self.cooldown_mine - 1;
                }
            },
            AgentStatus::MoveToMine => {
                if self.cooldown_movetomine > 0 {
                    self.cooldown_movetomine = self.cooldown_movetomine - 1;
                }
            },
            _ => {},
        }
        let dest = match self.status {
            AgentStatus::Mining => match self.assigned_mine {
                Some(m) => m,
                None => self.pos,
            },
            AgentStatus::MoveToMine => match self.assigned_mine {
                Some(m) => m,
                None => self.pos,
            },
            AgentStatus::MoveToDropoff => match self.assigned_dropoff {
                Some(d) => d,
                None => self.pos,
            },
            AgentStatus::EndGame => match self.assigned_dropoff {
                Some(d) => d,
                None => self.pos,
            },
            AgentStatus::CreateDropoff => match self.create_dropoff {
                Some(d) => d,
                None => self.pos,
            },
            AgentStatus::Idle => self.pos,
        };
        (self.id, self.pos, dest)
    }
}

} // verus!
