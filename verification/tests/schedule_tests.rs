use halite_core::coord::Coord;
use halite_core::mapraw::{DropoffMap, Player, RawMaps, ResourceMap, Unit, UnitMap};
use halite_core::plan::{schedule, schedule_v2};

fn empty_maps(n: i32) -> RawMaps {
    RawMaps {
        map_r: ResourceMap::new(Coord(n, n)),
        map_u: UnitMap::new(Coord(n, n)),
        map_d: DropoffMap::new(Coord(n, n)),
    }
}

fn dest_of(from: Coord, dir: halite_core::coord::Dir, n: i32) -> Coord {
    Coord(from.0 + dir.0, from.1 + dir.1).modulo(&Coord(n, n))
}

#[test]
fn swap_intents_block_nobody() {
    // two agents at (0,0) and (0,1) want each other's cells on an otherwise
    // empty grid: the first processed moves somewhere free at once, which
    // vacates its cell, so the second's destination is granted
    let mut maps = empty_maps(3);
    maps.map_u.set(Coord(0, 0), Unit::Ship { player: 0, id: 1, halite: 0 });
    maps.map_u.set(Coord(0, 1), Unit::Ship { player: 0, id: 2, halite: 0 });
    let queued = vec![(1, Coord(0, 0), Coord(0, 1)), (2, Coord(0, 1), Coord(0, 0))];
    let out = schedule(0, &queued, &mut maps, false, None);
    assert_eq!(out.len(), 2);
    let a = out.iter().find(|e| e.0 == 1).unwrap();
    let b = out.iter().find(|e| e.0 == 2).unwrap();
    // the second agent gets its exact wish: the first one's vacated cell
    assert_eq!(dest_of(Coord(0, 1), b.1, 3), Coord(0, 0));
    // and no two accepted moves share a destination
    assert_ne!(dest_of(Coord(0, 0), a.1, 3), dest_of(Coord(0, 1), b.1, 3));
}

#[test]
fn accepted_moves_never_share_a_destination() {
    // three agents all aiming at the same central cell
    let mut maps = empty_maps(5);
    for (id, c) in [(1, Coord(1, 2)), (2, Coord(3, 2)), (3, Coord(2, 1))] {
        maps.map_u.set(c, Unit::Ship { player: 0, id, halite: 0 });
    }
    let queued = vec![
        (1, Coord(1, 2), Coord(2, 2)),
        (2, Coord(3, 2), Coord(2, 2)),
        (3, Coord(2, 1), Coord(2, 2)),
    ];
    let froms = [(1, Coord(1, 2)), (2, Coord(3, 2)), (3, Coord(2, 1))];
    let out = schedule(0, &queued, &mut maps, false, None);
    let dests: Vec<Coord> = out
        .iter()
        .map(|(id, d)| {
            let f = froms.iter().find(|e| e.0 == *id).unwrap().1;
            dest_of(f, *d, 5)
        })
        .collect();
    for i in 0..dests.len() {
        for j in 0..dests.len() {
            if i != j {
                assert_ne!(dests[i], dests[j]);
            }
        }
    }
}

#[test]
fn lone_agent_with_a_free_step_is_scheduled() {
    // with open neighbours a live intent always yields a command
    let mut maps = empty_maps(3);
    maps.map_u.set(Coord(1, 1), Unit::Ship { player: 0, id: 4, halite: 0 });
    let queued = vec![(4, Coord(1, 1), Coord(0, 1))];
    let out = schedule(0, &queued, &mut maps, false, None);
    assert_eq!(out.len(), 1);
    assert_eq!(out[0].0, 4);
    // the preferred step goes straight for the target
    assert_eq!(dest_of(Coord(1, 1), out[0].1, 3), Coord(0, 1));
}

#[test]
fn fully_blocked_agent_stays_put() {
    // an agent whose four neighbours hold enemy ships gets no command
    let mut maps = empty_maps(3);
    maps.map_u.set(Coord(1, 1), Unit::Ship { player: 0, id: 1, halite: 0 });
    for (id, c) in [(10, Coord(0, 1)), (11, Coord(2, 1)), (12, Coord(1, 0)), (13, Coord(1, 2))] {
        maps.map_u.set(c, Unit::Ship { player: 1, id, halite: 0 });
    }
    let queued = vec![(1, Coord(1, 1), Coord(0, 1))];
    let out = schedule(0, &queued, &mut maps, false, None);
    assert_eq!(out.len(), 0);
}

#[test]
fn end_game_override_enters_owned_dropoff() {
    // in the end game a move onto the player's own dropoff is accepted even
    // though the cell is occupied
    let mut maps = empty_maps(3);
    maps.map_d.set(2, Coord(0, 1), Player(0));
    maps.map_u.set(Coord(0, 1), Unit::Ship { player: 1, id: 50, halite: 0 });
    maps.map_u.set(Coord(1, 1), Unit::Ship { player: 0, id: 9, halite: 900 });
    let queued = vec![(9, Coord(1, 1), Coord(0, 1))];
    let out = schedule(0, &queued, &mut maps, true, None);
    assert_eq!(out.len(), 1);
    assert_eq!(out[0].0, 9);
    assert_eq!(dest_of(Coord(1, 1), out[0].1, 3), Coord(0, 1));
}

#[test]
fn zero_delta_and_spawned_agents_are_skipped() {
    let mut maps = empty_maps(3);
    maps.map_u.set(Coord(0, 0), Unit::Ship { player: 0, id: 1, halite: 0 });
    maps.map_u.set(Coord(2, 2), Unit::Ship { player: 0, id: 2, halite: 0 });
    let queued = vec![
        (1, Coord(0, 0), Coord(0, 0)),  // no movement required
        (2, Coord(2, 2), Coord(2, 1)),  // spawned this turn
    ];
    let out = schedule(0, &queued, &mut maps, false, Some(2));
    assert_eq!(out.len(), 0);
}

#[test]
fn constrained_first_scheduler_resolves_all() {
    // the most-constrained-first scheduler also never double-books a cell
    let mut maps = empty_maps(5);
    for (id, c) in [(1, Coord(0, 0)), (2, Coord(0, 1)), (3, Coord(1, 0))] {
        maps.map_u.set(c, Unit::Ship { player: 0, id, halite: 0 });
    }
    let queued = vec![
        (1, Coord(0, 0), Coord(3, 3)),
        (2, Coord(0, 1), Coord(3, 3)),
        (3, Coord(1, 0), Coord(3, 3)),
    ];
    let froms = [(1, Coord(0, 0)), (2, Coord(0, 1)), (3, Coord(1, 0))];
    let out = schedule_v2(0, &queued, &mut maps, false, None);
    let dests: Vec<Coord> = out
        .iter()
        .map(|(id, d)| {
            let f = froms.iter().find(|e| e.0 == *id).unwrap().1;
            dest_of(f, *d, 5)
        })
        .collect();
    for i in 0..dests.len() {
        for j in 0..dests.len() {
            if i != j {
                assert_ne!(dests[i], dests[j]);
            }
        }
    }
}
