use halite_core::agent::{Agent, AgentStatus};
use halite_core::coord::Coord;
use halite_core::mapraw::{DropoffMap, Player, RawMaps, ResourceMap, Unit, UnitMap};
use halite_core::plan::{
    assign_agents_to_mine, find_resource_to_mine, get_approx_halite_in_path,
    get_num_free_neighours, get_neighours_most_free, nearest_dropoff, synthesize_agent_actions,
    PathAction,
};

fn empty_maps(n: i32) -> RawMaps {
    RawMaps {
        map_r: ResourceMap::new(Coord(n, n)),
        map_u: UnitMap::new(Coord(n, n)),
        map_d: DropoffMap::new(Coord(n, n)),
    }
}

fn idle_agent(id: i32, pos: Coord) -> Agent {
    Agent {
        assigned_mine: None,
        assigned_dropoff: None,
        status: AgentStatus::Idle,
        halite: 0,
        pos,
        id,
        cooldown_mine: 0,
        cooldown_movetomine: 0,
        create_dropoff: None,
    }
}

#[test]
fn idle_agent_is_routed_to_the_rich_cell() {
    // 5 by 5 all-zero field except one rich cell; the idle agent at the
    // spawn is routed to that cell and handed the nearest owned dropoff
    let mut maps = empty_maps(5);
    maps.map_r.set(Coord(2, 2), 1000);
    maps.map_d.set(-1, Coord(0, 0), Player(0));
    maps.map_u.set(Coord(0, 0), Unit::Ship { player: 0, id: 7, halite: 0 });
    let mut fleet = vec![idle_agent(7, Coord(0, 0))];
    let locs = find_resource_to_mine(0, &fleet, &maps, 15);
    assert_eq!(locs[0], Coord(2, 2));
    assign_agents_to_mine(0, &mut fleet, &maps, &locs);
    assert!(matches!(fleet[0].status, AgentStatus::MoveToMine));
    assert_eq!(fleet[0].assigned_mine, Some(Coord(2, 2)));
    assert_eq!(fleet[0].assigned_dropoff, Some(Coord(0, 0)));
    // routing an idle agent resets its travel cooldown
    assert_eq!(fleet[0].cooldown_movetomine, halite_core::agent::COOLDOWN_MOVETOMINE_RESET);
}

#[test]
fn two_idle_agents_never_share_a_mine() {
    let mut maps = empty_maps(5);
    maps.map_r.set(Coord(2, 2), 1000);
    maps.map_r.set(Coord(4, 4), 900);
    maps.map_d.set(-1, Coord(0, 0), Player(0));
    maps.map_u.set(Coord(0, 0), Unit::Ship { player: 0, id: 1, halite: 0 });
    maps.map_u.set(Coord(0, 1), Unit::Ship { player: 0, id: 2, halite: 0 });
    let mut fleet = vec![idle_agent(1, Coord(0, 0)), idle_agent(2, Coord(0, 1))];
    let locs = find_resource_to_mine(0, &fleet, &maps, 5);
    assign_agents_to_mine(0, &mut fleet, &maps, &locs);
    if fleet[0].assigned_mine.is_some() && fleet[1].assigned_mine.is_some() {
        assert_ne!(fleet[0].assigned_mine, fleet[1].assigned_mine);
    }
}

#[test]
fn returner_gets_the_nearest_dropoff() {
    let mut maps = empty_maps(7);
    maps.map_d.set(-1, Coord(0, 0), Player(0));
    maps.map_d.set(3, Coord(5, 5), Player(0));
    let mut a = idle_agent(4, Coord(6, 6));
    a.status = AgentStatus::MoveToDropoff;
    a.assigned_mine = Some(Coord(3, 3));
    a.assigned_dropoff = Some(Coord(0, 0));
    let mut fleet = vec![a];
    assign_agents_to_mine(0, &mut fleet, &maps, &Vec::new());
    // (5,5) is two steps from (6,6); (0,0) is two steps by wrap as well,
    // so either minimizer is acceptable — check minimality explicitly
    let got = fleet[0].assigned_dropoff.unwrap();
    let d_got = got.diff_wrap_around(&Coord(6, 6), &Coord(7, 7)).abs();
    assert_eq!(d_got, 2);
}

#[test]
fn nearest_dropoff_picks_the_minimum() {
    let mut d = DropoffMap::new(Coord(9, 9));
    d.set(-1, Coord(0, 0), Player(0));
    d.set(1, Coord(4, 4), Player(0));
    d.set(2, Coord(8, 8), Player(1));
    assert_eq!(nearest_dropoff(&d, 0, Coord(3, 3)), Some(Coord(4, 4)));
    assert_eq!(nearest_dropoff(&d, 0, Coord(1, 0)), Some(Coord(0, 0)));
    assert_eq!(nearest_dropoff(&d, 5, Coord(1, 0)), None);
}

#[test]
fn transit_estimate_has_exact_value_on_a_straight_walk() {
    // start and end share a row, so the walk is the unique shortest line;
    // cargo 100 pays a tenth of each traversed cell, and the distance
    // penalty here is exactly one unit
    let mut maps = empty_maps(5);
    maps.map_r.set(Coord(0, 0), 50);
    maps.map_r.set(Coord(0, 1), 30);
    // total 80 over 25 cells: 3200 thousandths average
    let avg = maps.map_r.avg_remain_milli();
    assert_eq!(avg, 3200);
    let r = get_approx_halite_in_path(100, Coord(0, 0), Coord(0, 2), &maps, PathAction::Subtract, avg);
    assert_eq!(r, 100 - 5 - 3 - 1);
}

#[test]
fn transit_estimate_passes_through_on_zero_distance() {
    let maps = empty_maps(5);
    let r = get_approx_halite_in_path(123, Coord(1, 1), Coord(1, 1), &maps, PathAction::Add, 0);
    assert_eq!(r, 123);
}

#[test]
fn free_neighbour_counts() {
    let mut maps = empty_maps(4);
    assert_eq!(get_num_free_neighours(Coord(1, 1), &maps), 4);
    maps.map_u.set(Coord(0, 1), Unit::Ship { player: 1, id: 1, halite: 0 });
    maps.map_u.set(Coord(1, 0), Unit::Ship { player: 1, id: 2, halite: 0 });
    assert_eq!(get_num_free_neighours(Coord(1, 1), &maps), 2);
    let ranked = get_neighours_most_free(Coord(1, 1), &maps);
    assert_eq!(ranked.len(), 4);
    for w in ranked.windows(2) {
        assert!(w[0].1 >= w[1].1);
    }
}

#[test]
fn prioritized_dirs_lead_with_the_short_way() {
    let maps = empty_maps(5);
    let dirs = Coord(0, 0).get_prioritized_dir(&Coord(0, 3), &maps);
    assert_eq!(dirs.len(), 4);
    // the wrap-shorter way from column 0 to column 3 on width 5 is west
    assert_eq!((dirs[0].0, dirs[0].1), (0, -1));
    for d in &dirs {
        assert_eq!(d.0.abs() + d.1.abs(), 1);
    }
}

#[test]
fn intents_split_movers_from_converters() {
    let maps = empty_maps(5);
    let mut a = idle_agent(1, Coord(1, 1));
    a.status = AgentStatus::CreateDropoff;
    a.create_dropoff = Some(Coord(1, 1));
    let mut b = idle_agent(2, Coord(2, 2));
    b.status = AgentStatus::MoveToDropoff;
    b.assigned_mine = Some(Coord(3, 3));
    b.assigned_dropoff = Some(Coord(0, 0));
    let mut fleet = vec![a, b];
    let (moves, converts) = synthesize_agent_actions(0, &mut fleet, &maps);
    assert_eq!(converts, vec![1]);
    assert_eq!(moves, vec![(2, Coord(2, 2), Coord(0, 0))]);
}

#[test]
fn local_reassignment_only_moves_the_mine() {
    let mut maps = empty_maps(9);
    // the miner stands on an exhausted cell; a rich free cell sits on the
    // spiral around its assigned mine
    maps.map_r.set(Coord(4, 5), 800);
    let mut a = idle_agent(3, Coord(4, 4));
    a.status = AgentStatus::Mining;
    a.assigned_mine = Some(Coord(4, 4));
    a.assigned_dropoff = Some(Coord(0, 0));
    let before = a;
    a.assign_mine_locally(&maps, 5);
    assert!(matches!(a.status, AgentStatus::Mining));
    assert_eq!(a.pos, before.pos);
    assert_eq!(a.assigned_dropoff, before.assigned_dropoff);
    if let Some(c) = a.assigned_mine {
        assert!(c.y() >= 0 && c.y() < 9 && c.x() >= 0 && c.x() < 9);
        assert!(matches!(maps.map_u.get(c), Unit::Empty));
    }
}
