use halite_core::agent::{Agent, AgentStatus, CARGO_NEAR_FULL};
use halite_core::coord::Coord;

fn miner(cargo: usize, cooldown: i32) -> Agent {
    Agent {
        assigned_mine: Some(Coord(2, 2)),
        assigned_dropoff: Some(Coord(0, 0)),
        status: AgentStatus::Mining,
        halite: cargo,
        pos: Coord(2, 2),
        id: 1,
        cooldown_mine: cooldown,
        cooldown_movetomine: 0,
        create_dropoff: None,
    }
}

#[test]
fn near_full_miner_heads_home_whatever_the_draw() {
    // deterministic boundary: at or above the threshold the draw is ignored
    for draw in [0u32, 5000, 9999] {
        let mut a = miner(CARGO_NEAR_FULL, 5);
        a.update_state_with_draw(500, 500, 15, draw);
        assert!(matches!(a.status, AgentStatus::MoveToDropoff));
    }
    let mut b = miner(1000, 5);
    b.update_state_with_draw(500, 500, 15, 9999);
    assert!(matches!(b.status, AgentStatus::MoveToDropoff));
}

#[test]
fn cooled_down_miner_ignores_draw_below_threshold() {
    // below the near-full threshold, a fresh cooldown blocks the band draw
    let mut a = miner(900, 5);
    a.update_state_with_draw(500, 500, 15, 0);
    assert!(matches!(a.status, AgentStatus::Mining));
    // with the cooldown spent, a draw under the band threshold fires
    let mut b = miner(900, 0);
    b.update_state_with_draw(500, 500, 15, 7999);
    assert!(matches!(b.status, AgentStatus::MoveToDropoff));
    // and a draw at or above the band threshold does not
    let mut c = miner(900, 0);
    c.update_state_with_draw(500, 500, 15, 8000);
    assert!(matches!(c.status, AgentStatus::Mining));
}

#[test]
fn depleted_patch_sends_miner_idle() {
    let mut a = miner(100, 0);
    // local cell below the floor and area average below the floor
    a.update_state_with_draw(5, 100, 15, 9999);
    assert!(matches!(a.status, AgentStatus::Idle));
    // a rich area keeps the miner mining
    let mut b = miner(100, 0);
    b.update_state_with_draw(5, 100000, 15, 9999);
    assert!(matches!(b.status, AgentStatus::Mining));
}

#[test]
fn traveller_arriving_at_mine_starts_mining() {
    let mut a = miner(0, 0);
    a.status = AgentStatus::MoveToMine;
    a.pos = Coord(2, 2);
    a.update_state_with_draw(500, 500, 15, 9999);
    assert!(matches!(a.status, AgentStatus::Mining));
    assert_eq!(a.cooldown_mine, halite_core::agent::COOLDOWN_MINE_RESET);
    // short of the mine it keeps travelling
    let mut b = miner(0, 0);
    b.status = AgentStatus::MoveToMine;
    b.pos = Coord(1, 2);
    b.update_state_with_draw(500, 500, 15, 9999);
    assert!(matches!(b.status, AgentStatus::MoveToMine));
}

#[test]
fn returner_arriving_at_dropoff_heads_out_again() {
    let mut a = miner(0, 0);
    a.status = AgentStatus::MoveToDropoff;
    a.pos = Coord(0, 0);
    a.update_state_with_draw(500, 500, 15, 0);
    assert!(matches!(a.status, AgentStatus::MoveToMine));
}

#[test]
fn execute_reports_intent_per_status() {
    let mut a = miner(10, 3);
    let (id, pos, dest) = a.execute(&halite_core::mapraw::ResourceMap::new(Coord(5, 5)));
    assert_eq!(id, 1);
    assert_eq!(pos, Coord(2, 2));
    assert_eq!(dest, Coord(2, 2));
    // mining ticks its cooldown
    assert_eq!(a.cooldown_mine, 2);

    let map_r = halite_core::mapraw::ResourceMap::new(Coord(5, 5));
    let mut b = miner(10, 3);
    b.status = AgentStatus::MoveToDropoff;
    let (_, _, dest_b) = b.execute(&map_r);
    assert_eq!(dest_b, Coord(0, 0));

    let mut c = miner(10, 3);
    c.status = AgentStatus::Idle;
    let (_, pos_c, dest_c) = c.execute(&map_r);
    assert_eq!(dest_c, pos_c);
}
