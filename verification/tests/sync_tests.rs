use halite_core::agent::{Agent, AgentStatus};
use halite_core::coord::Coord;
use halite_core::sync::synchronize_player_agents;

fn agent(id: i32, pos: Coord, cargo: usize) -> Agent {
    Agent {
        assigned_mine: Some(Coord(3, 3)),
        assigned_dropoff: Some(Coord(0, 0)),
        status: AgentStatus::MoveToMine,
        halite: cargo,
        pos,
        id,
        cooldown_mine: 2,
        cooldown_movetomine: 1,
        create_dropoff: None,
    }
}

#[test]
fn known_agents_keep_their_plans() {
    let fleet = vec![agent(1, Coord(1, 1), 10), agent(2, Coord(2, 2), 20)];
    let update = vec![(1, Coord(1, 2), 50), (2, Coord(2, 3), 70)];
    let (new_agent, next, removed) = synchronize_player_agents(&fleet, &update);
    assert_eq!(new_agent, None);
    assert_eq!(removed.len(), 0);
    assert_eq!(next.len(), 2);
    assert_eq!(next[0].id, 1);
    assert_eq!(next[0].pos, Coord(1, 2));
    assert_eq!(next[0].halite, 50);
    // plans and cooldowns carried over
    assert!(matches!(next[0].status, AgentStatus::MoveToMine));
    assert_eq!(next[0].assigned_mine, Some(Coord(3, 3)));
    assert_eq!(next[0].cooldown_mine, 2);
}

#[test]
fn unknown_id_becomes_a_fresh_idle_agent() {
    let fleet = vec![agent(1, Coord(1, 1), 10)];
    let update = vec![(1, Coord(1, 1), 10), (9, Coord(0, 0), 0)];
    let (new_agent, next, removed) = synchronize_player_agents(&fleet, &update);
    assert_eq!(new_agent, Some(9));
    assert_eq!(removed.len(), 0);
    assert_eq!(next.len(), 2);
    let fresh = next.iter().find(|a| a.id == 9).unwrap();
    assert!(matches!(fresh.status, AgentStatus::Idle));
    assert_eq!(fresh.assigned_mine, None);
    assert_eq!(fresh.assigned_dropoff, None);
    assert_eq!(fresh.pos, Coord(0, 0));
}

#[test]
fn vanished_ids_are_reported_removed() {
    let fleet = vec![agent(1, Coord(1, 1), 10), agent(2, Coord(2, 2), 20)];
    let update = vec![(2, Coord(2, 2), 25)];
    let (new_agent, next, removed) = synchronize_player_agents(&fleet, &update);
    assert_eq!(new_agent, None);
    assert_eq!(next.len(), 1);
    assert_eq!(next[0].id, 2);
    assert_eq!(removed.len(), 1);
    assert_eq!(removed[0].id, 1);
}
