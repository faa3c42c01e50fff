use halite_core::coord::Coord;
use halite_core::grid::MapGeneric;
use halite_core::mapraw::{DropoffMap, Player, Unit, UnitMap};

#[test]
fn map_generic_inverse_index_roundtrip() {
    let mut g: MapGeneric<usize> = MapGeneric::new(Coord(4, 4), 0);
    g.add_item_inv_map(1, 10, Coord(2, 3));
    g.add_item_inv_map(1, 11, Coord(0, 0));
    g.add_item_inv_map(2, 10, Coord(1, 1));
    let p1 = g.get_inv_map(1);
    assert_eq!(p1.len(), 2);
    assert!(p1.contains(&(10, Coord(2, 3))));
    assert!(p1.contains(&(11, Coord(0, 0))));
    // re-adding the same pair moves the record instead of duplicating it
    g.add_item_inv_map(1, 10, Coord(3, 3));
    let p1b = g.get_inv_map(1);
    assert_eq!(p1b.len(), 2);
    assert!(p1b.contains(&(10, Coord(3, 3))));
    assert!(g.remove_item_from_inv_map(1, 10));
    assert!(!g.remove_item_from_inv_map(1, 10));
    assert_eq!(g.get_inv_map(1).len(), 1);
    assert_eq!(g.get_inv_map(2).len(), 1);
}

#[test]
fn map_generic_clear_blanks_cells_and_index() {
    let mut g: MapGeneric<usize> = MapGeneric::new(Coord(4, 4), 0);
    g.set_map(Coord(2, 2), 7);
    g.add_item_inv_map(1, 5, Coord(2, 2));
    g.clear_player_item_inv_map(1);
    assert_eq!(g.get_inv_map(1).len(), 0);
    assert_eq!(g.get_map(Coord(2, 2)), 0);
}

#[test]
fn unit_map_set_moves_the_record() {
    let mut u = UnitMap::new(Coord(4, 4));
    u.set(Coord(1, 1), Unit::Ship { player: 0, id: 3, halite: 50 });
    // moving the same ship vacates its old cell
    u.set(Coord(1, 2), Unit::Ship { player: 0, id: 3, halite: 50 });
    assert!(matches!(u.get(Coord(1, 1)), Unit::Empty));
    assert!(matches!(u.get(Coord(1, 2)), Unit::Ship { id: 3, .. }));
    let agents = u.get_player_agents(0);
    assert_eq!(agents, vec![(3, Coord(1, 2), 50)]);
}

#[test]
fn unit_map_remove_clears_cell_and_index() {
    let mut u = UnitMap::new(Coord(4, 4));
    u.set(Coord(0, 0), Unit::Ship { player: 2, id: 9, halite: 1 });
    u.remove(Coord(0, 0));
    assert!(matches!(u.get(Coord(0, 0)), Unit::Empty));
    assert_eq!(u.get_player_agents(2).len(), 0);
}

#[test]
fn unit_map_clear_player_agents_spares_others() {
    let mut u = UnitMap::new(Coord(4, 4));
    u.set(Coord(0, 0), Unit::Ship { player: 0, id: 1, halite: 5 });
    u.set(Coord(1, 0), Unit::Ship { player: 0, id: 2, halite: 6 });
    u.set(Coord(2, 0), Unit::Ship { player: 1, id: 1, halite: 7 });
    u.clear_player_agents(0);
    assert_eq!(u.get_player_agents(0).len(), 0);
    assert!(matches!(u.get(Coord(0, 0)), Unit::Empty));
    assert!(matches!(u.get(Coord(1, 0)), Unit::Empty));
    assert!(matches!(u.get(Coord(2, 0)), Unit::Ship { player: 1, .. }));
}

#[test]
fn dropoff_map_registers_owner_and_index() {
    let mut d = DropoffMap::new(Coord(4, 4));
    d.set(-1, Coord(0, 0), Player(0));
    d.set(3, Coord(2, 2), Player(0));
    d.set(1, Coord(3, 3), Player(1));
    assert_eq!(d.get(Coord(0, 0)), Some(Player(0)));
    assert_eq!(d.get(Coord(3, 3)), Some(Player(1)));
    assert_eq!(d.get(Coord(1, 1)), None);
    let mine = d.get_player_dropoffs(0);
    assert_eq!(mine.len(), 2);
    assert!(mine.contains(&(-1, Coord(0, 0))));
    assert!(mine.contains(&(3, Coord(2, 2))));
}

#[test]
fn resource_totals_and_area() {
    let mut m = halite_core::mapraw::ResourceMap::new(Coord(3, 3));
    m.set(Coord(0, 0), 100);
    m.set(Coord(2, 2), 50);
    assert_eq!(m.total_remain(), 150);
    // window of radius 1 around (0,0) wraps and covers (2,2)
    assert_eq!(m.area_remain(Coord(0, 0), 1), 150);
    // radius 0 is just the cell
    assert_eq!(m.area_remain(Coord(2, 2), 0), 50);
    assert_eq!(m.avg_remain_milli(), 150 * 1000 / 9);
}
