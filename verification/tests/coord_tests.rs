use halite_core::coord::{Coord, Dir};
use halite_core::mapraw::ResourceMap;
use halite_core::search::heuristic_cost;

#[test]
fn wrap_roundtrip_out_of_range() {
    // writing through an un-normalized coordinate and reading through a
    // different un-normalized alias of the same cell returns the value
    let mut m = ResourceMap::new(Coord(5, 5));
    m.set(Coord(7, -3), 444);
    assert_eq!(m.get(Coord(2, 2)), 444);
    assert_eq!(m.get(Coord(-8, 12)), 444);
    assert_eq!(m.get(Coord(7, -3)), 444);
}

#[test]
fn modulo_normalizes_into_range() {
    let b = Coord(5, 7);
    assert_eq!(Coord(-1, -1).modulo(&b), Coord(4, 6));
    assert_eq!(Coord(5, 7).modulo(&b), Coord(0, 0));
    assert_eq!(Coord(12, 15).modulo(&b), Coord(2, 1));
    assert_eq!(Coord(3, 4).modulo(&b), Coord(3, 4));
}

#[test]
fn mod_bound_matches_modulo() {
    let c = Coord(-13, 29);
    assert_eq!(c.mod_bound(&(8, 8)), c.modulo(&Coord(8, 8)));
}

#[test]
fn abs_is_l1_norm() {
    assert_eq!(Coord(-3, 4).abs(), 7);
    assert_eq!(Coord(0, 0).abs(), 0);
}

#[test]
fn accessors_and_mutators() {
    let mut c = Coord(3, 9);
    assert_eq!(c.y(), 3);
    assert_eq!(c.x(), 9);
    *c.y_mut() = -2;
    *c.x_mut() = 5;
    assert_eq!(c, Coord(-2, 5));
}

#[test]
fn diff_wrap_around_takes_short_way() {
    let b = Coord(5, 5);
    // from (4,0) to (0,0): one step south wraps
    let d = Coord(0, 0).diff_wrap_around(&Coord(4, 0), &b);
    assert_eq!(d, Coord(1, 0));
    // from (0,4) to (0,0): one step east wraps
    let d2 = Coord(0, 0).diff_wrap_around(&Coord(0, 4), &b);
    assert_eq!(d2, Coord(0, 1));
    assert_eq!(d2.abs(), 1);
}

#[test]
fn heuristic_cost_is_wrap_l1() {
    let b = Coord(5, 5);
    assert_eq!(heuristic_cost(Coord(0, 0), Coord(4, 4), b), 2);
    assert_eq!(heuristic_cost(Coord(0, 0), Coord(2, 2), b), 4);
    assert_eq!(heuristic_cost(Coord(1, 1), Coord(1, 1), b), 0);
}

#[test]
fn dir_from_delta_keeps_components() {
    let d = Dir::from_delta(Coord(0, -1));
    assert_eq!((d.0, d.1), (0, -1));
}
