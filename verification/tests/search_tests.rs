use halite_core::coord::Coord;
use halite_core::mapraw::{Unit, UnitMap};
use halite_core::search::search_path;

#[test]
fn path_on_free_grid_has_wrap_l1_length() {
    // with no obstacles the path is inclusive of both endpoints and exactly
    // as long as the wrap-around L1 distance demands
    let u = UnitMap::new(Coord(5, 5));
    let p = search_path(Coord(0, 0), Coord(2, 1), &u);
    assert_eq!(p.len(), 4);
    assert_eq!(p[0], Coord(0, 0));
    assert_eq!(p[3], Coord(2, 1));
    for w in p.windows(2) {
        let d = w[1].diff_wrap_around(&w[0], &Coord(5, 5));
        assert_eq!(d.abs(), 1);
    }
}

#[test]
fn path_wraps_across_the_edge() {
    let u = UnitMap::new(Coord(5, 5));
    // (0,0) to (4,0) is one step the short way around
    let p = search_path(Coord(0, 0), Coord(4, 0), &u);
    assert_eq!(p.len(), 2);
    assert_eq!(p[0], Coord(0, 0));
    assert_eq!(p[1], Coord(4, 0));
}

#[test]
fn path_avoids_occupied_cells() {
    let mut u = UnitMap::new(Coord(5, 5));
    // wall off the direct corridor between (0,0) and (0,2)
    u.set(Coord(0, 1), Unit::Ship { player: 1, id: 1, halite: 0 });
    u.set(Coord(1, 1), Unit::Ship { player: 1, id: 2, halite: 0 });
    u.set(Coord(4, 1), Unit::Ship { player: 1, id: 3, halite: 0 });
    let p = search_path(Coord(0, 0), Coord(0, 2), &u);
    assert!(p.len() >= 3);
    assert_eq!(p[0], Coord(0, 0));
    assert_eq!(*p.last().unwrap(), Coord(0, 2));
    for c in p.iter().skip(1) {
        assert!(matches!(u.get(*c), Unit::Empty));
    }
}

#[test]
fn unreachable_destination_yields_empty_path() {
    let mut u = UnitMap::new(Coord(5, 5));
    // enclose the destination completely
    u.set(Coord(1, 2), Unit::Ship { player: 1, id: 1, halite: 0 });
    u.set(Coord(3, 2), Unit::Ship { player: 1, id: 2, halite: 0 });
    u.set(Coord(2, 1), Unit::Ship { player: 1, id: 3, halite: 0 });
    u.set(Coord(2, 3), Unit::Ship { player: 1, id: 4, halite: 0 });
    let p = search_path(Coord(0, 0), Coord(2, 2), &u);
    assert_eq!(p.len(), 0);
}

#[test]
fn degenerate_search_start_equals_dest() {
    let u = UnitMap::new(Coord(5, 5));
    let p = search_path(Coord(3, 3), Coord(3, 3), &u);
    assert!(p.len() >= 1);
    assert_eq!(p[0], Coord(3, 3));
    assert_eq!(*p.last().unwrap(), Coord(3, 3));
}
