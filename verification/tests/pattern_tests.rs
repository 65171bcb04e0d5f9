use cellular_automata::coords::Coord;
use cellular_automata::pattern::{pattern_center, place_pattern};
use cellular_automata::world::World;

#[test]
fn center_of_empty_pattern() {
    assert_eq!(pattern_center(&Vec::new()), None);
}

#[test]
fn center_rounds_toward_zero() {
    let glider = vec![(1, 0), (2, 1), (0, 2), (1, 2), (2, 2)];
    assert_eq!(pattern_center(&glider), Some((1, 1)));
    let block = vec![(0, 0), (1, 0), (0, 1), (1, 1)];
    assert_eq!(pattern_center(&block), Some((0, 0)));
    let negative = vec![(-3, -3), (0, 0)];
    assert_eq!(pattern_center(&negative), Some((-1, -1)));
}

#[test]
fn place_pattern_centres_on_the_target() {
    let mut w = World::new();
    w.set_cell(Coord::new(100, 100), true);
    let glider = vec![(1, 0), (2, 1), (0, 2), (1, 2), (2, 2)];
    let center = pattern_center(&glider).unwrap();
    place_pattern(&mut w, &glider, center, Coord::new(10, -10));
    let mut cells: Vec<(i32, i32)> = w.iter_active_cells().into_iter().map(|c| (c.x, c.y)).collect();
    cells.sort();
    assert_eq!(cells, vec![(9, -9), (10, -11), (10, -9), (11, -10), (11, -9), (100, 100)]);
}
