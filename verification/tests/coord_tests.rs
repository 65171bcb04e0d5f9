use cellular_automata::coords::Coord;

#[test]
fn chunk_and_local_of_positive_cell() {
    let c = Coord::new(130, 5);
    assert_eq!(c.chunk_coord(64), (2, 0));
    assert_eq!(c.local_coord(64), (2, 5));
}

#[test]
fn chunk_and_local_of_negative_cell() {
    let c = Coord::new(-1, -64);
    assert_eq!(c.chunk_coord(64), (-1, -1));
    assert_eq!(c.local_coord(64), (63, 0));
    let d = Coord::new(-65, -129);
    assert_eq!(d.chunk_coord(64), (-2, -3));
    assert_eq!(d.local_coord(64), (63, 63));
}

#[test]
fn chunk_coord_at_i32_limits() {
    let c = Coord::new(i32::MIN, i32::MAX);
    assert_eq!(c.chunk_coord(64), (-33554432, 33554431));
    assert_eq!(c.local_coord(64), (0, 63));
}

#[test]
fn neighbors_in_order() {
    let c = Coord::new(10, -3);
    let n = c.neighbors();
    assert_eq!(
        n,
        [
            Coord::new(9, -4),
            Coord::new(10, -4),
            Coord::new(11, -4),
            Coord::new(9, -3),
            Coord::new(11, -3),
            Coord::new(9, -2),
            Coord::new(10, -2),
            Coord::new(11, -2),
        ]
    );
}

#[test]
fn add_and_sub() {
    let a = Coord::new(3, -7);
    let b = Coord::new(-10, 20);
    assert_eq!(a + b, Coord::new(-7, 13));
    assert_eq!(a - b, Coord::new(13, -27));
    assert_eq!((a + b) - b, a);
}

#[test]
fn chunk_times_side_plus_local_is_the_coordinate() {
    for &v in &[0, 1, 63, 64, -1, -63, -64, -65, 1_000_003, -1_000_003, i32::MIN, i32::MAX] {
        let c = Coord::new(v, -v.wrapping_add(1));
        let (cx, cy) = c.chunk_coord(64);
        let (lx, ly) = c.local_coord(64);
        assert!((0..64).contains(&lx) && (0..64).contains(&ly));
        assert_eq!(cx as i64 * 64 + lx as i64, c.x as i64);
        assert_eq!(cy as i64 * 64 + ly as i64, c.y as i64);
    }
}

#[test]
fn chunk_coord_with_other_sizes() {
    let c = Coord::new(-7, 7);
    assert_eq!(c.chunk_coord(3), (-3, 2));
    assert_eq!(c.local_coord(3), (2, 1));
    assert_eq!(c.chunk_coord(-3), (3, -2));
    assert_eq!(c.local_coord(-3), (2, 1));
}
