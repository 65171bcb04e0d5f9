use cellular_automata::coords::Coord;
use cellular_automata::world::World;

fn sorted(mut v: Vec<Coord>) -> Vec<(i32, i32)> {
    let mut out: Vec<(i32, i32)> = v.drain(..).map(|c| (c.x, c.y)).collect();
    out.sort();
    out
}

#[test]
fn new_world_is_empty() {
    let w = World::new();
    assert!(w.iter_active_cells().is_empty());
    assert_eq!(w.get_bounds(), None);
    assert!(w.candidate_chunk_coords().is_empty());
    assert!(!w.get_cell(Coord::new(0, 0)));
}

#[test]
fn world_set_then_get_across_signs() {
    let mut w = World::default();
    let cells = [(0, 0), (-1, -1), (63, 64), (-64, 0), (1_000_000, -2_000_000)];
    for &(x, y) in &cells {
        w.set_cell(Coord::new(x, y), true);
    }
    for &(x, y) in &cells {
        assert!(w.get_cell(Coord::new(x, y)));
    }
    assert!(!w.get_cell(Coord::new(1, 0)));
    assert!(!w.get_cell(Coord::new(-1, 0)));
    let mut expected: Vec<(i32, i32)> = cells.to_vec();
    expected.sort();
    assert_eq!(sorted(w.iter_active_cells()), expected);
}

#[test]
fn world_cell_at_i32_limits() {
    let mut w = World::new();
    w.set_cell(Coord::new(i32::MIN, i32::MAX), true);
    w.set_cell(Coord::new(i32::MAX, i32::MIN), true);
    assert!(w.get_cell(Coord::new(i32::MIN, i32::MAX)));
    assert!(w.get_cell(Coord::new(i32::MAX, i32::MIN)));
    assert_eq!(
        w.get_bounds(),
        Some((Coord::new(i32::MIN, i32::MIN), Coord::new(i32::MAX, i32::MAX)))
    );
}

#[test]
fn killing_the_last_cell_drops_the_chunk() {
    let mut w = World::new();
    w.set_cell(Coord::new(5, 5), true);
    w.set_cell(Coord::new(5, 5), false);
    assert!(!w.get_cell(Coord::new(5, 5)));
    assert!(w.iter_active_cells().is_empty());
    assert!(w.iter_active_in_chunk(0, 0).is_empty());
    // The chunk was touched, so it is still dirty: its 3 x 3 neighbourhood
    // is a candidate.
    assert_eq!(w.candidate_chunk_coords().len(), 9);
}

#[test]
fn killing_a_dead_cell_changes_nothing() {
    let mut w = World::new();
    w.set_cell(Coord::new(5, 5), false);
    assert!(w.iter_active_cells().is_empty());
    assert!(w.candidate_chunk_coords().is_empty());
}

#[test]
fn world_bounds() {
    let mut w = World::new();
    w.set_cell(Coord::new(1, 2), true);
    w.set_cell(Coord::new(-5, 10), true);
    w.set_cell(Coord::new(3, -4), true);
    assert_eq!(w.get_bounds(), Some((Coord::new(-5, -4), Coord::new(3, 10))));
}

#[test]
fn world_clear() {
    let mut w = World::new();
    w.set_cell(Coord::new(1, 2), true);
    w.set_cell(Coord::new(-100, 7), true);
    w.clear();
    assert!(w.iter_active_cells().is_empty());
    assert_eq!(w.get_bounds(), None);
    assert!(w.candidate_chunk_coords().is_empty());
}

#[test]
fn world_count_neighbors() {
    let mut w = World::new();
    // A block straddling the chunk corner at the origin.
    for &(x, y) in &[(-1, -1), (0, -1), (-1, 0), (0, 0)] {
        w.set_cell(Coord::new(x, y), true);
    }
    assert_eq!(w.count_neighbors(Coord::new(0, 0)), 3);
    assert_eq!(w.count_neighbors(Coord::new(1, 0)), 2);
    assert_eq!(w.count_neighbors(Coord::new(1, 1)), 1);
    assert_eq!(w.count_neighbors(Coord::new(2, 2)), 0);
    assert_eq!(w.count_neighbors(Coord::new(-2, -1)), 2);
}

#[test]
fn world_candidate_chunks_are_dirty_neighbourhoods() {
    let mut w = World::new();
    w.set_cell(Coord::new(0, 0), true);
    w.set_cell(Coord::new(130, 0), true);
    let mut chunks = w.candidate_chunk_coords();
    chunks.sort();
    let mut expected = Vec::new();
    for cx in -1..=3 {
        for cy in -1..=1 {
            expected.push((cx, cy));
        }
    }
    expected.sort();
    assert_eq!(chunks, expected);
}

#[test]
fn world_iter_active_in_chunk() {
    let mut w = World::new();
    w.set_cell(Coord::new(-1, -1), true);
    w.set_cell(Coord::new(-64, -1), true);
    w.set_cell(Coord::new(-3, -60), true);
    w.set_cell(Coord::new(0, 0), true);
    assert_eq!(
        w.iter_active_in_chunk(-1, -1),
        vec![Coord::new(-3, -60), Coord::new(-64, -1), Coord::new(-1, -1)]
    );
    assert_eq!(w.iter_active_in_chunk(0, 0), vec![Coord::new(0, 0)]);
    assert!(w.iter_active_in_chunk(5, 5).is_empty());
}

#[test]
fn world_recompute_dirty_marks_changed_chunks() {
    let mut before = World::new();
    before.set_cell(Coord::new(1, 1), true);
    before.set_cell(Coord::new(100, 1), true);
    before.set_cell(Coord::new(300, 1), true);
    let mut after = before.clone();
    after.set_cell(Coord::new(100, 1), false);
    after.set_cell(Coord::new(-100, 1), true);
    after.recompute_dirty(&before);
    // Chunk (1, 0) lost its cell and chunk (-2, 0) gained one; the others are
    // unchanged, so the candidates are the neighbourhoods of those two.
    let mut chunks = after.candidate_chunk_coords();
    chunks.sort();
    let mut expected = Vec::new();
    for cx in [-3, -2, -1, 0, 1, 2] {
        for cy in -1..=1 {
            expected.push((cx, cy));
        }
    }
    expected.sort();
    assert_eq!(chunks, expected);
}

#[test]
fn world_recompute_dirty_against_itself_is_clean() {
    let mut w = World::new();
    w.set_cell(Coord::new(1, 1), true);
    w.set_cell(Coord::new(-70, 3), true);
    let copy = w.clone();
    w.recompute_dirty(&copy);
    // Nothing is dirty, so every stored chunk is a seed.
    let mut chunks = w.candidate_chunk_coords();
    chunks.sort();
    let mut expected = Vec::new();
    for cx in -3..=1 {
        for cy in -1..=1 {
            expected.push((cx, cy));
        }
    }
    expected.sort();
    assert_eq!(chunks, expected);
}

#[test]
fn world_clone_is_equal() {
    let mut w = World::new();
    w.set_cell(Coord::new(7, -7), true);
    let c = w.clone();
    assert!(c.get_cell(Coord::new(7, -7)));
    assert_eq!(sorted(c.iter_active_cells()), vec![(7, -7)]);
}

#[test]
fn recompute_dirty_keeps_equal_chunks_clean() {
    let mut w = World::new();
    w.set_cell(Coord::new(0, 0), true);
    w.set_cell(Coord::new(200, 0), true);
    let mut p = World::new();
    p.set_cell(Coord::new(0, 0), true);
    w.recompute_dirty(&p);
    let mut chunks = w.candidate_chunk_coords();
    chunks.sort();
    let mut expected = Vec::new();
    for cx in 2..=4 {
        for cy in -1..=1 {
            expected.push((cx, cy));
        }
    }
    assert_eq!(chunks, expected);
}

#[test]
fn last_set_cell_wins() {
    let mut w = World::new();
    let a = Coord::new(3, 3);
    let b = Coord::new(-3, 70);
    w.set_cell(a, true);
    w.set_cell(b, true);
    w.set_cell(a, false);
    w.set_cell(b, true);
    w.set_cell(a, true);
    w.set_cell(b, false);
    assert!(w.get_cell(a));
    assert!(!w.get_cell(b));
    assert!(!w.get_cell(Coord::new(3, 4)));
}
