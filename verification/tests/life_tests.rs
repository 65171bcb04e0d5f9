use cellular_automata::coords::Coord;
use cellular_automata::life_rule::LifeRule;
use cellular_automata::world::World;

fn world_of(cells: &[(i32, i32)]) -> World {
    let mut w = World::new();
    for &(x, y) in cells {
        w.set_cell(Coord::new(x, y), true);
    }
    w
}

fn cells_of(w: &World) -> Vec<(i32, i32)> {
    let mut v: Vec<(i32, i32)> = w.iter_active_cells().into_iter().map(|c| (c.x, c.y)).collect();
    v.sort();
    v
}

fn step(w: &World) -> World {
    let rule = LifeRule::new();
    assert!(rule.can_apply(w));
    let mut next = World::new();
    rule.apply_into(w, &mut next);
    next
}

#[test]
fn blinker_oscillates() {
    let w = world_of(&[(0, 0), (1, 0), (2, 0)]);
    let w1 = step(&w);
    assert_eq!(cells_of(&w1), vec![(1, -1), (1, 0), (1, 1)]);
    let w2 = step(&w1);
    assert_eq!(cells_of(&w2), vec![(0, 0), (1, 0), (2, 0)]);
}

#[test]
fn blinker_across_chunk_borders() {
    let w = world_of(&[(63, -1), (63, 0), (63, 1)]);
    let w1 = step(&w);
    assert_eq!(cells_of(&w1), vec![(62, 0), (63, 0), (64, 0)]);
}

#[test]
fn block_is_still() {
    let block = [(-1, -1), (-1, 0), (0, -1), (0, 0)];
    let w = world_of(&block);
    let w1 = step(&w);
    assert_eq!(cells_of(&w1), cells_of(&w));
}

#[test]
fn glider_moves_diagonally() {
    let glider = [(1, 0), (2, 1), (0, 2), (1, 2), (2, 2)];
    let mut w = world_of(&glider);
    for _ in 0..4 {
        w = step(&w);
    }
    let mut expected: Vec<(i32, i32)> = glider.iter().map(|&(x, y)| (x + 1, y + 1)).collect();
    expected.sort();
    assert_eq!(cells_of(&w), expected);
}

#[test]
fn lone_cell_dies_and_empty_stays_empty() {
    let w = world_of(&[(10, 10)]);
    let w1 = step(&w);
    assert!(cells_of(&w1).is_empty());
    let w2 = step(&w1);
    assert!(cells_of(&w2).is_empty());
}

#[test]
fn next_generation_marks_changed_chunks_dirty() {
    // The blinker changes chunk (0, 0) and reaches into chunk (0, -1); the
    // block far away keeps its chunk as it was.
    let w = world_of(&[(0, 0), (1, 0), (2, 0), (1000, 1000), (1001, 1000), (1000, 1001), (1001, 1001)]);
    let w1 = step(&w);
    let mut chunks = w1.candidate_chunk_coords();
    chunks.sort();
    let mut expected = Vec::new();
    for cx in -1..=1 {
        for cy in -2..=1 {
            expected.push((cx, cy));
        }
    }
    assert_eq!(chunks, expected);
    assert_eq!(
        cells_of(&w1),
        vec![(1, -1), (1, 0), (1, 1), (1000, 1000), (1000, 1001), (1001, 1000), (1001, 1001)]
    );
}

#[test]
fn cells_far_from_dirty_chunks_are_not_carried_over() {
    // Only the chunks near a dirty chunk are looked at, so once the block's
    // chunk is clean its cells are not copied into the next board.
    let w = world_of(&[(0, 0), (1, 0), (2, 0), (1000, 1000), (1001, 1000), (1000, 1001), (1001, 1001)]);
    let w1 = step(&w);
    let w2 = step(&w1);
    assert_eq!(cells_of(&w2), vec![(0, 0), (1, 0), (2, 0)]);
}

#[test]
fn survivor_applies_the_rule() {
    let w = world_of(&[(0, 0), (1, 0), (2, 0)]);
    assert_eq!(LifeRule::survivor(&w, Coord::new(1, 0)), Some(Coord::new(1, 0)));
    assert_eq!(LifeRule::survivor(&w, Coord::new(0, 0)), None);
    assert_eq!(LifeRule::survivor(&w, Coord::new(1, 1)), Some(Coord::new(1, 1)));
    assert_eq!(LifeRule::survivor(&w, Coord::new(0, 1)), None);
}

#[test]
fn can_apply_refuses_the_edge_of_the_plane() {
    let rule = LifeRule::default();
    let w = world_of(&[(i32::MAX, 0)]);
    assert!(!rule.can_apply(&w));
    let w = world_of(&[(i32::MAX - 2, 0)]);
    assert!(!rule.can_apply(&w));
    let w = world_of(&[(i32::MAX - 64, 0)]);
    assert!(rule.can_apply(&w));
    let w = world_of(&[(0, i32::MIN + 63)]);
    assert!(!rule.can_apply(&w));
    let w = world_of(&[(0, i32::MIN + 64)]);
    assert!(rule.can_apply(&w));
    let w = world_of(&[(0, i32::MIN + 128)]);
    assert!(rule.can_apply(&w));
}
