use cellular_automata::chunks::Chunk;

#[test]
fn new_chunk_is_empty() {
    let chunk = Chunk::new();
    assert!(chunk.is_empty());
    assert_eq!(chunk.active_count(), 0);
    assert!(chunk.iter_active().is_empty());
}

#[test]
fn chunk_set_then_get() {
    let mut chunk = Chunk::new();
    chunk.set_cell(3, 5, true);
    assert!(chunk.get_cell(3, 5));
    assert!(!chunk.get_cell(5, 3));
    assert!(!chunk.is_empty());
    chunk.set_cell(3, 5, false);
    assert!(!chunk.get_cell(3, 5));
    assert!(chunk.is_empty());
}

#[test]
fn chunk_corners() {
    let mut chunk = Chunk::new();
    chunk.set_cell(0, 0, true);
    chunk.set_cell(63, 0, true);
    chunk.set_cell(0, 63, true);
    chunk.set_cell(63, 63, true);
    assert_eq!(chunk.active_count(), 4);
    assert_eq!(chunk.iter_active(), vec![(0, 0), (63, 0), (0, 63), (63, 63)]);
}

#[test]
fn chunk_active_count_counts_each_cell_once() {
    let mut chunk = Chunk::new();
    for x in 0..64 {
        chunk.set_cell(x, 7, true);
    }
    chunk.set_cell(10, 7, true);
    chunk.set_cell(1, 8, true);
    assert_eq!(chunk.active_count(), 65);
}

#[test]
fn chunk_iter_active_is_row_major() {
    let mut chunk = Chunk::new();
    chunk.set_cell(40, 2, true);
    chunk.set_cell(5, 9, true);
    chunk.set_cell(1, 2, true);
    chunk.set_cell(63, 1, true);
    assert_eq!(chunk.iter_active(), vec![(63, 1), (1, 2), (40, 2), (5, 9)]);
}

#[test]
fn chunk_clear_kills_everything() {
    let mut chunk = Chunk::new();
    chunk.set_cell(12, 34, true);
    chunk.set_cell(0, 1, true);
    chunk.clear();
    assert!(chunk.is_empty());
    assert_eq!(chunk.active_count(), 0);
}

#[test]
fn chunk_equality_is_by_cells() {
    let mut a = Chunk::new();
    let mut b = Chunk::default();
    assert!(a == b);
    a.set_cell(1, 1, true);
    assert!(a != b);
    b.set_cell(1, 1, true);
    assert!(a == b);
    a.set_cell(2, 1, true);
    a.set_cell(2, 1, false);
    assert!(a == b);
}
