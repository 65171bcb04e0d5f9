//! The board: a sparse map from chunk keys to non-empty chunks, plus the set of
//! chunks that changed since the last generation.
use std::collections::HashMap;
use std::collections::HashSet;
use vstd::prelude::*;
use crate::chunks::{Chunk, CHUNK_SIZE, row_major_lt};
use crate::coords::{Coord, row_major_before, neighbor_offset, has_all_neighbors, within_one, lemma_neighbor_offsets};
use crate::morton::{morton_key, morton_point, morton_encode, morton_decode, lemma_morton_point_of_key, lemma_morton_key_of_point};

verus! {

broadcast use vstd::std_specs::hash::group_hash_axioms;

/// The chunk that holds cell `p` (Euclidean division by the chunk side).
pub open spec fn chunk_of(p: (int, int)) -> (int, int) {
    (p.0 / 64, p.1 / 64)
}

/// The position of cell `p` inside its chunk.
pub open spec fn local_of(p: (int, int)) -> (int, int) {
    (p.0 % 64, p.1 % 64)
}

/// Whether both coordinates of `p` fit in an `i32`.
pub open spec fn in_i32(p: (int, int)) -> bool {
    i32::MIN <= p.0 <= i32::MAX && i32::MIN <= p.1 <= i32::MAX
}

/// Whether `c` is the chunk of some `i32` cell, i.e. `64 * c` fits in an `i32`.
pub open spec fn chunk_in_range(c: (int, int)) -> bool {
    -0x200_0000 <= c.0 < 0x200_0000 && -0x200_0000 <= c.1 < 0x200_0000
}

/// The map key of chunk `c`.
pub open spec fn chunk_key(c: (int, int)) -> u64 {
    morton_key(c.0 as i32, c.1 as i32)
}

/// The chunk whose key is `k`.
pub open spec fn key_chunk(k: u64) -> (int, int) {
    (morton_point(k).0 as int, morton_point(k).1 as int)
}

/// Every `i32` cell lies in a chunk in range, and that chunk's key names it.
pub proof fn lemma_chunk_of_cell(p: (int, int))
    requires
        in_i32(p),
    ensures
        chunk_in_range(chunk_of(p)),
        key_chunk(chunk_key(chunk_of(p))) == chunk_of(p),
        0 <= local_of(p).0 < 64,
        0 <= local_of(p).1 < 64,
        p.0 == 64 * chunk_of(p).0 + local_of(p).0,
        p.1 == 64 * chunk_of(p).1 + local_of(p).1,
{
    let c = chunk_of(p);
    lemma_morton_point_of_key(c.0 as i32, c.1 as i32);
}

/// Chunk keys name chunks one to one.
pub proof fn lemma_chunk_key_injective(c: (int, int), d: (int, int))
    requires
        chunk_in_range(c),
        chunk_in_range(d),
        chunk_key(c) == chunk_key(d),
    ensures
        c == d,
{
    lemma_morton_point_of_key(c.0 as i32, c.1 as i32);
    lemma_morton_point_of_key(d.0 as i32, d.1 as i32);
}

/// A cell is determined by its chunk and its position in the chunk.
pub proof fn lemma_cell_from_parts(p: (int, int), q: (int, int))
    requires
        chunk_of(p) == chunk_of(q),
        local_of(p) == local_of(q),
    ensures
        p == q,
{
}

/// The cells of `chunk`, placed in the chunk at `(chunk_x, chunk_y)`, in
/// row-major order.
fn cells_of_chunk(chunk: &Chunk, chunk_x: i32, chunk_y: i32) -> (r: Vec<Coord>)
    requires
        chunk_in_range((chunk_x as int, chunk_y as int)),
    ensures
        forall|i: int|
            0 <= i < r.len() ==> chunk_of(r[i]@) == (chunk_x as int, chunk_y as int)
                && chunk.cells().contains(local_of(r[i]@)),
        forall|l: (int, int)| #[trigger]
            chunk.cells().contains(l) ==> exists|i: int|
                0 <= i < r.len() && r[i]@ == (64 * chunk_x + l.0, 64 * chunk_y + l.1),
        forall|i: int, j: int| 0 <= i < j < r.len() ==> row_major_before(r[i]@, r[j]@),
{
    let offset_x = chunk_x * CHUNK_SIZE;
    let offset_y = chunk_y * CHUNK_SIZE;
    let locals = chunk.iter_active();
    proof {
        chunk.lemma_cells_in_bounds();
    }
    let mut out: Vec<Coord> = Vec::new();
    let mut i: usize = 0;
    while i < locals.len()
        invariant
            i <= locals.len(),
            offset_x == 64 * chunk_x,
            offset_y == 64 * chunk_y,
            chunk_in_range((chunk_x as int, chunk_y as int)),
            out.len() == i,
            forall|p: (int, int)| #[trigger]
                chunk.cells().contains(p) ==> 0 <= p.0 < 64 && 0 <= p.1 < 64,
            forall|j: int| 0 <= j < locals.len() ==> chunk.cells().contains(
                (locals[j].0 as int, locals[j].1 as int),
            ),
            forall|j: int, k: int| 0 <= j < k < locals.len() ==> row_major_lt(locals[j], locals[k]),
            forall|j: int|
                0 <= j < i ==> out[j]@ == (offset_x + locals[j].0, offset_y + locals[j].1),
        decreases locals.len() - i,
    {
        let (lx, ly) = locals[i];
        assert(chunk.cells().contains((lx as int, ly as int)));
        out.push(Coord::new(offset_x + lx, offset_y + ly));
        i += 1;
    }
    assert forall|i: int, j: int| 0 <= i < j < out.len() implies row_major_before(out[i]@, out[j]@) by {
        assert(row_major_lt(locals[i], locals[j]));
    }
    assert forall|l: (int, int)| #[trigger]
        chunk.cells().contains(l) implies exists|i: int|
            0 <= i < out.len() && out[i]@ == (64 * chunk_x + l.0, 64 * chunk_y + l.1) by {
        let j = choose|j: int| 0 <= j < locals.len() && locals[j].0 == l.0 && locals[j].1 == l.1;
        assert(out[j]@ == (64 * chunk_x + l.0, 64 * chunk_y + l.1));
    }
    out
}

/// The keys of `m`, once each, in the map's own order.
fn map_keys(m: &HashMap<u64, Chunk>) -> (r: Vec<u64>)
    ensures
        r@.no_duplicates(),
        forall|k: u64| #[trigger] m@.contains_key(k) <==> r@.contains(k),
{
    let mut out: Vec<u64> = Vec::new();
    for k in it: m.keys()
        invariant
            it.seq().unref().to_set() == m@.dom(),
            it.seq().unref().no_duplicates(),
            out@ == it.seq().unref().take(it.index()),
            out@.no_duplicates(),
            forall|k: u64| out@.contains(k) ==> m@.contains_key(k),
            forall|k: u64|
                m@.contains_key(k) ==> out@.contains(k) || exists|j: int|
                    it.index() <= j < it.seq().len() && it.seq().unref()[j] == k,
    {
        proof {
            let s = it.seq().unref();
            let i = it.index();
            let new_out = out@.push(*k);
            assert(s[i] == *k);
            assert(s.contains(*k));
            assert(!out@.contains(*k)) by {
                if out@.contains(*k) {
                    let j = choose|j: int| 0 <= j < out@.len() && out@[j] == *k;
                    assert(s[j] == s[i]);
                }
            }
            assert(new_out =~= s.take(i + 1));
            assert forall|kk: u64|
                m@.contains_key(kk) implies new_out.contains(kk) || exists|j: int|
                    i + 1 <= j < s.len() && s[j] == kk by {
                if !out@.contains(kk) {
                    let j = choose|j: int| i <= j < s.len() && s[j] == kk;
                    if j == i {
                        assert(new_out[i] == kk);
                    }
                } else {
                    let j = choose|j: int| 0 <= j < out@.len() && out@[j] == kk;
                    assert(new_out[j] == kk);
                }
            }
            assert forall|kk: u64| new_out.contains(kk) implies m@.contains_key(kk) by {
                let j = choose|j: int| 0 <= j < new_out.len() && new_out[j] == kk;
                if j < out@.len() {
                    assert(out@[j] == kk);
                }
            }
        }
        out.push(*k);
    }
    out
}

/// The elements of `m`, once each, in the set's own order.
fn set_keys(m: &HashSet<u64>) -> (r: Vec<u64>)
    ensures
        r@.no_duplicates(),
        forall|k: u64| #[trigger] m@.contains(k) <==> r@.contains(k),
{
    let mut out: Vec<u64> = Vec::new();
    for k in it: m.iter()
        invariant
            it.seq().unref().to_set() == m@,
            it.seq().unref().no_duplicates(),
            out@ == it.seq().unref().take(it.index()),
            out@.no_duplicates(),
            forall|k: u64| out@.contains(k) ==> m@.contains(k),
            forall|k: u64|
                m@.contains(k) ==> out@.contains(k) || exists|j: int|
                    it.index() <= j < it.seq().len() && it.seq().unref()[j] == k,
    {
        proof {
            let s = it.seq().unref();
            let i = it.index();
            let new_out = out@.push(*k);
            assert(s[i] == *k);
            assert(s.contains(*k));
            assert(!out@.contains(*k)) by {
                if out@.contains(*k) {
                    let j = choose|j: int| 0 <= j < out@.len() && out@[j] == *k;
                    assert(s[j] == s[i]);
                }
            }
            assert(new_out =~= s.take(i + 1));
            assert forall|kk: u64|
                m@.contains(kk) implies new_out.contains(kk) || exists|j: int|
                    i + 1 <= j < s.len() && s[j] == kk by {
                if !out@.contains(kk) {
                    let j = choose|j: int| i <= j < s.len() && s[j] == kk;
                    if j == i {
                        assert(new_out[i] == kk);
                    }
                } else {
                    let j = choose|j: int| 0 <= j < out@.len() && out@[j] == kk;
                    assert(new_out[j] == kk);
                }
            }
            assert forall|kk: u64| new_out.contains(kk) implies m@.contains(kk) by {
                let j = choose|j: int| 0 <= j < new_out.len() && new_out[j] == kk;
                if j < out@.len() {
                    assert(out@[j] == kk);
                }
            }
        }
        out.push(*k);
    }
    out
}

/// The number of live cells in `s` among the first `n` neighbours of `p`, in
/// the order of `neighbor_offset`.
pub open spec fn live_neighbors_upto(s: Set<(int, int)>, p: (int, int), n: int) -> nat
    decreases n,
{
    if n <= 0 {
        0
    } else {
        live_neighbors_upto(s, p, n - 1) + if s.contains(
            (p.0 + neighbor_offset(n - 1).0, p.1 + neighbor_offset(n - 1).1),
        ) {
            1nat
        } else {
            0nat
        }
    }
}

/// The number of live cells in `s` among the 8 neighbours of `p`.
pub open spec fn live_neighbors(s: Set<(int, int)>, p: (int, int)) -> nat {
    live_neighbors_upto(s, p, 8)
}

/// `seen` holds exactly the keys of the chunks listed in `out`, and `out`
/// lists no chunk twice.
spec fn lists_keys(seen: Set<u64>, out: Seq<(i32, i32)>) -> bool {
    &&& forall|k: u64|
        seen.contains(k) <==> exists|i: int|
            0 <= i < out.len() && k == morton_key(#[trigger] out[i].0, out[i].1)
    &&& forall|i: int, j: int| 0 <= i < j < out.len() ==> out[i] != out[j]
}

/// Appends chunk `c` to `out` unless `seen` says it is listed already.
fn add_chunk(seen: &mut HashSet<u64>, out: &mut Vec<(i32, i32)>, c: (i32, i32))
    requires
        lists_keys(old(seen)@, old(out)@),
    ensures
        lists_keys(final(seen)@, final(out)@),
        final(out)@ == if old(out)@.contains(c) {
            old(out)@
        } else {
            old(out)@.push(c)
        },
{
    let code = morton_encode(c.0, c.1);
    let ghost old_out = out@;
    if seen.insert(code) {
        proof {
            assert(!old_out.contains(c)) by {
                if old_out.contains(c) {
                    let i = choose|i: int| 0 <= i < old_out.len() && old_out[i] == c;
                    assert(old(seen)@.contains(code));
                }
            }
        }
        out.push(c);
        proof {
            assert forall|k: u64|
                seen@.contains(k) <==> exists|i: int|
                    0 <= i < out@.len() && k == morton_key(#[trigger] out@[i].0, out@[i].1) by {
                if seen@.contains(k) && k != code {
                    let i = choose|i: int|
                        0 <= i < old_out.len() && k == morton_key(old_out[i].0, old_out[i].1);
                    assert(out@[i] == old_out[i]);
                }
                if k == code {
                    assert(out@[old_out.len() as int] == c);
                }
                if exists|i: int| 0 <= i < out@.len() && k == morton_key(#[trigger] out@[i].0, out@[i].1) {
                    let i = choose|i: int|
                        0 <= i < out@.len() && k == morton_key(out@[i].0, out@[i].1);
                    if i < old_out.len() {
                        assert(out@[i] == old_out[i]);
                    }
                }
            }
        }
    } else {
        proof {
            let i = choose|i: int|
                0 <= i < old_out.len() && code == morton_key(old_out[i].0, old_out[i].1);
            crate::morton::lemma_morton_key_injective(c.0, c.1, old_out[i].0, old_out[i].1);
            assert(old_out[i] == c);
            assert(old_out.contains(c));
        }
    }
}

/// The 8 cells around `p`: those within one step of it in each direction,
/// other than `p` itself.
pub open spec fn neighborhood(p: (int, int)) -> Set<(int, int)> {
    Set::new(|q: (int, int)| within_one(p, q) && q != p)
}

/// The cells `p + neighbor_offset(i)` for `i < n`.
spec fn first_neighbors(p: (int, int), n: int) -> Set<(int, int)> {
    Set::new(
        |q: (int, int)|
            exists|i: int|
                0 <= i < n && q == (p.0 + #[trigger] neighbor_offset(i).0, p.1 + neighbor_offset(
                    i,
                ).1),
    )
}

proof fn lemma_count_first_neighbors(s: Set<(int, int)>, p: (int, int), n: int)
    requires
        0 <= n <= 8,
    ensures
        first_neighbors(p, n).finite(),
        live_neighbors_upto(s, p, n) == s.intersect(first_neighbors(p, n)).len(),
    decreases n,
{
    lemma_neighbor_offsets();
    if n == 0 {
        assert(first_neighbors(p, 0) =~= Set::<(int, int)>::empty());
        assert(s.intersect(first_neighbors(p, 0)) =~= Set::<(int, int)>::empty());
    } else {
        lemma_count_first_neighbors(s, p, n - 1);
        let q = (p.0 + neighbor_offset(n - 1).0, p.1 + neighbor_offset(n - 1).1);
        let prev = first_neighbors(p, n - 1);
        assert(first_neighbors(p, n) =~= prev.insert(q)) by {
            assert forall|r: (int, int)| first_neighbors(p, n).contains(r) implies prev.insert(q).contains(r) by {
                let i = choose|i: int|
                    0 <= i < n && r == (p.0 + #[trigger] neighbor_offset(i).0, p.1 + neighbor_offset(i).1);
                if i < n - 1 {
                    assert(prev.contains(r));
                }
            }
        }
        assert(!prev.contains(q)) by {
            if prev.contains(q) {
                let i = choose|i: int|
                    0 <= i < n - 1 && q == (p.0 + #[trigger] neighbor_offset(i).0, p.1 + neighbor_offset(i).1);
                assert(neighbor_offset(i) == neighbor_offset(n - 1));
            }
        }
        vstd::set_lib::lemma_len_intersect(prev, s);
        assert(s.intersect(prev).finite()) by {
            assert(s.intersect(prev) =~= prev.intersect(s));
        }
        if s.contains(q) {
            assert(s.intersect(first_neighbors(p, n)) =~= s.intersect(prev).insert(q));
        } else {
            assert(s.intersect(first_neighbors(p, n)) =~= s.intersect(prev));
        }
    }
}

/// The number of live neighbours of `p` is the number of live cells among
/// the 8 cells around it.
pub proof fn lemma_live_neighbors_count(s: Set<(int, int)>, p: (int, int))
    ensures
        neighborhood(p).finite(),
        neighborhood(p).len() == 8,
        live_neighbors(s, p) == s.intersect(neighborhood(p)).len(),
{
    lemma_neighbor_offsets();
    lemma_count_first_neighbors(s, p, 8);
    lemma_count_first_neighbors(neighborhood(p), p, 8);
    assert(first_neighbors(p, 8) =~= neighborhood(p)) by {
        assert forall|q: (int, int)| neighborhood(p).contains(q) implies first_neighbors(p, 8).contains(q) by {
            let d = (q.0 - p.0, q.1 - p.1);
            assert(within_one((0, 0), d) && d != (0int, 0int));
            let i = choose|i: int| 0 <= i < 8 && #[trigger] neighbor_offset(i) == d;
        }
        assert forall|q: (int, int)| first_neighbors(p, 8).contains(q) implies neighborhood(p).contains(q) by {
            let i = choose|i: int|
                0 <= i < 8 && q == (p.0 + #[trigger] neighbor_offset(i).0, p.1 + neighbor_offset(i).1);
            assert(within_one((0, 0), neighbor_offset(i)) && neighbor_offset(i) != (0int, 0int));
        }
    }
    assert(neighborhood(p).intersect(neighborhood(p)) =~= neighborhood(p));
    reveal_with_fuel(live_neighbors_upto, 9);
    assert(live_neighbors_upto(neighborhood(p), p, 8) == 8) by {
        assert forall|i: int| 0 <= i < 8 implies neighborhood(p).contains(
            (p.0 + #[trigger] neighbor_offset(i).0, p.1 + neighbor_offset(i).1),
        ) by {
        }
    }
}

/// A cell has at most 8 live neighbours.
pub proof fn lemma_live_neighbors_bound(s: Set<(int, int)>, p: (int, int), n: int)
    requires
        0 <= n,
    ensures
        live_neighbors_upto(s, p, n) <= n,
    decreases n,
{
    if n > 0 {
        lemma_live_neighbors_bound(s, p, n - 1);
    }
}

/// After `set_cell(p, alive)` the cell `p` reads `alive` and every other cell
/// reads as before.
pub proof fn lemma_world_get_after_set(
    before: World,
    after: World,
    p: (int, int),
    alive: bool,
    q: (int, int),
)
    requires
        after.cells() == if alive {
            before.cells().insert(p)
        } else {
            before.cells().remove(p)
        },
    ensures
        after.cells().contains(p) == alive,
        q != p ==> after.cells().contains(q) == before.cells().contains(q),
{
}

/// The live cells after `set_cell(c, alive)` for each `(c, alive)` of `ops`
/// in order, from the live cells `s`.
pub open spec fn cells_after_sets(s: Set<(int, int)>, ops: Seq<(Coord, bool)>) -> Set<(int, int)>
    decreases ops.len(),
{
    if ops.len() == 0 {
        s
    } else {
        let prev = cells_after_sets(s, ops.drop_last());
        if ops.last().1 {
            prev.insert(ops.last().0@)
        } else {
            prev.remove(ops.last().0@)
        }
    }
}

/// After a run of `set_cell` calls a cell reads what the last call on it
/// wrote, and what it read before when no call touched it.
pub proof fn lemma_last_set_wins(s: Set<(int, int)>, ops: Seq<(Coord, bool)>, p: (int, int))
    ensures
        (forall|i: int| 0 <= i < ops.len() ==> (#[trigger] ops[i]).0@ != p) ==> cells_after_sets(
            s,
            ops,
        ).contains(p) == s.contains(p),
        forall|i: int|
            0 <= i < ops.len() && (#[trigger] ops[i]).0@ == p && (forall|j: int|
                i < j < ops.len() ==> (#[trigger] ops[j]).0@ != p) ==> cells_after_sets(
                s,
                ops,
            ).contains(p) == ops[i].1,
    decreases ops.len(),
{
    if ops.len() > 0 {
        let init = ops.drop_last();
        lemma_last_set_wins(s, init, p);
        assert forall|i: int|
            0 <= i < ops.len() && (#[trigger] ops[i]).0@ == p && (forall|j: int|
                i < j < ops.len() ==> (#[trigger] ops[j]).0@ != p) implies cells_after_sets(
            s,
            ops,
        ).contains(p) == ops[i].1 by {
            if i < ops.len() - 1 {
                assert(ops[ops.len() - 1].0@ != p);
                assert(init[i] == ops[i]);
                assert forall|j: int| i < j < init.len() implies (#[trigger] init[j]).0@ != p by {
                    assert(init[j] == ops[j]);
                }
            }
        }
        if forall|i: int| 0 <= i < ops.len() ==> (#[trigger] ops[i]).0@ != p {
            assert forall|i: int| 0 <= i < init.len() implies (#[trigger] init[i]).0@ != p by {
                assert(init[i] == ops[i]);
            }
            assert(ops[ops.len() - 1].0@ != p);
        }
    }
}

/// Bringing a dead cell to life and killing it again gives back the same
/// live cells.
pub proof fn lemma_world_set_then_unset(w0: World, w1: World, w2: World, p: (int, int))
    requires
        !w0.cells().contains(p),
        w1.cells() == w0.cells().insert(p),
        w2.cells() == w1.cells().remove(p),
    ensures
        w2.cells() == w0.cells(),
{
    assert(w2.cells() =~= w0.cells());
}

/// `set_cell` keeps every stored chunk dirty when every stored chunk was
/// dirty before; with `World::new`, every board built by `set_cell` alone has
/// all its chunks dirty, so its next generation is computed in full (see
/// `lemma_apply_into_is_life_step`).
pub proof fn lemma_set_cell_keeps_chunks_dirty(
    before: World,
    after: World,
    p: (int, int),
    alive: bool,
)
    requires
        before.wf(),
        after.wf(),
        in_i32(p),
        before.chunk_keys().subset_of(before.dirty_keys()),
        after.cells() == if alive {
            before.cells().insert(p)
        } else {
            before.cells().remove(p)
        },
        after.dirty_keys() == if alive || before.chunk_keys().contains(chunk_key(chunk_of(p))) {
            before.dirty_keys().insert(chunk_key(chunk_of(p)))
        } else {
            before.dirty_keys()
        },
    ensures
        after.chunk_keys().subset_of(after.dirty_keys()),
{
    before.lemma_chunk_keys_from_cells();
    after.lemma_chunk_keys_from_cells();
    assert forall|k: u64| after.chunk_keys().contains(k) implies after.dirty_keys().contains(k) by {
        let q = choose|q: (int, int)| #[trigger]
            after.cells().contains(q) && chunk_key(chunk_of(q)) == k;
        if q != p {
            assert(before.cells().contains(q));
            assert(before.chunk_keys().contains(k));
        }
    }
}

/// Recomputing the dirty chunks of a board against an identical board marks
/// none.
pub proof fn lemma_recompute_dirty_against_itself(w: World)
    ensures
        Set::new(|k: u64| w.chunk_cells(k) != w.chunk_cells(k)) == Set::<u64>::empty(),
{
    assert(Set::new(|k: u64| w.chunk_cells(k) != w.chunk_cells(k)) =~= Set::<u64>::empty());
}

/// The set of live cells of a board, with the chunks that hold them.
#[derive(Debug)]
pub struct World {
    chunks: HashMap<u64, Chunk>,
    dirty: HashSet<u64>,
}

impl World {
    /// The live cells of the chunk with key `k` (none if it is not stored).
    pub closed spec fn chunk_cells(self, k: u64) -> Set<(int, int)> {
        if self.chunks@.contains_key(k) {
            self.chunks@[k].cells()
        } else {
            Set::empty()
        }
    }

    /// The live cells of the board.
    pub closed spec fn cells(self) -> Set<(int, int)> {
        Set::new(
            |p: (int, int)|
                in_i32(p) && self.chunk_cells(chunk_key(chunk_of(p))).contains(local_of(p)),
        )
    }

    /// The keys of the chunks that are stored.
    pub closed spec fn chunk_keys(self) -> Set<u64> {
        self.chunks@.dom()
    }

    /// The keys of the chunks marked as changed.
    pub closed spec fn dirty_keys(self) -> Set<u64> {
        self.dirty@
    }

    /// The representation invariant: every stored chunk holds a live cell, and
    /// every stored or dirty key names a chunk of `i32` cells.
    pub closed spec fn wf(self) -> bool {
        &&& forall|k: u64| #[trigger]
            self.chunks@.contains_key(k) ==> self.chunks@[k].cells() != Set::<(int, int)>::empty()
                && chunk_in_range(key_chunk(k))
        &&& forall|k: u64| #[trigger] self.dirty@.contains(k) ==> chunk_in_range(key_chunk(k))
    }

    pub fn new() -> (w: Self)
        ensures
            w.wf(),
            w.cells() == Set::<(int, int)>::empty(),
            w.chunk_keys() == Set::<u64>::empty(),
            w.dirty_keys() == Set::<u64>::empty(),
    {
        let w = Self { chunks: HashMap::new(), dirty: HashSet::new() };
        assert(w.cells() =~= Set::<(int, int)>::empty());
        w
    }

    /// Whether the cell at `coord` is alive.
    pub fn get_cell(&self, coord: Coord) -> (alive: bool)
        ensures
            alive == self.cells().contains((coord.x as int, coord.y as int)),
    {
        let (chunk_x, chunk_y) = coord.chunk_coord(CHUNK_SIZE);
        let (local_x, local_y) = coord.local_coord(CHUNK_SIZE);
        let key = morton_encode(chunk_x, chunk_y);
        proof {
            lemma_chunk_of_cell((coord.x as int, coord.y as int));
        }
        match self.chunks.get(&key) {
            Some(chunk) => chunk.get_cell(local_x, local_y),
            None => false,
        }
    }

    /// A live cell's chunk is stored, under the key that names it.
    pub proof fn lemma_cell_in_stored_chunk(self, p: (int, int))
        requires
            self.cells().contains(p),
        ensures
            in_i32(p),
            self.chunk_keys().contains(chunk_key(chunk_of(p))),
            key_chunk(chunk_key(chunk_of(p))) == chunk_of(p),
    {
        lemma_chunk_of_cell(p);
    }

    /// The cells of the chunk with key `k` are the live cells of the board
    /// that lie in the chunk `key_chunk(k)`, each taken by its position in
    /// that chunk.
    pub proof fn lemma_chunk_cells_from_cells(self, k: u64)
        requires
            self.wf(),
        ensures
            self.chunk_cells(k) == Set::new(
                |l: (int, int)|
                    0 <= l.0 < 64 && 0 <= l.1 < 64 && self.cells().contains(
                        (64 * key_chunk(k).0 + l.0, 64 * key_chunk(k).1 + l.1),
                    ),
            ),
    {
        let c = key_chunk(k);
        let target = Set::new(
            |l: (int, int)|
                0 <= l.0 < 64 && 0 <= l.1 < 64 && self.cells().contains(
                    (64 * c.0 + l.0, 64 * c.1 + l.1),
                ),
        );
        lemma_morton_key_of_point(k);
        assert(chunk_key(c) == k);
        assert forall|l: (int, int)| self.chunk_cells(k).contains(l) implies target.contains(l) by {
            let chunk = self.chunks@[k];
            chunk.lemma_cells_in_bounds();
            assert(chunk_in_range(c));
            let p = (64 * c.0 + l.0, 64 * c.1 + l.1);
            assert(in_i32(p));
            assert(chunk_of(p) == c);
            assert(local_of(p) == l);
            assert(self.cells().contains(p));
        }
        assert forall|l: (int, int)| target.contains(l) implies self.chunk_cells(k).contains(l) by {
            let p = (64 * c.0 + l.0, 64 * c.1 + l.1);
            assert(self.cells().contains(p));
            assert(chunk_of(p) == c);
            assert(local_of(p) == l);
        }
        assert(self.chunk_cells(k) =~= target);
    }

    /// Two well-formed boards with the same live cells store the same chunks,
    /// with the same cells in each.
    pub proof fn lemma_cells_determine_chunks(self, other: World)
        requires
            self.wf(),
            other.wf(),
            self.cells() == other.cells(),
        ensures
            self.chunk_keys() == other.chunk_keys(),
            forall|k: u64| #[trigger] self.chunk_cells(k) == other.chunk_cells(k),
    {
        self.lemma_chunk_keys_from_cells();
        other.lemma_chunk_keys_from_cells();
        assert forall|k: u64| #[trigger] self.chunk_cells(k) == other.chunk_cells(k) by {
            self.lemma_chunk_cells_from_cells(k);
            other.lemma_chunk_cells_from_cells(k);
        }
    }

    /// The stored chunks are exactly the chunks that hold a live cell.
    pub proof fn lemma_chunk_keys_from_cells(self)
        requires
            self.wf(),
        ensures
            self.chunk_keys() == Set::new(
                |k: u64| exists|p: (int, int)| #[trigger]
                    self.cells().contains(p) && chunk_key(chunk_of(p)) == k,
            ),
    {
        let target = Set::new(
            |k: u64| exists|p: (int, int)| #[trigger]
                self.cells().contains(p) && chunk_key(chunk_of(p)) == k,
        );
        assert forall|k: u64| self.chunk_keys().contains(k) implies target.contains(k) by {
            let chunk = self.chunks@[k];
            assert(chunk.cells() != Set::<(int, int)>::empty());
            let l = choose|l: (int, int)| chunk.cells().contains(l);
            if !chunk.cells().contains(l) {
                assert(chunk.cells() =~= Set::<(int, int)>::empty());
            }
            chunk.lemma_cells_in_bounds();
            let c = key_chunk(k);
            let p = (64 * c.0 + l.0, 64 * c.1 + l.1);
            assert(chunk_in_range(c));
            assert(in_i32(p));
            assert(chunk_of(p) == c);
            assert(local_of(p) == l);
            lemma_morton_key_of_point(k);
            assert(chunk_key(c) == k);
            assert(self.cells().contains(p));
        }
        assert forall|k: u64| target.contains(k) implies self.chunk_keys().contains(k) by {
            let p = choose|p: (int, int)| #[trigger]
                self.cells().contains(p) && chunk_key(chunk_of(p)) == k;
        }
        assert(self.chunk_keys() =~= target);
    }

    /// Makes the cell at `coord` alive or dead. Its chunk is created when a
    /// cell comes alive in it and dropped when its last cell dies, and it is
    /// marked dirty whenever it is touched.
    pub fn set_cell(&mut self, coord: Coord, alive: bool)
        requires
            old(self).wf(),
        ensures
            final(self).wf(),
            final(self).cells() == if alive {
                old(self).cells().insert((coord.x as int, coord.y as int))
            } else {
                old(self).cells().remove((coord.x as int, coord.y as int))
            },
            final(self).dirty_keys() == if alive || old(self).chunk_keys().contains(
                chunk_key(chunk_of((coord.x as int, coord.y as int))),
            ) {
                old(self).dirty_keys().insert(chunk_key(chunk_of((coord.x as int, coord.y as int))))
            } else {
                old(self).dirty_keys()
            },
    {
        let ghost p = (coord.x as int, coord.y as int);
        let (chunk_x, chunk_y) = coord.chunk_coord(CHUNK_SIZE);
        let (local_x, local_y) = coord.local_coord(CHUNK_SIZE);
        let key = morton_encode(chunk_x, chunk_y);
        proof {
            lemma_chunk_of_cell(p);
            assert(key == chunk_key(chunk_of(p)));
        }
        let ghost old_world = *self;
        if alive {
            let mut chunk = match self.chunks.remove(&key) {
                Some(c) => c,
                None => Chunk::new(),
            };
            assert(chunk.cells() == old_world.chunk_cells(key));
            chunk.set_cell(local_x, local_y, true);
            self.chunks.insert(key, chunk);
            self.dirty.insert(key);
        } else {
            match self.chunks.remove(&key) {
                Some(c) => {
                    let mut chunk = c;
                    chunk.set_cell(local_x, local_y, false);
                    self.dirty.insert(key);
                    if !chunk.is_empty() {
                        self.chunks.insert(key, chunk);
                    }
                },
                None => {},
            }
        }
        proof {
            let target = if alive {
                old_world.cells().insert(p)
            } else {
                old_world.cells().remove(p)
            };
            assert forall|k: u64| #[trigger] self.chunk_cells(k) == if k == key {
                if alive {
                    old_world.chunk_cells(k).insert(local_of(p))
                } else {
                    old_world.chunk_cells(k).remove(local_of(p))
                }
            } else {
                old_world.chunk_cells(k)
            } by {
                if k == key && !alive && !self.chunks@.contains_key(k)
                    && old_world.chunks@.contains_key(k) {
                    assert(old_world.chunk_cells(k).remove(local_of(p)) =~= Set::<(int, int)>::empty());
                }
            }
            assert forall|q: (int, int)| self.cells().contains(q) == target.contains(q) by {
                if in_i32(q) {
                    lemma_chunk_of_cell(q);
                    if chunk_key(chunk_of(q)) == key {
                        lemma_chunk_key_injective(chunk_of(q), chunk_of(p));
                        if local_of(q) == local_of(p) {
                            lemma_cell_from_parts(p, q);
                        }
                    }
                }
            }
            assert(self.cells() =~= target);
            assert(chunk_in_range(key_chunk(key)));
            assert forall|k: u64| #[trigger]
                self.chunks@.contains_key(k) implies self.chunks@[k].cells() != Set::<
                    (int, int),
                >::empty() && chunk_in_range(key_chunk(k)) by {
                if k == key && alive {
                    assert(self.chunk_cells(k).contains(local_of(p)));
                }
            }
        }
    }

    /// Every live cell, once each, in an order that depends on the hash map.
    pub fn iter_active_cells(&self) -> (r: Vec<Coord>)
        requires
            self.wf(),
        ensures
            forall|i: int| 0 <= i < r.len() ==> self.cells().contains(r[i]@),
            forall|p: (int, int)| #[trigger]
                self.cells().contains(p) ==> exists|i: int| 0 <= i < r.len() && r[i]@ == p,
            forall|i: int, j: int| 0 <= i < j < r.len() ==> r[i]@ != r[j]@,
    {
        let keys = map_keys(&self.chunks);
        let mut out: Vec<Coord> = Vec::new();
        let mut n: usize = 0;
        while n < keys.len()
            invariant
                self.wf(),
                n <= keys.len(),
                keys@.no_duplicates(),
                forall|k: u64| #[trigger] self.chunks@.contains_key(k) <==> keys@.contains(k),
                forall|i: int|
                    0 <= i < out.len() ==> self.cells().contains(out[i]@) && exists|j: int|
                        0 <= j < n && keys[j] == chunk_key(chunk_of(out[i]@)),
                forall|p: (int, int)| #[trigger]
                    self.cells().contains(p) ==> (exists|i: int| 0 <= i < out.len() && out[i]@ == p)
                        || (exists|j: int| n <= j < keys.len() && keys[j] == chunk_key(chunk_of(p))),
                forall|i: int, j: int| 0 <= i < j < out.len() ==> out[i]@ != out[j]@,
            decreases keys.len() - n,
        {
            let key = keys[n];
            let (chunk_x, chunk_y) = morton_decode(key);
            proof {
                assert(keys@.contains(key));
                assert(self.chunks@.contains_key(key));
                assert(chunk_in_range(key_chunk(key)));
                lemma_morton_key_of_point(key);
            }
            let chunk = match self.chunks.get(&key) {
                Some(c) => c,
                None => {
                    proof {
                        assert(false);
                    }
                    return out;
                },
            };
            let ghost old_out = out@;
            let cells = cells_of_chunk(chunk, chunk_x, chunk_y);
            let mut m: usize = 0;
            while m < cells.len()
                invariant
                    m <= cells.len(),
                    out.len() == old_out.len() + m,
                    forall|i: int| 0 <= i < old_out.len() ==> out[i] == old_out[i],
                    forall|i: int| 0 <= i < m ==> out[old_out.len() + i] == cells[i],
                decreases cells.len() - m,
            {
                out.push(cells[m]);
                m += 1;
            }
            proof {
                let c = (chunk_x as int, chunk_y as int);
                assert(key_chunk(key) == c);
                assert(chunk_key(c) == key);
                assert forall|i: int| old_out.len() <= i < out.len() implies self.cells().contains(
                    out[i]@,
                ) && chunk_key(chunk_of(out[i]@)) == key by {
                    let q = out[i]@;
                    assert(q == cells[i - old_out.len()]@);
                    assert(in_i32(q));
                    lemma_chunk_of_cell(q);
                }
                assert forall|i: int|
                    0 <= i < out.len() implies self.cells().contains(out[i]@) && exists|j: int|
                        0 <= j < n + 1 && keys[j] == chunk_key(chunk_of(out[i]@)) by {
                    if i >= old_out.len() {
                        assert(keys[n as int] == chunk_key(chunk_of(out[i]@)));
                    } else {
                        assert(out[i] == old_out[i]);
                    }
                }
                assert forall|i: int, j: int| 0 <= i < j < out.len() implies out[i]@ != out[j]@ by {
                    if j >= old_out.len() && i < old_out.len() {
                        assert(out[i] == old_out[i]);
                        let jj = choose|jj: int|
                            0 <= jj < n && keys[jj] == chunk_key(chunk_of(old_out[i]@));
                        assert(chunk_key(chunk_of(out[j]@)) == key);
                        assert(keys[jj] != keys[n as int]);
                    } else if i >= old_out.len() {
                        assert(row_major_before(cells[i - old_out.len()]@, cells[j - old_out.len()]@));
                    } else {
                        assert(out[i] == old_out[i] && out[j] == old_out[j]);
                    }
                }
                assert forall|p: (int, int)| #[trigger]
                    self.cells().contains(p) implies (exists|i: int|
                        0 <= i < out.len() && out[i]@ == p) || (exists|j: int|
                        n + 1 <= j < keys.len() && keys[j] == chunk_key(chunk_of(p))) by {
                    if chunk_key(chunk_of(p)) == key {
                        lemma_chunk_of_cell(p);
                        lemma_chunk_key_injective(chunk_of(p), c);
                        assert(chunk.cells().contains(local_of(p)));
                        let m = choose|m: int|
                            0 <= m < cells.len() && cells[m]@ == (64 * chunk_x + local_of(p).0, 64
                                * chunk_y + local_of(p).1);
                        assert(out[old_out.len() + m]@ == p);
                    } else if exists|i: int| 0 <= i < old_out.len() && old_out[i]@ == p {
                        let i = choose|i: int| 0 <= i < old_out.len() && old_out[i]@ == p;
                        assert(out[i]@ == p);
                    } else {
                        let j = choose|j: int|
                            n <= j < keys.len() && keys[j] == chunk_key(chunk_of(p));
                        assert(j != n);
                    }
                }
            }
            n += 1;
        }
        proof {
            assert forall|p: (int, int)| #[trigger]
                self.cells().contains(p) implies exists|i: int| 0 <= i < out.len() && out[i]@ == p by {
            }
        }
        out
    }

    /// The chunks where the next generation is looked for: the dirty ones, or
    /// every stored chunk when none is dirty.
    pub open spec fn seed_keys(self) -> Set<u64> {
        if self.dirty_keys() == Set::<u64>::empty() {
            self.chunk_keys()
        } else {
            self.dirty_keys()
        }
    }

    /// The seed chunks and their 8 neighbours each.
    pub open spec fn candidate_chunks(self) -> Set<(int, int)> {
        Set::new(
            |c: (int, int)|
                exists|k: u64| #[trigger] self.seed_keys().contains(k) && within_one(key_chunk(k), c),
        )
    }

    /// The chunks of `candidate_chunks`, once each, in an order that depends
    /// on the hash map.
    pub fn candidate_chunk_coords(&self) -> (r: Vec<(i32, i32)>)
        requires
            self.wf(),
        ensures
            forall|i: int|
                0 <= i < r.len() ==> self.candidate_chunks().contains((r[i].0 as int, r[i].1 as int)),
            forall|c: (int, int)| #[trigger]
                self.candidate_chunks().contains(c) ==> exists|i: int|
                    0 <= i < r.len() && r[i].0 == c.0 && r[i].1 == c.1,
            forall|i: int, j: int| 0 <= i < j < r.len() ==> r[i] != r[j],
    {
        let seeds: Vec<u64> = if !self.dirty.is_empty() {
            set_keys(&self.dirty)
        } else {
            map_keys(&self.chunks)
        };
        proof {
            assert forall|k: u64| self.seed_keys().contains(k) <==> seeds@.contains(k) by {
                if self.dirty@ == Set::<u64>::empty() {
                } else {
                    assert(self.dirty_keys() != Set::<u64>::empty());
                }
            }
            assert forall|k: u64| seeds@.contains(k) implies chunk_in_range(key_chunk(k)) by {
                assert(self.seed_keys().contains(k));
                if self.dirty@ == Set::<u64>::empty() {
                    assert(self.chunks@.contains_key(k));
                } else {
                    assert(self.dirty@.contains(k));
                }
            }
        }
        let mut seen: HashSet<u64> = HashSet::new();
        let mut out: Vec<(i32, i32)> = Vec::new();
        let mut s: usize = 0;
        while s < seeds.len()
            invariant
                s <= seeds.len(),
                forall|k: u64| self.seed_keys().contains(k) <==> seeds@.contains(k),
                forall|k: u64| seeds@.contains(k) ==> chunk_in_range(key_chunk(k)),
                lists_keys(seen@, out@),
                forall|i: int|
                    0 <= i < out.len() ==> exists|j: int|
                        0 <= j < s && within_one(
                            key_chunk(seeds[j]),
                            (#[trigger] out[i].0 as int, out[i].1 as int),
                        ),
                forall|j: int, c: (int, int)|
                    0 <= j < s && #[trigger] within_one(key_chunk(seeds[j]), c) ==> out@.contains(
                        (c.0 as i32, c.1 as i32),
                    ),
            decreases seeds.len() - s,
        {
            let (cx, cy) = morton_decode(seeds[s]);
            proof {
                assert(seeds@.contains(seeds[s as int]));
            }
            let ghost out0 = out@;
            let mut dy: i32 = -1;
            while dy <= 1
                invariant
                    -1 <= dy <= 2,
                    (cx as int, cy as int) == key_chunk(seeds[s as int]),
                    chunk_in_range((cx as int, cy as int)),
                    lists_keys(seen@, out@),
                    out0.len() <= out.len(),
                    forall|i: int| 0 <= i < out0.len() ==> out[i] == out0[i],
                    forall|i: int|
                        out0.len() <= i < out.len() ==> within_one(
                            (cx as int, cy as int),
                            (#[trigger] out[i].0 as int, out[i].1 as int),
                        ),
                    forall|c: (int, int)|
                        within_one((cx as int, cy as int), c) && c.1 < cy + dy ==> out@.contains(
                            (c.0 as i32, c.1 as i32),
                        ),
                decreases 2 - dy,
            {
                let mut dx: i32 = -1;
                while dx <= 1
                    invariant
                        -1 <= dx <= 2,
                        -1 <= dy <= 1,
                        (cx as int, cy as int) == key_chunk(seeds[s as int]),
                        chunk_in_range((cx as int, cy as int)),
                        lists_keys(seen@, out@),
                        out0.len() <= out.len(),
                        forall|i: int| 0 <= i < out0.len() ==> out[i] == out0[i],
                        forall|i: int|
                            out0.len() <= i < out.len() ==> within_one(
                                (cx as int, cy as int),
                                (#[trigger] out[i].0 as int, out[i].1 as int),
                            ),
                        forall|c: (int, int)|
                            within_one((cx as int, cy as int), c) && (c.1 < cy + dy || (c.1 == cy
                                + dy && c.0 < cx + dx)) ==> out@.contains((c.0 as i32, c.1 as i32)),
                    decreases 2 - dx,
                {
                    let ghost before = out@;
                    add_chunk(&mut seen, &mut out, (cx + dx, cy + dy));
                    proof {
                        assert forall|c: (int, int)|
                            within_one((cx as int, cy as int), c) && (c.1 < cy + dy || (c.1 == cy
                                + dy && c.0 < cx + dx + 1)) implies out@.contains(
                            (c.0 as i32, c.1 as i32),
                        ) by {
                            if c.1 == cy + dy && c.0 == cx + dx {
                                if !before.contains(((cx + dx) as i32, (cy + dy) as i32)) {
                                    assert(out@[before.len() as int] == ((cx + dx) as i32, (cy + dy) as i32));
                                }
                            } else {
                                let i = choose|i: int|
                                    0 <= i < before.len() && before[i] == (c.0 as i32, c.1 as i32);
                                assert(out@[i] == before[i]);
                            }
                        }
                    }
                    dx += 1;
                }
                dy += 1;
            }
            proof {
                assert forall|i: int|
                    0 <= i < out.len() implies exists|j: int|
                        0 <= j < s + 1 && within_one(
                            key_chunk(seeds[j]),
                            (#[trigger] out[i].0 as int, out[i].1 as int),
                        ) by {
                    if i >= out0.len() {
                        assert(within_one(key_chunk(seeds[s as int]), (out[i].0 as int, out[i].1 as int)));
                    } else {
                        assert(out[i] == out0[i]);
                        let j = choose|j: int|
                            0 <= j < s && within_one(key_chunk(seeds[j]), (out0[i].0 as int, out0[i].1 as int));
                    }
                }
                assert forall|j: int, c: (int, int)|
                    0 <= j < s + 1 && #[trigger] within_one(key_chunk(seeds[j]), c) implies out@.contains(
                        (c.0 as i32, c.1 as i32),
                    ) by {
                    if j < s {
                        assert(out0.contains((c.0 as i32, c.1 as i32)));
                        let i = choose|i: int| 0 <= i < out0.len() && out0[i] == (c.0 as i32, c.1 as i32);
                        assert(out@[i] == out0[i]);
                    }
                }
            }
            s += 1;
        }
        proof {
            assert forall|i: int|
                0 <= i < out.len() implies self.candidate_chunks().contains((out[i].0 as int, out[i].1 as int)) by {
                let j = choose|j: int|
                    0 <= j < s && within_one(key_chunk(seeds[j]), (out[i].0 as int, out[i].1 as int));
                assert(self.seed_keys().contains(seeds[j]));
            }
            assert forall|c: (int, int)| #[trigger]
                self.candidate_chunks().contains(c) implies exists|i: int|
                    0 <= i < out.len() && out[i].0 == c.0 && out[i].1 == c.1 by {
                let k = choose|k: u64| #[trigger] self.seed_keys().contains(k) && within_one(key_chunk(k), c);
                assert(seeds@.contains(k));
                let j = choose|j: int| 0 <= j < seeds.len() && seeds[j] == k;
                assert(within_one(key_chunk(seeds[j]), c));
                assert(chunk_in_range(key_chunk(k)));
                let i = choose|i: int| 0 <= i < out.len() && out@[i] == (c.0 as i32, c.1 as i32);
            }
        }
        out
    }

    /// The smallest box that holds every live cell, as its lower and upper
    /// corner, or `None` when no cell is alive.
    pub fn get_bounds(&self) -> (r: Option<(Coord, Coord)>)
        requires
            self.wf(),
        ensures
            r is None <==> self.cells() == Set::<(int, int)>::empty(),
            r matches Some((lo, hi)) ==> {
                &&& forall|p: (int, int)| #[trigger]
                    self.cells().contains(p) ==> lo.x <= p.0 <= hi.x && lo.y <= p.1 <= hi.y
                &&& exists|p: (int, int)| #[trigger] self.cells().contains(p) && p.0 == lo.x
                &&& exists|p: (int, int)| #[trigger] self.cells().contains(p) && p.0 == hi.x
                &&& exists|p: (int, int)| #[trigger] self.cells().contains(p) && p.1 == lo.y
                &&& exists|p: (int, int)| #[trigger] self.cells().contains(p) && p.1 == hi.y
            },
    {
        let mut min_x = i32::MAX;
        let mut max_x = i32::MIN;
        let mut min_y = i32::MAX;
        let mut max_y = i32::MIN;
        let mut found = false;
        let ghost mut wa: int = 0;
        let ghost mut wb: int = 0;
        let ghost mut wc: int = 0;
        let ghost mut wd: int = 0;
        let cells = self.iter_active_cells();
        let mut i: usize = 0;
        while i < cells.len()
            invariant
                i <= cells.len(),
                forall|j: int| 0 <= j < cells.len() ==> self.cells().contains(cells[j]@),
                found == (i > 0),
                forall|j: int|
                    0 <= j < i ==> min_x <= #[trigger] cells[j].x <= max_x && min_y <= cells[j].y
                        <= max_y,
                !found ==> wa == 0 && wb == 0 && wc == 0 && wd == 0 && min_x == i32::MAX && max_x
                    == i32::MIN && min_y == i32::MAX && max_y == i32::MIN,
                found ==> 0 <= wa < i && cells[wa].x == min_x,
                found ==> 0 <= wb < i && cells[wb].x == max_x,
                found ==> 0 <= wc < i && cells[wc].y == min_y,
                found ==> 0 <= wd < i && cells[wd].y == max_y,
            decreases cells.len() - i,
        {
            let coord = cells[i];
            if coord.x < min_x {
                min_x = coord.x;
                proof {
                    wa = i as int;
                }
            }
            if coord.x > max_x {
                max_x = coord.x;
                proof {
                    wb = i as int;
                }
            }
            if coord.y < min_y {
                min_y = coord.y;
                proof {
                    wc = i as int;
                }
            }
            if coord.y > max_y {
                max_y = coord.y;
                proof {
                    wd = i as int;
                }
            }
            found = true;
            i += 1;
        }
        if found {
            proof {
                assert(self.cells().contains(cells[wa]@));
                assert(self.cells().contains(cells[wb]@));
                assert(self.cells().contains(cells[wc]@));
                assert(self.cells().contains(cells[wd]@));
                assert(self.cells().contains(cells[0]@));
                assert forall|p: (int, int)| #[trigger]
                    self.cells().contains(p) implies min_x <= p.0 <= max_x && min_y <= p.1
                    <= max_y by {
                    let j = choose|j: int| 0 <= j < cells.len() && cells[j]@ == p;
                }
            }
            Some((Coord::new(min_x, min_y), Coord::new(max_x, max_y)))
        } else {
            proof {
                assert forall|p: (int, int)| !self.cells().contains(p) by {
                    if self.cells().contains(p) {
                        let j = choose|j: int| 0 <= j < cells.len() && cells[j]@ == p;
                    }
                }
                assert(self.cells() =~= Set::<(int, int)>::empty());
            }
            None
        }
    }

    /// The number of live cells among the 8 neighbours of `coord`.
    pub fn count_neighbors(&self, coord: Coord) -> (n: u8)
        requires
            has_all_neighbors(coord.x as int, coord.y as int),
        ensures
            n == live_neighbors(self.cells(), coord@),
    {
        let neighbors = coord.neighbors();
        let mut count: u8 = 0;
        let mut i: usize = 0;
        while i < 8
            invariant
                i <= 8,
                count == live_neighbors_upto(self.cells(), coord@, i as int),
                count <= i,
                forall|j: int|
                    0 <= j < 8 ==> neighbors[j]@ == (coord.x + neighbor_offset(j).0, coord.y
                        + neighbor_offset(j).1),
            decreases 8 - i,
        {
            if self.get_cell(neighbors[i]) {
                count += 1;
            }
            i += 1;
        }
        count
    }

    /// The live cells of the chunk at `(chunk_x, chunk_y)`, in row-major order.
    pub fn iter_active_in_chunk(&self, chunk_x: i32, chunk_y: i32) -> (r: Vec<Coord>)
        requires
            chunk_in_range((chunk_x as int, chunk_y as int)),
        ensures
            forall|i: int|
                0 <= i < r.len() ==> self.cells().contains(r[i]@) && chunk_of(r[i]@) == (
                    chunk_x as int,
                    chunk_y as int,
                ),
            forall|p: (int, int)| #[trigger]
                self.cells().contains(p) && chunk_of(p) == (chunk_x as int, chunk_y as int)
                    ==> exists|i: int| 0 <= i < r.len() && r[i]@ == p,
            forall|i: int, j: int| 0 <= i < j < r.len() ==> row_major_before(r[i]@, r[j]@),
    {
        let key = morton_encode(chunk_x, chunk_y);
        let ghost c = (chunk_x as int, chunk_y as int);
        match self.chunks.get(&key) {
            Some(chunk) => {
                let r = cells_of_chunk(chunk, chunk_x, chunk_y);
                proof {
                    assert forall|i: int| 0 <= i < r.len() implies self.cells().contains(r[i]@) by {
                        let q = r[i]@;
                        assert(in_i32(q));
                        lemma_chunk_of_cell(q);
                    }
                    assert forall|p: (int, int)| #[trigger]
                        self.cells().contains(p) && chunk_of(p) == c implies exists|i: int|
                            0 <= i < r.len() && r[i]@ == p by {
                        lemma_chunk_of_cell(p);
                        assert(chunk.cells().contains(local_of(p)));
                    }
                }
                r
            },
            None => {
                let r: Vec<Coord> = Vec::new();
                proof {
                    assert forall|p: (int, int)| #[trigger]
                        self.cells().contains(p) && chunk_of(p) == c implies false by {
                        lemma_chunk_of_cell(p);
                    }
                }
                r
            },
        }
    }

    /// Marks as dirty exactly the chunks whose cells differ from those of the
    /// same chunk in `previous` (a chunk that is not stored counts as empty).
    pub fn recompute_dirty(&mut self, previous: &World)
        requires
            old(self).wf(),
            previous.wf(),
        ensures
            final(self).wf(),
            final(self).cells() == old(self).cells(),
            final(self).chunk_keys() == old(self).chunk_keys(),
            forall|k: u64| #[trigger] final(self).chunk_cells(k) == old(self).chunk_cells(k),
            final(self).dirty_keys() == Set::new(
                |k: u64| old(self).chunk_cells(k) != previous.chunk_cells(k),
            ),
    {
        let ghost target = Set::new(|k: u64| self.chunk_cells(k) != previous.chunk_cells(k));
        let mut dirty: HashSet<u64> = HashSet::new();
        let keys = map_keys(&self.chunks);
        let mut i: usize = 0;
        while i < keys.len()
            invariant
                i <= keys.len(),
                self.wf(),
                previous.wf(),
                target == Set::new(|k: u64| self.chunk_cells(k) != previous.chunk_cells(k)),
                forall|k: u64| #[trigger] self.chunks@.contains_key(k) <==> keys@.contains(k),
                forall|k: u64|
                    #![trigger dirty@.contains(k)]
                    #![trigger target.contains(k)]
                    dirty@.contains(k) <==> target.contains(k) && keys@.take(i as int).contains(k),
            decreases keys.len() - i,
        {
            let key = keys[i];
            proof {
                assert(keys@.contains(key));
            }
            let changed = match self.chunks.get(&key) {
                Some(next_chunk) => match previous.chunks.get(&key) {
                    Some(prev_chunk) => !(*prev_chunk == *next_chunk),
                    None => true,
                },
                None => true,
            };
            proof {
                if !previous.chunks@.contains_key(key) {
                    assert(self.chunk_cells(key) != Set::<(int, int)>::empty());
                }
                assert(changed == target.contains(key));
            }
            let ghost old_dirty = dirty@;
            if changed {
                dirty.insert(key);
            }
            proof {
                assert(keys@.take(i + 1) =~= keys@.take(i as int).push(key));
                assert forall|k: u64|
                    dirty@.contains(k) <==> target.contains(k) && keys@.take(i + 1).contains(k) by {
                    if k == key {
                        assert(keys@.take(i + 1)[i as int] == k);
                    } else {
                        assert(dirty@.contains(k) == old_dirty.contains(k));
                        assert(keys@.take(i + 1).contains(k) == keys@.take(i as int).contains(k));
                    }
                }
            }
            i += 1;
        }
        proof {
            assert(keys@.take(keys.len() as int) =~= keys@);
        }
        let prev_keys = map_keys(&previous.chunks);
        let mut i: usize = 0;
        while i < prev_keys.len()
            invariant
                i <= prev_keys.len(),
                self.wf(),
                previous.wf(),
                target == Set::new(|k: u64| self.chunk_cells(k) != previous.chunk_cells(k)),
                forall|k: u64| #[trigger] previous.chunks@.contains_key(k) <==> prev_keys@.contains(k),
                forall|k: u64| #[trigger] self.chunks@.contains_key(k) <==> keys@.contains(k),
                forall|k: u64|
                    #![trigger dirty@.contains(k)]
                    #![trigger target.contains(k)]
                    dirty@.contains(k) <==> target.contains(k) && (self.chunks@.contains_key(k)
                        || prev_keys@.take(i as int).contains(k)),
            decreases prev_keys.len() - i,
        {
            let key = prev_keys[i];
            proof {
                assert(prev_keys@.contains(key));
            }
            let ghost old_dirty = dirty@;
            if !self.chunks.contains_key(&key) {
                proof {
                    assert(previous.chunk_cells(key) != Set::<(int, int)>::empty());
                    assert(target.contains(key));
                }
                dirty.insert(key);
            }
            proof {
                assert(prev_keys@.take(i + 1) =~= prev_keys@.take(i as int).push(key));
                assert forall|k: u64|
                    #![trigger dirty@.contains(k)]
                    #![trigger target.contains(k)]
                    dirty@.contains(k) <==> target.contains(k) && (self.chunks@.contains_key(k)
                        || prev_keys@.take(i + 1).contains(k)) by {
                    if k == key {
                        assert(prev_keys@.take(i + 1)[i as int] == k);
                    } else {
                        assert(prev_keys@.take(i + 1).contains(k) == prev_keys@.take(
                            i as int,
                        ).contains(k));
                    }
                }
            }
            i += 1;
        }
        proof {
            assert(keys@.take(keys.len() as int) =~= keys@);
            assert(prev_keys@.take(prev_keys.len() as int) =~= prev_keys@);
            assert forall|k: u64| dirty@.contains(k) <==> target.contains(k) by {
                if target.contains(k) && !self.chunks@.contains_key(k) {
                    assert(previous.chunks@.contains_key(k));
                    assert(prev_keys@.contains(k));
                }
            }
            assert(dirty@ =~= target);
        }
        self.dirty = dirty;
        proof {
            assert(self.cells() =~= old(self).cells());
        }
    }

    /// Kills every cell and forgets every dirty mark.
    pub fn clear(&mut self)
        ensures
            final(self).wf(),
            final(self).cells() == Set::<(int, int)>::empty(),
            final(self).chunk_keys() == Set::<u64>::empty(),
            final(self).dirty_keys() == Set::<u64>::empty(),
    {
        self.chunks.clear();
        self.dirty.clear();
        assert(self.cells() =~= Set::<(int, int)>::empty());
    }
}

impl Default for World {
    fn default() -> (w: Self)
        ensures
            w.wf(),
            w.cells() == Set::<(int, int)>::empty(),
            w.chunk_keys() == Set::<u64>::empty(),
            w.dirty_keys() == Set::<u64>::empty(),
    {
        Self::new()
    }
}

impl Clone for World {
    fn clone(&self) -> (w: Self)
        ensures
            (self.wf() ==> w.wf()),
            w.cells() == self.cells(),
            forall|k: u64| #[trigger] w.chunk_cells(k) == self.chunk_cells(k),
            w.chunk_keys() == self.chunk_keys(),
            w.dirty_keys() == self.dirty_keys(),
    {
        let mut dirty: HashSet<u64> = HashSet::new();
        for k in it: self.dirty.iter()
            invariant
                forall|k: u64| dirty@.contains(k) ==> self.dirty@.contains(k),
                forall|k: u64|
                    self.dirty@.contains(k) ==> dirty@.contains(k) || exists|i: int|
                        it.index() <= i < it.seq().len() && *it.seq()[i] == k,
                it.seq().unref().to_set() == self.dirty@,
        {
            proof {
                assert(it.seq().unref()[it.index()] == *k);
                assert(it.seq().unref().contains(*k));
            }
            dirty.insert(*k);
        }
        assert(dirty@ =~= self.dirty@);
        let w = World { chunks: self.chunks.clone(), dirty };
        assert(w.cells() =~= self.cells());
        w
    }
}

} // verus!
