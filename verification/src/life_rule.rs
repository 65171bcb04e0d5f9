//! Conway's Game of Life (birth on 3 neighbours, survival on 2 or 3), applied
//! to the cells around the chunks that changed.
use std::collections::HashSet;
use rayon::iter::{IntoParallelRefIterator, ParallelIterator};
use vstd::prelude::*;
use crate::coords::{Coord, has_all_neighbors, neighbor_offset, within_one};
use crate::morton::{morton_key, morton_encode, lemma_morton_key_injective};
use crate::world::{World, chunk_of, chunk_key, key_chunk, chunk_in_range, live_neighbors, live_neighbors_upto};

verus! {

broadcast use vstd::std_specs::hash::group_hash_axioms;

/// Whether cell `p` is alive in the generation after the live set `s`: a live
/// cell survives with 2 or 3 live neighbours, a dead one is born with 3.
pub open spec fn next_alive(s: Set<(int, int)>, p: (int, int)) -> bool {
    let n = live_neighbors(s, p);
    if s.contains(p) {
        n == 2 || n == 3
    } else {
        n == 3
    }
}

/// Conway's rule B3/S23: a live cell stays alive exactly when 2 or 3 of its 8
/// neighbours are alive, and a dead cell comes alive exactly when 3 are; no
/// other count brings a cell to life or keeps it alive.
pub proof fn lemma_conway_rule(s: Set<(int, int)>, p: (int, int))
    ensures
        s.contains(p) ==> (next_alive(s, p) <==> (live_neighbors(s, p) == 2 || live_neighbors(
            s,
            p,
        ) == 3)),
        !s.contains(p) ==> (next_alive(s, p) <==> live_neighbors(s, p) == 3),
        live_neighbors(s, p) < 2 || live_neighbors(s, p) > 3 ==> !next_alive(s, p),
{
}

/// The next generation of the whole live set `s`.
pub open spec fn life_step(s: Set<(int, int)>) -> Set<(int, int)> {
    Set::new(|p: (int, int)| next_alive(s, p))
}

/// Whether both coordinates of `p` are at least `m` away from the ends of the
/// `i32` range.
pub open spec fn has_margin(p: (int, int), m: int) -> bool {
    i32::MIN + m <= p.0 <= i32::MAX - m && i32::MIN + m <= p.1 <= i32::MAX - m
}

/// The cells that `LifeRule::apply_into` looks at: every live cell in a
/// candidate chunk, and its 8 neighbours.
pub open spec fn candidate_cells(w: World) -> Set<(int, int)> {
    Set::new(
        |p: (int, int)|
            exists|c: (int, int)| #[trigger]
                w.cells().contains(c) && w.candidate_chunks().contains(chunk_of(c)) && within_one(
                    c,
                    p,
                ),
    )
}

/// The inputs on which a generation step stays inside `i32` arithmetic: seed
/// chunks are not at the edge of the chunk range, and the live cells that are
/// looked at are 2 cells away from the ends of the `i32` range.
pub open spec fn step_fits(w: World) -> bool {
    &&& forall|k: u64| #[trigger]
        w.seed_keys().contains(k) ==> -0x200_0000 < key_chunk(k).0 < 0x1ff_ffff && -0x200_0000
            < key_chunk(k).1 < 0x1ff_ffff
    &&& forall|p: (int, int)| #[trigger]
        w.cells().contains(p) && w.candidate_chunks().contains(chunk_of(p)) ==> has_margin(p, 2)
}

/// `seen` holds exactly the Morton codes of the cells listed in `out`, and
/// `out` lists no cell twice.
spec fn lists_cells(seen: Set<u64>, out: Seq<Coord>) -> bool {
    &&& forall|k: u64|
        seen.contains(k) <==> exists|i: int|
            0 <= i < out.len() && k == morton_key(#[trigger] out[i].x, out[i].y)
    &&& forall|i: int, j: int| 0 <= i < j < out.len() ==> out[i] != out[j]
}

/// Appends `c` to `out` unless `seen` says it is listed already.
fn add_candidate(seen: &mut HashSet<u64>, out: &mut Vec<Coord>, c: Coord)
    requires
        lists_cells(old(seen)@, old(out)@),
    ensures
        lists_cells(final(seen)@, final(out)@),
        final(out)@ == if old(out)@.contains(c) {
            old(out)@
        } else {
            old(out)@.push(c)
        },
{
    let code = morton_encode(c.x, c.y);
    let ghost old_out = out@;
    if seen.insert(code) {
        proof {
            assert(!old_out.contains(c)) by {
                if old_out.contains(c) {
                    let i = choose|i: int| 0 <= i < old_out.len() && old_out[i] == c;
                    assert(old(seen)@.contains(code));
                }
            }
        }
        out.push(c);
        proof {
            assert forall|k: u64|
                seen@.contains(k) <==> exists|i: int|
                    0 <= i < out@.len() && k == morton_key(#[trigger] out@[i].x, out@[i].y) by {
                if seen@.contains(k) && k != code {
                    let i = choose|i: int|
                        0 <= i < old_out.len() && k == morton_key(old_out[i].x, old_out[i].y);
                    assert(out@[i] == old_out[i]);
                }
                if k == code {
                    assert(out@[old_out.len() as int] == c);
                }
                if exists|i: int| 0 <= i < out@.len() && k == morton_key(#[trigger] out@[i].x, out@[i].y) {
                    let i = choose|i: int| 0 <= i < out@.len() && k == morton_key(out@[i].x, out@[i].y);
                    if i < old_out.len() {
                        assert(out@[i] == old_out[i]);
                    }
                }
            }
        }
    } else {
        proof {
            let i = choose|i: int|
                0 <= i < old_out.len() && code == morton_key(old_out[i].x, old_out[i].y);
            lemma_morton_key_injective(c.x, c.y, old_out[i].x, old_out[i].y);
            assert(old_out[i] == c);
            assert(old_out.contains(c));
        }
    }
}

/// Every element of a filtered sequence comes from the sequence.
proof fn lemma_filter_subset<A>(s: Seq<A>, pred: spec_fn(A) -> bool, i: int)
    requires
        0 <= i < s.filter(pred).len(),
    ensures
        s.contains(s.filter(pred)[i]),
    decreases s.len(),
{
    reveal(Seq::filter);
    if s.len() > 0 {
        let sub = s.drop_last().filter(pred);
        if i < sub.len() {
            lemma_filter_subset(s.drop_last(), pred, i);
            let j = choose|j: int| 0 <= j < s.drop_last().len() && s.drop_last()[j] == sub[i];
            assert(s[j] == sub[i]);
        } else {
            assert(s[s.len() - 1] == s.filter(pred)[i]);
        }
    }
}

/// A cell with a live neighbour has one among its 8 neighbours.
proof fn lemma_live_neighbor_exists(s: Set<(int, int)>, p: (int, int), n: int)
    requires
        0 <= n <= 8,
        live_neighbors_upto(s, p, n) > 0,
    ensures
        exists|i: int|
            0 <= i < n && s.contains((p.0 + neighbor_offset(i).0, p.1 + neighbor_offset(i).1)),
    decreases n,
{
    if n > 0 && !s.contains((p.0 + neighbor_offset(n - 1).0, p.1 + neighbor_offset(n - 1).1)) {
        lemma_live_neighbor_exists(s, p, n - 1);
        let i = choose|i: int|
            0 <= i < n - 1 && s.contains((p.0 + neighbor_offset(i).0, p.1 + neighbor_offset(i).1));
    }
}

/// When every stored chunk is a seed (in particular when no chunk is dirty),
/// the cells that `LifeRule::apply_into` makes alive are exactly the next
/// generation of the whole board.
pub proof fn lemma_apply_into_is_life_step(w: World)
    requires
        w.wf(),
        w.chunk_keys().subset_of(w.seed_keys()),
    ensures
        Set::new(|p: (int, int)| candidate_cells(w).contains(p) && next_alive(w.cells(), p))
            == life_step(w.cells()),
{
    let s = w.cells();
    assert forall|p: (int, int)| next_alive(s, p) implies candidate_cells(w).contains(p) by {
        let c = if s.contains(p) {
            p
        } else {
            lemma_live_neighbor_exists(s, p, 8);
            let i = choose|i: int|
                0 <= i < 8 && s.contains((p.0 + neighbor_offset(i).0, p.1 + neighbor_offset(i).1));
            (p.0 + neighbor_offset(i).0, p.1 + neighbor_offset(i).1)
        };
        assert(s.contains(c));
        w.lemma_cell_in_stored_chunk(c);
        let k = chunk_key(chunk_of(c));
        assert(w.seed_keys().contains(k));
        assert(within_one(key_chunk(k), chunk_of(c)));
        assert(w.candidate_chunks().contains(chunk_of(c)));
        assert(within_one(c, p));
    }
    assert(Set::new(|p: (int, int)| candidate_cells(w).contains(p) && next_alive(w.cells(), p))
        =~= life_step(w.cells()));
}

/// An empty board stays empty.
pub proof fn lemma_life_step_empty()
    ensures
        life_step(Set::<(int, int)>::empty()) == Set::<(int, int)>::empty(),
{
    assert forall|p: (int, int)| !next_alive(Set::<(int, int)>::empty(), p) by {
        if live_neighbors(Set::<(int, int)>::empty(), p) > 0 {
            lemma_live_neighbor_exists(Set::<(int, int)>::empty(), p, 8);
        }
    }
    assert(life_step(Set::<(int, int)>::empty()) =~= Set::<(int, int)>::empty());
}

/// Every cell that `LifeRule::apply_into` makes alive is alive in the true
/// next generation of the board.
pub proof fn lemma_apply_into_within_life_step(w: World)
    ensures
        Set::new(|p: (int, int)| candidate_cells(w).contains(p) && next_alive(w.cells(), p)).subset_of(
            life_step(w.cells()),
        ),
{
}

/// The rule of Conway's Game of Life.
pub struct LifeRule;

/// rayon's `par_iter().filter_map(..).collect()` over `candidates`: runs
/// `LifeRule::survivor` on every candidate, on the rayon thread pool, and
/// collects the `Some` results into a `Vec` in the order of `candidates`.
#[verifier::external_body]
fn par_survivors(current: &World, candidates: &Vec<Coord>) -> (alive: Vec<Coord>)
    requires
        forall|i: int|
            0 <= i < candidates.len() ==> has_all_neighbors(
                #[trigger] candidates[i].x as int,
                candidates[i].y as int,
            ),
    ensures
        alive@ == candidates@.filter(|c: Coord| next_alive(current.cells(), c@)),
{
    candidates.par_iter().filter_map(|coord| LifeRule::survivor(current, *coord)).collect()
}

impl LifeRule {
    pub fn new() -> (r: Self)
        ensures
            r == LifeRule,
    {
        LifeRule
    }

    /// The fate of one cell: `Some(coord)` when it is alive in the next
    /// generation, `None` when it is not.
    pub fn survivor(current: &World, coord: Coord) -> (r: Option<Coord>)
        requires
            has_all_neighbors(coord.x as int, coord.y as int),
        ensures
            r == if next_alive(current.cells(), coord@) {
                Some(coord)
            } else {
                None
            },
            r is Some ==> r == Some(coord),
            current.cells().contains(coord@) ==> (r is Some <==> (live_neighbors(
                current.cells(),
                coord@,
            ) == 2 || live_neighbors(current.cells(), coord@) == 3)),
            !current.cells().contains(coord@) ==> (r is Some <==> live_neighbors(
                current.cells(),
                coord@,
            ) == 3),
    {
        let is_alive = current.get_cell(coord);
        let neighbors = current.count_neighbors(coord);
        match (is_alive, neighbors) {
            (true, 2) | (true, 3) => Some(coord),
            (false, 3) => Some(coord),
            _ => None,
        }
    }
}

impl LifeRule {
    /// Writes into `next` the generation that follows `current` on the
    /// candidate cells (every other cell of `next` is dead), and marks dirty
    /// the chunks of `next` that differ from those of `current`.
    pub fn apply_into(&self, current: &World, next: &mut World)
        requires
            current.wf(),
            step_fits(*current),
        ensures
            final(next).wf(),
            final(next).cells() == Set::new(
                |p: (int, int)| candidate_cells(*current).contains(p) && next_alive(current.cells(), p),
            ),
            final(next).dirty_keys() == Set::new(
                |k: u64| final(next).chunk_cells(k) != current.chunk_cells(k),
            ),
    {
        next.clear();
        let candidate_chunks = current.candidate_chunk_coords();
        let ghost cand = candidate_cells(*current);
        let mut seen: HashSet<u64> = HashSet::new();
        let mut candidates: Vec<Coord> = Vec::new();
        let mut n: usize = 0;
        while n < candidate_chunks.len()
            invariant
                n <= candidate_chunks.len(),
                current.wf(),
                step_fits(*current),
                cand == candidate_cells(*current),
                forall|i: int|
                    0 <= i < candidate_chunks.len() ==> current.candidate_chunks().contains(
                        (#[trigger] candidate_chunks[i].0 as int, candidate_chunks[i].1 as int),
                    ),
                lists_cells(seen@, candidates@),
                forall|i: int| 0 <= i < candidates.len() ==> cand.contains(#[trigger] candidates[i]@),
                forall|i: int|
                    0 <= i < candidates.len() ==> has_margin(#[trigger] candidates[i]@, 1),
                forall|j: int, c: (int, int), p: (int, int)|
                    0 <= j < n && current.cells().contains(c) && chunk_of(c) == (
                        #[trigger] candidate_chunks[j].0 as int,
                        candidate_chunks[j].1 as int,
                    ) && #[trigger] within_one(c, p) ==> exists|i: int|
                        0 <= i < candidates.len() && candidates[i]@ == p,
            decreases candidate_chunks.len() - n,
        {
            let (cx, cy) = candidate_chunks[n];
            proof {
                let c = (cx as int, cy as int);
                assert(current.candidate_chunks().contains(c));
                let k = choose|k: u64| #[trigger]
                    current.seed_keys().contains(k) && within_one(key_chunk(k), c);
                assert(chunk_in_range(c));
            }
            let cells = current.iter_active_in_chunk(cx, cy);
            let ghost before = candidates@;
            let mut m: usize = 0;
            while m < cells.len()
                invariant
                    m <= cells.len(),
                    n < candidate_chunks.len(),
                    (cx, cy) == candidate_chunks[n as int],
                    current.wf(),
                    step_fits(*current),
                    cand == candidate_cells(*current),
                    current.candidate_chunks().contains((cx as int, cy as int)),
                    forall|i: int|
                        0 <= i < cells.len() ==> current.cells().contains(#[trigger] cells[i]@)
                            && chunk_of(cells[i]@) == (cx as int, cy as int),
                    lists_cells(seen@, candidates@),
                    before.len() <= candidates.len(),
                    forall|i: int| 0 <= i < before.len() ==> candidates[i] == before[i],
                    forall|i: int|
                        0 <= i < candidates.len() ==> cand.contains(#[trigger] candidates[i]@),
                    forall|i: int|
                        0 <= i < candidates.len() ==> has_margin(#[trigger] candidates[i]@, 1),
                    forall|l: int, p: (int, int)|
                        0 <= l < m && #[trigger] within_one(cells[l]@, p) ==> exists|i: int|
                            0 <= i < candidates.len() && candidates[i]@ == p,
                decreases cells.len() - m,
            {
                let coord = cells[m];
                let ghost c = coord@;
                proof {
                    assert(current.cells().contains(cells[m as int]@));
                    assert(has_margin(c, 2));
                }
                let ghost before_cell = candidates@;
                add_candidate(&mut seen, &mut candidates, coord);
                proof {
                    if !before_cell.contains(coord) {
                        assert(candidates@[before_cell.len() as int] == coord);
                    }
                }
                let neighbors = coord.neighbors();
                let mut t: usize = 0;
                while t < 8
                    invariant
                        t <= 8,
                        current.cells().contains(c),
                        current.candidate_chunks().contains(chunk_of(c)),
                        has_margin(c, 2),
                        cand == candidate_cells(*current),
                        forall|j: int|
                            0 <= j < 8 ==> neighbors[j]@ == (c.0 + neighbor_offset(j).0, c.1
                                + neighbor_offset(j).1),
                        lists_cells(seen@, candidates@),
                        before_cell.len() <= candidates.len(),
                        forall|i: int| 0 <= i < before_cell.len() ==> candidates[i] == before_cell[i],
                        candidates@.contains(coord),
                        forall|j: int| 0 <= j < t ==> candidates@.contains(#[trigger] neighbors[j]),
                        forall|i: int|
                            0 <= i < candidates.len() ==> cand.contains(#[trigger] candidates[i]@),
                        forall|i: int|
                            0 <= i < candidates.len() ==> has_margin(#[trigger] candidates[i]@, 1),
                    decreases 8 - t,
                {
                    let nb = neighbors[t];
                    let ghost prev = candidates@;
                    proof {
                        assert(within_one(c, nb@));
                        assert(cand.contains(nb@));
                    }
                    add_candidate(&mut seen, &mut candidates, nb);
                    proof {
                        assert forall|j: int| 0 <= j < t + 1 implies candidates@.contains(
                            #[trigger] neighbors[j],
                        ) by {
                            if j < t {
                                let i = choose|i: int| 0 <= i < prev.len() && prev[i] == neighbors[j];
                                assert(candidates@[i] == prev[i]);
                            } else if prev.contains(nb) {
                            } else {
                                assert(candidates@[prev.len() as int] == nb);
                            }
                        }
                        let i = choose|i: int| 0 <= i < prev.len() && prev[i] == coord;
                        assert(candidates@[i] == prev[i]);
                    }
                    t += 1;
                }
                proof {
                    assert forall|l: int, p: (int, int)|
                        0 <= l < m + 1 && #[trigger] within_one(cells[l]@, p) implies exists|i: int|
                            0 <= i < candidates.len() && candidates[i]@ == p by {
                        if l < m {
                            let i = choose|i: int| 0 <= i < before_cell.len() && before_cell[i]@ == p;
                            assert(candidates[i] == before_cell[i]);
                        } else if p == c {
                            let i = choose|i: int| 0 <= i < candidates.len() && candidates@[i] == coord;
                        } else {
                            let j: int = if p.1 == c.1 - 1 {
                                if p.0 == c.0 - 1 { 0 } else if p.0 == c.0 { 1 } else { 2 }
                            } else if p.1 == c.1 {
                                if p.0 == c.0 - 1 { 3 } else { 4 }
                            } else {
                                if p.0 == c.0 - 1 { 5 } else if p.0 == c.0 { 6 } else { 7 }
                            };
                            assert(neighbors[j]@ == p);
                            assert(candidates@.contains(neighbors[j]));
                            let i = choose|i: int| 0 <= i < candidates.len() && candidates@[i] == neighbors[j];
                        }
                    }
                }
                m += 1;
            }
            proof {
                assert forall|j: int, c: (int, int), p: (int, int)|
                    0 <= j < n + 1 && current.cells().contains(c) && chunk_of(c) == (
                        #[trigger] candidate_chunks[j].0 as int,
                        candidate_chunks[j].1 as int,
                    ) && #[trigger] within_one(c, p) implies exists|i: int|
                        0 <= i < candidates.len() && candidates[i]@ == p by {
                    if j < n {
                        let i = choose|i: int| 0 <= i < before.len() && before[i]@ == p;
                        assert(candidates[i] == before[i]);
                    } else {
                        let l = choose|l: int| 0 <= l < cells.len() && cells[l]@ == c;
                        assert(within_one(cells[l]@, p));
                    }
                }
            }
            n += 1;
        }
        proof {
            assert forall|i: int|
                0 <= i < candidates.len() implies has_all_neighbors(
                    #[trigger] candidates[i].x as int,
                    candidates[i].y as int,
                ) by {
                assert(has_margin(candidates[i]@, 1));
            }
        }
        let alive = par_survivors(current, &candidates);
        let ghost pred = |c: Coord| next_alive(current.cells(), c@);
        proof {
            assert forall|i: int| 0 <= i < alive.len() implies candidates@.contains(#[trigger] alive[i])
                && next_alive(current.cells(), alive[i]@) by {
                lemma_filter_subset(candidates@, pred, i);
                candidates@.lemma_filter_pred(pred, i);
            }
        }
        let mut i: usize = 0;
        while i < alive.len()
            invariant
                i <= alive.len(),
                next.wf(),
                forall|p: (int, int)|
                    next.cells().contains(p) <==> exists|j: int| 0 <= j < i && alive[j]@ == p,
            decreases alive.len() - i,
        {
            next.set_cell(alive[i], true);
            proof {
                assert forall|p: (int, int)|
                    next.cells().contains(p) <==> exists|j: int| 0 <= j < i + 1 && alive[j]@ == p by {
                    if exists|j: int| 0 <= j < i + 1 && alive[j]@ == p {
                        let j = choose|j: int| 0 <= j < i + 1 && alive[j]@ == p;
                        if j < i {
                            assert(exists|j: int| 0 <= j < i && alive[j]@ == p);
                        }
                    }
                }
            }
            i += 1;
        }
        proof {
            let target = Set::new(
                |p: (int, int)| candidate_cells(*current).contains(p) && next_alive(current.cells(), p),
            );
            assert forall|p: (int, int)| next.cells().contains(p) <==> target.contains(p) by {
                if next.cells().contains(p) {
                    let j = choose|j: int| 0 <= j < alive.len() && alive[j]@ == p;
                    assert(candidates@.contains(alive[j]));
                    let k = choose|k: int| 0 <= k < candidates.len() && candidates@[k] == alive[j];
                    assert(cand.contains(candidates[k]@));
                }
                if target.contains(p) {
                    let c = choose|c: (int, int)| #[trigger]
                        current.cells().contains(c) && current.candidate_chunks().contains(chunk_of(c))
                            && within_one(c, p);
                    let cc = chunk_of(c);
                    let j = choose|j: int|
                        0 <= j < candidate_chunks.len() && candidate_chunks[j].0 == cc.0
                            && candidate_chunks[j].1 == cc.1;
                    assert(within_one(c, p));
                    let k = choose|k: int| 0 <= k < candidates.len() && candidates[k]@ == p;
                    assert(pred(candidates@[k]));
                    candidates@.lemma_filter_contains(pred, k);
                    let a = choose|a: int| 0 <= a < alive.len() && alive@[a] == candidates@[k];
                }
            }
            assert(next.cells() =~= target);
        }
        next.recompute_dirty(current);
    }
}

impl LifeRule {
    /// Whether `apply_into` can run on `current` without leaving `i32`
    /// arithmetic (see `step_fits`).
    pub fn can_apply(&self, current: &World) -> (r: bool)
        requires
            current.wf(),
        ensures
            r == step_fits(*current),
    {
        let chunks = current.candidate_chunk_coords();
        let mut n: usize = 0;
        while n < chunks.len()
            invariant
                n <= chunks.len(),
                current.wf(),
                forall|i: int|
                    0 <= i < chunks.len() ==> current.candidate_chunks().contains(
                        (#[trigger] chunks[i].0 as int, chunks[i].1 as int),
                    ),
                forall|i: int|
                    0 <= i < n ==> chunk_in_range((#[trigger] chunks[i].0 as int, chunks[i].1 as int)),
                forall|j: int, p: (int, int)|
                    #![trigger current.cells().contains(p), chunks[j]]
                    0 <= j < n && current.cells().contains(p) && chunk_of(p) == (
                        chunks[j].0 as int,
                        chunks[j].1 as int,
                    ) ==> has_margin(p, 2),
            decreases chunks.len() - n,
        {
            let (cx, cy) = chunks[n];
            if !(-0x200_0000 <= cx && cx < 0x200_0000 && -0x200_0000 <= cy && cy < 0x200_0000) {
                proof {
                    let c = (cx as int, cy as int);
                    assert(current.candidate_chunks().contains(c));
                    let k = choose|k: u64| #[trigger]
                        current.seed_keys().contains(k) && within_one(key_chunk(k), c);
                }
                return false;
            }
            proof {
                assert(current.candidate_chunks().contains((cx as int, cy as int)));
            }
            let cells = current.iter_active_in_chunk(cx, cy);
            let mut m: usize = 0;
            while m < cells.len()
                invariant
                    m <= cells.len(),
                    current.candidate_chunks().contains((cx as int, cy as int)),
                    forall|i: int|
                        0 <= i < cells.len() ==> current.cells().contains(#[trigger] cells[i]@)
                            && chunk_of(cells[i]@) == (cx as int, cy as int),
                    forall|i: int| 0 <= i < m ==> has_margin(#[trigger] cells[i]@, 2),
                decreases cells.len() - m,
            {
                let c = cells[m];
                if !(i32::MIN + 2 <= c.x && c.x <= i32::MAX - 2 && i32::MIN + 2 <= c.y && c.y
                    <= i32::MAX - 2) {
                    proof {
                        assert(current.cells().contains(c@));
                        assert(current.candidate_chunks().contains(chunk_of(c@)));
                    }
                    return false;
                }
                m += 1;
            }
            proof {
                assert forall|j: int, p: (int, int)|
                    #![trigger current.cells().contains(p), chunks[j]]
                    0 <= j < n + 1 && current.cells().contains(p) && chunk_of(p) == (
                        chunks[j].0 as int,
                        chunks[j].1 as int,
                    ) implies has_margin(p, 2) by {
                    if j == n {
                        let i = choose|i: int| 0 <= i < cells.len() && cells[i]@ == p;
                    }
                }
            }
            n += 1;
        }
        proof {
            assert forall|k: u64| #[trigger]
                current.seed_keys().contains(k) implies -0x200_0000 < key_chunk(k).0 < 0x1ff_ffff
                    && -0x200_0000 < key_chunk(k).1 < 0x1ff_ffff by {
                let s = key_chunk(k);
                let lo = (s.0 - 1, s.1 - 1);
                let hi = (s.0 + 1, s.1 + 1);
                assert(within_one(s, lo));
                assert(within_one(s, hi));
                assert(current.candidate_chunks().contains(lo));
                assert(current.candidate_chunks().contains(hi));
                let i = choose|i: int| 0 <= i < chunks.len() && chunks[i].0 == lo.0 && chunks[i].1 == lo.1;
                let j = choose|j: int| 0 <= j < chunks.len() && chunks[j].0 == hi.0 && chunks[j].1 == hi.1;
            }
            assert forall|p: (int, int)| #[trigger]
                current.cells().contains(p) && current.candidate_chunks().contains(chunk_of(p))
                    implies has_margin(p, 2) by {
                let c = chunk_of(p);
                let j = choose|j: int| 0 <= j < chunks.len() && chunks[j].0 == c.0 && chunks[j].1 == c.1;
            }
        }
        true
    }
}

impl Default for LifeRule {
    fn default() -> (r: Self)
        ensures
            r == LifeRule,
    {
        LifeRule::new()
    }
}

} // verus!
