//! A 64 x 64 block of cells stored as one `u64` bit row per line.
use vstd::prelude::*;
use crate::morton::{bit, lemma_bits_determine_word};

verus! {

/// The side of a chunk, in cells.
pub const CHUNK_SIZE: i32 = 64;

/// Setting bit `x` of `v` changes bit `x` only, and makes it 1.
pub proof fn lemma_bit_set(v: u64, x: u64, j: u64)
    requires
        x < 64,
        j < 64,
    ensures
        bit(v | (1u64 << x), j) == (j == x || bit(v, j)),
{
    assert((((v | (1u64 << x)) >> j) & 1u64 == 1u64) == (j == x || (v >> j) & 1u64 == 1u64))
        by (bit_vector)
        requires
            x < 64,
            j < 64,
    ;
}

/// Clearing bit `x` of `v` changes bit `x` only, and makes it 0.
pub proof fn lemma_bit_clear(v: u64, x: u64, j: u64)
    requires
        x < 64,
        j < 64,
    ensures
        bit(v & !(1u64 << x), j) == (j != x && bit(v, j)),
{
    assert((((v & !(1u64 << x)) >> j) & 1u64 == 1u64) == (j != x && (v >> j) & 1u64 == 1u64))
        by (bit_vector)
        requires
            x < 64,
            j < 64,
    ;
}

/// A word is zero exactly when none of its 64 bits is set.
pub proof fn lemma_zero_iff_no_bit(v: u64)
    ensures
        v == 0 <==> forall|j: u64| j < 64 ==> !#[trigger] bit(v, j),
{
    if v == 0 {
        assert forall|j: u64| j < 64 implies !#[trigger] bit(v, j) by {
            assert((0u64 >> j) & 1u64 == 0u64) by (bit_vector);
        }
    } else {
        let t = vstd::std_specs::bits::u64_trailing_zeros(v);
        vstd::std_specs::bits::axiom_u64_trailing_zeros(v);
        assert(bit(v, t as u64));
    }
}

/// The number of ones in the binary representation of `v`.
pub open spec fn popcount(v: u64) -> nat
    decreases v,
{
    if v == 0 {
        0
    } else {
        (v % 2) as nat + popcount(v / 2)
    }
}

/// `u64::count_ones`: the number of ones in the binary representation of `v`.
#[verifier::external_body]
fn u64_count_ones(v: u64) -> (r: u32)
    ensures
        r == popcount(v),
{
    v.count_ones()
}

/// The number of set bits of `v` below position `n`.
spec fn count_below(v: u64, n: nat) -> nat
    decreases n,
{
    if n == 0 {
        0
    } else {
        count_below(v, (n - 1) as nat) + if bit(v, (n - 1) as u64) {
            1nat
        } else {
            0nat
        }
    }
}

proof fn lemma_count_below_shift(v: u64, n: nat)
    requires
        n < 64,
    ensures
        count_below(v, n + 1) == (v % 2) as nat + count_below(v / 2, n),
    decreases n,
{
    if n == 0 {
        assert(bit(v, 0) == (v % 2 == 1)) by (bit_vector);
        assert(count_below(v, 0) == 0);
        assert(count_below(v, 1) == count_below(v, 0) + if bit(v, 0) { 1nat } else { 0nat });
    } else {
        lemma_count_below_shift(v, (n - 1) as nat);
        let m = (n - 1) as u64;
        assert(bit(v, (m + 1) as u64) == bit(v / 2, m)) by (bit_vector)
            requires
                m < 63,
        ;
        assert(count_below(v, n + 1) == count_below(v, n) + if bit(v, n as u64) {
            1nat
        } else {
            0nat
        });
    }
}

proof fn lemma_count_below_le(v: u64, n: nat)
    ensures
        count_below(v, n) <= n,
    decreases n,
{
    if n > 0 {
        lemma_count_below_le(v, (n - 1) as nat);
    }
}

proof fn lemma_count_below_zero(n: nat)
    requires
        n <= 64,
    ensures
        count_below(0, n) == 0,
    decreases n,
{
    if n > 0 {
        lemma_count_below_zero((n - 1) as nat);
        let m = (n - 1) as u64;
        assert(!bit(0, m)) by (bit_vector);
    }
}

proof fn lemma_popcount_count_below(v: u64)
    ensures
        popcount(v) == count_below(v, 64),
    decreases v,
{
    if v == 0 {
        lemma_count_below_zero(64);
    } else {
        lemma_popcount_count_below(v / 2);
        lemma_count_below_shift(v, 63);
        let h = v / 2;
        assert(!bit(h, 63)) by (bit_vector)
            requires
                h == v / 2,
        ;
        assert(count_below(h, 64) == count_below(h, 63) + if bit(h, 63) { 1nat } else { 0nat });
    }
}

/// The live cells of row `y`, as positions, if that row is the word `v`
/// and only its bits below `n` are looked at.
spec fn row_cells(v: u64, y: int, n: nat) -> Set<(int, int)> {
    Set::new(|p: (int, int)| p.1 == y && 0 <= p.0 < n && bit(v, p.0 as u64))
}

proof fn lemma_row_cells_len(v: u64, y: int, n: nat)
    requires
        n <= 64,
    ensures
        row_cells(v, y, n).finite(),
        row_cells(v, y, n).len() == count_below(v, n),
    decreases n,
{
    if n == 0 {
        assert(row_cells(v, y, n) =~= Set::<(int, int)>::empty());
    } else {
        let m = (n - 1) as nat;
        lemma_row_cells_len(v, y, m);
        if bit(v, m as u64) {
            assert(row_cells(v, y, n) =~= row_cells(v, y, m).insert((m as int, y)));
        } else {
            assert(row_cells(v, y, n) =~= row_cells(v, y, m));
        }
    }
}

/// Clearing the lowest set bit of a nonzero word, `w & (w - 1)`, clears bit
/// `t = w.trailing_zeros()` and keeps every other bit.
proof fn lemma_clear_lowest_bit(w: u64, t: u64, j: u64)
    requires
        t < 64,
        j < 64,
        (w >> t) & 1u64 == 1u64,
        w << (64 - t) as u64 == 0,
    ensures
        bit(w & (w - 1) as u64, j) == (bit(w, j) && j != t),
        (w & (w - 1) as u64) < w,
{
    assert((((w & (w - 1) as u64) >> j) & 1u64 == 1u64) == (((w >> j) & 1u64 == 1u64) && j != t)
        && (w & (w - 1) as u64) < w) by (bit_vector)
        requires
            t < 64,
            j < 64,
            (w >> t) & 1u64 == 1u64,
            w << (64 - t) as u64 == 0,
    ;
}

/// Row-major order on local positions: by row, then by column.
pub open spec fn row_major_lt(a: (i32, i32), b: (i32, i32)) -> bool {
    a.1 < b.1 || (a.1 == b.1 && a.0 < b.0)
}

/// A 64 x 64 square of cells; bit `x` of `rows[y]` is the cell at local
/// position `(x, y)`.
#[derive(Debug, Clone)]
pub struct Chunk {
    rows: [u64; 64],
}

impl Chunk {
    /// Whether the cell at local position `(x, y)` is alive.
    pub closed spec fn cell(self, x: int, y: int) -> bool {
        0 <= x < 64 && 0 <= y < 64 && bit(self.rows[y], x as u64)
    }

    /// The live cells, as local positions `(x, y)` in `0..64 x 0..64`.
    pub closed spec fn cells(self) -> Set<(int, int)> {
        Set::new(|p: (int, int)| self.cell(p.0, p.1))
    }

    /// Every live cell lies inside the chunk.
    pub proof fn lemma_cells_in_bounds(self)
        ensures
            forall|p: (int, int)|
                #[trigger] self.cells().contains(p) ==> 0 <= p.0 < 64 && 0 <= p.1 < 64,
    {
    }

    pub fn new() -> (c: Self)
        ensures
            c.cells() == Set::<(int, int)>::empty(),
    {
        let c = Self { rows: [0u64; 64] };
        proof {
            assert forall|p: (int, int)| !c.cells().contains(p) by {
                if 0 <= p.1 < 64 && 0 <= p.0 < 64 {
                    assert(c.rows[p.1] == 0);
                    lemma_zero_iff_no_bit(0);
                    assert(!bit(0, p.0 as u64));
                }
            }
            assert(c.cells() =~= Set::<(int, int)>::empty());
        }
        c
    }

    /// Whether the cell at local position `(x, y)` is alive.
    pub fn get_cell(&self, x: i32, y: i32) -> (alive: bool)
        requires
            0 <= x < 64,
            0 <= y < 64,
        ensures
            alive == self.cells().contains((x as int, y as int)),
    {
        (self.rows[y as usize] >> (x as u64)) & 1 == 1
    }

    /// Makes the cell at local position `(x, y)` alive or dead.
    pub fn set_cell(&mut self, x: i32, y: i32, alive: bool)
        requires
            0 <= x < 64,
            0 <= y < 64,
        ensures
            final(self).cells() == if alive {
                old(self).cells().insert((x as int, y as int))
            } else {
                old(self).cells().remove((x as int, y as int))
            },
    {
        let yi = y as usize;
        let xs = x as u64;
        let old_row = self.rows[yi];
        if alive {
            self.rows[yi] = old_row | (1u64 << xs);
        } else {
            self.rows[yi] = old_row & !(1u64 << xs);
        }
        proof {
            let target = if alive {
                old(self).cells().insert((x as int, y as int))
            } else {
                old(self).cells().remove((x as int, y as int))
            };
            assert forall|p: (int, int)| self.cells().contains(p) == target.contains(p) by {
                if 0 <= p.0 < 64 && 0 <= p.1 < 64 {
                    if p.1 == y as int {
                        if alive {
                            lemma_bit_set(old_row, xs, p.0 as u64);
                        } else {
                            lemma_bit_clear(old_row, xs, p.0 as u64);
                        }
                    } else {
                        assert(self.rows[p.1] == old(self).rows[p.1]);
                    }
                }
            }
            assert(self.cells() =~= target);
        }
    }

    /// Whether no cell of the chunk is alive.
    pub fn is_empty(&self) -> (empty: bool)
        ensures
            empty == (self.cells() == Set::<(int, int)>::empty()),
    {
        let mut i: usize = 0;
        while i < 64
            invariant
                i <= 64,
                forall|j: int| 0 <= j < i ==> self.rows[j] == 0,
            decreases 64 - i,
        {
            if self.rows[i] != 0 {
                proof {
                    lemma_zero_iff_no_bit(self.rows[i as int]);
                    let b = choose|b: u64| b < 64 && bit(self.rows[i as int], b);
                    assert(self.cells().contains((b as int, i as int)));
                    assert(self.cells() != Set::<(int, int)>::empty());
                }
                return false;
            }
            i += 1;
        }
        proof {
            assert forall|p: (int, int)| !self.cells().contains(p) by {
                if 0 <= p.1 < 64 && 0 <= p.0 < 64 {
                    lemma_zero_iff_no_bit(self.rows[p.1]);
                    assert(!bit(self.rows[p.1], p.0 as u64));
                }
            }
            assert(self.cells() =~= Set::<(int, int)>::empty());
        }
        true
    }

    /// The live cells whose row is below `k`.
    closed spec fn cells_below_row(self, k: int) -> Set<(int, int)> {
        Set::new(|p: (int, int)| self.cell(p.0, p.1) && p.1 < k)
    }

    /// The number of live cells.
    pub fn active_count(&self) -> (n: usize)
        ensures
            self.cells().finite(),
            n == self.cells().len(),
    {
        let mut total: usize = 0;
        let mut i: usize = 0;
        proof {
            assert(self.cells_below_row(0) =~= Set::<(int, int)>::empty());
        }
        while i < 64
            invariant
                i <= 64,
                self.cells_below_row(i as int).finite(),
                total == self.cells_below_row(i as int).len(),
                total <= 64 * i,
            decreases 64 - i,
        {
            let c = u64_count_ones(self.rows[i]);
            proof {
                let v = self.rows[i as int];
                lemma_popcount_count_below(v);
                lemma_row_cells_len(v, i as int, 64);
                let before = self.cells_below_row(i as int);
                let row = row_cells(v, i as int, 64);
                assert(self.cells_below_row(i + 1) =~= before.union(row));
                assert(before.disjoint(row));
                vstd::set_lib::lemma_set_disjoint_lens(before, row);
                lemma_count_below_le(v, 64);
            }
            total = total + c as usize;
            i += 1;
        }
        proof {
            assert(self.cells_below_row(64) =~= self.cells());
        }
        total
    }

    /// The live cells in row-major order (by row, then by column), as local
    /// positions `(x, y)`.
    pub fn iter_active(&self) -> (r: Vec<(i32, i32)>)
        ensures
            forall|i: int|
                0 <= i < r.len() ==> self.cells().contains((r[i].0 as int, r[i].1 as int)),
            forall|p: (int, int)| #[trigger]
                self.cells().contains(p) ==> exists|i: int|
                    0 <= i < r.len() && r[i].0 == p.0 && r[i].1 == p.1,
            forall|i: int, j: int| 0 <= i < j < r.len() ==> row_major_lt(r[i], r[j]),
    {
        let mut out: Vec<(i32, i32)> = Vec::new();
        let mut y: usize = 0;
        while y < 64
            invariant
                y <= 64,
                forall|i: int|
                    0 <= i < out.len() ==> self.cells().contains((out[i].0 as int, out[i].1 as int))
                        && out[i].1 < y,
                forall|p: (int, int)| #[trigger]
                    self.cells().contains(p) && p.1 < y ==> exists|i: int|
                        0 <= i < out.len() && out[i].0 == p.0 && out[i].1 == p.1,
                forall|i: int, j: int| 0 <= i < j < out.len() ==> row_major_lt(out[i], out[j]),
            decreases 64 - y,
        {
            let row = self.rows[y];
            let mut bits = row;
            let ghost mut lo: int = 0;
            while bits != 0
                invariant
                    y < 64,
                    row == self.rows[y as int],
                    0 <= lo <= 64,
                    forall|j: u64| j < 64 ==> #[trigger] bit(bits, j) == (bit(row, j) && j >= lo),
                    forall|i: int|
                        0 <= i < out.len() ==> self.cells().contains(
                            (out[i].0 as int, out[i].1 as int),
                        ) && (out[i].1 < y || (out[i].1 == y && out[i].0 < lo)),
                    forall|p: (int, int)| #[trigger]
                        self.cells().contains(p) && (p.1 < y || (p.1 == y && p.0 < lo))
                            ==> exists|i: int|
                            0 <= i < out.len() && out[i].0 == p.0 && out[i].1 == p.1,
                    forall|i: int, j: int| 0 <= i < j < out.len() ==> row_major_lt(out[i], out[j]),
                decreases bits,
            {
                let pos = bits.trailing_zeros();
                let ghost old_out = out@;
                let ghost old_bits = bits;
                proof {
                    vstd::std_specs::bits::axiom_u64_trailing_zeros(bits);
                    assert(bit(bits, pos as u64));
                    assert(pos >= lo);
                    assert forall|j: u64| j < pos implies !#[trigger] bit(bits, j) by {
                        assert((bits >> j) & 1u64 == 0u64);
                    }
                }
                out.push((pos as i32, y as i32));
                proof {
                    let t = pos as u64;
                    assert forall|j: u64| j < 64 implies #[trigger] bit(old_bits & (old_bits - 1) as u64, j) == (bit(row, j) && j >= pos + 1) by {
                        lemma_clear_lowest_bit(old_bits, t, j);
                    }
                    lemma_clear_lowest_bit(old_bits, t, 0);
                    assert forall|p: (int, int)| #[trigger]
                        self.cells().contains(p) && (p.1 < y || (p.1 == y && p.0 < pos + 1))
                            implies exists|i: int|
                            0 <= i < out.len() && out[i].0 == p.0 && out[i].1 == p.1 by {
                        if p.1 < y || (p.1 == y && p.0 < lo) {
                            let i = choose|i: int|
                                0 <= i < old_out.len() && old_out[i].0 == p.0 && old_out[i].1 == p.1;
                            assert(out[i] == old_out[i]);
                        } else if p.0 == pos {
                            assert(out[old_out.len() as int] == (pos as i32, y as i32));
                        } else {
                            assert(bit(row, p.0 as u64));
                            assert(bit(old_bits, p.0 as u64));
                            assert(false);
                        }
                    }
                    lo = pos + 1;
                }
                bits = bits & (bits - 1);
            }
            proof {
                assert forall|p: (int, int)| #[trigger]
                    self.cells().contains(p) && p.1 < y + 1 implies exists|i: int|
                        0 <= i < out.len() && out[i].0 == p.0 && out[i].1 == p.1 by {
                    if p.1 == y && p.0 >= lo {
                        assert(bit(row, p.0 as u64));
                        assert(bit(bits, p.0 as u64));
                        lemma_zero_iff_no_bit(bits);
                    }
                }
            }
            y += 1;
        }
        out
    }

    /// Kills every cell of the chunk.
    pub fn clear(&mut self)
        ensures
            final(self).cells() == Set::<(int, int)>::empty(),
    {
        *self = Self::new();
    }
}

/// After `set_cell(x, y, alive)` the cell `(x, y)` reads `alive` and every
/// other cell reads as before.
pub proof fn lemma_chunk_get_after_set(
    before: Chunk,
    after: Chunk,
    x: int,
    y: int,
    alive: bool,
    q: (int, int),
)
    requires
        after.cells() == if alive {
            before.cells().insert((x, y))
        } else {
            before.cells().remove((x, y))
        },
    ensures
        after.cells().contains((x, y)) == alive,
        q != (x, y) ==> after.cells().contains(q) == before.cells().contains(q),
{
}

/// `active_count` is 0 exactly when `is_empty` holds.
pub proof fn lemma_count_zero_iff_empty(c: Chunk)
    ensures
        c.cells().finite(),
        (c.cells().len() == 0) == (c.cells() == Set::<(int, int)>::empty()),
{
    assert(c.cells().subset_of(Set::new(|p: (int, int)| 0 <= p.0 < 64 && 0 <= p.1 < 64)));
    c.lemma_cells_finite();
    if c.cells().len() == 0 {
        c.cells().lemma_len0_is_empty();
    }
}

impl Chunk {
    /// The live cells of a chunk form a finite set.
    proof fn lemma_cells_finite(self)
        ensures
            self.cells().finite(),
    {
        assert(self.cells_below_row(64) =~= self.cells());
        self.lemma_cells_below_row_finite(64);
    }

    proof fn lemma_cells_below_row_finite(self, k: nat)
        requires
            k <= 64,
        ensures
            self.cells_below_row(k as int).finite(),
        decreases k,
    {
        if k == 0 {
            assert(self.cells_below_row(0) =~= Set::<(int, int)>::empty());
        } else {
            self.lemma_cells_below_row_finite((k - 1) as nat);
            let v = self.rows[k - 1];
            lemma_row_cells_len(v, k - 1, 64);
            assert(self.cells_below_row(k as int) =~= self.cells_below_row(k - 1).union(
                row_cells(v, k - 1, 64),
            ));
        }
    }

    /// Two chunks hold the same live cells exactly when their rows are equal.
    proof fn lemma_cells_eq_iff_rows_eq(self, other: Chunk)
        ensures
            (self.cells() == other.cells()) == (self.rows@ == other.rows@),
    {
        if self.cells() == other.cells() {
            assert forall|y: int| 0 <= y < 64 implies self.rows@[y] == other.rows@[y] by {
                assert forall|j: u64| j < 64 implies #[trigger] bit(self.rows[y], j) == bit(
                    other.rows[y],
                    j,
                ) by {
                    assert(self.cells().contains((j as int, y)) == other.cells().contains(
                        (j as int, y),
                    ));
                }
                lemma_bits_determine_word(self.rows[y], other.rows[y]);
            }
            assert(self.rows@ =~= other.rows@);
        }
        if self.rows@ == other.rows@ {
            assert forall|p: (int, int)| self.cells().contains(p) == other.cells().contains(p) by {
                if 0 <= p.1 < 64 {
                    assert(self.rows@[p.1] == other.rows@[p.1]);
                }
            }
            assert(self.cells() =~= other.cells());
        }
    }
}

impl PartialEq for Chunk {
    fn eq(&self, other: &Self) -> (r: bool) {
        let mut i: usize = 0;
        while i < 64
            invariant
                i <= 64,
                forall|j: int| 0 <= j < i ==> self.rows[j] == other.rows[j],
            decreases 64 - i,
        {
            if self.rows[i] != other.rows[i] {
                proof {
                    self.lemma_cells_eq_iff_rows_eq(*other);
                    assert(self.rows@[i as int] != other.rows@[i as int]);
                }
                return false;
            }
            i += 1;
        }
        proof {
            assert(self.rows@ =~= other.rows@);
            self.lemma_cells_eq_iff_rows_eq(*other);
        }
        true
    }
}

impl vstd::std_specs::cmp::PartialEqSpecImpl for Chunk {
    open spec fn obeys_eq_spec() -> bool {
        true
    }

    open spec fn eq_spec(&self, other: &Chunk) -> bool {
        self.cells() == other.cells()
    }
}

impl Eq for Chunk {

}

impl Default for Chunk {
    fn default() -> (c: Self)
        ensures
            c.cells() == Set::<(int, int)>::empty(),
    {
        Self::new()
    }
}

} // verus!
