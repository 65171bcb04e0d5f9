//! Integer cell coordinates and how they split into a chunk index and an
//! offset inside that chunk.
use vstd::prelude::*;
use vstd::std_specs::ops::{AddSpec, SubSpec};

verus! {

/// A cell position on the unbounded (but `i32`-limited) board.
#[derive(Debug, Clone, Copy, PartialEq, Eq, Hash, Structural)]
pub struct Coord {
    pub x: i32,
    pub y: i32,
}

impl View for Coord {
    type V = (int, int);

    open spec fn view(&self) -> (int, int) {
        (self.x as int, self.y as int)
    }
}

/// Row-major order on cells: by `y`, then by `x`.
pub open spec fn row_major_before(a: (int, int), b: (int, int)) -> bool {
    a.1 < b.1 || (a.1 == b.1 && a.0 < b.0)
}

/// `i32::div_euclid`: the quotient `q` with `a == q * b + r` and `0 <= r < |b|`,
/// which is the Euclidean division that `/` denotes in specifications.
#[verifier::external_body]
fn i32_div_euclid(a: i32, b: i32) -> (q: i32)
    requires
        b != 0,
        !(a == i32::MIN && b == -1),
    ensures
        q == a as int / b as int,
{
    a.div_euclid(b)
}

/// `i32::rem_euclid`: the least non-negative remainder of `a` modulo `b`, which is
/// what `%` denotes in specifications.
#[verifier::external_body]
fn i32_rem_euclid(a: i32, b: i32) -> (r: i32)
    requires
        b != 0,
        !(a == i32::MIN && b == -1),
    ensures
        r == a as int % b as int,
{
    a.rem_euclid(b)
}

/// The 8 offsets of a cell's Moore neighbourhood, in the order in which
/// `Coord::neighbors` lists them: the row above left to right, then the left and
/// the right neighbour, then the row below left to right.
pub open spec fn neighbor_offset(i: int) -> (int, int) {
    if i == 0 { (-1, -1) }
    else if i == 1 { (0, -1) }
    else if i == 2 { (1, -1) }
    else if i == 3 { (-1, 0) }
    else if i == 4 { (1, 0) }
    else if i == 5 { (-1, 1) }
    else if i == 6 { (0, 1) }
    else { (1, 1) }
}

/// Whether `b` is `a` or one of its 8 neighbours (for cells as for chunks).
pub open spec fn within_one(a: (int, int), b: (int, int)) -> bool {
    a.0 - 1 <= b.0 <= a.0 + 1 && a.1 - 1 <= b.1 <= a.1 + 1
}

/// Whether all 8 neighbours of `(x, y)` are representable as `Coord`s.
pub open spec fn has_all_neighbors(x: int, y: int) -> bool {
    i32::MIN < x < i32::MAX && i32::MIN < y < i32::MAX
}

impl Coord {
    pub fn new(x: i32, y: i32) -> (c: Self)
        ensures
            c.x == x,
            c.y == y,
    {
        Self { x, y }
    }

    /// The index of the chunk of side `chunk_size` that holds this cell.
    pub fn chunk_coord(&self, chunk_size: i32) -> (r: (i32, i32))
        requires
            chunk_size != 0,
            !(chunk_size == -1 && (self.x == i32::MIN || self.y == i32::MIN)),
        ensures
            r.0 == self.x as int / chunk_size as int,
            r.1 == self.y as int / chunk_size as int,
    {
        (i32_div_euclid(self.x, chunk_size), i32_div_euclid(self.y, chunk_size))
    }

    /// The offset of this cell inside its chunk of side `chunk_size`.
    pub fn local_coord(&self, chunk_size: i32) -> (r: (i32, i32))
        requires
            chunk_size != 0,
            !(chunk_size == -1 && (self.x == i32::MIN || self.y == i32::MIN)),
        ensures
            r.0 == self.x as int % chunk_size as int,
            r.1 == self.y as int % chunk_size as int,
    {
        (i32_rem_euclid(self.x, chunk_size), i32_rem_euclid(self.y, chunk_size))
    }

    /// The 8 cells around this one, in the order of `neighbor_offset`.
    pub fn neighbors(&self) -> (r: [Coord; 8])
        requires
            has_all_neighbors(self.x as int, self.y as int),
        ensures
            forall|i: int|
                0 <= i < 8 ==> r[i].x == self.x + neighbor_offset(i).0 && r[i].y == self.y
                    + neighbor_offset(i).1,
    {
        let r = [
            Coord::new(self.x - 1, self.y - 1),
            Coord::new(self.x, self.y - 1),
            Coord::new(self.x + 1, self.y - 1),
            Coord::new(self.x - 1, self.y),
            Coord::new(self.x + 1, self.y),
            Coord::new(self.x - 1, self.y + 1),
            Coord::new(self.x, self.y + 1),
            Coord::new(self.x + 1, self.y + 1),
        ];
        assert(forall|i: int|
            0 <= i < 8 ==> r[i].x == self.x + neighbor_offset(i).0 && r[i].y == self.y
                + neighbor_offset(i).1) by {
            assert(r@[0] == Coord { x: (self.x - 1) as i32, y: (self.y - 1) as i32 });
        }
        r
    }
}

/// A coordinate is the chunk side times its chunk index plus its offset in the
/// chunk, and the offset lies in `0..chunk_size` (what `chunk_coord` and
/// `local_coord` return, together).
pub proof fn lemma_chunk_local_decompose(v: int, chunk_size: int)
    requires
        chunk_size > 0,
    ensures
        v == chunk_size * (v / chunk_size) + v % chunk_size,
        0 <= v % chunk_size < chunk_size,
{
    vstd::arithmetic::div_mod::lemma_fundamental_div_mod(v, chunk_size);
}

/// The 8 neighbour offsets are pairwise distinct and are exactly the nonzero
/// offsets of size at most 1 in each direction.
pub proof fn lemma_neighbor_offsets()
    ensures
        forall|i: int, j: int|
            0 <= i < j < 8 ==> #[trigger] neighbor_offset(i) != #[trigger] neighbor_offset(j),
        forall|i: int|
            0 <= i < 8 ==> within_one((0, 0), #[trigger] neighbor_offset(i)) && neighbor_offset(i)
                != (0int, 0int),
        forall|d: (int, int)|
            within_one((0, 0), d) && d != (0int, 0int) ==> exists|i: int|
                0 <= i < 8 && #[trigger] neighbor_offset(i) == d,
{
    assert forall|d: (int, int)|
        within_one((0, 0), d) && d != (0int, 0int) implies exists|i: int|
            0 <= i < 8 && #[trigger] neighbor_offset(i) == d by {
        let i: int = if d.1 == -1 {
            d.0 + 1
        } else if d.1 == 0 {
            if d.0 == -1 { 3 } else { 4 }
        } else {
            d.0 + 6
        };
        assert(neighbor_offset(i) == d);
    }
}

/// Subtracting what was added gives back the first operand.
pub proof fn lemma_add_then_sub(a: Coord, b: Coord)
    requires
        a.add_req(b),
    ensures
        a.add_spec(b).sub_req(b),
        a.add_spec(b).sub_spec(b) == a,
{
}

impl vstd::std_specs::ops::AddSpecImpl for Coord {
    open spec fn obeys_add_spec() -> bool {
        true
    }

    open spec fn add_req(self, rhs: Coord) -> bool {
        i32::MIN <= self.x + rhs.x <= i32::MAX && i32::MIN <= self.y + rhs.y <= i32::MAX
    }

    open spec fn add_spec(self, rhs: Coord) -> Coord {
        Coord { x: (self.x + rhs.x) as i32, y: (self.y + rhs.y) as i32 }
    }
}

impl core::ops::Add for Coord {
    type Output = Self;

    fn add(self, other: Self) -> (r: Self) {
        Self { x: self.x + other.x, y: self.y + other.y }
    }
}

impl vstd::std_specs::ops::SubSpecImpl for Coord {
    open spec fn obeys_sub_spec() -> bool {
        true
    }

    open spec fn sub_req(self, rhs: Coord) -> bool {
        i32::MIN <= self.x - rhs.x <= i32::MAX && i32::MIN <= self.y - rhs.y <= i32::MAX
    }

    open spec fn sub_spec(self, rhs: Coord) -> Coord {
        Coord { x: (self.x - rhs.x) as i32, y: (self.y - rhs.y) as i32 }
    }
}

impl core::ops::Sub for Coord {
    type Output = Self;

    fn sub(self, other: Self) -> (r: Self) {
        Self { x: self.x - other.x, y: self.y - other.y }
    }
}

} // verus!
