//! Placing a pattern of cells on a board, centred on a chosen cell.
use vstd::prelude::*;
use crate::coords::Coord;
use crate::world::World;

verus! {

/// `v / 2` rounded towards zero, as Rust's `/` on integers rounds.
pub open spec fn half_toward_zero(v: int) -> int {
    if v >= 0 {
        v / 2
    } else {
        -((-v) / 2)
    }
}

/// `half_toward_zero(v)` is half of `v`, the remainder dropped towards zero:
/// twice it is `v` or one less than `v` for `v >= 0`, and `v` or one more
/// than `v` for `v < 0`; it is never further from zero than `v`.
pub proof fn lemma_half_toward_zero(v: int)
    ensures
        v >= 0 ==> 0 <= 2 * half_toward_zero(v) <= v <= 2 * half_toward_zero(v) + 1,
        v < 0 ==> 2 * half_toward_zero(v) - 1 <= v <= 2 * half_toward_zero(v) <= 0,
{
}

/// The smallest and largest `x`, then `y`, of a nonempty list of cells.
pub open spec fn is_bounding_box(cells: Seq<(i32, i32)>, b: (i32, i32, i32, i32)) -> bool {
    &&& forall|i: int|
        0 <= i < cells.len() ==> b.0 <= #[trigger] cells[i].0 <= b.1 && b.2 <= cells[i].1 <= b.3
    &&& exists|i: int| 0 <= i < cells.len() && #[trigger] cells[i].0 == b.0
    &&& exists|i: int| 0 <= i < cells.len() && #[trigger] cells[i].0 == b.1
    &&& exists|i: int| 0 <= i < cells.len() && #[trigger] cells[i].1 == b.2
    &&& exists|i: int| 0 <= i < cells.len() && #[trigger] cells[i].1 == b.3
}

/// The centre of the bounding box of `cells`, each coordinate the midpoint of
/// its extremes rounded towards zero, or `None` for an empty list.
pub fn pattern_center(cells: &Vec<(i32, i32)>) -> (r: Option<(i32, i32)>)
    requires
        forall|b: (i32, i32, i32, i32)| #[trigger]
            is_bounding_box(cells@, b) ==> i32::MIN <= b.0 + b.1 <= i32::MAX && i32::MIN <= b.2
                + b.3 <= i32::MAX,
    ensures
        r is None <==> cells.len() == 0,
        r matches Some(c) ==> exists|b: (i32, i32, i32, i32)|
            is_bounding_box(cells@, b) && c.0 == half_toward_zero(b.0 + b.1) && c.1
                == half_toward_zero(b.2 + b.3) && (b.0 + b.1 >= 0 ==> 2 * c.0 <= b.0 + b.1 <= 2
                * c.0 + 1) && (b.0 + b.1 < 0 ==> 2 * c.0 - 1 <= b.0 + b.1 <= 2 * c.0) && (b.2
                + b.3 >= 0 ==> 2 * c.1 <= b.2 + b.3 <= 2 * c.1 + 1) && (b.2 + b.3 < 0 ==> 2 * c.1
                - 1 <= b.2 + b.3 <= 2 * c.1),
{
    if cells.len() == 0 {
        return None;
    }
    let mut min_x = i32::MAX;
    let mut max_x = i32::MIN;
    let mut min_y = i32::MAX;
    let mut max_y = i32::MIN;
    let ghost mut wa: int = 0;
    let ghost mut wb: int = 0;
    let ghost mut wc: int = 0;
    let ghost mut wd: int = 0;
    let mut i: usize = 0;
    while i < cells.len()
        invariant
            i <= cells.len(),
            i == 0 ==> wa == 0 && wb == 0 && wc == 0 && wd == 0 && min_x == i32::MAX && max_x
                == i32::MIN && min_y == i32::MAX && max_y == i32::MIN,
            forall|j: int|
                0 <= j < i ==> min_x <= #[trigger] cells[j].0 <= max_x && min_y <= cells[j].1
                    <= max_y,
            i > 0 ==> 0 <= wa < i && cells[wa].0 == min_x,
            i > 0 ==> 0 <= wb < i && cells[wb].0 == max_x,
            i > 0 ==> 0 <= wc < i && cells[wc].1 == min_y,
            i > 0 ==> 0 <= wd < i && cells[wd].1 == max_y,
        decreases cells.len() - i,
    {
        let (x, y) = cells[i];
        if x < min_x {
            min_x = x;
            proof {
                wa = i as int;
            }
        }
        if x > max_x {
            max_x = x;
            proof {
                wb = i as int;
            }
        }
        if y < min_y {
            min_y = y;
            proof {
                wc = i as int;
            }
        }
        if y > max_y {
            max_y = y;
            proof {
                wd = i as int;
            }
        }
        i += 1;
    }
    proof {
        assert(is_bounding_box(cells@, (min_x, max_x, min_y, max_y)));
    }
    let center_x = (min_x + max_x) / 2;
    let center_y = (min_y + max_y) / 2;
    proof {
        let b = (min_x, max_x, min_y, max_y);
        assert(is_bounding_box(cells@, b));
        lemma_half_toward_zero(min_x + max_x);
        lemma_half_toward_zero(min_y + max_y);
    }
    Some((center_x, center_y))
}

/// Whether every cell of `cells`, moved so that `center` lands on `at`, has
/// `i32` coordinates at every step of that move.
pub open spec fn placement_fits(cells: Seq<(i32, i32)>, center: (i32, i32), at: Coord) -> bool {
    forall|i: int|
        0 <= i < cells.len() ==> {
            &&& i32::MIN <= at.x + #[trigger] cells[i].0 <= i32::MAX
            &&& i32::MIN <= at.x + cells[i].0 - center.0 <= i32::MAX
            &&& i32::MIN <= at.y + cells[i].1 <= i32::MAX
            &&& i32::MIN <= at.y + cells[i].1 - center.1 <= i32::MAX
        }
}

/// The cell where pattern cell `d` lands when `center` is moved to `at`.
pub open spec fn placed(d: (i32, i32), center: (i32, i32), at: Coord) -> (int, int) {
    (at.x + d.0 - center.0, at.y + d.1 - center.1)
}

/// Pattern cell `d` lands `d - center` away from `at`, so the centre itself
/// lands on `at`.
pub proof fn lemma_placed_offset(d: (i32, i32), center: (i32, i32), at: Coord)
    ensures
        placed(d, center, at).0 - at.x == d.0 - center.0,
        placed(d, center, at).1 - at.y == d.1 - center.1,
        placed(center, center, at) == at@,
{
}

/// Makes alive every cell of the pattern `cells`, moved so that `center`
/// lands on `at`.
pub fn place_pattern(world: &mut World, cells: &Vec<(i32, i32)>, center: (i32, i32), at: Coord)
    requires
        old(world).wf(),
        placement_fits(cells@, center, at),
    ensures
        final(world).wf(),
        final(world).cells() == old(world).cells().union(
            Set::new(
                |p: (int, int)|
                    exists|i: int| 0 <= i < cells.len() && p == placed(#[trigger] cells[i], center, at),
            ),
        ),
        forall|i: int|
            0 <= i < cells.len() ==> final(world).cells().contains(
                (at.x + (#[trigger] cells[i]).0 - center.0, at.y + cells[i].1 - center.1),
            ),
        forall|p: (int, int)| #[trigger]
            final(world).cells().contains(p) ==> old(world).cells().contains(p) || exists|i: int|
                0 <= i < cells.len() && p.0 == at.x + (#[trigger] cells[i]).0 - center.0 && p.1
                    == at.y + cells[i].1 - center.1,
        cells@.contains(center) ==> final(world).cells().contains(at@),
{
    let ghost start = world.cells();
    let mut i: usize = 0;
    while i < cells.len()
        invariant
            i <= cells.len(),
            world.wf(),
            placement_fits(cells@, center, at),
            world.cells() == start.union(
                Set::new(
                    |p: (int, int)|
                        exists|j: int| 0 <= j < i && p == placed(#[trigger] cells[j], center, at),
                ),
            ),
        decreases cells.len() - i,
    {
        let (dx, dy) = cells[i];
        proof {
            assert(i32::MIN <= at.x + cells[i as int].0 <= i32::MAX);
        }
        let coord = Coord::new(at.x + dx - center.0, at.y + dy - center.1);
        world.set_cell(coord, true);
        proof {
            assert(world.cells() =~= start.union(
                Set::new(
                    |p: (int, int)|
                        exists|j: int| 0 <= j < i + 1 && p == placed(#[trigger] cells[j], center, at),
                ),
            )) by {
                assert(coord@ == placed(cells[i as int], center, at));
            }
        }
        i += 1;
    }
}

} // verus!
