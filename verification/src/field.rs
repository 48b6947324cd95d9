//! The velocity field: the escape velocity of every sample of a grid.
//!
//! The grid gives each pixel an exact sample point; `place` takes it into the
//! number type of the iteration (and may remap it on the way). Every cell is
//! computed from its own sample alone, so the rows can be computed one by
//! one, in any order, or side by side.

use vstd::prelude::*;
use crate::escape::{
    diverge,
    escapes_after,
    is_deterministic,
    is_deterministic2,
    lemma_escape_velocity_unique,
};
use crate::grid::{lemma_sample_unique, Grid, GridView, Sample};

verus! {

/// `v` is an escape velocity of the pixel `(x, y)`: of the point where
/// `place` puts the pixel's sample.
pub open spec fn is_velocity<Z, P: Fn(Sample) -> Z, N: Fn(Z, Z) -> Z, W: Fn(Z) -> bool>(
    g: GridView,
    x: int,
    y: int,
    place: P,
    next: N,
    within: W,
    cap: u32,
    v: u32,
) -> bool {
    exists|s: Sample, c: Z|
        {
            &&& g.is_sample(x, y, s)
            &&& #[trigger] call_ensures(place, (s,), c)
            &&& escapes_after(c, next, within, cap, v)
        }
}

/// `row` holds an escape velocity for each pixel of row `y`, in the order of
/// the columns.
pub open spec fn is_row<Z, P: Fn(Sample) -> Z, N: Fn(Z, Z) -> Z, W: Fn(Z) -> bool>(
    g: GridView,
    y: int,
    place: P,
    next: N,
    within: W,
    cap: u32,
    row: Seq<u32>,
) -> bool {
    &&& row.len() == g.width
    &&& forall|x: int|
        0 <= x < row.len() ==> is_velocity(g, x, y, place, next, within, cap, #[trigger] row[x])
}

/// `field` holds a row of escape velocities for each pixel row, in order.
pub open spec fn is_field<Z, P: Fn(Sample) -> Z, N: Fn(Z, Z) -> Z, W: Fn(Z) -> bool>(
    g: GridView,
    place: P,
    next: N,
    within: W,
    cap: u32,
    field: Seq<Seq<u32>>,
) -> bool {
    &&& field.len() == g.height
    &&& forall|y: int|
        0 <= y < field.len() ==> is_row(g, y, place, next, within, cap, #[trigger] field[y])
}

/// The rows of a field as sequences.
pub open spec fn rows_of(field: Vec<Vec<u32>>) -> Seq<Seq<u32>> {
    Seq::new(field@.len(), |y: int| field@[y]@)
}

/// The escape velocities of row `y`, one per column, each at most `cap`.
pub fn velocity_row<
    Z: Copy,
    P: Fn(Sample) -> Z,
    N: Fn(Z, Z) -> Z + Copy,
    W: Fn(Z) -> bool + Copy,
>(grid: &Grid, y: u32, place: &P, next: N, within: W, cap: u32) -> (row: Vec<u32>)
    requires
        y < grid@.height,
        forall|s: Sample| call_requires(*place, (s,)),
        forall|z: Z| call_requires(within, (z,)),
        forall|z: Z, w: Z| call_requires(next, (z, w)),
    ensures
        is_row(grid@, y as int, *place, next, within, cap, row@),
        forall|x: int| 0 <= x < row@.len() ==> (#[trigger] row@[x]) <= cap,
{
    let width: u32 = grid.width();
    let mut row: Vec<u32> = Vec::new();
    let mut x: u32 = 0;
    while x < width
        invariant
            x <= width,
            width == grid@.width,
            y < grid@.height,
            row@.len() == x,
            forall|s: Sample| call_requires(*place, (s,)),
            forall|z: Z| call_requires(within, (z,)),
            forall|z: Z, w: Z| call_requires(next, (z, w)),
            forall|i: int| 0 <= i < row@.len() ==> (#[trigger] row@[i]) <= cap,
            forall|i: int|
                0 <= i < row@.len() ==> is_velocity(
                    grid@,
                    i,
                    y as int,
                    *place,
                    next,
                    within,
                    cap,
                    #[trigger] row@[i],
                ),
        decreases width - x,
    {
        let s = grid.sample(x, y);
        let c = place(s);
        let v: u32 = diverge(c, next, within, cap);
        assert(is_velocity(grid@, x as int, y as int, *place, next, within, cap, v));
        row.push(v);
        x = x + 1;
    }
    row
}

/// The velocity field of `grid`: one row per pixel row, one entry per
/// column, each the escape velocity of its pixel and at most `cap`.
pub fn velocity_field<
    Z: Copy,
    P: Fn(Sample) -> Z,
    N: Fn(Z, Z) -> Z + Copy,
    W: Fn(Z) -> bool + Copy,
>(grid: &Grid, place: &P, next: N, within: W, cap: u32) -> (field: Vec<Vec<u32>>)
    requires
        forall|s: Sample| call_requires(*place, (s,)),
        forall|z: Z| call_requires(within, (z,)),
        forall|z: Z, w: Z| call_requires(next, (z, w)),
    ensures
        is_field(grid@, *place, next, within, cap, rows_of(field)),
        forall|y: int, x: int|
            0 <= y < field@.len() && 0 <= x < field@[y]@.len() ==> (#[trigger] field@[y]@[x])
                <= cap,
{
    let height: u32 = grid.height();
    let mut field: Vec<Vec<u32>> = Vec::new();
    let mut y: u32 = 0;
    while y < height
        invariant
            y <= height,
            height == grid@.height,
            field@.len() == y,
            forall|s: Sample| call_requires(*place, (s,)),
            forall|z: Z| call_requires(within, (z,)),
            forall|z: Z, w: Z| call_requires(next, (z, w)),
            forall|j: int|
                0 <= j < field@.len() ==> is_row(
                    grid@,
                    j,
                    *place,
                    next,
                    within,
                    cap,
                    (#[trigger] field@[j])@,
                ),
            forall|j: int, x: int|
                0 <= j < field@.len() && 0 <= x < field@[j]@.len() ==> (
                #[trigger] field@[j]@[x]) <= cap,
        decreases height - y,
    {
        let row = velocity_row(grid, y, place, next, within, cap);
        field.push(row);
        y = y + 1;
    }
    field
}

/// With a placement, a step and a test that each give one value only, a
/// pixel has one escape velocity.
pub proof fn lemma_velocity_unique<Z, P: Fn(Sample) -> Z, N: Fn(Z, Z) -> Z, W: Fn(Z) -> bool>(
    g: GridView,
    x: int,
    y: int,
    place: P,
    next: N,
    within: W,
    cap: u32,
    first: u32,
    second: u32,
)
    requires
        g.wf(),
        is_deterministic(place),
        is_deterministic2(next),
        is_deterministic(within),
        is_velocity(g, x, y, place, next, within, cap, first),
        is_velocity(g, x, y, place, next, within, cap, second),
    ensures
        first == second,
{
    let (s, c) = choose|s: Sample, c: Z|
        {
            &&& g.is_sample(x, y, s)
            &&& #[trigger] call_ensures(place, (s,), c)
            &&& escapes_after(c, next, within, cap, first)
        };
    let (t, d) = choose|t: Sample, d: Z|
        {
            &&& g.is_sample(x, y, t)
            &&& #[trigger] call_ensures(place, (t,), d)
            &&& escapes_after(d, next, within, cap, second)
        };
    lemma_sample_unique(g, x, y, s, t);
    lemma_escape_velocity_unique(c, next, within, cap, first, second);
}

/// With a placement, a step and a test that each give one value only, a grid
/// has one velocity field: computing it twice, or putting it together from
/// rows that were computed apart, gives the same entries.
pub proof fn lemma_field_unique<Z, P: Fn(Sample) -> Z, N: Fn(Z, Z) -> Z, W: Fn(Z) -> bool>(
    g: GridView,
    place: P,
    next: N,
    within: W,
    cap: u32,
    first: Seq<Seq<u32>>,
    second: Seq<Seq<u32>>,
)
    requires
        g.wf(),
        is_deterministic(place),
        is_deterministic2(next),
        is_deterministic(within),
        is_field(g, place, next, within, cap, first),
        is_field(g, place, next, within, cap, second),
    ensures
        first == second,
{
    assert forall|y: int| 0 <= y < first.len() implies first[y] == second[y] by {
        assert forall|x: int| 0 <= x < first[y].len() implies first[y][x] == second[y][x] by {
            lemma_velocity_unique(
                g,
                x,
                y,
                place,
                next,
                within,
                cap,
                first[y][x],
                second[y][x],
            );
        }
        assert(first[y] =~= second[y]);
    }
    assert(first =~= second);
}

} // verus!
