use vstd::prelude::*;
use crate::grid::square;
use crate::grid::with_cell;
use crate::grid::Grid;
use crate::region::lemma_subdividable_halves;
use crate::region::subdividable;
use crate::region::two_pow;
use crate::region::Region;

verus! {

/// The value that `table` holds in corner `index` of `region`.
pub open spec fn corner_value<T>(table: Seq<Seq<T>>, region: Region, index: int) -> T {
    table[region.corner_cell(index).0][region.corner_cell(index).1]
}

/// The value that `table` holds in the `index`-th cell that a step on
/// `region` writes.
pub open spec fn target_value<T>(table: Seq<Seq<T>>, region: Region, index: int) -> T {
    table[region.target_cell(index).0][region.target_cell(index).1]
}

/// The table after one step on `region` that writes `values`: the center
/// first, then the middles of the top, left, right and bottom edges.
#[verifier::opaque]
pub open spec fn stepped<T>(table: Seq<Seq<T>>, region: Region, values: Seq<T>) -> Seq<Seq<T>> {
    let t0 = with_cell(table, region.target_cell(0).0, region.target_cell(0).1, values[0]);
    let t1 = with_cell(t0, region.target_cell(1).0, region.target_cell(1).1, values[1]);
    let t2 = with_cell(t1, region.target_cell(2).0, region.target_cell(2).1, values[2]);
    let t3 = with_cell(t2, region.target_cell(3).0, region.target_cell(3).1, values[3]);
    with_cell(t3, region.target_cell(4).0, region.target_cell(4).1, values[4])
}

/// `value` is `m` displaced by a sample: what `shift` makes of `m` and of a
/// sample that `sample` hands out.
pub open spec fn displaced<T, S: Fn() -> T, A: Fn(T, T) -> T>(
    sample: &S,
    shift: &A,
    m: T,
    value: T,
) -> bool {
    exists|s: T| #[trigger] sample.ensures((), s) && shift.ensures((m, s), value)
}

/// `m` is a mean of the four corners of `region` in `table`, and each of the
/// five `values` is `m` displaced by a sample.
pub open spec fn sampled<T, M: Fn(T, T, T, T) -> T, S: Fn() -> T, A: Fn(T, T) -> T>(
    table: Seq<Seq<T>>,
    region: Region,
    mean: &M,
    sample: &S,
    shift: &A,
    m: T,
    values: Seq<T>,
) -> bool {
    &&& mean.ensures(
        (
            corner_value(table, region, 0),
            corner_value(table, region, 1),
            corner_value(table, region, 2),
            corner_value(table, region, 3),
        ),
        m,
    )
    &&& values.len() == 5
    &&& forall|j: int| 0 <= j < 5 ==> displaced(sample, shift, m, #[trigger] values[j])
}

/// `after` agrees with `before` in every cell outside `region` and, where the
/// region has a side of 3 or more, in the region's four corners.
#[verifier::opaque]
pub open spec fn untouched<T>(
    before: Seq<Seq<T>>,
    after: Seq<Seq<T>>,
    region: Region,
    dim: int,
) -> bool {
    &&& forall|r: int, c: int|
        0 <= r < dim && 0 <= c < dim && !region.contains(r, c) ==> #[trigger] after[r][c]
            == before[r][c]
    &&& region.side >= 3 ==> forall|i: int|
        0 <= i < 4 ==> #[trigger] corner_value(after, region, i) == corner_value(before, region, i)
}

/// The center of `region` and the middles of its four edges hold, in
/// `after`, displacements of one mean of the corners that the region had in
/// `before`.
#[verifier::opaque]
pub open spec fn displaced_from<T, M: Fn(T, T, T, T) -> T, S: Fn() -> T, A: Fn(T, T) -> T>(
    before: Seq<Seq<T>>,
    after: Seq<Seq<T>>,
    region: Region,
    mean: &M,
    sample: &S,
    shift: &A,
) -> bool {
    exists|m: T|
        {
            &&& #[trigger] mean.ensures(
                (
                    corner_value(before, region, 0),
                    corner_value(before, region, 1),
                    corner_value(before, region, 2),
                    corner_value(before, region, 3),
                ),
                m,
            )
            &&& forall|j: int|
                0 <= j < 5 ==> displaced(
                    sample,
                    shift,
                    m,
                    #[trigger] target_value(after, region, j),
                )
        }
}

/// A mean that gives one result for each four values.
pub open spec fn mean_is_function<T, M: Fn(T, T, T, T) -> T>(mean: &M) -> bool {
    forall|args: (T, T, T, T), x: T, y: T|
        #![trigger mean.ensures(args, x), mean.ensures(args, y)]
        mean.ensures(args, x) && mean.ensures(args, y) ==> x == y
}

/// A sample source that always hands out the same sample, and a shift
/// that gives one result for each two values.
pub open spec fn source_is_function<T, S: Fn() -> T, A: Fn(T, T) -> T>(
    sample: &S,
    shift: &A,
) -> bool {
    &&& forall|x: T, y: T|
        #![trigger sample.ensures((), x), sample.ensures((), y)]
        sample.ensures((), x) && sample.ensures((), y) ==> x == y
    &&& forall|args: (T, T), x: T, y: T|
        #![trigger shift.ensures(args, x), shift.ensures(args, y)]
        shift.ensures(args, x) && shift.ensures(args, y) ==> x == y
}

/// Where the source is a function, a mean has one displacement only.
pub proof fn lemma_one_displacement<T, S: Fn() -> T, A: Fn(T, T) -> T>(
    sample: &S,
    shift: &A,
    m: T,
    x: T,
    y: T,
)
    requires
        source_is_function(sample, shift),
        displaced(sample, shift, m, x),
        displaced(sample, shift, m, y),
    ensures
        x == y,
{
    let s1 = choose|s: T| #[trigger] sample.ensures((), s) && shift.ensures((m, s), x);
    let s2 = choose|s: T| #[trigger] sample.ensures((), s) && shift.ensures((m, s), y);
    assert(s1 == s2);
}

/// The table after one step on `region` where `mean` and the source are
/// functions: all five cells get the one displacement of the one mean.
pub open spec fn step_of<T, M: Fn(T, T, T, T) -> T, S: Fn() -> T, A: Fn(T, T) -> T>(
    table: Seq<Seq<T>>,
    region: Region,
    mean: &M,
    sample: &S,
    shift: &A,
) -> Seq<Seq<T>> {
    let m = choose|m: T|
        mean.ensures(
            (
                corner_value(table, region, 0),
                corner_value(table, region, 1),
                corner_value(table, region, 2),
                corner_value(table, region, 3),
            ),
            m,
        );
    let v = choose|v: T| displaced(sample, shift, m, v);
    stepped(table, region, seq![v, v, v, v, v])
}

/// The table that subdividing `region` of `table` gives where `mean` and
/// the source are functions: one step on the region, then the same on its
/// top-left, top-right, bottom-left and bottom-right quadrants in that
/// order, as long as the side is more than 3.
pub open spec fn refined<T, M: Fn(T, T, T, T) -> T, S: Fn() -> T, A: Fn(T, T) -> T>(
    table: Seq<Seq<T>>,
    region: Region,
    mean: &M,
    sample: &S,
    shift: &A,
) -> Seq<Seq<T>>
    decreases region.side,
{
    let first = step_of(table, region, mean, sample, shift);
    if region.side > 3 {
        let top_left = refined(first, region.quadrant_of(0), mean, sample, shift);
        let top_right = refined(top_left, region.quadrant_of(1), mean, sample, shift);
        let bottom_left = refined(top_right, region.quadrant_of(2), mean, sample, shift);
        refined(bottom_left, region.quadrant_of(3), mean, sample, shift)
    } else {
        first
    }
}

/// The regions that the subdivision of `region` visits, in the order of
/// their steps: the region itself, then those of its top-left, top-right,
/// bottom-left and bottom-right quadrants, as long as the side is more
/// than 3.
pub open spec fn visits(region: Region) -> Seq<Region>
    decreases region.side,
{
    if region.side > 3 {
        seq![region] + visits(region.quadrant_of(0)) + visits(region.quadrant_of(1)) + visits(
            region.quadrant_of(2),
        ) + visits(region.quadrant_of(3))
    } else {
        seq![region]
    }
}

/// `after` comes from `before` by one step on each of `regions` in turn:
/// each step takes a mean of the corners that its region has by then, and
/// writes five displacements of it.
pub open spec fn traced<T, M: Fn(T, T, T, T) -> T, S: Fn() -> T, A: Fn(T, T) -> T>(
    before: Seq<Seq<T>>,
    after: Seq<Seq<T>>,
    regions: Seq<Region>,
    mean: &M,
    sample: &S,
    shift: &A,
) -> bool
    decreases regions.len(),
{
    if regions.len() == 0 {
        after == before
    } else {
        exists|mid: Seq<Seq<T>>, m: T, values: Seq<T>|
            {
                &&& traced(before, mid, regions.drop_last(), mean, sample, shift)
                &&& #[trigger] sampled(mid, regions.last(), mean, sample, shift, m, values)
                &&& after == stepped(mid, regions.last(), values)
            }
    }
}

/// Steps on `a` and then steps on `b` are steps on `a` followed by `b`.
pub proof fn lemma_traced_in_turn<T, M: Fn(T, T, T, T) -> T, S: Fn() -> T, A: Fn(T, T) -> T>(
    before: Seq<Seq<T>>,
    between: Seq<Seq<T>>,
    after: Seq<Seq<T>>,
    a: Seq<Region>,
    b: Seq<Region>,
    mean: &M,
    sample: &S,
    shift: &A,
)
    requires
        traced(before, between, a, mean, sample, shift),
        traced(between, after, b, mean, sample, shift),
    ensures
        traced(before, after, a + b, mean, sample, shift),
    decreases b.len(),
{
    if b.len() == 0 {
        assert(a + b =~= a);
    } else {
        let (mid, m, values) = choose|mid: Seq<Seq<T>>, m: T, values: Seq<T>|
            {
                &&& traced(between, mid, b.drop_last(), mean, sample, shift)
                &&& #[trigger] sampled(mid, b.last(), mean, sample, shift, m, values)
                &&& after == stepped(mid, b.last(), values)
            };
        lemma_traced_in_turn(before, between, mid, a, b.drop_last(), mean, sample, shift);
        assert((a + b).drop_last() =~= a + b.drop_last());
        assert((a + b).last() == b.last());
        assert(sampled(mid, (a + b).last(), mean, sample, shift, m, values));
    }
}

/// Where `mean` and the source are functions, the steps on `regions` lead
/// from one table to one table only: a second run on the same grid gives,
/// cell for cell, what the first gave.
pub proof fn lemma_rerun_agrees<T, M: Fn(T, T, T, T) -> T, S: Fn() -> T, A: Fn(T, T) -> T>(
    before: Seq<Seq<T>>,
    first: Seq<Seq<T>>,
    second: Seq<Seq<T>>,
    regions: Seq<Region>,
    mean: &M,
    sample: &S,
    shift: &A,
)
    requires
        mean_is_function(mean),
        source_is_function(sample, shift),
        traced(before, first, regions, mean, sample, shift),
        traced(before, second, regions, mean, sample, shift),
    ensures
        first == second,
    decreases regions.len(),
{
    if regions.len() > 0 {
        let last = regions.last();
        let (mid1, m1, values1) = choose|mid: Seq<Seq<T>>, m: T, values: Seq<T>|
            {
                &&& traced(before, mid, regions.drop_last(), mean, sample, shift)
                &&& #[trigger] sampled(mid, last, mean, sample, shift, m, values)
                &&& first == stepped(mid, last, values)
            };
        let (mid2, m2, values2) = choose|mid: Seq<Seq<T>>, m: T, values: Seq<T>|
            {
                &&& traced(before, mid, regions.drop_last(), mean, sample, shift)
                &&& #[trigger] sampled(mid, last, mean, sample, shift, m, values)
                &&& second == stepped(mid, last, values)
            };
        lemma_rerun_agrees(before, mid1, mid2, regions.drop_last(), mean, sample, shift);
        assert(m1 == m2);
        assert forall|j: int| 0 <= j < 5 implies values1[j] == values2[j] by {
            lemma_one_displacement(sample, shift, m1, values1[j], values2[j]);
        }
        assert(values1 =~= values2);
    }
}

/// The table after one step on each of `regions` in turn, where `mean` and
/// the source are functions.
pub open spec fn replayed<T, M: Fn(T, T, T, T) -> T, S: Fn() -> T, A: Fn(T, T) -> T>(
    table: Seq<Seq<T>>,
    regions: Seq<Region>,
    mean: &M,
    sample: &S,
    shift: &A,
) -> Seq<Seq<T>>
    decreases regions.len(),
{
    if regions.len() == 0 {
        table
    } else {
        step_of(
            replayed(table, regions.drop_last(), mean, sample, shift),
            regions.last(),
            mean,
            sample,
            shift,
        )
    }
}

/// Steps on `a` and then on `b` are the steps on `a` followed by `b`.
pub proof fn lemma_replayed_in_turn<T, M: Fn(T, T, T, T) -> T, S: Fn() -> T, A: Fn(T, T) -> T>(
    table: Seq<Seq<T>>,
    a: Seq<Region>,
    b: Seq<Region>,
    mean: &M,
    sample: &S,
    shift: &A,
)
    ensures
        replayed(table, a + b, mean, sample, shift) == replayed(
            replayed(table, a, mean, sample, shift),
            b,
            mean,
            sample,
            shift,
        ),
    decreases b.len(),
{
    if b.len() == 0 {
        assert(a + b =~= a);
    } else {
        assert((a + b).drop_last() =~= a + b.drop_last());
        assert((a + b).last() == b.last());
        lemma_replayed_in_turn(table, a, b.drop_last(), mean, sample, shift);
    }
}

/// Subdividing a region is one step on each region that it visits, in the
/// order of the visits.
pub proof fn lemma_refined_is_replayed<T, M: Fn(T, T, T, T) -> T, S: Fn() -> T, A: Fn(T, T) -> T>(
    table: Seq<Seq<T>>,
    region: Region,
    mean: &M,
    sample: &S,
    shift: &A,
)
    ensures
        refined(table, region, mean, sample, shift) == replayed(
            table,
            visits(region),
            mean,
            sample,
            shift,
        ),
    decreases region.side,
{
    let first = step_of(table, region, mean, sample, shift);
    let one = seq![region];
    assert(replayed(table, one, mean, sample, shift) == first) by {
        assert(one.drop_last() =~= Seq::<Region>::empty());
        assert(one.last() == region);
        assert(replayed(table, one.drop_last(), mean, sample, shift) == table);
    }
    if region.side > 3 {
        let v0 = visits(region.quadrant_of(0));
        let v1 = visits(region.quadrant_of(1));
        let v2 = visits(region.quadrant_of(2));
        let v3 = visits(region.quadrant_of(3));
        let t0 = refined(first, region.quadrant_of(0), mean, sample, shift);
        let t1 = refined(t0, region.quadrant_of(1), mean, sample, shift);
        let t2 = refined(t1, region.quadrant_of(2), mean, sample, shift);
        lemma_refined_is_replayed(first, region.quadrant_of(0), mean, sample, shift);
        lemma_refined_is_replayed(t0, region.quadrant_of(1), mean, sample, shift);
        lemma_refined_is_replayed(t1, region.quadrant_of(2), mean, sample, shift);
        lemma_refined_is_replayed(t2, region.quadrant_of(3), mean, sample, shift);
        lemma_replayed_in_turn(table, one, v0, mean, sample, shift);
        lemma_replayed_in_turn(table, one + v0, v1, mean, sample, shift);
        lemma_replayed_in_turn(table, one + v0 + v1, v2, mean, sample, shift);
        lemma_replayed_in_turn(table, one + v0 + v1 + v2, v3, mean, sample, shift);
    }
}

/// How many regions the subdivision of a region of side `2^k + 1` visits,
/// the region itself included.
pub open spec fn region_visits(k: nat) -> nat
    decreases k,
{
    if k <= 1 {
        1
    } else {
        1 + 4 * region_visits((k - 1) as nat)
    }
}

/// The subdivision of a region of side `2^k + 1` visits `(4^k - 1) / 3`
/// regions where `k >= 1`, one where `k` is 0, and so never more than
/// `(4^k - 1) / 3 + 1`.
pub proof fn lemma_region_visits(k: nat)
    ensures
        k >= 1 ==> 3 * region_visits(k) == two_pow(2 * k) - 1,
        k == 0 ==> region_visits(k) == 1,
        region_visits(k) <= (two_pow(2 * k) - 1) / 3 + 1,
    decreases k,
{
    reveal_with_fuel(two_pow, 3);
    if k >= 2 {
        lemma_region_visits((k - 1) as nat);
        assert(two_pow(2 * k) == 4 * two_pow((2 * (k - 1)) as nat)) by {
            assert(two_pow(2 * k) == 2 * two_pow((2 * k - 1) as nat));
            assert(two_pow((2 * k - 1) as nat) == 2 * two_pow((2 * k - 2) as nat));
        }
    }
}

/// The subdivision of a region of side `2^k + 1` visits `region_visits(k)`
/// regions, which is never more than `(4^k - 1) / 3 + 1`.
pub proof fn lemma_visits_len(region: Region, k: nat)
    requires
        region.side == two_pow(k) + 1,
    ensures
        visits(region).len() == region_visits(k),
        visits(region).len() <= (two_pow(2 * k) - 1) / 3 + 1,
    decreases k,
{
    reveal_with_fuel(two_pow, 3);
    lemma_region_visits(k);
    if k >= 2 {
        crate::region::lemma_two_pow_positive((k - 2) as nat);
        assert(two_pow(k) == 2 * two_pow((k - 1) as nat));
        assert(two_pow((k - 1) as nat) == 2 * two_pow((k - 2) as nat));
        assert(region.side > 3);
        assert(region.center() == two_pow((k - 1) as nat));
        lemma_visits_len(region.quadrant_of(0), (k - 1) as nat);
        lemma_visits_len(region.quadrant_of(1), (k - 1) as nat);
        lemma_visits_len(region.quadrant_of(2), (k - 1) as nat);
        lemma_visits_len(region.quadrant_of(3), (k - 1) as nat);
    }
}

/// What one step on `region` leaves in a square table.
proof fn lemma_stepped<T>(table: Seq<Seq<T>>, region: Region, values: Seq<T>, dim: int)
    requires
        square(table, dim),
        region.within(dim),
        region.side >= 2,
        values.len() == 5,
    ensures
        square(stepped(table, region, values), dim),
        forall|r: int, c: int|
            0 <= r < dim && 0 <= c < dim && !(exists|j: int|
                0 <= j < 5 && region.target_cell(j) == (r, c)) ==> #[trigger] stepped(
                table,
                region,
                values,
            )[r][c] == table[r][c],
        forall|j: int|
            0 <= j < 5 ==> exists|i: int|
                0 <= i < 5 && #[trigger] target_value(stepped(table, region, values), region, j)
                    == values[i],
{
    reveal(stepped);
    let t0 = with_cell(table, region.target_cell(0).0, region.target_cell(0).1, values[0]);
    let t1 = with_cell(t0, region.target_cell(1).0, region.target_cell(1).1, values[1]);
    let t2 = with_cell(t1, region.target_cell(2).0, region.target_cell(2).1, values[2]);
    let t3 = with_cell(t2, region.target_cell(3).0, region.target_cell(3).1, values[3]);
    let t4 = with_cell(t3, region.target_cell(4).0, region.target_cell(4).1, values[4]);
    assert(square(t0, dim));
    assert(square(t1, dim));
    assert(square(t2, dim));
    assert(square(t3, dim));
    assert(square(t4, dim));
    assert forall|r: int, c: int|
        0 <= r < dim && 0 <= c < dim && !(exists|j: int|
            0 <= j < 5 && region.target_cell(j) == (r, c)) implies #[trigger] t4[r][c]
        == table[r][c] by {
        assert(region.target_cell(0) != (r, c));
        assert(region.target_cell(1) != (r, c));
        assert(region.target_cell(2) != (r, c));
        assert(region.target_cell(3) != (r, c));
        assert(region.target_cell(4) != (r, c));
    }
    assert forall|j: int| 0 <= j < 5 implies exists|i: int|
        0 <= i < 5 && #[trigger] target_value(t4, region, j) == values[i] by {
        let cell = region.target_cell(j);
        let last = if cell == region.target_cell(4) {
            4
        } else if cell == region.target_cell(3) {
            3
        } else if cell == region.target_cell(2) {
            2
        } else if cell == region.target_cell(1) {
            1
        } else {
            0int
        };
        assert(target_value(t4, region, j) == values[last]);
    }
}

/// What one step on `region` settles: nothing changes outside the region
/// or, where its side is 3 or more, in its corners; the five cells hold
/// displacements of the mean; and where `mean` and the source are functions
/// the table is the one that `step_of` names.
proof fn lemma_step_settles<T, M: Fn(T, T, T, T) -> T, S: Fn() -> T, A: Fn(T, T) -> T>(
    before: Seq<Seq<T>>,
    first: Seq<Seq<T>>,
    region: Region,
    mean: &M,
    sample: &S,
    shift: &A,
    dim: int,
)
    requires
        square(before, dim),
        region.within(dim),
        region.side >= 2,
        region.side >= 3 ==> (region.side - 1) % 2 == 0,
        exists|m: T, values: Seq<T>|
            #[trigger] sampled(before, region, mean, sample, shift, m, values) && first == stepped(
                before,
                region,
                values,
            ),
    ensures
        square(first, dim),
        untouched(before, first, region, dim),
        displaced_from(before, first, region, mean, sample, shift),
        traced(before, first, seq![region], mean, sample, shift),
        mean_is_function(mean) && source_is_function(sample, shift) ==> first == step_of(
            before,
            region,
            mean,
            sample,
            shift,
        ),
{
    reveal(untouched);
    reveal(displaced_from);
    let (m, values) = choose|m: T, values: Seq<T>|
        #[trigger] sampled(before, region, mean, sample, shift, m, values) && first == stepped(
            before,
            region,
            values,
        );
    lemma_stepped(before, region, values, dim);
    assert(traced(before, first, seq![region], mean, sample, shift)) by {
        let one = seq![region];
        assert(one.drop_last() =~= Seq::<Region>::empty());
        assert(one.last() == region);
        assert(traced(before, before, one.drop_last(), mean, sample, shift));
        assert(sampled(before, one.last(), mean, sample, shift, m, values));
    }
    assert forall|j: int| 0 <= j < 5 implies displaced(
        sample,
        shift,
        m,
        #[trigger] target_value(first, region, j),
    ) by {
        let i = choose|i: int| 0 <= i < 5 && target_value(first, region, j) == values[i];
        assert(displaced(sample, shift, m, values[i]));
    }
    assert forall|r: int, c: int|
        0 <= r < dim && 0 <= c < dim && !region.contains(r, c) implies #[trigger] first[r][c]
        == before[r][c] by {
        assert(!(exists|j: int| 0 <= j < 5 && region.target_cell(j) == (r, c)));
    }
    if region.side >= 3 {
        assert forall|i: int| 0 <= i < 4 implies #[trigger] corner_value(first, region, i)
            == corner_value(before, region, i) by {
            let cell = region.corner_cell(i);
            assert(!(exists|j: int| 0 <= j < 5 && region.target_cell(j) == cell));
            assert(first[cell.0][cell.1] == before[cell.0][cell.1]);
        }
    }
    if mean_is_function(mean) && source_is_function(sample, shift) {
        let corners = (
            corner_value(before, region, 0),
            corner_value(before, region, 1),
            corner_value(before, region, 2),
            corner_value(before, region, 3),
        );
        let m2 = choose|m2: T| mean.ensures(corners, m2);
        assert(mean.ensures(corners, m));
        assert(m2 == m);
        let v = choose|v: T| displaced(sample, shift, m, v);
        assert(displaced(sample, shift, m, values[0]));
        assert forall|j: int| 0 <= j < 5 implies values[j] == v by {
            lemma_one_displacement(sample, shift, m, values[j], v);
        }
        assert(values =~= seq![v, v, v, v, v]);
    }
}

/// Subdividing a quadrant of `region` after its own step undoes nothing of
/// it: the region's corners and the five cells of its step are corners of
/// the quadrant or lie outside it.
proof fn lemma_quadrant_keeps<T, M: Fn(T, T, T, T) -> T, S: Fn() -> T, A: Fn(T, T) -> T>(
    before: Seq<Seq<T>>,
    earlier: Seq<Seq<T>>,
    later: Seq<Seq<T>>,
    region: Region,
    index: int,
    mean: &M,
    sample: &S,
    shift: &A,
    dim: int,
)
    requires
        dim <= usize::MAX,
        region.within(dim),
        region.side >= 5,
        (region.side - 1) % 2 == 0,
        0 <= index < 4,
        untouched(before, earlier, region, dim),
        displaced_from(before, earlier, region, mean, sample, shift),
        untouched(earlier, later, region.quadrant_of(index), dim),
    ensures
        untouched(before, later, region, dim),
        displaced_from(before, later, region, mean, sample, shift),
{
    reveal(untouched);
    reveal(displaced_from);
    let quarter = region.quadrant_of(index);
    let half = region.center();
    assert(2 * half == region.side - 1);
    assert(quarter.side == half + 1);
    assert forall|i: int| 0 <= i < 4 implies #[trigger] corner_value(later, region, i)
        == corner_value(earlier, region, i) by {
        let cell = region.corner_cell(i);
        lemma_cell_kept(earlier, later, quarter, cell.0, cell.1, dim);
    }
    assert forall|j: int| 0 <= j < 5 implies #[trigger] target_value(later, region, j)
        == target_value(earlier, region, j) by {
        let cell = region.target_cell(j);
        lemma_cell_kept(earlier, later, quarter, cell.0, cell.1, dim);
    }
    assert forall|r: int, c: int|
        0 <= r < dim && 0 <= c < dim && !region.contains(r, c) implies #[trigger] later[r][c]
        == before[r][c] by {
        assert(!quarter.contains(r, c));
        assert(later[r][c] == earlier[r][c]);
    }
    let m = choose|m: T|
        {
            &&& #[trigger] mean.ensures(
                (
                    corner_value(before, region, 0),
                    corner_value(before, region, 1),
                    corner_value(before, region, 2),
                    corner_value(before, region, 3),
                ),
                m,
            )
            &&& forall|j: int|
                0 <= j < 5 ==> displaced(
                    sample,
                    shift,
                    m,
                    #[trigger] target_value(earlier, region, j),
                )
        };
    assert forall|j: int| 0 <= j < 5 implies displaced(
        sample,
        shift,
        m,
        #[trigger] target_value(later, region, j),
    ) by {
        assert(target_value(later, region, j) == target_value(earlier, region, j));
    }
}

/// A cell that lies outside `region`, or in one of its corners, is kept.
proof fn lemma_cell_kept<T>(
    before: Seq<Seq<T>>,
    after: Seq<Seq<T>>,
    region: Region,
    r: int,
    c: int,
    dim: int,
)
    requires
        untouched(before, after, region, dim),
        region.side >= 3,
        0 <= r < dim,
        0 <= c < dim,
        !region.contains(r, c) || (r == region.row || r == region.row + region.bound()) && (c
            == region.col || c == region.col + region.bound()),
    ensures
        after[r][c] == before[r][c],
{
    reveal(untouched);
    if region.contains(r, c) {
        let i: int = if r == region.row {
            if c == region.col {
                0
            } else {
                1
            }
        } else {
            if c == region.col {
                2
            } else {
                3
            }
        };
        assert(region.corner_cell(i) == (r, c));
        assert(corner_value(after, region, i) == corner_value(before, region, i));
    }
}

/// One step on `region`: the mean of its four corners, once, and then a
/// displacement of it into the center and into the middle of the top, left,
/// right and bottom edge, in that order.
fn displace_midpoints<T: Copy, M: Fn(T, T, T, T) -> T, S: Fn() -> T, A: Fn(T, T) -> T>(
    grid: &mut Grid<T>,
    region: &Region,
    mean: &M,
    sample: &S,
    shift: &A,
)
    requires
        old(grid).wf(),
        region.within(old(grid).dim()),
        forall|args: (T, T, T, T)| mean.requires(args),
        forall|args: ()| sample.requires(args),
        forall|args: (T, T)| shift.requires(args),
    ensures
        final(grid).wf(),
        final(grid).dim() == old(grid).dim(),
        exists|m: T, values: Seq<T>|
            #[trigger] sampled(old(grid)@, *region, mean, sample, shift, m, values) && final(grid)@
                == stepped(old(grid)@, *region, values),
{
    proof {
        grid.lemma_view_square();
    }
    let top_left = grid.corner(0, region);
    let top_right = grid.corner(1, region);
    let bottom_left = grid.corner(2, region);
    let bottom_right = grid.corner(3, region);
    let m = mean(top_left, top_right, bottom_left, bottom_right);

    let s0 = sample();
    let v0 = shift(m, s0);
    let cell = region.target(0);
    grid.set(cell.0, cell.1, v0);
    let s1 = sample();
    let v1 = shift(m, s1);
    let cell = region.target(1);
    grid.set(cell.0, cell.1, v1);
    let s2 = sample();
    let v2 = shift(m, s2);
    let cell = region.target(2);
    grid.set(cell.0, cell.1, v2);
    let s3 = sample();
    let v3 = shift(m, s3);
    let cell = region.target(3);
    grid.set(cell.0, cell.1, v3);
    let s4 = sample();
    let v4 = shift(m, s4);
    let cell = region.target(4);
    grid.set(cell.0, cell.1, v4);
    proof {
        reveal(stepped);
        let values = seq![v0, v1, v2, v3, v4];
        assert(displaced(sample, shift, m, v0));
        assert(displaced(sample, shift, m, v1));
        assert(displaced(sample, shift, m, v2));
        assert(displaced(sample, shift, m, v3));
        assert(displaced(sample, shift, m, v4));
        assert(sampled(old(grid)@, *region, mean, sample, shift, m, values));
        assert(grid@ == stepped(old(grid)@, *region, values));
    }
}

/// Fills `region` of `grid` by diamond-square subdivision.
///
/// `mean` gives the mean of the region's four corners, `sample` hands out
/// one sample at each call, and `shift` moves a mean by a sample. One step takes
/// the mean once and writes it, displaced by a fresh sample each time, into
/// the center and into the middles of the top, left, right and bottom edges.
/// A region of side more than 3 is then subdivided in its top-left,
/// top-right, bottom-left and bottom-right quadrants, which share their
/// middle row and column.
pub fn diamond_square<T: Copy, M: Fn(T, T, T, T) -> T, S: Fn() -> T, A: Fn(T, T) -> T>(
    grid: &mut Grid<T>,
    region: Region,
    mean: &M,
    sample: &S,
    shift: &A,
)
    requires
        old(grid).wf(),
        region.within(old(grid).dim()),
        subdividable(region.side as int),
        forall|args: (T, T, T, T)| mean.requires(args),
        forall|args: ()| sample.requires(args),
        forall|args: (T, T)| shift.requires(args),
    ensures
        final(grid).wf(),
        final(grid).dim() == old(grid).dim(),
        untouched(old(grid)@, final(grid)@, region, old(grid).dim()),
        displaced_from(old(grid)@, final(grid)@, region, mean, sample, shift),
        traced(old(grid)@, final(grid)@, visits(region), mean, sample, shift),
        mean_is_function(mean) && source_is_function(sample, shift) ==> final(grid)@ == refined(
            old(grid)@,
            region,
            mean,
            sample,
            shift,
        ),
    decreases region.side,
{
    let ghost dim = grid.dim();
    let ghost before = grid@;
    proof {
        grid.lemma_view_square();
        lemma_subdividable_halves(region.side as int);
    }
    displace_midpoints(grid, &region, mean, sample, shift);
    let ghost first = grid@;
    proof {
        lemma_step_settles(before, first, region, mean, sample, shift, dim);
    }
    if region.side > 3 {
        let ghost one = seq![region];
        let ghost v0 = visits(region.quadrant_of(0));
        let ghost v1 = visits(region.quadrant_of(1));
        let ghost v2 = visits(region.quadrant_of(2));
        let ghost v3 = visits(region.quadrant_of(3));
        diamond_square(grid, region.quadrant(0), mean, sample, shift);
        let ghost second = grid@;
        proof {
            lemma_quadrant_keeps(before, first, second, region, 0, mean, sample, shift, dim);
            lemma_traced_in_turn(before, first, second, one, v0, mean, sample, shift);
        }
        diamond_square(grid, region.quadrant(1), mean, sample, shift);
        let ghost third = grid@;
        proof {
            lemma_quadrant_keeps(before, second, third, region, 1, mean, sample, shift, dim);
            lemma_traced_in_turn(before, second, third, one + v0, v1, mean, sample, shift);
        }
        diamond_square(grid, region.quadrant(2), mean, sample, shift);
        let ghost fourth = grid@;
        proof {
            lemma_quadrant_keeps(before, third, fourth, region, 2, mean, sample, shift, dim);
            lemma_traced_in_turn(before, third, fourth, one + v0 + v1, v2, mean, sample, shift);
        }
        diamond_square(grid, region.quadrant(3), mean, sample, shift);
        proof {
            lemma_quadrant_keeps(before, fourth, grid@, region, 3, mean, sample, shift, dim);
            lemma_traced_in_turn(
                before,
                fourth,
                grid@,
                one + v0 + v1 + v2,
                v3,
                mean,
                sample,
                shift,
            );
        }
    }
}

} // verus!
