use vstd::prelude::*;
use crate::region::two_pow;
use crate::region::Region;

verus! {

/// A table of `side` rows of `side` cells each.
pub open spec fn square<T>(table: Seq<Seq<T>>, side: int) -> bool {
    &&& table.len() == side
    &&& forall|r: int| 0 <= r < side ==> (#[trigger] table[r]).len() == side
}

/// The table with cell `(r, c)` replaced by `value`.
pub open spec fn with_cell<T>(table: Seq<Seq<T>>, r: int, c: int, value: T) -> Seq<Seq<T>> {
    table.update(r, table[r].update(c, value))
}

/// The table of side `side` that holds `corners` in its top-left, top-right,
/// bottom-left and bottom-right cells, in that order, and `zero` elsewhere.
pub open spec fn seeded<T>(side: int, zero: T, corners: Seq<T>) -> Seq<Seq<T>> {
    Seq::new(
        side as nat,
        |r: int|
            Seq::new(
                side as nat,
                |c: int|
                    if r == 0 && c == 0 {
                        corners[0]
                    } else if r == 0 && c == side - 1 {
                        corners[1]
                    } else if r == side - 1 && c == 0 {
                        corners[2]
                    } else if r == side - 1 && c == side - 1 {
                        corners[3]
                    } else {
                        zero
                    },
            ),
    )
}

/// The side of a grid of detail level `n`, where the machine can address a
/// grid of that side.
pub open spec fn side_of_level(n: nat) -> Option<int> {
    let side: int = two_pow(n) as int + 1;
    if side * side <= usize::MAX {
        Some(side)
    } else {
        None
    }
}

proof fn lemma_cell_index(r: int, c: int, side: int)
    requires
        0 <= r < side,
        0 <= c < side,
    ensures
        0 <= r * side + c < side * side,
{
    assert(0 <= r * side <= (side - 1) * side) by (nonlinear_arith)
        requires
            0 <= r <= side - 1,
            side > 0,
    ;
    assert((side - 1) * side == side * side - side) by (nonlinear_arith);
}

proof fn lemma_cell_index_distinct(r1: int, c1: int, r2: int, c2: int, side: int)
    requires
        0 <= c1 < side,
        0 <= c2 < side,
        r1 * side + c1 == r2 * side + c2,
    ensures
        r1 == r2,
        c1 == c2,
{
    if r1 < r2 {
        assert(r2 * side >= r1 * side + side) by (nonlinear_arith)
            requires
                r2 >= r1 + 1,
                side > 0,
        ;
    } else if r2 < r1 {
        assert(r1 * side >= r2 * side + side) by (nonlinear_arith)
            requires
                r1 >= r2 + 1,
                side > 0,
        ;
    }
}

/// A square table of elevation samples, stored row by row.
pub struct Grid<T> {
    side: usize,
    cells: Vec<T>,
}

impl<T: Copy> View for Grid<T> {
    type V = Seq<Seq<T>>;

    /// The rows of the grid, top to bottom, each from left to right.
    closed spec fn view(&self) -> Seq<Seq<T>> {
        Seq::new(
            self.side as nat,
            |r: int| Seq::new(self.side as nat, |c: int| self.cells@[r * self.side + c]),
        )
    }
}

impl<T: Copy> Grid<T> {
    /// The number of rows, and of columns.
    pub closed spec fn dim(&self) -> int {
        self.side as int
    }

    /// The grid holds `dim * dim` cells.
    pub closed spec fn wf(&self) -> bool {
        self.cells.len() == self.side * self.side
    }

    /// The view of a grid is a square table of its side, which is a
    /// machine-sized number.
    pub proof fn lemma_view_square(&self)
        ensures
            0 <= self.dim() <= usize::MAX,
            square(self@, self.dim()),
    {
    }

    /// The samples in the order in which they are stored and scanned: row
    /// by row, each row from left to right.
    pub closed spec fn samples(&self) -> Seq<T> {
        self.cells@
    }

    /// Sample `r * dim + c` of the scan is the cell in row `r` and column `c`.
    pub proof fn lemma_samples(&self, r: int, c: int)
        requires
            self.wf(),
            0 <= r < self.dim(),
            0 <= c < self.dim(),
        ensures
            self.samples().len() == self.dim() * self.dim(),
            0 <= r * self.dim() + c < self.samples().len(),
            self.samples()[r * self.dim() + c] == self@[r][c],
    {
        lemma_cell_index(r, c, self.side as int);
    }

    /// The number of rows, and of columns.
    pub fn side(&self) -> (side: usize)
        ensures
            side == self.dim(),
    {
        self.side
    }

    /// The sample in row `r` and column `c`.
    pub fn get(&self, r: usize, c: usize) -> (value: T)
        requires
            self.wf(),
            r < self.dim(),
            c < self.dim(),
        ensures
            value == self@[r as int][c as int],
    {
        proof {
            lemma_cell_index(r as int, c as int, self.side as int);
        }
        self.cells[r * self.side + c]
    }

    /// Replaces the sample in row `r` and column `c`.
    pub fn set(&mut self, r: usize, c: usize, value: T)
        requires
            old(self).wf(),
            r < old(self).dim(),
            c < old(self).dim(),
        ensures
            final(self).wf(),
            final(self).dim() == old(self).dim(),
            final(self)@ == with_cell(old(self)@, r as int, c as int, value),
    {
        let ghost side = self.side as int;
        proof {
            lemma_cell_index(r as int, c as int, side);
        }
        let index: usize = r * self.side + c;
        self.cells.set(index, value);
        proof {
            let before = with_cell(old(self)@, r as int, c as int, value);
            assert forall|i: int| 0 <= i < side implies #[trigger] self@[i] =~= before[i] by {
                assert forall|j: int| 0 <= j < side implies self@[i][j] == before[i][j] by {
                    lemma_cell_index(i, j, side);
                    if i * side + j == index {
                        lemma_cell_index_distinct(i, j, r as int, c as int, side);
                    }
                }
            }
            assert(self@ =~= before);
        }
    }

    /// The value of corner `index` of `region`: 0 is top-left, 1 top-right,
    /// 2 bottom-left and 3 bottom-right.
    pub fn corner(&self, index: usize, region: &Region) -> (value: T)
        requires
            self.wf(),
            index < 4,
            region.within(self.dim()),
        ensures
            value == self@[region.corner_cell(index as int).0][region.corner_cell(index as int).1],
    {
        let cell = region.corner(index);
        self.get(cell.0, cell.1)
    }

    /// Replaces the value of corner `index` of `region`.
    pub fn set_corner(&mut self, index: usize, region: &Region, value: T)
        requires
            old(self).wf(),
            index < 4,
            region.within(old(self).dim()),
        ensures
            final(self).wf(),
            final(self).dim() == old(self).dim(),
            final(self)@ == with_cell(
                old(self)@,
                region.corner_cell(index as int).0,
                region.corner_cell(index as int).1,
                value,
            ),
    {
        let cell = region.corner(index);
        self.set(cell.0, cell.1, value);
    }
}

/// The side of a grid of detail level `n`, `2^n + 1`, or `None` where a grid
/// of that side has more cells than the machine can address.
pub fn grid_side(n: u32) -> (side: Option<usize>)
    ensures
        match side {
            Some(s) => side_of_level(n as nat) == Some(s as int),
            None => side_of_level(n as nat) is None,
        },
{
    let mut power: usize = 1;
    let mut k: u32 = 0;
    while k < n
        invariant
            k <= n,
            power == two_pow(k as nat),
            (power + 1) * (power + 1) <= usize::MAX,
        decreases n - k,
    {
        // The next power, and the square of the side it gives, have to fit.
        let fits: bool = match power.checked_mul(2) {
            None => false,
            Some(next) => match next.checked_add(1) {
                None => false,
                Some(side) => side.checked_mul(side).is_some(),
            },
        };
        if !fits {
            proof {
                crate::region::lemma_two_pow_increases((k + 1) as nat, n as nat);
                let small = two_pow((k + 1) as nat) + 1;
                let large = two_pow(n as nat) + 1;
                assert(small == 2 * power + 1);
                assert(small * small >= small) by (nonlinear_arith)
                    requires
                        small >= 1,
                ;
                assert(small * small > usize::MAX);
                assert(small * small <= large * large) by (nonlinear_arith)
                    requires
                        0 <= small <= large,
                ;
            }
            return None;
        }
        power = power * 2;
        k = k + 1;
    }
    Some(power + 1)
}

/// A grid of detail level `n`: side `2^n + 1`, the four values of
/// `corner_values` in its top-left, top-right, bottom-left and bottom-right
/// corners, and `zero` in every other cell.
pub fn build_grid<T: Copy>(n: u32, zero: T, corner_values: &[T; 4]) -> (grid: Grid<T>)
    requires
        n >= 1,
        side_of_level(n as nat) is Some,
    ensures
        grid.wf(),
        grid.dim() == two_pow(n as nat) + 1,
        grid@ == seeded(grid.dim(), zero, corner_values@),
{
    let side: usize = grid_side(n).unwrap();
    proof {
        crate::region::lemma_two_pow_positive(n as nat);
        assert(two_pow(n as nat) == 2 * two_pow((n - 1) as nat));
        crate::region::lemma_two_pow_positive((n - 1) as nat);
    }
    let total: usize = side * side;
    let mut cells: Vec<T> = Vec::with_capacity(total);
    let mut filled: usize = 0;
    while filled < total
        invariant
            filled <= total,
            cells.len() == filled,
            forall|i: int| 0 <= i < filled ==> cells@[i] == zero,
        decreases total - filled,
    {
        cells.push(zero);
        filled = filled + 1;
    }
    let mut grid = Grid { side, cells };
    proof {
        let blank = Seq::new(side as nat, |r: int| Seq::new(side as nat, |c: int| zero));
        assert forall|r: int| 0 <= r < side implies #[trigger] grid@[r] =~= blank[r] by {
            assert forall|c: int| 0 <= c < side implies grid@[r][c] == blank[r][c] by {
                lemma_cell_index(r, c, side as int);
            }
        }
        assert(grid@ =~= blank);
    }
    let region = Region::full(side);
    let ghost blank = grid@;
    grid.set_corner(0, &region, corner_values[0]);
    grid.set_corner(1, &region, corner_values[1]);
    grid.set_corner(2, &region, corner_values[2]);
    grid.set_corner(3, &region, corner_values[3]);
    proof {
        let want = seeded(side as int, zero, corner_values@);
        grid.lemma_view_square();
        assert forall|r: int| 0 <= r < side implies #[trigger] grid@[r] =~= want[r] by {
            assert(blank[r].len() == side);
        }
        assert(grid@ =~= want);
    }
    grid
}

/// A grid of its own with the contents of `grid`.
pub fn copy_grid<T: Copy>(grid: &Grid<T>) -> (copy: Grid<T>)
    requires
        grid.wf(),
    ensures
        copy.wf(),
        copy.dim() == grid.dim(),
        copy@ == grid@,
{
    let total: usize = grid.cells.len();
    let mut cells: Vec<T> = Vec::with_capacity(total);
    let mut done: usize = 0;
    while done < total
        invariant
            done <= total,
            total == grid.cells.len(),
            cells.len() == done,
            forall|i: int| 0 <= i < done ==> cells@[i] == grid.cells@[i],
        decreases total - done,
    {
        cells.push(grid.cells[done]);
        done = done + 1;
    }
    let copy = Grid { side: grid.side, cells };
    assert(copy.cells@ =~= grid.cells@);
    assert(copy@ =~~= grid@);
    copy
}

/// `next` is the larger of `so_far` and `value`, as `less` tells them apart:
/// `value` where `so_far` is less than it, and `so_far` where not.
pub open spec fn climbs<T, L: Fn(T, T) -> bool>(less: &L, so_far: T, value: T, next: T) -> bool {
    ||| less.ensures((so_far, value), true) && next == value
    ||| less.ensures((so_far, value), false) && next == so_far
}

/// `next` is the smaller of `so_far` and `value`, as `less` tells them apart:
/// `value` where it is less than `so_far`, and `so_far` where not.
pub open spec fn sinks<T, L: Fn(T, T) -> bool>(less: &L, so_far: T, value: T, next: T) -> bool {
    ||| less.ensures((value, so_far), true) && next == value
    ||| less.ensures((value, so_far), false) && next == so_far
}

/// `peaks` and `troughs` are the largest and the smallest value met so far
/// in a scan of `samples` that starts both at `zero`: entry `k` holds the
/// extreme of `zero` and the first `k` samples, so the last entry holds that
/// of them all.
pub open spec fn running_extremes<T, L: Fn(T, T) -> bool>(
    samples: Seq<T>,
    zero: T,
    less: &L,
    peaks: Seq<T>,
    troughs: Seq<T>,
) -> bool {
    &&& peaks.len() == samples.len() + 1
    &&& troughs.len() == samples.len() + 1
    &&& peaks[0] == zero
    &&& troughs[0] == zero
    &&& forall|k: int|
        0 <= k < samples.len() ==> climbs(less, peaks[k], #[trigger] samples[k], peaks[k + 1])
            && sinks(less, troughs[k], samples[k], troughs[k + 1])
}

/// `after` is `before` divided by the ratio of its own half of the range:
/// by `min_ratio` where `less` finds it below `zero`, and by `max_ratio`
/// where not.
pub open spec fn rescaled<T, L: Fn(T, T) -> bool, Q: Fn(T, T) -> T>(
    before: T,
    after: T,
    zero: T,
    min_ratio: T,
    max_ratio: T,
    less: &L,
    divide: &Q,
) -> bool {
    ||| less.ensures((before, zero), true) && divide.ensures((before, min_ratio), after)
    ||| less.ensures((before, zero), false) && divide.ensures((before, max_ratio), after)
}

/// Rescales the samples above and below `zero` on their own.
///
/// A first scan finds the peak and the trough of the grid: the largest and
/// the smallest sample by `less`, or `zero` where no sample lies beyond it.
/// `ratio` then gives the ratio of the peak to its target `max_val`, and
/// that of the trough to its target `min_val`. A second scan replaces each
/// sample by what `divide` makes of it and of the ratio of its own half:
/// the trough's where the sample is less than `zero`, the peak's where not.
/// Neither target may be zero.
pub fn scale_dynamic_range<
    T: Copy,
    L: Fn(T, T) -> bool,
    R: Fn(T, i32) -> T,
    Q: Fn(T, T) -> T,
>(
    grid: &mut Grid<T>,
    min_val: i32,
    max_val: i32,
    zero: T,
    less: &L,
    ratio: &R,
    divide: &Q,
)
    requires
        old(grid).wf(),
        min_val != 0,
        max_val != 0,
        forall|args: (T, T)| less.requires(args),
        forall|args: (T, i32)| ratio.requires(args),
        forall|args: (T, T)| divide.requires(args),
    ensures
        final(grid).wf(),
        final(grid).dim() == old(grid).dim(),
        final(grid).samples().len() == old(grid).samples().len(),
        exists|peaks: Seq<T>, troughs: Seq<T>, min_ratio: T, max_ratio: T|
            {
                &&& #[trigger] running_extremes(old(grid).samples(), zero, less, peaks, troughs)
                &&& #[trigger] ratio.ensures((peaks.last(), max_val), max_ratio)
                &&& #[trigger] ratio.ensures((troughs.last(), min_val), min_ratio)
                &&& forall|k: int|
                    0 <= k < old(grid).samples().len() ==> rescaled(
                        old(grid).samples()[k],
                        #[trigger] final(grid).samples()[k],
                        zero,
                        min_ratio,
                        max_ratio,
                        less,
                        divide,
                    )
            },
{
    let total: usize = grid.cells.len();
    let ghost initial = grid.cells@;
    let mut peak: T = zero;
    let mut trough: T = zero;
    let ghost mut peaks: Seq<T> = seq![zero];
    let ghost mut troughs: Seq<T> = seq![zero];
    let mut seen: usize = 0;
    while seen < total
        invariant
            seen <= total,
            total == grid.cells.len(),
            grid.cells@ == initial,
            forall|args: (T, T)| less.requires(args),
            peaks.len() == seen + 1,
            troughs.len() == seen + 1,
            peaks[0] == zero,
            troughs[0] == zero,
            peak == peaks[seen as int],
            trough == troughs[seen as int],
            forall|k: int|
                0 <= k < seen ==> climbs(less, peaks[k], #[trigger] initial[k], peaks[k + 1])
                    && sinks(less, troughs[k], initial[k], troughs[k + 1]),
        decreases total - seen,
    {
        let value: T = grid.cells[seen];
        if less(peak, value) {
            peak = value;
        }
        if less(value, trough) {
            trough = value;
        }
        proof {
            peaks = peaks.push(peak);
            troughs = troughs.push(trough);
        }
        seen = seen + 1;
    }
    assert(running_extremes(initial, zero, less, peaks, troughs));

    let max_ratio: T = ratio(peak, max_val);
    let min_ratio: T = ratio(trough, min_val);
    let mut done: usize = 0;
    while done < total
        invariant
            done <= total,
            total == grid.cells.len(),
            total == initial.len(),
            grid.side == old(grid).side,
            forall|args: (T, T)| less.requires(args),
            forall|args: (T, T)| divide.requires(args),
            forall|k: int|
                0 <= k < done ==> rescaled(
                    initial[k],
                    #[trigger] grid.cells@[k],
                    zero,
                    min_ratio,
                    max_ratio,
                    less,
                    divide,
                ),
            forall|k: int| done <= k < total ==> grid.cells@[k] == initial[k],
        decreases total - done,
    {
        let value: T = grid.cells[done];
        let scaled: T = if less(value, zero) {
            divide(value, min_ratio)
        } else {
            divide(value, max_ratio)
        };
        grid.cells.set(done, scaled);
        done = done + 1;
    }
    proof {
        assert(peaks.last() == peak && troughs.last() == trough);
        assert(old(grid).samples() == initial);
        assert(running_extremes(old(grid).samples(), zero, less, peaks, troughs));
        assert(ratio.ensures((peaks.last(), max_val), max_ratio));
        assert(ratio.ensures((troughs.last(), min_val), min_ratio));
        assert forall|k: int| 0 <= k < old(grid).samples().len() implies rescaled(
            old(grid).samples()[k],
            #[trigger] grid.samples()[k],
            zero,
            min_ratio,
            max_ratio,
            less,
            divide,
        ) by {
            assert(grid.samples()[k] == grid.cells@[k]);
        }
    }
}

} // verus!
