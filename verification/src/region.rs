use vstd::prelude::*;

verus! {

/// Two to the power `k`.
pub open spec fn two_pow(k: nat) -> nat
    decreases k,
{
    if k == 0 {
        1
    } else {
        2 * two_pow((k - 1) as nat)
    }
}

/// A side that subdivision can work on: `2^k + 1` for some `k >= 0`.
pub open spec fn subdividable(side: int) -> bool {
    exists|k: nat| side == #[trigger] two_pow(k) + 1
}

/// A power of two is at least 1.
pub proof fn lemma_two_pow_positive(k: nat)
    ensures
        two_pow(k) >= 1,
    decreases k,
{
    if k > 0 {
        lemma_two_pow_positive((k - 1) as nat);
    }
}

/// A larger exponent gives no smaller power of two.
pub proof fn lemma_two_pow_increases(j: nat, k: nat)
    requires
        j <= k,
    ensures
        two_pow(j) <= two_pow(k),
    decreases k,
{
    if j < k {
        lemma_two_pow_increases(j, (k - 1) as nat);
        lemma_two_pow_positive((k - 1) as nat);
    }
}

/// What halving does to a subdividable side: a side of 2 or 3 has no proper
/// quadrants, and any larger one has an even bound whose half, plus one, is
/// subdividable again.
pub proof fn lemma_subdividable_halves(side: int)
    requires
        subdividable(side),
    ensures
        side >= 2,
        side != 4,
        side >= 3 ==> (side - 1) % 2 == 0,
        side > 3 ==> side >= 5 && subdividable((side - 1) / 2 + 1),
{
    let k = choose|k: nat| side == #[trigger] two_pow(k) + 1;
    reveal_with_fuel(two_pow, 3);
    if k >= 2 {
        let h = (k - 1) as nat;
        lemma_two_pow_positive((k - 2) as nat);
        assert(two_pow(k) == 2 * two_pow(h));
        assert(two_pow(h) == 2 * two_pow((k - 2) as nat));
        assert((side - 1) / 2 + 1 == two_pow(h) + 1);
    }
}

/// Whether `side` is `2^k + 1` for some `k >= 0`.
pub fn is_subdividable(side: usize) -> (ok: bool)
    ensures
        ok == subdividable(side as int),
{
    if side < 2 {
        proof {
            if subdividable(side as int) {
                lemma_subdividable_halves(side as int);
            }
        }
        return false;
    }
    let bound: usize = side - 1;
    let mut power: usize = 1;
    let ghost mut k: nat = 0;
    while power < bound && power <= usize::MAX / 2
        invariant
            power == two_pow(k),
            power >= 1,
            bound == side - 1,
            forall|j: nat| j < k ==> #[trigger] two_pow(j) < bound,
        decreases usize::MAX - power,
    {
        power = power * 2;
        proof {
            k = k + 1;
        }
    }
    proof {
        if power == bound {
            assert(side == two_pow(k) + 1);
        } else if subdividable(side as int) {
            let w = choose|w: nat| side == #[trigger] two_pow(w) + 1;
            if w < k {
                assert(two_pow(w) < bound);
            } else {
                lemma_two_pow_increases(k, w);
                if power < bound {
                    // Doubling `power` would leave the machine's range, and
                    // `bound` lies strictly between the two.
                    assert(w > k);
                    lemma_two_pow_increases(k + 1, w);
                    assert(two_pow(k + 1) == 2 * two_pow(k));
                }
            }
        }
    }
    power == bound
}

/// A square window of a grid: the cell of its top-left corner and its side.
#[derive(Clone, Copy, Debug)]
pub struct Region {
    pub row: usize,
    pub col: usize,
    pub side: usize,
}

impl Region {
    /// The region is not empty and lies within a square grid of side `dim`.
    pub open spec fn within(self, dim: int) -> bool {
        &&& self.side >= 1
        &&& self.row + self.side <= dim
        &&& self.col + self.side <= dim
    }

    /// Whether the cell `(r, c)` of the grid lies in the region.
    pub open spec fn contains(self, r: int, c: int) -> bool {
        &&& self.row <= r < self.row + self.side
        &&& self.col <= c < self.col + self.side
    }

    /// The largest offset in the region: its side less one.
    pub open spec fn bound(self) -> int {
        self.side - 1
    }

    /// The offset of the middle row and column.
    pub open spec fn center(self) -> int {
        (self.side - 1) / 2
    }

    /// The grid cell of corner `index`: 0 is top-left, 1 top-right, 2
    /// bottom-left and 3 bottom-right.
    pub open spec fn corner_cell(self, index: int) -> (int, int) {
        if index == 0 {
            (self.row as int, self.col as int)
        } else if index == 1 {
            (self.row as int, self.col + self.bound())
        } else if index == 2 {
            (self.row + self.bound(), self.col as int)
        } else {
            (self.row + self.bound(), self.col + self.bound())
        }
    }

    /// The grid cell of the `index`-th cell that one subdivision step
    /// writes: 0 is the center, then the middles of the top, left, right and
    /// bottom edges.
    pub open spec fn target_cell(self, index: int) -> (int, int) {
        if index == 0 {
            (self.row + self.center(), self.col + self.center())
        } else if index == 1 {
            (self.row as int, self.col + self.center())
        } else if index == 2 {
            (self.row + self.center(), self.col as int)
        } else if index == 3 {
            (self.row + self.center(), self.col + self.bound())
        } else {
            (self.row + self.bound(), self.col + self.center())
        }
    }

    /// The `index`-th quadrant: 0 is top-left, 1 top-right, 2 bottom-left and
    /// 3 bottom-right. Each has side `center + 1`, so neighbours share the
    /// middle row or column.
    pub open spec fn quadrant_of(self, index: int) -> Region {
        let c = self.center();
        Region {
            row: if index < 2 { self.row } else { (self.row + c) as usize },
            col: if index % 2 == 0 { self.col } else { (self.col + c) as usize },
            side: (c + 1) as usize,
        }
    }

    /// The whole of a grid of side `side`.
    pub fn full(side: usize) -> (region: Region)
        ensures
            region.row == 0,
            region.col == 0,
            region.side == side,
    {
        Region { row: 0, col: 0, side }
    }

    /// The cell of corner `index`.
    pub fn corner(&self, index: usize) -> (cell: (usize, usize))
        requires
            index < 4,
            self.within(usize::MAX as int),
        ensures
            (cell.0 as int, cell.1 as int) == self.corner_cell(index as int),
    {
        let bound: usize = self.side - 1;
        if index == 0 {
            (self.row, self.col)
        } else if index == 1 {
            (self.row, self.col + bound)
        } else if index == 2 {
            (self.row + bound, self.col)
        } else {
            (self.row + bound, self.col + bound)
        }
    }

    /// The `index`-th cell that a subdivision step writes.
    pub fn target(&self, index: usize) -> (cell: (usize, usize))
        requires
            index < 5,
            self.within(usize::MAX as int),
        ensures
            (cell.0 as int, cell.1 as int) == self.target_cell(index as int),
    {
        let bound: usize = self.side - 1;
        let center: usize = bound / 2;
        if index == 0 {
            (self.row + center, self.col + center)
        } else if index == 1 {
            (self.row, self.col + center)
        } else if index == 2 {
            (self.row + center, self.col)
        } else if index == 3 {
            (self.row + center, self.col + bound)
        } else {
            (self.row + bound, self.col + center)
        }
    }

    /// The `index`-th quadrant.
    pub fn quadrant(&self, index: usize) -> (quarter: Region)
        requires
            index < 4,
            self.within(usize::MAX as int),
        ensures
            quarter == self.quadrant_of(index as int),
    {
        let center: usize = (self.side - 1) / 2;
        Region {
            row: if index < 2 { self.row } else { self.row + center },
            col: if index % 2 == 0 { self.col } else { self.col + center },
            side: center + 1,
        }
    }
}

} // verus!
