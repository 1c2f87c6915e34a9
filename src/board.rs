//! The board: 81 candidate masks stored row by row, cell `(row, col)` at `9 * row + col`.
use vstd::prelude::*;
use crate::candidates::{
    bit, cnt, count, get_rand_elem, holds, least, lemma_has_all, lemma_has_and_not,
    lemma_has_bit, proper, single, subset, without, ALL_DIGITS,
};

verus! {

/// The number of rows (and of columns, and of digits).
pub const SIZE: usize = 9;

/// The number of cells.
pub const CELLS: usize = 81;

/// The position of cell `(row, col)` in the row-major store.
pub open spec fn idx(row: int, col: int) -> int {
    9 * row + col
}

/// 81 proper masks.
pub open spec fn well_formed(c: Seq<u16>) -> bool {
    &&& c.len() == 81
    &&& forall|i: int| 0 <= i < 81 ==> proper(#[trigger] c[i])
}

/// Every cell of `new` holds a subset of the same cell of `old`.
pub open spec fn shrinks(old: Seq<u16>, new: Seq<u16>) -> bool {
    &&& new.len() == old.len()
    &&& forall|i: int| 0 <= i < old.len() ==> subset(#[trigger] new[i], old[i])
}

/// The board with rows and columns swapped.
pub open spec fn transposed(c: Seq<u16>) -> Seq<u16> {
    Seq::new(81, |i: int| c[idx(i % 9, i / 9)])
}

/// Transposing twice gives back the board, cell for cell.
pub proof fn lemma_transpose_involution(c: Seq<u16>)
    requires
        c.len() == 81,
    ensures
        transposed(transposed(c)) == c,
{
    assert forall|i: int| 0 <= i < 81 implies #[trigger] transposed(transposed(c))[i] == c[i] by {
        let t = idx(i % 9, i / 9);
        assert(t / 9 == i % 9 && t % 9 == i / 9);
        assert(idx(t % 9, t / 9) == i);
    }
    assert(transposed(transposed(c)) =~= c);
}

/// Some cell has no candidate left.
pub open spec fn is_invalid(c: Seq<u16>) -> bool {
    exists|i: int| 0 <= i < 81 && cnt(#[trigger] c[i]) == 0
}

/// Every cell has exactly one candidate left.
pub open spec fn is_finished(c: Seq<u16>) -> bool {
    forall|i: int| 0 <= i < 81 ==> cnt(#[trigger] c[i]) == 1
}

/// A grid of candidate sets.
pub struct Board {
    cells: Vec<u16>,
}

impl View for Board {
    type V = Seq<u16>;

    closed spec fn view(&self) -> Seq<u16> {
        self.cells@
    }
}

impl Board {
    /// The board is 81 proper masks.
    pub open spec fn wf(&self) -> bool {
        well_formed(self@)
    }

    /// The candidates of cell `(row, col)`.
    pub fn candidates(&self, row: usize, col: usize) -> (r: u16)
        requires
            self.wf(),
            row < 9,
            col < 9,
        ensures
            r == self@[idx(row as int, col as int)],
    {
        self.cells[SIZE * row + col]
    }

    /// Removes `value` from the candidates of cell `(row, col)`; tells whether it was there.
    pub fn remove_candidate(&mut self, row: usize, col: usize, value: u8) -> (r: bool)
        requires
            old(self).wf(),
            row < 9,
            col < 9,
            1 <= value <= 9,
        ensures
            final(self).wf(),
            final(self)@ == old(self)@.update(
                idx(row as int, col as int),
                without(old(self)@[idx(row as int, col as int)], value as int),
            ),
            r == holds(old(self)@[idx(row as int, col as int)], value as int),
    {
        let i = SIZE * row + col;
        let m = self.cells[i];
        let r = crate::candidates::contains(m, value);
        let n = m & !single(value);
        proof {
            lemma_has_and_not(m, bit(value as int));
        }
        self.cells.set(i, n);
        r
    }

    /// Makes `value` the one candidate of cell `(row, col)`.
    pub fn assign(&mut self, row: usize, col: usize, value: u8)
        requires
            old(self).wf(),
            row < 9,
            col < 9,
            1 <= value <= 9,
        ensures
            final(self).wf(),
            final(self)@ == old(self)@.update(idx(row as int, col as int), bit(value as int)),
    {
        let m = single(value);
        proof {
            lemma_has_bit(value as int);
        }
        self.cells.set(SIZE * row + col, m);
    }

    /// Replaces every cell by the same cell of `other`.
    pub fn adopt(&mut self, other: Board)
        requires
            other.wf(),
        ensures
            final(self)@ == other@,
    {
        self.cells = other.cells;
    }
}

impl Clone for Board {
    fn clone(&self) -> (r: Board)
        ensures
            r@ == self@,
    {
        let cells = self.cells.clone();
        proof {
            assert(cells@ =~= self.cells@);
        }
        Board { cells }
    }
}

impl Default for Board {
    /// Every cell holds every digit.
    fn default() -> (r: Board)
        ensures
            r.wf(),
            forall|i: int| 0 <= i < 81 ==> #[trigger] r@[i] == ALL_DIGITS,
    {
        proof {
            lemma_has_all();
        }
        let mut cells: Vec<u16> = Vec::new();
        let mut i: usize = 0;
        while i < CELLS
            invariant
                i <= 81,
                cells@.len() == i,
                forall|k: int| 0 <= k < i ==> #[trigger] cells@[k] == ALL_DIGITS,
            decreases 81 - i,
        {
            cells.push(ALL_DIGITS);
            i = i + 1;
        }
        Board { cells }
    }
}

/// A cell that holds one candidate: its value, column `x` and row `y`.
pub struct Cell {
    pub val: u8,
    pub x: usize,
    pub y: usize,
}

impl Cell {
    /// The position of the cell in the row-major store.
    pub open spec fn pos(&self) -> int {
        idx(self.y as int, self.x as int)
    }

    pub fn new(val: u8, x: usize, y: usize) -> (r: Cell)
        ensures
            r.val == val,
            r.x == x,
            r.y == y,
    {
        Cell { val, x, y }
    }
}

/// Some cell of the board has no candidate left.
pub fn invalid(board: &Board) -> (r: bool)
    requires
        board.wf(),
    ensures
        r == is_invalid(board@),
{
    let mut i: usize = 0;
    while i < CELLS
        invariant
            i <= 81,
            board.wf(),
            forall|k: int| 0 <= k < i ==> cnt(#[trigger] board@[k]) != 0,
        decreases 81 - i,
    {
        if count(board.cells[i]) == 0 {
            return true;
        }
        i = i + 1;
    }
    false
}

/// Every cell of the board has exactly one candidate left.
pub fn finished(board: &Board) -> (r: bool)
    requires
        board.wf(),
    ensures
        r == is_finished(board@),
{
    let mut i: usize = 0;
    while i < CELLS
        invariant
            i <= 81,
            board.wf(),
            forall|k: int| 0 <= k < i ==> cnt(#[trigger] board@[k]) == 1,
        decreases 81 - i,
    {
        if count(board.cells[i]) != 1 {
            return false;
        }
        i = i + 1;
    }
    true
}

/// Cell `(r, c)` has been swapped once rows `< i` and the first `j` cells of row `i` are done.
spec fn swapped(r: int, c: int, i: int, j: int) -> bool {
    (r < i && c < i) || (r == i && c < j) || (c == i && r < j)
}

/// Swaps rows and columns in place.
pub fn transpose_mut(board: &mut Board)
    requires
        old(board).wf(),
    ensures
        final(board).wf(),
        final(board)@ == transposed(old(board)@),
{
    let ghost start = board@;
    let mut i: usize = 1;
    while i < SIZE
        invariant
            1 <= i <= 9,
            board.cells@.len() == 81,
            well_formed(start),
            forall|k: int|
                0 <= k < 81 ==> #[trigger] board.cells@[k] == if swapped(k / 9, k % 9, i as int, 0) {
                    start[idx(k % 9, k / 9)]
                } else {
                    start[k]
                },
        decreases 9 - i,
    {
        let mut j: usize = 0;
        while j < i
            invariant
                1 <= i < 9,
                j <= i,
                board.cells@.len() == 81,
                well_formed(start),
                forall|k: int|
                    0 <= k < 81 ==> #[trigger] board.cells@[k] == if swapped(
                        k / 9,
                        k % 9,
                        i as int,
                        j as int,
                    ) {
                        start[idx(k % 9, k / 9)]
                    } else {
                        start[k]
                    },
            decreases i - j,
        {
            let a = board.cells[SIZE * j + i];
            let b = board.cells[SIZE * i + j];
            board.cells.set(SIZE * j + i, b);
            board.cells.set(SIZE * i + j, a);
            j = j + 1;
        }
        i = i + 1;
    }
    proof {
        assert(board@ =~= transposed(start));
    }
}

/// A new board with rows and columns swapped.
pub fn transpose(board: &Board) -> (r: Board)
    requires
        board.wf(),
    ensures
        r.wf(),
        r@ == transposed(board@),
{
    let mut new_board = board.clone();
    transpose_mut(&mut new_board);
    new_board
}

/// Every determined cell of the board, in row-major order, with its value.
pub fn find_known(board: &Board) -> (r: Vec<Cell>)
    requires
        board.wf(),
    ensures
        forall|k: int|
            0 <= k < r@.len() ==> {
                &&& #[trigger] r@[k].x < 9
                &&& r@[k].y < 9
                &&& cnt(board@[r@[k].pos()]) == 1
                &&& r@[k].val == least(board@[r@[k].pos()])
            },
        forall|k1: int, k2: int|
            0 <= k1 < k2 < r@.len() ==> #[trigger] r@[k1].pos() < #[trigger] r@[k2].pos(),
        forall|i: int|
            0 <= i < 81 && cnt(#[trigger] board@[i]) == 1 ==> exists|k: int|
                0 <= k < r@.len() && #[trigger] r@[k].pos() == i,
{
    let mut ret: Vec<Cell> = Vec::new();
    let mut i: usize = 0;
    while i < SIZE
        invariant
            i <= 9,
            board.wf(),
            forall|k: int|
                0 <= k < ret@.len() ==> {
                    &&& #[trigger] ret@[k].x < 9
                    &&& ret@[k].y < 9
                    &&& ret@[k].pos() < 9 * i
                    &&& cnt(board@[ret@[k].pos()]) == 1
                    &&& ret@[k].val == least(board@[ret@[k].pos()])
                },
            forall|k1: int, k2: int|
                0 <= k1 < k2 < ret@.len() ==> #[trigger] ret@[k1].pos() < #[trigger] ret@[k2].pos(),
            forall|p: int|
                0 <= p < 9 * i && cnt(#[trigger] board@[p]) == 1 ==> exists|k: int|
                    0 <= k < ret@.len() && #[trigger] ret@[k].pos() == p,
        decreases 9 - i,
    {
        let mut j: usize = 0;
        while j < SIZE
            invariant
                i < 9,
                j <= 9,
                board.wf(),
                forall|k: int|
                    0 <= k < ret@.len() ==> {
                        &&& #[trigger] ret@[k].x < 9
                        &&& ret@[k].y < 9
                        &&& ret@[k].pos() < 9 * i + j
                        &&& cnt(board@[ret@[k].pos()]) == 1
                        &&& ret@[k].val == least(board@[ret@[k].pos()])
                    },
                forall|k1: int, k2: int|
                    0 <= k1 < k2 < ret@.len() ==> #[trigger] ret@[k1].pos() < #[trigger] ret@[
                        k2
                    ].pos(),
                forall|p: int|
                    0 <= p < 9 * i + j && cnt(#[trigger] board@[p]) == 1 ==> exists|k: int|
                        0 <= k < ret@.len() && #[trigger] ret@[k].pos() == p,
            decreases 9 - j,
        {
            let s = board.cells[SIZE * i + j];
            if count(s) == 1 {
                let num = get_rand_elem(s);
                let ghost before = ret@;
                ret.push(Cell::new(num, j, i));
                proof {
                    assert forall|p: int|
                        0 <= p < 9 * i + j + 1 && cnt(#[trigger] board@[p]) == 1 implies exists|
                        k: int,
                    | 0 <= k < ret@.len() && #[trigger] ret@[k].pos() == p by {
                        if p < 9 * i + j {
                            let k = choose|k: int|
                                0 <= k < before.len() && #[trigger] before[k].pos() == p;
                            assert(ret@[k] == before[k]);
                        } else {
                            assert(ret@[before.len() as int].pos() == p);
                        }
                    }
                }
            }
            j = j + 1;
        }
        i = i + 1;
    }
    ret
}

} // verus!
