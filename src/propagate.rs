//! Constraint propagation: a determined cell takes its value out of every other cell of its
//! row, its column and its box; passes repeat until one changes nothing.
use vstd::prelude::*;
use crate::board::{
    find_known, idx, shrinks, transpose_mut, transposed, well_formed, Board, Cell, SIZE,
};
use crate::candidates::{
    cnt, holds, least, lemma_cnt_subset, lemma_has_and_not, lemma_has_bit, lemma_has_none, lemma_has_or,
    lemma_mask_ext, lemma_single, proper, subset, without,
};

verus! {

/// Cells `a` and `b` lie in the same 3x3 box.
pub open spec fn same_box(a: int, b: int) -> bool {
    (a / 9) / 3 == (b / 9) / 3 && (a % 9) / 3 == (b % 9) / 3
}

/// Two distinct cells that share a row, a column or a box.
pub open spec fn peers(a: int, b: int) -> bool {
    a != b && (a / 9 == b / 9 || a % 9 == b % 9 || same_box(a, b))
}

/// A determined peer of cell `i` holds the value `d`.
pub open spec fn forbidden(c: Seq<u16>, i: int, d: int) -> bool {
    exists|j: int| 0 <= j < 81 && peers(i, j) && cnt(#[trigger] c[j]) == 1 && holds(c[j], d)
}

/// The values of the determined peers of cell `i` among the first `n` cells, as one mask.
pub open spec fn forbid_upto(c: Seq<u16>, i: int, n: int) -> u16
    decreases n,
{
    if n <= 0 {
        0
    } else {
        forbid_upto(c, i, n - 1) | if peers(i, n - 1) && cnt(c[n - 1]) == 1 {
            c[n - 1]
        } else {
            0u16
        }
    }
}

/// One propagation pass: every cell loses the values of its determined peers.
pub open spec fn elim(c: Seq<u16>) -> Seq<u16> {
    Seq::new(81, |i: int| c[i] & !forbid_upto(c, i, 81))
}

/// `k` propagation passes.
pub open spec fn iterate(c: Seq<u16>, k: nat) -> Seq<u16>
    decreases k,
{
    if k == 0 {
        c
    } else {
        elim(iterate(c, (k - 1) as nat))
    }
}

/// `new` is where repeated passes from `old` stop changing anything.
pub open spec fn propagated(old: Seq<u16>, new: Seq<u16>) -> bool {
    exists|k: nat| #[trigger] iterate(old, k) == new && elim(new) == new
}

/// The number of candidates in the first `n` cells.
pub open spec fn total_upto(c: Seq<u16>, n: int) -> nat
    decreases n,
{
    if n <= 0 {
        0
    } else {
        total_upto(c, n - 1) + cnt(c[n - 1])
    }
}

/// The number of candidates on the whole board.
pub open spec fn total(c: Seq<u16>) -> nat {
    total_upto(c, 81)
}

/// Row `row` but for column `skip` loses the value `v`.
pub open spec fn strike_row(c: Seq<u16>, row: int, skip: int, v: int) -> Seq<u16> {
    Seq::new(
        81,
        |i: int|
            if i / 9 == row && i % 9 != skip {
                without(c[i], v)
            } else {
                c[i]
            },
    )
}

/// The box of cell `p` but for `p` itself loses the value `v`.
pub open spec fn strike_box(c: Seq<u16>, p: int, v: int) -> Seq<u16> {
    Seq::new(
        81,
        |i: int|
            if same_box(i, p) && i != p {
                without(c[i], v)
            } else {
                c[i]
            },
    )
}

proof fn lemma_forbid_upto(c: Seq<u16>, i: int, n: int)
    requires
        c.len() == 81,
        n <= 81,
    ensures
        forall|d: int|
            #[trigger] holds(forbid_upto(c, i, n), d) <==> exists|j: int|
                0 <= j < n && peers(i, j) && cnt(#[trigger] c[j]) == 1 && holds(c[j], d),
    decreases n,
{
    if n > 0 {
        lemma_forbid_upto(c, i, n - 1);
        let e = if peers(i, n - 1) && cnt(c[n - 1]) == 1 {
            c[n - 1]
        } else {
            0u16
        };
        lemma_has_or(forbid_upto(c, i, n - 1), e);
        lemma_has_none();
        assert forall|d: int|
            #[trigger] holds(forbid_upto(c, i, n), d) implies exists|j: int|
                0 <= j < n && peers(i, j) && cnt(#[trigger] c[j]) == 1 && holds(c[j], d) by {
            if !holds(forbid_upto(c, i, n - 1), d) {
                assert(peers(i, n - 1) && cnt(c[n - 1]) == 1 && holds(c[n - 1], d));
            }
        }
    } else {
        lemma_has_none();
    }
}

/// What one pass leaves of each cell: its candidates that no determined peer holds.
pub proof fn lemma_elim(c: Seq<u16>)
    requires
        well_formed(c),
    ensures
        well_formed(elim(c)),
        shrinks(c, elim(c)),
        forall|i: int, d: int|
            0 <= i < 81 ==> (#[trigger] holds(elim(c)[i], d) <==> holds(c[i], d) && !forbidden(
                c,
                i,
                d,
            )),
{
    assert forall|i: int| 0 <= i < 81 implies {
        &&& forall|d: int|
            #[trigger] holds(elim(c)[i], d) <==> holds(c[i], d) && !forbidden(c, i, d)
        &&& proper(elim(c)[i])
        &&& subset(elim(c)[i], c[i])
    } by {
        lemma_forbid_upto(c, i, 81);
        lemma_has_and_not(c[i], forbid_upto(c, i, 81));
    }
}

/// Two proper boards with the same candidates everywhere are the same board.
pub proof fn lemma_board_ext(a: Seq<u16>, b: Seq<u16>)
    requires
        well_formed(a),
        well_formed(b),
        forall|i: int, d: int| 0 <= i < 81 ==> #[trigger] holds(a[i], d) == holds(b[i], d),
    ensures
        a == b,
{
    assert forall|i: int| 0 <= i < 81 implies a[i] == b[i] by {
        assert forall|d: int| 1 <= d <= 9 implies #[trigger] holds(a[i], d) == holds(b[i], d) by {
            assert(holds(a[i], d) == holds(b[i], d));
        }
        lemma_mask_ext(a[i], b[i]);
    }
    assert(a =~= b);
}

/// Shrinking never raises the total, and lowers it where some candidate goes.
pub proof fn lemma_total_shrinks(a: Seq<u16>, b: Seq<u16>, n: int)
    requires
        a.len() == 81,
        shrinks(a, b),
        0 <= n <= 81,
    ensures
        total_upto(b, n) <= total_upto(a, n),
        (exists|i: int, d: int| 0 <= i < n && holds(a[i], d) && !#[trigger] holds(b[i], d))
            ==> total_upto(b, n) < total_upto(a, n),
    decreases n,
{
    if n > 0 {
        lemma_total_shrinks(a, b, n - 1);
        lemma_cnt_subset(b[n - 1], a[n - 1], 9);
        if exists|i: int, d: int| 0 <= i < n && holds(a[i], d) && !#[trigger] holds(b[i], d) {
            let (i, d) = choose|i: int, d: int|
                0 <= i < n && holds(a[i], d) && !#[trigger] holds(b[i], d);
            if i < n - 1 {
                assert(exists|i: int, d: int|
                    0 <= i < n - 1 && holds(a[i], d) && !#[trigger] holds(b[i], d));
            } else {
                assert(1 <= d <= 9);
                assert(exists|e: int| 1 <= e <= 9 && holds(a[n - 1], e) && !#[trigger] holds(b[n - 1], e));
            }
        }
    }
}

/// Between two proper boards, one a shrinking of the other, a change loses a candidate.
pub proof fn lemma_change_loses(a: Seq<u16>, b: Seq<u16>)
    requires
        well_formed(a),
        well_formed(b),
        shrinks(a, b),
        a != b,
    ensures
        exists|i: int, d: int| 0 <= i < 81 && holds(a[i], d) && !#[trigger] holds(b[i], d),
        total(b) < total(a),
{
    if !exists|i: int, d: int| 0 <= i < 81 && holds(a[i], d) && !#[trigger] holds(b[i], d) {
        assert forall|i: int, d: int| 0 <= i < 81 implies #[trigger] holds(a[i], d) == holds(
            b[i],
            d,
        ) by {
            if holds(a[i], d) {
                assert(holds(b[i], d));
            }
            if holds(b[i], d) {
                assert(subset(b[i], a[i]));
            }
        }
        lemma_board_ext(a, b);
    }
    lemma_total_shrinks(a, b, 81);
}

/// Repeated passes keep the board proper and only take candidates away.
pub proof fn lemma_iterate(c: Seq<u16>, k: nat)
    requires
        well_formed(c),
    ensures
        well_formed(iterate(c, k)),
        shrinks(c, iterate(c, k)),
    decreases k,
{
    if k > 0 {
        lemma_iterate(c, (k - 1) as nat);
        let p = iterate(c, (k - 1) as nat);
        lemma_elim(p);
        assert forall|i: int| 0 <= i < 81 implies subset(#[trigger] iterate(c, k)[i], c[i]) by {
            assert(subset(elim(p)[i], p[i]));
            assert(subset(p[i], c[i]));
        }
    }
}

/// A board that one pass leaves alone stays as it is under any number of passes.
pub proof fn lemma_iterate_stable(c: Seq<u16>, k: nat)
    requires
        elim(c) == c,
    ensures
        iterate(c, k) == c,
    decreases k,
{
    if k > 0 {
        lemma_iterate_stable(c, (k - 1) as nat);
    }
}

/// Propagating a board that is already propagated changes nothing.
pub proof fn lemma_propagation_idempotent(a: Seq<u16>, b: Seq<u16>, c: Seq<u16>)
    requires
        propagated(a, b),
        propagated(b, c),
    ensures
        c == b,
{
    let k = choose|k: nat| #[trigger] iterate(b, k) == c && elim(c) == c;
    lemma_iterate_stable(b, k);
}

/// Removes `v` from every cell of row `row` but the one in column `skip`.
fn row_elim(board: &mut Board, row: usize, skip: usize, v: u8) -> (r: bool)
    requires
        old(board).wf(),
        row < 9,
        skip < 9,
        1 <= v <= 9,
    ensures
        final(board).wf(),
        final(board)@ == strike_row(old(board)@, row as int, skip as int, v as int),
        r == exists|col: int|
            0 <= col < 9 && col != skip && holds(#[trigger] old(board)@[idx(row as int, col)], v as int),
{
    let ghost start = board@;
    let mut changed = false;
    let mut x: usize = 0;
    while x < SIZE
        invariant
            x <= 9,
            row < 9,
            skip < 9,
            1 <= v <= 9,
            board.wf(),
            start.len() == 81,
            forall|i: int|
                0 <= i < 81 ==> #[trigger] board@[i] == if i / 9 == row && i % 9 != skip && i % 9
                    < x {
                    without(start[i], v as int)
                } else {
                    start[i]
                },
            changed == exists|col: int|
                0 <= col < x && col != skip && holds(#[trigger] start[idx(row as int, col)], v as int),
        decreases 9 - x,
    {
        if x != skip {
            if board.remove_candidate(row, x, v) {
                changed = true;
            }
        }
        proof {
            if !changed {
                assert forall|col: int|
                    0 <= col < x + 1 && col != skip implies !holds(
                    #[trigger] start[idx(row as int, col)],
                    v as int,
                ) by {
                    if col == x {
                        assert(board@[idx(row as int, col)] == without(start[idx(row as int, col)], v as int)
                            || col == skip);
                    }
                }
            } else {
                if !exists|col: int|
                    0 <= col < x && col != skip && holds(#[trigger] start[idx(row as int, col)], v as int) {
                    assert(holds(start[idx(row as int, x as int)], v as int));
                }
            }
        }
        x = x + 1;
    }
    proof {
        assert(board@ =~= strike_row(start, row as int, skip as int, v as int));
    }
    changed
}

/// Removes the value of `cell` from every other cell of its box; tells whether any went.
pub fn box_elim(board: &mut Board, cell: Cell) -> (r: bool)
    requires
        old(board).wf(),
        cell.x < 9,
        cell.y < 9,
        1 <= cell.val <= 9,
    ensures
        final(board).wf(),
        final(board)@ == strike_box(old(board)@, cell.pos(), cell.val as int),
        r == exists|i: int|
            0 <= i < 81 && same_box(i, cell.pos()) && i != cell.pos() && holds(
                #[trigger] old(board)@[i],
                cell.val as int,
            ),
{
    let ghost start = board@;
    let ghost p = cell.pos();
    let ghost v = cell.val as int;
    let xbox = cell.x / 3;
    let ybox = cell.y / 3;
    let xstart = xbox * 3;
    let ystart = ybox * 3;
    let xend = xstart + 3;
    let yend = ystart + 3;
    let mut changed = false;
    let mut i = ystart;
    while i < yend
        invariant
            ystart <= i <= yend,
            yend == ystart + 3,
            xend == xstart + 3,
            ystart == (cell.y / 3) * 3,
            xstart == (cell.x / 3) * 3,
            cell.x < 9,
            cell.y < 9,
            1 <= cell.val <= 9,
            p == cell.pos(),
            v == cell.val,
            board.wf(),
            start.len() == 81,
            forall|q: int|
                0 <= q < 81 ==> #[trigger] board@[q] == if same_box(q, p) && q != p && q / 9 < i {
                    without(start[q], v)
                } else {
                    start[q]
                },
            changed == exists|q: int|
                0 <= q < 81 && same_box(q, p) && q != p && q / 9 < i && holds(
                    #[trigger] start[q],
                    v,
                ),
        decreases yend - i,
    {
        let mut j = xstart;
        while j < xend
            invariant
                ystart <= i < yend,
                xstart <= j <= xend,
                yend == ystart + 3,
                xend == xstart + 3,
                ystart == (cell.y / 3) * 3,
                xstart == (cell.x / 3) * 3,
                cell.x < 9,
                cell.y < 9,
                1 <= cell.val <= 9,
                p == cell.pos(),
                v == cell.val,
                board.wf(),
                start.len() == 81,
                forall|q: int|
                    0 <= q < 81 ==> #[trigger] board@[q] == if same_box(q, p) && q != p && (q / 9
                        < i || (q / 9 == i && q % 9 < j)) {
                        without(start[q], v)
                    } else {
                        start[q]
                    },
                changed == exists|q: int|
                    0 <= q < 81 && same_box(q, p) && q != p && (q / 9 < i || (q / 9 == i && q % 9
                        < j)) && holds(#[trigger] start[q], v),
            decreases xend - j,
        {
            let ghost q0 = idx(i as int, j as int);
            assert(same_box(q0, p));
            if !(i == cell.y && j == cell.x) {
                let ghost before = changed;
                if board.remove_candidate(i, j, cell.val) {
                    changed = true;
                }
                proof {
                    if !before && changed {
                        assert(holds(start[q0], v));
                    }
                }
            }
            j = j + 1;
        }
        i = i + 1;
    }
    proof {
        assert(board@ =~= strike_box(start, p, v));
    }
    changed
}


/// Column `col` but for row `skip` loses the value `v`.
pub open spec fn strike_col(c: Seq<u16>, col: int, skip: int, v: int) -> Seq<u16> {
    Seq::new(
        81,
        |i: int|
            if i % 9 == col && i / 9 != skip {
                without(c[i], v)
            } else {
                c[i]
            },
    )
}

/// Some earlier cell of the work list `s`, among the first `k`, is a peer of `i` with value `d`.
pub open spec fn struck(s: Seq<Cell>, k: int, i: int, d: int) -> bool {
    exists|m: int| 0 <= m < k && peers(i, #[trigger] s[m].pos()) && s[m].val == d
}

proof fn lemma_without(m: u16, v: int)
    requires
        1 <= v <= 9,
    ensures
        forall|d: int| #[trigger] holds(without(m, v), d) <==> (holds(m, d) && d != v),
        without(m, v) <= m,
{
    lemma_has_and_not(m, crate::candidates::bit(v));
    lemma_has_bit(v);
}

/// Striking a row of the transposed board is striking a column of the board.
proof fn lemma_strike_col(c: Seq<u16>, col: int, skip: int, v: int)
    requires
        c.len() == 81,
        0 <= col < 9,
        0 <= skip < 9,
    ensures
        transposed(strike_row(transposed(c), col, skip, v)) == strike_col(c, col, skip, v),
        forall|r: int|
            0 <= r < 9 ==> #[trigger] transposed(c)[idx(col, r)] == c[idx(r, col)],
{
    assert forall|r: int| 0 <= r < 9 implies #[trigger] transposed(c)[idx(col, r)] == c[idx(
        r,
        col,
    )] by {
        let t = idx(col, r);
        assert(t / 9 == col && t % 9 == r);
    }
    let lhs = transposed(strike_row(transposed(c), col, skip, v));
    assert forall|i: int| 0 <= i < 81 implies #[trigger] lhs[i] == strike_col(c, col, skip, v)[i] by {
        let t = idx(i % 9, i / 9);
        assert(t / 9 == i % 9 && t % 9 == i / 9);
        assert(idx(t % 9, t / 9) == i);
    }
    assert(lhs =~= strike_col(c, col, skip, v));
}

/// What one determined cell `p = (y, x)` with value `v` takes from cell `i`.
proof fn lemma_strike_at(c0: Seq<u16>, x: int, y: int, v: int, i: int)
    requires
        well_formed(c0),
        0 <= x < 9,
        0 <= y < 9,
        1 <= v <= 9,
        0 <= i < 81,
    ensures
        ({
            let c1 = strike_row(c0, y, x, v);
            let c2 = strike_col(c1, x, y, v);
            let c3 = strike_box(c2, idx(y, x), v);
            &&& proper(c1[i])
            &&& proper(c2[i])
            &&& proper(c3[i])
            &&& forall|d: int|
                #[trigger] holds(c3[i], d) <==> holds(c0[i], d) && !(d == v && peers(i, idx(y, x)))
        }),
{
    let p = idx(y, x);
    assert(p / 9 == y && p % 9 == x);
    let c1 = strike_row(c0, y, x, v);
    let c2 = strike_col(c1, x, y, v);
    lemma_without(c0[i], v);
    lemma_without(c1[i], v);
    lemma_without(c2[i], v);
}

/// What one determined cell `(y, x)` with value `v` takes from its row, column and box.
proof fn lemma_strike_peers(c0: Seq<u16>, x: int, y: int, v: int)
    requires
        well_formed(c0),
        0 <= x < 9,
        0 <= y < 9,
        1 <= v <= 9,
    ensures
        well_formed(strike_row(c0, y, x, v)),
        well_formed(strike_col(strike_row(c0, y, x, v), x, y, v)),
        well_formed(strike_box(strike_col(strike_row(c0, y, x, v), x, y, v), idx(y, x), v)),
        forall|i: int, d: int|
            0 <= i < 81 ==> (#[trigger] holds(
                strike_box(strike_col(strike_row(c0, y, x, v), x, y, v), idx(y, x), v)[i],
                d,
            ) <==> holds(c0[i], d) && !(d == v && peers(i, idx(y, x)))),
{
    assert forall|i: int| 0 <= i < 81 implies {
        &&& proper(#[trigger] strike_row(c0, y, x, v)[i])
        &&& proper(strike_col(strike_row(c0, y, x, v), x, y, v)[i])
        &&& proper(strike_box(strike_col(strike_row(c0, y, x, v), x, y, v), idx(y, x), v)[i])
        &&& forall|d: int|
            #[trigger] holds(
                strike_box(strike_col(strike_row(c0, y, x, v), x, y, v), idx(y, x), v)[i],
                d,
            ) <==> holds(c0[i], d) && !(d == v && peers(i, idx(y, x)))
    } by {
        lemma_strike_at(c0, x, y, v, i);
    }
}

/// The three reports of the row, column and box steps say together whether a peer held `v`.
proof fn lemma_strike_changed(c0: Seq<u16>, x: int, y: int, v: int)
    requires
        well_formed(c0),
        0 <= x < 9,
        0 <= y < 9,
        1 <= v <= 9,
    ensures
        ((exists|col: int| 0 <= col < 9 && col != x && holds(#[trigger] c0[idx(y, col)], v))
            || (exists|row: int|
            0 <= row < 9 && row != y && holds(#[trigger] strike_row(c0, y, x, v)[idx(row, x)], v))
            || (exists|i: int|
            0 <= i < 81 && same_box(i, idx(y, x)) && i != idx(y, x) && holds(
                #[trigger] strike_col(strike_row(c0, y, x, v), x, y, v)[i],
                v,
            ))) <==> exists|i: int| 0 <= i < 81 && peers(i, idx(y, x)) && holds(#[trigger] c0[i], v),
{
    let p = idx(y, x);
    assert(p / 9 == y && p % 9 == x);
    let c1 = strike_row(c0, y, x, v);
    let c2 = strike_col(c1, x, y, v);
    let a = exists|col: int| 0 <= col < 9 && col != x && holds(#[trigger] c0[idx(y, col)], v);
    let b = exists|row: int| 0 <= row < 9 && row != y && holds(#[trigger] c1[idx(row, x)], v);
    let bx = exists|i: int| 0 <= i < 81 && same_box(i, p) && i != p && holds(#[trigger] c2[i], v);
    if a {
        let col = choose|col: int| 0 <= col < 9 && col != x && holds(#[trigger] c0[idx(y, col)], v);
        let q = idx(y, col);
        assert(q / 9 == y && q % 9 == col);
        assert(peers(q, p));
    }
    if b {
        let row = choose|row: int| 0 <= row < 9 && row != y && holds(#[trigger] c1[idx(row, x)], v);
        let q = idx(row, x);
        assert(q / 9 == row && q % 9 == x);
        assert(c1[q] == c0[q]);
        assert(peers(q, p));
    }
    if bx {
        let i = choose|i: int| 0 <= i < 81 && same_box(i, p) && i != p && holds(#[trigger] c2[i], v);
        lemma_without(c0[i], v);
        lemma_without(c1[i], v);
        assert(holds(c0[i], v));
        assert(peers(i, p));
    }
    if exists|i: int| 0 <= i < 81 && peers(i, p) && holds(#[trigger] c0[i], v) {
        let i = choose|i: int| 0 <= i < 81 && peers(i, p) && holds(#[trigger] c0[i], v);
        if i / 9 == y {
            assert(i == idx(y, i % 9));
            assert(a);
        } else if i % 9 == x {
            assert(i == idx(i / 9, x));
            assert(c1[i] == c0[i]);
            assert(b);
        } else {
            assert(c1[i] == c0[i]);
            assert(c2[i] == c0[i]);
            assert(bx);
        }
    }
}

/// Adding the next cell of the work list to those already struck.
proof fn lemma_struck_step(s: Seq<Cell>, k: int)
    requires
        0 <= k < s.len(),
    ensures
        forall|i: int, d: int|
            #[trigger] struck(s, k + 1, i, d) <==> (struck(s, k, i, d) || (peers(i, s[k].pos())
                && s[k].val == d)),
{
    assert forall|i: int, d: int|
        #[trigger] struck(s, k + 1, i, d) <==> (struck(s, k, i, d) || (peers(i, s[k].pos())
            && s[k].val == d)) by {
        if struck(s, k + 1, i, d) && !struck(s, k, i, d) {
            let m = choose|m: int| 0 <= m < k + 1 && peers(i, #[trigger] s[m].pos()) && s[m].val == d;
            assert(m == k);
        }
        if peers(i, s[k].pos()) && s[k].val == d {
            assert(peers(i, s[k].pos()) && s[k].val == d);
        }
    }
}

/// Removes `v`, the value of the determined cell `(y, x)`, from the other cells of its row
/// (directly), of its column (as a row of the transposed board) and of its box. Tells whether
/// any cell lost it.
fn cell_elim(board: &mut Board, x: usize, y: usize, v: u8) -> (r: bool)
    requires
        old(board).wf(),
        x < 9,
        y < 9,
        1 <= v <= 9,
    ensures
        final(board).wf(),
        forall|i: int, d: int|
            0 <= i < 81 ==> (#[trigger] holds(final(board)@[i], d) <==> holds(old(board)@[i], d)
                && !(d == v && peers(i, idx(y as int, x as int)))),
        r == exists|i: int|
            0 <= i < 81 && peers(i, idx(y as int, x as int)) && holds(#[trigger] old(board)@[i], v as int),
{
    let ghost c0 = board@;
    let ghost c1 = strike_row(c0, y as int, x as int, v as int);
    let a = row_elim(board, y, x, v);
    transpose_mut(board);
    let b = row_elim(board, x, y, v);
    transpose_mut(board);
    proof {
        lemma_strike_col(c1, x as int, y as int, v as int);
        assert(b == exists|row: int|
            0 <= row < 9 && row != y && holds(#[trigger] c1[idx(row, x as int)], v as int)) by {
            if b {
                let col = choose|col: int|
                    0 <= col < 9 && col != y && holds(
                        #[trigger] transposed(c1)[idx(x as int, col)],
                        v as int,
                    );
                assert(holds(c1[idx(col, x as int)], v as int));
            }
            if exists|row: int|
                0 <= row < 9 && row != y && holds(#[trigger] c1[idx(row, x as int)], v as int) {
                let row = choose|row: int|
                    0 <= row < 9 && row != y && holds(#[trigger] c1[idx(row, x as int)], v as int);
                assert(holds(transposed(c1)[idx(x as int, row)], v as int));
            }
        }
    }
    let c = box_elim(board, Cell::new(v, x, y));
    proof {
        lemma_strike_peers(c0, x as int, y as int, v as int);
        lemma_strike_changed(c0, x as int, y as int, v as int);
    }
    a || b || c
}

/// One propagation pass: every determined cell, as found at the start of the pass, takes its
/// value out of the other cells of its row, its column and its box. Tells whether anything
/// changed.
pub fn simple_elim(board: &mut Board) -> (r: bool)
    requires
        old(board).wf(),
    ensures
        final(board).wf(),
        final(board)@ == elim(old(board)@),
        shrinks(old(board)@, final(board)@),
        r == (elim(old(board)@) != old(board)@),
{
    let ghost start = board@;
    let singles = find_known(board);
    let mut changed = false;
    let mut k: usize = 0;
    while k < singles.len()
        invariant
            board.wf(),
            well_formed(start),
            k <= singles@.len(),
            forall|m: int|
                0 <= m < singles@.len() ==> {
                    &&& #[trigger] singles@[m].x < 9
                    &&& singles@[m].y < 9
                    &&& cnt(start[singles@[m].pos()]) == 1
                    &&& singles@[m].val == least(start[singles@[m].pos()])
                },
            forall|i: int|
                0 <= i < 81 && cnt(#[trigger] start[i]) == 1 ==> exists|m: int|
                    0 <= m < singles@.len() && #[trigger] singles@[m].pos() == i,
            forall|i: int, d: int|
                0 <= i < 81 ==> (#[trigger] holds(board@[i], d) <==> holds(start[i], d)
                    && !struck(singles@, k as int, i, d)),
            changed == exists|i: int, d: int|
                0 <= i < 81 && holds(start[i], d) && !#[trigger] holds(board@[i], d),
        decreases singles@.len() - k,
    {
        let x = singles[k].x;
        let y = singles[k].y;
        let v = singles[k].val;
        let ghost c0 = board@;
        proof {
            lemma_single(start[singles@[k as int].pos()]);
            lemma_struck_step(singles@, k as int);
            assert(singles@[k as int].pos() == idx(y as int, x as int));
        }
        let hit = cell_elim(board, x, y, v);
        let ghost before = changed;
        if hit {
            changed = true;
        }
        proof {
            let p = idx(y as int, x as int);
            if before {
                let (i, d) = choose|i: int, d: int|
                    0 <= i < 81 && holds(start[i], d) && !#[trigger] holds(c0[i], d);
                assert(!holds(board@[i], d));
            }
            if hit {
                let i = choose|i: int| 0 <= i < 81 && peers(i, p) && holds(#[trigger] c0[i], v as int);
                assert(holds(start[i], v as int) && !holds(board@[i], v as int));
            }
            if !changed {
                assert forall|i: int, d: int|
                    0 <= i < 81 && holds(start[i], d) implies #[trigger] holds(board@[i], d) by {
                    assert(holds(c0[i], d));
                    if d == v && peers(i, p) {
                        assert(holds(c0[i], v as int));
                    }
                }
            }
        }
        k = k + 1;
    }
    proof {
        lemma_elim(start);
        assert forall|i: int, d: int| 0 <= i < 81 implies #[trigger] holds(board@[i], d) == holds(
            elim(start)[i],
            d,
        ) by {
            if struck(singles@, k as int, i, d) {
                let m = choose|m: int|
                    0 <= m < k && peers(i, #[trigger] singles@[m].pos()) && singles@[m].val == d;
                let j = singles@[m].pos();
                lemma_single(start[j]);
                assert(forbidden(start, i, d));
            }
            if forbidden(start, i, d) {
                let j = choose|j: int|
                    0 <= j < 81 && peers(i, j) && cnt(#[trigger] start[j]) == 1 && holds(start[j], d);
                lemma_single(start[j]);
                let m = choose|m: int| 0 <= m < singles@.len() && #[trigger] singles@[m].pos() == j;
                assert(struck(singles@, k as int, i, d));
            }
        }
        lemma_board_ext(board@, elim(start));
        if elim(start) != start {
            lemma_change_loses(start, elim(start));
        }
    }
    changed
}

/// Shrinking twice is shrinking.
pub proof fn lemma_shrinks_trans(a: Seq<u16>, b: Seq<u16>, c: Seq<u16>)
    requires
        shrinks(a, b),
        shrinks(b, c),
    ensures
        shrinks(a, c),
{
    assert forall|i: int| 0 <= i < a.len() implies subset(#[trigger] c[i], a[i]) by {
        assert(subset(c[i], b[i]));
        assert(subset(b[i], a[i]));
    }
}

/// Repeats propagation passes until one changes nothing; tells whether the board changed.
pub fn full_elim(board: &mut Board) -> (r: bool)
    requires
        old(board).wf(),
    ensures
        final(board).wf(),
        propagated(old(board)@, final(board)@),
        shrinks(old(board)@, final(board)@),
        r == (final(board)@ != old(board)@),
{
    let ghost start = board@;
    let ghost mut k: nat = 0;
    let mut ret = false;
    proof {
        assert forall|i: int| 0 <= i < 81 implies subset(#[trigger] start[i], start[i]) by {}
    }
    loop
        invariant
            board.wf(),
            well_formed(start),
            board@ == iterate(start, k),
            shrinks(start, board@),
            ret ==> total(board@) < total(start),
            !ret ==> board@ == start,
        ensures
            elim(board@) == board@,
        decreases total(board@),
    {
        let ghost prev = board@;
        let changed = simple_elim(board);
        proof {
            lemma_elim(prev);
            lemma_shrinks_trans(start, prev, board@);
            k = k + 1;
            if changed {
                lemma_change_loses(prev, board@);
            }
        }
        if !changed {
            break;
        }
        ret = true;
    }
    proof {
        assert(iterate(start, k) == board@);
        if ret {
            assert(board@ != start);
        }
    }
    ret
}

} // verus!
