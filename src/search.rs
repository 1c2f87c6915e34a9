//! Backtracking search: propagate, and where that stalls, guess on the least constrained cell.
use vstd::prelude::*;
use vstd::relations::injective_on;
use vstd::set_lib::{lemma_int_range, lemma_map_size, lemma_subset_equality, set_int_range};
use crate::board::{
    finished, idx, invalid, is_finished, is_invalid, shrinks, well_formed, Board,
};
use crate::candidates::{
    bit, cnt, count, get_rand_elem, holds, least, lemma_cnt_one, lemma_cnt_zero,
    lemma_has_and_not, lemma_has_bit, lemma_single, subset, without,
};
use crate::propagate::{
    elim, full_elim, iterate, lemma_elim, lemma_iterate,
    lemma_shrinks_trans, lemma_total_shrinks, peers, propagated, total,
};

verus! {

/// `sol` gives each cell a digit among its candidates, and no two peers the same digit.
pub open spec fn solves(sol: Seq<int>, c: Seq<u16>) -> bool {
    &&& sol.len() == 81
    &&& forall|i: int| 0 <= i < 81 ==> holds(c[i], #[trigger] sol[i])
    &&& forall|i: int, j: int|
        0 <= i < 81 && 0 <= j < 81 && peers(i, j) ==> #[trigger] sol[i] != #[trigger] sol[j]
}

/// Some assignment of digits solves the board.
pub open spec fn has_solution(c: Seq<u16>) -> bool {
    exists|sol: Seq<int>| solves(sol, c)
}

/// The digit that each cell shows: its smallest candidate.
pub open spec fn values(c: Seq<u16>) -> Seq<int> {
    Seq::new(81, |i: int| least(c[i]))
}

/// Cell number `k` (0 to 8) of unit `u`: rows are units 0 to 8, columns 9 to 17, boxes 18
/// to 26.
pub open spec fn unit_cell(u: int, k: int) -> int {
    if u < 9 {
        idx(u, k)
    } else if u < 18 {
        idx(k, u - 9)
    } else {
        idx(3 * ((u - 18) / 3) + k / 3, 3 * ((u - 18) % 3) + k % 3)
    }
}

/// Exactly one cell of unit `u` shows the digit `d`.
pub open spec fn once_in_unit(c: Seq<u16>, u: int, d: int) -> bool {
    exists|k: int|
        0 <= k < 9 && least(c[unit_cell(u, k)]) == d && forall|k2: int|
            0 <= k2 < 9 && #[trigger] least(c[unit_cell(u, k2)]) == d ==> k2 == k
}

/// Every row, column and box shows each digit from 1 to 9 exactly once.
pub open spec fn is_sudoku(c: Seq<u16>) -> bool {
    forall|u: int, d: int| 0 <= u < 27 && 1 <= d <= 9 ==> #[trigger] once_in_unit(c, u, d)
}

/// The cell to branch on: the first, in row-major order, of those with the fewest candidates
/// among the cells with more than one.
pub open spec fn is_branch_cell(c: Seq<u16>, i: int) -> bool {
    &&& 0 <= i < 81
    &&& cnt(c[i]) > 1
    &&& forall|j: int| 0 <= j < 81 && cnt(#[trigger] c[j]) > 1 ==> cnt(c[j]) >= cnt(c[i])
    &&& forall|j: int| 0 <= j < i && cnt(#[trigger] c[j]) > 1 ==> cnt(c[j]) > cnt(c[i])
}

/// No cell has more than one candidate: there is nothing to branch on.
#[derive(Debug, PartialEq, Eq, Structural)]
pub struct FindBifricateCellError;

/// How a board stands.
#[derive(Debug, PartialEq, Eq, Structural)]
pub enum Verdict {
    /// Every cell has exactly one candidate.
    Solved,
    /// Some cell has no candidate.
    Invalid,
    /// Neither: some cell still has several candidates.
    Unresolved,
}

/// A solution of the smaller board solves the larger one.
pub proof fn lemma_solves_shrinks(sol: Seq<int>, a: Seq<u16>, b: Seq<u16>)
    requires
        a.len() == 81,
        shrinks(a, b),
        solves(sol, b),
    ensures
        solves(sol, a),
{
    assert forall|i: int| 0 <= i < 81 implies holds(a[i], #[trigger] sol[i]) by {
        assert(subset(b[i], a[i]));
    }
}

/// A propagation pass keeps every solution.
pub proof fn lemma_solves_elim(sol: Seq<int>, c: Seq<u16>)
    requires
        well_formed(c),
        solves(sol, c),
    ensures
        solves(sol, elim(c)),
{
    lemma_elim(c);
    assert forall|i: int| 0 <= i < 81 implies holds(elim(c)[i], #[trigger] sol[i]) by {
        if crate::propagate::forbidden(c, i, sol[i]) {
            let j = choose|j: int|
                0 <= j < 81 && peers(i, j) && cnt(#[trigger] c[j]) == 1 && holds(c[j], sol[i]);
            lemma_single(c[j]);
            assert(holds(c[j], sol[j]));
            assert(sol[i] != sol[j]);
        }
    }
}

/// Propagation keeps every solution.
pub proof fn lemma_solves_iterate(sol: Seq<int>, c: Seq<u16>, k: nat)
    requires
        well_formed(c),
        solves(sol, c),
    ensures
        solves(sol, iterate(c, k)),
    decreases k,
{
    if k > 0 {
        lemma_solves_iterate(sol, c, (k - 1) as nat);
        lemma_iterate(c, (k - 1) as nat);
        lemma_solves_elim(sol, iterate(c, (k - 1) as nat));
    }
}

/// Propagation neither makes nor loses solutions.
pub proof fn lemma_propagated_solutions(a: Seq<u16>, b: Seq<u16>)
    requires
        well_formed(a),
        propagated(a, b),
    ensures
        has_solution(a) <==> has_solution(b),
        well_formed(b),
        shrinks(a, b),
{
    let k = choose|k: nat| #[trigger] iterate(a, k) == b && elim(b) == b;
    lemma_iterate(a, k);
    if has_solution(a) {
        let sol = choose|sol: Seq<int>| solves(sol, a);
        lemma_solves_iterate(sol, a, k);
    }
    if has_solution(b) {
        let sol = choose|sol: Seq<int>| solves(sol, b);
        lemma_solves_shrinks(sol, a, b);
    }
}

/// A board with an empty cell has no solution.
pub proof fn lemma_invalid_unsolvable(c: Seq<u16>)
    requires
        is_invalid(c),
    ensures
        !has_solution(c),
{
    let i = choose|i: int| 0 <= i < 81 && cnt(#[trigger] c[i]) == 0;
    lemma_cnt_zero(c[i], 9);
    if has_solution(c) {
        let sol = choose|sol: Seq<int>| solves(sol, c);
        assert(holds(c[i], sol[i]));
    }
}

/// A propagated board whose cells each hold one candidate is solved by those candidates.
pub proof fn lemma_finished_solves(c: Seq<u16>)
    requires
        well_formed(c),
        elim(c) == c,
        is_finished(c),
    ensures
        solves(values(c), c),
{
    lemma_elim(c);
    let sol = values(c);
    assert forall|i: int| 0 <= i < 81 implies holds(c[i], #[trigger] sol[i]) by {
        lemma_single(c[i]);
    }
    assert forall|i: int, j: int|
        0 <= i < 81 && 0 <= j < 81 && peers(i, j) implies #[trigger] sol[i] != #[trigger] sol[j] by {
        lemma_single(c[i]);
        lemma_single(c[j]);
        if sol[i] == sol[j] {
            assert(crate::propagate::forbidden(c, i, sol[i]));
            assert(!holds(elim(c)[i], sol[i]));
        }
    }
}

proof fn lemma_idx(r: int, c: int)
    requires
        0 <= r < 9,
        0 <= c < 9,
    ensures
        idx(r, c) / 9 == r,
        idx(r, c) % 9 == c,
        0 <= idx(r, c) < 81,
{
}

proof fn lemma_div3(q: int, r: int)
    requires
        0 <= q < 3,
        0 <= r < 3,
    ensures
        (3 * q + r) / 3 == q,
        0 <= 3 * q + r < 9,
{
}

/// Two cells of one unit are peers.
proof fn lemma_unit_peers(u: int, k1: int, k2: int)
    requires
        0 <= u < 27,
        0 <= k1 < 9,
        0 <= k2 < 9,
        k1 != k2,
    ensures
        0 <= unit_cell(u, k1) < 81,
        peers(unit_cell(u, k1), unit_cell(u, k2)),
{
    if u < 9 {
        lemma_idx(u, k1);
        lemma_idx(u, k2);
    } else if u < 18 {
        lemma_idx(k1, u - 9);
        lemma_idx(k2, u - 9);
    } else {
        let b = u - 18;
        let br = b / 3;
        let bc = b % 3;
        let r1 = 3 * br + k1 / 3;
        let c1 = 3 * bc + k1 % 3;
        let r2 = 3 * br + k2 / 3;
        let c2 = 3 * bc + k2 % 3;
        lemma_div3(br, k1 / 3);
        lemma_div3(bc, k1 % 3);
        lemma_div3(br, k2 / 3);
        lemma_div3(bc, k2 % 3);
        lemma_idx(r1, c1);
        lemma_idx(r2, c2);
        assert(k1 == 3 * (k1 / 3) + k1 % 3);
        assert(k2 == 3 * (k2 / 3) + k2 % 3);
        assert(r1 != r2 || c1 != c2);
    }
}

/// Nine distinct digits from 1 to 9 take in every one of them.
proof fn lemma_pigeonhole(f: spec_fn(int) -> int)
    requires
        forall|k: int| 0 <= k < 9 ==> 1 <= #[trigger] f(k) <= 9,
        forall|k1: int, k2: int|
            0 <= k1 < 9 && 0 <= k2 < 9 && k1 != k2 ==> #[trigger] f(k1) != #[trigger] f(k2),
    ensures
        set_int_range(0, 9).map(f) == set_int_range(1, 10),
{
    let dom = set_int_range(0, 9);
    let img = dom.map(f);
    lemma_int_range(0, 9);
    lemma_int_range(1, 10);
    assert(injective_on(f, dom));
    lemma_map_size(dom, img, f);
    assert(img.subset_of(set_int_range(1, 10))) by {
        assert forall|d: int| img.contains(d) implies set_int_range(1, 10).contains(d) by {
            let k = choose|k: int| dom.contains(k) && f(k) == d;
        }
    }
    lemma_subset_equality(img, set_int_range(1, 10));
}

/// A propagated board whose cells each hold one candidate shows every digit exactly once in
/// every row, column and box.
pub proof fn lemma_solved_is_sudoku(c: Seq<u16>)
    requires
        well_formed(c),
        elim(c) == c,
        is_finished(c),
    ensures
        is_sudoku(c),
{
    lemma_finished_solves(c);
    let sol = values(c);
    assert forall|u: int, d: int| 0 <= u < 27 && 1 <= d <= 9 implies #[trigger] once_in_unit(
        c,
        u,
        d,
    ) by {
        let f = |k: int| least(c[unit_cell(u, k)]);
        assert forall|k: int| 0 <= k < 9 implies 1 <= #[trigger] f(k) <= 9 by {
            lemma_unit_peers(u, k, (k + 1) % 9);
            lemma_single(c[unit_cell(u, k)]);
        }
        assert forall|k1: int, k2: int|
            0 <= k1 < 9 && 0 <= k2 < 9 && k1 != k2 implies #[trigger] f(k1) != #[trigger] f(k2) by {
            lemma_unit_peers(u, k1, k2);
            lemma_unit_peers(u, k2, k1);
            assert(sol[unit_cell(u, k1)] != sol[unit_cell(u, k2)]);
        }
        lemma_pigeonhole(f);
        assert(set_int_range(1, 10).contains(d));
        assert(set_int_range(0, 9).map(f).contains(d));
        let k = choose|k: int| set_int_range(0, 9).contains(k) && #[trigger] f(k) == d;
        assert forall|k2: int| 0 <= k2 < 9 && #[trigger] least(c[unit_cell(u, k2)]) == d implies k2
            == k by {
            if k2 != k {
                assert(f(k2) != f(k));
            }
        }
    }
}

/// Finds the cell to branch on, as `(column, row)`.
pub fn find_bifrication_candidate(board: &Board) -> (r: Result<(usize, usize), FindBifricateCellError>)
    requires
        board.wf(),
    ensures
        r is Err <==> forall|i: int| 0 <= i < 81 ==> cnt(#[trigger] board@[i]) <= 1,
        r matches Ok((x, y)) ==> x < 9 && y < 9 && is_branch_cell(board@, idx(y as int, x as int)),
{
    let mut best: u8 = 0;
    let mut bx: usize = 0;
    let mut by: usize = 0;
    let mut i: usize = 0;
    while i < 9
        invariant
            i <= 9,
            board.wf(),
            bx < 9,
            by < 9,
            best == 0 ==> forall|q: int| 0 <= q < 9 * i ==> cnt(#[trigger] board@[q]) <= 1,
            best != 0 ==> {
                &&& best == cnt(board@[idx(by as int, bx as int)])
                &&& best > 2
                &&& idx(by as int, bx as int) < 9 * i
                &&& forall|q: int| 0 <= q < 9 * i && cnt(#[trigger] board@[q]) > 1 ==> cnt(board@[q]) >= best
                &&& forall|q: int|
                    0 <= q < idx(by as int, bx as int) && cnt(#[trigger] board@[q]) > 1 ==> cnt(board@[q]) > best
            },
        decreases 9 - i,
    {
        let mut j: usize = 0;
        while j < 9
            invariant
                i < 9,
                j <= 9,
                board.wf(),
                bx < 9,
                by < 9,
                best == 0 ==> forall|q: int| 0 <= q < 9 * i + j ==> cnt(#[trigger] board@[q]) <= 1,
                best != 0 ==> {
                    &&& best == cnt(board@[idx(by as int, bx as int)])
                    &&& best > 2
                    &&& idx(by as int, bx as int) < 9 * i + j
                    &&& forall|q: int|
                        0 <= q < 9 * i + j && cnt(#[trigger] board@[q]) > 1 ==> cnt(board@[q]) >= best
                    &&& forall|q: int|
                        0 <= q < idx(by as int, bx as int) && cnt(#[trigger] board@[q]) > 1 ==> cnt(
                            board@[q],
                        ) > best
                },
            decreases 9 - j,
        {
            let n = count(board.candidates(i, j));
            if n > 1 && (best == 0 || n < best) {
                best = n;
                bx = j;
                by = i;
            }
            if best == 2 {
                return Ok((bx, by));
            }
            j = j + 1;
        }
        i = i + 1;
    }
    if best < 2 {
        return Err(FindBifricateCellError);
    }
    Ok((bx, by))
}

/// A guess on cell `i` with digit `e`: if no solution lacks `e` there, every solution has it.
proof fn lemma_guess(c: Seq<u16>, i: int, e: int)
    requires
        well_formed(c),
        0 <= i < 81,
        holds(c[i], e),
        !has_solution(c.update(i, without(c[i], e))),
    ensures
        has_solution(c) <==> has_solution(c.update(i, bit(e))),
        well_formed(c.update(i, bit(e))),
        shrinks(c, c.update(i, bit(e))),
{
    lemma_has_bit(e);
    lemma_has_and_not(c[i], bit(e));
    let f = c.update(i, bit(e));
    assert forall|j: int| 0 <= j < 81 implies subset(#[trigger] f[j], c[j]) by {}
    if has_solution(c) {
        let sol = choose|sol: Seq<int>| solves(sol, c);
        if sol[i] != e {
            let t = c.update(i, without(c[i], e));
            assert forall|j: int| 0 <= j < 81 implies holds(t[j], #[trigger] sol[j]) by {}
            assert(solves(sol, t));
        }
        assert forall|j: int| 0 <= j < 81 implies holds(f[j], #[trigger] sol[j]) by {}
        assert(solves(sol, f));
    }
    if has_solution(f) {
        let sol = choose|sol: Seq<int>| solves(sol, f);
        lemma_solves_shrinks(sol, c, f);
    }
}

/// A cell with more than one candidate has one besides the smallest.
proof fn lemma_second(m: u16)
    requires
        cnt(m) > 1,
    ensures
        1 <= least(m) <= 9,
        holds(m, least(m)),
        exists|d: int| d != least(m) && #[trigger] holds(m, d),
{
    crate::candidates::lemma_least(m);
    if !exists|d: int| d != least(m) && #[trigger] holds(m, d) {
        lemma_cnt_one(m, least(m));
    }
}

/// Guesses on the branch cell: a copy of the board loses the cell's smallest candidate and
/// is solved. If the copy ends invalid, that candidate was the only way, and the board takes
/// it; otherwise the board takes the copy's solution. Does nothing where no cell has more than
/// one candidate.
pub fn bifricate(board: &mut Board)
    requires
        old(board).wf(),
    ensures
        final(board).wf(),
        shrinks(old(board)@, final(board)@),
        (forall|i: int| 0 <= i < 81 ==> cnt(#[trigger] old(board)@[i]) <= 1) ==> final(board)@
            == old(board)@,
        (exists|i: int| 0 <= i < 81 && cnt(#[trigger] old(board)@[i]) > 1) ==> total(
            final(board)@,
        ) < total(old(board)@),
        forall|i: int|
            #[trigger] is_branch_cell(old(board)@, i) ==> {
                let e = least(old(board)@[i]);
                let test = old(board)@.update(i, without(old(board)@[i], e));
                &&& !has_solution(test) ==> final(board)@ == old(board)@.update(i, bit(e))
                &&& has_solution(test) ==> is_finished(final(board)@) && elim(final(board)@)
                    == final(board)@ && solves(values(final(board)@), test)
            },
        has_solution(final(board)@) <==> has_solution(old(board)@),
    decreases total(old(board)@), 0nat,
{
    let ghost start = board@;
    let mut test_board = board.clone();
    let test_res = find_bifrication_candidate(&test_board);
    match test_res {
        Ok((x, y)) => {
            let ghost i = idx(y as int, x as int);
            let set = test_board.candidates(y, x);
            proof {
                lemma_second(set);
            }
            let elem = get_rand_elem(set);
            test_board.remove_candidate(y, x, elem);
            let ghost test = test_board@;
            proof {
                lemma_has_and_not(set, bit(elem as int));
                lemma_has_bit(elem as int);
                assert forall|j: int| 0 <= j < 81 implies subset(#[trigger] test[j], start[j]) by {}
                assert(holds(start[i], elem as int) && !holds(test[i], elem as int));
                lemma_total_shrinks(start, test, 81);
                assert forall|j: int| #[trigger] is_branch_cell(start, j) implies j == i by {
                    if j < i {
                        assert(cnt(start[j]) > cnt(start[i]));
                    }
                    if i < j {
                        assert(cnt(start[i]) > cnt(start[j]));
                    }
                }
            }
            solve(&mut test_board);
            if invalid(&test_board) {
                board.assign(y, x, elem);
                proof {
                    lemma_guess(start, i, elem as int);
                    let d = choose|d: int| d != least(start[i]) && #[trigger] holds(start[i], d);
                    assert(!holds(board@[i], d));
                    lemma_total_shrinks(start, board@, 81);
                }
            } else {
                // the copy was solved to the end: it is either invalid or finished
                board.adopt(test_board);
                proof {
                    lemma_shrinks_trans(start, test, board@);
                    assert(!holds(board@[i], elem as int)) by {
                        assert(subset(board@[i], test[i]));
                    }
                    lemma_total_shrinks(start, board@, 81);
                    lemma_finished_solves(board@);
                    lemma_solves_shrinks(values(board@), start, test);
                }
            }
        },
        Err(_) => {
            proof {
                assert forall|j: int| 0 <= j < 81 implies subset(#[trigger] start[j], start[j]) by {}
                assert forall|j: int| !#[trigger] is_branch_cell(start, j) by {}
            }
        },
    }
}

/// Solves the board: propagates to a fixed point and, while the board is neither finished nor
/// invalid, branches. Ends finished exactly when the board had a solution, and then holds one.
pub fn solve(board: &mut Board)
    requires
        old(board).wf(),
    ensures
        final(board).wf(),
        shrinks(old(board)@, final(board)@),
        elim(final(board)@) == final(board)@,
        is_finished(final(board)@) || is_invalid(final(board)@),
        is_finished(final(board)@) <==> has_solution(old(board)@),
        is_finished(final(board)@) ==> solves(values(final(board)@), old(board)@) && is_sudoku(
            final(board)@,
        ),
    decreases total(old(board)@), 1nat,
{
    let ghost start = board@;
    proof {
        assert forall|j: int| 0 <= j < 81 implies subset(#[trigger] start[j], start[j]) by {}
    }
    loop
        invariant
            start == old(board)@,
            board.wf(),
            well_formed(start),
            shrinks(start, board@),
            has_solution(board@) <==> has_solution(start),
            total(board@) <= total(start),
        ensures
            board.wf(),
            shrinks(start, board@),
            elim(board@) == board@,
            has_solution(board@) <==> has_solution(start),
            is_finished(board@) || is_invalid(board@),
        decreases total(board@),
    {
        let ghost prev = board@;
        full_elim(board);
        proof {
            lemma_propagated_solutions(prev, board@);
            lemma_shrinks_trans(start, prev, board@);
            lemma_total_shrinks(start, board@, 81);
            let k = choose|k: nat| #[trigger] iterate(prev, k) == board@ && elim(board@) == board@;
        }
        if finished(board) || invalid(board) {
            break;
        }
        let ghost mid = board@;
        proof {
            let i = choose|i: int| 0 <= i < 81 && cnt(#[trigger] mid[i]) != 1;
            assert(cnt(mid[i]) != 0);
            assert(cnt(mid[i]) > 1);
            lemma_total_shrinks(prev, mid, 81);
            assert(total(mid) <= total(prev));
            assert(total(mid) <= total(start));
        }
        bifricate(board);
        proof {
            lemma_shrinks_trans(start, mid, board@);
            lemma_total_shrinks(start, board@, 81);
        }
    }
    proof {
        if is_finished(board@) {
            lemma_finished_solves(board@);
            lemma_solves_shrinks(values(board@), start, board@);
            lemma_solved_is_sudoku(board@);
        } else {
            lemma_invalid_unsolvable(board@);
        }
    }
}

/// Tells whether the board is solved, invalid, or neither yet.
pub fn verdict(board: &Board) -> (r: Verdict)
    requires
        board.wf(),
    ensures
        r == Verdict::Solved <==> is_finished(board@),
        r == Verdict::Invalid <==> is_invalid(board@),
        r == Verdict::Unresolved <==> !is_finished(board@) && !is_invalid(board@),
{
    if finished(board) {
        proof {
            assert forall|i: int| 0 <= i < 81 implies cnt(#[trigger] board@[i]) != 0 by {}
        }
        Verdict::Solved
    } else if invalid(board) {
        Verdict::Invalid
    } else {
        Verdict::Unresolved
    }
}

proof fn lemma_iterate_shift(c: Seq<u16>, k: nat)
    requires
        k >= 1,
    ensures
        iterate(c, k) == iterate(elim(c), (k - 1) as nat),
    decreases k,
{
    if k > 1 {
        lemma_iterate_shift(c, (k - 1) as nat);
        assert(iterate(c, k) == elim(iterate(c, (k - 1) as nat)));
        assert(iterate(elim(c), (k - 1) as nat) == elim(iterate(elim(c), (k - 2) as nat)));
    } else {
        assert(iterate(c, 1) == elim(iterate(c, 0)));
    }
}

/// Two determined peers with the same value: the board has no solution, and propagation
/// leaves it with an empty cell, never finished.
pub proof fn lemma_duplicate_givens(c: Seq<u16>, i: int, j: int, d: int)
    requires
        well_formed(c),
        0 <= i < 81,
        0 <= j < 81,
        peers(i, j),
        cnt(c[i]) == 1,
        cnt(c[j]) == 1,
        holds(c[i], d),
        holds(c[j], d),
    ensures
        !has_solution(c),
        forall|p: Seq<u16>| #[trigger] propagated(c, p) ==> is_invalid(p) && !is_finished(p),
{
    lemma_single(c[i]);
    lemma_single(c[j]);
    if has_solution(c) {
        let sol = choose|sol: Seq<int>| solves(sol, c);
        assert(holds(c[i], sol[i]) && holds(c[j], sol[j]));
        assert(sol[i] != sol[j]);
    }
    lemma_elim(c);
    assert(crate::propagate::forbidden(c, i, d));
    assert forall|e: int| 1 <= e <= 9 implies !#[trigger] holds(elim(c)[i], e) by {}
    lemma_cnt_zero(elim(c)[i], 9);
    assert forall|p: Seq<u16>| #[trigger] propagated(c, p) implies is_invalid(p) && !is_finished(
        p,
    ) by {
        let k = choose|k: nat| #[trigger] iterate(c, k) == p && elim(p) == p;
        if k == 0 {
            assert(holds(c[i], d) && !holds(elim(c)[i], d));
        } else {
            lemma_iterate_shift(c, k);
            lemma_iterate(elim(c), (k - 1) as nat);
            assert(subset(p[i], elim(c)[i]));
            assert forall|e: int| 1 <= e <= 9 implies !#[trigger] holds(p[i], e) by {}
            lemma_cnt_zero(p[i], 9);
        }
    }
}

/// Along any shrinking, no cell gains candidates and the board's total does not grow.
pub proof fn lemma_shrink_counts(a: Seq<u16>, b: Seq<u16>)
    requires
        a.len() == 81,
        shrinks(a, b),
    ensures
        forall|i: int| 0 <= i < 81 ==> cnt(#[trigger] b[i]) <= cnt(a[i]),
        total(b) <= total(a),
{
    assert forall|i: int| 0 <= i < 81 implies cnt(#[trigger] b[i]) <= cnt(a[i]) by {
        crate::candidates::lemma_cnt_subset(b[i], a[i], 9);
    }
    lemma_total_shrinks(a, b, 81);
}

} // verus!
