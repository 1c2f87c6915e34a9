use sudoku::board::{finished, find_known, invalid, transpose, transpose_mut, Board, Cell};
use sudoku::candidates::{count, get_rand_elem, ALL_DIGITS};
use sudoku::propagate::{box_elim, full_elim, simple_elim};
use sudoku::search::{
    bifricate, find_bifrication_candidate, solve, verdict, FindBifricateCellError, Verdict,
};
use sudoku::text::{detailed_display, sqrtceil, CustomParseError, ParseErrorKind};

const SOLUTION: [&str; 9] = [
    "534678912",
    "672195348",
    "198342567",
    "859761423",
    "426853791",
    "713924856",
    "961537284",
    "287419635",
    "345286179",
];

const EASY: &str = "034678912-672095348-198342067-809761423-426803791-713924806-960537284-287410635-345286170";

const HARD: &str = "800000000-003600000-070090200-050007000-000045700-000100030-001000068-008500010-090000400";

fn masks(b: &Board) -> Vec<u16> {
    let mut v = Vec::new();
    for r in 0..9 {
        for c in 0..9 {
            v.push(b.candidates(r, c));
        }
    }
    v
}

fn digit(b: &Board, r: usize, c: usize) -> u8 {
    let m = b.candidates(r, c);
    assert_eq!(count(m), 1);
    get_rand_elem(m)
}

fn assert_sudoku(b: &Board) {
    for u in 0..9 {
        let mut row = [false; 10];
        let mut col = [false; 10];
        let mut bx = [false; 10];
        for k in 0..9 {
            let r = digit(b, u, k);
            let c = digit(b, k, u);
            let x = digit(b, 3 * (u / 3) + k / 3, 3 * (u % 3) + k % 3);
            assert!(!row[r as usize] && !col[c as usize] && !bx[x as usize]);
            row[r as usize] = true;
            col[c as usize] = true;
            bx[x as usize] = true;
        }
    }
}

fn solution_text() -> String {
    let mut s = String::new();
    for line in SOLUTION.iter() {
        s.push_str(line);
        s.push('\n');
    }
    s
}

#[test]
fn default_board_holds_every_digit() {
    let b = Board::default();
    for m in masks(&b) {
        assert_eq!(m, ALL_DIGITS);
        assert_eq!(count(m), 9);
    }
    assert!(!finished(&b));
    assert!(!invalid(&b));
    assert_eq!(verdict(&b), Verdict::Unresolved);
}

#[test]
fn parse_reads_digits_blanks_and_rows() {
    let b = Board::from_str("500-070").unwrap();
    assert_eq!(b.candidates(0, 0), 1 << 4);
    assert_eq!(b.candidates(0, 1), ALL_DIGITS);
    assert_eq!(b.candidates(1, 1), 1 << 6);
    assert_eq!(b.candidates(1, 0), ALL_DIGITS);
    assert_eq!(b.candidates(8, 8), ALL_DIGITS);
}

#[test]
fn parse_rejects_unknown_character() {
    let e = Board::from_str("12x4").err().unwrap();
    assert_eq!(e, CustomParseError { kind: ParseErrorKind::InvalidDigit, character: 'x' });
}

#[test]
fn parse_rejects_digit_beyond_the_board() {
    let e = Board::from_str("0000000003").err().unwrap();
    assert_eq!(e, CustomParseError { kind: ParseErrorKind::OutOfRange, character: '3' });
    let e = Board::from_str("---------7").err().unwrap();
    assert_eq!(e.kind, ParseErrorKind::OutOfRange);
}

#[test]
fn first_candidate_is_smallest() {
    assert_eq!(get_rand_elem(0b1_0000_0000), 9);
    assert_eq!(get_rand_elem(0b0_0010_1100), 3);
    assert_eq!(get_rand_elem(ALL_DIGITS), 1);
    assert_eq!(count(0b0_0010_1100), 3);
    assert_eq!(count(0), 0);
}

#[test]
fn remove_candidate_reports_removal() {
    let mut b = Board::default();
    assert!(b.remove_candidate(2, 3, 4));
    assert_eq!(b.candidates(2, 3), ALL_DIGITS & !(1 << 3));
    assert!(!b.remove_candidate(2, 3, 4));
    assert_eq!(count(b.candidates(2, 3)), 8);
}

#[test]
fn transpose_swaps_rows_and_columns() {
    let b = Board::from_str(HARD).unwrap();
    let t = transpose(&b);
    for r in 0..9 {
        for c in 0..9 {
            assert_eq!(t.candidates(r, c), b.candidates(c, r));
        }
    }
    assert_eq!(t.candidates(2, 1), 1 << 2);
}

#[test]
fn transpose_twice_is_identity() {
    let b = Board::from_str(EASY).unwrap();
    let t = transpose(&transpose(&b));
    assert_eq!(masks(&t), masks(&b));
    let mut m = Board::from_str(HARD).unwrap();
    transpose_mut(&mut m);
    assert_ne!(masks(&m), masks(&Board::from_str(HARD).unwrap()));
    transpose_mut(&mut m);
    assert_eq!(masks(&m), masks(&Board::from_str(HARD).unwrap()));
}

#[test]
fn find_known_lists_determined_cells_in_order() {
    let b = Board::from_str("050-000-100").unwrap();
    let cells: Vec<Cell> = find_known(&b);
    assert_eq!(cells.len(), 2);
    assert_eq!((cells[0].val, cells[0].x, cells[0].y), (5, 1, 0));
    assert_eq!((cells[1].val, cells[1].x, cells[1].y), (1, 0, 2));
}

#[test]
fn box_elim_clears_the_box_only() {
    let mut b = Board::from_str("000-000-000-000-050").unwrap();
    assert!(box_elim(&mut b, Cell::new(5, 1, 4)));
    for r in 0..9 {
        for c in 0..9 {
            let m = b.candidates(r, c);
            if r == 4 && c == 1 {
                assert_eq!(m, 1 << 4);
            } else if (3..6).contains(&r) && c < 3 {
                assert_eq!(m, ALL_DIGITS & !(1 << 4));
            } else {
                assert_eq!(m, ALL_DIGITS);
            }
        }
    }
    assert!(!box_elim(&mut b, Cell::new(5, 1, 4)));
}

#[test]
fn one_pass_clears_row_column_and_box() {
    let mut b = Board::from_str("000-000-000-000-050").unwrap();
    assert!(simple_elim(&mut b));
    let mut cleared = 0;
    for r in 0..9 {
        for c in 0..9 {
            if b.candidates(r, c) == ALL_DIGITS & !(1 << 4) {
                cleared += 1;
            }
        }
    }
    assert_eq!(cleared, 20);
    assert_eq!(b.candidates(4, 1), 1 << 4);
    assert!(!simple_elim(&mut b));
}

#[test]
fn empty_board_does_not_propagate() {
    let mut b = Board::default();
    assert!(!full_elim(&mut b));
    for m in masks(&b) {
        assert_eq!(count(m), 9);
    }
    assert!(!finished(&b));
    assert_eq!(find_bifrication_candidate(&b), Ok((0, 0)));
}

#[test]
fn single_blank_is_forced() {
    let mut text = solution_text().replace('\n', "-");
    text.replace_range(44..45, "0");
    let mut b = Board::from_str(&text).unwrap();
    assert_eq!(count(b.candidates(4, 4)), 9);
    assert!(full_elim(&mut b));
    assert_eq!(b.candidates(4, 4), 1 << 4);
    assert_eq!(verdict(&b), Verdict::Solved);
    assert_eq!(b.to_string(), solution_text());
}

#[test]
fn duplicate_in_row_is_invalid() {
    let mut b = Board::from_str("500050000").unwrap();
    assert!(full_elim(&mut b));
    assert!(invalid(&b));
    assert_eq!(b.candidates(0, 0), 0);
    assert_eq!(b.candidates(0, 4), 0);
    assert_eq!(verdict(&b), Verdict::Invalid);
}

#[test]
fn duplicate_in_column_or_box_never_solves() {
    let mut b = Board::from_str("700-000-000-000-000-000-700").unwrap();
    full_elim(&mut b);
    assert!(invalid(&b));
    let mut b = Board::from_str("300-020-003").unwrap();
    solve(&mut b);
    assert!(invalid(&b));
    assert!(!finished(&b));
}

#[test]
fn easy_puzzle_needs_no_branching() {
    let mut b = Board::from_str(EASY).unwrap();
    assert!(full_elim(&mut b));
    assert!(finished(&b));
    assert_eq!(b.to_string(), solution_text());
    assert_sudoku(&b);
}

#[test]
fn hard_puzzle_needs_branching() {
    let givens = Board::from_str(HARD).unwrap();
    let mut b = Board::from_str(HARD).unwrap();
    full_elim(&mut b);
    assert!(!finished(&b));
    assert!(!invalid(&b));
    assert!(find_bifrication_candidate(&b).is_ok());
    solve(&mut b);
    assert_eq!(verdict(&b), Verdict::Solved);
    assert_sudoku(&b);
    for r in 0..9 {
        for c in 0..9 {
            if count(givens.candidates(r, c)) == 1 {
                assert_eq!(givens.candidates(r, c), b.candidates(r, c));
            }
        }
    }
}

#[test]
fn propagation_twice_changes_nothing() {
    let mut b = Board::from_str(HARD).unwrap();
    full_elim(&mut b);
    let once = masks(&b);
    assert!(!full_elim(&mut b));
    assert_eq!(masks(&b), once);
}

#[test]
fn candidates_only_shrink() {
    let start = Board::from_str(HARD).unwrap();
    let mut b = Board::from_str(HARD).unwrap();
    simple_elim(&mut b);
    let after_pass = masks(&b);
    full_elim(&mut b);
    let after_fix = masks(&b);
    bifricate(&mut b);
    let after_branch = masks(&b);
    let before = masks(&start);
    for i in 0..81 {
        assert_eq!(after_pass[i] & !before[i], 0);
        assert_eq!(after_fix[i] & !after_pass[i], 0);
        assert_eq!(after_branch[i] & !after_fix[i], 0);
        assert!(count(after_branch[i]) <= count(before[i]));
    }
    assert_ne!(after_branch, after_fix);
}

#[test]
fn branch_cell_is_first_with_fewest() {
    let mut b = Board::default();
    b.remove_candidate(0, 5, 1);
    b.remove_candidate(3, 2, 1);
    b.remove_candidate(3, 2, 2);
    b.remove_candidate(6, 6, 1);
    b.remove_candidate(6, 6, 2);
    assert_eq!(find_bifrication_candidate(&b), Ok((2, 3)));
    let solved = Board::from_str(&solution_text().replace('\n', "-")).unwrap();
    assert_eq!(find_bifrication_candidate(&solved), Err(FindBifricateCellError));
    let mut empty_first = Board::default();
    for d in 1..10 {
        empty_first.remove_candidate(0, 0, d);
    }
    assert_eq!(find_bifrication_candidate(&empty_first), Ok((1, 0)));
}

#[test]
fn bifricate_without_choice_does_nothing() {
    let mut b = Board::from_str(&solution_text().replace('\n', "-")).unwrap();
    let before = masks(&b);
    bifricate(&mut b);
    assert_eq!(masks(&b), before);
}

#[test]
fn ceiling_square_roots() {
    assert_eq!(sqrtceil(0), 0);
    assert_eq!(sqrtceil(1), 1);
    assert_eq!(sqrtceil(2), 2);
    assert_eq!(sqrtceil(4), 2);
    assert_eq!(sqrtceil(9), 3);
    assert_eq!(sqrtceil(10), 4);
    assert_eq!(sqrtceil(255), 16);
}

#[test]
fn board_text_shows_determined_digits() {
    let b = Board::from_str("5-07").unwrap();
    let text = b.to_string();
    let lines: Vec<&str> = text.lines().collect();
    assert_eq!(lines.len(), 9);
    assert_eq!(lines[0], "500000000");
    assert_eq!(lines[1], "070000000");
    assert_eq!(lines[8], "000000000");
}

#[test]
fn detailed_view_shows_candidates() {
    let b = Board::from_str("5").unwrap();
    let text = detailed_display(&b);
    let lines: Vec<&str> = text.lines().collect();
    assert_eq!(lines.len(), 37);
    assert_eq!(lines[0], "—".repeat(37));
    assert_eq!(lines[1], "|   |123|123|123|123|123|123|123|123|");
    assert_eq!(lines[2], "| 5 |456|456|456|456|456|456|456|456|");
    assert_eq!(lines[3], "|   |789|789|789|789|789|789|789|789|");
    assert_eq!(lines[4], "—".repeat(37));
}
