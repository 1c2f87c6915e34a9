//! The textual board: reading it row by row, and showing it again.
use vstd::prelude::*;
use crate::board::{idx, Board};
use crate::candidates::{bit, cnt, count, get_rand_elem, holds, least, ALL_DIGITS};

verus! {

/// What went wrong while reading a board.
#[derive(Debug, Clone, Copy, PartialEq, Eq, Structural)]
pub enum ParseErrorKind {
    /// A character that is neither a digit nor the row separator `-`.
    InvalidDigit,
    /// A given digit beyond the ninth row or the ninth column.
    OutOfRange,
}

/// A board that could not be read, and the character where it failed.
#[derive(Debug, Clone, Copy, PartialEq, Eq, Structural)]
pub struct CustomParseError {
    pub kind: ParseErrorKind,
    pub character: char,
}

/// The digit that a character from `'1'` to `'9'` writes, or 0 for any other character.
pub open spec fn digit_of(c: char) -> int {
    if c == '1' {
        1
    } else if c == '2' {
        2
    } else if c == '3' {
        3
    } else if c == '4' {
        4
    } else if c == '5' {
        5
    } else if c == '6' {
        6
    } else if c == '7' {
        7
    } else if c == '8' {
        8
    } else if c == '9' {
        9
    } else {
        0
    }
}

/// The character that writes the digit `d` (from 1 to 9), and `'0'` otherwise.
pub open spec fn digit_char(d: int) -> char {
    if d == 1 {
        '1'
    } else if d == 2 {
        '2'
    } else if d == 3 {
        '3'
    } else if d == 4 {
        '4'
    } else if d == 5 {
        '5'
    } else if d == 6 {
        '6'
    } else if d == 7 {
        '7'
    } else if d == 8 {
        '8'
    } else if d == 9 {
        '9'
    } else {
        '0'
    }
}

/// Reading the first `n` characters of `s`: the row and column reached and the cells so far,
/// or the error. `0` is a blank cell, `-` starts the next row, `1` to `9` is a given digit.
pub open spec fn parse_prefix(s: Seq<char>, n: int) -> Result<(int, int, Seq<u16>), CustomParseError>
    decreases n,
{
    if n <= 0 {
        Ok((0, 0, Seq::new(81, |i: int| ALL_DIGITS)))
    } else {
        match parse_prefix(s, n - 1) {
            Err(e) => Err(e),
            Ok((line, column, cells)) => {
                let c = s[n - 1];
                if c == '0' {
                    Ok((line, column + 1, cells))
                } else if c == '-' {
                    Ok((line + 1, 0, cells))
                } else if digit_of(c) == 0 {
                    Err(CustomParseError { kind: ParseErrorKind::InvalidDigit, character: c })
                } else if line < 9 && column < 9 {
                    Ok((line, column + 1, cells.update(idx(line, column), bit(digit_of(c)))))
                } else {
                    Err(CustomParseError { kind: ParseErrorKind::OutOfRange, character: c })
                }
            },
        }
    }
}

/// Reading the whole of `s`.
pub open spec fn parse(s: Seq<char>) -> Result<Seq<u16>, CustomParseError> {
    match parse_prefix(s, s.len() as int) {
        Ok((_, _, cells)) => Ok(cells),
        Err(e) => Err(e),
    }
}

/// Once reading has failed, it stays failed with the same error.
proof fn lemma_parse_err(s: Seq<char>, m: int, n: int)
    requires
        0 <= m <= n,
        parse_prefix(s, m) is Err,
    ensures
        parse_prefix(s, n) == parse_prefix(s, m),
    decreases n - m,
{
    if n > m {
        lemma_parse_err(s, m, n - 1);
    }
}

fn char_digit(c: char) -> (r: u8)
    ensures
        r == digit_of(c),
{
    if c == '1' {
        1
    } else if c == '2' {
        2
    } else if c == '3' {
        3
    } else if c == '4' {
        4
    } else if c == '5' {
        5
    } else if c == '6' {
        6
    } else if c == '7' {
        7
    } else if c == '8' {
        8
    } else if c == '9' {
        9
    } else {
        0
    }
}

impl Board {
    /// Reads a board written row by row: `0` for a blank cell, `1` to `9` for a given digit,
    /// `-` between rows. Blank and unwritten cells may hold every digit.
    pub fn from_str(s: &str) -> (r: Result<Board, CustomParseError>)
        ensures
            match parse(s@) {
                Ok(cells) => r is Ok && r->Ok_0.wf() && r->Ok_0@ == cells,
                Err(e) => r == Err::<Board, CustomParseError>(e),
            },
    {
        let mut b = Board::default();
        proof {
            crate::candidates::lemma_has_all();
            assert(b@ =~= Seq::new(81, |i: int| ALL_DIGITS));
        }
        let n = s.unicode_len();
        let mut line: usize = 0;
        let mut column: usize = 0;
        let mut i: usize = 0;
        while i < n
            invariant
                n == s@.len(),
                i <= n,
                line <= i,
                column <= i,
                b.wf(),
                parse_prefix(s@, i as int) == Ok::<(int, int, Seq<u16>), CustomParseError>(
                    (line as int, column as int, b@),
                ),
            decreases n - i,
        {
            let c = s.get_char(i);
            if c == '0' {
                column = column + 1;
            } else if c == '-' {
                line = line + 1;
                column = 0;
            } else {
                let digit = char_digit(c);
                if digit == 0 {
                    let e = CustomParseError { kind: ParseErrorKind::InvalidDigit, character: c };
                    proof {
                        lemma_parse_err(s@, i + 1, n as int);
                    }
                    return Err(e);
                }
                if line >= 9 || column >= 9 {
                    let e = CustomParseError { kind: ParseErrorKind::OutOfRange, character: c };
                    proof {
                        lemma_parse_err(s@, i + 1, n as int);
                    }
                    return Err(e);
                }
                b.assign(line, column, digit);
                column = column + 1;
            }
            i = i + 1;
        }
        Ok(b)
    }
}

/// The character that a cell shows: its digit when it has one candidate, `'0'` otherwise.
pub open spec fn shown(m: u16) -> char {
    if cnt(m) == 1 {
        digit_char(least(m))
    } else {
        '0'
    }
}

/// The board as text: nine lines of nine characters, each line ended by a newline.
pub open spec fn rendered(c: Seq<u16>) -> Seq<char> {
    Seq::new(90, |k: int| if k % 10 == 9 { '\n' } else { shown(c[idx(k / 10, k % 10)]) })
}

/// The smallest `r` with `r * r >= x`.
pub open spec fn is_sqrt_ceil(x: int, r: int) -> bool {
    r >= 0 && r * r >= x && (r == 0 || (r - 1) * (r - 1) < x)
}

/// A character of the detailed view: line `l`, position `p` (lines of 38 characters). Every
/// fourth line, starting with the first, is a rule of dashes; in between, each cell shows in
/// three lines of three places the digits it may still hold.
pub open spec fn detailed_char(c: Seq<u16>, l: int, p: int) -> char {
    if p == 37 {
        '\n'
    } else if l % 4 == 0 {
        '—'
    } else if p % 4 == 0 {
        '|'
    } else {
        let d = 3 * (l % 4 - 1) + (p % 4 - 1) + 1;
        if holds(c[idx(l / 4, p / 4)], d) {
            digit_char(d)
        } else {
            ' '
        }
    }
}

/// The detailed view of the board: 37 lines of 38 characters.
pub open spec fn detailed(c: Seq<u16>) -> Seq<char> {
    Seq::new(1406, |k: int| detailed_char(c, k / 38, k % 38))
}

/// The text of the digit `d`, or `"0"` where `d` is no digit.
fn digit_str(d: u8) -> (r: &'static str)
    ensures
        r@ == seq![digit_char(d as int)],
{
    if d == 1 {
        proof { reveal_strlit("1"); }
        "1"
    } else if d == 2 {
        proof { reveal_strlit("2"); }
        "2"
    } else if d == 3 {
        proof { reveal_strlit("3"); }
        "3"
    } else if d == 4 {
        proof { reveal_strlit("4"); }
        "4"
    } else if d == 5 {
        proof { reveal_strlit("5"); }
        "5"
    } else if d == 6 {
        proof { reveal_strlit("6"); }
        "6"
    } else if d == 7 {
        proof { reveal_strlit("7"); }
        "7"
    } else if d == 8 {
        proof { reveal_strlit("8"); }
        "8"
    } else if d == 9 {
        proof { reveal_strlit("9"); }
        "9"
    } else {
        proof { reveal_strlit("0"); }
        "0"
    }
}

/// The smallest `r` with `r * r >= x`: the square root of `x`, rounded up.
pub fn sqrtceil(x: u8) -> (r: u8)
    ensures
        is_sqrt_ceil(x as int, r as int),
{
    let mut r: u32 = 0;
    loop
        invariant
            r <= 16,
            r == 0 || (r - 1) * (r - 1) < x,
        ensures
            is_sqrt_ceil(x as int, r as int),
            r <= 16,
        decreases 16 - r,
    {
        assert(r * r <= 256) by (nonlinear_arith)
            requires
                r <= 16,
        ;
        if r * r >= x as u32 {
            break;
        }
        assert(r < 16) by (nonlinear_arith)
            requires
                r * r < x,
                x < 256,
        ;
        r = r + 1;
    }
    r as u8
}

impl Board {
    /// The board as text: for each row a line of nine characters, the digit of each cell that
    /// has one candidate and `0` for the others.
    pub fn to_string(&self) -> (r: String)
        requires
            self.wf(),
        ensures
            r@ == rendered(self@),
    {
        let ghost full = rendered(self@);
        let mut s = String::new();
        let mut i: usize = 0;
        while i < 9
            invariant
                i <= 9,
                self.wf(),
                full == rendered(self@),
                s@ == full.subrange(0, 10 * i as int),
            decreases 9 - i,
        {
            let mut j: usize = 0;
            while j < 9
                invariant
                    i < 9,
                    j <= 9,
                    self.wf(),
                    full == rendered(self@),
                    s@ == full.subrange(0, 10 * i + j),
                decreases 9 - j,
            {
                let m = self.candidates(i, j);
                let d = if count(m) == 1 {
                    get_rand_elem(m)
                } else {
                    0
                };
                let ghost before = s@;
                s.append(digit_str(d));
                proof {
                    let k = 10 * i + j;
                    assert(k / 10 == i && k % 10 == j);
                    assert(s@ =~= full.subrange(0, k + 1));
                }
                j = j + 1;
            }
            proof {
                reveal_strlit("\n");
            }
            s.append("\n");
            proof {
                let k = 10 * i + 9;
                assert(k % 10 == 9);
                assert(s@ =~= full.subrange(0, k + 1));
            }
            i = i + 1;
        }
        proof {
            assert(s@ =~= full);
        }
        s
    }
}

proof fn lemma_extend(full: Seq<char>, s: Seq<char>, lit: Seq<char>, pos: int)
    requires
        0 <= pos < full.len(),
        s == full.subrange(0, pos),
        lit.len() == 1,
        lit[0] == full[pos],
    ensures
        s + lit == full.subrange(0, pos + 1),
{
    assert(s + lit =~= full.subrange(0, pos + 1));
}

/// Where position `38 * l + p` of the detailed view falls.
proof fn lemma_detailed_at(c: Seq<u16>, l: int, p: int)
    requires
        0 <= l < 37,
        0 <= p < 38,
    ensures
        detailed(c)[38 * l + p] == detailed_char(c, l, p),
        38 * l + p < 1406,
{
    let k = 38 * l + p;
    assert(k / 38 == l && k % 38 == p);
}

proof fn lemma_quarter(a: int, b: int)
    requires
        0 <= a,
        0 <= b < 4,
    ensures
        (4 * a + b) / 4 == a,
        (4 * a + b) % 4 == b,
{
}

/// Appends a rule of dashes, line `l` of the detailed view.
fn append_rule(s: &mut String, width: usize, board: &Board, l: Ghost<int>)
    requires
        width == 37,
        0 <= l@ < 37,
        l@ % 4 == 0,
        old(s)@ == detailed(board@).subrange(0, 38 * l@),
    ensures
        final(s)@ == detailed(board@).subrange(0, 38 * l@ + 38),
{
    let ghost full = detailed(board@);
    let mut k: usize = 0;
    while k < width
        invariant
            width == 37,
            k <= width,
            0 <= l@ < 37,
            l@ % 4 == 0,
            full == detailed(board@),
            s@ == full.subrange(0, 38 * l@ + k),
        decreases width - k,
    {
        proof {
            reveal_strlit("—");
            lemma_detailed_at(board@, l@, k as int);
        }
        let ghost before = s@;
        s.append("—");
        proof {
            lemma_extend(full, before, "—"@, 38 * l@ + k);
        }
        k = k + 1;
    }
    proof {
        reveal_strlit("\n");
        lemma_detailed_at(board@, l@, 37);
    }
    let ghost before = s@;
    s.append("\n");
    proof {
        lemma_extend(full, before, "\n"@, 38 * l@ + 37);
    }
}

/// A view of every cell's remaining candidates: each cell takes three lines of three places,
/// digit `d` in place `d` where the cell may still hold it; rules of dashes part the rows.
pub fn detailed_display(board: &Board) -> (r: String)
    requires
        board.wf(),
    ensures
        r@ == detailed(board@),
{
    let size_rt = sqrtceil(9) as usize;
    proof {
        let r = size_rt as int;
        assert(r == 3) by (nonlinear_arith)
            requires
                r >= 0,
                r * r >= 9,
                r == 0 || (r - 1) * (r - 1) < 9,
        ;
    }
    let size: usize = 9;
    let width = (size_rt + 1) * size + 1;
    let ghost full = detailed(board@);
    let mut s = String::new();
    proof {
        assert(s@ =~= full.subrange(0, 0));
    }
    append_rule(&mut s, width, board, Ghost(0));
    let mut i: usize = 0;
    while i < size
        invariant
            size == 9,
            size_rt == 3,
            width == 37,
            i <= 9,
            board.wf(),
            full == detailed(board@),
            s@ == full.subrange(0, 38 * (4 * i + 1)),
        decreases 9 - i,
    {
        let mut x: usize = 0;
        while x < size_rt
            invariant
                size == 9,
                size_rt == 3,
                width == 37,
                i < 9,
                x <= 3,
                board.wf(),
                full == detailed(board@),
                s@ == full.subrange(0, 38 * (4 * i + 1 + x)),
            decreases 3 - x,
        {
            let ghost l = 4 * i + 1 + x;
            proof {
                lemma_quarter(i as int, x + 1);
                reveal_strlit("|");
                lemma_detailed_at(board@, l, 0);
            }
            let ghost before = s@;
            s.append("|");
            proof {
                lemma_extend(full, before, "|"@, 38 * l);
            }
            let mut j: usize = 0;
            while j < size
                invariant
                    size == 9,
                    size_rt == 3,
                    i < 9,
                    x < 3,
                    j <= 9,
                    l == 4 * i + 1 + x,
                    l % 4 == x + 1,
                    l / 4 == i,
                    board.wf(),
                    full == detailed(board@),
                    s@ == full.subrange(0, 38 * l + 4 * j + 1),
                decreases 9 - j,
            {
                let m = board.candidates(i, j);
                let mut y: usize = 0;
                while y < size_rt
                    invariant
                        size_rt == 3,
                        i < 9,
                        x < 3,
                        j < 9,
                        y <= 3,
                        l == 4 * i + 1 + x,
                        l % 4 == x + 1,
                        l / 4 == i,
                        m == board@[idx(i as int, j as int)],
                        board.wf(),
                        full == detailed(board@),
                        s@ == full.subrange(0, 38 * l + 4 * j + 1 + y),
                    decreases 3 - y,
                {
                    let num = (size_rt * x + y + 1) as u8;
                    let p = 4 * j + 1 + y;
                    proof {
                        lemma_quarter(j as int, y + 1);
                        lemma_detailed_at(board@, l, p as int);
                        reveal_strlit(" ");
                    }
                    let ghost before = s@;
                    if crate::candidates::contains(m, num) {
                        s.append(digit_str(num));
                        proof {
                            lemma_extend(full, before, seq![digit_char(num as int)], 38 * l + p);
                        }
                    } else {
                        s.append(" ");
                        proof {
                            lemma_extend(full, before, " "@, 38 * l + p);
                        }
                    }
                    y = y + 1;
                }
                proof {
                    reveal_strlit("|");
                    lemma_quarter(j + 1, 0);
                    lemma_detailed_at(board@, l, 4 * j + 4);
                }
                let ghost before = s@;
                s.append("|");
                proof {
                    lemma_extend(full, before, "|"@, 38 * l + 4 * j + 4);
                }
                j = j + 1;
            }
            proof {
                reveal_strlit("\n");
                lemma_detailed_at(board@, l, 37);
            }
            let ghost before = s@;
            s.append("\n");
            proof {
                lemma_extend(full, before, "\n"@, 38 * l + 37);
            }
            x = x + 1;
        }
        proof {
            lemma_quarter(i + 1, 0);
        }
        append_rule(&mut s, width, board, Ghost(4 * i + 4));
        i = i + 1;
    }
    proof {
        assert(s@ =~= full);
    }
    s
}

} // verus!
