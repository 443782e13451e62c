//! The text format of puzzles: a `WIDTHxHEIGHT` header line, then the cells in
//! row-major order, `0`-`3` for a clue and `a`-`z` for a run of 1 to 26 blank
//! cells. Line breaks (and carriage returns) in the body are ignored.
use vstd::prelude::*;

use crate::cell::Cell;
use crate::puzzle::{
    decimal, digit_char, row_cells, row_code, run_code, run_letter, storage_rows, storage_spec, Puzzle,
    PuzzleView,
};

verus! {

broadcast use vstd::string::axiom_spec_iter;

#[derive(Debug, Clone, PartialEq, Eq)]
pub enum ParseError {
    MissingHeaderNewline,
    InvalidHeader(String),
    UnexpectedChar { line: usize, col: usize, ch: char },
    TooManyCells { line: usize, col: usize, expected: usize },
    TooFewCells { expected: usize, got: usize },
}

/// What parsing a text gives: a puzzle's size and cells, or an error.
pub enum ParseOutcome {
    Parsed { width: nat, height: nat, cells: Seq<Cell> },
    MissingHeaderNewline,
    InvalidHeader(Seq<char>),
    UnexpectedChar { line: nat, col: nat, ch: char },
    TooManyCells { line: nat, col: nat, expected: nat },
    TooFewCells { expected: nat, got: nat },
}

/// The outcome that a parse result stands for.
pub open spec fn outcome_of(r: Result<Puzzle, ParseError>) -> ParseOutcome {
    match r {
        Ok(p) => ParseOutcome::Parsed { width: p@.width, height: p@.height, cells: p@.cells },
        Err(ParseError::MissingHeaderNewline) => ParseOutcome::MissingHeaderNewline,
        Err(ParseError::InvalidHeader(t)) => ParseOutcome::InvalidHeader(t@),
        Err(ParseError::UnexpectedChar { line, col, ch }) => ParseOutcome::UnexpectedChar {
            line: line as nat,
            col: col as nat,
            ch,
        },
        Err(ParseError::TooManyCells { line, col, expected }) => ParseOutcome::TooManyCells {
            line: line as nat,
            col: col as nat,
            expected: expected as nat,
        },
        Err(ParseError::TooFewCells { expected, got }) => ParseOutcome::TooFewCells {
            expected: expected as nat,
            got: got as nat,
        },
    }
}

/// The position of the first `c` in `s` at or after `i`.
pub open spec fn find_from(s: Seq<char>, c: char, i: int) -> Option<nat>
    decreases s.len() - i,
{
    if i < 0 || i >= s.len() {
        None
    } else if s[i] == c {
        Some(i as nat)
    } else {
        find_from(s, c, i + 1)
    }
}

/// `s` without its trailing carriage returns.
pub open spec fn trim_cr(s: Seq<char>) -> Seq<char>
    decreases s.len(),
{
    if s.len() > 0 && s.last() == '\r' {
        trim_cr(s.drop_last())
    } else {
        s
    }
}

/// `c` is a decimal digit.
pub open spec fn is_digit(c: char) -> bool {
    '0' <= c <= '9'
}

/// The number that the decimal digits `s` spell.
pub open spec fn decimal_value(s: Seq<char>) -> nat
    decreases s.len(),
{
    if s.len() == 0 {
        0
    } else {
        decimal_value(s.drop_last()) * 10 + ((s.last() as int) - ('0' as int)) as nat
    }
}

/// `s` without its leading `+`, if it has one.
pub open spec fn unsigned_digits(s: Seq<char>) -> Seq<char> {
    if s.len() > 0 && s[0] == '+' {
        s.drop_first()
    } else {
        s
    }
}

/// The `usize` that `s` spells in decimal, with an optional leading `+`; none
/// if `s` is anything else or the number does not fit.
pub open spec fn parse_usize_spec(s: Seq<char>) -> Option<nat> {
    let digits = unsigned_digits(s);
    if digits.len() == 0 || exists|i: int| 0 <= i < digits.len() && !is_digit(#[trigger] digits[i]) {
        None
    } else if decimal_value(digits) > usize::MAX {
        None
    } else {
        Some(decimal_value(digits))
    }
}

/// The width and height that a header line gives: its trailing carriage
/// returns dropped, two numbers around the first `x`.
pub open spec fn header_spec(h: Seq<char>) -> Option<(nat, nat)> {
    let t = trim_cr(h);
    match find_from(t, 'x', 0) {
        None => None,
        Some(k) => match (parse_usize_spec(t.take(k as int)), parse_usize_spec(t.skip(k + 1int))) {
            (Some(w), Some(hh)) => Some((w, hh)),
            _ => None,
        },
    }
}

/// The next line number, held at the largest `usize`.
pub open spec fn next_line(line: nat) -> nat {
    if line < usize::MAX {
        line + 1
    } else {
        line
    }
}

/// A run of `n` blank cells.
pub open spec fn blanks(n: nat) -> Seq<Cell> {
    Seq::new(n, |i: int| Cell::Empty)
}

/// Reading the body from position `i` on, with `cells` read so far, on line
/// `line` after column `col`, for a puzzle of `expected` cells.
pub open spec fn scan(
    body: Seq<char>,
    i: int,
    width: nat,
    height: nat,
    cells: Seq<Cell>,
    line: nat,
    col: nat,
) -> ParseOutcome
    decreases body.len() - i,
{
    let expected = width * height;
    if i < 0 || i >= body.len() {
        if cells.len() != expected {
            ParseOutcome::TooFewCells { expected, got: cells.len() }
        } else {
            ParseOutcome::Parsed { width, height, cells }
        }
    } else {
        let ch = body[i];
        let col1 = col + 1;
        if ch == '\n' {
            scan(body, i + 1, width, height, cells, next_line(line), 0)
        } else if ch == '\r' {
            scan(body, i + 1, width, height, cells, line, col1)
        } else if '0' <= ch <= '3' {
            if cells.len() == expected {
                ParseOutcome::TooManyCells { line, col: col1, expected }
            } else {
                scan(
                    body,
                    i + 1,
                    width,
                    height,
                    cells.push(Cell::Clue(((ch as int) - ('0' as int)) as u8)),
                    line,
                    col1,
                )
            }
        } else if 'a' <= ch <= 'z' {
            let n = ((ch as int) - ('a' as int) + 1) as nat;
            if cells.len() + n > expected {
                ParseOutcome::TooManyCells { line, col: col1, expected }
            } else {
                scan(body, i + 1, width, height, cells + blanks(n), line, col1)
            }
        } else {
            ParseOutcome::UnexpectedChar { line, col: col1, ch }
        }
    }
}

/// What parsing the text `s` gives.
pub open spec fn parse_spec(s: Seq<char>) -> ParseOutcome {
    match find_from(s, '\n', 0) {
        None => ParseOutcome::MissingHeaderNewline,
        Some(k) => {
            let header = s.take(k as int);
            match header_spec(header) {
                None => ParseOutcome::InvalidHeader(trim_cr(header)),
                Some((w, h)) => if w * h > usize::MAX {
                    ParseOutcome::InvalidHeader(trim_cr(header))
                } else {
                    scan(s.skip(k + 1int), 0, w, h, Seq::empty(), 2, 0)
                },
            }
        },
    }
}

/// The characters of `s`.
fn chars_of(s: &str) -> (v: Vec<char>)
    ensures
        v@ == s@,
{
    let mut v: Vec<char> = Vec::new();
    for c in it: s.chars()
        invariant
            v@ == it.seq().take(it.index() as int),
    {
        v.push(c);
    }
    v
}

/// `s` without its trailing carriage returns.
fn trim_cr_str(s: &str) -> (t: &str)
    ensures
        t@ == trim_cr(s@),
{
    let cs = chars_of(s);
    let mut end = cs.len();
    proof {
        assert(cs@.take(end as int) =~= cs@);
    }
    while end > 0 && cs[end - 1] == '\r'
        invariant
            end <= cs@.len(),
            cs@ == s@,
            trim_cr(s@) == trim_cr(cs@.take(end as int)),
        decreases end,
    {
        proof {
            assert(cs@.take(end as int).drop_last() =~= cs@.take(end - 1));
        }
        end = end - 1;
    }
    s.substring_char(0, end)
}

/// The `usize` that `cs[from..to]` spells in decimal, with an optional leading `+`.
fn parse_usize(cs: &Vec<char>, from: usize, to: usize) -> (r: Option<usize>)
    requires
        from <= to <= cs@.len(),
    ensures
        match r {
            Some(v) => parse_usize_spec(cs@.subrange(from as int, to as int)) == Some(v as nat),
            None => parse_usize_spec(cs@.subrange(from as int, to as int)) is None,
        },
{
    let ghost s = cs@.subrange(from as int, to as int);
    let mut start = from;
    if start < to && cs[start] == '+' {
        start = start + 1;
    }
    let ghost digits = cs@.subrange(start as int, to as int);
    proof {
        assert(digits =~= unsigned_digits(s));
    }
    if start == to {
        return None;
    }
    let mut acc: usize = 0;
    let mut k = start;
    while k < to
        invariant
            start <= k <= to,
            to <= cs@.len(),
            s == cs@.subrange(from as int, to as int),
            digits == cs@.subrange(start as int, to as int),
            digits == unsigned_digits(s),
            digits.len() > 0,
            acc == decimal_value(cs@.subrange(start as int, k as int)),
            forall|i: int| start <= i < k ==> is_digit(#[trigger] cs@[i]),
        decreases to - k,
    {
        let c = cs[k];
        let ghost pre = cs@.subrange(start as int, k + 1);
        proof {
            assert(pre.drop_last() =~= cs@.subrange(start as int, k as int));
            assert(pre.last() == c);
            assert(digits[k - start] == c);
        }
        if !('0' <= c && c <= '9') {
            return None;
        }
        let d = (c as u32 - '0' as u32) as usize;
        let next = match acc.checked_mul(10) {
            Some(m) => m.checked_add(d),
            None => None,
        };
        match next {
            Some(v) => {
                acc = v;
            },
            None => {
                proof {
                    assert(decimal_value(pre) == acc * 10 + d);
                    if forall|i: int| 0 <= i < digits.len() ==> is_digit(#[trigger] digits[i]) {
                        lemma_decimal_prefix_le(digits, (k + 1 - start) as int);
                        assert(digits.take(k + 1 - start) =~= pre);
                    }
                }
                return None;
            },
        }
        k += 1;
    }
    proof {
        assert(cs@.subrange(start as int, to as int) =~= digits);
        assert forall|i: int| 0 <= i < digits.len() implies is_digit(#[trigger] digits[i]) by {
            assert(digits[i] == cs@[start + i]);
        }
    }
    Some(acc)
}

/// A prefix of a string of digits spells no more than the whole.
proof fn lemma_decimal_prefix_le(s: Seq<char>, k: int)
    requires
        0 <= k <= s.len(),
        forall|i: int| 0 <= i < s.len() ==> is_digit(#[trigger] s[i]),
    ensures
        decimal_value(s.take(k)) <= decimal_value(s),
    decreases s.len() - k,
{
    if k < s.len() {
        lemma_decimal_prefix_le(s, k + 1);
        assert(s.take(k + 1).drop_last() =~= s.take(k));
    } else {
        assert(s.take(k) =~= s);
    }
}

/// Reads a `WIDTHxHEIGHT` header line; trailing carriage returns are dropped.
pub fn parse_header(s: &str) -> (r: Result<(usize, usize), ParseError>)
    ensures
        match r {
            Ok((w, h)) => header_spec(s@) == Some((w as nat, h as nat)),
            Err(ParseError::InvalidHeader(t)) => header_spec(s@) is None && t@ == trim_cr(s@),
            Err(_) => false,
        },
{
    let t = trim_cr_str(s);
    let cs = chars_of(t);
    let n = cs.len();
    let mut k: usize = 0;
    proof {
        assert(find_from(cs@, 'x', 0) == find_from(cs@, 'x', k as int));
    }
    while k < n && cs[k] != 'x'
        invariant
            k <= n,
            n == cs@.len(),
            find_from(cs@, 'x', 0) == find_from(cs@, 'x', k as int),
        decreases n - k,
    {
        k += 1;
    }
    if k == n {
        return Err(ParseError::InvalidHeader(String::from_str(t)));
    }
    let width = parse_usize(&cs, 0, k);
    let height = parse_usize(&cs, k + 1, n);
    proof {
        assert(cs@.subrange(0, k as int) =~= cs@.take(k as int));
        assert(cs@.subrange(k + 1, n as int) =~= cs@.skip(k + 1));
    }
    match (width, height) {
        (Some(w), Some(h)) => Ok((w, h)),
        _ => Err(ParseError::InvalidHeader(String::from_str(t))),
    }
}

/// Parses a puzzle from its text: the header line, then the cells. Line
/// numbers in errors count from 1 and are held at the largest `usize`.
pub fn parse_puzzle(s: &str) -> (r: Result<Puzzle, ParseError>)
    ensures
        outcome_of(r) == parse_spec(s@),
        r is Ok ==> r->Ok_0.wf(),
{
    let cs = chars_of(s);
    let n = cs.len();
    let mut nl: usize = 0;
    proof {
        assert(find_from(cs@, '\n', 0) == find_from(cs@, '\n', nl as int));
    }
    while nl < n && cs[nl] != '\n'
        invariant
            nl <= n,
            n == cs@.len(),
            find_from(cs@, '\n', 0) == find_from(cs@, '\n', nl as int),
        decreases n - nl,
    {
        nl += 1;
    }
    if nl == n {
        return Err(ParseError::MissingHeaderNewline);
    }
    let header = s.substring_char(0, nl);
    proof {
        assert(header@ =~= s@.take(nl as int));
    }
    let (width, height) = match parse_header(header) {
        Ok(wh) => wh,
        Err(e) => {
            return Err(e);
        },
    };
    let expected = match width.checked_mul(height) {
        Some(e) => e,
        None => {
            return Err(ParseError::InvalidHeader(String::from_str(trim_cr_str(header))));
        },
    };
    let ghost body = s@.skip(nl + 1);
    let mut cells: Vec<Cell> = Vec::new();
    let mut line: usize = 2;
    let mut col: usize = 0;
    let mut i: usize = nl + 1;
    proof {
        assert(s@.skip(nl + 1) =~= cs@.skip(nl + 1));
    }
    while i < n
        invariant
            nl < i <= n,
            n == cs@.len(),
            cs@ == s@,
            body == cs@.skip(nl + 1),
            expected == width * height,
            cells@.len() <= expected,
            col <= i,
            parse_spec(s@) == scan(body, (i - (nl + 1)) as int, width as nat, height as nat, cells@, line as nat, col as nat),
        decreases n - i,
    {
        let ch = cs[i];
        let ghost j = (i - (nl + 1)) as int;
        proof {
            assert(body[j] == ch);
        }
        col += 1;
        if ch == '\n' {
            line = line.saturating_add(1);
            col = 0;
        } else if ch == '\r' {
        } else if '0' <= ch && ch <= '3' {
            if cells.len() == expected {
                return Err(ParseError::TooManyCells { line, col, expected });
            }
            cells.push(Cell::Clue((ch as u32 - '0' as u32) as u8));
        } else if 'a' <= ch && ch <= 'z' {
            let run = (ch as u32 - 'a' as u32 + 1) as usize;
            if run > expected - cells.len() {
                return Err(ParseError::TooManyCells { line, col, expected });
            }
            let ghost c0 = cells@;
            let mut m: usize = 0;
            while m < run
                invariant
                    m <= run,
                    cells@ == c0 + blanks(m as nat),
                    c0.len() + run <= expected,
                decreases run - m,
            {
                cells.push(Cell::Empty);
                proof {
                    assert(c0 + blanks((m + 1) as nat) =~= (c0 + blanks(m as nat)).push(Cell::Empty));
                }
                m += 1;
            }
        } else {
            return Err(ParseError::UnexpectedChar { line, col, ch });
        }
        i += 1;
    }
    if cells.len() != expected {
        return Err(ParseError::TooFewCells { expected, got: cells.len() });
    }
    Ok(Puzzle::new(width, height, cells))
}

impl std::str::FromStr for Puzzle {
    type Err = ParseError;

    /// Reads a puzzle exactly as [`parse_puzzle`] does.
    fn from_str(s: &str) -> (r: Result<Self, Self::Err>)
        ensures
            outcome_of(r) == parse_spec(s@),
            r is Ok ==> r->Ok_0.wf(),
    {
        parse_puzzle(s)
    }
}

// ---------------------------------------------------------------------------
// Reading back the storage form
// ---------------------------------------------------------------------------

/// Every clue is one of the digits the storage form writes, 0 to 3.
pub open spec fn clues_storable(p: PuzzleView) -> bool {
    forall|i: int| 0 <= i < p.cells.len() ==> (#[trigger] p.cells[i] matches Cell::Clue(n) ==> n <= 3)
}

/// The decimal form of `n` is a non-empty run of digits that spells `n`.
pub proof fn lemma_decimal(n: nat)
    ensures
        decimal(n).len() >= 1,
        forall|j: int| 0 <= j < decimal(n).len() ==> is_digit(#[trigger] decimal(n)[j]),
        decimal_value(decimal(n)) == n,
    decreases n,
{
    let s = decimal(n);
    let m: nat = if n >= 10 {
        n % 10
    } else {
        n
    };
    let c = digit_char(m);
    assert((c as int) - ('0' as int) == m);
    if n >= 10 {
        lemma_decimal(n / 10);
        let d = decimal(n / 10);
        assert(s == d.push(c));
        assert(s.drop_last() =~= d);
        assert(s.last() == c);
        assert(decimal_value(s) == decimal_value(d) * 10 + m);
        vstd::arithmetic::div_mod::lemma_fundamental_div_mod(n as int, 10);
        assert(n == (n / 10) * 10 + n % 10);
    } else {
        assert(s == seq![c]);
        assert(s.drop_last() =~= Seq::<char>::empty());
        assert(decimal_value(s.drop_last()) == 0);
        assert(decimal_value(s) == m);
    }
}

/// The first `c` at or after `i` is at `k` when `s[k]` is `c` and nothing
/// between is.
proof fn lemma_find_first(s: Seq<char>, c: char, i: int, k: int)
    requires
        0 <= i <= k < s.len(),
        s[k] == c,
        forall|j: int| i <= j < k ==> s[j] != c,
    ensures
        find_from(s, c, i) == Some(k as nat),
    decreases k - i,
{
    if i < k {
        lemma_find_first(s, c, i + 1, k);
    }
}

/// Reading a run's letters adds its blank cells.
proof fn lemma_scan_run(b: Seq<char>, i: int, w: nat, h: nat, cells: Seq<Cell>, line: nat, col: nat, run: nat)
    requires
        0 <= i,
        i + run_code(run).len() <= b.len(),
        b.subrange(i, i + run_code(run).len()) == run_code(run),
        cells.len() + run <= w * h,
    ensures
        scan(b, i, w, h, cells, line, col) == scan(
            b,
            i + run_code(run).len(),
            w,
            h,
            cells + blanks(run),
            line,
            col + run_code(run).len(),
        ),
    decreases run,
{
    if run == 0 {
        assert(cells + blanks(0) =~= cells);
    } else {
        let take: nat = if run < 26 {
            run
        } else {
            26
        };
        let rest = run_code((run - take) as nat);
        assert(run_code(run) == seq![run_letter(take)] + rest);
        assert(b[i] == b.subrange(i, i + run_code(run).len())[0]);
        assert(b[i] == run_letter(take));
        assert(b.subrange(i + 1, i + 1 + rest.len()) =~= b.subrange(i, i + run_code(run).len()).skip(1));
        assert(run_code(run).skip(1) =~= rest);
        lemma_scan_run(b, i + 1, w, h, cells + blanks(take), line, col + 1, (run - take) as nat);
        assert(cells + blanks(take) + blanks((run - take) as nat) =~= cells + blanks(run));
    }
}

/// Reading a row's storage form, after `run` blank cells not yet written, adds
/// those blanks and the row's cells.
proof fn lemma_scan_row(
    b: Seq<char>,
    i: int,
    w: nat,
    h: nat,
    cells: Seq<Cell>,
    line: nat,
    col: nat,
    cs: Seq<Cell>,
    run: nat,
)
    requires
        0 <= i,
        i + row_code(cs, run).len() <= b.len(),
        b.subrange(i, i + row_code(cs, run).len()) == row_code(cs, run),
        cells.len() + run + cs.len() <= w * h,
        forall|j: int| 0 <= j < cs.len() ==> (#[trigger] cs[j] matches Cell::Clue(n) ==> n <= 3),
    ensures
        scan(b, i, w, h, cells, line, col) == scan(
            b,
            i + row_code(cs, run).len(),
            w,
            h,
            cells + blanks(run) + cs,
            line,
            col + row_code(cs, run).len(),
        ),
    decreases cs.len(),
{
    let code = row_code(cs, run);
    if cs.len() == 0 {
        lemma_scan_run(b, i, w, h, cells, line, col, run);
        assert(cells + blanks(run) + cs =~= cells + blanks(run));
    } else {
        let rest = cs.drop_first();
        assert forall|j: int| 0 <= j < rest.len() implies (#[trigger] rest[j] matches Cell::Clue(n) ==> n <= 3) by {
            assert(rest[j] == cs[j + 1]);
        }
        match cs[0] {
            Cell::Empty => {
                lemma_scan_row(b, i, w, h, cells, line, col, rest, run + 1);
                assert(cells + blanks(run + 1) + rest =~= cells + blanks(run) + cs);
            },
            Cell::Clue(n) => {
                let rc = run_code(run);
                let tail = row_code(rest, 0);
                assert(code == rc + seq![digit_char(n as nat)] + tail);
                assert(b.subrange(i, i + rc.len()) =~= code.subrange(0, rc.len() as int));
                assert(code.subrange(0, rc.len() as int) =~= rc);
                assert(code.subrange(rc.len() + 1int, code.len() as int) =~= tail);
                lemma_scan_run(b, i, w, h, cells, line, col, run);
                let j = i + rc.len();
                let c1 = cells + blanks(run);
                assert(b[j] == code[rc.len() as int]);
                assert(b[j] == digit_char(n as nat));
                assert(b.subrange(j + 1, j + 1 + tail.len()) =~= code.subrange(rc.len() + 1int, code.len() as int));
                lemma_scan_row(b, j + 1, w, h, c1.push(Cell::Clue(n)), line, col + rc.len() + 1, rest, 0);
                assert(c1.push(Cell::Clue(n)) + blanks(0) + rest =~= cells + blanks(run) + cs);
            },
        }
    }
}

/// `storage_rows(p, k)` is where `storage_rows(p, m)` starts, for `k <= m`.
proof fn lemma_rows_prefix(p: PuzzleView, k: int, m: int)
    requires
        0 <= k <= m,
    ensures
        storage_rows(p, m).subrange(0, storage_rows(p, k).len() as int) == storage_rows(p, k),
        storage_rows(p, k).len() <= storage_rows(p, m).len(),
    decreases m - k,
{
    if k < m {
        lemma_rows_prefix(p, k, m - 1);
        assert(storage_rows(p, m).subrange(0, storage_rows(p, m - 1).len() as int) =~= storage_rows(p, m - 1));
    } else {
        assert(storage_rows(p, m).subrange(0, storage_rows(p, k).len() as int) =~= storage_rows(p, k));
    }
}

/// The line that reading reaches after `k` line breaks.
pub open spec fn line_after(k: nat) -> nat
    decreases k,
{
    if k == 0 {
        2
    } else {
        next_line(line_after((k - 1) as nat))
    }
}

/// Reading the first `k` rows of the storage form of `p` adds the cells of
/// those rows.
proof fn lemma_scan_rows(p: PuzzleView, k: int)
    requires
        0 <= k <= p.height,
        p.cells.len() == p.width * p.height,
        p.width * p.height <= usize::MAX,
        clues_storable(p),
    ensures
        scan(storage_rows(p, p.height as int), 0, p.width, p.height, Seq::empty(), 2, 0) == scan(
            storage_rows(p, p.height as int),
            storage_rows(p, k).len() as int,
            p.width,
            p.height,
            p.cells.take(k * p.width),
            line_after(k as nat),
            0,
        ),
    decreases k,
{
    if k == 0 {
        assert(p.cells.take(0) =~= Seq::<Cell>::empty());
    } else {
        lemma_scan_rows(p, k - 1);
        lemma_scan_rows_step(p, k);
    }
}

/// A line break moves reading to the next line, at its start.
proof fn lemma_scan_newline(b: Seq<char>, j: int, w: nat, h: nat, cells: Seq<Cell>, line: nat, col: nat)
    requires
        0 <= j < b.len(),
        b[j] == '\n',
    ensures
        scan(b, j, w, h, cells, line, col) == scan(b, j + 1, w, h, cells, next_line(line), 0),
{
}

/// Reading row `k - 1` of the storage form, and the line break after it, adds
/// the cells of that row.
proof fn lemma_scan_rows_step(p: PuzzleView, k: int)
    requires
        1 <= k <= p.height,
        p.cells.len() == p.width * p.height,
        p.width * p.height <= usize::MAX,
        clues_storable(p),
    ensures
        scan(
            storage_rows(p, p.height as int),
            storage_rows(p, k - 1).len() as int,
            p.width,
            p.height,
            p.cells.take((k - 1) * p.width),
            line_after((k - 1) as nat),
            0,
        ) == scan(
            storage_rows(p, p.height as int),
            storage_rows(p, k).len() as int,
            p.width,
            p.height,
            p.cells.take(k * p.width),
            line_after(k as nat),
            0,
        ),
{
    let w = p.width;
    let b = storage_rows(p, p.height as int);
    lemma_rows_prefix(p, k, p.height as int);
    let y = k - 1;
    let before = storage_rows(p, y);
    let row = row_cells(p, y);
    let code = row_code(row, 0);
    let i = before.len() as int;
    assert(storage_rows(p, k) == before + code + seq!['\n']);
    assert(0 <= y * w) by (nonlinear_arith)
        requires
            y >= 0,
    ;
    assert(y * w + w <= w * p.height) by (nonlinear_arith)
        requires
            y + 1 <= p.height,
    ;
    assert(k * w == y * w + w) by (nonlinear_arith)
        requires
            k == y + 1,
    ;
    assert(b.subrange(i, i + code.len()) =~= storage_rows(p, k).subrange(i, i + code.len()));
    assert(storage_rows(p, k).subrange(i, i + code.len()) =~= code);
    assert forall|j: int| 0 <= j < row.len() implies (#[trigger] row[j] matches Cell::Clue(n) ==> n <= 3) by {
        assert(row[j] == p.cells[y * w + j]);
    }
    let cells0 = p.cells.take(y * w);
    let cells1 = cells0 + blanks(0) + row;
    lemma_scan_row(b, i, w, p.height, cells0, line_after(y as nat), 0, row, 0);
    assert(cells1 =~= p.cells.take(k * w));
    assert(b[i + code.len()] == storage_rows(p, k)[i + code.len()]);
    lemma_scan_newline(b, i + code.len(), w, p.height, cells1, line_after(y as nat), code.len());
    assert(storage_rows(p, k).len() == i + code.len() + 1);
    assert(line_after(k as nat) == next_line(line_after(y as nat)));
}

/// The header line `WIDTHxHEIGHT` of the storage form reads back as the width
/// and height, and holds no line break.
proof fn lemma_header_reads(w: nat, h: nat)
    requires
        w <= usize::MAX,
        h <= usize::MAX,
    ensures
        ({
            let header = decimal(w) + seq!['x'] + decimal(h);
            &&& header_spec(header) == Some((w, h))
            &&& trim_cr(header) == header
            &&& forall|j: int| 0 <= j < header.len() ==> #[trigger] header[j] != '\n'
        }),
{
    let dw = decimal(w);
    let dh = decimal(h);
    let header = dw + seq!['x'] + dh;
    lemma_decimal(w);
    lemma_decimal(h);
    assert forall|j: int| 0 <= j < header.len() implies #[trigger] header[j] != '\n' by {
        if j < dw.len() {
            assert(header[j] == dw[j]);
            assert(is_digit(dw[j]));
        } else if j > dw.len() {
            assert(header[j] == dh[j - dw.len() - 1]);
            assert(is_digit(dh[j - dw.len() - 1]));
        }
    }
    assert(header.last() == dh.last());
    assert(is_digit(dh[dh.len() - 1]));
    assert(trim_cr(header) == header);
    assert forall|j: int| 0 <= j < dw.len() implies header[j] != 'x' by {
        assert(header[j] == dw[j]);
        assert(is_digit(dw[j]));
    }
    lemma_find_first(header, 'x', 0, dw.len() as int);
    assert(header.take(dw.len() as int) =~= dw);
    assert(header.skip(dw.len() + 1int) =~= dh);
    assert(is_digit(dw[0]));
    assert(is_digit(dh[0]));
    assert(unsigned_digits(dw) == dw);
    assert(unsigned_digits(dh) == dh);
    assert(parse_usize_spec(dw) == Some(w));
    assert(parse_usize_spec(dh) == Some(h));
}

/// Parsing the storage form of a puzzle gives the puzzle back: its size and
/// every cell.
pub proof fn lemma_storage_round_trip(p: PuzzleView)
    requires
        p.cells.len() == p.width * p.height,
        p.width <= usize::MAX,
        p.height <= usize::MAX,
        p.width * p.height <= usize::MAX,
        clues_storable(p),
    ensures
        parse_spec(storage_spec(p)) == (ParseOutcome::Parsed { width: p.width, height: p.height, cells: p.cells }),
{
    let header = decimal(p.width) + seq!['x'] + decimal(p.height);
    let body = storage_rows(p, p.height as int);
    let s = storage_spec(p);
    assert(s =~= header + seq!['\n'] + body);
    lemma_header_reads(p.width, p.height);
    assert forall|j: int| 0 <= j < header.len() implies s[j] != '\n' by {
        assert(s[j] == header[j]);
    }
    lemma_find_first(s, '\n', 0, header.len() as int);
    assert(s.take(header.len() as int) =~= header);
    assert(s.skip(header.len() + 1int) =~= body);
    lemma_scan_rows(p, p.height as int);
    assert(p.cells.take((p.height * p.width) as int) =~= p.cells) by {
        vstd::arithmetic::mul::lemma_mul_is_commutative(p.height as int, p.width as int);
    }
}


// ---------------------------------------------------------------------------
// Line breaks in the body
// ---------------------------------------------------------------------------

/// The text with its line breaks and carriage returns left out.
pub open spec fn without_breaks(s: Seq<char>) -> Seq<char>
    decreases s.len(),
{
    if s.len() == 0 {
        s
    } else if s[0] == '\n' || s[0] == '\r' {
        without_breaks(s.skip(1))
    } else {
        seq![s[0]] + without_breaks(s.skip(1))
    }
}

/// The size and cells a parse outcome gives, when it parsed.
pub open spec fn parsed(o: ParseOutcome) -> Option<(nat, nat, Seq<Cell>)> {
    match o {
        ParseOutcome::Parsed { width, height, cells } => Some((width, height, cells)),
        _ => None,
    }
}

/// Reading from position `i` on reads only the text from there on.
proof fn lemma_scan_suffix(b: Seq<char>, i: int, w: nat, h: nat, cells: Seq<Cell>, line: nat, col: nat)
    requires
        0 <= i <= b.len(),
    ensures
        scan(b, i, w, h, cells, line, col) == scan(b.skip(i), 0, w, h, cells, line, col),
    decreases b.len() - i,
{
    let r = b.skip(i);
    if i < b.len() {
        let ch = b[i];
        assert(r[0] == ch);
        assert(r.skip(1) =~= b.skip(i + 1));
        let col1 = col + 1;
        if ch == '\n' {
            lemma_scan_suffix(b, i + 1, w, h, cells, next_line(line), 0);
            lemma_scan_suffix(r, 1, w, h, cells, next_line(line), 0);
        } else if ch == '\r' {
            lemma_scan_suffix(b, i + 1, w, h, cells, line, col1);
            lemma_scan_suffix(r, 1, w, h, cells, line, col1);
        } else if '0' <= ch <= '3' {
            let c2 = cells.push(Cell::Clue(((ch as int) - ('0' as int)) as u8));
            lemma_scan_suffix(b, i + 1, w, h, c2, line, col1);
            lemma_scan_suffix(r, 1, w, h, c2, line, col1);
        } else if 'a' <= ch <= 'z' {
            let n = ((ch as int) - ('a' as int) + 1) as nat;
            lemma_scan_suffix(b, i + 1, w, h, cells + blanks(n), line, col1);
            lemma_scan_suffix(r, 1, w, h, cells + blanks(n), line, col1);
        }
    }
}

/// Line breaks and carriage returns in the body only move the positions that
/// errors report: whether the body parses, and to what, does not depend on them.
proof fn lemma_scan_breaks(b: Seq<char>, w: nat, h: nat, cells: Seq<Cell>, l1: nat, c1: nat, l2: nat, c2: nat)
    ensures
        parsed(scan(b, 0, w, h, cells, l1, c1)) == parsed(scan(without_breaks(b), 0, w, h, cells, l2, c2)),
    decreases b.len(),
{
    if b.len() > 0 {
        let ch = b[0];
        let t = b.skip(1);
        if ch == '\n' {
            lemma_scan_suffix(b, 1, w, h, cells, next_line(l1), 0);
            lemma_scan_breaks(t, w, h, cells, next_line(l1), 0, l2, c2);
        } else if ch == '\r' {
            lemma_scan_suffix(b, 1, w, h, cells, l1, c1 + 1);
            lemma_scan_breaks(t, w, h, cells, l1, c1 + 1, l2, c2);
        } else {
            let r = seq![ch] + without_breaks(t);
            assert(without_breaks(b) == r);
            assert(r[0] == ch);
            assert(r.skip(1) =~= without_breaks(t));
            if '0' <= ch <= '3' {
                let cs = cells.push(Cell::Clue(((ch as int) - ('0' as int)) as u8));
                lemma_scan_suffix(b, 1, w, h, cs, l1, c1 + 1);
                lemma_scan_suffix(r, 1, w, h, cs, l2, c2 + 1);
                lemma_scan_breaks(t, w, h, cs, l1, c1 + 1, l2, c2 + 1);
            } else if 'a' <= ch <= 'z' {
                let n = ((ch as int) - ('a' as int) + 1) as nat;
                lemma_scan_suffix(b, 1, w, h, cells + blanks(n), l1, c1 + 1);
                lemma_scan_suffix(r, 1, w, h, cells + blanks(n), l2, c2 + 1);
                lemma_scan_breaks(t, w, h, cells + blanks(n), l1, c1 + 1, l2, c2 + 1);
            }
        }
    }
}

/// Two texts with the same header line whose bodies differ only in line breaks
/// and carriage returns parse alike: both fail, or both give the same puzzle.
pub proof fn lemma_parse_ignores_breaks(header: Seq<char>, b1: Seq<char>, b2: Seq<char>)
    requires
        !header.contains('\n'),
        without_breaks(b1) == without_breaks(b2),
    ensures
        parsed(parse_spec(header + seq!['\n'] + b1)) == parsed(parse_spec(header + seq!['\n'] + b2)),
{
    let s1 = header + seq!['\n'] + b1;
    let s2 = header + seq!['\n'] + b2;
    let k = header.len() as int;
    assert forall|j: int| 0 <= j < k implies s1[j] != '\n' && s2[j] != '\n' by {
        assert(s1[j] == header[j]);
        assert(s2[j] == header[j]);
    }
    lemma_find_first(s1, '\n', 0, k);
    lemma_find_first(s2, '\n', 0, k);
    assert(s1.take(k) =~= header);
    assert(s2.take(k) =~= header);
    assert(s1.skip(k + 1) =~= b1);
    assert(s2.skip(k + 1) =~= b2);
    match header_spec(header) {
        Some((w, h)) => {
            lemma_scan_breaks(b1, w, h, Seq::empty(), 2, 0, 2, 0);
            lemma_scan_breaks(b2, w, h, Seq::empty(), 2, 0, 2, 0);
        },
        None => {},
    }
}

} // verus!
