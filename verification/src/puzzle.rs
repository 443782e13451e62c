//! The puzzle: a grid of cells, some showing clues.
use vstd::prelude::*;

use crate::cell::Cell;
use crate::edge::{EdgeId, EdgeState};
use crate::lines::{lemma_row_major, Grid, Lines};

verus! {

#[derive(Debug, Clone, PartialEq, Eq)]
pub struct Puzzle {
    width: usize,
    height: usize,
    cells: Vec<Cell>,
}

/// The abstract puzzle: its size and its cells in row-major order.
pub struct PuzzleView {
    pub width: nat,
    pub height: nat,
    pub cells: Seq<Cell>,
}

impl PuzzleView {
    /// The cell in column `x` of row `y`.
    pub open spec fn cell(self, x: int, y: int) -> Cell {
        self.cells[y * self.width + x]
    }

    /// The clue of cell (x, y) is `n`.
    pub open spec fn is_clue(self, x: int, y: int, n: u8) -> bool {
        self.cell(x, y) == Cell::Clue(n)
    }
}

impl View for Puzzle {
    type V = PuzzleView;

    closed spec fn view(&self) -> PuzzleView {
        PuzzleView { width: self.width as nat, height: self.height as nat, cells: self.cells@ }
    }
}

impl Puzzle {
    /// The cell vector holds one cell per grid square.
    pub closed spec fn wf(&self) -> bool {
        &&& self.cells@.len() == self.width * self.height
        &&& self.width * self.height <= usize::MAX
    }

    /// What the invariant says of the abstract puzzle.
    pub proof fn lemma_wf(&self)
        requires
            self.wf(),
        ensures
            self@.cells.len() == self@.width * self@.height,
            self@.width * self@.height <= usize::MAX,
    {
    }

    pub fn new(width: usize, height: usize, cells: Vec<Cell>) -> (p: Self)
        requires
            cells@.len() == width * height,
        ensures
            p.wf(),
            p@.width == width,
            p@.height == height,
            p@.cells == cells@,
    {
        let _ = cells.len();
        Puzzle { width, height, cells }
    }

    /// A puzzle with no clues.
    pub fn empty(width: usize, height: usize) -> (p: Self)
        requires
            width * height <= usize::MAX,
        ensures
            p.wf(),
            p@.width == width,
            p@.height == height,
            p@.cells == Seq::new((width * height) as nat, |i: int| Cell::Empty),
    {
        let cells = vec![Cell::Empty; width * height];
        proof {
            assert(cells@ =~= Seq::new((width * height) as nat, |i: int| Cell::Empty));
        }
        Self::new(width, height, cells)
    }

    pub fn width(&self) -> (r: usize)
        ensures
            r == self@.width,
    {
        self.width
    }

    pub fn height(&self) -> (r: usize)
        ensures
            r == self@.height,
    {
        self.height
    }

    pub fn cell(&self, x: usize, y: usize) -> (c: Cell)
        requires
            self.wf(),
            x < self@.width,
            y < self@.height,
        ensures
            c == self@.cell(x as int, y as int),
    {
        let i = self.index(x, y);
        self.cells[i]
    }

    pub fn set_cell(&mut self, x: usize, y: usize, value: Cell)
        requires
            old(self).wf(),
            x < old(self)@.width,
            y < old(self)@.height,
        ensures
            final(self).wf(),
            final(self)@.width == old(self)@.width,
            final(self)@.height == old(self)@.height,
            final(self)@.cells == old(self)@.cells.update(y * old(self)@.width + x, value),
    {
        let i = self.index(x, y);
        self.cells.set(i, value);
    }

    pub fn cells(&self) -> (r: &[Cell])
        ensures
            r@ == self@.cells,
    {
        self.cells.as_slice()
    }

    fn index(&self, x: usize, y: usize) -> (i: usize)
        requires
            self.wf(),
            x < self@.width,
            y < self@.height,
        ensures
            i == y * self@.width + x,
            i < self.cells@.len(),
    {
        proof {
            lemma_row_major(self.width as int, self.height as int, x as int, y as int);
        }
        y * self.width + x
    }
}

// ---------------------------------------------------------------------------
// Rendering
// ---------------------------------------------------------------------------

/// The characters `v`, as a string.
#[verifier::external_body]
pub(crate) fn string_of(v: Vec<char>) -> (s: String)
    ensures
        s@ == v@,
{
    String::from_iter(v)
}

/// The decimal digit `n`.
pub open spec fn digit_char(n: nat) -> char {
    (('0' as int) + n) as char
}

/// The character a cell shows: blank, or its clue's digit.
pub open spec fn cell_char(c: Cell) -> char {
    match c {
        Cell::Empty => ' ',
        Cell::Clue(n) => digit_char(n as nat),
    }
}

/// Every clue is a single digit.
pub open spec fn clues_are_digits(p: PuzzleView) -> bool {
    forall|i: int| 0 <= i < p.cells.len() ==> (#[trigger] p.cells[i] matches Cell::Clue(n) ==> n <= 9)
}

/// The letter for a run of `n` blank cells, `a` for 1 up to `z` for 26.
pub open spec fn run_letter(n: nat) -> char {
    (('a' as int) + n - 1) as char
}

/// `n` in decimal.
pub open spec fn decimal(n: nat) -> Seq<char>
    decreases n,
{
    if n < 10 {
        seq![digit_char(n)]
    } else {
        decimal(n / 10).push(digit_char(n % 10))
    }
}

/// A run of `run` blank cells in storage form: letters for up to 26 cells each.
pub open spec fn run_code(run: nat) -> Seq<char>
    decreases run,
{
    if run == 0 {
        Seq::empty()
    } else {
        let take: nat = if run < 26 {
            run
        } else {
            26
        };
        seq![run_letter(take)] + run_code((run - take) as nat)
    }
}

/// A row of cells in storage form, after `run` blank cells not yet written.
pub open spec fn row_code(cells: Seq<Cell>, run: nat) -> Seq<char>
    decreases cells.len(),
{
    if cells.len() == 0 {
        run_code(run)
    } else {
        match cells[0] {
            Cell::Empty => row_code(cells.drop_first(), run + 1),
            Cell::Clue(n) => run_code(run) + seq![digit_char(n as nat)] + row_code(cells.drop_first(), 0),
        }
    }
}

/// The cells of row `y`.
pub open spec fn row_cells(p: PuzzleView, y: int) -> Seq<Cell> {
    p.cells.subrange(y * p.width, y * p.width + p.width)
}

/// The storage form of the first `k` rows.
pub open spec fn storage_rows(p: PuzzleView, k: int) -> Seq<char>
    decreases k,
{
    if k <= 0 {
        Seq::empty()
    } else {
        storage_rows(p, k - 1) + row_code(row_cells(p, k - 1), 0) + seq!['\n']
    }
}

/// The storage form of a puzzle: a `WIDTHxHEIGHT` line, then one line per row.
pub open spec fn storage_spec(p: PuzzleView) -> Seq<char> {
    decimal(p.width) + seq!['x'] + decimal(p.height) + seq!['\n'] + storage_rows(p, p.height as int)
}

/// The glyph of a horizontal edge.
pub open spec fn h_glyph(s: EdgeState) -> Seq<char> {
    match s {
        EdgeState::Loop => seq!['-', '-', '-'],
        EdgeState::Excluded => seq![' ', 'x', ' '],
        EdgeState::Unset => seq![' ', ' ', ' '],
    }
}

/// The glyph of a vertical edge.
pub open spec fn v_glyph(s: EdgeState) -> char {
    match s {
        EdgeState::Loop => '|',
        EdgeState::Excluded => 'x',
        EdgeState::Unset => ' ',
    }
}

/// The first `n` corners of line `y`, with the horizontal edges between them.
pub open spec fn corner_run(g: Grid, y: int, n: int) -> Seq<char>
    decreases n,
{
    if n <= 0 {
        seq!['.']
    } else {
        corner_run(g, y, n - 1) + h_glyph(g.state(EdgeId::H((n - 1) as usize, y as usize))) + seq!['.']
    }
}

/// The first `n` cells of row `y`, each after its left edge.
pub open spec fn cell_run(p: PuzzleView, g: Grid, y: int, n: int) -> Seq<char>
    decreases n,
{
    if n <= 0 {
        Seq::empty()
    } else {
        cell_run(p, g, y, n - 1) + seq![
            v_glyph(g.state(EdgeId::V((n - 1) as usize, y as usize))),
            ' ',
            cell_char(p.cell(n - 1, y)),
            ' ',
        ]
    }
}

/// The first `k` rows of the overlay, each a corner line and a cell line.
pub open spec fn overlay_rows(p: PuzzleView, g: Grid, k: int) -> Seq<char>
    decreases k,
{
    if k <= 0 {
        Seq::empty()
    } else {
        overlay_rows(p, g, k - 1) + corner_run(g, k - 1, p.width as int) + seq!['\n'] + cell_run(p, g, k - 1, p.width as int)
            + seq![v_glyph(g.state(EdgeId::V(p.width as usize, (k - 1) as usize))), '\n']
    }
}

/// A puzzle with a solution drawn over it.
pub open spec fn overlay_spec(p: PuzzleView, g: Grid) -> Seq<char> {
    overlay_rows(p, g, p.height as int) + corner_run(g, p.height as int, p.width as int) + seq!['\n']
}

/// A line of `n` corners, as the plain rendering draws it.
pub open spec fn plain_corners(n: int) -> Seq<char>
    decreases n,
{
    if n <= 0 {
        seq!['.', '\n']
    } else {
        seq!['.', ' ', ' ', ' '] + plain_corners(n - 1)
    }
}

/// The first `n` cells of row `y`, as the plain rendering draws them.
pub open spec fn plain_cells(p: PuzzleView, y: int, n: int) -> Seq<char>
    decreases n,
{
    if n <= 0 {
        Seq::empty()
    } else {
        plain_cells(p, y, n - 1) + seq![' ', ' ', cell_char(p.cell(n - 1, y)), ' ']
    }
}

/// The first `k` rows of the plain rendering.
pub open spec fn plain_rows(p: PuzzleView, k: int) -> Seq<char>
    decreases k,
{
    if k <= 0 {
        Seq::empty()
    } else {
        plain_rows(p, k - 1) + plain_corners(p.width as int) + plain_cells(p, k - 1, p.width as int) + seq!['\n']
    }
}

/// The plain rendering of a puzzle: corner lines between rows of clues.
pub open spec fn plain_spec(p: PuzzleView) -> Seq<char> {
    plain_rows(p, p.height as int) + plain_corners(p.width as int)
}

/// Appends `n` in decimal.
fn push_decimal(out: &mut Vec<char>, n: usize)
    ensures
        final(out)@ == old(out)@ + decimal(n as nat),
    decreases n,
{
    if n >= 10 {
        push_decimal(out, n / 10);
    }
    out.push(digit((n % 10) as u8));
    proof {
        assert(n < 10 ==> n % 10 == n);
    }
}

/// The decimal digit `n`.
fn digit(n: u8) -> (c: char)
    requires
        n <= 9,
    ensures
        c == digit_char(n as nat),
{
    (48u8 + n) as char
}

/// The character a cell shows.
fn cell_glyph(c: Cell) -> (r: char)
    requires
        c matches Cell::Clue(n) ==> n <= 9,
    ensures
        r == cell_char(c),
{
    match c {
        Cell::Empty => ' ',
        Cell::Clue(n) => digit(n),
    }
}

/// Appends the storage form of a run of `run` blank cells and clears it.
fn emit_empty_run(out: &mut Vec<char>, run: &mut usize)
    ensures
        final(out)@ == old(out)@ + run_code(*old(run) as nat),
        *final(run) == 0,
    decreases *old(run),
{
    let ghost start = out@;
    let ghost r0 = *run as nat;
    while *run > 0
        invariant
            start + run_code(r0) == out@ + run_code(*run as nat),
        decreases *run,
    {
        let take: usize = if *run < 26 {
            *run
        } else {
            26
        };
        let ghost before = out@;
        out.push((97u8 + (take - 1) as u8) as char);
        proof {
            assert(out@ + run_code((*run - take) as nat) =~= before + run_code(*run as nat));
        }
        *run = *run - take;
    }
    proof {
        assert(out@ + run_code(0) =~= out@);
    }
}

impl Puzzle {
    /// Renders this puzzle with `solution` overlaid as ASCII. Loop edges are drawn
    /// solid (`---` / `|`), Excluded edges as `x`, Unset edges as blank.
    pub fn overlay<L: Lines>(&self, solution: &L) -> (r: String)
        requires
            self.wf(),
            clues_are_digits(self@),
            solution.inv(),
            self@.width == solution.grid().width,
            self@.height == solution.grid().height,
        ensures
            r@ == overlay_spec(self@, solution.grid()),
    {
        let mut out: Vec<char> = Vec::new();
        let mut y: usize = 0;
        while y < self.height
            invariant
                y <= self@.height,
                self.wf(),
                clues_are_digits(self@),
                solution.inv(),
                self@.width == solution.grid().width,
                self@.height == solution.grid().height,
                out@ == overlay_rows(self@, solution.grid(), y as int),
            decreases self@.height - y,
        {
            self.append_corner_row(&mut out, solution, y);
            self.append_cell_row(&mut out, solution, y);
            y += 1;
        }
        self.append_corner_row(&mut out, solution, self.height);
        string_of(out)
    }

    fn append_corner_row<L: Lines>(&self, out: &mut Vec<char>, solution: &L, y: usize)
        requires
            solution.inv(),
            self@.width == solution.grid().width,
            y <= solution.grid().height,
        ensures
            final(out)@ == old(out)@ + corner_run(solution.grid(), y as int, self@.width as int) + seq!['\n'],
    {
        let ghost start = out@;
        out.push('.');
        let mut x: usize = 0;
        while x < self.width
            invariant
                x <= self@.width,
                solution.inv(),
                self@.width == solution.grid().width,
                y <= solution.grid().height,
                out@ == start + corner_run(solution.grid(), y as int, x as int),
            decreases self@.width - x,
        {
            let glyph: (char, char, char) = match solution.h_edge(x, y) {
                EdgeState::Loop => ('-', '-', '-'),
                EdgeState::Excluded => (' ', 'x', ' '),
                EdgeState::Unset => (' ', ' ', ' '),
            };
            out.push(glyph.0);
            out.push(glyph.1);
            out.push(glyph.2);
            out.push('.');
            proof {
                assert(out@ =~= start + corner_run(solution.grid(), y as int, x + 1));
            }
            x += 1;
        }
        out.push('\n');
    }

    fn append_cell_row<L: Lines>(&self, out: &mut Vec<char>, solution: &L, y: usize)
        requires
            self.wf(),
            clues_are_digits(self@),
            solution.inv(),
            self@.width == solution.grid().width,
            self@.height == solution.grid().height,
            y < self@.height,
        ensures
            final(out)@ == old(out)@ + cell_run(self@, solution.grid(), y as int, self@.width as int) + seq![
                v_glyph(solution.grid().state(EdgeId::V(self@.width as usize, y))),
                '\n',
            ],
    {
        let ghost start = out@;
        let mut x: usize = 0;
        while x < self.width
            invariant
                x <= self@.width,
                self.wf(),
                clues_are_digits(self@),
                solution.inv(),
                self@.width == solution.grid().width,
                self@.height == solution.grid().height,
                y < self@.height,
                out@ == start + cell_run(self@, solution.grid(), y as int, x as int),
            decreases self@.width - x,
        {
            let v = v_char(solution.v_edge(x, y));
            out.push(v);
            out.push(' ');
            proof {
                lemma_row_major(self@.width as int, self@.height as int, x as int, y as int);
            }
            out.push(cell_glyph(self.cell(x, y)));
            out.push(' ');
            proof {
                assert(out@ =~= start + cell_run(self@, solution.grid(), y as int, x + 1));
            }
            x += 1;
        }
        let v = v_char(solution.v_edge(self.width, y));
        out.push(v);
        out.push('\n');
        proof {
            assert(out@ =~= start + cell_run(self@, solution.grid(), y as int, self@.width as int) + seq![
                v_glyph(solution.grid().state(EdgeId::V(self@.width as usize, y))),
                '\n',
            ]);
        }
    }

    /// The storage form: a `WIDTHxHEIGHT` line, then each row on a line of its
    /// own, clues as digits and runs of blank cells as letters (`a` for one up
    /// to `z` for 26).
    pub fn to_storage_string(&self) -> (r: String)
        requires
            self.wf(),
            clues_are_digits(self@),
        ensures
            r@ == storage_spec(self@),
    {
        let mut out: Vec<char> = Vec::new();
        push_decimal(&mut out, self.width);
        out.push('x');
        push_decimal(&mut out, self.height);
        out.push('\n');
        let ghost head = out@;
        proof {
            assert(head =~= decimal(self@.width) + seq!['x'] + decimal(self@.height) + seq!['\n']);
        }
        let mut y: usize = 0;
        while y < self.height
            invariant
                y <= self@.height,
                self.wf(),
                clues_are_digits(self@),
                out@ == head + storage_rows(self@, y as int),
            decreases self@.height - y,
        {
            let ghost row = row_cells(self@, y as int);
            let ghost before = out@;
            proof {
                self.lemma_wf();
                assert(y * self@.width + self@.width <= self@.width * self@.height) by (nonlinear_arith)
                    requires
                        y + 1 <= self@.height,
                ;
                assert(0 <= y * self@.width) by (nonlinear_arith)
                    requires
                        y >= 0,
                ;
                assert(row.skip(0) =~= row);
            }
            let mut run: usize = 0;
            let mut x: usize = 0;
            while x < self.width
                invariant
                    x <= self@.width,
                    y < self@.height,
                    self.wf(),
                    clues_are_digits(self@),
                    row == row_cells(self@, y as int),
                    row.len() == self@.width,
                    0 <= y * self@.width,
                    y * self@.width + self@.width <= self@.cells.len(),
                    run <= x,
                    before + row_code(row, 0) == out@ + row_code(row.skip(x as int), run as nat),
                decreases self@.width - x,
            {
                proof {
                    lemma_row_major(self@.width as int, self@.height as int, x as int, y as int);
                    assert(row.skip(x as int).drop_first() =~= row.skip(x + 1));
                    assert(row.skip(x as int)[0] == row[x as int]);
                    assert(row[x as int] == self@.cell(x as int, y as int));
                }
                match self.cell(x, y) {
                    Cell::Empty => {
                        run += 1;
                    },
                    Cell::Clue(n) => {
                        let ghost o1 = out@;
                        let ghost r = run as nat;
                        emit_empty_run(&mut out, &mut run);
                        out.push(digit(n));
                        proof {
                            assert(row_code(row.skip(x as int), r) == run_code(r) + seq![digit_char(n as nat)]
                                + row_code(row.skip(x + 1), 0));
                            assert(out@ + row_code(row.skip(x + 1), 0) =~= o1 + (run_code(r) + seq![
                                digit_char(n as nat),
                            ] + row_code(row.skip(x + 1), 0)));
                        }
                    },
                }
                x += 1;
            }
            proof {
                assert(row.skip(self@.width as int) =~= Seq::<Cell>::empty());
            }
            emit_empty_run(&mut out, &mut run);
            out.push('\n');
            proof {
                assert(out@ =~= head + storage_rows(self@, y + 1));
            }
            y += 1;
        }
        string_of(out)
    }

    /// The plain rendering: a line of corners between rows of clues.
    pub fn to_string(&self) -> (r: String)
        requires
            self.wf(),
            clues_are_digits(self@),
        ensures
            r@ == plain_spec(self@),
    {
        let mut out: Vec<char> = Vec::new();
        let mut y: usize = 0;
        while y < self.height
            invariant
                y <= self@.height,
                self.wf(),
                clues_are_digits(self@),
                out@ == plain_rows(self@, y as int),
            decreases self@.height - y,
        {
            write_corner_row(&mut out, self.width);
            let ghost start = out@;
            let mut x: usize = 0;
            while x < self.width
                invariant
                    x <= self@.width,
                    y < self@.height,
                    self.wf(),
                    clues_are_digits(self@),
                    out@ == start + plain_cells(self@, y as int, x as int),
                decreases self@.width - x,
            {
                proof {
                    lemma_row_major(self@.width as int, self@.height as int, x as int, y as int);
                }
                let ch = cell_glyph(self.cell(x, y));
                out.push(' ');
                out.push(' ');
                out.push(ch);
                out.push(' ');
                proof {
                    assert(out@ =~= start + plain_cells(self@, y as int, x + 1));
                }
                x += 1;
            }
            out.push('\n');
            proof {
                assert(out@ =~= plain_rows(self@, y + 1));
            }
            y += 1;
        }
        write_corner_row(&mut out, self.width);
        string_of(out)
    }
}

/// The glyph of a vertical edge.
fn v_char(s: EdgeState) -> (c: char)
    ensures
        c == v_glyph(s),
{
    match s {
        EdgeState::Loop => '|',
        EdgeState::Excluded => 'x',
        EdgeState::Unset => ' ',
    }
}

/// Appends a line of `width` corners.
fn write_corner_row(out: &mut Vec<char>, width: usize)
    ensures
        final(out)@ == old(out)@ + plain_corners(width as int),
{
    let ghost start = out@;
    let mut k: usize = 0;
    while k < width
        invariant
            k <= width,
            start + plain_corners(width as int) == out@ + plain_corners(width - k),
        decreases width - k,
    {
        out.push('.');
        out.push(' ');
        out.push(' ');
        out.push(' ');
        proof {
            assert(out@ + plain_corners(width - (k + 1)) =~= start + plain_corners(width as int));
        }
        k += 1;
    }
    out.push('.');
    out.push('\n');
    proof {
        assert(out@ =~= start + plain_corners(width as int));
    }
}

/// What a cell shows in a rendering: a blank for an empty cell, the decimal
/// digit of its clue otherwise (a clue of 0 included).
pub open spec fn shown_cell(c: Cell) -> char {
    match c {
        Cell::Empty => ' ',
        Cell::Clue(n) => (48 + n) as char,
    }
}

proof fn lemma_cell_char_shown(c: Cell)
    ensures
        cell_char(c) == shown_cell(c),
{
    assert('0' as int == 48);
}

proof fn lemma_plain_corners_len(n: int)
    requires
        n >= 0,
    ensures
        plain_corners(n).len() == 4 * n + 2,
    decreases n,
{
    if n > 0 {
        lemma_plain_corners_len(n - 1);
    }
}

proof fn lemma_plain_cells_len(p: PuzzleView, y: int, n: int)
    requires
        n >= 0,
    ensures
        plain_cells(p, y, n).len() == 4 * n,
    decreases n,
{
    if n > 0 {
        lemma_plain_cells_len(p, y, n - 1);
    }
}

proof fn lemma_plain_cells_at(p: PuzzleView, y: int, n: int, x: int)
    requires
        0 <= x < n,
    ensures
        plain_cells(p, y, n).len() == 4 * n,
        plain_cells(p, y, n)[4 * x + 2] == cell_char(p.cell(x, y)),
    decreases n,
{
    lemma_plain_cells_len(p, y, n);
    lemma_plain_cells_len(p, y, n - 1);
    if x < n - 1 {
        lemma_plain_cells_at(p, y, n - 1, x);
    }
}

proof fn lemma_plain_rows_len(p: PuzzleView, k: int)
    requires
        k >= 0,
    ensures
        plain_rows(p, k).len() == k * (8 * p.width + 3),
    decreases k,
{
    if k > 0 {
        lemma_plain_rows_len(p, k - 1);
        lemma_plain_corners_len(p.width as int);
        lemma_plain_cells_len(p, k - 1, p.width as int);
        assert(k * (8 * p.width + 3) == (k - 1) * (8 * p.width + 3) + (8 * p.width + 3)) by (nonlinear_arith);
    } else {
        assert(k * (8 * p.width + 3) == 0) by (nonlinear_arith)
            requires
                k == 0,
        ;
    }
}

proof fn lemma_plain_rows_at(p: PuzzleView, k: int, y: int, x: int)
    requires
        0 <= y < k,
        0 <= x < p.width,
    ensures
        plain_rows(p, k)[y * (8 * p.width + 3) + 4 * p.width + 4 * x + 4] == cell_char(p.cell(x, y)),
    decreases k,
{
    let b = 8 * p.width + 3;
    lemma_plain_rows_len(p, k - 1);
    lemma_plain_corners_len(p.width as int);
    lemma_plain_cells_at(p, k - 1, p.width as int, x);
    if y < k - 1 {
        lemma_plain_rows_at(p, k - 1, y, x);
        assert(y * b + b <= (k - 1) * b) by (nonlinear_arith)
            requires
                y + 1 <= k - 1,
                b >= 0,
        ;
    }
}

/// The plain rendering shows every cell in its place: the cell (x, y) sits
/// at column 4x + 2 of the second line of its row, rows being 8w + 3
/// characters apart, and shows the digit of its clue (0 included) or a
/// blank.
pub proof fn lemma_plain_shows_cells(p: PuzzleView, x: int, y: int)
    requires
        0 <= x < p.width,
        0 <= y < p.height,
    ensures
        plain_spec(p).len() == p.height * (8 * p.width + 3) + 4 * p.width + 2,
        plain_spec(p)[y * (8 * p.width + 3) + 4 * p.width + 4 * x + 4] == shown_cell(p.cell(x, y)),
{
    let b = 8 * p.width + 3;
    lemma_plain_rows_len(p, p.height as int);
    lemma_plain_corners_len(p.width as int);
    lemma_plain_rows_at(p, p.height as int, y, x);
    lemma_cell_char_shown(p.cell(x, y));
    assert(y * b + b <= p.height * b) by (nonlinear_arith)
        requires
            y + 1 <= p.height,
            b >= 0,
    ;
}

proof fn lemma_corner_run_len(g: Grid, y: int, n: int)
    requires
        n >= 0,
    ensures
        corner_run(g, y, n).len() == 4 * n + 1,
    decreases n,
{
    if n > 0 {
        lemma_corner_run_len(g, y, n - 1);
    }
}

proof fn lemma_cell_run_len(p: PuzzleView, g: Grid, y: int, n: int)
    requires
        n >= 0,
    ensures
        cell_run(p, g, y, n).len() == 4 * n,
    decreases n,
{
    if n > 0 {
        lemma_cell_run_len(p, g, y, n - 1);
    }
}

proof fn lemma_cell_run_at(p: PuzzleView, g: Grid, y: int, n: int, x: int)
    requires
        0 <= x < n,
    ensures
        cell_run(p, g, y, n).len() == 4 * n,
        cell_run(p, g, y, n)[4 * x + 2] == cell_char(p.cell(x, y)),
    decreases n,
{
    lemma_cell_run_len(p, g, y, n);
    lemma_cell_run_len(p, g, y, n - 1);
    if x < n - 1 {
        lemma_cell_run_at(p, g, y, n - 1, x);
    }
}

proof fn lemma_overlay_rows_len(p: PuzzleView, g: Grid, k: int)
    requires
        k >= 0,
    ensures
        overlay_rows(p, g, k).len() == k * (8 * p.width + 4),
    decreases k,
{
    if k > 0 {
        lemma_overlay_rows_len(p, g, k - 1);
        lemma_corner_run_len(g, k - 1, p.width as int);
        lemma_cell_run_len(p, g, k - 1, p.width as int);
        assert(k * (8 * p.width + 4) == (k - 1) * (8 * p.width + 4) + (8 * p.width + 4)) by (nonlinear_arith);
    } else {
        assert(k * (8 * p.width + 4) == 0) by (nonlinear_arith)
            requires
                k == 0,
        ;
    }
}

proof fn lemma_overlay_rows_at(p: PuzzleView, g: Grid, k: int, y: int, x: int)
    requires
        0 <= y < k,
        0 <= x < p.width,
    ensures
        overlay_rows(p, g, k)[y * (8 * p.width + 4) + 4 * p.width + 4 * x + 4] == cell_char(p.cell(x, y)),
    decreases k,
{
    let b = 8 * p.width + 4;
    lemma_overlay_rows_len(p, g, k - 1);
    lemma_corner_run_len(g, k - 1, p.width as int);
    lemma_cell_run_at(p, g, k - 1, p.width as int, x);
    if y < k - 1 {
        lemma_overlay_rows_at(p, g, k - 1, y, x);
        assert(y * b + b <= (k - 1) * b) by (nonlinear_arith)
            requires
                y + 1 <= k - 1,
                b >= 0,
        ;
    }
}

/// The overlay shows every cell in its place, whatever the solution: the
/// cell (x, y) sits at column 4x + 2 of the second line of its row, rows
/// being 8w + 4 characters apart, and shows the digit of its clue (0
/// included) or a blank.
pub proof fn lemma_overlay_shows_cells(p: PuzzleView, g: Grid, x: int, y: int)
    requires
        0 <= x < p.width,
        0 <= y < p.height,
    ensures
        overlay_spec(p, g).len() == p.height * (8 * p.width + 4) + 4 * p.width + 2,
        overlay_spec(p, g)[y * (8 * p.width + 4) + 4 * p.width + 4 * x + 4] == shown_cell(p.cell(x, y)),
{
    let b = 8 * p.width + 4;
    lemma_overlay_rows_len(p, g, p.height as int);
    lemma_corner_run_len(g, p.height as int, p.width as int);
    lemma_overlay_rows_at(p, g, p.height as int, y, x);
    lemma_cell_char_shown(p.cell(x, y));
    assert(y * b + b <= p.height * b) by (nonlinear_arith)
        requires
            y + 1 <= p.height,
            b >= 0,
    ;
}

} // verus!
