//! ASCII rendering of a board.
//!
//! The board is drawn with its origin at the bottom left: rows run from the
//! largest y coordinate down to the smallest, columns from the smallest x to
//! the largest. An assigned cell shows its pip digit, an empty cell a dot,
//! and positions that belong to no region are blank. The colored form wraps
//! each placed digit in terminal escape codes chosen from the domino that
//! occupies the cell, so the two halves of one domino share a color.

use vstd::prelude::*;
use vstd::string::StringExecFns;

use crate::grid::{Coord, GameGrid};

verus! {

/// The digit drawn for a pip value (pips never exceed six in a well-formed
/// grid; anything larger would draw a placeholder).
pub open spec fn digit_char(v: u8) -> char {
    if v == 0 {
        '0'
    } else if v == 1 {
        '1'
    } else if v == 2 {
        '2'
    } else if v == 3 {
        '3'
    } else if v == 4 {
        '4'
    } else if v == 5 {
        '5'
    } else if v == 6 {
        '6'
    } else {
        '?'
    }
}

/// The escape sequence opening the color for domino `id`; twelve colors,
/// cycling when the inventory is larger.
pub open spec fn color_start_text(id: int) -> Seq<char> {
    let k = id % 12;
    if k == 0 {
        "\x1b[1;38;5;196m"@
    } else if k == 1 {
        "\x1b[1;38;5;202m"@
    } else if k == 2 {
        "\x1b[1;38;5;226m"@
    } else if k == 3 {
        "\x1b[1;38;5;46m"@
    } else if k == 4 {
        "\x1b[1;38;5;51m"@
    } else if k == 5 {
        "\x1b[1;38;5;27m"@
    } else if k == 6 {
        "\x1b[1;38;5;129m"@
    } else if k == 7 {
        "\x1b[1;38;5;201m"@
    } else if k == 8 {
        "\x1b[1;38;5;208m"@
    } else if k == 9 {
        "\x1b[1;38;5;118m"@
    } else if k == 10 {
        "\x1b[1;38;5;99m"@
    } else {
        "\x1b[1;38;5;244m"@
    }
}

/// The escape sequence restoring the default color.
pub open spec fn reset_text() -> Seq<char> {
    "\x1b[0m"@
}

/// The smallest x coordinate among `cells` (`u32::MAX` when there are none).
pub open spec fn min_x_of(cells: Seq<Coord>) -> u32
    decreases cells.len(),
{
    if cells.len() == 0 {
        u32::MAX
    } else {
        let m = min_x_of(cells.drop_last());
        if cells.last().0 < m {
            cells.last().0
        } else {
            m
        }
    }
}

/// The largest x coordinate among `cells` (zero when there are none).
pub open spec fn max_x_of(cells: Seq<Coord>) -> u32
    decreases cells.len(),
{
    if cells.len() == 0 {
        0
    } else {
        let m = max_x_of(cells.drop_last());
        if cells.last().0 > m {
            cells.last().0
        } else {
            m
        }
    }
}

/// The smallest y coordinate among `cells` (`u32::MAX` when there are none).
pub open spec fn min_y_of(cells: Seq<Coord>) -> u32
    decreases cells.len(),
{
    if cells.len() == 0 {
        u32::MAX
    } else {
        let m = min_y_of(cells.drop_last());
        if cells.last().1 < m {
            cells.last().1
        } else {
            m
        }
    }
}

/// The largest y coordinate among `cells` (zero when there are none).
pub open spec fn max_y_of(cells: Seq<Coord>) -> u32
    decreases cells.len(),
{
    if cells.len() == 0 {
        0
    } else {
        let m = max_y_of(cells.drop_last());
        if cells.last().1 > m {
            cells.last().1
        } else {
            m
        }
    }
}

impl GameGrid {
    /// The domino occupying cell `c`, if any is recorded.
    pub open spec fn id_at(self, c: Coord) -> Option<usize> {
        if self.has_cell(c) {
            self.domino_ids@[self.cell_index(c)]
        } else {
            None
        }
    }

    /// The two characters drawn for one board position in the plain form:
    /// digit and space, dot and space, or two blanks.
    pub open spec fn cell_text(self, c: Coord) -> Seq<char> {
        if self.has_cell(c) {
            match self.pip_at(c) {
                Some(v) => seq![digit_char(v), ' '],
                None => seq!['.', ' '],
            }
        } else {
            seq![' ', ' ']
        }
    }

    /// The characters drawn for one board position in the colored form: as
    /// the plain form, but a digit whose cell records a domino is wrapped in
    /// that domino's color codes.
    pub open spec fn colored_cell_text(self, c: Coord) -> Seq<char> {
        if self.has_cell(c) {
            match self.pip_at(c) {
                Some(v) => match self.id_at(c) {
                    Some(id) => color_start_text(id as int) + seq![digit_char(v)] + reset_text()
                        + seq![' '],
                    None => seq![digit_char(v), ' '],
                },
                None => seq!['.', ' '],
            }
        } else {
            seq![' ', ' ']
        }
    }

    /// Row `y` of the plain board: `w` cells starting at column `min_x`.
    pub open spec fn row_text(self, y: u32, min_x: u32, w: nat) -> Seq<char>
        decreases w,
    {
        if w == 0 {
            Seq::empty()
        } else {
            self.row_text(y, min_x, (w - 1) as nat) + self.cell_text(
                (((min_x + w - 1) as u32), y),
            )
        }
    }

    /// Row `y` of the colored board.
    pub open spec fn colored_row_text(self, y: u32, min_x: u32, w: nat) -> Seq<char>
        decreases w,
    {
        if w == 0 {
            Seq::empty()
        } else {
            self.colored_row_text(y, min_x, (w - 1) as nat) + self.colored_cell_text(
                (((min_x + w - 1) as u32), y),
            )
        }
    }

    /// The bottom `h` rows of the plain board, each ending in a newline,
    /// drawn from row `min_y + h - 1` at the top down to row `min_y`.
    pub open spec fn rows_text(self, min_x: u32, w: nat, min_y: u32, h: nat) -> Seq<char>
        decreases h,
    {
        if h == 0 {
            Seq::empty()
        } else {
            self.rows_text(min_x, w, ((min_y + 1) as u32), (h - 1) as nat) + self.row_text(
                min_y,
                min_x,
                w,
            ) + seq!['\n']
        }
    }

    /// The bottom `h` rows of the colored board.
    pub open spec fn colored_rows_text(self, min_x: u32, w: nat, min_y: u32, h: nat) -> Seq<char>
        decreases h,
    {
        if h == 0 {
            Seq::empty()
        } else {
            self.colored_rows_text(min_x, w, ((min_y + 1) as u32), (h - 1) as nat)
                + self.colored_row_text(min_y, min_x, w) + seq!['\n']
        }
    }

    /// The whole plain board: empty for an empty grid, otherwise every row
    /// of the bounding rectangle of the cells, top row first.
    pub open spec fn plain_board_text(self) -> Seq<char> {
        if self.cells@.len() == 0 {
            Seq::empty()
        } else {
            let minx = min_x_of(self.cells@);
            let maxx = max_x_of(self.cells@);
            let miny = min_y_of(self.cells@);
            let maxy = max_y_of(self.cells@);
            self.rows_text(minx, (maxx - minx + 1) as nat, miny, (maxy - miny + 1) as nat)
        }
    }

    /// The whole colored board.
    pub open spec fn colored_board_text(self) -> Seq<char> {
        if self.cells@.len() == 0 {
            Seq::empty()
        } else {
            let minx = min_x_of(self.cells@);
            let maxx = max_x_of(self.cells@);
            let miny = min_y_of(self.cells@);
            let maxy = max_y_of(self.cells@);
            self.colored_rows_text(minx, (maxx - minx + 1) as nat, miny, (maxy - miny + 1) as nat)
        }
    }
}

/// The one-character string for a pip digit.
fn digit_str(v: u8) -> (r: &'static str)
    ensures
        r@ == seq![digit_char(v)],
{
    let r = match v {
        0 => "0",
        1 => "1",
        2 => "2",
        3 => "3",
        4 => "4",
        5 => "5",
        6 => "6",
        _ => "?",
    };
    proof {
        reveal_strlit("0");
        reveal_strlit("1");
        reveal_strlit("2");
        reveal_strlit("3");
        reveal_strlit("4");
        reveal_strlit("5");
        reveal_strlit("6");
        reveal_strlit("?");
        assert(r@ =~= seq![digit_char(v)]);
    }
    r
}

/// The color pair (opening escape, reset escape) for domino `idx`. Colors
/// repeat every twelve dominoes.
pub fn color_for_domino(idx: usize) -> (r: (&'static str, &'static str))
    ensures
        r.0@ == color_start_text(idx as int),
        r.1@ == reset_text(),
{
    let k = idx % 12;
    let start = match k {
        0 => "\x1b[1;38;5;196m",
        1 => "\x1b[1;38;5;202m",
        2 => "\x1b[1;38;5;226m",
        3 => "\x1b[1;38;5;46m",
        4 => "\x1b[1;38;5;51m",
        5 => "\x1b[1;38;5;27m",
        6 => "\x1b[1;38;5;129m",
        7 => "\x1b[1;38;5;201m",
        8 => "\x1b[1;38;5;208m",
        9 => "\x1b[1;38;5;118m",
        10 => "\x1b[1;38;5;99m",
        _ => "\x1b[1;38;5;244m",
    };
    (start, "\x1b[0m")
}

impl GameGrid {
    /// Append the plain two-character picture of position `c`.
    fn push_cell_text(&self, out: &mut String, c: Coord)
        requires
            self.wf(),
        ensures
            final(out)@ == old(out)@ + self.cell_text(c),
    {
        match self.find_cell(c) {
            Some(j) => {
                proof {
                    crate::grid::lemma_cell_index_agrees(*self, c, j as int);
                }
                match self.assignment[j] {
                    Some(v) => {
                        out.append(digit_str(v));
                        out.append(" ");
                        proof {
                            reveal_strlit(" ");
                            assert(final(out)@ =~= old(out)@ + self.cell_text(c));
                        }
                    },
                    None => {
                        out.append(". ");
                        proof {
                            reveal_strlit(". ");
                            assert(final(out)@ =~= old(out)@ + self.cell_text(c));
                        }
                    },
                }
            },
            None => {
                out.append("  ");
                proof {
                    reveal_strlit("  ");
                    assert(final(out)@ =~= old(out)@ + self.cell_text(c));
                }
            },
        }
    }

    /// Append the colored picture of position `c`.
    fn push_colored_cell_text(&self, out: &mut String, c: Coord)
        requires
            self.wf(),
        ensures
            final(out)@ == old(out)@ + self.colored_cell_text(c),
    {
        match self.find_cell(c) {
            Some(j) => {
                proof {
                    crate::grid::lemma_cell_index_agrees(*self, c, j as int);
                }
                match self.assignment[j] {
                    Some(v) => {
                        match self.domino_ids[j] {
                            Some(id) => {
                                let pair = color_for_domino(id);
                                out.append(pair.0);
                                out.append(digit_str(v));
                                out.append(pair.1);
                                out.append(" ");
                                proof {
                                    reveal_strlit(" ");
                                    assert(final(out)@ =~= old(out)@ + self.colored_cell_text(c));
                                }
                            },
                            None => {
                                out.append(digit_str(v));
                                out.append(" ");
                                proof {
                                    reveal_strlit(" ");
                                    assert(final(out)@ =~= old(out)@ + self.colored_cell_text(c));
                                }
                            },
                        }
                    },
                    None => {
                        out.append(". ");
                        proof {
                            reveal_strlit(". ");
                            assert(final(out)@ =~= old(out)@ + self.colored_cell_text(c));
                        }
                    },
                }
            },
            None => {
                out.append("  ");
                proof {
                    reveal_strlit("  ");
                    assert(final(out)@ =~= old(out)@ + self.colored_cell_text(c));
                }
            },
        }
    }

    /// Render the grid as ASCII with the origin at the bottom left (y grows
    /// upward). Each assigned cell shows its pip digit, empty cells a dot,
    /// and positions outside every region are blank.
    #[verifier::loop_isolation(false)]
    pub fn ascii_board_bottom_origin(&self) -> (r: String)
        requires
            self.wf(),
        ensures
            r@ == self.plain_board_text(),
    {
        let n = self.cells.len();
        if n == 0 {
            return String::new();
        }
        let mut min_x: u32 = u32::MAX;
        let mut min_y: u32 = u32::MAX;
        let mut max_x: u32 = 0;
        let mut max_y: u32 = 0;
        let mut j: usize = 0;
        while j < n
            invariant
                j <= n,
                min_x == min_x_of(self.cells@.take(j as int)),
                max_x == max_x_of(self.cells@.take(j as int)),
                min_y == min_y_of(self.cells@.take(j as int)),
                max_y == max_y_of(self.cells@.take(j as int)),
            decreases n - j,
        {
            proof {
                assert(self.cells@.take(j + 1).drop_last() =~= self.cells@.take(j as int));
            }
            let c = self.cells[j];
            if c.0 < min_x {
                min_x = c.0;
            }
            if c.1 < min_y {
                min_y = c.1;
            }
            if c.0 > max_x {
                max_x = c.0;
            }
            if c.1 > max_y {
                max_y = c.1;
            }
            j = j + 1;
        }
        proof {
            assert(self.cells@.take(n as int) =~= self.cells@);
            assert(self.cells@[0].0 <= max_x && min_x <= self.cells@[0].0) by {
                lemma_bounds_contain(self.cells@, 0);
            }
            assert(self.cells@[0].1 <= max_y && min_y <= self.cells@[0].1) by {
                lemma_bounds_contain(self.cells@, 0);
            }
            assert(max_x < u32::MAX && max_y < u32::MAX) by {
                lemma_bounds_in_range(self.cells@);
            }
        }
        let w: u32 = max_x - min_x + 1;
        let h: u32 = max_y - min_y + 1;
        let mut out = String::new();
        let mut d: u32 = 0;
        while d < h
            invariant
                d <= h,
                out@ == self.rows_text(min_x, w as nat, ((max_y - d + 1) as u32), d as nat),
            decreases h - d,
        {
            let y: u32 = max_y - d;
            let ghost row_start = out@;
            let mut cols: u32 = 0;
            while cols < w
                invariant
                    cols <= w,
                    y == max_y - d,
                    d < h,
                    out@ == row_start + self.row_text(y, min_x, cols as nat),
                decreases w - cols,
            {
                let x: u32 = min_x + cols;
                self.push_cell_text(&mut out, (x, y));
                proof {
                    assert(out@ =~= row_start + self.row_text(y, min_x, (cols + 1) as nat));
                }
                cols = cols + 1;
            }
            out.append("\n");
            proof {
                reveal_strlit("\n");
                assert("\n"@ =~= seq!['\n']);
                assert(out@ =~= self.rows_text(
                    min_x,
                    w as nat,
                    ((max_y - d) as u32),
                    (d + 1) as nat,
                ));
            }
            d = d + 1;
        }
        out
    }

    /// Render the grid as ASCII, optionally coloring each placed digit by
    /// the domino that occupies its cell, so the two halves of one domino
    /// match. Without color this is exactly the plain rendering.
    #[verifier::loop_isolation(false)]
    pub fn ascii_board_colored_pairs(&self, color: bool) -> (r: String)
        requires
            self.wf(),
        ensures
            !color ==> r@ == self.plain_board_text(),
            color ==> r@ == self.colored_board_text(),
    {
        if !color {
            return self.ascii_board_bottom_origin();
        }
        let n = self.cells.len();
        if n == 0 {
            return String::new();
        }
        let mut min_x: u32 = u32::MAX;
        let mut min_y: u32 = u32::MAX;
        let mut max_x: u32 = 0;
        let mut max_y: u32 = 0;
        let mut j: usize = 0;
        while j < n
            invariant
                j <= n,
                min_x == min_x_of(self.cells@.take(j as int)),
                max_x == max_x_of(self.cells@.take(j as int)),
                min_y == min_y_of(self.cells@.take(j as int)),
                max_y == max_y_of(self.cells@.take(j as int)),
            decreases n - j,
        {
            proof {
                assert(self.cells@.take(j + 1).drop_last() =~= self.cells@.take(j as int));
            }
            let c = self.cells[j];
            if c.0 < min_x {
                min_x = c.0;
            }
            if c.1 < min_y {
                min_y = c.1;
            }
            if c.0 > max_x {
                max_x = c.0;
            }
            if c.1 > max_y {
                max_y = c.1;
            }
            j = j + 1;
        }
        proof {
            assert(self.cells@.take(n as int) =~= self.cells@);
            assert(self.cells@[0].0 <= max_x && min_x <= self.cells@[0].0) by {
                lemma_bounds_contain(self.cells@, 0);
            }
            assert(self.cells@[0].1 <= max_y && min_y <= self.cells@[0].1) by {
                lemma_bounds_contain(self.cells@, 0);
            }
            assert(max_x < u32::MAX && max_y < u32::MAX) by {
                lemma_bounds_in_range(self.cells@);
            }
        }
        let w: u32 = max_x - min_x + 1;
        let h: u32 = max_y - min_y + 1;
        let mut out = String::new();
        let mut d: u32 = 0;
        while d < h
            invariant
                d <= h,
                out@ == self.colored_rows_text(min_x, w as nat, ((max_y - d + 1) as u32), d as nat),
            decreases h - d,
        {
            let y: u32 = max_y - d;
            let ghost row_start = out@;
            let mut cols: u32 = 0;
            while cols < w
                invariant
                    cols <= w,
                    y == max_y - d,
                    d < h,
                    out@ == row_start + self.colored_row_text(y, min_x, cols as nat),
                decreases w - cols,
            {
                let x: u32 = min_x + cols;
                self.push_colored_cell_text(&mut out, (x, y));
                proof {
                    assert(out@ =~= row_start + self.colored_row_text(y, min_x, (cols + 1) as nat));
                }
                cols = cols + 1;
            }
            out.append("\n");
            proof {
                reveal_strlit("\n");
                assert("\n"@ =~= seq!['\n']);
                assert(out@ =~= self.colored_rows_text(
                    min_x,
                    w as nat,
                    ((max_y - d) as u32),
                    (d + 1) as nat,
                ));
            }
            d = d + 1;
        }
        out
    }

    /// The default board rendering: the colored-pairs output.
    pub fn ascii_board(&self, color: bool) -> (r: String)
        requires
            self.wf(),
        ensures
            !color ==> r@ == self.plain_board_text(),
            color ==> r@ == self.colored_board_text(),
    {
        self.ascii_board_colored_pairs(color)
    }
}

/// Every color opening starts with the escape character.
proof fn lemma_color_start_escape(id: int)
    ensures
        color_start_text(id).len() > 0,
        color_start_text(id)[0] == '\x1b',
{
    reveal_strlit("\x1b[1;38;5;196m");
    reveal_strlit("\x1b[1;38;5;202m");
    reveal_strlit("\x1b[1;38;5;226m");
    reveal_strlit("\x1b[1;38;5;46m");
    reveal_strlit("\x1b[1;38;5;51m");
    reveal_strlit("\x1b[1;38;5;27m");
    reveal_strlit("\x1b[1;38;5;129m");
    reveal_strlit("\x1b[1;38;5;201m");
    reveal_strlit("\x1b[1;38;5;208m");
    reveal_strlit("\x1b[1;38;5;118m");
    reveal_strlit("\x1b[1;38;5;99m");
    reveal_strlit("\x1b[1;38;5;244m");
}

/// A colored row holding a placed, recorded cell carries an escape.
proof fn lemma_colored_row_has_escape(g: GameGrid, y: u32, min_x: u32, w: nat, x: u32)
    requires
        min_x <= x,
        x - min_x < w,
        min_x + w - 1 <= u32::MAX,
        g.has_cell((x, y)),
        g.pip_at((x, y)) is Some,
        g.id_at((x, y)) is Some,
    ensures
        g.colored_row_text(y, min_x, w).contains('\x1b'),
    decreases w,
{
    let a = g.colored_row_text(y, min_x, (w - 1) as nat);
    let col = (((min_x + w - 1) as u32), y);
    let b = g.colored_cell_text(col);
    if x == min_x + w - 1 {
        assert(col == (x, y));
        lemma_color_start_escape(g.id_at((x, y))->0 as int);
        assert(b[0] == '\x1b');
        assert((a + b)[a.len() as int] == '\x1b');
        assert(g.colored_row_text(y, min_x, w).contains('\x1b'));
    } else {
        lemma_colored_row_has_escape(g, y, min_x, (w - 1) as nat, x);
        let t = choose|t: int| 0 <= t < a.len() && a[t] == '\x1b';
        assert((a + b)[t] == '\x1b');
        assert(g.colored_row_text(y, min_x, w).contains('\x1b'));
    }
}

/// A colored board holding a placed, recorded cell carries an escape.
proof fn lemma_colored_rows_has_escape(
    g: GameGrid,
    min_x: u32,
    w: nat,
    min_y: u32,
    h: nat,
    x: u32,
    y: u32,
)
    requires
        min_x <= x,
        x - min_x < w,
        min_x + w - 1 <= u32::MAX,
        min_y <= y,
        y - min_y < h,
        min_y + h - 1 <= u32::MAX,
        g.has_cell((x, y)),
        g.pip_at((x, y)) is Some,
        g.id_at((x, y)) is Some,
    ensures
        g.colored_rows_text(min_x, w, min_y, h).contains('\x1b'),
    decreases h,
{
    let a = g.colored_rows_text(min_x, w, ((min_y + 1) as u32), (h - 1) as nat);
    let b = g.colored_row_text(min_y, min_x, w);
    if y == min_y {
        lemma_colored_row_has_escape(g, y, min_x, w, x);
        let t = choose|t: int| 0 <= t < b.len() && b[t] == '\x1b';
        assert((a + b + seq!['\n'])[a.len() + t] == '\x1b');
        assert(g.colored_rows_text(min_x, w, min_y, h).contains('\x1b'));
    } else {
        lemma_colored_rows_has_escape(g, min_x, w, ((min_y + 1) as u32), (h - 1) as nat, x, y);
        let t = choose|t: int| 0 <= t < a.len() && a[t] == '\x1b';
        assert((a + b + seq!['\n'])[t] == '\x1b');
        assert(g.colored_rows_text(min_x, w, min_y, h).contains('\x1b'));
    }
}

/// On a board whose cells are all placed and recorded — as a successful
/// solve of a fresh puzzle leaves them — the colored rendering contains
/// color escape sequences, while the plain rendering never does.
pub proof fn lemma_colored_board_has_escape(g: GameGrid)
    requires
        g.wf(),
        g.cells@.len() > 0,
        forall|j: int| 0 <= j < g.assignment@.len() ==> (#[trigger] g.assignment@[j]) is Some,
        forall|j: int| 0 <= j < g.domino_ids@.len() ==> (#[trigger] g.domino_ids@[j]) is Some,
    ensures
        g.colored_board_text().contains('\x1b'),
{
    let c = g.cells@[0];
    crate::grid::lemma_cell_index_agrees(g, c, 0);
    lemma_bounds_contain(g.cells@, 0);
    lemma_bounds_in_range(g.cells@);
    let minx = min_x_of(g.cells@);
    let maxx = max_x_of(g.cells@);
    let miny = min_y_of(g.cells@);
    let maxy = max_y_of(g.cells@);
    lemma_colored_rows_has_escape(
        g,
        minx,
        (maxx - minx + 1) as nat,
        miny,
        (maxy - miny + 1) as nat,
        c.0,
        c.1,
    );
}

/// Every cell's coordinates lie within the computed bounds.
proof fn lemma_bounds_contain(cells: Seq<Coord>, j: int)
    requires
        0 <= j < cells.len(),
    ensures
        min_x_of(cells) <= cells[j].0 <= max_x_of(cells),
        min_y_of(cells) <= cells[j].1 <= max_y_of(cells),
    decreases cells.len(),
{
    if j < cells.len() - 1 {
        assert(cells.drop_last()[j] == cells[j]);
        lemma_bounds_contain(cells.drop_last(), j);
    }
}

/// In a grid whose coordinates all stay below the numeric limit, so do the
/// computed maxima.
proof fn lemma_bounds_in_range(cells: Seq<Coord>)
    requires
        cells.len() > 0,
        forall|j: int|
            0 <= j < cells.len() ==> (#[trigger] cells[j]).0 < u32::MAX && cells[j].1 < u32::MAX,
    ensures
        max_x_of(cells) < u32::MAX,
        max_y_of(cells) < u32::MAX,
    decreases cells.len(),
{
    assert(cells.last() == cells[cells.len() - 1]);
    assert(cells.last().0 < u32::MAX && cells.last().1 < u32::MAX);
    if cells.len() > 1 {
        assert(forall|j: int|
            0 <= j < cells.drop_last().len() ==> (#[trigger] cells.drop_last()[j]).0 < u32::MAX
                && cells.drop_last()[j].1 < u32::MAX);
        lemma_bounds_in_range(cells.drop_last());
    }
}

} // verus!
