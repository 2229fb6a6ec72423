//! Long lists laid out in columns that fill the window, and moved through a page
//! at a time.

pub mod drawn;

use crate::number::{decimal, push_decimal};
use crate::term::frame::{push_spaces, spaces};
use crate::term::keys::Key;
use crate::term::width::{columns, cut_middle, law_cut_text_fits, truncate_middle, width};
use crate::text::{chars_of, string_of, texts, trim_end, trimmed_end};
use vstd::prelude::*;

verus! {

/// Columns keep at least this much room for a name.
pub const MIN_COL: usize = 28;

/// And at most this much, so that one very long name does not take a whole
/// window.
pub const MAX_COL: usize = 60;

/// The room between two columns.
pub const GAP: usize = 3;

/// The room at the left edge.
pub const MARGIN: usize = 2;

/// How a list is laid out. It is read down the first column, then the next.
#[derive(Clone, Copy, Debug, PartialEq, Eq, Structural)]
pub struct Grid {
    /// How many items there are.
    pub n: usize,
    /// Columns on screen at once.
    pub cols: usize,
    /// Width of one column's text.
    pub colw: usize,
    /// Items down each column.
    pub per_col: usize,
    /// The first column on screen. Moves to follow the cursor.
    pub first_col: usize,
}

/// So many things in groups of so many: how many groups.
pub open spec fn groups(n: int, size: int) -> int {
    (n + size - 1) / size
}

fn ceil_div(n: usize, size: usize) -> (r: usize)
    requires
        size > 0,
    ensures
        r == groups(n as int, size as int),
        n > 0 ==> r > 0,
        r <= n,
{
    proof {
        lemma_groups(n as int, size as int);
    }
    if n % size == 0 {
        n / size
    } else {
        n / size + 1
    }
}

proof fn lemma_groups(n: int, size: int)
    requires
        0 <= n,
        0 < size,
    ensures
        n % size == 0 ==> groups(n, size) == n / size,
        n % size != 0 ==> groups(n, size) == n / size + 1,
        0 <= groups(n, size) <= n,
        n > 0 ==> groups(n, size) > 0,
        groups(n, size) * size >= n,
        (groups(n, size) - 1) * size < n || n == 0,
        n / size < usize::MAX || n > usize::MAX || n % size == 0,
{
    let q = n / size;
    let r = n % size;
    assert(n == q * size + r && 0 <= r < size && 0 <= q) by (nonlinear_arith)
        requires
            q == n / size,
            r == n % size,
            0 <= n,
            0 < size,
    ;
    if r == 0 {
        assert((n + size - 1) / size == q) by (nonlinear_arith)
            requires
                n == q * size,
                size > 0,
        ;
        assert((q - 1) * size < n || n == 0) by (nonlinear_arith)
            requires
                n == q * size,
                size > 0,
        ;
        assert(q <= n) by (nonlinear_arith)
            requires
                n == q * size,
                size > 0,
                q >= 0,
        ;
        assert(n > 0 ==> q > 0) by (nonlinear_arith)
            requires
                n == q * size,
                size > 0,
                q >= 0,
        ;
    } else {
        assert((n + size - 1) / size == q + 1) by (nonlinear_arith)
            requires
                n == q * size + r,
                0 < r < size,
        ;
        assert((q + 1) * size >= n && q * size < n) by (nonlinear_arith)
            requires
                n == q * size + r,
                0 < r < size,
        ;
        assert(q + 1 <= n) by (nonlinear_arith)
            requires
                n == q * size + r,
                0 < r < size,
                q >= 0,
        ;
    }
}

/// The greater of two numbers.
pub open spec fn most(a: int, b: int) -> int {
    if a > b {
        a
    } else {
        b
    }
}

/// The smaller of two numbers.
pub open spec fn least(a: int, b: int) -> int {
    if a < b {
        a
    } else {
        b
    }
}

/// The room for the list in a window of this width.
pub open spec fn usable(win_cols: int) -> int {
    most(win_cols - 4, 8)
}

/// The columns on screen, their width, and how many items go down each. What
/// goes into one column has the whole width. Else names have room to be read;
/// and if all goes on one page it is spread evenly.
pub open spec fn shape(n: int, widest: int, win_cols: int, rows: int) -> (int, int, int) {
    let room = usable(win_cols);
    let high = most(rows, 1);
    if n <= high {
        (1, most(least(widest, room), 1), most(n, 1))
    } else {
        let colw = least(least(most(widest, 28), 60), room);
        let fit = most((room + 3) / (colw + 3), 1);
        let needed = groups(n, high);
        if needed <= fit {
            (needed, colw, groups(n, needed))
        } else {
            (fit, colw, high)
        }
    }
}

/// The first column on screen: as near as possible to where it was, and such that
/// the column of the cursor is on screen.
pub open spec fn scrolled(total: int, cols: int, column: int, before: int) -> int {
    let first = least(before, most(total - cols, 0));
    if column < first {
        column
    } else if column >= first + cols {
        column + 1 - cols
    } else {
        first
    }
}

/// How so many items are laid out.
pub open spec fn laid(
    n: int,
    widest: int,
    win_cols: int,
    rows: int,
    sel: int,
    before: int,
    g: Grid,
) -> bool {
    let (cols, colw, per_col) = shape(n, widest, win_cols, rows);
    &&& g.n == n
    &&& g.cols == cols
    &&& g.colw == colw
    &&& g.per_col == per_col
    &&& g.first_col == scrolled(
        most(groups(n, per_col), 1),
        cols,
        least(sel, most(n - 1, 0)) / per_col,
        before,
    )
}

fn max(a: usize, b: usize) -> (r: usize)
    ensures
        r == most(a as int, b as int),
{
    if a > b {
        a
    } else {
        b
    }
}

fn min(a: usize, b: usize) -> (r: usize)
    ensures
        r == least(a as int, b as int),
{
    if a < b {
        a
    } else {
        b
    }
}

pub proof fn lemma_shape(n: int, widest: int, win_cols: int, rows: int)
    requires
        0 <= n <= usize::MAX,
        0 <= widest <= usize::MAX,
        0 <= win_cols <= usize::MAX,
        0 <= rows <= usize::MAX,
    ensures
        ({
            let (cols, colw, per_col) = shape(n, widest, win_cols, rows);
            &&& 1 <= cols
            &&& 1 <= per_col
            &&& 1 <= colw <= usable(win_cols)
            &&& cols * colw + (cols - 1) * 3 <= usable(win_cols)
            &&& cols <= usize::MAX
            &&& per_col <= usize::MAX
            &&& per_col <= most(n, 1)
            &&& cols <= most(groups(n, per_col), 1)
        }),
{
    let room = usable(win_cols);
    let high = most(rows, 1);
    if n <= high {
        if n >= 1 {
            lemma_groups(n, n);
        }
    } else {
        let colw = least(least(most(widest, 28), 60), room);
        let q = (room + 3) / (colw + 3);
        let fit = most(q, 1);
        assert(q >= 1 && q * (colw + 3) <= room + 3) by (nonlinear_arith)
            requires
                q == (room + 3) / (colw + 3),
                0 < colw <= room,
        ;
        assert(fit * colw + (fit - 1) * 3 <= room) by (nonlinear_arith)
            requires
                fit == q,
                q * (colw + 3) <= room + 3,
        ;
        assert(q <= room + 3) by (nonlinear_arith)
            requires
                q * (colw + 3) <= room + 3,
                q >= 1,
                colw >= 1,
        ;
        assert(q * 4 <= room + 3) by (nonlinear_arith)
            requires
                q * (colw + 3) <= room + 3,
                q >= 1,
                colw >= 1,
        ;
        let needed = groups(n, high);
        lemma_groups(n, high);
        if needed <= fit {
            lemma_groups(n, needed);
            let per = groups(n, needed);
            lemma_groups(n, per);
            assert(needed * colw + (needed - 1) * 3 <= room) by (nonlinear_arith)
                requires
                    needed <= fit,
                    fit * colw + (fit - 1) * 3 <= room,
                    colw >= 1,
            ;
            lemma_even(n, high, needed, per);
        } else {
            lemma_groups(n, high);
        }
    }
}

// When so many items need `needed` columns of at most `high`, spread evenly they
// fill exactly as many.
proof fn lemma_even(n: int, high: int, needed: int, per: int)
    requires
        0 < n,
        0 < high,
        needed == groups(n, high),
        per == groups(n, needed),
        0 < needed,
        0 < per,
    ensures
        groups(n, per) == needed,
        per <= high,
{
    lemma_groups(n, high);
    lemma_groups(n, needed);
    lemma_groups(n, per);
    let g = groups(n, per);
    assert(needed * per >= n);
    assert(g <= needed) by (nonlinear_arith)
        requires
            (g - 1) * per < n,
            needed * per >= n,
            per > 0,
    ;
    assert(per <= high) by (nonlinear_arith)
        requires
            (per - 1) * needed < n,
            needed * high >= n,
            needed > 0,
    ;
    assert(needed <= g) by (nonlinear_arith)
        requires
            (needed - 1) * high < n,
            g * per >= n,
            0 < per <= high,
            needed > 0,
    ;
}

impl Grid {
    /// A column has room for something.
    pub open spec fn wf(self) -> bool {
        self.per_col > 0
    }

    /// The last column of the window can be counted.
    pub open spec fn ends(self) -> bool {
        self.first_col + self.cols <= usize::MAX
    }

    /// Columns in the whole list.
    pub open spec fn all_cols(self) -> int {
        most(groups(self.n as int, self.per_col as int), 1)
    }

    /// The first item on screen, and one past the last.
    pub open spec fn on_screen(self) -> (int, int) {
        (
            least(self.first_col * self.per_col, self.n as int),
            least((self.first_col + self.cols) * self.per_col, self.n as int),
        )
    }

    /// Lay out `n` items, the widest `widest` columns, into a window `win_cols`
    /// wide with `rows` lines for the list, keeping `sel` on screen and moving as
    /// little as possible from `prev_first`.
    pub fn lay(
        n: usize,
        widest: usize,
        win_cols: usize,
        rows: usize,
        sel: usize,
        prev_first: usize,
    ) -> (g: Grid)
        ensures
            laid(
                n as int,
                widest as int,
                win_cols as int,
                rows as int,
                sel as int,
                prev_first as int,
                g,
            ),
            g.wf(),
            g.ends(),
    {
        proof {
            lemma_shape(n as int, widest as int, win_cols as int, rows as int);
        }
        let high: usize = max(rows, 1);
        let room: usize = if win_cols > 12 {
            win_cols - 4
        } else {
            8
        };
        let (cols, colw, per_col): (usize, usize, usize) = if n <= high {
            (1, max(min(widest, room), 1), max(n, 1))
        } else {
            let colw: usize = min(min(max(widest, MIN_COL), MAX_COL), room);
            let fit: usize = max((room + GAP) / (colw + GAP), 1);
            let needed: usize = ceil_div(n, high);
            if needed <= fit {
                (needed, colw, ceil_div(n, needed))
            } else {
                (fit, colw, high)
            }
        };
        let total: usize = max(ceil_div(n, per_col), 1);
        let last: usize = if n > 0 {
            n - 1
        } else {
            0
        };
        let c: usize = min(sel, last) / per_col;
        proof {
            lemma_column_below(n as int, least(sel as int, last as int), per_col as int);
        }
        let mut first: usize = min(prev_first, total - cols);
        if c < first {
            first = c;
        } else if c >= first + cols {
            first = c + 1 - cols;
        }
        Grid { n, cols, colw, per_col, first_col: first }
    }

    /// Columns in the whole list, on screen or not.
    pub fn total_cols(&self) -> (r: usize)
        requires
            self.wf(),
        ensures
            r == self.all_cols(),
    {
        max(ceil_div(self.n, self.per_col), 1)
    }

    /// Whether everything is on screen at once.
    pub fn all_visible(&self) -> (r: bool)
        requires
            self.wf(),
        ensures
            r == (self.first_col == 0 && self.all_cols() <= self.cols),
    {
        self.first_col == 0 && self.total_cols() <= self.cols
    }

    fn start_of(&self, col: usize) -> (i: usize)
        requires
            self.wf(),
        ensures
            i == least(col * self.per_col, self.n as int),
    {
        proof {
            lemma_groups(self.n as int, self.per_col as int);
        }
        let g: usize = ceil_div(self.n, self.per_col);
        if col >= g {
            proof {
                assert(col * self.per_col >= self.n) by (nonlinear_arith)
                    requires
                        g * self.per_col >= self.n,
                        col >= g,
                        self.per_col > 0,
                ;
            }
            self.n
        } else {
            proof {
                assert(col * self.per_col < self.n) by (nonlinear_arith)
                    requires
                        (g - 1) * self.per_col < self.n || self.n == 0,
                        col <= g - 1,
                        self.per_col > 0,
                        g <= self.n,
                        0 <= col,
                ;
            }
            col * self.per_col
        }
    }

    /// The first item on screen and one past the last.
    pub fn shown(&self) -> (r: (usize, usize))
        requires
            self.wf(),
            self.ends(),
        ensures
            (r.0 as int, r.1 as int) == self.on_screen(),
    {
        (self.start_of(self.first_col), self.start_of(self.first_col + self.cols))
    }
}

proof fn lemma_column_below(n: int, sel: int, per: int)
    requires
        0 < per,
        0 <= sel,
        sel < n || n == 0 && sel == 0,
    ensures
        0 <= sel / per < most(groups(n, per), 1),
        (sel / per) * per <= sel < (sel / per + 1) * per,
{
    let c = sel / per;
    assert(c * per <= sel < (c + 1) * per && 0 <= c) by (nonlinear_arith)
        requires
            c == sel / per,
            0 <= sel,
            0 < per,
    ;
    if n > 0 {
        lemma_groups(n, per);
        let g = groups(n, per);
        assert(c < g) by (nonlinear_arith)
            requires
                c * per <= sel,
                sel < n,
                n <= g * per,
                per > 0,
        ;
    }
}

/// The cursor is never off screen: wherever it is, once the list is laid out
/// again it is among the items that are shown.
pub proof fn law_cursor_is_on_screen(
    n: usize,
    widest: usize,
    win_cols: usize,
    rows: usize,
    sel: usize,
    before: usize,
    g: Grid,
)
    requires
        sel < n,
        laid(
            n as int,
            widest as int,
            win_cols as int,
            rows as int,
            sel as int,
            before as int,
            g,
        ),
    ensures
        g.on_screen().0 <= sel < g.on_screen().1,
{
    lemma_shape(n as int, widest as int, win_cols as int, rows as int);
    let per = g.per_col as int;
    lemma_column_below(n as int, sel as int, per);
    let c = sel as int / per;
    let f = g.first_col as int;
    let e = f + g.cols;
    assert(f <= c < e);
    assert(f * per <= c * per && (c + 1) * per <= e * per) by (nonlinear_arith)
        requires
            f <= c < e,
            per > 0,
    ;
}

/// The lines of a list go into the window, if that is wide enough for anything.
pub proof fn law_columns_fit_the_window(
    n: usize,
    widest: usize,
    win_cols: usize,
    rows: usize,
    sel: usize,
    before: usize,
    g: Grid,
)
    requires
        win_cols >= 12,
        laid(
            n as int,
            widest as int,
            win_cols as int,
            rows as int,
            sel as int,
            before as int,
            g,
        ),
    ensures
        MARGIN + g.cols * g.colw + (g.cols - 1) * GAP <= win_cols,
{
    lemma_shape(n as int, widest as int, win_cols as int, rows as int);
}

/// Where a key moves the cursor, if it is a move here: in a single column, left
/// and right are not, so that they can mean something else.
pub open spec fn moved(g: Grid, k: Key, sel: int) -> Option<int> {
    let last = g.n - 1;
    let page = g.per_col * g.cols;
    let multi = g.all_cols() > 1;
    if g.n == 0 {
        None
    } else {
        match k {
            Key::Up => Some(most(sel - 1, 0)),
            Key::Down => Some(least(sel + 1, last)),
            Key::Left => if !multi {
                None
            } else if sel >= g.per_col {
                Some(sel - g.per_col)
            } else {
                Some(sel)
            },
            Key::Right => if !multi {
                None
            } else if sel + g.per_col <= last {
                Some(sel + g.per_col)
            } else if sel / (g.per_col as int) < last / (g.per_col as int) {
                Some(last)
            } else {
                Some(sel)
            },
            Key::PageDown => Some(least(sel + page, last)),
            Key::PageUp => Some(most(sel - page, 0)),
            Key::Home => Some(0),
            Key::End => Some(last),
            _ => None,
        }
    }
}

/// A cursor that is on an item moves to an item.
pub proof fn law_moves_stay_in_the_list(g: Grid, k: Key, sel: int)
    requires
        0 <= sel < g.n,
    ensures
        moved(g, k, sel) matches Some(t) ==> 0 <= t < g.n,
{
    assert(g.per_col * g.cols >= 0) by (nonlinear_arith);
}

/// One row of one column: the text cut to the width and padded, marked where the
/// cursor is.
pub open spec fn cell(text: Seq<char>, colw: int, marked: bool) -> Seq<char> {
    let t = cut_middle(text, colw);
    let padded = t + spaces(colw - columns(t));
    if marked {
        "\x1b[7m"@ + padded + "\x1b[0m"@
    } else {
        padded
    }
}

/// The item in a row of a column.
pub open spec fn item_at(g: Grid, row: int, col: int) -> int {
    col * g.per_col + row
}

/// A row of the columns from the first on screen up to `col`, as far as there are
/// items.
pub open spec fn row_up_to(
    g: Grid,
    cells: Seq<Seq<char>>,
    sel: Option<usize>,
    row: int,
    col: int,
) -> Seq<char>
    decreases col - g.first_col,
{
    if col <= g.first_col {
        spaces(2)
    } else {
        let i = item_at(g, row, col - 1);
        let before = row_up_to(g, cells, sel, row, col - 1);
        if i >= g.n || i >= cells.len() {
            before
        } else {
            before + (if col - 1 > g.first_col {
                spaces(3)
            } else {
                Seq::empty()
            }) + cell(cells[i], g.colw as int, sel is Some && sel.unwrap() == i)
        }
    }
}

/// The first `rows` rows that have anything in them, without the white space at
/// their ends.
pub open spec fn rows_up_to(
    g: Grid,
    cells: Seq<Seq<char>>,
    sel: Option<usize>,
    rows: int,
) -> Seq<Seq<char>>
    decreases rows,
{
    if rows <= 0 {
        Seq::empty()
    } else {
        let before = rows_up_to(g, cells, sel, rows - 1);
        let first = item_at(g, rows - 1, g.first_col as int);
        if g.cols > 0 && first < g.n && first < cells.len() {
            before.push(
                trimmed_end(row_up_to(g, cells, sel, rows - 1, g.first_col + g.cols)),
            )
        } else {
            before
        }
    }
}

proof fn lemma_rest_of_row(
    g: Grid,
    cells: Seq<Seq<char>>,
    sel: Option<usize>,
    row: int,
    from: int,
    to: int,
)
    requires
        g.first_col <= from <= to,
        item_at(g, row, from) >= g.n || item_at(g, row, from) >= cells.len(),
    ensures
        row_up_to(g, cells, sel, row, to) == row_up_to(g, cells, sel, row, from),
    decreases to - from,
{
    if from < to {
        lemma_rest_of_row(g, cells, sel, row, from, to - 1);
        assert(item_at(g, row, to - 1) >= item_at(g, row, from)) by (nonlinear_arith)
            requires
                item_at(g, row, to - 1) == (to - 1) * g.per_col + row,
                item_at(g, row, from) == from * g.per_col + row,
                from <= to - 1,
                g.per_col >= 0,
        ;
    }
}

/// Where you are and how to see the rest.
pub open spec fn status_words(g: Grid) -> Option<Seq<char>> {
    if g.first_col == 0 && g.all_cols() <= g.cols {
        None
    } else {
        let (a, b) = g.on_screen();
        let more_right = g.first_col + g.cols < g.all_cols();
        Some(
            "Showing "@ + decimal(a + 1) + " to "@ + decimal(b) + " of "@ + decimal(g.n as int)
                + "."@ + (if more_right && g.cols > 1 {
                " More to the right: press the right arrow or Page Down."@
            } else if more_right {
                " More below: press the down arrow or Page Down."@
            } else {
                Seq::empty()
            }) + (if g.first_col > 0 {
                " Earlier ones: Page Up."@
            } else {
                Seq::empty()
            }),
        )
    }
}

fn push_cell(line: &mut String, text: &str, colw: usize, marked: bool)
    ensures
        final(line)@ == old(line)@ + cell(text@, colw as int, marked),
{
    let ghost start = line@;
    let t: String = truncate_middle(text, colw);
    proof {
        law_cut_text_fits(text@, colw as int);
    }
    let w: usize = width(t.as_str());
    if marked {
        line.append("\x1b[7m");
    }
    line.append(t.as_str());
    if w < colw {
        push_spaces(line, colw - w);
    }
    if marked {
        line.append("\x1b[0m");
    }
    assert(line@ =~= start + cell(text@, colw as int, marked));
}

impl Grid {
    /// Where a key moves the cursor, or nothing when it is not a move here.
    pub fn step(&self, k: Key, sel: usize) -> (r: Option<usize>)
        requires
            self.wf(),
        ensures
            r matches Some(t) ==> moved(*self, k, sel as int) == Some(t as int),
            r is None ==> moved(*self, k, sel as int) is None,
    {
        if self.n == 0 {
            return None;
        }
        let last: usize = self.n - 1;
        let page: usize = match self.per_col.checked_mul(self.cols) {
            Some(p) => p,
            None => usize::MAX,
        };
        let multi: bool = self.total_cols() > 1;
        match k {
            Key::Up => Some(
                if sel > 0 {
                    sel - 1
                } else {
                    0
                },
            ),
            Key::Down => Some(
                if sel < last {
                    sel + 1
                } else {
                    last
                },
            ),
            Key::Left => if !multi {
                None
            } else if sel >= self.per_col {
                Some(sel - self.per_col)
            } else {
                Some(sel)
            },
            Key::Right => if !multi {
                None
            } else if sel <= last && self.per_col <= last - sel {
                Some(sel + self.per_col)
            } else if sel / self.per_col < last / self.per_col {
                Some(last)
            } else {
                Some(sel)
            },
            Key::PageDown => Some(
                if sel <= last && page <= last - sel {
                    sel + page
                } else {
                    last
                },
            ),
            Key::PageUp => Some(
                if sel > page {
                    sel - page
                } else {
                    0
                },
            ),
            Key::Home => Some(0),
            Key::End => Some(last),
            _ => None,
        }
    }

    /// The item of a column and a row, where it can be counted.
    fn item_at(&self, c: usize, r: usize) -> (i: Option<usize>)
        ensures
            match i {
                Some(i) => i == c * self.per_col + r,
                None => c * self.per_col + r > usize::MAX,
            },
    {
        match c.checked_mul(self.per_col) {
            Some(i) => i.checked_add(r),
            None => None,
        }
    }

    fn row(&self, cells: &[String], sel: Option<usize>, r: usize) -> (line: String)
        requires
            self.wf(),
            self.ends(),
        ensures
            line@ == row_up_to(
                *self,
                texts(cells@),
                sel,
                r as int,
                self.first_col + self.cols,
            ),
    {
        let ghost all = texts(cells@);
        let mut line = String::new();
        push_spaces(&mut line, MARGIN);
        assert(line@ =~= spaces(2));
        let mut c: usize = self.first_col;
        let end: usize = self.first_col + self.cols;
        while c < end
            invariant
                self.wf(),
                all == texts(cells@),
                self.first_col <= c <= end,
                end == self.first_col + self.cols,
                line@ == row_up_to(*self, all, sel, r as int, c as int),
            decreases end - c,
        {
            let i: usize = match self.item_at(c, r) {
                Some(i) => i,
                None => usize::MAX,
            };
            if i >= self.n || i >= cells.len() {
                proof {
                    lemma_rest_of_row(*self, all, sel, r as int, c as int, end as int);
                }
                return line;
            }
            assert(all[i as int] == cells@[i as int]@);
            let ghost before = line@;
            if c > self.first_col {
                push_spaces(&mut line, GAP);
            }
            let marked: bool = match sel {
                Some(s) => s == i,
                None => false,
            };
            push_cell(&mut line, cells[i].as_str(), self.colw, marked);
            c = c + 1;
            assert(line@ =~= row_up_to(*self, all, sel, r as int, c as int));
        }
        line
    }

    /// The lines to draw, with the selected cell in reverse video.
    pub fn lines(&self, cells: &[String], sel: Option<usize>) -> (out: Vec<String>)
        requires
            self.wf(),
            self.ends(),
        ensures
            texts(out@) == rows_up_to(*self, texts(cells@), sel, self.per_col as int),
    {
        let ghost all = texts(cells@);
        let mut out: Vec<String> = Vec::new();
        assert(texts(out@) =~= rows_up_to(*self, all, sel, 0));
        let mut r: usize = 0;
        while r < self.per_col
            invariant
                self.wf(),
                all == texts(cells@),
                self.ends(),
                r <= self.per_col,
                texts(out@) == rows_up_to(*self, all, sel, r as int),
            decreases self.per_col - r,
        {
            if self.cols > 0 {
                let first: usize = match self.item_at(self.first_col, r) {
                    Some(i) => i,
                    None => usize::MAX,
                };
                if first < self.n && first < cells.len() {
                    let line: String = self.row(cells, sel, r);
                    let c: Vec<char> = chars_of(line.as_str());
                    let ghost before = out@;
                    out.push(string_of(trim_end(c.as_slice())));
                    assert(texts(out@) =~= texts(before).push(trimmed_end(line@)));
                }
            }
            r = r + 1;
        }
        out
    }

    /// Where you are and how to see the rest, in words. Nothing when it all fits,
    /// because then there is nothing to say.
    pub fn status(&self) -> (r: Option<String>)
        requires
            self.wf(),
            self.ends(),
            self.n < usize::MAX,
        ensures
            r is Some <==> status_words(*self) is Some,
            r matches Some(s) ==> status_words(*self) == Some(s@),
    {
        if self.all_visible() {
            return None;
        }
        let (a, b) = self.shown();
        let mut s = String::new();
        s.append("Showing ");
        push_decimal(&mut s, (a + 1) as u64);
        s.append(" to ");
        push_decimal(&mut s, b as u64);
        s.append(" of ");
        push_decimal(&mut s, self.n as u64);
        s.append(".");
        let more_right: bool = self.first_col + self.cols < self.total_cols();
        if more_right && self.cols > 1 {
            s.append(" More to the right: press the right arrow or Page Down.");
        } else if more_right {
            s.append(" More below: press the down arrow or Page Down.");
        }
        if self.first_col > 0 {
            s.append(" Earlier ones: Page Up.");
        }
        assert(s@ =~= status_words(*self).unwrap());
        Some(s)
    }
}

// ------------------------------------------------------------- laws

/// How a list is laid out: what goes into one column stands in one. Else columns are wide
/// enough for the widest name between 28 and 60 characters, as far as the window goes; there
/// are no fewer columns than the list needs where they fit, with the list spread evenly over
/// them, and as many as fit where they do not.
pub proof fn law_a_list_fills_the_window(n: int, widest: int, win_cols: int, rows: int)
    requires
        0 < n,
        0 < rows,
        0 <= widest,
        12 <= win_cols,
    ensures
        ({
            let room = win_cols - 4;
            let (c, w, p) = shape(n, widest, win_cols, rows);
            &&& n <= rows ==> c == 1 && p == n && w <= room && (1 <= widest <= room ==> w == widest)
            &&& n > rows ==> {
                &&& w <= 60 && w <= room && c >= 1 && p >= 1 && p <= rows
                &&& 28 <= widest <= 60 && widest <= room ==> w == widest
                &&& widest < 28 <= room ==> w == 28
                &&& widest > 60 && room >= 60 ==> w == 60
                &&& c * p >= n ==> (c - 1) * rows < n && (p - 1) * c < n
                &&& c * p < n ==> p == rows && (c + 1) * (w + 3) - 3 > room
            }
        }),
{
    let room = win_cols - 4;
    if n > rows {
        let (c, w, p) = shape(n, widest, win_cols, rows);
        let fit = most((room + 3) / (w + 3), 1);
        let needed = groups(n, rows);
        lemma_begun(n, rows);
        lemma_fits(room + 3, w + 3);
        if needed <= fit {
            lemma_begun(n, needed);
            assert(p <= rows) by (nonlinear_arith)
                requires
                    (p - 1) * needed < n,
                    needed * rows >= n,
                    needed > 0,
            ;
            assert(c * p >= n) by (nonlinear_arith)
                requires
                    c == needed,
                    p * needed >= n,
            ;
            assert((c - 1) * rows < n);
            assert((p - 1) * c < n);
        } else {
            assert(c * p < n) by (nonlinear_arith)
                requires
                    c == fit,
                    p == rows,
                    fit <= needed - 1,
                    (needed - 1) * rows < n,
                    rows > 0,
            ;
            assert((c + 1) * (w + 3) > room + 3) by (nonlinear_arith)
                requires
                    c >= (room + 3) / (w + 3),
                    ((room + 3) / (w + 3) + 1) * (w + 3) > room + 3,
                    w + 3 > 0,
            ;
        }
    }
}

proof fn lemma_begun(n: int, size: int)
    requires
        0 < n,
        0 < size,
    ensures
        groups(n, size) > 0,
        groups(n, size) * size >= n,
        (groups(n, size) - 1) * size < n,
{
    let g = (n + size - 1) / size;
    assert(g > 0 && g * size >= n && (g - 1) * size < n) by (nonlinear_arith)
        requires
            g == (n + size - 1) / size,
            0 < n,
            0 < size,
    ;
}

proof fn lemma_fits(a: int, b: int)
    requires
        0 < b,
        0 <= a,
    ensures
        (a / b + 1) * b > a,
{
    assert((a / b + 1) * b > a) by (nonlinear_arith)
        requires
            0 < b,
            0 <= a,
    ;
}

/// The window moves only where it has to, and then no further than it must: a cursor that
/// is on screen leaves it where it is, one that is not is at its edge afterwards.
pub proof fn law_the_window_moves_as_little_as_it_can(
    total: int,
    cols: int,
    column: int,
    before: int,
)
    requires
        0 < cols,
        0 <= before,
        0 <= column < total,
        before + cols <= total || before == 0,
    ensures
        ({
            let first = scrolled(total, cols, column, before);
            &&& before <= column < before + cols ==> first == before
            &&& column < before ==> first == column
            &&& column >= before + cols ==> first + cols - 1 == column
        }),
{
}

/// The keys move the cursor as they say: up and down by one, left and right by a column,
/// a page by as many as are on screen, and to both ends; never past an end.
pub proof fn law_keys_move_as_they_say(g: Grid, sel: int)
    requires
        0 <= sel < g.n,
        g.per_col > 0,
    ensures
        sel > 0 ==> moved(g, Key::Up, sel) == Some(sel - 1),
        sel == 0 ==> moved(g, Key::Up, sel) == Some(0int),
        sel + 1 < g.n ==> moved(g, Key::Down, sel) == Some(sel + 1),
        sel + 1 == g.n ==> moved(g, Key::Down, sel) == Some(sel),
        moved(g, Key::Home, sel) == Some(0int),
        moved(g, Key::End, sel) == Some(g.n - 1),
        sel + g.per_col * g.cols < g.n ==> moved(g, Key::PageDown, sel) == Some(
            sel + g.per_col * g.cols,
        ),
        sel + g.per_col * g.cols >= g.n ==> moved(g, Key::PageDown, sel) == Some(g.n - 1),
        sel >= g.per_col * g.cols ==> moved(g, Key::PageUp, sel) == Some(sel - g.per_col * g.cols),
        sel < g.per_col * g.cols ==> moved(g, Key::PageUp, sel) == Some(0int),
        g.all_cols() > 1 && sel + g.per_col < g.n ==> moved(g, Key::Right, sel) == Some(
            sel + g.per_col,
        ) && moved(g, Key::Left, sel + g.per_col) == Some(sel),
        g.all_cols() <= 1 ==> moved(g, Key::Right, sel) is None && moved(g, Key::Left, sel) is None,
        moved(g, Key::Enter, sel) is None && moved(g, Key::Esc, sel) is None,
{
}

} // verus!
