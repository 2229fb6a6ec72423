//! What the lines of a list look like on the screen.

use super::{
    cell, item_at, laid, law_cursor_is_on_screen, least, lemma_shape, row_up_to, rows_up_to, Grid,
};
use crate::term::frame::spaces;
use crate::term::width::{
    columns, cut_middle, head_len, law_cut_text_fits, lemma_columns_add, lemma_head_fits,
    lemma_tail_fits, tail_len,
};
use crate::text::{is_space, trimmed_end};
use vstd::arithmetic::div_mod::{lemma_fundamental_div_mod, lemma_fundamental_div_mod_converse};
use vstd::prelude::*;

verus! {

/// Whether a text starts with a code for the terminal: 7 begins reverse video, and 0
/// ends it.
pub open spec fn starts_code(s: Seq<char>, kind: char) -> bool {
    s.len() >= 4 && s[0] == '\x1b' && s[1] == '[' && s[2] == kind && s[3] == 'm'
}

/// A text without those codes, which is what is seen of it.
pub open spec fn unmarked(s: Seq<char>) -> Seq<char>
    decreases s.len(),
{
    if s.len() == 0 {
        s
    } else if starts_code(s, '7') || starts_code(s, '0') {
        unmarked(s.skip(4))
    } else {
        seq![s[0]] + unmarked(s.skip(1))
    }
}

/// How often reverse video begins in a text.
pub open spec fn lit(s: Seq<char>) -> int
    decreases s.len(),
{
    if s.len() == 0 {
        0
    } else {
        (if starts_code(s, '7') {
            1int
        } else {
            0int
        }) + lit(s.skip(1))
    }
}

/// How often reverse video begins in some lines.
pub open spec fn lit_in(lines: Seq<Seq<char>>) -> int
    decreases lines.len(),
{
    if lines.len() == 0 {
        0
    } else {
        lit_in(lines.drop_last()) + lit(lines.last())
    }
}

/// Whether a text holds nothing that a code could begin with.
pub open spec fn codeless(s: Seq<char>) -> bool {
    forall|i: int| 0 <= i < s.len() ==> #[trigger] s[i] != '\x1b'
}

/// Whether the codes in a text are whole, whatever follows it.
spec fn whole(a: Seq<char>) -> bool {
    forall|s: Seq<char>| #[trigger]
        (a + s) == a + s ==> unmarked(a + s) == unmarked(a) + unmarked(s) && lit(a + s) == lit(a)
            + lit(s)
}

proof fn lemma_codeless_before(x: Seq<char>, s: Seq<char>)
    requires
        codeless(x),
    ensures
        unmarked(x + s) == x + unmarked(s),
        lit(x + s) == lit(s),
    decreases x.len(),
{
    if x.len() == 0 {
        assert(x + s =~= s);
        assert(x + unmarked(s) =~= unmarked(s));
    } else {
        let rest = x.skip(1);
        assert forall|i: int| 0 <= i < rest.len() implies #[trigger] rest[i] != '\x1b' by {
            assert(rest[i] == x[i + 1]);
        }
        lemma_codeless_before(rest, s);
        assert((x + s).skip(1) =~= rest + s);
        assert((x + s)[0] == x[0]);
        assert(seq![x[0]] + (rest + unmarked(s)) =~= x + unmarked(s));
    }
}

proof fn lemma_codeless(x: Seq<char>)
    requires
        codeless(x),
    ensures
        whole(x),
        unmarked(x) == x,
        lit(x) == 0,
{
    let none = Seq::<char>::empty();
    lemma_codeless_before(x, none);
    assert(x + none =~= x);
    assert(unmarked(none) =~= none);
    assert(x + unmarked(none) =~= x);
    assert forall|s: Seq<char>| #[trigger] (x + s) == x + s implies unmarked(x + s) == unmarked(x)
        + unmarked(s) && lit(x + s) == lit(x) + lit(s) by {
        lemma_codeless_before(x, s);
    }
}

proof fn lemma_code_before(kind: char, s: Seq<char>)
    requires
        kind == '7' || kind == '0',
    ensures
        unmarked(seq!['\x1b', '[', kind, 'm'] + s) == unmarked(s),
        lit(seq!['\x1b', '[', kind, 'm'] + s) == lit(s) + (if kind == '7' {
            1int
        } else {
            0int
        }),
{
    let c = seq!['\x1b', '[', kind, 'm'];
    let t = c + s;
    assert(t.skip(4) =~= s);
    assert(starts_code(t, kind));
    let x = seq!['[', kind, 'm'];
    assert(t.skip(1) =~= x + s);
    lemma_codeless_before(x, s);
}

proof fn lemma_code(kind: char)
    requires
        kind == '7' || kind == '0',
    ensures
        whole(seq!['\x1b', '[', kind, 'm']),
        unmarked(seq!['\x1b', '[', kind, 'm']).len() == 0,
        lit(seq!['\x1b', '[', kind, 'm']) == (if kind == '7' {
            1int
        } else {
            0int
        }),
{
    let c = seq!['\x1b', '[', kind, 'm'];
    let none = Seq::<char>::empty();
    lemma_code_before(kind, none);
    assert(c + none =~= c);
    assert forall|s: Seq<char>| #[trigger] (c + s) == c + s implies unmarked(c + s) == unmarked(c)
        + unmarked(s) && lit(c + s) == lit(c) + lit(s) by {
        lemma_code_before(kind, s);
        assert(unmarked(c) + unmarked(s) =~= unmarked(s));
    }
}

proof fn lemma_both(a: Seq<char>, b: Seq<char>)
    requires
        whole(a),
        whole(b),
    ensures
        whole(a + b),
        unmarked(a + b) == unmarked(a) + unmarked(b),
        lit(a + b) == lit(a) + lit(b),
{
    assert((a + b) == a + b);
    assert forall|s: Seq<char>| #[trigger] ((a + b) + s) == (a + b) + s implies unmarked(
        (a + b) + s,
    ) == unmarked(a + b) + unmarked(s) && lit((a + b) + s) == lit(a + b) + lit(s) by {
        assert((a + b) + s =~= a + (b + s));
        assert((b + s) == b + s);
        assert((a + (b + s)) == a + (b + s));
        assert(unmarked(a) + (unmarked(b) + unmarked(s)) =~= (unmarked(a) + unmarked(b)) + unmarked(
            s,
        ));
    }
}

proof fn lemma_space_behind(t: Seq<char>, x: Seq<char>)
    requires
        forall|i: int| 0 <= i < x.len() ==> is_space(#[trigger] x[i]),
    ensures
        unmarked(t + x) == unmarked(t) + x,
        lit(t + x) == lit(t),
    decreases t.len(),
{
    let s = t + x;
    if t.len() == 0 {
        assert(s =~= x);
        lemma_codeless(x);
        assert(unmarked(t) + x =~= x);
    } else {
        assert(s[0] == t[0]);
        assert(s.skip(1) =~= t.skip(1) + x);
        lemma_space_behind(t.skip(1), x);
        assert(starts_code(s, '7') == starts_code(t, '7') && starts_code(s, '0') == starts_code(
            t,
            '0',
        )) by {
            if s.len() >= 4 && t.len() < 4 {
                assert(s[t.len() as int] == x[0]);
                assert(is_space(x[0]));
            }
        }
        if starts_code(t, '7') || starts_code(t, '0') {
            assert(s.skip(4) =~= t.skip(4) + x);
            lemma_space_behind(t.skip(4), x);
        } else {
            assert(seq![t[0]] + (unmarked(t.skip(1)) + x) =~= seq![t[0]] + unmarked(t.skip(1))
                + x);
        }
    }
}

proof fn lemma_trimmed(s: Seq<char>)
    ensures
        columns(unmarked(trimmed_end(s))) <= columns(unmarked(s)),
        lit(trimmed_end(s)) == lit(s),
    decreases s.len(),
{
    if s.len() > 0 && is_space(s.last()) {
        let t = s.drop_last();
        let x = seq![s.last()];
        assert(t + x =~= s);
        lemma_space_behind(t, x);
        lemma_columns_add(unmarked(t), x);
        lemma_columns_add(x, Seq::empty());
        lemma_trimmed(t);
    }
}

proof fn lemma_spaces(n: int)
    ensures
        codeless(spaces(n)),
        columns(spaces(n)) == (if n > 0 {
            n
        } else {
            0
        }),
    decreases n,
{
    if n > 0 {
        lemma_spaces(n - 1);
        assert(spaces(n).drop_last() =~= spaces(n - 1));
        assert(spaces(n).last() == ' ');
    }
}

proof fn lemma_cut_is_codeless(text: Seq<char>, cols: int)
    requires
        codeless(text),
    ensures
        codeless(cut_middle(text, cols)),
{
    let t = cut_middle(text, cols);
    if columns(text) > cols && cols > 0 {
        let room = cols - 1;
        let h = head_len(text, room / 3);
        lemma_head_fits(text, room / 3);
        let head = text.take(h);
        lemma_tail_fits(text, room - columns(head));
        let k = tail_len(text, room - columns(head));
        assert forall|i: int| 0 <= i < t.len() implies #[trigger] t[i] != '\x1b' by {
            if i < h {
                assert(t[i] == text[i]);
            } else if i > h {
                assert(t[i] == text[text.len() - k + (i - h - 1)]);
            }
        }
    }
}

proof fn lemma_cell(text: Seq<char>, colw: int, marked: bool)
    requires
        codeless(text),
        0 <= colw,
    ensures
        whole(cell(text, colw, marked)),
        unmarked(cell(text, colw, marked)) == cell(text, colw, false),
        columns(cell(text, colw, false)) == colw,
        lit(cell(text, colw, marked)) == (if marked {
            1int
        } else {
            0int
        }),
{
    let t = cut_middle(text, colw);
    let pad = spaces(colw - columns(t));
    let padded = t + pad;
    lemma_cut_is_codeless(text, colw);
    lemma_spaces(colw - columns(t));
    law_cut_text_fits(text, colw);
    lemma_columns_add(t, pad);
    assert(codeless(padded));
    lemma_codeless(padded);
    if marked {
        reveal_strlit("\x1b[7m");
        reveal_strlit("\x1b[0m");
        let on = seq!['\x1b', '[', '7', 'm'];
        let off = seq!['\x1b', '[', '0', 'm'];
        assert("\x1b[7m"@ =~= on);
        assert("\x1b[0m"@ =~= off);
        lemma_code('7');
        lemma_code('0');
        lemma_both(on, padded);
        lemma_both(on + padded, off);
        assert(unmarked(on) + padded =~= padded);
        assert(padded + unmarked(off) =~= padded);
    }
}

/// Whether an item stands in a row of the columns up to `col`.
spec fn in_row(g: Grid, n: int, row: int, col: int, i: int) -> bool {
    0 <= i < g.n && i < n && i % (g.per_col as int) == row && g.first_col <= i / (g.per_col as int)
        < col
}

proof fn lemma_row(g: Grid, cells: Seq<Seq<char>>, sel: Option<usize>, row: int, col: int)
    requires
        0 <= row < g.per_col,
        g.first_col <= col,
        forall|i: int| 0 <= i < cells.len() ==> codeless(#[trigger] cells[i]),
    ensures
        ({
            let r = row_up_to(g, cells, sel, row, col);
            let c = col - g.first_col;
            &&& whole(r)
            &&& columns(unmarked(r)) <= 2 + c * g.colw + (if c > 0 {
                (c - 1) * 3
            } else {
                0
            })
            &&& lit(r) == (if sel is Some && in_row(
                g,
                cells.len() as int,
                row,
                col,
                sel.unwrap() as int,
            ) {
                1int
            } else {
                0int
            })
        }),
    decreases col - g.first_col,
{
    let per = g.per_col as int;
    let n = cells.len() as int;
    lemma_spaces(2);
    lemma_spaces(3);
    if col <= g.first_col {
        lemma_codeless(spaces(2));
    } else {
        lemma_row(g, cells, sel, row, col - 1);
        let i = item_at(g, row, col - 1);
        let before = row_up_to(g, cells, sel, row, col - 1);
        let c = col - g.first_col;
        assert(c * g.colw == (c - 1) * g.colw + g.colw) by (nonlinear_arith);
        lemma_fundamental_div_mod_converse(i, per, col - 1, row);
        if sel is Some {
            lemma_fundamental_div_mod(sel.unwrap() as int, per);
            assert(per * (col - 1) == (col - 1) * per) by (nonlinear_arith);
        }
        if i < g.n && i < n {
            assert(i >= 0) by (nonlinear_arith)
                requires
                    i == (col - 1) * per + row,
                    col >= 1,
                    per >= 0,
                    row >= 0,
            ;
            assert(codeless(cells[i]));
            let gap = if col - 1 > g.first_col {
                spaces(3)
            } else {
                Seq::empty()
            };
            let marked = sel is Some && sel.unwrap() == i;
            let last = cell(cells[i], g.colw as int, marked);
            lemma_codeless(gap);
            lemma_cell(cells[i], g.colw as int, marked);
            lemma_both(before, gap);
            lemma_both(before + gap, last);
            lemma_columns_add(unmarked(before), gap);
            lemma_columns_add(unmarked(before) + gap, unmarked(last));
            lemma_columns_add(gap, Seq::empty());
        }
    }
}

/// Whether an item is among those of the first `rows` rows that are on screen.
spec fn among_rows(g: Grid, n: int, rows: int, i: int) -> bool {
    0 <= i < g.n && i < n && i % (g.per_col as int) < rows && g.first_col <= i / (g.per_col as int)
        < g.first_col + g.cols
}

/// The widest that a line of a list is.
pub open spec fn line_room(g: Grid) -> int {
    2 + g.cols * g.colw + (g.cols - 1) * 3
}

proof fn lemma_rows(g: Grid, cells: Seq<Seq<char>>, sel: Option<usize>, rows: int)
    requires
        0 <= rows <= g.per_col,
        0 < g.per_col,
        0 < g.cols,
        cells.len() == g.n,
        forall|i: int| 0 <= i < cells.len() ==> codeless(#[trigger] cells[i]),
    ensures
        ({
            let out = rows_up_to(g, cells, sel, rows);
            let left = g.n - g.first_col * g.per_col;
            &&& out.len() == (if left <= 0 {
                0
            } else {
                least(rows, left)
            })
            &&& forall|k: int|
                0 <= k < out.len() ==> columns(unmarked(#[trigger] out[k])) <= line_room(g)
            &&& lit_in(out) == (if sel is Some && among_rows(
                g,
                cells.len() as int,
                rows,
                sel.unwrap() as int,
            ) {
                1int
            } else {
                0int
            })
        }),
    decreases rows,
{
    let per = g.per_col as int;
    if rows > 0 {
        lemma_rows(g, cells, sel, rows - 1);
        let before = rows_up_to(g, cells, sel, rows - 1);
        let out = rows_up_to(g, cells, sel, rows);
        let first = item_at(g, rows - 1, g.first_col as int);
        let end = g.first_col + g.cols;
        if sel is Some {
            let i = sel.unwrap() as int;
            lemma_fundamental_div_mod(i, per);
            let q = i / per;
            if i % per == rows - 1 && g.first_col <= q {
                assert(i >= first) by (nonlinear_arith)
                    requires
                        i == per * q + (rows - 1),
                        first == g.first_col * per + (rows - 1),
                        g.first_col <= q,
                        per > 0,
                ;
            }
        }
        if first < g.n {
            lemma_row(g, cells, sel, rows - 1, end);
            let line = row_up_to(g, cells, sel, rows - 1, end);
            lemma_trimmed(line);
            assert(out.drop_last() =~= before);
            assert forall|k: int| 0 <= k < out.len() implies columns(unmarked(#[trigger] out[k]))
                <= line_room(g) by {
                if k < before.len() {
                    assert(out[k] == before[k]);
                }
            }
        }
    }
}

/// What the lines of a list are like: there are as many as the first column on screen has
/// items, at most one item is in reverse video, which is the one with the cursor if it is
/// on screen, and no line is wider than its columns and the room between them.
pub proof fn law_lines_show_the_list(
    n: usize,
    widest: usize,
    win_cols: usize,
    rows: usize,
    at: usize,
    before: usize,
    g: Grid,
    cells: Seq<Seq<char>>,
    sel: Option<usize>,
)
    requires
        0 < n,
        laid(
            n as int,
            widest as int,
            win_cols as int,
            rows as int,
            at as int,
            before as int,
            g,
        ),
        cells.len() == n,
        forall|i: int| 0 <= i < cells.len() ==> codeless(#[trigger] cells[i]),
    ensures
        ({
            let out = rows_up_to(g, cells, sel, g.per_col as int);
            &&& out.len() == least(g.per_col as int, g.n - g.first_col * g.per_col)
            &&& lit_in(out) == (if sel is Some && g.on_screen().0 <= sel.unwrap()
                < g.on_screen().1 {
                1int
            } else {
                0int
            })
            &&& forall|k: int|
                0 <= k < out.len() ==> columns(unmarked(#[trigger] out[k])) <= line_room(g)
        }),
{
    lemma_shape(n as int, widest as int, win_cols as int, rows as int);
    let on: usize = if at < n {
        at
    } else {
        (n - 1) as usize
    };
    law_cursor_is_on_screen(n, widest, win_cols, rows, on, before, g);
    lemma_rows(g, cells, sel, g.per_col as int);
    let per = g.per_col as int;
    let f = g.first_col as int;
    let e = f + g.cols;
    if sel is Some {
        let i = sel.unwrap() as int;
        lemma_fundamental_div_mod(i, per);
        let q = i / per;
        let r = i % per;
        assert((f <= q) == (f * per <= i)) by (nonlinear_arith)
            requires
                i == per * q + r,
                0 <= r < per,
        ;
        assert((q < e) == (i < e * per)) by (nonlinear_arith)
            requires
                i == per * q + r,
                0 <= r < per,
        ;
    }
}

} // verus!
