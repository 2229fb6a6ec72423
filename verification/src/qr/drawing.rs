//! The symbol as lines of text for a terminal.

use super::grid::Code;
use vstd::prelude::*;

verus! {

/// The colours, stated outright rather than left to the terminal's own.
pub const DARK_FG: &'static str = "\x1b[38;5;0m";

pub const LIGHT_FG: &'static str = "\x1b[38;5;15m";

pub const DARK_BG: &'static str = "\x1b[48;5;0m";

pub const LIGHT_BG: &'static str = "\x1b[48;5;15m";

pub const RESET: &'static str = "\x1b[0m";

/// Whether a module is dark once a light quiet zone surrounds the symbol.
pub open spec fn shown(m: Seq<Seq<bool>>, quiet: int, row: int, col: int) -> bool {
    &&& quiet <= row < quiet + m.len()
    &&& quiet <= col < quiet + m.len()
    &&& m[row - quiet][col - quiet]
}

/// The first `cols` cells of a drawn row: the upper half block in the colour of
/// the module above on the colour of the module below.
pub open spec fn cells(m: Seq<Seq<bool>>, quiet: int, row: int, cols: int) -> Seq<char>
    decreases cols,
{
    if cols <= 0 {
        Seq::empty()
    } else {
        let fg = if shown(m, quiet, row, cols - 1) {
            DARK_FG@
        } else {
            LIGHT_FG@
        };
        let bg = if shown(m, quiet, row + 1, cols - 1) {
            DARK_BG@
        } else {
            LIGHT_BG@
        };
        (cells(m, quiet, row, cols - 1) + fg + bg).push('\u{2580}')
    }
}

/// A drawn row, which covers two rows of modules.
pub open spec fn drawn_row(m: Seq<Seq<bool>>, quiet: int, i: int) -> Seq<char> {
    cells(m, quiet, 2 * i, m.len() + 2 * quiet) + RESET@
}

/// Whether a module is dark once a light quiet zone surrounds the symbol.
pub fn module(code: &Code, row: usize, col: usize, quiet: usize) -> (b: bool)
    requires
        code.wf(),
    ensures
        b == shown(code@, quiet as int, row as int, col as int),
{
    if row < quiet || col < quiet {
        return false;
    }
    code.dark(row - quiet, col - quiet)
}

/// Two module rows per character row, using the upper half block.
pub fn render(code: &Code, quiet: usize) -> (lines: Vec<String>)
    requires
        code.wf(),
        code.side() + 2 * quiet < usize::MAX,
    ensures
        lines.len() == (code.side() + 2 * quiet + 1) / 2,
        forall|i: int|
            0 <= i < lines.len() ==> (#[trigger] lines@[i])@ == drawn_row(code@, quiet as int, i),
{
    let span: usize = code.side_len() + quiet * 2;
    let mut lines: Vec<String> = Vec::new();
    let mut row: usize = 0;
    let rows: usize = span / 2 + span % 2;
    while row < rows
        invariant
            code.wf(),
            span == code.side() + 2 * quiet,
            span < usize::MAX,
            rows == (span + 1) / 2,
            row <= rows,
            lines.len() == row,
            forall|i: int|
                0 <= i < lines.len() ==> (#[trigger] lines@[i])@ == drawn_row(
                    code@,
                    quiet as int,
                    i,
                ),
        decreases rows - row,
    {
        let top: usize = 2 * row;
        let mut line = String::new();
        let mut col: usize = 0;
        while col < span
            invariant
                code.wf(),
                span == code.side() + 2 * quiet,
                span < usize::MAX,
                top < span,
                col <= span,
                line@ == cells(code@, quiet as int, top as int, col as int),
            decreases span - col,
        {
            let upper: bool = module(code, top, col, quiet);
            let lower: bool = module(code, top + 1, col, quiet);
            line.append(if upper { DARK_FG } else { LIGHT_FG });
            line.append(if lower { DARK_BG } else { LIGHT_BG });
            line.push('\u{2580}');
            col = col + 1;
        }
        line.append(RESET);
        lines.push(line);
        row = row + 1;
    }
    lines
}

/// How wide and how tall the drawing will be, so a screen can decide whether it
/// has the room before it starts drawing.
pub fn rendered_size(code: &Code, quiet: usize) -> (size: (usize, usize))
    requires
        code.wf(),
        code.side() + 2 * quiet <= usize::MAX,
    ensures
        size.0 == code.side() + 2 * quiet,
        size.1 == (code.side() + 2 * quiet + 1) / 2,
{
    let span: usize = code.side_len() + quiet * 2;
    (span, span / 2 + span % 2)
}

} // verus!
