//! A screen of exactly so many lines, each exactly so many columns.

use super::width::{columns, cut_end, law_cut_text_fits, lemma_columns_add, truncate, width};
use crate::text::texts;
use vstd::prelude::*;

verus! {

/// A screen of exactly `rows` lines, each at most `cols` columns. The height is
/// decided before anything is drawn: what does not go in is dropped, since a
/// frame one row too tall makes the terminal scroll.
pub struct Frame {
    pub rows: usize,
    pub cols: usize,
    pub lines: Vec<String>,
}

/// So many spaces.
pub open spec fn spaces(n: int) -> Seq<char> {
    Seq::new(
        if n > 0 {
            n as nat
        } else {
            0
        },
        |i: int| ' ',
    )
}

/// Append spaces.
pub fn push_spaces(s: &mut String, n: usize)
    ensures
        final(s)@ == old(s)@ + spaces(n as int),
{
    let ghost start = s@;
    let mut i: usize = 0;
    assert(s@ =~= start + spaces(0));
    while i < n
        invariant
            i <= n,
            s@ == start + spaces(i as int),
        decreases n - i,
    {
        s.push(' ');
        i = i + 1;
        assert(s@ =~= start + spaces(i as int));
    }
}

/// A line in reverse video over the whole width.
pub open spec fn highlighted(s: Seq<char>, cols: int) -> Seq<char> {
    let t = cut_end(s, cols);
    "\x1b[7m"@ + t + spaces(cols - columns(t)) + "\x1b[0m"@
}

/// A line in faint print.
pub open spec fn dimmed(s: Seq<char>, cols: int) -> Seq<char> {
    "\x1b[2m"@ + cut_end(s, cols) + "\x1b[0m"@
}

/// What is sent for the lines from the first on, up to `n`: each is followed by a
/// wipe to the end of its row, and by a new row unless it is the last.
pub open spec fn sent(lines: Seq<Seq<char>>, rows: int, n: int) -> Seq<char>
    decreases n,
{
    if n <= 0 {
        Seq::empty()
    } else {
        sent(lines, rows, n - 1) + (if n <= lines.len() {
            lines[n - 1]
        } else {
            Seq::empty()
        }) + "\x1b[K"@ + (if n < rows {
            "\r\n"@
        } else {
            Seq::empty()
        })
    }
}

/// The whole screen: home, without clearing, which would flicker; then every row.
pub open spec fn screen(lines: Seq<Seq<char>>, rows: int) -> Seq<char> {
    "\x1b[H"@ + sent(
        lines,
        rows,
        if lines.len() > rows {
            lines.len() as int
        } else {
            rows
        },
    )
}

impl Frame {
    /// The lines so far.
    pub open spec fn view(&self) -> Seq<Seq<char>> {
        texts(self.lines@)
    }

    /// A frame is never taller than the screen.
    pub open spec fn wf(&self) -> bool {
        self.lines.len() <= self.rows
    }

    /// Whether there is room for a line more.
    pub open spec fn has_room(&self) -> bool {
        self.lines.len() < self.rows
    }

    /// An empty frame.
    pub fn new(rows: usize, cols: usize) -> (f: Frame)
        ensures
            f.wf(),
            f.rows == rows,
            f.cols == cols,
            f@ == Seq::<Seq<char>>::empty(),
    {
        let f = Frame { rows, cols, lines: Vec::new() };
        assert(f@ =~= Seq::<Seq<char>>::empty());
        f
    }

    fn put(&mut self, s: String)
        ensures
            old(self).wf() ==> final(self).wf(),
            final(self).rows == old(self).rows,
            final(self).cols == old(self).cols,
            final(self)@ == (if old(self).has_room() {
                old(self)@.push(s@)
            } else {
                old(self)@
            }),
    {
        if self.lines.len() < self.rows {
            let ghost before = self.lines@;
            self.lines.push(s);
            assert(texts(self.lines@) =~= texts(before).push(s@));
        }
    }

    /// A line, cut to the width; dropped where there is no room.
    pub fn push(&mut self, s: &str)
        ensures
            old(self).wf() ==> final(self).wf(),
            final(self).rows == old(self).rows,
            final(self).cols == old(self).cols,
            final(self)@ == (if old(self).has_room() {
                old(self)@.push(cut_end(s@, old(self).cols as int))
            } else {
                old(self)@
            }),
    {
        let t: String = truncate(s, self.cols);
        self.put(t);
    }

    /// An empty line.
    pub fn blank(&mut self)
        ensures
            old(self).wf() ==> final(self).wf(),
            final(self).rows == old(self).rows,
            final(self).cols == old(self).cols,
            final(self)@ == (if old(self).has_room() {
                old(self)@.push(Seq::empty())
            } else {
                old(self)@
            }),
    {
        proof {
            reveal_strlit("");
            assert(""@ =~= Seq::<char>::empty());
        }
        self.push("");
    }

    /// A highlighted line: reverse video costs no columns, unlike a box.
    pub fn push_selected(&mut self, s: &str)
        ensures
            old(self).wf() ==> final(self).wf(),
            final(self).rows == old(self).rows,
            final(self).cols == old(self).cols,
            final(self)@ == (if old(self).has_room() {
                old(self)@.push(highlighted(s@, old(self).cols as int))
            } else {
                old(self)@
            }),
    {
        let t: String = truncate(s, self.cols);
        proof {
            law_cut_text_fits(s@, self.cols as int);
        }
        let w: usize = width(t.as_str());
        let mut line = String::new();
        line.append("\x1b[7m");
        line.append(t.as_str());
        if w < self.cols {
            push_spaces(&mut line, self.cols - w);
        }
        line.append("\x1b[0m");
        assert(line@ =~= highlighted(s@, self.cols as int));
        self.put(line);
    }

    /// A line in faint print.
    pub fn push_dim(&mut self, s: &str)
        ensures
            old(self).wf() ==> final(self).wf(),
            final(self).rows == old(self).rows,
            final(self).cols == old(self).cols,
            final(self)@ == (if old(self).has_room() {
                old(self)@.push(dimmed(s@, old(self).cols as int))
            } else {
                old(self)@
            }),
    {
        let mut line = String::new();
        line.append("\x1b[2m");
        line.append(truncate(s, self.cols).as_str());
        line.append("\x1b[0m");
        assert(line@ =~= dimmed(s@, self.cols as int));
        self.put(line);
    }

    /// How many lines there are.
    pub fn used(&self) -> (n: usize)
        ensures
            n == self@.len(),
    {
        self.lines.len()
    }

    /// Pad with empty lines, so that what follows ends on the bottom row.
    pub fn fill_to(&mut self, row_from_bottom: usize)
        ensures
            old(self).wf() ==> final(self).wf(),
            final(self).rows == old(self).rows,
            final(self).cols == old(self).cols,
            final(self)@ == old(self)@ + Seq::new(
                (if old(self).rows - row_from_bottom > old(self)@.len() {
                    old(self).rows - row_from_bottom - old(self)@.len()
                } else {
                    0
                }) as nat,
                |i: int| Seq::<char>::empty(),
            ),
    {
        let target: usize = if self.rows > row_from_bottom {
            self.rows - row_from_bottom
        } else {
            0
        };
        let ghost start = self@;
        assert(start =~= start + Seq::new(0, |i: int| Seq::<char>::empty()));
        while self.lines.len() < target
            invariant
                self.rows == old(self).rows,
                self.cols == old(self).cols,
                target <= self.rows,
                old(self).wf() ==> self.wf(),
                start.len() <= self@.len(),
                self@.len() <= target || self@ == start,
                self@ == start + Seq::new(
                    (self@.len() - start.len()) as nat,
                    |i: int| Seq::<char>::empty(),
                ),
            decreases target - self.lines.len(),
        {
            let ghost before = self.lines@;
            self.lines.push(String::new());
            proof {
                let added = (self@.len() - start.len()) as nat;
                assert(self@ =~= texts(before).push(Seq::empty()));
                assert(self@ =~= start + Seq::new(added, |i: int| Seq::<char>::empty()));
            }
        }
    }

    /// The whole screen in one piece, to be written at once.
    pub fn draw(&self) -> (s: String)
        ensures
            s@ == screen(self@, self.rows as int),
    {
        let ghost ls = self@;
        let mut s = String::new();
        s.append("\x1b[H");
        let n: usize = if self.lines.len() > self.rows {
            self.lines.len()
        } else {
            self.rows
        };
        let mut i: usize = 0;
        assert(s@ =~= "\x1b[H"@ + sent(ls, self.rows as int, 0));
        while i < n
            invariant
                i <= n,
                ls == texts(self.lines@),
                s@ == "\x1b[H"@ + sent(ls, self.rows as int, i as int),
            decreases n - i,
        {
            if i < self.lines.len() {
                assert(ls[i as int] == self.lines@[i as int]@);
                s.append(self.lines[i].as_str());
            }
            s.append("\x1b[K");
            i = i + 1;
            if i < self.rows {
                s.append("\r\n");
            }
            assert(s@ =~= "\x1b[H"@ + sent(ls, self.rows as int, i as int));
        }
        s
    }
}

/// A line in reverse video fills the width exactly, and one in faint print stays within it;
/// both are closed again.
pub proof fn law_marked_lines_keep_to_the_width(s: Seq<char>, cols: int)
    requires
        0 <= cols,
    ensures
        ({
            let on = seq!['\u{1b}', '[', '7', 'm'];
            let faint = seq!['\u{1b}', '[', '2', 'm'];
            let off = seq!['\u{1b}', '[', '0', 'm'];
            let h = highlighted(s, cols);
            let d = dimmed(s, cols);
            &&& h.len() >= 8 && h.take(4) == on && h.skip(h.len() - 4) == off
            &&& columns(h.subrange(4, h.len() - 4)) == cols
            &&& d.len() >= 8 && d.take(4) == faint && d.skip(d.len() - 4) == off
            &&& columns(d.subrange(4, d.len() - 4)) <= cols
        }),
{
    reveal_strlit("\x1b[7m");
    reveal_strlit("\x1b[2m");
    reveal_strlit("\x1b[0m");
    let t = cut_end(s, cols);
    law_cut_text_fits(s, cols);
    let gap = spaces(cols - columns(t));
    lemma_spaces_width(cols - columns(t));
    lemma_columns_add(t, gap);
    let h = highlighted(s, cols);
    let d = dimmed(s, cols);
    assert(h.take(4) =~= seq!['\u{1b}', '[', '7', 'm']);
    assert(h.skip(h.len() - 4) =~= seq!['\u{1b}', '[', '0', 'm']);
    assert(h.subrange(4, h.len() - 4) =~= t + gap);
    assert(d.take(4) =~= seq!['\u{1b}', '[', '2', 'm']);
    assert(d.skip(d.len() - 4) =~= seq!['\u{1b}', '[', '0', 'm']);
    assert(d.subrange(4, d.len() - 4) =~= t);
}

proof fn lemma_spaces_width(n: int)
    requires
        0 <= n,
    ensures
        columns(spaces(n)) == n,
    decreases n,
{
    if n > 0 {
        lemma_spaces_width(n - 1);
        assert(spaces(n).drop_last() =~= spaces(n - 1));
    } else {
        assert(spaces(n) =~= Seq::<char>::empty());
    }
}

/// A screen is sent from its top, row by row: each row is wiped behind its line, and all but
/// the last are followed by the start of the next.
pub proof fn law_a_screen_is_sent_row_by_row(lines: Seq<Seq<char>>, line: Seq<char>, rows: int)
    requires
        lines.len() < rows,
    ensures
        screen(lines, rows).len() >= 3 && screen(lines, rows).take(3) == seq!['\u{1b}', '[', 'H'],
        ({
            let n = lines.len() as int + 1;
            let before = sent(lines.push(line), rows, n - 1);
            let wipe = seq!['\u{1b}', '[', 'K'];
            &&& n < rows ==> sent(lines.push(line), rows, n) == before + line + wipe + seq!['\r', '\n']
            &&& n == rows ==> sent(lines.push(line), rows, n) == before + line + wipe
            &&& before == sent(lines, rows, n - 1)
        }),
{
    reveal_strlit("\x1b[H");
    reveal_strlit("\x1b[K");
    reveal_strlit("\r\n");
    assert(screen(lines, rows).take(3) =~= seq!['\u{1b}', '[', 'H']);
    let n = lines.len() as int + 1;
    lemma_sent_of_more(lines, line, rows, n - 1);
    let before = sent(lines.push(line), rows, n - 1);
    assert("\x1b[K"@ =~= seq!['\u{1b}', '[', 'K']);
    assert("\r\n"@ =~= seq!['\r', '\n']);
    assert(before + line + "\x1b[K"@ + Seq::<char>::empty() =~= before + line + "\x1b[K"@);
}

proof fn lemma_sent_of_more(lines: Seq<Seq<char>>, line: Seq<char>, rows: int, n: int)
    requires
        0 <= n <= lines.len(),
    ensures
        sent(lines.push(line), rows, n) == sent(lines, rows, n),
    decreases n,
{
    if n > 0 {
        lemma_sent_of_more(lines, line, rows, n - 1);
    }
}

} // verus!
