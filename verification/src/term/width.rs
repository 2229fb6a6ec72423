//! Display columns, which are neither characters nor bytes.

use crate::text::{chars_of, push_chars, string_of};
use vstd::prelude::*;
use vstd::slice::slice_subrange;

verus! {

/// Whether a character is two columns wide: the wide and fullwidth blocks of East
/// Asian text, and the pictures.
pub open spec fn is_wide(c: char) -> bool {
    let n = c as u32;
    ||| 0x1100 <= n <= 0x115F
    ||| 0x2E80 <= n <= 0x303E
    ||| 0x3041 <= n <= 0x33FF
    ||| 0x3400 <= n <= 0x4DBF
    ||| 0x4E00 <= n <= 0x9FFF
    ||| 0xA000 <= n <= 0xA4CF
    ||| 0xAC00 <= n <= 0xD7A3
    ||| 0xF900 <= n <= 0xFAFF
    ||| 0xFE30 <= n <= 0xFE6F
    ||| 0xFF00 <= n <= 0xFF60
    ||| 0xFFE0 <= n <= 0xFFE6
    ||| 0x1F300 <= n <= 0x1F64F
    ||| 0x1F900 <= n <= 0x1F9FF
    ||| 0x20000 <= n <= 0x3FFFD
}

/// The columns of a character.
pub open spec fn columns_of(c: char) -> int {
    if is_wide(c) {
        2
    } else {
        1
    }
}

/// The columns of a character.
pub fn char_width(c: char) -> (w: usize)
    ensures
        w == columns_of(c),
{
    let n: u32 = c as u32;
    if (n >= 0x1100 && n <= 0x115F) || (n >= 0x2E80 && n <= 0x303E) || (n >= 0x3041 && n <= 0x33FF)
        || (n >= 0x3400 && n <= 0x4DBF) || (n >= 0x4E00 && n <= 0x9FFF) || (n >= 0xA000 && n
        <= 0xA4CF) || (n >= 0xAC00 && n <= 0xD7A3) || (n >= 0xF900 && n <= 0xFAFF) || (n >= 0xFE30
        && n <= 0xFE6F) || (n >= 0xFF00 && n <= 0xFF60) || (n >= 0xFFE0 && n <= 0xFFE6) || (n
        >= 0x1F300 && n <= 0x1F64F) || (n >= 0x1F900 && n <= 0x1F9FF) || (n >= 0x20000 && n
        <= 0x3FFFD) {
        2
    } else {
        1
    }
}

/// The columns of a text.
pub open spec fn columns(s: Seq<char>) -> int
    decreases s.len(),
{
    if s.len() == 0 {
        0
    } else {
        columns(s.drop_last()) + columns_of(s.last())
    }
}

/// The columns of two texts, one behind the other, add up.
pub proof fn lemma_columns_add(a: Seq<char>, b: Seq<char>)
    ensures
        columns(a + b) == columns(a) + columns(b),
        columns(a) >= a.len(),
    decreases b.len(), a.len(),
{
    if b.len() == 0 {
        assert(a + b =~= a);
        if a.len() > 0 {
            lemma_columns_add(a.drop_last(), b);
        }
    } else {
        lemma_columns_add(a, b.drop_last());
        assert((a + b).drop_last() =~= a + b.drop_last());
    }
}

/// The columns of a text.
pub fn width(s: &str) -> (w: usize)
    requires
        columns(s@) <= usize::MAX,
    ensures
        w == columns(s@),
{
    let c: Vec<char> = chars_of(s);
    let mut w: usize = 0;
    let mut i: usize = 0;
    while i < c.len()
        invariant
            i <= c.len(),
            columns(c@) <= usize::MAX,
            w == columns(c@.take(i as int)),
        decreases c.len() - i,
    {
        proof {
            let n = c@.take(i + 1);
            assert(n.drop_last() =~= c@.take(i as int));
            lemma_columns_add(n, c@.skip(i + 1));
            lemma_columns_add(c@.skip(i + 1), Seq::empty());
            assert(n + c@.skip(i + 1) =~= c@);
        }
        w = w + char_width(c[i]);
        i = i + 1;
    }
    assert(c@.take(c@.len() as int) =~= c@);
    w
}

/// How many characters from the start go into so many columns.
pub open spec fn head_len(s: Seq<char>, room: int) -> int
    decreases s.len(),
{
    if s.len() == 0 || columns_of(s[0]) > room {
        0
    } else {
        1 + head_len(s.skip(1), room - columns_of(s[0]))
    }
}

/// How many characters from the end go into so many columns.
pub open spec fn tail_len(s: Seq<char>, room: int) -> int
    decreases s.len(),
{
    if s.len() == 0 || columns_of(s.last()) > room {
        0
    } else {
        1 + tail_len(s.drop_last(), room - columns_of(s.last()))
    }
}

pub proof fn lemma_head_fits(s: Seq<char>, room: int)
    requires
        0 <= room,
    ensures
        0 <= head_len(s, room) <= s.len(),
        columns(s.take(head_len(s, room))) <= room,
    decreases s.len(),
{
    if s.len() == 0 || columns_of(s[0]) > room {
        assert(s.take(0) =~= Seq::empty());
    } else {
        let t = s.skip(1);
        let w = columns_of(s[0]);
        lemma_head_fits(t, room - w);
        let h = head_len(t, room - w);
        assert(s.take(1 + h) =~= seq![s[0]] + t.take(h));
        lemma_columns_add(seq![s[0]], t.take(h));
        assert(seq![s[0]].drop_last() =~= Seq::empty());
        assert(columns(seq![s[0]].drop_last()) == 0);
    }
}

pub proof fn lemma_tail_fits(s: Seq<char>, room: int)
    requires
        0 <= room,
    ensures
        0 <= tail_len(s, room) <= s.len(),
        columns(s.skip(s.len() - tail_len(s, room))) <= room,
    decreases s.len(),
{
    if s.len() == 0 || columns_of(s.last()) > room {
        assert(s.skip(s.len() as int) =~= Seq::empty());
    } else {
        let t = s.drop_last();
        let w = columns_of(s.last());
        lemma_tail_fits(t, room - w);
        let h = tail_len(t, room - w);
        let end = s.skip(s.len() - (1 + h));
        assert(end.drop_last() =~= t.skip(t.len() - h));
        assert(end.last() == s.last());
    }
}

fn head_count(s: &[char], room: usize) -> (k: usize)
    ensures
        k == head_len(s@, room as int),
        k <= s.len(),
{
    let mut k: usize = 0;
    let mut left: usize = room;
    assert(s@.skip(0) =~= s@);
    while k < s.len() && char_width(s[k]) <= left
        invariant
            k <= s.len(),
            left <= room,
            head_len(s@, room as int) == k + head_len(s@.skip(k as int), left as int),
        decreases s.len() - k,
    {
        assert(s@.skip(k as int).skip(1) =~= s@.skip(k + 1));
        left = left - char_width(s[k]);
        k = k + 1;
    }
    k
}

fn tail_count(s: &[char], room: usize) -> (k: usize)
    ensures
        k == tail_len(s@, room as int),
        k <= s.len(),
{
    let mut end: usize = s.len();
    let mut left: usize = room;
    assert(s@.take(s@.len() as int) =~= s@);
    while end > 0 && char_width(s[end - 1]) <= left
        invariant
            end <= s.len(),
            left <= room,
            tail_len(s@, room as int) == (s.len() - end) + tail_len(
                s@.take(end as int),
                left as int,
            ),
        decreases end,
    {
        assert(s@.take(end as int).drop_last() =~= s@.take(end - 1));
        left = left - char_width(s[end - 1]);
        end = end - 1;
    }
    s.len() - end
}

/// Whether a text goes into so many columns.
fn fits(s: &[char], cols: usize) -> (r: bool)
    ensures
        r == (columns(s@) <= cols),
{
    let mut used: usize = 0;
    let mut i: usize = 0;
    while i < s.len()
        invariant
            i <= s.len(),
            used <= cols,
            used == columns(s@.take(i as int)),
        decreases s.len() - i,
    {
        proof {
            let n = s@.take(i + 1);
            assert(n.drop_last() =~= s@.take(i as int));
            lemma_columns_add(n, s@.skip(i + 1));
            lemma_columns_add(s@.skip(i + 1), Seq::empty());
            assert(n + s@.skip(i + 1) =~= s@);
        }
        let w: usize = char_width(s[i]);
        if w > cols - used {
            return false;
        }
        used = used + w;
        i = i + 1;
    }
    assert(s@.take(s@.len() as int) =~= s@);
    true
}

/// A text cut to so many columns, with a mark where something was cut off. Where
/// there are no columns there is no mark either.
pub open spec fn cut_end(s: Seq<char>, cols: int) -> Seq<char> {
    if columns(s) <= cols {
        s
    } else if cols <= 0 {
        Seq::empty()
    } else {
        s.take(head_len(s, cols - 1)).push('~')
    }
}

/// Cut to at most `cols` columns, never inside a character.
pub fn truncate(s: &str, cols: usize) -> (r: String)
    ensures
        r@ == cut_end(s@, cols as int),
{
    let c: Vec<char> = chars_of(s);
    if fits(c.as_slice(), cols) {
        return s.to_owned();
    }
    if cols == 0 {
        return String::new();
    }
    let k: usize = head_count(c.as_slice(), cols - 1);
    let part = slice_subrange(c.as_slice(), 0, k);
    assert(part@ =~= s@.take(k as int));
    let mut r: String = string_of(part);
    r.push('~');
    r
}

/// What is cut to a width has no more than that width.
pub proof fn law_cut_text_fits(s: Seq<char>, cols: int)
    requires
        0 <= cols,
    ensures
        columns(cut_end(s, cols)) <= cols,
        columns(cut_middle(s, cols)) <= cols,
{
    if columns(s) > cols && cols > 0 {
        lemma_head_fits(s, cols - 1);
        let t = cut_end(s, cols);
        assert(t.drop_last() =~= s.take(head_len(s, cols - 1)));
        let room = cols - 1;
        let h = head_len(s, room / 3);
        lemma_head_fits(s, room / 3);
        let left = room - columns(s.take(h));
        lemma_tail_fits(s, left);
        let k = tail_len(s, left);
        let m = s.take(h).push('~');
        assert(m.drop_last() =~= s.take(h));
        lemma_columns_add(m, s.skip(s.len() - k));
    }
}

/// A text cut to so many columns in its middle: a third of the room goes to its
/// start and the rest to its end, where the name of a file is.
pub open spec fn cut_middle(s: Seq<char>, cols: int) -> Seq<char> {
    if columns(s) <= cols {
        s
    } else if cols <= 0 {
        Seq::empty()
    } else {
        let room = cols - 1;
        let head = s.take(head_len(s, room / 3));
        let k = tail_len(s, room - columns(head));
        head.push('~') + s.skip(s.len() - k)
    }
}

/// Cut to at most `cols` columns in the middle, so that the name at the end of a
/// path survives.
pub fn truncate_middle(s: &str, cols: usize) -> (r: String)
    ensures
        r@ == cut_middle(s@, cols as int),
{
    let c: Vec<char> = chars_of(s);
    if fits(c.as_slice(), cols) {
        return s.to_owned();
    }
    if cols == 0 {
        return String::new();
    }
    let room: usize = cols - 1;
    let h: usize = head_count(c.as_slice(), room / 3);
    let head = slice_subrange(c.as_slice(), 0, h);
    assert(head@ =~= s@.take(h as int));
    let mut r: String = string_of(head);
    proof {
        lemma_head_fits(s@, (room / 3) as int);
    }
    let left: usize = room - width(r.as_str());
    let k: usize = tail_count(c.as_slice(), left);
    let tail = slice_subrange(c.as_slice(), c.len() - k, c.len());
    assert(tail@ =~= s@.skip(s@.len() - k));
    r.push('~');
    push_chars(&mut r, tail);
    assert(r@ =~= cut_middle(s@, cols as int));
    r
}

/// A text that is cut in the middle keeps its end, as far as there is room: the
/// last part of it, if that goes into two thirds of the width, is still there.
pub proof fn law_middle_cut_keeps_the_end(s: Seq<char>, cols: int, name: Seq<char>)
    requires
        0 < cols,
        name.len() <= s.len(),
        s.skip(s.len() - name.len()) == name,
        columns(name) <= (cols - 1) - (cols - 1) / 3,
    ensures
        ({
            let t = cut_middle(s, cols);
            name.len() <= t.len() && t.skip(t.len() - name.len()) == name
        }),
{
    if columns(s) > cols {
        let room = cols - 1;
        let h = head_len(s, room / 3);
        lemma_head_fits(s, room / 3);
        let left = room - columns(s.take(h));
        lemma_tail_fits(s, left);
        lemma_tail_takes(s, left, name.len() as int);
        let k = tail_len(s, left);
        let t = cut_middle(s, cols);
        assert(t.skip(t.len() - name.len()) =~= name) by {
            let end = s.skip(s.len() - k);
            assert(t.skip(t.len() - name.len()) =~= end.skip(k - name.len()));
            assert(end.skip(k - name.len()) =~= s.skip(s.len() - name.len()));
        }
    }
}

proof fn lemma_tail_takes(s: Seq<char>, room: int, n: int)
    requires
        0 <= n <= s.len(),
        columns(s.skip(s.len() - n)) <= room,
    ensures
        n <= tail_len(s, room),
    decreases n,
{
    if n > 0 {
        let end = s.skip(s.len() - n);
        let t = s.drop_last();
        assert(end.drop_last() =~= t.skip(t.len() - (n - 1)));
        assert(end.last() == s.last());
        lemma_columns_add(end.drop_last(), Seq::empty());
        lemma_tail_takes(t, room - columns_of(s.last()), n - 1);
    } else {
        lemma_columns_add(s.skip(s.len() as int), Seq::empty());
        lemma_tail_fits(s, room);
    }
}

/// The scripts whose characters take two columns, by number: the first letters of Korean,
/// the radicals and signs of Chinese and Japanese and all that follows them up to the Yi
/// syllables but for the hexagrams, the Korean syllables, the forms made for these scripts,
/// pictures, and the rarer Chinese characters. Everything else takes one.
pub proof fn law_wide_characters_take_two_columns(c: char)
    ensures
        ({
            let n = c as int;
            let wide = 4352 <= n <= 4447 || 11904 <= n <= 12350 || 12353 <= n <= 19903 || 19968 <= n
                <= 42191 || 44032 <= n <= 55203 || 63744 <= n <= 64255 || 65072 <= n <= 65135
                || 65280 <= n <= 65376 || 65504 <= n <= 65510 || 127744 <= n <= 128591 || 129280
                <= n <= 129535 || 131072 <= n <= 262141;
            &&& wide ==> columns(seq![c]) == 2
            &&& !wide ==> columns(seq![c]) == 1
        }),
{
    assert(seq![c].drop_last() =~= Seq::<char>::empty());
    assert(columns(seq![c].drop_last()) == 0);
}

proof fn lemma_head_is_full(s: Seq<char>, room: int)
    requires
        0 <= room,
        columns(s) > room,
    ensures
        columns(s.take(head_len(s, room))) >= room - 1,
        head_len(s, room) < s.len(),
    decreases s.len(),
{
    lemma_head_fits(s, room);
    if head_len(s, room) == s.len() {
        assert(s.take(s.len() as int) =~= s);
    }
    if s.len() > 0 && columns_of(s[0]) <= room {
        let t = s.skip(1);
        let w = columns_of(s[0]);
        assert(s =~= seq![s[0]] + t);
        lemma_columns_add(seq![s[0]], t);
        assert(seq![s[0]].drop_last() =~= Seq::<char>::empty());
        assert(columns(seq![s[0]].drop_last()) == 0);
        lemma_head_is_full(t, room - w);
        lemma_head_fits(t, room - w);
        let h = head_len(t, room - w);
        assert(s.take(1 + h) =~= seq![s[0]] + t.take(h));
        lemma_columns_add(seq![s[0]], t.take(h));
    } else {
        assert(s.take(0) =~= Seq::<char>::empty());
    }
}

proof fn lemma_tail_is_full(s: Seq<char>, room: int)
    requires
        0 <= room,
        columns(s) > room,
    ensures
        columns(s.skip(s.len() - tail_len(s, room))) >= room - 1,
    decreases s.len(),
{
    lemma_tail_fits(s, room);
    if s.len() > 0 && columns_of(s.last()) <= room {
        let t = s.drop_last();
        let w = columns_of(s.last());
        lemma_tail_is_full(t, room - w);
        let k = tail_len(t, room - w);
        let end = s.skip(s.len() - (k + 1));
        lemma_tail_fits(t, room - w);
        assert(end.drop_last() =~= t.skip(t.len() - k));
        assert(end.last() == s.last());
    } else {
        assert(s.skip(s.len() as int) =~= Seq::<char>::empty());
    }
}

/// What fits is not cut. What does not is cut as late as it can be: of the width at most
/// one column stays empty, in front of a sign that something was cut stands the start of
/// the text, and behind it, where it is cut in the middle, its end.
pub proof fn law_as_much_is_shown_as_fits(s: Seq<char>, cols: int)
    requires
        0 < cols,
    ensures
        columns(s) <= cols ==> cut_end(s, cols) == s && cut_middle(s, cols) == s,
        columns(s) > cols ==> {
            let t = cut_end(s, cols);
            let k = t.len() - 1;
            &&& 0 <= k < s.len() && t.last() == '~' && t.take(k) == s.take(k)
            &&& columns(t) >= cols - 1
        },
        columns(s) > cols ==> {
            let u = cut_middle(s, cols);
            &&& columns(u) >= cols - 1
            &&& exists|h: int|
                0 <= h < u.len() && h <= s.len() && #[trigger] u[h] == '~' && u.take(h) == s.take(h)
                    && columns(u.take(h)) <= (cols - 1) / 3 && u.len() - h - 1 <= s.len() && u.skip(
                    h + 1,
                ) == s.skip(s.len() - (u.len() - h - 1))
        },
{
    if columns(s) > cols {
        let room = cols - 1;
        lemma_head_fits(s, room);
        lemma_head_is_full(s, room);
        let k = head_len(s, room);
        let t = cut_end(s, cols);
        assert(t.take(k) =~= s.take(k));
        assert(t.drop_last() =~= s.take(k));
        let h = head_len(s, room / 3);
        lemma_head_fits(s, room / 3);
        let head = s.take(h);
        let left = room - columns(head);
        lemma_columns_add(head, Seq::empty());
        lemma_tail_fits(s, left);
        lemma_tail_is_full(s, left);
        let j = tail_len(s, left);
        let u = cut_middle(s, cols);
        let m = head.push('~');
        assert(m.drop_last() =~= head);
        lemma_columns_add(m, s.skip(s.len() - j));
        assert(u.take(h) =~= head);
        assert(u[h] == '~');
        assert(u.skip(h + 1) =~= s.skip(s.len() - j));
    }
}

} // verus!
