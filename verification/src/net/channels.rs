//! Which wifi channels may be used, and how they are written.

use crate::number::{decimal, law_decimal_reads_back, parse_decimal, push_decimal, unsigned};
use crate::text::{
    char_at, chars_of, contains_text, find_char, holds, is_space, join, joined_by,
    lemma_char_at_is, lemma_holds_middle, lemma_nothing_to_trim, lines, split_lines, texts, trim,
    trimmed, views,
};
use vstd::prelude::*;
use vstd::slice::slice_subrange;

verus! {

/// The channel on a line of the radio's report, unless it may not be spoken on:
/// "disabled" is not allowed here at all, and "no IR" only allows to listen.
pub open spec fn channel_on(line: Seq<char>) -> Option<int> {
    let t = trimmed(line);
    let open = char_at(t, '[');
    let rest = t.skip(open);
    let close = char_at(rest, ']');
    if t.len() == 0 || t[0] != '*' || !holds(t, " MHz ["@) || holds(t, "disabled"@) || holds(
        t,
        "no IR"@,
    ) {
        None
    } else if open < t.len() && close < rest.len() {
        unsigned(rest.subrange(1, close), 10, 65535)
    } else {
        None
    }
}

/// Whether a list is in order, each once.
pub open spec fn increasing(v: Seq<u16>) -> bool {
    forall|i: int, j: int| 0 <= i < j < v.len() ==> v[i] < v[j]
}

/// Whether a list holds exactly the channels on the first `n` lines.
pub open spec fn holds_channels(v: Seq<u16>, ls: Seq<Seq<char>>, n: int) -> bool {
    forall|c: u16| #[trigger]
        v.contains(c) <==> exists|i: int| 0 <= i < n && channel_on(#[trigger] ls[i]) == Some(c as int)
}

fn channel_in(line: &[char]) -> (r: Option<u16>)
    ensures
        r matches Some(c) ==> channel_on(line@) == Some(c as int),
        r is None ==> channel_on(line@) is None,
{
    let t: &[char] = trim(line);
    if t.len() == 0 || t[0] != '*' || !contains_text(t, " MHz [") || contains_text(t, "disabled")
        || contains_text(t, "no IR") {
        return None;
    }
    let open: usize = find_char(t, '[');
    if open >= t.len() {
        return None;
    }
    let rest = slice_subrange(t, open, t.len());
    assert(rest@ =~= t@.skip(open as int));
    let close: usize = find_char(rest, ']');
    if close >= rest.len() {
        return None;
    }
    assert(rest@[0] == '[');
    let inner = slice_subrange(rest, 1, close);
    match parse_decimal(inner, 65535) {
        Some(n) => Some(n as u16),
        None => None,
    }
}

fn put_channel(v: &mut Vec<u16>, c: u16)
    requires
        increasing(old(v)@),
    ensures
        increasing(final(v)@),
        forall|x: u16| #[trigger] final(v)@.contains(x) <==> old(v)@.contains(x) || x == c,
{
    let mut p: usize = 0;
    while p < v.len() && v[p] < c
        invariant
            p <= v.len(),
            *v == *old(v),
            forall|k: int| 0 <= k < p ==> v@[k] < c,
        decreases v.len() - p,
    {
        p = p + 1;
    }
    if p < v.len() && v[p] == c {
        assert(v@[p as int] == c);
        return ;
    }
    let ghost before = v@;
    v.insert(p, c);
    proof {
        let after = v@;
        assert(after =~= before.insert(p as int, c));
        assert forall|i: int, j: int| 0 <= i < j < after.len() implies after[i] < after[j] by {
            let x = if i < p {
                i
            } else {
                i - 1
            };
            let y = if j < p {
                j
            } else {
                j - 1
            };
            if i != p && j != p {
                assert(after[i] == before[x] && after[j] == before[y]);
            } else if i == p {
                assert(after[j] == before[y]);
                if p < before.len() && p < y {
                    assert(before[p as int] < before[y]);
                }
            } else {
                assert(after[i] == before[x]);
            }
        }
        assert forall|x: u16| #[trigger] after.contains(x) <==> before.contains(x) || x == c by {
            if before.contains(x) {
                let k = choose|k: int| 0 <= k < before.len() && before[k] == x;
                if k < p {
                    assert(after[k] == x);
                } else {
                    assert(after[k + 1] == x);
                }
            }
            assert(after[p as int] == c);
            if after.contains(x) && x != c {
                let k = choose|k: int| 0 <= k < after.len() && after[k] == x;
                if k < p {
                    assert(before[k] == x);
                } else {
                    assert(before[k - 1] == x);
                }
            }
        }
    }
}

/// The channels in the radio's report on which it may speak, in order.
pub fn parse_phy_channels(text: &str) -> (out: Vec<u16>)
    ensures
        increasing(out@),
        holds_channels(out@, lines(text@), lines(text@).len() as int),
{
    let c: Vec<char> = chars_of(text);
    let ls: Vec<&[char]> = split_lines(c.as_slice());
    let ghost all = lines(text@);
    let mut out: Vec<u16> = Vec::new();
    let mut i: usize = 0;
    while i < ls.len()
        invariant
            views(ls@) == all,
            i <= ls.len(),
            increasing(out@),
            holds_channels(out@, all, i as int),
        decreases ls.len() - i,
    {
        assert(all[i as int] == ls@[i as int]@);
        let ghost before = out@;
        match channel_in(ls[i]) {
            Some(c) => {
                put_channel(&mut out, c);
                proof {
                    assert forall|x: u16| #[trigger] out@.contains(x) <==> exists|k: int|
                        0 <= k < i + 1 && channel_on(#[trigger] all[k]) == Some(x as int) by {
                        if before.contains(x) {
                            let k = choose|k: int|
                                0 <= k < i && channel_on(#[trigger] all[k]) == Some(x as int);
                            assert(channel_on(all[k]) == Some(x as int));
                        }
                        assert(channel_on(all[i as int]) == Some(c as int));
                        if exists|k: int|
                            0 <= k < i + 1 && channel_on(#[trigger] all[k]) == Some(x as int) {
                            let k = choose|k: int|
                                0 <= k < i + 1 && channel_on(#[trigger] all[k]) == Some(x as int);
                            if k < i {
                                assert(before.contains(x));
                            }
                        }
                    }
                }
            },
            None => {
                proof {
                    assert forall|x: u16| #[trigger] out@.contains(x) <==> exists|k: int|
                        0 <= k < i + 1 && channel_on(#[trigger] all[k]) == Some(x as int) by {
                        if before.contains(x) {
                            let k = choose|k: int|
                                0 <= k < i && channel_on(#[trigger] all[k]) == Some(x as int);
                            assert(channel_on(all[k]) == Some(x as int));
                        }
                        if exists|k: int|
                            0 <= k < i + 1 && channel_on(#[trigger] all[k]) == Some(x as int) {
                            let k = choose|k: int|
                                0 <= k < i + 1 && channel_on(#[trigger] all[k]) == Some(x as int);
                            assert(k < i);
                            assert(before.contains(x));
                        }
                    }
                }
            },
        }
        i = i + 1;
    }
    out
}

/// The last place of the run of channels that follow one another from `i` on.
pub open spec fn run_end(v: Seq<u16>, i: int) -> int
    decreases v.len() - i,
{
    if i + 1 < v.len() && v[i + 1] == v[i] + 1 {
        run_end(v, i + 1)
    } else {
        i
    }
}

/// A run of channels as it is written.
pub open spec fn run_text(a: int, b: int) -> Seq<char> {
    if a == b {
        decimal(a)
    } else {
        decimal(a) + "-"@ + decimal(b)
    }
}

proof fn lemma_run_end(v: Seq<u16>, i: int)
    requires
        0 <= i < v.len(),
    ensures
        i <= run_end(v, i) < v.len(),
        v[run_end(v, i)] - v[i] == run_end(v, i) - i,
    decreases v.len() - i,
{
    if i + 1 < v.len() && v[i + 1] == v[i] + 1 {
        lemma_run_end(v, i + 1);
    }
}

/// The runs of channels from `i` on.
pub open spec fn runs_from(v: Seq<u16>, i: int) -> Seq<Seq<char>>
    decreases v.len() - i,
    when 0 <= i
    via runs_decrease
{
    if i >= v.len() {
        Seq::empty()
    } else {
        let e = run_end(v, i);
        seq![run_text(v[i] as int, v[e] as int)] + runs_from(v, e + 1)
    }
}

#[via_fn]
proof fn runs_decrease(v: Seq<u16>, i: int) {
    if 0 <= i < v.len() {
        lemma_run_end(v, i);
    }
}

/// The allowed channels, written the way a person reads them: "1-11, 36, 40-48".
pub fn channel_ranges(chs: &[u16]) -> (s: String)
    ensures
        s@ == joined_by(runs_from(chs@, 0), ", "@),
{
    let mut parts: Vec<String> = Vec::new();
    let mut i: usize = 0;
    assert(texts(parts@) + runs_from(chs@, 0) =~= runs_from(chs@, 0));
    while i < chs.len()
        invariant
            i <= chs.len(),
            texts(parts@) + runs_from(chs@, i as int) == runs_from(chs@, 0),
        decreases chs.len() - i,
    {
        let mut e: usize = i;
        while e + 1 < chs.len() && chs[e + 1] as u32 == chs[e] as u32 + 1
            invariant
                i <= e < chs.len(),
                run_end(chs@, i as int) == run_end(chs@, e as int),
            decreases chs.len() - e,
        {
            e = e + 1;
        }
        let mut t = String::new();
        push_decimal(&mut t, chs[i] as u64);
        if chs[i] != chs[e] {
            t.append("-");
            push_decimal(&mut t, chs[e] as u64);
        }
        proof {
            lemma_run_end(chs@, i as int);
            assert(t@ =~= run_text(chs@[i as int] as int, chs@[e as int] as int));
        }
        let ghost before = parts@;
        parts.push(t);
        proof {
            assert(texts(parts@) =~= texts(before).push(t@));
            assert(texts(before) + (seq![t@] + runs_from(chs@, e + 1)) =~= texts(parts@)
                + runs_from(chs@, e + 1));
        }
        i = e + 1;
    }
    assert(texts(parts@) + runs_from(chs@, chs@.len() as int) =~= texts(parts@));
    join(&parts, ", ")
}

/// Whether a channel may be used: one of those the radio may speak on, or, where
/// that could not be asked, one that is allowed nearly everywhere.
pub open spec fn is_legal(ch: u16, allowed: Seq<u16>) -> bool {
    if allowed.len() == 0 {
        1 <= ch <= 13
    } else {
        allowed.contains(ch)
    }
}

/// Whether a channel may be used.
pub fn legal(ch: u16, allowed: &[u16]) -> (r: bool)
    ensures
        r == is_legal(ch, allowed@),
{
    if allowed.len() == 0 {
        return ch >= 1 && ch <= 13;
    }
    let mut i: usize = 0;
    while i < allowed.len()
        invariant
            i <= allowed.len(),
            allowed.len() > 0,
            forall|k: int| 0 <= k < i ==> allowed@[k] != ch,
        decreases allowed.len() - i,
    {
        if allowed[i] == ch {
            assert(allowed@[i as int] == ch);
            return true;
        }
        i = i + 1;
    }
    false
}

/// The band of a channel.
pub open spec fn band_of(ch: int) -> Seq<char> {
    if ch <= 14 {
        "2.4 GHz"@
    } else if ch <= 177 {
        "5 GHz"@
    } else {
        "6 GHz"@
    }
}

/// A channel for the screen: "2.4 GHz, channel 6".
pub fn describe_channel(ch: u32) -> (s: String)
    ensures
        s@ == band_of(ch as int) + ", channel "@ + decimal(ch as int),
{
    let mut s = String::new();
    if ch <= 14 {
        s.append("2.4 GHz");
    } else if ch <= 177 {
        s.append("5 GHz");
    } else {
        s.append("6 GHz");
    }
    s.append(", channel ");
    push_decimal(&mut s, ch as u64);
    assert(s@ =~= band_of(ch as int) + ", channel "@ + decimal(ch as int));
    s
}

// ------------------------------------------------------------- laws

/// A channel is read off the radio's report between its brackets, whatever is told of it
/// besides, unless it is told that it is disabled or may only be listened on.
pub proof fn law_a_channel_is_read_off_its_line(a: Seq<char>, n: u16, b: Seq<char>)
    requires
        !a.contains('['),
        b.len() > 0 ==> !is_space(b.last()),
    ensures
        ({
            let line = seq!['*'] + a + " MHz ["@ + decimal(n as int) + seq![']'] + b;
            let barred = holds(line, "disabled"@) || holds(line, "no IR"@);
            &&& !barred ==> channel_on(line) == Some(n as int)
            &&& barred ==> channel_on(line) is None
        }),
{
    reveal_strlit(" MHz [");
    let d = decimal(n as int);
    let mhz = " MHz ["@;
    let line = seq!['*'] + a + mhz + d + seq![']'] + b;
    law_decimal_reads_back(n as int, 65535);
    assert(line[0] == '*');
    if b.len() == 0 {
        assert(line.last() == ']');
    } else {
        assert(line.last() == b.last());
    }
    lemma_nothing_to_trim(line);
    assert(line =~= (seq!['*'] + a) + mhz + (d + seq![']'] + b));
    lemma_holds_middle(seq!['*'] + a, mhz, d + seq![']'] + b);
    let open = a.len() + 6;
    assert(line[open as int] == '[') by {
        assert(line[open as int] == mhz[5]);
    }
    assert forall|j: int| 0 <= j < open implies line[j] != '[' by {
        if 0 < j <= a.len() {
            assert(line[j] == a[j - 1]);
            assert(a.contains(a[j - 1]));
        } else if j > a.len() {
            assert(line[j] == mhz[j - a.len() - 1]);
        }
    }
    lemma_char_at_is(line, '[', open as int);
    let rest = line.skip(open as int);
    let close = d.len() + 1;
    assert(rest =~= seq!['['] + d + seq![']'] + b);
    assert forall|j: int| 0 <= j < close implies rest[j] != ']' by {
        if j > 0 {
            assert(rest[j] == d[j - 1]);
        }
    }
    lemma_char_at_is(rest, ']', close as int);
    assert(rest.subrange(1, close as int) =~= d);
}

/// Channels that follow one another are written as one run, from the first to the last of
/// them, and a run ends where the next channel is not the next number.
pub proof fn law_a_run_is_as_long_as_it_goes(v: Seq<u16>, i: int)
    requires
        0 <= i < v.len(),
    ensures
        ({
            let e = run_end(v, i);
            let w = runs_from(v, i);
            &&& i <= e < v.len()
            &&& forall|j: int| i <= j <= e ==> #[trigger] v[j] == v[i] + (j - i)
            &&& e + 1 < v.len() ==> v[e + 1] != v[e] + 1
            &&& w.len() > 0
            &&& e == i ==> w[0] == decimal(v[i] as int)
            &&& e > i ==> w[0] == decimal(v[i] as int) + seq!['-'] + decimal(v[e] as int)
            &&& w.skip(1) == runs_from(v, e + 1)
        }),
        runs_from(v, v.len() as int).len() == 0,
    decreases v.len() - i,
{
    reveal_strlit("-");
    assert("-"@ =~= seq!['-']);
    lemma_run_end(v, i);
    lemma_run_goes_on(v, i);
    let e = run_end(v, i);
    assert(runs_from(v, i).skip(1) =~= runs_from(v, e + 1));
}

proof fn lemma_run_goes_on(v: Seq<u16>, i: int)
    requires
        0 <= i < v.len(),
    ensures
        forall|j: int| i <= j <= run_end(v, i) ==> #[trigger] v[j] == v[i] + (j - i),
        run_end(v, i) + 1 < v.len() ==> v[run_end(v, i) + 1] != v[run_end(v, i)] + 1,
    decreases v.len() - i,
{
    if i + 1 < v.len() && v[i + 1] == v[i] + 1 {
        lemma_run_goes_on(v, i + 1);
    }
}

/// Where the radio says which channels it may speak on, those are legal and no others;
/// where it says nothing, the first thirteen are.
pub proof fn law_what_the_radio_allows_is_legal(ch: u16, allowed: Seq<u16>, i: int)
    ensures
        0 <= i < allowed.len() ==> is_legal(allowed[i], allowed),
        allowed.len() > 0 && (forall|j: int| 0 <= j < allowed.len() ==> #[trigger] allowed[j] != ch)
            ==> !is_legal(ch, allowed),
        allowed.len() == 0 ==> (is_legal(ch, allowed) <==> ch != 0 && ch < 14),
{
}

/// A channel's band is told by its number: fourteen channels lie at 2.4 GHz, those above
/// them up to 177 at 5 GHz, and the rest at 6.
pub proof fn law_bands_are_told_by_number(ch: int)
    ensures
        ch < 15 ==> band_of(ch)[0] == '2' && band_of(ch)[1] == '.' && band_of(ch)[2] == '4',
        15 <= ch < 178 ==> band_of(ch)[0] == '5' && band_of(ch)[1] == ' ',
        178 <= ch ==> band_of(ch)[0] == '6' && band_of(ch)[1] == ' ',
{
    reveal_strlit("2.4 GHz");
    reveal_strlit("5 GHz");
    reveal_strlit("6 GHz");
}

} // verus!
