//! Paths as they come in a request.

use crate::bytes::{lossy, lossy_text};
use crate::number::{digit_of, digits_value, hex_byte, parse_radix, push_hex_byte, unsigned};
use crate::text::{
    char_at, chars_of, cut, is_text, lemma_char_at, lemma_char_at_is, one_of, pieces, split_char,
    string_of, stripped_start, texts, views,
};
use vstd::prelude::*;
use vstd::utf8::{
    decode_utf8, encode_scalar, encode_utf8, encode_utf8_decode_utf8, encode_utf8_valid_utf8,
    is_ascii_chars, is_ascii_chars_concat, is_ascii_chars_encode_utf8, valid_utf8,
};

verus! {

/// The byte that two hexadecimal digits after a percent sign stand for.
pub open spec fn hex_pair(a: u8, b: u8) -> Option<int> {
    unsigned(seq![a as char, b as char], 16, 255)
}

/// The bytes of a text with every percent sign that two hexadecimal digits
/// follow replaced by the byte they stand for, from `i` on.
pub open spec fn unescaped_from(s: Seq<u8>, i: int) -> Seq<u8>
    decreases s.len() - i,
{
    if i >= s.len() {
        Seq::empty()
    } else if s[i] == 0x25 && i + 2 < s.len() && hex_pair(s[i + 1], s[i + 2]) is Some {
        seq![hex_pair(s[i + 1], s[i + 2])->0 as u8] + unescaped_from(s, i + 3)
    } else {
        seq![s[i]] + unescaped_from(s, i + 1)
    }
}

/// The bytes that a percent-encoded text stands for.
pub open spec fn unescaped(s: Seq<char>) -> Seq<u8> {
    unescaped_from(encode_utf8(s), 0)
}

/// Undo percent-encoding.
pub fn percent_decode(s: &str) -> (out: String)
    ensures
        out@ == lossy(unescaped(s@)),
        valid_utf8(unescaped(s@)) ==> out@ == decode_utf8(unescaped(s@)),
{
    let b: &[u8] = s.as_bytes();
    let mut out: Vec<u8> = Vec::new();
    let mut i: usize = 0;
    assert(out@ + unescaped_from(b@, 0) =~= unescaped_from(b@, 0));
    while i < b.len()
        invariant
            b@ == encode_utf8(s@),
            i <= b.len(),
            out@ + unescaped_from(b@, i as int) == unescaped(s@),
        decreases b.len() - i,
    {
        let ghost before = out@;
        let mut decoded: Option<u64> = None;
        if b[i] == 0x25 && b.len() - i > 2 {
            let pair: [char; 2] = [b[i + 1] as char, b[i + 2] as char];
            assert(pair@ =~= seq![b@[i + 1] as char, b@[i + 2] as char]);
            decoded = parse_radix(pair.as_slice(), 16, 255);
        }
        match decoded {
            Some(v) => {
                out.push(v as u8);
                assert(out@ + unescaped_from(b@, i + 3) =~= before + (seq![v as u8]
                    + unescaped_from(b@, i + 3)));
                i = i + 3;
            },
            None => {
                out.push(b[i]);
                assert(out@ + unescaped_from(b@, i + 1) =~= before + (seq![b@[i as int]]
                    + unescaped_from(b@, i + 1)));
                i = i + 1;
            },
        }
    }
    assert(out@ =~= unescaped(s@));
    lossy_text(out.as_slice())
}

/// Whether a byte stands for itself in a path.
pub open spec fn plain_byte(b: u8) -> bool {
    ||| 0x61 <= b <= 0x7a
    ||| 0x41 <= b <= 0x5a
    ||| 0x30 <= b <= 0x39
    ||| b == 0x2d
    ||| b == 0x5f
    ||| b == 0x2e
    ||| b == 0x7e
}

/// One byte of a text, percent-encoded where it has to be.
pub open spec fn escaped_byte(b: u8) -> Seq<char> {
    if plain_byte(b) {
        seq![b as char]
    } else {
        seq!['%'] + hex_byte(b, true)
    }
}

/// Bytes, percent-encoded where they have to be.
pub open spec fn escaped_bytes(s: Seq<u8>) -> Seq<char>
    decreases s.len(),
{
    if s.len() == 0 {
        Seq::empty()
    } else {
        escaped_bytes(s.drop_last()) + escaped_byte(s.last())
    }
}

/// Percent-encode a text.
pub fn urlencode(s: &str) -> (out: String)
    ensures
        out@ == escaped_bytes(encode_utf8(s@)),
{
    let b: &[u8] = s.as_bytes();
    let mut out = String::new();
    let mut i: usize = 0;
    assert(b@.take(0) =~= Seq::<u8>::empty());
    while i < b.len()
        invariant
            b@ == encode_utf8(s@),
            i <= b.len(),
            out@ == escaped_bytes(b@.take(i as int)),
        decreases b.len() - i,
    {
        let c: u8 = b[i];
        let ghost before = out@;
        let plain: bool = (c >= 0x61 && c <= 0x7a) || (c >= 0x41 && c <= 0x5a) || (c >= 0x30 && c
            <= 0x39) || c == 0x2d || c == 0x5f || c == 0x2e || c == 0x7e;
        if plain {
            out.push(c as char);
        } else {
            out.push('%');
            push_hex_byte(&mut out, c, true);
        }
        assert(b@.take(i + 1).drop_last() =~= b@.take(i as int));
        assert(out@ =~= before + escaped_byte(c));
        i = i + 1;
    }
    assert(b@.take(b@.len() as int) =~= b@);
    out
}

proof fn lemma_escaped_ascii(s: Seq<u8>)
    ensures
        is_ascii_chars(escaped_bytes(s)),
    decreases s.len(),
{
    if s.len() > 0 {
        lemma_escaped_ascii(s.drop_last());
        let head = escaped_bytes(s.drop_last());
        let e = escaped_byte(s.last());
        assert(is_ascii_chars(e));
        is_ascii_chars_concat(head + e, head, e);
    }
}

/// Some bytes percent-encoded, as bytes again.
spec fn wire(s: Seq<u8>) -> Seq<u8> {
    Seq::new(escaped_bytes(s).len(), |i: int| escaped_bytes(s)[i] as u8)
}

proof fn lemma_hex_pair(b: u8)
    ensures
        hex_pair(hex_byte(b, true)[0] as u8, hex_byte(b, true)[1] as u8) == Some(b as int),
{
    let h = hex_byte(b, true);
    let s = seq![h[0], h[1]];
    assert((h[0] as u8) as char == h[0]);
    assert((h[1] as u8) as char == h[1]);
    assert(seq![(h[0] as u8) as char, (h[1] as u8) as char] =~= s);
    assert(digit_of(h[0], 16) == Some(b as int / 16));
    assert(digit_of(h[1], 16) == Some(b as int % 16));
    assert(s.drop_last() =~= seq![h[0]]);
    assert(s.drop_last().drop_last() =~= Seq::<char>::empty());
    assert(digits_value(s.drop_last().drop_last(), 16) == Some(0int));
    assert(digits_value(s.drop_last(), 16) == Some(b as int / 16));
    assert(digits_value(s, 16) == Some(b as int));
}

proof fn lemma_escaped_first(s: Seq<u8>)
    requires
        s.len() > 0,
    ensures
        escaped_bytes(s) == escaped_byte(s[0]) + escaped_bytes(s.skip(1)),
    decreases s.len(),
{
    if s.len() == 1 {
        assert(s.drop_last() =~= Seq::<u8>::empty());
        assert(s.skip(1) =~= Seq::<u8>::empty());
        assert(escaped_bytes(s) =~= escaped_byte(s[0]) + escaped_bytes(s.skip(1)));
    } else {
        lemma_escaped_first(s.drop_last());
        assert(s.drop_last().skip(1) =~= s.skip(1).drop_last());
        assert(escaped_bytes(s) =~= escaped_byte(s[0]) + escaped_bytes(s.skip(1)));
    }
}

proof fn lemma_unescaped_shift(s: Seq<u8>, i: int)
    requires
        0 <= i <= s.len(),
    ensures
        unescaped_from(s, i) == unescaped_from(s.skip(i), 0),
    decreases s.len() - i,
{
    if i < s.len() {
        let t = s.skip(i);
        if s[i] == 0x25 && i + 2 < s.len() && hex_pair(s[i + 1], s[i + 2]) is Some {
            lemma_unescaped_shift(s, i + 3);
            lemma_unescaped_shift(t, 3);
            assert(t.skip(3) =~= s.skip(i + 3));
        } else {
            lemma_unescaped_shift(s, i + 1);
            lemma_unescaped_shift(t, 1);
            assert(t.skip(1) =~= s.skip(i + 1));
        }
    }
}

proof fn lemma_wire_undone(s: Seq<u8>)
    ensures
        unescaped_from(wire(s), 0) == s,
    decreases s.len(),
{
    let w = wire(s);
    if s.len() == 0 {
        assert(unescaped_from(w, 0) =~= s);
    } else {
        let rest = s.skip(1);
        lemma_escaped_first(s);
        lemma_wire_undone(rest);
        let e = escaped_byte(s[0]);
        assert(w.skip(e.len() as int) =~= wire(rest));
        lemma_unescaped_shift(w, e.len() as int);
        assert(w[0] == e[0] as u8);
        if plain_byte(s[0]) {
            assert(w[0] == s[0]);
        } else {
            lemma_hex_pair(s[0]);
            assert(w[1] == hex_byte(s[0], true)[0] as u8);
            assert(w[2] == hex_byte(s[0], true)[1] as u8);
        }
        assert(seq![s[0]] + rest =~= s);
    }
}

/// A file name put into a link comes back out of the request for it.
pub proof fn law_link_leads_back(name: Seq<char>)
    ensures
        unescaped(escaped_bytes(encode_utf8(name))) == encode_utf8(name),
        valid_utf8(unescaped(escaped_bytes(encode_utf8(name)))),
        decode_utf8(unescaped(escaped_bytes(encode_utf8(name)))) == name,
{
    let b = encode_utf8(name);
    let t = escaped_bytes(b);
    lemma_escaped_ascii(b);
    is_ascii_chars_encode_utf8(t);
    assert(encode_utf8(t) =~= wire(b));
    lemma_wire_undone(b);
    encode_utf8_valid_utf8(name);
    encode_utf8_decode_utf8(name);
}

// ------------------------------------------------------------- inside the folder

/// The pieces of a path that name something.
pub open spec fn named(ps: Seq<Seq<char>>) -> Seq<Seq<char>>
    decreases ps.len(),
{
    if ps.len() == 0 {
        ps
    } else {
        let head = named(ps.drop_last());
        if ps.last().len() == 0 {
            head
        } else {
            head.push(ps.last())
        }
    }
}

/// How the system that holds the served folder reads the names in it.
#[derive(Clone, Copy, PartialEq, Eq, Structural, Debug)]
pub struct Naming {
    /// Whether the other slash, and the colon behind a drive, are more than part of a name.
    pub windows: bool,
    /// Whether names that differ only in case are one name.
    pub any_case: bool,
}

/// Whether a name holds what the system takes for more than a name: on Windows the other
/// slash, or the colon behind a drive.
pub open spec fn strays(p: Seq<char>, windows: bool) -> bool {
    windows && (p.contains('\\') || p.contains(':'))
}

/// Whether a piece of a path stands for another folder than the one it names, or may.
pub open spec fn traverses(p: Seq<char>, windows: bool) -> bool {
    p == ".."@ || p == "."@ || strays(p, windows)
}

/// Whether a name holds what the system takes for more than a name.
pub fn is_stray(p: &[char], windows: bool) -> (r: bool)
    ensures
        r == strays(p@, windows),
{
    windows && (one_of('\\', p) || one_of(':', p))
}

/// The way from the served folder to what a path names, or nothing where the
/// path tries to leave.
pub open spec fn way_to(rel: Seq<char>, windows: bool) -> Option<Seq<Seq<char>>> {
    let segs = named(pieces(rel, '/'));
    if exists|i: int| 0 <= i < segs.len() && traverses(#[trigger] segs[i], windows) {
        None
    } else {
        Some(segs)
    }
}

/// What an optional list of texts holds.
pub open spec fn way_view(w: Option<Vec<String>>) -> Option<Seq<Seq<char>>> {
    match w {
        Some(v) => Some(texts(v@)),
        None => None,
    }
}

/// The steps from the served folder to what a path names; no traversal, at all.
pub fn safe_join(rel: &str, windows: bool) -> (way: Option<Vec<String>>)
    ensures
        way_view(way) == way_to(rel@, windows),
{
    let chars: Vec<char> = chars_of(rel);
    let ps: Vec<&[char]> = split_char(chars.as_slice(), '/');
    let ghost all = pieces(rel@, '/');
    let mut way: Vec<String> = Vec::new();
    let mut bad: bool = false;
    let mut i: usize = 0;
    assert(all.take(0) =~= Seq::empty());
    assert(texts(way@) =~= Seq::empty());
    while i < ps.len()
        invariant
            i <= ps.len(),
            views(ps@) == all,
            texts(way@) == named(all.take(i as int)),
            bad == exists|k: int|
                0 <= k < way.len() && traverses(#[trigger] texts(way@)[k], windows),
        decreases ps.len() - i,
    {
        assert(all.take(i + 1).drop_last() =~= all.take(i as int));
        assert(all[i as int] == ps@[i as int]@);
        let seg: &[char] = ps[i];
        if seg.len() > 0 {
            let ghost before = way@;
            let ghost was = bad;
            way.push(string_of(seg));
            assert(texts(way@) =~= texts(before).push(seg@));
            if is_text(seg, "..") || is_text(seg, ".") || is_stray(seg, windows) {
                bad = true;
                assert(traverses(texts(way@)[way.len() - 1], windows));
            }
            proof {
                if was {
                    let k = choose|k: int|
                        0 <= k < before.len() && traverses(#[trigger] texts(before)[k], windows);
                    assert(texts(way@)[k] == texts(before)[k]);
                }
                if exists|k: int|
                    0 <= k < way.len() && traverses(#[trigger] texts(way@)[k], windows) {
                    let k = choose|k: int|
                        0 <= k < way.len() && traverses(#[trigger] texts(way@)[k], windows);
                    if k < before.len() {
                        assert(texts(before)[k] == texts(way@)[k]);
                    }
                }
            }
        }
        i = i + 1;
    }
    assert(all.take(all.len() as int) =~= all);
    if bad {
        None
    } else {
        Some(way)
    }
}

proof fn lemma_named_concat(a: Seq<Seq<char>>, b: Seq<Seq<char>>)
    ensures
        named(a + b) == named(a) + named(b),
    decreases b.len(),
{
    if b.len() == 0 {
        assert(a + b =~= a);
        assert(named(a) + named(b) =~= named(a));
    } else {
        assert((a + b).drop_last() =~= a + b.drop_last());
        lemma_named_concat(a, b.drop_last());
        assert(named(a + b) =~= named(a) + named(b));
    }
}

proof fn lemma_named_one(p: Seq<char>)
    ensures
        named(seq![p]) == (if p.len() == 0 {
            Seq::empty()
        } else {
            seq![p]
        }),
{
    assert(seq![p].drop_last() =~= Seq::empty());
    assert(named(seq![p].drop_last()) =~= Seq::empty());
    assert(named(seq![p]) =~= (if p.len() == 0 {
        Seq::empty()
    } else {
        seq![p]
    }));
}

/// Leading slashes name nothing.
pub proof fn lemma_leading_slashes(s: Seq<char>)
    ensures
        named(pieces(s, '/')) == named(pieces(stripped_start(s, seq!['/']), '/')),
    decreases s.len(),
{
    let set = seq!['/'];
    assert(set[0] == '/');
    if s.len() > 0 && set.contains(s[0]) {
        lemma_char_at_is(s, '/', 0);
        let rest = s.skip(1);
        assert(pieces(s, '/') == seq![s.take(0)] + pieces(rest, '/'));
        lemma_named_concat(seq![s.take(0)], pieces(rest, '/'));
        lemma_named_one(s.take(0));
        assert(named(pieces(s, '/')) =~= named(pieces(rest, '/')));
        lemma_leading_slashes(rest);
    }
}

/// The first thing a path names, if it names anything, is what stands before the
/// first slash once the leading ones are off.
pub proof fn lemma_first_named(s: Seq<char>)
    ensures
        ({
            let rel = stripped_start(s, seq!['/']);
            let first = match cut(rel, '/') {
                Some((a, _)) => a,
                None => rel,
            };
            let segs = named(pieces(s, '/'));
            &&& segs.len() > 0 ==> segs[0] == first && first.len() > 0
            &&& segs.len() == 0 ==> first.len() == 0
        }),
{
    let set = seq!['/'];
    let rel = stripped_start(s, set);
    lemma_leading_slashes(s);
    lemma_char_at(rel, '/');
    lemma_no_leading_slash(s);
    let k = char_at(rel, '/');
    if k < rel.len() {
        assert(k > 0);
        let rest = pieces(rel.skip(k + 1), '/');
        assert(pieces(rel, '/') == seq![rel.take(k)] + rest);
        lemma_named_concat(seq![rel.take(k)], rest);
        lemma_named_one(rel.take(k));
        assert(named(pieces(rel, '/'))[0] == rel.take(k));
    } else {
        lemma_named_one(rel);
    }
}

proof fn lemma_no_leading_slash(s: Seq<char>)
    ensures
        ({
            let rel = stripped_start(s, seq!['/']);
            rel.len() > 0 ==> rel[0] != '/'
        }),
    decreases s.len(),
{
    let set = seq!['/'];
    assert(set[0] == '/');
    if s.len() > 0 && set.contains(s[0]) {
        lemma_no_leading_slash(s.skip(1));
    } else if s.len() > 0 {
        assert(set.contains('/'));
    }
}

proof fn lemma_pieces_hold_none(s: Seq<char>, c: char, i: int)
    requires
        0 <= i < pieces(s, c).len(),
    ensures
        !pieces(s, c)[i].contains(c),
    decreases s.len(),
{
    lemma_char_at(s, c);
    let k = char_at(s, c);
    if k < s.len() {
        if i > 0 {
            lemma_pieces_hold_none(s.skip(k + 1), c, i - 1);
        }
    }
}

proof fn lemma_named_from(ps: Seq<Seq<char>>, i: int)
    requires
        0 <= i < named(ps).len(),
    ensures
        named(ps)[i].len() > 0,
        ps.contains(named(ps)[i]),
    decreases ps.len(),
{
    let head = named(ps.drop_last());
    if i < head.len() {
        lemma_named_from(ps.drop_last(), i);
        let x = named(ps)[i];
        let j = choose|j: int| 0 <= j < ps.drop_last().len() && ps.drop_last()[j] == x;
        assert(ps[j] == x);
    } else {
        assert(ps[ps.len() - 1] == named(ps)[i]);
    }
}

/// No path leads out of the served folder: every step on the way names something, goes
/// neither up nor nowhere, and holds no slash; on Windows it holds neither the other slash
/// nor the colon behind a drive.
pub proof fn law_no_path_leaves_the_folder(rel: Seq<char>, windows: bool, i: int)
    requires
        way_to(rel, windows) matches Some(way) && 0 <= i < way.len(),
    ensures
        ({
            let step = way_to(rel, windows)->0[i];
            &&& step.len() > 0
            &&& step != ".."@
            &&& step != "."@
            &&& !step.contains('/')
            &&& windows ==> !step.contains('\\') && !step.contains(':')
        }),
{
    let ps = pieces(rel, '/');
    let segs = named(ps);
    lemma_named_from(ps, i);
    let j = choose|j: int| 0 <= j < ps.len() && ps[j] == segs[i];
    lemma_pieces_hold_none(rel, '/', j);
    assert(!traverses(segs[i], windows));
}

/// A slash and a name that holds none lead to what is called so.
pub proof fn lemma_way_to_one(name: Seq<char>, windows: bool)
    requires
        name.len() > 0,
        !name.contains('/'),
        !traverses(name, windows),
    ensures
        way_to(seq!['/'] + name, windows) == Some(seq![name]),
        stripped_start(seq!['/'] + name, seq!['/']) == name,
        cut(name, '/') is None,
{
    let s = seq!['/'] + name;
    let set = seq!['/'];
    assert(set[0] == '/');
    assert(s.skip(1) =~= name);
    assert(set.contains(s[0]));
    if set.contains(name[0]) {
        assert(name[0] == '/');
        assert(false);
    }
    reveal_with_fuel(stripped_start, 2);
    lemma_leading_slashes(s);
    lemma_char_at_is(name, '/', name.len() as int);
    assert(pieces(name, '/') =~= seq![name]);
    lemma_named_one(name);
    assert(named(pieces(s, '/')) =~= seq![name]);
}

/// What was percent-encoded holds only what stands for itself, and percent signs.
pub proof fn lemma_escaped_plain(s: Seq<u8>, i: int)
    requires
        0 <= i < escaped_bytes(s).len(),
    ensures
        escaped_bytes(s)[i] == '%' || exists|b: u8|
            #[trigger] plain_byte(b) && escaped_bytes(s)[i] == b as char,
    decreases s.len(),
{
    let head = escaped_bytes(s.drop_last());
    let last = s.last();
    if i < head.len() {
        lemma_escaped_plain(s.drop_last(), i);
    } else if plain_byte(last) {
        assert(escaped_bytes(s)[i] == last as char);
    } else if i > head.len() {
        let c = hex_byte(last, true)[i - head.len() - 1];
        assert(escaped_bytes(s)[i] == c);
        assert(plain_byte(c as u8) && c == (c as u8) as char);
    }
}

/// A slash before what was percent-encoded stands for itself.
pub proof fn lemma_slash_and_link(name: Seq<char>)
    ensures
        unescaped(seq!['/'] + escaped_bytes(encode_utf8(name))) == encode_utf8(seq!['/'] + name),
        lossy(unescaped(seq!['/'] + escaped_bytes(encode_utf8(name)))) == seq!['/'] + name,
{
    let b = encode_utf8(name);
    let t = escaped_bytes(b);
    let slash = seq!['/'];
    lemma_escaped_ascii(b);
    is_ascii_chars_encode_utf8(t);
    assert(is_ascii_chars(slash));
    is_ascii_chars_concat(slash + t, slash, t);
    is_ascii_chars_encode_utf8(slash + t);
    is_ascii_chars_encode_utf8(slash);
    law_link_leads_back(name);
    let w = encode_utf8(slash + t);
    lemma_unescaped_shift(w, 1);
    assert(w.skip(1) =~= encode_utf8(t));
    assert(w[0] == 0x2f);
    assert(unescaped_from(w, 0) =~= seq![0x2fu8] + b);
    let whole = slash + name;
    assert(whole.drop_first() =~= name);
    assert(slash.drop_first() =~= Seq::<char>::empty());
    assert(encode_utf8(slash) =~= encode_scalar('/' as u32));
    assert(encode_utf8(slash) =~= seq![0x2fu8]);
    assert(encode_utf8(whole) =~= seq![0x2fu8] + b);
    encode_utf8_valid_utf8(slash + name);
    encode_utf8_decode_utf8(slash + name);
}

/// A link holds nothing but letters, digits, a few joiners and percent signs, whatever the
/// file is called.
pub proof fn law_links_hold_plain_characters(s: Seq<u8>)
    ensures
        forall|i: int|
            0 <= i < escaped_bytes(s).len() ==> {
                let c = #[trigger] escaped_bytes(s)[i];
                ||| 'a' <= c <= 'z'
                ||| 'A' <= c <= 'Z'
                ||| '0' <= c <= '9'
                ||| c == '-' || c == '_' || c == '.' || c == '~' || c == '%'
            },
    decreases s.len(),
{
    if s.len() > 0 {
        let front = escaped_bytes(s.drop_last());
        let e = escaped_byte(s.last());
        law_links_hold_plain_characters(s.drop_last());
        assert forall|i: int| 0 <= i < escaped_bytes(s).len() implies ({
            let c = #[trigger] escaped_bytes(s)[i];
            ||| 'a' <= c <= 'z'
            ||| 'A' <= c <= 'Z'
            ||| '0' <= c <= '9'
            ||| c == '-' || c == '_' || c == '.' || c == '~' || c == '%'
        }) by {
            if i < front.len() {
                assert(escaped_bytes(s)[i] == front[i]);
            } else {
                assert(escaped_bytes(s)[i] == e[i - front.len()]);
                if !plain_byte(s.last()) && i > front.len() {
                    assert(e[i - front.len()] == hex_byte(s.last(), true)[i - front.len() - 1]);
                }
            }
        }
    }
}

/// What holds no percent sign stands for itself.
pub proof fn law_what_is_not_encoded_stays(s: Seq<char>)
    requires
        forall|i: int| 0 <= i < encode_utf8(s).len() ==> #[trigger] encode_utf8(s)[i] != 0x25,
    ensures
        unescaped(s) == encode_utf8(s),
{
    lemma_no_percent(encode_utf8(s), 0);
    assert(encode_utf8(s).skip(0) =~= encode_utf8(s));
}

proof fn lemma_no_percent(b: Seq<u8>, i: int)
    requires
        0 <= i <= b.len(),
        forall|k: int| 0 <= k < b.len() ==> #[trigger] b[k] != 0x25,
    ensures
        unescaped_from(b, i) == b.skip(i),
    decreases b.len() - i,
{
    if i < b.len() {
        assert(b[i] != 0x25);
        lemma_no_percent(b, i + 1);
        assert(b.skip(i) =~= seq![b[i]] + b.skip(i + 1));
    } else {
        assert(b.skip(i) =~= Seq::<u8>::empty());
    }
}

/// Letters, digits and the four joiners stand in a link as they are.
pub proof fn law_plain_names_are_linked_as_they_are(s: Seq<u8>)
    requires
        forall|i: int|
            0 <= i < s.len() ==> (97 <= #[trigger] s[i] <= 122 || 65 <= s[i] <= 90 || 48 <= s[i] <= 57
                || s[i] == 45 || s[i] == 95 || s[i] == 46 || s[i] == 126),
    ensures
        escaped_bytes(s) == Seq::new(s.len(), |i: int| s[i] as char),
    decreases s.len(),
{
    if s.len() > 0 {
        let d = s.drop_last();
        assert forall|i: int| 0 <= i < d.len() implies (97 <= #[trigger] d[i] <= 122 || 65 <= d[i] <= 90
            || 48 <= d[i] <= 57 || d[i] == 45 || d[i] == 95 || d[i] == 46 || d[i] == 126) by {
            assert(d[i] == s[i]);
        }
        law_plain_names_are_linked_as_they_are(d);
        assert(plain_byte(s[s.len() - 1]));
    }
    assert(escaped_bytes(s) =~= Seq::new(s.len(), |i: int| s[i] as char));
}

} // verus!
