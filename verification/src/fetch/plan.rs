//! The pieces of a file: which there are, which are here, which to ask for.

use super::wire::{ask, law_request_is_understood};
use crate::number::{
    decimal, law_decimal_reads_back, lemma_decimal_not_empty, parse_decimal, push_decimal, unsigned,
};
use crate::serve::answers::{law_asked_for_is_sent, range_of};
use crate::serve::request::request_in;
use crate::text::{chars_of, is_space, lemma_first_word, split_words, views, words};
use std::collections::BTreeSet;
use vstd::prelude::*;
use vstd::std_specs::cmp::OrdSpec;
use vstd::std_specs::iter::IteratorSpec;

verus! {

broadcast use vstd::std_specs::btree::group_btree_axioms;

/// The size of a piece. A lost piece costs the whole of it, so it is small: on a
/// weak link this is twenty seconds thrown away, on a good one nothing.
pub const CHUNK: u64 = 2_097_152;

/// How many pieces a file of this length has.
pub open spec fn piece_count(total: int) -> int {
    (total + 2_097_151) / 2_097_152
}

/// How many pieces a file of this length has.
pub fn chunk_count(total: u64) -> (n: u64)
    ensures
        n == piece_count(total as int),
{
    let whole: u64 = total / CHUNK;
    if total % CHUNK == 0 {
        whole
    } else {
        whole + 1
    }
}

/// The first byte of a piece.
pub open spec fn piece_start(c: int) -> int {
    c * 2_097_152
}

/// One past the last byte of a piece.
pub open spec fn piece_end(c: int, total: int) -> int {
    if piece_start(c + 1) < total {
        piece_start(c + 1)
    } else {
        total
    }
}

/// The first and the last byte of a piece.
pub fn piece_range(c: u64, total: u64) -> (r: (u64, u64))
    requires
        c < piece_count(total as int),
    ensures
        r.0 == piece_start(c as int),
        r.1 == piece_end(c as int, total as int) - 1,
        r.0 <= r.1 < total,
{
    let start: u64 = c * CHUNK;
    let end: u64 = if total - start > CHUNK {
        start + CHUNK
    } else {
        total
    };
    (start, end - 1)
}

/// How many bytes of a file of this length lie in a piece, none where it lies
/// behind the end.
pub fn piece_len(c: u64, total: u64) -> (n: u64)
    ensures
        n == (if piece_start(c as int) < total {
            piece_end(c as int, total as int) - piece_start(c as int)
        } else {
            0
        }),
{
    if c < chunk_count(total) {
        let (start, last) = piece_range(c, total);
        last - start + 1
    } else {
        0
    }
}

/// Every byte of a file lies in exactly one of its pieces, and a piece holds no
/// byte beyond the file.
pub proof fn law_pieces_cover_the_file(total: int, byte: int)
    requires
        0 <= byte < total,
    ensures
        ({
            let c = byte / 2_097_152;
            &&& 0 <= c < piece_count(total)
            &&& piece_start(c) <= byte < piece_end(c, total) <= total
            &&& forall|d: int|
                0 <= d < piece_count(total) && #[trigger] piece_start(d) <= byte < piece_end(
                    d,
                    total,
                ) ==> d == c
        }),
{
}

/// The piece that is asked for is the piece that this program's own server
/// sends.
pub proof fn law_piece_asked_for_is_sent(path: Seq<char>, host: Seq<char>, c: int, total: u64)
    requires
        0 <= c < piece_count(total as int),
        path.len() > 0,
        forall|i: int| 0 <= i < path.len() ==> !is_space(#[trigger] path[i]) && path[i] != '?',
        forall|i: int| 0 <= i < host.len() ==> #[trigger] host[i] != '\n',
    ensures
        ({
            let a = piece_start(c);
            let b = piece_end(c, total as int) - 1;
            let r = request_in(ask(path, host, Some((a as u64, b as u64))));
            &&& r.path == path
            &&& r.range is Some
            &&& range_of(r.range.unwrap(), total as int) == Some((a, b))
        }),
{
    let a = piece_start(c);
    let b = piece_end(c, total as int) - 1;
    law_request_is_understood(path, host, a as u64, b as u64);
    law_asked_for_is_sent(a, b, total as int);
}

// ------------------------------------------------------------- what is here

/// The pieces that a record claims: the numbers among its words.
pub open spec fn claimed(record: Seq<char>) -> Set<u64> {
    Set::new(
        |c: u64|
            exists|i: int|
                0 <= i < words(record).len() && unsigned(
                    #[trigger] words(record)[i],
                    10,
                    u64::MAX as int,
                ) == Some(c as int),
    )
}

/// Whether a piece can be here at all: the file was long enough to hold it.
pub open spec fn can_be_here(c: int, existing: int, total: int) -> bool {
    existing >= piece_end(c, total)
}

fn fits(c: u64, existing: u64, total: u64) -> (r: bool)
    ensures
        r == can_be_here(c as int, existing as int, total as int),
{
    let end: u128 = (c as u128 + 1) * 2_097_152;
    if end < total as u128 {
        existing as u128 >= end
    } else {
        existing >= total
    }
}

/// Read a record of pieces, which is only a claim.
pub fn claimed_pieces(record: &str) -> (s: BTreeSet<u64>)
    ensures
        s@ == claimed(record@),
{
    let c: Vec<char> = chars_of(record);
    let ws: Vec<&[char]> = split_words(c.as_slice());
    let ghost all = words(record@);
    let mut s: BTreeSet<u64> = BTreeSet::new();
    let mut i: usize = 0;
    while i < ws.len()
        invariant
            views(ws@) == all,
            i <= ws.len(),
            forall|c: u64| #[trigger]
                s@.contains(c) <==> exists|k: int|
                    0 <= k < i && unsigned(#[trigger] all[k], 10, u64::MAX as int) == Some(
                        c as int,
                    ),
        decreases ws.len() - i,
    {
        assert(views(ws@)[i as int] == ws@[i as int]@);
        let ghost before = s@;
        match parse_decimal(ws[i], u64::MAX) {
            Some(n) => {
                s.insert(n);
                assert(s@ == before.insert(n));
                assert(unsigned(all[i as int], 10, u64::MAX as int) == Some(n as int));
            },
            None => {},
        }
        i = i + 1;
    }
    assert(s@ =~= claimed(record@));
    s
}

/// The claimed pieces that the file was long enough to hold. It costs nothing to
/// check, so a record is never believed about more than that.
pub fn kept_pieces(claims: &BTreeSet<u64>, existing: u64, total: u64) -> (s: BTreeSet<u64>)
    ensures
        s@ == claims@.filter(|c: u64| can_be_here(c as int, existing as int, total as int)),
{
    let mut s: BTreeSet<u64> = BTreeSet::new();
    let ghost keep = |c: u64| can_be_here(c as int, existing as int, total as int);
    for c in it: claims.iter()
        invariant
            keep == (|c: u64| can_be_here(c as int, existing as int, total as int)),
            it.seq().unref().to_set() == claims@,
            s@ == it.seq().unref().take(it.index() as int).to_set().filter(keep),
    {
        let ghost seen = it.seq().unref();
        let ghost before = s@;
        if fits(*c, existing, total) {
            s.insert(*c);
        }
        proof {
            let n = it.index() as int;
            let now = seen.take(n);
            let next = seen.take(n + 1);
            assert(next =~= now.push(*c));
            assert forall|x: u64| next.contains(x) <==> (now.contains(x) || x == *c) by {
                if now.contains(x) {
                    let k = choose|k: int| 0 <= k < now.len() && now[k] == x;
                    assert(next[k] == x);
                }
                assert(next[n] == *c);
                if next.contains(x) && x != *c {
                    let k = choose|k: int| 0 <= k < next.len() && next[k] == x;
                    assert(now[k] == x);
                }
            }
            assert(next.to_set() =~= now.to_set().insert(*c));
            assert(s@ =~= seen.take(n + 1).to_set().filter(keep));
        }
    }
    let ghost whole = claims.iter().remaining().unref();
    assert(whole.take(whole.len() as int) =~= whole);
    s
}

/// The pieces below `n` that are not here, in order.
pub open spec fn missing(n: int, done: Set<u64>) -> Seq<u64>
    decreases n,
{
    if n <= 0 {
        Seq::empty()
    } else if done.contains((n - 1) as u64) {
        missing(n - 1, done)
    } else {
        missing(n - 1, done).push((n - 1) as u64)
    }
}

/// The pieces that are to be fetched, in order.
pub fn pieces_to_fetch(chunks: u64, done: &BTreeSet<u64>) -> (q: Vec<u64>)
    ensures
        q@ == missing(chunks as int, done@),
{
    let mut q: Vec<u64> = Vec::new();
    let mut c: u64 = 0;
    while c < chunks
        invariant
            c <= chunks,
            q@ == missing(c as int, done@),
        decreases chunks - c,
    {
        if !done.contains(&c) {
            q.push(c);
        }
        c = c + 1;
    }
    q
}

/// What is asked for is exactly what is not here, each piece once.
pub proof fn law_exactly_the_missing_pieces_are_fetched(n: int, done: Set<u64>)
    requires
        0 <= n <= u64::MAX,
    ensures
        forall|c: u64| #[trigger] missing(n, done).contains(c) <==> c < n && !done.contains(c),
        missing(n, done).no_duplicates(),
    decreases n,
{
    if n > 0 {
        law_exactly_the_missing_pieces_are_fetched(n - 1, done);
        let m = missing(n - 1, done);
        let c = (n - 1) as u64;
        assert(!m.contains(c));
        if !done.contains(c) {
            let q = m.push(c);
            assert(q[m.len() as int] == c);
            assert forall|x: u64| #[trigger] q.contains(x) <==> x < n && !done.contains(x) by {
                if m.contains(x) {
                    let k = choose|k: int| 0 <= k < m.len() && m[k] == x;
                    assert(q[k] == x);
                }
                if q.contains(x) && x != c {
                    let k = choose|k: int| 0 <= k < q.len() && q[k] == x;
                    assert(m[k] == x);
                }
            }
            assert forall|i: int, j: int| 0 <= i < j < q.len() implies q[i] != q[j] by {
                if j == m.len() {
                    assert(m.contains(m[i]));
                }
            }
        }
    }
}

/// The pieces that are here once those that proved damaged have been taken out.
pub fn without_damaged(done: BTreeSet<u64>, damaged: &Vec<u64>) -> (s: BTreeSet<u64>)
    ensures
        s@ == done@.difference(damaged@.to_set()),
{
    let mut s: BTreeSet<u64> = done;
    let mut i: usize = 0;
    assert(damaged@.take(0).to_set() =~= Set::empty());
    assert(s@ =~= done@.difference(damaged@.take(0).to_set()));
    while i < damaged.len()
        invariant
            i <= damaged.len(),
            s@ == done@.difference(damaged@.take(i as int).to_set()),
        decreases damaged.len() - i,
    {
        let c: u64 = damaged[i];
        let ghost now = damaged@.take(i as int);
        let ghost next = damaged@.take(i + 1);
        s.remove(&c);
        proof {
            assert(next =~= now.push(c));
            assert forall|x: u64| next.contains(x) <==> (now.contains(x) || x == c) by {
                if now.contains(x) {
                    let k = choose|k: int| 0 <= k < now.len() && now[k] == x;
                    assert(next[k] == x);
                }
                assert(next[i as int] == c);
            }
            assert(s@ =~= done@.difference(next.to_set()));
        }
        i = i + 1;
    }
    assert(damaged@.take(damaged@.len() as int) =~= damaged@);
    s
}

/// A recorded piece that proves damaged is fetched again, and what was here and is whole
/// is not.
pub proof fn law_damaged_pieces_are_fetched_again(
    total: u64,
    done: Set<u64>,
    damaged: Seq<u64>,
    c: u64,
)
    requires
        c < piece_count(total as int),
    ensures
        missing(piece_count(total as int), done.difference(damaged.to_set())).contains(c) == (
        damaged.contains(c) || !done.contains(c)),
{
    law_exactly_the_missing_pieces_are_fetched(
        piece_count(total as int),
        done.difference(damaged.to_set()),
    );
}

// ------------------------------------------------------------- the record

/// Numbers, one on each line.
pub open spec fn numbered(order: Seq<u64>) -> Seq<char>
    decreases order.len(),
{
    if order.len() == 0 {
        Seq::empty()
    } else {
        numbered(order.drop_last()) + decimal(order.last() as int) + seq!['\n']
    }
}

proof fn lemma_increasing(s: Seq<&u64>)
    requires
        vstd::std_specs::btree::increasing_seq(s),
    ensures
        forall|i: int, j: int| 0 <= i < j < s.len() ==> *s[i] < *s[j],
{
    broadcast use vstd::laws_cmp::group_laws_cmp;

    assert(vstd::laws_cmp::obeys_cmp::<&u64>());
    assert forall|i: int, j: int| 0 <= i < j < s.len() implies *s[i] < *s[j] by {
        assert(OrdSpec::cmp_spec(&s[i], &s[j]) is Less);
    }
}

/// The record of the pieces that are here: one on each line, in order.
pub fn record_text(done: &BTreeSet<u64>) -> (s: String)
    ensures
        exists|order: Seq<u64>| #[trigger]
            numbered(order) == s@ && order.to_set() == done@ && (forall|i: int, j: int|
                0 <= i < j < order.len() ==> order[i] < order[j]),
{
    let mut s = String::new();
    let ghost mut order: Seq<u64> = Seq::empty();
    let ghost whole = done.iter().remaining().unref();
    assert(whole.take(0) =~= order);
    for c in it: done.iter()
        invariant
            it.seq().unref().to_set() == done@,
            vstd::std_specs::btree::increasing_seq(it.seq()),
            whole == it.seq().unref(),
            order == it.seq().unref().take(it.index() as int),
            s@ == numbered(order),
    {
        push_decimal(&mut s, *c);
        s.push('\n');
        proof {
            let before = order;
            order = order.push(*c);
            assert(order.drop_last() =~= before);
            assert(order =~= it.seq().unref().take(it.index() as int + 1));
            assert(s@ =~= numbered(order));
        }
    }
    assert(order =~= whole);
    proof {
        lemma_increasing(done.iter().remaining());
    }
    s
}

proof fn lemma_numbered_words(order: Seq<u64>, rest: Seq<char>)
    ensures
        words(numbered(order) + rest) == order.map_values(|c: u64| decimal(c as int)) + words(
            rest,
        ),
    decreases order.len(),
{
    let f = |c: u64| decimal(c as int);
    if order.len() == 0 {
        assert(numbered(order) + rest =~= rest);
        assert(order.map_values(f) + words(rest) =~= words(rest));
    } else {
        let c = order.last();
        let line = decimal(c as int);
        law_decimal_reads_back(c as int, c as int);
        lemma_decimal_not_empty(c as int);
        lemma_first_word(line, '\n', rest);
        lemma_numbered_words(order.drop_last(), line + seq!['\n'] + rest);
        assert(numbered(order) + rest =~= numbered(order.drop_last()) + (line + seq!['\n'] + rest));
        assert(order.map_values(f) =~= order.drop_last().map_values(f).push(line));
        assert(order.drop_last().map_values(f) + (seq![line] + words(rest)) =~= order.map_values(f)
            + words(rest));
    }
}

/// The record of the pieces that are here claims exactly those pieces.
pub proof fn law_record_reads_back(order: Seq<u64>)
    ensures
        claimed(numbered(order)) == order.to_set(),
{
    let f = |c: u64| decimal(c as int);
    let none = Seq::<char>::empty();
    lemma_numbered_words(order, none);
    assert(numbered(order) + none =~= numbered(order));
    assert(words(none) =~= Seq::empty());
    let w = words(numbered(order));
    assert(w =~= order.map_values(f));
    assert forall|i: int| 0 <= i < order.len() implies unsigned(
        #[trigger] w[i],
        10,
        u64::MAX as int,
    ) == Some(order[i] as int) by {
        law_decimal_reads_back(order[i] as int, u64::MAX as int);
    }
    assert forall|c: u64| claimed(numbered(order)).contains(c) <==> order.to_set().contains(c) by {
        if claimed(numbered(order)).contains(c) {
            let i = choose|i: int|
                0 <= i < w.len() && unsigned(#[trigger] w[i], 10, u64::MAX as int) == Some(
                    c as int,
                );
            assert(order[i] == c);
        }
        if order.contains(c) {
            let i = choose|i: int| 0 <= i < order.len() && order[i] == c;
            assert(unsigned(w[i], 10, u64::MAX as int) == Some(c as int));
        }
    }
    assert(claimed(numbered(order)) =~= order.to_set());
}

/// A recorded piece is believed exactly where the file on the disk is long enough to hold
/// every byte of it.
pub proof fn law_a_piece_is_believed_where_it_fits(c: int, existing: int, total: int)
    requires
        0 <= c,
        2_097_152 * c < total,
        0 <= existing,
    ensures
        can_be_here(c, existing, total) <==> forall|b: int|
            #![trigger piece_of(b)]
            piece_of(b) == c && 0 <= b < total ==> b < existing,
        piece_start(c) == 2_097_152 * c,
        piece_end(c, total) <= total,
        piece_end(c, total) - piece_start(c) <= 2_097_152,
        piece_count(total) * 2_097_152 >= total > (piece_count(total) - 1) * 2_097_152,
{
    let last = piece_end(c, total) - 1;
    if forall|b: int|
        #![trigger piece_of(b)]
        piece_of(b) == c && 0 <= b < total ==> b < existing {
        assert(piece_of(last) == c);
    }
    if can_be_here(c, existing, total) {
        assert forall|b: int|
            #![trigger piece_of(b)]
            piece_of(b) == c && 0 <= b < total implies b < existing by {
            assert(b < 2_097_152 * (c + 1));
        }
    }
}

/// The piece that a byte lies in.
pub open spec fn piece_of(byte: int) -> int {
    byte / 2_097_152
}

} // verus!
