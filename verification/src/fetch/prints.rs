//! The fingerprints of a file's pieces, as a server offers them.

use crate::bytes::{lossy, lossy_text};
use crate::number::{parse_decimal, unsigned};
use crate::text::{chars_of, cut, lines, split_lines, split_once, string_of, trim, trimmed, views};
use std::collections::HashMap;
use vstd::prelude::*;

verus! {

broadcast use vstd::std_specs::hash::group_hash_axioms;

/// The longest list of fingerprints that is read: enough for a file of about
/// 230 GB. Anything longer is no such list.
pub const PRINTS_LIMIT: u64 = 8_388_608;

/// What an answer to the question for fingerprints is worth.
#[derive(Clone, Copy, Debug, PartialEq, Eq, Structural)]
pub enum Offer {
    /// There are none.
    Absent,
    /// It cannot be a list of fingerprints.
    TooLong,
    /// The list follows.
    List,
}

/// What an answer with this status and this length is worth.
pub fn offer_of(status: u16, len: u64) -> (o: Offer)
    ensures
        o == (if status != 200 {
            Offer::Absent
        } else if len > PRINTS_LIMIT {
            Offer::TooLong
        } else {
            Offer::List
        }),
{
    if status != 200 {
        Offer::Absent
    } else if len > PRINTS_LIMIT {
        Offer::TooLong
    } else {
        Offer::List
    }
}

/// Fingerprints by piece.
pub type Prints = Map<u64, Seq<char>>;

/// What one line adds: a piece and its fingerprint, unless it is a remark.
pub open spec fn with_line(m: Prints, line: Seq<char>) -> Prints {
    if line.len() > 0 && line[0] == '#' {
        m
    } else {
        match cut(line, ' ') {
            Some((i, h)) => match unsigned(i, 10, u64::MAX as int) {
                Some(n) => m.insert(n as u64, trimmed(h)),
                None => m,
            },
            None => m,
        }
    }
}

/// The fingerprints on some lines, a later one for the same piece counting.
pub open spec fn prints_on(ls: Seq<Seq<char>>) -> Prints
    decreases ls.len(),
{
    if ls.len() == 0 {
        Map::empty()
    } else {
        with_line(prints_on(ls.drop_last()), ls.last())
    }
}

/// The fingerprints in a text.
pub open spec fn prints_in(text: Seq<char>) -> Prints {
    prints_on(lines(text))
}

/// What a table of fingerprints holds.
pub open spec fn prints_view(m: Map<u64, String>) -> Prints {
    m.map_values(|s: String| s@)
}

/// Read the fingerprints in a text.
pub fn read_prints(text: &str) -> (m: HashMap<u64, String>)
    ensures
        prints_view(m@) == prints_in(text@),
{
    let c: Vec<char> = chars_of(text);
    let ls: Vec<&[char]> = split_lines(c.as_slice());
    let ghost all = lines(text@);
    let mut m: HashMap<u64, String> = HashMap::new();
    let mut i: usize = 0;
    assert(prints_view(m@) =~= prints_on(all.take(0)));
    while i < ls.len()
        invariant
            views(ls@) == all,
            i <= ls.len(),
            prints_view(m@) == prints_on(all.take(i as int)),
        decreases ls.len() - i,
    {
        let line: &[char] = ls[i];
        assert(views(ls@)[i as int] == line@);
        let ghost before = m@;
        proof {
            assert(all.take(i + 1).drop_last() =~= all.take(i as int));
            assert(all.take(i + 1).last() == line@);
        }
        if !(line.len() > 0 && line[0] == '#') {
            if let Some((n, h)) = split_once(line, ' ') {
                if let Some(n) = parse_decimal(n, u64::MAX) {
                    m.insert(n, string_of(trim(h)));
                    proof {
                        assert(prints_view(m@) =~= prints_view(before).insert(n, trimmed(h@)));
                    }
                }
            }
        }
        i = i + 1;
    }
    assert(all.take(all.len() as int) =~= all);
    m
}

/// Read the fingerprints that a server sent.
pub fn fetch_sums(body: &[u8]) -> (m: HashMap<u64, String>)
    ensures
        prints_view(m@) == prints_in(lossy(body@)),
{
    let text: String = lossy_text(body);
    read_prints(text.as_str())
}

/// Whether a piece on the disk is damaged: it cannot be read, or its fingerprint
/// is known and another.
pub open spec fn damaged(expected: Option<Seq<char>>, got: Option<Seq<char>>) -> bool {
    match got {
        None => true,
        Some(g) => match expected {
            Some(e) => e != g,
            None => false,
        },
    }
}

/// What an optional text holds.
pub open spec fn held(s: Option<&String>) -> Option<Seq<char>> {
    match s {
        Some(t) => Some(t@),
        None => None,
    }
}

/// Whether a piece on the disk, with the fingerprint that reading it back gave,
/// is damaged.
pub fn is_damaged(sums: &HashMap<u64, String>, c: u64, got: Option<&String>) -> (r: bool)
    ensures
        r == damaged(
            if prints_view(sums@).contains_key(c) {
                Some(prints_view(sums@)[c])
            } else {
                None
            },
            held(got),
        ),
{
    match got {
        None => true,
        Some(g) => match sums.get(&c) {
            Some(e) => !crate::text::same_text(e.as_str(), g.as_str()),
            None => false,
        },
    }
}

/// A piece on the disk is damaged exactly where it cannot be read, or where its
/// fingerprint is known and what was read has another.
pub proof fn law_a_piece_is_judged_by_its_fingerprint(
    expected: Seq<char>,
    got: Seq<char>,
)
    ensures
        damaged(Some(expected), Some(got)) <==> expected != got,
        !damaged(None, Some(got)),
        damaged(Some(expected), None),
        damaged(None, None),
{
}

} // verus!
