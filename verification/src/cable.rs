//! Two laptops and one cable: the packet by which one finds the other.

use crate::addr::Ipv4Addr;
use crate::bytes::{copied, strict_text};
use crate::number::{
    decimal, law_decimal_reads_back, lemma_unsigned_range, parse_decimal, push_decimal, unsigned,
};
use crate::text::{
    chars_of, is_text, lemma_char_at_is, pieces, push_chars, split_char, string_of, trim, trimmed,
    views,
};
use vstd::prelude::*;
use vstd::utf8::{
    decode_utf8, encode_utf8, encode_utf8_decode_utf8, encode_utf8_valid_utf8, valid_utf8,
};

verus! {

/// The port the beacon speaks on.
pub const BEACON_PORT: u16 = 42424;

/// The first field of every beacon, with a version, so that a later one is
/// ignored rather than read wrongly.
pub const MAGIC: &'static str = "GORILLA_CABLE_HUB_V1";

/// A machine that was found, and where to get the files from it.
#[derive(Debug)]
pub struct Peer {
    pub ip: Ipv4Addr,
    pub port: u16,
    /// What the sender calls itself.
    pub name: String,
    /// The folder being handed out.
    pub folder: String,
}

/// A character that cannot end a field.
pub open spec fn clean_char(c: char) -> char {
    if c == '\t' || c == '\n' || c == '\r' {
        ' '
    } else {
        c
    }
}

/// A text that cannot end a field: names are sent as they are, but for the
/// characters that separate fields.
pub open spec fn cleaned(s: Seq<char>) -> Seq<char> {
    Seq::new(s.len(), |i: int| clean_char(s[i]))
}

fn clean(s: &str) -> (r: Vec<char>)
    ensures
        r@ == cleaned(s@),
{
    let c: Vec<char> = chars_of(s);
    let mut r: Vec<char> = Vec::new();
    let mut i: usize = 0;
    while i < c.len()
        invariant
            i <= c.len(),
            r@ == cleaned(c@).take(i as int),
        decreases c.len() - i,
    {
        let x: char = c[i];
        if x == '\t' || x == '\n' || x == '\r' {
            r.push(' ');
        } else {
            r.push(x);
        }
        i = i + 1;
        assert(r@ =~= cleaned(c@).take(i as int));
    }
    assert(r@ =~= cleaned(s@));
    r
}

/// What a beacon says: fields with tabs between them.
pub open spec fn beacon_text(port: int, name: Seq<char>, folder: Seq<char>) -> Seq<char> {
    MAGIC@ + seq!['\t'] + (decimal(port) + seq!['\t'] + (cleaned(name) + seq!['\t'] + cleaned(
        folder,
    )))
}

/// Build the packet.
pub fn beacon(port: u16, name: &str, folder: &str) -> (b: Vec<u8>)
    ensures
        b@ == encode_utf8(beacon_text(port as int, name@, folder@)),
{
    let mut s = String::new();
    s.append(MAGIC);
    s.push('\t');
    push_decimal(&mut s, port as u64);
    s.push('\t');
    push_chars(&mut s, clean(name).as_slice());
    s.push('\t');
    push_chars(&mut s, clean(folder).as_slice());
    assert(s@ =~= beacon_text(port as int, name@, folder@));
    copied(s.as_str().as_bytes())
}

/// What a beacon tells: a port that is not zero, a name and a folder. Anything
/// behind them is ignored.
pub open spec fn told(text: Seq<char>) -> Option<(int, Seq<char>, Seq<char>)> {
    let p = pieces(text, '\t');
    if p.len() < 4 || p[0] != MAGIC@ {
        None
    } else {
        match unsigned(p[1], 10, 65535) {
            Some(n) => if n == 0 {
                None
            } else {
                Some((n, trimmed(p[2]), trimmed(p[3])))
            },
            None => None,
        }
    }
}

/// What some bytes tell, if they are a beacon.
pub open spec fn told_by(data: Seq<u8>) -> Option<(int, Seq<char>, Seq<char>)> {
    if valid_utf8(data) {
        told(decode_utf8(data))
    } else {
        None
    }
}

/// Read a packet, or decide it was not one of ours. The address is the one that
/// it came from, if that was an IPv4 one, and not one that it claims.
pub fn read_beacon(data: &[u8], from: Option<Ipv4Addr>) -> (r: Option<Peer>)
    ensures
        r is Some <==> from is Some && told_by(data@) is Some,
        r matches Some(p) ==> Some(p.ip) == from && told_by(data@) == Some(
            (p.port as int, p.name@, p.folder@),
        ),
{
    let ip: Ipv4Addr = match from {
        Some(ip) => ip,
        None => {
            return None;
        },
    };
    let text: String = match strict_text(data) {
        Some(t) => t,
        None => {
            return None;
        },
    };
    let c: Vec<char> = chars_of(text.as_str());
    let p: Vec<&[char]> = split_char(c.as_slice(), '\t');
    let ghost all = pieces(text@, '\t');
    assert(views(p@) == all && p.len() == all.len());
    if p.len() < 4 {
        return None;
    }
    assert(all[0] == p@[0]@ && all[1] == p@[1]@ && all[2] == p@[2]@ && all[3] == p@[3]@);
    if !is_text(p[0], MAGIC) {
        return None;
    }
    let port: u64 = match parse_decimal(p[1], 65535) {
        Some(n) => n,
        None => {
            return None;
        },
    };
    if port == 0 {
        return None;
    }
    Some(
        Peer {
            ip,
            port: port as u16,
            name: string_of(trim(p[2])),
            folder: string_of(trim(p[3])),
        },
    )
}

proof fn lemma_field(head: Seq<char>, tail: Seq<char>)
    requires
        forall|i: int| 0 <= i < head.len() ==> #[trigger] head[i] != '\t',
    ensures
        pieces(head + seq!['\t'] + tail, '\t') == seq![head] + pieces(tail, '\t'),
{
    let s = head + seq!['\t'] + tail;
    lemma_char_at_is(s, '\t', head.len() as int);
    assert(s.take(head.len() as int) =~= head);
    assert(s.skip(head.len() as int + 1) =~= tail);
}

/// A beacon is read as it was meant, whatever the names: no name can pretend to
/// be another field, and none is rewritten beyond the separators and the white
/// space at its ends.
pub proof fn law_beacon_reads_back(port: int, name: Seq<char>, folder: Seq<char>)
    requires
        0 < port <= 65535,
    ensures
        told_by(encode_utf8(beacon_text(port, name, folder))) == Some(
            (port, trimmed(cleaned(name)), trimmed(cleaned(folder))),
        ),
{
    let text = beacon_text(port, name, folder);
    encode_utf8_valid_utf8(text);
    encode_utf8_decode_utf8(text);
    reveal_strlit("GORILLA_CABLE_HUB_V1");
    law_decimal_reads_back(port, 65535);
    let n = cleaned(name);
    let f = cleaned(folder);
    lemma_field(MAGIC@, decimal(port) + seq!['\t'] + (n + seq!['\t'] + f));
    lemma_field(decimal(port), n + seq!['\t'] + f);
    lemma_field(n, f);
    lemma_char_at_is(f, '\t', f.len() as int);
    assert(pieces(text, '\t') =~= seq![MAGIC@, decimal(port), n, f]);
}

/// A name is announced as it is: only what separates fields becomes a space, and nothing
/// else is changed. The packet begins with the sign of this program and its version.
pub proof fn law_names_are_announced_as_they_are(port: int, name: Seq<char>, folder: Seq<char>)
    ensures
        cleaned(name).len() == name.len(),
        forall|i: int|
            0 <= i < name.len() ==> #[trigger] cleaned(name)[i] == (if name[i] == '\t' || name[i]
                == '\n' || name[i] == '\r' {
                ' '
            } else {
                name[i]
            }),
        beacon_text(port, name, folder) == "GORILLA_CABLE_HUB_V1\t"@ + decimal(port) + "\t"@
            + cleaned(name) + "\t"@ + cleaned(folder),
{
    reveal_strlit("GORILLA_CABLE_HUB_V1");
    reveal_strlit("GORILLA_CABLE_HUB_V1\t");
    reveal_strlit("\t");
    assert(beacon_text(port, name, folder) =~= "GORILLA_CABLE_HUB_V1\t"@ + decimal(port) + "\t"@
        + cleaned(name) + "\t"@ + cleaned(folder));
}

/// What is no beacon is not taken for one: what begins with another sign, has a port that
/// is none, or lacks a field.
pub proof fn law_what_is_no_beacon_is_not_taken(text: Seq<char>)
    ensures
        told(text) is Some ==> pieces(text, '\t').len() >= 4 && pieces(text, '\t')[0]
            == "GORILLA_CABLE_HUB_V1"@,
        told(text) matches Some((n, _, _)) ==> 0 < n <= 65535,
{
    lemma_unsigned_range(pieces(text, '\t')[1], 10, 65535);
}

} // verus!
