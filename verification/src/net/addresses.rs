//! Which addresses this machine has, and which are worth asking.

use crate::addr::Ipv4Addr;
use crate::number::{digit, digit_of, digits_value, hex_byte, parse_radix, unsigned};
use crate::text::{
    chars_of, find_from, is_text, lemma_char_at_is, lemma_first_from, lines, occurs_at, pieces,
    split_char, split_lines, split_words, str_view, string_of, views, words,
};
use vstd::prelude::*;

verus! {

// ------------------------------------------------------------- hardware

/// A text with dashes made colons.
pub open spec fn colons(s: Seq<char>) -> Seq<char> {
    Seq::new(
        s.len(),
        |i: int|
            if s[i] == '-' {
                ':'
            } else {
                s[i]
            },
    )
}

/// One byte of a hardware address: two hexadecimal digits.
pub open spec fn mac_byte(s: Seq<char>) -> Option<int> {
    if s.len() == 2 && digit_of(s[0], 16) is Some && digit_of(s[1], 16) is Some {
        Some(16 * digit_of(s[0], 16).unwrap() + digit_of(s[1], 16).unwrap())
    } else {
        None
    }
}

/// The hardware address that a text is: six bytes with colons or dashes between
/// them.
pub open spec fn mac_of(s: Seq<char>) -> Option<Seq<u8>> {
    let p = pieces(colons(s), ':');
    if p.len() != 6 || (exists|i: int| 0 <= i < 6 && mac_byte(#[trigger] p[i]) is None) {
        None
    } else {
        Some(Seq::new(6, |i: int| mac_byte(p[i]).unwrap() as u8))
    }
}

/// What an optional hardware address is.
pub open spec fn mac_view(m: Option<[u8; 6]>) -> Option<Seq<u8>> {
    match m {
        Some(b) => Some(b@),
        None => None,
    }
}

fn to_colons(s: &[char]) -> (r: Vec<char>)
    ensures
        r@ == colons(s@),
{
    let mut r: Vec<char> = Vec::new();
    let mut i: usize = 0;
    while i < s.len()
        invariant
            i <= s.len(),
            r@ == colons(s@).take(i as int),
        decreases s.len() - i,
    {
        r.push(
            if s[i] == '-' {
                ':'
            } else {
                s[i]
            },
        );
        i = i + 1;
        assert(r@ =~= colons(s@).take(i as int));
    }
    assert(r@ =~= colons(s@));
    r
}

fn byte_of(s: &[char]) -> (r: Option<u8>)
    ensures
        r matches Some(b) ==> mac_byte(s@) == Some(b as int),
        r is None ==> mac_byte(s@) is None,
{
    if s.len() != 2 {
        return None;
    }
    match (digit(s[0], 16), digit(s[1], 16)) {
        (Some(a), Some(b)) => Some((16 * a + b) as u8),
        _ => None,
    }
}

/// Read a hardware address. Anything else is not one.
pub fn parse_mac(s: &str) -> (m: Option<[u8; 6]>)
    ensures
        mac_view(m) == mac_of(s@),
{
    let c: Vec<char> = chars_of(s);
    let d: Vec<char> = to_colons(c.as_slice());
    let p: Vec<&[char]> = split_char(d.as_slice(), ':');
    let ghost all = pieces(colons(s@), ':');
    assert(views(p@) == all && p.len() == all.len());
    if p.len() != 6 {
        return None;
    }
    let mut m: [u8; 6] = [0, 0, 0, 0, 0, 0];
    let mut i: usize = 0;
    while i < 6
        invariant
            i <= 6,
            p.len() == 6,
            all == pieces(colons(s@), ':'),
            views(p@) == all,
            all.len() == 6,
            forall|k: int| 0 <= k < i ==> mac_byte(#[trigger] all[k]) == Some(m@[k] as int),
        decreases 6 - i,
    {
        assert(all[i as int] == p@[i as int]@);
        match byte_of(p[i]) {
            Some(b) => {
                m[i] = b;
            },
            None => {
                return None;
            },
        }
        i = i + 1;
    }
    assert(m@ =~= mac_of(s@).unwrap());
    Some(m)
}

/// Read a hardware address.
pub fn parse_mac_for_test(s: &str) -> (m: Option<[u8; 6]>)
    ensures
        mac_view(m) == mac_of(s@),
{
    parse_mac(s)
}

/// What hardware addresses hold.
pub open spec fn macs(v: Seq<[u8; 6]>) -> Seq<Seq<u8>> {
    Seq::new(v.len(), |i: int| v[i]@)
}

/// A list with one more hardware address, unless it is all zeros or already
/// there.
pub open spec fn with_mac(list: Seq<Seq<u8>>, m: Seq<u8>) -> Seq<Seq<u8>> {
    if m == seq![0u8, 0, 0, 0, 0, 0] || list.contains(m) {
        list
    } else {
        list.push(m)
    }
}

/// Add one of this machine's hardware addresses.
pub fn add_mac(list: &mut Vec<[u8; 6]>, m: [u8; 6])
    ensures
        macs(final(list)@) == with_mac(macs(old(list)@), m@),
{
    let none: [u8; 6] = [0, 0, 0, 0, 0, 0];
    assert(none@ =~= seq![0u8, 0, 0, 0, 0, 0]);
    if crate::bytes::same_bytes(m.as_slice(), none.as_slice()) {
        return ;
    }
    let mut i: usize = 0;
    while i < list.len()
        invariant
            i <= list.len(),
            *list == *old(list),
            forall|k: int| 0 <= k < i ==> #[trigger] macs(list@)[k] != m@,
        decreases list.len() - i,
    {
        if crate::bytes::same_bytes(list[i].as_slice(), m.as_slice()) {
            assert(macs(list@)[i as int] == m@);
            return ;
        }
        i = i + 1;
    }
    let ghost before = list@;
    list.push(m);
    assert(macs(list@) =~= macs(before).push(m@));
}

/// Whether a character can be part of a hardware address.
pub open spec fn mac_char(c: char) -> bool {
    '0' <= c <= '9' || 'a' <= c <= 'f' || 'A' <= c <= 'F' || c == ':' || c == '-'
}

/// A text with everything that cannot be part of a hardware address made spaces.
pub open spec fn mac_chars(s: Seq<char>) -> Seq<char> {
    Seq::new(
        s.len(),
        |i: int|
            if mac_char(s[i]) {
                s[i]
            } else {
                ' '
            },
    )
}

/// A list with the hardware addresses among some texts.
pub open spec fn with_macs(list: Seq<Seq<u8>>, ts: Seq<Seq<char>>) -> Seq<Seq<u8>>
    decreases ts.len(),
{
    if ts.len() == 0 {
        list
    } else {
        let before = with_macs(list, ts.drop_last());
        match mac_of(ts.last()) {
            Some(m) => with_mac(before, m),
            None => before,
        }
    }
}

/// The hardware addresses in a tool's output, whatever else it says: looked for by
/// their shape, so that a change of layout finds nothing rather than something
/// wrong.
pub fn local_macs(text: &str) -> (list: Vec<[u8; 6]>)
    ensures
        macs(list@) == with_macs(Seq::empty(), pieces(mac_chars(text@), ' ')),
{
    let c: Vec<char> = chars_of(text);
    let mut d: Vec<char> = Vec::new();
    let mut i: usize = 0;
    while i < c.len()
        invariant
            c@ == text@,
            i <= c.len(),
            d@ == mac_chars(text@).take(i as int),
        decreases c.len() - i,
    {
        let x: char = c[i];
        if (x >= '0' && x <= '9') || (x >= 'a' && x <= 'f') || (x >= 'A' && x <= 'F') || x == ':' || x
            == '-' {
            d.push(x);
        } else {
            d.push(' ');
        }
        i = i + 1;
        assert(d@ =~= mac_chars(text@).take(i as int));
    }
    assert(d@ =~= mac_chars(text@));
    let ts: Vec<&[char]> = split_char(d.as_slice(), ' ');
    let ghost all = pieces(mac_chars(text@), ' ');
    let mut list: Vec<[u8; 6]> = Vec::new();
    let mut k: usize = 0;
    assert(macs(list@) =~= with_macs(Seq::empty(), all.take(0)));
    while k < ts.len()
        invariant
            views(ts@) == all,
            k <= ts.len(),
            macs(list@) == with_macs(Seq::empty(), all.take(k as int)),
        decreases ts.len() - k,
    {
        assert(all[k as int] == ts@[k as int]@);
        assert(all.take(k + 1).drop_last() =~= all.take(k as int));
        let t: String = string_of(ts[k]);
        if let Some(m) = parse_mac(t.as_str()) {
            add_mac(&mut list, m);
        }
        k = k + 1;
    }
    assert(all.take(all.len() as int) =~= all);
    list
}

// ------------------------------------------------------------- mentions

/// Whether a character can be part of an address.
pub open spec fn address_char(c: char) -> bool {
    '0' <= c <= '9' || c == '.'
}

/// Whether another text stands at this place, and nothing round it could be part
/// of a longer address.
pub open spec fn whole_at(text: Seq<char>, want: Seq<char>, i: int) -> bool {
    &&& occurs_at(text, want, i)
    &&& i == 0 || !address_char(text[i - 1])
    &&& i + want.len() >= text.len() || !address_char(text[i + want.len() as int])
}

/// Whether a text mentions an address, as a whole address.
pub open spec fn mentions(text: Seq<char>, ip: Ipv4Addr) -> bool {
    exists|i: int| #[trigger] whole_at(text, ip.dotted(), i)
}

fn part_of_address(c: char) -> (r: bool)
    ensures
        r == address_char(c),
{
    (c >= '0' && c <= '9') || c == '.'
}

/// Does this text contain this address, as a whole address? One that is only the
/// beginning of a longer one does not count.
pub fn mentions_address(text: &str, a: Ipv4Addr) -> (r: bool)
    ensures
        r == mentions(text@, a),
{
    let s: Vec<char> = chars_of(text);
    let want: String = a.text();
    let w: Vec<char> = chars_of(want.as_str());
    let mut from: usize = 0;
    while from <= s.len()
        invariant
            s@ == text@,
            w@ == a.dotted(),
            from <= s.len() + 1,
            forall|k: int| 0 <= k < from ==> !#[trigger] whole_at(text@, a.dotted(), k),
        decreases s.len() + 1 - from,
    {
        proof {
            lemma_first_from(s@, w@, from as int);
        }
        match find_from(s.as_slice(), w.as_slice(), from) {
            None => {
                assert forall|i: int| !#[trigger] whole_at(text@, a.dotted(), i) by {}
                return false;
            },
            Some(start) => {
                let end: usize = start + w.len();
                let before_ok: bool = start == 0 || !part_of_address(s[start - 1]);
                let after_ok: bool = end >= s.len() || !part_of_address(s[end]);
                if before_ok && after_ok {
                    assert(whole_at(text@, a.dotted(), start as int));
                    return true;
                }
                assert(!whole_at(text@, a.dotted(), start as int));
                if start == s.len() {
                    assert forall|i: int| !#[trigger] whole_at(text@, a.dotted(), i) by {}
                    return false;
                }
                from = start + 1;
            },
        }
    }
    assert forall|i: int| !#[trigger] whole_at(text@, a.dotted(), i) by {}
    false
}

/// The addresses of a list that a text mentions.
pub open spec fn mentioned(held: Seq<Ipv4Addr>, text: Seq<char>) -> Seq<Ipv4Addr>
    decreases held.len(),
{
    if held.len() == 0 {
        Seq::empty()
    } else if mentions(text, held.last()) {
        mentioned(held.drop_last(), text).push(held.last())
    } else {
        mentioned(held.drop_last(), text)
    }
}

/// The addresses on interfaces that are connected: those that the system's own
/// tool mentions. Where it cannot be asked, or mentions none, all of them.
pub open spec fn connected(held: Seq<Ipv4Addr>, told: Option<Seq<char>>) -> Seq<Ipv4Addr> {
    match told {
        Some(text) => if mentioned(held, text).len() > 0 {
            mentioned(held, text)
        } else {
            held
        },
        None => held,
    }
}

/// The addresses on interfaces that are connected, by what the system's own tool
/// says of them. A stale address appears nowhere in that.
pub fn connected_addresses(held: &Vec<Ipv4Addr>, told: Option<&str>) -> (r: Vec<Ipv4Addr>)
    ensures
        r@ == connected(held@, str_view(told)),
{
    let mut all: Vec<Ipv4Addr> = Vec::new();
    let mut out: Vec<Ipv4Addr> = Vec::new();
    let mut i: usize = 0;
    let ghost words = str_view(told);
    assert(out@ =~= Seq::empty());
    while i < held.len()
        invariant
            i <= held.len(),
            words == str_view(told),
            all@ == held@.take(i as int),
            words matches Some(t) ==> out@ == mentioned(held@.take(i as int), t),
            words is None ==> out.len() == 0,
        decreases held.len() - i,
    {
        assert(held@.take(i + 1).drop_last() =~= held@.take(i as int));
        assert(held@.take(i + 1) =~= held@.take(i as int).push(held@[i as int]));
        all.push(held[i]);
        if let Some(t) = told {
            if mentions_address(t, held[i]) {
                out.push(held[i]);
            }
        }
        i = i + 1;
    }
    assert(held@.take(held@.len() as int) =~= held@);
    if out.len() > 0 {
        out
    } else {
        all
    }
}

// ------------------------------------------------------------- the router

/// What asking for the neighbours gave.
pub enum Neighbours {
    /// It could not be asked.
    Unasked,
    /// It was asked and failed.
    Failed,
    Told(String),
}

/// The router, if there is one: not a link-local guess, and one that has spoken
/// to this machine, so that it is among the neighbours. Where the neighbours were
/// asked for and could not be had, it counts as one; where nobody asked, it does not.
pub open spec fn live_router(gateway: Option<Ipv4Addr>, n: Neighbours) -> Option<Ipv4Addr> {
    match gateway {
        None => None,
        Some(g) => if g.link_local() {
            None
        } else {
            match n {
                Neighbours::Unasked => None,
                Neighbours::Failed => Some(g),
                Neighbours::Told(text) => if mentions(text@, g) {
                    Some(g)
                } else {
                    None
                },
            }
        },
    }
}

/// The default gateway, but only if something answers as it.
pub fn live_default_gateway(gateway: Option<Ipv4Addr>, n: &Neighbours) -> (r: Option<Ipv4Addr>)
    ensures
        r == live_router(gateway, *n),
{
    let g: Ipv4Addr = match gateway {
        Some(g) => g,
        None => {
            return None;
        },
    };
    if g.is_link_local() {
        return None;
    }
    match n {
        Neighbours::Unasked => None,
        Neighbours::Failed => Some(g),
        Neighbours::Told(text) => if mentions_address(text.as_str(), g) {
            Some(g)
        } else {
            None
        },
    }
}

/// A number as an address, the least significant byte first.
pub open spec fn address_le(n: int) -> Ipv4Addr {
    Ipv4Addr {
        a: (n % 256) as u8,
        b: (n / 256 % 256) as u8,
        c: (n / 65536 % 256) as u8,
        d: (n / 16777216 % 256) as u8,
    }
}

/// The gateway of the first default route from line `i` on. A line that is no
/// route ends the search.
pub open spec fn gateway_from(ls: Seq<Seq<char>>, i: int) -> Option<Ipv4Addr>
    decreases ls.len() - i,
{
    if i >= ls.len() {
        None
    } else {
        let w = words(ls[i]);
        if w.len() < 3 {
            None
        } else if w[1] != "00000000"@ {
            gateway_from(ls, i + 1)
        } else {
            match unsigned(w[2], 16, 0xffff_ffff) {
                None => None,
                Some(n) => if n == 0 {
                    gateway_from(ls, i + 1)
                } else {
                    Some(address_le(n))
                },
            }
        }
    }
}

/// The default gateway in the kernel's routing table, whose first line is a
/// heading and whose addresses have their bytes the other way round.
pub fn default_gateway(table: &str) -> (r: Option<Ipv4Addr>)
    ensures
        r == gateway_from(lines(table@), 1),
{
    let c: Vec<char> = chars_of(table);
    let ls: Vec<&[char]> = split_lines(c.as_slice());
    let ghost all = lines(table@);
    let mut i: usize = 1;
    assert(ls.len() == all.len());
    while i < ls.len()
        invariant
            views(ls@) == all,
            all == lines(table@),
            1 <= i,
            i <= ls.len() || i == 1,
            gateway_from(all, 1) == gateway_from(all, i as int),
        decreases ls.len() - i,
    {
        assert(all[i as int] == ls@[i as int]@);
        let w: Vec<&[char]> = split_words(ls[i]);
        assert(w.len() == words(all[i as int]).len());
        if w.len() < 3 {
            return None;
        }
        assert(views(w@)[1] == w@[1]@ && views(w@)[2] == w@[2]@);
        if is_text(w[1], "00000000") {
            match parse_radix(w[2], 16, 0xffff_ffff) {
                None => {
                    return None;
                },
                Some(n) => {
                    if n != 0 {
                        return Some(
                            Ipv4Addr::new(
                                (n % 256) as u8,
                                (n / 256 % 256) as u8,
                                (n / 65536 % 256) as u8,
                                (n / 16777216 % 256) as u8,
                            ),
                        );
                    }
                },
            }
        }
        i = i + 1;
    }
    None
}

/// The first address of the same segment, which a hotspot's gateway has.
pub open spec fn first_beside(a: Ipv4Addr) -> Ipv4Addr {
    Ipv4Addr { d: 1, ..a }
}

/// A guess at the gateway where the routing table cannot be read.
pub fn guessed_gateway(me: Option<Ipv4Addr>) -> (r: Option<Ipv4Addr>)
    ensures
        r == (match me {
            Some(a) => Some(first_beside(a)),
            None => None,
        }),
{
    match me {
        Some(a) => Some(Ipv4Addr::new(a.a, a.b, a.c, 1)),
        None => None,
    }
}

// ------------------------------------------------------------- candidates

/// What the common ways of making a hotspot give their gateway.
pub open spec fn known_gateways() -> Seq<Ipv4Addr> {
    seq![
        Ipv4Addr { a: 10, b: 42, c: 0, d: 1 },
        Ipv4Addr { a: 192, b: 168, c: 137, d: 1 },
        Ipv4Addr { a: 192, b: 168, c: 43, d: 1 },
    ]
}

fn hotspot_gateways() -> (v: Vec<Ipv4Addr>)
    ensures
        v@ == known_gateways(),
{
    let mut v: Vec<Ipv4Addr> = Vec::new();
    v.push(Ipv4Addr::new(10, 42, 0, 1));
    v.push(Ipv4Addr::new(192, 168, 137, 1));
    v.push(Ipv4Addr::new(192, 168, 43, 1));
    assert(v@ =~= known_gateways());
    v
}

/// A list with one more address, unless it is already there.
pub open spec fn with_address(list: Seq<Ipv4Addr>, a: Ipv4Addr) -> Seq<Ipv4Addr> {
    if list.contains(a) {
        list
    } else {
        list.push(a)
    }
}

/// A list with more addresses, each once.
pub open spec fn with_addresses(list: Seq<Ipv4Addr>, more: Seq<Ipv4Addr>) -> Seq<Ipv4Addr>
    decreases more.len(),
{
    if more.len() == 0 {
        list
    } else {
        with_address(with_addresses(list, more.drop_last()), more.last())
    }
}

fn add_address(list: &mut Vec<Ipv4Addr>, a: Ipv4Addr)
    ensures
        final(list)@ == with_address(old(list)@, a),
{
    let mut i: usize = 0;
    while i < list.len()
        invariant
            i <= list.len(),
            *list == *old(list),
            forall|k: int| 0 <= k < i ==> list@[k] != a,
        decreases list.len() - i,
    {
        if list[i] == a {
            assert(list@[i as int] == a);
            return ;
        }
        i = i + 1;
    }
    list.push(a);
}

fn add_addresses(list: &mut Vec<Ipv4Addr>, more: &Vec<Ipv4Addr>)
    ensures
        final(list)@ == with_addresses(old(list)@, more@),
{
    let mut i: usize = 0;
    assert(more@.take(0) =~= Seq::empty());
    while i < more.len()
        invariant
            i <= more.len(),
            list@ == with_addresses(old(list)@, more@.take(i as int)),
        decreases more.len() - i,
    {
        add_address(list, more[i]);
        i = i + 1;
        assert(more@.take(i as int).drop_last() =~= more@.take(i - 1));
    }
    assert(more@.take(more@.len() as int) =~= more@);
}

/// The addresses worth asking, best guess first: the gateway, what the common
/// hotspots use, and the first of each of our own segments.
pub open spec fn candidates(gateway: Option<Ipv4Addr>, locals: Seq<Ipv4Addr>) -> Seq<Ipv4Addr> {
    let first = match gateway {
        Some(g) => seq![g],
        None => Seq::empty(),
    };
    with_addresses(
        with_addresses(first, known_gateways()),
        locals.map_values(|a: Ipv4Addr| first_beside(a)),
    )
}

/// The addresses worth asking for files, best guess first, each once.
pub fn candidate_servers(gateway: Option<Ipv4Addr>, locals: &Vec<Ipv4Addr>) -> (out: Vec<Ipv4Addr>)
    ensures
        out@ == candidates(gateway, locals@),
{
    let mut out: Vec<Ipv4Addr> = Vec::new();
    if let Some(g) = gateway {
        out.push(g);
    }
    let ghost first = match gateway {
        Some(g) => seq![g],
        None => Seq::<Ipv4Addr>::empty(),
    };
    assert(out@ =~= first);
    let known: Vec<Ipv4Addr> = hotspot_gateways();
    add_addresses(&mut out, &known);
    let mut beside: Vec<Ipv4Addr> = Vec::new();
    let mut i: usize = 0;
    let ghost all = locals@.map_values(|a: Ipv4Addr| first_beside(a));
    while i < locals.len()
        invariant
            i <= locals.len(),
            all == locals@.map_values(|a: Ipv4Addr| first_beside(a)),
            beside@ == all.take(i as int),
        decreases locals.len() - i,
    {
        let a: Ipv4Addr = locals[i];
        beside.push(Ipv4Addr::new(a.a, a.b, a.c, 1));
        i = i + 1;
        assert(beside@ =~= all.take(i as int));
    }
    assert(beside@ =~= all);
    add_addresses(&mut out, &beside);
    out
}

/// No address is asked twice.
pub proof fn law_nobody_is_asked_twice(gateway: Option<Ipv4Addr>, locals: Seq<Ipv4Addr>)
    ensures
        candidates(gateway, locals).no_duplicates(),
{
    let first = match gateway {
        Some(g) => seq![g],
        None => Seq::<Ipv4Addr>::empty(),
    };
    lemma_each_once(first, known_gateways());
    lemma_each_once(
        with_addresses(first, known_gateways()),
        locals.map_values(|a: Ipv4Addr| first_beside(a)),
    );
}

proof fn lemma_each_once(list: Seq<Ipv4Addr>, more: Seq<Ipv4Addr>)
    requires
        list.no_duplicates(),
    ensures
        with_addresses(list, more).no_duplicates(),
    decreases more.len(),
{
    if more.len() > 0 {
        lemma_each_once(list, more.drop_last());
        let before = with_addresses(list, more.drop_last());
        let a = more.last();
        if !before.contains(a) {
            let after = before.push(a);
            assert forall|i: int, j: int| 0 <= i < j < after.len() implies after[i] != after[j] by {
                if j == before.len() {
                    assert(before.contains(before[i]));
                }
            }
        }
    }
}

/// The addresses to ask the kernel about, to learn which ones this machine has:
/// the gateway, what the common hotspots use, somewhere far away, and everybody
/// on a cable.
pub fn probe_targets(gateway: Option<Ipv4Addr>) -> (out: Vec<Ipv4Addr>)
    ensures
        out@ == (match gateway {
            Some(g) => seq![g],
            None => Seq::empty(),
        }) + known_gateways() + seq![
            (Ipv4Addr { a: 8, b: 8, c: 8, d: 8 }),
            (Ipv4Addr { a: 169, b: 254, c: 255, d: 255 }),
        ],
{
    let mut out: Vec<Ipv4Addr> = Vec::new();
    if let Some(g) = gateway {
        out.push(g);
    }
    out.push(Ipv4Addr::new(10, 42, 0, 1));
    out.push(Ipv4Addr::new(192, 168, 137, 1));
    out.push(Ipv4Addr::new(192, 168, 43, 1));
    out.push(Ipv4Addr::new(8, 8, 8, 8));
    out.push(Ipv4Addr::new(169, 254, 255, 255));
    out
}

/// The addresses that the kernel named, each once, without those that mean this
/// machine to itself.
pub open spec fn own_addresses(named: Seq<Ipv4Addr>) -> Seq<Ipv4Addr>
    decreases named.len(),
{
    if named.len() == 0 {
        Seq::empty()
    } else if named.last().loopback() {
        own_addresses(named.drop_last())
    } else {
        with_address(own_addresses(named.drop_last()), named.last())
    }
}

/// Every address that this machine appears to hold, each once.
pub fn local_addresses(named: &Vec<Ipv4Addr>) -> (out: Vec<Ipv4Addr>)
    ensures
        out@ == own_addresses(named@),
{
    let mut out: Vec<Ipv4Addr> = Vec::new();
    let mut i: usize = 0;
    assert(named@.take(0) =~= Seq::empty());
    while i < named.len()
        invariant
            i <= named.len(),
            out@ == own_addresses(named@.take(i as int)),
        decreases named.len() - i,
    {
        if !named[i].is_loopback() {
            add_address(&mut out, named[i]);
        }
        i = i + 1;
        assert(named@.take(i as int).drop_last() =~= named@.take(i - 1));
    }
    assert(named@.take(named@.len() as int) =~= named@);
    out
}

/// Every other address of our segment that a machine can have.
pub open spec fn neighbours_up_to(me: Ipv4Addr, last: int) -> Seq<Ipv4Addr>
    decreases last,
{
    if last <= 0 {
        Seq::empty()
    } else if last == me.d {
        neighbours_up_to(me, last - 1)
    } else {
        neighbours_up_to(me, last - 1).push(Ipv4Addr { d: last as u8, ..me })
    }
}

/// The addresses to try when nobody answered as a gateway: everybody else in the
/// same segment.
pub fn sweep_targets(me: Ipv4Addr) -> (out: Vec<Ipv4Addr>)
    ensures
        out@ == neighbours_up_to(me, 254),
{
    let mut out: Vec<Ipv4Addr> = Vec::new();
    let mut last: u8 = 0;
    while last < 254
        invariant
            last <= 254,
            out@ == neighbours_up_to(me, last as int),
        decreases 254 - last,
    {
        last = last + 1;
        if last != me.d {
            out.push(Ipv4Addr::new(me.a, me.b, me.c, last));
        }
    }
    out
}

/// Whether two addresses are in the same segment.
pub open spec fn beside(a: Ipv4Addr, b: Ipv4Addr) -> bool {
    a.a == b.a && a.b == b.b && a.c == b.c
}

/// Whether two addresses are in the same segment.
pub fn same_subnet(a: Ipv4Addr, b: Ipv4Addr) -> (r: bool)
    ensures
        r == beside(a, b),
{
    a.a == b.a && a.b == b.b && a.c == b.c
}

/// Everybody else in the segment is tried, and never ourselves.
pub proof fn law_sweep_covers_the_segment(me: Ipv4Addr, n: int)
    requires
        0 <= n <= 254,
    ensures
        forall|ip: Ipv4Addr| #[trigger]
            neighbours_up_to(me, n).contains(ip) <==> beside(ip, me) && 1 <= ip.d <= n && ip != me,
    decreases n,
{
    if n > 0 {
        law_sweep_covers_the_segment(me, n - 1);
        let before = neighbours_up_to(me, n - 1);
        let one = Ipv4Addr { d: n as u8, ..me };
        if n != me.d {
            let after = before.push(one);
            assert(after[before.len() as int] == one);
            assert forall|ip: Ipv4Addr| #[trigger] after.contains(ip) <==> beside(ip, me) && 1
                <= ip.d <= n && ip != me by {
                if before.contains(ip) {
                    let k = choose|k: int| 0 <= k < before.len() && before[k] == ip;
                    assert(after[k] == ip);
                }
                if after.contains(ip) && ip != one {
                    let k = choose|k: int| 0 <= k < after.len() && after[k] == ip;
                    assert(before[k] == ip);
                }
            }
        }
    }
}

// ------------------------------------------------------------- laws

proof fn lemma_pieces_front(head: Seq<char>, c: char, tail: Seq<char>)
    requires
        !head.contains(c),
    ensures
        pieces(head + seq![c] + tail, c) == seq![head] + pieces(tail, c),
        pieces(head, c) == seq![head],
{
    let s = head + seq![c] + tail;
    lemma_char_at_is(s, c, head.len() as int);
    lemma_char_at_is(head, c, head.len() as int);
    assert(s.take(head.len() as int) =~= head);
    assert(s.skip(head.len() as int + 1) =~= tail);
}

proof fn lemma_hex_is_plain(b: u8, upper: bool)
    ensures
        mac_byte(hex_byte(b, upper)) == Some(b as int),
        !hex_byte(b, upper).contains(':'),
        colons(hex_byte(b, upper)) == hex_byte(b, upper),
{
    let h = hex_byte(b, upper);
    assert(digit_of(h[0], 16) == Some(b as int / 16));
    assert(digit_of(h[1], 16) == Some(b as int % 16));
    assert(colons(h) =~= h);
}

proof fn lemma_colons_joined(a: Seq<char>, sep: char, b: Seq<char>)
    requires
        sep == ':' || sep == '-',
    ensures
        colons(a + seq![sep] + b) == colons(a) + seq![':'] + colons(b),
{
    assert(colons(a + seq![sep] + b) =~= colons(a) + seq![':'] + colons(b));
}

/// Whether a text stays as it is when hyphens become colons, and holds none.
spec fn one_piece(h: Seq<char>) -> bool {
    colons(h) == h && !h.contains(':')
}

proof fn lemma_two_pieces(h: Seq<char>, sep: char, rest: Seq<char>, ps: Seq<Seq<char>>)
    requires
        sep == ':' || sep == '-',
        one_piece(h),
        pieces(colons(rest), ':') == ps,
    ensures
        pieces(colons(h + seq![sep] + rest), ':') == seq![h] + ps,
{
    lemma_colons_joined(h, sep, rest);
    lemma_pieces_front(h, ':', colons(rest));
}

proof fn lemma_six_pieces(
    a: Seq<char>,
    b: Seq<char>,
    c: Seq<char>,
    d: Seq<char>,
    e: Seq<char>,
    f: Seq<char>,
    sep: char,
)
    requires
        sep == ':' || sep == '-',
        one_piece(a) && one_piece(b) && one_piece(c) && one_piece(d) && one_piece(e) && one_piece(f),
    ensures
        pieces(
            colons(
                a + seq![sep] + (b + seq![sep] + (c + seq![sep] + (d + seq![sep] + (e + seq![sep]
                    + f)))),
            ),
            ':',
        ) == seq![a, b, c, d, e, f],
{
    let s = seq![sep];
    lemma_pieces_front(f, ':', f);
    lemma_two_pieces(e, sep, f, seq![f]);
    assert(seq![e] + seq![f] =~= seq![e, f]);
    lemma_two_pieces(d, sep, e + s + f, seq![e, f]);
    assert(seq![d] + seq![e, f] =~= seq![d, e, f]);
    lemma_two_pieces(c, sep, d + s + (e + s + f), seq![d, e, f]);
    assert(seq![c] + seq![d, e, f] =~= seq![c, d, e, f]);
    lemma_two_pieces(b, sep, c + s + (d + s + (e + s + f)), seq![c, d, e, f]);
    assert(seq![b] + seq![c, d, e, f] =~= seq![b, c, d, e, f]);
    lemma_two_pieces(a, sep, b + s + (c + s + (d + s + (e + s + f))), seq![b, c, d, e, f]);
    assert(seq![a] + seq![b, c, d, e, f] =~= seq![a, b, c, d, e, f]);
}

/// Six bytes written in hexadecimal, in either case, with colons or with hyphens between
/// them, are the hardware address of those bytes.
pub proof fn law_a_hardware_address_is_read(m: Seq<u8>, sep: char, upper: bool)
    requires
        m.len() == 6,
        sep == ':' || sep == '-',
    ensures
        ({
            let h = |i: int| hex_byte(m[i], upper);
            let s = seq![sep];
            mac_of(h(0) + s + (h(1) + s + (h(2) + s + (h(3) + s + (h(4) + s + h(5)))))) == Some(m)
        }),
{
    let a = hex_byte(m[0], upper);
    let b = hex_byte(m[1], upper);
    let c = hex_byte(m[2], upper);
    let d = hex_byte(m[3], upper);
    let e = hex_byte(m[4], upper);
    let f = hex_byte(m[5], upper);
    lemma_hex_is_plain(m[0], upper);
    lemma_hex_is_plain(m[1], upper);
    lemma_hex_is_plain(m[2], upper);
    lemma_hex_is_plain(m[3], upper);
    lemma_hex_is_plain(m[4], upper);
    lemma_hex_is_plain(m[5], upper);
    lemma_six_pieces(a, b, c, d, e, f, sep);
    let s = seq![sep];
    let t = a + s + (b + s + (c + s + (d + s + (e + s + f))));
    let p = seq![a, b, c, d, e, f];
    assert forall|i: int| 0 <= i < 6 implies mac_byte(#[trigger] p[i]) == Some(m[i] as int) by {}
    assert(mac_of(t)->0 =~= m);
}

/// An address is mentioned wherever it stands on its own, whatever stands before and behind
/// it, and nothing else mentions it.
pub proof fn law_an_address_is_mentioned_on_its_own(
    a: Seq<char>,
    ip: Ipv4Addr,
    b: Seq<char>,
    text: Seq<char>,
)
    ensures
        (a.len() == 0 || !('0' <= a.last() <= '9') && a.last() != '.') && (b.len() == 0 || !('0'
            <= b[0] <= '9') && b[0] != '.') ==> mentions(a + ip.dotted() + b, ip),
        mentions(text, ip) ==> exists|i: int|
            0 <= i && i + ip.dotted().len() <= text.len() && #[trigger] text.skip(i).take(
                ip.dotted().len() as int,
            ) == ip.dotted() && (i > 0 ==> !('0' <= text[i - 1] <= '9')),
{
    let w = ip.dotted();
    let s = a + w + b;
    if (a.len() == 0 || !('0' <= a.last() <= '9') && a.last() != '.') && (b.len() == 0 || !('0'
        <= b[0] <= '9') && b[0] != '.') {
        let i = a.len() as int;
        assert(s.subrange(i, i + w.len()) =~= w);
        if i > 0 {
            assert(s[i - 1] == a.last());
        }
        if b.len() > 0 {
            assert(s[i + w.len()] == b[0]);
        }
        assert(whole_at(s, w, i));
    }
    if mentions(text, ip) {
        let i = choose|i: int| whole_at(text, w, i);
        assert(text.skip(i).take(w.len() as int) =~= text.subrange(i, i + w.len()));
    }
}

/// Of the addresses a machine holds, those are connected that the system mentions; where it
/// mentions none, or cannot be asked, all of them are taken.
pub proof fn law_connected_is_what_is_mentioned(held: Seq<Ipv4Addr>, text: Seq<char>, a: Ipv4Addr)
    ensures
        connected(held, None) == held,
        mentioned(held, text).contains(a) <==> held.contains(a) && mentions(text, a),
        held.contains(a) && mentions(text, a) ==> connected(held, Some(text)).contains(a),
        (exists|i: int| 0 <= i < held.len() && mentions(text, #[trigger] held[i])) && !mentions(text, a)
            ==> !connected(held, Some(text)).contains(a),
        (forall|i: int| 0 <= i < held.len() ==> !mentions(text, #[trigger] held[i])) ==> connected(
            held,
            Some(text),
        ) == held,
    decreases held.len(),
{
    lemma_mentioned(held, text, a);
    if exists|i: int| 0 <= i < held.len() && mentions(text, #[trigger] held[i]) {
        let i = choose|i: int| 0 <= i < held.len() && mentions(text, #[trigger] held[i]);
        lemma_mentioned(held, text, held[i]);
        assert(held.contains(held[i]));
        assert(mentioned(held, text).contains(held[i]));
    }
    if forall|i: int| 0 <= i < held.len() ==> !mentions(text, #[trigger] held[i]) {
        if mentioned(held, text).len() > 0 {
            let x = mentioned(held, text)[0];
            assert(mentioned(held, text).contains(x));
            lemma_mentioned(held, text, x);
        }
    }
}

proof fn lemma_mentioned(held: Seq<Ipv4Addr>, text: Seq<char>, a: Ipv4Addr)
    ensures
        mentioned(held, text).contains(a) <==> held.contains(a) && mentions(text, a),
    decreases held.len(),
{
    if held.len() > 0 {
        let d = held.drop_last();
        let m = mentioned(d, text);
        lemma_mentioned(d, text, a);
        assert(held =~= d.push(held.last()));
        if held.contains(a) && held.last() != a {
            let i = choose|i: int| 0 <= i < held.len() && held[i] == a;
            assert(d[i] == a);
        }
        if d.contains(a) {
            let i = choose|i: int| 0 <= i < d.len() && d[i] == a;
            assert(held[i] == a);
        }
        if mentions(text, held.last()) {
            let r = m.push(held.last());
            if m.contains(a) {
                let i = choose|i: int| 0 <= i < m.len() && m[i] == a;
                assert(r[i] == a);
            }
            if held.last() == a {
                assert(r[m.len() as int] == a);
                assert(held[held.len() - 1] == a);
            }
            if r.contains(a) && !m.contains(a) {
                let i = choose|i: int| 0 <= i < r.len() && r[i] == a;
                assert(i == m.len());
            }
        }
    }
}

/// A router counts where it is really there: one that answers on the wire does, one that
/// is only written down does not, and an address that a machine gave itself is none.
pub proof fn law_only_a_router_that_answers_counts(g: Ipv4Addr, text: String)
    ensures
        live_router(None, Neighbours::Failed) is None,
        g.a == 169 && g.b == 254 ==> live_router(Some(g), Neighbours::Failed) is None,
        !(g.a == 169 && g.b == 254) ==> live_router(Some(g), Neighbours::Failed) == Some(g),
        live_router(Some(g), Neighbours::Unasked) is None,
        !(g.a == 169 && g.b == 254) && mentions(text@, g) ==> live_router(
            Some(g),
            Neighbours::Told(text),
        ) == Some(g),
        !mentions(text@, g) ==> live_router(Some(g), Neighbours::Told(text)) is None,
{
}

proof fn lemma_hex_behind(s: Seq<char>, b: u8, upper: bool, v: int)
    requires
        digits_value(s, 16) == Some(v),
    ensures
        digits_value(s + hex_byte(b, upper), 16) == Some(v * 256 + b),
{
    let h = hex_byte(b, upper);
    let t = s + h;
    assert(digit_of(h[0], 16) == Some(b as int / 16));
    assert(digit_of(h[1], 16) == Some(b as int % 16));
    assert(t.drop_last() =~= s.push(h[0]));
    assert(t.drop_last().drop_last() =~= s);
    assert(digits_value(t.drop_last(), 16) == Some(v * 16 + b as int / 16));
}

/// The gateway of the routing table is the one on the first line with no destination, read
/// from its last byte to its first.
pub proof fn law_the_gateway_is_read_backwards(
    ls: Seq<Seq<char>>,
    k: int,
    ip: Ipv4Addr,
    upper: bool,
)
    requires
        1 <= k < ls.len(),
        forall|j: int| 1 <= j < k ==> words(#[trigger] ls[j]).len() >= 3 && words(ls[j])[1]
            != "00000000"@,
        words(ls[k]).len() >= 3,
        words(ls[k])[1] == "00000000"@,
        words(ls[k])[2] == hex_byte(ip.d, upper) + hex_byte(ip.c, upper) + hex_byte(ip.b, upper)
            + hex_byte(ip.a, upper),
        ip != (Ipv4Addr { a: 0, b: 0, c: 0, d: 0 }),
    ensures
        gateway_from(ls, 1) == Some(ip),
{
    let w = words(ls[k])[2];
    let none = Seq::<char>::empty();
    let d = hex_byte(ip.d, upper);
    let c = hex_byte(ip.c, upper);
    let b = hex_byte(ip.b, upper);
    let a = hex_byte(ip.a, upper);
    assert(none + d =~= d);
    assert(digits_value(none, 16) == Some(0int));
    lemma_hex_behind(none, ip.d, upper, 0);
    lemma_hex_behind(d, ip.c, upper, ip.d as int);
    lemma_hex_behind(d + c, ip.b, upper, ip.d * 256 + ip.c);
    lemma_hex_behind(d + c + b, ip.a, upper, (ip.d * 256 + ip.c) * 256 + ip.b);
    let n = ((ip.d * 256 + ip.c) * 256 + ip.b) * 256 + ip.a;
    assert(w[0] == d[0]);
    assert(unsigned(w, 16, 0xffff_ffff) == Some(n));
    assert(address_le(n) == ip);
    lemma_gateway_at(ls, 1, k, ip);
}

proof fn lemma_gateway_at(ls: Seq<Seq<char>>, i: int, k: int, ip: Ipv4Addr)
    requires
        0 <= i <= k < ls.len(),
        forall|j: int| i <= j < k ==> words(#[trigger] ls[j]).len() >= 3 && words(ls[j])[1]
            != "00000000"@,
        words(ls[k]).len() >= 3,
        words(ls[k])[1] == "00000000"@,
        unsigned(words(ls[k])[2], 16, 0xffff_ffff) matches Some(n) && n != 0 && address_le(n) == ip,
    ensures
        gateway_from(ls, i) == Some(ip),
    decreases k - i,
{
    if i < k {
        assert(words(ls[i])[1] != "00000000"@);
        lemma_gateway_at(ls, i + 1, k, ip);
    }
}

proof fn lemma_with_addresses(list: Seq<Ipv4Addr>, more: Seq<Ipv4Addr>, a: Ipv4Addr)
    ensures
        list.contains(a) || more.contains(a) <==> with_addresses(list, more).contains(a),
        with_addresses(list, more).len() >= list.len(),
        forall|i: int| 0 <= i < list.len() ==> #[trigger] with_addresses(list, more)[i] == list[i],
    decreases more.len(),
{
    if more.len() > 0 {
        let d = more.drop_last();
        let before = with_addresses(list, d);
        lemma_with_addresses(list, d, a);
        let x = more.last();
        assert(more =~= d.push(x));
        if more.contains(a) && x != a {
            let i = choose|i: int| 0 <= i < more.len() && more[i] == a;
            assert(d[i] == a);
        }
        if d.contains(a) {
            let i = choose|i: int| 0 <= i < d.len() && d[i] == a;
            assert(more[i] == a);
        }
        if x == a {
            assert(more[more.len() - 1] == a);
        }
        if !before.contains(x) {
            let r = before.push(x);
            assert(r[before.len() as int] == x);
            if before.contains(a) {
                let i = choose|i: int| 0 <= i < before.len() && before[i] == a;
                assert(r[i] == a);
            }
            if r.contains(a) && !before.contains(a) {
                let i = choose|i: int| 0 <= i < r.len() && r[i] == a;
                assert(i == before.len());
            }
        }
    }
}

/// Whoever may hand out files is asked: the gateway before all others, the gateways of the
/// usual hotspots, and the first of each segment that this machine is in; and nobody else.
pub proof fn law_everybody_worth_asking_is_asked(
    gateway: Option<Ipv4Addr>,
    locals: Seq<Ipv4Addr>,
    a: Ipv4Addr,
)
    ensures
        gateway matches Some(g) ==> candidates(gateway, locals).len() > 0 && candidates(
            gateway,
            locals,
        )[0] == g,
        candidates(gateway, locals).contains(a) <==> {
            ||| gateway == Some(a)
            ||| a == (Ipv4Addr { a: 10, b: 42, c: 0, d: 1 })
            ||| a == (Ipv4Addr { a: 192, b: 168, c: 137, d: 1 })
            ||| a == (Ipv4Addr { a: 192, b: 168, c: 43, d: 1 })
            ||| (a.d == 1 && exists|i: int|
                0 <= i < locals.len() && (#[trigger] locals[i]).a == a.a && locals[i].b == a.b
                    && locals[i].c == a.c)
        },
{
    let first = match gateway {
        Some(g) => seq![g],
        None => Seq::empty(),
    };
    let known = known_gateways();
    let beside_us = locals.map_values(|x: Ipv4Addr| first_beside(x));
    let mid = with_addresses(first, known);
    lemma_with_addresses(first, known, a);
    lemma_with_addresses(mid, beside_us, a);
    if let Some(g) = gateway {
        assert(first[0] == g);
        assert(mid[0] == g);
    }
    assert(first.contains(a) <==> gateway == Some(a)) by {
        if gateway == Some(a) {
            assert(first[0] == a);
        }
    }
    assert(known[0] == (Ipv4Addr { a: 10, b: 42, c: 0, d: 1 }));
    assert(known[1] == (Ipv4Addr { a: 192, b: 168, c: 137, d: 1 }));
    assert(known[2] == (Ipv4Addr { a: 192, b: 168, c: 43, d: 1 }));
    if beside_us.contains(a) {
        let i = choose|i: int| 0 <= i < beside_us.len() && beside_us[i] == a;
        assert(first_beside(locals[i]) == a);
    }
    if a.d == 1 && exists|i: int|
        0 <= i < locals.len() && (#[trigger] locals[i]).a == a.a && locals[i].b == a.b
            && locals[i].c == a.c {
        let i = choose|i: int|
            0 <= i < locals.len() && (#[trigger] locals[i]).a == a.a && locals[i].b == a.b
                && locals[i].c == a.c;
        assert(beside_us[i] == a);
    }
}

/// All addresses of this machine are its own but those by which it means itself.
pub proof fn law_what_is_our_own(named: Seq<Ipv4Addr>, a: Ipv4Addr)
    ensures
        own_addresses(named).contains(a) <==> named.contains(a) && a.a != 127,
    decreases named.len(),
{
    if named.len() > 0 {
        let d = named.drop_last();
        let x = named.last();
        let before = own_addresses(d);
        law_what_is_our_own(d, a);
        assert(named =~= d.push(x));
        if named.contains(a) && x != a {
            let i = choose|i: int| 0 <= i < named.len() && named[i] == a;
            assert(d[i] == a);
        }
        if d.contains(a) {
            let i = choose|i: int| 0 <= i < d.len() && d[i] == a;
            assert(named[i] == a);
        }
        if x == a {
            assert(named[named.len() - 1] == a);
        }
        if !x.loopback() && !before.contains(x) {
            let r = before.push(x);
            assert(r[before.len() as int] == x);
            if before.contains(a) {
                let i = choose|i: int| 0 <= i < before.len() && before[i] == a;
                assert(r[i] == a);
            }
            if r.contains(a) && !before.contains(a) {
                let i = choose|i: int| 0 <= i < r.len() && r[i] == a;
                assert(i == before.len());
            }
        }
    }
}

} // verus!
