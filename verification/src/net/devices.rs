//! Who has joined the network, and how to tell them apart.

use super::addresses::{beside, same_subnet};
use crate::addr::{address, law_address_reads_back, parse_address, Ipv4Addr};
use crate::sha256::{digest, fingerprint};
use crate::text::{
    chars_of, is_text, lines, split_lines, split_words, string_of, text_view, views, words,
};
use std::collections::HashMap;
use vstd::prelude::*;
use vstd::utf8::encode_utf8;

verus! {

broadcast use vstd::std_specs::hash::group_hash_axioms;

/// A device that has joined the network but may not have asked for anything.
#[derive(Debug)]
pub struct Joined {
    pub ip: Ipv4Addr,
    /// What the device calls itself, where it said.
    pub name: Option<String>,
}

/// A device as plain values.
pub type Guest = (Ipv4Addr, Option<Seq<char>>);

/// Devices as plain values.
pub open spec fn guests(v: Seq<Joined>) -> Seq<Guest> {
    Seq::new(v.len(), |i: int| (v[i].ip, text_view(v[i].name)))
}

/// The device on a line of the lease list: when it ends, the hardware address,
/// the address, and the name, or a star where it offered none. The hardware
/// address is not carried any further: it is somebody else's, for ever.
pub open spec fn lease_on(line: Seq<char>, ours: Ipv4Addr) -> Option<Guest> {
    let f = words(line);
    if f.len() < 4 {
        None
    } else {
        match address(f[2]) {
            Some(ip) => if ip == ours || !beside(ip, ours) {
                None
            } else {
                Some(
                    (
                        ip,
                        if f[3] == "*"@ {
                            None
                        } else {
                            Some(f[3])
                        },
                    ),
                )
            },
            None => None,
        }
    }
}

/// The device on a line of the neighbour table. A line whose flags say that the
/// device never answered is none.
pub open spec fn neighbour_on(line: Seq<char>, ours: Ipv4Addr) -> Option<Guest> {
    let f = words(line);
    if f.len() < 4 || f[2] != "0x2"@ {
        None
    } else {
        match address(f[0]) {
            Some(ip) => if ip == ours || !beside(ip, ours) {
                None
            } else {
                Some((ip, None))
            },
            None => None,
        }
    }
}

/// The devices on some lines of the lease list.
pub open spec fn leases_in(ls: Seq<Seq<char>>, ours: Ipv4Addr) -> Seq<Guest>
    decreases ls.len(),
{
    if ls.len() == 0 {
        Seq::empty()
    } else {
        match lease_on(ls.last(), ours) {
            Some(g) => leases_in(ls.drop_last(), ours).push(g),
            None => leases_in(ls.drop_last(), ours),
        }
    }
}

/// The devices on some lines of the neighbour table.
pub open spec fn neighbours_in(ls: Seq<Seq<char>>, ours: Ipv4Addr) -> Seq<Guest>
    decreases ls.len(),
{
    if ls.len() == 0 {
        Seq::empty()
    } else {
        match neighbour_on(ls.last(), ours) {
            Some(g) => neighbours_in(ls.drop_last(), ours).push(g),
            None => neighbours_in(ls.drop_last(), ours),
        }
    }
}

/// Some lines without the heading.
pub open spec fn below_heading(ls: Seq<Seq<char>>) -> Seq<Seq<char>> {
    if ls.len() > 0 {
        ls.skip(1)
    } else {
        ls
    }
}

fn read_lease(line: &[char], ours: Ipv4Addr) -> (r: Option<Joined>)
    ensures
        r is Some <==> lease_on(line@, ours) is Some,
        r matches Some(j) ==> lease_on(line@, ours) == Some((j.ip, text_view(j.name))),
{
    let f: Vec<&[char]> = split_words(line);
    assert(f.len() == words(line@).len());
    if f.len() < 4 {
        return None;
    }
    assert(views(f@)[2] == f@[2]@ && views(f@)[3] == f@[3]@);
    match parse_address(f[2]) {
        Some(ip) => {
            if ip == ours || !same_subnet(ip, ours) {
                None
            } else if is_text(f[3], "*") {
                Some(Joined { ip, name: None })
            } else {
                Some(Joined { ip, name: Some(string_of(f[3])) })
            }
        },
        None => None,
    }
}

fn read_neighbour(line: &[char], ours: Ipv4Addr) -> (r: Option<Joined>)
    ensures
        r is Some <==> neighbour_on(line@, ours) is Some,
        r matches Some(j) ==> neighbour_on(line@, ours) == Some((j.ip, text_view(j.name))),
{
    let f: Vec<&[char]> = split_words(line);
    assert(f.len() == words(line@).len());
    if f.len() < 4 {
        return None;
    }
    assert(views(f@)[0] == f@[0]@ && views(f@)[2] == f@[2]@);
    if !is_text(f[2], "0x2") {
        return None;
    }
    match parse_address(f[0]) {
        Some(ip) => {
            if ip == ours || !same_subnet(ip, ours) {
                None
            } else {
                Some(Joined { ip, name: None })
            }
        },
        None => None,
    }
}

/// The other devices of our segment in the lease list.
pub fn parse_leases(text: &str, ours: Ipv4Addr) -> (out: Vec<Joined>)
    ensures
        guests(out@) == leases_in(lines(text@), ours),
{
    let c: Vec<char> = chars_of(text);
    let ls: Vec<&[char]> = split_lines(c.as_slice());
    let ghost all = lines(text@);
    let mut out: Vec<Joined> = Vec::new();
    let mut i: usize = 0;
    assert(guests(out@) =~= leases_in(all.take(0), ours));
    while i < ls.len()
        invariant
            views(ls@) == all,
            i <= ls.len(),
            guests(out@) == leases_in(all.take(i as int), ours),
        decreases ls.len() - i,
    {
        assert(all[i as int] == ls@[i as int]@);
        assert(all.take(i + 1).drop_last() =~= all.take(i as int));
        if let Some(j) = read_lease(ls[i], ours) {
            let ghost before = out@;
            out.push(j);
            assert(guests(out@) =~= guests(before).push((j.ip, text_view(j.name))));
        }
        i = i + 1;
    }
    assert(all.take(all.len() as int) =~= all);
    out
}

/// The other devices of our segment in the neighbour table, whose first line is
/// a heading.
pub fn parse_arp(text: &str, ours: Ipv4Addr) -> (out: Vec<Joined>)
    ensures
        guests(out@) == neighbours_in(below_heading(lines(text@)), ours),
{
    let c: Vec<char> = chars_of(text);
    let ls: Vec<&[char]> = split_lines(c.as_slice());
    let ghost all = below_heading(lines(text@));
    let mut out: Vec<Joined> = Vec::new();
    let mut i: usize = 1;
    assert(guests(out@) =~= neighbours_in(all.take(0), ours));
    assert(ls.len() == lines(text@).len());
    while i < ls.len()
        invariant
            views(ls@) == lines(text@),
            all == below_heading(lines(text@)),
            1 <= i,
            i <= ls.len() || ls.len() == 0 && i == 1,
            guests(out@) == neighbours_in(all.take(i - 1), ours),
        decreases ls.len() - i,
    {
        assert(all[i - 1] == ls@[i as int]@) by {
            assert(views(ls@)[i as int] == ls@[i as int]@);
        }
        assert(all.take(i as int).drop_last() =~= all.take(i - 1));
        if let Some(j) = read_neighbour(ls[i], ours) {
            let ghost before = out@;
            out.push(j);
            assert(guests(out@) =~= guests(before).push((j.ip, text_view(j.name))));
        }
        i = i + 1;
    }
    assert(all.take(all.len() as int) =~= all);
    out
}

/// An address as one number, by which addresses are ordered.
pub open spec fn rank(ip: Ipv4Addr) -> int {
    ip.a * 16777216 + ip.b * 65536 + ip.c * 256 + ip.d
}

/// An address as one number.
pub fn number_of(ip: Ipv4Addr) -> (n: u32)
    ensures
        n == rank(ip),
{
    ip.a as u32 * 16777216 + ip.b as u32 * 65536 + ip.c as u32 * 256 + ip.d as u32
}

/// Where a device belongs in an ordered list: behind all that do not come after
/// it.
pub open spec fn place_in(list: Seq<Guest>, ip: Ipv4Addr) -> int
    decreases list.len(),
{
    if list.len() == 0 {
        0
    } else if rank(list.last().0) <= rank(ip) {
        list.len() as int
    } else {
        place_in(list.drop_last(), ip)
    }
}

/// A list in the order of the addresses, those that have the same one as they
/// were.
pub open spec fn in_order(list: Seq<Guest>) -> Seq<Guest>
    decreases list.len(),
{
    if list.len() == 0 {
        list
    } else {
        let before = in_order(list.drop_last());
        before.insert(place_in(before, list.last().0), list.last())
    }
}

/// A list with more devices, but none whose address is already in it.
pub open spec fn with_guests(list: Seq<Guest>, more: Seq<Guest>) -> Seq<Guest>
    decreases more.len(),
{
    if more.len() == 0 {
        list
    } else {
        let before = with_guests(list, more.drop_last());
        if exists|i: int| 0 <= i < before.len() && (#[trigger] before[i]).0 == more.last().0 {
            before
        } else {
            before.push(more.last())
        }
    }
}

fn add_guest(list: &mut Vec<Joined>, j: Joined)
    ensures
        guests(final(list)@) == with_guests(guests(old(list)@), seq![(j.ip, text_view(j.name))]),
{
    let ghost one = seq![(j.ip, text_view(j.name))];
    let ghost start = guests(list@);
    proof {
        assert(one.drop_last() =~= Seq::empty());
        assert(with_guests(start, one.drop_last()) == start);
    }
    let mut i: usize = 0;
    while i < list.len()
        invariant
            i <= list.len(),
            *list == *old(list),
            start == guests(list@),
            one == seq![(j.ip, text_view(j.name))],
            with_guests(start, one.drop_last()) == start,
            forall|k: int| 0 <= k < i ==> (#[trigger] guests(list@)[k]).0 != j.ip,
        decreases list.len() - i,
    {
        if list[i].ip == j.ip {
            assert(guests(list@)[i as int].0 == j.ip);
            return ;
        }
        i = i + 1;
    }
    let ghost before = list@;
    list.push(j);
    assert(guests(list@) =~= guests(before).push(one[0]));
}

fn put_in_order(list: &mut Vec<Joined>, j: Joined)
    ensures
        guests(final(list)@) == guests(old(list)@).insert(
            place_in(guests(old(list)@), j.ip),
            (j.ip, text_view(j.name)),
        ),
{
    let ghost all = guests(list@);
    let mut p: usize = list.len();
    assert(all.take(p as int) =~= all);
    while p > 0 && number_of(list[p - 1].ip) > number_of(j.ip)
        invariant
            p <= list.len(),
            *list == *old(list),
            all == guests(list@),
            place_in(all, j.ip) == place_in(all.take(p as int), j.ip),
        decreases p,
    {
        assert(all.take(p as int).drop_last() =~= all.take(p - 1));
        assert(all.take(p as int).last() == all[p - 1]);
        p = p - 1;
    }
    proof {
        if p > 0 {
            assert(all.take(p as int).last() == all[p - 1]);
        }
    }
    let ghost before = list@;
    list.insert(p, j);
    assert(guests(list@) =~= guests(before).insert(p as int, (j.ip, text_view(j.name))));
}

/// The devices on our network: those with a lease, which have a name, then those
/// that are only neighbours, in the order of their addresses.
pub fn joined_devices(leases: Vec<Joined>, neighbours: Vec<Joined>) -> (out: Vec<Joined>)
    ensures
        guests(out@) == in_order(with_guests(guests(leases@), guests(neighbours@))),
{
    let ghost more = guests(neighbours@);
    let ghost start = guests(leases@);
    let mut all: Vec<Joined> = leases;
    let mut i: usize = 0;
    assert(more.take(0) =~= Seq::empty());
    while i < neighbours.len()
        invariant
            more == guests(neighbours@),
            i <= neighbours.len(),
            guests(all@) == with_guests(start, more.take(i as int)),
        decreases neighbours.len() - i,
    {
        let name: Option<String> = match &neighbours[i].name {
            Some(s) => Some(s.clone()),
            None => None,
        };
        let ghost before = guests(all@);
        let ghost one = seq![more[i as int]];
        add_guest(&mut all, Joined { ip: neighbours[i].ip, name });
        proof {
            assert(one.drop_last() =~= Seq::empty());
            assert(with_guests(before, one.drop_last()) == before);
            assert(more.take(i + 1).drop_last() =~= more.take(i as int));
            assert(more.take(i + 1).last() == one[0]);
        }
        i = i + 1;
    }
    assert(more.take(more.len() as int) =~= more);
    let ghost whole = guests(all@);
    let mut out: Vec<Joined> = Vec::new();
    let mut k: usize = 0;
    assert(guests(out@) =~= in_order(whole.take(0)));
    while k < all.len()
        invariant
            whole == guests(all@),
            k <= all.len(),
            guests(out@) == in_order(whole.take(k as int)),
        decreases all.len() - k,
    {
        let name: Option<String> = match &all[k].name {
            Some(s) => Some(s.clone()),
            None => None,
        };
        let ghost before = guests(out@);
        put_in_order(&mut out, Joined { ip: all[k].ip, name });
        proof {
            assert(whole.take(k + 1).drop_last() =~= whole.take(k as int));
            assert(whole.take(k + 1).last() == whole[k as int]);
        }
        k = k + 1;
    }
    assert(whole.take(whole.len() as int) =~= whole);
    out
}

/// A list that was put in order is in order, and holds the same devices.
pub proof fn law_devices_are_in_order(list: Seq<Guest>)
    ensures
        in_order(list).to_multiset() == list.to_multiset(),
        forall|i: int, j: int|
            0 <= i < j < in_order(list).len() ==> rank(in_order(list)[i].0) <= rank(
                in_order(list)[j].0,
            ),
    decreases list.len(),
{
    broadcast use vstd::seq_lib::group_to_multiset_ensures;

    if list.len() > 0 {
        let g = list.last();
        law_devices_are_in_order(list.drop_last());
        let before = in_order(list.drop_last());
        let p = place_in(before, g.0);
        lemma_place(before, g.0);
        let after = before.insert(p, g);
        assert(list =~= list.drop_last().push(g));
        assert(after.to_multiset() =~= before.to_multiset().insert(g));
        assert forall|i: int, j: int| 0 <= i < j < after.len() implies rank(after[i].0) <= rank(
            after[j].0,
        ) by {
            let x = if i < p {
                i
            } else {
                i - 1
            };
            let y = if j < p {
                j
            } else {
                j - 1
            };
            if i != p && j != p {
                assert(after[i] == before[x] && after[j] == before[y]);
            } else if i == p {
                assert(after[j] == before[y]);
            } else {
                assert(after[i] == before[x]);
            }
        }
    }
}

proof fn lemma_place(list: Seq<Guest>, ip: Ipv4Addr)
    requires
        forall|i: int, j: int| 0 <= i < j < list.len() ==> rank(list[i].0) <= rank(list[j].0),
    ensures
        0 <= place_in(list, ip) <= list.len(),
        forall|i: int| 0 <= i < place_in(list, ip) ==> rank(#[trigger] list[i].0) <= rank(ip),
        forall|i: int|
            place_in(list, ip) <= i < list.len() ==> rank(ip) < rank(#[trigger] list[i].0),
    decreases list.len(),
{
    if list.len() > 0 && rank(list.last().0) > rank(ip) {
        let d = list.drop_last();
        assert forall|i: int, j: int| 0 <= i < j < d.len() implies rank(d[i].0) <= rank(d[j].0) by {
            assert(d[i] == list[i] && d[j] == list[j]);
        }
        lemma_place(d, ip);
        assert forall|i: int| 0 <= i < place_in(list, ip) implies rank(#[trigger] list[i].0) <= rank(
            ip,
        ) by {
            assert(d[i] == list[i]);
        }
        assert forall|i: int| place_in(list, ip) <= i < list.len() implies rank(ip) < rank(
            #[trigger] list[i].0,
        ) by {
            if i < d.len() {
                assert(d[i] == list[i]);
            }
        }
    }
}

// ------------------------------------------------------------- tags

/// The letters and digits that cannot be taken for one another.
pub const ALPHABET: &'static str = "abcdefghjkmnpqrstuvwxyz23456789";

/// One of them.
pub open spec fn letter(n: int) -> char {
    ALPHABET@[n % 31]
}

/// One of the letters and digits that cannot be taken for one another.
pub fn letter_of(b: u8) -> (c: char)
    ensures
        c == letter(b as int),
{
    proof {
        reveal_strlit("abcdefghjkmnpqrstuvwxyz23456789");
    }
    let all: Vec<char> = chars_of(ALPHABET);
    all[(b % 31) as usize]
}

/// Four characters from the fingerprint of a text: enough to tell two devices in
/// a room apart, and meaningless outside it.
pub open spec fn tag_of(input: Seq<char>) -> Seq<char> {
    let d = fingerprint(encode_utf8(input));
    seq![letter(d[0] as int), letter(d[1] as int), letter(d[2] as int), letter(d[3] as int)]
}

/// Four characters from the fingerprint of a text.
pub fn short_hash(input: &str) -> (s: String)
    ensures
        s@ == tag_of(input@),
{
    let d: Vec<u8> = digest(input.as_bytes());
    let mut s = String::new();
    s.push(letter_of(d[0]));
    s.push(letter_of(d[1]));
    s.push(letter_of(d[2]));
    s.push(letter_of(d[3]));
    assert(s@ =~= tag_of(input@));
    s
}

/// The hardware address that goes with an address, on the first line from `i` on
/// of the neighbour table that has it and was answered.
pub open spec fn mac_from(ls: Seq<Seq<char>>, i: int, ip: Seq<char>) -> Option<Seq<char>>
    decreases ls.len() - i,
{
    if i >= ls.len() {
        None
    } else {
        let f = words(ls[i]);
        if f.len() >= 4 && f[0] == ip && f[2] == "0x2"@ {
            Some(f[3])
        } else {
            mac_from(ls, i + 1, ip)
        }
    }
}

/// The hardware address that goes with an address, from the neighbour table.
pub fn mac_for(table: &str, ip: &str) -> (r: Option<String>)
    ensures
        text_view(r) == mac_from(lines(table@), 1, ip@),
{
    let c: Vec<char> = chars_of(table);
    let ls: Vec<&[char]> = split_lines(c.as_slice());
    let ghost all = lines(table@);
    let mut i: usize = 1;
    assert(ls.len() == all.len());
    while i < ls.len()
        invariant
            views(ls@) == all,
            all == lines(table@),
            1 <= i,
            i <= ls.len() || i == 1,
            mac_from(all, 1, ip@) == mac_from(all, i as int, ip@),
        decreases ls.len() - i,
    {
        assert(all[i as int] == ls@[i as int]@);
        let f: Vec<&[char]> = split_words(ls[i]);
        assert(f.len() == words(all[i as int]).len());
        if f.len() >= 4 {
            assert(views(f@)[0] == f@[0]@ && views(f@)[2] == f@[2]@ && views(f@)[3] == f@[3]@);
            if is_text(f[0], ip) && is_text(f[2], "0x2") {
                return Some(string_of(f[3]));
            }
        }
        i = i + 1;
    }
    None
}

/// A short, stable tag for one device: it stays the same when the device gets
/// another address or another name. Nothing where the table does not know it.
pub fn device_tag(table: &str, ip: &str) -> (r: Option<String>)
    ensures
        text_view(r) == (match mac_from(lines(table@), 1, ip@) {
            Some(mac) => Some(tag_of(mac)),
            None => None,
        }),
{
    match mac_for(table, ip) {
        Some(mac) => Some(short_hash(mac.as_str())),
        None => None,
    }
}

// ------------------------------------------------------------- names

/// How often a name is looked up before giving up.
pub const MAX_TRIES: u8 = 4;

/// How long to wait before looking it up again, in milliseconds.
pub const RETRY_AFTER_MS: u64 = 5000;

/// What is known of a name.
#[derive(Debug)]
pub struct Lookup {
    pub name: Option<String>,
    pub tries: u8,
    /// When it was last looked up, in milliseconds.
    pub last: u64,
}

/// What is known of a name, as plain values.
pub struct LookupModel {
    pub name: Option<Seq<char>>,
    pub tries: u8,
    pub last: u64,
}

impl View for Lookup {
    type V = LookupModel;

    open spec fn view(&self) -> LookupModel {
        LookupModel { name: text_view(self.name), tries: self.tries, last: self.last }
    }
}

/// Names by address, looked up in the background. Each is tried a few times,
/// since a device can be seen before its name is known.
pub struct NameCache {
    pub map: HashMap<u32, Lookup>,
}

/// Whether it is worth looking up a name now.
pub open spec fn worth_asking(m: Map<u32, LookupModel>, ip: u32, now: int) -> bool {
    !m.contains_key(ip) || (m[ip].name is None && m[ip].tries < MAX_TRIES && now - m[ip].last
        >= RETRY_AFTER_MS)
}

impl NameCache {
    /// What is known, by address.
    pub open spec fn view(&self) -> Map<u32, LookupModel> {
        self.map@.map_values(|l: Lookup| l@)
    }

    /// Nothing known yet.
    pub fn new() -> (c: NameCache)
        ensures
            c@ == Map::<u32, LookupModel>::empty(),
    {
        let c = NameCache { map: HashMap::new() };
        assert(c@ =~= Map::<u32, LookupModel>::empty());
        c
    }

    /// The name for an address, if it is known.
    pub fn get(&self, ip: Ipv4Addr) -> (r: Option<String>)
        ensures
            text_view(r) == (if self@.contains_key(rank(ip) as u32) {
                self@[rank(ip) as u32].name
            } else {
                None
            }),
    {
        match self.map.get(&number_of(ip)) {
            Some(l) => match &l.name {
                Some(s) => Some(s.clone()),
                None => None,
            },
            None => None,
        }
    }

    /// Whether to look up a name now; if so, it counts as tried.
    pub fn ensure(&mut self, ip: Ipv4Addr, now: u64) -> (ask: bool)
        ensures
            ask == worth_asking(old(self)@, rank(ip) as u32, now as int),
            final(self)@ == (if ask {
                old(self)@.insert(
                    rank(ip) as u32,
                    LookupModel {
                        name: None,
                        tries: (if old(self)@.contains_key(rank(ip) as u32) {
                            old(self)@[rank(ip) as u32].tries + 1
                        } else {
                            1
                        }) as u8,
                        last: now,
                    },
                )
            } else {
                old(self)@
            }),
    {
        let n: u32 = number_of(ip);
        let mut tries: u8 = 0;
        if let Some(l) = self.map.get(&n) {
            if l.name.is_some() || l.tries >= MAX_TRIES || now < l.last || now - l.last
                < RETRY_AFTER_MS {
                return false;
            }
            tries = l.tries;
        }
        let ghost before = self.map@;
        let l = Lookup { name: None, tries: tries + 1, last: now };
        self.map.insert(n, l);
        assert(self@ =~= before.map_values(|l: Lookup| l@).insert(n, l@));
        true
    }

    /// A name was found for an address that was asked about. An empty one is none.
    pub fn found(&mut self, ip: Ipv4Addr, name: &str)
        ensures
            final(self)@ == (if name@.len() > 0 && old(self)@.contains_key(rank(ip) as u32) {
                old(self)@.insert(
                    rank(ip) as u32,
                    LookupModel { name: Some(name@), ..old(self)@[rank(ip) as u32] },
                )
            } else {
                old(self)@
            }),
    {
        if name.is_empty() {
            return ;
        }
        let n: u32 = number_of(ip);
        let mut known: Option<(u8, u64)> = None;
        if let Some(l) = self.map.get(&n) {
            known = Some((l.tries, l.last));
        }
        if let Some((tries, last)) = known {
            let ghost before = self.map@;
            let l = Lookup { name: Some(name.to_owned()), tries, last };
            self.map.insert(n, l);
            assert(self@ =~= before.map_values(|l: Lookup| l@).insert(n, l@));
        }
    }
}

/// No name is looked up more than a few times, and none that is known.
pub proof fn law_lookups_end(m: Map<u32, LookupModel>, ip: u32, now: int)
    requires
        m.contains_key(ip),
        m[ip].tries >= MAX_TRIES || m[ip].name is Some,
    ensures
        !worth_asking(m, ip, now),
{
}

// ------------------------------------------------------------- what the tables say

/// A device stands on a line of the lease list by its address, the third word, and its
/// name, the fourth, unless that is a star; our own address and those of other segments
/// are no devices of ours.
pub proof fn law_a_lease_is_a_device(line: Seq<char>, ours: Ipv4Addr, ip: Ipv4Addr)
    requires
        words(line).len() >= 4,
        words(line)[2] == ip.dotted(),
    ensures
        ({
            let near = ip.a == ours.a && ip.b == ours.b && ip.c == ours.c && ip.d != ours.d;
            &&& near && words(line)[3] != seq!['*'] ==> lease_on(line, ours) == Some(
                (ip, Some(words(line)[3])),
            )
            &&& near && words(line)[3] == seq!['*'] ==> lease_on(line, ours) == Some(
                (ip, None::<Seq<char>>),
            )
            &&& !near ==> lease_on(line, ours) is None
        }),
{
    reveal_strlit("*");
    assert("*"@ =~= seq!['*']);
    law_address_reads_back(ip);
}

/// A device stands on a line of the neighbour table by its address, the first word, where
/// the third says that it has answered.
pub proof fn law_a_neighbour_that_answered_is_a_device(
    line: Seq<char>,
    ours: Ipv4Addr,
    ip: Ipv4Addr,
)
    requires
        words(line).len() >= 4,
        words(line)[0] == ip.dotted(),
    ensures
        ({
            let near = ip.a == ours.a && ip.b == ours.b && ip.c == ours.c && ip.d != ours.d;
            let answered = words(line)[2] == seq!['0', 'x', '2'];
            &&& near && answered ==> neighbour_on(line, ours) == Some(
                (ip, None::<Seq<char>>),
            )
            &&& !near || !answered ==> neighbour_on(line, ours) is None
        }),
{
    reveal_strlit("0x2");
    assert("0x2"@ =~= seq!['0', 'x', '2']);
    law_address_reads_back(ip);
}

/// No line of either list is passed over, and nothing else is added: the devices of a list
/// are those of its lines, one after the other.
pub proof fn law_every_line_counts(a: Seq<Seq<char>>, line: Seq<char>, ours: Ipv4Addr)
    ensures
        leases_in(a.push(line), ours) == leases_in(a, ours) + (match lease_on(line, ours) {
            Some(g) => seq![g],
            None => Seq::empty(),
        }),
        neighbours_in(a.push(line), ours) == neighbours_in(a, ours) + (match neighbour_on(
            line,
            ours,
        ) {
            Some(g) => seq![g],
            None => Seq::empty(),
        }),
        below_heading(seq![line] + a) == a,
{
    assert(a.push(line).drop_last() =~= a);
    assert(leases_in(a, ours) + Seq::<Guest>::empty() =~= leases_in(a, ours));
    assert(neighbours_in(a, ours) + Seq::<Guest>::empty() =~= neighbours_in(a, ours));
    if let Some(g) = lease_on(line, ours) {
        assert(leases_in(a, ours).push(g) =~= leases_in(a, ours) + seq![g]);
    }
    if let Some(g) = neighbour_on(line, ours) {
        assert(neighbours_in(a, ours).push(g) =~= neighbours_in(a, ours) + seq![g]);
    }
    assert((seq![line] + a).skip(1) =~= a);
}

/// Each device is listed once: one that both lists name is shown as the leases have it,
/// and one that only the neighbours name is added.
pub proof fn law_each_device_is_listed_once(list: Seq<Guest>, more: Seq<Guest>, g: Guest)
    ensures
        ({
            let all = with_guests(list, more);
            let known = exists|i: int| 0 <= i < all.len() && (#[trigger] all[i]).0 == g.0;
            &&& with_guests(list, more.push(g)) == (if known { all } else { all.push(g) })
            &&& all.len() >= list.len() && forall|i: int|
                0 <= i < list.len() ==> #[trigger] all[i] == list[i]
        }),
    decreases more.len(),
{
    assert(more.push(g).drop_last() =~= more);
    if more.len() > 0 {
        law_each_device_is_listed_once(list, more.drop_last(), g);
    }
}

/// Addresses are ordered as they are read, from the left.
pub proof fn law_addresses_are_ordered_from_the_left(x: Ipv4Addr, y: Ipv4Addr)
    ensures
        rank(x) < rank(y) <==> x.a < y.a || (x.a == y.a && (x.b < y.b || (x.b == y.b && (x.c < y.c || (
        x.c == y.c && x.d < y.d))))),
        rank(x) == rank(y) <==> x == y,
        0 <= rank(x) <= u32::MAX,
{
}

proof fn lemma_mac_at(ls: Seq<Seq<char>>, i: int, k: int, ip: Seq<char>)
    requires
        0 <= i <= k < ls.len(),
        words(ls[k]).len() >= 4 && words(ls[k])[0] == ip && words(ls[k])[2] == seq!['0', 'x', '2'],
        forall|j: int| i <= j < k ==> words(#[trigger] ls[j]).len() > 0 && words(ls[j])[0] != ip,
    ensures
        mac_from(ls, i, ip) == Some(words(ls[k])[3]),
    decreases k - i,
{
    reveal_strlit("0x2");
    assert("0x2"@ =~= seq!['0', 'x', '2']);
    if i < k {
        assert(words(ls[i])[0] != ip);
        lemma_mac_at(ls, i + 1, k, ip);
    }
}

/// The hardware address is the fourth word on the line of the neighbour table that the
/// address has, wherever below the heading that stands.
pub proof fn law_the_hardware_address_is_on_the_line(table: Seq<char>, k: int, ip: Seq<char>)
    requires
        1 <= k < lines(table).len(),
        words(lines(table)[k]).len() >= 4,
        words(lines(table)[k])[0] == ip,
        words(lines(table)[k])[2] == seq!['0', 'x', '2'],
        forall|j: int|
            1 <= j < k ==> words(#[trigger] lines(table)[j]).len() > 0 && words(lines(table)[j])[0]
                != ip,
    ensures
        mac_from(lines(table), 1, ip) == Some(words(lines(table)[k])[3]),
{
    lemma_mac_at(lines(table), 1, k, ip);
}

/// A name that is not known is asked for again after five seconds, and four times at most;
/// one that is known is not asked for again.
pub proof fn law_names_are_asked_for_sparingly(m: Map<u32, LookupModel>, ip: u32, now: int)
    ensures
        !m.contains_key(ip) ==> worth_asking(m, ip, now),
        m.contains_key(ip) && m[ip].name is Some ==> !worth_asking(m, ip, now),
        m.contains_key(ip) && m[ip].tries >= 4 ==> !worth_asking(m, ip, now),
        m.contains_key(ip) && now < m[ip].last + 5000 ==> !worth_asking(m, ip, now),
        m.contains_key(ip) && m[ip].name is None && m[ip].tries < 4 && now >= m[ip].last + 5000
            ==> worth_asking(m, ip, now),
{
}

/// A device's tag is four characters that cannot be taken for one another: no letter that
/// looks like a digit, and no digit that looks like a letter.
pub proof fn law_tags_are_readable(input: Seq<char>, i: int)
    requires
        0 <= i < 4,
    ensures
        tag_of(input).len() == 4,
        ({
            let c = tag_of(input)[i];
            &&& 'a' <= c <= 'z' || '2' <= c <= '9'
            &&& c != 'i' && c != 'l' && c != 'o'
            &&& c == "abcdefghjkmnpqrstuvwxyz23456789"@[fingerprint(encode_utf8(input))[i] as int % 31]
        }),
{
    reveal_strlit("abcdefghjkmnpqrstuvwxyz23456789");
    let n = fingerprint(encode_utf8(input))[i] as int % 31;
    assert(0 <= n < 31);
}

} // verus!
