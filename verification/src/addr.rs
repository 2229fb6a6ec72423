//! IPv4 addresses, as numbers and as text.

use crate::number::{
    decimal, digit_char, digits_value, law_decimal_reads_back, lemma_unsigned_range, parse_decimal,
    push_decimal, unsigned,
};
use crate::text::{
    law_joining_puts_in_between, law_pieces_make_the_text_again, lemma_char_at_is, pieces,
    split_char, views,
};
use vstd::prelude::*;

verus! {

/// An IPv4 address, its four numbers in the order in which they are read.
#[derive(Clone, Copy, Debug, PartialEq, Eq, Structural)]
pub struct Ipv4Addr {
    pub a: u8,
    pub b: u8,
    pub c: u8,
    pub d: u8,
}

impl Ipv4Addr {
    /// The address with these four numbers.
    pub fn new(a: u8, b: u8, c: u8, d: u8) -> (ip: Self)
        ensures
            ip == (Ipv4Addr { a, b, c, d }),
    {
        Ipv4Addr { a, b, c, d }
    }

    /// The four numbers.
    pub open spec fn bytes(self) -> Seq<u8> {
        seq![self.a, self.b, self.c, self.d]
    }

    /// The four numbers.
    pub fn octets(&self) -> (o: [u8; 4])
        ensures
            o@ == self.bytes(),
    {
        let o: [u8; 4] = [self.a, self.b, self.c, self.d];
        assert(o@ =~= self.bytes());
        o
    }

    /// Whether a machine gave itself this address because nobody else did.
    pub open spec fn link_local(self) -> bool {
        self.a == 169 && self.b == 254
    }

    /// Whether a machine gave itself this address because nobody else did.
    pub fn is_link_local(&self) -> (r: bool)
        ensures
            r == self.link_local(),
    {
        self.a == 169 && self.b == 254
    }

    /// Whether this address means the machine itself.
    pub open spec fn loopback(self) -> bool {
        self.a == 127
    }

    /// Whether this address means the machine itself.
    pub fn is_loopback(&self) -> (r: bool)
        ensures
            r == self.loopback(),
    {
        self.a == 127
    }

    /// The address in dotted notation.
    pub open spec fn dotted(self) -> Seq<char> {
        decimal(self.a as int) + seq!['.'] + decimal(self.b as int) + seq!['.'] + decimal(
            self.c as int,
        ) + seq!['.'] + decimal(self.d as int)
    }

    /// The address in dotted notation.
    pub fn text(&self) -> (s: String)
        ensures
            s@ == self.dotted(),
    {
        let mut s = String::new();
        push_decimal(&mut s, self.a as u64);
        s.push('.');
        push_decimal(&mut s, self.b as u64);
        s.push('.');
        push_decimal(&mut s, self.c as u64);
        s.push('.');
        push_decimal(&mut s, self.d as u64);
        assert(s@ =~= self.dotted());
        s
    }
}

/// One of the four numbers of an address: up to three digits, none of them a
/// leading zero, at most 255.
pub open spec fn octet_of(s: Seq<char>) -> Option<int> {
    if 1 <= s.len() <= 3 && '0' <= s[0] <= '9' && (s.len() == 1 || s[0] != '0') {
        unsigned(s, 10, 255)
    } else {
        None
    }
}

fn octet(s: &[char]) -> (r: Option<u8>)
    ensures
        r matches Some(v) ==> octet_of(s@) == Some(v as int),
        r is None ==> octet_of(s@) is None,
{
    if s.len() < 1 || s.len() > 3 || s[0] < '0' || s[0] > '9' || (s.len() > 1 && s[0] == '0') {
        return None;
    }
    match parse_decimal(s, 255) {
        Some(v) => Some(v as u8),
        None => None,
    }
}

/// The address that a text in dotted notation means.
pub open spec fn address(s: Seq<char>) -> Option<Ipv4Addr> {
    let p = pieces(s, '.');
    if p.len() != 4 {
        None
    } else {
        match (octet_of(p[0]), octet_of(p[1]), octet_of(p[2]), octet_of(p[3])) {
            (Some(a), Some(b), Some(c), Some(d)) => Some(
                Ipv4Addr { a: a as u8, b: b as u8, c: c as u8, d: d as u8 },
            ),
            _ => None,
        }
    }
}

/// Read an address in dotted notation.
pub fn parse_address(s: &[char]) -> (r: Option<Ipv4Addr>)
    ensures
        r == address(s@),
{
    let p: Vec<&[char]> = split_char(s, '.');
    let ghost q = pieces(s@, '.');
    assert(views(p@) == q);
    assert(q.len() == p.len());
    if p.len() != 4 {
        return None;
    }
    assert(q[0] == p@[0]@ && q[1] == p@[1]@ && q[2] == p@[2]@ && q[3] == p@[3]@);
    match (octet(p[0]), octet(p[1]), octet(p[2]), octet(p[3])) {
        (Some(a), Some(b), Some(c), Some(d)) => Some(Ipv4Addr::new(a, b, c, d)),
        _ => None,
    }
}

proof fn lemma_octet_reads_back(n: u8)
    ensures
        octet_of(decimal(n as int)) == Some(n as int),
        forall|i: int| 0 <= i < decimal(n as int).len() ==> #[trigger] decimal(n as int)[i] != '.',
{
    law_decimal_reads_back(n as int, 255);
    let m = n as int;
    assert(decimal(m / 10 / 10).len() == 1);
    assert(decimal(m / 10).len() <= 2);
    assert(decimal(m).len() <= 3);
    if m >= 10 {
        if m < 100 {
            assert(decimal(m)[0] == decimal(m / 10)[0]);
            assert(decimal(m / 10) == seq![crate::number::digit_char(m / 10)]);
        } else {
            assert(decimal(m)[0] == decimal(m / 10)[0]);
            assert(decimal(m / 10)[0] == decimal(m / 10 / 10)[0]);
            assert(decimal(m / 10 / 10) == seq![crate::number::digit_char(m / 10 / 10)]);
        }
    }
}

proof fn lemma_piece(head: Seq<char>, tail: Seq<char>)
    requires
        forall|i: int| 0 <= i < head.len() ==> #[trigger] head[i] != '.',
    ensures
        pieces(head + seq!['.'] + tail, '.') == seq![head] + pieces(tail, '.'),
{
    let s = head + seq!['.'] + tail;
    lemma_char_at_is(s, '.', head.len() as int);
    assert(s.take(head.len() as int) =~= head);
    assert(s.skip(head.len() as int + 1) =~= tail);
}

/// An address written in dotted notation is read back.
pub proof fn law_address_reads_back(ip: Ipv4Addr)
    ensures
        address(ip.dotted()) == Some(ip),
{
    let a = decimal(ip.a as int);
    let b = decimal(ip.b as int);
    let c = decimal(ip.c as int);
    let d = decimal(ip.d as int);
    lemma_octet_reads_back(ip.a);
    lemma_octet_reads_back(ip.b);
    lemma_octet_reads_back(ip.c);
    lemma_octet_reads_back(ip.d);
    let dot = seq!['.'];
    lemma_piece(a, b + dot + (c + dot + d));
    lemma_piece(b, c + dot + d);
    lemma_piece(c, d);
    lemma_char_at_is(d, '.', d.len() as int);
    assert(ip.dotted() =~= a + dot + (b + dot + (c + dot + d)));
    assert(pieces(ip.dotted(), '.') =~= seq![a, b, c, d]);
}

proof fn lemma_octet_exact(s: Seq<char>)
    ensures
        octet_of(s) matches Some(v) ==> 0 <= v <= 255 && s == decimal(v),
{
    if octet_of(s) is Some {
        let v = octet_of(s)->0;
        lemma_unsigned_range(s, 10, 255);
        assert(s[0] != '+');
        assert(digits_value(s, 10) == Some(v));
        let one = s.take(1);
        assert(one.drop_last() =~= Seq::<char>::empty());
        assert(digits_value(one.drop_last(), 10) == Some(0int));
        let a = s[0] as int - 48;
        assert(one.last() == s[0]);
        assert(digits_value(one, 10) == Some(a));
        if s.len() == 1 {
            assert(s =~= one);
            assert(v == a);
            assert(decimal(v) == seq![digit_char(v)]);
            assert(s =~= decimal(v));
        } else {
            let two = s.take(2);
            assert(two.drop_last() =~= one);
            assert(two.last() == s[1]);
            if s.len() == 2 {
                assert(s =~= two);
                assert(decimal(v / 10) == seq![digit_char(v / 10)]);
                assert(s =~= decimal(v));
            } else {
                assert(s.drop_last() =~= two);
                let b = digits_value(two, 10)->0;
                assert(b / 10 == a);
                assert(decimal(b / 10) == seq![digit_char(b / 10)]);
                assert(two =~= decimal(b));
                assert(v / 10 == b);
                assert(s =~= decimal(v));
            }
        }
    }
}

/// A text is an address only where it is written as that address is, with no zero in front
/// of a number, no sign, no space and no number above 255.
pub proof fn law_only_what_is_written_so_is_an_address(s: Seq<char>)
    ensures
        address(s) matches Some(ip) ==> s == ip.dotted(),
{
    if let Some(ip) = address(s) {
        let p = pieces(s, '.');
        let dot = seq!['.'];
        lemma_octet_exact(p[0]);
        lemma_octet_exact(p[1]);
        lemma_octet_exact(p[2]);
        lemma_octet_exact(p[3]);
        law_pieces_make_the_text_again(s, '.');
        assert(p =~= seq![p[0]] + (seq![p[1]] + (seq![p[2]] + seq![p[3]])));
        law_joining_puts_in_between(p[2], seq![p[3]], dot);
        law_joining_puts_in_between(p[3], seq![p[3]], dot);
        law_joining_puts_in_between(p[1], seq![p[2]] + seq![p[3]], dot);
        law_joining_puts_in_between(p[0], seq![p[1]] + (seq![p[2]] + seq![p[3]]), dot);
        assert(s =~= p[0] + dot + (p[1] + dot + (p[2] + dot + p[3])));
        assert(s =~= ip.dotted());
    }
}

/// The addresses that a machine gives itself, and those that mean the machine.
pub proof fn law_addresses_of_ones_own(ip: Ipv4Addr)
    ensures
        ip.link_local() <==> 2851995648 <= ip.a * 16777216 + ip.b * 65536 + ip.c * 256 + ip.d
            <= 2852061183,
        ip.loopback() <==> 2130706432 <= ip.a * 16777216 + ip.b * 65536 + ip.c * 256 + ip.d
            <= 2147483647,
{
}

} // verus!
