//! Asking what a device is called.

use super::names::{
    be16, law_written_name_is_read_back, law_written_name_is_stepped_over, name_end, name_from,
    push_name, read_name, skip_name, wire_name, word_at, writable,
};
use super::responder::question_end;
use crate::addr::Ipv4Addr;
use crate::number::decimal;
use crate::text::{char_at, chars_of, find_char, pieces, string_of, text_view};
use vstd::prelude::*;
use vstd::slice::slice_subrange;

verus! {

/// The name under which an address is looked up: its numbers backwards.
pub open spec fn reverse_of(ip: Ipv4Addr) -> Seq<char> {
    (Ipv4Addr { a: ip.d, b: ip.c, c: ip.b, d: ip.a }).dotted() + ".in-addr.arpa"@
}

/// The name under which an address is looked up.
pub fn reverse_name(ip: Ipv4Addr) -> (s: String)
    ensures
        s@ == reverse_of(ip),
{
    let mut s: String = Ipv4Addr::new(ip.d, ip.c, ip.b, ip.a).text();
    s.append(".in-addr.arpa");
    s
}

/// The number of a question: random where there is randomness to be had, so that
/// nobody else on the network can answer in the server's place.
pub fn transaction_id(random: Option<(u8, u8)>) -> (id: u16)
    ensures
        id == (match random {
            Some((hi, lo)) => hi * 256 + lo,
            None => 0x4a3f,
        }),
{
    match random {
        Some((hi, lo)) => hi as u16 * 256 + lo as u16,
        None => 0x4a3f,
    }
}

/// One question about a name: what it points at.
pub open spec fn query(id: int, name: Seq<char>) -> Seq<u8> {
    seq![(id / 256) as u8, (id % 256) as u8, 1, 0, 0, 1, 0, 0, 0, 0, 0, 0] + wire_name(name) + seq![
        0u8,
        12,
        0,
        1,
    ]
}

/// The bytes of one question about a name.
pub fn build_query(id: u16, name: &str) -> (q: Vec<u8>)
    ensures
        q@ == query(id as int, name@),
{
    let mut q: Vec<u8> = Vec::new();
    q.push((id / 256) as u8);
    q.push((id % 256) as u8);
    q.push(1);
    q.push(0);
    q.push(0);
    q.push(1);
    q.push(0);
    q.push(0);
    q.push(0);
    q.push(0);
    q.push(0);
    q.push(0);
    let chars: Vec<char> = chars_of(name);
    push_name(&mut q, chars.as_slice());
    q.push(0);
    q.push(12);
    q.push(0);
    q.push(1);
    assert(q@ =~= query(id as int, name@));
    q
}

/// Whether some bytes answer the question with this number.
pub fn is_answer_to(msg: &[u8], id: u16) -> (r: bool)
    ensures
        r == (msg.len() >= 2 && be16(msg@, 0) == id),
{
    msg.len() >= 2 && word_at(msg, 0) == id
}

/// Where the answers begin, after so many questions from `pos` on.
pub open spec fn after_questions(msg: Seq<u8>, pos: int, n: int) -> Option<int>
    decreases n,
{
    if n <= 0 {
        Some(pos)
    } else {
        match name_end(msg, pos) {
            Some(e) => if e + 4 <= msg.len() {
                after_questions(msg, e + 4, n - 1)
            } else {
                None
            },
            None => None,
        }
    }
}

/// Where the answers of a message begin.
pub fn records_begin(msg: &[u8]) -> (r: Option<usize>)
    requires
        12 <= msg.len(),
    ensures
        match r {
            Some(p) => after_questions(msg@, 12, be16(msg@, 4)) == Some(p as int) && p
                <= msg.len(),
            None => after_questions(msg@, 12, be16(msg@, 4)) is None,
        },
{
    let questions: u16 = word_at(msg, 4);
    let mut pos: usize = 12;
    let mut i: u16 = 0;
    while i < questions
        invariant
            i <= questions,
            pos <= msg.len(),
            12 <= msg.len(),
            questions == be16(msg@, 4),
            after_questions(msg@, 12, questions as int) == after_questions(
                msg@,
                pos as int,
                questions - i,
            ),
        decreases questions - i,
    {
        match skip_name(msg, pos) {
            Some(e) => {
                if msg.len() - e < 4 {
                    return None;
                }
                pos = e + 4;
            },
            None => {
                return None;
            },
        }
        i = i + 1;
    }
    Some(pos)
}

/// Where the first of so many records from `pos` on that points at a name has
/// that name.
pub open spec fn pointed_at(msg: Seq<u8>, pos: int, n: int) -> Option<int>
    decreases n,
{
    if n <= 0 {
        None
    } else {
        match name_end(msg, pos) {
            Some(e) => {
                if e + 10 > msg.len() {
                    None
                } else {
                    let data = e + 10;
                    let len = be16(msg, e + 8);
                    if data + len > msg.len() {
                        None
                    } else if be16(msg, e) == 12 {
                        Some(data)
                    } else {
                        pointed_at(msg, data + len, n - 1)
                    }
                }
            },
            None => None,
        }
    }
}

/// The first name that a response points at. One that reports an error, or holds
/// no answer, points at none.
pub open spec fn ptr_name(msg: Seq<u8>) -> Option<Seq<char>> {
    if msg.len() < 12 || msg[3] % 16 != 0 {
        None
    } else {
        match after_questions(msg, 12, be16(msg, 4)) {
            Some(p) => match pointed_at(msg, p, be16(msg, 6)) {
                Some(d) => name_from(msg, d, 0, Seq::empty()),
                None => None,
            },
            None => None,
        }
    }
}

/// Pull the first name out of a response.
pub fn parse_ptr(msg: &[u8]) -> (r: Option<String>)
    ensures
        text_view(r) == ptr_name(msg@),
{
    if msg.len() < 12 || msg[3] % 16 != 0 {
        return None;
    }
    let answers: u16 = word_at(msg, 6);
    let mut pos: usize = match records_begin(msg) {
        Some(p) => p,
        None => {
            return None;
        },
    };
    let ghost start = pos as int;
    let mut k: u16 = 0;
    while k < answers
        invariant
            k <= answers,
            pos <= msg.len(),
            pointed_at(msg@, start, answers as int) == pointed_at(msg@, pos as int, answers - k),
            after_questions(msg@, 12, be16(msg@, 4)) == Some(start),
            12 <= msg.len(),
            msg@[3] % 16 == 0,
            answers == be16(msg@, 6),
        decreases answers - k,
    {
        match skip_name(msg, pos) {
            Some(e) => {
                if msg.len() - e < 10 {
                    return None;
                }
                let kind: u16 = word_at(msg, e);
                let len: usize = word_at(msg, e + 8) as usize;
                let data: usize = e + 10;
                if len > msg.len() - data {
                    return None;
                }
                if kind == 12 {
                    return read_name(msg, data, 0);
                }
                pos = data + len;
            },
            None => {
                return None;
            },
        }
        k = k + 1;
    }
    None
}

/// The device's own name, without the domain behind it.
pub fn short_name(fqdn: &str) -> (s: String)
    ensures
        s@ == fqdn@.take(char_at(fqdn@, '.')),
{
    let c: Vec<char> = chars_of(fqdn);
    let k: usize = find_char(c.as_slice(), '.');
    let part = slice_subrange(c.as_slice(), 0, k);
    assert(part@ =~= fqdn@.take(k as int));
    string_of(part)
}

/// A response that reports an error gives no name.
pub proof fn law_an_error_is_not_a_name(msg: Seq<u8>)
    requires
        msg.len() >= 4,
        msg[3] % 16 != 0,
    ensures
        ptr_name(msg) is None,
{
}

/// The record that says what an address is called: a pointer to the question, and the
/// name behind its length.
pub open spec fn name_record(name: Seq<char>) -> Seq<u8> {
    let n = wire_name(name).len() as int;
    seq![0xc0u8, 12, 0, 12, 0, 1, 0, 0, 0, 60, (n / 256) as u8, (n % 256) as u8] + wire_name(name)
}

/// What a server says a device is called is what is read: the answer to a question of ours,
/// with the question in it and the name behind that.
pub proof fn law_the_name_told_is_read(id: u16, asked: Seq<char>, name: Seq<char>)
    requires
        writable(pieces(asked, '.')),
        writable(pieces(name, '.')),
        wire_name(name).len() < 65536,
    ensures
        ({
            let q = query(id as int, asked);
            let reply = q.take(2) + seq![0x85u8, 0x80, 0, 1, 0, 1, 0, 0, 0, 0] + q.skip(12)
                + name_record(name);
            &&& ptr_name(reply) == Some(name)
            &&& be16(reply, 0) == id
        }),
{
    let q = query(id as int, asked);
    let head = q.take(2) + seq![0x85u8, 0x80, 0, 1, 0, 1, 0, 0, 0, 0];
    let kind = seq![0u8, 12, 0, 1];
    let record = name_record(name);
    let reply = head + q.skip(12) + record;
    assert(q.skip(12) =~= wire_name(asked) + kind);
    law_written_name_is_stepped_over(head, asked, kind + record);
    assert(head + wire_name(asked) + (kind + record) =~= reply);
    let at = (12 + wire_name(asked).len() + 4) as int;
    assert(name_end(reply, 12) == Some(at - 4));
    assert(reply[3] == 0x80 && reply[4] == 0 && reply[5] == 1 && reply[6] == 0 && reply[7] == 1);
    assert(after_questions(reply, at, 0) == Some(at));
    assert(after_questions(reply, 12, 1) == Some(at));
    let before = head + q.skip(12) + record.take(12);
    assert(before.len() == at + 12);
    assert(before + wire_name(name) + Seq::<u8>::empty() =~= reply);
    law_written_name_is_read_back(before, name, Seq::empty());
    assert forall|j: int| 0 <= j < 12 implies reply[at + j] == record[j] by {}
    assert(reply[at] == record[0] && reply[at + 1] == record[1]);
    assert(name_end(reply, at) == Some(at + 2));
    assert(reply[at + 2] == record[2] && reply[at + 3] == record[3]);
    assert(reply[at + 10] == record[10] && reply[at + 11] == record[11]);
    assert(be16(reply, at + 2) == 12);
    assert(be16(reply, at + 10) == wire_name(name).len());
    assert(pointed_at(reply, at, 1) == Some(at + 12));
    assert(reply[0] == q[0] && reply[1] == q[1]);
}

/// A question of ours is one that is understood: it is alone, it asks what a name points at,
/// and it has the number it was given.
pub proof fn law_our_question_is_understood(id: u16, name: Seq<char>)
    requires
        writable(pieces(name, '.')),
    ensures
        ({
            let q = query(id as int, name);
            let e = q.len() - 4;
            &&& question_end(q) == Some(e)
            &&& q[0] * 256 + q[1] == id
            &&& q[2] == 1 && q[3] == 0
            &&& q[e] == 0 && q[e + 1] == 12
        }),
{
    let q = query(id as int, name);
    let head = seq![(id as int / 256) as u8, (id as int % 256) as u8, 1, 0, 0, 1, 0, 0, 0, 0, 0, 0];
    let tail = seq![0u8, 12, 0, 1];
    law_written_name_is_stepped_over(head, name, tail);
    assert(q =~= head + wire_name(name) + tail);
    let e = q.len() - 4;
    assert(q[e] == 0 && q[e + 1] == 12 && q[e + 2] == 0 && q[e + 3] == 1);
}

/// An address is looked up under its four numbers, the last one first.
pub proof fn law_addresses_are_looked_up_backwards(ip: Ipv4Addr)
    ensures
        reverse_of(ip) == decimal(ip.d as int) + seq!['.'] + decimal(ip.c as int) + seq!['.'] + decimal(
            ip.b as int,
        ) + seq!['.'] + decimal(ip.a as int) + ".in-addr.arpa"@,
{
}

} // verus!
