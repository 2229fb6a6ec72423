//! Answering for names on this cable.

use super::names::{
    be16, law_written_name_is_stepped_over, name_end, push_name, question_name, read_query_name,
    skip_name, wire_name, word_at, writable,
};
use crate::addr::Ipv4Addr;
use crate::bytes::push_bytes;
use crate::text::{chars_of, lower_all, pieces, same_ignoring_case};
use vstd::prelude::*;
use vstd::slice::slice_subrange;

verus! {

/// The port. A privileged one.
pub const SERVER_PORT: u16 = 53;

/// The names that a person may be told to type.
pub const OUR_NAMES: [&'static str; 3] = ["gorilla", "gorilla.hub", "hub"];

/// The port of the local-link names.
pub const MDNS_PORT: u16 = 5353;

/// The names we answer for on the local link. Short, because somebody has to say
/// them across a room.
pub const LOCAL_NAMES: [&'static str; 2] = ["gorilla.local", "hub.local"];

/// The group that local-link names are asked of.
pub fn mdns_group() -> (ip: Ipv4Addr)
    ensures
        ip == (Ipv4Addr { a: 224, b: 0, c: 0, d: 251 }),
{
    Ipv4Addr::new(224, 0, 0, 251)
}

/// Where the one question of a message ends, if it is one that is answered: a
/// question and not a response, an ordinary one, exactly one, about the internet.
pub open spec fn question_end(q: Seq<u8>) -> Option<int> {
    if q.len() < 13 || q[2] >= 128 || (q[2] / 8) % 16 != 0 || be16(q, 4) != 1 {
        None
    } else {
        match name_end(q, 12) {
            Some(e) => if e + 4 <= q.len() && be16(q, e + 2) == 1 {
                Some(e)
            } else {
                None
            },
            None => None,
        }
    }
}

/// Whether a question is about an address, or about anything there is.
pub open spec fn asks_for_address(kind: int) -> bool {
    kind == 1 || kind == 255
}

/// The record with our address: a pointer to the name in the question, kept for
/// a minute.
pub open spec fn address_record(us: Ipv4Addr) -> Seq<u8> {
    seq![0xc0u8, 0x0c, 0, 1, 0, 1, 0, 0, 0, 60, 0, 4] + us.bytes()
}

/// The answer to a question: the same number, an authoritative response without
/// error, the wish for recursion as it was asked, the question again, and our address
/// if that was asked for. A question about anything else gets no record rather than a
/// denial, which would stop the client from asking for what it could have had.
pub open spec fn answer_bytes(q: Seq<u8>, us: Ipv4Addr) -> Option<Seq<u8>> {
    match question_end(q) {
        Some(e) => {
            let head = q.take(2) + seq![
                (0x84 + q[2] % 2) as u8,
                0x80,
                0,
                1,
                0,
                if asks_for_address(be16(q, e)) {
                    1u8
                } else {
                    0
                },
                0,
                0,
                0,
                0,
            ] + q.subrange(12, e + 4);
            Some(
                if asks_for_address(be16(q, e)) {
                    head + address_record(us)
                } else {
                    head
                },
            )
        },
        None => None,
    }
}

/// What an optional run of bytes holds.
pub open spec fn opt_bytes(b: Option<Vec<u8>>) -> Option<Seq<u8>> {
    match b {
        Some(v) => Some(v@),
        None => None,
    }
}

fn push_zeros(out: &mut Vec<u8>)
    ensures
        final(out)@ == old(out)@ + seq![0u8, 0, 0, 0],
{
    let ghost start = out@;
    out.push(0);
    out.push(0);
    out.push(0);
    out.push(0);
    assert(out@ =~= start + seq![0u8, 0, 0, 0]);
}

/// Answer one question: the bytes to send back, or nothing if it is not one we
/// can answer. Every name is ours here: on a cable with two machines there is
/// none it could be wrong about.
pub fn answer(query: &[u8], us: Ipv4Addr) -> (r: Option<Vec<u8>>)
    ensures
        opt_bytes(r) == answer_bytes(query@, us),
{
    if query.len() < 13 || query[2] >= 128 || (query[2] / 8) % 16 != 0 || word_at(query, 4) != 1 {
        return None;
    }
    let e: usize = match skip_name(query, 12) {
        Some(e) => e,
        None => {
            return None;
        },
    };
    if query.len() - e < 4 || word_at(query, e + 2) != 1 {
        return None;
    }
    let kind: u16 = word_at(query, e);
    let answered: bool = kind == 1 || kind == 255;
    let mut out: Vec<u8> = Vec::new();
    out.push(query[0]);
    out.push(query[1]);
    out.push(0x84 + query[2] % 2);
    out.push(0x80);
    out.push(0);
    out.push(1);
    out.push(0);
    out.push(
        if answered {
            1
        } else {
            0
        },
    );
    push_zeros(&mut out);
    push_bytes(&mut out, slice_subrange(query, 12, e + 4));
    if answered {
        out.push(0xc0);
        out.push(0x0c);
        out.push(0);
        out.push(1);
        out.push(0);
        out.push(1);
        out.push(0);
        out.push(0);
        out.push(0);
        out.push(60);
        out.push(0);
        out.push(4);
        push_bytes(&mut out, us.octets().as_slice());
    }
    proof {
        assert(out@ =~= answer_bytes(query@, us).unwrap());
    }
    Some(out)
}

/// Whether a name is one that we answer for on the local link, in any case.
pub open spec fn is_local_name(name: Seq<char>) -> bool {
    lower_all(name) == lower_all("gorilla.local"@) || lower_all(name) == lower_all("hub.local"@)
}

/// The name of the first of so many questions from `pos` on that is ours to
/// answer: about an address, of the internet once the bit that asks for a direct
/// reply is masked off.
pub open spec fn local_question(q: Seq<u8>, pos: int, n: int) -> Option<Seq<char>>
    decreases n,
{
    if n <= 0 {
        None
    } else {
        match question_name(q, pos) {
            Some((name, e)) => {
                if e + 4 > q.len() {
                    None
                } else if is_local_name(name) && be16(q, e + 2) % 32768 == 1 && asks_for_address(
                    be16(q, e),
                ) {
                    Some(name)
                } else {
                    local_question(q, e + 4, n - 1)
                }
            },
            None => None,
        }
    }
}

/// The answer with our address on the local link: no number and no question,
/// since the name says what it answers; it replaces what was known, for two
/// minutes.
pub open spec fn local_answer(name: Seq<char>, us: Ipv4Addr) -> Seq<u8> {
    seq![0u8, 0, 0x84, 0, 0, 0, 0, 1, 0, 0, 0, 0] + wire_name(name) + seq![
        0u8,
        1,
        0x80,
        1,
        0,
        0,
        0,
        120,
        0,
        4,
    ] + us.bytes()
}

/// What a message about local-link names is answered with, if it is.
pub open spec fn mdns_bytes(q: Seq<u8>, us: Ipv4Addr) -> Option<Seq<u8>> {
    if q.len() < 13 || q[2] >= 128 {
        None
    } else {
        match local_question(q, 12, be16(q, 4)) {
            Some(name) => Some(local_answer(name, us)),
            None => None,
        }
    }
}

fn ours_on_the_link(name: &[char]) -> (r: bool)
    ensures
        r == is_local_name(name@),
{
    let first: Vec<char> = chars_of("gorilla.local");
    let second: Vec<char> = chars_of("hub.local");
    same_ignoring_case(name, first.as_slice()) || same_ignoring_case(name, second.as_slice())
}

fn write_local_answer(name: &[char], us: Ipv4Addr) -> (out: Vec<u8>)
    ensures
        out@ == local_answer(name@, us),
{
    let mut out: Vec<u8> = Vec::new();
    out.push(0);
    out.push(0);
    out.push(0x84);
    out.push(0);
    out.push(0);
    out.push(0);
    out.push(0);
    out.push(1);
    push_zeros(&mut out);
    push_name(&mut out, name);
    out.push(0);
    out.push(1);
    out.push(0x80);
    out.push(1);
    out.push(0);
    out.push(0);
    out.push(0);
    out.push(120);
    out.push(0);
    out.push(4);
    push_bytes(&mut out, us.octets().as_slice());
    assert(out@ =~= local_answer(name@, us));
    out
}

/// The answer to a question about local-link names, or nothing if none of them
/// is ours.
pub fn mdns_answer(query: &[u8], us: Ipv4Addr) -> (r: Option<Vec<u8>>)
    ensures
        opt_bytes(r) == mdns_bytes(query@, us),
{
    if query.len() < 13 || query[2] >= 128 {
        return None;
    }
    let count: u16 = word_at(query, 4);
    let mut pos: usize = 12;
    let mut i: u16 = 0;
    while i < count
        invariant
            i <= count,
            pos <= query.len(),
            13 <= query.len(),
            query@[2] < 128,
            count == be16(query@, 4),
            local_question(query@, 12, count as int) == local_question(
                query@,
                pos as int,
                count - i,
            ),
        decreases count - i,
    {
        match read_query_name(query, pos) {
            Some((name, e)) => {
                if query.len() - e < 4 {
                    return None;
                }
                let kind: u16 = word_at(query, e);
                let class: u16 = word_at(query, e + 2) % 32768;
                let chars: Vec<char> = chars_of(name.as_str());
                if ours_on_the_link(chars.as_slice()) && class == 1 && (kind == 1 || kind == 255) {
                    return Some(write_local_answer(chars.as_slice(), us));
                }
                pos = e + 4;
            },
            None => {
                return None;
            },
        }
        i = i + 1;
    }
    None
}

/// A question about an address gets ours, whatever the name: a probe for the
/// internet, or the name a person was told to type. The number and the question
/// come back with it.
pub proof fn law_every_name_is_pointed_at_us(
    head: Seq<u8>,
    name: Seq<char>,
    us: Ipv4Addr,
)
    requires
        head.len() == 12,
        head[2] < 128,
        (head[2] / 8) % 16 == 0,
        be16(head, 4) == 1,
        writable(pieces(name, '.')),
    ensures
        ({
            let question = wire_name(name) + seq![0u8, 1, 0, 1];
            answer_bytes(head + question, us) == Some(
                head.take(2) + seq![(0x84 + head[2] % 2) as u8, 0x80, 0, 1, 0, 1, 0, 0, 0, 0] + question
                    + address_record(us),
            )
        }),
{
    let question = wire_name(name) + seq![0u8, 1, 0, 1];
    let q = head + question;
    law_written_name_is_stepped_over(head, name, seq![0u8, 1, 0, 1]);
    assert(head + wire_name(name) + seq![0u8, 1, 0, 1] =~= q);
    let e = (head.len() + wire_name(name).len()) as int;
    assert(q[e] == 0 && q[e + 1] == 1 && q[e + 2] == 0 && q[e + 3] == 1);
    assert(q[2] == head[2] && q[4] == head[4] && q[5] == head[5]);
    assert(q.subrange(12, e + 4) =~= question);
    assert(q.take(2) =~= head.take(2));
    assert(head.take(2) + seq![(0x84 + head[2] % 2) as u8, 0x80, 0, 1, 0, 1u8, 0, 0, 0, 0] + question + address_record(
        us,
    ) =~= answer_bytes(q, us).unwrap());
}

/// An answer is never answered, by either responder: two of them cannot keep
/// each other busy.
pub proof fn law_answers_are_not_answered(q: Seq<u8>, name: Seq<char>, us: Ipv4Addr)
    ensures
        answer_bytes(q, us) matches Some(r) ==> answer_bytes(r, us) is None && mdns_bytes(
            r,
            us,
        ) is None,
        answer_bytes(local_answer(name, us), us) is None,
        mdns_bytes(local_answer(name, us), us) is None,
{
    if let Some(r) = answer_bytes(q, us) {
        assert(r[2] >= 0x84);
    }
    assert(local_answer(name, us)[2] == 0x84);
}

/// A question that is answered is an ordinary one about the internet, alone in its message;
/// its answer has its number and the question in it, says that it is one, that it has the
/// last word and that there was no error, and holds our address for a minute where that, or
/// everything, was asked for, and no record where anything else was.
pub proof fn law_an_answer_byte_by_byte(q: Seq<u8>, us: Ipv4Addr, e: int)
    requires
        question_end(q) == Some(e),
    ensures
        q[2] < 128,
        q[4] == 0 && q[5] == 1,
        q[e + 2] == 0 && q[e + 3] == 1,
        ({
            let r = answer_bytes(q, us)->0;
            let asked = q[e] == 0 && (q[e + 1] == 1 || q[e + 1] == 255);
            &&& answer_bytes(q, us) is Some
            &&& r[0] == q[0] && r[1] == q[1]
            &&& q[2] % 2 == 0 ==> r[2] == 132
            &&& q[2] % 2 == 1 ==> r[2] == 133
            &&& r[3] == 128
            &&& r[4] == 0 && r[5] == 1 && r[6] == 0 && r[8] == 0 && r[9] == 0 && r[10] == 0 && r[11]
                == 0
            &&& 12 <= e && r.subrange(12, e + 4) == q.subrange(12, e + 4)
            &&& asked ==> r[7] == 1 && r.skip(e + 4) == seq![192u8, 12, 0, 1, 0, 1, 0, 0, 0, 60, 0, 4, us.a, us.b, us.c, us.d]
            &&& !asked ==> r[7] == 0 && r.len() == e + 4
        }),
{
    lemma_name_end_within(q, 12);
    let r = answer_bytes(q, us)->0;
    assert(q.take(2)[0] == q[0] && q.take(2)[1] == q[1]);
    assert(r.subrange(12, e + 4) =~= q.subrange(12, e + 4));
    let asked = q[e] == 0 && (q[e + 1] == 1 || q[e + 1] == 255);
    assert(asks_for_address(be16(q, e)) <==> asked);
    if asked {
        assert(r.skip(e + 4) =~= seq![192u8, 12, 0, 1, 0, 1, 0, 0, 0, 60, 0, 4, us.a, us.b, us.c, us.d]);
    }
}

proof fn lemma_name_end_within(msg: Seq<u8>, pos: int)
    requires
        0 <= pos,
    ensures
        name_end(msg, pos) matches Some(e) ==> pos < e <= msg.len(),
    decreases msg.len() - pos,
{
    if 0 <= pos < msg.len() && msg[pos] < 192 && msg[pos] != 0 && pos + 1 + msg[pos] <= msg.len() {
        lemma_name_end_within(msg, pos + 1 + msg[pos]);
    }
}

/// On the link we go by two names, in whatever case they are written, and are known by them
/// for two minutes at a time.
pub proof fn law_we_go_by_two_names(name: Seq<char>, us: Ipv4Addr)
    ensures
        is_local_name(name) <==> lower_all(name) == seq![
            'g',
            'o',
            'r',
            'i',
            'l',
            'l',
            'a',
            '.',
            'l',
            'o',
            'c',
            'a',
            'l',
        ] || lower_all(name) == seq!['h', 'u', 'b', '.', 'l', 'o', 'c', 'a', 'l'],
        local_answer(name, us).take(12) == seq![0u8, 0, 132, 0, 0, 0, 0, 1, 0, 0, 0, 0],
        local_answer(name, us).skip(12) == wire_name(name) + seq![0u8, 1, 128, 1, 0, 0, 0, 120, 0, 4, us.a, us.b, us.c, us.d],
{
    reveal_strlit("gorilla.local");
    reveal_strlit("hub.local");
    let g = seq!['g', 'o', 'r', 'i', 'l', 'l', 'a', '.', 'l', 'o', 'c', 'a', 'l'];
    let h = seq!['h', 'u', 'b', '.', 'l', 'o', 'c', 'a', 'l'];
    assert(lower_all("gorilla.local"@) =~= g);
    assert(lower_all("hub.local"@) =~= h);
    let r = local_answer(name, us);
    assert(r.take(12) =~= seq![0u8, 0, 132, 0, 0, 0, 0, 1, 0, 0, 0, 0]);
    assert(r.skip(12) =~= wire_name(name) + seq![0u8, 1, 128, 1, 0, 0, 0, 120, 0, 4, us.a, us.b, us.c, us.d]);
}

/// A message on the link may ask several things: each is looked at in turn, and the first
/// that asks for the address of a name of ours is answered, also where a direct reply is
/// wished for.
pub proof fn law_each_question_is_looked_at(
    q: Seq<u8>,
    pos: int,
    n: int,
    name: Seq<char>,
    e: int,
)
    requires
        n > 0,
        question_name(q, pos) == Some((name, e)),
        0 <= e,
        e + 4 <= q.len(),
    ensures
        ({
            let about_us = is_local_name(name) && q[e] == 0 && (q[e + 1] == 1 || q[e + 1] == 255) && (q[e
                + 2] == 0 || q[e + 2] == 128) && q[e + 3] == 1;
            &&& about_us ==> local_question(q, pos, n) == Some(name)
            &&& !about_us ==> local_question(q, pos, n) == local_question(q, e + 4, n - 1)
        }),
{
}

} // verus!
