//! Whether a name on the local link is somebody else's already.

use super::lookup::{after_questions, records_begin};
use super::names::{
    be16, law_written_name_is_read_back, law_written_name_is_stepped_over, name_end, name_from,
    push_name, read_name, skip_name, wire_name, word_at, writable, MAX_LABELS,
};
use super::responder::{is_local_name, local_answer, local_question, mdns_bytes};
use crate::addr::Ipv4Addr;
use crate::text::{chars_of, lower_all, pieces, same_ignoring_case};
use vstd::prelude::*;

verus! {

/// One question to everyone on the link: the address of a name.
pub open spec fn link_query(name: Seq<char>) -> Seq<u8> {
    seq![0u8, 0, 0, 0, 0, 1, 0, 0, 0, 0, 0, 0] + wire_name(name) + seq![0u8, 1, 0, 1]
}

/// The bytes of one question to everyone on the link.
pub fn build_link_query(name: &str) -> (q: Vec<u8>)
    ensures
        q@ == link_query(name@),
{
    let mut q: Vec<u8> = vec![0, 0, 0, 0, 0, 1, 0, 0, 0, 0, 0, 0];
    let chars: Vec<char> = chars_of(name);
    push_name(&mut q, chars.as_slice());
    q.push(0);
    q.push(1);
    q.push(0);
    q.push(1);
    assert(q@ =~= link_query(name@));
    q
}

/// Whether the record at `pos`, whose name ends at `e`, gives the address of a name.
pub open spec fn gives_address(msg: Seq<u8>, pos: int, e: int, name: Seq<char>) -> bool {
    &&& be16(msg, e) == 1
    &&& be16(msg, e + 2) % 32768 == 1
    &&& be16(msg, e + 8) == 4
    &&& name_from(msg, pos, 0, Seq::empty()) matches Some(n) && lower_all(n) == lower_all(name)
}

/// The address that the first of so many records from `pos` on gives for a name.
pub open spec fn address_given(msg: Seq<u8>, pos: int, n: int, name: Seq<char>) -> Option<Ipv4Addr>
    decreases n,
{
    if n <= 0 {
        None
    } else {
        match name_end(msg, pos) {
            Some(e) => {
                if e + 10 > msg.len() || e + 10 + be16(msg, e + 8) > msg.len() {
                    None
                } else if gives_address(msg, pos, e, name) {
                    Some(
                        Ipv4Addr {
                            a: msg[e + 10],
                            b: msg[e + 11],
                            c: msg[e + 12],
                            d: msg[e + 13],
                        },
                    )
                } else {
                    address_given(msg, e + 10 + be16(msg, e + 8), n - 1, name)
                }
            },
            None => None,
        }
    }
}

/// The address that a response gives for a name. A question gives none, nor does a
/// response that reports an error.
pub open spec fn name_holder(msg: Seq<u8>, name: Seq<char>) -> Option<Ipv4Addr> {
    if msg.len() < 12 || msg[2] < 128 || msg[3] % 16 != 0 {
        None
    } else {
        match after_questions(msg, 12, be16(msg, 4)) {
            Some(p) => address_given(msg, p, be16(msg, 6), name),
            None => None,
        }
    }
}

fn is_for(msg: &[u8], pos: usize, name: &[char]) -> (r: bool)
    ensures
        r == (name_from(msg@, pos as int, 0, Seq::empty()) matches Some(n) && lower_all(n)
            == lower_all(name@)),
{
    match read_name(msg, pos, 0) {
        Some(n) => {
            let c: Vec<char> = chars_of(n.as_str());
            same_ignoring_case(c.as_slice(), name)
        },
        None => false,
    }
}

/// The address that a response gives for a name, if it gives one.
pub fn held_by(msg: &[u8], name: &str) -> (r: Option<Ipv4Addr>)
    ensures
        r == name_holder(msg@, name@),
{
    if msg.len() < 12 || msg[2] < 128 || msg[3] % 16 != 0 {
        return None;
    }
    let wanted: Vec<char> = chars_of(name);
    let records: u16 = word_at(msg, 6);
    let mut pos: usize = match records_begin(msg) {
        Some(p) => p,
        None => {
            return None;
        },
    };
    let ghost start = pos as int;
    let mut k: u16 = 0;
    while k < records
        invariant
            k <= records,
            pos <= msg.len(),
            wanted@ == name@,
            12 <= msg.len(),
            msg@[2] >= 128,
            msg@[3] % 16 == 0,
            records == be16(msg@, 6),
            after_questions(msg@, 12, be16(msg@, 4)) == Some(start),
            address_given(msg@, start, records as int, name@) == address_given(
                msg@,
                pos as int,
                records - k,
                name@,
            ),
        decreases records - k,
    {
        match skip_name(msg, pos) {
            Some(e) => {
                if msg.len() - e < 10 {
                    return None;
                }
                let len: usize = word_at(msg, e + 8) as usize;
                if len > msg.len() - e - 10 {
                    return None;
                }
                let kind: u16 = word_at(msg, e);
                let class: u16 = word_at(msg, e + 2) % 32768;
                if kind == 1 && class == 1 && len == 4 && is_for(msg, pos, wanted.as_slice()) {
                    return Some(
                        Ipv4Addr::new(msg[e + 10], msg[e + 11], msg[e + 12], msg[e + 13]),
                    );
                }
                pos = e + 10 + len;
            },
            None => {
                return None;
            },
        }
        k = k + 1;
    }
    None
}

/// Whether a response says that a name is that of another computer: it gives an address
/// for it that is none of ours.
pub fn is_claimed_elsewhere(msg: &[u8], name: &str, ours: &Vec<Ipv4Addr>) -> (r: bool)
    ensures
        r == (name_holder(msg@, name@) matches Some(ip) && !ours@.contains(ip)),
{
    match held_by(msg, name) {
        Some(ip) => {
            let mut i: usize = 0;
            while i < ours.len()
                invariant
                    i <= ours.len(),
                    forall|k: int| 0 <= k < i ==> ours@[k] != ip,
                    name_holder(msg@, name@) == Some(ip),
                decreases ours.len() - i,
            {
                if ours[i] == ip {
                    assert(ours@.contains(ip));
                    return false;
                }
                i = i + 1;
            }
            true
        },
        None => false,
    }
}

/// Whoever asks for a name of ours on the link is answered with our address: the question
/// is understood, and the answer to it is.
pub proof fn law_a_local_name_is_answered_for(name: Seq<char>, us: Ipv4Addr)
    requires
        is_local_name(name),
        writable(pieces(name, '.')),
        pieces(name, '.').len() <= MAX_LABELS,
    ensures
        mdns_bytes(link_query(name), us) == Some(local_answer(name, us)),
        name_holder(local_answer(name, us), name) == Some(us),
{
    let head = seq![0u8, 0, 0, 0, 0, 1, 0, 0, 0, 0, 0, 0];
    let asked = seq![0u8, 1, 0, 1];
    let q = link_query(name);
    law_written_name_is_read_back(head, name, asked);
    assert(head + wire_name(name) + asked =~= q);
    let e = (12 + wire_name(name).len()) as int;
    assert(q[2] == 0 && q[4] == 0 && q[5] == 1);
    assert(q[e] == 0 && q[e + 1] == 1 && q[e + 2] == 0 && q[e + 3] == 1);
    assert(local_question(q, 12, 1) == Some(name));
    let front = seq![0u8, 0, 0x84, 0, 0, 0, 0, 1, 0, 0, 0, 0];
    let back = seq![0u8, 1, 0x80, 1, 0, 0, 0, 120, 0, 4] + us.bytes();
    let r = local_answer(name, us);
    assert(front + wire_name(name) + back =~= r);
    law_written_name_is_read_back(front, name, back);
    law_written_name_is_stepped_over(front, name, back);
    assert(r[2] == 0x84 && r[3] == 0 && r[4] == 0 && r[5] == 0 && r[6] == 0 && r[7] == 1);
    assert(after_questions(r, 12, 0) == Some(12int));
    assert(forall|j: int| 0 <= j < 14 ==> r[e + j] == back[j]);
    assert(be16(r, e) == 1 && be16(r, e + 2) == 32769 && be16(r, e + 8) == 4);
    assert(gives_address(r, 12, e, name));
    assert(r[e + 10] == us.bytes()[0] && r[e + 11] == us.bytes()[1]);
    assert(r[e + 12] == us.bytes()[2] && r[e + 13] == us.bytes()[3]);
}

} // verus!
