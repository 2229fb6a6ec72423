//! Whether to answer at all, and what to answer.

use super::leases::{
    after_decline, after_offer, lemma_first_free, offered, unshared, Held, Leases,
};
use super::packet::{
    ends_options, is_request, kind_of, law_reply_reads_back, lemma_kind_written, options_from,
    parse, reply, reply_packet, writable, written, ACK, DECLINE, DISCOVER, OFFER, RELEASE, REQUEST,
};
use crate::addr::Ipv4Addr;
use vstd::prelude::*;

verus! {

/// Whether something routes here. A link-local gateway is a guess, not a router:
/// such traffic is never forwarded.
pub open spec fn has_router(gateway: Option<Ipv4Addr>) -> bool {
    gateway matches Some(g) && !g.link_local()
}

/// Whether some address shows that nothing leases addresses on this cable.
pub open spec fn on_bare_cable(addresses: Seq<Ipv4Addr>) -> bool {
    exists|i: int| 0 <= i < addresses.len() && (#[trigger] addresses[i]).link_local()
}

/// Whether it is safe to answer here at all: nothing routes, and this machine
/// had to give itself an address, which it only does after nobody answered.
pub fn safe_to_offer(addresses: &[Ipv4Addr], gateway: Option<Ipv4Addr>) -> (r: bool)
    ensures
        r == (!has_router(gateway) && on_bare_cable(addresses@)),
{
    if let Some(g) = gateway {
        if !g.is_link_local() {
            return false;
        }
    }
    let mut i: usize = 0;
    while i < addresses.len()
        invariant
            i <= addresses.len(),
            !has_router(gateway),
            forall|k: int| 0 <= k < i ==> !(#[trigger] addresses@[k]).link_local(),
        decreases addresses.len() - i,
    {
        if addresses[i].is_link_local() {
            assert(addresses@[i as int].link_local());
            return true;
        }
        i = i + 1;
    }
    false
}

/// Why nothing is handed out.
#[derive(Debug)]
pub enum Refused {
    /// Something routes here, so something else is probably leasing.
    NetworkHasARouter,
    /// No link-local address, so this may not be a bare cable.
    NotABareCable,
    /// The port is a privileged one.
    NeedsAdministrator,
    /// What the system said.
    Other(String),
}

/// A refusal in words that say what to do.
pub open spec fn refusal_text(r: Refused) -> Seq<char> {
    match r {
        Refused::NetworkHasARouter => "not handing out addresses: this network already has a router, and two things handing out addresses breaks it for everyone. Unplug from the wall network first, or use the cable on its own."@,
        Refused::NotABareCable => "not handing out addresses yet: waiting for this computer to settle on a cable address. Give it half a minute after plugging the cable in, then try again."@,
        Refused::NeedsAdministrator => "cannot hand out addresses without administrator rights. On Linux and macOS run this with sudo. Without it a Windows or Mac laptop on the far end still works; a Linux one may need its address set by hand."@,
        Refused::Other(e) => "cannot hand out addresses: "@ + e@,
    }
}

impl Refused {
    /// The refusal in words that say what to do.
    pub fn text(&self) -> (s: String)
        ensures
            s@ == refusal_text(*self),
    {
        match self {
            Refused::NetworkHasARouter => "not handing out addresses: this network already has a router, and two things handing out addresses breaks it for everyone. Unplug from the wall network first, or use the cable on its own.".to_owned(),
            Refused::NotABareCable => "not handing out addresses yet: waiting for this computer to settle on a cable address. Give it half a minute after plugging the cable in, then try again.".to_owned(),
            Refused::NeedsAdministrator => "cannot hand out addresses without administrator rights. On Linux and macOS run this with sudo. Without it a Windows or Mac laptop on the far end still works; a Linux one may need its address set by hand.".to_owned(),
            Refused::Other(e) => {
                let mut s = String::new();
                s.append("cannot hand out addresses: ");
                s.append(e.as_str());
                assert(s@ =~= refusal_text(*self));
                s
            },
        }
    }
}

/// Whether the server may start, before it has asked for its port.
pub fn may_start(addresses: &[Ipv4Addr], gateway: Option<Ipv4Addr>) -> (r: Result<(), Refused>)
    ensures
        r is Ok <==> !has_router(gateway) && on_bare_cable(addresses@),
        r matches Err(e) ==> e == (if has_router(gateway) {
            Refused::NetworkHasARouter
        } else {
            Refused::NotABareCable
        }),
{
    if let Some(g) = gateway {
        if !g.is_link_local() {
            return Err(Refused::NetworkHasARouter);
        }
    }
    if !safe_to_offer(addresses, gateway) {
        return Err(Refused::NotABareCable);
    }
    Ok(())
}

/// What it means that the port could not be had.
pub fn port_refused(permission_denied: bool, why: &str) -> (r: Refused)
    ensures
        permission_denied ==> r is NeedsAdministrator,
        !permission_denied ==> (r matches Refused::Other(e) && e@ == why@),
{
    if permission_denied {
        Refused::NeedsAdministrator
    } else {
        Refused::Other(why.to_owned())
    }
}

/// The kind of answer that a kind of request gets.
pub open spec fn answer_kind(kind: u8) -> Option<u8> {
    if kind == DISCOVER {
        Some(OFFER)
    } else if kind == REQUEST {
        Some(ACK)
    } else {
        None
    }
}

/// What is lent after a packet has come in.
pub open spec fn held_after(
    packet: Seq<u8>,
    base: Ipv4Addr,
    server: Ipv4Addr,
    held: Held,
    declined: Set<Ipv4Addr>,
) -> Held {
    let kind = kind_of(options_from(packet, 240));
    let mac = packet.subrange(28, 34);
    if !is_request(packet) {
        held
    } else if answer_kind(kind) is Some {
        after_offer(base, server, held, declined, mac)
    } else if kind == DECLINE || kind == RELEASE {
        held.remove(mac)
    } else {
        held
    }
}

/// What has been declined after a packet has come in.
pub open spec fn declined_after(
    packet: Seq<u8>,
    held: Held,
    declined: Set<Ipv4Addr>,
) -> Set<Ipv4Addr> {
    if is_request(packet) && kind_of(options_from(packet, 240)) == DECLINE {
        after_decline(held, declined, packet.subrange(28, 34))
    } else {
        declined
    }
}

/// What a packet is answered with, if it is answered.
pub open spec fn answer_to(
    packet: Seq<u8>,
    base: Ipv4Addr,
    mask: Ipv4Addr,
    server: Ipv4Addr,
    held: Held,
    declined: Set<Ipv4Addr>,
) -> Option<Seq<u8>> {
    let kind = answer_kind(kind_of(options_from(packet, 240)));
    let ip = offered(base, server, held, declined, packet.subrange(28, 34));
    if is_request(packet) && kind is Some && ip is Some {
        Some(
            reply_packet(
                packet.subrange(4, 8),
                packet.subrange(28, 44),
                kind.unwrap(),
                ip.unwrap(),
                server,
                mask,
            ),
        )
    } else {
        None
    }
}

/// Take in one packet: the bytes to broadcast, if any. A client that declines an
/// address has found it in use, so its next attempt gets a different one.
pub fn handle(leases: &mut Leases, packet: &[u8], server: Ipv4Addr) -> (out: Option<Vec<u8>>)
    requires
        old(leases).wf(),
    ensures
        final(leases).wf(),
        final(leases).base() == old(leases).base(),
        final(leases).mask() == old(leases).mask(),
        final(leases)@ == held_after(
            packet@,
            old(leases).base(),
            server,
            old(leases)@,
            old(leases).declined(),
        ),
        final(leases).declined() == declined_after(
            packet@,
            old(leases)@,
            old(leases).declined(),
        ),
        unshared(old(leases)@) ==> unshared(final(leases)@),
        old(leases).all_lendable(server) ==> final(leases).all_lendable(server),
        ({
            let a = answer_to(
                packet@,
                old(leases).base(),
                old(leases).mask(),
                server,
                old(leases)@,
                old(leases).declined(),
            );
            &&& out is Some <==> a is Some
            &&& out matches Some(b) ==> a == Some(b@)
        }),
{
    let req = match parse(packet) {
        Some(r) => r,
        None => {
            return None;
        },
    };
    let mac: [u8; 6] = req.mac();
    assert(mac@ =~= packet@.subrange(28, 34));
    let mask: Ipv4Addr = leases.netmask();
    if req.kind == DISCOVER || req.kind == REQUEST {
        let kind: u8 = if req.kind == DISCOVER {
            OFFER
        } else {
            ACK
        };
        match leases.offer(mac, server) {
            Some(ip) => Some(reply(&req, kind, ip, server, mask)),
            None => None,
        }
    } else if req.kind == DECLINE {
        leases.decline(mac);
        None
    } else if req.kind == RELEASE {
        leases.release(mac);
        None
    } else {
        None
    }
}

/// A machine that has declined its address is offered a different one, and so is
/// every other machine that has none yet.
pub proof fn law_a_declined_address_is_not_offered_again(
    base: Ipv4Addr,
    server: Ipv4Addr,
    held: Held,
    declined: Set<Ipv4Addr>,
    mac: Seq<u8>,
    other: Seq<u8>,
)
    requires
        held.contains_key(mac),
        other == mac || !held.contains_key(other),
    ensures
        offered(
            base,
            server,
            held.remove(mac),
            after_decline(held, declined, mac),
            other,
        ) != Some(held[mac]),
{
    lemma_first_free(
        base,
        server,
        held.remove(mac).values().union(after_decline(held, declined, mac)),
        0,
    );
}

/// A machine that looks for an address is offered one, and one that asks for it is told
/// that it has it: by a reply with its own number and hardware address, the address that
/// is now lent to it, and the kind that answers what it sent. Whatever else it sends is
/// not answered.
pub proof fn law_every_request_gets_its_answer(
    head: Seq<u8>,
    opts: Seq<(u8, Seq<u8>)>,
    tail: Seq<u8>,
    k: int,
    base: Ipv4Addr,
    mask: Ipv4Addr,
    server: Ipv4Addr,
    held: Held,
    declined: Set<Ipv4Addr>,
)
    requires
        head.len() == 240,
        head[0] == 1,
        head[236] == 0x63 && head[237] == 0x82 && head[238] == 0x53 && head[239] == 0x63,
        writable(opts),
        ends_options(tail),
        0 <= k < opts.len(),
        opts[k].0 == 53 && opts[k].1.len() == 1 && opts[k].1[0] != 0,
        forall|i: int|
            0 <= i < opts.len() && i != k ==> (#[trigger] opts[i]).0 != 53 || opts[i].1.len() != 1,
    ensures
        ({
            let p = head + written(opts) + tail;
            let sent = opts[k].1[0];
            let mac = head.subrange(28, 34);
            let ip = offered(base, server, held, declined, mac);
            let answer = answer_to(p, base, mask, server, held, declined);
            let now = held_after(p, base, server, held, declined);
            &&& sent != 1 && sent != 3 ==> answer is None
            &&& sent == 1 || sent == 3 ==> {
                &&& answer is Some <==> ip is Some
                &&& ip is Some ==> {
                    let r = answer.unwrap();
                    &&& r[0] == 2
                    &&& r.subrange(4, 8) == head.subrange(4, 8)
                    &&& r.subrange(28, 44) == head.subrange(28, 44)
                    &&& r.subrange(16, 20) == ip.unwrap().bytes()
                    &&& options_from(r, 240)[0] == (53u8, seq![if sent == 1 {
                        2u8
                    } else {
                        5u8
                    }])
                    &&& now.contains_key(mac) && now[mac] == ip.unwrap()
                }
            }
            &&& sent == 4 || sent == 7 ==> now == held.remove(mac)
        }),
{
    let p = head + written(opts) + tail;
    lemma_kind_written(head, opts, tail, k);
    assert(p.subrange(4, 8) =~= head.subrange(4, 8));
    assert(p.subrange(28, 44) =~= head.subrange(28, 44));
    assert(p.subrange(28, 34) =~= head.subrange(28, 34));
    let ip = offered(base, server, held, declined, head.subrange(28, 34));
    if ip is Some {
        law_reply_reads_back(
            head.subrange(4, 8),
            head.subrange(28, 44),
            if opts[k].1[0] == 1 { OFFER } else { ACK },
            ip.unwrap(),
            server,
            mask,
        );
    }
}

} // verus!
