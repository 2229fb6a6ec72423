//! The packets: reading a request, writing an answer.

use crate::addr::Ipv4Addr;
use crate::bytes::push_bytes;
use vstd::prelude::*;

verus! {

pub const SERVER_PORT: u16 = 67;

pub const CLIENT_PORT: u16 = 68;

pub const OP_REQUEST: u8 = 1;

pub const OP_REPLY: u8 = 2;

pub const DISCOVER: u8 = 1;

pub const OFFER: u8 = 2;

pub const REQUEST: u8 = 3;

pub const DECLINE: u8 = 4;

pub const ACK: u8 = 5;

pub const RELEASE: u8 = 7;

pub const OPT_SUBNET_MASK: u8 = 1;

pub const OPT_ROUTER: u8 = 3;

/// The address a client asks to keep.
pub const OPT_REQUESTED: u8 = 50;

pub const OPT_LEASE_TIME: u8 = 51;

pub const OPT_MSG_TYPE: u8 = 53;

pub const OPT_SERVER_ID: u8 = 54;

pub const OPT_END: u8 = 255;

/// Bytes 236 to 239 of every packet. Without them it is not one of ours.
pub open spec fn cookie() -> Seq<u8> {
    seq![0x63u8, 0x82, 0x53, 0x63]
}

/// How long an address is lent: one hour, in seconds, most significant byte
/// first. Longer than any transfer, and over by the next lesson.
pub open spec fn lease_time() -> Seq<u8> {
    seq![0u8, 0, 14, 16]
}

/// A request. Only the fields that are replied to are kept.
#[derive(Clone, Copy, Debug)]
pub struct Request {
    /// Transaction id, echoed so that the client can match the reply.
    pub xid: [u8; 4],
    /// Hardware address: the whole field, of which the first six bytes count.
    pub chaddr: [u8; 16],
    pub kind: u8,
    /// The address that the client asks to keep.
    pub requested: Option<Ipv4Addr>,
}

impl Request {
    /// The part of the hardware address that tells one machine from another.
    pub fn mac(&self) -> (m: [u8; 6])
        ensures
            m@ == self.chaddr@.take(6),
    {
        let m: [u8; 6] = [
            self.chaddr[0],
            self.chaddr[1],
            self.chaddr[2],
            self.chaddr[3],
            self.chaddr[4],
            self.chaddr[5],
        ];
        assert(m@ =~= self.chaddr@.take(6));
        m
    }
}

/// The options of a packet from place `i` on, each with its code and contents. A
/// zero is padding. The list ends at the end mark, at the end of the packet, or
/// at an option that does not lie wholly inside it.
pub open spec fn options_from(buf: Seq<u8>, i: int) -> Seq<(u8, Seq<u8>)>
    decreases buf.len() - i,
{
    if i < 0 || i >= buf.len() || buf[i] == OPT_END {
        Seq::empty()
    } else if buf[i] == 0 {
        options_from(buf, i + 1)
    } else if i + 1 >= buf.len() || i + 2 + buf[i + 1] > buf.len() {
        Seq::empty()
    } else {
        seq![(buf[i], buf.subrange(i + 2, i + 2 + buf[i + 1]))] + options_from(
            buf,
            i + 2 + buf[i + 1],
        )
    }
}

/// What the last option with this code and this length holds.
pub open spec fn last_option(opts: Seq<(u8, Seq<u8>)>, code: u8, len: nat) -> Option<Seq<u8>>
    decreases opts.len(),
{
    if opts.len() == 0 {
        None
    } else if opts.last().0 == code && opts.last().1.len() == len {
        Some(opts.last().1)
    } else {
        last_option(opts.drop_last(), code, len)
    }
}

/// The kind of message that the options state, or zero.
pub open spec fn kind_of(opts: Seq<(u8, Seq<u8>)>) -> u8 {
    match last_option(opts, OPT_MSG_TYPE, 1) {
        Some(b) => b[0],
        None => 0,
    }
}

/// The address that the options ask to keep.
pub open spec fn requested_of(opts: Seq<(u8, Seq<u8>)>) -> Option<Ipv4Addr> {
    match last_option(opts, OPT_REQUESTED, 4) {
        Some(b) => Some(Ipv4Addr { a: b[0], b: b[1], c: b[2], d: b[3] }),
        None => None,
    }
}

/// Whether some bytes are a request that can be answered.
pub open spec fn is_request(buf: Seq<u8>) -> bool {
    &&& buf.len() >= 240
    &&& buf[0] == OP_REQUEST
    &&& buf.subrange(236, 240) == cookie()
    &&& kind_of(options_from(buf, 240)) != 0
}

/// Whether a request holds what the packet says.
pub open spec fn request_matches(buf: Seq<u8>, r: Request) -> bool {
    &&& r.xid@ == buf.subrange(4, 8)
    &&& r.chaddr@ == buf.subrange(28, 44)
    &&& r.kind == kind_of(options_from(buf, 240))
    &&& r.requested == requested_of(options_from(buf, 240))
}

/// Read a packet, or decide it is not one.
pub fn parse(buf: &[u8]) -> (r: Option<Request>)
    ensures
        r is Some <==> is_request(buf@),
        r matches Some(q) ==> request_matches(buf@, q),
{
    if buf.len() < 240 || buf[0] != OP_REQUEST {
        return None;
    }
    if buf[236] != 0x63 || buf[237] != 0x82 || buf[238] != 0x53 || buf[239] != 0x63 {
        proof {
            if buf@.subrange(236, 240) == cookie() {
                assert(buf@[236] == buf@.subrange(236, 240)[0]);
                assert(buf@[237] == buf@.subrange(236, 240)[1]);
                assert(buf@[238] == buf@.subrange(236, 240)[2]);
                assert(buf@[239] == buf@.subrange(236, 240)[3]);
            }
        }
        return None;
    }
    assert(buf@.subrange(236, 240) =~= cookie());
    let xid: [u8; 4] = [buf[4], buf[5], buf[6], buf[7]];
    assert(xid@ =~= buf@.subrange(4, 8));
    let chaddr: [u8; 16] = [
        buf[28],
        buf[29],
        buf[30],
        buf[31],
        buf[32],
        buf[33],
        buf[34],
        buf[35],
        buf[36],
        buf[37],
        buf[38],
        buf[39],
        buf[40],
        buf[41],
        buf[42],
        buf[43],
    ];
    assert(chaddr@ =~= buf@.subrange(28, 44));
    let mut kind: u8 = 0;
    let mut requested: Option<Ipv4Addr> = None;
    let mut i: usize = 240;
    let ghost mut seen: Seq<(u8, Seq<u8>)> = Seq::empty();
    assert(seen + options_from(buf@, 240) =~= options_from(buf@, 240));
    while i < buf.len() && buf[i] != OPT_END
        invariant_except_break
            240 <= i <= buf.len(),
            options_from(buf@, 240) == seen + options_from(buf@, i as int),
        invariant
            kind == kind_of(seen),
            requested == requested_of(seen),
        ensures
            options_from(buf@, 240) == seen,
        decreases buf.len() - i,
    {
        let opt: u8 = buf[i];
        if opt == 0 {
            i = i + 1;
            continue ;
        }
        if i + 1 >= buf.len() || buf[i + 1] as usize > buf.len() - (i + 2) {
            assert(options_from(buf@, i as int) =~= Seq::empty());
            assert(options_from(buf@, 240) =~= seen);
            break ;
        }
        let len: usize = buf[i + 1] as usize;
        let start: usize = i + 2;
        let ghost before = seen;
        proof {
            let one = (opt, buf@.subrange(start as int, start + len));
            seen = seen.push(one);
            assert(seen.drop_last() =~= before);
            assert(options_from(buf@, 240) =~= seen + options_from(buf@, start + len));
        }
        if opt == OPT_MSG_TYPE && len == 1 {
            kind = buf[start];
        } else if opt == OPT_REQUESTED && len == 4 {
            requested = Some(
                Ipv4Addr::new(buf[start], buf[start + 1], buf[start + 2], buf[start + 3]),
            );
        }
        i = start + len;
    }
    if kind == 0 {
        return None;
    }
    Some(Request { xid, chaddr, kind, requested })
}

/// So many zeros.
pub open spec fn zeros(n: nat) -> Seq<u8> {
    Seq::new(n, |i: int| 0u8)
}

/// The options of a reply. The router is this machine: nothing is routed, but a
/// client without a default route may think the link unusable. No name server is
/// named, since there is none and asking it would look like a hang.
pub open spec fn reply_options(kind: u8, server: Ipv4Addr, mask: Ipv4Addr) -> Seq<u8> {
    seq![OPT_MSG_TYPE, 1, kind] + seq![OPT_SERVER_ID, 4] + server.bytes() + seq![
        OPT_SUBNET_MASK,
        4,
    ] + mask.bytes() + seq![OPT_ROUTER, 4] + server.bytes() + seq![OPT_LEASE_TIME, 4]
        + lease_time() + seq![OPT_END]
}

/// A reply: the fixed part with the transaction id, the broadcast flag, the
/// address offered, our own, the client's hardware address; the cookie; the
/// options; padding up to 300 bytes.
pub open spec fn reply_packet(
    xid: Seq<u8>,
    chaddr: Seq<u8>,
    kind: u8,
    client: Ipv4Addr,
    server: Ipv4Addr,
    mask: Ipv4Addr,
) -> Seq<u8> {
    seq![OP_REPLY, 1, 6, 0] + xid + zeros(2) + seq![0x80u8, 0] + zeros(4) + client.bytes()
        + server.bytes() + zeros(4) + chaddr + zeros(192) + cookie() + reply_options(
        kind,
        server,
        mask,
    ) + zeros(32)
}

fn push_zeros(p: &mut Vec<u8>, n: usize)
    ensures
        final(p)@ == old(p)@ + zeros(n as nat),
{
    let ghost start = p@;
    let mut i: usize = 0;
    assert(start + zeros(0) =~= start);
    while i < n
        invariant
            i <= n,
            p@ == start + zeros(i as nat),
        decreases n - i,
    {
        p.push(0);
        i = i + 1;
        assert(p@ =~= start + zeros(i as nat));
    }
}

/// Append an option of four bytes.
fn push_option(p: &mut Vec<u8>, code: u8, ip: Ipv4Addr)
    ensures
        final(p)@ == old(p)@ + seq![code, 4] + ip.bytes(),
{
    let ghost start = p@;
    p.push(code);
    p.push(4);
    push_bytes(p, ip.octets().as_slice());
    assert(p@ =~= start + seq![code, 4] + ip.bytes());
}

fn push_reply_options(p: &mut Vec<u8>, kind: u8, server: Ipv4Addr, mask: Ipv4Addr)
    ensures
        final(p)@ == old(p)@ + reply_options(kind, server, mask),
{
    let ghost start = p@;
    p.push(OPT_MSG_TYPE);
    p.push(1);
    p.push(kind);
    push_option(p, OPT_SERVER_ID, server);
    push_option(p, OPT_SUBNET_MASK, mask);
    push_option(p, OPT_ROUTER, server);
    push_option(p, OPT_LEASE_TIME, Ipv4Addr::new(0, 0, 14, 16));
    p.push(OPT_END);
    assert((Ipv4Addr { a: 0, b: 0, c: 14, d: 16 }).bytes() =~= lease_time());
    assert(p@ =~= start + reply_options(kind, server, mask));
}

/// Build an offer or an acknowledgement.
pub fn reply(req: &Request, kind: u8, client: Ipv4Addr, server: Ipv4Addr, mask: Ipv4Addr) -> (p: Vec<
    u8,
>)
    ensures
        p@ == reply_packet(req.xid@, req.chaddr@, kind, client, server, mask),
        p.len() == 300,
{
    let mut p: Vec<u8> = Vec::new();
    p.push(OP_REPLY);
    p.push(1);
    p.push(6);
    p.push(0);
    push_bytes(&mut p, req.xid.as_slice());
    push_zeros(&mut p, 2);
    p.push(0x80);
    p.push(0);
    push_zeros(&mut p, 4);
    push_bytes(&mut p, client.octets().as_slice());
    push_bytes(&mut p, server.octets().as_slice());
    push_zeros(&mut p, 4);
    push_bytes(&mut p, req.chaddr.as_slice());
    push_zeros(&mut p, 192);
    p.push(0x63);
    p.push(0x82);
    p.push(0x53);
    p.push(0x63);
    push_reply_options(&mut p, kind, server, mask);
    push_zeros(&mut p, 32);
    assert(p@ =~= reply_packet(req.xid@, req.chaddr@, kind, client, server, mask));
    p
}

proof fn lemma_option_at(buf: Seq<u8>, i: int, code: u8, b: Seq<u8>)
    requires
        0 <= i,
        i + 2 + b.len() <= buf.len(),
        code != 0,
        code != OPT_END,
        buf[i] == code,
        buf[i + 1] as int == b.len(),
        buf.subrange(i + 2, i + 2 + b.len()) == b,
    ensures
        options_from(buf, i) == seq![(code, b)] + options_from(buf, i + 2 + b.len()),
{
}

/// A client finds in a reply what it needs: the reply's mark, its own transaction
/// id and hardware address, the address offered, the broadcast flag, and exactly
/// these options.
pub proof fn law_reply_reads_back(
    xid: Seq<u8>,
    chaddr: Seq<u8>,
    kind: u8,
    client: Ipv4Addr,
    server: Ipv4Addr,
    mask: Ipv4Addr,
)
    requires
        xid.len() == 4,
        chaddr.len() == 16,
    ensures
        ({
            let p = reply_packet(xid, chaddr, kind, client, server, mask);
            &&& p.len() == 300
            &&& p[0] == OP_REPLY
            &&& p.subrange(4, 8) == xid
            &&& p[10] == 0x80
            &&& p.subrange(16, 20) == client.bytes()
            &&& p.subrange(20, 24) == server.bytes()
            &&& p.subrange(28, 44) == chaddr
            &&& p.subrange(236, 240) == cookie()
            &&& options_from(p, 240) == seq![
                (OPT_MSG_TYPE, seq![kind]),
                (OPT_SERVER_ID, server.bytes()),
                (OPT_SUBNET_MASK, mask.bytes()),
                (OPT_ROUTER, server.bytes()),
                (OPT_LEASE_TIME, lease_time()),
            ]
        }),
{
    let p = reply_packet(xid, chaddr, kind, client, server, mask);
    assert(p.subrange(4, 8) =~= xid);
    assert(p.subrange(16, 20) =~= client.bytes());
    assert(p.subrange(20, 24) =~= server.bytes());
    assert(p.subrange(28, 44) =~= chaddr);
    assert(p.subrange(236, 240) =~= cookie());
    assert(p.subrange(242, 243) =~= seq![kind]);
    assert(p.subrange(245, 249) =~= server.bytes());
    assert(p.subrange(251, 255) =~= mask.bytes());
    assert(p.subrange(257, 261) =~= server.bytes());
    assert(p.subrange(263, 267) =~= lease_time());
    lemma_option_at(p, 240, OPT_MSG_TYPE, seq![kind]);
    lemma_option_at(p, 243, OPT_SERVER_ID, server.bytes());
    lemma_option_at(p, 249, OPT_SUBNET_MASK, mask.bytes());
    lemma_option_at(p, 255, OPT_ROUTER, server.bytes());
    lemma_option_at(p, 261, OPT_LEASE_TIME, lease_time());
    assert(p[267] == OPT_END);
    assert(options_from(p, 267) =~= Seq::empty());
    assert(options_from(p, 240) =~= seq![
        (OPT_MSG_TYPE, seq![kind]),
        (OPT_SERVER_ID, server.bytes()),
        (OPT_SUBNET_MASK, mask.bytes()),
        (OPT_ROUTER, server.bytes()),
        (OPT_LEASE_TIME, lease_time()),
    ]);
}

/// A reply is never taken for a request, so two servers cannot answer each other.
pub proof fn law_reply_is_no_request(
    xid: Seq<u8>,
    chaddr: Seq<u8>,
    kind: u8,
    client: Ipv4Addr,
    server: Ipv4Addr,
    mask: Ipv4Addr,
)
    ensures
        !is_request(reply_packet(xid, chaddr, kind, client, server, mask)),
{
    assert(reply_packet(xid, chaddr, kind, client, server, mask)[0] == OP_REPLY);
}

/// Options as a client writes them, one behind the other: the code, the length, the
/// contents.
pub open spec fn written(opts: Seq<(u8, Seq<u8>)>) -> Seq<u8>
    decreases opts.len(),
{
    if opts.len() == 0 {
        Seq::empty()
    } else {
        seq![opts[0].0, opts[0].1.len() as u8] + opts[0].1 + written(opts.skip(1))
    }
}

/// Whether options can be written: neither padding nor the end mark, and none too long.
pub open spec fn writable(opts: Seq<(u8, Seq<u8>)>) -> bool {
    forall|i: int|
        0 <= i < opts.len() ==> (#[trigger] opts[i]).0 != 0 && opts[i].0 != 255 && opts[i].1.len()
            <= 255
}

/// Whether a list of options ends here: with the end mark, or with the packet.
pub open spec fn ends_options(tail: Seq<u8>) -> bool {
    tail.len() == 0 || tail[0] == 255
}

proof fn lemma_written_options(head: Seq<u8>, opts: Seq<(u8, Seq<u8>)>, tail: Seq<u8>)
    requires
        writable(opts),
        ends_options(tail),
    ensures
        options_from(head + written(opts) + tail, head.len() as int) == opts,
    decreases opts.len(),
{
    let p = head + written(opts) + tail;
    let at = head.len() as int;
    if opts.len() == 0 {
        assert(p =~= head + tail);
        assert(options_from(p, at) =~= opts);
    } else {
        let (code, b) = opts[0];
        let rest = opts.skip(1);
        let longer = head + (seq![code, b.len() as u8] + b);
        assert(p =~= longer + written(rest) + tail);
        assert forall|i: int| 0 <= i < rest.len() implies (#[trigger] rest[i]).0 != 0 && rest[i].0
            != 255 && rest[i].1.len() <= 255 by {
            assert(rest[i] == opts[i + 1]);
        }
        lemma_written_options(longer, rest, tail);
        assert(p[at] == code && p[at + 1] == b.len());
        assert(p.subrange(at + 2, at + 2 + b.len()) =~= b);
        lemma_option_at(p, at, code, b);
        assert(seq![(code, b)] + rest =~= opts);
    }
}

proof fn lemma_only_option(opts: Seq<(u8, Seq<u8>)>, code: u8, len: nat, k: int)
    requires
        -1 <= k < opts.len(),
        k >= 0 ==> opts[k].0 == code && opts[k].1.len() == len,
        forall|i: int|
            0 <= i < opts.len() && i != k ==> (#[trigger] opts[i]).0 != code || opts[i].1.len()
                != len,
    ensures
        last_option(opts, code, len) == (if k >= 0 {
            Some(opts[k].1)
        } else {
            None
        }),
    decreases opts.len(),
{
    if opts.len() > 0 {
        let before = opts.drop_last();
        if k == opts.len() - 1 {
        } else {
            assert(opts.last() == opts[opts.len() - 1]);
            assert forall|i: int| 0 <= i < before.len() && i != k implies (#[trigger] before[i]).0
                != code || before[i].1.len() != len by {
                assert(before[i] == opts[i]);
            }
            lemma_only_option(before, code, len, k);
        }
    }
}

/// The kind of a request is the one that its options state.
pub proof fn lemma_kind_written(head: Seq<u8>, opts: Seq<(u8, Seq<u8>)>, tail: Seq<u8>, k: int)
    requires
        head.len() == 240,
        head[0] == 1,
        head[236] == 0x63 && head[237] == 0x82 && head[238] == 0x53 && head[239] == 0x63,
        writable(opts),
        ends_options(tail),
        0 <= k < opts.len(),
        opts[k].0 == 53 && opts[k].1.len() == 1 && opts[k].1[0] != 0,
        forall|i: int|
            0 <= i < opts.len() && i != k ==> (#[trigger] opts[i]).0 != 53 || opts[i].1.len() != 1,
    ensures
        is_request(head + written(opts) + tail),
        kind_of(options_from(head + written(opts) + tail, 240)) == opts[k].1[0],
{
    let p = head + written(opts) + tail;
    lemma_written_options(head, opts, tail);
    lemma_only_option(opts, 53, 1, k);
    assert(p.subrange(236, 240) =~= cookie());
}

/// A request is read for what it is wherever among its options its kind stands, and
/// whatever else the client writes before or behind it: with the client's own number and
/// hardware address, the kind it states and the address it asks to keep, if it asks for
/// one.
pub proof fn law_a_request_is_read_whatever_surrounds_its_kind(
    head: Seq<u8>,
    opts: Seq<(u8, Seq<u8>)>,
    tail: Seq<u8>,
    k: int,
    w: int,
    r: Request,
)
    requires
        head.len() == 240,
        head[0] == 1,
        head[236] == 0x63 && head[237] == 0x82 && head[238] == 0x53 && head[239] == 0x63,
        writable(opts),
        ends_options(tail),
        0 <= k < opts.len(),
        opts[k].0 == 53 && opts[k].1.len() == 1 && opts[k].1[0] != 0,
        forall|i: int|
            0 <= i < opts.len() && i != k ==> (#[trigger] opts[i]).0 != 53 || opts[i].1.len() != 1,
        -1 <= w < opts.len(),
        w >= 0 ==> opts[w].0 == 50 && opts[w].1.len() == 4,
        forall|i: int|
            0 <= i < opts.len() && i != w ==> (#[trigger] opts[i]).0 != 50 || opts[i].1.len() != 4,
    ensures
        is_request(head + written(opts) + tail),
        request_matches(head + written(opts) + tail, r) ==> {
            &&& r.kind == opts[k].1[0]
            &&& r.xid@ == head.subrange(4, 8)
            &&& r.chaddr@ == head.subrange(28, 44)
            &&& w < 0 ==> r.requested is None
            &&& w >= 0 ==> (r.requested matches Some(ip) && ip.bytes() == opts[w].1)
        },
{
    let p = head + written(opts) + tail;
    lemma_kind_written(head, opts, tail, k);
    lemma_written_options(head, opts, tail);
    lemma_only_option(opts, 50, 4, w);
    assert(p.subrange(4, 8) =~= head.subrange(4, 8));
    assert(p.subrange(28, 44) =~= head.subrange(28, 44));
    if w >= 0 {
        let b = opts[w].1;
        assert((Ipv4Addr { a: b[0], b: b[1], c: b[2], d: b[3] }).bytes() =~= b);
    }
}

/// Padding between options is nothing.
pub proof fn law_padding_is_passed_over(buf: Seq<u8>, i: int, n: nat)
    requires
        0 <= i,
        i + n <= buf.len(),
        forall|j: int| i <= j < i + n ==> #[trigger] buf[j] == 0,
    ensures
        options_from(buf, i) == options_from(buf, i + n),
    decreases n,
{
    if n > 0 {
        assert(buf[i] == 0);
        law_padding_is_passed_over(buf, i + 1, (n - 1) as nat);
    }
}

/// A reply in plain numbers, as a client reads it: a reply by its first byte, for a
/// network of six-byte hardware addresses, and among its options the kind, us as the
/// server and the router, the mask, and a lease of an hour.
pub proof fn law_a_reply_says_what_a_client_needs(
    xid: Seq<u8>,
    chaddr: Seq<u8>,
    kind: u8,
    client: Ipv4Addr,
    server: Ipv4Addr,
    mask: Ipv4Addr,
)
    requires
        xid.len() == 4,
        chaddr.len() == 16,
    ensures
        ({
            let p = reply_packet(xid, chaddr, kind, client, server, mask);
            let o = options_from(p, 240);
            &&& p[0] == 2 && p[1] == 1 && p[2] == 6
            &&& p[236] == 0x63 && p[237] == 0x82 && p[238] == 0x53 && p[239] == 0x63
            &&& p[16] == client.a && p[17] == client.b && p[18] == client.c && p[19] == client.d
            &&& o.len() == 5
            &&& o[0].0 == 53 && o[0].1 == seq![kind]
            &&& o[1].0 == 54 && o[1].1 == server.bytes()
            &&& o[2].0 == 1 && o[2].1 == mask.bytes()
            &&& o[3].0 == 3 && o[3].1 == server.bytes()
            &&& o[4].0 == 51 && o[4].1.len() == 4
            &&& o[4].1[0] * 0x100_0000 + o[4].1[1] * 0x1_0000 + o[4].1[2] * 0x100 + o[4].1[3]
                == 3600
        }),
{
    law_reply_reads_back(xid, chaddr, kind, client, server, mask);
    let p = reply_packet(xid, chaddr, kind, client, server, mask);
    assert(p[236] == p.subrange(236, 240)[0] && p[237] == p.subrange(236, 240)[1]);
    assert(p[238] == p.subrange(236, 240)[2] && p[239] == p.subrange(236, 240)[3]);
    assert(p[16] == p.subrange(16, 20)[0] && p[17] == p.subrange(16, 20)[1]);
    assert(p[18] == p.subrange(16, 20)[2] && p[19] == p.subrange(16, 20)[3]);
}

} // verus!
