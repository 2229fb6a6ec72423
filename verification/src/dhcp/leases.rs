//! Who has which address.

use crate::addr::Ipv4Addr;
use vstd::prelude::*;

verus! {

/// How many addresses there are to lend. Two machines in every real case; more
/// only so that a small switch in the middle does not run it dry.
pub const POOL: u8 = 20;

/// The first address to lend, worked out from the one we hold: in the same
/// segment, so that nothing of ours has to be re-addressed.
pub open spec fn first_of_pool(server: Ipv4Addr) -> Ipv4Addr {
    Ipv4Addr {
        a: server.a,
        b: server.b,
        c: server.c,
        d: if server.link_local() {
            1
        } else {
            100
        },
    }
}

/// The mask that goes with it: link-local addresses are one flat segment.
pub open spec fn mask_of(server: Ipv4Addr) -> Ipv4Addr {
    Ipv4Addr {
        a: 255,
        b: 255,
        c: if server.link_local() {
            0
        } else {
            255
        },
        d: 0,
    }
}

/// The first address to lend, and the mask.
pub fn pool_base(server: Ipv4Addr) -> (r: (Ipv4Addr, Ipv4Addr))
    ensures
        r.0 == first_of_pool(server),
        r.1 == mask_of(server),
{
    if server.is_link_local() {
        (Ipv4Addr::new(169, 254, server.c, 1), Ipv4Addr::new(255, 255, 0, 0))
    } else {
        (Ipv4Addr::new(server.a, server.b, server.c, 100), Ipv4Addr::new(255, 255, 255, 0))
    }
}

/// The address so many places after the first.
pub open spec fn candidate(base: Ipv4Addr, n: int) -> Ipv4Addr {
    Ipv4Addr { a: base.a, b: base.b, c: base.c, d: ((base.d + n) % 256) as u8 }
}

/// Whether an address may be lent at all: not our own, and neither the network's
/// nor everybody's.
pub open spec fn lendable(ip: Ipv4Addr, server: Ipv4Addr) -> bool {
    ip != server && ip.d != 0 && ip.d != 255
}

/// The first lendable address from place `n` on that nobody has.
pub open spec fn first_free(
    base: Ipv4Addr,
    server: Ipv4Addr,
    taken: Set<Ipv4Addr>,
    n: int,
) -> Option<Ipv4Addr>
    decreases POOL - n,
{
    if n >= POOL {
        None
    } else if lendable(candidate(base, n), server) && !taken.contains(candidate(base, n)) {
        Some(candidate(base, n))
    } else {
        first_free(base, server, taken, n + 1)
    }
}

pub proof fn lemma_first_free(base: Ipv4Addr, server: Ipv4Addr, taken: Set<Ipv4Addr>, n: int)
    requires
        0 <= n,
    ensures
        first_free(base, server, taken, n) matches Some(ip) ==> {
            &&& lendable(ip, server)
            &&& !taken.contains(ip)
        },
    decreases POOL - n,
{
    if n < POOL {
        lemma_first_free(base, server, taken, n + 1);
    }
}

/// The addresses that are lent, by hardware address.
pub type Held = Map<Seq<u8>, Ipv4Addr>;

/// No two machines have the same address.
pub open spec fn unshared(held: Held) -> bool {
    forall|m: Seq<u8>, k: Seq<u8>|
        held.contains_key(m) && held.contains_key(k) && m != k ==> #[trigger] held[m]
            != #[trigger] held[k]
}

/// The address for a machine: the one it has, or else the first that nobody has and
/// nobody has declined.
pub open spec fn offered(
    base: Ipv4Addr,
    server: Ipv4Addr,
    held: Held,
    declined: Set<Ipv4Addr>,
    mac: Seq<u8>,
) -> Option<Ipv4Addr> {
    if held.contains_key(mac) {
        Some(held[mac])
    } else {
        first_free(base, server, held.values().union(declined), 0)
    }
}

/// What is lent once a machine has asked.
pub open spec fn after_offer(
    base: Ipv4Addr,
    server: Ipv4Addr,
    held: Held,
    declined: Set<Ipv4Addr>,
    mac: Seq<u8>,
) -> Held {
    match offered(base, server, held, declined, mac) {
        Some(ip) => held.insert(mac, ip),
        None => held,
    }
}

/// What has been declined once a machine has declined the address it has.
pub open spec fn after_decline(held: Held, declined: Set<Ipv4Addr>, mac: Seq<u8>) -> Set<Ipv4Addr> {
    if held.contains_key(mac) {
        declined.insert(held[mac])
    } else {
        declined
    }
}

#[derive(Clone, Copy)]
struct Lease {
    mac: [u8; 6],
    ip: Ipv4Addr,
}

spec fn map_of(s: Seq<Lease>) -> Held
    decreases s.len(),
{
    if s.len() == 0 {
        Map::empty()
    } else {
        map_of(s.drop_last()).insert(s.last().mac@, s.last().ip)
    }
}

spec fn distinct(s: Seq<Lease>) -> bool {
    forall|i: int, j: int| 0 <= i < j < s.len() ==> #[trigger] s[i].mac@ != #[trigger] s[j].mac@
}

proof fn lemma_map_of(s: Seq<Lease>)
    requires
        distinct(s),
    ensures
        forall|m: Seq<u8>| #[trigger] map_of(s).contains_key(m) ==> exists|i: int|
            0 <= i < s.len() && #[trigger] s[i].mac@ == m && map_of(s)[m] == s[i].ip,
        forall|i: int|
            0 <= i < s.len() ==> map_of(s).contains_key(#[trigger] s[i].mac@) && map_of(
                s,
            )[s[i].mac@] == s[i].ip,
    decreases s.len(),
{
    if s.len() > 0 {
        let p = s.drop_last();
        assert forall|i: int, j: int| 0 <= i < j < p.len() implies #[trigger] p[i].mac@
            != #[trigger] p[j].mac@ by {
            assert(s[i].mac@ != s[j].mac@);
        }
        lemma_map_of(p);
        assert forall|i: int| 0 <= i < s.len() implies map_of(s).contains_key(
            #[trigger] s[i].mac@,
        ) && map_of(s)[s[i].mac@] == s[i].ip by {
            if i < s.len() - 1 {
                assert(p[i].mac@ == s[i].mac@);
                assert(s[i].mac@ != s[s.len() - 1].mac@);
            }
        }
        assert forall|m: Seq<u8>| #[trigger] map_of(s).contains_key(m) implies exists|i: int|
            0 <= i < s.len() && #[trigger] s[i].mac@ == m && map_of(s)[m] == s[i].ip by {
            let l = s.len() - 1;
            if m == s.last().mac@ {
                assert(s[l].mac@ == m);
            } else {
                assert(map_of(p).contains_key(m));
                let i = choose|i: int|
                    0 <= i < p.len() && #[trigger] p[i].mac@ == m && map_of(p)[m] == p[i].ip;
                assert(s[i].mac@ == m);
            }
        }
    }
}

/// The addresses that are lent, by hardware address. A repeated request is not a
/// second lease, and no two machines have the same address.
pub struct Leases {
    base: Ipv4Addr,
    mask: Ipv4Addr,
    list: Vec<Lease>,
    bad: Vec<Ipv4Addr>,
}

fn same_mac(a: &[u8; 6], b: &[u8; 6]) -> (r: bool)
    ensures
        r == (a@ == b@),
{
    let r: bool = a[0] == b[0] && a[1] == b[1] && a[2] == b[2] && a[3] == b[3] && a[4] == b[4]
        && a[5] == b[5];
    proof {
        if r {
            assert(a@ =~= b@);
        }
    }
    r
}

impl Leases {
    /// The lent addresses, by hardware address.
    pub closed spec fn view(&self) -> Held {
        map_of(self.list@)
    }

    /// The first address to lend.
    pub closed spec fn base(self) -> Ipv4Addr {
        self.base
    }

    /// The mask that goes with the addresses.
    pub closed spec fn mask(self) -> Ipv4Addr {
        self.mask
    }

    /// The addresses that a machine has declined, because it found them in use.
    pub closed spec fn declined(self) -> Set<Ipv4Addr> {
        self.bad@.to_set()
    }

    /// What always holds of the list.
    pub closed spec fn wf(self) -> bool {
        distinct(self.list@)
    }

    /// Nobody has this server's address, the network's or everybody's.
    pub open spec fn all_lendable(self, server: Ipv4Addr) -> bool {
        forall|m: Seq<u8>| #[trigger] self@.contains_key(m) ==> lendable(self@[m], server)
    }

    /// Nothing lent yet.
    pub fn new(server: Ipv4Addr) -> (l: Self)
        ensures
            l.wf(),
            unshared(l@),
            l.all_lendable(server),
            l@ == Map::<Seq<u8>, Ipv4Addr>::empty(),
            l.base() == first_of_pool(server),
            l.mask() == mask_of(server),
            l.declined() == Set::<Ipv4Addr>::empty(),
    {
        let (base, mask) = pool_base(server);
        let l = Leases { base, mask, list: Vec::new(), bad: Vec::new() };
        assert(l.declined() =~= Set::<Ipv4Addr>::empty());
        l
    }

    /// The mask that goes with the addresses.
    pub fn netmask(&self) -> (m: Ipv4Addr)
        ensures
            m == self.mask(),
    {
        self.mask
    }

    fn place_of(&self, mac: &[u8; 6]) -> (r: Option<usize>)
        requires
            self.wf(),
        ensures
            r matches Some(i) ==> i < self.list@.len() && self.list@[i as int].mac@ == mac@
                && self@.contains_key(mac@) && self@[mac@] == self.list@[i as int].ip,
            r is None ==> !self@.contains_key(mac@) && forall|k: int|
                0 <= k < self.list@.len() ==> #[trigger] self.list@[k].mac@ != mac@,
    {
        proof {
            lemma_map_of(self.list@);
        }
        let mut i: usize = 0;
        while i < self.list.len()
            invariant
                i <= self.list@.len(),
                forall|k: int| 0 <= k < i ==> #[trigger] self.list@[k].mac@ != mac@,
                forall|k: int|
                    0 <= k < self.list@.len() ==> self@.contains_key(#[trigger] self.list@[k].mac@)
                        && self@[self.list@[k].mac@] == self.list@[k].ip,
            decreases self.list@.len() - i,
        {
            if same_mac(&self.list[i].mac, mac) {
                assert(self.list@[i as int].mac@ == mac@);
                return Some(i);
            }
            i = i + 1;
        }
        None
    }

    fn is_taken(&self, ip: Ipv4Addr) -> (r: bool)
        requires
            self.wf(),
        ensures
            r == self@.values().contains(ip),
    {
        proof {
            lemma_map_of(self.list@);
        }
        let mut i: usize = 0;
        while i < self.list.len()
            invariant
                i <= self.list@.len(),
                forall|k: int| 0 <= k < i ==> #[trigger] self.list@[k].ip != ip,
                forall|k: int|
                    0 <= k < self.list@.len() ==> self@.contains_key(#[trigger] self.list@[k].mac@)
                        && self@[self.list@[k].mac@] == self.list@[k].ip,
            decreases self.list@.len() - i,
        {
            if self.list[i].ip == ip {
                proof {
                    let m = self.list@[i as int].mac@;
                    assert(self@.contains_key(m) && self@[m] == ip);
                }
                return true;
            }
            i = i + 1;
        }
        proof {
            if self@.values().contains(ip) {
                let m = choose|m: Seq<u8>| self@.contains_key(m) && self@[m] == ip;
                assert(map_of(self.list@).contains_key(m));
                assert(exists|k: int|
                    0 <= k < self.list@.len() && #[trigger] self.list@[k].mac@ == m
                        && self@[m] == self.list@[k].ip);
            }
        }
        false
    }

    fn is_declined(&self, ip: Ipv4Addr) -> (r: bool)
        ensures
            r == self.declined().contains(ip),
    {
        let mut i: usize = 0;
        while i < self.bad.len()
            invariant
                i <= self.bad@.len(),
                forall|k: int| 0 <= k < i ==> #[trigger] self.bad@[k] != ip,
            decreases self.bad@.len() - i,
        {
            if self.bad[i] == ip {
                assert(self.bad@.contains(ip));
                return true;
            }
            i = i + 1;
        }
        false
    }

    /// The address for this machine: the one it already has if it has one, else
    /// the first free one that nobody declined; nothing where there is none, rather
    /// than one twice.
    pub fn offer(&mut self, mac: [u8; 6], server: Ipv4Addr) -> (r: Option<Ipv4Addr>)
        requires
            old(self).wf(),
        ensures
            final(self).wf(),
            final(self).base() == old(self).base(),
            final(self).mask() == old(self).mask(),
            final(self).declined() == old(self).declined(),
            r == offered(old(self).base(), server, old(self)@, old(self).declined(), mac@),
            final(self)@ == after_offer(
                old(self).base(),
                server,
                old(self)@,
                old(self).declined(),
                mac@,
            ),
            unshared(old(self)@) ==> unshared(final(self)@),
            old(self).all_lendable(server) ==> final(self).all_lendable(server),
    {
        if let Some(i) = self.place_of(&mac) {
            let ip: Ipv4Addr = self.list[i].ip;
            assert(self@ =~= old(self)@.insert(mac@, ip));
            return Some(ip);
        }
        let ghost taken = self@.values().union(self.declined());
        let mut n: u8 = 0;
        while n < POOL
            invariant
                n <= POOL,
                *self == *old(self),
                self.wf(),
                taken == self@.values().union(self.declined()),
                !self@.contains_key(mac@),
                forall|k: int| 0 <= k < self.list@.len() ==> #[trigger] self.list@[k].mac@ != mac@,
                first_free(self.base(), server, taken, 0) == first_free(
                    self.base(),
                    server,
                    taken,
                    n as int,
                ),
            decreases POOL - n,
        {
            let c = Ipv4Addr::new(
                self.base.a,
                self.base.b,
                self.base.c,
                ((self.base.d as u16 + n as u16) % 256) as u8,
            );
            assert(c == candidate(self.base(), n as int));
            if c == server || c.d == 0 || c.d == 255 || self.is_taken(c)
                || self.is_declined(c) {
                n = n + 1;
                continue ;
            }
            let ghost before = self.list@;
            proof {
                lemma_first_free(self.base(), server, taken, 0);
                assert(first_free(self.base(), server, taken, n as int) == Some(c));
            }
            self.list.push(Lease { mac, ip: c });
            proof {
                assert(self.list@.drop_last() =~= before);
                assert(self@ == old(self)@.insert(mac@, c));
                assert(distinct(self.list@)) by {
                    assert forall|i: int, j: int| 0 <= i < j < self.list@.len() implies #[trigger] self.list@[i].mac@
                        != #[trigger] self.list@[j].mac@ by {
                        assert(self.list@[i] == before[i]);
                        if j < before.len() {
                            assert(self.list@[j] == before[j]);
                        }
                    }
                }
                if unshared(old(self)@) {
                    assert forall|m: Seq<u8>, k: Seq<u8>|
                        self@.contains_key(m) && self@.contains_key(k) && m
                            != k implies #[trigger] self@[m] != #[trigger] self@[k] by {
                        if m == mac@ {
                            assert(old(self)@.contains_key(k));
                            assert(old(self)@.values().contains(old(self)@[k]));
                        } else if k == mac@ {
                            assert(old(self)@.contains_key(m));
                            assert(old(self)@.values().contains(old(self)@[m]));
                        } else {
                            assert(old(self)@[m] != old(self)@[k]);
                        }
                    }
                }
            }
            return Some(c);
        }
        None
    }

    /// Take the address back, so that the next machine can have it.
    pub fn release(&mut self, mac: [u8; 6])
        requires
            old(self).wf(),
        ensures
            final(self).wf(),
            final(self).base() == old(self).base(),
            final(self).mask() == old(self).mask(),
            final(self).declined() == old(self).declined(),
            final(self)@ == old(self)@.remove(mac@),
            unshared(old(self)@) ==> unshared(final(self)@),
            forall|server: Ipv4Addr|
                old(self).all_lendable(server) ==> #[trigger] final(self).all_lendable(server),
    {
        match self.place_of(&mac) {
            Some(i) => {
                let ghost before = self.list@;
                self.list.remove(i);
                proof {
                    let after = self.list@;
                    assert(after =~= before.remove(i as int));
                    assert forall|p: int, q: int| 0 <= p < q < after.len() implies #[trigger] after[p].mac@
                        != #[trigger] after[q].mac@ by {
                        let x = if p < i {
                            p
                        } else {
                            p + 1
                        };
                        let y = if q < i {
                            q
                        } else {
                            q + 1
                        };
                        assert(after[p] == before[x] && after[q] == before[y]);
                        assert(before[x].mac@ != before[y].mac@);
                    }
                    lemma_map_of(before);
                    lemma_map_of(after);
                    assert forall|m: Seq<u8>|
                        map_of(after).contains_key(m) == map_of(before).remove(mac@).contains_key(
                            m,
                        ) && (map_of(after).contains_key(m) ==> map_of(after)[m] == map_of(
                            before,
                        )[m]) by {
                        if map_of(after).contains_key(m) {
                            let p = choose|p: int|
                                0 <= p < after.len() && #[trigger] after[p].mac@ == m && map_of(
                                    after,
                                )[m] == after[p].ip;
                            let x = if p < i {
                                p
                            } else {
                                p + 1
                            };
                            assert(after[p] == before[x]);
                            assert(before[x].mac@ == m);
                            assert(before[x].mac@ != before[i as int].mac@);
                        }
                        if map_of(before).contains_key(m) && m != mac@ {
                            let x = choose|x: int|
                                0 <= x < before.len() && #[trigger] before[x].mac@ == m && map_of(
                                    before,
                                )[m] == before[x].ip;
                            let p = if x < i {
                                x
                            } else {
                                x - 1
                            };
                            assert(x != i);
                            assert(after[p] == before[x]);
                            assert(after[p].mac@ == m);
                        }
                    }
                    assert(self@ =~= old(self)@.remove(mac@));
                }
            },
            None => {
                assert(self@ =~= old(self)@.remove(mac@));
            },
        }
        proof {
            if unshared(old(self)@) {
                assert forall|m: Seq<u8>, k: Seq<u8>|
                    self@.contains_key(m) && self@.contains_key(k) && m != k implies #[trigger] self@[m]
                    != #[trigger] self@[k] by {
                    assert(old(self)@[m] != old(self)@[k]);
                }
            }
        }
    }

    /// Take back an address that a machine found in use, and do not offer it again.
    pub fn decline(&mut self, mac: [u8; 6])
        requires
            old(self).wf(),
        ensures
            final(self).wf(),
            final(self).base() == old(self).base(),
            final(self).mask() == old(self).mask(),
            final(self).declined() == after_decline(old(self)@, old(self).declined(), mac@),
            final(self)@ == old(self)@.remove(mac@),
            unshared(old(self)@) ==> unshared(final(self)@),
            forall|server: Ipv4Addr|
                old(self).all_lendable(server) ==> #[trigger] final(self).all_lendable(server),
    {
        if let Some(i) = self.place_of(&mac) {
            let ip: Ipv4Addr = self.list[i].ip;
            self.bad.push(ip);
            proof {
                let was = old(self).bad@;
                assert(self.bad@.to_set() =~= was.to_set().insert(ip)) by {
                    assert(self.bad@[was.len() as int] == ip);
                    assert forall|x: Ipv4Addr| was.contains(x) implies self.bad@.contains(x) by {
                        let k = choose|k: int| 0 <= k < was.len() && was[k] == x;
                        assert(self.bad@[k] == x);
                    }
                    assert forall|x: Ipv4Addr| self.bad@.contains(x) implies was.contains(x) || x
                        == ip by {
                        let k = choose|k: int| 0 <= k < self.bad@.len() && self.bad@[k] == x;
                        if k < was.len() {
                            assert(was[k] == x);
                        }
                    }
                }
            }
        }
        self.release(mac);
    }
}

/// A machine that asks again, before or after others have asked, gets the address
/// it has, and nothing changes.
pub proof fn law_asking_twice_is_one_lease(
    base: Ipv4Addr,
    server: Ipv4Addr,
    held: Held,
    declined: Set<Ipv4Addr>,
    mac: Seq<u8>,
    other: Seq<u8>,
)
    requires
        offered(base, server, held, declined, mac) is Some,
    ensures
        ({
            let once = after_offer(base, server, held, declined, mac);
            let between = after_offer(base, server, once, declined, other);
            &&& offered(base, server, once, declined, mac) == offered(base, server, held, declined, mac)
            &&& after_offer(base, server, once, declined, mac) == once
            &&& offered(base, server, between, declined, mac) == offered(base, server, held, declined, mac)
        }),
{
    let once = after_offer(base, server, held, declined, mac);
    assert(after_offer(base, server, once, declined, mac) =~= once);
}

/// Two machines are never given the same address.
pub proof fn law_two_machines_get_two_addresses(
    base: Ipv4Addr,
    server: Ipv4Addr,
    held: Held,
    declined: Set<Ipv4Addr>,
    mac: Seq<u8>,
    other: Seq<u8>,
)
    requires
        unshared(held),
        mac != other,
        offered(base, server, held, declined, mac) is Some,
    ensures
        offered(base, server, after_offer(base, server, held, declined, mac), declined, other) != offered(
            base,
            server,
            held,
            declined,
            mac,
        ),
        unshared(after_offer(base, server, held, declined, mac)),
{
    let ip = offered(base, server, held, declined, mac).unwrap();
    let once = after_offer(base, server, held, declined, mac);
    lemma_first_free(base, server, held.values().union(declined), 0);
    lemma_first_free(base, server, once.values().union(declined), 0);
    assert(once.contains_key(mac) && once[mac] == ip);
    assert(once.values().contains(ip));
    assert forall|m: Seq<u8>, k: Seq<u8>|
        once.contains_key(m) && once.contains_key(k) && m != k implies #[trigger] once[m]
        != #[trigger] once[k] by {
        if !held.contains_key(mac) {
            if m == mac {
                assert(held.contains_key(k));
                assert(held.values().contains(held[k]));
            } else if k == mac {
                assert(held.contains_key(m));
                assert(held.values().contains(held[m]));
            } else {
                assert(held[m] != held[k]);
            }
        } else {
            assert(held[m] != held[k]);
        }
    }
    if held.contains_key(other) {
        assert(once[other] != once[mac]);
    }
}

proof fn lemma_fewer_taken(
    base: Ipv4Addr,
    server: Ipv4Addr,
    more: Set<Ipv4Addr>,
    fewer: Set<Ipv4Addr>,
    ip: Ipv4Addr,
    n: int,
)
    requires
        0 <= n,
        forall|x: Ipv4Addr| #[trigger] fewer.contains(x) <==> more.contains(x) && x != ip,
        first_free(base, server, fewer, n) is Some,
    ensures
        first_free(base, server, more, n) == first_free(base, server, fewer, n) || first_free(
            base,
            server,
            fewer,
            n,
        ) == Some(ip),
    decreases POOL - n,
{
    if n < POOL {
        let c = candidate(base, n);
        if lendable(c, server) && !fewer.contains(c) {
            if more.contains(c) {
                assert(c == ip);
            }
        } else {
            assert(lendable(c, server) ==> more.contains(c));
            lemma_fewer_taken(base, server, more, fewer, ip, n + 1);
        }
    }
}

/// Giving an address back never makes another lease change hands: whoever asks
/// next gets what it would have got anyway, or the address that was freed.
pub proof fn law_release_frees_one_address(
    base: Ipv4Addr,
    server: Ipv4Addr,
    held: Held,
    declined: Set<Ipv4Addr>,
    mac: Seq<u8>,
)
    requires
        held.contains_key(mac),
        unshared(held),
        first_free(base, server, held.remove(mac).values().union(declined), 0) is Some,
    ensures
        ({
            let next = first_free(base, server, held.remove(mac).values().union(declined), 0);
            next == first_free(
                base,
                server,
                held.values().union(declined),
                0,
            ) || next == Some(held[mac])
        }),
{
    let rest = held.remove(mac);
    let more = held.values().union(declined);
    let fewer = rest.values().union(declined);
    assert forall|x: Ipv4Addr| #[trigger] rest.values().contains(x) <==> held.values().contains(x)
        && x != held[mac] by {
        if rest.values().contains(x) {
            let k = choose|k: Seq<u8>| rest.contains_key(k) && rest[k] == x;
            assert(held.contains_key(k) && held[k] == x);
            assert(held[k] != held[mac]);
        }
        if held.values().contains(x) && x != held[mac] {
            let k = choose|k: Seq<u8>| held.contains_key(k) && held[k] == x;
            assert(rest.contains_key(k) && rest[k] == x);
        }
    }
    if declined.contains(held[mac]) {
        assert(more =~= fewer);
    } else {
        assert(held.contains_key(mac));
        lemma_fewer_taken(base, server, more, fewer, held[mac], 0);
    }
}

/// An address is found as long as there is one: where none is given, each of the twenty
/// from the first on is ours, the network's, everybody's, lent or declined. What is given
/// is one of the twenty, is none of those, and is the first such.
pub proof fn law_a_free_address_is_found(
    base: Ipv4Addr,
    server: Ipv4Addr,
    taken: Set<Ipv4Addr>,
    from: int,
    n: int,
)
    requires
        0 <= from <= n < 20,
    ensures
        ({
            let c = Ipv4Addr { a: base.a, b: base.b, c: base.c, d: ((base.d + n) % 256) as u8 };
            let fits = c != server && c.d != 0 && c.d != 255 && !taken.contains(c);
            let found = first_free(base, server, taken, from);
            &&& fits ==> found is Some
            &&& found is Some ==> {
                let ip = found.unwrap();
                &&& ip.a == base.a && ip.b == base.b && ip.c == base.c
                &&& ip != server && ip.d != 0 && ip.d != 255 && !taken.contains(ip)
                &&& (ip.d - base.d) % 256 < 20
                &&& fits ==> (ip.d - base.d) % 256 <= n
            }
        }),
    decreases 20 - from,
{
    let c = candidate(base, from);
    if lendable(c, server) && !taken.contains(c) {
        assert((c.d - base.d) % 256 == from);
    } else if from < n {
        law_a_free_address_is_found(base, server, taken, from + 1, n);
    } else {
        assert(from == n);
        if from + 1 < 20 {
            law_a_free_address_is_found(base, server, taken, from + 1, from + 1);
        }
    }
}

/// What is lent lies on our own segment: wherever the mask that goes with it counts, the
/// address is the same as ours. A machine that gave itself an address has the flat segment
/// that all such machines have.
pub proof fn law_what_is_lent_lies_on_our_segment(server: Ipv4Addr, taken: Set<Ipv4Addr>)
    ensures
        ({
            let mask = mask_of(server);
            let found = first_free(first_of_pool(server), server, taken, 0);
            &&& mask.a == 255 && mask.b == 255 && mask.d == 0
            &&& mask.c == (if server.a == 169 && server.b == 254 {
                0u8
            } else {
                255u8
            })
            &&& found is Some ==> {
                let ip = found.unwrap();
                &&& ip.a == server.a && ip.b == server.b && ip.c == server.c
                &&& ip != server
            }
        }),
{
    law_a_free_address_is_found(first_of_pool(server), server, taken, 0, 0);
}

} // verus!
