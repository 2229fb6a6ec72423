//! SHA-256: a fingerprint of some bytes.

use crate::number::{hex_byte, push_hex_byte};
use vstd::arithmetic::div_mod::lemma_fundamental_div_mod_converse;
use vstd::prelude::*;

verus! {

/// The sixty-four constants: the first bits of the cube roots of the first
/// primes.
pub const K: [u32; 64] = [
    0x428a2f98,
    0x71374491,
    0xb5c0fbcf,
    0xe9b5dba5,
    0x3956c25b,
    0x59f111f1,
    0x923f82a4,
    0xab1c5ed5,
    0xd807aa98,
    0x12835b01,
    0x243185be,
    0x550c7dc3,
    0x72be5d74,
    0x80deb1fe,
    0x9bdc06a7,
    0xc19bf174,
    0xe49b69c1,
    0xefbe4786,
    0x0fc19dc6,
    0x240ca1cc,
    0x2de92c6f,
    0x4a7484aa,
    0x5cb0a9dc,
    0x76f988da,
    0x983e5152,
    0xa831c66d,
    0xb00327c8,
    0xbf597fc7,
    0xc6e00bf3,
    0xd5a79147,
    0x06ca6351,
    0x14292967,
    0x27b70a85,
    0x2e1b2138,
    0x4d2c6dfc,
    0x53380d13,
    0x650a7354,
    0x766a0abb,
    0x81c2c92e,
    0x92722c85,
    0xa2bfe8a1,
    0xa81a664b,
    0xc24b8b70,
    0xc76c51a3,
    0xd192e819,
    0xd6990624,
    0xf40e3585,
    0x106aa070,
    0x19a4c116,
    0x1e376c08,
    0x2748774c,
    0x34b0bcb5,
    0x391c0cb3,
    0x4ed8aa4a,
    0x5b9cca4f,
    0x682e6ff3,
    0x748f82ee,
    0x78a5636f,
    0x84c87814,
    0x8cc70208,
    0x90befffa,
    0xa4506ceb,
    0xbef9a3f7,
    0xc67178f2,
];

/// The bits of a word, turned to the right.
pub open spec fn turned(x: u32, n: u32) -> u32 {
    (x >> n) | (x << ((32 - n) as u32))
}

fn turn(x: u32, n: u32) -> (r: u32)
    requires
        0 < n < 32,
    ensures
        r == turned(x, n),
{
    (x >> n) | (x << (32 - n))
}

pub open spec fn small0(x: u32) -> u32 {
    turned(x, 7) ^ turned(x, 18) ^ (x >> 3)
}

pub open spec fn small1(x: u32) -> u32 {
    turned(x, 17) ^ turned(x, 19) ^ (x >> 10)
}

pub open spec fn big0(x: u32) -> u32 {
    turned(x, 2) ^ turned(x, 13) ^ turned(x, 22)
}

pub open spec fn big1(x: u32) -> u32 {
    turned(x, 6) ^ turned(x, 11) ^ turned(x, 25)
}

/// Of each bit, the second word's where the first has a one, else the third's.
pub open spec fn choice(x: u32, y: u32, z: u32) -> u32 {
    (x & y) ^ ((!x) & z)
}

/// Of each bit, what at least two of the words have.
pub open spec fn majority(x: u32, y: u32, z: u32) -> u32 {
    (x & y) ^ (x & z) ^ (y & z)
}

/// Four bytes as a number, the most significant first.
pub open spec fn be32(b: Seq<u8>, i: int) -> u32 {
    (b[i] * 16777216 + b[i + 1] * 65536 + b[i + 2] * 256 + b[i + 3]) as u32
}

/// The `t`-th word that a block is stretched to.
pub open spec fn word(block: Seq<u8>, t: int) -> u32
    decreases t,
{
    if t < 16 {
        be32(block, 4 * t)
    } else {
        small1(word(block, t - 2)).wrapping_add(word(block, t - 7)).wrapping_add(
            small0(word(block, t - 15)),
        ).wrapping_add(word(block, t - 16))
    }
}

/// The eight words that are worked on.
#[derive(Clone, Copy, Debug, PartialEq, Eq, Structural)]
pub struct State {
    pub a: u32,
    pub b: u32,
    pub c: u32,
    pub d: u32,
    pub e: u32,
    pub f: u32,
    pub g: u32,
    pub h: u32,
}

/// What they are at first: the first bits of the square roots of the first
/// primes.
pub open spec fn initial() -> State {
    State {
        a: 0x6a09e667,
        b: 0xbb67ae85,
        c: 0x3c6ef372,
        d: 0xa54ff53a,
        e: 0x510e527f,
        f: 0x9b05688c,
        g: 0x1f83d9ab,
        h: 0x5be0cd19,
    }
}

/// One round, with a constant and a word.
pub open spec fn round(s: State, k: u32, w: u32) -> State {
    let one = s.h.wrapping_add(big1(s.e)).wrapping_add(choice(s.e, s.f, s.g)).wrapping_add(
        k,
    ).wrapping_add(w);
    let two = big0(s.a).wrapping_add(majority(s.a, s.b, s.c));
    State {
        a: one.wrapping_add(two),
        b: s.a,
        c: s.b,
        d: s.c,
        e: s.d.wrapping_add(one),
        f: s.e,
        g: s.f,
        h: s.g,
    }
}

/// The first `t` rounds over a block.
pub open spec fn rounds(s: State, block: Seq<u8>, t: int) -> State
    decreases t,
{
    if t <= 0 {
        s
    } else {
        round(rounds(s, block, t - 1), K@[t - 1], word(block, t - 1))
    }
}

/// Two states, word by word.
pub open spec fn sum(x: State, y: State) -> State {
    State {
        a: x.a.wrapping_add(y.a),
        b: x.b.wrapping_add(y.b),
        c: x.c.wrapping_add(y.c),
        d: x.d.wrapping_add(y.d),
        e: x.e.wrapping_add(y.e),
        f: x.f.wrapping_add(y.f),
        g: x.g.wrapping_add(y.g),
        h: x.h.wrapping_add(y.h),
    }
}

/// What a block makes of the words.
pub open spec fn compressed(s: State, block: Seq<u8>) -> State {
    sum(s, rounds(s, block, 64))
}

/// What the first `n` blocks of some bytes make of the words.
pub open spec fn after_blocks(bytes: Seq<u8>, n: int) -> State
    decreases n,
{
    if n <= 0 {
        initial()
    } else {
        compressed(after_blocks(bytes, n - 1), bytes.subrange(64 * (n - 1), 64 * n))
    }
}

/// A word as four bytes, the most significant first.
pub open spec fn be_bytes(x: u32) -> Seq<u8> {
    seq![
        (x as int / 16777216) as u8,
        (x as int / 65536 % 256) as u8,
        (x as int / 256 % 256) as u8,
        (x as int % 256) as u8,
    ]
}

/// A number as eight bytes, the most significant first.
pub open spec fn be_bytes8(x: int) -> Seq<u8> {
    be_bytes((x / 4294967296) as u32) + be_bytes((x % 4294967296) as u32)
}

/// How many zeros fill the last block, before the length.
pub open spec fn fill(len: int) -> int {
    (119 - len % 64) % 64
}

/// A message with what is put behind it: a one bit, zeros up to the end of a
/// block but for eight bytes, and its length in bits as eight bytes can hold it.
pub open spec fn padded(msg: Seq<u8>) -> Seq<u8> {
    msg.push(0x80) + Seq::new(fill(msg.len() as int) as nat, |i: int| 0u8) + be_bytes8(
        msg.len() as int * 8 % 18446744073709551616,
    )
}

/// The words, one behind the other.
pub open spec fn state_bytes(s: State) -> Seq<u8> {
    be_bytes(s.a) + be_bytes(s.b) + be_bytes(s.c) + be_bytes(s.d) + be_bytes(s.e) + be_bytes(s.f)
        + be_bytes(s.g) + be_bytes(s.h)
}

/// The fingerprint of a message.
pub open spec fn fingerprint(msg: Seq<u8>) -> Seq<u8> {
    state_bytes(after_blocks(padded(msg), padded(msg).len() as int / 64))
}

fn stretch(block: &[u8]) -> (w: Vec<u32>)
    requires
        block.len() == 64,
    ensures
        w.len() == 64,
        forall|t: int| 0 <= t < 64 ==> w@[t] == word(block@, t),
{
    let mut w: Vec<u32> = Vec::new();
    let mut t: usize = 0;
    while t < 16
        invariant
            block.len() == 64,
            t <= 16,
            w.len() == t,
            forall|i: int| 0 <= i < t ==> w@[i] == word(block@, i),
        decreases 16 - t,
    {
        let i: usize = 4 * t;
        w.push(
            block[i] as u32 * 16777216 + block[i + 1] as u32 * 65536 + block[i + 2] as u32 * 256
                + block[i + 3] as u32,
        );
        t = t + 1;
    }
    while t < 64
        invariant
            16 <= t <= 64,
            w.len() == t,
            forall|i: int| 0 <= i < t ==> w@[i] == word(block@, i),
        decreases 64 - t,
    {
        let x: u32 = w[t - 2];
        let y: u32 = w[t - 15];
        let s1: u32 = turn(x, 17) ^ turn(x, 19) ^ (x >> 10);
        let s0: u32 = turn(y, 7) ^ turn(y, 18) ^ (y >> 3);
        let n: u32 = s1.wrapping_add(w[t - 7]).wrapping_add(s0).wrapping_add(w[t - 16]);
        assert(n == word(block@, t as int));
        w.push(n);
        t = t + 1;
    }
    w
}

fn one_round(s: State, k: u32, w: u32) -> (r: State)
    ensures
        r == round(s, k, w),
{
    let x1: u32 = turn(s.e, 6) ^ turn(s.e, 11) ^ turn(s.e, 25);
    let ch: u32 = (s.e & s.f) ^ ((!s.e) & s.g);
    let one: u32 = s.h.wrapping_add(x1).wrapping_add(ch).wrapping_add(k).wrapping_add(w);
    let x0: u32 = turn(s.a, 2) ^ turn(s.a, 13) ^ turn(s.a, 22);
    let maj: u32 = (s.a & s.b) ^ (s.a & s.c) ^ (s.b & s.c);
    let two: u32 = x0.wrapping_add(maj);
    State {
        a: one.wrapping_add(two),
        b: s.a,
        c: s.b,
        d: s.c,
        e: s.d.wrapping_add(one),
        f: s.e,
        g: s.f,
        h: s.g,
    }
}

fn compress(s: State, block: &[u8]) -> (r: State)
    requires
        block.len() == 64,
    ensures
        r == compressed(s, block@),
{
    let w: Vec<u32> = stretch(block);
    let mut x: State = s;
    let mut t: usize = 0;
    while t < 64
        invariant
            t <= 64,
            w.len() == 64,
            forall|i: int| 0 <= i < 64 ==> w@[i] == word(block@, i),
            x == rounds(s, block@, t as int),
        decreases 64 - t,
    {
        x = one_round(x, K[t], w[t]);
        t = t + 1;
    }
    State {
        a: s.a.wrapping_add(x.a),
        b: s.b.wrapping_add(x.b),
        c: s.c.wrapping_add(x.c),
        d: s.d.wrapping_add(x.d),
        e: s.e.wrapping_add(x.e),
        f: s.f.wrapping_add(x.f),
        g: s.g.wrapping_add(x.g),
        h: s.h.wrapping_add(x.h),
    }
}

/// A fingerprint in the making, of a message that comes in pieces.
pub struct Sha256 {
    state: State,
    rest: Vec<u8>,
    len: u64,
    seen: Ghost<Seq<u8>>,
}

proof fn lemma_length(n: int, len: int)
    requires
        0 <= n,
        len == n % 18446744073709551616,
    ensures
        len % 0x2000_0000_0000_0000 * 8 == n * 8 % 18446744073709551616,
        len % 64 == n % 64,
        (n + 1 + fill(n) + 8) % 64 == 0,
        0 <= fill(n) < 64,
{
    let big: int = 18446744073709551616;
    let q = n / big;
    let h = len / 0x2000_0000_0000_0000;
    let r = len % 0x2000_0000_0000_0000;
    assert(n == q * big + len);
    assert(len == h * 0x2000_0000_0000_0000 + r);
    lemma_fundamental_div_mod_converse(n * 8, big, 8 * q + h, 8 * r);
    let k = len / 64;
    let m = len % 64;
    assert(n == 64 * (q * 0x400_0000_0000_0000 + k) + m);
    lemma_fundamental_div_mod_converse(n, 64, q * 0x400_0000_0000_0000 + k, m);
}

proof fn lemma_tail(msg: Seq<u8>, n: int, zeros: Seq<u8>, end: Seq<u8>)
    requires
        0 <= n <= msg.len(),
    ensures
        msg.skip(n).push(0x80) + zeros + end == (msg.push(0x80) + zeros + end).skip(n),
{
    assert(msg.skip(n).push(0x80) + zeros + end =~= (msg.push(0x80) + zeros + end).skip(n));
}

proof fn lemma_blocks_of_longer(a: Seq<u8>, b: Seq<u8>, n: int)
    requires
        64 * n <= a.len(),
        64 * n <= b.len(),
        forall|i: int| 0 <= i < 64 * n ==> a[i] == b[i],
    ensures
        after_blocks(a, n) == after_blocks(b, n),
    decreases n,
{
    if n > 0 {
        lemma_blocks_of_longer(a, b, n - 1);
        assert(a.subrange(64 * (n - 1), 64 * n) =~= b.subrange(64 * (n - 1), 64 * n));
    }
}

proof fn lemma_be_bytes(x: u32)
    ensures
        be_bytes(x).len() == 4,
        be_bytes(x)[0] * 16777216 + be_bytes(x)[1] * 65536 + be_bytes(x)[2] * 256 + be_bytes(x)[3]
            == x,
{
    let n = x as int;
    assert(n == 256 * (n / 256) + n % 256);
    assert(n / 256 == 256 * (n / 256 / 256) + n / 256 % 256);
    assert(n / 256 / 256 == n / 65536);
    assert(n / 65536 == 256 * (n / 65536 / 256) + n / 65536 % 256);
    assert(n / 65536 / 256 == n / 16777216);
}

/// What is put behind a message: a byte with its highest bit set, then zeros, then the
/// length of the message in bits, the most significant byte first, so that whole blocks
/// come of it and none more than it takes.
pub proof fn law_the_length_is_put_behind_the_message(msg: Seq<u8>)
    requires
        msg.len() < 0x2000_0000_0000_0000,
    ensures
        ({
            let p = padded(msg);
            let n = p.len() as int;
            &&& n % 64 == 0
            &&& msg.len() + 9 <= n < msg.len() + 9 + 64
            &&& p.take(msg.len() as int) == msg
            &&& p[msg.len() as int] == 0x80
            &&& forall|i: int| msg.len() < i < n - 8 ==> #[trigger] p[i] == 0
            &&& p[n - 8] * 0x100_0000_0000_0000 + p[n - 7] * 0x1_0000_0000_0000 + p[n - 6]
                * 0x100_0000_0000 + p[n - 5] * 0x1_0000_0000 + p[n - 4] * 0x100_0000 + p[n - 3]
                * 0x1_0000 + p[n - 2] * 0x100 + p[n - 1] == 8 * msg.len()
        }),
{
    let len = msg.len() as int;
    lemma_length(len, len);
    let bits = len * 8;
    assert(bits % 18446744073709551616 == bits);
    let hi = (bits / 4294967296) as u32;
    let lo = (bits % 4294967296) as u32;
    lemma_be_bytes(hi);
    lemma_be_bytes(lo);
    let p = padded(msg);
    let n = p.len() as int;
    assert(p.take(len) =~= msg);
    assert(p.skip(n - 8) =~= be_bytes(hi) + be_bytes(lo));
    assert forall|k: int| 0 <= k < 8 implies p[n - 8 + k] == (be_bytes(hi) + be_bytes(lo))[k] by {
        assert(p[n - 8 + k] == p.skip(n - 8)[k]);
    }
    assert(p[n - 8] == be_bytes(hi)[0] && p[n - 7] == be_bytes(hi)[1]);
    assert(p[n - 6] == be_bytes(hi)[2] && p[n - 5] == be_bytes(hi)[3]);
    assert(p[n - 4] == be_bytes(lo)[0] && p[n - 3] == be_bytes(lo)[1]);
    assert(p[n - 2] == be_bytes(lo)[2] && p[n - 1] == be_bytes(lo)[3]);
}

/// No two messages are made the same by what is put behind them.
pub proof fn law_padding_tells_messages_apart(a: Seq<u8>, b: Seq<u8>)
    requires
        a.len() < 0x2000_0000_0000_0000,
        b.len() < 0x2000_0000_0000_0000,
        padded(a) == padded(b),
    ensures
        a == b,
{
    law_the_length_is_put_behind_the_message(a);
    law_the_length_is_put_behind_the_message(b);
}

/// Every block counts, and in its order: a fingerprint is what the blocks of the message
/// make of the eight words one after the other, from the first to the last, each with all
/// of its sixty-four rounds.
pub proof fn law_every_block_counts(msg: Seq<u8>, k: int)
    requires
        0 <= k,
        64 * k < padded(msg).len(),
    ensures
        after_blocks(padded(msg), 0) == initial(),
        after_blocks(padded(msg), k + 1) == compressed(
            after_blocks(padded(msg), k),
            padded(msg).subrange(64 * k, 64 * k + 64),
        ),
        fingerprint(msg) == state_bytes(
            after_blocks(padded(msg), padded(msg).len() as int / 64),
        ),
{
}

/// The words that a block is stretched to: its own sixteen, and then each from four of
/// those before it.
pub proof fn law_blocks_are_stretched_as_the_standard_says(block: Seq<u8>, t: int)
    requires
        block.len() == 64,
        0 <= t < 64,
    ensures
        t < 16 ==> word(block, t) == block[4 * t] * 0x100_0000 + block[4 * t + 1] * 0x1_0000
            + block[4 * t + 2] * 0x100 + block[4 * t + 3],
        t >= 16 ==> (word(block, t) as int) == (word(block, t - 16) + small0(word(block, t - 15))
            + word(block, t - 7) + small1(word(block, t - 2))) % 0x1_0000_0000,
{
}

impl Sha256 {
    /// The message so far.
    pub closed spec fn view(&self) -> Seq<u8> {
        self.seen@
    }

    /// What always holds of one.
    pub closed spec fn wf(&self) -> bool {
        let n = self.seen@.len() as int / 64;
        &&& self.len == self.seen@.len() as int % 18446744073709551616
        &&& self.state == after_blocks(self.seen@, n)
        &&& self.rest@ == self.seen@.skip(64 * n)
    }

    /// Of nothing yet.
    pub fn new() -> (h: Sha256)
        ensures
            h.wf(),
            h@ == Seq::<u8>::empty(),
    {
        let h = Sha256 {
            state: State {
                a: 0x6a09e667,
                b: 0xbb67ae85,
                c: 0x3c6ef372,
                d: 0xa54ff53a,
                e: 0x510e527f,
                f: 0x9b05688c,
                g: 0x1f83d9ab,
                h: 0x5be0cd19,
            },
            rest: Vec::new(),
            len: 0,
            seen: Ghost(Seq::empty()),
        };
        assert(h.rest@ =~= h.seen@.skip(0));
        h
    }

    fn take(&mut self, b: u8)
        requires
            old(self).wf(),
        ensures
            final(self).wf(),
            final(self)@ == old(self)@.push(b),
    {
        let ghost before = self.seen@;
        let ghost n = before.len() as int / 64;
        let ghost after = before.push(b);
        self.rest.push(b);
        self.len = self.len.wrapping_add(1);
        self.seen = Ghost(after);
        proof {
            lemma_blocks_of_longer(before, after, n);
            assert(self.rest@ =~= after.skip(64 * n));
        }
        if self.rest.len() == 64 {
            assert(self.rest@ =~= after.subrange(64 * n, 64 * (n + 1)));
            self.state = compress(self.state, self.rest.as_slice());
            self.rest.clear();
            assert(after.len() as int / 64 == n + 1);
            assert(self.rest@ =~= after.skip(64 * (n + 1)));
        } else {
            assert(after.len() as int / 64 == n);
        }
    }

    /// A piece more.
    pub fn update(&mut self, data: &[u8])
        requires
            old(self).wf(),
        ensures
            final(self).wf(),
            final(self)@ == old(self)@ + data@,
    {
        let ghost start = self@;
        let mut i: usize = 0;
        assert(start + data@.take(0) =~= start);
        while i < data.len()
            invariant
                i <= data.len(),
                self.wf(),
                self@ == start + data@.take(i as int),
            decreases data.len() - i,
        {
            self.take(data[i]);
            i = i + 1;
            assert(self@ =~= start + data@.take(i as int));
        }
        assert(data@.take(data@.len() as int) =~= data@);
    }

    fn last_blocks(&self) -> (tail: Vec<u8>)
        requires
            self.wf(),
        ensures
            tail@ == padded(self.seen@).skip(64 * (self.seen@.len() as int / 64)),
            padded(self.seen@).len() % 64 == 0,
    {
        let ghost msg = self.seen@;
        let ghost n = msg.len() as int / 64;
        proof {
            lemma_length(msg.len() as int, self.len as int);
        }
        let mut tail: Vec<u8> = crate::bytes::copied(self.rest.as_slice());
        tail.push(0x80);
        let zeros: usize = ((119 - self.len % 64) % 64) as usize;
        push_zeros(&mut tail, zeros);
        let bits: u64 = self.len % 0x2000_0000_0000_0000 * 8;
        push_length(&mut tail, bits);
        proof {
            lemma_tail(
                msg,
                64 * n,
                Seq::new(fill(msg.len() as int) as nat, |i: int| 0u8),
                be_bytes8(bits as int),
            );
        }
        tail
    }

    /// The fingerprint of the message.
    pub fn finish(&self) -> (d: Vec<u8>)
        requires
            self.wf(),
        ensures
            d@ == fingerprint(self@),
            d.len() == 32,
    {
        let ghost all = padded(self.seen@);
        let ghost n = self.seen@.len() as int / 64;
        let tail: Vec<u8> = self.last_blocks();
        proof {
            lemma_blocks_of_longer(self.seen@, all, n);
        }
        let mut s: State = self.state;
        let mut at: usize = 0;
        let ghost mut k: int = n;
        while at < tail.len()
            invariant
                all.len() == 64 * n + tail.len(),
                all.len() % 64 == 0,
                tail@ == all.skip(64 * n),
                at == 64 * (k - n),
                n <= k,
                at <= tail.len(),
                0 <= n,
                s == after_blocks(all, k),
            decreases tail.len() - at,
        {
            assert(tail.len() - at >= 64);
            let block = vstd::slice::slice_subrange(tail.as_slice(), at, at + 64);
            assert(block@ =~= all.subrange(64 * k, 64 * (k + 1)));
            s = compress(s, block);
            at = at + 64;
            proof {
                k = k + 1;
            }
        }
        assert(k == all.len() as int / 64);
        let mut d: Vec<u8> = Vec::new();
        push_word(&mut d, s.a);
        push_word(&mut d, s.b);
        push_word(&mut d, s.c);
        push_word(&mut d, s.d);
        push_word(&mut d, s.e);
        push_word(&mut d, s.f);
        push_word(&mut d, s.g);
        push_word(&mut d, s.h);
        assert(d@ =~= state_bytes(s));
        d
    }
}

fn push_length(v: &mut Vec<u8>, bits: u64)
    ensures
        final(v)@ == old(v)@ + be_bytes8(bits as int),
{
    let ghost start = v@;
    let hi: u32 = (bits / 4294967296) as u32;
    let lo: u32 = (bits % 4294967296) as u32;
    push_word(v, hi);
    push_word(v, lo);
    assert(v@ =~= start + (be_bytes(hi) + be_bytes(lo)));
}

fn push_zeros(v: &mut Vec<u8>, n: usize)
    ensures
        final(v)@ == old(v)@ + Seq::new(n as nat, |i: int| 0u8),
{
    let ghost start = v@;
    let mut i: usize = 0;
    assert(start + Seq::new(0, |i: int| 0u8) =~= start);
    while i < n
        invariant
            i <= n,
            v@ == start + Seq::new(i as nat, |i: int| 0u8),
        decreases n - i,
    {
        v.push(0);
        i = i + 1;
        assert(v@ =~= start + Seq::new(i as nat, |i: int| 0u8));
    }
}

fn push_word(v: &mut Vec<u8>, x: u32)
    ensures
        final(v)@ == old(v)@ + be_bytes(x),
{
    let ghost start = v@;
    v.push((x / 16777216) as u8);
    v.push((x / 65536 % 256) as u8);
    v.push((x / 256 % 256) as u8);
    v.push((x % 256) as u8);
    assert(v@ =~= start + be_bytes(x));
}

/// The fingerprint of some bytes.
pub fn digest(data: &[u8]) -> (d: Vec<u8>)
    ensures
        d@ == fingerprint(data@),
        d.len() == 32,
{
    let mut h = Sha256::new();
    h.update(data);
    assert(Seq::<u8>::empty() + data@ =~= data@);
    h.finish()
}

/// Bytes as hexadecimal digits.
pub open spec fn hex_text(b: Seq<u8>) -> Seq<char>
    decreases b.len(),
{
    if b.len() == 0 {
        Seq::empty()
    } else {
        hex_text(b.drop_last()) + hex_byte(b.last(), false)
    }
}

/// Bytes as hexadecimal digits.
pub fn hex(b: &[u8]) -> (s: String)
    ensures
        s@ == hex_text(b@),
{
    let mut s = String::new();
    let mut i: usize = 0;
    assert(s@ =~= hex_text(b@.take(0)));
    while i < b.len()
        invariant
            i <= b.len(),
            s@ == hex_text(b@.take(i as int)),
        decreases b.len() - i,
    {
        push_hex_byte(&mut s, b[i], false);
        i = i + 1;
        assert(b@.take(i as int).drop_last() =~= b@.take(i - 1));
    }
    assert(b@.take(b@.len() as int) =~= b@);
    s
}

} // verus!
