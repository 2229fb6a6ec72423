//! The bit stream: values written most significant bit first into bytes.

use super::field::bit_set;
use vstd::prelude::*;

verus! {

/// Bit `k` of a byte, counted from the most significant.
pub open spec fn byte_bit(b: u8, k: int) -> bool {
    bit_set(b, (7 - k) as u8)
}

/// The bits of a run of bytes, most significant bit of each byte first.
pub open spec fn bits_of(bytes: Seq<u8>) -> Seq<bool> {
    Seq::new(8 * bytes.len(), |i: int| byte_bit(bytes[i / 8], i % 8))
}

/// The lowest `width` bits of a value, most significant first.
pub open spec fn value_bits(value: u16, width: nat) -> Seq<bool> {
    Seq::new(width, |i: int| (value >> ((width - 1 - i) as u16)) & 1 == 1)
}

/// The byte whose bits, most significant first, are the first eight of `b`.
pub open spec fn byte_from(b: Seq<bool>) -> u8 {
    byte_from_bits(b[0], b[1], b[2], b[3], b[4], b[5], b[6], b[7])
}

/// The byte with these bits, most significant first.
pub open spec fn byte_from_bits(
    b0: bool,
    b1: bool,
    b2: bool,
    b3: bool,
    b4: bool,
    b5: bool,
    b6: bool,
    b7: bool,
) -> u8 {
    (if b0 { 0x80u8 } else { 0u8 }) | (if b1 { 0x40u8 } else { 0u8 }) | (if b2 { 0x20u8 } else {
        0u8
    }) | (if b3 { 0x10u8 } else { 0u8 }) | (if b4 { 0x08u8 } else { 0u8 }) | (if b5 {
        0x04u8
    } else {
        0u8
    }) | (if b6 { 0x02u8 } else { 0u8 }) | (if b7 { 0x01u8 } else { 0u8 })
}

/// The whole bytes that a run of bits makes up.
pub open spec fn pack(bits: Seq<bool>) -> Seq<u8> {
    Seq::new(bits.len() / 8, |i: int| byte_from(bits.subrange(8 * i, 8 * i + 8)))
}

proof fn lemma_byte_from_bits(
    b0: bool,
    b1: bool,
    b2: bool,
    b3: bool,
    b4: bool,
    b5: bool,
    b6: bool,
    b7: bool,
)
    by (bit_vector)
    ensures
        bit_set(byte_from_bits(b0, b1, b2, b3, b4, b5, b6, b7), 7) == b0,
        bit_set(byte_from_bits(b0, b1, b2, b3, b4, b5, b6, b7), 6) == b1,
        bit_set(byte_from_bits(b0, b1, b2, b3, b4, b5, b6, b7), 5) == b2,
        bit_set(byte_from_bits(b0, b1, b2, b3, b4, b5, b6, b7), 4) == b3,
        bit_set(byte_from_bits(b0, b1, b2, b3, b4, b5, b6, b7), 3) == b4,
        bit_set(byte_from_bits(b0, b1, b2, b3, b4, b5, b6, b7), 2) == b5,
        bit_set(byte_from_bits(b0, b1, b2, b3, b4, b5, b6, b7), 1) == b6,
        bit_set(byte_from_bits(b0, b1, b2, b3, b4, b5, b6, b7), 0) == b7,
{
}

proof fn lemma_byte_of_its_bits(b: u8)
    by (bit_vector)
    ensures
        byte_from_bits(
            bit_set(b, 7),
            bit_set(b, 6),
            bit_set(b, 5),
            bit_set(b, 4),
            bit_set(b, 3),
            bit_set(b, 2),
            bit_set(b, 1),
            bit_set(b, 0),
        ) == b,
{
}

/// Packing the bits of some bytes gives the bytes back.
pub proof fn lemma_pack_bits_of(bytes: Seq<u8>)
    ensures
        pack(bits_of(bytes)) == bytes,
{
    let bits = bits_of(bytes);
    assert forall|i: int| 0 <= i < bytes.len() implies pack(bits)[i] == bytes[i] by {
        lemma_byte_of_its_bits(bytes[i]);
        let w = bits.subrange(8 * i, 8 * i + 8);
        assert forall|k: int| 0 <= k < 8 implies w[k] == byte_bit(bytes[i], k) by {
            assert((8 * i + k) / 8 == i && (8 * i + k) % 8 == k);
        }
    }
    assert(pack(bits) =~= bytes);
}

/// The bits of packed bytes are the bits that went in.
pub proof fn lemma_bits_of_pack(bits: Seq<bool>)
    requires
        bits.len() % 8 == 0,
    ensures
        bits_of(pack(bits)) == bits,
{
    let back = bits_of(pack(bits));
    assert forall|j: int| 0 <= j < bits.len() implies back[j] == bits[j] by {
        let i = j / 8;
        let w = bits.subrange(8 * i, 8 * i + 8);
        lemma_byte_from_bits(w[0], w[1], w[2], w[3], w[4], w[5], w[6], w[7]);
        assert(w[j % 8] == bits[j]);
    }
    assert(back =~= bits);
}

/// A growing run of bits and the bytes that hold it.
pub struct Bits {
    pub bytes: Vec<u8>,
    pub len: usize,
}

impl View for Bits {
    type V = Seq<bool>;

    open spec fn view(&self) -> Seq<bool> {
        bits_of(self.bytes@).take(self.len as int)
    }
}

impl Bits {
    /// The bytes are just enough for the bits, and what is not used yet is zero.
    pub open spec fn wf(&self) -> bool {
        &&& self.bytes.len() == (self.len + 7) / 8
        &&& forall|i: int|
            self.len <= i < 8 * self.bytes.len() ==> !#[trigger] bits_of(self.bytes@)[i]
    }

    /// No bits yet.
    pub fn new() -> (b: Bits)
        ensures
            b.wf(),
            b@ == Seq::<bool>::empty(),
            b.len == 0,
    {
        let b = Bits { bytes: Vec::new(), len: 0 };
        assert(b@ =~= Seq::<bool>::empty());
        b
    }

    fn push_bit(&mut self, on: bool)
        requires
            old(self).wf(),
            old(self).len < usize::MAX - 8,
        ensures
            final(self).wf(),
            final(self)@ == old(self)@.push(on),
    {
        let ghost before = self.bytes@;
        let at: usize = self.len % 8;
        if at == 0 {
            self.bytes.push(0);
        }
        let last: usize = self.bytes.len() - 1;
        assert(last == self.len / 8);
        let ghost grown = self.bytes@;
        let m: u8 = at as u8;
        let old_byte: u8 = self.bytes[last];
        if on {
            self.bytes.set(last, old_byte | (0x80u8 >> m));
        }
        proof {
            assert(forall|k: u8|
                #![trigger old_byte >> k]
                k < 8 ==> ((((old_byte | (0x80u8 >> m)) >> k) & 1 != 0) == (((old_byte >> k) & 1
                    != 0) || k == 7 - m))) by (bit_vector)
                requires
                    m < 8,
            ;
            assert(forall|k: u8| k < 8 ==> (0u8 >> k) & 1 == 0) by (bit_vector);
            let now = bits_of(self.bytes@);
            let was = bits_of(before);
            assert forall|i: int| 0 <= i < 8 * self.bytes.len() implies now[i] == (if i
                < self.len {
                was[i]
            } else {
                i == self.len && on
            }) by {
                if i / 8 == last {
                    let k = (7 - i % 8) as u8;
                    assert(bit_set(old_byte, k) == ((old_byte >> k) & 1 != 0));
                    if at == 0 {
                        assert((0u8 >> k) & 1 == 0);
                    } else if i >= self.len {
                        assert(!was[i]);
                    }
                }
            }
            assert(now.take(self.len + 1) =~= was.take(self.len as int).push(on));
        }
        self.len = self.len + 1;
    }

    /// Append the lowest `width` bits of `value`, most significant first.
    pub fn push(&mut self, value: u16, width: usize)
        requires
            old(self).wf(),
            width <= 16,
            old(self).len + width < usize::MAX - 8,
        ensures
            final(self).wf(),
            final(self)@ == old(self)@ + value_bits(value, width as nat),
            final(self).len == old(self).len + width,
    {
        let mut i: usize = width;
        let ghost start = self@;
        assert(start + value_bits(value, width as nat).take(0) =~= start);
        while i > 0
            invariant
                i <= width <= 16,
                self.wf(),
                old(self).len + width < usize::MAX - 8,
                self.len == old(self).len + (width - i),
                self@ == start + value_bits(value, width as nat).take(width - i),
            decreases i,
        {
            i = i - 1;
            let on: bool = (value >> (i as u16)) & 1 == 1;
            self.push_bit(on);
            assert(self@ =~= start + value_bits(value, width as nat).take(width - i));
        }
        assert(self@ =~= start + value_bits(value, width as nat));
    }
}

} // verus!
