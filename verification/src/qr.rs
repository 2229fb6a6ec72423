//! A QR code for joining the wifi, drawn in the terminal.
//!
//! Byte mode, error correction level L, versions 1 to 5. At that level all five
//! versions are a single error correction block, so no block interleaving exists.

use crate::text::chars_of;
use vstd::prelude::*;

pub mod bits;
pub mod capacity;
pub mod drawing;
pub mod field;
pub mod grid;
pub mod judging;
pub mod patterns;
pub mod penalty;
pub mod reading;
pub mod standard;
pub mod symbol;
pub mod zigzag;

pub use self::bits::Bits;
pub use self::drawing::{module, render, rendered_size};
pub use self::field::{ec_codewords, generator, gmul};
pub use self::grid::{Code, Grid};
pub use self::symbol::{format_bits, mask_at};

use self::bits::{bits_of, pack, value_bits};
use self::field::ec_block;
use self::grid::side;
use self::patterns::{function_dark, is_function};
use self::penalty::penalty_of;
use self::symbol::{data_dark, field_bit, format_field, format_index, mask_flips};

verus! {

/// Whether a character would end a field of a wifi credential early.
pub open spec fn needs_escape(c: char) -> bool {
    c == '\\' || c == ';' || c == ',' || c == ':' || c == '"'
}

/// A text with a backslash in front of every character that needs one.
pub open spec fn escaped(s: Seq<char>) -> Seq<char>
    decreases s.len(),
{
    if s.len() == 0 {
        s
    } else {
        let head = escaped(s.drop_last());
        if needs_escape(s.last()) {
            head.push('\\').push(s.last())
        } else {
            head.push(s.last())
        }
    }
}

/// What a phone's camera turns into an offer to join a network.
pub open spec fn credential(ssid: Seq<char>, password: Seq<char>) -> Seq<char> {
    "WIFI:T:WPA;S:"@ + escaped(ssid) + ";P:"@ + escaped(password) + ";;"@
}

/// Put a backslash in front of every character that needs one.
pub fn escape(s: &str) -> (out: String)
    ensures
        out@ == escaped(s@),
{
    let chars: Vec<char> = chars_of(s);
    let mut out = String::new();
    let mut i: usize = 0;
    assert(s@.take(0) =~= Seq::<char>::empty());
    while i < chars.len()
        invariant
            chars@ == s@,
            i <= chars.len(),
            out@ == escaped(s@.take(i as int)),
        decreases chars.len() - i,
    {
        let c: char = chars[i];
        if c == '\\' || c == ';' || c == ',' || c == ':' || c == '"' {
            out.push('\\');
        }
        out.push(c);
        assert(s@.take(i + 1).drop_last() =~= s@.take(i as int));
        i = i + 1;
    }
    assert(s@.take(s@.len() as int) =~= s@);
    out
}

/// The text every phone camera understands as a wifi credential.
pub fn wifi_payload(ssid: &str, password: &str) -> (out: String)
    ensures
        out@ == credential(ssid@, password@),
{
    let mut out = String::new();
    out.append("WIFI:T:WPA;S:");
    out.append(escape(ssid).as_str());
    out.append(";P:");
    out.append(escape(password).as_str());
    out.append(";;");
    proof {
        assert(out@ =~= credential(ssid@, password@));
    }
    out
}

/// Data codewords per version at level L, all in a single block.
pub open spec fn data_capacity(version: int) -> int {
    if version == 1 {
        19
    } else if version == 2 {
        34
    } else if version == 3 {
        55
    } else if version == 4 {
        80
    } else {
        108
    }
}

/// Error correction codewords per version at level L.
pub open spec fn ec_count(version: int) -> int {
    if version == 1 {
        7
    } else if version == 2 {
        10
    } else if version == 3 {
        15
    } else if version == 4 {
        20
    } else {
        26
    }
}

/// The largest payload: twelve bits of header and four of terminator are two
/// whole codewords of the largest version.
pub const MAX_PAYLOAD: usize = 106;

/// The smallest version that holds a payload of this many bytes.
pub open spec fn version_for(len: int) -> int {
    if len + 2 <= data_capacity(1) {
        1
    } else if len + 2 <= data_capacity(2) {
        2
    } else if len + 2 <= data_capacity(3) {
        3
    } else if len + 2 <= data_capacity(4) {
        4
    } else {
        5
    }
}

/// The bits of a message: byte mode, an eight-bit count, the payload, and a
/// terminator of four zero bits, which always ends on a whole byte.
pub open spec fn message_bits(payload: Seq<u8>) -> Seq<bool> {
    value_bits(0b0100, 4) + value_bits(payload.len() as u16, 8) + bits_of(payload) + value_bits(
        0,
        4,
    )
}

/// The two pad bytes of the standard, alternating.
pub open spec fn padding(n: nat) -> Seq<u8> {
    Seq::new(
        n,
        |i: int|
            if i % 2 == 0 {
                0xECu8
            } else {
                0x11u8
            },
    )
}

/// The data codewords of a payload, padded to the capacity of the version.
pub open spec fn data_codewords(payload: Seq<u8>, version: int) -> Seq<u8> {
    pack(message_bits(payload)) + padding((data_capacity(version) - (payload.len() + 2)) as nat)
}

/// All codewords: the data, then the error correction.
pub open spec fn all_codewords(payload: Seq<u8>, version: int) -> Seq<u8> {
    let data = data_codewords(payload, version);
    data + ec_block(data, ec_count(version) as nat)
}

/// Whether a module of a finished symbol is dark.
pub open spec fn symbol_dark(
    version: int,
    codewords: Seq<u8>,
    mask: int,
    r: int,
    c: int,
) -> bool {
    if format_index(version, r, c) >= 0 {
        field_bit(format_field(mask as u16), format_index(version, r, c))
    } else if is_function(version, r, c) {
        function_dark(version, r, c)
    } else {
        data_dark(version, codewords, r, c) != mask_flips(mask, r, c)
    }
}

/// A finished symbol under one mask, row by row.
pub open spec fn symbol(version: int, codewords: Seq<u8>, mask: int) -> Seq<Seq<bool>> {
    Seq::new(
        side(version) as nat,
        |r: int|
            Seq::new(side(version) as nat, |c: int| symbol_dark(version, codewords, mask, r, c)),
    )
}

/// Among the first `k` masks the one with the lowest penalty, the earliest of
/// several.
pub open spec fn best_mask(version: int, codewords: Seq<u8>, k: int) -> int
    decreases k,
{
    if k <= 1 {
        0
    } else {
        let best = best_mask(version, codewords, k - 1);
        if penalty_of(symbol(version, codewords, k - 1)) < penalty_of(
            symbol(version, codewords, best),
        ) {
            k - 1
        } else {
            best
        }
    }
}

/// The symbol that shows a payload.
pub open spec fn symbol_for(payload: Seq<u8>) -> Seq<Seq<bool>> {
    let version = version_for(payload.len() as int);
    let codewords = all_codewords(payload, version);
    symbol(version, codewords, best_mask(version, codewords, 8))
}

/// The lowest eight bits of a value are the bits of the byte.
proof fn lemma_value_bits_of_byte(b: u8)
    ensures
        value_bits(b as u16, 8) == bits_of(seq![b]),
{
    let x = b as u16;
    assert(forall|k: u8| k < 8 ==> (((b >> k) & 1 != 0) <==> ((b as u16) >> (k as u16)) & 1 == 1))
        by (bit_vector);
    assert forall|i: int| 0 <= i < 8 implies value_bits(x, 8)[i] == bits_of(seq![b])[i] by {
        let k = (7 - i) as u8;
        assert(((b >> k) & 1 != 0) <==> (x >> (k as u16)) & 1 == 1);
    }
    assert(value_bits(x, 8) =~= bits_of(seq![b]));
}

proof fn lemma_bits_of_push(bytes: Seq<u8>, b: u8)
    ensures
        bits_of(bytes.push(b)) == bits_of(bytes) + bits_of(seq![b]),
{
    assert(bits_of(bytes.push(b)) =~= bits_of(bytes) + bits_of(seq![b]));
}

/// The data codewords of a payload that fits.
fn build_data(payload: &[u8], version: usize, capacity: usize) -> (data: Vec<u8>)
    requires
        1 <= version <= 5,
        capacity == data_capacity(version as int),
        payload.len() + 2 <= capacity,
    ensures
        data@ == data_codewords(payload@, version as int),
        data.len() == capacity,
{
    let mut bits = Bits::new();
    bits.push(0b0100, 4);
    bits.push(payload.len() as u16, 8);
    let ghost header = value_bits(0b0100, 4) + value_bits(payload.len() as u16, 8);
    let mut i: usize = 0;
    proof {
        assert(bits@ =~= header + bits_of(payload@.take(0)));
    }
    while i < payload.len()
        invariant
            payload.len() <= 106,
            i <= payload.len(),
            bits.wf(),
            bits.len == 12 + 8 * i,
            bits@ == header + bits_of(payload@.take(i as int)),
        decreases payload.len() - i,
    {
        bits.push(payload[i] as u16, 8);
        proof {
            lemma_value_bits_of_byte(payload@[i as int]);
            lemma_bits_of_push(payload@.take(i as int), payload@[i as int]);
            assert(payload@.take(i + 1) =~= payload@.take(i as int).push(payload@[i as int]));
            assert(bits@ =~= header + bits_of(payload@.take(i + 1)));
        }
        i = i + 1;
    }
    let spare: usize = capacity * 8 - bits.len;
    bits.push(0, if spare < 4 { spare } else { 4 });
    proof {
        assert(payload@.take(payload.len() as int) =~= payload@);
        assert(bits@ =~= message_bits(payload@));
        assert(bits_of(bits.bytes@).take(bits.len as int) =~= bits_of(bits.bytes@));
        bits::lemma_pack_bits_of(bits.bytes@);
    }
    let mut data: Vec<u8> = bits.bytes;
    let filled: usize = data.len();
    let mut k: usize = 0;
    assert(data@ =~= pack(message_bits(payload@)) + padding(0));
    while k < capacity - filled
        invariant
            filled == payload.len() + 2,
            filled <= capacity <= 108,
            k <= capacity - filled,
            data.len() == filled + k,
            data@ == pack(message_bits(payload@)) + padding(k as nat),
        decreases capacity - filled - k,
    {
        data.push(if k % 2 == 0 { 0xEC } else { 0x11 });
        k = k + 1;
        assert(data@ =~= pack(message_bits(payload@)) + padding(k as nat));
    }
    data
}

/// Encode a payload, choosing the smallest version that holds it.
pub fn encode(payload: &[u8]) -> (code: Option<Code>)
    ensures
        code is Some <==> payload.len() <= MAX_PAYLOAD,
        code matches Some(c) ==> c.wf() && c@ == symbol_for(payload@) && c.side() == side(
            version_for(payload.len() as int),
        ),
{
    if payload.len() > MAX_PAYLOAD {
        return None;
    }
    let need: usize = payload.len() + 2;
    let (version, capacity, ec_len): (usize, usize, usize) = if need <= 19 {
        (1, 19, 7)
    } else if need <= 34 {
        (2, 34, 10)
    } else if need <= 55 {
        (3, 55, 15)
    } else if need <= 80 {
        (4, 80, 20)
    } else {
        (5, 108, 26)
    };
    let mut codewords: Vec<u8> = build_data(payload, version, capacity);
    let mut ec: Vec<u8> = ec_codewords(codewords.as_slice(), ec_len);
    codewords.append(&mut ec);
    let ghost v = version as int;
    let ghost cw = all_codewords(payload@, v);
    assert(codewords@ == cw);

    let mut grid = Grid::new(version);
    grid.place_function_patterns();
    grid.place_data(codewords.as_slice());

    let mut best: Grid = grid.duplicate();
    best.apply_mask(0);
    best.place_format(0);
    assert(best@ =~~= symbol(v, cw, 0));
    let mut score: u32 = best.penalty();
    let mut mask: u8 = 1;
    while mask < 8
        invariant
            1 <= mask <= 8,
            1 <= version <= 5,
            v == version,
            grid.wf(),
            grid.patterns_fixed(),
            grid.version() == v,
            forall|r: int, c: int|
                0 <= r < side(v) && 0 <= c < side(v) ==> #[trigger] grid.dark_at(r, c) == (
                if is_function(v, r, c) {
                    function_dark(v, r, c)
                } else {
                    data_dark(v, cw, r, c)
                }),
            best.wf(),
            best.version() == v,
            best@ == symbol(v, cw, best_mask(v, cw, mask as int)),
            score == penalty_of(best@),
        decreases 8 - mask,
    {
        let mut candidate: Grid = grid.duplicate();
        candidate.apply_mask(mask);
        candidate.place_format(mask);
        assert(candidate@ =~~= symbol(v, cw, mask as int));
        let candidate_score: u32 = candidate.penalty();
        if candidate_score < score {
            score = candidate_score;
            best = candidate;
        }
        mask = mask + 1;
    }
    Some(best.finish())
}

/// Credentials in, code out; nothing when they will not fit.
pub fn wifi_join(ssid: &str, password: &str) -> (code: Option<Code>)
    ensures
        ({
            let payload = vstd::utf8::encode_utf8(credential(ssid@, password@));
            &&& code is Some <==> payload.len() <= MAX_PAYLOAD
            &&& code matches Some(c) ==> c.wf() && c@ == symbol_for(payload) && c.side() == side(
                version_for(payload.len() as int),
            )
        }),
{
    let payload: String = wifi_payload(ssid, password);
    encode(payload.as_str().as_bytes())
}

} // verus!
