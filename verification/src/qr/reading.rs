//! What a reader gets out of a symbol, and that it is what went in.

use super::bits::{bits_of, byte_from, lemma_bits_of_pack, lemma_pack_bits_of, pack, value_bits};
use super::capacity::lemma_data_modules;
use super::field::lemma_ec_block_len;
use super::standard::law_masks_turn_what_the_standard_says;
use super::symbol::{
    field_bit, format_field, format_first, format_index, format_second,
    lemma_format_field_reads_back, lemma_format_places, mask_flips,
};
use super::zigzag::{carries_data, data_order, lemma_data_order};
use super::{
    all_codewords, best_mask, credential, data_capacity, data_codewords, ec_count, escaped,
    lemma_value_bits_of_byte, message_bits, needs_escape, symbol, symbol_dark, symbol_for,
    version_for,
};
use vstd::prelude::*;

verus! {

/// The version of a symbol, known from its size.
pub open spec fn version_of(m: Seq<Seq<bool>>) -> int {
    (m.len() - 17) / 4
}

/// The module at a position.
pub open spec fn module_at(m: Seq<Seq<bool>>, at: (int, int)) -> bool {
    m[at.0][at.1]
}

/// The fifteen bits at the places of one copy of the format field.
pub open spec fn format_copy(m: Seq<Seq<bool>>, second: bool) -> Seq<bool> {
    Seq::new(
        15,
        |i: int|
            module_at(
                m,
                if second {
                    format_second(version_of(m), i)
                } else {
                    format_first(i)
                },
            ),
    )
}

/// The value of bit `i` of a field, where it is set.
pub open spec fn weight(on: bool, i: u16) -> u16 {
    if on {
        1u16 << i
    } else {
        0
    }
}

/// The field with these bits, least significant first.
pub open spec fn field_from(b: Seq<bool>) -> u16 {
    weight(b[0], 0) | weight(b[1], 1) | weight(b[2], 2) | weight(b[3], 3) | weight(b[4], 4)
        | weight(b[5], 5) | weight(b[6], 6) | weight(b[7], 7) | weight(b[8], 8) | weight(b[9], 9)
        | weight(b[10], 10) | weight(b[11], 11) | weight(b[12], 12) | weight(b[13], 13) | weight(
        b[14],
        14,
    )
}

/// The five high bits of the format field: two of level, three of mask.
pub open spec fn format_value(m: Seq<Seq<bool>>) -> u16 {
    (field_from(format_copy(m, false)) ^ 0b101010000010010u16) >> 10
}

/// The mask that a symbol says it was drawn with.
pub open spec fn mask_of(m: Seq<Seq<bool>>) -> int {
    (format_value(m) & 0b111) as int
}

/// Whether the standard's table of masks has a module turned over. The masks are drawn
/// there as patterns that repeat: squares, lines, diagonals, blocks, and three that go by
/// the product of row and column.
pub open spec fn turned_over(mask: int, r: int, c: int) -> bool {
    let rest = (r * c) % 6;
    let alike = r % 2 == c % 2;
    seq![
        alike,
        r % 2 == 0,
        c % 3 == 0,
        r % 3 + c % 3 == 0 || r % 3 + c % 3 == 3,
        (r % 4 < 2) == (c % 6 < 3),
        rest == 0,
        rest < 3,
        alike == (rest != 1 && rest != 4),
    ][mask]
}

proof fn lemma_turned_over(mask: int, r: int, c: int)
    requires
        0 <= mask < 8,
        0 <= r,
        0 <= c,
    ensures
        turned_over(mask, r, c) == mask_flips(mask, r, c),
{
    law_masks_turn_what_the_standard_says(r, c);
    assert((r * c) % 3 == ((r * c) % 6) % 3);
}

/// The data bits of a symbol, its mask taken off, in the order of the walk.
pub open spec fn read_bits(m: Seq<Seq<bool>>) -> Seq<bool> {
    let order = data_order(version_of(m));
    Seq::new(
        order.len(),
        |b: int| module_at(m, order[b]) != turned_over(mask_of(m), order[b].0, order[b].1),
    )
}

/// The payload a reader takes out: the count after the mode, then that many bytes.
pub open spec fn read_payload(m: Seq<Seq<bool>>) -> Seq<u8> {
    let bits = read_bits(m);
    let count = byte_from(bits.subrange(4, 12));
    pack(bits.subrange(12, 12 + 8 * count))
}

proof fn lemma_field_of_its_bits(f: u16)
    by (bit_vector)
    requires
        f < 0x8000,
    ensures
        weight((f >> 0u16) & 1 == 1, 0) | weight((f >> 1u16) & 1 == 1, 1) | weight(
            (f >> 2u16) & 1 == 1,
            2,
        ) | weight((f >> 3u16) & 1 == 1, 3) | weight((f >> 4u16) & 1 == 1, 4) | weight(
            (f >> 5u16) & 1 == 1,
            5,
        ) | weight((f >> 6u16) & 1 == 1, 6) | weight((f >> 7u16) & 1 == 1, 7) | weight(
            (f >> 8u16) & 1 == 1,
            8,
        ) | weight((f >> 9u16) & 1 == 1, 9) | weight((f >> 10u16) & 1 == 1, 10) | weight(
            (f >> 11u16) & 1 == 1,
            11,
        ) | weight((f >> 12u16) & 1 == 1, 12) | weight((f >> 13u16) & 1 == 1, 13) | weight(
            (f >> 14u16) & 1 == 1,
            14,
        ) == f,
{
}

/// Both copies of the format field hold the field of the mask.
pub proof fn law_format_copies_agree(version: int, codewords: Seq<u8>, mask: int, second: bool)
    requires
        1 <= version <= 5,
        0 <= mask < 8,
    ensures
        field_from(format_copy(symbol(version, codewords, mask), second)) == format_field(
            mask as u16,
        ),
{
    let m = symbol(version, codewords, mask);
    let f = format_field(mask as u16);
    let copy = format_copy(m, second);
    assert(version_of(m) == version);
    lemma_format_field_reads_back(mask as u16);
    assert forall|i: int| 0 <= i < 15 implies copy[i] == field_bit(f, i) by {
        lemma_format_places(version, i);
    }
    lemma_field_of_its_bits(f);
}

/// A reader learns the error correction level and the mask from the symbol itself.
pub proof fn law_format_names_level_and_mask(version: int, codewords: Seq<u8>, mask: int)
    requires
        1 <= version <= 5,
        0 <= mask < 8,
    ensures
        format_value(symbol(version, codewords, mask)) >> 3 == 0b01u16,
        mask_of(symbol(version, codewords, mask)) == mask,
{
    law_format_copies_agree(version, codewords, mask, false);
    lemma_format_field_reads_back(mask as u16);
}

/// Whatever the mask, the data modules give the codewords back in their order.
pub proof fn law_codewords_read_back(version: int, codewords: Seq<u8>, mask: int)
    requires
        1 <= version <= 5,
        0 <= mask < 8,
        codewords.len() == data_capacity(version) + ec_count(version),
    ensures
        read_bits(symbol(version, codewords, mask)).take(8 * codewords.len() as int) == bits_of(
            codewords,
        ),
{
    let m = symbol(version, codewords, mask);
    let order = data_order(version);
    let bits = read_bits(m);
    assert(version_of(m) == version);
    law_format_names_level_and_mask(version, codewords, mask);
    lemma_data_order(version);
    lemma_data_modules(version);
    assert(8 * codewords.len() <= order.len());
    assert forall|b: int| 0 <= b < 8 * codewords.len() implies bits[b] == bits_of(
        codewords,
    )[b] by {
        let at = order[b];
        assert(order.contains(at));
        assert(carries_data(version, at));
        lemma_turned_over(mask, at.0, at.1);
        assert(format_index(version, at.0, at.1) < 0);
        assert(order.index_of(at) == b) by {
            let j = order.index_of(at);
            assert(0 <= j < order.len() && order[j] == at);
        }
        assert(module_at(m, at) == symbol_dark(version, codewords, mask, at.0, at.1));
    }
    assert(bits.take(8 * codewords.len() as int) =~= bits_of(codewords));
}

proof fn lemma_best_mask_range(version: int, codewords: Seq<u8>, k: int)
    requires
        1 <= k <= 8,
    ensures
        0 <= best_mask(version, codewords, k) < k,
    decreases k,
{
    if k > 1 {
        lemma_best_mask_range(version, codewords, k - 1);
    }
}

/// Read a finished symbol back and get the original bytes out, for every
/// payload that fits.
pub proof fn law_payload_survives_the_round_trip(payload: Seq<u8>)
    requires
        payload.len() <= super::MAX_PAYLOAD,
    ensures
        read_bits(symbol_for(payload)).take(4) == value_bits(0b0100, 4),
        read_payload(symbol_for(payload)) == payload,
{
    let version = version_for(payload.len() as int);
    let data = data_codewords(payload, version);
    let codewords = all_codewords(payload, version);
    let mask = best_mask(version, codewords, 8);
    let m = symbol_for(payload);
    let bits = read_bits(m);
    let message = message_bits(payload);
    lemma_best_mask_range(version, codewords, 8);
    lemma_ec_block_len(data, ec_count(version) as nat);
    law_codewords_read_back(version, codewords, mask);
    lemma_bits_of_pack(message);
    assert(version_of(m) == version);
    lemma_data_modules(version);
    assert forall|b: int| 0 <= b < message.len() implies bits[b] == message[b] by {
        assert(bits.take(8 * codewords.len() as int)[b] == bits_of(codewords)[b]);
        assert(bits_of(codewords)[b] == bits_of(pack(message))[b]);
    }
    assert(bits.take(4) =~= value_bits(0b0100, 4));
    let n = payload.len() as u8;
    lemma_value_bits_of_byte(n);
    assert(bits.subrange(4, 12) =~= bits_of(seq![n]));
    lemma_pack_bits_of(seq![n]);
    assert(bits_of(seq![n]).subrange(0, 8) =~= bits_of(seq![n]));
    assert(pack(bits_of(seq![n]))[0] == n);
    assert(bits.subrange(12, 12 + 8 * payload.len() as int) =~= bits_of(payload));
    lemma_pack_bits_of(payload);
}

/// A field of a credential as a phone reads it: up to the first semicolon that
/// no backslash stands in front of, the backslashes taken away. The second part
/// is what follows that semicolon.
pub open spec fn read_field(t: Seq<char>) -> (Seq<char>, Seq<char>)
    decreases t.len(),
{
    if t.len() == 0 {
        (t, t)
    } else if t[0] == ';' {
        (Seq::empty(), t.skip(1))
    } else if t[0] == '\\' && t.len() > 1 {
        let (value, rest) = read_field(t.skip(2));
        (seq![t[1]] + value, rest)
    } else {
        let (value, rest) = read_field(t.skip(1));
        (seq![t[0]] + value, rest)
    }
}

/// One character as it is written in a field.
spec fn escaped_one(c: char) -> Seq<char> {
    if needs_escape(c) {
        seq!['\\', c]
    } else {
        seq![c]
    }
}

proof fn lemma_escaped_first(s: Seq<char>)
    requires
        s.len() > 0,
    ensures
        escaped(s) == escaped_one(s[0]) + escaped(s.drop_first()),
    decreases s.len(),
{
    if s.len() == 1 {
        assert(s.drop_last() =~= Seq::<char>::empty());
        assert(s.drop_first() =~= Seq::<char>::empty());
        assert(escaped(s) =~= escaped_one(s[0]) + escaped(s.drop_first()));
    } else {
        lemma_escaped_first(s.drop_last());
        assert(s.drop_last().drop_first() =~= s.drop_first().drop_last());
        assert(escaped(s) =~= escaped_one(s[0]) + escaped(s.drop_first()));
    }
}

/// A name or a password, whatever punctuation it holds, is read back whole, and
/// what follows it is not swallowed.
pub proof fn law_escaped_field_reads_back(s: Seq<char>, rest: Seq<char>)
    ensures
        read_field(escaped(s) + seq![';'] + rest) == (s, rest),
    decreases s.len(),
{
    let t = escaped(s) + seq![';'] + rest;
    if s.len() == 0 {
        assert(t[0] == ';');
        assert(t.skip(1) =~= rest);
        assert(s =~= Seq::<char>::empty());
    } else {
        lemma_escaped_first(s);
        let tail = escaped(s.drop_first()) + seq![';'] + rest;
        assert(t =~= escaped_one(s[0]) + tail);
        law_escaped_field_reads_back(s.drop_first(), rest);
        assert(seq![s[0]] + s.drop_first() =~= s);
        if needs_escape(s[0]) {
            assert(t.skip(2) =~= tail);
        } else {
            assert(t.skip(1) =~= tail);
        }
    }
}

} // verus!
