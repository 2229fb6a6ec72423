//! What the standard asks of a symbol, and that every symbol drawn here has it.

use super::bits::{bits_of, lemma_bits_of_pack, value_bits};
use super::capacity::lemma_data_modules;
use super::drawing::{cells, drawn_row};
use super::field::{alpha_pow, gf_mul, lemma_field_laws, lemma_gf_mul_distributes};
use super::grid::side;
use super::penalty::penalty_of;
use super::reading::{law_escaped_field_reads_back, read_field};
use super::symbol::{data_dark, format_index, mask_flips};
use super::zigzag::{
    carries_data, column_rank, data_order, half_step, lemma_data_order, lemma_step_position,
    lemma_walk_invariant, lemma_walk_invariant_within, lemma_walk_pair, lemma_walk_step, pair_col,
    pair_row, pairs, passed, walk_invariant, walked,
};
use super::{
    best_mask, credential, data_capacity, data_codewords, ec_count, escaped, message_bits, symbol,
    symbol_dark, version_for, MAX_PAYLOAD,
};
use vstd::prelude::*;

verus! {

// ------------------------------------------------------------- the masks

/// A mask turns over exactly the modules that the standard says: under mask 0 those whose
/// row and column are both even or both odd, under mask 1 the even rows, under mask 2
/// every third column, under mask 3 every third diagonal, under mask 4 a chequerboard of
/// two rows by three columns, and under the last three what the product of row and column
/// says.
pub proof fn law_masks_turn_what_the_standard_says(r: int, c: int)
    requires
        0 <= r,
        0 <= c,
    ensures
        mask_flips(0, r, c) <==> r % 2 == c % 2,
        mask_flips(1, r, c) <==> r % 2 == 0,
        mask_flips(2, r, c) <==> c % 3 == 0,
        mask_flips(3, r, c) <==> (r % 3 + c % 3 == 0 || r % 3 + c % 3 == 3),
        mask_flips(4, r, c) <==> (r % 4 < 2) == (c % 6 < 3),
        mask_flips(5, r, c) <==> (r * c) % 6 == 0,
        mask_flips(6, r, c) <==> (r * c) % 6 < 3,
        mask_flips(7, r, c) <==> (r % 2 == c % 2) == ((r * c) % 3 != 1),
{
    let x = r * c;
    assert(x % 2 == (x % 6) % 2 && x % 3 == (x % 6) % 3);
}

/// A data module of a symbol shows its bit, but for what the named mask turns over.
pub proof fn law_data_modules_are_masked_as_the_standard_says(
    version: int,
    codewords: Seq<u8>,
    mask: int,
    r: int,
    c: int,
)
    requires
        1 <= version <= 5,
        0 <= mask < 8,
        carries_data(version, (r, c)),
    ensures
        ({
            let turned = symbol(version, codewords, mask)[r][c] != data_dark(
                version,
                codewords,
                r,
                c,
            );
            &&& mask == 0 ==> (turned <==> r % 2 == c % 2)
            &&& mask == 1 ==> (turned <==> r % 2 == 0)
            &&& mask == 2 ==> (turned <==> c % 3 == 0)
            &&& mask == 3 ==> (turned <==> (r % 3 + c % 3 == 0 || r % 3 + c % 3 == 3))
            &&& mask == 4 ==> (turned <==> (r % 4 < 2) == (c % 6 < 3))
            &&& mask == 5 ==> (turned <==> (r * c) % 6 == 0)
            &&& mask == 6 ==> (turned <==> (r * c) % 6 < 3)
            &&& mask == 7 ==> (turned <==> (r % 2 == c % 2) == ((r * c) % 3 != 1))
        }),
{
    law_masks_turn_what_the_standard_says(r, c);
    assert(format_index(version, r, c) < 0);
    assert(symbol(version, codewords, mask)[r][c] == symbol_dark(version, codewords, mask, r, c));
}

/// Of the eight masks the one drawn has the lowest penalty.
pub proof fn law_the_mask_drawn_is_the_best(version: int, codewords: Seq<u8>, n: int, k: int)
    requires
        1 <= n <= 8,
        0 <= k < n,
    ensures
        0 <= best_mask(version, codewords, n) < n,
        penalty_of(symbol(version, codewords, best_mask(version, codewords, n))) <= penalty_of(
            symbol(version, codewords, k),
        ),
    decreases n,
{
    if n > 1 {
        law_the_mask_drawn_is_the_best(version, codewords, n - 1, if k < n - 1 { k } else { 0 });
    }
}

// ------------------------------------------------------------- the patterns

/// How far a module lies from another, counted in rings round it.
pub open spec fn rings(dr: int, dc: int) -> int {
    let a = if dr < 0 { -dr } else { dr };
    let b = if dc < 0 { -dc } else { dc };
    if a < b { b } else { a }
}

/// The patterns stand where a camera looks for them: three finders, each a dark core, a
/// light ring, a dark ring and a light edge; the two lines of alternating modules between
/// them; from version 2 on one small pattern of three rings near the fourth corner; and
/// one module that is always dark.
pub proof fn law_patterns_stand_where_a_camera_looks(
    version: int,
    codewords: Seq<u8>,
    mask: int,
    r: int,
    c: int,
)
    requires
        1 <= version <= 5,
        0 <= r < 17 + 4 * version,
        0 <= c < 17 + 4 * version,
    ensures
        ({
            let n = 17 + 4 * version;
            let m = symbol(version, codewords, mask);
            &&& m.len() == n
            &&& m[r].len() == n
            &&& rings(r - 3, c - 3) <= 4 ==> m[r][c] == (rings(r - 3, c - 3) != 2 && rings(
                r - 3,
                c - 3,
            ) != 4)
            &&& rings(r - 3, c - (n - 4)) <= 4 ==> m[r][c] == (rings(r - 3, c - (n - 4)) != 2
                && rings(r - 3, c - (n - 4)) != 4)
            &&& rings(r - (n - 4), c - 3) <= 4 ==> m[r][c] == (rings(r - (n - 4), c - 3) != 2
                && rings(r - (n - 4), c - 3) != 4)
            &&& r == 6 && 8 <= c < n - 8 ==> m[r][c] == (c % 2 == 0)
            &&& c == 6 && 8 <= r < n - 8 ==> m[r][c] == (r % 2 == 0)
            &&& version >= 2 && rings(r - (n - 7), c - (n - 7)) <= 2 ==> m[r][c] == (rings(
                r - (n - 7),
                c - (n - 7),
            ) != 1)
            &&& r == n - 8 && c == 8 ==> m[r][c]
        }),
{
    assert(symbol(version, codewords, mask)[r][c] == symbol_dark(version, codewords, mask, r, c));
}

/// What carries data is all the rest: neither a finder with its edge, nor the lines of
/// alternating modules, nor the small pattern, nor the two strips round the finders that
/// hold the format field.
pub proof fn law_the_rest_carries_data(version: int, r: int, c: int)
    requires
        1 <= version <= 5,
        0 <= r < 17 + 4 * version,
        0 <= c < 17 + 4 * version,
    ensures
        ({
            let n = 17 + 4 * version;
            carries_data(version, (r, c)) <==> {
                &&& rings(r - 3, c - 3) > 4
                &&& rings(r - 3, c - (n - 4)) > 4
                &&& rings(r - (n - 4), c - 3) > 4
                &&& r != 6
                &&& c != 6
                &&& version == 1 || rings(r - (n - 7), c - (n - 7)) > 2
                &&& r != 8 || 8 < c < n - 8
                &&& c != 8 || 8 < r < n - 8
            }
        }),
{
}

// ------------------------------------------------------------- the walk

/// Which pair of columns a column belongs to, counted from the right edge; the column of
/// alternating modules belongs to none.
pub open spec fn strip_of(version: int, c: int) -> int {
    if c > 6 {
        (16 + 4 * version - c) / 2
    } else {
        (15 + 4 * version - c) / 2
    }
}

/// Whether the standard's walk comes to one module before another: a pair of columns
/// nearer the right edge first, up in the first pair, down in the next and so on, and on
/// each row the right module before the left.
pub open spec fn sooner(version: int, p: (int, int), q: (int, int)) -> bool {
    let a = strip_of(version, p.1);
    let b = strip_of(version, q.1);
    ||| a < b
    ||| a == b && a % 2 == 0 && p.0 > q.0
    ||| a == b && a % 2 == 1 && p.0 < q.0
    ||| a == b && p.0 == q.0 && p.1 > q.1
}

spec fn in_turn(version: int, w: Seq<(int, int)>) -> bool {
    forall|a: int, b: int|
        0 <= a < b < w.len() ==> sooner(version, #[trigger] w[a], #[trigger] w[b])
}

proof fn lemma_passed_is_sooner(version: int, k: int, i: int, left: int, p: (int, int))
    requires
        version >= 1,
        0 <= k < pairs(version),
        0 <= i < side(version),
        0 <= left <= 1,
        0 <= p.0 < side(version),
        0 <= p.1 < side(version),
        passed(version, k, i, left, p),
    ensures
        sooner(version, p, (pair_row(version, k, i), pair_col(version, k) - left)),
{
    let at = (pair_row(version, k, i), pair_col(version, k) - left);
    lemma_step_position(version, k, i, left);
    assert(column_rank(version, at.1) == 2 * k + left);
    assert(strip_of(version, at.1) == k);
    assert(strip_of(version, p.1) == column_rank(version, p.1) / 2);
}

proof fn lemma_turn_step(version: int, k: int, i: int, left: int)
    requires
        version >= 1,
        0 <= k < pairs(version),
        0 <= i < side(version),
        0 <= left <= 1,
        walk_invariant(version, k, i, left),
        in_turn(version, walked(version, k, i, left)),
    ensures
        left == 0 ==> in_turn(version, walked(version, k, i, 1)),
        left == 1 ==> in_turn(version, walked(version, k, i + 1, 0)),
{
    let w = walked(version, k, i, left);
    let h = half_step(version, k, i, left);
    let at = (pair_row(version, k, i), pair_col(version, k) - left);
    lemma_walk_step(version, k, i);
    let x = w + h;
    assert forall|a: int, b: int| 0 <= a < b < x.len() implies sooner(
        version,
        #[trigger] x[a],
        #[trigger] x[b],
    ) by {
        if b < w.len() {
            assert(sooner(version, w[a], w[b]));
        } else {
            assert(x[b] == at);
            assert(w.contains(w[a]));
            lemma_passed_is_sooner(version, k, i, left, w[a]);
        }
    }
}

proof fn lemma_turn_pair(version: int, k: int, i: int)
    requires
        version >= 1,
        0 <= k < pairs(version),
        0 <= i <= side(version),
        in_turn(version, walked(version, k, 0, 0)),
    ensures
        in_turn(version, walked(version, k, i, 0)),
    decreases i,
{
    if i > 0 {
        lemma_turn_pair(version, k, i - 1);
        lemma_walk_invariant(version, k);
        lemma_walk_invariant_within(version, k, i - 1, 0);
        lemma_turn_step(version, k, i - 1, 0);
        lemma_walk_invariant_within(version, k, i - 1, 1);
        lemma_turn_step(version, k, i - 1, 1);
    }
}

proof fn lemma_turn(version: int, k: int)
    requires
        version >= 1,
        0 <= k <= pairs(version),
    ensures
        in_turn(version, walked(version, k, 0, 0)),
    decreases k,
{
    if k == 0 {
        assert(walked(version, 0, 0, 0) =~= Seq::<(int, int)>::empty());
    } else {
        lemma_turn(version, k - 1);
        lemma_turn_pair(version, k - 1, side(version));
        lemma_walk_pair(version, k - 1);
    }
}

/// The bits of the data lie in the standard's order: of two data modules the one that the
/// walk comes to first has the earlier bit, and no module is left out.
pub proof fn law_data_runs_in_the_standards_order(version: int, a: int, b: int, p: (int, int))
    requires
        1 <= version <= 5,
        0 <= a < b < data_order(version).len(),
        carries_data(version, p),
    ensures
        sooner(version, data_order(version)[a], data_order(version)[b]),
        carries_data(version, data_order(version)[a]),
        carries_data(version, data_order(version)[b]),
        data_order(version).contains(p),
{
    lemma_turn(version, pairs(version));
    lemma_data_order(version);
    let order = data_order(version);
    assert(walked(version, pairs(version), 0, 0) =~= order);
    assert(order.contains(order[a]) && order.contains(order[b]));
}

// ------------------------------------------------------------- the field

/// The field is the one that the standard calculates in: doubling a byte shifts it up and
/// takes 0x11d off where it overflows, and every other product follows from that, since
/// factors may be swapped, grouped and shared out, and one changes nothing.
pub proof fn law_the_field_is_the_standards(a: u8, b: u8, c: u8)
    ensures
        gf_mul(a, 2) == (if a < 128 {
            (2 * a) as u8
        } else {
            ((2 * a - 256) as u8) ^ 0x1du8
        }),
        gf_mul(a, 1) == a,
        gf_mul(a, 0) == 0,
        gf_mul(a, b) == gf_mul(b, a),
        gf_mul(gf_mul(a, b), c) == gf_mul(a, gf_mul(b, c)),
        gf_mul(a, b ^ c) == gf_mul(a, b) ^ gf_mul(a, c),
{
    lemma_field_laws(a, b, c);
    lemma_field_laws(a, 0, c);
    lemma_field_laws(a, b ^ c, c);
    lemma_field_laws(a, c, c);
    lemma_gf_mul_distributes(0, 0, a);
    lemma_gf_mul_distributes(b, c, a);
}

/// The weights of the error correction are the powers of two in the field.
pub proof fn law_weights_are_powers_of_two(k: nat)
    ensures
        alpha_pow(0) == 1,
        alpha_pow(1) == 2,
        alpha_pow(k + 1) == gf_mul(2, alpha_pow(k)),
{
    lemma_field_laws(1, 2, 0);
    lemma_field_laws(2, 1, 0);
    lemma_field_laws(alpha_pow(k), 2, 0);
    assert(alpha_pow(1) == gf_mul(alpha_pow(0), 2));
}

/// What is left of the room behind a message is filled with two bytes by turns.
pub proof fn law_spare_room_is_filled_by_turns(payload: Seq<u8>, version: int, i: int)
    requires
        1 <= version <= 5,
        payload.len() + 2 <= i < data_capacity(version),
    ensures
        data_codewords(payload, version).len() == data_capacity(version),
        data_codewords(payload, version)[i] == (if (i - payload.len()) % 2 == 0 {
            236u8
        } else {
            17u8
        }),
{
    lemma_bits_of_pack(message_bits(payload));
}

// ------------------------------------------------------------- the drawing

/// What is drawn is the symbol with a light edge all round: each cell shows two modules,
/// one above the other, black where the module is dark and white where it is light or lies
/// in the edge, and a row ends by giving the colours back.
pub proof fn law_every_cell_shows_two_modules(m: Seq<Seq<bool>>, quiet: int, i: int, col: int)
    requires
        0 <= quiet,
        0 <= i,
        0 <= col < m.len() + 2 * quiet,
    ensures
        ({
            let n = m.len();
            let across = quiet <= col < quiet + n;
            let upper = across && quiet <= 2 * i < quiet + n && m[2 * i - quiet][col - quiet];
            let lower = across && quiet <= 2 * i + 1 < quiet + n && m[2 * i + 1 - quiet][col
                - quiet];
            &&& cells(m, quiet, 2 * i, col + 1) == cells(m, quiet, 2 * i, col) + (if upper {
                "\x1b[38;5;0m"@
            } else {
                "\x1b[38;5;15m"@
            }) + (if lower {
                "\x1b[48;5;0m"@
            } else {
                "\x1b[48;5;15m"@
            }) + seq!['\u{2580}']
            &&& cells(m, quiet, 2 * i, 0) == Seq::<char>::empty()
            &&& drawn_row(m, quiet, i) == cells(m, quiet, 2 * i, n + 2 * quiet) + "\x1b[0m"@
        }),
{
    let across = quiet <= col < quiet + m.len();
    let upper = across && quiet <= 2 * i < quiet + m.len() && m[2 * i - quiet][col - quiet];
    let lower = across && quiet <= 2 * i + 1 < quiet + m.len() && m[2 * i + 1 - quiet][col
        - quiet];
    assert(cells(m, quiet, 2 * i, col + 1) =~= cells(m, quiet, 2 * i, col) + (if upper {
        "\x1b[38;5;0m"@
    } else {
        "\x1b[38;5;15m"@
    }) + (if lower {
        "\x1b[48;5;0m"@
    } else {
        "\x1b[48;5;15m"@
    }) + seq!['\u{2580}']);
}

// ------------------------------------------------------------- the room

/// What a symbol of each size holds, at the lowest level of error correction: data and
/// correction fill the modules that carry data but for fewer than eight.
pub proof fn law_each_size_has_its_room(version: int)
    requires
        1 <= version <= 5,
    ensures
        version == 1 ==> data_capacity(version) == 19 && ec_count(version) == 7,
        version == 2 ==> data_capacity(version) == 34 && ec_count(version) == 10,
        version == 3 ==> data_capacity(version) == 55 && ec_count(version) == 15,
        version == 4 ==> data_capacity(version) == 80 && ec_count(version) == 20,
        version == 5 ==> data_capacity(version) == 108 && ec_count(version) == 26,
        0 <= data_order(version).len() - 8 * (data_capacity(version) + ec_count(version)) < 8,
{
    lemma_data_modules(version);
}

/// A message gets the smallest size that holds it: none smaller has the room, and up to a
/// hundred and six bytes there is one that has.
pub proof fn law_the_smallest_size_is_taken(len: int, other: int)
    requires
        0 <= len <= 106,
        1 <= other <= 5,
    ensures
        1 <= version_for(len) <= 5,
        len + 2 <= data_capacity(version_for(len)),
        len + 2 <= data_capacity(other) ==> version_for(len) <= other,
        MAX_PAYLOAD == 106,
{
}

/// A message stands behind four bits that say that it is bytes and eight that say how many,
/// and is followed by four that end it.
pub proof fn law_a_message_says_what_it_is(payload: Seq<u8>)
    requires
        payload.len() < 256,
    ensures
        ({
            let b = message_bits(payload);
            &&& b.len() == 16 + 8 * payload.len()
            &&& !b[0] && b[1] && !b[2] && !b[3]
            &&& b.subrange(12, 12 + 8 * payload.len() as int) == bits_of(payload)
            &&& forall|i: int|
                12 + 8 * payload.len() <= i < 16 + 8 * payload.len() ==> !#[trigger] b[i]
        }),
{
    let b = message_bits(payload);
    let n = 8 * payload.len() as int;
    assert((0b0100u16 >> 3u16) & 1 != 1 && (0b0100u16 >> 2u16) & 1 == 1 && (0b0100u16 >> 1u16) & 1
        != 1 && (0b0100u16 >> 0u16) & 1 != 1 && (0u16 >> 3u16) & 1 != 1 && (0u16 >> 2u16) & 1 != 1 && (
    0u16 >> 1u16) & 1 != 1 && (0u16 >> 0u16) & 1 != 1) by (bit_vector);
    assert(b.subrange(12, 12 + n) =~= bits_of(payload));
    let end = value_bits(0, 4);
    assert forall|i: int| 12 + n <= i < 16 + n implies !#[trigger] b[i] by {
        let k = i - 12 - n;
        assert(b[i] == end[k]);
        assert(k == 0 || k == 1 || k == 2 || k == 3);
    }
}

/// A phone reads the name of the network and its password off the credential as they are,
/// whatever punctuation they hold, and that it is protected.
pub proof fn law_a_phone_reads_the_network(ssid: Seq<char>, password: Seq<char>)
    ensures
        ({
            let c = credential(ssid, password);
            let mark = "WIFI:T:WPA;S:"@;
            let (name, rest) = read_field(c.skip(mark.len() as int));
            &&& c.take(mark.len() as int) == mark
            &&& name == ssid
            &&& rest.len() >= 2 && rest.take(2) == seq!['P', ':']
            &&& read_field(rest.skip(2)) == (password, seq![';'])
        }),
{
    reveal_strlit(";P:");
    reveal_strlit(";;");
    let c = credential(ssid, password);
    let mark = "WIFI:T:WPA;S:"@;
    let tail = escaped(password) + seq![';'] + seq![';'];
    let rest = seq!['P', ':'] + tail;
    assert(";P:"@ =~= seq![';'] + seq!['P', ':']);
    assert(";;"@ =~= seq![';'] + seq![';']);
    assert(c.take(mark.len() as int) =~= mark);
    assert(c.skip(mark.len() as int) =~= escaped(ssid) + seq![';'] + rest);
    law_escaped_field_reads_back(ssid, rest);
    law_escaped_field_reads_back(password, seq![';']);
    assert(rest.take(2) =~= seq!['P', ':']);
    assert(rest.skip(2) =~= tail);
}

} // verus!
