//! What goes into a symbol once its function patterns are drawn: the data, the
//! mask over it, and the format field that names the mask.

use super::bits::{bits_of, byte_bit};
use super::grid::{side, Grid};
use super::patterns::is_function;
use super::zigzag::{
    carries_data, data_order, half_step, lemma_data_order, lemma_pair_position,
    lemma_step_position, lemma_walk_pair, lemma_walk_step, pair_col, pair_row, pairs, passed,
    walked,
};
use vstd::prelude::*;

verus! {

/// Whether a mask flips the module at a row and a column.
pub open spec fn mask_flips(mask: int, r: int, c: int) -> bool {
    if mask == 0 {
        (r + c) % 2 == 0
    } else if mask == 1 {
        r % 2 == 0
    } else if mask == 2 {
        c % 3 == 0
    } else if mask == 3 {
        (r + c) % 3 == 0
    } else if mask == 4 {
        (r / 2 + c / 3) % 2 == 0
    } else if mask == 5 {
        (r * c) % 2 + (r * c) % 3 == 0
    } else if mask == 6 {
        ((r * c) % 2 + (r * c) % 3) % 2 == 0
    } else {
        ((r + c) % 2 + (r * c) % 3) % 2 == 0
    }
}

/// Whether a mask flips the module at a row and a column.
pub fn mask_at(mask: u8, row: usize, col: usize) -> (b: bool)
    requires
        row <= 177,
        col <= 177,
    ensures
        b == mask_flips(mask as int, row as int, col as int),
{
    let r: usize = row;
    let c: usize = col;
    assert(0 <= r * c <= 177 * 177) by (nonlinear_arith)
        requires
            0 <= r <= 177,
            0 <= c <= 177,
    ;
    match mask {
        0 => (r + c) % 2 == 0,
        1 => r % 2 == 0,
        2 => c % 3 == 0,
        3 => (r + c) % 3 == 0,
        4 => (r / 2 + c / 3) % 2 == 0,
        5 => (r * c) % 2 + (r * c) % 3 == 0,
        6 => ((r * c) % 2 + (r * c) % 3) % 2 == 0,
        _ => ((r + c) % 2 + (r * c) % 3) % 2 == 0,
    }
}

/// Whether bit `i` of a value is set.
pub open spec fn field_bit(value: u16, i: int) -> bool {
    (value >> (i as u16)) & 1 == 1
}

/// One step of dividing by the BCH generator 10100110111: cancel bit `i`.
pub open spec fn bch_step(p: u16, i: u16) -> u16 {
    if (p >> i) & 1 == 1 {
        p ^ (0b10100110111u16 << ((i - 10) as u16))
    } else {
        p
    }
}

/// The remainder of a fifteen-bit value divided by the BCH generator.
pub open spec fn bch_remainder(p: u16) -> u16 {
    bch_step(bch_step(bch_step(bch_step(bch_step(p, 14), 13), 12), 11), 10)
}

/// The format field: two bits of error correction level (L is 01), three of
/// mask, ten of BCH remainder, the whole exclusive-ored with a fixed pattern.
pub open spec fn format_field(mask: u16) -> u16 {
    let high = (0b01000u16 | mask) << 10;
    (high | bch_remainder(high)) ^ 0b101010000010010u16
}

/// The format fields of the eight masks, as the standard prints them.
pub proof fn law_format_fields()
    by (bit_vector)
    ensures
        format_field(0) == 0b111011111000100u16,
        format_field(1) == 0b111001011110011u16,
        format_field(2) == 0b111110110101010u16,
        format_field(3) == 0b111100010011101u16,
        format_field(4) == 0b110011000101111u16,
        format_field(5) == 0b110001100011000u16,
        format_field(6) == 0b110110001000001u16,
        format_field(7) == 0b110100101110110u16,
{
}

/// A reader finds the level and the mask in the five high bits of the field.
pub proof fn lemma_format_field_reads_back(mask: u16)
    by (bit_vector)
    requires
        mask < 8,
    ensures
        (format_field(mask) ^ 0b101010000010010u16) >> 10 == (0b01000u16 | mask),
        (0b01000u16 | mask) >> 3 == 0b01u16,
        (0b01000u16 | mask) & 0b111 == mask,
        format_field(mask) < 0x8000,
{
}

/// The fifteen bits of the format field for a mask.
pub fn format_bits(mask: u8) -> (field: u16)
    requires
        mask < 8,
    ensures
        field == format_field(mask as u16),
{
    let high: u16 = (0b01000u16 | mask as u16) << 10;
    let mut rem: u16 = high;
    let mut i: u16 = 15;
    while i > 10
        invariant
            10 <= i <= 15,
            bch_remainder(high) == (if i == 15 {
                bch_step(bch_step(bch_step(bch_step(bch_step(rem, 14), 13), 12), 11), 10)
            } else if i == 14 {
                bch_step(bch_step(bch_step(bch_step(rem, 13), 12), 11), 10)
            } else if i == 13 {
                bch_step(bch_step(bch_step(rem, 12), 11), 10)
            } else if i == 12 {
                bch_step(bch_step(rem, 11), 10)
            } else if i == 11 {
                bch_step(rem, 10)
            } else {
                rem
            }),
        decreases i,
    {
        i = i - 1;
        if (rem >> i) & 1 == 1 {
            rem = rem ^ (0b10100110111u16 << (i - 10));
        }
    }
    (high | rem) ^ 0b101010000010010u16
}

/// Where bit `i` of the first copy of the format field goes, round the top-left
/// finder.
pub open spec fn format_first(i: int) -> (int, int) {
    if i <= 5 {
        (8, i)
    } else if i == 6 {
        (8, 7)
    } else if i == 7 {
        (8, 8)
    } else if i == 8 {
        (7, 8)
    } else {
        (14 - i, 8)
    }
}

/// Where bit `i` of the second copy goes, split between the other two finders.
pub open spec fn format_second(version: int, i: int) -> (int, int) {
    if i < 7 {
        (side(version) - 1 - i, 8)
    } else {
        (8, side(version) - 15 + i)
    }
}

/// Which bit of the format field the module at a row and a column shows, or -1.
pub open spec fn format_index(version: int, r: int, c: int) -> int {
    let n = side(version);
    if r == 8 && c <= 5 {
        c
    } else if r == 8 && c == 7 {
        6
    } else if r == 8 && c == 8 {
        7
    } else if r == 7 && c == 8 {
        8
    } else if c == 8 && r <= 5 {
        14 - r
    } else if c == 8 && r >= n - 7 {
        n - 1 - r
    } else if r == 8 && c >= n - 8 {
        c - (n - 15)
    } else {
        -1
    }
}

/// Every bit of the format field is shown at both of its places, inside what the
/// function patterns keep.
pub proof fn lemma_format_places(version: int, i: int)
    requires
        version >= 1,
        0 <= i < 15,
    ensures
        format_index(version, format_first(i).0, format_first(i).1) == i,
        format_index(version, format_second(version, i).0, format_second(version, i).1) == i,
        is_function(version, format_first(i).0, format_first(i).1),
        is_function(version, format_second(version, i).0, format_second(version, i).1),
{
}

/// The data bit that a module carries: the bit whose place in the data order it
/// is, and light once the codewords have run out.
pub open spec fn data_dark(version: int, codewords: Seq<u8>, r: int, c: int) -> bool {
    let b = data_order(version).index_of((r, c));
    b < 8 * codewords.len() && bits_of(codewords)[b]
}

impl Grid {
    /// Whether exactly the function patterns are fixed.
    pub open spec fn patterns_fixed(&self) -> bool {
        forall|r: int, c: int|
            0 <= r < self.size() && 0 <= c < self.size() ==> #[trigger] self.fixed_at(r, c)
                == is_function(self.version(), r, c)
    }

    fn place_bit(
        &mut self,
        codewords: &[u8],
        bit: usize,
        row: usize,
        col: usize,
        Ghost(k): Ghost<int>,
        Ghost(i): Ghost<int>,
        Ghost(left): Ghost<int>,
        Ghost(start): Ghost<Grid>,
    ) -> (next: usize)
        requires
            old(self).wf(),
            old(self).patterns_fixed(),
            old(self).version() == start.version(),
            0 <= k < pairs(start.version()),
            0 <= i < start.size(),
            0 <= left <= 1,
            row == pair_row(start.version(), k, i),
            col == pair_col(start.version(), k) - left,
            bit == walked(start.version(), k, i, left).len(),
            bit < 100_000,
            codewords.len() < 100_000,
            old(self).placed(codewords@, k, i, left, start),
        ensures
            final(self).wf(),
            final(self).patterns_fixed(),
            final(self).version() == start.version(),
            next <= bit + 1,
            left == 0 ==> next == walked(start.version(), k, i, 1).len() && final(self).placed(
                codewords@,
                k,
                i,
                1,
                start,
            ),
            left == 1 ==> next == walked(start.version(), k, i + 1, 0).len() && final(self).placed(codewords@, k, i + 1, 0, start),
    {
        proof {
            self.lemma_wf();
            lemma_step_position(start.version(), k, i, left);
            lemma_walk_step(start.version(), k, i);
        }
        let ghost version = start.version();
        let ghost at = (row as int, col as int);
        let ghost w = walked(version, k, i, left);
        if self.is_fixed(row, col) {
            assert(half_step(version, k, i, left) =~= seq![]);
            proof {
                let i2 = if left == 0 { i } else { i + 1 };
                assert(walked(version, k, i2, 1 - left) =~= w);
                assert forall|r: int, c: int|
                    0 <= r < start.size() && 0 <= c < start.size() && (!passed(
                        version,
                        k,
                        i2,
                        1 - left,
                        (r, c),
                    ) || is_function(version, r, c)) implies #[trigger] self.dark_at(r, c)
                    == start.dark_at(r, c) by {
                    assert(passed(version, k, i, left, (r, c)) ==> passed(
                        version,
                        k,
                        i2,
                        1 - left,
                        (r, c),
                    ));
                }
                assert forall|b: int| 0 <= b < w.len() implies passed(
                    version,
                    k,
                    i2,
                    1 - left,
                    #[trigger] w[b],
                ) by {
                    assert(passed(version, k, i, left, w[b]));
                }
            }
            bit
        } else {
            let on: bool = bit / 8 < codewords.len() && (codewords[bit / 8] >> ((7 - bit % 8) as u8))
                & 1 != 0;
            self.set(row, col, on, false);
            proof {
                let i2 = if left == 0 { i } else { i + 1 };
                let x = walked(version, k, i2, 1 - left);
                assert(x =~= w.push(at));
                assert(on == (bit < 8 * codewords.len() && bits_of(codewords@)[bit as int])) by {
                    if bit < 8 * codewords.len() {
                        assert(bits_of(codewords@)[bit as int] == byte_bit(
                            codewords@[bit as int / 8],
                            bit as int % 8,
                        ));
                    }
                }
                assert forall|b: int| 0 <= b < x.len() implies {
                    &&& carries_data(version, #[trigger] x[b])
                    &&& passed(version, k, i2, 1 - left, x[b])
                    &&& self.dark_at(x[b].0, x[b].1) == (b < 8 * codewords.len() && bits_of(
                        codewords@,
                    )[b])
                } by {
                    if b < w.len() {
                        assert(x[b] == w[b]);
                        assert(passed(version, k, i, left, w[b]));
                        assert(w[b] != at);
                    } else {
                        assert(x[b] == at);
                        assert(!passed(version, k, i, left, at));
                    }
                }
                assert forall|r: int, c: int|
                    0 <= r < start.size() && 0 <= c < start.size() && (!passed(
                        version,
                        k,
                        i2,
                        1 - left,
                        (r, c),
                    ) || is_function(version, r, c)) implies #[trigger] self.dark_at(r, c)
                    == start.dark_at(r, c) by {
                    assert(passed(version, k, i, left, (r, c)) ==> passed(
                        version,
                        k,
                        i2,
                        1 - left,
                        (r, c),
                    ));
                    assert(!passed(version, k, i, left, at));
                }
            }
            bit + 1
        }
    }

    /// The state of the placement when the walk stands before the right (0) or
    /// the left (1) module of step `i` of pair `k`.
    spec fn placed(&self, codewords: Seq<u8>, k: int, i: int, left: int, start: Grid) -> bool {
        let w = walked(start.version(), k, i, left);
        &&& forall|b: int|
            0 <= b < w.len() ==> {
                &&& carries_data(start.version(), #[trigger] w[b])
                &&& passed(start.version(), k, i, left, w[b])
                &&& self.dark_at(w[b].0, w[b].1) == (b < 8 * codewords.len() && bits_of(
                    codewords,
                )[b])
            }
        &&& forall|r: int, c: int|
            0 <= r < start.size() && 0 <= c < start.size() && (!passed(
                start.version(),
                k,
                i,
                left,
                (r, c),
            ) || is_function(start.version(), r, c)) ==> #[trigger] self.dark_at(r, c)
                == start.dark_at(r, c)
    }

    /// Run the bits of the codewords along the data order.
    pub fn place_data(&mut self, codewords: &[u8])
        requires
            old(self).wf(),
            old(self).patterns_fixed(),
            codewords.len() < 100_000,
        ensures
            final(self).wf(),
            final(self).patterns_fixed(),
            final(self).version() == old(self).version(),
            forall|r: int, c: int|
                0 <= r < old(self).size() && 0 <= c < old(self).size()
                    ==> #[trigger] final(self).dark_at(r, c) == (if is_function(
                    old(self).version(),
                    r,
                    c,
                ) {
                    old(self).dark_at(r, c)
                } else {
                    data_dark(old(self).version(), codewords@, r, c)
                }),
    {
        let size: usize = self.side_len();
        let ghost start = *self;
        let ghost version = self.version();
        let mut bit: usize = 0;
        let mut pair: usize = 0;
        let pair_count: usize = (size - 1) / 2;
        proof {
            lemma_walk_pair(version, 0);
        }
        while pair < pair_count
            invariant
                self.wf(),
                self.patterns_fixed(),
                self.version() == version,
                start.version() == version,
                version >= 1,
                size == side(version),
                21 <= size <= 177,
                codewords.len() < 100_000,
                pair_count == pairs(version),
                0 <= pair <= pair_count,
                bit == walked(version, pair as int, 0, 0).len(),
                bit <= pair * 400,
                self.placed(codewords@, pair as int, 0, 0, start),
            decreases pair_count - pair,
        {
            let edge: usize = size - 1 - 2 * pair;
            let col: usize = if edge > 6 { edge } else { edge - 1 };
            let upward: bool = pair % 2 == 0;
            let mut i: usize = 0;
            while i < size
                invariant
                    self.wf(),
                    self.patterns_fixed(),
                    self.version() == version,
                    start.version() == version,
                    version >= 1,
                    size == side(version),
                    21 <= size <= 177,
                    codewords.len() < 100_000,
                    pair_count == pairs(version),
                    0 <= pair < pair_count,
                    0 <= i <= size,
                    col == pair_col(version, pair as int),
                    1 <= col < size,
                    upward == (pair % 2 == 0),
                    bit == walked(version, pair as int, i as int, 0).len(),
                    bit <= pair * 400 + 2 * i,
                    self.placed(codewords@, pair as int, i as int, 0, start),
                decreases size - i,
            {
                let row: usize = if upward { size - 1 - i } else { i };
                bit = self.place_bit(
                    codewords,
                    bit,
                    row,
                    col,
                    Ghost(pair as int),
                    Ghost(i as int),
                    Ghost(0),
                    Ghost(start),
                );
                bit = self.place_bit(
                    codewords,
                    bit,
                    row,
                    col - 1,
                    Ghost(pair as int),
                    Ghost(i as int),
                    Ghost(1),
                    Ghost(start),
                );
                i = i + 1;
            }
            proof {
                lemma_walk_pair(version, pair as int);
                lemma_pair_position(version, pair as int);
                let w = walked(version, pair + 1, 0, 0);
                assert forall|b: int| 0 <= b < w.len() implies passed(
                    version,
                    pair + 1,
                    0,
                    0,
                    #[trigger] w[b],
                ) by {
                    assert(carries_data(version, w[b]));
                    assert(passed(version, pair as int, size as int, 0, w[b]));
                }
                assert forall|r: int, c: int|
                    0 <= r < start.size() && 0 <= c < start.size() && (!passed(
                        version,
                        pair + 1,
                        0,
                        0,
                        (r, c),
                    ) || is_function(version, r, c)) implies #[trigger] self.dark_at(r, c)
                    == start.dark_at(r, c) by {
                    assert(passed(version, pair + 1, 0, 0, (r, c)) == passed(
                        version,
                        pair as int,
                        size as int,
                        0,
                        (r, c),
                    ));
                }
            }
            pair = pair + 1;
        }
        proof {
            lemma_data_order(version);
            let order = data_order(version);
            assert(walked(version, pairs(version), 0, 0) =~= order);
            assert forall|r: int, c: int|
                0 <= r < start.size() && 0 <= c < start.size() implies #[trigger] self.dark_at(
                r,
                c,
            ) == (if is_function(version, r, c) {
                start.dark_at(r, c)
            } else {
                data_dark(version, codewords@, r, c)
            }) by {
                if !is_function(version, r, c) {
                    assert(carries_data(version, (r, c)));
                    assert(order.contains((r, c)));
                    let b = order.index_of((r, c));
                    assert(order[b] == (r, c));
                }
            }
        }
    }

    /// Flip what the mask flips, the function patterns excepted.
    pub fn apply_mask(&mut self, mask: u8)
        requires
            old(self).wf(),
        ensures
            final(self).wf(),
            final(self).version() == old(self).version(),
            forall|r: int, c: int|
                0 <= r < old(self).size() && 0 <= c < old(self).size()
                    ==> #[trigger] final(self).fixed_at(r, c) == old(self).fixed_at(r, c),
            forall|r: int, c: int|
                0 <= r < old(self).size() && 0 <= c < old(self).size()
                    ==> #[trigger] final(self).dark_at(r, c) == (old(self).dark_at(r, c) != (!old(
                    self,
                ).fixed_at(r, c) && mask_flips(mask as int, r, c))),
    {
        let size: usize = self.side_len();
        let mut row: usize = 0;
        while row < size
            invariant
                self.wf(),
                self.version() == old(self).version(),
                size == self.size(),
                size <= 177,
                row <= size,
                forall|r: int, c: int|
                    0 <= r < size && 0 <= c < size ==> #[trigger] self.fixed_at(r, c) == old(
                        self,
                    ).fixed_at(r, c),
                forall|r: int, c: int|
                    0 <= r < size && 0 <= c < size ==> #[trigger] self.dark_at(r, c) == (old(
                        self,
                    ).dark_at(r, c) != (r < row && !old(self).fixed_at(r, c) && mask_flips(
                        mask as int,
                        r,
                        c,
                    ))),
            decreases size - row,
        {
            let mut col: usize = 0;
            while col < size
                invariant
                    self.wf(),
                    self.version() == old(self).version(),
                    size == self.size(),
                    size <= 177,
                    row < size,
                    col <= size,
                    forall|r: int, c: int|
                        0 <= r < size && 0 <= c < size ==> #[trigger] self.fixed_at(r, c) == old(
                            self,
                        ).fixed_at(r, c),
                    forall|r: int, c: int|
                        0 <= r < size && 0 <= c < size ==> #[trigger] self.dark_at(r, c) == (old(
                            self,
                        ).dark_at(r, c) != ((r < row || (r == row && c < col)) && !old(
                            self,
                        ).fixed_at(r, c) && mask_flips(mask as int, r, c))),
                decreases size - col,
            {
                if !self.is_fixed(row, col) && mask_at(mask, row, col) {
                    let was: bool = self.is_dark(row, col);
                    self.set(row, col, !was, false);
                }
                col = col + 1;
            }
            row = row + 1;
        }
    }

    /// Write both copies of the format field.
    pub fn place_format(&mut self, mask: u8)
        requires
            old(self).wf(),
            mask < 8,
        ensures
            final(self).wf(),
            final(self).version() == old(self).version(),
            forall|r: int, c: int|
                0 <= r < old(self).size() && 0 <= c < old(self).size()
                    ==> #[trigger] final(self).fixed_at(r, c) == (old(self).fixed_at(r, c)
                    || format_index(old(self).version(), r, c) >= 0),
            forall|r: int, c: int|
                0 <= r < old(self).size() && 0 <= c < old(self).size()
                    ==> #[trigger] final(self).dark_at(r, c) == (if format_index(
                    old(self).version(),
                    r,
                    c,
                ) >= 0 {
                    field_bit(format_field(mask as u16), format_index(old(self).version(), r, c))
                } else {
                    old(self).dark_at(r, c)
                }),
    {
        let field: u16 = format_bits(mask);
        let size: usize = self.side_len();
        let ghost version = self.version();
        let mut i: usize = 0;
        while i < 15
            invariant
                self.wf(),
                self.version() == old(self).version(),
                version == self.version(),
                version >= 1,
                size == side(version),
                21 <= size <= 177,
                i <= 15,
                field == format_field(mask as u16),
                forall|r: int, c: int|
                    0 <= r < size && 0 <= c < size ==> #[trigger] self.fixed_at(r, c) == (old(
                        self,
                    ).fixed_at(r, c) || 0 <= format_index(version, r, c) < i),
                forall|r: int, c: int|
                    0 <= r < size && 0 <= c < size ==> #[trigger] self.dark_at(r, c) == (if 0
                        <= format_index(version, r, c) < i {
                        field_bit(field, format_index(version, r, c))
                    } else {
                        old(self).dark_at(r, c)
                    }),
            decreases 15 - i,
        {
            let on: bool = (field >> (i as u16)) & 1 == 1;
            let (r1, c1): (usize, usize) = if i <= 5 {
                (8, i)
            } else if i == 6 {
                (8, 7)
            } else if i == 7 {
                (8, 8)
            } else if i == 8 {
                (7, 8)
            } else {
                (14 - i, 8)
            };
            self.set(r1, c1, on, true);
            let (r2, c2): (usize, usize) = if i < 7 {
                (size - 1 - i, 8)
            } else {
                (8, size - 15 + i)
            };
            self.set(r2, c2, on, true);
            i = i + 1;
        }
    }
}

} // verus!
