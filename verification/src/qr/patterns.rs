//! The function patterns: finders, timing, alignment and the room kept for the
//! format field.

use super::grid::{side, Grid};
use vstd::prelude::*;

verus! {

/// Whether a module is dark at an offset from the corner of a finder: a ring of
/// seven by seven round a core of three by three, light elsewhere.
pub open spec fn finder_dark(dr: int, dc: int) -> bool {
    let inside = 0 <= dr < 7 && 0 <= dc < 7;
    let ring = dr == 0 || dr == 6 || dc == 0 || dc == 6;
    let core = 2 <= dr <= 4 && 2 <= dc <= 4;
    inside && (ring || core)
}

/// Whether a module lies in the finder whose corner is at `r0`, `c0` or in the
/// light separator one module wide around it.
pub open spec fn in_finder(r0: int, c0: int, r: int, c: int) -> bool {
    r0 - 1 <= r <= r0 + 7 && c0 - 1 <= c <= c0 + 7
}

/// Whether a module lies in the alignment pattern; version 1 has none.
pub open spec fn in_alignment(version: int, r: int, c: int) -> bool {
    let centre = side(version) - 7;
    version >= 2 && centre - 2 <= r <= centre + 2 && centre - 2 <= c <= centre + 2
}

/// Whether a module of the alignment pattern is dark.
pub open spec fn alignment_dark(version: int, r: int, c: int) -> bool {
    let centre = side(version) - 7;
    r == centre - 2 || r == centre + 2 || c == centre - 2 || c == centre + 2 || (r == centre && c
        == centre)
}

/// Whether a module belongs to a function pattern or is kept for the format field.
pub open spec fn is_function(version: int, r: int, c: int) -> bool {
    let n = side(version);
    ||| in_finder(0, 0, r, c)
    ||| in_finder(0, n - 7, r, c)
    ||| in_finder(n - 7, 0, r, c)
    ||| r == 6
    ||| c == 6
    ||| in_alignment(version, r, c)
    ||| r == 8 && (c <= 8 || c >= n - 8)
    ||| c == 8 && (r <= 8 || r >= n - 8)
}

/// Whether a module of a function pattern is dark; what is kept for the format
/// field is light.
pub open spec fn function_dark(version: int, r: int, c: int) -> bool {
    let n = side(version);
    if in_finder(0, 0, r, c) {
        finder_dark(r, c)
    } else if in_finder(0, n - 7, r, c) {
        finder_dark(r, c - (n - 7))
    } else if in_finder(n - 7, 0, r, c) {
        finder_dark(r - (n - 7), c)
    } else if r == 6 {
        c % 2 == 0
    } else if c == 6 {
        r % 2 == 0
    } else if in_alignment(version, r, c) {
        alignment_dark(version, r, c)
    } else {
        r == n - 8 && c == 8
    }
}

impl Grid {
    fn paint_finder(&mut self, r0: usize, c0: usize)
        requires
            old(self).wf(),
            r0 + 7 <= old(self).size(),
            c0 + 7 <= old(self).size(),
        ensures
            final(self).wf(),
            final(self).version() == old(self).version(),
            forall|r: int, c: int|
                0 <= r < old(self).size() && 0 <= c < old(self).size()
                    ==> #[trigger] final(self).dark_at(r, c) == (if in_finder(
                    r0 as int,
                    c0 as int,
                    r,
                    c,
                ) {
                    finder_dark(r - r0, c - c0)
                } else {
                    old(self).dark_at(r, c)
                }),
            forall|r: int, c: int|
                0 <= r < old(self).size() && 0 <= c < old(self).size()
                    ==> #[trigger] final(self).fixed_at(r, c) == (old(self).fixed_at(r, c)
                    || in_finder(r0 as int, c0 as int, r, c)),
    {
        let size: usize = self.side_len();
        let top: usize = if r0 == 0 { 0 } else { r0 - 1 };
        let left: usize = if c0 == 0 { 0 } else { c0 - 1 };
        let bottom: usize = if r0 + 8 <= size { r0 + 8 } else { size };
        let right: usize = if c0 + 8 <= size { c0 + 8 } else { size };
        let mut row: usize = top;
        while row < bottom
            invariant
                self.wf(),
                self.version() == old(self).version(),
                size == self.size(),
                21 <= size <= 177,
                r0 + 7 <= size,
                c0 + 7 <= size,
                top == (if r0 == 0 { 0int } else { r0 - 1 }),
                left == (if c0 == 0 { 0int } else { c0 - 1 }),
                bottom == (if r0 + 8 <= size { r0 + 8 } else { size as int }),
                right == (if c0 + 8 <= size { c0 + 8 } else { size as int }),
                top <= row <= bottom,
                forall|r: int, c: int|
                    0 <= r < size && 0 <= c < size ==> #[trigger] self.dark_at(r, c) == (if r
                        < row && in_finder(r0 as int, c0 as int, r, c) {
                        finder_dark(r - r0, c - c0)
                    } else {
                        old(self).dark_at(r, c)
                    }),
                forall|r: int, c: int|
                    0 <= r < size && 0 <= c < size ==> #[trigger] self.fixed_at(r, c) == (old(
                        self,
                    ).fixed_at(r, c) || (r < row && in_finder(r0 as int, c0 as int, r, c))),
            decreases bottom - row,
        {
            let mut col: usize = left;
            while col < right
                invariant
                    self.wf(),
                    self.version() == old(self).version(),
                    size == self.size(),
                    21 <= size <= 177,
                    r0 + 7 <= size,
                    c0 + 7 <= size,
                    top == (if r0 == 0 { 0int } else { r0 - 1 }),
                    left == (if c0 == 0 { 0int } else { c0 - 1 }),
                    bottom == (if r0 + 8 <= size { r0 + 8 } else { size as int }),
                    right == (if c0 + 8 <= size { c0 + 8 } else { size as int }),
                    top <= row < bottom,
                    left <= col <= right,
                    forall|r: int, c: int|
                        0 <= r < size && 0 <= c < size ==> #[trigger] self.dark_at(r, c) == (if (r
                            < row || (r == row && c < col)) && in_finder(
                            r0 as int,
                            c0 as int,
                            r,
                            c,
                        ) {
                            finder_dark(r - r0, c - c0)
                        } else {
                            old(self).dark_at(r, c)
                        }),
                    forall|r: int, c: int|
                        0 <= r < size && 0 <= c < size ==> #[trigger] self.fixed_at(r, c) == (old(
                            self,
                        ).fixed_at(r, c) || ((r < row || (r == row && c < col)) && in_finder(
                            r0 as int,
                            c0 as int,
                            r,
                            c,
                        ))),
                decreases right - col,
            {
                let inside: bool = row >= r0 && row < r0 + 7 && col >= c0 && col < c0 + 7;
                let ring: bool = row == r0 || row == r0 + 6 || col == c0 || col == c0 + 6;
                let core: bool = row >= r0 + 2 && row <= r0 + 4 && col >= c0 + 2 && col <= c0 + 4;
                self.set(row, col, inside && (ring || core), true);
                col = col + 1;
            }
            row = row + 1;
        }
    }

    fn paint_timing(&mut self)
        requires
            old(self).wf(),
        ensures
            final(self).wf(),
            final(self).version() == old(self).version(),
            forall|r: int, c: int|
                0 <= r < old(self).size() && 0 <= c < old(self).size()
                    ==> #[trigger] final(self).dark_at(r, c) == (if r == 6 && 8 <= c < old(
                    self,
                ).size() - 8 {
                    c % 2 == 0
                } else if c == 6 && 8 <= r < old(self).size() - 8 {
                    r % 2 == 0
                } else {
                    old(self).dark_at(r, c)
                }),
            forall|r: int, c: int|
                0 <= r < old(self).size() && 0 <= c < old(self).size()
                    ==> #[trigger] final(self).fixed_at(r, c) == (old(self).fixed_at(r, c) || (r
                    == 6 && 8 <= c < old(self).size() - 8) || (c == 6 && 8 <= r < old(
                    self,
                ).size() - 8)),
    {
        let size: usize = self.side_len();
        let mut i: usize = 8;
        while i < size - 8
            invariant
                self.wf(),
                self.version() == old(self).version(),
                size == self.size(),
                21 <= size <= 177,
                8 <= i <= size - 8,
                forall|r: int, c: int|
                    0 <= r < size && 0 <= c < size ==> #[trigger] self.dark_at(r, c) == (if r == 6
                        && 8 <= c < i {
                        c % 2 == 0
                    } else if c == 6 && 8 <= r < i {
                        r % 2 == 0
                    } else {
                        old(self).dark_at(r, c)
                    }),
                forall|r: int, c: int|
                    0 <= r < size && 0 <= c < size ==> #[trigger] self.fixed_at(r, c) == (old(
                        self,
                    ).fixed_at(r, c) || (r == 6 && 8 <= c < i) || (c == 6 && 8 <= r < i)),
            decreases size - i,
        {
            let on: bool = i % 2 == 0;
            self.set(6, i, on, true);
            self.set(i, 6, on, true);
            i = i + 1;
        }
    }

    fn paint_alignment(&mut self)
        requires
            old(self).wf(),
            old(self).version() >= 2,
        ensures
            final(self).wf(),
            final(self).version() == old(self).version(),
            forall|r: int, c: int|
                0 <= r < old(self).size() && 0 <= c < old(self).size()
                    ==> #[trigger] final(self).dark_at(r, c) == (if in_alignment(
                    old(self).version(),
                    r,
                    c,
                ) {
                    alignment_dark(old(self).version(), r, c)
                } else {
                    old(self).dark_at(r, c)
                }),
            forall|r: int, c: int|
                0 <= r < old(self).size() && 0 <= c < old(self).size()
                    ==> #[trigger] final(self).fixed_at(r, c) == (old(self).fixed_at(r, c)
                    || in_alignment(old(self).version(), r, c)),
    {
        let size: usize = self.side_len();
        let centre: usize = size - 7;
        let ghost version = self.version();
        let mut row: usize = centre - 2;
        while row <= centre + 2
            invariant
                self.wf(),
                self.version() == old(self).version(),
                version == self.version(),
                version >= 2,
                size == side(version),
                21 <= size <= 177,
                centre == size - 7,
                centre - 2 <= row <= centre + 3,
                forall|r: int, c: int|
                    0 <= r < size && 0 <= c < size ==> #[trigger] self.dark_at(r, c) == (if r
                        < row && in_alignment(version, r, c) {
                        alignment_dark(version, r, c)
                    } else {
                        old(self).dark_at(r, c)
                    }),
                forall|r: int, c: int|
                    0 <= r < size && 0 <= c < size ==> #[trigger] self.fixed_at(r, c) == (old(
                        self,
                    ).fixed_at(r, c) || (r < row && in_alignment(version, r, c))),
            decreases centre + 3 - row,
        {
            let mut col: usize = centre - 2;
            while col <= centre + 2
                invariant
                    self.wf(),
                    self.version() == old(self).version(),
                    version == self.version(),
                    version >= 2,
                    size == side(version),
                    21 <= size <= 177,
                    centre == size - 7,
                    centre - 2 <= row <= centre + 2,
                    centre - 2 <= col <= centre + 3,
                    forall|r: int, c: int|
                        0 <= r < size && 0 <= c < size ==> #[trigger] self.dark_at(r, c) == (if (r
                            < row || (r == row && c < col)) && in_alignment(version, r, c) {
                            alignment_dark(version, r, c)
                        } else {
                            old(self).dark_at(r, c)
                        }),
                    forall|r: int, c: int|
                        0 <= r < size && 0 <= c < size ==> #[trigger] self.fixed_at(r, c) == (old(
                            self,
                        ).fixed_at(r, c) || ((r < row || (r == row && c < col)) && in_alignment(
                            version,
                            r,
                            c,
                        ))),
                decreases centre + 3 - col,
            {
                let ring: bool = row == centre - 2 || row == centre + 2 || col == centre - 2 || col
                    == centre + 2 || (row == centre && col == centre);
                self.set(row, col, ring, true);
                col = col + 1;
            }
            row = row + 1;
        }
    }

    fn reserve_format(&mut self)
        requires
            old(self).wf(),
        ensures
            final(self).wf(),
            final(self).version() == old(self).version(),
            forall|r: int, c: int|
                0 <= r < old(self).size() && 0 <= c < old(self).size()
                    ==> #[trigger] final(self).dark_at(r, c) == (if (r == 8 && c >= old(
                    self,
                ).size() - 8) || (c == 8 && r >= old(self).size() - 7) {
                    false
                } else if ((r == 8 && c <= 8) || (c == 8 && r <= 8)) && !old(self).fixed_at(r, c) {
                    false
                } else {
                    old(self).dark_at(r, c)
                }),
            forall|r: int, c: int|
                0 <= r < old(self).size() && 0 <= c < old(self).size()
                    ==> #[trigger] final(self).fixed_at(r, c) == (old(self).fixed_at(r, c) || (r
                    == 8 && c <= 8) || (c == 8 && r <= 8) || (r == 8 && c >= old(self).size() - 8)
                    || (c == 8 && r >= old(self).size() - 7)),
    {
        let size: usize = self.side_len();
        let mut i: usize = 0;
        while i < 9
            invariant
                self.wf(),
                self.version() == old(self).version(),
                size == self.size(),
                21 <= size <= 177,
                i <= 9,
                forall|r: int, c: int|
                    0 <= r < size && 0 <= c < size ==> #[trigger] self.dark_at(r, c) == (if ((r
                        == 8 && c < i) || (c == 8 && r < i)) && !old(self).fixed_at(r, c) {
                        false
                    } else {
                        old(self).dark_at(r, c)
                    }),
                forall|r: int, c: int|
                    0 <= r < size && 0 <= c < size ==> #[trigger] self.fixed_at(r, c) == (old(
                        self,
                    ).fixed_at(r, c) || (r == 8 && c < i) || (c == 8 && r < i)),
            decreases 9 - i,
        {
            if !self.is_fixed(8, i) {
                self.set(8, i, false, true);
            }
            if !self.is_fixed(i, 8) {
                self.set(i, 8, false, true);
            }
            i = i + 1;
        }
        let ghost half = *self;
        i = 0;
        while i < 8
            invariant
                self.wf(),
                self.version() == old(self).version(),
                size == self.size(),
                21 <= size <= 177,
                i <= 8,
                forall|r: int, c: int|
                    0 <= r < size && 0 <= c < size ==> #[trigger] self.dark_at(r, c) == (if (r
                        == 8 && c >= size - i) || (c == 8 && r >= size - i && r >= size - 7) {
                        false
                    } else {
                        half.dark_at(r, c)
                    }),
                forall|r: int, c: int|
                    0 <= r < size && 0 <= c < size ==> #[trigger] self.fixed_at(r, c) == (
                    half.fixed_at(r, c) || (r == 8 && c >= size - i) || (c == 8 && r >= size - i
                        && r >= size - 7)),
            decreases 8 - i,
        {
            self.set(8, size - 1 - i, false, true);
            if i < 7 {
                self.set(size - 1 - i, 8, false, true);
            }
            i = i + 1;
        }
    }

    /// Paint every function pattern and keep the room for the format field.
    pub fn place_function_patterns(&mut self)
        requires
            old(self).wf(),
            forall|r: int, c: int|
                0 <= r < old(self).size() && 0 <= c < old(self).size() ==> !#[trigger] old(
                    self,
                ).fixed_at(r, c),
        ensures
            final(self).wf(),
            final(self).version() == old(self).version(),
            forall|r: int, c: int|
                0 <= r < old(self).size() && 0 <= c < old(self).size()
                    ==> #[trigger] final(self).fixed_at(r, c) == is_function(
                    old(self).version(),
                    r,
                    c,
                ),
            forall|r: int, c: int|
                0 <= r < old(self).size() && 0 <= c < old(self).size()
                    ==> #[trigger] final(self).dark_at(r, c) == (if is_function(
                    old(self).version(),
                    r,
                    c,
                ) {
                    function_dark(old(self).version(), r, c)
                } else {
                    old(self).dark_at(r, c)
                }),
    {
        let size: usize = self.side_len();
        let version: usize = self.version_number();
        self.paint_finder(0, 0);
        self.paint_finder(0, size - 7);
        self.paint_finder(size - 7, 0);
        self.paint_timing();
        self.set(4 * version + 9, 8, true, true);
        if version >= 2 {
            self.paint_alignment();
        }
        self.reserve_format();
    }
}

} // verus!
