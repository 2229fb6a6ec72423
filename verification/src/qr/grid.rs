//! The square of modules a symbol is drawn on.

use vstd::prelude::*;

verus! {

/// The most versions the standard has; nothing larger than version 5 is ever drawn.
pub const MAX_VERSION: usize = 40;

/// How many modules a symbol of this version has along one side.
pub open spec fn side(version: int) -> int {
    17 + 4 * version
}

/// Where the module of a row and a column is kept.
spec fn cell(size: int, row: int, col: int) -> int {
    row * size + col
}

proof fn lemma_cell_in_range(size: int, row: int, col: int)
    requires
        0 <= row < size,
        0 <= col < size,
    ensures
        0 <= cell(size, row, col) < size * size,
{
    assert(0 <= row * size + col < size * size) by (nonlinear_arith)
        requires
            0 <= row < size,
            0 <= col < size,
    ;
}

proof fn lemma_cells_differ(size: int, r1: int, c1: int, r2: int, c2: int)
    requires
        0 <= r1,
        0 <= c1 < size,
        0 <= r2,
        0 <= c2 < size,
        cell(size, r1, c1) == cell(size, r2, c2),
    ensures
        r1 == r2 && c1 == c2,
{
    assert(r1 == r2) by (nonlinear_arith)
        requires
            r1 * size + c1 == r2 * size + c2,
            0 <= c1 < size,
            0 <= c2 < size,
    ;
}

/// A symbol under construction: which modules are dark, and which belong to a
/// function pattern and so never carry data and are never masked.
pub struct Grid {
    version: usize,
    size: usize,
    dark: Vec<bool>,
    fixed: Vec<bool>,
}

/// The modules row by row, dark where true.
impl View for Grid {
    type V = Seq<Seq<bool>>;

    open spec fn view(&self) -> Seq<Seq<bool>> {
        Seq::new(
            self.size() as nat,
            |r: int| Seq::new(self.size() as nat, |c: int| self.dark_at(r, c)),
        )
    }
}

impl Grid {
    /// The version of the symbol.
    pub closed spec fn version(&self) -> int {
        self.version as int
    }

    /// Modules along one side.
    pub open spec fn size(&self) -> int {
        side(self.version())
    }

    /// Whether the module at a row and a column is dark.
    pub closed spec fn dark_at(&self, row: int, col: int) -> bool {
        self.dark@[cell(self.size as int, row, col)]
    }

    /// Whether the module at a row and a column belongs to a function pattern.
    pub closed spec fn fixed_at(&self, row: int, col: int) -> bool {
        self.fixed@[cell(self.size as int, row, col)]
    }

    /// There is one entry for every module.
    pub closed spec fn wf(&self) -> bool {
        &&& 1 <= self.version <= MAX_VERSION
        &&& self.size == side(self.version as int)
        &&& self.dark.len() == self.size * self.size
        &&& self.fixed.len() == self.size * self.size
    }

    /// What well-formedness says about the numbers.
    pub proof fn lemma_wf(&self)
        requires
            self.wf(),
        ensures
            1 <= self.version() <= MAX_VERSION,
            21 <= self.size() <= 177,
    {
    }

    /// An all-light symbol in which nothing is fixed.
    pub fn new(version: usize) -> (g: Grid)
        requires
            1 <= version <= MAX_VERSION,
        ensures
            g.wf(),
            g.version() == version,
            forall|r: int, c: int|
                0 <= r < g.size() && 0 <= c < g.size() ==> !#[trigger] g.dark_at(r, c),
            forall|r: int, c: int|
                0 <= r < g.size() && 0 <= c < g.size() ==> !#[trigger] g.fixed_at(r, c),
    {
        let size: usize = 17 + 4 * version;
        assert(size * size <= 177 * 177) by (nonlinear_arith)
            requires
                size <= 177,
        ;
        let g = Grid {
            version,
            size,
            dark: vec![false; size * size],
            fixed: vec![false; size * size],
        };
        proof {
            assert forall|r: int, c: int| 0 <= r < g.size() && 0 <= c < g.size() implies !g.dark_at(
                r,
                c,
            ) && !g.fixed_at(r, c) by {
                lemma_cell_in_range(size as int, r, c);
            }
        }
        g
    }

    /// Modules along one side.
    pub fn side_len(&self) -> (n: usize)
        requires
            self.wf(),
        ensures
            n == self.size(),
            21 <= n <= 177,
    {
        self.size
    }

    /// The version of the symbol.
    pub fn version_number(&self) -> (v: usize)
        requires
            self.wf(),
        ensures
            v == self.version(),
            1 <= v <= MAX_VERSION,
    {
        self.version
    }

    /// Paint one module, and mark it as part of a function pattern if asked to.
    pub fn set(&mut self, row: usize, col: usize, dark: bool, fixed: bool)
        requires
            old(self).wf(),
            row < old(self).size(),
            col < old(self).size(),
        ensures
            final(self).wf(),
            final(self).version() == old(self).version(),
            forall|r: int, c: int|
                0 <= r < old(self).size() && 0 <= c < old(self).size()
                    ==> #[trigger] final(self).dark_at(r, c) == (if r == row && c == col {
                    dark
                } else {
                    old(self).dark_at(r, c)
                }),
            forall|r: int, c: int|
                0 <= r < old(self).size() && 0 <= c < old(self).size()
                    ==> #[trigger] final(self).fixed_at(r, c) == (old(self).fixed_at(r, c) || (
                fixed && r == row && c == col)),
    {
        proof {
            lemma_cell_in_range(self.size as int, row as int, col as int);
            assert(row * self.size <= 177 * 177) by (nonlinear_arith)
                requires
                    row <= 177,
                    self.size <= 177,
            ;
        }
        let i: usize = row * self.size + col;
        self.dark.set(i, dark);
        if fixed {
            self.fixed.set(i, true);
        }
        proof {
            assert forall|r: int, c: int|
                0 <= r < old(self).size() && 0 <= c < old(self).size() implies #[trigger] self.dark_at(
                r,
                c,
            ) == (if r == row && c == col {
                dark
            } else {
                old(self).dark_at(r, c)
            }) by {
                lemma_cell_in_range(self.size as int, r, c);
                if cell(self.size as int, r, c) == i {
                    lemma_cells_differ(self.size as int, r, c, row as int, col as int);
                }
            }
            assert forall|r: int, c: int|
                0 <= r < old(self).size() && 0 <= c < old(self).size() implies #[trigger] self.fixed_at(
                r,
                c,
            ) == (old(self).fixed_at(r, c) || (fixed && r == row && c == col)) by {
                lemma_cell_in_range(self.size as int, r, c);
                if cell(self.size as int, r, c) == i {
                    lemma_cells_differ(self.size as int, r, c, row as int, col as int);
                }
            }
        }
    }

    /// Whether the module at a row and a column is dark.
    pub fn is_dark(&self, row: usize, col: usize) -> (b: bool)
        requires
            self.wf(),
            row < self.size(),
            col < self.size(),
        ensures
            b == self.dark_at(row as int, col as int),
    {
        proof {
            lemma_cell_in_range(self.size as int, row as int, col as int);
            assert(row * self.size <= 177 * 177) by (nonlinear_arith)
                requires
                    row <= 177,
                    self.size <= 177,
            ;
        }
        self.dark[row * self.size + col]
    }

    /// Whether the module at a row and a column belongs to a function pattern.
    pub fn is_fixed(&self, row: usize, col: usize) -> (b: bool)
        requires
            self.wf(),
            row < self.size(),
            col < self.size(),
        ensures
            b == self.fixed_at(row as int, col as int),
    {
        proof {
            lemma_cell_in_range(self.size as int, row as int, col as int);
            assert(row * self.size <= 177 * 177) by (nonlinear_arith)
                requires
                    row <= 177,
                    self.size <= 177,
            ;
        }
        self.fixed[row * self.size + col]
    }

    /// A second symbol with the same modules.
    pub fn duplicate(&self) -> (g: Grid)
        requires
            self.wf(),
        ensures
            g.wf(),
            g.version() == self.version(),
            forall|r: int, c: int|
                0 <= r < self.size() && 0 <= c < self.size() ==> #[trigger] g.dark_at(r, c)
                    == self.dark_at(r, c),
            forall|r: int, c: int|
                0 <= r < self.size() && 0 <= c < self.size() ==> #[trigger] g.fixed_at(r, c)
                    == self.fixed_at(r, c),
    {
        let g = Grid {
            version: self.version,
            size: self.size,
            dark: self.dark.clone(),
            fixed: self.fixed.clone(),
        };
        proof {
            assert(g.dark@ =~= self.dark@);
            assert(g.fixed@ =~= self.fixed@);
        }
        g
    }

    /// The finished symbol.
    pub fn finish(self) -> (code: Code)
        requires
            self.wf(),
        ensures
            code.wf(),
            code.side() == self.size(),
            code@ == self@,
    {
        let ghost modules = self@;
        let code = Code { size: self.size, dark: self.dark };
        assert(code@ =~~= modules);
        code
    }
}

/// A finished code: `size` by `size` modules, dark where true.
pub struct Code {
    pub size: usize,
    /// One entry for every module, row by row.
    pub dark: Vec<bool>,
}

/// The modules row by row, dark where true.
impl View for Code {
    type V = Seq<Seq<bool>>;

    open spec fn view(&self) -> Seq<Seq<bool>> {
        Seq::new(
            self.side(),
            |r: int| Seq::new(self.side(), |c: int| self.dark_at(r, c)),
        )
    }
}

impl Code {
    /// Modules along one side: the public field `size`.
    pub open spec fn side(&self) -> nat {
        self.size as nat
    }

    /// There is one entry for every module.
    pub closed spec fn wf(&self) -> bool {
        self.dark.len() == self.size * self.size
    }

    /// Whether the module at a row and a column is dark.
    pub closed spec fn dark_at(&self, row: int, col: int) -> bool {
        self.dark@[cell(self.size as int, row, col)]
    }

    /// Modules along one side.
    pub fn side_len(&self) -> (n: usize)
        ensures
            n == self.side(),
    {
        self.size
    }

    /// Whether a module is dark; there is nothing dark outside the symbol.
    pub fn dark(&self, row: usize, col: usize) -> (b: bool)
        requires
            self.wf(),
        ensures
            b == (row < self.side() && col < self.side() && self.dark_at(row as int, col as int)),
    {
        if row < self.size && col < self.size {
            proof {
                lemma_cell_in_range(self.size as int, row as int, col as int);
            }
            self.dark[row * self.size + col]
        } else {
            false
        }
    }
}

} // verus!
