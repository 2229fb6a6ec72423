//! How awkward a masked symbol is to scan: the four penalty rules.

use super::grid::Grid;
use vstd::prelude::*;

verus! {

/// Column `i` of a square of modules.
pub open spec fn column(m: Seq<Seq<bool>>, i: int) -> Seq<bool> {
    Seq::new(m.len(), |j: int| m[j][i])
}

/// The length of the run of one colour that ends at `j`.
pub open spec fn run_at(line: Seq<bool>, j: int) -> int
    decreases j,
{
    if j <= 0 || line[j] != line[j - 1] {
        1
    } else {
        run_at(line, j - 1) + 1
    }
}

/// Whether a run ends at `j`: nothing follows, or the other colour does.
pub open spec fn run_ends(line: Seq<bool>, j: int) -> bool {
    j + 1 == line.len() || line[j] != line[j + 1]
}

/// What the runs ending before `j` cost: a run of five costs three, and one more
/// for every module beyond.
pub open spec fn runs_cost(line: Seq<bool>, j: int) -> int
    decreases j,
{
    if j <= 0 {
        0
    } else {
        runs_cost(line, j - 1) + (if run_ends(line, j - 1) && run_at(line, j - 1) >= 5 {
            3 + (run_at(line, j - 1) - 5)
        } else {
            0
        })
    }
}

/// Rule 1 over the first `k` rows and columns: runs of five or more of one colour.
pub open spec fn rule_runs(m: Seq<Seq<bool>>, k: int) -> int
    decreases k,
{
    if k <= 0 {
        0
    } else {
        rule_runs(m, k - 1) + runs_cost(m[k - 1], m.len() as int) + runs_cost(
            column(m, k - 1),
            m.len() as int,
        )
    }
}

/// Whether the two by two block with this top left corner is of one colour.
pub open spec fn one_colour(m: Seq<Seq<bool>>, r: int, c: int) -> bool {
    m[r][c] == m[r][c + 1] && m[r][c] == m[r + 1][c] && m[r][c] == m[r + 1][c + 1]
}

/// Three for each block of one colour among the first `c` of row `r`.
pub open spec fn blocks_cost(m: Seq<Seq<bool>>, r: int, c: int) -> int
    decreases c,
{
    if c <= 0 {
        0
    } else {
        blocks_cost(m, r, c - 1) + (if one_colour(m, r, c - 1) {
            3int
        } else {
            0int
        })
    }
}

/// Rule 2 over the first `r` rows: every two by two block of one colour.
pub open spec fn rule_blocks(m: Seq<Seq<bool>>, r: int) -> int
    decreases r,
{
    if r <= 0 {
        0
    } else {
        rule_blocks(m, r - 1) + blocks_cost(m, r - 1, m.len() - 1)
    }
}

/// Whether a line shows, at `j`, the sequence of a finder with four light
/// modules after it or before it.
pub open spec fn finder_like(line: Seq<bool>, j: int) -> bool {
    let w = line.subrange(j, j + 11);
    ||| w == seq![true, false, true, true, true, false, true, false, false, false, false]
    ||| w == seq![false, false, false, false, true, false, true, true, true, false, true]
}

/// Forty for each finder-like sequence among the first `j` places of a line.
pub open spec fn finders_cost(line: Seq<bool>, j: int) -> int
    decreases j,
{
    if j <= 0 {
        0
    } else {
        finders_cost(line, j - 1) + (if finder_like(line, j - 1) {
            40int
        } else {
            0int
        })
    }
}

/// Rule 3 over the first `k` rows and columns: finder-like sequences.
pub open spec fn rule_finders(m: Seq<Seq<bool>>, k: int) -> int
    decreases k,
{
    if k <= 0 {
        0
    } else {
        rule_finders(m, k - 1) + finders_cost(m[k - 1], m.len() - 10) + finders_cost(
            column(m, k - 1),
            m.len() - 10,
        )
    }
}

/// The number of dark modules among the first `j` of a line.
pub open spec fn dark_in(line: Seq<bool>, j: int) -> int
    decreases j,
{
    if j <= 0 {
        0
    } else {
        dark_in(line, j - 1) + (if line[j - 1] {
            1int
        } else {
            0int
        })
    }
}

/// The number of dark modules in the first `r` rows.
pub open spec fn dark_total(m: Seq<Seq<bool>>, r: int) -> int
    decreases r,
{
    if r <= 0 {
        0
    } else {
        dark_total(m, r - 1) + dark_in(m[r - 1], m.len() as int)
    }
}

/// Rule 4: ten for every five whole percent that the dark share strays from half.
pub open spec fn rule_balance(m: Seq<Seq<bool>>) -> int {
    let n = m.len() as int;
    let percent = dark_total(m, n) * 100 / (n * n);
    let stray = if percent >= 50 {
        percent - 50
    } else {
        50 - percent
    };
    stray / 5 * 10
}

/// The penalty of a square of modules, lower being better.
pub open spec fn penalty_of(m: Seq<Seq<bool>>) -> int {
    let n = m.len() as int;
    rule_runs(m, n) + rule_blocks(m, n - 1) + rule_finders(m, n) + rule_balance(m)
}

proof fn lemma_run_at_bound(line: Seq<bool>, j: int)
    requires
        0 <= j,
    ensures
        1 <= run_at(line, j) <= j + 1,
    decreases j,
{
    if j > 0 {
        lemma_run_at_bound(line, j - 1);
    }
}

fn cost_of_runs(line: &Vec<bool>) -> (cost: u32)
    requires
        1 <= line.len() <= 177,
    ensures
        cost == runs_cost(line@, line.len() as int),
        cost <= 31_329,
{
    let n: usize = line.len();
    let mut cost: u32 = 0;
    let mut run: u32 = 1;
    let mut j: usize = 0;
    while j < n
        invariant
            n == line.len(),
            1 <= n <= 177,
            j <= n,
            cost == runs_cost(line@, j as int),
            cost <= 177 * j,
            1 <= run <= j + 1,
            j < n ==> run == run_at(line@, j as int),
        decreases n - j,
    {
        proof {
            lemma_run_at_bound(line@, j as int);
        }
        let ends: bool = j + 1 == n || line[j] != line[j + 1];
        if ends {
            if run >= 5 {
                cost = cost + (3 + (run - 5));
            }
            run = 1;
        } else {
            run = run + 1;
        }
        j = j + 1;
    }
    cost
}

fn cost_of_finders(line: &Vec<bool>) -> (cost: u32)
    requires
        11 <= line.len() <= 177,
    ensures
        cost == finders_cost(line@, line.len() - 10),
        cost <= 7_080,
{
    let n: usize = line.len();
    let mut cost: u32 = 0;
    let mut j: usize = 0;
    while j < n - 10
        invariant
            n == line.len(),
            11 <= n <= 177,
            j <= n - 10,
            cost == finders_cost(line@, j as int),
            cost <= 40 * j,
        decreases n - j,
    {
        let after: bool = line[j] && !line[j + 1] && line[j + 2] && line[j + 3] && line[j + 4]
            && !line[j + 5] && line[j + 6] && !line[j + 7] && !line[j + 8] && !line[j + 9]
            && !line[j + 10];
        let before: bool = !line[j] && !line[j + 1] && !line[j + 2] && !line[j + 3] && line[j + 4]
            && !line[j + 5] && line[j + 6] && line[j + 7] && line[j + 8] && !line[j + 9]
            && line[j + 10];
        proof {
            let w = line@.subrange(j as int, j + 11);
            let a = seq![true, false, true, true, true, false, true, false, false, false, false];
            let b = seq![false, false, false, false, true, false, true, true, true, false, true];
            if after {
                assert(w =~= a);
            }
            if before {
                assert(w =~= b);
            }
            if w == a {
                assert(forall|k: int| 0 <= k < 11 ==> #[trigger] line@[j + k] == w[k]);
                assert(after);
            }
            if w == b {
                assert(forall|k: int| 0 <= k < 11 ==> #[trigger] line@[j + k] == w[k]);
                assert(before);
            }
        }
        if after || before {
            cost = cost + 40;
        }
        j = j + 1;
    }
    cost
}

fn count_dark(line: &Vec<bool>) -> (dark: usize)
    requires
        line.len() <= 177,
    ensures
        dark == dark_in(line@, line.len() as int),
        dark <= 177,
{
    let mut dark: usize = 0;
    let mut j: usize = 0;
    while j < line.len()
        invariant
            j <= line.len() <= 177,
            dark <= j,
            dark == dark_in(line@, j as int),
        decreases line.len() - j,
    {
        if line[j] {
            dark = dark + 1;
        }
        j = j + 1;
    }
    dark
}

impl Grid {
    fn row_line(&self, i: usize) -> (line: Vec<bool>)
        requires
            self.wf(),
            i < self.size(),
        ensures
            line@ == self@[i as int],
            line.len() == self.size(),
    {
        let size: usize = self.side_len();
        let mut line: Vec<bool> = Vec::new();
        let mut j: usize = 0;
        while j < size
            invariant
                self.wf(),
                size == self.size(),
                i < size,
                j <= size,
                line.len() == j,
                forall|c: int| 0 <= c < j ==> line@[c] == self.dark_at(i as int, c),
            decreases size - j,
        {
            line.push(self.is_dark(i, j));
            j = j + 1;
        }
        assert(line@ =~= self@[i as int]);
        line
    }

    fn column_line(&self, i: usize) -> (line: Vec<bool>)
        requires
            self.wf(),
            i < self.size(),
        ensures
            line@ == column(self@, i as int),
            line.len() == self.size(),
    {
        let size: usize = self.side_len();
        let mut line: Vec<bool> = Vec::new();
        let mut j: usize = 0;
        while j < size
            invariant
                self.wf(),
                size == self.size(),
                i < size,
                j <= size,
                line.len() == j,
                forall|r: int| 0 <= r < j ==> line@[r] == self.dark_at(r, i as int),
            decreases size - j,
        {
            line.push(self.is_dark(j, i));
            j = j + 1;
        }
        assert(line@ =~= column(self@, i as int));
        line
    }

    /// The four penalty rules, lower being better.
    pub fn penalty(&self) -> (score: u32)
        requires
            self.wf(),
        ensures
            score == penalty_of(self@),
    {
        let n: usize = self.side_len();
        let mut runs: u32 = 0;
        let mut blocks: u32 = 0;
        let mut finders: u32 = 0;
        let mut dark: usize = 0;
        let mut i: usize = 0;
        while i < n
            invariant
                self.wf(),
                n == self.size(),
                21 <= n <= 177,
                i <= n,
                runs == rule_runs(self@, i as int),
                runs <= 62_658 * i,
                finders == rule_finders(self@, i as int),
                finders <= 14_160 * i,
                dark == dark_total(self@, i as int),
                dark <= 177 * i,
                blocks == rule_blocks(
                    self@,
                    if i < n {
                        i as int
                    } else {
                        n - 1
                    },
                ),
                blocks <= 531 * i,
            decreases n - i,
        {
            let across: Vec<bool> = self.row_line(i);
            let down: Vec<bool> = self.column_line(i);
            runs = runs + cost_of_runs(&across) + cost_of_runs(&down);
            finders = finders + cost_of_finders(&across) + cost_of_finders(&down);
            dark = dark + count_dark(&across);
            if i + 1 < n {
                let mut cost: u32 = 0;
                let mut c: usize = 0;
                while c < n - 1
                    invariant
                        self.wf(),
                        n == self.size(),
                        21 <= n <= 177,
                        i + 1 < n,
                        c <= n - 1,
                        cost == blocks_cost(self@, i as int, c as int),
                        cost <= 3 * c,
                    decreases n - 1 - c,
                {
                    let v: bool = self.is_dark(i, c);
                    if v == self.is_dark(i, c + 1) && v == self.is_dark(i + 1, c) && v
                        == self.is_dark(i + 1, c + 1) {
                        cost = cost + 3;
                    }
                    c = c + 1;
                }
                blocks = blocks + cost;
            }
            i = i + 1;
        }
        assert(441 <= n * n <= 177 * 177) by (nonlinear_arith)
            requires
                21 <= n <= 177,
        ;
        let percent: usize = dark * 100 / (n * n);
        let stray: usize = if percent >= 50 {
            percent - 50
        } else {
            50 - percent
        };
        proof {
            assert(percent <= dark * 100) by (nonlinear_arith)
                requires
                    percent == dark * 100 / ((n * n) as int),
                    n * n >= 1,
            ;
        }
        runs + blocks + finders + (stray / 5 * 10) as u32
    }
}

} // verus!
