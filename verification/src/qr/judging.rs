//! That masks are judged by what the standard counts against them.

use super::penalty::{
    blocks_cost, column, dark_in, dark_total, finder_like, finders_cost, penalty_of, rule_balance,
    rule_blocks, rule_finders, rule_runs, run_at, run_ends, runs_cost,
};
use vstd::prelude::*;

verus! {

// ------------------------------------------------------------- runs

proof fn lemma_one_run(line: Seq<bool>, j: int)
    requires
        0 <= j < line.len(),
        forall|i: int| 0 <= i < line.len() ==> #[trigger] line[i] == line[0],
    ensures
        run_at(line, j) == j + 1,
        runs_cost(line, j) == 0,
    decreases j,
{
    if j > 0 {
        lemma_one_run(line, j - 1);
        assert(line[j] == line[0] && line[j - 1] == line[0]);
    }
}

/// A line of one colour costs nothing below five modules, three at five, and one more for
/// each module beyond.
pub proof fn law_a_run_costs_by_its_length(line: Seq<bool>)
    requires
        line.len() > 0,
        forall|i: int| 0 <= i < line.len() ==> #[trigger] line[i] == line[0],
    ensures
        line.len() < 5 ==> runs_cost(line, line.len() as int) == 0,
        line.len() == 5 ==> runs_cost(line, line.len() as int) == 3,
        line.len() > 5 ==> runs_cost(line, line.len() as int) == line.len() - 2,
{
    lemma_one_run(line, line.len() - 1);
}

proof fn lemma_front_runs(a: Seq<bool>, b: Seq<bool>, j: int)
    requires
        0 <= j <= a.len(),
        a.len() > 0 && b.len() > 0,
        a.last() != b[0],
    ensures
        runs_cost(a + b, j) == runs_cost(a, j),
        j < a.len() ==> run_at(a + b, j) == run_at(a, j),
    decreases j,
{
    let s = a + b;
    if j > 0 {
        lemma_front_runs(a, b, j - 1);
        assert(s[j - 1] == a[j - 1]);
        if j < a.len() {
            assert(s[j] == a[j]);
        } else {
            assert(s[j] == b[0]);
        }
    }
}

proof fn lemma_back_runs(a: Seq<bool>, b: Seq<bool>, j: int)
    requires
        0 <= j <= b.len(),
        a.len() > 0 && b.len() > 0,
        a.last() != b[0],
    ensures
        runs_cost(a + b, a.len() + j) == runs_cost(a, a.len() as int) + runs_cost(b, j),
        j < b.len() ==> run_at(a + b, a.len() + j) == run_at(b, j),
    decreases j,
{
    let s = a + b;
    if j == 0 {
        lemma_front_runs(a, b, a.len() as int);
        assert(s[a.len() as int] == b[0]);
        assert(s[a.len() - 1] == a.last());
    } else {
        lemma_back_runs(a, b, j - 1);
        assert(s[a.len() + j - 1] == b[j - 1]);
        if j < b.len() {
            assert(s[a.len() + j] == b[j]);
        }
    }
}

/// Where the colour changes, one run ends and another begins: the two parts of a line cost
/// what each costs by itself.
pub proof fn law_runs_end_where_the_colour_changes(a: Seq<bool>, b: Seq<bool>)
    requires
        a.len() > 0,
        b.len() > 0,
        a.last() != b[0],
    ensures
        runs_cost(a + b, (a + b).len() as int) == runs_cost(a, a.len() as int) + runs_cost(
            b,
            b.len() as int,
        ),
{
    lemma_back_runs(a, b, b.len() as int);
}

// ------------------------------------------------------------- blocks and finders

/// Each block of two by two modules of one colour costs three, and no other costs anything.
pub proof fn law_a_block_of_one_colour_costs_three(m: Seq<Seq<bool>>, r: int, c: int)
    requires
        0 <= r,
        0 <= c,
    ensures
        ({
            let dark = m[r][c] && m[r][c + 1] && m[r + 1][c] && m[r + 1][c + 1];
            let light = !m[r][c] && !m[r][c + 1] && !m[r + 1][c] && !m[r + 1][c + 1];
            &&& dark || light ==> blocks_cost(m, r, c + 1) == blocks_cost(m, r, c) + 3
            &&& !dark && !light ==> blocks_cost(m, r, c + 1) == blocks_cost(m, r, c)
        }),
        blocks_cost(m, r, 0) == 0,
        rule_blocks(m, 0) == 0,
        rule_blocks(m, r + 1) == rule_blocks(m, r) + blocks_cost(m, r, m.len() - 1),
{
}

/// Each place where a line looks like a finder costs forty: dark and light as one, one,
/// three, one and one, with four light modules behind it or before it.
pub proof fn law_what_looks_like_a_finder_costs_forty(line: Seq<bool>, j: int)
    requires
        0 <= j,
        j + 11 <= line.len(),
    ensures
        ({
            let at = |k: int|
                line[j + k] && !line[j + k + 1] && line[j + k + 2] && line[j + k + 3] && line[j + k + 4]
                    && !line[j + k + 5] && line[j + k + 6];
            let quiet = |k: int|
                !line[j + k] && !line[j + k + 1] && !line[j + k + 2] && !line[j + k + 3];
            let alike = (at(0) && quiet(7)) || (quiet(0) && at(4));
            &&& alike ==> finders_cost(line, j + 1) == finders_cost(line, j) + 40
            &&& !alike ==> finders_cost(line, j + 1) == finders_cost(line, j)
        }),
        finders_cost(line, 0) == 0,
{
    let w = line.subrange(j, j + 11);
    let after = seq![true, false, true, true, true, false, true, false, false, false, false];
    let before = seq![false, false, false, false, true, false, true, true, true, false, true];
    let at = |k: int|
        line[j + k] && !line[j + k + 1] && line[j + k + 2] && line[j + k + 3] && line[j + k + 4]
            && !line[j + k + 5] && line[j + k + 6];
    let quiet = |k: int|
        !line[j + k] && !line[j + k + 1] && !line[j + k + 2] && !line[j + k + 3];
    assert forall|k: int| 0 <= k < 11 implies #[trigger] w[k] == line[j + k] by {}
    if at(0) && quiet(7) {
        assert(w =~= after);
    }
    if quiet(0) && at(4) {
        assert(w =~= before);
    }
    if w == after {
        assert(w[0] && !w[1] && w[2] && w[3] && w[4] && !w[5] && w[6] && !w[7] && !w[8] && !w[9]
            && !w[10]);
    }
    if w == before {
        assert(!w[0] && !w[1] && !w[2] && !w[3] && w[4] && !w[5] && w[6] && w[7] && w[8] && !w[9]
            && w[10]);
    }
}

// ------------------------------------------------------------- balance

/// As many dark as light modules cost nothing, nor does a share that strays by less than
/// five whole percent; from there on it is ten for each five.
pub proof fn law_balance_costs_ten_for_each_five_percent(m: Seq<Seq<bool>>, percent: int)
    requires
        percent == dark_total(m, m.len() as int) * 100 / (m.len() * m.len()) as int,
        0 <= percent <= 100,
    ensures
        46 <= percent <= 54 ==> rule_balance(m) == 0,
        55 <= percent <= 59 || 41 <= percent <= 45 ==> rule_balance(m) == 10,
        60 <= percent <= 64 || 36 <= percent <= 40 ==> rule_balance(m) == 20,
        percent == 100 || percent == 0 ==> rule_balance(m) == 100,
{
}

/// Dark modules are counted one by one, row by row.
pub proof fn law_dark_modules_are_counted(m: Seq<Seq<bool>>, line: Seq<bool>, r: int, j: int)
    requires
        0 <= r,
        0 <= j,
    ensures
        dark_in(line, 0) == 0,
        line[j] ==> dark_in(line, j + 1) == dark_in(line, j) + 1,
        !line[j] ==> dark_in(line, j + 1) == dark_in(line, j),
        dark_total(m, 0) == 0,
        dark_total(m, r + 1) == dark_total(m, r) + dark_in(m[r], m.len() as int),
{
}

// ------------------------------------------------------------- all of it

/// All four rules count, and the first and the third over every row and every column: the
/// cost of a symbol is what these add up to.
pub proof fn law_every_rule_counts(m: Seq<Seq<bool>>, k: int)
    requires
        0 <= k,
    ensures
        penalty_of(m) == rule_runs(m, m.len() as int) + rule_blocks(m, m.len() - 1) + rule_finders(
            m,
            m.len() as int,
        ) + rule_balance(m),
        rule_runs(m, 0) == 0 && rule_finders(m, 0) == 0,
        rule_runs(m, k + 1) == rule_runs(m, k) + runs_cost(m[k], m.len() as int) + runs_cost(
            column(m, k),
            m.len() as int,
        ),
        rule_finders(m, k + 1) == rule_finders(m, k) + finders_cost(m[k], m.len() - 10)
            + finders_cost(column(m, k), m.len() - 10),
{
}

/// A square of modules with its rows and columns exchanged.
pub open spec fn turned(m: Seq<Seq<bool>>) -> Seq<Seq<bool>> {
    Seq::new(m.len(), |i: int| Seq::new(m.len(), |j: int| m[j][i]))
}

/// What is counted along rows is counted along columns alike: a symbol with the two
/// exchanged costs the same by both rules.
pub proof fn law_rows_and_columns_count_alike(m: Seq<Seq<bool>>, k: int)
    requires
        0 <= k <= m.len(),
        forall|i: int| 0 <= i < m.len() ==> (#[trigger] m[i]).len() == m.len(),
    ensures
        rule_runs(turned(m), k) == rule_runs(m, k),
        rule_finders(turned(m), k) == rule_finders(m, k),
    decreases k,
{
    if k > 0 {
        law_rows_and_columns_count_alike(m, k - 1);
        let t = turned(m);
        assert(m[k - 1].len() == m.len());
        assert(t[k - 1] =~= column(m, k - 1));
        assert(column(t, k - 1) =~= m[k - 1]);
    }
}

} // verus!
