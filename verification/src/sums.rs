//! A fingerprint of each piece of a file.

use crate::fetch::plan::{chunk_count, piece_count};
use crate::fetch::prints::{prints_in, prints_on, with_line, Prints};
use crate::number::{decimal, law_decimal_reads_back, lemma_decimal_not_empty, push_decimal};
use crate::text::{cut, is_space, lemma_char_at_is, lemma_lines_first, lemma_nothing_to_trim, lines};
use vstd::prelude::*;

verus! {

/// How many pieces each of so many workers has.
pub open spec fn span_len(cores: int, chunks: int) -> int {
    (chunks + cores - 1) / cores
}

/// The first piece of a worker.
pub open spec fn span_first(me: int, cores: int, chunks: int) -> int {
    me * span_len(cores, chunks)
}

/// One past the last piece of a worker.
pub open spec fn span_last(me: int, cores: int, chunks: int) -> int {
    let end = (me + 1) * span_len(cores, chunks);
    if end < chunks {
        end
    } else {
        chunks
    }
}

proof fn lemma_span_bound(me: int, cores: int, chunks: int)
    requires
        0 <= me < cores,
        0 <= chunks,
    ensures
        0 <= span_len(cores, chunks),
        0 <= span_first(me, cores, chunks) <= me + chunks,
        span_first(me, cores, chunks) + span_len(cores, chunks) == (me + 1) * span_len(
            cores,
            chunks,
        ),
        (me + 1) * span_len(cores, chunks) <= me + 1 + chunks,
{
    let s = span_len(cores, chunks);
    assert(0 <= s && s * cores <= chunks + cores - 1) by (nonlinear_arith)
        requires
            s == (chunks + cores - 1) / cores,
            cores > 0,
            chunks >= 0,
    ;
    assert(me * s + s == (me + 1) * s) by (nonlinear_arith);
    assert((me + 1) * s <= me + 1 + chunks) by (nonlinear_arith)
        requires
            0 <= s,
            s * cores <= chunks + cores - 1,
            0 <= me < cores,
            chunks >= 0,
    ;
    assert(0 <= me * s) by (nonlinear_arith)
        requires
            0 <= me,
            0 <= s,
    ;
    assert(me * s <= me + chunks) by (nonlinear_arith)
        requires
            0 <= s,
            s * cores <= chunks + cores - 1,
            0 <= me < cores,
            chunks >= 0,
    ;
}

/// The unbroken run of pieces that one of so many workers reads, so that each
/// reads forwards.
pub fn span(me: u32, cores: u32, total: u64) -> (r: (u64, u64))
    requires
        me < cores,
    ensures
        r.0 == span_first(me as int, cores as int, piece_count(total as int)),
        r.1 == span_last(me as int, cores as int, piece_count(total as int)),
{
    let chunks: u64 = chunk_count(total);
    proof {
        lemma_span_bound(me as int, cores as int, chunks as int);
    }
    let each: u64 = (chunks + (cores as u64 - 1)) / cores as u64;
    let first: u64 = me as u64 * each;
    let end: u64 = first + each;
    (first, if end < chunks {
        end
    } else {
        chunks
    })
}

/// Every piece belongs to exactly one worker.
pub proof fn law_spans_cover_every_piece(cores: int, chunks: int, c: int)
    requires
        0 < cores,
        0 <= c < chunks,
    ensures
        ({
            let me = c / span_len(cores, chunks);
            &&& 0 <= me < cores
            &&& span_first(me, cores, chunks) <= c < span_last(me, cores, chunks)
            &&& forall|w: int|
                0 <= w < cores && #[trigger] span_first(w, cores, chunks) <= c < span_last(
                    w,
                    cores,
                    chunks,
                ) ==> w == me
        }),
{
    let s = span_len(cores, chunks);
    let me = c / s;
    assert(s > 0 && s * cores >= chunks) by (nonlinear_arith)
        requires
            s == (chunks + cores - 1) / cores,
            cores > 0,
            chunks > 0,
    ;
    assert(me * s <= c < (me + 1) * s && 0 <= me) by (nonlinear_arith)
        requires
            me == c / s,
            s > 0,
            0 <= c,
    ;
    assert(me < cores) by (nonlinear_arith)
        requires
            me * s <= c,
            c < chunks,
            chunks <= s * cores,
            s > 0,
    ;
    assert forall|w: int|
        0 <= w < cores && #[trigger] span_first(w, cores, chunks) <= c < span_last(
            w,
            cores,
            chunks,
        ) implies w == me by {
        assert(w * s <= c < (w + 1) * s);
        assert(w == me) by (nonlinear_arith)
            requires
                w * s <= c < (w + 1) * s,
                me * s <= c < (me + 1) * s,
                s > 0,
        ;
    }
}

// ------------------------------------------------------------- the list

/// A fingerprint, or a word in its place where there is none.
pub open spec fn print_or_missing(d: Option<String>) -> Seq<char> {
    match d {
        Some(h) => h@,
        None => "MISSING"@,
    }
}

/// The lines of the first `n` fingerprints, each behind its piece's number.
pub open spec fn print_lines(ds: Seq<Option<String>>, n: int) -> Seq<char>
    decreases n,
{
    if n <= 0 {
        Seq::empty()
    } else {
        print_lines(ds, n - 1) + decimal(n - 1) + seq![' '] + print_or_missing(ds[n - 1]) + seq![
            '\n',
        ]
    }
}

/// The list of a file's fingerprints: two remarks, then a line for each piece.
pub open spec fn sums_list(total: int, ds: Seq<Option<String>>) -> Seq<char> {
    "# chunk-size 2097152\n# total "@ + decimal(total) + seq!['\n'] + print_lines(
        ds,
        ds.len() as int,
    )
}

/// The list of a file's fingerprints.
pub fn sums_text(total: u64, ds: &Vec<Option<String>>) -> (s: String)
    ensures
        s@ == sums_list(total as int, ds@),
{
    let mut s = String::new();
    s.append("# chunk-size 2097152\n# total ");
    push_decimal(&mut s, total);
    s.push('\n');
    let ghost head = s@;
    let mut i: usize = 0;
    assert(s@ =~= head + print_lines(ds@, 0));
    while i < ds.len()
        invariant
            i <= ds.len(),
            s@ == head + print_lines(ds@, i as int),
        decreases ds.len() - i,
    {
        push_decimal(&mut s, i as u64);
        s.push(' ');
        match &ds[i] {
            Some(h) => s.append(h.as_str()),
            None => s.append("MISSING"),
        }
        s.push('\n');
        i = i + 1;
        assert(s@ =~= head + print_lines(ds@, i as int));
    }
    assert(s@ =~= sums_list(total as int, ds@));
    s
}

spec fn print_line(ds: Seq<Option<String>>, i: int) -> Seq<char> {
    decimal(i) + seq![' '] + print_or_missing(ds[i])
}

spec fn all_lines(ds: Seq<Option<String>>, n: int) -> Seq<Seq<char>> {
    Seq::new(n as nat, |i: int| print_line(ds, i))
}

spec fn unspaced(s: Seq<char>) -> bool {
    forall|i: int| 0 <= i < s.len() ==> !is_space(#[trigger] s[i])
}

proof fn lemma_print_line(ds: Seq<Option<String>>, i: int)
    requires
        0 <= i < ds.len(),
        unspaced(print_or_missing(ds[i])),
    ensures
        forall|k: int| 0 <= k < print_line(ds, i).len() ==> #[trigger] print_line(ds, i)[k] != '\n',
        crate::text::without_cr(print_line(ds, i)) == print_line(ds, i),
        i <= u64::MAX ==> forall|m: Prints|
            with_line(m, #[trigger] print_line(ds, i)) == #[trigger] m.insert(
                i as u64,
                print_or_missing(ds[i]),
            ),
{
    let h = print_or_missing(ds[i]);
    let d = decimal(i);
    let line = print_line(ds, i);
    law_decimal_reads_back(i, i);
    lemma_decimal_not_empty(i);
    assert forall|k: int| 0 <= k < line.len() implies #[trigger] line[k] != '\n' by {
        if k < d.len() {
            assert(line[k] == d[k]);
        } else if k > d.len() {
            assert(line[k] == h[k - d.len() - 1]);
        }
    }
    if h.len() > 0 {
        assert(line.last() == h.last());
    } else {
        assert(line.last() == ' ');
    }
    if i <= u64::MAX {
        law_decimal_reads_back(i, u64::MAX as int);
        assert(line[0] == d[0]);
        assert forall|k: int| 0 <= k < d.len() implies line[k] != ' ' by {
            assert(line[k] == d[k]);
        }
        lemma_char_at_is(line, ' ', d.len() as int);
        assert(line.take(d.len() as int) =~= d);
        assert(line.skip(d.len() as int + 1) =~= h);
        lemma_nothing_to_trim(h);
        assert(cut(line, ' ') == Some((d, h)));
    }
}

proof fn lemma_lines_of_prints(ds: Seq<Option<String>>, n: int, rest: Seq<char>)
    requires
        0 <= n <= ds.len(),
        forall|i: int| 0 <= i < ds.len() ==> unspaced(print_or_missing(#[trigger] ds[i])),
    ensures
        lines(print_lines(ds, n) + rest) == all_lines(ds, n) + lines(rest),
    decreases n,
{
    if n == 0 {
        assert(print_lines(ds, n) + rest =~= rest);
        assert(all_lines(ds, n) + lines(rest) =~= lines(rest));
    } else {
        let line = print_line(ds, n - 1);
        lemma_print_line(ds, n - 1);
        lemma_lines_first(line, rest);
        lemma_lines_of_prints(ds, n - 1, line + seq!['\n'] + rest);
        assert(print_lines(ds, n) + rest =~= print_lines(ds, n - 1) + (line + seq!['\n'] + rest));
        assert(all_lines(ds, n - 1) + (seq![line] + lines(rest)) =~= all_lines(ds, n) + lines(rest));
    }
}

/// The fingerprints of pieces `0` to `n - 1`, by piece.
pub open spec fn first_prints(ds: Seq<Option<String>>, n: int) -> Prints {
    Map::new(|c: u64| c < n, |c: u64| print_or_missing(ds[c as int]))
}

proof fn lemma_prints_on(ds: Seq<Option<String>>, n: int, head: Seq<Seq<char>>)
    requires
        0 <= n <= ds.len() <= u64::MAX,
        prints_on(head) == Map::<u64, Seq<char>>::empty(),
        forall|i: int| 0 <= i < ds.len() ==> unspaced(print_or_missing(#[trigger] ds[i])),
    ensures
        prints_on(head + all_lines(ds, n)) == first_prints(ds, n),
    decreases n,
{
    let ls = head + all_lines(ds, n);
    if n == 0 {
        assert(ls =~= head);
        assert(first_prints(ds, n) =~= Map::<u64, Seq<char>>::empty());
    } else {
        lemma_prints_on(ds, n - 1, head);
        lemma_print_line(ds, n - 1);
        assert(ls.drop_last() =~= head + all_lines(ds, n - 1));
        assert(ls.last() == print_line(ds, n - 1));
        let m = first_prints(ds, n - 1);
        assert(with_line(m, print_line(ds, n - 1)) == m.insert(
            (n - 1) as u64,
            print_or_missing(ds[n - 1]),
        ));
        assert(first_prints(ds, n) =~= m.insert((n - 1) as u64, print_or_missing(ds[n - 1])));
    }
}

/// A list of fingerprints is read back as it was written: each piece with its
/// own, and nothing else.
pub proof fn law_list_reads_back(total: int, ds: Seq<Option<String>>)
    requires
        0 <= total,
        ds.len() <= u64::MAX,
        forall|i: int, k: int|
            0 <= i < ds.len() && 0 <= k < print_or_missing(ds[i]).len() ==> !is_space(
                #[trigger] print_or_missing(ds[i])[k],
            ),
    ensures
        prints_in(sums_list(total, ds)) == first_prints(ds, ds.len() as int),
{
    assert forall|i: int| 0 <= i < ds.len() implies unspaced(
        print_or_missing(#[trigger] ds[i]),
    ) by {}
    let n = ds.len() as int;
    let body = print_lines(ds, n);
    reveal_strlit("# chunk-size 2097152\n# total ");
    reveal_strlit("# chunk-size 2097152");
    reveal_strlit("# total ");
    let one = "# chunk-size 2097152"@;
    let two = "# total "@ + decimal(total);
    law_decimal_reads_back(total, total);
    lemma_decimal_not_empty(total);
    assert forall|k: int| 0 <= k < two.len() implies #[trigger] two[k] != '\n' by {
        if k >= 8 {
            assert(two[k] == decimal(total)[k - 8]);
        }
    }
    assert(two.last() == decimal(total).last());
    assert("# chunk-size 2097152\n# total "@ =~= one + seq!['\n'] + "# total "@);
    assert(sums_list(total, ds) =~= one + seq!['\n'] + (two + seq!['\n'] + body));
    lemma_lines_first(one, two + seq!['\n'] + body);
    lemma_lines_first(two, body);
    lemma_lines_of_prints(ds, n, Seq::empty());
    assert(body + Seq::<char>::empty() =~= body);
    assert(lines(Seq::<char>::empty()) =~= Seq::empty());
    let head = seq![one, two];
    assert(lines(sums_list(total, ds)) =~= head + all_lines(ds, n));
    assert(head.drop_last() =~= seq![one]);
    assert(seq![one].drop_last() =~= Seq::empty());
    assert(prints_on(seq![one].drop_last()) == Map::<u64, Seq<char>>::empty());
    assert(prints_on(seq![one]) == Map::<u64, Seq<char>>::empty());
    assert(prints_on(head) == Map::<u64, Seq<char>>::empty());
    lemma_prints_on(ds, n, head);
}

/// What to do about what was typed.
#[derive(Clone, Copy, Debug, PartialEq, Eq, Structural)]
pub enum Asked {
    /// Nothing was asked for: say how it works, and fail.
    Usage,
    Help,
    /// Every argument after the first is a file.
    Files,
}

/// Read what was typed.
pub fn asked(args: &Vec<String>) -> (a: Asked)
    ensures
        a == (if args.len() < 2 {
            Asked::Usage
        } else if args@[1]@ == "-h"@ || args@[1]@ == "--help"@ {
            Asked::Help
        } else {
            Asked::Files
        }),
{
    if args.len() < 2 {
        Asked::Usage
    } else if crate::text::same_text(args[1].as_str(), "-h") || crate::text::same_text(
        args[1].as_str(),
        "--help",
    ) {
        Asked::Help
    } else {
        Asked::Files
    }
}

} // verus!
