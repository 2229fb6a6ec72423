//! Names for folders that belong to one use and to nothing else.
//!
//! A name carries the moment it was made and a running number as well as the number
//! of the process: the system hands process numbers out again, and quickly.

use crate::number::{decimal, law_decimal_reads_back, push_decimal};
use crate::page::html::{hex_number, hex_number_chars};
use crate::text::{begins_with, chars_of, push_chars, starts_with_text};
use vstd::prelude::*;

verus! {

/// How many names have been given.
pub struct Scratches {
    pub made: u64,
}

/// What stands before the running number.
pub open spec fn before_number(tag: Seq<char>, process: int, nanos: int) -> Seq<char> {
    "hub-test-"@ + tag + seq!['-'] + decimal(process) + seq!['-'] + hex_number(nanos)
}

/// A name.
pub open spec fn scratch_name(tag: Seq<char>, process: int, nanos: int, n: int) -> Seq<char> {
    before_number(tag, process, nanos) + seq!['-'] + decimal(n)
}

impl Scratches {
    /// No name has been given yet.
    pub fn new() -> (s: Scratches)
        ensures
            s.made == 0,
    {
        Scratches { made: 0 }
    }

    /// A name that no other call gives. The tag is there to make a failure readable:
    /// that the names differ does not rest on it.
    pub fn scratch(&mut self, tag: &str, process: u32, nanos: u64) -> (name: String)
        requires
            old(self).made < u64::MAX,
        ensures
            name@ == scratch_name(tag@, process as int, nanos as int, old(self).made as int),
            final(self).made == old(self).made + 1,
    {
        let mut s = String::new();
        s.append("hub-test-");
        s.append(tag);
        s.push('-');
        push_decimal(&mut s, process as u64);
        s.push('-');
        let h: Vec<char> = hex_number_chars(nanos);
        push_chars(&mut s, h.as_slice());
        s.push('-');
        push_decimal(&mut s, self.made);
        assert(s@ =~= scratch_name(tag@, process as int, nanos as int, self.made as int));
        self.made = self.made + 1;
        s
    }
}

/// Two names with different numbers are never the same, whatever else they share.
pub proof fn law_two_scratches_differ(
    tag: Seq<char>,
    process: int,
    nanos: int,
    n: int,
    tag2: Seq<char>,
    process2: int,
    nanos2: int,
    m: int,
)
    requires
        0 <= n,
        0 <= m,
        n != m,
    ensures
        scratch_name(tag, process, nanos, n) != scratch_name(tag2, process2, nanos2, m),
{
    let a = scratch_name(tag, process, nanos, n);
    let b = scratch_name(tag2, process2, nanos2, m);
    let x = decimal(n);
    let y = decimal(m);
    let max = n + m;
    law_decimal_reads_back(n, max);
    law_decimal_reads_back(m, max);
    if a == b {
        let len = a.len();
        assert(a[len - 1 - x.len()] == '-');
        assert(b[len - 1 - y.len()] == '-');
        if x.len() < y.len() {
            assert(b[len - 1 - x.len()] == y[y.len() - 1 - x.len()]);
        } else if y.len() < x.len() {
            assert(a[len - 1 - y.len()] == x[x.len() - 1 - y.len()]);
        } else {
            assert forall|i: int| 0 <= i < x.len() implies x[i] == y[i] by {
                assert(a[len - x.len() + i] == x[i]);
                assert(b[len - y.len() + i] == y[i]);
            }
            assert(x =~= y);
        }
    }
}

/// Whether a folder was made for such a use, under this or an older name.
pub open spec fn is_ours(name: Seq<char>) -> bool {
    ||| begins_with(name, "hub-test-"@)
    ||| begins_with(name, "hub-page-test-"@)
    ||| begins_with(name, "hub-block-test-"@)
    ||| begins_with(name, "hub-walk-"@)
    ||| begins_with(name, "hub-tab-test-"@)
    ||| begins_with(name, "hub-zip-"@)
}

/// How many seconds a folder is left alone.
pub const LEFT_ALONE: u64 = 3600;

/// Whether a folder is swept: one of these, and not touched for an hour, so that a
/// run that is still going on is left alone.
pub fn swept(name: &str, touched: u64, now: u64) -> (r: bool)
    ensures
        r == (is_ours(name@) && touched + LEFT_ALONE < now),
{
    let c: Vec<char> = chars_of(name);
    let ours: bool = starts_with_text(c.as_slice(), "hub-test-") || starts_with_text(
        c.as_slice(),
        "hub-page-test-",
    ) || starts_with_text(c.as_slice(), "hub-block-test-") || starts_with_text(
        c.as_slice(),
        "hub-walk-",
    ) || starts_with_text(c.as_slice(), "hub-tab-test-") || starts_with_text(
        c.as_slice(),
        "hub-zip-",
    );
    ours && now > touched && now - touched > LEFT_ALONE
}

/// A folder that was made here is known as such by its name, and stays for an hour after it
/// was last touched.
pub proof fn law_our_own_folders_are_known(tag: Seq<char>, process: int, nanos: int, n: int)
    ensures
        is_ours(scratch_name(tag, process, nanos, n)),
        LEFT_ALONE == 60 * 60,
{
    let p = "hub-test-"@;
    let s = scratch_name(tag, process, nanos, n);
    assert(s.subrange(0, p.len() as int) =~= p);
}

} // verus!
