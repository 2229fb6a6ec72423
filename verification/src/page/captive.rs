//! Requests that were not addressed to this machine by any of its own names.

use crate::serve::transfers::address_of;
use crate::text::{
    chars_of, find_char, lower_all, same_ignoring_case, str_view, texts, trim, trimmed,
};
use vstd::prelude::*;
use vstd::slice::slice_subrange;

verus! {

/// Whether a name is one of ours, whatever its case.
pub open spec fn is_ours(ours: Seq<Seq<char>>, name: Seq<char>) -> bool {
    exists|i: int| 0 <= i < ours.len() && lower_all(#[trigger] ours[i]) == lower_all(name)
}

/// Whether a request's host is somebody else's: it names one, and without its
/// port it is none of ours.
pub open spec fn foreign(host: Option<Seq<char>>, ours: Seq<Seq<char>>) -> bool {
    match host {
        None => false,
        Some(h) => {
            let bare = address_of(trimmed(h));
            bare.len() > 0 && !is_ours(ours, bare)
        },
    }
}

/// Is this request a phone's "is there internet?" probe, or anything else that
/// was not addressed to us by our own address?
pub fn is_foreign_host(host: Option<&str>, ours: &Vec<String>) -> (b: bool)
    ensures
        b == foreign(str_view(host), texts(ours@)),
{
    let h: &str = match host {
        None => {
            return false;
        },
        Some(h) => h,
    };
    let chars: Vec<char> = chars_of(h);
    let t: &[char] = trim(chars.as_slice());
    let k: usize = find_char(t, ':');
    let bare: &[char] = slice_subrange(t, 0, k);
    assert(bare@ =~= address_of(trimmed(h@)));
    if bare.len() == 0 {
        return false;
    }
    let mut i: usize = 0;
    while i < ours.len()
        invariant
            host == Some(h),
            bare@ == address_of(trimmed(h@)),
            bare.len() > 0,
            i <= ours.len(),
            forall|j: int| 0 <= j < i ==> lower_all(#[trigger] texts(ours@)[j]) != lower_all(bare@),
        decreases ours.len() - i,
    {
        let o: Vec<char> = chars_of(ours[i].as_str());
        if same_ignoring_case(o.as_slice(), bare) {
            assert(lower_all(texts(ours@)[i as int]) == lower_all(bare@));
            return false;
        }
        i = i + 1;
    }
    true
}

/// A request that names us, in whatever case, with or without a port behind the name and
/// with white space round it, is for us; one that names anybody else is not; and one that
/// names nobody is taken.
pub proof fn law_we_are_known_by_our_names(
    a: Seq<char>,
    name: Seq<char>,
    port: Seq<char>,
    b: Seq<char>,
    ours: Seq<Seq<char>>,
)
    requires
        forall|i: int| 0 <= i < a.len() ==> crate::text::is_space(#[trigger] a[i]),
        forall|i: int| 0 <= i < b.len() ==> crate::text::is_space(#[trigger] b[i]),
        name.len() > 0,
        forall|i: int| 0 <= i < name.len() ==> #[trigger] name[i] != ':',
        !crate::text::is_space(name[0]),
        !crate::text::is_space(name.last()),
        port.len() > 0,
        !crate::text::is_space(port.last()),
    ensures
        ({
            let known = exists|i: int|
                0 <= i < ours.len() && lower_all(#[trigger] ours[i]) == lower_all(name);
            &&& foreign(Some(a + name + b), ours) == !known
            &&& foreign(Some(a + (name + seq![':'] + port) + b), ours) == !known
        }),
        foreign(None, ours) == false,
        foreign(Some(a + b), ours) == false,
{
    assert(!name.contains(':'));
    crate::text::law_a_text_is_cut_where_it_should(name, ':', port);
    crate::text::law_trimming_takes_what_stands_round(a, name, b);
    let with = name + seq![':'] + port;
    assert(with[0] == name[0] && with.last() == port.last());
    crate::text::law_trimming_takes_what_stands_round(a, with, b);
    crate::text::law_trimming_takes_what_stands_round(a, Seq::empty(), b);
    assert(a + Seq::<char>::empty() + b =~= a + b);
    crate::text::law_a_text_is_cut_where_it_should(Seq::empty(), ':', port);
}

} // verus!
