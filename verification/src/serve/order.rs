//! The order of file names.

use vstd::prelude::*;
use vstd::utf8::encode_utf8;

verus! {

/// Whether some bytes come before others: by the first byte that differs, and the shorter
/// first where none does.
pub open spec fn bytes_before(a: Seq<u8>, b: Seq<u8>) -> bool
    decreases a.len(),
{
    if b.len() == 0 {
        false
    } else if a.len() == 0 {
        true
    } else if a[0] != b[0] {
        a[0] < b[0]
    } else {
        bytes_before(a.skip(1), b.skip(1))
    }
}

/// Whether one name comes before another, as file names are ordered: by their bytes.
pub open spec fn name_before(a: Seq<char>, b: Seq<char>) -> bool {
    bytes_before(encode_utf8(a), encode_utf8(b))
}

/// Whether one name comes before another.
pub fn is_before(a: &str, b: &str) -> (r: bool)
    ensures
        r == name_before(a@, b@),
{
    let x: &[u8] = a.as_bytes();
    let y: &[u8] = b.as_bytes();
    let mut i: usize = 0;
    assert(x@.skip(0) =~= x@);
    assert(y@.skip(0) =~= y@);
    while i < x.len() && i < y.len() && x[i] == y[i]
        invariant
            i <= x.len(),
            i <= y.len(),
            bytes_before(x@, y@) == bytes_before(x@.skip(i as int), y@.skip(i as int)),
        decreases x.len() - i,
    {
        assert(x@.skip(i as int).skip(1) =~= x@.skip(i + 1));
        assert(y@.skip(i as int).skip(1) =~= y@.skip(i + 1));
        i = i + 1;
    }
    if i >= y.len() {
        false
    } else if i >= x.len() {
        true
    } else {
        x[i] < y[i]
    }
}

proof fn lemma_one_way(a: Seq<u8>, b: Seq<u8>)
    ensures
        !(bytes_before(a, b) && bytes_before(b, a)),
    decreases a.len(),
{
    if a.len() > 0 && b.len() > 0 {
        lemma_one_way(a.skip(1), b.skip(1));
    }
}

proof fn lemma_never_after(a: Seq<u8>, b: Seq<u8>, c: Seq<u8>)
    requires
        !bytes_before(b, a),
        !bytes_before(c, b),
    ensures
        !bytes_before(c, a),
    decreases a.len(),
{
    if a.len() > 0 && b.len() > 0 && c.len() > 0 && a[0] == b[0] && b[0] == c[0] {
        lemma_never_after(a.skip(1), b.skip(1), c.skip(1));
    }
}

/// Where something belongs in an ordered list: behind all that do not come after it.
pub open spec fn place_for<A>(list: Seq<(Seq<char>, A)>, name: Seq<char>) -> int
    decreases list.len(),
{
    if list.len() == 0 {
        0
    } else if !name_before(name, list.last().0) {
        list.len() as int
    } else {
        place_for(list.drop_last(), name)
    }
}

/// A list in the order of its names, those of one name as they were.
pub open spec fn by_name<A>(list: Seq<(Seq<char>, A)>) -> Seq<(Seq<char>, A)>
    decreases list.len(),
{
    if list.len() == 0 {
        list
    } else {
        let before = by_name(list.drop_last());
        before.insert(place_for(before, list.last().0), list.last())
    }
}

/// Whether no name of a list stands behind one that it comes before.
pub open spec fn in_name_order<A>(list: Seq<(Seq<char>, A)>) -> bool {
    forall|i: int, j: int|
        0 <= i < j < list.len() ==> !name_before((#[trigger] list[j]).0, (#[trigger] list[i]).0)
}

/// What a list of names and what belongs to them holds.
pub open spec fn named_of<A>(v: Seq<(String, A)>) -> Seq<(Seq<char>, A)> {
    Seq::new(v.len(), |i: int| (v[i].0@, v[i].1))
}

/// Put something into an ordered list, at the place of its name.
pub fn put_by_name<A>(list: &mut Vec<(String, A)>, name: String, x: A)
    ensures
        named_of(final(list)@) == named_of(old(list)@).insert(
            place_for(named_of(old(list)@), name@),
            (name@, x),
        ),
{
    let ghost all = named_of(list@);
    let mut p: usize = list.len();
    assert(all.take(p as int) =~= all);
    while p > 0 && is_before(name.as_str(), list[p - 1].0.as_str())
        invariant
            p <= list.len(),
            *list == *old(list),
            all == named_of(list@),
            place_for(all, name@) == place_for(all.take(p as int), name@),
        decreases p,
    {
        assert(all.take(p as int).drop_last() =~= all.take(p - 1));
        assert(all.take(p as int).last() == all[p - 1]);
        p = p - 1;
    }
    proof {
        if p > 0 {
            assert(all.take(p as int).last() == all[p - 1]);
        }
    }
    let ghost before = list@;
    let ghost pair = (name@, x);
    list.insert(p, (name, x));
    assert(named_of(list@) =~= named_of(before).insert(p as int, pair));
}

proof fn lemma_place_for<A>(list: Seq<(Seq<char>, A)>, name: Seq<char>)
    requires
        in_name_order(list),
    ensures
        0 <= place_for(list, name) <= list.len(),
        forall|i: int|
            0 <= i < place_for(list, name) ==> !name_before(name, (#[trigger] list[i]).0),
        forall|i: int|
            place_for(list, name) <= i < list.len() ==> name_before(name, (#[trigger] list[i]).0),
    decreases list.len(),
{
    if list.len() > 0 {
        let last = list[list.len() - 1];
        if name_before(name, last.0) {
            let head = list.drop_last();
            assert forall|i: int, j: int| 0 <= i < j < head.len() implies !name_before(
                (#[trigger] head[j]).0,
                (#[trigger] head[i]).0,
            ) by {
                assert(!name_before(list[j].0, list[i].0));
            }
            lemma_place_for(head, name);
            assert forall|i: int| place_for(list, name) <= i < list.len() implies name_before(
                name,
                (#[trigger] list[i]).0,
            ) by {
                if i < head.len() {
                    assert(head[i] == list[i]);
                }
            }
            assert forall|i: int| 0 <= i < place_for(list, name) implies !name_before(
                name,
                (#[trigger] list[i]).0,
            ) by {
                assert(head[i] == list[i]);
            }
        } else {
            assert forall|i: int| 0 <= i < list.len() implies !name_before(
                name,
                (#[trigger] list[i]).0,
            ) by {
                if i < list.len() - 1 {
                    assert(!name_before(list[list.len() - 1].0, list[i].0));
                    lemma_never_after(
                        encode_utf8(list[i].0),
                        encode_utf8(last.0),
                        encode_utf8(name),
                    );
                }
            }
        }
    }
}

/// A list that was put in the order of its names is in that order, and holds the same.
pub proof fn law_names_are_in_order<A>(list: Seq<(Seq<char>, A)>)
    ensures
        by_name(list).to_multiset() == list.to_multiset(),
        by_name(list).len() == list.len(),
        in_name_order(by_name(list)),
    decreases list.len(),
{
    broadcast use vstd::seq_lib::group_to_multiset_ensures;

    if list.len() > 0 {
        let g = list.last();
        law_names_are_in_order(list.drop_last());
        let before = by_name(list.drop_last());
        let p = place_for(before, g.0);
        lemma_place_for(before, g.0);
        let after = before.insert(p, g);
        assert(list =~= list.drop_last().push(g));
        assert(after.to_multiset() =~= before.to_multiset().insert(g));
        assert forall|i: int, j: int| 0 <= i < j < after.len() implies !name_before(
            (#[trigger] after[j]).0,
            (#[trigger] after[i]).0,
        ) by {
            let x = if i < p {
                i
            } else {
                i - 1
            };
            let y = if j < p {
                j
            } else {
                j - 1
            };
            if i != p && j != p {
                assert(after[i] == before[x] && after[j] == before[y]);
            } else if i == p {
                assert(after[j] == before[y]);
                lemma_one_way(encode_utf8(before[y].0), encode_utf8(g.0));
            } else {
                assert(after[i] == before[x]);
            }
        }
    }
}

/// What stands in a list stands in it once it is in order, and nothing else does.
pub proof fn lemma_same_names<A>(list: Seq<(Seq<char>, A)>, x: (Seq<char>, A))
    ensures
        by_name(list).contains(x) == list.contains(x),
{
    broadcast use vstd::seq_lib::group_to_multiset_ensures;

    law_names_are_in_order(list);
    assert(by_name(list).contains(x) <==> by_name(list).to_multiset().count(x) > 0);
    assert(list.contains(x) <==> list.to_multiset().count(x) > 0);
}

} // verus!
