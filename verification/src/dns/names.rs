//! Names as they stand in a message: labels, each behind its length, up to a
//! zero; or a pointer to where the rest stands.

use crate::bytes::{lossy, lossy_text, push_bytes};
use crate::text::{
    char_at, lemma_char_at, lemma_char_at_is, pieces, split_char, string_of, text_view, views,
};
use vstd::prelude::*;
use vstd::slice::slice_subrange;
use vstd::utf8::{encode_utf8, encode_utf8_decode_utf8, encode_utf8_valid_utf8};

verus! {

/// Two bytes as a number, the more significant first.
pub open spec fn be16(msg: Seq<u8>, i: int) -> int {
    msg[i] * 256 + msg[i + 1]
}

/// Two bytes as a number, the more significant first.
pub fn word_at(msg: &[u8], i: usize) -> (n: u16)
    requires
        i + 1 < msg.len(),
    ensures
        n == be16(msg@, i as int),
{
    msg[i] as u16 * 256 + msg[i + 1] as u16
}

/// Where the name at `pos` ends, itself or with a pointer; nothing where it does
/// not end inside the message.
pub open spec fn name_end(msg: Seq<u8>, pos: int) -> Option<int>
    decreases msg.len() - pos,
{
    if pos < 0 || pos >= msg.len() {
        None
    } else if msg[pos] >= 192 {
        if pos + 2 <= msg.len() {
            Some(pos + 2)
        } else {
            None
        }
    } else if msg[pos] == 0 {
        Some(pos + 1)
    } else if pos + 1 + msg[pos] > msg.len() {
        None
    } else {
        name_end(msg, pos + 1 + msg[pos])
    }
}

/// Step over a name.
pub fn skip_name(msg: &[u8], from: usize) -> (r: Option<usize>)
    ensures
        r matches Some(e) ==> name_end(msg@, from as int) == Some(e as int) && from < e
            <= msg.len(),
        r is None ==> name_end(msg@, from as int) is None,
{
    let mut pos: usize = from;
    while pos < msg.len()
        invariant
            from <= pos,
            pos <= msg.len() || pos == from,
            name_end(msg@, from as int) == name_end(msg@, pos as int),
        decreases msg.len() - pos,
    {
        let len: u8 = msg[pos];
        if len >= 192 {
            if msg.len() - pos >= 2 {
                return Some(pos + 2);
            }
            return None;
        }
        if len == 0 {
            return Some(pos + 1);
        }
        if len as usize > msg.len() - pos - 1 {
            return None;
        }
        pos = pos + 1 + len as usize;
    }
    None
}

/// A text with one more label behind it.
pub open spec fn with_label(out: Seq<char>, label: Seq<char>) -> Seq<char> {
    if out.len() > 0 {
        out.push('.') + label
    } else {
        label
    }
}

/// A text with the rest of a name behind it.
pub open spec fn with_rest(out: Seq<char>, rest: Seq<char>) -> Seq<char> {
    if rest.len() > 0 {
        with_label(out, rest)
    } else {
        out
    }
}

/// How many pointers may be followed in one name.
pub const MAX_DEPTH: u8 = 8;

/// The name at `pos`, behind what was already read of it. A pointer must point
/// backwards and at most so many are followed, so that a name that points at
/// itself is no name.
pub open spec fn name_from(msg: Seq<u8>, pos: int, depth: int, out: Seq<char>) -> Option<Seq<char>>
    decreases MAX_DEPTH + 1 - depth, msg.len() - pos,
{
    if depth > MAX_DEPTH || pos < 0 || pos >= msg.len() {
        None
    } else if msg[pos] >= 192 {
        let target = (msg[pos] - 192) * 256 + msg[pos + 1];
        if pos + 1 >= msg.len() || target >= pos {
            None
        } else {
            match name_from(msg, target, depth + 1, Seq::empty()) {
                Some(rest) => Some(with_rest(out, rest)),
                None => None,
            }
        }
    } else if msg[pos] == 0 {
        Some(out)
    } else {
        let end = pos + 1 + msg[pos];
        if end > msg.len() {
            None
        } else {
            name_from(msg, end, depth, with_label(out, lossy(msg.subrange(pos + 1, end))))
        }
    }
}

/// Append a label to a name.
pub fn push_label(out: &mut String, label: &str)
    ensures
        final(out)@ == with_label(old(out)@, label@),
{
    let ghost start = out@;
    if !out.as_str().is_empty() {
        out.push('.');
    }
    proof {
        if start.len() == 0 {
            assert(out@ =~= Seq::<char>::empty());
        }
    }
    out.append(label);
    assert(out@ =~= with_label(start, label@));
}

/// Read a name, following pointers.
pub fn read_name(msg: &[u8], from: usize, depth: u8) -> (r: Option<String>)
    ensures
        text_view(r) == name_from(msg@, from as int, depth as int, Seq::empty()),
    decreases MAX_DEPTH + 1 - depth,
{
    if depth > MAX_DEPTH {
        return None;
    }
    let mut out = String::new();
    let mut pos: usize = from;
    assert(out@ =~= Seq::<char>::empty());
    while pos < msg.len()
        invariant
            depth <= MAX_DEPTH,
            pos <= msg.len() || pos == from,
            name_from(msg@, from as int, depth as int, Seq::empty()) == name_from(
                msg@,
                pos as int,
                depth as int,
                out@,
            ),
        decreases msg.len() - pos,
    {
        let len: u8 = msg[pos];
        if len >= 192 {
            if msg.len() - pos < 2 {
                return None;
            }
            let target: usize = (len as usize - 192) * 256 + msg[pos + 1] as usize;
            if target >= pos {
                return None;
            }
            return match read_name(msg, target, depth + 1) {
                Some(rest) => {
                    if !rest.as_str().is_empty() {
                        push_label(&mut out, rest.as_str());
                    }
                    Some(out)
                },
                None => None,
            };
        }
        if len == 0 {
            return Some(out);
        }
        if len as usize > msg.len() - pos - 1 {
            return None;
        }
        let end: usize = pos + 1 + len as usize;
        let label: String = lossy_text(slice_subrange(msg, pos + 1, end));
        push_label(&mut out, label.as_str());
        pos = end;
    }
    None
}

/// The labels of a name with dots between them.
pub open spec fn joined(labels: Seq<Seq<char>>) -> Seq<char>
    decreases labels.len(),
{
    if labels.len() == 0 {
        Seq::empty()
    } else if labels.len() == 1 {
        labels[0]
    } else {
        joined(labels.drop_last()) + seq!['.'] + labels.last()
    }
}

/// How many labels a name in a question may have.
pub const MAX_LABELS: u8 = 9;

/// The labels of the name of a question, behind those already read, and where it
/// ends. Pointers are refused here, not followed.
pub open spec fn question_from(msg: Seq<u8>, pos: int, labels: Seq<Seq<char>>) -> Option<
    (Seq<Seq<char>>, int),
>
    decreases msg.len() - pos,
{
    if pos < 0 || pos >= msg.len() || msg[pos] >= 192 {
        None
    } else if msg[pos] == 0 {
        Some((labels, pos + 1))
    } else {
        let end = pos + 1 + msg[pos];
        if end > msg.len() || labels.len() >= MAX_LABELS {
            None
        } else {
            question_from(msg, end, labels.push(lossy(msg.subrange(pos + 1, end))))
        }
    }
}

/// The name of the question at `pos` as dotted text, and where it ends.
pub open spec fn question_name(msg: Seq<u8>, pos: int) -> Option<(Seq<char>, int)> {
    match question_from(msg, pos, Seq::empty()) {
        Some((labels, end)) => Some((joined(labels), end)),
        None => None,
    }
}

/// Read the name of a question as dotted text.
pub fn read_query_name(msg: &[u8], from: usize) -> (r: Option<(String, usize)>)
    ensures
        r matches Some((name, end)) ==> question_name(msg@, from as int) == Some(
            (name@, end as int),
        ) && from < end <= msg.len(),
        r is None ==> question_name(msg@, from as int) is None,
{
    let mut name = String::new();
    let mut count: u8 = 0;
    let mut pos: usize = from;
    let ghost mut labels: Seq<Seq<char>> = Seq::empty();
    assert(name@ =~= joined(labels));
    while pos < msg.len()
        invariant
            from <= pos,
            pos <= msg.len() || pos == from,
            count <= MAX_LABELS,
            count == labels.len(),
            name@ == joined(labels),
            question_from(msg@, from as int, Seq::empty()) == question_from(
                msg@,
                pos as int,
                labels,
            ),
        decreases msg.len() - pos,
    {
        let len: u8 = msg[pos];
        if len >= 192 {
            return None;
        }
        if len == 0 {
            return Some((name, pos + 1));
        }
        if len as usize > msg.len() - pos - 1 || count >= MAX_LABELS {
            return None;
        }
        let end: usize = pos + 1 + len as usize;
        let label: String = lossy_text(slice_subrange(msg, pos + 1, end));
        let ghost before = name@;
        if count > 0 {
            name.push('.');
        }
        name.append(label.as_str());
        proof {
            let old_labels = labels;
            labels = labels.push(label@);
            assert(labels.drop_last() =~= old_labels);
            if old_labels.len() == 0 {
                assert(before =~= Seq::<char>::empty());
            }
            assert(name@ =~= joined(labels));
        }
        count = count + 1;
        pos = end;
    }
    None
}

// ------------------------------------------------------------- writing

/// How many bytes of a label are written: 63 at most, since a greater length
/// would be read as a pointer.
pub open spec fn label_len(label: Seq<char>) -> int {
    let n = encode_utf8(label).len() as int;
    if n > 63 {
        63
    } else {
        n
    }
}

/// A label behind its length.
pub open spec fn wire_label(label: Seq<char>) -> Seq<u8> {
    seq![label_len(label) as u8] + encode_utf8(label).take(label_len(label))
}

/// Labels, one behind the other.
pub open spec fn wire_labels(labels: Seq<Seq<char>>) -> Seq<u8>
    decreases labels.len(),
{
    if labels.len() == 0 {
        Seq::empty()
    } else {
        wire_labels(labels.drop_last()) + wire_label(labels.last())
    }
}

/// A dotted name as it stands in a message.
pub open spec fn wire_name(name: Seq<char>) -> Seq<u8> {
    wire_labels(pieces(name, '.')).push(0)
}

/// Append a name.
pub fn push_name(out: &mut Vec<u8>, name: &[char])
    ensures
        final(out)@ == old(out)@ + wire_name(name@),
{
    let ghost start = out@;
    let labels: Vec<&[char]> = split_char(name, '.');
    let ghost all = pieces(name@, '.');
    let mut i: usize = 0;
    assert(out@ =~= start + wire_labels(all.take(0)));
    while i < labels.len()
        invariant
            i <= labels.len(),
            views(labels@) == all,
            out@ == start + wire_labels(all.take(i as int)),
        decreases labels.len() - i,
    {
        assert(views(labels@)[i as int] == labels@[i as int]@);
        let label: String = string_of(labels[i]);
        let b: &[u8] = label.as_str().as_bytes();
        let n: usize = if b.len() > 63 {
            63
        } else {
            b.len()
        };
        out.push(n as u8);
        let part = slice_subrange(b, 0, n);
        assert(part@ =~= b@.take(n as int));
        push_bytes(out, part);
        proof {
            assert(all.take(i + 1).drop_last() =~= all.take(i as int));
            assert(all.take(i + 1).last() == all[i as int]);
            assert(out@ =~= start + wire_labels(all.take(i + 1)));
        }
        i = i + 1;
    }
    out.push(0);
    assert(all.take(all.len() as int) =~= all);
    assert(out@ =~= start + wire_name(name@));
}

/// Whether every label of a name can be written as it is: none empty, none over
/// 63 bytes.
pub open spec fn writable(labels: Seq<Seq<char>>) -> bool {
    forall|i: int|
        0 <= i < labels.len() ==> 1 <= encode_utf8(#[trigger] labels[i]).len() <= 63
}

proof fn lemma_labels_end(
    head: Seq<u8>,
    labels: Seq<Seq<char>>,
    k: int,
    tail: Seq<u8>,
)
    requires
        writable(labels),
        0 <= k <= labels.len(),
    ensures
        ({
            let msg = head + wire_labels(labels) + tail;
            name_end(msg, (head.len() + wire_labels(labels.take(k)).len()) as int) == name_end(
                msg,
                (head.len() + wire_labels(labels).len()) as int,
            )
        }),
    decreases labels.len() - k,
{
    let msg = head + wire_labels(labels) + tail;
    if k < labels.len() {
        lemma_labels_end(head, labels, k + 1, tail);
        let here = wire_labels(labels.take(k));
        let next = wire_labels(labels.take(k + 1));
        assert(labels.take(k + 1).drop_last() =~= labels.take(k));
        assert(labels.take(k + 1).last() == labels[k]);
        assert(next == here + wire_label(labels[k]));
        lemma_labels_prefix(labels, k + 1);
        let at = (head.len() + here.len()) as int;
        assert(msg[at] == wire_labels(labels)[here.len() as int]);
        assert(wire_labels(labels)[here.len() as int] == next[here.len() as int]);
        assert(next[here.len() as int] == wire_label(labels[k])[0]);
        assert(name_end(msg, at) == name_end(msg, at + 1 + msg[at]));
    } else {
        assert(labels.take(k) =~= labels);
    }
}

proof fn lemma_labels_prefix(labels: Seq<Seq<char>>, k: int)
    requires
        0 <= k <= labels.len(),
    ensures
        wire_labels(labels.take(k)).len() <= wire_labels(labels).len(),
        wire_labels(labels).take(wire_labels(labels.take(k)).len() as int) == wire_labels(
            labels.take(k),
        ),
    decreases labels.len() - k,
{
    if k < labels.len() {
        lemma_labels_prefix(labels, k + 1);
        assert(labels.take(k + 1).drop_last() =~= labels.take(k));
        let here = wire_labels(labels.take(k));
        let next = wire_labels(labels.take(k + 1));
        assert(next == here + wire_label(labels[k]));
        assert(wire_labels(labels).take(here.len() as int) =~= next.take(here.len() as int));
        assert(next.take(here.len() as int) =~= here);
    } else {
        assert(labels.take(k) =~= labels);
        assert(wire_labels(labels).take(wire_labels(labels).len() as int) =~= wire_labels(labels));
    }
}

/// A name that was written ends where it was written to end.
pub proof fn law_written_name_is_stepped_over(head: Seq<u8>, name: Seq<char>, tail: Seq<u8>)
    requires
        writable(pieces(name, '.')),
    ensures
        name_end(head + wire_name(name) + tail, head.len() as int) == Some(
            (head.len() + wire_name(name).len()) as int,
        ),
{
    let labels = pieces(name, '.');
    let rest = seq![0u8] + tail;
    lemma_labels_end(head, labels, 0, rest);
    assert(labels.take(0) =~= Seq::empty());
    assert(wire_labels(labels.take(0)).len() == 0);
    let msg = head + wire_labels(labels) + rest;
    assert(head + wire_name(name) + tail =~= msg);
    assert(msg[(head.len() + wire_labels(labels).len()) as int] == 0);
}

proof fn lemma_joined_first(first: Seq<char>, rest: Seq<Seq<char>>)
    requires
        rest.len() > 0,
    ensures
        joined(seq![first] + rest) == first + seq!['.'] + joined(rest),
    decreases rest.len(),
{
    let all = seq![first] + rest;
    if rest.len() == 1 {
        assert(all.drop_last() =~= seq![first]);
        assert(joined(seq![first]) == first);
        assert(joined(all) =~= first + seq!['.'] + joined(rest));
    } else {
        assert(all.drop_last() =~= seq![first] + rest.drop_last());
        lemma_joined_first(first, rest.drop_last());
        assert(joined(all) =~= first + seq!['.'] + joined(rest));
    }
}

proof fn lemma_joined_pieces(name: Seq<char>)
    ensures
        joined(pieces(name, '.')) == name,
        pieces(name, '.').len() > 0,
    decreases name.len(),
{
    lemma_char_at(name, '.');
    let k = char_at(name, '.');
    if k < name.len() {
        let rest = name.skip(k + 1);
        lemma_joined_pieces(rest);
        lemma_joined_first(name.take(k), pieces(rest, '.'));
        assert(name.take(k) + seq!['.'] + rest =~= name);
    }
}

/// What is read at one label of a written name.
proof fn lemma_label_at(head: Seq<u8>, labels: Seq<Seq<char>>, k: int, tail: Seq<u8>)
    requires
        writable(labels),
        0 <= k < labels.len(),
    ensures
        ({
            let msg = head + wire_labels(labels) + tail;
            let at = (head.len() + wire_labels(labels.take(k)).len()) as int;
            let end = (head.len() + wire_labels(labels.take(k + 1)).len()) as int;
            &&& 0 < msg[at] < 64
            &&& end == at + 1 + msg[at]
            &&& end <= head.len() + wire_labels(labels).len()
            &&& lossy(msg.subrange(at + 1, end)) == labels[k]
        }),
{
    let msg = head + wire_labels(labels) + tail;
    let here = wire_labels(labels.take(k));
    let next = wire_labels(labels.take(k + 1));
    let at = (head.len() + here.len()) as int;
    let end = (head.len() + next.len()) as int;
    let b = encode_utf8(labels[k]);
    assert(labels.take(k + 1).drop_last() =~= labels.take(k));
    assert(labels.take(k + 1).last() == labels[k]);
    assert(next == here + wire_label(labels[k]));
    lemma_labels_prefix(labels, k + 1);
    assert forall|j: int| 0 <= j < next.len() implies msg[head.len() + j] == #[trigger] next[j] by {
        assert(wire_labels(labels).take(next.len() as int)[j] == wire_labels(labels)[j]);
    }
    assert(msg[at] == next[here.len() as int]);
    assert(b.take(b.len() as int) =~= b);
    assert(msg.subrange(at + 1, end) =~= b) by {
        assert forall|j: int| 0 <= j < b.len() implies msg.subrange(at + 1, end)[j] == b[j] by {
            assert(msg[head.len() + (here.len() + 1 + j)] == next[here.len() + 1 + j]);
        }
    }
    encode_utf8_valid_utf8(labels[k]);
    encode_utf8_decode_utf8(labels[k]);
}

proof fn lemma_joined_next(labels: Seq<Seq<char>>, k: int)
    requires
        writable(labels),
        0 <= k < labels.len(),
    ensures
        with_label(joined(labels.take(k)), labels[k]) == joined(labels.take(k + 1)),
        joined(labels.take(k + 1)).len() > 0,
    decreases k,
{
    assert(encode_utf8(labels[k]).len() > 0);
    assert(labels[k].len() > 0);
    let now = labels.take(k);
    let next = labels.take(k + 1);
    assert(next.drop_last() =~= now);
    assert(next.last() == labels[k]);
    if k > 0 {
        lemma_joined_next(labels, k - 1);
        assert(now.push(labels[k]) =~= next);
        assert(joined(next) =~= with_label(joined(now), labels[k]));
    }
}

proof fn lemma_labels_read(head: Seq<u8>, labels: Seq<Seq<char>>, k: int, tail: Seq<u8>)
    requires
        writable(labels),
        0 <= k <= labels.len(),
        tail.len() > 0,
        tail[0] == 0,
    ensures
        ({
            let msg = head + wire_labels(labels) + tail;
            let at = (head.len() + wire_labels(labels.take(k)).len()) as int;
            &&& labels.len() <= MAX_LABELS ==> question_from(msg, at, labels.take(k)) == Some(
                (labels, (head.len() + wire_labels(labels).len() + 1) as int),
            )
            &&& name_from(msg, at, 0, joined(labels.take(k))) == Some(joined(labels))
        }),
    decreases labels.len() - k,
{
    let msg = head + wire_labels(labels) + tail;
    if k < labels.len() {
        lemma_label_at(head, labels, k, tail);
        lemma_joined_next(labels, k);
        lemma_labels_read(head, labels, k + 1, tail);
        assert(labels.take(k).push(labels[k]) =~= labels.take(k + 1));
    } else {
        assert(labels.take(k) =~= labels);
        assert(msg[(head.len() + wire_labels(labels).len()) as int] == 0);
    }
}

/// A name that was written is read back, wherever it stands in a message and whatever is
/// behind it; in a question, where it has no more labels than are read there.
pub proof fn law_written_name_is_read_back(head: Seq<u8>, name: Seq<char>, tail: Seq<u8>)
    requires
        writable(pieces(name, '.')),
    ensures
        ({
            let msg = head + wire_name(name) + tail;
            &&& pieces(name, '.').len() <= MAX_LABELS ==> question_name(msg, head.len() as int)
                == Some((name, (head.len() + wire_name(name).len()) as int))
            &&& name_from(msg, head.len() as int, 0, Seq::empty()) == Some(name)
        }),
{
    let labels = pieces(name, '.');
    let rest = seq![0u8] + tail;
    lemma_joined_pieces(name);
    lemma_labels_read(head, labels, 0, rest);
    assert(labels.take(0) =~= Seq::empty());
    assert(wire_labels(labels.take(0)).len() == 0);
    assert(joined(labels.take(0)) =~= Seq::empty());
    assert(head + wire_name(name) + tail =~= head + wire_labels(labels) + rest);
}

/// A name that points at itself, or forward, is no name.
pub proof fn law_no_name_points_at_itself(msg: Seq<u8>, pos: int, depth: int, out: Seq<char>)
    requires
        0 <= pos,
        pos + 1 < msg.len(),
        msg[pos] >= 192,
        (msg[pos] - 192) * 256 + msg[pos + 1] >= pos,
    ensures
        name_from(msg, pos, depth, out) is None,
{
}

proof fn lemma_wire_labels_front(first: Seq<char>, rest: Seq<Seq<char>>)
    ensures
        wire_labels(seq![first] + rest) == wire_label(first) + wire_labels(rest),
    decreases rest.len(),
{
    let all = seq![first] + rest;
    if rest.len() == 0 {
        assert(all.drop_last() =~= Seq::<Seq<char>>::empty());
        assert(wire_labels(all.drop_last()) =~= Seq::<u8>::empty());
        assert(wire_labels(all) =~= wire_label(first) + wire_labels(rest));
    } else {
        lemma_wire_labels_front(first, rest.drop_last());
        assert(all.drop_last() =~= seq![first] + rest.drop_last());
        assert(wire_labels(all) =~= wire_label(first) + wire_labels(rest));
    }
}

/// A name stands in a message label by label: the length of each in one byte, the label
/// itself, and a zero behind the last.
pub proof fn law_names_are_written_label_by_label(label: Seq<char>, rest: Seq<char>)
    requires
        !label.contains('.'),
        1 <= encode_utf8(label).len() <= 63,
    ensures
        wire_name(label) == seq![encode_utf8(label).len() as u8] + encode_utf8(label) + seq![0u8],
        wire_name(label + seq!['.'] + rest) == seq![encode_utf8(label).len() as u8] + encode_utf8(label)
            + wire_name(rest),
{
    let b = encode_utf8(label);
    let s = label + seq!['.'] + rest;
    lemma_char_at_is(label, '.', label.len() as int);
    lemma_char_at_is(s, '.', label.len() as int);
    assert(s.take(label.len() as int) =~= label);
    assert(s.skip(label.len() as int + 1) =~= rest);
    assert(b.take(b.len() as int) =~= b);
    assert(wire_label(label) == seq![b.len() as u8] + b);
    lemma_wire_labels_front(label, Seq::empty());
    assert(seq![label] + Seq::<Seq<char>>::empty() =~= seq![label]);
    assert(wire_labels(Seq::<Seq<char>>::empty()) =~= Seq::<u8>::empty());
    lemma_wire_labels_front(label, pieces(rest, '.'));
    assert(wire_name(label) =~= seq![b.len() as u8] + b + seq![0u8]);
    assert(wire_name(s) =~= seq![b.len() as u8] + b + wire_name(rest));
}

/// A name may point at one that stands before it: it is read there, up to eight times over,
/// and behind a label it goes on there.
pub proof fn law_a_pointer_is_followed(msg: Seq<u8>, pos: int, depth: int)
    requires
        0 <= pos,
        pos + 1 < msg.len(),
        192 <= msg[pos],
        (msg[pos] - 192) * 256 + msg[pos + 1] < pos,
    ensures
        0 <= depth < 8 ==> name_from(msg, pos, depth, Seq::empty()) == name_from(
            msg,
            (msg[pos] - 192) * 256 + msg[pos + 1],
            depth + 1,
            Seq::empty(),
        ),
        depth > 8 ==> name_from(msg, pos, depth, Seq::empty()) is None,
        name_end(msg, pos) == Some(pos + 2),
{
}

} // verus!
