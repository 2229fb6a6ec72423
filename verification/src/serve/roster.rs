//! Who is in the room: the names they claimed, the devices that are paused, the
//! work that waits for an answer.

use super::labels::{
    keys_distinct, label_of, lemma_gone, lemma_with_distinct, lemma_with_label,
    with_label, without_key, Entries, Labels,
};
use super::order::{
    by_name, law_names_are_in_order, lemma_same_names, name_before, named_of, put_by_name,
};
use crate::page::landing::{handed_in_dir, refused_dir, waiting_dir};
use crate::text::{
    begins_with, holds, lemma_first_from, occurs_at, same_text, text_view, texts,
};
use vstd::prelude::*;

verus! {

/// A device on the network: its address, and the short tag of its hardware
/// address where that is known.
pub struct Device {
    pub ip: String,
    pub tag: Option<String>,
}

/// The key a device is filed under: the device where it can be identified, the
/// address only as a fallback.
pub open spec fn key_of(d: &Device) -> Seq<char> {
    match d.tag {
        Some(t) => "tag:"@ + t@,
        None => "ip:"@ + d.ip@,
    }
}

/// The key a claim is filed under.
pub fn claim_key(d: &Device) -> (key: String)
    ensures
        key@ == key_of(d),
{
    let mut key = String::new();
    match &d.tag {
        Some(t) => {
            key.append("tag:");
            key.append(t.as_str());
            assert(key@ =~= "tag:"@ + t@);
        },
        None => {
            key.append("ip:");
            key.append(d.ip.as_str());
            assert(key@ =~= "ip:"@ + d.ip@);
        },
    }
    key
}

/// The key this device's claims and blocks are filed under, so the screen can
/// hold on to a device that has left the network.
pub fn device_key(d: &Device) -> (key: String)
    ensures
        key@ == key_of(d),
{
    claim_key(d)
}

/// The tag alone, for the roster.
pub fn tag_for(d: &Device) -> (tag: Option<String>)
    ensures
        text_view(tag) == text_view(d.tag),
{
    match &d.tag {
        Some(t) => Some(t.clone()),
        None => None,
    }
}

// ------------------------------------------------------------- names

/// File the name a device claims.
pub fn set_claimed_name(claims: &mut Labels, d: &Device, name: &str)
    requires
        old(claims).wf(),
    ensures
        final(claims).wf(),
        final(claims)@ == with_label(old(claims)@, key_of(d), name@),
{
    let key: String = claim_key(d);
    claims.set(key.as_str(), name);
}

/// The name a device claimed.
pub fn claimed_name(claims: &Labels, d: &Device) -> (name: Option<String>)
    ensures
        text_view(name) == label_of(claims@, key_of(d)),
{
    let key: String = claim_key(d);
    claims.get(key.as_str())
}

/// Forget a device's name, so the page asks again.
pub fn forget_claim(claims: &mut Labels, d: &Device)
    requires
        old(claims).wf(),
    ensures
        final(claims).wf(),
        final(claims)@ == without_key(old(claims)@, key_of(d)),
{
    let key: String = claim_key(d);
    claims.remove(key.as_str());
}

/// File the name a device has on the network, under its address.
pub fn set_device_name(names: &mut Labels, ip: &str, name: &str)
    requires
        old(names).wf(),
    ensures
        final(names).wf(),
        final(names)@ == with_label(old(names)@, ip@, name@),
{
    names.set(ip, name);
}

/// Everything known about a device, for the permanent record.
pub open spec fn record_label(claims: Entries, names: Entries, d: &Device) -> Seq<char> {
    let tag = match d.tag {
        Some(t) => " #"@ + t@,
        None => Seq::empty(),
    };
    match (label_of(claims, key_of(d)), label_of(names, d.ip@)) {
        (Some(c), Some(n)) => c + tag + " ["@ + n + ", "@ + d.ip@ + "]"@,
        (Some(c), None) => c + tag + " ["@ + d.ip@ + "]"@,
        (None, Some(n)) => n + tag + " ["@ + d.ip@ + "]"@,
        (None, None) => d.ip@ + tag,
    }
}

/// Everything known about a device, for the permanent record:
/// "Johnny [Xiaomi-11-Lite, 10.42.0.90]", degrading to whatever parts exist.
pub fn full_label(claims: &Labels, names: &Labels, d: &Device) -> (label: String)
    ensures
        label@ == record_label(claims@, names@, d),
{
    let claimed: Option<String> = claimed_name(claims, d);
    let device: Option<String> = names.get(d.ip.as_str());
    let mut tag = String::new();
    if let Some(t) = &d.tag {
        tag.append(" #");
        tag.append(t.as_str());
        assert(tag@ =~= " #"@ + t@);
    }
    let mut out = String::new();
    match (&claimed, &device) {
        (Some(c), Some(n)) => {
            out.append(c.as_str());
            out.append(tag.as_str());
            out.append(" [");
            out.append(n.as_str());
            out.append(", ");
            out.append(d.ip.as_str());
            out.append("]");
        },
        (Some(c), None) => {
            out.append(c.as_str());
            out.append(tag.as_str());
            out.append(" [");
            out.append(d.ip.as_str());
            out.append("]");
        },
        (None, Some(n)) => {
            out.append(n.as_str());
            out.append(tag.as_str());
            out.append(" [");
            out.append(d.ip.as_str());
            out.append("]");
        },
        (None, None) => {
            out.append(d.ip.as_str());
            out.append(tag.as_str());
        },
    }
    assert(out@ =~= record_label(claims@, names@, d));
    out
}

/// Name plus device, for the screen.
pub open spec fn screen_label(claims: Entries, names: Entries, d: &Device) -> Seq<char> {
    match (label_of(claims, key_of(d)), label_of(names, d.ip@)) {
        (Some(c), Some(n)) => c + " ["@ + n + "]"@,
        (Some(c), None) => c,
        (None, Some(n)) => n,
        (None, None) => d.ip@,
    }
}

/// Name plus device, for the screen.
pub fn roster_label(claims: &Labels, names: &Labels, d: &Device) -> (label: String)
    ensures
        label@ == screen_label(claims@, names@, d),
{
    let claimed: Option<String> = claimed_name(claims, d);
    let device: Option<String> = names.get(d.ip.as_str());
    let mut out = String::new();
    match (&claimed, &device) {
        (Some(c), Some(n)) => {
            out.append(c.as_str());
            out.append(" [");
            out.append(n.as_str());
            out.append("]");
        },
        (Some(c), None) => {
            out.append(c.as_str());
        },
        (None, Some(n)) => {
            out.append(n.as_str());
        },
        (None, None) => {
            out.append(d.ip.as_str());
        },
    }
    assert(out@ =~= screen_label(claims@, names@, d));
    out
}

/// The shortest name there is for a device.
pub open spec fn short_label(claims: Entries, names: Entries, d: &Device) -> Seq<char> {
    match (label_of(claims, key_of(d)), label_of(names, d.ip@)) {
        (Some(c), _) => c,
        (None, Some(n)) => n,
        (None, None) => d.ip@,
    }
}

/// The claimed name, or the device's own, or the address.
pub fn device_label(claims: &Labels, names: &Labels, d: &Device) -> (label: String)
    ensures
        label@ == short_label(claims@, names@, d),
{
    if let Some(c) = claimed_name(claims, d) {
        return c;
    }
    match names.get(d.ip.as_str()) {
        Some(n) => n,
        None => d.ip.clone(),
    }
}

/// Whether a name stands among the first `n` labels.
pub open spec fn claimed_among(e: Entries, n: int, name: Seq<char>) -> bool {
    exists|i: int| 0 <= i < n && (#[trigger] e[i]).1 == name
}

/// The names that more than one key claims, in the order in which a second claim
/// made them so.
pub open spec fn shared_names(e: Entries) -> Seq<Seq<char>>
    decreases e.len(),
{
    if e.len() == 0 {
        Seq::empty()
    } else {
        let head = shared_names(e.drop_last());
        let name = e.last().1;
        if claimed_among(e, e.len() - 1, name) && !head.contains(name) {
            head.push(name)
        } else {
            head
        }
    }
}

/// No name is told twice, however many claim it.
pub proof fn law_a_shared_name_is_told_once(e: Entries)
    ensures
        shared_names(e).no_duplicates(),
    decreases e.len(),
{
    if e.len() > 0 {
        let head = shared_names(e.drop_last());
        let all = shared_names(e);
        law_a_shared_name_is_told_once(e.drop_last());
        assert forall|i: int, j: int| 0 <= i < j < all.len() implies all[i] != all[j] by {
            if j == head.len() {
                assert(head.contains(head[i]));
            }
        }
    }
}

/// Whether a text is in a list.
pub fn listed(v: &Vec<String>, t: &str) -> (b: bool)
    ensures
        b == texts(v@).contains(t@),
{
    let mut i: usize = 0;
    while i < v.len()
        invariant
            i <= v.len(),
            forall|k: int| 0 <= k < i ==> texts(v@)[k] != t@,
        decreases v.len() - i,
    {
        if same_text(v[i].as_str(), t) {
            assert(texts(v@)[i as int] == t@);
            return true;
        }
        i = i + 1;
    }
    false
}

/// The names that more than one device has claimed.
pub fn duplicate_claims(claims: &Labels) -> (names: Vec<String>)
    ensures
        texts(names@) == shared_names(claims@),
        texts(names@).no_duplicates(),
{
    let all: Vec<(String, String)> = claims.all();
    let ghost e = claims@;
    let mut names: Vec<String> = Vec::new();
    let mut i: usize = 0;
    assert(e.take(0) =~= Entries::empty());
    assert(texts(names@) =~= Seq::empty());
    while i < all.len()
        invariant
            i <= all.len(),
            super::labels::entries_of(all@) == e,
            texts(names@) == shared_names(e.take(i as int)),
        decreases all.len() - i,
    {
        let ghost now = e.take(i + 1);
        assert(now.drop_last() =~= e.take(i as int));
        let mut among: bool = false;
        let mut j: usize = 0;
        while j < i
            invariant
                i < all.len(),
                j <= i,
                super::labels::entries_of(all@) == e,
                now == e.take(i + 1),
                among == claimed_among(now, j as int, e[i as int].1),
            decreases i - j,
        {
            if same_text(all[j].1.as_str(), all[i].1.as_str()) {
                assert(now[j as int].1 == e[i as int].1);
                among = true;
            } else {
                assert(now[j as int].1 != e[i as int].1);
            }
            j = j + 1;
        }
        if among && !listed(&names, all[i].1.as_str()) {
            let ghost before = names@;
            names.push(all[i].1.clone());
            assert(texts(names@) =~= texts(before).push(e[i as int].1));
        }
        i = i + 1;
    }
    assert(e.take(e.len() as int) =~= e);
    proof {
        law_a_shared_name_is_told_once(e);
    }
    names
}

/// A name is reported exactly when two different devices claim it: a device
/// that comes back under its own key is no second one.
pub proof fn law_shared_names_are_told(e: Entries, name: Seq<char>)
    requires
        keys_distinct(e),
    ensures
        shared_names(e).contains(name) <==> exists|i: int, j: int|
            0 <= i < j < e.len() && (#[trigger] e[i]).1 == name && (#[trigger] e[j]).1 == name
                && e[i].0 != e[j].0,
    decreases e.len(),
{
    if e.len() > 0 {
        let h = e.drop_last();
        assert(keys_distinct(h)) by {
            assert forall|i: int, j: int| 0 <= i < j < h.len() implies (#[trigger] h[i]).0 != (
            #[trigger] h[j]).0 by {
                assert(e[i].0 != e[j].0);
            }
        }
        law_shared_names_are_told(h, name);
        let head = shared_names(h);
        let last = e.last().1;
        let r = shared_names(e);
        if r.contains(name) {
            let k = choose|k: int| 0 <= k < r.len() && r[k] == name;
            if k < head.len() {
                assert(head[k] == name);
                assert(head.contains(name));
                let (i, j) = choose|i: int, j: int|
                    0 <= i < j < h.len() && (#[trigger] h[i]).1 == name && (#[trigger] h[j]).1
                        == name && h[i].0 != h[j].0;
                assert(e[i].1 == name && e[j].1 == name && e[i].0 != e[j].0);
            } else {
                let i = choose|i: int| 0 <= i < e.len() - 1 && (#[trigger] e[i]).1 == last;
                assert(e[i].0 != e[e.len() - 1].0);
            }
        }
        if exists|i: int, j: int|
            0 <= i < j < e.len() && (#[trigger] e[i]).1 == name && (#[trigger] e[j]).1 == name
                && e[i].0 != e[j].0 {
            let (i, j) = choose|i: int, j: int|
                0 <= i < j < e.len() && (#[trigger] e[i]).1 == name && (#[trigger] e[j]).1 == name
                    && e[i].0 != e[j].0;
            if j < h.len() {
                assert(h[i].1 == name && h[j].1 == name && h[i].0 != h[j].0);
                let k = choose|k: int| 0 <= k < head.len() && head[k] == name;
                assert(r[k] == name);
            } else {
                assert(claimed_among(e, e.len() - 1, last));
                if head.contains(name) {
                    let k = choose|k: int| 0 <= k < head.len() && head[k] == name;
                    assert(r[k] == name);
                } else {
                    assert(r[head.len() as int] == name);
                }
            }
        }
    } else {
        assert(!shared_names(e).contains(name));
    }
}

// ------------------------------------------------------------- pausing

/// Pause a device; what comes back is the label it was filed under.
pub fn block_device(
    blocked: &mut Labels,
    claims: &Labels,
    names: &Labels,
    d: &Device,
) -> (label: String)
    requires
        old(blocked).wf(),
    ensures
        final(blocked).wf(),
        label@ == record_label(claims@, names@, d),
        final(blocked)@ == with_label(old(blocked)@, key_of(d), label@),
{
    let key: String = claim_key(d);
    let label: String = full_label(claims, names, d);
    blocked.set(key.as_str(), label.as_str());
    label
}

/// Let a device back in.
pub fn unblock_device(blocked: &mut Labels, d: &Device)
    requires
        old(blocked).wf(),
    ensures
        final(blocked).wf(),
        final(blocked)@ == without_key(old(blocked)@, key_of(d)),
{
    let key: String = claim_key(d);
    blocked.remove(key.as_str());
}

/// Undo the block on a list entry.
pub fn unblock_key(blocked: &mut Labels, key: &str)
    requires
        old(blocked).wf(),
    ensures
        final(blocked).wf(),
        final(blocked)@ == without_key(old(blocked)@, key@),
{
    blocked.remove(key);
}

/// Whether a device is paused.
pub open spec fn paused(blocked: Entries, d: &Device) -> bool {
    label_of(blocked, key_of(d)) is Some
}

/// Whether a device is paused.
pub fn is_blocked(blocked: &Labels, d: &Device) -> (b: bool)
    ensures
        b == paused(blocked@, d),
{
    if blocked.len() == 0 {
        return false;
    }
    let key: String = claim_key(d);
    blocked.has(key.as_str())
}

/// Key and label of every paused device.
pub fn blocked_devices(blocked: &Labels) -> (v: Vec<(String, String)>)
    ensures
        super::labels::entries_of(v@) == blocked@,
{
    blocked.all()
}

/// How many devices are paused.
pub fn blocked_count(blocked: &Labels) -> (n: usize)
    ensures
        n == blocked@.len(),
{
    blocked.len()
}

/// Let everybody back in.
pub fn clear_blocks(blocked: &mut Labels)
    ensures
        final(blocked).wf(),
        final(blocked)@ == Entries::empty(),
{
    blocked.clear();
}

/// A pause holds until it is undone, whatever label it was filed under; undoing
/// it lets that device back in and touches no other.
pub proof fn law_pausing_and_freeing(
    blocked: Entries,
    d: &Device,
    label: Seq<char>,
    other: &Device,
)
    requires
        keys_distinct(blocked),
    ensures
        paused(with_label(blocked, key_of(d), label), d),
        !paused(without_key(with_label(blocked, key_of(d), label), key_of(d)), d),
        key_of(other) != key_of(d) ==> paused(with_label(blocked, key_of(d), label), other)
            == paused(blocked, other),
        key_of(other) != key_of(d) ==> paused(without_key(blocked, key_of(d)), other) == paused(
            blocked,
            other,
        ),
{
    lemma_with_label(blocked, key_of(d), label, key_of(other));
    lemma_gone(with_label(blocked, key_of(d), label), key_of(d));
    if key_of(other) != key_of(d) {
        lemma_others_stay(blocked, key_of(d), key_of(other));
    }
}

proof fn lemma_label_pushed(e: Entries, x: (Seq<char>, Seq<char>), key: Seq<char>)
    ensures
        label_of(e.push(x), key) == (if label_of(e, key) is Some {
            label_of(e, key)
        } else if x.0 == key {
            Some(x.1)
        } else {
            None
        }),
{
    let w = e.push(x);
    super::labels::lemma_place(e, key, 0);
    super::labels::lemma_place(w, key, 0);
    let p = super::labels::place(e, key);
    let q = super::labels::place(w, key);
    if p < e.len() {
        assert(w[p] == e[p]);
        if q < p {
            assert(e[q].0 != key);
        }
    } else if q < e.len() {
        assert(e[q].0 != key);
    } else {
        assert(x.0 == key ==> w[e.len() as int].0 == key);
    }
}

/// Taking a key out leaves what is filed under the others as it was.
pub proof fn lemma_others_stay(e: Entries, key: Seq<char>, other: Seq<char>)
    requires
        other != key,
    ensures
        label_of(without_key(e, key), other) == label_of(e, other),
    decreases e.len(),
{
    if e.len() > 0 {
        let head = e.drop_last();
        lemma_others_stay(head, key, other);
        assert(head.push(e.last()) =~= e);
        lemma_label_pushed(head, e.last(), other);
        lemma_label_pushed(without_key(head, key), e.last(), other);
    }
}

/// Pressing pause twice is one pause, under the later label.
pub proof fn law_pausing_twice_is_one_pause(
    blocked: Entries,
    key: Seq<char>,
    first: Seq<char>,
    second: Seq<char>,
)
    requires
        keys_distinct(blocked),
    ensures
        with_label(with_label(blocked, key, first), key, second) == with_label(
            blocked,
            key,
            second,
        ),
        keys_distinct(with_label(blocked, key, first)),
{
    let one = with_label(blocked, key, first);
    lemma_with_distinct(blocked, key, first);
    super::labels::lemma_place(blocked, key, 0);
    super::labels::lemma_place(one, key, 0);
    let p = super::labels::place(blocked, key);
    let q = super::labels::place(one, key);
    if q < p {
        assert(one[q].0 == blocked[q].0);
    } else if q > p {
        assert(one[p].0 != key);
    }
    assert(with_label(one, key, second) =~= with_label(blocked, key, second));
}

// ------------------------------------------------------------- work that waits

/// One piece of work waiting for the teacher to accept or refuse.
pub struct Pending {
    /// Who sent it, in full.
    pub from: String,
    /// The name the device gave it.
    pub original: String,
    /// What it is called on disk.
    pub on_disk: String,
    pub bytes: u64,
    pub at: String,
}

/// A piece of waiting work as plain text and numbers.
pub struct PendingModel {
    pub from: Seq<char>,
    pub original: Seq<char>,
    pub on_disk: Seq<char>,
    pub bytes: u64,
    pub at: Seq<char>,
}

impl View for Pending {
    type V = PendingModel;

    open spec fn view(&self) -> PendingModel {
        PendingModel {
            from: self.from@,
            original: self.original@,
            on_disk: self.on_disk@,
            bytes: self.bytes,
            at: self.at@,
        }
    }
}

/// What a queue of waiting work holds.
pub open spec fn queue(v: Seq<Pending>) -> Seq<PendingModel> {
    Seq::new(v.len(), |i: int| v[i]@)
}

/// Whether a queue holds something under this name on disk.
pub open spec fn queued(q: Seq<PendingModel>, on_disk: Seq<char>) -> bool {
    exists|i: int| 0 <= i < q.len() && (#[trigger] q[i]).on_disk == on_disk
}

/// A queue without what has this name on disk.
pub open spec fn without_work(q: Seq<PendingModel>, on_disk: Seq<char>) -> Seq<PendingModel>
    decreases q.len(),
{
    if q.len() == 0 {
        q
    } else {
        let head = without_work(q.drop_last(), on_disk);
        if q.last().on_disk == on_disk {
            head
        } else {
            head.push(q.last())
        }
    }
}

fn holds_work(p: &Vec<Pending>, on_disk: &str) -> (b: bool)
    ensures
        b == queued(queue(p@), on_disk@),
{
    let mut i: usize = 0;
    while i < p.len()
        invariant
            i <= p.len(),
            forall|k: int| 0 <= k < i ==> (#[trigger] queue(p@)[k]).on_disk != on_disk@,
        decreases p.len() - i,
    {
        if same_text(p[i].on_disk.as_str(), on_disk) {
            assert(queue(p@)[i as int].on_disk == on_disk@);
            return true;
        }
        i = i + 1;
    }
    false
}

/// Queue a piece of work; a retry that resolved to a name already queued does
/// not queue twice.
pub fn note_pending(
    p: &mut Vec<Pending>,
    from: &str,
    original: &str,
    on_disk: &str,
    bytes: u64,
    at: &str,
)
    ensures
        queue(final(p)@) == (if queued(queue(old(p)@), on_disk@) {
            queue(old(p)@)
        } else {
            queue(old(p)@).push(
                PendingModel {
                    from: from@,
                    original: original@,
                    on_disk: on_disk@,
                    bytes,
                    at: at@,
                },
            )
        }),
{
    if holds_work(p, on_disk) {
        return;
    }
    let ghost before = p@;
    p.push(
        Pending {
            from: from.to_owned(),
            original: original.to_owned(),
            on_disk: on_disk.to_owned(),
            bytes,
            at: at.to_owned(),
        },
    );
    assert(queue(p@) =~= queue(before).push(p@.last()@));
}

fn duplicate(w: &Pending) -> (c: Pending)
    ensures
        c@ == w@,
{
    Pending {
        from: w.from.clone(),
        original: w.original.clone(),
        on_disk: w.on_disk.clone(),
        bytes: w.bytes,
        at: w.at.clone(),
    }
}

/// Everything that waits.
pub fn pending(p: &Vec<Pending>) -> (v: Vec<Pending>)
    ensures
        queue(v@) == queue(p@),
{
    let mut v: Vec<Pending> = Vec::new();
    let mut i: usize = 0;
    while i < p.len()
        invariant
            i <= p.len(),
            v.len() == i,
            forall|k: int| 0 <= k < i ==> (#[trigger] v@[k])@ == p@[k]@,
        decreases p.len() - i,
    {
        v.push(duplicate(&p[i]));
        i = i + 1;
    }
    assert(queue(v@) =~= queue(p@));
    v
}

/// How much waits.
pub fn pending_count(p: &Vec<Pending>) -> (n: usize)
    ensures
        n == queue(p@).len(),
{
    p.len()
}

/// Take a piece of work off the queue, once it has been moved on disk.
pub fn drop_pending(p: &mut Vec<Pending>, on_disk: &str)
    ensures
        queue(final(p)@) == without_work(queue(old(p)@), on_disk@),
{
    let ghost q = queue(p@);
    let mut kept: Vec<Pending> = Vec::new();
    let mut i: usize = 0;
    assert(q.take(0) =~= Seq::empty());
    assert(queue(kept@) =~= Seq::empty());
    while i < p.len()
        invariant
            queue(p@) == q,
            i <= p.len(),
            queue(kept@) == without_work(q.take(i as int), on_disk@),
        decreases p.len() - i,
    {
        assert(q.take(i + 1).drop_last() =~= q.take(i as int));
        assert(q[i as int] == p@[i as int]@);
        if !same_text(p[i].on_disk.as_str(), on_disk) {
            let ghost before = kept@;
            kept.push(duplicate(&p[i]));
            assert(queue(kept@) =~= queue(before).push(q[i as int]));
        }
        i = i + 1;
    }
    assert(q.take(q.len() as int) =~= q);
    *p = kept;
}

/// The work that is left once a piece of it has been moved, or all of it where
/// the move failed.
pub open spec fn after_move(q: Seq<PendingModel>, on_disk: Seq<char>, moved: bool) -> Seq<
    PendingModel,
> {
    if moved {
        without_work(q, on_disk)
    } else {
        q
    }
}

/// A file to be moved, by the steps from the served folder.
pub struct FileMove {
    pub from: Vec<String>,
    pub to: Vec<String>,
}

/// Accept: the file moves out of waiting and into the teacher's folder.
pub fn accept_move(on_disk: &str) -> (m: FileMove)
    ensures
        texts(m.from@) == seq!["handed-in"@, "waiting"@, on_disk@],
        texts(m.to@) == seq!["handed-in"@, on_disk@],
{
    let mut from: Vec<String> = waiting_dir();
    let mut to: Vec<String> = handed_in_dir();
    let ghost f = from@;
    let ghost t = to@;
    from.push(on_disk.to_owned());
    to.push(on_disk.to_owned());
    assert(texts(from@) =~= texts(f).push(on_disk@));
    assert(texts(to@) =~= texts(t).push(on_disk@));
    assert(texts(from@) =~= seq!["handed-in"@, "waiting"@, on_disk@]);
    assert(texts(to@) =~= seq!["handed-in"@, on_disk@]);
    FileMove { from, to }
}

/// Refuse: the file moves to where refused work is kept, and is never deleted.
pub fn refuse_move(on_disk: &str) -> (m: FileMove)
    ensures
        texts(m.from@) == seq!["handed-in"@, "waiting"@, on_disk@],
        texts(m.to@) == seq!["handed-in"@, "refused"@, on_disk@],
{
    let mut from: Vec<String> = waiting_dir();
    let mut to: Vec<String> = refused_dir();
    let ghost f = from@;
    let ghost t = to@;
    from.push(on_disk.to_owned());
    to.push(on_disk.to_owned());
    assert(texts(from@) =~= texts(f).push(on_disk@));
    assert(texts(to@) =~= texts(t).push(on_disk@));
    assert(texts(from@) =~= seq!["handed-in"@, "waiting"@, on_disk@]);
    assert(texts(to@) =~= seq!["handed-in"@, "refused"@, on_disk@]);
    FileMove { from, to }
}

/// Accept a piece of work: off the queue once it has been moved.
pub fn accept_pending(p: &mut Vec<Pending>, on_disk: &str, moved: bool)
    ensures
        queue(final(p)@) == after_move(queue(old(p)@), on_disk@, moved),
{
    if moved {
        drop_pending(p, on_disk);
    }
}

/// Refuse a piece of work: off the queue once it has been moved.
pub fn refuse_pending(p: &mut Vec<Pending>, on_disk: &str, moved: bool)
    ensures
        queue(final(p)@) == after_move(queue(old(p)@), on_disk@, moved),
{
    if moved {
        drop_pending(p, on_disk);
    }
}

// ------------------------------------------------------------- who has looked

/// Addresses with one more, unless it is among them.
pub open spec fn with_seen(seen: Seq<Seq<char>>, ip: Seq<char>) -> Seq<Seq<char>> {
    if seen.contains(ip) {
        seen
    } else {
        seen.push(ip)
    }
}

/// Note that an address has opened the class page.
pub fn mark_page_seen(seen: &mut Vec<String>, ip: &str)
    ensures
        texts(final(seen)@) == with_seen(texts(old(seen)@), ip@),
{
    if !listed(seen, ip) {
        let ghost before = seen@;
        seen.push(ip.to_owned());
        assert(texts(seen@) =~= texts(before).push(ip@));
    }
}

/// Whether an address has opened the class page.
pub fn has_seen_page(seen: &Vec<String>, ip: &str) -> (b: bool)
    ensures
        b == texts(seen@).contains(ip@),
{
    listed(seen, ip)
}

/// How many distinct addresses have opened the page.
pub fn pages_seen_count(seen: &Vec<String>) -> (n: usize)
    ensures
        n == texts(seen@).len(),
{
    seen.len()
}

/// Opening the page any number of times counts a device once.
pub proof fn law_a_device_is_counted_once(seen: Seq<Seq<char>>, ip: Seq<char>)
    requires
        seen.no_duplicates(),
    ensures
        with_seen(seen, ip).no_duplicates(),
        with_seen(seen, ip).contains(ip),
        with_seen(with_seen(seen, ip), ip) == with_seen(seen, ip),
{
    let s = with_seen(seen, ip);
    if !seen.contains(ip) {
        assert(s[seen.len() as int] == ip);
        assert forall|i: int, j: int| 0 <= i < s.len() && 0 <= j < s.len() && i != j implies s[i]
            != s[j] by {
            if i < seen.len() && j < seen.len() {
                assert(seen[i] != seen[j]);
            } else if i < seen.len() {
                assert(seen.contains(seen[i]));
            } else if j < seen.len() {
                assert(seen.contains(seen[j]));
            }
        }
    }
}

// ------------------------------------------------------------- what is handed out

/// Which files have been ticked; nothing said means everything.
pub struct Ticked {
    pub list: Option<Vec<String>>,
}

/// Whether a name may be handed out.
pub open spec fn may_have(t: &Ticked, rel: Seq<char>) -> bool {
    match t.list {
        None => true,
        Some(v) => texts(v@).contains(rel),
    }
}

/// Replace the ticked set.
pub fn set_allowed(t: &mut Ticked, list: Option<Vec<String>>)
    ensures
        final(t).list == list,
{
    t.list = list;
}

/// Whether a name may be handed out.
pub fn is_allowed(t: &Ticked, rel: &str) -> (b: bool)
    ensures
        b == may_have(t, rel@),
{
    match &t.list {
        None => true,
        Some(v) => listed(v, rel),
    }
}

/// Something found in the folder.
pub struct Item {
    pub name: String,
    pub is_file: bool,
    pub size: u64,
}

/// Whether the network can see something found in the folder.
pub open spec fn in_sight(t: &Ticked, name: Seq<char>, is_file: bool) -> bool {
    is_file && !(name.len() > 0 && name[0] == '.') && may_have(t, name)
}

/// Name and size of what the network can see among the first `n` items.
pub open spec fn sights(t: &Ticked, items: Seq<Item>, n: int) -> Seq<(Seq<char>, u64)>
    decreases n,
{
    if n <= 0 {
        Seq::empty()
    } else {
        let head = sights(t, items, n - 1);
        let it = items[n - 1];
        if in_sight(t, it.name@, it.is_file) {
            head.push((it.name@, it.size))
        } else {
            head
        }
    }
}

/// Names and sizes of a list of files.
pub open spec fn files_of(v: Seq<(String, u64)>) -> Seq<(Seq<char>, u64)> {
    named_of(v)
}

/// Name and size of what the network can see of a folder, in the order of the names.
pub open spec fn seen_files(t: &Ticked, items: Seq<Item>) -> Seq<(Seq<char>, u64)> {
    by_name(sights(t, items, items.len() as int))
}

/// The files the network can see right now, in the order of their names, however they
/// were found.
pub fn visible_files(t: &Ticked, items: &Vec<Item>) -> (v: Vec<(String, u64)>)
    ensures
        files_of(v@) == seen_files(t, items@),
        files_of(v@).to_multiset() == sights(t, items@, items.len() as int).to_multiset(),
        forall|i: int, j: int|
            0 <= i < j < v.len() ==> !name_before((#[trigger] v@[j]).0@, (#[trigger] v@[i]).0@),
{
    let mut v: Vec<(String, u64)> = Vec::new();
    let mut i: usize = 0;
    assert(files_of(v@) =~= Seq::empty());
    while i < items.len()
        invariant
            i <= items.len(),
            files_of(v@) == by_name(sights(t, items@, i as int)),
        decreases items.len() - i,
    {
        let chars: Vec<char> = crate::text::chars_of(items[i].name.as_str());
        let hidden: bool = chars.len() > 0 && chars[0] == '.';
        if items[i].is_file && !hidden && is_allowed(t, items[i].name.as_str()) {
            let ghost head = sights(t, items@, i as int);
            assert(sights(t, items@, i + 1).drop_last() =~= head);
            put_by_name(&mut v, items[i].name.clone(), items[i].size);
        }
        i = i + 1;
    }
    proof {
        law_names_are_in_order(sights(t, items@, items.len() as int));
        let out = files_of(v@);
        assert forall|i: int, j: int| 0 <= i < j < v.len() implies !name_before(
            (#[trigger] v@[j]).0@,
            (#[trigger] v@[i]).0@,
        ) by {
            assert(!name_before(out[j].0, out[i].0));
        }
    }
    v
}

// ------------------------------------------------------------- the service

/// What the service as a whole is doing.
pub struct Service {
    /// Bytes handed out so far.
    pub served: u64,
    /// Connections open now.
    pub live: u64,
    pub running: bool,
    /// Whether handed-in work can land in the served folder.
    pub handin_ok: bool,
    /// Whether one of the listeners has port 80.
    pub port_80: bool,
}

/// Bytes handed out so far.
pub fn total_sent(s: &Service) -> (n: u64)
    ensures
        n == s.served,
{
    s.served
}

/// Connections open now.
pub fn live_connections(s: &Service) -> (n: u64)
    ensures
        n == s.live,
{
    s.live
}

/// Whether the service is up.
pub fn is_running(s: &Service) -> (b: bool)
    ensures
        b == s.running,
{
    s.running
}

/// Whether handed-in work can land in the served folder.
pub fn handin_available(s: &Service) -> (b: bool)
    ensures
        b == s.handin_ok,
{
    s.handin_ok
}

/// Whether the class can be told an address with no port in it.
pub fn on_port_80(s: &Service) -> (b: bool)
    ensures
        b == s.port_80,
{
    s.port_80
}

// ------------------------------------------------------------- who is who

/// A device is told by its hardware wherever that is known, whatever address it has; two
/// pieces of hardware are two devices; and only where the hardware is not known does the
/// address tell. One kind is never taken for the other.
pub proof fn law_a_device_is_told_by_its_hardware(a: &Device, b: &Device)
    ensures
        (key_of(a) == key_of(b)) == (match (a.tag, b.tag) {
            (Some(x), Some(y)) => x@ == y@,
            (None, None) => a.ip@ == b.ip@,
            _ => false,
        }),
{
    reveal_strlit("tag:");
    reveal_strlit("ip:");
    let x = key_of(a);
    let y = key_of(b);
    assert(a.tag is Some ==> x[0] == 't');
    assert(a.tag is None ==> x[0] == 'i');
    assert(b.tag is Some ==> y[0] == 't');
    assert(b.tag is None ==> y[0] == 'i');
    match (a.tag, b.tag) {
        (Some(s), Some(t)) => {
            assert(x.skip(4) =~= s@);
            assert(y.skip(4) =~= t@);
        },
        (None, None) => {
            assert(x.skip(3) =~= a.ip@);
            assert(y.skip(3) =~= b.ip@);
        },
        _ => {},
    }
}

proof fn lemma_holds_at(s: Seq<char>, p: Seq<char>, i: int)
    requires
        0 <= i,
        i + p.len() <= s.len(),
        s.subrange(i, i + p.len()) == p,
    ensures
        holds(s, p),
{
    lemma_first_from(s, p, 0);
    assert(occurs_at(s, p, i));
}

/// The permanent record leaves nothing out: it begins with the name that was claimed, or
/// else with the device's own name, or else with the address; and the tag, the device's
/// own name and the address stand in it wherever they are known.
pub proof fn law_the_record_leaves_nothing_out(claims: Entries, names: Entries, d: &Device)
    ensures
        ({
            let r = record_label(claims, names, d);
            let c = label_of(claims, key_of(d));
            let n = label_of(names, d.ip@);
            &&& holds(r, d.ip@)
            &&& c is Some ==> begins_with(r, c.unwrap())
            &&& n is Some ==> holds(r, n.unwrap())
            &&& c is None && n is Some ==> begins_with(r, n.unwrap())
            &&& c is None && n is None ==> begins_with(r, d.ip@)
            &&& d.tag matches Some(t) ==> holds(r, " #"@ + t@)
        }),
{
    let r = record_label(claims, names, d);
    let tag = match d.tag {
        Some(t) => " #"@ + t@,
        None => Seq::empty(),
    };
    let ip = d.ip@;
    let open = " ["@;
    let close = "]"@;
    match (label_of(claims, key_of(d)), label_of(names, d.ip@)) {
        (Some(c), Some(n)) => {
            let k = c.len() + tag.len() + open.len() as int;
            assert(r.subrange(0, c.len() as int) =~= c);
            assert(r.subrange(c.len() as int, c.len() as int + tag.len()) =~= tag);
            assert(r.subrange(k, k + n.len()) =~= n);
            assert(r.subrange(k + n.len() + ", "@.len(), k + n.len() + ", "@.len() + ip.len())
                =~= ip);
            lemma_holds_at(r, tag, c.len() as int);
            lemma_holds_at(r, n, k);
            lemma_holds_at(r, ip, k + n.len() + ", "@.len());
        },
        (Some(c), None) => {
            let k = c.len() + tag.len() + open.len() as int;
            assert(r.subrange(0, c.len() as int) =~= c);
            assert(r.subrange(c.len() as int, c.len() as int + tag.len()) =~= tag);
            assert(r.subrange(k, k + ip.len()) =~= ip);
            lemma_holds_at(r, tag, c.len() as int);
            lemma_holds_at(r, ip, k);
        },
        (None, Some(n)) => {
            let k = n.len() + tag.len() + open.len() as int;
            assert(r.subrange(0, n.len() as int) =~= n);
            assert(r.subrange(n.len() as int, n.len() as int + tag.len()) =~= tag);
            assert(r.subrange(k, k + ip.len()) =~= ip);
            lemma_holds_at(r, n, 0);
            lemma_holds_at(r, tag, n.len() as int);
            lemma_holds_at(r, ip, k);
        },
        (None, None) => {
            assert(r.subrange(0, ip.len() as int) =~= ip);
            assert(r.subrange(ip.len() as int, ip.len() as int + tag.len()) =~= tag);
            lemma_holds_at(r, ip, 0);
            lemma_holds_at(r, tag, ip.len() as int);
        },
    }
}

/// What is shown on the screen begins with the name that was claimed, or else with the
/// device's own name, or else with the address, and so does the shortest name.
pub proof fn law_a_device_is_shown_by_its_best_name(claims: Entries, names: Entries, d: &Device)
    ensures
        ({
            let c = label_of(claims, key_of(d));
            let n = label_of(names, d.ip@);
            let s = screen_label(claims, names, d);
            let short = short_label(claims, names, d);
            &&& c is Some ==> begins_with(s, c.unwrap()) && short == c.unwrap()
            &&& c is None && n is Some ==> s == n.unwrap() && short == n.unwrap()
            &&& c is None && n is None ==> s == d.ip@ && short == d.ip@
            &&& c is Some && n is Some ==> holds(s, n.unwrap())
        }),
{
    let s = screen_label(claims, names, d);
    match (label_of(claims, key_of(d)), label_of(names, d.ip@)) {
        (Some(c), Some(n)) => {
            let k = c.len() + " ["@.len() as int;
            assert(s.subrange(0, c.len() as int) =~= c);
            assert(s.subrange(k, k + n.len()) =~= n);
            lemma_holds_at(s, n, k);
        },
        (Some(c), None) => {
            assert(s.subrange(0, c.len() as int) =~= c);
        },
        _ => {},
    }
}

// ------------------------------------------------------------- what waits, what is seen

/// Work leaves the queue when it has been answered and moved, and not before; what else
/// waits goes on waiting, in its order.
pub proof fn law_only_what_was_moved_leaves_the_queue(
    q: Seq<PendingModel>,
    on_disk: Seq<char>,
    i: int,
)
    requires
        0 <= i < q.len(),
    ensures
        after_move(q, on_disk, false) == q,
        !queued(after_move(q, on_disk, true), on_disk),
        q[i].on_disk != on_disk ==> after_move(q, on_disk, true).contains(q[i]),
        after_move(q, on_disk, true) == after_move(q.take(i), on_disk, true) + after_move(
            seq![q[i]],
            on_disk,
            true,
        ) + after_move(q.skip(i + 1), on_disk, true),
{
    let one = seq![q[i]];
    lemma_without_work_of_both(q.take(i), one + q.skip(i + 1), on_disk);
    lemma_without_work_of_both(one, q.skip(i + 1), on_disk);
    assert(q.take(i) + (one + q.skip(i + 1)) =~= q);
    let a = without_work(q.take(i), on_disk);
    let b = without_work(one, on_disk);
    let c = without_work(q.skip(i + 1), on_disk);
    assert(without_work(q, on_disk) =~= a + b + c);
    assert(one.drop_last() =~= Seq::empty());
    assert(without_work(one.drop_last(), on_disk) =~= Seq::empty());
    if q[i].on_disk != on_disk {
        assert(b =~= one);
        assert((a + b + c)[a.len() as int] == q[i]);
    }
    lemma_answered_is_gone(q, on_disk);
}

proof fn lemma_answered_is_gone(q: Seq<PendingModel>, on_disk: Seq<char>)
    ensures
        !queued(without_work(q, on_disk), on_disk),
    decreases q.len(),
{
    if q.len() > 0 {
        lemma_answered_is_gone(q.drop_last(), on_disk);
        let head = without_work(q.drop_last(), on_disk);
        let all = without_work(q, on_disk);
        assert forall|i: int| 0 <= i < all.len() implies (#[trigger] all[i]).on_disk
            != on_disk by {
            if i < head.len() {
                assert(head[i].on_disk != on_disk);
            }
        }
    }
}

proof fn lemma_without_work_of_both(
    a: Seq<PendingModel>,
    b: Seq<PendingModel>,
    on_disk: Seq<char>,
)
    ensures
        without_work(a + b, on_disk) == without_work(a, on_disk) + without_work(b, on_disk),
    decreases b.len(),
{
    if b.len() == 0 {
        assert(a + b =~= a);
        assert(without_work(a, on_disk) + without_work(b, on_disk) =~= without_work(a, on_disk));
    } else {
        assert((a + b).drop_last() =~= a + b.drop_last());
        lemma_without_work_of_both(a, b.drop_last(), on_disk);
        assert(without_work(a + b, on_disk) =~= without_work(a, on_disk) + without_work(
            b,
            on_disk,
        ));
    }
}

/// What the network sees of a folder is exactly its files that are ticked, or all where
/// nothing was said, but for those whose name begins with a dot; each with its own size.
pub proof fn law_exactly_the_ticked_files_are_seen(
    t: &Ticked,
    items: Seq<Item>,
    name: Seq<char>,
    size: u64,
)
    ensures
        seen_files(t, items).contains((name, size)) <==> exists|i: int|
            0 <= i < items.len() && {
                &&& (#[trigger] items[i]).name@ == name
                &&& items[i].size == size
                &&& items[i].is_file
                &&& name.len() > 0 ==> name[0] != '.'
                &&& t.list is None || exists|k: int|
                    0 <= k < t.list.unwrap().len() && (#[trigger] t.list.unwrap()@[k])@ == name
            },
{
    lemma_same_names(sights(t, items, items.len() as int), (name, size));
    lemma_sights_of(t, items, items.len() as int, name, size);
    lemma_ticked(t, name);
}

proof fn lemma_ticked(t: &Ticked, name: Seq<char>)
    ensures
        may_have(t, name) <==> (t.list is None || exists|k: int|
            0 <= k < t.list.unwrap().len() && (#[trigger] t.list.unwrap()@[k])@ == name),
{
    if let Some(v) = t.list {
        if texts(v@).contains(name) {
            let k = choose|k: int| 0 <= k < texts(v@).len() && texts(v@)[k] == name;
            assert(v@[k]@ == name);
        }
        if exists|k: int| 0 <= k < v.len() && (#[trigger] v@[k])@ == name {
            let k = choose|k: int| 0 <= k < v.len() && (#[trigger] v@[k])@ == name;
            assert(texts(v@)[k] == name);
        }
    }
}

proof fn lemma_sights_of(t: &Ticked, items: Seq<Item>, n: int, name: Seq<char>, size: u64)
    requires
        0 <= n <= items.len(),
    ensures
        sights(t, items, n).contains((name, size)) <==> exists|i: int|
            0 <= i < n && (#[trigger] items[i]).name@ == name && items[i].size == size && in_sight(
                t,
                name,
                items[i].is_file,
            ),
    decreases n,
{
    if n > 0 {
        lemma_sights_of(t, items, n - 1, name, size);
        let head = sights(t, items, n - 1);
        let all = sights(t, items, n);
        let it = items[n - 1];
        if in_sight(t, it.name@, it.is_file) {
            assert(all[head.len() as int] == (it.name@, it.size));
            if head.contains((name, size)) {
                let k = choose|k: int| 0 <= k < head.len() && head[k] == (name, size);
                assert(all[k] == (name, size));
            }
            if all.contains((name, size)) && (it.name@, it.size) != (name, size) {
                let k = choose|k: int| 0 <= k < all.len() && all[k] == (name, size);
                assert(head[k] == (name, size));
            }
        }
    }
}

} // verus!
