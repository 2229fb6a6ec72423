//! Where handed-in work lands, and what its sender is told.

use super::names::{
    law_a_file_keeps_its_name, law_safe_name_stays_in_its_folder, letter_or_digit, ordinal,
    ordinal_ending, safe_name, sanitize_filename, versioned, versioned_name,
};
use crate::number::{decimal, push_decimal};
use crate::text::{lemma_last_char_at, text_view, texts};
use vstd::prelude::*;

verus! {

/// The name of the folder, inside the served one, that handed-in work lands in.
pub const HANDED_IN: &'static str = "handed-in";

/// The steps from the served folder to where handed-in work lives: inside it,
/// because that is the one place the teacher can reach, under a name that is
/// never served.
pub fn handed_in_dir() -> (way: Vec<String>)
    ensures
        texts(way@) == seq![HANDED_IN@],
{
    let mut way: Vec<String> = Vec::new();
    way.push(HANDED_IN.to_owned());
    assert(texts(way@) =~= seq![HANDED_IN@]);
    way
}

/// The steps to the work that waits for an answer.
pub fn waiting_dir() -> (way: Vec<String>)
    ensures
        texts(way@) == seq![HANDED_IN@, "waiting"@],
{
    let mut way: Vec<String> = Vec::new();
    way.push(HANDED_IN.to_owned());
    way.push("waiting".to_owned());
    assert(texts(way@) =~= seq![HANDED_IN@, "waiting"@]);
    way
}

/// The steps to the work that was refused, which is kept.
pub fn refused_dir() -> (way: Vec<String>)
    ensures
        texts(way@) == seq![HANDED_IN@, "refused"@],
{
    let mut way: Vec<String> = Vec::new();
    way.push(HANDED_IN.to_owned());
    way.push("refused".to_owned());
    assert(texts(way@) =~= seq![HANDED_IN@, "refused"@]);
    way
}

/// The name handed-in work is kept under: who sent it, two dashes, what it was
/// called.
pub open spec fn landing_name(label: Seq<char>, filename: Seq<char>) -> Seq<char> {
    safe_name(label) + "--"@ + safe_name(filename)
}

/// The name handed-in work is kept under.
pub fn landing_base(label: &str, filename: &str) -> (name: String)
    ensures
        name@ == landing_name(label@, filename@),
{
    let mut s = String::new();
    s.append(sanitize_filename(label).as_str());
    s.append("--");
    s.append(sanitize_filename(filename).as_str());
    assert(s@ =~= landing_name(label@, filename@));
    s
}

/// Work handed in lands in its folder and nowhere else, whatever its sender or
/// its file is called.
pub proof fn law_work_lands_in_its_folder(label: Seq<char>, filename: Seq<char>)
    ensures
        landing_name(label, filename).len() > 0,
        landing_name(label, filename)[0] != '.',
        forall|i: int|
            0 <= i < landing_name(label, filename).len() ==> #[trigger] landing_name(
                label,
                filename,
            )[i] != '/' && landing_name(label, filename)[i] != '\\',
{
    law_safe_name_stays_in_its_folder(label);
    law_safe_name_stays_in_its_folder(filename);
    reveal_strlit("--");
    let a = safe_name(label);
    let b = safe_name(filename);
    let n = landing_name(label, filename);
    assert forall|i: int| 0 <= i < n.len() implies #[trigger] n[i] != '/' && n[i] != '\\' by {
        if i < a.len() {
            assert(n[i] == a[i]);
        } else if i >= a.len() + 2 {
            assert(n[i] == b[i - a.len() - 2]);
        }
    }
}

/// The name tried for a version: the plain one first.
pub open spec fn candidate(base: Seq<char>, version: int) -> Seq<char> {
    if version <= 1 {
        base
    } else {
        versioned_name(base, version)
    }
}

/// The name tried for a version.
pub fn candidate_name(base: &str, version: u32) -> (name: String)
    ensures
        name@ == candidate(base@, version as int),
{
    if version <= 1 {
        base.to_owned()
    } else {
        versioned(base, version)
    }
}

/// What to do with a name that was tried.
#[derive(Clone, Copy, PartialEq, Eq, Structural, Debug)]
pub enum Landing {
    /// Nothing is there: land under this name.
    Here,
    /// The same bytes are there already: a retry of what has landed.
    Already,
    /// Something else is there: try the next version.
    Next,
}

/// What to do with a name that was tried, from whether something has it and whether
/// that is the same bytes.
pub open spec fn step_of(exists_there: bool, same_bytes: bool) -> Landing {
    if !exists_there {
        Landing::Here
    } else if same_bytes {
        Landing::Already
    } else {
        Landing::Next
    }
}

/// Decide about a name that was tried, from whether something has it and whether
/// that is the same bytes.
pub fn landing_step(exists_there: bool, same_bytes: bool) -> (l: Landing)
    ensures
        l == step_of(exists_there, same_bytes),
{
    if !exists_there {
        Landing::Here
    } else if same_bytes {
        Landing::Already
    } else {
        Landing::Next
    }
}

/// How an upload ended.
#[derive(Clone, Copy, PartialEq, Eq, Structural, Debug)]
pub enum End {
    NothingSent,
    TooBig,
    CannotSave,
    Already,
    Landed { version: u32 },
}

/// What the page and the roster say about an upload.
pub struct UploadOutcome {
    pub tag: &'static str,
    /// What the roster shows, such as "homework.jpg (2nd version)".
    pub shown: Option<String>,
}

/// What the page says about an upload.
pub open spec fn end_tag(e: End) -> Seq<char> {
    match e {
        End::NothingSent => "empty"@,
        End::TooBig => "toobig"@,
        End::CannotSave => "cantsave"@,
        End::Already => "handin"@,
        End::Landed { .. } => "handin"@,
    }
}

/// What the roster shows about an upload.
pub open spec fn end_shown(e: End, clean: Seq<char>) -> Option<Seq<char>> {
    match e {
        End::Already => Some(clean),
        End::Landed { version } => if version > 1 {
            Some(
                clean + " ("@ + decimal(version as int) + ordinal_ending(version as int)
                    + " version)"@,
            )
        } else {
            Some(clean)
        },
        _ => None,
    }
}

/// What the page and the roster say about an upload.
pub fn upload_outcome(e: End, clean: &str) -> (o: UploadOutcome)
    ensures
        o.tag@ == end_tag(e),
        text_view(o.shown) == end_shown(e, clean@),
{
    match e {
        End::NothingSent => UploadOutcome { tag: "empty", shown: None },
        End::TooBig => UploadOutcome { tag: "toobig", shown: None },
        End::CannotSave => UploadOutcome { tag: "cantsave", shown: None },
        End::Already => UploadOutcome { tag: "handin", shown: Some(clean.to_owned()) },
        End::Landed { version } => {
            let mut s = String::new();
            s.append(clean);
            if version > 1 {
                s.append(" (");
                push_decimal(&mut s, version as u64);
                s.append(ordinal(version));
                s.append(" version)");
                assert(s@ =~= clean@ + " ("@ + decimal(version as int) + ordinal_ending(
                    version as int,
                ) + " version)"@);
            } else {
                assert(s@ =~= clean@);
            }
            UploadOutcome { tag: "handin", shown: Some(s) }
        },
    }
}

/// How several files of one upload end together: trouble with one of them is told,
/// and nothing more to come changes nothing.
pub open spec fn ended_together(so_far: End, next: End) -> End {
    if so_far == End::CannotSave || next == End::NothingSent {
        so_far
    } else {
        next
    }
}

/// How several files of one upload end together.
pub fn together(so_far: End, next: End) -> (e: End)
    ensures
        e == ended_together(so_far, next),
{
    if so_far == End::CannotSave || next == End::NothingSent {
        so_far
    } else {
        next
    }
}

/// No file that could not be saved is passed over in silence, whatever comes after it
/// or came before.
pub proof fn law_trouble_with_one_file_is_told(so_far: End, next: End)
    ensures
        end_tag(ended_together(End::CannotSave, next)) == "cantsave"@,
        end_tag(ended_together(so_far, End::CannotSave)) == "cantsave"@,
{
}

// ------------------------------------------------------------- the folder

/// What a folder holds: bytes by name.
pub type Folder = Map<Seq<char>, Seq<u8>>;

/// The folder after some bytes have landed in it, from a version on, and how that ended.
pub open spec fn landed_from(
    folder: Folder,
    base: Seq<char>,
    bytes: Seq<u8>,
    version: u32,
) -> (Folder, End)
    decreases u32::MAX - version,
{
    let name = candidate(base, version as int);
    match step_of(folder.contains_key(name), folder[name] == bytes) {
        Landing::Here => (folder.insert(name, bytes), End::Landed { version }),
        Landing::Already => (folder, End::Already),
        Landing::Next => if version < u32::MAX {
            landed_from(folder, base, bytes, (version + 1) as u32)
        } else {
            (folder, End::CannotSave)
        },
    }
}

/// The folder after some bytes have landed in it under a name, and how that ended.
pub open spec fn landed(folder: Folder, base: Seq<char>, bytes: Seq<u8>) -> (Folder, End) {
    landed_from(folder, base, bytes, 1)
}

/// Whether all that was in a folder is still there as it was.
pub open spec fn all_kept(before: Folder, after: Folder) -> bool {
    forall|name: Seq<char>| #[trigger]
        before.contains_key(name) ==> after.contains_key(name) && after[name] == before[name]
}

proof fn lemma_landed_from(folder: Folder, base: Seq<char>, bytes: Seq<u8>, version: u32)
    ensures
        all_kept(folder, landed_from(folder, base, bytes, version).0),
        landed_from(folder, base, bytes, version).1 != End::CannotSave ==> landed_from(
            landed_from(folder, base, bytes, version).0,
            base,
            bytes,
            version,
        ) == (landed_from(folder, base, bytes, version).0, End::Already),
    decreases u32::MAX - version,
{
    let name = candidate(base, version as int);
    let f = landed_from(folder, base, bytes, version).0;
    if !folder.contains_key(name) {
        assert(f == folder.insert(name, bytes));
        assert(landed_from(f, base, bytes, version) == (f, End::Already));
    } else if folder[name] == bytes {
        assert(f == folder);
    } else if version < u32::MAX {
        let next = (version + 1) as u32;
        lemma_landed_from(folder, base, bytes, next);
        assert(f == landed_from(folder, base, bytes, next).0);
        assert(f.contains_key(name) && f[name] == folder[name]);
        assert(landed_from(f, base, bytes, version) == landed_from(f, base, bytes, next));
    }
}

/// Nothing that has landed is ever changed or taken away by what lands later, and the
/// same bytes sent again land once: the second time they are found, and told as handed
/// in like the first.
pub proof fn law_sent_twice_lands_once(folder: Folder, base: Seq<char>, bytes: Seq<u8>)
    ensures
        all_kept(folder, landed(folder, base, bytes).0),
        landed(folder, base, bytes).1 != End::CannotSave ==> {
            let once = landed(folder, base, bytes).0;
            &&& end_tag(landed(folder, base, bytes).1) == "handin"@
            &&& landed(once, base, bytes).0 == once
            &&& end_tag(landed(once, base, bytes).1) == "handin"@
        },
{
    lemma_landed_from(folder, base, bytes, 1);
    lemma_how_it_ends(folder, base, bytes, 1);
}

proof fn lemma_how_it_ends(folder: Folder, base: Seq<char>, bytes: Seq<u8>, version: u32)
    ensures
        ({
            let e = landed_from(folder, base, bytes, version).1;
            e == End::CannotSave || e == End::Already || e is Landed
        }),
    decreases u32::MAX - version,
{
    let name = candidate(base, version as int);
    if folder.contains_key(name) && folder[name] != bytes && version < u32::MAX {
        lemma_how_it_ends(folder, base, bytes, (version + 1) as u32);
    }
}

proof fn lemma_second_name_differs(base: Seq<char>)
    ensures
        candidate(base, 2) != base,
{
    reveal_strlit("--v");
    lemma_last_char_at(base, '.');
    assert(candidate(base, 2).len() > base.len());
}

/// Work lands under its own name where nothing has that name yet, and what else is
/// later handed in under the same name becomes a second version beside it.
pub proof fn law_other_bytes_become_a_second_version(
    folder: Folder,
    base: Seq<char>,
    first: Seq<u8>,
    second: Seq<u8>,
)
    requires
        !folder.contains_key(base),
        !folder.contains_key(candidate(base, 2)),
        first != second,
    ensures
        landed(folder, base, first) == (
            folder.insert(base, first),
            End::Landed { version: 1 },
        ),
        landed(folder.insert(base, first), base, second) == (
            folder.insert(base, first).insert(candidate(base, 2), second),
            End::Landed { version: 2 },
        ),
        candidate(base, 2) != base,
{
    lemma_second_name_differs(base);
    reveal_with_fuel(landed_from, 3);
}

/// Work is kept under who sent it and what it was called, with two hyphens between them.
pub proof fn law_work_is_kept_under_its_names(label: Seq<char>, filename: Seq<char>)
    requires
        0 < label.len() <= 120,
        0 < filename.len() <= 120,
        forall|i: int| 0 <= i < label.len() ==> letter_or_digit(#[trigger] label[i]) || label[i] == ' ',
        label[0] != ' ' && label.last() != ' ',
        forall|i: int|
            0 <= i < filename.len() ==> letter_or_digit(#[trigger] filename[i]) || filename[i] == '.',
        filename[0] != '.' && filename.last() != '.',
    ensures
        landing_name(label, filename) == label + seq!['-', '-'] + filename,
{
    reveal_strlit("--");
    assert forall|i: int| 0 <= i < label.len() implies #[trigger] label[i] != '/' && label[i]
        != '\\' by {
        assert(letter_or_digit(label[i]) || label[i] == ' ');
    }
    assert forall|i: int| 0 <= i < filename.len() implies #[trigger] filename[i] != '/'
        && filename[i] != '\\' by {
        assert(letter_or_digit(filename[i]) || filename[i] == '.');
    }
    assert(letter_or_digit(label[label.len() - 1]) || label[label.len() - 1] == ' ');
    assert(letter_or_digit(filename[filename.len() - 1]) || filename[filename.len() - 1] == '.');
    law_a_file_keeps_its_name(Seq::empty(), '/', label);
    law_a_file_keeps_its_name(Seq::empty(), '/', filename);
    assert forall|i: int| 0 <= i < label.len() implies #[trigger] safe_name(label)[i] == label[i] by {
        assert(letter_or_digit(label[i]) || label[i] == ' ');
    }
    assert forall|i: int| 0 <= i < filename.len() implies #[trigger] safe_name(filename)[i]
        == filename[i] by {
        assert(letter_or_digit(filename[i]) || filename[i] == '.');
    }
    assert(safe_name(label) =~= label);
    assert(safe_name(filename) =~= filename);
    assert("--"@ =~= seq!['-', '-']);
}

proof fn lemma_landed_at(folder: Folder, base: Seq<char>, bytes: Seq<u8>, v: u32, n: u32)
    requires
        1 <= v <= n,
        forall|k: int|
            v <= k < n ==> folder.contains_key(#[trigger] candidate(base, k)) && folder[candidate(
                base,
                k,
            )] != bytes,
    ensures
        !folder.contains_key(candidate(base, n as int)) ==> landed_from(folder, base, bytes, v) == (
            folder.insert(candidate(base, n as int), bytes),
            End::Landed { version: n },
        ),
        folder.contains_key(candidate(base, n as int)) && folder[candidate(base, n as int)] == bytes
            ==> landed_from(folder, base, bytes, v) == (folder, End::Already),
    decreases n - v,
{
    if v < n {
        assert(folder.contains_key(candidate(base, v as int)));
        lemma_landed_at(folder, base, bytes, (v + 1) as u32, n);
    }
}

/// Work lands under the first of its names that is free or holds the same already, after
/// however many versions: the first name is the plain one, and each other tells its
/// number.
pub proof fn law_work_lands_behind_its_versions(
    folder: Folder,
    base: Seq<char>,
    bytes: Seq<u8>,
    n: u32,
)
    requires
        1 <= n,
        forall|k: int|
            1 <= k < n ==> folder.contains_key(#[trigger] candidate(base, k)) && folder[candidate(
                base,
                k,
            )] != bytes,
    ensures
        ({
            let name = if n == 1 {
                base
            } else {
                versioned_name(base, n as int)
            };
            &&& !folder.contains_key(name) ==> landed(folder, base, bytes) == (
                folder.insert(name, bytes),
                End::Landed { version: n },
            )
            &&& folder.contains_key(name) && folder[name] == bytes ==> landed(folder, base, bytes)
                == (folder, End::Already)
        }),
{
    lemma_landed_at(folder, base, bytes, 1, n);
}

/// A file that has landed is told as handed in, and by name; trouble is told as what it
/// was, and no name with it; and of several files the last that was sent tells.
pub proof fn law_how_an_upload_is_told(clean: Seq<char>, so_far: End, version: u32)
    ensures
        end_tag(End::Landed { version }) == end_tag(End::Already),
        end_tag(End::Already) != end_tag(End::NothingSent),
        end_tag(End::Already) != end_tag(End::TooBig),
        end_tag(End::Already) != end_tag(End::CannotSave),
        end_tag(End::NothingSent) != end_tag(End::TooBig),
        end_tag(End::NothingSent) != end_tag(End::CannotSave),
        end_tag(End::TooBig) != end_tag(End::CannotSave),
        end_shown(End::Already, clean) == Some(clean),
        version <= 1 ==> end_shown(End::Landed { version }, clean) == Some(clean),
        end_shown(End::NothingSent, clean) is None,
        end_shown(End::TooBig, clean) is None,
        end_shown(End::CannotSave, clean) is None,
        so_far != End::CannotSave ==> ended_together(so_far, End::Landed { version })
            == (End::Landed { version }),
        so_far != End::CannotSave ==> ended_together(so_far, End::TooBig) == End::TooBig,
        so_far != End::CannotSave ==> ended_together(so_far, End::Already) == End::Already,
        ended_together(so_far, End::NothingSent) == so_far,
{
    reveal_strlit("empty");
    reveal_strlit("toobig");
    reveal_strlit("cantsave");
    reveal_strlit("handin");
    assert("empty"@.len() == 5 && "toobig"@.len() == 6 && "cantsave"@.len() == 8 && "handin"@.len()
        == 6);
    assert("toobig"@[0] == 't' && "handin"@[0] == 'h');
}

} // verus!
