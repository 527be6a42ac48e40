//! The diff classifier: from the line records of a diff to the change events
//! that are worth resolving.

use vstd::prelude::*;
use crate::text::{blank, chars_of, is_blank};

verus! {

/// Which revision of a document a change has to be looked up in.
#[derive(Clone, Copy, Debug, PartialEq, Eq, Structural)]
pub enum Version {
    /// The revision before the change: the last committed one.
    Old,
    /// The revision after the change.
    New,
}

/// One line record of a diff, as the diff reports it.
pub struct DiffLine {
    /// The path of the file on the new side, relative to the repository and
    /// with `/` between its components; `None` where the new side has none.
    pub new_path: Option<String>,
    /// The content of the line.
    pub content: String,
    /// The number of the line in the old revision, if it is part of it.
    pub old_lineno: Option<u32>,
    /// The number of the line in the new revision, if it is part of it.
    pub new_lineno: Option<u32>,
}

/// One changed line in a document of the watched type.
#[derive(Debug, Clone)]
pub struct Change {
    /// Line number where the change happened, 1 based.
    pub line: u32,
    pub path: String,
    /// Whether to check the previous or changed version of the file.
    /// E.g. pure deletions should be checked in the `Old` version,
    /// pure additions in the `New`.
    pub version: Version,
    /// The content of the changed line, for diagnostics.
    pub text: String,
}

/// The mathematical value of a [`DiffLine`].
pub struct DiffLineView {
    pub new_path: Option<Seq<char>>,
    pub content: Seq<char>,
    pub old_lineno: Option<u32>,
    pub new_lineno: Option<u32>,
}

/// The mathematical value of a [`Change`].
pub struct ChangeView {
    pub line: u32,
    pub path: Seq<char>,
    pub version: Version,
    pub text: Seq<char>,
}

impl View for DiffLine {
    type V = DiffLineView;

    open spec fn view(&self) -> DiffLineView {
        DiffLineView {
            new_path: match self.new_path {
                Some(path) => Some(path@),
                None => None,
            },
            content: self.content@,
            old_lineno: self.old_lineno,
            new_lineno: self.new_lineno,
        }
    }
}

impl View for Change {
    type V = ChangeView;

    open spec fn view(&self) -> ChangeView {
        ChangeView { line: self.line, path: self.path@, version: self.version, text: self.text@ }
    }
}

/// The values of a list of line records.
pub open spec fn record_views(records: Seq<DiffLine>) -> Seq<DiffLineView> {
    Seq::new(records.len(), |i: int| records[i]@)
}

/// The values of a list of change events.
pub open spec fn change_views(changes: Seq<Change>) -> Seq<ChangeView> {
    Seq::new(changes.len(), |i: int| changes[i]@)
}

/// The index of the last `c` in `s`, or -1 where `s` holds none.
pub open spec fn last_index_of(s: Seq<char>, c: char) -> int
    decreases s.len(),
{
    if s.len() == 0 {
        -1
    } else if s.last() == c {
        s.len() - 1
    } else {
        last_index_of(s.drop_last(), c)
    }
}

/// The last component of a repository path: what follows its last `/`.
pub open spec fn file_name(path: Seq<char>) -> Seq<char> {
    path.skip(last_index_of(path, '/') + 1)
}

/// The extension of a repository path: what follows the last `.` of its file
/// name. A file name without a `.`, one whose only `.` is its first
/// character, and the name `..` have no extension.
pub open spec fn extension(path: Seq<char>) -> Option<Seq<char>> {
    let name = file_name(path);
    let dot = last_index_of(name, '.');
    if dot <= 0 || name == seq!['.', '.'] {
        None
    } else {
        Some(name.skip(dot + 1))
    }
}

/// Whether a record belongs to a file of the watched type.
pub open spec fn is_watched(new_path: Option<Seq<char>>, watched: Seq<char>) -> bool {
    new_path matches Some(path) && extension(path) == Some(watched)
}

/// The revision and line that a record's line numbers stand for. A line with
/// a number on the new side is read there, also where the old side has it
/// too; a line of the old side alone is read there; a record without line
/// numbers is no line of content.
pub open spec fn side(old_lineno: Option<u32>, new_lineno: Option<u32>) -> Option<(Version, u32)> {
    match (old_lineno, new_lineno) {
        (_, Some(line)) => Some((Version::New, line)),
        (Some(line), None) => Some((Version::Old, line)),
        (None, None) => None,
    }
}

/// The change event that a line record gives rise to, if any. A record of a
/// file that is not of the watched type, a record whose content is blank and
/// a record without line numbers give none.
pub open spec fn classified(record: DiffLineView, watched: Seq<char>) -> Option<ChangeView> {
    if !is_watched(record.new_path, watched) || blank(record.content) {
        None
    } else {
        match side(record.old_lineno, record.new_lineno) {
            Some((version, line)) => Some(
                ChangeView { line, path: record.new_path->0, version, text: record.content },
            ),
            None => None,
        }
    }
}

/// The change events of a list of records, in the order of the records.
pub open spec fn changes_of(records: Seq<DiffLineView>, watched: Seq<char>) -> Seq<ChangeView>
    decreases records.len(),
{
    if records.len() == 0 {
        Seq::empty()
    } else {
        let rest = changes_of(records.drop_last(), watched);
        match classified(records.last(), watched) {
            Some(change) => rest.push(change),
            None => rest,
        }
    }
}

/// A record is well formed when the line numbers in it count from 1.
pub open spec fn counts_from_one(record: DiffLineView) -> bool {
    &&& record.old_lineno matches Some(line) ==> line >= 1
    &&& record.new_lineno matches Some(line) ==> line >= 1
}

/// Records of files that are not of the watched type give no change event,
/// whatever their content and line numbers are.
pub proof fn lemma_unwatched_files_give_no_changes(records: Seq<DiffLineView>, watched: Seq<char>)
    requires
        forall|i: int|
            0 <= i < records.len() ==> !is_watched((#[trigger] records[i]).new_path, watched),
    ensures
        changes_of(records, watched) == Seq::<ChangeView>::empty(),
    decreases records.len(),
{
    if records.len() > 0 {
        assert forall|i: int| 0 <= i < records.drop_last().len() implies !is_watched(
            (#[trigger] records.drop_last()[i]).new_path,
            watched,
        ) by {
            assert(records.drop_last()[i] == records[i]);
        }
        lemma_unwatched_files_give_no_changes(records.drop_last(), watched);
    }
}

/// Every change event comes from a record of a watched file with content
/// that is not blank, carries the path and content of that record, and
/// follows the events of earlier records. Its line counts from 1 where the
/// line numbers of the records do. There are no more events than records.
pub proof fn lemma_changes_come_from_records(records: Seq<DiffLineView>, watched: Seq<char>)
    ensures
        changes_of(records, watched).len() <= records.len(),
        forall|k: int|
            0 <= k < changes_of(records, watched).len() ==> exists|i: int|
                0 <= i < records.len() && classified(#[trigger] records[i], watched) == Some(
                    #[trigger] changes_of(records, watched)[k],
                ),
        (forall|i: int| 0 <= i < records.len() ==> counts_from_one(#[trigger] records[i]))
            ==> forall|k: int|
            0 <= k < changes_of(records, watched).len() ==> (#[trigger] changes_of(
                records,
                watched,
            )[k]).line >= 1,
    decreases records.len(),
{
    let changes = changes_of(records, watched);
    if records.len() > 0 {
        let head = records.drop_last();
        let rest = changes_of(head, watched);
        lemma_changes_come_from_records(head, watched);
        assert forall|k: int| 0 <= k < changes.len() implies exists|i: int|
            0 <= i < records.len() && classified(#[trigger] records[i], watched) == Some(
                #[trigger] changes[k],
            ) by {
            if k < rest.len() {
                assert(changes[k] == rest[k]);
                let i = choose|i: int|
                    0 <= i < head.len() && classified(#[trigger] head[i], watched) == Some(
                        rest[k],
                    );
                assert(records[i] == head[i]);
            } else {
                assert(classified(records[records.len() - 1], watched) == Some(changes[k]));
            }
        }
        if forall|i: int| 0 <= i < records.len() ==> counts_from_one(#[trigger] records[i]) {
            assert forall|i: int| 0 <= i < head.len() implies counts_from_one(
                #[trigger] head[i],
            ) by {
                assert(head[i] == records[i]);
            }
            assert forall|k: int| 0 <= k < changes.len() implies (#[trigger] changes[k]).line
                >= 1 by {
                if k < rest.len() {
                    assert(changes[k] == rest[k]);
                } else {
                    assert(counts_from_one(records[records.len() - 1]));
                }
            }
        }
    }
}

/// `last_index_of` gives the one index that holds `c` and has no `c` behind
/// it.
pub proof fn lemma_last_index_of(s: Seq<char>, c: char, at: int)
    requires
        -1 <= at < s.len(),
        at >= 0 ==> s[at] == c,
        forall|k: int| at < k < s.len() ==> s[k] != c,
    ensures
        last_index_of(s, c) == at,
    decreases s.len(),
{
    if s.len() > 0 && s.last() != c {
        lemma_last_index_of(s.drop_last(), c, at);
    }
}

/// Whether the repository path `path` has the extension `watched`.
pub fn has_extension(path: &str, watched: &str) -> (r: bool)
    ensures
        r == (extension(path@) == Some(watched@)),
{
    let p = chars_of(path);
    let w = chars_of(watched);
    // The last `.` that no `/` follows.
    let mut dot: usize = p.len();
    while dot > 0 && p[dot - 1] != '/' && p[dot - 1] != '.'
        invariant
            dot <= p.len(),
            forall|k: int| dot <= k < p.len() ==> p@[k] != '/' && p@[k] != '.',
        decreases dot,
    {
        dot -= 1;
    }
    if dot == 0 || p[dot - 1] == '/' {
        proof {
            lemma_last_index_of(p@, '/', dot - 1);
            lemma_last_index_of(file_name(p@), '.', -1);
        }
        return false;
    }
    dot -= 1;
    let mut start: usize = dot;
    while start > 0 && p[start - 1] != '/'
        invariant
            start <= dot < p.len(),
            forall|k: int| start <= k < p.len() ==> p@[k] != '/',
        decreases start,
    {
        start -= 1;
    }
    proof {
        lemma_last_index_of(p@, '/', start - 1);
        lemma_last_index_of(file_name(p@), '.', dot - start);
    }
    let ghost name = file_name(p@);
    if dot == start {
        return false;
    }
    if p.len() - start == 2 && p[start] == '.' {
        proof {
            assert(name == seq!['.', '.']);
        }
        return false;
    }
    proof {
        if name == seq!['.', '.'] {
            assert(name.len() == 2);
            assert(name[0] == '.');
        }
        assert(name.skip(dot - start + 1) == p@.skip(dot + 1));
    }
    let from: usize = dot + 1;
    if p.len() - from != w.len() {
        return false;
    }
    let mut i: usize = 0;
    while i < w.len()
        invariant
            from <= p.len(),
            p.len() - from == w.len(),
            i <= w.len(),
            w@ == watched@,
            extension(path@) == Some(p@.skip(from as int)),
            forall|k: int| 0 <= k < i ==> p@[from + k] == w@[k],
        decreases w.len() - i,
    {
        if p[from + i] != w[i] {
            proof {
                assert(p@.skip(from as int)[i as int] != w@[i as int]);
            }
            return false;
        }
        i += 1;
    }
    proof {
        assert(p@.skip(from as int) == w@);
    }
    true
}

/// The change event that `record` gives rise to when files with the extension
/// `watched` are looked at.
pub fn classify(record: &DiffLine, watched: &str) -> (change: Option<Change>)
    ensures
        match change {
            Some(change) => classified(record@, watched@) == Some(change@),
            None => classified(record@, watched@) is None,
        },
{
    let path = match &record.new_path {
        Some(path) => path,
        None => {
            return None;
        },
    };
    if !has_extension(path.as_str(), watched) {
        return None;
    }
    let content = chars_of(record.content.as_str());
    if is_blank(&content) {
        return None;
    }
    let (version, line) = match (record.old_lineno, record.new_lineno) {
        (_, Some(line)) => (Version::New, line),
        (Some(line), None) => (Version::Old, line),
        (None, None) => {
            return None;
        },
    };
    Some(Change { line, path: path.clone(), version, text: record.content.clone() })
}

/// The change events of the line records of a diff, in the order of the
/// records, for files with the extension `watched`.
pub fn changes_in_tests(records: &Vec<DiffLine>, watched: &str) -> (changes: Vec<Change>)
    ensures
        change_views(changes@) == changes_of(record_views(records@), watched@),
{
    let mut changes: Vec<Change> = Vec::new();
    let mut i: usize = 0;
    while i < records.len()
        invariant
            i <= records.len(),
            change_views(changes@) == changes_of(
                record_views(records@).take(i as int),
                watched@,
            ),
        decreases records.len() - i,
    {
        let ghost before = change_views(changes@);
        let found = classify(&records[i], watched);
        proof {
            let head = record_views(records@).take(i + 1);
            assert(head.drop_last() == record_views(records@).take(i as int));
            assert(head.last() == records@[i as int]@);
        }
        if let Some(change) = found {
            changes.push(change);
            proof {
                assert(change_views(changes@) == before.push(change@));
            }
        }
        i += 1;
    }
    proof {
        assert(record_views(records@).take(i as int) == record_views(records@));
    }
    changes
}

} // verus!
