//! The message inserter: a trailer placed into a commit message, before the
//! block of instructions that an editing tool may have put at its end.

use vstd::prelude::*;
use crate::text::{blank, chars_of, is_blank, push_all, text_of};

verus! {

/// A line without the carriage return that may stand before its terminator.
pub open spec fn without_carriage_return(line: Seq<char>) -> Seq<char> {
    if line.len() > 0 && line.last() == '\r' {
        line.drop_last()
    } else {
        line
    }
}

/// The lines of `s` from the line that starts at `start` on, where the
/// characters from `start` up to `at` are known to hold no newline. A line
/// ends before a newline, or before a carriage return and a newline; neither
/// is part of it. What follows the last newline, if anything, is one more
/// line, taken as it is.
pub open spec fn lines_from(s: Seq<char>, start: int, at: int) -> Seq<Seq<char>>
    decreases s.len() - at,
{
    if at >= s.len() {
        if start < at {
            seq![s.subrange(start, at)]
        } else {
            Seq::empty()
        }
    } else if s[at] == '\n' {
        seq![without_carriage_return(s.subrange(start, at))] + lines_from(s, at + 1, at + 1)
    } else {
        lines_from(s, start, at + 1)
    }
}

/// The physical lines of a text, without their terminators.
pub open spec fn physical_lines(s: Seq<char>) -> Seq<Seq<char>> {
    lines_from(s, 0, 0)
}

/// The index of the last blank line, if there is one.
pub open spec fn last_blank(lines: Seq<Seq<char>>) -> Option<int>
    decreases lines.len(),
{
    if lines.len() == 0 {
        None
    } else if blank(lines.last()) {
        Some(lines.len() - 1)
    } else {
        last_blank(lines.drop_last())
    }
}

/// Where the trailer goes: before the last blank line, or behind all lines
/// where none is blank.
pub open spec fn insertion_point(lines: Seq<Seq<char>>) -> int {
    match last_blank(lines) {
        Some(k) => k,
        None => lines.len() as int,
    }
}

/// The lines with a blank line and the trailer put in at the insertion point.
pub open spec fn extended_lines(lines: Seq<Seq<char>>, trailer: Seq<char>) -> Seq<Seq<char>> {
    let k = insertion_point(lines);
    lines.insert(k, trailer).insert(k, Seq::empty())
}

/// The text that holds the given lines, each followed by a newline.
pub open spec fn terminated(lines: Seq<Seq<char>>) -> Seq<char>
    decreases lines.len(),
{
    if lines.len() == 0 {
        Seq::empty()
    } else {
        terminated(lines.drop_last()) + lines.last() + seq!['\n']
    }
}

/// The message with the trailer put into it.
pub open spec fn extended(message: Seq<char>, trailer: Seq<char>) -> Seq<char> {
    terminated(extended_lines(physical_lines(message), trailer))
}

/// The texts of a list of lines.
pub open spec fn line_views(lines: Seq<Vec<char>>) -> Seq<Seq<char>> {
    Seq::new(lines.len(), |i: int| lines[i]@)
}

/// The characters of `chars` from `start` up to `end`.
fn slice_of(chars: &Vec<char>, start: usize, end: usize) -> (line: Vec<char>)
    requires
        start <= end <= chars.len(),
    ensures
        line@ == chars@.subrange(start as int, end as int),
{
    let mut line: Vec<char> = Vec::new();
    let mut i: usize = start;
    while i < end
        invariant
            start <= i <= end <= chars.len(),
            line@ == chars@.subrange(start as int, i as int),
        decreases end - i,
    {
        line.push(chars[i]);
        i += 1;
    }
    line
}

/// The physical lines of `chars`.
pub fn split_lines(chars: &Vec<char>) -> (lines: Vec<Vec<char>>)
    ensures
        line_views(lines@) == physical_lines(chars@),
{
    let mut lines: Vec<Vec<char>> = Vec::new();
    let mut start: usize = 0;
    let mut at: usize = 0;
    while at < chars.len()
        invariant
            start <= at <= chars.len(),
            line_views(lines@) + lines_from(chars@, start as int, at as int) == physical_lines(
                chars@,
            ),
        decreases chars.len() - at,
    {
        if chars[at] == '\n' {
            let end: usize = if start < at && chars[at - 1] == '\r' {
                at - 1
            } else {
                at
            };
            let line = slice_of(chars, start, end);
            let ghost before = line_views(lines@);
            proof {
                let whole = chars@.subrange(start as int, at as int);
                if start < at {
                    assert(whole.last() == chars@[at - 1]);
                }
                assert(line@ == without_carriage_return(whole));
            }
            lines.push(line);
            proof {
                assert(line_views(lines@) == before.push(line@));
                assert(line_views(lines@) + lines_from(chars@, at + 1, at + 1) == before
                    + lines_from(chars@, start as int, at as int));
            }
            start = at + 1;
        }
        at += 1;
    }
    if start < at {
        let line = slice_of(chars, start, at);
        let ghost before = line_views(lines@);
        lines.push(line);
        proof {
            assert(line_views(lines@) == before + lines_from(chars@, start as int, at as int));
        }
    } else {
        proof {
            assert(line_views(lines@) + Seq::<Seq<char>>::empty() == line_views(lines@));
        }
    }
    lines
}

/// `last_blank` gives the one index that holds a blank line and has none
/// behind it.
pub proof fn lemma_last_blank(lines: Seq<Seq<char>>)
    ensures
        match last_blank(lines) {
            Some(k) => 0 <= k < lines.len() && blank(lines[k]) && forall|j: int|
                k < j < lines.len() ==> !blank(#[trigger] lines[j]),
            None => forall|j: int| 0 <= j < lines.len() ==> !blank(#[trigger] lines[j]),
        },
    decreases lines.len(),
{
    if lines.len() > 0 && !blank(lines.last()) {
        let head = lines.drop_last();
        lemma_last_blank(head);
        match last_blank(head) {
            Some(k) => {
                assert forall|j: int| k < j < lines.len() implies !blank(#[trigger] lines[j]) by {
                    if j < head.len() {
                        assert(lines[j] == head[j]);
                    }
                }
            },
            None => {
                assert forall|j: int| 0 <= j < lines.len() implies !blank(#[trigger] lines[j]) by {
                    if j < head.len() {
                        assert(lines[j] == head[j]);
                    }
                }
            },
        }
    }
}

/// The index of the last blank line, or the number of lines where none is
/// blank.
fn find_insertion_point(lines: &Vec<Vec<char>>) -> (k: usize)
    ensures
        k == insertion_point(line_views(lines@)),
        k <= lines.len(),
{
    let mut at: usize = lines.len();
    proof {
        assert(line_views(lines@).take(at as int) == line_views(lines@));
    }
    while at > 0
        invariant
            at <= lines.len(),
            last_blank(line_views(lines@)) == last_blank(line_views(lines@).take(at as int)),
        decreases at,
    {
        let ghost head = line_views(lines@).take(at as int);
        proof {
            assert(head.last() == lines@[at - 1]@);
            assert(head.drop_last() == line_views(lines@).take(at - 1));
        }
        if is_blank(&lines[at - 1]) {
            return at - 1;
        }
        at -= 1;
    }
    proof {
        assert(line_views(lines@).take(0).len() == 0);
    }
    lines.len()
}

/// Insert the trailer in the "correct" position of a commit message.
///
/// This is not strictly the end, as the message might contain instructions
/// from git, and we want the trailer to appear before those: a blank line and
/// the trailer go before the last blank line of the message, or to its end
/// where it has none. Every line of the result ends in a newline.
pub fn extend_message(message: &str, trailer: &str) -> (new_contents: String)
    ensures
        new_contents@ == extended(message@, trailer@),
{
    let chars = chars_of(message);
    let mut all_lines = split_lines(&chars);
    let last_empty = find_insertion_point(&all_lines);
    let ghost lines = line_views(all_lines@);
    all_lines.insert(last_empty, chars_of(trailer));
    all_lines.insert(last_empty, Vec::new());
    proof {
        assert(line_views(all_lines@) == extended_lines(lines, trailer@));
    }
    let mut contents: Vec<char> = Vec::new();
    let mut i: usize = 0;
    while i < all_lines.len()
        invariant
            i <= all_lines.len(),
            contents@ == terminated(line_views(all_lines@).take(i as int)),
        decreases all_lines.len() - i,
    {
        proof {
            let head = line_views(all_lines@).take(i + 1);
            assert(head.drop_last() == line_views(all_lines@).take(i as int));
            assert(head.last() == all_lines@[i as int]@);
        }
        push_all(&mut contents, &all_lines[i]);
        contents.push('\n');
        i += 1;
    }
    proof {
        assert(line_views(all_lines@).take(i as int) == line_views(all_lines@));
    }
    text_of(&contents)
}

/// The text of lines in a row is the text of the first lines, then the text
/// of the others.
pub proof fn lemma_terminated_concat(a: Seq<Seq<char>>, b: Seq<Seq<char>>)
    ensures
        terminated(a + b) == terminated(a) + terminated(b),
    decreases b.len(),
{
    if b.len() == 0 {
        assert(a + b == a);
    } else {
        lemma_terminated_concat(a, b.drop_last());
        assert((a + b).drop_last() == a + b.drop_last());
        assert((a + b).last() == b.last());
    }
}

/// The trailer stands in the new message verbatim as a line of its own,
/// after a blank line that was put in with it. Before the two stand the
/// lines of the message up to the insertion point, behind them the lines
/// from the insertion point on, both unchanged. What follows begins with the
/// last blank line of the message and holds no other blank line; where the
/// message has no blank line, nothing follows.
pub proof fn lemma_trailer_is_inserted_verbatim(message: Seq<char>, trailer: Seq<char>)
    ensures
        ({
            let lines = physical_lines(message);
            let k = insertion_point(lines);
            let before = lines.take(k);
            let after = lines.skip(k);
            &&& 0 <= k <= lines.len()
            &&& extended(message, trailer) == terminated(before) + seq!['\n'] + trailer
                + seq!['\n'] + terminated(after)
            &&& after.len() > 0 ==> blank(after[0])
            &&& forall|j: int| 1 <= j < after.len() ==> !blank(#[trigger] after[j])
            &&& after.len() == 0 ==> forall|j: int|
                0 <= j < lines.len() ==> !blank(#[trigger] lines[j])
        }),
{
    let lines = physical_lines(message);
    let k = insertion_point(lines);
    let before = lines.take(k);
    let after = lines.skip(k);
    lemma_last_blank(lines);
    let put = seq![Seq::<char>::empty(), trailer];
    assert(extended_lines(lines, trailer) == before + put + after);
    lemma_terminated_concat(before + put, after);
    lemma_terminated_concat(before, put);
    assert(terminated(put) == seq!['\n'] + trailer + seq!['\n']) by {
        assert(put.drop_last() == seq![Seq::<char>::empty()]);
        assert(put.drop_last().drop_last() == Seq::<Seq<char>>::empty());
        assert(terminated(put.drop_last()) == terminated(put.drop_last().drop_last())
            + Seq::<char>::empty() + seq!['\n']);
    }
    assert(terminated(before) + (seq!['\n'] + trailer + seq!['\n']) + terminated(after)
        == terminated(before) + seq!['\n'] + trailer + seq!['\n'] + terminated(after));
    assert forall|j: int| 1 <= j < after.len() implies !blank(#[trigger] after[j]) by {
        assert(after[j] == lines[k + j]);
    }
}

/// Whether a message that comes from `source` is rewritten: one that a
/// person writes, from nothing or from a template, and none that arises
/// otherwise, as from a merge or a squash.
pub open spec fn is_rewritten(source: Option<Seq<char>>) -> bool {
    match source {
        None => true,
        Some(source) => source == "template"@ || source == "message"@,
    }
}

/// Whether the two texts are the same.
pub fn same_text(a: &str, b: &str) -> (r: bool)
    ensures
        r == (a@ == b@),
{
    let x = chars_of(a);
    let y = chars_of(b);
    if x.len() != y.len() {
        return false;
    }
    let mut i: usize = 0;
    while i < x.len()
        invariant
            i <= x.len(),
            x.len() == y.len(),
            x@ == a@,
            y@ == b@,
            forall|k: int| 0 <= k < i ==> x@[k] == y@[k],
        decreases x.len() - i,
    {
        if x[i] != y[i] {
            return false;
        }
        i += 1;
    }
    proof {
        assert(x@ == y@);
    }
    true
}

/// Whether the message file is rewritten, given the source of the message
/// where one was named.
pub fn rewrites_message(source: Option<&str>) -> (r: bool)
    ensures
        r == is_rewritten(
            match source {
                Some(source) => Some(source@),
                None => None,
            },
        ),
{
    match source {
        None => true,
        Some(source) => same_text(source, "template") || same_text(source, "message"),
    }
}

} // verus!
