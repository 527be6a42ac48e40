//! The line-offset index: the byte range of every physical line of a text.

use std::ops::Range;
use vstd::prelude::*;
use vstd::utf8::encode_utf8;

verus! {

/// The byte that ends a line.
pub const NEWLINE: u8 = 0x0A;

/// One byte range per physical line, the range of line 1 first.
pub type LineOffsets = Vec<Range<usize>>;

/// The ranges of the lines of `bytes` from the line that starts at `start`
/// on, where the bytes from `start` up to `at` are known to hold no line
/// terminator. A line runs up to and including its terminator; what follows
/// the last terminator, if anything, is one more line.
pub open spec fn lines_from(bytes: Seq<u8>, start: int, at: int) -> Seq<Range<usize>>
    decreases bytes.len() - at,
{
    if at >= bytes.len() {
        if start < at {
            seq![(Range { start: start as usize, end: at as usize })]
        } else {
            Seq::empty()
        }
    } else if bytes[at] == NEWLINE {
        seq![(Range { start: start as usize, end: (at + 1) as usize })] + lines_from(
            bytes,
            at + 1,
            at + 1,
        )
    } else {
        lines_from(bytes, start, at + 1)
    }
}

/// The line-offset table of a text given by its bytes.
pub open spec fn line_table(bytes: Seq<u8>) -> Seq<Range<usize>> {
    lines_from(bytes, 0, 0)
}

/// The ranges of `lines_from` lie in a row: the first starts at `start`, each
/// holds at least one byte and ends where the next starts, and the last ends
/// with the text. A newline ends every range but, at most, the last, and
/// stands nowhere else.
pub proof fn lemma_lines_from(bytes: Seq<u8>, start: int, at: int)
    requires
        0 <= start <= at <= bytes.len() <= usize::MAX,
        forall|k: int| start <= k < at ==> bytes[k] != NEWLINE,
    ensures
        ({
            let table = lines_from(bytes, start, at);
            &&& table.len() == 0 <==> start == bytes.len()
            &&& table.len() > 0 ==> table[0].start == start && table.last().end == bytes.len()
            &&& forall|i: int|
                0 <= i < table.len() ==> (#[trigger] table[i]).start < table[i].end <= bytes.len()
            &&& forall|i: int|
                0 <= i < table.len() - 1 ==> (#[trigger] table[i]).end == table[i + 1].start
            &&& forall|i: int|
                0 <= i < table.len() - 1 ==> bytes[(#[trigger] table[i]).end - 1] == NEWLINE
            &&& forall|i: int, k: int|
                #![trigger table[i], bytes[k]]
                0 <= i < table.len() && table[i].start <= k < table[i].end - 1 ==> bytes[k]
                    != NEWLINE
        }),
    decreases bytes.len() - at,
{
    let table = lines_from(bytes, start, at);
    if at >= bytes.len() {
    } else if bytes[at] == NEWLINE {
        let rest = lines_from(bytes, at + 1, at + 1);
        lemma_lines_from(bytes, at + 1, at + 1);
        let first = Range { start: start as usize, end: (at + 1) as usize };
        assert(table == seq![first] + rest);
        assert(table[0] == first);
        assert forall|i: int| 1 <= i < table.len() implies table[i] == rest[i - 1] by {}
        assert forall|i: int| 0 <= i < table.len() - 1 implies (#[trigger] table[i]).end
            == table[i + 1].start by {
            assert(table[i + 1] == rest[i]);
            if i > 0 {
                assert(table[i] == rest[i - 1]);
            }
        }
        assert forall|i: int| 0 <= i < table.len() - 1 implies bytes[(#[trigger] table[i]).end
            - 1] == NEWLINE by {
            if i > 0 {
                assert(table[i] == rest[i - 1]);
            }
        }
        assert forall|i: int, k: int|
            #![trigger table[i], bytes[k]]
            0 <= i < table.len() && table[i].start <= k < table[i].end - 1 implies bytes[k]
            != NEWLINE by {
            if i > 0 {
                assert(table[i] == rest[i - 1]);
            }
        }
        assert forall|i: int| 0 <= i < table.len() implies (#[trigger] table[i]).start
            < table[i].end <= bytes.len() by {
            if i > 0 {
                assert(table[i] == rest[i - 1]);
            }
        }
        if rest.len() > 0 {
            assert(table.last() == rest.last());
        }
    } else {
        lemma_lines_from(bytes, start, at + 1);
    }
}

/// The line-offset table covers the text without gap or overlap: it is empty
/// for the empty text only, its first range starts at 0, each range holds at
/// least one byte and ends where the next starts, and the last ends with the
/// text. Every range but the last ends with a newline, the last does unless
/// the text ends without one, and no range holds a newline before its end.
pub proof fn lemma_line_table(bytes: Seq<u8>)
    requires
        bytes.len() <= usize::MAX,
    ensures
        ({
            let table = line_table(bytes);
            &&& table.len() == 0 <==> bytes.len() == 0
            &&& table.len() > 0 ==> table[0].start == 0 && table.last().end == bytes.len()
            &&& forall|i: int|
                0 <= i < table.len() ==> (#[trigger] table[i]).start < table[i].end <= bytes.len()
            &&& forall|i: int|
                0 <= i < table.len() - 1 ==> (#[trigger] table[i]).end == table[i + 1].start
            &&& forall|i: int|
                0 <= i < table.len() - 1 ==> bytes[(#[trigger] table[i]).end - 1] == NEWLINE
            &&& forall|i: int, k: int|
                #![trigger table[i], bytes[k]]
                0 <= i < table.len() && table[i].start <= k < table[i].end - 1 ==> bytes[k]
                    != NEWLINE
        }),
{
    lemma_lines_from(bytes, 0, 0);
}

/// Builds the line-offset table of `text`.
pub fn calculate_line_spans(text: &str) -> (offsets: LineOffsets)
    ensures
        offsets@ == line_table(encode_utf8(text@)),
{
    let bytes = text.as_bytes();
    let mut offsets: Vec<Range<usize>> = Vec::new();
    let mut start: usize = 0;
    let mut at: usize = 0;
    while at < bytes.len()
        invariant
            start <= at <= bytes.len(),
            offsets@ + lines_from(bytes@, start as int, at as int) == line_table(bytes@),
        decreases bytes.len() - at,
    {
        if bytes[at] == NEWLINE {
            let ghost before = offsets@;
            offsets.push(start..at + 1);
            assert(offsets@ + lines_from(bytes@, at + 1, at + 1) == before + lines_from(
                bytes@,
                start as int,
                at as int,
            ));
            start = at + 1;
        }
        at += 1;
    }
    if start < at {
        offsets.push(start..at);
    }
    offsets
}

/// The byte range of the 1-based `line`.
pub fn line_to_byte_offset(offsets: LineOffsets, line: u32) -> (range: Range<usize>)
    requires
        1 <= line <= offsets.len(),
    ensures
        range == offsets[line - 1],
{
    let i: usize = (line - 1) as usize;
    offsets[i].start..offsets[i].end
}

} // verus!
