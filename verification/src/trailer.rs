//! The trailer formatter: identifiers rendered as references on lines of
//! limited width, each line behind the same prefix.

use vstd::prelude::*;
use vstd::string::StringExecFns;
use vstd::utf8::{encode_utf8, is_ascii_chars};
use crate::text::{chars_of, lemma_encode_concat, lemma_utf8_width, push_all, text_of, utf8_width};

verus! {

/// The character of a decimal digit.
pub open spec fn digit_char(d: nat) -> char {
    ((48 + d) as u8) as char
}

/// A number written in base 10, without leading zeros.
pub open spec fn decimal(n: nat) -> Seq<char>
    decreases n,
{
    if n < 10 {
        seq![digit_char(n)]
    } else {
        decimal(n / 10).push(digit_char(n % 10))
    }
}

/// The reference to a test case: `#` and its number.
pub open spec fn reference(n: u32) -> Seq<char> {
    seq!['#'] + decimal(n as nat)
}

/// What stands between two references of a line.
pub open spec fn delimiter() -> Seq<char> {
    seq![',', ' ']
}

/// The references of one line, with the delimiter between them.
pub open spec fn references(line: Seq<u32>) -> Seq<char>
    decreases line.len(),
{
    if line.len() == 0 {
        Seq::empty()
    } else if line.len() == 1 {
        reference(line[0])
    } else {
        references(line.drop_last()) + delimiter() + reference(line.last())
    }
}

/// The numbers laid out on lines that have `room` for references. The lines
/// are filled greedily: a number goes on the open line, the last one, unless
/// its reference and the delimiter before it would overrun the room; then it
/// opens a new line. There is always at least one line.
pub open spec fn wrapped(numbers: Seq<u32>, room: int) -> Seq<Seq<u32>>
    decreases numbers.len(),
{
    if numbers.len() == 0 {
        seq![Seq::empty()]
    } else {
        let lines = wrapped(numbers.drop_last(), room);
        let open = lines.last();
        let gap: int = if open.len() > 0 {
            2
        } else {
            0
        };
        if references(open).len() + gap + reference(numbers.last()).len() > room {
            lines.push(seq![numbers.last()])
        } else {
            lines.drop_last().push(open.push(numbers.last()))
        }
    }
}

/// The text of one line: the prefix, then the references.
pub open spec fn line_text(prefix: Seq<char>, line: Seq<u32>) -> Seq<char> {
    prefix + references(line)
}

/// The texts of the lines, each behind the prefix.
pub open spec fn line_texts(prefix: Seq<char>, lines: Seq<Seq<u32>>) -> Seq<Seq<char>> {
    Seq::new(lines.len(), |i: int| line_text(prefix, lines[i]))
}

/// Lines of text with one newline between every two of them.
pub open spec fn joined(lines: Seq<Seq<char>>) -> Seq<char>
    decreases lines.len(),
{
    if lines.len() == 0 {
        Seq::empty()
    } else if lines.len() == 1 {
        lines[0]
    } else {
        joined(lines.drop_last()) + seq!['\n'] + lines.last()
    }
}

/// The trailer for the given numbers: their references wrapped to lines of
/// at most `width` bytes, each line behind `prefix`.
pub open spec fn trailer(numbers: Seq<u32>, width: int, prefix: Seq<char>) -> Seq<char> {
    joined(line_texts(prefix, wrapped(numbers, width - utf8_width(prefix))))
}

/// A number of 32 bits has between one and ten digits, all of them ASCII.
pub proof fn lemma_decimal(n: nat)
    requires
        n <= u32::MAX,
    ensures
        1 <= decimal(n).len() <= 10,
        is_ascii_chars(decimal(n)),
{
    assert(pow10(10) == 10_000_000_000) by {
        reveal_with_fuel(pow10, 11);
    }
    lemma_decimal_digits(n, 10);
}

/// A number below the `k`-th power of ten has at most `k` digits.
proof fn lemma_decimal_digits(n: nat, k: nat)
    requires
        k >= 1,
        n < pow10(k),
    ensures
        1 <= decimal(n).len() <= k,
        is_ascii_chars(decimal(n)),
    decreases n,
{
    if n >= 10 {
        assert(k >= 2) by {
            if k == 1 {
                assert(pow10(1) == 10 * pow10(0));
            }
        }
        lemma_decimal_digits(n / 10, (k - 1) as nat);
        let head = decimal(n / 10);
        let all = decimal(n);
        assert forall|i: int| 0 <= i < all.len() implies '\0' <= #[trigger] all[i] <= '\u{7f}' by {
            if i < head.len() {
                assert(all[i] == head[i]);
            }
        }
    }
}

/// The powers of ten.
pub open spec fn pow10(k: nat) -> nat
    decreases k,
{
    if k == 0 {
        1
    } else {
        10 * pow10((k - 1) as nat)
    }
}

/// Appends `n` in base 10 to `out`.
fn push_decimal(out: &mut Vec<char>, n: u32)
    ensures
        final(out)@ == old(out)@ + decimal(n as nat),
    decreases n,
{
    if n >= 10 {
        push_decimal(out, n / 10);
    }
    let d: u8 = (n % 10) as u8;
    out.push((48u8 + d) as char);
    proof {
        if n >= 10 {
            assert(out@ == old(out)@ + decimal(n as nat / 10).push(digit_char(n as nat % 10)));
        } else {
            assert(out@ == old(out)@ + seq![digit_char(n as nat)]);
        }
    }
}

/// The reference to the test case `n`.
fn reference_of(n: u32) -> (r: Vec<char>)
    ensures
        r@ == reference(n),
        2 <= r@.len() <= 11,
        is_ascii_chars(r@),
{
    let mut r: Vec<char> = Vec::new();
    r.push('#');
    push_decimal(&mut r, n);
    proof {
        lemma_decimal(n as nat);
        assert(r@ == reference(n));
    }
    r
}

/// Adding a line to lines that are joined.
proof fn lemma_joined_push(lines: Seq<Seq<char>>, line: Seq<char>)
    ensures
        joined(lines.push(line)) == if lines.len() == 0 {
            line
        } else {
            joined(lines) + seq!['\n'] + line
        },
{
    assert(lines.push(line).drop_last() == lines);
}

/// Adding text to the last of the lines that are joined.
proof fn lemma_joined_extend(lines: Seq<Seq<char>>, more: Seq<char>)
    requires
        lines.len() > 0,
    ensures
        joined(lines.drop_last().push(lines.last() + more)) == joined(lines) + more,
{
    let head = lines.drop_last();
    lemma_joined_push(head, lines.last() + more);
    lemma_joined_push(head, lines.last());
    assert(head.push(lines.last()) == lines);
    if head.len() > 0 {
        assert(joined(head) + seq!['\n'] + (lines.last() + more) == joined(head) + seq!['\n']
            + lines.last() + more);
    }
}

/// The prefix of a trailer with the given label: the label, a colon and a
/// space.
pub fn trailer_prefix(label: &str) -> (prefix: String)
    ensures
        prefix@ == label@ + seq![':', ' '],
{
    proof {
        reveal_strlit(": ");
        assert(": "@ == seq![':', ' ']);
    }
    String::from_str(label).concat(": ")
}

/// Whether a trailer with this prefix can be wrapped to `width`: the prefix
/// has to be narrower than a line.
pub fn prefix_fits(prefix: &str, width: usize) -> (r: bool)
    ensures
        r == (utf8_width(prefix@) < width),
{
    prefix.as_bytes().len() < width
}

/// Renders `numbers` as references on lines of at most `width` bytes, each
/// line behind `prefix`, with a newline between the lines and none at the
/// end. A reference that does not fit behind the prefix alone still gets a
/// line of its own.
pub fn format_issue_references(numbers: &[u32], width: usize, prefix: &str) -> (output: String)
    requires
        utf8_width(prefix@) < width,
    ensures
        output@ == trailer(numbers@, width as int, prefix@),
{
    let p = chars_of(prefix);
    let room: usize = width - prefix.as_bytes().len();
    let mut out: Vec<char> = Vec::new();
    push_all(&mut out, &p);
    // The width of the references on the open line.
    let mut held: usize = 0;
    let ghost mut lines: Seq<Seq<u32>> = seq![Seq::empty()];
    proof {
        assert(numbers@.take(0) == Seq::<u32>::empty());
        assert(line_texts(prefix@, lines) == seq![prefix@]);
    }
    let mut i: usize = 0;
    while i < numbers.len()
        invariant
            i <= numbers.len(),
            p@ == prefix@,
            room == width - utf8_width(prefix@),
            lines == wrapped(numbers@.take(i as int), room as int),
            lines.len() > 0,
            out@ == joined(line_texts(prefix@, lines)),
            held == references(lines.last()).len(),
            held > 0 <==> lines.last().len() > 0,
        decreases numbers.len() - i,
    {
        let r = reference_of(numbers[i]);
        let gap: usize = if held > 0 {
            2
        } else {
            0
        };
        let ghost open = lines.last();
        let ghost texts = line_texts(prefix@, lines);
        proof {
            let head = numbers@.take(i + 1);
            assert(head.drop_last() == numbers@.take(i as int));
            assert(head.last() == numbers@[i as int]);
        }
        if held > room || r.len() + gap > room - held {
            out.push('\n');
            push_all(&mut out, &p);
            push_all(&mut out, &r);
            held = r.len();
            proof {
                let next = lines.push(seq![numbers@[i as int]]);
                assert(references(seq![numbers@[i as int]]) == r@);
                assert(line_texts(prefix@, next) == texts.push(prefix@ + r@));
                lemma_joined_push(texts, prefix@ + r@);
                assert(out@ == joined(texts) + seq!['\n'] + (prefix@ + r@));
                lines = next;
            }
        } else {
            if held > 0 {
                out.push(',');
                out.push(' ');
            }
            push_all(&mut out, &r);
            held = held + gap + r.len();
            proof {
                let grown = open.push(numbers@[i as int]);
                let next = lines.drop_last().push(grown);
                let more = if open.len() > 0 {
                    delimiter() + r@
                } else {
                    r@
                };
                assert(grown.drop_last() == open);
                assert(references(grown) == references(open) + more);
                assert(line_text(prefix@, grown) == line_text(prefix@, open) + more);
                assert(line_texts(prefix@, next) == texts.drop_last().push(texts.last() + more));
                lemma_joined_extend(texts, more);
                assert(out@ == joined(texts) + more);
                lines = next;
            }
        }
        i += 1;
    }
    proof {
        assert(numbers@.take(i as int) == numbers@);
    }
    text_of(&out)
}

/// The lines of a trailer take the numbers up in their order and lose none.
pub open spec fn flattened(lines: Seq<Seq<u32>>) -> Seq<u32>
    decreases lines.len(),
{
    if lines.len() == 0 {
        Seq::empty()
    } else {
        flattened(lines.drop_last()) + lines.last()
    }
}

/// A trailer always has a line, its lines hold the numbers in their order,
/// only the first line can be without a reference, and a line is wider than
/// the room only where it holds a single reference that does not fit behind
/// the prefix.
pub proof fn lemma_wrapped(numbers: Seq<u32>, room: int)
    requires
        room > 0,
    ensures
        wrapped(numbers, room).len() >= 1,
        flattened(wrapped(numbers, room)) == numbers,
        forall|k: int|
            1 <= k < wrapped(numbers, room).len() ==> (#[trigger] wrapped(numbers, room)[k]).len()
                >= 1,
        forall|k: int|
            0 <= k < wrapped(numbers, room).len() ==> {
                let line = #[trigger] wrapped(numbers, room)[k];
                references(line).len() <= room || (line.len() == 1 && reference(line[0]).len()
                    > room)
            },
    decreases numbers.len(),
{
    let result = wrapped(numbers, room);
    if numbers.len() == 0 {
        assert(result == seq![Seq::<u32>::empty()]);
        assert(result.drop_last() == Seq::<Seq<u32>>::empty());
        assert(flattened(result) == flattened(result.drop_last()) + result.last());
        assert(flattened(result.drop_last()) == Seq::<u32>::empty());
    } else {
        let lines = wrapped(numbers.drop_last(), room);
        lemma_wrapped(numbers.drop_last(), room);
        let open = lines.last();
        let n = numbers.last();
        let gap: int = if open.len() > 0 {
            2
        } else {
            0
        };
        assert(numbers == numbers.drop_last().push(n));
        if references(open).len() + gap + reference(n).len() > room {
            assert(result == lines.push(seq![n]));
            assert(result.drop_last() == lines);
            assert(references(seq![n]) == reference(n));
            assert forall|k: int| 0 <= k < result.len() implies {
                let line = #[trigger] result[k];
                references(line).len() <= room || (line.len() == 1 && reference(line[0]).len()
                    > room)
            } by {
                if k < lines.len() {
                    assert(result[k] == lines[k]);
                } else {
                    if reference(n).len() <= room {
                    }
                }
            }
            assert forall|k: int| 1 <= k < result.len() implies (#[trigger] result[k]).len()
                >= 1 by {
                if k < lines.len() {
                    assert(result[k] == lines[k]);
                }
            }
        } else {
            let grown = open.push(n);
            assert(result == lines.drop_last().push(grown));
            assert(result.drop_last() == lines.drop_last());
            assert(grown.drop_last() == open);
            assert(references(grown).len() == references(open).len() + gap + reference(n).len());
            assert(flattened(lines) == flattened(lines.drop_last()) + open);
            assert(flattened(result) == flattened(lines.drop_last()) + grown);
            assert(flattened(lines.drop_last()) + grown == (flattened(lines.drop_last()) + open).push(
                n,
            ));
            assert forall|k: int| 0 <= k < result.len() implies {
                let line = #[trigger] result[k];
                references(line).len() <= room || (line.len() == 1 && reference(line[0]).len()
                    > room)
            } by {
                if k < lines.len() - 1 {
                    assert(result[k] == lines[k]);
                }
            }
            assert forall|k: int| 1 <= k < result.len() implies (#[trigger] result[k]).len()
                >= 1 by {
                if k < lines.len() - 1 {
                    assert(result[k] == lines[k]);
                }
            }
        }
    }
}

/// The references of a line are ASCII, so they take as many bytes as
/// characters.
pub proof fn lemma_references_ascii(line: Seq<u32>)
    ensures
        is_ascii_chars(references(line)),
    decreases line.len(),
{
    if line.len() == 1 {
        lemma_decimal(line[0] as nat);
    } else if line.len() > 1 {
        lemma_references_ascii(line.drop_last());
        lemma_decimal(line.last() as nat);
        let head = references(line.drop_last());
        let all = references(line);
        assert forall|i: int| 0 <= i < all.len() implies '\0' <= #[trigger] all[i] <= '\u{7f}' by {
            if i < head.len() {
                assert(all[i] == head[i]);
            } else if i < head.len() + 2 {
                assert(all[i] == delimiter()[i - head.len()]);
            } else {
                assert(all[i] == reference(line.last())[i - head.len() - 2]);
            }
        }
    }
}

/// A trailer has at least one line, and none of its lines takes more than
/// `width` bytes, nor more than `width` characters, but a line that holds a
/// single reference which does not fit behind the prefix.
pub proof fn lemma_trailer_lines_fit(numbers: Seq<u32>, width: int, prefix: Seq<char>)
    requires
        utf8_width(prefix) < width,
    ensures
        wrapped(numbers, width - utf8_width(prefix)).len() >= 1,
        forall|k: int|
            0 <= k < wrapped(numbers, width - utf8_width(prefix)).len() ==> {
                let line = #[trigger] wrapped(numbers, width - utf8_width(prefix))[k];
                let text = line_text(prefix, line);
                ||| (utf8_width(text) <= width && text.len() <= width)
                ||| (line.len() == 1 && utf8_width(prefix + reference(line[0])) > width)
            },
{
    let room = width - utf8_width(prefix);
    let lines = wrapped(numbers, room);
    lemma_wrapped(numbers, room);
    assert forall|k: int| 0 <= k < lines.len() implies {
        let line = #[trigger] lines[k];
        let text = line_text(prefix, line);
        ||| (utf8_width(text) <= width && text.len() <= width)
        ||| (line.len() == 1 && utf8_width(prefix + reference(line[0])) > width)
    } by {
        let line = lines[k];
        lemma_references_ascii(line);
        lemma_utf8_width(references(line));
        lemma_encode_concat(prefix, references(line));
        lemma_utf8_width(line_text(prefix, line));
        if line.len() == 1 {
            assert(references(line) == reference(line[0]));
        }
    }
}

} // verus!
