//! Test-case identifiers: the number that a tag carries behind a prefix.

use vstd::prelude::*;
use crate::text::chars_of;

verus! {

/// Whether `c` is one of the ten decimal digits.
pub open spec fn is_digit(c: char) -> bool {
    '0' <= c <= '9'
}

/// The value of a decimal digit.
pub open spec fn digit_value(c: char) -> nat {
    (c as u32 - '0' as u32) as nat
}

/// Whether the text holds decimal digits only.
pub open spec fn all_digits(s: Seq<char>) -> bool {
    forall|i: int| 0 <= i < s.len() ==> is_digit(#[trigger] s[i])
}

/// The number that a run of decimal digits denotes; 0 for the empty run.
pub open spec fn decimal_value(s: Seq<char>) -> nat
    decreases s.len(),
{
    if s.len() == 0 {
        0
    } else {
        10 * decimal_value(s.drop_last()) + digit_value(s.last())
    }
}

/// The digits of a written number: what follows an optional leading `+`.
pub open spec fn unsigned_part(s: Seq<char>) -> Seq<char> {
    if s.len() > 0 && s[0] == '+' {
        s.skip(1)
    } else {
        s
    }
}

/// The 32-bit unsigned number that a text denotes in base 10: an optional `+`,
/// then at least one digit and nothing else, with a value of at most
/// `u32::MAX`. Any other text denotes no number.
pub open spec fn parsed_number(s: Seq<char>) -> Option<u32> {
    let digits = unsigned_part(s);
    if digits.len() > 0 && all_digits(digits) && decimal_value(digits) <= u32::MAX {
        Some(decimal_value(digits) as u32)
    } else {
        None
    }
}

/// The identifier that a tag carries: the number written behind `prefix`, if
/// the tag begins with `prefix` and the rest denotes a number.
pub open spec fn testcase_number(tag: Seq<char>, prefix: Seq<char>) -> Option<u32> {
    if prefix.is_prefix_of(tag) {
        parsed_number(tag.skip(prefix.len() as int))
    } else {
        None
    }
}

/// The identifier of the first tag, in order, that carries one.
pub open spec fn first_testcase_number(tags: Seq<Seq<char>>, prefix: Seq<char>) -> Option<u32>
    decreases tags.len(),
{
    if tags.len() == 0 {
        None
    } else {
        match testcase_number(tags[0], prefix) {
            Some(n) => Some(n),
            None => first_testcase_number(tags.skip(1), prefix),
        }
    }
}

/// The texts of a list of tags.
pub open spec fn tag_texts(tags: Seq<String>) -> Seq<Seq<char>> {
    Seq::new(tags.len(), |i: int| tags[i]@)
}

/// A longer run of digits denotes at least what its beginning denotes.
pub proof fn lemma_decimal_value_grows(s: Seq<char>, k: int)
    requires
        0 <= k <= s.len(),
    ensures
        decimal_value(s.take(k)) <= decimal_value(s),
    decreases s.len() - k,
{
    if k == s.len() {
        assert(s.take(k) == s);
    } else {
        lemma_decimal_value_grows(s, k + 1);
        assert(s.take(k + 1).drop_last() == s.take(k));
    }
}

/// The number that the characters of `s` from index `from` on denote.
fn parse_digits(s: &Vec<char>, from: usize) -> (r: Option<u32>)
    requires
        from <= s.len(),
    ensures
        r == (if s.len() > from && all_digits(s@.skip(from as int)) && decimal_value(
            s@.skip(from as int),
        ) <= u32::MAX {
            Some(decimal_value(s@.skip(from as int)) as u32)
        } else {
            None::<u32>
        }),
{
    if from == s.len() {
        return None;
    }
    let ghost digits = s@.skip(from as int);
    let mut value: u32 = 0;
    let mut i: usize = from;
    while i < s.len()
        invariant
            from <= i <= s.len(),
            digits == s@.skip(from as int),
            all_digits(digits.take(i - from)),
            value == decimal_value(digits.take(i - from)),
        decreases s.len() - i,
    {
        let c = s[i];
        proof {
            assert(digits[i - from] == c);
            assert(digits.take(i - from + 1).drop_last() == digits.take(i - from));
            assert(digits.take(i - from + 1).last() == c);
        }
        if c < '0' || c > '9' {
            return None;
        }
        let d: u32 = c as u32 - '0' as u32;
        proof {
            lemma_decimal_value_grows(digits, i - from + 1);
        }
        if value > (u32::MAX - d) / 10 {
            return None;
        }
        value = value * 10 + d;
        i += 1;
        proof {
            assert forall|k: int| 0 <= k < digits.take(i - from).len() implies is_digit(
                #[trigger] digits.take(i - from)[k],
            ) by {
                if k < i - from - 1 {
                    assert(digits.take(i - from - 1)[k] == digits.take(i - from)[k]);
                }
            }
        }
    }
    proof {
        assert(digits.take(i - from) == digits);
    }
    Some(value)
}

/// The identifier that `tag` carries behind `prefix`, if any.
pub fn parse_testcase_number(tag: &str, prefix: &str) -> (r: Option<u32>)
    ensures
        r == testcase_number(tag@, prefix@),
{
    let t = chars_of(tag);
    let p = chars_of(prefix);
    if p.len() > t.len() {
        return None;
    }
    let mut i: usize = 0;
    while i < p.len()
        invariant
            i <= p.len() <= t.len(),
            t@ == tag@,
            p@ == prefix@,
            t@.take(i as int) == p@.take(i as int),
        decreases p.len() - i,
    {
        if t[i] != p[i] {
            proof {
                if p@.is_prefix_of(t@) {
                    let head = t@.subrange(0, p@.len() as int);
                    assert(head == p@);
                    assert(head[i as int] == t@[i as int]);
                }
            }
            return None;
        }
        proof {
            assert(t@.take(i + 1) == t@.take(i as int).push(t@[i as int]));
            assert(p@.take(i + 1) == p@.take(i as int).push(p@[i as int]));
        }
        i += 1;
    }
    proof {
        assert(p@.take(i as int) == p@);
        assert(p@.is_prefix_of(t@));
    }
    let from: usize = if p.len() < t.len() && t[p.len()] == '+' {
        p.len() + 1
    } else {
        p.len()
    };
    proof {
        let rest = t@.skip(p@.len() as int);
        if p.len() < t.len() {
            assert(rest[0] == t@[p@.len() as int]);
        }
        if from == p.len() + 1 {
            assert(unsigned_part(rest) == t@.skip(from as int));
        } else {
            assert(unsigned_part(rest) == t@.skip(from as int));
        }
    }
    parse_digits(&t, from)
}

/// The identifier of the first of `tags` that carries one behind `prefix`.
pub fn find_testcase_number(tags: &Vec<String>, prefix: &str) -> (r: Option<u32>)
    ensures
        r == first_testcase_number(tag_texts(tags@), prefix@),
{
    let mut i: usize = 0;
    proof {
        assert(tag_texts(tags@).skip(0) == tag_texts(tags@));
    }
    while i < tags.len()
        invariant
            i <= tags.len(),
            first_testcase_number(tag_texts(tags@), prefix@) == first_testcase_number(
                tag_texts(tags@).skip(i as int),
                prefix@,
            ),
        decreases tags.len() - i,
    {
        let found = parse_testcase_number(tags[i].as_str(), prefix);
        proof {
            let rest = tag_texts(tags@).skip(i as int);
            assert(rest[0] == tags@[i as int]@);
            assert(rest.skip(1) == tag_texts(tags@).skip(i + 1));
        }
        if found.is_some() {
            return found;
        }
        i += 1;
    }
    proof {
        assert(tag_texts(tags@).skip(i as int).len() == 0);
    }
    None
}

} // verus!
