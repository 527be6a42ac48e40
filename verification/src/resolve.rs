//! The scenario resolver: from a changed line of a document to the
//! identifiers of the scenarios that the change affects.

use std::ops::Range;
use vstd::prelude::*;
use vstd::utf8::encode_utf8;
use crate::aggregate::{aggregated, lemma_aggregate_idempotent, strictly_ascending};
use crate::document::{parse_document, parsed_document, Document, DocumentView, ScenarioView};
use crate::error::ExtractNumberError;
use crate::identifier::{find_testcase_number, first_testcase_number};
use crate::offsets::{calculate_line_spans, line_table, line_to_byte_offset};

verus! {

/// The first scenario, in document order, whose span meets the changed range.
pub open spec fn is_first_meeting(
    scenarios: Seq<ScenarioView>,
    changed: Range<usize>,
    i: int,
) -> bool {
    &&& 0 <= i < scenarios.len()
    &&& scenarios[i].span.meets(changed)
    &&& forall|j: int| 0 <= j < i ==> !(#[trigger] scenarios[j]).span.meets(changed)
}

/// No scenario's span meets the changed range.
pub open spec fn none_meets(scenarios: Seq<ScenarioView>, changed: Range<usize>) -> bool {
    forall|j: int| 0 <= j < scenarios.len() ==> !(#[trigger] scenarios[j]).span.meets(changed)
}

/// The identifier of a scenario as a sequence: one element, or none where the
/// scenario carries no identifier.
pub open spec fn scenario_number(scenario: ScenarioView, prefix: Seq<char>) -> Seq<u32> {
    match first_testcase_number(scenario.tags, prefix) {
        Some(n) => seq![n],
        None => Seq::empty(),
    }
}

/// The identifiers of all scenarios that carry one, in document order.
pub open spec fn scenario_numbers(scenarios: Seq<ScenarioView>, prefix: Seq<char>) -> Seq<u32>
    decreases scenarios.len(),
{
    if scenarios.len() == 0 {
        Seq::empty()
    } else {
        scenario_numbers(scenarios.drop_last(), prefix) + scenario_number(
            scenarios.last(),
            prefix,
        )
    }
}

/// The identifiers that a change of the byte range `changed` affects. A
/// change inside a scenario affects that scenario alone. A change inside the
/// background, and inside no scenario, affects every scenario. Any other
/// change affects none.
pub open spec fn resolved(
    document: DocumentView,
    changed: Range<usize>,
    prefix: Seq<char>,
) -> Seq<u32> {
    if exists|i: int| is_first_meeting(document.scenarios, changed, i) {
        let i = choose|i: int| is_first_meeting(document.scenarios, changed, i);
        scenario_number(document.scenarios[i], prefix)
    } else if document.background matches Some(background) && background.meets(changed) {
        scenario_numbers(document.scenarios, prefix)
    } else {
        Seq::empty()
    }
}

/// The identifiers of the scenarios that a change of `changed` affects.
pub fn resolve(document: &Document, changed: &Range<usize>, prefix: &str) -> (numbers: Vec<u32>)
    ensures
        numbers@ == resolved(document@, *changed, prefix@),
{
    let mut numbers: Vec<u32> = Vec::new();
    let mut i: usize = 0;
    while i < document.scenarios.len()
        invariant
            i <= document.scenarios.len(),
            numbers@.len() == 0,
            forall|j: int| 0 <= j < i ==> !(#[trigger] document@.scenarios[j]).span.meets(*changed),
        decreases document.scenarios.len() - i,
    {
        if document.scenarios[i].span.intersects(changed) {
            let found = find_testcase_number(&document.scenarios[i].tags, prefix);
            if let Some(n) = found {
                numbers.push(n);
            }
            proof {
                assert(is_first_meeting(document@.scenarios, *changed, i as int));
                let k = choose|k: int| is_first_meeting(document@.scenarios, *changed, k);
                assert(k == i);
                assert(numbers@ == scenario_number(document@.scenarios[i as int], prefix@));
            }
            return numbers;
        }
        i += 1;
    }
    proof {
        assert forall|k: int| !is_first_meeting(document@.scenarios, *changed, k) by {}
    }
    let in_background = match &document.background {
        Some(background) => background.intersects(changed),
        None => false,
    };
    if in_background {
        let mut k: usize = 0;
        while k < document.scenarios.len()
            invariant
                k <= document.scenarios.len(),
                numbers@ == scenario_numbers(document@.scenarios.take(k as int), prefix@),
            decreases document.scenarios.len() - k,
        {
            let found = find_testcase_number(&document.scenarios[k].tags, prefix);
            if let Some(n) = found {
                numbers.push(n);
            }
            proof {
                let head = document@.scenarios.take(k + 1);
                assert(head.drop_last() == document@.scenarios.take(k as int));
                assert(head.last() == document.scenarios@[k as int]@);
            }
            k += 1;
        }
        proof {
            assert(document@.scenarios.take(k as int) == document@.scenarios);
        }
    }
    numbers
}

/// The spans of a document are in order when every scenario ends before the
/// next one starts, and the background, if there is one, ends before the
/// first scenario starts.
pub open spec fn spans_in_order(document: DocumentView) -> bool {
    &&& forall|i: int, j: int|
        0 <= i < j < document.scenarios.len() ==> (#[trigger] document.scenarios[i]).span.end <= (
        #[trigger] document.scenarios[j]).span.start
    &&& document.background matches Some(background) ==> forall|j: int|
        0 <= j < document.scenarios.len() ==> background.end <= (
        #[trigger] document.scenarios[j]).span.start
}

/// A change that starts inside a scenario is resolved to that scenario alone:
/// to its identifier, where it carries one, and to nothing else. No other
/// scenario and no background adds to it.
pub proof fn lemma_change_inside_scenario(
    document: DocumentView,
    changed: Range<usize>,
    prefix: Seq<char>,
    i: int,
)
    requires
        spans_in_order(document),
        0 <= i < document.scenarios.len(),
        document.scenarios[i].span.holds(changed.start as int),
        changed.start <= changed.end,
    ensures
        is_first_meeting(document.scenarios, changed, i),
        resolved(document, changed, prefix) == scenario_number(document.scenarios[i], prefix),
        resolved(document, changed, prefix).len() <= 1,
        first_testcase_number(document.scenarios[i].tags, prefix) matches Some(n) ==> resolved(
            document,
            changed,
            prefix,
        ) == seq![n],
{
    assert forall|j: int| 0 <= j < i implies !(#[trigger] document.scenarios[j]).span.meets(
        changed,
    ) by {
        assert(document.scenarios[j].span.end <= document.scenarios[i].span.start);
    }
    lemma_first_meeting_is_resolved(document, changed, prefix, i);
}

/// Where the scenario `i` is the first whose span meets the change, the
/// change is resolved to the identifier of that scenario.
pub proof fn lemma_first_meeting_is_resolved(
    document: DocumentView,
    changed: Range<usize>,
    prefix: Seq<char>,
    i: int,
)
    requires
        is_first_meeting(document.scenarios, changed, i),
    ensures
        resolved(document, changed, prefix) == scenario_number(document.scenarios[i], prefix),
{
    let k = choose|k: int| is_first_meeting(document.scenarios, changed, k);
    assert(k == i);
}

/// The identifier of every scenario that carries one is among the
/// identifiers of all scenarios.
pub proof fn lemma_scenario_numbers_hold(scenarios: Seq<ScenarioView>, prefix: Seq<char>, j: int)
    requires
        0 <= j < scenarios.len(),
        first_testcase_number(scenarios[j].tags, prefix) is Some,
    ensures
        scenario_numbers(scenarios, prefix).contains(
            first_testcase_number(scenarios[j].tags, prefix)->0,
        ),
    decreases scenarios.len(),
{
    let n = first_testcase_number(scenarios[j].tags, prefix)->0;
    let head = scenario_numbers(scenarios.drop_last(), prefix);
    let all = scenario_numbers(scenarios, prefix);
    if j == scenarios.len() - 1 {
        assert(all[head.len() as int] == n);
    } else {
        lemma_scenario_numbers_hold(scenarios.drop_last(), prefix, j);
        let at = choose|at: int| 0 <= at < head.len() && head[at] == n;
        assert(all[at] == n);
    }
}

/// A change inside the background that meets no scenario is resolved to the
/// identifiers of all scenarios of the document: the identifier of every
/// scenario that carries one is among them, and it is still there, in
/// ascending order, once they are aggregated.
pub proof fn lemma_change_inside_background(
    document: DocumentView,
    changed: Range<usize>,
    prefix: Seq<char>,
)
    requires
        document.background is Some,
        document.background->0.meets(changed),
        none_meets(document.scenarios, changed),
    ensures
        resolved(document, changed, prefix) == scenario_numbers(document.scenarios, prefix),
        strictly_ascending(aggregated(resolved(document, changed, prefix))),
        forall|j: int|
            0 <= j < document.scenarios.len() && first_testcase_number(
                (#[trigger] document.scenarios[j]).tags,
                prefix,
            ) is Some ==> aggregated(resolved(document, changed, prefix)).contains(
                first_testcase_number(document.scenarios[j].tags, prefix)->0,
            ),
{
    let numbers = scenario_numbers(document.scenarios, prefix);
    assert forall|k: int| !is_first_meeting(document.scenarios, changed, k) by {}
    lemma_aggregate_idempotent(numbers);
    assert forall|j: int|
        0 <= j < document.scenarios.len() && first_testcase_number(
            (#[trigger] document.scenarios[j]).tags,
            prefix,
        ) is Some implies aggregated(numbers).contains(
        first_testcase_number(document.scenarios[j].tags, prefix)->0,
    ) by {
        let n = first_testcase_number(document.scenarios[j].tags, prefix)->0;
        lemma_scenario_numbers_hold(document.scenarios, prefix, j);
        assert(numbers.to_set().contains(n));
        assert(aggregated(numbers).to_set().contains(n));
    }
}

/// A change that meets neither a scenario nor the background is resolved to
/// nothing.
pub proof fn lemma_change_outside(document: DocumentView, changed: Range<usize>, prefix: Seq<char>)
    requires
        none_meets(document.scenarios, changed),
        document.background matches Some(background) ==> !background.meets(changed),
    ensures
        resolved(document, changed, prefix) == Seq::<u32>::empty(),
{
    assert forall|k: int| !is_first_meeting(document.scenarios, changed, k) by {}
}

/// Whether `text` has a line with the 1-based number `line`.
pub open spec fn has_line(text: Seq<char>, line: u32) -> bool {
    1 <= line <= line_table(encode_utf8(text)).len()
}

/// The byte range of the 1-based `line` of `text`.
pub open spec fn line_range(text: Seq<char>, line: u32) -> Range<usize> {
    line_table(encode_utf8(text))[line - 1]
}

/// A change is out of range when its text is a feature document that has no
/// line with the change's number. A text that is no feature document is
/// passed over before its lines are looked at.
pub open spec fn out_of_range(text: Seq<char>, line: u32) -> bool {
    parsed_document(text) is Some && !has_line(text, line)
}

/// The identifiers that a change of the given line of `text` affects, or
/// `None` where the text is no feature document.
pub open spec fn change_numbers(text: Seq<char>, line: u32, prefix: Seq<char>) -> Option<
    Seq<u32>,
> {
    match parsed_document(text) {
        Some(document) => Some(resolved(document, line_range(text, line), prefix)),
        None => None,
    }
}

/// Resolves the change of the 1-based `line` of the document `text`. A text
/// that is no feature document gives `Ok(None)`: the change is to be passed
/// over.
pub fn resolve_change(text: &str, line: u32, prefix: &str) -> (outcome: Result<
    Option<Vec<u32>>,
    ExtractNumberError,
>)
    ensures
        outcome is Err <==> out_of_range(text@, line),
        outcome matches Err(error) ==> error is OutOfRange,
        outcome matches Ok(found) ==> match found {
            Some(numbers) => change_numbers(text@, line, prefix@) == Some(numbers@),
            None => change_numbers(text@, line, prefix@) is None,
        },
{
    match parse_document(text) {
        None => Ok(None),
        Some(document) => {
            let offsets = calculate_line_spans(text);
            if line == 0 || line as usize > offsets.len() {
                return Err(ExtractNumberError::OutOfRange);
            }
            let changed = line_to_byte_offset(offsets, line);
            Ok(Some(resolve(&document, &changed, prefix)))
        },
    }
}

} // verus!
