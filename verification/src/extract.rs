//! From the change events of a diff, each with the text of the revision it
//! is read from, to the identifiers of the affected test cases.

use vstd::prelude::*;
use crate::aggregate::{aggregate, aggregated};
use crate::classify::Change;
use crate::document::parsed_document;
use crate::error::ExtractNumberError;
use crate::options::Options;
use crate::resolve::{change_numbers, out_of_range, resolve_change};

verus! {

/// A change event together with the text of the document revision that the
/// event has to be looked up in.
pub struct ChangedDocument {
    pub change: Change,
    pub text: String,
}

/// What the changes of a diff come to.
pub struct Extraction {
    /// The identifiers of the affected test cases: each once, in ascending
    /// order.
    pub numbers: Vec<u32>,
    /// The indices of the changes that were passed over because their text
    /// is no feature document, in ascending order.
    pub unparsed: Vec<usize>,
}

/// The identifiers that one change contributes: none where its text is no
/// feature document.
pub open spec fn contribution(document: ChangedDocument, prefix: Seq<char>) -> Seq<u32> {
    match change_numbers(document.text@, document.change.line, prefix) {
        Some(numbers) => numbers,
        None => Seq::empty(),
    }
}

/// The identifiers that the changes contribute, in the order of the changes
/// and with repetitions.
pub open spec fn collected(documents: Seq<ChangedDocument>, prefix: Seq<char>) -> Seq<u32>
    decreases documents.len(),
{
    if documents.len() == 0 {
        Seq::empty()
    } else {
        collected(documents.drop_last(), prefix) + contribution(documents.last(), prefix)
    }
}

/// The indices of the changes whose text is no feature document, ascending.
pub open spec fn unparsed_indices(documents: Seq<ChangedDocument>) -> Seq<usize>
    decreases documents.len(),
{
    if documents.len() == 0 {
        Seq::empty()
    } else {
        let rest = unparsed_indices(documents.drop_last());
        if parsed_document(documents.last().text@) is None {
            rest.push((documents.len() - 1) as usize)
        } else {
            rest
        }
    }
}

/// Whether one of the changes names a line that its document does not have.
pub open spec fn any_out_of_range(documents: Seq<ChangedDocument>) -> bool {
    exists|i: int|
        0 <= i < documents.len() && out_of_range(
            (#[trigger] documents[i]).text@,
            documents[i].change.line,
        )
}

/// The identifiers of the test cases that the given changes affect. Changes
/// whose text is no feature document are passed over and reported by index.
/// A change that names a line outside of its document fails the whole
/// extraction.
pub fn changed_test_numbers(documents: &Vec<ChangedDocument>, opts: &Options) -> (result: Result<
    Extraction,
    ExtractNumberError,
>)
    ensures
        result is Err <==> any_out_of_range(documents@),
        result matches Err(error) ==> error is OutOfRange,
        result matches Ok(extraction) ==> {
            &&& extraction.numbers@ == aggregated(collected(documents@, opts.test_prefix@))
            &&& extraction.unparsed@ == unparsed_indices(documents@)
        },
{
    let mut numbers: Vec<u32> = Vec::new();
    let mut unparsed: Vec<usize> = Vec::new();
    let mut i: usize = 0;
    while i < documents.len()
        invariant
            i <= documents.len(),
            !any_out_of_range(documents@.take(i as int)),
            numbers@ == collected(documents@.take(i as int), opts.test_prefix@),
            unparsed@ == unparsed_indices(documents@.take(i as int)),
        decreases documents.len() - i,
    {
        let document = &documents[i];
        let outcome = resolve_change(
            document.text.as_str(),
            document.change.line,
            opts.test_prefix.as_str(),
        );
        proof {
            let head = documents@.take(i + 1);
            assert(head.drop_last() == documents@.take(i as int));
            assert(head.last() == documents@[i as int]);
        }
        match outcome {
            Err(error) => {
                proof {
                    assert(out_of_range(documents@[i as int].text@, documents@[i as int].change.line));
                }
                return Err(error);
            },
            Ok(None) => {
                unparsed.push(i);
            },
            Ok(Some(found)) => {
                let mut found = found;
                numbers.append(&mut found);
            },
        }
        proof {
            let head = documents@.take(i + 1);
            if any_out_of_range(head) {
                let k = choose|k: int|
                    0 <= k < head.len() && out_of_range(
                        (#[trigger] head[k]).text@,
                        head[k].change.line,
                    );
                if k < i {
                    assert(documents@.take(i as int)[k] == head[k]);
                }
            }
        }
        i += 1;
    }
    proof {
        assert(documents@.take(i as int) == documents@);
    }
    Ok(Extraction { numbers: aggregate(numbers), unparsed })
}

} // verus!
