//! Feature documents as the resolver reads them: the span and tags of every
//! scenario, and the span of the shared background.

use vstd::prelude::*;
use crate::identifier::tag_texts;
use crate::span::Span;

verus! {

/// A scenario of a feature document: where it stands in the text, and its
/// tags in document order, each without the leading `@`.
pub struct Scenario {
    pub span: Span,
    pub tags: Vec<String>,
}

/// What the resolver reads of a parsed feature document.
pub struct Document {
    /// The scenarios in document order.
    pub scenarios: Vec<Scenario>,
    /// The span of the background block, if the document has one.
    pub background: Option<Span>,
}

/// The mathematical value of a [`Scenario`].
pub struct ScenarioView {
    pub span: Span,
    pub tags: Seq<Seq<char>>,
}

/// The mathematical value of a [`Document`].
pub struct DocumentView {
    pub scenarios: Seq<ScenarioView>,
    pub background: Option<Span>,
}

impl View for Scenario {
    type V = ScenarioView;

    open spec fn view(&self) -> ScenarioView {
        ScenarioView { span: self.span, tags: tag_texts(self.tags@) }
    }
}

impl View for Document {
    type V = DocumentView;

    open spec fn view(&self) -> DocumentView {
        DocumentView {
            scenarios: Seq::new(self.scenarios@.len(), |i: int| self.scenarios@[i]@),
            background: self.background,
        }
    }
}

/// The document that the parser reads from a text, or `None` where the text is
/// no well-formed feature document.
pub uninterp spec fn parsed_document(text: Seq<char>) -> Option<DocumentView>;

/// `gherkin::Feature::parse` with the default environment. The parser works
/// on the text alone, so its answer is named by the text: `None` where it
/// reports a parse error, else the spans and tags of the feature's own
/// scenarios, in order, and the span of its background. Scenarios inside
/// rules are not part of what is handed out.
#[verifier::external_body]
pub(crate) fn parse_document(text: &str) -> (r: Option<Document>)
    ensures
        match r {
            Some(document) => parsed_document(text@) == Some(document@),
            None => parsed_document(text@) is None,
        },
{
    let feature = gherkin::Feature::parse(text, gherkin::GherkinEnv::default()).ok()?;
    Some(Document {
        scenarios: feature.scenarios.into_iter().map(|s| Scenario {
            span: Span { start: s.span.start, end: s.span.end },
            tags: s.tags,
        }).collect(),
        background: feature.background.map(|b| Span { start: b.span.start, end: b.span.end }),
    })
}

} // verus!
