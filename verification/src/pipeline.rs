//! A document from end to end: scan, find the code blocks, highlight them,
//! write the document again.
//!
//! Where the scanner or the state machine fails, the document is written up
//! to the event that could not be taken: the blocks completed before it are
//! highlighted, and the text of a block that was still open stays as it was
//! read.
//!
//! A block that cannot be highlighted does not fail its document. Where the
//! tokenizer fails on a block, the block is written plain; where the text of
//! a block is not escaped text, the block is written as it was read. Either
//! way an error that tells of the block is handed back beside the document.

use vstd::prelude::*;
use crate::event::{EventModel, HtmlEvent};
use crate::highlight::{
    FaultKind, HighlightConfig, HighlightError, escaping_fault, fault_of, highlight, highlighted,
};
use crate::machine::{
    BlockModel, DiagnosticModel, EventKind, PlacedBlock, PlacedModel, State, StateModel,
    blocks_within,
    extract_code_blocks, message_of, state_after, taken,
};
use crate::render::{PlacedHighlight, PlacedLines, rendered_block, reserialize, spliced};
use crate::scanner::{scan, scanned};
use crate::text::{unescape_text, unescaped};

verus! {

/// What kind of failure ended a document's run.
#[derive(Clone, Copy, Debug, PartialEq, Eq)]
pub enum ErrorKind {
    /// The scanner met markup that it could not read.
    Scan,
    /// The events did not follow the form of a code block.
    StateTransition,
}

/// A document's run ended early.
#[derive(Clone, Debug, PartialEq, Eq)]
pub struct DocumentError {
    pub kind: ErrorKind,
    /// The scanner's reason, or the state machine's diagnostic in words.
    pub diagnostic: String,
    /// The document as far as it was written.
    pub partial_output: String,
}

/// A document with its code blocks highlighted.
#[derive(Clone, Debug, PartialEq, Eq)]
pub struct Highlighted {
    pub html: String,
    /// One error for each block that was not highlighted, in the order of the
    /// document: the tokenizer failed on it, or its text is not escaped text.
    pub faults: Vec<HighlightError>,
}

/// How a document's run ended, with texts in place of strings.
pub ghost enum Outcome {
    Done { html: Seq<char>, faults: Seq<HighlightError> },
    Failed { kind: ErrorKind, diagnostic: Seq<char>, partial_output: Seq<char> },
}

/// The outcome that `r` stands for.
pub open spec fn outcome_of(r: Result<Highlighted, DocumentError>) -> Outcome {
    match r {
        Ok(h) => Outcome::Done { html: h.html@, faults: h.faults@ },
        Err(e) => Outcome::Failed {
            kind: e.kind,
            diagnostic: e.diagnostic@,
            partial_output: e.partial_output@,
        },
    }
}

/// What is written in place of the text of a code block: the markup of its
/// highlighted text; for a block whose text is not escaped text, that text as
/// it was read.
pub open spec fn block_markup(block: BlockModel, prefix: Seq<char>) -> Seq<char> {
    match unescaped(block.raw_text) {
        Some(text) => rendered_block(highlighted(text, block.language).0, prefix),
        None => block.raw_text,
    }
}

/// The highlighted blocks for `blocks`. A block whose text
/// is not escaped text has none: it stays in the document as it was read.
pub open spec fn highlights(blocks: Seq<PlacedModel>) -> Seq<PlacedLines>
    decreases blocks.len(),
{
    if blocks.len() == 0 {
        Seq::empty()
    } else {
        let last = blocks.last();
        match unescaped(last.block.raw_text) {
            Some(text) => highlights(blocks.drop_last()).push(
                PlacedLines {
                    lines: highlighted(text, last.block.language).0,
                    position: last.position,
                },
            ),
            None => highlights(blocks.drop_last()),
        }
    }
}

/// The errors on `blocks`, in their order: one for each block on which the
/// tokenizer failed, and one for each block whose text is not escaped text.
pub open spec fn faults_of(blocks: Seq<PlacedModel>) -> Seq<HighlightError>
    decreases blocks.len(),
{
    if blocks.len() == 0 {
        Seq::empty()
    } else {
        let last = blocks.last();
        match unescaped(last.block.raw_text) {
            Some(text) => match highlighted(text, last.block.language).1 {
                Some(error) => faults_of(blocks.drop_last()).push(error),
                None => faults_of(blocks.drop_last()),
            },
            None => faults_of(blocks.drop_last()).push(
                fault_of(FaultKind::Escaping, last.block.raw_text),
            ),
        }
    }
}

/// What is written for the events `events`: the events that the run took
/// before the state machine failed, as they were read, with the highlighted
/// blocks in place of the text of the code blocks.
pub open spec fn written(events: Seq<EventModel>, prefix: Seq<char>) -> Seq<
    char,
> {
    spliced(
        events.take(taken(events, events.len() as int)),
        0,
        highlights(blocks_within(events, events.len() as int)),
        prefix,
    )
}

/// The kind of failure that a diagnostic tells of.
pub open spec fn error_kind(d: DiagnosticModel) -> ErrorKind {
    if d.event is Error {
        ErrorKind::Scan
    } else {
        ErrorKind::StateTransition
    }
}

/// What a document's error says: for an error of the scanner its reason, for
/// one of the state machine its diagnostic in words.
pub open spec fn diagnostic_of(d: DiagnosticModel) -> Seq<char> {
    if d.event is Error {
        d.subject
    } else {
        message_of(d)
    }
}

/// How the run over `events` ends.
pub open spec fn events_outcome(
    events: Seq<EventModel>,
    prefix: Seq<char>,
) -> Outcome {
    match state_after(events, events.len() as int) {
        StateModel::Failed(d) => Outcome::Failed {
            kind: error_kind(d),
            diagnostic: diagnostic_of(d),
            partial_output: written(events, prefix),
        },
        _ => Outcome::Done {
            html: written(events, prefix),
            faults: faults_of(blocks_within(events, events.len() as int)),
        },
    }
}

/// How the run over the document `html` ends.
pub open spec fn document_outcome(
    html: Seq<char>,
    prefix: Seq<char>,
) -> Outcome {
    events_outcome(scanned(html), prefix)
}

/// Highlights each of `blocks` whose text is escaped text, and gives an error
/// for each of the others and for each on which the tokenizer failed.
pub fn highlight_blocks(blocks: &Vec<PlacedBlock>) -> (r: (
    Vec<PlacedHighlight>,
    Vec<HighlightError>,
))
    ensures
        r.0.deep_view() == highlights(blocks.deep_view()),
        r.1@ == faults_of(blocks.deep_view()),
{
    let ghost model = blocks.deep_view();
    let mut placed: Vec<PlacedHighlight> = Vec::new();
    let mut faults: Vec<HighlightError> = Vec::new();
    let mut k: usize = 0;
    while k < blocks.len()
        invariant
            k <= blocks.len(),
            model == blocks.deep_view(),
            placed.deep_view() == highlights(model.take(k as int)),
            faults@ == faults_of(model.take(k as int)),
        decreases blocks.len() - k,
    {
        let entry = &blocks[k];
        proof {
            assert(model.take(k + 1).drop_last() =~= model.take(k as int));
        }
        match unescape_text(entry.block.raw_text.as_str()) {
            Some(text) => {
                let language = match &entry.block.language {
                    Some(l) => Some(l.as_str()),
                    None => None,
                };
                let (block, fault) = highlight(text.as_str(), language);
                placed.push(PlacedHighlight { block, position: entry.position });
                match fault {
                    Some(error) => {
                        faults.push(error);
                    },
                    None => {},
                }
            },
            None => {
                faults.push(escaping_fault(entry.block.raw_text.as_str()));
            },
        }
        k += 1;
    }
    proof {
        assert(model.take(model.len() as int) =~= model);
    }
    (placed, faults)
}

/// Runs the state machine over `events`, highlights the code blocks and
/// writes the document again.
pub fn process_events(events: Vec<HtmlEvent>, config: &HighlightConfig) -> (r: Result<
    Highlighted,
    DocumentError,
>)
    ensures
        outcome_of(r) == events_outcome(
            events.deep_view(),
            config.class_prefix@,
        ),
{
    let ghost model = events.deep_view();
    let mut events = events;
    let extraction = extract_code_blocks(&events);
    let (placed, faults) = highlight_blocks(&extraction.blocks);
    events.truncate(extraction.consumed);
    proof {
        assert(events.deep_view() =~= model.take(extraction.consumed as int));
    }
    let out = reserialize(&events, &placed, config.class_prefix.as_str());
    match extraction.state {
        State::Failed(d) => {
            let diagnostic = match d.event {
                EventKind::Error => d.subject.clone(),
                _ => d.message(),
            };
            let kind = match d.event {
                EventKind::Error => ErrorKind::Scan,
                _ => ErrorKind::StateTransition,
            };
            Err(DocumentError { kind, diagnostic, partial_output: out })
        },
        _ => Ok(Highlighted { html: out, faults }),
    }
}

/// Highlights the code blocks of the document `html` and leaves the rest of
/// it as it is.
pub fn highlight_document(html: &str, config: &HighlightConfig) -> (r: Result<
    Highlighted,
    DocumentError,
>)
    ensures
        outcome_of(r) == document_outcome(html@, config.class_prefix@),
{
    process_events(scan(html), config)
}

/// The outcomes of the documents `documents`, each on its own.
pub open spec fn outcomes(documents: Seq<Seq<char>>, prefix: Seq<char>) -> Seq<
    Outcome,
> {
    Seq::new(documents.len(), |k: int| document_outcome(documents[k], prefix))
}

/// Highlights each of `documents`. The outcome of a document depends on that
/// document alone; one that fails leaves the others as they are.
pub fn highlight_documents(documents: &Vec<String>, config: &HighlightConfig) -> (results: Vec<
    Result<Highlighted, DocumentError>,
>)
    ensures
        results.len() == documents.len(),
        forall|k: int|
            0 <= k < documents.len() ==> outcome_of(#[trigger] results[k]) == outcomes(
                documents.deep_view(),
                config.class_prefix@,
            )[k],
{
    let mut results: Vec<Result<Highlighted, DocumentError>> = Vec::new();
    let mut k: usize = 0;
    while k < documents.len()
        invariant
            k <= documents.len(),
            results.len() == k,
            forall|j: int|
                0 <= j < k ==> outcome_of(#[trigger] results[j]) == outcomes(
                    documents.deep_view(),
                    config.class_prefix@,
                )[j],
        decreases documents.len() - k,
    {
        let result = highlight_document(documents[k].as_str(), config);
        results.push(result);
        k += 1;
    }
    results
}

/// Highlights the code blocks of the document `html_string`, with the
/// highlighter as `HighlightConfig::new` sets it, and gives the document back.
pub fn syntax_highlight(html_string: String) -> (r: Result<String, DocumentError>)
    ensures
        match r {
            Ok(html) => document_outcome(html_string@, Seq::empty())
                matches Outcome::Done { html: h, .. } && html@ == h,
            Err(e) => document_outcome(html_string@, Seq::empty())
                == outcome_of(Err(e)),
        },
{
    let config = HighlightConfig::new();
    match highlight_document(html_string.as_str(), &config) {
        Ok(highlighted) => Ok(highlighted.html),
        Err(e) => Err(e),
    }
}

} // verus!
