//! The code block state machine.
//!
//! A code block is written `<pre><code ...>text</code></pre>`. The machine
//! takes the events that make up a code block, one by one, and nothing else:
//! in each state one or two events are defined, and every other event fails
//! it. Outside a code block the only event defined is the start tag `pre`.
//!
//! A document holds much that is no code block. The run over a document
//! (`extract_code_blocks`) therefore does not hand every event to the
//! machine: while the machine is outside a code block, text and the tags
//! that code blocks are not written with are passed over. A `pre` or `code`
//! tag is always handed to the machine, so that one that stands where no
//! code block allows it fails the document.

use vstd::prelude::*;
use crate::event::{Attribute, AttributeModel, EventModel, HtmlEvent};
use crate::text::{
    chars_of, excerpt, excerpt_of, find_char, holds_at, index_of_char, same_text, starts_at,
    string_of,
};

verus! {

/// Which state the machine is in.
#[derive(Clone, Copy, Debug, PartialEq, Eq)]
pub enum StateKind {
    Outside,
    SeenPreOpen,
    InCodeBlock,
    AwaitingPreClose,
    Failed,
}

/// Which kind of event it is.
#[derive(Clone, Copy, Debug, PartialEq, Eq)]
pub enum EventKind {
    StartTag,
    EndTag,
    Text,
    Error,
}

/// Why the machine failed: the state it was in and the event that it could
/// not take there. `subject` is what the event carries: the reason of an
/// `Error`, and the start of the name of a tag or of the text of a `Text`.
#[derive(Clone, Debug, PartialEq, Eq)]
pub struct Diagnostic {
    pub state: StateKind,
    pub event: EventKind,
    pub subject: String,
}

/// A diagnostic with a text in place of its string.
pub ghost struct DiagnosticModel {
    pub state: StateKind,
    pub event: EventKind,
    pub subject: Seq<char>,
}

impl View for Diagnostic {
    type V = DiagnosticModel;

    open spec fn view(&self) -> DiagnosticModel {
        DiagnosticModel { state: self.state, event: self.event, subject: self.subject@ }
    }
}

/// A code block taken out of a document: the language that its start tag
/// names, if it names one, and its text as the document has it, character
/// references not yet replaced.
#[derive(Clone, Debug, PartialEq, Eq)]
pub struct CodeBlock {
    pub language: Option<String>,
    pub raw_text: String,
}

/// A code block with texts in place of strings.
pub ghost struct BlockModel {
    pub language: Option<Seq<char>>,
    pub raw_text: Seq<char>,
}

/// The text of a string that may be absent.
pub open spec fn text_of(s: Option<String>) -> Option<Seq<char>> {
    match s {
        Some(s) => Some(s@),
        None => None,
    }
}

impl View for CodeBlock {
    type V = BlockModel;

    open spec fn view(&self) -> BlockModel {
        BlockModel { language: text_of(self.language), raw_text: self.raw_text@ }
    }
}

impl DeepView for CodeBlock {
    type V = BlockModel;

    open spec fn deep_view(&self) -> BlockModel {
        self@
    }
}

/// The model of a code block that may be absent.
pub open spec fn block_of(block: Option<CodeBlock>) -> Option<BlockModel> {
    match block {
        Some(b) => Some(b@),
        None => None,
    }
}

/// The state of the machine.
#[derive(Clone, Debug, PartialEq, Eq)]
pub enum State {
    /// Not in a code block.
    Outside,
    /// After `<pre>`.
    SeenPreOpen,
    /// After `<pre><code>`: the text read so far and the block's language.
    InCodeBlock { text: String, language: Option<String> },
    /// After `</code>`.
    AwaitingPreClose,
    /// An event came that the state could not take. The machine stays here.
    Failed(Diagnostic),
}

/// A state with texts in place of strings.
pub ghost enum StateModel {
    Outside,
    SeenPreOpen,
    InCodeBlock { text: Seq<char>, language: Option<Seq<char>> },
    AwaitingPreClose,
    Failed(DiagnosticModel),
}

impl View for State {
    type V = StateModel;

    open spec fn view(&self) -> StateModel {
        match self {
            State::Outside => StateModel::Outside,
            State::SeenPreOpen => StateModel::SeenPreOpen,
            State::InCodeBlock { text, language } => StateModel::InCodeBlock {
                text: text@,
                language: text_of(*language),
            },
            State::AwaitingPreClose => StateModel::AwaitingPreClose,
            State::Failed(d) => StateModel::Failed(d@),
        }
    }
}

/// The value of the first attribute named `class`, looked for from index `i`
/// on.
pub open spec fn class_value(attributes: Seq<AttributeModel>, i: int) -> Option<Seq<char>>
    decreases attributes.len() - i,
{
    if i < 0 || i >= attributes.len() {
        None
    } else if attributes[i].name == "class"@ {
        Some(attributes[i].value)
    } else {
        class_value(attributes, i + 1)
    }
}

/// The first word of `value`: what stands before its first space.
pub open spec fn first_word(value: Seq<char>) -> Seq<char> {
    value.take(find_char(value, ' ', 0))
}

/// `word` without the prefix `language-` or `lang-`, where it has one.
pub open spec fn bare_identifier(word: Seq<char>) -> Seq<char> {
    if holds_at(word, 0, "language-"@) {
        word.skip(9)
    } else if holds_at(word, 0, "lang-"@) {
        word.skip(5)
    } else {
        word
    }
}

/// The language that a code start tag with these attributes names: the first
/// word of its `class`, without the prefix `language-` or `lang-`. None where
/// the tag has no `class` or nothing is left of the word.
pub open spec fn language_of(attributes: Seq<AttributeModel>) -> Option<Seq<char>> {
    match class_value(attributes, 0) {
        Some(value) => {
            let identifier = bare_identifier(first_word(value));
            if identifier.len() > 0 {
                Some(identifier)
            } else {
                None
            }
        },
        None => None,
    }
}

/// Which kind of event `event` is.
pub open spec fn event_kind(event: EventModel) -> EventKind {
    match event {
        EventModel::StartTag { .. } => EventKind::StartTag,
        EventModel::EndTag { .. } => EventKind::EndTag,
        EventModel::Text(_) => EventKind::Text,
        EventModel::Error(_) => EventKind::Error,
    }
}

/// What a diagnostic says of `event`: the reason of an `Error`, and the start
/// of the name of a tag or of the text of a `Text`.
pub open spec fn subject_of(event: EventModel) -> Seq<char> {
    match event {
        EventModel::StartTag { name, .. } => excerpt_of(name),
        EventModel::EndTag { name, .. } => excerpt_of(name),
        EventModel::Text(text) => excerpt_of(text),
        EventModel::Error(reason) => reason,
    }
}

/// The name of a kind of state.
pub open spec fn state_name(kind: StateKind) -> Seq<char> {
    match kind {
        StateKind::Outside => "Outside"@,
        StateKind::SeenPreOpen => "SeenPreOpen"@,
        StateKind::InCodeBlock => "InCodeBlock"@,
        StateKind::AwaitingPreClose => "AwaitingPreClose"@,
        StateKind::Failed => "Failed"@,
    }
}

/// The name of a kind of event.
pub open spec fn event_name(kind: EventKind) -> Seq<char> {
    match kind {
        EventKind::StartTag => "StartTag"@,
        EventKind::EndTag => "EndTag"@,
        EventKind::Text => "Text"@,
        EventKind::Error => "Error"@,
    }
}

/// The diagnostic in words: `Invalid state/event: `, the state's name, ` | `,
/// the event's name and, in brackets, the subject.
pub open spec fn message_of(d: DiagnosticModel) -> Seq<char> {
    "Invalid state/event: "@ + state_name(d.state) + " | "@ + event_name(d.event) + "("@
        + d.subject + ")"@
}

impl Diagnostic {
    /// The diagnostic in words.
    pub fn message(&self) -> (text: String)
        ensures
            text@ == message_of(self@),
    {
        let mut text = String::from_str("Invalid state/event: ");
        text.append(
            match self.state {
                StateKind::Outside => "Outside",
                StateKind::SeenPreOpen => "SeenPreOpen",
                StateKind::InCodeBlock => "InCodeBlock",
                StateKind::AwaitingPreClose => "AwaitingPreClose",
                StateKind::Failed => "Failed",
            },
        );
        text.append(" | ");
        text.append(
            match self.event {
                EventKind::StartTag => "StartTag",
                EventKind::EndTag => "EndTag",
                EventKind::Text => "Text",
                EventKind::Error => "Error",
            },
        );
        text.append("(");
        text.append(self.subject.as_str());
        text.append(")");
        text
    }
}

/// The state that the machine fails into when `event` comes in a state of
/// kind `state`.
pub open spec fn failure(state: StateKind, event: EventModel) -> StateModel {
    StateModel::Failed(
        DiagnosticModel { state, event: event_kind(event), subject: subject_of(event) },
    )
}

/// Whether `name` is the name of a tag that code blocks are written with.
pub open spec fn is_block_tag(name: Seq<char>) -> bool {
    name == "pre"@ || name == "code"@
}

/// Whether `event` has no part in a code block's form: text, and tags that
/// code blocks are not written with. The run over a document passes over
/// such an event while the machine is outside a code block.
pub open spec fn passes(event: EventModel) -> bool {
    match event {
        EventModel::StartTag { name, .. } => !is_block_tag(name),
        EventModel::EndTag { name, .. } => !is_block_tag(name),
        EventModel::Text(_) => true,
        EventModel::Error(_) => false,
    }
}

/// One step of the machine: the state after `event`, and the code block that
/// the event completes, if it completes one. Every pair of a state and an
/// event that is not defined here fails the machine, and a machine that has
/// failed stays as it is.
pub open spec fn step(state: StateModel, event: EventModel) -> (StateModel, Option<BlockModel>) {
    match state {
        StateModel::Outside => if event.starts("pre"@) {
            (StateModel::SeenPreOpen, None)
        } else {
            (failure(StateKind::Outside, event), None)
        },
        StateModel::SeenPreOpen => match event {
            EventModel::StartTag { name, attributes, .. } => if name == "code"@ {
                (
                    StateModel::InCodeBlock {
                        text: Seq::empty(),
                        language: language_of(attributes),
                    },
                    None,
                )
            } else {
                (failure(StateKind::SeenPreOpen, event), None)
            },
            _ => (failure(StateKind::SeenPreOpen, event), None),
        },
        StateModel::InCodeBlock { text, language } => match event {
            EventModel::Text(more) => (
                StateModel::InCodeBlock { text: text + more, language },
                None,
            ),
            EventModel::EndTag { name, .. } => if name == "code"@ {
                (StateModel::AwaitingPreClose, Some(BlockModel { language, raw_text: text }))
            } else {
                (failure(StateKind::InCodeBlock, event), None)
            },
            _ => (failure(StateKind::InCodeBlock, event), None),
        },
        StateModel::AwaitingPreClose => if event.ends("pre"@) {
            (StateModel::Outside, None)
        } else {
            (failure(StateKind::AwaitingPreClose, event), None)
        },
        StateModel::Failed(d) => (StateModel::Failed(d), None),
    }
}

/// The language that a code start tag with these attributes names.
pub fn parse_language(attributes: &Vec<Attribute>) -> (language: Option<String>)
    ensures
        text_of(language) == language_of(attributes.deep_view()),
{
    let mut i: usize = 0;
    while i < attributes.len()
        invariant
            i <= attributes.len(),
            class_value(attributes.deep_view(), i as int) == class_value(
                attributes.deep_view(),
                0,
            ),
        decreases attributes.len() - i,
    {
        if same_text(attributes[i].name.as_str(), "class") {
            let value = chars_of(attributes[i].value.as_str());
            let space = index_of_char(&value, ' ', 0);
            let word = string_of(&value, 0, space);
            let letters = chars_of(word.as_str());
            proof {
                reveal_strlit("language-");
                reveal_strlit("lang-");
            }
            let from: usize = if starts_at(&letters, 0, "language-") {
                9
            } else if starts_at(&letters, 0, "lang-") {
                5
            } else {
                0
            };
            let identifier = string_of(&letters, from, letters.len());
            if from < letters.len() {
                return Some(identifier);
            } else {
                return None;
            }
        }
        i += 1;
    }
    None
}

/// The state that the machine fails into when `event` comes in a state of
/// kind `state`.
fn fail(state: StateKind, event: &HtmlEvent) -> (failed: State)
    ensures
        failed@ == failure(state, event@),
{
    let diagnostic = match event {
        HtmlEvent::StartTag { name, .. } => Diagnostic {
            state,
            event: EventKind::StartTag,
            subject: excerpt(name.as_str()),
        },
        HtmlEvent::EndTag { name, .. } => Diagnostic {
            state,
            event: EventKind::EndTag,
            subject: excerpt(name.as_str()),
        },
        HtmlEvent::Text(text) => Diagnostic {
            state,
            event: EventKind::Text,
            subject: excerpt(text.as_str()),
        },
        HtmlEvent::Error(reason) => Diagnostic {
            state,
            event: EventKind::Error,
            subject: reason.clone(),
        },
    };
    State::Failed(diagnostic)
}

impl State {
    /// One step of the machine: the state after `event`, and the code block
    /// that the event completes, if it completes one.
    pub fn next(self, event: &HtmlEvent) -> (r: (State, Option<CodeBlock>))
        ensures
            r.0@ == step(self@, event@).0,
            block_of(r.1) == step(self@, event@).1,
    {
        match self {
            State::Outside => match event {
                HtmlEvent::StartTag { name, .. } => {
                    if same_text(name.as_str(), "pre") {
                        (State::SeenPreOpen, None)
                    } else {
                        (fail(StateKind::Outside, event), None)
                    }
                },
                _ => (fail(StateKind::Outside, event), None),
            },
            State::SeenPreOpen => match event {
                HtmlEvent::StartTag { name, attributes, .. } => {
                    if same_text(name.as_str(), "code") {
                        let language = parse_language(attributes);
                        (State::InCodeBlock { text: String::new(), language }, None)
                    } else {
                        (fail(StateKind::SeenPreOpen, event), None)
                    }
                },
                _ => (fail(StateKind::SeenPreOpen, event), None),
            },
            State::InCodeBlock { text, language } => match event {
                HtmlEvent::Text(more) => {
                    let mut text = text;
                    text.append(more.as_str());
                    (State::InCodeBlock { text, language }, None)
                },
                HtmlEvent::EndTag { name, .. } => {
                    if same_text(name.as_str(), "code") {
                        (State::AwaitingPreClose, Some(CodeBlock { language, raw_text: text }))
                    } else {
                        (fail(StateKind::InCodeBlock, event), None)
                    }
                },
                _ => (fail(StateKind::InCodeBlock, event), None),
            },
            State::AwaitingPreClose => match event {
                HtmlEvent::EndTag { name, .. } => {
                    if same_text(name.as_str(), "pre") {
                        (State::Outside, None)
                    } else {
                        (fail(StateKind::AwaitingPreClose, event), None)
                    }
                },
                _ => (fail(StateKind::AwaitingPreClose, event), None),
            },
            State::Failed(d) => (State::Failed(d), None),
        }
    }
}

/// A code block and where it was found: `position` is the index, among the
/// events of the document, of the end tag that completed it.
#[derive(Clone, Debug, PartialEq, Eq)]
pub struct PlacedBlock {
    pub block: CodeBlock,
    pub position: usize,
}

/// A placed code block with texts in place of strings.
pub ghost struct PlacedModel {
    pub block: BlockModel,
    pub position: int,
}

impl View for PlacedBlock {
    type V = PlacedModel;

    open spec fn view(&self) -> PlacedModel {
        PlacedModel { block: self.block@, position: self.position as int }
    }
}

impl DeepView for PlacedBlock {
    type V = PlacedModel;

    open spec fn deep_view(&self) -> PlacedModel {
        self@
    }
}

/// What the machine made of the events of a document.
#[derive(Clone, Debug, PartialEq, Eq)]
pub struct Extraction {
    /// The code blocks, in the order of the document.
    pub blocks: Vec<PlacedBlock>,
    /// The state of the machine after the run.
    pub state: State,
    /// How many events the run took, handed to the machine or passed over,
    /// before the machine failed; where it did not fail, the number of all
    /// events.
    pub consumed: usize,
}

/// Whether the run over a document passes over `event` when the machine is in
/// `state`, without handing it to the machine: outside a code block, an
/// event that has no part in a code block's form.
pub open spec fn passed_over(state: StateModel, event: EventModel) -> bool {
    state is Outside && passes(event)
}

/// One step of the run over a document: an event that is passed over
/// changes nothing, and every other event is one step of the machine.
pub open spec fn advance(state: StateModel, event: EventModel) -> (
    StateModel,
    Option<BlockModel>,
) {
    if passed_over(state, event) {
        (state, None)
    } else {
        step(state, event)
    }
}

/// The state of the machine after the run over the first `n` of `events`.
pub open spec fn state_after(events: Seq<EventModel>, n: int) -> StateModel
    decreases n,
{
    if n <= 0 {
        StateModel::Outside
    } else {
        advance(state_after(events, n - 1), events[n - 1]).0
    }
}

/// The code blocks that the first `n` of `events` complete, each with the
/// index of the event that completed it.
pub open spec fn blocks_within(events: Seq<EventModel>, n: int) -> Seq<PlacedModel>
    decreases n,
{
    if n <= 0 {
        Seq::empty()
    } else {
        match advance(state_after(events, n - 1), events[n - 1]).1 {
            Some(block) => blocks_within(events, n - 1).push(
                PlacedModel { block, position: n - 1 },
            ),
            None => blocks_within(events, n - 1),
        }
    }
}

/// How many of the first `n` of `events` the run takes, handed to the machine
/// or passed over, before the machine fails.
pub open spec fn taken(events: Seq<EventModel>, n: int) -> int
    decreases n,
{
    if n <= 0 {
        0
    } else if state_after(events, n) is Failed {
        taken(events, n - 1)
    } else {
        n
    }
}

/// Once the machine has failed, further events change nothing.
pub proof fn lemma_failed_stays(events: Seq<EventModel>, k: int, n: int)
    requires
        0 <= k <= n,
        state_after(events, k) is Failed,
    ensures
        state_after(events, n) == state_after(events, k),
        blocks_within(events, n) == blocks_within(events, k),
        taken(events, n) == taken(events, k),
    decreases n - k,
{
    if k < n {
        lemma_failed_stays(events, k, n - 1);
    }
}

/// Whether `event` has no part in a code block's form.
pub fn passes_over(event: &HtmlEvent) -> (b: bool)
    ensures
        b == passes(event@),
{
    match event {
        HtmlEvent::StartTag { name, .. } => !(same_text(name.as_str(), "pre") || same_text(
            name.as_str(),
            "code",
        )),
        HtmlEvent::EndTag { name, .. } => !(same_text(name.as_str(), "pre") || same_text(
            name.as_str(),
            "code",
        )),
        HtmlEvent::Text(_) => true,
        HtmlEvent::Error(_) => false,
    }
}

/// Runs over `events`, with the machine in the state `Outside` at first,
/// until the machine fails or the events end, and collects the code blocks.
/// While the machine is outside a code block, the events that have no part
/// in a code block's form are passed over; every other event is handed to
/// the machine.
pub fn extract_code_blocks(events: &Vec<HtmlEvent>) -> (r: Extraction)
    ensures
        r.blocks.deep_view() == blocks_within(events.deep_view(), events.len() as int),
        r.state@ == state_after(events.deep_view(), events.len() as int),
        r.consumed == taken(events.deep_view(), events.len() as int),
        r.consumed <= events.len(),
{
    let mut blocks: Vec<PlacedBlock> = Vec::new();
    let mut state = State::Outside;
    let mut i: usize = 0;
    let ghost model = events.deep_view();
    while i < events.len()
        invariant
            i <= events.len(),
            model == events.deep_view(),
            state@ == state_after(model, i as int),
            !(state@ is Failed),
            blocks.deep_view() == blocks_within(model, i as int),
        decreases events.len() - i,
    {
        let outside = match &state {
            State::Outside => true,
            _ => false,
        };
        if !(outside && passes_over(&events[i])) {
            let (next, block) = state.next(&events[i]);
            match block {
                Some(block) => {
                    blocks.push(PlacedBlock { block, position: i });
                },
                None => {},
            }
            let failed = match &next {
                State::Failed(_) => true,
                _ => false,
            };
            if failed {
                proof {
                    assert(taken(model, i as int) == i);
                    lemma_failed_stays(model, i + 1, events.len() as int);
                }
                return Extraction { blocks, state: next, consumed: i };
            }
            state = next;
        }
        i += 1;
    }
    Extraction { blocks, state, consumed: i }
}

} // verus!
