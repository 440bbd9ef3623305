//! The events that a document is read as.

use vstd::prelude::*;

verus! {

/// One attribute of a start tag.
#[derive(Clone, Debug, PartialEq, Eq)]
pub struct Attribute {
    pub name: String,
    pub value: String,
}

/// An attribute as a pair of texts.
pub ghost struct AttributeModel {
    pub name: Seq<char>,
    pub value: Seq<char>,
}

impl View for Attribute {
    type V = AttributeModel;

    open spec fn view(&self) -> AttributeModel {
        AttributeModel { name: self.name@, value: self.value@ }
    }
}

impl DeepView for Attribute {
    type V = AttributeModel;

    open spec fn deep_view(&self) -> AttributeModel {
        self@
    }
}

/// One structural event of a document. Every event but `Error` stands for a
/// stretch of the document, which it keeps as it was written: the `raw` text
/// of a tag, the text of a `Text`.
#[derive(Clone, Debug, PartialEq, Eq)]
pub enum HtmlEvent {
    /// A start tag, with its name and attributes as the markup reader gave them.
    StartTag { name: String, attributes: Vec<Attribute>, raw: String },
    /// An end tag.
    EndTag { name: String, raw: String },
    /// Text between tags, character references not yet replaced; also markup
    /// that is no tag, such as a comment.
    Text(String),
    /// The document could not be read further; the reason.
    Error(String),
}

/// An event with texts in place of strings.
pub ghost enum EventModel {
    StartTag { name: Seq<char>, attributes: Seq<AttributeModel>, raw: Seq<char> },
    EndTag { name: Seq<char>, raw: Seq<char> },
    Text(Seq<char>),
    Error(Seq<char>),
}

impl View for HtmlEvent {
    type V = EventModel;

    open spec fn view(&self) -> EventModel {
        match self {
            HtmlEvent::StartTag { name, attributes, raw } => EventModel::StartTag {
                name: name@,
                attributes: attributes.deep_view(),
                raw: raw@,
            },
            HtmlEvent::EndTag { name, raw } => EventModel::EndTag { name: name@, raw: raw@ },
            HtmlEvent::Text(text) => EventModel::Text(text@),
            HtmlEvent::Error(reason) => EventModel::Error(reason@),
        }
    }
}

impl DeepView for HtmlEvent {
    type V = EventModel;

    open spec fn deep_view(&self) -> EventModel {
        self@
    }
}

impl EventModel {
    /// The stretch of the document that the event stands for.
    pub open spec fn raw_text(self) -> Seq<char> {
        match self {
            EventModel::StartTag { raw, .. } => raw,
            EventModel::EndTag { raw, .. } => raw,
            EventModel::Text(text) => text,
            EventModel::Error(_) => Seq::empty(),
        }
    }

    /// Whether the event is a start tag named `name`.
    pub open spec fn starts(self, name: Seq<char>) -> bool {
        self matches EventModel::StartTag { name: n, .. } && n == name
    }

    /// Whether the event is an end tag named `name`.
    pub open spec fn ends(self, name: Seq<char>) -> bool {
        self matches EventModel::EndTag { name: n, .. } && n == name
    }
}

/// The stretches of the events `events[from..to]`, one after the other.
pub open spec fn raw_concat(events: Seq<EventModel>, from: int, to: int) -> Seq<char>
    decreases to - from,
{
    if from >= to {
        Seq::empty()
    } else {
        raw_concat(events, from, to - 1) + events[to - 1].raw_text()
    }
}

impl HtmlEvent {
    /// The stretch of the document that the event stands for.
    pub fn raw(&self) -> (r: &str)
        ensures
            r@ == self@.raw_text(),
    {
        proof {
            reveal_strlit("");
        }
        match self {
            HtmlEvent::StartTag { raw, .. } => raw.as_str(),
            HtmlEvent::EndTag { raw, .. } => raw.as_str(),
            HtmlEvent::Text(text) => text.as_str(),
            HtmlEvent::Error(_) => "",
        }
    }
}

/// A stretch of events can be taken in two parts.
pub proof fn lemma_raw_concat_split(events: Seq<EventModel>, from: int, mid: int, to: int)
    requires
        from <= mid <= to,
    ensures
        raw_concat(events, from, to) == raw_concat(events, from, mid) + raw_concat(events, mid, to),
    decreases to - mid,
{
    if mid < to {
        lemma_raw_concat_split(events, from, mid, to - 1);
    }
}

/// The stretches of `events[from..to]` depend on those events alone.
pub proof fn lemma_raw_concat_same(
    a: Seq<EventModel>,
    b: Seq<EventModel>,
    from: int,
    to: int,
    shift: int,
)
    requires
        forall|k: int| from <= k < to ==> a[k] == b[k + shift],
    ensures
        raw_concat(a, from, to) == raw_concat(b, from + shift, to + shift),
    decreases to - from,
{
    if from < to {
        lemma_raw_concat_same(a, b, from, to - 1, shift);
    }
}

} // verus!
