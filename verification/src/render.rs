//! The re-serializer: from events and highlighted blocks to the text of the
//! document.

use vstd::prelude::*;
use crate::event::{EventModel, HtmlEvent, raw_concat};
use crate::highlight::{
    CategoryModel, HighlightToken, HighlightedBlock, StyleCategory, TokenModel, joined,
};
use crate::text::{escape_text, escaped};

verus! {

/// The markup for one token: its escaped text, inside a `span` whose class is
/// `prefix` and the name of its style category where it has one.
pub open spec fn rendered_token(token: TokenModel, prefix: Seq<char>) -> Seq<char> {
    match token.category {
        CategoryModel::Neutral => escaped(token.text),
        CategoryModel::Named(name) => "<span class=\""@ + escaped(prefix + name) + "\">"@
            + escaped(token.text) + "</span>"@,
    }
}

/// The markup for a line: that of its tokens, one after the other.
pub open spec fn rendered_line(tokens: Seq<TokenModel>, prefix: Seq<char>) -> Seq<char> {
    joined(Seq::new(tokens.len(), |k: int| rendered_token(tokens[k], prefix)))
}

/// The markup for a block: that of its lines, one after the other.
pub open spec fn rendered_block(lines: Seq<Seq<TokenModel>>, prefix: Seq<char>) -> Seq<char> {
    joined(Seq::new(lines.len(), |k: int| rendered_line(lines[k], prefix)))
}

/// A highlighted block and where it goes: `position` is the index, among the
/// events of the document, of the end tag that closes the block. The block
/// stands in place of the text events that come just before that event.
#[derive(Clone, Debug, PartialEq, Eq)]
pub struct PlacedHighlight {
    pub block: HighlightedBlock,
    pub position: usize,
}

/// A placed highlighted block with texts in place of strings.
pub ghost struct PlacedLines {
    pub lines: Seq<Seq<TokenModel>>,
    pub position: int,
}

impl View for PlacedHighlight {
    type V = PlacedLines;

    open spec fn view(&self) -> PlacedLines {
        PlacedLines { lines: self.block@, position: self.position as int }
    }
}

impl DeepView for PlacedHighlight {
    type V = PlacedLines;

    open spec fn deep_view(&self) -> PlacedLines {
        self@
    }
}

/// The index at which the run of text events starts that ends just before the
/// event at index `position`; `position` itself where no text event stands
/// there.
pub open spec fn text_run_start(events: Seq<EventModel>, position: int) -> int
    decreases position,
{
    if 0 < position <= events.len() && events[position - 1] is Text {
        text_run_start(events, position - 1)
    } else {
        position
    }
}

/// A text and where it goes: `position` is the index of the event before
/// which it is put, in place of the run of text events that stands there.
pub ghost struct Replacement {
    pub text: Seq<char>,
    pub position: int,
}

/// The text of the document from the event at index `from` on, with each of
/// `texts` in place of the run of text events before its position. The events
/// outside those runs are written as they were read. A text whose position is
/// before `from`, or is no index of `events`, is left out.
pub open spec fn spliced_texts(events: Seq<EventModel>, from: int, texts: Seq<Replacement>) -> Seq<
    char,
>
    decreases texts.len(),
{
    if texts.len() == 0 {
        raw_concat(events, from, events.len() as int)
    } else if from <= texts[0].position < events.len() {
        let run = text_run_start(events, texts[0].position);
        raw_concat(events, from, if run < from { from } else { run }) + texts[0].text
            + spliced_texts(events, texts[0].position, texts.skip(1))
    } else {
        spliced_texts(events, from, texts.skip(1))
    }
}

/// The markup of each of `placed`, with its position.
pub open spec fn renderings(placed: Seq<PlacedLines>, prefix: Seq<char>) -> Seq<Replacement> {
    Seq::new(
        placed.len(),
        |k: int|
            Replacement {
                text: rendered_block(placed[k].lines, prefix),
                position: placed[k].position,
            },
    )
}

/// The text of the document from the event at index `from` on, with the
/// markup of each of `placed` in place of the run of text events before its
/// position.
pub open spec fn spliced(
    events: Seq<EventModel>,
    from: int,
    placed: Seq<PlacedLines>,
    prefix: Seq<char>,
) -> Seq<char> {
    spliced_texts(events, from, renderings(placed, prefix))
}

/// Appends the markup for `token` to `out`.
fn render_token(out: &mut String, token: &HighlightToken, prefix: &str)
    ensures
        final(out)@ == old(out)@ + rendered_token(token@, prefix@),
{
    match &token.category {
        StyleCategory::Neutral => {
            out.append(escape_text(token.text.as_str()).as_str());
        },
        StyleCategory::Named(name) => {
            let mut class = String::from_str(prefix);
            class.append(name.as_str());
            out.append("<span class=\"");
            out.append(escape_text(class.as_str()).as_str());
            out.append("\">");
            out.append(escape_text(token.text.as_str()).as_str());
            out.append("</span>");
        },
    }
}

/// Appends the markup for the line `tokens` to `out`.
fn render_line(out: &mut String, tokens: &Vec<HighlightToken>, prefix: &str)
    ensures
        final(out)@ == old(out)@ + rendered_line(tokens.deep_view(), prefix@),
{
    let ghost model = tokens.deep_view();
    let ghost parts = Seq::new(model.len(), |k: int| rendered_token(model[k], prefix@));
    let mut k: usize = 0;
    while k < tokens.len()
        invariant
            k <= tokens.len(),
            model == tokens.deep_view(),
            parts == Seq::new(model.len(), |k: int| rendered_token(model[k], prefix@)),
            out@ == old(out)@ + joined(parts.take(k as int)),
        decreases tokens.len() - k,
    {
        proof {
            assert(parts.take(k + 1).drop_last() =~= parts.take(k as int));
        }
        render_token(out, &tokens[k], prefix);
        k += 1;
    }
    proof {
        assert(parts.take(model.len() as int) =~= parts);
    }
}

/// The markup for `block`: each token's escaped text, inside a `span` whose
/// class is `prefix` and the name of its style category where it has one.
pub fn render_block(block: &HighlightedBlock, prefix: &str) -> (out: String)
    ensures
        out@ == rendered_block(block@, prefix@),
{
    let ghost model = block@;
    let ghost parts = Seq::new(model.len(), |k: int| rendered_line(model[k], prefix@));
    let mut out = String::new();
    let mut k: usize = 0;
    while k < block.lines.len()
        invariant
            k <= block.lines.len(),
            model == block@,
            parts == Seq::new(model.len(), |k: int| rendered_line(model[k], prefix@)),
            out@ == joined(parts.take(k as int)),
        decreases block.lines.len() - k,
    {
        proof {
            assert(parts.take(k + 1).drop_last() =~= parts.take(k as int));
        }
        render_line(&mut out, &block.lines[k], prefix);
        k += 1;
    }
    proof {
        assert(parts.take(model.len() as int) =~= parts);
    }
    out
}

/// Appends the events `events[from..to]` to `out`, as they were read.
fn append_raw(out: &mut String, events: &Vec<HtmlEvent>, from: usize, to: usize)
    requires
        from <= to <= events.len(),
    ensures
        final(out)@ == old(out)@ + raw_concat(events.deep_view(), from as int, to as int),
{
    let mut k: usize = from;
    while k < to
        invariant
            from <= k <= to <= events.len(),
            out@ == old(out)@ + raw_concat(events.deep_view(), from as int, k as int),
        decreases to - k,
    {
        out.append(events[k].raw());
        k += 1;
    }
}

/// The index at which the run of text events starts that ends just before the
/// event at index `position`.
fn run_start(events: &Vec<HtmlEvent>, position: usize) -> (start: usize)
    requires
        position <= events.len(),
    ensures
        start == text_run_start(events.deep_view(), position as int),
        start <= position,
{
    let mut start: usize = position;
    while start > 0 && is_text(&events[start - 1])
        invariant
            start <= position <= events.len(),
            text_run_start(events.deep_view(), start as int) == text_run_start(
                events.deep_view(),
                position as int,
            ),
        decreases start,
    {
        start -= 1;
    }
    start
}

/// Whether `event` is a text event.
fn is_text(event: &HtmlEvent) -> (b: bool)
    ensures
        b == (event@ is Text),
{
    match event {
        HtmlEvent::Text(_) => true,
        _ => false,
    }
}

/// Writes the document again: the events as they were read, and each of
/// `blocks` in place of the run of text events before its position. A block
/// is left out if its position is before that of the block before it, or is
/// no index of `events`.
pub fn reserialize(events: &Vec<HtmlEvent>, blocks: &Vec<PlacedHighlight>, prefix: &str) -> (out:
    String)
    ensures
        out@ == spliced(events.deep_view(), 0, blocks.deep_view(), prefix@),
{
    let ghost model = events.deep_view();
    let ghost texts = renderings(blocks.deep_view(), prefix@);
    let mut out = String::new();
    let mut from: usize = 0;
    let mut k: usize = 0;
    proof {
        assert(texts.skip(0) =~= texts);
    }
    while k < blocks.len()
        invariant
            k <= blocks.len(),
            from <= events.len(),
            model == events.deep_view(),
            texts == renderings(blocks.deep_view(), prefix@),
            out@ + spliced_texts(model, from as int, texts.skip(k as int)) == spliced_texts(
                model,
                0,
                texts,
            ),
        decreases blocks.len() - k,
    {
        let position = blocks[k].position;
        proof {
            assert(texts.skip(k as int).skip(1) =~= texts.skip(k + 1));
        }
        if from <= position && position < events.len() {
            let run = run_start(events, position);
            let start = if run < from {
                from
            } else {
                run
            };
            append_raw(&mut out, events, from, start);
            out.append(render_block(&blocks[k].block, prefix).as_str());
            from = position;
        }
        k += 1;
    }
    append_raw(&mut out, events, from, events.len());
    out
}

} // verus!
