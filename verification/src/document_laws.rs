//! What holds of whole documents: how a document that holds a code block is
//! read and written.

use vstd::prelude::*;
use crate::event::{AttributeModel, EventModel, lemma_raw_concat_split, raw_concat};
use crate::highlight::{HighlightError, block_text, highlighted};
use crate::laws::{
    lemma_blocks_are_runs, lemma_escaped_tag_free, lemma_highlighted_text, lemma_markup_keeps_text,
    lemma_running_saw_no_error, lemma_unsupported_is_plain, stripped,
};
use crate::machine::{
    BlockModel, PlacedModel, StateModel, advance, blocks_within, failure, first_word, language_of,
    passes, state_after, taken,
};
use crate::markup::xml_start_tag;
use crate::pipeline::{Outcome, block_markup, document_outcome, faults_of, highlights, written};
use crate::render::{
    PlacedLines, Replacement, rendered_block, renderings, spliced_texts, text_run_start,
};
use crate::scanner::{
    is_end_tag_text, is_plain_text, is_start_tag_text, lemma_scan_covers, lemma_scan_pieces,
    name_end, pieces_follow, run_together, scanned, shaped_event, tag_close,
};
use crate::text::{escape_char, escaped, find_char, lemma_unescaped_markup_free, unescaped};
use crate::tokenizer::syntect_has_syntax;

verus! {

/// The one code block `block` as the blocks of a document.
pub open spec fn alone(block: BlockModel) -> Seq<PlacedModel> {
    seq![PlacedModel { block, position: 0 }]
}

/// Whether `s` holds none of the five characters that are escaped.
pub open spec fn holds_no_markup(s: Seq<char>) -> bool {
    forall|k: int| 0 <= k < s.len() ==> escape_char(#[trigger] s[k]) == seq![s[k]]
}

/// A text that holds none of the characters that are escaped is its own
/// escaped form, and stands for itself.
pub proof fn lemma_plain_text_is_escaped(s: Seq<char>)
    requires
        holds_no_markup(s),
    ensures
        escaped(s) == s,
        unescaped(s) == Some(s),
    decreases s.len(),
{
    reveal_strlit("&lt;");
    reveal_strlit("&amp;");
    if s.len() > 0 {
        assert(escape_char(s[0]) == seq![s[0]]);
        assert forall|k: int| 0 <= k < s.skip(1).len() implies escape_char(
            #[trigger] s.skip(1)[k],
        ) == seq![s.skip(1)[k]] by {
            assert(s.skip(1)[k] == s[k + 1]);
        }
        lemma_plain_text_is_escaped(s.skip(1));
        assert(seq![s[0]] + s.skip(1) =~= s);
    }
    assert forall|k: int| 0 <= k < s.len() implies s[k] != '<' && s[k] != '&' by {
        assert(escape_char(s[k]) == seq![s[k]]);
    }
    lemma_unescaped_markup_free(s, 0);
    assert(s.skip(0) =~= s);
}

/// What is put in place of one code block: its markup, or nothing new where
/// its text is not escaped text.
pub proof fn lemma_one_block_markup(placed: PlacedModel, prefix: Seq<char>)
    ensures
        renderings(highlights(seq![placed]), prefix) == if unescaped(placed.block.raw_text)
            is Some {
            seq![
                Replacement {
                    text: block_markup(placed.block, prefix),
                    position: placed.position,
                },
            ]
        } else {
            Seq::<Replacement>::empty()
        },
{
    let blocks = seq![placed];
    assert(blocks.drop_last() =~= Seq::<PlacedModel>::empty());
    assert(highlights(blocks.drop_last()) =~= Seq::<PlacedLines>::empty());
    let texts = renderings(highlights(blocks), prefix);
    if unescaped(placed.block.raw_text) is Some {
        assert(texts =~= seq![
            Replacement { text: block_markup(placed.block, prefix), position: placed.position },
        ]);
    } else {
        assert(texts =~= Seq::<Replacement>::empty());
    }
}

/// One text put in place of a run: the events before the run, the text, and
/// the events from the text's position on.
pub proof fn lemma_splice_one(events: Seq<EventModel>, text: Replacement)
    requires
        0 <= text.position < events.len(),
    ensures
        spliced_texts(events, 0, seq![text]) == raw_concat(
            events,
            0,
            text_run_start(events, text.position),
        ) + text.text + raw_concat(events, text.position, events.len() as int),
{
    let texts = seq![text];
    assert(texts.skip(1) =~= Seq::<Replacement>::empty());
    assert(spliced_texts(events, text.position, texts.skip(1)) == raw_concat(
        events,
        text.position,
        events.len() as int,
    ));
    lemma_run_start_bounds(events, text.position);
}

/// A run of text events starts at an index from 0 to where it ends.
pub proof fn lemma_run_start_bounds(events: Seq<EventModel>, position: int)
    requires
        0 <= position,
    ensures
        0 <= text_run_start(events, position) <= position,
    decreases position,
{
    if 0 < position <= events.len() && events[position - 1] is Text {
        lemma_run_start_bounds(events, position - 1);
    }
}

/// Where the run over `events` does not fail and completes one code block,
/// what is written is the events before the text of the block, the block's
/// markup, and the events from the block's end tag on.
pub proof fn lemma_one_block_written(events: Seq<EventModel>, prefix: Seq<char>)
    requires
        !(state_after(events, events.len() as int) is Failed),
        blocks_within(events, events.len() as int).len() == 1,
    ensures
        ({
            let placed = blocks_within(events, events.len() as int)[0];
            let run = text_run_start(events, placed.position);
            &&& 0 < run <= placed.position < events.len()
            &&& placed.block.raw_text == raw_concat(events, run, placed.position)
            &&& written(events, prefix) == raw_concat(events, 0, run) + block_markup(
                placed.block,
                prefix,
            ) + raw_concat(events, placed.position, events.len() as int)
        }),
{
    let n = events.len() as int;
    let blocks = blocks_within(events, n);
    let placed = blocks[0];
    let run = text_run_start(events, placed.position);
    assert(0 < run <= placed.position < n && placed.block.raw_text == raw_concat(
        events,
        run,
        placed.position,
    )) by {
        lemma_blocks_are_runs(events, n);
    }
    assert(taken(events, n) == n);
    assert(events.take(n) =~= events);
    assert(blocks =~= seq![placed]);
    lemma_one_block_markup(placed, prefix);
    if unescaped(placed.block.raw_text) is Some {
        lemma_splice_one(
            events,
            Replacement { text: block_markup(placed.block, prefix), position: placed.position },
        );
    } else {
        lemma_raw_concat_split(events, 0, run, n);
        lemma_raw_concat_split(events, run, placed.position, n);
    }
}

/// A document that is read to its end without a failure and holds one code
/// block is written as it was read before the text of the block and after it,
/// with the block's markup between them: what stands before the block, the
/// block's own tags and what stands after it are unchanged and occur once.
pub proof fn lemma_one_block_document(html: Seq<char>, prefix: Seq<char>)
    requires
        !(state_after(scanned(html), scanned(html).len() as int) is Failed),
        blocks_within(scanned(html), scanned(html).len() as int).len() == 1,
    ensures
        ({
            let events = scanned(html);
            let placed = blocks_within(events, events.len() as int)[0];
            let run = text_run_start(events, placed.position);
            let before = raw_concat(events, 0, run);
            let after = raw_concat(events, placed.position, events.len() as int);
            &&& html == before + placed.block.raw_text + after
            &&& document_outcome(html, prefix) matches Outcome::Done { html: out, .. } && out
                == before + block_markup(placed.block, prefix) + after
        }),
{
    let events = scanned(html);
    let n = events.len() as int;
    let placed = blocks_within(events, n)[0];
    let run = text_run_start(events, placed.position);
    lemma_one_block_written(events, prefix);
    lemma_running_saw_no_error(events, n);
    lemma_scan_covers(html, 0);
    assert(html.subrange(0, html.len() as int) =~= html);
    lemma_raw_concat_split(events, 0, run, n);
    lemma_raw_concat_split(events, run, placed.position, n);
}

/// The markup of a code block carries the block's text and nothing else:
/// without its tags it is the escaped form of the text that the block stands
/// for, whatever the language and whatever the tokenizer gave. For a block
/// whose text holds none of the characters that are escaped, it is that text
/// itself.
pub proof fn lemma_block_markup_carries_text(block: BlockModel, prefix: Seq<char>)
    requires
        unescaped(block.raw_text) is Some,
    ensures
        stripped(block_markup(block, prefix)) == escaped(unescaped(block.raw_text).unwrap()),
        unescaped(stripped(block_markup(block, prefix))) == unescaped(block.raw_text),
        block_text(highlighted(unescaped(block.raw_text).unwrap(), block.language).0)
            == unescaped(block.raw_text).unwrap(),
        holds_no_markup(block.raw_text) ==> stripped(block_markup(block, prefix))
            == block.raw_text,
{
    let text = unescaped(block.raw_text).unwrap();
    lemma_highlighted_text(text, block.language);
    lemma_markup_keeps_text(highlighted(text, block.language).0, prefix);
    if holds_no_markup(block.raw_text) {
        lemma_plain_text_is_escaped(block.raw_text);
    }
}

/// A code block in a language that the tokenizer has no syntax for is written
/// as the same block without a language is: as its escaped text, each
/// character that is escaped written as one reference and none escaped twice,
/// in tokens of the one category `Neutral` and without an error.
pub proof fn lemma_unsupported_block(
    raw_text: Seq<char>,
    language: Seq<char>,
    prefix: Seq<char>,
)
    requires
        !syntect_has_syntax(language),
    ensures
        block_markup(BlockModel { language: Some(language), raw_text }, prefix) == block_markup(
            BlockModel { language: None, raw_text },
            prefix,
        ),
        unescaped(raw_text) is Some ==> block_markup(
            BlockModel { language: Some(language), raw_text },
            prefix,
        ) == escaped(unescaped(raw_text).unwrap()),
        faults_of(alone(BlockModel { language: Some(language), raw_text })) == faults_of(
            alone(BlockModel { language: None, raw_text }),
        ),
{
    if unescaped(raw_text) is Some {
        lemma_unsupported_is_plain(unescaped(raw_text).unwrap(), language, prefix);
    }
    let with = alone(BlockModel { language: Some(language), raw_text });
    let without = alone(BlockModel { language: None, raw_text });
    assert(with.drop_last() =~= Seq::<PlacedModel>::empty());
    assert(without.drop_last() =~= Seq::<PlacedModel>::empty());
}

/// A second run changes nothing but the wrapping: where the text of a block
/// is the text that the markup of a first run carries, the markup of the
/// second run carries that same text, with no reference escaped again and
/// none left replaced.
pub proof fn lemma_second_run(block: BlockModel, prefix: Seq<char>)
    requires
        unescaped(block.raw_text) is Some,
    ensures
        ({
            let carried = stripped(block_markup(block, prefix));
            let again = BlockModel { language: block.language, raw_text: carried };
            &&& unescaped(carried) == unescaped(block.raw_text)
            &&& stripped(block_markup(again, prefix)) == carried
        }),
{
    lemma_block_markup_carries_text(block, prefix);
    let carried = stripped(block_markup(block, prefix));
    let again = BlockModel { language: block.language, raw_text: carried };
    lemma_block_markup_carries_text(again, prefix);
}

/// While the machine is outside a code block, events that have no part in a
/// code block's form leave it there and complete no block.
pub proof fn lemma_passing_run(events: Seq<EventModel>, m: int, n: int)
    requires
        0 <= m <= n <= events.len(),
        state_after(events, m) is Outside,
        forall|k: int| m <= k < n ==> passes(#[trigger] events[k]),
    ensures
        state_after(events, n) is Outside,
        blocks_within(events, n) == blocks_within(events, m),
    decreases n - m,
{
    if m < n {
        lemma_passing_run(events, m, n - 1);
        assert(passes(events[n - 1]));
    }
}

/// The run over the events of one code block, from outside to outside: the
/// start tags `pre` and `code`, the text if there is any, and the end tags
/// `code` and `pre` complete one block, at the end tag `code`, with that text
/// and the language that the start tag `code` names.
pub proof fn lemma_block_run(
    events: Seq<EventModel>,
    m: int,
    attributes: Seq<AttributeModel>,
    code: Seq<char>,
    close: int,
)
    requires
        0 <= m,
        close + 2 <= events.len(),
        state_after(events, m) is Outside,
        events[m].starts("pre"@),
        events[m + 1] matches EventModel::StartTag { name, attributes: a, .. } && name == "code"@
            && a == attributes,
        (close == m + 2 && code.len() == 0) || (close == m + 3 && events[m + 2]
            == EventModel::Text(code)),
        events[close].ends("code"@),
        events[close + 1].ends("pre"@),
    ensures
        state_after(events, close + 2) is Outside,
        blocks_within(events, close + 2) == blocks_within(events, m).push(
            PlacedModel {
                block: BlockModel { language: language_of(attributes), raw_text: code },
                position: close,
            },
        ),
        text_run_start(events, close) == m + 2,
{
    reveal_strlit("pre");
    reveal_strlit("code");
    assert(!passes(events[m]));
    assert(state_after(events, m + 1) is SeenPreOpen);
    assert(blocks_within(events, m + 1) == blocks_within(events, m));
    assert(state_after(events, m + 2) == (StateModel::InCodeBlock {
        text: Seq::empty(),
        language: language_of(attributes),
    }));
    assert(blocks_within(events, m + 2) == blocks_within(events, m));
    if close == m + 3 {
        assert(Seq::<char>::empty() + code =~= code);
        assert(state_after(events, m + 3) == (StateModel::InCodeBlock {
            text: code,
            language: language_of(attributes),
        }));
        assert(blocks_within(events, m + 3) == blocks_within(events, m));
        assert(text_run_start(events, m + 3) == text_run_start(events, m + 2));
    } else {
        assert(code =~= Seq::<char>::empty());
    }
    assert(text_run_start(events, m + 2) == m + 2);
    let block = BlockModel { language: language_of(attributes), raw_text: code };
    assert(advance(state_after(events, close), events[close]) == (
        StateModel::AwaitingPreClose,
        Some(block),
    ));
    assert(blocks_within(events, close) == blocks_within(events, m));
    assert(blocks_within(events, close + 1) == blocks_within(events, m).push(
        PlacedModel { block, position: close },
    ));
    assert(state_after(events, close + 1) is AwaitingPreClose);
    assert(advance(state_after(events, close + 1), events[close + 1]) == (
        StateModel::Outside,
        None::<BlockModel>,
    ));
    assert(state_after(events, close + 2) is Outside);
}

/// The texts of two runs of pieces, one after the other.
pub proof fn lemma_run_together_concat(a: Seq<Seq<char>>, b: Seq<Seq<char>>)
    ensures
        run_together(a + b) == run_together(a) + run_together(b),
    decreases a.len(),
{
    if a.len() == 0 {
        assert(a + b =~= b);
    } else {
        assert((a + b).skip(1) =~= a.skip(1) + b);
        lemma_run_together_concat(a.skip(1), b);
    }
}

/// The events of pieces stand for the pieces as they are written.
pub proof fn lemma_shaped_raw(pieces: Seq<Seq<char>>, from: int, to: int)
    requires
        0 <= from <= to <= pieces.len(),
    ensures
        raw_concat(Seq::new(pieces.len(), |k: int| shaped_event(pieces[k])), from, to)
            == run_together(pieces.subrange(from, to)),
    decreases to - from,
{
    let events = Seq::new(pieces.len(), |k: int| shaped_event(pieces[k]));
    if from < to {
        lemma_shaped_raw(pieces, from, to - 1);
        let t = pieces[to - 1];
        assert(events[to - 1].raw_text() == t);
        assert(pieces.subrange(from, to) =~= pieces.subrange(from, to - 1) + seq![t]);
        lemma_run_together_concat(pieces.subrange(from, to - 1), seq![t]);
        assert(seq![t].skip(1) =~= Seq::<Seq<char>>::empty());
        assert(run_together(seq![t].skip(1)) =~= Seq::<char>::empty());
        assert(run_together(seq![t]) =~= t);
    } else {
        assert(pieces.subrange(from, to) =~= Seq::<Seq<char>>::empty());
    }
}

/// Whether the markup reader reads the start tag written as `t` as one named
/// `name`.
pub open spec fn read_as(t: Seq<char>, name: Seq<char>) -> bool {
    xml_start_tag(t) matches Some(tag) && tag.0 == name
}

/// The pieces of a code block: its two start tags, its text if it has any,
/// and its two end tags.
pub open spec fn block_pieces(
    open_pre: Seq<char>,
    open_code: Seq<char>,
    code: Seq<char>,
    close_code: Seq<char>,
    close_pre: Seq<char>,
) -> Seq<Seq<char>> {
    if code.len() == 0 {
        seq![open_pre, open_code, close_code, close_pre]
    } else {
        seq![open_pre, open_code, code, close_code, close_pre]
    }
}

/// Whether these are the pieces of a code block as it is written: start tags
/// that the markup reader reads as `pre` and `code`, text without a `<`, and
/// the end tags `code` and `pre`.
pub open spec fn block_written(
    open_pre: Seq<char>,
    open_code: Seq<char>,
    code: Seq<char>,
    close_code: Seq<char>,
    close_pre: Seq<char>,
) -> bool {
    &&& is_start_tag_text(open_pre) && read_as(open_pre, "pre"@)
    &&& is_start_tag_text(open_code) && read_as(open_code, "code"@)
    &&& code.len() == 0 || is_plain_text(code)
    &&& is_end_tag_text(close_code) && close_code.subrange(2, name_end(close_code, 2)) == "code"@
    &&& is_end_tag_text(close_pre) && close_pre.subrange(2, name_end(close_pre, 2)) == "pre"@
}

/// Whether `pieces` are written as tags and text and the run over a document
/// passes over each of them outside a code block.
pub open spec fn passed_pieces(pieces: Seq<Seq<char>>) -> bool {
    &&& pieces_follow(pieces)
    &&& forall|k: int| 0 <= k < pieces.len() ==> passes(shaped_event(#[trigger] pieces[k]))
}

/// The pieces of a code block, written one after the other.
pub proof fn lemma_block_pieces_together(
    open_pre: Seq<char>,
    open_code: Seq<char>,
    code: Seq<char>,
    close_code: Seq<char>,
    close_pre: Seq<char>,
)
    ensures
        run_together(block_pieces(open_pre, open_code, code, close_code, close_pre)) == open_pre
            + open_code + code + close_code + close_pre,
        run_together(seq![open_pre, open_code]) == open_pre + open_code,
        run_together(seq![close_code, close_pre]) == close_code + close_pre,
{
    reveal_with_fuel(run_together, 6);
    let pieces = block_pieces(open_pre, open_code, code, close_code, close_pre);
    lemma_run_together_concat(seq![open_pre], seq![open_code]);
    lemma_run_together_concat(seq![close_code], seq![close_pre]);
    assert(seq![open_pre] + seq![open_code] =~= seq![open_pre, open_code]);
    assert(seq![close_code] + seq![close_pre] =~= seq![close_code, close_pre]);
    lemma_one_piece(open_pre);
    lemma_one_piece(open_code);
    lemma_one_piece(close_code);
    lemma_one_piece(close_pre);
    lemma_one_piece(code);
    if code.len() == 0 {
        assert(pieces =~= seq![open_pre, open_code] + seq![close_code, close_pre]);
        lemma_run_together_concat(seq![open_pre, open_code], seq![close_code, close_pre]);
        assert(open_pre + open_code + code + close_code + close_pre =~= (open_pre + open_code)
            + (close_code + close_pre));
    } else {
        assert(pieces =~= (seq![open_pre, open_code] + seq![code]) + seq![
            close_code,
            close_pre,
        ]);
        lemma_run_together_concat(seq![open_pre, open_code], seq![code]);
        lemma_run_together_concat(
            seq![open_pre, open_code] + seq![code],
            seq![close_code, close_pre],
        );
        assert(open_pre + open_code + code + close_code + close_pre =~= ((open_pre + open_code)
            + code) + (close_code + close_pre));
    }
}

/// One piece on its own.
pub proof fn lemma_one_piece(t: Seq<char>)
    ensures
        run_together(seq![t]) == t,
{
    assert(seq![t].skip(1) =~= Seq::<Seq<char>>::empty());
    assert(run_together(seq![t].skip(1)) =~= Seq::<char>::empty());
    assert(run_together(seq![t]) =~= t);
}

/// Pieces that are passed over, the pieces of a code block and again pieces
/// that are passed over are written as tags and text in which no text
/// follows text.
pub proof fn lemma_document_pieces_follow(
    before: Seq<Seq<char>>,
    block: Seq<Seq<char>>,
    after: Seq<Seq<char>>,
)
    requires
        pieces_follow(before),
        pieces_follow(block),
        pieces_follow(after),
        block.len() > 0 && block[0][0] == '<' && !is_plain_text(block.last()),
    ensures
        pieces_follow(before + block + after),
{
    let pieces = before + block + after;
    assert forall|k: int| 0 <= k < pieces.len() implies {
        let t = #[trigger] pieces[k];
        &&& is_start_tag_text(t) || is_end_tag_text(t) || is_plain_text(t)
        &&& is_plain_text(t) && k + 1 < pieces.len() ==> pieces[k + 1][0] == '<'
    } by {
        let a = before.len() as int;
        let b = a + block.len();
        if k < a {
            assert(pieces[k] == before[k]);
            if k + 1 < a {
                assert(pieces[k + 1] == before[k + 1]);
            } else {
                assert(pieces[k + 1] == block[0]);
            }
        } else if k < b {
            assert(pieces[k] == block[k - a]);
            if k + 1 < b {
                assert(pieces[k + 1] == block[k + 1 - a]);
            }
        } else {
            assert(pieces[k] == after[k - b]);
            if k + 1 < pieces.len() {
                assert(pieces[k + 1] == after[k + 1 - b]);
            }
        }
    }
}

/// The document that holds `before`, a code block and `after`.
pub open spec fn block_document(
    before: Seq<Seq<char>>,
    open_pre: Seq<char>,
    open_code: Seq<char>,
    code: Seq<char>,
    close_code: Seq<char>,
    close_pre: Seq<char>,
    after: Seq<Seq<char>>,
) -> Seq<char> {
    run_together(before) + open_pre + open_code + code + close_code + close_pre + run_together(
        after,
    )
}

/// How a document that holds one code block is read: the run over it does not
/// fail and completes that block and no other, with the text between the
/// block's tags and the language that its start tag `code` names.
pub proof fn lemma_block_document_read(
    before: Seq<Seq<char>>,
    open_pre: Seq<char>,
    open_code: Seq<char>,
    code: Seq<char>,
    close_code: Seq<char>,
    close_pre: Seq<char>,
    after: Seq<Seq<char>>,
)
    requires
        passed_pieces(before),
        block_written(open_pre, open_code, code, close_code, close_pre),
        passed_pieces(after),
    ensures
        ({
            let html = block_document(
                before,
                open_pre,
                open_code,
                code,
                close_code,
                close_pre,
                after,
            );
            let events = scanned(html);
            let n = events.len() as int;
            let close = before.len() + (if code.len() == 0 {
                2int
            } else {
                3int
            });
            let block = BlockModel {
                language: language_of(xml_start_tag(open_code).unwrap().1),
                raw_text: code,
            };
            &&& state_after(events, n) is Outside
            &&& blocks_within(events, n) == seq![PlacedModel { block, position: close }]
            &&& text_run_start(events, close) == before.len() + 2
            &&& raw_concat(events, 0, before.len() as int + 2) == run_together(before)
                + open_pre + open_code
            &&& raw_concat(events, close, n) == close_code + close_pre + run_together(after)
        }),
{
    reveal_strlit("pre");
    reveal_strlit("code");
    let html = block_document(before, open_pre, open_code, code, close_code, close_pre, after);
    let inner = block_pieces(open_pre, open_code, code, close_code, close_pre);
    let pieces = before + inner + after;
    let m = before.len() as int;
    let close = m + (if code.len() == 0 {
        2int
    } else {
        3int
    });
    let n = pieces.len() as int;
    assert(n == close + 2 + after.len());
    assert(pieces[m] == inner[0] && pieces[m + 1] == inner[1]);
    assert(pieces[close] == inner[close - m] && pieces[close + 1] == inner[close + 1 - m]);
    assert(pieces_follow(inner)) by {
        assert forall|k: int| 0 <= k < inner.len() implies {
            let t = #[trigger] inner[k];
            &&& is_start_tag_text(t) || is_end_tag_text(t) || is_plain_text(t)
            &&& is_plain_text(t) && k + 1 < inner.len() ==> inner[k + 1][0] == '<'
        } by {
            if code.len() > 0 && k == 2 {
                assert(inner[3] == close_code);
            }
        }
    }
    lemma_document_pieces_follow(before, inner, after);
    lemma_run_together_concat(before, inner);
    lemma_run_together_concat(before + inner, after);
    lemma_block_pieces_together(open_pre, open_code, code, close_code, close_pre);
    assert(run_together(pieces) =~= html);
    lemma_scan_pieces(Seq::empty(), pieces);
    assert(Seq::<char>::empty() + run_together(pieces) =~= html);
    let events = Seq::new(pieces.len(), |k: int| shaped_event(pieces[k]));
    assert(scanned(html) == events);
    assert forall|k: int| 0 <= k < m implies passes(#[trigger] events[k]) by {
        assert(pieces[k] == before[k]);
    }
    lemma_passing_run(events, 0, m);
    let attributes = xml_start_tag(open_code).unwrap().1;
    assert(events[m] == shaped_event(open_pre));
    assert(events[m + 1] == shaped_event(open_code));
    assert(events[close] == shaped_event(close_code));
    assert(events[close + 1] == shaped_event(close_pre));
    if code.len() > 0 {
        assert(pieces[m + 2] == inner[2]);
        assert(events[m + 2] == EventModel::Text(code));
    }
    lemma_block_run(events, m, attributes, code, close);
    assert forall|k: int| close + 2 <= k < n implies passes(#[trigger] events[k]) by {
        assert(pieces[k] == after[k - (close + 2)]);
    }
    lemma_passing_run(events, close + 2, n);
    assert(blocks_within(events, 0) =~= Seq::<PlacedModel>::empty());
    lemma_shaped_raw(pieces, 0, m + 2);
    assert(pieces.subrange(0, m + 2) =~= before + seq![open_pre, open_code]);
    lemma_run_together_concat(before, seq![open_pre, open_code]);
    lemma_shaped_raw(pieces, close, n);
    assert(pieces.subrange(close, n) =~= seq![close_code, close_pre] + after);
    lemma_run_together_concat(seq![close_code, close_pre], after);
}

/// A document that holds one code block, among pieces that the run passes
/// over, is written with the markup of the block in place of the block's
/// text and with everything else as it was read: what stands before the
/// block, the block's own tags with their attributes, and what stands after
/// it are unchanged and occur once. The only error there can be is that of
/// the block.
pub proof fn lemma_block_document(
    before: Seq<Seq<char>>,
    open_pre: Seq<char>,
    open_code: Seq<char>,
    code: Seq<char>,
    close_code: Seq<char>,
    close_pre: Seq<char>,
    after: Seq<Seq<char>>,
    prefix: Seq<char>,
)
    requires
        passed_pieces(before),
        block_written(open_pre, open_code, code, close_code, close_pre),
        passed_pieces(after),
    ensures
        ({
            let block = BlockModel {
                language: language_of(xml_start_tag(open_code).unwrap().1),
                raw_text: code,
            };
            document_outcome(
                block_document(before, open_pre, open_code, code, close_code, close_pre, after),
                prefix,
            ) == (Outcome::Done {
                html: run_together(before) + open_pre + open_code + block_markup(block, prefix)
                    + close_code + close_pre + run_together(after),
                faults: faults_of(alone(block)),
            })
        }),
{
    let html = block_document(before, open_pre, open_code, code, close_code, close_pre, after);
    let events = scanned(html);
    let n = events.len() as int;
    let block = BlockModel {
        language: language_of(xml_start_tag(open_code).unwrap().1),
        raw_text: code,
    };
    lemma_block_document_read(before, open_pre, open_code, code, close_code, close_pre, after);
    let placed = blocks_within(events, n)[0];
    lemma_one_block_document(html, prefix);
    assert(seq![placed].drop_last() =~= Seq::<PlacedModel>::empty());
    assert(seq![PlacedModel { block, position: 0 }].drop_last() =~= Seq::<PlacedModel>::empty());
    let head = run_together(before) + open_pre + open_code;
    let tail = close_code + close_pre + run_together(after);
    assert(head + block_markup(block, prefix) + tail =~= run_together(before) + open_pre
        + open_code + block_markup(block, prefix) + close_code + close_pre + run_together(after));
}

/// The tags of a code block in Python, as they are written.
pub proof fn lemma_python_tags()
    ensures
        is_start_tag_text("<pre>"@),
        is_start_tag_text("<code class=\"language-python\">"@),
        is_end_tag_text("</code>"@),
        "</code>"@.subrange(2, name_end("</code>"@, 2)) == "code"@,
        is_end_tag_text("</pre>"@),
        "</pre>"@.subrange(2, name_end("</pre>"@, 2)) == "pre"@,
        "<pre>"@ + "<code class=\"language-python\">"@ == "<pre><code class=\"language-python\">"@,
        "</code>"@ + "</pre>"@ == "</code></pre>"@,
        language_of(seq![AttributeModel { name: "class"@, value: "language-python"@ }]) == Some(
            "python"@,
        ),
{
    reveal_strlit("<pre>");
    reveal_strlit("<code class=\"language-python\">");
    reveal_strlit("</code>");
    reveal_strlit("</pre>");
    reveal_strlit("code");
    reveal_strlit("pre");
    reveal_strlit("<pre><code class=\"language-python\">");
    reveal_strlit("</code></pre>");
    reveal_strlit("class");
    reveal_strlit("language-python");
    reveal_strlit("language-");
    reveal_strlit("python");
    assert(is_start_tag_text("<pre>"@)) by {
        reveal_with_fuel(tag_close, 5);
    }
    assert(is_start_tag_text("<code class=\"language-python\">"@)) by {
        reveal_with_fuel(tag_close, 31);
    }
    assert(is_end_tag_text("</code>"@) && "</code>"@.subrange(2, name_end("</code>"@, 2))
        =~= "code"@) by {
        reveal_with_fuel(find_char, 6);
        reveal_with_fuel(name_end, 6);
    }
    assert(is_end_tag_text("</pre>"@) && "</pre>"@.subrange(2, name_end("</pre>"@, 2))
        =~= "pre"@) by {
        reveal_with_fuel(find_char, 5);
        reveal_with_fuel(name_end, 5);
    }
    assert("<pre>"@ + "<code class=\"language-python\">"@
        =~= "<pre><code class=\"language-python\">"@);
    assert("</code>"@ + "</pre>"@ =~= "</code></pre>"@);
    assert(language_of(seq![AttributeModel { name: "class"@, value: "language-python"@ }])
        == Some("python"@)) by {
        reveal_with_fuel(find_char, 17);
        let value = "language-python"@;
        assert(find_char(value, ' ', 0) == 15);
        assert(first_word(value) =~= value);
        assert(value.subrange(0, 9) =~= "language-"@);
        assert(value.skip(9) =~= "python"@);
    }
}

/// A document that is one code block in Python, `<pre><code
/// class="language-python">`, the code and `</code></pre>`, where the code
/// holds no `<` and is escaped text and the markup reader reads the two start
/// tags as they are written: the document is written with the block's markup
/// between its tags, which are unchanged. Without its `span` tags that markup
/// is the escaped form of the text that the code stands for, no character
/// dropped, added, moved or escaped twice; for code that holds none of the
/// characters that are escaped, it is the code itself.
pub proof fn lemma_python_document(code: Seq<char>, prefix: Seq<char>)
    requires
        read_as("<pre>"@, "pre"@),
        xml_start_tag("<code class=\"language-python\">"@) == Some(
            ("code"@, seq![AttributeModel { name: "class"@, value: "language-python"@ }]),
        ),
        forall|k: int| 0 <= k < code.len() ==> code[k] != '<',
        unescaped(code) is Some,
    ensures
        ({
            let markup = rendered_block(
                highlighted(unescaped(code).unwrap(), Some("python"@)).0,
                prefix,
            );
            &&& document_outcome(
                "<pre><code class=\"language-python\">"@ + code + "</code></pre>"@,
                prefix,
            ) matches Outcome::Done { html, .. } && html
                == "<pre><code class=\"language-python\">"@ + markup + "</code></pre>"@
            &&& stripped(markup) == escaped(unescaped(code).unwrap())
            &&& holds_no_markup(code) ==> stripped(markup) == code
        }),
{
    lemma_python_tags();
    let open_pre = "<pre>"@;
    let open_code = "<code class=\"language-python\">"@;
    let close_code = "</code>"@;
    let close_pre = "</pre>"@;
    let none = Seq::<Seq<char>>::empty();
    let block = BlockModel { language: Some("python"@), raw_text: code };
    assert(passed_pieces(none));
    assert(block_written(open_pre, open_code, code, close_code, close_pre));
    lemma_block_document(none, open_pre, open_code, code, close_code, close_pre, none, prefix);
    lemma_block_markup_carries_text(block, prefix);
    let markup = block_markup(block, prefix);
    assert(block_document(none, open_pre, open_code, code, close_code, close_pre, none)
        =~= "<pre><code class=\"language-python\">"@ + code + "</code></pre>"@);
    assert(run_together(none) + open_pre + open_code + markup + close_code + close_pre
        + run_together(none) =~= "<pre><code class=\"language-python\">"@ + markup
        + "</code></pre>"@);
}

/// Two documents that differ in the start tag `code` of their one code block
/// alone, the one naming a language that the tokenizer has no syntax for and
/// the other naming none: both are written, neither fails, and the block's
/// markup is the same in both. For a block whose text is escaped text it is
/// the escaped form of the text that the block stands for, each character
/// that is escaped written as one reference, and there is no error.
pub proof fn lemma_unsupported_document(
    before: Seq<Seq<char>>,
    open_pre: Seq<char>,
    with_language: Seq<char>,
    without_language: Seq<char>,
    code: Seq<char>,
    close_code: Seq<char>,
    close_pre: Seq<char>,
    after: Seq<Seq<char>>,
    prefix: Seq<char>,
)
    requires
        passed_pieces(before),
        block_written(open_pre, with_language, code, close_code, close_pre),
        block_written(open_pre, without_language, code, close_code, close_pre),
        passed_pieces(after),
        language_of(xml_start_tag(with_language).unwrap().1) matches Some(l)
            && !syntect_has_syntax(l),
        language_of(xml_start_tag(without_language).unwrap().1) is None,
    ensures
        ({
            let markup = block_markup(BlockModel { language: None, raw_text: code }, prefix);
            let faults = faults_of(alone(BlockModel { language: None, raw_text: code }));
            &&& document_outcome(
                block_document(before, open_pre, with_language, code, close_code, close_pre, after),
                prefix,
            ) == (Outcome::Done {
                html: run_together(before) + open_pre + with_language + markup + close_code
                    + close_pre + run_together(after),
                faults,
            })
            &&& document_outcome(
                block_document(
                    before,
                    open_pre,
                    without_language,
                    code,
                    close_code,
                    close_pre,
                    after,
                ),
                prefix,
            ) == (Outcome::Done {
                html: run_together(before) + open_pre + without_language + markup + close_code
                    + close_pre + run_together(after),
                faults,
            })
            &&& unescaped(code) is Some ==> markup == escaped(unescaped(code).unwrap()) && faults
                == Seq::<HighlightError>::empty()
        }),
{
    let language = language_of(xml_start_tag(with_language).unwrap().1).unwrap();
    lemma_block_document(
        before,
        open_pre,
        with_language,
        code,
        close_code,
        close_pre,
        after,
        prefix,
    );
    lemma_block_document(
        before,
        open_pre,
        without_language,
        code,
        close_code,
        close_pre,
        after,
        prefix,
    );
    lemma_unsupported_block(code, language, prefix);
    lemma_plain_block_faults(code);
}

/// A block without a language has no error where its text is escaped text.
pub proof fn lemma_plain_block_faults(raw_text: Seq<char>)
    ensures
        unescaped(raw_text) is Some ==> faults_of(
            alone(BlockModel { language: None, raw_text }),
        ) == Seq::<HighlightError>::empty(),
{
    let single = alone(BlockModel { language: None, raw_text });
    assert(single.drop_last() =~= Seq::<PlacedModel>::empty());
    assert(faults_of(single.drop_last()) =~= Seq::<HighlightError>::empty());
}

/// A second run over a document changes nothing but the wrapping. Where the
/// text of the one code block of a document is put back as the text that the
/// markup of a first run carries, without its tags, the document is written
/// again, and the markup of the second run carries that same text: no
/// reference is escaped again and none is left replaced.
pub proof fn lemma_second_run_document(
    before: Seq<Seq<char>>,
    open_pre: Seq<char>,
    open_code: Seq<char>,
    code: Seq<char>,
    close_code: Seq<char>,
    close_pre: Seq<char>,
    after: Seq<Seq<char>>,
    prefix: Seq<char>,
)
    requires
        passed_pieces(before),
        block_written(open_pre, open_code, code, close_code, close_pre),
        passed_pieces(after),
        unescaped(code) is Some,
    ensures
        ({
            let language = language_of(xml_start_tag(open_code).unwrap().1);
            let first = block_markup(BlockModel { language, raw_text: code }, prefix);
            let carried = stripped(first);
            let second = block_markup(BlockModel { language, raw_text: carried }, prefix);
            &&& document_outcome(
                block_document(before, open_pre, open_code, carried, close_code, close_pre, after),
                prefix,
            ) matches Outcome::Done { html, .. } && html == run_together(before) + open_pre
                + open_code + second + close_code + close_pre + run_together(after)
            &&& stripped(second) == carried
            &&& unescaped(carried) == unescaped(code)
        }),
{
    let language = language_of(xml_start_tag(open_code).unwrap().1);
    let block = BlockModel { language, raw_text: code };
    let carried = stripped(block_markup(block, prefix));
    lemma_second_run(block, prefix);
    lemma_block_markup_carries_text(block, prefix);
    lemma_escaped_tag_free(unescaped(code).unwrap());
    assert(carried.len() == 0 || is_plain_text(carried));
    lemma_block_document(
        before,
        open_pre,
        open_code,
        carried,
        close_code,
        close_pre,
        after,
        prefix,
    );
}

} // verus!
