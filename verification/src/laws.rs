//! What holds of the library as a whole.

use vstd::prelude::*;
use crate::event::{EventModel, lemma_raw_concat_same, lemma_raw_concat_split, raw_concat};
use crate::highlight::{
    CategoryModel, TokenModel, block_text, classifier, highlighted, joined, lemma_assembled_text,
    lemma_joined_one, lemma_lines_join, lemma_styled_text, line_text, lines_of, plain_block,
    styled_line, tokenized, well_tokenized,
};
use crate::machine::{
    PlacedModel, StateKind, StateModel, advance, blocks_within, failure, language_of,
    lemma_failed_stays, state_after, taken,
};
use crate::pipeline::{Outcome, document_outcome, outcomes, written};
use crate::render::{
    Replacement, rendered_block, rendered_line, rendered_token, spliced_texts, text_run_start,
};
use crate::scanner::{has_error, lemma_scan_covers, scanned};
use crate::text::{
    escape_char, escaped, lemma_escaped_concat, lemma_unescape_escape, lemma_unescaped_markup_free,
    markup_free, unescaped,
};
use crate::tokenizer::{syntect_has_syntax, syntect_line};

verus! {

/// While the state machine has not failed, no event of the run so far was an
/// `Error`, and the machine had not failed before.
pub proof fn lemma_running_saw_no_error(events: Seq<EventModel>, n: int)
    requires
        0 <= n <= events.len(),
        !(state_after(events, n) is Failed),
    ensures
        forall|k: int| 0 <= k < n ==> !(#[trigger] events[k] is Error),
        forall|k: int| 0 <= k <= n ==> !(#[trigger] state_after(events, k) is Failed),
    decreases n,
{
    if n > 0 {
        lemma_running_saw_no_error(events, n - 1);
    }
}

/// An end tag named `code` right after the start tag `pre` fails the machine,
/// whatever came before, and the machine has then taken the events before
/// that tag and no more.
pub proof fn lemma_code_close_after_pre(events: Seq<EventModel>, n: int)
    requires
        0 <= n < events.len(),
        state_after(events, n) is SeenPreOpen,
        events[n].ends("code"@),
    ensures
        state_after(events, events.len() as int) == failure(StateKind::SeenPreOpen, events[n]),
        taken(events, events.len() as int) == n,
{
    lemma_failed_stays(events, n + 1, events.len() as int);
    assert(taken(events, n + 1) == taken(events, n));
}

/// The run takes no more events than it is given.
pub proof fn lemma_taken_bounds(events: Seq<EventModel>, n: int)
    requires
        0 <= n,
    ensures
        0 <= taken(events, n) <= n,
    decreases n,
{
    if n > 0 {
        lemma_taken_bounds(events, n - 1);
    }
}

/// Where no code block was completed, nothing is replaced and nothing is
/// dropped: what is written is the events that the run took, as they were
/// read.
pub proof fn lemma_nothing_dropped(events: Seq<EventModel>, prefix: Seq<char>)
    requires
        blocks_within(events, events.len() as int).len() == 0,
    ensures
        written(events, prefix) == raw_concat(
            events,
            0,
            taken(events, events.len() as int),
        ),
{
    let n = taken(events, events.len() as int);
    lemma_taken_bounds(events, events.len() as int);
    lemma_raw_concat_same(events.take(n), events, 0, n, 0);
}

/// A document that is read to its end without a failure, and in which no code
/// block is found, is written as it was read, character for character.
pub proof fn lemma_no_block_unchanged(html: Seq<char>, prefix: Seq<char>)
    requires
        !(state_after(scanned(html), scanned(html).len() as int) is Failed),
        blocks_within(scanned(html), scanned(html).len() as int).len() == 0,
    ensures
        document_outcome(html, prefix) == (Outcome::Done { html, faults: Seq::empty() }),
{
    let events = scanned(html);
    let n = events.len() as int;
    lemma_running_saw_no_error(events, n);
    lemma_scan_covers(html, 0);
    lemma_nothing_dropped(events, prefix);
    assert(html.subrange(0, html.len() as int) =~= html);
}

/// The documents of `documents` that `order` picks, in the order of `order`.
pub open spec fn picked(documents: Seq<Seq<char>>, order: Seq<int>) -> Seq<Seq<char>> {
    Seq::new(order.len(), |j: int| documents[order[j]])
}

/// The outcome of a document does not depend on the documents around it, nor
/// on the order in which they are taken: where `order` picks documents out of
/// `documents`, each has the outcome that it has in `documents`.
pub proof fn lemma_order_independent(
    documents: Seq<Seq<char>>,
    order: Seq<int>,
    prefix: Seq<char>,
)
    requires
        forall|k: int| 0 <= k < order.len() ==> 0 <= #[trigger] order[k] < documents.len(),
    ensures
        outcomes(picked(documents, order), prefix).len() == order.len(),
        forall|k: int|
            0 <= k < order.len() ==> outcomes(picked(documents, order), prefix)[k]
                == outcomes(documents, prefix)[#[trigger] order[k]],
{
}

/// Escaping the lines of a text one by one escapes the text.
pub proof fn lemma_escaped_joined(lines: Seq<Seq<char>>)
    ensures
        joined(Seq::new(lines.len(), |k: int| escaped(lines[k]))) == escaped(joined(lines)),
    decreases lines.len(),
{
    let each = Seq::new(lines.len(), |k: int| escaped(lines[k]));
    if lines.len() > 0 {
        let front = lines.drop_last();
        lemma_escaped_joined(front);
        assert(each.drop_last() =~= Seq::new(front.len(), |k: int| escaped(front[k])));
        lemma_escaped_concat(joined(front), lines.last());
    }
}

/// A block in a language that the tokenizer knows no syntax for is the block
/// without a language: every line is one token, every token has the one
/// category `Neutral`, and the block is written as its escaped text.
pub proof fn lemma_unsupported_is_plain(
    text: Seq<char>,
    language: Seq<char>,
    prefix: Seq<char>,
)
    requires
        !syntect_has_syntax(language),
    ensures
        highlighted(text, Some(language)) == highlighted(text, None),
        highlighted(text, Some(language)).1 is None,
        forall|i: int, j: int|
            0 <= i < highlighted(text, Some(language)).0.len() && 0 <= j < highlighted(
                text,
                Some(language),
            ).0[i].len() ==> (#[trigger] highlighted(text, Some(language)).0[i][j]).category
                == CategoryModel::Neutral,
        rendered_block(highlighted(text, Some(language)).0, prefix) == escaped(text),
{
    let lines = lines_of(text);
    let block = plain_block(lines);
    assert forall|k: int| 0 <= k < lines.len() implies rendered_line(#[trigger] block[k], prefix)
        == escaped(lines[k]) by {
        let parts = Seq::new(block[k].len(), |j: int| rendered_token(block[k][j], prefix));
        lemma_joined_one(escaped(lines[k]));
        assert(parts =~= seq![escaped(lines[k])]);
    }
    assert(Seq::new(block.len(), |k: int| rendered_line(block[k], prefix)) =~= Seq::new(
        lines.len(),
        |k: int| escaped(lines[k]),
    ));
    lemma_escaped_joined(lines);
    lemma_lines_join(text, 0);
    assert(text.skip(0) =~= text);
}

/// Each line is tokenized on its own: in a block that the tokenizer's results
/// make up, the tokens of a line are those that the tokenizer gives for that
/// line alone, whatever the other lines are.
pub proof fn lemma_lines_on_their_own(
    text: Seq<char>,
    language: Seq<char>,
    k: int,
)
    requires
        syntect_has_syntax(language),
        well_tokenized(lines_of(text), tokenized(language, lines_of(text))),
        0 <= k < lines_of(text).len(),
    ensures
        highlighted(text, Some(language)).0[k] == styled_line(
            syntect_line(classifier(), language, lines_of(text)[k]).unwrap(),
        ),
{
}

/// A highlighted block has the lines of its text, and the tokens of each
/// line, one after the other, are that line: nothing is dropped, added or
/// moved, whatever the language and whatever the tokenizer gave.
pub proof fn lemma_lines_keep_their_text(
    text: Seq<char>,
    language: Option<Seq<char>>,
)
    ensures
        highlighted(text, language).0.len() == lines_of(text).len(),
        forall|k: int|
            0 <= k < lines_of(text).len() ==> line_text(
                #[trigger] highlighted(text, language).0[k],
            ) == lines_of(text)[k],
{
    let lines = lines_of(text);
    let block = highlighted(text, language).0;
    assert forall|k: int| 0 <= k < lines.len() implies line_text(#[trigger] block[k])
        == lines[k] by {
        if block == plain_block(lines) {
            lemma_joined_one(lines[k]);
            assert(Seq::new(block[k].len(), |j: int| block[k][j].text) =~= seq![lines[k]]);
        } else {
            let results = tokenized(language.unwrap(), lines);
            lemma_styled_text(results[k].unwrap());
        }
    }
}

/// The text of a highlighted block is the text that was highlighted,
/// whatever its language and whatever the tokenizer made of it.
pub proof fn lemma_highlighted_text(text: Seq<char>, language: Option<Seq<char>>)
    ensures
        block_text(highlighted(text, language).0) == text,
{
    lemma_lines_join(text, 0);
    assert(text.skip(0) =~= text);
    lemma_assembled_text(lines_of(text), None);
    if language is Some {
        lemma_assembled_text(lines_of(text), Some(tokenized(language.unwrap(), lines_of(text))));
    }
}

/// For a code block whose text holds neither `<` nor `&`, the tokens of the
/// highlighted block, one after the other, are that text.
pub proof fn lemma_tokens_make_code(
    code: Seq<char>,
    language: Option<Seq<char>>,
)
    requires
        markup_free(code),
    ensures
        unescaped(code) == Some(code),
        block_text(highlighted(unescaped(code).unwrap(), language).0) == code,
{
    lemma_unescaped_markup_free(code, 0);
    assert(code.skip(0) =~= code);
    lemma_highlighted_text(code, language);
}

/// In a code block the state machine holds the text of the text events since
/// the code start tag, and the language that this tag names.
pub proof fn lemma_open_block(events: Seq<EventModel>, n: int)
    requires
        0 <= n <= events.len(),
        state_after(events, n) is InCodeBlock,
    ensures
        0 < text_run_start(events, n) <= n,
        events[text_run_start(events, n) - 1] matches EventModel::StartTag { name, attributes, .. }
            && name == "code"@ && state_after(events, n) == (StateModel::InCodeBlock {
            text: raw_concat(events, text_run_start(events, n), n),
            language: language_of(attributes),
        }),
    decreases n,
{
    if n > 0 && state_after(events, n - 1) is InCodeBlock {
        lemma_open_block(events, n - 1);
    }
}

/// Every code block that the state machine completes stands at the index of
/// an end tag named `code`, after the blocks before it; its text is that of
/// the run of text events just before that tag, and its language is the one
/// that the start tag before that run names.
pub proof fn lemma_blocks_are_runs(events: Seq<EventModel>, n: int)
    requires
        0 <= n <= events.len(),
    ensures
        forall|k: int|
            0 <= k < blocks_within(events, n).len() ==> {
                let placed = #[trigger] blocks_within(events, n)[k];
                let run = text_run_start(events, placed.position);
                &&& 0 < run <= placed.position < n
                &&& events[placed.position].ends("code"@)
                &&& placed.block.raw_text == raw_concat(events, run, placed.position)
                &&& events[run - 1] matches EventModel::StartTag { name, attributes, .. } && name
                    == "code"@ && placed.block.language == language_of(attributes)
                &&& k > 0 ==> blocks_within(events, n)[k - 1].position < run - 1
            },
    decreases n,
{
    if n > 0 {
        lemma_blocks_are_runs(events, n - 1);
        let before = state_after(events, n - 1);
        let blocks = blocks_within(events, n);
        if advance(before, events[n - 1]).1 is Some {
            lemma_open_block(events, n - 1);
            let last = blocks.len() - 1;
            assert forall|k: int| 0 <= k < blocks.len() implies {
                let placed = #[trigger] blocks[k];
                let run = text_run_start(events, placed.position);
                &&& 0 < run <= placed.position < n
                &&& events[placed.position].ends("code"@)
                &&& placed.block.raw_text == raw_concat(events, run, placed.position)
                &&& events[run - 1] matches EventModel::StartTag { name, attributes, .. } && name
                    == "code"@ && placed.block.language == language_of(attributes)
                &&& k > 0 ==> blocks[k - 1].position < run - 1
            } by {
                if k == last && k > 0 {
                    let earlier = blocks_within(events, n - 1)[k - 1];
                    lemma_run_after_end_tag(events, earlier.position, n - 1);
                }
            }
        }
    }
}

/// A run of text events that ends at index `n` starts after every event
/// before `n` that is no text event.
pub proof fn lemma_run_after_end_tag(events: Seq<EventModel>, k: int, n: int)
    requires
        0 <= k < n <= events.len(),
        !(events[k] is Text),
    ensures
        k < text_run_start(events, n),
    decreases n,
{
    if n - 1 > k && events[n - 1] is Text {
        lemma_run_after_end_tag(events, k, n - 1);
    }
}

/// The text that markup carries: `s` from index `i` on without its tags, a tag
/// being what stands from a `<` to the next `>`. `inside` tells whether the
/// character at index `i` is inside a tag.
pub open spec fn stripped_from(s: Seq<char>, i: int, inside: bool) -> Seq<char>
    decreases s.len() - i,
{
    if i < 0 || i >= s.len() {
        Seq::empty()
    } else if inside {
        stripped_from(s, i + 1, s[i] != '>')
    } else if s[i] == '<' {
        stripped_from(s, i + 1, true)
    } else {
        seq![s[i]] + stripped_from(s, i + 1, false)
    }
}

/// The text that the markup `s` carries.
pub open spec fn stripped(s: Seq<char>) -> Seq<char> {
    stripped_from(s, 0, false)
}

/// Whether `s` is one tag: it starts with `<` and ends with its first `>`.
pub open spec fn is_tag(s: Seq<char>) -> bool {
    &&& s.len() >= 2
    &&& s[0] == '<'
    &&& s.last() == '>'
    &&& forall|k: int| 0 < k < s.len() - 1 ==> s[k] != '>'
}

/// Whether `s` holds neither `<` nor `>`.
pub open spec fn tag_free(s: Seq<char>) -> bool {
    forall|k: int| 0 <= k < s.len() ==> s[k] != '<' && s[k] != '>'
}

/// What is carried from some index on does not depend on what stands before.
pub proof fn lemma_stripped_suffix(a: Seq<char>, b: Seq<char>, i: int, inside: bool)
    requires
        0 <= i <= b.len(),
    ensures
        stripped_from(a + b, a.len() + i, inside) == stripped_from(b, i, inside),
    decreases b.len() - i,
{
    if i < b.len() {
        lemma_stripped_suffix(a, b, i + 1, true);
        lemma_stripped_suffix(a, b, i + 1, false);
    }
}

/// Text without tags is carried as it is.
pub proof fn lemma_stripped_text(a: Seq<char>, b: Seq<char>, i: int)
    requires
        tag_free(a),
        0 <= i <= a.len(),
    ensures
        stripped_from(a + b, i, false) == a.skip(i) + stripped(b),
    decreases a.len() - i,
{
    if i < a.len() {
        lemma_stripped_text(a, b, i + 1);
    } else {
        lemma_stripped_suffix(a, b, 0, false);
    }
}

/// Inside a tag nothing is carried.
pub proof fn lemma_stripped_inside(a: Seq<char>, b: Seq<char>, i: int)
    requires
        is_tag(a),
        0 < i <= a.len() - 1,
    ensures
        stripped_from(a + b, i, true) == stripped(b),
    decreases a.len() - i,
{
    if i < a.len() - 1 {
        lemma_stripped_inside(a, b, i + 1);
    } else {
        lemma_stripped_suffix(a, b, 0, false);
    }
}

/// A tag carries nothing.
pub proof fn lemma_stripped_tag(a: Seq<char>, b: Seq<char>)
    requires
        is_tag(a),
    ensures
        stripped(a + b) == stripped(b),
{
    lemma_stripped_inside(a, b, 1);
}

/// Escaped text holds neither `<` nor `>`.
pub proof fn lemma_escaped_tag_free(t: Seq<char>)
    ensures
        tag_free(escaped(t)),
    decreases t.len(),
{
    if t.len() > 0 {
        reveal_strlit("&lt;");
        reveal_strlit("&gt;");
        reveal_strlit("&amp;");
        reveal_strlit("&quot;");
        reveal_strlit("&#39;");
        lemma_escaped_tag_free(t.skip(1));
        assert(tag_free(escape_char(t[0])));
    }
}

/// The markup of a token carries the token's escaped text.
pub proof fn lemma_stripped_token(token: TokenModel, prefix: Seq<char>, rest: Seq<char>)
    ensures
        stripped(rendered_token(token, prefix) + rest) == escaped(token.text) + stripped(rest),
{
    let text = escaped(token.text);
    lemma_escaped_tag_free(token.text);
    match token.category {
        CategoryModel::Neutral => {
            lemma_stripped_text(text, rest, 0);
        },
        CategoryModel::Named(name) => {
            reveal_strlit("<span class=\"");
            reveal_strlit("\">");
            reveal_strlit("</span>");
            let class = escaped(prefix + name);
            lemma_escaped_tag_free(prefix + name);
            let open = "<span class=\""@ + class + "\">"@;
            let close = "</span>"@;
            assert(is_tag(open));
            assert(rendered_token(token, prefix) + rest =~= open + (text + (close + rest)));
            lemma_stripped_tag(open, text + (close + rest));
            lemma_stripped_text(text, close + rest, 0);
            lemma_stripped_tag(close, rest);
        },
    }
}

/// The markup of a line carries the line's escaped text.
pub proof fn lemma_stripped_line(tokens: Seq<TokenModel>, prefix: Seq<char>, rest: Seq<char>)
    ensures
        stripped(rendered_line(tokens, prefix) + rest) == escaped(line_text(tokens)) + stripped(
            rest,
        ),
    decreases tokens.len(),
{
    let parts = Seq::new(tokens.len(), |k: int| rendered_token(tokens[k], prefix));
    let texts = Seq::new(tokens.len(), |k: int| tokens[k].text);
    if tokens.len() > 0 {
        let front = tokens.drop_last();
        let last = tokens.last();
        assert(parts.drop_last() =~= Seq::new(
            front.len(),
            |k: int| rendered_token(front[k], prefix),
        ));
        assert(texts.drop_last() =~= Seq::new(front.len(), |k: int| front[k].text));
        let tail = rendered_token(last, prefix) + rest;
        assert(rendered_line(tokens, prefix) + rest =~= rendered_line(front, prefix) + tail);
        lemma_stripped_line(front, prefix, tail);
        lemma_stripped_token(last, prefix, rest);
        lemma_escaped_concat(line_text(front), last.text);
    }
}

/// The markup of a block carries the block's escaped text.
pub proof fn lemma_stripped_block(lines: Seq<Seq<TokenModel>>, prefix: Seq<char>, rest: Seq<char>)
    ensures
        stripped(rendered_block(lines, prefix) + rest) == escaped(block_text(lines)) + stripped(
            rest,
        ),
    decreases lines.len(),
{
    let parts = Seq::new(lines.len(), |k: int| rendered_line(lines[k], prefix));
    let texts = Seq::new(lines.len(), |k: int| line_text(lines[k]));
    if lines.len() > 0 {
        let front = lines.drop_last();
        let last = lines.last();
        assert(parts.drop_last() =~= Seq::new(
            front.len(),
            |k: int| rendered_line(front[k], prefix),
        ));
        assert(texts.drop_last() =~= Seq::new(front.len(), |k: int| line_text(front[k])));
        let tail = rendered_line(last, prefix) + rest;
        assert(rendered_block(lines, prefix) + rest =~= rendered_block(front, prefix) + tail);
        lemma_stripped_block(front, prefix, tail);
        lemma_stripped_line(last, prefix, rest);
        lemma_escaped_concat(block_text(front), line_text(last));
    }
}

/// Highlighting changes the wrapping and nothing else: without its tags, the
/// markup of a block is the block's escaped text, which stands for the
/// block's text. So the text that a second run over the markup would read,
/// tokenize and escape is the text of the first run.
pub proof fn lemma_markup_keeps_text(lines: Seq<Seq<TokenModel>>, prefix: Seq<char>)
    ensures
        stripped(rendered_block(lines, prefix)) == escaped(block_text(lines)),
        unescaped(stripped(rendered_block(lines, prefix))) == Some(block_text(lines)),
{
    lemma_stripped_block(lines, prefix, Seq::empty());
    lemma_unescape_escape(block_text(lines));
}

/// The text of each of `blocks` as the document has it, with its position.
pub open spec fn texts_of(blocks: Seq<PlacedModel>) -> Seq<Replacement> {
    Seq::new(
        blocks.len(),
        |k: int| Replacement { text: blocks[k].block.raw_text, position: blocks[k].position },
    )
}

/// Whether each of `texts` is the text of the run of text events before its
/// position, and these runs follow one another from the event at index `from`
/// on.
pub open spec fn runs_in_order(
    events: Seq<EventModel>,
    from: int,
    texts: Seq<Replacement>,
) -> bool {
    forall|k: int|
        0 <= k < texts.len() ==> {
            let run = text_run_start(events, (#[trigger] texts[k]).position);
            &&& from <= run <= texts[k].position < events.len()
            &&& texts[k].text == raw_concat(events, run, texts[k].position)
            &&& k > 0 ==> texts[k - 1].position <= run
        }
}

/// Putting the text of each run in place of that run changes nothing.
pub proof fn lemma_splice_runs(events: Seq<EventModel>, from: int, texts: Seq<Replacement>)
    requires
        0 <= from <= events.len(),
        runs_in_order(events, from, texts),
    ensures
        spliced_texts(events, from, texts) == raw_concat(events, from, events.len() as int),
    decreases texts.len(),
{
    if texts.len() > 0 {
        let first = texts[0];
        let run = text_run_start(events, first.position);
        let rest = texts.skip(1);
        assert forall|k: int| 0 <= k < rest.len() implies {
            let r = text_run_start(events, (#[trigger] rest[k]).position);
            &&& first.position <= r <= rest[k].position < events.len()
            &&& rest[k].text == raw_concat(events, r, rest[k].position)
            &&& k > 0 ==> rest[k - 1].position <= r
        } by {
            lemma_positions_ascend(events, from, texts, 0, k + 1);
        }
        lemma_splice_runs(events, first.position, rest);
        lemma_raw_concat_split(events, from, run, first.position);
        lemma_raw_concat_split(events, from, first.position, events.len() as int);
    }
}

/// Runs in order stand at ascending positions.
pub proof fn lemma_positions_ascend(
    events: Seq<EventModel>,
    from: int,
    texts: Seq<Replacement>,
    i: int,
    j: int,
)
    requires
        runs_in_order(events, from, texts),
        0 <= i < j < texts.len(),
    ensures
        texts[i].position <= text_run_start(events, texts[j].position),
    decreases j - i,
{
    if i + 1 < j {
        lemma_positions_ascend(events, from, texts, i, j - 1);
    }
}

/// The highlighted markup stands in place of the text of the code blocks and
/// of nothing else: with the text of each block, as the document has it, put
/// in the block's place, the events are written as they were read.
pub proof fn lemma_splice_identity(events: Seq<EventModel>)
    ensures
        spliced_texts(events, 0, texts_of(blocks_within(events, events.len() as int)))
            == raw_concat(events, 0, events.len() as int),
{
    let blocks = blocks_within(events, events.len() as int);
    let texts = texts_of(blocks);
    lemma_blocks_are_runs(events, events.len() as int);
    assert(runs_in_order(events, 0, texts));
    lemma_splice_runs(events, 0, texts);
}

/// A document that is read to its end is made of its events, and the code
/// blocks found in it are stretches of it: with the text of each block put in
/// the block's place, the document is written as it was read.
pub proof fn lemma_document_identity(html: Seq<char>)
    requires
        !has_error(scanned(html)),
    ensures
        spliced_texts(
            scanned(html),
            0,
            texts_of(blocks_within(scanned(html), scanned(html).len() as int)),
        ) == html,
{
    lemma_splice_identity(scanned(html));
    lemma_scan_covers(html, 0);
}

} // verus!
