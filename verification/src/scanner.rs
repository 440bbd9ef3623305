//! The scanner: from the text of a document to its events.
//!
//! The scanner cuts the document into pieces that follow one another without
//! a gap: tags, and text between them. What is neither a tag nor plain text
//! (a comment, a declaration, a `<` that opens nothing) is kept as text, so
//! that the pieces of a document that was read to its end make up the
//! document again.
//!
//! The name and the attributes of a start tag are read by the XML reader,
//! which is given the tag alone: given a whole document it would hand back
//! what it read and not what was written, and would stop at the first piece
//! of HTML that is no XML. A start tag that the reader refuses is kept as
//! text.
//!
//! `scan` reads a whole document; `next_event` reads one piece at a time.

use vstd::prelude::*;
use crate::event::{
    Attribute, AttributeModel, EventModel, HtmlEvent, lemma_raw_concat_same,
    lemma_raw_concat_split, raw_concat,
};
use crate::markup::{read_start_tag, xml_start_tag};
use crate::text::{
    QUOTED, chars_of, excerpt_of, find_char, holds_at, index_of_char, lemma_find_char_bounds,
    starts_at, string_of,
};

verus! {

/// Whether a tag's name may start with `c`.
pub open spec fn is_letter(c: char) -> bool {
    'a' <= c <= 'z' || 'A' <= c <= 'Z'
}

/// Whether `c` ends the name of a tag.
pub open spec fn ends_name(c: char) -> bool {
    c == ' ' || c == '\n' || c == '\t' || c == '\r' || c == '>' || c == '/'
}

/// The first index from `i` on at which `s` holds the text `p`; the length of
/// `s` where there is none.
pub open spec fn find_text(s: Seq<char>, p: Seq<char>, i: int) -> int
    decreases s.len() - i,
{
    if i < 0 || i >= s.len() {
        s.len() as int
    } else if holds_at(s, i, p) {
        i
    } else {
        find_text(s, p, i + 1)
    }
}

/// The first index from `i` on at which the name of a tag ends; the length of
/// `s` where it does not end.
pub open spec fn name_end(s: Seq<char>, i: int) -> int
    decreases s.len() - i,
{
    if i < 0 || i >= s.len() {
        s.len() as int
    } else if ends_name(s[i]) {
        i
    } else {
        name_end(s, i + 1)
    }
}

/// The index of the `>` that closes a start tag, looked for from `i` on; the
/// length of `s` where there is none. A `>` between quotes belongs to an
/// attribute's value and closes nothing: `quote` is the quote that is open at
/// `i`, if one is.
pub open spec fn tag_close(s: Seq<char>, i: int, quote: Option<char>) -> int
    decreases s.len() - i,
{
    if i < 0 || i >= s.len() {
        s.len() as int
    } else if quote is Some {
        tag_close(s, i + 1, if s[i] == quote.unwrap() { None } else { quote })
    } else if s[i] == '>' {
        i
    } else if s[i] == '"' || s[i] == '\'' {
        tag_close(s, i + 1, Some(s[i]))
    } else {
        tag_close(s, i + 1, None)
    }
}

/// What a piece of a document is.
#[derive(Clone, Copy, Debug, PartialEq, Eq)]
pub enum PieceKind {
    /// Text, or markup that is kept as text.
    Text,
    /// A start tag.
    StartTag,
    /// An end tag.
    EndTag,
    /// Markup that is opened and never closed.
    Broken,
}

/// A piece of a document: what it is and the index at which it ends.
pub ghost struct Piece {
    pub kind: PieceKind,
    pub end: int,
}

/// The piece that ends with the character at index `close`; broken where
/// `close` is no index of `s`.
pub open spec fn closed_piece(s: Seq<char>, kind: PieceKind, close: int, width: int) -> Piece {
    if close < s.len() {
        Piece { kind, end: close + width }
    } else {
        Piece { kind: PieceKind::Broken, end: s.len() as int }
    }
}

/// The piece of `s` that starts at index `i`.
pub open spec fn piece_at(s: Seq<char>, i: int) -> Piece {
    if s[i] != '<' {
        Piece { kind: PieceKind::Text, end: find_char(s, '<', i + 1) }
    } else if holds_at(s, i, "<!--"@) {
        closed_piece(s, PieceKind::Text, find_text(s, "-->"@, i + 4), 3)
    } else if i + 1 < s.len() && (s[i + 1] == '!' || s[i + 1] == '?') {
        closed_piece(s, PieceKind::Text, find_char(s, '>', i + 2), 1)
    } else if i + 2 < s.len() && s[i + 1] == '/' && is_letter(s[i + 2]) {
        closed_piece(s, PieceKind::EndTag, find_char(s, '>', i + 2), 1)
    } else if i + 1 < s.len() && is_letter(s[i + 1]) {
        closed_piece(s, PieceKind::StartTag, tag_close(s, i + 1, None), 1)
    } else {
        Piece { kind: PieceKind::Text, end: find_char(s, '<', i + 1) }
    }
}

/// The event for a start tag written as `raw`, given what the markup reader
/// made of it: a start tag where it could read one, and text where it could
/// not.
pub open spec fn start_tag_model(
    raw: Seq<char>,
    parsed: Option<(Seq<char>, Seq<AttributeModel>)>,
) -> EventModel {
    match parsed {
        Some((name, attributes)) => EventModel::StartTag { name, attributes, raw },
        None => EventModel::Text(raw),
    }
}

/// The reason given for markup that is opened at index `i` and never closed.
pub open spec fn broken_reason(s: Seq<char>, i: int) -> Seq<char> {
    "unterminated markup: "@ + excerpt_of(s.skip(i))
}

/// The event for `piece`, which starts at index `i` of `s`. The name of an end
/// tag is what stands after its `</`, up to the first space, `/` or `>`.
pub open spec fn piece_event(s: Seq<char>, i: int, piece: Piece) -> EventModel {
    let raw = s.subrange(i, piece.end);
    match piece.kind {
        PieceKind::Text => EventModel::Text(raw),
        PieceKind::EndTag => EventModel::EndTag {
            name: s.subrange(i + 2, name_end(s, i + 2)),
            raw,
        },
        PieceKind::StartTag => start_tag_model(raw, xml_start_tag(raw)),
        PieceKind::Broken => EventModel::Error(broken_reason(s, i)),
    }
}

/// The event for the piece of `s` that starts at index `i`.
pub open spec fn event_at(s: Seq<char>, i: int) -> EventModel {
    piece_event(s, i, piece_at(s, i))
}

/// The events of `s` from index `i` on: one for each piece, and after a broken
/// piece no more.
pub open spec fn scanned_from(s: Seq<char>, i: int) -> Seq<EventModel>
    decreases s.len() - i,
{
    if i < 0 || i >= s.len() {
        Seq::empty()
    } else {
        let piece = piece_at(s, i);
        if !(piece.kind is Broken) && i < piece.end <= s.len() {
            seq![event_at(s, i)] + scanned_from(s, piece.end)
        } else {
            seq![event_at(s, i)]
        }
    }
}

/// The events of the document `s`.
pub open spec fn scanned(s: Seq<char>) -> Seq<EventModel> {
    scanned_from(s, 0)
}

/// Whether one of `events` is an `Error`.
pub open spec fn has_error(events: Seq<EventModel>) -> bool {
    exists|k: int| 0 <= k < events.len() && #[trigger] events[k] is Error
}

/// The first index from `i` on at which `v` holds the text `p`.
fn index_of_text(v: &Vec<char>, p: &str, i: usize) -> (r: usize)
    requires
        i <= v.len(),
    ensures
        r as int == find_text(v@, p@, i as int),
        i <= r <= v.len(),
        r < v.len() ==> holds_at(v@, r as int, p@),
{
    let mut j: usize = i;
    while j < v.len()
        invariant
            i <= j <= v.len(),
            find_text(v@, p@, j as int) == find_text(v@, p@, i as int),
        decreases v.len() - j,
    {
        if starts_at(v, j, p) {
            return j;
        }
        j += 1;
    }
    j
}

/// Whether `c` ends the name of a tag.
fn is_name_end(c: char) -> (b: bool)
    ensures
        b == ends_name(c),
{
    c == ' ' || c == '\n' || c == '\t' || c == '\r' || c == '>' || c == '/'
}

/// Whether a tag's name may start with `c`.
fn is_name_start(c: char) -> (b: bool)
    ensures
        b == is_letter(c),
{
    (c >= 'a' && c <= 'z') || (c >= 'A' && c <= 'Z')
}

/// The first index from `i` on at which the name of a tag ends.
fn index_of_name_end(v: &Vec<char>, i: usize) -> (r: usize)
    requires
        i <= v.len(),
    ensures
        r as int == name_end(v@, i as int),
        i <= r <= v.len(),
{
    let mut j: usize = i;
    while j < v.len() && !is_name_end(v[j])
        invariant
            i <= j <= v.len(),
            name_end(v@, j as int) == name_end(v@, i as int),
        decreases v.len() - j,
    {
        j += 1;
    }
    j
}

/// The index of the `>` that closes the start tag whose name starts at `i`.
fn index_of_tag_close(v: &Vec<char>, i: usize) -> (r: usize)
    requires
        i <= v.len(),
    ensures
        r as int == tag_close(v@, i as int, None),
        i <= r <= v.len(),
{
    let mut j: usize = i;
    let mut quote: Option<char> = None;
    while j < v.len()
        invariant
            i <= j <= v.len(),
            tag_close(v@, j as int, quote) == tag_close(v@, i as int, None),
        decreases v.len() - j,
    {
        let c = v[j];
        match quote {
            Some(q) => {
                if c == q {
                    quote = None;
                }
            },
            None => {
                if c == '>' {
                    return j;
                } else if c == '"' || c == '\'' {
                    quote = Some(c);
                }
            },
        }
        j += 1;
    }
    j
}

/// The start tag, as the markup reader gave it, with texts in place of
/// strings.
pub open spec fn parsed_model(parsed: Option<(String, Vec<Attribute>)>) -> Option<
    (Seq<char>, Seq<AttributeModel>),
> {
    match parsed {
        Some((name, attributes)) => Some((name@, attributes.deep_view())),
        None => None,
    }
}

/// The event for a start tag written as `raw`, given what the markup reader
/// made of it.
pub fn start_tag_event(raw: String, parsed: Option<(String, Vec<Attribute>)>) -> (event: HtmlEvent)
    ensures
        event@ == start_tag_model(raw@, parsed_model(parsed)),
{
    match parsed {
        Some((name, attributes)) => HtmlEvent::StartTag { name, attributes, raw },
        None => HtmlEvent::Text(raw),
    }
}

/// The event for markup that is opened at index `i` and never closed.
fn broken_event(v: &Vec<char>, i: usize) -> (event: HtmlEvent)
    requires
        i <= v.len(),
    ensures
        event@ == EventModel::Error(broken_reason(v@, i as int)),
{
    let end = if v.len() - i > QUOTED {
        i + QUOTED
    } else {
        v.len()
    };
    let mut reason = String::from_str("unterminated markup: ");
    let quoted = string_of(v, i, end);
    proof {
        assert(quoted@ =~= excerpt_of(v@.skip(i as int)));
    }
    reason.append(quoted.as_str());
    HtmlEvent::Error(reason)
}

/// The event for the piece of `v` that starts at index `i` and is closed by
/// the character at index `close`, or is broken where `close` is the length of
/// `v`; and the index at which the piece ends.
fn closed_event(v: &Vec<char>, i: usize, kind: PieceKind, close: usize, width: usize) -> (r: (
    HtmlEvent,
    usize,
))
    requires
        i < close <= v.len(),
        1 <= width,
        close < v.len() ==> close + width <= v.len(),
        !(kind is Broken),
        kind is EndTag ==> i + 2 <= v.len(),
    ensures
        r.1 == closed_piece(v@, kind, close as int, width as int).end,
        r.0@ == piece_event(v@, i as int, closed_piece(v@, kind, close as int, width as int)),
{
    if close >= v.len() {
        return (broken_event(v, i), v.len());
    }
    let end = close + width;
    let raw = string_of(v, i, end);
    match kind {
        PieceKind::StartTag => {
            let parsed = read_start_tag(raw.as_str());
            (start_tag_event(raw, parsed), end)
        },
        PieceKind::EndTag => {
            let stop = index_of_name_end(v, i + 2);
            let name = string_of(v, i + 2, stop);
            (HtmlEvent::EndTag { name, raw }, end)
        },
        _ => (HtmlEvent::Text(raw), end),
    }
}

/// Reads one piece of the document `v`: the event for the piece that starts
/// at index `i`, and the index at which that piece ends, where the next one
/// starts. A caller that wants the events one by one calls this from index 0
/// on, until the end of `v` or an `Error`.
pub fn next_event(v: &Vec<char>, i: usize) -> (r: (HtmlEvent, usize))
    requires
        i < v.len(),
    ensures
        r.0@ == event_at(v@, i as int),
        r.1 == piece_at(v@, i as int).end,
        r.0@ is Error <==> piece_at(v@, i as int).kind is Broken,
        !(r.0@ is Error) ==> i < r.1 <= v.len(),
{
    proof {
        reveal_strlit("<!--");
        reveal_strlit("-->");
    }
    if v[i] != '<' {
        let end = index_of_char(v, '<', i + 1);
        (HtmlEvent::Text(string_of(v, i, end)), end)
    } else if starts_at(v, i, "<!--") {
        let close = index_of_text(v, "-->", i + 4);
        closed_event(v, i, PieceKind::Text, close, 3)
    } else if i + 1 < v.len() && (v[i + 1] == '!' || v[i + 1] == '?') {
        let close = index_of_char(v, '>', i + 2);
        closed_event(v, i, PieceKind::Text, close, 1)
    } else if v.len() - i > 2 && v[i + 1] == '/' && is_name_start(v[i + 2]) {
        let close = index_of_char(v, '>', i + 2);
        closed_event(v, i, PieceKind::EndTag, close, 1)
    } else if i + 1 < v.len() && is_name_start(v[i + 1]) {
        let close = index_of_tag_close(v, i + 1);
        closed_event(v, i, PieceKind::StartTag, close, 1)
    } else {
        let end = index_of_char(v, '<', i + 1);
        (HtmlEvent::Text(string_of(v, i, end)), end)
    }
}

/// Reads the document `html` as a sequence of events. For markup that is
/// opened and never closed, the sequence ends with an `Error`.
pub fn scan(html: &str) -> (events: Vec<HtmlEvent>)
    ensures
        events.deep_view() == scanned(html@),
{
    let v = chars_of(html);
    let mut events: Vec<HtmlEvent> = Vec::new();
    let mut i: usize = 0;
    while i < v.len()
        invariant
            i <= v.len(),
            v@ == html@,
            events.deep_view() + scanned_from(v@, i as int) == scanned_from(v@, 0),
        decreases v.len() - i,
    {
        let (event, end) = next_event(&v, i);
        let broken = match &event {
            HtmlEvent::Error(_) => true,
            _ => false,
        };
        events.push(event);
        if broken {
            return events;
        }
        i = end;
    }
    events
}

/// The index at which the scan of `s` from index `i` on stops: that of the
/// first broken piece, or the length of `s`.
pub open spec fn scan_stop(s: Seq<char>, i: int) -> int
    decreases s.len() - i,
{
    if i < 0 || i >= s.len() {
        s.len() as int
    } else {
        let piece = piece_at(s, i);
        if !(piece.kind is Broken) && i < piece.end <= s.len() {
            scan_stop(s, piece.end)
        } else {
            i
        }
    }
}

/// A `find_text` result is an index from `i` on at which the text stands, or
/// the length.
pub proof fn lemma_find_text_bounds(s: Seq<char>, p: Seq<char>, i: int)
    requires
        0 <= i <= s.len(),
    ensures
        i <= find_text(s, p, i) <= s.len(),
        find_text(s, p, i) < s.len() ==> holds_at(s, find_text(s, p, i), p),
    decreases s.len() - i,
{
    if i < s.len() && !holds_at(s, i, p) {
        lemma_find_text_bounds(s, p, i + 1);
    }
}

/// A `tag_close` result is an index from `i` on, or the length.
pub proof fn lemma_tag_close_bounds(s: Seq<char>, i: int, quote: Option<char>)
    requires
        0 <= i <= s.len(),
    ensures
        i <= tag_close(s, i, quote) <= s.len(),
    decreases s.len() - i,
{
    if i < s.len() {
        if quote is Some {
            lemma_tag_close_bounds(s, i + 1, if s[i] == quote.unwrap() { None } else { quote });
        } else if s[i] == '"' || s[i] == '\'' {
            lemma_tag_close_bounds(s, i + 1, Some(s[i]));
        } else if s[i] != '>' {
            lemma_tag_close_bounds(s, i + 1, None);
        }
    }
}

/// A piece that is not broken holds at least one character and ends within
/// the document, and its event stands for just that stretch.
pub proof fn lemma_piece_bounds(s: Seq<char>, i: int)
    requires
        0 <= i < s.len(),
    ensures
        !(piece_at(s, i).kind is Broken) ==> i < piece_at(s, i).end <= s.len(),
        !(piece_at(s, i).kind is Broken) ==> event_at(s, i).raw_text() == s.subrange(
            i,
            piece_at(s, i).end,
        ),
        piece_at(s, i).kind is Broken <==> event_at(s, i) is Error,
{
    reveal_strlit("-->");
    lemma_find_char_bounds(s, '<', i + 1);
    if i + 2 <= s.len() {
        lemma_find_char_bounds(s, '>', i + 2);
    }
    if i + 4 <= s.len() {
        lemma_find_text_bounds(s, "-->"@, i + 4);
    }
    lemma_tag_close_bounds(s, i + 1, None);
}

/// The events of a scan stand for the document from where the scan starts to
/// where it stops, without a gap; and the scan stops before the end just when
/// it gives an `Error`, which is then its last event.
pub proof fn lemma_scan_covers(s: Seq<char>, i: int)
    requires
        0 <= i <= s.len(),
    ensures
        i <= scan_stop(s, i) <= s.len(),
        raw_concat(scanned_from(s, i), 0, scanned_from(s, i).len() as int) == s.subrange(
            i,
            scan_stop(s, i),
        ),
        has_error(scanned_from(s, i)) <==> scan_stop(s, i) < s.len(),
        forall|k: int|
            0 <= k < scanned_from(s, i).len() - 1 ==> !(#[trigger] scanned_from(s, i)[k] is Error),
    decreases s.len() - i,
{
    let events = scanned_from(s, i);
    if i < s.len() {
        lemma_piece_bounds(s, i);
        let piece = piece_at(s, i);
        if !(piece.kind is Broken) {
            let rest = scanned_from(s, piece.end);
            lemma_scan_covers(s, piece.end);
            lemma_raw_concat_split(events, 0, 1, events.len() as int);
            lemma_raw_concat_same(events, rest, 1, events.len() as int, -1);
            assert(raw_concat(events, 0, 0) =~= Seq::<char>::empty());
            if has_error(rest) {
                let k = choose|k: int| 0 <= k < rest.len() && #[trigger] rest[k] is Error;
                assert(events[k + 1] is Error);
            }
            if has_error(events) {
                let k = choose|k: int| 0 <= k < events.len() && #[trigger] events[k] is Error;
                assert(rest[k - 1] is Error);
            }
            assert forall|k: int| 0 <= k < events.len() - 1 implies !(#[trigger] events[k]
                is Error) by {
                if k > 0 {
                    assert(events[k] == rest[k - 1]);
                }
            }
        } else {
            assert(raw_concat(events, 0, 0) =~= Seq::<char>::empty());
        }
    }
}

/// Whether `t` is written as one start tag: `<`, a letter, and its first `>`
/// that stands outside quotes at its end.
pub open spec fn is_start_tag_text(t: Seq<char>) -> bool {
    t.len() >= 3 && t[0] == '<' && is_letter(t[1]) && tag_close(t, 1, None) == t.len() - 1
}

/// Whether `t` is written as one end tag: `</`, a letter, and its first `>` at
/// its end.
pub open spec fn is_end_tag_text(t: Seq<char>) -> bool {
    t.len() >= 4 && t[0] == '<' && t[1] == '/' && is_letter(t[2]) && find_char(t, '>', 2)
        == t.len() - 1
}

/// Whether `t` is text without a `<`, and not empty.
pub open spec fn is_plain_text(t: Seq<char>) -> bool {
    t.len() > 0 && forall|k: int| 0 <= k < t.len() ==> t[k] != '<'
}

/// The event for a piece written as `t`: a start tag as the markup reader
/// reads it, an end tag with its name, or text.
pub open spec fn shaped_event(t: Seq<char>) -> EventModel {
    if is_start_tag_text(t) {
        start_tag_model(t, xml_start_tag(t))
    } else if is_end_tag_text(t) {
        EventModel::EndTag { name: t.subrange(2, name_end(t, 2)), raw: t }
    } else {
        EventModel::Text(t)
    }
}

/// Whether each of `pieces` is written as a start tag, an end tag or text
/// without a `<`, and no text is followed by text.
pub open spec fn pieces_follow(pieces: Seq<Seq<char>>) -> bool {
    forall|k: int|
        0 <= k < pieces.len() ==> {
            let t = #[trigger] pieces[k];
            &&& is_start_tag_text(t) || is_end_tag_text(t) || is_plain_text(t)
            &&& is_plain_text(t) && k + 1 < pieces.len() ==> pieces[k + 1][0] == '<'
        }
}

/// The texts `pieces`, written one after the other.
pub open spec fn run_together(pieces: Seq<Seq<char>>) -> Seq<char>
    decreases pieces.len(),
{
    if pieces.len() == 0 {
        Seq::empty()
    } else {
        pieces[0] + run_together(pieces.skip(1))
    }
}

/// A character found inside a piece is found there from the document too.
pub proof fn lemma_find_char_within(s: Seq<char>, t: Seq<char>, i: int, c: char, k: int)
    requires
        holds_at(s, i, t),
        0 <= k <= t.len(),
        find_char(t, c, k) < t.len(),
    ensures
        find_char(s, c, i + k) == i + find_char(t, c, k),
    decreases t.len() - k,
{
    if k < t.len() {
        assert(s.subrange(i, i + t.len())[k] == s[i + k]);
        if t[k] != c {
            lemma_find_char_within(s, t, i, c, k + 1);
        }
    }
}

/// The `>` that closes a start tag is found from the document as it is found
/// in the tag.
pub proof fn lemma_tag_close_within(s: Seq<char>, t: Seq<char>, i: int, k: int, quote: Option<char>)
    requires
        holds_at(s, i, t),
        0 <= k <= t.len(),
        tag_close(t, k, quote) < t.len(),
    ensures
        tag_close(s, i + k, quote) == i + tag_close(t, k, quote),
    decreases t.len() - k,
{
    if k < t.len() {
        assert(s.subrange(i, i + t.len())[k] == s[i + k]);
        if quote is Some {
            lemma_tag_close_within(
                s,
                t,
                i,
                k + 1,
                if t[k] == quote.unwrap() {
                    None
                } else {
                    quote
                },
            );
        } else if t[k] == '"' || t[k] == '\'' {
            lemma_tag_close_within(s, t, i, k + 1, Some(t[k]));
        } else if t[k] != '>' {
            lemma_tag_close_within(s, t, i, k + 1, None);
        }
    }
}

/// The name of an end tag ends in the document where it ends in the tag.
pub proof fn lemma_name_end_within(s: Seq<char>, t: Seq<char>, i: int, k: int)
    requires
        holds_at(s, i, t),
        0 <= k < t.len(),
        t.last() == '>',
    ensures
        name_end(s, i + k) == i + name_end(t, k),
        k <= name_end(t, k) < t.len(),
    decreases t.len() - k,
{
    assert(s.subrange(i, i + t.len())[k] == s[i + k]);
    if !ends_name(t[k]) {
        lemma_name_end_within(s, t, i, k + 1);
    }
}

/// Text without a `<` runs to its end where a `<` follows it or the document
/// ends.
pub proof fn lemma_text_runs(s: Seq<char>, t: Seq<char>, i: int, k: int)
    requires
        holds_at(s, i, t),
        is_plain_text(t),
        0 <= k <= t.len(),
        i + t.len() == s.len() || s[i + t.len()] == '<',
    ensures
        find_char(s, '<', i + k) == i + t.len(),
    decreases t.len() - k,
{
    if k < t.len() {
        assert(s.subrange(i, i + t.len())[k] == s[i + k]);
        lemma_text_runs(s, t, i, k + 1);
    }
}

/// A piece that is written as a start tag, an end tag or text without a `<`
/// is read as that piece wherever it stands in a document, text provided
/// that a `<` follows it or the document ends.
pub proof fn lemma_shaped_piece(s: Seq<char>, t: Seq<char>, i: int)
    requires
        holds_at(s, i, t),
        is_start_tag_text(t) || is_end_tag_text(t) || is_plain_text(t),
        is_plain_text(t) ==> i + t.len() == s.len() || s[i + t.len()] == '<',
    ensures
        !(piece_at(s, i).kind is Broken),
        piece_at(s, i).end == i + t.len(),
        event_at(s, i) == shaped_event(t),
{
    reveal_strlit("<!--");
    assert(s.subrange(i, i + t.len())[0] == s[i]);
    assert(s.subrange(i, i + t.len()) == t);
    if is_plain_text(t) {
        lemma_text_runs(s, t, i, 1);
    } else {
        assert(s.subrange(i, i + t.len())[1] == s[i + 1]);
        assert(s.subrange(i, i + t.len())[2] == s[i + 2]);
        if i + 4 <= s.len() {
            assert(s.subrange(i, i + 4)[1] == s[i + 1]);
        }
        if is_start_tag_text(t) {
            lemma_tag_close_within(s, t, i, 1, None);
        } else {
            lemma_find_char_within(s, t, i, '>', 2);
            lemma_find_char_bounds(t, '>', 2);
            lemma_name_end_within(s, t, i, 2);
            assert(s.subrange(i + 2, i + name_end(t, 2)) =~= t.subrange(2, name_end(t, 2)));
        }
    }
}

/// A document made of pieces that are written as start tags, end tags and
/// text is read as those pieces, one event for each.
pub proof fn lemma_scan_pieces(before: Seq<char>, pieces: Seq<Seq<char>>)
    requires
        pieces_follow(pieces),
    ensures
        scanned_from(before + run_together(pieces), before.len() as int) == Seq::new(
            pieces.len(),
            |k: int| shaped_event(pieces[k]),
        ),
    decreases pieces.len(),
{
    let s = before + run_together(pieces);
    let i = before.len() as int;
    let events = Seq::new(pieces.len(), |k: int| shaped_event(pieces[k]));
    if pieces.len() == 0 {
        assert(s =~= before);
        assert(scanned_from(s, i) =~= events);
    } else {
        let t = pieces[0];
        let rest = pieces.skip(1);
        assert(is_start_tag_text(t) || is_end_tag_text(t) || is_plain_text(t));
        assert(s.subrange(i, i + t.len()) =~= t);
        if rest.len() > 0 {
            let u = pieces[1];
            assert(rest[0] == u);
            assert(is_start_tag_text(u) || is_end_tag_text(u) || is_plain_text(u));
            assert(run_together(rest) == u + run_together(rest.skip(1)));
            assert(s[i + t.len()] == u[0]);
        } else {
            assert(run_together(rest) =~= Seq::<char>::empty());
            assert(i + t.len() == s.len());
        }
        lemma_shaped_piece(s, t, i);
        assert forall|k: int| 0 <= k < rest.len() implies {
            let u = #[trigger] rest[k];
            &&& is_start_tag_text(u) || is_end_tag_text(u) || is_plain_text(u)
            &&& is_plain_text(u) && k + 1 < rest.len() ==> rest[k + 1][0] == '<'
        } by {
            assert(rest[k] == pieces[k + 1]);
            if k + 1 < rest.len() {
                assert(rest[k + 1] == pieces[k + 2]);
            }
        }
        assert(s =~= (before + t) + run_together(rest));
        lemma_scan_pieces(before + t, rest);
        let tail = Seq::new(rest.len(), |k: int| shaped_event(rest[k]));
        assert(events =~= seq![shaped_event(t)] + tail);
    }
}

} // verus!
