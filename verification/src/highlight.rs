//! The highlighter: from the text of a code block to lines of styled tokens.

use vstd::prelude::*;
use crate::text::{chars_of, find_char, index_of_char, lemma_find_char_bounds, same_text, string_of};
use crate::tokenizer::{
    FragmentModel, StyledFragment, syntect_has_syntax, syntect_line, tokenize_line,
};

verus! {

/// How a token is to be shown.
#[derive(Clone, Debug, PartialEq, Eq)]
pub enum StyleCategory {
    /// No style: the token is written as plain text.
    Neutral,
    /// The style of that name.
    Named(String),
}

/// A style category with a text in place of its string.
pub ghost enum CategoryModel {
    Neutral,
    Named(Seq<char>),
}

impl View for StyleCategory {
    type V = CategoryModel;

    open spec fn view(&self) -> CategoryModel {
        match self {
            StyleCategory::Neutral => CategoryModel::Neutral,
            StyleCategory::Named(name) => CategoryModel::Named(name@),
        }
    }
}

/// A stretch of a line and its style category.
#[derive(Clone, Debug, PartialEq, Eq)]
pub struct HighlightToken {
    pub text: String,
    pub category: StyleCategory,
}

/// A token with texts in place of strings.
pub ghost struct TokenModel {
    pub text: Seq<char>,
    pub category: CategoryModel,
}

impl View for HighlightToken {
    type V = TokenModel;

    open spec fn view(&self) -> TokenModel {
        TokenModel { text: self.text@, category: self.category@ }
    }
}

impl DeepView for HighlightToken {
    type V = TokenModel;

    open spec fn deep_view(&self) -> TokenModel {
        self@
    }
}

/// A code block as lines of tokens. The tokens of a line, one after the
/// other, make up the line; the lines, one after the other, the block's text.
#[derive(Clone, Debug, PartialEq, Eq)]
pub struct HighlightedBlock {
    pub lines: Vec<Vec<HighlightToken>>,
}

impl View for HighlightedBlock {
    type V = Seq<Seq<TokenModel>>;

    open spec fn view(&self) -> Seq<Seq<TokenModel>> {
        self.lines.deep_view()
    }
}

impl DeepView for HighlightedBlock {
    type V = Seq<Seq<TokenModel>>;

    open spec fn deep_view(&self) -> Seq<Seq<TokenModel>> {
        self@
    }
}

/// Why a block was not highlighted.
#[derive(Clone, Copy, Debug, PartialEq, Eq)]
pub enum FaultKind {
    /// The tokenizer failed on the block, which is written plain.
    Tokenizer,
    /// The text of the block, as the document has it, is not escaped text:
    /// it holds a `<`, or a `&` that starts no character reference. The
    /// block is written as it was read.
    Escaping,
}

/// A block was not highlighted. The error tells why, and which block by the
/// number of characters of its text and by the hash of that text.
#[derive(Clone, Copy, Debug, PartialEq, Eq)]
pub struct HighlightError {
    pub kind: FaultKind,
    pub length: usize,
    pub hash: u64,
}

/// The error of kind `kind` for a block with the text `text`.
pub open spec fn fault_of(kind: FaultKind, text: Seq<char>) -> HighlightError {
    HighlightError { kind, length: text.len() as usize, hash: text_hash(text) }
}

/// What the hash of a text starts from.
pub const HASH_START: u64 = 0xcbf29ce484222325;

/// What the hash is multiplied by after each character.
pub const HASH_FACTOR: u64 = 0x100000001b3;

/// The hash of a text: from `HASH_START` on, for each character in turn, the
/// hash so far combined with the character's code by exclusive or and then
/// multiplied by `HASH_FACTOR`, of which the low 64 bits are kept.
pub open spec fn text_hash(text: Seq<char>) -> u64
    decreases text.len(),
{
    if text.len() == 0 {
        HASH_START
    } else {
        (text_hash(text.drop_last()) ^ (text.last() as u64)).wrapping_mul(HASH_FACTOR)
    }
}

/// The texts `parts`, one after the other.
pub open spec fn joined(parts: Seq<Seq<char>>) -> Seq<char>
    decreases parts.len(),
{
    if parts.len() == 0 {
        Seq::empty()
    } else {
        joined(parts.drop_last()) + parts.last()
    }
}

/// The text of a line: the texts of its tokens, one after the other.
pub open spec fn line_text(tokens: Seq<TokenModel>) -> Seq<char> {
    joined(Seq::new(tokens.len(), |k: int| tokens[k].text))
}

/// The text of a block: the texts of its lines, one after the other.
pub open spec fn block_text(lines: Seq<Seq<TokenModel>>) -> Seq<char> {
    joined(Seq::new(lines.len(), |k: int| line_text(lines[k])))
}

/// The text of a tokenizer's fragments, one after the other.
pub open spec fn fragments_text(fragments: Seq<FragmentModel>) -> Seq<char> {
    joined(Seq::new(fragments.len(), |k: int| fragments[k].text))
}

/// The lines of `text` from index `i` on. Each line ends with its newline; the
/// last one ends with the text.
pub open spec fn lines_from(text: Seq<char>, i: int) -> Seq<Seq<char>>
    decreases text.len() - i,
{
    if i < 0 || i >= text.len() {
        Seq::empty()
    } else {
        let newline = find_char(text, '\n', i);
        if i <= newline < text.len() {
            seq![text.subrange(i, newline + 1)] + lines_from(text, newline + 1)
        } else {
            seq![text.subrange(i, text.len() as int)]
        }
    }
}

/// The lines of `text`.
pub open spec fn lines_of(text: Seq<char>) -> Seq<Seq<char>> {
    lines_from(text, 0)
}

/// The block that shows `lines` plain: each line one token without a style.
pub open spec fn plain_block(lines: Seq<Seq<char>>) -> Seq<Seq<TokenModel>> {
    Seq::new(
        lines.len(),
        |k: int| seq![TokenModel { text: lines[k], category: CategoryModel::Neutral }],
    )
}

/// The digit for `n` in hexadecimal, for `n` below 16.
pub open spec fn hex_digit(n: int) -> char {
    if n < 10 {
        ('0' as int + n) as char
    } else {
        ('a' as int + n - 10) as char
    }
}

/// The two hexadecimal digits of `b`.
pub open spec fn hex_pair(b: u8) -> Seq<char> {
    seq![hex_digit(b as int / 16), hex_digit(b as int % 16)]
}

/// The name of the style category of a fragment: `c-` and the six
/// hexadecimal digits of its colour, then `-b`, `-u` and `-i` for those of the
/// font styles bold, underline and italic that it has.
pub open spec fn style_class(fragment: FragmentModel) -> Seq<char> {
    let colour = "c-"@ + hex_pair(fragment.red) + hex_pair(fragment.green) + hex_pair(
        fragment.blue,
    );
    let bold = if fragment.font & 1 != 0 {
        "-b"@
    } else {
        Seq::empty()
    };
    let underline = if fragment.font & 2 != 0 {
        "-u"@
    } else {
        Seq::empty()
    };
    let italic = if fragment.font & 4 != 0 {
        "-i"@
    } else {
        Seq::empty()
    };
    colour + bold + underline + italic
}

/// The tokens for the fragments of a line.
pub open spec fn styled_line(fragments: Seq<FragmentModel>) -> Seq<TokenModel> {
    Seq::new(
        fragments.len(),
        |k: int|
            TokenModel {
                text: fragments[k].text,
                category: CategoryModel::Named(style_class(fragments[k])),
            },
    )
}

/// Whether the tokenizer's results are one for each of `lines` and the
/// fragments of each make up its line.
pub open spec fn well_tokenized(
    lines: Seq<Seq<char>>,
    results: Seq<Option<Seq<FragmentModel>>>,
) -> bool {
    &&& results.len() == lines.len()
    &&& forall|k: int|
        0 <= k < lines.len() ==> (#[trigger] results[k]) is Some && fragments_text(
            results[k].unwrap(),
        ) == lines[k]
}

/// The block for `lines`, given what the tokenizer made of them. Where it
/// knew no syntax the block is plain. Where its results do not make up the
/// lines the block is plain too, and that is an error.
pub open spec fn assembled(
    lines: Seq<Seq<char>>,
    outcome: Option<Seq<Option<Seq<FragmentModel>>>>,
) -> (Seq<Seq<TokenModel>>, Option<HighlightError>) {
    match outcome {
        None => (plain_block(lines), None),
        Some(results) => if well_tokenized(lines, results) {
            (Seq::new(lines.len(), |k: int| styled_line(results[k].unwrap())), None)
        } else {
            (plain_block(lines), Some(fault_of(FaultKind::Tokenizer, joined(lines))))
        },
    }
}

/// The theme of syntect whose styles tell the tokens of a line apart. It is
/// the same for every block, so that the tokens of a text depend on the text
/// and its language alone; what a page looks like is left to the style sheet
/// that the class names refer to.
pub open spec fn classifier() -> Seq<char> {
    "InspiredGitHub"@
}

/// What the tokenizer makes of `lines` in `language`, each line on its own.
pub open spec fn tokenized(language: Seq<char>, lines: Seq<Seq<char>>) -> Seq<
    Option<Seq<FragmentModel>>,
> {
    Seq::new(lines.len(), |k: int| syntect_line(classifier(), language, lines[k]))
}

/// The block for `text` in `language`, and the error if the tokenizer failed
/// on it. Each line is tokenized on its own. Without a language, or in one
/// that the tokenizer has no syntax for, the block is plain and there is no
/// error.
pub open spec fn highlighted(text: Seq<char>, language: Option<Seq<char>>) -> (
    Seq<Seq<TokenModel>>,
    Option<HighlightError>,
) {
    match language {
        Some(l) if syntect_has_syntax(l) => assembled(
            lines_of(text),
            Some(tokenized(l, lines_of(text))),
        ),
        _ => (plain_block(lines_of(text)), None),
    }
}

/// One text joined is that text.
pub proof fn lemma_joined_one(part: Seq<char>)
    ensures
        joined(seq![part]) == part,
{
    assert(joined(seq![part].drop_last()) =~= Seq::<char>::empty());
}

/// Joining two runs of texts joins each run.
pub proof fn lemma_joined_concat(a: Seq<Seq<char>>, b: Seq<Seq<char>>)
    ensures
        joined(a + b) == joined(a) + joined(b),
    decreases b.len(),
{
    if b.len() > 0 {
        assert((a + b).drop_last() =~= a + b.drop_last());
        lemma_joined_concat(a, b.drop_last());
    }
}

/// The lines of a text, one after the other, make up the text.
pub proof fn lemma_lines_join(text: Seq<char>, i: int)
    requires
        0 <= i <= text.len(),
    ensures
        joined(lines_from(text, i)) == text.skip(i),
    decreases text.len() - i,
{
    if i < text.len() {
        let newline = find_char(text, '\n', i);
        lemma_find_char_bounds(text, '\n', i);
        if newline < text.len() {
            let first = text.subrange(i, newline + 1);
            lemma_lines_join(text, newline + 1);
            lemma_joined_concat(seq![first], lines_from(text, newline + 1));
            lemma_joined_one(first);
        } else {
            lemma_joined_one(text.subrange(i, text.len() as int));
        }
    }
}

/// The text of a plain block is that of its lines.
pub proof fn lemma_plain_text(lines: Seq<Seq<char>>)
    ensures
        block_text(plain_block(lines)) == joined(lines),
{
    let block = plain_block(lines);
    assert forall|k: int| 0 <= k < lines.len() implies line_text(#[trigger] block[k])
        == lines[k] by {
        let texts = Seq::new(block[k].len(), |j: int| block[k][j].text);
        lemma_joined_one(lines[k]);
        assert(texts =~= seq![lines[k]]);
    }
    assert(Seq::new(block.len(), |k: int| line_text(block[k])) =~= lines);
}

/// The text of a styled line is that of its fragments.
pub proof fn lemma_styled_text(fragments: Seq<FragmentModel>)
    ensures
        line_text(styled_line(fragments)) == fragments_text(fragments),
{
    let tokens = styled_line(fragments);
    assert(Seq::new(tokens.len(), |k: int| tokens[k].text) =~= Seq::new(
        fragments.len(),
        |k: int| fragments[k].text,
    ));
}

/// Whatever the tokenizer gave, the text of the assembled block is that of
/// the lines.
pub proof fn lemma_assembled_text(
    lines: Seq<Seq<char>>,
    outcome: Option<Seq<Option<Seq<FragmentModel>>>>,
)
    ensures
        block_text(assembled(lines, outcome).0) == joined(lines),
{
    lemma_plain_text(lines);
    if outcome is Some && well_tokenized(lines, outcome.unwrap()) {
        let results = outcome.unwrap();
        let block = assembled(lines, outcome).0;
        assert forall|k: int| 0 <= k < lines.len() implies line_text(#[trigger] block[k])
            == lines[k] by {
            lemma_styled_text(results[k].unwrap());
        }
        assert(Seq::new(block.len(), |k: int| line_text(block[k])) =~= lines);
    }
}

/// The lines of `text`. Each line ends with its newline; the last one ends
/// with the text.
pub fn split_lines(text: &str) -> (lines: Vec<String>)
    ensures
        lines.deep_view() == lines_of(text@),
{
    let v = chars_of(text);
    let mut lines: Vec<String> = Vec::new();
    let mut i: usize = 0;
    while i < v.len()
        invariant
            i <= v.len(),
            v@ == text@,
            lines.deep_view() + lines_from(v@, i as int) == lines_from(v@, 0),
        decreases v.len() - i,
    {
        let newline = index_of_char(&v, '\n', i);
        let end = if newline < v.len() {
            newline + 1
        } else {
            v.len()
        };
        lines.push(string_of(&v, i, end));
        i = end;
    }
    lines
}

/// The block that shows `lines` plain.
fn plain(lines: &Vec<String>) -> (block: HighlightedBlock)
    ensures
        block@ == plain_block(lines.deep_view()),
{
    let ghost model = lines.deep_view();
    let mut rows: Vec<Vec<HighlightToken>> = Vec::new();
    let mut k: usize = 0;
    while k < lines.len()
        invariant
            k <= lines.len(),
            model == lines.deep_view(),
            rows.deep_view() == plain_block(model).take(k as int),
        decreases lines.len() - k,
    {
        let ghost before = rows.deep_view();
        let mut row: Vec<HighlightToken> = Vec::new();
        row.push(HighlightToken { text: lines[k].clone(), category: StyleCategory::Neutral });
        proof {
            assert(row.deep_view() =~= plain_block(model)[k as int]);
        }
        rows.push(row);
        proof {
            assert(rows.deep_view() =~= before.push(plain_block(model)[k as int]));
        }
        k += 1;
    }
    HighlightedBlock { lines: rows }
}

/// The digit for `n` in hexadecimal.
fn hex_char(n: u8) -> (c: char)
    requires
        n < 16,
    ensures
        c == hex_digit(n as int),
{
    if n < 10 {
        ('0' as u8 + n) as char
    } else {
        ('a' as u8 + n - 10) as char
    }
}

/// Appends the two hexadecimal digits of `b` to `out`.
fn push_hex(out: &mut String, b: u8)
    ensures
        final(out)@ == old(out)@ + hex_pair(b),
{
    out.push(hex_char(b / 16));
    out.push(hex_char(b % 16));
}

/// The name of the style category of `fragment`.
pub fn category_name(fragment: &StyledFragment) -> (name: String)
    ensures
        name@ == style_class(fragment@),
{
    let mut name = String::from_str("c-");
    push_hex(&mut name, fragment.red);
    push_hex(&mut name, fragment.green);
    push_hex(&mut name, fragment.blue);
    if fragment.font & 1 != 0 {
        name.append("-b");
    }
    if fragment.font & 2 != 0 {
        name.append("-u");
    }
    if fragment.font & 4 != 0 {
        name.append("-i");
    }
    name
}

/// The tokens for the fragments of a line, if the fragments make up `line`.
fn style_line(fragments: &Vec<StyledFragment>, line: &str) -> (tokens: Option<Vec<HighlightToken>>)
    ensures
        match tokens {
            Some(t) => fragments_text(fragments.deep_view()) == line@ && t.deep_view()
                == styled_line(fragments.deep_view()),
            None => fragments_text(fragments.deep_view()) != line@,
        },
{
    let ghost model = fragments.deep_view();
    let ghost texts = Seq::new(model.len(), |k: int| model[k].text);
    let mut tokens: Vec<HighlightToken> = Vec::new();
    let mut whole = String::new();
    let mut k: usize = 0;
    while k < fragments.len()
        invariant
            k <= fragments.len(),
            model == fragments.deep_view(),
            texts == Seq::new(model.len(), |k: int| model[k].text),
            whole@ == joined(texts.take(k as int)),
            tokens.deep_view() == styled_line(model).take(k as int),
        decreases fragments.len() - k,
    {
        let fragment = &fragments[k];
        proof {
            assert(texts.take(k + 1).drop_last() =~= texts.take(k as int));
        }
        whole.append(fragment.text.as_str());
        let ghost before = tokens.deep_view();
        tokens.push(
            HighlightToken {
                text: fragment.text.clone(),
                category: StyleCategory::Named(category_name(fragment)),
            },
        );
        proof {
            assert(tokens.deep_view() =~= before.push(styled_line(model)[k as int]));
        }
        k += 1;
    }
    proof {
        assert(texts.take(model.len() as int) =~= texts);
    }
    if same_text(whole.as_str(), line) {
        Some(tokens)
    } else {
        None
    }
}

/// The styled block for `lines`, if the tokenizer's `results` make them up.
fn style_lines(lines: &Vec<String>, results: &Vec<Option<Vec<StyledFragment>>>) -> (block: Option<
    HighlightedBlock,
>)
    ensures
        match block {
            Some(b) => well_tokenized(lines.deep_view(), results.deep_view()) && b@ == assembled(
                lines.deep_view(),
                Some(results.deep_view()),
            ).0,
            None => !well_tokenized(lines.deep_view(), results.deep_view()),
        },
{
    let ghost model = lines.deep_view();
    let ghost given = results.deep_view();
    let ghost target = Seq::new(model.len(), |k: int| styled_line(given[k].unwrap()));
    if results.len() != lines.len() {
        return None;
    }
    let mut rows: Vec<Vec<HighlightToken>> = Vec::new();
    let mut k: usize = 0;
    while k < lines.len()
        invariant
            k <= lines.len(),
            results.len() == lines.len(),
            model == lines.deep_view(),
            given == results.deep_view(),
            target == Seq::new(model.len(), |k: int| styled_line(given[k].unwrap())),
            forall|j: int|
                0 <= j < k ==> (#[trigger] given[j]) is Some && fragments_text(given[j].unwrap())
                    == model[j],
            rows.deep_view() == target.take(k as int),
        decreases lines.len() - k,
    {
        match &results[k] {
            Some(fragments) => {
                match style_line(fragments, lines[k].as_str()) {
                    Some(tokens) => {
                        let ghost before = rows.deep_view();
                        rows.push(tokens);
                        proof {
                            assert(rows.deep_view() =~= before.push(target[k as int]));
                        }
                    },
                    None => {
                        return None;
                    },
                }
            },
            None => {
                return None;
            },
        }
        k += 1;
    }
    Some(HighlightedBlock { lines: rows })
}

/// The number of characters of `text` and its hash.
fn measure(text: &str) -> (r: (usize, u64))
    ensures
        r.0 == text@.len(),
        r.1 == text_hash(text@),
{
    let v = chars_of(text);
    let mut hash: u64 = HASH_START;
    let mut k: usize = 0;
    while k < v.len()
        invariant
            k <= v.len(),
            hash == text_hash(v@.take(k as int)),
        decreases v.len() - k,
    {
        proof {
            assert(v@.take(k + 1).drop_last() =~= v@.take(k as int));
        }
        hash = (hash ^ (v[k] as u64)).wrapping_mul(HASH_FACTOR);
        k += 1;
    }
    proof {
        assert(v@.take(v.len() as int) =~= v@);
    }
    (v.len(), hash)
}

/// The error for a block whose text `raw` is not escaped text.
pub fn escaping_fault(raw: &str) -> (error: HighlightError)
    ensures
        error == fault_of(FaultKind::Escaping, raw@),
{
    let (length, hash) = measure(raw);
    HighlightError { kind: FaultKind::Escaping, length, hash }
}

/// The hash of `text`.
pub fn hash_text(text: &str) -> (hash: u64)
    ensures
        hash == text_hash(text@),
{
    measure(text).1
}

/// The block for `text`, given what the tokenizer made of its lines, and the
/// error if the tokenizer failed.
pub fn assemble(text: &str, outcome: Option<Vec<Option<Vec<StyledFragment>>>>) -> (r: (
    HighlightedBlock,
    Option<HighlightError>,
))
    ensures
        r.0@ == assembled(lines_of(text@), outcome.deep_view()).0,
        r.1 == assembled(lines_of(text@), outcome.deep_view()).1,
{
    let lines = split_lines(text);
    match outcome {
        None => (plain(&lines), None),
        Some(results) => {
            match style_lines(&lines, &results) {
                Some(block) => (block, None),
                None => {
                    let (length, hash) = measure(text);
                    proof {
                        lemma_lines_join(text@, 0);
                        assert(text@.skip(0) =~= text@);
                    }
                    let kind = FaultKind::Tokenizer;
                    (plain(&lines), Some(HighlightError { kind, length, hash }))
                },
            }
        },
    }
}

/// What the highlighter and the re-serializer are told: what is put before
/// a style category's name to make the class name of its markup.
#[derive(Clone, Debug, PartialEq, Eq)]
pub struct HighlightConfig {
    pub class_prefix: String,
}

impl HighlightConfig {
    /// No prefix.
    pub fn new() -> (config: HighlightConfig)
        ensures
            config.class_prefix@ == Seq::<char>::empty(),
    {
        HighlightConfig { class_prefix: String::new() }
    }
}

/// What the tokenizer makes of `lines` in `language`, each line on its own;
/// `None` where it has no syntax for `language`. `lines` holds a line.
fn tokenize(language: &str, lines: &Vec<String>) -> (r: Option<Vec<Option<Vec<StyledFragment>>>>)
    requires
        lines.len() > 0,
    ensures
        r is Some <==> syntect_has_syntax(language@),
        r matches Some(results) ==> results.deep_view() == tokenized(
            language@,
            lines.deep_view(),
        ),
{
    let ghost target = tokenized(language@, lines.deep_view());
    let mut results: Vec<Option<Vec<StyledFragment>>> = Vec::new();
    let mut k: usize = 0;
    while k < lines.len()
        invariant
            k <= lines.len(),
            target == tokenized(language@, lines.deep_view()),
            k > 0 ==> syntect_has_syntax(language@),
            results.deep_view() == target.take(k as int),
        decreases lines.len() - k,
    {
        let ghost before = results.deep_view();
        proof {
            assert(lines.deep_view()[k as int] == lines[k as int]@);
        }
        match tokenize_line("InspiredGitHub", language, lines[k].as_str()) {
            Some(fragments) => {
                results.push(fragments);
            },
            None => {
                return None;
            },
        }
        proof {
            assert(results.deep_view() =~= before.push(target[k as int]));
            assert(before.push(target[k as int]) =~= target.take(k + 1));
        }
        k += 1;
    }
    proof {
        assert(target.take(lines.len() as int) =~= target);
    }
    Some(results)
}

/// Tokenizes `text` as source code in `language`, each line on its own.
/// Without a language, or in one that the tokenizer has no syntax for, the
/// block is plain: each line one token without a style. Where the tokenizer
/// fails the block is plain too, and the error is handed back beside it.
pub fn highlight(text: &str, language: Option<&str>) -> (r: (
    HighlightedBlock,
    Option<HighlightError>,
))
    ensures
        r.0@ == highlighted(text@, language.deep_view()).0,
        r.1 == highlighted(text@, language.deep_view()).1,
        block_text(r.0@) == text@,
{
    proof {
        lemma_lines_join(text@, 0);
        assert(text@.skip(0) =~= text@);
        lemma_assembled_text(lines_of(text@), None);
    }
    let lines = split_lines(text);
    match language {
        Some(l) if lines.len() > 0 => {
            let outcome = tokenize(l, &lines);
            proof {
                lemma_assembled_text(lines_of(text@), outcome.deep_view());
            }
            assemble(text, outcome)
        },
        _ => {
            proof {
                if language is Some {
                    lemma_assembled_text(
                        lines_of(text@),
                        Some(tokenized(language.unwrap()@, lines_of(text@))),
                    );
                    assert(assembled(
                        lines_of(text@),
                        Some(tokenized(language.unwrap()@, lines_of(text@))),
                    ).0 =~= plain_block(lines_of(text@)));
                }
            }
            assemble(text, None)
        },
    }
}

} // verus!
