//! The tokenizer of the syntect crate, one line at a time.

use vstd::prelude::*;
use syntect::easy::HighlightLines;
use syntect::highlighting::ThemeSet;
use syntect::parsing::SyntaxSet;

verus! {

/// A stretch of a line as the tokenizer styled it: its text, the colour of
/// its foreground, and its font style as bits (1 bold, 2 underline, 4 italic).
#[derive(Clone, Debug, PartialEq, Eq)]
pub struct StyledFragment {
    pub text: String,
    pub red: u8,
    pub green: u8,
    pub blue: u8,
    pub font: u8,
}

/// A styled fragment with a text in place of its string.
pub ghost struct FragmentModel {
    pub text: Seq<char>,
    pub red: u8,
    pub green: u8,
    pub blue: u8,
    pub font: u8,
}

impl View for StyledFragment {
    type V = FragmentModel;

    open spec fn view(&self) -> FragmentModel {
        FragmentModel {
            text: self.text@,
            red: self.red,
            green: self.green,
            blue: self.blue,
            font: self.font,
        }
    }
}

impl DeepView for StyledFragment {
    type V = FragmentModel;

    open spec fn deep_view(&self) -> FragmentModel {
        self@
    }
}

/// Whether syntect's built-in set of syntaxes holds one for `language`.
pub uninterp spec fn syntect_has_syntax(language: Seq<char>) -> bool;

/// What syntect's tokenizer makes of `line`, taken on its own as a line of
/// source code in `language`, with the styles of the built-in theme `theme`:
/// the fragments of the line, or `None` where the tokenizer reports an error
/// or there is no theme of that name.
pub uninterp spec fn syntect_line(theme: Seq<char>, language: Seq<char>, line: Seq<char>) -> Option<
    Seq<FragmentModel>,
>;

/// Tokenizes one line with syntect. The syntaxes and themes are the sets built
/// into syntect (`SyntaxSet::load_defaults_newlines`, `ThemeSet::load_defaults`).
/// The result is `None` where `SyntaxSet::find_syntax_by_token` finds no
/// syntax for `language`. Else the line goes through `highlight_line` of a
/// `HighlightLines` made for this line alone, and the result holds its
/// fragments as they come, or `None` where `highlight_line` reports an error
/// or the themes hold none named `theme`. What comes out depends on the three
/// arguments alone.
#[verifier::external_body]
pub(crate) fn tokenize_line(theme: &str, language: &str, line: &str) -> (r: Option<
    Option<Vec<StyledFragment>>,
>)
    ensures
        r is Some <==> syntect_has_syntax(language@),
        r matches Some(fragments) ==> fragments.deep_view() == syntect_line(
            theme@,
            language@,
            line@,
        ),
{
    let syntaxes = SyntaxSet::load_defaults_newlines();
    let themes = ThemeSet::load_defaults();
    let syntax = syntaxes.find_syntax_by_token(language)?;
    let ranges = themes.themes.get(theme).and_then(
        |styles| HighlightLines::new(syntax, styles).highlight_line(line, &syntaxes).ok(),
    );
    Some(ranges.map(|ranges| ranges.into_iter().map(|(style, text)| StyledFragment {
        text: text.to_string(),
        red: style.foreground.r,
        green: style.foreground.g,
        blue: style.foreground.b,
        font: style.font_style.bits(),
    }).collect()))
}

} // verus!
