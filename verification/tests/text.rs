use code_highlight::text::{
    chars_of, escape_text, excerpt, index_of_char, same_text, starts_at, string_of, unescape_text,
};

#[test]
fn escape_replaces_the_five_markup_characters() {
    assert_eq!(escape_text("a<b>&\"'"), "a&lt;b&gt;&amp;&quot;&#39;");
}

#[test]
fn escape_leaves_other_text_alone() {
    assert_eq!(escape_text(""), "");
    assert_eq!(escape_text("fn main() { let x = 1; }\n"), "fn main() { let x = 1; }\n");
    assert_eq!(escape_text("déjà vu ✓"), "déjà vu ✓");
}

#[test]
fn escape_escapes_an_ampersand_that_starts_a_reference() {
    assert_eq!(escape_text("&lt;"), "&amp;lt;");
}

#[test]
fn unescape_reads_named_references() {
    assert_eq!(
        unescape_text("&lt;a&gt; &amp;&amp; &quot;b&quot; &apos;c&apos;"),
        Some("<a> && \"b\" 'c'".to_string())
    );
}

#[test]
fn unescape_reads_numeric_references() {
    assert_eq!(unescape_text("it&#39;s"), Some("it's".to_string()));
    assert_eq!(unescape_text("&#x3C;&#x3e;"), Some("<>".to_string()));
    assert_eq!(unescape_text("&#X41;&#X3c;"), Some("A<".to_string()));
    assert_eq!(unescape_text("&#8364;&#x20AC;"), Some("€€".to_string()));
    assert_eq!(unescape_text("&#1114111;"), Some("\u{10FFFF}".to_string()));
    assert_eq!(unescape_text("&#0065;"), Some("A".to_string()));
}

#[test]
fn unescape_refuses_what_was_not_escaped() {
    assert_eq!(unescape_text("a < b"), None);
    assert_eq!(unescape_text("a & b"), None);
    assert_eq!(unescape_text("&nbsp;"), None);
    assert_eq!(unescape_text("&amp"), None);
    assert_eq!(unescape_text("&#;"), None);
    assert_eq!(unescape_text("&#x;"), None);
    assert_eq!(unescape_text("&#12"), None);
    assert_eq!(unescape_text("&#xZZ;"), None);
}

#[test]
fn unescape_refuses_codes_of_no_character() {
    assert_eq!(unescape_text("&#xD800;"), None);
    assert_eq!(unescape_text("&#xDFFF;"), None);
    assert_eq!(unescape_text("&#1114112;"), None);
    assert_eq!(unescape_text("&#99999999999999999999;"), None);
    assert_eq!(unescape_text("&#xD7FF;"), Some("\u{D7FF}".to_string()));
    assert_eq!(unescape_text("&#xE000;"), Some("\u{E000}".to_string()));
}

#[test]
fn unescape_keeps_plain_text() {
    assert_eq!(unescape_text(""), Some(String::new()));
    assert_eq!(unescape_text("a > b; 'c' \"d\""), Some("a > b; 'c' \"d\"".to_string()));
}

#[test]
fn unescape_undoes_escape() {
    for text in ["", "plain", "<>&\"'", "a < b && c > d", "&lt;", "&#39;&amp;#39;", "ünï<ödé>"] {
        assert_eq!(unescape_text(&escape_text(text)), Some(text.to_string()));
    }
}

#[test]
fn escaped_text_is_escaped_once() {
    let once = escape_text("a < b");
    assert_eq!(once, "a &lt; b");
    assert_eq!(escape_text(&unescape_text(&once).unwrap()), once);
}

#[test]
fn excerpt_cuts_after_thirty_two_characters() {
    assert_eq!(excerpt("short"), "short");
    assert_eq!(excerpt("0123456789012345678901234567890123456789"), "01234567890123456789012345678901");
    assert_eq!(excerpt("01234567890123456789012345678901"), "01234567890123456789012345678901");
    assert_eq!(excerpt("ééééééééééééééééééééééééééééééééé"), "éééééééééééééééééééééééééééééééé");
}

#[test]
fn characters_and_strings_convert_both_ways() {
    let v = chars_of("héllo");
    assert_eq!(v, vec!['h', 'é', 'l', 'l', 'o']);
    assert_eq!(string_of(&v, 1, 4), "éll");
    assert_eq!(string_of(&v, 2, 2), "");
    assert_eq!(string_of(&v, 0, 5), "héllo");
}

#[test]
fn searching_characters_and_texts() {
    let v = chars_of("a-->b");
    assert_eq!(index_of_char(&v, '>', 0), 3);
    assert_eq!(index_of_char(&v, '>', 4), 5);
    assert_eq!(index_of_char(&v, 'a', 0), 0);
    assert_eq!(index_of_char(&v, 'z', 0), 5);
    assert!(starts_at(&v, 1, "-->"));
    assert!(!starts_at(&v, 2, "-->"));
    assert!(!starts_at(&v, 3, ">bc"));
    assert!(starts_at(&v, 5, ""));
    assert!(same_text("abc", "abc"));
    assert!(!same_text("abc", "abd"));
    assert!(!same_text("abc", "ab"));
    assert!(same_text("", ""));
}
