use code_highlight::event::{Attribute, HtmlEvent};
use code_highlight::scanner::{next_event, scan, start_tag_event};

fn start(name: &str, attributes: &[(&str, &str)], raw: &str) -> HtmlEvent {
    HtmlEvent::StartTag {
        name: name.to_string(),
        attributes: attributes
            .iter()
            .map(|(n, v)| Attribute { name: n.to_string(), value: v.to_string() })
            .collect(),
        raw: raw.to_string(),
    }
}

fn end(name: &str, raw: &str) -> HtmlEvent {
    HtmlEvent::EndTag { name: name.to_string(), raw: raw.to_string() }
}

fn text(t: &str) -> HtmlEvent {
    HtmlEvent::Text(t.to_string())
}

fn raw_of(events: &[HtmlEvent]) -> String {
    events.iter().map(|e| e.raw()).collect()
}

#[test]
fn scan_gives_tags_and_text_in_order() {
    let events = scan("<p>hi</p><pre><code class=\"language-rust\">fn a(){}</code></pre>");
    assert_eq!(
        events,
        vec![
            start("p", &[], "<p>"),
            text("hi"),
            end("p", "</p>"),
            start("pre", &[], "<pre>"),
            start("code", &[("class", "language-rust")], "<code class=\"language-rust\">"),
            text("fn a(){}"),
            end("code", "</code>"),
            end("pre", "</pre>"),
        ]
    );
}

#[test]
fn scan_of_nothing_gives_nothing() {
    assert_eq!(scan(""), vec![]);
}

#[test]
fn scan_covers_every_character() {
    let html = "<!DOCTYPE html>\n<?xml version=\"1.0\"?>\n<h1 id='a>b'>T &amp; t</h1>\n<!-- a > b -- c -->\n<br />1 < 2<input disabled></ p>é<";
    let events = scan(html);
    assert!(events.iter().all(|e| !matches!(e, HtmlEvent::Error(_))));
    assert_eq!(raw_of(&events), html);
}

#[test]
fn scan_keeps_comments_and_declarations_as_text() {
    assert_eq!(
        scan("<!DOCTYPE html><!-- <b> --><?pi x?>"),
        vec![text("<!DOCTYPE html>"), text("<!-- <b> -->"), text("<?pi x?>")]
    );
}

#[test]
fn scan_keeps_a_lone_less_than_sign_as_text() {
    assert_eq!(scan("1 < 2 <3"), vec![text("1 "), text("< 2 "), text("<3")]);
    assert_eq!(scan("<"), vec![text("<")]);
    assert_eq!(scan("</>"), vec![text("</>")]);
}

#[test]
fn scan_reads_attributes_in_either_quotes() {
    assert_eq!(
        scan("<a href=\"x?a=1&amp;b=2\" title='x>y'>"),
        vec![start(
            "a",
            &[("href", "x?a=1&b=2"), ("title", "x>y")],
            "<a href=\"x?a=1&amp;b=2\" title='x>y'>"
        )]
    );
}

#[test]
fn scan_reads_a_tag_that_closes_itself() {
    assert_eq!(
        scan("<img src=\"a.png\"/><br />"),
        vec![start("img", &[("src", "a.png")], "<img src=\"a.png\"/>"), start("br", &[], "<br />")]
    );
}

#[test]
fn scan_keeps_a_start_tag_that_the_reader_refuses_as_text() {
    assert_eq!(
        scan("<input disabled><a href=x>"),
        vec![text("<input disabled>"), text("<a href=x>")]
    );
}

#[test]
fn scan_reads_the_name_of_an_end_tag_up_to_a_space() {
    assert_eq!(scan("</code >"), vec![end("code", "</code >")]);
    assert_eq!(scan("</Pre\n>"), vec![end("Pre", "</Pre\n>")]);
}

#[test]
fn scan_ends_with_an_error_at_markup_that_is_not_closed() {
    assert_eq!(
        scan("<p>a</p><p class=\"x"),
        vec![
            start("p", &[], "<p>"),
            text("a"),
            end("p", "</p>"),
            HtmlEvent::Error("unterminated markup: <p class=\"x".to_string()),
        ]
    );
    assert_eq!(
        scan("x<!-- never closed"),
        vec![text("x"), HtmlEvent::Error("unterminated markup: <!-- never closed".to_string())]
    );
    assert_eq!(scan("</p"), vec![HtmlEvent::Error("unterminated markup: </p".to_string())]);
    assert_eq!(scan("<!x"), vec![HtmlEvent::Error("unterminated markup: <!x".to_string())]);
}

#[test]
fn scan_error_quotes_thirty_two_characters() {
    let events = scan("<p title=\"0123456789012345678901234567890123456789");
    assert_eq!(
        events,
        vec![HtmlEvent::Error(
            "unterminated markup: <p title=\"0123456789012345678901".to_string()
        )]
    );
}

#[test]
fn quote_inside_a_tag_hides_the_closing_sign() {
    assert_eq!(
        scan("<p title=\"a>b>c</p>"),
        vec![HtmlEvent::Error("unterminated markup: <p title=\"a>b>c</p>".to_string())]
    );
}

#[test]
fn start_tag_event_follows_the_reader() {
    assert_eq!(
        start_tag_event(
            "<b x='1'>".to_string(),
            Some(("b".to_string(), vec![Attribute { name: "x".to_string(), value: "1".to_string() }]))
        ),
        start("b", &[("x", "1")], "<b x='1'>")
    );
    assert_eq!(start_tag_event("<b x>".to_string(), None), text("<b x>"));
}

#[test]
fn raw_of_an_error_is_empty() {
    assert_eq!(HtmlEvent::Error("why".to_string()).raw(), "");
    assert_eq!(text("t").raw(), "t");
    assert_eq!(end("p", "</p >").raw(), "</p >");
    assert_eq!(start("p", &[], "<p  >").raw(), "<p  >");
}

#[test]
fn events_can_be_read_one_by_one() {
    let html = "<p>hi</p><!-- c --><br";
    let document: Vec<char> = html.chars().collect();
    assert_eq!(next_event(&document, 0), (start("p", &[], "<p>"), 3));
    assert_eq!(next_event(&document, 3), (text("hi"), 5));
    assert_eq!(next_event(&document, 5), (end("p", "</p>"), 9));
    assert_eq!(next_event(&document, 9), (text("<!-- c -->"), 19));
    assert_eq!(
        next_event(&document, 19),
        (HtmlEvent::Error("unterminated markup: <br".to_string()), 22)
    );
    assert_eq!(next_event(&document, 4), (text("i"), 5));
}
