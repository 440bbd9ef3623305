use code_highlight::event::HtmlEvent;
use code_highlight::highlight::{HighlightToken, HighlightedBlock, StyleCategory};
use code_highlight::render::{render_block, reserialize, PlacedHighlight};

fn token(text: &str, category: &str) -> HighlightToken {
    HighlightToken {
        text: text.to_string(),
        category: if category.is_empty() {
            StyleCategory::Neutral
        } else {
            StyleCategory::Named(category.to_string())
        },
    }
}

fn block(lines: Vec<Vec<HighlightToken>>) -> HighlightedBlock {
    HighlightedBlock { lines }
}

fn start(name: &str) -> HtmlEvent {
    HtmlEvent::StartTag { name: name.to_string(), attributes: vec![], raw: format!("<{}>", name) }
}

fn end(name: &str) -> HtmlEvent {
    HtmlEvent::EndTag { name: name.to_string(), raw: format!("</{}>", name) }
}

fn text(t: &str) -> HtmlEvent {
    HtmlEvent::Text(t.to_string())
}

fn placed(position: usize, text: &str) -> PlacedHighlight {
    PlacedHighlight { block: block(vec![vec![token(text, "")]]), position }
}

#[test]
fn a_named_token_is_wrapped_and_a_neutral_one_is_not() {
    let b = block(vec![vec![token("if", "kw"), token(" x ", ""), token("<", "op")], vec![token("y", "id")]]);
    assert_eq!(
        render_block(&b, ""),
        "<span class=\"kw\">if</span> x <span class=\"op\">&lt;</span><span class=\"id\">y</span>"
    );
}

#[test]
fn the_prefix_stands_before_the_category() {
    let b = block(vec![vec![token("x", "c-ff0000-b")]]);
    assert_eq!(render_block(&b, "hl-"), "<span class=\"hl-c-ff0000-b\">x</span>");
}

#[test]
fn class_names_and_text_are_escaped() {
    let b = block(vec![vec![token("a&b", "x\"><script>"), token("'\"'", "")]]);
    assert_eq!(
        render_block(&b, "<"),
        "<span class=\"&lt;x&quot;&gt;&lt;script&gt;\">a&amp;b</span>&#39;&quot;&#39;"
    );
}

#[test]
fn an_empty_block_is_empty_markup() {
    assert_eq!(render_block(&block(vec![]), "p"), "");
    assert_eq!(render_block(&block(vec![vec![], vec![]]), "p"), "");
    assert_eq!(render_block(&block(vec![vec![token("", "")]]), "p"), "");
    assert_eq!(render_block(&block(vec![vec![token("", "k")]]), "p"), "<span class=\"pk\"></span>");
}

#[test]
fn without_blocks_the_events_are_written_as_read() {
    let events = vec![start("p"), text("a &amp; b"), end("p"), text("\n")];
    assert_eq!(reserialize(&events, &vec![], ""), "<p>a &amp; b</p>\n");
    assert_eq!(reserialize(&vec![], &vec![], ""), "");
}

#[test]
fn a_block_stands_in_place_of_the_texts_before_its_position() {
    let events = vec![
        start("pre"),
        start("code"),
        text("one"),
        text("two"),
        end("code"),
        end("pre"),
        text("tail"),
    ];
    assert_eq!(
        reserialize(&events, &vec![placed(4, "NEW")], ""),
        "<pre><code>NEW</code></pre>tail"
    );
}

#[test]
fn a_block_without_text_before_it_is_put_in() {
    let events = vec![start("code"), end("code")];
    assert_eq!(reserialize(&events, &vec![placed(1, "x<y")], ""), "<code>x&lt;y</code>");
    assert_eq!(reserialize(&events, &vec![placed(0, "A")], ""), "A<code></code>");
}

#[test]
fn two_blocks_are_written_in_order() {
    let events = vec![start("code"), text("a"), end("code"), text("-"), start("code"), text("b"), end("code")];
    assert_eq!(
        reserialize(&events, &vec![placed(2, "A"), placed(6, "B")], ""),
        "<code>A</code>-<code>B</code>"
    );
}

#[test]
fn a_block_out_of_place_is_left_out() {
    let events = vec![start("code"), text("a"), end("code"), text("-"), start("code"), text("b"), end("code")];
    assert_eq!(
        reserialize(&events, &vec![placed(6, "B"), placed(2, "A")], ""),
        "<code>a</code>-<code>B</code>"
    );
    assert_eq!(reserialize(&events, &vec![placed(7, "X")], ""), "<code>a</code>-<code>b</code>");
    assert_eq!(
        reserialize(&events, &vec![placed(2, "A"), placed(99, "X"), placed(6, "B")], ""),
        "<code>A</code>-<code>B</code>"
    );
}

#[test]
fn a_run_of_texts_is_not_taken_twice() {
    let events = vec![text("a"), text("b"), end("code")];
    assert_eq!(reserialize(&events, &vec![placed(1, "X"), placed(2, "Y")], ""), "XY</code>");
    assert_eq!(reserialize(&events, &vec![placed(2, "X"), placed(2, "Y")], ""), "XY</code>");
}

#[test]
fn an_error_event_writes_nothing() {
    let events = vec![text("a"), HtmlEvent::Error("why".to_string())];
    assert_eq!(reserialize(&events, &vec![], ""), "a");
}
