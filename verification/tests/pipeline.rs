use code_highlight::event::HtmlEvent;
use code_highlight::highlight::{HighlightToken, HighlightedBlock, StyleCategory};
use code_highlight::machine::{
    extract_code_blocks, CodeBlock, EventKind, PlacedBlock, State, StateKind,
};
use code_highlight::pipeline::{
    highlight_blocks, highlight_document, highlight_documents, process_events, syntax_highlight,
    ErrorKind,
};
use code_highlight::highlight::{escaping_fault, highlight, FaultKind, HighlightConfig};
use code_highlight::render::{render_block, reserialize, PlacedHighlight};
use code_highlight::scanner::scan;
use code_highlight::text::{escape_text, unescape_text};

fn token(text: &str, category: &str) -> HighlightToken {
    HighlightToken {
        text: text.to_string(),
        category: if category.is_empty() {
            StyleCategory::Neutral
        } else {
            StyleCategory::Named(category.to_string())
        },
    }
}

#[test]
fn end_to_end_with_given_tokens() {
    let html = "<p>hi</p><pre><code class=\"language-rust\">fn a(){}</code></pre>";
    let events = scan(html);
    let extraction = extract_code_blocks(&events);
    assert_eq!(extraction.state, State::Outside);
    assert_eq!(extraction.blocks.len(), 1);
    let found = &extraction.blocks[0];
    assert_eq!(found.block.language, Some("rust".to_string()));
    assert_eq!(found.block.raw_text, "fn a(){}");
    let line = vec![
        token("fn", "kw"),
        token(" ", ""),
        token("a", "ident"),
        token("(", "punct"),
        token(")", "punct"),
        token("{", "punct"),
        token("}", "punct"),
    ];
    let placed = vec![PlacedHighlight {
        block: HighlightedBlock { lines: vec![line] },
        position: found.position,
    }];
    let out = reserialize(&events, &placed, "");
    assert_eq!(
        out,
        "<p>hi</p><pre><code class=\"language-rust\"><span class=\"kw\">fn</span> <span class=\"ident\">a</span><span class=\"punct\">(</span><span class=\"punct\">)</span><span class=\"punct\">{</span><span class=\"punct\">}</span></code></pre>"
    );
}

#[test]
fn code_close_after_pre_open_is_a_transition_error() {
    let pre = HtmlEvent::StartTag {
        name: "pre".to_string(),
        attributes: vec![],
        raw: "<pre>".to_string(),
    };
    let close = HtmlEvent::EndTag { name: "code".to_string(), raw: "</code>".to_string() };
    let (state, block) = State::Outside.next(&pre);
    assert_eq!(state, State::SeenPreOpen);
    assert_eq!(block, None);
    let (state, block) = state.next(&close);
    assert_eq!(block, None);
    match state {
        State::Failed(d) => {
            assert_eq!(d.state, StateKind::SeenPreOpen);
            assert_eq!(d.event, EventKind::EndTag);
            assert_eq!(d.subject, "code");
            assert_eq!(d.message(), "Invalid state/event: SeenPreOpen | EndTag(code)");
        }
        other => panic!("expected a failure, got {:?}", other),
    }
}

#[test]
fn document_without_code_blocks_is_unchanged() {
    let html = "<!DOCTYPE html>\n<h1 id=\"t\">Title</h1>\n<!-- note -->\n<p>a &amp; b <br /> c</p>\n";
    let out = syntax_highlight(html.to_string()).unwrap();
    assert_eq!(out, html);
}

#[test]
fn unknown_language_is_passed_through() {
    let html = "<pre><code class=\"language-nosuchlanguage\">a &lt; b &amp;&amp; c</code></pre>";
    let done = highlight_document(html, &HighlightConfig::new()).unwrap();
    assert_eq!(done.html, html);
    assert!(done.faults.is_empty());
}

#[test]
fn rust_block_is_highlighted() {
    let html = "<pre><code class=\"language-rust\">fn a() {}\n</code></pre>";
    let done = highlight_document(html, &HighlightConfig::new()).unwrap();
    println!("{}", done.html);
    assert!(done.html.starts_with("<pre><code class=\"language-rust\"><span class=\"c-"));
    assert!(done.html.ends_with("</span></code></pre>"));
    assert!(done.faults.is_empty());
}

#[test]
fn stray_code_close_fails_the_document() {
    let html = "<p>x</p></code><p>y</p>";
    let e = highlight_document(html, &HighlightConfig::new()).unwrap_err();
    assert_eq!(e.kind, ErrorKind::StateTransition);
    assert_eq!(e.diagnostic, "Invalid state/event: Outside | EndTag(code)");
    assert_eq!(e.partial_output, "<p>x</p>");
}

fn strip_tags(markup: &str) -> String {
    let mut out = String::new();
    let mut inside = false;
    for c in markup.chars() {
        if inside {
            inside = c != '>';
        } else if c == '<' {
            inside = true;
        } else {
            out.push(c);
        }
    }
    out
}

#[test]
fn markup_that_is_not_closed_is_a_scan_error() {
    let html = "<p>a</p><pre><code>x</code></pre><p class=\"b";
    let e = highlight_document(html, &HighlightConfig::new()).unwrap_err();
    assert_eq!(e.kind, ErrorKind::Scan);
    assert_eq!(e.diagnostic, "unterminated markup: <p class=\"b");
    assert_eq!(e.partial_output, "<p>a</p><pre><code>x</code></pre>");
}

#[test]
fn a_failure_keeps_the_text_of_an_open_block() {
    let html = "<p>a</p><pre><code class=\"language-rust\">let x = 1;<b>bold</b></code></pre>";
    let e = highlight_document(html, &HighlightConfig::new()).unwrap_err();
    assert_eq!(e.kind, ErrorKind::StateTransition);
    assert_eq!(e.diagnostic, "Invalid state/event: InCodeBlock | StartTag(b)");
    assert_eq!(e.partial_output, "<p>a</p><pre><code class=\"language-rust\">let x = 1;");
}

#[test]
fn a_failure_keeps_the_blocks_before_it_highlighted() {
    let html = "<pre><code>a &lt; b</code></pre><pre>text</pre>";
    let e = highlight_document(html, &HighlightConfig::new()).unwrap_err();
    assert_eq!(e.kind, ErrorKind::StateTransition);
    assert_eq!(e.diagnostic, "Invalid state/event: SeenPreOpen | Text(text)");
    assert_eq!(e.partial_output, "<pre><code>a &lt; b</code></pre><pre>");
}

#[test]
fn code_outside_a_block_fails_the_document() {
    let e = syntax_highlight("<p>use <code>x</code></p>".to_string()).unwrap_err();
    assert_eq!(e.kind, ErrorKind::StateTransition);
    assert_eq!(e.diagnostic, "Invalid state/event: Outside | StartTag(code)");
    assert_eq!(e.partial_output, "<p>use ");
}

#[test]
fn a_block_that_is_not_closed_stays_as_it_was_read() {
    let html = "<pre><code class=\"language-rust\">fn a() {}";
    let done = highlight_document(html, &HighlightConfig::new()).unwrap();
    assert_eq!(done.html, html);
    assert!(done.faults.is_empty());
}

#[test]
fn a_block_that_is_not_escaped_text_stays_as_it_was_read() {
    let html = "<pre><code class=\"language-rust\">a&nbsp;b <!-- c --> d</code></pre>";
    let done = highlight_document(html, &HighlightConfig::new()).unwrap();
    assert_eq!(done.html, html);
    assert_eq!(done.faults, vec![escaping_fault("a&nbsp;b <!-- c --> d")]);
    assert_eq!(done.faults[0].kind, FaultKind::Escaping);
    assert_eq!(done.faults[0].length, 21);
    let html = "<pre><code>ok</code></pre><pre><code class=\"language-rust\">x & y</code></pre>";
    let done = highlight_document(html, &HighlightConfig::new()).unwrap();
    assert_eq!(done.html, html);
    assert_eq!(done.faults, vec![escaping_fault("x & y")]);
}

#[test]
fn a_plain_block_is_escaped_once() {
    let html = "<pre><code>if a &lt; b &amp;&amp; c &gt; d { &quot;x&quot;; &#39;y&#39; }</code></pre>";
    assert_eq!(syntax_highlight(html.to_string()).unwrap(), html);
    let html = "<pre><code>a > b &apos;c&apos; &#x22;d&#x22;</code></pre>";
    assert_eq!(
        syntax_highlight(html.to_string()).unwrap(),
        "<pre><code>a &gt; b &#39;c&#39; &quot;d&quot;</code></pre>"
    );
}

#[test]
fn an_unsupported_language_is_written_like_no_language() {
    let with = "<pre><code class=\"language-nosuchlanguage\">a &lt; b\nc</code></pre>";
    let without = "<pre><code>a &lt; b\nc</code></pre>";
    let config = HighlightConfig::new();
    assert_eq!(highlight_document(with, &config).unwrap().html, with);
    assert_eq!(highlight_document(without, &config).unwrap().html, without);
}

#[test]
fn a_single_python_block_keeps_its_code() {
    let code = "def f(x):\n    return x * 2 if x else None\n";
    let html = format!("<pre><code class=\"language-python\">{}</code></pre>", code);
    let done = highlight_document(&html, &HighlightConfig::new()).unwrap();
    assert!(done.html.contains("<span class=\"c-"));
    assert!(done.html.starts_with("<pre><code class=\"language-python\"><span"));
    assert!(done.html.ends_with("</span></code></pre>"));
    assert_eq!(strip_tags(&done.html), code);
    assert!(done.faults.is_empty());
}

#[test]
fn highlighting_changes_the_wrapping_and_not_the_escaped_text() {
    let html = "<pre><code class=\"language-rust\">if a &lt; b &amp;&amp; c { &quot;s&quot; }\n</code></pre>";
    let done = highlight_document(html, &HighlightConfig::new()).unwrap();
    assert_ne!(done.html, html);
    assert_eq!(strip_tags(&done.html), strip_tags(html));
    assert_eq!(strip_tags(&done.html), "if a &lt; b &amp;&amp; c { &quot;s&quot; }\n");
}

#[test]
fn the_rest_of_the_document_is_unchanged_around_a_block() {
    let before = "<!DOCTYPE html>\n<h1 id='x'>T</h1>\n<p>a &nbsp; b</p>\n<pre><code class=\"language-rust\">";
    let after = "</code></pre>\n<p>z</p><br/>\n";
    let html = format!("{}let x = 1;{}", before, after);
    let done = highlight_document(&html, &HighlightConfig::new()).unwrap();
    assert!(done.html.starts_with(before));
    assert!(done.html.ends_with(after));
    let middle = &done.html[before.len()..done.html.len() - after.len()];
    assert_eq!(strip_tags(middle), "let x = 1;");
}

#[test]
fn the_class_prefix_is_put_before_every_category() {
    let html = "<pre><code class=\"language-rust\">let x = 1;</code></pre>";
    let plain = highlight_document(html, &HighlightConfig::new()).unwrap().html;
    let config = HighlightConfig { class_prefix: "hl-".to_string() };
    let prefixed = highlight_document(html, &config).unwrap().html;
    assert!(plain.contains("<span class=\"c-"));
    assert_eq!(prefixed, plain.replace("<span class=\"c-", "<span class=\"hl-c-"));
}

#[test]
fn documents_do_not_depend_on_each_other_or_on_their_order() {
    let a = "<p>a</p>".to_string();
    let b = "<pre><code class=\"language-rust\">fn b() {}</code></pre>".to_string();
    let c = "<p>broken</code>".to_string();
    let d = "<pre><code>d</code></pre>".to_string();
    let config = HighlightConfig::new();
    let forward = highlight_documents(&vec![a.clone(), b.clone(), c.clone(), d.clone()], &config);
    let backward = highlight_documents(&vec![d.clone(), c.clone(), b.clone(), a.clone()], &config);
    assert_eq!(forward.len(), 4);
    assert_eq!(backward.len(), 4);
    for k in 0..4 {
        assert_eq!(forward[k], backward[3 - k]);
    }
    assert_eq!(forward[0], highlight_document(&a, &config));
    assert_eq!(forward[1], highlight_document(&b, &config));
    assert_eq!(forward[2], highlight_document(&c, &config));
    assert_eq!(forward[3], highlight_document(&d, &config));
    assert_eq!(forward[0].as_ref().unwrap().html, a);
    assert!(forward[1].is_ok());
    assert_eq!(forward[2].as_ref().unwrap_err().kind, ErrorKind::StateTransition);
    assert_eq!(forward[3].as_ref().unwrap().html, d);
    assert_eq!(highlight_documents(&vec![], &config), vec![]);
}

#[test]
fn process_events_takes_events_that_were_not_scanned() {
    let events = vec![
        HtmlEvent::StartTag { name: "pre".to_string(), attributes: vec![], raw: "<PRE>".to_string() },
        HtmlEvent::StartTag { name: "code".to_string(), attributes: vec![], raw: "<CODE>".to_string() },
        HtmlEvent::Text("a &lt; ".to_string()),
        HtmlEvent::Text("b".to_string()),
        HtmlEvent::EndTag { name: "code".to_string(), raw: "</CODE>".to_string() },
        HtmlEvent::EndTag { name: "pre".to_string(), raw: "</PRE>".to_string() },
    ];
    let done = process_events(events, &HighlightConfig::new()).unwrap();
    assert_eq!(done.html, "<PRE><CODE>a &lt; b</CODE></PRE>");
    let e = process_events(
        vec![HtmlEvent::Text("a".to_string()), HtmlEvent::Error("why".to_string())],
        &HighlightConfig::new(),
    )
    .unwrap_err();
    assert_eq!((e.kind, e.diagnostic.as_str(), e.partial_output.as_str()), (ErrorKind::Scan, "why", "a"));
}

#[test]
fn highlight_blocks_leaves_out_what_is_not_escaped() {
    let blocks = vec![
        PlacedBlock { block: CodeBlock { language: None, raw_text: "a &lt; b".to_string() }, position: 3 },
        PlacedBlock { block: CodeBlock { language: None, raw_text: "a < b".to_string() }, position: 8 },
        PlacedBlock { block: CodeBlock { language: None, raw_text: String::new() }, position: 12 },
    ];
    let (placed, faults) = highlight_blocks(&blocks);
    assert_eq!(
        placed,
        vec![
            PlacedHighlight { block: HighlightedBlock { lines: vec![vec![token("a < b", "")]] }, position: 3 },
            PlacedHighlight { block: HighlightedBlock { lines: vec![] }, position: 12 },
        ]
    );
    assert_eq!(faults, vec![escaping_fault("a < b")]);
}

#[test]
fn code_close_right_after_pre_fails_the_document() {
    let e = syntax_highlight("<h1>t</h1><pre></code></pre>".to_string()).unwrap_err();
    assert_eq!(e.kind, ErrorKind::StateTransition);
    assert_eq!(e.diagnostic, "Invalid state/event: SeenPreOpen | EndTag(code)");
    assert_eq!(e.partial_output, "<h1>t</h1><pre>");
}

#[test]
fn a_second_run_reads_the_text_of_the_first() {
    let code = "if a < b && c > 'd' { \"e\" }\n";
    let config = HighlightConfig::new();
    let html = format!("<pre><code class=\"language-rust\">{}</code></pre>", escape_text(code));
    let first = highlight_document(&html, &config).unwrap().html;
    let content = &first["<pre><code class=\"language-rust\">".len()..first.len() - "</code></pre>".len()];
    let carried = strip_tags(content);
    assert_eq!(carried, escape_text(code));
    let read_back = unescape_text(&carried).unwrap();
    assert_eq!(read_back, code);
    let (block, fault) = highlight(&read_back, Some("rust"));
    assert_eq!(fault, None);
    assert_eq!(render_block(&block, ""), content);
}

fn remove_spans(markup: &str) -> String {
    let mut out = String::new();
    let mut rest = markup;
    loop {
        let open = rest.find("<span class=\"");
        let close = rest.find("</span>");
        match (open, close) {
            (Some(o), c) if c.map_or(true, |c| o < c) => {
                out.push_str(&rest[..o]);
                let end = rest[o..].find("\">").unwrap() + o + 2;
                rest = &rest[end..];
            }
            (_, Some(c)) => {
                out.push_str(&rest[..c]);
                rest = &rest[c + "</span>".len()..];
            }
            _ => {
                out.push_str(rest);
                return out;
            }
        }
    }
}

#[test]
fn a_whole_page_changes_only_inside_its_code_blocks() {
    let html = "<!DOCTYPE html>\n<html lang=\"en\">\n<head>\n<meta charset=\"utf-8\" />\n\
<title>Sn\u{f6}rkel &amp; S\u{f6}hne</title>\n</head>\n<body>\n<!-- generated -->\n\
<h1 id=\"intro\">Intro &lt;1&gt;</h1>\n<p>Some <em>text</em> with <a href=\"x?a=1&amp;b=2\">a link</a>,\n\
an image <img src=\"a.png\" alt=\"a > b\" /> and a break<br />here.</p>\n\
<ul>\n<li>one</li>\n<li>two \u{2713}</li>\n</ul>\n\
<pre><code class=\"language-rust\">use std::fmt;\n\n/// Doc &amp; more.\nfn main() {\n    \
let s = &quot;a &lt; b&quot;; // c\n    println!(&quot;{}&quot;, s.len() &gt; 1);\n}\n</code></pre>\n\
<p>Between.</p>\n\
<pre><code class=\"language-python\">def f(x):\n    return x &lt; 2 and &#39;y&#39; or &quot;z&quot;\n</code></pre>\n\
<pre><code>plain &amp; simple\n</code></pre>\n\
<pre><code class=\"language-nosuchlanguage\">\u{e4}\u{f6}\u{fc} &lt;b&gt;\n</code></pre>\n\
<pre><code class=\"lang-js\"></code></pre>\n\
</body>\n</html>\n";
    let done = highlight_document(html, &HighlightConfig::new()).unwrap();
    assert!(done.faults.is_empty());
    assert_ne!(done.html, html);
    assert_eq!(remove_spans(&done.html), html);
    assert_eq!(done.html.matches("<span class=\"c-").count(), done.html.matches("</span>").count());
    assert!(done.html.contains("<pre><code>plain &amp; simple\n</code></pre>"));
    assert!(done.html.contains("<pre><code class=\"lang-js\"></code></pre>"));
    assert!(done.html.contains("\">fn</span>"));
    assert!(done.html.contains("\">def</span>"));
    let again = highlight_document(html, &HighlightConfig::new()).unwrap();
    assert_eq!(done, again);
}
