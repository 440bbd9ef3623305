use code_highlight::event::{Attribute, HtmlEvent};
use code_highlight::machine::{
    extract_code_blocks, parse_language, passes_over, CodeBlock, Diagnostic, EventKind, PlacedBlock, State,
    StateKind,
};

fn start(name: &str, class: Option<&str>) -> HtmlEvent {
    HtmlEvent::StartTag {
        name: name.to_string(),
        attributes: class
            .iter()
            .map(|c| Attribute { name: "class".to_string(), value: c.to_string() })
            .collect(),
        raw: format!("<{}>", name),
    }
}

fn end(name: &str) -> HtmlEvent {
    HtmlEvent::EndTag { name: name.to_string(), raw: format!("</{}>", name) }
}

fn text(t: &str) -> HtmlEvent {
    HtmlEvent::Text(t.to_string())
}

fn failed(state: StateKind, event: EventKind, subject: &str) -> State {
    State::Failed(Diagnostic { state, event, subject: subject.to_string() })
}

fn open(text: &str, language: Option<&str>) -> State {
    State::InCodeBlock { text: text.to_string(), language: language.map(|l| l.to_string()) }
}

#[test]
fn outside_takes_pre_and_nothing_else() {
    assert_eq!(State::Outside.next(&start("pre", None)), (State::SeenPreOpen, None));
    assert_eq!(
        State::Outside.next(&start("p", None)),
        (failed(StateKind::Outside, EventKind::StartTag, "p"), None)
    );
    assert_eq!(
        State::Outside.next(&end("p")),
        (failed(StateKind::Outside, EventKind::EndTag, "p"), None)
    );
    assert_eq!(
        State::Outside.next(&text("hi")),
        (failed(StateKind::Outside, EventKind::Text, "hi"), None)
    );
    assert_eq!(
        State::Outside.next(&end("code")),
        (failed(StateKind::Outside, EventKind::EndTag, "code"), None)
    );
    assert_eq!(
        State::Outside.next(&end("pre")),
        (failed(StateKind::Outside, EventKind::EndTag, "pre"), None)
    );
    assert_eq!(
        State::Outside.next(&start("code", None)),
        (failed(StateKind::Outside, EventKind::StartTag, "code"), None)
    );
    assert_eq!(
        State::Outside.next(&HtmlEvent::Error("why".to_string())),
        (failed(StateKind::Outside, EventKind::Error, "why"), None)
    );
}

#[test]
fn the_run_passes_over_what_has_no_part_in_a_block() {
    assert!(passes_over(&text("hi")));
    assert!(passes_over(&text("")));
    assert!(passes_over(&start("p", None)));
    assert!(passes_over(&end("p")));
    assert!(passes_over(&start("Pre", None)));
    assert!(!passes_over(&start("pre", None)));
    assert!(!passes_over(&end("pre")));
    assert!(!passes_over(&start("code", None)));
    assert!(!passes_over(&end("code")));
    assert!(!passes_over(&HtmlEvent::Error("why".to_string())));
}

#[test]
fn the_run_hands_stray_block_tags_to_the_machine() {
    let events = vec![start("p", None), text("a"), end("code"), end("p")];
    let extraction = extract_code_blocks(&events);
    assert_eq!(extraction.state, failed(StateKind::Outside, EventKind::EndTag, "code"));
    assert_eq!(extraction.consumed, 2);
    assert_eq!(extraction.blocks, vec![]);
    let events = vec![text("a"), HtmlEvent::Error("why".to_string())];
    let extraction = extract_code_blocks(&events);
    assert_eq!(extraction.state, failed(StateKind::Outside, EventKind::Error, "why"));
    assert_eq!(extraction.consumed, 1);
}

#[test]
fn the_run_passes_over_nothing_inside_a_block() {
    let events = vec![start("pre", None), text("\n"), start("code", None)];
    let extraction = extract_code_blocks(&events);
    assert_eq!(extraction.state, failed(StateKind::SeenPreOpen, EventKind::Text, "\n"));
    assert_eq!(extraction.consumed, 1);
    let events = vec![start("pre", None), start("code", None), end("code"), start("p", None)];
    let extraction = extract_code_blocks(&events);
    assert_eq!(extraction.state, failed(StateKind::AwaitingPreClose, EventKind::StartTag, "p"));
    assert_eq!(extraction.consumed, 3);
    assert_eq!(extraction.blocks.len(), 1);
}

#[test]
fn code_after_pre_opens_a_block() {
    assert_eq!(
        State::SeenPreOpen.next(&start("code", Some("language-rust"))),
        (open("", Some("rust")), None)
    );
    assert_eq!(State::SeenPreOpen.next(&start("code", None)), (open("", None), None));
}

#[test]
fn anything_but_code_after_pre_fails() {
    assert_eq!(
        State::SeenPreOpen.next(&text("\n")),
        (failed(StateKind::SeenPreOpen, EventKind::Text, "\n"), None)
    );
    assert_eq!(
        State::SeenPreOpen.next(&start("pre", None)),
        (failed(StateKind::SeenPreOpen, EventKind::StartTag, "pre"), None)
    );
    assert_eq!(
        State::SeenPreOpen.next(&end("pre")),
        (failed(StateKind::SeenPreOpen, EventKind::EndTag, "pre"), None)
    );
}

#[test]
fn text_in_a_block_is_gathered() {
    let (state, block) = open("ab", Some("c")).next(&text("cd"));
    assert_eq!(state, open("abcd", Some("c")));
    assert_eq!(block, None);
    let (state, block) = state.next(&text(""));
    assert_eq!(state, open("abcd", Some("c")));
    assert_eq!(block, None);
}

#[test]
fn code_close_completes_the_block() {
    assert_eq!(
        open("x &lt; y", Some("c")).next(&end("code")),
        (
            State::AwaitingPreClose,
            Some(CodeBlock { language: Some("c".to_string()), raw_text: "x &lt; y".to_string() })
        )
    );
    assert_eq!(
        open("", None).next(&end("code")),
        (State::AwaitingPreClose, Some(CodeBlock { language: None, raw_text: String::new() }))
    );
}

#[test]
fn tags_in_a_block_fail() {
    assert_eq!(
        open("x", None).next(&start("span", None)),
        (failed(StateKind::InCodeBlock, EventKind::StartTag, "span"), None)
    );
    assert_eq!(
        open("x", None).next(&end("pre")),
        (failed(StateKind::InCodeBlock, EventKind::EndTag, "pre"), None)
    );
    assert_eq!(
        open("x", None).next(&HtmlEvent::Error("unterminated markup: <".to_string())),
        (failed(StateKind::InCodeBlock, EventKind::Error, "unterminated markup: <"), None)
    );
}

#[test]
fn pre_close_ends_the_block() {
    assert_eq!(State::AwaitingPreClose.next(&end("pre")), (State::Outside, None));
    assert_eq!(
        State::AwaitingPreClose.next(&text(" ")),
        (failed(StateKind::AwaitingPreClose, EventKind::Text, " "), None)
    );
    assert_eq!(
        State::AwaitingPreClose.next(&end("code")),
        (failed(StateKind::AwaitingPreClose, EventKind::EndTag, "code"), None)
    );
}

#[test]
fn a_failed_machine_stays_as_it_is() {
    let stuck = failed(StateKind::SeenPreOpen, EventKind::EndTag, "code");
    for event in [start("pre", None), end("pre"), text("x"), HtmlEvent::Error("e".to_string())] {
        assert_eq!(stuck.clone().next(&event), (stuck.clone(), None));
    }
}

#[test]
fn diagnostic_quotes_the_start_of_a_long_text() {
    let long = "0123456789012345678901234567890123456789";
    assert_eq!(
        State::SeenPreOpen.next(&text(long)),
        (failed(StateKind::SeenPreOpen, EventKind::Text, "01234567890123456789012345678901"), None)
    );
}

#[test]
fn diagnostic_in_words() {
    let d = Diagnostic {
        state: StateKind::InCodeBlock,
        event: EventKind::StartTag,
        subject: "span".to_string(),
    };
    assert_eq!(d.message(), "Invalid state/event: InCodeBlock | StartTag(span)");
    let d = Diagnostic {
        state: StateKind::AwaitingPreClose,
        event: EventKind::Text,
        subject: String::new(),
    };
    assert_eq!(d.message(), "Invalid state/event: AwaitingPreClose | Text()");
    let d = Diagnostic { state: StateKind::Outside, event: EventKind::Error, subject: "r".to_string() };
    assert_eq!(d.message(), "Invalid state/event: Outside | Error(r)");
    let d = Diagnostic { state: StateKind::Failed, event: EventKind::EndTag, subject: "p".to_string() };
    assert_eq!(d.message(), "Invalid state/event: Failed | EndTag(p)");
    let d = Diagnostic {
        state: StateKind::SeenPreOpen,
        event: EventKind::EndTag,
        subject: "code".to_string(),
    };
    assert_eq!(d.message(), "Invalid state/event: SeenPreOpen | EndTag(code)");
}

fn attributes(pairs: &[(&str, &str)]) -> Vec<Attribute> {
    pairs.iter().map(|(n, v)| Attribute { name: n.to_string(), value: v.to_string() }).collect()
}

#[test]
fn language_is_the_class_without_its_prefix() {
    assert_eq!(parse_language(&attributes(&[("class", "language-python")])), Some("python".to_string()));
    assert_eq!(parse_language(&attributes(&[("class", "lang-js")])), Some("js".to_string()));
    assert_eq!(parse_language(&attributes(&[("class", "rust")])), Some("rust".to_string()));
    assert_eq!(
        parse_language(&attributes(&[("id", "x"), ("class", "language-c++"), ("class", "language-d")])),
        Some("c++".to_string())
    );
}

#[test]
fn language_is_the_first_word_of_the_class() {
    assert_eq!(
        parse_language(&attributes(&[("class", "language-haskell numberLines")])),
        Some("haskell".to_string())
    );
    assert_eq!(parse_language(&attributes(&[("class", "sourceCode rust")])), Some("sourceCode".to_string()));
}

#[test]
fn no_class_or_no_identifier_is_no_language() {
    assert_eq!(parse_language(&attributes(&[])), None);
    assert_eq!(parse_language(&attributes(&[("id", "language-rust")])), None);
    assert_eq!(parse_language(&attributes(&[("class", "")])), None);
    assert_eq!(parse_language(&attributes(&[("class", "language-")])), None);
    assert_eq!(parse_language(&attributes(&[("class", "lang-")])), None);
    assert_eq!(parse_language(&attributes(&[("class", " rust")])), None);
    assert_eq!(parse_language(&attributes(&[("Class", "rust")])), None);
}

#[test]
fn language_prefix_is_taken_off_once() {
    assert_eq!(
        parse_language(&attributes(&[("class", "language-lang-x")])),
        Some("lang-x".to_string())
    );
    assert_eq!(parse_language(&attributes(&[("class", "languag")])), Some("languag".to_string()));
}

#[test]
fn extraction_finds_the_blocks_and_their_places() {
    let events = vec![
        start("p", None),
        text("hi"),
        end("p"),
        start("pre", None),
        start("code", Some("language-rust")),
        text("fn a()"),
        text("{}"),
        end("code"),
        end("pre"),
        text("\n"),
        start("pre", None),
        start("code", None),
        end("code"),
        end("pre"),
    ];
    let extraction = extract_code_blocks(&events);
    assert_eq!(extraction.state, State::Outside);
    assert_eq!(extraction.consumed, 14);
    assert_eq!(
        extraction.blocks,
        vec![
            PlacedBlock {
                block: CodeBlock { language: Some("rust".to_string()), raw_text: "fn a(){}".to_string() },
                position: 7,
            },
            PlacedBlock { block: CodeBlock { language: None, raw_text: String::new() }, position: 12 },
        ]
    );
}

#[test]
fn extraction_of_no_events() {
    let extraction = extract_code_blocks(&vec![]);
    assert_eq!(extraction.state, State::Outside);
    assert_eq!(extraction.consumed, 0);
    assert_eq!(extraction.blocks, vec![]);
}

#[test]
fn extraction_stops_at_the_event_that_fails() {
    let events = vec![
        start("pre", None),
        start("code", None),
        text("a"),
        end("code"),
        end("pre"),
        start("pre", None),
        end("code"),
        start("pre", None),
        start("code", None),
        text("b"),
        end("code"),
        end("pre"),
    ];
    let extraction = extract_code_blocks(&events);
    assert_eq!(extraction.state, failed(StateKind::SeenPreOpen, EventKind::EndTag, "code"));
    assert_eq!(extraction.consumed, 6);
    assert_eq!(
        extraction.blocks,
        vec![PlacedBlock { block: CodeBlock { language: None, raw_text: "a".to_string() }, position: 3 }]
    );
}

#[test]
fn extraction_may_end_inside_a_block() {
    let events = vec![start("pre", None), start("code", Some("lang-c")), text("int x;")];
    let extraction = extract_code_blocks(&events);
    assert_eq!(extraction.state, open("int x;", Some("c")));
    assert_eq!(extraction.consumed, 3);
    assert_eq!(extraction.blocks, vec![]);
}
