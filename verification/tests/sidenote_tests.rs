use wellington::events::MdEvent;
use wellington::{SidenoteError, SidenoteParser, compile_sidenotes};

fn text(s: &str) -> MdEvent {
    MdEvent::Text(s.to_string())
}

fn markup(s: &str) -> MdEvent {
    MdEvent::InlineHtml(s.to_string())
}

#[test]
fn can_get_first_sidenote() {
    let text_in = "here is some text {with sidenotes}";
    let mut parser = SidenoteParser::new(Vec::new());
    assert_eq!(
        parser.parse_first_sidenote(text_in.to_string()),
        MdEvent::Text("here is some text ".to_string())
    );
    assert_eq!(parser.remaining_text, "{with sidenotes}");
}

#[test]
fn can_parse_remaining() {
    let mut parser = SidenoteParser::new(Vec::new());
    parser.remaining_text = String::from("some remaining { text");
    let mut event = parser.parse_remaining_text().unwrap();
    assert_eq!(event, MdEvent::Text("some remaining ".to_string()));
    event = parser.parse_remaining_text().unwrap();
    assert_eq!(event, MdEvent::InlineHtml("<span>".to_string()));
    event = parser.parse_remaining_text().unwrap();
    assert_eq!(event, MdEvent::Text(" text".to_string()));
    assert_eq!(parser.remaining_text, "");
}

#[test]
fn compile_splits_balanced_fragment() {
    let events = compile_sidenotes("a note {with an aside} after").expect("balanced");
    assert_eq!(
        events,
        vec![
            text("a note "),
            markup("<span>"),
            text("with an aside"),
            markup("</span>"),
            text(" after"),
        ]
    );
}

#[test]
fn compile_round_trip_rebuilds_fragment() {
    let fragment = "a{b}c{d}e";
    let events = compile_sidenotes(fragment).expect("balanced");
    let mut rebuilt = String::new();
    for event in events {
        match event {
            MdEvent::Text(t) => rebuilt.push_str(&t),
            MdEvent::InlineHtml(h) => {
                if h == "<span>" {
                    rebuilt.push('{');
                } else {
                    rebuilt.push('}');
                }
            },
            _ => panic!("unexpected event"),
        }
    }
    assert_eq!(rebuilt, fragment);
}

#[test]
fn compile_empty_fragment() {
    let events = compile_sidenotes("").expect("empty is balanced");
    assert_eq!(events, vec![text("")]);
}

#[test]
fn compile_adjacent_delimiters() {
    let events = compile_sidenotes("{}").expect("balanced");
    assert_eq!(events, vec![text(""), markup("<span>"), markup("</span>")]);
}

#[test]
fn compile_unclosed_open_fails_not_matched() {
    match compile_sidenotes("a { b") {
        Err(SidenoteError::NotMatched(context)) => {
            assert_eq!(context, "a { b");
        },
        _ => panic!("expected NotMatched"),
    }
}

#[test]
fn compile_unmatched_close_fails_not_matched() {
    match compile_sidenotes("a } b") {
        Err(SidenoteError::NotMatched(context)) => {
            assert_eq!(context, "a } b");
        },
        _ => panic!("expected NotMatched"),
    }
}

#[test]
fn compile_nested_open_fails_nested() {
    match compile_sidenotes("x { y { z") {
        Err(SidenoteError::Nested(first, second)) => {
            assert_eq!(first, "x { y { z");
            assert_eq!(second, "x { y { z");
        },
        _ => panic!("expected Nested"),
    }
}

#[test]
fn excerpts_respect_multibyte_characters() {
    // the window around the offending delimiter is taken on character
    // boundaries, so multi-byte text must survive whole
    let fragment = "héllo wörld çà { と未閉じ";
    match compile_sidenotes(fragment) {
        Err(SidenoteError::NotMatched(context)) => {
            assert!(context.contains('{'));
            assert!(context.contains('ö'));
            assert!(context.contains('と'));
        },
        _ => panic!("expected NotMatched"),
    }
}

#[test]
fn excerpt_window_is_bounded() {
    let mut long = String::new();
    for _ in 0..60 {
        long.push('x');
    }
    long.push('{');
    match compile_sidenotes(&long) {
        Err(SidenoteError::NotMatched(context)) => {
            // twenty characters each side of the delimiter at most
            assert_eq!(context.chars().count(), 21);
        },
        _ => panic!("expected NotMatched"),
    }
}

#[test]
fn error_messages_name_the_problem() {
    let not_matched = SidenoteError::NotMatched("near here".to_string());
    assert_eq!(
        not_matched.message(),
        "Error: a sidenote delimiter was not matched: near here"
    );
    let nested = SidenoteError::Nested("one".to_string(), "two".to_string());
    assert_eq!(nested.message(), "Error: encountered a nested sidenote: one / two");
    let template = SidenoteError::Template("boom".to_string());
    assert_eq!(template.message(), "Couldn't render template: boom");
}

#[test]
fn wrapper_check_to_markdown() {
    // drive the sidenote compiler over a raw event stream, leaving every
    // other event untouched, and render the result
    let markdown_str = r#"
hello
=====

Here is some text with {sidenotes}.

* alpha
* beta
"#;
    let mut compiled: Vec<pulldown_cmark::Event> = Vec::new();
    for event in pulldown_cmark::Parser::new(markdown_str) {
        match event {
            pulldown_cmark::Event::Text(text) => {
                for out in compile_sidenotes(&text).expect("balanced") {
                    match out {
                        MdEvent::Text(t) => compiled.push(pulldown_cmark::Event::Text(
                            std::borrow::Cow::Owned(t),
                        )),
                        MdEvent::InlineHtml(h) => compiled.push(
                            pulldown_cmark::Event::InlineHtml(std::borrow::Cow::Owned(h)),
                        ),
                        _ => panic!("unexpected event"),
                    }
                }
            },
            other => compiled.push(other),
        }
    }
    let mut html_buf = String::new();
    pulldown_cmark::html::push_html(&mut html_buf, compiled.into_iter());

    assert_eq!(
        html_buf,
        r#"<h1>hello</h1>
<p>Here is some text with <span>sidenotes</span>.</p>
<ul>
<li>alpha</li>
<li>beta</li>
</ul>
"#
    );
}
