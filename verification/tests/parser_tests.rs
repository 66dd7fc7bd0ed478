use std::borrow::Cow;

use pulldown_cmark::{Event, Parser, Tag, html};

use wellington::events::{MdEvent, MdTag};
use wellington::{ParsedMarkdown, SidenoteParser, SidenoteError, transform_events};

fn tag_to_md(tag: Tag) -> MdTag {
    match tag {
        Tag::Paragraph => MdTag::Paragraph,
        Tag::Rule => MdTag::Rule,
        Tag::Header(level) => MdTag::Header(level),
        Tag::BlockQuote => MdTag::BlockQuote,
        Tag::CodeBlock(lang) => MdTag::CodeBlock(lang.to_string()),
        Tag::List(start) => MdTag::List(start),
        Tag::Item => MdTag::Item,
        Tag::FootnoteDefinition(name) => MdTag::FootnoteDefinition(name.to_string()),
        Tag::Table(_) => MdTag::Table,
        Tag::TableHead => MdTag::TableHead,
        Tag::TableRow => MdTag::TableRow,
        Tag::TableCell => MdTag::TableCell,
        Tag::Emphasis => MdTag::Emphasis,
        Tag::Strong => MdTag::Strong,
        Tag::Code => MdTag::Code,
        Tag::Link(url, title) => MdTag::Link(url.to_string(), title.to_string()),
        Tag::Image(url, title) => MdTag::Image(url.to_string(), title.to_string()),
    }
}

fn tag_back(tag: MdTag) -> Tag<'static> {
    match tag {
        MdTag::Paragraph => Tag::Paragraph,
        MdTag::Rule => Tag::Rule,
        MdTag::Header(level) => Tag::Header(level),
        MdTag::BlockQuote => Tag::BlockQuote,
        MdTag::CodeBlock(lang) => Tag::CodeBlock(Cow::Owned(lang)),
        MdTag::List(start) => Tag::List(start),
        MdTag::Item => Tag::Item,
        MdTag::FootnoteDefinition(name) => Tag::FootnoteDefinition(Cow::Owned(name)),
        MdTag::Table => Tag::Table(Vec::new()),
        MdTag::TableHead => Tag::TableHead,
        MdTag::TableRow => Tag::TableRow,
        MdTag::TableCell => Tag::TableCell,
        MdTag::Emphasis => Tag::Emphasis,
        MdTag::Strong => Tag::Strong,
        MdTag::Code => Tag::Code,
        MdTag::Link(url, title) => Tag::Link(Cow::Owned(url), Cow::Owned(title)),
        MdTag::Image(url, title) => Tag::Image(Cow::Owned(url), Cow::Owned(title)),
    }
}

fn event_to_md(event: Event) -> MdEvent {
    match event {
        Event::Start(tag) => MdEvent::Start(tag_to_md(tag)),
        Event::End(tag) => MdEvent::End(tag_to_md(tag)),
        Event::Text(text) => MdEvent::Text(text.to_string()),
        Event::Html(text) => MdEvent::Html(text.to_string()),
        Event::InlineHtml(text) => MdEvent::InlineHtml(text.to_string()),
        Event::FootnoteReference(name) => MdEvent::FootnoteReference(name.to_string()),
        Event::SoftBreak => MdEvent::SoftBreak,
        Event::HardBreak => MdEvent::HardBreak,
    }
}

fn event_back(event: MdEvent) -> Event<'static> {
    match event {
        MdEvent::Start(tag) => Event::Start(tag_back(tag)),
        MdEvent::End(tag) => Event::End(tag_back(tag)),
        MdEvent::Text(text) => Event::Text(Cow::Owned(text)),
        MdEvent::Html(text) => Event::Html(Cow::Owned(text)),
        MdEvent::InlineHtml(text) => Event::InlineHtml(Cow::Owned(text)),
        MdEvent::FootnoteReference(name) => Event::FootnoteReference(Cow::Owned(name)),
        MdEvent::SoftBreak => Event::SoftBreak,
        MdEvent::HardBreak => Event::HardBreak,
    }
}

fn md_events(md: &str) -> Vec<MdEvent> {
    Parser::new(md).map(event_to_md).collect()
}

fn html_from_markdown(md: &str, link_prefix: &str) -> Result<ParsedMarkdown, SidenoteError> {
    let (events, title) = transform_events(md_events(md), link_prefix.to_string())?;
    let mut article = "<article>".to_string();
    for event in events {
        html::push_html(&mut article, std::iter::once(event_back(event)));
    }
    article.push_str("</section></article>");
    Ok(ParsedMarkdown { html: article, title })
}

#[test]
fn check_catch_sidenote_errors() {
    let markdown_str = r#"
hello
=====

Here is some text with { badly formatted {sidenotes}.

* alpha
* beta

"#;

    let html_buf = html_from_markdown(markdown_str, "");
    assert!(html_buf.is_err());
}

#[test]
fn check_fail_nested_code_sidenote() {
    let markdown_str = r#"
hello
=====

Here is some text with { a sidenote `and code nested`
    }"#;

    assert!(html_from_markdown(markdown_str, "").is_err());
}

#[test]
fn check_nested_sidenote_code() {
    let markdown_str = r#"
hello
=====

Here is some text with ` code {and curly braces nested`
"#;
    assert_eq!(
        html_from_markdown(markdown_str, "").expect("Should succeed").html,
        r#"<article>
<h1>hello</h1><section>
<p>Here is some text with <code>code {and curly braces nested</code></p>
</section></article>"#
    );
}

#[test]
fn check_multi_line_sidenotes() {
    let markdown_str = r#"
hello
=====

Here is some text with { a sidenote

spanning multiple lines, which is also supported

}.

* alpha
* beta

"#;

    let html_buf = html_from_markdown(markdown_str, "").expect("Should succeed");
    assert_eq!(
        html_buf.html,
        r#"<article>
<h1>hello</h1><section>
<p>Here is some text with <span> a sidenote<br /><br />
spanning multiple lines, which is also supported<br /><br />
</span>.</p>
<ul>
<li>alpha</li>
<li>beta</li>
</ul>
</section></article>"#
    );
}

#[test]
fn parser_check_to_markdown() {
    let markdown_str = r#"
hello
=====

Here is some text with {sidenotes}.

* alpha
* beta

And also some `inline_code` as well as

```
code_with{
    curly_braces();
}
```

"#;
    let html_buf = html_from_markdown(markdown_str, "").expect("Shouldn't fail!");

    assert_eq!(
        html_buf.html,
        r#"<article>
<h1>hello</h1><section>
<p>Here is some text with <span>sidenotes</span>.</p>
<ul>
<li>alpha</li>
<li>beta</li>
</ul>
<p>And also some <code>inline_code</code> as well as</p>
<pre><code class="code">code_with{
    curly_braces();
}
</code></pre>
</section></article>"#
    );
}

#[test]
fn can_get_title() {
    let md = r#"
hello & hello
=====

Here is some text with {sidenotes}.
"#;
    let mut parser = SidenoteParser::new(md_events(md));
    loop {
        match parser.next_event() {
            Some(_) => {},
            None => break,
        }
    }
    assert_eq!(parser.title.expect("Should work, even with ampersands!"), "hello & hello")
}

#[test]
fn can_parse_image() {
    let md = r#"
hello
=====

![image](https://image)
"#;
    assert_eq!(
        html_from_markdown(md, "").expect("should work!").html,
        r#"<article>
<h1>hello</h1><section>
<p><img src="https://image" alt="" /><br /><span class="image-caption">image</span></p>
</section></article>"#
    );
}

#[test]
fn check_absolute_links() {
    assert!(SidenoteParser::link_is_relative("link.jpg"));
    assert!(SidenoteParser::link_is_relative("etc/link.jpg"));
    assert!(!SidenoteParser::link_is_relative("/etc/link.jpg"));
    assert!(!SidenoteParser::link_is_relative("https://link.jpg"));
}

#[test]
fn can_rewrite_links() {
    let md = r#"
hello
=====

[link](relative-link)

![image](https://image)

![image](relative-image.jpg)
"#;
    assert_eq!(
        html_from_markdown(md, "/prefix/").expect("should work!").html,
        r#"<article>
<h1>hello</h1><section>
<p><a href="/prefix/relative-link">link</a></p>
<p><img src="https://image" alt="" /><br /><span class="image-caption">image</span></p>
<p><img src="/prefix/relative-image.jpg" alt="" /><br /><span class="image-caption">image</span></p>
</section></article>"#
    );
}

#[test]
fn no_title_without_h1() {
    let md = "just a paragraph, no heading at all\n";
    let parsed = html_from_markdown(md, "").expect("should work!");
    assert!(parsed.title.is_none());
}

#[test]
fn first_h1_wins() {
    let md = "first\n=====\n\nbody\n\nsecond\n======\n";
    let parsed = html_from_markdown(md, "").expect("should work!");
    assert_eq!(parsed.title.expect("a title"), "first");
}

#[test]
fn unclosed_sidenote_at_end_is_an_error() {
    let md = "an { open sidenote with no close\n";
    match html_from_markdown(md, "") {
        Err(SidenoteError::NotMatched(_)) => {},
        _ => panic!("expected a NotMatched error"),
    }
}
