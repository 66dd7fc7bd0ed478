use vstd::prelude::*;
use vstd::math::min;
use vstd::string::StrSliceExecFns;
use vstd::string::StringExecFns;

use crate::events::{EventV, MdEvent, MdTag, TagV, events_view, opt_view};
use crate::sidenote_error::{SidenoteError, SidenoteErrorV};
use crate::sidenotes::{
    find_delim, fwd_context, fwd_excerpt, lemma_unrender_cons, next_delim, span_close, span_open,
    unrender,
};

verus! {

/// The markup that replaces the opening of a code block, carrying the CSS
/// class the rendered page styles it by.
pub open spec fn codeblock_open() -> Seq<char> {
    "<pre><code class=\"code\">"@
}

/// The markup that stands for a paragraph boundary inside an open sidenote.
pub open spec fn br_markup() -> Seq<char> {
    "<br /><br />\n"@
}

/// The markup that closes the document title's heading and opens the body
/// section of the target layout.
pub open spec fn header_close() -> Seq<char> {
    "</h1><section>"@
}

/// The markup that opens an image's caption, placed right after the image
/// itself.
pub open spec fn caption_open() -> Seq<char> {
    "<br /><span class=\"image-caption\">"@
}

/// The cross-event state a transformer carries from one structural event to
/// the next.
#[verifier::ext_equal]
pub struct TStateV {
    pub in_code: bool,
    pub in_side: bool,
    pub in_title: bool,
    pub in_image: bool,
    pub title: Option<Seq<char>>,
    pub open_ctx: Seq<char>,
}

/// The state a transformer starts a document in.
pub open spec fn init_state() -> TStateV {
    TStateV {
        in_code: false,
        in_side: false,
        in_title: false,
        in_image: false,
        title: None,
        open_ctx: Seq::empty(),
    }
}

/// Whether a link destination is relative: it neither carries a scheme
/// separator nor starts from the site root.
pub open spec fn scheme_sep_at(s: Seq<char>, i: int) -> bool {
    &&& 0 <= i
    &&& i + 3 <= s.len()
    &&& s[i] == ':'
    &&& s[i + 1] == '/'
    &&& s[i + 2] == '/'
}

/// The link contains the scheme separator `://` somewhere.
pub open spec fn contains_scheme_sep(s: Seq<char>) -> bool {
    exists|i: int| scheme_sep_at(s, i)
}

/// A relative link: no scheme separator and no leading slash.
pub open spec fn is_relative_link(s: Seq<char>) -> bool {
    !(contains_scheme_sep(s) || (s.len() > 0 && s[0] == '/'))
}

/// What rewriting a link destination yields: relative destinations gain the
/// configured prefix, absolute and root-relative ones pass unchanged.
pub open spec fn spec_rewrite(prefix: Seq<char>, link: Seq<char>) -> Seq<char> {
    if is_relative_link(link) {
        prefix + link
    } else {
        link
    }
}

/// How a code tag, opening or closing, inline or block, is handled: code may
/// not begin or end while a sidenote is open, and otherwise the given event
/// passes while the code flag mirrors the tag.
pub open spec fn code_tag_step(st: TStateV, start: bool, success: EventV) -> Result<
    (Seq<EventV>, TStateV),
    SidenoteErrorV,
> {
    if st.in_side {
        Err(SidenoteErrorV::NotMatched(st.open_ctx))
    } else {
        Ok((seq![success], TStateV { in_code: start, ..st }))
    }
}

/// Drain the buffered tail of a text fragment, one delimiter at a time: an
/// opening delimiter outside a sidenote opens one, a closing delimiter inside
/// one closes it, anything else is emitted as plain text up to the next
/// delimiter; the two remaining delimiter cases are the errors.
pub open spec fn process_rem(st: TStateV, rem: Seq<char>) -> Result<
    (Seq<EventV>, TStateV),
    SidenoteErrorV,
>
    decreases rem.len(),
{
    if rem.len() == 0 {
        Ok((seq![], st))
    } else if rem[0] == '{' {
        if st.in_side {
            Err(SidenoteErrorV::Nested(st.open_ctx, fwd_context(rem)))
        } else {
            let st1 = TStateV { in_side: true, open_ctx: fwd_context(rem), ..st };
            match process_rem(st1, rem.skip(1)) {
                Ok((events, st2)) => Ok((seq![EventV::InlineHtml(span_open())] + events, st2)),
                Err(e) => Err(e),
            }
        }
    } else if rem[0] == '}' {
        if st.in_side {
            let st1 = TStateV { in_side: false, ..st };
            match process_rem(st1, rem.skip(1)) {
                Ok((events, st2)) => Ok((seq![EventV::InlineHtml(span_close())] + events, st2)),
                Err(e) => Err(e),
            }
        } else {
            Err(SidenoteErrorV::NotMatched(fwd_context(rem)))
        }
    } else {
        let i = min(1 + find_delim(rem.skip(1)) as int, rem.len() as int);
        match process_rem(st, rem.skip(i)) {
            Ok((events, st1)) => Ok((seq![EventV::Text(rem.take(i))] + events, st1)),
            Err(e) => Err(e),
        }
    }
}

/// Scan one whole text fragment: the text before the first delimiter is
/// always emitted, even empty, and the rest is drained delimiter by
/// delimiter.
pub open spec fn scan_fragment(st: TStateV, f: Seq<char>) -> Result<
    (Seq<EventV>, TStateV),
    SidenoteErrorV,
> {
    let i = min(find_delim(f) as int, f.len() as int);
    match process_rem(st, f.skip(i)) {
        Ok((events, st1)) => Ok((seq![EventV::Text(f.take(i))] + events, st1)),
        Err(e) => Err(e),
    }
}

/// The title after a text fragment arrives: while the document's first
/// level-1 header is open, its non-empty text fragments accumulate into the
/// captured title.
pub open spec fn capture_title(st: TStateV, t: Seq<char>) -> TStateV {
    if st.in_title && t.len() > 0 {
        TStateV {
            title: Some(
                (match st.title {
                    Some(prev) => prev,
                    None => Seq::empty(),
                }) + t,
            ),
            ..st
        }
    } else {
        st
    }
}

/// The transformer's transition on one input event: what it emits and the
/// state it goes on with.
pub open spec fn step_event(st: TStateV, ev: EventV, prefix: Seq<char>) -> Result<
    (Seq<EventV>, TStateV),
    SidenoteErrorV,
> {
    match ev {
        EventV::Text(t) => {
            let st1 = capture_title(st, t);
            if st.in_code {
                Ok((seq![EventV::Text(t)], st1))
            } else {
                scan_fragment(st1, t)
            }
        },
        EventV::Start(TagV::Code) => code_tag_step(st, true, EventV::Start(TagV::Code)),
        EventV::Start(TagV::CodeBlock(lang)) => code_tag_step(
            st,
            true,
            EventV::InlineHtml(codeblock_open()),
        ),
        EventV::Start(TagV::Paragraph) => if st.in_side {
            Ok((seq![EventV::InlineHtml(br_markup())], st))
        } else {
            Ok((seq![EventV::Start(TagV::Paragraph)], st))
        },
        EventV::Start(TagV::Header(level)) => if level == 1 {
            // only the first level-1 header is captured: once a title is
            // held, later ones pass through without capture
            Ok((seq![EventV::Start(TagV::Header(1))], TStateV { in_title: st.title is None, ..st }))
        } else {
            Ok((seq![EventV::Start(TagV::Header(level))], st))
        },
        EventV::Start(TagV::Image(url, title)) => {
            let rewritten = spec_rewrite(prefix, url);
            Ok(
                (
                    seq![
                        EventV::Start(TagV::Image(rewritten, title)),
                        EventV::End(TagV::Image(rewritten, title)),
                        EventV::InlineHtml(caption_open()),
                    ],
                    TStateV { in_image: true, ..st },
                ),
            )
        },
        EventV::Start(TagV::Link(url, title)) => Ok(
            (seq![EventV::Start(TagV::Link(spec_rewrite(prefix, url), title))], st),
        ),
        EventV::End(TagV::Code) => code_tag_step(st, false, EventV::End(TagV::Code)),
        EventV::End(TagV::CodeBlock(lang)) => code_tag_step(
            st,
            false,
            EventV::End(TagV::CodeBlock(lang)),
        ),
        EventV::End(TagV::Paragraph) => if st.in_side {
            Ok((seq![EventV::Text(Seq::empty())], st))
        } else {
            Ok((seq![EventV::End(TagV::Paragraph)], st))
        },
        EventV::End(TagV::Header(level)) => if level == 1 {
            Ok((seq![EventV::InlineHtml(header_close())], TStateV { in_title: false, ..st }))
        } else {
            Ok((seq![EventV::End(TagV::Header(level))], st))
        },
        EventV::End(TagV::Image(url, title)) => Ok(
            (seq![EventV::InlineHtml(span_close())], TStateV { in_image: false, ..st }),
        ),
        _ => Ok((seq![ev], st)),
    }
}

/// Fold the transformer over a sequence of input events.
pub open spec fn run_events(st: TStateV, events: Seq<EventV>, prefix: Seq<char>) -> Result<
    (Seq<EventV>, TStateV),
    SidenoteErrorV,
>
    decreases events.len(),
{
    if events.len() == 0 {
        Ok((seq![], st))
    } else {
        match step_event(st, events[0], prefix) {
            Ok((out1, st1)) => match run_events(st1, events.skip(1), prefix) {
                Ok((out2, st2)) => Ok((out1 + out2, st2)),
                Err(e) => Err(e),
            },
            Err(e) => Err(e),
        }
    }
}

/// Prepend already-emitted output events to what a scan still yields.
pub open spec fn compose_out(
    emitted: Seq<EventV>,
    rest: Result<(Seq<EventV>, TStateV), SidenoteErrorV>,
) -> Result<(Seq<EventV>, TStateV), SidenoteErrorV> {
    match rest {
        Ok((events, st)) => Ok((emitted + events, st)),
        Err(e) => Err(e),
    }
}

/// An empty captured title counts as no title.
pub open spec fn normalize_title(title: Option<Seq<char>>) -> Option<Seq<char>> {
    match title {
        Some(t) => if t.len() == 0 {
            None
        } else {
            Some(t)
        },
        None => None,
    }
}

/// What transforming one whole document yields: the rewritten event sequence
/// and the captured title, or the error that aborts it. Ending the document
/// with a sidenote still open is an error.
pub open spec fn spec_transform(events: Seq<EventV>, prefix: Seq<char>) -> Result<
    (Seq<EventV>, Option<Seq<char>>),
    SidenoteErrorV,
> {
    match run_events(init_state(), events, prefix) {
        Ok((out, st)) => if st.in_side {
            Err(SidenoteErrorV::NotMatched(st.open_ctx))
        } else {
            Ok((out, normalize_title(st.title)))
        },
        Err(e) => Err(e),
    }
}

/// The transformer that walks the structural events of one Markdown document
/// and rewrites them to support sidenotes, title extraction, code-block
/// exclusion and link rewriting. It works strictly one output event at a
/// time: buffered output events and the unscanned tail of a text fragment are
/// served before the next input event is consulted.
pub struct SidenoteParser {
    /// The input events not yet consumed, kept in reverse document order so
    /// the next one can be taken off the end.
    pub input: Vec<MdEvent>,
    pub link_prefix: String,
    pub in_code_block: bool,
    pub in_sidenote_block: bool,
    pub remaining_text: String,
    pub title: Option<String>,
    pub in_title: bool,
    pub in_image: bool,
    pub remaining_events: Vec<MdEvent>,
    pub open_context: String,
}

impl SidenoteParser {
    /// The cross-event state this transformer currently carries.
    pub open spec fn spec_state(&self) -> TStateV {
        TStateV {
            in_code: self.in_code_block,
            in_side: self.in_sidenote_block,
            in_title: self.in_title,
            in_image: self.in_image,
            title: opt_view(self.title),
            open_ctx: self.spec_open_context(),
        }
    }

    /// The values of the input events this transformer still has to read,
    /// in document order.
    pub open spec fn spec_rest(&self) -> Seq<EventV> {
        events_view(self.input@).reverse()
    }

    /// The configured link prefix.
    pub open spec fn spec_prefix(&self) -> Seq<char> {
        self.link_prefix@
    }

    /// The stored excerpt around the delimiter that opened the current
    /// sidenote.
    pub open spec fn spec_open_context(&self) -> Seq<char> {
        self.open_context@
    }

    /// A fresh transformer over the given input events, in document order.
    pub fn new(input: Vec<MdEvent>) -> (r: SidenoteParser)
        ensures
            r.spec_rest() == events_view(input@),
            r.spec_prefix() == Seq::<char>::empty(),
            r.spec_state() == init_state(),
            r.remaining_text@ == Seq::<char>::empty(),
            r.remaining_events@ == Seq::<MdEvent>::empty(),
    {
        let ghost given = input@;
        let mut source = input;
        let mut reversed: Vec<MdEvent> = Vec::new();
        proof {
            assert(given.take(given.len() as int) =~= given);
            assert(given.skip(given.len() as int).reverse() =~= Seq::<MdEvent>::empty());
        }
        while source.len() > 0
            invariant
                source@.len() <= given.len(),
                source@ == given.take(source@.len() as int),
                reversed@ == given.skip(source@.len() as int).reverse(),
            decreases source.len(),
        {
            let ghost m = source@.len() as int;
            let e = source.pop().unwrap();
            reversed.push(e);
            proof {
                assert(e == given.take(m)[m - 1]);
                assert(given.take(m).drop_last() =~= given.take(m - 1));
                assert(given.skip(m - 1).reverse() =~= given.skip(m).reverse().push(given[m - 1]));
            }
        }
        let r = SidenoteParser {
            input: reversed,
            link_prefix: String::new(),
            in_code_block: false,
            in_sidenote_block: false,
            remaining_text: String::new(),
            title: None,
            in_title: false,
            in_image: false,
            remaining_events: Vec::new(),
            open_context: String::new(),
        };
        proof {
            assert(r.spec_state() =~= init_state());
            assert(given.skip(0) =~= given);
            assert(events_view(given.reverse()).reverse() =~= events_view(given));
        }
        r
    }

    /// Configure the prefix prepended to relative link destinations.
    pub fn set_link_prefix(&mut self, link_prefix: String)
        ensures
            final(self).spec_prefix() == link_prefix@,
            final(self).input == old(self).input,
            final(self).spec_state() == old(self).spec_state(),
            final(self).remaining_text == old(self).remaining_text,
            final(self).remaining_events == old(self).remaining_events,
    {
        self.link_prefix = link_prefix;
    }

    /// Whether a link destination is relative: it holds no `://` scheme
    /// separator and does not start with a `/` slash.
    pub fn link_is_relative(link: &str) -> (r: bool)
        ensures
            r == is_relative_link(link@),
    {
        let n = link.unicode_len();
        if n > 0 && link.get_char(0) == '/' {
            return false;
        }
        if n >= 3 {
            let mut i: usize = 0;
            while i <= n - 3
                invariant
                    n == link@.len(),
                    3 <= n,
                    i <= n - 2,
                    forall|j: int| 0 <= j < i ==> !scheme_sep_at(link@, j),
                decreases n - i,
            {
                if link.get_char(i) == ':' && link.get_char(i + 1) == '/' && link.get_char(i + 2)
                    == '/' {
                    assert(scheme_sep_at(link@, i as int));
                    return false;
                }
                i += 1;
            }
            proof {
                assert forall|j: int| !scheme_sep_at(link@, j) by {
                    if 0 <= j && j + 3 <= n {
                        assert(!scheme_sep_at(link@, j));
                    }
                }
            }
        } else {
            proof {
                assert forall|j: int| !scheme_sep_at(link@, j) by {}
            }
        }
        true
    }

    /// Rewrite one link destination: a relative one gains the configured
    /// prefix, an absolute or root-relative one passes unchanged.
    fn rewrite_link(&self, link: String) -> (r: String)
        ensures
            r@ == spec_rewrite(self.spec_prefix(), link@),
    {
        if SidenoteParser::link_is_relative(link.as_str()) {
            let mut prefixed = self.link_prefix.clone();
            prefixed.append(link.as_str());
            prefixed
        } else {
            link
        }
    }

    /// Split off the text before the first delimiter of a fragment, stash the
    /// rest for resumed scanning, and emit that text.
    pub fn parse_first_sidenote(&mut self, text: String) -> (r: MdEvent)
        ensures
            ({
                let i = min(find_delim(text@) as int, text@.len() as int);
                &&& r@ == EventV::Text(text@.take(i))
                &&& final(self).remaining_text@ == text@.skip(i)
            }),
            final(self).spec_state() == old(self).spec_state(),
            final(self).input == old(self).input,
            final(self).spec_prefix() == old(self).spec_prefix(),
            final(self).remaining_events == old(self).remaining_events,
    {
        let n = text.as_str().unicode_len();
        let i = next_delim(text.as_str(), 0);
        proof {
            assert(text@.skip(0) =~= text@);
        }
        let first = String::from_str(text.as_str().substring_char(0, i));
        self.remaining_text = String::from_str(text.as_str().substring_char(i, n));
        proof {
            assert(text@.subrange(0, i as int) =~= text@.take(i as int));
            assert(text@.subrange(i as int, n as int) =~= text@.skip(i as int));
        }
        MdEvent::Text(first)
    }

    /// Resume scanning the buffered tail of a text fragment: consume its
    /// first delimiter, or emit the text up to the next one.
    pub fn parse_remaining_text(&mut self) -> (r: Result<MdEvent, SidenoteError>)
        requires
            old(self).remaining_text@.len() > 0,
        ensures
            final(self).input == old(self).input,
            final(self).spec_prefix() == old(self).spec_prefix(),
            final(self).remaining_events == old(self).remaining_events,
            final(self).remaining_text@.len() < old(self).remaining_text@.len(),
            ({
                let rem = old(self).remaining_text@;
                let st = old(self).spec_state();
                if rem[0] == '{' {
                    if st.in_side {
                        &&& r matches Err(e) && e@ == SidenoteErrorV::Nested(
                            st.open_ctx,
                            fwd_context(rem),
                        )
                        &&& final(self).remaining_text@ == rem.skip(1)
                        &&& final(self).spec_state() == st
                    } else {
                        &&& r matches Ok(ev) && ev@ == EventV::InlineHtml(span_open())
                        &&& final(self).remaining_text@ == rem.skip(1)
                        &&& final(self).spec_state() == TStateV {
                            in_side: true,
                            open_ctx: fwd_context(rem),
                            ..st
                        }
                    }
                } else if rem[0] == '}' {
                    if st.in_side {
                        &&& r matches Ok(ev) && ev@ == EventV::InlineHtml(span_close())
                        &&& final(self).remaining_text@ == rem.skip(1)
                        &&& final(self).spec_state() == TStateV { in_side: false, ..st }
                    } else {
                        &&& r matches Err(e) && e@ == SidenoteErrorV::NotMatched(fwd_context(rem))
                        &&& final(self).remaining_text@ == rem.skip(1)
                        &&& final(self).spec_state() == st
                    }
                } else {
                    let i = min(1 + find_delim(rem.skip(1)) as int, rem.len() as int);
                    &&& r matches Ok(ev) && ev@ == EventV::Text(rem.take(i))
                    &&& final(self).remaining_text@ == rem.skip(i)
                    &&& final(self).spec_state() == st
                }
            }),
    {
        let ghost rem = self.remaining_text@;
        let n = self.remaining_text.as_str().unicode_len();
        let c = self.remaining_text.as_str().get_char(0);
        if c == '{' || c == '}' {
            let context = fwd_excerpt(self.remaining_text.as_str());
            let rest = String::from_str(self.remaining_text.as_str().substring_char(1, n));
            self.remaining_text = rest;
            proof {
                assert(rem.subrange(1, n as int) =~= rem.skip(1));
            }
            if c == '{' {
                if self.in_sidenote_block {
                    Err(SidenoteError::Nested(self.open_context.clone(), context))
                } else {
                    self.in_sidenote_block = true;
                    self.open_context = context;
                    Ok(MdEvent::InlineHtml(String::from_str("<span>")))
                }
            } else {
                if self.in_sidenote_block {
                    self.in_sidenote_block = false;
                    Ok(MdEvent::InlineHtml(String::from_str("</span>")))
                } else {
                    Err(SidenoteError::NotMatched(context))
                }
            }
        } else {
            let i = next_delim(self.remaining_text.as_str(), 1);
            proof {
                assert(rem.skip(0) =~= rem);
                assert(i - 1 == find_delim(rem.skip(1)));
                assert(i as int == min(1 + find_delim(rem.skip(1)) as int, rem.len() as int));
            }
            let seg = String::from_str(self.remaining_text.as_str().substring_char(0, i));
            let rest = String::from_str(self.remaining_text.as_str().substring_char(i, n));
            self.remaining_text = rest;
            proof {
                assert(rem.subrange(0, i as int) =~= rem.take(i as int));
                assert(rem.subrange(i as int, n as int) =~= rem.skip(i as int));
            }
            Ok(MdEvent::Text(seg))
        }
    }

    /// Handle a code tag, opening or closing, inline or block: code may not
    /// begin or end while a sidenote is open; otherwise the given event
    /// passes and the code flag mirrors the tag.
    fn parse_code_tag(&mut self, start: bool, on_success: MdEvent) -> (r: Result<
        MdEvent,
        SidenoteError,
    >)
        ensures
            final(self).input == old(self).input,
            final(self).spec_prefix() == old(self).spec_prefix(),
            final(self).remaining_text == old(self).remaining_text,
            final(self).remaining_events == old(self).remaining_events,
            match code_tag_step(old(self).spec_state(), start, on_success@) {
                Ok(p) => r matches Ok(ev) && ev == on_success && final(self).spec_state() == p.1
                    && p.0 == seq![on_success@],
                Err(e_spec) => r matches Err(e) && e@ == e_spec && final(self).spec_state() == old(
                    self,
                ).spec_state(),
            },
    {
        if self.in_sidenote_block {
            Err(SidenoteError::NotMatched(self.open_context.clone()))
        } else {
            self.in_code_block = start;
            proof {
                assert(self.spec_state() =~= TStateV {
                    in_code: start,
                    ..old(self).spec_state()
                });
            }
            Ok(on_success)
        }
    }

    /// Handle a paragraph boundary: inside an open sidenote it is rewritten
    /// to a line break on opening and to nothing on closing, so a sidenote
    /// may span paragraphs without closing its inline container.
    fn parse_paragraph_tag(&mut self, start: bool) -> (r: MdEvent)
        ensures
            *final(self) == *old(self),
            r@ == (if old(self).spec_state().in_side {
                if start {
                    EventV::InlineHtml(br_markup())
                } else {
                    EventV::Text(Seq::<char>::empty())
                }
            } else {
                if start {
                    EventV::Start(TagV::Paragraph)
                } else {
                    EventV::End(TagV::Paragraph)
                }
            }),
    {
        if self.in_sidenote_block {
            if start {
                MdEvent::InlineHtml(String::from_str("<br /><br />\n"))
            } else {
                MdEvent::Text(String::new())
            }
        } else {
            if start {
                MdEvent::Start(MdTag::Paragraph)
            } else {
                MdEvent::End(MdTag::Paragraph)
            }
        }
    }

    /// The markup a code block opens with.
    fn start_codeblock() -> (r: MdEvent)
        ensures
            r@ == EventV::InlineHtml(codeblock_open()),
    {
        MdEvent::InlineHtml(String::from_str("<pre><code class=\"code\">"))
    }

    /// Handle one text fragment: capture it as the title when one is being
    /// captured, pass it through untouched inside code, and otherwise scan it
    /// for sidenotes.
    pub fn parse_text_block(&mut self, text: String) -> (r: MdEvent)
        ensures
            final(self).input == old(self).input,
            final(self).spec_prefix() == old(self).spec_prefix(),
            final(self).remaining_events == old(self).remaining_events,
            ({
                let st1 = capture_title(old(self).spec_state(), text@);
                if old(self).spec_state().in_code {
                    &&& r@ == EventV::Text(text@)
                    &&& final(self).spec_state() == st1
                    &&& final(self).remaining_text == old(self).remaining_text
                } else {
                    let i = min(find_delim(text@) as int, text@.len() as int);
                    &&& r@ == EventV::Text(text@.take(i))
                    &&& final(self).remaining_text@ == text@.skip(i)
                    &&& final(self).spec_state() == st1
                }
            }),
    {
        if self.in_title && text.as_str().unicode_len() > 0 {
            let mut grown = String::new();
            match &self.title {
                Some(prev) => grown.append(prev.as_str()),
                None => {},
            }
            grown.append(text.as_str());
            self.title = Some(grown);
        }
        if self.in_code_block {
            MdEvent::Text(text)
        } else {
            self.parse_first_sidenote(text)
        }
    }

    /// Consume one input event and produce the first output event it stands
    /// for, buffering any further output events and any unscanned text for
    /// the calls that follow.
    pub fn parse_next_event(&mut self, event: MdEvent) -> (r: Result<MdEvent, SidenoteError>)
        requires
            old(self).remaining_text@.len() == 0,
            old(self).remaining_events@.len() == 0,
        ensures
            final(self).input == old(self).input,
            final(self).spec_prefix() == old(self).spec_prefix(),
            match r {
                Ok(ev) => compose_out(
                    seq![ev@] + events_view(final(self).remaining_events@).reverse(),
                    process_rem(final(self).spec_state(), final(self).remaining_text@),
                ) == step_event(old(self).spec_state(), event@, old(self).spec_prefix()),
                Err(e) => step_event(old(self).spec_state(), event@, old(self).spec_prefix())
                    == Err::<(Seq<EventV>, TStateV), SidenoteErrorV>(e@)
                    && final(self).remaining_text@.len() == 0
                    && final(self).remaining_events@.len() == 0,
            },
    {
        let ghost st0 = old(self).spec_state();
        let ghost prefix = old(self).spec_prefix();
        let ghost ev0 = event@;
        match event {
            MdEvent::Text(text) => {
                let out = self.parse_text_block(text);
                proof {
                    let st1 = capture_title(st0, text@);
                    let queued = events_view(self.remaining_events@).reverse();
                    assert(queued =~= Seq::<EventV>::empty());
                    if st0.in_code {
                        lemma_idle_single(*self, out@);
                    } else {
                        match process_rem(self.spec_state(), self.remaining_text@) {
                            Ok((events, st2)) => {
                                assert((seq![out@] + queued) + events =~= seq![out@] + events);
                            },
                            Err(e) => {},
                        }
                    }
                }
                Ok(out)
            },
            MdEvent::Start(tag) => match tag {
                MdTag::Code => {
                    let r = self.parse_code_tag(true, MdEvent::Start(MdTag::Code));
                    proof {
                        if r is Ok {
                            lemma_idle_single(*self, EventV::Start(TagV::Code));
                        }
                    }
                    r
                },
                MdTag::CodeBlock(_lang) => {
                    let r = self.parse_code_tag(true, SidenoteParser::start_codeblock());
                    proof {
                        if r is Ok {
                            lemma_idle_single(*self, EventV::InlineHtml(codeblock_open()));
                        }
                    }
                    r
                },
                MdTag::Paragraph => {
                    let out = self.parse_paragraph_tag(true);
                    proof {
                        lemma_idle_single(*self, out@);
                    }
                    Ok(out)
                },
                MdTag::Header(level) => {
                    if level == 1 {
                        self.in_title = self.title.is_none();
                        proof {
                            assert(self.spec_state() =~= TStateV {
                                in_title: st0.title is None,
                                ..st0
                            });
                            lemma_idle_single(*self, EventV::Start(TagV::Header(1)));
                        }
                        Ok(MdEvent::Start(MdTag::Header(1)))
                    } else {
                        proof {
                            lemma_idle_single(*self, EventV::Start(TagV::Header(level)));
                        }
                        Ok(MdEvent::Start(MdTag::Header(level)))
                    }
                },
                MdTag::Image(url, title) => {
                    self.in_image = true;
                    let rewritten = self.rewrite_link(url);
                    let start_event = MdEvent::Start(
                        MdTag::Image(rewritten.clone(), title.clone()),
                    );
                    let end_event = MdEvent::End(MdTag::Image(rewritten, title));
                    let ghost endv = end_event@;
                    let caption = MdEvent::InlineHtml(
                        String::from_str("<br /><span class=\"image-caption\">"),
                    );
                    let ghost capv = caption@;
                    self.remaining_events.push(caption);
                    self.remaining_events.push(end_event);
                    proof {
                        assert(self.spec_state() =~= TStateV { in_image: true, ..st0 });
                        assert(events_view(self.remaining_events@) =~= seq![capv, endv]);
                        assert(events_view(self.remaining_events@).reverse() =~= seq![
                            endv,
                            capv,
                        ]);
                        assert((seq![start_event@] + seq![endv, capv]) + seq![] =~= seq![
                            start_event@,
                            endv,
                            capv,
                        ]);
                    }
                    Ok(start_event)
                },
                MdTag::Link(url, title) => {
                    let out = MdEvent::Start(MdTag::Link(self.rewrite_link(url), title));
                    proof {
                        lemma_idle_single(*self, out@);
                    }
                    Ok(out)
                },
                other => {
                    let out = MdEvent::Start(other);
                    proof {
                        lemma_idle_single(*self, out@);
                    }
                    Ok(out)
                },
            },
            MdEvent::End(tag) => match tag {
                MdTag::Code => {
                    let r = self.parse_code_tag(false, MdEvent::End(MdTag::Code));
                    proof {
                        if r is Ok {
                            lemma_idle_single(*self, EventV::End(TagV::Code));
                        }
                    }
                    r
                },
                MdTag::CodeBlock(lang) => {
                    let ghost langv = lang@;
                    let r = self.parse_code_tag(false, MdEvent::End(MdTag::CodeBlock(lang)));
                    proof {
                        if r is Ok {
                            lemma_idle_single(*self, EventV::End(TagV::CodeBlock(langv)));
                        }
                    }
                    r
                },
                MdTag::Paragraph => {
                    let out = self.parse_paragraph_tag(false);
                    proof {
                        lemma_idle_single(*self, out@);
                    }
                    Ok(out)
                },
                MdTag::Header(level) => {
                    if level == 1 {
                        self.in_title = false;
                        let out = MdEvent::InlineHtml(String::from_str("</h1><section>"));
                        proof {
                            assert(self.spec_state() =~= TStateV { in_title: false, ..st0 });
                            lemma_idle_single(*self, out@);
                        }
                        Ok(out)
                    } else {
                        proof {
                            lemma_idle_single(*self, EventV::End(TagV::Header(level)));
                        }
                        Ok(MdEvent::End(MdTag::Header(level)))
                    }
                },
                MdTag::Image(url, title) => {
                    self.in_image = false;
                    let out = MdEvent::InlineHtml(String::from_str("</span>"));
                    proof {
                        assert(self.spec_state() =~= TStateV { in_image: false, ..st0 });
                        lemma_idle_single(*self, out@);
                    }
                    Ok(out)
                },
                other => {
                    let out = MdEvent::End(other);
                    proof {
                        lemma_idle_single(*self, out@);
                    }
                    Ok(out)
                },
            },
            other => {
                let out = other;
                proof {
                    lemma_idle_single(*self, out@);
                }
                Ok(out)
            },
        }
    }
}

/// The rest of a scan, before any buffered output: what draining the
/// unscanned text and then the remaining input events yields.
pub open spec fn pending_inner(p: SidenoteParser) -> Result<
    (Seq<EventV>, TStateV),
    SidenoteErrorV,
> {
    match process_rem(p.spec_state(), p.remaining_text@) {
        Ok((events, st1)) => compose_out(events, run_events(st1, p.spec_rest(), p.spec_prefix())),
        Err(e) => Err(e),
    }
}

/// Everything a transformer still yields: its buffered output events first,
/// then the rest of the current fragment, then the rest of the input.
pub open spec fn spec_pending(p: SidenoteParser) -> Result<
    (Seq<EventV>, TStateV),
    SidenoteErrorV,
> {
    compose_out(events_view(p.remaining_events@).reverse(), pending_inner(p))
}

/// Composition of emitted prefixes is concatenation.
proof fn lemma_compose_assoc(
    a: Seq<EventV>,
    b: Seq<EventV>,
    rest: Result<(Seq<EventV>, TStateV), SidenoteErrorV>,
)
    ensures
        compose_out(a, compose_out(b, rest)) == compose_out(a + b, rest),
{
    match rest {
        Ok((events, st)) => {
            assert(a + (b + events) =~= (a + b) + events);
        },
        Err(e) => {},
    }
}

/// With no buffered output, what a transformer yields is the rest of its
/// scan.
proof fn lemma_pending_no_queue(p: SidenoteParser)
    requires
        p.remaining_events@.len() == 0,
    ensures
        spec_pending(p) == pending_inner(p),
{
    assert(events_view(p.remaining_events@).reverse() =~= Seq::<EventV>::empty());
    match pending_inner(p) {
        Ok((events, st)) => {
            assert(Seq::<EventV>::empty() + events =~= events);
        },
        Err(e) => {},
    }
}

/// With nothing buffered, one output event composed with the empty tail is
/// just itself, ending in the transformer's current state.
proof fn lemma_idle_single(p: SidenoteParser, v: EventV)
    requires
        p.remaining_text@.len() == 0,
        p.remaining_events@.len() == 0,
    ensures
        compose_out(
            seq![v] + events_view(p.remaining_events@).reverse(),
            process_rem(p.spec_state(), p.remaining_text@),
        ) == Ok::<(Seq<EventV>, TStateV), SidenoteErrorV>((seq![v], p.spec_state())),
{
    assert(events_view(p.remaining_events@).reverse() =~= Seq::<EventV>::empty());
    assert((seq![v] + events_view(p.remaining_events@).reverse()) + seq![] =~= seq![v]);
}

impl SidenoteParser {
    /// Resume the scan of the buffered text fragment and yield its next
    /// output event.
    fn next_from_text(&mut self) -> (r: Result<MdEvent, SidenoteError>)
        requires
            old(self).remaining_events@.len() == 0,
            old(self).remaining_text@.len() > 0,
        ensures
            final(self).spec_prefix() == old(self).spec_prefix(),
            final(self).input == old(self).input,
            final(self).remaining_text@.len() < old(self).remaining_text@.len(),
            match r {
                Ok(ev) => spec_pending(*old(self)) == compose_out(
                    seq![ev@],
                    spec_pending(*final(self)),
                ),
                Err(e) => spec_pending(*old(self)) == Err::<
                    (Seq<EventV>, TStateV),
                    SidenoteErrorV,
                >(e@),
            },
    {
        let ghost p0 = *self;
        let ghost rem0 = self.remaining_text@;
        let ghost st0 = self.spec_state();
        let res = self.parse_remaining_text();
        proof {
            lemma_pending_no_queue(p0);
            lemma_pending_no_queue(*self);
            if rem0[0] == '{' && st0.in_side {
            } else if rem0[0] == '}' && !st0.in_side {
            } else {
                let v = match &res {
                    Ok(ev) => ev@,
                    Err(_) => EventV::SoftBreak,
                };
                assert(process_rem(st0, rem0) == compose_out(
                    seq![v],
                    process_rem(self.spec_state(), self.remaining_text@),
                ));
                match process_rem(self.spec_state(), self.remaining_text@) {
                    Ok((events, st1)) => {
                        match run_events(st1, self.spec_rest(), self.spec_prefix()) {
                            Ok((out2, st2)) => {
                                assert((seq![v] + events) + out2 =~= seq![v] + (events + out2));
                            },
                            Err(_) => {},
                        }
                    },
                    Err(_) => {},
                }
            }
        }
        res
    }

    /// Consume the next input event and yield the first output event it
    /// stands for.
    fn next_from_input(&mut self) -> (r: Result<MdEvent, SidenoteError>)
        requires
            old(self).remaining_events@.len() == 0,
            old(self).remaining_text@.len() == 0,
            old(self).input@.len() > 0,
        ensures
            final(self).spec_prefix() == old(self).spec_prefix(),
            final(self).input@.len() < old(self).input@.len(),
            match r {
                Ok(ev) => spec_pending(*old(self)) == compose_out(
                    seq![ev@],
                    spec_pending(*final(self)),
                ),
                Err(e) => spec_pending(*old(self)) == Err::<
                    (Seq<EventV>, TStateV),
                    SidenoteErrorV,
                >(e@),
            },
    {
        let ghost p0 = *self;
        let ghost st0 = self.spec_state();
        let ghost rest0 = self.spec_rest();
        let ev = self.input.pop().unwrap();
        proof {
            assert(rest0 =~= seq![ev@] + self.spec_rest());
        }
        let ghost rest1 = self.spec_rest();
        let res = self.parse_next_event(ev);
        proof {
            lemma_pending_no_queue(p0);
            assert(process_rem(st0, p0.remaining_text@) == Ok::<
                (Seq<EventV>, TStateV),
                SidenoteErrorV,
            >((seq![], st0)));
            match run_events(st0, rest0, p0.spec_prefix()) {
                Ok((events, st)) => {
                    assert(seq![] + events =~= events);
                },
                Err(_) => {},
            }
            assert(pending_inner(p0) == run_events(st0, rest0, p0.spec_prefix()));
            assert(rest0[0] == ev@);
            assert(rest0.skip(1) =~= rest1);
            match &res {
                Ok(out_ev) => {
                    let qrev = events_view(self.remaining_events@).reverse();
                    match process_rem(self.spec_state(), self.remaining_text@) {
                        Ok((events_a, st_a)) => {
                            match run_events(st_a, rest1, self.spec_prefix()) {
                                Ok((out2, st2)) => {
                                    assert(((seq![out_ev@] + qrev) + events_a) + out2 =~= seq![
                                        out_ev@,
                                    ] + (qrev + (events_a + out2)));
                                },
                                Err(_) => {},
                            }
                        },
                        Err(_) => {},
                    }
                },
                Err(_) => {},
            }
        }
        res
    }

    /// Produce the next output event of the document, or `None` at its end:
    /// a buffered output event if one is waiting, else the resumed scan of
    /// the current text fragment, else the next input event.
    pub fn next_event(&mut self) -> (r: Option<Result<MdEvent, SidenoteError>>)
        ensures
            final(self).spec_prefix() == old(self).spec_prefix(),
            match r {
                None => spec_pending(*old(self)) == Ok::<(Seq<EventV>, TStateV), SidenoteErrorV>(
                    (Seq::<EventV>::empty(), final(self).spec_state()),
                ) && final(self).spec_state() == old(self).spec_state(),
                Some(Ok(ev)) => spec_pending(*old(self)) == compose_out(
                    seq![ev@],
                    spec_pending(*final(self)),
                ),
                Some(Err(e)) => spec_pending(*old(self)) == Err::<
                    (Seq<EventV>, TStateV),
                    SidenoteErrorV,
                >(e@),
            },
            r is Some ==> ({
                ||| final(self).input@.len() < old(self).input@.len()
                ||| (final(self).input@.len() == old(self).input@.len()
                    && final(self).remaining_text@.len() < old(self).remaining_text@.len())
                ||| (final(self).input@.len() == old(self).input@.len()
                    && final(self).remaining_text == old(self).remaining_text
                    && final(self).remaining_events@.len() < old(self).remaining_events@.len())
            }),
    {
        let ghost p0 = *self;
        match self.remaining_events.pop() {
            Some(ev) => {
                proof {
                    let q0 = p0.remaining_events@;
                    assert(ev == q0[q0.len() - 1]);
                    assert(events_view(q0).reverse() =~= seq![ev@] + events_view(
                        self.remaining_events@,
                    ).reverse());
                    lemma_compose_assoc(
                        seq![ev@],
                        events_view(self.remaining_events@).reverse(),
                        pending_inner(p0),
                    );
                    assert(pending_inner(*self) == pending_inner(p0));
                }
                Some(Ok(ev))
            },
            None => {
                let rem_len = self.remaining_text.as_str().unicode_len();
                if rem_len > 0 {
                    Some(self.next_from_text())
                } else {
                    if self.input.len() > 0 {
                        Some(self.next_from_input())
                    } else {
                        proof {
                            lemma_pending_no_queue(p0);
                            assert(process_rem(p0.spec_state(), p0.remaining_text@) == Ok::<
                                (Seq<EventV>, TStateV),
                                SidenoteErrorV,
                            >((seq![], p0.spec_state())));
                            assert(p0.spec_rest() =~= Seq::<EventV>::empty());
                            assert(seq![] + Seq::<EventV>::empty() =~= Seq::<EventV>::empty());
                        }
                        None
                    }
                }
            },
        }
    }

    /// Drive the transformer to the end of its input, collecting every
    /// output event it yields, or stopping at the first error.
    pub fn run_to_end(&mut self) -> (r: Result<Vec<MdEvent>, SidenoteError>)
        ensures
            final(self).spec_prefix() == old(self).spec_prefix(),
            match r {
                Ok(out) => spec_pending(*old(self)) == Ok::<
                    (Seq<EventV>, TStateV),
                    SidenoteErrorV,
                >((events_view(out@), final(self).spec_state())),
                Err(e) => spec_pending(*old(self)) == Err::<
                    (Seq<EventV>, TStateV),
                    SidenoteErrorV,
                >(e@),
            },
    {
        let ghost orig = *self;
        let mut out: Vec<MdEvent> = Vec::new();
        proof {
            match spec_pending(orig) {
                Ok((events, st)) => {
                    assert(events_view(out@) + events =~= events);
                },
                Err(_) => {},
            }
        }
        loop
            invariant
                orig == *old(self),
                self.spec_prefix() == orig.spec_prefix(),
                compose_out(events_view(out@), spec_pending(*self)) == spec_pending(orig),
            decreases
                    self.input@.len(),
                    self.remaining_text@.len(),
                    self.remaining_events@.len(),
        {
            let ghost out0 = out@;
            let ghost pend0 = spec_pending(*self);
            match self.next_event() {
                None => {
                    proof {
                        assert(events_view(out0) + Seq::<EventV>::empty() =~= events_view(out0));
                    }
                    return Ok(out);
                },
                Some(Ok(ev)) => {
                    out.push(ev);
                    proof {
                        crate::sidenotes::lemma_events_view_push(out0, ev);
                        lemma_compose_assoc(events_view(out0), seq![ev@], spec_pending(*self));
                        assert(events_view(out0) + seq![ev@] =~= events_view(out@));
                    }
                },
                Some(Err(e)) => {
                    return Err(e);
                },
            }
        }
    }
}

/// Transform a whole document: feed every structural event through a fresh
/// transformer with the given link prefix, collect the rewritten events, and
/// extract the captured title, an empty one counting as none. A document that
/// ends with a sidenote still open is rejected.
pub fn transform_events(events: Vec<MdEvent>, link_prefix: String) -> (r: Result<
    (Vec<MdEvent>, Option<String>),
    SidenoteError,
>)
    ensures
        match r {
            Ok(p) => spec_transform(events_view(events@), link_prefix@) == Ok::<
                (Seq<EventV>, Option<Seq<char>>),
                SidenoteErrorV,
            >((events_view(p.0@), opt_view(p.1))),
            Err(e) => spec_transform(events_view(events@), link_prefix@) == Err::<
                (Seq<EventV>, Option<Seq<char>>),
                SidenoteErrorV,
            >(e@),
        },
{
    let ghost given = events_view(events@);
    let mut parser = SidenoteParser::new(events);
    parser.set_link_prefix(link_prefix);
    proof {
        lemma_pending_no_queue(parser);
        assert(process_rem(parser.spec_state(), parser.remaining_text@) == Ok::<
            (Seq<EventV>, TStateV),
            SidenoteErrorV,
        >((seq![], parser.spec_state())));
        match run_events(init_state(), given, parser.spec_prefix()) {
            Ok((out2, st2)) => {
                assert(seq![] + out2 =~= out2);
            },
            Err(_) => {},
        }
        assert(spec_pending(parser) == run_events(init_state(), given, parser.spec_prefix()));
    }
    let out = match parser.run_to_end() {
        Ok(o) => o,
        Err(e) => {
            return Err(e);
        },
    };
    if parser.in_sidenote_block {
        return Err(SidenoteError::NotMatched(parser.open_context));
    }
    let title = match parser.title {
        Some(t) => {
            if t.as_str().unicode_len() == 0 {
                None
            } else {
                Some(t)
            }
        },
        None => None,
    };
    Ok((out, title))
}

/// A converted document: its rendered body and the title captured from its
/// first level-1 header, if any.
#[derive(Debug, Clone, PartialEq)]
pub struct ParsedMarkdown {
    pub html: String,
    pub title: Option<String>,
}

/// The record handed to the post template: the rendered article and the
/// post's metadata.
#[derive(Debug, Clone)]
pub struct PostData {
    pub article: String,
    pub title: Option<String>,
    pub first_published: crate::time::Timestamp,
    pub last_updated: crate::time::Timestamp,
    pub index_url: String,
    pub post_url: String,
}

impl PostData {
    /// A fresh record for a bare article: no title, both timestamps the one
    /// clock reading taken at construction, and root-relative URLs.
    pub fn new(article: &str) -> (r: PostData)
        ensures
            r.article@ == article@,
            r.title is None,
            r.index_url@ == "/"@,
            r.post_url@ == "/"@,
            r.first_published == r.last_updated,
            crate::time::ts_wf(r.first_published),
    {
        let now = crate::time::now_timestamp();
        PostData {
            article: String::from_str(article),
            title: None,
            first_published: now,
            last_updated: now,
            index_url: String::from_str("/"),
            post_url: String::from_str("/"),
        }
    }

    /// The record for one indexed post; the title is HTML-escaped on the
    /// way to the template.
    pub fn from_post(
        article: &str,
        post: &crate::toc::IndexedBlogPost,
        index_url: &str,
        post_url: String,
    ) -> (r: PostData)
        ensures
            r.article@ == article@,
            r.first_published == post.first_published,
            r.last_updated == post.last_updated,
            r.index_url@ == index_url@,
            r.post_url@ == post_url@,
            opt_view(r.title) == match opt_view(post.title) {
                Some(t) => Some(crate::templates::html_escaped(t)),
                None => None::<Seq<char>>,
            },
    {
        let title = match &post.title {
            Some(t) => Some(crate::templates::escape_html(t.as_str())),
            None => None,
        };
        PostData {
            article: String::from_str(article),
            title,
            first_published: post.first_published,
            last_updated: post.last_updated,
            index_url: String::from_str(index_url),
            post_url,
        }
    }
}

/// Scanning never loses fragment text: when draining a buffered tail
/// succeeds, mapping each emitted event back to the text it stands for
/// reconstructs the tail exactly.
proof fn lemma_process_rem_unrender(st: TStateV, rem: Seq<char>)
    ensures
        process_rem(st, rem) matches Ok(p) ==> unrender(p.0) == rem,
    decreases rem.len(),
{
    reveal_strlit("<span>");
    reveal_strlit("</span>");
    if rem.len() == 0 {
        assert(unrender(seq![]) =~= rem);
    } else if rem[0] == '{' {
        if !st.in_side {
            let st1 = TStateV { in_side: true, open_ctx: fwd_context(rem), ..st };
            lemma_process_rem_unrender(st1, rem.skip(1));
            match process_rem(st1, rem.skip(1)) {
                Ok((events, _)) => {
                    lemma_unrender_cons(EventV::InlineHtml(span_open()), events);
                    assert(seq!['{'] + rem.skip(1) =~= rem);
                },
                Err(_) => {},
            }
        }
    } else if rem[0] == '}' {
        if st.in_side {
            let st1 = TStateV { in_side: false, ..st };
            lemma_process_rem_unrender(st1, rem.skip(1));
            match process_rem(st1, rem.skip(1)) {
                Ok((events, _)) => {
                    lemma_unrender_cons(EventV::InlineHtml(span_close()), events);
                    assert(span_open().len() != span_close().len());
                    assert(seq!['}'] + rem.skip(1) =~= rem);
                },
                Err(_) => {},
            }
        }
    } else {
        let i = min(1 + find_delim(rem.skip(1)) as int, rem.len() as int);
        lemma_process_rem_unrender(st, rem.skip(i));
        match process_rem(st, rem.skip(i)) {
            Ok((events, _)) => {
                lemma_unrender_cons(EventV::Text(rem.take(i)), events);
                assert(rem.take(i) + rem.skip(i) =~= rem);
            },
            Err(_) => {},
        }
    }
}

/// Content preservation holds of the resuming scanner too: whatever state
/// the transformer carries into a text fragment, when the fragment's scan
/// succeeds — over however many resumed calls it takes — mapping each
/// emitted event back to the text it stands for, the markup halves back to
/// their delimiters, reconstructs the fragment exactly.
pub proof fn lemma_scan_fragment_round_trip(st: TStateV, f: Seq<char>)
    requires
        scan_fragment(st, f) is Ok,
    ensures
        unrender(scan_fragment(st, f)->Ok_0.0) == f,
{
    let i = min(find_delim(f) as int, f.len() as int);
    crate::sidenotes::lemma_find_delim_props(f);
    lemma_process_rem_unrender(st, f.skip(i));
    match process_rem(st, f.skip(i)) {
        Ok((events, _)) => {
            lemma_unrender_cons(EventV::Text(f.take(i)), events);
            assert(f.take(i) + f.skip(i) =~= f);
        },
        Err(_) => {},
    }
}

/// Link rewriting prefixes exactly the relative destinations: one with a
/// scheme separator or a leading slash passes unchanged, every other one
/// gains the configured prefix.
pub proof fn lemma_rewrite_link(prefix: Seq<char>, link: Seq<char>)
    ensures
        is_relative_link(link) ==> spec_rewrite(prefix, link) == prefix + link,
        contains_scheme_sep(link) ==> spec_rewrite(prefix, link) == link,
        link.len() > 0 && link[0] == '/' ==> spec_rewrite(prefix, link) == link,
{
}

/// Text inside a code span or code block is never scanned for sidenotes:
/// while the code flag is set, a text fragment passes through unchanged,
/// whatever delimiters it holds, and only the title capture may observe it.
pub proof fn lemma_code_text_unscanned(st: TStateV, t: Seq<char>, prefix: Seq<char>)
    requires
        st.in_code,
    ensures
        step_event(st, EventV::Text(t), prefix) == Ok::<(Seq<EventV>, TStateV), SidenoteErrorV>(
            (seq![EventV::Text(t)], capture_title(st, t)),
        ),
{
}

/// The event that opens a document title.
pub open spec fn is_h1_start(ev: EventV) -> bool {
    ev matches EventV::Start(TagV::Header(1))
}

/// Scanning a fragment touches only the sidenote state: the flags for code,
/// title and image, and the captured title, pass through it unchanged.
proof fn lemma_process_rem_frame(st: TStateV, rem: Seq<char>)
    ensures
        process_rem(st, rem) matches Ok(p) ==> p.1.in_code == st.in_code && p.1.in_title
            == st.in_title && p.1.in_image == st.in_image && p.1.title == st.title,
    decreases rem.len(),
{
    if rem.len() == 0 {
    } else if rem[0] == '{' {
        if !st.in_side {
            lemma_process_rem_frame(
                TStateV { in_side: true, open_ctx: fwd_context(rem), ..st },
                rem.skip(1),
            );
        }
    } else if rem[0] == '}' {
        if st.in_side {
            lemma_process_rem_frame(TStateV { in_side: false, ..st }, rem.skip(1));
        }
    } else {
        let i = vstd::math::min(1 + find_delim(rem.skip(1)) as int, rem.len() as int);
        lemma_process_rem_frame(st, rem.skip(i));
    }
}

proof fn lemma_no_h1_run(st: TStateV, events: Seq<EventV>, prefix: Seq<char>)
    requires
        !st.in_title,
        st.title is None,
        forall|j: int| 0 <= j < events.len() ==> !is_h1_start(#[trigger] events[j]),
    ensures
        run_events(st, events, prefix) matches Ok(p) ==> !p.1.in_title && p.1.title is None,
    decreases events.len(),
{
    if events.len() > 0 {
        match step_event(st, events[0], prefix) {
            Ok((out1, st1)) => {
                assert(!st1.in_title && st1.title is None) by {
                    match events[0] {
                        EventV::Text(t) => {
                            lemma_process_rem_frame(capture_title(st, t), t.skip(
                                vstd::math::min(find_delim(t) as int, t.len() as int),
                            ));
                        },
                        _ => {},
                    }
                }
                assert forall|j: int| 0 <= j < events.skip(1).len() implies !is_h1_start(
                    #[trigger] events.skip(1)[j],
                ) by {
                    assert(events.skip(1)[j] == events[j + 1]);
                }
                lemma_no_h1_run(st1, events.skip(1), prefix);
            },
            Err(_) => {},
        }
    }
}

/// A document with no level-1 header yields no title: when no event opens
/// one, a successful transformation captures nothing.
pub proof fn lemma_no_h1_no_title(events: Seq<EventV>, prefix: Seq<char>)
    requires
        forall|j: int| 0 <= j < events.len() ==> !is_h1_start(#[trigger] events[j]),
    ensures
        spec_transform(events, prefix) matches Ok(p) ==> p.1 is None,
{
    lemma_no_h1_run(init_state(), events, prefix);
}

} // verus!
