use vstd::prelude::*;
use vstd::math::{max, min};
use vstd::string::StrSliceExecFns;
use vstd::string::StringExecFns;

use crate::events::{EventV, MdEvent, events_view};
use crate::sidenote_error::{SidenoteError, SidenoteErrorV};

verus! {

/// How many characters of context are kept on either side of an offending
/// delimiter when a compilation error is reported.
pub const CONTEXT_RADIUS: usize = 20;

/// A sidenote delimiter: the characters that open and close a sidenote.
pub open spec fn is_delim(c: char) -> bool {
    c == '{' || c == '}'
}

/// The distance from the start of `s` to its first sidenote delimiter,
/// or `s.len()` when `s` holds none.
pub open spec fn find_delim(s: Seq<char>) -> nat
    decreases s.len(),
{
    if s.len() == 0 {
        0
    } else if is_delim(s[0]) {
        0
    } else {
        1 + find_delim(s.skip(1))
    }
}

/// `find_delim` points at the first delimiter: everything before it is plain,
/// and it is a delimiter unless the whole of `s` is plain.
pub proof fn lemma_find_delim_props(s: Seq<char>)
    ensures
        find_delim(s) <= s.len(),
        forall|j: int| 0 <= j < find_delim(s) ==> !is_delim(s[j]),
        find_delim(s) < s.len() ==> is_delim(s[find_delim(s) as int]),
    decreases s.len(),
{
    if s.len() == 0 {
    } else if is_delim(s[0]) {
    } else {
        lemma_find_delim_props(s.skip(1));
        assert forall|j: int| 0 <= j < find_delim(s) implies !is_delim(s[j]) by {
            if j > 0 {
                assert(s[j] == s.skip(1)[j - 1]);
            }
        }
        if find_delim(s) < s.len() {
            assert(s[find_delim(s) as int] == s.skip(1)[find_delim(s) - 1]);
        }
    }
}

/// A position with a plain prefix that either holds a delimiter or is the end
/// of `s` is exactly `find_delim(s)`.
pub proof fn lemma_find_delim_at(s: Seq<char>, i: int)
    requires
        0 <= i <= s.len(),
        forall|j: int| 0 <= j < i ==> !is_delim(s[j]),
        i < s.len() ==> is_delim(s[i]),
    ensures
        find_delim(s) == i,
    decreases i,
{
    if s.len() == 0 {
    } else if is_delim(s[0]) {
        assert(i == 0);
    } else {
        assert(i >= 1);
        assert forall|j: int| 0 <= j < i - 1 implies !is_delim(s.skip(1)[j]) by {
            assert(s.skip(1)[j] == s[j + 1]);
        }
        if i - 1 < s.skip(1).len() {
            assert(s.skip(1)[i - 1] == s[i]);
        }
        lemma_find_delim_at(s.skip(1), i - 1);
    }
}

/// Find the first sidenote delimiter at or after `from`, returning the
/// character index just past the text, i.e. `s.len()` when there is none.
pub fn next_delim(text: &str, from: usize) -> (i: usize)
    requires
        from <= text@.len(),
    ensures
        from <= i <= text@.len(),
        i - from == find_delim(text@.skip(from as int)),
        forall|j: int| from <= j < i ==> !is_delim(text@[j]),
        i < text@.len() ==> is_delim(text@[i as int]),
{
    let n = text.unicode_len();
    let mut i = from;
    while i < n
        invariant
            from <= i <= n,
            n == text@.len(),
            forall|j: int| from <= j < i ==> !is_delim(text@[j]),
        decreases n - i,
    {
        let c = text.get_char(i);
        if c == '{' || c == '}' {
            proof {
                assert forall|j: int| 0 <= j < i - from implies !is_delim(
                    text@.skip(from as int)[j],
                ) by {
                    assert(text@.skip(from as int)[j] == text@[j + from]);
                }
                assert(text@.skip(from as int)[i - from] == text@[i as int]);
                lemma_find_delim_at(text@.skip(from as int), i - from);
            }
            return i;
        }
        i += 1;
    }
    proof {
        assert forall|j: int| 0 <= j < n - from implies !is_delim(text@.skip(from as int)[j]) by {
            assert(text@.skip(from as int)[j] == text@[j + from]);
        }
        lemma_find_delim_at(text@.skip(from as int), n - from);
    }
    n
}

/// The bounded window of characters around position `p` of `s` that an error
/// report carries. It is computed on character positions, never on storage
/// offsets, so it stays valid for multi-byte text.
pub open spec fn context_at(s: Seq<char>, p: int) -> Seq<char>
    recommends
        0 <= p <= s.len(),
{
    s.subrange(max(p - CONTEXT_RADIUS as int, 0), min(p + CONTEXT_RADIUS as int + 1, s.len() as int))
}

/// Extract the context window around character position `p` of `text`.
pub fn context_excerpt(text: &str, p: usize) -> (r: String)
    requires
        p <= text@.len(),
    ensures
        r@ == context_at(text@, p as int),
{
    let n = text.unicode_len();
    let lo = if p > CONTEXT_RADIUS {
        p - CONTEXT_RADIUS
    } else {
        0
    };
    let hi = if n - p > CONTEXT_RADIUS {
        p + CONTEXT_RADIUS + 1
    } else {
        n
    };
    String::from_str(text.substring_char(lo, hi))
}

/// The markup pair that wraps one sidenote's content.
pub open spec fn span_open() -> Seq<char> {
    "<span>"@
}

/// The closing half of the sidenote markup pair.
pub open spec fn span_close() -> Seq<char> {
    "</span>"@
}

/// The position of `open_at` as a mathematical value.
pub open spec fn opt_pos(open_at: Option<usize>) -> Option<int> {
    match open_at {
        Some(o) => Some(o as int),
        None => None,
    }
}

/// Compile the tail of a fragment, from character position `p` on, given the
/// position of the currently open sidenote delimiter if there is one.
///
/// Text between delimiters becomes one text event; each delimiter becomes one
/// half of the sidenote markup pair; opening inside an open sidenote, closing
/// outside one, and ending the fragment with one still open are errors.
pub open spec fn compile_from(s: Seq<char>, p: int, open_at: Option<int>) -> Result<
    Seq<EventV>,
    SidenoteErrorV,
>
    decreases s.len() - p,
    when 0 <= p <= s.len()
{
    if p >= s.len() {
        match open_at {
            None => Ok(seq![]),
            Some(o) => Err(SidenoteErrorV::NotMatched(context_at(s, o))),
        }
    } else if s[p] == '{' {
        match open_at {
            Some(o) => Err(SidenoteErrorV::Nested(context_at(s, o), context_at(s, p))),
            None => match compile_from(s, p + 1, Some(p)) {
                Ok(events) => Ok(seq![EventV::InlineHtml(span_open())] + events),
                Err(e) => Err(e),
            },
        }
    } else if s[p] == '}' {
        match open_at {
            None => Err(SidenoteErrorV::NotMatched(context_at(s, p))),
            Some(_) => match compile_from(s, p + 1, None) {
                Ok(events) => Ok(seq![EventV::InlineHtml(span_close())] + events),
                Err(e) => Err(e),
            },
        }
    } else {
        let i = min(p + 1 + find_delim(s.skip(p + 1)) as int, s.len() as int);
        match compile_from(s, i, open_at) {
            Ok(events) => Ok(seq![EventV::Text(s.subrange(p, i))] + events),
            Err(e) => Err(e),
        }
    }
}

/// What compiling one whole text fragment yields: the fragment split at each
/// delimiter into alternating plain-text and sidenote markup events, or the
/// error that aborts it. The segment before the first delimiter is always
/// emitted, even when it is empty.
pub open spec fn spec_compile(s: Seq<char>) -> Result<Seq<EventV>, SidenoteErrorV> {
    let i = min(find_delim(s) as int, s.len() as int);
    match compile_from(s, i, None) {
        Ok(events) => Ok(seq![EventV::Text(s.take(i))] + events),
        Err(e) => Err(e),
    }
}

/// Appending one event to a vector appends its value to the view.
pub proof fn lemma_events_view_push(events: Seq<MdEvent>, e: MdEvent)
    ensures
        events_view(events.push(e)) == events_view(events) + seq![e@],
{
    assert(events_view(events.push(e)) =~= events_view(events) + seq![e@]);
}

/// The sidenote compiler: split one contiguous text fragment at its `{` and
/// `}` delimiters into alternating plain-text and sidenote markup events.
/// Delimiters must strictly alternate; any violation aborts the fragment with
/// an error carrying the text around the offending delimiter.
pub fn compile_sidenotes(text: &str) -> (r: Result<Vec<MdEvent>, SidenoteError>)
    ensures
        match r {
            Ok(events) => spec_compile(text@) == Ok::<Seq<EventV>, SidenoteErrorV>(
                events_view(events@),
            ),
            Err(e) => spec_compile(text@) == Err::<Seq<EventV>, SidenoteErrorV>(e@),
        },
{
    let ghost s = text@;
    let n = text.unicode_len();
    let mut out: Vec<MdEvent> = Vec::new();
    let first = next_delim(text, 0);
    out.push(MdEvent::Text(String::from_str(text.substring_char(0, first))));
    proof {
        assert(s.skip(0) =~= s);
        assert(s.subrange(0, first as int) =~= s.take(first as int));
        assert(events_view(out@) =~= seq![EventV::Text(s.take(first as int))]);
    }
    let mut p = first;
    let mut open_at: Option<usize> = None;
    while p < n
        invariant
            n == s.len(),
            s == text@,
            p <= n,
            match open_at {
                Some(o) => o < p,
                None => true,
            },
            match compile_from(s, p as int, opt_pos(open_at)) {
                Ok(events) => spec_compile(s) == Ok::<Seq<EventV>, SidenoteErrorV>(
                    events_view(out@) + events,
                ),
                Err(e) => spec_compile(s) == Err::<Seq<EventV>, SidenoteErrorV>(e),
            },
        decreases n - p,
    {
        let ghost out0 = out@;
        let c = text.get_char(p);
        if c == '{' {
            match open_at {
                Some(o) => {
                    return Err(
                        SidenoteError::Nested(context_excerpt(text, o), context_excerpt(text, p)),
                    );
                },
                None => {
                    let markup = MdEvent::InlineHtml(String::from_str("<span>"));
                    out.push(markup);
                    proof {
                        lemma_events_view_push(out0, markup);
                        assert forall|events: Seq<EventV>|
                            events_view(out0) + (seq![EventV::InlineHtml(span_open())]
                                + events) =~= events_view(out0.push(markup)) + events by {}
                    }
                    open_at = Some(p);
                    p += 1;
                },
            }
        } else if c == '}' {
            match open_at {
                Some(_) => {
                    let markup = MdEvent::InlineHtml(String::from_str("</span>"));
                    out.push(markup);
                    proof {
                        lemma_events_view_push(out0, markup);
                        assert forall|events: Seq<EventV>|
                            events_view(out0) + (seq![EventV::InlineHtml(span_close())]
                                + events) =~= events_view(out0.push(markup)) + events by {}
                    }
                    open_at = None;
                    p += 1;
                },
                None => {
                    return Err(SidenoteError::NotMatched(context_excerpt(text, p)));
                },
            }
        } else {
            let j = next_delim(text, p);
            proof {
                assert(s.skip(p as int)[0] == s[p as int]);
                assert(find_delim(s.skip(p as int)) == 1 + find_delim(s.skip(p as int).skip(1)));
                assert(s.skip(p as int).skip(1) =~= s.skip(p as int + 1));
                assert(j == min(p + 1 + find_delim(s.skip(p as int + 1)) as int, s.len() as int));
            }
            let seg = MdEvent::Text(String::from_str(text.substring_char(p, j)));
            out.push(seg);
            proof {
                lemma_events_view_push(out0, seg);
                assert forall|events: Seq<EventV>|
                    events_view(out0) + (seq![EventV::Text(s.subrange(p as int, j as int))]
                        + events) =~= events_view(out0.push(seg)) + events by {}
            }
            p = j;
        }
    }
    match open_at {
        Some(o) => Err(SidenoteError::NotMatched(context_excerpt(text, o))),
        None => {
            proof {
                assert(events_view(out@) + seq![] =~= events_view(out@));
            }
            Ok(out)
        },
    }
}

/// The bounded window at the head of the text still to be scanned: the
/// delimiter the scanner stands on and what follows it, up to the context
/// radius. It is all the surrounding text the resumable scanner still holds.
pub open spec fn fwd_context(rem: Seq<char>) -> Seq<char> {
    rem.take(min(CONTEXT_RADIUS as int + 1, rem.len() as int))
}

/// Extract the window at the head of `text`.
pub fn fwd_excerpt(text: &str) -> (r: String)
    ensures
        r@ == fwd_context(text@),
{
    let n = text.unicode_len();
    let hi = if n > CONTEXT_RADIUS {
        CONTEXT_RADIUS + 1
    } else {
        n
    };
    String::from_str(text.substring_char(0, hi))
}

/// How one character changes the sidenote nesting depth.
pub open spec fn brace_step(c: char) -> int {
    if c == '{' {
        1
    } else if c == '}' {
        -1
    } else {
        0
    }
}

/// The sidenote nesting depth after reading `s`: opening delimiters minus
/// closing ones.
pub open spec fn brace_depth(s: Seq<char>) -> int
    decreases s.len(),
{
    if s.len() == 0 {
        0
    } else {
        brace_depth(s.drop_last()) + brace_step(s.last())
    }
}

/// Balanced, non-nested delimiters: the depth never leaves {0, 1} and is 0 at
/// the end of the fragment.
pub open spec fn balanced(s: Seq<char>) -> bool {
    brace_depth(s) == 0 && forall|q: int|
        0 <= q <= s.len() ==> 0 <= #[trigger] brace_depth(s.take(q)) <= 1
}

/// Two opening delimiters with no closing delimiter between them: the shape
/// `{...{`.
pub open spec fn nested_open_at(s: Seq<char>, o: int, q: int) -> bool {
    &&& 0 <= o < q < s.len()
    &&& s[o] == '{'
    &&& s[q] == '{'
    &&& forall|r: int| o < r < q ==> s[r] != '}'
}

/// The fragment contains the shape `{...{` somewhere.
pub open spec fn has_nested_open(s: Seq<char>) -> bool {
    exists|o: int, q: int| nested_open_at(s, o, q)
}

/// Reading one more character adds its step to the depth.
proof fn lemma_depth_step(s: Seq<char>, q: int)
    requires
        0 <= q < s.len(),
    ensures
        brace_depth(s.take(q + 1)) == brace_depth(s.take(q)) + brace_step(s[q]),
{
    assert(s.take(q + 1).drop_last() =~= s.take(q));
    assert(s.take(q + 1).last() == s[q]);
}

/// A run of plain characters leaves the depth unchanged.
proof fn lemma_depth_plain(s: Seq<char>, a: int, b: int)
    requires
        0 <= a <= b <= s.len(),
        forall|r: int| a <= r < b ==> !is_delim(s[r]),
    ensures
        forall|q: int| a <= q <= b ==> brace_depth(s.take(q)) == brace_depth(s.take(a)),
    decreases b - a,
{
    if a < b {
        lemma_depth_plain(s, a, b - 1);
        lemma_depth_step(s, b - 1);
    }
}

/// A run starting with an opening delimiter and holding no closing one only
/// deepens the nesting.
proof fn lemma_no_close_depth(s: Seq<char>, o: int, b: int)
    requires
        0 <= o < b <= s.len(),
        s[o] == '{',
        forall|r: int| o < r < b ==> s[r] != '}',
    ensures
        brace_depth(s.take(b)) >= brace_depth(s.take(o)) + 1,
    decreases b - o,
{
    lemma_depth_step(s, b - 1);
    if b > o + 1 {
        lemma_no_close_depth(s, o, b - 1);
    }
}

/// What holds of a scanning position whenever the compiler reaches it: the
/// prefix kept the depth in {0, 1}, and the recorded open delimiter, if any,
/// is an as yet unclosed `{`.
pub open spec fn scan_config(s: Seq<char>, p: int, open_at: Option<int>) -> bool {
    &&& 0 <= p <= s.len()
    &&& forall|q: int| 0 <= q <= p ==> 0 <= #[trigger] brace_depth(s.take(q)) <= 1
    &&& match open_at {
        None => brace_depth(s.take(p)) == 0,
        Some(o) => {
            &&& 0 <= o < p
            &&& s[o] == '{'
            &&& brace_depth(s.take(p)) == 1
            &&& forall|r: int| o < r < p ==> s[r] != '}'
        },
    }
}

/// The text hop taken by the compiler from a plain character: everything up
/// to the next delimiter is plain and leaves the depth unchanged.
proof fn lemma_text_hop(s: Seq<char>, p: int)
    requires
        0 <= p < s.len(),
        !is_delim(s[p]),
    ensures
        ({
            let i = min(p + 1 + find_delim(s.skip(p + 1)) as int, s.len() as int);
            &&& p < i <= s.len()
            &&& forall|r: int| p <= r < i ==> !is_delim(s[r])
            &&& forall|q: int|
                p <= q <= i ==> brace_depth(s.take(q)) == brace_depth(s.take(p))
            &&& i < s.len() ==> is_delim(s[i])
        }),
{
    let i = min(p + 1 + find_delim(s.skip(p + 1)) as int, s.len() as int);
    lemma_find_delim_props(s.skip(p + 1));
    assert forall|r: int| p <= r < i implies !is_delim(s[r]) by {
        if r > p {
            assert(s[r] == s.skip(p + 1)[r - p - 1]);
        }
    }
    if i < s.len() {
        assert(s[i] == s.skip(p + 1)[i - p - 1]);
    }
    lemma_depth_plain(s, p, i);
}

/// Scanning from `p` succeeds exactly when the rest of the fragment keeps the
/// depth in {0, 1} and closes every sidenote by the end.
pub open spec fn tail_ok(s: Seq<char>, p: int) -> bool {
    brace_depth(s) == 0 && forall|q: int|
        p <= q <= s.len() ==> 0 <= #[trigger] brace_depth(s.take(q)) <= 1
}

proof fn lemma_compile_ok_iff(s: Seq<char>, p: int, open_at: Option<int>)
    requires
        scan_config(s, p, open_at),
    ensures
        compile_from(s, p, open_at) is Ok <==> tail_ok(s, p),
    decreases s.len() - p,
{
    assert(s.take(s.len() as int) =~= s);
    if p >= s.len() {
    } else if s[p] == '{' {
        lemma_depth_step(s, p);
        match open_at {
            Some(o) => {
                assert(brace_depth(s.take(p + 1)) == 2);
            },
            None => {
                lemma_compile_ok_iff(s, p + 1, Some(p));
            },
        }
    } else if s[p] == '}' {
        lemma_depth_step(s, p);
        match open_at {
            Some(o) => {
                lemma_compile_ok_iff(s, p + 1, None);
            },
            None => {
                assert(brace_depth(s.take(p + 1)) == -1);
            },
        }
    } else {
        lemma_text_hop(s, p);
        let i = min(p + 1 + find_delim(s.skip(p + 1)) as int, s.len() as int);
        lemma_compile_ok_iff(s, i, open_at);
    }
}

/// When the fragment holds no `{...{` shape, the compiler never reports a
/// nested sidenote, and it never reports a template failure at all.
proof fn lemma_compile_err_kind(s: Seq<char>, p: int, open_at: Option<int>)
    requires
        scan_config(s, p, open_at),
        !has_nested_open(s),
    ensures
        !(compile_from(s, p, open_at) matches Err(SidenoteErrorV::Nested(_, _))),
        !(compile_from(s, p, open_at) matches Err(SidenoteErrorV::Template(_))),
    decreases s.len() - p,
{
    if p >= s.len() {
    } else if s[p] == '{' {
        lemma_depth_step(s, p);
        match open_at {
            Some(o) => {
                assert(nested_open_at(s, o, p));
            },
            None => {
                lemma_compile_err_kind(s, p + 1, Some(p));
            },
        }
    } else if s[p] == '}' {
        lemma_depth_step(s, p);
        match open_at {
            Some(o) => {
                lemma_compile_err_kind(s, p + 1, None);
            },
            None => {
            },
        }
    } else {
        lemma_text_hop(s, p);
        let i = min(p + 1 + find_delim(s.skip(p + 1)) as int, s.len() as int);
        lemma_compile_err_kind(s, i, open_at);
    }
}

/// The compiler reaches its first delimiter in a valid configuration.
proof fn lemma_entry_config(s: Seq<char>)
    ensures
        scan_config(s, min(find_delim(s) as int, s.len() as int), None),
        balanced(s) <==> tail_ok(s, min(find_delim(s) as int, s.len() as int)),
{
    let i = min(find_delim(s) as int, s.len() as int);
    lemma_find_delim_props(s);
    assert(s.take(0) =~= Seq::<char>::empty());
    lemma_depth_plain(s, 0, i);
}

/// Compiling a fragment succeeds exactly when its sidenote delimiters are
/// balanced and non-nested: the nesting depth never leaves {0, 1} and every
/// opened sidenote is closed by the end of the fragment.
pub proof fn lemma_compile_balanced_iff(s: Seq<char>)
    ensures
        spec_compile(s) is Ok <==> balanced(s),
{
    lemma_entry_config(s);
    lemma_compile_ok_iff(s, min(find_delim(s) as int, s.len() as int), None);
}

/// A fragment with an unmatched delimiter and no `{...{` shape fails with
/// `NotMatched`.
pub proof fn lemma_unmatched_reports_not_matched(s: Seq<char>)
    requires
        !balanced(s),
        !has_nested_open(s),
    ensures
        spec_compile(s) matches Err(SidenoteErrorV::NotMatched(_)),
{
    lemma_entry_config(s);
    let i = min(find_delim(s) as int, s.len() as int);
    lemma_compile_ok_iff(s, i, None);
    lemma_compile_err_kind(s, i, None);
}

proof fn lemma_nested_helper(s: Seq<char>, p: int, open_at: Option<int>, o: int, q: int)
    requires
        scan_config(s, p, open_at),
        nested_open_at(s, o, q),
        p <= q,
        forall|r: int| 0 <= r <= q ==> #[trigger] brace_depth(s.take(r)) >= 0,
    ensures
        compile_from(s, p, open_at) matches Err(SidenoteErrorV::Nested(_, _)),
    decreases s.len() - p,
{
    if s[p] == '{' {
        lemma_depth_step(s, p);
        match open_at {
            Some(_) => {
            },
            None => {
                if p == q {
                    lemma_no_close_depth(s, o, q);
                    assert(false);
                } else {
                    lemma_nested_helper(s, p + 1, Some(p), o, q);
                }
            },
        }
    } else if s[p] == '}' {
        lemma_depth_step(s, p);
        match open_at {
            Some(_) => {
                lemma_nested_helper(s, p + 1, None, o, q);
            },
            None => {
                assert(brace_depth(s.take(p + 1)) == -1);
                assert(false);
            },
        }
    } else {
        lemma_text_hop(s, p);
        let i = min(p + 1 + find_delim(s.skip(p + 1)) as int, s.len() as int);
        assert(i <= q);
        lemma_nested_helper(s, i, open_at, o, q);
    }
}

/// A fragment holding the shape `{...{`, with no unmatched closing delimiter
/// before it, fails with `Nested`.
pub proof fn lemma_nested_reports_nested(s: Seq<char>, o: int, q: int)
    requires
        nested_open_at(s, o, q),
        forall|r: int| 0 <= r <= q ==> #[trigger] brace_depth(s.take(r)) >= 0,
    ensures
        spec_compile(s) matches Err(SidenoteErrorV::Nested(_, _)),
{
    lemma_entry_config(s);
    let i = min(find_delim(s) as int, s.len() as int);
    lemma_find_delim_props(s);
    assert(i <= q);
    lemma_nested_helper(s, i, None, o, q);
}

/// The fragment text that one output event stands for: a text event is its
/// own text, and the sidenote markup halves stand for the delimiters they
/// replaced.
pub open spec fn unrender_event(e: EventV) -> Seq<char> {
    match e {
        EventV::Text(t) => t,
        EventV::InlineHtml(h) => if h == span_open() {
            seq!['{']
        } else {
            seq!['}']
        },
        _ => Seq::empty(),
    }
}

/// The fragment text that a whole output sequence stands for.
pub open spec fn unrender(events: Seq<EventV>) -> Seq<char>
    decreases events.len(),
{
    if events.len() == 0 {
        Seq::empty()
    } else {
        unrender_event(events[0]) + unrender(events.skip(1))
    }
}

pub(crate) proof fn lemma_unrender_cons(e: EventV, events: Seq<EventV>)
    ensures
        unrender(seq![e] + events) == unrender_event(e) + unrender(events),
{
    assert((seq![e] + events)[0] == e);
    assert((seq![e] + events).skip(1) =~= events);
}

proof fn lemma_compile_unrender(s: Seq<char>, p: int, open_at: Option<int>)
    requires
        0 <= p <= s.len(),
        compile_from(s, p, open_at) is Ok,
    ensures
        unrender(compile_from(s, p, open_at)->Ok_0) == s.skip(p),
    decreases s.len() - p,
{
    reveal_strlit("<span>");
    reveal_strlit("</span>");
    if p >= s.len() {
        assert(s.skip(p) =~= Seq::<char>::empty());
    } else if s[p] == '{' {
        lemma_compile_unrender(s, p + 1, Some(p));
        lemma_unrender_cons(EventV::InlineHtml(span_open()), compile_from(s, p + 1, Some(p))->Ok_0);
        assert(seq!['{'] + s.skip(p + 1) =~= s.skip(p));
    } else if s[p] == '}' {
        lemma_compile_unrender(s, p + 1, None);
        lemma_unrender_cons(EventV::InlineHtml(span_close()), compile_from(s, p + 1, None)->Ok_0);
        assert(span_open().len() != span_close().len());
        assert(seq!['}'] + s.skip(p + 1) =~= s.skip(p));
    } else {
        let i = min(p + 1 + find_delim(s.skip(p + 1)) as int, s.len() as int);
        lemma_compile_unrender(s, i, open_at);
        lemma_unrender_cons(EventV::Text(s.subrange(p, i)), compile_from(s, i, open_at)->Ok_0);
        assert(s.subrange(p, i) + s.skip(i) =~= s.skip(p));
    }
}

/// Content preservation: when compiling succeeds, mapping each output event
/// back to the text it stands for — text events to their text, the markup
/// halves to the delimiters they replaced — reconstructs the fragment exactly.
pub proof fn lemma_compile_round_trip(s: Seq<char>)
    requires
        spec_compile(s) is Ok,
    ensures
        unrender(spec_compile(s)->Ok_0) == s,
{
    lemma_find_delim_props(s);
    let i = min(find_delim(s) as int, s.len() as int);
    lemma_compile_unrender(s, i, None);
    lemma_unrender_cons(EventV::Text(s.take(i)), compile_from(s, i, None)->Ok_0);
    assert(s.take(i) + s.skip(i) =~= s);
}

} // verus!
