use vstd::prelude::*;
use vstd::string::StrSliceExecFns;
use vstd::string::StringExecFns;

use crate::time::Timestamp;
use crate::toc::{Blog, BlogError, IndexedBlogPost, PostV, index_view};

verus! {

/// The decimal digit characters.
pub open spec fn digit_char(d: nat) -> char {
    if d == 0 {
        '0'
    } else if d == 1 {
        '1'
    } else if d == 2 {
        '2'
    } else if d == 3 {
        '3'
    } else if d == 4 {
        '4'
    } else if d == 5 {
        '5'
    } else if d == 6 {
        '6'
    } else if d == 7 {
        '7'
    } else if d == 8 {
        '8'
    } else {
        '9'
    }
}

/// The value of a decimal digit character, if it is one.
pub open spec fn digit_val(c: char) -> Option<nat> {
    if c == '0' {
        Some(0nat)
    } else if c == '1' {
        Some(1nat)
    } else if c == '2' {
        Some(2nat)
    } else if c == '3' {
        Some(3nat)
    } else if c == '4' {
        Some(4nat)
    } else if c == '5' {
        Some(5nat)
    } else if c == '6' {
        Some(6nat)
    } else if c == '7' {
        Some(7nat)
    } else if c == '8' {
        Some(8nat)
    } else if c == '9' {
        Some(9nat)
    } else {
        None
    }
}

/// The decimal digits of a number, most significant first.
pub open spec fn dec_digits(n: nat) -> Seq<char>
    decreases n,
{
    if n < 10 {
        seq![digit_char(n)]
    } else {
        dec_digits(n / 10) + seq![digit_char(n % 10)]
    }
}

/// The number a run of characters spells in decimal, if every character is a
/// digit and there is at least one.
pub open spec fn field_num(f: Seq<char>) -> Option<nat>
    decreases f.len(),
{
    if f.len() == 0 {
        None
    } else if f.len() == 1 {
        digit_val(f[0])
    } else {
        match (field_num(f.drop_last()), digit_val(f.last())) {
            (Some(v), Some(d)) => Some(v * 10 + d),
            _ => None,
        }
    }
}

/// A field that must be wrapped in quotes to survive the row format: one
/// holding a quote, the field separator or a line break.
pub open spec fn needs_quote(f: Seq<char>) -> bool {
    exists|i: int|
        0 <= i < f.len() && ((#[trigger] f[i]) == '"' || f[i] == ',' || f[i] == '\n' || f[i]
            == '\r')
}

/// A field's characters with each quote doubled.
pub open spec fn escape_quotes(f: Seq<char>) -> Seq<char>
    decreases f.len(),
{
    if f.len() == 0 {
        Seq::empty()
    } else {
        escape_quotes(f.drop_last()) + (if f.last() == '"' {
            seq!['"', '"']
        } else {
            seq![f.last()]
        })
    }
}

/// A field as it stands in a row: wrapped in quotes, with inner quotes
/// doubled, exactly when its content requires it.
pub open spec fn render_field(f: Seq<char>) -> Seq<char> {
    if needs_quote(f) {
        seq!['"'] + escape_quotes(f) + seq!['"']
    } else {
        f
    }
}

/// The title column: an absent title is stored as an empty field.
pub open spec fn title_field(title: Option<Seq<char>>) -> Seq<char> {
    match title {
        Some(t) => t,
        None => Seq::empty(),
    }
}

/// One record as one row: URL, the two timestamps split into seconds and
/// nanoseconds, and the title, comma-separated and newline-terminated. The
/// on-disk path and the transient seen marker are deliberately not
/// persisted.
pub open spec fn render_row(p: PostV) -> Seq<char> {
    render_field(p.post_url) + seq![','] + dec_digits(p.last_updated.secs as nat) + seq![',']
        + dec_digits(p.last_updated.nanos as nat) + seq![','] + dec_digits(
        p.first_published.secs as nat,
    ) + seq![','] + dec_digits(p.first_published.nanos as nat) + seq![','] + render_field(
        title_field(p.title),
    ) + seq!['\n']
}

/// The whole persisted index: one row per record, in index order, with no
/// header.
pub open spec fn render_index(index: Seq<PostV>) -> Seq<char>
    decreases index.len(),
{
    if index.len() == 0 {
        Seq::empty()
    } else {
        render_row(index[0]) + render_index(index.skip(1))
    }
}

/// One decimal digit as a borrowed piece of text.
fn digit_str(d: u64) -> (r: &'static str)
    requires
        d < 10,
    ensures
        r@ == seq![digit_char(d as nat)],
{
    proof {
        reveal_strlit("0");
        reveal_strlit("1");
        reveal_strlit("2");
        reveal_strlit("3");
        reveal_strlit("4");
        reveal_strlit("5");
        reveal_strlit("6");
        reveal_strlit("7");
        reveal_strlit("8");
        reveal_strlit("9");
    }
    if d == 0 {
        "0"
    } else if d == 1 {
        "1"
    } else if d == 2 {
        "2"
    } else if d == 3 {
        "3"
    } else if d == 4 {
        "4"
    } else if d == 5 {
        "5"
    } else if d == 6 {
        "6"
    } else if d == 7 {
        "7"
    } else {
        if d == 8 {
            "8"
        } else {
            "9"
        }
    }
}

/// A number spelled in decimal.
fn u64_to_string(n: u64) -> (r: String)
    ensures
        r@ == dec_digits(n as nat),
    decreases n,
{
    if n < 10 {
        String::from_str(digit_str(n))
    } else {
        let mut s = u64_to_string(n / 10);
        s.append(digit_str(n % 10));
        s
    }
}

/// Render one field, quoting it when its content requires it.
fn render_field_str(f: &str) -> (r: String)
    ensures
        r@ == render_field(f@),
{
    let n = f.unicode_len();
    let mut quote = false;
    let mut i: usize = 0;
    while i < n
        invariant
            i <= n,
            n == f@.len(),
            quote <==> exists|j: int|
                0 <= j < i && ((#[trigger] f@[j]) == '"' || f@[j] == ',' || f@[j] == '\n' || f@[j]
                    == '\r'),
        decreases n - i,
    {
        let c = f.get_char(i);
        if c == '"' || c == ',' || c == '\n' || c == '\r' {
            quote = true;
        }
        i += 1;
    }
    if !quote {
        return String::from_str(f);
    }
    proof {
        reveal_strlit("\"");
        reveal_strlit("\"\"");
    }
    let mut out = String::from_str("\"");
    proof {
        assert(f@.take(0) =~= Seq::<char>::empty());
        assert(seq!['"'] + escape_quotes(f@.take(0)) =~= seq!['"']);
    }
    let mut k: usize = 0;
    while k < n
        invariant
            k <= n,
            n == f@.len(),
            out@ == seq!['"'] + escape_quotes(f@.take(k as int)),
            "\""@ == seq!['"'],
            "\"\""@ == seq!['"', '"'],
        decreases n - k,
    {
        let c = f.get_char(k);
        if c == '"' {
            out.append("\"\"");
        } else {
            out.append(f.substring_char(k, k + 1));
        }
        proof {
            assert(f@.take(k + 1).drop_last() =~= f@.take(k as int));
            assert(f@.take(k + 1).last() == f@[k as int]);
            if c != '"' {
                assert(f@.subrange(k as int, k + 1) =~= seq![f@[k as int]]);
            }
        }
        k += 1;
    }
    out.append("\"");
    proof {
        assert(f@.take(n as int) =~= f@);
    }
    out
}

/// Render one record as its row.
fn render_row_str(post: &IndexedBlogPost) -> (r: String)
    ensures
        r@ == render_row(post@),
{
    proof {
        reveal_strlit(",");
        reveal_strlit("\n");
        reveal_strlit("");
    }
    let mut row = render_field_str(post.post_url.as_str());
    row.append(",");
    row.append(u64_to_string(post.last_updated.secs).as_str());
    row.append(",");
    row.append(u64_to_string(post.last_updated.nanos as u64).as_str());
    row.append(",");
    row.append(u64_to_string(post.first_published.secs).as_str());
    row.append(",");
    row.append(u64_to_string(post.first_published.nanos as u64).as_str());
    row.append(",");
    match &post.title {
        Some(t) => {
            row.append(render_field_str(t.as_str()).as_str());
        },
        None => {
            row.append(render_field_str("").as_str());
        },
    }
    row.append("\n");
    proof {
        assert(render_field(Seq::<char>::empty()) =~= Seq::<char>::empty());
        assert(row@ =~= render_row(post@));
    }
    row
}

impl Blog {
    /// The text of the persisted index for the current records: one
    /// header-less row per post, in index order.
    pub fn render_index_text(&self) -> (r: String)
        ensures
            r@ == render_index(index_view(self.index@)),
    {
        let mut out = String::new();
        let n = self.index.len();
        proof {
            assert(index_view(self.index@).skip(0) =~= index_view(self.index@));
            assert(Seq::<char>::empty() + render_index(index_view(self.index@)) =~= render_index(
                index_view(self.index@),
            ));
        }
        let mut k: usize = 0;
        while k < n
            invariant
                k <= n,
                n == self.index@.len(),
                render_index(index_view(self.index@)) == out@ + render_index(
                    index_view(self.index@).skip(k as int),
                ),
            decreases n - k,
        {
            let ghost iv = index_view(self.index@);
            let row = render_row_str(&self.index[k]);
            out.append(row.as_str());
            proof {
                assert(iv.skip(k as int)[0] == iv[k as int]);
                assert(iv.skip(k as int).skip(1) =~= iv.skip(k + 1));
                assert(iv[k as int] == self.index@[k as int]@);
            }
            k += 1;
        }
        proof {
            assert(index_view(self.index@).skip(n as int) =~= Seq::<PostV>::empty());
            assert(out@ + Seq::<char>::empty() =~= out@);
        }
        out
    }
}

/// Parse the inside of a quoted field from position `i`, accumulating the
/// content read so far: a doubled quote stands for one quote, a single quote
/// closes the field, and a field left open at the end of the text is
/// malformed.
pub open spec fn spec_parse_quoted(s: Seq<char>, i: int, acc: Seq<char>) -> Option<
    (Seq<char>, int),
>
    decreases s.len() - i,
{
    if i >= s.len() {
        None
    } else if s[i] == '"' {
        if i + 1 < s.len() && s[i + 1] == '"' {
            spec_parse_quoted(s, i + 2, acc + seq!['"'])
        } else {
            Some((acc, i + 1))
        }
    } else {
        spec_parse_quoted(s, i + 1, acc + seq![s[i]])
    }
}

/// The end of an unquoted field: the next separator or line break, or the
/// end of the text.
pub open spec fn scan_unquoted(s: Seq<char>, i: int) -> int
    decreases s.len() - i,
{
    if i >= s.len() {
        i
    } else if s[i] == ',' || s[i] == '\n' {
        i
    } else {
        scan_unquoted(s, i + 1)
    }
}

/// Parse one field at position `i`: quoted if it opens with a quote, plain
/// up to the next separator otherwise. Yields the field's content and the
/// position just past it.
pub open spec fn spec_parse_field(s: Seq<char>, i: int) -> Option<(Seq<char>, int)> {
    if i < s.len() && s[i] == '"' {
        spec_parse_quoted(s, i + 1, Seq::empty())
    } else {
        let j = scan_unquoted(s, i);
        Some((s.subrange(i, j), j))
    }
}

/// The number a field spells, if it is all digits and fits.
pub open spec fn num_field(f: Seq<char>) -> Option<u64> {
    match field_num(f) {
        Some(v) => if v <= u64::MAX {
            Some(v as u64)
        } else {
            None
        },
        None => None,
    }
}

/// Parse one numeric field at position `i`.
pub open spec fn spec_parse_num(s: Seq<char>, i: int) -> Option<(u64, int)> {
    match spec_parse_field(s, i) {
        Some(p) => match num_field(p.0) {
            Some(v) => Some((v, p.1)),
            None => None,
        },
        None => None,
    }
}

/// An empty title field stands for no title.
pub open spec fn title_of_field(f: Seq<char>) -> Option<Seq<char>> {
    if f.len() == 0 {
        None
    } else {
        Some(f)
    }
}

/// The position holds the field separator.
pub open spec fn comma_at(s: Seq<char>, i: int) -> bool {
    0 <= i < s.len() && s[i] == ','
}

/// Parse one row at position `i` into a record: the URL, the two timestamps
/// as four numeric columns, and the title, separated by commas and closed by
/// a line break. The nanosecond columns must stay within one second. The
/// on-disk path and the seen marker are not persisted, so they come back
/// empty and clear.
pub open spec fn spec_parse_row(s: Seq<char>, i: int) -> Option<(PostV, int)> {
    match spec_parse_field(s, i) {
        None => None,
        Some((url, a)) => if !comma_at(s, a) {
            None
        } else {
            match spec_parse_num(s, a + 1) {
                None => None,
                Some((lu_secs, b)) => if !comma_at(s, b) {
                    None
                } else {
                    match spec_parse_num(s, b + 1) {
                        None => None,
                        Some((lu_nanos, c)) => if !(lu_nanos < 1_000_000_000 && comma_at(s, c)) {
                            None
                        } else {
                            match spec_parse_num(s, c + 1) {
                                None => None,
                                Some((fp_secs, d)) => if !comma_at(s, d) {
                                    None
                                } else {
                                    match spec_parse_num(s, d + 1) {
                                        None => None,
                                        Some((fp_nanos, e)) => if !(fp_nanos < 1_000_000_000
                                            && comma_at(s, e)) {
                                            None
                                        } else {
                                            match spec_parse_field(s, e + 1) {
                                                None => None,
                                                Some((title, g)) => if !(0 <= g < s.len() && s[g]
                                                    == '\n') {
                                                    None
                                                } else {
                                                    Some(
                                                        (
                                                            PostV {
                                                                path: Seq::empty(),
                                                                post_url: url,
                                                                last_updated: Timestamp {
                                                                    secs: lu_secs,
                                                                    nanos: lu_nanos as u32,
                                                                },
                                                                first_published: Timestamp {
                                                                    secs: fp_secs,
                                                                    nanos: fp_nanos as u32,
                                                                },
                                                                checked: false,
                                                                title: title_of_field(title),
                                                            },
                                                            g + 1,
                                                        ),
                                                    )
                                                },
                                            }
                                        },
                                    }
                                },
                            }
                        },
                    }
                },
            }
        },
    }
}

/// Parse the whole persisted index: rows until the end of the text.
pub open spec fn spec_parse_rows(s: Seq<char>, i: int) -> Option<Seq<PostV>>
    decreases s.len() - i,
{
    if i == s.len() {
        Some(seq![])
    } else {
        match spec_parse_row(s, i) {
            Some((p, j)) => if i < j <= s.len() {
                match spec_parse_rows(s, j) {
                    Some(rest) => Some(seq![p] + rest),
                    None => None,
                }
            } else {
                None
            },
            None => None,
        }
    }
}

/// An invalid character anywhere keeps a field from being a number.
proof fn lemma_field_num_invalid(f: Seq<char>, k: int)
    requires
        0 <= k < f.len(),
        digit_val(f[k]) is None,
    ensures
        field_num(f) is None,
    decreases f.len(),
{
    if f.len() > 1 && k < f.len() - 1 {
        lemma_field_num_invalid(f.drop_last(), k);
    }
}

/// A digit prefix of a numeric field spells no more than the whole field.
proof fn lemma_field_num_prefix(f: Seq<char>, j: int)
    requires
        1 <= j <= f.len(),
        field_num(f) is Some,
    ensures
        field_num(f.take(j)) is Some,
        field_num(f.take(j))->0 <= field_num(f)->0,
    decreases f.len(),
{
    if j == f.len() {
        assert(f.take(j) =~= f);
    } else {
        assert(f.take(j) =~= f.drop_last().take(j));
        lemma_field_num_prefix(f.drop_last(), j);
    }
}

/// One decimal digit's value, if the character is one.
fn digit_of(c: char) -> (r: Option<u64>)
    ensures
        match digit_val(c) {
            Some(v) => r == Some(v as u64),
            None => r is None,
        },
{
    match c {
        '0' => Some(0),
        '1' => Some(1),
        '2' => Some(2),
        '3' => Some(3),
        '4' => Some(4),
        '5' => Some(5),
        '6' => Some(6),
        '7' => Some(7),
        '8' => Some(8),
        '9' => Some(9),
        _ => None,
    }
}

/// Every digit character spells its own value.
proof fn lemma_digit_char_val(d: nat)
    requires
        d < 10,
    ensures
        digit_val(digit_char(d)) == Some(d),
{
}

/// A rendered number is at least one character, all of them digits.
proof fn lemma_dec_digits_chars(n: nat)
    ensures
        dec_digits(n).len() >= 1,
        forall|i: int| 0 <= i < dec_digits(n).len() ==> digit_val(#[trigger] dec_digits(n)[i])
            is Some,
    decreases n,
{
    if n < 10 {
        lemma_digit_char_val(n);
    } else {
        lemma_dec_digits_chars(n / 10);
        lemma_digit_char_val(n % 10);
        assert forall|i: int| 0 <= i < dec_digits(n).len() implies digit_val(
            #[trigger] dec_digits(n)[i],
        ) is Some by {
            if i < dec_digits(n / 10).len() {
                assert(dec_digits(n)[i] == dec_digits(n / 10)[i]);
            } else {
                assert(dec_digits(n)[i] == digit_char(n % 10));
            }
        }
    }
}

/// Reading back a rendered number yields the number.
proof fn lemma_field_num_digits(n: nat)
    requires
        n <= u64::MAX,
    ensures
        field_num(dec_digits(n)) == Some(n),
    decreases n,
{
    if n < 10 {
        lemma_digit_char_val(n);
    } else {
        lemma_field_num_digits(n / 10);
        lemma_digit_char_val(n % 10);
        lemma_dec_digits_chars(n / 10);
        let f = dec_digits(n);
        assert(f.drop_last() =~= dec_digits(n / 10));
        assert(f.last() == digit_char(n % 10));
    }
}

/// A run of plain characters scans to the terminator that follows it.
proof fn lemma_scan_unquoted_to(s: Seq<char>, i: int, j: int)
    requires
        0 <= i <= j <= s.len(),
        forall|r: int| i <= r < j ==> (#[trigger] s[r]) != ',' && s[r] != '\n',
        j < s.len(),
        s[j] == ',' || s[j] == '\n',
    ensures
        scan_unquoted(s, i) == j,
    decreases j - i,
{
    if i < j {
        lemma_scan_unquoted_to(s, i + 1, j);
    }
}

/// Escaping can also be peeled from the front, one character at a time.
proof fn lemma_escape_front(f: Seq<char>)
    requires
        f.len() > 0,
    ensures
        escape_quotes(f) == (if f[0] == '"' {
            seq!['"', '"']
        } else {
            seq![f[0]]
        }) + escape_quotes(f.skip(1)),
    decreases f.len(),
{
    let unit0 = if f[0] == '"' {
        seq!['"', '"']
    } else {
        seq![f[0]]
    };
    if f.len() == 1 {
        assert(f.drop_last() =~= Seq::<char>::empty());
        assert(f.skip(1) =~= Seq::<char>::empty());
        assert(escape_quotes(f) =~= unit0 + escape_quotes(f.skip(1)));
    } else {
        lemma_escape_front(f.drop_last());
        let last_unit = if f.last() == '"' {
            seq!['"', '"']
        } else {
            seq![f.last()]
        };
        assert(f.drop_last()[0] == f[0]);
        assert(f.drop_last().skip(1) =~= f.skip(1).drop_last());
        assert(f.skip(1).last() == f.last());
        assert(escape_quotes(f.skip(1)) == escape_quotes(f.skip(1).drop_last()) + last_unit);
        assert((unit0 + escape_quotes(f.skip(1).drop_last())) + last_unit =~= unit0 + (
        escape_quotes(f.skip(1).drop_last()) + last_unit));
    }
}

/// Parsing the escaped body of a quoted field recovers the field.
proof fn lemma_parse_quoted_escaped(s: Seq<char>, i: int, f: Seq<char>, acc: Seq<char>)
    requires
        0 <= i,
        i + escape_quotes(f).len() + 1 <= s.len(),
        s.subrange(i, i + escape_quotes(f).len() as int) == escape_quotes(f),
        s[i + escape_quotes(f).len() as int] == '"',
        i + escape_quotes(f).len() + 1 == s.len() || s[i + escape_quotes(f).len() + 1] != '"',
    ensures
        spec_parse_quoted(s, i, acc) == Some(
            (acc + f, i + escape_quotes(f).len() + 1 as int),
        ),
    decreases f.len(),
{
    let esc = escape_quotes(f);
    assert forall|r: int| i <= r < i + esc.len() implies s[r] == esc[r - i] by {
        assert(s.subrange(i, i + esc.len() as int)[r - i] == s[r]);
    }
    if f.len() == 0 {
        assert(esc =~= Seq::<char>::empty());
        assert(acc + f =~= acc);
    } else {
        lemma_escape_front(f);
        let unit0 = if f[0] == '"' {
            seq!['"', '"']
        } else {
            seq![f[0]]
        };
        let esc1 = escape_quotes(f.skip(1));
        assert(esc == unit0 + esc1);
        if f[0] == '"' {
            assert(s[i] == esc[0]);
            assert(esc[0] == '"');
            assert(s[i + 1] == esc[1]);
            assert(esc[1] == '"');
            assert(s.subrange(i + 2, i + 2 + esc1.len() as int) =~= esc1);
            lemma_parse_quoted_escaped(s, i + 2, f.skip(1), acc + seq!['"']);
            assert((acc + seq!['"']) + f.skip(1) =~= acc + f);
        } else {
            assert(s[i] == esc[0]);
            assert(esc[0] == f[0]);
            assert(f[0] != '"');
            assert(s.subrange(i + 1, i + 1 + esc1.len() as int) =~= esc1);
            lemma_parse_quoted_escaped(s, i + 1, f.skip(1), acc + seq![f[0]]);
            assert((acc + seq![f[0]]) + f.skip(1) =~= acc + f);
        }
    }
}

/// Parsing a rendered field, followed by its terminator, recovers the field.
proof fn lemma_parse_field_rendered(s: Seq<char>, i: int, f: Seq<char>)
    requires
        0 <= i,
        i + render_field(f).len() < s.len(),
        s.subrange(i, i + render_field(f).len() as int) == render_field(f),
        s[i + render_field(f).len() as int] == ',' || s[i + render_field(f).len() as int] == '\n',
    ensures
        spec_parse_field(s, i) == Some((f, i + render_field(f).len() as int)),
{
    let rendered = render_field(f);
    assert forall|r: int| i <= r < i + rendered.len() implies s[r] == rendered[r - i] by {
        assert(s.subrange(i, i + rendered.len() as int)[r - i] == s[r]);
    }
    if needs_quote(f) {
        let esc = escape_quotes(f);
        assert(s[i] == rendered[0]);
        assert(rendered[0] == '"');
        assert(s.subrange(i + 1, i + 1 + esc.len() as int) =~= esc);
        assert(s[i + 1 + esc.len() as int] == rendered[rendered.len() - 1]);
        assert(rendered[rendered.len() - 1] == '"');
        assert(s[i + 1 + esc.len() + 1] != '"');
        lemma_parse_quoted_escaped(s, i + 1, f, Seq::empty());
        assert(Seq::<char>::empty() + f =~= f);
    } else {
        assert forall|r: int| i <= r < i + rendered.len() implies (#[trigger] s[r]) != ','
            && s[r] != '\n' by {
            assert(s[r] == f[r - i]);
        }
        lemma_scan_unquoted_to(s, i, i + rendered.len() as int);
        if i < s.len() && s[i] == '"' {
            assert(f[0] == '"');
            assert(false);
        }
        assert(s.subrange(i, i + rendered.len() as int) =~= f);
    }
}

/// Parsing a rendered number, followed by its terminator, recovers it.
proof fn lemma_parse_num_rendered(s: Seq<char>, i: int, n: u64)
    requires
        0 <= i,
        i + dec_digits(n as nat).len() < s.len(),
        s.subrange(i, i + dec_digits(n as nat).len() as int) == dec_digits(n as nat),
        s[i + dec_digits(n as nat).len() as int] == ',' || s[i + dec_digits(n as nat).len() as int]
            == '\n',
    ensures
        spec_parse_num(s, i) == Some((n, i + dec_digits(n as nat).len() as int)),
{
    let digits = dec_digits(n as nat);
    lemma_dec_digits_chars(n as nat);
    assert(!needs_quote(digits)) by {
        if needs_quote(digits) {
            let r = choose|r: int|
                0 <= r < digits.len() && ((#[trigger] digits[r]) == '"' || digits[r] == ','
                    || digits[r] == '\n' || digits[r] == '\r');
            assert(digit_val(digits[r]) is Some);
        }
    }
    lemma_parse_field_rendered(s, i, digits);
    lemma_field_num_digits(n as nat);
}

/// A record with its transient parts cleared: what a fresh load of the
/// persisted store yields for it.
pub open spec fn stored_form(p: PostV) -> PostV {
    PostV { path: Seq::empty(), checked: false, ..p }
}

/// Parsing one rendered row recovers the record in its stored form.
#[verifier::rlimit(100)]
proof fn lemma_parse_row_rendered(s: Seq<char>, i: int, p: PostV)
    requires
        0 <= i,
        i + render_row(p).len() <= s.len(),
        s.subrange(i, i + render_row(p).len() as int) == render_row(p),
        crate::time::ts_wf(p.last_updated),
        crate::time::ts_wf(p.first_published),
        p.title != Some(Seq::<char>::empty()),
    ensures
        spec_parse_row(s, i) == Some((stored_form(p), i + render_row(p).len() as int)),
{
    let row = render_row(p);
    let url_f = render_field(p.post_url);
    let d1 = dec_digits(p.last_updated.secs as nat);
    let d2 = dec_digits(p.last_updated.nanos as nat);
    let d3 = dec_digits(p.first_published.secs as nat);
    let d4 = dec_digits(p.first_published.nanos as nat);
    let title_f = render_field(title_field(p.title));
    let o1 = i + url_f.len() as int;
    let o2 = o1 + 1 + d1.len() as int;
    let o3 = o2 + 1 + d2.len() as int;
    let o4 = o3 + 1 + d3.len() as int;
    let o5 = o4 + 1 + d4.len() as int;
    let o6 = o5 + 1 + title_f.len() as int;
    assert(row.len() == url_f.len() + 1 + d1.len() + 1 + d2.len() + 1 + d3.len() + 1 + d4.len()
        + 1 + title_f.len() + 1);
    assert forall|r: int| i <= r < i + row.len() implies s[r] == row[r - i] by {
        assert(s.subrange(i, i + row.len() as int)[r - i] == s[r]);
    }
    assert(s.subrange(i, o1) =~= url_f);
    assert(s[o1] == ',');
    assert(s.subrange(o1 + 1, o2) =~= d1);
    assert(s[o2] == ',');
    assert(s.subrange(o2 + 1, o3) =~= d2);
    assert(s[o3] == ',');
    assert(s.subrange(o3 + 1, o4) =~= d3);
    assert(s[o4] == ',');
    assert(s.subrange(o4 + 1, o5) =~= d4);
    assert(s[o5] == ',');
    assert(s.subrange(o5 + 1, o6) =~= title_f);
    assert(s[o6] == '\n');
    lemma_parse_field_rendered(s, i, p.post_url);
    lemma_parse_num_rendered(s, o1 + 1, p.last_updated.secs);
    lemma_parse_num_rendered(s, o2 + 1, p.last_updated.nanos as u64);
    lemma_parse_num_rendered(s, o3 + 1, p.first_published.secs);
    lemma_parse_num_rendered(s, o4 + 1, p.first_published.nanos as u64);
    lemma_parse_field_rendered(s, o5 + 1, title_field(p.title));
    assert(title_of_field(title_field(p.title)) == p.title) by {
        match p.title {
            Some(t) => {
                if t.len() == 0 {
                    assert(t =~= Seq::<char>::empty());
                }
            },
            None => {},
        }
    }
    let parsed = spec_parse_row(s, i)->Some_0;
    assert(parsed.0 =~= stored_form(p));
}

/// What the store writes it reads back: parsing a rendered index yields the
/// same records in stored form, their on-disk paths and seen markers clear.
/// It holds of every index whose timestamps are well formed and whose titles,
/// where present, are not empty (an empty title is stored as no title).
pub proof fn lemma_store_round_trip(index: Seq<PostV>)
    requires
        forall|k: int|
            0 <= k < index.len() ==> crate::time::ts_wf((#[trigger] index[k]).last_updated)
                && crate::time::ts_wf(index[k].first_published) && index[k].title != Some(
                Seq::<char>::empty(),
            ),
    ensures
        spec_parse_rows(render_index(index), 0) == Some(
            index.map_values(|p: PostV| stored_form(p)),
        ),
{
    assert(render_index(index).skip(0) =~= render_index(index));
    lemma_rows_round_trip(render_index(index), 0, index);
}

/// The suffix of the store's text from `i` on parses back to the records it
/// renders.
proof fn lemma_rows_round_trip(s: Seq<char>, i: int, index: Seq<PostV>)
    requires
        0 <= i <= s.len(),
        s.skip(i) == render_index(index),
        forall|k: int|
            0 <= k < index.len() ==> crate::time::ts_wf((#[trigger] index[k]).last_updated)
                && crate::time::ts_wf(index[k].first_published) && index[k].title != Some(
                Seq::<char>::empty(),
            ),
    ensures
        spec_parse_rows(s, i) == Some(index.map_values(|p: PostV| stored_form(p))),
    decreases index.len(),
{
    if index.len() == 0 {
        assert(i == s.len());
        assert(index.map_values(|p: PostV| stored_form(p)) =~= Seq::<PostV>::empty());
    } else {
        let head = index[0];
        let row = render_row(head);
        assert(render_index(index) == row + render_index(index.skip(1)));
        assert forall|r: int| i <= r < s.len() implies s[r] == render_index(index)[r - i] by {
            assert(s.skip(i)[r - i] == s[r]);
        }
        assert(row.len() >= 1);
        assert(i + row.len() <= s.len());
        assert(s.subrange(i, i + row.len() as int) =~= row);
        lemma_parse_row_rendered(s, i, head);
        let j = i + row.len() as int;
        assert(s.skip(j) =~= render_index(index.skip(1)));
        assert forall|k: int|
            0 <= k < index.skip(1).len() implies crate::time::ts_wf(
            (#[trigger] index.skip(1)[k]).last_updated,
        ) && crate::time::ts_wf(index.skip(1)[k].first_published) && index.skip(1)[k].title
            != Some(Seq::<char>::empty()) by {
            assert(index.skip(1)[k] == index[k + 1]);
        }
        lemma_rows_round_trip(s, j, index.skip(1));
        assert(seq![stored_form(head)] + index.skip(1).map_values(|p: PostV| stored_form(p))
            =~= index.map_values(|p: PostV| stored_form(p)));
    }
}

/// Parse one field of the row format at character position `i`.
fn parse_field_at(s: &str, i: usize) -> (r: Option<(String, usize)>)
    requires
        i <= s@.len(),
    ensures
        match r {
            Some(p) => spec_parse_field(s@, i as int) == Some((p.0@, p.1 as int)) && i <= p.1
                <= s@.len(),
            None => spec_parse_field(s@, i as int) is None,
        },
{
    let n = s.unicode_len();
    if i < n && s.get_char(i) == '"' {
        proof {
            reveal_strlit("\"");
        }
        let mut acc = String::new();
        let mut j = i + 1;
        loop
            invariant
                i + 1 <= j <= n,
                n == s@.len(),
                i < n && s@[i as int] == '"',
                "\""@ == seq!['"'],
                spec_parse_quoted(s@, i as int + 1, Seq::empty()) == spec_parse_quoted(
                    s@,
                    j as int,
                    acc@,
                ),
            decreases n - j,
        {
            if j >= n {
                return None;
            }
            let c = s.get_char(j);
            if c == '"' {
                if j + 1 < n && s.get_char(j + 1) == '"' {
                    acc.append("\"");
                    j += 2;
                } else {
                    proof {
                        assert(spec_parse_quoted(s@, j as int, acc@) == Some((acc@, j as int + 1)));
                    }
                    return Some((acc, j + 1));
                }
            } else {
                acc.append(s.substring_char(j, j + 1));
                proof {
                    assert(s@.subrange(j as int, j as int + 1) =~= seq![s@[j as int]]);
                }
                j += 1;
            }
        }
    } else {
        let mut j = i;
        while j < n
            invariant
                i <= j <= n,
                n == s@.len(),
                !(i < n && s@[i as int] == '"'),
                scan_unquoted(s@, i as int) == scan_unquoted(s@, j as int),
            decreases n - j,
        {
            let c = s.get_char(j);
            if c == ',' || c == '\n' {
                proof {
                    assert(scan_unquoted(s@, j as int) == j as int);
                    assert(spec_parse_field(s@, i as int) == Some(
                        (s@.subrange(i as int, j as int), j as int),
                    ));
                }
                let value = String::from_str(s.substring_char(i, j));
                return Some((value, j));
            }
            j += 1;
        }
        proof {
            assert(scan_unquoted(s@, n as int) == n as int);
        }
        let value = String::from_str(s.substring_char(i, n));
        Some((value, n))
    }
}

/// Parse one numeric field at character position `i`.
fn parse_num_at(s: &str, i: usize) -> (r: Option<(u64, usize)>)
    requires
        i <= s@.len(),
    ensures
        match r {
            Some(p) => spec_parse_num(s@, i as int) == Some((p.0, p.1 as int)) && i <= p.1
                <= s@.len(),
            None => spec_parse_num(s@, i as int) is None,
        },
{
    match parse_field_at(s, i) {
        None => None,
        Some((f, j)) => {
            let m = f.as_str().unicode_len();
            if m == 0 {
                return None;
            }
            let mut acc: u64 = 0;
            let mut k: usize = 0;
            while k < m
                invariant
                    k <= m,
                    m == f@.len(),
                    m > 0,
                    i <= j <= s@.len(),
                    spec_parse_field(s@, i as int) == Some((f@, j as int)),
                    k == 0 ==> acc == 0,
                    k > 0 ==> field_num(f@.take(k as int)) == Some(acc as nat),
                decreases m - k,
            {
                let c = f.as_str().get_char(k);
                match digit_of(c) {
                    None => {
                        proof {
                            lemma_field_num_invalid(f@, k as int);
                        }
                        return None;
                    },
                    Some(d) => {
                        if acc > (u64::MAX - d) / 10 {
                            proof {
                                assert(field_num(f@.take(k as int + 1)) == Some(
                                    (acc * 10 + d) as nat,
                                )) by {
                                    assert(f@.take(k as int + 1).drop_last() =~= f@.take(k as int));
                                    assert(f@.take(k as int + 1).last() == f@[k as int]);
                                };
                                assert(acc * 10 + d > u64::MAX) by (nonlinear_arith)
                                    requires
                                        acc > (u64::MAX - d) / 10,
                                        d < 10,
                                ;
                                if field_num(f@) is Some {
                                    lemma_field_num_prefix(f@, k as int + 1);
                                }
                            }
                            return None;
                        }
                        proof {
                            assert(acc * 10 + d <= u64::MAX) by (nonlinear_arith)
                                requires
                                    acc <= (u64::MAX - d) / 10,
                                    d < 10,
                            ;
                            assert(f@.take(k as int + 1).drop_last() =~= f@.take(k as int));
                            assert(f@.take(k as int + 1).last() == f@[k as int]);
                        }
                        acc = acc * 10 + d;
                        k += 1;
                    },
                }
            }
            proof {
                assert(f@.take(m as int) =~= f@);
            }
            Some((acc, j))
        },
    }
}

/// Parse one row of the persisted index at character position `i`.
fn parse_row_at(s: &str, i: usize) -> (r: Option<(IndexedBlogPost, usize)>)
    requires
        i <= s@.len(),
    ensures
        match r {
            Some(p) => spec_parse_row(s@, i as int) == Some((p.0@, p.1 as int)) && i <= p.1
                <= s@.len(),
            None => spec_parse_row(s@, i as int) is None,
        },
{
    let n = s.unicode_len();
    let (url, a) = match parse_field_at(s, i) {
        Some(p) => p,
        None => {
            return None;
        },
    };
    if !(a < n && s.get_char(a) == ',') {
        return None;
    }
    let (lu_secs, b) = match parse_num_at(s, a + 1) {
        Some(p) => p,
        None => {
            return None;
        },
    };
    if !(b < n && s.get_char(b) == ',') {
        return None;
    }
    let (lu_nanos, c) = match parse_num_at(s, b + 1) {
        Some(p) => p,
        None => {
            return None;
        },
    };
    if !(lu_nanos < 1_000_000_000 && c < n && s.get_char(c) == ',') {
        return None;
    }
    let (fp_secs, d) = match parse_num_at(s, c + 1) {
        Some(p) => p,
        None => {
            return None;
        },
    };
    if !(d < n && s.get_char(d) == ',') {
        return None;
    }
    let (fp_nanos, e) = match parse_num_at(s, d + 1) {
        Some(p) => p,
        None => {
            return None;
        },
    };
    if !(fp_nanos < 1_000_000_000 && e < n && s.get_char(e) == ',') {
        return None;
    }
    let (title, g) = match parse_field_at(s, e + 1) {
        Some(p) => p,
        None => {
            return None;
        },
    };
    if !(g < n && s.get_char(g) == '\n') {
        return None;
    }
    let record = IndexedBlogPost {
        path: String::new(),
        post_url: url,
        last_updated: Timestamp { secs: lu_secs, nanos: lu_nanos as u32 },
        first_published: Timestamp { secs: fp_secs, nanos: fp_nanos as u32 },
        checked: false,
        title: if title.as_str().unicode_len() == 0 {
            None
        } else {
            Some(title)
        },
    };
    Some((record, g + 1))
}

impl Blog {
    /// Replace the index with the records the persisted text holds; a text
    /// that does not parse reports index corruption and leaves the blog
    /// unchanged.
    pub fn load_index_text(&mut self, text: &str) -> (r: Result<(), BlogError>)
        ensures
            final(self).path == old(self).path,
            final(self).index_url == old(self).index_url,
            match spec_parse_rows(text@, 0) {
                Some(rows) => r is Ok && index_view(final(self).index@) == rows,
                None => r matches Err(BlogError::ReadIndexError(_)) && final(self).index == old(
                    self,
                ).index,
            },
    {
        let n = text.unicode_len();
        let mut records: Vec<IndexedBlogPost> = Vec::new();
        let mut i: usize = 0;
        proof {
            assert(index_view(records@) =~= Seq::<PostV>::empty());
        }
        while i < n
            invariant
                i <= n,
                n == text@.len(),
                match spec_parse_rows(text@, i as int) {
                    Some(rest) => spec_parse_rows(text@, 0) == Some(index_view(records@) + rest),
                    None => spec_parse_rows(text@, 0) is None,
                },
            decreases n - i,
        {
            let ghost recs0 = index_view(records@);
            match parse_row_at(text, i) {
                Some((record, j)) => {
                    if j <= i {
                        return Err(
                            BlogError::ReadIndexError(
                                String::from_str("Could not parse index file"),
                            ),
                        );
                    }
                    let ghost rv = record@;
                    records.push(record);
                    proof {
                        assert(index_view(records@) =~= recs0.push(rv));
                        match spec_parse_rows(text@, j as int) {
                            Some(rest) => {
                                assert(recs0 + (seq![rv] + rest) =~= recs0.push(rv) + rest);
                            },
                            None => {},
                        }
                    }
                    i = j;
                },
                None => {
                    return Err(
                        BlogError::ReadIndexError(String::from_str("Could not parse index file")),
                    );
                },
            }
        }
        proof {
            assert(index_view(records@) + seq![] =~= index_view(records@));
        }
        self.index = records;
        Ok(())
    }
}

} // verus!
