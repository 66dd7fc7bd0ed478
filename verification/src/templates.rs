use vstd::prelude::*;
use vstd::string::StringExecFns;

verus! {

/// What went wrong with a template.
#[derive(Debug, Copy, Clone, PartialEq)]
pub enum ErrorKind {
    CantRead,
    FailValidation,
    InvalidSyntax,
}

/// A template failure: a message for the user and the kind of failure.
#[derive(Debug)]
pub struct TemplateError {
    msg: String,
    kind: ErrorKind,
}

impl TemplateError {
    /// The message this error carries.
    pub closed spec fn spec_msg(&self) -> Seq<char> {
        self.msg@
    }

    /// The kind of failure this error reports.
    pub closed spec fn spec_kind(&self) -> ErrorKind {
        self.kind
    }

    /// Package one template failure.
    pub fn new(msg: String, kind: ErrorKind) -> (r: TemplateError)
        ensures
            r.spec_msg() == msg@,
            r.spec_kind() == kind,
    {
        TemplateError { msg, kind }
    }

    /// The kind of failure this error reports.
    pub fn kind(&self) -> (r: ErrorKind)
        ensures
            r == self.spec_kind(),
    {
        self.kind
    }

    /// A human-readable description of the failure.
    pub fn message(&self) -> (r: String)
        ensures
            r@ == "Bad template: "@ + self.spec_msg(),
    {
        let mut m = String::from_str("Bad template: ");
        m.append(self.msg.as_str());
        m
    }
}

/// What escaping one character for HTML yields: the characters that markup
/// could mistake become entities, every other character stands unchanged.
pub open spec fn escape_char(c: char) -> Seq<char> {
    if c == '<' {
        "&lt;"@
    } else if c == '>' {
        "&gt;"@
    } else if c == '"' {
        "&quot;"@
    } else if c == '&' {
        "&amp;"@
    } else if c == '\'' {
        "&#x27;"@
    } else if c == '`' {
        "&#x60;"@
    } else if c == '=' {
        "&#x3D;"@
    } else {
        seq![c]
    }
}

/// The HTML-escaped form of a text: each character escaped in turn.
pub open spec fn html_escaped(s: Seq<char>) -> Seq<char>
    decreases s.len(),
{
    if s.len() == 0 {
        Seq::empty()
    } else {
        escape_char(s[0]) + html_escaped(s.skip(1))
    }
}

/// Relies on handlebars::html_escape, which replaces each of the characters
/// `<`, `>`, `"`, `&`, `'`, the backtick and `=` with its HTML entity and
/// keeps every other character as it stands.
#[verifier::external_body]
pub(crate) fn escape_html(s: &str) -> (r: String)
    ensures
        r@ == html_escaped(s@),
{
    handlebars::html_escape(s)
}

} // verus!
