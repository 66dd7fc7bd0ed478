use vstd::prelude::*;

verus! {

/// The ways compiling sidenotes can fail:
///
/// * a delimiter was not matched, e.g. "bla { bla" or "bla } {bla}";
/// * a nested sidenote was opened, e.g. "{ bla { }";
/// * a template could not be rendered around the compiled document.
///
/// The first two carry a short excerpt of the text around each offending
/// delimiter, so the writer can find it.
#[derive(Debug, Clone, PartialEq)]
pub enum SidenoteError {
    NotMatched(String),
    Nested(String, String),
    Template(String),
}

/// The mathematical value of a `SidenoteError`.
pub enum SidenoteErrorV {
    NotMatched(Seq<char>),
    Nested(Seq<char>, Seq<char>),
    Template(Seq<char>),
}

impl View for SidenoteError {
    type V = SidenoteErrorV;

    open spec fn view(&self) -> SidenoteErrorV {
        match self {
            SidenoteError::NotMatched(context) => SidenoteErrorV::NotMatched(context@),
            SidenoteError::Nested(first, second) => SidenoteErrorV::Nested(first@, second@),
            SidenoteError::Template(message) => SidenoteErrorV::Template(message@),
        }
    }
}

/// The message that `message` renders for an error value.
pub open spec fn spec_message(e: SidenoteErrorV) -> Seq<char> {
    match e {
        SidenoteErrorV::NotMatched(context) => "Error: a sidenote delimiter was not matched: "@
            + context,
        SidenoteErrorV::Nested(first, second) => "Error: encountered a nested sidenote: "@ + first
            + " / "@ + second,
        SidenoteErrorV::Template(message) => "Couldn't render template: "@ + message,
    }
}

impl SidenoteError {
    /// A human-readable description of the error, with the text excerpts it
    /// carries.
    pub fn message(&self) -> (r: String)
        ensures
            r@ == spec_message(self@),
    {
        match self {
            SidenoteError::NotMatched(context) => {
                let mut m = String::from_str("Error: a sidenote delimiter was not matched: ");
                m.append(context.as_str());
                m
            },
            SidenoteError::Nested(first, second) => {
                let mut m = String::from_str("Error: encountered a nested sidenote: ");
                m.append(first.as_str());
                m.append(" / ");
                m.append(second.as_str());
                m
            },
            SidenoteError::Template(message) => {
                let mut m = String::from_str("Couldn't render template: ");
                m.append(message.as_str());
                m
            },
        }
    }
}

} // verus!
