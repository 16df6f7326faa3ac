use vstd::prelude::*;

verus! {

/// The kinds of failure a decode operation can report.
#[derive(PartialEq, Eq, Clone, Copy, Debug, Structural)]
pub enum ErrorKind {
    /// A structural violation: a truncated buffer, an invalid length field,
    /// an invalid digit string, or an invalid scalar value.
    MalformedBinaryParse,
    /// An unrecognized 3-character type tag, anywhere a tag is expected.
    UnknownType,
    /// The compressed payload could not be inflated.
    Decompression,
}

/// The error value every fallible decode operation returns: a kind, a
/// human-readable context string, and, where relevant, the offending raw
/// tag text.
#[derive(Clone, Debug)]
pub struct WeechatParseError {
    pub kind: ErrorKind,
    pub context: String,
    pub tag: Option<String>,
}

impl WeechatParseError {
    /// Build an error of the given kind with a context message.
    pub fn new(kind: ErrorKind, context: &str) -> (r: WeechatParseError)
        ensures
            r.kind == kind,
            r.context@ == context@,
            r.tag is None,
    {
        WeechatParseError { kind, context: context.to_owned(), tag: None }
    }

    /// Build an error that also carries the offending raw tag text.
    pub fn with_tag(kind: ErrorKind, context: &str, tag: String) -> (r: WeechatParseError)
        ensures
            r.kind == kind,
            r.context@ == context@,
            r.tag == Some(tag),
    {
        WeechatParseError { kind, context: context.to_owned(), tag: Some(tag) }
    }
}

} // verus!
