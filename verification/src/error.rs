//! The error taxonomy of the codec. Every failure of an encode or decode
//! pass is terminal for that pass; nothing is retried.
use vstd::prelude::*;

verus! {

/// What can go wrong while encoding or decoding.
///
/// `Eof` is an exhausted token cursor where a token was required.
/// `UnsupportedType` is a shape the wire format cannot represent: a map, or
/// a fully dynamic self-describing value. `Serialize` and `Deserialize`
/// wrap a textual-conversion failure and carry a free-text detail.
#[derive(Debug, PartialEq, Eq, Clone)]
pub enum Error {
    Eof,
    UnsupportedType,
    Serialize(String),
    Deserialize(String),
}

impl Error {
    /// A decode failure for a token that is not a well-formed number.
    pub fn invalid_number() -> (r: Error)
        ensures
            r matches Error::Deserialize(_),
    {
        Error::Deserialize(String::from_str("invalid number"))
    }

    /// A decode failure for a scalar token that is not well-formed for its
    /// shape; carries the offending token.
    pub fn malformed(token: String) -> (r: Error)
        ensures
            r matches Error::Deserialize(_),
    {
        Error::Deserialize(token)
    }

    /// A decode failure for a tagged-union tag that names no variant.
    pub fn unknown_variant(tag: String) -> (r: Error)
        ensures
            r matches Error::Deserialize(_),
    {
        Error::Deserialize(tag)
    }

    /// A short fixed description of the error kind, in place of `Display`.
    pub fn kind_text(&self) -> (r: &'static str)
        ensures
            self is Eof ==> r@ == "Unexpected end of input"@,
            self is UnsupportedType ==> r@ == "Unsupported type"@,
            self matches Error::Serialize(_) ==> r@ == "Serialize error"@,
            self matches Error::Deserialize(_) ==> r@ == "Deserialize error"@,
    {
        match self {
            Error::Eof => "Unexpected end of input",
            Error::UnsupportedType => "Unsupported type",
            Error::Serialize(_) => "Serialize error",
            Error::Deserialize(_) => "Deserialize error",
        }
    }

    /// The free-text detail of a conversion failure, if this error has one.
    pub fn detail(&self) -> (r: Option<&String>)
        ensures
            match r {
                Some(d) => (self matches Error::Serialize(s) && d == s) || (self
                    matches Error::Deserialize(s) && d == s),
                None => self is Eof || self is UnsupportedType,
            },
    {
        match self {
            Error::Eof => None,
            Error::UnsupportedType => None,
            Error::Serialize(d) => Some(d),
            Error::Deserialize(d) => Some(d),
        }
    }
}

} // verus!
