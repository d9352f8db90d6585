use vstd::prelude::*;
use vstd::string::StringExecFns;

verus! {

/// What went wrong while looking for a value.
#[derive(Debug, Clone, Copy, PartialEq, Eq, Structural)]
pub enum Kind {
    NotFound,
    InvalidJson,
    UnterminatedString,
    UnmatchedBracket,
    UnsupportedArray,
}

/// The error every search of this library returns.
#[derive(Debug)]
pub struct Error {
    kind: Kind,
}

impl View for Error {
    type V = Kind;

    closed spec fn view(&self) -> Kind {
        self.kind
    }
}

/// The kinds that count as malformed input.
pub open spec fn is_malformed(k: Kind) -> bool {
    k == Kind::InvalidJson || k == Kind::UnterminatedString || k == Kind::UnmatchedBracket
}

/// How an error of kind `k` reads.
pub open spec fn message(k: Kind) -> &'static str {
    match k {
        Kind::NotFound => "[liver-shot] field not found",
        Kind::InvalidJson => "[liver-shot] invalid JSON",
        Kind::UnterminatedString => "[liver-shot] unterminated string",
        Kind::UnmatchedBracket => "[liver-shot] unmatched bracket",
        Kind::UnsupportedArray => "[liver-shot] unsupported array",
    }
}

impl Error {
    /// The error as text, `[liver-shot] ` followed by what went wrong.
    pub fn to_string(&self) -> (r: String)
        ensures
            r@ == message(self@)@,
    {
        let text = match self.kind {
            Kind::NotFound => "[liver-shot] field not found",
            Kind::InvalidJson => "[liver-shot] invalid JSON",
            Kind::UnterminatedString => "[liver-shot] unterminated string",
            Kind::UnmatchedBracket => "[liver-shot] unmatched bracket",
            Kind::UnsupportedArray => "[liver-shot] unsupported array",
        };
        String::from_str(text)
    }

    pub fn is_not_found(&self) -> (r: bool)
        ensures
            r == (self@ == Kind::NotFound),
    {
        matches!(self.kind, Kind::NotFound)
    }

    pub fn is_invalid_json(&self) -> (r: bool)
        ensures
            r == is_malformed(self@),
    {
        matches!(self.kind, Kind::InvalidJson | Kind::UnterminatedString | Kind::UnmatchedBracket)
    }

    pub fn is_unsupported_array(&self) -> (r: bool)
        ensures
            r == (self@ == Kind::UnsupportedArray),
    {
        matches!(self.kind, Kind::UnsupportedArray)
    }

    /// The kind of this error.
    pub fn kind(&self) -> (r: Kind)
        ensures
            r == self@,
    {
        self.kind
    }

    pub(crate) fn not_found() -> (e: Self)
        ensures
            e@ == Kind::NotFound,
    {
        Self { kind: Kind::NotFound }
    }

    pub(crate) fn invalid_json() -> (e: Self)
        ensures
            e@ == Kind::InvalidJson,
    {
        Self { kind: Kind::InvalidJson }
    }

    pub(crate) fn unterminated_string() -> (e: Self)
        ensures
            e@ == Kind::UnterminatedString,
    {
        Self { kind: Kind::UnterminatedString }
    }

    pub(crate) fn unmatched_bracket() -> (e: Self)
        ensures
            e@ == Kind::UnmatchedBracket,
    {
        Self { kind: Kind::UnmatchedBracket }
    }

    pub(crate) fn unsupported_array() -> (e: Self)
        ensures
            e@ == Kind::UnsupportedArray,
    {
        Self { kind: Kind::UnsupportedArray }
    }
}

/// Every error answers exactly one of `is_not_found`, `is_invalid_json` and
/// `is_unsupported_array` with `true`.
pub proof fn error_has_one_class(e: Error)
    ensures
        (e@ == Kind::NotFound) as int + is_malformed(e@) as int + (e@ == Kind::UnsupportedArray) as int
            == 1,
{
}

} // verus!
