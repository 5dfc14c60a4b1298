//! Failures of encoding, decoding and schema resolution.

use vstd::prelude::*;

verus! {

/// What went wrong.
#[derive(Clone, Copy, Debug, PartialEq, Eq, Structural)]
pub enum ErrorKind {
    /// The schema breaks a structural rule (a bad name, a duplicate field, ...).
    InvalidSchema,
    /// The input ended before the frame header or the datum was complete.
    TruncatedFrame,
    /// The first two bytes are not the single-object marker.
    UnknownMarker,
    /// The fingerprint in the frame is not the one of the schema at hand.
    SchemaMismatch,
    /// No promotion leads from the writer's type to the reader's, or a value
    /// does not have the shape of the schema it is written under.
    IncompatibleType,
    /// The reader has a field without default that the writer never wrote.
    MissingRequiredField,
    /// The writer's symbol is unknown to the reader, which names no default.
    UnresolvableEnumSymbol,
    /// No branch of the reader's union accepts what the writer wrote.
    NoMatchingUnionBranch,
    /// The schema source knows no schema under the fingerprint.
    SchemaNotFound,
    /// The schema source could not be reached; the caller may try again.
    SourceUnavailable,
    /// The bytes are not a binary encoding of any value of the writer's type.
    MalformedPayload,
}

/// Mathematical model of an [`Error`].
pub struct SpecError {
    pub kind: ErrorKind,
    pub offset: int,
    pub path: Seq<Seq<char>>,
}

/// A failure with the context needed to find its cause.
#[derive(Clone, Debug, PartialEq, Eq)]
pub struct Error {
    pub kind: ErrorKind,
    /// Position in the input at which reading failed; zero where the failure
    /// is not tied to a position.
    pub offset: usize,
    /// Names of the record fields that enclose the failure, outermost first.
    pub path: Vec<String>,
}

/// The failure of kind `kind` at `offset`, outside any record field.
pub open spec fn failure(kind: ErrorKind, offset: int) -> SpecError {
    SpecError { kind, offset, path: Seq::empty() }
}

impl SpecError {
    /// The same failure, seen from outside the field `name`.
    pub open spec fn within(self, name: Seq<char>) -> SpecError {
        SpecError { kind: self.kind, offset: self.offset, path: seq![name] + self.path }
    }
}

impl View for Error {
    type V = SpecError;

    open spec fn view(&self) -> SpecError {
        SpecError {
            kind: self.kind,
            offset: self.offset as int,
            path: self.path@.map_values(|s: String| s@),
        }
    }
}

impl Error {
    /// The failure of kind `kind` at `offset`, outside any record field.
    pub fn new(kind: ErrorKind, offset: usize) -> (e: Error)
        ensures
            e@ == failure(kind, offset as int),
    {
        let e = Error { kind, offset, path: Vec::new() };
        assert(e@.path =~= Seq::empty());
        e
    }

    /// Prefixes the path with the field `name`.
    pub fn within(self, name: &String) -> (e: Error)
        ensures
            e@ == self@.within(name@),
    {
        let mut e = self;
        let ghost before = e@;
        e.path.insert(0, name.clone());
        assert(e@.path =~= seq![name@] + before.path);
        e
    }

    /// Whether the same call may succeed when tried again.
    pub fn is_retryable(&self) -> (b: bool)
        ensures
            b == (self@.kind == ErrorKind::SourceUnavailable),
    {
        match self.kind {
            ErrorKind::SourceUnavailable => true,
            _ => false,
        }
    }
}

} // verus!
