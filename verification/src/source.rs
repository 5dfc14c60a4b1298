//! Reading with the help of a schema source.
//!
//! A frame names the writer's schema by its fingerprint alone. Whoever holds
//! the schemas (a cache, a registry) is asked from outside this library: a
//! read is begun, which says what to look up, and finished with whatever the
//! lookup gave. Nothing of the frame is used up in between, so a read that is
//! never finished leaves nothing behind.

use vstd::prelude::*;
use crate::error::{failure, Error, ErrorKind};
use crate::fingerprint::Fingerprint;
use crate::frame::{decode, parse_frame, HEADER_LEN};
use crate::object::{resolve_at, resolve_from, FINGERPRINT_AT};
use crate::reader::{decode_at, decode_value};
use crate::resolve::{resolves_to, Resolved};
use crate::schema::{Schema, SpecSchema};
use crate::value::Value;

verus! {

/// Mathematical model of a [`Lookup`].
pub enum SpecLookup {
    Found(SpecSchema),
    NotFound,
    Unavailable,
}

/// What a schema source answers when asked for a fingerprint.
#[derive(Clone, Debug, PartialEq, Eq)]
pub enum Lookup {
    /// The schema that the source holds under the fingerprint.
    Found(Schema),
    /// The source holds no schema under the fingerprint.
    NotFound,
    /// The source could not be asked; it may answer later.
    Unavailable,
}

impl View for Lookup {
    type V = SpecLookup;

    open spec fn view(&self) -> SpecLookup {
        match self {
            Lookup::Found(schema) => SpecLookup::Found(schema@),
            Lookup::NotFound => SpecLookup::NotFound,
            Lookup::Unavailable => SpecLookup::Unavailable,
        }
    }
}

/// The value in `frame` in the shape of `reader`, once the source has
/// answered `answer` for the frame's fingerprint.
///
/// A writer's schema that is the reader's own is read as it is; any other is
/// resolved, also where its fingerprint is that of the reader's schema. What
/// the source could not give is a failure of the read.
pub open spec fn resolved_read(frame: Seq<u8>, answer: SpecLookup, reader: SpecSchema) -> Resolved {
    match parse_frame(frame) {
        Err(e) => Err(e),
        Ok(_) => match answer {
            SpecLookup::NotFound => Err(failure(ErrorKind::SchemaNotFound, FINGERPRINT_AT as int)),
            SpecLookup::Unavailable => Err(
                failure(ErrorKind::SourceUnavailable, FINGERPRINT_AT as int),
            ),
            SpecLookup::Found(writer) => if writer == reader {
                match decode_at(reader, frame, HEADER_LEN as int) {
                    Ok((v, _)) => Ok(v),
                    Err(e) => Err(e),
                }
            } else {
                resolve_at(writer, reader, frame, HEADER_LEN as int)
            },
        },
    }
}

/// A read that waits for the writer's schema.
pub struct PendingRead<'a> {
    frame: &'a [u8],
    wanted: Fingerprint,
}

impl<'a> PendingRead<'a> {
    #[verifier::type_invariant]
    spec fn holds_a_frame(self) -> bool {
        parse_frame(self.frame@) is Ok && parse_frame(self.frame@)->Ok_0.0 == self.wanted
    }

    /// The frame that is being read.
    pub closed spec fn frame(self) -> Seq<u8> {
        self.frame@
    }

    /// The fingerprint that the frame names.
    pub closed spec fn names(self) -> Fingerprint {
        self.wanted
    }

    /// Begins to read `frame`: takes the header apart, so that the writer's
    /// schema can be looked up.
    pub fn begin(frame: &'a [u8]) -> (r: Result<PendingRead<'a>, Error>)
        ensures
            match r {
                Ok(pending) => {
                    &&& pending.frame() == frame@
                    &&& parse_frame(frame@) is Ok
                    &&& parse_frame(frame@)->Ok_0.0 == pending.names()
                },
                Err(e) => parse_frame(frame@) is Err && parse_frame(frame@)->Err_0 == e@,
            },
    {
        match decode(frame) {
            Ok((wanted, _)) => Ok(PendingRead { frame, wanted }),
            Err(e) => Err(e),
        }
    }

    /// The fingerprint to ask the schema source for.
    pub fn fingerprint(&self) -> (fp: Fingerprint)
        ensures
            fp == self.names(),
    {
        self.wanted
    }

    /// Finishes the read with the answer of the schema source.
    pub fn finish(self, answer: Lookup, reader: &Schema) -> (r: Result<Value, Error>)
        ensures
            resolves_to(r, resolved_read(self.frame(), answer@, reader@)),
    {
        proof {
            use_type_invariant(&self);
        }
        match answer {
            Lookup::NotFound => Err(Error::new(ErrorKind::SchemaNotFound, FINGERPRINT_AT)),
            Lookup::Unavailable => Err(Error::new(ErrorKind::SourceUnavailable, FINGERPRINT_AT)),
            Lookup::Found(writer) => {
                if writer.same_as(reader) {
                    match decode_value(reader, self.frame, HEADER_LEN) {
                        Ok((v, _)) => Ok(v),
                        Err(e) => Err(e),
                    }
                } else {
                    resolve_from(&writer, reader, self.frame, HEADER_LEN)
                }
            },
        }
    }
}

} // verus!
