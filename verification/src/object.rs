//! Single objects: a value in a frame that names the schema it was written
//! with.

use vstd::prelude::*;
use crate::error::{failure, Error, ErrorKind, SpecError};
use crate::fingerprint::{fingerprint, fingerprint_of};
use crate::frame::{decode, encode, frame_of, marker, parse_frame, single_object_marker, HEADER_LEN};
use crate::reader::{decode_at, decode_value};
use crate::resolve::{resolve_spec, resolve_value, resolves_to, Resolved};
use crate::schema::{conforms, well_formed, Schema, SpecSchema};
use crate::value::{SpecValue, Value};
use crate::writer::{encode_value, encoding};

verus! {

/// The frame that holds the value `v` of type `s`.
pub open spec fn written(s: SpecSchema, v: SpecValue) -> Result<Seq<u8>, SpecError> {
    if !well_formed(s) {
        Err(failure(ErrorKind::InvalidSchema, 0))
    } else if !conforms(s, v) {
        Err(failure(ErrorKind::IncompatibleType, 0))
    } else {
        Ok(frame_of(marker(), fingerprint_of(s), encoding(v)))
    }
}

/// Writes `value` as a single object under `schema`: the marker, the
/// fingerprint of the schema, the encoding of the value.
///
/// Fails with `InvalidSchema` where the schema breaks a structural rule, and
/// with `IncompatibleType` where the value is not of the schema's type.
pub fn write_single_object(schema: &Schema, value: &Value) -> (r: Result<Vec<u8>, Error>)
    ensures
        match r {
            Ok(frame) => written(schema@, value@) == Ok::<Seq<u8>, SpecError>(frame@),
            Err(e) => written(schema@, value@) == Err::<Seq<u8>, SpecError>(e@),
        },
{
    let fp = match fingerprint(schema) {
        Ok(fp) => fp,
        Err(e) => {
            return Err(e);
        },
    };
    if !schema.accepts(value) {
        return Err(Error::new(ErrorKind::IncompatibleType, 0));
    }
    let mut payload: Vec<u8> = Vec::new();
    encode_value(value, &mut payload);
    assert(payload@ =~= encoding(value@));
    Ok(encode(single_object_marker(), fp, payload.as_slice()))
}

/// The position of the fingerprint in a frame.
pub const FINGERPRINT_AT: usize = 2;

/// The value in `frame`, read under the schema `s` alone. With `check`, the
/// fingerprint in the frame has to be that of `s`.
pub open spec fn read_local_spec(frame: Seq<u8>, s: SpecSchema, check: bool) -> Resolved {
    match parse_frame(frame) {
        Err(e) => Err(e),
        Ok((fp, _)) => if check && !well_formed(s) {
            Err(failure(ErrorKind::InvalidSchema, 0))
        } else if check && fp != fingerprint_of(s) {
            Err(failure(ErrorKind::SchemaMismatch, FINGERPRINT_AT as int))
        } else {
            match decode_at(s, frame, HEADER_LEN as int) {
                Ok((v, _)) => Ok(v),
                Err(e) => Err(e),
            }
        },
    }
}

/// Reads the value in `frame` under `known_schema`, as writer's and reader's
/// schema at once. The fingerprint in the frame is looked at only where
/// `check_fingerprint` asks for it: then a schema that breaks a structural
/// rule is an `InvalidSchema`, and a frame of another schema a
/// `SchemaMismatch`. Positions in failures count from the start of the frame.
/// Bytes behind the value are not looked at.
pub fn read_local(frame: &[u8], known_schema: &Schema, check_fingerprint: bool) -> (r: Result<
    Value,
    Error,
>)
    ensures
        resolves_to(r, read_local_spec(frame@, known_schema@, check_fingerprint)),
{
    let (found, _) = match decode(frame) {
        Ok(parts) => parts,
        Err(e) => {
            return Err(e);
        },
    };
    if check_fingerprint {
        match fingerprint(known_schema) {
            Err(e) => {
                return Err(e);
            },
            Ok(expected) => {
                if found != expected {
                    return Err(Error::new(ErrorKind::SchemaMismatch, FINGERPRINT_AT));
                }
            },
        }
    }
    match decode_value(known_schema, frame, HEADER_LEN) {
        Ok((v, _)) => Ok(v),
        Err(e) => Err(e),
    }
}

/// The value whose encoding under `w` starts at `pos`, in the shape of `r`.
pub open spec fn resolve_at(w: SpecSchema, r: SpecSchema, bytes: Seq<u8>, pos: int) -> Resolved {
    match decode_at(w, bytes, pos) {
        Err(e) => Err(e),
        Ok((v, _)) => resolve_spec(w, r, v),
    }
}

/// Reads the value whose encoding under `writer` starts at `pos` and gives it
/// in the shape of `reader`.
pub fn resolve_from(writer: &Schema, reader: &Schema, bytes: &[u8], pos: usize) -> (r: Result<
    Value,
    Error,
>)
    ensures
        resolves_to(r, resolve_at(writer@, reader@, bytes@, pos as int)),
{
    match decode_value(writer, bytes, pos) {
        Err(e) => Err(e),
        Ok((v, _)) => resolve_value(writer, reader, &v),
    }
}

/// Reads the value that `payload` encodes under `writer` and gives it in the
/// shape of `reader`.
///
/// The bytes are read in the order of the writer's schema, the writer's
/// fields that the reader does not have among them; the result is laid out in
/// the order of the reader's schema. Nothing is returned of a value that
/// could not be resolved as a whole.
pub fn resolve(writer: &Schema, reader: &Schema, payload: &[u8]) -> (r: Result<Value, Error>)
    ensures
        resolves_to(r, resolve_at(writer@, reader@, payload@, 0)),
{
    resolve_from(writer, reader, payload, 0)
}

} // verus!
