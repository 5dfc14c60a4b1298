//! Schema fingerprints: sixty-four bits that stand for a schema on the wire.

use apache_avro::rabin::Rabin;
use digest::Digest;
use vstd::bytes::{
    lemma_auto_spec_u64_to_from_le_bytes, spec_u64_from_le_bytes, spec_u64_to_le_bytes,
    u64_from_le_bytes, u64_to_le_bytes,
};
use vstd::prelude::*;
use vstd::utf8::encode_utf8;
use crate::canonical::{
    canonical_form, canonical_text, essence, lemma_canonical_text_ignores_annotations,
};
use crate::error::{failure, Error, ErrorKind};
use crate::schema::{well_formed, Schema, SpecSchema};

verus! {

/// The 64-bit Rabin fingerprint of a byte sequence, as `apache_avro`'s
/// `Rabin` digest computes it.
pub uninterp spec fn rabin(data: Seq<u8>) -> u64;

/// Runs `apache_avro::rabin::Rabin` over `data` and reads the eight bytes of
/// the digest, which are the hash in little-endian order, back into a number.
/// Trusted: that the digest depends on `data` alone.
#[verifier::external_body]
fn rabin_digest(data: &[u8]) -> (hash: u64)
    ensures
        hash == rabin(data@),
{
    u64::from_le_bytes(Rabin::digest(data).into())
}

/// The fingerprint of a schema.
#[derive(Clone, Copy, Debug, PartialEq, Eq, Hash, Structural)]
pub struct Fingerprint(pub u64);

impl Fingerprint {
    /// The eight bytes that stand for the fingerprint in a frame: the number
    /// in little-endian order.
    pub open spec fn wire(self) -> Seq<u8> {
        spec_u64_to_le_bytes(self.0)
    }

    /// The eight bytes of the fingerprint, as a frame holds them.
    pub fn to_bytes(&self) -> (bytes: Vec<u8>)
        ensures
            bytes@ == self.wire(),
            bytes@.len() == 8,
    {
        proof {
            lemma_auto_spec_u64_to_from_le_bytes();
        }
        u64_to_le_bytes(self.0)
    }

    /// The fingerprint that a frame holds as `bytes`.
    pub fn from_bytes(bytes: [u8; 8]) -> (fingerprint: Fingerprint)
        ensures
            fingerprint.wire() == bytes@,
            fingerprint.0 == spec_u64_from_le_bytes(bytes@),
    {
        proof {
            lemma_auto_spec_u64_to_from_le_bytes();
        }
        Fingerprint(u64_from_le_bytes(bytes.as_slice()))
    }
}

/// The wire form of a fingerprint has eight bytes and determines it.
pub proof fn lemma_wire_is_injective(a: Fingerprint, b: Fingerprint)
    ensures
        a.wire().len() == 8,
        a.wire() == b.wire() ==> a == b,
        Fingerprint(spec_u64_from_le_bytes(a.wire())) == a,
{
    lemma_auto_spec_u64_to_from_le_bytes();
}

/// The fingerprint of a schema: the Rabin fingerprint of the UTF-8 bytes of
/// its canonical text.
pub open spec fn fingerprint_of(s: SpecSchema) -> Fingerprint {
    Fingerprint(rabin(encode_utf8(canonical_text(s))))
}

/// The fingerprint of `schema`, or `InvalidSchema` where the schema breaks a
/// structural rule.
pub fn fingerprint(schema: &Schema) -> (r: Result<Fingerprint, Error>)
    ensures
        match r {
            Ok(fp) => well_formed(schema@) && fp == fingerprint_of(schema@),
            Err(e) => !well_formed(schema@) && e@ == failure(ErrorKind::InvalidSchema, 0),
        },
{
    if !schema.is_well_formed() {
        return Err(Error::new(ErrorKind::InvalidSchema, 0));
    }
    let text = canonical_form(schema);
    Ok(Fingerprint(rabin_digest(text.as_str().as_bytes())))
}

/// The fingerprint is a function of what decides how bytes are read: schemas
/// that differ in documentation, aliases and defaults alone have the same
/// fingerprint, whenever and wherever it is computed.
pub proof fn lemma_fingerprint_ignores_annotations(a: SpecSchema, b: SpecSchema)
    requires
        essence(a) == essence(b),
    ensures
        fingerprint_of(a) == fingerprint_of(b),
{
    lemma_canonical_text_ignores_annotations(a, b);
}

} // verus!
