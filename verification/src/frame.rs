//! The frame: marker, fingerprint, payload.

use vstd::prelude::*;
use vstd::slice::slice_subrange;
use crate::error::{failure, Error, ErrorKind, SpecError};
use crate::fingerprint::{lemma_wire_is_injective, Fingerprint};
use vstd::bytes::spec_u64_from_le_bytes;

verus! {

/// The first byte of a single-object frame.
pub const MARKER_FIRST: u8 = 0xC3;

/// The second byte of a single-object frame.
pub const MARKER_SECOND: u8 = 0x01;

/// The number of bytes in front of the payload.
pub const HEADER_LEN: usize = 10;

/// The two bytes that open a single-object frame.
pub open spec fn marker() -> Seq<u8> {
    seq![MARKER_FIRST, MARKER_SECOND]
}

/// The frame made of a marker, a fingerprint and a payload.
pub open spec fn frame_of(marker: Seq<u8>, fingerprint: Fingerprint, payload: Seq<u8>) -> Seq<u8> {
    marker + fingerprint.wire() + payload
}

/// What a frame holds: the fingerprint and the payload, or why it is no frame.
pub open spec fn parse_frame(bytes: Seq<u8>) -> Result<(Fingerprint, Seq<u8>), SpecError> {
    if bytes.len() < HEADER_LEN {
        Err(failure(ErrorKind::TruncatedFrame, bytes.len() as int))
    } else if bytes[0] != MARKER_FIRST || bytes[1] != MARKER_SECOND {
        Err(failure(ErrorKind::UnknownMarker, 0))
    } else {
        Ok(
            (
                Fingerprint(spec_u64_from_le_bytes(bytes.subrange(2, HEADER_LEN as int))),
                bytes.subrange(HEADER_LEN as int, bytes.len() as int),
            ),
        )
    }
}

/// Appends `src` to `out`.
pub fn append_bytes(out: &mut Vec<u8>, src: &[u8])
    ensures
        final(out)@ == old(out)@ + src@,
{
    let mut i: usize = 0;
    while i < src.len()
        invariant
            0 <= i <= src.len(),
            out@ == old(out)@ + src@.subrange(0, i as int),
        decreases src.len() - i,
    {
        out.push(src[i]);
        i += 1;
        assert(out@ =~= old(out)@ + src@.subrange(0, i as int));
    }
    assert(src@.subrange(0, src.len() as int) =~= src@);
}

/// The two bytes that open a single-object frame.
pub fn single_object_marker() -> (m: [u8; 2])
    ensures
        m@ == marker(),
{
    let m = [MARKER_FIRST, MARKER_SECOND];
    assert(m@ =~= marker());
    m
}

/// Puts `marker`, `fingerprint` and `payload` one after the other.
pub fn encode(marker: [u8; 2], fingerprint: Fingerprint, payload: &[u8]) -> (frame: Vec<u8>)
    ensures
        frame@ == frame_of(marker@, fingerprint, payload@),
{
    let mut frame: Vec<u8> = Vec::new();
    frame.push(marker[0]);
    frame.push(marker[1]);
    assert(frame@ =~= marker@);
    let wire = fingerprint.to_bytes();
    append_bytes(&mut frame, wire.as_slice());
    append_bytes(&mut frame, payload);
    frame
}

/// Takes a frame apart.
///
/// Fewer than ten bytes are a `TruncatedFrame`, whatever they hold; ten or
/// more that do not start with the marker are an `UnknownMarker`.
pub fn decode(bytes: &[u8]) -> (r: Result<(Fingerprint, &[u8]), Error>)
    ensures
        match r {
            Ok((fingerprint, payload)) => {
                &&& parse_frame(bytes@) == Ok::<(Fingerprint, Seq<u8>), SpecError>(
                    (fingerprint, payload@),
                )
                &&& fingerprint.wire() == bytes@.subrange(2, HEADER_LEN as int)
            },
            Err(e) => parse_frame(bytes@) == Err::<(Fingerprint, Seq<u8>), SpecError>(e@),
        },
{
    if bytes.len() < HEADER_LEN {
        return Err(Error::new(ErrorKind::TruncatedFrame, bytes.len()));
    }
    if bytes[0] != MARKER_FIRST || bytes[1] != MARKER_SECOND {
        return Err(Error::new(ErrorKind::UnknownMarker, 0));
    }
    let wire = [bytes[2], bytes[3], bytes[4], bytes[5], bytes[6], bytes[7], bytes[8], bytes[9]];
    assert(wire@ =~= bytes@.subrange(2, HEADER_LEN as int));
    let fingerprint = Fingerprint::from_bytes(wire);
    let payload = slice_subrange(bytes, HEADER_LEN, bytes.len());
    Ok((fingerprint, payload))
}

/// A frame that `encode` made with the marker gives back what went into it.
pub proof fn lemma_frame_round_trip(fingerprint: Fingerprint, payload: Seq<u8>)
    ensures
        parse_frame(frame_of(marker(), fingerprint, payload)) == Ok::<
            (Fingerprint, Seq<u8>),
            SpecError,
        >((fingerprint, payload)),
{
    lemma_wire_is_injective(fingerprint, fingerprint);
    let frame = frame_of(marker(), fingerprint, payload);
    assert(frame.subrange(2, HEADER_LEN as int) =~= fingerprint.wire());
    assert(frame.subrange(HEADER_LEN as int, frame.len() as int) =~= payload);
}

/// Input of fewer than ten bytes is a truncated frame, whatever it holds.
pub proof fn lemma_short_input_is_truncated(bytes: Seq<u8>)
    requires
        bytes.len() < 10,
    ensures
        parse_frame(bytes) == Err::<(Fingerprint, Seq<u8>), SpecError>(
            failure(ErrorKind::TruncatedFrame, bytes.len() as int),
        ),
{
}

} // verus!
