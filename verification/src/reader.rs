//! Reading values from their binary encoding, under the schema they were
//! written with.

use vstd::bytes::{spec_u32_from_le_bytes, spec_u64_from_le_bytes, u32_from_le_bytes, u64_from_le_bytes};
use vstd::prelude::*;
use vstd::slice::{slice_subrange, slice_to_vec};
use vstd::utf8::{decode_utf8, encode_utf8, encode_utf8_decode_utf8, valid_utf8};
use crate::error::{failure, Error, ErrorKind, SpecError};
use crate::schema::{field_models, lemma_schema_unfolds, max_length, Schema, SpecSchema};
use crate::value::{entry_models, lemma_model_unfolds, models, SpecValue, Value};
use crate::varint::{lemma_parse_varint_advances, parse_long, read_long, MAX_VARINT_LEN};

verus! {

/// What reading a value at a position gives: the value and the position
/// behind it, or the failure.
pub type Decoded = Result<(SpecValue, int), SpecError>;

/// Reads a run of bytes at `pos`: its length, then that many bytes.
pub open spec fn parse_run(bytes: Seq<u8>, pos: int) -> Result<(Seq<u8>, int), ErrorKind> {
    match parse_long(bytes, pos) {
        Err(kind) => Err(kind),
        Ok((n, next)) => if n < 0 {
            Err(ErrorKind::MalformedPayload)
        } else if next + n > bytes.len() {
            Err(ErrorKind::TruncatedFrame)
        } else {
            Ok((bytes.subrange(next, next + n), next + n))
        },
    }
}

/// Reads a text at `pos`: a run of bytes that is valid UTF-8.
pub open spec fn parse_text(bytes: Seq<u8>, pos: int) -> Result<(Seq<char>, int), ErrorKind> {
    match parse_run(bytes, pos) {
        Err(kind) => Err(kind),
        Ok((raw, next)) => if valid_utf8(raw) {
            Ok((decode_utf8(raw), next))
        } else {
            Err(ErrorKind::MalformedPayload)
        },
    }
}

/// Reads the head of a block at `pos`: the number of items in the block, zero
/// at the end of the blocks. A negative count stands for its absolute value
/// and is followed by the size of the block in bytes, which is read and not
/// used.
pub open spec fn parse_block_head(bytes: Seq<u8>, pos: int) -> Result<(nat, int), ErrorKind> {
    match parse_long(bytes, pos) {
        Err(kind) => Err(kind),
        Ok((n, next)) => if n >= 0 {
            Ok((n as nat, next))
        } else {
            match parse_long(bytes, next) {
                Err(kind) => Err(kind),
                Ok((_, after)) => Ok(((-n) as nat, after)),
            }
        },
    }
}

/// What was read ends behind where it starts, within the input.
pub proof fn lemma_parse_advances(bytes: Seq<u8>, pos: int)
    ensures
        parse_long(bytes, pos) matches Ok((_, next)) ==> pos < next <= bytes.len(),
        parse_run(bytes, pos) matches Ok((_, next)) ==> pos < next <= bytes.len(),
        parse_text(bytes, pos) matches Ok((_, next)) ==> pos < next <= bytes.len(),
        parse_block_head(bytes, pos) matches Ok((_, next)) ==> pos < next <= bytes.len(),
{
    lemma_parse_varint_advances(bytes, pos, MAX_VARINT_LEN as nat);
    if let Ok((_, next)) = parse_long(bytes, pos) {
        lemma_parse_varint_advances(bytes, next, MAX_VARINT_LEN as nat);
    }
}

/// Reading from `pos` to `next` goes forward, and stays within the input
/// where it moves at all.
pub open spec fn advances(bytes: Seq<u8>, pos: int, next: int) -> bool {
    pos <= next && (next == pos || next <= bytes.len())
}

/// The value of type `s` whose encoding starts at `pos`, and the position
/// behind it.
///
/// A failure names the position at which the part that could not be read
/// starts, and the record fields around it.
pub open spec fn decode_at(s: SpecSchema, bytes: Seq<u8>, pos: int) -> Decoded
    decreases s, 1nat, 0int, 0nat,
{
    match s {
        SpecSchema::Null => Ok((SpecValue::Null, pos)),
        SpecSchema::Boolean => if pos < 0 || pos >= bytes.len() {
            Err(failure(ErrorKind::TruncatedFrame, pos))
        } else if bytes[pos] == 0 {
            Ok((SpecValue::Boolean(false), pos + 1))
        } else if bytes[pos] == 1 {
            Ok((SpecValue::Boolean(true), pos + 1))
        } else {
            Err(failure(ErrorKind::MalformedPayload, pos))
        },
        SpecSchema::Int => match parse_long(bytes, pos) {
            Err(kind) => Err(failure(kind, pos)),
            Ok((n, next)) => if i32::MIN <= n <= i32::MAX {
                Ok((SpecValue::Int(n as i32), next))
            } else {
                Err(failure(ErrorKind::MalformedPayload, pos))
            },
        },
        SpecSchema::Long => match parse_long(bytes, pos) {
            Err(kind) => Err(failure(kind, pos)),
            Ok((n, next)) => Ok((SpecValue::Long(n), next)),
        },
        SpecSchema::Float => if pos < 0 || pos + 4 > bytes.len() {
            Err(failure(ErrorKind::TruncatedFrame, pos))
        } else {
            Ok((SpecValue::Float(spec_u32_from_le_bytes(bytes.subrange(pos, pos + 4))), pos + 4))
        },
        SpecSchema::Double => if pos < 0 || pos + 8 > bytes.len() {
            Err(failure(ErrorKind::TruncatedFrame, pos))
        } else {
            Ok((SpecValue::Double(spec_u64_from_le_bytes(bytes.subrange(pos, pos + 8))), pos + 8))
        },
        SpecSchema::Bytes => match parse_run(bytes, pos) {
            Err(kind) => Err(failure(kind, pos)),
            Ok((raw, next)) => Ok((SpecValue::Bytes(raw), next)),
        },
        SpecSchema::String => match parse_text(bytes, pos) {
            Err(kind) => Err(failure(kind, pos)),
            Ok((text, next)) => Ok((SpecValue::String(text), next)),
        },
        SpecSchema::Record { .. } => match decode_fields(s, bytes, pos, 0, Seq::empty()) {
            Err(e) => Err(e),
            Ok((entries, next)) => Ok((SpecValue::Record(entries), next)),
        },
        SpecSchema::Enum { symbols, .. } => match parse_long(bytes, pos) {
            Err(kind) => Err(failure(kind, pos)),
            Ok((n, next)) => if 0 <= n < symbols.len() && n <= u32::MAX {
                Ok((SpecValue::Enum(n as u32, symbols[n as int]), next))
            } else {
                Err(failure(ErrorKind::MalformedPayload, pos))
            },
        },
        SpecSchema::Array(_) => match decode_items(s, bytes, pos, 0, Seq::empty()) {
            Err(e) => Err(e),
            Ok((items, next)) => Ok((SpecValue::Array(items), next)),
        },
        SpecSchema::Dict(_) => match decode_entries(s, bytes, pos, 0, Seq::empty()) {
            Err(e) => Err(e),
            Ok((entries, next)) => Ok((SpecValue::Dict(entries), next)),
        },
        SpecSchema::Union(branches) => match parse_long(bytes, pos) {
            Err(kind) => Err(failure(kind, pos)),
            Ok((n, next)) => if 0 <= n < branches.len() && n <= u32::MAX {
                match decode_at(branches[n as int], bytes, next) {
                    Err(e) => Err(e),
                    Ok((inner, after)) => Ok((SpecValue::Union(n as u32, Box::new(inner)), after)),
                }
            } else {
                Err(failure(ErrorKind::MalformedPayload, pos))
            },
        },
        SpecSchema::Fixed { size, .. } => if pos < 0 || pos + size > bytes.len() {
            Err(failure(ErrorKind::TruncatedFrame, pos))
        } else {
            Ok((SpecValue::Fixed(bytes.subrange(pos, pos + size)), pos + size))
        },
    }
}

/// The fields of the record `s` from the `i`-th on, read at `pos` in the
/// order of the schema and put behind `acc`.
pub open spec fn decode_fields(
    s: SpecSchema,
    bytes: Seq<u8>,
    pos: int,
    i: nat,
    acc: Seq<(Seq<char>, SpecValue)>,
) -> Result<(Seq<(Seq<char>, SpecValue)>, int), SpecError>
    decreases s, 0nat, s->fields.len() - i, 0nat,
{
    if s is Record && i < s->fields.len() {
        let field = s->fields[i as int];
        match decode_at(field.schema, bytes, pos) {
            Err(e) => Err(e.within(field.name)),
            Ok((v, next)) => decode_fields(s, bytes, next, i + 1, acc.push((field.name, v))),
        }
    } else {
        Ok((acc, pos))
    }
}

/// The items of the array `s` that are left to read at `pos`, put behind
/// `acc`: `remaining` items of the block at hand, then the blocks that follow.
/// The blocks together hold no more items than one block can announce.
pub open spec fn decode_items(
    s: SpecSchema,
    bytes: Seq<u8>,
    pos: int,
    remaining: nat,
    acc: Seq<SpecValue>,
) -> Result<(Seq<SpecValue>, int), SpecError>
    decreases s, 0nat, bytes.len() - pos, remaining,
{
    if !(s is Array) {
        Ok((acc, pos))
    } else if remaining == 0 {
        match parse_block_head(bytes, pos) {
            Err(kind) => Err(failure(kind, pos)),
            Ok((count, next)) => if count == 0 {
                Ok((acc, next))
            } else if acc.len() + count > max_length() {
                Err(failure(ErrorKind::MalformedPayload, pos))
            } else {
                proof {
                    lemma_parse_advances(bytes, pos);
                }
                decode_items(s, bytes, next, count, acc)
            },
        }
    } else {
        match decode_at(*s->Array_0, bytes, pos) {
            Err(e) => Err(e),
            Ok((v, next)) => if !advances(bytes, pos, next) {
                // Never so: see `lemma_decode_advances`.
                Err(failure(ErrorKind::MalformedPayload, pos))
            } else {
                decode_items(s, bytes, next, (remaining - 1) as nat, acc.push(v))
            },
        }
    }
}

/// The entries of the map `s` that are left to read at `pos`, put behind
/// `acc`: `remaining` entries of the block at hand, then the blocks that
/// follow. The blocks together hold no more entries than one block can
/// announce.
pub open spec fn decode_entries(
    s: SpecSchema,
    bytes: Seq<u8>,
    pos: int,
    remaining: nat,
    acc: Seq<(Seq<char>, SpecValue)>,
) -> Result<(Seq<(Seq<char>, SpecValue)>, int), SpecError>
    decreases s, 0nat, bytes.len() - pos, remaining,
{
    if !(s is Dict) {
        Ok((acc, pos))
    } else if remaining == 0 {
        match parse_block_head(bytes, pos) {
            Err(kind) => Err(failure(kind, pos)),
            Ok((count, next)) => if count == 0 {
                Ok((acc, next))
            } else if acc.len() + count > max_length() {
                Err(failure(ErrorKind::MalformedPayload, pos))
            } else {
                proof {
                    lemma_parse_advances(bytes, pos);
                }
                decode_entries(s, bytes, next, count, acc)
            },
        }
    } else {
        match parse_text(bytes, pos) {
            Err(kind) => Err(failure(kind, pos)),
            Ok((key, start)) => match decode_at(*s->Dict_0, bytes, start) {
                Err(e) => Err(e),
                Ok((v, next)) => if !advances(bytes, pos, next) {
                    // Never so: see `lemma_decode_advances`.
                    Err(failure(ErrorKind::MalformedPayload, pos))
                } else {
                    decode_entries(s, bytes, next, (remaining - 1) as nat, acc.push((key, v)))
                },
            },
        }
    }
}

/// A value that was read ends at or behind where it starts, within the input.
pub proof fn lemma_decode_advances(s: SpecSchema, bytes: Seq<u8>, pos: int)
    ensures
        decode_at(s, bytes, pos) matches Ok((_, next)) ==> advances(bytes, pos, next),
    decreases s, 1nat, 0int, 0nat,
{
    lemma_parse_advances(bytes, pos);
    match s {
        SpecSchema::Record { .. } => lemma_fields_advance(s, bytes, pos, 0, Seq::empty()),
        SpecSchema::Array(_) => lemma_items_advance(s, bytes, pos, 0, Seq::empty()),
        SpecSchema::Dict(_) => lemma_entries_advance(s, bytes, pos, 0, Seq::empty()),
        SpecSchema::Union(branches) => {
            if let Ok((n, next)) = parse_long(bytes, pos) {
                if 0 <= n < branches.len() {
                    lemma_decode_advances(branches[n as int], bytes, next);
                }
            }
        },
        _ => {},
    }
}

/// Fields that were read end at or behind where they start.
pub proof fn lemma_fields_advance(
    s: SpecSchema,
    bytes: Seq<u8>,
    pos: int,
    i: nat,
    acc: Seq<(Seq<char>, SpecValue)>,
)
    ensures
        decode_fields(s, bytes, pos, i, acc) matches Ok((_, next)) ==> advances(bytes, pos, next),
    decreases s, 0nat, s->fields.len() - i, 0nat,
{
    if s is Record && i < s->fields.len() {
        let field = s->fields[i as int];
        lemma_decode_advances(field.schema, bytes, pos);
        if let Ok((v, next)) = decode_at(field.schema, bytes, pos) {
            lemma_fields_advance(s, bytes, next, i + 1, acc.push((field.name, v)));
        }
    }
}

/// Items that were read end behind where they start.
pub proof fn lemma_items_advance(
    s: SpecSchema,
    bytes: Seq<u8>,
    pos: int,
    remaining: nat,
    acc: Seq<SpecValue>,
)
    ensures
        decode_items(s, bytes, pos, remaining, acc) matches Ok((_, next)) ==> advances(
            bytes,
            pos,
            next,
        ),
    decreases s, 0nat, bytes.len() - pos, remaining,
{
    lemma_parse_advances(bytes, pos);
    if !(s is Array) {
    } else if remaining == 0 {
        if let Ok((count, next)) = parse_block_head(bytes, pos) {
            if count != 0 && acc.len() + count <= max_length() {
                lemma_items_advance(s, bytes, next, count, acc);
            }
        }
    } else {
        if let Ok((v, next)) = decode_at(*s->Array_0, bytes, pos) {
            if advances(bytes, pos, next) {
                lemma_items_advance(s, bytes, next, (remaining - 1) as nat, acc.push(v));
            }
        }
    }
}

/// Entries that were read end behind where they start.
pub proof fn lemma_entries_advance(
    s: SpecSchema,
    bytes: Seq<u8>,
    pos: int,
    remaining: nat,
    acc: Seq<(Seq<char>, SpecValue)>,
)
    ensures
        decode_entries(s, bytes, pos, remaining, acc) matches Ok((_, next)) ==> advances(
            bytes,
            pos,
            next,
        ),
    decreases s, 0nat, bytes.len() - pos, remaining,
{
    lemma_parse_advances(bytes, pos);
    if !(s is Dict) {
    } else if remaining == 0 {
        if let Ok((count, next)) = parse_block_head(bytes, pos) {
            if count != 0 && acc.len() + count <= max_length() {
                lemma_entries_advance(s, bytes, next, count, acc);
            }
        }
    } else {
        if let Ok((key, start)) = parse_text(bytes, pos) {
            if let Ok((v, next)) = decode_at(*s->Dict_0, bytes, start) {
                if advances(bytes, pos, next) {
                    lemma_entries_advance(
                        s,
                        bytes,
                        next,
                        (remaining - 1) as nat,
                        acc.push((key, v)),
                    );
                }
            }
        }
    }
}

/// Whether the result of a read is what `expected` says.
pub open spec fn agrees(r: Result<(Value, usize), Error>, expected: Decoded) -> bool {
    match r {
        Ok((v, next)) => expected == Ok::<(SpecValue, int), SpecError>((v@, next as int)),
        Err(e) => expected == Err::<(SpecValue, int), SpecError>(e@),
    }
}

/// Turns bytes into a text, with `String::from_utf8`. Trusted: that it
/// accepts exactly the valid UTF-8 sequences, and that the text is made of
/// the bytes it was given.
#[verifier::external_body]
fn string_from_utf8(raw: Vec<u8>) -> (r: Option<String>)
    ensures
        match r {
            Some(text) => valid_utf8(raw@) && encode_utf8(text@) == raw@,
            None => !valid_utf8(raw@),
        },
{
    String::from_utf8(raw).ok()
}

/// The text that `raw` encodes, where it encodes one.
pub(crate) fn text_from_utf8(raw: Vec<u8>) -> (r: Option<String>)
    ensures
        match r {
            Some(text) => valid_utf8(raw@) && text@ == decode_utf8(raw@),
            None => !valid_utf8(raw@),
        },
{
    match string_from_utf8(raw) {
        Some(text) => {
            proof {
                encode_utf8_decode_utf8(text@);
            }
            Some(text)
        },
        None => None,
    }
}

fn read_run<'a>(bytes: &'a [u8], pos: usize) -> (r: Result<(&'a [u8], usize), ErrorKind>)
    ensures
        match r {
            Ok((raw, next)) => parse_run(bytes@, pos as int) == Ok::<(Seq<u8>, int), ErrorKind>(
                (raw@, next as int),
            ),
            Err(kind) => parse_run(bytes@, pos as int) == Err::<(Seq<u8>, int), ErrorKind>(kind),
        },
{
    match read_long(bytes, pos) {
        Err(kind) => Err(kind),
        Ok((n, next)) => {
            if n < 0 {
                return Err(ErrorKind::MalformedPayload);
            }
            if n as u64 > (bytes.len() - next) as u64 {
                return Err(ErrorKind::TruncatedFrame);
            }
            let end = next + n as usize;
            Ok((slice_subrange(bytes, next, end), end))
        },
    }
}

fn read_text(bytes: &[u8], pos: usize) -> (r: Result<(String, usize), ErrorKind>)
    ensures
        match r {
            Ok((text, next)) => parse_text(bytes@, pos as int) == Ok::<(Seq<char>, int), ErrorKind>(
                (text@, next as int),
            ),
            Err(kind) => parse_text(bytes@, pos as int) == Err::<(Seq<char>, int), ErrorKind>(
                kind,
            ),
        },
{
    match read_run(bytes, pos) {
        Err(kind) => Err(kind),
        Ok((raw, next)) => match text_from_utf8(slice_to_vec(raw)) {
            Some(text) => Ok((text, next)),
            None => Err(ErrorKind::MalformedPayload),
        },
    }
}

fn read_block_head(bytes: &[u8], pos: usize) -> (r: Result<(u64, usize), ErrorKind>)
    ensures
        match r {
            Ok((count, next)) => parse_block_head(bytes@, pos as int) == Ok::<
                (nat, int),
                ErrorKind,
            >((count as nat, next as int)),
            Err(kind) => parse_block_head(bytes@, pos as int) == Err::<(nat, int), ErrorKind>(
                kind,
            ),
        },
{
    match read_long(bytes, pos) {
        Err(kind) => Err(kind),
        Ok((n, next)) => {
            if n >= 0 {
                return Ok((n as u64, next));
            }
            match read_long(bytes, next) {
                Err(kind) => Err(kind),
                Ok((_, after)) => {
                    let count: u64 = if n == i64::MIN {
                        0x8000_0000_0000_0000
                    } else {
                        (-n) as u64
                    };
                    Ok((count, after))
                },
            }
        },
    }
}

#[verifier::loop_isolation(false)]
fn read_fields(schema: &Schema, bytes: &[u8], pos: usize) -> (r: Result<
    (Vec<(String, Value)>, usize),
    Error,
>)
    requires
        schema is Record,
    ensures
        match r {
            Ok((entries, next)) => decode_fields(schema@, bytes@, pos as int, 0, Seq::empty())
                == Ok::<(Seq<(Seq<char>, SpecValue)>, int), SpecError>(
                (entry_models(entries@), next as int),
            ),
            Err(e) => decode_fields(schema@, bytes@, pos as int, 0, Seq::empty()) == Err::<
                (Seq<(Seq<char>, SpecValue)>, int),
                SpecError,
            >(e@),
        },
    decreases schema, 0nat,
{
    proof {
        lemma_schema_unfolds(*schema);
    }
    let ghost whole = decode_fields(schema@, bytes@, pos as int, 0, Seq::empty());
    match schema {
        Schema::Record { fields, .. } => {
            let mut entries: Vec<(String, Value)> = Vec::new();
            let mut cur = pos;
            let mut i: usize = 0;
            assert(entry_models(entries@) =~= Seq::empty());
            while i < fields.len()
                invariant
                    schema@ is Record,
                    schema@->fields == field_models(fields@),
                    0 <= i <= fields.len(),
                    whole == decode_fields(
                        schema@,
                        bytes@,
                        cur as int,
                        i as nat,
                        entry_models(entries@),
                    ),
                decreases fields.len() - i,
            {
                let ghost before = entry_models(entries@);
                match decode_value(&fields[i].schema, bytes, cur) {
                    Err(e) => {
                        return Err(e.within(&fields[i].name));
                    },
                    Ok((v, next)) => {
                        entries.push((fields[i].name.clone(), v));
                        assert(entry_models(entries@) =~= before.push((fields[i as int]@.name, v@)));
                        cur = next;
                        i += 1;
                    },
                }
            }
            Ok((entries, cur))
        },
        _ => Ok((Vec::new(), pos)),
    }
}

#[verifier::loop_isolation(false)]
fn read_items(schema: &Schema, bytes: &[u8], pos: usize) -> (r: Result<(Vec<Value>, usize), Error>)
    requires
        schema is Array,
    ensures
        match r {
            Ok((items, next)) => decode_items(schema@, bytes@, pos as int, 0, Seq::empty())
                == Ok::<(Seq<SpecValue>, int), SpecError>((models(items@), next as int)),
            Err(e) => decode_items(schema@, bytes@, pos as int, 0, Seq::empty()) == Err::<
                (Seq<SpecValue>, int),
                SpecError,
            >(e@),
        },
    decreases schema, 0nat,
{
    proof {
        lemma_schema_unfolds(*schema);
    }
    let ghost whole = decode_items(schema@, bytes@, pos as int, 0, Seq::empty());
    match schema {
        Schema::Array(of) => {
            let mut items: Vec<Value> = Vec::new();
            assert(models(items@) =~= Seq::empty());
            if pos > bytes.len() {
                return Err(Error::new(ErrorKind::TruncatedFrame, pos));
            }
            let mut cur = pos;
            loop
                invariant
                    schema@ == SpecSchema::Array(Box::new(of@)),
                    cur <= bytes.len(),
                    items.len() <= max_length(),
                    whole == decode_items(schema@, bytes@, cur as int, 0, models(items@)),
                decreases bytes.len() - cur,
            {
                proof {
                    lemma_parse_advances(bytes@, cur as int);
                }
                let (count, start) = match read_block_head(bytes, cur) {
                    Err(kind) => {
                        return Err(Error::new(kind, cur));
                    },
                    Ok(head) => head,
                };
                if count == 0 {
                    return Ok((items, start));
                }
                if count > 0x7fff_ffff_ffff_ffff - items.len() as u64 {
                    return Err(Error::new(ErrorKind::MalformedPayload, cur));
                }
                let ghost head_at = cur;
                cur = start;
                let mut remaining = count;
                while remaining > 0
                    invariant
                        schema@ == SpecSchema::Array(Box::new(of@)),
                        head_at < cur <= bytes.len(),
                        items.len() + remaining <= max_length(),
                        whole == decode_items(
                            schema@,
                            bytes@,
                            cur as int,
                            remaining as nat,
                            models(items@),
                        ),
                    decreases remaining,
                {
                    let ghost before = models(items@);
                    proof {
                        lemma_decode_advances(of@, bytes@, cur as int);
                    }
                    match decode_value(of, bytes, cur) {
                        Err(e) => {
                            return Err(e);
                        },
                        Ok((v, next)) => {
                            items.push(v);
                            assert(models(items@) =~= before.push(v@));
                            cur = next;
                            remaining -= 1;
                        },
                    }
                }
            }
        },
        _ => Ok((Vec::new(), pos)),
    }
}

#[verifier::loop_isolation(false)]
fn read_entries(schema: &Schema, bytes: &[u8], pos: usize) -> (r: Result<
    (Vec<(String, Value)>, usize),
    Error,
>)
    requires
        schema is Dict,
    ensures
        match r {
            Ok((entries, next)) => decode_entries(schema@, bytes@, pos as int, 0, Seq::empty())
                == Ok::<(Seq<(Seq<char>, SpecValue)>, int), SpecError>(
                (entry_models(entries@), next as int),
            ),
            Err(e) => decode_entries(schema@, bytes@, pos as int, 0, Seq::empty()) == Err::<
                (Seq<(Seq<char>, SpecValue)>, int),
                SpecError,
            >(e@),
        },
    decreases schema, 0nat,
{
    proof {
        lemma_schema_unfolds(*schema);
    }
    let ghost whole = decode_entries(schema@, bytes@, pos as int, 0, Seq::empty());
    match schema {
        Schema::Dict(of) => {
            let mut entries: Vec<(String, Value)> = Vec::new();
            assert(entry_models(entries@) =~= Seq::empty());
            if pos > bytes.len() {
                return Err(Error::new(ErrorKind::TruncatedFrame, pos));
            }
            let mut cur = pos;
            loop
                invariant
                    schema@ == SpecSchema::Dict(Box::new(of@)),
                    cur <= bytes.len(),
                    entries.len() <= max_length(),
                    whole == decode_entries(schema@, bytes@, cur as int, 0, entry_models(entries@)),
                decreases bytes.len() - cur,
            {
                proof {
                    lemma_parse_advances(bytes@, cur as int);
                }
                let (count, start) = match read_block_head(bytes, cur) {
                    Err(kind) => {
                        return Err(Error::new(kind, cur));
                    },
                    Ok(head) => head,
                };
                if count == 0 {
                    return Ok((entries, start));
                }
                if count > 0x7fff_ffff_ffff_ffff - entries.len() as u64 {
                    return Err(Error::new(ErrorKind::MalformedPayload, cur));
                }
                let ghost head_at = cur;
                cur = start;
                let mut remaining = count;
                while remaining > 0
                    invariant
                        schema@ == SpecSchema::Dict(Box::new(of@)),
                        head_at < cur <= bytes.len(),
                        entries.len() + remaining <= max_length(),
                        whole == decode_entries(
                            schema@,
                            bytes@,
                            cur as int,
                            remaining as nat,
                            entry_models(entries@),
                        ),
                    decreases remaining,
                {
                    let ghost before = entry_models(entries@);
                    proof {
                        lemma_parse_advances(bytes@, cur as int);
                    }
                    let (key, value_at) = match read_text(bytes, cur) {
                        Err(kind) => {
                            return Err(Error::new(kind, cur));
                        },
                        Ok(key) => key,
                    };
                    proof {
                        lemma_decode_advances(of@, bytes@, value_at as int);
                    }
                    match decode_value(of, bytes, value_at) {
                        Err(e) => {
                            return Err(e);
                        },
                        Ok((v, next)) => {
                            let ghost key_text = key@;
                            entries.push((key, v));
                            assert(entry_models(entries@) =~= before.push((key_text, v@)));
                            cur = next;
                            remaining -= 1;
                        },
                    }
                }
            }
        },
        _ => Ok((Vec::new(), pos)),
    }
}

/// Whether values of the kind hold no other values.
pub open spec fn is_scalar(s: SpecSchema) -> bool {
    !(s is Record || s is Array || s is Dict || s is Union)
}

fn decode_number(schema: &Schema, bytes: &[u8], pos: usize) -> (r: Result<(Value, usize), Error>)
    requires
        schema is Boolean || schema is Int || schema is Long || schema is Float || schema is Double,
    ensures
        agrees(r, decode_at(schema@, bytes@, pos as int)),
{
    match schema {
        Schema::Boolean => {
            if pos >= bytes.len() {
                Err(Error::new(ErrorKind::TruncatedFrame, pos))
            } else if bytes[pos] == 0 {
                Ok((Value::Boolean(false), pos + 1))
            } else if bytes[pos] == 1 {
                Ok((Value::Boolean(true), pos + 1))
            } else {
                Err(Error::new(ErrorKind::MalformedPayload, pos))
            }
        },
        Schema::Int => match read_long(bytes, pos) {
            Err(kind) => Err(Error::new(kind, pos)),
            Ok((n, next)) => {
                if -0x8000_0000 <= n && n <= 0x7fff_ffff {
                    Ok((Value::Int(n as i32), next))
                } else {
                    Err(Error::new(ErrorKind::MalformedPayload, pos))
                }
            },
        },
        Schema::Long => match read_long(bytes, pos) {
            Err(kind) => Err(Error::new(kind, pos)),
            Ok((n, next)) => Ok((Value::Long(n), next)),
        },
        Schema::Float => {
            if pos > bytes.len() || bytes.len() - pos < 4 {
                Err(Error::new(ErrorKind::TruncatedFrame, pos))
            } else {
                let bits = u32_from_le_bytes(slice_subrange(bytes, pos, pos + 4));
                Ok((Value::Float(bits), pos + 4))
            }
        },
        _ => {
            if pos > bytes.len() || bytes.len() - pos < 8 {
                Err(Error::new(ErrorKind::TruncatedFrame, pos))
            } else {
                let bits = u64_from_le_bytes(slice_subrange(bytes, pos, pos + 8));
                Ok((Value::Double(bits), pos + 8))
            }
        },
    }
}

fn decode_scalar(schema: &Schema, bytes: &[u8], pos: usize) -> (r: Result<(Value, usize), Error>)
    requires
        is_scalar(schema@),
    ensures
        agrees(r, decode_at(schema@, bytes@, pos as int)),
{
    match schema {
        Schema::Null => Ok((Value::Null, pos)),
        Schema::Bytes => match read_run(bytes, pos) {
            Err(kind) => Err(Error::new(kind, pos)),
            Ok((raw, next)) => Ok((Value::Bytes(slice_to_vec(raw)), next)),
        },
        Schema::String => match read_text(bytes, pos) {
            Err(kind) => Err(Error::new(kind, pos)),
            Ok((text, next)) => Ok((Value::String(text), next)),
        },
        Schema::Enum { symbols, .. } => match read_long(bytes, pos) {
            Err(kind) => Err(Error::new(kind, pos)),
            Ok((n, next)) => {
                if 0 <= n && n <= 0xffff_ffff && (n as u64) < (symbols.len() as u64) {
                    Ok((Value::Enum(n as u32, symbols[n as usize].clone()), next))
                } else {
                    Err(Error::new(ErrorKind::MalformedPayload, pos))
                }
            },
        },
        Schema::Fixed { size, .. } => {
            if pos > bytes.len() || bytes.len() - pos < *size {
                Err(Error::new(ErrorKind::TruncatedFrame, pos))
            } else {
                let raw = slice_subrange(bytes, pos, pos + *size);
                Ok((Value::Fixed(slice_to_vec(raw)), pos + *size))
            }
        },
        _ => decode_number(schema, bytes, pos),
    }
}

/// Reads the value of type `schema` whose encoding starts at `pos`: the value
/// and the position behind it.
pub fn decode_value(schema: &Schema, bytes: &[u8], pos: usize) -> (r: Result<(Value, usize), Error>)
    ensures
        agrees(r, decode_at(schema@, bytes@, pos as int)),
    decreases schema, 1nat,
{
    proof {
        lemma_schema_unfolds(*schema);
    }
    match schema {
        Schema::Record { .. } => match read_fields(schema, bytes, pos) {
            Err(e) => Err(e),
            Ok((entries, next)) => {
                let v = Value::Record(entries);
                proof {
                    lemma_model_unfolds(v);
                }
                Ok((v, next))
            },
        },
        Schema::Array(_) => match read_items(schema, bytes, pos) {
            Err(e) => Err(e),
            Ok((items, next)) => {
                let v = Value::Array(items);
                proof {
                    lemma_model_unfolds(v);
                }
                Ok((v, next))
            },
        },
        Schema::Dict(_) => match read_entries(schema, bytes, pos) {
            Err(e) => Err(e),
            Ok((entries, next)) => {
                let v = Value::Dict(entries);
                proof {
                    lemma_model_unfolds(v);
                }
                Ok((v, next))
            },
        },
        Schema::Union(branches) => match read_long(bytes, pos) {
            Err(kind) => Err(Error::new(kind, pos)),
            Ok((n, next)) => {
                if 0 <= n && n <= 0xffff_ffff && (n as u64) < (branches.len() as u64) {
                    match decode_value(&branches[n as usize], bytes, next) {
                        Err(e) => Err(e),
                        Ok((inner, after)) => {
                            let v = Value::Union(n as u32, Box::new(inner));
                            proof {
                                lemma_model_unfolds(v);
                            }
                            Ok((v, after))
                        },
                    }
                } else {
                    Err(Error::new(ErrorKind::MalformedPayload, pos))
                }
            },
        },
        _ => decode_scalar(schema, bytes, pos),
    }
}

} // verus!
