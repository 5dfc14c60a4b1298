//! What holds of writing, reading and resolving, for every schema and value.

use vstd::prelude::*;
use crate::error::{failure, ErrorKind, SpecError};
use crate::fingerprint::{fingerprint_of, lemma_wire_is_injective};
use crate::frame::{frame_of, lemma_frame_round_trip, marker, HEADER_LEN};
use crate::object::{read_local_spec, resolve_at, written};
use crate::outcome::{
    field_outcome, lemma_no_failing_field, lemma_record_fails_with_its_first_failing_field,
    lemma_resolved_record,
};
use crate::reader::decode_at;
use crate::resolve::{lemma_position_of, position_of, resolve_spec, writer_field};
use crate::roundtrip::{holds_at, lemma_round_trip};
use crate::schema::{conforms, well_formed, SpecField, SpecSchema};
use crate::steady::{fields_keep, lemma_well_formed_fields_apart};
use crate::value::SpecValue;
use crate::writer::encoding;

verus! {

/// Reading a single object under the schema it was written with gives back
/// the value that was written, with or without the check of the fingerprint.
pub proof fn lemma_single_object_round_trip(s: SpecSchema, v: SpecValue, check: bool)
    requires
        well_formed(s),
        conforms(s, v),
    ensures
        written(s, v) matches Ok(frame) && read_local_spec(frame, s, check) == Ok::<
            SpecValue,
            SpecError,
        >(v),
{
    let fp = fingerprint_of(s);
    let payload = encoding(v);
    let frame = frame_of(marker(), fp, payload);
    lemma_frame_round_trip(fp, payload);
    lemma_wire_is_injective(fp, fp);
    assert(frame.subrange(HEADER_LEN as int, HEADER_LEN + payload.len()) =~= payload);
    assert(holds_at(frame, HEADER_LEN as int, payload));
    lemma_round_trip(s, v, frame, HEADER_LEN as int);
}

/// Input of fewer than ten bytes is read as a truncated frame, whatever it
/// holds and whatever the schema.
pub proof fn lemma_short_frame_is_truncated(frame: Seq<u8>, s: SpecSchema, check: bool)
    requires
        frame.len() < 10,
    ensures
        read_local_spec(frame, s, check) == Err::<SpecValue, SpecError>(
            failure(ErrorKind::TruncatedFrame, frame.len() as int),
        ),
{
}

/// Resolving the bytes of a value that conforms to the writer's schema is
/// resolving the value: the bytes of every field of the writer are read,
/// whether the reader keeps the field or not.
pub proof fn lemma_resolve_reads_what_was_written(
    w: SpecSchema,
    r: SpecSchema,
    v: SpecValue,
    bytes: Seq<u8>,
    pos: int,
)
    requires
        conforms(w, v),
        holds_at(bytes, pos, encoding(v)),
    ensures
        decode_at(w, bytes, pos) == Ok::<(SpecValue, int), SpecError>(
            (v, pos + encoding(v).len()),
        ),
        resolve_at(w, r, bytes, pos) == resolve_spec(w, r, v),
{
    lemma_round_trip(w, v, bytes, pos);
}

/// A field that the reader adds with a default, and that no field of the
/// writer stands for, holds the default in whatever is resolved.
pub proof fn lemma_added_field_takes_default(
    w: SpecSchema,
    r: SpecSchema,
    v: SpecValue,
    k: int,
    d: SpecValue,
)
    requires
        w is Record,
        r is Record,
        0 <= k < r->fields.len(),
        writer_field(w->fields, r->fields[k]) is None,
        r->fields[k].default == Some(d),
        resolve_spec(w, r, v) is Ok,
    ensures
        resolve_spec(w, r, v)->Ok_0 is Record,
        resolve_spec(w, r, v)->Ok_0->Record_0.len() == r->fields.len(),
        resolve_spec(w, r, v)->Ok_0->Record_0[k] == (r->fields[k].name, d),
{
    lemma_resolved_record(w, r, v);
    let out = resolve_spec(w, r, v)->Ok_0;
    assert(out->Record_0[k].0 == r->fields[k].name);
}

/// A field that the reader lacks does not disturb the fields behind it: where
/// the bytes of a record of the writer stand, each field of the reader that
/// stands for a field of the writer holds that field's value, resolved, and
/// no field of the result bears a name that the reader does not have.
pub proof fn lemma_removed_field_is_skipped(
    w: SpecSchema,
    r: SpecSchema,
    v: SpecValue,
    bytes: Seq<u8>,
    pos: int,
)
    requires
        w is Record,
        r is Record,
        conforms(w, v),
        holds_at(bytes, pos, encoding(v)),
        resolve_at(w, r, bytes, pos) is Ok,
    ensures
        ({
            let out = resolve_at(w, r, bytes, pos)->Ok_0;
            &&& out is Record
            &&& out->Record_0.len() == r->fields.len()
            &&& forall|k: int|
                0 <= k < r->fields.len() ==> (#[trigger] out->Record_0[k]).0 == r->fields[k].name
            &&& forall|k: int|
                0 <= k < r->fields.len() ==> match writer_field(w->fields, r->fields[k]) {
                    Some(j) => resolve_spec(
                        w->fields[j as int].schema,
                        r->fields[k].schema,
                        v->Record_0[j as int].1,
                    ) == Ok::<SpecValue, SpecError>((#[trigger] out->Record_0[k]).1),
                    None => true,
                }
        }),
{
    lemma_resolve_reads_what_was_written(w, r, v, bytes, pos);
    lemma_resolved_record(w, r, v);
    let out = resolve_spec(w, r, v)->Ok_0;
    assert forall|k: int| 0 <= k < r->fields.len() implies match writer_field(
        w->fields,
        r->fields[k],
    ) {
        Some(j) => resolve_spec(
            w->fields[j as int].schema,
            r->fields[k].schema,
            v->Record_0[j as int].1,
        ) == Ok::<SpecValue, SpecError>((#[trigger] out->Record_0[k]).1),
        None => true,
    } by {
        assert(field_outcome(w, r, v->Record_0, k) == Ok::<SpecValue, SpecError>(
            out->Record_0[k].1,
        ));
    }
}

/// A 32-bit integer of the writer becomes the 64-bit integer of the same
/// value in a reader that declares a `long`, from the value and from its
/// bytes.
pub proof fn lemma_int_widens_to_long(n: i32, bytes: Seq<u8>, pos: int)
    requires
        holds_at(bytes, pos, encoding(SpecValue::Int(n))),
    ensures
        resolve_spec(SpecSchema::Int, SpecSchema::Long, SpecValue::Int(n)) == Ok::<
            SpecValue,
            SpecError,
        >(SpecValue::Long(n as i64)),
        resolve_at(SpecSchema::Int, SpecSchema::Long, bytes, pos) == Ok::<SpecValue, SpecError>(
            SpecValue::Long(n as i64),
        ),
{
    lemma_resolve_reads_what_was_written(
        SpecSchema::Int,
        SpecSchema::Long,
        SpecValue::Int(n),
        bytes,
        pos,
    );
}

/// A symbol of the writer that the reader's enum does not know becomes the
/// reader's default symbol, at the position that the reader gives it;
/// without a default the value cannot be resolved.
pub proof fn lemma_unknown_symbol_takes_default(
    w: SpecSchema,
    r: SpecSchema,
    position: u32,
    symbol: Seq<char>,
)
    requires
        w is Enum,
        r is Enum,
        well_formed(r),
        !r->symbols.contains(symbol),
    ensures
        match r->default {
            Some(d) => {
                &&& position_of(r->symbols, d, 0) matches Some(at)
                &&& at < r->symbols.len() && r->symbols[at as int] == d
                &&& resolve_spec(w, r, SpecValue::Enum(position, symbol)) == Ok::<
                    SpecValue,
                    SpecError,
                >(SpecValue::Enum(at as u32, d))
            },
            None => resolve_spec(w, r, SpecValue::Enum(position, symbol)) == Err::<
                SpecValue,
                SpecError,
            >(failure(ErrorKind::UnresolvableEnumSymbol, 0)),
        },
{
    let symbols = r->symbols;
    lemma_position_of(symbols, symbol, 0);
    if let Some(i) = position_of(symbols, symbol, 0) {
        assert(symbols.contains(symbol));
    }
    if let Some(d) = r->default {
        lemma_position_of(symbols, d, 0);
        let k = choose|k: int| 0 <= k < symbols.len() && symbols[k] == d;
        assert(position_of(symbols, d, 0) is Some);
    }
}

/// A reader whose record is the writer's with one more field, wherever it
/// stands, which has a default and stands for no field of the writer, reads
/// what the writer wrote with the default in the new field and all else as it
/// was written, where the fields of the value keep.
pub proof fn lemma_added_field_keeps_the_rest(
    w: SpecSchema,
    r: SpecSchema,
    v: SpecValue,
    at: int,
    added: SpecField,
    d: SpecValue,
    bytes: Seq<u8>,
    pos: int,
)
    requires
        w is Record,
        r is Record,
        well_formed(w),
        conforms(w, v),
        fields_keep(w, v, -1),
        0 <= at <= w->fields.len(),
        r->fields == w->fields.insert(at, added),
        added.default == Some(d),
        writer_field(w->fields, added) is None,
        holds_at(bytes, pos, encoding(v)),
    ensures
        resolve_spec(w, r, v) == Ok::<SpecValue, SpecError>(
            SpecValue::Record(v->Record_0.insert(at, (added.name, d))),
        ),
        resolve_at(w, r, bytes, pos) == resolve_spec(w, r, v),
{
    let entries = v->Record_0;
    let expected = entries.insert(at, (added.name, d));
    lemma_well_formed_fields_apart(w);
    w->fields.insert_ensures(at, added);
    entries.insert_ensures(at, (added.name, d));
    assert forall|k: int| 0 <= k < r->fields.len() implies field_outcome(w, r, entries, k) == Ok::<
        SpecValue,
        SpecError,
    >(expected[k].1) && r->fields[k].name == expected[k].0 by {
        if k < at {
            assert(r->fields[k] == w->fields[k]);
            assert(expected[k] == entries[k]);
        } else if k == at {
            assert(r->fields[k] == added);
        } else {
            assert(r->fields[k] == w->fields[k - 1]);
            assert(expected[k] == entries[k - 1]);
        }
    }
    lemma_no_failing_field(w, r, entries, 0);
    lemma_record_fails_with_its_first_failing_field(w, r, v);
    lemma_resolved_record(w, r, v);
    let out = resolve_spec(w, r, v)->Ok_0->Record_0;
    assert(out =~= expected) by {
        assert forall|k: int| 0 <= k < out.len() implies out[k] == expected[k] by {
            assert(field_outcome(w, r, entries, k) == Ok::<SpecValue, SpecError>(out[k].1));
        }
    }
    lemma_resolve_reads_what_was_written(w, r, v, bytes, pos);
}

/// A reader whose record is the writer's without one field reads what the
/// writer wrote without that field and all else as it was written, where the
/// other fields of the value keep: the fields behind the one that is left out
/// are read from where they stand.
pub proof fn lemma_removed_field_keeps_the_rest(
    w: SpecSchema,
    r: SpecSchema,
    v: SpecValue,
    g: int,
    bytes: Seq<u8>,
    pos: int,
)
    requires
        w is Record,
        r is Record,
        well_formed(w),
        conforms(w, v),
        0 <= g < w->fields.len(),
        fields_keep(w, v, g),
        r->fields == w->fields.remove(g),
        holds_at(bytes, pos, encoding(v)),
    ensures
        resolve_spec(w, r, v) == Ok::<SpecValue, SpecError>(
            SpecValue::Record(v->Record_0.remove(g)),
        ),
        resolve_at(w, r, bytes, pos) == resolve_spec(w, r, v),
{
    let entries = v->Record_0;
    lemma_well_formed_fields_apart(w);
    assert forall|k: int| 0 <= k < r->fields.len() implies field_outcome(w, r, entries, k) == Ok::<
        SpecValue,
        SpecError,
    >(entries.remove(g)[k].1) && r->fields[k].name == entries.remove(g)[k].0 by {
        let m = if k < g { k } else { k + 1 };
        assert(r->fields[k] == w->fields[m]);
        assert(entries.remove(g)[k] == entries[m]);
    }
    lemma_no_failing_field(w, r, entries, 0);
    lemma_record_fails_with_its_first_failing_field(w, r, v);
    lemma_resolved_record(w, r, v);
    let out = resolve_spec(w, r, v)->Ok_0->Record_0;
    assert(out =~= entries.remove(g)) by {
        assert forall|k: int| 0 <= k < out.len() implies out[k] == entries.remove(g)[k] by {
            assert(field_outcome(w, r, entries, k) == Ok::<SpecValue, SpecError>(out[k].1));
        }
    }
    lemma_resolve_reads_what_was_written(w, r, v, bytes, pos);
}

} // verus!
