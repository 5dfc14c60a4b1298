//! What is read and what is resolved is a value of the type it was read or
//! resolved under.

use vstd::prelude::*;
use vstd::utf8::{decode_utf8_encode_utf8, encode_utf8};
use crate::error::SpecError;
use crate::frame::HEADER_LEN;
use crate::object::{read_local_spec, resolve_at};
use crate::outcome::{
    field_outcome, lemma_resolve_entries, lemma_resolve_items, lemma_resolved_record,
};
use crate::reader::{
    decode_at, decode_entries, decode_fields, decode_items, lemma_parse_advances, parse_block_head,
    parse_run, parse_text,
};
use crate::resolve::{
    first_match, lemma_first_match, lemma_position_of, lemma_writer_field, resolve_spec,
    writer_field,
};
use crate::schema::{conforms, field_well_formed, max_length, well_formed, SpecSchema};
use crate::value::SpecValue;
use crate::varint::parse_long;

verus! {

/// What was resolved is a value of the reader's type.
pub proof fn lemma_resolved_conforms(w: SpecSchema, r: SpecSchema, v: SpecValue)
    requires
        well_formed(w),
        well_formed(r),
        conforms(w, v),
        resolve_spec(w, r, v) is Ok,
    ensures
        conforms(r, resolve_spec(w, r, v)->Ok_0),
    decreases w, r,
{
    let out = resolve_spec(w, r, v)->Ok_0;
    match (w, r) {
        (SpecSchema::Union(branches), _) => {
            let position = v->Union_0;
            lemma_resolved_conforms(branches[position as int], r, *v->Union_1);
        },
        (_, SpecSchema::Union(branches)) => {
            lemma_first_match(w, branches, 0);
            let i = first_match(w, branches, 0)->Some_0;
            lemma_resolved_conforms(w, branches[i as int], v);
        },
        (SpecSchema::Record { fields: writer_fields, .. }, SpecSchema::Record { fields, .. }) => {
            let entries = v->Record_0;
            lemma_resolved_record(w, r, v);
            let resolved = out->Record_0;
            assert forall|k: int| 0 <= k < resolved.len() implies (#[trigger] resolved[k]).0
                == fields[k].name && conforms(fields[k].schema, resolved[k].1) by {
                let field = fields[k];
                assert(field_well_formed(field));
                assert(field_outcome(w, r, entries, k) == Ok::<SpecValue, SpecError>(
                    resolved[k].1,
                ));
                lemma_writer_field(writer_fields, field);
                match writer_field(writer_fields, field) {
                    Some(j) => {
                        assert(field_well_formed(writer_fields[j as int]));
                        assert(conforms(writer_fields[j as int].schema, entries[j as int].1));
                        lemma_resolved_conforms(
                            writer_fields[j as int].schema,
                            field.schema,
                            entries[j as int].1,
                        );
                    },
                    None => {},
                }
            }
        },
        (SpecSchema::Array(writer_of), SpecSchema::Array(of)) => {
            let items = v->Array_0;
            lemma_resolve_items(w, r, items, 0, Seq::empty());
            let resolved = out->Array_0;
            assert forall|k: int| 0 <= k < resolved.len() implies conforms(
                *of,
                #[trigger] resolved[k],
            ) by {
                assert(resolved[0 + k - 0] == resolved[k]);
                assert(conforms(*writer_of, items[k]));
                lemma_resolved_conforms(*writer_of, *of, items[k]);
            }
        },
        (SpecSchema::Dict(writer_of), SpecSchema::Dict(of)) => {
            let entries = v->Dict_0;
            lemma_resolve_entries(w, r, entries, 0, Seq::empty());
            let resolved = out->Dict_0;
            assert forall|k: int| 0 <= k < resolved.len() implies encode_utf8(
                (#[trigger] resolved[k]).0,
            ).len() <= max_length() && conforms(*of, resolved[k].1) by {
                assert(resolved[0 + k - 0] == resolved[k]);
                assert(conforms(*writer_of, entries[k].1));
                lemma_resolved_conforms(*writer_of, *of, entries[k].1);
            }
        },
        (SpecSchema::Bytes, SpecSchema::String) => {
            decode_utf8_encode_utf8(v->Bytes_0);
        },
        (SpecSchema::Enum { .. }, SpecSchema::Enum { symbols, default, .. }) => {
            lemma_position_of(symbols, v->Enum_1, 0);
            if let Some(d) = default {
                lemma_position_of(symbols, d, 0);
            }
        },
        _ => {},
    }
}

/// What was read under a schema is a value of the schema's type.
pub proof fn lemma_decoded_conforms(s: SpecSchema, bytes: Seq<u8>, pos: int)
    requires
        decode_at(s, bytes, pos) is Ok,
    ensures
        conforms(s, decode_at(s, bytes, pos)->Ok_0.0),
    decreases s, 1nat, 0int, 0nat,
{
    lemma_parse_advances(bytes, pos);
    match s {
        SpecSchema::String => {
            let raw = parse_run(bytes, pos)->Ok_0.0;
            decode_utf8_encode_utf8(raw);
        },
        SpecSchema::Record { .. } => {
            lemma_fields_conform(s, bytes, pos, 0, Seq::empty());
        },
        SpecSchema::Array(_) => {
            lemma_items_conform(s, bytes, pos, 0, Seq::empty());
        },
        SpecSchema::Dict(_) => {
            lemma_entries_conform(s, bytes, pos, 0, Seq::empty());
        },
        SpecSchema::Union(branches) => {
            let (n, next) = parse_long(bytes, pos)->Ok_0;
            lemma_decoded_conforms(branches[n as int], bytes, next);
        },
        _ => {},
    }
}

proof fn lemma_fields_conform(
    s: SpecSchema,
    bytes: Seq<u8>,
    pos: int,
    i: nat,
    acc: Seq<(Seq<char>, SpecValue)>,
)
    requires
        s is Record,
        i <= s->fields.len(),
        acc.len() == i,
        forall|k: int|
            #![trigger acc[k]]
            0 <= k < i ==> acc[k].0 == s->fields[k].name && conforms(s->fields[k].schema, acc[k].1),
        decode_fields(s, bytes, pos, i, acc) is Ok,
    ensures
        conforms(s, SpecValue::Record(decode_fields(s, bytes, pos, i, acc)->Ok_0.0)),
    decreases s, 0nat, s->fields.len() - i, 0nat,
{
    if i < s->fields.len() {
        let field = s->fields[i as int];
        lemma_decoded_conforms(field.schema, bytes, pos);
        let (v, next) = decode_at(field.schema, bytes, pos)->Ok_0;
        lemma_fields_conform(s, bytes, next, i + 1, acc.push((field.name, v)));
    }
}

proof fn lemma_items_conform(
    s: SpecSchema,
    bytes: Seq<u8>,
    pos: int,
    remaining: nat,
    acc: Seq<SpecValue>,
)
    requires
        s is Array,
        acc.len() + remaining <= max_length(),
        forall|k: int| 0 <= k < acc.len() ==> conforms(*s->Array_0, #[trigger] acc[k]),
        decode_items(s, bytes, pos, remaining, acc) is Ok,
    ensures
        conforms(s, SpecValue::Array(decode_items(s, bytes, pos, remaining, acc)->Ok_0.0)),
    decreases s, 0nat, bytes.len() - pos, remaining,
{
    lemma_parse_advances(bytes, pos);
    if remaining == 0 {
        let (count, next) = parse_block_head(bytes, pos)->Ok_0;
        if count != 0 {
            lemma_items_conform(s, bytes, next, count, acc);
        }
    } else {
        lemma_decoded_conforms(*s->Array_0, bytes, pos);
        let (v, next) = decode_at(*s->Array_0, bytes, pos)->Ok_0;
        lemma_items_conform(s, bytes, next, (remaining - 1) as nat, acc.push(v));
    }
}

proof fn lemma_entries_conform(
    s: SpecSchema,
    bytes: Seq<u8>,
    pos: int,
    remaining: nat,
    acc: Seq<(Seq<char>, SpecValue)>,
)
    requires
        s is Dict,
        acc.len() + remaining <= max_length(),
        forall|k: int|
            #![trigger acc[k]]
            0 <= k < acc.len() ==> encode_utf8(acc[k].0).len() <= max_length() && conforms(
                *s->Dict_0,
                acc[k].1,
            ),
        decode_entries(s, bytes, pos, remaining, acc) is Ok,
    ensures
        conforms(s, SpecValue::Dict(decode_entries(s, bytes, pos, remaining, acc)->Ok_0.0)),
    decreases s, 0nat, bytes.len() - pos, remaining,
{
    lemma_parse_advances(bytes, pos);
    if remaining == 0 {
        let (count, next) = parse_block_head(bytes, pos)->Ok_0;
        if count != 0 {
            lemma_entries_conform(s, bytes, next, count, acc);
        }
    } else {
        let (key, start) = parse_text(bytes, pos)->Ok_0;
        let raw = parse_run(bytes, pos)->Ok_0.0;
        decode_utf8_encode_utf8(raw);
        lemma_decoded_conforms(*s->Dict_0, bytes, start);
        let (v, next) = decode_at(*s->Dict_0, bytes, start)->Ok_0;
        lemma_entries_conform(s, bytes, next, (remaining - 1) as nat, acc.push((key, v)));
    }
}

/// What the local reader gives is a value of the schema it read under.
pub proof fn lemma_read_local_conforms(frame: Seq<u8>, s: SpecSchema, check: bool)
    requires
        read_local_spec(frame, s, check) is Ok,
    ensures
        conforms(s, read_local_spec(frame, s, check)->Ok_0),
{
    lemma_decoded_conforms(s, frame, HEADER_LEN as int);
}

/// What resolution gives, from the bytes of the writer on, is a value of the
/// reader's type.
pub proof fn lemma_resolved_bytes_conform(w: SpecSchema, r: SpecSchema, bytes: Seq<u8>, pos: int)
    requires
        well_formed(w),
        well_formed(r),
        resolve_at(w, r, bytes, pos) is Ok,
    ensures
        conforms(r, resolve_at(w, r, bytes, pos)->Ok_0),
{
    lemma_decoded_conforms(w, bytes, pos);
    lemma_resolved_conforms(w, r, decode_at(w, bytes, pos)->Ok_0.0);
}

} // verus!
