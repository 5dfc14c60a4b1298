//! The binary encoding of values.

use vstd::bytes::{spec_u32_to_le_bytes, spec_u64_to_le_bytes, u32_to_le_bytes, u64_to_le_bytes};
use vstd::prelude::*;
use vstd::utf8::encode_utf8;
use crate::frame::append_bytes;
use crate::value::{entry_models, lemma_model_unfolds, models, SpecValue, Value};
use crate::varint::{long_bytes, write_length, write_long};

verus! {

/// The bytes of a run of bytes: its length, then the bytes.
pub open spec fn run_bytes(bytes: Seq<u8>) -> Seq<u8> {
    long_bytes(bytes.len() as int) + bytes
}

/// The bytes of a text: the length of its UTF-8 form, then that form.
pub open spec fn text_bytes(text: Seq<char>) -> Seq<u8> {
    run_bytes(encode_utf8(text))
}

/// The bytes of a collection of `count` items whose encodings make up `body`:
/// one block with the count in front, then the zero that ends the blocks.
pub open spec fn blocks(count: nat, body: Seq<u8>) -> Seq<u8> {
    if count == 0 {
        seq![0u8]
    } else {
        long_bytes(count as int) + body + seq![0u8]
    }
}

/// The binary encoding of a value.
pub open spec fn encoding(v: SpecValue) -> Seq<u8>
    decreases v, 0nat,
{
    match v {
        SpecValue::Null => Seq::empty(),
        SpecValue::Boolean(b) => seq![if b { 1u8 } else { 0u8 }],
        SpecValue::Int(n) => long_bytes(n as int),
        SpecValue::Long(n) => long_bytes(n as int),
        SpecValue::Float(bits) => spec_u32_to_le_bytes(bits),
        SpecValue::Double(bits) => spec_u64_to_le_bytes(bits),
        SpecValue::Bytes(bytes) => run_bytes(bytes),
        SpecValue::String(text) => text_bytes(text),
        SpecValue::Record(entries) => fields_encoding(entries, entries.len()),
        SpecValue::Enum(position, _) => long_bytes(position as int),
        SpecValue::Array(items) => blocks(items.len(), items_encoding(items, items.len())),
        SpecValue::Dict(entries) => blocks(entries.len(), entries_encoding(entries, entries.len())),
        SpecValue::Union(position, inner) => long_bytes(position as int) + encoding(*inner),
        SpecValue::Fixed(bytes) => bytes,
    }
}

/// The encodings of the first `n` fields of a record, one after the other.
pub open spec fn fields_encoding(entries: Seq<(Seq<char>, SpecValue)>, n: nat) -> Seq<u8>
    decreases entries, n,
{
    if n == 0 || n > entries.len() {
        Seq::empty()
    } else {
        fields_encoding(entries, (n - 1) as nat) + encoding(entries[n - 1].1)
    }
}

/// The encodings of the first `n` items of an array, one after the other.
pub open spec fn items_encoding(items: Seq<SpecValue>, n: nat) -> Seq<u8>
    decreases items, n,
{
    if n == 0 || n > items.len() {
        Seq::empty()
    } else {
        items_encoding(items, (n - 1) as nat) + encoding(items[n - 1])
    }
}

/// The encodings of the first `n` entries of a map, key before value.
pub open spec fn entries_encoding(entries: Seq<(Seq<char>, SpecValue)>, n: nat) -> Seq<u8>
    decreases entries, n,
{
    if n == 0 || n > entries.len() {
        Seq::empty()
    } else {
        entries_encoding(entries, (n - 1) as nat) + text_bytes(entries[n - 1].0) + encoding(
            entries[n - 1].1,
        )
    }
}

fn write_run(bytes: &[u8], out: &mut Vec<u8>)
    ensures
        final(out)@ == old(out)@ + run_bytes(bytes@),
{
    write_length(bytes.len(), out);
    append_bytes(out, bytes);
    assert(out@ =~= old(out)@ + run_bytes(bytes@));
}

fn write_fields(entries: &Vec<(String, Value)>, out: &mut Vec<u8>)
    ensures
        final(out)@ == old(out)@ + fields_encoding(entry_models(entries@), entries.len() as nat),
    decreases entries,
{
    let ghost es = entry_models(entries@);
    let mut i: usize = 0;
    while i < entries.len()
        invariant
            es == entry_models(entries@),
            0 <= i <= entries.len(),
            out@ == old(out)@ + fields_encoding(es, i as nat),
        decreases entries.len() - i,
    {
        encode_value(&entries[i].1, out);
        i += 1;
        assert(out@ =~= old(out)@ + fields_encoding(es, i as nat));
    }
}

fn write_items(items: &Vec<Value>, out: &mut Vec<u8>)
    ensures
        final(out)@ == old(out)@ + items_encoding(models(items@), items.len() as nat),
    decreases items,
{
    let ghost vs = models(items@);
    let mut i: usize = 0;
    while i < items.len()
        invariant
            vs == models(items@),
            0 <= i <= items.len(),
            out@ == old(out)@ + items_encoding(vs, i as nat),
        decreases items.len() - i,
    {
        encode_value(&items[i], out);
        i += 1;
        assert(out@ =~= old(out)@ + items_encoding(vs, i as nat));
    }
}

fn write_entries(entries: &Vec<(String, Value)>, out: &mut Vec<u8>)
    ensures
        final(out)@ == old(out)@ + entries_encoding(entry_models(entries@), entries.len() as nat),
    decreases entries,
{
    let ghost es = entry_models(entries@);
    let mut i: usize = 0;
    while i < entries.len()
        invariant
            es == entry_models(entries@),
            0 <= i <= entries.len(),
            out@ == old(out)@ + entries_encoding(es, i as nat),
        decreases entries.len() - i,
    {
        write_run(entries[i].0.as_str().as_bytes(), out);
        encode_value(&entries[i].1, out);
        i += 1;
        assert(out@ =~= old(out)@ + entries_encoding(es, i as nat));
    }
}

/// Appends the binary encoding of `value` to `out`.
pub fn encode_value(value: &Value, out: &mut Vec<u8>)
    ensures
        final(out)@ == old(out)@ + encoding(value@),
    decreases value,
{
    proof {
        lemma_model_unfolds(*value);
    }
    match value {
        Value::Null => {
            assert(out@ =~= old(out)@ + encoding(value@));
        },
        Value::Boolean(b) => {
            out.push(if *b { 1 } else { 0 });
            assert(out@ =~= old(out)@ + encoding(value@));
        },
        Value::Int(n) => write_long(*n as i64, out),
        Value::Long(n) => write_long(*n, out),
        Value::Float(bits) => {
            let wire = u32_to_le_bytes(*bits);
            append_bytes(out, wire.as_slice());
        },
        Value::Double(bits) => {
            let wire = u64_to_le_bytes(*bits);
            append_bytes(out, wire.as_slice());
        },
        Value::Bytes(bytes) => write_run(bytes.as_slice(), out),
        Value::String(text) => write_run(text.as_str().as_bytes(), out),
        Value::Record(entries) => write_fields(entries, out),
        Value::Enum(position, _) => write_long(*position as i64, out),
        Value::Array(items) => {
            if items.len() == 0 {
                out.push(0);
            } else {
                write_length(items.len(), out);
                write_items(items, out);
                out.push(0);
            }
            assert(out@ =~= old(out)@ + encoding(value@));
        },
        Value::Dict(entries) => {
            if entries.len() == 0 {
                out.push(0);
            } else {
                write_length(entries.len(), out);
                write_entries(entries, out);
                out.push(0);
            }
            assert(out@ =~= old(out)@ + encoding(value@));
        },
        Value::Union(position, inner) => {
            write_long(*position as i64, out);
            encode_value(inner, out);
            assert(out@ =~= old(out)@ + encoding(value@));
        },
        Value::Fixed(bytes) => append_bytes(out, bytes.as_slice()),
    }
}

} // verus!
