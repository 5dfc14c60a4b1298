//! Reading gives back what was written.

use vstd::bytes::{lemma_auto_spec_u32_to_from_le_bytes, lemma_auto_spec_u64_to_from_le_bytes};
use vstd::prelude::*;
use vstd::utf8::{encode_utf8, encode_utf8_decode_utf8, encode_utf8_valid_utf8};
use crate::error::SpecError;
use crate::reader::{
    advances, decode_at, decode_entries, decode_fields, decode_items, parse_block_head, parse_run,
    parse_text,
};
use crate::schema::{conforms, max_length, SpecSchema};
use crate::value::SpecValue;
use crate::varint::{lemma_long_round_trip, long_bytes};
use crate::error::ErrorKind;
use crate::writer::{
    encoding, entries_encoding, fields_encoding, items_encoding, run_bytes, text_bytes,
};

verus! {

/// Whether `part` stands in `bytes` at `pos`.
pub open spec fn holds_at(bytes: Seq<u8>, pos: int, part: Seq<u8>) -> bool {
    &&& 0 <= pos
    &&& pos + part.len() <= bytes.len()
    &&& bytes.subrange(pos, pos + part.len()) == part
}

/// Where a sequence stands, each piece of it stands at its offset.
pub proof fn lemma_holds_piece(bytes: Seq<u8>, pos: int, whole: Seq<u8>, at: int, piece: Seq<u8>)
    requires
        holds_at(bytes, pos, whole),
        0 <= at,
        at + piece.len() <= whole.len(),
        whole.subrange(at, at + piece.len()) == piece,
    ensures
        holds_at(bytes, pos + at, piece),
{
    assert(bytes.subrange(pos + at, pos + at + piece.len()) =~= piece) by {
        assert forall|i: int| 0 <= i < piece.len() implies bytes[pos + at + i] == piece[i] by {
            assert(bytes.subrange(pos, pos + whole.len())[at + i] == bytes[pos + at + i]);
            assert(whole.subrange(at, at + piece.len())[i] == whole[at + i]);
        }
    }
}

/// Where two sequences stand one after the other, each stands at its place.
pub proof fn lemma_holds_split(bytes: Seq<u8>, pos: int, a: Seq<u8>, b: Seq<u8>)
    requires
        holds_at(bytes, pos, a + b),
    ensures
        holds_at(bytes, pos, a),
        holds_at(bytes, pos + a.len(), b),
{
    assert((a + b).subrange(0, a.len() as int) =~= a);
    assert((a + b).subrange(a.len() as int, (a + b).len() as int) =~= b);
    lemma_holds_piece(bytes, pos, a + b, 0, a);
    lemma_holds_piece(bytes, pos, a + b, a.len() as int, b);
}

proof fn lemma_run_round_trip(raw: Seq<u8>, bytes: Seq<u8>, pos: int)
    requires
        raw.len() <= max_length(),
        holds_at(bytes, pos, run_bytes(raw)),
    ensures
        parse_run(bytes, pos) == Ok::<(Seq<u8>, int), ErrorKind>(
            (raw, pos + run_bytes(raw).len()),
        ),
        run_bytes(raw).len() >= 1,
{
    let head = long_bytes(raw.len() as int);
    lemma_holds_split(bytes, pos, head, raw);
    lemma_long_round_trip(raw.len() as int, bytes, pos);
}

proof fn lemma_text_round_trip(text: Seq<char>, bytes: Seq<u8>, pos: int)
    requires
        encode_utf8(text).len() <= max_length(),
        holds_at(bytes, pos, text_bytes(text)),
    ensures
        parse_text(bytes, pos) == Ok::<(Seq<char>, int), ErrorKind>(
            (text, pos + text_bytes(text).len()),
        ),
        text_bytes(text).len() >= 1,
{
    lemma_run_round_trip(encode_utf8(text), bytes, pos);
    encode_utf8_valid_utf8(text);
    encode_utf8_decode_utf8(text);
}

/// The encodings of the first `k` fields open those of the first `n`.
proof fn lemma_fields_prefix(entries: Seq<(Seq<char>, SpecValue)>, k: nat, n: nat)
    requires
        k <= n <= entries.len(),
    ensures
        fields_encoding(entries, k).len() <= fields_encoding(entries, n).len(),
        fields_encoding(entries, n).subrange(0, fields_encoding(entries, k).len() as int)
            == fields_encoding(entries, k),
    decreases n - k,
{
    if k < n {
        lemma_fields_prefix(entries, k, (n - 1) as nat);
        let shorter = fields_encoding(entries, (n - 1) as nat);
        assert(fields_encoding(entries, n) == shorter + encoding(entries[n - 1].1));
        assert(fields_encoding(entries, n).subrange(0, fields_encoding(entries, k).len() as int)
            =~= shorter.subrange(0, fields_encoding(entries, k).len() as int));
    } else {
        assert(fields_encoding(entries, n).subrange(0, fields_encoding(entries, n).len() as int)
            =~= fields_encoding(entries, n));
    }
}

/// The encodings of the first `k` items open those of the first `n`.
proof fn lemma_items_prefix(items: Seq<SpecValue>, k: nat, n: nat)
    requires
        k <= n <= items.len(),
    ensures
        items_encoding(items, k).len() <= items_encoding(items, n).len(),
        items_encoding(items, n).subrange(0, items_encoding(items, k).len() as int)
            == items_encoding(items, k),
    decreases n - k,
{
    if k < n {
        lemma_items_prefix(items, k, (n - 1) as nat);
        let shorter = items_encoding(items, (n - 1) as nat);
        assert(items_encoding(items, n) == shorter + encoding(items[n - 1]));
        assert(items_encoding(items, n).subrange(0, items_encoding(items, k).len() as int)
            =~= shorter.subrange(0, items_encoding(items, k).len() as int));
    } else {
        assert(items_encoding(items, n).subrange(0, items_encoding(items, n).len() as int)
            =~= items_encoding(items, n));
    }
}

/// The encodings of the first `k` entries open those of the first `n`.
proof fn lemma_entries_prefix(entries: Seq<(Seq<char>, SpecValue)>, k: nat, n: nat)
    requires
        k <= n <= entries.len(),
    ensures
        entries_encoding(entries, k).len() <= entries_encoding(entries, n).len(),
        entries_encoding(entries, n).subrange(0, entries_encoding(entries, k).len() as int)
            == entries_encoding(entries, k),
    decreases n - k,
{
    if k < n {
        lemma_entries_prefix(entries, k, (n - 1) as nat);
        let shorter = entries_encoding(entries, (n - 1) as nat);
        assert(entries_encoding(entries, n) == shorter + text_bytes(entries[n - 1].0) + encoding(
            entries[n - 1].1,
        ));
        assert(entries_encoding(entries, n).subrange(0, entries_encoding(entries, k).len() as int)
            =~= shorter.subrange(0, entries_encoding(entries, k).len() as int));
    } else {
        assert(entries_encoding(entries, n).subrange(
            0,
            entries_encoding(entries, n).len() as int,
        ) =~= entries_encoding(entries, n));
    }
}

/// Reading under `s` where the encoding of a value of type `s` stands gives
/// the value, and ends behind the encoding.
pub proof fn lemma_round_trip(s: SpecSchema, v: SpecValue, bytes: Seq<u8>, pos: int)
    requires
        conforms(s, v),
        holds_at(bytes, pos, encoding(v)),
    ensures
        decode_at(s, bytes, pos) == Ok::<(SpecValue, int), SpecError>(
            (v, pos + encoding(v).len()),
        ),
    decreases v, 0nat,
{
    match (s, v) {
        (SpecSchema::Boolean, SpecValue::Boolean(b)) => {
            assert(bytes[pos] == encoding(v)[0]) by {
                assert(bytes.subrange(pos, pos + 1)[0] == bytes[pos]);
            }
        },
        (SpecSchema::Int, SpecValue::Int(n)) => {
            lemma_long_round_trip(n as int, bytes, pos);
        },
        (SpecSchema::Long, SpecValue::Long(n)) => {
            lemma_long_round_trip(n as int, bytes, pos);
        },
        (SpecSchema::Float, SpecValue::Float(bits)) => {
            lemma_auto_spec_u32_to_from_le_bytes();
        },
        (SpecSchema::Double, SpecValue::Double(bits)) => {
            lemma_auto_spec_u64_to_from_le_bytes();
        },
        (SpecSchema::Bytes, SpecValue::Bytes(raw)) => {
            lemma_run_round_trip(raw, bytes, pos);
        },
        (SpecSchema::String, SpecValue::String(text)) => {
            lemma_text_round_trip(text, bytes, pos);
        },
        (SpecSchema::Record { .. }, SpecValue::Record(entries)) => {
            assert(fields_encoding(entries, 0).len() == 0);
            lemma_fields_round_trip(s, entries, bytes, pos, 0, Seq::empty());
            assert(Seq::<(Seq<char>, SpecValue)>::empty() + entries.subrange(
                0,
                entries.len() as int,
            ) =~= entries);
        },
        (SpecSchema::Enum { symbols, .. }, SpecValue::Enum(position, symbol)) => {
            lemma_long_round_trip(position as int, bytes, pos);
        },
        (SpecSchema::Array(of), SpecValue::Array(items)) => {
            let n = items.len();
            let none = Seq::<SpecValue>::empty();
            assert(s == SpecSchema::Array(Box::new(*of)));
            if n == 0 {
                assert(long_bytes(0) =~= seq![0u8]);
                lemma_long_round_trip(0, bytes, pos);
                assert(parse_block_head(bytes, pos) == Ok::<(nat, int), ErrorKind>((0, pos + 1)));
                assert(items =~= none);
            } else {
                let head = long_bytes(n as int);
                let body = items_encoding(items, n);
                assert(encoding(v) =~= head + (body + seq![0u8]));
                lemma_holds_split(bytes, pos, head, body + seq![0u8]);
                lemma_long_round_trip(n as int, bytes, pos);
                assert(parse_block_head(bytes, pos) == Ok::<(nat, int), ErrorKind>(
                    (n, pos + head.len()),
                ));
                assert(items_encoding(items, 0).len() == 0);
                lemma_items_round_trip(*of, items, bytes, pos + head.len(), 0, none);
                assert(none + items.subrange(0, n as int) =~= items);
            }
            assert(decode_items(s, bytes, pos, 0, none) == Ok::<(Seq<SpecValue>, int), SpecError>(
                (items, pos + encoding(v).len()),
            ));
        },
        (SpecSchema::Dict(of), SpecValue::Dict(entries)) => {
            let n = entries.len();
            let none = Seq::<(Seq<char>, SpecValue)>::empty();
            assert(s == SpecSchema::Dict(Box::new(*of)));
            if n == 0 {
                assert(long_bytes(0) =~= seq![0u8]);
                lemma_long_round_trip(0, bytes, pos);
                assert(parse_block_head(bytes, pos) == Ok::<(nat, int), ErrorKind>((0, pos + 1)));
                assert(entries =~= none);
            } else {
                let head = long_bytes(n as int);
                let body = entries_encoding(entries, n);
                assert(encoding(v) =~= head + (body + seq![0u8]));
                lemma_holds_split(bytes, pos, head, body + seq![0u8]);
                lemma_long_round_trip(n as int, bytes, pos);
                assert(parse_block_head(bytes, pos) == Ok::<(nat, int), ErrorKind>(
                    (n, pos + head.len()),
                ));
                assert(entries_encoding(entries, 0).len() == 0);
                lemma_entries_round_trip(*of, entries, bytes, pos + head.len(), 0, none);
                assert(none + entries.subrange(0, n as int) =~= entries);
            }
            assert(decode_entries(s, bytes, pos, 0, none) == Ok::<
                (Seq<(Seq<char>, SpecValue)>, int),
                SpecError,
            >((entries, pos + encoding(v).len())));
        },
        (SpecSchema::Union(branches), SpecValue::Union(position, inner)) => {
            let head = long_bytes(position as int);
            lemma_holds_split(bytes, pos, head, encoding(*inner));
            lemma_long_round_trip(position as int, bytes, pos);
            lemma_round_trip(branches[position as int], *inner, bytes, pos + head.len());
        },
        (SpecSchema::Fixed { size, .. }, SpecValue::Fixed(raw)) => {},
        _ => {},
    }
}

/// Reading the fields of a record from the `k`-th on, where their encodings
/// stand, gives the fields.
proof fn lemma_fields_round_trip(
    s: SpecSchema,
    entries: Seq<(Seq<char>, SpecValue)>,
    bytes: Seq<u8>,
    start: int,
    k: nat,
    acc: Seq<(Seq<char>, SpecValue)>,
)
    requires
        s is Record,
        conforms(s, SpecValue::Record(entries)),
        holds_at(bytes, start, fields_encoding(entries, entries.len())),
        k <= entries.len(),
    ensures
        decode_fields(s, bytes, start + fields_encoding(entries, k).len(), k, acc) == Ok::<
            (Seq<(Seq<char>, SpecValue)>, int),
            SpecError,
        >(
            (
                acc + entries.subrange(k as int, entries.len() as int),
                start + fields_encoding(entries, entries.len()).len(),
            ),
        ),
    decreases entries, entries.len() - k,
{
    let n = entries.len();
    let here = start + fields_encoding(entries, k).len();
    if k < n {
        let field = s->fields[k as int];
        let entry = entries[k as int];
        let piece = encoding(entry.1);
        lemma_fields_prefix(entries, k + 1, n);
        let whole = fields_encoding(entries, n);
        let done = fields_encoding(entries, k).len() as int;
        let upto = fields_encoding(entries, k + 1).len() as int;
        assert(fields_encoding(entries, k + 1) == fields_encoding(entries, k) + piece);
        assert(whole.subrange(done, upto) =~= piece) by {
            assert(whole.subrange(0, upto).subrange(done, upto) =~= whole.subrange(done, upto));
        }
        lemma_holds_piece(bytes, start, whole, done, piece);
        lemma_round_trip(field.schema, entry.1, bytes, here);
        lemma_fields_round_trip(s, entries, bytes, start, k + 1, acc.push((field.name, entry.1)));
        assert(acc.push((field.name, entry.1)) + entries.subrange(k as int + 1, n as int) =~= acc
            + entries.subrange(k as int, n as int));
    } else {
        assert(acc + entries.subrange(k as int, n as int) =~= acc);
    }
}

/// Reading the items of an array from the `k`-th on, where their encodings
/// and the closing zero stand, gives the items.
proof fn lemma_items_round_trip(
    of: SpecSchema,
    items: Seq<SpecValue>,
    bytes: Seq<u8>,
    start: int,
    k: nat,
    acc: Seq<SpecValue>,
)
    requires
        forall|i: int| 0 <= i < items.len() ==> conforms(of, #[trigger] items[i]),
        holds_at(bytes, start, items_encoding(items, items.len()) + seq![0u8]),
        k <= items.len(),
    ensures
        decode_items(
            SpecSchema::Array(Box::new(of)),
            bytes,
            start + items_encoding(items, k).len(),
            (items.len() - k) as nat,
            acc,
        ) == Ok::<(Seq<SpecValue>, int), SpecError>(
            (
                acc + items.subrange(k as int, items.len() as int),
                start + items_encoding(items, items.len()).len() + 1,
            ),
        ),
    decreases items, items.len() - k,
{
    let n = items.len();
    let s = SpecSchema::Array(Box::new(of));
    let body = items_encoding(items, n);
    let here = start + items_encoding(items, k).len();
    lemma_holds_split(bytes, start, body, seq![0u8]);
    if k < n {
        let piece = encoding(items[k as int]);
        lemma_items_prefix(items, k + 1, n);
        let done = items_encoding(items, k).len() as int;
        let upto = items_encoding(items, k + 1).len() as int;
        assert(items_encoding(items, k + 1) == items_encoding(items, k) + piece);
        assert(body.subrange(done, upto) =~= piece) by {
            assert(body.subrange(0, upto).subrange(done, upto) =~= body.subrange(done, upto));
        }
        lemma_holds_piece(bytes, start, body, done, piece);
        lemma_round_trip(of, items[k as int], bytes, here);
        assert(advances(bytes, here, here + piece.len()));
        lemma_items_round_trip(of, items, bytes, start, k + 1, acc.push(items[k as int]));
        assert(acc.push(items[k as int]) + items.subrange(k as int + 1, n as int) =~= acc
            + items.subrange(k as int, n as int));
    } else {
        assert(long_bytes(0) =~= seq![0u8]);
        lemma_long_round_trip(0, bytes, here);
        assert(acc + items.subrange(k as int, n as int) =~= acc);
    }
}

/// Reading the entries of a map from the `k`-th on, where their encodings
/// and the closing zero stand, gives the entries.
proof fn lemma_entries_round_trip(
    of: SpecSchema,
    entries: Seq<(Seq<char>, SpecValue)>,
    bytes: Seq<u8>,
    start: int,
    k: nat,
    acc: Seq<(Seq<char>, SpecValue)>,
)
    requires
        forall|i: int|
            #![trigger entries[i]]
            0 <= i < entries.len() ==> encode_utf8(entries[i].0).len() <= max_length() && conforms(
                of,
                entries[i].1,
            ),
        holds_at(bytes, start, entries_encoding(entries, entries.len()) + seq![0u8]),
        k <= entries.len(),
    ensures
        decode_entries(
            SpecSchema::Dict(Box::new(of)),
            bytes,
            start + entries_encoding(entries, k).len(),
            (entries.len() - k) as nat,
            acc,
        ) == Ok::<(Seq<(Seq<char>, SpecValue)>, int), SpecError>(
            (
                acc + entries.subrange(k as int, entries.len() as int),
                start + entries_encoding(entries, entries.len()).len() + 1,
            ),
        ),
    decreases entries, entries.len() - k,
{
    let n = entries.len();
    let s = SpecSchema::Dict(Box::new(of));
    let body = entries_encoding(entries, n);
    let done = entries_encoding(entries, k);
    let here = start + done.len();
    lemma_holds_split(bytes, start, body, seq![0u8]);
    if k < n {
        let entry = entries[k as int];
        let key = text_bytes(entry.0);
        let piece = encoding(entry.1);
        lemma_entries_prefix(entries, k + 1, n);
        assert(entries_encoding(entries, k + 1) == done + key + piece);
        let both = key + piece;
        let from = done.len() as int;
        let upto = entries_encoding(entries, k + 1).len() as int;
        assert(entries_encoding(entries, k + 1) =~= done + both);
        assert(body.subrange(from, upto) =~= both) by {
            assert(body.subrange(0, upto).subrange(from, upto) =~= body.subrange(from, upto));
        }
        lemma_holds_piece(bytes, start, body, from, both);
        lemma_holds_split(bytes, here, key, piece);
        lemma_text_round_trip(entry.0, bytes, here);
        lemma_round_trip(of, entry.1, bytes, here + key.len());
        assert(advances(bytes, here, here + key.len() + piece.len()));
        lemma_entries_round_trip(of, entries, bytes, start, k + 1, acc.push(entry));
        assert(acc.push(entry) + entries.subrange(k as int + 1, n as int) =~= acc
            + entries.subrange(k as int, n as int));
    } else {
        assert(long_bytes(0) =~= seq![0u8]);
        lemma_long_round_trip(0, bytes, here);
        assert(acc + entries.subrange(k as int, n as int) =~= acc);
    }
}

} // verus!
