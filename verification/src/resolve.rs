//! Schema resolution: a value that was written under one schema, in the shape
//! of another.

use vstd::prelude::*;
use vstd::utf8::{decode_utf8, encode_utf8, valid_utf8};
use crate::error::{failure, Error, ErrorKind, SpecError};
use crate::promote::{
    double_of_long, float_of_long, long_to_double, long_to_float, widen_float, widened,
};
use crate::reader::text_from_utf8;
use crate::schema::{
    field_models, has_text, lemma_schema_unfolds, schema_models, texts, Field, Schema, SpecField,
    SpecSchema,
};
use crate::value::{copy_bytes, entry_models, lemma_model_unfolds, models, SpecValue, Value};

verus! {

/// What resolution gives: the value in the reader's shape, or the failure.
pub type Resolved = Result<SpecValue, SpecError>;

/// Whether a branch of type `r` in a reader's union takes what a writer of
/// type `w` wrote, as far as the two nodes themselves tell: equal kinds, with
/// equal names where the kind is named and equal sizes where it is sized, or
/// a promotion.
pub open spec fn compatible(w: SpecSchema, r: SpecSchema) -> bool {
    match (w, r) {
        (SpecSchema::Null, SpecSchema::Null) => true,
        (SpecSchema::Boolean, SpecSchema::Boolean) => true,
        (SpecSchema::Int, SpecSchema::Int) => true,
        (SpecSchema::Int, SpecSchema::Long) => true,
        (SpecSchema::Int, SpecSchema::Float) => true,
        (SpecSchema::Int, SpecSchema::Double) => true,
        (SpecSchema::Long, SpecSchema::Long) => true,
        (SpecSchema::Long, SpecSchema::Float) => true,
        (SpecSchema::Long, SpecSchema::Double) => true,
        (SpecSchema::Float, SpecSchema::Float) => true,
        (SpecSchema::Float, SpecSchema::Double) => true,
        (SpecSchema::Double, SpecSchema::Double) => true,
        (SpecSchema::Bytes, SpecSchema::Bytes) => true,
        (SpecSchema::Bytes, SpecSchema::String) => true,
        (SpecSchema::String, SpecSchema::String) => true,
        (SpecSchema::String, SpecSchema::Bytes) => true,
        (SpecSchema::Fixed { .. }, SpecSchema::Bytes) => true,
        (SpecSchema::Fixed { name: a, size: m }, SpecSchema::Fixed { name: b, size: n }) => a == b
            && m == n,
        (SpecSchema::Record { name: a, .. }, SpecSchema::Record { name: b, .. }) => a == b,
        (SpecSchema::Enum { name: a, .. }, SpecSchema::Enum { name: b, .. }) => a == b,
        (SpecSchema::Array(_), SpecSchema::Array(_)) => true,
        (SpecSchema::Dict(_), SpecSchema::Dict(_)) => true,
        _ => false,
    }
}

/// The position at or behind `from` of the first branch that takes what a
/// writer of type `w` wrote.
pub open spec fn first_match(w: SpecSchema, branches: Seq<SpecSchema>, from: nat) -> Option<nat>
    decreases branches.len() - from,
{
    if from >= branches.len() {
        None
    } else if compatible(w, branches[from as int]) {
        Some(from)
    } else {
        first_match(w, branches, from + 1)
    }
}

/// The position at or behind `from` of the first entry that is `text`.
pub open spec fn position_of(texts: Seq<Seq<char>>, text: Seq<char>, from: nat) -> Option<nat>
    decreases texts.len() - from,
{
    if from >= texts.len() {
        None
    } else if texts[from as int] == text {
        Some(from)
    } else {
        position_of(texts, text, from + 1)
    }
}

/// The position at or behind `from` of the first field that is called `name`.
pub open spec fn field_named(fields: Seq<SpecField>, name: Seq<char>, from: nat) -> Option<nat>
    decreases fields.len() - from,
{
    if from >= fields.len() {
        None
    } else if fields[from as int].name == name {
        Some(from)
    } else {
        field_named(fields, name, from + 1)
    }
}

/// The position at or behind `from` of the first field whose name is one of
/// `aliases`.
pub open spec fn field_known_as(
    fields: Seq<SpecField>,
    aliases: Seq<Seq<char>>,
    from: nat,
) -> Option<nat>
    decreases fields.len() - from,
{
    if from >= fields.len() {
        None
    } else if aliases.contains(fields[from as int].name) {
        Some(from)
    } else {
        field_known_as(fields, aliases, from + 1)
    }
}

/// The position of the writer's field that the reader's field `field` stands
/// for: the first that bears its name; only where none bears its name, the
/// first that bears one of its aliases.
pub open spec fn writer_field(writer_fields: Seq<SpecField>, field: SpecField) -> Option<nat> {
    match field_named(writer_fields, field.name, 0) {
        Some(j) => Some(j),
        None => field_known_as(writer_fields, field.aliases, 0),
    }
}

/// The symbol of the reader's enum for the writer's symbol `symbol`: the same
/// symbol where the reader knows it, else the reader's default.
pub open spec fn resolve_symbol(
    symbols: Seq<Seq<char>>,
    default: Option<Seq<char>>,
    symbol: Seq<char>,
) -> Resolved {
    match position_of(symbols, symbol, 0) {
        Some(i) => if i <= u32::MAX {
            Ok(SpecValue::Enum(i as u32, symbol))
        } else {
            Err(failure(ErrorKind::UnresolvableEnumSymbol, 0))
        },
        None => match default {
            Some(d) => match position_of(symbols, d, 0) {
                Some(i) => if i <= u32::MAX {
                    Ok(SpecValue::Enum(i as u32, d))
                } else {
                    Err(failure(ErrorKind::UnresolvableEnumSymbol, 0))
                },
                None => Err(failure(ErrorKind::UnresolvableEnumSymbol, 0)),
            },
            None => Err(failure(ErrorKind::UnresolvableEnumSymbol, 0)),
        },
    }
}

/// The value of a kind that holds no other values, in the reader's shape:
/// unchanged where the kinds are equal, promoted where a promotion leads from
/// the writer's kind to the reader's. The names of the types are not looked
/// at. A `float` that is a NaN becomes the one quiet NaN of a `double`,
/// whatever its sign and payload.
pub open spec fn resolve_scalar(w: SpecSchema, r: SpecSchema, v: SpecValue) -> Resolved {
    match (w, r, v) {
        (SpecSchema::Null, SpecSchema::Null, SpecValue::Null) => Ok(v),
        (SpecSchema::Boolean, SpecSchema::Boolean, SpecValue::Boolean(_)) => Ok(v),
        (SpecSchema::Int, SpecSchema::Int, SpecValue::Int(_)) => Ok(v),
        (SpecSchema::Int, SpecSchema::Long, SpecValue::Int(n)) => Ok(SpecValue::Long(n as i64)),
        (SpecSchema::Int, SpecSchema::Float, SpecValue::Int(n)) => Ok(
            SpecValue::Float(float_of_long(n as i64)),
        ),
        (SpecSchema::Int, SpecSchema::Double, SpecValue::Int(n)) => Ok(
            SpecValue::Double(double_of_long(n as i64)),
        ),
        (SpecSchema::Long, SpecSchema::Long, SpecValue::Long(_)) => Ok(v),
        (SpecSchema::Long, SpecSchema::Float, SpecValue::Long(n)) => Ok(
            SpecValue::Float(float_of_long(n)),
        ),
        (SpecSchema::Long, SpecSchema::Double, SpecValue::Long(n)) => Ok(
            SpecValue::Double(double_of_long(n)),
        ),
        (SpecSchema::Float, SpecSchema::Float, SpecValue::Float(_)) => Ok(v),
        (SpecSchema::Float, SpecSchema::Double, SpecValue::Float(bits)) => Ok(
            SpecValue::Double(widened(bits)),
        ),
        (SpecSchema::Double, SpecSchema::Double, SpecValue::Double(_)) => Ok(v),
        (SpecSchema::Bytes, SpecSchema::Bytes, SpecValue::Bytes(_)) => Ok(v),
        (SpecSchema::Bytes, SpecSchema::String, SpecValue::Bytes(raw)) => if valid_utf8(raw) {
            Ok(SpecValue::String(decode_utf8(raw)))
        } else {
            Err(failure(ErrorKind::IncompatibleType, 0))
        },
        (SpecSchema::String, SpecSchema::String, SpecValue::String(_)) => Ok(v),
        (SpecSchema::String, SpecSchema::Bytes, SpecValue::String(text)) => Ok(
            SpecValue::Bytes(encode_utf8(text)),
        ),
        (SpecSchema::Fixed { .. }, SpecSchema::Bytes, SpecValue::Fixed(raw)) => Ok(
            SpecValue::Bytes(raw),
        ),
        (
            SpecSchema::Fixed { size: m, .. },
            SpecSchema::Fixed { size: n, .. },
            SpecValue::Fixed(_),
        ) => {
            if m == n {
                Ok(v)
            } else {
                Err(failure(ErrorKind::IncompatibleType, 0))
            }
        },
        (
            SpecSchema::Enum { .. },
            SpecSchema::Enum { symbols, default, .. },
            SpecValue::Enum(_, symbol),
        ) => {
            resolve_symbol(symbols, default, symbol)
        },
        _ => Err(failure(ErrorKind::IncompatibleType, 0)),
    }
}

/// The value `v`, written under `w`, in the shape of `r`.
///
/// A union of the writer gives way to the branch that was written. A union of
/// the reader takes the value into its first branch that is compatible with
/// the writer's type. Records are matched field by field, in the order of the
/// reader, whatever the records are called; arrays and maps item by item. A
/// failure names the reader's fields around it.
pub open spec fn resolve_spec(w: SpecSchema, r: SpecSchema, v: SpecValue) -> Resolved
    decreases w, r, 1nat, 0nat,
{
    match (w, r) {
        (SpecSchema::Union(branches), _) => match v {
            SpecValue::Union(position, inner) => if position < branches.len() {
                resolve_spec(branches[position as int], r, *inner)
            } else {
                Err(failure(ErrorKind::IncompatibleType, 0))
            },
            _ => Err(failure(ErrorKind::IncompatibleType, 0)),
        },
        (_, SpecSchema::Union(branches)) => match first_match(w, branches, 0) {
            Some(i) => if i < branches.len() && i <= u32::MAX {
                match resolve_spec(w, branches[i as int], v) {
                    Ok(inner) => Ok(SpecValue::Union(i as u32, Box::new(inner))),
                    Err(e) => Err(e),
                }
            } else {
                Err(failure(ErrorKind::NoMatchingUnionBranch, 0))
            },
            None => Err(failure(ErrorKind::NoMatchingUnionBranch, 0)),
        },
        _ => match (w, r, v) {
            (
                SpecSchema::Record { fields, .. },
                SpecSchema::Record { .. },
                SpecValue::Record(entries),
            ) => if entries.len() == fields.len() {
                match resolve_fields(w, r, entries, 0, Seq::empty()) {
                    Ok(resolved) => Ok(SpecValue::Record(resolved)),
                    Err(e) => Err(e),
                }
            } else {
                Err(failure(ErrorKind::IncompatibleType, 0))
            },
            (SpecSchema::Array(_), SpecSchema::Array(_), SpecValue::Array(items)) => {
                match resolve_items(w, r, items, 0, Seq::empty()) {
                    Ok(resolved) => Ok(SpecValue::Array(resolved)),
                    Err(e) => Err(e),
                }
            },
            (SpecSchema::Dict(_), SpecSchema::Dict(_), SpecValue::Dict(entries)) => {
                match resolve_entries(w, r, entries, 0, Seq::empty()) {
                    Ok(resolved) => Ok(SpecValue::Dict(resolved)),
                    Err(e) => Err(e),
                }
            },
            _ => resolve_scalar(w, r, v),
        },
    }
}

/// The reader's fields from the `i`-th on, put behind `acc`: each from the
/// writer's field that it stands for, by name before alias, or from its
/// default where the writer has no such field.
pub open spec fn resolve_fields(
    w: SpecSchema,
    r: SpecSchema,
    entries: Seq<(Seq<char>, SpecValue)>,
    i: nat,
    acc: Seq<(Seq<char>, SpecValue)>,
) -> Result<Seq<(Seq<char>, SpecValue)>, SpecError>
    decreases w, r, 0nat, r->fields.len() - i,
{
    if w is Record && r is Record && i < r->fields.len() {
        let field = r->fields[i as int];
        match writer_field(w->fields, field) {
            Some(j) => if j < w->fields.len() && j < entries.len() {
                match resolve_spec(w->fields[j as int].schema, field.schema, entries[j as int].1) {
                    Ok(v) => resolve_fields(w, r, entries, i + 1, acc.push((field.name, v))),
                    Err(e) => Err(e.within(field.name)),
                }
            } else {
                Err(failure(ErrorKind::IncompatibleType, 0).within(field.name))
            },
            None => match field.default {
                Some(d) => resolve_fields(w, r, entries, i + 1, acc.push((field.name, d))),
                None => Err(failure(ErrorKind::MissingRequiredField, 0).within(field.name)),
            },
        }
    } else {
        Ok(acc)
    }
}

/// The items of an array from the `i`-th on, each in the shape of the
/// reader's items, put behind `acc`.
pub open spec fn resolve_items(
    w: SpecSchema,
    r: SpecSchema,
    items: Seq<SpecValue>,
    i: nat,
    acc: Seq<SpecValue>,
) -> Result<Seq<SpecValue>, SpecError>
    decreases w, r, 0nat, items.len() - i,
{
    if w is Array && r is Array && i < items.len() {
        match resolve_spec(*w->Array_0, *r->Array_0, items[i as int]) {
            Ok(v) => resolve_items(w, r, items, i + 1, acc.push(v)),
            Err(e) => Err(e),
        }
    } else {
        Ok(acc)
    }
}

/// The entries of a map from the `i`-th on, each value in the shape of the
/// reader's values, put behind `acc`.
pub open spec fn resolve_entries(
    w: SpecSchema,
    r: SpecSchema,
    entries: Seq<(Seq<char>, SpecValue)>,
    i: nat,
    acc: Seq<(Seq<char>, SpecValue)>,
) -> Result<Seq<(Seq<char>, SpecValue)>, SpecError>
    decreases w, r, 0nat, entries.len() - i,
{
    if w is Dict && r is Dict && i < entries.len() {
        match resolve_spec(*w->Dict_0, *r->Dict_0, entries[i as int].1) {
            Ok(v) => resolve_entries(w, r, entries, i + 1, acc.push((entries[i as int].0, v))),
            Err(e) => Err(e),
        }
    } else {
        Ok(acc)
    }
}

/// Where a text is found, it stands; where none is found, it stands nowhere
/// at or behind the start of the search.
pub proof fn lemma_position_of(texts: Seq<Seq<char>>, text: Seq<char>, from: nat)
    ensures
        match position_of(texts, text, from) {
            Some(i) => from <= i < texts.len() && texts[i as int] == text,
            None => forall|k: int| from <= k < texts.len() ==> texts[k] != text,
        },
    decreases texts.len() - from,
{
    if from < texts.len() && texts[from as int] != text {
        lemma_position_of(texts, text, from + 1);
    }
}

/// Where a branch is found, it is a branch of the union and compatible.
pub proof fn lemma_first_match(w: SpecSchema, branches: Seq<SpecSchema>, from: nat)
    ensures
        match first_match(w, branches, from) {
            Some(i) => from <= i < branches.len() && compatible(w, branches[i as int]),
            None => forall|k: int| from <= k < branches.len() ==> !compatible(w, branches[k]),
        },
    decreases branches.len() - from,
{
    if from < branches.len() && !compatible(w, branches[from as int]) {
        lemma_first_match(w, branches, from + 1);
    }
}

/// Where a field is found by its name, it bears the name, and no field
/// between the start of the search and it does; where none is found, none at
/// or behind the start bears it.
pub proof fn lemma_field_named(fields: Seq<SpecField>, name: Seq<char>, from: nat)
    ensures
        match field_named(fields, name, from) {
            Some(j) => from <= j < fields.len() && fields[j as int].name == name && forall|k: int|
                from <= k < j ==> (#[trigger] fields[k]).name != name,
            None => forall|k: int| from <= k < fields.len() ==> (#[trigger] fields[k]).name != name,
        },
    decreases fields.len() - from,
{
    if from < fields.len() && fields[from as int].name != name {
        lemma_field_named(fields, name, from + 1);
    }
}

/// Where a field is found by an alias, its name is one of the aliases; where
/// none is found, no field at or behind the start bears one of them.
pub proof fn lemma_field_known_as(fields: Seq<SpecField>, aliases: Seq<Seq<char>>, from: nat)
    ensures
        match field_known_as(fields, aliases, from) {
            Some(j) => from <= j < fields.len() && aliases.contains(fields[j as int].name),
            None => forall|k: int|
                from <= k < fields.len() ==> !aliases.contains((#[trigger] fields[k]).name),
        },
    decreases fields.len() - from,
{
    if from < fields.len() && !aliases.contains(fields[from as int].name) {
        lemma_field_known_as(fields, aliases, from + 1);
    }
}

/// The writer's field that is found is one of the writer's fields. It bears
/// the reader's name wherever any field of the writer does, and else one of
/// the reader's aliases.
pub proof fn lemma_writer_field(writer_fields: Seq<SpecField>, field: SpecField)
    ensures
        match writer_field(writer_fields, field) {
            Some(j) => {
                &&& j < writer_fields.len()
                &&& writer_fields[j as int].name == field.name || (field.aliases.contains(
                    writer_fields[j as int].name,
                ) && forall|k: int|
                    0 <= k < writer_fields.len() ==> (#[trigger] writer_fields[k]).name
                        != field.name)
            },
            None => forall|k: int|
                0 <= k < writer_fields.len() ==> (#[trigger] writer_fields[k]).name != field.name
                    && !field.aliases.contains(writer_fields[k].name),
        },
{
    lemma_field_named(writer_fields, field.name, 0);
    lemma_field_known_as(writer_fields, field.aliases, 0);
}

/// Whether the result of a resolution is what `expected` says.
pub open spec fn resolves_to(r: Result<Value, Error>, expected: Resolved) -> bool {
    match r {
        Ok(v) => expected == Ok::<SpecValue, SpecError>(v@),
        Err(e) => expected == Err::<SpecValue, SpecError>(e@),
    }
}

/// Whether a branch of type `r` in a reader's union takes what a writer of
/// type `w` wrote, as far as the two nodes themselves tell.
pub fn is_compatible(w: &Schema, r: &Schema) -> (b: bool)
    ensures
        b == compatible(w@, r@),
{
    match (w, r) {
        (Schema::Null, Schema::Null) => true,
        (Schema::Boolean, Schema::Boolean) => true,
        (Schema::Int, Schema::Int) => true,
        (Schema::Int, Schema::Long) => true,
        (Schema::Int, Schema::Float) => true,
        (Schema::Int, Schema::Double) => true,
        (Schema::Long, Schema::Long) => true,
        (Schema::Long, Schema::Float) => true,
        (Schema::Long, Schema::Double) => true,
        (Schema::Float, Schema::Float) => true,
        (Schema::Float, Schema::Double) => true,
        (Schema::Double, Schema::Double) => true,
        (Schema::Bytes, Schema::Bytes) => true,
        (Schema::Bytes, Schema::String) => true,
        (Schema::String, Schema::String) => true,
        (Schema::String, Schema::Bytes) => true,
        (Schema::Fixed { .. }, Schema::Bytes) => true,
        (Schema::Fixed { name: a, size: m }, Schema::Fixed { name: b, size: n }) => *a == *b && *m
            == *n,
        (Schema::Record { name: a, .. }, Schema::Record { name: b, .. }) => *a == *b,
        (Schema::Enum { name: a, .. }, Schema::Enum { name: b, .. }) => *a == *b,
        (Schema::Array(_), Schema::Array(_)) => true,
        (Schema::Dict(_), Schema::Dict(_)) => true,
        _ => false,
    }
}

fn find_branch(w: &Schema, branches: &Vec<Schema>) -> (found: Option<usize>)
    ensures
        match found {
            Some(i) => first_match(w@, schema_models(branches@), 0) == Some(i as nat) && i
                < branches.len(),
            None => first_match(w@, schema_models(branches@), 0) is None,
        },
{
    let ghost bs = schema_models(branches@);
    let mut i: usize = 0;
    while i < branches.len()
        invariant
            bs == schema_models(branches@),
            0 <= i <= branches.len(),
            first_match(w@, bs, 0) == first_match(w@, bs, i as nat),
        decreases branches.len() - i,
    {
        if is_compatible(w, &branches[i]) {
            return Some(i);
        }
        i += 1;
    }
    None
}

fn find_text(names: &Vec<String>, text: &String) -> (found: Option<usize>)
    ensures
        match found {
            Some(i) => position_of(texts(names@), text@, 0) == Some(i as nat) && i < names.len(),
            None => position_of(texts(names@), text@, 0) is None,
        },
{
    let ghost ts = texts(names@);
    let mut i: usize = 0;
    while i < names.len()
        invariant
            ts == texts(names@),
            0 <= i <= names.len(),
            position_of(ts, text@, 0) == position_of(ts, text@, i as nat),
        decreases names.len() - i,
    {
        if names[i] == *text {
            return Some(i);
        }
        i += 1;
    }
    None
}

fn find_writer_field(writer_fields: &Vec<Field>, field: &Field) -> (found: Option<usize>)
    ensures
        match found {
            Some(j) => writer_field(field_models(writer_fields@), field@) == Some(j as nat) && j
                < writer_fields.len(),
            None => writer_field(field_models(writer_fields@), field@) is None,
        },
{
    let ghost ws = field_models(writer_fields@);
    let mut j: usize = 0;
    while j < writer_fields.len()
        invariant
            ws == field_models(writer_fields@),
            0 <= j <= writer_fields.len(),
            field_named(ws, field@.name, 0) == field_named(ws, field@.name, j as nat),
        decreases writer_fields.len() - j,
    {
        if field.name == writer_fields[j].name {
            return Some(j);
        }
        j += 1;
    }
    let mut j: usize = 0;
    while j < writer_fields.len()
        invariant
            ws == field_models(writer_fields@),
            0 <= j <= writer_fields.len(),
            field_named(ws, field@.name, 0) is None,
            field_known_as(ws, field@.aliases, 0) == field_known_as(
                ws,
                field@.aliases,
                j as nat,
            ),
        decreases writer_fields.len() - j,
    {
        if has_text(&field.aliases, &writer_fields[j].name) {
            return Some(j);
        }
        j += 1;
    }
    None
}

fn incompatible() -> (r: Result<Value, Error>)
    ensures
        r matches Err(e) && e@ == failure(ErrorKind::IncompatibleType, 0),
{
    Err(Error::new(ErrorKind::IncompatibleType, 0))
}

fn resolve_enum(symbols: &Vec<String>, default: &Option<String>, symbol: &String) -> (r: Result<
    Value,
    Error,
>)
    ensures
        resolves_to(
            r,
            resolve_symbol(
                texts(symbols@),
                match default {
                    Some(d) => Some(d@),
                    None => None,
                },
                symbol@,
            ),
        ),
{
    let unresolvable = Error::new(ErrorKind::UnresolvableEnumSymbol, 0);
    match find_text(symbols, symbol) {
        Some(i) => {
            if i as u64 <= 0xffff_ffff {
                Ok(Value::Enum(i as u32, symbol.clone()))
            } else {
                Err(unresolvable)
            }
        },
        None => match default {
            Some(d) => match find_text(symbols, d) {
                Some(i) => {
                    if i as u64 <= 0xffff_ffff {
                        Ok(Value::Enum(i as u32, d.clone()))
                    } else {
                        Err(unresolvable)
                    }
                },
                None => Err(unresolvable),
            },
            None => Err(unresolvable),
        },
    }
}

fn resolve_number(w: &Schema, r: &Schema, v: &Value) -> (out: Result<Value, Error>)
    requires
        w is Int || w is Long || w is Float || w is Double,
    ensures
        resolves_to(out, resolve_scalar(w@, r@, v@)),
{
    match (w, r, v) {
        (Schema::Int, Schema::Int, Value::Int(n)) => Ok(Value::Int(*n)),
        (Schema::Int, Schema::Long, Value::Int(n)) => Ok(Value::Long(*n as i64)),
        (Schema::Int, Schema::Float, Value::Int(n)) => match long_to_float(*n as i64) {
            Some(bits) => Ok(Value::Float(bits)),
            None => incompatible(),
        },
        (Schema::Int, Schema::Double, Value::Int(n)) => match long_to_double(*n as i64) {
            Some(bits) => Ok(Value::Double(bits)),
            None => incompatible(),
        },
        (Schema::Long, Schema::Long, Value::Long(n)) => Ok(Value::Long(*n)),
        (Schema::Long, Schema::Float, Value::Long(n)) => match long_to_float(*n) {
            Some(bits) => Ok(Value::Float(bits)),
            None => incompatible(),
        },
        (Schema::Long, Schema::Double, Value::Long(n)) => match long_to_double(*n) {
            Some(bits) => Ok(Value::Double(bits)),
            None => incompatible(),
        },
        (Schema::Float, Schema::Float, Value::Float(bits)) => Ok(Value::Float(*bits)),
        (Schema::Float, Schema::Double, Value::Float(bits)) => match widen_float(*bits) {
            Some(wide) => Ok(Value::Double(wide)),
            None => incompatible(),
        },
        (Schema::Double, Schema::Double, Value::Double(bits)) => Ok(Value::Double(*bits)),
        _ => incompatible(),
    }
}

fn resolve_scalar_value(w: &Schema, r: &Schema, v: &Value) -> (out: Result<Value, Error>)
    ensures
        resolves_to(out, resolve_scalar(w@, r@, v@)),
{
    match (w, r, v) {
        (Schema::Null, Schema::Null, Value::Null) => Ok(Value::Null),
        (Schema::Boolean, Schema::Boolean, Value::Boolean(b)) => Ok(Value::Boolean(*b)),
        (Schema::Bytes, Schema::Bytes, Value::Bytes(raw)) => Ok(Value::Bytes(copy_bytes(raw))),
        (Schema::Bytes, Schema::String, Value::Bytes(raw)) => match text_from_utf8(
            copy_bytes(raw),
        ) {
            Some(text) => Ok(Value::String(text)),
            None => incompatible(),
        },
        (Schema::String, Schema::String, Value::String(text)) => Ok(Value::String(text.clone())),
        (Schema::String, Schema::Bytes, Value::String(text)) => Ok(
            Value::Bytes(vstd::slice::slice_to_vec(text.as_str().as_bytes())),
        ),
        (Schema::Fixed { .. }, Schema::Bytes, Value::Fixed(raw)) => Ok(
            Value::Bytes(copy_bytes(raw)),
        ),
        (Schema::Fixed { size: m, .. }, Schema::Fixed { size: n, .. }, Value::Fixed(raw)) => {
            if *m == *n {
                Ok(Value::Fixed(copy_bytes(raw)))
            } else {
                incompatible()
            }
        },
        (Schema::Enum { .. }, Schema::Enum { symbols, default, .. }, Value::Enum(_, symbol)) => {
            resolve_enum(symbols, default, symbol)
        },
        (Schema::Int, _, _) => resolve_number(w, r, v),
        (Schema::Long, _, _) => resolve_number(w, r, v),
        (Schema::Float, _, _) => resolve_number(w, r, v),
        (Schema::Double, _, _) => resolve_number(w, r, v),
        _ => incompatible(),
    }
}

#[verifier::loop_isolation(false)]
fn resolve_record(w: &Schema, r: &Schema, entries: &Vec<(String, Value)>) -> (out: Result<
    Vec<(String, Value)>,
    Error,
>)
    requires
        w is Record,
        r is Record,
        entries.len() == w->fields.len(),
    ensures
        match out {
            Ok(resolved) => resolve_fields(w@, r@, entry_models(entries@), 0, Seq::empty())
                == Ok::<Seq<(Seq<char>, SpecValue)>, SpecError>(entry_models(resolved@)),
            Err(e) => resolve_fields(w@, r@, entry_models(entries@), 0, Seq::empty()) == Err::<
                Seq<(Seq<char>, SpecValue)>,
                SpecError,
            >(e@),
        },
    decreases w, r, 0nat,
{
    proof {
        lemma_schema_unfolds(*w);
        lemma_schema_unfolds(*r);
    }
    let ghost es = entry_models(entries@);
    let ghost whole = resolve_fields(w@, r@, es, 0, Seq::empty());
    match (w, r) {
        (Schema::Record { fields: writer_fields, .. }, Schema::Record { fields, .. }) => {
            let mut resolved: Vec<(String, Value)> = Vec::new();
            assert(entry_models(resolved@) =~= Seq::empty());
            let mut i: usize = 0;
            while i < fields.len()
                invariant
                    0 <= i <= fields.len(),
                    whole == resolve_fields(w@, r@, es, i as nat, entry_models(resolved@)),
                decreases fields.len() - i,
            {
                let ghost before = entry_models(resolved@);
                let field = &fields[i];
                let value = match find_writer_field(writer_fields, field) {
                    Some(j) => match resolve_value(
                        &writer_fields[j].schema,
                        &field.schema,
                        &entries[j].1,
                    ) {
                        Ok(v) => v,
                        Err(e) => {
                            return Err(e.within(&field.name));
                        },
                    },
                    None => match &field.default {
                        Some(d) => d.deep_clone(),
                        None => {
                            return Err(
                                Error::new(ErrorKind::MissingRequiredField, 0).within(&field.name),
                            );
                        },
                    },
                };
                let ghost shape = value@;
                resolved.push((field.name.clone(), value));
                assert(entry_models(resolved@) =~= before.push((field@.name, shape)));
                i += 1;
            }
            Ok(resolved)
        },
        _ => Ok(Vec::new()),
    }
}

#[verifier::loop_isolation(false)]
fn resolve_array(w: &Schema, r: &Schema, items: &Vec<Value>) -> (out: Result<Vec<Value>, Error>)
    requires
        w is Array,
        r is Array,
    ensures
        match out {
            Ok(resolved) => resolve_items(w@, r@, models(items@), 0, Seq::empty()) == Ok::<
                Seq<SpecValue>,
                SpecError,
            >(models(resolved@)),
            Err(e) => resolve_items(w@, r@, models(items@), 0, Seq::empty()) == Err::<
                Seq<SpecValue>,
                SpecError,
            >(e@),
        },
    decreases w, r, 0nat,
{
    proof {
        lemma_schema_unfolds(*w);
        lemma_schema_unfolds(*r);
    }
    let ghost vs = models(items@);
    let ghost whole = resolve_items(w@, r@, vs, 0, Seq::empty());
    match (w, r) {
        (Schema::Array(writer_of), Schema::Array(of)) => {
            let mut resolved: Vec<Value> = Vec::new();
            assert(models(resolved@) =~= Seq::empty());
            let mut i: usize = 0;
            while i < items.len()
                invariant
                    0 <= i <= items.len(),
                    whole == resolve_items(w@, r@, vs, i as nat, models(resolved@)),
                decreases items.len() - i,
            {
                let ghost before = models(resolved@);
                match resolve_value(writer_of, of, &items[i]) {
                    Ok(v) => {
                        resolved.push(v);
                        assert(models(resolved@) =~= before.push(v@));
                    },
                    Err(e) => {
                        return Err(e);
                    },
                }
                i += 1;
            }
            Ok(resolved)
        },
        _ => Ok(Vec::new()),
    }
}

#[verifier::loop_isolation(false)]
fn resolve_dict(w: &Schema, r: &Schema, entries: &Vec<(String, Value)>) -> (out: Result<
    Vec<(String, Value)>,
    Error,
>)
    requires
        w is Dict,
        r is Dict,
    ensures
        match out {
            Ok(resolved) => resolve_entries(w@, r@, entry_models(entries@), 0, Seq::empty())
                == Ok::<Seq<(Seq<char>, SpecValue)>, SpecError>(entry_models(resolved@)),
            Err(e) => resolve_entries(w@, r@, entry_models(entries@), 0, Seq::empty()) == Err::<
                Seq<(Seq<char>, SpecValue)>,
                SpecError,
            >(e@),
        },
    decreases w, r, 0nat,
{
    proof {
        lemma_schema_unfolds(*w);
        lemma_schema_unfolds(*r);
    }
    let ghost es = entry_models(entries@);
    let ghost whole = resolve_entries(w@, r@, es, 0, Seq::empty());
    match (w, r) {
        (Schema::Dict(writer_of), Schema::Dict(of)) => {
            let mut resolved: Vec<(String, Value)> = Vec::new();
            assert(entry_models(resolved@) =~= Seq::empty());
            let mut i: usize = 0;
            while i < entries.len()
                invariant
                    0 <= i <= entries.len(),
                    whole == resolve_entries(w@, r@, es, i as nat, entry_models(resolved@)),
                decreases entries.len() - i,
            {
                let ghost before = entry_models(resolved@);
                match resolve_value(writer_of, of, &entries[i].1) {
                    Ok(v) => {
                        resolved.push((entries[i].0.clone(), v));
                        assert(entry_models(resolved@) =~= before.push((es[i as int].0, v@)));
                    },
                    Err(e) => {
                        return Err(e);
                    },
                }
                i += 1;
            }
            Ok(resolved)
        },
        _ => Ok(Vec::new()),
    }
}

/// The value `value`, written under `writer`, in the shape of `reader`.
pub fn resolve_value(writer: &Schema, reader: &Schema, value: &Value) -> (out: Result<Value, Error>)
    ensures
        resolves_to(out, resolve_spec(writer@, reader@, value@)),
    decreases writer, reader, 1nat,
{
    proof {
        lemma_schema_unfolds(*writer);
        lemma_schema_unfolds(*reader);
        lemma_model_unfolds(*value);
    }
    match (writer, reader) {
        (Schema::Union(branches), _) => match value {
            Value::Union(position, inner) => {
                if (*position as u64) < (branches.len() as u64) {
                    resolve_value(&branches[*position as usize], reader, inner)
                } else {
                    incompatible()
                }
            },
            _ => incompatible(),
        },
        (_, Schema::Union(branches)) => match find_branch(writer, branches) {
            Some(i) => {
                if i as u64 <= 0xffff_ffff {
                    match resolve_value(writer, &branches[i], value) {
                        Ok(inner) => {
                            let v = Value::Union(i as u32, Box::new(inner));
                            proof {
                                lemma_model_unfolds(v);
                            }
                            Ok(v)
                        },
                        Err(e) => Err(e),
                    }
                } else {
                    Err(Error::new(ErrorKind::NoMatchingUnionBranch, 0))
                }
            },
            None => Err(Error::new(ErrorKind::NoMatchingUnionBranch, 0)),
        },
        _ => {
            match (writer, reader, value) {
                (Schema::Record { fields, .. }, Schema::Record { .. }, Value::Record(entries)) => {
                    if entries.len() == fields.len() {
                        match resolve_record(writer, reader, entries) {
                            Ok(resolved) => {
                                let v = Value::Record(resolved);
                                proof {
                                    lemma_model_unfolds(v);
                                }
                                Ok(v)
                            },
                            Err(e) => Err(e),
                        }
                    } else {
                        incompatible()
                    }
                },
                (Schema::Array(_), Schema::Array(_), Value::Array(items)) => {
                    match resolve_array(writer, reader, items) {
                        Ok(resolved) => {
                            let v = Value::Array(resolved);
                            proof {
                                lemma_model_unfolds(v);
                            }
                            Ok(v)
                        },
                        Err(e) => Err(e),
                    }
                },
                (Schema::Dict(_), Schema::Dict(_), Value::Dict(entries)) => {
                    match resolve_dict(writer, reader, entries) {
                        Ok(resolved) => {
                            let v = Value::Dict(resolved);
                            proof {
                                lemma_model_unfolds(v);
                            }
                            Ok(v)
                        },
                        Err(e) => Err(e),
                    }
                },
                _ => resolve_scalar_value(writer, reader, value),
            }
        },
    }
}

} // verus!
