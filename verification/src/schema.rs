//! Schemas: the types under which values are written and read.

use vstd::prelude::*;
use vstd::utf8::encode_utf8;
use crate::value::{entry_models, lemma_model_unfolds, models, SpecValue, Value};

verus! {

/// Mathematical model of a [`Schema`].
pub enum SpecSchema {
    Null,
    Boolean,
    Int,
    Long,
    Float,
    Double,
    Bytes,
    String,
    Record { name: Seq<char>, doc: Option<Seq<char>>, fields: Seq<SpecField> },
    Enum {
        name: Seq<char>,
        doc: Option<Seq<char>>,
        symbols: Seq<Seq<char>>,
        default: Option<Seq<char>>,
    },
    Array(Box<SpecSchema>),
    Dict(Box<SpecSchema>),
    Union(Seq<SpecSchema>),
    Fixed { name: Seq<char>, size: nat },
}

/// Mathematical model of a [`Field`].
pub struct SpecField {
    pub name: Seq<char>,
    pub doc: Option<Seq<char>>,
    pub aliases: Seq<Seq<char>>,
    pub schema: SpecSchema,
    pub default: Option<SpecValue>,
}

/// A schema: a tree of typed nodes.
///
/// `Dict` is a map from strings to values of one type. The name of a record,
/// an enum or a fixed is its full name, with the namespace in front where
/// there is one.
#[derive(Debug, PartialEq, Eq)]
pub enum Schema {
    Null,
    Boolean,
    Int,
    Long,
    Float,
    Double,
    Bytes,
    String,
    Record { name: String, doc: Option<String>, fields: Vec<Field> },
    Enum { name: String, doc: Option<String>, symbols: Vec<String>, default: Option<String> },
    Array(Box<Schema>),
    Dict(Box<Schema>),
    Union(Vec<Schema>),
    Fixed { name: String, size: usize },
}

/// A field of a record.
#[derive(Debug, PartialEq, Eq)]
pub struct Field {
    pub name: String,
    pub doc: Option<String>,
    /// Names under which a writer may know this field.
    pub aliases: Vec<String>,
    pub schema: Schema,
    /// The value a reader takes where the writer wrote none.
    pub default: Option<Value>,
}

/// The text of an optional string.
pub open spec fn text_of(s: Option<String>) -> Option<Seq<char>> {
    match s {
        Some(t) => Some(t@),
        None => None,
    }
}

/// The texts of a list of strings, in order.
pub open spec fn texts(names: Seq<String>) -> Seq<Seq<char>> {
    Seq::new(names.len(), |i: int| names[i]@)
}

impl Schema {
    /// The schema as mathematics sees it; `@` gives the same.
    pub open spec fn model(&self) -> SpecSchema
        decreases self,
    {
        match self {
            Schema::Null => SpecSchema::Null,
            Schema::Boolean => SpecSchema::Boolean,
            Schema::Int => SpecSchema::Int,
            Schema::Long => SpecSchema::Long,
            Schema::Float => SpecSchema::Float,
            Schema::Double => SpecSchema::Double,
            Schema::Bytes => SpecSchema::Bytes,
            Schema::String => SpecSchema::String,
            Schema::Record { name, doc, fields } => SpecSchema::Record {
                name: name@,
                doc: text_of(*doc),
                fields: Seq::new(
                    fields.len() as nat,
                    |i: int|
                        if 0 <= i < fields.len() {
                            fields[i].model()
                        } else {
                            arbitrary()
                        },
                ),
            },
            Schema::Enum { name, doc, symbols, default } => SpecSchema::Enum {
                name: name@,
                doc: text_of(*doc),
                symbols: texts(symbols@),
                default: text_of(*default),
            },
            Schema::Array(items) => SpecSchema::Array(Box::new(items.model())),
            Schema::Dict(values) => SpecSchema::Dict(Box::new(values.model())),
            Schema::Union(branches) => SpecSchema::Union(
                Seq::new(
                    branches.len() as nat,
                    |i: int|
                        if 0 <= i < branches.len() {
                            branches[i].model()
                        } else {
                            SpecSchema::Null
                        },
                ),
            ),
            Schema::Fixed { name, size } => SpecSchema::Fixed { name: name@, size: *size as nat },
        }
    }
}

impl Field {
    /// The field as mathematics sees it; `@` gives the same.
    pub open spec fn model(&self) -> SpecField
        decreases self,
    {
        SpecField {
            name: self.name@,
            doc: text_of(self.doc),
            aliases: texts(self.aliases@),
            schema: self.schema.model(),
            default: match self.default {
                Some(v) => Some(v@),
                None => None,
            },
        }
    }
}

impl View for Schema {
    type V = SpecSchema;

    open spec fn view(&self) -> SpecSchema {
        self.model()
    }
}

impl View for Field {
    type V = SpecField;

    open spec fn view(&self) -> SpecField {
        self.model()
    }
}

/// The models of a list of fields, in order.
pub open spec fn field_models(fields: Seq<Field>) -> Seq<SpecField> {
    Seq::new(fields.len(), |i: int| fields[i]@)
}

/// The models of a list of schemas, in order.
pub open spec fn schema_models(schemas: Seq<Schema>) -> Seq<SpecSchema> {
    Seq::new(schemas.len(), |i: int| schemas[i]@)
}

/// The model of a schema is made of the models of its parts.
pub proof fn lemma_schema_unfolds(s: Schema)
    ensures
        s matches Schema::Record { name, doc, fields } ==> s@ == (SpecSchema::Record {
            name: name@,
            doc: text_of(doc),
            fields: field_models(fields@),
        }),
        s matches Schema::Union(branches) ==> s@ == SpecSchema::Union(schema_models(branches@)),
        s matches Schema::Array(items) ==> s@ == SpecSchema::Array(Box::new(items@)),
        s matches Schema::Dict(of) ==> s@ == SpecSchema::Dict(Box::new(of@)),
{
    match s {
        Schema::Record { name, doc, fields } => {
            assert(s@->fields =~= field_models(fields@));
        },
        Schema::Union(branches) => {
            assert(s@->Union_0 =~= schema_models(branches@));
        },
        _ => {},
    }
}

/// A letter of the Latin alphabet or an underscore.
pub open spec fn is_name_start(c: char) -> bool {
    ('a' <= c && c <= 'z') || ('A' <= c && c <= 'Z') || c == '_'
}

/// What may follow the first character of a name.
pub open spec fn is_name_part(c: char) -> bool {
    is_name_start(c) || ('0' <= c && c <= '9')
}

/// A name of a field or a symbol: a letter or underscore, then letters,
/// digits and underscores.
pub open spec fn valid_identifier(s: Seq<char>) -> bool {
    &&& s.len() > 0
    &&& is_name_start(s[0])
    &&& forall|i: int| 0 <= i < s.len() ==> is_name_part(#[trigger] s[i])
}

/// Whether the character at `i` may stand where it does in a type's name:
/// a name start at the front and after a dot, else a name part or a dot.
pub open spec fn full_name_char_ok(s: Seq<char>, i: int) -> bool {
    if i == 0 || s[i - 1] == '.' {
        is_name_start(s[i])
    } else {
        is_name_part(s[i]) || s[i] == '.'
    }
}

/// A name of a type: identifiers with a dot between them.
pub open spec fn valid_full_name(s: Seq<char>) -> bool {
    &&& s.len() > 0
    &&& s[s.len() - 1] != '.'
    &&& forall|i: int| 0 <= i < s.len() ==> #[trigger] full_name_char_ok(s, i)
}

fn name_start(c: char) -> (b: bool)
    ensures
        b == is_name_start(c),
{
    ('a' <= c && c <= 'z') || ('A' <= c && c <= 'Z') || c == '_'
}

fn name_part(c: char) -> (b: bool)
    ensures
        b == is_name_part(c),
{
    name_start(c) || ('0' <= c && c <= '9')
}

/// Whether `name` can name a field or a symbol.
pub fn is_valid_identifier(name: &str) -> (b: bool)
    ensures
        b == valid_identifier(name@),
{
    let n = name.unicode_len();
    if n == 0 {
        return false;
    }
    if !name_start(name.get_char(0)) {
        return false;
    }
    let mut i: usize = 0;
    while i < n
        invariant
            n == name@.len(),
            0 <= i <= n,
            forall|j: int| 0 <= j < i ==> is_name_part(#[trigger] name@[j]),
        decreases n - i,
    {
        if !name_part(name.get_char(i)) {
            return false;
        }
        i += 1;
    }
    true
}

/// Whether `name` can name a record, an enum or a fixed.
pub fn is_valid_full_name(name: &str) -> (b: bool)
    ensures
        b == valid_full_name(name@),
{
    let n = name.unicode_len();
    if n == 0 {
        return false;
    }
    let mut after_dot = true;
    let mut i: usize = 0;
    while i < n
        invariant
            n == name@.len(),
            0 <= i <= n,
            after_dot == (i == 0 || name@[i - 1] == '.'),
            forall|j: int| 0 <= j < i ==> #[trigger] full_name_char_ok(name@, j),
        decreases n - i,
    {
        let c = name.get_char(i);
        let ok = if after_dot {
            name_start(c)
        } else {
            name_part(c) || c == '.'
        };
        if !ok {
            assert(!full_name_char_ok(name@, i as int));
            return false;
        }
        assert(full_name_char_ok(name@, i as int));
        after_dot = c == '.';
        i += 1;
    }
    !after_dot
}

/// The largest length that the binary encoding can state.
pub open spec fn max_length() -> int {
    i64::MAX as int
}

/// Whether `v` is a value of the type `s`.
pub open spec fn conforms(s: SpecSchema, v: SpecValue) -> bool
    decreases v,
{
    match (s, v) {
        (SpecSchema::Null, SpecValue::Null) => true,
        (SpecSchema::Boolean, SpecValue::Boolean(_)) => true,
        (SpecSchema::Int, SpecValue::Int(_)) => true,
        (SpecSchema::Long, SpecValue::Long(_)) => true,
        (SpecSchema::Float, SpecValue::Float(_)) => true,
        (SpecSchema::Double, SpecValue::Double(_)) => true,
        (SpecSchema::Bytes, SpecValue::Bytes(bytes)) => bytes.len() <= max_length(),
        (SpecSchema::String, SpecValue::String(text)) => encode_utf8(text).len() <= max_length(),
        (SpecSchema::Record { fields, .. }, SpecValue::Record(entries)) => {
            &&& entries.len() == fields.len()
            &&& forall|i: int|
                #![trigger entries[i]]
                0 <= i < entries.len() ==> entries[i].0 == fields[i].name && conforms(
                    fields[i].schema,
                    entries[i].1,
                )
        },
        (SpecSchema::Enum { symbols, .. }, SpecValue::Enum(position, symbol)) => {
            position < symbols.len() && symbols[position as int] == symbol
        },
        (SpecSchema::Array(items), SpecValue::Array(values)) => {
            &&& values.len() <= max_length()
            &&& forall|i: int| 0 <= i < values.len() ==> conforms(*items, #[trigger] values[i])
        },
        (SpecSchema::Dict(of), SpecValue::Dict(entries)) => {
            &&& entries.len() <= max_length()
            &&& forall|i: int|
                #![trigger entries[i]]
                0 <= i < entries.len() ==> encode_utf8(entries[i].0).len() <= max_length()
                    && conforms(*of, entries[i].1)
        },
        (SpecSchema::Union(branches), SpecValue::Union(position, inner)) => {
            position < branches.len() && conforms(branches[position as int], *inner)
        },
        (SpecSchema::Fixed { size, .. }, SpecValue::Fixed(bytes)) => bytes.len() == size,
        _ => false,
    }
}

fn fits_length(n: usize) -> (b: bool)
    ensures
        b == (n <= max_length()),
{
    n as u64 <= 0x7fff_ffff_ffff_ffff
}

fn fits_positions(n: usize) -> (b: bool)
    ensures
        b == (n <= max_positions()),
{
    n as u64 <= 0xffff_ffff
}

fn entries_conform(fields: &Vec<Field>, entries: &Vec<(String, Value)>) -> (b: bool)
    ensures
        b == ({
            let fs = field_models(fields@);
            let es = entry_models(entries@);
            &&& es.len() == fs.len()
            &&& forall|i: int|
                #![trigger es[i]]
                0 <= i < es.len() ==> es[i].0 == fs[i].name && conforms(fs[i].schema, es[i].1)
        }),
    decreases entries,
{
    let ghost fs = field_models(fields@);
    let ghost es = entry_models(entries@);
    if entries.len() != fields.len() {
        return false;
    }
    let mut i: usize = 0;
    while i < entries.len()
        invariant
            fs == field_models(fields@),
            es == entry_models(entries@),
            entries.len() == fields.len(),
            0 <= i <= entries.len(),
            forall|j: int|
                #![trigger es[j]]
                0 <= j < i ==> es[j].0 == fs[j].name && conforms(fs[j].schema, es[j].1),
        decreases entries.len() - i,
    {
        if !(entries[i].0 == fields[i].name) || !fields[i].schema.accepts(&entries[i].1) {
            assert(!(es[i as int].0 == fs[i as int].name && conforms(
                fs[i as int].schema,
                es[i as int].1,
            )));
            return false;
        }
        assert(es[i as int].0 == fs[i as int].name && conforms(fs[i as int].schema, es[i as int].1));
        i += 1;
    }
    true
}

fn items_conform(of: &Schema, items: &Vec<Value>) -> (b: bool)
    ensures
        b == ({
            let vs = models(items@);
            forall|i: int| 0 <= i < vs.len() ==> conforms(of@, #[trigger] vs[i])
        }),
    decreases items,
{
    let ghost vs = models(items@);
    let mut i: usize = 0;
    while i < items.len()
        invariant
            vs == models(items@),
            0 <= i <= items.len(),
            forall|j: int| 0 <= j < i ==> conforms(of@, #[trigger] vs[j]),
        decreases items.len() - i,
    {
        if !of.accepts(&items[i]) {
            assert(!conforms(of@, vs[i as int]));
            return false;
        }
        assert(conforms(of@, vs[i as int]));
        i += 1;
    }
    true
}

fn dict_conforms(of: &Schema, entries: &Vec<(String, Value)>) -> (b: bool)
    ensures
        b == ({
            let es = entry_models(entries@);
            forall|i: int|
                #![trigger es[i]]
                0 <= i < es.len() ==> encode_utf8(es[i].0).len() <= max_length() && conforms(
                    of@,
                    es[i].1,
                )
        }),
    decreases entries,
{
    let ghost es = entry_models(entries@);
    let mut i: usize = 0;
    while i < entries.len()
        invariant
            es == entry_models(entries@),
            0 <= i <= entries.len(),
            forall|j: int|
                #![trigger es[j]]
                0 <= j < i ==> encode_utf8(es[j].0).len() <= max_length() && conforms(
                    of@,
                    es[j].1,
                ),
        decreases entries.len() - i,
    {
        if !fits_length(entries[i].0.as_str().as_bytes().len()) || !of.accepts(&entries[i].1) {
            assert(!(encode_utf8(es[i as int].0).len() <= max_length() && conforms(
                of@,
                es[i as int].1,
            )));
            return false;
        }
        assert(encode_utf8(es[i as int].0).len() <= max_length() && conforms(of@, es[i as int].1));
        i += 1;
    }
    true
}

impl Schema {
    /// Whether `value` is a value of this type.
    pub fn accepts(&self, value: &Value) -> (b: bool)
        ensures
            b == conforms(self@, value@),
        decreases value,
    {
        proof {
            lemma_model_unfolds(*value);
            lemma_schema_unfolds(*self);
        }
        match (self, value) {
            (Schema::Null, Value::Null) => true,
            (Schema::Boolean, Value::Boolean(_)) => true,
            (Schema::Int, Value::Int(_)) => true,
            (Schema::Long, Value::Long(_)) => true,
            (Schema::Float, Value::Float(_)) => true,
            (Schema::Double, Value::Double(_)) => true,
            (Schema::Bytes, Value::Bytes(bytes)) => fits_length(bytes.len()),
            (Schema::String, Value::String(text)) => fits_length(text.as_str().as_bytes().len()),
            (Schema::Record { fields, .. }, Value::Record(entries)) => {
entries_conform(fields, entries)
            },
            (Schema::Enum { symbols, .. }, Value::Enum(position, symbol)) => {
(*position as u64) < (symbols.len() as u64) && symbols[*position as usize]
                    == *symbol
            },
            (Schema::Array(of), Value::Array(items)) => {
fits_length(items.len()) && items_conform(of, items)
            },
            (Schema::Dict(of), Value::Dict(entries)) => {
fits_length(entries.len()) && dict_conforms(of, entries)
            },
            (Schema::Union(branches), Value::Union(position, inner)) => {
(*position as u64) < (branches.len() as u64)
                    && branches[*position as usize].accepts(inner)
            },
            (Schema::Fixed { size, .. }, Value::Fixed(bytes)) => bytes.len() == *size,
            _ => false,
        }
    }
}

/// No two entries of the list are equal.
pub open spec fn distinct(names: Seq<Seq<char>>) -> bool {
    forall|i: int, j: int| 0 <= i < j < names.len() ==> names[i] != names[j]
}

/// The names of a list of fields, in order.
pub open spec fn field_names(fields: Seq<SpecField>) -> Seq<Seq<char>> {
    Seq::new(fields.len(), |i: int| fields[i].name)
}

/// A number for each kind of schema.
pub open spec fn kind_rank(s: SpecSchema) -> int {
    match s {
        SpecSchema::Null => 0,
        SpecSchema::Boolean => 1,
        SpecSchema::Int => 2,
        SpecSchema::Long => 3,
        SpecSchema::Float => 4,
        SpecSchema::Double => 5,
        SpecSchema::Bytes => 6,
        SpecSchema::String => 7,
        SpecSchema::Record { .. } => 8,
        SpecSchema::Enum { .. } => 9,
        SpecSchema::Array(_) => 10,
        SpecSchema::Dict(_) => 11,
        SpecSchema::Union(_) => 12,
        SpecSchema::Fixed { .. } => 13,
    }
}

/// The name of a record, an enum or a fixed; empty for the other kinds.
pub open spec fn name_of(s: SpecSchema) -> Seq<char> {
    match s {
        SpecSchema::Record { name, .. } => name,
        SpecSchema::Enum { name, .. } => name,
        SpecSchema::Fixed { name, .. } => name,
        _ => Seq::empty(),
    }
}

/// Two schemas that one union cannot hold together: of one kind and, where
/// the kind is named, of one name.
pub open spec fn same_branch_type(a: SpecSchema, b: SpecSchema) -> bool {
    kind_rank(a) == kind_rank(b) && name_of(a) == name_of(b)
}

/// No two branches are of the same type.
pub open spec fn branches_distinct(branches: Seq<SpecSchema>) -> bool {
    forall|i: int, j: int|
        0 <= i < j < branches.len() ==> !same_branch_type(branches[i], branches[j])
}

/// The most symbols of an enum, and the most branches of a union: a value
/// holds the position of its symbol or branch in 32 bits.
pub open spec fn max_positions() -> int {
    u32::MAX as int
}

/// The structural rules of schemas.
///
/// Names are well formed; the fields of a record and the symbols of an enum
/// are distinct; the default of an enum is one of its symbols and the default
/// of a field a value of its type; a union holds no union and no two branches
/// of the same type; the size of a fixed is a length that can be written; an
/// enum has no more symbols and a union no more branches than a value can
/// tell apart by their positions.
pub open spec fn well_formed(s: SpecSchema) -> bool
    decreases s,
{
    match s {
        SpecSchema::Record { name, fields, .. } => {
            &&& valid_full_name(name)
            &&& forall|i: int| 0 <= i < fields.len() ==> field_well_formed(#[trigger] fields[i])
            &&& distinct(field_names(fields))
        },
        SpecSchema::Enum { name, symbols, default, .. } => {
            &&& valid_full_name(name)
            &&& symbols.len() <= max_positions()
            &&& forall|i: int| 0 <= i < symbols.len() ==> valid_identifier(#[trigger] symbols[i])
            &&& distinct(symbols)
            &&& default matches Some(d) ==> symbols.contains(d)
        },
        SpecSchema::Array(items) => well_formed(*items),
        SpecSchema::Dict(of) => well_formed(*of),
        SpecSchema::Union(branches) => {
            &&& branches.len() <= max_positions()
            &&& forall|i: int|
                0 <= i < branches.len() ==> !((#[trigger] branches[i]) is Union) && well_formed(
                    branches[i],
                )
            &&& branches_distinct(branches)
        },
        SpecSchema::Fixed { name, size } => valid_full_name(name) && size <= max_length(),
        _ => true,
    }
}

/// The structural rules of a record's field.
pub open spec fn field_well_formed(f: SpecField) -> bool
    decreases f,
{
    &&& valid_identifier(f.name)
    &&& well_formed(f.schema)
    &&& f.default matches Some(d) ==> conforms(f.schema, d)
}

fn strings_distinct(names: &Vec<String>) -> (b: bool)
    ensures
        b == distinct(texts(names@)),
{
    let ghost ts = texts(names@);
    let mut i: usize = 0;
    while i < names.len()
        invariant
            ts == texts(names@),
            0 <= i <= names.len(),
            forall|a: int, c: int| 0 <= a < c < ts.len() && a < i ==> ts[a] != ts[c],
        decreases names.len() - i,
    {
        let mut j: usize = i + 1;
        while j < names.len()
            invariant
                ts == texts(names@),
                0 <= i < j <= names.len(),
                forall|c: int| i < c < j ==> ts[i as int] != ts[c],
            decreases names.len() - j,
        {
            if names[i] == names[j] {
                assert(ts[i as int] == ts[j as int]);
                return false;
            }
            j += 1;
        }
        i += 1;
    }
    true
}

pub(crate) fn has_text(names: &Vec<String>, text: &String) -> (b: bool)
    ensures
        b == texts(names@).contains(text@),
{
    let ghost ts = texts(names@);
    let mut i: usize = 0;
    while i < names.len()
        invariant
            ts == texts(names@),
            0 <= i <= names.len(),
            forall|j: int| 0 <= j < i ==> ts[j] != text@,
        decreases names.len() - i,
    {
        if names[i] == *text {
            assert(ts[i as int] == text@);
            return true;
        }
        i += 1;
    }
    false
}

fn all_identifiers(names: &Vec<String>) -> (b: bool)
    ensures
        b == ({
            let ts = texts(names@);
            forall|i: int| 0 <= i < ts.len() ==> valid_identifier(#[trigger] ts[i])
        }),
{
    let ghost ts = texts(names@);
    let mut i: usize = 0;
    while i < names.len()
        invariant
            ts == texts(names@),
            0 <= i <= names.len(),
            forall|j: int| 0 <= j < i ==> valid_identifier(#[trigger] ts[j]),
        decreases names.len() - i,
    {
        if !is_valid_identifier(names[i].as_str()) {
            assert(!valid_identifier(ts[i as int]));
            return false;
        }
        assert(valid_identifier(ts[i as int]));
        i += 1;
    }
    true
}

fn field_names_distinct(fields: &Vec<Field>) -> (b: bool)
    ensures
        b == distinct(field_names(field_models(fields@))),
{
    let ghost ns = field_names(field_models(fields@));
    let mut i: usize = 0;
    while i < fields.len()
        invariant
            ns == field_names(field_models(fields@)),
            0 <= i <= fields.len(),
            forall|a: int, c: int| 0 <= a < c < ns.len() && a < i ==> ns[a] != ns[c],
        decreases fields.len() - i,
    {
        let mut j: usize = i + 1;
        while j < fields.len()
            invariant
                ns == field_names(field_models(fields@)),
                0 <= i < j <= fields.len(),
                forall|c: int| i < c < j ==> ns[i as int] != ns[c],
            decreases fields.len() - j,
        {
            if fields[i].name == fields[j].name {
                assert(ns[i as int] == ns[j as int]);
                return false;
            }
            j += 1;
        }
        i += 1;
    }
    true
}

fn fields_well_formed(fields: &Vec<Field>) -> (b: bool)
    ensures
        b == ({
            let fs = field_models(fields@);
            forall|i: int| 0 <= i < fs.len() ==> field_well_formed(#[trigger] fs[i])
        }),
    decreases fields,
{
    let ghost fs = field_models(fields@);
    let mut i: usize = 0;
    while i < fields.len()
        invariant
            fs == field_models(fields@),
            0 <= i <= fields.len(),
            forall|j: int| 0 <= j < i ==> field_well_formed(#[trigger] fs[j]),
        decreases fields.len() - i,
    {
        if !fields[i].is_well_formed() {
            assert(!field_well_formed(fs[i as int]));
            return false;
        }
        assert(field_well_formed(fs[i as int]));
        i += 1;
    }
    true
}

fn branches_well_formed(branches: &Vec<Schema>) -> (b: bool)
    ensures
        b == ({
            let bs = schema_models(branches@);
            forall|i: int|
                0 <= i < bs.len() ==> !((#[trigger] bs[i]) is Union) && well_formed(bs[i])
        }),
    decreases branches,
{
    let ghost bs = schema_models(branches@);
    let mut i: usize = 0;
    while i < branches.len()
        invariant
            bs == schema_models(branches@),
            0 <= i <= branches.len(),
            forall|j: int| 0 <= j < i ==> !((#[trigger] bs[j]) is Union) && well_formed(bs[j]),
        decreases branches.len() - i,
    {
        let nested = matches!(branches[i], Schema::Union(_));
        if nested || !branches[i].is_well_formed() {
            assert(!(!(bs[i as int] is Union) && well_formed(bs[i as int])));
            return false;
        }
        assert(!(bs[i as int] is Union) && well_formed(bs[i as int]));
        i += 1;
    }
    true
}

fn branch_types_distinct(branches: &Vec<Schema>) -> (b: bool)
    ensures
        b == branches_distinct(schema_models(branches@)),
{
    let ghost bs = schema_models(branches@);
    let mut i: usize = 0;
    while i < branches.len()
        invariant
            bs == schema_models(branches@),
            0 <= i <= branches.len(),
            forall|a: int, c: int|
                0 <= a < c < bs.len() && a < i ==> !same_branch_type(bs[a], bs[c]),
        decreases branches.len() - i,
    {
        let mut j: usize = i + 1;
        while j < branches.len()
            invariant
                bs == schema_models(branches@),
                0 <= i < j <= branches.len(),
                forall|c: int| i < c < j ==> !same_branch_type(bs[i as int], bs[c]),
            decreases branches.len() - j,
        {
            if branches[i].same_type_as(&branches[j]) {
                assert(same_branch_type(bs[i as int], bs[j as int]));
                return false;
            }
            j += 1;
        }
        i += 1;
    }
    true
}

impl Schema {
    /// The number of the schema's kind.
    pub fn rank(&self) -> (r: u8)
        ensures
            r == kind_rank(self@),
    {
        match self {
            Schema::Null => 0,
            Schema::Boolean => 1,
            Schema::Int => 2,
            Schema::Long => 3,
            Schema::Float => 4,
            Schema::Double => 5,
            Schema::Bytes => 6,
            Schema::String => 7,
            Schema::Record { .. } => 8,
            Schema::Enum { .. } => 9,
            Schema::Array(_) => 10,
            Schema::Dict(_) => 11,
            Schema::Union(_) => 12,
            Schema::Fixed { .. } => 13,
        }
    }

    /// Whether a union cannot hold this schema and `other` together.
    pub fn same_type_as(&self, other: &Schema) -> (b: bool)
        ensures
            b == same_branch_type(self@, other@),
    {
        if self.rank() != other.rank() {
            return false;
        }
        match (self, other) {
            (Schema::Record { name: a, .. }, Schema::Record { name: b, .. }) => *a == *b,
            (Schema::Enum { name: a, .. }, Schema::Enum { name: b, .. }) => *a == *b,
            (Schema::Fixed { name: a, .. }, Schema::Fixed { name: b, .. }) => *a == *b,
            _ => true,
        }
    }

    /// Whether the schema keeps the structural rules.
    pub fn is_well_formed(&self) -> (b: bool)
        ensures
            b == well_formed(self@),
        decreases self,
    {
        proof {
            lemma_schema_unfolds(*self);
        }
        match self {
            Schema::Record { name, fields, .. } => {
                is_valid_full_name(name.as_str()) && fields_well_formed(fields)
                    && field_names_distinct(fields)
            },
            Schema::Enum { name, symbols, default, .. } => {
                is_valid_full_name(name.as_str()) && fits_positions(symbols.len())
                    && all_identifiers(symbols) && strings_distinct(symbols) && match default {
                    Some(d) => has_text(symbols, d),
                    None => true,
                }
            },
            Schema::Array(items) => items.is_well_formed(),
            Schema::Dict(of) => of.is_well_formed(),
            Schema::Union(branches) => fits_positions(branches.len()) && branches_well_formed(
                branches,
            ) && branch_types_distinct(branches),
            Schema::Fixed { name, size } => is_valid_full_name(name.as_str()) && fits_length(*size),
            _ => true,
        }
    }
}

impl Field {
    /// Whether the field keeps the structural rules.
    pub fn is_well_formed(&self) -> (b: bool)
        ensures
            b == field_well_formed(self@),
        decreases self,
    {
        is_valid_identifier(self.name.as_str()) && self.schema.is_well_formed() && match &self.default {
            Some(d) => self.schema.accepts(d),
            None => true,
        }
    }
}

fn same_text(a: &Option<String>, b: &Option<String>) -> (same: bool)
    ensures
        same == (text_of(*a) == text_of(*b)),
{
    match (a, b) {
        (Some(x), Some(y)) => *x == *y,
        (None, None) => true,
        _ => false,
    }
}

fn same_texts(a: &Vec<String>, b: &Vec<String>) -> (same: bool)
    ensures
        same == (texts(a@) == texts(b@)),
{
    let ghost left = texts(a@);
    let ghost right = texts(b@);
    if a.len() != b.len() {
        assert(left.len() != right.len());
        return false;
    }
    let mut i: usize = 0;
    while i < a.len()
        invariant
            left == texts(a@),
            right == texts(b@),
            a.len() == b.len(),
            0 <= i <= a.len(),
            forall|j: int| 0 <= j < i ==> left[j] == right[j],
        decreases a.len() - i,
    {
        if !(a[i] == b[i]) {
            assert(left[i as int] != right[i as int]);
            return false;
        }
        i += 1;
    }
    assert(left =~= right);
    true
}

fn same_fields(a: &Vec<Field>, b: &Vec<Field>) -> (same: bool)
    ensures
        same == (field_models(a@) == field_models(b@)),
    decreases a,
{
    let ghost left = field_models(a@);
    let ghost right = field_models(b@);
    if a.len() != b.len() {
        assert(left.len() != right.len());
        return false;
    }
    let mut i: usize = 0;
    while i < a.len()
        invariant
            left == field_models(a@),
            right == field_models(b@),
            a.len() == b.len(),
            0 <= i <= a.len(),
            forall|j: int| 0 <= j < i ==> left[j] == right[j],
        decreases a.len() - i,
    {
        if !a[i].same_as(&b[i]) {
            assert(left[i as int] != right[i as int]);
            return false;
        }
        i += 1;
    }
    assert(left =~= right);
    true
}

fn same_schemas(a: &Vec<Schema>, b: &Vec<Schema>) -> (same: bool)
    ensures
        same == (schema_models(a@) == schema_models(b@)),
    decreases a,
{
    let ghost left = schema_models(a@);
    let ghost right = schema_models(b@);
    if a.len() != b.len() {
        assert(left.len() != right.len());
        return false;
    }
    let mut i: usize = 0;
    while i < a.len()
        invariant
            left == schema_models(a@),
            right == schema_models(b@),
            a.len() == b.len(),
            0 <= i <= a.len(),
            forall|j: int| 0 <= j < i ==> left[j] == right[j],
        decreases a.len() - i,
    {
        if !a[i].same_as(&b[i]) {
            assert(left[i as int] != right[i as int]);
            return false;
        }
        i += 1;
    }
    assert(left =~= right);
    true
}

impl Schema {
    /// Whether the two schemas are equal, annotations included.
    pub fn same_as(&self, other: &Schema) -> (same: bool)
        ensures
            same == (self@ == other@),
        decreases self,
    {
        proof {
            lemma_schema_unfolds(*self);
            lemma_schema_unfolds(*other);
        }
        match (self, other) {
            (Schema::Null, Schema::Null) => true,
            (Schema::Boolean, Schema::Boolean) => true,
            (Schema::Int, Schema::Int) => true,
            (Schema::Long, Schema::Long) => true,
            (Schema::Float, Schema::Float) => true,
            (Schema::Double, Schema::Double) => true,
            (Schema::Bytes, Schema::Bytes) => true,
            (Schema::String, Schema::String) => true,
            (
                Schema::Record { name: n1, doc: d1, fields: f1 },
                Schema::Record { name: n2, doc: d2, fields: f2 },
            ) => *n1 == *n2 && same_text(d1, d2) && same_fields(f1, f2),
            (
                Schema::Enum { name: n1, doc: d1, symbols: s1, default: e1 },
                Schema::Enum { name: n2, doc: d2, symbols: s2, default: e2 },
            ) => *n1 == *n2 && same_text(d1, d2) && same_texts(s1, s2) && same_text(e1, e2),
            (Schema::Array(a), Schema::Array(b)) => a.same_as(b),
            (Schema::Dict(a), Schema::Dict(b)) => a.same_as(b),
            (Schema::Union(a), Schema::Union(b)) => same_schemas(a, b),
            (Schema::Fixed { name: n1, size: z1 }, Schema::Fixed { name: n2, size: z2 }) => *n1
                == *n2 && *z1 == *z2,
            _ => false,
        }
    }
}

impl Field {
    /// Whether the two fields are equal, annotations included.
    pub fn same_as(&self, other: &Field) -> (same: bool)
        ensures
            same == (self@ == other@),
        decreases self,
    {
        self.name == other.name && same_text(&self.doc, &other.doc) && same_texts(
            &self.aliases,
            &other.aliases,
        ) && self.schema.same_as(&other.schema) && match (&self.default, &other.default) {
            (Some(a), Some(b)) => a.same_as(b),
            (None, None) => true,
            _ => false,
        }
    }
}

fn clone_text(text: &Option<String>) -> (r: Option<String>)
    ensures
        text_of(r) == text_of(*text),
{
    match text {
        Some(t) => Some(t.clone()),
        None => None,
    }
}

fn clone_texts(names: &Vec<String>) -> (r: Vec<String>)
    ensures
        texts(r@) == texts(names@),
{
    let mut out: Vec<String> = Vec::new();
    let mut i: usize = 0;
    while i < names.len()
        invariant
            0 <= i <= names.len(),
            out.len() == i,
            forall|j: int| 0 <= j < i ==> (#[trigger] out[j])@ == names[j]@,
        decreases names.len() - i,
    {
        out.push(names[i].clone());
        i += 1;
    }
    assert(texts(out@) =~= texts(names@));
    out
}

fn clone_fields(fields: &Vec<Field>) -> (r: Vec<Field>)
    ensures
        field_models(r@) == field_models(fields@),
    decreases fields,
{
    let mut out: Vec<Field> = Vec::new();
    let mut i: usize = 0;
    while i < fields.len()
        invariant
            0 <= i <= fields.len(),
            out.len() == i,
            forall|j: int| 0 <= j < i ==> (#[trigger] out[j])@ == fields[j]@,
        decreases fields.len() - i,
    {
        let field = fields[i].deep_clone();
        out.push(field);
        i += 1;
    }
    assert(field_models(out@) =~= field_models(fields@));
    out
}

fn clone_schemas(schemas: &Vec<Schema>) -> (r: Vec<Schema>)
    ensures
        schema_models(r@) == schema_models(schemas@),
    decreases schemas,
{
    let mut out: Vec<Schema> = Vec::new();
    let mut i: usize = 0;
    while i < schemas.len()
        invariant
            0 <= i <= schemas.len(),
            out.len() == i,
            forall|j: int| 0 <= j < i ==> (#[trigger] out[j])@ == schemas[j]@,
        decreases schemas.len() - i,
    {
        let schema = schemas[i].deep_clone();
        out.push(schema);
        i += 1;
    }
    assert(schema_models(out@) =~= schema_models(schemas@));
    out
}

impl Schema {
    /// A copy of the schema.
    pub fn deep_clone(&self) -> (r: Schema)
        ensures
            r@ == self@,
        decreases self,
    {
        let r = match self {
            Schema::Null => Schema::Null,
            Schema::Boolean => Schema::Boolean,
            Schema::Int => Schema::Int,
            Schema::Long => Schema::Long,
            Schema::Float => Schema::Float,
            Schema::Double => Schema::Double,
            Schema::Bytes => Schema::Bytes,
            Schema::String => Schema::String,
            Schema::Record { name, doc, fields } => Schema::Record {
                name: name.clone(),
                doc: clone_text(doc),
                fields: clone_fields(fields),
            },
            Schema::Enum { name, doc, symbols, default } => Schema::Enum {
                name: name.clone(),
                doc: clone_text(doc),
                symbols: clone_texts(symbols),
                default: clone_text(default),
            },
            Schema::Array(items) => Schema::Array(Box::new(items.deep_clone())),
            Schema::Dict(of) => Schema::Dict(Box::new(of.deep_clone())),
            Schema::Union(branches) => Schema::Union(clone_schemas(branches)),
            Schema::Fixed { name, size } => Schema::Fixed { name: name.clone(), size: *size },
        };
        proof {
            lemma_schema_unfolds(r);
            lemma_schema_unfolds(*self);
        }
        r
    }
}

impl Field {
    /// A copy of the field.
    pub fn deep_clone(&self) -> (r: Field)
        ensures
            r@ == self@,
        decreases self,
    {
        Field {
            name: self.name.clone(),
            doc: clone_text(&self.doc),
            aliases: clone_texts(&self.aliases),
            schema: self.schema.deep_clone(),
            default: match &self.default {
                Some(d) => Some(d.deep_clone()),
                None => None,
            },
        }
    }
}

impl Clone for Schema {
    fn clone(&self) -> (r: Schema)
        ensures
            r@ == self@,
    {
        self.deep_clone()
    }
}

impl Clone for Field {
    fn clone(&self) -> (r: Field)
        ensures
            r@ == self@,
    {
        self.deep_clone()
    }
}

impl Field {
    /// The field `name` of type `schema`, without documentation, aliases or
    /// default.
    pub fn new(name: &str, schema: Schema) -> (f: Field)
        ensures
            f@ == (SpecField {
                name: name@,
                doc: None,
                aliases: Seq::empty(),
                schema: schema@,
                default: None,
            }),
    {
        let f = Field {
            name: name.to_owned(),
            doc: None,
            aliases: Vec::new(),
            schema,
            default: None,
        };
        assert(f@.aliases =~= Seq::empty());
        f
    }

    /// The field with the default `default`.
    pub fn with_default(self, default: Value) -> (f: Field)
        ensures
            f@ == (SpecField {
                name: self@.name,
                doc: self@.doc,
                aliases: self@.aliases,
                schema: self@.schema,
                default: Some(default@),
            }),
    {
        Field {
            name: self.name,
            doc: self.doc,
            aliases: self.aliases,
            schema: self.schema,
            default: Some(default),
        }
    }

    /// The field with one more alias, behind those it has.
    pub fn with_alias(self, alias: &str) -> (f: Field)
        ensures
            f@ == (SpecField {
                name: self@.name,
                doc: self@.doc,
                aliases: self@.aliases.push(alias@),
                schema: self@.schema,
                default: self@.default,
            }),
    {
        let ghost before = self@.aliases;
        let mut aliases = self.aliases;
        aliases.push(alias.to_owned());
        let f = Field {
            name: self.name,
            doc: self.doc,
            aliases,
            schema: self.schema,
            default: self.default,
        };
        assert(f@.aliases =~= before.push(alias@));
        f
    }

    /// The field with the documentation `doc`.
    pub fn with_doc(self, doc: &str) -> (f: Field)
        ensures
            f@ == (SpecField {
                name: self@.name,
                doc: Some(doc@),
                aliases: self@.aliases,
                schema: self@.schema,
                default: self@.default,
            }),
    {
        Field {
            name: self.name,
            doc: Some(doc.to_owned()),
            aliases: self.aliases,
            schema: self.schema,
            default: self.default,
        }
    }
}

impl Schema {
    /// The record `name` with the fields `fields`, without documentation.
    pub fn record(name: &str, fields: Vec<Field>) -> (s: Schema)
        ensures
            s@ == (SpecSchema::Record { name: name@, doc: None, fields: field_models(fields@) }),
    {
        let s = Schema::Record { name: name.to_owned(), doc: None, fields };
        proof {
            lemma_schema_unfolds(s);
        }
        s
    }

    /// The enum `name` with the symbols `symbols`, without documentation or
    /// default.
    pub fn enumeration(name: &str, symbols: Vec<String>) -> (s: Schema)
        ensures
            s@ == (SpecSchema::Enum {
                name: name@,
                doc: None,
                symbols: texts(symbols@),
                default: None,
            }),
    {
        Schema::Enum { name: name.to_owned(), doc: None, symbols, default: None }
    }

    /// The fixed `name` of `size` bytes.
    pub fn fixed(name: &str, size: usize) -> (s: Schema)
        ensures
            s@ == (SpecSchema::Fixed { name: name@, size: size as nat }),
    {
        Schema::Fixed { name: name.to_owned(), size }
    }

    /// The array of `items`.
    pub fn array(items: Schema) -> (s: Schema)
        ensures
            s@ == SpecSchema::Array(Box::new(items@)),
    {
        Schema::Array(Box::new(items))
    }

    /// The map from strings to `of`.
    pub fn dict(of: Schema) -> (s: Schema)
        ensures
            s@ == SpecSchema::Dict(Box::new(of@)),
    {
        Schema::Dict(Box::new(of))
    }

    /// The union of `null` and `of`, in this order.
    pub fn optional(of: Schema) -> (s: Schema)
        ensures
            s@ == SpecSchema::Union(seq![SpecSchema::Null, of@]),
    {
        let mut branches: Vec<Schema> = Vec::new();
        branches.push(Schema::Null);
        branches.push(of);
        let s = Schema::Union(branches);
        proof {
            lemma_schema_unfolds(s);
            assert(schema_models(branches@) =~= seq![SpecSchema::Null, of@]);
        }
        s
    }
}

} // verus!
