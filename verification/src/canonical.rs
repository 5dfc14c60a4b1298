//! The canonical text of a schema: what of it decides how bytes are read, and
//! nothing else. Documentation, aliases and defaults are left out; attributes
//! stand in a fixed order, without white space.

use vstd::prelude::*;
use vstd::string::StringExecFns;
use crate::schema::{
    field_models, lemma_schema_unfolds, schema_models, texts, Field, Schema, SpecField, SpecSchema,
};

verus! {

/// The text of one decimal digit.
pub open spec fn digit_text(d: nat) -> Seq<char> {
    if d == 0 {
        "0"@
    } else if d == 1 {
        "1"@
    } else if d == 2 {
        "2"@
    } else if d == 3 {
        "3"@
    } else if d == 4 {
        "4"@
    } else if d == 5 {
        "5"@
    } else if d == 6 {
        "6"@
    } else if d == 7 {
        "7"@
    } else if d == 8 {
        "8"@
    } else {
        "9"@
    }
}

/// The decimal text of a number, without leading zeros.
pub open spec fn decimal_text(n: nat) -> Seq<char>
    decreases n,
{
    if n < 10 {
        digit_text(n)
    } else {
        decimal_text(n / 10) + digit_text(n % 10)
    }
}

/// The first `n` symbols, each in quotes, with commas between them.
pub open spec fn symbols_text(symbols: Seq<Seq<char>>, n: nat) -> Seq<char>
    decreases n,
{
    if n == 0 || n > symbols.len() {
        Seq::empty()
    } else {
        symbols_text(symbols, (n - 1) as nat) + (if n == 1 {
            Seq::empty()
        } else {
            ","@
        }) + "\""@ + symbols[n - 1] + "\""@
    }
}

/// The canonical text of a schema.
pub open spec fn canonical_text(s: SpecSchema) -> Seq<char>
    decreases s, 0nat,
{
    match s {
        SpecSchema::Null => "\"null\""@,
        SpecSchema::Boolean => "\"boolean\""@,
        SpecSchema::Int => "\"int\""@,
        SpecSchema::Long => "\"long\""@,
        SpecSchema::Float => "\"float\""@,
        SpecSchema::Double => "\"double\""@,
        SpecSchema::Bytes => "\"bytes\""@,
        SpecSchema::String => "\"string\""@,
        SpecSchema::Record { name, fields, .. } => "{\"name\":\""@ + name
            + "\",\"type\":\"record\",\"fields\":["@ + fields_text(fields, fields.len()) + "]}"@,
        SpecSchema::Enum { name, symbols, .. } => "{\"name\":\""@ + name
            + "\",\"type\":\"enum\",\"symbols\":["@ + symbols_text(symbols, symbols.len()) + "]}"@,
        SpecSchema::Array(items) => "{\"type\":\"array\",\"items\":"@ + canonical_text(*items)
            + "}"@,
        SpecSchema::Dict(of) => "{\"type\":\"map\",\"values\":"@ + canonical_text(*of) + "}"@,
        SpecSchema::Union(branches) => "["@ + branches_text(branches, branches.len()) + "]"@,
        SpecSchema::Fixed { name, size } => "{\"name\":\""@ + name
            + "\",\"type\":\"fixed\",\"size\":"@ + decimal_text(size) + "}"@,
    }
}

/// The canonical text of a field: its name and its type.
pub open spec fn field_text(f: SpecField) -> Seq<char>
    decreases f, 0nat,
{
    "{\"name\":\""@ + f.name + "\",\"type\":"@ + canonical_text(f.schema) + "}"@
}

/// The canonical texts of the first `n` fields, with commas between them.
pub open spec fn fields_text(fields: Seq<SpecField>, n: nat) -> Seq<char>
    decreases fields, n,
{
    if n == 0 || n > fields.len() {
        Seq::empty()
    } else {
        fields_text(fields, (n - 1) as nat) + (if n == 1 {
            Seq::empty()
        } else {
            ","@
        }) + field_text(fields[n - 1])
    }
}

/// The canonical texts of the first `n` branches, with commas between them.
pub open spec fn branches_text(branches: Seq<SpecSchema>, n: nat) -> Seq<char>
    decreases branches, n,
{
    if n == 0 || n > branches.len() {
        Seq::empty()
    } else {
        branches_text(branches, (n - 1) as nat) + (if n == 1 {
            Seq::empty()
        } else {
            ","@
        }) + canonical_text(branches[n - 1])
    }
}

fn write_digit(d: usize, out: &mut String)
    requires
        d < 10,
    ensures
        final(out)@ == old(out)@ + digit_text(d as nat),
{
    let text = if d == 0 {
        "0"
    } else if d == 1 {
        "1"
    } else if d == 2 {
        "2"
    } else if d == 3 {
        "3"
    } else if d == 4 {
        "4"
    } else if d == 5 {
        "5"
    } else if d == 6 {
        "6"
    } else if d == 7 {
        "7"
    } else if d == 8 {
        "8"
    } else {
        "9"
    };
    out.append(text);
}

fn write_decimal(n: usize, out: &mut String)
    ensures
        final(out)@ == old(out)@ + decimal_text(n as nat),
    decreases n,
{
    if n < 10 {
        write_digit(n, out);
    } else {
        write_decimal(n / 10, out);
        write_digit(n % 10, out);
        assert(out@ =~= old(out)@ + decimal_text(n as nat));
    }
}

fn write_symbols(symbols: &Vec<String>, out: &mut String)
    ensures
        final(out)@ == old(out)@ + symbols_text(texts(symbols@), symbols.len() as nat),
{
    let ghost ts = texts(symbols@);
    let mut i: usize = 0;
    while i < symbols.len()
        invariant
            ts == texts(symbols@),
            0 <= i <= symbols.len(),
            out@ == old(out)@ + symbols_text(ts, i as nat),
        decreases symbols.len() - i,
    {
        let ghost before = out@;
        if i > 0 {
            out.append(",");
        }
        out.append("\"");
        out.append(symbols[i].as_str());
        out.append("\"");
        i += 1;
        assert(out@ =~= old(out)@ + symbols_text(ts, i as nat));
    }
}

fn write_fields(fields: &Vec<Field>, out: &mut String)
    ensures
        final(out)@ == old(out)@ + fields_text(field_models(fields@), fields.len() as nat),
    decreases fields,
{
    let ghost fs = field_models(fields@);
    let mut i: usize = 0;
    while i < fields.len()
        invariant
            fs == field_models(fields@),
            0 <= i <= fields.len(),
            out@ == old(out)@ + fields_text(fs, i as nat),
        decreases fields.len() - i,
    {
        if i > 0 {
            out.append(",");
        }
        let ghost start = out@;
        out.append("{\"name\":\"");
        out.append(fields[i].name.as_str());
        out.append("\",\"type\":");
        write_canonical(&fields[i].schema, out);
        out.append("}");
        assert(out@ =~= start + field_text(fs[i as int]));
        i += 1;
        assert(out@ =~= old(out)@ + fields_text(fs, i as nat));
    }
}

fn write_branches(branches: &Vec<Schema>, out: &mut String)
    ensures
        final(out)@ == old(out)@ + branches_text(schema_models(branches@), branches.len() as nat),
    decreases branches,
{
    let ghost bs = schema_models(branches@);
    let mut i: usize = 0;
    while i < branches.len()
        invariant
            bs == schema_models(branches@),
            0 <= i <= branches.len(),
            out@ == old(out)@ + branches_text(bs, i as nat),
        decreases branches.len() - i,
    {
        if i > 0 {
            out.append(",");
        }
        write_canonical(&branches[i], out);
        i += 1;
        assert(out@ =~= old(out)@ + branches_text(bs, i as nat));
    }
}

/// Appends the canonical text of `schema` to `out`.
pub fn write_canonical(schema: &Schema, out: &mut String)
    ensures
        final(out)@ == old(out)@ + canonical_text(schema@),
    decreases schema,
{
    proof {
        lemma_schema_unfolds(*schema);
    }
    match schema {
        Schema::Null => out.append("\"null\""),
        Schema::Boolean => out.append("\"boolean\""),
        Schema::Int => out.append("\"int\""),
        Schema::Long => out.append("\"long\""),
        Schema::Float => out.append("\"float\""),
        Schema::Double => out.append("\"double\""),
        Schema::Bytes => out.append("\"bytes\""),
        Schema::String => out.append("\"string\""),
        Schema::Record { name, fields, .. } => {
            out.append("{\"name\":\"");
            out.append(name.as_str());
            out.append("\",\"type\":\"record\",\"fields\":[");
            write_fields(fields, out);
            out.append("]}");
            assert(out@ =~= old(out)@ + canonical_text(schema@));
        },
        Schema::Enum { name, symbols, .. } => {
            out.append("{\"name\":\"");
            out.append(name.as_str());
            out.append("\",\"type\":\"enum\",\"symbols\":[");
            write_symbols(symbols, out);
            out.append("]}");
            assert(out@ =~= old(out)@ + canonical_text(schema@));
        },
        Schema::Array(items) => {
            out.append("{\"type\":\"array\",\"items\":");
            write_canonical(items, out);
            out.append("}");
            assert(out@ =~= old(out)@ + canonical_text(schema@));
        },
        Schema::Dict(of) => {
            out.append("{\"type\":\"map\",\"values\":");
            write_canonical(of, out);
            out.append("}");
            assert(out@ =~= old(out)@ + canonical_text(schema@));
        },
        Schema::Union(branches) => {
            out.append("[");
            write_branches(branches, out);
            out.append("]");
            assert(out@ =~= old(out)@ + canonical_text(schema@));
        },
        Schema::Fixed { name, size } => {
            out.append("{\"name\":\"");
            out.append(name.as_str());
            out.append("\",\"type\":\"fixed\",\"size\":");
            write_decimal(*size, out);
            out.append("}");
            assert(out@ =~= old(out)@ + canonical_text(schema@));
        },
    }
}

/// The canonical text of `schema`.
pub fn canonical_form(schema: &Schema) -> (text: String)
    ensures
        text@ == canonical_text(schema@),
{
    let mut out = String::new();
    write_canonical(schema, &mut out);
    assert(out@ =~= canonical_text(schema@));
    out
}

/// What of a schema decides how bytes are read: the schema without
/// documentation, aliases and defaults.
pub open spec fn essence(s: SpecSchema) -> SpecSchema
    decreases s, 0nat,
{
    match s {
        SpecSchema::Record { name, fields, .. } => SpecSchema::Record {
            name,
            doc: None,
            fields: fields_essence(fields),
        },
        SpecSchema::Enum { name, symbols, .. } => SpecSchema::Enum {
            name,
            doc: None,
            symbols,
            default: None,
        },
        SpecSchema::Array(items) => SpecSchema::Array(Box::new(essence(*items))),
        SpecSchema::Dict(of) => SpecSchema::Dict(Box::new(essence(*of))),
        SpecSchema::Union(branches) => SpecSchema::Union(branches_essence(branches)),
        _ => s,
    }
}

/// What of a field decides how bytes are read: its name and the essence of
/// its type.
pub open spec fn field_essence(f: SpecField) -> SpecField
    decreases f, 0nat,
{
    SpecField {
        name: f.name,
        doc: None,
        aliases: Seq::empty(),
        schema: essence(f.schema),
        default: None,
    }
}

/// The essences of a list of fields, in order.
pub open spec fn fields_essence(fields: Seq<SpecField>) -> Seq<SpecField>
    decreases fields, 1nat,
{
    Seq::new(
        fields.len(),
        |i: int|
            if 0 <= i < fields.len() {
                field_essence(fields[i])
            } else {
                arbitrary()
            },
    )
}

/// The essences of a list of schemas, in order.
pub open spec fn branches_essence(branches: Seq<SpecSchema>) -> Seq<SpecSchema>
    decreases branches, 1nat,
{
    Seq::new(
        branches.len(),
        |i: int|
            if 0 <= i < branches.len() {
                essence(branches[i])
            } else {
                arbitrary()
            },
    )
}

/// The canonical text of a schema is that of its essence.
pub proof fn lemma_canonical_text_of_essence(s: SpecSchema)
    ensures
        canonical_text(essence(s)) == canonical_text(s),
    decreases s, 0nat,
{
    match s {
        SpecSchema::Record { name, fields, .. } => {
            lemma_fields_text_of_essence(fields, fields.len());
        },
        SpecSchema::Array(items) => {
            lemma_canonical_text_of_essence(*items);
        },
        SpecSchema::Dict(of) => {
            lemma_canonical_text_of_essence(*of);
        },
        SpecSchema::Union(branches) => {
            lemma_branches_text_of_essence(branches, branches.len());
        },
        _ => {},
    }
}

proof fn lemma_fields_text_of_essence(fields: Seq<SpecField>, n: nat)
    requires
        n <= fields.len(),
    ensures
        fields_text(fields_essence(fields), n) == fields_text(fields, n),
    decreases fields, n,
{
    if n > 0 {
        lemma_fields_text_of_essence(fields, (n - 1) as nat);
        let f = fields[n - 1];
        lemma_canonical_text_of_essence(f.schema);
        assert(fields_essence(fields)[n - 1] == field_essence(f));
        assert(field_text(field_essence(f)) == field_text(f));
    }
}

proof fn lemma_branches_text_of_essence(branches: Seq<SpecSchema>, n: nat)
    requires
        n <= branches.len(),
    ensures
        branches_text(branches_essence(branches), n) == branches_text(branches, n),
    decreases branches, n,
{
    if n > 0 {
        lemma_branches_text_of_essence(branches, (n - 1) as nat);
        lemma_canonical_text_of_essence(branches[n - 1]);
        assert(branches_essence(branches)[n - 1] == essence(branches[n - 1]));
    }
}

/// Schemas that differ in documentation, aliases and defaults alone have the
/// same canonical text.
pub proof fn lemma_canonical_text_ignores_annotations(a: SpecSchema, b: SpecSchema)
    requires
        essence(a) == essence(b),
    ensures
        canonical_text(a) == canonical_text(b),
{
    lemma_canonical_text_of_essence(a);
    lemma_canonical_text_of_essence(b);
}

} // verus!
