//! Schemas under which a value resolves to itself.

use vstd::prelude::*;
use crate::error::SpecError;
use crate::resolve::{
    compatible, field_named, first_match, lemma_field_named, position_of, resolve_entries,
    resolve_fields, resolve_items, resolve_spec, writer_field,
};
use crate::schema::{conforms, distinct, field_names, well_formed, SpecField, SpecSchema};
use crate::value::SpecValue;

verus! {

/// Whether no field bears the name of a field in front of it.
pub open spec fn fields_apart(fields: Seq<SpecField>) -> bool {
    forall|j: int, k: int|
        0 <= j < k < fields.len() ==> (#[trigger] fields[k]).name != (#[trigger] fields[j]).name
}

/// Whether no branch of a union takes what a branch behind it holds.
pub open spec fn branches_apart(branches: Seq<SpecSchema>) -> bool {
    forall|j: int, i: int|
        0 <= j < i < branches.len() ==> !compatible(#[trigger] branches[i], #[trigger] branches[j])
}

/// Whether resolution has nothing to decide between a writer and a reader of
/// this one schema: the symbols of each enum are distinct, no two fields of
/// a record bear one name, and no branch of a union is a union or takes what
/// a branch behind it holds.
pub open spec fn steady(s: SpecSchema) -> bool
    decreases s,
{
    match s {
        SpecSchema::Record { fields, .. } => {
            &&& forall|k: int| 0 <= k < fields.len() ==> steady((#[trigger] fields[k]).schema)
            &&& fields_apart(fields)
        },
        SpecSchema::Enum { symbols, .. } => distinct(symbols),
        SpecSchema::Array(items) => steady(*items),
        SpecSchema::Dict(of) => steady(*of),
        SpecSchema::Union(branches) => {
            &&& forall|i: int|
                0 <= i < branches.len() ==> !((#[trigger] branches[i]) is Union) && steady(
                    branches[i],
                )
            &&& branches_apart(branches)
        },
        _ => true,
    }
}

/// Among fields that are apart, each field stands for itself, whatever its
/// aliases.
pub proof fn lemma_field_finds_itself(fields: Seq<SpecField>, m: int)
    requires
        fields_apart(fields),
        0 <= m < fields.len(),
    ensures
        writer_field(fields, fields[m]) == Some(m as nat),
{
    lemma_field_named(fields, fields[m].name, 0);
    if let Some(j) = field_named(fields, fields[m].name, 0) {
        if j < m {
            assert(fields[m].name != fields[j as int].name);
        }
    }
}

/// Among distinct texts, each text is found where it stands.
pub proof fn lemma_text_finds_itself(texts: Seq<Seq<char>>, m: int, from: nat)
    requires
        distinct(texts),
        0 <= from <= m < texts.len(),
    ensures
        position_of(texts, texts[m], from) == Some(m as nat),
    decreases m - from,
{
    if from < m {
        lemma_text_finds_itself(texts, m, from + 1);
    }
}

/// Among branches that are apart, each branch takes its own values first.
pub proof fn lemma_branch_finds_itself(branches: Seq<SpecSchema>, m: int, from: nat)
    requires
        branches_apart(branches),
        compatible(branches[m], branches[m]),
        0 <= from <= m < branches.len(),
    ensures
        first_match(branches[m], branches, from) == Some(m as nat),
    decreases m - from,
{
    if from < m {
        assert(!compatible(branches[m], branches[from as int]));
        lemma_branch_finds_itself(branches, m, from + 1);
    }
}

/// Under a steady schema, a value resolves to itself.
pub proof fn lemma_resolves_to_itself(s: SpecSchema, v: SpecValue)
    requires
        steady(s),
        conforms(s, v),
    ensures
        resolve_spec(s, s, v) == Ok::<SpecValue, SpecError>(v),
    decreases s, 1nat,
{
    match (s, v) {
        (SpecSchema::Record { fields, .. }, SpecValue::Record(entries)) => {
            lemma_same_fields_resolve(s, entries, 0, Seq::empty());
            assert(Seq::<(Seq<char>, SpecValue)>::empty() + entries.subrange(
                0,
                entries.len() as int,
            ) =~= entries);
        },
        (SpecSchema::Enum { symbols, .. }, SpecValue::Enum(position, symbol)) => {
            lemma_text_finds_itself(symbols, position as int, 0);
        },
        (SpecSchema::Array(of), SpecValue::Array(items)) => {
            lemma_same_items_resolve(s, items, 0, Seq::empty());
            assert(Seq::<SpecValue>::empty() + items.subrange(0, items.len() as int) =~= items);
        },
        (SpecSchema::Dict(of), SpecValue::Dict(entries)) => {
            lemma_same_entries_resolve(s, entries, 0, Seq::empty());
            assert(Seq::<(Seq<char>, SpecValue)>::empty() + entries.subrange(
                0,
                entries.len() as int,
            ) =~= entries);
        },
        (SpecSchema::Union(branches), SpecValue::Union(position, inner)) => {
            let branch = branches[position as int];
            assert(!(branch is Union));
            lemma_resolves_to_itself(branch, *inner);
            assert(compatible(branch, branch));
            lemma_branch_finds_itself(branches, position as int, 0);
            assert(resolve_spec(branch, s, *inner) == Ok::<SpecValue, SpecError>(v));
        },
        _ => {},
    }
}

proof fn lemma_same_fields_resolve(
    s: SpecSchema,
    entries: Seq<(Seq<char>, SpecValue)>,
    i: nat,
    acc: Seq<(Seq<char>, SpecValue)>,
)
    requires
        s is Record,
        steady(s),
        conforms(s, SpecValue::Record(entries)),
        i <= entries.len(),
    ensures
        resolve_fields(s, s, entries, i, acc) == Ok::<Seq<(Seq<char>, SpecValue)>, SpecError>(
            acc + entries.subrange(i as int, entries.len() as int),
        ),
    decreases s, 0nat, entries.len() - i,
{
    let fields = s->fields;
    if i < entries.len() {
        lemma_field_finds_itself(fields, i as int);
        assert(entries[i as int].0 == fields[i as int].name);
        lemma_resolves_to_itself(fields[i as int].schema, entries[i as int].1);
        lemma_same_fields_resolve(s, entries, i + 1, acc.push(entries[i as int]));
        assert(acc.push(entries[i as int]) + entries.subrange(i as int + 1, entries.len() as int)
            =~= acc + entries.subrange(i as int, entries.len() as int));
    } else {
        assert(acc + entries.subrange(i as int, entries.len() as int) =~= acc);
    }
}

proof fn lemma_same_items_resolve(
    s: SpecSchema,
    items: Seq<SpecValue>,
    i: nat,
    acc: Seq<SpecValue>,
)
    requires
        s is Array,
        steady(s),
        conforms(s, SpecValue::Array(items)),
        i <= items.len(),
    ensures
        resolve_items(s, s, items, i, acc) == Ok::<Seq<SpecValue>, SpecError>(
            acc + items.subrange(i as int, items.len() as int),
        ),
    decreases s, 0nat, items.len() - i,
{
    if i < items.len() {
        lemma_resolves_to_itself(*s->Array_0, items[i as int]);
        lemma_same_items_resolve(s, items, i + 1, acc.push(items[i as int]));
        assert(acc.push(items[i as int]) + items.subrange(i as int + 1, items.len() as int)
            =~= acc + items.subrange(i as int, items.len() as int));
    } else {
        assert(acc + items.subrange(i as int, items.len() as int) =~= acc);
    }
}

proof fn lemma_same_entries_resolve(
    s: SpecSchema,
    entries: Seq<(Seq<char>, SpecValue)>,
    i: nat,
    acc: Seq<(Seq<char>, SpecValue)>,
)
    requires
        s is Dict,
        steady(s),
        conforms(s, SpecValue::Dict(entries)),
        i <= entries.len(),
    ensures
        resolve_entries(s, s, entries, i, acc) == Ok::<Seq<(Seq<char>, SpecValue)>, SpecError>(
            acc + entries.subrange(i as int, entries.len() as int),
        ),
    decreases s, 0nat, entries.len() - i,
{
    if i < entries.len() {
        lemma_resolves_to_itself(*s->Dict_0, entries[i as int].1);
        lemma_same_entries_resolve(s, entries, i + 1, acc.push(entries[i as int]));
        assert(acc.push(entries[i as int]) + entries.subrange(i as int + 1, entries.len() as int)
            =~= acc + entries.subrange(i as int, entries.len() as int));
    } else {
        assert(acc + entries.subrange(i as int, entries.len() as int) =~= acc);
    }
}

/// Whether each field of the value `v` resolves to itself under the type
/// that the record `w` gives the field; the field `but`, if there is one, may
/// do otherwise.
pub open spec fn fields_keep(w: SpecSchema, v: SpecValue, but: int) -> bool {
    forall|k: int|
        0 <= k < w->fields.len() && k != but ==> resolve_spec(
            (#[trigger] w->fields[k]).schema,
            w->fields[k].schema,
            v->Record_0[k].1,
        ) == Ok::<SpecValue, SpecError>(v->Record_0[k].1)
}

/// Under a steady record, the fields of every value keep.
pub proof fn lemma_steady_fields_keep(w: SpecSchema, v: SpecValue, but: int)
    requires
        w is Record,
        steady(w),
        conforms(w, v),
    ensures
        fields_keep(w, v, but),
{
    assert forall|k: int| 0 <= k < w->fields.len() && k != but implies resolve_spec(
        (#[trigger] w->fields[k]).schema,
        w->fields[k].schema,
        v->Record_0[k].1,
    ) == Ok::<SpecValue, SpecError>(v->Record_0[k].1) by {
        assert(conforms(w->fields[k].schema, v->Record_0[k].1));
        lemma_resolves_to_itself(w->fields[k].schema, v->Record_0[k].1);
    }
}

/// The fields of a well-formed record are apart, so that each stands for
/// itself.
pub proof fn lemma_well_formed_fields_apart(w: SpecSchema)
    requires
        w is Record,
        well_formed(w),
    ensures
        fields_apart(w->fields),
        forall|k: int|
            0 <= k < w->fields.len() ==> writer_field(w->fields, #[trigger] w->fields[k]) == Some(
                k as nat,
            ),
{
    let fields = w->fields;
    let names = field_names(fields);
    assert forall|j: int, k: int| 0 <= j < k < fields.len() implies (#[trigger] fields[k]).name
        != (#[trigger] fields[j]).name by {
        assert(names[j] != names[k]);
    }
    assert forall|k: int| 0 <= k < fields.len() implies writer_field(
        fields,
        #[trigger] fields[k],
    ) == Some(k as nat) by {
        lemma_field_finds_itself(fields, k);
    }
}

} // verus!
