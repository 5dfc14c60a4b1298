//! What resolution gives, part by part: each field of a record, each item of
//! an array, each entry of a map is resolved on its own.

use vstd::prelude::*;
use crate::error::{failure, ErrorKind, SpecError};
use crate::resolve::{
    resolve_entries, resolve_fields, resolve_items, resolve_spec, writer_field, Resolved,
};
use crate::schema::SpecSchema;
use crate::value::SpecValue;

verus! {

/// What the reader's field `k` becomes: the writer's field that it stands
/// for, resolved, or its default where the writer has no such field.
pub open spec fn field_outcome(
    w: SpecSchema,
    r: SpecSchema,
    entries: Seq<(Seq<char>, SpecValue)>,
    k: int,
) -> Resolved {
    let field = r->fields[k];
    match writer_field(w->fields, field) {
        Some(j) => if j < w->fields.len() && j < entries.len() {
            resolve_spec(w->fields[j as int].schema, field.schema, entries[j as int].1)
        } else {
            Err(failure(ErrorKind::IncompatibleType, 0))
        },
        None => match field.default {
            Some(d) => Ok(d),
            None => Err(failure(ErrorKind::MissingRequiredField, 0)),
        },
    }
}

/// The fields that were resolved are the reader's fields, in the reader's
/// order, each with what it becomes on its own.
pub proof fn lemma_resolve_fields(
    w: SpecSchema,
    r: SpecSchema,
    entries: Seq<(Seq<char>, SpecValue)>,
    i: nat,
    acc: Seq<(Seq<char>, SpecValue)>,
)
    requires
        w is Record,
        r is Record,
        i <= r->fields.len(),
        resolve_fields(w, r, entries, i, acc) is Ok,
    ensures
        ({
            let out = resolve_fields(w, r, entries, i, acc)->Ok_0;
            &&& out.len() == acc.len() + r->fields.len() - i
            &&& forall|k: int| 0 <= k < acc.len() ==> out[k] == acc[k]
            &&& forall|k: int|
                i <= k < r->fields.len() ==> (#[trigger] out[acc.len() + k - i]).0
                    == r->fields[k].name && field_outcome(w, r, entries, k) == Ok::<
                    SpecValue,
                    SpecError,
                >(out[acc.len() + k - i].1)
        }),
    decreases r->fields.len() - i,
{
    if i < r->fields.len() {
        let field = r->fields[i as int];
        let value = field_outcome(w, r, entries, i as int)->Ok_0;
        let longer = acc.push((field.name, value));
        lemma_resolve_fields(w, r, entries, i + 1, longer);
        let out = resolve_fields(w, r, entries, i, acc)->Ok_0;
        assert forall|k: int| 0 <= k < acc.len() implies out[k] == acc[k] by {
            assert(longer[k] == acc[k]);
        }
        assert forall|k: int| i <= k < r->fields.len() implies (#[trigger] out[acc.len() + k
            - i]).0 == r->fields[k].name && field_outcome(w, r, entries, k) == Ok::<
            SpecValue,
            SpecError,
        >(out[acc.len() + k - i].1) by {
            if k == i {
                assert(out[acc.len() as int] == longer[acc.len() as int]);
            } else {
                assert(out[longer.len() + k - (i + 1)] == out[acc.len() + k - i]);
            }
        }
    }
}

/// The first of the reader's fields at or behind `from` that cannot be
/// resolved.
pub open spec fn first_failing_field(
    w: SpecSchema,
    r: SpecSchema,
    entries: Seq<(Seq<char>, SpecValue)>,
    from: nat,
) -> Option<nat>
    decreases r->fields.len() - from,
{
    if !(r is Record) || from >= r->fields.len() {
        None
    } else if field_outcome(w, r, entries, from as int) is Err {
        Some(from)
    } else {
        first_failing_field(w, r, entries, from + 1)
    }
}

proof fn lemma_fields_fail_with_the_first(
    w: SpecSchema,
    r: SpecSchema,
    entries: Seq<(Seq<char>, SpecValue)>,
    i: nat,
    acc: Seq<(Seq<char>, SpecValue)>,
)
    requires
        w is Record,
        r is Record,
        i <= r->fields.len(),
    ensures
        match first_failing_field(w, r, entries, i) {
            Some(k) => k < r->fields.len() && resolve_fields(w, r, entries, i, acc) == Err::<
                Seq<(Seq<char>, SpecValue)>,
                SpecError,
            >(field_outcome(w, r, entries, k as int)->Err_0.within(r->fields[k as int].name)),
            None => resolve_fields(w, r, entries, i, acc) is Ok,
        },
    decreases r->fields.len() - i,
{
    if i < r->fields.len() {
        let field = r->fields[i as int];
        if let Ok(v) = field_outcome(w, r, entries, i as int) {
            lemma_fields_fail_with_the_first(w, r, entries, i + 1, acc.push((field.name, v)));
        }
    }
}

/// A record is resolved where each field of the reader can be resolved on its
/// own; where one cannot, the failure is that of the first such field, seen
/// from outside the field, and nothing is given of the fields before it.
pub proof fn lemma_record_fails_with_its_first_failing_field(
    w: SpecSchema,
    r: SpecSchema,
    v: SpecValue,
)
    requires
        w is Record,
        r is Record,
        v is Record,
        v->Record_0.len() == w->fields.len(),
    ensures
        match first_failing_field(w, r, v->Record_0, 0) {
            Some(k) => k < r->fields.len() && resolve_spec(w, r, v) == Err::<SpecValue, SpecError>(
                field_outcome(w, r, v->Record_0, k as int)->Err_0.within(r->fields[k as int].name),
            ),
            None => resolve_spec(w, r, v) is Ok,
        },
{
    lemma_fields_fail_with_the_first(w, r, v->Record_0, 0, Seq::empty());
}

/// A record that was resolved has the reader's fields and no others, in the
/// reader's order: a field that only the writer has is not among them, and
/// each field of the reader holds the writer's field that it stands for,
/// resolved, or its default.
pub proof fn lemma_resolved_record(w: SpecSchema, r: SpecSchema, v: SpecValue)
    requires
        w is Record,
        r is Record,
        resolve_spec(w, r, v) is Ok,
    ensures
        v is Record,
        ({
            let out = resolve_spec(w, r, v)->Ok_0;
            &&& out is Record
            &&& out->Record_0.len() == r->fields.len()
            &&& forall|k: int|
                0 <= k < r->fields.len() ==> (#[trigger] out->Record_0[k]).0 == r->fields[k].name
                    && field_outcome(w, r, v->Record_0, k) == Ok::<SpecValue, SpecError>(
                    out->Record_0[k].1,
                )
        }),
{
    let entries = v->Record_0;
    lemma_resolve_fields(w, r, entries, 0, Seq::empty());
    let out = resolve_fields(w, r, entries, 0, Seq::empty())->Ok_0;
    assert forall|k: int| 0 <= k < r->fields.len() implies (#[trigger] out[k]).0
        == r->fields[k].name && field_outcome(w, r, entries, k) == Ok::<SpecValue, SpecError>(
        out[k].1,
    ) by {
        assert(out[0 + k - 0] == out[k]);
    }
}

/// The items that were resolved are the items that were written, in order,
/// each resolved on its own.
pub proof fn lemma_resolve_items(
    w: SpecSchema,
    r: SpecSchema,
    items: Seq<SpecValue>,
    i: nat,
    acc: Seq<SpecValue>,
)
    requires
        w is Array,
        r is Array,
        i <= items.len(),
        resolve_items(w, r, items, i, acc) is Ok,
    ensures
        ({
            let out = resolve_items(w, r, items, i, acc)->Ok_0;
            &&& out.len() == acc.len() + items.len() - i
            &&& forall|k: int| 0 <= k < acc.len() ==> out[k] == acc[k]
            &&& forall|k: int|
                i <= k < items.len() ==> resolve_spec(*w->Array_0, *r->Array_0, items[k]) == Ok::<
                    SpecValue,
                    SpecError,
                >(#[trigger] out[acc.len() + k - i])
        }),
    decreases items.len() - i,
{
    if i < items.len() {
        let value = resolve_spec(*w->Array_0, *r->Array_0, items[i as int])->Ok_0;
        let longer = acc.push(value);
        lemma_resolve_items(w, r, items, i + 1, longer);
        let out = resolve_items(w, r, items, i, acc)->Ok_0;
        assert forall|k: int| 0 <= k < acc.len() implies out[k] == acc[k] by {
            assert(longer[k] == acc[k]);
        }
        assert forall|k: int| i <= k < items.len() implies resolve_spec(
            *w->Array_0,
            *r->Array_0,
            items[k],
        ) == Ok::<SpecValue, SpecError>(#[trigger] out[acc.len() + k - i]) by {
            if k == i {
                assert(out[acc.len() as int] == longer[acc.len() as int]);
            } else {
                assert(out[longer.len() + k - (i + 1)] == out[acc.len() + k - i]);
            }
        }
    }
}

/// The entries that were resolved are the entries that were written, in
/// order and under their keys, each value resolved on its own.
pub proof fn lemma_resolve_entries(
    w: SpecSchema,
    r: SpecSchema,
    entries: Seq<(Seq<char>, SpecValue)>,
    i: nat,
    acc: Seq<(Seq<char>, SpecValue)>,
)
    requires
        w is Dict,
        r is Dict,
        i <= entries.len(),
        resolve_entries(w, r, entries, i, acc) is Ok,
    ensures
        ({
            let out = resolve_entries(w, r, entries, i, acc)->Ok_0;
            &&& out.len() == acc.len() + entries.len() - i
            &&& forall|k: int| 0 <= k < acc.len() ==> out[k] == acc[k]
            &&& forall|k: int|
                i <= k < entries.len() ==> (#[trigger] out[acc.len() + k - i]).0 == entries[k].0
                    && resolve_spec(*w->Dict_0, *r->Dict_0, entries[k].1) == Ok::<
                    SpecValue,
                    SpecError,
                >(out[acc.len() + k - i].1)
        }),
    decreases entries.len() - i,
{
    if i < entries.len() {
        let value = resolve_spec(*w->Dict_0, *r->Dict_0, entries[i as int].1)->Ok_0;
        let longer = acc.push((entries[i as int].0, value));
        lemma_resolve_entries(w, r, entries, i + 1, longer);
        let out = resolve_entries(w, r, entries, i, acc)->Ok_0;
        assert forall|k: int| 0 <= k < acc.len() implies out[k] == acc[k] by {
            assert(longer[k] == acc[k]);
        }
        assert forall|k: int| i <= k < entries.len() implies (#[trigger] out[acc.len() + k
            - i]).0 == entries[k].0 && resolve_spec(*w->Dict_0, *r->Dict_0, entries[k].1) == Ok::<
            SpecValue,
            SpecError,
        >(out[acc.len() + k - i].1) by {
            if k == i {
                assert(out[acc.len() as int] == longer[acc.len() as int]);
            } else {
                assert(out[longer.len() + k - (i + 1)] == out[acc.len() + k - i]);
            }
        }
    }
}

/// Where every field of the reader can be resolved, none is the first that
/// cannot.
pub proof fn lemma_no_failing_field(
    w: SpecSchema,
    r: SpecSchema,
    entries: Seq<(Seq<char>, SpecValue)>,
    from: nat,
)
    requires
        r is Record,
        forall|k: int| from <= k < r->fields.len() ==> field_outcome(w, r, entries, k) is Ok,
    ensures
        first_failing_field(w, r, entries, from) is None,
    decreases r->fields.len() - from,
{
    if from < r->fields.len() {
        lemma_no_failing_field(w, r, entries, from + 1);
    }
}

} // verus!
