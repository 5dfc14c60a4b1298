//! Values of the data model.

use vstd::prelude::*;

verus! {

/// Mathematical model of a [`Value`].
pub enum SpecValue {
    Null,
    Boolean(bool),
    Int(i32),
    Long(i64),
    Float(u32),
    Double(u64),
    Bytes(Seq<u8>),
    String(Seq<char>),
    Record(Seq<(Seq<char>, SpecValue)>),
    Enum(u32, Seq<char>),
    Array(Seq<SpecValue>),
    Dict(Seq<(Seq<char>, SpecValue)>),
    Union(u32, Box<SpecValue>),
    Fixed(Seq<u8>),
}

/// A value as it is written or read.
///
/// `Float` and `Double` hold the IEEE 754 bit pattern of the number. `Record`
/// holds its fields by name in schema order, `Enum` the position and the text
/// of the symbol, `Union` the position of the branch and its value, `Dict` its
/// entries in the order in which they are written.
#[derive(Debug, PartialEq, Eq)]
pub enum Value {
    Null,
    Boolean(bool),
    Int(i32),
    Long(i64),
    Float(u32),
    Double(u64),
    Bytes(Vec<u8>),
    String(String),
    Record(Vec<(String, Value)>),
    Enum(u32, String),
    Array(Vec<Value>),
    Dict(Vec<(String, Value)>),
    Union(u32, Box<Value>),
    Fixed(Vec<u8>),
}

impl Value {
    /// The value as mathematics sees it; `@` gives the same.
    pub open spec fn model(&self) -> SpecValue
        decreases self,
    {
        match self {
            Value::Null => SpecValue::Null,
            Value::Boolean(b) => SpecValue::Boolean(*b),
            Value::Int(n) => SpecValue::Int(*n),
            Value::Long(n) => SpecValue::Long(*n),
            Value::Float(bits) => SpecValue::Float(*bits),
            Value::Double(bits) => SpecValue::Double(*bits),
            Value::Bytes(bytes) => SpecValue::Bytes(bytes@),
            Value::String(text) => SpecValue::String(text@),
            Value::Record(fields) => SpecValue::Record(
                Seq::new(
                    fields.len() as nat,
                    |i: int|
                        if 0 <= i < fields.len() {
                            (fields[i].0@, fields[i].1.model())
                        } else {
                            (Seq::empty(), SpecValue::Null)
                        },
                ),
            ),
            Value::Enum(position, symbol) => SpecValue::Enum(*position, symbol@),
            Value::Array(items) => SpecValue::Array(
                Seq::new(
                    items.len() as nat,
                    |i: int|
                        if 0 <= i < items.len() {
                            items[i].model()
                        } else {
                            SpecValue::Null
                        },
                ),
            ),
            Value::Dict(entries) => SpecValue::Dict(
                Seq::new(
                    entries.len() as nat,
                    |i: int|
                        if 0 <= i < entries.len() {
                            (entries[i].0@, entries[i].1.model())
                        } else {
                            (Seq::empty(), SpecValue::Null)
                        },
                ),
            ),
            Value::Union(position, inner) => SpecValue::Union(*position, Box::new(inner.model())),
            Value::Fixed(bytes) => SpecValue::Fixed(bytes@),
        }
    }
}

impl View for Value {
    type V = SpecValue;

    open spec fn view(&self) -> SpecValue {
        self.model()
    }
}

/// The models of a list of values, in order.
pub open spec fn models(items: Seq<Value>) -> Seq<SpecValue> {
    Seq::new(items.len(), |i: int| items[i]@)
}

/// The models of a list of named values, in order.
pub open spec fn entry_models(entries: Seq<(String, Value)>) -> Seq<(Seq<char>, SpecValue)> {
    Seq::new(entries.len(), |i: int| (entries[i].0@, entries[i].1@))
}

/// The model of a container is the list of the models of what it holds.
pub proof fn lemma_model_unfolds(v: Value)
    ensures
        v matches Value::Record(fields) ==> v@ == SpecValue::Record(entry_models(fields@)),
        v matches Value::Dict(entries) ==> v@ == SpecValue::Dict(entry_models(entries@)),
        v matches Value::Array(items) ==> v@ == SpecValue::Array(models(items@)),
        v matches Value::Union(position, inner) ==> v@ == SpecValue::Union(
            position,
            Box::new(inner@),
        ),
{
    match v {
        Value::Record(fields) => {
            assert(v@->Record_0 =~= entry_models(fields@));
        },
        Value::Dict(entries) => {
            assert(v@->Dict_0 =~= entry_models(entries@));
        },
        Value::Array(items) => {
            assert(v@->Array_0 =~= models(items@));
        },
        _ => {},
    }
}

/// A copy of the bytes.
pub fn copy_bytes(bytes: &Vec<u8>) -> (r: Vec<u8>)
    ensures
        r@ == bytes@,
{
    vstd::slice::slice_to_vec(bytes.as_slice())
}

fn clone_entries(entries: &Vec<(String, Value)>) -> (r: Vec<(String, Value)>)
    ensures
        entry_models(r@) == entry_models(entries@),
    decreases entries,
{
    let mut out: Vec<(String, Value)> = Vec::new();
    let mut i: usize = 0;
    while i < entries.len()
        invariant
            0 <= i <= entries.len(),
            out.len() == i,
            forall|j: int|
                0 <= j < i ==> (#[trigger] out[j]).0@ == entries[j].0@ && out[j].1@
                    == entries[j].1@,
        decreases entries.len() - i,
    {
        let value = entries[i].1.deep_clone();
        out.push((entries[i].0.clone(), value));
        i += 1;
    }
    assert(entry_models(out@) =~= entry_models(entries@));
    out
}

fn clone_items(items: &Vec<Value>) -> (r: Vec<Value>)
    ensures
        models(r@) == models(items@),
    decreases items,
{
    let mut out: Vec<Value> = Vec::new();
    let mut i: usize = 0;
    while i < items.len()
        invariant
            0 <= i <= items.len(),
            out.len() == i,
            forall|j: int| 0 <= j < i ==> (#[trigger] out[j])@ == items[j]@,
        decreases items.len() - i,
    {
        let value = items[i].deep_clone();
        out.push(value);
        i += 1;
    }
    assert(models(out@) =~= models(items@));
    out
}

impl Value {
    /// A copy of the value.
    pub fn deep_clone(&self) -> (r: Value)
        ensures
            r@ == self@,
        decreases self,
    {
        let r = match self {
            Value::Null => Value::Null,
            Value::Boolean(b) => Value::Boolean(*b),
            Value::Int(n) => Value::Int(*n),
            Value::Long(n) => Value::Long(*n),
            Value::Float(bits) => Value::Float(*bits),
            Value::Double(bits) => Value::Double(*bits),
            Value::Bytes(bytes) => Value::Bytes(copy_bytes(bytes)),
            Value::String(text) => Value::String(text.clone()),
            Value::Record(fields) => Value::Record(clone_entries(fields)),
            Value::Enum(position, symbol) => Value::Enum(*position, symbol.clone()),
            Value::Array(items) => Value::Array(clone_items(items)),
            Value::Dict(entries) => Value::Dict(clone_entries(entries)),
            Value::Union(position, inner) => Value::Union(*position, Box::new(inner.deep_clone())),
            Value::Fixed(bytes) => Value::Fixed(copy_bytes(bytes)),
        };
        proof {
            lemma_model_unfolds(r);
            lemma_model_unfolds(*self);
        }
        r
    }
}

impl Clone for Value {
    fn clone(&self) -> (r: Value)
        ensures
            r@ == self@,
    {
        self.deep_clone()
    }
}

/// Whether two runs of bytes are equal.
pub fn same_bytes(a: &[u8], b: &[u8]) -> (same: bool)
    ensures
        same == (a@ == b@),
{
    if a.len() != b.len() {
        return false;
    }
    let mut i: usize = 0;
    while i < a.len()
        invariant
            a.len() == b.len(),
            0 <= i <= a.len(),
            forall|j: int| 0 <= j < i ==> a@[j] == b@[j],
        decreases a.len() - i,
    {
        if a[i] != b[i] {
            return false;
        }
        i += 1;
    }
    assert(a@ =~= b@);
    true
}

fn same_entries(a: &Vec<(String, Value)>, b: &Vec<(String, Value)>) -> (same: bool)
    ensures
        same == (entry_models(a@) == entry_models(b@)),
    decreases a,
{
    let ghost left = entry_models(a@);
    let ghost right = entry_models(b@);
    if a.len() != b.len() {
        assert(left.len() != right.len());
        return false;
    }
    let mut i: usize = 0;
    while i < a.len()
        invariant
            left == entry_models(a@),
            right == entry_models(b@),
            a.len() == b.len(),
            0 <= i <= a.len(),
            forall|j: int| 0 <= j < i ==> left[j] == right[j],
        decreases a.len() - i,
    {
        if !(a[i].0 == b[i].0) || !a[i].1.same_as(&b[i].1) {
            assert(left[i as int] != right[i as int]);
            return false;
        }
        i += 1;
    }
    assert(left =~= right);
    true
}

fn same_items(a: &Vec<Value>, b: &Vec<Value>) -> (same: bool)
    ensures
        same == (models(a@) == models(b@)),
    decreases a,
{
    let ghost left = models(a@);
    let ghost right = models(b@);
    if a.len() != b.len() {
        assert(left.len() != right.len());
        return false;
    }
    let mut i: usize = 0;
    while i < a.len()
        invariant
            left == models(a@),
            right == models(b@),
            a.len() == b.len(),
            0 <= i <= a.len(),
            forall|j: int| 0 <= j < i ==> left[j] == right[j],
        decreases a.len() - i,
    {
        if !a[i].same_as(&b[i]) {
            assert(left[i as int] != right[i as int]);
            return false;
        }
        i += 1;
    }
    assert(left =~= right);
    true
}

impl Value {
    /// Whether the two values are equal.
    pub fn same_as(&self, other: &Value) -> (same: bool)
        ensures
            same == (self@ == other@),
        decreases self,
    {
        proof {
            lemma_model_unfolds(*self);
            lemma_model_unfolds(*other);
        }
        match (self, other) {
            (Value::Null, Value::Null) => true,
            (Value::Boolean(a), Value::Boolean(b)) => *a == *b,
            (Value::Int(a), Value::Int(b)) => *a == *b,
            (Value::Long(a), Value::Long(b)) => *a == *b,
            (Value::Float(a), Value::Float(b)) => *a == *b,
            (Value::Double(a), Value::Double(b)) => *a == *b,
            (Value::Bytes(a), Value::Bytes(b)) => same_bytes(a.as_slice(), b.as_slice()),
            (Value::String(a), Value::String(b)) => *a == *b,
            (Value::Record(a), Value::Record(b)) => same_entries(a, b),
            (Value::Enum(m, a), Value::Enum(n, b)) => *m == *n && *a == *b,
            (Value::Array(a), Value::Array(b)) => same_items(a, b),
            (Value::Dict(a), Value::Dict(b)) => same_entries(a, b),
            (Value::Union(m, a), Value::Union(n, b)) => *m == *n && a.same_as(b),
            (Value::Fixed(a), Value::Fixed(b)) => same_bytes(a.as_slice(), b.as_slice()),
            _ => false,
        }
    }
}

/// The value of the first entry at or behind `from` that is called `name`.
pub open spec fn entry_named(
    entries: Seq<(Seq<char>, SpecValue)>,
    name: Seq<char>,
    from: nat,
) -> Option<SpecValue>
    decreases entries.len() - from,
{
    if from >= entries.len() {
        None
    } else if entries[from as int].0 == name {
        Some(entries[from as int].1)
    } else {
        entry_named(entries, name, from + 1)
    }
}

impl Value {
    /// The value of the field `name` of a record, or of the entry `name` of a
    /// map: of the first one, where several are called so.
    pub fn get(&self, name: &str) -> (found: Option<&Value>)
        ensures
            match found {
                Some(v) => (self@ is Record || self@ is Dict) && entry_named(
                    if self@ is Record {
                        self@->Record_0
                    } else {
                        self@->Dict_0
                    },
                    name@,
                    0,
                ) == Some(v@),
                None => match self@ {
                    SpecValue::Record(entries) => entry_named(entries, name@, 0) is None,
                    SpecValue::Dict(entries) => entry_named(entries, name@, 0) is None,
                    _ => true,
                },
            },
    {
        proof {
            lemma_model_unfolds(*self);
        }
        let entries = match self {
            Value::Record(entries) => entries,
            Value::Dict(entries) => entries,
            _ => {
                return None;
            },
        };
        let ghost es = entry_models(entries@);
        let wanted = name.to_owned();
        let mut i: usize = 0;
        while i < entries.len()
            invariant
                es == entry_models(entries@),
                (self@ is Record && self@->Record_0 == es) || (self@ is Dict && self@->Dict_0
                    == es),
                wanted@ == name@,
                0 <= i <= entries.len(),
                entry_named(es, name@, 0) == entry_named(es, name@, i as nat),
            decreases entries.len() - i,
        {
            if entries[i].0 == wanted {
                return Some(&entries[i].1);
            }
            i += 1;
        }
        None
    }
}

} // verus!
