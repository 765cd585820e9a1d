use vstd::prelude::*;

verus! {

/// A JSON number: a nonnegative integer, a negative integer, or a
/// double-precision value given by its IEEE 754 bit pattern.
///
/// Keeping the double as its raw bit pattern lets the rest of the library
/// reason about numbers with plain integers; whoever builds a `Number`
/// supplies the bits (`f64::to_bits`) and is expected to supply a finite
/// value, since a JSON document cannot hold an infinity or a NaN.
#[derive(Debug, Clone, Copy, PartialEq, Eq, Structural)]
pub enum Number {
    /// An integer in `0 ..= u64::MAX`.
    PosInt(u64),
    /// A negative integer.
    NegInt(i64),
    /// The IEEE 754 bit pattern of a double-precision value.
    Float(u64),
}

/// A JSON-like value tree: the document model that paths address.
///
/// An object is a sequence of key/value entries in insertion order; the
/// operations that add keys keep the keys unique.
#[derive(Debug, PartialEq, Eq)]
pub enum Value {
    Null,
    Bool(bool),
    Number(Number),
    String(String),
    Array(Vec<Value>),
    Object(Vec<(String, Value)>),
}

/// The mathematical model of a value tree: strings become sequences of
/// characters and the containers become sequences.
#[verifier::ext_equal]
pub enum SpecValue {
    Null,
    Bool(bool),
    Number(Number),
    String(Seq<char>),
    Array(Seq<SpecValue>),
    Object(Seq<(Seq<char>, SpecValue)>),
}

pub open spec fn view_of(v: Value) -> SpecValue
    decreases v,
{
    match v {
        Value::Null => SpecValue::Null,
        Value::Bool(b) => SpecValue::Bool(b),
        Value::Number(n) => SpecValue::Number(n),
        Value::String(s) => SpecValue::String(s@),
        Value::Array(items) => SpecValue::Array(items_view(items)),
        Value::Object(entries) => SpecValue::Object(entries_view(entries)),
    }
}

/// The model of an array's items.
pub open spec fn items_view(items: Vec<Value>) -> Seq<SpecValue>
    decreases items,
    via items_view_decreases
{
    Seq::new(
        items@.len(),
        |i: int|
            if 0 <= i < items.len() {
                view_of(items[i])
            } else {
                SpecValue::Null
            },
    )
}

#[via_fn]
proof fn items_view_decreases(items: Vec<Value>) {
    assert forall|i: int| 0 <= i < items@.len() implies #[trigger] (decreases_to!(
        items => items[i],
    )) by {}
}

/// The model of an object's key/value entries, in order.
pub open spec fn entries_view(entries: Vec<(String, Value)>) -> Seq<(Seq<char>, SpecValue)>
    decreases entries,
    via entries_view_decreases
{
    Seq::new(
        entries@.len(),
        |i: int|
            if 0 <= i < entries.len() {
                (entries[i].0@, view_of(entries[i].1))
            } else {
                (Seq::empty(), SpecValue::Null)
            },
    )
}

#[via_fn]
proof fn entries_view_decreases(entries: Vec<(String, Value)>) {
    assert forall|i: int| 0 <= i < entries@.len() implies #[trigger] (decreases_to!(
        entries => entries[i],
    )) by {}
}

impl View for Value {
    type V = SpecValue;

    open spec fn view(&self) -> SpecValue {
        view_of(*self)
    }
}

/// Keeps the model of a container value available as a term wherever its
/// view occurs, which proofs about rebuilt trees rely on.
pub broadcast proof fn lemma_view_of_unfold(v: Value)
    ensures
        #[trigger] view_of(v) == match v {
            Value::Null => SpecValue::Null,
            Value::Bool(b) => SpecValue::Bool(b),
            Value::Number(n) => SpecValue::Number(n),
            Value::String(s) => SpecValue::String(s@),
            Value::Array(items) => SpecValue::Array(items_view(items)),
            Value::Object(entries) => SpecValue::Object(entries_view(entries)),
        },
{
}

/// Replacing one item of an array replaces the same position of its model.
pub proof fn lemma_items_view_update(v1: Vec<Value>, j: int)
    requires
        0 <= j < v1@.len(),
    ensures
        forall|v2: Vec<Value>, c: Value|
            #![trigger items_view(v2), view_of(c)]
            v2@ == v1@.update(j, c) ==> items_view(v2) == items_view(v1).update(j, view_of(c)),
{
    assert forall|v2: Vec<Value>, c: Value|
        #![trigger items_view(v2), view_of(c)]
        v2@ == v1@.update(j, c) implies items_view(v2) == items_view(v1).update(
        j,
        view_of(c),
    ) by {
        assert(items_view(v2) =~= items_view(v1).update(j, view_of(c)));
    }
}

/// Inserting an item into an array inserts its model at the same position.
pub proof fn lemma_items_view_insert(v1: Vec<Value>, j: int)
    requires
        0 <= j <= v1@.len(),
    ensures
        forall|v2: Vec<Value>, c: Value|
            #![trigger items_view(v2), view_of(c)]
            v2@ == v1@.insert(j, c) ==> items_view(v2) == items_view(v1).insert(j, view_of(c)),
{
    assert forall|v2: Vec<Value>, c: Value|
        #![trigger items_view(v2), view_of(c)]
        v2@ == v1@.insert(j, c) implies items_view(v2) == items_view(v1).insert(
        j,
        view_of(c),
    ) by {
        assert(items_view(v2) =~= items_view(v1).insert(j, view_of(c)));
    }
}

/// Removing an item from an array removes the same position of its model.
pub proof fn lemma_items_view_remove(v1: Vec<Value>, j: int)
    requires
        0 <= j < v1@.len(),
    ensures
        forall|v2: Vec<Value>|
            #![trigger items_view(v2)]
            v2@ == v1@.remove(j) ==> items_view(v2) == items_view(v1).remove(j),
{
    assert forall|v2: Vec<Value>|
        #![trigger items_view(v2)]
        v2@ == v1@.remove(j) implies items_view(v2) == items_view(v1).remove(j) by {
        assert(items_view(v2) =~= items_view(v1).remove(j));
    }
}

/// Appending an entry to an object appends its model.
pub proof fn lemma_entries_view_push(e1: Vec<(String, Value)>)
    ensures
        forall|e2: Vec<(String, Value)>, k: String, c: Value|
            #![trigger entries_view(e2), k@, view_of(c)]
            e2@ == e1@.push((k, c)) ==> entries_view(e2) == entries_view(e1).push(
                (k@, view_of(c)),
            ),
{
    assert forall|e2: Vec<(String, Value)>, k: String, c: Value|
        #![trigger entries_view(e2), k@, view_of(c)]
        e2@ == e1@.push((k, c)) implies entries_view(e2) == entries_view(e1).push(
        (k@, view_of(c)),
    ) by {
        assert(entries_view(e2) =~= entries_view(e1).push((k@, view_of(c))));
    }
}

/// Removing an entry from an object removes the same position of its model.
pub proof fn lemma_entries_view_remove(e1: Vec<(String, Value)>, j: int)
    requires
        0 <= j < e1@.len(),
    ensures
        forall|e2: Vec<(String, Value)>|
            #![trigger entries_view(e2)]
            e2@ == e1@.remove(j) ==> entries_view(e2) == entries_view(e1).remove(j),
{
    assert forall|e2: Vec<(String, Value)>|
        #![trigger entries_view(e2)]
        e2@ == e1@.remove(j) implies entries_view(e2) == entries_view(e1).remove(j) by {
        assert(entries_view(e2) =~= entries_view(e1).remove(j));
    }
}

/// Replacing the value of one entry of an object, keeping its key, replaces
/// the same position of its model.
pub proof fn lemma_entries_view_update(e1: Vec<(String, Value)>, j: int)
    requires
        0 <= j < e1@.len(),
    ensures
        forall|e2: Vec<(String, Value)>, c: Value|
            #![trigger entries_view(e2), view_of(c)]
            e2@ == e1@.update(j, (e1@[j].0, c)) ==> entries_view(e2) == entries_view(e1).update(
                j,
                (e1@[j].0@, view_of(c)),
            ),
{
    assert forall|e2: Vec<(String, Value)>, c: Value|
        #![trigger entries_view(e2), view_of(c)]
        e2@ == e1@.update(j, (e1@[j].0, c)) implies entries_view(e2) == entries_view(e1).update(
        j,
        (e1@[j].0@, view_of(c)),
    ) by {
        assert(entries_view(e2) =~= entries_view(e1).update(j, (e1@[j].0@, view_of(c))));
    }
}

} // verus!
