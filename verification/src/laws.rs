use vstd::prelude::*;

use crate::json_path::{JsonPathIndex, SpecPathElement};
use crate::mutate::{spec_insert, spec_remove, spec_set};
use crate::navigate::{
    lemma_find_snoc, lemma_find_update, spec_find, spec_obj_index, spec_update,
};
use crate::value::SpecValue;

verus! {

/// Inserting through a path that ends in an in-range index from the front
/// of a resolved array always applies; afterwards the same path resolves
/// to the inserted value, and the array is longer by exactly one.
pub proof fn lemma_insert_then_find(
    v: SpecValue,
    path: Seq<SpecPathElement>,
    i: usize,
    x: SpecValue,
)
    requires
        path.len() > 0,
        path.last() == SpecPathElement::Index(JsonPathIndex::NthLefth(i)),
        spec_find(v, path.drop_last()) matches Some(parent),
        spec_find(v, path.drop_last()).unwrap() matches SpecValue::Array(items) && i <= items.len(),
    ensures
        spec_insert(v, path, x) is Some,
        spec_find(spec_insert(v, path, x).unwrap(), path) == Some(x),
        spec_find(spec_insert(v, path, x).unwrap(), path.drop_last()) matches Some(newp),
        spec_find(spec_insert(v, path, x).unwrap(), path.drop_last()).unwrap() matches SpecValue::Array(
            grown,
        ) && grown.len() == spec_find(v, path.drop_last()).unwrap()->Array_0.len() + 1,
{
    let rest = path.drop_last();
    let items = spec_find(v, rest).unwrap()->Array_0;
    let edited = SpecValue::Array(items.insert(i as int, x));
    let w = spec_update(v, rest, edited);
    lemma_find_update(v, rest, edited);
    lemma_find_snoc(w, path);
    assert(spec_find(w, rest) == Some(edited));
    assert(items.insert(i as int, x)[i as int] == x);
}

/// Inserting through a path that ends in the append marker — zero counted
/// from the end — always applies on a resolved array, and appends: the
/// array afterwards is the old one with the value at its back.
pub proof fn lemma_insert_append(v: SpecValue, path: Seq<SpecPathElement>, x: SpecValue)
    requires
        path.len() > 0,
        path.last() == SpecPathElement::Index(JsonPathIndex::NthRight(0)),
        spec_find(v, path.drop_last()) matches Some(parent),
        spec_find(v, path.drop_last()).unwrap() is Array,
    ensures
        spec_insert(v, path, x) is Some,
        spec_find(spec_insert(v, path, x).unwrap(), path.drop_last()) == Some(
            SpecValue::Array(spec_find(v, path.drop_last()).unwrap()->Array_0.push(x)),
        ),
{
    let rest = path.drop_last();
    let items = spec_find(v, rest).unwrap()->Array_0;
    assert(items.insert(items.len() as int, x) =~= items.push(x));
    let edited = SpecValue::Array(items.push(x));
    lemma_find_update(v, rest, edited);
}

/// An index counted from the end that reaches back past the array's length
/// makes insert, set and remove all fail — and their contracts say a
/// failed operation leaves the tree exactly as it was.
pub proof fn lemma_from_end_out_of_range(
    v: SpecValue,
    path: Seq<SpecPathElement>,
    i: usize,
    x: SpecValue,
)
    requires
        path.len() > 0,
        path.last() == SpecPathElement::Index(JsonPathIndex::NthRight(i)),
        (match spec_find(v, path.drop_last()) {
            Some(parent) => parent matches SpecValue::Array(items) ==> i > items.len(),
            None => true,
        }),
    ensures
        spec_insert(v, path, x) is None,
        spec_set(v, path, x) is None,
        spec_remove(v, path) is None,
{
}

/// Under an object field at a resolved parent, `set` always applies, with
/// or without the key; `insert` applies exactly where the key is absent.
pub proof fn lemma_object_field_set_insert(
    v: SpecValue,
    path: Seq<SpecPathElement>,
    key: Seq<char>,
    x: SpecValue,
)
    requires
        path.len() > 0,
        path.last() == SpecPathElement::Field(key),
        spec_find(v, path.drop_last()) matches Some(parent),
        spec_find(v, path.drop_last()).unwrap() is Object,
    ensures
        spec_set(v, path, x) is Some,
        spec_insert(v, path, x) is Some <==> spec_obj_index(
            spec_find(v, path.drop_last()).unwrap()->Object_0,
            key,
        ) == -1,
{
}

/// `replace` applies exactly where the full path already resolves: it
/// never creates a key or an index that did not resolve before, and where
/// it applies, the path afterwards resolves to the written value.
pub proof fn lemma_replace_only_existing(v: SpecValue, path: Seq<SpecPathElement>, x: SpecValue)
    ensures
        crate::mutate::spec_replace(v, path, x) is Some <==> spec_find(v, path) is Some,
        crate::mutate::spec_replace(v, path, x) matches Some(w) ==> spec_find(w, path) == Some(x),
{
    if spec_find(v, path) is Some {
        lemma_find_update(v, path, x);
    }
}

} // verus!
