use vstd::prelude::*;

use crate::json_path::{elems_view, JsonPath, JsonPathElement, JsonPathIndex, SpecPathElement};
use crate::value::{
    entries_view, items_view, lemma_entries_view_update, lemma_items_view_update,
    lemma_view_of_unfold, view_of, SpecValue, Value,
};

verus! {

/// The position of the first entry with the given key, or -1 when the key
/// is absent.
pub open spec fn spec_obj_index(entries: Seq<(Seq<char>, SpecValue)>, key: Seq<char>) -> int
    decreases entries.len(),
{
    if entries.len() == 0 {
        -1
    } else if entries[0].0 == key {
        0
    } else {
        let rest = spec_obj_index(entries.drop_first(), key);
        if rest == -1 {
            -1
        } else {
            rest + 1
        }
    }
}

pub proof fn lemma_obj_index(entries: Seq<(Seq<char>, SpecValue)>, key: Seq<char>)
    ensures
        spec_obj_index(entries, key) == -1 ==> forall|j: int|
            0 <= j < entries.len() ==> (#[trigger] entries[j]).0 != key,
        spec_obj_index(entries, key) != -1 ==> {
            let i = spec_obj_index(entries, key);
            &&& 0 <= i < entries.len()
            &&& entries[i].0 == key
            &&& forall|j: int| 0 <= j < i ==> (#[trigger] entries[j]).0 != key
        },
    decreases entries.len(),
{
    if entries.len() == 0 {
    } else if entries[0].0 == key {
    } else {
        lemma_obj_index(entries.drop_first(), key);
        assert forall|j: int| 1 <= j < entries.len() implies entries[j]
            == entries.drop_first()[j - 1] by {}
    }
}

/// Resolving one path element against a value: an object key looks the key
/// up, an index from the front must be in range, and an index from the end
/// must reach back no further than the array's length; `NthRight(0)` names
/// the position one past the last element and so never resolves.  A type
/// mismatch resolves to nothing.
pub open spec fn spec_get_elem(v: SpecValue, elem: SpecPathElement) -> Option<SpecValue> {
    match (elem, v) {
        (SpecPathElement::Field(key), SpecValue::Object(entries)) => {
            let i = spec_obj_index(entries, key);
            if i == -1 {
                None
            } else {
                Some(entries[i].1)
            }
        },
        (SpecPathElement::Index(JsonPathIndex::NthLefth(n)), SpecValue::Array(items)) => {
            if n < items.len() {
                Some(items[n as int])
            } else {
                None
            }
        },
        (SpecPathElement::Index(JsonPathIndex::NthRight(n)), SpecValue::Array(items)) => {
            if 1 <= n <= items.len() {
                Some(items[items.len() - n])
            } else {
                None
            }
        },
        _ => None,
    }
}

/// The value a path resolves to, walking the elements left to right; the
/// empty path resolves to the value itself.
pub open spec fn spec_find(v: SpecValue, path: Seq<SpecPathElement>) -> Option<SpecValue>
    decreases path.len(),
{
    if path.len() == 0 {
        Some(v)
    } else {
        match spec_get_elem(v, path[0]) {
            Some(sub) => spec_find(sub, path.drop_first()),
            None => None,
        }
    }
}

/// The tree with the value at the given path replaced by `sub`; where the
/// path does not resolve, the tree unchanged.
pub open spec fn spec_update(v: SpecValue, path: Seq<SpecPathElement>, sub: SpecValue) -> SpecValue
    decreases path.len(),
{
    if path.len() == 0 {
        sub
    } else {
        match (path[0], v) {
            (SpecPathElement::Field(key), SpecValue::Object(entries)) => {
                let i = spec_obj_index(entries, key);
                if i == -1 {
                    v
                } else {
                    SpecValue::Object(
                        entries.update(
                            i,
                            (entries[i].0, spec_update(entries[i].1, path.drop_first(), sub)),
                        ),
                    )
                }
            },
            (SpecPathElement::Index(JsonPathIndex::NthLefth(n)), SpecValue::Array(items)) => {
                if n < items.len() {
                    SpecValue::Array(
                        items.update(n as int, spec_update(items[n as int], path.drop_first(), sub)),
                    )
                } else {
                    v
                }
            },
            (SpecPathElement::Index(JsonPathIndex::NthRight(n)), SpecValue::Array(items)) => {
                if 1 <= n <= items.len() {
                    let pos = items.len() - n;
                    SpecValue::Array(
                        items.update(pos, spec_update(items[pos], path.drop_first(), sub)),
                    )
                } else {
                    v
                }
            },
            _ => v,
        }
    }
}

/// Updating a resolved path with the very value found there leaves the
/// tree as it was.
pub proof fn lemma_update_self(v: SpecValue, path: Seq<SpecPathElement>)
    requires
        spec_find(v, path) is Some,
    ensures
        spec_update(v, path, spec_find(v, path).unwrap()) == v,
    decreases path.len(),
{
    if path.len() == 0 {
    } else {
        match (path[0], v) {
            (SpecPathElement::Field(key), SpecValue::Object(entries)) => {
                let i = spec_obj_index(entries, key);
                lemma_obj_index(entries, key);
                lemma_update_self(entries[i].1, path.drop_first());
                assert((entries[i].0, entries[i].1) == entries[i]);
                assert(entries.update(i, entries[i]) =~= entries);
            },
            (SpecPathElement::Index(JsonPathIndex::NthLefth(n)), SpecValue::Array(items)) => {
                lemma_update_self(items[n as int], path.drop_first());
                assert(items.update(n as int, items[n as int]) =~= items);
            },
            (SpecPathElement::Index(JsonPathIndex::NthRight(n)), SpecValue::Array(items)) => {
                let pos = items.len() - n;
                lemma_update_self(items[pos], path.drop_first());
                assert(items.update(pos, items[pos]) =~= items);
            },
            _ => {},
        }
    }
}

/// A key resolves at the same position in two entry sequences whose keys
/// agree pointwise.
pub proof fn lemma_obj_index_same_keys(
    e1: Seq<(Seq<char>, SpecValue)>,
    e2: Seq<(Seq<char>, SpecValue)>,
    key: Seq<char>,
)
    requires
        e1.len() == e2.len(),
        forall|j: int| 0 <= j < e1.len() ==> (#[trigger] e1[j]).0 == e2[j].0,
    ensures
        spec_obj_index(e1, key) == spec_obj_index(e2, key),
    decreases e1.len(),
{
    if e1.len() > 0 {
        assert(e1[0].0 == e2[0].0);
        assert forall|j: int| 0 <= j < e1.drop_first().len() implies (#[trigger] e1.drop_first()[j]).0
            == e2.drop_first()[j].0 by {
            assert(e1.drop_first()[j] == e1[j + 1]);
            assert(e2.drop_first()[j] == e2[j + 1]);
        }
        lemma_obj_index_same_keys(e1.drop_first(), e2.drop_first(), key);
    }
}

/// A nonempty path resolves by resolving all elements but the last and then
/// the last one against what they reached.
pub proof fn lemma_find_snoc(v: SpecValue, path: Seq<SpecPathElement>)
    requires
        path.len() > 0,
    ensures
        spec_find(v, path) == (match spec_find(v, path.drop_last()) {
            Some(parent) => spec_get_elem(parent, path.last()),
            None => None,
        }),
    decreases path.len(),
{
    if path.len() == 1 {
        assert(path.drop_last() =~= Seq::<SpecPathElement>::empty());
        assert(path.drop_first() =~= Seq::<SpecPathElement>::empty());
    } else {
        assert(path.drop_last()[0] == path[0]);
        assert(path.drop_last().drop_first() =~= path.drop_first().drop_last());
        assert(path.drop_first().last() == path.last());
        match spec_get_elem(v, path[0]) {
            Some(sub) => {
                lemma_find_snoc(sub, path.drop_first());
            },
            None => {},
        }
    }
}

/// After rewriting the value a path resolves to, that path resolves to the
/// new value.
pub proof fn lemma_find_update(v: SpecValue, path: Seq<SpecPathElement>, sub: SpecValue)
    requires
        spec_find(v, path) is Some,
    ensures
        spec_find(spec_update(v, path, sub), path) == Some(sub),
    decreases path.len(),
{
    if path.len() == 0 {
    } else {
        match (path[0], v) {
            (SpecPathElement::Field(key), SpecValue::Object(entries)) => {
                let i = spec_obj_index(entries, key);
                lemma_obj_index(entries, key);
                let child2 = spec_update(entries[i].1, path.drop_first(), sub);
                let e2 = entries.update(i, (entries[i].0, child2));
                assert forall|j: int| 0 <= j < entries.len() implies (#[trigger] entries[j]).0
                    == e2[j].0 by {}
                lemma_obj_index_same_keys(e2, entries, key);
                lemma_find_update(entries[i].1, path.drop_first(), sub);
            },
            (SpecPathElement::Index(JsonPathIndex::NthLefth(n)), SpecValue::Array(items)) => {
                lemma_find_update(items[n as int], path.drop_first(), sub);
            },
            (SpecPathElement::Index(JsonPathIndex::NthRight(n)), SpecValue::Array(items)) => {
                lemma_find_update(items[items.len() - n], path.drop_first(), sub);
            },
            _ => {},
        }
    }
}

/// Linear scan for a key among an object's entries.
pub(crate) fn obj_index(entries: &Vec<(String, Value)>, key: &String) -> (r: Option<usize>)
    ensures
        match r {
            Some(j) => j < entries.len() && spec_obj_index(entries_view(*entries), key@) == j,
            None => spec_obj_index(entries_view(*entries), key@) == -1,
        },
{
    let ghost m = entries_view(*entries);
    let mut j: usize = 0;
    while j < entries.len()
        invariant
            j <= entries.len(),
            m == entries_view(*entries),
            forall|k: int| 0 <= k < j ==> (#[trigger] m[k]).0 != key@,
        decreases entries.len() - j,
    {
        if entries[j].0 == *key {
            proof {
                lemma_obj_index(m, key@);
                assert(m[j as int].0 == key@);
                let i = spec_obj_index(m, key@);
                if i == -1 {
                    assert(m[j as int].0 != key@);
                    assert(false);
                } else if i < j {
                    assert(m[i].0 != key@);
                    assert(false);
                } else if i > j {
                    assert(m[j as int].0 != key@);
                    assert(false);
                }
            }
            return Some(j);
        }
        j += 1;
    }
    proof {
        lemma_obj_index(m, key@);
    }
    None
}

/// Resolving one element against a value, read-only.
fn get_elem<'a>(value: &'a Value, elem: &JsonPathElement) -> (r: Option<&'a Value>)
    ensures
        match r {
            Some(sub) => spec_get_elem(value@, elem@) == Some(sub@),
            None => spec_get_elem(value@, elem@) is None,
        },
{
    match elem {
        JsonPathElement::Field(key) => match value {
            Value::Object(entries) => match obj_index(entries, key) {
                Some(j) => Some(&entries[j].1),
                None => None,
            },
            _ => None,
        },
        JsonPathElement::Index(JsonPathIndex::NthLefth(n)) => match value {
            Value::Array(items) => {
                if *n < items.len() {
                    Some(&items[*n])
                } else {
                    None
                }
            },
            _ => None,
        },
        JsonPathElement::Index(JsonPathIndex::NthRight(n)) => match value {
            Value::Array(items) => {
                if 1 <= *n && *n <= items.len() {
                    Some(&items[items.len() - *n])
                } else {
                    None
                }
            },
            _ => None,
        },
    }
}

/// Resolves the elements of `path` from position `i` up to (not including)
/// position `end` against `v`, yielding an exclusive view into the
/// addressed sub-value.
#[verifier::rlimit(50)]
pub(crate) fn find_mut_from<'a>(path: &Vec<JsonPathElement>, i: usize, end: usize, v: &'a mut Value) -> (r:
    Option<&'a mut Value>)
    requires
        i <= end <= path@.len(),
    ensures
        r is None ==> spec_find(old(v)@, elems_view(*path).subrange(i as int, end as int)) is None
            && final(v)@ == old(v)@,
        r is Some ==> spec_find(old(v)@, elems_view(*path).subrange(i as int, end as int)) == Some(
            (*r.unwrap())@,
        ) && final(v)@ == spec_update(
            old(v)@,
            elems_view(*path).subrange(i as int, end as int),
            (*final(r.unwrap()))@,
        ),
    decreases end - i,
{
    broadcast use lemma_view_of_unfold;

    let ghost rest = elems_view(*path).subrange(i as int, end as int);
    if i == end {
        return Some(v);
    }
    proof {
        assert(rest[0] == elems_view(*path)[i as int]);
        assert(rest.drop_first() =~= elems_view(*path).subrange(i as int + 1, end as int));
    }
    match &path[i] {
        JsonPathElement::Field(key) => match v {
            Value::Object(entries) => match obj_index(entries, key) {
                Some(j) => {
                    proof {
                        lemma_entries_view_update(*entries, j as int);
                        let m = entries_view(*entries);
                        assert((m[j as int].0, m[j as int].1) == m[j as int]);
                        assert(m.update(j as int, m[j as int]) =~= m);
                        assert forall|x: SpecValue| #[trigger] spec_update(
                            SpecValue::Object(m),
                            rest,
                            x,
                        ) == SpecValue::Object(
                            m.update(
                                j as int,
                                (m[j as int].0, spec_update(m[j as int].1, rest.drop_first(), x)),
                            ),
                        ) by {}
                    }
                    let child = &mut entries[j].1;
                    find_mut_from(path, i + 1, end, child)
                },
                None => None,
            },
            _ => None,
        },
        JsonPathElement::Index(JsonPathIndex::NthLefth(n)) => match v {
            Value::Array(items) => {
                if *n < items.len() {
                    proof {
                        lemma_items_view_update(*items, *n as int);
                        let mi = items_view(*items);
                        assert(mi.update(*n as int, mi[*n as int]) =~= mi);
                        assert forall|x: SpecValue| #[trigger] spec_update(
                            SpecValue::Array(mi),
                            rest,
                            x,
                        ) == SpecValue::Array(
                            mi.update(*n as int, spec_update(mi[*n as int], rest.drop_first(), x)),
                        ) by {}
                    }
                    let child = &mut items[*n];
                    find_mut_from(path, i + 1, end, child)
                } else {
                    None
                }
            },
            _ => None,
        },
        JsonPathElement::Index(JsonPathIndex::NthRight(n)) => match v {
            Value::Array(items) => {
                if 1 <= *n && *n <= items.len() {
                    let pos = items.len() - *n;
                    proof {
                        lemma_items_view_update(*items, pos as int);
                        let mi = items_view(*items);
                        assert(mi.update(pos as int, mi[pos as int]) =~= mi);
                        assert forall|x: SpecValue| #[trigger] spec_update(
                            SpecValue::Array(mi),
                            rest,
                            x,
                        ) == SpecValue::Array(
                            mi.update(pos as int, spec_update(mi[pos as int], rest.drop_first(), x)),
                        ) by {}
                    }
                    let child = &mut items[pos];
                    find_mut_from(path, i + 1, end, child)
                } else {
                    None
                }
            },
            _ => None,
        },
    }
}

impl JsonPath {
    /// Resolves the path against a value tree, read-only.  Yields the value
    /// the path addresses, or nothing where a step does not resolve.
    pub fn find<'a>(&self, value: &'a Value) -> (r: Option<&'a Value>)
        ensures
            match r {
                Some(found) => spec_find(value@, self@) == Some(found@),
                None => spec_find(value@, self@) is None,
            },
    {
        let mut cur: &Value = value;
        let mut i: usize = 0;
        proof {
            assert(self@.skip(0) =~= self@);
        }
        while i < self.0.len()
            invariant
                i <= self.0.len(),
                spec_find(value@, self@) == spec_find(cur@, self@.skip(i as int)),
            decreases self.0.len() - i,
        {
            let ghost rest = self@.skip(i as int);
            proof {
                assert(rest[0] == self@[i as int]);
                assert(rest.drop_first() =~= self@.skip(i as int + 1));
            }
            match get_elem(cur, &self.0[i]) {
                Some(sub) => {
                    cur = sub;
                },
                None => {
                    return None;
                },
            }
            i += 1;
        }
        Some(cur)
    }

    /// Resolves the path against a value tree for writing.  Yields an
    /// exclusive view into the addressed value, through which the caller may
    /// rewrite that one spot; the rest of the tree keeps its shape.
    pub fn find_mut<'a>(&self, value: &'a mut Value) -> (r: Option<&'a mut Value>)
        ensures
            r is None ==> spec_find(old(value)@, self@) is None && final(value)@ == old(value)@,
            r is Some ==> spec_find(old(value)@, self@) == Some((*r.unwrap())@) && final(value)@
                == spec_update(old(value)@, self@, (*final(r.unwrap()))@),
    {
        proof {
            assert(self@.subrange(0, self@.len() as int) =~= self@);
        }
        find_mut_from(&self.0, 0, self.0.len(), value)
    }
}

} // verus!
