use vstd::prelude::*;

use crate::json_path::{JsonPath, JsonPathElement, JsonPathIndex, SpecPathElement};
use crate::navigate::{
    find_mut_from, lemma_update_self, obj_index, spec_find, spec_obj_index, spec_update,
};
use crate::value::{
    entries_view, items_view, lemma_entries_view_push, lemma_entries_view_remove,
    lemma_entries_view_update, lemma_items_view_insert, lemma_items_view_remove,
    lemma_items_view_update, lemma_view_of_unfold, view_of, SpecValue, Value,
};

verus! {

/// Inserting under the last path element into its parent container: an
/// index must be at most the array's length (`NthRight(0)` appends), and an
/// object key must not be present yet.  Anything else is not applicable.
pub open spec fn spec_insert_elem(
    parent: SpecValue,
    last: SpecPathElement,
    sub: SpecValue,
) -> Option<SpecValue> {
    match (last, parent) {
        (SpecPathElement::Index(JsonPathIndex::NthLefth(n)), SpecValue::Array(items)) => {
            if n <= items.len() {
                Some(SpecValue::Array(items.insert(n as int, sub)))
            } else {
                None
            }
        },
        (SpecPathElement::Index(JsonPathIndex::NthRight(n)), SpecValue::Array(items)) => {
            if n <= items.len() {
                Some(SpecValue::Array(items.insert(items.len() - n, sub)))
            } else {
                None
            }
        },
        (SpecPathElement::Field(key), SpecValue::Object(entries)) => {
            if spec_obj_index(entries, key) == -1 {
                Some(SpecValue::Object(entries.push((key, sub))))
            } else {
                None
            }
        },
        _ => None,
    }
}

/// Overwriting under the last path element in its parent container: an
/// index must address an existing element (`NthRight(0)` is invalid here),
/// and an object key is written whether present or not.
pub open spec fn spec_set_elem(
    parent: SpecValue,
    last: SpecPathElement,
    sub: SpecValue,
) -> Option<SpecValue> {
    match (last, parent) {
        (SpecPathElement::Index(JsonPathIndex::NthLefth(n)), SpecValue::Array(items)) => {
            if n < items.len() {
                Some(SpecValue::Array(items.update(n as int, sub)))
            } else {
                None
            }
        },
        (SpecPathElement::Index(JsonPathIndex::NthRight(n)), SpecValue::Array(items)) => {
            if 1 <= n <= items.len() {
                Some(SpecValue::Array(items.update(items.len() - n, sub)))
            } else {
                None
            }
        },
        (SpecPathElement::Field(key), SpecValue::Object(entries)) => {
            let i = spec_obj_index(entries, key);
            if i == -1 {
                Some(SpecValue::Object(entries.push((key, sub))))
            } else {
                Some(SpecValue::Object(entries.update(i, (entries[i].0, sub))))
            }
        },
        _ => None,
    }
}

/// Removing under the last path element from its parent container: an index
/// must address an existing element, and an object key must be present.
pub open spec fn spec_remove_elem(parent: SpecValue, last: SpecPathElement) -> Option<SpecValue> {
    match (last, parent) {
        (SpecPathElement::Index(JsonPathIndex::NthLefth(n)), SpecValue::Array(items)) => {
            if n < items.len() {
                Some(SpecValue::Array(items.remove(n as int)))
            } else {
                None
            }
        },
        (SpecPathElement::Index(JsonPathIndex::NthRight(n)), SpecValue::Array(items)) => {
            if 1 <= n <= items.len() {
                Some(SpecValue::Array(items.remove(items.len() - n)))
            } else {
                None
            }
        },
        (SpecPathElement::Field(key), SpecValue::Object(entries)) => {
            let i = spec_obj_index(entries, key);
            if i == -1 {
                None
            } else {
                Some(SpecValue::Object(entries.remove(i)))
            }
        },
        _ => None,
    }
}

/// The whole tree after `insert`: the parent named by all elements but the
/// last must resolve, the edit of the parent must be applicable, and the
/// rebuilt tree carries the edited parent in the parent's place.  An empty
/// path has no parent and is never applicable.
pub open spec fn spec_insert(
    v: SpecValue,
    path: Seq<SpecPathElement>,
    sub: SpecValue,
) -> Option<SpecValue> {
    if path.len() == 0 {
        None
    } else {
        match spec_find(v, path.drop_last()) {
            Some(parent) => match spec_insert_elem(parent, path.last(), sub) {
                Some(edited) => Some(spec_update(v, path.drop_last(), edited)),
                None => None,
            },
            None => None,
        }
    }
}

/// The whole tree after `set`, shaped as `spec_insert` is.
pub open spec fn spec_set(
    v: SpecValue,
    path: Seq<SpecPathElement>,
    sub: SpecValue,
) -> Option<SpecValue> {
    if path.len() == 0 {
        None
    } else {
        match spec_find(v, path.drop_last()) {
            Some(parent) => match spec_set_elem(parent, path.last(), sub) {
                Some(edited) => Some(spec_update(v, path.drop_last(), edited)),
                None => None,
            },
            None => None,
        }
    }
}

/// The whole tree after `remove`, shaped as `spec_insert` is.
pub open spec fn spec_remove(v: SpecValue, path: Seq<SpecPathElement>) -> Option<SpecValue> {
    if path.len() == 0 {
        None
    } else {
        match spec_find(v, path.drop_last()) {
            Some(parent) => match spec_remove_elem(parent, path.last()) {
                Some(edited) => Some(spec_update(v, path.drop_last(), edited)),
                None => None,
            },
            None => None,
        }
    }
}

/// The whole tree after `replace`: the full path itself must resolve, and
/// the resolved spot is overwritten in place.  Nothing is ever created.
pub open spec fn spec_replace(
    v: SpecValue,
    path: Seq<SpecPathElement>,
    sub: SpecValue,
) -> Option<SpecValue> {
    if spec_find(v, path) is Some {
        Some(spec_update(v, path, sub))
    } else {
        None
    }
}

impl JsonPath {
    /// Inserts `v` at the path: into an array at the addressed position,
    /// shifting what follows right, or under an absent object key.  Fails
    /// without touching the tree where the parent does not resolve or the
    /// edit is not applicable.
    pub fn insert<'a>(&self, value: &'a mut Value, v: Value) -> (r: Option<&'a Value>)
        ensures
            r is Some <==> spec_insert(old(value)@, self@, v@) is Some,
            r is Some ==> final(value)@ == spec_insert(old(value)@, self@, v@).unwrap() && (
            *r.unwrap())@ == final(value)@,
            r is None ==> final(value)@ == old(value)@,
    {
        broadcast use lemma_view_of_unfold;

        let ghost vm = v@;
        if self.0.len() == 0 {
            return None;
        }
        let n = self.0.len();
        let ghost rest = self@.drop_last();
        proof {
            assert(rest =~= self@.subrange(0, n as int - 1));
            assert(self@.last() == self@[n as int - 1]);
        }
        match find_mut_from(&self.0, 0, n - 1, value) {
            Some(parent) => {
                let last = &self.0[n - 1];
                match last {
                    JsonPathElement::Index(JsonPathIndex::NthLefth(idx)) => match parent {
                        Value::Array(items) => {
                            if *idx <= items.len() {
                                proof {
                                    lemma_items_view_insert(*items, *idx as int);
                                }
                                items.insert(*idx, v);
                            } else {
                                proof {
                                    lemma_update_self(old(value)@, rest);
                                }
                                return None;
                            }
                        },
                        _ => {
                            proof {
                                lemma_update_self(old(value)@, rest);
                            }
                            return None;
                        },
                    },
                    JsonPathElement::Index(JsonPathIndex::NthRight(idx)) => match parent {
                        Value::Array(items) => {
                            if *idx <= items.len() {
                                let pos = items.len() - *idx;
                                proof {
                                    lemma_items_view_insert(*items, pos as int);
                                }
                                items.insert(pos, v);
                            } else {
                                proof {
                                    lemma_update_self(old(value)@, rest);
                                }
                                return None;
                            }
                        },
                        _ => {
                            proof {
                                lemma_update_self(old(value)@, rest);
                            }
                            return None;
                        },
                    },
                    JsonPathElement::Field(key) => match parent {
                        Value::Object(entries) => match obj_index(entries, key) {
                            None => {
                                proof {
                                    lemma_entries_view_push(*entries);
                                }
                                entries.push((key.clone(), v));
                            },
                            Some(_) => {
                                proof {
                                    lemma_update_self(old(value)@, rest);
                                }
                                return None;
                            },
                        },
                        _ => {
                            proof {
                                lemma_update_self(old(value)@, rest);
                            }
                            return None;
                        },
                    },
                }
                Some(&*value)
            },
            None => None,
        }
    }

    /// Overwrites the value the full path resolves to, in place.  Fails
    /// without touching the tree where the path does not resolve; it never
    /// creates a new slot.
    pub fn replace<'a>(&self, value: &'a mut Value, v: Value) -> (r: Option<&'a Value>)
        ensures
            r is Some <==> spec_replace(old(value)@, self@, v@) is Some,
            r is Some ==> final(value)@ == spec_replace(old(value)@, self@, v@).unwrap() && (
            *r.unwrap())@ == final(value)@,
            r is None ==> final(value)@ == old(value)@,
    {
        broadcast use lemma_view_of_unfold;

        proof {
            assert(self@.subrange(0, self@.len() as int) =~= self@);
        }
        match find_mut_from(&self.0, 0, self.0.len(), value) {
            Some(target) => {
                *target = v;
                Some(&*value)
            },
            None => None,
        }
    }

    /// Writes `v` at the path: over an existing array element (`NthRight(0)`
    /// is not applicable here), or under an object key whether present or
    /// not.  Fails without touching the tree where the parent does not
    /// resolve or an index does not address an existing element.
    pub fn set<'a>(&self, value: &'a mut Value, v: Value) -> (r: Option<&'a Value>)
        ensures
            r is Some <==> spec_set(old(value)@, self@, v@) is Some,
            r is Some ==> final(value)@ == spec_set(old(value)@, self@, v@).unwrap() && (
            *r.unwrap())@ == final(value)@,
            r is None ==> final(value)@ == old(value)@,
    {
        broadcast use lemma_view_of_unfold;

        let ghost vm = v@;
        if self.0.len() == 0 {
            return None;
        }
        let n = self.0.len();
        let ghost rest = self@.drop_last();
        proof {
            assert(rest =~= self@.subrange(0, n as int - 1));
            assert(self@.last() == self@[n as int - 1]);
        }
        match find_mut_from(&self.0, 0, n - 1, value) {
            Some(parent) => {
                let last = &self.0[n - 1];
                match last {
                    JsonPathElement::Index(JsonPathIndex::NthLefth(idx)) => match parent {
                        Value::Array(items) => {
                            if *idx < items.len() {
                                proof {
                                    lemma_items_view_update(*items, *idx as int);
                                }
                                let elem = &mut items[*idx];
                                *elem = v;
                            } else {
                                proof {
                                    lemma_update_self(old(value)@, rest);
                                }
                                return None;
                            }
                        },
                        _ => {
                            proof {
                                lemma_update_self(old(value)@, rest);
                            }
                            return None;
                        },
                    },
                    JsonPathElement::Index(JsonPathIndex::NthRight(idx)) => match parent {
                        Value::Array(items) => {
                            if 1 <= *idx && *idx <= items.len() {
                                let pos = items.len() - *idx;
                                proof {
                                    lemma_items_view_update(*items, pos as int);
                                }
                                let elem = &mut items[pos];
                                *elem = v;
                            } else {
                                proof {
                                    lemma_update_self(old(value)@, rest);
                                }
                                return None;
                            }
                        },
                        _ => {
                            proof {
                                lemma_update_self(old(value)@, rest);
                            }
                            return None;
                        },
                    },
                    JsonPathElement::Field(key) => match parent {
                        Value::Object(entries) => match obj_index(entries, key) {
                            Some(j) => {
                                proof {
                                    lemma_entries_view_update(*entries, j as int);
                                }
                                let elem = &mut entries[j].1;
                                *elem = v;
                            },
                            None => {
                                proof {
                                    lemma_entries_view_push(*entries);
                                }
                                entries.push((key.clone(), v));
                            },
                        },
                        _ => {
                            proof {
                                lemma_update_self(old(value)@, rest);
                            }
                            return None;
                        },
                    },
                }
                Some(&*value)
            },
            None => None,
        }
    }

    /// Removes the value at the path: out of an array, shifting what
    /// follows left, or a present object key.  Fails without touching the
    /// tree where the parent does not resolve, an index does not address an
    /// existing element, or the key is absent.
    pub fn remove<'a>(&self, value: &'a mut Value) -> (r: Option<&'a Value>)
        ensures
            r is Some <==> spec_remove(old(value)@, self@) is Some,
            r is Some ==> final(value)@ == spec_remove(old(value)@, self@).unwrap() && (
            *r.unwrap())@ == final(value)@,
            r is None ==> final(value)@ == old(value)@,
    {
        broadcast use lemma_view_of_unfold;

        if self.0.len() == 0 {
            return None;
        }
        let n = self.0.len();
        let ghost rest = self@.drop_last();
        proof {
            assert(rest =~= self@.subrange(0, n as int - 1));
            assert(self@.last() == self@[n as int - 1]);
        }
        match find_mut_from(&self.0, 0, n - 1, value) {
            Some(parent) => {
                let last = &self.0[n - 1];
                match last {
                    JsonPathElement::Index(JsonPathIndex::NthLefth(idx)) => match parent {
                        Value::Array(items) => {
                            if *idx < items.len() {
                                proof {
                                    lemma_items_view_remove(*items, *idx as int);
                                }
                                items.remove(*idx);
                            } else {
                                proof {
                                    lemma_update_self(old(value)@, rest);
                                }
                                return None;
                            }
                        },
                        _ => {
                            proof {
                                lemma_update_self(old(value)@, rest);
                            }
                            return None;
                        },
                    },
                    JsonPathElement::Index(JsonPathIndex::NthRight(idx)) => match parent {
                        Value::Array(items) => {
                            if 1 <= *idx && *idx <= items.len() {
                                let pos = items.len() - *idx;
                                proof {
                                    lemma_items_view_remove(*items, pos as int);
                                }
                                items.remove(pos);
                            } else {
                                proof {
                                    lemma_update_self(old(value)@, rest);
                                }
                                return None;
                            }
                        },
                        _ => {
                            proof {
                                lemma_update_self(old(value)@, rest);
                            }
                            return None;
                        },
                    },
                    JsonPathElement::Field(key) => match parent {
                        Value::Object(entries) => match obj_index(entries, key) {
                            Some(j) => {
                                proof {
                                    lemma_entries_view_remove(*entries, j as int);
                                }
                                entries.remove(j);
                            },
                            None => {
                                proof {
                                    lemma_update_self(old(value)@, rest);
                                }
                                return None;
                            },
                        },
                        _ => {
                            proof {
                                lemma_update_self(old(value)@, rest);
                            }
                            return None;
                        },
                    },
                }
                Some(&*value)
            },
            None => None,
        }
    }
}

} // verus!
