use vstd::prelude::*;

use core::cmp::Ordering;
use crate::num_cmp::{
    cmp_number, f_is_inf, f_is_nan, f_sign, float_val, int_cmp, num_f64_val, number_wf, reverse,
    spec_cmp_numbers, spec_reverse,
};
use crate::value::{
    entries_view, items_view, lemma_view_of_unfold, view_of, Number, SpecValue, Value,
};

verus! {

/// Lexicographic comparison of two character sequences by code point.
pub open spec fn lex_cmp_chars(x: Seq<char>, y: Seq<char>) -> Ordering
    decreases x.len(),
{
    if x.len() == 0 && y.len() == 0 {
        Ordering::Equal
    } else if x.len() == 0 {
        Ordering::Less
    } else if y.len() == 0 {
        Ordering::Greater
    } else if (x[0] as u32) < (y[0] as u32) {
        Ordering::Less
    } else if (x[0] as u32) > (y[0] as u32) {
        Ordering::Greater
    } else {
        lex_cmp_chars(x.drop_first(), y.drop_first())
    }
}

/// Compares two strings character by character.
fn cmp_str(x: &str, y: &str) -> (r: Ordering)
    ensures
        r == lex_cmp_chars(x@, y@),
{
    let xl = x.unicode_len();
    let yl = y.unicode_len();
    let mut i: usize = 0;
    proof {
        assert(x@.skip(0) =~= x@);
        assert(y@.skip(0) =~= y@);
    }
    loop
        invariant
            i <= xl,
            i <= yl,
            xl == x@.len(),
            yl == y@.len(),
            lex_cmp_chars(x@, y@) == lex_cmp_chars(x@.skip(i as int), y@.skip(i as int)),
        decreases xl - i,
    {
        let ghost rx = x@.skip(i as int);
        let ghost ry = y@.skip(i as int);
        if i >= xl && i >= yl {
            return Ordering::Equal;
        }
        if i >= xl {
            return Ordering::Less;
        }
        if i >= yl {
            return Ordering::Greater;
        }
        proof {
            assert(rx[0] == x@[i as int]);
            assert(ry[0] == y@[i as int]);
        }
        let cx = x.get_char(i) as u32;
        let cy = y.get_char(i) as u32;
        if cx < cy {
            return Ordering::Less;
        }
        if cx > cy {
            return Ordering::Greater;
        }
        proof {
            assert(rx.drop_first() =~= x@.skip(i as int + 1));
            assert(ry.drop_first() =~= y@.skip(i as int + 1));
        }
        i += 1;
    }
}

/// Structural equality of two value trees, judged on their models.
pub fn value_eq(a: &Value, b: &Value) -> (r: bool)
    ensures
        r == (a@ == b@),
    decreases *a,
{
    broadcast use lemma_view_of_unfold;

    match (a, b) {
        (Value::Null, Value::Null) => {
            proof {
                assert(a@ == b@);
            }
            true
        },
        (Value::Bool(x), Value::Bool(y)) => {
            let e = x == y;
            proof {
                if e {
                    assert(a@ == b@);
                } else {
                    assert(a@ != b@);
                }
            }
            e
        },
        (Value::Number(x), Value::Number(y)) => {
            let e = x == y;
            proof {
                if e {
                    assert(a@ == b@);
                } else {
                    assert(a@ != b@);
                }
            }
            e
        },
        (Value::String(x), Value::String(y)) => {
            let e = *x == *y;
            proof {
                if e {
                    assert(a@ == b@);
                } else {
                    assert(a@ != b@);
                }
            }
            e
        },
        (Value::Array(xs), Value::Array(ys)) => {
            if xs.len() != ys.len() {
                proof {
                    assert(items_view(*xs).len() == xs@.len());
                    assert(items_view(*ys).len() == ys@.len());
                }
                return false;
            }
            let mut i: usize = 0;
            loop
                invariant
                    i <= xs@.len(),
                    xs@.len() == ys@.len(),
                    *a == Value::Array(*xs),
                    *b == Value::Array(*ys),
                    forall|k: int|
                        0 <= k < i ==> #[trigger] items_view(*xs)[k] == items_view(*ys)[k],
                ensures
                    i >= xs@.len(),
                    xs@.len() == ys@.len(),
                    forall|k: int|
                        0 <= k < i ==> #[trigger] items_view(*xs)[k] == items_view(*ys)[k],
                decreases xs@.len() - i,
            {
                if i >= xs.len() {
                    break ;
                }
                proof {
                    assert(decreases_to!(*a => xs[i as int])) by {
                        assert(decreases_to!(*a => a->Array_0));
                        assert(decreases_to!(*xs => xs[i as int]));
                    }
                }
                if !value_eq(&xs[i], &ys[i]) {
                    proof {
                        assert(items_view(*xs)[i as int] == view_of(xs@[i as int]));
                        assert(items_view(*ys)[i as int] == view_of(ys@[i as int]));
                        assert(items_view(*xs)[i as int] != items_view(*ys)[i as int]);
                    }
                    return false;
                }
                i += 1;
            }
            proof {
                assert(items_view(*xs) =~= items_view(*ys));
            }
            true
        },
        (Value::Object(xs), Value::Object(ys)) => {
            if xs.len() != ys.len() {
                proof {
                    assert(entries_view(*xs).len() == xs@.len());
                    assert(entries_view(*ys).len() == ys@.len());
                }
                return false;
            }
            let mut i: usize = 0;
            loop
                invariant
                    i <= xs@.len(),
                    xs@.len() == ys@.len(),
                    *a == Value::Object(*xs),
                    *b == Value::Object(*ys),
                    forall|k: int|
                        0 <= k < i ==> #[trigger] entries_view(*xs)[k] == entries_view(*ys)[k],
                ensures
                    i >= xs@.len(),
                    xs@.len() == ys@.len(),
                    forall|k: int|
                        0 <= k < i ==> #[trigger] entries_view(*xs)[k] == entries_view(*ys)[k],
                decreases xs@.len() - i,
            {
                if i >= xs.len() {
                    break ;
                }
                if !(xs[i].0 == ys[i].0) {
                    proof {
                        assert(entries_view(*xs)[i as int].0 != entries_view(*ys)[i as int].0);
                    }
                    return false;
                }
                proof {
                    assert(decreases_to!(*a => xs[i as int])) by {
                        assert(decreases_to!(*a => a->Object_0));
                        assert(decreases_to!(*xs => xs[i as int]));
                    }
                }
                if !value_eq(&xs[i].1, &ys[i].1) {
                    proof {
                        assert(entries_view(*xs)[i as int].1 != entries_view(*ys)[i as int].1);
                    }
                    return false;
                }
                i += 1;
            }
            proof {
                assert(entries_view(*xs) =~= entries_view(*ys));
            }
            true
        },
        _ => false,
    }
}

/// A number standing in for a boolean when the two are compared.
pub open spec fn bool_num(b: bool) -> Number {
    Number::PosInt(
        if b {
            1
        } else {
            0
        },
    )
}

/// Whether the number a value holds at its top, if any, is well formed —
/// finite, and negative where the negative variant carries it; the
/// comparator looks no deeper than that.
pub open spec fn value_num_wf(v: SpecValue) -> bool {
    match v {
        SpecValue::Number(n) => number_wf(n),
        _ => true,
    }
}

/// What comparing two values yields: an answer, or the one case the
/// comparator cannot settle by itself — a number against a string, which
/// asks for the string read as a double.
pub enum SpecComparison {
    Resolved(Option<Ordering>),
    NeedsParse(Number, Seq<char>, bool),
}

/// The comparison verdict over models, in the comparator's order of
/// precedence: structural equality; nulls compare to nothing; equal kinds
/// by their natural order; a number and a boolean numerically; a boolean
/// below everything else; a number against a string is left to the caller
/// to finish; otherwise numbers, then strings, sit below containers, and
/// containers tie (their in-memory headers have equal sizes in this
/// representation).
pub open spec fn spec_partial_cmp(a: SpecValue, b: SpecValue) -> SpecComparison {
    if a == b {
        SpecComparison::Resolved(Some(Ordering::Equal))
    } else if a is Null || b is Null {
        SpecComparison::Resolved(None)
    } else {
        match (a, b) {
            (SpecValue::Bool(x), SpecValue::Bool(y)) => SpecComparison::Resolved(
                Some(
                    int_cmp(
                        if x {
                            1
                        } else {
                            0
                        },
                        if y {
                            1
                        } else {
                            0
                        },
                    ),
                ),
            ),
            (SpecValue::Number(x), SpecValue::Number(y)) => SpecComparison::Resolved(
                Some(spec_cmp_numbers(x, y)),
            ),
            (SpecValue::String(x), SpecValue::String(y)) => SpecComparison::Resolved(
                Some(lex_cmp_chars(x, y)),
            ),
            (SpecValue::Number(n), SpecValue::Bool(y)) => SpecComparison::Resolved(
                Some(spec_cmp_numbers(n, bool_num(y))),
            ),
            (SpecValue::Bool(x), SpecValue::Number(n)) => SpecComparison::Resolved(
                Some(spec_cmp_numbers(bool_num(x), n)),
            ),
            (SpecValue::Bool(_), _) => SpecComparison::Resolved(Some(Ordering::Less)),
            (_, SpecValue::Bool(_)) => SpecComparison::Resolved(Some(Ordering::Greater)),
            (SpecValue::Number(n), SpecValue::String(s)) => SpecComparison::NeedsParse(n, s, true),
            (SpecValue::String(s), SpecValue::Number(n)) => SpecComparison::NeedsParse(n, s, false),
            (SpecValue::Number(_), _) => SpecComparison::Resolved(Some(Ordering::Less)),
            (_, SpecValue::Number(_)) => SpecComparison::Resolved(Some(Ordering::Greater)),
            (SpecValue::String(_), _) => SpecComparison::Resolved(Some(Ordering::Less)),
            (_, SpecValue::String(_)) => SpecComparison::Resolved(Some(Ordering::Greater)),
            _ => SpecComparison::Resolved(Some(Ordering::Equal)),
        }
    }
}

/// What comparing two values yields, over the values themselves.
pub enum Comparison<'a> {
    /// The answer.
    Resolved(Option<Ordering>),
    /// A number met a string: the caller reads the string as a double and
    /// finishes with `compare_with_parsed`.  The fields carry the number,
    /// the string, and whether the number is the left operand.
    NeedsParse(Number, &'a String, bool),
}

/// Compares two values under the comparator's precedence rules.  Everything
/// is settled here except a number against a string, which is handed back
/// for the caller to finish once the string has been read as a double.
pub fn partial_cmp<'a>(a: &'a Value, b: &'a Value) -> (r: Comparison<'a>)
    requires
        value_num_wf(a@),
        value_num_wf(b@),
    ensures
        r matches Comparison::Resolved(o) ==> spec_partial_cmp(a@, b@)
            == SpecComparison::Resolved(o),
        r matches Comparison::NeedsParse(n, s, first) ==> spec_partial_cmp(a@, b@)
            == SpecComparison::NeedsParse(n, s@, first),
{
    broadcast use lemma_view_of_unfold;

    if value_eq(a, b) {
        return Comparison::Resolved(Some(Ordering::Equal));
    }
    match (a, b) {
        (Value::Null, _) => Comparison::Resolved(None),
        (_, Value::Null) => Comparison::Resolved(None),
        (Value::Bool(x), Value::Bool(y)) => {
            let o = if !*x && *y {
                Ordering::Less
            } else if *x && !*y {
                Ordering::Greater
            } else {
                Ordering::Equal
            };
            Comparison::Resolved(Some(o))
        },
        (Value::Number(x), Value::Number(y)) => Comparison::Resolved(Some(cmp_number(x, y))),
        (Value::String(x), Value::String(y)) => Comparison::Resolved(
            Some(cmp_str(x.as_str(), y.as_str())),
        ),
        (Value::Number(n), Value::Bool(y)) => {
            let yb = Number::PosInt(
                if *y {
                    1
                } else {
                    0
                },
            );
            Comparison::Resolved(Some(cmp_number(n, &yb)))
        },
        (Value::Bool(x), Value::Number(n)) => {
            let xb = Number::PosInt(
                if *x {
                    1
                } else {
                    0
                },
            );
            Comparison::Resolved(Some(cmp_number(&xb, n)))
        },
        (Value::Bool(_), _) => Comparison::Resolved(Some(Ordering::Less)),
        (_, Value::Bool(_)) => Comparison::Resolved(Some(Ordering::Greater)),
        (Value::Number(n), Value::String(s)) => Comparison::NeedsParse(*n, s, true),
        (Value::String(s), Value::Number(n)) => Comparison::NeedsParse(*n, s, false),
        (Value::Number(_), _) => Comparison::Resolved(Some(Ordering::Less)),
        (_, Value::Number(_)) => Comparison::Resolved(Some(Ordering::Greater)),
        (Value::String(_), _) => Comparison::Resolved(Some(Ordering::Less)),
        (_, Value::String(_)) => Comparison::Resolved(Some(Ordering::Greater)),
        _ => Comparison::Resolved(Some(Ordering::Equal)),
    }
}

/// Finishing a number-against-string comparison, given the double the
/// string was read as, by its bit pattern — or nothing where the read
/// failed.  A failed read makes the number the lesser side, whichever side
/// it stands on; a NaN compares to nothing; an infinity sits beyond every
/// number.
pub open spec fn spec_cmp_with_parsed(n: Number, parsed: Option<u64>, number_first: bool) -> Option<
    Ordering,
> {
    match parsed {
        None => Some(
            if number_first {
                Ordering::Less
            } else {
                Ordering::Greater
            },
        ),
        Some(bits) => {
            if f_is_nan(bits) {
                None
            } else if f_is_inf(bits) {
                let c = if f_sign(bits) {
                    Ordering::Greater
                } else {
                    Ordering::Less
                };
                Some(
                    if number_first {
                        c
                    } else {
                        spec_reverse(c)
                    },
                )
            } else {
                let c = int_cmp(num_f64_val(n), float_val(bits));
                Some(
                    if number_first {
                        c
                    } else {
                        spec_reverse(c)
                    },
                )
            }
        },
    }
}

/// Finishes a number-against-string comparison; see `spec_cmp_with_parsed`.
pub fn compare_with_parsed(n: &Number, parsed: Option<u64>, number_first: bool) -> (r: Option<
    Ordering,
>)
    requires
        number_wf(*n),
    ensures
        r == spec_cmp_with_parsed(*n, parsed, number_first),
{
    match parsed {
        None => Some(
            if number_first {
                Ordering::Less
            } else {
                Ordering::Greater
            },
        ),
        Some(bits) => {
            let exp = (bits >> 52u64) & 0x7ff;
            let frac = bits & 0xf_ffff_ffff_ffff;
            if exp == 0x7ff {
                if frac != 0 {
                    None
                } else {
                    let c = if (bits >> 63u64) == 1 {
                        Ordering::Greater
                    } else {
                        Ordering::Less
                    };
                    Some(
                        if number_first {
                            c
                        } else {
                            reverse(c)
                        },
                    )
                }
            } else {
                let c = cmp_number(n, &Number::Float(bits));
                Some(
                    if number_first {
                        c
                    } else {
                        reverse(c)
                    },
                )
            }
        },
    }
}

} // verus!
