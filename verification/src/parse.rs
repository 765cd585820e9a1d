use vstd::prelude::*;

use crate::json_path::{JsonPath, JsonPathElement, JsonPathIndex, SpecPathElement};

verus! {

/// What `char::is_numeric` answers for a character: a fixed property of
/// the character alone.
pub uninterp spec fn char_is_numeric(c: char) -> bool;

/// What `char::is_alphabetic` answers for a character: a fixed property of
/// the character alone.
pub uninterp spec fn char_is_alphabetic(c: char) -> bool;

/// Relies on char::is_numeric: whether the character is in a Unicode
/// number category, which depends on the character alone.
#[verifier::external_body]
fn is_numeric_char(c: char) -> (r: bool)
    ensures
        r == char_is_numeric(c),
{
    c.is_numeric()
}

/// Relies on char::is_alphabetic: whether the character is in a Unicode
/// letter category, which depends on the character alone.
#[verifier::external_body]
fn is_alphabetic_char(c: char) -> (r: bool)
    ensures
        r == char_is_alphabetic(c),
{
    c.is_alphabetic()
}

/// An ASCII decimal digit.
pub open spec fn is_ascii_digit_ch(c: char) -> bool {
    48 <= c as u32 <= 57
}

/// The numeric value of an ASCII decimal digit.
pub open spec fn digit_val(c: char) -> int {
    c as u32 - 48
}

pub open spec fn all_ascii_digits(cs: Seq<char>) -> bool {
    forall|k: int| 0 <= k < cs.len() ==> is_ascii_digit_ch(#[trigger] cs[k])
}

/// The decimal value of a digit string.
pub open spec fn digits_value(cs: Seq<char>) -> int
    decreases cs.len(),
{
    if cs.len() == 0 {
        0
    } else {
        digits_value(cs.drop_last()) * 10 + digit_val(cs.last())
    }
}

/// The number that the grammar reads out of a scanned run of numeric
/// characters: its decimal value where the run is plain ASCII digits and
/// fits the machine word, and zero anywhere else — an empty run, another
/// numeral script, or overflow all quietly become zero.
pub open spec fn lenient_number(cs: Seq<char>) -> usize {
    if all_ascii_digits(cs) && cs.len() > 0 && digits_value(cs) <= usize::MAX {
        digits_value(cs) as usize
    } else {
        0
    }
}

/// The end of the maximal run of numeric characters starting at `i`.
pub open spec fn numeric_run_end(s: Seq<char>, i: int) -> int
    decreases s.len() - i,
{
    if 0 <= i < s.len() && char_is_numeric(s[i]) {
        numeric_run_end(s, i + 1)
    } else {
        i
    }
}

/// The end of the maximal run of alphabetic characters starting at `i`.
pub open spec fn alpha_run_end(s: Seq<char>, i: int) -> int
    decreases s.len() - i,
{
    if 0 <= i < s.len() && char_is_alphabetic(s[i]) {
        alpha_run_end(s, i + 1)
    } else {
        i
    }
}

pub proof fn lemma_numeric_run_end(s: Seq<char>, i: int)
    requires
        0 <= i <= s.len(),
    ensures
        i <= numeric_run_end(s, i) <= s.len(),
        forall|k: int| i <= k < numeric_run_end(s, i) ==> char_is_numeric(#[trigger] s[k]),
        numeric_run_end(s, i) < s.len() ==> !char_is_numeric(s[numeric_run_end(s, i)]),
    decreases s.len() - i,
{
    if i < s.len() && char_is_numeric(s[i]) {
        lemma_numeric_run_end(s, i + 1);
    }
}

pub proof fn lemma_alpha_run_end(s: Seq<char>, i: int)
    requires
        0 <= i <= s.len(),
    ensures
        i <= alpha_run_end(s, i) <= s.len(),
        forall|k: int| i <= k < alpha_run_end(s, i) ==> char_is_alphabetic(#[trigger] s[k]),
        alpha_run_end(s, i) < s.len() ==> !char_is_alphabetic(s[alpha_run_end(s, i)]),
    decreases s.len() - i,
{
    if i < s.len() && char_is_alphabetic(s[i]) {
        lemma_alpha_run_end(s, i + 1);
    }
}

/// What parsing a path string yields: a sequence of elements, or one of
/// the three ways the grammar rejects its input.
pub enum SpecParse {
    Path(Seq<SpecPathElement>),
    /// The first character is neither `$` nor numeric.
    BadStart,
    /// An opened `[` index is not closed by `]`.
    BadClose,
    /// Something other than `.` or `[` where an element must begin.
    BadElement,
}

/// The element loop of the grammar, from position `i`, with the elements
/// read so far.
pub open spec fn spec_parse_elems(
    s: Seq<char>,
    i: int,
    acc: Seq<SpecPathElement>,
) -> SpecParse
    decreases s.len() - i,
    via spec_parse_elems_decreases
{
    if i < 0 || i >= s.len() {
        SpecParse::Path(acc)
    } else if s[i] == '.' {
        let j = alpha_run_end(s, i + 1);
        spec_parse_elems(s, j, acc.push(SpecPathElement::Field(s.subrange(i + 1, j))))
    } else if s[i] == '[' {
        let body = if i + 1 < s.len() && s[i + 1] == '#' {
            if i + 2 < s.len() && s[i + 2] == '-' {
                i + 3
            } else {
                i + 2
            }
        } else {
            i + 1
        };
        let reverse = i + 1 < s.len() && s[i + 1] == '#';
        let j = numeric_run_end(s, body);
        let v = lenient_number(s.subrange(body, j));
        if j < s.len() && s[j] == ']' {
            let idx = if reverse {
                JsonPathIndex::NthRight(v)
            } else {
                JsonPathIndex::NthLefth(v)
            };
            spec_parse_elems(s, j + 1, acc.push(SpecPathElement::Index(idx)))
        } else {
            SpecParse::BadClose
        }
    } else {
        SpecParse::BadElement
    }
}

#[via_fn]
proof fn spec_parse_elems_decreases(s: Seq<char>, i: int, acc: Seq<SpecPathElement>) {
    if 0 <= i < s.len() {
        if s[i] == '.' {
            lemma_alpha_run_end(s, i + 1);
        } else if s[i] == '[' {
            let body = if i + 1 < s.len() && s[i + 1] == '#' {
                if i + 2 < s.len() && s[i + 2] == '-' {
                    i + 3
                } else {
                    i + 2
                }
            } else {
                i + 1
            };
            if body <= s.len() {
                lemma_numeric_run_end(s, body);
            }
        }
    }
}

/// The path grammar: `$` followed by elements, or a bare numeric run that
/// makes a single root-level array index (whatever follows it is ignored),
/// or a rejection.
pub open spec fn spec_parse(s: Seq<char>) -> SpecParse {
    if s.len() == 0 {
        SpecParse::BadStart
    } else if s[0] == '$' {
        spec_parse_elems(s, 1, Seq::empty())
    } else if char_is_numeric(s[0]) {
        let j = numeric_run_end(s, 0);
        SpecParse::Path(
            seq![
                SpecPathElement::Index(JsonPathIndex::NthLefth(lenient_number(s.subrange(0, j)))),
            ],
        )
    } else {
        SpecParse::BadStart
    }
}

/// The message each rejection carries.
pub open spec fn parse_error_text(p: SpecParse) -> Seq<char> {
    match p {
        SpecParse::Path(_) => Seq::empty(),
        SpecParse::BadStart => "expected $ or numeric"@,
        SpecParse::BadClose => "expected ]"@,
        SpecParse::BadElement => "expected . or ["@,
    }
}

proof fn lemma_digits_value_nonneg(cs: Seq<char>)
    requires
        all_ascii_digits(cs),
    ensures
        digits_value(cs) >= 0,
    decreases cs.len(),
{
    if cs.len() > 0 {
        assert(all_ascii_digits(cs.drop_last()));
        lemma_digits_value_nonneg(cs.drop_last());
        assert(digits_value(cs.drop_last()) * 10 >= 0) by (nonlinear_arith)
            requires
                digits_value(cs.drop_last()) >= 0,
        ;
    }
}

/// Reads the maximal run of numeric characters starting at `i` and the
/// number it leniently denotes.
fn scan_number(s: &str, i: usize) -> (res: (usize, usize))
    requires
        i <= s@.len(),
    ensures
        res.0 == numeric_run_end(s@, i as int),
        i <= res.0 <= s@.len(),
        res.1 == lenient_number(s@.subrange(i as int, res.0 as int)),
{
    let len = s.unicode_len();
    let mut j = i;
    let mut acc: usize = 0;
    let mut bad = false;
    loop
        invariant
            i <= j <= len,
            len == s@.len(),
            numeric_run_end(s@, i as int) == numeric_run_end(s@, j as int),
            bad <==> !(all_ascii_digits(s@.subrange(i as int, j as int)) && digits_value(
                s@.subrange(i as int, j as int),
            ) <= usize::MAX),
            !bad ==> acc == digits_value(s@.subrange(i as int, j as int)),
        ensures
            i <= j <= len,
            len == s@.len(),
            j == numeric_run_end(s@, i as int),
            bad <==> !(all_ascii_digits(s@.subrange(i as int, j as int)) && digits_value(
                s@.subrange(i as int, j as int),
            ) <= usize::MAX),
            !bad ==> acc == digits_value(s@.subrange(i as int, j as int)),
        decreases len - j,
    {
        if j >= len {
            break ;
        }
        let c = s.get_char(j);
        if !is_numeric_char(c) {
            break ;
        }
        let ghost pre = s@.subrange(i as int, j as int);
        let ghost ext = s@.subrange(i as int, j as int + 1);
        proof {
            assert(ext.drop_last() =~= pre);
            assert(ext.last() == s@[j as int]);
            assert(all_ascii_digits(ext) <==> all_ascii_digits(pre) && is_ascii_digit_ch(
                s@[j as int],
            )) by {
                if all_ascii_digits(pre) && is_ascii_digit_ch(s@[j as int]) {
                    assert forall|k: int| 0 <= k < ext.len() implies is_ascii_digit_ch(
                        #[trigger] ext[k],
                    ) by {
                        if k < pre.len() {
                            assert(ext[k] == pre[k]);
                        }
                    }
                }
            }
        }
        let cu = c as u32;
        if 48 <= cu && cu <= 57 {
            let d = (cu - 48) as usize;
            if bad {
                // a bad run stays bad
                proof {
                    if all_ascii_digits(ext) {
                        assert(all_ascii_digits(pre));
                        assert(digits_value(pre) > usize::MAX);
                        assert(digits_value(ext) == digits_value(pre) * 10 + digit_val(
                            s@[j as int],
                        ));
                        assert(digits_value(pre) * 10 >= digits_value(pre)) by (nonlinear_arith)
                            requires
                                digits_value(pre) >= 0,
                        ;
                    }
                }
            } else if acc > (usize::MAX - d) / 10 {
                proof {
                    assert(digits_value(ext) == acc * 10 + d);
                    assert(acc * 10 + d > usize::MAX) by (nonlinear_arith)
                        requires
                            acc > (usize::MAX - d) / 10,
                            0 <= d <= 9,
                            acc >= 0,
                    ;
                }
                bad = true;
            } else {
                proof {
                    assert(acc * 10 + d <= usize::MAX) by (nonlinear_arith)
                        requires
                            acc <= (usize::MAX - d) / 10,
                            0 <= d <= 9,
                            acc >= 0,
                    ;
                    assert(digits_value(ext) == acc * 10 + d);
                }
                acc = acc * 10 + d;
            }
        } else {
            proof {
                assert(!is_ascii_digit_ch(s@[j as int]));
            }
            bad = true;
        }
        j += 1;
    }
    let val = if bad {
        0
    } else {
        acc
    };
    proof {
        if !bad {
            lemma_digits_value_nonneg(s@.subrange(i as int, j as int));
        }
    }
    (j, val)
}

/// Reads the maximal run of alphabetic characters starting at `i` as a
/// field name.
fn scan_field(s: &str, i: usize) -> (res: (usize, String))
    requires
        i <= s@.len(),
    ensures
        res.0 == alpha_run_end(s@, i as int),
        i <= res.0 <= s@.len(),
        res.1@ == s@.subrange(i as int, res.0 as int),
{
    let len = s.unicode_len();
    let mut j = i;
    loop
        invariant
            i <= j <= len,
            len == s@.len(),
            alpha_run_end(s@, i as int) == alpha_run_end(s@, j as int),
        ensures
            i <= j <= len,
            len == s@.len(),
            j == alpha_run_end(s@, i as int),
        decreases len - j,
    {
        if j >= len {
            break ;
        }
        if !is_alphabetic_char(s.get_char(j)) {
            break ;
        }
        j += 1;
    }
    let name = s.substring_char(i, j).to_owned();
    (j, name)
}

impl JsonPath {
    /// Parses a path expression: `$` followed by `.field` and `[index]`
    /// elements, or a bare number naming a root-level array position.
    /// Yields the parsed path, or the message for the first offence
    /// against the grammar.
    pub fn parse(s: &str) -> (r: Result<JsonPath, &'static str>)
        ensures
            r is Ok <==> spec_parse(s@) is Path,
            r matches Ok(p) ==> spec_parse(s@) == SpecParse::Path(p@),
            r matches Err(e) ==> e@ == parse_error_text(spec_parse(s@)),
    {
        let len = s.unicode_len();
        if len == 0 {
            return Err("expected $ or numeric");
        }
        let c0 = s.get_char(0);
        if c0 == '$' {
            let mut elems: Vec<JsonPathElement> = Vec::new();
            let mut i: usize = 1;
            proof {
                assert(crate::json_path::elems_view(elems) =~= Seq::<SpecPathElement>::empty());
            }
            loop
                invariant
                    1 <= i <= len,
                    len == s@.len(),
                    spec_parse(s@) == spec_parse_elems(
                        s@,
                        i as int,
                        crate::json_path::elems_view(elems),
                    ),
                ensures
                    i >= len,
                    spec_parse(s@) == spec_parse_elems(
                        s@,
                        i as int,
                        crate::json_path::elems_view(elems),
                    ),
                decreases len - i,
            {
                if i >= len {
                    break ;
                }
                let ghost acc0 = crate::json_path::elems_view(elems);
                let c = s.get_char(i);
                if c == '.' {
                    let (j, name) = scan_field(s, i + 1);
                    proof {
                        lemma_alpha_run_end(s@, i as int + 1);
                    }
                    let elem = JsonPathElement::Field(name);
                    elems.push(elem);
                    proof {
                        assert(crate::json_path::elems_view(elems) =~= acc0.push(
                            SpecPathElement::Field(s@.subrange(i as int + 1, j as int)),
                        ));
                    }
                    i = j;
                } else if c == '[' {
                    let mut reverse = false;
                    let mut body = i + 1;
                    if body < len && s.get_char(body) == '#' {
                        reverse = true;
                        body = body + 1;
                        if body < len && s.get_char(body) == '-' {
                            body = body + 1;
                        }
                    }
                    let (j, v) = scan_number(s, body);
                    proof {
                        lemma_numeric_run_end(s@, body as int);
                    }
                    if j < len && s.get_char(j) == ']' {
                        let idx = if reverse {
                            JsonPathIndex::NthRight(v)
                        } else {
                            JsonPathIndex::NthLefth(v)
                        };
                        elems.push(JsonPathElement::Index(idx));
                        proof {
                            assert(crate::json_path::elems_view(elems) =~= acc0.push(
                                SpecPathElement::Index(idx),
                            ));
                        }
                        i = j + 1;
                    } else {
                        return Err("expected ]");
                    }
                } else {
                    return Err("expected . or [");
                }
            }
            Ok(JsonPath(elems))
        } else if is_numeric_char(c0) {
            let (j, v) = scan_number(s, 0);
            let mut elems: Vec<JsonPathElement> = Vec::new();
            elems.push(JsonPathElement::Index(JsonPathIndex::NthLefth(v)));
            proof {
                assert(crate::json_path::elems_view(elems) =~= seq![
                    SpecPathElement::Index(
                        JsonPathIndex::NthLefth(
                            lenient_number(s@.subrange(0, numeric_run_end(s@, 0))),
                        ),
                    ),
                ]);
            }
            Ok(JsonPath(elems))
        } else {
            Err("expected $ or numeric")
        }
    }
}

impl core::str::FromStr for JsonPath {
    type Err = &'static str;

    fn from_str(s: &str) -> Result<JsonPath, &'static str> {
        JsonPath::parse(s)
    }
}

impl vstd::std_specs::convert::TryFromSpecImpl<&str> for JsonPath {
    open spec fn obeys_try_from_spec() -> bool {
        false
    }

    open spec fn try_from_spec(v: &str) -> Result<JsonPath, &'static str> {
        arbitrary()
    }
}

impl TryFrom<&str> for JsonPath {
    type Error = &'static str;

    fn try_from(value: &str) -> Result<JsonPath, &'static str> {
        JsonPath::parse(value)
    }
}

} // verus!
