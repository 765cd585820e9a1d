use vstd::prelude::*;

verus! {

/// An array index inside a path.
#[derive(Debug, Clone, Copy, PartialEq, Eq, PartialOrd, Ord, Structural)]
pub enum JsonPathIndex {
    /// The n-th element counted from the front, starting at zero.
    NthLefth(usize),
    /// An offset counted backward from a virtual end-of-array marker:
    /// `NthRight(1)` is the last element, and `NthRight(0)` is the position
    /// one past the last element, which insertion uses to mean "append".
    NthRight(usize),
}

/// One step of a path: an object key or an array index.
#[derive(Debug, Clone, PartialEq, Eq, PartialOrd, Ord)]
pub enum JsonPathElement {
    /// The key of an object entry.
    Field(String),
    /// An index into an array.
    Index(JsonPathIndex),
}

/// The character of a single decimal digit.
pub open spec fn digit_char(d: nat) -> char {
    if d == 0 {
        '0'
    } else if d == 1 {
        '1'
    } else if d == 2 {
        '2'
    } else if d == 3 {
        '3'
    } else if d == 4 {
        '4'
    } else if d == 5 {
        '5'
    } else if d == 6 {
        '6'
    } else if d == 7 {
        '7'
    } else if d == 8 {
        '8'
    } else {
        '9'
    }
}

/// The decimal text of a number, most significant digit first.
pub open spec fn dec_digits(n: nat) -> Seq<char>
    decreases n,
{
    if n < 10 {
        seq![digit_char(n)]
    } else {
        dec_digits(n / 10).push(digit_char(n % 10))
    }
}

/// One decimal digit as text.
fn digit_str(d: usize) -> (r: &'static str)
    requires
        d < 10,
    ensures
        r@ == seq![digit_char(d as nat)],
{
    let r: &'static str = match d {
        0 => "0",
        1 => "1",
        2 => "2",
        3 => "3",
        4 => "4",
        5 => "5",
        6 => "6",
        7 => "7",
        8 => "8",
        _ => "9",
    };
    proof {
        reveal_strlit("0");
        reveal_strlit("1");
        reveal_strlit("2");
        reveal_strlit("3");
        reveal_strlit("4");
        reveal_strlit("5");
        reveal_strlit("6");
        reveal_strlit("7");
        reveal_strlit("8");
        reveal_strlit("9");
        assert(r@ =~= seq![digit_char(d as nat)]);
    }
    r
}

/// A number as decimal text.
fn number_text(n: usize) -> (r: String)
    ensures
        r@ == dec_digits(n as nat),
    decreases n,
{
    if n < 10 {
        String::from_str(digit_str(n))
    } else {
        let high = number_text(n / 10);
        let low = digit_str(n % 10);
        let r = high.concat(low);
        proof {
            assert(r@ =~= dec_digits(n as nat / 10).push(digit_char(n as nat % 10)));
        }
        r
    }
}

impl JsonPathIndex {
    /// The index as path text: the position itself, or `#-n` counted from
    /// the end.
    pub fn to_string(&self) -> (r: String)
        ensures
            r@ == match *self {
                JsonPathIndex::NthLefth(i) => dec_digits(i as nat),
                JsonPathIndex::NthRight(i) => "#-"@ + dec_digits(i as nat),
            },
    {
        match self {
            JsonPathIndex::NthLefth(i) => number_text(*i),
            JsonPathIndex::NthRight(i) => {
                let tail = number_text(*i);
                String::from_str("#-").concat(tail.as_str())
            },
        }
    }
}

/// The model of a path element: the key becomes a sequence of characters.
pub enum SpecPathElement {
    Field(Seq<char>),
    Index(JsonPathIndex),
}

impl View for JsonPathElement {
    type V = SpecPathElement;

    open spec fn view(&self) -> SpecPathElement {
        match self {
            JsonPathElement::Field(key) => SpecPathElement::Field(key@),
            JsonPathElement::Index(i) => SpecPathElement::Index(*i),
        }
    }
}

impl JsonPathElement {
    /// The element as text: the key itself, or the index's path text.
    pub fn to_string(&self) -> (r: String)
        ensures
            r@ == match *self {
                JsonPathElement::Field(key) => key@,
                JsonPathElement::Index(i) => match i {
                    JsonPathIndex::NthLefth(n) => dec_digits(n as nat),
                    JsonPathIndex::NthRight(n) => "#-"@ + dec_digits(n as nat),
                },
            },
    {
        match self {
            JsonPathElement::Field(key) => key.clone(),
            JsonPathElement::Index(i) => i.to_string(),
        }
    }
}

/// A parsed path: a sequence of elements, root to leaf.  The empty path
/// addresses the root value itself.
#[derive(Debug, Default, Clone, PartialEq, Eq, PartialOrd, Ord)]
pub struct JsonPath(pub Vec<JsonPathElement>);

/// The model of a sequence of path elements.
pub open spec fn elems_view(elems: Vec<JsonPathElement>) -> Seq<SpecPathElement> {
    Seq::new(elems@.len(), |i: int| elems@[i]@)
}

impl View for JsonPath {
    type V = Seq<SpecPathElement>;

    open spec fn view(&self) -> Seq<SpecPathElement> {
        elems_view(self.0)
    }
}

} // verus!
