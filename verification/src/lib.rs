//! Addresses and mutates locations inside a JSON-like value tree through a
//! compact path syntax, and orders such values across their kinds.
//!
//! A path is parsed once from text — `$` followed by `.field` and
//! `[index]` elements, where `[#-n]` counts back from the end of an array
//! and `[#]` names the spot one past its last element.  The path then
//! resolves against a [`Value`] read-only ([`JsonPath::find`]) or for
//! writing ([`JsonPath::find_mut`]), and drives the four mutation
//! operations, each applicable under its own conditions: [`JsonPath::insert`],
//! [`JsonPath::replace`], [`JsonPath::set`] and [`JsonPath::remove`].
//! Every operation's contract is stated against a mathematical model of
//! the tree ([`SpecValue`]) and verified; an operation that is not
//! applicable reports so and leaves the tree untouched.
//!
//! The comparator [`partial_cmp`] orders two values by a fixed precedence
//! over their kinds.  Two numbers compare by signed-integer extraction
//! where both sides have it, else unsigned, else by their double views —
//! in that preference order, for maximum precision.  The one step the
//! comparator cannot take itself — reading a string as a double when a
//! number meets a string — it hands back to the caller, who finishes with
//! [`compare_with_parsed`].

mod compare;
mod json_path;
mod laws;
mod mutate;
mod navigate;
mod num_cmp;
mod parse;
mod query;
mod value;

pub use compare::compare_with_parsed;
pub use compare::lex_cmp_chars;
pub use compare::partial_cmp;
pub use compare::spec_cmp_with_parsed;
pub use compare::spec_partial_cmp;
pub use compare::value_eq;
pub use compare::value_num_wf;
pub use compare::Comparison;
pub use compare::SpecComparison;
pub use json_path::elems_view;
pub use json_path::JsonPath;
pub use json_path::JsonPathElement;
pub use json_path::JsonPathIndex;
pub use json_path::SpecPathElement;
pub use laws::lemma_from_end_out_of_range;
pub use laws::lemma_insert_append;
pub use laws::lemma_insert_then_find;
pub use laws::lemma_object_field_set_insert;
pub use laws::lemma_replace_only_existing;
pub use mutate::spec_insert;
pub use mutate::spec_insert_elem;
pub use mutate::spec_remove;
pub use mutate::spec_remove_elem;
pub use mutate::spec_replace;
pub use mutate::spec_set;
pub use mutate::spec_set_elem;
pub use navigate::spec_find;
pub use navigate::spec_get_elem;
pub use navigate::spec_obj_index;
pub use navigate::spec_update;
pub use num_cmp::bit_len;
pub use num_cmp::cmp_number;
pub use num_cmp::float_val;
pub use num_cmp::int_cmp;
pub use num_cmp::num_as_i64;
pub use num_cmp::num_as_u64;
pub use num_cmp::num_f64_val;
pub use num_cmp::number_finite;
pub use num_cmp::number_wf;
pub use num_cmp::round_to_double;
pub use num_cmp::spec_cmp_numbers;
pub use parse::parse_error_text;
pub use parse::spec_parse;
pub use parse::SpecParse;
pub use query::JsonPathQuery;
pub use value::entries_view;
pub use value::items_view;
pub use value::view_of;
pub use value::Number;
pub use value::SpecValue;
pub use value::Value;
