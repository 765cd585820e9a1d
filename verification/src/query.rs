use vstd::prelude::*;

use crate::json_path::JsonPath;
use crate::navigate::{spec_find, spec_update};
use crate::parse::{parse_error_text, spec_parse, SpecParse};
use crate::value::{SpecValue, Value};

verus! {

/// Whether a query string parses to a path that resolves against the value.
pub open spec fn spec_query_finds(v: SpecValue, query: Seq<char>) -> bool {
    match spec_parse(query) {
        SpecParse::Path(p) => spec_find(v, p) is Some,
        _ => false,
    }
}

/// One-call addressing: parse a query string, then resolve it.
pub trait JsonPathQuery<'a>: View<V = SpecValue> {
    /// Parses the query and resolves it read-only.  Fails with the parse
    /// error where the query offends the grammar, and with a fixed message
    /// where the path does not resolve.
    fn path(&'a self, query: &str) -> (r: Result<&'a Value, &'static str>)
        ensures
            r is Ok <==> spec_query_finds(self@, query@),
            r matches Ok(found) ==> (spec_parse(query@) matches SpecParse::Path(p) && spec_find(
                self@,
                p,
            ) == Some(found@)),
            r matches Err(e) ==> e@ == (if spec_parse(query@) is Path {
                "unable to find path to value"@
            } else {
                parse_error_text(spec_parse(query@))
            }),
    ;

    /// Parses the query and resolves it for writing, under the same rules.
    /// Where it fails, the value is left as it was.
    fn path_mut(&'a mut self, query: &str) -> (r: Result<&'a mut Value, &'static str>)
        ensures
            r is Ok <==> spec_query_finds(old(self)@, query@),
            r matches Ok(found) ==> (spec_parse(query@) matches SpecParse::Path(p) && spec_find(
                old(self)@,
                p,
            ) == Some((*found)@) && final(self)@ == spec_update(
                old(self)@,
                p,
                (*final(r.unwrap()))@,
            )),
            r is Err ==> final(self)@ == old(self)@,
            r matches Err(e) ==> e@ == (if spec_parse(query@) is Path {
                "unable to find path to value"@
            } else {
                parse_error_text(spec_parse(query@))
            }),
    ;
}

impl<'a> JsonPathQuery<'a> for Value {
    fn path(&'a self, query: &str) -> (r: Result<&'a Value, &'static str>) {
        match JsonPath::parse(query) {
            Ok(path) => match path.find(self) {
                Some(found) => Ok(found),
                None => Err("unable to find path to value"),
            },
            Err(e) => Err(e),
        }
    }

    fn path_mut(&'a mut self, query: &str) -> (r: Result<&'a mut Value, &'static str>) {
        match JsonPath::parse(query) {
            Ok(path) => match path.find_mut(self) {
                Some(found) => Ok(found),
                None => Err("unable to find path to value"),
            },
            Err(e) => Err(e),
        }
    }
}

} // verus!
