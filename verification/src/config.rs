//! The declarative endpoint schema: a static tree of nested
//! endpoint paths, fixed at configuration time.

use vstd::prelude::*;
use crate::format::{sat_add, sat_add_exec};
use crate::prefix::{spec_tokens, tokenize, MAX_LEVEL};

verus! {

/// An extraction expression: the text of a query that narrows a
/// fetched payload to a sub-value before it is flattened.
pub struct JsonPath(pub String);

/// One endpoint schema node: a relative path, an optional extraction
/// expression, an optional entity marker for lazy per-sibling
/// expansion, and optional child nodes.
pub struct API {
    pub path: String,
    pub is_entity: Option<bool>,
    pub jsonpath: Option<JsonPath>,
    pub apis: Option<Vec<API>>,
}

/// The loaded configuration: a base location and the schema roots.
pub struct Config {
    pub url: String,
    pub apis: Vec<API>,
}

pub open spec fn spec_max(a: int, b: int) -> int {
    if a >= b {
        a
    } else {
        b
    }
}

/// The deepest record path, in segments, that resolving this node
/// under a prefix of `base` segments can produce: its own leaf
/// record, one segment per mapping entry, and whatever its children
/// add one level down.
pub open spec fn spec_api_depth(a: API, base: int) -> int
    decreases a, 1int,
{
    let own = sat_add(base, spec_tokens(a.path@).len() as int);
    let entry = sat_add(base, 1);
    let sub: int = match a.apis {
        Some(v) => spec_apis_depth(v@, 0, sat_add(base, 1)),
        None => 0,
    };
    spec_max(own, spec_max(entry, sub))
}

pub open spec fn spec_apis_depth(list: Seq<API>, k: int, base: int) -> int
    decreases list, list.len() - k,
{
    if k < 0 || k >= list.len() {
        0
    } else {
        spec_max(spec_api_depth(list[k], base), spec_apis_depth(list, k + 1, base))
    }
}

fn api_depth(a: &API, base: usize) -> (r: usize)
    ensures
        r as int == spec_api_depth(*a, base as int),
    decreases *a, 1int,
{
    let toks = tokenize(a.path.as_str());
    let own = sat_add_exec(base, toks.len());
    let entry = sat_add_exec(base, 1);
    let mut best = if own > entry {
        own
    } else {
        entry
    };
    match &a.apis {
        Some(v) => {
            let sub = apis_depth_from(v, 0, entry);
            if sub > best {
                best = sub;
            }
        },
        None => {},
    }
    best
}

fn apis_depth_from(list: &Vec<API>, k: usize, base: usize) -> (r: usize)
    ensures
        r as int == spec_apis_depth(list@, k as int, base as int),
    decreases list@, list@.len() - k + 1,
{
    if k >= list.len() {
        return 0;
    }
    let d = api_depth(&list[k], base);
    let rest = apis_depth_from(list, k + 1, base);
    if d > rest {
        d
    } else {
        rest
    }
}

/// Whether every record path this schema can produce stays within
/// the supported depth; a deeper hierarchy is a configuration error
/// to report at load time.
pub fn schema_depth_ok(apis: &Vec<API>) -> (r: bool)
    ensures
        r == (spec_apis_depth(apis@, 0, 0) <= MAX_LEVEL as int),
{
    apis_depth_from(apis, 0, 0) <= MAX_LEVEL
}

} // verus!
