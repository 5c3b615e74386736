//! Markers in attributes: short-lived content and benchmark fixtures.
use vstd::prelude::*;
use vstd::string::*;

use crate::attrs::{self, AttrSpec, AttrValue, Attrs, AttrsSpec, AttrsValue, Members};
use crate::text;

verus! {

/// The value says that it is so: the string `true`, as it comes back from a
/// file, or the value `true` or the number 1, as callers supply it.
pub open spec fn affirms(v: AttrSpec) -> bool {
    match v {
        AttrSpec::Text(s) => s == "true"@,
        AttrSpec::Json(s) => s == "true"@ || s == "1"@ || s == "1.0"@,
    }
}

/// The content is short-lived.
#[verifier::opaque]
pub open spec fn is_transient(attrs: AttrsSpec) -> bool {
    attrs::value_of(attrs.members(), "transient"@) matches Some(v) && affirms(v)
}

/// The member is there and is not null.
pub open spec fn is_set(members: Members, key: Seq<char>) -> bool {
    attrs::value_of(members, key) matches Some(v) && v != AttrSpec::Json("null"@)
}

/// The content belongs to a benchmark: it names a run and a case.
#[verifier::opaque]
pub open spec fn is_benchmark(attrs: AttrsSpec) -> bool {
    is_set(attrs.members(), "benchmark_run_id"@) && is_set(attrs.members(), "benchmark_case_id"@)
}

fn does_affirm(v: &AttrValue) -> (r: bool)
    ensures
        r == affirms(v@),
{
    match v {
        AttrValue::Text(s) => text::same(s.as_str(), "true"),
        AttrValue::Json(s) => text::same(s.as_str(), "true") || text::same(s.as_str(), "1")
            || text::same(s.as_str(), "1.0"),
    }
}

/// Whether the content is short-lived.
pub fn transient(attrs: &AttrsValue) -> (r: bool)
    ensures
        r == is_transient(attrs@),
{
    reveal(is_transient);
    let members = attrs.object_or_empty();
    match members.get("transient") {
        Some(v) => does_affirm(v),
        None => false,
    }
}

fn has_value(members: &Attrs, key: &str) -> (r: bool)
    ensures
        r == is_set(members@, key@),
{
    match members.get(key) {
        Some(v) => match v {
            AttrValue::Text(_) => true,
            AttrValue::Json(s) => !text::same(s.as_str(), "null"),
        },
        None => false,
    }
}

/// Whether the content belongs to a benchmark.
pub fn benchmark(attrs: &AttrsValue) -> (r: bool)
    ensures
        r == is_benchmark(attrs@),
{
    reveal(is_benchmark);
    let members = attrs.object_or_empty();
    has_value(&members, "benchmark_run_id") && has_value(&members, "benchmark_case_id")
}

} // verus!
