//! The namespace a new element is created in.

use vstd::prelude::*;
use crate::binding::str_eq;
use vstd::string::StringExecFns;

verus! {

/// The SVG namespace URI.
pub const SVG_NAMESPACE: &'static str = "http://www.w3.org/2000/svg";
/// The MathML namespace URI.
pub const MATHML_NAMESPACE: &'static str = "http://www.w3.org/1998/Math/MathML";

/// The namespace of a new element: its own `xmlns` attribute when it has
/// one; SVG for an `svg` tag or under an SVG parent; MathML for a `math` tag
/// or under a MathML parent; none (plain HTML) otherwise.
pub open spec fn namespace_spec(
    xmlns: Option<Seq<char>>,
    tag: Seq<char>,
    parent_namespace: Option<Seq<char>>,
) -> Option<Seq<char>> {
    match xmlns {
        Some(ns) => Some(ns),
        None => if tag == "svg"@ || parent_namespace == Some(SVG_NAMESPACE@) {
            Some(SVG_NAMESPACE@)
        } else if tag == "math"@ || parent_namespace == Some(MATHML_NAMESPACE@) {
            Some(MATHML_NAMESPACE@)
        } else {
            None
        },
    }
}

fn is_namespace(parent_namespace: Option<&str>, expected: &str) -> (r: bool)
    ensures
        r == (parent_namespace matches Some(p) && p@ == expected@),
{
    match parent_namespace {
        Some(p) => str_eq(p, expected),
        None => false,
    }
}

/// Chooses the namespace of a new element (see [`namespace_spec`]) from
/// its `xmlns` attribute, its tag and the namespace recorded on its parent.
pub fn element_namespace(xmlns: Option<&str>, tag: &str, parent_namespace: Option<&str>) -> (r: Option<String>)
    ensures
        (match r {
            Some(s) => Some(s@),
            None => None,
        }) == namespace_spec(
            match xmlns {
                Some(x) => Some(x@),
                None => None,
            },
            tag@,
            match parent_namespace {
                Some(p) => Some(p@),
                None => None,
            },
        ),
{
    match xmlns {
        Some(ns) => Some(String::from_str(ns)),
        None => {
            if str_eq(tag, "svg") || is_namespace(parent_namespace, SVG_NAMESPACE) {
                Some(String::from_str(SVG_NAMESPACE))
            } else if str_eq(tag, "math") || is_namespace(parent_namespace, MATHML_NAMESPACE) {
                Some(String::from_str(MATHML_NAMESPACE))
            } else {
                None
            }
        },
    }
}

} // verus!
