//! Small helpers on strings.

use vstd::prelude::*;

verus! {

/// A copy of an optional string.
pub fn copy_text(text: &Option<String>) -> (copy: Option<String>)
    ensures
        copy == *text,
{
    match text {
        Some(s) => Some(s.clone()),
        None => None,
    }
}

/// The views of a list of strings.
pub open spec fn text_views(texts: Seq<String>) -> Seq<Seq<char>> {
    Seq::new(texts.len(), |k: int| texts[k]@)
}

/// `Path::strip_prefix` of the standard library: the path relative to the
/// base, and nothing where the path does not begin with the base. Paths are
/// taken apart as the platform has it, so nothing is said of what comes
/// back.
#[verifier::external_body]
pub(crate) fn strip_prefix(path: &String, base: &String) -> (rest: Option<String>) {
    match std::path::Path::new(path.as_str()).strip_prefix(base.as_str()) {
        Ok(rel) => Some(rel.to_string_lossy().into_owned()),
        Err(_) => None,
    }
}

} // verus!
