//! Lists of texts as JSON.
use vstd::prelude::*;

use crate::text::texts;

verus! {

/// The list of texts that `serde_json` reads from a text.
pub uninterp spec fn json_texts(s: Seq<char>) -> Option<Seq<Seq<char>>>;

/// `serde_json::to_string` of a list of texts: a text that reads back as the
/// same list.
#[verifier::external_body]
pub(crate) fn json_list(v: &Vec<String>) -> (r: String)
    ensures
        json_texts(r@) == Some(texts(v@)),
{
    serde_json::to_string(v).unwrap_or_default()
}

/// `serde_json::from_str` into a list of texts: the list that a text writes,
/// or the reason why it writes none.
#[verifier::external_body]
pub(crate) fn parse_json_list(s: &str) -> (r: std::result::Result<Vec<String>, String>)
    ensures
        match r {
            Ok(v) => json_texts(s@) == Some(texts(v@)),
            Err(_) => json_texts(s@) is None,
        },
{
    serde_json::from_str(s).map_err(|e| e.to_string())
}

} // verus!
