//! Edge lists as JSON text.

use vstd::prelude::*;

verus! {

/// The JSON text that `serde_json` writes for a list of pairs of numbers;
/// `None` where it reports an error.
pub uninterp spec fn json_of_edges(edges: Seq<(usize, usize)>) -> Option<Seq<char>>;

/// The list of pairs of numbers that `serde_json` reads from a JSON text;
/// `None` where it reports an error.
pub uninterp spec fn edges_of_json(text: Seq<char>) -> Option<Seq<(usize, usize)>>;

/// Calls `serde_json::to_string` on a list of pairs. Nothing is proved of
/// the call: it is taken to give the text that `json_of_edges` names, and
/// `None` where `serde_json` reports an error.
#[verifier::external_body]
pub(crate) fn edges_to_json(edges: &Vec<(usize, usize)>) -> (text: Option<String>)
    ensures
        match text {
            Some(s) => json_of_edges(edges@) == Some(s@),
            None => json_of_edges(edges@) is None,
        },
{
    match serde_json::to_string(edges) {
        Ok(s) => Some(s),
        Err(_) => None,
    }
}

/// Calls `serde_json::from_str` for a list of pairs. Nothing is proved of
/// the call: it is taken to give the list that `edges_of_json` names, and
/// `None` where `serde_json` reports an error.
#[verifier::external_body]
pub(crate) fn edges_from_json(text: &str) -> (edges: Option<Vec<(usize, usize)>>)
    ensures
        match edges {
            Some(list) => edges_of_json(text@) == Some(list@),
            None => edges_of_json(text@) is None,
        },
{
    match serde_json::from_str::<Vec<(usize, usize)>>(text) {
        Ok(list) => Some(list),
        Err(_) => None,
    }
}

} // verus!
