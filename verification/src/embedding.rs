//! The texts handed to the embedding model.
//!
//! Multilingual E5 models are trained for asymmetric retrieval: stored
//! passages and search queries are embedded with different prefixes.
use vstd::prelude::*;
use crate::text::push_str;

verus! {

broadcast use vstd::string::group_string_axioms;

/// The model input for a text that is stored (a fact or a message).
pub fn document_model_input(text: &str) -> (res: String)
    ensures
        res@ == "passage: "@ + text@,
{
    let mut res = "passage: ".to_owned();
    push_str(&mut res, text);
    res
}

/// The model input for a search query.
pub fn query_model_input(text: &str) -> (res: String)
    ensures
        res@ == "query: "@ + text@,
{
    let mut res = "query: ".to_owned();
    push_str(&mut res, text);
    res
}

}
