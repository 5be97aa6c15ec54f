//! What the two pages of the web interface are filled with.

use crate::rank::QueryResult;
use vstd::prelude::*;

verus! {

/// The results page: the query as it was typed, and the ranked documents.
#[derive(Debug)]
pub struct Results {
    pub search_word: String,
    pub results: QueryResult,
}

/// The history page: the queries of this run, the oldest first.
#[derive(Debug)]
pub struct History {
    pub history: Vec<String>,
}

} // verus!
