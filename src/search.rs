//! The parameters of a search request.

use vstd::prelude::*;

verus! {

/// Query parameters of a search request: `q` is the query text.
#[derive(Debug, Clone)]
pub struct SearchQuery {
    pub q: String,
}

} // verus!
