//! Parameters of the recent-errors endpoint.
use vstd::prelude::*;

verus! {

/// Query parameters of the recent-errors endpoint.
pub struct ErrorParams {
    pub limit: Option<i64>,
}

/// Number of errors listed: the requested limit, 20 by default.
pub fn effective_limit(params: &ErrorParams) -> (res: i64)
    ensures
        res == match params.limit {
            Some(l) => l,
            None => 20,
        },
{
    match params.limit {
        Some(l) => l,
        None => 20,
    }
}

} // verus!
