use vstd::prelude::*;

use crate::db::TxResponse;

verus! {

/// Page size used when a list request names none.
pub const DEFAULT_LIST_LIMIT: i64 = 100;

/// Smallest page size a list request can obtain.
pub const MIN_LIST_LIMIT: i64 = 1;

/// Largest page size a list request can obtain.
pub const MAX_LIST_LIMIT: i64 = 500;

/// Query parameters of the transaction list endpoint.
pub struct ListParams {
    pub limit: Option<i64>,
}

/// The page size actually used for a requested one: the default when none was
/// requested, otherwise the request clamped to the allowed range.
pub open spec fn effective_limit(requested: Option<i64>) -> i64 {
    let wanted = match requested {
        Some(n) => n,
        None => DEFAULT_LIST_LIMIT,
    };
    if wanted < MIN_LIST_LIMIT {
        MIN_LIST_LIMIT
    } else if wanted > MAX_LIST_LIMIT {
        MAX_LIST_LIMIT
    } else {
        wanted
    }
}

impl ListParams {
    /// The number of transactions a list request returns at most.
    pub fn limit(&self) -> (r: i64)
        ensures
            r == effective_limit(self.limit),
            MIN_LIST_LIMIT <= r <= MAX_LIST_LIMIT,
    {
        let wanted = match self.limit {
            Some(n) => n,
            None => DEFAULT_LIST_LIMIT,
        };
        if wanted < MIN_LIST_LIMIT {
            MIN_LIST_LIMIT
        } else if wanted > MAX_LIST_LIMIT {
            MAX_LIST_LIMIT
        } else {
            wanted
        }
    }
}

/// Why a request is answered with an error.
#[derive(Debug, PartialEq, Eq, Structural)]
pub enum ApiError {
    /// The stored data could not be read.
    Internal,
    /// No transaction with the requested hash is stored.
    NotFound,
}

impl ApiError {
    /// The HTTP status the error is answered with.
    pub fn status_code(&self) -> (r: u16)
        ensures
            *self == ApiError::Internal ==> r == 500,
            *self == ApiError::NotFound ==> r == 404,
    {
        match self {
            ApiError::Internal => 500,
            ApiError::NotFound => 404,
        }
    }
}

/// The answer to a request for one transaction: the transaction when it is
/// stored, not found otherwise.
pub fn tx_or_not_found(found: Option<TxResponse>) -> (r: Result<TxResponse, ApiError>)
    ensures
        found matches Some(t) ==> r == Ok::<TxResponse, ApiError>(t),
        found is None ==> r == Err::<TxResponse, ApiError>(ApiError::NotFound),
{
    match found {
        Some(t) => Ok(t),
        None => Err(ApiError::NotFound),
    }
}

/// A requested page size within the allowed range is used as it is.
pub proof fn law_limit_in_range_is_kept(n: i64)
    requires
        MIN_LIST_LIMIT <= n <= MAX_LIST_LIMIT,
    ensures
        effective_limit(Some(n)) == n,
{
}

} // verus!
