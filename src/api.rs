//! The request bodies and the response envelope of the HTTP interface, and
//! the status code that each outcome maps to.
use vstd::prelude::*;

use crate::collection::Point;
use crate::store::StoreError;

verus! {

/// The response envelope: exactly one of `status` and `error` is set.
pub struct APIResult<T> {
    pub result: T,
    pub status: Option<String>,
    pub error: Option<String>,
}

impl<T> APIResult<T> {
    /// The envelope is well formed: exactly one of `status` and `error` is set.
    pub open spec fn wf(&self) -> bool {
        self.status.is_some() != self.error.is_some()
    }

    /// A success envelope: `status` is `"ok"`.
    pub fn ok(result: T) -> (r: Self)
        ensures
            r.result == result,
            r.wf(),
            r.status matches Some(s) && s@ == "ok"@,
            r.error.is_none(),
    {
        APIResult { result, status: Some("ok".to_owned()), error: None }
    }

    /// A failure envelope carrying `message`.
    pub fn failed(result: T, message: String) -> (r: Self)
        ensures
            r.result == result,
            r.wf(),
            r.status.is_none(),
            r.error == Some(message),
    {
        APIResult { result, status: None, error: Some(message) }
    }
}

/// Body of a collection creation.
pub struct CreateConllections {
    pub vectors: CreateConllectionsVectors,
}

/// The vector settings of a new collection.
pub struct CreateConllectionsVectors {
    pub size: usize,
}

/// Body of a point upsert.
pub struct AddPoints {
    pub points: Vec<Point>,
}

/// Body of a multi-point lookup.
pub struct GetPoints {
    pub ids: Vec<u64>,
}

/// Body of a point deletion.
pub struct DeletePoints {
    pub points: Vec<u64>,
}

/// The HTTP status code for an outcome: 200 on success, 409 when a
/// collection exists already, 404 for any missing collection or point,
/// whatever the operation, 400 for a zero dimension, and 500 for a
/// dimension mismatch.
pub open spec fn status_spec(err: Option<StoreError>) -> u16 {
    match err {
        None => 200,
        Some(StoreError::AlreadyExists) => 409,
        Some(StoreError::NotFound) => 404,
        Some(StoreError::DimensionMismatch(_)) => 500,
        Some(StoreError::InvalidDimension) => 400,
    }
}

/// Maps an outcome to its HTTP status code (see [`status_spec`]).
pub fn status_code(err: Option<StoreError>) -> (r: u16)
    ensures
        r == status_spec(err),
{
    match err {
        None => 200,
        Some(StoreError::AlreadyExists) => 409,
        Some(StoreError::NotFound) => 404,
        Some(StoreError::DimensionMismatch(_)) => 500,
        Some(StoreError::InvalidDimension) => 400,
    }
}

} // verus!
