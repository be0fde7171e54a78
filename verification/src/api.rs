//! Errors of the serving layer.

use crate::collection::CollectionError;
use vstd::prelude::*;
use vstd::std_specs::convert::FromSpecImpl;

verus! {

/// Why the server could not be started.
#[derive(Debug)]
pub enum ApiError {
    CollectionError(CollectionError),
}

impl From<CollectionError> for ApiError {
    fn from(inner: CollectionError) -> (r: Self) {
        ApiError::CollectionError(inner)
    }
}

impl FromSpecImpl<CollectionError> for ApiError {
    open spec fn obeys_from_spec() -> bool {
        true
    }

    open spec fn from_spec(inner: CollectionError) -> Self {
        ApiError::CollectionError(inner)
    }
}

} // verus!
