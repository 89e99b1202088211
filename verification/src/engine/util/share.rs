//! Shared handles.
use std::sync::Arc;
use vstd::prelude::*;

verus! {

/// Calls `Arc::clone`: another handle on the same value.
#[verifier::external_body]
pub(crate) fn share<T>(value: &Arc<T>) -> (r: Arc<T>)
    ensures
        r == *value,
{
    Arc::clone(value)
}

} // verus!
