//! Shared handles.

use crate::idmap::IdMap;
use std::sync::Arc;
use vstd::prelude::*;

verus! {

/// Another handle on the same value. Calls `Arc::clone`, of which this
/// states that the new handle points to the value that the old one points
/// to.
#[verifier::external_body]
pub(crate) fn share<T>(handle: &Arc<T>) -> (r: Arc<T>)
    ensures
        r == *handle,
{
    Arc::clone(handle)
}

/// Whether two handles are handles on one and the same map, not merely on
/// maps with the same entries. Calls `Arc::ptr_eq`: the answer depends on
/// where the maps lie, so this states only what holds whenever it is `true`,
/// that both handles then point to one value.
#[verifier::external_body]
pub(crate) fn same_handle(a: &Arc<IdMap>, b: &Arc<IdMap>) -> (r: bool)
    ensures
        r ==> *a == *b,
{
    Arc::ptr_eq(a, b)
}

} // verus!
