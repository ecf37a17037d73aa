//! Typed clients of the endpoints of a remote node.

use vstd::prelude::*;

verus! {

/// The endpoints of a remote node, behind a handle to that node.
pub trait RemoteEndpoints<Remote>: Sized {
    /// Wraps the handle.
    fn wrap(remote: Remote) -> Self;
}

} // verus!
