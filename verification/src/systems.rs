//! The interface between the storage and the code that runs on it.

use vstd::prelude::*;

verus! {

/// A container that can produce a value of type `T` on request. The
/// storage hands out its queries through this interface, so that callers
/// need to know nothing else of it.
pub trait Provider<Request, T> {
    /// Whether the container can serve `request` as it stands.
    spec fn provides(&self, request: &Request) -> bool;

    /// Produces the value that `request` asks for.
    fn provide(&mut self, request: Request) -> (value: T)
        requires
            old(self).provides(&request),
    ;
}

} // verus!
