//! Recording a visit: the caller canonicalizes the path, takes the
//! advisory lock, loads the store, and persists it again; the in-memory
//! work is `Cache::add` followed by `Cache::aging`.

use vstd::prelude::*;

verus! {

/// Options for recording a visit.
pub struct Opts {
    /// Path to add inside the cache
    pub path: String,
}

} // verus!
