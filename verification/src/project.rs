//! Project references for cloning.
//!
//! The library carries the parsed shape of a reference; reading one out
//! of its text (`gh:owner/repo`, a full URL, or an ssh shorthand) leans
//! on an outside URL parser and stays with the cloning collaborator,
//! outside the verified core.

use vstd::prelude::*;

verus! {

/// A project to clone: a well-known host shorthand, or a full URL with
/// its parts already extracted.
pub enum Project {
    Github { owner: String, repo: String },
    Git { url: String, domain: String, owner: String, repo: String },
}

} // verus!
