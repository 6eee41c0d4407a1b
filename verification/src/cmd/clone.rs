//! Cloning a project: parsing the project reference and running the
//! version-control command are external collaborators; the library only
//! carries the option type.

use vstd::prelude::*;

verus! {

/// Options for cloning a project.
pub struct Opts {
    /// The project reference to clone.
    pub project: String,
}

} // verus!
