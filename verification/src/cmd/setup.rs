//! Shell integration: emitting the hook script is an external
//! collaborator; the library only carries the option types.

use vstd::prelude::*;

verus! {

/// Which shell the hook script is for.
pub enum Shell {
    Zsh,
    Fish,
}

/// Options for generating the shell hook script.
pub struct Opts {
    /// Root directory that contains all projects.
    pub root: String,
    /// How the hook invokes the tool; defaults to invoking it by name.
    pub path: Option<String>,
    pub shell: Shell,
}

} // verus!
