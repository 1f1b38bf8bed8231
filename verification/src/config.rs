//! Configured search locations.
//!
//! A [`Root`] names one directory to search for projects, together with the
//! maximum depth to descend. A [`Config`] is the list of configured roots.
//! Reading the configuration file itself is left to the caller; this module
//! only models the loaded values and expands the home-directory shorthand.

use vstd::prelude::*;

verus! {

/// A search root directory with discovery settings.
pub struct Root {
    /// Path to the root directory; may start with `~`, which stands for the
    /// user's home directory.
    pub path: String,
    /// Maximum number of directory levels below the root that a project may
    /// sit at.
    pub depth: u32,
    /// Whether this root contains sparse-checkout repositories. Informational
    /// only; discovery does not read it.
    pub sparse_checkout: bool,
}

/// The full configuration: the list of roots to search for projects.
pub struct Config {
    /// Root directories to search, in the order they were configured.
    pub roots: Vec<Root>,
}

impl Default for Config {
    /// The default configuration has no roots.
    fn default() -> (r: Self)
        ensures
            r.roots@.len() == 0,
    {
        Config { roots: Vec::new() }
    }
}

/// Relies on shellexpand::tilde: a string that does not start with `~` is
/// returned unchanged; one that does has the leading `~` replaced by the
/// user's home directory when that directory is known.
#[verifier::external_body]
fn expand_tilde(s: &str) -> (r: String)
    ensures
        s@.len() == 0 || s@[0] != '~' ==> r@ == s@,
{
    shellexpand::tilde(s).into_owned()
}

impl Root {
    /// Expand the root's path: a leading `~` is replaced by the user's home
    /// directory. A path that does not start with `~` comes back unchanged.
    pub fn expanded_path(&self) -> (r: String)
        ensures
            self.path@.len() == 0 || self.path@[0] != '~' ==> r@ == self.path@,
    {
        expand_tilde(self.path.as_str())
    }
}

} // verus!
