//! Defaults that a configuration file may give.

use vstd::prelude::*;

verus! {

/// Settings read from a configuration file; each is unset unless the file gives it.
#[derive(Debug)]
pub struct Config {
    pub preserve_header: Option<bool>,
    pub output_dir: Option<String>,
    pub prefix: Option<String>,
    pub dry_run: Option<bool>,
}

impl Default for Config {
    /// A configuration that sets nothing.
    fn default() -> (r: Config)
        ensures
            r.preserve_header is None,
            r.output_dir is None,
            r.prefix is None,
            r.dry_run is None,
    {
        Config { preserve_header: None, output_dir: None, prefix: None, dry_run: None }
    }
}

} // verus!
