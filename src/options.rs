//! The choices a run is made with.
use vstd::prelude::*;

verus! {

/// What the user asked for: feature selection for resolution (an explicit
/// list, all features, or no default features, at most one of them), output
/// and verbosity settings, the manifest to start from, the packages to look
/// at, and the exit code to return when drift is found.
#[derive(Debug)]
pub struct Options {
    pub flag_color: Option<String>,
    pub flag_features: Vec<String>,
    pub flag_all_features: bool,
    pub flag_no_default_features: bool,
    pub flag_manifest_path: Option<String>,
    pub flag_quiet: Option<bool>,
    pub flag_verbose: u32,
    pub flag_frozen: bool,
    pub flag_locked: bool,
    pub flag_exit_code: u32,
    pub flag_packages: Vec<String>,
    pub flag_root: Option<String>,
}

} // verus!
