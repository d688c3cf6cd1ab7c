//! Reports which dependencies of a workspace have newer versions available,
//! comparing the current resolution with a semver-compatible one and with an
//! unconstrained one.
pub mod graph;
pub mod manifest;
pub mod options;
pub mod paths;
pub mod policy;
