//! The output directories that a project's cargo configuration names.

use vstd::prelude::*;

use crate::path::FsPath;

verus! {

/// Which setting an output directory came from.
#[derive(Clone, Copy, Debug, PartialEq, Eq, Structural)]
pub enum OutputKind {
    /// `build.target-dir`, or the default `target`.
    Target,
    /// `build.build-dir`.
    Build,
}

/// A project and one of its output directories, not measured yet.
#[derive(Clone, Debug)]
pub struct DiscoveredEntry {
    /// Directory holding `Cargo.toml`.
    pub project_path: FsPath,
    pub target_dir: FsPath,
    pub kind: OutputKind,
    /// True when the directory came from `$CARGO_HOME/config.toml`.
    pub shared: bool,
}

} // verus!
