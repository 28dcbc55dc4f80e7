//! Library behind a sandbox-environment manager: validated names for
//! environments and packages, a package registry with dependency resolution
//! and staleness tracking, a uniform runner contract over its backends, and
//! the orchestration flows that tie them together.

use vstd::prelude::*;

pub mod archive;
pub mod bubblewrap;
pub mod cache;
pub mod cubicle;
pub mod docker;
pub mod error;
pub mod names;
pub mod paths;
pub mod registry;
pub mod runner;
pub mod shell;
pub mod sets;
pub mod text;
pub mod user;

verus! {

/// Tri-state answer to "does this environment exist?".
///
/// An environment has two storage areas, home and work. It fully exists when
/// both are present; it partially exists (broken, needs recovery) when only
/// some of its parts are present.
#[derive(Clone, Copy, Debug, PartialEq, Eq, Structural)]
pub enum EnvironmentExists {
    /// Both storage areas (and possibly a live instance) are present.
    FullyExists,
    /// Some but not all parts are present; the environment is broken.
    PartiallyExists,
    /// No storage and no live instance.
    NoEnvironment,
}

} // verus!
