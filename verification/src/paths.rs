//! Host and in-sandbox path newtypes.
//!
//! A [`HostPath`] names a file on the host; an [`EnvPath`] names a file as
//! seen from inside a sandbox. The two are deliberately not interchangeable:
//! a runner may bind a host path onto an environment path, but code cannot
//! confuse one for the other. Joins keep the distinction.

use vstd::prelude::*;
use crate::text::concat3;

verus! {

/// The result of appending one path component: `base/component`.
pub open spec fn joined_path_of(base: Seq<char>, component: Seq<char>) -> Seq<char> {
    base + "/"@ + component
}

/// A path on the host filesystem.
#[derive(Debug)]
pub struct HostPath(String);

impl View for HostPath {
    type V = Seq<char>;

    closed spec fn view(&self) -> Seq<char> {
        self.0@
    }
}

impl Clone for HostPath {
    fn clone(&self) -> (r: Self)
        ensures
            r@ == self@,
    {
        HostPath(self.0.clone())
    }
}

impl HostPath {
    /// Wraps a raw host path string.
    pub fn from_string(s: String) -> (r: HostPath)
        ensures
            r@ == s@,
    {
        HostPath(s)
    }

    /// The raw path as a string slice.
    pub fn as_str(&self) -> (r: &str)
        ensures
            r@ == self@,
    {
        self.0.as_str()
    }

    /// Appends one component, keeping the host tag.
    pub fn join(&self, component: &str) -> (r: HostPath)
        ensures
            r@ == joined_path_of(self@, component@),
    {
        HostPath(concat3(self.0.as_str(), "/", component))
    }
}

/// A path as seen from inside a sandbox environment.
#[derive(Debug)]
pub struct EnvPath(String);

impl View for EnvPath {
    type V = Seq<char>;

    closed spec fn view(&self) -> Seq<char> {
        self.0@
    }
}

impl Clone for EnvPath {
    fn clone(&self) -> (r: Self)
        ensures
            r@ == self@,
    {
        EnvPath(self.0.clone())
    }
}

impl EnvPath {
    /// Wraps a raw in-sandbox path string.
    pub fn from_string(s: String) -> (r: EnvPath)
        ensures
            r@ == s@,
    {
        EnvPath(s)
    }

    /// The raw path as a string slice.
    pub fn as_str(&self) -> (r: &str)
        ensures
            r@ == self@,
    {
        self.0.as_str()
    }

    /// Appends one component, keeping the in-sandbox tag.
    pub fn join(&self, component: &str) -> (r: EnvPath)
        ensures
            r@ == joined_path_of(self@, component@),
    {
        EnvPath(concat3(self.0.as_str(), "/", component))
    }
}

} // verus!
