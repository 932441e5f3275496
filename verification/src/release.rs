//! Options for assembling a release bundle of packages. Building the
//! packages, generating bindings and writing the bundle are I/O and live
//! with the application; the library holds the options and checks their
//! shape.

use vstd::prelude::*;

verus! {

/// Options to configure the generation of a release.
pub struct ReleaseOptions {
    /// The paths to the packages for which to create a release.
    pub packages: Vec<String>,
    /// One binding-output path per package; an empty path means no
    /// bindings are generated for that package.
    pub rust_bindings: Vec<String>,
    /// The path where to place the release bundle.
    pub output: String,
}

impl ReleaseOptions {
    /// A release pairs each package with its binding slot: the two lists
    /// have the same length.
    pub open spec fn well_paired(self) -> bool {
        self.packages@.len() == self.rust_bindings@.len()
    }

    /// Options from their parts.
    pub fn new(packages: Vec<String>, rust_bindings: Vec<String>, output: String) -> (r:
        ReleaseOptions)
        ensures
            r.packages@ == packages@,
            r.rust_bindings@ == rust_bindings@,
            r.output@ == output@,
    {
        ReleaseOptions { packages, rust_bindings, output }
    }

    /// How many packages the release includes.
    pub fn package_count(&self) -> (r: usize)
        ensures
            r == self.packages@.len(),
    {
        self.packages.len()
    }

    /// Whether every package has its binding slot.
    pub fn check_paired(&self) -> (r: bool)
        ensures
            r == self.well_paired(),
    {
        self.packages.len() == self.rust_bindings.len()
    }
}

} // verus!
