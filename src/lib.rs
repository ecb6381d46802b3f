//! Release mechanics for a multi-package workspace: the semantic-version bump
//! rules, the level-by-level publish order of interdependent packages, and the
//! choice of the manifest files that a release rewrites.

pub mod bump_version;
pub mod fs;
pub mod manifest;
pub mod options;
pub mod publish;
