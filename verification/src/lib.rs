//! Least-witness intersection of SemVer version requirements.
pub mod prerelease;
pub mod version;
pub mod satisfy;
pub mod ordered;
pub mod solve;
pub mod text;
pub mod parse;
pub mod laws;
pub mod fields;
pub mod grammar;
pub mod forms;
pub mod rules;

pub use crate::parse::Error;
pub use crate::prerelease::Prerelease;
pub use crate::satisfy::{Conflict, ConflictReason, Intersection};
pub use crate::version::{BuildMetadata, Comparator, Op, Version, VersionReq};
