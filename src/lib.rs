//! Dependency resolution over semantic versions: a constraint parser that
//! turns operator expressions into version sets, a registry of package
//! versions and their dependency edges, and a resolver that hands that
//! registry to the PubGrub solver.
pub mod constraint;
pub mod error;
pub mod outside;
pub mod package;
pub mod ranges;
pub mod resolver;
pub mod text;
pub mod version;

pub use constraint::parse_constraint;
pub use error::ResolverError;
pub use package::Package;
pub use ranges::{admits, VersionRanges};
pub use resolver::{Resolver, SolveFailure};
pub use version::{parse_version, Release};
