//! Workspace tooling: the dependency-direction policy and the package metadata
//! it is checked against, the App Shell lint, and the iOS bindings' lock.
pub mod names;
pub mod policy;
pub mod metadata;
pub mod lint;
pub mod ios;
