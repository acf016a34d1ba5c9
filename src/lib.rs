//! Dependency resolution and install core of a package manager: specifier
//! parsing, registry response merging, lockfile reconciliation, peer
//! dependency checks and install planning.

pub mod add;
pub mod install;
pub mod keyed;
pub mod lockfile;
pub mod peer;
pub mod registry;
pub mod specifier;
