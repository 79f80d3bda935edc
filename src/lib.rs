//! Fetching every package of a lockfile through generated scratch projects.
//!
//! The packages of a lockfile are divided into batches in which no name occurs twice
//! ([`batches`]); each batch becomes a sub-project whose dependency entries pin the packages'
//! sources ([`source`]), with short aliases for their registries ([`registry_aliases`]); a root
//! project depends on all sub-projects by path ([`assembly`]). The tables written into the
//! projects are built in [`manifest`], the command lines for cargo in [`cargo`].
pub mod assembly;
pub mod batches;
pub mod cargo;
pub mod cli;
pub mod manifest;
pub mod numbering;
pub mod registry_aliases;
pub mod source;
