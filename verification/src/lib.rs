//! Verified core of a skin-package installer for a desktop theming host.
//!
//! The library classifies archive entry paths, plans the installation of
//! plugins, layouts and skins, preserves user-set variable values across a
//! reinstall, and models the merge-copy of directory trees, all with proved
//! contracts.  Reading the package archive and touching the real file system
//! are left to the surrounding application.

pub mod classify;
pub mod engine;
pub mod errors;
pub mod fstree;
pub mod inireader;
pub mod manifest;
pub mod plan;
pub mod variables;
pub mod winini;
