//! A small package manager core: remote discovery, pointer/manifest
//! resolution, dependency closure construction, and the
//! install/update/remove state machine over a persisted package store.

pub mod closure;
pub mod install;
pub mod laws;
pub mod locate;
pub mod manifest;
pub mod remotes;
pub mod store;
pub mod strutil;
pub mod update;
pub mod yaml;

use vstd::prelude::*;

verus! {

/// Failure kinds of the resolution-and-installation pipeline.
///
/// Each variant carries the name of the package or document the
/// failure is about, so a caller can report which member of a batch
/// failed and at which stage.
#[derive(Debug, PartialEq, Eq)]
pub enum PkgError {
    /// A remote's index or document could not be fetched.
    RemoteUnreachable(String),
    /// A pointer, manifest or index failed to parse or lacks a field.
    MalformedDocument(String),
    /// No remote lists the requested package name.
    PackageNotFound(String),
    /// A dependency was re-encountered while still being resolved.
    CircularDependency(String),
    /// The package archive could not be downloaded.
    ArchiveDownloadFailed(String),
    /// The downloaded archive could not be extracted.
    ArchiveExtractFailed(String),
    /// The package's install command exited with a non-zero status.
    InstallScriptFailed(String),
    /// Update or remove was asked of a package that is not installed.
    NotInstalled(String),
    /// A write into the package store failed.
    StoreWriteFailed(String),
}



} // verus!
