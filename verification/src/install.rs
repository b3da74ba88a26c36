//! The install executor's plan: the ordered steps that install one
//! package, the failure kind each step reports, and the batch verdict.
//!
//! Running the steps — filesystem writes, the archive download and
//! extraction, the shell command — is the caller's work; which steps
//! run, in which order, and what a failure of each means is decided
//! here. A failed step aborts the remaining steps of its package but,
//! by design, not the other packages of a batch.

use crate::manifest::Manifest;
use crate::PkgError;
use vstd::prelude::*;

verus! {

/// One step of an install, in execution order.
#[derive(Debug)]
pub enum InstallStep {
    /// Create or replace the store directory and persist the manifest
    /// and the raw pointer text as the package's record.
    WriteRecord,
    /// Download the archive at this URL to the temporary archive path.
    Download(String),
    /// Extract the downloaded archive into the store directory, then
    /// delete the temporary archive.
    Extract,
    /// Run this install command through a shell; a non-zero exit status
    /// fails the install.
    RunScript(String),
}

/// The steps that install one package: persist the record, then — only
/// when the manifest declares an archive — download and extract it,
/// then run the install command.
pub fn install_plan(manifest: &Manifest) -> (r: Vec<InstallStep>)
    ensures
        match manifest@.archive_url {
            Some(u) => r@.len() == 4 && r@[0] is WriteRecord && (r@[1] matches InstallStep::Download(
                d,
            ) && d@ == u) && r@[2] is Extract && (r@[3] matches InstallStep::RunScript(c) && c@
                == manifest@.install_command),
            Option::None => r@.len() == 2 && r@[0] is WriteRecord && (r@[1] matches InstallStep::RunScript(
                c,
            ) && c@ == manifest@.install_command),
        },
{
    let mut steps: Vec<InstallStep> = Vec::new();
    steps.push(InstallStep::WriteRecord);
    match &manifest.archive_url {
        Some(u) => {
            steps.push(InstallStep::Download(u.clone()));
            steps.push(InstallStep::Extract);
        },
        Option::None => {},
    }
    steps.push(InstallStep::RunScript(manifest.install_command.clone()));
    steps
}

/// The failure a step reports for the named package when the caller
/// could not carry it out.
pub fn step_failure(step: &InstallStep, name: &str) -> (r: PkgError)
    ensures
        step is WriteRecord ==> (r matches PkgError::StoreWriteFailed(n) && n@ == name@),
        step is Download ==> (r matches PkgError::ArchiveDownloadFailed(n) && n@ == name@),
        step is Extract ==> (r matches PkgError::ArchiveExtractFailed(n) && n@ == name@),
        step is RunScript ==> (r matches PkgError::InstallScriptFailed(n) && n@ == name@),
{
    match step {
        InstallStep::WriteRecord => PkgError::StoreWriteFailed(name.to_owned()),
        InstallStep::Download(_) => PkgError::ArchiveDownloadFailed(name.to_owned()),
        InstallStep::Extract => PkgError::ArchiveExtractFailed(name.to_owned()),
        InstallStep::RunScript(_) => PkgError::InstallScriptFailed(name.to_owned()),
    }
}

/// A multi-package operation fails as a whole exactly when some
/// member failed, while the other members' outcomes stand.
pub fn batch_failed(results: &Vec<Option<PkgError>>) -> (r: bool)
    ensures
        r <==> exists|i: int| 0 <= i < results@.len() && results@[i] is Some,
{
    let mut i: usize = 0;
    while i < results.len()
        invariant
            i <= results@.len(),
            forall|j: int| 0 <= j < i ==> results@[j] is None,
        decreases results@.len() - i,
    {
        if results[i].is_some() {
            return true;
        }
        i += 1;
    }
    false
}

} // verus!
