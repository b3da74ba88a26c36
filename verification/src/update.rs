//! The update checker: recover the stored pointer, compare the locally
//! recorded version against the manifest the remote now serves, and
//! refresh the record only when they differ.

use crate::manifest::{Manifest, ManifestV};
use crate::store::{RecordV, Store, StoreRecord};
use crate::strutil::str_eq;
use crate::PkgError;
use vstd::prelude::*;

verus! {

/// What an update attempt concluded.
#[derive(Debug, PartialEq, Eq)]
pub enum UpdateOutcome {
    /// The remote serves a different version; the record was refreshed.
    Updated(String),
    /// The stored manifest already has the version the remote serves.
    UpToDate(String),
    /// The store has no record of the name.
    NotInstalled,
}

/// Whether a stored record needs a refresh, given the version the
/// remote now serves: a missing or unreadable local manifest always
/// does, otherwise exactly a version difference does.
pub open spec fn needs_update(rec: RecordV, new_version: Seq<char>) -> bool {
    match rec.manifest {
        Some(m) => m.version != new_version,
        Option::None => true,
    }
}

/// The raw pointer text under which a name was installed, from which
/// the updater re-fetches the manifest without consulting any remote
/// index. `NotInstalled` exactly when the store has no record.
pub fn stored_pointer(store: &Store, name: &str) -> (r: Result<String, PkgError>)
    requires
        store.wf(),
    ensures
        match r {
            Ok(p) => store@.contains_key(name@) && store@[name@].pointer == p@,
            Err(e) => !store@.contains_key(name@) && (e matches PkgError::NotInstalled(n) && n@
                == name@),
        },
{
    match store.get(name) {
        Some(rec) => Ok(rec.pointer.clone()),
        Option::None => Err(PkgError::NotInstalled(name.to_owned())),
    }
}

/// Applies the freshly fetched manifest to the store: refreshes the
/// record exactly when [`needs_update`] says so, keeping the pointer
/// unchanged, and reports the conclusion.
pub fn apply_update(store: &mut Store, name: &str, fetched: Manifest) -> (r: UpdateOutcome)
    requires
        old(store).wf(),
    ensures
        final(store).wf(),
        !old(store)@.contains_key(name@) ==> r is NotInstalled && final(store)@ == old(store)@,
        old(store)@.contains_key(name@) && !needs_update(old(store)@[name@], fetched@.version)
            ==> (r matches UpdateOutcome::UpToDate(v) && v@ == fetched@.version) && final(store)@
            == old(store)@,
        old(store)@.contains_key(name@) && needs_update(old(store)@[name@], fetched@.version) ==> (
        r matches UpdateOutcome::Updated(v) && v@ == fetched@.version) && final(store)@ == old(
            store,
        )@.insert(
            name@,
            RecordV { pointer: old(store)@[name@].pointer, manifest: Some(fetched@) },
        ),
{
    let (pointer, needs) = match store.get(name) {
        Option::None => {
            return UpdateOutcome::NotInstalled;
        },
        Some(rec) => {
            let needs = match &rec.manifest {
                Some(m) => !str_eq(m.version.as_str(), fetched.version.as_str()),
                Option::None => true,
            };
            (rec.pointer.clone(), needs)
        },
    };
    let version = fetched.version.clone();
    if needs {
        store.put_record(name, StoreRecord { pointer, manifest: Some(fetched) });
        UpdateOutcome::Updated(version)
    } else {
        UpdateOutcome::UpToDate(version)
    }
}

/// Update is idempotent: once an update has stored the remote's
/// manifest, a second update seeing the same version finds nothing to
/// do — by [`apply_update`]'s contract it reports `UpToDate` and
/// leaves the store exactly as it was.
pub proof fn lemma_update_idempotent(
    m: Map<Seq<char>, RecordV>,
    name: Seq<char>,
    pointer: Seq<char>,
    fetched: ManifestV,
)
    ensures
        !needs_update(
            m.insert(name, RecordV { pointer, manifest: Some(fetched) })[name],
            fetched.version,
        ),
{
}

} // verus!
