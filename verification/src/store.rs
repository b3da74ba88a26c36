//! The package store model: the one durable state the pipeline owns,
//! a record per installed package name, viewed as a map from name to
//! record.
//!
//! The caller keeps the on-disk directory tree in step with this model:
//! every verified decision about what is installed is taken here.

use crate::manifest::{Manifest, ManifestV};
use crate::strutil::{concat2, concat3, concat4, str_eq};
use crate::PkgError;
use vstd::map::*;
use vstd::prelude::*;

verus! {

/// One installed package's persisted record: the raw pointer text kept
/// verbatim, and the manifest it resolved to at install time. A
/// manifest that cannot be read back from disk is `None`; the package
/// still counts as installed, and an update will refresh it.
pub struct StoreRecord {
    pub pointer: String,
    pub manifest: Option<Manifest>,
}

/// The mathematical value of a [`StoreRecord`].
pub struct RecordV {
    pub pointer: Seq<char>,
    pub manifest: Option<ManifestV>,
}

impl View for StoreRecord {
    type V = RecordV;

    open spec fn view(&self) -> RecordV {
        RecordV {
            pointer: self.pointer@,
            manifest: match self.manifest {
                Some(m) => Some(m@),
                Option::None => None,
            },
        }
    }
}

/// The package store, viewed as a map from package name to record.
pub struct Store {
    entries: Vec<(String, StoreRecord)>,
}

/// The map an entry list denotes; later entries win, though a
/// well-formed store never repeats a name.
spec fn map_of(es: Seq<(String, StoreRecord)>) -> Map<Seq<char>, RecordV>
    decreases es.len(),
{
    if es.len() == 0 {
        Map::empty()
    } else {
        map_of(es.drop_last()).insert(es.last().0@, es.last().1@)
    }
}

spec fn distinct_names(es: Seq<(String, StoreRecord)>) -> bool {
    forall|i: int, j: int| 0 <= i < j < es.len() ==> es[i].0@ != es[j].0@
}

proof fn lemma_map_of_contains(es: Seq<(String, StoreRecord)>, name: Seq<char>)
    ensures
        map_of(es).contains_key(name) <==> exists|i: int| 0 <= i < es.len() && es[i].0@ == name,
    decreases es.len(),
{
    if es.len() > 0 {
        lemma_map_of_contains(es.drop_last(), name);
        if map_of(es).contains_key(name) {
            if es.last().0@ != name {
                let i = choose|i: int| 0 <= i < es.drop_last().len() && es.drop_last()[i].0@
                    == name;
                assert(es[i].0@ == name);
            } else {
                assert(es[es.len() - 1].0@ == name);
            }
        }
        if exists|i: int| 0 <= i < es.len() && es[i].0@ == name {
            let i = choose|i: int| 0 <= i < es.len() && es[i].0@ == name;
            if i < es.len() - 1 {
                assert(es.drop_last()[i].0@ == name);
            }
        }
    }
}

proof fn lemma_map_of_get(es: Seq<(String, StoreRecord)>, i: int)
    requires
        0 <= i < es.len(),
        forall|j: int| i < j < es.len() ==> es[j].0@ != es[i].0@,
    ensures
        map_of(es).contains_key(es[i].0@),
        map_of(es)[es[i].0@] == es[i].1@,
    decreases es.len(),
{
    if i == es.len() - 1 {
    } else {
        assert(es.drop_last()[i] == es[i]);
        lemma_map_of_get(es.drop_last(), i);
        assert(es.last().0@ != es[i].0@);
    }
}

proof fn lemma_map_of_remove(es: Seq<(String, StoreRecord)>, i: int)
    requires
        0 <= i < es.len(),
        forall|j: int| 0 <= j < es.len() && j != i ==> es[j].0@ != es[i].0@,
    ensures
        map_of(es.remove(i)) == map_of(es).remove(es[i].0@),
    decreases es.len(),
{
    let name = es[i].0@;
    if i == es.len() - 1 {
        assert(es.remove(i) =~= es.drop_last());
        lemma_map_of_contains(es.drop_last(), name);
        assert(!map_of(es.drop_last()).contains_key(name));
        assert_maps_equal!(
            map_of(es.drop_last()).insert(name, es.last().1@).remove(name),
            map_of(es.drop_last()),
        );
    } else {
        assert(es.drop_last()[i] == es[i]);
        lemma_map_of_remove(es.drop_last(), i);
        assert(es.remove(i).drop_last() =~= es.drop_last().remove(i));
        assert(es.remove(i).last() == es.last());
        assert(es.last().0@ != name);
        assert_maps_equal!(
            map_of(es.drop_last()).remove(name).insert(es.last().0@, es.last().1@),
            map_of(es.drop_last()).insert(es.last().0@, es.last().1@).remove(name),
        );
    }
}

impl Store {
    /// Every name appears at most once.
    pub closed spec fn wf(&self) -> bool {
        distinct_names(self.entries@)
    }

    pub closed spec fn view(&self) -> Map<Seq<char>, RecordV> {
        map_of(self.entries@)
    }

    /// An empty store.
    pub fn new() -> (s: Store)
        ensures
            s.wf(),
            s@ == Map::<Seq<char>, RecordV>::empty(),
    {
        Store { entries: Vec::new() }
    }

    /// The index of a name's entry, when it has one.
    fn find_idx(&self, name: &str) -> (r: Option<usize>)
        ensures
            match r {
                Some(i) => i < self.entries@.len() && self.entries@[i as int].0@ == name@,
                Option::None => forall|j: int|
                    0 <= j < self.entries@.len() ==> self.entries@[j].0@ != name@,
            },
    {
        let mut i: usize = 0;
        while i < self.entries.len()
            invariant
                i <= self.entries@.len(),
                forall|j: int| 0 <= j < i ==> self.entries@[j].0@ != name@,
            decreases self.entries@.len() - i,
        {
            if str_eq(self.entries[i].0.as_str(), name) {
                return Some(i);
            }
            i += 1;
        }
        None
    }

    /// The record installed under a name, when one is.
    pub fn get(&self, name: &str) -> (r: Option<&StoreRecord>)
        requires
            self.wf(),
        ensures
            match r {
                Some(rec) => self@.contains_key(name@) && self@[name@] == rec@,
                Option::None => !self@.contains_key(name@),
            },
    {
        match self.find_idx(name) {
            Some(i) => {
                proof {
                    lemma_map_of_get(self.entries@, i as int);
                }
                Some(&self.entries[i].1)
            },
            Option::None => {
                proof {
                    lemma_map_of_contains(self.entries@, name@);
                }
                None
            },
        }
    }

    /// Creates or replaces a name's record: the persisting step of the
    /// install executor, and the loader's way of rebuilding the model.
    pub fn put_record(&mut self, name: &str, record: StoreRecord)
        requires
            old(self).wf(),
        ensures
            final(self).wf(),
            final(self)@ == old(self)@.insert(name@, record@),
    {
        let ghost es0 = self.entries@;
        match self.find_idx(name) {
            Some(i) => {
                proof {
                    lemma_map_of_remove(es0, i as int);
                    lemma_map_of_contains(es0.remove(i as int), name@);
                }
                self.entries.remove(i);
                let ghost es1 = self.entries@;
                self.entries.push((name.to_owned(), record));
                proof {
                    assert(self.entries@.drop_last() =~= es1);
                    assert(forall|j: int| 0 <= j < es1.len() ==> es1[j].0@ != name@);
                    assert_maps_equal!(
                        map_of(es1).insert(name@, record@),
                        map_of(es0).insert(name@, record@),
                    );
                }
            },
            Option::None => {
                self.entries.push((name.to_owned(), record));
                proof {
                    assert(self.entries@.drop_last() =~= es0);
                }
            },
        }
    }

    /// Deletes a name's record. `NotInstalled` exactly when the store
    /// has none, and then the store is untouched.
    pub fn remove(&mut self, name: &str) -> (r: Result<(), PkgError>)
        requires
            old(self).wf(),
        ensures
            final(self).wf(),
            old(self)@.contains_key(name@) ==> r is Ok && final(self)@ == old(self)@.remove(name@),
            !old(self)@.contains_key(name@) ==> final(self)@ == old(self)@ && (r matches Err(
                PkgError::NotInstalled(n),
            ) && n@ == name@),
    {
        let ghost es0 = self.entries@;
        proof {
            lemma_map_of_contains(es0, name@);
        }
        match self.find_idx(name) {
            Some(i) => {
                proof {
                    lemma_map_of_remove(es0, i as int);
                }
                self.entries.remove(i);
                Ok(())
            },
            Option::None => Err(PkgError::NotInstalled(name.to_owned())),
        }
    }
}

/// Reading a record back yields exactly the record installed: the
/// round-trip law for [`Store::put_record`] followed by [`Store::get`].
pub proof fn lemma_store_roundtrip(m: Map<Seq<char>, RecordV>, name: Seq<char>, rec: RecordV)
    ensures
        m.insert(name, rec).contains_key(name),
        m.insert(name, rec)[name] == rec,
{
}

/// A removed name is no longer installed, and no other name moves: the
/// law behind [`Store::remove`].
pub proof fn lemma_remove_gone(m: Map<Seq<char>, RecordV>, name: Seq<char>)
    ensures
        !m.remove(name).contains_key(name),
        forall|other: Seq<char>|
            other != name ==> #[trigger] m.remove(name).contains_key(other) == m.contains_key(
                other,
            ),
        forall|other: Seq<char>|
            other != name && m.contains_key(other) ==> #[trigger] m.remove(name)[other] == m[other],
{
}

/// The store directory for a package name under the store root.
pub fn store_dir(root: &str, name: &str) -> (r: String)
    ensures
        r@ == root@ + "/"@ + name@,
{
    concat3(root, "/", name)
}

/// The persisted manifest file inside a package's store directory.
pub fn manifest_path(dir: &str) -> (r: String)
    ensures
        r@ == dir@ + "/Thread.yml"@,
{
    concat2(dir, "/Thread.yml")
}

/// The persisted raw pointer file inside a package's store directory.
pub fn pointer_path(dir: &str) -> (r: String)
    ensures
        r@ == dir@ + "/package.yml"@,
{
    concat2(dir, "/package.yml")
}

/// The temporary archive download inside a package's store directory.
pub fn archive_path(dir: &str, name: &str) -> (r: String)
    ensures
        r@ == dir@ + "/"@ + name@ + ".choco.pkg"@,
{
    concat4(dir, "/", name, ".choco.pkg")
}

} // verus!
