//! The dependency resolver: builds the transitive closure of a root
//! manifest's declared dependencies as an explicit depth-first walk
//! that the caller drives, fetching one manifest per request.
//!
//! The walk keeps the active path apart from the set of names already
//! seen: a dependency re-encountered while still on the path is a
//! circular-dependency failure, a name merely seen before is skipped,
//! so every name is fetched at most once. Finished packages are
//! recorded in post order, so every member's dependencies precede it
//! and the root's own entry — which the caller adds after the walk —
//! comes last. Each member carries exactly the manifest and raw
//! pointer text the driver provided for its name.

use crate::manifest::{Manifest, ManifestV};
use crate::strutil::{str_eq, str_vec_contains};
use crate::PkgError;
use vstd::prelude::*;

verus! {

/// One member of the closure: a resolved package under the name it was
/// requested by, with the raw pointer text it was fetched through.
pub struct ClosureEntry {
    pub name: String,
    pub manifest: Manifest,
    pub pointer: String,
}

/// The mathematical value of a [`ClosureEntry`].
pub struct EntryV {
    pub name: Seq<char>,
    pub manifest: ManifestV,
    pub pointer: Seq<char>,
}

impl View for ClosureEntry {
    type V = EntryV;

    open spec fn view(&self) -> EntryV {
        EntryV { name: self.name@, manifest: self.manifest@, pointer: self.pointer@ }
    }
}

impl DeepView for ClosureEntry {
    type V = EntryV;

    open spec fn deep_view(&self) -> EntryV {
        self.view()
    }
}

/// One frame of the active depth-first path.
struct Frame {
    name: String,
    manifest: Manifest,
    pointer: String,
    /// How many of this manifest's dependencies are already handled.
    next: usize,
}

/// What the walk asks of its driver next.
pub enum WalkStep {
    /// Fetch this package's pointer and manifest from the remote and
    /// hand them back through [`ClosureWalk::provide`].
    Request(String),
    /// The walk is complete; take the closure with
    /// [`ClosureWalk::into_closure`].
    Done,
    /// The walk failed and cannot continue.
    Fail(PkgError),
}

/// No name appears twice.
pub open spec fn distinct_seqs(s: Seq<Seq<char>>) -> bool {
    forall|i: int, j: int| 0 <= i < j < s.len() ==> s[i] != s[j]
}

/// Every dependency of a member is itself a member earlier in the
/// list: installing in list order satisfies each member's dependencies
/// first.
pub open spec fn member_before(entries: Seq<EntryV>, e: int, k: int) -> bool {
    exists|j: int| 0 <= j < e && entries[j].name == entries[e].manifest.dependencies[k]
}

pub open spec fn topo_ordered(entries: Seq<EntryV>) -> bool {
    forall|e: int, k: int|
        #![trigger member_before(entries, e, k)]
        0 <= e < entries.len() && 0 <= k < entries[e].manifest.dependencies.len() ==> member_before(
            entries,
            e,
            k,
        )
}

/// A member holds exactly what the driver provided under its name.
pub open spec fn entry_provided(e: EntryV, p: Map<Seq<char>, (ManifestV, Seq<char>)>) -> bool {
    p.contains_key(e.name) && e.manifest == p[e.name].0 && e.pointer == p[e.name].1
}

/// `d` is a declared dependency of the root or of a provided manifest:
/// the only places a fetch request or a cycle can come from.
pub open spec fn declared_by_known(
    root: ManifestV,
    p: Map<Seq<char>, (ManifestV, Seq<char>)>,
    d: Seq<char>,
) -> bool {
    root.dependencies.contains(d) || exists|m: Seq<char>|
        #[trigger] p.contains_key(m) && p[m].0.dependencies.contains(d)
}

spec fn deps_of(f: Frame) -> Seq<Seq<char>> {
    f.manifest.dependencies.deep_view()
}

spec fn frame_provided(f: Frame, p: Map<Seq<char>, (ManifestV, Seq<char>)>) -> bool {
    p.contains_key(f.name@) && f.manifest@ == p[f.name@].0 && f.pointer@ == p[f.name@].1
}

/// `a` is a pointwise prefix of `b`, up to dependency cursors.
spec fn frames_correspond(a: Seq<Frame>, b: Seq<Frame>) -> bool {
    forall|i: int|
        0 <= i < a.len() ==> #[trigger] a[i].name@ == b[i].name@ && a[i].manifest == b[i].manifest
}

spec fn work(fs: Seq<Frame>) -> int
    decreases fs.len(),
{
    if fs.len() == 0 {
        0
    } else {
        work(fs.drop_last()) + 1 + deps_of(fs.last()).len() - fs.last().next
    }
}

proof fn lemma_work_nonneg(fs: Seq<Frame>)
    requires
        forall|i: int| 0 <= i < fs.len() ==> #[trigger] fs[i].next <= deps_of(fs[i]).len(),
    ensures
        work(fs) >= 0,
    decreases fs.len(),
{
    if fs.len() > 0 {
        assert(forall|i: int|
            0 <= i < fs.drop_last().len() ==> #[trigger] fs.drop_last()[i].next <= deps_of(
                fs.drop_last()[i],
            ).len());
        lemma_work_nonneg(fs.drop_last());
        assert(fs.last().next <= deps_of(fs.last()).len());
    }
}

/// How many declared dependencies the walk has not yet examined.
spec fn due_count(fs: Seq<Frame>) -> int
    decreases fs.len(),
{
    if fs.len() == 0 {
        0
    } else {
        due_count(fs.drop_last()) + deps_of(fs.last()).len() - fs.last().next
    }
}

proof fn lemma_due_count_nonneg(fs: Seq<Frame>)
    requires
        forall|i: int| 0 <= i < fs.len() ==> #[trigger] fs[i].next <= deps_of(fs[i]).len(),
    ensures
        due_count(fs) >= 0,
    decreases fs.len(),
{
    if fs.len() > 0 {
        assert(forall|i: int|
            0 <= i < fs.drop_last().len() ==> #[trigger] fs.drop_last()[i].next <= deps_of(
                fs.drop_last()[i],
            ).len());
        lemma_due_count_nonneg(fs.drop_last());
        assert(fs.last().next <= deps_of(fs.last()).len());
    }
}

proof fn lemma_topo_push(entries: Seq<EntryV>, names: Seq<Seq<char>>, e: EntryV)
    requires
        topo_ordered(entries),
        names == entries.map_values(|x: EntryV| x.name),
        forall|k: int|
            0 <= k < e.manifest.dependencies.len() ==> names.contains(
                #[trigger] e.manifest.dependencies[k],
            ),
    ensures
        topo_ordered(entries.push(e)),
{
    let s2 = entries.push(e);
    assert forall|i: int, k: int|
        #![trigger member_before(s2, i, k)]
        0 <= i < s2.len() && 0 <= k < s2[i].manifest.dependencies.len() implies member_before(
        s2,
        i,
        k,
    ) by {
        if i < entries.len() {
            assert(s2[i] == entries[i]);
            assert(entries[i].manifest.dependencies[k] == s2[i].manifest.dependencies[k]);
            assert(member_before(entries, i, k));
            let j = choose|j: int|
                0 <= j < i && entries[j].name == entries[i].manifest.dependencies[k];
            assert(s2[j] == entries[j]);
            assert(s2[j].name == s2[i].manifest.dependencies[k]);
        } else {
            assert(s2[i] == e);
            assert(names.contains(e.manifest.dependencies[k]));
            let j = choose|j: int| 0 <= j < names.len() && names[j] == e.manifest.dependencies[k];
            assert(s2[j] == entries[j]);
            assert(s2[j].name == s2[i].manifest.dependencies[k]);
        }
    }
    assert(topo_ordered(s2));
}

proof fn lemma_push_contains(s: Seq<Seq<char>>, x: Seq<char>)
    ensures
        s.push(x).contains(x),
        forall|n: Seq<char>| #[trigger] s.contains(n) ==> s.push(x).contains(n),
        forall|n: Seq<char>| #[trigger] s.push(x).contains(n) ==> s.contains(n) || n == x,
{
    assert(s.push(x)[s.len() as int] == x);
    assert forall|n: Seq<char>| #[trigger] s.contains(n) implies s.push(x).contains(n) by {
        let i = choose|i: int| 0 <= i < s.len() && s[i] == n;
        assert(s.push(x)[i] == n);
    }
    assert forall|n: Seq<char>| #[trigger] s.push(x).contains(n) implies s.contains(n) || n
        == x by {
        let i = choose|i: int| 0 <= i < s.push(x).len() && s.push(x)[i] == n;
        if i < s.len() {
            assert(s[i] == n);
        }
    }
}

/// The depth-first dependency walk.
pub struct ClosureWalk {
    frames: Vec<Frame>,
    seen: Vec<String>,
    out: Vec<ClosureEntry>,
    pending: Option<String>,
    failed: bool,
    root: Ghost<ManifestV>,
    provided: Ghost<Map<Seq<char>, (ManifestV, Seq<char>)>>,
}

impl ClosureWalk {
    /// The names on the active path, root first.
    pub closed spec fn path_names(&self) -> Seq<Seq<char>> {
        self.frames@.map_values(|f: Frame| f.name@)
    }

    /// Every name the walk has entered: the root, and each name ever
    /// requested.
    pub closed spec fn seen_names(&self) -> Seq<Seq<char>> {
        self.seen.deep_view()
    }

    /// The finished members, in post order.
    pub closed spec fn out_entries(&self) -> Seq<EntryV> {
        self.out.deep_view()
    }

    /// The names of the finished members, in post order.
    pub open spec fn out_names(&self) -> Seq<Seq<char>> {
        self.out_entries().map_values(|e: EntryV| e.name)
    }

    /// The name whose fetch the walk is waiting for.
    pub closed spec fn waiting(&self) -> Option<Seq<char>> {
        match self.pending {
            Some(n) => Some(n@),
            Option::None => None,
        }
    }

    pub closed spec fn has_failed(&self) -> bool {
        self.failed
    }

    /// The root manifest the walk was started from.
    pub closed spec fn root_v(&self) -> ManifestV {
        self.root@
    }

    /// What the driver has provided so far: requested name to the
    /// manifest and raw pointer text fetched for it.
    pub closed spec fn provided(&self) -> Map<Seq<char>, (ManifestV, Seq<char>)> {
        self.provided@
    }

    /// How many declared dependencies the walk has not yet examined:
    /// zero once it is done, and at least one whenever it can still
    /// request a fetch or report a cycle.
    pub closed spec fn remaining_deps(&self) -> int {
        due_count(self.frames@)
    }

    pub closed spec fn is_done(&self) -> bool {
        !self.failed && self.frames@.len() == 0
    }

    pub closed spec fn is_running(&self) -> bool {
        !self.failed && self.frames@.len() > 0
    }

    /// Ready to advance: not failed, not waiting on a fetch.
    pub closed spec fn ready(&self) -> bool {
        !self.failed && self.pending is None
    }

    /// Some frame on the path declares `d` as a dependency.
    pub closed spec fn declared_on_path(&self, d: Seq<char>) -> bool {
        exists|i: int, k: int|
            #![trigger deps_of(self.frames@[i])[k]]
            0 <= i < self.frames@.len() && 0 <= k < deps_of(self.frames@[i]).len() && deps_of(
                self.frames@[i],
            )[k] == d
    }

    /// The state right after `new(root)`.
    pub closed spec fn is_initial_for(&self, root: ManifestV) -> bool {
        &&& self.root@ == root
        &&& self.frames@.len() == 1
        &&& self.frames@[0].name@ == root.name
        &&& self.frames@[0].manifest@ == root
        &&& self.frames@[0].next == 0
        &&& self.out@.len() == 0
        &&& self.seen_names() == seq![root.name]
        &&& self.pending is None
        &&& !self.failed
    }

    /// The walk's invariant.
    pub closed spec fn wf(&self) -> bool {
        let fs = self.frames@;
        let root = self.root@;
        // path names are distinct
        &&& (forall|i: int, j: int|
            0 <= i < j < fs.len() ==> #[trigger] fs[i].name@ != #[trigger] fs[j].name@)
        // finished names are distinct
        &&& distinct_seqs(self.out_names())
        // no name is both on the path and finished
        &&& (forall|i: int, j: int|
            0 <= i < fs.len() && 0 <= j < self.out_names().len() ==> #[trigger] fs[i].name@
                != #[trigger] self.out_names()[j])
        // what seen holds, exactly
        &&& (forall|n: Seq<char>|
            #[trigger] self.seen_names().contains(n) ==> (self.path_names().contains(n)
                || self.out_names().contains(n) || self.waiting() == Some(n) || n == root.name))
        &&& (forall|i: int| 0 <= i < fs.len() ==> self.seen_names().contains(#[trigger] fs[i].name@))
        &&& (forall|j: int|
            0 <= j < self.out_names().len() ==> self.seen_names().contains(
                #[trigger] self.out_names()[j],
            ))
        &&& (self.waiting() matches Some(n) ==> self.seen_names().contains(n))
        &&& self.seen_names().contains(root.name)
        // a pending fetch is for a fresh name, under a live path
        &&& (self.waiting() matches Some(n) ==> !self.path_names().contains(n)
            && !self.out_names().contains(n) && n != root.name && fs.len() >= 1)
        // the root heads the path and is never a finished member
        &&& (fs.len() >= 1 ==> fs[0].name@ == root.name && fs[0].manifest@ == root)
        &&& !self.out_names().contains(root.name)
        // dependency cursors stay in range
        &&& (forall|i: int| 0 <= i < fs.len() ==> #[trigger] fs[i].next <= deps_of(fs[i]).len())
        // every handled dependency is finished, or is the name the walk
        // is currently inside of or waiting for
        &&& (forall|i: int, k: int|
            #![trigger deps_of(fs[i])[k]]
            0 <= i < fs.len() && 0 <= k < fs[i].next ==> (self.out_names().contains(
                deps_of(fs[i])[k],
            ) || (k == fs[i].next - 1 && i + 1 < fs.len() && fs[i + 1].name@ == deps_of(fs[i])[k])
                || (k == fs[i].next - 1 && i + 1 == fs.len() && self.waiting() == Some(
                deps_of(fs[i])[k],
            ))))
        // every frame below the root, and every finished member, holds
        // exactly what the driver provided under its name
        &&& (forall|i: int| 1 <= i < fs.len() ==> frame_provided(#[trigger] fs[i], self.provided@))
        &&& (forall|j: int|
            0 <= j < self.out_entries().len() ==> entry_provided(
                #[trigger] self.out_entries()[j],
                self.provided@,
            ))
        // post order: a finished member's dependencies are all finished
        // before it
        &&& topo_ordered(self.out_entries())
        // once the walk is over, every dependency of the root is a
        // finished member
        &&& (fs.len() == 0 ==> (forall|k: int|
            0 <= k < root.dependencies.len() ==> self.out_names().contains(
                #[trigger] root.dependencies[k],
            )))
    }

    /// Starts the walk at a root manifest. The root itself is not a
    /// member of the closure being built.
    pub fn new(root: Manifest) -> (w: ClosureWalk)
        ensures
            w.wf(),
            w.ready(),
            w.is_running(),
            w.is_initial_for(root@),
            w.root_v() == root@,
            w.out_entries() == Seq::<EntryV>::empty(),
            w.seen_names() == seq![root@.name],
            w.provided() == Map::<Seq<char>, (ManifestV, Seq<char>)>::empty(),
            w.remaining_deps() == root@.dependencies.len(),
    {
        let name = root.name.clone();
        let seen_name = root.name.clone();
        let ghost root_v = root@;
        let frame = Frame { name, manifest: root, pointer: String::new(), next: 0 };
        let mut frames: Vec<Frame> = Vec::new();
        frames.push(frame);
        let mut seen: Vec<String> = Vec::new();
        seen.push(seen_name);
        let w = ClosureWalk {
            frames,
            seen,
            out: Vec::new(),
            pending: None,
            failed: false,
            root: Ghost(root_v),
            provided: Ghost(Map::empty()),
        };
        proof {
            assert(w.seen_names() =~= seq![root_v.name]);
            assert(w.out_entries() =~= Seq::<EntryV>::empty());
            assert(w.seen_names()[0] == root_v.name);
            assert(w.seen_names().contains(root_v.name));
            assert(w.path_names()[0] == root_v.name);
            assert(forall|n: Seq<char>| #[trigger] w.seen_names().contains(n) ==> n == root_v.name);
            assert(w.frames@.drop_last() =~= Seq::<Frame>::empty());
            assert(due_count(w.frames@.drop_last()) == 0);
            assert(w.frames@.last().manifest@ == root_v);
            assert(deps_of(w.frames@.last()) =~= root_v.dependencies);
            assert(w.remaining_deps() == root_v.dependencies.len());
        }
        w
    }

    /// Whether `name` is on the active path.
    fn on_path(&self, name: &str) -> (r: bool)
        ensures
            r == self.path_names().contains(name@),
    {
        let mut i: usize = 0;
        while i < self.frames.len()
            invariant
                i <= self.frames@.len(),
                forall|j: int| 0 <= j < i ==> self.frames@[j].name@ != name@,
            decreases self.frames@.len() - i,
        {
            if str_eq(self.frames[i].name.as_str(), name) {
                proof {
                    assert(self.path_names()[i as int] == name@);
                }
                return true;
            }
            i += 1;
        }
        proof {
            assert(forall|j: int|
                0 <= j < self.path_names().len() ==> self.path_names()[j] != name@);
        }
        false
    }

    /// Advances the walk until it needs a fetch, completes, or fails.
    ///
    /// `Request(n)` asks the driver to resolve `n` — a dependency
    /// declared by the root or by a provided manifest, never a name
    /// seen before — and hand the result to [`Self::provide`]. `Done`
    /// means the closure is complete: its members are exactly the
    /// names seen apart from the root, each carrying the manifest and
    /// pointer provided for it, every dependency of a member precedes
    /// that member, and every dependency of the root is a member.
    /// `Fail` reports a dependency cycle: a declared dependency — the
    /// root's name or one already provided — was re-encountered while
    /// the walk was still inside it. On a root whose dependency list
    /// is empty the walk completes at once with an empty closure.
    pub fn collect_deps(&mut self) -> (r: WalkStep)
        requires
            old(self).wf(),
            old(self).ready(),
        ensures
            final(self).wf(),
            final(self).root_v() == old(self).root_v(),
            final(self).provided() == old(self).provided(),
            final(self).remaining_deps() <= old(self).remaining_deps(),
            final(self).remaining_deps() >= 0,
            final(self).out_entries().len() >= old(self).out_entries().len(),
            final(self).out_entries().subrange(0, old(self).out_entries().len() as int) == old(self).out_entries(),
            forall|j: int|
                0 <= j < final(self).out_entries().len() ==> entry_provided(
                    #[trigger] final(self).out_entries()[j],
                    final(self).provided(),
                ),
            match r {
                WalkStep::Request(n) => {
                    &&& final(self).is_running()
                    &&& !final(self).has_failed()
                    &&& final(self).waiting() == Some(n@)
                    &&& !old(self).seen_names().contains(n@)
                    &&& final(self).seen_names() == old(self).seen_names().push(n@)
                    &&& final(self).remaining_deps() <= old(self).remaining_deps() - 1
                    &&& old(self).declared_on_path(n@)
                    &&& declared_by_known(old(self).root_v(), old(self).provided(), n@)
                },
                WalkStep::Done => {
                    &&& final(self).is_done()
                    &&& final(self).ready()
                    &&& final(self).remaining_deps() == 0
                    &&& final(self).seen_names() == old(self).seen_names()
                    &&& (forall|n: Seq<char>|
                        #[trigger] final(self).out_names().contains(n) ==> old(self).seen_names().contains(n) && n != old(self).root_v().name)
                    &&& (forall|n: Seq<char>|
                        #[trigger] old(self).seen_names().contains(n) && n != old(self).root_v().name ==> final(self).out_names().contains(n))
                    &&& (forall|k: int|
                        0 <= k < old(self).root_v().dependencies.len() ==> final(self).out_names().contains(#[trigger] old(self).root_v().dependencies[k]))
                },
                WalkStep::Fail(e) => {
                    &&& final(self).has_failed()
                    &&& old(self).remaining_deps() >= 1
                    &&& final(self).seen_names() == old(self).seen_names()
                    &&& (e matches PkgError::CircularDependency(n) && old(self).path_names().contains(n@) && old(self).declared_on_path(n@) && (
                    n@ == old(self).root_v().name || old(self).provided().contains_key(n@))
                        && declared_by_known(old(self).root_v(), old(self).provided(), n@))
                },
            },
            old(self).is_initial_for(old(self).root_v()) && old(self).root_v().dependencies.len()
                == 0 ==> r is Done && final(self).out_entries() =~= Seq::<EntryV>::empty(),
    {
        proof {
            assert(forall|i: int|
                0 <= i < self.frames@.len() ==> #[trigger] self.frames@[i].next <= deps_of(
                    self.frames@[i],
                ).len());
            lemma_due_count_nonneg(self.frames@);
        }
        loop
            invariant
                self.wf(),
                !self.failed,
                self.pending is None,
                self.root == old(self).root,
                due_count(old(self).frames@) >= 0,
                self.seen.deep_view() == old(self).seen.deep_view(),
                self.out.deep_view().len() >= old(self).out.deep_view().len(),
                self.out.deep_view().subrange(0, old(self).out.deep_view().len() as int) == old(self).out.deep_view(),
                self.frames@.len() <= old(self).frames@.len(),
                frames_correspond(self.frames@, old(self).frames@),
                self.provided == old(self).provided,
                due_count(self.frames@) <= due_count(old(self).frames@),
            decreases work(self.frames@),
        {
            if self.frames.len() == 0 {
                proof {
                    self.finish_facts(&*old(self));
                    assert(due_count(self.frames@) == 0);
                }
                return WalkStep::Done;
            }
            let top = self.frames.len() - 1;
            let dep_count = self.frames[top].manifest.dependencies.len();
            if self.frames[top].next >= dep_count {
                // this frame is finished: pop it, and record it unless
                // it is the root
                let ghost pre = *self;
                let f = match self.frames.pop() {
                    Some(f) => f,
                    Option::None => {
                        proof {
                            assert(false);
                        }
                        return WalkStep::Done;
                    },
                };
                let ghost fv = EntryV { name: f.name@, manifest: f.manifest@, pointer: f.pointer@ };
                let ghost fdeps = deps_of(f);
                proof {
                    assert(pre.frames@.drop_last() =~= self.frames@);
                    assert(self.path_names() =~= pre.path_names().drop_last());
                    assert(pre.path_names().last() == fv.name);
                    // every dependency of the popped frame is finished:
                    // it was on top with its cursor at the end
                    assert forall|k: int| 0 <= k < fdeps.len() implies pre.out_names().contains(
                        #[trigger] fdeps[k],
                    ) by {
                        assert(deps_of(pre.frames@[pre.frames@.len() - 1])[k] == fdeps[k]);
                    }
                    // path membership survives the pop, except for the
                    // popped name itself
                    assert forall|n: Seq<char>| #[trigger] pre.path_names().contains(n) implies (
                    self.path_names().contains(n) || n == fv.name) by {
                        let i = choose|i: int|
                            0 <= i < pre.path_names().len() && pre.path_names()[i] == n;
                        if i < pre.path_names().len() - 1 {
                            assert(self.path_names()[i] == n);
                        }
                    }
                }
                if self.frames.len() == 0 {
                    proof {
                        assert(fv.name == self.root@.name);
                        assert(fdeps =~= self.root@.dependencies);
                        self.finish_facts(&*old(self));
                        assert(due_count(self.frames@) == 0);
                    }
                    return WalkStep::Done;
                }
                let ghost pre_push = *self;
                self.out.push(
                    ClosureEntry { name: f.name, manifest: f.manifest, pointer: f.pointer },
                );
                proof {
                    assert(self.out.deep_view() =~= pre_push.out.deep_view().push(fv));
                    assert(self.out_names() =~= pre_push.out_names().push(fv.name));
                    assert(self.out.deep_view().subrange(0, old(self).out.deep_view().len() as int)
                        =~= old(self).out.deep_view());
                    lemma_push_contains(pre_push.out_names(), fv.name);
                    // the popped frame was above its parent, so its name
                    // differs from every remaining frame's name
                    assert(forall|i: int|
                        0 <= i < self.frames@.len() ==> #[trigger] self.frames@[i].name@ != fv.name);
                    // the parent's latest handled dependency was the
                    // popped name; it is now a finished member
                    let fs = self.frames@;
                    assert forall|i: int, k: int|
                        0 <= i < fs.len() && 0 <= k < #[trigger] fs[i].next implies (
                    self.out_names().contains(#[trigger] deps_of(fs[i])[k]) || (k == fs[i].next - 1
                        && i + 1 < fs.len() && fs[i + 1].name@ == deps_of(fs[i])[k])) by {
                        assert(deps_of(pre.frames@[i])[k] == deps_of(fs[i])[k]);
                        if pre.out_names().contains(deps_of(fs[i])[k]) {
                            assert(self.out_names().contains(deps_of(fs[i])[k]));
                        } else if k == fs[i].next - 1 && i + 1 < pre.frames@.len()
                            && pre.frames@[i + 1].name@ == deps_of(fs[i])[k] {
                            if i + 1 == pre.frames@.len() - 1 {
                                assert(deps_of(fs[i])[k] == fv.name);
                                assert(self.out_names().contains(fv.name));
                            }
                        }
                    }
                    // the new member's dependencies all precede it
                    assert(pre_push.out_entries() == pre.out_entries());
                    assert(topo_ordered(pre.out_entries()));
                    assert(pre.out_names() == pre.out_entries().map_values(|x: EntryV| x.name));
                    assert forall|k: int|
                        0 <= k < fv.manifest.dependencies.len() implies pre.out_names().contains(
                        #[trigger] fv.manifest.dependencies[k],
                    ) by {
                        assert(fv.manifest.dependencies[k] == fdeps[k]);
                    }
                    lemma_topo_push(pre.out_entries(), pre.out_names(), fv);
                    assert(self.out_entries() == pre.out_entries().push(fv));
                    assert(topo_ordered(self.out_entries()));
                    // the popped frame sat above the root, so it holds
                    // provided payloads; its member entry does too
                    assert(frame_provided(pre.frames@[pre.frames@.len() - 1], pre.provided@));
                    assert(entry_provided(fv, self.provided@));
                    assert forall|j: int|
                        0 <= j < self.out_entries().len() implies entry_provided(
                        #[trigger] self.out_entries()[j],
                        self.provided@,
                    ) by {
                        if j < pre.out_entries().len() {
                            assert(entry_provided(pre.out_entries()[j], pre.provided@));
                            assert(self.out_entries()[j] == pre.out_entries()[j]);
                        } else {
                            assert(self.out_entries()[j] == fv);
                        }
                    }
                    assert forall|i: int| 1 <= i < self.frames@.len() implies frame_provided(
                        #[trigger] self.frames@[i],
                        self.provided@,
                    ) by {
                        assert(frame_provided(pre.frames@[i], pre.provided@));
                        assert(self.frames@[i] == pre.frames@[i]);
                    }
                    assert(frames_correspond(self.frames@, old(self).frames@)) by {
                        assert forall|i: int| 0 <= i < self.frames@.len() implies (
                        #[trigger] self.frames@[i].name@ == old(self).frames@[i].name@
                            && self.frames@[i].manifest == old(self).frames@[i].manifest) by {
                            assert(pre.frames@[i].name@ == old(self).frames@[i].name@);
                            assert(pre.frames@[i].manifest == old(self).frames@[i].manifest);
                            assert(self.frames@[i] == pre.frames@[i]);
                        }
                    }
                    // the walk has strictly less work left, and no
                    // dependency went unexamined with the popped frame
                    assert(pre.frames@.last().next == deps_of(pre.frames@.last()).len());
                    assert(work(pre.frames@) == work(pre.frames@.drop_last()) + 1);
                    assert(work(self.frames@) == work(pre.frames@) - 1);
                    lemma_work_nonneg(self.frames@);
                    assert(due_count(self.frames@) == due_count(pre.frames@));
                }
            } else {
                let dep_idx = self.frames[top].next;
                let d = self.frames[top].manifest.dependencies[dep_idx].clone();
                proof {
                    assert(deps_of(self.frames@[top as int])[dep_idx as int] == d@);
                }
                if self.on_path(d.as_str()) {
                    let ghost pre = *self;
                    self.failed = true;
                    proof {
                        assert(self.frames@[top as int].name@ == old(self).frames@[top as int].name@);
                        assert(self.frames@[top as int].manifest == old(self).frames@[top as int].manifest);
                        assert(pre.declared_on_path(d@)) by {
                            assert(0 <= (top as int) < pre.frames@.len());
                            assert(0 <= (dep_idx as int) < deps_of(pre.frames@[top as int]).len());
                            assert(deps_of(pre.frames@[top as int])[dep_idx as int] == d@);
                        }
                        assert(old(self).declared_on_path(d@)) by {
                            assert(old(self).frames@[top as int].manifest == pre.frames@[top as int].manifest);
                            assert(deps_of(old(self).frames@[top as int]) == old(self).frames@[top as int].manifest.dependencies.deep_view());
                            assert(deps_of(pre.frames@[top as int]) == pre.frames@[top as int].manifest.dependencies.deep_view());
                            assert(deps_of(old(self).frames@[top as int]) == deps_of(
                                pre.frames@[top as int],
                            ));
                            assert(0 <= (dep_idx as int) < deps_of(old(self).frames@[top as int]).len());
                            assert(deps_of(old(self).frames@[top as int])[dep_idx as int] == d@);
                        }
                        let i = choose|i: int|
                            0 <= i < pre.path_names().len() && pre.path_names()[i] == d@;
                        assert(old(self).path_names()[i] == d@);
                        assert(old(self).path_names().contains(d@));
                        // where the cycle name sits, in public terms: it
                        // is the root or a name the driver provided
                        assert(d@ == self.root@.name || self.provided@.contains_key(d@)) by {
                            assert(pre.frames@[i].name@ == d@);
                            if i >= 1 {
                                assert(frame_provided(pre.frames@[i], pre.provided@));
                            }
                        }
                        assert(declared_by_known(self.root@, self.provided@, d@)) by {
                            if top == 0 {
                                assert(pre.frames@[0].manifest@ == self.root@);
                                assert(self.root@.dependencies == deps_of(pre.frames@[0]));
                                assert(self.root@.dependencies[dep_idx as int] == d@);
                                assert(self.root@.dependencies.contains(d@));
                            } else {
                                let m = pre.frames@[top as int].name@;
                                assert(frame_provided(pre.frames@[top as int], pre.provided@));
                                assert(pre.provided@.contains_key(m));
                                assert(pre.provided@[m].0.dependencies == deps_of(
                                    pre.frames@[top as int],
                                ));
                                assert(pre.provided@[m].0.dependencies[dep_idx as int] == d@);
                                assert(pre.provided@[m].0.dependencies.contains(d@));
                            }
                        }
                        // the failing dependency was still unexamined
                        assert(pre.frames@.drop_last().len() == pre.frames@.len() - 1);
                        assert(forall|i: int|
                            0 <= i < pre.frames@.drop_last().len()
                                ==> #[trigger] pre.frames@.drop_last()[i].next <= deps_of(
                                pre.frames@.drop_last()[i],
                            ).len());
                        lemma_due_count_nonneg(pre.frames@.drop_last());
                        assert(pre.frames@.last().next < deps_of(pre.frames@.last()).len());
                        assert(due_count(pre.frames@) >= 1);
                    }
                    return WalkStep::Fail(PkgError::CircularDependency(d));
                }
                let seen_before = str_vec_contains(&self.seen, d.as_str());
                if seen_before {
                    // already resolved earlier: it is a finished member,
                    // move past it
                    let ghost pre = *self;
                    proof {
                        // root is on the path, so d is not the root, not
                        // on the path, not pending: it must be finished
                        assert(pre.path_names()[0] == self.root@.name);
                        assert(pre.path_names().contains(self.root@.name));
                        assert(self.out_names().contains(d@));
                    }
                    let mut f = match self.frames.pop() {
                        Some(f) => f,
                        Option::None => {
                            proof {
                                assert(false);
                            }
                            return WalkStep::Done;
                        },
                    };
                    f.next = f.next + 1;
                    self.frames.push(f);
                    proof {
                        assert(self.frames@.drop_last() =~= pre.frames@.drop_last());
                        assert(self.frames@ =~= pre.frames@.update(
                            top as int,
                            self.frames@[top as int],
                        ));
                        assert(self.path_names() =~= pre.path_names());
                        assert forall|i: int, k: int|
                            0 <= i < self.frames@.len() && 0 <= k
                                < #[trigger] self.frames@[i].next implies (
                        self.out_names().contains(#[trigger] deps_of(self.frames@[i])[k]) || (k
                            == self.frames@[i].next - 1 && i + 1 < self.frames@.len()
                            && self.frames@[i + 1].name@ == deps_of(self.frames@[i])[k])) by {
                            assert(deps_of(pre.frames@[i])[k] == deps_of(self.frames@[i])[k]);
                            if i == top as int && k == self.frames@[i].next - 1 {
                                assert(deps_of(self.frames@[i])[k] == d@);
                            }
                        }
                        assert(frames_correspond(self.frames@, old(self).frames@)) by {
                            assert forall|i: int| 0 <= i < self.frames@.len() implies (
                            #[trigger] self.frames@[i].name@ == old(self).frames@[i].name@
                                && self.frames@[i].manifest == old(self).frames@[i].manifest) by {
                                assert(pre.frames@[i].name@ == old(self).frames@[i].name@);
                                assert(pre.frames@[i].manifest == old(self).frames@[i].manifest);
                                assert(self.frames@[i].name@ == pre.frames@[i].name@);
                                assert(self.frames@[i].manifest == pre.frames@[i].manifest);
                            }
                        }
                        assert forall|i: int| 1 <= i < self.frames@.len() implies frame_provided(
                            #[trigger] self.frames@[i],
                            self.provided@,
                        ) by {
                            assert(frame_provided(pre.frames@[i], pre.provided@));
                            assert(self.frames@[i].name@ == pre.frames@[i].name@);
                            assert(self.frames@[i].manifest == pre.frames@[i].manifest);
                            assert(self.frames@[i].pointer == pre.frames@[i].pointer);
                        }
                        // one more dependency handled: less work left
                        assert(self.frames@.last().next == pre.frames@.last().next + 1);
                        assert(deps_of(self.frames@.last()) == deps_of(pre.frames@.last()));
                        assert(work(self.frames@) == work(self.frames@.drop_last()) + 1 + deps_of(
                            self.frames@.last(),
                        ).len() - self.frames@.last().next);
                        assert(work(pre.frames@) == work(pre.frames@.drop_last()) + 1 + deps_of(
                            pre.frames@.last(),
                        ).len() - pre.frames@.last().next);
                        assert(work(self.frames@) == work(pre.frames@) - 1);
                        lemma_work_nonneg(self.frames@);
                        assert(due_count(self.frames@) == due_count(pre.frames@) - 1);
                    }
                } else {
                    // a fresh name: ask the driver to fetch it
                    let ghost pre = *self;
                    let mut f = match self.frames.pop() {
                        Some(f) => f,
                        Option::None => {
                            proof {
                                assert(false);
                            }
                            return WalkStep::Done;
                        },
                    };
                    f.next = f.next + 1;
                    self.frames.push(f);
                    self.seen.push(d.clone());
                    self.pending = Some(d.clone());
                    proof {
                        assert(self.frames@.drop_last() =~= pre.frames@.drop_last());
                        assert(self.frames@ =~= pre.frames@.update(
                            top as int,
                            self.frames@[top as int],
                        ));
                        assert(self.path_names() =~= pre.path_names());
                        assert(self.seen_names() =~= pre.seen_names().push(d@));
                        lemma_push_contains(pre.seen_names(), d@);
                        // d is nowhere among the finished members: they
                        // are all seen, and d was not
                        assert forall|j: int|
                            0 <= j < self.out_names().len() implies #[trigger] self.out_names()[j]
                            != d@ by {
                            assert(pre.seen_names().contains(pre.out_names()[j]));
                        }
                        assert(!self.out_names().contains(d@));
                        // d is not the root's name: that is seen too
                        assert(d@ != self.root@.name);
                        assert forall|i: int, k: int|
                            0 <= i < self.frames@.len() && 0 <= k
                                < #[trigger] self.frames@[i].next implies (
                        self.out_names().contains(#[trigger] deps_of(self.frames@[i])[k]) || (k
                            == self.frames@[i].next - 1 && i + 1 < self.frames@.len()
                            && self.frames@[i + 1].name@ == deps_of(self.frames@[i])[k]) || (k
                            == self.frames@[i].next - 1 && i + 1 == self.frames@.len()
                            && self.waiting() == Some(deps_of(self.frames@[i])[k]))) by {
                            assert(deps_of(pre.frames@[i])[k] == deps_of(self.frames@[i])[k]);
                            if i == top as int && k == self.frames@[i].next - 1 {
                                assert(deps_of(self.frames@[i])[k] == d@);
                            }
                        }
                        assert(pre.declared_on_path(d@)) by {
                            assert(0 <= (top as int) < pre.frames@.len());
                            assert(0 <= (dep_idx as int) < deps_of(pre.frames@[top as int]).len());
                            assert(deps_of(pre.frames@[top as int])[dep_idx as int] == d@);
                        }
                        assert(old(self).declared_on_path(d@)) by {
                            assert(pre.frames@[top as int].name@ == old(self).frames@[top as int].name@);
                            assert(pre.frames@[top as int].manifest == old(self).frames@[top as int].manifest);
                            assert(deps_of(old(self).frames@[top as int]) == old(self).frames@[top as int].manifest.dependencies.deep_view());
                            assert(deps_of(pre.frames@[top as int]) == pre.frames@[top as int].manifest.dependencies.deep_view());
                            assert(deps_of(old(self).frames@[top as int]) == deps_of(
                                pre.frames@[top as int],
                            ));
                            assert(0 <= (dep_idx as int) < deps_of(old(self).frames@[top as int]).len());
                            assert(deps_of(old(self).frames@[top as int])[dep_idx as int] == d@);
                        }
                        assert(frames_correspond(self.frames@, old(self).frames@)) by {
                            assert forall|i: int| 0 <= i < self.frames@.len() implies (
                            #[trigger] self.frames@[i].name@ == old(self).frames@[i].name@
                                && self.frames@[i].manifest == old(self).frames@[i].manifest) by {
                                assert(pre.frames@[i].name@ == old(self).frames@[i].name@);
                                assert(pre.frames@[i].manifest == old(self).frames@[i].manifest);
                                assert(self.frames@[i].name@ == pre.frames@[i].name@);
                                assert(self.frames@[i].manifest == pre.frames@[i].manifest);
                            }
                        }
                        assert forall|i: int| 1 <= i < self.frames@.len() implies frame_provided(
                            #[trigger] self.frames@[i],
                            self.provided@,
                        ) by {
                            assert(frame_provided(pre.frames@[i], pre.provided@));
                            assert(self.frames@[i].name@ == pre.frames@[i].name@);
                            assert(self.frames@[i].manifest == pre.frames@[i].manifest);
                            assert(self.frames@[i].pointer == pre.frames@[i].pointer);
                        }
                        assert(self.frames@.last().next == pre.frames@.last().next + 1);
                        assert(deps_of(self.frames@.last()) == deps_of(pre.frames@.last()));
                        assert(due_count(self.frames@) == due_count(self.frames@.drop_last())
                            + deps_of(self.frames@.last()).len() - self.frames@.last().next);
                        assert(due_count(pre.frames@) == due_count(pre.frames@.drop_last())
                            + deps_of(pre.frames@.last()).len() - pre.frames@.last().next);
                        assert(due_count(self.frames@) == due_count(pre.frames@) - 1);
                        assert(forall|i: int|
                            0 <= i < self.frames@.len() ==> #[trigger] self.frames@[i].next
                                <= deps_of(self.frames@[i]).len());
                        lemma_due_count_nonneg(self.frames@);
                        // the request is for a declared dependency of
                        // the root or of a provided manifest
                        assert(declared_by_known(self.root@, self.provided@, d@)) by {
                            if top == 0 {
                                assert(pre.frames@[0].manifest@ == self.root@);
                                assert(self.root@.dependencies == deps_of(pre.frames@[0]));
                                assert(self.root@.dependencies[dep_idx as int] == d@);
                                assert(self.root@.dependencies.contains(d@));
                            } else {
                                let m = pre.frames@[top as int].name@;
                                assert(frame_provided(pre.frames@[top as int], pre.provided@));
                                assert(pre.provided@.contains_key(m));
                                assert(pre.provided@[m].0.dependencies == deps_of(
                                    pre.frames@[top as int],
                                ));
                                assert(pre.provided@[m].0.dependencies[dep_idx as int] == d@);
                                assert(pre.provided@[m].0.dependencies.contains(d@));
                            }
                        }
                    }
                    return WalkStep::Request(d);
                }
            }
        }
    }

    /// The facts the `Done` exits of [`Self::collect_deps`] rely on.
    proof fn finish_facts(&self, orig: &ClosureWalk)
        requires
            self.wf(),
            !self.failed,
            self.pending is None,
            self.frames@.len() == 0,
            self.root == orig.root,
            self.seen.deep_view() == orig.seen.deep_view(),
        ensures
            forall|n: Seq<char>|
                #[trigger] self.out_names().contains(n) ==> orig.seen_names().contains(n) && n
                    != orig.root_v().name,
            forall|n: Seq<char>|
                #[trigger] orig.seen_names().contains(n) && n != orig.root_v().name
                    ==> self.out_names().contains(n),
            forall|k: int|
                0 <= k < orig.root_v().dependencies.len() ==> self.out_names().contains(
                    #[trigger] orig.root_v().dependencies[k],
                ),
            orig.is_initial_for(orig.root_v()) && orig.root_v().dependencies.len() == 0
                ==> self.out_entries() =~= Seq::<EntryV>::empty(),
    {
        assert forall|n: Seq<char>| #[trigger] self.out_names().contains(n) implies orig.seen_names().contains(
            n,
        ) && n != orig.root_v().name by {
            let j = choose|j: int| 0 <= j < self.out_names().len() && self.out_names()[j] == n;
            assert(self.seen_names().contains(self.out_names()[j]));
            if n == self.root@.name {
                assert(self.out_names().contains(self.root@.name));
            }
        }
        assert forall|n: Seq<char>|
            #[trigger] orig.seen_names().contains(n) && n != orig.root_v().name implies self.out_names().contains(
            n,
        ) by {
            assert(self.seen_names().contains(n));
            assert(self.path_names().len() == 0);
            assert(!self.path_names().contains(n));
        }
        if orig.is_initial_for(orig.root_v()) && orig.root_v().dependencies.len() == 0 {
            assert(self.seen_names() =~= seq![orig.root_v().name]);
            if self.out_entries().len() > 0 {
                let n = self.out_names()[0];
                assert(self.out_names().contains(n));
                assert(self.seen_names().contains(n));
                let i = choose|i: int| 0 <= i < self.seen_names().len() && self.seen_names()[i]
                    == n;
                assert(n == orig.root_v().name);
            }
            assert(self.out_entries() =~= Seq::<EntryV>::empty());
        }
    }

    /// Hands the walk the manifest and raw pointer text fetched for
    /// the name it requested: they are recorded under that name in
    /// [`Self::provided`], and the walk then descends into the
    /// package's own dependencies.
    pub fn provide(&mut self, manifest: Manifest, pointer: String)
        requires
            old(self).wf(),
            old(self).waiting() is Some,
            !old(self).has_failed(),
        ensures
            final(self).wf(),
            final(self).ready(),
            final(self).is_running(),
            !final(self).has_failed(),
            final(self).root_v() == old(self).root_v(),
            final(self).out_entries() == old(self).out_entries(),
            final(self).seen_names() == old(self).seen_names(),
            final(self).path_names() == old(self).path_names().push(old(self).waiting().unwrap()),
            final(self).provided() == old(self).provided().insert(
                old(self).waiting().unwrap(),
                (manifest@, pointer@),
            ),
            final(self).remaining_deps() == old(self).remaining_deps()
                + manifest@.dependencies.len(),
    {
        let name = match &self.pending {
            Some(n) => n.clone(),
            Option::None => {
                proof {
                    assert(false);
                }
                String::new()
            },
        };
        self.pending = None;
        let ghost pre = *self;
        let ghost n_new = name@;
        let ghost mv = manifest@;
        let ghost pv = pointer@;
        self.frames.push(Frame { name, manifest, pointer, next: 0 });
        self.provided = Ghost(pre.provided@.insert(n_new, (mv, pv)));
        proof {
            assert(self.frames@.drop_last() =~= pre.frames@);
            assert(self.path_names() =~= pre.path_names().push(n_new));
            lemma_push_contains(pre.path_names(), n_new);
            assert(!pre.path_names().contains(n_new));
            assert(forall|j: int|
                0 <= j < pre.path_names().len() ==> #[trigger] pre.path_names()[j] != n_new);
            // the new name is fresh on the path
            assert forall|i: int, j: int| 0 <= i < j < self.frames@.len() implies #[trigger] self.frames@[i].name@
                != #[trigger] self.frames@[j].name@ by {
                if j == self.frames@.len() - 1 {
                    assert(pre.path_names()[i] == self.frames@[i].name@);
                }
            }
            // the parent frame's latest handled dependency is the new
            // frame's name
            assert forall|i: int, k: int|
                0 <= i < self.frames@.len() && 0 <= k < #[trigger] self.frames@[i].next implies (
            self.out_names().contains(#[trigger] deps_of(self.frames@[i])[k]) || (k
                == self.frames@[i].next - 1 && i + 1 < self.frames@.len() && self.frames@[i
                + 1].name@ == deps_of(self.frames@[i])[k])) by {
                assert(i < pre.frames@.len());
                assert(deps_of(pre.frames@[i])[k] == deps_of(self.frames@[i])[k]);
                if i + 1 == pre.frames@.len() && k == pre.frames@[i].next - 1 && pre.waiting()
                    == Some(deps_of(pre.frames@[i])[k]) {
                    assert(self.frames@[i + 1].name@ == n_new);
                }
            }
            // seen is untouched; what pointed at the pending name now
            // finds the new path member
            assert forall|n: Seq<char>| #[trigger] self.seen_names().contains(n) implies (
            self.path_names().contains(n) || self.out_names().contains(n) || n
                == self.root@.name) by {
                assert(pre.seen_names().contains(n));
                if pre.path_names().contains(n) {
                    assert(self.path_names().contains(n));
                } else if pre.waiting() == Some(n) {
                    assert(self.path_names().last() == n_new);
                    assert(self.path_names().contains(n_new));
                }
            }
            assert(self.seen_names().contains(n_new));
            assert forall|i: int| 0 <= i < self.frames@.len() implies self.seen_names().contains(
                #[trigger] self.frames@[i].name@,
            ) by {
                if i < pre.frames@.len() {
                    assert(pre.seen_names().contains(pre.frames@[i].name@));
                }
            }
            // the new frame holds exactly the provided payloads; older
            // frames and members keep theirs, their names being fresh
            // with respect to the one just provided
            assert(self.provided@ == pre.provided@.insert(n_new, (mv, pv)));
            assert(frame_provided(self.frames@[self.frames@.len() - 1], self.provided@));
            assert(due_count(self.frames@) == due_count(pre.frames@) + deps_of(
                self.frames@.last(),
            ).len());
            assert(deps_of(self.frames@.last()) == mv.dependencies);
            assert forall|i: int| 1 <= i < self.frames@.len() implies frame_provided(
                #[trigger] self.frames@[i],
                self.provided@,
            ) by {
                if i < pre.frames@.len() {
                    assert(frame_provided(pre.frames@[i], pre.provided@));
                    assert(pre.path_names()[i] == pre.frames@[i].name@);
                    assert(pre.frames@[i].name@ != n_new);
                    assert(self.frames@[i] == pre.frames@[i]);
                }
            }
            assert forall|j: int| 0 <= j < self.out_entries().len() implies entry_provided(
                #[trigger] self.out_entries()[j],
                self.provided@,
            ) by {
                assert(entry_provided(pre.out_entries()[j], pre.provided@));
                assert(pre.out_names()[j] == pre.out_entries()[j].name);
                assert(pre.out_entries()[j].name != n_new);
            }
        }
    }

    /// Takes the finished closure, in install order.
    pub fn into_closure(self) -> (r: Vec<ClosureEntry>)
        requires
            self.wf(),
            self.is_done(),
        ensures
            r.deep_view() == self.out_entries(),
    {
        self.out
    }
}

/// The names of a finished closure are distinct: a diamond-shaped
/// dependency graph yields each shared name once.
pub proof fn lemma_closure_names_distinct(w: &ClosureWalk)
    requires
        w.wf(),
    ensures
        distinct_seqs(w.out_names()),
{
}

/// A closure lists every member after all of its dependencies:
/// installing in closure order, with the root last, respects the
/// dependency partial order.
pub proof fn lemma_closure_topological(w: &ClosureWalk)
    requires
        w.wf(),
    ensures
        topo_ordered(w.out_entries()),
{
}


} // verus!
