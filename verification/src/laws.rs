//! Laws of the dependency walk, established from its public contract
//! alone: this module never looks inside the walk's state.

use crate::closure;
use crate::manifest;
use crate::PkgError;
use vstd::prelude::*;

verus! {

/// The cycle law, run on the smallest cyclic graph: for a root whose
/// one dependency resolves to a manifest that depends back on the
/// root, the walk's first step must request that dependency, and the
/// step after providing it must fail with a circular-dependency error
/// naming a package of the cycle — completing, or asking for anything
/// further, is proved impossible.

pub fn cycle_drive_law(root: manifest::Manifest, dep: manifest::Manifest, p1: String)
    requires
        root@.dependencies.len() == 1,
        root@.dependencies[0] != root@.name,
        dep@.dependencies == seq![root@.name],
{
    let ghost rv = root@;
    let ghost b = root@.dependencies[0];
    let mut w = closure::ClosureWalk::new(root);
    let r1 = w.collect_deps();
    match r1 {
        closure::WalkStep::Request(n) => {
            proof {
                // the only declared dependency is b
                assert(rv.dependencies.contains(n@));
                assert(n@ == b) by {
                    let i = choose|i: int| 0 <= i < rv.dependencies.len() && rv.dependencies[i]
                        == n@;
                }
            }
            let ghost pv = p1@;
            let ghost dv = dep@;
            w.provide(dep, p1);
            proof {
                assert(w.provided() == Map::<Seq<char>, (manifest::ManifestV, Seq<char>)>::empty().insert(b, (dv, pv)));
                assert(w.seen_names() == seq![rv.name].push(b));
            }
            let ghost pmap = w.provided();
            let r2 = w.collect_deps();
            proof {
                match r2 {
                    closure::WalkStep::Request(n2) => {
                        // impossible: every declared name is already seen
                        assert(closure::declared_by_known(rv, pmap, n2@));
                        if rv.dependencies.contains(n2@) {
                            let i = choose|i: int|
                                0 <= i < rv.dependencies.len() && rv.dependencies[i] == n2@;
                            assert(n2@ == b);
                            assert(seq![rv.name].push(b)[1] == b);
                            assert(seq![rv.name].push(b).contains(b));
                        } else {
                            let m = choose|m: Seq<char>|
                                #[trigger] pmap.contains_key(m) && pmap[m].0.dependencies.contains(
                                    n2@,
                                );
                            assert(m == b);
                            assert(pmap[b].0 == dv);
                            let i = choose|i: int|
                                0 <= i < dv.dependencies.len() && dv.dependencies[i] == n2@;
                            assert(n2@ == rv.name);
                            assert(seq![rv.name].push(b)[0] == rv.name);
                            assert(seq![rv.name].push(b).contains(rv.name));
                        }
                        assert(false);
                    },
                    closure::WalkStep::Done => {
                        // impossible: b is a member whose dependency is
                        // the root, which is never a member
                        assert(seq![rv.name].push(b)[1] == b);
                        assert(seq![rv.name].push(b).contains(b));
                        assert(w.out_names().contains(b));
                        let j = choose|j: int|
                            0 <= j < w.out_names().len() && w.out_names()[j] == b;
                        assert(w.out_names()[j] == w.out_entries()[j].name);
                        assert(closure::entry_provided(w.out_entries()[j], w.provided()));
                        assert(w.out_entries()[j].manifest == dv);
                        closure::lemma_closure_topological(&w);
                        assert(w.out_entries()[j].manifest.dependencies[0] == rv.name);
                        assert(closure::member_before(w.out_entries(), j, 0));
                        let j2 = choose|j2: int|
                            0 <= j2 < j && w.out_entries()[j2].name
                                == w.out_entries()[j].manifest.dependencies[0];
                        assert(w.out_names()[j2] == rv.name);
                        assert(w.out_names().contains(rv.name));
                        assert(false);
                    },
                    closure::WalkStep::Fail(e) => {
                        // the conclusion: the walk reports the cycle,
                        // naming the root or the dependency
                        match e {
                            PkgError::CircularDependency(c) => {
                                if pmap.contains_key(c@) {
                                    assert(c@ == b);
                                }
                                assert(c@ == rv.name || c@ == b);
                            },
                            _ => {
                                assert(false);
                            },
                        }
                    },
                }
            }
        },
        closure::WalkStep::Done => {
            proof {
                // impossible: the root's dependency b would be a member,
                // yet nothing but the root was ever seen
                assert(w.out_names().contains(b));
                assert(seq![rv.name].contains(b));
                let i = choose|i: int| 0 <= i < seq![rv.name].len() && seq![rv.name][i] == b;
                assert(b == rv.name);
                assert(false);
            }
        },
        closure::WalkStep::Fail(e) => {
            proof {
                // impossible: nothing was provided, so the cycle name
                // would be the root itself, which depends only on b
                match e {
                    PkgError::CircularDependency(c) => {
                        assert(closure::declared_by_known(rv, w.provided(), c@));
                        assert(rv.dependencies.contains(c@));
                        let i = choose|i: int|
                            0 <= i < rv.dependencies.len() && rv.dependencies[i] == c@;
                        assert(c@ == b);
                        assert(false);
                    },
                    _ => {
                        assert(false);
                    },
                }
            }
        },
    }
}


/// The acyclic two-package law, the install scenario's core: for a
/// root whose one dependency resolves to a manifest with no
/// dependencies of its own, the walk's first step must request that
/// dependency, the step after providing it must complete, and the
/// closure is exactly one member — the requested name with the
/// manifest and pointer that were provided for it. Installing the
/// closure in order and the root after it therefore installs the
/// dependency first, each with its fetched payloads.
pub fn acyclic_drive_law(
    root: manifest::Manifest,
    dep: manifest::Manifest,
    pointer: String,
) -> (members: Vec<closure::ClosureEntry>)
    requires
        root@.dependencies.len() == 1,
        root@.dependencies[0] != root@.name,
        dep@.dependencies.len() == 0,
    ensures
        members.deep_view().len() == 1,
        members.deep_view()[0].name == root@.dependencies[0],
        members.deep_view()[0].manifest == dep@,
        members.deep_view()[0].pointer == pointer@,
{
    let ghost rv = root@;
    let ghost b = rv.dependencies[0];
    let ghost dv = dep@;
    let ghost pv = pointer@;
    let mut w = closure::ClosureWalk::new(root);
    let r1 = w.collect_deps();
    match r1 {
        closure::WalkStep::Request(n) => {
            proof {
                assert(rv.dependencies.contains(n@));
                assert(n@ == b) by {
                    let i = choose|i: int| 0 <= i < rv.dependencies.len() && rv.dependencies[i]
                        == n@;
                }
                assert(w.remaining_deps() == 0);
            }
            w.provide(dep, pointer);
            proof {
                assert(w.remaining_deps() == 0);
                assert(w.provided() == Map::<Seq<char>, (manifest::ManifestV, Seq<char>)>::empty().insert(b, (dv, pv)));
                assert(w.seen_names() == seq![rv.name].push(b));
            }
            let r2 = w.collect_deps();
            match r2 {
                closure::WalkStep::Done => {
                    proof {
                        closure::lemma_closure_names_distinct(&w);
                        // the dependency is a member, and the only one
                        assert(w.out_names().contains(b));
                        assert forall|j: int| 0 <= j < w.out_names().len() implies w.out_names()[j]
                            == b by {
                            assert(w.out_names().contains(w.out_names()[j]));
                            assert(seq![rv.name].push(b).contains(w.out_names()[j]));
                            let i = choose|i: int|
                                0 <= i < seq![rv.name].push(b).len() && seq![rv.name].push(b)[i]
                                    == w.out_names()[j];
                            assert(seq![rv.name].push(b)[0] == rv.name);
                            assert(seq![rv.name].push(b)[1] == b);
                        }
                        let j0 = choose|j0: int|
                            0 <= j0 < w.out_names().len() && w.out_names()[j0] == b;
                        assert(w.out_names().len() == 1) by {
                            if w.out_names().len() >= 2 {
                                assert(w.out_names()[0] == b && w.out_names()[1] == b);
                            }
                        }
                        assert(w.out_entries().len() == 1);
                        assert(w.out_names()[0] == w.out_entries()[0].name);
                        assert(w.out_entries()[0].name == b);
                        assert(closure::entry_provided(w.out_entries()[0], w.provided()));
                        assert(w.out_entries()[0].manifest == dv);
                        assert(w.out_entries()[0].pointer == pv);
                    }
                    let members = w.into_closure();
                    proof {
                        assert(members.deep_view()[0].name == b);
                    }
                    members
                },
                closure::WalkStep::Request(_) => {
                    // impossible: nothing is left to examine, yet a
                    // request would consume one more dependency
                    proof {
                        assert(false);
                    }
                    Vec::new()
                },
                closure::WalkStep::Fail(_) => {
                    // impossible: a cycle report needs an unexamined
                    // dependency, and none is left
                    proof {
                        assert(false);
                    }
                    Vec::new()
                },
            }
        },
        closure::WalkStep::Done => {
            // impossible: the dependency would be a member, yet only
            // the root was ever seen
            proof {
                assert(w.out_names().contains(b));
                assert(seq![rv.name].contains(b));
                let i = choose|i: int| 0 <= i < seq![rv.name].len() && seq![rv.name][i] == b;
                assert(b == rv.name);
                assert(false);
            }
            Vec::new()
        },
        closure::WalkStep::Fail(e) => {
            // impossible: with nothing provided the cycle name would be
            // the root itself, which the root does not declare
            proof {
                match e {
                    PkgError::CircularDependency(c) => {
                        assert(closure::declared_by_known(rv, w.provided(), c@));
                        assert(rv.dependencies.contains(c@));
                        let i = choose|i: int|
                            0 <= i < rv.dependencies.len() && rv.dependencies[i] == c@;
                        assert(c@ == b);
                        assert(false);
                    },
                    _ => {
                        assert(false);
                    },
                }
            }
            Vec::new()
        },
    }
}

} // verus!
