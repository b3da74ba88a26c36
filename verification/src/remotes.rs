//! The remote registry: remote descriptors read into a list of
//! remotes that is sorted by name and free of duplicates, so that
//! every later search over it is deterministic.

use crate::strutil::{
    concat2, concat3, lemma_lex_antisym, lemma_lex_total, lemma_lex_trans, lex_lt, match_at,
    replace_all, replace_all_str, starts_with, str_eq, str_le, strip_all, strip_all_str,
};
use crate::yaml::url_of_doc;
use crate::yaml::parse_url_doc;
use vstd::prelude::*;

verus! {

/// A named source of package metadata.
pub struct Remote {
    pub name: String,
    pub url: String,
}

/// The mathematical value of a [`Remote`].
pub struct RemoteV {
    pub name: Seq<char>,
    pub url: Seq<char>,
}

impl View for Remote {
    type V = RemoteV;

    open spec fn view(&self) -> RemoteV {
        RemoteV { name: self.name@, url: self.url@ }
    }
}

impl DeepView for Remote {
    type V = RemoteV;

    open spec fn deep_view(&self) -> RemoteV {
        self.view()
    }
}

/// Remote names strictly increase.
pub open spec fn sorted_by_name(rs: Seq<RemoteV>) -> bool {
    forall|i: int| 0 <= i < rs.len() - 1 ==> lex_lt(#[trigger] rs[i].name, rs[i + 1].name)
}

/// In a sorted list any earlier name is strictly below any later one.
pub proof fn lemma_sorted_chain(rs: Seq<RemoteV>, i: int, j: int)
    requires
        sorted_by_name(rs),
        0 <= i < j < rs.len(),
    ensures
        lex_lt(rs[i].name, rs[j].name),
    decreases j - i,
{
    if j == i + 1 {
    } else {
        lemma_sorted_chain(rs, i, j - 1);
        lemma_lex_trans(rs[i].name, rs[j - 1].name, rs[j].name);
        if rs[i].name == rs[j].name {
            lemma_lex_antisym(rs[i].name, rs[j - 1].name);
        }
    }
}

/// The mapping a descriptor list denotes: each directory name whose
/// descriptor carries a `url` contributes one remote; a repeated name
/// keeps its last descriptor; an unreadable descriptor contributes
/// nothing.
pub open spec fn remote_map(entries: Seq<(String, String)>) -> Map<Seq<char>, Seq<char>>
    decreases entries.len(),
{
    if entries.len() == 0 {
        Map::empty()
    } else {
        let m = remote_map(entries.drop_last());
        match url_of_doc(entries.last().1@) {
            Some(u) => m.insert(entries.last().0@, u),
            Option::None => m,
        }
    }
}

/// The remote list carries exactly the mapping: same names, same URLs.
pub open spec fn represents(rs: Seq<RemoteV>, m: Map<Seq<char>, Seq<char>>) -> bool {
    &&& (forall|k: int|
        0 <= k < rs.len() ==> m.contains_key(#[trigger] rs[k].name) && m[rs[k].name] == rs[k].url)
    &&& (forall|n: Seq<char>|
        #[trigger] m.contains_key(n) ==> exists|k: int| 0 <= k < rs.len() && rs[k].name == n)
}

/// Reads remote descriptors — each a directory name and the text of
/// the descriptor file found in it — into the remote list.
///
/// The result holds exactly the remotes of [`remote_map`], sorted by
/// name, so discovery is reproducible whatever order the walk found
/// the descriptors in. A descriptor that does not parse is skipped
/// softly; the positions of the skipped entries are returned so the
/// caller can report them.
pub fn find_remotes(entries: &Vec<(String, String)>) -> (r: (Vec<Remote>, Vec<usize>))
    ensures
        sorted_by_name(r.0.deep_view()),
        represents(r.0.deep_view(), remote_map(entries@)),
        forall|k: int|
            0 <= k < r.1@.len() ==> #[trigger] r.1@[k] < entries@.len() && url_of_doc(
                entries@[r.1@[k] as int].1@,
            ) is None,
        forall|j: int|
            0 <= j < entries@.len() && url_of_doc(#[trigger] entries@[j].1@) is None ==> r.1@.contains(j as usize),
{
    let mut out: Vec<Remote> = Vec::new();
    let mut skipped: Vec<usize> = Vec::new();
    let mut i: usize = 0;
    proof {
        assert(entries@.take(0) =~= Seq::<(String, String)>::empty());
    }
    while i < entries.len()
        invariant
            i <= entries@.len(),
            sorted_by_name(out.deep_view()),
            represents(out.deep_view(), remote_map(entries@.take(i as int))),
            forall|k: int|
                0 <= k < skipped@.len() ==> #[trigger] skipped@[k] < i && url_of_doc(
                    entries@[skipped@[k] as int].1@,
                ) is None,
            forall|j: int|
                0 <= j < i && url_of_doc(#[trigger] entries@[j].1@) is None ==> skipped@.contains(
                    j as usize,
                ),
        decreases entries@.len() - i,
    {
        let ghost m0 = remote_map(entries@.take(i as int));
        proof {
            assert(entries@.take(i + 1).drop_last() =~= entries@.take(i as int));
            assert(entries@.take(i + 1).last() == entries@[i as int]);
        }
        match parse_url_doc(entries[i].1.as_str()) {
            Option::None => {
                let ghost pre_skipped = skipped@;
                skipped.push(i);
                proof {
                    assert(remote_map(entries@.take(i + 1)) == m0);
                    assert forall|j: int|
                        0 <= j < i + 1 && url_of_doc(#[trigger] entries@[j].1@) is None implies skipped@.contains(
                        j as usize,
                    ) by {
                        if j < i {
                            let k = choose|k: int|
                                0 <= k < pre_skipped.len() && pre_skipped[k] == j as usize;
                            assert(skipped@[k] == j as usize);
                        } else {
                            assert(skipped@[skipped@.len() - 1] == i);
                        }
                    }
                }
            },
            Some(url) => {
                let name = entries[i].0.clone();
                proof {
                    assert(remote_map(entries@.take(i + 1)) == m0.insert(name@, url@));
                }
                insert_remote(&mut out, name, url);
                proof {
                    let ghost pre_skipped = skipped@;
                    assert forall|j: int|
                        0 <= j < i + 1 && url_of_doc(#[trigger] entries@[j].1@) is None implies skipped@.contains(
                        j as usize,
                    ) by {
                        if j < i {
                            let k = choose|k: int|
                                0 <= k < pre_skipped.len() && pre_skipped[k] == j as usize;
                            assert(skipped@[k] == j as usize);
                        }
                    }
                }
            },
        }
        i += 1;
    }
    proof {
        assert(entries@.take(entries@.len() as int) =~= entries@);
    }
    (out, skipped)
}

/// Puts one remote into the sorted list: an existing entry of the same
/// name is replaced, a new name goes to its ordered position.
fn insert_remote(out: &mut Vec<Remote>, name: String, url: String)
    requires
        sorted_by_name(old(out).deep_view()),
    ensures
        sorted_by_name(final(out).deep_view()),
        forall|m: Map<Seq<char>, Seq<char>>|
            represents(old(out).deep_view(), m) ==> represents(
                final(out).deep_view(),
                #[trigger] m.insert(name@, url@),
            ),
{
    let ghost rs0 = out.deep_view();
    let mut p: usize = 0;
    while p < out.len() && !str_le(name.as_str(), out[p].name.as_str())
        invariant
            p <= rs0.len(),
            out.deep_view() == rs0,
            sorted_by_name(rs0),
            forall|j: int| 0 <= j < p ==> lex_lt(#[trigger] rs0[j].name, name@),
        decreases rs0.len() - p,
    {
        proof {
            lemma_lex_total(name@, rs0[p as int].name);
            assert(rs0[p as int].name != name@);
            assert(lex_lt(rs0[p as int].name, name@));
        }
        p += 1;
    }
    let ghost nv = RemoteV { name: name@, url: url@ };
    if p < out.len() && str_eq(out[p].name.as_str(), name.as_str()) {
        // same name: replace with the later descriptor's URL
        out.remove(p);
        out.insert(p, Remote { name, url });
        proof {
            let rs1 = out.deep_view();
            assert(rs1 =~= rs0.update(p as int, nv));
            assert forall|i: int| 0 <= i < rs1.len() - 1 implies lex_lt(
                #[trigger] rs1[i].name,
                rs1[i + 1].name,
            ) by {
                assert(lex_lt(rs0[i].name, rs0[i + 1].name));
                assert(rs0[p as int].name == name@);
            }
            assert forall|m: Map<Seq<char>, Seq<char>>|
                represents(rs0, m) implies represents(rs1, #[trigger] m.insert(name@, url@)) by {
                let m1 = m.insert(name@, url@);
                assert forall|k: int|
                    0 <= k < rs1.len() implies m1.contains_key(#[trigger] rs1[k].name)
                    && m1[rs1[k].name] == rs1[k].url by {
                    if k != p {
                        assert(rs1[k] == rs0[k]);
                        if k < p {
                            lemma_sorted_chain(rs0, k, p as int);
                        } else {
                            lemma_sorted_chain(rs0, p as int, k);
                        }
                        assert(rs0[k].name != name@);
                        assert(m.contains_key(rs0[k].name) && m[rs0[k].name] == rs0[k].url);
                    }
                }
                assert forall|n: Seq<char>| #[trigger] m1.contains_key(n) implies exists|k: int|
                    0 <= k < rs1.len() && rs1[k].name == n by {
                    if n == name@ {
                        assert(rs1[p as int].name == n);
                    } else {
                        assert(m.contains_key(n));
                        let k = choose|k: int| 0 <= k < rs0.len() && rs0[k].name == n;
                        assert(rs1[k].name == n);
                    }
                }
            }
        }
    } else {
        proof {
            if (p as int) < rs0.len() {
                assert(rs0[p as int].name != name@);
                assert(lex_lt(name@, rs0[p as int].name));
            }
        }
        out.insert(p, Remote { name, url });
        proof {
            let rs1 = out.deep_view();
            assert(rs1 =~= rs0.insert(p as int, nv));
            assert forall|i: int| 0 <= i < rs1.len() - 1 implies lex_lt(
                #[trigger] rs1[i].name,
                rs1[i + 1].name,
            ) by {
                if i + 1 < p {
                    assert(rs1[i] == rs0[i] && rs1[i + 1] == rs0[i + 1]);
                    assert(lex_lt(rs0[i].name, rs0[i + 1].name));
                } else if i + 1 == p {
                    assert(rs1[i] == rs0[i] && rs1[i + 1] == nv);
                    assert(lex_lt(rs0[i].name, name@));
                } else if i == p {
                    assert(rs1[i] == nv && rs1[i + 1] == rs0[i]);
                    assert(lex_lt(name@, rs0[i].name));
                } else {
                    assert(rs1[i] == rs0[i - 1] && rs1[i + 1] == rs0[i]);
                    assert(lex_lt(rs0[i - 1].name, rs0[i].name));
                }
            }
            // the inserted name is fresh: below it everything is
            // smaller, above it everything is larger
            assert forall|k: int| 0 <= k < rs0.len() implies #[trigger] rs0[k].name != name@ by {
                if k < p {
                    assert(lex_lt(rs0[k].name, name@));
                } else if k == p {
                } else {
                    assert(lex_lt(name@, rs0[p as int].name));
                    lemma_sorted_chain(rs0, p as int, k);
                    lemma_lex_trans(name@, rs0[p as int].name, rs0[k].name);
                    if rs0[k].name == name@ {
                        lemma_lex_antisym(name@, rs0[p as int].name);
                    }
                }
            }
            assert forall|m: Map<Seq<char>, Seq<char>>|
                represents(rs0, m) implies represents(rs1, #[trigger] m.insert(name@, url@)) by {
                let m1 = m.insert(name@, url@);
                assert forall|k: int|
                    0 <= k < rs1.len() implies m1.contains_key(#[trigger] rs1[k].name)
                    && m1[rs1[k].name] == rs1[k].url by {
                    if k < p {
                        assert(rs1[k] == rs0[k]);
                        assert(rs0[k].name != name@);
                        assert(m.contains_key(rs0[k].name) && m[rs0[k].name] == rs0[k].url);
                    } else if k > p {
                        assert(rs1[k] == rs0[k - 1]);
                        assert(rs0[k - 1].name != name@);
                        assert(m.contains_key(rs0[k - 1].name) && m[rs0[k - 1].name] == rs0[k
                            - 1].url);
                    }
                }
                assert forall|n: Seq<char>| #[trigger] m1.contains_key(n) implies exists|k: int|
                    0 <= k < rs1.len() && rs1[k].name == n by {
                    if n == name@ {
                        assert(rs1[p as int].name == n);
                    } else {
                        assert(m.contains_key(n));
                        let k = choose|k: int| 0 <= k < rs0.len() && rs0[k].name == n;
                        if k < p {
                            assert(rs1[k].name == n);
                        } else {
                            assert(rs1[k + 1] == rs0[k]);
                            assert(rs1[k + 1].name == n);
                        }
                    }
                }
            }
        }
    }
}


/// The URL a remote-add argument denotes: the `ppa:` shorthand — with
/// any repetition of the marker stripped — expands under the fixed
/// PPA host; any other argument is taken verbatim as a URL.
pub fn remote_url_of_arg(arg: &str) -> (r: String)
    ensures
        starts_with(arg@, "ppa:"@) ==> r@ == "http://ppa.wheedev.org/"@ + strip_all(
            arg@,
            "ppa:"@,
        ),
        !starts_with(arg@, "ppa:"@) ==> r@ == arg@,
{
    proof {
        reveal_strlit("ppa:");
        assert(arg@.skip(0) =~= arg@);
    }
    if match_at(arg, 0, "ppa:") {
        let path = strip_all_str(arg, "ppa:");
        concat2("http://ppa.wheedev.org/", path.as_str())
    } else {
        arg.to_owned()
    }
}

/// The directory name a remote URL is stored under: scheme markers
/// dropped, path separators flattened to underscores.
pub fn remote_name_of_url(url: &str) -> (r: String)
    ensures
        r@ == replace_all(
            replace_all(replace_all(url@, "http://"@, ""@), "https://"@, ""@),
            "/"@,
            "_"@,
        ),
{
    proof {
        reveal_strlit("http://");
        reveal_strlit("https://");
        reveal_strlit("/");
    }
    let no_http = replace_all_str(url, "http://", "");
    let no_scheme = replace_all_str(no_http.as_str(), "https://", "");
    replace_all_str(no_scheme.as_str(), "/", "_")
}

/// The text of the descriptor file a new remote is recorded with.
pub fn remote_descriptor_text(url: &str) -> (r: String)
    ensures
        r@ == "url: "@ + url@ + "\n"@,
{
    concat3("url: ", url, "\n")
}

} // verus!
