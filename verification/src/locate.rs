//! The package locator: a remote's newline-delimited index, parsed
//! exactly as the line-splitting specification says, and the
//! deterministic first-match search across remotes in a fixed order.

use crate::strutil::str_vec_contains;
use crate::PkgError;
use vstd::prelude::*;
use vstd::string::StrSliceExecFns;

verus! {

/// The position of the first newline, or the length when there is
/// none.
pub open spec fn first_nl(s: Seq<char>) -> int
    decreases s.len(),
{
    if s.len() == 0 {
        0
    } else if s[0] == '\n' {
        0
    } else {
        1 + first_nl(s.drop_first())
    }
}

pub proof fn lemma_first_nl(s: Seq<char>)
    ensures
        0 <= first_nl(s) <= s.len(),
        first_nl(s) < s.len() ==> s[first_nl(s)] == '\n',
        forall|j: int| 0 <= j < first_nl(s) ==> s[j] != '\n',
    decreases s.len(),
{
    if s.len() == 0 {
    } else if s[0] == '\n' {
    } else {
        lemma_first_nl(s.drop_first());
        assert forall|j: int| 0 <= j < first_nl(s) implies s[j] != '\n' by {
            if j > 0 {
                assert(s.drop_first()[j - 1] == s[j]);
            }
        }
    }
}

/// A line with a trailing carriage return before its newline loses it.
pub open spec fn strip_cr(line: Seq<char>) -> Seq<char> {
    if line.len() > 0 && line[line.len() - 1] == '\r' {
        line.drop_last()
    } else {
        line
    }
}

/// The lines of a text: split at each newline, dropping a carriage
/// return that precedes one; a final fragment without a newline is a
/// line of its own, kept as it stands.
pub open spec fn lines_of(s: Seq<char>) -> Seq<Seq<char>>
    decreases s.len(),
{
    if s.len() == 0 {
        Seq::empty()
    } else {
        let i = first_nl(s);
        if 0 <= i < s.len() {
            seq![strip_cr(s.subrange(0, i))] + lines_of(s.subrange(i + 1, s.len() as int))
        } else {
            seq![s]
        }
    }
}

/// Splits a remote's index document into its package names, one per
/// line, exactly as [`lines_of`] describes.
pub fn parse_package_list(text: &str) -> (r: Vec<String>)
    ensures
        r.deep_view() == lines_of(text@),
{
    let n = text.unicode_len();
    let mut out: Vec<String> = Vec::new();
    let mut start: usize = 0;
    let mut i: usize = 0;
    proof {
        assert(text@.skip(0) =~= text@);
        assert(out.deep_view() =~= Seq::<Seq<char>>::empty());
    }
    while i < n
        invariant
            start <= i <= n,
            n == text@.len(),
            lines_of(text@) == out.deep_view() + lines_of(text@.skip(start as int)),
            forall|j: int| start <= j < i ==> text@[j] != '\n',
        decreases n - i,
    {
        if text.get_char(i) == '\n' {
            let mut end: usize = i;
            if end > start && text.get_char(end - 1) == '\r' {
                end = end - 1;
            }
            let line = text.substring_char(start, end).to_owned();
            let ghost pre = out.deep_view();
            out.push(line);
            proof {
                let tail = text@.skip(start as int);
                lemma_first_nl(tail);
                assert(tail[i - start] == text@[i as int]);
                assert forall|j: int| 0 <= j < i - start implies tail[j] != '\n' by {
                    assert(tail[j] == text@[start + j]);
                }
                assert(first_nl(tail) == i - start);
                assert(lines_of(tail) == seq![strip_cr(tail.subrange(0, i - start))] + lines_of(
                    tail.subrange(i - start + 1, tail.len() as int),
                ));
                assert(tail.subrange(0, i - start) =~= text@.subrange(start as int, i as int));
                assert(tail.subrange(i - start + 1, tail.len() as int) =~= text@.skip(i + 1));
                if i > start && text@[i - 1] == '\r' {
                    assert(text@.subrange(start as int, i as int).drop_last() =~= text@.subrange(
                        start as int,
                        i - 1,
                    ));
                    assert(strip_cr(text@.subrange(start as int, i as int)) == line@);
                } else {
                    assert(strip_cr(text@.subrange(start as int, i as int)) == line@);
                }
                assert(out.deep_view() =~= pre.push(line@));
                assert(pre.push(line@) + lines_of(text@.skip(i + 1)) =~= pre + (seq![line@]
                    + lines_of(text@.skip(i + 1))));
            }
            start = i + 1;
        }
        i += 1;
    }
    if start < n {
        let line = text.substring_char(start, n).to_owned();
        let ghost pre = out.deep_view();
        out.push(line);
        proof {
            let tail = text@.skip(start as int);
            lemma_first_nl(tail);
            assert forall|j: int| 0 <= j < tail.len() implies tail[j] != '\n' by {
                assert(tail[j] == text@[start + j]);
            }
            assert(first_nl(tail) == tail.len());
            assert(lines_of(tail) == seq![tail]);
            assert(line@ =~= tail);
            assert(out.deep_view() =~= pre.push(line@));
            assert(pre.push(line@) =~= pre + seq![line@]);
        }
    } else {
        proof {
            assert(start == n);
            assert(text@.skip(start as int).len() == 0);
            assert(lines_of(text@.skip(start as int)) == Seq::<Seq<char>>::empty());
            assert(out.deep_view() + Seq::<Seq<char>>::empty() =~= out.deep_view());
        }
    }
    out
}

/// The URL of a remote's package-name index.
pub fn list_url(remote_url: &str) -> (r: String)
    ensures
        r@ == remote_url@ + "/list.txt"@,
{
    crate::strutil::concat2(remote_url, "/list.txt")
}

/// The URL of the pointer document a remote serves for a package name.
pub fn pointer_url(remote_url: &str, name: &str) -> (r: String)
    ensures
        r@ == remote_url@ + "/"@ + name@ + ".yml"@,
{
    crate::strutil::concat4(remote_url, "/", name, ".yml")
}

/// Whether the remote at position `i` has a fetched index that lists
/// `name`; an index that could not be fetched lists nothing.
pub open spec fn index_lists(indexes: Seq<Option<Vec<String>>>, i: int, name: Seq<char>) -> bool {
    match indexes[i] {
        Some(l) => l.deep_view().contains(name),
        Option::None => false,
    }
}

/// Finds the first remote, in the caller's fixed order, whose index
/// lists the name. With remotes sorted by name, repeated runs return
/// the same remote. `PackageNotFound` exactly when no index lists it.
pub fn locate(name: &str, indexes: &Vec<Option<Vec<String>>>) -> (r: Result<usize, PkgError>)
    ensures
        match r {
            Ok(i) => i < indexes@.len() && index_lists(indexes@, i as int, name@) && (forall|j: int|
                0 <= j < i ==> !index_lists(indexes@, j, name@)),
            Err(e) => (forall|j: int|
                0 <= j < indexes@.len() ==> !index_lists(indexes@, j, name@)) && (e matches PkgError::PackageNotFound(
                n,
            ) && n@ == name@),
        },
{
    let mut i: usize = 0;
    while i < indexes.len()
        invariant
            i <= indexes@.len(),
            forall|j: int| 0 <= j < i ==> !index_lists(indexes@, j, name@),
        decreases indexes@.len() - i,
    {
        match &indexes[i] {
            Some(l) => {
                if str_vec_contains(l, name) {
                    return Ok(i);
                }
            },
            Option::None => {},
        }
        i += 1;
    }
    Err(PkgError::PackageNotFound(name.to_owned()))
}

} // verus!
