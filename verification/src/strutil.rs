//! Verified helpers on strings: equality, lexicographic order by code
//! point, and concatenation.

use vstd::prelude::*;
use vstd::string::StrSliceExecFns;
use vstd::string::StringExecFns;

verus! {

/// Lexicographic order on character sequences, comparing code points.
pub open spec fn lex_le(a: Seq<char>, b: Seq<char>) -> bool
    decreases a.len(),
{
    if a.len() == 0 {
        true
    } else if b.len() == 0 {
        false
    } else if a[0] == b[0] {
        lex_le(a.drop_first(), b.drop_first())
    } else {
        (a[0] as u32) < (b[0] as u32)
    }
}

/// Strict lexicographic order.
pub open spec fn lex_lt(a: Seq<char>, b: Seq<char>) -> bool {
    lex_le(a, b) && a != b
}

/// The order is total: two sequences always compare one way or the other.
pub proof fn lemma_lex_total(a: Seq<char>, b: Seq<char>)
    ensures
        lex_le(a, b) || lex_le(b, a),
    decreases a.len(),
{
    if a.len() == 0 {
        assert(lex_le(a, b));
    } else if b.len() == 0 {
        assert(lex_le(b, a));
    } else if a[0] == b[0] {
        lemma_lex_total(a.drop_first(), b.drop_first());
        assert(lex_le(a, b) || lex_le(b, a));
    } else {
        assert((a[0] as u32) != (b[0] as u32)) by {
            vstd::utf8::char_u32_cast(a[0], a[0] as u32);
            vstd::utf8::char_u32_cast(b[0], b[0] as u32);
        }
        assert(lex_le(a, b) || lex_le(b, a));
    }
}

/// The order is antisymmetric: mutual `lex_le` forces equality.
pub proof fn lemma_lex_antisym(a: Seq<char>, b: Seq<char>)
    requires
        lex_le(a, b),
        lex_le(b, a),
    ensures
        a == b,
    decreases a.len(),
{
    if a.len() == 0 {
        assert(b.len() == 0);
        assert(a =~= b);
    } else {
        assert(b.len() > 0);
        assert(a[0] == b[0]);
        lemma_lex_antisym(a.drop_first(), b.drop_first());
        assert(a.drop_first() == b.drop_first());
        assert(a.len() == b.len());
        assert forall|i: int| 0 <= i < a.len() implies a[i] == b[i] by {
            if i > 0 {
                assert(a[i] == a.drop_first()[i - 1]);
                assert(b[i] == b.drop_first()[i - 1]);
            }
        }
        assert(a =~= b);
    }
}

/// The order is transitive.
pub proof fn lemma_lex_trans(a: Seq<char>, b: Seq<char>, c: Seq<char>)
    requires
        lex_le(a, b),
        lex_le(b, c),
    ensures
        lex_le(a, c),
    decreases a.len(),
{
    if a.len() == 0 || b.len() == 0 || c.len() == 0 {
    } else if a[0] == b[0] && b[0] == c[0] {
        lemma_lex_trans(a.drop_first(), b.drop_first(), c.drop_first());
    } else {
    }
}

/// Character-by-character string equality.
pub fn str_eq(a: &str, b: &str) -> (r: bool)
    ensures
        r == (a@ == b@),
{
    let alen = a.unicode_len();
    let blen = b.unicode_len();
    if alen != blen {
        return false;
    }
    let mut i: usize = 0;
    while i < alen
        invariant
            i <= alen,
            alen == a@.len(),
            alen == b@.len(),
            forall|j: int| 0 <= j < i ==> a@[j] == b@[j],
        decreases alen - i,
    {
        if a.get_char(i) != b.get_char(i) {
            return false;
        }
        i += 1;
    }
    proof {
        assert(a@ =~= b@);
    }
    true
}

/// Character-by-character comparison deciding `lex_le`.
pub fn str_le(a: &str, b: &str) -> (r: bool)
    ensures
        r == lex_le(a@, b@),
{
    let alen = a.unicode_len();
    let blen = b.unicode_len();
    let mut i: usize = 0;
    proof {
        assert(a@.skip(0) =~= a@);
        assert(b@.skip(0) =~= b@);
    }
    while i < alen && i < blen
        invariant
            i <= alen,
            i <= blen,
            alen == a@.len(),
            blen == b@.len(),
            lex_le(a@, b@) == lex_le(a@.skip(i as int), b@.skip(i as int)),
        decreases alen - i,
    {
        let ca = a.get_char(i);
        let cb = b.get_char(i);
        if ca != cb {
            proof {
                assert(a@.skip(i as int)[0] == ca);
                assert(b@.skip(i as int)[0] == cb);
            }
            return (ca as u32) < (cb as u32);
        }
        proof {
            assert(a@.skip(i as int).drop_first() =~= a@.skip(i + 1));
            assert(b@.skip(i as int).drop_first() =~= b@.skip(i + 1));
        }
        i += 1;
    }
    if i == alen {
        proof {
            assert(a@.skip(i as int).len() == 0);
        }
        true
    } else {
        proof {
            assert(b@.skip(i as int).len() == 0);
            assert(a@.skip(i as int).len() > 0);
        }
        false
    }
}

/// Strict comparison deciding `lex_lt`.
pub fn str_lt(a: &str, b: &str) -> (r: bool)
    ensures
        r == lex_lt(a@, b@),
{
    let le = str_le(a, b);
    if le {
        let eq = str_eq(a, b);
        proof {
            if a@ == b@ {
                assert(!lex_lt(a@, b@));
            }
        }
        !eq
    } else {
        false
    }
}

/// Whether `s` begins with `pat`.
pub open spec fn starts_with(s: Seq<char>, pat: Seq<char>) -> bool {
    pat.len() <= s.len() && s.subrange(0, pat.len() as int) == pat
}

/// `s` with every leading occurrence of `pat` removed, one after the
/// other.
pub open spec fn strip_all(s: Seq<char>, pat: Seq<char>) -> Seq<char>
    decreases s.len(),
{
    if pat.len() == 0 {
        s
    } else if starts_with(s, pat) {
        strip_all(s.skip(pat.len() as int), pat)
    } else {
        s
    }
}

/// `s` with every occurrence of `pat` replaced by `rep`, left to
/// right, without overlap.
pub open spec fn replace_all(s: Seq<char>, pat: Seq<char>, rep: Seq<char>) -> Seq<char>
    decreases s.len(),
{
    if pat.len() == 0 {
        s
    } else if starts_with(s, pat) {
        rep + replace_all(s.skip(pat.len() as int), pat, rep)
    } else if s.len() == 0 {
        s
    } else {
        seq![s[0]] + replace_all(s.drop_first(), pat, rep)
    }
}

/// Whether `pat` occurs in `s` at position `pos`.
pub fn match_at(s: &str, pos: usize, pat: &str) -> (r: bool)
    requires
        pos <= s@.len(),
    ensures
        r == starts_with(s@.skip(pos as int), pat@),
{
    let n = pat.unicode_len();
    let m = s.unicode_len();
    if n > m - pos {
        return false;
    }
    let mut j: usize = 0;
    while j < n
        invariant
            j <= n,
            n == pat@.len(),
            m == s@.len(),
            pos + n <= m,
            forall|t: int| 0 <= t < j ==> s@[pos + t] == pat@[t],
        decreases n - j,
    {
        if s.get_char(pos + j) != pat.get_char(j) {
            proof {
                if starts_with(s@.skip(pos as int), pat@) {
                    assert(s@.skip(pos as int).subrange(0, n as int)[j as int] == s@[pos + j]);
                }
            }
            return false;
        }
        j += 1;
    }
    proof {
        assert(s@.skip(pos as int).subrange(0, n as int) =~= pat@);
    }
    true
}

/// Strips every leading occurrence of `pat` from `s`, as
/// [`strip_all`] describes.
pub fn strip_all_str(s: &str, pat: &str) -> (r: String)
    requires
        pat@.len() > 0,
    ensures
        r@ == strip_all(s@, pat@),
{
    let n = pat.unicode_len();
    let m = s.unicode_len();
    let mut pos: usize = 0;
    proof {
        assert(s@.skip(0) =~= s@);
    }
    while match_at(s, pos, pat)
        invariant
            pos <= m,
            m == s@.len(),
            n == pat@.len(),
            n > 0,
            strip_all(s@, pat@) == strip_all(s@.skip(pos as int), pat@),
        decreases m - pos,
    {
        proof {
            assert(s@.skip(pos as int).skip(n as int) =~= s@.skip(pos + n));
        }
        pos += n;
    }
    let r = s.substring_char(pos, m).to_owned();
    proof {
        assert(r@ =~= s@.skip(pos as int));
    }
    r
}

/// Replaces every occurrence of `pat` in `s` by `rep`, as
/// [`replace_all`] describes.
pub fn replace_all_str(s: &str, pat: &str, rep: &str) -> (r: String)
    requires
        pat@.len() > 0,
    ensures
        r@ == replace_all(s@, pat@, rep@),
{
    let n = pat.unicode_len();
    let m = s.unicode_len();
    let mut out = String::new();
    let mut pos: usize = 0;
    proof {
        assert(s@.skip(0) =~= s@);
        assert(out@ =~= Seq::<char>::empty());
    }
    while pos < m
        invariant
            pos <= m,
            m == s@.len(),
            n == pat@.len(),
            n > 0,
            replace_all(s@, pat@, rep@) == out@ + replace_all(s@.skip(pos as int), pat@, rep@),
        decreases m - pos,
    {
        let ghost pre = out@;
        if match_at(s, pos, pat) {
            out.append(rep);
            proof {
                assert(s@.skip(pos as int).skip(n as int) =~= s@.skip(pos + n));
                assert(replace_all(s@.skip(pos as int), pat@, rep@) == rep@ + replace_all(
                    s@.skip(pos + n),
                    pat@,
                    rep@,
                ));
                assert(pre + (rep@ + replace_all(s@.skip(pos + n), pat@, rep@)) =~= out@
                    + replace_all(s@.skip(pos + n), pat@, rep@));
            }
            pos += n;
        } else {
            let c = s.substring_char(pos, pos + 1);
            out.append(c);
            proof {
                let tail = s@.skip(pos as int);
                assert(tail.len() > 0);
                assert(tail[0] == s@[pos as int]);
                assert(tail.drop_first() =~= s@.skip(pos + 1));
                assert(replace_all(tail, pat@, rep@) == seq![s@[pos as int]] + replace_all(
                    s@.skip(pos + 1),
                    pat@,
                    rep@,
                ));
                assert(c@ =~= seq![s@[pos as int]]);
                assert(pre + (seq![s@[pos as int]] + replace_all(s@.skip(pos + 1), pat@, rep@))
                    =~= out@ + replace_all(s@.skip(pos + 1), pat@, rep@));
            }
            pos += 1;
        }
    }
    proof {
        assert(s@.skip(pos as int).len() == 0);
        assert(replace_all(s@.skip(pos as int), pat@, rep@) == s@.skip(pos as int));
        assert(out@ + s@.skip(pos as int) =~= out@);
    }
    out
}

/// Whether one of the strings in `v` is `name`.
pub fn str_vec_contains(v: &Vec<String>, name: &str) -> (r: bool)
    ensures
        r == v.deep_view().contains(name@),
{
    let mut i: usize = 0;
    while i < v.len()
        invariant
            i <= v@.len(),
            forall|j: int| 0 <= j < i ==> v.deep_view()[j] != name@,
        decreases v@.len() - i,
    {
        if str_eq(v[i].as_str(), name) {
            proof {
                assert(v.deep_view()[i as int] == name@);
            }
            return true;
        }
        i += 1;
    }
    false
}

/// `a` followed by `b`.
pub fn concat2(a: &str, b: &str) -> (r: String)
    ensures
        r@ == a@ + b@,
{
    let mut s = a.to_owned();
    s.append(b);
    s
}

/// `a`, `b`, then `c`.
pub fn concat3(a: &str, b: &str, c: &str) -> (r: String)
    ensures
        r@ == a@ + b@ + c@,
{
    let mut s = a.to_owned();
    s.append(b);
    s.append(c);
    s
}

/// `a`, `b`, `c`, then `d`.
pub fn concat4(a: &str, b: &str, c: &str, d: &str) -> (r: String)
    ensures
        r@ == a@ + b@ + c@ + d@,
{
    let mut s = a.to_owned();
    s.append(b);
    s.append(c);
    s.append(d);
    s
}

} // verus!
