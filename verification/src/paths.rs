//! Path strings.  Paths are modelled as plain character sequences with `/`
//! as the separator: parents and relative forms for locator construction,
//! segment checks for the mirroring contract, and the containment check the
//! resource server's traversal defense rests on.

use vstd::prelude::*;

use crate::text::{
    chars_to_string, find_char, find_last_char, lemma_find_char_bounds, lemma_find_char_is,
    lemma_find_last_char_is, push_str_chars, str_chars, str_eq, str_has_prefix, vec_slice,
};

verus! {

/// Trailing `/` characters dropped.
pub open spec fn trim_end_slashes(s: Seq<char>) -> Seq<char>
    decreases s.len(),
{
    if s.len() > 0 && s.last() == '/' {
        trim_end_slashes(s.drop_last())
    } else {
        s
    }
}

/// A backwards scan over trailing slashes finds exactly `trim_end_slashes`.
proof fn lemma_trim_end_slashes_at(s: Seq<char>, q: int)
    requires
        0 <= q <= s.len(),
        forall|k: int| q <= k < s.len() ==> s[k] == '/',
        q > 0 ==> s[q - 1] != '/',
    ensures
        trim_end_slashes(s) == s.take(q),
    decreases s.len(),
{
    if s.len() > 0 && s.last() == '/' {
        lemma_trim_end_slashes_at(s.drop_last(), q);
        assert(s.drop_last().take(q) =~= s.take(q));
    } else {
        assert(s.take(q) =~= s);
    }
}

/// The parent of a path: the path up to its last component, `None` for the
/// root or an empty path.
pub open spec fn spec_parent(dir: Seq<char>) -> Option<Seq<char>> {
    let d = trim_end_slashes(dir);
    if d.len() == 0 {
        None
    } else {
        let i = find_last_char(d, '/');
        if i < 0 {
            Some(Seq::empty())
        } else if i == 0 {
            Some(seq!['/'])
        } else {
            Some(d.take(i))
        }
    }
}

/// The parent of `dir`, or `None` when `dir` is the root or empty.
pub fn parent_of(dir: &str) -> (r: Option<String>)
    ensures
        match r {
            Some(p) => spec_parent(dir@) == Some(p@),
            None => spec_parent(dir@) is None,
        },
{
    let v = str_chars(dir);
    let mut q: usize = v.len();
    while q > 0 && v[q - 1] == '/'
        invariant
            q <= v@.len(),
            v@ == dir@,
            forall|k: int| q <= k < v@.len() ==> v@[k] == '/',
        decreases q,
    {
        q = q - 1;
    }
    proof {
        lemma_trim_end_slashes_at(dir@, q as int);
    }
    let ghost d = trim_end_slashes(dir@);
    if q == 0 {
        return None;
    }
    // Find the last slash within v[..q].
    let mut i: usize = q;
    while i > 0 && v[i - 1] != '/'
        invariant
            i <= q <= v@.len(),
            v@ == dir@,
            forall|k: int| i <= k < q ==> v@[k] != '/',
        decreases i,
    {
        i = i - 1;
    }
    proof {
        assert(d == dir@.take(q as int));
        assert forall|k: int| i <= k < d.len() implies d[k] != '/' by {
            assert(d[k] == dir@[k]);
        }
        lemma_find_last_char_is(d, '/', i as int - 1);
    }
    if i == 0 {
        let r = String::new();
        assert(r@ =~= Seq::<char>::empty());
        Some(r)
    } else if i == 1 {
        let piece = vec_slice(&v, 0, 1);
        let r = chars_to_string(&piece);
        proof {
            assert(r@ =~= seq!['/']);
            assert(d[0] == '/');
        }
        Some(r)
    } else {
        let piece = vec_slice(&v, 0, i - 1);
        let r = chars_to_string(&piece);
        proof {
            assert(r@ =~= d.take(i as int - 1));
        }
        Some(r)
    }
}

/// Strips `pre` from the front of `p`, component-wise: an empty prefix
/// matches everything; otherwise the match must end at a separator or at
/// the end of `p`.
pub open spec fn spec_strip_prefix(pre: Seq<char>, p: Seq<char>) -> Option<Seq<char>> {
    if pre.len() == 0 {
        Some(p)
    } else if pre == seq!['/'] {
        if p.len() > 0 && p[0] == '/' {
            Some(p.skip(1))
        } else {
            None
        }
    } else if p == pre {
        Some(Seq::<char>::empty())
    } else if p.len() > pre.len() && p.take(pre.len() as int) == pre && p[pre.len() as int]
        == '/' {
        Some(p.skip(pre.len() as int + 1))
    } else {
        None
    }
}

/// Strips the path prefix `pre` from `p`, when that relation holds.
pub fn strip_path_prefix(pre: &str, p: &str) -> (r: Option<String>)
    ensures
        match r {
            Some(rest) => spec_strip_prefix(pre@, p@) == Some(rest@),
            None => spec_strip_prefix(pre@, p@) is None,
        },
{
    let pn = pre.unicode_len();
    let n = p.unicode_len();
    if pn == 0 {
        return Some(p.to_owned());
    }
    if str_eq(pre, "/") {
        proof {
            reveal_strlit("/");
            assert("/"@ =~= seq!['/']);
        }
        if n > 0 && p.get_char(0) == '/' {
            let v = str_chars(p);
            let piece = vec_slice(&v, 1, n);
            return Some(chars_to_string(&piece));
        }
        return None;
    }
    proof {
        reveal_strlit("/");
        assert(seq!['/'].len() == 1);
        if pre@ == seq!['/'] {
            assert(pre@ =~= "/"@);
        }
    }
    if str_eq(p, pre) {
        let r = String::new();
        assert(r@ =~= Seq::<char>::empty());
        return Some(r);
    }
    if n > pn && str_has_prefix(p, pre) && p.get_char(pn) == '/' {
        let v = str_chars(p);
        let piece = vec_slice(&v, pn + 1, n);
        return Some(chars_to_string(&piece));
    }
    None
}

/// Backslashes replaced by forward slashes.
pub open spec fn spec_to_slashes(s: Seq<char>) -> Seq<char> {
    s.map_values(|c: char| if c == '\\' { '/' } else { c })
}

/// Replaces every backslash with a forward slash.
pub fn to_slashes(s: &str) -> (r: String)
    ensures
        r@ == spec_to_slashes(s@),
{
    let n = s.unicode_len();
    let mut out: Vec<char> = Vec::new();
    let mut i: usize = 0;
    while i < n
        invariant
            n == s@.len(),
            i <= n,
            out@ == spec_to_slashes(s@.take(i as int)),
        decreases n - i,
    {
        let c = s.get_char(i);
        if c == '\\' {
            out.push('/');
        } else {
            out.push(c);
        }
        i = i + 1;
        assert(out@ =~= spec_to_slashes(s@.take(i as int)));
    }
    proof {
        assert(s@.take(n as int) =~= s@);
    }
    chars_to_string(&out)
}

/// Whether a path is relative and free of parent-directory segments: it
/// must not start with `/`, and no `/`-separated segment may be `..`.
pub open spec fn spec_validate_relative(p: Seq<char>) -> bool {
    &&& !(p.len() > 0 && p[0] == '/')
    &&& !has_parent_segment(p)
}

/// Whether some segment of `p` is exactly `..`.
pub open spec fn has_parent_segment(p: Seq<char>) -> bool {
    exists|i: int|
        0 <= i && i + 2 <= p.len() && #[trigger] p[i] == '.' && p[i + 1] == '.' && (i == 0 || p[i
            - 1] == '/') && (i + 2 == p.len() || p[i + 2] == '/')
}

/// Whether `p` is acceptable as a local download destination: relative,
/// with no `..` segment.
pub fn validate_relative(p: &str) -> (r: bool)
    ensures
        r == spec_validate_relative(p@),
{
    let n = p.unicode_len();
    if n > 0 && p.get_char(0) == '/' {
        return false;
    }
    let v = str_chars(p);
    let mut i: usize = 0;
    while i < n
        invariant
            n == p@.len(),
            v@ == p@,
            i <= n,
            forall|j: int|
                0 <= j < i ==> !(j + 2 <= p@.len() && #[trigger] p@[j] == '.' && p@[j + 1] == '.'
                    && (j == 0 || p@[j - 1] == '/') && (j + 2 == p@.len() || p@[j + 2] == '/')),
        decreases n - i,
    {
        if i + 1 < n && v[i] == '.' && v[i + 1] == '.' && (i == 0 || v[i - 1] == '/') && (i + 2
            == n || v[i + 2] == '/') {
            proof {
                let w = i as int;
                assert(0 <= w && w + 2 <= p@.len() && p@[w] == '.' && p@[w + 1] == '.' && (w == 0
                    || p@[w - 1] == '/') && (w + 2 == p@.len() || p@[w + 2] == '/'));
                assert(has_parent_segment(p@));
            }
            return false;
        }
        i = i + 1;
    }
    assert(!has_parent_segment(p@));
    true
}

/// The `/`-separated segments of `s`; an empty `s` has one empty segment.
pub open spec fn split_slash(s: Seq<char>) -> Seq<Seq<char>>
    decreases s.len() via split_slash_decreases
{
    let e = find_char(s, '/', 0);
    if e >= s.len() {
        seq![s]
    } else {
        seq![s.take(e)] + split_slash(s.skip(e + 1))
    }
}

#[via_fn]
proof fn split_slash_decreases(s: Seq<char>) {
    lemma_find_char_bounds(s, '/', 0);
}

/// Whether a segment survives joining into a locator: non-empty, and
/// neither `.` nor `..`.
pub open spec fn keep_segment(seg: Seq<char>) -> bool {
    seg.len() > 0 && seg != seq!['.'] && seg != seq!['.', '.']
}

/// The segments joined back with `/` separators.
pub open spec fn join_slash(xs: Seq<Seq<char>>) -> Seq<char>
    decreases xs.len(),
{
    if xs.len() == 0 {
        Seq::empty()
    } else if xs.len() == 1 {
        xs[0]
    } else {
        xs[0] + seq!['/'] + join_slash(xs.drop_first())
    }
}

/// Joining after a push appends a separator (unless nothing came before).
proof fn lemma_join_push(xs: Seq<Seq<char>>, x: Seq<char>)
    ensures
        join_slash(xs.push(x)) == if xs.len() == 0 {
            x
        } else {
            join_slash(xs) + seq!['/'] + x
        },
    decreases xs.len(),
{
    if xs.len() == 0 {
        assert(xs.push(x).len() == 1);
        assert(xs.push(x)[0] == x);
    } else {
        lemma_join_push(xs.drop_first(), x);
        assert(xs.push(x).drop_first() =~= xs.drop_first().push(x));
        if xs.len() == 1 {
            assert(join_slash(xs) == xs[0]);
            assert(join_slash(xs.push(x)) == xs[0] + seq!['/'] + x);
        }
    }
}

/// The `/`-separated segments of `s`, as strings.
pub fn split_segments(s: &str) -> (r: Vec<String>)
    ensures
        r.deep_view() == split_slash(s@),
{
    let v = str_chars(s);
    let mut out: Vec<String> = Vec::new();
    let mut i: usize = 0;
    proof {
        assert(s@.skip(0) =~= s@);
        assert(out.deep_view() + split_slash(s@) =~= split_slash(s@));
    }
    loop
        invariant
            v@ == s@,
            i <= v@.len(),
            out.deep_view() + split_slash(s@.skip(i as int)) == split_slash(s@),
        decreases v@.len() - i,
    {
        let ghost rest = s@.skip(i as int);
        let ghost before = out.deep_view();
        let mut j: usize = i;
        while j < v.len() && v[j] != '/'
            invariant
                v@ == s@,
                i <= j <= v@.len(),
                forall|k: int| i <= k < j ==> s@[k] != '/',
            decreases v@.len() - j,
        {
            j = j + 1;
        }
        proof {
            assert forall|k: int| 0 <= k < j - i implies rest[k] != '/' by {
                assert(rest[k] == s@[i + k]);
            }
            lemma_find_char_is(rest, '/', 0, j - i);
        }
        let piece = vec_slice(&v, i, j);
        let seg = chars_to_string(&piece);
        let ghost segview = seg@;
        out.push(seg);
        proof {
            assert(out.deep_view() =~= before.push(segview));
            assert(segview =~= rest.take(j - i));
        }
        if j == v.len() {
            proof {
                assert(find_char(rest, '/', 0) == rest.len());
                assert(split_slash(rest) == seq![rest]);
                assert(segview =~= rest);
                assert(out.deep_view() =~= split_slash(s@));
            }
            return out;
        }
        proof {
            assert(find_char(rest, '/', 0) == j - i);
            assert(split_slash(rest) == seq![rest.take(j - i)] + split_slash(
                rest.skip(j - i + 1),
            ));
            assert(rest.skip(j - i + 1) =~= s@.skip(j + 1));
            assert(out.deep_view() + split_slash(s@.skip(j + 1)) =~= split_slash(s@));
        }
        i = j + 1;
    }
}

/// The segments that survive joining, in order.
pub open spec fn filter_segments(xs: Seq<Seq<char>>) -> Seq<Seq<char>>
    decreases xs.len(),
{
    if xs.len() == 0 {
        Seq::empty()
    } else if keep_segment(xs[0]) {
        seq![xs[0]] + filter_segments(xs.drop_first())
    } else {
        filter_segments(xs.drop_first())
    }
}

/// The locator built from a base URL and a path: trailing slashes dropped
/// from the base, the path's ordinary segments joined with `/`, and the two
/// parts joined with `/` when any segment survives.
pub open spec fn spec_build_url(base: Seq<char>, p: Seq<char>) -> Seq<char> {
    let tb = trim_end_slashes(base);
    let j = join_slash(filter_segments(split_slash(p)));
    if j.len() == 0 {
        tb
    } else {
        tb + seq!['/'] + j
    }
}

/// Trailing slashes dropped from `s`.
pub fn trim_slashes_str(s: &str) -> (r: String)
    ensures
        r@ == trim_end_slashes(s@),
{
    let v = str_chars(s);
    let mut q: usize = v.len();
    while q > 0 && v[q - 1] == '/'
        invariant
            q <= v@.len(),
            v@ == s@,
            forall|k: int| q <= k < v@.len() ==> v@[k] == '/',
        decreases q,
    {
        q = q - 1;
    }
    proof {
        lemma_trim_end_slashes_at(s@, q as int);
    }
    let piece = vec_slice(&v, 0, q);
    chars_to_string(&piece)
}

/// Whether `seg` survives joining into a locator.
pub fn keep_segment_exec(seg: &str) -> (r: bool)
    ensures
        r == keep_segment(seg@),
{
    proof {
        reveal_strlit(".");
        reveal_strlit("..");
        assert("."@ =~= seq!['.']);
        assert(".."@ =~= seq!['.', '.']);
    }
    seg.unicode_len() > 0 && !str_eq(seg, ".") && !str_eq(seg, "..")
}

/// Joins `base` and `p` into one locator, as the mirroring contract asks:
/// redundant, current and parent segments of `p` are dropped.
pub fn build_url(base: &str, p: &str) -> (r: String)
    ensures
        r@ == spec_build_url(base@, p@),
{
    let tb = trim_slashes_str(base);
    let segs = split_segments(p);
    let mut kept: Vec<String> = Vec::new();
    let mut i: usize = 0;
    proof {
        assert(segs.deep_view().skip(0) =~= segs.deep_view());
    }
    while i < segs.len()
        invariant
            segs.deep_view() == split_slash(p@),
            i <= segs@.len(),
            segs@.len() == segs.deep_view().len(),
            kept.deep_view() + filter_segments(segs.deep_view().skip(i as int))
                == filter_segments(segs.deep_view()),
            forall|k: int| 0 <= k < kept.deep_view().len() ==> keep_segment(
                #[trigger] kept.deep_view()[k],
            ),
        decreases segs@.len() - i,
    {
        let ghost rest = segs.deep_view().skip(i as int);
        let ghost cur = segs.deep_view()[i as int];
        proof {
            assert(rest[0] == cur);
            assert(rest.drop_first() =~= segs.deep_view().skip(i as int + 1));
        }
        if keep_segment_exec(segs[i].as_str()) {
            let ghost before = kept.deep_view();
            let segcopy = segs[i].clone();
            kept.push(segcopy);
            proof {
                assert(kept.deep_view() =~= before.push(cur));
                assert(filter_segments(rest) == seq![cur] + filter_segments(
                    segs.deep_view().skip(i as int + 1),
                ));
                assert(kept.deep_view() + filter_segments(segs.deep_view().skip(i as int + 1))
                    =~= before + filter_segments(rest));
            }
        }
        i = i + 1;
    }
    proof {
        assert(segs.deep_view().skip(segs.deep_view().len() as int) =~= Seq::<Seq<char>>::empty());
        assert(kept.deep_view() + Seq::<Seq<char>>::empty() =~= kept.deep_view());
    }
    let ghost filtered = filter_segments(split_slash(p@));
    if kept.len() == 0 {
        proof {
            assert(join_slash(filtered).len() == 0);
        }
        return tb;
    }
    // Join the kept segments with `/`.
    let mut joined: Vec<char> = Vec::new();
    let mut i: usize = 0;
    proof {
        assert(kept.deep_view().take(0) =~= Seq::<Seq<char>>::empty());
    }
    while i < kept.len()
        invariant
            kept.deep_view() == filtered,
            i <= kept@.len(),
            kept@.len() == kept.deep_view().len(),
            joined@ == join_slash(kept.deep_view().take(i as int)),
        decreases kept@.len() - i,
    {
        let ghost prefix = kept.deep_view().take(i as int);
        let ghost cur = kept.deep_view()[i as int];
        if i > 0 {
            joined.push('/');
        }
        push_str_chars(&mut joined, kept[i].as_str());
        proof {
            assert(kept.deep_view().take(i + 1) =~= prefix.push(cur));
            lemma_join_push(prefix, cur);
            if i > 0 {
                assert(joined@ =~= join_slash(prefix) + seq!['/'] + cur);
            } else {
                assert(prefix.len() == 0);
                assert(joined@ =~= cur);
            }
        }
        i = i + 1;
    }
    proof {
        assert(kept.deep_view().take(kept.deep_view().len() as int) =~= kept.deep_view());
        assert(filtered[0] == kept.deep_view()[0]);
        assert(keep_segment(filtered[0]));
        if filtered.len() == 1 {
            assert(join_slash(filtered) == filtered[0]);
        }
        assert(join_slash(filtered).len() > 0);
    }
    let mut out: Vec<char> = Vec::new();
    push_str_chars(&mut out, tb.as_str());
    out.push('/');
    push_str_chars(&mut out, chars_to_string(&joined).as_str());
    proof {
        assert(out@ =~= trim_end_slashes(base@) + seq!['/'] + join_slash(filtered));
    }
    chars_to_string(&out)
}

/// The file's path relative to its directory's parent, when that relation
/// holds; the joined path itself otherwise.
pub open spec fn spec_doc_rel_path(dir: Seq<char>, name: Seq<char>) -> Seq<char> {
    let joined = dir + seq!['/'] + name;
    match spec_parent(dir) {
        Some(par) => match spec_strip_prefix(par, joined) {
            Some(r) => r,
            None => joined,
        },
        None => joined,
    }
}

/// A document's locator: the base URL without trailing slashes, then `/`,
/// then the document's path relative to the directory's parent.
pub open spec fn spec_build_uri(base_url: Seq<char>, dir: Seq<char>, name: Seq<char>) -> Seq<
    char,
> {
    trim_end_slashes(base_url) + seq!['/'] + spec_doc_rel_path(dir, name)
}

/// Builds the locator for the document `name` inside `dir`.
pub fn build_doc_uri(base_url: &str, dir: &str, name: &str) -> (r: String)
    ensures
        r@ == spec_build_uri(base_url@, dir@, name@),
{
    let tb = trim_slashes_str(base_url);
    let mut jv: Vec<char> = Vec::new();
    push_str_chars(&mut jv, dir);
    jv.push('/');
    push_str_chars(&mut jv, name);
    let joined = chars_to_string(&jv);
    proof {
        assert(joined@ =~= dir@ + seq!['/'] + name@);
    }
    let rel = match parent_of(dir) {
        Some(par) => match strip_path_prefix(par.as_str(), joined.as_str()) {
            Some(r) => r,
            None => joined,
        },
        None => joined,
    };
    let mut out: Vec<char> = Vec::new();
    push_str_chars(&mut out, tb.as_str());
    out.push('/');
    push_str_chars(&mut out, rel.as_str());
    proof {
        assert(out@ =~= spec_build_uri(base_url@, dir@, name@));
    }
    chars_to_string(&out)
}

/// The catalog's base locator: the base-instructions path relative to the
/// document directory's parent when that relation holds, else the path as
/// given, with backslashes normalized to forward slashes.
pub open spec fn spec_resolve_base_uri(dir: Seq<char>, base_path: Seq<char>) -> Seq<char> {
    let rel = match spec_parent(dir) {
        Some(par) => match spec_strip_prefix(par, base_path) {
            Some(r) => r,
            None => base_path,
        },
        None => base_path,
    };
    spec_to_slashes(rel)
}

/// Resolves the catalog's base locator from the document directory and the
/// base-instructions path.
pub fn resolve_base_uri(dir: &str, base_path: &str) -> (r: String)
    ensures
        r@ == spec_resolve_base_uri(dir@, base_path@),
{
    let rel = match parent_of(dir) {
        Some(par) => match strip_path_prefix(par.as_str(), base_path) {
            Some(r) => r,
            None => base_path.to_owned(),
        },
        None => base_path.to_owned(),
    };
    to_slashes(rel.as_str())
}

/// Whether `cand` lies at or below `base`, component-wise: either the same
/// path, or `base` extended at a separator boundary.
pub open spec fn spec_is_within(base: Seq<char>, cand: Seq<char>) -> bool {
    cand == base || (cand.len() > base.len() && cand.take(base.len() as int) == base && (
    cand[base.len() as int] == '/' || (base.len() > 0 && base.last() == '/')))
}

/// The containment check of the resource server: whether the resolved
/// candidate path stays inside the resolved document directory.
pub fn path_is_within(base: &str, cand: &str) -> (r: bool)
    ensures
        r == spec_is_within(base@, cand@),
{
    if str_eq(cand, base) {
        return true;
    }
    let bn = base.unicode_len();
    let cn = cand.unicode_len();
    if cn > bn && str_has_prefix(cand, base) {
        if cand.get_char(bn) == '/' {
            return true;
        }
        if bn > 0 && base.get_char(bn - 1) == '/' {
            return true;
        }
    }
    false
}

/// A path that extends the document directory at a separator is within it.
pub proof fn lemma_within_subpath(base: Seq<char>, rest: Seq<char>)
    ensures
        spec_is_within(base, base + seq!['/'] + rest),
{
    let cand = base + seq!['/'] + rest;
    assert(cand.take(base.len() as int) =~= base);
    assert(cand[base.len() as int] == '/');
}

/// A sibling of the document directory — a path under the directory's
/// parent whose last component differs from the directory's — never passes
/// the containment check.  This is the resolved form of a
/// parent-traversal request.
pub proof fn lemma_sibling_escape_denied(par: Seq<char>, last: Seq<char>, name: Seq<char>)
    requires
        last.len() > 0,
        name.len() > 0,
        forall|i: int| 0 <= i < last.len() ==> last[i] != '/',
        forall|i: int| 0 <= i < name.len() ==> name[i] != '/',
        name != last,
    ensures
        !spec_is_within(par + seq!['/'] + last, par + seq!['/'] + name),
{
    let base = par + seq!['/'] + last;
    let cand = par + seq!['/'] + name;
    if cand == base {
        assert(name =~= cand.skip(par.len() as int + 1));
        assert(last =~= base.skip(par.len() as int + 1));
        assert(name == last);
    }
    if cand.len() > base.len() && cand.take(base.len() as int) == base {
        assert(cand[base.len() as int] == name[base.len() - par.len() - 1]);
        assert(cand[base.len() as int] != '/');
        assert(base.last() == last[last.len() - 1]);
        assert(base.last() != '/');
    }
}

} // verus!
