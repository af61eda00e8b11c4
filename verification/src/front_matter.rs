//! The front-matter parser: splits a document into a delimited metadata
//! block and the remaining body.
//!
//! A document opens with a line that is exactly `---`; the block runs to the
//! first line that is `---` followed only by horizontal whitespace; the body
//! is everything after that line.  Line endings are normalized (CRLF to LF)
//! and a leading byte-order mark is dropped before parsing.

use vstd::prelude::*;

use crate::text::{chars_to_string, is_ws, spec_is_ws, str_chars, vec_slice};

verus! {

/// Why a document has no usable front matter: `Missing` when it does not
/// even open with a delimiter line, `Malformed` when the block never closes.
#[derive(Debug, PartialEq, Eq, Structural, Clone, Copy)]
pub enum FrontMatterError {
    Missing,
    Malformed,
}

/// A parsed document: the metadata block (trimmed) and the body.
#[derive(Debug, PartialEq, Eq)]
pub struct FrontMatter {
    pub yaml: String,
    pub body: String,
}

/// CRLF pairs replaced by LF, leftmost first; lone `\r` is kept.
pub open spec fn norm_nl(s: Seq<char>) -> Seq<char>
    decreases s.len(),
{
    if s.len() == 0 {
        Seq::empty()
    } else if s.len() >= 2 && s[0] == '\r' && s[1] == '\n' {
        seq!['\n'] + norm_nl(s.skip(2))
    } else {
        seq![s[0]] + norm_nl(s.skip(1))
    }
}

/// A single leading byte-order mark, if present, dropped.
pub open spec fn strip_bom(s: Seq<char>) -> Seq<char> {
    if s.len() > 0 && s[0] == '\u{FEFF}' {
        s.drop_first()
    } else {
        s
    }
}

/// The index of the first `\n` at or after `i`, or `s.len()` if none.
pub open spec fn find_nl(s: Seq<char>, i: int) -> int
    decreases s.len() - i when 0 <= i <= s.len()
{
    if i >= s.len() {
        s.len() as int
    } else if s[i] == '\n' {
        i
    } else {
        find_nl(s, i + 1)
    }
}

/// Whether the line starting at `i` closes the block: `---` followed only by
/// spaces or tabs, up to the next newline or the end of the text.
pub open spec fn is_close_at(s: Seq<char>, i: int) -> bool {
    let e = find_nl(s, i);
    &&& e - i >= 3
    &&& s[i] == '-'
    &&& s[i + 1] == '-'
    &&& s[i + 2] == '-'
    &&& forall|k: int| i + 3 <= k < e ==> (s[k] == ' ' || s[k] == '\t')
}

/// The start index of the first closing line at or after line start `i`,
/// or `-1` if no line up to the end of the text closes the block.
pub open spec fn find_close(s: Seq<char>, i: int) -> int
    decreases s.len() - i when 0 <= i <= s.len() via find_close_decreases
{
    if !(0 <= i <= s.len()) {
        -1
    } else if is_close_at(s, i) {
        i
    } else {
        let e = find_nl(s, i);
        if e >= s.len() {
            -1
        } else {
            find_close(s, e + 1)
        }
    }
}

#[via_fn]
proof fn find_close_decreases(s: Seq<char>, i: int) {
    lemma_find_nl_bounds(s, i);
}

/// `find_nl` stays within `[i, s.len()]` and lands on a newline or the end.
pub proof fn lemma_find_nl_bounds(s: Seq<char>, i: int)
    requires
        0 <= i <= s.len(),
    ensures
        i <= find_nl(s, i) <= s.len(),
        find_nl(s, i) < s.len() ==> s[find_nl(s, i)] == '\n',
        forall|k: int| i <= k < find_nl(s, i) ==> s[k] != '\n',
    decreases s.len() - i,
{
    if i < s.len() && s[i] != '\n' {
        lemma_find_nl_bounds(s, i + 1);
    }
}

/// A scan that stopped at `e` found exactly `find_nl(s, i)`.
pub proof fn lemma_find_nl_is(s: Seq<char>, i: int, e: int)
    requires
        0 <= i <= e <= s.len(),
        forall|k: int| i <= k < e ==> s[k] != '\n',
        e == s.len() || s[e] == '\n',
    ensures
        find_nl(s, i) == e,
    decreases e - i,
{
    if i < e {
        lemma_find_nl_is(s, i + 1, e);
    }
}

/// Whitespace trimmed from both ends.
pub open spec fn trim_ws(s: Seq<char>) -> Seq<char>
    decreases s.len(),
{
    if s.len() == 0 {
        s
    } else if spec_is_ws(s[0]) {
        trim_ws(s.drop_first())
    } else if spec_is_ws(s.last()) {
        trim_ws(s.drop_last())
    } else {
        s
    }
}

/// Trimming a fully-whitespace sequence leaves nothing.
pub proof fn lemma_trim_ws_all(s: Seq<char>)
    requires
        forall|k: int| 0 <= k < s.len() ==> spec_is_ws(s[k]),
    ensures
        trim_ws(s) == Seq::<char>::empty(),
    decreases s.len(),
{
    if s.len() > 0 {
        lemma_trim_ws_all(s.drop_first());
        assert(trim_ws(s) =~= Seq::<char>::empty());
    } else {
        assert(trim_ws(s) =~= Seq::<char>::empty());
    }
}

/// With `p` the first and `q` the last non-whitespace index, trimming
/// keeps exactly `s[p ..= q]`.
pub proof fn lemma_trim_ws_range(s: Seq<char>, p: int, q: int)
    requires
        0 <= p <= q < s.len(),
        !spec_is_ws(s[p]),
        !spec_is_ws(s[q]),
        forall|k: int| 0 <= k < p ==> spec_is_ws(s[k]),
        forall|k: int| q < k < s.len() ==> spec_is_ws(s[k]),
    ensures
        trim_ws(s) == s.subrange(p, q + 1),
    decreases s.len(),
{
    if p > 0 {
        lemma_trim_ws_range(s.drop_first(), p - 1, q - 1);
        assert(s.drop_first().subrange(p - 1, q) =~= s.subrange(p, q + 1));
    } else if q < s.len() - 1 {
        lemma_trim_ws_range(s.drop_last(), p, q);
        assert(s.drop_last().subrange(p, q + 1) =~= s.subrange(p, q + 1));
    } else {
        assert(s.subrange(0, s.len() as int) =~= s);
    }
}

/// Whether the normalized text opens with the delimiter line `---`.
pub open spec fn opens_front_matter(s: Seq<char>) -> bool {
    s.len() >= 4 && s[0] == '-' && s[1] == '-' && s[2] == '-' && s[3] == '\n'
}

/// What parsing returns, on the characters of the raw document: the trimmed
/// metadata block and the body, or the error that classifies the document.
pub open spec fn spec_parse_front_matter(raw: Seq<char>) -> Result<
    (Seq<char>, Seq<char>),
    FrontMatterError,
> {
    let s = strip_bom(norm_nl(raw));
    if !opens_front_matter(s) {
        Err(FrontMatterError::Missing)
    } else {
        let c = find_close(s, 4);
        if c < 0 {
            Err(FrontMatterError::Malformed)
        } else {
            let e = find_nl(s, c);
            let block = trim_ws(s.subrange(4, if c == 4 { 4int } else { c - 1 }));
            let body = if e >= s.len() {
                Seq::<char>::empty()
            } else {
                s.subrange(e + 1, s.len() as int)
            };
            Ok((block, body))
        }
    }
}

/// CRLF pairs replaced by LF, leftmost first.
fn normalize_newlines(cs: &Vec<char>) -> (r: Vec<char>)
    ensures
        r@ == norm_nl(cs@),
{
    let mut out: Vec<char> = Vec::new();
    let mut i: usize = 0;
    proof {
        assert(cs@.skip(0) =~= cs@);
    }
    while i < cs.len()
        invariant
            i <= cs@.len(),
            out@ + norm_nl(cs@.skip(i as int)) == norm_nl(cs@),
        decreases cs@.len() - i,
    {
        let ghost rest = cs@.skip(i as int);
        if cs[i] == '\r' && i + 1 < cs.len() && cs[i + 1] == '\n' {
            out.push('\n');
            proof {
                assert(rest.skip(2) =~= cs@.skip(i + 2));
                assert(norm_nl(rest) == seq!['\n'] + norm_nl(cs@.skip(i + 2)));
            }
            i = i + 2;
        } else {
            let c = cs[i];
            out.push(c);
            proof {
                assert(rest.skip(1) =~= cs@.skip(i + 1));
                assert(norm_nl(rest) == seq![c] + norm_nl(cs@.skip(i + 1)));
            }
            i = i + 1;
        }
    }
    proof {
        assert(out@ + norm_nl(cs@.skip(cs@.len() as int)) =~= out@);
    }
    out
}

/// Whitespace trimmed from both ends of `v`.
fn trim_vec(v: &Vec<char>) -> (r: Vec<char>)
    ensures
        r@ == trim_ws(v@),
{
    let mut p: usize = 0;
    while p < v.len() && is_ws(v[p])
        invariant
            p <= v@.len(),
            forall|k: int| 0 <= k < p ==> spec_is_ws(v@[k]),
        decreases v@.len() - p,
    {
        p = p + 1;
    }
    if p == v.len() {
        proof {
            lemma_trim_ws_all(v@);
        }
        return Vec::new();
    }
    let mut q: usize = v.len() - 1;
    while q > p && is_ws(v[q])
        invariant
            p <= q < v@.len(),
            forall|k: int| q < k < v@.len() ==> spec_is_ws(v@[k]),
        decreases q,
    {
        q = q - 1;
    }
    proof {
        lemma_trim_ws_range(v@, p as int, q as int);
    }
    vec_slice(v, p, q + 1)
}

/// Splits `content` into its front-matter block and body, or says why it
/// cannot be split: `Missing` when the document does not open with `---`,
/// `Malformed` when no line closes the block.
pub fn parse_front_matter(content: &str) -> (r: Result<FrontMatter, FrontMatterError>)
    ensures
        match r {
            Ok(fm) => spec_parse_front_matter(content@) == Ok::<_, FrontMatterError>(
                (fm.yaml@, fm.body@),
            ),
            Err(e) => spec_parse_front_matter(content@) == Err::<(Seq<char>, Seq<char>), _>(e),
        },
{
    let cs = str_chars(content);
    let mut v = normalize_newlines(&cs);
    if v.len() > 0 && v[0] == '\u{FEFF}' {
        v.remove(0);
        proof {
            assert(v@ =~= strip_bom(norm_nl(content@)));
        }
    }
    let ghost s = v@;
    proof {
        assert(s == strip_bom(norm_nl(content@)));
    }
    if !(v.len() >= 4 && v[0] == '-' && v[1] == '-' && v[2] == '-' && v[3] == '\n') {
        return Err(FrontMatterError::Missing);
    }
    let mut i: usize = 4;
    loop
        invariant
            s == v@,
            s == strip_bom(norm_nl(content@)),
            opens_front_matter(s),
            4 <= i <= v@.len(),
            find_close(s, 4) == find_close(s, i as int),
            i > 4 ==> s[i - 1] == '\n',
        decreases v@.len() - i,
    {
        // Find the end of the current line.
        let mut j: usize = i;
        while j < v.len() && v[j] != '\n'
            invariant
                s == v@,
                i <= j <= v@.len(),
                forall|k: int| i <= k < j ==> s[k] != '\n',
            decreases v@.len() - j,
        {
            j = j + 1;
        }
        let e = j;
        proof {
            lemma_find_nl_is(s, i as int, e as int);
        }
        // Is this line a closing delimiter?
        let mut close = e - i >= 3 && v[i] == '-' && v[i + 1] == '-' && v[i + 2] == '-';
        if close {
            let mut k: usize = i + 3;
            while k < e && (v[k] == ' ' || v[k] == '\t')
                invariant
                    s == v@,
                    i + 3 <= k <= e <= v@.len(),
                    forall|m: int| i + 3 <= m < k ==> (s[m] == ' ' || s[m] == '\t'),
                decreases e - k,
            {
                k = k + 1;
            }
            if k < e {
                close = false;
            }
        }
        if close {
            assert(is_close_at(s, i as int));
            assert(find_close(s, i as int) == i as int);
            let raw_block = if i == 4 {
                Vec::<char>::new()
            } else {
                vec_slice(&v, 4, i - 1)
            };
            proof {
                if i == 4 {
                    assert(raw_block@ =~= s.subrange(4, 4));
                }
            }
            let block = trim_vec(&raw_block);
            let body = if e == v.len() {
                Vec::<char>::new()
            } else {
                vec_slice(&v, e + 1, v.len())
            };
            proof {
                if e == v@.len() {
                    assert(body@ =~= Seq::<char>::empty());
                }
            }
            let yaml = chars_to_string(&block);
            let body_s = chars_to_string(&body);
            return Ok(FrontMatter { yaml, body: body_s });
        }
        assert(!is_close_at(s, i as int));
        if e == v.len() {
            assert(find_close(s, i as int) == -1);
            return Err(FrontMatterError::Malformed);
        }
        i = e + 1;
    }
}

} // verus!
