//! The catalog builder: reads a set of in-memory documents, decodes each
//! one's front matter, rejects duplicate ids, computes locators, and sorts
//! the entries by id so the serialized catalog is deterministic.
//!
//! All file enumeration and reading happens outside; this module is a pure
//! function from the documents' names and contents to the catalog.

use vstd::multiset::Multiset;
use vstd::prelude::*;

use crate::front_matter::{spec_parse_front_matter, FrontMatterError};
use crate::meta::{spec_decode_meta, spec_meta_decodes, MetaView, PersonaMeta};
use crate::paths::{spec_build_uri, spec_resolve_base_uri};
use crate::text::{chars_to_string, lemma_lex_le_refl, lex_le, push_str_chars, str_eq, str_le};

verus! {

/// One document handed to the builder: its file name (no directory) and
/// its full text.
#[derive(Debug, PartialEq, Eq)]
pub struct SourceFile {
    pub name: String,
    pub content: String,
}

/// The mathematical content of a `SourceFile`.
pub struct FileView {
    pub name: Seq<char>,
    pub content: Seq<char>,
}

impl View for SourceFile {
    type V = FileView;

    open spec fn view(&self) -> FileView {
        FileView { name: self.name@, content: self.content@ }
    }
}

impl DeepView for SourceFile {
    type V = FileView;

    open spec fn deep_view(&self) -> FileView {
        self.view()
    }
}

/// One catalog entry: a document's metadata plus its computed locator.
#[derive(Debug, PartialEq, Eq)]
pub struct PersonaEntry {
    pub meta: PersonaMeta,
    pub uri: String,
}

/// The mathematical content of a `PersonaEntry`.
pub struct EntryView {
    pub meta: MetaView,
    pub uri: Seq<char>,
}

impl View for PersonaEntry {
    type V = EntryView;

    open spec fn view(&self) -> EntryView {
        EntryView { meta: self.meta@, uri: self.uri@ }
    }
}

impl DeepView for PersonaEntry {
    type V = EntryView;

    open spec fn deep_view(&self) -> EntryView {
        self.view()
    }
}

/// The catalog: the base-instructions locator and the entries, sorted by id.
#[derive(Debug, PartialEq, Eq)]
pub struct Index {
    pub base_uri: String,
    pub personas: Vec<PersonaEntry>,
}

/// The mathematical content of an `Index`.
pub struct IndexView {
    pub base_uri: Seq<char>,
    pub personas: Seq<EntryView>,
}

impl View for Index {
    type V = IndexView;

    open spec fn view(&self) -> IndexView {
        IndexView { base_uri: self.base_uri@, personas: self.personas.deep_view() }
    }
}

impl Index {
    /// The locators of all entries, in catalog order.
    pub fn persona_uris(&self) -> (r: Vec<String>)
        ensures
            r.deep_view().len() == self@.personas.len(),
            forall|i: int| 0 <= i < r.deep_view().len() ==> r.deep_view()[i]
                == self@.personas[i].uri,
    {
        let mut r: Vec<String> = Vec::new();
        let mut i: usize = 0;
        while i < self.personas.len()
            invariant
                i <= self.personas@.len(),
                r.deep_view().len() == i,
                forall|k: int| 0 <= k < i ==> r.deep_view()[k] == self.personas.deep_view()[
                    k
                ].uri,
            decreases self.personas@.len() - i,
        {
            let ghost before = r.deep_view();
            let u = self.personas[i].uri.clone();
            r.push(u);
            proof {
                assert(r.deep_view() =~= before.push(u@));
            }
            i = i + 1;
        }
        r
    }
}

/// Why a catalog build failed; every variant names the offending path.
#[derive(Debug, PartialEq, Eq)]
pub enum CatalogError {
    /// A file or directory could not be read or written.
    Io { path: String, message: String },
    /// A document's front matter could not be split off.
    FrontMatter { path: String, source: FrontMatterError },
    /// A front-matter block did not decode to metadata.
    Decode { path: String },
    /// Two documents claim the same id; both are named.
    Duplicate { id: String, first: String, duplicate: String },
}

/// The mathematical content of a `CatalogError`.
pub enum CatalogErrorView {
    Io { path: Seq<char>, message: Seq<char> },
    FrontMatter { path: Seq<char>, source: FrontMatterError },
    Decode { path: Seq<char> },
    Duplicate { id: Seq<char>, first: Seq<char>, duplicate: Seq<char> },
}

impl View for CatalogError {
    type V = CatalogErrorView;

    open spec fn view(&self) -> CatalogErrorView {
        match self {
            CatalogError::Io { path, message } => CatalogErrorView::Io {
                path: path@,
                message: message@,
            },
            CatalogError::FrontMatter { path, source } => CatalogErrorView::FrontMatter {
                path: path@,
                source: *source,
            },
            CatalogError::Decode { path } => CatalogErrorView::Decode { path: path@ },
            CatalogError::Duplicate { id, first, duplicate } => CatalogErrorView::Duplicate {
                id: id@,
                first: first@,
                duplicate: duplicate@,
            },
        }
    }
}

impl CatalogError {
    /// A short description of the failure, naming the offending path.
    pub fn message(&self) -> String {
        let mut out: Vec<char> = Vec::new();
        match self {
            CatalogError::Io { path, message } => {
                push_str_chars(&mut out, "I/O error at ");
                push_str_chars(&mut out, path.as_str());
                push_str_chars(&mut out, ": ");
                push_str_chars(&mut out, message.as_str());
            },
            CatalogError::FrontMatter { path, source } => {
                push_str_chars(&mut out, "invalid front matter in ");
                push_str_chars(&mut out, path.as_str());
                match source {
                    FrontMatterError::Missing => push_str_chars(&mut out, ": front matter missing"),
                    FrontMatterError::Malformed => push_str_chars(
                        &mut out,
                        ": front matter malformed",
                    ),
                }
            },
            CatalogError::Decode { path } => {
                push_str_chars(&mut out, "failed to decode metadata in ");
                push_str_chars(&mut out, path.as_str());
            },
            CatalogError::Duplicate { id, first, duplicate } => {
                push_str_chars(&mut out, "duplicate persona id `");
                push_str_chars(&mut out, id.as_str());
                push_str_chars(&mut out, "` found in ");
                push_str_chars(&mut out, duplicate.as_str());
                push_str_chars(&mut out, " (already defined in ");
                push_str_chars(&mut out, first.as_str());
                push_str_chars(&mut out, ")");
            },
        }
        chars_to_string(&out)
    }
}

/// Whether a file name carries the markdown extension: a last `.` that is
/// neither the first character, followed exactly by `md`.
pub open spec fn is_md_name(name: Seq<char>) -> bool {
    exists|d: int|
        0 < d && d + 3 == name.len() && #[trigger] name[d] == '.' && name[d + 1] == 'm' && name[d
            + 2] == 'd'
}

/// Whether `name` names a markdown file.
pub fn is_md_file(name: &str) -> (r: bool)
    ensures
        r == is_md_name(name@),
{
    let n = name.unicode_len();
    if n < 4 {
        assert(!is_md_name(name@));
        return false;
    }
    let r = name.get_char(n - 3) == '.' && name.get_char(n - 2) == 'm' && name.get_char(n - 1)
        == 'd';
    proof {
        if r {
            let w = n - 3;
            assert(0 < w && w + 3 == name@.len() && name@[w] == '.' && name@[w + 1] == 'm'
                && name@[w + 2] == 'd');
        } else {
            assert forall|d: int|
                !(0 < d && d + 3 == name@.len() && #[trigger] name@[d] == '.' && name@[d + 1]
                    == 'm' && name@[d + 2] == 'd') by {
                if 0 < d && d + 3 == name@.len() {
                    assert(d == n - 3);
                }
            }
        }
    }
    r
}

/// The path a build error reports for the file `name` inside `dir`.
pub open spec fn spec_doc_path(dir: Seq<char>, name: Seq<char>) -> Seq<char> {
    dir + seq!['/'] + name
}

/// The front-matter block of `f`, meaningful when parsing succeeds.
pub open spec fn spec_block_of(f: FileView) -> Seq<char> {
    match spec_parse_front_matter(f.content) {
        Ok(p) => p.0,
        Err(_) => Seq::empty(),
    }
}

/// Whether `f` parses and decodes (only markdown files are consulted).
pub open spec fn spec_file_ok(f: FileView) -> bool {
    &&& spec_parse_front_matter(f.content) is Ok
    &&& spec_meta_decodes(spec_block_of(f))
}

/// The catalog entry a well-formed file contributes.
pub open spec fn spec_file_entry(f: FileView, dir: Seq<char>, base_url: Seq<char>) -> EntryView {
    EntryView {
        meta: spec_decode_meta(spec_block_of(f)),
        uri: spec_build_uri(base_url, dir, f.name),
    }
}

/// Whether some already-seen pair carries this id.
pub open spec fn seen_has(seen: Seq<(Seq<char>, Seq<char>)>, id: Seq<char>) -> bool {
    exists|j: int| 0 <= j < seen.len() && (#[trigger] seen[j]).0 == id
}

/// The path recorded for the first file that used this id.
pub open spec fn seen_first_path(seen: Seq<(Seq<char>, Seq<char>)>, id: Seq<char>) -> Seq<char> {
    let j = choose|j: int| 0 <= j < seen.len() && (#[trigger] seen[j]).0 == id;
    seen[j].1
}

/// The collection loop, file by file from index `i`: markdown files are
/// parsed, decoded, checked against the seen ids, and appended; the first
/// failure aborts the whole build with its path.
pub open spec fn spec_collect_loop(
    files: Seq<FileView>,
    i: int,
    seen: Seq<(Seq<char>, Seq<char>)>,
    acc: Seq<EntryView>,
    dir: Seq<char>,
    base_url: Seq<char>,
) -> Result<Seq<EntryView>, CatalogErrorView>
    decreases files.len() - i when 0 <= i <= files.len()
{
    if i >= files.len() {
        Ok(acc)
    } else {
        let f = files[i];
        if !is_md_name(f.name) {
            spec_collect_loop(files, i + 1, seen, acc, dir, base_url)
        } else {
            let path = spec_doc_path(dir, f.name);
            match spec_parse_front_matter(f.content) {
                Err(e) => Err(CatalogErrorView::FrontMatter { path, source: e }),
                Ok(pb) => {
                    if !spec_meta_decodes(pb.0) {
                        Err(CatalogErrorView::Decode { path })
                    } else {
                        let m = spec_decode_meta(pb.0);
                        if seen_has(seen, m.id) {
                            Err(
                                CatalogErrorView::Duplicate {
                                    id: m.id,
                                    first: seen_first_path(seen, m.id),
                                    duplicate: path,
                                },
                            )
                        } else {
                            spec_collect_loop(
                                files,
                                i + 1,
                                seen.push((m.id, path)),
                                acc.push(spec_file_entry(f, dir, base_url)),
                                dir,
                                base_url,
                            )
                        }
                    }
                },
            }
        }
    }
}

/// What collecting the whole document set yields.
pub open spec fn spec_collect(files: Seq<FileView>, dir: Seq<char>, base_url: Seq<char>) -> Result<
    Seq<EntryView>,
    CatalogErrorView,
> {
    spec_collect_loop(files, 0, Seq::empty(), Seq::empty(), dir, base_url)
}

/// Looks `id` up among the seen pairs, which must carry distinct ids; on a
/// hit, the recorded path is the one `seen_first_path` names.
fn find_seen(seen: &Vec<(String, String)>, id: &str) -> (r: Option<usize>)
    requires
        forall|a: int, b: int|
            0 <= a < b < seen.deep_view().len() ==> (#[trigger] seen.deep_view()[a]).0 != (
            #[trigger] seen.deep_view()[b]).0,
    ensures
        match r {
            Some(j) => {
                &&& (j as int) < seen.deep_view().len()
                &&& seen_has(seen.deep_view(), id@)
                &&& seen_first_path(seen.deep_view(), id@) == seen.deep_view()[j as int].1
            },
            None => !seen_has(seen.deep_view(), id@),
        },
{
    let mut j: usize = 0;
    while j < seen.len()
        invariant
            j <= seen@.len(),
            seen@.len() == seen.deep_view().len(),
            forall|k: int| 0 <= k < j ==> (#[trigger] seen.deep_view()[k]).0 != id@,
            forall|a: int, b: int|
                0 <= a < b < seen.deep_view().len() ==> (#[trigger] seen.deep_view()[a]).0 != (
                #[trigger] seen.deep_view()[b]).0,
        decreases seen@.len() - j,
    {
        proof {
            assert(seen.deep_view()[j as int] == (seen@[j as int].0@, seen@[j as int].1@));
        }
        if str_eq(seen[j].0.as_str(), id) {
            proof {
                assert(seen_has(seen.deep_view(), id@));
                let c = choose|k: int|
                    0 <= k < seen.deep_view().len() && (#[trigger] seen.deep_view()[k]).0 == id@;
                if c != j as int {
                    assert((seen.deep_view()[c]).0 != (seen.deep_view()[j as int]).0);
                }
                assert(seen_first_path(seen.deep_view(), id@) == seen.deep_view()[j as int].1);
            }
            return Some(j);
        }
        j = j + 1;
    }
    None
}

/// Builds the path `dir` + `/` + `name`.
fn make_doc_path(dir: &str, name: &str) -> (r: String)
    ensures
        r@ == spec_doc_path(dir@, name@),
{
    let mut out: Vec<char> = Vec::new();
    push_str_chars(&mut out, dir);
    out.push('/');
    push_str_chars(&mut out, name);
    proof {
        assert(out@ =~= spec_doc_path(dir@, name@));
    }
    chars_to_string(&out)
}

/// Collects one catalog entry per markdown document: parses and decodes
/// each file's front matter and rejects a repeated id, naming both files.
/// The entries come back in the order the documents were handed in.
pub fn collect_persona_entries(files: &Vec<SourceFile>, dir: &str, base_url: &str) -> (r: Result<
    Vec<PersonaEntry>,
    CatalogError,
>)
    ensures
        match r {
            Ok(es) => spec_collect(files.deep_view(), dir@, base_url@) == Ok::<
                _,
                CatalogErrorView,
            >(es.deep_view()),
            Err(e) => spec_collect(files.deep_view(), dir@, base_url@) == Err::<
                Seq<EntryView>,
                _,
            >(e@),
        },
{
    let ghost fv = files.deep_view();
    let mut entries: Vec<PersonaEntry> = Vec::new();
    let mut seen: Vec<(String, String)> = Vec::new();
    let mut i: usize = 0;
    proof {
        assert(entries.deep_view() =~= Seq::<EntryView>::empty());
        assert(seen.deep_view() =~= Seq::<(Seq<char>, Seq<char>)>::empty());
    }
    while i < files.len()
        invariant
            fv == files.deep_view(),
            fv.len() == files@.len(),
            i <= files@.len(),
            spec_collect(fv, dir@, base_url@) == spec_collect_loop(
                fv,
                i as int,
                seen.deep_view(),
                entries.deep_view(),
                dir@,
                base_url@,
            ),
            forall|a: int, b: int|
                0 <= a < b < seen.deep_view().len() ==> (#[trigger] seen.deep_view()[a]).0 != (
                #[trigger] seen.deep_view()[b]).0,
        decreases files@.len() - i,
    {
        proof {
            assert(fv[i as int] == files@[i as int].deep_view());
        }
        let name_is_md = is_md_file(files[i].name.as_str());
        if name_is_md {
            let path = make_doc_path(dir, files[i].name.as_str());
            match crate::front_matter::parse_front_matter(files[i].content.as_str()) {
                Err(e) => {
                    return Err(CatalogError::FrontMatter { path, source: e });
                },
                Ok(fm) => {
                    match crate::meta::decode_meta(fm.yaml.as_str()) {
                        None => {
                            return Err(CatalogError::Decode { path });
                        },
                        Some(m) => {
                            let ghost mv = m@;
                            if let Some(j) = find_seen(&seen, m.id.as_str()) {
                                let first = seen[j].1.clone();
                                let id = m.id.clone();
                                proof {
                                    assert(seen.deep_view()[j as int] == (
                                        seen@[j as int].0@,
                                        seen@[j as int].1@,
                                    ));
                                }
                                return Err(CatalogError::Duplicate { id, first, duplicate: path });
                            }
                            let uri = crate::paths::build_doc_uri(
                                base_url,
                                dir,
                                files[i].name.as_str(),
                            );
                            let ghost seen_before = seen.deep_view();
                            let ghost entries_before = entries.deep_view();
                            let idc = m.id.clone();
                            seen.push((idc, path));
                            entries.push(PersonaEntry { meta: m, uri });
                            proof {
                                assert(seen.deep_view() =~= seen_before.push(
                                    (mv.id, spec_doc_path(dir@, fv[i as int].name)),
                                ));
                                assert(entries.deep_view() =~= entries_before.push(
                                    spec_file_entry(fv[i as int], dir@, base_url@),
                                ));
                            }
                        },
                    }
                },
            }
        }
        i = i + 1;
    }
    proof {
        assert(spec_collect_loop(
            fv,
            files@.len() as int,
            seen.deep_view(),
            entries.deep_view(),
            dir@,
            base_url@,
        ) == Ok::<_, CatalogErrorView>(entries.deep_view()));
    }
    Ok(entries)
}

/// The entries the markdown files contribute, in the files' order,
/// assuming each parses and decodes.
pub open spec fn spec_md_entries(files: Seq<FileView>, dir: Seq<char>, base_url: Seq<char>) -> Seq<
    EntryView,
>
    decreases files.len(),
{
    if files.len() == 0 {
        Seq::empty()
    } else if is_md_name(files[0].name) {
        seq![spec_file_entry(files[0], dir, base_url)] + spec_md_entries(
            files.drop_first(),
            dir,
            base_url,
        )
    } else {
        spec_md_entries(files.drop_first(), dir, base_url)
    }
}

/// Whether every markdown file in the set parses and decodes.
pub open spec fn all_docs_ok(files: Seq<FileView>) -> bool {
    forall|i: int|
        0 <= i < files.len() && is_md_name((#[trigger] files[i]).name) ==> spec_file_ok(files[i])
}

/// Whether no two entries share an id.
pub open spec fn entry_ids_distinct(es: Seq<EntryView>) -> bool {
    forall|i: int, j: int| 0 <= i < j < es.len() ==> (#[trigger] es[i]).meta.id != (
    #[trigger] es[j]).meta.id
}

/// The collection loop, when every remaining markdown file is well formed
/// and no id repeats, appends exactly the remaining files' entries.
proof fn lemma_collect_loop_ok(
    files: Seq<FileView>,
    i: int,
    seen: Seq<(Seq<char>, Seq<char>)>,
    acc: Seq<EntryView>,
    dir: Seq<char>,
    base_url: Seq<char>,
)
    requires
        0 <= i <= files.len(),
        all_docs_ok(files),
        entry_ids_distinct(acc + spec_md_entries(files.skip(i), dir, base_url)),
        forall|id: Seq<char>|
            #[trigger] seen_has(seen, id) <==> exists|k: int|
                0 <= k < acc.len() && (#[trigger] acc[k]).meta.id == id,
    ensures
        spec_collect_loop(files, i, seen, acc, dir, base_url) == Ok::<_, CatalogErrorView>(
            acc + spec_md_entries(files.skip(i), dir, base_url),
        ),
    decreases files.len() - i,
{
    let rest = files.skip(i);
    if i == files.len() {
        assert(rest =~= Seq::<FileView>::empty());
        assert(acc + spec_md_entries(rest, dir, base_url) =~= acc);
    } else {
        let f = files[i];
        assert(rest[0] == f);
        assert(rest.drop_first() =~= files.skip(i + 1));
        if !is_md_name(f.name) {
            lemma_collect_loop_ok(files, i + 1, seen, acc, dir, base_url);
        } else {
            assert(spec_file_ok(f));
            let e = spec_file_entry(f, dir, base_url);
            let tail = spec_md_entries(files.skip(i + 1), dir, base_url);
            assert(spec_md_entries(rest, dir, base_url) == seq![e] + tail);
            let whole = acc + spec_md_entries(rest, dir, base_url);
            assert(whole[acc.len() as int] == e);
            // The new id collides with nothing seen.
            assert(!seen_has(seen, e.meta.id)) by {
                if seen_has(seen, e.meta.id) {
                    let k = choose|k: int|
                        0 <= k < acc.len() && (#[trigger] acc[k]).meta.id == e.meta.id;
                    assert(whole[k] == acc[k]);
                    assert(whole[k].meta.id != whole[acc.len() as int].meta.id);
                }
            }
            let path = spec_doc_path(dir, f.name);
            let seen2 = seen.push((e.meta.id, path));
            let acc2 = acc.push(e);
            assert(acc2 + tail =~= whole);
            assert(forall|id: Seq<char>|
                #[trigger] seen_has(seen2, id) <==> exists|k: int|
                    0 <= k < acc2.len() && (#[trigger] acc2[k]).meta.id == id) by {
                assert forall|id: Seq<char>| #[trigger] seen_has(seen2, id) implies exists|k: int|
                    0 <= k < acc2.len() && (#[trigger] acc2[k]).meta.id == id by {
                    let k = choose|k: int|
                        0 <= k < seen2.len() && (#[trigger] seen2[k]).0 == id;
                    if k < seen.len() {
                        assert(seen[k].0 == id);
                        assert(seen_has(seen, id));
                        let a = choose|a: int|
                            0 <= a < acc.len() && (#[trigger] acc[a]).meta.id == id;
                        assert(acc2[a].meta.id == id);
                    } else {
                        assert(acc2[acc.len() as int].meta.id == id);
                    }
                }
                assert forall|id: Seq<char>|
                    (exists|k: int|
                        0 <= k < acc2.len() && (#[trigger] acc2[k]).meta.id
                            == id) implies #[trigger] seen_has(seen2, id) by {
                    let k = choose|k: int|
                        0 <= k < acc2.len() && (#[trigger] acc2[k]).meta.id == id;
                    if k < acc.len() {
                        assert(acc[k].meta.id == id);
                        assert(seen_has(seen, id));
                        let a = choose|a: int|
                            0 <= a < seen.len() && (#[trigger] seen[a]).0 == id;
                        assert(seen2[a].0 == id);
                    } else {
                        assert(seen2[seen.len() as int].0 == id);
                    }
                }
            }
            lemma_collect_loop_ok(files, i + 1, seen2, acc2, dir, base_url);
            assert(acc2 + spec_md_entries(files.skip(i + 1), dir, base_url) =~= whole);
        }
    }
}

/// When every markdown document is well formed and the decoded ids are
/// pairwise distinct, the build succeeds with one entry per markdown
/// document, in the given order.
pub proof fn lemma_collect_ok(files: Seq<FileView>, dir: Seq<char>, base_url: Seq<char>)
    requires
        all_docs_ok(files),
        entry_ids_distinct(spec_md_entries(files, dir, base_url)),
    ensures
        spec_collect(files, dir, base_url) == Ok::<_, CatalogErrorView>(
            spec_md_entries(files, dir, base_url),
        ),
{
    assert(files.skip(0) =~= files);
    let empty_acc = Seq::<EntryView>::empty();
    assert(empty_acc + spec_md_entries(files, dir, base_url) =~= spec_md_entries(
        files,
        dir,
        base_url,
    ));
    assert(forall|id: Seq<char>|
        #[trigger] seen_has(Seq::<(Seq<char>, Seq<char>)>::empty(), id) <==> exists|k: int|
            0 <= k < empty_acc.len() && (#[trigger] empty_acc[k]).meta.id == id);
    lemma_collect_loop_ok(
        files,
        0,
        Seq::<(Seq<char>, Seq<char>)>::empty(),
        empty_acc,
        dir,
        base_url,
    );
}

/// The markdown entries of a concatenation are the concatenation of the
/// markdown entries.
proof fn lemma_md_entries_concat(a: Seq<FileView>, b: Seq<FileView>, dir: Seq<char>, base_url: Seq<
    char,
>)
    ensures
        spec_md_entries(a + b, dir, base_url) == spec_md_entries(a, dir, base_url)
            + spec_md_entries(b, dir, base_url),
    decreases a.len(),
{
    if a.len() == 0 {
        assert(a + b =~= b);
        assert(spec_md_entries(a, dir, base_url) + spec_md_entries(b, dir, base_url)
            =~= spec_md_entries(b, dir, base_url));
    } else {
        assert((a + b)[0] == a[0]);
        assert((a + b).drop_first() =~= a.drop_first() + b);
        lemma_md_entries_concat(a.drop_first(), b, dir, base_url);
        if is_md_name(a[0].name) {
            assert(spec_md_entries(a + b, dir, base_url) =~= spec_md_entries(a, dir, base_url)
                + spec_md_entries(b, dir, base_url));
        }
    }
}

/// Document sets that hold the same documents contribute the same
/// collection of entries, whatever their order.
pub proof fn lemma_md_entries_perm(
    f1: Seq<FileView>,
    f2: Seq<FileView>,
    dir: Seq<char>,
    base_url: Seq<char>,
)
    requires
        f1.to_multiset() == f2.to_multiset(),
    ensures
        spec_md_entries(f1, dir, base_url).to_multiset() == spec_md_entries(
            f2,
            dir,
            base_url,
        ).to_multiset(),
    decreases f1.len(),
{
    broadcast use vstd::seq_lib::group_to_multiset_ensures;
    broadcast use vstd::multiset::group_multiset_axioms;

    f1.to_multiset_ensures();
    f2.to_multiset_ensures();
    if f1.len() == 0 {
        assert(f2.len() == 0);
        assert(f1 =~= f2);
    } else {
        let x = f1[0];
        assert(f1.contains(x));
        assert(f1.to_multiset().count(x) > 0);
        assert(f2.to_multiset().count(x) > 0);
        assert(f2.contains(x));
        let k = choose|k: int| 0 <= k < f2.len() && f2[k] == x;
        let pre = f2.take(k);
        let post = f2.skip(k + 1);
        assert(f2 =~= pre + seq![x] + post);
        let rest2 = pre + post;
        // The tails hold the same documents.
        assert(f1.drop_first() =~= f1.remove(0));
        assert(f1.remove(0).to_multiset() =~= f1.to_multiset().remove(x));
        vstd::seq_lib::lemma_multiset_commutative(pre + seq![x], post);
        vstd::seq_lib::lemma_multiset_commutative(pre, seq![x]);
        vstd::seq_lib::lemma_multiset_commutative(pre, post);
        assert(seq![x] =~= Seq::<FileView>::empty().push(x));
        vstd::seq_lib::to_multiset_build(Seq::<FileView>::empty(), x);
        Seq::<FileView>::empty().to_multiset_ensures();
        vstd::multiset::lemma_multiset_empty_len(Seq::<FileView>::empty().to_multiset());
        assert(f2.to_multiset() =~= rest2.to_multiset().insert(x));
        assert(f1.to_multiset() =~= f1.drop_first().to_multiset().insert(x));
        assert(f1.drop_first().to_multiset() =~= rest2.to_multiset());
        lemma_md_entries_perm(f1.drop_first(), rest2, dir, base_url);
        // Relate the entry sequences through concatenation.
        lemma_md_entries_concat(pre + seq![x], post, dir, base_url);
        lemma_md_entries_concat(pre, seq![x], dir, base_url);
        lemma_md_entries_concat(pre, post, dir, base_url);
        let ex = spec_md_entries(seq![x], dir, base_url);
        assert(seq![x].drop_first() =~= Seq::<FileView>::empty());
        assert(seq![x][0] == x);
        assert(spec_md_entries(Seq::<FileView>::empty(), dir, base_url)
            =~= Seq::<EntryView>::empty());
        assert(ex =~= if is_md_name(x.name) {
            seq![spec_file_entry(x, dir, base_url)]
        } else {
            Seq::<EntryView>::empty()
        });
        assert(spec_md_entries(f1, dir, base_url) =~= ex + spec_md_entries(
            f1.drop_first(),
            dir,
            base_url,
        ));
        vstd::seq_lib::lemma_multiset_commutative(
            spec_md_entries(pre, dir, base_url) + ex,
            spec_md_entries(post, dir, base_url),
        );
        vstd::seq_lib::lemma_multiset_commutative(spec_md_entries(pre, dir, base_url), ex);
        vstd::seq_lib::lemma_multiset_commutative(
            spec_md_entries(pre, dir, base_url),
            spec_md_entries(post, dir, base_url),
        );
        vstd::seq_lib::lemma_multiset_commutative(
            ex,
            spec_md_entries(f1.drop_first(), dir, base_url),
        );
        vstd::seq_lib::lemma_multiset_commutative(
            ex,
            spec_md_entries(rest2, dir, base_url),
        );
        assert(spec_md_entries(f2, dir, base_url) =~= (spec_md_entries(pre, dir, base_url) + ex)
            + spec_md_entries(post, dir, base_url));
        assert(spec_md_entries(f1, dir, base_url).to_multiset() =~= spec_md_entries(
            f2,
            dir,
            base_url,
        ).to_multiset());
    }
}

/// Two sequences sorted by id over the same collection of entries, with
/// no id repeated, are equal: the sorted order is canonical.
pub proof fn lemma_sorted_entries_unique(x: Seq<EntryView>, y: Seq<EntryView>)
    requires
        entries_sorted(x),
        entries_sorted(y),
        entry_ids_distinct(x),
        x.to_multiset() == y.to_multiset(),
    ensures
        x == y,
    decreases x.len(),
{
    broadcast use vstd::seq_lib::group_to_multiset_ensures;
    broadcast use vstd::multiset::group_multiset_axioms;

    x.to_multiset_ensures();
    y.to_multiset_ensures();
    if x.len() == 0 || y.len() == 0 {
        assert(x.to_multiset().len() == y.to_multiset().len());
        assert(x =~= y);
    } else {
        assert(y.contains(y[0]));
        assert(y.to_multiset().count(y[0]) > 0);
        assert(x.to_multiset().count(y[0]) > 0);
        assert(x.contains(y[0]));
        let i = choose|i: int| 0 <= i < x.len() && x[i] == y[0];
        if i == 0 {
            lemma_lex_le_refl(x[0].meta.id);
        }
        assert(lex_le(x[0].meta.id, y[0].meta.id));
        assert(x.contains(x[0]));
        assert(x.to_multiset().count(x[0]) > 0);
        assert(y.to_multiset().count(x[0]) > 0);
        assert(y.contains(x[0]));
        let j = choose|j: int| 0 <= j < y.len() && y[j] == x[0];
        if j == 0 {
            lemma_lex_le_refl(y[0].meta.id);
        }
        assert(lex_le(y[0].meta.id, x[0].meta.id));
        crate::text::lemma_lex_le_antisymmetric(x[0].meta.id, y[0].meta.id);
        // Distinct ids force the matching entry to be the head.
        assert(x[i].meta.id == x[0].meta.id);
        assert(i == 0);
        assert(x[0] == y[0]);
        assert(x.remove(0) =~= x.drop_first());
        assert(y.remove(0) =~= y.drop_first());
        assert(x.drop_first().to_multiset() =~= x.to_multiset().remove(x[0]));
        assert(y.drop_first().to_multiset() =~= y.to_multiset().remove(y[0]));
        assert(entries_sorted(x.drop_first())) by {
            assert forall|a: int, b: int|
                0 <= a < b < x.drop_first().len() implies lex_le(
                (#[trigger] x.drop_first()[a]).meta.id,
                (#[trigger] x.drop_first()[b]).meta.id,
            ) by {
                assert(x.drop_first()[a] == x[a + 1]);
                assert(x.drop_first()[b] == x[b + 1]);
            }
        }
        assert(entries_sorted(y.drop_first())) by {
            assert forall|a: int, b: int|
                0 <= a < b < y.drop_first().len() implies lex_le(
                (#[trigger] y.drop_first()[a]).meta.id,
                (#[trigger] y.drop_first()[b]).meta.id,
            ) by {
                assert(y.drop_first()[a] == y[a + 1]);
                assert(y.drop_first()[b] == y[b + 1]);
            }
        }
        assert(entry_ids_distinct(x.drop_first())) by {
            assert forall|a: int, b: int|
                0 <= a < b < x.drop_first().len() implies (
            #[trigger] x.drop_first()[a]).meta.id != (#[trigger] x.drop_first()[b]).meta.id by {
                assert(x.drop_first()[a] == x[a + 1]);
                assert(x.drop_first()[b] == x[b + 1]);
            }
        }
        lemma_sorted_entries_unique(x.drop_first(), y.drop_first());
        assert(x.len() == y.len());
        assert forall|k: int| 0 <= k < x.len() implies x[k] == y[k] by {
            if k > 0 {
                assert(x[k] == x.drop_first()[k - 1]);
                assert(y[k] == y.drop_first()[k - 1]);
            }
        }
        assert(x =~= y);
    }
}

/// The decoded id of a document, meaningful when it parses and decodes.
pub open spec fn spec_file_id(f: FileView) -> Seq<char> {
    spec_decode_meta(spec_block_of(f)).id
}

/// Well-formedness of documents depends on their text alone, so it
/// carries over to any rearrangement of the same documents.
proof fn lemma_all_ok_perm(f1: Seq<FileView>, f2: Seq<FileView>)
    requires
        all_docs_ok(f1),
        f1.to_multiset() == f2.to_multiset(),
    ensures
        all_docs_ok(f2),
{
    broadcast use vstd::seq_lib::group_to_multiset_ensures;
    broadcast use vstd::multiset::group_multiset_axioms;

    f1.to_multiset_ensures();
    f2.to_multiset_ensures();
    assert forall|i: int|
        0 <= i < f2.len() && is_md_name((#[trigger] f2[i]).name) implies spec_file_ok(f2[i]) by {
        assert(f2.contains(f2[i]));
        assert(f2.to_multiset().count(f2[i]) > 0);
        assert(f1.to_multiset().count(f2[i]) > 0);
        assert(f1.contains(f2[i]));
        let j = choose|j: int| 0 <= j < f1.len() && f1[j] == f2[i];
        assert(spec_file_ok(f1[j]));
    }
}

/// Distinctness of ids is a property of the collection of entries, not of
/// their order.
proof fn lemma_ids_distinct_perm(e1: Seq<EntryView>, e2: Seq<EntryView>)
    requires
        entry_ids_distinct(e1),
        e1.to_multiset() == e2.to_multiset(),
    ensures
        entry_ids_distinct(e2),
{
    broadcast use vstd::seq_lib::group_to_multiset_ensures;
    broadcast use vstd::multiset::group_multiset_axioms;

    e1.to_multiset_ensures();
    e2.to_multiset_ensures();
    assert forall|i: int, j: int|
        0 <= i < j < e2.len() implies (#[trigger] e2[i]).meta.id != (#[trigger] e2[j]).meta.id by {
        if e2[i].meta.id == e2[j].meta.id {
            if e2[i] == e2[j] {
                // The same entry twice: its multiplicity is at least two,
                // so it repeats in e1 as well.
                let e = e2[i];
                e2.to_multiset_ensures();
                assert(e2.remove(i).to_multiset() =~= e2.to_multiset().remove(e));
                assert(e2.remove(i)[j - 1] == e2[j]);
                assert(e2.remove(i).contains(e));
                e2.remove(i).to_multiset_ensures();
                assert(e2.remove(i).to_multiset().count(e) > 0);
                assert(e2.to_multiset().count(e) >= 2);
                assert(e1.to_multiset().count(e) >= 2);
                assert(e1.contains(e));
                let a = choose|a: int| 0 <= a < e1.len() && e1[a] == e;
                assert(e1.remove(a).to_multiset() =~= e1.to_multiset().remove(e));
                assert(e1.remove(a).to_multiset().count(e) > 0);
                e1.remove(a).to_multiset_ensures();
                assert(e1.remove(a).contains(e));
                let b0 = choose|b0: int| 0 <= b0 < e1.remove(a).len() && e1.remove(a)[b0] == e;
                let b = if b0 < a {
                    b0
                } else {
                    b0 + 1
                };
                assert(e1[b] == e);
                assert(b != a);
                if a < b {
                    assert(e1[a].meta.id != e1[b].meta.id);
                } else {
                    assert(e1[b].meta.id != e1[a].meta.id);
                }
            } else {
                // Two different entries with one id: both occur in e1.
                assert(e2.contains(e2[i]));
                assert(e2.to_multiset().count(e2[i]) > 0);
                assert(e1.to_multiset().count(e2[i]) > 0);
                assert(e1.contains(e2[i]));
                assert(e2.contains(e2[j]));
                assert(e2.to_multiset().count(e2[j]) > 0);
                assert(e1.to_multiset().count(e2[j]) > 0);
                assert(e1.contains(e2[j]));
                let a = choose|a: int| 0 <= a < e1.len() && e1[a] == e2[i];
                let b = choose|b: int| 0 <= b < e1.len() && e1[b] == e2[j];
                assert(a != b);
                if a < b {
                    assert(e1[a].meta.id != e1[b].meta.id);
                } else {
                    assert(e1[b].meta.id != e1[a].meta.id);
                }
            }
        }
    }
}

/// Enumeration order is irrelevant: from two arrangements of the same
/// well-formed, duplicate-free document set, the build succeeds either
/// way, any sorted arrangements of the collected entries coincide, and
/// the serialized catalogs are byte-identical.
pub proof fn lemma_catalog_enumeration_order_irrelevant(
    files1: Seq<FileView>,
    files2: Seq<FileView>,
    dir: Seq<char>,
    base_url: Seq<char>,
    base_uri: Seq<char>,
    s1: Seq<EntryView>,
    s2: Seq<EntryView>,
)
    requires
        files1.to_multiset() == files2.to_multiset(),
        all_docs_ok(files1),
        entry_ids_distinct(spec_md_entries(files1, dir, base_url)),
        entries_sorted(s1),
        entries_sorted(s2),
        s1.to_multiset() == spec_md_entries(files1, dir, base_url).to_multiset(),
        s2.to_multiset() == spec_md_entries(files2, dir, base_url).to_multiset(),
    ensures
        spec_collect(files1, dir, base_url) == Ok::<_, CatalogErrorView>(
            spec_md_entries(files1, dir, base_url),
        ),
        spec_collect(files2, dir, base_url) == Ok::<_, CatalogErrorView>(
            spec_md_entries(files2, dir, base_url),
        ),
        s1 == s2,
        crate::jsonout::spec_catalog_json(IndexView { base_uri, personas: s1 })
            == crate::jsonout::spec_catalog_json(IndexView { base_uri, personas: s2 }),
{
    lemma_collect_ok(files1, dir, base_url);
    lemma_all_ok_perm(files1, files2);
    lemma_md_entries_perm(files1, files2, dir, base_url);
    lemma_ids_distinct_perm(
        spec_md_entries(files1, dir, base_url),
        spec_md_entries(files2, dir, base_url),
    );
    lemma_collect_ok(files2, dir, base_url);
    lemma_ids_distinct_perm(spec_md_entries(files1, dir, base_url), s1);
    lemma_sorted_entries_unique(s1, s2);
}

/// The collection loop only ever returns entry sequences with distinct
/// ids: a collision is rejected before the entry is appended.
proof fn lemma_collect_loop_distinct(
    files: Seq<FileView>,
    i: int,
    seen: Seq<(Seq<char>, Seq<char>)>,
    acc: Seq<EntryView>,
    dir: Seq<char>,
    base_url: Seq<char>,
)
    requires
        0 <= i <= files.len(),
        entry_ids_distinct(acc),
        forall|k: int| 0 <= k < acc.len() ==> seen_has(seen, (#[trigger] acc[k]).meta.id),
    ensures
        spec_collect_loop(files, i, seen, acc, dir, base_url) matches Ok(r)
            ==> entry_ids_distinct(r),
    decreases files.len() - i,
{
    if i == files.len() {
    } else {
        let f = files[i];
        if !is_md_name(f.name) {
            lemma_collect_loop_distinct(files, i + 1, seen, acc, dir, base_url);
        } else {
            match spec_parse_front_matter(f.content) {
                Err(_) => {},
                Ok(pb) => {
                    if spec_meta_decodes(pb.0) {
                        let m = spec_decode_meta(pb.0);
                        if !seen_has(seen, m.id) {
                            let path = spec_doc_path(dir, f.name);
                            let seen2 = seen.push((m.id, path));
                            let acc2 = acc.push(spec_file_entry(f, dir, base_url));
                            assert(spec_file_entry(f, dir, base_url).meta.id == m.id);
                            assert(entry_ids_distinct(acc2)) by {
                                assert forall|a: int, b: int|
                                    0 <= a < b < acc2.len() implies (#[trigger] acc2[a]).meta.id
                                    != (#[trigger] acc2[b]).meta.id by {
                                    if b == acc.len() {
                                        assert(acc2[a] == acc[a]);
                                        assert(seen_has(seen, acc[a].meta.id));
                                    } else {
                                        assert(acc2[a] == acc[a]);
                                        assert(acc2[b] == acc[b]);
                                    }
                                }
                            }
                            assert(forall|k: int|
                                0 <= k < acc2.len() ==> seen_has(
                                    seen2,
                                    (#[trigger] acc2[k]).meta.id,
                                )) by {
                                assert forall|k: int| 0 <= k < acc2.len() implies seen_has(
                                    seen2,
                                    (#[trigger] acc2[k]).meta.id,
                                ) by {
                                    if k < acc.len() {
                                        assert(seen_has(seen, acc[k].meta.id));
                                        let c = choose|c: int|
                                            0 <= c < seen.len() && (#[trigger] seen[c]).0 == acc[
                                                k
                                            ].meta.id;
                                        assert(seen2[c].0 == acc[k].meta.id);
                                        assert(seen_has(seen2, acc2[k].meta.id));
                                    } else {
                                        assert(seen2[seen.len() as int].0 == m.id);
                                        assert(seen_has(seen2, acc2[k].meta.id));
                                    }
                                }
                            }
                            lemma_collect_loop_distinct(files, i + 1, seen2, acc2, dir, base_url);
                        }
                    }
                },
            }
        }
    }
}

/// A successful build never carries two entries with one id.
pub proof fn lemma_collect_ok_distinct(
    files: Seq<FileView>,
    dir: Seq<char>,
    base_url: Seq<char>,
    es: Seq<EntryView>,
)
    requires
        spec_collect(files, dir, base_url) == Ok::<_, CatalogErrorView>(es),
    ensures
        entry_ids_distinct(es),
{
    lemma_collect_loop_distinct(
        files,
        0,
        Seq::<(Seq<char>, Seq<char>)>::empty(),
        Seq::<EntryView>::empty(),
        dir,
        base_url,
    );
}

/// Rebuilding from an unchanged document set is idempotent: the collected
/// entries have one sorted arrangement, so the serialized catalog comes
/// out byte-identical from run to run.
pub proof fn lemma_rebuild_identical(
    files: Seq<FileView>,
    dir: Seq<char>,
    base_url: Seq<char>,
    base_uri: Seq<char>,
    es: Seq<EntryView>,
    s1: Seq<EntryView>,
    s2: Seq<EntryView>,
)
    requires
        spec_collect(files, dir, base_url) == Ok::<_, CatalogErrorView>(es),
        entries_sorted(s1),
        entries_sorted(s2),
        s1.to_multiset() == es.to_multiset(),
        s2.to_multiset() == es.to_multiset(),
    ensures
        s1 == s2,
        crate::jsonout::spec_catalog_json(IndexView { base_uri, personas: s1 })
            == crate::jsonout::spec_catalog_json(IndexView { base_uri, personas: s2 }),
{
    lemma_collect_ok_distinct(files, dir, base_url, es);
    lemma_ids_distinct_perm(es, s1);
    lemma_sorted_entries_unique(s1, s2);
}

/// Whether `r` is a duplicate-id failure that names two markdown files of
/// the set which decode to the reported id, the first and the offender.
pub open spec fn duplicate_reported(
    files: Seq<FileView>,
    dir: Seq<char>,
    r: Result<Seq<EntryView>, CatalogErrorView>,
) -> bool {
    match r {
        Err(e) => match e {
            CatalogErrorView::Duplicate { id, first, duplicate } => exists|a: int, b: int|
                0 <= a < b < files.len() && is_md_name((#[trigger] files[a]).name) && is_md_name(
                    (#[trigger] files[b]).name,
                ) && spec_file_id(files[a]) == id && spec_file_id(files[b]) == id && first
                    == spec_doc_path(dir, files[a].name) && duplicate == spec_doc_path(
                    dir,
                    files[b].name,
                ),
            _ => false,
        },
        Ok(_) => false,
    }
}

/// Whether `seen[k]` records the id and path of some markdown file
/// before index `i`.
pub open spec fn seen_entry_matches(
    files: Seq<FileView>,
    dir: Seq<char>,
    seen: Seq<(Seq<char>, Seq<char>)>,
    i: int,
    k: int,
) -> bool {
    exists|a: int|
        0 <= a < i && is_md_name((#[trigger] files[a]).name) && seen[k] == (
            spec_file_id(files[a]),
            spec_doc_path(dir, files[a].name),
        )
}

/// Whether every seen pair comes from a markdown file before index `i`.
pub open spec fn seen_faithful(
    files: Seq<FileView>,
    dir: Seq<char>,
    seen: Seq<(Seq<char>, Seq<char>)>,
    i: int,
) -> bool {
    forall|k: int| 0 <= k < seen.len() ==> #[trigger] seen_entry_matches(files, dir, seen, i, k)
}

/// Whether the id of every markdown file before index `i` is seen.
pub open spec fn seen_covers(
    files: Seq<FileView>,
    seen: Seq<(Seq<char>, Seq<char>)>,
    i: int,
) -> bool {
    forall|a: int|
        0 <= a < i && is_md_name((#[trigger] files[a]).name) ==> seen_has(
            seen,
            spec_file_id(files[a]),
        )
}

/// Whether no two seen pairs carry one id.
pub open spec fn seen_distinct(seen: Seq<(Seq<char>, Seq<char>)>) -> bool {
    forall|a: int, b: int| 0 <= a < b < seen.len() ==> (#[trigger] seen[a]).0 != (
    #[trigger] seen[b]).0
}

/// Whether two markdown files, the later one at or past `i`, decode to
/// one id.
pub open spec fn dup_pair_from(files: Seq<FileView>, i: int) -> bool {
    exists|a: int, b: int|
        0 <= a < b < files.len() && i <= b && is_md_name((#[trigger] files[a]).name) && is_md_name(
            (#[trigger] files[b]).name,
        ) && spec_file_id(files[a]) == spec_file_id(files[b])
}

/// The collection loop, once a later markdown file repeats an id, fails
/// with a duplicate error naming two such files.
proof fn lemma_collect_loop_dup(
    files: Seq<FileView>,
    i: int,
    seen: Seq<(Seq<char>, Seq<char>)>,
    acc: Seq<EntryView>,
    dir: Seq<char>,
    base_url: Seq<char>,
)
    requires
        0 <= i <= files.len(),
        all_docs_ok(files),
        seen_faithful(files, dir, seen, i),
        seen_covers(files, seen, i),
        seen_distinct(seen),
        dup_pair_from(files, i),
    ensures
        duplicate_reported(files, dir, spec_collect_loop(files, i, seen, acc, dir, base_url)),
    decreases files.len() - i,
{
    if i == files.len() {
        let (a, b) = choose|a: int, b: int|
            0 <= a < b < files.len() && i <= b && is_md_name((#[trigger] files[a]).name)
                && is_md_name((#[trigger] files[b]).name) && spec_file_id(files[a])
                == spec_file_id(files[b]);
        assert(seen_has(seen, spec_file_id(files[a])));
        assert(false);
    } else {
        let f = files[i];
        if !is_md_name(f.name) {
            assert(dup_pair_from(files, i + 1)) by {
                let (a, b) = choose|a: int, b: int|
                    0 <= a < b < files.len() && i <= b && is_md_name((#[trigger] files[a]).name)
                        && is_md_name((#[trigger] files[b]).name) && spec_file_id(files[a])
                        == spec_file_id(files[b]);
                assert(b != i);
            }
            assert(seen_faithful(files, dir, seen, i + 1)) by {
                assert forall|k: int| 0 <= k < seen.len() implies #[trigger] seen_entry_matches(
                    files,
                    dir,
                    seen,
                    i + 1,
                    k,
                ) by {
                    assert(seen_entry_matches(files, dir, seen, i, k));
                    let a = choose|a: int|
                        0 <= a < i && is_md_name((#[trigger] files[a]).name) && seen[k] == (
                            spec_file_id(files[a]),
                            spec_doc_path(dir, files[a].name),
                        );
                    assert(0 <= a < i + 1 && is_md_name(files[a].name) && seen[k] == (
                        spec_file_id(files[a]),
                        spec_doc_path(dir, files[a].name),
                    ));
                }
            }
            lemma_collect_loop_dup(files, i + 1, seen, acc, dir, base_url);
        } else {
            assert(spec_file_ok(f));
            match spec_parse_front_matter(f.content) {
                Err(_) => {
                    assert(false);
                },
                Ok(pb) => {
                    assert(pb.0 == spec_block_of(f));
                    assert(spec_meta_decodes(pb.0));
                    let m = spec_decode_meta(pb.0);
                    assert(m.id == spec_file_id(f));
                    let path = spec_doc_path(dir, f.name);
                    if seen_has(seen, m.id) {
                        let c = choose|c: int|
                            0 <= c < seen.len() && (#[trigger] seen[c]).0 == m.id;
                        assert(seen_first_path(seen, m.id) == seen[c].1);
                        assert(seen_entry_matches(files, dir, seen, i, c));
                        let a = choose|a: int|
                            0 <= a < i && is_md_name((#[trigger] files[a]).name) && seen[c] == (
                                spec_file_id(files[a]),
                                spec_doc_path(dir, files[a].name),
                            );
                        assert(spec_file_id(files[a]) == m.id);
                        assert(spec_collect_loop(files, i, seen, acc, dir, base_url) == Err::<
                            Seq<EntryView>,
                            _,
                        >(
                            CatalogErrorView::Duplicate {
                                id: m.id,
                                first: seen[c].1,
                                duplicate: path,
                            },
                        ));
                        assert(0 <= a < i < files.len() && is_md_name(files[a].name)
                            && is_md_name(files[i].name) && spec_file_id(files[a]) == m.id
                            && spec_file_id(files[i]) == m.id && seen[c].1 == spec_doc_path(
                            dir,
                            files[a].name,
                        ) && path == spec_doc_path(dir, files[i].name));
                    } else {
                        let seen2 = seen.push((m.id, path));
                        let acc2 = acc.push(spec_file_entry(f, dir, base_url));
                        // The later half of the duplicate pair still lies ahead.
                        assert(dup_pair_from(files, i + 1)) by {
                            let (a, b) = choose|a: int, b: int|
                                0 <= a < b < files.len() && i <= b && is_md_name(
                                    (#[trigger] files[a]).name,
                                ) && is_md_name((#[trigger] files[b]).name) && spec_file_id(
                                    files[a],
                                ) == spec_file_id(files[b]);
                            if b == i {
                                assert(seen_has(seen, spec_file_id(files[a])));
                                assert(false);
                            }
                        }
                        assert(seen_faithful(files, dir, seen2, i + 1)) by {
                            assert forall|k: int|
                                0 <= k < seen2.len() implies #[trigger] seen_entry_matches(
                                files,
                                dir,
                                seen2,
                                i + 1,
                                k,
                            ) by {
                                if k < seen.len() {
                                    assert(seen_entry_matches(files, dir, seen, i, k));
                                    let a = choose|a: int|
                                        0 <= a < i && is_md_name((#[trigger] files[a]).name)
                                            && seen[k] == (
                                            spec_file_id(files[a]),
                                            spec_doc_path(dir, files[a].name),
                                        );
                                    assert(seen2[k] == seen[k]);
                                    assert(0 <= a < i + 1 && is_md_name(files[a].name) && seen2[k]
                                        == (
                                        spec_file_id(files[a]),
                                        spec_doc_path(dir, files[a].name),
                                    ));
                                } else {
                                    assert(seen2[k] == (
                                        spec_file_id(files[i]),
                                        spec_doc_path(dir, files[i].name),
                                    ));
                                    assert(0 <= i < i + 1 && is_md_name(files[i].name) && seen2[k]
                                        == (
                                        spec_file_id(files[i]),
                                        spec_doc_path(dir, files[i].name),
                                    ));
                                }
                            }
                        }
                        assert(seen_distinct(seen2)) by {
                            assert forall|a: int, b: int|
                                0 <= a < b < seen2.len() implies (#[trigger] seen2[a]).0 != (
                            #[trigger] seen2[b]).0 by {
                                if b == seen.len() {
                                    assert(seen2[a] == seen[a]);
                                    if seen2[a].0 == m.id {
                                        assert(seen_has(seen, m.id));
                                    }
                                } else {
                                    assert(seen2[a] == seen[a]);
                                    assert(seen2[b] == seen[b]);
                                }
                            }
                        }
                        assert(seen_covers(files, seen2, i + 1)) by {
                            assert forall|a: int|
                                0 <= a < i + 1 && is_md_name(
                                    (#[trigger] files[a]).name,
                                ) implies seen_has(seen2, spec_file_id(files[a])) by {
                                if a < i {
                                    assert(seen_has(seen, spec_file_id(files[a])));
                                    let c = choose|c: int|
                                        0 <= c < seen.len() && (#[trigger] seen[c]).0
                                            == spec_file_id(files[a]);
                                    assert(seen2[c].0 == spec_file_id(files[a]));
                                } else {
                                    assert(seen2[seen.len() as int].0 == spec_file_id(files[a]));
                                }
                            }
                        }
                        lemma_collect_loop_dup(files, i + 1, seen2, acc2, dir, base_url);
                    }
                },
            }
        }
    }
}

/// A repeated id among otherwise well-formed documents aborts the build
/// with a duplicate error that names the id and both offending files.
pub proof fn lemma_duplicate_id_fails(files: Seq<FileView>, dir: Seq<char>, base_url: Seq<char>)
    requires
        all_docs_ok(files),
        dup_pair_from(files, 0),
    ensures
        duplicate_reported(files, dir, spec_collect(files, dir, base_url)),
{
    lemma_collect_loop_dup(
        files,
        0,
        Seq::<(Seq<char>, Seq<char>)>::empty(),
        Seq::<EntryView>::empty(),
        dir,
        base_url,
    );
}

/// Builds the catalog from the documents of one directory: collects one
/// entry per markdown file, resolves the base locator, sorts the entries
/// by id, and serializes the result.  The serialized text is returned
/// beside the catalog for the caller to write to the sidecar file.
pub fn generate_index(files: &Vec<SourceFile>, dir: &str, base_path: &str, base_url: &str) -> (r:
    Result<(Index, String), CatalogError>)
    ensures
        match r {
            Ok(p) => {
                &&& spec_collect(files.deep_view(), dir@, base_url@) matches Ok(es)
                    && p.0@.personas.to_multiset() == es.to_multiset()
                &&& entries_sorted(p.0@.personas)
                &&& entry_ids_distinct(p.0@.personas)
                &&& p.0@.base_uri == spec_resolve_base_uri(dir@, base_path@)
                &&& p.1@ == crate::jsonout::spec_catalog_json(p.0@)
            },
            Err(e) => spec_collect(files.deep_view(), dir@, base_url@) == Err::<
                Seq<EntryView>,
                _,
            >(e@),
        },
{
    let entries = match collect_persona_entries(files, dir, base_url) {
        Ok(es) => es,
        Err(e) => {
            return Err(e);
        },
    };
    proof {
        lemma_collect_ok_distinct(files.deep_view(), dir@, base_url@, entries.deep_view());
    }
    let ghost collected = entries.deep_view();
    let sorted = sort_entries(entries);
    proof {
        lemma_ids_distinct_perm(collected, sorted.deep_view());
    }
    let base_uri = crate::paths::resolve_base_uri(dir, base_path);
    let idx = Index { base_uri, personas: sorted };
    let text = crate::jsonout::catalog_json(&idx);
    Ok((idx, text))
}

/// Whether the entries stand in ascending id order.
pub open spec fn entries_sorted(es: Seq<EntryView>) -> bool {
    forall|i: int, j: int| 0 <= i < j < es.len() ==> lex_le(
        (#[trigger] es[i]).meta.id,
        (#[trigger] es[j]).meta.id,
    )
}

/// Sorts the entries by id, ascending; the collection of entries is kept.
pub fn sort_entries(es: Vec<PersonaEntry>) -> (r: Vec<PersonaEntry>)
    ensures
        entries_sorted(r.deep_view()),
        r.deep_view().to_multiset() == es.deep_view().to_multiset(),
{
    broadcast use vstd::seq_lib::group_to_multiset_ensures;
    broadcast use vstd::multiset::group_multiset_axioms;

    let ghost original = es.deep_view();
    let mut src = es;
    let mut out: Vec<PersonaEntry> = Vec::new();
    proof {
        assert(out.deep_view() =~= Seq::<EntryView>::empty());
        assert(out.deep_view().to_multiset().add(src.deep_view().to_multiset())
            =~= original.to_multiset());
    }
    while src.len() > 0
        invariant
            src@.len() == src.deep_view().len(),
            out@.len() == out.deep_view().len(),
            entries_sorted(out.deep_view()),
            out.deep_view().to_multiset().add(src.deep_view().to_multiset())
                == original.to_multiset(),
        decreases src@.len(),
    {
        let ghost src_before = src.deep_view();
        let x = src.pop().unwrap();
        let ghost xv = x@;
        proof {
            assert(src.deep_view() =~= src_before.drop_last());
            assert(src_before =~= src_before.drop_last().push(xv));
            vstd::seq_lib::to_multiset_build(src_before.drop_last(), xv);
            assert(src_before.drop_last().push(xv).to_multiset()
                =~= src_before.drop_last().to_multiset().insert(xv));
            assert(src_before.to_multiset() == src_before.drop_last().to_multiset().insert(xv));
        }
        // Find the insertion point: past every entry whose id is at most x's.
        let mut p: usize = 0;
        while p < out.len() && str_le(out[p].meta.id.as_str(), x.meta.id.as_str())
            invariant
                p <= out@.len(),
                out@.len() == out.deep_view().len(),
                xv == x@,
                forall|k: int| 0 <= k < p ==> lex_le(
                    (#[trigger] out.deep_view()[k]).meta.id,
                    xv.meta.id,
                ),
            decreases out@.len() - p,
        {
            proof {
                assert(out.deep_view()[p as int] == out@[p as int].deep_view());
            }
            p = p + 1;
        }
        proof {
            if p < out.len() {
                assert(out.deep_view()[p as int] == out@[p as int].deep_view());
                crate::text::lemma_lex_le_total(out.deep_view()[p as int].meta.id, xv.meta.id);
            }
        }
        let ghost out_before = out.deep_view();
        out.insert(p, x);
        proof {
            assert(out.deep_view() =~= out_before.insert(p as int, xv));
            let ov = out.deep_view();
            assert forall|a: int, b: int| 0 <= a < b < ov.len() implies lex_le(
                (#[trigger] ov[a]).meta.id,
                (#[trigger] ov[b]).meta.id,
            ) by {
                let pa = if a < p { out_before[a] } else if a == p { xv } else {
                    out_before[a - 1]
                };
                let pb = if b < p { out_before[b] } else if b == p { xv } else {
                    out_before[b - 1]
                };
                assert(ov[a] == pa);
                assert(ov[b] == pb);
                if b == p {
                    // pa is an earlier element, already at most x.
                } else if a == p {
                    // pb is a later element: x is below out_before[p], which
                    // is below every later element.
                    if b - 1 > p {
                        crate::text::lemma_lex_le_transitive(
                            xv.meta.id,
                            out_before[p as int].meta.id,
                            pb.meta.id,
                        );
                    }
                }
            }
            // The multiset gains exactly x.
            assert(out_before.insert(p as int, xv) =~= out_before.take(p as int) + seq![xv]
                + out_before.skip(p as int));
            vstd::seq_lib::lemma_multiset_commutative(
                out_before.take(p as int) + seq![xv],
                out_before.skip(p as int),
            );
            vstd::seq_lib::lemma_multiset_commutative(out_before.take(p as int), seq![xv]);
            vstd::seq_lib::lemma_multiset_commutative(
                out_before.take(p as int),
                out_before.skip(p as int),
            );
            assert(out_before.take(p as int) + out_before.skip(p as int) =~= out_before);
            assert(seq![xv] =~= Seq::<EntryView>::empty().push(xv));
            vstd::seq_lib::to_multiset_build(Seq::<EntryView>::empty(), xv);
            assert(Seq::<EntryView>::empty().push(xv).to_multiset()
                =~= Seq::<EntryView>::empty().to_multiset().insert(xv));
            Seq::<EntryView>::empty().to_multiset_ensures();
            vstd::multiset::lemma_multiset_empty_len(Seq::<EntryView>::empty().to_multiset());
            assert(Seq::<EntryView>::empty().to_multiset() =~= Multiset::<EntryView>::empty());
            assert(seq![xv].to_multiset() =~= Multiset::<EntryView>::empty().insert(xv));
            assert(out.deep_view().to_multiset() =~= out_before.to_multiset().insert(xv));
        }
    }
    proof {
        src.deep_view().to_multiset_ensures();
        vstd::multiset::lemma_multiset_empty_len(src.deep_view().to_multiset());
        assert(src.deep_view().to_multiset() =~= Multiset::<EntryView>::empty());
        assert(out.deep_view().to_multiset() =~= original.to_multiset());
    }
    out
}

} // verus!
