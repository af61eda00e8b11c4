//! The resource server's decision logic: one line of request text in, one
//! line of response text out.  Everything here is a pure function; the
//! surrounding process reads lines, performs file reads and path
//! resolution, and writes the rendered responses back.

use vstd::prelude::*;

use crate::catalog::is_md_name;
use crate::jsonout::{json_string, push_json_string};
use crate::text::{
    chars_to_string, is_ws, lemma_lex_le_refl, lemma_lex_le_total, lemma_lex_le_transitive,
    lex_le, push_str_chars, spec_is_ws, str_chars, str_eq, str_has_prefix, str_le, vec_slice,
};

verus! {

/// The names the server answers to: the catalog resource, the
/// base-instructions resource, and the document directory prefix.
#[derive(Debug, PartialEq, Eq)]
pub struct ServerConfig {
    pub catalog_uri: String,
    pub base_uri: String,
    pub docs_dir: String,
}

/// The mathematical content of a `ServerConfig`.
pub struct ConfigView {
    pub catalog_uri: Seq<char>,
    pub base_uri: Seq<char>,
    pub docs_dir: Seq<char>,
}

impl View for ServerConfig {
    type V = ConfigView;

    open spec fn view(&self) -> ConfigView {
        ConfigView {
            catalog_uri: self.catalog_uri@,
            base_uri: self.base_uri@,
            docs_dir: self.docs_dir@,
        }
    }
}

/// What a requested resource identifier names.
#[derive(Debug, PartialEq, Eq)]
pub enum ResourceKind {
    /// The generated catalog file.
    Catalog,
    /// The base-instructions file.
    Base,
    /// A path relative to the document directory; it still has to pass the
    /// containment check after resolution.
    Doc { relative: String },
    /// Nothing this server serves.
    Unknown,
}

/// The mathematical content of a `ResourceKind`.
pub enum ResourceKindView {
    Catalog,
    Base,
    Doc(Seq<char>),
    Unknown,
}

impl View for ResourceKind {
    type V = ResourceKindView;

    open spec fn view(&self) -> ResourceKindView {
        match self {
            ResourceKind::Catalog => ResourceKindView::Catalog,
            ResourceKind::Base => ResourceKindView::Base,
            ResourceKind::Doc { relative } => ResourceKindView::Doc(relative@),
            ResourceKind::Unknown => ResourceKindView::Unknown,
        }
    }
}

/// How a requested identifier is classified: the catalog name and the
/// base name match exactly; anything under `docs_dir/` is a relative
/// document path; all else is unknown.
pub open spec fn spec_classify(cfg: ConfigView, uri: Seq<char>) -> ResourceKindView {
    if uri == cfg.catalog_uri {
        ResourceKindView::Catalog
    } else if uri == cfg.base_uri {
        ResourceKindView::Base
    } else if uri.len() >= cfg.docs_dir.len() + 1 && uri.take(cfg.docs_dir.len() as int + 1)
        == cfg.docs_dir + seq!['/'] {
        ResourceKindView::Doc(uri.skip(cfg.docs_dir.len() as int + 1))
    } else {
        ResourceKindView::Unknown
    }
}

/// Classifies a requested resource identifier.
pub fn classify_resource(cfg: &ServerConfig, uri: &str) -> (r: ResourceKind)
    ensures
        r@ == spec_classify(cfg@, uri@),
{
    if str_eq(uri, cfg.catalog_uri.as_str()) {
        return ResourceKind::Catalog;
    }
    if str_eq(uri, cfg.base_uri.as_str()) {
        return ResourceKind::Base;
    }
    let mut pv: Vec<char> = Vec::new();
    push_str_chars(&mut pv, cfg.docs_dir.as_str());
    pv.push('/');
    proof {
        assert(pv@ =~= cfg.docs_dir@ + seq!['/']);
    }
    let prefix = chars_to_string(&pv);
    if str_has_prefix(uri, prefix.as_str()) {
        let n = uri.unicode_len();
        let v = str_chars(uri);
        let piece = vec_slice(&v, prefix.unicode_len(), n);
        let relative = chars_to_string(&piece);
        return ResourceKind::Doc { relative };
    }
    ResourceKind::Unknown
}

/// A response line that reports an error: the echoed id, a code, and a
/// message.
pub open spec fn spec_error_response(id: Seq<char>, code: Seq<char>, msg: Seq<char>) -> Seq<
    char,
> {
    "{\"jsonrpc\":\"2.0\",\"id\":"@ + id + ",\"error\":{\"code\":"@ + code + ",\"message\":"@
        + json_string(msg) + "}}"@
}

/// A response line that carries a result: the echoed id and the result
/// object's JSON text.
pub open spec fn spec_result_response(id: Seq<char>, body: Seq<char>) -> Seq<char> {
    "{\"jsonrpc\":\"2.0\",\"id\":"@ + id + ",\"result\":"@ + body + "}"@
}

/// Renders an error response line.
pub fn error_response(id_json: &str, code: &str, msg: &str) -> (r: String)
    ensures
        r@ == spec_error_response(id_json@, code@, msg@),
{
    let mut out: Vec<char> = Vec::new();
    push_str_chars(&mut out, "{\"jsonrpc\":\"2.0\",\"id\":");
    push_str_chars(&mut out, id_json);
    push_str_chars(&mut out, ",\"error\":{\"code\":");
    push_str_chars(&mut out, code);
    push_str_chars(&mut out, ",\"message\":");
    push_json_string(&mut out, msg);
    push_str_chars(&mut out, "}}");
    proof {
        assert(out@ =~= spec_error_response(id_json@, code@, msg@));
    }
    chars_to_string(&out)
}

/// Renders a result response line around an already-rendered result body.
fn result_response(id_json: &str, body: &str) -> (r: String)
    ensures
        r@ == spec_result_response(id_json@, body@),
{
    let mut out: Vec<char> = Vec::new();
    push_str_chars(&mut out, "{\"jsonrpc\":\"2.0\",\"id\":");
    push_str_chars(&mut out, id_json);
    push_str_chars(&mut out, ",\"result\":");
    push_str_chars(&mut out, body);
    push_str_chars(&mut out, "}");
    proof {
        assert(out@ =~= spec_result_response(id_json@, body@));
    }
    chars_to_string(&out)
}

/// The static result of `initialize`.
pub open spec fn spec_initialize_result() -> Seq<char> {
    "{\"serverInfo\":{\"name\":\"Avatars MCP\",\"version\":\"0.1\"},\"capabilities\":{\"resources\":true}}"@
}

/// The parsed parts of one request line: the id re-serialized as JSON
/// text, the method, and the optional `params.uri` — a function of the
/// line's characters alone; `None` when the line is not a JSON object.
pub uninterp spec fn request_parts_of(line: Seq<char>) -> Option<
    (Seq<char>, Seq<char>, Option<Seq<char>>),
>;

/// Relies on `serde_json::from_str::<Value>`, `serde_json::Value::{get, as_str}`
/// and `serde_json::to_string`: the request's id (re-serialized, `null`
/// when absent), its method (empty when absent or not a string), and
/// `params.uri`; all deterministic functions of the line.
#[verifier::external_body]
fn parse_request_line(line: &str) -> (r: Option<(String, String, Option<String>)>)
    ensures
        r is Some <==> request_parts_of(line@) is Some,
        r matches Some(t) ==> request_parts_of(line@) == Some((t.0@, t.1@, t.2.deep_view())),
{
    let v: serde_json::Value = match serde_json::from_str(line) {
        Ok(v) => v,
        Err(_) => return None,
    };
    let id = v.get("id").cloned().unwrap_or(serde_json::Value::Null);
    let id_json = serde_json::to_string(&id).unwrap_or_else(|_| "null".to_string());
    let method = v.get("method").and_then(|m| m.as_str()).unwrap_or("").to_string();
    let uri = v.get("params").and_then(|p| p.get("uri")).and_then(|u| u.as_str()).map(
        |s| s.to_string(),
    );
    Some((id_json, method, uri))
}

/// Whether a line holds only whitespace.
pub open spec fn spec_is_blank(line: Seq<char>) -> bool {
    forall|i: int| 0 <= i < line.len() ==> spec_is_ws(#[trigger] line[i])
}

/// What the server does with one line of input.
#[derive(Debug, PartialEq, Eq)]
pub enum LinePlan {
    /// A blank line: no response at all.
    Ignore,
    /// A response that needs nothing from the file system.
    Reply { response: String },
    /// A resource listing: the caller enumerates the document directory
    /// and hands the names to `list_response`.
    List { id_json: String },
    /// A resource read: the caller resolves and reads, then hands the
    /// outcome to `read_response`.
    Read { id_json: String, uri: String },
}

/// The mathematical content of a `LinePlan`.
pub enum LinePlanView {
    Ignore,
    Reply(Seq<char>),
    List(Seq<char>),
    Read(Seq<char>, Seq<char>),
}

impl View for LinePlan {
    type V = LinePlanView;

    open spec fn view(&self) -> LinePlanView {
        match self {
            LinePlan::Ignore => LinePlanView::Ignore,
            LinePlan::Reply { response } => LinePlanView::Reply(response@),
            LinePlan::List { id_json } => LinePlanView::List(id_json@),
            LinePlan::Read { id_json, uri } => LinePlanView::Read(id_json@, uri@),
        }
    }
}

/// The plan for one line: blank lines are ignored; a line that does not
/// parse gets a parse-error response with a null id; `initialize` is
/// answered in place; listing and reading are handed back to the caller
/// with the echoed id; a read without a `uri` and an unknown method get
/// their protocol errors.
pub open spec fn spec_plan_line(line: Seq<char>) -> LinePlanView {
    if spec_is_blank(line) {
        LinePlanView::Ignore
    } else {
        match request_parts_of(line) {
            None => LinePlanView::Reply(
                spec_error_response("null"@, "-32700"@, "Parse error"@),
            ),
            Some(t) => {
                if t.1 == "initialize"@ {
                    LinePlanView::Reply(spec_result_response(t.0, spec_initialize_result()))
                } else if t.1 == "resources/list"@ {
                    LinePlanView::List(t.0)
                } else if t.1 == "resources/read"@ {
                    match t.2 {
                        Some(u) => LinePlanView::Read(t.0, u),
                        None => LinePlanView::Reply(
                            spec_error_response(t.0, "-32602"@, "Missing uri"@),
                        ),
                    }
                } else {
                    LinePlanView::Reply(spec_error_response(t.0, "-32601"@, "Unknown method"@))
                }
            },
        }
    }
}

/// Decides what one line of input asks for.
pub fn plan_line(line: &str) -> (r: LinePlan)
    ensures
        r@ == spec_plan_line(line@),
{
    let v = str_chars(line);
    let mut i: usize = 0;
    let mut blank = true;
    while i < v.len()
        invariant
            v@ == line@,
            i <= v@.len(),
            blank == forall|k: int| 0 <= k < i ==> spec_is_ws(#[trigger] line@[k]),
        decreases v@.len() - i,
    {
        if !is_ws(v[i]) {
            blank = false;
            i = v.len();
        } else {
            i = i + 1;
        }
    }
    if blank {
        return LinePlan::Ignore;
    }
    match parse_request_line(line) {
        None => LinePlan::Reply { response: error_response("null", "-32700", "Parse error") },
        Some((id_json, method, uri)) => {
            if str_eq(method.as_str(), "initialize") {
                let body = "{\"serverInfo\":{\"name\":\"Avatars MCP\",\"version\":\"0.1\"},\"capabilities\":{\"resources\":true}}";
                LinePlan::Reply { response: result_response(id_json.as_str(), body) }
            } else if str_eq(method.as_str(), "resources/list") {
                LinePlan::List { id_json }
            } else if str_eq(method.as_str(), "resources/read") {
                match uri {
                    Some(u) => LinePlan::Read { id_json, uri: u },
                    None => LinePlan::Reply {
                        response: error_response(id_json.as_str(), "-32602", "Missing uri"),
                    },
                }
            } else {
                LinePlan::Reply {
                    response: error_response(id_json.as_str(), "-32601", "Unknown method"),
                }
            }
        },
    }
}

/// Whether the names stand in ascending lexicographic order.
pub open spec fn names_sorted(xs: Seq<Seq<char>>) -> bool {
    forall|i: int, j: int| 0 <= i < j < xs.len() ==> lex_le(#[trigger] xs[i], #[trigger] xs[j])
}

/// `x` inserted into the sorted `xs`, after every name at most `x`.
pub open spec fn insert_sorted(x: Seq<char>, xs: Seq<Seq<char>>) -> Seq<Seq<char>>
    decreases xs.len(),
{
    if xs.len() == 0 {
        seq![x]
    } else if lex_le(xs[0], x) {
        seq![xs[0]] + insert_sorted(x, xs.drop_first())
    } else {
        seq![x] + xs
    }
}

/// The names in ascending lexicographic order, by insertion.
pub open spec fn spec_sort_names(ns: Seq<Seq<char>>) -> Seq<Seq<char>>
    decreases ns.len(),
{
    if ns.len() == 0 {
        ns
    } else {
        insert_sorted(ns[0], spec_sort_names(ns.drop_first()))
    }
}

/// The names that carry the markdown extension, in their given order.
pub open spec fn md_names(ns: Seq<Seq<char>>) -> Seq<Seq<char>>
    decreases ns.len(),
{
    if ns.len() == 0 {
        Seq::empty()
    } else if is_md_name(ns[0]) {
        seq![ns[0]] + md_names(ns.drop_first())
    } else {
        md_names(ns.drop_first())
    }
}

/// Each name prefixed with the document directory and a separator.
pub open spec fn prefix_all(dir: Seq<char>, xs: Seq<Seq<char>>) -> Seq<Seq<char>>
    decreases xs.len(),
{
    if xs.len() == 0 {
        Seq::empty()
    } else {
        seq![dir + seq!['/'] + xs[0]] + prefix_all(dir, xs.drop_first())
    }
}

/// The `{"uri": ...}` objects from index `i` on, with commas between.
pub open spec fn uri_items(xs: Seq<Seq<char>>, i: int) -> Seq<char>
    decreases xs.len() - i when 0 <= i < xs.len()
{
    "{\"uri\":"@ + json_string(xs[i]) + "}"@ + if i + 1 < xs.len() {
        ","@ + uri_items(xs, i + 1)
    } else {
        Seq::<char>::empty()
    }
}

/// The result body of a listing: the catalog resource, the
/// base-instructions resource, and the given (already sorted) document
/// names under the directory prefix.
pub open spec fn spec_list_body(cfg: ConfigView, sorted_names: Seq<Seq<char>>) -> Seq<char> {
    let uris = seq![cfg.catalog_uri, cfg.base_uri] + prefix_all(cfg.docs_dir, sorted_names);
    "{\"resources\":["@ + uri_items(uris, 0) + "]}"@
}

/// Inserting into a sorted sequence keeps it sorted, grows the collection
/// by exactly the new name, and adds no other name.
proof fn lemma_insert_sorted_props(x: Seq<char>, xs: Seq<Seq<char>>)
    requires
        names_sorted(xs),
    ensures
        names_sorted(insert_sorted(x, xs)),
        insert_sorted(x, xs).to_multiset() == xs.to_multiset().insert(x),
        insert_sorted(x, xs).len() == xs.len() + 1,
        forall|k: int|
            0 <= k < insert_sorted(x, xs).len() ==> insert_sorted(x, xs)[k] == x || xs.contains(
                #[trigger] insert_sorted(x, xs)[k],
            ),
    decreases xs.len(),
{
    broadcast use vstd::seq_lib::group_to_multiset_ensures;
    broadcast use vstd::multiset::group_multiset_axioms;

    let r = insert_sorted(x, xs);
    if xs.len() == 0 {
        assert(seq![x] =~= Seq::<Seq<char>>::empty().push(x));
        vstd::seq_lib::to_multiset_build(Seq::<Seq<char>>::empty(), x);
        Seq::<Seq<char>>::empty().to_multiset_ensures();
        vstd::multiset::lemma_multiset_empty_len(Seq::<Seq<char>>::empty().to_multiset());
        assert(r.to_multiset() =~= xs.to_multiset().insert(x));
    } else if lex_le(xs[0], x) {
        let tail = xs.drop_first();
        assert(names_sorted(tail)) by {
            assert forall|i: int, j: int| 0 <= i < j < tail.len() implies lex_le(
                tail[i],
                tail[j],
            ) by {
                assert(tail[i] == xs[i + 1]);
                assert(tail[j] == xs[j + 1]);
            }
        }
        lemma_insert_sorted_props(x, tail);
        let ins = insert_sorted(x, tail);
        // Sortedness.
        assert forall|a: int, b: int| 0 <= a < b < r.len() implies lex_le(r[a], r[b]) by {
            if a == 0 {
                assert(r[b] == ins[b - 1]);
                if ins[b - 1] == x {
                } else {
                    assert(tail.contains(ins[b - 1]));
                    let j = choose|j: int| 0 <= j < tail.len() && tail[j] == ins[b - 1];
                    assert(tail[j] == xs[j + 1]);
                    assert(lex_le(xs[0], xs[j + 1]));
                }
            } else {
                assert(r[a] == ins[a - 1]);
                assert(r[b] == ins[b - 1]);
            }
        }
        // Multiset.
        assert(r =~= seq![xs[0]] + ins);
        vstd::seq_lib::lemma_multiset_commutative(seq![xs[0]], ins);
        vstd::seq_lib::lemma_multiset_commutative(seq![xs[0]], tail);
        assert(xs =~= seq![xs[0]] + tail);
        assert(r.to_multiset() =~= xs.to_multiset().insert(x));
        // Elements.
        assert forall|k: int| 0 <= k < r.len() implies r[k] == x || xs.contains(r[k]) by {
            if k == 0 {
                assert(xs.contains(xs[0]));
            } else {
                assert(r[k] == ins[k - 1]);
                if ins[k - 1] == x {
                } else {
                    assert(tail.contains(ins[k - 1]));
                    let j = choose|j: int| 0 <= j < tail.len() && tail[j] == ins[k - 1];
                    assert(xs[j + 1] == ins[k - 1]);
                    assert(xs.contains(xs[j + 1]));
                }
            }
        }
    } else {
        lemma_lex_le_total(xs[0], x);
        assert(lex_le(x, xs[0]));
        assert forall|a: int, b: int| 0 <= a < b < r.len() implies lex_le(r[a], r[b]) by {
            if a == 0 {
                assert(r[b] == xs[b - 1]);
                if b - 1 > 0 {
                    lemma_lex_le_transitive(x, xs[0], xs[b - 1]);
                }
            } else {
                assert(r[a] == xs[a - 1]);
                assert(r[b] == xs[b - 1]);
            }
        }
        assert(r =~= seq![x] + xs);
        vstd::seq_lib::lemma_multiset_commutative(seq![x], xs);
        assert(seq![x] =~= Seq::<Seq<char>>::empty().push(x));
        vstd::seq_lib::to_multiset_build(Seq::<Seq<char>>::empty(), x);
        Seq::<Seq<char>>::empty().to_multiset_ensures();
        vstd::multiset::lemma_multiset_empty_len(Seq::<Seq<char>>::empty().to_multiset());
        assert(r.to_multiset() =~= xs.to_multiset().insert(x));
        assert forall|k: int| 0 <= k < r.len() implies r[k] == x || xs.contains(r[k]) by {
            if k > 0 {
                assert(r[k] == xs[k - 1]);
                assert(xs.contains(xs[k - 1]));
            }
        }
    }
}

/// Sorting yields a sorted sequence over the same collection of names.
pub proof fn lemma_spec_sort_names_props(ns: Seq<Seq<char>>)
    ensures
        names_sorted(spec_sort_names(ns)),
        spec_sort_names(ns).to_multiset() == ns.to_multiset(),
    decreases ns.len(),
{
    broadcast use vstd::seq_lib::group_to_multiset_ensures;
    broadcast use vstd::multiset::group_multiset_axioms;

    if ns.len() > 0 {
        let tail = ns.drop_first();
        lemma_spec_sort_names_props(tail);
        lemma_insert_sorted_props(ns[0], spec_sort_names(tail));
        assert(ns =~= seq![ns[0]] + tail);
        vstd::seq_lib::lemma_multiset_commutative(seq![ns[0]], tail);
        assert(seq![ns[0]] =~= Seq::<Seq<char>>::empty().push(ns[0]));
        vstd::seq_lib::to_multiset_build(Seq::<Seq<char>>::empty(), ns[0]);
        Seq::<Seq<char>>::empty().to_multiset_ensures();
        vstd::multiset::lemma_multiset_empty_len(Seq::<Seq<char>>::empty().to_multiset());
        assert(spec_sort_names(ns).to_multiset() =~= ns.to_multiset());
    }
}

/// Two sorted sequences over the same collection of names are equal: the
/// sorted order is canonical.
pub proof fn lemma_sorted_names_unique(x: Seq<Seq<char>>, y: Seq<Seq<char>>)
    requires
        names_sorted(x),
        names_sorted(y),
        x.to_multiset() == y.to_multiset(),
    ensures
        x == y,
    decreases x.len(),
{
    broadcast use vstd::seq_lib::group_to_multiset_ensures;
    broadcast use vstd::multiset::group_multiset_axioms;

    x.to_multiset_ensures();
    y.to_multiset_ensures();
    if x.len() == 0 || y.len() == 0 {
        assert(x.to_multiset().len() == y.to_multiset().len());
        assert(x =~= y);
    } else {
        assert(y.contains(y[0]));
        assert(y.to_multiset().count(y[0]) > 0);
        assert(x.to_multiset().count(y[0]) > 0);
        assert(x.contains(y[0]));
        let i = choose|i: int| 0 <= i < x.len() && x[i] == y[0];
        if i == 0 {
            lemma_lex_le_refl(x[0]);
        }
        assert(lex_le(x[0], y[0]));
        assert(x.contains(x[0]));
        assert(x.to_multiset().count(x[0]) > 0);
        assert(y.to_multiset().count(x[0]) > 0);
        assert(y.contains(x[0]));
        let j = choose|j: int| 0 <= j < y.len() && y[j] == x[0];
        if j == 0 {
            lemma_lex_le_refl(y[0]);
        }
        assert(lex_le(y[0], x[0]));
        crate::text::lemma_lex_le_antisymmetric(x[0], y[0]);
        assert(x.remove(0) =~= x.drop_first());
        assert(y.remove(0) =~= y.drop_first());
        assert(x.drop_first().to_multiset() =~= x.to_multiset().remove(x[0]));
        assert(y.drop_first().to_multiset() =~= y.to_multiset().remove(y[0]));
        assert(names_sorted(x.drop_first())) by {
            assert forall|a: int, b: int|
                0 <= a < b < x.drop_first().len() implies lex_le(
                x.drop_first()[a],
                x.drop_first()[b],
            ) by {
                assert(x.drop_first()[a] == x[a + 1]);
                assert(x.drop_first()[b] == x[b + 1]);
            }
        }
        assert(names_sorted(y.drop_first())) by {
            assert forall|a: int, b: int|
                0 <= a < b < y.drop_first().len() implies lex_le(
                y.drop_first()[a],
                y.drop_first()[b],
            ) by {
                assert(y.drop_first()[a] == y[a + 1]);
                assert(y.drop_first()[b] == y[b + 1]);
            }
        }
        lemma_sorted_names_unique(x.drop_first(), y.drop_first());
        assert(x.len() == y.len());
        assert forall|k: int| 0 <= k < x.len() implies x[k] == y[k] by {
            if k > 0 {
                assert(x[k] == x.drop_first()[k - 1]);
                assert(y[k] == y.drop_first()[k - 1]);
            }
        }
        assert(x =~= y);
    }
}

/// Sorts names ascending; the result is exactly the canonical sorted
/// arrangement of the given names.
pub fn sort_names(ns: Vec<String>) -> (r: Vec<String>)
    ensures
        r.deep_view() == spec_sort_names(ns.deep_view()),
{
    broadcast use vstd::seq_lib::group_to_multiset_ensures;
    broadcast use vstd::multiset::group_multiset_axioms;

    let ghost original = ns.deep_view();
    let mut src = ns;
    let mut out: Vec<String> = Vec::new();
    proof {
        Seq::<Seq<char>>::empty().to_multiset_ensures();
        vstd::multiset::lemma_multiset_empty_len(Seq::<Seq<char>>::empty().to_multiset());
        assert(out.deep_view() =~= Seq::<Seq<char>>::empty());
        assert(out.deep_view().to_multiset().add(src.deep_view().to_multiset())
            =~= original.to_multiset());
    }
    while src.len() > 0
        invariant
            src@.len() == src.deep_view().len(),
            out@.len() == out.deep_view().len(),
            names_sorted(out.deep_view()),
            out.deep_view().to_multiset().add(src.deep_view().to_multiset())
                == original.to_multiset(),
        decreases src@.len(),
    {
        let ghost src_before = src.deep_view();
        let x = src.pop().unwrap();
        let ghost xv = x@;
        proof {
            assert(src.deep_view() =~= src_before.drop_last());
            assert(src_before =~= src_before.drop_last().push(xv));
            vstd::seq_lib::to_multiset_build(src_before.drop_last(), xv);
            assert(src_before.to_multiset() == src_before.drop_last().to_multiset().insert(xv));
        }
        let mut p: usize = 0;
        while p < out.len() && str_le(out[p].as_str(), x.as_str())
            invariant
                p <= out@.len(),
                out@.len() == out.deep_view().len(),
                xv == x@,
                forall|k: int| 0 <= k < p ==> lex_le(#[trigger] out.deep_view()[k], xv),
            decreases out@.len() - p,
        {
            proof {
                assert(out.deep_view()[p as int] == out@[p as int]@);
            }
            p = p + 1;
        }
        proof {
            if p < out.len() {
                assert(out.deep_view()[p as int] == out@[p as int]@);
                lemma_lex_le_total(out.deep_view()[p as int], xv);
            }
        }
        let ghost out_before = out.deep_view();
        out.insert(p, x);
        proof {
            assert(out.deep_view() =~= out_before.insert(p as int, xv));
            let ov = out.deep_view();
            assert forall|a: int, b: int| 0 <= a < b < ov.len() implies lex_le(ov[a], ov[b]) by {
                let pa = if a < p {
                    out_before[a]
                } else if a == p {
                    xv
                } else {
                    out_before[a - 1]
                };
                let pb = if b < p {
                    out_before[b]
                } else if b == p {
                    xv
                } else {
                    out_before[b - 1]
                };
                assert(ov[a] == pa);
                assert(ov[b] == pb);
                if b == p {
                } else if a == p {
                    if b - 1 > p {
                        lemma_lex_le_transitive(xv, out_before[p as int], pb);
                    }
                }
            }
            assert(out_before.insert(p as int, xv) =~= out_before.take(p as int) + seq![xv]
                + out_before.skip(p as int));
            vstd::seq_lib::lemma_multiset_commutative(
                out_before.take(p as int) + seq![xv],
                out_before.skip(p as int),
            );
            vstd::seq_lib::lemma_multiset_commutative(out_before.take(p as int), seq![xv]);
            vstd::seq_lib::lemma_multiset_commutative(
                out_before.take(p as int),
                out_before.skip(p as int),
            );
            assert(out_before.take(p as int) + out_before.skip(p as int) =~= out_before);
            assert(seq![xv] =~= Seq::<Seq<char>>::empty().push(xv));
            vstd::seq_lib::to_multiset_build(Seq::<Seq<char>>::empty(), xv);
            Seq::<Seq<char>>::empty().to_multiset_ensures();
            vstd::multiset::lemma_multiset_empty_len(Seq::<Seq<char>>::empty().to_multiset());
            assert(seq![xv].to_multiset() =~= vstd::multiset::Multiset::<
                Seq<char>,
            >::empty().insert(xv));
            assert(out.deep_view().to_multiset() =~= out_before.to_multiset().insert(xv));
        }
    }
    proof {
        src.deep_view().to_multiset_ensures();
        vstd::multiset::lemma_multiset_empty_len(src.deep_view().to_multiset());
        assert(src.deep_view().to_multiset() =~= vstd::multiset::Multiset::<
            Seq<char>,
        >::empty());
        assert(out.deep_view().to_multiset() =~= original.to_multiset());
        lemma_spec_sort_names_props(original);
        lemma_sorted_names_unique(out.deep_view(), spec_sort_names(original));
    }
    out
}

/// What enumerating the document directory produced: its entry names, or
/// the failure's message.
#[derive(Debug, PartialEq, Eq)]
pub enum DirListing {
    Names(Vec<String>),
    Failed(String),
}

/// The mathematical content of a `DirListing`.
pub enum DirListingView {
    Names(Seq<Seq<char>>),
    Failed(Seq<char>),
}

impl View for DirListing {
    type V = DirListingView;

    open spec fn view(&self) -> DirListingView {
        match self {
            DirListing::Names(ns) => DirListingView::Names(ns.deep_view()),
            DirListing::Failed(m) => DirListingView::Failed(m@),
        }
    }
}

/// Appends the `{"uri": ...}` objects from index `i` on.
fn push_uri_items(out: &mut Vec<char>, xs: &Vec<String>, i: usize)
    requires
        i < xs@.len(),
    ensures
        final (out)@ == old(out)@ + uri_items(xs.deep_view(), i as int),
    decreases xs@.len() - i,
{
    proof {
        assert(xs.deep_view().len() == xs@.len());
        assert(xs.deep_view()[i as int] == xs@[i as int]@);
    }
    let n = xs.len();
    push_str_chars(out, "{\"uri\":");
    push_json_string(out, xs[i].as_str());
    push_str_chars(out, "}");
    if i + 1 < n {
        push_str_chars(out, ",");
        push_uri_items(out, xs, i + 1);
    }
    assert(out@ =~= old(out)@ + uri_items(xs.deep_view(), i as int));
}

/// Renders the response for a listing: on success, the catalog resource,
/// the base-instructions resource, and each markdown document under the
/// directory prefix, sorted by file name; on failure, the protocol error.
pub fn list_response(cfg: &ServerConfig, id_json: &str, listing: &DirListing) -> (r: String)
    ensures
        match listing@ {
            DirListingView::Failed(m) => r@ == spec_error_response(id_json@, "-32000"@, m),
            DirListingView::Names(ns) => r@ == spec_result_response(
                id_json@,
                spec_list_body(cfg@, spec_sort_names(md_names(ns))),
            ),
        },
{
    let ns = match listing {
        DirListing::Failed(m) => {
            return error_response(id_json, "-32000", m.as_str());
        },
        DirListing::Names(ns) => ns,
    };
    // Keep the markdown names.
    let mut kept: Vec<String> = Vec::new();
    let mut i: usize = 0;
    proof {
        assert(ns.deep_view().skip(0) =~= ns.deep_view());
        assert(kept.deep_view() =~= Seq::<Seq<char>>::empty());
    }
    while i < ns.len()
        invariant
            i <= ns@.len(),
            ns@.len() == ns.deep_view().len(),
            kept.deep_view() + md_names(ns.deep_view().skip(i as int)) == md_names(
                ns.deep_view(),
            ),
        decreases ns@.len() - i,
    {
        let ghost rest = ns.deep_view().skip(i as int);
        let ghost cur = ns.deep_view()[i as int];
        proof {
            assert(rest[0] == cur);
            assert(rest.drop_first() =~= ns.deep_view().skip(i as int + 1));
        }
        if crate::catalog::is_md_file(ns[i].as_str()) {
            let ghost before = kept.deep_view();
            let namecopy = ns[i].clone();
            kept.push(namecopy);
            proof {
                assert(kept.deep_view() =~= before.push(cur));
                assert(md_names(rest) == seq![cur] + md_names(
                    ns.deep_view().skip(i as int + 1),
                ));
                assert(kept.deep_view() + md_names(ns.deep_view().skip(i as int + 1)) =~= before
                    + md_names(rest));
            }
        }
        i = i + 1;
    }
    proof {
        assert(ns.deep_view().skip(ns.deep_view().len() as int) =~= Seq::<Seq<char>>::empty());
        assert(kept.deep_view() + Seq::<Seq<char>>::empty() =~= kept.deep_view());
    }
    let sorted = sort_names(kept);
    let ghost us = spec_sort_names(md_names(ns.deep_view()));
    // Build the full list of resource identifiers.
    let mut uris: Vec<String> = Vec::new();
    uris.push(cfg.catalog_uri.clone());
    uris.push(cfg.base_uri.clone());
    let ghost full = seq![cfg@.catalog_uri, cfg@.base_uri] + prefix_all(cfg@.docs_dir, us);
    let mut i: usize = 0;
    proof {
        assert(us.skip(0) =~= us);
        assert(uris.deep_view() =~= seq![cfg@.catalog_uri, cfg@.base_uri]);
        assert(uris.deep_view() + prefix_all(cfg@.docs_dir, us) =~= full);
    }
    while i < sorted.len()
        invariant
            i <= sorted@.len(),
            sorted@.len() == sorted.deep_view().len(),
            sorted.deep_view() == us,
            full == seq![cfg@.catalog_uri, cfg@.base_uri] + prefix_all(cfg@.docs_dir, us),
            uris.deep_view() + prefix_all(cfg@.docs_dir, us.skip(i as int)) == full,
        decreases sorted@.len() - i,
    {
        let ghost rest = us.skip(i as int);
        let ghost cur = us[i as int];
        proof {
            assert(rest[0] == cur);
            assert(rest.drop_first() =~= us.skip(i as int + 1));
        }
        let mut uv: Vec<char> = Vec::new();
        push_str_chars(&mut uv, cfg.docs_dir.as_str());
        uv.push('/');
        proof {
            assert(sorted.deep_view()[i as int] == sorted@[i as int]@);
        }
        push_str_chars(&mut uv, sorted[i].as_str());
        let uri = chars_to_string(&uv);
        let ghost before = uris.deep_view();
        uris.push(uri);
        proof {
            assert(uri@ =~= cfg@.docs_dir + seq!['/'] + cur);
            assert(uris.deep_view() =~= before.push(uri@));
            assert(prefix_all(cfg@.docs_dir, rest) == seq![cfg@.docs_dir + seq!['/'] + cur]
                + prefix_all(cfg@.docs_dir, us.skip(i as int + 1)));
            assert(uris.deep_view() + prefix_all(cfg@.docs_dir, us.skip(i as int + 1)) =~= before
                + prefix_all(cfg@.docs_dir, rest));
        }
        i = i + 1;
    }
    proof {
        assert(us.skip(us.len() as int) =~= Seq::<Seq<char>>::empty());
        assert(uris.deep_view() + Seq::<Seq<char>>::empty() =~= uris.deep_view());
        assert(uris.deep_view() == full);
    }
    // Render the result body.
    let mut body: Vec<char> = Vec::new();
    push_str_chars(&mut body, "{\"resources\":[");
    push_uri_items(&mut body, &uris, 0);
    push_str_chars(&mut body, "]}");
    proof {
        assert(body@ =~= spec_list_body(cfg@, us));
    }
    result_response(id_json, chars_to_string(&body).as_str())
}

/// How a resolved read went; the caller reports it, the library renders it.
#[derive(Debug, PartialEq, Eq)]
pub enum ReadOutcome {
    /// The file's text.
    Contents { text: String },
    /// The resolved path escaped the document directory.
    Denied,
    /// Resolution or reading failed for another reason.
    Failed { message: String },
    /// The identifier names nothing this server serves.
    UnknownResource,
}

/// The mathematical content of a `ReadOutcome`.
pub enum ReadOutcomeView {
    Contents(Seq<char>),
    Denied,
    Failed(Seq<char>),
    UnknownResource,
}

impl View for ReadOutcome {
    type V = ReadOutcomeView;

    open spec fn view(&self) -> ReadOutcomeView {
        match self {
            ReadOutcome::Contents { text } => ReadOutcomeView::Contents(text@),
            ReadOutcome::Denied => ReadOutcomeView::Denied,
            ReadOutcome::Failed { message } => ReadOutcomeView::Failed(message@),
            ReadOutcome::UnknownResource => ReadOutcomeView::UnknownResource,
        }
    }
}

/// The response line for a read: contents on success, and the matching
/// protocol error otherwise.
pub open spec fn spec_read_response(id: Seq<char>, outcome: ReadOutcomeView) -> Seq<char> {
    match outcome {
        ReadOutcomeView::Contents(t) => spec_result_response(
            id,
            "{\"contents\":"@ + json_string(t) + "}"@,
        ),
        ReadOutcomeView::Denied => spec_error_response(id, "-32000"@, "Access denied"@),
        ReadOutcomeView::Failed(m) => spec_error_response(id, "-32000"@, m),
        ReadOutcomeView::UnknownResource => spec_error_response(
            id,
            "-32000"@,
            "Unknown resource"@,
        ),
    }
}

/// Renders the response for a read outcome.
pub fn read_response(id_json: &str, outcome: &ReadOutcome) -> (r: String)
    ensures
        r@ == spec_read_response(id_json@, outcome@),
{
    match outcome {
        ReadOutcome::Contents { text } => {
            let mut body: Vec<char> = Vec::new();
            push_str_chars(&mut body, "{\"contents\":");
            push_json_string(&mut body, text.as_str());
            push_str_chars(&mut body, "}");
            proof {
                assert(body@ =~= "{\"contents\":"@ + json_string(text@) + "}"@);
            }
            result_response(id_json, chars_to_string(&body).as_str())
        },
        ReadOutcome::Denied => error_response(id_json, "-32000", "Access denied"),
        ReadOutcome::Failed { message } => error_response(id_json, "-32000", message.as_str()),
        ReadOutcome::UnknownResource => error_response(id_json, "-32000", "Unknown resource"),
    }
}

} // verus!
