//! Serialized JSON text, built character by character against an exact
//! specification: string escaping, and helpers the catalog writer and the
//! server's responses share.

use vstd::prelude::*;

use crate::catalog::{EntryView, Index, IndexView, PersonaEntry};
use crate::text::{chars_to_string, push_str_chars, str_chars};

verus! {

/// The lower-case hexadecimal digit for `n` (0 to 15).
pub open spec fn hex_digit(n: int) -> char {
    if n == 0 {
        '0'
    } else if n == 1 {
        '1'
    } else if n == 2 {
        '2'
    } else if n == 3 {
        '3'
    } else if n == 4 {
        '4'
    } else if n == 5 {
        '5'
    } else if n == 6 {
        '6'
    } else if n == 7 {
        '7'
    } else if n == 8 {
        '8'
    } else if n == 9 {
        '9'
    } else if n == 10 {
        'a'
    } else if n == 11 {
        'b'
    } else if n == 12 {
        'c'
    } else if n == 13 {
        'd'
    } else if n == 14 {
        'e'
    } else {
        'f'
    }
}

/// How one character appears inside a JSON string literal: quotes,
/// backslashes and the named control characters get two-character escapes,
/// other control characters a `\u00..` escape, everything else itself.
pub open spec fn esc_char(c: char) -> Seq<char> {
    if c == '"' {
        seq!['\\', '"']
    } else if c == '\\' {
        seq!['\\', '\\']
    } else if c == '\n' {
        seq!['\\', 'n']
    } else if c == '\r' {
        seq!['\\', 'r']
    } else if c == '\t' {
        seq!['\\', 't']
    } else if (c as u32) < 0x20 {
        seq!['\\', 'u', '0', '0', hex_digit((c as u32) as int / 16), hex_digit(
            (c as u32) as int % 16,
        )]
    } else {
        seq![c]
    }
}

/// The body of a JSON string literal for `s`.
pub open spec fn json_escape(s: Seq<char>) -> Seq<char>
    decreases s.len(),
{
    if s.len() == 0 {
        Seq::empty()
    } else {
        esc_char(s[0]) + json_escape(s.drop_first())
    }
}

/// The JSON string literal for `s`, quotes included.
pub open spec fn json_string(s: Seq<char>) -> Seq<char> {
    seq!['"'] + json_escape(s) + seq!['"']
}

/// Escaping appends one block per character.
pub proof fn lemma_json_escape_push(s: Seq<char>, c: char)
    ensures
        json_escape(s.push(c)) == json_escape(s) + esc_char(c),
    decreases s.len(),
{
    if s.len() == 0 {
        assert(s.push(c)[0] == c);
        assert(s.push(c).drop_first() =~= Seq::<char>::empty());
        assert(json_escape(Seq::<char>::empty()) =~= Seq::<char>::empty());
        assert(json_escape(s.push(c)) =~= esc_char(c));
        assert(json_escape(s) + esc_char(c) =~= esc_char(c));
    } else {
        lemma_json_escape_push(s.drop_first(), c);
        assert(s.push(c).drop_first() =~= s.drop_first().push(c));
        assert(s.push(c)[0] == s[0]);
        assert(json_escape(s.push(c)) =~= json_escape(s) + esc_char(c));
    }
}

/// The lower-case hexadecimal digit for `n`.
fn hex_digit_exec(n: u32) -> (r: char)
    requires
        n < 16,
    ensures
        r == hex_digit(n as int),
{
    if n == 0 {
        '0'
    } else if n == 1 {
        '1'
    } else if n == 2 {
        '2'
    } else if n == 3 {
        '3'
    } else if n == 4 {
        '4'
    } else if n == 5 {
        '5'
    } else if n == 6 {
        '6'
    } else if n == 7 {
        '7'
    } else if n == 8 {
        '8'
    } else if n == 9 {
        '9'
    } else if n == 10 {
        'a'
    } else if n == 11 {
        'b'
    } else if n == 12 {
        'c'
    } else if n == 13 {
        'd'
    } else if n == 14 {
        'e'
    } else {
        'f'
    }
}

/// Appends the escaped form of `c`.
fn push_esc_char(out: &mut Vec<char>, c: char)
    ensures
        final (out)@ == old(out)@ + esc_char(c),
{
    if c == '"' {
        out.push('\\');
        out.push('"');
    } else if c == '\\' {
        out.push('\\');
        out.push('\\');
    } else if c == '\n' {
        out.push('\\');
        out.push('n');
    } else if c == '\r' {
        out.push('\\');
        out.push('r');
    } else if c == '\t' {
        out.push('\\');
        out.push('t');
    } else if (c as u32) < 0x20 {
        let u = c as u32;
        out.push('\\');
        out.push('u');
        out.push('0');
        out.push('0');
        out.push(hex_digit_exec(u / 16));
        out.push(hex_digit_exec(u % 16));
    } else {
        out.push(c);
    }
    assert(out@ =~= old(out)@ + esc_char(c));
}

/// Appends the JSON string literal for `s`, quotes included.
pub fn push_json_string(out: &mut Vec<char>, s: &str)
    ensures
        final (out)@ == old(out)@ + json_string(s@),
{
    let v = str_chars(s);
    out.push('"');
    let mut i: usize = 0;
    proof {
        assert(s@.take(0) =~= Seq::<char>::empty());
        assert(out@ =~= old(out)@ + seq!['"'] + json_escape(s@.take(0)));
    }
    while i < v.len()
        invariant
            v@ == s@,
            i <= v@.len(),
            out@ == old(out)@ + seq!['"'] + json_escape(s@.take(i as int)),
        decreases v@.len() - i,
    {
        let c = v[i];
        push_esc_char(out, c);
        proof {
            assert(s@.take(i as int + 1) =~= s@.take(i as int).push(c));
            lemma_json_escape_push(s@.take(i as int), c);
            assert(out@ =~= old(out)@ + seq!['"'] + json_escape(s@.take(i as int + 1)));
        }
        i = i + 1;
    }
    out.push('"');
    proof {
        assert(s@.take(s@.len() as int) =~= s@);
        assert(out@ =~= old(out)@ + json_string(s@));
    }
}

/// Appends either the JSON string literal for `s` or the word `null`.
pub fn push_json_opt_string(out: &mut Vec<char>, s: &Option<String>)
    ensures
        final (out)@ == old(out)@ + json_opt_string(s.deep_view()),
{
    match s {
        Some(v) => {
            push_json_string(out, v.as_str());
        },
        None => {
            push_str_chars(out, "null");
        },
    }
}

/// A JSON string literal for a present value, the word `null` for an
/// absent one.
pub open spec fn json_opt_string(s: Option<Seq<char>>) -> Seq<char> {
    match s {
        Some(v) => json_string(v),
        None => "null"@,
    }
}

/// The elements of a tag array from index `i` on, one per line, indented
/// inside an entry, with commas between.
pub open spec fn json_tag_items(xs: Seq<Seq<char>>, i: int) -> Seq<char>
    decreases xs.len() - i when 0 <= i < xs.len()
{
    "        "@ + json_string(xs[i]) + if i + 1 < xs.len() {
        ",\n"@ + json_tag_items(xs, i + 1)
    } else {
        "\n"@
    }
}

/// A tag list: `null` when absent, `[]` when empty, else one string per
/// line.
pub open spec fn json_tags(t: Option<Seq<Seq<char>>>) -> Seq<char> {
    match t {
        None => "null"@,
        Some(xs) => if xs.len() == 0 {
            "[]"@
        } else {
            "[\n"@ + json_tag_items(xs, 0) + "      ]"@
        },
    }
}

/// One catalog entry as a pretty-printed JSON object: the metadata fields
/// in declaration order, then the locator.
pub open spec fn json_entry(e: EntryView) -> Seq<char> {
    "    {\n      \"id\": "@ + json_string(e.meta.id) + ",\n      \"name\": "@ + json_string(
        e.meta.name,
    ) + json_entry_rest(e)
}

/// The serialized entry after its name field.
pub open spec fn json_entry_rest(e: EntryView) -> Seq<char> {
    ",\n      \"description\": "@ + json_opt_string(e.meta.description) + ",\n      \"tags\": "@
        + json_tags(e.meta.tags) + ",\n      \"author\": "@ + json_opt_string(e.meta.author)
        + ",\n      \"created_at\": "@ + json_opt_string(e.meta.created_at)
        + ",\n      \"version\": "@ + json_opt_string(e.meta.version) + ",\n      \"uri\": "@
        + json_string(e.uri) + "\n    }"@
}

/// The entries from index `i` on, with commas between.
pub open spec fn json_entries(es: Seq<EntryView>, i: int) -> Seq<char>
    decreases es.len() - i when 0 <= i < es.len()
{
    json_entry(es[i]) + if i + 1 < es.len() {
        ",\n"@ + json_entries(es, i + 1)
    } else {
        Seq::<char>::empty()
    }
}

/// The whole catalog as pretty-printed JSON with a trailing newline.
pub open spec fn spec_catalog_json(iv: IndexView) -> Seq<char> {
    "{\n  \"base_uri\": "@ + json_string(iv.base_uri) + ",\n  \"personas\": "@ + (if iv.personas.len()
        == 0 {
        "[]"@
    } else {
        "[\n"@ + json_entries(iv.personas, 0) + "\n  ]"@
    }) + "\n}\n"@
}

/// Appends the tag array elements from index `i` on.
fn push_tag_items(out: &mut Vec<char>, xs: &Vec<String>, i: usize)
    requires
        i < xs@.len(),
    ensures
        final (out)@ == old(out)@ + json_tag_items(xs.deep_view(), i as int),
    decreases xs@.len() - i,
{
    proof {
        assert(xs.deep_view().len() == xs@.len());
        assert(xs.deep_view()[i as int] == xs@[i as int]@);
    }
    let n = xs.len();
    push_str_chars(out, "        ");
    push_json_string(out, xs[i].as_str());
    if i + 1 < n {
        push_str_chars(out, ",\n");
        push_tag_items(out, xs, i + 1);
    } else {
        push_str_chars(out, "\n");
    }
    assert(out@ =~= old(out)@ + json_tag_items(xs.deep_view(), i as int));
}

/// Appends the tag list for `t`.
fn push_tags(out: &mut Vec<char>, t: &Option<Vec<String>>)
    ensures
        final (out)@ == old(out)@ + json_tags(t.deep_view()),
{
    match t {
        None => {
            push_str_chars(out, "null");
        },
        Some(xs) => {
            if xs.len() == 0 {
                proof {
                    assert(xs.deep_view().len() == xs@.len());
                }
                push_str_chars(out, "[]");
            } else {
                push_str_chars(out, "[\n");
                push_tag_items(out, xs, 0);
                push_str_chars(out, "      ]");
                assert(out@ =~= old(out)@ + json_tags(t.deep_view()));
            }
        },
    }
}

/// Appends one catalog entry.
#[verifier::rlimit(60)]
fn push_entry(out: &mut Vec<char>, e: &PersonaEntry)
    ensures
        final (out)@ == old(out)@ + json_entry(e@),
{
    push_str_chars(out, "    {\n      \"id\": ");
    push_json_string(out, e.meta.id.as_str());
    push_str_chars(out, ",\n      \"name\": ");
    push_json_string(out, e.meta.name.as_str());
    push_str_chars(out, ",\n      \"description\": ");
    push_json_opt_string(out, &e.meta.description);
    push_str_chars(out, ",\n      \"tags\": ");
    push_tags(out, &e.meta.tags);
    push_str_chars(out, ",\n      \"author\": ");
    push_json_opt_string(out, &e.meta.author);
    push_str_chars(out, ",\n      \"created_at\": ");
    push_json_opt_string(out, &e.meta.created_at);
    push_str_chars(out, ",\n      \"version\": ");
    push_json_opt_string(out, &e.meta.version);
    push_str_chars(out, ",\n      \"uri\": ");
    push_json_string(out, e.uri.as_str());
    push_str_chars(out, "\n    }");
    assert(out@ =~= old(out)@ + json_entry(e@));
}

/// Appends the entries from index `i` on, with commas between.
fn push_entries(out: &mut Vec<char>, es: &Vec<PersonaEntry>, i: usize)
    requires
        i < es@.len(),
    ensures
        final (out)@ == old(out)@ + json_entries(es.deep_view(), i as int),
    decreases es@.len() - i,
{
    proof {
        assert(es.deep_view().len() == es@.len());
        assert(es.deep_view()[i as int] == es@[i as int].deep_view());
    }
    let n = es.len();
    push_entry(out, &es[i]);
    if i + 1 < n {
        push_str_chars(out, ",\n");
        push_entries(out, es, i + 1);
    }
    assert(out@ =~= old(out)@ + json_entries(es.deep_view(), i as int));
}

/// Whether `c` appears in a JSON string literal as itself.
pub open spec fn esc_ordinary(c: char) -> bool {
    c != '"' && c != '\\' && c != '\n' && c != '\r' && c != '\t' && (c as u32) >= 0x20
}

/// Whether `c` gets a two-character escape.
pub open spec fn esc_named(c: char) -> bool {
    c == '"' || c == '\\' || c == '\n' || c == '\r' || c == '\t'
}

/// Two escaped characters at the head of equal texts are the same
/// character, and the texts agree after them.
proof fn lemma_esc_char_head(c1: char, c2: char, r1: Seq<char>, r2: Seq<char>)
    requires
        esc_char(c1) + r1 == esc_char(c2) + r2,
    ensures
        c1 == c2,
        r1 == r2,
{
    let t = esc_char(c1) + r1;
    if esc_ordinary(c1) && esc_ordinary(c2) {
        assert(t[0] == c1);
        assert(t[0] == c2);
        assert(r1 =~= t.skip(1));
        assert(r2 =~= t.skip(1));
    } else if esc_ordinary(c1) {
        assert(t[0] == c1);
        assert(t[0] == '\\');
    } else if esc_ordinary(c2) {
        assert(t[0] == c2);
        assert(t[0] == '\\');
    } else if esc_named(c1) && esc_named(c2) {
        assert(t[1] == esc_char(c1)[1]);
        assert(t[1] == esc_char(c2)[1]);
        assert(c1 == c2);
        assert(r1 =~= t.skip(2));
        assert(r2 =~= t.skip(2));
    } else if esc_named(c1) {
        assert(t[1] == esc_char(c1)[1]);
        assert(t[1] == 'u');
    } else if esc_named(c2) {
        assert(t[1] == esc_char(c2)[1]);
        assert(t[1] == 'u');
    } else {
        let u1 = c1 as u32;
        let u2 = c2 as u32;
        assert(t[4] == hex_digit(u1 as int / 16));
        assert(t[4] == hex_digit(u2 as int / 16));
        assert(t[5] == hex_digit(u1 as int % 16));
        assert(t[5] == hex_digit(u2 as int % 16));
        assert(u1 as int / 16 == u2 as int / 16);
        assert(u1 as int % 16 == u2 as int % 16);
        assert(u1 == u2);
        assert(c1 == c2);
        assert(r1 =~= t.skip(6));
        assert(r2 =~= t.skip(6));
    }
}

/// A JSON string literal is self-delimiting: equal texts that both start
/// with a literal carry the same string and agree after it.
pub proof fn lemma_json_string_self_delim(a: Seq<char>, b: Seq<char>, x: Seq<char>, y: Seq<char>)
    requires
        json_string(a) + x == json_string(b) + y,
    ensures
        a == b,
        x == y,
{
    let ta = json_escape(a) + seq!['"'] + x;
    let tb = json_escape(b) + seq!['"'] + y;
    assert(ta =~= (json_string(a) + x).skip(1));
    assert(tb =~= (json_string(b) + y).skip(1));
    lemma_escape_then_quote(a, b, x, y);
}

/// The escaped body runs to the first unescaped quote: equal texts of the
/// form body-quote-rest determine the body and the rest.
proof fn lemma_escape_then_quote(a: Seq<char>, b: Seq<char>, x: Seq<char>, y: Seq<char>)
    requires
        json_escape(a) + seq!['"'] + x == json_escape(b) + seq!['"'] + y,
    ensures
        a == b,
        x == y,
    decreases a.len(),
{
    let t = json_escape(a) + seq!['"'] + x;
    if a.len() == 0 && b.len() == 0 {
        assert(json_escape(a) =~= Seq::<char>::empty());
        assert(json_escape(b) =~= Seq::<char>::empty());
        assert(x =~= t.skip(1));
        assert(y =~= t.skip(1));
    } else if a.len() == 0 {
        assert(json_escape(a) =~= Seq::<char>::empty());
        assert(t[0] == '"');
        assert(t[0] == (esc_char(b[0]) + (json_escape(b.drop_first()) + seq!['"'] + y))[0]) by {
            assert(json_escape(b) == esc_char(b[0]) + json_escape(b.drop_first()));
            assert(t =~= esc_char(b[0]) + (json_escape(b.drop_first()) + seq!['"'] + y));
        }
        if esc_ordinary(b[0]) {
            assert(esc_char(b[0])[0] == b[0]);
            assert(b[0] == '"');
        } else {
            assert(esc_char(b[0])[0] == '\\');
        }
    } else if b.len() == 0 {
        assert(json_escape(b) =~= Seq::<char>::empty());
        assert(t[0] == '"');
        assert(t =~= esc_char(a[0]) + (json_escape(a.drop_first()) + seq!['"'] + x)) by {
            assert(json_escape(a) == esc_char(a[0]) + json_escape(a.drop_first()));
        }
        if esc_ordinary(a[0]) {
            assert(esc_char(a[0])[0] == a[0]);
            assert(a[0] == '"');
        } else {
            assert(esc_char(a[0])[0] == '\\');
        }
    } else {
        assert(json_escape(a) == esc_char(a[0]) + json_escape(a.drop_first()));
        assert(json_escape(b) == esc_char(b[0]) + json_escape(b.drop_first()));
        assert(esc_char(a[0]) + (json_escape(a.drop_first()) + seq!['"'] + x) =~= t);
        assert(esc_char(b[0]) + (json_escape(b.drop_first()) + seq!['"'] + y) =~= json_escape(b)
            + seq!['"'] + y);
        lemma_esc_char_head(
            a[0],
            b[0],
            json_escape(a.drop_first()) + seq!['"'] + x,
            json_escape(b.drop_first()) + seq!['"'] + y,
        );
        lemma_escape_then_quote(a.drop_first(), b.drop_first(), x, y);
        assert(a =~= seq![a[0]] + a.drop_first());
        assert(b =~= seq![b[0]] + b.drop_first());
    }
}

/// Serialization is faithful to the required fields: two entries whose
/// serialized forms are equal have the same id and the same name, exactly.
/// Together with the parser's and decoder's contracts this says that
/// parsing a document and re-serializing its metadata keeps `id` and
/// `name` intact.
pub proof fn lemma_entry_json_faithful(e1: EntryView, e2: EntryView)
    requires
        json_entry(e1) == json_entry(e2),
    ensures
        e1.meta.id == e2.meta.id,
        e1.meta.name == e2.meta.name,
{
    let l1 = "    {\n      \"id\": "@;
    let l2 = ",\n      \"name\": "@;
    let rest1 = json_string(e1.meta.id) + (l2 + json_string(e1.meta.name) + json_entry_rest(e1));
    let rest2 = json_string(e2.meta.id) + (l2 + json_string(e2.meta.name) + json_entry_rest(e2));
    assert(json_entry(e1) =~= l1 + rest1);
    assert(json_entry(e2) =~= l1 + rest2);
    assert(rest1 =~= json_entry(e1).skip(l1.len() as int));
    assert(rest2 =~= json_entry(e2).skip(l1.len() as int));
    lemma_json_string_self_delim(
        e1.meta.id,
        e2.meta.id,
        l2 + json_string(e1.meta.name) + json_entry_rest(e1),
        l2 + json_string(e2.meta.name) + json_entry_rest(e2),
    );
    let m1 = l2 + json_string(e1.meta.name) + json_entry_rest(e1);
    let m2 = l2 + json_string(e2.meta.name) + json_entry_rest(e2);
    assert(json_string(e1.meta.name) + json_entry_rest(e1) =~= m1.skip(l2.len() as int));
    assert(json_string(e2.meta.name) + json_entry_rest(e2) =~= m2.skip(l2.len() as int));
    lemma_json_string_self_delim(
        e1.meta.name,
        e2.meta.name,
        json_entry_rest(e1),
        json_entry_rest(e2),
    );
}

/// Serializes the catalog: pretty-printed JSON, two-space indent, entries
/// in catalog order, trailing newline.
pub fn catalog_json(idx: &Index) -> (r: String)
    ensures
        r@ == spec_catalog_json(idx@),
{
    let mut out: Vec<char> = Vec::new();
    push_str_chars(&mut out, "{\n  \"base_uri\": ");
    push_json_string(&mut out, idx.base_uri.as_str());
    push_str_chars(&mut out, ",\n  \"personas\": ");
    if idx.personas.len() == 0 {
        proof {
            assert(idx.personas.deep_view().len() == idx.personas@.len());
        }
        push_str_chars(&mut out, "[]");
    } else {
        push_str_chars(&mut out, "[\n");
        push_entries(&mut out, &idx.personas, 0);
        push_str_chars(&mut out, "\n  ]");
    }
    push_str_chars(&mut out, "\n}\n");
    assert(out@ =~= spec_catalog_json(idx@));
    chars_to_string(&out)
}

} // verus!
