//! Document metadata: the decoded front-matter fields of one document.
//!
//! The metadata block is structured key/value text; decoding it is delegated
//! to an outside YAML parser behind trusted accessors, each named by a spec
//! function of the block's characters alone.  `id` and `name` are required;
//! the remaining fields are optional, and unknown keys are ignored.

use vstd::prelude::*;

verus! {

/// The metadata of one document.  `id` is the unique key; `name` a display
/// name; the rest optional descriptive fields.
#[derive(Debug, PartialEq, Eq, Clone)]
pub struct PersonaMeta {
    pub id: String,
    pub name: String,
    pub description: Option<String>,
    pub tags: Option<Vec<String>>,
    pub author: Option<String>,
    pub created_at: Option<String>,
    pub version: Option<String>,
}

/// The mathematical content of a `PersonaMeta`.
pub struct MetaView {
    pub id: Seq<char>,
    pub name: Seq<char>,
    pub description: Option<Seq<char>>,
    pub tags: Option<Seq<Seq<char>>>,
    pub author: Option<Seq<char>>,
    pub created_at: Option<Seq<char>>,
    pub version: Option<Seq<char>>,
}

impl View for PersonaMeta {
    type V = MetaView;

    open spec fn view(&self) -> MetaView {
        MetaView {
            id: self.id@,
            name: self.name@,
            description: self.description.deep_view(),
            tags: self.tags.deep_view(),
            author: self.author.deep_view(),
            created_at: self.created_at.deep_view(),
            version: self.version.deep_view(),
        }
    }
}

/// The string value at `key` of the top-level YAML mapping in `block`, or
/// `None` when the block does not parse, the key is absent, or the value is
/// not a string.  A function of the text alone.
pub uninterp spec fn yaml_str_field(block: Seq<char>, key: Seq<char>) -> Option<Seq<char>>;

/// The string-sequence value at `key` of the top-level YAML mapping in
/// `block`, or `None` when it is absent or not a sequence of strings.
pub uninterp spec fn yaml_str_list_field(block: Seq<char>, key: Seq<char>) -> Option<Seq<Seq<char>>>;

/// Whether `key` is present in the top-level YAML mapping in `block` with a
/// non-null value.
pub uninterp spec fn yaml_field_defined(block: Seq<char>, key: Seq<char>) -> bool;

/// Relies on `serde_yaml_ng::from_str` and `serde_yaml_ng::Value::{get, as_str}`:
/// the string at `key` of the parsed mapping, a deterministic function of
/// `block` and `key`.
#[verifier::external_body]
fn yaml_string_field(block: &str, key: &str) -> (r: Option<String>)
    ensures
        r is Some <==> yaml_str_field(block@, key@) is Some,
        r matches Some(s) ==> yaml_str_field(block@, key@) == Some(s@),
{
    let doc: serde_yaml_ng::Value = match serde_yaml_ng::from_str(block) {
        Ok(v) => v,
        Err(_) => return None,
    };
    doc.get(key).and_then(|v| v.as_str()).map(|s| s.to_string())
}

/// Relies on `serde_yaml_ng::from_str`, `serde_yaml_ng::Value::get` and
/// `serde_yaml_ng::from_value::<Vec<String>>`: the list of strings at `key`,
/// a deterministic function of `block` and `key`.
#[verifier::external_body]
fn yaml_string_list_field(block: &str, key: &str) -> (r: Option<Vec<String>>)
    ensures
        r is Some <==> yaml_str_list_field(block@, key@) is Some,
        r matches Some(v) ==> yaml_str_list_field(block@, key@) == Some(v.deep_view()),
{
    let doc: serde_yaml_ng::Value = match serde_yaml_ng::from_str(block) {
        Ok(v) => v,
        Err(_) => return None,
    };
    doc.get(key).and_then(|v| serde_yaml_ng::from_value::<Vec<String>>(v.clone()).ok())
}

/// Relies on `serde_yaml_ng::from_str` and `serde_yaml_ng::Value::{get, is_null}`:
/// whether `key` is present with a non-null value, a deterministic function
/// of `block` and `key`.
#[verifier::external_body]
fn yaml_defined_field(block: &str, key: &str) -> (r: bool)
    ensures
        r == yaml_field_defined(block@, key@),
{
    match serde_yaml_ng::from_str::<serde_yaml_ng::Value>(block) {
        Ok(doc) => match doc.get(key) {
            Some(v) => !v.is_null(),
            None => false,
        },
        Err(_) => false,
    }
}

/// Whether `block` decodes to metadata: both required fields are strings,
/// and every optional field that is present has the expected shape.
pub open spec fn spec_meta_decodes(b: Seq<char>) -> bool {
    &&& yaml_str_field(b, "id"@) is Some
    &&& yaml_str_field(b, "name"@) is Some
    &&& yaml_field_defined(b, "description"@) ==> yaml_str_field(b, "description"@) is Some
    &&& yaml_field_defined(b, "tags"@) ==> yaml_str_list_field(b, "tags"@) is Some
    &&& yaml_field_defined(b, "author"@) ==> yaml_str_field(b, "author"@) is Some
    &&& yaml_field_defined(b, "created_at"@) ==> yaml_str_field(b, "created_at"@) is Some
    &&& yaml_field_defined(b, "version"@) ==> yaml_str_field(b, "version"@) is Some
}

/// The metadata decoded from `b`, meaningful when `spec_meta_decodes(b)`.
pub open spec fn spec_decode_meta(b: Seq<char>) -> MetaView {
    MetaView {
        id: yaml_str_field(b, "id"@).unwrap(),
        name: yaml_str_field(b, "name"@).unwrap(),
        description: yaml_str_field(b, "description"@),
        tags: yaml_str_list_field(b, "tags"@),
        author: yaml_str_field(b, "author"@),
        created_at: yaml_str_field(b, "created_at"@),
        version: yaml_str_field(b, "version"@),
    }
}

/// Decodes a front-matter block into metadata, or `None` when a required
/// field is missing or a present field has the wrong shape.
pub fn decode_meta(block: &str) -> (r: Option<PersonaMeta>)
    ensures
        r is Some <==> spec_meta_decodes(block@),
        r matches Some(m) ==> m@ == spec_decode_meta(block@),
{
    let id = match yaml_string_field(block, "id") {
        Some(s) => s,
        None => {
            return None;
        },
    };
    let name = match yaml_string_field(block, "name") {
        Some(s) => s,
        None => {
            return None;
        },
    };
    let description = yaml_string_field(block, "description");
    if description.is_none() && yaml_defined_field(block, "description") {
        return None;
    }
    let tags = yaml_string_list_field(block, "tags");
    if tags.is_none() && yaml_defined_field(block, "tags") {
        return None;
    }
    let author = yaml_string_field(block, "author");
    if author.is_none() && yaml_defined_field(block, "author") {
        return None;
    }
    let created_at = yaml_string_field(block, "created_at");
    if created_at.is_none() && yaml_defined_field(block, "created_at") {
        return None;
    }
    let version = yaml_string_field(block, "version");
    if version.is_none() && yaml_defined_field(block, "version") {
        return None;
    }
    Some(PersonaMeta { id, name, description, tags, author, created_at, version })
}

} // verus!
