//! A verified core for a markdown-document catalog: a front-matter parser,
//! a catalog builder that produces a deduplicated, sorted, serialized index,
//! and the decision logic of a line-oriented resource server.

use vstd::prelude::*;

pub mod catalog;
pub mod front_matter;
pub mod jsonout;
pub mod meta;
pub mod paths;
pub mod server;
pub mod text;

pub use catalog::{
    collect_persona_entries, generate_index, CatalogError, Index, PersonaEntry, SourceFile,
};
pub use front_matter::{parse_front_matter, FrontMatter, FrontMatterError};
pub use meta::PersonaMeta;
pub use paths::{build_url, validate_relative};

verus! {

} // verus!
