use personas_core::catalog::{
    collect_persona_entries, generate_index, CatalogError, SourceFile,
};

fn file(name: &str, content: &str) -> SourceFile {
    SourceFile { name: name.to_string(), content: content.to_string() }
}

const BASE_URL: &str = "https://example.invalid/base";

#[test]
fn generates_index_with_expected_fields() {
    let files = vec![
        file("ONE.md", "---\nid: one\nname: One\ndescription: First\n---\nbody\n"),
        file("TWO.md", "---\nid: two\nname: Two\n---\nbody\n"),
    ];
    let (index, text) =
        generate_index(&files, "/repo/personas", "/repo/AGENTS.md", BASE_URL).expect("build");
    assert_eq!(index.base_uri, "AGENTS.md");
    assert_eq!(index.personas.len(), 2);
    let ids: Vec<&str> = index.personas.iter().map(|e| e.meta.id.as_str()).collect();
    assert_eq!(ids, vec!["one", "two"]);
    let uris: Vec<&str> = index.personas.iter().map(|e| e.uri.as_str()).collect();
    assert_eq!(
        uris,
        vec![
            "https://example.invalid/base/personas/ONE.md",
            "https://example.invalid/base/personas/TWO.md",
        ]
    );
    assert_eq!(index.personas[0].meta.name, "One");
    assert_eq!(index.personas[0].meta.description.as_deref(), Some("First"));
    // The serialized catalog decodes back to the same fields.
    let parsed: serde_json::Value = serde_json::from_str(&text).expect("valid JSON");
    assert_eq!(parsed["base_uri"], serde_json::Value::String("AGENTS.md".to_string()));
    let personas = parsed["personas"].as_array().expect("personas array");
    assert_eq!(personas.len(), 2);
    assert_eq!(personas[0]["id"].as_str(), Some("one"));
    assert_eq!(personas[0]["name"].as_str(), Some("One"));
    assert_eq!(personas[0]["description"].as_str(), Some("First"));
    assert!(personas[0]["tags"].is_null());
    assert_eq!(personas[1]["id"].as_str(), Some("two"));
    assert!(personas[1]["description"].is_null());
    assert!(text.ends_with('\n'));
}

#[test]
fn uris_end_with_their_file_names() {
    let files = vec![
        file("ONE.md", "---\nid: one\nname: One\n---\nbody\n"),
        file("TWO.md", "---\nid: two\nname: Two\n---\nbody\n"),
    ];
    let (index, _) = generate_index(&files, "personas", "AGENTS.md", BASE_URL).expect("build");
    let ids: Vec<&str> = index.personas.iter().map(|e| e.meta.id.as_str()).collect();
    assert_eq!(ids, vec!["one", "two"]);
    assert!(index.personas[0].uri.ends_with("/ONE.md"));
    assert!(index.personas[1].uri.ends_with("/TWO.md"));
}

#[test]
fn catalog_text_is_exact_for_one_document() {
    let files = vec![file("ONE.md", "---\nid: one\nname: One\ndescription: First\n---\nbody\n")];
    let (_, text) =
        generate_index(&files, "/repo/personas", "/repo/AGENTS.md", BASE_URL).expect("build");
    let expected = "{\n  \"base_uri\": \"AGENTS.md\",\n  \"personas\": [\n    {\n      \"id\": \"one\",\n      \"name\": \"One\",\n      \"description\": \"First\",\n      \"tags\": null,\n      \"author\": null,\n      \"created_at\": null,\n      \"version\": null,\n      \"uri\": \"https://example.invalid/base/personas/ONE.md\"\n    }\n  ]\n}\n";
    assert_eq!(text, expected);
}

#[test]
fn empty_directory_yields_empty_catalog() {
    let files: Vec<SourceFile> = Vec::new();
    let (index, text) =
        generate_index(&files, "/repo/personas", "/repo/AGENTS.md", BASE_URL).expect("build");
    assert!(index.personas.is_empty());
    assert_eq!(text, "{\n  \"base_uri\": \"AGENTS.md\",\n  \"personas\": []\n}\n");
}

#[test]
fn entries_are_sorted_by_id_regardless_of_input_order() {
    let a = file("A.md", "---\nid: zebra\nname: Z\n---\n");
    let b = file("B.md", "---\nid: alpha\nname: A\n---\n");
    let c = file("C.md", "---\nid: middle\nname: M\n---\n");
    let files = vec![a, b, c];
    let (index, _) = generate_index(&files, "personas", "AGENTS.md", BASE_URL).expect("build");
    let ids: Vec<&str> = index.personas.iter().map(|e| e.meta.id.as_str()).collect();
    assert_eq!(ids, vec!["alpha", "middle", "zebra"]);
}

#[test]
fn enumeration_order_gives_byte_identical_catalogs() {
    let one = file("ONE.md", "---\nid: one\nname: One\n---\nbody\n");
    let two = file("TWO.md", "---\nid: two\nname: Two\n---\nbody\n");
    let three = file("THREE.md", "---\nid: three\nname: Three\n---\nbody\n");
    let order1 = vec![one, two, three];
    let order2 = vec![
        file("THREE.md", "---\nid: three\nname: Three\n---\nbody\n"),
        file("ONE.md", "---\nid: one\nname: One\n---\nbody\n"),
        file("TWO.md", "---\nid: two\nname: Two\n---\nbody\n"),
    ];
    let (_, t1) = generate_index(&order1, "personas", "AGENTS.md", BASE_URL).expect("build");
    let (_, t2) = generate_index(&order2, "personas", "AGENTS.md", BASE_URL).expect("build");
    assert_eq!(t1, t2);
}

#[test]
fn rebuilding_unchanged_documents_is_idempotent() {
    let files = vec![
        file("ONE.md", "---\nid: one\nname: One\n---\nbody\n"),
        file("TWO.md", "---\nid: two\nname: Two\n---\nbody\n"),
    ];
    let (_, t1) = generate_index(&files, "personas", "AGENTS.md", BASE_URL).expect("build");
    let (_, t2) = generate_index(&files, "personas", "AGENTS.md", BASE_URL).expect("build");
    assert_eq!(t1, t2);
}

#[test]
fn duplicate_id_fails_naming_both_files() {
    let files = vec![
        file("ONE.md", "---\nid: same\nname: One\n---\n"),
        file("TWO.md", "---\nid: same\nname: Two\n---\n"),
    ];
    let err = generate_index(&files, "personas", "AGENTS.md", BASE_URL).unwrap_err();
    match err {
        CatalogError::Duplicate { id, first, duplicate } => {
            assert_eq!(id, "same");
            let mut paths = vec![first, duplicate];
            paths.sort();
            assert_eq!(paths, vec!["personas/ONE.md", "personas/TWO.md"]);
        }
        other => panic!("expected a duplicate error, got {:?}", other),
    }
}

#[test]
fn broken_front_matter_fails_with_its_path() {
    let files = vec![
        file("GOOD.md", "---\nid: good\nname: Good\n---\n"),
        file("BAD.md", "no front matter here\n"),
    ];
    let err = generate_index(&files, "personas", "AGENTS.md", BASE_URL).unwrap_err();
    match err {
        CatalogError::FrontMatter { path, source } => {
            assert_eq!(path, "personas/BAD.md");
            assert_eq!(source, personas_core::FrontMatterError::Missing);
        }
        other => panic!("expected a front-matter error, got {:?}", other),
    }
}

#[test]
fn missing_required_field_fails_decoding() {
    let files = vec![file("ONE.md", "---\nid: one\n---\nbody\n")];
    let err = generate_index(&files, "personas", "AGENTS.md", BASE_URL).unwrap_err();
    match err {
        CatalogError::Decode { path } => assert_eq!(path, "personas/ONE.md"),
        other => panic!("expected a decode error, got {:?}", other),
    }
}

#[test]
fn mistyped_optional_field_fails_decoding() {
    let files = vec![file("ONE.md", "---\nid: one\nname: One\ndescription: [1, 2]\n---\n")];
    let err = generate_index(&files, "personas", "AGENTS.md", BASE_URL).unwrap_err();
    assert!(matches!(err, CatalogError::Decode { .. }));
}

#[test]
fn unknown_fields_are_ignored_and_optionals_decoded() {
    let files = vec![file(
        "ONE.md",
        "---\nid: one\nname: One\ntags:\n  - a\n  - b\nauthor: someone\nextra: ignored\n---\n",
    )];
    let entries = collect_persona_entries(&files, "personas", BASE_URL).expect("collect");
    assert_eq!(entries.len(), 1);
    let meta = &entries[0].meta;
    assert_eq!(meta.id, "one");
    assert_eq!(meta.name, "One");
    assert_eq!(meta.tags, Some(vec!["a".to_string(), "b".to_string()]));
    assert_eq!(meta.author.as_deref(), Some("someone"));
    assert_eq!(meta.description, None);
    assert_eq!(meta.version, None);
}

#[test]
fn null_optional_field_decodes_as_absent() {
    let files = vec![file("ONE.md", "---\nid: one\nname: One\ndescription:\n---\n")];
    let entries = collect_persona_entries(&files, "personas", BASE_URL).expect("collect");
    assert_eq!(entries[0].meta.description, None);
}

#[test]
fn non_markdown_files_are_skipped() {
    let files = vec![
        file("notes.txt", "not a document"),
        file("catalog.json", "{}"),
        file("ONE.md", "---\nid: one\nname: One\n---\n"),
        file(".md", "---\nid: hidden\nname: H\n---\n"),
    ];
    let entries = collect_persona_entries(&files, "personas", BASE_URL).expect("collect");
    assert_eq!(entries.len(), 1);
    assert_eq!(entries[0].meta.id, "one");
}

#[test]
fn metadata_strings_survive_serialization_exactly() {
    let files = vec![file(
        "ONE.md",
        "---\nid: \"weird \\\"quoted\\\" id\"\nname: \"line\\nbreak\"\n---\n",
    )];
    let (index, text) = generate_index(&files, "personas", "AGENTS.md", BASE_URL).expect("build");
    let parsed: serde_json::Value = serde_json::from_str(&text).expect("valid JSON");
    assert_eq!(
        parsed["personas"][0]["id"].as_str(),
        Some(index.personas[0].meta.id.as_str())
    );
    assert_eq!(parsed["personas"][0]["id"].as_str(), Some("weird \"quoted\" id"));
    assert_eq!(parsed["personas"][0]["name"].as_str(), Some("line\nbreak"));
}

#[test]
fn persona_uris_lists_locators_in_catalog_order() {
    let files = vec![
        file("B.md", "---\nid: b\nname: B\n---\n"),
        file("A.md", "---\nid: a\nname: A\n---\n"),
    ];
    let (index, _) = generate_index(&files, "personas", "AGENTS.md", BASE_URL).expect("build");
    let uris = index.persona_uris();
    assert_eq!(
        uris,
        vec![
            "https://example.invalid/base/personas/A.md".to_string(),
            "https://example.invalid/base/personas/B.md".to_string(),
        ]
    );
}

#[test]
fn error_messages_name_the_offending_path() {
    let err = CatalogError::Duplicate {
        id: "x".to_string(),
        first: "personas/A.md".to_string(),
        duplicate: "personas/B.md".to_string(),
    };
    let msg = err.message();
    assert!(msg.contains("personas/A.md"));
    assert!(msg.contains("personas/B.md"));
    assert!(msg.contains("`x`"));
    let io = CatalogError::Io { path: "p/q".to_string(), message: "denied".to_string() };
    assert!(io.message().contains("p/q"));
    assert!(io.message().contains("denied"));
}

#[test]
fn base_uri_falls_back_to_the_given_path() {
    let files: Vec<SourceFile> = Vec::new();
    let (index, _) =
        generate_index(&files, "/repo/personas", "/elsewhere/AGENTS.md", BASE_URL).expect("build");
    assert_eq!(index.base_uri, "/elsewhere/AGENTS.md");
}

#[test]
fn base_url_trailing_slashes_are_trimmed() {
    let files = vec![file("ONE.md", "---\nid: one\nname: One\n---\n")];
    let (index, _) =
        generate_index(&files, "personas", "AGENTS.md", "https://example.invalid/base///")
            .expect("build");
    assert_eq!(index.personas[0].uri, "https://example.invalid/base/personas/ONE.md");
}
