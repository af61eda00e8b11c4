use personas_core::paths::path_is_within;
use personas_core::server::{
    classify_resource, list_response, plan_line, read_response, DirListing, LinePlan, ReadOutcome,
    ResourceKind, ServerConfig,
};

fn config() -> ServerConfig {
    ServerConfig {
        catalog_uri: "avatars.json".to_string(),
        base_uri: "AGENTS.md".to_string(),
        docs_dir: "avatars".to_string(),
    }
}

#[test]
fn blank_lines_are_ignored() {
    assert_eq!(plan_line(""), LinePlan::Ignore);
    assert_eq!(plan_line("   \t  "), LinePlan::Ignore);
}

#[test]
fn malformed_json_line_gets_parse_error() {
    let plan = plan_line("{not json");
    match plan {
        LinePlan::Reply { response } => {
            let v: serde_json::Value = serde_json::from_str(&response).expect("valid JSON");
            assert_eq!(v["jsonrpc"].as_str(), Some("2.0"));
            assert!(v["id"].is_null());
            assert_eq!(v["error"]["code"].as_i64(), Some(-32700));
            assert!(v.get("result").is_none());
        }
        other => panic!("expected a reply, got {:?}", other),
    }
}

#[test]
fn initialize_is_answered_in_place() {
    let plan = plan_line("{\"jsonrpc\":\"2.0\",\"id\":7,\"method\":\"initialize\"}");
    match plan {
        LinePlan::Reply { response } => {
            let v: serde_json::Value = serde_json::from_str(&response).expect("valid JSON");
            assert_eq!(v["id"].as_i64(), Some(7));
            assert_eq!(v["result"]["serverInfo"]["name"].as_str(), Some("Avatars MCP"));
            assert_eq!(v["result"]["capabilities"]["resources"].as_bool(), Some(true));
            assert!(v.get("error").is_none());
        }
        other => panic!("expected a reply, got {:?}", other),
    }
}

#[test]
fn unknown_method_gets_its_error_code() {
    let plan = plan_line("{\"jsonrpc\":\"2.0\",\"id\":1,\"method\":\"no/such\"}");
    match plan {
        LinePlan::Reply { response } => {
            let v: serde_json::Value = serde_json::from_str(&response).expect("valid JSON");
            assert_eq!(v["error"]["code"].as_i64(), Some(-32601));
        }
        other => panic!("expected a reply, got {:?}", other),
    }
}

#[test]
fn read_without_uri_gets_missing_parameter_error() {
    let plan = plan_line("{\"jsonrpc\":\"2.0\",\"id\":2,\"method\":\"resources/read\"}");
    match plan {
        LinePlan::Reply { response } => {
            let v: serde_json::Value = serde_json::from_str(&response).expect("valid JSON");
            assert_eq!(v["error"]["code"].as_i64(), Some(-32602));
            assert_eq!(v["id"].as_i64(), Some(2));
        }
        other => panic!("expected a reply, got {:?}", other),
    }
}

#[test]
fn read_request_carries_id_and_uri() {
    let plan = plan_line(
        "{\"jsonrpc\":\"2.0\",\"id\":1,\"method\":\"resources/read\",\"params\":{\"uri\":\"avatars/ANALYST.md\"}}",
    );
    assert_eq!(
        plan,
        LinePlan::Read { id_json: "1".to_string(), uri: "avatars/ANALYST.md".to_string() }
    );
}

#[test]
fn string_id_is_echoed_as_json() {
    let plan = plan_line("{\"jsonrpc\":\"2.0\",\"id\":\"abc\",\"method\":\"resources/list\"}");
    assert_eq!(plan, LinePlan::List { id_json: "\"abc\"".to_string() });
}

#[test]
fn classification_covers_all_resource_kinds() {
    let cfg = config();
    assert_eq!(classify_resource(&cfg, "avatars.json"), ResourceKind::Catalog);
    assert_eq!(classify_resource(&cfg, "AGENTS.md"), ResourceKind::Base);
    assert_eq!(
        classify_resource(&cfg, "avatars/ANALYST.md"),
        ResourceKind::Doc { relative: "ANALYST.md".to_string() }
    );
    assert_eq!(
        classify_resource(&cfg, "avatars/../secret"),
        ResourceKind::Doc { relative: "../secret".to_string() }
    );
    assert_eq!(classify_resource(&cfg, "somewhere/else"), ResourceKind::Unknown);
    assert_eq!(classify_resource(&cfg, "avatars"), ResourceKind::Unknown);
}

#[test]
fn containment_check_accepts_paths_inside_the_directory() {
    assert!(path_is_within("/w/avatars", "/w/avatars/ANALYST.md"));
    assert!(path_is_within("/w/avatars", "/w/avatars"));
    assert!(path_is_within("/w/avatars", "/w/avatars/sub/deep.md"));
}

#[test]
fn containment_check_rejects_escapes() {
    assert!(!path_is_within("/w/avatars", "/w/secret"));
    assert!(!path_is_within("/w/avatars", "/w"));
    assert!(!path_is_within("/w/avatars", "/w/avatars-other/file"));
    assert!(!path_is_within("/w/avatars", "/other/avatars/file"));
}

#[test]
fn reads_avatar_inside_directory() {
    // A request inside the directory: the resolved path passes the check
    // and the contents come back as a result.
    let plan = plan_line(
        "{\"jsonrpc\":\"2.0\",\"id\":1,\"method\":\"resources/read\",\"params\":{\"uri\":\"avatars/ANALYST.md\"}}",
    );
    let (id_json, uri) = match plan {
        LinePlan::Read { id_json, uri } => (id_json, uri),
        other => panic!("expected a read, got {:?}", other),
    };
    assert_eq!(classify_resource(&config(), &uri), ResourceKind::Doc {
        relative: "ANALYST.md".to_string()
    });
    assert!(path_is_within("/w/avatars", "/w/avatars/ANALYST.md"));
    let response = read_response(
        &id_json,
        &ReadOutcome::Contents { text: "# Analyst\n".to_string() },
    );
    let v: serde_json::Value = serde_json::from_str(&response).expect("valid JSON");
    assert_eq!(v["result"]["contents"].as_str(), Some("# Analyst\n"));
    assert!(v.get("error").is_none());
}

#[test]
fn blocks_traversal_outside_avatars() {
    // The scenario of a parent-traversal request: the resolved path lands
    // beside the directory, the check denies it, and the response is an
    // error with no contents.
    let plan = plan_line(
        "{\"jsonrpc\":\"2.0\",\"id\":1,\"method\":\"resources/read\",\"params\":{\"uri\":\"avatars/../Cargo.toml\"}}",
    );
    let (id_json, uri) = match plan {
        LinePlan::Read { id_json, uri } => (id_json, uri),
        other => panic!("expected a read, got {:?}", other),
    };
    assert_eq!(classify_resource(&config(), &uri), ResourceKind::Doc {
        relative: "../Cargo.toml".to_string()
    });
    // Resolving "/w/avatars/../Cargo.toml" yields "/w/Cargo.toml".
    assert!(!path_is_within("/w/avatars", "/w/Cargo.toml"));
    let response = read_response(&id_json, &ReadOutcome::Denied);
    let v: serde_json::Value = serde_json::from_str(&response).expect("valid JSON");
    assert!(v.get("error").is_some());
    assert!(v.get("result").is_none());
    assert!(!response.contains("contents"));
    assert_eq!(v["error"]["code"].as_i64(), Some(-32000));
}

#[test]
fn unknown_resource_is_an_error() {
    let response = read_response("3", &ReadOutcome::UnknownResource);
    let v: serde_json::Value = serde_json::from_str(&response).expect("valid JSON");
    assert_eq!(v["error"]["code"].as_i64(), Some(-32000));
    assert_eq!(v["error"]["message"].as_str(), Some("Unknown resource"));
}

#[test]
fn failed_read_reports_its_message() {
    let response = read_response("4", &ReadOutcome::Failed { message: "no such file".to_string() });
    let v: serde_json::Value = serde_json::from_str(&response).expect("valid JSON");
    assert_eq!(v["error"]["message"].as_str(), Some("no such file"));
}

#[test]
fn lists_resources_with_prefix_and_order() {
    let names = vec![
        "TESTER.md".to_string(),
        "ANALYST.md".to_string(),
        "notes.txt".to_string(),
        "DEVOPS.md".to_string(),
    ];
    let response = list_response(&config(), "5", &DirListing::Names(names));
    let v: serde_json::Value = serde_json::from_str(&response).expect("valid JSON");
    assert_eq!(v["id"].as_i64(), Some(5));
    let resources = v["result"]["resources"].as_array().expect("resources array");
    let uris: Vec<&str> = resources.iter().map(|r| r["uri"].as_str().unwrap()).collect();
    assert_eq!(
        uris,
        vec![
            "avatars.json",
            "AGENTS.md",
            "avatars/ANALYST.md",
            "avatars/DEVOPS.md",
            "avatars/TESTER.md",
        ]
    );
}

#[test]
fn lists_resources_returns_catalog_and_base() {
    let names = vec!["ANALYST.md".to_string()];
    let response = list_response(&config(), "1", &DirListing::Names(names));
    let v: serde_json::Value = serde_json::from_str(&response).expect("valid JSON");
    let resources = v["result"]["resources"].as_array().expect("resources array");
    let uris: Vec<&str> = resources.iter().map(|r| r["uri"].as_str().unwrap()).collect();
    assert!(uris.contains(&"avatars.json"));
    assert!(uris.contains(&"AGENTS.md"));
}

#[test]
fn reads_avatar_catalog() {
    // The catalog identifier names the generated sidecar file; its text
    // comes back as contents.
    assert_eq!(classify_resource(&config(), "avatars.json"), ResourceKind::Catalog);
    let response = read_response("1", &ReadOutcome::Contents { text: "{}\n".to_string() });
    let v: serde_json::Value = serde_json::from_str(&response).expect("valid JSON");
    assert!(v["result"].get("contents").is_some());
}

#[test]
fn reads_base_instructions() {
    assert_eq!(classify_resource(&config(), "AGENTS.md"), ResourceKind::Base);
    let response = read_response("1", &ReadOutcome::Contents {
        text: "Base instructions\n".to_string(),
    });
    let v: serde_json::Value = serde_json::from_str(&response).expect("valid JSON");
    assert_eq!(v["result"]["contents"].as_str(), Some("Base instructions\n"));
}

#[test]
fn listing_failure_is_a_protocol_error() {
    let response = list_response(&config(), "6", &DirListing::Failed("unreadable".to_string()));
    let v: serde_json::Value = serde_json::from_str(&response).expect("valid JSON");
    assert_eq!(v["error"]["code"].as_i64(), Some(-32000));
    assert_eq!(v["error"]["message"].as_str(), Some("unreadable"));
}
