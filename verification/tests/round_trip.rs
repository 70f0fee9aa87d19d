use shotgun::json::KeyedMap;
use shotgun::mapping::types::{EndpointMapping, FieldMapping, MappingFile, Meta, Settings, UnmappedEndpointBehavior, UnmappedFieldBehavior};
use shotgun::proxy::handler::{plan_request, request_body_out, response_body_out, RequestPlan};
use shotgun::proxy::transform::SchemaRegistry;

fn names(pairs: Vec<(&str, &str)>) -> KeyedMap<String> {
    let mut m = KeyedMap::new();
    for (k, v) in pairs {
        m.insert(k.to_string(), v.to_string());
    }
    m
}

fn mapping_for(target_base: &str) -> MappingFile {
    MappingFile {
        meta: Meta::default(),
        settings: Settings {
            target_base_path: target_base.to_string(),
            ..Default::default()
        },
        endpoints: vec![EndpointMapping {
            source: "GET /pets/{petId}".to_string(),
            target: "GET /pets/{id}".to_string(),
            path_params: names(vec![("petId", "id")]),
            response: FieldMapping {
                renames: names(vec![("created_at", "created")]),
                ..Default::default()
            },
            ..Default::default()
        }],
        schemas: vec![],
    }
}

#[test]
fn round_trips_a_request_through_the_proxy() {
    let mapping = mapping_for("/api/v3");
    let plan = plan_request(&mapping, "GET", "/pets/42", "");
    let endpoint = match plan {
        RequestPlan::Forward { endpoint, path, query } => {
            assert_eq!(path, "/api/v3/pets/42");
            assert!(query.is_empty());
            endpoint
        },
        _ => panic!("expected the request to be forwarded"),
    };

    let registry = SchemaRegistry::from_mapping_file(&mapping);
    let upstream = br#"{"id": 42, "created": "2026-01-01"}"#;
    let out = response_body_out(&mapping.endpoints[endpoint], &registry, &UnmappedFieldBehavior::Passthrough, upstream);
    let body: serde_json::Value = serde_json::from_slice(&out).unwrap();

    assert_eq!(body["id"], serde_json::Value::from(42));
    assert_eq!(body["created_at"], serde_json::Value::from("2026-01-01"));
    assert!(body.get("created").is_none());
}

#[test]
fn unmapped_endpoint_returns_501_by_default() {
    let mapping = mapping_for("/api/v3");
    match plan_request(&mapping, "GET", "/does-not-exist", "") {
        RequestPlan::Respond { status, body } => {
            assert_eq!(status, 501);
            assert_eq!(body, "no mapping for this endpoint");
        },
        _ => panic!("expected a 501"),
    }
}

#[test]
fn unmapped_endpoint_passes_through_when_configured() {
    let mut mapping = mapping_for("/api/v3");
    mapping.settings.unmapped_endpoint_behavior = UnmappedEndpointBehavior::Passthrough;
    assert!(matches!(plan_request(&mapping, "GET", "/does-not-exist", ""), RequestPlan::Passthrough));
}

#[test]
fn entry_without_target_is_refused() {
    let mut mapping = mapping_for("");
    mapping.endpoints[0].target = String::new();
    match plan_request(&mapping, "get", "/pets/7", "") {
        RequestPlan::Respond { status, body } => {
            assert_eq!(status, 501);
            assert_eq!(body, "endpoint 'GET /pets/{petId}' has no target configured in mappings.toml");
        },
        _ => panic!("expected a 501"),
    }
}

#[test]
fn method_is_matched_ignoring_case_and_segments_by_count() {
    let mapping = mapping_for("");
    assert!(matches!(plan_request(&mapping, "get", "/pets/7/", ""), RequestPlan::Forward { .. }));
    assert!(matches!(plan_request(&mapping, "POST", "/pets/7", ""), RequestPlan::Respond { .. }));
    assert!(matches!(plan_request(&mapping, "GET", "/pets/7/x", ""), RequestPlan::Respond { .. }));
}

#[test]
fn query_params_are_renamed_then_paginated() {
    let mut mapping = mapping_for("");
    mapping.endpoints[0].query_params = names(vec![("sort", "order_by")]);
    mapping.settings.pagination.param_map = names(vec![("per_page", "limit")]);
    match plan_request(&mapping, "GET", "/pets/1", "sort=name&per_page=10&x=a%20b") {
        RequestPlan::Forward { query, .. } => {
            assert_eq!(
                query,
                vec![
                    ("order_by".to_string(), "name".to_string()),
                    ("limit".to_string(), "10".to_string()),
                    ("x".to_string(), "a b".to_string()),
                ]
            );
        },
        _ => panic!("expected the request to be forwarded"),
    }
}

#[test]
fn request_body_is_translated_and_non_json_kept() {
    let mut mapping = mapping_for("");
    mapping.endpoints[0].request.renames = names(vec![("created_at", "created")]);
    let out = request_body_out(&mapping.endpoints[0], br#"{"created_at":"x"}"#);
    let body: serde_json::Value = serde_json::from_slice(&out).unwrap();
    assert_eq!(body["created"], serde_json::Value::from("x"));
    assert_eq!(request_body_out(&mapping.endpoints[0], b"not json"), b"not json".to_vec());
    assert!(request_body_out(&mapping.endpoints[0], b"").is_empty());
}

#[test]
fn non_json_response_is_passed_on() {
    let mapping = mapping_for("");
    let registry = SchemaRegistry::from_mapping_file(&mapping);
    let out = response_body_out(&mapping.endpoints[0], &registry, &UnmappedFieldBehavior::Passthrough, b"<html>");
    assert_eq!(out, b"<html>".to_vec());
}

#[test]
fn source_base_path_is_stripped_before_matching() {
    let mut mapping = mapping_for("");
    mapping.settings.source_base_path = "/api/v3".to_string();
    match plan_request(&mapping, "GET", "/api/v3/pets/9", "") {
        RequestPlan::Forward { path, .. } => assert_eq!(path, "/pets/9"),
        _ => panic!("expected the request to be forwarded"),
    }
    assert!(matches!(plan_request(&mapping, "GET", "/pets/9", ""), RequestPlan::Forward { .. }));
    assert!(matches!(plan_request(&mapping, "GET", "/api/v4/pets/9", ""), RequestPlan::Respond { .. }));
    assert_eq!(shotgun::proxy::handler::strip_source_base(&mapping.settings, "/api/v3/user"), "/user");
    assert_eq!(shotgun::proxy::handler::strip_source_base(&mapping.settings, "/user"), "/user");
}
