use shotgun::config::{failure_message, init_summary_line, report_lines, sync_summary_line, validate_mapping};
use shotgun::diff::DiffSummary;
use shotgun::mapping::merge::MergeReport;
use shotgun::diff::normalize_path;
use shotgun::error::ShotgunError;
use shotgun::json::{JsonValue, KeyedMap};
use shotgun::mapping::merge::merge_mapping_files;
use shotgun::mapping::reader::MappingFormat;
use shotgun::mapping::types::{EndpointMapping, MappingFile, NestedMapping, PaginationSettings, SchemaMapping, Settings};
use shotgun::proxy::handler::{build_target_path, match_endpoint, passthrough_header_sent, request_header_name, response_header_kind, response_header_sent, proxy_link_base, ResponseHeader};
use shotgun::proxy::pagination::{apply_header_renames, rewrite_link_header, translate_query_params, translate_query_params_reverse, UrlParts};
use shotgun::spec::model::{FieldType, HttpMethod};

fn names(pairs: Vec<(&str, &str)>) -> KeyedMap<String> {
    let mut m = KeyedMap::new();
    for (k, v) in pairs {
        m.insert(k.to_string(), v.to_string());
    }
    m
}

fn pairs(v: Vec<(&str, &str)>) -> Vec<(String, String)> {
    v.into_iter().map(|(k, x)| (k.to_string(), x.to_string())).collect()
}

fn entry(source: &str, target: &str) -> EndpointMapping {
    EndpointMapping {
        source: source.to_string(),
        target: target.to_string(),
        ..Default::default()
    }
}

#[test]
fn normalize_path_ignores_param_names_and_base() {
    assert_eq!(normalize_path("/api/repos/{owner}/{repo}", "/api"), "/repos/{}/{}");
    assert_eq!(normalize_path("/repos/{user}/{project}", ""), "/repos/{}/{}");
    assert_eq!(normalize_path("/other/x", "/api"), "/other/x");
}

#[test]
fn http_method_names_round_trip() {
    for m in [HttpMethod::Get, HttpMethod::Put, HttpMethod::Post, HttpMethod::Delete, HttpMethod::Options, HttpMethod::Head, HttpMethod::Patch, HttpMethod::Trace] {
        assert_eq!(HttpMethod::parse(m.as_str()), Some(m));
    }
    assert_eq!(HttpMethod::parse("pAtCh"), Some(HttpMethod::Patch));
    assert_eq!(HttpMethod::parse("fetch"), None);
}

#[test]
fn numeric_types_are_compatible_both_ways() {
    assert!(FieldType::Integer.compatible(&FieldType::Number));
    assert!(FieldType::Number.compatible(&FieldType::Integer));
    assert!(!FieldType::Array.compatible(&FieldType::String));
}

#[test]
fn mapping_formats_follow_extension_and_name() {
    assert_eq!(MappingFormat::from_path("m.yaml"), MappingFormat::Yaml);
    assert_eq!(MappingFormat::from_path("m.yml"), MappingFormat::Yaml);
    assert_eq!(MappingFormat::from_path("m.json"), MappingFormat::Json);
    assert_eq!(MappingFormat::from_path("mappings.toml"), MappingFormat::Toml);
    assert_eq!(MappingFormat::parse("yml"), MappingFormat::Yaml);
    assert_eq!(MappingFormat::parse("json"), MappingFormat::Json);
    assert_eq!(MappingFormat::parse("xml"), MappingFormat::Toml);
}

#[test]
fn method_and_path_split_at_first_space() {
    assert_eq!(
        EndpointMapping::method_and_path("GET /a b"),
        Some(("GET".to_string(), "/a b".to_string()))
    );
    assert_eq!(EndpointMapping::method_and_path("GET"), None);
}

#[test]
fn errors_print_their_text() {
    let e = ShotgunError::SpecParse { path: "a.json".to_string(), message: "bad".to_string() };
    assert_eq!(e.to_text(), "failed to parse spec at a.json: bad");
    assert_eq!(ShotgunError::UnmappedEndpoint("GET /x".to_string()).to_text(), "no target configured for endpoint GET /x");
}

#[test]
fn pagination_params_translate_and_back() {
    let settings = PaginationSettings {
        source_style: None,
        target_style: None,
        rewrite_link_urls: true,
        param_map: names(vec![("page", "p"), ("per_page", "limit")]),
    };
    let mut q = pairs(vec![("per_page", "10"), ("page", "2"), ("q", "x")]);
    translate_query_params(&mut q, &settings);
    assert_eq!(q, pairs(vec![("limit", "10"), ("p", "2"), ("q", "x")]));
    translate_query_params_reverse(&mut q, &settings);
    assert_eq!(q, pairs(vec![("per_page", "10"), ("page", "2"), ("q", "x")]));
}

#[test]
fn reverse_translation_takes_the_last_source_name() {
    let settings = PaginationSettings {
        source_style: None,
        target_style: None,
        rewrite_link_urls: false,
        param_map: names(vec![("a", "n"), ("b", "n")]),
    };
    let mut q = pairs(vec![("n", "1")]);
    translate_query_params_reverse(&mut q, &settings);
    assert_eq!(q, pairs(vec![("b", "1")]));
}

#[test]
fn link_header_points_back_at_the_proxy() {
    let settings = PaginationSettings {
        source_style: None,
        target_style: None,
        rewrite_link_urls: true,
        param_map: names(vec![("per_page", "limit")]),
    };
    let target = UrlParts { scheme: "https".to_string(), host: Some("forge.example".to_string()), port: None };
    let proxy = proxy_link_base().unwrap();
    let value = "<https://forge.example/api/v1/repos?limit=5&page=2>; rel=\"next\", <https://elsewhere.example/x>; rel=\"other\"";
    let out = rewrite_link_header(value, &target, &proxy, &settings);
    assert_eq!(
        out,
        "<http://proxy.local/api/v1/repos?per_page=5&page=2>; rel=\"next\", <https://elsewhere.example/x>; rel=\"other\""
    );
    assert_eq!(rewrite_link_header("no url here", &target, &proxy, &settings), "no url here");
}

#[test]
fn header_renames_move_values() {
    let mut headers = http::HeaderMap::new();
    headers.insert("x-total", http::HeaderValue::from_static("12"));
    headers.insert("etag", http::HeaderValue::from_static("abc"));
    apply_header_renames(&mut headers, &names(vec![("X-Total-Count", "X-Total")]));
    assert!(headers.get("x-total").is_none());
    assert_eq!(headers.get("x-total-count").unwrap(), "12");
    assert_eq!(headers.get("etag").unwrap(), "abc");
}

#[test]
fn request_and_response_header_rules() {
    let mut e = entry("GET /a", "GET /b");
    e.headers = names(vec![("x-src", "x-dst")]);
    assert_eq!(request_header_name(&e, "Host"), None);
    assert_eq!(request_header_name(&e, "content-length"), None);
    assert_eq!(request_header_name(&e, "x-src"), Some("x-dst".to_string()));
    assert_eq!(request_header_name(&e, "accept"), Some("accept".to_string()));

    let mut settings = Settings::default();
    assert_eq!(response_header_kind(&settings, "Transfer-Encoding"), ResponseHeader::Skip);
    assert_eq!(response_header_kind(&settings, "link"), ResponseHeader::Keep);
    settings.pagination.rewrite_link_urls = true;
    assert_eq!(response_header_kind(&settings, "Link"), ResponseHeader::RewriteLink);
    assert!(!response_header_sent("Content-Length"));
    assert!(response_header_sent("etag"));
}

#[test]
fn target_path_uses_renamed_params_and_base() {
    let mut mf = MappingFile::default();
    mf.settings.target_base_path = "/api/v1".to_string();
    let mut e = entry("GET /repos/{owner}/{repo}", "GET /repos/{user}/{repo}/info");
    e.path_params = names(vec![("owner", "user")]);
    mf.endpoints.push(e);
    let (ep, params) = match_endpoint(&mf, "GET", "/repos/octo/cat").unwrap();
    assert_eq!(params.get("owner").map(|s| s.as_str()), Some("octo"));
    assert_eq!(build_target_path(&mf, ep, &params), "/api/v1/repos/octo/cat/info");
}

#[test]
fn validate_reports_warnings_errors_and_coverage() {
    let mut mf = MappingFile::default();
    mf.endpoints.push(entry("GET /a", ""));
    mf.endpoints.push(entry("GET /b", "nonsense"));
    let mut c = entry("GET /c", "GET /c");
    c.response.nested.push(NestedMapping { path: "owner".to_string(), schema_map: "Missing".to_string() });
    c.response.type_conflicts = names(vec![("x", "source is String, target is Object")]);
    mf.endpoints.push(c);
    let report = validate_mapping(&mf);
    assert_eq!(report.mapped, 2);
    assert_eq!(report.total, 3);
    assert_eq!(report.warnings, vec!["GET /a: no target configured".to_string(), "GET /c: has unresolved type conflicts, needs review".to_string()]);
    assert_eq!(
        report.errors,
        vec![
            "GET /b: target 'nonsense' is not a valid 'METHOD /path'".to_string(),
            "GET /c: response.nested references unknown schema 'Missing'".to_string(),
        ]
    );
    let lines = report_lines(&report);
    assert_eq!(lines[0], "Coverage: 2/3 endpoints mapped (66%)");
    assert_eq!(lines[1], "Schemas defined: 0");
    assert_eq!(lines[3], "ERROR: GET /b: target 'nonsense' is not a valid 'METHOD /path'");
    assert_eq!(lines[5], "WARN:  GET /a: no target configured");
    assert_eq!(failure_message(&report), Some("2 error(s) found".to_string()));
}

#[test]
fn validate_clean_file() {
    let mf = MappingFile::default();
    let report = validate_mapping(&mf);
    let lines = report_lines(&report);
    assert_eq!(lines, vec!["Coverage: 0/0 endpoints mapped (0%)".to_string(), "Schemas defined: 0".to_string(), String::new(), "No errors or warnings.".to_string()]);
    assert_eq!(failure_message(&report), None);
}

#[test]
fn sync_keeps_edited_refreshes_adds_and_flags() {
    let mut existing = MappingFile::default();
    let mut edited = entry("GET /a", "GET /custom");
    edited.edited = true;
    existing.endpoints.push(edited);
    existing.endpoints.push(entry("GET /b", "GET /old-b"));
    let mut gone = entry("GET /gone", "GET /x");
    gone.note = Some("was here".to_string());
    existing.endpoints.push(gone);
    existing.schemas.push(SchemaMapping {
        name: "User".to_string(),
        edited: true,
        renames: names(vec![("name", "full_name")]),
        defaults: KeyedMap::new(),
        drops: vec![],
        type_conflicts: KeyedMap::new(),
    });

    let mut proposed = MappingFile::default();
    proposed.meta.generated_at = "now".to_string();
    proposed.endpoints.push(entry("GET /c", "GET /c"));
    proposed.endpoints.push(entry("GET /b", "GET /new-b"));
    proposed.endpoints.push(entry("GET /a", "GET /a"));
    proposed.schemas.push(SchemaMapping {
        name: "User".to_string(),
        edited: false,
        renames: KeyedMap::new(),
        defaults: KeyedMap::new(),
        drops: vec![],
        type_conflicts: KeyedMap::new(),
    });

    let (merged, report) = merge_mapping_files(existing, proposed);
    assert_eq!((report.added, report.updated, report.kept_edited, report.removed_flagged), (1, 1, 1, 1));
    let sources: Vec<&str> = merged.endpoints.iter().map(|e| e.source.as_str()).collect();
    assert_eq!(sources, vec!["GET /a", "GET /b", "GET /c", "GET /gone"]);
    assert_eq!(merged.endpoints[0].target, "GET /custom");
    assert_eq!(merged.endpoints[1].target, "GET /new-b");
    assert_eq!(merged.endpoints[3].target, "");
    assert_eq!(merged.endpoints[3].note.as_deref(), Some("was here [no longer present in source spec]"));
    assert_eq!(merged.meta.generated_at, "now");
    assert!(merged.schemas[0].edited);
    assert!(matches!(merged.schemas[0].renames.get("name"), Some(s) if s == "full_name"));
}

#[test]
fn keyed_map_walks_in_key_order() {
    let mut m: KeyedMap<JsonValue> = KeyedMap::new();
    m.insert("b".to_string(), JsonValue::Null);
    m.insert("a".to_string(), JsonValue::Bool(true));
    m.insert("b".to_string(), JsonValue::Bool(false));
    assert_eq!(m.len(), 2);
    assert_eq!(m.entry(0).0, "a");
    assert!(matches!(m.entry(1).1, JsonValue::Bool(false)));
    assert!(m.remove("a").is_some());
    assert!(!m.contains_key("a"));
}

#[test]
fn command_summaries_read_as_printed() {
    let summary = DiffSummary { total_source_endpoints: 12, mapped: 9, method_mismatches: 1, unmatched: 2 };
    assert_eq!(
        init_summary_line(&summary),
        "Mapped 9/12 endpoints automatically. 2 unmapped (no match), 1 unmapped (path matched but method differs)."
    );
    let report = MergeReport { added: 3, updated: 10, kept_edited: 0, removed_flagged: 1 };
    assert_eq!(
        sync_summary_line("mappings.toml", &report),
        "Synced mappings.toml: 3 added, 10 updated, 0 kept (edited), 1 flagged as removed."
    );
}

#[test]
fn passthrough_forwards_all_headers_but_host() {
    assert!(!passthrough_header_sent("Host"));
    assert!(!passthrough_header_sent("host"));
    assert!(passthrough_header_sent("content-length"));
    assert!(passthrough_header_sent("authorization"));
}

#[test]
fn sync_keeps_edited_schemas_the_source_dropped() {
    let schema = |name: &str, edited: bool| SchemaMapping {
        name: name.to_string(),
        edited,
        renames: if edited { names(vec![("login", "username")]) } else { KeyedMap::new() },
        defaults: KeyedMap::new(),
        drops: vec![],
        type_conflicts: KeyedMap::new(),
    };
    let mut existing = MappingFile::default();
    existing.schemas.push(schema("Owner", true));
    existing.schemas.push(schema("Stale", false));
    existing.schemas.push(schema("Repo", true));
    let mut proposed = MappingFile::default();
    proposed.schemas.push(schema("Repo", false));
    proposed.schemas.push(schema("Tag", false));

    let (merged, _) = merge_mapping_files(existing, proposed);
    let got: Vec<(&str, bool)> = merged.schemas.iter().map(|s| (s.name.as_str(), s.edited)).collect();
    assert_eq!(got, vec![("Repo", true), ("Tag", false), ("Owner", true)]);
    assert!(matches!(merged.schemas[2].renames.get("login"), Some(s) if s == "username"));
}

#[test]
fn header_rename_moves_the_first_value_over_the_old_ones() {
    let mut headers = http::HeaderMap::new();
    headers.append("x-page", http::HeaderValue::from_static("2"));
    headers.append("x-page", http::HeaderValue::from_static("3"));
    headers.insert("page", http::HeaderValue::from_static("old"));
    apply_header_renames(&mut headers, &names(vec![("Page", "X-Page"), ("Missing", "x-none")]));
    assert!(headers.get("x-page").is_none());
    let got: Vec<&[u8]> = headers.get_all("page").iter().map(|v| v.as_bytes()).collect();
    assert_eq!(got, vec![&b"2"[..]]);
    assert!(headers.get("missing").is_none());
    assert_eq!(headers.len(), 1);
}

#[test]
fn normalizing_twice_changes_nothing_and_keeps_segments() {
    for (p, b) in [("/api/repos/{owner}/{repo}", "/api"), ("/a//{x}/", ""), ("", "/api"), ("{id}", "")] {
        let once = normalize_path(p, b);
        assert_eq!(normalize_path(&once, ""), once);
        let stripped = if !b.is_empty() && p.starts_with(b) { &p[b.len()..] } else { p };
        assert_eq!(once.matches('/').count(), stripped.matches('/').count());
    }
}

#[test]
fn property_fields_are_typed_consistently() {
    let doc = r##"{"swagger": "2.0", "paths": {}, "definitions": {"Pet": {"type": "object", "properties": {
        "owner": {"$ref": "#/definitions/Owner"},
        "tags": {"type": "array", "items": {"$ref": "#/definitions/Tag"}},
        "ids": {"type": "array", "items": {"type": "integer"}},
        "name": {"type": "string"}}}}}"##;
    let spec = shotgun::spec::parser::parse_spec_str("s.json", doc).ok().unwrap();
    let pet = spec.schemas.get("Pet").unwrap();
    let field = |n: &str| pet.fields.iter().find(|f| f.name == n).unwrap();
    assert_eq!(field("owner").ty, FieldType::Object);
    assert_eq!(field("owner").schema_ref.as_deref(), Some("Owner"));
    assert_eq!(field("tags").ty, FieldType::Array);
    assert_eq!(field("tags").item_ty, Some(FieldType::Object));
    assert_eq!(field("tags").item_schema_ref.as_deref(), Some("Tag"));
    assert_eq!(field("ids").item_ty, Some(FieldType::Integer));
    assert_eq!(field("name").ty, FieldType::String);
    assert!(field("name").item_ty.is_none());
}
