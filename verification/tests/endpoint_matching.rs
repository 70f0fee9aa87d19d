use shotgun::diff::build_mapping_file;
use shotgun::spec::model::ApiSpec;
use shotgun::spec::parser::parse_spec_str;

const PETSTORE_V2: &str = r##"{
  "swagger": "2.0",
  "info": { "title": "Petstore", "version": "1.0.0" },
  "basePath": "/v1",
  "paths": {
    "/pets": {
      "get": {
        "operationId": "listPets",
        "responses": { "200": { "description": "ok", "schema": { "type": "array", "items": { "$ref": "#/definitions/Pet" } } } }
      },
      "post": {
        "operationId": "createPet",
        "parameters": [ { "in": "body", "name": "body", "schema": { "$ref": "#/definitions/Pet" } } ],
        "responses": { "201": { "description": "created", "schema": { "$ref": "#/definitions/Pet" } } }
      }
    },
    "/pets/{petId}": {
      "get": {
        "operationId": "showPetById",
        "parameters": [ { "in": "path", "name": "petId", "required": true, "type": "string" } ],
        "responses": { "200": { "description": "ok", "schema": { "$ref": "#/definitions/Pet" } } }
      }
    }
  },
  "definitions": {
    "Pet": {
      "type": "object",
      "properties": {
        "id": { "type": "integer" },
        "name": { "type": "string" },
        "created_at": { "type": "string" },
        "owner": { "$ref": "#/definitions/Owner" }
      }
    },
    "Owner": { "type": "object", "properties": { "name": { "type": "string" } } }
  }
}"##;

const PETSTORE_V3: &str = r##"{
  "openapi": "3.0.0",
  "info": { "title": "Petstore", "version": "2.0.0" },
  "servers": [ { "url": "https://petstore.example.com/v1" } ],
  "paths": {
    "/pets": {
      "get": {
        "operationId": "listPets",
        "responses": { "200": { "description": "ok", "content": { "application/json": { "schema": { "type": "array", "items": { "$ref": "#/components/schemas/Pet" } } } } } }
      },
      "post": {
        "operationId": "createPet",
        "requestBody": { "content": { "application/json": { "schema": { "$ref": "#/components/schemas/Pet" } } } },
        "responses": { "201": { "description": "created", "content": { "application/json": { "schema": { "$ref": "#/components/schemas/Pet" } } } } }
      }
    },
    "/pets/{id}": {
      "get": {
        "operationId": "showPetById",
        "parameters": [ { "in": "path", "name": "id", "required": true, "schema": { "type": "string" } } ],
        "responses": { "200": { "description": "ok", "content": { "application/json": { "schema": { "$ref": "#/components/schemas/Pet" } } } } }
      }
    }
  },
  "components": {
    "schemas": {
      "Pet": {
        "type": "object",
        "properties": {
          "id": { "type": "integer" },
          "name": { "type": "string" },
          "created": { "type": "string" },
          "internal_note": { "type": "string" },
          "owner": { "$ref": "#/components/schemas/Owner" }
        }
      },
      "Owner": { "type": "object", "properties": { "full_name": { "type": "string" } } }
    }
  }
}"##;

fn load() -> (ApiSpec, ApiSpec) {
    let source = parse_spec_str("tests/fixtures/petstore_v2.json", PETSTORE_V2).ok().unwrap();
    let target = parse_spec_str("tests/fixtures/petstore_v3.json", PETSTORE_V3).ok().unwrap();
    (source, target)
}

#[test]
fn parses_both_spec_versions() {
    let (source, target) = load();
    assert_eq!(source.endpoints.len(), 3);
    assert_eq!(target.endpoints.len(), 3);
    assert!(source.schemas.contains_key("Pet"));
    assert!(target.schemas.contains_key("Pet"));
}

#[test]
fn maps_every_endpoint_deterministically_by_path() {
    let (source, target) = load();
    let (mapping, summary) =
        build_mapping_file(&source, &target, "petstore_v2.json", "petstore_v3.json", "2026-08-18T00:00:00Z");

    // All three endpoints share the same normalized path + method in both
    // specs (only the path param *name* differs), so all three should
    // auto-map with no unmatched/method-mismatch fallout.
    assert_eq!(summary.total_source_endpoints, 3);
    assert_eq!(summary.mapped, 3, "all three endpoints should auto-map");
    assert_eq!(summary.unmatched, 0);
    assert_eq!(summary.method_mismatches, 0);
    assert!(mapping.endpoints.iter().all(|e| !e.target.is_empty()));
}

#[test]
fn detects_path_param_rename() {
    let (source, target) = load();
    let (mapping, _) =
        build_mapping_file(&source, &target, "petstore_v2.json", "petstore_v3.json", "2026-08-18T00:00:00Z");

    let get_pet = mapping
        .endpoints
        .iter()
        .find(|e| e.source == "GET /pets/{petId}")
        .expect("GET /pets/{petId} should be present");

    assert_eq!(get_pet.target, "GET /pets/{id}");
    assert_eq!(get_pet.path_params.get("petId"), Some(&"id".to_string()));
}

#[test]
fn does_not_guess_renames_for_differently_named_fields() {
    let (source, target) = load();
    let (mapping, _) =
        build_mapping_file(&source, &target, "petstore_v2.json", "petstore_v3.json", "2026-08-18T00:00:00Z");

    let get_pet = mapping
        .endpoints
        .iter()
        .find(|e| e.source == "GET /pets/{petId}")
        .unwrap();

    // No rename inference: "created_at" (source-only) becomes a default,
    // and "created"/"internal_note" (target-only) become drops.
    assert!(get_pet.response.renames.is_empty());
    assert!(get_pet.response.defaults.contains_key("created_at"));
    assert!(get_pet.response.drops.contains(&"created".to_string()));
    assert!(get_pet.response.drops.contains(&"internal_note".to_string()));

    // Owner is still a nested schema and gets registered for reuse, but
    // again with no guessed rename between "name" and "full_name".
    let owner_schema = mapping.schemas.iter().find(|s| s.name == "Owner").unwrap();
    assert!(owner_schema.renames.is_empty());
    assert!(owner_schema.defaults.contains_key("name"));
    assert!(owner_schema.drops.contains(&"full_name".to_string()));
}

#[test]
fn reads_base_paths_of_both_dialects() {
    let (source, target) = load();
    assert_eq!(source.base_path, "/v1");
    assert_eq!(target.base_path, "/v1");
    assert_eq!(source.title, "Petstore");
    assert_eq!(target.version, "2.0.0");
}

#[test]
fn unknown_document_is_refused() {
    let r = parse_spec_str("x.json", r#"{"info": {}}"#);
    match r {
        Err(e) => assert_eq!(e.to_text(), "unsupported OpenAPI version: could not detect OpenAPI/Swagger version for x.json"),
        Ok(_) => panic!("expected an error"),
    }
}

#[test]
fn unparsable_text_is_a_parse_error() {
    let r = parse_spec_str("x.yaml", "{ this is: [not yaml");
    assert!(matches!(r, Err(shotgun::error::ShotgunError::SpecParse { .. })));
}

#[test]
fn yaml_specs_are_read_too() {
    let doc = "swagger: \"2.0\"\ninfo:\n  title: T\n  version: \"1\"\npaths:\n  /a:\n    get:\n      operationId: getA\n";
    let spec = parse_spec_str("spec.yml", doc).ok().unwrap();
    assert_eq!(spec.endpoints.len(), 1);
    assert_eq!(spec.endpoints[0].path, "/a");
    assert_eq!(spec.endpoints[0].operation.operation_id.as_deref(), Some("getA"));
}

#[test]
fn root_server_url_is_no_base_path() {
    let doc = r#"{"openapi": "3.1.0", "servers": [{"url": "https://h.example/"}], "paths": {}}"#;
    let spec = parse_spec_str("s.json", doc).ok().unwrap();
    assert_eq!(spec.base_path, "");
}

#[test]
fn generated_mapping_holds_no_rename_anywhere() {
    let (source, target) = load();
    let (mapping, _) =
        build_mapping_file(&source, &target, "petstore_v2.json", "petstore_v3.json", "2026-08-18T00:00:00Z");
    assert!(!mapping.endpoints.is_empty());
    for e in &mapping.endpoints {
        assert!(e.response.renames.is_empty());
        assert!(e.request.renames.is_empty());
    }
    assert!(!mapping.schemas.is_empty());
    for s in &mapping.schemas {
        assert!(s.renames.is_empty());
    }
}

#[test]
fn server_url_path_gives_the_base_path() {
    let base = |url: &str| {
        let doc = format!(r#"{{"openapi": "3.0.0", "servers": [{{"url": "{url}"}}], "paths": {{}}}}"#);
        parse_spec_str("s.json", &doc).ok().unwrap().base_path
    };
    assert_eq!(base("/api/v3"), "/api/v3");
    assert_eq!(base("/api/v3?x=1#top"), "/api/v3");
    assert_eq!(base("/"), "");
    assert_eq!(base("https://h.example/api/v3"), "/api/v3");
    assert_eq!(base("https://h.example/"), "");
}
