use shotgun::json::{JsonValue, KeyedMap};
use shotgun::mapping::types::{EndpointMapping, FieldMapping, MappingFile, NestedMapping, SchemaMapping, UnmappedFieldBehavior};
use shotgun::proxy::transform::{transform_request, transform_response, SchemaRegistry};

fn text(s: &str) -> JsonValue {
    JsonValue::String(s.to_string())
}

fn num(s: &str) -> JsonValue {
    JsonValue::Number(s.to_string())
}

fn obj(pairs: Vec<(&str, JsonValue)>) -> JsonValue {
    let mut m = KeyedMap::new();
    for (k, v) in pairs {
        m.insert(k.to_string(), v);
    }
    JsonValue::Object(m)
}

fn names(pairs: Vec<(&str, &str)>) -> KeyedMap<String> {
    let mut m = KeyedMap::new();
    for (k, v) in pairs {
        m.insert(k.to_string(), v.to_string());
    }
    m
}

fn str_at<'a>(v: &'a JsonValue, key: &str) -> Option<&'a str> {
    v.get(key).and_then(|x| x.as_str())
}

fn sample_response_mapping() -> FieldMapping {
    let mut defaults = KeyedMap::new();
    defaults.insert("node_id".to_string(), text(""));
    FieldMapping {
        renames: names(vec![("created_at", "created")]),
        defaults,
        drops: vec!["internal_note".to_string()],
        type_conflicts: KeyedMap::new(),
        nested: vec![NestedMapping {
            path: "owner".to_string(),
            schema_map: "Owner".to_string(),
        }],
    }
}

fn sample_endpoint() -> EndpointMapping {
    EndpointMapping {
        source: "GET /pets/{id}".to_string(),
        target: "GET /pets/{id}".to_string(),
        response: sample_response_mapping(),
        ..Default::default()
    }
}

fn sample_mapping_file() -> MappingFile {
    let mut mf = MappingFile::default();
    mf.endpoints.push(sample_endpoint());
    mf.schemas.push(SchemaMapping {
        name: "Owner".to_string(),
        edited: false,
        renames: names(vec![("name", "full_name")]),
        defaults: KeyedMap::new(),
        drops: vec![],
        type_conflicts: KeyedMap::new(),
    });
    mf
}

#[test]
fn transform_response_applies_renames_defaults_and_drops() {
    let mf = sample_mapping_file();
    let endpoint = &mf.endpoints[0];
    let registry = SchemaRegistry::from_mapping_file(&mf);

    let mut body = obj(vec![
        ("id", num("1")),
        ("created", text("2026-01-01")),
        ("internal_note", text("secret")),
        ("owner", obj(vec![("id", num("5")), ("full_name", text("Alice"))])),
    ]);

    transform_response(&mut body, endpoint, &registry, &UnmappedFieldBehavior::Passthrough);

    assert_eq!(str_at(&body, "created_at"), Some("2026-01-01"));
    assert!(body.get("created").is_none());
    assert!(body.get("internal_note").is_none());
    assert_eq!(str_at(&body, "node_id"), Some(""));
    let owner = body.get("owner").unwrap();
    assert_eq!(str_at(owner, "name"), Some("Alice"));
    assert!(owner.get("full_name").is_none());
}

#[test]
fn transform_response_handles_arrays() {
    let mf = sample_mapping_file();
    let endpoint = &mf.endpoints[0];
    let registry = SchemaRegistry::from_mapping_file(&mf);

    let mut body = JsonValue::Array(vec![
        obj(vec![("id", num("1")), ("created", text("a")), ("owner", obj(vec![("full_name", text("Alice"))]))]),
        obj(vec![("id", num("2")), ("created", text("b")), ("owner", obj(vec![("full_name", text("Bob"))]))]),
    ]);

    transform_response(&mut body, endpoint, &registry, &UnmappedFieldBehavior::Passthrough);

    let items = body.as_array().unwrap();
    assert_eq!(str_at(&items[0], "created_at"), Some("a"));
    assert_eq!(str_at(items[1].get("owner").unwrap(), "name"), Some("Bob"));
}

#[test]
fn transform_request_applies_renames_in_reverse() {
    let mut endpoint = sample_endpoint();
    endpoint.request = sample_response_mapping();
    let mut body = obj(vec![("created_at", text("2026-01-01")), ("node_id", text("should be stripped"))]);

    transform_request(&mut body, &endpoint);

    // source -> target direction: created_at becomes created
    assert_eq!(str_at(&body, "created"), Some("2026-01-01"));
    assert!(body.get("created_at").is_none());
    // node_id is a source-only default field; target doesn't understand it.
    assert!(body.get("node_id").is_none());
}

#[test]
fn request_then_response_gives_the_body_back() {
    let mut endpoint = EndpointMapping {
        source: "POST /pets".to_string(),
        target: "POST /pets".to_string(),
        ..Default::default()
    };
    endpoint.request.renames = names(vec![("created_at", "created"), ("name", "full_name")]);
    endpoint.response.renames = names(vec![("created_at", "created"), ("name", "full_name")]);
    let mf = MappingFile::default();
    let registry = SchemaRegistry::from_mapping_file(&mf);

    let mut body = obj(vec![("created_at", text("x")), ("name", text("Rex")), ("id", num("3"))]);
    transform_request(&mut body, &endpoint);
    assert_eq!(str_at(&body, "created"), Some("x"));
    assert_eq!(str_at(&body, "full_name"), Some("Rex"));
    transform_response(&mut body, &endpoint, &registry, &UnmappedFieldBehavior::Passthrough);
    assert_eq!(str_at(&body, "created_at"), Some("x"));
    assert_eq!(str_at(&body, "name"), Some("Rex"));
    assert!(matches!(body.get("id"), Some(JsonValue::Number(n)) if n == "3"));
    assert!(body.get("created").is_none());
    assert!(body.get("full_name").is_none());
}

#[test]
fn default_does_not_overwrite_a_present_field() {
    let mf = sample_mapping_file();
    let endpoint = &mf.endpoints[0];
    let registry = SchemaRegistry::from_mapping_file(&mf);
    let mut body = obj(vec![("node_id", text("abc"))]);
    transform_response(&mut body, endpoint, &registry, &UnmappedFieldBehavior::Passthrough);
    assert_eq!(str_at(&body, "node_id"), Some("abc"));
}

#[test]
fn scalars_pass_through_untouched() {
    let mf = sample_mapping_file();
    let endpoint = &mf.endpoints[0];
    let registry = SchemaRegistry::from_mapping_file(&mf);
    let mut body = text("plain");
    transform_response(&mut body, endpoint, &registry, &UnmappedFieldBehavior::Drop);
    assert_eq!(body.as_str(), Some("plain"));
}

#[test]
fn registry_keeps_the_last_schema_of_a_name() {
    let mut mf = MappingFile::default();
    for target in ["first", "second"] {
        mf.schemas.push(SchemaMapping {
            name: "Owner".to_string(),
            edited: false,
            renames: names(vec![("name", target)]),
            defaults: KeyedMap::new(),
            drops: vec![],
            type_conflicts: KeyedMap::new(),
        });
    }
    let registry = SchemaRegistry::from_mapping_file(&mf);
    let owner = registry.get("Owner").unwrap();
    assert_eq!(owner.renames.get("name").map(|s| s.as_str()), Some("second"));
    assert!(registry.get("Nobody").is_none());
}
