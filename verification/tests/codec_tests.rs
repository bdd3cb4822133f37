use arcanine::{Collection, CollectionMetadata, HttpMethod, Request};

#[test]
fn test_collection_encode_parse_round_trip() {
    let collection = Collection::new("Round Trip")
        .with_description("every field filled")
        .with_author("Somebody")
        .add_request(
            Request::new("Get Users", "https://api.example.com/users")
                .with_method(HttpMethod::Get)
                .with_header("Accept", "application/json"),
        )
        .add_request(
            Request::new("Create User", "https://api.example.com/users")
                .with_method(HttpMethod::Post)
                .with_header("Content-Type", "application/json")
                .with_header("Authorization", "Bearer abc")
                .with_body(r#"{"name": "John"}"#),
        );

    let text = collection.encode();
    let loaded = Collection::parse(&text).expect("round trip should parse");

    assert_eq!(loaded.name, collection.name);
    assert_eq!(loaded.description, collection.description);
    assert_eq!(loaded.metadata.version, collection.metadata.version);
    assert_eq!(loaded.metadata.author, collection.metadata.author);
    assert_eq!(loaded.requests.len(), 2);
    assert_eq!(loaded.requests[0].name, "Get Users");
    assert_eq!(loaded.requests[1].name, "Create User");
    assert_eq!(loaded.requests[1].method, HttpMethod::Post);
    assert_eq!(loaded.requests[1].body, Some(r#"{"name": "John"}"#.to_string()));
    assert_eq!(
        loaded.requests[1].header("Authorization"),
        Some(&"Bearer abc".to_string())
    );
}

#[test]
fn test_round_trip_preserves_awkward_characters() {
    // Backslashes and newlines in scalars survive the trip because they
    // are escaped onto a single line.
    let collection = Collection::new("line one\nline two \\ backslash").add_request(
        Request::new("name with \\n literal", "https://example.com/a?q=x\\y")
            .with_body("body\nwith\nnewlines \\ and backslashes"),
    );

    let text = collection.encode();
    let loaded = Collection::parse(&text).unwrap();

    assert_eq!(loaded.name, "line one\nline two \\ backslash");
    assert_eq!(loaded.requests[0].name, "name with \\n literal");
    assert_eq!(loaded.requests[0].url, "https://example.com/a?q=x\\y");
    assert_eq!(
        loaded.requests[0].body,
        Some("body\nwith\nnewlines \\ and backslashes".to_string())
    );
}

#[test]
fn test_round_trip_empty_and_absent_fields() {
    // An empty description is distinct from an absent one.
    let with_empty = Collection::new("Empty").with_description("");
    let loaded = Collection::parse(&with_empty.encode()).unwrap();
    assert_eq!(loaded.description, Some(String::new()));

    let without = Collection::new("Absent");
    let loaded = Collection::parse(&without.encode()).unwrap();
    assert_eq!(loaded.description, None);

    let mut bare = Collection::new("Bare");
    bare.metadata = CollectionMetadata {
        version: None,
        author: None,
        created_at: None,
        updated_at: None,
    };
    let loaded = Collection::parse(&bare.encode()).unwrap();
    assert_eq!(loaded.metadata.version, None);
    assert_eq!(loaded.metadata.author, None);
}

#[test]
fn test_request_document_round_trip() {
    let request = Request::new("Ping", "https://example.com/ping")
        .with_method(HttpMethod::Head)
        .with_header("X-Trace", "1");

    let text = request.encode();
    let loaded = Request::parse(&text).unwrap();

    assert_eq!(loaded.name, "Ping");
    assert_eq!(loaded.method, HttpMethod::Head);
    assert_eq!(loaded.url, "https://example.com/ping");
    assert_eq!(loaded.header("X-Trace"), Some(&"1".to_string()));
}

#[test]
fn test_document_text_is_line_oriented() {
    let collection = Collection::new("Shape").add_request(Request::new(
        "One",
        "https://example.com",
    ));
    let text = collection.encode();

    assert!(text.contains("name: Shape"));
    assert!(text.contains("requests: 1"));
    assert!(text.contains("- name: One"));
    assert!(text.contains("  method: GET"));
    assert!(text.contains("  url: https://example.com"));
}

#[test]
fn test_parse_rejects_malformed_documents() {
    assert!(Collection::parse("").is_none());
    assert!(Collection::parse("name: X").is_none());
    assert!(Collection::parse("invalid: yaml: [[[").is_none());

    // A wrong request count is rejected.
    let good = Collection::new("Counted")
        .add_request(Request::new("One", "https://example.com"))
        .encode();
    let tampered = good.replace("requests: 1", "requests: 2");
    assert!(Collection::parse(&tampered).is_none());

    // Trailing garbage is rejected.
    let mut trailing = good.clone();
    trailing.push_str("extra line\n");
    assert!(Collection::parse(&trailing).is_none());

    assert!(Request::parse("not a request").is_none());
}

#[test]
fn test_all_methods_round_trip() {
    let methods = vec![
        HttpMethod::Get,
        HttpMethod::Post,
        HttpMethod::Put,
        HttpMethod::Patch,
        HttpMethod::Delete,
        HttpMethod::Head,
        HttpMethod::Options,
    ];
    for method in methods {
        let request = Request::new("M", "https://example.com").with_method(method);
        let loaded = Request::parse(&request.encode()).unwrap();
        assert_eq!(loaded.method, method);
    }
}
