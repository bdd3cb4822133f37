use arcanine::store::{collection_file_stem, collection_folder_path, request_file_in_folder};
use arcanine::{Collection, HttpMethod, Request, YAMLStore, YAMLStoreError};

fn create_test_request() -> Request {
    Request::new("test-request", "https://api.example.com/users")
        .with_method(HttpMethod::Get)
        .with_header("Authorization", "Bearer token123")
}

fn create_test_collection() -> Collection {
    Collection::new("Test Collection")
        .with_description("A test collection for unit tests")
        .add_request(create_test_request())
}

#[test]
fn test_resolve_path_absolute_and_relative() {
    let store = YAMLStore::new("/data/collections");
    assert_eq!(store.resolve_path("/tmp/x.collection.yaml"), "/tmp/x.collection.yaml");
    assert_eq!(
        store.resolve_path("x.collection.yaml"),
        "/data/collections/x.collection.yaml"
    );
}

#[test]
fn test_collection_and_request_paths() {
    let store = YAMLStore::new("/data");
    assert_eq!(
        store.collection_file_path("api"),
        "/data/api.collection.yaml"
    );
    assert_eq!(store.request_file_path("ping"), "/data/ping.request.yaml");
}

#[test]
fn test_render_and_decode_collection_round_trip() {
    let store = YAMLStore::new("/data");
    let collection = create_test_collection();
    let (path, text) = store.render_collection(&collection, "test-collection");

    assert_eq!(path, "/data/test-collection.collection.yaml");

    let loaded = store.decode_collection(&text).unwrap();
    assert_eq!(loaded.name, collection.name);
    assert_eq!(loaded.description, collection.description);
    assert_eq!(loaded.requests.len(), collection.requests.len());
    assert_eq!(loaded.requests[0].name, "test-request");
    assert_eq!(loaded.requests[0].url, "https://api.example.com/users");
    assert_eq!(
        loaded.requests[0].header("Authorization"),
        Some(&"Bearer token123".to_string())
    );
}

#[test]
fn test_render_and_decode_request_round_trip() {
    let store = YAMLStore::new("/data");
    let request = create_test_request();
    let (path, text) = store.render_request(&request, "test");

    assert_eq!(path, "/data/test.request.yaml");

    let loaded = store.decode_request(&text).unwrap();
    assert_eq!(loaded.name, request.name);
    assert_eq!(loaded.method, request.method);
    assert_eq!(loaded.url, request.url);
}

#[test]
fn test_decode_malformed_text() {
    let store = YAMLStore::new("/data");

    let result = store.decode_request("invalid: yaml: content: [");
    assert!(result.is_err());
    assert!(matches!(
        result.unwrap_err(),
        YAMLStoreError::SerializeError(_)
    ));

    let result = store.decode_collection("not a document");
    assert!(result.is_err());
    assert!(matches!(
        result.unwrap_err(),
        YAMLStoreError::SerializeError(_)
    ));
}

#[test]
fn test_decode_request_validates_contents() {
    // An invalid request (empty URL) parses but fails the load-time
    // validation that requests, unlike collections, receive.
    let store = YAMLStore::new("/data");
    let mut invalid = Request::new("Test Request", "https://api.example.com");
    invalid.url = String::new();
    let (_, text) = store.render_request(&invalid, "invalid");

    let result = store.decode_request(&text);
    assert!(result.is_err());
    assert!(matches!(
        result.unwrap_err(),
        YAMLStoreError::ValidationError(_)
    ));

    // A collection load applies no such validation.
    let mut collection = Collection::new("Holder");
    collection.requests.push(invalid);
    let (_, text) = store.render_collection(&collection, "holder");
    assert!(store.decode_collection(&text).is_ok());
}

#[test]
fn test_file_not_found_message_carries_path() {
    let store = YAMLStore::new("/data/collections");
    let resolved = store.resolve_path("missing.collection.yaml");
    let err = YAMLStoreError::FileNotFound(resolved.clone());
    assert_eq!(resolved, "/data/collections/missing.collection.yaml");
    assert_eq!(
        err.display_string(),
        "File not found: /data/collections/missing.collection.yaml"
    );
}

#[test]
fn test_store_error_messages() {
    assert_eq!(
        YAMLStoreError::ReadError("disk gone".to_string()).display_string(),
        "Failed to read file: disk gone"
    );
    assert_eq!(
        YAMLStoreError::SerializeError("bad text".to_string()).display_string(),
        "Failed to serialize YAML: bad text"
    );
    assert_eq!(
        YAMLStoreError::InvalidPath.display_string(),
        "Invalid file path"
    );
    assert_eq!(
        YAMLStoreError::ValidationError("no url".to_string()).display_string(),
        "Validation error: no url"
    );
}

#[test]
fn test_collection_file_stem() {
    assert_eq!(
        collection_file_stem("/data/legacy.collection.yaml"),
        "legacy"
    );
    assert_eq!(collection_file_stem("plain.collection.yaml"), "plain");
    assert_eq!(collection_file_stem("/data/dir/notes.txt"), "notes.txt");
}

#[test]
fn test_collection_folder_path() {
    // New layout: the folder holds a bare collection.yaml.
    assert_eq!(
        collection_folder_path("/data/my-api/collection.yaml").unwrap(),
        "/data/my-api"
    );
    // Old layout: a sibling folder named after the stem.
    assert_eq!(
        collection_folder_path("/data/my-api.collection.yaml").unwrap(),
        "/data/my-api"
    );
    assert_eq!(collection_folder_path("plain.collection.yaml").unwrap(), "plain");
    assert_eq!(
        collection_folder_path("/data/other.txt").unwrap_err(),
        "Unsupported collection file format"
    );
}

#[test]
fn test_request_file_in_folder() {
    assert_eq!(
        request_file_in_folder("/data/my-api", "Get User").unwrap(),
        "/data/my-api/get-user.request.yaml"
    );
    assert!(request_file_in_folder("/data/my-api", "!!!").is_err());
}
