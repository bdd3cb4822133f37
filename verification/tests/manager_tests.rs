use arcanine::{
    Collection, CollectionManager, FileChangeType, HttpMethod, Request, YAMLStore, YAMLStoreError,
};
use arcanine::manager::collection_change_paths;
use arcanine::store::filter_paths_with_suffix;

fn create_test_request(name: &str, url: &str) -> Request {
    Request::new(name, url).with_method(HttpMethod::Get)
}

fn create_test_collection(name: &str) -> Collection {
    Collection::new(name)
        .with_description("A test collection")
        .add_request(create_test_request(
            "Get Users",
            "https://api.example.com/users",
        ))
        .add_request(create_test_request(
            "Get Posts",
            "https://api.example.com/posts",
        ))
}

#[test]
fn test_validate_and_fix_collection() {
    let collection = Collection::new("Test")
        .add_request(create_test_request(
            "Request 1",
            "https://api.example.com/1",
        ))
        .add_request(create_test_request(
            "Request 1",
            "https://api.example.com/2",
        )); // Duplicate name

    let (fixed, issues) = CollectionManager::validate_and_fix_collection(&collection, true);

    assert!(!issues.is_empty(), "Should detect duplicate names");
    assert_eq!(fixed.requests[0].name, "Request 1");
    assert_eq!(fixed.requests[1].name, "Request 1 (1)"); // Fixed with suffix
}

#[test]
fn test_validate_without_fixing() {
    let collection = Collection::new("Test")
        .add_request(create_test_request(
            "Request 1",
            "https://api.example.com/1",
        ))
        .add_request(create_test_request(
            "Request 1",
            "https://api.example.com/2",
        ));

    let (fixed, issues) = CollectionManager::validate_and_fix_collection(&collection, false);

    assert!(!issues.is_empty());
    assert_eq!(fixed.requests[1].name, "Request 1"); // Not fixed
}

#[test]
fn test_validate_removes_invalid_requests() {
    let mut collection = Collection::new("Test").add_request(create_test_request(
        "Valid",
        "https://api.example.com/valid",
    ));

    // Add an invalid request manually
    let invalid = Request::new("Invalid", ""); // Empty URL is invalid
    collection.requests.push(invalid);

    let (fixed, issues) = CollectionManager::validate_and_fix_collection(&collection, true);

    assert!(!issues.is_empty(), "Should detect invalid request");
    assert_eq!(fixed.requests.len(), 1); // Invalid request removed
    assert_eq!(fixed.requests[0].name, "Valid");
}

#[test]
fn test_duplicate_fix_scenario_exact_messages() {
    // Collection "Test" with two requests both named "Get User", with
    // different URLs.
    let collection = Collection::new("Test")
        .add_request(create_test_request("Get User", "https://api.example.com/1"))
        .add_request(create_test_request("Get User", "https://api.example.com/2"));

    let (fixed, issues) = CollectionManager::validate_and_fix_collection(&collection, true);

    assert_eq!(
        issues,
        vec!["Duplicate request name 'Get User' at indices 0 and 1".to_string()]
    );
    assert_eq!(fixed.requests[0].name, "Get User");
    assert_eq!(fixed.requests[1].name, "Get User (1)");
    assert_eq!(fixed.requests.len(), 2);
}

#[test]
fn test_validate_reports_missing_version() {
    let mut collection = Collection::new("Test");
    collection.metadata.version = None;

    let (fixed, issues) = CollectionManager::validate_and_fix_collection(&collection, true);
    assert_eq!(issues, vec!["Missing version metadata".to_string()]);
    assert_eq!(fixed.metadata.version, Some("1.0.0".to_string()));

    let (unfixed, issues2) = CollectionManager::validate_and_fix_collection(&collection, false);
    assert_eq!(issues2, vec!["Missing version metadata".to_string()]);
    assert_eq!(unfixed.metadata.version, None);
}

#[test]
fn test_validate_invalid_issue_message() {
    let mut collection = Collection::new("Test");
    collection.requests.push(Request::new("Broken", ""));

    let (_, issues) = CollectionManager::validate_and_fix_collection(&collection, false);
    assert_eq!(
        issues,
        vec!["Invalid request 'Broken': Required field is empty: url".to_string()]
    );
}

#[test]
fn test_validate_no_fix_is_idempotent() {
    let collection = Collection::new("Test")
        .add_request(create_test_request("Req", "https://api.example.com"))
        .add_request(create_test_request("Req", "https://api.example.com"));

    let (first, issues1) = CollectionManager::validate_and_fix_collection(&collection, false);
    let (_, issues2) = CollectionManager::validate_and_fix_collection(&first, false);
    assert_eq!(issues1, issues2);
    assert_eq!(first.requests.len(), collection.requests.len());
}

#[test]
fn test_find_collection_by_name() {
    let mut manager = CollectionManager::new("/data/collections");
    let collection = create_test_collection("User API");

    manager.add_to_index("/data/collections/user-api.collection.yaml", &collection);

    let found = manager.find_collection_by_name("User API");
    assert!(found.is_some());
    assert_eq!(found.unwrap().name, "User API");

    let missing = manager.find_collection_by_name("Nonexistent");
    assert!(missing.is_none());
}

#[test]
fn test_find_request_by_name() {
    let mut manager = CollectionManager::new("/data/collections");
    let collection = create_test_collection("Test API");
    manager.add_to_index("/data/collections/test-api.collection.yaml", &collection);

    let request = manager.find_request_by_name("Get Users");
    assert!(request.is_some());
    assert_eq!(request.unwrap().url, "https://api.example.com/users");

    let missing = manager.find_request_by_name("Nonexistent");
    assert!(missing.is_none());
}

#[test]
fn test_request_index_uniqueness() {
    let mut manager = CollectionManager::new("/data");

    // Two collections sharing a request name: the last one indexed wins.
    let collection1 =
        Collection::new("API 1").add_request(create_test_request("Common Request", "https://api1.com"));
    let collection2 =
        Collection::new("API 2").add_request(create_test_request("Common Request", "https://api2.com"));

    manager.add_to_index("/data/api1.collection.yaml", &collection1);
    manager.add_to_index("/data/api2.collection.yaml", &collection2);

    let request = manager.find_request_by_name("Common Request");
    assert!(request.is_some());
    assert_eq!(request.unwrap().url, "https://api2.com");
}

#[test]
fn test_get_all_collections() {
    let mut manager = CollectionManager::new("/data");
    manager.add_to_index("/data/api1.collection.yaml", &create_test_collection("API 1"));
    manager.add_to_index("/data/api2.collection.yaml", &create_test_collection("API 2"));

    let all = manager.get_all_collections();
    assert_eq!(all.len(), 2);
}

#[test]
fn test_clear_index() {
    let mut manager = CollectionManager::new("/data");
    manager.add_to_index("/data/api1.collection.yaml", &create_test_collection("API 1"));
    assert_eq!(manager.collection_count(), 1);

    manager.clear_index();
    assert_eq!(manager.collection_count(), 0);
}

#[test]
fn test_delete_collection_index_half() {
    // Saving then deleting brings the collection count back down by
    // exactly one; the host application removes the file itself.
    let mut manager = CollectionManager::new("/data");
    let store = YAMLStore::new("/data");
    let collection = create_test_collection("API 1");
    let (path, _text) = store.render_collection(&collection, "api1");
    manager.add_to_index(&path, &collection);
    assert_eq!(manager.collection_count(), 1);

    manager.remove_from_index(&path);
    assert_eq!(manager.collection_count(), 0);

    // Removing an absent path is a no-op for the index half.
    manager.remove_from_index(&path);
    assert_eq!(manager.collection_count(), 0);
}

#[test]
fn test_ingest_collection_updates_index() {
    let mut manager = CollectionManager::new("/data");
    let text = create_test_collection("Loaded API").encode();

    let loaded = manager
        .ingest_collection("/data/loaded.collection.yaml", &text)
        .unwrap();
    assert_eq!(loaded.name, "Loaded API");
    assert_eq!(manager.collection_count(), 1);
    assert!(manager.find_request_by_name("Get Users").is_some());
}

#[test]
fn test_ingest_collection_rejects_malformed_text() {
    let mut manager = CollectionManager::new("/data");

    let result = manager.ingest_collection("/data/bad.collection.yaml", "invalid: yaml: [[[");
    assert!(result.is_err());
    assert!(matches!(
        result.unwrap_err(),
        YAMLStoreError::SerializeError(_)
    ));
    assert_eq!(manager.collection_count(), 0);
}

#[test]
fn test_ingest_many_skips_failures() {
    let mut manager = CollectionManager::new("/data");
    let good1 = create_test_collection("Valid API").encode();
    let good2 = create_test_collection("Other API").encode();

    let files = vec![
        ("/data/valid.collection.yaml".to_string(), good1),
        ("/data/bad.collection.yaml".to_string(), "invalid: [[[".to_string()),
        ("/data/other.collection.yaml".to_string(), good2),
    ];
    let count = manager.ingest_many(&files);
    assert_eq!(count, 2);
    assert_eq!(manager.collection_count(), 2);
}

#[test]
fn test_watcher_flag() {
    let mut manager = CollectionManager::new("/data");
    assert!(!manager.is_watching());

    manager.set_watching(true);
    assert!(manager.is_watching());

    manager.stop_watching();
    assert!(!manager.is_watching());
}

#[test]
fn test_file_change_type_equality() {
    assert_eq!(FileChangeType::Created, FileChangeType::Created);
    assert_ne!(FileChangeType::Created, FileChangeType::Deleted);
    assert_ne!(FileChangeType::Modified, FileChangeType::Deleted);
}

#[test]
fn test_scan_filter_nested_paths() {
    // A tree with two matching files nested one directory deep and one
    // at the root yields all three paths.
    let paths = vec![
        "/base/root-api.collection.yaml".to_string(),
        "/base/apis/nested-api.collection.yaml".to_string(),
        "/base/apis/deep/another.collection.yaml".to_string(),
        "/base/readme.txt".to_string(),
        "/base/apis/request-one.request.yaml".to_string(),
    ];
    let found = filter_paths_with_suffix(&paths, ".collection.yaml");
    assert_eq!(
        found,
        vec![
            "/base/root-api.collection.yaml".to_string(),
            "/base/apis/nested-api.collection.yaml".to_string(),
            "/base/apis/deep/another.collection.yaml".to_string(),
        ]
    );

    let requests = filter_paths_with_suffix(&paths, ".request.yaml");
    assert_eq!(requests.len(), 1);
}

#[test]
fn test_collection_change_paths_relativizes() {
    let paths = vec![
        "/base/api.collection.yaml".to_string(),
        "/base/sub/other.collection.yaml".to_string(),
        "/elsewhere/out.collection.yaml".to_string(),
        "/base/notes.txt".to_string(),
    ];
    let reported = collection_change_paths(&paths, "/base");
    assert_eq!(
        reported,
        vec![
            "api.collection.yaml".to_string(),
            "sub/other.collection.yaml".to_string(),
            "/elsewhere/out.collection.yaml".to_string(),
        ]
    );
}

#[test]
fn test_check_integrity() {
    let collection = create_test_collection("Test API");
    let issues = CollectionManager::check_integrity(&Ok(collection));
    assert!(issues.is_empty(), "Valid collection should have no issues");
}

#[test]
fn test_check_integrity_failed_load() {
    let failed: arcanine::YAMLStoreResult<Collection> = Err(YAMLStoreError::FileNotFound(
        "/data/gone.collection.yaml".to_string(),
    ));
    let issues = CollectionManager::check_integrity(&failed);
    assert_eq!(
        issues,
        vec!["Failed to load collection: File not found: /data/gone.collection.yaml".to_string()]
    );
}

#[test]
fn test_check_integrity_with_issues() {
    let collection = Collection::new("Test")
        .add_request(create_test_request("Req", "https://api.example.com"))
        .add_request(create_test_request("Req", "https://api.example.com")); // Duplicate

    let issues = CollectionManager::check_integrity(&Ok(collection));
    assert!(!issues.is_empty(), "Should detect duplicate names");
}

#[test]
fn test_apply_migration() {
    // Collection without full metadata.
    let mut collection = create_test_collection("Legacy API");
    collection.metadata.version = None;
    collection.metadata.created_at = None;
    collection.metadata.updated_at = None;

    let migrated = CollectionManager::apply_migration(collection, "2024-05-01T12:00:00+00:00");

    assert_eq!(migrated.metadata.version, Some("1.0.0".to_string()));
    assert_eq!(
        migrated.metadata.created_at,
        Some("2024-05-01T12:00:00+00:00".to_string())
    );
    assert_eq!(migrated.metadata.updated_at, migrated.metadata.created_at);

    // A collection that already has timestamps keeps them.
    let mut stamped = create_test_collection("Current API");
    stamped.metadata.created_at = Some("2020-01-01T00:00:00+00:00".to_string());
    stamped.metadata.updated_at = Some("2021-01-01T00:00:00+00:00".to_string());
    let kept = CollectionManager::apply_migration(stamped, "2024-05-01T12:00:00+00:00");
    assert_eq!(
        kept.metadata.created_at,
        Some("2020-01-01T00:00:00+00:00".to_string())
    );
    assert_eq!(
        kept.metadata.updated_at,
        Some("2021-01-01T00:00:00+00:00".to_string())
    );

    // A collection missing only the update timestamp has both stamped.
    let mut half = create_test_collection("Half API");
    half.metadata.created_at = Some("2020-01-01T00:00:00+00:00".to_string());
    half.metadata.updated_at = None;
    let restamped = CollectionManager::apply_migration(half, "2024-05-01T12:00:00+00:00");
    assert_eq!(
        restamped.metadata.created_at,
        Some("2024-05-01T12:00:00+00:00".to_string())
    );
    assert_eq!(restamped.metadata.updated_at, restamped.metadata.created_at);
}

#[test]
fn test_migrate_collection() {
    let mut collection = create_test_collection("Legacy API");
    collection.metadata.created_at = None;
    collection.metadata.updated_at = None;

    let migrated = CollectionManager::migrate_collection(collection);

    assert!(migrated.metadata.created_at.is_some());
    assert!(migrated.metadata.updated_at.is_some());
    assert_eq!(migrated.metadata.created_at, migrated.metadata.updated_at);
}
