use arcanine::{
    delete_request_impl, list_requests_impl, plan_new_collection, sanitize_filename,
    save_request_impl, HttpMethod, Request, RequestStore,
};
use std::sync::{Arc, Mutex};

fn create_test_request() -> Request {
    Request {
        name: "Test Request".to_string(),
        method: HttpMethod::Get,
        url: "https://httpbin.org/get".to_string(),
        headers: Vec::new(),
        body: None,
    }
}

#[test]
fn test_save_request_success() {
    let mut store = RequestStore::new();
    let request = create_test_request();

    let result = save_request_impl(request, &mut store);

    assert!(result.is_ok());

    // Verify it was saved
    assert_eq!(store.len(), 1);
}

#[test]
fn test_save_request_invalid() {
    let mut store = RequestStore::new();
    let mut request = create_test_request();
    request.name = "".to_string(); // Invalid empty name

    let result = save_request_impl(request, &mut store);

    assert!(result.is_err());
    assert!(result.unwrap_err().contains("empty"));
}

#[test]
fn test_save_request_duplicate() {
    let mut store = RequestStore::new();
    let request = create_test_request();

    // Save once
    let result1 = save_request_impl(request.clone(), &mut store);
    assert!(result1.is_ok());

    // Try to save again with same name
    let result2 = save_request_impl(request, &mut store);
    assert!(result2.is_err());
    assert!(result2.unwrap_err().contains("already exists"));
}

#[test]
fn test_list_requests_empty() {
    let store = RequestStore::new();

    let result = list_requests_impl(&store);

    assert!(result.is_ok());
    assert_eq!(result.unwrap().len(), 0);
}

#[test]
fn test_list_requests_multiple() {
    let mut store = RequestStore::new();

    // Add multiple requests
    let mut req1 = create_test_request();
    req1.name = "Request 1".to_string();
    save_request_impl(req1, &mut store).unwrap();

    let mut req2 = create_test_request();
    req2.name = "Request 2".to_string();
    save_request_impl(req2, &mut store).unwrap();

    let result = list_requests_impl(&store);

    assert!(result.is_ok());
    assert_eq!(result.unwrap().len(), 2);
}

#[test]
fn requests_test_delete_request_success() {
    let mut store = RequestStore::new();
    let request = create_test_request();
    let name = request.name.clone();

    // Save first
    save_request_impl(request, &mut store).unwrap();

    // Delete
    let result = delete_request_impl(name, &mut store);

    assert!(result.is_ok());

    // Verify it was deleted
    assert_eq!(store.len(), 0);
}

#[test]
fn test_delete_request_not_found() {
    let mut store = RequestStore::new();

    let result = delete_request_impl("NonExistent".to_string(), &mut store);

    assert!(result.is_err());
    assert!(result.unwrap_err().contains("not found"));
}

#[test]
fn test_delete_request_empty_name() {
    let mut store = RequestStore::new();

    let result = delete_request_impl("".to_string(), &mut store);

    assert!(result.is_err());
    assert!(result.unwrap_err().contains("cannot be empty"));
}

#[test]
fn test_request_store_initialization() {
    // Test that RequestStore can be created and wrapped in Arc<Mutex>
    let request_store = Arc::new(Mutex::new(RequestStore::new()));
    assert!(Arc::strong_count(&request_store) == 1);

    // Verify store starts empty
    let store = request_store.lock().unwrap();
    assert_eq!(store.len(), 0);
}

#[test]
fn test_sanitize_filename_cases() {
    assert_eq!(sanitize_filename("My API").unwrap(), "my-api");
    assert_eq!(
        sanitize_filename("Test@API#Collection!").unwrap(),
        "testapicollection"
    );
    assert_eq!(sanitize_filename("Hello World 123").unwrap(), "hello-world-123");
    assert_eq!(sanitize_filename("UPPERCASE").unwrap(), "uppercase");
    assert_eq!(sanitize_filename("with---dashes").unwrap(), "with---dashes");
}

#[test]
fn test_sanitize_filename_rejects_empty_results() {
    let expected = "Collection name must contain at least one alphanumeric character";
    assert_eq!(sanitize_filename("").unwrap_err(), expected);
    assert_eq!(sanitize_filename("!!!").unwrap_err(), expected);
    assert_eq!(sanitize_filename("---").unwrap_err(), expected);
    assert_eq!(sanitize_filename("   ").unwrap_err(), expected);
}

#[test]
fn test_plan_new_collection() {
    let planned = plan_new_collection("My API", "/data/collections").unwrap();
    assert_eq!(planned.collection.name, "My API");
    assert!(planned.collection.requests.is_empty());
    assert_eq!(
        planned.collection.metadata.version,
        Some("1.0.0".to_string())
    );
    assert_eq!(planned.path, "/data/collections/my-api/collection.yaml");

    let result = plan_new_collection("###", "/data/collections");
    assert!(result.is_err());
}
