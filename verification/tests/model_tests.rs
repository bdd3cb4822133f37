use arcanine::{Collection, HttpMethod, ModelError, Request, Response};

#[test]
fn test_request_creation() {
    let request = Request::new("Test Request", "https://api.example.com/users");

    assert_eq!(request.name, "Test Request");
    assert_eq!(request.url, "https://api.example.com/users");
    assert_eq!(request.method, HttpMethod::Get);
    assert!(request.headers.is_empty());
    assert!(request.body.is_none());
}

#[test]
fn test_request_builder() {
    let request = Request::new("Create User", "https://api.example.com/users")
        .with_method(HttpMethod::Post)
        .with_header("Content-Type", "application/json")
        .with_header("Authorization", "Bearer token123")
        .with_body(r#"{"name": "John Doe"}"#);

    assert_eq!(request.method, HttpMethod::Post);
    assert_eq!(request.headers.len(), 2);
    assert_eq!(
        request.header("Content-Type"),
        Some(&"application/json".to_string())
    );
    assert_eq!(request.body, Some(r#"{"name": "John Doe"}"#.to_string()));
}

#[test]
fn test_request_validation_success() {
    let request = Request::new("Valid Request", "https://api.example.com/users");
    assert!(request.validate().is_ok());

    let request = Request::new("HTTP Request", "http://example.com");
    assert!(request.validate().is_ok());
}

#[test]
fn test_request_validation_empty_name() {
    let request = Request::new("", "https://example.com");
    let result = request.validate();
    assert!(result.is_err());
    assert_eq!(
        result.unwrap_err(),
        ModelError::EmptyField("name".to_string())
    );

    let request = Request::new("   ", "https://example.com");
    assert!(request.validate().is_err());
}

#[test]
fn test_request_validation_empty_url() {
    let request = Request::new("Test", "");
    let result = request.validate();
    assert!(result.is_err());
    assert_eq!(
        result.unwrap_err(),
        ModelError::EmptyField("url".to_string())
    );
}

#[test]
fn test_request_validation_invalid_scheme() {
    let request = Request::new("Test", "ftp://example.com");
    let result = request.validate();
    assert!(result.is_err());
    match result.unwrap_err() {
        ModelError::InvalidUrl(msg) => assert!(msg.contains("must start with http://")),
        _ => panic!("Expected InvalidUrl error"),
    }

    let request = Request::new("Test", "example.com");
    assert!(request.validate().is_err());
}

#[test]
fn test_request_validation_no_domain() {
    let request = Request::new("Test", "https://");
    let result = request.validate();
    assert!(result.is_err());
    match result.unwrap_err() {
        ModelError::InvalidUrl(msg) => assert!(msg.contains("must contain a domain")),
        _ => panic!("Expected InvalidUrl error"),
    }
}

#[test]
fn test_http_method_display() {
    assert_eq!(HttpMethod::Get.display_string(), "GET");
    assert_eq!(HttpMethod::Post.display_string(), "POST");
    assert_eq!(HttpMethod::Delete.display_string(), "DELETE");
}

#[test]
fn test_request_display() {
    let request = Request::new("Test", "https://example.com");
    assert_eq!(request.display_string(), "GET https://example.com (Test)");

    let request = Request::new("Test", "https://api.example.com/users")
        .with_method(HttpMethod::Post)
        .with_header("Content-Type", "application/json")
        .with_body(r#"{"name": "John"}"#);
    assert_eq!(
        request.display_string(),
        "POST https://api.example.com/users (Test) with 1 header(s) with body"
    );
}

#[test]
fn test_collection_creation() {
    let collection = Collection::new("My API Tests");

    assert_eq!(collection.name, "My API Tests");
    assert!(collection.requests.is_empty());
    assert!(collection.description.is_none());
    assert_eq!(collection.metadata.version, Some("1.0.0".to_string()));
}

#[test]
fn test_collection_builder() {
    let request1 = Request::new("Get Users", "https://api.example.com/users");
    let request2 =
        Request::new("Create User", "https://api.example.com/users").with_method(HttpMethod::Post);

    let collection = Collection::new("User API")
        .with_description("API endpoints for user management")
        .with_author("John Doe")
        .add_request(request1)
        .add_request(request2);

    assert_eq!(collection.name, "User API");
    assert_eq!(
        collection.description,
        Some("API endpoints for user management".to_string())
    );
    assert_eq!(collection.metadata.author, Some("John Doe".to_string()));
    assert_eq!(collection.len(), 2);
    assert!(!collection.is_empty());
}

#[test]
fn test_find_request() {
    let request = Request::new("Test Request", "https://example.com");
    let collection = Collection::new("Test Collection").add_request(request);

    assert!(collection.find_request("Test Request").is_some());
    assert!(collection.find_request("Nonexistent").is_none());
}

#[test]
fn test_collection_display() {
    let collection = Collection::new("My API");
    assert_eq!(
        collection.display_string(),
        "Collection 'My API' (0 request(s))"
    );

    let request = Request::new("Test", "https://example.com");
    let collection = Collection::new("My API")
        .with_description("API endpoints for testing")
        .add_request(request);
    assert_eq!(
        collection.display_string(),
        "Collection 'My API' (1 request(s)): API endpoints for testing"
    );
}

#[test]
fn test_error_display() {
    let err = ModelError::InvalidUrl("not-a-url".to_string());
    assert_eq!(err.display_string(), "Invalid URL: not-a-url");

    let err = ModelError::InvalidStatusCode(600);
    assert_eq!(
        err.display_string(),
        "Invalid status code: 600 (must be 100-599)"
    );

    let err = ModelError::EmptyField("name".to_string());
    assert_eq!(err.display_string(), "Required field is empty: name");
}

#[test]
fn test_error_equality() {
    let err1 = ModelError::InvalidUrl("test".to_string());
    let err2 = ModelError::InvalidUrl("test".to_string());
    let err3 = ModelError::InvalidUrl("other".to_string());

    assert_eq!(err1, err2);
    assert_ne!(err1, err3);
}

#[test]
fn test_response_creation() {
    let response = Response::new(200, "OK", 150);

    assert_eq!(response.status, 200);
    assert_eq!(response.body, "OK");
    assert_eq!(response.response_time_ms, 150);
    assert!(response.headers.is_empty());
}

#[test]
fn test_response_with_headers() {
    let response = Response::new(200, r#"{"message": "success"}"#, 100)
        .with_header("Content-Type", "application/json")
        .with_header("X-Request-ID", "abc123");

    assert_eq!(response.headers.len(), 2);
    assert_eq!(
        response.header("Content-Type"),
        Some(&"application/json".to_string())
    );
}

#[test]
fn test_response_status_checks() {
    let success = Response::new(200, "", 100);
    assert!(success.is_success());
    assert!(!success.is_client_error());
    assert!(!success.is_server_error());

    let not_found = Response::new(404, "", 100);
    assert!(!not_found.is_success());
    assert!(not_found.is_client_error());
    assert!(!not_found.is_server_error());

    let server_error = Response::new(500, "", 100);
    assert!(!server_error.is_success());
    assert!(!server_error.is_client_error());
    assert!(server_error.is_server_error());
}

#[test]
fn test_response_validation_success() {
    let response = Response::new(200, "OK", 100);
    assert!(response.validate().is_ok());

    let response = Response::new(100, "", 100);
    assert!(response.validate().is_ok());

    let response = Response::new(599, "", 100);
    assert!(response.validate().is_ok());
}

#[test]
fn test_response_validation_invalid_status() {
    let response = Response::new(99, "", 100);
    let result = response.validate();
    assert!(result.is_err());
    assert_eq!(result.unwrap_err(), ModelError::InvalidStatusCode(99));

    let response = Response::new(600, "", 100);
    let result = response.validate();
    assert!(result.is_err());
    assert_eq!(result.unwrap_err(), ModelError::InvalidStatusCode(600));

    let response = Response::new(0, "", 100);
    assert!(response.validate().is_err());
}

#[test]
fn test_response_display() {
    let response = Response::new(200, "OK", 150);
    assert_eq!(response.display_string(), "HTTP 200 (150 ms), 2 bytes");

    let response = Response::new(404, "", 50).with_header("Content-Type", "text/html");
    assert_eq!(response.display_string(), "HTTP 404 (50 ms) with 1 header(s)");
}

#[test]
fn test_error_message_for_invalid_method() {
    let err = ModelError::InvalidMethod("FETCH".to_string());
    assert_eq!(err.display_string(), "Invalid HTTP method: FETCH");

    let err = ModelError::ValidationError("bad shape".to_string());
    assert_eq!(err.display_string(), "Validation error: bad shape");
}

#[test]
fn test_with_header_replaces_existing_value() {
    let request = Request::new("Test", "https://example.com")
        .with_header("Accept", "text/plain")
        .with_header("Accept", "application/json");

    assert_eq!(request.headers.len(), 1);
    assert_eq!(
        request.header("Accept"),
        Some(&"application/json".to_string())
    );
}

#[test]
fn test_validation_error_messages_name_url_fields() {
    // A request with an empty URL fails with a message identifying the
    // url field.
    let request = Request::new("Named", "");
    match request.validate().unwrap_err() {
        ModelError::EmptyField(field) => assert_eq!(field, "url"),
        _ => panic!("Expected EmptyField error"),
    }

    // A URL without an http(s) scheme fails with a scheme-related
    // message.
    let request = Request::new("Named", "www.example.com/path");
    match request.validate().unwrap_err() {
        ModelError::InvalidUrl(msg) => {
            assert_eq!(
                msg,
                "URL must start with http:// or https://: www.example.com/path"
            );
        }
        _ => panic!("Expected InvalidUrl error"),
    }
}
