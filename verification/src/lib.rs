//! Storage and indexing layer for collections of HTTP request definitions.
//!
//! Collections and requests are plain data types with a validated shape;
//! they are persisted as human-readable text documents whose writer and
//! reader are proved to be exact inverses, and indexed in memory for
//! fast lookup.  The host application owns the file system and hands
//! file contents in and out; every decision about paths, documents,
//! validation and indexing is made — and verified — here.

pub mod codec;
pub mod collection;
pub mod error;
pub mod manager;
pub mod ops;
pub mod request;
pub mod request_store;
pub mod response;
pub mod store;
pub mod text;

pub use collection::{Collection, CollectionMetadata};
pub use error::{ModelError, ModelResult};
pub use manager::{CollectionManager, FileChangeType};
pub use ops::{
    delete_request_impl, list_requests_impl, plan_new_collection, sanitize_filename,
    save_request_impl, CreateCollectionResponse,
};
pub use request::{HttpMethod, Request};
pub use request_store::RequestStore;
pub use response::Response;
pub use store::{YAMLStore, YAMLStoreError, YAMLStoreResult};
