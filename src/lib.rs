//! A tenant-namespaced asset store whose contents are summarised by a single
//! root digest, with resumable chunked uploads and chunked retrieval.

pub mod chunk;
pub mod digest;
pub mod http;
pub mod key;
pub mod mime;
pub mod registry;
pub mod store;
