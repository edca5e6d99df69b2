//! A small HTTP(S) application server core: route trie, request decoder,
//! response encoder, access control and the per-connection exchange logic.

mod text;
pub mod log;
pub mod error;
pub mod method;
pub mod parser;
pub mod trie;
pub mod router;
pub mod request;
pub mod response;
pub mod auth;
pub mod pipeline;
