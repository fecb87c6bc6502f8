//! A small request-serving core: a segment trie that resolves a method and a
//! path to a handler, the framing of a request line and of a response, and
//! the task queue that a fixed pool of workers drains.

pub mod http_server;
pub mod path;
pub mod request;
pub mod response;
pub mod text;
pub mod thread_pool;
