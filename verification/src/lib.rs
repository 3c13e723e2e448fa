//! Core of a small concurrent HTTP server: a segment trie that routes
//! request paths to handlers, a request-line parser, the bookkeeping of a
//! fixed-size worker pool, and the formatting of response headers.
//!
//! Socket and thread plumbing live outside this crate; everything here is
//! pure logic over plain values, verified against its contracts.

pub mod path;
pub mod pool;
pub mod request;
pub mod response;
pub mod router;
