//! Request-time authorization checkpoint for a graph-query gateway.
//!
//! Given a schema-bound query document, the resolver walks the selection
//! tree and collects which access scopes the query's fields require and
//! whether any reachable field demands authentication.  The decision
//! engine then reads the request's `Authorization` header, validates the
//! bearer token it carries, compares the granted scopes against the
//! required ones, and answers with a single decision: continue, or deny
//! with a human-readable reason.

pub mod ast;
pub mod resolver;
pub mod text;
pub mod headers;
pub mod claims;
pub mod decision;
pub mod laws;
