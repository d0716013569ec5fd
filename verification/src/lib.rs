//! A verified core of an HTTP request router: path pattern compilation,
//! prefix recognition, nested scopes with inherited state and fallbacks,
//! method-indexed resource tables, and a per-request lifecycle state machine.
//!
//! The HTTP wire transport, body deserialization and file system access are
//! external collaborators; the library speaks to them through plain values.

pub mod strutil;

pub mod app;
pub mod extract;
pub mod extractor;
pub mod fs;
pub mod handler;
pub mod input;
pub mod lifecycle;
pub mod method;
pub mod tree;
pub mod recognizer;
pub mod modifier;
pub mod scope;
pub mod session;
pub mod uri;

pub use app::{app, App, AppData, RouterResult};
pub use method::Method;
pub use scope::{route, scope, Builder, Error, RouteDecl, Scope};
pub use tree::ScopeId;
