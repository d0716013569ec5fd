//! Extractors over the request context: protocol extensions and
//! request-local data.

pub mod extension;
pub mod local;
