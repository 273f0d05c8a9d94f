//! A small static-file HTTP server: request parsing, file lookup and response
//! building, with their contracts.

pub mod text;
pub mod config;
pub mod parsing;
pub mod utilities;
pub mod server;
