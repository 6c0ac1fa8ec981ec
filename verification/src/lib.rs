//! The request, response and routing logic of an HTTP/1.1 server.

pub mod active_set;
pub mod attributes;
pub mod body;
pub mod connection;
pub mod control;
pub mod cookie_store;
pub mod compress;
pub mod cors;
pub mod date;
pub mod field_lines;
pub mod numbers;
pub mod outside;
pub mod request;
pub mod response;
pub mod route_definition;
pub mod router;
pub mod server;
pub mod static_files;
pub mod text;
pub mod tls;
