//! A small HTTP/1.x server library: request parsing, response framing,
//! header formatting and the connection-control decisions of the server.

pub mod text;
pub mod number;
pub mod strings;
pub mod encoding;
pub mod headers;
pub mod utils;
pub mod http_magic;
pub mod control;
pub mod config;
pub mod server;
