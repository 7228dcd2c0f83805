//! Core of a single-process HTTP/1.1 server: message codec, routing,
//! response construction, CGI environment and output handling, and the
//! connection lifecycle, all stated and proved over byte and character
//! sequences.  I/O itself (sockets, readiness polling, process spawning)
//! lives outside this crate.
pub mod builder;
pub mod config;
pub mod conn;
pub mod cgi;
pub mod handlers;
pub mod multipart;
pub mod parser;
pub mod request;
pub mod response;
pub mod router;
pub mod table;
pub mod text;
