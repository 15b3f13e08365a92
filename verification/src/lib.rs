//! A small HTTP/1.1 server core without I/O: request parsing, response
//! serialization, a fixed-size worker pool with its job queue, and the
//! connection handler that ties them to an application.

pub mod ascii;
pub mod header;
pub mod http;
pub mod pool;
pub mod request;
pub mod response;
pub mod schedule;
