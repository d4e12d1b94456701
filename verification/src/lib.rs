//! An HTTP/1.1 server engine on raw streams: a route table with path
//! parameters, a request decoder for headers, cookies and bodies
//! (url-encoded and multipart), and a response writer for direct, chunked
//! and piped replies, with optional gzip compression.
//!
//! The library holds every decision of the pipeline, each with its contract;
//! it reads no socket and starts no thread. A dispatcher reads the bytes,
//! asks the library what to do with them, and writes what it answers:
//!
//! - [`server`]: registration, the order of the routes, the start, the
//!   admission of a request and its resolution;
//! - [`url`]: the request line and the matching of a path against a pattern;
//! - [`request`]: header lines into a request, the body into items, and the
//!   reader that takes a declared body off a stream;
//! - [`body`]: body items, and the decoding of multipart and url-encoded
//!   bodies;
//! - [`response`]: the framing of replies, and the pipe that frames a
//!   stream block by block;
//! - [`structs`]: methods, content types, status codes, headers, cookies;
//! - [`strmap`], [`seqs`], [`text`], [`utils`]: the map, sequence and text
//!   helpers under them.

pub mod body;
pub mod request;
pub mod response;
pub mod seqs;
pub mod server;
pub mod strmap;
pub mod structs;
pub mod text;
pub mod url;
pub mod utils;

pub use request::Request;
pub use response::Response;
pub use server::Server;
