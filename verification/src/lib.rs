//! A minimal HTTP server core: the request grammar, the router, the response
//! format and the per-connection and accept-loop decisions, with every function
//! verified against a mathematical model of what it computes.
//!
//! The library never touches a socket or a file. A caller reads bytes, loads
//! resources and writes responses, and asks the library what each result means
//! and what to do next.

pub mod connection;
pub mod request;
pub mod response;
pub mod route;
pub mod server;


pub use connection::handle_connection;
pub use request::read_request;
pub use route::parse_request;
pub use server::run_server;
