//! A small HTTP/1.1 request router: request parsing, a route table with a
//! fallback handler, and the framing of static content.

pub mod content;
pub mod request;
pub mod routes;
pub mod text;

pub use request::{HttpMethod, Request};
pub use content::{respond, static_reply};
pub use routes::{DataType, Route, Routes};


