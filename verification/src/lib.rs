//! Request-handling core of the Dapil web framework: route tables,
//! parameter extraction and validation, response assembly.
pub mod text;
pub mod dict;
pub mod foreign;
pub mod headers;
pub mod request;
pub mod json;
pub mod params;
pub mod validate;
pub mod response;
pub mod server;
pub mod flow;
