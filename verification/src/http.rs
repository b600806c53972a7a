//! HTTP/1.1 wire types: methods, status codes, header lists, requests,
//! responses, the response serializer and the request parser.

pub mod headers;
pub mod method;
pub mod parser;
pub mod request;
pub mod response;
pub mod serializer;
pub mod status;
