//! The pure parts of the content handlers: path resolution, response
//! assembly, CGI text handling, and multipart decoding. File-system
//! and process work stays outside the crate; these functions compute
//! from and to plain values.

pub mod cgi;
pub mod error_page;
pub mod static_file;
pub mod upload;
