//! Parsed requests.

use vstd::prelude::*;
use super::headers::Headers;
use super::method::Method;

verus! {

/// One fully parsed HTTP request.
pub struct Request {
    pub method: Method,
    pub path: String,
    pub headers: Headers,
    pub body: Vec<u8>,
    pub content_length: Option<usize>,
    pub keep_alive: bool,
}

impl Request {
    /// Header names are unique.
    pub open spec fn wf(&self) -> bool {
        self.headers.wf()
    }
}

} // verus!
