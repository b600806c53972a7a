//! Responses under construction.

use vstd::prelude::*;
use super::headers::{Headers, hdr_insert};
use super::status::StatusCode;

verus! {

/// One HTTP response: status, headers, body bytes.
pub struct Response {
    pub status: StatusCode,
    pub headers: Headers,
    pub body: Vec<u8>,
}

impl Response {
    /// Header names are unique.
    pub open spec fn wf(&self) -> bool {
        self.headers.wf()
    }

    pub fn new(status: StatusCode) -> (r: Self)
        ensures
            r.status == status,
            r.headers@ =~= Seq::<(Seq<char>, Seq<char>)>::empty(),
            r.body@ =~= Seq::<u8>::empty(),
            r.wf(),
    {
        Response { status, headers: Headers::new(), body: Vec::new() }
    }

    /// Adds a `Set-Cookie` header (stateless: the header is only sent).
    pub fn set_cookie(&mut self, cookie: &str)
        ensures
            final(self).status == old(self).status,
            final(self).body == old(self).body,
            final(self).headers@ == hdr_insert(old(self).headers@, "Set-Cookie"@, cookie@),
            old(self).wf() ==> final(self).wf(),
    {
        let name = String::from_str("Set-Cookie");
        let value = String::from_str(cookie);
        self.headers.insert(name, value);
    }
}

} // verus!
