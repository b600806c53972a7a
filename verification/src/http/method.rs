//! Request methods.

use vstd::prelude::*;
use crate::search::bytes_eq;
use crate::text::{str_bytes, lemma_str_bytes_eq};

verus! {

#[derive(Debug, Clone, Copy, PartialEq, Eq, Structural)]
pub enum Method {
    Get,
    Post,
    Delete,
}

/// The method named by `s`, if any; names are matched exactly.
pub open spec fn spec_parse_method(s: Seq<char>) -> Option<Method> {
    if s == "GET"@ {
        Some(Method::Get)
    } else if s == "POST"@ {
        Some(Method::Post)
    } else if s == "DELETE"@ {
        Some(Method::Delete)
    } else {
        None
    }
}

/// The canonical name of a method.
pub open spec fn method_chars(m: Method) -> Seq<char> {
    match m {
        Method::Get => "GET"@,
        Method::Post => "POST"@,
        Method::Delete => "DELETE"@,
    }
}

impl Method {
    pub fn parse(s: &str) -> (r: Option<Self>)
        ensures
            r == spec_parse_method(s@),
    {
        let b = s.as_bytes();
        proof {
            lemma_str_bytes_eq(s@, "GET"@);
            lemma_str_bytes_eq(s@, "POST"@);
            lemma_str_bytes_eq(s@, "DELETE"@);
        }
        if bytes_eq(b, "GET".as_bytes()) {
            Some(Method::Get)
        } else if bytes_eq(b, "POST".as_bytes()) {
            Some(Method::Post)
        } else if bytes_eq(b, "DELETE".as_bytes()) {
            Some(Method::Delete)
        } else {
            None
        }
    }
}

/// The canonical name of a method, as used in the CGI environment.
pub fn method_to_str(m: &Method) -> (r: &'static str)
    ensures
        r@ == method_chars(*m),
{
    match m {
        Method::Get => "GET",
        Method::Post => "POST",
        Method::Delete => "DELETE",
    }
}

} // verus!
