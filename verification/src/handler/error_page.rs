//! Error responses: configured page selection and the built-in body.

use vstd::prelude::*;
use crate::text::str_bytes;
use crate::num::dec_chars;
use crate::http::headers::hdr_insert;
use crate::http::response::Response;
use crate::http::status::{StatusCode, status_num, reason_chars};
use crate::config::ast::Server;

verus! {

/// The fallback message for a status code.
pub open spec fn default_message_chars(code: u16) -> Seq<char> {
    if code == 400 {
        "Bad Request"@
    } else if code == 403 {
        "Forbidden"@
    } else if code == 404 {
        "Not Found"@
    } else if code == 405 {
        "Method Not Allowed"@
    } else if code == 413 {
        "Payload Too Large"@
    } else if code == 500 {
        "Internal Server Error"@
    } else {
        "Unknown Error"@
    }
}

/// The fallback message for a status code.
pub fn default_message(code: u16) -> (r: &'static str)
    ensures
        r@ == default_message_chars(code),
{
    match code {
        400 => "Bad Request",
        403 => "Forbidden",
        404 => "Not Found",
        405 => "Method Not Allowed",
        413 => "Payload Too Large",
        500 => "Internal Server Error",
        _ => "Unknown Error",
    }
}

/// The built-in HTML body for a status.
pub open spec fn builtin_error_chars(st: StatusCode) -> Seq<char> {
    "<html><head><title>"@ + dec_chars(status_num(st) as nat) + " "@ + reason_chars(st)
        + "</title></head><body><h1>"@ + dec_chars(status_num(st) as nat) + " "@ + reason_chars(st)
        + "</h1><p>"@ + default_message_chars(status_num(st)) + "</p></body></html>"@
}

/// Renders the built-in HTML body for a status.
pub fn builtin_error_body(st: StatusCode) -> (r: Vec<u8>)
    ensures
        r@ == str_bytes(builtin_error_chars(st)),
{
    let code = st.as_u16();
    let digits = crate::num::u64_to_dec_string(code as u64);
    let mut page = String::from_str("<html><head><title>");
    page.append(digits.as_str());
    page.append(" ");
    page.append(st.reason());
    page.append("</title></head><body><h1>");
    page.append(digits.as_str());
    page.append(" ");
    page.append(st.reason());
    page.append("</h1><p>");
    page.append(default_message(code));
    page.append("</p></body></html>");
    assert(page@ =~= builtin_error_chars(st));
    vstd::slice::slice_to_vec(page.as_str().as_bytes())
}

/// The configured error page for `code`: the first matching entry.
pub open spec fn spec_custom_error_path(errors: Seq<(u16, Seq<char>)>, code: u16) -> Option<
    Seq<char>,
>
    decreases errors.len(),
{
    if errors.len() == 0 {
        None
    } else if errors[0].0 == code {
        Some(errors[0].1)
    } else {
        spec_custom_error_path(errors.drop_first(), code)
    }
}

/// The error entries of a server, as pairs.
pub open spec fn error_pairs(s: Server) -> Seq<(u16, Seq<char>)> {
    s.errors@.map_values(|e: crate::config::ast::ErrorPage| (e.code, e.path@))
}

/// Looks up the configured error page for `code`.
pub fn custom_error_path(server: &Server, code: u16) -> (r: Option<String>)
    ensures
        match r {
            Some(p) => spec_custom_error_path(error_pairs(*server), code) == Some(p@),
            None => spec_custom_error_path(error_pairs(*server), code) is None,
        },
{
    let ghost pairs = error_pairs(*server);
    let mut i: usize = 0;
    while i < server.errors.len()
        invariant
            0 <= i <= server.errors@.len(),
            pairs == error_pairs(*server),
            forall|j: int| 0 <= j < i ==> pairs[j].0 != code,
        decreases server.errors@.len() - i,
    {
        if server.errors[i].code == code {
            proof {
                lemma_custom_path_at(pairs, code, i as int);
            }
            return Some(server.errors[i].path.clone());
        }
        i += 1;
    }
    proof {
        lemma_custom_path_none(pairs, code);
    }
    None
}

proof fn lemma_custom_path_at(pairs: Seq<(u16, Seq<char>)>, code: u16, i: int)
    requires
        0 <= i < pairs.len(),
        pairs[i].0 == code,
        forall|j: int| 0 <= j < i ==> pairs[j].0 != code,
    ensures
        spec_custom_error_path(pairs, code) == Some(pairs[i].1),
    decreases i,
{
    if i > 0 {
        lemma_custom_path_at(pairs.drop_first(), code, i - 1);
    }
}

proof fn lemma_custom_path_none(pairs: Seq<(u16, Seq<char>)>, code: u16)
    requires
        forall|j: int| 0 <= j < pairs.len() ==> pairs[j].0 != code,
    ensures
        spec_custom_error_path(pairs, code) is None,
    decreases pairs.len(),
{
    if pairs.len() > 0 {
        lemma_custom_path_none(pairs.drop_first(), code);
    }
}

/// Completes an error response from an optionally loaded page file:
/// the page bytes when a file was read, else the built-in body; either
/// way typed as HTML.
pub fn error_response_with(st: StatusCode, page: Option<Vec<u8>>) -> (r: Response)
    ensures
        r.status == st,
        r.body@ == (match page {
            Some(bytes) => bytes@,
            None => str_bytes(builtin_error_chars(st)),
        }),
        r.headers@ == hdr_insert(Seq::empty(), "Content-Type"@, "text/html; charset=utf-8"@),
        r.wf(),
{
    let mut resp = Response::new(st);
    resp.body = match page {
        Some(bytes) => bytes,
        None => builtin_error_body(st),
    };
    resp.headers.insert(
        String::from_str("Content-Type"),
        String::from_str("text/html; charset=utf-8"),
    );
    resp
}

} // verus!
