//! Response status codes.

use vstd::prelude::*;

verus! {

#[derive(Debug, Clone, Copy, PartialEq, Eq, Structural)]
pub enum StatusCode {
    Okay,
    MovedPermanently,
    SeeOther,
    BadRequest,
    Forbidden,
    NotFound,
    MethodNotAllowed,
    PayloadTooLarge,
    InternalServerError,
}

/// The numeric code of a status.
pub open spec fn status_num(s: StatusCode) -> u16 {
    match s {
        StatusCode::Okay => 200,
        StatusCode::MovedPermanently => 301,
        StatusCode::SeeOther => 303,
        StatusCode::BadRequest => 400,
        StatusCode::Forbidden => 403,
        StatusCode::NotFound => 404,
        StatusCode::MethodNotAllowed => 405,
        StatusCode::PayloadTooLarge => 413,
        StatusCode::InternalServerError => 500,
    }
}

/// The reason phrase of a status.
pub open spec fn reason_chars(s: StatusCode) -> Seq<char> {
    match s {
        StatusCode::Okay => "OK"@,
        StatusCode::MovedPermanently => "Moved Permanently"@,
        StatusCode::SeeOther => "See Other"@,
        StatusCode::BadRequest => "Bad Request"@,
        StatusCode::Forbidden => "Forbidden"@,
        StatusCode::NotFound => "Not Found"@,
        StatusCode::MethodNotAllowed => "Method Not Allowed"@,
        StatusCode::PayloadTooLarge => "Payload Too Large"@,
        StatusCode::InternalServerError => "Internal Server Error"@,
    }
}

impl StatusCode {
    pub fn as_u16(self) -> (r: u16)
        ensures
            r == status_num(self),
    {
        match self {
            StatusCode::Okay => 200,
            StatusCode::MovedPermanently => 301,
            StatusCode::SeeOther => 303,
            StatusCode::BadRequest => 400,
            StatusCode::Forbidden => 403,
            StatusCode::NotFound => 404,
            StatusCode::MethodNotAllowed => 405,
            StatusCode::PayloadTooLarge => 413,
            StatusCode::InternalServerError => 500,
        }
    }

    pub fn reason(self) -> (r: &'static str)
        ensures
            r@ == reason_chars(self),
    {
        match self {
            StatusCode::Okay => "OK",
            StatusCode::MovedPermanently => "Moved Permanently",
            StatusCode::SeeOther => "See Other",
            StatusCode::BadRequest => "Bad Request",
            StatusCode::Forbidden => "Forbidden",
            StatusCode::NotFound => "Not Found",
            StatusCode::MethodNotAllowed => "Method Not Allowed",
            StatusCode::PayloadTooLarge => "Payload Too Large",
            StatusCode::InternalServerError => "Internal Server Error",
        }
    }
}

/// Maps a numeric code from a CGI `Status:` header to the internal
/// status taxonomy; unrecognized codes map to the server-error status.
pub open spec fn spec_map_status(code: u16) -> StatusCode {
    if code == 200 {
        StatusCode::Okay
    } else if code == 301 {
        StatusCode::MovedPermanently
    } else if code == 303 {
        StatusCode::SeeOther
    } else if code == 400 {
        StatusCode::BadRequest
    } else if code == 403 {
        StatusCode::Forbidden
    } else if code == 404 {
        StatusCode::NotFound
    } else if code == 405 {
        StatusCode::MethodNotAllowed
    } else if code == 413 {
        StatusCode::PayloadTooLarge
    } else {
        StatusCode::InternalServerError
    }
}

/// Recognized codes map to their status; everything else to 500.
pub fn map_status(code: u16) -> (r: StatusCode)
    ensures
        r == spec_map_status(code),
{
    match code {
        200 => StatusCode::Okay,
        301 => StatusCode::MovedPermanently,
        303 => StatusCode::SeeOther,
        400 => StatusCode::BadRequest,
        403 => StatusCode::Forbidden,
        404 => StatusCode::NotFound,
        405 => StatusCode::MethodNotAllowed,
        413 => StatusCode::PayloadTooLarge,
        _ => StatusCode::InternalServerError,
    }
}

} // verus!
