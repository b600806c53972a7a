//! Uploads: multipart decoding, file-name sanitizing, and the upload
//! decision. Writing the file stays outside the crate.

use vstd::prelude::*;
use vstd::utf8::valid_utf8;
use crate::search::{spec_find, find_sub, starts_with, bytes_start_with};
use crate::text::{str_bytes, trim_seq, trim_bytes, bytes_to_string};
use crate::http::headers::{hdr_lookup, hdr_insert};
use crate::http::method::Method;
use crate::http::request::Request;
use crate::http::response::Response;
use crate::http::status::StatusCode;
use crate::config::ast::Server;
use crate::config::parser::rfind_byte;

verus! {

/// `s` without leading and trailing double quotes.
pub open spec fn trim_quotes(s: Seq<u8>) -> Seq<u8>
    decreases s.len(),
{
    if s.len() > 0 && s[0] == 34 {
        trim_quotes(s.drop_first())
    } else if s.len() > 0 && s.last() == 34 {
        trim_quotes(s.drop_last())
    } else {
        s
    }
}

/// The text between the first `filename=` of a part header line and
/// its end, dequoted; `None` when the line carries no usable name.
pub open spec fn line_filename(l: Seq<u8>) -> Option<Seq<u8>> {
    if !starts_with(l, str_bytes("Content-Disposition:"@)) {
        None
    } else {
        match spec_find(l, str_bytes("filename="@)) {
            Some(i) => {
                let rest0 = l.skip(i + 9);
                let rest = match spec_find(rest0, str_bytes("filename="@)) {
                    Some(j) => rest0.take(j),
                    None => rest0,
                };
                let name = trim_quotes(trim_seq(rest));
                if name.len() > 0 {
                    Some(name)
                } else {
                    None
                }
            },
            None => None,
        }
    }
}

/// The file name carried by a part's header block: the last usable
/// `Content-Disposition` name among its lines.
pub open spec fn part_filename_of(lines: Seq<Seq<u8>>) -> Option<Seq<u8>>
    decreases lines.len(),
{
    if lines.len() == 0 {
        None
    } else {
        match line_filename(lines.last()) {
            Some(n) => Some(n),
            None => part_filename_of(lines.drop_last()),
        }
    }
}

/// What one part yields: its file name and content, when its header
/// block is valid UTF-8 and names a file.
pub open spec fn spec_part(part: Seq<u8>) -> Option<(Seq<u8>, Seq<u8>)> {
    match spec_find(part, seq![13u8, 10u8, 13u8, 10u8]) {
        Some(he) => {
            let hb = part.take(he);
            let content = part.skip(he + 4);
            if valid_utf8(hb) {
                match part_filename_of(crate::handler::cgi::cgi_lines(hb)) {
                    Some(n) => Some((n, content)),
                    None => None,
                }
            } else {
                None
            }
        },
        None => None,
    }
}

/// Walks parts from `pos`, delimited by `delim`, returning the first
/// part that names a file.
pub open spec fn spec_parts_from(delim: Seq<u8>, body: Seq<u8>, pos: int) -> Option<
    (Seq<u8>, Seq<u8>),
>
    decreases body.len() - pos,
    via spec_parts_from_decreases
{
    if !(0 <= pos <= body.len()) || delim.len() < 3 {
        None
    } else {
        match spec_find(body.skip(pos), delim) {
            None => None,
            Some(e0) => {
                let part = body.subrange(pos, pos + e0);
                match spec_part(part) {
                    Some(fc) => Some(fc),
                    None => {
                        let next = pos + e0 + delim.len();
                        if next + 2 <= body.len() && body.subrange(next, next + 2) == str_bytes(
                            "--"@,
                        ) {
                            None
                        } else if next + 2 <= body.len() && body.subrange(next, next + 2)
                            == seq![13u8, 10u8] {
                            spec_parts_from(delim, body, next + 2)
                        } else {
                            None
                        }
                    },
                }
            },
        }
    }
}

#[via_fn]
proof fn spec_parts_from_decreases(delim: Seq<u8>, body: Seq<u8>, pos: int) {
    if 0 <= pos <= body.len() && delim.len() >= 3 {
        crate::search::lemma_spec_find(body.skip(pos), delim);
    }
}

/// The first file-carrying part of a multipart body: after the first
/// boundary and its line break, parts run up to `\r\n` plus the
/// boundary; a `--` after a boundary ends the walk.
pub open spec fn spec_multipart(boundary: Seq<u8>, body: Seq<u8>) -> Option<(Seq<u8>, Seq<u8>)> {
    if boundary.len() == 0 {
        None
    } else {
        match spec_find(body, boundary) {
            None => None,
            Some(s0) => {
                let start = s0 + boundary.len();
                if start + 2 <= body.len() && body.subrange(start, start + 2) == seq![13u8, 10u8] {
                    spec_parts_from(seq![13u8, 10u8] + boundary, body, start + 2)
                } else {
                    None
                }
            },
        }
    }
}

/// Finds the first file-carrying part, as `spec_multipart` prescribes;
/// the name comes back as text when it is valid UTF-8.
#[verifier::rlimit(100)]
pub fn parse_multipart(boundary: &str, body: &[u8]) -> (r: Option<(String, Vec<u8>)>)
    ensures
        ({
            let out = spec_multipart(str_bytes(boundary@), body@);
            match r {
                Some((f, c)) => out matches Some(fc) && str_bytes(f@) == fc.0 && c@ == fc.1
                    && valid_utf8(fc.0),
                None => out is None || (out matches Some(fc) && !valid_utf8(fc.0)),
            }
        }),
{
    let bb = boundary.as_bytes();
    let body_len = body.len();
    if bb.len() == 0 {
        return None;
    }
    let s0 = match find_sub(body, bb) {
        Some(i) => i,
        None => {
            return None;
        },
    };
    let start = s0 + bb.len();
    let mut crlf: Vec<u8> = Vec::new();
    crlf.push(13);
    crlf.push(10);
    assert(crlf@ =~= seq![13u8, 10u8]);
    if body_len - start < 2 {
        return None;
    }
    if !(body[start] == 13 && body[start + 1] == 10) {
        proof {
            assert(body@.subrange(start as int, start + 2) != seq![13u8, 10u8]);
        }
        return None;
    }
    proof {
        assert(body@.subrange(start as int, start + 2) =~= seq![13u8, 10u8]);
    }
    let mut delim: Vec<u8> = Vec::new();
    delim.push(13);
    delim.push(10);
    delim.extend_from_slice(bb);
    proof {
        assert(delim@ =~= seq![13u8, 10u8] + bb@);
        assert(delim@.len() >= 3);
    }
    let mut pos: usize = start + 2;
    loop
        invariant
            0 <= pos <= body@.len(),
            body_len == body@.len(),
            delim@ == seq![13u8, 10u8] + str_bytes(boundary@),
            delim@.len() >= 3,
            crlf@ == seq![13u8, 10u8],
            spec_multipart(str_bytes(boundary@), body@) == spec_parts_from(
                delim@,
                body@,
                pos as int,
            ),
        decreases body@.len() - pos,
    {
        let ghost cur = pos as int;
        let rest = vstd::slice::slice_subrange(body, pos, body_len);
        assert(rest@ == body@.skip(pos as int));
        let e0 = match find_sub(rest, delim.as_slice()) {
            Some(i) => i,
            None => {
                return None;
            },
        };
        let part = vstd::slice::slice_subrange(body, pos, pos + e0);
        proof {
            assert(part@ =~= body@.subrange(cur, cur + e0));
        }
        match try_part(part) {
            PartOut::File(f, c) => {
                return Some((f, c));
            },
            PartOut::BadName => {
                return None;
            },
            PartOut::NoFile => {},
        }
        let next = pos + e0 + delim.len();
        assert(next <= body_len);
        if body_len - next < 2 {
            proof {
                assert(!(next + 2 <= body@.len()));
            }
            return None;
        }
        let two = vstd::slice::slice_subrange(body, next, next + 2);
        proof {
            assert(two@ =~= body@.subrange(next as int, next + 2));
            reveal_strlit("--");
            assert(vstd::utf8::is_ascii_chars("--"@));
            vstd::utf8::is_ascii_chars_encode_utf8("--"@);
            assert(str_bytes("--"@) =~= seq![45u8, 45u8]);
        }
        if two[0] == 45 && two[1] == 45 {
            proof {
                assert(two@ =~= seq![45u8, 45u8]);
            }
            return None;
        }
        if two[0] == 13 && two[1] == 10 {
            proof {
                assert(two@ =~= seq![13u8, 10u8]);
                assert(body@.subrange(next as int, next + 2) != str_bytes("--"@));
            }
            pos = next + 2;
        } else {
            proof {
                assert(two@ != seq![13u8, 10u8]);
                assert(two@ != str_bytes("--"@));
            }
            return None;
        }
    }
}

/// Outcome of inspecting one part.
enum PartOut {
    /// The part names this file with this content.
    File(String, Vec<u8>),
    /// The part names a file whose name is not valid UTF-8.
    BadName,
    /// The part names no file.
    NoFile,
}

/// Inspects one part for a usable file name and its content.
#[verifier::rlimit(100)]
fn try_part(part: &[u8]) -> (r: PartOut)
    ensures
        match r {
            PartOut::File(f, c) => spec_part(part@) matches Some(fc) && str_bytes(f@) == fc.0
                && c@ == fc.1 && valid_utf8(fc.0),
            PartOut::BadName => spec_part(part@) matches Some(fc) && !valid_utf8(fc.0),
            PartOut::NoFile => spec_part(part@) is None,
        },
{
    let part_len = part.len();
    let mut sep4: Vec<u8> = Vec::new();
    sep4.push(13);
    sep4.push(10);
    sep4.push(13);
    sep4.push(10);
    assert(sep4@ =~= seq![13u8, 10u8, 13u8, 10u8]);
    let he = match find_sub(part, sep4.as_slice()) {
        Some(i) => i,
        None => {
            return PartOut::NoFile;
        },
    };
    let hb = vstd::slice::slice_subrange(part, 0, he);
    assert(hb@ =~= part@.take(he as int));
    if bytes_to_string(vstd::slice::slice_to_vec(hb)).is_none() {
        return PartOut::NoFile;
    }
    let lines = crate::handler::cgi::split_lf_stripped(hb);
    let ghost ls = crate::handler::cgi::cgi_lines(hb@);
    let mut found: Option<Vec<u8>> = None;
    let mut li: usize = 0;
    proof {
        assert(ls.take(0) =~= Seq::<Seq<u8>>::empty());
    }
    while li < lines.len()
        invariant
            0 <= li <= lines@.len(),
            lines@.map_values(|v: Vec<u8>| v@) == ls,
            match found {
                Some(n) => part_filename_of(ls.take(li as int)) == Some(n@),
                None => part_filename_of(ls.take(li as int)) is None,
            },
        decreases lines@.len() - li,
    {
        let ghost l = ls[li as int];
        let line = &lines[li];
        assert(line@ == l);
        match line_filename_exec(line.as_slice()) {
            Some(n) => {
                found = Some(n);
            },
            None => {},
        }
        proof {
            assert(ls.take(li + 1).drop_last() =~= ls.take(li as int));
            assert(ls.take(li + 1).last() == l);
        }
        li += 1;
    }
    proof {
        assert(ls.take(ls.len() as int) =~= ls);
    }
    match found {
        Some(n) => {
            let content = vstd::slice::slice_to_vec(
                vstd::slice::slice_subrange(part, he + 4, part_len),
            );
            assert(content@ =~= part@.skip(he + 4));
            let ghost nb = n@;
            match bytes_to_string(n) {
                Some(f) => PartOut::File(f, content),
                None => PartOut::BadName,
            }
        },
        None => PartOut::NoFile,
    }
}

/// Extracts the dequoted file name of one header line, if any.
#[verifier::rlimit(100)]
fn line_filename_exec(l: &[u8]) -> (r: Option<Vec<u8>>)
    ensures
        match r {
            Some(n) => line_filename(l@) == Some(n@),
            None => line_filename(l@) is None,
        },
{
    if !bytes_start_with(l, "Content-Disposition:".as_bytes()) {
        return None;
    }
    let l_len = l.len();
    let fi = match find_sub(l, "filename=".as_bytes()) {
        Some(i) => i,
        None => {
            return None;
        },
    };
    proof {
        reveal_strlit("filename=");
        assert(vstd::utf8::is_ascii_chars("filename="@));
        vstd::utf8::is_ascii_chars_encode_utf8("filename="@);
        assert(str_bytes("filename="@).len() == 9);
    }
    let rest0 = vstd::slice::slice_subrange(l, fi + 9, l_len);
    assert(rest0@ =~= l@.skip(fi + 9));
    let rest = match find_sub(rest0, "filename=".as_bytes()) {
        Some(j) => vstd::slice::slice_subrange(rest0, 0, j),
        None => rest0,
    };
    let trimmed = trim_bytes(rest);
    let name = trim_quotes_exec(trimmed);
    if name.len() > 0 {
        Some(name)
    } else {
        None
    }
}

proof fn lemma_trim_quotes_range(s: Seq<u8>, lo: int, hi: int)
    requires
        0 <= lo <= hi <= s.len(),
        forall|j: int| 0 <= j < lo ==> s[j] == 34,
        forall|j: int| hi <= j < s.len() ==> s[j] == 34,
        lo < hi ==> s[lo] != 34,
        lo < hi ==> s[hi - 1] != 34,
        lo == hi ==> lo == 0 || hi == s.len(),
    ensures
        trim_quotes(s) == s.subrange(lo, hi),
    decreases s.len(),
{
    if s.len() == 0 {
        assert(s.subrange(lo, hi) =~= s);
    } else if s[0] == 34 {
        if lo > 0 {
            lemma_trim_quotes_range(s.drop_first(), lo - 1, hi - 1);
            assert(s.drop_first().subrange(lo - 1, hi - 1) =~= s.subrange(lo, hi));
        } else {
            assert(lo == 0);
            assert(lo == hi || s[lo] != 34);
            assert(lo == hi);
            assert(hi == s.len() || hi == 0);
            if hi == s.len() {
                assert(s[0] != 34);
            } else {
                lemma_trim_quotes_range(s.drop_first(), 0, 0);
                assert(s.drop_first().subrange(0, 0) =~= s.subrange(lo, hi));
            }
        }
    } else if s.last() == 34 {
        if hi < s.len() {
            lemma_trim_quotes_range(s.drop_last(), lo, hi);
            assert(s.drop_last().subrange(lo, hi) =~= s.subrange(lo, hi));
        } else {
            assert(hi == s.len());
            assert(lo < hi ==> s[hi - 1] != 34);
            assert(lo == hi);
            assert(lo == 0);
            assert(s[0] != 34);
        }
    } else {
        assert(lo == 0 && hi == s.len()) by {
            if lo > 0 {
                assert(s[0] == 34);
            }
            if hi < s.len() {
                assert(s.last() == 34);
            }
        }
        assert(s.subrange(lo, hi) =~= s);
    }
}

/// Removes leading and trailing double quotes.
fn trim_quotes_exec(v: Vec<u8>) -> (r: Vec<u8>)
    ensures
        r@ == trim_quotes(v@),
{
    let mut lo: usize = 0;
    let v_len = v.len();
    while lo < v_len && v[lo] == 34
        invariant
            0 <= lo <= v@.len(),
            v_len == v@.len(),
            forall|j: int| 0 <= j < lo ==> v@[j] == 34,
        decreases v@.len() - lo,
    {
        lo += 1;
    }
    let mut hi: usize = v_len;
    while hi > lo && v[hi - 1] == 34
        invariant
            lo <= hi <= v@.len(),
            forall|j: int| hi <= j < v@.len() ==> v@[j] == 34,
        decreases hi,
    {
        hi -= 1;
    }
    proof {
        lemma_trim_quotes_range(v@, lo as int, hi as int);
    }
    let r = vstd::slice::slice_to_vec(vstd::slice::slice_subrange(v.as_slice(), lo, hi));
    assert(r@ =~= v@.subrange(lo as int, hi as int));
    r
}

/// The boundary token of a multipart content type: two dashes and the
/// trimmed text between the first `boundary=` and the next, if any.
pub open spec fn spec_boundary(ct: Seq<u8>) -> Option<Seq<u8>> {
    match spec_find(ct, str_bytes("boundary="@)) {
        Some(i) => {
            let rest0 = ct.skip(i + 9);
            let piece = match spec_find(rest0, str_bytes("boundary="@)) {
                Some(j) => rest0.take(j),
                None => rest0,
            };
            Some(str_bytes("--"@) + trim_seq(piece))
        },
        None => None,
    }
}

/// The file name stripped of every directory part: the text after the
/// last slash, then after the last backslash.
pub open spec fn spec_sanitize(n: Seq<u8>) -> Seq<u8> {
    let after_slash = match rfind_byte(n, 47) {
        Some(i) => n.skip(i + 1),
        None => n,
    };
    match rfind_byte(after_slash, 92) {
        Some(i) => after_slash.skip(i + 1),
        None => after_slash,
    }
}

/// What the upload handler decides for a request: the sanitized file
/// name and bytes to store, or the status to fail with.
pub open spec fn spec_upload_plan(srv: Server, req: Request) -> Result<(Seq<u8>, Seq<u8>), StatusCode> {
    if req.method != Method::Post {
        Err(StatusCode::MethodNotAllowed)
    } else if (match srv.client_max_body_size {
        Some(max) => req.body@.len() > max,
        None => false,
    }) {
        Err(StatusCode::PayloadTooLarge)
    } else {
        match hdr_lookup(req.headers@, "Content-Type"@) {
            None => Err(StatusCode::BadRequest),
            Some(ct) => match spec_boundary(str_bytes(ct)) {
                None => Err(StatusCode::BadRequest),
                Some(b) => if !valid_utf8(b) {
                    Err(StatusCode::BadRequest)
                } else {
                    match spec_multipart(b, req.body@) {
                    Some(fc) => if valid_utf8(fc.0) && valid_utf8(spec_sanitize(fc.0)) {
                        Ok((spec_sanitize(fc.0), fc.1))
                    } else {
                        Err(StatusCode::BadRequest)
                    },
                    None => Err(StatusCode::BadRequest),
                    }
                },
            },
        }
    }
}

/// Decides an upload: checks the method and the size limit, finds the
/// multipart boundary, takes the first file-carrying part, and strips
/// the file name of directory parts. Writing the file is the caller's.
#[verifier::rlimit(100)]
pub fn upload_plan(srv: &Server, req: &Request) -> (r: Result<(String, Vec<u8>), StatusCode>)
    ensures
        match r {
            Ok((f, c)) => spec_upload_plan(*srv, *req) matches Ok(fc) && str_bytes(f@) == fc.0
                && c@ == fc.1,
            Err(st) => spec_upload_plan(*srv, *req) == Err::<(Seq<u8>, Seq<u8>), StatusCode>(st),
        },
{
    if !matches!(req.method, Method::Post) {
        assert(req.method != Method::Post);
        return Err(StatusCode::MethodNotAllowed);
    }
    match srv.client_max_body_size {
        Some(max) => {
            if req.body.len() as u64 > max {
                return Err(StatusCode::PayloadTooLarge);
            }
        },
        None => {},
    }
    let ct = match req.headers.get("Content-Type") {
        Some(v) => v,
        None => {
            return Err(StatusCode::BadRequest);
        },
    };
    let cb = ct.as_str().as_bytes();
    let cb_len = cb.len();
    let fi = match find_sub(cb, "boundary=".as_bytes()) {
        Some(i) => i,
        None => {
            return Err(StatusCode::BadRequest);
        },
    };
    proof {
        reveal_strlit("boundary=");
        assert(vstd::utf8::is_ascii_chars("boundary="@));
        vstd::utf8::is_ascii_chars_encode_utf8("boundary="@);
        assert(str_bytes("boundary="@).len() == 9);
    }
    let rest0 = vstd::slice::slice_subrange(cb, fi + 9, cb_len);
    let piece = match find_sub(rest0, "boundary=".as_bytes()) {
        Some(j) => vstd::slice::slice_subrange(rest0, 0, j),
        None => rest0,
    };
    let mut bvec: Vec<u8> = Vec::new();
    bvec.push(45);
    bvec.push(45);
    let trimmed = trim_bytes(piece);
    bvec.extend_from_slice(trimmed.as_slice());
    proof {
        reveal_strlit("--");
        assert(vstd::utf8::is_ascii_chars("--"@));
        vstd::utf8::is_ascii_chars_encode_utf8("--"@);
        assert(str_bytes("--"@) =~= seq![45u8, 45u8]);
        assert(bvec@ =~= str_bytes("--"@) + trim_seq(piece@));
    }
    let ghost bnd = spec_boundary(str_bytes(ct@)).unwrap();
    assert(bvec@ == bnd);
    let boundary = match bytes_to_string(bvec) {
        Some(s) => s,
        None => {
            return Err(StatusCode::BadRequest);
        },
    };
    match parse_multipart(boundary.as_str(), req.body.as_slice()) {
        Some((f, data)) => {
            let fb = f.as_str().as_bytes();
            let fb_len = fb.len();
            let mut k: usize = fb_len;
            while k > 0 && fb[k - 1] != 47
                invariant
                    0 <= k <= fb@.len(),
                    forall|j: int| k <= j < fb@.len() ==> fb@[j] != 47,
                decreases k,
            {
                k -= 1;
            }
            proof {
                if k == 0 {
                    crate::config::parser::lemma_rfind_none(fb@, 47);
                } else {
                    crate::config::parser::lemma_rfind_at(fb@, 47, k - 1);
                }
            }
            let after_slash = vstd::slice::slice_subrange(fb, k, fb_len);
            proof {
                assert(after_slash@ =~= (match rfind_byte(fb@, 47) {
                    Some(i) => fb@.skip(i + 1),
                    None => fb@,
                }));
            }
            let as_len = after_slash.len();
            let mut k2: usize = as_len;
            while k2 > 0 && after_slash[k2 - 1] != 92
                invariant
                    0 <= k2 <= after_slash@.len(),
                    forall|j: int| k2 <= j < after_slash@.len() ==> after_slash@[j] != 92,
                decreases k2,
            {
                k2 -= 1;
            }
            proof {
                if k2 == 0 {
                    crate::config::parser::lemma_rfind_none(after_slash@, 92);
                } else {
                    crate::config::parser::lemma_rfind_at(after_slash@, 92, k2 - 1);
                }
            }
            let name_b = vstd::slice::slice_to_vec(
                vstd::slice::slice_subrange(after_slash, k2, as_len),
            );
            proof {
                assert(name_b@ =~= spec_sanitize(fb@));
            }
            match bytes_to_string(name_b) {
                Some(name) => Ok((name, data)),
                None => Err(StatusCode::BadRequest),
            }
        },
        None => Err(StatusCode::BadRequest),
    }
}

/// The response after a stored upload: see-other, pointing at the
/// upload page.
pub fn upload_success_response() -> (r: Response)
    ensures
        r.status == StatusCode::SeeOther,
        r.body@ =~= Seq::<u8>::empty(),
        r.headers@ == hdr_insert(Seq::empty(), "Location"@, "/upload.html"@),
        r.wf(),
{
    let mut resp = Response::new(StatusCode::SeeOther);
    resp.headers.insert(String::from_str("Location"), String::from_str("/upload.html"));
    resp
}

} // verus!
