//! CGI text handling: request-target splitting, script resolution,
//! the child's environment, and parsing the child's output into a
//! response. Pipes, forking and reaping stay outside the crate.

use vstd::prelude::*;
use vstd::utf8::valid_utf8;
use crate::search::{spec_find, find_sub, starts_with, bytes_start_with};
use crate::text::{
    str_bytes, trim_seq, trim_bytes, bytes_to_string, lemma_split_valid, lemma_str_bytes_concat,
};
use crate::num::{all_dec_digits, dec_val, dec_chars, parse_dec_u64, u64_to_dec_string};
use crate::http::headers::{hdr_lookup, hdr_insert};
use crate::http::method::{Method, method_chars, method_to_str};
use crate::http::request::Request;
use crate::http::response::Response;
use crate::http::status::{StatusCode, spec_map_status, map_status};

verus! {

/// Splits a request target at its first question mark into path and
/// query string.
pub fn split_path_query(path: &str) -> (r: (String, String))
    ensures
        ({
            let b = str_bytes(path@);
            match spec_find(b, seq![63u8]) {
                Some(q) => str_bytes(r.0@) == b.take(q) && str_bytes(r.1@) == b.skip(q + 1),
                None => str_bytes(r.0@) == b && str_bytes(r.1@) == Seq::<u8>::empty(),
            }
        }),
{
    let b = path.as_bytes();
    let b_len = b.len();
    let mut qm: Vec<u8> = Vec::new();
    qm.push(63);
    assert(qm@ =~= seq![63u8]);
    match find_sub(b, qm.as_slice()) {
        Some(q) => {
            proof {
                vstd::utf8::encode_utf8_valid_utf8(path@);
                assert(b@[q as int] == b@.subrange(q as int, q + 1)[0]);
                lemma_split_valid(b@, q as int);
                crate::text::lemma_split_valid_after(b@, q + 1);
            }
            let before = vstd::slice::slice_to_vec(vstd::slice::slice_subrange(b, 0, q));
            let after = vstd::slice::slice_to_vec(vstd::slice::slice_subrange(b, q + 1, b_len));
            assert(before@ =~= b@.take(q as int));
            assert(after@ =~= b@.skip(q + 1));
            let p = match bytes_to_string(before) {
                Some(s) => s,
                None => {
                    proof {
                        assert(false);
                    }
                    String::new()
                },
            };
            let qs = match bytes_to_string(after) {
                Some(s) => s,
                None => {
                    proof {
                        assert(false);
                    }
                    String::new()
                },
            };
            (p, qs)
        },
        None => {
            let p = String::from_str(path);
            let qs = String::new();
            proof {
                reveal_strlit("");
                assert(str_bytes(qs@) =~= Seq::<u8>::empty());
            }
            (p, qs)
        },
    }
}

/// The script path a request target names, when it lies under the
/// configured CGI prefix: the target without leading slashes must be
/// the `cgi-bin` component, alone or followed by more components, and
/// resolves under the root.
pub open spec fn spec_script_candidate(root: Seq<u8>, path: Seq<u8>) -> Option<Seq<u8>> {
    let clean = crate::text::trim_front_slashes(path);
    if clean == str_bytes("cgi-bin"@) || starts_with(clean, str_bytes("cgi-bin/"@)) {
        Some(root + seq![47u8] + clean)
    } else {
        None
    }
}

/// Resolves the script a request target names under the root, as
/// `spec_script_candidate` prescribes. The file-system check that the
/// result is a regular file stays with the caller.
pub fn script_candidate(root: &str, path_no_query: &str) -> (r: Option<String>)
    ensures
        match r {
            Some(p) => spec_script_candidate(str_bytes(root@), str_bytes(path_no_query@)) == Some(
                str_bytes(p@),
            ),
            None => spec_script_candidate(str_bytes(root@), str_bytes(path_no_query@)) is None,
        },
{
    let b = path_no_query.as_bytes();
    let b_len = b.len();
    let mut lo: usize = 0;
    while lo < b_len && b[lo] == 47
        invariant
            0 <= lo <= b@.len(),
            b_len == b@.len(),
            forall|j: int| 0 <= j < lo ==> b@[j] == 47,
        decreases b@.len() - lo,
    {
        lo += 1;
    }
    proof {
        crate::text::lemma_trim_front_slashes(b@, lo as int);
    }
    let clean = vstd::slice::slice_subrange(b, lo, b_len);
    assert(clean@ == crate::text::trim_front_slashes(b@));
    if crate::search::bytes_eq(clean, "cgi-bin".as_bytes()) || bytes_start_with(
        clean,
        "cgi-bin/".as_bytes(),
    ) {
        let mut out = String::from_str(root);
        out.append("/");
        let tail = match bytes_to_string(vstd::slice::slice_to_vec(clean)) {
            Some(s) => s,
            None => {
                proof {
                    vstd::utf8::encode_utf8_valid_utf8(path_no_query@);
                    crate::text::lemma_split_valid_after(b@, lo as int);
                    assert(false);
                }
                String::new()
            },
        };
        out.append(tail.as_str());
        proof {
            lemma_str_bytes_concat(root@, "/"@);
            lemma_str_bytes_concat(root@ + "/"@, tail@);
            assert((root@ + "/"@) + tail@ =~= out@);
            reveal_strlit("/");
            assert("/"@ =~= seq!['/']);
            assert(str_bytes("/"@) =~= seq![47u8]) by {
                vstd::utf8::is_ascii_chars_encode_utf8("/"@);
            }
        }
        Some(out)
    } else {
        None
    }
}

/// `s` ends with `suffix`.
pub open spec fn ends_with(s: Seq<u8>, suffix: Seq<u8>) -> bool {
    s.len() >= suffix.len() && s.skip(s.len() - suffix.len()) == suffix
}

/// The script name carries the configured extension: written with or
/// without its leading dot, the name must end in dot plus extension,
/// with something before the dot.
pub open spec fn spec_has_cgi_extension(path: Seq<u8>, ext: Seq<u8>) -> bool {
    let suffix = if ext.len() > 0 && ext[0] == 46 {
        ext
    } else {
        seq![46u8] + ext
    };
    path.len() > suffix.len() && ends_with(path, suffix)
}

/// Whether the script path ends in the configured extension, as
/// `spec_has_cgi_extension` prescribes.
pub fn has_cgi_extension(path: &str, ext: &str) -> (r: bool)
    ensures
        r == spec_has_cgi_extension(str_bytes(path@), str_bytes(ext@)),
{
    let pb = path.as_bytes();
    let eb = ext.as_bytes();
    let mut suffix: Vec<u8> = Vec::new();
    if !(eb.len() > 0 && eb[0] == 46) {
        suffix.push(46);
    }
    suffix.extend_from_slice(eb);
    proof {
        if eb@.len() > 0 && eb@[0] == 46 {
            assert(suffix@ =~= eb@);
        } else {
            assert(suffix@ =~= seq![46u8] + eb@);
        }
    }
    let pb_len = pb.len();
    let s_len = suffix.len();
    if pb_len <= s_len {
        return false;
    }
    let tail = vstd::slice::slice_subrange(pb, pb_len - s_len, pb_len);
    assert(tail@ =~= pb@.skip(pb@.len() - suffix@.len()));
    crate::search::bytes_eq(tail, suffix.as_slice())
}

/// The parent keeps the child's stdin open exactly when there is a
/// body to deliver on a method that carries one.
pub fn cgi_keeps_input(req: &Request) -> (r: bool)
    ensures
        r == (req.body@.len() > 0 && (req.method is Post || req.method is Delete)),
{
    req.body.len() > 0 && matches!(req.method, Method::Post | Method::Delete)
}

/// The environment lines handed to a CGI child.
pub open spec fn spec_cgi_env(
    m: Method,
    query: Seq<char>,
    content_length: Option<usize>,
    content_type: Option<Seq<char>>,
    script: Seq<char>,
) -> Seq<Seq<char>> {
    let base = seq![
        "REQUEST_METHOD="@ + method_chars(m),
        "QUERY_STRING="@ + query,
        "SERVER_PROTOCOL=HTTP/1.1"@,
        "GATEWAY_INTERFACE=CGI/1.1"@,
        "CONTENT_LENGTH="@ + dec_chars(
            match content_length {
                Some(n) => n as nat,
                None => 0,
            },
        ),
    ];
    let with_ct = match content_type {
        Some(ct) => base.push("CONTENT_TYPE="@ + ct),
        None => base,
    };
    with_ct.push("PATH_INFO="@ + script)
}

/// Builds the environment lines for a CGI child: request method,
/// query string, protocol and interface tags, content length and
/// type, and the canonical script path.
pub fn build_env(req: &Request, script: &str, query: &str) -> (r: Vec<String>)
    ensures
        r@.map_values(|s: String| s@) == spec_cgi_env(
            req.method,
            query@,
            req.content_length,
            hdr_lookup(req.headers@, "Content-Type"@),
            script@,
        ),
{
    let mut env: Vec<String> = Vec::new();
    let mut line = String::from_str("REQUEST_METHOD=");
    line.append(method_to_str(&req.method));
    env.push(line);
    let mut line2 = String::from_str("QUERY_STRING=");
    line2.append(query);
    env.push(line2);
    env.push(String::from_str("SERVER_PROTOCOL=HTTP/1.1"));
    env.push(String::from_str("GATEWAY_INTERFACE=CGI/1.1"));
    let mut line3 = String::from_str("CONTENT_LENGTH=");
    let cl: u64 = match req.content_length {
        Some(n) => n as u64,
        None => 0,
    };
    let cl_text = u64_to_dec_string(cl);
    line3.append(cl_text.as_str());
    env.push(line3);
    match req.headers.get("Content-Type") {
        Some(ct) => {
            let mut line4 = String::from_str("CONTENT_TYPE=");
            line4.append(ct.as_str());
            env.push(line4);
        },
        None => {},
    }
    let mut line5 = String::from_str("PATH_INFO=");
    line5.append(script);
    env.push(line5);
    proof {
        assert(env@.map_values(|s: String| s@) =~= spec_cgi_env(
            req.method,
            query@,
            req.content_length,
            hdr_lookup(req.headers@, "Content-Type"@),
            script@,
        ));
    }
    env
}

/// One line of CGI output with its trailing carriage returns removed.
pub open spec fn strip_cr(l: Seq<u8>) -> Seq<u8>
    decreases l.len(),
{
    if l.len() > 0 && l.last() == 13 {
        strip_cr(l.drop_last())
    } else {
        l
    }
}

/// Where the CGI output splits into header text and body: at the
/// first blank line, matched as CRLF-CRLF or LF-LF.
pub open spec fn spec_cgi_split(out: Seq<u8>) -> (Seq<u8>, Seq<u8>) {
    match spec_find(out, seq![13u8, 10u8, 13u8, 10u8]) {
        Some(i) => (out.take(i), out.skip(i + 4)),
        None => match spec_find(out, seq![10u8, 10u8]) {
            Some(i) => (out.take(i), out.skip(i + 2)),
            None => (Seq::empty(), out),
        },
    }
}

/// The lines of the header text, split at line feeds, each stripped
/// of trailing carriage returns.
pub open spec fn cgi_lines(head: Seq<u8>) -> Seq<Seq<u8>> {
    crate::http::parser::split_lf(head).map_values(|l: Seq<u8>| strip_cr(l))
}

/// What one CGI header line contributes: a `Status:` line may override
/// the status, any other line with a colon becomes a header.
pub open spec fn cgi_line_step(
    st: StatusCode,
    hs: Seq<(Seq<char>, Seq<char>)>,
    l: Seq<u8>,
) -> (StatusCode, Seq<(Seq<char>, Seq<char>)>) {
    if !valid_utf8(l) {
        (st, hs)
    } else if starts_with(l, str_bytes("Status:"@)) {
        let t = trim_seq(l.skip(7));
        match spec_find(t, seq![32u8]) {
            Some(sp) => {
                let cb = t.take(sp);
                if cb.len() > 0 && all_dec_digits(cb) && dec_val(cb) <= u16::MAX {
                    (spec_map_status(dec_val(cb) as u16), hs)
                } else {
                    (st, hs)
                }
            },
            None => (st, hs),
        }
    } else {
        match spec_find(l, seq![58u8]) {
            Some(ci) => {
                let nb = trim_seq(l.take(ci));
                let vb = trim_seq(l.skip(ci + 1));
                if crate::text::lower_bytes(nb) == crate::text::lower_bytes(
                    str_bytes("Content-Length"@),
                ) || crate::text::lower_bytes(nb) == crate::text::lower_bytes(
                    str_bytes("Connection"@),
                ) {
                    (st, hs)
                } else if valid_utf8(nb) && valid_utf8(vb) {
                    (st, hdr_insert(hs, vstd::utf8::decode_utf8(nb), vstd::utf8::decode_utf8(vb)))
                } else {
                    (st, hs)
                }
            },
            None => (st, hs),
        }
    }
}

/// Folds all CGI header lines, in order.
pub open spec fn cgi_fold(ls: Seq<Seq<u8>>) -> (StatusCode, Seq<(Seq<char>, Seq<char>)>)
    decreases ls.len(),
{
    if ls.len() == 0 {
        (StatusCode::Okay, Seq::empty())
    } else {
        let prev = cgi_fold(ls.drop_last());
        cgi_line_step(prev.0, prev.1, ls.last())
    }
}

/// Parses accumulated CGI output into a response: header lines before
/// the first blank line, body after it; a `Status:` line overrides the
/// status; other header lines are copied, except that the framing
/// headers the serializer owns — `Content-Length` and `Connection`,
/// in any letter case — are dropped, so every response carries each
/// exactly once, with the true body length.
#[verifier::rlimit(100)]
pub fn parse_cgi_output(out: &[u8]) -> (r: Response)
    ensures
        ({
            let parts = spec_cgi_split(out@);
            let folded = cgi_fold(cgi_lines(parts.0));
            r.status == folded.0 && r.headers@ == folded.1 && r.body@ == parts.1 && r.wf()
        }),
{
    let out_len = out.len();
    let mut sep4: Vec<u8> = Vec::new();
    sep4.push(13);
    sep4.push(10);
    sep4.push(13);
    sep4.push(10);
    assert(sep4@ =~= seq![13u8, 10u8, 13u8, 10u8]);
    let mut sep2: Vec<u8> = Vec::new();
    sep2.push(10);
    sep2.push(10);
    assert(sep2@ =~= seq![10u8, 10u8]);
    let (head, body): (&[u8], Vec<u8>) = match find_sub(out, sep4.as_slice()) {
        Some(i) => (
            vstd::slice::slice_subrange(out, 0, i),
            vstd::slice::slice_to_vec(vstd::slice::slice_subrange(out, i + 4, out_len)),
        ),
        None => {
            match find_sub(out, sep2.as_slice()) {
                Some(i) => (
                    vstd::slice::slice_subrange(out, 0, i),
                    vstd::slice::slice_to_vec(vstd::slice::slice_subrange(out, i + 2, out_len)),
                ),
                None => (
                    vstd::slice::slice_subrange(out, 0, 0),
                    vstd::slice::slice_to_vec(out),
                ),
            }
        },
    };
    proof {
        assert(head@ == spec_cgi_split(out@).0);
        assert(body@ == spec_cgi_split(out@).1);
    }
    let lines = split_lf_stripped(head);
    let ghost ls = cgi_lines(head@);
    let mut status = StatusCode::Okay;
    let mut headers = crate::http::headers::Headers::new();
    let mut li: usize = 0;
    proof {
        assert(ls.take(0) =~= Seq::<Seq<u8>>::empty());
    }
    while li < lines.len()
        invariant
            0 <= li <= lines@.len(),
            lines@.map_values(|v: Vec<u8>| v@) == ls,
            (status, headers@) == cgi_fold(ls.take(li as int)),
            headers.wf(),
        decreases lines@.len() - li,
    {
        let ghost l = ls[li as int];
        let line = &lines[li];
        assert(line@ == l);
        let ghost before = (status, headers@);
        let line_valid = bytes_to_string(vstd::slice::slice_to_vec(line.as_slice())).is_some();
        if line_valid {
            if bytes_start_with(line.as_slice(), "Status:".as_bytes()) {
                let line_len = line.len();
                proof {
                    reveal_strlit("Status:");
                    assert(vstd::utf8::is_ascii_chars("Status:"@));
                    vstd::utf8::is_ascii_chars_encode_utf8("Status:"@);
                    assert(str_bytes("Status:"@).len() == 7);
                }
                assert(7 <= line_len);
                let t = trim_bytes(vstd::slice::slice_subrange(line.as_slice(), 7, line_len));
                assert(t@ == trim_seq(l.skip(7)));
                let mut space: Vec<u8> = Vec::new();
                space.push(32);
                assert(space@ =~= seq![32u8]);
                match find_sub(t.as_slice(), space.as_slice()) {
                    Some(sp) => {
                        let cb = vstd::slice::slice_subrange(t.as_slice(), 0, sp);
                        assert(cb@ == trim_seq(l.skip(7)).take(sp as int));
                        match parse_dec_u64(cb) {
                            Some(code) => {
                                if code <= 65535 {
                                    status = map_status(code as u16);
                                } else {
                                }
                            },
                            None => {},
                        }
                    },
                    None => {},
                }
            } else {
                let mut colon: Vec<u8> = Vec::new();
                colon.push(58);
                assert(colon@ =~= seq![58u8]);
                match find_sub(line.as_slice(), colon.as_slice()) {
                    Some(ci) => {
                        let line_len = line.len();
                        assert(ci + 1 <= line_len);
                        let nb = trim_bytes(vstd::slice::slice_subrange(line.as_slice(), 0, ci));
                        let vb = trim_bytes(
                            vstd::slice::slice_subrange(line.as_slice(), ci + 1, line_len),
                        );
                        proof {
                            assert(l.subrange(0, ci as int) =~= l.take(ci as int));
                            assert(l.subrange(ci + 1, l.len() as int) =~= l.skip(ci + 1));
                        }
                        let ghost nbb = nb@;
                        let ghost vbb = vb@;
                        let framing = crate::text::bytes_eq_nocase(
                            nb.as_slice(),
                            "Content-Length".as_bytes(),
                        ) || crate::text::bytes_eq_nocase(nb.as_slice(), "Connection".as_bytes());
                        if !framing {
                            let ns = bytes_to_string(nb);
                            let vs = bytes_to_string(vb);
                            match (ns, vs) {
                                (Some(n2), Some(v2)) => {
                                    proof {
                                        crate::text::lemma_bytes_to_string_view(n2@, nbb);
                                        crate::text::lemma_bytes_to_string_view(v2@, vbb);
                                    }
                                    headers.insert(n2, v2);
                                },
                                _ => {},
                            }
                        }
                    },
                    None => {},
                }
            }
        }
        proof {
            assert(ls.take(li + 1).drop_last() =~= ls.take(li as int));
            assert(ls.take(li + 1).last() == l);
            assert((status, headers@) == cgi_line_step(before.0, before.1, l));
        }
        li += 1;
    }
    proof {
        assert(ls.take(ls.len() as int) =~= ls);
    }
    let mut resp = Response::new(status);
    resp.headers = headers;
    resp.body = body;
    resp
}

/// Splits header text at line feeds and strips trailing carriage
/// returns from each line.
pub fn split_lf_stripped(head: &[u8]) -> (lines: Vec<Vec<u8>>)
    ensures
        lines@.map_values(|v: Vec<u8>| v@) == cgi_lines(head@),
{
    let mut nl: Vec<u8> = Vec::new();
    nl.push(10);
    assert(nl@ =~= seq![10u8]);
    let head_len = head.len();
    let mut lines: Vec<Vec<u8>> = Vec::new();
    let mut pos: usize = 0;
    let ghost mut done: Seq<Seq<u8>> = Seq::empty();
    let mut finished = false;
    proof {
        assert(head@.skip(0) =~= head@);
        assert(done + crate::http::parser::split_lf(head@) =~= crate::http::parser::split_lf(
            head@,
        ));
        assert(lines@.map_values(|v: Vec<u8>| v@) =~= done.map_values(|l: Seq<u8>| strip_cr(l)));
    }
    while !finished
        invariant
            0 <= pos <= head@.len(),
            head_len == head@.len(),
            nl@ == seq![10u8],
            !finished ==> crate::http::parser::split_lf(head@) == done
                + crate::http::parser::split_lf(head@.skip(pos as int)),
            finished ==> crate::http::parser::split_lf(head@) == done,
            lines@.map_values(|v: Vec<u8>| v@) == done.map_values(|l: Seq<u8>| strip_cr(l)),
        decreases head@.len() - pos + (if finished { 0int } else { 1int }),
    {
        let rest = vstd::slice::slice_subrange(head, pos, head_len);
        assert(rest@ == head@.skip(pos as int));
        let ghost prev_done = done;
        let (piece_end, had_sep) = match find_sub(rest, nl.as_slice()) {
            Some(i) => (i, true),
            None => (rest.len(), false),
        };
        let mut piece = vstd::slice::slice_to_vec(
            vstd::slice::slice_subrange(rest, 0, piece_end),
        );
        proof {
            if had_sep {
                assert(crate::http::parser::split_lf(rest@) == seq![rest@.take(piece_end as int)]
                    + crate::http::parser::split_lf(rest@.skip(piece_end + 1)));
                assert(head@.skip(pos + piece_end + 1) =~= rest@.skip(piece_end + 1));
            } else {
                assert(crate::http::parser::split_lf(rest@) == seq![rest@]);
                assert(rest@.take(piece_end as int) =~= rest@);
            }
            done = done.push(rest@.take(piece_end as int));
            assert(piece@ == rest@.take(piece_end as int));
        }
        let ghost raw_piece = piece@;
        strip_trailing_cr(&mut piece);
        let ghost prev_lines = lines@;
        lines.push(piece);
        proof {
            assert(done.drop_last() =~= prev_done);
            assert(lines@.map_values(|v: Vec<u8>| v@) =~= prev_lines.map_values(|v: Vec<u8>| v@)
                .push(strip_cr(raw_piece)));
            assert(done.map_values(|l: Seq<u8>| strip_cr(l)) =~= prev_done.map_values(
                |l: Seq<u8>| strip_cr(l),
            ).push(strip_cr(raw_piece)));
        }
        if had_sep {
            pos = pos + piece_end + 1;
        } else {
            finished = true;
        }
    }
    lines
}

proof fn lemma_strip_cr_prefix(l: Seq<u8>, k: int)
    requires
        0 <= k <= l.len(),
        forall|j: int| k <= j < l.len() ==> l[j] == 13,
        k > 0 ==> l[k - 1] != 13,
    ensures
        strip_cr(l) == l.subrange(0, k),
    decreases l.len() - k,
{
    if k == l.len() {
        assert(l.subrange(0, k) =~= l);
    } else {
        lemma_strip_cr_prefix(l.drop_last(), k);
        assert(l.drop_last().subrange(0, k) =~= l.subrange(0, k));
    }
}

/// Removes trailing carriage returns in place.
fn strip_trailing_cr(v: &mut Vec<u8>)
    ensures
        final(v)@ == strip_cr(old(v)@),
{
    let mut k = v.len();
    while k > 0 && v[k - 1] == 13
        invariant
            0 <= k <= v@.len(),
            v@ == old(v)@,
            forall|j: int| k <= j < v@.len() ==> v@[j] == 13,
        decreases k,
    {
        k -= 1;
    }
    proof {
        lemma_strip_cr_prefix(v@, k as int);
    }
    v.truncate(k);
    assert(v@ =~= old(v)@.subrange(0, k as int));
}

} // verus!
