//! Response serialization: status line, header block, body.

use vstd::prelude::*;
use crate::num::{dec_chars, u64_to_dec_string};
use crate::text::str_bytes;
use super::headers::hdr_has;
use super::response::Response;
use super::status::{StatusCode, status_num, reason_chars};

verus! {

/// The status line of a response: version, code, reason.
pub open spec fn status_line_chars(st: StatusCode) -> Seq<char> {
    "HTTP/1.1 "@ + dec_chars(status_num(st) as nat) + " "@ + reason_chars(st) + "\r\n"@
}

/// One serialized header line.
pub open spec fn header_line_chars(n: Seq<char>, v: Seq<char>) -> Seq<char> {
    n + ": "@ + v + "\r\n"@
}

/// The serialized form of a list of header lines.
pub open spec fn render_lines(h: Seq<(Seq<char>, Seq<char>)>) -> Seq<char>
    decreases h.len(),
{
    if h.len() == 0 {
        Seq::<char>::empty()
    } else {
        header_line_chars(h[0].0, h[0].1) + render_lines(h.drop_first())
    }
}

/// Rendering distributes over concatenation of header lists.
pub proof fn lemma_render_lines_append(a: Seq<(Seq<char>, Seq<char>)>, b: Seq<(Seq<char>, Seq<char>)>)
    ensures
        render_lines(a + b) == render_lines(a) + render_lines(b),
    decreases a.len(),
{
    if a.len() == 0 {
        assert(a + b =~= b);
        assert(render_lines(a) + render_lines(b) =~= render_lines(b));
    } else {
        lemma_render_lines_append(a.drop_first(), b);
        assert((a + b).drop_first() =~= a.drop_first() + b);
        assert((a + b)[0] == a[0]);
        assert(header_line_chars(a[0].0, a[0].1) + (render_lines(a.drop_first()) + render_lines(b))
            =~= (header_line_chars(a[0].0, a[0].1) + render_lines(a.drop_first())) + render_lines(
            b,
        ));
    }
}

/// The complete list of header lines a response is serialized with: a
/// `Content-Length` line and a `Connection` line are supplied exactly
/// when the response does not carry its own.
pub open spec fn response_lines(resp: Response, keep_alive: bool) -> Seq<(Seq<char>, Seq<char>)> {
    let cl: Seq<(Seq<char>, Seq<char>)> = if hdr_has(resp.headers@, "Content-Length"@) {
        Seq::empty()
    } else {
        seq![("Content-Length"@, dec_chars(resp.body@.len()))]
    };
    let conn: Seq<(Seq<char>, Seq<char>)> = if hdr_has(resp.headers@, "Connection"@) {
        Seq::empty()
    } else {
        seq![
            (
                "Connection"@,
                if keep_alive {
                    "keep-alive"@
                } else {
                    "close"@
                },
            ),
        ]
    };
    cl + conn + resp.headers@
}

/// The characters of the serialized head, up to and including the
/// blank line.
pub open spec fn head_chars(resp: Response, keep_alive: bool) -> Seq<char> {
    status_line_chars(resp.status) + render_lines(response_lines(resp, keep_alive)) + "\r\n"@
}

/// The serialized bytes of a response.
pub open spec fn spec_serialize_response(resp: Response, keep_alive: bool) -> Seq<u8> {
    str_bytes(head_chars(resp, keep_alive)) + resp.body@
}

/// How many header lines carry the name `n`.
pub open spec fn count_name(h: Seq<(Seq<char>, Seq<char>)>, n: Seq<char>) -> int
    decreases h.len(),
{
    if h.len() == 0 {
        0int
    } else {
        (if h[0].0 == n {
            1int
        } else {
            0int
        }) + count_name(h.drop_first(), n)
    }
}

/// Counting distributes over concatenation.
proof fn lemma_count_name_add(a: Seq<(Seq<char>, Seq<char>)>, b: Seq<(Seq<char>, Seq<char>)>, n: Seq<char>)
    ensures
        count_name(a + b, n) == count_name(a, n) + count_name(b, n),
    decreases a.len(),
{
    if a.len() == 0 {
        assert(a + b =~= b);
    } else {
        lemma_count_name_add(a.drop_first(), b, n);
        assert((a + b).drop_first() =~= a.drop_first() + b);
        assert((a + b)[0] == a[0]);
    }
}

/// In a well-formed header list a name occurs once when present,
/// never otherwise.
proof fn lemma_count_name_wf(h: Seq<(Seq<char>, Seq<char>)>, n: Seq<char>)
    requires
        crate::http::headers::hdr_wf(h),
    ensures
        crate::http::headers::hdr_has(h, n) ==> count_name(h, n) == 1,
        !crate::http::headers::hdr_has(h, n) ==> count_name(h, n) == 0,
    decreases h.len(),
{
    if h.len() > 0 {
        let t = h.drop_first();
        assert(crate::http::headers::hdr_wf(t)) by {
            assert(forall|i: int, j: int|
                0 <= i < j < t.len() ==> t[i].0 == h[i + 1].0 && t[j].0 == h[j + 1].0);
        }
        lemma_count_name_wf(t, n);
        if h[0].0 == n {
            assert(!crate::http::headers::hdr_has(t, n)) by {
                if crate::http::headers::hdr_has(t, n) {
                    let i = choose|i: int| 0 <= i < t.len() && t[i].0 == n;
                    assert(h[i + 1].0 == n);
                    assert(h[0].0 == h[i + 1].0);
                }
            }
            assert(crate::http::headers::hdr_has(h, n));
        } else {
            assert(crate::http::headers::hdr_has(h, n) == crate::http::headers::hdr_has(t, n)) by {
                if crate::http::headers::hdr_has(h, n) {
                    let i = choose|i: int| 0 <= i < h.len() && h[i].0 == n;
                    assert(t[i - 1].0 == n);
                }
                if crate::http::headers::hdr_has(t, n) {
                    let i = choose|i: int| 0 <= i < t.len() && t[i].0 == n;
                    assert(h[i + 1].0 == n);
                }
            }
        }
    }
}

/// Every serialized response carries `Content-Length` and
/// `Connection` each exactly once.
///
/// Law: among the header lines a response is serialized with, exactly
/// one is named `Content-Length` (the handler's own, or the one the
/// serializer supplies with the body length) and exactly one is named
/// `Connection`.
pub proof fn lemma_content_length_connection_once(resp: Response, keep_alive: bool)
    requires
        resp.wf(),
    ensures
        count_name(response_lines(resp, keep_alive), "Content-Length"@) == 1,
        count_name(response_lines(resp, keep_alive), "Connection"@) == 1,
{
    let base = resp.headers@;
    let cl: Seq<(Seq<char>, Seq<char>)> = if hdr_has(base, "Content-Length"@) {
        Seq::empty()
    } else {
        seq![("Content-Length"@, dec_chars(resp.body@.len()))]
    };
    let conn: Seq<(Seq<char>, Seq<char>)> = if hdr_has(base, "Connection"@) {
        Seq::empty()
    } else {
        seq![
            (
                "Connection"@,
                if keep_alive {
                    "keep-alive"@
                } else {
                    "close"@
                },
            ),
        ]
    };
    lemma_count_name_add(cl + conn, base, "Content-Length"@);
    lemma_count_name_add(cl, conn, "Content-Length"@);
    lemma_count_name_add(cl + conn, base, "Connection"@);
    lemma_count_name_add(cl, conn, "Connection"@);
    lemma_count_name_wf(base, "Content-Length"@);
    lemma_count_name_wf(base, "Connection"@);
    reveal_strlit("Connection");
    reveal_strlit("Content-Length");
    assert("Connection"@.len() == 10);
    assert("Content-Length"@.len() == 14);
    assert("Connection"@ != "Content-Length"@);
    assert(count_name(Seq::<(Seq<char>, Seq<char>)>::empty(), "Content-Length"@) == 0);
    assert(count_name(Seq::<(Seq<char>, Seq<char>)>::empty(), "Connection"@) == 0);
    if hdr_has(base, "Content-Length"@) {
        assert(cl =~= Seq::<(Seq<char>, Seq<char>)>::empty());
        assert(count_name(cl, "Content-Length"@) == 0);
        assert(count_name(cl, "Connection"@) == 0);
    } else {
        assert(cl.len() == 1);
        assert(cl[0].0 == "Content-Length"@);
        assert(cl.drop_first() =~= Seq::<(Seq<char>, Seq<char>)>::empty());
        assert(count_name(cl, "Content-Length"@) == 1);
        assert(count_name(cl, "Connection"@) == 0);
    }
    if hdr_has(base, "Connection"@) {
        assert(conn =~= Seq::<(Seq<char>, Seq<char>)>::empty());
        assert(count_name(conn, "Connection"@) == 0);
        assert(count_name(conn, "Content-Length"@) == 0);
    } else {
        assert(conn.len() == 1);
        assert(conn[0].0 == "Connection"@);
        assert(conn.drop_first() =~= Seq::<(Seq<char>, Seq<char>)>::empty());
        assert(count_name(conn, "Connection"@) == 1);
        assert(count_name(conn, "Content-Length"@) == 0);
    }
    assert(response_lines(resp, keep_alive) =~= (cl + conn) + base);
}

/// A response without its own `Connection` header, serialized for a
/// connection that will not stay alive, carries a `Connection: close`
/// line.
pub proof fn lemma_close_line_present(resp: Response)
    requires
        !hdr_has(resp.headers@, "Connection"@),
    ensures
        response_lines(resp, false).contains(("Connection"@, "close"@)),
{
    let lines = response_lines(resp, false);
    let cl_len: int = if hdr_has(resp.headers@, "Content-Length"@) {
        0
    } else {
        1
    };
    assert(lines[cl_len] == ("Connection"@, "close"@));
}

/// Serializes a response: status line, `Content-Length` and
/// `Connection` when absent, the response's own headers, a blank line,
/// the body.
#[verifier::rlimit(60)]
pub fn serialize_response(resp: &Response, keep_alive: bool) -> (r: Vec<u8>)
    ensures
        r@ == spec_serialize_response(*resp, keep_alive),
{
    let mut head = String::from_str("HTTP/1.1 ");
    let code = resp.status.as_u16();
    let code_text = u64_to_dec_string(code as u64);
    head.append(code_text.as_str());
    head.append(" ");
    head.append(resp.status.reason());
    head.append("\r\n");
    assert(head@ =~= status_line_chars(resp.status));
    let ghost mut extra: Seq<(Seq<char>, Seq<char>)> = Seq::empty();
    assert(head@ =~= status_line_chars(resp.status) + render_lines(extra));
    if !resp.headers.contains_key("Content-Length") {
        let ghost before = extra;
        head.append("Content-Length");
        head.append(": ");
        let len_text = u64_to_dec_string(resp.body.len() as u64);
        head.append(len_text.as_str());
        head.append("\r\n");
        proof {
            let line = ("Content-Length"@, dec_chars(resp.body@.len()));
            extra = extra + seq![line];
            lemma_render_lines_append(before, seq![line]);
            assert(render_lines(seq![line]) =~= header_line_chars(line.0, line.1)
                + render_lines(seq![line].drop_first()));
            assert(seq![line].drop_first() =~= Seq::<(Seq<char>, Seq<char>)>::empty());
            assert(head@ =~= status_line_chars(resp.status) + render_lines(extra));
        }
    }
    if !resp.headers.contains_key("Connection") {
        let ghost before = extra;
        head.append("Connection");
        head.append(": ");
        if keep_alive {
            head.append("keep-alive");
        } else {
            head.append("close");
        }
        head.append("\r\n");
        proof {
            let line = (
                "Connection"@,
                if keep_alive {
                    "keep-alive"@
                } else {
                    "close"@
                },
            );
            extra = extra + seq![line];
            lemma_render_lines_append(before, seq![line]);
            assert(render_lines(seq![line]) =~= header_line_chars(line.0, line.1)
                + render_lines(seq![line].drop_first()));
            assert(seq![line].drop_first() =~= Seq::<(Seq<char>, Seq<char>)>::empty());
            assert(head@ =~= status_line_chars(resp.status) + render_lines(extra));
        }
    }
    proof {
        assert(extra + resp.headers@ =~= response_lines(*resp, keep_alive));
    }
    let mut i: usize = 0;
    while i < resp.headers.entries.len()
        invariant
            0 <= i <= resp.headers@.len(),
            head@ =~= status_line_chars(resp.status) + render_lines(extra) + render_lines(
                resp.headers@.subrange(0, i as int),
            ),
        decreases resp.headers@.len() - i,
    {
        let ghost done = resp.headers@.subrange(0, i as int);
        head.append(resp.headers.entries[i].0.as_str());
        head.append(": ");
        head.append(resp.headers.entries[i].1.as_str());
        head.append("\r\n");
        proof {
            lemma_render_lines_append(done, seq![resp.headers@[i as int]]);
            assert(done + seq![resp.headers@[i as int]] =~= resp.headers@.subrange(0, i + 1));
            assert(render_lines(seq![resp.headers@[i as int]]) =~= header_line_chars(
                resp.headers@[i as int].0,
                resp.headers@[i as int].1,
            ) + render_lines(seq![resp.headers@[i as int]].drop_first()));
            assert(seq![resp.headers@[i as int]].drop_first() =~= Seq::<
                (Seq<char>, Seq<char>),
            >::empty());
            assert(resp.headers@[i as int].0 == resp.headers.entries@[i as int].0@);
            assert(resp.headers@[i as int].1 == resp.headers.entries@[i as int].1@);
        }
        i += 1;
    }
    head.append("\r\n");
    proof {
        assert(resp.headers@.subrange(0, resp.headers@.len() as int) =~= resp.headers@);
        lemma_render_lines_append(extra, resp.headers@);
        assert(head@ =~= head_chars(*resp, keep_alive));
    }
    let mut out = vstd::slice::slice_to_vec(head.as_str().as_bytes());
    out.extend_from_slice(resp.body.as_slice());
    proof {
        assert(out@ =~= spec_serialize_response(*resp, keep_alive));
    }
    out
}

} // verus!
