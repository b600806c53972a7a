//! Request parsing from raw bytes.
//!
//! The parser consumes an accumulated byte buffer and either asks for
//! more bytes, rejects the prefix with a message, or yields one full
//! request together with the number of bytes it occupied.

use vstd::prelude::*;
use vstd::utf8::{valid_utf8, decode_utf8};
use crate::num::{all_dec_digits, dec_val, all_hex_digits, hex_val, parse_dec_u64, parse_hex_usize};
use crate::search::{spec_find, find_sub, starts_with, bytes_start_with};
use crate::text::{
    str_bytes, trim_front, trim_seq, take_token, after_token, lower_bytes, bytes_to_string,
    trim_bytes, first_token, bytes_eq_nocase, lemma_bytes_to_string_view,
};
use super::headers::{Headers, hdr_lookup, hdr_insert};
use super::method::Method;
use super::request::Request;

verus! {

/// Outcome of feeding accumulated bytes to the request parser.
pub enum ParseResult {
    /// Not enough bytes yet to finish a request.
    Incomplete,
    /// A full request, and how many bytes from the front it occupied.
    Complete(Request, usize),
    /// The bytes cannot be a request; the text says why.
    Error(String),
}

/// The two-byte line separator.
pub open spec fn crlf_seq() -> Seq<u8> {
    seq![13u8, 10u8]
}

/// The four-byte head terminator: an empty line.
pub open spec fn crlf2_seq() -> Seq<u8> {
    seq![13u8, 10u8, 13u8, 10u8]
}

/// `s` cut at every line separator; separators are not kept.
pub open spec fn split_crlf(s: Seq<u8>) -> Seq<Seq<u8>>
    decreases s.len(),
    via split_crlf_decreases
{
    match spec_find(s, crlf_seq()) {
        Some(i) => seq![s.take(i)] + split_crlf(s.skip(i + 2)),
        None => seq![s],
    }
}

#[via_fn]
proof fn split_crlf_decreases(s: Seq<u8>) {
    crate::search::lemma_spec_find(s, crlf_seq());
}

/// `s` cut at every line feed; separators are not kept.
pub open spec fn split_lf(s: Seq<u8>) -> Seq<Seq<u8>>
    decreases s.len(),
    via split_lf_decreases
{
    match spec_find(s, seq![10u8]) {
        Some(i) => seq![s.take(i)] + split_lf(s.skip(i + 1)),
        None => seq![s],
    }
}

#[via_fn]
proof fn split_lf_decreases(s: Seq<u8>) {
    crate::search::lemma_spec_find(s, seq![10u8]);
}

/// The non-empty lines of `s`.
pub open spec fn nonempty_lines(s: Seq<u8>) -> Seq<Seq<u8>> {
    split_crlf(s).filter(|l: Seq<u8>| l.len() > 0)
}

/// A parsed request, at the level of mathematical values.
pub struct SpecRequest {
    pub method: Method,
    pub path: Seq<char>,
    pub headers: Seq<(Seq<char>, Seq<char>)>,
    pub body: Seq<u8>,
    pub content_length: Option<int>,
    pub keep_alive: bool,
}

/// What the parser must do with a given buffer.
pub enum SpecParse {
    Incomplete,
    Bad(Seq<char>),
    Done(SpecRequest, int),
}

/// The name bytes of a header line (before the first colon), trimmed.
pub open spec fn line_name_bytes(l: Seq<u8>, ci: int) -> Seq<u8> {
    trim_seq(l.take(ci))
}

/// The value bytes of a header line (after the first colon), trimmed.
pub open spec fn line_value_bytes(l: Seq<u8>, ci: int) -> Seq<u8> {
    trim_seq(l.skip(ci + 1))
}

/// A header line decodes cleanly: if it has a colon, its trimmed name
/// and value are valid UTF-8.
pub open spec fn line_ok(l: Seq<u8>) -> bool {
    match spec_find(l, seq![58u8]) {
        Some(ci) => valid_utf8(line_name_bytes(l, ci)) && valid_utf8(line_value_bytes(l, ci)),
        None => true,
    }
}

/// Every header line decodes cleanly.
pub open spec fn lines_ok(ls: Seq<Seq<u8>>) -> bool {
    forall|i: int| 0 <= i < ls.len() ==> line_ok(#[trigger] ls[i])
}

/// Folds one header line into the header list; a line without a colon
/// is skipped.
pub open spec fn add_line(h: Seq<(Seq<char>, Seq<char>)>, l: Seq<u8>) -> Seq<(Seq<char>, Seq<char>)> {
    match spec_find(l, seq![58u8]) {
        Some(ci) => hdr_insert(
            h,
            decode_utf8(line_name_bytes(l, ci)),
            decode_utf8(line_value_bytes(l, ci)),
        ),
        None => h,
    }
}

/// The header list built from the given lines, in order.
pub open spec fn fold_lines(ls: Seq<Seq<u8>>) -> Seq<(Seq<char>, Seq<char>)>
    decreases ls.len(),
{
    if ls.len() == 0 {
        Seq::empty()
    } else {
        add_line(fold_lines(ls.drop_last()), ls.last())
    }
}

/// The method named by the given token bytes, if any.
pub open spec fn method_of_bytes(t: Seq<u8>) -> Option<Method> {
    if t == str_bytes("GET"@) {
        Some(Method::Get)
    } else if t == str_bytes("POST"@) {
        Some(Method::Post)
    } else if t == str_bytes("DELETE"@) {
        Some(Method::Delete)
    } else {
        None
    }
}

/// The request is chunked: a `Transfer-Encoding` header equal to
/// `chunked` up to ASCII case.
pub open spec fn spec_is_chunked(h: Seq<(Seq<char>, Seq<char>)>) -> bool {
    match hdr_lookup(h, "Transfer-Encoding"@) {
        Some(v) => lower_bytes(str_bytes(v)) == lower_bytes(str_bytes("chunked"@)),
        None => false,
    }
}

/// Keep-alive holds unless a `Connection` header equals `close` up to
/// ASCII case.
pub open spec fn spec_keep_alive(h: Seq<(Seq<char>, Seq<char>)>) -> bool {
    match hdr_lookup(h, "Connection"@) {
        Some(v) => lower_bytes(str_bytes(v)) != lower_bytes(str_bytes("close"@)),
        None => true,
    }
}

/// The declared `Content-Length`, when present and a decimal numeral
/// that fits a `usize`.
pub open spec fn spec_content_length(h: Seq<(Seq<char>, Seq<char>)>) -> Option<int> {
    match hdr_lookup(h, "Content-Length"@) {
        Some(v) => {
            let b = str_bytes(v);
            if b.len() > 0 && all_dec_digits(b) && dec_val(b) <= usize::MAX {
                Some(dec_val(b) as int)
            } else {
                None
            }
        },
        None => None,
    }
}

/// Outcome of decoding a chunked body.
pub enum SpecChunk {
    Incomplete,
    Bad(Seq<char>),
    Done(Seq<u8>, int),
}

/// Decodes chunks of `buf` from `idx` on, with `acc` already decoded:
/// each chunk is a hexadecimal size line, that many bytes, and a line
/// separator. A zero size ends the body: an immediate line separator
/// closes the request there, so pipelined bytes after it are left
/// untouched; otherwise a trailer block runs through the next empty
/// line and is discarded.
pub open spec fn spec_chunked(buf: Seq<u8>, limit: int, idx: int, acc: Seq<u8>) -> SpecChunk
    decreases buf.len() - idx,
    via spec_chunked_decreases
{
    if !(0 <= idx <= buf.len()) {
        SpecChunk::Bad("invalid chunk size"@)
    } else {
        let rest = buf.skip(idx);
        match spec_find(rest, crlf_seq()) {
            None => SpecChunk::Incomplete,
            Some(le) => {
                let raw = rest.take(le);
                let size_bytes = trim_seq(raw);
                if !valid_utf8(raw) || size_bytes.len() == 0 || !all_hex_digits(size_bytes)
                    || hex_val(size_bytes) > usize::MAX {
                    SpecChunk::Bad("invalid chunk size"@)
                } else {
                    let size = hex_val(size_bytes) as int;
                    let idx2 = idx + le + 2;
                    if size == 0 {
                        if buf.len() < idx2 + 2 {
                            SpecChunk::Incomplete
                        } else if buf.subrange(idx2, idx2 + 2) == crlf_seq() {
                            SpecChunk::Done(acc, idx2 + 2)
                        } else {
                            match spec_find(buf.skip(idx2), crlf2_seq()) {
                                Some(t) => SpecChunk::Done(acc, idx2 + t + 4),
                                None => SpecChunk::Incomplete,
                            }
                        }
                    } else if buf.len() < idx2 + size + 2 {
                        SpecChunk::Incomplete
                    } else {
                        let acc2 = acc + buf.subrange(idx2, idx2 + size);
                        if acc2.len() > limit {
                            SpecChunk::Bad("body too large"@)
                        } else {
                            spec_chunked(buf, limit, idx2 + size + 2, acc2)
                        }
                    }
                }
            },
        }
    }
}

#[via_fn]
proof fn spec_chunked_decreases(buf: Seq<u8>, limit: int, idx: int, acc: Seq<u8>) {
    if 0 <= idx <= buf.len() {
        crate::search::lemma_spec_find(buf.skip(idx), crlf_seq());
    }
}

/// What the parser does with `buf` under the body byte limit `limit`:
/// the head is everything through the first empty line; the request
/// line holds method, target path and version; later non-empty lines
/// are headers; the body is fixed-length by `Content-Length` or
/// chunk-decoded under `Transfer-Encoding: chunked`.
pub open spec fn spec_parse_request(buf: Seq<u8>, limit: int) -> SpecParse {
    match spec_find(buf, crlf2_seq()) {
        None => SpecParse::Incomplete,
        Some(he0) => {
            let he = he0 + 4;
            let head = buf.take(he);
            let nel = nonempty_lines(head);
            if nel.len() == 0 {
                SpecParse::Bad("empty request line"@)
            } else {
                let rl = nel[0];
                let hlines = nel.drop_first();
                let t1 = take_token(trim_front(rl));
                let r1 = after_token(trim_front(rl));
                let t2 = take_token(trim_front(r1));
                let r2 = after_token(trim_front(r1));
                let t3 = take_token(trim_front(r2));
                if !valid_utf8(t2) || !lines_ok(hlines) {
                    SpecParse::Bad("invalid utf8 in headers"@)
                } else {
                    match method_of_bytes(t1) {
                        None => SpecParse::Bad("unsupported method"@),
                        Some(m) => {
                            if !starts_with(t3, str_bytes("HTTP/1."@)) {
                                SpecParse::Bad("unsupported version"@)
                            } else {
                                let hdrs = fold_lines(hlines);
                                let path = decode_utf8(t2);
                                let keep = spec_keep_alive(hdrs);
                                if spec_is_chunked(hdrs) {
                                    match spec_chunked(buf, limit, he, Seq::empty()) {
                                        SpecChunk::Incomplete => SpecParse::Incomplete,
                                        SpecChunk::Bad(msg) => SpecParse::Bad(msg),
                                        SpecChunk::Done(body, used) => SpecParse::Done(
                                            SpecRequest {
                                                method: m,
                                                path,
                                                headers: hdrs,
                                                body,
                                                content_length: None,
                                                keep_alive: keep,
                                            },
                                            used,
                                        ),
                                    }
                                } else {
                                    let cl = spec_content_length(hdrs);
                                    let blen: int = match cl {
                                        Some(n) => n,
                                        None => 0,
                                    };
                                    if blen > limit {
                                        SpecParse::Bad("body too large"@)
                                    } else if buf.len() < he + blen {
                                        SpecParse::Incomplete
                                    } else {
                                        SpecParse::Done(
                                            SpecRequest {
                                                method: m,
                                                path,
                                                headers: hdrs,
                                                body: buf.subrange(he, he + blen),
                                                content_length: cl,
                                                keep_alive: keep,
                                            },
                                            he + blen,
                                        )
                                    }
                                }
                            }
                        },
                    }
                }
            }
        },
    }
}

/// Splits `head` at every line separator, keeping non-empty lines.
fn split_head_lines(head: &[u8]) -> (lines: Vec<Vec<u8>>)
    ensures
        lines@.map_values(|v: Vec<u8>| v@) == nonempty_lines(head@),
{
    let mut sep2: Vec<u8> = Vec::new();
    sep2.push(13);
    sep2.push(10);
    assert(sep2@ =~= crlf_seq());
    let mut lines: Vec<Vec<u8>> = Vec::new();
    let mut pos: usize = 0;
    let ghost mut done: Seq<Seq<u8>> = Seq::empty();
    let mut finished = false;
    proof {
        assert(head@.skip(0) =~= head@);
        assert(done + split_crlf(head@) =~= split_crlf(head@));
        assert(lines@.map_values(|v: Vec<u8>| v@) =~= done.filter(|l: Seq<u8>| l.len() > 0));
    }
    while !finished
        invariant
            0 <= pos <= head@.len(),
            sep2@ == crlf_seq(),
            !finished ==> split_crlf(head@) == done + split_crlf(head@.skip(pos as int)),
            finished ==> split_crlf(head@) == done,
            lines@.map_values(|v: Vec<u8>| v@) == done.filter(|l: Seq<u8>| l.len() > 0),
        decreases head@.len() - pos + (if finished { 0int } else { 1int }),
    {
        let rest = vstd::slice::slice_subrange(head, pos, head.len());
        assert(rest@ == head@.skip(pos as int));
        let ghost prev_done = done;
        match find_sub(rest, sep2.as_slice()) {
            Some(i) => {
                let piece = vstd::slice::slice_to_vec(vstd::slice::slice_subrange(rest, 0, i));
                proof {
                    assert(split_crlf(rest@) == seq![rest@.take(i as int)] + split_crlf(
                        rest@.skip(i + 2),
                    ));
                    done = done.push(rest@.take(i as int));
                    assert(prev_done + split_crlf(rest@) =~= done + split_crlf(rest@.skip(i + 2)));
                    assert(head@.skip(pos + i + 2) =~= rest@.skip(i + 2));
                    assert(piece@ == rest@.take(i as int));
                }
                if piece.len() > 0 {
                    let ghost prev_lines = lines@;
                    lines.push(piece);
                    proof {
                        reveal(Seq::filter);
                        assert(done =~= prev_done.push(rest@.take(i as int)));
                        assert(done.drop_last() =~= prev_done);
                        assert(lines@.map_values(|v: Vec<u8>| v@) =~= prev_lines.map_values(
                            |v: Vec<u8>| v@,
                        ).push(rest@.take(i as int)));
                        assert(done.filter(|l: Seq<u8>| l.len() > 0) =~= prev_done.filter(
                            |l: Seq<u8>| l.len() > 0,
                        ).push(rest@.take(i as int)));
                    }
                } else {
                    proof {
                        reveal(Seq::filter);
                        assert(done.drop_last() =~= prev_done);
                        assert(done.filter(|l: Seq<u8>| l.len() > 0) =~= prev_done.filter(
                            |l: Seq<u8>| l.len() > 0,
                        ));
                    }
                }
                pos = pos + i + 2;
            },
            None => {
                proof {
                    assert(split_crlf(rest@) == seq![rest@]);
                    done = done.push(rest@);
                    assert(prev_done + split_crlf(rest@) =~= done);
                }
                if rest.len() > 0 {
                    let ghost prev_lines = lines@;
                    lines.push(vstd::slice::slice_to_vec(rest));
                    proof {
                        reveal(Seq::filter);
                        assert(done.drop_last() =~= prev_done);
                        assert(lines@.map_values(|v: Vec<u8>| v@) =~= prev_lines.map_values(
                            |v: Vec<u8>| v@,
                        ).push(rest@));
                        assert(done.filter(|l: Seq<u8>| l.len() > 0) =~= prev_done.filter(
                            |l: Seq<u8>| l.len() > 0,
                        ).push(rest@));
                    }
                } else {
                    proof {
                        reveal(Seq::filter);
                        assert(done.drop_last() =~= prev_done);
                        assert(done.filter(|l: Seq<u8>| l.len() > 0) =~= prev_done.filter(
                            |l: Seq<u8>| l.len() > 0,
                        ));
                    }
                }
                finished = true;
            },
        }
    }
    lines
}

/// Builds the header list from every line after the request line;
/// `None` when some line's name or value is not valid UTF-8.
fn fold_header_lines(lines: &Vec<Vec<u8>>) -> (r: Option<Headers>)
    requires
        lines@.len() >= 1,
    ensures
        ({
            let hl = lines@.map_values(|v: Vec<u8>| v@).drop_first();
            match r {
                Some(h) => lines_ok(hl) && h@ == fold_lines(hl) && h.wf(),
                None => !lines_ok(hl),
            }
        }),
{
    let ghost hl = lines@.map_values(|v: Vec<u8>| v@).drop_first();
    let mut colon: Vec<u8> = Vec::new();
    colon.push(58);
    assert(colon@ =~= seq![58u8]);
    let mut hdrs = Headers::new();
    let mut li: usize = 1;
    proof {
        assert(hl.take(0) =~= Seq::<Seq<u8>>::empty());
    }
    while li < lines.len()
        invariant
            1 <= li <= lines@.len(),
            colon@ == seq![58u8],
            hl == lines@.map_values(|v: Vec<u8>| v@).drop_first(),
            forall|j: int| 0 <= j < li - 1 ==> line_ok(#[trigger] hl[j]),
            hdrs@ == fold_lines(hl.take(li - 1)),
            hdrs.wf(),
        decreases lines@.len() - li,
    {
        let ghost l = hl[li - 1];
        assert(l == lines@[li as int]@);
        let line = &lines[li];
        let line_len = line.len();
        match find_sub(line.as_slice(), colon.as_slice()) {
            Some(ci) => {
                assert(ci + 1 <= line_len);
                let name_b = trim_bytes(vstd::slice::slice_subrange(line.as_slice(), 0, ci));
                let value_b = trim_bytes(
                    vstd::slice::slice_subrange(line.as_slice(), ci + 1, line.len()),
                );
                proof {
                    assert(line@.subrange(0, ci as int) =~= l.take(ci as int));
                    assert(line@.subrange(ci + 1, line@.len() as int) =~= l.skip(ci + 1));
                    assert(name_b@ == line_name_bytes(l, ci as int));
                    assert(value_b@ == line_value_bytes(l, ci as int));
                }
                let ghost name_bytes = name_b@;
                let ghost value_bytes = value_b@;
                let name_s = match bytes_to_string(name_b) {
                    Some(s) => s,
                    None => {
                        assert(!line_ok(l));
                        assert(!lines_ok(hl));
                        return None;
                    },
                };
                let value_s = match bytes_to_string(value_b) {
                    Some(s) => s,
                    None => {
                        assert(!line_ok(l));
                        assert(!lines_ok(hl));
                        return None;
                    },
                };
                proof {
                    lemma_bytes_to_string_view(name_s@, name_bytes);
                    lemma_bytes_to_string_view(value_s@, value_bytes);
                    assert(line_ok(l));
                }
                let ghost before = hdrs@;
                hdrs.insert(name_s, value_s);
                proof {
                    assert(hdrs@ == add_line(before, l));
                    assert(hl.take(li as int).drop_last() =~= hl.take(li - 1));
                    assert(hl.take(li as int).last() == l);
                    assert(hdrs@ == fold_lines(hl.take(li as int)));
                }
            },
            None => {
                proof {
                    assert(line_ok(l));
                    assert(add_line(fold_lines(hl.take(li - 1)), l) == fold_lines(hl.take(li - 1)));
                    assert(hl.take(li as int).drop_last() =~= hl.take(li - 1));
                    assert(hl.take(li as int).last() == l);
                }
            },
        }
        li += 1;
    }
    proof {
        assert(hl.take(hl.len() as int) =~= hl);
        assert(forall|j: int| 0 <= j < hl.len() ==> line_ok(#[trigger] hl[j]));
    }
    Some(hdrs)
}

/// Outcome of decoding a chunked body, carried by `parse_chunked_body`.
enum ChunkedOut {
    Incomplete,
    Error(String),
    Done(Vec<u8>, usize),
}

/// Decodes the chunked body that starts at `he`.
fn parse_chunked_body(buf: &[u8], he: usize, body_limit: usize) -> (r: ChunkedOut)
    requires
        he <= buf@.len(),
    ensures
        ({
            let s = spec_chunked(buf@, body_limit as int, he as int, Seq::empty());
            match r {
                ChunkedOut::Incomplete => s is Incomplete,
                ChunkedOut::Error(e) => s matches SpecChunk::Bad(m) && e@ == m,
                ChunkedOut::Done(b, u) => s matches SpecChunk::Done(bs, us) && b@ == bs && u as int
                    == us,
            }
        }),
{
    let ghost limit = body_limit as int;
    let mut sep2: Vec<u8> = Vec::new();
    sep2.push(13);
    sep2.push(10);
    assert(sep2@ =~= crlf_seq());
    let mut sep4: Vec<u8> = Vec::new();
    sep4.push(13);
    sep4.push(10);
    sep4.push(13);
    sep4.push(10);
    assert(sep4@ =~= crlf2_seq());
    let buf_len = buf.len();
    let mut body: Vec<u8> = Vec::new();
    let mut idx: usize = he;
    proof {
        assert(body@ =~= Seq::<u8>::empty());
    }
    loop
        invariant
            he <= idx <= buf_len,
            buf_len == buf@.len(),
            sep2@ == crlf_seq(),
            sep4@ == crlf2_seq(),
            spec_chunked(buf@, limit, he as int, Seq::empty()) == spec_chunked(
                buf@,
                limit,
                idx as int,
                body@,
            ),
            limit == body_limit as int,
        decreases buf@.len() - idx,
    {
        let rest = vstd::slice::slice_subrange(buf, idx, buf_len);
        assert(rest@ == buf@.skip(idx as int));
        match find_sub(rest, sep2.as_slice()) {
            None => {
                return ChunkedOut::Incomplete;
            },
            Some(le) => {
                let raw = vstd::slice::slice_subrange(rest, 0, le);
                assert(raw@ == rest@.take(le as int));
                let raw_ok = bytes_to_string(vstd::slice::slice_to_vec(raw)).is_some();
                if !raw_ok {
                    return ChunkedOut::Error(String::from_str("invalid chunk size"));
                }
                let size_b = trim_bytes(raw);
                let size = match parse_hex_usize(size_b.as_slice()) {
                    Some(n) => n,
                    None => {
                        return ChunkedOut::Error(String::from_str("invalid chunk size"));
                    },
                };
                let idx2 = idx + le + 2;
                assert(idx2 <= buf_len);
                if size == 0 {
                    if buf_len - idx2 < 2 {
                        return ChunkedOut::Incomplete;
                    }
                    if buf[idx2] == 13 && buf[idx2 + 1] == 10 {
                        proof {
                            assert(buf@.subrange(idx2 as int, idx2 + 2) =~= crlf_seq());
                        }
                        return ChunkedOut::Done(body, idx2 + 2);
                    }
                    proof {
                        assert(buf@.subrange(idx2 as int, idx2 + 2) != crlf_seq()) by {
                            if buf@.subrange(idx2 as int, idx2 + 2) == crlf_seq() {
                                assert(buf@.subrange(idx2 as int, idx2 + 2)[0] == 13);
                                assert(buf@.subrange(idx2 as int, idx2 + 2)[1] == 10);
                            }
                        }
                    }
                    let trailers = vstd::slice::slice_subrange(buf, idx2, buf_len);
                    assert(trailers@ == buf@.skip(idx2 as int));
                    match find_sub(trailers, sep4.as_slice()) {
                        Some(t) => {
                            return ChunkedOut::Done(body, idx2 + t + 4);
                        },
                        None => {
                            return ChunkedOut::Incomplete;
                        },
                    }
                } else {
                    let avail = buf_len - idx2;
                    if avail < size {
                        return ChunkedOut::Incomplete;
                    }
                    if avail - size < 2 {
                        return ChunkedOut::Incomplete;
                    }
                    let chunk = vstd::slice::slice_subrange(buf, idx2, idx2 + size);
                    assert(chunk@ == buf@.subrange(idx2 as int, idx2 + size));
                    let ghost body0 = body@;
                    body.extend_from_slice(chunk);
                    if body.len() > body_limit {
                        return ChunkedOut::Error(String::from_str("body too large"));
                    }
                    proof {
                        assert(spec_find(rest@, crlf_seq()) == Some(le as int));
                        assert(valid_utf8(raw@));
                        assert(trim_seq(raw@) == size_b@);
                        assert(size_b@.len() > 0 && all_hex_digits(size_b@));
                        assert(size == hex_val(size_b@));
                        assert(body@ == body0 + buf@.subrange(idx2 as int, idx2 + size));
                        assert(body@.len() <= limit);
                        assert(buf@.len() >= idx2 + size + 2);
                        assert(spec_chunked(buf@, limit, idx as int, body0) == spec_chunked(
                            buf@,
                            limit,
                            idx2 + size + 2,
                            body@,
                        ));
                    }
                    idx = idx2 + size + 2;
                }
            },
        }
    }
}

/// A decoded chunked body stays within the limit.
proof fn lemma_chunked_within(buf: Seq<u8>, limit: int, idx: int, acc: Seq<u8>)
    requires
        acc.len() <= limit,
    ensures
        spec_chunked(buf, limit, idx, acc) matches SpecChunk::Done(b, _) ==> b.len() <= limit,
    decreases buf.len() - idx,
{
    if 0 <= idx <= buf.len() {
        crate::search::lemma_spec_find(buf.skip(idx), crlf_seq());
        match spec_find(buf.skip(idx), crlf_seq()) {
            Some(le) => {
                let raw = buf.skip(idx).take(le);
                let size_bytes = trim_seq(raw);
                if valid_utf8(raw) && size_bytes.len() > 0 && all_hex_digits(size_bytes)
                    && hex_val(size_bytes) <= usize::MAX {
                    let size = hex_val(size_bytes) as int;
                    let idx2 = idx + le + 2;
                    if size > 0 && buf.len() >= idx2 + size + 2 {
                        let acc2 = acc + buf.subrange(idx2, idx2 + size);
                        if acc2.len() <= limit {
                            lemma_chunked_within(buf, limit, idx2 + size + 2, acc2);
                        }
                    }
                }
            },
            None => {},
        }
    }
}

/// Body-limit enforcement.
///
/// Law: whenever the parser completes a request under a body limit,
/// the request's body is no longer than that limit; a longer declared
/// or decoded body is rejected with the body-too-large error instead.
#[verifier::rlimit(100)]
pub proof fn lemma_body_within_limit(buf: Seq<u8>, limit: int)
    requires
        limit >= 0,
    ensures
        spec_parse_request(buf, limit) matches SpecParse::Done(r, _) ==> r.body.len() <= limit,
{
    crate::search::lemma_spec_find(buf, crlf2_seq());
    match spec_find(buf, crlf2_seq()) {
        Some(he0) => {
            lemma_chunked_within(buf, limit, he0 + 4, Seq::empty());
        },
        None => {},
    }
}

/// The status a parse failure maps to: payload-too-large exactly for
/// the body-limit failure, bad-request for every other message.
pub fn error_status_for(msg: &str) -> (r: crate::http::status::StatusCode)
    ensures
        r == (if msg@ == "body too large"@ {
            crate::http::status::StatusCode::PayloadTooLarge
        } else {
            crate::http::status::StatusCode::BadRequest
        }),
{
    proof {
        crate::text::lemma_str_bytes_eq(msg@, "body too large"@);
    }
    if crate::search::bytes_eq(msg.as_bytes(), "body too large".as_bytes()) {
        crate::http::status::StatusCode::PayloadTooLarge
    } else {
        crate::http::status::StatusCode::BadRequest
    }
}

/// `req` realizes the mathematical request `s`.
pub open spec fn req_models(req: Request, s: SpecRequest) -> bool {
    &&& req.method == s.method
    &&& req.path@ == s.path
    &&& req.headers@ == s.headers
    &&& req.body@ == s.body
    &&& match (req.content_length, s.content_length) {
        (Some(a), Some(b)) => a as int == b,
        (None, None) => true,
        _ => false,
    }
    &&& req.keep_alive == s.keep_alive
}

/// Parses one request from the front of `buf`, holding the body to at
/// most `body_limit` bytes. The outcome is exactly what
/// `spec_parse_request` prescribes for the same bytes and limit.
#[verifier::rlimit(100)]
pub fn parse_request(buf: &[u8], body_limit: usize) -> (r: ParseResult)
    ensures
        ({
            let s = spec_parse_request(buf@, body_limit as int);
            match r {
                ParseResult::Incomplete => s is Incomplete,
                ParseResult::Error(e) => s matches SpecParse::Bad(m) && e@ == m,
                ParseResult::Complete(req, used) => s matches SpecParse::Done(sr, u) && used as int
                    == u && req_models(req, sr) && req.wf(),
            }
        }),
{
    let ghost limit = body_limit as int;
    let mut sep4: Vec<u8> = Vec::new();
    sep4.push(13);
    sep4.push(10);
    sep4.push(13);
    sep4.push(10);
    assert(sep4@ =~= crlf2_seq());
    let buf_len = buf.len();
    let he0 = match find_sub(buf, sep4.as_slice()) {
        Some(i) => i,
        None => {
            return ParseResult::Incomplete;
        },
    };
    assert(he0 + 4 <= buf_len);
    let he = he0 + 4;
    let head = vstd::slice::slice_subrange(buf, 0, he);
    proof {
        assert(head@ =~= buf@.take(he as int));
    }
    let lines = split_head_lines(head);
    let ghost nel = nonempty_lines(buf@.take(he as int));
    proof {
        assert(lines@.map_values(|v: Vec<u8>| v@) == nel);
    }
    if lines.len() == 0 {
        return ParseResult::Error(String::from_str("empty request line"));
    }
    let ghost rl = nel[0];
    proof {
        assert(rl == lines@[0]@);
    }
    let line0 = &lines[0];
    let line0_len = line0.len();
    let (t1, n1) = first_token(line0.as_slice());
    let rest1 = vstd::slice::slice_subrange(line0.as_slice(), n1, line0_len);
    proof {
        assert(rest1@ =~= line0@.skip(n1 as int));
        assert(rest1@ == after_token(trim_front(rl)));
    }
    let rest1_len = rest1.len();
    let (t2, n2) = first_token(rest1);
    let rest2 = vstd::slice::slice_subrange(rest1, n2, rest1_len);
    proof {
        assert(rest2@ =~= rest1@.skip(n2 as int));
        assert(rest2@ == after_token(trim_front(after_token(trim_front(rl)))));
    }
    let (t3, _n3) = first_token(rest2);
    proof {
        assert(t1@ == take_token(trim_front(rl)));
        assert(t2@ == take_token(trim_front(after_token(trim_front(rl)))));
        assert(t3@ == take_token(trim_front(after_token(trim_front(after_token(trim_front(rl)))))));
    }
    let ghost t2_bytes = t2@;
    let path_s = match bytes_to_string(t2) {
        Some(s) => s,
        None => {
            return ParseResult::Error(String::from_str("invalid utf8 in headers"));
        },
    };
    proof {
        lemma_bytes_to_string_view(path_s@, t2_bytes);
    }
    let hdrs = match fold_header_lines(&lines) {
        Some(h) => h,
        None => {
            return ParseResult::Error(String::from_str("invalid utf8 in headers"));
        },
    };
    let ghost hl = nel.drop_first();
    proof {
        assert(hl == lines@.map_values(|v: Vec<u8>| v@).drop_first());
        assert(lines_ok(hl));
        assert(hdrs@ == fold_lines(hl));
    }
    let m = if crate::search::bytes_eq(t1.as_slice(), "GET".as_bytes()) {
        Method::Get
    } else if crate::search::bytes_eq(t1.as_slice(), "POST".as_bytes()) {
        Method::Post
    } else if crate::search::bytes_eq(t1.as_slice(), "DELETE".as_bytes()) {
        Method::Delete
    } else {
        assert(method_of_bytes(t1@) is None);
        return ParseResult::Error(String::from_str("unsupported method"));
    };
    assert(method_of_bytes(t1@) == Some(m));
    if !bytes_start_with(t3.as_slice(), "HTTP/1.".as_bytes()) {
        return ParseResult::Error(String::from_str("unsupported version"));
    }
    assert(starts_with(t3@, str_bytes("HTTP/1."@)));
    let chunked = match hdrs.get("Transfer-Encoding") {
        Some(v) => bytes_eq_nocase(v.as_str().as_bytes(), "chunked".as_bytes()),
        None => false,
    };
    assert(chunked == spec_is_chunked(hdrs@));
    let keep_alive = match hdrs.get("Connection") {
        Some(v) => !bytes_eq_nocase(v.as_str().as_bytes(), "close".as_bytes()),
        None => true,
    };
    assert(keep_alive == spec_keep_alive(hdrs@));
    if chunked {
        match parse_chunked_body(buf, he, body_limit) {
            ChunkedOut::Incomplete => ParseResult::Incomplete,
            ChunkedOut::Error(e) => ParseResult::Error(e),
            ChunkedOut::Done(body, used) => {
                let req = Request {
                    method: m,
                    path: path_s,
                    headers: hdrs,
                    body,
                    content_length: None,
                    keep_alive,
                };
                ParseResult::Complete(req, used)
            },
        }
    } else {
        let cl: Option<usize> = match hdrs.get("Content-Length") {
            Some(v) => {
                match parse_dec_u64(v.as_str().as_bytes()) {
                    Some(n) => {
                        if n <= usize::MAX as u64 {
                            Some(n as usize)
                        } else {
                            None
                        }
                    },
                    None => None,
                }
            },
            None => None,
        };
        proof {
            match (cl, spec_content_length(hdrs@)) {
                (Some(a), Some(b)) => {
                    assert(a as int == b);
                },
                (None, None) => {},
                _ => {
                    assert(false);
                },
            }
        }
        let blen: usize = match cl {
            Some(n) => n,
            None => 0,
        };
        if blen > body_limit {
            return ParseResult::Error(String::from_str("body too large"));
        }
        if buf.len() - he < blen {
            return ParseResult::Incomplete;
        }
        let body = vstd::slice::slice_to_vec(vstd::slice::slice_subrange(buf, he, he + blen));
        proof {
            assert(body@ == buf@.subrange(he as int, he + blen));
        }
        let req = Request {
            method: m,
            path: path_s,
            headers: hdrs,
            body,
            content_length: cl,
            keep_alive,
        };
        ParseResult::Complete(req, he + blen)
    }
}

} // verus!
