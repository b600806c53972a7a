//! Static files: safe path resolution under the root, content types,
//! and response assembly.

use vstd::prelude::*;
use vstd::utf8::valid_utf8;
use crate::search::{spec_find, find_sub, starts_with};
use crate::text::{str_bytes, bytes_to_string, lemma_split_valid};
use crate::http::headers::hdr_insert;
use crate::http::response::Response;
use crate::http::status::StatusCode;
use crate::config::parser::rfind_byte;

verus! {

/// `s` cut at every slash; separators are not kept.
pub open spec fn split_slash(s: Seq<u8>) -> Seq<Seq<u8>>
    decreases s.len(),
    via split_slash_decreases
{
    match spec_find(s, seq![47u8]) {
        Some(i) => seq![s.take(i)] + split_slash(s.skip(i + 1)),
        None => seq![s],
    }
}

#[via_fn]
proof fn split_slash_decreases(s: Seq<u8>) {
    crate::search::lemma_spec_find(s, seq![47u8]);
}

/// A path component that stands for the parent directory.
pub open spec fn is_parent_seg(c: Seq<u8>) -> bool {
    c == seq![46u8, 46u8]
}

/// A component that names nothing: empty, or the current directory.
pub open spec fn is_empty_seg(c: Seq<u8>) -> bool {
    c == Seq::<u8>::empty() || c == seq![46u8]
}

/// The components of `p` that name directories or a file.
pub open spec fn kept_segs(p: Seq<u8>) -> Seq<Seq<u8>> {
    split_slash(p).filter(|c: Seq<u8>| !is_empty_seg(c))
}

/// Joins components with slashes.
pub open spec fn join_slash(cs: Seq<Seq<u8>>) -> Seq<u8>
    decreases cs.len(),
{
    if cs.len() == 0 {
        Seq::empty()
    } else if cs.len() == 1 {
        cs[0]
    } else {
        cs[0] + seq![47u8] + join_slash(cs.drop_first())
    }
}

/// The joined path under `root` that `req_path` names, when it never
/// climbs toward a parent directory: empty and current-directory
/// components vanish, and any parent component rejects the path.
pub open spec fn spec_safe_join(root: Seq<u8>, req_path: Seq<u8>) -> Option<Seq<u8>> {
    let segs = split_slash(req_path);
    if exists|i: int| 0 <= i < segs.len() && is_parent_seg(#[trigger] segs[i]) {
        None
    } else {
        Some(root + seq![47u8] + join_slash(kept_segs(req_path)))
    }
}

/// Resolves `req_path` under `root`, as `spec_safe_join` prescribes;
/// `None` rejects a path that reaches for a parent directory.
#[verifier::rlimit(100)]
pub fn safe_join(root: &str, req_path: &str) -> (r: Option<String>)
    ensures
        match r {
            Some(p) => spec_safe_join(str_bytes(root@), str_bytes(req_path@)) == Some(
                str_bytes(p@),
            ),
            None => spec_safe_join(str_bytes(root@), str_bytes(req_path@)) is None,
        },
{
    let rb = req_path.as_bytes();
    let rb_len = rb.len();
    let ghost whole = rb@;
    let mut out: Vec<u8> = Vec::new();
    out.extend_from_slice(root.as_bytes());
    out.push(47);
    let ghost out_base = out@;
    proof {
        vstd::utf8::encode_utf8_valid_utf8(root@);
        crate::text::lemma_ascii_bytes_valid(seq![47u8]);
        vstd::utf8::valid_utf8_concat(str_bytes(root@), seq![47u8]);
        assert(out_base =~= str_bytes(root@) + seq![47u8]);
    }
    let mut sep: Vec<u8> = Vec::new();
    sep.push(47);
    assert(sep@ =~= seq![47u8]);
    let mut pos: usize = 0;
    let ghost mut done: Seq<Seq<u8>> = Seq::empty();
    let mut finished = false;
    let mut first = true;
    proof {
        assert(whole.skip(0) =~= whole);
        assert(done + split_slash(whole) =~= split_slash(whole));
        assert(done.filter(|c: Seq<u8>| !is_empty_seg(c)) =~= Seq::<Seq<u8>>::empty());
        assert(out@ =~= out_base + join_slash(Seq::<Seq<u8>>::empty()));
    }
    while !finished
        invariant
            0 <= pos <= whole.len(),
            rb@ == whole,
            rb_len == whole.len(),
            sep@ == seq![47u8],
            out_base == str_bytes(root@) + seq![47u8],
            whole == str_bytes(req_path@),
            pos == 0 || (pos - 1 < whole.len() && whole[pos - 1] == 47),
            !finished ==> split_slash(whole) == done + split_slash(whole.skip(pos as int)),
            finished ==> split_slash(whole) == done,
            forall|i: int| 0 <= i < done.len() ==> !is_parent_seg(#[trigger] done[i]),
            valid_utf8(out@),
            ({
                let kept = done.filter(|c: Seq<u8>| !is_empty_seg(c));
                out@ == out_base + join_slash(kept) && (first <==> kept.len() == 0)
            }),
        decreases whole.len() - pos + (if finished { 0int } else { 1int }),
    {
        let rest = vstd::slice::slice_subrange(rb, pos, rb_len);
        assert(rest@ == whole.skip(pos as int));
        let ghost prev_done = done;
        let (piece, plen, had_sep) = match find_sub(rest, sep.as_slice()) {
            Some(i) => (vstd::slice::slice_subrange(rest, 0, i), i, true),
            None => (rest, rest.len(), false),
        };
        proof {
            if had_sep {
                assert(split_slash(rest@) == seq![rest@.take(plen as int)] + split_slash(
                    rest@.skip(plen + 1),
                ));
                assert(whole.skip(pos + plen + 1) =~= rest@.skip(plen + 1));
            } else {
                assert(split_slash(rest@) == seq![rest@]);
                assert(piece@ =~= rest@.take(plen as int));
            }
            done = done.push(rest@.take(plen as int));
            assert(piece@ == rest@.take(plen as int));
        }
        if piece.len() == 2 && piece[0] == 46 && piece[1] == 46 {
            proof {
                assert(piece@ =~= seq![46u8, 46u8]);
                assert(is_parent_seg(done.last()));
                if !had_sep {
                    assert(split_slash(whole) == prev_done + split_slash(rest@));
                } else {
                    assert(split_slash(whole) == prev_done + (seq![rest@.take(plen as int)]
                        + split_slash(rest@.skip(plen + 1))));
                }
                let k = done.len() - 1;
                assert(split_slash(whole)[k] == done[k]);
                assert(is_parent_seg(split_slash(whole)[k]));
            }
            return None;
        }
        let skip_piece: bool;
        if piece.len() == 0 {
            proof {
                assert(piece@ =~= Seq::<u8>::empty());
            }
            skip_piece = true;
        } else if piece.len() == 1 && piece[0] == 46 {
            proof {
                assert(piece@ =~= seq![46u8]);
            }
            skip_piece = true;
        } else {
            proof {
                assert(piece@.len() > 0);
                if piece@.len() == 1 {
                    assert(piece@ != seq![46u8]) by {
                        assert(piece@[0] != 46);
                    }
                }
            }
            skip_piece = false;
        }
        proof {
            assert(skip_piece == is_empty_seg(piece@));
            reveal(Seq::filter);
            assert(done.drop_last() =~= prev_done);
        }
        if !skip_piece {
            let ghost out_before = out@;
            let ghost was_first = first;
            if !first {
                out.push(47);
            }
            out.extend_from_slice(piece);
            first = false;
            proof {
                let prev_kept = prev_done.filter(|c: Seq<u8>| !is_empty_seg(c));
                let kept = done.filter(|c: Seq<u8>| !is_empty_seg(c));
                assert(kept =~= prev_kept.push(piece@));
                lemma_join_slash_push(prev_kept, piece@);
                if prev_kept.len() == 0 {
                    assert(join_slash(kept) == piece@);
                    assert(out@ =~= out_base + join_slash(kept));
                } else {
                    assert(out@ =~= out_base + (join_slash(prev_kept) + seq![47u8] + piece@));
                    assert(out_base + (join_slash(prev_kept) + seq![47u8] + piece@) =~= out_base
                        + join_slash(kept));
                }
                vstd::utf8::encode_utf8_valid_utf8(req_path@);
                crate::text::lemma_split_valid_after(whole, pos as int);
                assert(valid_utf8(whole.skip(pos as int))) by {
                    assert(whole.subrange(pos as int, whole.len() as int) =~= whole.skip(
                        pos as int,
                    ));
                }
                if had_sep {
                    assert(whole.skip(pos as int)[plen as int] == rest@.subrange(
                        plen as int,
                        plen + 1,
                    )[0]);
                    assert(whole.skip(pos as int)[plen as int] == 47);
                }
                lemma_split_valid(whole.skip(pos as int), plen as int);
                assert(piece@ =~= whole.skip(pos as int).subrange(0, plen as int));
                assert(valid_utf8(piece@));
                crate::text::lemma_ascii_bytes_valid(seq![47u8]);
                if was_first {
                    vstd::utf8::valid_utf8_concat(out_before, piece@);
                    assert(out@ =~= out_before + piece@);
                } else {
                    vstd::utf8::valid_utf8_concat(out_before, seq![47u8]);
                    vstd::utf8::valid_utf8_concat(out_before + seq![47u8], piece@);
                    assert(out@ =~= (out_before + seq![47u8]) + piece@);
                }
            }
        } else {
            proof {
                assert(done.filter(|c: Seq<u8>| !is_empty_seg(c)) =~= prev_done.filter(
                    |c: Seq<u8>| !is_empty_seg(c),
                ));
            }
        }
        if had_sep {
            proof {
                assert(whole.skip(pos as int)[plen as int] == rest@.subrange(
                    plen as int,
                    plen + 1,
                )[0]);
                assert(whole.skip(pos as int)[plen as int] == 47);
                assert(whole[pos + plen] == 47);
            }
            pos = pos + plen + 1;
        } else {
            finished = true;
        }
    }
    let ghost final_bytes = out@;
    match bytes_to_string(out) {
        Some(s) => {
            proof {
                let segs = split_slash(whole);
                assert(forall|i: int| 0 <= i < segs.len() ==> !is_parent_seg(#[trigger] segs[i]));
            }
            Some(s)
        },
        None => {
            proof {
                assert(false);
            }
            None
        },
    }
}

/// Joining after appending a component.
proof fn lemma_join_slash_push(cs: Seq<Seq<u8>>, c: Seq<u8>)
    ensures
        cs.len() == 0 ==> join_slash(cs.push(c)) == c,
        cs.len() > 0 ==> join_slash(cs.push(c)) == join_slash(cs) + seq![47u8] + c,
    decreases cs.len(),
{
    if cs.len() == 0 {
        assert(cs.push(c).len() == 1);
        assert(join_slash(cs.push(c)) == cs.push(c)[0]);
    } else if cs.len() == 1 {
        assert(cs.push(c).drop_first() =~= seq![c]);
        assert(join_slash(cs.push(c)) == cs[0] + seq![47u8] + join_slash(seq![c]));
        assert(join_slash(seq![c]) == c);
    } else {
        lemma_join_slash_push(cs.drop_first(), c);
        assert(cs.push(c).drop_first() =~= cs.drop_first().push(c));
        assert(join_slash(cs.push(c)) == cs[0] + seq![47u8] + join_slash(cs.drop_first().push(c)));
        assert(cs[0] + seq![47u8] + (join_slash(cs.drop_first()) + seq![47u8] + c) =~= (cs[0]
            + seq![47u8] + join_slash(cs.drop_first())) + seq![47u8] + c);
    }
}

/// A resolved safe path stays under the root directory.
///
/// Law: whatever path a request carries, the joined result either is
/// refused (some component reaches for a parent) or begins with
/// `root/` and holds no parent component, so no file outside the root
/// is ever named.
pub proof fn lemma_path_safety(root: Seq<u8>, req_path: Seq<u8>)
    ensures
        (exists|i: int|
            0 <= i < split_slash(req_path).len() && is_parent_seg(
                #[trigger] split_slash(req_path)[i],
            )) ==> spec_safe_join(root, req_path) is None,
        spec_safe_join(root, req_path) matches Some(p) ==> starts_with(p, root + seq![47u8]) && (
        forall|i: int|
            0 <= i < kept_segs(req_path).len() ==> !is_parent_seg(#[trigger] kept_segs(req_path)[i])
                && !is_empty_seg(kept_segs(req_path)[i])),
{
    if spec_safe_join(root, req_path) is Some {
        let p = spec_safe_join(root, req_path).unwrap();
        let pre = root + seq![47u8];
        assert(p.subrange(0, pre.len() as int) =~= pre);
        let kept = kept_segs(req_path);
        assert forall|i: int| 0 <= i < kept.len() implies !is_parent_seg(#[trigger] kept[i])
            && !is_empty_seg(kept[i]) by {
            split_slash(req_path).lemma_filter_pred(|c: Seq<u8>| !is_empty_seg(c), i);
            lemma_filter_element_from(split_slash(req_path), |c: Seq<u8>| !is_empty_seg(c), i);
            let segs = split_slash(req_path);
            let j = choose|j: int| 0 <= j < segs.len() && segs[j] == kept[i];
            assert(!is_parent_seg(segs[j]));
        }
    }
}

/// Every element a filter keeps occurs in the source sequence.
proof fn lemma_filter_element_from(s: Seq<Seq<u8>>, pred: spec_fn(Seq<u8>) -> bool, i: int)
    requires
        0 <= i < s.filter(pred).len(),
    ensures
        exists|j: int| 0 <= j < s.len() && s[j] == s.filter(pred)[i],
    decreases s.len(),
{
    reveal(Seq::filter);
    if s.len() > 0 {
        let f = s.filter(pred);
        let fd = s.drop_last().filter(pred);
        if pred(s.last()) && i == f.len() - 1 {
            assert(s[s.len() - 1] == f[i]);
        } else {
            assert(f[i] == fd[i]);
            lemma_filter_element_from(s.drop_last(), pred, i);
            let j = choose|j: int| 0 <= j < s.drop_last().len() && s.drop_last()[j] == fd[i];
            assert(s[j] == f[i]);
        }
    }
}

/// The content type for a file name, by its extension.
pub open spec fn spec_ext(p: Seq<u8>) -> Seq<u8> {
    match rfind_byte(p, 46) {
        Some(d) => {
            match rfind_byte(p, 47) {
                Some(s) => if s < d {
                    p.skip(d + 1)
                } else {
                    Seq::empty()
                },
                None => p.skip(d + 1),
            }
        },
        None => Seq::empty(),
    }
}

/// The content-type text for an extension.
pub open spec fn mime_chars(ext: Seq<u8>) -> Seq<char> {
    if ext == str_bytes("html"@) || ext == str_bytes("htm"@) {
        "text/html; charset=utf-8"@
    } else if ext == str_bytes("css"@) {
        "text/css"@
    } else if ext == str_bytes("js"@) {
        "application/javascript"@
    } else if ext == str_bytes("png"@) {
        "image/png"@
    } else if ext == str_bytes("jpg"@) || ext == str_bytes("jpeg"@) {
        "image/jpeg"@
    } else if ext == str_bytes("gif"@) {
        "image/gif"@
    } else if ext == str_bytes("svg"@) {
        "image/svg+xml"@
    } else if ext == str_bytes("txt"@) {
        "text/plain; charset=utf-8"@
    } else {
        "application/octet-stream"@
    }
}

/// The content type of the file at `path`, by its extension after the
/// last dot of its last component.
pub fn mime_for(path: &str) -> (r: &'static str)
    ensures
        r@ == mime_chars(spec_ext(str_bytes(path@))),
{
    let b = path.as_bytes();
    let b_len = b.len();
    let mut k: usize = b_len;
    while k > 0 && b[k - 1] != 46 && b[k - 1] != 47
        invariant
            0 <= k <= b@.len(),
            forall|j: int| k <= j < b@.len() ==> b@[j] != 46 && b@[j] != 47,
        decreases k,
    {
        k -= 1;
    }
    let ext: &[u8] = if k == 0 {
        proof {
            crate::config::parser::lemma_rfind_none(b@, 46);
            crate::config::parser::lemma_rfind_none(b@, 47);
            assert(spec_ext(b@) =~= Seq::<u8>::empty());
        }
        vstd::slice::slice_subrange(b, 0, 0)
    } else if b[k - 1] == 47 {
        proof {
            crate::config::parser::lemma_rfind_at(b@, 47, k - 1);
            match rfind_byte(b@, 46) {
                Some(d) => {
                    crate::config::parser::lemma_rfind_characterize(b@, 46);
                    assert(d < k - 1);
                },
                None => {},
            }
            assert(spec_ext(b@) =~= Seq::<u8>::empty());
        }
        vstd::slice::slice_subrange(b, 0, 0)
    } else {
        proof {
            crate::config::parser::lemma_rfind_at(b@, 46, k - 1);
            match rfind_byte(b@, 47) {
                Some(s) => {
                    crate::config::parser::lemma_rfind_characterize(b@, 47);
                    assert(s < k - 1);
                },
                None => {},
            }
            assert(b@.skip(k as int) == spec_ext(b@));
        }
        vstd::slice::slice_subrange(b, k, b_len)
    };
    assert(ext@ =~= spec_ext(str_bytes(path@)));
    if crate::search::bytes_eq(ext, "html".as_bytes()) || crate::search::bytes_eq(
        ext,
        "htm".as_bytes(),
    ) {
        "text/html; charset=utf-8"
    } else if crate::search::bytes_eq(ext, "css".as_bytes()) {
        "text/css"
    } else if crate::search::bytes_eq(ext, "js".as_bytes()) {
        "application/javascript"
    } else if crate::search::bytes_eq(ext, "png".as_bytes()) {
        "image/png"
    } else if crate::search::bytes_eq(ext, "jpg".as_bytes()) || crate::search::bytes_eq(
        ext,
        "jpeg".as_bytes(),
    ) {
        "image/jpeg"
    } else if crate::search::bytes_eq(ext, "gif".as_bytes()) {
        "image/gif"
    } else if crate::search::bytes_eq(ext, "svg".as_bytes()) {
        "image/svg+xml"
    } else if crate::search::bytes_eq(ext, "txt".as_bytes()) {
        "text/plain; charset=utf-8"
    } else {
        "application/octet-stream"
    }
}

/// `s` without its trailing slashes.
pub open spec fn trim_end_slashes(s: Seq<u8>) -> Seq<u8>
    decreases s.len(),
{
    if s.len() > 0 && s.last() == 47 {
        trim_end_slashes(s.drop_last())
    } else {
        s
    }
}

proof fn lemma_trim_end_slashes(s: Seq<u8>, i: int)
    requires
        0 <= i <= s.len(),
        forall|j: int| i <= j < s.len() ==> s[j] == 47,
        i > 0 ==> s[i - 1] != 47,
    ensures
        trim_end_slashes(s) == s.subrange(0, i),
    decreases s.len() - i,
{
    if i == s.len() {
        assert(s.subrange(0, i) =~= s);
    } else {
        lemma_trim_end_slashes(s.drop_last(), i);
        assert(s.drop_last().subrange(0, i) =~= s.subrange(0, i));
    }
}

/// One listing row: a link to the entry, directories marked with a
/// trailing slash.
pub open spec fn index_row(base: Seq<u8>, name: Seq<u8>, is_dir: bool) -> Seq<u8> {
    let slash: Seq<u8> = if is_dir {
        seq![47u8]
    } else {
        Seq::empty()
    };
    str_bytes("<li><a href=\""@) + base + seq![47u8] + name + slash + str_bytes("\">"@) + name
        + slash + str_bytes("</a></li>"@)
}

/// All listing rows, in order.
pub open spec fn index_rows(base: Seq<u8>, es: Seq<(Seq<u8>, bool)>) -> Seq<u8>
    decreases es.len(),
{
    if es.len() == 0 {
        Seq::empty()
    } else {
        index_row(base, es[0].0, es[0].1) + index_rows(base, es.drop_first())
    }
}

proof fn lemma_index_rows_push(base: Seq<u8>, es: Seq<(Seq<u8>, bool)>, e: (Seq<u8>, bool))
    ensures
        index_rows(base, es.push(e)) == index_rows(base, es) + index_row(base, e.0, e.1),
    decreases es.len(),
{
    if es.len() == 0 {
        assert(es.push(e)[0] == e);
        assert(es.push(e).drop_first() =~= Seq::<(Seq<u8>, bool)>::empty());
        assert(index_rows(base, Seq::<(Seq<u8>, bool)>::empty()) =~= Seq::<u8>::empty());
        assert(index_rows(base, es.push(e)) =~= index_row(base, e.0, e.1) + index_rows(
            base,
            Seq::<(Seq<u8>, bool)>::empty(),
        ));
        assert(index_rows(base, es) + index_row(base, e.0, e.1) =~= index_row(base, e.0, e.1));
        assert(index_rows(base, es.push(e)) =~= index_row(base, e.0, e.1));
    } else {
        lemma_index_rows_push(base, es.drop_first(), e);
        assert(es.push(e).drop_first() =~= es.drop_first().push(e));
        assert(es.push(e)[0] == es[0]);
        assert(index_row(base, es[0].0, es[0].1) + (index_rows(base, es.drop_first()) + index_row(
            base,
            e.0,
            e.1,
        )) =~= (index_row(base, es[0].0, es[0].1) + index_rows(base, es.drop_first())) + index_row(
            base,
            e.0,
            e.1,
        ));
    }
}

/// The whole listing page for a directory.
pub open spec fn autoindex_bytes(path: Seq<u8>, es: Seq<(Seq<u8>, bool)>) -> Seq<u8> {
    str_bytes("<html><head><title>Index of "@) + path + str_bytes(
        "</title></head><body><h1>Index of "@,
    ) + path + str_bytes("</h1><hr><ul>"@) + index_rows(trim_end_slashes(path), es) + str_bytes(
        "</ul><hr></body></html>"@,
    )
}

/// Builds the listing page for a directory: each entry is a name and
/// whether it is itself a directory.
#[verifier::rlimit(100)]
pub fn autoindex_page(req_path: &str, entries: &Vec<(String, bool)>) -> (r: Response)
    ensures
        r.status == StatusCode::Okay,
        r.body@ == autoindex_bytes(
            str_bytes(req_path@),
            entries@.map_values(|e: (String, bool)| (str_bytes(e.0@), e.1)),
        ),
        r.headers@ == hdr_insert(Seq::empty(), "Content-Type"@, "text/html; charset=utf-8"@),
        r.wf(),
{
    let pb = req_path.as_bytes();
    let pb_len = pb.len();
    let mut hi: usize = pb_len;
    while hi > 0 && pb[hi - 1] == 47
        invariant
            0 <= hi <= pb@.len(),
            forall|j: int| hi <= j < pb@.len() ==> pb@[j] == 47,
        decreases hi,
    {
        hi -= 1;
    }
    proof {
        lemma_trim_end_slashes(pb@, hi as int);
    }
    let base = vstd::slice::slice_subrange(pb, 0, hi);
    assert(base@ == trim_end_slashes(str_bytes(req_path@)));
    let mut out: Vec<u8> = Vec::new();
    out.extend_from_slice("<html><head><title>Index of ".as_bytes());
    out.extend_from_slice(pb);
    out.extend_from_slice("</title></head><body><h1>Index of ".as_bytes());
    out.extend_from_slice(pb);
    out.extend_from_slice("</h1><hr><ul>".as_bytes());
    let ghost head = out@;
    let ghost es = entries@.map_values(|e: (String, bool)| (str_bytes(e.0@), e.1));
    let mut i: usize = 0;
    proof {
        assert(out@ =~= head + index_rows(base@, es.take(0)));
    }
    while i < entries.len()
        invariant
            0 <= i <= entries@.len(),
            es == entries@.map_values(|e: (String, bool)| (str_bytes(e.0@), e.1)),
            base@ == trim_end_slashes(str_bytes(req_path@)),
            out@ == head + index_rows(base@, es.take(i as int)),
        decreases entries@.len() - i,
    {
        let ghost row_start = out@;
        out.extend_from_slice("<li><a href=\"".as_bytes());
        out.extend_from_slice(base);
        out.push(47);
        out.extend_from_slice(entries[i].0.as_str().as_bytes());
        if entries[i].1 {
            out.push(47);
        }
        out.extend_from_slice("\">".as_bytes());
        out.extend_from_slice(entries[i].0.as_str().as_bytes());
        if entries[i].1 {
            out.push(47);
        }
        out.extend_from_slice("</a></li>".as_bytes());
        proof {
            assert(out@ =~= row_start + index_row(base@, es[i as int].0, es[i as int].1));
            lemma_index_rows_push(base@, es.take(i as int), es[i as int]);
            assert(es.take(i as int).push(es[i as int]) =~= es.take(i + 1));
            assert(out@ =~= head + index_rows(base@, es.take(i + 1)));
        }
        i += 1;
    }
    proof {
        assert(es.take(es.len() as int) =~= es);
    }
    out.extend_from_slice("</ul><hr></body></html>".as_bytes());
    let mut resp = Response::new(StatusCode::Okay);
    resp.body = out;
    resp.headers.insert(
        String::from_str("Content-Type"),
        String::from_str("text/html; charset=utf-8"),
    );
    proof {
        assert(resp.body@ =~= autoindex_bytes(str_bytes(req_path@), es));
    }
    resp
}

/// The ceiling on static responses; larger files are refused.
pub fn max_static_bytes() -> (r: u64)
    ensures
        r == 8388608,
{
    8388608
}

/// The size gate for a static file: too large fails with
/// payload-too-large, anything else may be served.
pub fn static_size_gate(size: u64) -> (r: Option<StatusCode>)
    ensures
        r == (if size > 8388608 {
            Some(StatusCode::PayloadTooLarge)
        } else {
            None::<StatusCode>
        }),
{
    if size > 8388608 {
        Some(StatusCode::PayloadTooLarge)
    } else {
        None
    }
}

/// The status a file-system failure maps to: absent files fail with
/// not-found, denied access with forbidden, anything else with the
/// server-error status.
pub fn fs_error_status(not_found: bool, permission_denied: bool) -> (r: StatusCode)
    ensures
        r == (if not_found {
            StatusCode::NotFound
        } else if permission_denied {
            StatusCode::Forbidden
        } else {
            StatusCode::InternalServerError
        }),
{
    if not_found {
        StatusCode::NotFound
    } else if permission_denied {
        StatusCode::Forbidden
    } else {
        StatusCode::InternalServerError
    }
}

/// The successful response for a static file: its bytes, typed by the
/// file name's extension.
pub fn static_response(path: &str, bytes: Vec<u8>) -> (r: Response)
    ensures
        r.status == StatusCode::Okay,
        r.body@ == bytes@,
        r.headers@ == hdr_insert(
            Seq::empty(),
            "Content-Type"@,
            mime_chars(spec_ext(str_bytes(path@))),
        ),
        r.wf(),
{
    let mut resp = Response::new(StatusCode::Okay);
    resp.body = bytes;
    let mime = mime_for(path);
    resp.headers.insert(String::from_str("Content-Type"), String::from_str(mime));
    resp
}

} // verus!
