//! Substring search and equality over byte slices.

use vstd::prelude::*;

verus! {

/// `pat` occurs in `text` starting at index `i`.
pub open spec fn is_match_at(text: Seq<u8>, pat: Seq<u8>, i: int) -> bool {
    0 <= i && i + pat.len() <= text.len() && text.subrange(i, i + pat.len()) == pat
}

/// Relies on `twoway::find_bytes`: returns the index of the first
/// occurrence of `pat` in `text`, or `None` when `pat` does not occur
/// (an empty pattern occurs at index 0).
#[verifier::external_body]
pub fn find_bytes(text: &[u8], pat: &[u8]) -> (r: Option<usize>)
    ensures
        match r {
            Some(i) => is_match_at(text@, pat@, i as int) && (forall|j: int|
                0 <= j < i ==> !is_match_at(text@, pat@, j)),
            None => forall|j: int| !is_match_at(text@, pat@, j),
        },
{
    twoway::find_bytes(text, pat)
}

/// Byte-slice equality.
pub fn bytes_eq(a: &[u8], b: &[u8]) -> (r: bool)
    ensures
        r == (a@ == b@),
{
    if a.len() != b.len() {
        assert(a@ != b@) by {
            assert(a@.len() != b@.len());
        }
        return false;
    }
    let mut i: usize = 0;
    while i < a.len()
        invariant
            0 <= i <= a@.len(),
            a@.len() == b@.len(),
            forall|j: int| 0 <= j < i ==> a@[j] == b@[j],
        decreases a@.len() - i,
    {
        if a[i] != b[i] {
            assert(a@ != b@) by {
                assert(a@[i as int] != b@[i as int]);
            }
            return false;
        }
        i += 1;
    }
    assert(a@ =~= b@);
    true
}

/// Index of the first occurrence of `pat` in `text`, if any.
pub open spec fn spec_find(text: Seq<u8>, pat: Seq<u8>) -> Option<int>
    decreases text.len(),
{
    if is_match_at(text, pat, 0) {
        Some(0)
    } else if text.len() == 0 {
        None
    } else {
        match spec_find(text.drop_first(), pat) {
            Some(i) => Some(i + 1),
            None => None,
        }
    }
}

/// Occurrences shift by one under `drop_first`.
proof fn lemma_match_shift(text: Seq<u8>, pat: Seq<u8>, j: int)
    requires
        text.len() > 0,
        j >= 0,
    ensures
        is_match_at(text, pat, j + 1) == is_match_at(text.drop_first(), pat, j),
{
    if 0 <= j && j + 1 + pat.len() <= text.len() {
        assert(text.subrange(j + 1, j + 1 + pat.len()) =~= text.drop_first().subrange(
            j,
            j + pat.len(),
        ));
    }
}

/// `spec_find` returns the first occurrence, or `None` when there is none.
pub proof fn lemma_spec_find(text: Seq<u8>, pat: Seq<u8>)
    ensures
        match spec_find(text, pat) {
            Some(i) => is_match_at(text, pat, i) && (forall|j: int|
                0 <= j < i ==> !is_match_at(text, pat, j)),
            None => forall|j: int| !is_match_at(text, pat, j),
        },
    decreases text.len(),
{
    if is_match_at(text, pat, 0) {
    } else if text.len() == 0 {
        assert(forall|j: int| !is_match_at(text, pat, j)) by {
            assert forall|j: int| !is_match_at(text, pat, j) by {
                if 0 <= j && j + pat.len() <= text.len() {
                    assert(j == 0 || pat.len() == 0);
                }
            }
        }
    } else {
        lemma_spec_find(text.drop_first(), pat);
        assert forall|j: int| j >= 1 implies #[trigger] is_match_at(text, pat, j)
            == is_match_at(text.drop_first(), pat, j - 1) by {
            lemma_match_shift(text, pat, j - 1);
        }
    }
}

/// First occurrence of `pat` in `text`, as `spec_find` names it.
/// Wraps the raw search and carries its determinacy.
pub fn find_sub(text: &[u8], pat: &[u8]) -> (r: Option<usize>)
    ensures
        match r {
            Some(i) => spec_find(text@, pat@) == Some(i as int) && is_match_at(
                text@,
                pat@,
                i as int,
            ),
            None => spec_find(text@, pat@) is None,
        },
{
    let r = find_bytes(text, pat);
    proof {
        lemma_spec_find(text@, pat@);
        match r {
            Some(i) => {
                let k = spec_find(text@, pat@);
                if k is None {
                } else {
                    let ki = k.unwrap();
                    if ki < i {
                    } else if ki > i {
                    }
                }
            },
            None => {
                if spec_find(text@, pat@) is Some {
                }
            },
        }
    }
    r
}

/// `prefix` is a prefix of `text`.
pub open spec fn starts_with(text: Seq<u8>, prefix: Seq<u8>) -> bool {
    is_match_at(text, prefix, 0)
}

/// Prefix test on byte slices.
pub fn bytes_start_with(text: &[u8], prefix: &[u8]) -> (r: bool)
    ensures
        r == starts_with(text@, prefix@),
{
    if prefix.len() > text.len() {
        return false;
    }
    let head = vstd::slice::slice_subrange(text, 0, prefix.len());
    bytes_eq(head, prefix)
}

} // verus!
