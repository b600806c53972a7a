//! Header lists: insertion-ordered, case-sensitive on names, one entry
//! per name.

use vstd::prelude::*;
use crate::search::bytes_eq;
use crate::text::lemma_str_bytes_eq;

verus! {

/// The value bound to `n` in `h`, scanning from the front.
pub open spec fn hdr_lookup(h: Seq<(Seq<char>, Seq<char>)>, n: Seq<char>) -> Option<Seq<char>>
    decreases h.len(),
{
    if h.len() == 0 {
        None
    } else if h[0].0 == n {
        Some(h[0].1)
    } else {
        hdr_lookup(h.drop_first(), n)
    }
}

/// Some entry of `h` is named `n`.
pub open spec fn hdr_has(h: Seq<(Seq<char>, Seq<char>)>, n: Seq<char>) -> bool {
    exists|i: int| 0 <= i < h.len() && h[i].0 == n
}

/// `h` with `n` bound to `v`: the first entry named `n` is replaced in
/// place, or a new entry is appended.
pub open spec fn hdr_insert(
    h: Seq<(Seq<char>, Seq<char>)>,
    n: Seq<char>,
    v: Seq<char>,
) -> Seq<(Seq<char>, Seq<char>)>
    decreases h.len(),
{
    if h.len() == 0 {
        seq![(n, v)]
    } else if h[0].0 == n {
        seq![(n, v)] + h.drop_first()
    } else {
        seq![h[0]] + hdr_insert(h.drop_first(), n, v)
    }
}

/// No two entries share a name.
pub open spec fn hdr_wf(h: Seq<(Seq<char>, Seq<char>)>) -> bool {
    forall|i: int, j: int| 0 <= i < j < h.len() ==> h[i].0 != h[j].0
}

/// A name is present exactly when lookup finds a value.
pub proof fn lemma_hdr_has_lookup(h: Seq<(Seq<char>, Seq<char>)>, n: Seq<char>)
    ensures
        hdr_has(h, n) <==> hdr_lookup(h, n) is Some,
    decreases h.len(),
{
    if h.len() > 0 && h[0].0 != n {
        lemma_hdr_has_lookup(h.drop_first(), n);
        assert(hdr_has(h, n) ==> hdr_has(h.drop_first(), n)) by {
            if hdr_has(h, n) {
                let i = choose|i: int| 0 <= i < h.len() && h[i].0 == n;
                assert(h.drop_first()[i - 1].0 == n);
            }
        }
        assert(hdr_has(h.drop_first(), n) ==> hdr_has(h, n)) by {
            if hdr_has(h.drop_first(), n) {
                let i = choose|i: int| 0 <= i < h.drop_first().len() && h.drop_first()[i].0 == n;
                assert(h[i + 1].0 == n);
            }
        }
    }
}

/// Lookup finds the first matching entry.
pub proof fn lemma_hdr_lookup_at(h: Seq<(Seq<char>, Seq<char>)>, n: Seq<char>, i: int)
    requires
        0 <= i < h.len(),
        h[i].0 == n,
        forall|j: int| 0 <= j < i ==> h[j].0 != n,
    ensures
        hdr_lookup(h, n) == Some(h[i].1),
    decreases i,
{
    if i > 0 {
        lemma_hdr_lookup_at(h.drop_first(), n, i - 1);
    }
}

/// Lookup fails when no entry matches.
pub proof fn lemma_hdr_lookup_none(h: Seq<(Seq<char>, Seq<char>)>, n: Seq<char>)
    requires
        forall|j: int| 0 <= j < h.len() ==> h[j].0 != n,
    ensures
        hdr_lookup(h, n) is None,
    decreases h.len(),
{
    if h.len() > 0 {
        lemma_hdr_lookup_none(h.drop_first(), n);
    }
}

/// Replacing the first matching entry in place realizes `hdr_insert`.
pub proof fn lemma_hdr_insert_update(h: Seq<(Seq<char>, Seq<char>)>, n: Seq<char>, v: Seq<char>, i: int)
    requires
        0 <= i < h.len(),
        h[i].0 == n,
        forall|j: int| 0 <= j < i ==> h[j].0 != n,
    ensures
        hdr_insert(h, n, v) == h.update(i, (n, v)),
    decreases i,
{
    if i == 0 {
        assert(hdr_insert(h, n, v) =~= h.update(0, (n, v)));
    } else {
        lemma_hdr_insert_update(h.drop_first(), n, v, i - 1);
        assert(seq![h[0]] + h.drop_first().update(i - 1, (n, v)) =~= h.update(i, (n, v)));
    }
}

/// Appending realizes `hdr_insert` when no entry matches.
pub proof fn lemma_hdr_insert_push(h: Seq<(Seq<char>, Seq<char>)>, n: Seq<char>, v: Seq<char>)
    requires
        forall|j: int| 0 <= j < h.len() ==> h[j].0 != n,
    ensures
        hdr_insert(h, n, v) == h.push((n, v)),
    decreases h.len(),
{
    if h.len() == 0 {
        assert(hdr_insert(h, n, v) =~= h.push((n, v)));
    } else {
        lemma_hdr_insert_push(h.drop_first(), n, v);
        assert(seq![h[0]] + h.drop_first().push((n, v)) =~= h.push((n, v)));
    }
}

/// `hdr_insert` binds `n` to `v` and leaves every other name alone.
pub proof fn lemma_hdr_insert_lookup(
    h: Seq<(Seq<char>, Seq<char>)>,
    n: Seq<char>,
    v: Seq<char>,
    m: Seq<char>,
)
    ensures
        hdr_lookup(hdr_insert(h, n, v), n) == Some(v),
        m != n ==> hdr_lookup(hdr_insert(h, n, v), m) == hdr_lookup(h, m),
    decreases h.len(),
{
    if h.len() == 0 {
        assert(hdr_insert(h, n, v) =~= seq![(n, v)]);
        assert(hdr_insert(h, n, v).len() == 1);
        assert(hdr_insert(h, n, v)[0] == (n, v));
        assert(hdr_insert(h, n, v).drop_first() =~= Seq::<(Seq<char>, Seq<char>)>::empty());
        if m != n {
            assert(hdr_lookup(Seq::<(Seq<char>, Seq<char>)>::empty(), m) is None);
            assert(hdr_lookup(hdr_insert(h, n, v), m) is None);
        }
    } else if h[0].0 == n {
        assert(hdr_insert(h, n, v)[0] == (n, v));
        assert(hdr_insert(h, n, v).drop_first() =~= h.drop_first());
    } else {
        lemma_hdr_insert_lookup(h.drop_first(), n, v, m);
        assert(hdr_insert(h, n, v).len() == 1 + hdr_insert(h.drop_first(), n, v).len());
        assert(hdr_insert(h, n, v)[0] == h[0]);
        assert(hdr_insert(h, n, v).drop_first() =~= hdr_insert(h.drop_first(), n, v));
    }
}

/// `hdr_insert` preserves well-formedness.
pub proof fn lemma_hdr_insert_wf(h: Seq<(Seq<char>, Seq<char>)>, n: Seq<char>, v: Seq<char>)
    requires
        hdr_wf(h),
    ensures
        hdr_wf(hdr_insert(h, n, v)),
{
    lemma_hdr_has_lookup(h, n);
    if hdr_has(h, n) {
        let i = first_match_index(h, n);
        lemma_hdr_insert_update(h, n, v, i);
    } else {
        assert(forall|j: int| 0 <= j < h.len() ==> h[j].0 != n);
        lemma_hdr_insert_push(h, n, v);
    }
}

/// Index of the first entry named `n`, when one exists.
pub proof fn first_match_index(h: Seq<(Seq<char>, Seq<char>)>, n: Seq<char>) -> (i: int)
    requires
        hdr_has(h, n),
    ensures
        0 <= i < h.len(),
        h[i].0 == n,
        forall|j: int| 0 <= j < i ==> h[j].0 != n,
    decreases h.len(),
{
    if h[0].0 == n {
        0
    } else {
        assert(hdr_has(h.drop_first(), n)) by {
            let k = choose|k: int| 0 <= k < h.len() && h[k].0 == n;
            assert(h.drop_first()[k - 1].0 == n);
        }
        let i = first_match_index(h.drop_first(), n);
        assert(h[i + 1].0 == n);
        assert(forall|j: int| 1 <= j < i + 1 ==> h[j].0 == h.drop_first()[j - 1].0);
        i + 1
    }
}

/// An ordered list of named header lines.
pub struct Headers {
    pub entries: Vec<(String, String)>,
}

impl View for Headers {
    type V = Seq<(Seq<char>, Seq<char>)>;

    open spec fn view(&self) -> Seq<(Seq<char>, Seq<char>)> {
        self.entries@.map_values(|p: (String, String)| (p.0@, p.1@))
    }
}

impl Headers {
    /// Every name occurs at most once.
    pub open spec fn wf(&self) -> bool {
        hdr_wf(self@)
    }

    pub fn new() -> (r: Headers)
        ensures
            r@ =~= Seq::<(Seq<char>, Seq<char>)>::empty(),
            r.wf(),
    {
        Headers { entries: Vec::new() }
    }

    pub fn len(&self) -> (r: usize)
        ensures
            r == self@.len(),
    {
        self.entries.len()
    }

    /// Binds `name` to `value`, replacing any previous binding in place.
    pub fn insert(&mut self, name: String, value: String)
        ensures
            final(self)@ == hdr_insert(old(self)@, name@, value@),
            old(self).wf() ==> final(self).wf(),
    {
        proof {
            if old(self).wf() {
                lemma_hdr_insert_wf(old(self)@, name@, value@);
            }
        }
        let mut i: usize = 0;
        while i < self.entries.len()
            invariant
                0 <= i <= self@.len(),
                self == old(self),
                forall|j: int| 0 <= j < i ==> self@[j].0 != name@,
                old(self).wf() ==> hdr_wf(hdr_insert(old(self)@, name@, value@)),
            decreases self@.len() - i,
        {
            let hit = bytes_eq(self.entries[i].0.as_str().as_bytes(), name.as_str().as_bytes());
            proof {
                lemma_str_bytes_eq(self.entries@[i as int].0@, name@);
            }
            if hit {
                proof {
                    lemma_hdr_insert_update(self@, name@, value@, i as int);
                }
                self.entries[i] = (name, value);
                assert(self@ =~= old(self)@.update(i as int, (name@, value@)));
                assert(self@ == hdr_insert(old(self)@, name@, value@));
                assert(old(self).wf() ==> hdr_wf(self@));
                return ;
            }
            i += 1;
        }
        proof {
            lemma_hdr_insert_push(self@, name@, value@);
        }
        self.entries.push((name, value));
        assert(self@ =~= old(self)@.push((name@, value@)));
    }

    /// The value bound to `name`, if any.
    pub fn get(&self, name: &str) -> (r: Option<&String>)
        ensures
            match r {
                Some(v) => hdr_lookup(self@, name@) == Some(v@),
                None => hdr_lookup(self@, name@) is None,
            },
    {
        let mut i: usize = 0;
        while i < self.entries.len()
            invariant
                0 <= i <= self@.len(),
                forall|j: int| 0 <= j < i ==> self@[j].0 != name@,
            decreases self@.len() - i,
        {
            let hit = bytes_eq(self.entries[i].0.as_str().as_bytes(), name.as_bytes());
            proof {
                lemma_str_bytes_eq(self.entries@[i as int].0@, name@);
            }
            if hit {
                proof {
                    lemma_hdr_lookup_at(self@, name@, i as int);
                }
                return Some(&self.entries[i].1);
            }
            i += 1;
        }
        proof {
            lemma_hdr_lookup_none(self@, name@);
        }
        None
    }

    /// Whether some entry is named `name`.
    pub fn contains_key(&self, name: &str) -> (r: bool)
        ensures
            r == hdr_has(self@, name@),
    {
        proof {
            lemma_hdr_has_lookup(self@, name@);
        }
        match self.get(name) {
            Some(_) => {
                proof {
                    lemma_hdr_has_lookup(self@, name@);
                }
                true
            },
            None => false,
        }
    }
}

impl Clone for Headers {
    fn clone(&self) -> (r: Self)
        ensures
            r@ == self@,
    {
        let mut entries: Vec<(String, String)> = Vec::new();
        let mut i: usize = 0;
        while i < self.entries.len()
            invariant
                0 <= i <= self@.len(),
                entries@.map_values(|p: (String, String)| (p.0@, p.1@)) =~= self@.subrange(
                    0,
                    i as int,
                ),
            decreases self@.len() - i,
        {
            let name = self.entries[i].0.clone();
            let value = self.entries[i].1.clone();
            let ghost before = entries@;
            entries.push((name, value));
            proof {
                assert(entries@.map_values(|p: (String, String)| (p.0@, p.1@)) =~= before.map_values(
                    |p: (String, String)| (p.0@, p.1@),
                ).push((name@, value@)));
                assert(before.map_values(|p: (String, String)| (p.0@, p.1@)).push((name@, value@))
                    =~= self@.subrange(0, i + 1));
            }
            i += 1;
        }
        proof {
            assert(self@.subrange(0, self@.len() as int) =~= self@);
        }
        let r = Headers { entries };
        assert(r@ =~= self@);
        r
    }
}

} // verus!
