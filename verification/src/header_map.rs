//! An insertion-ordered, multi-valued mapping from header field names to
//! value lists.
//!
//! The decoder canonicalizes names to lowercase through [`HeaderMap::append`];
//! response builders may store names verbatim through [`HeaderMap::insert`],
//! and the encoder emits them exactly as stored.

use vstd::prelude::*;

use crate::ascii::{bytes_eq, lower, lower_slice};

verus! {

struct HeaderEntry {
    name: Vec<u8>,
    values: Vec<Vec<u8>>,
}

/// An ordered list of (field name, value list) entries with pairwise
/// distinct names.
pub struct HeaderMap {
    entries: Vec<HeaderEntry>,
}

/// The views of a sequence of byte vectors.
pub open spec fn vecs_view(v: Seq<Vec<u8>>) -> Seq<Seq<u8>> {
    Seq::new(v.len(), |i: int| v[i]@)
}

/// Index of the first entry named `name`, or `-1` when there is none.
pub open spec fn find_key(es: Seq<(Seq<u8>, Seq<Seq<u8>>)>, name: Seq<u8>) -> int
    decreases es.len(),
{
    if es.len() == 0 {
        -1
    } else if es[0].0 == name {
        0
    } else if find_key(es.skip(1), name) == -1 {
        -1
    } else {
        find_key(es.skip(1), name) + 1
    }
}

/// The value list stored under `name`, if any.
pub open spec fn map_get(es: Seq<(Seq<u8>, Seq<Seq<u8>>)>, name: Seq<u8>) -> Option<Seq<Seq<u8>>> {
    if find_key(es, name) >= 0 {
        Some(es[find_key(es, name)].1)
    } else {
        None
    }
}

/// `es` with `value` appended under `name`: added to the existing entry,
/// or as a new entry at the end.
pub open spec fn map_append(
    es: Seq<(Seq<u8>, Seq<Seq<u8>>)>,
    name: Seq<u8>,
    value: Seq<u8>,
) -> Seq<(Seq<u8>, Seq<Seq<u8>>)> {
    let i = find_key(es, name);
    if i >= 0 {
        es.update(i, (es[i].0, es[i].1.push(value)))
    } else {
        es.push((name, seq![value]))
    }
}

/// `es` with the whole value list under `name` replaced (or created).
pub open spec fn map_insert(
    es: Seq<(Seq<u8>, Seq<Seq<u8>>)>,
    name: Seq<u8>,
    values: Seq<Seq<u8>>,
) -> Seq<(Seq<u8>, Seq<Seq<u8>>)> {
    let i = find_key(es, name);
    if i >= 0 {
        es.update(i, (name, values))
    } else {
        es.push((name, values))
    }
}

/// No two entries share a name.
pub open spec fn distinct_keys(es: Seq<(Seq<u8>, Seq<Seq<u8>>)>) -> bool {
    forall|i: int, j: int| 0 <= i < j < es.len() ==> (#[trigger] es[i]).0 != (#[trigger] es[j]).0
}

/// Every stored name equals its own lowercasing.
pub open spec fn keys_lowercase(es: Seq<(Seq<u8>, Seq<Seq<u8>>)>) -> bool {
    forall|i: int| 0 <= i < es.len() ==> (#[trigger] es[i]).0 == lower(es[i].0)
}

/// `find_key` returns `-1` or the first index whose name is `name`.
pub proof fn lemma_find_key_props(es: Seq<(Seq<u8>, Seq<Seq<u8>>)>, name: Seq<u8>)
    ensures
        -1 <= find_key(es, name) < es.len(),
        find_key(es, name) >= 0 ==> es[find_key(es, name)].0 == name,
        forall|k: int|
            0 <= k < es.len() && (#[trigger] es[k]).0 == name ==> find_key(es, name) >= 0
                && find_key(es, name) <= k,
    decreases es.len(),
{
    if es.len() > 0 && es[0].0 != name {
        lemma_find_key_props(es.skip(1), name);
        assert(forall|k: int| 1 <= k < es.len() ==> (#[trigger] es[k]).0 == es.skip(1)[k - 1].0);
    }
}

impl View for HeaderMap {
    type V = Seq<(Seq<u8>, Seq<Seq<u8>>)>;

    closed spec fn view(&self) -> Self::V {
        Seq::new(
            self.entries@.len(),
            |i: int| (self.entries@[i].name@, vecs_view(self.entries@[i].values@)),
        )
    }
}

impl HeaderMap {
    /// The empty map.
    pub fn new() -> (r: HeaderMap)
        ensures
            r@ == Seq::<(Seq<u8>, Seq<Seq<u8>>)>::empty(),
            distinct_keys(r@),
            keys_lowercase(r@),
    {
        let r = HeaderMap { entries: Vec::new() };
        proof {
            assert(r@ =~= Seq::<(Seq<u8>, Seq<Seq<u8>>)>::empty());
        }
        r
    }

    /// Index of the first entry named exactly `name`, or `None`.
    fn find(&self, name: &[u8]) -> (r: Option<usize>)
        ensures
            match r {
                Some(i) => i < self@.len() && find_key(self@, name@) == i as int,
                None => find_key(self@, name@) == -1,
            },
    {
        let mut i: usize = 0;
        while i < self.entries.len()
            invariant
                i <= self@.len() == self.entries@.len(),
                forall|k: int| 0 <= k < i ==> (#[trigger] self@[k]).0 != name@,
            decreases self@.len() - i,
        {
            if bytes_eq(self.entries[i].name.as_slice(), name) {
                proof {
                    lemma_find_key_props(self@, name@);
                    assert(self@[i as int].0 == name@);
                    assert(find_key(self@, name@) == i as int) by {
                        lemma_find_key_first(self@, name@, i as int);
                    }
                }
                return Some(i);
            }
            i = i + 1;
        }
        proof {
            lemma_find_key_props(self@, name@);
        }
        None
    }

    /// Lowercase `name` and append `value` to its value list, creating the
    /// entry at the end of the map when it is absent.
    pub fn append(&mut self, name: &[u8], value: Vec<u8>)
        requires
            distinct_keys(old(self)@),
        ensures
            final(self)@ == map_append(old(self)@, lower(name@), value@),
            distinct_keys(final(self)@),
            keys_lowercase(old(self)@) ==> keys_lowercase(final(self)@),
    {
        let lname = lower_slice(name);
        match self.find(lname.as_slice()) {
            Some(i) => {
                let ghost old_view = self@;
                let mut e = self.entries.remove(i);
                e.values.push(value);
                self.entries.insert(i, e);
                proof {
                    assert(vecs_view(e.values@) =~= old_view[i as int].1.push(value@));
                    assert(self@ =~= map_append(old_view, lower(name@), value@));
                    assert(forall|k: int|
                        0 <= k < self@.len() ==> (#[trigger] self@[k]).0 == old_view[k].0);
                }
            },
            None => {
                let ghost old_view = self@;
                let mut vs: Vec<Vec<u8>> = Vec::new();
                vs.push(value);
                self.entries.push(HeaderEntry { name: lname, values: vs });
                proof {
                    assert(vecs_view(vs@) =~= seq![value@]);
                    assert(self@ =~= map_append(old_view, lower(name@), value@));
                    lemma_find_key_props(old_view, lower(name@));
                    assert(forall|k: int|
                        0 <= k < old_view.len() ==> (#[trigger] old_view[k]).0 != lower(name@));
                    crate::ascii::lemma_lower_idempotent(name@);
                }
            },
        }
    }

    /// Store `values` under `name` verbatim, replacing any entry with
    /// exactly that name.
    pub fn insert(&mut self, name: Vec<u8>, values: Vec<Vec<u8>>)
        requires
            distinct_keys(old(self)@),
        ensures
            final(self)@ == map_insert(old(self)@, name@, vecs_view(values@)),
            distinct_keys(final(self)@),
    {
        match self.find(name.as_slice()) {
            Some(i) => {
                let ghost old_view = self@;
                self.entries.remove(i);
                self.entries.insert(i, HeaderEntry { name, values });
                proof {
                    assert(self@ =~= map_insert(old_view, name@, vecs_view(values@)));
                    lemma_find_key_props(old_view, name@);
                    assert(forall|k: int|
                        0 <= k < self@.len() && k != i ==> (#[trigger] self@[k]).0 == old_view[k].0);
                }
            },
            None => {
                let ghost old_view = self@;
                self.entries.push(HeaderEntry { name, values });
                proof {
                    assert(self@ =~= map_insert(old_view, name@, vecs_view(values@)));
                    lemma_find_key_props(old_view, name@);
                    assert(forall|k: int|
                        0 <= k < old_view.len() ==> (#[trigger] old_view[k]).0 != name@);
                }
            },
        }
    }

    /// Look the value list up under the lowercasing of `name`.
    pub fn get(&self, name: &[u8]) -> (r: Option<&Vec<Vec<u8>>>)
        ensures
            match r {
                Some(v) => map_get(self@, lower(name@)) == Some(vecs_view(v@)),
                None => map_get(self@, lower(name@)) is None,
            },
    {
        let lname = lower_slice(name);
        match self.find(lname.as_slice()) {
            Some(i) => Some(&self.entries[i].values),
            None => None,
        }
    }

    /// The number of distinct names stored.
    pub fn len(&self) -> (r: usize)
        ensures
            r == self@.len(),
    {
        self.entries.len()
    }

    /// The name of the entry at position `i`.
    pub fn name_at(&self, i: usize) -> (r: &Vec<u8>)
        requires
            i < self@.len(),
        ensures
            r@ == self@[i as int].0,
    {
        &self.entries[i].name
    }

    /// The value list of the entry at position `i`.
    pub fn values_at(&self, i: usize) -> (r: &Vec<Vec<u8>>)
        requires
            i < self@.len(),
        ensures
            vecs_view(r@) == self@[i as int].1,
    {
        &self.entries[i].values
    }
}

/// A scan that stops at the first hit agrees with `find_key`.
pub proof fn lemma_find_key_first(es: Seq<(Seq<u8>, Seq<Seq<u8>>)>, name: Seq<u8>, i: int)
    requires
        0 <= i < es.len(),
        es[i].0 == name,
        forall|k: int| 0 <= k < i ==> (#[trigger] es[k]).0 != name,
    ensures
        find_key(es, name) == i,
    decreases i,
{
    if i > 0 {
        assert(forall|k: int| 0 <= k < i - 1 ==> (#[trigger] es.skip(1)[k]).0 == es[k + 1].0);
        lemma_find_key_first(es.skip(1), name, i - 1);
    }
}

} // verus!
