//! The fixed-capacity, insertion-ordered key-value index.
//!
//! Keys are `u32` words; values are arbitrary owned payloads (the database
//! layer stores encoded blobs here). The capacity is fixed at construction:
//! inserting a new key into a full index fails and returns the rejected pair
//! to the caller, while overwriting an existing key always succeeds.

use vstd::prelude::*;

verus! {

/// Whether the association list `s` holds the key `k`.
pub open spec fn kv_contains<T>(s: Seq<(u32, T)>, k: u32) -> bool {
    exists|i: int| 0 <= i < s.len() && s[i].0 == k
}

/// The position of key `k` in `s`; meaningful when `kv_unique(s)` holds.
pub open spec fn kv_index_of<T>(s: Seq<(u32, T)>, k: u32) -> int {
    choose|i: int| 0 <= i < s.len() && s[i].0 == k
}

/// The value bound to `k` in `s`, if any.
pub open spec fn kv_get<T>(s: Seq<(u32, T)>, k: u32) -> Option<T> {
    if kv_contains(s, k) {
        Some(s[kv_index_of(s, k)].1)
    } else {
        None
    }
}

/// `s` with `k` bound to `v`: an existing key keeps its position, a new key
/// goes to the end.
pub open spec fn kv_put<T>(s: Seq<(u32, T)>, k: u32, v: T) -> Seq<(u32, T)> {
    if kv_contains(s, k) {
        s.update(kv_index_of(s, k), (k, v))
    } else {
        s.push((k, v))
    }
}

/// `s` without the entry for `k`; later entries shift down one place.
pub open spec fn kv_remove<T>(s: Seq<(u32, T)>, k: u32) -> Seq<(u32, T)> {
    if kv_contains(s, k) {
        s.remove(kv_index_of(s, k))
    } else {
        s
    }
}

/// No key occurs twice in `s`.
pub open spec fn kv_unique<T>(s: Seq<(u32, T)>) -> bool {
    forall|i: int, j: int| 0 <= i < j < s.len() ==> s[i].0 != s[j].0
}

pub proof fn lemma_kv_index_of<T>(s: Seq<(u32, T)>, k: u32)
    requires
        kv_contains(s, k),
    ensures
        0 <= kv_index_of(s, k) < s.len(),
        s[kv_index_of(s, k)].0 == k,
{
    let i = choose|i: int| 0 <= i < s.len() && s[i].0 == k;
    assert(0 <= i < s.len() && s[i].0 == k);
}

/// With unique keys, `kv_index_of` is the only position holding `k`.
pub proof fn lemma_kv_index_unique<T>(s: Seq<(u32, T)>, k: u32, i: int)
    requires
        kv_unique(s),
        0 <= i < s.len(),
        s[i].0 == k,
    ensures
        kv_contains(s, k),
        kv_index_of(s, k) == i,
{
    assert(kv_contains(s, k));
    lemma_kv_index_of(s, k);
    let j = kv_index_of(s, k);
    if i < j {
        assert(s[i].0 != s[j].0);
    } else if j < i {
        assert(s[j].0 != s[i].0);
    }
}

pub proof fn lemma_kv_put_unique<T>(s: Seq<(u32, T)>, k: u32, v: T)
    requires
        kv_unique(s),
    ensures
        kv_unique(kv_put(s, k, v)),
        kv_get(kv_put(s, k, v), k) == Some(v),
        kv_contains(s, k) ==> kv_put(s, k, v).len() == s.len(),
        !kv_contains(s, k) ==> kv_put(s, k, v).len() == s.len() + 1,
{
    let t = kv_put(s, k, v);
    if kv_contains(s, k) {
        lemma_kv_index_of(s, k);
        let i = kv_index_of(s, k);
        assert(t[i].0 == k);
        assert(kv_unique(t));
        lemma_kv_index_unique(t, k, i);
    } else {
        assert(t[s.len() as int].0 == k);
        assert forall|i: int, j: int| 0 <= i < j < t.len() implies t[i].0 != t[j].0 by {
            if j < s.len() {
                assert(s[i].0 != s[j].0);
            } else {
                // j is the new entry; i names an old one, whose key is not k
                assert(t[i] == s[i]);
                if t[i].0 == k {
                    assert(kv_contains(s, k));
                }
            }
        }
        lemma_kv_index_unique(t, k, s.len() as int);
    }
}

/// Keys other than `k` are untouched by `kv_put`.
pub proof fn lemma_kv_put_frame<T>(s: Seq<(u32, T)>, k: u32, v: T, k2: u32)
    requires
        kv_unique(s),
        k2 != k,
    ensures
        kv_get(kv_put(s, k, v), k2) == kv_get(s, k2),
        kv_contains(kv_put(s, k, v), k2) == kv_contains(s, k2),
{
    let t = kv_put(s, k, v);
    lemma_kv_put_unique(s, k, v);
    if kv_contains(s, k2) {
        lemma_kv_index_of(s, k2);
        let i = kv_index_of(s, k2);
        if kv_contains(s, k) {
            lemma_kv_index_of(s, k);
            assert(i != kv_index_of(s, k));
        }
        assert(t[i] == s[i]);
        lemma_kv_index_unique(t, k2, i);
        lemma_kv_index_unique(s, k2, i);
    } else {
        if kv_contains(t, k2) {
            lemma_kv_index_of(t, k2);
            let i = kv_index_of(t, k2);
            if kv_contains(s, k) {
                assert(t[i] == s[i]);
                assert(kv_contains(s, k2));
            } else {
                if i < s.len() {
                    assert(t[i] == s[i]);
                    assert(kv_contains(s, k2));
                }
            }
        }
    }
}

pub proof fn lemma_kv_remove_unique<T>(s: Seq<(u32, T)>, k: u32)
    requires
        kv_unique(s),
    ensures
        kv_unique(kv_remove(s, k)),
        !kv_contains(kv_remove(s, k), k),
        kv_contains(s, k) ==> kv_remove(s, k).len() == s.len() - 1,
        !kv_contains(s, k) ==> kv_remove(s, k) == s,
{
    let t = kv_remove(s, k);
    if kv_contains(s, k) {
        lemma_kv_index_of(s, k);
        let i = kv_index_of(s, k);
        assert forall|p: int, q: int| 0 <= p < q < t.len() implies t[p].0 != t[q].0 by {
            let p0 = if p < i { p } else { p + 1 };
            let q0 = if q < i { q } else { q + 1 };
            assert(t[p] == s[p0] && t[q] == s[q0]);
        }
        if kv_contains(t, k) {
            let j = choose|j: int| 0 <= j < t.len() && t[j].0 == k;
            let j0 = if j < i { j } else { j + 1 };
            assert(t[j] == s[j0]);
            assert(s[j0].0 == k && j0 != i);
            lemma_kv_index_unique(s, k, j0);
        }
    }
}

/// Keys other than `k` are untouched by `kv_remove`.
pub proof fn lemma_kv_remove_frame<T>(s: Seq<(u32, T)>, k: u32, k2: u32)
    requires
        kv_unique(s),
        k2 != k,
    ensures
        kv_get(kv_remove(s, k), k2) == kv_get(s, k2),
        kv_contains(kv_remove(s, k), k2) == kv_contains(s, k2),
{
    let t = kv_remove(s, k);
    lemma_kv_remove_unique(s, k);
    if kv_contains(s, k) {
        lemma_kv_index_of(s, k);
        let i = kv_index_of(s, k);
        if kv_contains(s, k2) {
            lemma_kv_index_of(s, k2);
            let j = kv_index_of(s, k2);
            assert(j != i);
            let j2 = if j < i { j } else { j - 1 };
            assert(t[j2] == s[j]);
            lemma_kv_index_unique(t, k2, j2);
        } else {
            if kv_contains(t, k2) {
                let j = choose|j: int| 0 <= j < t.len() && t[j].0 == k2;
                let j0 = if j < i { j } else { j + 1 };
                assert(t[j] == s[j0]);
                assert(kv_contains(s, k2));
            }
        }
    }
}

/// An insertion-ordered associative container with a capacity fixed at
/// construction. Its view is the sequence of (key, value) entries in
/// insertion order.
pub struct KvStore<T> {
    entries: Vec<(u32, T)>,
    cap: usize,
}

impl<T> View for KvStore<T> {
    type V = Seq<(u32, T)>;

    closed spec fn view(&self) -> Seq<(u32, T)> {
        self.entries@
    }
}

impl<T> KvStore<T> {
    pub closed spec fn spec_capacity(&self) -> usize {
        self.cap
    }

    /// Well-formed: keys are unique and the entry count respects the capacity.
    pub open spec fn wf(&self) -> bool {
        kv_unique(self@) && self@.len() <= self.spec_capacity()
    }

    pub fn new(capacity: usize) -> (r: Self)
        ensures
            r.wf(),
            r@ == Seq::<(u32, T)>::empty(),
            r.spec_capacity() == capacity,
    {
        KvStore { entries: Vec::new(), cap: capacity }
    }

    pub fn capacity(&self) -> (r: usize)
        ensures
            r == self.spec_capacity(),
    {
        self.cap
    }

    pub fn len(&self) -> (r: usize)
        ensures
            r == self@.len(),
    {
        self.entries.len()
    }

    pub fn is_full(&self) -> (r: bool)
        ensures
            r == (self@.len() >= self.spec_capacity()),
    {
        self.entries.len() >= self.cap
    }

    pub fn clear(&mut self)
        ensures
            final(self).wf(),
            final(self)@ == Seq::<(u32, T)>::empty(),
            final(self).spec_capacity() == old(self).spec_capacity(),
    {
        self.entries.clear();
    }

    /// The position of `k` among the entries, if present.
    fn find(&self, k: u32) -> (r: Option<usize>)
        requires
            kv_unique(self@),
        ensures
            match r {
                Some(i) => kv_contains(self@, k) && i == kv_index_of(self@, k) && i < self@.len(),
                None => !kv_contains(self@, k),
            },
    {
        let n = self.entries.len();
        let mut i: usize = 0;
        while i < n
            invariant
                i <= n,
                n == self@.len(),
                kv_unique(self@),
                forall|j: int| 0 <= j < i ==> self@[j].0 != k,
            decreases n - i,
        {
            if self.entries[i].0 == k {
                proof {
                    lemma_kv_index_unique(self@, k, i as int);
                }
                return Some(i);
            }
            i = i + 1;
        }
        None
    }

    /// Insert or overwrite. An existing key is overwritten in place and its
    /// previous value returned; a new key is appended if there is room, and
    /// rejected (the pair handed back) if the index is full.
    pub fn put(&mut self, k: u32, v: T) -> (r: Result<Option<T>, (u32, T)>)
        requires
            old(self).wf(),
        ensures
            final(self).wf(),
            final(self).spec_capacity() == old(self).spec_capacity(),
            (kv_contains(old(self)@, k) || old(self)@.len() < old(self).spec_capacity()) ==> {
                &&& final(self)@ == kv_put(old(self)@, k, v)
                &&& r == Ok::<Option<T>, (u32, T)>(kv_get(old(self)@, k))
            },
            !(kv_contains(old(self)@, k) || old(self)@.len() < old(self).spec_capacity()) ==> {
                &&& final(self)@ == old(self)@
                &&& r == Err::<Option<T>, (u32, T)>((k, v))
            },
    {
        proof {
            lemma_kv_put_unique(self@, k, v);
        }
        match self.find(k) {
            Some(i) => {
                proof {
                    lemma_kv_index_of(self@, k);
                }
                self.entries.push((k, v));
                let old_pair = self.entries.swap_remove(i);
                proof {
                    assert(self@ =~= kv_put(old(self)@, k, v));
                }
                Ok(Some(old_pair.1))
            }
            None => {
                if self.entries.len() < self.cap {
                    self.entries.push((k, v));
                    Ok(None)
                } else {
                    Err((k, v))
                }
            }
        }
    }

    pub fn get(&self, k: &u32) -> (r: Option<&T>)
        requires
            self.wf(),
        ensures
            match r {
                Some(v) => kv_get(self@, *k) == Some(*v),
                None => kv_get(self@, *k) is None,
            },
    {
        match self.find(*k) {
            Some(i) => Some(&self.entries[i].1),
            None => None,
        }
    }

    /// Borrow the value for `k` mutably; the entry's key and position are
    /// kept, whatever the caller writes through the borrow.
    pub fn get_mut(&mut self, k: &u32) -> (r: Option<&mut T>)
        requires
            old(self).wf(),
        ensures
            final(self).wf(),
            final(self).spec_capacity() == old(self).spec_capacity(),
            !kv_contains(old(self)@, *k) ==> r is None && final(self)@ == old(self)@,
            kv_contains(old(self)@, *k) ==> r is Some && *r.unwrap() == kv_get(
                old(self)@,
                *k,
            ).unwrap() && final(self)@ == kv_put(old(self)@, *k, *final(r.unwrap())),
    {
        proof {
            if kv_contains(self@, *k) {
                assert forall|v: T| kv_unique(kv_put(old(self)@, *k, v)) && kv_put(
                    old(self)@,
                    *k,
                    v,
                ).len() <= old(self).spec_capacity() by {
                    lemma_kv_put_unique(old(self)@, *k, v);
                }
            }
        }
        match self.find(*k) {
            Some(i) => {
                proof {
                    lemma_kv_index_of(self@, *k);
                }
                let entry = &mut self.entries[i];
                Some(&mut entry.1)
            }
            None => None,
        }
    }

    /// Remove the entry for `k`, returning its value; later entries keep
    /// their relative order.
    pub fn remove(&mut self, k: &u32) -> (r: Option<T>)
        requires
            old(self).wf(),
        ensures
            final(self).wf(),
            final(self).spec_capacity() == old(self).spec_capacity(),
            final(self)@ == kv_remove(old(self)@, *k),
            r == kv_get(old(self)@, *k),
    {
        proof {
            lemma_kv_remove_unique(self@, *k);
        }
        match self.find(*k) {
            Some(i) => {
                let pair = self.entries.remove(i);
                Some(pair.1)
            }
            None => None,
        }
    }

    /// The entries, as (key, value) pairs in insertion order.
    pub fn iter(&self) -> (r: &Vec<(u32, T)>)
        ensures
            r@ == self@,
    {
        &self.entries
    }
}

} // verus!
