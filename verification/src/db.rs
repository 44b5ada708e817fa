//! The caching, codec-driven database layer and its flash persistence.
//!
//! A [`Database`] composes a fixed-capacity index of encoded blobs with a
//! small fixed-capacity hot cache of decoded values. The codec is applied at
//! the write/read boundary: `put` encodes before anything is mutated, `get`
//! serves hits from the cache and decodes on a miss (read-through), and
//! `get_uncached` always re-decodes and never perturbs the cache. The cache's
//! eviction policy is deliberately simple: when full, the first entry in the
//! cache's iteration order is evicted, which carries no recency or age
//! meaning. `save_to_flash` and `load_from_flash` move the index through the
//! binary on-flash image: a four-byte little-endian entry count (the all-ones
//! word marks erased flash, "no valid image"), then per entry a key length,
//! the compactly encoded key, a value length and the raw blob, padded with
//! erased bytes to the next word boundary.

use vstd::prelude::*;

use crate::codec::{postcard_bytes, postcard_decode_u32, postcard_decoded, postcard_encode_u32, Codec};
use crate::flash::{spec_erased, spec_written, FlashStorage, PAGE_SIZE};
use crate::kv::{
    kv_contains, kv_get, kv_index_of, kv_put, kv_remove, kv_unique, lemma_kv_index_of,
    lemma_kv_index_unique, lemma_kv_put_frame, lemma_kv_put_unique, lemma_kv_remove_frame,
    lemma_kv_remove_unique, KvStore,
};

verus! {

/// Why a flash save or load failed.
#[derive(Debug, Clone, Copy, PartialEq, Eq, Structural)]
pub enum FlashError {
    /// A key could not be encoded for the image.
    SerializationError,
    /// A stored key could not be decoded from the image.
    DeserializationError,
    /// The image does not fit the staging buffer, or a record's length field
    /// reads past it, or a loaded blob exceeds the blob bound.
    BufferTooSmall,
    /// The flash driver rejected the erase of the image's span.
    EraseError,
    /// The flash driver rejected the write of the staged image.
    WriteError,
    /// The flash driver rejected the read of the image window.
    ReadError,
    /// The image holds more distinct keys than the index's capacity.
    DatabaseFull,
}

/// The byte-level contents of an index: each entry's key with its blob bytes.
pub open spec fn blobs_bytes(s: Seq<(u32, Vec<u8>)>) -> Seq<(u32, Seq<u8>)> {
    Seq::new(s.len(), |i: int| (s[i].0, s[i].1@))
}

/// The hot cache after inserting `(k, v)` under the eviction policy: if the
/// cache is at capacity, the first entry in iteration order is evicted first;
/// an entry for `k` is then overwritten in place, and otherwise `(k, v)` is
/// appended if there is room.
pub open spec fn spec_cache_put<V>(c: Seq<(u32, V)>, k: u32, v: V, cap: int) -> Seq<(u32, V)> {
    let c1 = if c.len() >= cap && cap > 0 {
        c.drop_first()
    } else {
        c
    };
    if kv_contains(c1, k) || c1.len() < cap {
        kv_put(c1, k, v)
    } else {
        c1
    }
}

proof fn lemma_cache_put<V>(c: Seq<(u32, V)>, k: u32, v: V, cap: int)
    requires
        kv_unique(c),
        c.len() <= cap,
    ensures
        kv_unique(spec_cache_put(c, k, v, cap)),
        spec_cache_put(c, k, v, cap).len() <= cap,
        forall|i: int|
            0 <= i < spec_cache_put(c, k, v, cap).len() ==> {
                let p = #[trigger] spec_cache_put(c, k, v, cap)[i];
                (p.0 == k && p.1 == v) || c.contains(p)
            },
{
    let c1 = if c.len() >= cap && cap > 0 {
        c.drop_first()
    } else {
        c
    };
    assert(kv_unique(c1)) by {
        if c.len() >= cap && cap > 0 {
            assert(forall|i: int, j: int|
                0 <= i < j < c1.len() ==> c1[i] == c[i + 1] && c1[j] == c[j + 1]);
        }
    }
    assert(forall|i: int| 0 <= i < c1.len() ==> c.contains(#[trigger] c1[i])) by {
        if c.len() >= cap && cap > 0 {
            assert(forall|i: int| 0 <= i < c1.len() ==> c1[i] == c[i + 1]);
        }
    }
    let r = spec_cache_put(c, k, v, cap);
    if kv_contains(c1, k) || c1.len() < cap {
        lemma_kv_put_unique(c1, k, v);
        if kv_contains(c1, k) {
            lemma_kv_index_of(c1, k);
        }
    }
}

/// A get/put/delete store of typed values, backed by encoded blobs in a
/// fixed-capacity index and accelerated by a bounded hot cache. `N` (the
/// index capacity), `B` (the blob bound) and the cache capacity are fixed at
/// construction.
pub struct Database<V, C> where C: Codec<V> {
    blobs: KvStore<Vec<u8>>,
    cache: Vec<(u32, V)>,
    cache_cap: usize,
    blob_cap: usize,
    _codec: core::marker::PhantomData<C>,
}

impl<V, C> View for Database<V, C> where C: Codec<V> {
    type V = Seq<(u32, Seq<u8>)>;

    /// The persistent contents: each key with its encoded blob, in insertion
    /// order.
    closed spec fn view(&self) -> Seq<(u32, Seq<u8>)> {
        blobs_bytes(self.blobs@)
    }
}

impl<V: Copy, C: Codec<V>> Database<V, C> {
    /// The index capacity `N`.
    pub closed spec fn spec_capacity(&self) -> usize {
        self.blobs.spec_capacity()
    }

    /// The bound `B` on one encoded blob.
    pub closed spec fn spec_blob_capacity(&self) -> usize {
        self.blob_cap
    }

    /// The hot cache's capacity.
    pub closed spec fn spec_cache_capacity(&self) -> usize {
        self.cache_cap
    }

    /// The hot cache's contents, in its iteration order.
    pub closed spec fn spec_cache(&self) -> Seq<(u32, V)> {
        self.cache@
    }

    /// Well-formed: both structures respect their capacities and hold unique
    /// keys, every blob respects the blob bound, and the cache is coherent —
    /// each cached value is exactly what its key's blob decodes to.
    pub open spec fn wf(&self) -> bool {
        &&& kv_unique(self@)
        &&& self@.len() <= self.spec_capacity()
        &&& self.spec_capacity() <= u32::MAX
        &&& kv_unique(self.spec_cache())
        &&& self.spec_cache().len() <= self.spec_cache_capacity()
        &&& forall|i: int|
            0 <= i < self@.len() ==> (#[trigger] self@[i]).1.len() <= self.spec_blob_capacity()
        &&& forall|i: int|
            0 <= i < self.spec_cache().len() ==> {
                let p = #[trigger] self.spec_cache()[i];
                kv_contains(self@, p.0) && C::dec(kv_get(self@, p.0).unwrap()) == Some(p.1)
            }
    }

    /// What looking `key` up in the persistent contents yields: absent keys
    /// read as `Ok(None)`, a present key's blob is decoded, and a blob that
    /// does not decode is a hard error.
    pub open spec fn spec_lookup(&self, key: u32) -> Result<Option<V>, ()> {
        if !kv_contains(self@, key) {
            Ok(None)
        } else {
            match C::dec(kv_get(self@, key).unwrap()) {
                Some(v) => Ok(Some(v)),
                None => Err(()),
            }
        }
    }

    proof fn lemma_view_index(&self)
        ensures
            self@.len() == self.blobs@.len(),
            forall|i: int|
                0 <= i < self.blobs@.len() ==> #[trigger] self@[i]
                    == (self.blobs@[i].0, self.blobs@[i].1@),
            kv_unique(self@) <==> kv_unique(self.blobs@),
            forall|k: u32| kv_contains(self@, k) == kv_contains(self.blobs@, k),
    {
        assert forall|k: u32| kv_contains(self@, k) == kv_contains(self.blobs@, k) by {
            if kv_contains(self@, k) {
                let i = choose|i: int| 0 <= i < self@.len() && self@[i].0 == k;
                assert(self.blobs@[i].0 == k);
            }
            if kv_contains(self.blobs@, k) {
                let i = choose|i: int| 0 <= i < self.blobs@.len() && self.blobs@[i].0 == k;
                assert(self@[i].0 == k);
            }
        }
        if kv_unique(self@) {
            assert forall|i: int, j: int|
                0 <= i < j < self.blobs@.len() implies self.blobs@[i].0 != self.blobs@[j].0 by {
                assert(self@[i].0 == self.blobs@[i].0 && self@[j].0 == self.blobs@[j].0);
            }
        }
    }

    /// With unique keys, the byte-level view of a lookup agrees with the
    /// `Vec`-level one, position for position.
    proof fn lemma_view_get(&self, k: u32)
        requires
            kv_unique(self@),
            kv_contains(self@, k),
        ensures
            kv_contains(self.blobs@, k),
            kv_index_of(self.blobs@, k) == kv_index_of(self@, k),
            kv_get(self@, k) == Some(kv_get(self.blobs@, k).unwrap()@),
    {
        self.lemma_view_index();
        lemma_kv_index_of(self@, k);
        let i = kv_index_of(self@, k);
        assert(self.blobs@[i].0 == k);
        lemma_kv_index_unique(self.blobs@, k, i);
        lemma_kv_index_unique(self@, k, i);
    }

    /// An empty database whose index holds at most `capacity` entries, each
    /// blob at most `blob_capacity` bytes, with a hot cache of
    /// `cache_capacity` decoded entries.
    pub fn new(capacity: usize, blob_capacity: usize, cache_capacity: usize) -> (r: Self)
        requires
            capacity <= u32::MAX,
        ensures
            r.wf(),
            r@ == Seq::<(u32, Seq<u8>)>::empty(),
            r.spec_cache() == Seq::<(u32, V)>::empty(),
            r.spec_capacity() == capacity,
            r.spec_blob_capacity() == blob_capacity,
            r.spec_cache_capacity() == cache_capacity,
    {
        let r = Database {
            blobs: KvStore::new(capacity),
            cache: Vec::new(),
            cache_cap: cache_capacity,
            blob_cap: blob_capacity,
            _codec: core::marker::PhantomData,
        };
        proof {
            assert(r@ =~= Seq::<(u32, Seq<u8>)>::empty());
        }
        r
    }

    /// The number of entries in the index.
    pub fn len(&self) -> (r: usize)
        ensures
            r == self@.len(),
    {
        self.blobs.len()
    }

    /// The index capacity `N`.
    pub fn capacity(&self) -> (r: usize)
        ensures
            r == self.spec_capacity(),
    {
        self.blobs.capacity()
    }

    /// The position of `key` in the hot cache, if cached.
    fn cache_find(&self, key: u32) -> (r: Option<usize>)
        requires
            kv_unique(self.spec_cache()),
        ensures
            match r {
                Some(i) => kv_contains(self.spec_cache(), key) && i == kv_index_of(
                    self.spec_cache(),
                    key,
                ) && i < self.spec_cache().len(),
                None => !kv_contains(self.spec_cache(), key),
            },
    {
        let n = self.cache.len();
        let mut i: usize = 0;
        while i < n
            invariant
                i <= n,
                n == self.spec_cache().len(),
                kv_unique(self.spec_cache()),
                forall|j: int| 0 <= j < i ==> self.spec_cache()[j].0 != key,
            decreases n - i,
        {
            if self.cache[i].0 == key {
                proof {
                    lemma_kv_index_unique(self.spec_cache(), key, i as int);
                }
                return Some(i);
            }
            i = i + 1;
        }
        None
    }

    /// Insert `(key, val)` into the hot cache under the eviction policy; the
    /// persistent contents are untouched.
    fn cache_insert(&mut self, key: u32, val: V)
        requires
            kv_unique(old(self).spec_cache()),
            old(self).spec_cache().len() <= old(self).spec_cache_capacity(),
        ensures
            final(self)@ == old(self)@,
            final(self).blobs == old(self).blobs,
            final(self).spec_capacity() == old(self).spec_capacity(),
            final(self).spec_blob_capacity() == old(self).spec_blob_capacity(),
            final(self).spec_cache_capacity() == old(self).spec_cache_capacity(),
            final(self).spec_cache() == spec_cache_put(
                old(self).spec_cache(),
                key,
                val,
                old(self).spec_cache_capacity() as int,
            ),
    {
        let ghost c0 = self.spec_cache();
        let ghost cap = self.cache_cap as int;
        if self.cache.len() >= self.cache_cap && self.cache_cap > 0 {
            self.cache.remove(0);
            proof {
                assert(self.spec_cache() =~= c0.drop_first());
            }
        }
        let ghost c1 = self.spec_cache();
        proof {
            assert(kv_unique(c1)) by {
                if c0.len() >= cap && cap > 0 {
                    assert(forall|i: int, j: int|
                        0 <= i < j < c1.len() ==> c1[i] == c0[i + 1] && c1[j] == c0[j + 1]);
                }
            }
        }
        match self.cache_find(key) {
            Some(i) => {
                proof {
                    lemma_kv_index_of(c1, key);
                }
                self.cache.push((key, val));
                let _old = self.cache.swap_remove(i);
                proof {
                    assert(self.spec_cache() =~= kv_put(c1, key, val));
                }
            }
            None => {
                if self.cache.len() < self.cache_cap {
                    self.cache.push((key, val));
                    proof {
                        assert(self.spec_cache() =~= kv_put(c1, key, val));
                    }
                }
            }
        }
    }

    /// Encode `val` and bind it to `key`: the blob replaces any previous one
    /// for `key`, a new key is appended if the index has room, and the hot
    /// cache picks the pair up under the eviction policy. Encoding and index
    /// insertion happen before any cache mutation, so a failure leaves
    /// everything unchanged.
    pub fn put(&mut self, key: u32, val: V) -> (r: Result<(), ()>)
        requires
            old(self).wf(),
        ensures
            final(self).wf(),
            final(self).spec_capacity() == old(self).spec_capacity(),
            final(self).spec_blob_capacity() == old(self).spec_blob_capacity(),
            final(self).spec_cache_capacity() == old(self).spec_cache_capacity(),
            // success exactly when the value encodes into the blob bound and
            // the key is present (overwrite) or there is room (insert)
            r is Ok <==> C::serializable(val) && C::enc(val).len() <= old(self).spec_blob_capacity()
                && (kv_contains(old(self)@, key) || old(self)@.len() < old(self).spec_capacity()),
            r is Ok ==> final(self)@ == kv_put(old(self)@, key, C::enc(val)),
            // round trip: a successful put makes `key` read back as `val`
            r is Ok ==> final(self).spec_lookup(key) == Ok::<Option<V>, ()>(Some(val)),
            // overwriting never consumes capacity
            r is Ok ==> final(self)@.len() == if kv_contains(old(self)@, key) {
                old(self)@.len()
            } else {
                old(self)@.len() + 1
            },
            r is Ok ==> final(self).spec_cache() == spec_cache_put(
                old(self).spec_cache(),
                key,
                val,
                old(self).spec_cache_capacity() as int,
            ),
            // a failed put mutates nothing
            r is Err ==> final(self)@ == old(self)@ && final(self).spec_cache() == old(
                self,
            ).spec_cache(),
    {
        let blob = match C::encode(&val, self.blob_cap) {
            Ok(b) => b,
            Err(_) => {
                return Err(());
            }
        };
        proof {
            self.lemma_view_index();
        }
        let ghost pre = *self;
        match self.blobs.put(key, blob) {
            Ok(_prev) => (),
            Err(_) => {
                proof {
                    pre.lemma_view_index();
                }
                return Err(());
            }
        }
        proof {
            pre.lemma_view_index();
            self.lemma_view_index();
            // the byte-level view of the updated index is kv_put at byte level
            if kv_contains(pre.blobs@, key) {
                pre.lemma_view_get(key);
                lemma_kv_index_of(pre.blobs@, key);
                assert(self@ =~= kv_put(pre@, key, C::enc(val)));
            } else {
                assert(self@ =~= kv_put(pre@, key, C::enc(val)));
            }
            lemma_kv_put_unique(pre@, key, C::enc(val));
            lemma_kv_index_of(self@, key);
        }
        let ghost mid = *self;
        self.cache_insert(key, val);
        proof {
            lemma_cache_put(mid.spec_cache(), key, val, mid.spec_cache_capacity() as int);
            // coherence: surviving cache entries still match their blobs
            assert forall|i: int| 0 <= i < self.spec_cache().len() implies {
                let p = #[trigger] self.spec_cache()[i];
                kv_contains(self@, p.0) && C::dec(kv_get(self@, p.0).unwrap()) == Some(p.1)
            } by {
                let p = self.spec_cache()[i];
                if p.0 == key {
                    lemma_kv_put_unique(pre@, key, C::enc(val));
                    assert(kv_get(self@, key) == Some(C::enc(val)));
                } else {
                    assert(pre.spec_cache().contains(p));
                    let j = choose|j: int|
                        0 <= j < pre.spec_cache().len() && pre.spec_cache()[j] == p;
                    lemma_kv_put_frame(pre@, key, C::enc(val), p.0);
                }
            }
            // every blob still respects the blob bound
            assert forall|i: int| 0 <= i < self@.len() implies (#[trigger] self@[i]).1.len()
                <= self.spec_blob_capacity() by {
                if kv_contains(pre@, key) {
                    lemma_kv_index_of(pre@, key);
                }
            }
        }
        Ok(())
    }

    /// Look `key` up: a cache hit is served directly, a miss decodes the
    /// blob, populates the cache (read-through, applying the eviction
    /// policy), and returns the decoded value; an absent key is `Ok(None)`.
    pub fn get(&mut self, key: &u32) -> (r: Result<Option<V>, ()>)
        requires
            old(self).wf(),
        ensures
            final(self).wf(),
            final(self).spec_capacity() == old(self).spec_capacity(),
            final(self).spec_blob_capacity() == old(self).spec_blob_capacity(),
            final(self).spec_cache_capacity() == old(self).spec_cache_capacity(),
            // the result is exactly what the persistent contents hold
            r == old(self).spec_lookup(*key),
            final(self)@ == old(self)@,
            final(self).spec_cache() == if kv_contains(old(self).spec_cache(), *key) {
                old(self).spec_cache()
            } else {
                match old(self).spec_lookup(*key) {
                    Ok(Some(v)) => spec_cache_put(
                        old(self).spec_cache(),
                        *key,
                        v,
                        old(self).spec_cache_capacity() as int,
                    ),
                    _ => old(self).spec_cache(),
                }
            },
    {
        match self.cache_find(*key) {
            Some(i) => {
                let v = self.cache[i].1;
                proof {
                    lemma_kv_index_of(self.spec_cache(), *key);
                    lemma_kv_index_of(self@, *key);
                }
                return Ok(Some(v));
            }
            None => (),
        }
        proof {
            self.lemma_view_index();
            if kv_contains(self@, *key) {
                self.lemma_view_get(*key);
            }
        }
        let blob = match self.blobs.get(key) {
            Some(b) => b,
            None => {
                return Ok(None);
            }
        };
        let val = match C::decode(blob.as_slice()) {
            Ok(v) => v,
            Err(_) => {
                return Err(());
            }
        };
        proof {
            lemma_kv_index_of(self@, *key);
        }
        let ghost mid = *self;
        self.cache_insert(*key, val);
        proof {
            lemma_cache_put(mid.spec_cache(), *key, val, mid.spec_cache_capacity() as int);
            assert forall|i: int| 0 <= i < self.spec_cache().len() implies {
                let p = #[trigger] self.spec_cache()[i];
                kv_contains(self@, p.0) && C::dec(kv_get(self@, p.0).unwrap()) == Some(p.1)
            } by {
                let p = self.spec_cache()[i];
                if !(p.0 == *key && p.1 == val) {
                    assert(mid.spec_cache().contains(p));
                }
            }
        }
        Ok(Some(val))
    }

    /// Look `key` up without touching the cache: always re-decodes from the
    /// index. Returns the same decoded value as `get` would.
    pub fn get_uncached(&self, key: &u32) -> (r: Result<Option<V>, ()>)
        requires
            self.wf(),
        ensures
            r == self.spec_lookup(*key),
    {
        proof {
            self.lemma_view_index();
            if kv_contains(self@, *key) {
                self.lemma_view_get(*key);
            }
        }
        let blob = match self.blobs.get(key) {
            Some(b) => b,
            None => {
                return Ok(None);
            }
        };
        match C::decode(blob.as_slice()) {
            Ok(v) => Ok(Some(v)),
            Err(_) => Err(()),
        }
    }

    /// Remove `key` from the index and the cache; reports whether it was
    /// present. Afterwards `key` reads as not found; an absent key mutates
    /// nothing.
    pub fn delete(&mut self, key: &u32) -> (r: bool)
        requires
            old(self).wf(),
        ensures
            final(self).wf(),
            final(self).spec_capacity() == old(self).spec_capacity(),
            final(self).spec_blob_capacity() == old(self).spec_blob_capacity(),
            final(self).spec_cache_capacity() == old(self).spec_cache_capacity(),
            r == kv_contains(old(self)@, *key),
            final(self)@ == kv_remove(old(self)@, *key),
            final(self).spec_cache() == kv_remove(old(self).spec_cache(), *key),
            final(self).spec_lookup(*key) == Ok::<Option<V>, ()>(None),
    {
        proof {
            self.lemma_view_index();
            if kv_contains(self@, *key) {
                self.lemma_view_get(*key);
                lemma_kv_index_of(self.blobs@, *key);
            }
            lemma_kv_remove_unique(self@, *key);
        }
        let ghost pre = *self;
        let removed = self.blobs.remove(key).is_some();
        proof {
            pre.lemma_view_index();
            self.lemma_view_index();
            if kv_contains(pre@, *key) {
                assert(self@ =~= kv_remove(pre@, *key));
            } else {
                assert(self@ =~= pre@);
            }
        }
        match self.cache_find(*key) {
            Some(i) => {
                self.cache.remove(i);
                proof {
                    lemma_kv_index_of(pre.spec_cache(), *key);
                    assert(self.spec_cache() =~= kv_remove(pre.spec_cache(), *key));
                }
            }
            None => {
                proof {
                    assert(self.spec_cache() =~= kv_remove(pre.spec_cache(), *key));
                }
            }
        }
        proof {
            lemma_kv_remove_unique(pre.spec_cache(), *key);
            assert forall|i: int| 0 <= i < self.spec_cache().len() implies {
                let p = #[trigger] self.spec_cache()[i];
                kv_contains(self@, p.0) && C::dec(kv_get(self@, p.0).unwrap()) == Some(p.1)
            } by {
                let p = self.spec_cache()[i];
                let c0 = pre.spec_cache();
                if kv_contains(c0, *key) {
                    let di = kv_index_of(c0, *key);
                    lemma_kv_index_of(c0, *key);
                    let j = if i < di {
                        i
                    } else {
                        i + 1
                    };
                    assert(p == c0[j]);
                } else {
                    assert(p == c0[i]);
                }
                assert(p.0 != *key);
                lemma_kv_remove_frame(pre@, *key, p.0);
            }
            assert forall|i: int| 0 <= i < self@.len() implies (#[trigger] self@[i]).1.len()
                <= self.spec_blob_capacity() by {
                let pre_s = pre@;
                if kv_contains(pre_s, *key) {
                    let di = kv_index_of(pre_s, *key);
                    lemma_kv_index_of(pre_s, *key);
                    let j = if i < di {
                        i
                    } else {
                        i + 1
                    };
                    assert(self@[i] == pre_s[j]);
                }
            }
        }
        removed
    }
}

/// Greatest size of one staged on-flash image, in bytes.
pub const MAX_IMAGE_SIZE: usize = 8192;

/// The erased-flash header word: all ones, "no valid image".
pub const ERASED_HEADER: u32 = 0xFFFF_FFFF;

/// The four little-endian bytes of `n`.
pub open spec fn le32(n: u32) -> Seq<u8> {
    seq![(n & 0xFF) as u8, ((n >> 8) & 0xFF) as u8, ((n >> 16) & 0xFF) as u8, ((n >> 24) & 0xFF) as u8]
}

/// The `u32` read from four little-endian bytes.
pub open spec fn le_val(b0: u8, b1: u8, b2: u8, b3: u8) -> u32 {
    (b0 as u32) | ((b1 as u32) << 8) | ((b2 as u32) << 16) | ((b3 as u32) << 24)
}

/// Reading four little-endian bytes inverts writing them.
pub proof fn lemma_le32_roundtrip(n: u32)
    ensures
        le_val(le32(n)[0], le32(n)[1], le32(n)[2], le32(n)[3]) == n,
{
    assert(le32(n)[0] == (n & 0xFF) as u8);
    assert(le32(n)[1] == ((n >> 8) & 0xFF) as u8);
    assert(le32(n)[2] == ((n >> 16) & 0xFF) as u8);
    assert(le32(n)[3] == ((n >> 24) & 0xFF) as u8);
    assert((((n & 0xFF) as u8) as u32) | ((((n >> 8) & 0xFF) as u8) as u32) << 8
        | ((((n >> 16) & 0xFF) as u8) as u32) << 16 | ((((n >> 24) & 0xFF) as u8) as u32) << 24
        == n) by (bit_vector);
}

/// One image record: key length, compactly encoded key, value length, blob.
pub open spec fn record_bytes(k: u32, blob: Seq<u8>) -> Seq<u8> {
    le32(postcard_bytes(k).len() as u32) + postcard_bytes(k) + le32(blob.len() as u32) + blob
}

/// The concatenated records of `entries`, in order.
pub open spec fn records_bytes(entries: Seq<(u32, Seq<u8>)>) -> Seq<u8>
    decreases entries.len(),
{
    if entries.len() == 0 {
        Seq::empty()
    } else {
        record_bytes(entries[0].0, entries[0].1) + records_bytes(entries.drop_first())
    }
}

/// The unpadded on-flash image of an index: entry count, then the records.
pub open spec fn image_bytes(entries: Seq<(u32, Seq<u8>)>) -> Seq<u8> {
    le32(entries.len() as u32) + records_bytes(entries)
}

/// `s` padded with erased bytes to the next word boundary.
pub open spec fn pad4(s: Seq<u8>) -> Seq<u8> {
    s + Seq::new((((4 - s.len() as int % 4) % 4) as nat), |i: int| 0xFFu8)
}

/// `n` bytes rounded up to whole erase pages.
pub open spec fn page_span(n: int) -> int {
    ((n + PAGE_SIZE - 1) / (PAGE_SIZE as int)) * (PAGE_SIZE as int)
}

/// The flash contents after an image `img` is saved at `off`: the image
/// itself, erased bytes up to the end of the erased page span, and the rest
/// of the region untouched.
pub open spec fn spec_saved(f: Seq<u8>, off: int, img: Seq<u8>) -> Seq<u8> {
    Seq::new(
        f.len(),
        |i: int|
            if off <= i < off + img.len() {
                img[i - off]
            } else if off + img.len() <= i < off + page_span(img.len() as int) {
                0xFFu8
            } else {
                f[i]
            },
    )
}

proof fn lemma_records_push(s: Seq<(u32, Seq<u8>)>, e: (u32, Seq<u8>))
    ensures
        records_bytes(s.push(e)) == records_bytes(s) + record_bytes(e.0, e.1),
    decreases s.len(),
{
    if s.len() == 0 {
        let p = s.push(e);
        assert(p[0] == e);
        assert(p.drop_first() =~= Seq::<(u32, Seq<u8>)>::empty());
        assert(records_bytes(p) == record_bytes(e.0, e.1) + records_bytes(p.drop_first()));
        assert(records_bytes(p) =~= records_bytes(s) + record_bytes(e.0, e.1));
    } else {
        let p = s.push(e);
        assert(p[0] == s[0]);
        assert(p.drop_first() =~= s.drop_first().push(e));
        lemma_records_push(s.drop_first(), e);
        assert(records_bytes(p) == record_bytes(s[0].0, s[0].1) + records_bytes(p.drop_first()));
        assert(records_bytes(p) =~= records_bytes(s) + record_bytes(e.0, e.1));
    }
}

/// The records of a prefix are a prefix of the records.
proof fn lemma_records_split(s: Seq<(u32, Seq<u8>)>, i: int)
    requires
        0 <= i <= s.len(),
    ensures
        records_bytes(s) == records_bytes(s.subrange(0, i)) + records_bytes(s.subrange(i, s.len() as int)),
    decreases i,
{
    if i == 0 {
        assert(s.subrange(0, 0) =~= Seq::<(u32, Seq<u8>)>::empty());
        assert(s.subrange(0, s.len() as int) =~= s);
        assert(records_bytes(s) =~= records_bytes(s.subrange(0, 0)) + records_bytes(s.subrange(0, s.len() as int)));
    } else {
        let t = s.drop_first();
        lemma_records_split(t, i - 1);
        assert(s.subrange(0, i).drop_first() =~= t.subrange(0, i - 1));
        assert(s.subrange(i, s.len() as int) =~= t.subrange(i - 1, t.len() as int));
        assert(s.subrange(0, i).len() != 0 && s.subrange(0, i)[0] == s[0]);
        assert(records_bytes(s) =~= records_bytes(s.subrange(0, i)) + records_bytes(s.subrange(i, s.len() as int)));
    }
}

proof fn lemma_and_ff(b: u8)
    ensures
        (0xFFu8 & b) == b,
{
    assert((0xFFu8 & b) == b) by (bit_vector);
}

/// Append the four little-endian bytes of `n`.
fn le32_push(buf: &mut Vec<u8>, n: u32)
    ensures
        final(buf)@ == old(buf)@ + le32(n),
{
    buf.push((n & 0xFF) as u8);
    buf.push(((n >> 8) & 0xFF) as u8);
    buf.push(((n >> 16) & 0xFF) as u8);
    buf.push(((n >> 24) & 0xFF) as u8);
    proof {
        assert(buf@ =~= old(buf)@ + le32(n));
    }
}

/// Read a `u32` from four little-endian bytes at `pos`.
fn le32_read(buf: &Vec<u8>, pos: usize) -> (r: u32)
    requires
        pos + 4 <= buf@.len(),
    ensures
        r == le_val(buf@[pos as int], buf@[pos as int + 1], buf@[pos as int + 2], buf@[pos as int + 3]),
{
    let n: usize = buf.len();
    let b0 = buf[pos] as u32;
    let b1 = buf[pos + 1] as u32;
    let b2 = buf[pos + 2] as u32;
    let b3 = buf[pos + 3] as u32;
    b0 | (b1 << 8u32) | (b2 << 16u32) | (b3 << 24u32)
}

/// Append all of `src` to `buf`.
fn append_bytes(buf: &mut Vec<u8>, src: &[u8])
    ensures
        final(buf)@ == old(buf)@ + src@,
{
    let n = src.len();
    let mut i: usize = 0;
    while i < n
        invariant
            i <= n,
            n == src@.len(),
            buf@ == old(buf)@ + src@.subrange(0, i as int),
        decreases n - i,
    {
        buf.push(src[i]);
        proof {
            assert(buf@ =~= old(buf)@ + src@.subrange(0, i + 1));
        }
        i = i + 1;
    }
    proof {
        assert(src@.subrange(0, n as int) =~= src@);
    }
}


/// Padding facts: the padded image keeps its bytes, is word-aligned, and
/// grows by at most three erased bytes.
proof fn lemma_pad4(s: Seq<u8>)
    ensures
        pad4(s).len() == s.len() + ((4 - s.len() as int % 4) % 4),
        pad4(s).len() as int % 4 == 0,
        s.len() <= pad4(s).len() < s.len() + 4,
        pad4(s).subrange(0, s.len() as int) == s,
        forall|i: int| s.len() <= i < pad4(s).len() ==> pad4(s)[i] == 0xFFu8,
{
    let n = s.len() as int;
    let p = (4 - n % 4) % 4;
    assert(0 <= n % 4 < 4);
    assert(0 <= p < 4);
    assert((n + p) % 4 == 0) by (nonlinear_arith)
        requires
            p == (4 - n % 4) % 4,
            n >= 0;
    assert(pad4(s).subrange(0, s.len() as int) =~= s);
}

proof fn lemma_pad4_fits(s: Seq<u8>)
    requires
        s.len() <= MAX_IMAGE_SIZE,
    ensures
        pad4(s).len() <= MAX_IMAGE_SIZE,
{
    lemma_pad4(s);
    let m = pad4(s).len() as int;
    assert(m <= MAX_IMAGE_SIZE) by (nonlinear_arith)
        requires
            m % 4 == 0,
            m < s.len() + 4,
            s.len() <= MAX_IMAGE_SIZE,
            MAX_IMAGE_SIZE as int % 4 == 0;
}

impl<V: Copy, C: Codec<V>> Database<V, C> {
    /// Stage the whole index as an on-flash image: header, one record per
    /// entry in insertion order, padding to the next word boundary. Erase
    /// exactly the pages the padded image spans at `flash_offset`, then write
    /// it. Nothing touches flash unless the image fits the staging buffer, so
    /// any failure leaves the region as it was.
    pub fn save_to_flash(&self, flash: &mut FlashStorage, flash_offset: u32) -> (r: Result<
        (),
        FlashError,
    >)
        requires
            self.wf(),
            old(flash).wf(),
        ensures
            final(flash).wf(),
            final(flash)@.len() == old(flash)@.len(),
            ({
                let img = pad4(image_bytes(self@));
                let span = page_span(img.len() as int);
                &&& (r is Ok <==> img.len() <= MAX_IMAGE_SIZE && flash_offset as int % (
                    PAGE_SIZE as int) == 0 && flash_offset + span <= old(flash)@.len())
                &&& (r is Ok ==> final(flash)@ == spec_saved(old(flash)@, flash_offset as int, img))
                &&& (r is Err ==> final(flash)@ == old(flash)@)
                &&& (r == Err::<(), FlashError>(FlashError::BufferTooSmall) <==> img.len()
                    > MAX_IMAGE_SIZE)
                &&& (r == Err::<(), FlashError>(FlashError::EraseError) <==> img.len()
                    <= MAX_IMAGE_SIZE && !(flash_offset as int % (PAGE_SIZE as int) == 0
                    && flash_offset + span <= old(flash)@.len()))
            }),
            // round trip: a load from the same offset, with the same
            // capacities, parses the saved image back into exactly this index
            r is Ok ==> ({
                let win = final(flash)@.subrange(
                    flash_offset as int,
                    flash_offset + spec_window(final(flash)@.len() as int, flash_offset as int),
                );
                &&& self@.len() < ERASED_HEADER
                &&& le_val(win[0], win[1], win[2], win[3]) == self@.len() as u32
                &&& parse_records(
                    win,
                    4,
                    self@.len() as nat,
                    Seq::empty(),
                    self.spec_capacity() as nat,
                    self.spec_blob_capacity() as nat,
                ) == (None::<FlashError>, self@, 4 + records_bytes(self@).len() as int)
            }),
    {
        let mut buf: Vec<u8> = Vec::new();
        let count = self.blobs.len();
        proof {
            self.lemma_view_index();
        }
        le32_push(&mut buf, count as u32);
        proof {
            assert(buf@ =~= le32(self@.len() as u32) + records_bytes(self@.subrange(0, 0)));
        }
        let entries = self.blobs.iter();
        let n = entries.len();
        let mut i: usize = 0;
        while i < n
            invariant
                self.wf(),
                flash.wf(),
                flash@ == old(flash)@,
                i <= n,
                n == self.blobs@.len(),
                n == self@.len(),
                entries@ == self.blobs@,
                buf@ == le32(self@.len() as u32) + records_bytes(self@.subrange(0, i as int)),
                buf@.len() <= MAX_IMAGE_SIZE,
                forall|j: int|
                    0 <= j < i ==> postcard_decoded(postcard_bytes((#[trigger] self@[j]).0))
                        == Some(self@[j].0),
                forall|j: int|
                    0 <= j < i ==> postcard_bytes((#[trigger] self@[j]).0).len() <= 5,
                forall|j: int| 0 <= j < i ==> (#[trigger] self@[j]).1.len() <= MAX_IMAGE_SIZE,
            decreases n - i,
        {
            let k = entries[i].0;
            let blob: &Vec<u8> = &entries[i].1;
            proof {
                self.lemma_view_index();
                assert(self@[i as int] == (k, blob@));
            }
            let kb = postcard_encode_u32(k);
            if blob.len() > MAX_IMAGE_SIZE || buf.len() + 4 + kb.len() + 4 > MAX_IMAGE_SIZE
                - blob.len() {
                proof {
                    // the image holds this record too, so it does not fit either
                    lemma_records_push(self@.subrange(0, i as int), self@[i as int]);
                    assert(self@.subrange(0, i as int).push(self@[i as int]) =~= self@.subrange(
                        0,
                        i + 1,
                    ));
                    lemma_records_split(self@, i + 1);
                    assert(records_bytes(self@).len() >= records_bytes(
                        self@.subrange(0, i + 1),
                    ).len());
                    lemma_pad4(image_bytes(self@));
                }
                return Err(FlashError::BufferTooSmall);
            }
            le32_push(&mut buf, kb.len() as u32);
            append_bytes(&mut buf, kb.as_slice());
            le32_push(&mut buf, blob.len() as u32);
            append_bytes(&mut buf, blob.as_slice());
            proof {
                lemma_records_push(self@.subrange(0, i as int), self@[i as int]);
                assert(self@.subrange(0, i as int).push(self@[i as int]) =~= self@.subrange(
                    0,
                    i + 1,
                ));
                assert(buf@ =~= le32(self@.len() as u32) + records_bytes(self@.subrange(0, i + 1)));
            }
            i = i + 1;
        }
        proof {
            assert(self@.subrange(0, n as int) =~= self@);
            assert(buf@ == image_bytes(self@));
            lemma_pad4(image_bytes(self@));
            lemma_pad4_fits(image_bytes(self@));
        }
        // pad to the next word boundary with erased bytes
        let ghost img_un = buf@;
        let pad = (4 - (buf.len() % 4)) % 4;
        let mut j: usize = 0;
        while j < pad
            invariant
                j <= pad,
                pad as int == (4 - img_un.len() as int % 4) % 4,
                buf@ == img_un + Seq::new(j as nat, |t: int| 0xFFu8),
            decreases pad - j,
        {
            buf.push(0xFF);
            proof {
                assert(buf@ =~= img_un + Seq::new((j + 1) as nat, |t: int| 0xFFu8));
            }
            j = j + 1;
        }
        proof {
            assert(buf@ =~= pad4(img_un));
        }
        // erase exactly the pages the padded image spans
        let total = buf.len();
        let pages = (total + PAGE_SIZE - 1) / PAGE_SIZE;
        let span = pages * PAGE_SIZE;
        proof {
            assert(span as int == page_span(total as int));
            assert(span as int % (PAGE_SIZE as int) == 0) by (nonlinear_arith)
                requires
                    span == pages * PAGE_SIZE;
        }
        let cap = flash.capacity();
        let off_us = flash_offset as usize;
        if off_us > cap || span > cap - off_us {
            return Err(FlashError::EraseError);
        }
        let end = flash_offset + (span as u32);
        proof {
            assert((flash_offset as int + span as int) % (PAGE_SIZE as int) == flash_offset as int
                % (PAGE_SIZE as int)) by (nonlinear_arith)
                requires
                    span as int % (PAGE_SIZE as int) == 0,
                    flash_offset >= 0,
                    span >= 0;
        }
        match flash.erase(flash_offset, end) {
            Ok(_) => (),
            Err(_) => {
                return Err(FlashError::EraseError);
            }
        }
        proof {
            assert(flash_offset as int % 4 == 0) by (nonlinear_arith)
                requires
                    flash_offset as int % (PAGE_SIZE as int) == 0,
                    PAGE_SIZE as int == 4 * 1024;
        }
        match flash.write(flash_offset, buf.as_slice()) {
            Ok(_) => (),
            Err(_) => {
                // cannot happen: the span was just erased and bounds checked
                return Err(FlashError::WriteError);
            }
        }
        proof {
            let f0 = old(flash)@;
            let img = pad4(image_bytes(self@));
            let off = flash_offset as int;
            let span_i = page_span(img.len() as int);
            let er = spec_erased(f0, off, off + span_i);
            assert forall|t: int| 0 <= t < f0.len() implies spec_written(er, off, img)[t]
                == spec_saved(f0, off, img)[t] by {
                if off <= t < off + img.len() {
                    lemma_and_ff(img[t - off]);
                }
            }
            assert(flash@ =~= spec_saved(f0, off, img));
        }
        proof {
            let off = flash_offset as int;
            let flen = flash@.len() as int;
            let image = image_bytes(self@);
            let img = pad4(image);
            let count32 = self@.len() as u32;
            lemma_pad4(image);
            assert(total == img.len());
            assert(total <= span) by (nonlinear_arith)
                requires
                    span as int == pages as int * (PAGE_SIZE as int),
                    pages as int == (total as int + PAGE_SIZE as int - 1) / (PAGE_SIZE as int),
                    PAGE_SIZE as int > 0,
                    total as int >= 0;
            let w = spec_window(flen, off);
            assert(w >= img.len());
            let win = flash@.subrange(off, off + w);
            assert forall|t: int| 0 <= t < img.len() implies #[trigger] win[t] == img[t] by {
                assert(win[t] == flash@[off + t]);
            }
            assert(image.len() == 4 + records_bytes(self@).len());
            assert forall|t: int| 0 <= t < image.len() implies #[trigger] img[t] == image[t] by {
                assert(pad4(image).subrange(0, image.len() as int)[t] == pad4(image)[t]);
            }
            // the header word reads back as the entry count
            lemma_le32_roundtrip(count32);
            assert(win[0] == le32(count32)[0] && win[1] == le32(count32)[1] && win[2] == le32(
                count32,
            )[2] && win[3] == le32(count32)[3]);
            assert(le_val(win[0], win[1], win[2], win[3]) == count32);
            // the count never reads as the erased sentinel
            lemma_records_len_lower(self@);
            assert(self@.len() < ERASED_HEADER);
            // the records sit right after the header
            let lr = records_bytes(self@).len() as int;
            assert forall|t: int| 0 <= t < lr implies win.subrange(4, 4 + lr)[t]
                == #[trigger] records_bytes(self@)[t] by {
                assert(win.subrange(4, 4 + lr)[t] == win[4 + t]);
                assert(image[4 + t] == records_bytes(self@)[t]);
            }
            assert(win.subrange(4, 4 + lr) =~= records_bytes(self@));
            assert(Seq::<(u32, Seq<u8>)>::empty() + self@ =~= self@);
            lemma_parse_saved_records(
                win,
                4,
                Seq::empty(),
                self@,
                self.spec_capacity() as nat,
                self.spec_blob_capacity() as nat,
            );
        }
        Ok(())
    }
}


/// How much of the region from `off` the loader reads: a full staging window
/// where the region allows it, the remainder of the region otherwise.
pub open spec fn spec_window(cap: int, off: int) -> int {
    if cap - off < MAX_IMAGE_SIZE {
        cap - off
    } else {
        MAX_IMAGE_SIZE as int
    }
}

/// Parse `rem` records of the image in `buf` starting at `pos`, inserting
/// into `acc` as the index would (an index at capacity `ncap`, blobs bounded
/// by `bcap`). Yields the error if one arose, the entries inserted so far,
/// and the position where parsing stopped.
pub open spec fn parse_records(
    buf: Seq<u8>,
    pos: int,
    rem: nat,
    acc: Seq<(u32, Seq<u8>)>,
    ncap: nat,
    bcap: nat,
) -> (Option<FlashError>, Seq<(u32, Seq<u8>)>, int)
    decreases rem,
{
    if rem == 0 {
        (None, acc, pos)
    } else if pos + 4 > buf.len() {
        (Some(FlashError::BufferTooSmall), acc, pos)
    } else {
        let klen = le_val(buf[pos], buf[pos + 1], buf[pos + 2], buf[pos + 3]) as int;
        if pos + 4 + klen > buf.len() {
            (Some(FlashError::BufferTooSmall), acc, pos)
        } else {
            match postcard_decoded(buf.subrange(pos + 4, pos + 4 + klen)) {
                None => (Some(FlashError::DeserializationError), acc, pos),
                Some(k) => {
                    let p2 = pos + 4 + klen;
                    if p2 + 4 > buf.len() {
                        (Some(FlashError::BufferTooSmall), acc, p2)
                    } else {
                        let vlen = le_val(buf[p2], buf[p2 + 1], buf[p2 + 2], buf[p2 + 3]) as int;
                        if p2 + 4 + vlen > buf.len() {
                            (Some(FlashError::BufferTooSmall), acc, p2)
                        } else if vlen > bcap {
                            (Some(FlashError::BufferTooSmall), acc, p2)
                        } else if !kv_contains(acc, k) && acc.len() >= ncap {
                            (Some(FlashError::DatabaseFull), acc, p2)
                        } else {
                            parse_records(
                                buf,
                                p2 + 4 + vlen,
                                (rem - 1) as nat,
                                kv_put(acc, k, buf.subrange(p2 + 4, p2 + 4 + vlen)),
                                ncap,
                                bcap,
                            )
                        }
                    }
                }
            }
        }
    }
}

/// Copy `len` bytes of `buf` starting at `start`.
fn sub_vec(buf: &Vec<u8>, start: usize, len: usize) -> (r: Vec<u8>)
    requires
        start + len <= buf@.len(),
    ensures
        r@ == buf@.subrange(start as int, start as int + len as int),
{
    let total = buf.len();
    let mut r: Vec<u8> = Vec::new();
    let mut i: usize = 0;
    while i < len
        invariant
            i <= len,
            start + len <= buf@.len(),
            buf@.len() == total,
            r@ == buf@.subrange(start as int, start as int + i as int),
        decreases len - i,
    {
        r.push(buf[start + i]);
        proof {
            assert(r@ =~= buf@.subrange(start as int, start as int + i + 1));
        }
        i = i + 1;
    }
    r
}

impl<V: Copy, C: Codec<V>> Database<V, C> {
    /// Read the image window at `flash_offset` and rebuild the index from
    /// it. An erased header (the all-ones word) means "no data present": the
    /// store is left untouched and the load succeeds. Otherwise the index and
    /// the cache are cleared and exactly the header's number of records is
    /// parsed and inserted; a record that reads past the window, a key that
    /// does not decode, a blob over the blob bound, or an insertion beyond
    /// capacity stops the load with the matching error, leaving the entries
    /// inserted up to that point.
    pub fn load_from_flash(&mut self, flash: &FlashStorage, flash_offset: u32) -> (r: Result<
        (),
        FlashError,
    >)
        requires
            old(self).wf(),
        ensures
            final(self).wf(),
            final(self).spec_capacity() == old(self).spec_capacity(),
            final(self).spec_blob_capacity() == old(self).spec_blob_capacity(),
            final(self).spec_cache_capacity() == old(self).spec_cache_capacity(),
            // the region cannot hold even a header
            flash_offset + 4 > flash@.len() ==> r == Err::<(), FlashError>(FlashError::ReadError)
                && final(self)@ == old(self)@ && final(self).spec_cache() == old(
                self,
            ).spec_cache(),
            flash_offset + 4 <= flash@.len() ==> ({
                let win = flash@.subrange(
                    flash_offset as int,
                    flash_offset + spec_window(flash@.len() as int, flash_offset as int),
                );
                let hdr = le_val(win[0], win[1], win[2], win[3]);
                if hdr == ERASED_HEADER {
                    // erased flash: nothing to load, the store is unchanged
                    r is Ok && final(self)@ == old(self)@ && final(self).spec_cache() == old(
                        self,
                    ).spec_cache()
                } else {
                    let (err, es, pos) = parse_records(
                        win,
                        4,
                        hdr as nat,
                        Seq::empty(),
                        old(self).spec_capacity() as nat,
                        old(self).spec_blob_capacity() as nat,
                    );
                    &&& final(self)@ == es
                    &&& final(self).spec_cache() == Seq::<(u32, V)>::empty()
                    &&& (match err {
                        None => r is Ok,
                        Some(e) => r == Err::<(), FlashError>(e),
                    })
                }
            }),
    {
        let cap = flash.capacity();
        let off_us = flash_offset as usize;
        if off_us > cap || cap - off_us < 4 {
            return Err(FlashError::ReadError);
        }
        let win_len = if cap - off_us < MAX_IMAGE_SIZE {
            cap - off_us
        } else {
            MAX_IMAGE_SIZE
        };
        let buf = match flash.read(flash_offset, win_len) {
            Ok(b) => b,
            Err(_) => {
                return Err(FlashError::ReadError);
            }
        };
        let ghost win = buf@;
        let num_entries = le32_read(&buf, 0);
        if num_entries == ERASED_HEADER {
            return Ok(());
        }
        self.blobs.clear();
        self.cache.clear();
        proof {
            self.lemma_view_index();
            assert(self@ =~= Seq::<(u32, Seq<u8>)>::empty());
        }
        let ghost n0 = num_entries as nat;
        let ghost ncap = self.spec_capacity() as nat;
        let ghost bcap = self.spec_blob_capacity() as nat;
        let mut pos: usize = 4;
        let mut i: u32 = 0;
        while i < num_entries
            invariant
                self.wf(),
                self.spec_cache() == Seq::<(u32, V)>::empty(),
                self.spec_capacity() == old(self).spec_capacity(),
                self.spec_blob_capacity() == old(self).spec_blob_capacity(),
                self.spec_cache_capacity() == old(self).spec_cache_capacity(),
                i <= num_entries,
                4 <= pos <= win.len(),
                win == buf@,
                4 <= win.len() <= MAX_IMAGE_SIZE,
                flash_offset + 4 <= flash@.len(),
                win == flash@.subrange(
                    flash_offset as int,
                    flash_offset + spec_window(flash@.len() as int, flash_offset as int),
                ),
                num_entries == le_val(win[0], win[1], win[2], win[3]),
                num_entries != ERASED_HEADER,
                n0 == num_entries as nat,
                ncap == old(self).spec_capacity() as nat,
                bcap == old(self).spec_blob_capacity() as nat,
                parse_records(win, 4, n0, Seq::empty(), ncap, bcap) == parse_records(
                    win,
                    pos as int,
                    (num_entries - i) as nat,
                    self@,
                    ncap,
                    bcap,
                ),
            decreases num_entries - i,
        {
            let ghost pos0 = pos as int;
            let ghost acc0 = self@;
            let ghost rem = (num_entries - i) as nat;
            if pos + 4 > buf.len() {
                proof {
                    assert(parse_records(win, pos0, rem, acc0, ncap, bcap) == (
                        Some(FlashError::BufferTooSmall),
                        acc0,
                        pos0,
                    ));
                }
                return Err(FlashError::BufferTooSmall);
            }
            let key_len = le32_read(&buf, pos) as usize;
            if key_len > buf.len() - (pos + 4) {
                proof {
                    assert(parse_records(win, pos0, rem, acc0, ncap, bcap) == (
                        Some(FlashError::BufferTooSmall),
                        acc0,
                        pos0,
                    ));
                }
                return Err(FlashError::BufferTooSmall);
            }
            let kb = sub_vec(&buf, pos + 4, key_len);
            let key = match postcard_decode_u32(kb.as_slice()) {
                Some(k) => k,
                None => {
                    proof {
                        assert(parse_records(win, pos0, rem, acc0, ncap, bcap) == (
                            Some(FlashError::DeserializationError),
                            acc0,
                            pos0,
                        ));
                    }
                    return Err(FlashError::DeserializationError);
                }
            };
            let p2 = pos + 4 + key_len;
            if p2 + 4 > buf.len() {
                proof {
                    assert(parse_records(win, pos0, rem, acc0, ncap, bcap) == (
                        Some(FlashError::BufferTooSmall),
                        acc0,
                        p2 as int,
                    ));
                }
                return Err(FlashError::BufferTooSmall);
            }
            let val_len = le32_read(&buf, p2) as usize;
            if val_len > buf.len() - (p2 + 4) {
                proof {
                    assert(parse_records(win, pos0, rem, acc0, ncap, bcap) == (
                        Some(FlashError::BufferTooSmall),
                        acc0,
                        p2 as int,
                    ));
                }
                return Err(FlashError::BufferTooSmall);
            }
            if val_len > self.blob_cap {
                proof {
                    assert(parse_records(win, pos0, rem, acc0, ncap, bcap) == (
                        Some(FlashError::BufferTooSmall),
                        acc0,
                        p2 as int,
                    ));
                }
                return Err(FlashError::BufferTooSmall);
            }
            let blob = sub_vec(&buf, p2 + 4, val_len);
            proof {
                self.lemma_view_index();
            }
            let ghost pre = *self;
            match self.blobs.put(key, blob) {
                Ok(_prev) => (),
                Err(_) => {
                    proof {
                        pre.lemma_view_index();
                        assert(parse_records(win, pos0, rem, acc0, ncap, bcap) == (
                            Some(FlashError::DatabaseFull),
                            acc0,
                            p2 as int,
                        ));
                    }
                    return Err(FlashError::DatabaseFull);
                }
            }
            proof {
                pre.lemma_view_index();
                self.lemma_view_index();
                if kv_contains(pre.blobs@, key) {
                    pre.lemma_view_get(key);
                    lemma_kv_index_of(pre.blobs@, key);
                    assert(self@ =~= kv_put(pre@, key, blob@));
                } else {
                    assert(self@ =~= kv_put(pre@, key, blob@));
                }
                lemma_kv_put_unique(pre@, key, blob@);
                // the freshly inserted blob and all others respect the bound
                assert forall|t: int| 0 <= t < self@.len() implies (#[trigger] self@[t]).1.len()
                    <= self.spec_blob_capacity() by {
                    if kv_contains(pre@, key) {
                        lemma_kv_index_of(pre@, key);
                    }
                }
                assert(blob@ =~= win.subrange(p2 + 4, p2 + 4 + val_len as int));
                assert(parse_records(win, pos0, rem, acc0, ncap, bcap) == parse_records(
                    win,
                    p2 + 4 + val_len as int,
                    (rem - 1) as nat,
                    kv_put(acc0, key, win.subrange(p2 + 4, p2 + 4 + val_len as int)),
                    ncap,
                    bcap,
                ));
            }
            pos = p2 + 4 + val_len;
            i = i + 1;
        }
        proof {
            assert(parse_records(win, pos as int, 0, self@, ncap, bcap) == (
                None::<FlashError>,
                self@,
                pos as int,
            ));
        }
        Ok(())
    }
}


/// Saving the same image at the same offset a second time leaves the flash
/// region exactly as the first save left it. Since what a load reconstructs
/// is a function of the flash contents, the offset and the capacities alone,
/// loading after either save yields the same store.
pub proof fn lemma_save_idempotent(f: Seq<u8>, off: int, img: Seq<u8>)
    ensures
        spec_saved(spec_saved(f, off, img), off, img) == spec_saved(f, off, img),
{
    assert(spec_saved(spec_saved(f, off, img), off, img) =~= spec_saved(f, off, img));
}


/// Every record takes at least its two length words.
proof fn lemma_records_len_lower(s: Seq<(u32, Seq<u8>)>)
    ensures
        records_bytes(s).len() >= 8 * s.len(),
    decreases s.len(),
{
    if s.len() != 0 {
        lemma_records_len_lower(s.drop_first());
    }
}

/// Parsing the records that the saver laid down at `pos` succeeds and
/// reconstructs exactly the saved entries, appended to whatever was inserted
/// before, whatever the buffer holds beyond them.
proof fn lemma_parse_saved_records(
    buf: Seq<u8>,
    pos: int,
    done: Seq<(u32, Seq<u8>)>,
    entries: Seq<(u32, Seq<u8>)>,
    ncap: nat,
    bcap: nat,
)
    requires
        0 <= pos,
        pos + records_bytes(entries).len() <= buf.len(),
        buf.subrange(pos, pos + records_bytes(entries).len()) == records_bytes(entries),
        kv_unique(done + entries),
        done.len() + entries.len() <= ncap,
        forall|j: int|
            0 <= j < entries.len() ==> postcard_decoded(
                postcard_bytes((#[trigger] entries[j]).0),
            ) == Some(entries[j].0),
        forall|j: int|
            0 <= j < entries.len() ==> postcard_bytes((#[trigger] entries[j]).0).len() <= 5,
        forall|j: int| 0 <= j < entries.len() ==> (#[trigger] entries[j]).1.len() <= bcap,
        forall|j: int| 0 <= j < entries.len() ==> (#[trigger] entries[j]).1.len() <= 0xFFFF_FFFF,
    ensures
        parse_records(buf, pos, entries.len() as nat, done, ncap, bcap) == (
            None::<FlashError>,
            done + entries,
            pos + records_bytes(entries).len(),
        ),
    decreases entries.len(),
{
    if entries.len() == 0 {
        assert(done + entries =~= done);
    } else {
        let e = entries[0];
        let rest = entries.drop_first();
        let kb = postcard_bytes(e.0);
        let klen = kb.len() as int;
        let klen32 = kb.len() as u32;
        let vlen = e.1.len() as int;
        let vlen32 = e.1.len() as u32;
        let rb = record_bytes(e.0, e.1);
        let lrec = rb.len() as int;
        let big = records_bytes(entries);
        let lall = big.len() as int;
        assert(big == rb + records_bytes(rest));
        assert(lrec == 8 + klen + vlen);
        assert forall|t: int| 0 <= t < lall implies buf[pos + t] == #[trigger] big[t] by {
            assert(buf.subrange(pos, pos + lall)[t] == buf[pos + t]);
        }
        lemma_le32_roundtrip(klen32);
        lemma_le32_roundtrip(vlen32);
        // the record's key-length word
        assert(big[0] == le32(klen32)[0] && big[1] == le32(klen32)[1] && big[2] == le32(klen32)[2]
            && big[3] == le32(klen32)[3]);
        assert(le_val(buf[pos], buf[pos + 1], buf[pos + 2], buf[pos + 3]) == klen32);
        // the key bytes
        assert forall|t: int| 0 <= t < klen implies buf.subrange(pos + 4, pos + 4 + klen)[t]
            == kb[t] by {
            assert(buf.subrange(pos + 4, pos + 4 + klen)[t] == buf[pos + 4 + t]);
            assert(big[4 + t] == kb[t]);
        }
        assert(buf.subrange(pos + 4, pos + 4 + klen) =~= kb);
        assert(postcard_decoded(buf.subrange(pos + 4, pos + 4 + klen)) == Some(e.0));
        let p2 = pos + 4 + klen;
        // the value-length word
        assert(big[4 + klen] == le32(vlen32)[0] && big[5 + klen] == le32(vlen32)[1] && big[6 + klen]
            == le32(vlen32)[2] && big[7 + klen] == le32(vlen32)[3]);
        assert(le_val(buf[p2], buf[p2 + 1], buf[p2 + 2], buf[p2 + 3]) == vlen32);
        // the blob bytes
        assert forall|t: int| 0 <= t < vlen implies buf.subrange(p2 + 4, p2 + 4 + vlen)[t]
            == e.1[t] by {
            assert(buf.subrange(p2 + 4, p2 + 4 + vlen)[t] == buf[p2 + 4 + t]);
            assert(big[8 + klen + t] == e.1[t]);
        }
        assert(buf.subrange(p2 + 4, p2 + 4 + vlen) =~= e.1);
        // the key is new: it cannot also stand in `done`
        assert(!kv_contains(done, e.0)) by {
            if kv_contains(done, e.0) {
                let i = choose|i: int| 0 <= i < done.len() && done[i].0 == e.0;
                assert((done + entries)[i].0 == e.0);
                assert((done + entries)[done.len() as int].0 == e.0);
            }
        }
        assert(e == (e.0, e.1));
        assert(kv_put(done, e.0, e.1) == done.push(e));
        // one parse step consumes exactly this record
        assert(parse_records(buf, pos, entries.len() as nat, done, ncap, bcap) == parse_records(
            buf,
            pos + lrec,
            rest.len() as nat,
            done.push(e),
            ncap,
            bcap,
        ));
        // the remaining records sit right after it
        assert(buf.subrange(pos + lrec, pos + lrec + records_bytes(rest).len()) =~= records_bytes(
            rest,
        )) by {
            assert(forall|t: int|
                0 <= t < records_bytes(rest).len() ==> big[lrec + t] == records_bytes(rest)[t]);
            assert(forall|t: int|
                0 <= t < records_bytes(rest).len() ==> #[trigger] buf.subrange(
                    pos + lrec,
                    pos + lrec + records_bytes(rest).len(),
                )[t] == buf[pos + lrec + t]);
        }
        assert(done.push(e) + rest =~= done + entries);
        assert(forall|j: int| 0 <= j < rest.len() ==> #[trigger] rest[j] == entries[j + 1]);
        lemma_parse_saved_records(buf, pos + lrec, done.push(e), rest, ncap, bcap);
    }
}

} // verus!
