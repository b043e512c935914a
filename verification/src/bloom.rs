//! The filter, its builder and the storage it is built against.

use crate::bitmap::{lemma_canonical_unique, CompressedBitmap};
use crate::digest::{
    chunk_count, chunks_per_digest, first_keys, key_set, lemma_chunk_count, sub_index,
    sub_index_at,
};
use crate::size::{lemma_pow256_monotonic, lemma_pow256_values, pow256, FilterSize};
use std::collections::hash_map::RandomState;
use std::hash::{BuildHasher, Hash};
use std::marker::PhantomData;
use vstd::prelude::*;

verus! {

/// Bit storage for a [`Bloom2`] filter.
///
/// A storage records for each position whether it is set. It may address
/// fewer positions than a machine word can name: `set` and `get` take the
/// positions below `capacity` and nothing is said of the others, so a caller
/// has to stay below it.
///
/// A storage that is verified states what `bits`, `inv` and `capacity` are
/// for it, and `set` and `get` are held to them. The bodies given here are
/// there so that code which is not verified can write `set` and `get` alone;
/// it owes the same behaviour.
pub trait Bitmap {
    /// The positions that are recorded as set. A position that was never set
    /// is not among them.
    open spec fn bits(&self) -> Set<int> {
        Set::empty()
    }

    /// What the storage keeps true of itself between calls.
    open spec fn inv(&self) -> bool {
        true
    }

    /// The number of positions that the storage addresses, counted from
    /// zero.
    open spec fn capacity(&self) -> nat {
        (usize::MAX + 1) as nat
    }

    /// Records the bit at `key` as `value`.
    fn set(&mut self, key: usize, value: bool)
        requires
            old(self).inv(),
            key < old(self).capacity(),
        ensures
            final(self).inv(),
            final(self).capacity() == old(self).capacity(),
            final(self).bits() == if value {
                old(self).bits().insert(key as int)
            } else {
                old(self).bits().remove(key as int)
            },
    ;

    /// The value last recorded for `key`, `false` if there was none.
    fn get(&self, key: usize) -> (value: bool)
        requires
            self.inv(),
            key < self.capacity(),
        ensures
            value == self.bits().contains(key as int),
    ;
}

/// The parts of a [`Bloom2`] filter, to be set one by one.
///
/// The default builder makes a filter with two-byte positions over an empty
/// [`CompressedBitmap`], hashing with the standard library's `RandomState`.
pub struct BloomFilterBuilder<H, B> where H: BuildHasher, B: Bitmap {
    /// What hashes the values.
    pub hasher: H,
    /// What records the positions.
    pub bitmap: B,
    /// How many bytes of a digest make up one position.
    pub key_size: FilterSize,
}

/// `RandomState::default` of the standard library: a hasher state with fresh
/// random keys. Nothing is claimed of it.
pub assume_specification[ <RandomState as Default>::default ]() -> (state: RandomState)
;

impl Default for BloomFilterBuilder<RandomState, CompressedBitmap> {
    /// A builder with a fresh `RandomState`, an empty [`CompressedBitmap`]
    /// and two bytes to a position.
    fn default() -> (builder: Self)
        ensures
            builder.key_size == FilterSize::KeyBytes2,
            builder.bitmap.runs() == Seq::<(usize, usize)>::empty(),
    {
        BloomFilterBuilder {
            hasher: RandomState::default(),
            bitmap: CompressedBitmap::new(),
            key_size: FilterSize::KeyBytes2,
        }
    }
}

impl<H, B> BloomFilterBuilder<H, B> where H: BuildHasher, B: Bitmap {
    /// Sets the hash algorithm.
    pub fn hasher(self, hasher: H) -> (builder: Self)
        ensures
            builder.hasher == hasher,
            builder.bitmap == self.bitmap,
            builder.key_size == self.key_size,
    {
        BloomFilterBuilder { hasher, bitmap: self.bitmap, key_size: self.key_size }
    }

    /// Sets the bit storage. One that is not empty restores the state of an
    /// earlier filter.
    ///
    /// The storage has to address every position of the size that the filter
    /// is built with: `build` asks for it.
    pub fn bitmap(self, bitmap: B) -> (builder: Self)
        ensures
            builder.hasher == self.hasher,
            builder.bitmap == bitmap,
            builder.key_size == self.key_size,
    {
        BloomFilterBuilder { hasher: self.hasher, bitmap, key_size: self.key_size }
    }

    /// Sets how many bytes of a digest make up one position.
    pub fn size(self, size: FilterSize) -> (builder: Self)
        ensures
            builder.hasher == self.hasher,
            builder.bitmap == self.bitmap,
            builder.key_size == size,
    {
        BloomFilterBuilder { hasher: self.hasher, bitmap: self.bitmap, key_size: size }
    }

    /// Makes the filter out of the parts.
    pub fn build<T: Hash>(self) -> (filter: Bloom2<H, B, T>)
        requires
            self.bitmap.inv(),
            self.key_size.positions() <= self.bitmap.capacity(),
            self.key_size.fits_word(),
        ensures
            filter.wf(),
            filter.hash_state() == self.hasher,
            filter.storage() == self.bitmap,
            filter.size() == self.key_size,
    {
        Bloom2 {
            hasher: self.hasher,
            bitmap: self.bitmap,
            key_size: self.key_size,
            _key_type: PhantomData,
        }
    }
}

/// The number of positions that a filter of size `k` addresses.
pub fn key_size_to_bits(k: FilterSize) -> (bits: usize)
    requires
        k.positions() <= usize::MAX,
    ensures
        bits == k.positions(),
{
    let width = k.key_bytes();
    let mut bits: usize = 1;
    let mut i: usize = 0;
    while i < width
        invariant
            i <= width == k.width(),
            bits == pow256(i as nat),
            k.positions() <= usize::MAX,
        decreases width - i,
    {
        proof {
            lemma_pow256_monotonic((i + 1) as nat, k.width());
        }
        bits = bits * 256;
        i += 1;
    }
    bits
}

/// Whether a filter whose storage holds `bits` reports the value with digest
/// `digest`: one of the positions of the digest is set.
pub open spec fn reported(bits: Set<int>, digest: u64, size: FilterSize) -> bool {
    exists|i: nat|
        i < chunk_count(size) && bits.contains(#[trigger] sub_index(digest, size, i) as int)
}

/// A fast, memory efficient bloom filter.
///
/// `insert` hashes a value once, cuts the digest into positions and sets each
/// of them in the storage; `contains` reports a value as soon as one of its
/// positions is found set. A value that was inserted is therefore always
/// reported, and one that was not may be.
#[derive(Debug, PartialEq)]
pub struct Bloom2<H, B, T> where H: BuildHasher, B: Bitmap {
    hasher: H,
    bitmap: B,
    key_size: FilterSize,
    _key_type: PhantomData<T>,
}

impl<H, B, T> Clone for Bloom2<H, B, T> where H: BuildHasher + Clone, B: Bitmap + Clone {
    /// A filter of the same size over clones of the hasher and the storage.
    fn clone(&self) -> (copy: Self)
        ensures
            copy.size() == self.size(),
            cloned(self.hash_state(), copy.hash_state()),
            cloned(self.storage(), copy.storage()),
    {
        Bloom2 {
            hasher: self.hasher.clone(),
            bitmap: self.bitmap.clone(),
            key_size: self.key_size,
            _key_type: PhantomData,
        }
    }
}

impl<T> Default for Bloom2<RandomState, CompressedBitmap, T> where T: Hash {
    /// The filter that the default [`BloomFilterBuilder`] builds.
    fn default() -> (filter: Self)
        ensures
            filter.wf(),
            filter.size() == FilterSize::KeyBytes2,
            filter.storage().runs() == Seq::<(usize, usize)>::empty(),
            filter.bits() == Set::<int>::empty(),
    {
        proof {
            lemma_pow256_values();
        }
        BloomFilterBuilder::default().build()
    }
}

/// `BuildHasher::hash_one` of the standard library: the digest of `data`
/// under a hasher that `hasher` builds. Nothing is claimed of the digest,
/// which is for the hasher and the value's `Hash` to decide.
#[verifier::external_body]
fn hash_one<H: BuildHasher, T: Hash>(hasher: &H, data: T) -> (digest: u64) {
    hasher.hash_one(data)
}

impl<H, B, T> Bloom2<H, B, T> where H: BuildHasher, B: Bitmap {
    /// What hashes the values.
    pub closed spec fn hash_state(&self) -> H {
        self.hasher
    }

    /// What records the positions.
    pub closed spec fn storage(&self) -> B {
        self.bitmap
    }

    /// How many bytes of a digest make up one position.
    pub closed spec fn size(&self) -> FilterSize {
        self.key_size
    }

    /// The positions that are set.
    pub open spec fn bits(&self) -> Set<int> {
        self.storage().bits()
    }

    /// The storage is in order and addresses every position of the size.
    pub open spec fn wf(&self) -> bool {
        &&& self.storage().inv()
        &&& self.size().positions() <= self.storage().capacity()
        &&& self.size().fits_word()
    }

    /// How many bytes of a digest make up one position.
    pub fn key_size(&self) -> (size: FilterSize)
        ensures
            size == self.size(),
    {
        self.key_size
    }

    /// What records the positions.
    pub fn bitmap(&self) -> (bitmap: &B)
        ensures
            *bitmap == self.storage(),
    {
        &self.bitmap
    }

    /// What hashes the values.
    pub fn hasher(&self) -> (hasher: &H)
        ensures
            *hasher == self.hash_state(),
    {
        &self.hasher
    }

    /// Sets every position of `digest`, as `insert` does for the digest of a
    /// value.
    pub fn insert_hash(&mut self, digest: u64)
        requires
            old(self).wf(),
        ensures
            final(self).wf(),
            final(self).size() == old(self).size(),
            final(self).hash_state() == old(self).hash_state(),
            final(self).bits() == old(self).bits().union(key_set(digest, old(self).size())),
    {
        let n = chunks_per_digest(self.key_size);
        let mut i: usize = 0;
        assert(self.bits() =~= old(self).bits().union(first_keys(digest, self.size(), 0)));
        while i < n
            invariant
                i <= n == chunk_count(self.size()),
                self.wf(),
                self.size() == old(self).size(),
                self.hash_state() == old(self).hash_state(),
                self.bits() == old(self).bits().union(first_keys(digest, self.size(), i as nat)),
            decreases n - i,
        {
            let key = sub_index_at(digest, self.key_size, i);
            let ghost before = self.bits();
            self.bitmap.set(key, true);
            proof {
                let size = self.size();
                assert forall|p: int| first_keys(digest, size, (i + 1) as nat).contains(p)
                    <==> first_keys(digest, size, i as nat).insert(key as int).contains(p) by {
                    if first_keys(digest, size, (i + 1) as nat).contains(p) {
                        let j = choose|j: nat| j < i + 1 && p == sub_index(digest, size, j);
                        assert(j < i || j == i);
                    }
                    assert(key == sub_index(digest, size, i as nat));
                }
                assert(self.bits() =~= old(self).bits().union(
                    first_keys(digest, size, (i + 1) as nat),
                ));
            }
            i += 1;
        }
    }

    /// Whether one of the positions of `digest` is set, as `contains` tells
    /// for the digest of a value.
    pub fn contains_hash(&self, digest: u64) -> (found: bool)
        requires
            self.wf(),
        ensures
            found == reported(self.bits(), digest, self.size()),
    {
        let n = chunks_per_digest(self.key_size);
        let mut i: usize = 0;
        while i < n
            invariant
                i <= n == chunk_count(self.size()),
                self.wf(),
                forall|j: nat|
                    j < i ==> !self.bits().contains(
                        #[trigger] sub_index(digest, self.size(), j) as int,
                    ),
            decreases n - i,
        {
            let key = sub_index_at(digest, self.key_size, i);
            if self.bitmap.get(key) {
                assert(self.bits().contains(sub_index(digest, self.size(), i as nat) as int));
                return true;
            }
            i += 1;
        }
        false
    }
}

impl<H, B, T> Bloom2<H, B, T> where H: BuildHasher, B: Bitmap, T: Hash {
    /// Places `data` into the filter: every later `contains` of the same
    /// value reports it.
    ///
    /// The value is hashed once, and the positions of its digest are set.
    pub fn insert(&mut self, data: T)
        requires
            old(self).wf(),
        ensures
            final(self).wf(),
            final(self).size() == old(self).size(),
            final(self).hash_state() == old(self).hash_state(),
            old(self).bits().subset_of(final(self).bits()),
            exists|digest: u64|
                final(self).bits() == old(self).bits().union(
                    #[trigger] key_set(digest, old(self).size()),
                ),
    {
        let digest = hash_one(&self.hasher, data);
        self.insert_hash(digest);
    }

    /// Whether `data` may have been inserted. `false` means that it was
    /// not; `true` means that one of the positions of its digest is set,
    /// by this value or by others.
    pub fn contains(&mut self, data: T) -> (found: bool)
        requires
            old(self).wf(),
        ensures
            *final(self) == *old(self),
            exists|digest: u64|
                found == #[trigger] reported(old(self).bits(), digest, old(self).size()),
    {
        let digest = hash_one(&self.hasher, data);
        self.contains_hash(digest)
    }
}

/// The positions that are set once the digests of `digests` have been
/// inserted, one after the other, into a storage that held `bits`.
pub open spec fn after_inserts(bits: Set<int>, digests: Seq<u64>, size: FilterSize) -> Set<int>
    decreases digests.len(),
{
    if digests.len() == 0 {
        bits
    } else {
        after_inserts(bits, digests.drop_last(), size).union(key_set(digests.last(), size))
    }
}

/// A digest whose positions have just been set is reported.
pub proof fn lemma_reported_after_insert(bits: Set<int>, digest: u64, size: FilterSize)
    ensures
        reported(bits.union(key_set(digest, size)), digest, size),
{
    lemma_chunk_count(size);
    let first = sub_index(digest, size, 0) as int;
    assert(key_set(digest, size).contains(first));
    assert(bits.union(key_set(digest, size)).contains(first));
}

/// What is reported stays reported while positions are only ever set.
pub proof fn lemma_reported_is_kept(
    before: Set<int>,
    after: Set<int>,
    digest: u64,
    size: FilterSize,
)
    requires
        before.subset_of(after),
        reported(before, digest, size),
    ensures
        reported(after, digest, size),
{
    let i = choose|i: nat|
        i < chunk_count(size) && before.contains(#[trigger] sub_index(digest, size, i) as int);
    assert(after.contains(sub_index(digest, size, i) as int));
}

/// No false negatives: after any sequence of insertions, each of the digests
/// that were inserted is reported, and nothing that was set before is lost.
pub proof fn lemma_no_false_negatives(
    bits: Set<int>,
    digests: Seq<u64>,
    size: FilterSize,
    i: int,
)
    requires
        0 <= i < digests.len(),
    ensures
        bits.subset_of(after_inserts(bits, digests, size)),
        reported(after_inserts(bits, digests, size), digests[i], size),
    decreases digests.len(),
{
    let earlier = after_inserts(bits, digests.drop_last(), size);
    let all = after_inserts(bits, digests, size);
    assert(all == earlier.union(key_set(digests.last(), size)));
    if i + 1 < digests.len() {
        lemma_no_false_negatives(bits, digests.drop_last(), size, i);
        assert(digests.drop_last()[i] == digests[i]);
        lemma_reported_is_kept(earlier, all, digests[i], size);
    } else {
        if digests.len() > 1 {
            lemma_no_false_negatives(bits, digests.drop_last(), size, 0);
        }
        lemma_reported_after_insert(earlier, digests[i], size);
    }
}

/// Inserting a digest a second time changes nothing: the positions that the
/// first time set are those that the second would set.
pub proof fn lemma_insert_idempotent(bits: Set<int>, digest: u64, size: FilterSize)
    ensures
        bits.union(key_set(digest, size)).union(key_set(digest, size)) == bits.union(
            key_set(digest, size),
        ),
{
    assert(bits.union(key_set(digest, size)).union(key_set(digest, size)) =~= bits.union(
        key_set(digest, size),
    ));
}

/// Over a [`CompressedBitmap`] a second insertion of a digest leaves the very
/// runs that the first one left: the storage is in the same state.
pub proof fn lemma_insert_twice_same_runs(
    once: CompressedBitmap,
    twice: CompressedBitmap,
    digest: u64,
    size: FilterSize,
)
    requires
        once.inv(),
        twice.inv(),
        key_set(digest, size).subset_of(once.bits()),
        twice.bits() == once.bits().union(key_set(digest, size)),
    ensures
        twice.runs() == once.runs(),
{
    assert(twice.bits() =~= once.bits());
    lemma_canonical_unique(twice.runs(), once.runs());
}

} // verus!
