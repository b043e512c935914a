//! How one digest becomes several bit positions.
//!
//! The eight bytes of a digest, most significant first, are cut into
//! consecutive chunks of `k` bytes; the last chunk is shorter where `k` does
//! not divide eight. Each chunk, read as a big-endian number, is one position.

use crate::size::{lemma_pow256_monotonic, lemma_pow256_values, pow256, FilterSize};
use vstd::arithmetic::div_mod::{lemma_breakdown, lemma_div_denominator};
use vstd::prelude::*;

verus! {

/// The eight bytes of `digest`, most significant first.
pub open spec fn be_bytes(digest: u64) -> Seq<u8> {
    Seq::new(8, |i: int| ((digest as nat / pow256((7 - i) as nat)) % 256) as u8)
}

/// The number that `bytes` spell, most significant byte first.
pub open spec fn be_value(bytes: Seq<u8>) -> nat
    decreases bytes.len(),
{
    if bytes.len() == 0 {
        0
    } else {
        256 * be_value(bytes.drop_last()) + bytes.last() as nat
    }
}

/// The number of chunks that a digest is cut into: eight over `k`, rounded up.
pub open spec fn chunk_count(size: FilterSize) -> nat {
    ((8 + size.width() - 1) / size.width() as int) as nat
}

/// The offset of the first byte of chunk `i`.
pub open spec fn chunk_start(size: FilterSize, i: nat) -> nat {
    i * size.width()
}

/// The offset behind the last byte of chunk `i`.
pub open spec fn chunk_end(size: FilterSize, i: nat) -> nat {
    if chunk_start(size, i) + size.width() <= 8 {
        chunk_start(size, i) + size.width()
    } else {
        8
    }
}

/// The number of bytes of chunk `i`.
pub open spec fn chunk_len(size: FilterSize, i: nat) -> nat {
    (chunk_end(size, i) - chunk_start(size, i)) as nat
}

/// The bytes of chunk `i` of `digest`.
pub open spec fn chunk(digest: u64, size: FilterSize, i: nat) -> Seq<u8> {
    be_bytes(digest).subrange(chunk_start(size, i) as int, chunk_end(size, i) as int)
}

/// The position that chunk `i` of `digest` spells.
pub open spec fn sub_index(digest: u64, size: FilterSize, i: nat) -> nat {
    be_value(chunk(digest, size, i))
}

/// The positions of `digest`, in the order of its chunks.
pub open spec fn sub_indices(digest: u64, size: FilterSize) -> Seq<nat> {
    Seq::new(chunk_count(size), |i: int| sub_index(digest, size, i as nat))
}

/// The positions that the first `n` chunks of `digest` spell.
pub open spec fn first_keys(digest: u64, size: FilterSize, n: nat) -> Set<int> {
    Set::new(|p: int| exists|i: nat| i < n && p == #[trigger] sub_index(digest, size, i))
}

/// The positions of `digest` as a set.
pub open spec fn key_set(digest: u64, size: FilterSize) -> Set<int> {
    first_keys(digest, size, chunk_count(size))
}

/// A byte string of length `n` spells a number below `256^n`.
pub proof fn lemma_be_value_bound(bytes: Seq<u8>)
    ensures
        be_value(bytes) < pow256(bytes.len()),
    decreases bytes.len(),
{
    if bytes.len() > 0 {
        lemma_be_value_bound(bytes.drop_last());
    }
}

/// The number of chunks for each size: eight over `k`, rounded up, is the
/// least number of chunks of `k` bytes that hold eight bytes.
pub proof fn lemma_chunk_count(size: FilterSize)
    ensures
        chunk_count(size) == match size {
            FilterSize::KeyBytes1 => 8nat,
            FilterSize::KeyBytes2 => 4,
            FilterSize::KeyBytes3 => 3,
            FilterSize::KeyBytes4 => 2,
            FilterSize::KeyBytes5 => 2,
            FilterSize::KeyBytes6 => 2,
            FilterSize::KeyBytes7 => 2,
            FilterSize::KeyBytes8 => 1,
        },
        (chunk_count(size) - 1) * size.width() < 8 <= chunk_count(size) * size.width(),
{
    let k = size.width() as int;
    let n = (8 + k - 1) / k;
    assert(chunk_count(size) == n);
    match size {
        FilterSize::KeyBytes1 => {
            assert(k == 1 && n == 8 && (n - 1) * k == 7 && n * k == 8);
        },
        FilterSize::KeyBytes2 => {
            assert(k == 2 && n == 4 && (n - 1) * k == 6 && n * k == 8);
        },
        FilterSize::KeyBytes3 => {
            assert(k == 3 && n == 3 && (n - 1) * k == 6 && n * k == 9);
        },
        FilterSize::KeyBytes4 => {
            assert(k == 4 && n == 2 && (n - 1) * k == 4 && n * k == 8);
        },
        FilterSize::KeyBytes5 => {
            assert(k == 5 && n == 2 && (n - 1) * k == 5 && n * k == 10);
        },
        FilterSize::KeyBytes6 => {
            assert(k == 6 && n == 2 && (n - 1) * k == 6 && n * k == 12);
        },
        FilterSize::KeyBytes7 => {
            assert(k == 7 && n == 2 && (n - 1) * k == 7 && n * k == 14);
        },
        FilterSize::KeyBytes8 => {
            assert(k == 8 && n == 1 && (n - 1) * k == 0 && n * k == 8);
        },
    }
}

/// Products of naturals grow with their first factor, step by step.
proof fn lemma_mul_steps(i: nat, m: nat, k: nat)
    by (nonlinear_arith)
    requires
        i <= m,
    ensures
        i * k <= m * k,
        (i + 1) * k == i * k + k,
{
}

/// The chunks tile the eight bytes: each is non-empty, all but the last
/// have `k` bytes, each starts where the one before it ends, and the last
/// ends at eight.
pub proof fn lemma_chunk_bounds(size: FilterSize, i: nat)
    requires
        i < chunk_count(size),
    ensures
        chunk_start(size, i) < chunk_end(size, i) <= 8,
        1 <= chunk_len(size, i) <= size.width(),
        i + 1 < chunk_count(size) ==> chunk_end(size, i) == chunk_start(size, i + 1)
            && chunk_len(size, i) == size.width(),
        i + 1 == chunk_count(size) ==> chunk_end(size, i) == 8 && chunk_len(size, i) == 8 - i
            * size.width(),
{
    let k = size.width();
    let n = chunk_count(size);
    lemma_chunk_count(size);
    lemma_mul_steps(i, (n - 1) as nat, k);
    assert(chunk_start(size, i) == i * k);
    assert(chunk_start(size, i + 1) == i * k + k);
    if i + 1 < n {
        lemma_mul_steps(i + 1, (n - 1) as nat, k);
    } else {
        assert(i * k + k == n * k);
    }
}

/// The position of a chunk is below `256` to the length of the chunk, and so
/// inside the address space of the size.
pub proof fn lemma_sub_index_bound(digest: u64, size: FilterSize, i: nat)
    requires
        i < chunk_count(size),
    ensures
        sub_index(digest, size, i) < pow256(chunk_len(size, i)) <= size.positions(),
{
    lemma_chunk_bounds(size, i);
    lemma_be_value_bound(chunk(digest, size, i));
    assert(chunk(digest, size, i).len() == chunk_len(size, i));
    lemma_pow256_monotonic(chunk_len(size, i), size.width());
}

/// The bytes from offset `a` up to offset `b` spell the digest without the
/// bytes behind `b`, modulo `256` to the number of bytes taken.
pub proof fn lemma_be_value_range(digest: u64, a: nat, b: nat)
    requires
        a <= b <= 8,
    ensures
        be_value(be_bytes(digest).subrange(a as int, b as int)) == (digest as nat / pow256(
            (8 - b) as nat,
        )) % pow256((b - a) as nat),
    decreases b - a,
{
    let taken = be_bytes(digest).subrange(a as int, b as int);
    if a < b {
        let unit = pow256((8 - b) as nat);
        let rest = pow256((b - 1 - a) as nat);
        let x = digest as nat / unit;
        lemma_pow256_monotonic(0, (8 - b) as nat);
        lemma_pow256_monotonic(0, (b - 1 - a) as nat);
        lemma_be_value_range(digest, a, (b - 1) as nat);
        assert(taken.drop_last() =~= be_bytes(digest).subrange(a as int, b - 1));
        assert(taken.last() == be_bytes(digest)[b - 1]);
        assert(taken.last() as nat == x % 256) by {
            assert((7 - (b - 1)) as nat == (8 - b) as nat);
        }
        assert(pow256((8 - (b - 1)) as nat) == 256 * unit);
        assert(pow256((b - a) as nat) == 256 * rest);
        assert(digest as nat / (256 * unit) == x / 256) by {
            lemma_div_denominator(digest as int, unit as int, 256);
            assert(unit * 256 == 256 * unit);
        }
        assert(x % (256 * rest) == 256 * ((x / 256) % rest) + x % 256) by {
            lemma_breakdown(x as int, 256, rest as int);
        }
    } else {
        assert(taken.len() == 0);
        assert(pow256(0) == 1);
    }
}

/// The position of chunk `i` in closed form: the digest without the bytes
/// behind the chunk, modulo `256` to the length of the chunk.
pub proof fn lemma_sub_index_closed_form(digest: u64, size: FilterSize, i: nat)
    requires
        i < chunk_count(size),
    ensures
        sub_index(digest, size, i) == (digest as nat / pow256((8 - chunk_end(size, i)) as nat))
            % pow256(chunk_len(size, i)),
{
    lemma_chunk_bounds(size, i);
    lemma_be_value_range(digest, chunk_start(size, i), chunk_end(size, i));
}

/// The eight bytes together spell the digest: with eight bytes to a position
/// the one position of a digest is the digest itself.
pub proof fn lemma_whole_digest(digest: u64)
    ensures
        be_value(be_bytes(digest)) == digest,
        chunk_count(FilterSize::KeyBytes8) == 1,
        sub_index(digest, FilterSize::KeyBytes8, 0) == digest,
{
    lemma_chunk_count(FilterSize::KeyBytes8);
    lemma_pow256_values();
    lemma_be_value_range(digest, 0, 8);
    let whole = be_bytes(digest).subrange(0, 8);
    assert(whole =~= be_bytes(digest));
    assert(be_value(whole) == (digest as nat / pow256(0)) % pow256(8));
    assert(digest as nat / 1 == digest);
    assert(digest as nat % 0x1_0000_0000_0000_0000 == digest);
    assert(chunk_start(FilterSize::KeyBytes8, 0) == 0);
    assert(chunk(digest, FilterSize::KeyBytes8, 0) =~= be_bytes(digest));
}

/// A digest of eight bytes gives eight over `k` positions, rounded up. All
/// chunks but the last have `k` bytes and the last has what is left of the
/// eight. Each position is below `256` to the length of its chunk: all of
/// them lie in the address space of the size, and the last one, where its
/// chunk is shorter, in a smaller one.
pub proof fn lemma_sub_indices_shape(digest: u64, size: FilterSize)
    ensures
        sub_indices(digest, size).len() == chunk_count(size),
        (chunk_count(size) - 1) * size.width() < 8 <= chunk_count(size) * size.width(),
        forall|i: nat| i + 1 < chunk_count(size) ==> #[trigger] chunk_len(size, i) == size.width(),
        chunk_len(size, (chunk_count(size) - 1) as nat) == 8 - (chunk_count(size) - 1)
            * size.width(),
        forall|i: nat|
            i < chunk_count(size) ==> (#[trigger] sub_index(digest, size, i)) < pow256(
                chunk_len(size, i),
            ),
        forall|i: nat|
            i < chunk_count(size) ==> pow256(#[trigger] chunk_len(size, i)) <= size.positions(),
{
    lemma_chunk_count(size);
    assert forall|i: nat| i + 1 < chunk_count(size) implies #[trigger] chunk_len(size, i)
        == size.width() by {
        lemma_chunk_bounds(size, i);
    }
    lemma_chunk_bounds(size, (chunk_count(size) - 1) as nat);
    assert forall|i: nat| i < chunk_count(size) implies (#[trigger] sub_index(digest, size, i))
        < pow256(chunk_len(size, i)) by {
        lemma_sub_index_bound(digest, size, i);
    }
    assert forall|i: nat| i < chunk_count(size) implies pow256(#[trigger] chunk_len(size, i))
        <= size.positions() by {
        lemma_sub_index_bound(digest, size, i);
    }
}

/// Byte `i` of the eight bytes of `digest`, where `unit` is `256^(7 - i)`.
proof fn lemma_be_byte(digest: u64, i: int, unit: nat)
    requires
        0 <= i < 8,
        unit == pow256((7 - i) as nat),
    ensures
        be_bytes(digest).len() == 8,
        be_bytes(digest)[i] == ((digest as nat / unit) % 256) as u8,
{
}

/// The eight bytes of `digest`, most significant first.
pub fn to_be_bytes(digest: u64) -> (bytes: [u8; 8])
    ensures
        bytes@ == be_bytes(digest),
{
    let bytes = [
        (digest / 0x100_0000_0000_0000) as u8,
        ((digest / 0x1_0000_0000_0000) % 256) as u8,
        ((digest / 0x100_0000_0000) % 256) as u8,
        ((digest / 0x1_0000_0000) % 256) as u8,
        ((digest / 0x100_0000) % 256) as u8,
        ((digest / 0x1_0000) % 256) as u8,
        ((digest / 0x100) % 256) as u8,
        (digest % 256) as u8,
    ];
    proof {
        lemma_pow256_values();
        lemma_be_byte(digest, 0, 0x100_0000_0000_0000);
        lemma_be_byte(digest, 1, 0x1_0000_0000_0000);
        lemma_be_byte(digest, 2, 0x100_0000_0000);
        lemma_be_byte(digest, 3, 0x1_0000_0000);
        lemma_be_byte(digest, 4, 0x100_0000);
        lemma_be_byte(digest, 5, 0x1_0000);
        lemma_be_byte(digest, 6, 0x100);
        lemma_be_byte(digest, 7, 1);
        assert(bytes@ =~= be_bytes(digest));
    }
    bytes
}

/// The number of positions that one digest gives for `size`.
pub fn chunks_per_digest(size: FilterSize) -> (n: usize)
    ensures
        n == chunk_count(size),
        1 <= n <= 8,
{
    proof {
        lemma_chunk_count(size);
    }
    let k = size.key_bytes();
    (8 + k - 1) / k
}

/// The position that chunk `i` of `digest` spells.
pub fn sub_index_at(digest: u64, size: FilterSize, i: usize) -> (key: usize)
    requires
        i < chunk_count(size),
        size.fits_word(),
    ensures
        key == sub_index(digest, size, i as nat),
        key < size.positions(),
{
    let k = size.key_bytes();
    proof {
        lemma_chunk_bounds(size, i as nat);
    }
    let start = i * k;
    let end = if start + k <= 8 {
        start + k
    } else {
        8
    };
    assert(start == chunk_start(size, i as nat) && end == chunk_end(size, i as nat));
    let bytes = to_be_bytes(digest);
    let mut key: usize = 0;
    let mut j = start;
    while j < end
        invariant
            start <= j <= end <= 8,
            end - start <= size.width(),
            size.fits_word(),
            bytes@ == be_bytes(digest),
            key == be_value(be_bytes(digest).subrange(start as int, j as int)),
        decreases end - j,
    {
        proof {
            let sofar = be_bytes(digest).subrange(start as int, j as int);
            let next = be_bytes(digest).subrange(start as int, j + 1);
            assert(next.drop_last() =~= sofar);
            lemma_be_value_bound(next);
            lemma_pow256_monotonic(next.len(), size.width());
        }
        key = key * 256 + bytes[j] as usize;
        j += 1;
    }
    proof {
        lemma_sub_index_bound(digest, size, i as nat);
    }
    key
}

/// The positions of `digest`, in the order of its chunks.
pub fn positions_of(digest: u64, size: FilterSize) -> (keys: Vec<usize>)
    requires
        size.fits_word(),
    ensures
        keys@.len() == chunk_count(size),
        forall|i: int| 0 <= i < keys@.len() ==> keys@[i] == sub_indices(digest, size)[i],
        forall|i: int| 0 <= i < keys@.len() ==> keys@[i] < size.positions(),
{
    let n = chunks_per_digest(size);
    let mut keys: Vec<usize> = Vec::with_capacity(n);
    let mut i: usize = 0;
    while i < n
        invariant
            i <= n == chunk_count(size),
            size.fits_word(),
            keys@.len() == i,
            forall|j: int| 0 <= j < i ==> keys@[j] == sub_index(digest, size, j as nat),
            forall|j: int| 0 <= j < i ==> keys@[j] < size.positions(),
        decreases n - i,
    {
        let key = sub_index_at(digest, size, i);
        keys.push(key);
        i += 1;
    }
    keys
}

} // verus!
