//! The sizing policy of a filter.

use vstd::prelude::*;

verus! {

/// `256` to the power `n`: the number of values that `n` bytes can take.
pub open spec fn pow256(n: nat) -> nat
    decreases n,
{
    if n == 0 {
        1
    } else {
        256 * pow256((n - 1) as nat)
    }
}

/// The values of `pow256` on the widths that occur in an eight-byte digest.
pub proof fn lemma_pow256_values()
    ensures
        pow256(0) == 1,
        pow256(1) == 0x100,
        pow256(2) == 0x1_0000,
        pow256(3) == 0x100_0000,
        pow256(4) == 0x1_0000_0000,
        pow256(5) == 0x100_0000_0000,
        pow256(6) == 0x1_0000_0000_0000,
        pow256(7) == 0x100_0000_0000_0000,
        pow256(8) == 0x1_0000_0000_0000_0000,
{
    reveal_with_fuel(pow256, 9);
}

/// `pow256` grows with its argument.
pub proof fn lemma_pow256_monotonic(a: nat, b: nat)
    requires
        a <= b,
    ensures
        0 < pow256(a) <= pow256(b),
    decreases b,
{
    if b == 0 {
    } else if a < b {
        lemma_pow256_monotonic(a, (b - 1) as nat);
    } else {
        lemma_pow256_monotonic((a - 1) as nat, (b - 1) as nat);
    }
}

/// How many bytes of a hash digest make up one bit position.
///
/// A filter of width `k` addresses `256^k` positions: a larger width gives
/// fewer collisions between unrelated values and fewer positions per value.
#[derive(Debug, Clone, Copy, PartialEq, Eq, Hash, Structural)]
pub enum FilterSize {
    /// One byte per position: 256 positions.
    KeyBytes1,
    /// Two bytes per position: 65,536 positions.
    KeyBytes2,
    /// Three bytes per position.
    KeyBytes3,
    /// Four bytes per position.
    KeyBytes4,
    /// Five bytes per position.
    KeyBytes5,
    /// Six bytes per position.
    KeyBytes6,
    /// Seven bytes per position.
    KeyBytes7,
    /// Eight bytes per position: the whole digest is one position.
    KeyBytes8,
}

impl FilterSize {
    /// The byte-width `k`.
    pub open spec fn width(self) -> nat {
        match self {
            FilterSize::KeyBytes1 => 1,
            FilterSize::KeyBytes2 => 2,
            FilterSize::KeyBytes3 => 3,
            FilterSize::KeyBytes4 => 4,
            FilterSize::KeyBytes5 => 5,
            FilterSize::KeyBytes6 => 6,
            FilterSize::KeyBytes7 => 7,
            FilterSize::KeyBytes8 => 8,
        }
    }

    /// The number of positions that a filter of this size addresses, `256^k`.
    pub open spec fn positions(self) -> nat {
        pow256(self.width())
    }

    /// Whether every position of this size fits a machine word.
    pub open spec fn fits_word(self) -> bool {
        self.positions() <= usize::MAX + 1
    }

    /// Whether every position of this size fits a machine word: `true` for
    /// every size on a machine with words of 64 bits, for up to four bytes
    /// with words of 32 bits.
    pub fn is_addressable(self) -> (fits: bool)
        ensures
            fits == self.fits_word(),
    {
        proof {
            lemma_pow256_values();
        }
        self.key_bytes() <= (usize::BITS / 8) as usize
    }

    /// The byte-width `k`.
    pub fn key_bytes(self) -> (k: usize)
        ensures
            k == self.width(),
            1 <= k <= 8,
    {
        match self {
            FilterSize::KeyBytes1 => 1,
            FilterSize::KeyBytes2 => 2,
            FilterSize::KeyBytes3 => 3,
            FilterSize::KeyBytes4 => 4,
            FilterSize::KeyBytes5 => 5,
            FilterSize::KeyBytes6 => 6,
            FilterSize::KeyBytes7 => 7,
            FilterSize::KeyBytes8 => 8,
        }
    }
}

} // verus!
