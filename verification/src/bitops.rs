//! Masks over 64-bit words. Bit 0 of a word is its most significant bit.

use vstd::prelude::*;

verus! {

/// The word whose only set bit is bit `k`, counted from the most significant
/// end. It is zero when `k` is 64 or more.
pub open spec fn bit_mask(k: u64) -> u64 {
    if k < 64 {
        0x8000_0000_0000_0000u64 >> k
    } else {
        0
    }
}

/// Whether bit `k` of `w` is set, counted from the most significant end.
pub open spec fn bit_at(w: u64, k: u64) -> bool {
    w & bit_mask(k) != 0
}

/// `n` capped at 64.
pub open spec fn cap64(n: u32) -> u64 {
    if n > 64 {
        64
    } else {
        n as u64
    }
}

/// The word whose top `n` bits are set and whose other bits are clear.
pub open spec fn leading_ones(n: u64) -> u64 {
    if n == 0 {
        0
    } else if n >= 64 {
        u64::MAX
    } else {
        !(u64::MAX >> n)
    }
}

/// The word whose bottom `n` bits are set and whose other bits are clear.
pub open spec fn trailing_ones(n: u64) -> u64 {
    if n == 0 {
        0
    } else if n >= 64 {
        u64::MAX
    } else {
        !(u64::MAX << n)
    }
}

/// Bit `k` of `leading_ones(n)` is set exactly when `k < n`.
pub proof fn lemma_leading_ones_bits(n: u64, k: u64)
    requires
        n <= 64,
        k < 64,
    ensures
        bit_at(leading_ones(n), k) == (k < n),
{
    assert(bit_at(leading_ones(n), k) == (k < n)) by (bit_vector)
        requires
            n <= 64,
            k < 64,
    ;
}

/// Bit `k` of `trailing_ones(n)` is set exactly when it is among the last `n`.
pub proof fn lemma_trailing_ones_bits(n: u64, k: u64)
    requires
        n <= 64,
        k < 64,
    ensures
        bit_at(trailing_ones(n), k) == (k + n >= 64),
{
    assert(bit_at(trailing_ones(n), k) == (k + n >= 64)) by (bit_vector)
        requires
            n <= 64,
            k < 64,
    ;
}

/// Bit `k` of `bit_mask(i)` is set exactly when `k == i`.
pub proof fn lemma_bit_mask_bits(i: u64, k: u64)
    requires
        i < 64,
        k < 64,
    ensures
        bit_at(bit_mask(i), k) == (k == i),
{
    assert(bit_at(bit_mask(i), k) == (k == i)) by (bit_vector)
        requires
            i < 64,
            k < 64,
    ;
}

/// The mask with the top `n` bits set; `n` above 64 counts as 64.
pub fn leading_ones_mask(n: u32) -> (r: u64)
    ensures
        r == leading_ones(cap64(n)),
        forall|k: u64| k < 64 ==> #[trigger] bit_at(r, k) == (k < cap64(n)),
{
    let n: u32 = if n > 64 { 64 } else { n };
    let r: u64 = if n == 0 {
        0
    } else {
        u64::MAX << (64 - n)
    };
    proof {
        let m: u64 = n as u64;
        assert(m != 0 ==> u64::MAX << ((64 - m) as u64) == leading_ones(m)) by (bit_vector)
            requires
                m <= 64,
        ;
        assert forall|k: u64| k < 64 implies #[trigger] bit_at(r, k) == (k < m) by {
            lemma_leading_ones_bits(m, k);
        }
    }
    r
}

/// The mask with the bottom `n` bits set; `n` above 64 counts as 64.
pub fn trailing_ones_mask(n: u32) -> (r: u64)
    ensures
        r == trailing_ones(cap64(n)),
        forall|k: u64| k < 64 ==> #[trigger] bit_at(r, k) == (k + cap64(n) >= 64),
{
    let n: u32 = if n > 64 { 64 } else { n };
    let r: u64 = if n == 0 {
        0
    } else {
        u64::MAX >> (64 - n)
    };
    proof {
        let m: u64 = n as u64;
        assert(m != 0 ==> u64::MAX >> ((64 - m) as u64) == trailing_ones(m)) by (bit_vector)
            requires
                m <= 64,
        ;
        assert forall|k: u64| k < 64 implies #[trigger] bit_at(r, k) == (k + m >= 64) by {
            lemma_trailing_ones_bits(m, k);
        }
    }
    r
}

/// The union of the top `leading` bits and the bottom `trailing` bits.
pub fn ones_mask(leading: u32, trailing: u32) -> (r: u64)
    ensures
        r == leading_ones(cap64(leading)) | trailing_ones(cap64(trailing)),
        forall|k: u64|
            k < 64 ==> #[trigger] bit_at(r, k) == (k < cap64(leading) || k + cap64(trailing)
                >= 64),
{
    let left = leading_ones_mask(leading);
    let right = trailing_ones_mask(trailing);
    let r = left | right;
    proof {
        assert forall|k: u64| k < 64 implies #[trigger] bit_at(r, k) == (k < cap64(leading) || k
            + cap64(trailing) >= 64) by {
            assert(bit_at(left, k) == (k < cap64(leading)));
            assert(bit_at(right, k) == (k + cap64(trailing) >= 64));
            assert(bit_at(left | right, k) == (bit_at(left, k) || bit_at(right, k)))
                by (bit_vector);
        }
    }
    r
}

/// The mask whose only set bit is bit `idx`; `idx` above 63 counts as 63.
pub fn single_one_mask(idx: u32) -> (r: u64)
    ensures
        r == bit_mask(if idx > 63 { 63u64 } else { idx as u64 }),
        forall|k: u64|
            k < 64 ==> #[trigger] bit_at(r, k) == (k == (if idx > 63 {
                63u64
            } else {
                idx as u64
            })),
{
    let idx: u32 = if idx > 63 { 63 } else { idx };
    let r: u64 = 0x8000000000000000u64 >> idx;
    proof {
        let m: u64 = idx as u64;
        assert forall|k: u64| k < 64 implies #[trigger] bit_at(r, k) == (k == m) by {
            lemma_bit_mask_bits(m, k);
        }
    }
    r
}

/// The top `n` bits of `b`, the others cleared.
pub fn first_bits(n: u32, b: u64) -> (r: u64)
    ensures
        r == b & leading_ones(cap64(n)),
        forall|k: u64| k < 64 ==> #[trigger] bit_at(r, k) == (k < cap64(n) && bit_at(b, k)),
{
    let m = leading_ones_mask(n);
    let r = b & m;
    proof {
        assert forall|k: u64| k < 64 implies #[trigger] bit_at(r, k) == (k < cap64(n) && bit_at(
            b,
            k,
        )) by {
            assert(bit_at(m, k) == (k < cap64(n)));
            assert(bit_at(b & m, k) == (bit_at(b, k) && bit_at(m, k))) by (bit_vector);
        }
    }
    r
}

/// The bottom `n` bits of `b`, the others cleared.
pub fn last_bits(n: u32, b: u64) -> (r: u64)
    ensures
        r == b & trailing_ones(cap64(n)),
        forall|k: u64| k < 64 ==> #[trigger] bit_at(r, k) == (k + cap64(n) >= 64 && bit_at(b, k)),
{
    let m = trailing_ones_mask(n);
    let r = b & m;
    proof {
        assert forall|k: u64| k < 64 implies #[trigger] bit_at(r, k) == (k + cap64(n) >= 64
            && bit_at(b, k)) by {
            assert(bit_at(m, k) == (k + cap64(n) >= 64));
            assert(bit_at(b & m, k) == (bit_at(b, k) && bit_at(m, k))) by (bit_vector);
        }
    }
    r
}

} // verus!
