//! A growable bit vector over 64-bit words with rank and select.
//!
//! Bit 0 is the most significant bit of word 0. The view of a bitmap is the
//! sequence of its addressable bits; bits past the end read as zero.

use crate::bitops::{bit_at, bit_mask, leading_ones, leading_ones_mask, ones_mask, single_one_mask};
use vstd::prelude::*;

verus! {

/// Why a bitmap operation was refused.
#[derive(Debug, PartialEq, Eq, Structural, Clone, Copy)]
pub enum BitmapError {
    /// The bit index is not below the capacity (or, for `rank`, the length).
    OutOfBounds,
    /// The bit value asked for is neither 0 nor 1.
    InvalidValue,
    /// The count handed to `select` is zero or above the length.
    InvalidCount,
    /// Fewer bits of the wanted value exist than were asked for.
    NotFound,
}

impl BitmapError {
    /// The text that says what was refused.
    pub open spec fn message_of(self) -> Seq<char> {
        match self {
            BitmapError::OutOfBounds => "Invalid index. Must be in range [0, capacity - 1]"@,
            BitmapError::InvalidValue => "Val must be one of 0, 1"@,
            BitmapError::InvalidCount => "Nth must be in [1, length]"@,
            BitmapError::NotFound => "Bitmap only contained nth bits of value val"@,
        }
    }

    /// The text that says what was refused.
    pub fn message(&self) -> (r: String)
        ensures
            r@ == self.message_of(),
    {
        match self {
            BitmapError::OutOfBounds => {
                "Invalid index. Must be in range [0, capacity - 1]".to_owned()
            },
            BitmapError::InvalidValue => "Val must be one of 0, 1".to_owned(),
            BitmapError::InvalidCount => "Nth must be in [1, length]".to_owned(),
            BitmapError::NotFound => "Bitmap only contained nth bits of value val".to_owned(),
        }
    }
}

/// The least multiple of 64 that is at least `n`.
pub open spec fn round_up64(n: int) -> int {
    ((n + 63) / 64) * 64
}

/// The bit at `i`, or zero where `i` is outside the sequence.
pub open spec fn bit_or_zero(bits: Seq<bool>, i: int) -> bool {
    0 <= i < bits.len() && bits[i]
}

/// The number of positions below `n` at which the (zero-extended) sequence
/// holds the value `v`.
pub open spec fn count(bits: Seq<bool>, v: bool, n: int) -> nat
    decreases n,
{
    if n <= 0 {
        0
    } else {
        count(bits, v, n - 1) + if bit_or_zero(bits, n - 1) == v {
            1nat
        } else {
            0nat
        }
    }
}

/// The number of bits equal to `v` at positions `0..=i`.
pub open spec fn rank_of(bits: Seq<bool>, v: bool, i: int) -> nat {
    count(bits, v, i + 1)
}

/// `i` is the position of the `n`-th bit of value `v`.
pub open spec fn is_select(bits: Seq<bool>, v: bool, n: int, i: int) -> bool {
    &&& 0 <= i < bits.len()
    &&& bits[i] == v
    &&& rank_of(bits, v, i) == n
}

/// The position of the `n`-th bit of value `v`, if there is one.
pub open spec fn select_of(bits: Seq<bool>, v: bool, n: int) -> Option<int> {
    if exists|i: int| is_select(bits, v, n, i) {
        Some(choose|i: int| is_select(bits, v, n, i))
    } else {
        None
    }
}

/// `len` zero bits.
pub open spec fn zeros(len: int) -> Seq<bool> {
    Seq::new(len as nat, |i: int| false)
}

/// The sequence after it has been made to reach bit `b`: unchanged where `b`
/// is inside, else extended with zero bits to the next multiple of 64.
pub open spec fn grown(bits: Seq<bool>, b: int) -> Seq<bool> {
    if b < bits.len() {
        bits
    } else {
        bits + zeros(round_up64(b + 1) - bits.len())
    }
}

/// The sequence after a write of `v` at `b`, growing first where needed.
pub open spec fn with_bit(bits: Seq<bool>, b: int, v: bool) -> Seq<bool> {
    grown(bits, b).update(b, v)
}

/// The sequence after each index of `idxs` has been set, in order.
pub open spec fn with_bits_set(bits: Seq<bool>, idxs: Seq<int>) -> Seq<bool>
    decreases idxs.len(),
{
    if idxs.len() == 0 {
        bits
    } else {
        with_bit(with_bits_set(bits, idxs.drop_last()), idxs.last(), true)
    }
}

/// The number of set bits among the top `n` bits of `w`.
pub open spec fn ones_in(w: u64, n: nat) -> nat
    decreases n,
{
    if n == 0 {
        0
    } else {
        ones_in(w, (n - 1) as nat) + if bit_at(w, (n - 1) as u64) {
            1nat
        } else {
            0nat
        }
    }
}

/// `u64::count_ones` returns the number of set bits of the word, which is
/// what `ones_in` counts over all 64 positions.
pub assume_specification[ u64::count_ones ](w: u64) -> (r: u32)
    ensures
        r == ones_in(w, 64),
;

/// Among `n` bits no more than `n` are set.
pub proof fn lemma_ones_in_bound(w: u64, n: nat)
    ensures
        ones_in(w, n) <= n,
    decreases n,
{
    if n > 0 {
        lemma_ones_in_bound(w, (n - 1) as nat);
    }
}

/// Masking a word to its top `m` bits keeps the ones among them and no others.
pub proof fn lemma_ones_in_masked(w: u64, m: nat, n: nat)
    requires
        m <= 64,
        n <= 64,
    ensures
        ones_in(w & leading_ones(m as u64), n) == ones_in(w, if n <= m { n } else { m }),
    decreases n,
{
    if n > 0 {
        lemma_ones_in_masked(w, m, (n - 1) as nat);
        let k = (n - 1) as u64;
        let mm = m as u64;
        assert(bit_at(w & leading_ones(mm), k) == (k < mm && bit_at(w, k))) by (bit_vector)
            requires
                k < 64,
                mm <= 64,
        ;
    }
}

/// Below `n` there are no more than `n` positions to count.
pub proof fn lemma_count_bound(bits: Seq<bool>, v: bool, n: int)
    ensures
        count(bits, v, n) <= if n < 0 { 0 } else { n },
    decreases n,
{
    if n > 0 {
        lemma_count_bound(bits, v, n - 1);
    }
}

/// The count grows with the bound, by no more than the bound does.
pub proof fn lemma_count_monotone(bits: Seq<bool>, v: bool, m: int, n: int)
    requires
        m <= n,
    ensures
        count(bits, v, m) <= count(bits, v, n),
        count(bits, v, n) - count(bits, v, m) <= n - m,
    decreases n - m,
{
    if m < n {
        lemma_count_monotone(bits, v, m, n - 1);
    }
}

/// Sequences that agree (zero-extended) below `n` have the same counts there.
pub proof fn lemma_count_agree(a: Seq<bool>, b: Seq<bool>, v: bool, n: int)
    requires
        forall|j: int| 0 <= j < n ==> bit_or_zero(a, j) == bit_or_zero(b, j),
    ensures
        count(a, v, n) == count(b, v, n),
    decreases n,
{
    if n > 0 {
        lemma_count_agree(a, b, v, n - 1);
    }
}

/// Past the end of the sequence there are no ones.
pub proof fn lemma_count_ones_past_end(bits: Seq<bool>, n: int)
    requires
        n >= bits.len(),
    ensures
        count(bits, true, n) == count(bits, true, bits.len() as int),
    decreases n,
{
    if n > bits.len() {
        lemma_count_ones_past_end(bits, n - 1);
    }
}

/// Growing a sequence changes no bit of its zero extension.
pub proof fn lemma_grown_bits(bits: Seq<bool>, b: int)
    requires
        0 <= b,
    ensures
        forall|j: int| bit_or_zero(grown(bits, b), j) == bit_or_zero(bits, j),
        grown(bits, b).len() >= bits.len(),
        b < grown(bits, b).len(),
        grown(bits, b).len() == if b < bits.len() { bits.len() as int } else { round_up64(b + 1) },
        bits.len() % 64 == 0 ==> grown(bits, b).len() % 64 == 0,
{
}

/// What a write changes: the bit written, and no other.
pub proof fn lemma_with_bit_bits(bits: Seq<bool>, b: int, v: bool)
    requires
        0 <= b,
    ensures
        forall|j: int|
            bit_or_zero(with_bit(bits, b, v), j) == if j == b { v } else { bit_or_zero(bits, j) },
        with_bit(bits, b, v).len() == grown(bits, b).len(),
{
    lemma_grown_bits(bits, b);
}

/// A bit vector that grows on demand up to a fixed capacity.
#[derive(Debug, PartialEq)]
pub struct Bitmap {
    /// The bit indices that may be addressed are those below `capacity`.
    pub capacity: usize,
    /// The number of bits currently held: 64 for each word of `data`.
    pub length: usize,
    /// The words, bit 0 being the most significant bit of word 0.
    pub data: Vec<u64>,
}

impl View for Bitmap {
    type V = Seq<bool>;

    open spec fn view(&self) -> Seq<bool> {
        Seq::new(self.length as nat, |i: int| bit_at(self.data@[i / 64], (i % 64) as u64))
    }
}

impl Clone for Bitmap {
    fn clone(&self) -> (r: Self)
        ensures
            r.capacity == self.capacity,
            r.length == self.length,
            r.data@ == self.data@,
            r@ == self@,
            self.wf() ==> r.wf(),
    {
        let data = self.data.clone();
        assert(data@ =~= self.data@);
        Bitmap { capacity: self.capacity, length: self.length, data }
    }
}

impl Bitmap {
    /// The length counts exactly the bits of the words held, and the
    /// capacity rounded up to whole words is a machine integer.
    pub open spec fn wf(&self) -> bool {
        &&& self.length == 64 * self.data@.len()
        &&& round_up64(self.capacity as int) <= usize::MAX
    }

    /// In a word of the bitmap, the count over its first `n` bits continues
    /// the count over the words before it.
    pub proof fn lemma_count_in_word(&self, v: bool, k: int, n: int)
        requires
            self.wf(),
            0 <= k < self.data@.len(),
            0 <= n <= 64,
        ensures
            count(self@, v, 64 * k + n) == count(self@, v, 64 * k) + if v {
                ones_in(self.data@[k], n as nat) as int
            } else {
                n - ones_in(self.data@[k], n as nat)
            },
        decreases n,
    {
        if n > 0 {
            self.lemma_count_in_word(v, k, n - 1);
            let i = 64 * k + n - 1;
            assert(i / 64 == k && i % 64 == n - 1);
            assert(self@[i] == bit_at(self.data@[k], (n - 1) as u64));
        }
    }

    /// A bitmap of `size` bits, rounded up to whole words and all zero, that
    /// may grow to `capacity` bits.
    pub fn new(size: usize, capacity: usize) -> (r: Self)
        requires
            round_up64(size as int) <= usize::MAX,
            round_up64(capacity as int) <= usize::MAX,
        ensures
            r.wf(),
            r.capacity == capacity,
            r@ == zeros(round_up64(size as int)),
    {
        let data_size: usize = size / 64 + if size % 64 == 0 { 0 } else { 1 };
        let data_capacity: usize = capacity / 64 + if capacity % 64 == 0 { 0 } else { 1 };
        let mut data: Vec<u64> = Vec::with_capacity(data_capacity);
        data.resize(data_size, 0);
        let r = Bitmap { capacity, length: data_size * 64, data };
        proof {
            assert forall|i: int| 0 <= i < r.length implies !#[trigger] r@[i] by {
                let w = r.data@[i / 64];
                let k = (i % 64) as u64;
                assert(w == 0);
                assert(!bit_at(0u64, k)) by (bit_vector);
            }
            assert(r@ =~= zeros(round_up64(size as int)));
        }
        r
    }

    /// Makes the bitmap reach `bit` bits, capped at the capacity, by adding
    /// zero words. It never shrinks.
    pub fn resize(&mut self, bit: usize)
        requires
            old(self).wf(),
        ensures
            final(self).wf(),
            final(self).capacity == old(self).capacity,
            final(self)@.len() == resized_len(
                old(self)@.len() as int,
                old(self).capacity as int,
                bit as int,
            ),
            final(self)@ == old(self)@ + zeros(final(self)@.len() - old(self)@.len()),
    {
        if bit < self.length {
            assert(self@ =~= old(self)@ + zeros(0));
            return ;
        }
        let bit: usize = if bit < self.capacity { bit } else { self.capacity };
        let new_length: usize = bit / 64 + if bit % 64 == 0 { 0 } else { 1 };
        if new_length <= self.data.len() {
            assert(self@ =~= old(self)@ + zeros(0));
            return ;
        }
        self.data.resize(new_length, 0);
        self.length = new_length * 64;
        proof {
            let old_len = old(self)@.len() as int;
            assert forall|i: int| 0 <= i < self.length implies #[trigger] self@[i] == (old(self)@
                + zeros(self.length - old_len))[i] by {
                let k = (i % 64) as u64;
                if i < old_len {
                    assert(self.data@.subrange(0, old(self).data@.len() as int)[i / 64]
                        == self.data@[i / 64]);
                } else {
                    assert(self.data@[i / 64] == 0);
                    assert(!bit_at(0u64, k)) by (bit_vector);
                }
            }
            assert(self@ =~= old(self)@ + zeros(self.length - old_len));
        }
    }

    /// Sets bit `bit` to one, growing the bitmap first where `bit` is past
    /// its end. Refused where `bit` is not below the capacity.
    pub fn set(&mut self, bit: usize) -> (r: Result<(), BitmapError>)
        requires
            old(self).wf(),
        ensures
            final(self).wf(),
            final(self).capacity == old(self).capacity,
            bit >= old(self).capacity ==> r == Err::<(), BitmapError>(BitmapError::OutOfBounds)
                && *final(self) == *old(self),
            bit < old(self).capacity ==> r is Ok && final(self)@ == with_bit(
                old(self)@,
                bit as int,
                true,
            ),
    {
        if bit >= self.capacity {
            return Err(BitmapError::OutOfBounds);
        }
        if bit >= self.length {
            self.resize(bit + 1);
        }
        let ghost mid = self@;
        assert(mid =~= grown(old(self)@, bit as int));
        let idx = bit / 64;
        let offset = bit % 64;
        let mask = single_one_mask(offset as u32);
        let w = self.data[idx];
        self.data.set(idx, w | mask);
        proof {
            assert forall|i: int| 0 <= i < self.length implies #[trigger] self@[i] == mid.update(
                bit as int,
                true,
            )[i] by {
                let k = (i % 64) as u64;
                if i / 64 == idx {
                    let o = offset as u64;
                    assert(bit_at(w | bit_mask(o), k) == (bit_at(w, k) || k == o))
                        by (bit_vector)
                        requires
                            k < 64,
                            o < 64,
                    ;
                }
            }
            assert(self@ =~= with_bit(old(self)@, bit as int, true));
        }
        Ok(())
    }

    /// Sets bit `bit` to zero, growing the bitmap first where `bit` is past
    /// its end. Refused where `bit` is not below the capacity.
    pub fn unset(&mut self, bit: usize) -> (r: Result<(), BitmapError>)
        requires
            old(self).wf(),
        ensures
            final(self).wf(),
            final(self).capacity == old(self).capacity,
            bit >= old(self).capacity ==> r == Err::<(), BitmapError>(BitmapError::OutOfBounds)
                && *final(self) == *old(self),
            bit < old(self).capacity ==> r is Ok && final(self)@ == with_bit(
                old(self)@,
                bit as int,
                false,
            ),
    {
        if bit >= self.capacity {
            return Err(BitmapError::OutOfBounds);
        }
        if bit >= self.length {
            self.resize(bit + 1);
        }
        let ghost mid = self@;
        assert(mid =~= grown(old(self)@, bit as int));
        let idx = bit / 64;
        let offset = bit % 64;
        let mask = ones_mask(offset as u32, (64 - offset - 1) as u32);
        let w = self.data[idx];
        self.data.set(idx, w & mask);
        proof {
            assert forall|i: int| 0 <= i < self.length implies #[trigger] self@[i] == mid.update(
                bit as int,
                false,
            )[i] by {
                let k = (i % 64) as u64;
                if i / 64 == idx {
                    let o = offset as u64;
                    assert(bit_at(mask, k) == (k < o || k + (63 - o) >= 64));
                    assert(bit_at(w & mask, k) == (bit_at(w, k) && bit_at(mask, k)))
                        by (bit_vector);
                }
            }
            assert(self@ =~= with_bit(old(self)@, bit as int, false));
        }
        Ok(())
    }

    /// Reads bit `bit` as 0 or 1, growing the bitmap first where `bit` is past
    /// its end. Refused where `bit` is not below the capacity.
    pub fn get(&mut self, bit: usize) -> (r: Result<u8, BitmapError>)
        requires
            old(self).wf(),
        ensures
            final(self).wf(),
            final(self).capacity == old(self).capacity,
            bit >= old(self).capacity ==> r == Err::<u8, BitmapError>(BitmapError::OutOfBounds)
                && *final(self) == *old(self),
            bit < old(self).capacity ==> r == Ok::<u8, BitmapError>(
                if bit_or_zero(old(self)@, bit as int) {
                    1u8
                } else {
                    0u8
                },
            ) && final(self)@ == grown(old(self)@, bit as int),
    {
        if bit >= self.capacity {
            return Err(BitmapError::OutOfBounds);
        }
        if bit >= self.length {
            self.resize(bit + 1);
        }
        assert(self@ =~= grown(old(self)@, bit as int));
        Ok(self.peek(bit))
    }

    /// Reads bit `bit` as 0 or 1 without growing: a bit past the end is zero.
    pub fn peek(&self, bit: usize) -> (r: u8)
        requires
            self.wf(),
        ensures
            r == if bit_or_zero(self@, bit as int) {
                1u8
            } else {
                0u8
            },
    {
        if bit >= self.length {
            return 0;
        }
        let idx = bit / 64;
        let offset = bit % 64;
        let mask = single_one_mask(offset as u32);
        let w = self.data[idx];
        let val = (w & mask) >> (64 - offset - 1);
        proof {
            let o = offset as u64;
            assert(((w & bit_mask(o)) >> ((63 - o) as u64)) == if bit_at(w, o) {
                1u64
            } else {
                0u64
            }) by (bit_vector)
                requires
                    o < 64,
            ;
            assert(self@[bit as int] == bit_at(w, o));
        }
        val as u8
    }

    /// The number of bits equal to `val` at positions `0..=idx`.
    pub fn rank(&mut self, val: u8, idx: usize) -> (r: Result<usize, BitmapError>)
        requires
            old(self).wf(),
        ensures
            *final(self) == *old(self),
            idx >= old(self).length ==> r == Err::<usize, BitmapError>(BitmapError::OutOfBounds),
            idx < old(self).length && val > 1 ==> r == Err::<usize, BitmapError>(
                BitmapError::InvalidValue,
            ),
            idx < old(self).length && val <= 1 ==> r is Ok && r->Ok_0 == rank_of(
                old(self)@,
                val == 1,
                idx as int,
            ),
    {
        if idx >= self.length {
            return Err(BitmapError::OutOfBounds);
        }
        if val != 0 && val != 1 {
            return Err(BitmapError::InvalidValue);
        }
        let check_ones = val == 1;
        let mut count: usize = 0;
        let mut i: usize = 0;
        while i <= idx
            invariant
                self.wf(),
                *self == *old(self),
                idx < self.length,
                check_ones == (val == 1),
                i % 64 == 0,
                i <= self.length,
                i <= idx ==> count == crate::bitmap::count(self@, check_ones, i as int),
                i > idx ==> count == crate::bitmap::count(self@, check_ones, idx + 1),
            decreases self.length - i,
        {
            let full_block = i + 63 < idx;
            let w = self.data[i / 64];
            proof {
                lemma_count_bound(self@, check_ones, i as int);
                lemma_ones_in_bound(w, 64);
            }
            let ones_count: usize = if full_block {
                proof {
                    self.lemma_count_in_word(check_ones, (i / 64) as int, 64);
                }
                w.count_ones() as usize
            } else {
                let mask = leading_ones_mask((idx - i + 1) as u32);
                proof {
                    let m = (idx - i + 1) as nat;
                    lemma_ones_in_masked(w, m, 64);
                    lemma_ones_in_bound(w, m);
                    self.lemma_count_in_word(check_ones, (i / 64) as int, m as int);
                }
                (w & mask).count_ones() as usize
            };
            if check_ones {
                count += ones_count;
            } else if full_block {
                count += 64 - ones_count;
            } else {
                count += idx - i + 1 - ones_count;
            }
            i += 64;
        }
        Ok(count)
    }

    /// The position of the `nth` bit of value `val`, counting from one.
    pub fn select(&mut self, val: u8, nth: usize) -> (r: Result<usize, BitmapError>)
        requires
            old(self).wf(),
        ensures
            *final(self) == *old(self),
            val > 1 ==> r == Err::<usize, BitmapError>(BitmapError::InvalidValue),
            val <= 1 && (nth == 0 || nth > old(self).length) ==> r == Err::<usize, BitmapError>(
                BitmapError::InvalidCount,
            ),
            val <= 1 && 0 < nth <= old(self).length ==> match r {
                Ok(i) => is_select(old(self)@, val == 1, nth as int, i as int) && select_of(
                    old(self)@,
                    val == 1,
                    nth as int,
                ) == Some(i as int),
                Err(e) => e == BitmapError::NotFound && select_of(
                    old(self)@,
                    val == 1,
                    nth as int,
                ) is None && crate::bitmap::count(old(self)@, val == 1, old(self).length as int)
                    < nth,
            },
    {
        if val != 0 && val != 1 {
            return Err(BitmapError::InvalidValue);
        }
        if nth == 0 || nth > self.length {
            return Err(BitmapError::InvalidCount);
        }
        let check_ones = val == 1;
        let mut count: usize = 0;
        let mut idx: usize = 0;
        while idx < self.length
            invariant
                self.wf(),
                *self == *old(self),
                idx % 64 == 0,
                idx <= self.length,
                count == crate::bitmap::count(self@, check_ones, idx as int),
                count < nth,
            ensures
                self.wf(),
                idx % 64 == 0,
                idx <= self.length,
                count == crate::bitmap::count(self@, check_ones, idx as int),
                count < nth,
                idx < self.length ==> crate::bitmap::count(self@, check_ones, idx + 64) >= nth,
            decreases self.length - idx,
        {
            let w = self.data[idx / 64];
            proof {
                lemma_ones_in_bound(w, 64);
                self.lemma_count_in_word(check_ones, (idx / 64) as int, 64);
                lemma_count_bound(self@, check_ones, idx as int);
            }
            let mut additional_count: usize = w.count_ones() as usize;
            if !check_ones {
                additional_count = 64 - additional_count;
            }
            if count + additional_count >= nth {
                break ;
            }
            count += additional_count;
            idx += 64;
        }
        if idx >= self.length {
            proof {
                lemma_select_none(self@, check_ones, nth as int);
            }
            return Err(BitmapError::NotFound);
        }
        let ghost start = idx;
        while count < nth
            invariant
                self.wf(),
                *self == *old(self),
                start % 64 == 0,
                start + 64 <= self.length,
                start <= idx <= start + 64,
                count == crate::bitmap::count(self@, check_ones, idx as int),
                count <= nth,
                crate::bitmap::count(self@, check_ones, start + 64) >= nth,
                start < idx ==> crate::bitmap::count(self@, check_ones, idx - 1) < nth,
                idx == start ==> count < nth,
            decreases start + 64 - idx,
        {
            proof {
                if idx == start + 64 {
                    assert(false);
                }
            }
            let bit_val = self.peek(idx);
            if (bit_val == 1 && check_ones) || (bit_val == 0 && !check_ones) {
                count += 1;
            }
            idx += 1;
        }
        proof {
            let i = idx - 1;
            assert(self@[i] == check_ones);
            assert(is_select(self@, check_ones, nth as int, i));
            lemma_select_unique(self@, check_ones, nth as int, i);
        }
        Ok(idx - 1)
    }
}

/// The length a bitmap of `len` bits and capacity `cap` has after it was
/// asked to reach `bit` bits: the next multiple of 64 above the lesser of
/// `bit` and `cap`, and never less than `len`.
pub open spec fn resized_len(len: int, cap: int, bit: int) -> int {
    let want = round_up64(if bit < cap { bit } else { cap });
    if bit < len || want <= len {
        len
    } else {
        want
    }
}

/// Where the `n`-th bit of value `v` exists it is at one position only.
pub proof fn lemma_select_unique(bits: Seq<bool>, v: bool, n: int, i: int)
    requires
        is_select(bits, v, n, i),
    ensures
        forall|j: int| is_select(bits, v, n, j) ==> j == i,
        select_of(bits, v, n) == Some(i),
{
    assert forall|j: int| is_select(bits, v, n, j) implies j == i by {
        if j < i {
            lemma_count_monotone(bits, v, j + 1, i);
        } else if i < j {
            lemma_count_monotone(bits, v, i + 1, j);
        }
    }
}

/// With fewer than `n` bits of value `v` in all, there is no `n`-th one.
pub proof fn lemma_select_none(bits: Seq<bool>, v: bool, n: int)
    requires
        count(bits, v, bits.len() as int) < n,
    ensures
        select_of(bits, v, n) is None,
{
    assert forall|j: int| !is_select(bits, v, n, j) by {
        if 0 <= j < bits.len() {
            lemma_count_monotone(bits, v, j + 1, bits.len() as int);
        }
    }
}

/// A bit that has been set reads as one, whatever was set before or after it.
pub proof fn law_get_after_sets(bits: Seq<bool>, idxs: Seq<int>, k: int)
    requires
        0 <= k < idxs.len(),
        forall|j: int| 0 <= j < idxs.len() ==> 0 <= #[trigger] idxs[j],
    ensures
        bit_or_zero(with_bits_set(bits, idxs), idxs[k]),
    decreases idxs.len(),
{
    let before = with_bits_set(bits, idxs.drop_last());
    lemma_with_bit_bits(before, idxs.last(), true);
    if k < idxs.len() - 1 {
        law_get_after_sets(bits, idxs.drop_last(), k);
        assert(idxs.drop_last()[k] == idxs[k]);
    }
}

/// Up to any position, the ones and the zeros together are all the bits.
pub proof fn law_rank_complement(bits: Seq<bool>, i: int)
    requires
        0 <= i < bits.len(),
    ensures
        rank_of(bits, true, i) + rank_of(bits, false, i) == i + 1,
{
    lemma_count_complement(bits, i + 1);
}

/// Below any bound, the ones and the zeros together are all the positions.
pub proof fn lemma_count_complement(bits: Seq<bool>, n: int)
    requires
        0 <= n,
    ensures
        count(bits, true, n) + count(bits, false, n) == n,
    decreases n,
{
    if n > 0 {
        lemma_count_complement(bits, n - 1);
    }
}

/// Select inverts rank: the bit at `i` is the `rank(v, i)`-th of its value.
pub proof fn law_select_of_rank(bits: Seq<bool>, v: bool, i: int)
    requires
        0 <= i < bits.len(),
        bits[i] == v,
    ensures
        select_of(bits, v, rank_of(bits, v, i) as int) == Some(i),
{
    lemma_select_unique(bits, v, rank_of(bits, v, i) as int, i);
}

/// A bit past the end reads as zero, and still does once the bitmap has
/// grown to reach it; growing again changes nothing.
pub proof fn law_read_past_end(bits: Seq<bool>, b: int)
    requires
        bits.len() <= b,
    ensures
        !bit_or_zero(bits, b),
        !bit_or_zero(grown(bits, b), b),
        grown(grown(bits, b), b) == grown(bits, b),
{
    lemma_grown_bits(bits, b);
}

/// Sequences with the same bits have the same counts.
pub proof fn lemma_count_same_bits(a: Seq<bool>, b: Seq<bool>)
    requires
        forall|j: int| bit_or_zero(a, j) == bit_or_zero(b, j),
    ensures
        forall|n: int| count(a, true, n) == count(b, true, n),
{
    assert forall|n: int| count(a, true, n) == count(b, true, n) by {
        lemma_count_agree(a, b, true, n);
    }
}

/// Over a stretch without set bits the count of ones stays as it is.
pub proof fn lemma_count_no_ones(bits: Seq<bool>, a: int, b: int)
    requires
        a <= b,
        forall|o: int| a <= o < b ==> !bit_or_zero(bits, o),
    ensures
        count(bits, true, a) == count(bits, true, b),
    decreases b - a,
{
    if a < b {
        lemma_count_no_ones(bits, a, b - 1);
    }
}

/// Setting a bit that was clear adds one to every count that reaches it, and
/// leaves the counts below it as they were.
pub proof fn lemma_count_with_bit(bits: Seq<bool>, o: int, n: int)
    requires
        0 <= o < bits.len(),
    ensures
        n <= o ==> count(bits.update(o, true), true, n) == count(bits, true, n),
        n > o ==> count(bits.update(o, true), true, n) == count(bits, true, n) + if bits[o] {
            0int
        } else {
            1int
        },
    decreases n,
{
    if n > 0 {
        lemma_count_with_bit(bits, o, n - 1);
    }
}

} // verus!
