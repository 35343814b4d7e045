//! Byte-string keys: their lexicographic order and the truncation of a
//! sorted key list to minimal distinguishing prefixes.

use vstd::prelude::*;
use vstd::slice::{slice_subrange, slice_to_vec};

verus! {

/// A key is a sequence of bytes.
pub type Key = Vec<u8>;

/// `p` is a prefix of `k`, possibly all of it.
pub open spec fn is_prefix(p: Seq<u8>, k: Seq<u8>) -> bool {
    p.len() <= k.len() && k.subrange(0, p.len() as int) == p
}

/// `p` is a prefix of `k` and shorter than it.
pub open spec fn is_strict_prefix(p: Seq<u8>, k: Seq<u8>) -> bool {
    p.len() < k.len() && k.subrange(0, p.len() as int) == p
}

/// The first index at or after `i` at which `a` and `b` differ or one ends.
pub open spec fn common_prefix_from(a: Seq<u8>, b: Seq<u8>, i: nat) -> nat
    decreases a.len() - i,
{
    if i < a.len() && i < b.len() && a[i as int] == b[i as int] {
        common_prefix_from(a, b, i + 1)
    } else {
        i
    }
}

/// The length of the longest common prefix of `a` and `b`: the first index
/// at which they differ, or the length of the shorter where one is a prefix
/// of the other.
pub open spec fn common_prefix_len(a: Seq<u8>, b: Seq<u8>) -> nat {
    common_prefix_from(a, b, 0)
}

/// `c` is where `a` and `b` first differ: they agree below `c`, and at `c`
/// one of them ends or their bytes are unequal.
pub open spec fn first_difference(a: Seq<u8>, b: Seq<u8>, c: int) -> bool {
    &&& 0 <= c <= a.len()
    &&& c <= b.len()
    &&& forall|j: int| 0 <= j < c ==> a[j] == b[j]
    &&& c < a.len() && c < b.len() ==> a[c] != b[c]
}

/// `a` comes before `b`: at the first difference `a` has the lesser byte, or
/// `a` ends there and `b` does not.
pub open spec fn key_lt(a: Seq<u8>, b: Seq<u8>) -> bool {
    let c = common_prefix_len(a, b) as int;
    if c < a.len() && c < b.len() {
        a[c] < b[c]
    } else {
        a.len() < b.len()
    }
}

/// `a` comes before `b` or equals it.
pub open spec fn key_le(a: Seq<u8>, b: Seq<u8>) -> bool {
    a == b || key_lt(a, b)
}

/// The byte sequences of a list of keys.
pub open spec fn views(keys: Seq<Key>) -> Seq<Seq<u8>> {
    Seq::new(keys.len(), |i: int| keys[i]@)
}

/// No key comes after a later one.
pub open spec fn sorted(keys: Seq<Seq<u8>>) -> bool {
    forall|i: int, j: int|
        0 <= i < j < keys.len() ==> key_le(#[trigger] keys[i], #[trigger] keys[j])
}

/// Each key comes before every later one: sorted and without duplicates.
pub open spec fn strictly_sorted(keys: Seq<Seq<u8>>) -> bool {
    forall|i: int, j: int|
        0 <= i < j < keys.len() ==> key_lt(#[trigger] keys[i], #[trigger] keys[j])
}

/// Counting on from a common prefix ends at the first difference.
proof fn lemma_common_prefix_from(a: Seq<u8>, b: Seq<u8>, i: nat)
    requires
        i <= a.len(),
        i <= b.len(),
        forall|j: int| 0 <= j < i ==> a[j] == b[j],
    ensures
        first_difference(a, b, common_prefix_from(a, b, i) as int),
        common_prefix_from(a, b, i) >= i,
    decreases a.len() - i,
{
    if i < a.len() && i < b.len() && a[i as int] == b[i as int] {
        lemma_common_prefix_from(a, b, i + 1);
    }
}

/// The common prefix length is where the two keys first differ.
pub proof fn lemma_common_prefix(a: Seq<u8>, b: Seq<u8>)
    ensures
        first_difference(a, b, common_prefix_len(a, b) as int),
        a.subrange(0, common_prefix_len(a, b) as int) == b.subrange(
            0,
            common_prefix_len(a, b) as int,
        ),
{
    lemma_common_prefix_from(a, b, 0);
    let c = common_prefix_len(a, b) as int;
    assert(a.subrange(0, c) =~= b.subrange(0, c));
}

/// There is one first difference only.
pub proof fn lemma_first_difference_unique(a: Seq<u8>, b: Seq<u8>, c: int)
    requires
        first_difference(a, b, c),
    ensures
        common_prefix_len(a, b) == c,
{
    lemma_common_prefix(a, b);
    let d = common_prefix_len(a, b) as int;
    if d < c {
        assert(a[d] == b[d]);
    } else if c < d {
        assert(a[c] == b[c]);
    }
}

/// The common prefix of two keys does not depend on their order.
pub proof fn lemma_common_prefix_symmetric(a: Seq<u8>, b: Seq<u8>)
    ensures
        common_prefix_len(a, b) == common_prefix_len(b, a),
{
    lemma_common_prefix(a, b);
    lemma_first_difference_unique(b, a, common_prefix_len(a, b) as int);
}

/// Two keys are equal exactly when their common prefix is all of both.
pub proof fn lemma_common_prefix_equal(a: Seq<u8>, b: Seq<u8>)
    ensures
        a == b <==> (common_prefix_len(a, b) == a.len() && a.len() == b.len()),
{
    lemma_common_prefix(a, b);
    if common_prefix_len(a, b) == a.len() && a.len() == b.len() {
        assert(a =~= b);
    }
}

/// Of two keys exactly one of these holds: the first comes before the
/// second, they are equal, or the second comes before the first.
pub proof fn lemma_key_order_total(a: Seq<u8>, b: Seq<u8>)
    ensures
        key_lt(a, b) || a == b || key_lt(b, a),
        !(key_lt(a, b) && key_lt(b, a)),
        !(key_lt(a, b) && a == b),
        key_le(a, b) <==> !key_lt(b, a),
{
    lemma_common_prefix(a, b);
    lemma_common_prefix_symmetric(a, b);
    lemma_common_prefix_equal(a, b);
}

/// A key is a prefix of another exactly when their common prefix is all of it.
pub proof fn lemma_prefix_common(p: Seq<u8>, k: Seq<u8>)
    ensures
        is_prefix(p, k) <==> common_prefix_len(p, k) == p.len(),
        is_prefix(p, k) ==> key_le(p, k),
{
    lemma_common_prefix(p, k);
    let c = common_prefix_len(p, k) as int;
    if is_prefix(p, k) {
        assert forall|j: int| 0 <= j < p.len() implies p[j] == k[j] by {
            assert(k.subrange(0, p.len() as int)[j] == k[j]);
        }
        lemma_first_difference_unique(p, k, p.len() as int);
        lemma_common_prefix_equal(p, k);
    }
    if c == p.len() {
        assert(k.subrange(0, p.len() as int) =~= p);
    }
}

/// A key between two keys shares whatever prefix those two share.
pub proof fn lemma_between_shares_prefix(a: Seq<u8>, m: Seq<u8>, b: Seq<u8>)
    requires
        key_le(a, m),
        key_le(m, b),
    ensures
        common_prefix_len(a, m) >= common_prefix_len(a, b),
        common_prefix_len(m, b) >= common_prefix_len(a, b),
{
    lemma_common_prefix(a, b);
    lemma_common_prefix(a, m);
    lemma_common_prefix(m, b);
    lemma_key_order_total(a, m);
    lemma_key_order_total(m, b);
    lemma_common_prefix_equal(a, m);
    lemma_common_prefix_equal(m, b);
    let c = common_prefix_len(a, b) as int;
    let e = common_prefix_len(a, m) as int;
    let f = common_prefix_len(m, b) as int;
    if e < c {
        // a and m part ways before a and b do, so m has passed b there.
        assert(a[e] == b[e]);
        if e < m.len() {
            assert(first_difference(m, b, e)) by {
                assert forall|j: int| 0 <= j < e implies m[j] == b[j] by {
                    assert(a[j] == m[j]);
                    assert(a[j] == b[j]);
                }
            }
            lemma_first_difference_unique(m, b, e);
        }
    }
    if f < c {
        assert(a[f] == b[f]);
        if f < m.len() {
            assert(first_difference(a, m, f)) by {
                assert forall|j: int| 0 <= j < f implies a[j] == m[j] by {
                    assert(m[j] == b[j]);
                    assert(a[j] == b[j]);
                }
            }
            lemma_first_difference_unique(a, m, f);
        }
    }
}

/// The order on keys is transitive.
pub proof fn lemma_key_le_transitive(a: Seq<u8>, m: Seq<u8>, b: Seq<u8>)
    requires
        key_le(a, m),
        key_le(m, b),
    ensures
        key_le(a, b),
        key_lt(a, m) || key_lt(m, b) ==> key_lt(a, b),
{
    lemma_common_prefix(a, b);
    lemma_common_prefix(a, m);
    lemma_common_prefix(m, b);
    lemma_key_order_total(a, b);
    lemma_key_order_total(a, m);
    lemma_key_order_total(m, b);
    if key_lt(b, a) || (a == b && (key_lt(a, m) || key_lt(m, b))) {
        // Then m lies between b and a as well as between a and b.
        lemma_common_prefix_symmetric(a, b);
        lemma_common_prefix_symmetric(a, m);
        lemma_common_prefix_symmetric(m, b);
        lemma_common_prefix_equal(a, b);
        lemma_common_prefix_equal(a, m);
        lemma_common_prefix_equal(m, b);
        lemma_between_shares_prefix(a, m, b);
        let c = common_prefix_len(a, b) as int;
        let e = common_prefix_len(a, m) as int;
        let f = common_prefix_len(m, b) as int;
        if c < a.len() && c < b.len() {
            if e == c {
            } else {
                assert(a[c] == m[c]);
                if f > c {
                    assert(m[c] == b[c]);
                }
            }
        }
    }
}

/// Operations on keys.
pub trait KeyOps {
    /// Whether this key comes before `other` in lexicographic order: at the
    /// first byte that differs the lesser byte decides, and a key that is a
    /// prefix of a longer one comes first.
    fn less(&self, other: &[u8]) -> (r: bool);
}

impl KeyOps for Vec<u8> {
    fn less(&self, other: &[u8]) -> (r: bool)
        ensures
            r == key_lt(self@, other@),
    {
        let min_length = if self.len() < other.len() {
            self.len()
        } else {
            other.len()
        };
        let mut i: usize = 0;
        while i < min_length
            invariant
                i <= min_length,
                min_length <= self@.len(),
                min_length <= other@.len(),
                min_length == self@.len() || min_length == other@.len(),
                forall|j: int| 0 <= j < i ==> self@[j] == other@[j],
            decreases min_length - i,
        {
            if self[i] < other[i] {
                proof {
                    lemma_first_difference_unique(self@, other@, i as int);
                }
                return true;
            }
            if self[i] > other[i] {
                proof {
                    lemma_first_difference_unique(self@, other@, i as int);
                }
                return false;
            }
            i += 1;
        }
        proof {
            lemma_first_difference_unique(self@, other@, min_length as int);
        }
        self.len() < other.len()
    }
}

/// Whether `a` and `b` differ, and if so the first index at which they do.
/// Where one is a prefix of the other that index is the length of the
/// shorter; where they are equal it is zero.
pub fn first_difference_at(a: &[u8], b: &[u8]) -> (r: (bool, usize))
    ensures
        r.0 == (a@ != b@),
        r.0 ==> r.1 == common_prefix_len(a@, b@),
        !r.0 ==> r.1 == 0,
{
    let n = if a.len() < b.len() {
        a.len()
    } else {
        b.len()
    };
    let mut i: usize = 0;
    while i < n
        invariant
            i <= n,
            n <= a@.len(),
            n <= b@.len(),
            n == a@.len() || n == b@.len(),
            forall|j: int| 0 <= j < i ==> a@[j] == b@[j],
        decreases n - i,
    {
        if a[i] != b[i] {
            proof {
                lemma_first_difference_unique(a@, b@, i as int);
            }
            return (true, i);
        }
        i += 1;
    }
    proof {
        lemma_first_difference_unique(a@, b@, n as int);
        lemma_common_prefix_equal(a@, b@);
    }
    if a.len() == b.len() {
        (false, 0)
    } else {
        (true, n)
    }
}

/// The length to which key `i` of a list is cut: one byte past the longer
/// of the prefixes it shares with its two neighbours, or all of it where
/// that prefix is the whole key.
pub open spec fn truncated_len(keys: Seq<Seq<u8>>, i: int) -> nat {
    let before = if i > 0 {
        common_prefix_len(keys[i], keys[i - 1])
    } else {
        0
    };
    let after = if i + 1 < keys.len() {
        common_prefix_len(keys[i], keys[i + 1])
    } else {
        0
    };
    let n = if after > before {
        after
    } else {
        before
    };
    if n < keys[i].len() {
        n + 1
    } else {
        keys[i].len()
    }
}

/// Each key cut to its shortest prefix that tells it from both neighbours.
pub open spec fn truncated(keys: Seq<Seq<u8>>) -> Seq<Seq<u8>> {
    Seq::new(keys.len(), |i: int| keys[i].subrange(0, truncated_len(keys, i) as int))
}

/// Cuts each key of a list to the shortest prefix that tells it from the key
/// before it and the key after it.
pub fn truncate(keys: &[Key]) -> (out: Vec<Key>)
    ensures
        views(out@) == truncated(views(keys@)),
        out@.len() == keys@.len(),
        forall|i: int|
            0 <= i < keys@.len() ==> (#[trigger] out@[i])@ == keys@[i]@.subrange(
                0,
                truncated_len(views(keys@), i) as int,
            ),
{
    let mut out: Vec<Key> = Vec::new();
    let mut i: usize = 0;
    while i < keys.len()
        invariant
            i <= keys@.len(),
            out@.len() == i,
            forall|j: int| 0 <= j < i ==> (#[trigger] out@[j])@ == truncated(views(keys@))[j],
        decreases keys@.len() - i,
    {
        let key = &keys[i];
        let mut first_difference_before: usize = 0;
        let mut first_difference_after: usize = 0;
        proof {
            lemma_common_prefix(key@, keys@[i - 1]@);
            lemma_common_prefix(key@, keys@[i + 1]@);
            lemma_common_prefix_equal(key@, keys@[i - 1]@);
            lemma_common_prefix_equal(key@, keys@[i + 1]@);
        }
        if i != 0 {
            let (differ, fdb) = first_difference_at(key.as_slice(), keys[i - 1].as_slice());
            if !differ {
                first_difference_before = key.len();
            } else {
                first_difference_before = fdb;
            }
        }
        if i != keys.len() - 1 {
            let (differ, fda) = first_difference_at(key.as_slice(), keys[i + 1].as_slice());
            if !differ {
                first_difference_after = key.len();
            } else {
                first_difference_after = fda;
            }
        }
        let n = if first_difference_after > first_difference_before {
            first_difference_after
        } else {
            first_difference_before
        };
        let n = if n < key.len() {
            n + 1
        } else {
            n
        };
        assert(n == truncated_len(views(keys@), i as int));
        out.push(slice_to_vec(slice_subrange(key.as_slice(), 0, n)));
        i += 1;
    }
    assert(views(out@) =~= truncated(views(keys@)));
    out
}

/// A truncated key is a prefix of the key it was cut from.
pub proof fn law_truncated_is_prefix(keys: Seq<Seq<u8>>, i: int)
    requires
        0 <= i < keys.len(),
    ensures
        is_prefix(truncated(keys)[i], keys[i]),
        truncated(keys)[i].len() == truncated_len(keys, i),
        truncated_len(keys, i) <= keys[i].len(),
{
    let t = truncated(keys)[i];
    assert(keys[i].subrange(0, t.len() as int) =~= t);
}

/// What truncation leaves of key `i` reaches past the prefix that the key
/// shares with any other key of a sorted list, or is the whole key.
proof fn lemma_truncated_len_covers(keys: Seq<Seq<u8>>, i: int, j: int)
    requires
        sorted(keys),
        0 <= i < keys.len(),
        0 <= j < keys.len(),
        i != j,
    ensures
        truncated_len(keys, i) == keys[i].len() || truncated_len(keys, i) > common_prefix_len(
            keys[i],
            keys[j],
        ),
{
    if i < j {
        if i + 1 < j {
            lemma_between_shares_prefix(keys[i], keys[i + 1], keys[j]);
        }
    } else {
        if j < i - 1 {
            lemma_between_shares_prefix(keys[j], keys[i - 1], keys[i]);
            lemma_common_prefix_symmetric(keys[j], keys[i]);
            lemma_common_prefix_symmetric(keys[i - 1], keys[i]);
        }
    }
}

/// Truncating a sorted list without duplicates leaves it sorted and without
/// duplicates.
pub proof fn law_truncated_sorted(keys: Seq<Seq<u8>>)
    requires
        strictly_sorted(keys),
    ensures
        strictly_sorted(truncated(keys)),
{
    let t = truncated(keys);
    assert(sorted(keys));
    assert forall|i: int, j: int| 0 <= i < j < t.len() implies key_lt(
        #[trigger] t[i],
        #[trigger] t[j],
    ) by {
        assert(key_lt(keys[i], keys[j]));
        lemma_truncated_len_covers(keys, i, j);
        lemma_truncated_len_covers(keys, j, i);
        lemma_common_prefix_symmetric(keys[i], keys[j]);
        lemma_common_prefix(keys[i], keys[j]);
        law_truncated_is_prefix(keys, i);
        law_truncated_is_prefix(keys, j);
        let c = common_prefix_len(keys[i], keys[j]) as int;
        if c < keys[i].len() && c < keys[j].len() {
            assert(first_difference(t[i], t[j], c));
            lemma_first_difference_unique(t[i], t[j], c);
        } else {
            // keys[i] is a prefix of keys[j] and is kept whole.
            assert(c == keys[i].len());
            assert(t[i] =~= keys[i]);
            assert(first_difference(t[i], t[j], c));
            lemma_first_difference_unique(t[i], t[j], c);
        }
    }
}

/// Truncating a sorted list without duplicates leaves its keys distinct.
pub proof fn law_truncated_distinct(keys: Seq<Seq<u8>>, i: int, j: int)
    requires
        strictly_sorted(keys),
        0 <= i < keys.len(),
        0 <= j < keys.len(),
        i != j,
    ensures
        truncated(keys)[i] != truncated(keys)[j],
{
    law_truncated_sorted(keys);
    let t = truncated(keys);
    if i < j {
        assert(key_lt(t[i], t[j]));
    } else {
        assert(key_lt(t[j], t[i]));
    }
    lemma_key_order_total(t[i], t[j]);
}

/// After truncation one key is a prefix of another only where it was kept
/// whole and the key it came from was a prefix of the other's.
pub proof fn law_truncated_prefix_free(keys: Seq<Seq<u8>>, i: int, j: int)
    requires
        strictly_sorted(keys),
        0 <= i < keys.len(),
        0 <= j < keys.len(),
        i != j,
        is_prefix(truncated(keys)[i], truncated(keys)[j]),
    ensures
        truncated(keys)[i] == keys[i],
        is_strict_prefix(keys[i], keys[j]),
{
    let t = truncated(keys);
    assert(sorted(keys));
    law_truncated_is_prefix(keys, i);
    law_truncated_is_prefix(keys, j);
    lemma_truncated_len_covers(keys, i, j);
    lemma_common_prefix(keys[i], keys[j]);
    let n = t[i].len() as int;
    // keys[i] and keys[j] agree on all of t[i].
    assert forall|k: int| 0 <= k < n implies keys[i][k] == keys[j][k] by {
        assert(keys[i].subrange(0, n)[k] == keys[i][k]);
        assert(t[j].subrange(0, n)[k] == t[j][k]);
        assert(keys[j].subrange(0, t[j].len() as int)[k] == keys[j][k]);
    }
    let c = common_prefix_len(keys[i], keys[j]) as int;
    if c < n {
        assert(keys[i][c] == keys[j][c]);
    }
    assert(t[i] =~= keys[i]);
    assert(keys[j].subrange(0, n) =~= keys[i]);
    if keys[j].len() == n {
        assert(keys[j] =~= keys[i]);
        if i < j {
            assert(key_lt(keys[i], keys[j]));
        } else {
            assert(key_lt(keys[j], keys[i]));
        }
        lemma_key_order_total(keys[i], keys[j]);
    }
}

/// The two lists hold the same keys, whatever their order and number.
pub open spec fn same_keys(a: Seq<Seq<u8>>, b: Seq<Seq<u8>>) -> bool {
    forall|k: Seq<u8>| a.contains(k) <==> b.contains(k)
}

/// `n` holds the keys of `raw` in order, each once.
pub open spec fn is_normal_form(raw: Seq<Seq<u8>>, n: Seq<Seq<u8>>) -> bool {
    strictly_sorted(n) && same_keys(raw, n)
}

/// The keys of `raw` in order, each once.
pub open spec fn normalized(raw: Seq<Seq<u8>>) -> Seq<Seq<u8>> {
    choose|n: Seq<Seq<u8>>| is_normal_form(raw, n)
}

/// A list of keys has one normal form only.
pub proof fn lemma_normal_form_unique(raw: Seq<Seq<u8>>, a: Seq<Seq<u8>>, b: Seq<Seq<u8>>)
    requires
        is_normal_form(raw, a),
        is_normal_form(raw, b),
    ensures
        a == b,
    decreases a.len(),
{
    if a.len() == 0 {
        if b.len() > 0 {
            assert(b.contains(b[0]));
            assert(a.contains(b[0]));
        }
        assert(a =~= b);
    } else {
        let x = a.last();
        assert(a.contains(x));
        assert(b.contains(x));
        let y = b.last();
        assert(b.contains(y));
        assert(a.contains(y));
        // Each of the two last keys is the greatest of the same keys.
        let i = choose|i: int| 0 <= i < b.len() && b[i] == x;
        let j = choose|j: int| 0 <= j < a.len() && a[j] == y;
        if i < b.len() - 1 {
            assert(key_lt(b[i], b[b.len() - 1]));
        }
        if j < a.len() - 1 {
            assert(key_lt(a[j], a[a.len() - 1]));
        }
        lemma_key_order_total(x, y);
        assert(x == y);
        let a0 = a.drop_last();
        let b0 = b.drop_last();
        assert forall|k: Seq<u8>| a0.contains(k) <==> b0.contains(k) by {
            if a0.contains(k) {
                let m = choose|m: int| 0 <= m < a0.len() && a0[m] == k;
                assert(key_lt(a[m], a[a.len() - 1]));
                lemma_key_order_total(k, x);
                assert(a.contains(k));
                let m2 = choose|m2: int| 0 <= m2 < b.len() && b[m2] == k;
                assert(b0[m2] == k);
            }
            if b0.contains(k) {
                let m = choose|m: int| 0 <= m < b0.len() && b0[m] == k;
                assert(key_lt(b[m], b[b.len() - 1]));
                lemma_key_order_total(k, y);
                assert(b.contains(k));
                let m2 = choose|m2: int| 0 <= m2 < a.len() && a[m2] == k;
                assert(a0[m2] == k);
            }
        }
        assert(strictly_sorted(a0)) by {
            assert forall|i: int, j: int| 0 <= i < j < a0.len() implies key_lt(
                #[trigger] a0[i],
                #[trigger] a0[j],
            ) by {
                assert(key_lt(a[i], a[j]));
            }
        }
        assert(strictly_sorted(b0)) by {
            assert forall|i: int, j: int| 0 <= i < j < b0.len() implies key_lt(
                #[trigger] b0[i],
                #[trigger] b0[j],
            ) by {
                assert(key_lt(b[i], b[j]));
            }
        }
        lemma_normal_form_unique(a0, a0, b0);
        assert(a =~= a0.push(x));
        assert(b =~= b0.push(y));
    }
}

/// The normal form of a list is the one list that holds its keys in order,
/// each once.
pub proof fn lemma_normalized(raw: Seq<Seq<u8>>, n: Seq<Seq<u8>>)
    requires
        is_normal_form(raw, n),
    ensures
        normalized(raw) == n,
{
    lemma_normal_form_unique(raw, normalized(raw), n);
}

/// Sorts the keys with `sort` of the standard library's slices, which puts
/// the elements in ascending order. The order of byte vectors is the
/// lexicographic one, so afterwards no key comes after a later one, and the
/// list holds the keys it held, each as often as before.
#[verifier::external_body]
fn sort_keys(keys: &mut Vec<Key>)
    ensures
        sorted(views(final(keys)@)),
        views(final(keys)@).to_multiset() == views(old(keys)@).to_multiset(),
{
    keys.sort();
}

/// The keys in order, each once.
pub fn normalize(raw_keys: Vec<Key>) -> (out: Vec<Key>)
    ensures
        views(out@) == normalized(views(raw_keys@)),
        is_normal_form(views(raw_keys@), views(out@)),
{
    let ghost raw = views(raw_keys@);
    let mut keys = raw_keys;
    sort_keys(&mut keys);
    let ghost kv = views(keys@);
    proof {
        assert forall|k: Seq<u8>| raw.contains(k) <==> kv.contains(k) by {
            vstd::seq_lib::to_multiset_contains(raw, k);
            vstd::seq_lib::to_multiset_contains(kv, k);
        }
    }
    let mut out: Vec<Key> = Vec::new();
    let mut i: usize = 0;
    while i < keys.len()
        invariant
            kv == views(keys@),
            sorted(kv),
            i <= keys@.len(),
            strictly_sorted(views(out@)),
            i == 0 ==> out@.len() == 0,
            i > 0 ==> out@.len() > 0 && out@.last()@ == kv[i - 1],
            forall|k: Seq<u8>|
                views(out@).contains(k) <==> exists|j: int| 0 <= j < i && #[trigger] kv[j] == k,
        decreases keys@.len() - i,
    {
        let ghost before = views(out@);
        let fresh = if i == 0 {
            true
        } else {
            keys[i - 1].less(keys[i].as_slice())
        };
        proof {
            assert(keys@[i as int]@ == kv[i as int]);
            if i > 0 {
                assert(keys@[i - 1]@ == kv[i - 1]);
                assert(key_le(kv[i - 1], kv[i as int]));
                lemma_key_order_total(kv[i - 1], kv[i as int]);
            }
        }
        if fresh {
            out.push(slice_to_vec(keys[i].as_slice()));
            proof {
                let after = views(out@);
                let x = kv[i as int];
                assert(after =~= before.push(x));
                assert forall|a: int, b: int| 0 <= a < b < after.len() implies key_lt(
                    #[trigger] after[a],
                    #[trigger] after[b],
                ) by {
                    if b == after.len() - 1 {
                        if a < b - 1 {
                            assert(key_lt(before[a], before[b - 1]));
                            lemma_key_le_transitive(before[a], before[b - 1], x);
                        }
                    } else {
                        assert(key_lt(before[a], before[b]));
                    }
                }
                assert forall|k: Seq<u8>| after.contains(k) <==> exists|j: int|
                    0 <= j < i + 1 && #[trigger] kv[j] == k by {
                    if after.contains(k) {
                        let m = choose|m: int| 0 <= m < after.len() && after[m] == k;
                        if m < before.len() {
                            assert(before.contains(k));
                        } else {
                            assert(kv[i as int] == k);
                        }
                    }
                    if exists|j: int| 0 <= j < i + 1 && #[trigger] kv[j] == k {
                        let j = choose|j: int| 0 <= j < i + 1 && #[trigger] kv[j] == k;
                        if j < i {
                            assert(before.contains(k));
                            let m = choose|m: int| 0 <= m < before.len() && before[m] == k;
                            assert(after[m] == k);
                        } else {
                            assert(after[after.len() - 1] == k);
                        }
                    }
                }
            }
        } else {
            proof {
                assert forall|k: Seq<u8>| before.contains(k) <==> exists|j: int|
                    0 <= j < i + 1 && #[trigger] kv[j] == k by {
                    if exists|j: int| 0 <= j < i + 1 && #[trigger] kv[j] == k {
                        let j = choose|j: int| 0 <= j < i + 1 && #[trigger] kv[j] == k;
                        if j == i {
                            assert(kv[i - 1] == k);
                        }
                    }
                }
            }
        }
        i += 1;
    }
    proof {
        let n = views(out@);
        assert forall|k: Seq<u8>| raw.contains(k) <==> n.contains(k) by {
            if kv.contains(k) {
                let j = choose|j: int| 0 <= j < kv.len() && kv[j] == k;
                assert(kv[j] == k);
            }
        }
        lemma_normalized(raw, n);
    }
    out
}

} // verus!
