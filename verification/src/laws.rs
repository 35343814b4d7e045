//! What the encoding of a key list holds, as a cursor sees it: the keys of
//! the list and no others.

use crate::bitmap::bit_or_zero;
use crate::dense::lemma_root;
use crate::iterator::{
    ahead, child_of, descent, fits, leaf_at, lemma_ahead_below, lemma_node_at_prefix,
    lemma_stored_takes_edge, node_at, prefix_key_node, stored, Encoded, SurfError,
};
use crate::key::{
    common_prefix_len, first_difference, is_normal_form, is_prefix, is_strict_prefix, key_le,
    key_lt, law_truncated_is_prefix, law_truncated_prefix_free, law_truncated_sorted,
    lemma_common_prefix, lemma_common_prefix_equal, lemma_first_difference_unique,
    lemma_key_le_transitive, lemma_key_order_total, lemma_normal_form_unique,
    lemma_prefix_common, strictly_sorted, truncated,
};
use crate::surf::{lists, outcome, walk, Surf};
use crate::trie::{
    buildable, child_at, child_hit, child_ids_by_rank, encodes, goes_on, label_at, label_hit,
    lemma_level_start_monotone, lemma_node_depth, lemma_node_id_bound, lemma_node_shares_prefix,
    lemma_opener, lemma_prefix_comes_first, lemma_prefix_shares_node, level_size, level_start,
    node_count, node_id, passes, prefix_hit, prefix_key_at, same_node,
};
use vstd::prelude::*;

verus! {

/// `t` is the encoding of the trie of `keys`, as the builder makes it.
pub open spec fn encoding_of(keys: Seq<Seq<u8>>, t: Encoded) -> bool {
    &&& buildable(keys)
    &&& encodes(keys, t.labels, t.has_child, t.is_prefix_key)
    &&& child_ids_by_rank(keys, t.has_child)
}

/// The first `d` bytes of a key longer than `d` lead from the root to the
/// node at depth `d` through which the key runs.
pub proof fn lemma_key_prefix_node(keys: Seq<Seq<u8>>, t: Encoded, d: int, i: int)
    requires
        encoding_of(keys, t),
        passes(keys, d, i),
    ensures
        node_at(t, keys[i].take(d)) == Some(node_id(keys, d, i)),
    decreases d,
{
    if d == 0 {
        lemma_root(keys, i + 1);
        assert(level_start(keys, 0) == 0);
    } else {
        lemma_key_prefix_node(keys, t, d - 1, i);
        let p = keys[i].take(d);
        assert(p.drop_last() =~= keys[i].take(d - 1));
        assert(p.last() == keys[i][d - 1]);
        let o = 256 * node_id(keys, d - 1, i) + keys[i][d - 1];
        assert(label_hit(keys, d - 1, i, o));
        assert(child_hit(keys, d - 1, i, o));
        assert(goes_on(keys, d - 1, i));
        assert(label_at(keys, o));
        assert(child_at(keys, o));
    }
}

/// A path that leads from the root to a node is the start of a key that is
/// longer than the path, and the node is the one through which that key
/// runs at the depth of the path.
pub proof fn lemma_node_is_key_prefix(keys: Seq<Seq<u8>>, t: Encoded, path: Seq<u8>) -> (i: int)
    requires
        encoding_of(keys, t),
        node_at(t, path) is Some,
        path.len() > 0,
    ensures
        passes(keys, path.len() as int, i),
        keys[i].take(path.len() as int) == path,
        node_at(t, path) == Some(node_id(keys, path.len() as int, i)),
    decreases path.len(),
{
    let q = path.drop_last();
    let b = path.last();
    let m = node_at(t, q)->Some_0;
    let o = 256 * m + b;
    assert(child_of(t, m, b) is Some);
    assert(child_at(keys, o));
    let (d, j) = choose|d: int, j: int| #[trigger] child_hit(keys, d, j, o);
    assert(node_id(keys, d, j) == m && keys[j][d] == b);
    lemma_node_id_bound(keys, d, j);
    if q.len() == 0 {
        if d >= 1 {
            lemma_root(keys, keys.len() as int);
            assert(level_start(keys, 1) == level_start(keys, 0) + level_size(keys, 0));
            lemma_level_start_monotone(keys, 1, d);
        }
    } else {
        let i0 = lemma_node_is_key_prefix(keys, t, q);
        lemma_node_depth(keys, q.len() as int, i0, d, j);
        if i0 <= j {
            lemma_node_shares_prefix(keys, d, i0, j);
        } else {
            lemma_node_shares_prefix(keys, d, j, i0);
        }
        assert(keys[i0].take(d) =~= keys[i0].subrange(0, d));
        assert(keys[j].take(d) =~= keys[j].subrange(0, d));
    }
    assert(keys[j].take(d) =~= q);
    assert(keys[j].take(d + 1) =~= path) by {
        assert forall|x: int| 0 <= x < d + 1 implies keys[j].take(d + 1)[x] == path[x] by {
            if x < d {
                assert(keys[j].take(d)[x] == q[x]);
            }
        }
    }
    assert(goes_on(keys, d, j));
    j
}

/// The root is the node zero, and no other node is.
proof fn lemma_depth_zero(keys: Seq<Seq<u8>>, d: int, i: int)
    requires
        buildable(keys),
        passes(keys, d, i),
        node_id(keys, d, i) == 0,
    ensures
        d == 0,
{
    lemma_node_id_bound(keys, d, i);
    if d >= 1 {
        lemma_root(keys, keys.len() as int);
        assert(level_start(keys, 1) == level_start(keys, 0) + level_size(keys, 0));
        lemma_level_start_monotone(keys, 1, d);
    }
}

/// A key of the list that no key of the list goes on from ends with an edge
/// without a node behind it; one that a key goes on from leads to a node
/// that is marked as the end of a key.
pub proof fn law_key_is_stored(keys: Seq<Seq<u8>>, t: Encoded, i: int)
    requires
        encoding_of(keys, t),
        0 <= i < keys.len(),
    ensures
        stored(t, keys[i]),
        leaf_at(t, keys[i]) <==> !exists|j: int| is_strict_prefix(keys[i], #[trigger] keys[j]) && 0
            <= j < keys.len(),
{
    let k = keys[i];
    let len = k.len() as int;
    assert(passes(keys, len - 1, i));
    lemma_key_prefix_node(keys, t, len - 1, i);
    assert(k.drop_last() =~= k.take(len - 1));
    let n = node_id(keys, len - 1, i);
    let o = 256 * n + k[len - 1];
    assert(label_hit(keys, len - 1, i, o));
    assert(label_at(keys, o));
    if exists|j: int| is_strict_prefix(k, #[trigger] keys[j]) && 0 <= j < keys.len() {
        let j = choose|j: int| is_strict_prefix(k, #[trigger] keys[j]) && 0 <= j < keys.len();
        assert(passes(keys, len, j));
        assert(keys[j].take(len) =~= k);
        lemma_key_prefix_node(keys, t, len, j);
        // The first key of that node comes just after the key that ends at it.
        let f = lemma_opener(keys, len, j);
        assert(keys[f].subrange(0, len) =~= k);
        lemma_prefix_comes_first(k, keys[f]);
        if f <= i {
            assert(key_le(keys[f], keys[i]));
        }
        assert(i < f);
        crate::key::lemma_between_shares_prefix(keys[i], keys[f - 1], keys[f]);
        crate::key::lemma_common_prefix(keys[i], keys[f]);
        crate::key::lemma_common_prefix(keys[i], keys[f - 1]);
        crate::trie::lemma_subrange_common(keys[i], keys[f], len);
        assert(keys[f - 1].len() >= len);
        crate::trie::lemma_subrange_common(keys[i], keys[f - 1], len);
        assert(keys[f - 1].subrange(0, len) =~= k);
        if keys[f - 1].len() > len {
            assert(passes(keys, len, f - 1));
            assert(same_node(keys, len, f));
        }
        assert(keys[f - 1] =~= keys[f - 1].subrange(0, len));
        assert(prefix_hit(keys, len, f, node_id(keys, len, f)));
        assert(prefix_key_at(keys, node_id(keys, len, j)));
        assert(prefix_key_node(t, k));
        // A key goes on from the last edge of this one.
        assert(keys[j].subrange(0, len - 1) =~= k.subrange(0, len - 1));
        if i <= j {
            lemma_prefix_shares_node(keys, len - 1, i, j);
        } else {
            lemma_prefix_shares_node(keys, len - 1, j, i);
        }
        assert(keys[j][len - 1] == keys[j].take(len)[len - 1]);
        assert(child_hit(keys, len - 1, j, o));
        assert(child_at(keys, o));
    } else {
        if bit_or_zero(t.has_child, o) {
            assert(child_at(keys, o));
            let (d, j) = choose|d: int, j: int| #[trigger] child_hit(keys, d, j, o);
            assert(node_id(keys, d, j) == n && keys[j][d] == k[len - 1]);
            lemma_node_depth(keys, d, j, len - 1, i);
            if i <= j {
                lemma_node_shares_prefix(keys, d, i, j);
            } else {
                lemma_node_shares_prefix(keys, d, j, i);
            }
            assert(keys[j].subrange(0, len) =~= k) by {
                assert forall|x: int| 0 <= x < len implies keys[j].subrange(0, len)[x] == k[x] by {
                    if x < len - 1 {
                        assert(keys[j].subrange(0, d)[x] == k.subrange(0, d)[x]);
                    }
                }
            }
            assert(is_strict_prefix(k, keys[j]));
        }
        assert(leaf_at(t, k));
    }
}

/// A key that the encoding holds is a key of the list.
pub proof fn law_stored_is_key(keys: Seq<Seq<u8>>, t: Encoded, k: Seq<u8>)
    requires
        encoding_of(keys, t),
        stored(t, k),
    ensures
        keys.contains(k),
{
    if leaf_at(t, k) {
        let q = k.drop_last();
        let m = node_at(t, q)->Some_0;
        let o = 256 * m + k.last();
        assert(label_at(keys, o));
        let (d, j) = choose|d: int, j: int| #[trigger] label_hit(keys, d, j, o);
        assert(node_id(keys, d, j) == m && keys[j][d] == k.last());
        if q.len() == 0 {
            lemma_depth_zero(keys, d, j);
        } else {
            let i0 = lemma_node_is_key_prefix(keys, t, q);
            lemma_node_depth(keys, q.len() as int, i0, d, j);
            if i0 <= j {
                lemma_node_shares_prefix(keys, d, i0, j);
            } else {
                lemma_node_shares_prefix(keys, d, j, i0);
            }
            assert(keys[i0].take(d) =~= keys[i0].subrange(0, d));
        }
        assert(keys[j].subrange(0, d) =~= q);
        if keys[j].len() > d + 1 {
            assert(child_hit(keys, d, j, o));
            assert(child_at(keys, o));
        }
        assert(keys[j] =~= k) by {
            assert forall|x: int| 0 <= x < d + 1 implies keys[j][x] == k[x] by {
                if x < d {
                    assert(keys[j].subrange(0, d)[x] == q[x]);
                }
            }
        }
    } else {
        let n = node_at(t, k)->Some_0;
        assert(prefix_key_at(keys, n));
        let (d, f) = choose|d: int, f: int| #[trigger] prefix_hit(keys, d, f, n);
        if k.len() == 0 {
            lemma_depth_zero(keys, d, f);
            assert(keys[f - 1].len() == 0);
        } else {
            let i0 = lemma_node_is_key_prefix(keys, t, k);
            lemma_node_depth(keys, k.len() as int, i0, d, f);
            if i0 <= f {
                lemma_node_shares_prefix(keys, d, i0, f);
            } else {
                lemma_node_shares_prefix(keys, d, f, i0);
            }
            assert(keys[i0].take(d) =~= keys[i0].subrange(0, d));
            assert(keys[f - 1] == k);
        }
    }
}

/// The keys that the encoding of a key list holds are the keys of the list.
pub proof fn law_stored_keys(keys: Seq<Seq<u8>>, t: Encoded)
    requires
        encoding_of(keys, t),
    ensures
        forall|k: Seq<u8>| #[trigger] stored(t, k) <==> keys.contains(k),
{
    assert forall|k: Seq<u8>| #[trigger] stored(t, k) <==> keys.contains(k) by {
        if stored(t, k) {
            law_stored_is_key(keys, t, k);
        }
        if keys.contains(k) {
            let i = choose|i: int| 0 <= i < keys.len() && keys[i] == k;
            law_key_is_stored(keys, t, i);
        }
    }
}

/// An encoding that was built within a memory limit of at least one node
/// fits the capacities of its bitmaps.
pub proof fn law_encoding_fits(keys: Seq<Seq<u8>>, t: Encoded, unit: int)
    requires
        encoding_of(keys, t),
        node_count(keys) <= unit,
        1 <= unit,
        t.label_cap == 256 * unit,
        t.child_cap == 256 * unit,
        t.prefix_cap == unit,
    ensures
        fits(t),
{
    assert forall|path: Seq<u8>|
        match #[trigger] node_at(t, path) {
            Some(n) => 256 * n + 255 < 256 * unit && n < unit,
            None => true,
        } by {
        if node_at(t, path) is Some && path.len() > 0 {
            let i = lemma_node_is_key_prefix(keys, t, path);
            lemma_node_id_bound(keys, path.len() as int, i);
        }
    }
}

/// Where the path along a key leads through nodes up to index `j`, the walk
/// along the key gets at least that far.
pub proof fn lemma_walk_along(t: Encoded, key: Seq<u8>, i: int, j: int)
    requires
        fits(t),
        0 <= i <= j <= key.len(),
        node_at(t, key.take(j)) is Some,
    ensures
        node_at(t, key.take(i)) is Some,
        walk(t, key, i, node_at(t, key.take(i))->Some_0) == walk(
            t,
            key,
            j,
            node_at(t, key.take(j))->Some_0,
        ),
    decreases j - i,
{
    assert(key.take(j).subrange(0, i) =~= key.take(i));
    lemma_node_at_prefix(t, key.take(i), key.take(j));
    if i < j {
        lemma_walk_along(t, key, i + 1, j);
        assert(key.take(i + 1).drop_last() =~= key.take(i));
        assert(key.take(i + 1).last() == key[i]);
    }
}

/// The walk along a key ends at the node to which the bytes that it took
/// lead, and it ends before the end of the key only where the next edge
/// does not lead to a node.
pub proof fn lemma_walk_ends(t: Encoded, key: Seq<u8>, i: int, node: int)
    requires
        0 <= i <= key.len(),
        node_at(t, key.take(i)) == Some(node),
    ensures
        ({
            let (n, m) = walk(t, key, i, node);
            &&& i <= n <= key.len()
            &&& node_at(t, key.take(n)) == Some(m)
            &&& n < key.len() ==> descent(t, m, key[n]) is Err
        }),
    decreases key.len() - i,
{
    if i < key.len() {
        match descent(t, node, key[i]) {
            Ok(m) => {
                assert(key.take(i + 1).drop_last() =~= key.take(i));
                assert(key.take(i + 1).last() == key[i]);
                lemma_walk_ends(t, key, i + 1, m);
            },
            Err(_) => {},
        }
    }
}

/// No false negatives. The point query on the encoding of the truncated
/// normal form of a list of keys finds each key of the list, with the
/// truncated form of the key as the match.
pub proof fn law_round_trip(raw: Seq<Seq<u8>>, norm: Seq<Seq<u8>>, t: Encoded, unit: int, i: int)
    requires
        forall|j: int| 0 <= j < raw.len() ==> (#[trigger] raw[j]).len() > 0,
        is_normal_form(raw, norm),
        encoding_of(truncated(norm), t),
        node_count(truncated(norm)) <= unit,
        1 <= unit,
        t.label_cap == 256 * unit,
        t.child_cap == 256 * unit,
        t.prefix_cap == unit,
        0 <= i < raw.len(),
    ensures
        ({
            let (n, node) = walk(t, raw[i], 0, 0);
            let found = outcome(t, raw[i], n, node);
            &&& found.exists
            &&& found.fault is None
            &&& is_prefix(found.matched, raw[i])
            &&& truncated(norm).contains(found.matched)
        }),
{
    let key = raw[i];
    assert(raw.contains(key));
    assert(norm.contains(key));
    let j = choose|j: int| 0 <= j < norm.len() && norm[j] == key;
    let tk = truncated(norm);
    let short = tk[j];
    let len = short.len() as int;
    law_truncated_is_prefix(norm, j);
    law_truncated_sorted(norm);
    law_key_is_stored(tk, t, j);
    law_encoding_fits(tk, t, unit);
    assert(tk.contains(short));
    assert(key.take(0) =~= Seq::<u8>::empty());
    if leaf_at(t, short) {
        assert(key.take(len - 1) =~= short.drop_last());
        lemma_walk_along(t, key, 0, len - 1);
        let node = node_at(t, key.take(len - 1))->Some_0;
        assert(key[len - 1] == short.last()) by {
            assert(key.subrange(0, len)[len - 1] == short[len - 1]);
        }
        assert(descent(t, node, key[len - 1]) == Err::<int, SurfError>(
            SurfError::IsLeaf,
        ));
        assert(key.take(len) =~= short);
    } else {
        // Another key goes on from this one, so it was kept whole.
        let other = choose|other: int|
            is_strict_prefix(short, #[trigger] tk[other]) && 0 <= other < tk.len();
        law_truncated_prefix_free(norm, j, other);
        assert(short == key);
        assert(key.take(len) =~= key);
        lemma_walk_along(t, key, 0, len);
    }
}

/// The keys that a cursor yields from the root are the keys of the list, in
/// order: counted up to a bound that none of them exceeds, they are as many
/// as the list has.
pub proof fn law_enumeration(keys: Seq<Seq<u8>>, t: Encoded, high: Seq<u8>, ys: Seq<Seq<u8>>)
    requires
        encoding_of(keys, t),
        strictly_sorted(keys),
        forall|i: int| 0 <= i < keys.len() ==> key_le(#[trigger] keys[i], high),
        lists(t, Seq::<u8>::empty(), 0, high, ys),
    ensures
        ys == keys,
{
    reveal(lists);
    law_stored_keys(keys, t);
    assert forall|k: Seq<u8>| keys.contains(k) <==> ys.contains(k) by {
        if keys.contains(k) {
            let i = choose|i: int| 0 <= i < keys.len() && keys[i] == k;
            assert(key_le(keys[i], high));
            lemma_ahead_below(Seq::<u8>::empty(), k);
            lemma_common_prefix(Seq::<u8>::empty(), k);
        }
        if ys.contains(k) {
            assert(stored(t, k));
        }
    }
    lemma_normal_form_unique(keys, ys, keys);
}

/// Where the point query for `key` ends without a match, the keys of the
/// encoding that are at or after the place where it ended are those that
/// are greater than `key`: the key that `lookup_or_greater` then yields is
/// the least key of the encoding that is greater than `key`.
pub proof fn law_place_after_miss(t: Encoded, key: Seq<u8>, k: Seq<u8>)
    requires
        stored(t, k),
        ({
            let (n, node) = walk(t, key, 0, 0);
            let found = outcome(t, key, n, node);
            !found.exists && found.fault is None
        }),
    ensures
        ({
            let (n, node) = walk(t, key, 0, 0);
            ahead(
                key.take(n),
                if n < key.len() {
                    key[n] as int
                } else {
                    0
                },
                k,
            ) <==> key_lt(key, k)
        }),
{
    let (n, node) = walk(t, key, 0, 0);
    assert(key.take(0) =~= Seq::<u8>::empty());
    lemma_walk_ends(t, key, 0, 0);
    if n < key.len() {
        let p = key.take(n + 1);
        assert(key.take(n).push(key[n]) =~= p);
        lemma_key_order_total(p, k);
        lemma_key_order_total(key, k);
        lemma_prefix_common(p, key);
        assert(key.subrange(0, n + 1) =~= p);
        if key_le(p, k) {
            if is_prefix(p, k) {
                lemma_stored_takes_edge(t, key.take(n), key[n], k);
            }
            // `k` parts from `p` within `p`, where `key` is as `p` is.
            lemma_common_prefix(p, k);
            lemma_prefix_common(p, k);
            lemma_common_prefix_equal(p, k);
            let c = common_prefix_len(p, k) as int;
            assert(first_difference(key, k, c)) by {
                assert forall|x: int| 0 <= x < c implies key[x] == k[x] by {
                    assert(p[x] == k[x]);
                }
                assert(key[c] == p[c]);
            }
            lemma_first_difference_unique(key, k, c);
        }
        if key_lt(key, k) {
            lemma_key_le_transitive(p, key, k);
        }
    } else {
        assert(key.take(n) =~= key);
        lemma_ahead_below(key, k);
    }
}

/// On an encoding that fits the capacities of its bitmaps the point query
/// ends without a fault.
pub proof fn law_fitting_lookup(t: Encoded, key: Seq<u8>)
    requires
        fits(t),
    ensures
        ({
            let (n, node) = walk(t, key, 0, 0);
            outcome(t, key, n, node).fault is None
        }),
{
    let (n, node) = walk(t, key, 0, 0);
    assert(key.take(0) =~= Seq::<u8>::empty());
    lemma_walk_ends(t, key, 0, 0);
    assert(node_at(t, key.take(n)) == Some(node));
}

/// No false negatives. A filter finds each of the keys it was built from.
pub proof fn law_filter_finds_its_keys(s: Surf, raw: Seq<Seq<u8>>, unit: int, i: int)
    requires
        forall|j: int| 0 <= j < raw.len() ==> (#[trigger] raw[j]).len() > 0,
        s.built_from(raw, unit),
        0 <= i < raw.len(),
    ensures
        s.found(raw[i]).exists,
        s.found(raw[i]).fault is None,
        is_prefix(s.found(raw[i]).matched, raw[i]),
{
    let norm = crate::key::normalized(raw);
    let keys = truncated(norm);
    law_truncated_is_prefix(norm, 0);
    assert(raw.contains(raw[i]));
    assert(norm.contains(raw[i]));
    // There is a key, so there is a node, and the limit is of one node at least.
    crate::trie::lemma_node_id_bound(keys, 0, 0);
    law_round_trip(raw, norm, s.encoded(), unit, i);
}

/// The keys that a filter holds are the truncated forms of the keys it was
/// built from, and a cursor on it yields them in order.
pub proof fn law_filter_holds_truncated_keys(s: Surf, raw: Seq<Seq<u8>>, unit: int)
    requires
        s.built_from(raw, unit),
    ensures
        forall|k: Seq<u8>|
            #[trigger] stored(s.encoded(), k) <==> truncated(crate::key::normalized(raw)).contains(
                k,
            ),
        unit >= 1 ==> s.fits(),
{
    let keys = truncated(crate::key::normalized(raw));
    law_stored_keys(keys, s.encoded());
    if unit >= 1 {
        law_encoding_fits(keys, s.encoded(), unit);
    }
}

} // verus!
