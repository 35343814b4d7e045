//! The trie of a sorted key list and its LOUDS-DENSE encoding, as a model.
//!
//! A node takes 256 bits of the labels bitmap and 256 bits of the has-child
//! bitmap, one for each byte an edge may carry, and one bit of the
//! prefix-key bitmap. Nodes are numbered level by level, and within a level
//! in the order of the keys that run through them.

use crate::bitmap::{bit_or_zero, rank_of, round_up64};
use crate::key::{
    is_strict_prefix, key_le, lemma_first_difference_unique, lemma_key_order_total,
    lemma_prefix_common, sorted,
};
use vstd::prelude::*;

verus! {

/// Key `i` is longer than `d`: its path runs through a node at depth `d`
/// and leaves it by the edge `keys[i][d]`.
pub open spec fn passes(keys: Seq<Seq<u8>>, d: int, i: int) -> bool {
    0 <= d && 0 <= i < keys.len() && d < keys[i].len()
}

/// Keys `i - 1` and `i` run through the same node at depth `d`: both are
/// longer than `d` and they agree on their first `d` bytes.
pub open spec fn same_node(keys: Seq<Seq<u8>>, d: int, i: int) -> bool {
    &&& passes(keys, d, i - 1)
    &&& passes(keys, d, i)
    &&& keys[i - 1].subrange(0, d) == keys[i].subrange(0, d)
}

/// Key `i` is the first key that runs through its node at depth `d`.
pub open spec fn opens_node(keys: Seq<Seq<u8>>, d: int, i: int) -> bool {
    passes(keys, d, i) && !same_node(keys, d, i)
}

/// The number of nodes at depth `d` that the keys before index `i` run
/// through.
pub open spec fn nodes_before(keys: Seq<Seq<u8>>, d: int, i: int) -> nat
    decreases i,
{
    if i <= 0 {
        0
    } else {
        nodes_before(keys, d, i - 1) + if opens_node(keys, d, i - 1) {
            1nat
        } else {
            0nat
        }
    }
}

/// The number of nodes at depth `d`.
pub open spec fn level_size(keys: Seq<Seq<u8>>, d: int) -> nat {
    nodes_before(keys, d, keys.len() as int)
}

/// The number of nodes at depths below `d`: the id of the first node at
/// depth `d`.
pub open spec fn level_start(keys: Seq<Seq<u8>>, d: int) -> nat
    decreases d,
{
    if d <= 0 {
        0
    } else {
        level_start(keys, d - 1) + level_size(keys, d - 1)
    }
}

/// The id of the node at depth `d` through which key `i` runs.
pub open spec fn node_id(keys: Seq<Seq<u8>>, d: int, i: int) -> int {
    level_start(keys, d) + nodes_before(keys, d, i + 1) - 1
}

/// The length of the longest of the first `n` keys.
pub open spec fn max_len_upto(keys: Seq<Seq<u8>>, n: int) -> nat
    decreases n,
{
    if n <= 0 {
        0
    } else {
        let rest = max_len_upto(keys, n - 1);
        if keys[n - 1].len() > rest {
            keys[n - 1].len()
        } else {
            rest
        }
    }
}

/// The length of the longest key; zero where there is none.
pub open spec fn max_len(keys: Seq<Seq<u8>>) -> nat {
    max_len_upto(keys, keys.len() as int)
}

/// The number of nodes of the trie of `keys`.
pub open spec fn node_count(keys: Seq<Seq<u8>>) -> nat {
    level_start(keys, max_len(keys) as int)
}

/// Key `i` leaves its node at depth `d` by the edge at offset `o` of the
/// labels bitmap.
pub open spec fn label_hit(keys: Seq<Seq<u8>>, d: int, i: int, o: int) -> bool {
    passes(keys, d, i) && o == 256 * node_id(keys, d, i) + keys[i][d]
}

/// Key `i` leaves its node at depth `d` by the edge at offset `o` and goes
/// on from there.
pub open spec fn child_hit(keys: Seq<Seq<u8>>, d: int, i: int, o: int) -> bool {
    label_hit(keys, d, i, o) && passes(keys, d + 1, i)
}

/// Key `i` is the first key through node `n`, which lies at depth `d`, and
/// the key before it ends at that node.
pub open spec fn prefix_hit(keys: Seq<Seq<u8>>, d: int, i: int, n: int) -> bool {
    &&& opens_node(keys, d, i)
    &&& n == node_id(keys, d, i)
    &&& i > 0
    &&& keys[i - 1] == keys[i].subrange(0, d)
}

/// Offset `o` of the labels bitmap stands for an edge that some key takes.
pub open spec fn label_at(keys: Seq<Seq<u8>>, o: int) -> bool {
    exists|d: int, i: int| #[trigger] label_hit(keys, d, i, o)
}

/// Offset `o` stands for an edge that some key takes and goes on from.
pub open spec fn child_at(keys: Seq<Seq<u8>>, o: int) -> bool {
    exists|d: int, i: int| #[trigger] child_hit(keys, d, i, o)
}

/// Some key ends at node `n`, which other keys run through.
pub open spec fn prefix_key_at(keys: Seq<Seq<u8>>, n: int) -> bool {
    exists|d: int, i: int| #[trigger] prefix_hit(keys, d, i, n)
}

/// The keys that the builder takes: sorted, none of them empty.
pub open spec fn buildable(keys: Seq<Seq<u8>>) -> bool {
    &&& sorted(keys)
    &&& forall|i: int| 0 <= i < keys.len() ==> (#[trigger] keys[i]).len() > 0
}

/// The three bitmaps hold the encoding of the trie of `keys`, and nothing else.
pub open spec fn encodes(
    keys: Seq<Seq<u8>>,
    labels: Seq<bool>,
    has_child: Seq<bool>,
    is_prefix_key: Seq<bool>,
) -> bool {
    &&& forall|o: int| bit_or_zero(labels, o) == label_at(keys, o)
    &&& forall|o: int| bit_or_zero(has_child, o) == child_at(keys, o)
    &&& forall|n: int| bit_or_zero(is_prefix_key, n) == prefix_key_at(keys, n)
    &&& labels.len() == 256 * level_extent(keys)
    &&& has_child.len() == 256 * level_extent(keys)
    &&& is_prefix_key.len() == round_up64(level_extent(keys))
}

/// The number of nodes that the bitmaps have room for after a build: one
/// at the least.
pub open spec fn level_extent(keys: Seq<Seq<u8>>) -> int {
    if node_count(keys) == 0 {
        1
    } else {
        node_count(keys) as int
    }
}

/// The child-id rule: where key `i` goes on from its edge at depth `d`, the
/// node it reaches has as its id the number of has-child bits up to and
/// with that edge.
pub open spec fn child_ids_by_rank(keys: Seq<Seq<u8>>, has_child: Seq<bool>) -> bool {
    forall|d: int, i: int| #[trigger]
        goes_on(keys, d, i) ==> rank_of(has_child, true, 256 * node_id(keys, d, i) + keys[i][d])
            == node_id(keys, d + 1, i)
}

/// Key `i` runs through a node at depth `d` and does not end with the edge
/// by which it leaves it.
pub open spec fn goes_on(keys: Seq<Seq<u8>>, d: int, i: int) -> bool {
    0 <= d && passes(keys, d + 1, i)
}

/// Keys that open no node add nothing to the count of nodes.
pub proof fn lemma_nodes_before_skip(keys: Seq<Seq<u8>>, d: int, a: int, b: int)
    requires
        a <= b,
        forall|i: int| a <= i < b ==> !opens_node(keys, d, i),
    ensures
        nodes_before(keys, d, a) == nodes_before(keys, d, b),
    decreases b - a,
{
    if a < b {
        lemma_nodes_before_skip(keys, d, a, b - 1);
    }
}

/// The count of nodes grows with the number of keys.
pub proof fn lemma_nodes_before_monotone(keys: Seq<Seq<u8>>, d: int, a: int, b: int)
    requires
        a <= b,
    ensures
        nodes_before(keys, d, a) <= nodes_before(keys, d, b),
    decreases b - a,
{
    if a < b {
        lemma_nodes_before_monotone(keys, d, a, b - 1);
    }
}

/// A deeper level starts at no lesser id.
pub proof fn lemma_level_start_monotone(keys: Seq<Seq<u8>>, a: int, b: int)
    requires
        a <= b,
    ensures
        level_start(keys, a) <= level_start(keys, b),
    decreases b - a,
{
    if a < b {
        lemma_level_start_monotone(keys, a, b - 1);
    }
}

/// None of the first `n` keys is longer than the longest of them.
pub proof fn lemma_max_len_upto(keys: Seq<Seq<u8>>, n: int, i: int)
    requires
        0 <= i < n <= keys.len(),
    ensures
        keys[i].len() <= max_len_upto(keys, n),
    decreases n,
{
    if i < n - 1 {
        lemma_max_len_upto(keys, n - 1, i);
    }
}

/// A key runs only through depths below the greatest key length.
pub proof fn lemma_passes_below_max(keys: Seq<Seq<u8>>, d: int, i: int)
    requires
        passes(keys, d, i),
    ensures
        d < max_len(keys),
{
    lemma_max_len_upto(keys, keys.len() as int, i);
}

/// The id of a node is below the number of nodes.
pub proof fn lemma_node_id_bound(keys: Seq<Seq<u8>>, d: int, i: int)
    requires
        passes(keys, d, i),
    ensures
        0 <= level_start(keys, d) <= node_id(keys, d, i) < level_start(keys, d + 1) <= node_count(
            keys,
        ),
        nodes_before(keys, d, i + 1) >= 1,
{
    lemma_passes_below_max(keys, d, i);
    lemma_level_start_monotone(keys, d + 1, max_len(keys) as int);
    lemma_nodes_before_monotone(keys, d, i + 1, keys.len() as int);
    lemma_first_opens(keys, d, i);
}

/// Before a key that runs through a depth, a node at that depth was opened.
pub proof fn lemma_first_opens(keys: Seq<Seq<u8>>, d: int, i: int)
    requires
        passes(keys, d, i),
    ensures
        nodes_before(keys, d, i + 1) >= 1,
    decreases i,
{
    if !opens_node(keys, d, i) {
        lemma_first_opens(keys, d, i - 1);
    }
}

/// All keys of `lo..=i` run through the node that key `lo` opens.
pub proof fn lemma_in_node(keys: Seq<Seq<u8>>, d: int, lo: int, i: int)
    requires
        opens_node(keys, d, lo),
        lo <= i,
        forall|j: int| lo < j <= i ==> #[trigger] same_node(keys, d, j),
    ensures
        node_id(keys, d, i) == level_start(keys, d) + nodes_before(keys, d, lo),
        nodes_before(keys, d, i + 1) == nodes_before(keys, d, lo) + 1,
    decreases i - lo,
{
    if lo < i {
        lemma_in_node(keys, d, lo, i - 1);
        assert(same_node(keys, d, i));
    }
}

/// Two keys that agree on their first `d` bytes and on the byte after agree
/// on their first `d + 1` bytes, and the other way round.
pub proof fn lemma_prefix_extend(a: Seq<u8>, b: Seq<u8>, d: int)
    requires
        0 <= d < a.len(),
        d < b.len(),
    ensures
        (a.subrange(0, d) == b.subrange(0, d) && a[d] == b[d]) <==> a.subrange(0, d + 1)
            == b.subrange(0, d + 1),
{
    let a0 = a.subrange(0, d);
    let b0 = b.subrange(0, d);
    let a1 = a.subrange(0, d + 1);
    let b1 = b.subrange(0, d + 1);
    if a0 == b0 && a[d] == b[d] {
        assert forall|j: int| 0 <= j < a1.len() implies #[trigger] a1[j] == b1[j] by {
            if j < d {
                assert(a0[j] == b0[j]);
            }
        }
        assert(a1 =~= b1);
    }
    if a1 == b1 {
        assert(a1[d] == b1[d]);
        assert forall|j: int| 0 <= j < a0.len() implies #[trigger] a0[j] == b0[j] by {
            assert(a1[j] == b1[j]);
        }
        assert(a0 =~= b0);
    }
}

/// Of two keys in order that agree on their first `d` bytes and are longer
/// than `d`, the first has the lesser byte at `d`, or the same.
pub proof fn lemma_bytes_in_order(a: Seq<u8>, b: Seq<u8>, d: int)
    requires
        key_le(a, b),
        0 <= d < a.len(),
        d < b.len(),
        a.subrange(0, d) == b.subrange(0, d),
    ensures
        a[d] <= b[d],
{
    if a[d] != b[d] {
        let a0 = a.subrange(0, d);
        let b0 = b.subrange(0, d);
        assert forall|j: int| 0 <= j < d implies a[j] == b[j] by {
            assert(a0[j] == a[j]);
            assert(b0[j] == b[j]);
        }
        lemma_first_difference_unique(a, b, d);
        lemma_key_order_total(a, b);
    }
}

/// A key does not come before one of its strict prefixes.
pub proof fn lemma_prefix_comes_first(p: Seq<u8>, k: Seq<u8>)
    requires
        is_strict_prefix(p, k),
    ensures
        !key_le(k, p),
{
    lemma_prefix_common(p, k);
    lemma_key_order_total(p, k);
    lemma_key_order_total(k, p);
}

/// The child-id rule. Where the labels bitmap of an encoding has a set bit
/// and the has-child bitmap has too, the bit stands for an edge that a key
/// takes and goes on from, and the node which that key reaches has as its id
/// the number of has-child bits up to and with that of the edge.
pub proof fn law_edge_leads_to_ranked_child(
    keys: Seq<Seq<u8>>,
    labels: Seq<bool>,
    has_child: Seq<bool>,
    is_prefix_key: Seq<bool>,
    o: int,
)
    requires
        encodes(keys, labels, has_child, is_prefix_key),
        child_ids_by_rank(keys, has_child),
        bit_or_zero(labels, o),
        bit_or_zero(has_child, o),
    ensures
        exists|d: int, i: int|
            #![trigger label_hit(keys, d, i, o)]
            label_hit(keys, d, i, o) && passes(keys, d + 1, i) && node_id(keys, d + 1, i)
                == rank_of(has_child, true, o),
{
    assert(child_at(keys, o));
    let (d, i) = choose|d: int, i: int| #[trigger] child_hit(keys, d, i, o);
    assert(goes_on(keys, d, i));
    assert(label_hit(keys, d, i, o) && passes(keys, d + 1, i) && node_id(keys, d + 1, i) == rank_of(
        has_child,
        true,
        o,
    ));
}

/// Where the labels bitmap of an encoding has a set bit and the has-child
/// bitmap has not, the bit stands for an edge with which a key ends: the
/// edge `keys[i][d]` of the node at depth `d` on the path of a key `i` of
/// length `d + 1`.
pub proof fn law_edge_without_child_ends_key(
    keys: Seq<Seq<u8>>,
    labels: Seq<bool>,
    has_child: Seq<bool>,
    is_prefix_key: Seq<bool>,
    o: int,
)
    requires
        encodes(keys, labels, has_child, is_prefix_key),
        bit_or_zero(labels, o),
        !bit_or_zero(has_child, o),
    ensures
        exists|d: int, i: int|
            #![trigger label_hit(keys, d, i, o)]
            label_hit(keys, d, i, o) && keys[i].len() == d + 1,
{
    assert(label_at(keys, o));
    let (d, i) = choose|d: int, i: int| #[trigger] label_hit(keys, d, i, o);
    if keys[i].len() > d + 1 {
        assert(child_hit(keys, d, i, o));
        assert(child_at(keys, o));
    }
    assert(label_hit(keys, d, i, o) && keys[i].len() == d + 1);
}

/// The ids of the nodes of one depth are all less than those of the next.
pub proof fn lemma_node_depth(keys: Seq<Seq<u8>>, d: int, i: int, d2: int, j: int)
    requires
        passes(keys, d, i),
        passes(keys, d2, j),
        node_id(keys, d, i) == node_id(keys, d2, j),
    ensures
        d == d2,
{
    lemma_node_id_bound(keys, d, i);
    lemma_node_id_bound(keys, d2, j);
    if d < d2 {
        lemma_level_start_monotone(keys, d + 1, d2);
    } else if d2 < d {
        lemma_level_start_monotone(keys, d2 + 1, d);
    }
}

/// Keys that run through the same node at depth `d` agree on their first
/// `d` bytes.
pub proof fn lemma_node_shares_prefix(keys: Seq<Seq<u8>>, d: int, i: int, j: int)
    requires
        i <= j,
        passes(keys, d, i),
        passes(keys, d, j),
        node_id(keys, d, i) == node_id(keys, d, j),
    ensures
        keys[i].subrange(0, d) == keys[j].subrange(0, d),
    decreases j - i,
{
    if i < j {
        lemma_nodes_before_monotone(keys, d, i + 1, j);
        assert(same_node(keys, d, j));
        lemma_node_shares_prefix(keys, d, i, j - 1);
    }
}

/// Two keys agree on their first `d` bytes exactly when their common prefix
/// is at least that long.
pub proof fn lemma_subrange_common(a: Seq<u8>, b: Seq<u8>, d: int)
    requires
        0 <= d <= a.len(),
        d <= b.len(),
    ensures
        a.subrange(0, d) == b.subrange(0, d) <==> crate::key::common_prefix_len(a, b) >= d,
{
    crate::key::lemma_common_prefix(a, b);
    let c = crate::key::common_prefix_len(a, b) as int;
    let a0 = a.subrange(0, d);
    let b0 = b.subrange(0, d);
    if a0 == b0 && c < d {
        assert(a0[c] == b0[c]);
    }
    if c >= d {
        assert(a0 =~= b0);
    }
}

/// In a sorted list the keys between two keys that run through the same
/// node run through it too.
pub proof fn lemma_prefix_run(keys: Seq<Seq<u8>>, d: int, i: int, m: int, j: int)
    requires
        sorted(keys),
        0 <= d,
        0 <= i <= m <= j < keys.len(),
        passes(keys, d, i),
        passes(keys, d, j),
        keys[i].subrange(0, d) == keys[j].subrange(0, d),
    ensures
        passes(keys, d, m),
        keys[m].subrange(0, d) == keys[i].subrange(0, d),
{
    if i < m && m < j {
        lemma_subrange_common(keys[i], keys[j], d);
        crate::key::lemma_between_shares_prefix(keys[i], keys[m], keys[j]);
        crate::key::lemma_common_prefix(keys[i], keys[m]);
        if keys[m].len() == d {
            let head = keys[i].subrange(0, d);
            assert(head =~= keys[m]) by {
                assert forall|x: int| 0 <= x < d implies head[x] == keys[m][x] by {}
            }
            lemma_prefix_comes_first(keys[m], keys[i]);
        }
        lemma_subrange_common(keys[i], keys[m], d);
    }
}

/// In a sorted list keys that agree on their first `d` bytes, and are longer
/// than that, run through the same node at depth `d`.
pub proof fn lemma_prefix_shares_node(keys: Seq<Seq<u8>>, d: int, i: int, j: int)
    requires
        sorted(keys),
        i <= j,
        passes(keys, d, i),
        passes(keys, d, j),
        keys[i].subrange(0, d) == keys[j].subrange(0, d),
    ensures
        node_id(keys, d, i) == node_id(keys, d, j),
{
    assert forall|m: int| i + 1 <= m < j + 1 implies !opens_node(keys, d, m) by {
        lemma_prefix_run(keys, d, i, m, j);
        lemma_prefix_run(keys, d, i, m - 1, j);
        assert(same_node(keys, d, m));
    }
    lemma_nodes_before_skip(keys, d, i + 1, j + 1);
}

/// Each node has a first key that runs through it.
pub proof fn lemma_opener(keys: Seq<Seq<u8>>, d: int, j: int) -> (i: int)
    requires
        passes(keys, d, j),
    ensures
        0 <= i <= j,
        opens_node(keys, d, i),
        node_id(keys, d, i) == node_id(keys, d, j),
        keys[i].subrange(0, d) == keys[j].subrange(0, d),
    decreases j,
{
    if opens_node(keys, d, j) {
        j
    } else {
        assert(same_node(keys, d, j));
        lemma_opener(keys, d, j - 1)
    }
}

} // verus!
