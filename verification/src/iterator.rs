//! The cursor that walks a LOUDS-DENSE encoded trie in key order.

use crate::bitmap::{
    bit_or_zero, count, lemma_count_bound, lemma_count_monotone, rank_of, Bitmap, BitmapError,
};
use crate::key::{
    common_prefix_len, first_difference, is_prefix, key_le, key_lt, lemma_common_prefix,
    lemma_common_prefix_equal, lemma_first_difference_unique, lemma_key_order_total,
    lemma_prefix_common,
};
use std::collections::VecDeque;
use vstd::prelude::*;
use vstd::std_specs::convert::FromSpecImpl;

verus! {

/// How a step of the cursor or a query ended other than with a result.
///
/// `NoSuchEdge`, `IsLeaf` and `EndOfTrie` are signals of the traversal;
/// `Bitmap` carries a fault of a bitmap access.
#[derive(Debug, PartialEq, Eq, Structural, Clone, Copy)]
pub enum SurfError {
    /// The node has no edge with the byte asked for.
    NoSuchEdge,
    /// The edge exists and a key ends with it: there is no node behind it.
    IsLeaf,
    /// The cursor has passed the last key.
    EndOfTrie,
    /// A bitmap refused an access.
    Bitmap(BitmapError),
}

impl SurfError {
    /// The text that says how the step or query ended.
    pub open spec fn message_of(self) -> Seq<char> {
        match self {
            SurfError::NoSuchEdge => "No such edge"@,
            SurfError::IsLeaf => "Is leaf"@,
            SurfError::EndOfTrie => "Reached end of trie"@,
            SurfError::Bitmap(e) => e.message_of(),
        }
    }

    /// The text that says how the step or query ended.
    pub fn message(&self) -> (r: String)
        ensures
            r@ == self.message_of(),
    {
        match self {
            SurfError::NoSuchEdge => "No such edge".to_owned(),
            SurfError::IsLeaf => "Is leaf".to_owned(),
            SurfError::EndOfTrie => "Reached end of trie".to_owned(),
            SurfError::Bitmap(e) => e.message(),
        }
    }
}

impl From<BitmapError> for SurfError {
    fn from(err: BitmapError) -> (r: SurfError) {
        SurfError::Bitmap(err)
    }
}

impl FromSpecImpl<BitmapError> for SurfError {
    open spec fn obeys_from_spec() -> bool {
        true
    }

    open spec fn from_spec(err: BitmapError) -> SurfError {
        SurfError::Bitmap(err)
    }
}

/// The three bitmaps of an encoded trie, as bit sequences, with the
/// capacities below which each may be addressed.
pub struct Encoded {
    pub labels: Seq<bool>,
    pub has_child: Seq<bool>,
    pub is_prefix_key: Seq<bool>,
    pub label_cap: int,
    pub child_cap: int,
    pub prefix_cap: int,
}

/// The node behind the edge `b` of node `n`, where there is one: its id is
/// the number of has-child bits up to and with that of the edge.
pub open spec fn child_of(t: Encoded, n: int, b: u8) -> Option<int> {
    let o = 256 * n + b;
    if bit_or_zero(t.labels, o) && bit_or_zero(t.has_child, o) {
        Some(rank_of(t.has_child, true, o) as int)
    } else {
        None
    }
}

/// The node that the path of bytes `path` leads to from the root, where all
/// its edges exist and lead to nodes.
pub open spec fn node_at(t: Encoded, path: Seq<u8>) -> Option<int>
    decreases path.len(),
{
    if path.len() == 0 {
        Some(0)
    } else {
        match node_at(t, path.drop_last()) {
            Some(n) => child_of(t, n, path.last()),
            None => None,
        }
    }
}

/// `key` ends with an edge behind which there is no node.
pub open spec fn leaf_at(t: Encoded, key: Seq<u8>) -> bool {
    key.len() > 0 && match node_at(t, key.drop_last()) {
        Some(n) => bit_or_zero(t.labels, 256 * n + key.last()) && !bit_or_zero(
            t.has_child,
            256 * n + key.last(),
        ),
        None => false,
    }
}

/// `key` leads to a node that is marked as the end of a key.
pub open spec fn prefix_key_node(t: Encoded, key: Seq<u8>) -> bool {
    match node_at(t, key) {
        Some(n) => bit_or_zero(t.is_prefix_key, n),
        None => false,
    }
}

/// `key` is one of the keys that the encoding holds.
pub open spec fn stored(t: Encoded, key: Seq<u8>) -> bool {
    leaf_at(t, key) || prefix_key_node(t, key)
}

/// How the descent from node `n` by the edge `b` ends: with the node behind
/// the edge, or with the signal or fault that stopped it. A fault comes from
/// an offset that is not below the capacity of the bitmap it is read from.
pub open spec fn descent(t: Encoded, n: int, b: u8) -> Result<int, SurfError> {
    let o = 256 * n + b;
    if o >= t.label_cap {
        Err(SurfError::Bitmap(BitmapError::OutOfBounds))
    } else if !bit_or_zero(t.labels, o) {
        Err(SurfError::NoSuchEdge)
    } else if o >= t.child_cap {
        Err(SurfError::Bitmap(BitmapError::OutOfBounds))
    } else if !bit_or_zero(t.has_child, o) {
        Err(SurfError::IsLeaf)
    } else {
        Ok(rank_of(t.has_child, true, o) as int)
    }
}

/// A cursor on an encoded trie. It stands at a node and is about to try one
/// of the node's edges; the stacks hold the way back to the root.
pub struct Iterator {
    /// The edges of the nodes.
    pub labels: Bitmap,
    /// The edges that lead to a node.
    pub has_child: Bitmap,
    /// The nodes at which a key ends.
    pub is_prefix_key: Bitmap,
    /// The id of the node the cursor stands at.
    pub node_index: usize,
    /// The ids of the nodes above it, the root first.
    pub nodes: VecDeque<usize>,
    /// The edge to try next, 256 where all were tried.
    pub next_edge: usize,
    /// The edges taken from the root to the node.
    pub edges: VecDeque<usize>,
    /// The bytes of those edges: the prefix that all keys below the node share.
    pub key_prefix: VecDeque<u8>,
}

impl Iterator {
    /// The bitmaps that the cursor walks.
    pub open spec fn encoded(&self) -> Encoded {
        Encoded {
            labels: self.labels@,
            has_child: self.has_child@,
            is_prefix_key: self.is_prefix_key@,
            label_cap: self.labels.capacity as int,
            child_cap: self.has_child.capacity as int,
            prefix_cap: self.is_prefix_key.capacity as int,
        }
    }

    /// The stacks describe the way from the root to the node the cursor
    /// stands at.
    pub open spec fn wf(&self) -> bool {
        &&& self.labels.wf()
        &&& self.has_child.wf()
        &&& self.is_prefix_key.wf()
        &&& self.nodes@.len() == self.key_prefix@.len()
        &&& self.edges@.len() == self.key_prefix@.len()
        &&& self.next_edge <= 256
        &&& forall|i: int|
            0 <= i < self.edges@.len() ==> #[trigger] self.edges@[i] == self.key_prefix@[i]
        &&& node_at(self.encoded(), self.key_prefix@) == Some(self.node_index as int)
        &&& forall|i: int|
            0 <= i < self.nodes@.len() ==> node_at(
                self.encoded(),
                #[trigger] self.key_prefix@.take(i),
            ) == Some(self.nodes@[i] as int)
    }

    /// The cursor has the same bitmaps as `other`.
    pub open spec fn same_trie(&self, other: &Iterator) -> bool {
        &&& self.labels == other.labels
        &&& self.has_child == other.has_child
        &&& self.is_prefix_key == other.is_prefix_key
    }

    /// Moves the cursor to the node behind the edge `edge` of the node it
    /// stands at. Where there is no such edge, or no node behind it, the
    /// cursor stays, with `edge` as the edge to try next.
    pub fn go_to_child(&mut self, edge: u8) -> (r: Result<(), SurfError>)
        requires
            old(self).wf(),
        ensures
            final(self).wf(),
            final(self).same_trie(old(self)),
            match descent(old(self).encoded(), old(self).node_index as int, edge) {
                Ok(m) => {
                    &&& r is Ok
                    &&& final(self).node_index == m
                    &&& final(self).next_edge == 0
                    &&& final(self).key_prefix@ == old(self).key_prefix@.push(edge)
                    &&& final(self).nodes@ == old(self).nodes@.push(old(self).node_index)
                    &&& final(self).edges@ == old(self).edges@.push(edge as usize)
                },
                Err(e) => {
                    &&& r == Err::<(), SurfError>(e)
                    &&& final(self).node_index == old(self).node_index
                    &&& final(self).next_edge == edge
                    &&& final(self).key_prefix@ == old(self).key_prefix@
                    &&& final(self).nodes@ == old(self).nodes@
                    &&& final(self).edges@ == old(self).edges@
                },
            },
    {
        self.next_edge = edge as usize;
        let offset = match self.node_index.checked_mul(256) {
            Some(base) => match base.checked_add(edge as usize) {
                Some(offset) => offset,
                None => {
                    return Err(SurfError::Bitmap(BitmapError::OutOfBounds));
                },
            },
            None => {
                return Err(SurfError::Bitmap(BitmapError::OutOfBounds));
            },
        };
        if offset >= self.labels.capacity {
            return Err(SurfError::Bitmap(BitmapError::OutOfBounds));
        }
        let has_label = self.labels.peek(offset);
        if has_label != 1 {
            return Err(SurfError::NoSuchEdge);
        }
        if offset >= self.has_child.capacity {
            return Err(SurfError::Bitmap(BitmapError::OutOfBounds));
        }
        let has_child = self.has_child.peek(offset);
        if has_child != 1 {
            return Err(SurfError::IsLeaf);
        }
        let next_node = match self.has_child.rank(1, offset) {
            Ok(n) => n,
            Err(e) => {
                return Err(SurfError::Bitmap(e));
            },
        };
        self.key_prefix.push_back(edge);
        self.nodes.push_back(self.node_index);
        self.edges.push_back(edge as usize);
        proof {
            let kp = self.key_prefix@;
            let n = old(self).key_prefix@.len() as int;
            assert(kp.drop_last() =~= old(self).key_prefix@);
            assert forall|i: int| 0 <= i < self.nodes@.len() implies node_at(
                self.encoded(),
                #[trigger] kp.take(i),
            ) == Some(self.nodes@[i] as int) by {
                if i < n {
                    assert(kp.take(i) =~= old(self).key_prefix@.take(i));
                } else {
                    assert(kp.take(i) =~= old(self).key_prefix@);
                }
            }
        }
        self.node_index = next_node;
        self.next_edge = 0;
        Ok(())
    }

    /// Moves the cursor back to the node above the one it stands at, with the
    /// edge after the one it came by as the edge to try next. At the root
    /// the cursor stays and has no edge left to try.
    pub fn ascend(&mut self)
        requires
            old(self).wf(),
        ensures
            final(self).wf(),
            final(self).same_trie(old(self)),
            old(self).key_prefix@.len() == 0 ==> {
                &&& final(self).next_edge == 256
                &&& final(self).node_index == old(self).node_index
                &&& final(self).key_prefix@ == old(self).key_prefix@
                &&& final(self).nodes@ == old(self).nodes@
                &&& final(self).edges@ == old(self).edges@
            },
            old(self).key_prefix@.len() > 0 ==> {
                &&& final(self).next_edge == old(self).key_prefix@.last() + 1
                &&& final(self).node_index == old(self).nodes@.last()
                &&& final(self).key_prefix@ == old(self).key_prefix@.drop_last()
                &&& final(self).nodes@ == old(self).nodes@.drop_last()
                &&& final(self).edges@ == old(self).edges@.drop_last()
            },
    {
        let node = self.nodes.pop_back();
        let edge = self.edges.pop_back();
        let _ = self.key_prefix.pop_back();
        match (node, edge) {
            (Some(node), Some(edge)) => {
                proof {
                    let kp = old(self).key_prefix@;
                    let n = kp.len() as int;
                    assert(kp.take(n - 1) =~= kp.drop_last());
                    assert(self.key_prefix@ =~= kp.drop_last());
                    assert(self.nodes@ =~= old(self).nodes@.drop_last());
                    assert(self.edges@ =~= old(self).edges@.drop_last());
                    assert(old(self).edges@[n - 1] == kp[n - 1]);
                    assert forall|i: int| 0 <= i < self.nodes@.len() implies node_at(
                        self.encoded(),
                        #[trigger] self.key_prefix@.take(i),
                    ) == Some(self.nodes@[i] as int) by {
                        assert(self.key_prefix@.take(i) =~= kp.take(i));
                    }
                }
                self.node_index = node;
                self.next_edge = edge + 1;
            },
            _ => {
                self.next_edge = 256;
            },
        }
    }

    /// The capacities of the three bitmaps hold every node that the cursor
    /// can reach.
    pub open spec fn fits(&self) -> bool {
        fits(self.encoded())
    }

    /// A bound on the steps that the cursor can still take: for the node it
    /// stands at and for each node above it, the edges still to try, each
    /// with what the nodes behind it can cost.
    pub open spec fn potential(&self) -> int {
        work_left(
            total_ones(self.has_child@),
            self.node_index as int,
            self.next_edge as int,
            self.nodes@,
            self.edges@,
        )
    }

    /// The bytes of the edges from the root to the node the cursor stands at.
    pub fn current_key(&self) -> (r: Vec<u8>)
        ensures
            r@ == self.key_prefix@,
    {
        let mut key: Vec<u8> = Vec::new();
        let mut i: usize = 0;
        while i < self.key_prefix.len()
            invariant
                i <= self.key_prefix@.len(),
                key@ == self.key_prefix@.take(i as int),
            decreases self.key_prefix@.len() - i,
        {
            key.push(self.key_prefix[i]);
            assert(key@ =~= self.key_prefix@.take(i + 1));
            i += 1;
        }
        assert(self.key_prefix@.take(i as int) =~= self.key_prefix@);
        key
    }

    /// The next key in order: the least key of the encoding that is at or
    /// after the place of the cursor. The cursor moves to just after it.
    ///
    /// It goes through the edges of the node from the one to try next. An
    /// edge that is missing is passed over. An edge with a node behind it is
    /// followed: where that node is marked as the end of a key, the path to
    /// it is the key, else the search goes on from its first edge. An edge
    /// without a node behind it ends a key: the path with that edge. With no
    /// edge left the cursor goes back up, and at the root the keys are
    /// exhausted. A fault comes from an edge that cannot be tried within the
    /// capacities of the bitmaps, where the search comes to one before it
    /// comes to a key; an encoding that fits its capacities has none.
    pub fn next(&mut self) -> (r: Result<Vec<u8>, SurfError>)
        requires
            old(self).wf(),
        ensures
            final(self).wf(),
            final(self).same_trie(old(self)),
            r is Ok ==> 0 <= final(self).potential() < old(self).potential(),
            old(self).fits() ==> !(r is Err && r->Err_0 is Bitmap),
            match r {
                Ok(key) => yields(
                    old(self).encoded(),
                    old(self).key_prefix@,
                    old(self).next_edge as int,
                    key@,
                    final(self).key_prefix@,
                    final(self).next_edge as int,
                ) && left_after(
                    old(self).encoded(),
                    key@,
                    final(self).key_prefix@,
                    final(self).next_edge as int,
                ),
                Err(SurfError::EndOfTrie) => final(self).key_prefix@.len() == 0
                    && final(self).next_edge == 256 && forall|q: Seq<u8>| #[trigger]
                    halts(old(self).encoded(), q) ==> !ahead(
                        old(self).key_prefix@,
                        old(self).next_edge as int,
                        q,
                    ),
                Err(e) => e == SurfError::Bitmap(BitmapError::OutOfBounds) && exists|q: Seq<u8>|
                    faults_at(
                        old(self).encoded(),
                        old(self).key_prefix@,
                        old(self).next_edge as int,
                        q,
                        final(self).key_prefix@,
                        final(self).next_edge as int,
                    ),
            },
    {
        let ghost t = self.encoded();
        let ghost begin = self.key_prefix@;
        let ghost first = self.next_edge as int;
        proof {
            lemma_search_start(t, begin, first);
        }
        loop
            invariant
                self.wf(),
                self.same_trie(old(self)),
                t == old(self).encoded(),
                begin == old(self).key_prefix@,
                first == old(self).next_edge as int,
                searching(t, begin, first, self.key_prefix@, self.next_edge as int),
                self.potential() <= old(self).potential(),
            decreases self.potential(),
        {
            let ghost path = self.key_prefix@;
            let ghost node = self.node_index as int;
            let ghost nodes = self.nodes@;
            let ghost edges = self.edges@;
            let ghost bound = total_ones(self.has_child@);
            proof {
                assert(forall|j: int| 0 <= j < edges.len() ==> #[trigger] edges[j] <= 255);
            }
            if self.next_edge < 256 {
                let edge = self.next_edge as u8;
                match self.go_to_child(edge) {
                    Ok(_) => {
                        proof {
                            assert(self.key_prefix@.drop_last() =~= path);
                            lemma_node_grows(t, self.key_prefix@);
                            lemma_descend_work(
                                bound,
                                node,
                                self.node_index as int,
                                edge as int,
                                nodes,
                                edges,
                            );
                            lemma_step_down(t, begin, first, path, edge, node);
                        }
                        if self.node_index >= self.is_prefix_key.capacity {
                            return Err(SurfError::Bitmap(BitmapError::OutOfBounds));
                        }
                        let is_prefix_key = self.is_prefix_key.peek(self.node_index);
                        if is_prefix_key == 1 {
                            let key = self.current_key();
                            return Ok(key);
                        }
                    },
                    Err(SurfError::NoSuchEdge) => {
                        proof {
                            lemma_step_skip(t, begin, first, path, edge, node);
                            lemma_skip_work(bound, node, edge as int, nodes, edges);
                        }
                        self.next_edge += 1;
                    },
                    Err(SurfError::IsLeaf) => {
                        let mut key = self.current_key();
                        key.push(edge);
                        self.next_edge += 1;
                        proof {
                            lemma_step_leaf(t, begin, first, path, edge, node);
                            lemma_skip_work(bound, node, edge as int, nodes, edges);
                        }
                        return Ok(key);
                    },
                    Err(e) => {
                        proof {
                            lemma_step_fault(t, begin, first, path, edge, node);
                        }
                        return Err(e);
                    },
                }
            } else if self.node_index == 0 {
                proof {
                    lemma_root_node(t, path);
                    assert(path =~= Seq::<u8>::empty());
                    lemma_step_end(t, begin, first);
                }
                return Err(SurfError::EndOfTrie);
            } else {
                proof {
                    lemma_root_node(t, path);
                    assert(path.drop_last().push(path.last()) =~= path);
                    lemma_step_up(t, begin, first, path.drop_last(), path.last());
                    assert(edges.last() == path.last());
                    lemma_ascend_work(bound, node, nodes, edges);
                }
                self.ascend();
            }
        }
    }
}

/// The number of set bits of a bitmap.
pub open spec fn total_ones(bits: Seq<bool>) -> int {
    count(bits, true, bits.len() as int) as int
}

/// A bound on the steps that a cursor takes from when it enters node `m`
/// until it leaves it upwards, in an encoding whose node ids do not exceed
/// `bound`: each of the 256 edges is tried, and behind each there may be a
/// node with a greater id.
pub open spec fn subtree_work(bound: int, m: int) -> int
    decreases bound + 1 - m,
{
    if m > bound {
        0
    } else {
        256 * (1 + subtree_work(bound, m + 1)) + 1
    }
}

/// A bound on the steps that a cursor takes for one edge of node `n`.
pub open spec fn edge_work(bound: int, n: int) -> int {
    1 + subtree_work(bound, n + 1)
}

/// A bound on the steps that are left for the first `i` nodes above the
/// cursor, once it has come back to them.
pub open spec fn frames_work(bound: int, nodes: Seq<usize>, edges: Seq<usize>, i: int) -> int
    decreases i,
{
    if i <= 0 {
        0
    } else {
        frames_work(bound, nodes, edges, i - 1) + (255 - edges[i - 1]) * edge_work(
            bound,
            nodes[i - 1] as int,
        ) + 1
    }
}

/// The edge `b` of node `n` cannot be tried without a fault: its offset is
/// not below the capacity of the labels; or it is there and its offset is not
/// below the capacity of the has-child bits; or it leads to a node whose id
/// is not below the capacity of the prefix-key bits.
pub open spec fn edge_faults(t: Encoded, n: int, b: u8) -> bool {
    let o = 256 * n + b;
    ||| o >= t.label_cap
    ||| bit_or_zero(t.labels, o) && o >= t.child_cap
    ||| bit_or_zero(t.labels, o) && bit_or_zero(t.has_child, o) && rank_of(t.has_child, true, o)
        >= t.prefix_cap
}

/// `q` leads to a node and then takes an edge that cannot be tried without a
/// fault.
pub open spec fn faulty(t: Encoded, q: Seq<u8>) -> bool {
    q.len() > 0 && match node_at(t, q.drop_last()) {
        Some(n) => edge_faults(t, n, q.last()),
        None => false,
    }
}

/// A search that comes to `q` ends there: with `q` as the key it yields, or
/// with a fault.
pub open spec fn halts(t: Encoded, q: Seq<u8>) -> bool {
    stored(t, q) || faulty(t, q)
}

/// What `next` has found when it hands out `key`: a key of the encoding at
/// or after the place `(path, e)` where the search began, which the search
/// reached without a fault: no key and no fault lies before it. The cursor
/// is left at `(path_after, e_after)`, the place after which all that lies
/// after the key comes, and nothing else.
#[verifier::opaque]
pub open spec fn yields(
    t: Encoded,
    path: Seq<u8>,
    e: int,
    key: Seq<u8>,
    path_after: Seq<u8>,
    e_after: int,
) -> bool {
    &&& stored(t, key)
    &&& !faulty(t, key)
    &&& ahead(path, e, key)
    &&& forall|q: Seq<u8>| #[trigger] halts(t, q) && ahead(path, e, q) ==> key_le(key, q)
    &&& forall|q: Seq<u8>| #[trigger]
        halts(t, q) ==> (ahead(path_after, e_after, q) <==> key_lt(key, q))
}

/// The search from the place `(path, e)` ends with a fault at `q`: no key and
/// no other fault lies before it. The cursor is left before the edge that
/// cannot be tried, or behind it where it is the node behind it that cannot
/// be read.
#[verifier::opaque]
pub open spec fn faults_at(
    t: Encoded,
    path: Seq<u8>,
    e: int,
    q: Seq<u8>,
    path_after: Seq<u8>,
    e_after: int,
) -> bool {
    &&& faulty(t, q)
    &&& ahead(path, e, q)
    &&& forall|k: Seq<u8>| #[trigger] halts(t, k) && ahead(path, e, k) ==> key_le(q, k)
    &&& (path_after == q.drop_last() && e_after == q.last()) || (path_after == q && e_after
        == 0)
}

/// Where a cursor is left when it has yielded `key`: before the edge after
/// the last edge of the key, where that edge has no node behind it, and else
/// before the first edge of the node that the key leads to.
pub open spec fn left_after(t: Encoded, key: Seq<u8>, path: Seq<u8>, e: int) -> bool {
    if leaf_at(t, key) {
        path == key.drop_last() && e == key.last() + 1
    } else {
        path == key && e == 0
    }
}

/// What holds while `next` searches from `(begin, first)` and has come to
/// `(path, e)`: it has passed over no key of the encoding and no edge that
/// cannot be tried, and it has not gone back.
#[verifier::opaque]
pub open spec fn searching(t: Encoded, begin: Seq<u8>, first: int, path: Seq<u8>, e: int) -> bool {
    &&& forall|k: Seq<u8>| #[trigger] halts(t, k) && ahead(begin, first, k) ==> ahead(path, e, k)
    &&& forall|k: Seq<u8>| #[trigger] ahead(path, e, k) ==> ahead(begin, first, k)
}

/// A search that has not moved has passed over nothing.
pub proof fn lemma_search_start(t: Encoded, begin: Seq<u8>, first: int)
    ensures
        searching(t, begin, first, begin, first),
{
    reveal(searching);
    reveal(yields);
    reveal(faults_at);
}

/// The work below a node with a greater id is no more.
pub proof fn lemma_subtree_work_monotone(bound: int, a: int, b: int)
    requires
        a <= b,
    ensures
        subtree_work(bound, a) >= subtree_work(bound, b) >= 0,
    decreases bound + 1 - a,
{
    if a <= bound {
        lemma_subtree_work_monotone(bound, a + 1, if b > a { b } else { a + 1 });
        if b > bound {
        } else if b > a {
        } else {
        }
        lemma_subtree_work_nonneg(bound, a + 1);
    } else {
    }
}

/// The work below a node is not negative.
pub proof fn lemma_subtree_work_nonneg(bound: int, m: int)
    ensures
        subtree_work(bound, m) >= 0,
    decreases bound + 1 - m,
{
    if m <= bound {
        lemma_subtree_work_nonneg(bound, m + 1);
    }
}

/// The work for the nodes above is not negative.
pub proof fn lemma_frames_work_nonneg(bound: int, nodes: Seq<usize>, edges: Seq<usize>, i: int)
    requires
        i <= edges.len(),
        forall|j: int| 0 <= j < edges.len() ==> #[trigger] edges[j] <= 255,
    ensures
        frames_work(bound, nodes, edges, i) >= 0,
    decreases i,
{
    if i > 0 {
        lemma_frames_work_nonneg(bound, nodes, edges, i - 1);
        lemma_subtree_work_nonneg(bound, nodes[i - 1] + 1);
        let a = 255 - edges[i - 1];
        let w = edge_work(bound, nodes[i - 1] as int);
        assert(a * w >= 0) by (nonlinear_arith)
            requires
                a >= 0,
                w >= 0,
        ;
    }
}

/// The work for the nodes above depends on those nodes only.
pub proof fn lemma_frames_work_agree(
    bound: int,
    nodes: Seq<usize>,
    edges: Seq<usize>,
    nodes2: Seq<usize>,
    edges2: Seq<usize>,
    i: int,
)
    requires
        i <= nodes.len(),
        i <= nodes2.len(),
        i <= edges.len(),
        i <= edges2.len(),
        forall|j: int| 0 <= j < i ==> nodes[j] == nodes2[j] && edges[j] == edges2[j],
    ensures
        frames_work(bound, nodes, edges, i) == frames_work(bound, nodes2, edges2, i),
    decreases i,
{
    if i > 0 {
        lemma_frames_work_agree(bound, nodes, edges, nodes2, edges2, i - 1);
    }
}

/// A bound on the steps that a cursor can still take: for the node it
/// stands at and for each node above it, the edges still to try, each with
/// what the nodes behind it can cost.
pub open spec fn work_left(
    bound: int,
    node: int,
    next_edge: int,
    nodes: Seq<usize>,
    edges: Seq<usize>,
) -> int {
    (256 - next_edge) * edge_work(bound, node) + 1 + frames_work(
        bound,
        nodes,
        edges,
        nodes.len() as int,
    )
}

/// Passing over an edge leaves less to do.
pub proof fn lemma_skip_work(bound: int, node: int, e: int, nodes: Seq<usize>, edges: Seq<usize>)
    requires
        0 <= e < 256,
        nodes.len() == edges.len(),
        forall|j: int| 0 <= j < edges.len() ==> #[trigger] edges[j] <= 255,
    ensures
        0 <= work_left(bound, node, e + 1, nodes, edges) < work_left(bound, node, e, nodes, edges),
{
    lemma_frames_work_nonneg(bound, nodes, edges, nodes.len() as int);
    lemma_subtree_work_nonneg(bound, node + 1);
    let a = 256 - e;
    let w = edge_work(bound, node);
    assert((a - 1) * w == a * w - w) by (nonlinear_arith);
    assert((a - 1) * w >= 0) by (nonlinear_arith)
        requires
            a >= 1,
            w >= 0,
    ;
}

/// Following an edge to a node leaves less to do.
pub proof fn lemma_descend_work(
    bound: int,
    n: int,
    m: int,
    e: int,
    nodes: Seq<usize>,
    edges: Seq<usize>,
)
    requires
        0 <= n < m <= bound,
        n <= usize::MAX,
        0 <= e < 256,
        nodes.len() == edges.len(),
        forall|j: int| 0 <= j < edges.len() ==> #[trigger] edges[j] <= 255,
    ensures
        0 <= work_left(bound, m, 0, nodes.push(n as usize), edges.push(e as usize)) < work_left(
            bound,
            n,
            e,
            nodes,
            edges,
        ),
{
    let len = nodes.len() as int;
    let nodes2 = nodes.push(n as usize);
    let edges2 = edges.push(e as usize);
    lemma_frames_work_agree(bound, nodes, edges, nodes2, edges2, len);
    lemma_frames_work_nonneg(bound, nodes, edges, len);
    lemma_subtree_work_monotone(bound, n + 1, m);
    lemma_subtree_work_nonneg(bound, m + 1);
    let w = edge_work(bound, n);
    let a = 256 - e;
    assert(a * w == (a - 1) * w + w) by (nonlinear_arith);
    assert((a - 1) * w >= 0) by (nonlinear_arith)
        requires
            a >= 1,
            w >= 0,
    ;
    assert(subtree_work(bound, m) == 256 * edge_work(bound, m) + 1);
    assert(frames_work(bound, nodes2, edges2, len + 1) == frames_work(bound, nodes2, edges2, len)
        + (255 - e) * w + 1);
}

/// Going back up leaves less to do.
pub proof fn lemma_ascend_work(bound: int, node: int, nodes: Seq<usize>, edges: Seq<usize>)
    requires
        nodes.len() == edges.len(),
        nodes.len() > 0,
        forall|j: int| 0 <= j < edges.len() ==> #[trigger] edges[j] <= 255,
    ensures
        0 <= work_left(
            bound,
            nodes.last() as int,
            edges.last() + 1,
            nodes.drop_last(),
            edges.drop_last(),
        ) < work_left(bound, node, 256, nodes, edges),
{
    let len = nodes.len() as int;
    lemma_frames_work_agree(bound, nodes, edges, nodes.drop_last(), edges.drop_last(), len - 1);
    lemma_frames_work_nonneg(bound, nodes, edges, len - 1);
    lemma_subtree_work_nonneg(bound, nodes.last() + 1);
    let a = 255 - edges.last();
    let w = edge_work(bound, nodes.last() as int);
    assert(a * w >= 0) by (nonlinear_arith)
        requires
            a >= 0,
            w >= 0,
    ;
}

/// The path to a node other than the root has taken an edge, and the id of
/// the node is greater than that of the node above it, whose edge lies
/// before the node's own edges.
pub proof fn lemma_node_grows(t: Encoded, path: Seq<u8>)
    requires
        node_at(t, path) is Some,
    ensures
        path.len() == 0 ==> node_at(t, path) == Some(0int),
        path.len() > 0 ==> {
            let m = node_at(t, path.drop_last())->Some_0;
            let n = node_at(t, path)->Some_0;
            &&& node_at(t, path.drop_last()) is Some
            &&& 0 <= m < n
            &&& 256 * m + path.last() < 256 * n
            &&& n == rank_of(t.has_child, true, 256 * m + path.last())
            &&& bit_or_zero(t.has_child, 256 * m + path.last())
            &&& n <= total_ones(t.has_child)
        },
    decreases path.len(),
{
    if path.len() > 0 {
        let q = path.drop_last();
        lemma_node_grows(t, q);
        let m = node_at(t, q)->Some_0;
        let o = 256 * m + path.last();
        let n = node_at(t, path)->Some_0;
        assert(n == count(t.has_child, true, o + 1));
        if q.len() > 0 {
            let mm = node_at(t, q.drop_last())->Some_0;
            let om = 256 * mm + q.last();
            lemma_count_monotone(t.has_child, true, om + 1, o);
        } else {
            lemma_count_bound(t.has_child, true, o);
        }
        lemma_count_monotone(t.has_child, true, o + 1, t.has_child.len() as int);
    }
}

/// At the root the path is empty, and only there is the node id zero.
pub proof fn lemma_root_node(t: Encoded, path: Seq<u8>)
    requires
        node_at(t, path) is Some,
    ensures
        node_at(t, path) == Some(0int) <==> path.len() == 0,
{
    lemma_node_grows(t, path);
}

/// An edge that is missing has nothing behind it at which a search ends.
pub proof fn lemma_step_skip(t: Encoded, begin: Seq<u8>, first: int, path: Seq<u8>, e: u8, n: int)
    requires
        searching(t, begin, first, path, e as int),
        node_at(t, path) == Some(n),
        descent(t, n, e) == Err::<int, SurfError>(SurfError::NoSuchEdge),
    ensures
        searching(t, begin, first, path, e + 1),
{
    reveal(searching);
    reveal(yields);
    reveal(faults_at);
    let q = path.push(e);
    assert(q.drop_last() =~= path);
    assert forall|k: Seq<u8>| #[trigger] halts(t, k) && ahead(begin, first, k) implies ahead(
        path,
        e + 1,
        k,
    ) by {
        lemma_ahead_skip(path, e, k);
        if is_prefix(q, k) {
            lemma_halt_takes_edge(t, path, e, k);
        }
    }
    assert forall|k: Seq<u8>| #[trigger] ahead(path, e + 1, k) implies ahead(begin, first, k) by {
        lemma_ahead_skip(path, e, k);
    }
}

/// An edge without a node behind it ends a key, the next in order; nothing
/// else at which a search ends takes that edge.
pub proof fn lemma_step_leaf(t: Encoded, begin: Seq<u8>, first: int, path: Seq<u8>, e: u8, n: int)
    requires
        searching(t, begin, first, path, e as int),
        node_at(t, path) == Some(n),
        descent(t, n, e) == Err::<int, SurfError>(SurfError::IsLeaf),
    ensures
        yields(t, begin, first, path.push(e), path, e + 1),
        left_after(t, path.push(e), path, e + 1),
{
    reveal(searching);
    reveal(yields);
    reveal(faults_at);
    let q = path.push(e);
    assert(q.drop_last() =~= path);
    assert(leaf_at(t, q));
    assert(ahead(path, e as int, q));
    assert forall|k: Seq<u8>| #[trigger] halts(t, k) implies (ahead(path, e + 1, k) <==> key_lt(
        q,
        k,
    )) by {
        lemma_ahead_skip(path, e, k);
        lemma_key_order_total(q, k);
        lemma_prefix_common(q, k);
        if is_prefix(q, k) && k != q {
            lemma_halt_takes_edge(t, path, e, k);
        }
        if k == q {
            assert(k.subrange(0, q.len() as int) =~= q);
        }
    }
}

/// Behind an edge with a node comes all that is greater than the path to
/// that node; the path itself is a key where the node is marked.
pub proof fn lemma_step_down(t: Encoded, begin: Seq<u8>, first: int, path: Seq<u8>, e: u8, n: int)
    requires
        searching(t, begin, first, path, e as int),
        node_at(t, path) == Some(n),
        descent(t, n, e) is Ok,
    ensures
        node_at(t, path.push(e)) == Some(descent(t, n, e)->Ok_0),
        descent(t, n, e)->Ok_0 >= t.prefix_cap ==> !fits(t) && faults_at(
            t,
            begin,
            first,
            path.push(e),
            path.push(e),
            0,
        ),
        descent(t, n, e)->Ok_0 < t.prefix_cap && bit_or_zero(
            t.is_prefix_key,
            descent(t, n, e)->Ok_0,
        ) ==> yields(t, begin, first, path.push(e), path.push(e), 0) && left_after(
            t,
            path.push(e),
            path.push(e),
            0,
        ),
        descent(t, n, e)->Ok_0 < t.prefix_cap && !bit_or_zero(
            t.is_prefix_key,
            descent(t, n, e)->Ok_0,
        ) ==> searching(t, begin, first, path.push(e), 0),
{
    reveal(searching);
    reveal(yields);
    reveal(faults_at);
    let q = path.push(e);
    let m = descent(t, n, e)->Ok_0;
    assert(q.drop_last() =~= path);
    assert(ahead(path, e as int, q));
    lemma_fits_no_fault(t, q);
    assert forall|k: Seq<u8>| (#[trigger] ahead(q, 0, k)) <==> key_lt(q, k) by {
        lemma_ahead_below(q, k);
    }
    assert forall|k: Seq<u8>| key_lt(q, k) implies #[trigger] key_le(q, k) by {}
    assert forall|k: Seq<u8>| #[trigger] halts(t, k) implies (ahead(q, 0, k) <==> key_lt(
        q,
        k,
    )) by {
        lemma_ahead_below(q, k);
    }
    if m < t.prefix_cap && !bit_or_zero(t.is_prefix_key, m) {
        assert(!halts(t, q));
        assert forall|k: Seq<u8>| #[trigger] halts(t, k) && ahead(begin, first, k) implies ahead(
            q,
            0,
            k,
        ) by {
            lemma_ahead_below(q, k);
            assert(ahead(path, e as int, k));
        }
        assert forall|k: Seq<u8>| #[trigger] ahead(q, 0, k) implies ahead(begin, first, k) by {
            lemma_ahead_below(q, k);
            assert(ahead(path, e as int, k));
        }
    }
}

/// An edge that cannot be tried ends the search with a fault.
pub proof fn lemma_step_fault(t: Encoded, begin: Seq<u8>, first: int, path: Seq<u8>, e: u8, n: int)
    requires
        searching(t, begin, first, path, e as int),
        node_at(t, path) == Some(n),
        descent(t, n, e) == Err::<int, SurfError>(SurfError::Bitmap(BitmapError::OutOfBounds)),
    ensures
        faults_at(t, begin, first, path.push(e), path, e as int),
        !fits(t),
{
    lemma_fits_no_fault(t, path.push(e));
    reveal(searching);
    reveal(yields);
    reveal(faults_at);
    let q = path.push(e);
    assert(q.drop_last() =~= path);
    assert(ahead(path, e as int, q));
}

/// With no edge left at a node, what is still to come is what comes after
/// the edge that led to the node.
pub proof fn lemma_step_up(t: Encoded, begin: Seq<u8>, first: int, p: Seq<u8>, e: u8)
    requires
        searching(t, begin, first, p.push(e), 256),
    ensures
        searching(t, begin, first, p, e + 1),
{
    reveal(searching);
    reveal(yields);
    reveal(faults_at);
    assert forall|k: Seq<u8>| #[trigger] halts(t, k) && ahead(begin, first, k) implies ahead(
        p,
        e + 1,
        k,
    ) by {
        lemma_ahead_above(p, e, k);
    }
    assert forall|k: Seq<u8>| #[trigger] ahead(p, e + 1, k) implies ahead(begin, first, k) by {
        lemma_ahead_above(p, e, k);
        assert(ahead(p.push(e), 256, k));
    }
}

/// With no edge left at the root, nothing is still to come.
pub proof fn lemma_step_end(t: Encoded, begin: Seq<u8>, first: int)
    requires
        searching(t, begin, first, Seq::<u8>::empty(), 256),
    ensures
        forall|k: Seq<u8>| #[trigger] halts(t, k) ==> !ahead(begin, first, k),
{
    reveal(searching);
    reveal(yields);
    reveal(faults_at);
    assert forall|k: Seq<u8>| #[trigger] halts(t, k) implies !ahead(begin, first, k) by {
        lemma_ahead_root(k);
    }
}

/// In an encoding that fits its capacities every edge can be tried.
pub proof fn lemma_fits_no_fault(t: Encoded, q: Seq<u8>)
    ensures
        fits(t) ==> !faulty(t, q),
{
    if fits(t) && q.len() > 0 && node_at(t, q.drop_last()) is Some {
        let n = node_at(t, q.drop_last())->Some_0;
        assert(256 * n + 255 < t.label_cap);
        if child_of(t, n, q.last()) is Some {
            assert(node_at(t, q) == child_of(t, n, q.last()));
        }
    }
}

/// `key` comes after `path` and after every key that `path` is a prefix of.
pub open spec fn past(path: Seq<u8>, key: Seq<u8>) -> bool {
    key_lt(path, key) && !is_prefix(path, key)
}

/// `key` is at or after the place of a cursor that stands at the end of
/// `path` and is about to try the edge `e`: it is no less than `path` with
/// `e` added, or past `path` where no edge is left to try.
pub open spec fn ahead(path: Seq<u8>, e: int, key: Seq<u8>) -> bool {
    if 0 <= e < 256 {
        key_le(path.push(e as u8), key)
    } else {
        past(path, key)
    }
}

/// All nodes that can be reached from the root lie within the capacities of
/// the three bitmaps.
pub open spec fn fits(t: Encoded) -> bool {
    forall|path: Seq<u8>|
        match #[trigger] node_at(t, path) {
            Some(n) => 256 * n + 255 < t.label_cap && 256 * n + 255 < t.child_cap && n
                < t.prefix_cap,
            None => true,
        }
}

/// A path that leads to a node leads through nodes only.
pub proof fn lemma_node_at_prefix(t: Encoded, p: Seq<u8>, k: Seq<u8>)
    requires
        is_prefix(p, k),
        node_at(t, k) is Some,
    ensures
        node_at(t, p) is Some,
    decreases k.len(),
{
    if p.len() < k.len() {
        assert(k.drop_last().subrange(0, p.len() as int) =~= k.subrange(0, p.len() as int));
        lemma_node_at_prefix(t, p, k.drop_last());
    } else {
        assert(k.subrange(0, p.len() as int) =~= k);
    }
}

/// A key that the encoding holds and that takes the edge `e` after `path`
/// finds that edge in the labels of the node at the end of `path`; where it
/// goes on after the edge, it finds a node behind the edge.
pub proof fn lemma_stored_takes_edge(t: Encoded, path: Seq<u8>, e: u8, k: Seq<u8>)
    requires
        stored(t, k),
        is_prefix(path.push(e), k),
    ensures
        node_at(t, path) is Some,
        bit_or_zero(t.labels, 256 * node_at(t, path)->Some_0 + e),
        k != path.push(e) ==> node_at(t, path.push(e)) is Some,
{
    let q = path.push(e);
    assert(q.drop_last() =~= path);
    assert(q.last() == e);
    lemma_halt_takes_edge(t, path, e, k);
    if k == q {
        if !leaf_at(t, k) {
            assert(node_at(t, q) is Some);
        }
    }
}

/// A place at which a search ends and that takes the edge `e` after `path`
/// goes there from the node at the end of `path`; where it goes on after the
/// edge, it finds a node behind the edge.
pub proof fn lemma_halt_takes_edge(t: Encoded, path: Seq<u8>, e: u8, k: Seq<u8>)
    requires
        halts(t, k),
        is_prefix(path.push(e), k),
    ensures
        node_at(t, path) is Some,
        k != path.push(e) ==> node_at(t, path.push(e)) is Some,
{
    let q = path.push(e);
    assert(q.drop_last() =~= path);
    assert(q.last() == e);
    if k == q {
        if prefix_key_node(t, k) {
            assert(node_at(t, q) is Some);
        }
    } else {
        let r = k.drop_last();
        if k.len() == q.len() {
            assert(k.subrange(0, q.len() as int) =~= k);
        }
        assert(r.subrange(0, q.len() as int) =~= k.subrange(0, q.len() as int));
        assert(is_prefix(q, r));
        if prefix_key_node(t, k) {
            lemma_node_at_prefix(t, q, k);
        } else {
            lemma_node_at_prefix(t, q, r);
        }
    }
}

/// Skipping the edge `e` leaves behind the keys that take it, and no others.
pub proof fn lemma_ahead_skip(path: Seq<u8>, e: u8, k: Seq<u8>)
    ensures
        ahead(path, e + 1, k) <==> ahead(path, e as int, k) && !is_prefix(path.push(e), k),
{
    let q = path.push(e);
    let n = path.len() as int;
    lemma_common_prefix(q, k);
    lemma_common_prefix(path, k);
    lemma_prefix_common(q, k);
    lemma_prefix_common(path, k);
    lemma_key_order_total(q, k);
    lemma_common_prefix_equal(q, k);
    let c = common_prefix_len(q, k) as int;
    if c <= n && c <= k.len() {
        assert(first_difference(path, k, if c < n { c } else { n })) by {
            assert forall|j: int| 0 <= j < c && j < n implies path[j] == k[j] by {
                assert(q[j] == k[j]);
            }
            if c < n && c < k.len() {
                assert(q[c] == path[c]);
            }
        }
        lemma_first_difference_unique(path, k, if c < n { c } else { n });
    }
    if e < 255 {
        let q1 = path.push((e + 1) as u8);
        lemma_common_prefix(q1, k);
        lemma_prefix_common(q1, k);
        lemma_key_order_total(q1, k);
        lemma_common_prefix_equal(q1, k);
        if c < n {
            if c < k.len() {
                assert(first_difference(q1, k, c)) by {
                    assert forall|j: int| 0 <= j < c implies q1[j] == k[j] by {
                        assert(q[j] == k[j]);
                    }
                    assert(q1[c] == q[c]);
                }
            } else {
                assert(first_difference(q1, k, c)) by {
                    assert forall|j: int| 0 <= j < c implies q1[j] == k[j] by {
                        assert(q[j] == k[j]);
                    }
                }
            }
            lemma_first_difference_unique(q1, k, c);
        } else {
            // The keys agree on all of `path`.
            let c1 = if n < k.len() && k[n] == e + 1 {
                n + 1
            } else {
                n
            };
            assert(first_difference(q1, k, c1)) by {
                assert forall|j: int| 0 <= j < c1 implies q1[j] == k[j] by {
                    if j < n {
                        assert(q[j] == k[j]);
                    }
                }
            }
            lemma_first_difference_unique(q1, k, c1);
        }
    }
}

/// Behind the node at the end of `path` come the keys that are greater than
/// `path`, and no others.
pub proof fn lemma_ahead_below(path: Seq<u8>, k: Seq<u8>)
    ensures
        ahead(path, 0, k) <==> key_lt(path, k),
{
    let q = path.push(0u8);
    let n = path.len() as int;
    lemma_common_prefix(q, k);
    lemma_common_prefix(path, k);
    lemma_key_order_total(q, k);
    lemma_key_order_total(path, k);
    lemma_common_prefix_equal(q, k);
    lemma_common_prefix_equal(path, k);
    let c = common_prefix_len(path, k) as int;
    let c1 = if c == n && n < k.len() && k[n] == 0 {
        n + 1
    } else {
        c
    };
    assert(first_difference(q, k, c1)) by {
        assert forall|j: int| 0 <= j < c1 implies q[j] == k[j] by {
            if j < n {
                assert(path[j] == k[j]);
            }
        }
        if c1 < q.len() && c1 < k.len() && c1 < n {
            assert(q[c1] == path[c1]);
        }
    }
    lemma_first_difference_unique(q, k, c1);
}

/// Past the node at the end of a path come the keys that are ahead of the
/// edge after the one by which the path reached the node.
pub proof fn lemma_ahead_above(path: Seq<u8>, e: u8, k: Seq<u8>)
    ensures
        ahead(path.push(e), 256, k) <==> ahead(path, e + 1, k),
{
    lemma_ahead_skip(path, e, k);
    lemma_key_order_total(path.push(e), k);
    lemma_prefix_common(path.push(e), k);
    lemma_common_prefix_equal(path.push(e), k);
}

/// No key is past the root.
pub proof fn lemma_ahead_root(k: Seq<u8>)
    ensures
        !ahead(Seq::<u8>::empty(), 256, k),
{
    assert(k.subrange(0, 0) =~= Seq::<u8>::empty());
}

} // verus!
