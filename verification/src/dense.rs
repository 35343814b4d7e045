//! The builder of the LOUDS-DENSE encoding: it takes a sorted key list and
//! fills the three bitmaps level by level.

use crate::bitmap::{
    bit_or_zero, count, lemma_count_no_ones, lemma_count_same_bits, lemma_count_with_bit,
    lemma_grown_bits, rank_of, round_up64, zeros, Bitmap, BitmapError,
};
use crate::key::{key_le, views, Key};
use crate::trie::{
    buildable, child_at, child_hit, child_ids_by_rank, encodes, goes_on, label_at, label_hit,
    lemma_bytes_in_order, lemma_in_node, lemma_node_id_bound, lemma_passes_below_max,
    lemma_prefix_comes_first, lemma_prefix_extend, level_size, level_start, max_len,
    max_len_upto, node_count, node_id, nodes_before, opens_node, passes, prefix_hit,
    prefix_key_at, same_node,
};
use vstd::prelude::*;

verus! {

/// Pair `(dd, i)` of a depth and a key index comes before `(d, done)`: the
/// builder, which works level by level and key by key, has dealt with it.
pub open spec fn before(dd: int, i: int, d: int, done: int) -> bool {
    dd < d || (dd == d && i < done)
}

/// Some pair before `(d, done)` has its edge at offset `o`.
pub open spec fn label_upto(keys: Seq<Seq<u8>>, d: int, done: int, o: int) -> bool {
    exists|dd: int, i: int| #[trigger] label_hit(keys, dd, i, o) && before(dd, i, d, done)
}

/// Some pair before `(d, done)` has its edge at offset `o` and goes on from it.
pub open spec fn child_upto(keys: Seq<Seq<u8>>, d: int, done: int, o: int) -> bool {
    exists|dd: int, i: int| #[trigger] child_hit(keys, dd, i, o) && before(dd, i, d, done)
}

/// Some pair before `(d, done)` is the first through node `n`, at which a key ends.
pub open spec fn prefix_upto(keys: Seq<Seq<u8>>, d: int, done: int, n: int) -> bool {
    exists|dd: int, i: int| #[trigger] prefix_hit(keys, dd, i, n) && before(dd, i, d, done)
}

/// The labels bitmap holds the edges of all pairs before `(d, done)` and no
/// others.
#[verifier::opaque]
pub open spec fn labels_done(keys: Seq<Seq<u8>>, d: int, done: int, labels: Seq<bool>) -> bool {
    forall|o: int|
        #![trigger bit_or_zero(labels, o)]
        #![trigger label_upto(keys, d, done, o)]
        bit_or_zero(labels, o) == label_upto(keys, d, done, o)
}

/// The has-child bitmap holds the edges from which a key goes on, of all
/// pairs before `(d, done)`, and no others.
#[verifier::opaque]
pub open spec fn children_done(
    keys: Seq<Seq<u8>>,
    d: int,
    done: int,
    has_child: Seq<bool>,
) -> bool {
    forall|o: int|
        #![trigger bit_or_zero(has_child, o)]
        #![trigger child_upto(keys, d, done, o)]
        bit_or_zero(has_child, o) == child_upto(keys, d, done, o)
}

/// The prefix-key bitmap holds the nodes at which a key ends, of all pairs
/// before `(d, done)`, and no others.
#[verifier::opaque]
pub open spec fn prefixes_done(
    keys: Seq<Seq<u8>>,
    d: int,
    done: int,
    is_prefix_key: Seq<bool>,
) -> bool {
    forall|m: int|
        #![trigger bit_or_zero(is_prefix_key, m)]
        #![trigger prefix_upto(keys, d, done, m)]
        bit_or_zero(is_prefix_key, m) == prefix_upto(keys, d, done, m)
}

/// For all pairs before `(d, done)` the child-id rule holds.
#[verifier::opaque]
pub open spec fn ranked(keys: Seq<Seq<u8>>, d: int, done: int, has_child: Seq<bool>) -> bool {
    forall|dd: int, i: int| #[trigger]
        goes_on(keys, dd, i) && before(dd, i, d, done) ==> count(
            has_child,
            true,
            256 * node_id(keys, dd, i) + keys[i][dd] + 1,
        ) == node_id(keys, dd + 1, i)
}

/// No bit is set after offset `pos`.
#[verifier::opaque]
pub open spec fn clear_after(bits: Seq<bool>, pos: int) -> bool {
    forall|o: int| o > pos ==> !#[trigger] bit_or_zero(bits, o)
}

/// What a node still to be built is built from: the keys that run through
/// it, and whether a key ends at it.
///
/// The keys come sorted, so those that run through one node are consecutive:
/// the task holds them as the range `lo..hi` of their indices.
#[derive(Clone, Copy, Debug)]
pub struct NodeTask {
    /// The index of the first key that runs through the node.
    pub lo: usize,
    /// One past the index of the last key that runs through the node.
    pub hi: usize,
    /// Whether a key ends at the node.
    pub is_prefix_key: bool,
}

/// Where the keys that belong to no task begin before task `t`, in a queue
/// whose tasks of the level start at index `base`.
pub open spec fn gap_start(tasks: Seq<NodeTask>, base: int, t: int) -> int {
    if t <= base {
        0
    } else {
        tasks[t - 1].hi as int
    }
}

/// Task `t` stands for a node at depth `d`: its keys are those that run
/// through the node, the keys between it and the task before run through no
/// node at that depth, and its flag says whether the key before its first
/// ends at the node.
pub open spec fn task_ok(
    keys: Seq<Seq<u8>>,
    d: int,
    tasks: Seq<NodeTask>,
    base: int,
    t: int,
) -> bool {
    let task = tasks[t];
    &&& gap_start(tasks, base, t) <= task.lo <= task.hi <= keys.len()
    &&& forall|i: int| gap_start(tasks, base, t) <= i < task.lo ==> !#[trigger] passes(keys, d, i)
    &&& forall|i: int| task.lo <= i < task.hi ==> #[trigger] passes(keys, d, i)
    &&& forall|i: int| task.lo < i < task.hi ==> #[trigger] same_node(keys, d, i)
    &&& task.lo < task.hi ==> opens_node(keys, d, task.lo as int) && (task.is_prefix_key <==> (
        task.lo > 0 && keys[task.lo - 1] == keys[task.lo as int].subrange(0, d)))
}

/// The tasks from index `base` on stand for the nodes at depth `d` that the
/// keys before index `upto` run through.
#[verifier::opaque]
pub open spec fn level_ok(
    keys: Seq<Seq<u8>>,
    d: int,
    tasks: Seq<NodeTask>,
    base: int,
    upto: int,
) -> bool {
    &&& 0 <= base <= tasks.len()
    &&& forall|t: int| base <= t < tasks.len() ==> #[trigger] task_ok(keys, d, tasks, base, t)
    &&& gap_start(tasks, base, tasks.len() as int) <= upto <= keys.len()
    &&& forall|i: int|
        gap_start(tasks, base, tasks.len() as int) <= i < upto ==> !#[trigger] passes(keys, d, i)
}

/// The number of nodes that bitmaps have room for when `n` were built.
pub open spec fn extent(n: int) -> int {
    if n <= 0 {
        1
    } else {
        n
    }
}

/// The offset of the edge taken last in the node that is being built, or
/// the last offset before the node where no edge was taken yet.
pub open spec fn cur_pos(node: int, has_edges: bool, edge: u8) -> int {
    if has_edges {
        256 * node + edge
    } else {
        256 * node - 1
    }
}

/// The state of the edge taken last: the keys `g..k` run along it, the task
/// for the node behind it is the last of the queue, and that task holds
/// those of them that go on, which come after those that end with the edge.
/// The has-child bit of the edge is set exactly when a key went on from it.
#[verifier::opaque]
pub open spec fn group_ok(
    keys: Seq<Seq<u8>>,
    d: int,
    tasks: Seq<NodeTask>,
    base: int,
    g: int,
    k: int,
    lo: int,
    edge: u8,
    bit_set: bool,
) -> bool {
    let c = tasks.last();
    &&& 0 <= base < tasks.len()
    &&& lo <= g <= k
    &&& c.lo <= c.hi
    &&& forall|i: int| g <= i < k ==> (#[trigger] keys[i])[d] == edge
    &&& g > lo ==> keys[g - 1][d] != edge
    &&& c.lo == c.hi ==> c.lo == g && (c.is_prefix_key <==> k > g) && forall|i: int|
        g <= i < k ==> (#[trigger] keys[i]).len() == d + 1
    &&& c.lo < c.hi ==> c.hi == k && g <= c.lo && (c.is_prefix_key <==> c.lo > g) && (forall|
        i: int,
    |
        g <= i < c.lo ==> (#[trigger] keys[i]).len() == d + 1) && (forall|i: int|
        c.lo <= i < c.hi ==> (#[trigger] keys[i]).len() > d + 1)
    &&& bit_set == (c.lo < c.hi)
}

/// What the builder knows of key `k` while it builds the node of the keys
/// from `lo` on: the key runs through the node, as do all keys from `lo` to
/// it, and the keys are in order.
pub open spec fn key_in_node(keys: Seq<Seq<u8>>, d: int, lo: int, k: int) -> bool {
    &&& buildable(keys)
    &&& 0 <= d
    &&& 0 <= lo <= k < keys.len()
    &&& k + 1 <= usize::MAX
    &&& opens_node(keys, d, lo)
    &&& forall|i: int| lo <= i <= k ==> #[trigger] passes(keys, d, i)
    &&& forall|i: int| lo < i <= k ==> #[trigger] same_node(keys, d, i)
}

/// Builds the LOUDS-DENSE encoding of a trie from a sorted key list.
pub struct Builder {
    /// The edges: bit `256 * n + b` is set where node `n` has an edge `b`.
    pub labels: Bitmap,
    /// Bit `256 * n + b` is set where the edge `b` of node `n` leads to a
    /// node, and clear where a key ends with it.
    pub has_child: Bitmap,
    /// Bit `n` is set where a key ends at node `n`.
    pub is_prefix_key: Bitmap,
    /// The nodes still to be built, in the order of their ids.
    pub tasks: Vec<NodeTask>,
    /// The index of the task added last.
    pub current_task_id: usize,
    /// The id of the node that is built next.
    pub current_node_id: usize,
}

impl Builder {
    /// The number of nodes the bitmaps may grow to hold.
    pub open spec fn memory_unit(&self) -> int {
        self.is_prefix_key.capacity as int
    }

    /// The bitmaps are well formed and have the capacities of one memory unit.
    pub open spec fn wf(&self) -> bool {
        &&& self.labels.wf()
        &&& self.has_child.wf()
        &&& self.is_prefix_key.wf()
        &&& self.labels.capacity == 256 * self.memory_unit()
        &&& self.has_child.capacity == 256 * self.memory_unit()
        &&& 256 * self.memory_unit() + 255 <= usize::MAX
    }

    /// The builder is as `new` made it.
    pub open spec fn fresh(&self) -> bool {
        &&& self.wf()
        &&& self.tasks@.len() == 0
        &&& self.current_node_id == 0
        &&& self.labels@ == zeros(256)
        &&& self.has_child@ == zeros(256)
        &&& self.is_prefix_key@ == zeros(64)
    }

    /// What holds between two nodes: all pairs of a depth and a key before
    /// `(d, done)` are encoded, and nothing else is.
    pub open spec fn inv(&self, keys: Seq<Seq<u8>>, d: int, done: int) -> bool {
        let n = self.current_node_id as int;
        &&& self.wf()
        &&& 0 <= d
        &&& 0 <= done <= keys.len()
        &&& keys.len() > 0
        &&& n == level_start(keys, d) + nodes_before(keys, d, done)
        &&& n <= self.memory_unit()
        &&& labels_done(keys, d, done, self.labels@)
        &&& children_done(keys, d, done, self.has_child@)
        &&& prefixes_done(keys, d, done, self.is_prefix_key@)
        &&& self.labels@.len() == 256 * extent(n)
        &&& self.has_child@.len() == 256 * extent(n)
        &&& self.is_prefix_key@.len() == round_up64(extent(n))
        &&& clear_after(self.has_child@, 256 * n - 1)
        &&& count(self.has_child@, true, 256 * n) + 1 == level_start(keys, d + 1) + nodes_before(
            keys,
            d + 1,
            done,
        )
        &&& ranked(keys, d, done, self.has_child@)
    }

    /// A builder whose bitmaps may take `memory_limit` bits between them:
    /// 256 for the labels, 256 for the has-child bits and one for the
    /// prefix-key bit of each node.
    pub fn new(memory_limit: usize) -> (r: Self)
        ensures
            r.fresh(),
            r.memory_unit() == memory_limit / 513,
    {
        let memory_unit = memory_limit / (256 + 256 + 1);
        Builder {
            labels: Bitmap::new(256, 256 * memory_unit),
            has_child: Bitmap::new(256, 256 * memory_unit),
            is_prefix_key: Bitmap::new(1, memory_unit),
            tasks: Vec::new(),
            current_task_id: 0,
            current_node_id: 0,
        }
    }

    /// The offset in the labels bitmap of the node that is built next.
    pub fn label_offset(&self) -> (r: usize)
        requires
            self.current_node_id * 256 <= usize::MAX,
        ensures
            r == self.current_node_id * 256,
    {
        self.current_node_id * 256
    }

    /// The offset in the has-child bitmap of the node that is built next.
    pub fn has_child_offset(&self) -> (r: usize)
        requires
            self.current_node_id * 256 <= usize::MAX,
        ensures
            r == self.current_node_id * 256,
    {
        self.current_node_id * 256
    }

    /// The offset in the prefix-key bitmap of the node that is built next.
    pub fn is_prefix_key_offset(&self) -> (r: usize)
        ensures
            r == self.current_node_id,
    {
        self.current_node_id
    }

    /// Adds to the queue a task without keys, placed before key `at`, and
    /// makes it the current one.
    pub fn append_node_task(&mut self, at: usize)
        ensures
            final(self).tasks@ == old(self).tasks@.push(
                (NodeTask { lo: at, hi: at, is_prefix_key: false }),
            ),
            final(self).current_task_id == old(self).tasks@.len(),
            final(self).labels == old(self).labels,
            final(self).has_child == old(self).has_child,
            final(self).is_prefix_key == old(self).is_prefix_key,
            final(self).current_node_id == old(self).current_node_id,
    {
        let task = NodeTask { lo: at, hi: at, is_prefix_key: false };
        self.tasks.push(task);
        self.current_task_id = self.tasks.len() - 1;
    }

    /// What holds once room was made for the node of the keys `lo..hi` and
    /// its prefix-key bit was set: the node has no edge yet.
    pub open spec fn node_opened(&self, keys: Seq<Seq<u8>>, d: int, lo: int, hi: int) -> bool {
        let n = self.current_node_id as int;
        &&& self.wf()
        &&& n == level_start(keys, d) + nodes_before(keys, d, lo)
        &&& n < self.memory_unit()
        &&& labels_done(keys, d, lo, self.labels@)
        &&& children_done(keys, d, lo, self.has_child@)
        &&& prefixes_done(keys, d, hi, self.is_prefix_key@)
        &&& self.labels@.len() == 256 * (n + 1)
        &&& self.has_child@.len() == 256 * (n + 1)
        &&& self.is_prefix_key@.len() == round_up64(n + 1)
        &&& clear_after(self.has_child@, 256 * n - 1)
        &&& count(self.has_child@, true, 256 * n) + 1 == level_start(keys, d + 1) + nodes_before(
            keys,
            d + 1,
            lo,
        )
        &&& ranked(keys, d, lo, self.has_child@)
    }

    /// Makes room in the three bitmaps for the node that is built next, the
    /// node of the keys `lo..hi`, by reading its last bit in each, and sets
    /// its prefix-key bit where `flag` says that a key ends at it.
    fn open_node(&mut self, keys: &[Key], depth: usize, lo: usize, hi: usize, flag: bool) -> (r:
        Result<(), BitmapError>)
        requires
            old(self).inv(views(keys@), depth as int, lo as int),
            lo < hi <= keys@.len(),
            forall|i: int| lo < i < hi ==> #[trigger] same_node(views(keys@), depth as int, i),
            opens_node(views(keys@), depth as int, lo as int),
            flag <==> (lo > 0 && views(keys@)[lo - 1] == views(keys@)[lo as int].subrange(
                0,
                depth as int,
            )),
        ensures
            final(self).wf(),
            final(self).memory_unit() == old(self).memory_unit(),
            final(self).tasks == old(self).tasks,
            final(self).current_task_id == old(self).current_task_id,
            final(self).current_node_id == old(self).current_node_id,
            r is Ok ==> final(self).node_opened(
                views(keys@),
                depth as int,
                lo as int,
                hi as int,
            ),
            r is Err ==> r == Err::<(), BitmapError>(BitmapError::OutOfBounds) && node_count(
                views(keys@),
            ) > old(self).memory_unit(),
    {
        let ghost kv = views(keys@);
        let ghost d = depth as int;
        let ghost node = self.current_node_id as int;
        proof {
            lemma_in_node(kv, d, lo as int, lo as int);
            lemma_node_id_bound(kv, d, lo as int);
            lemma_grown_bits(self.labels@, 256 * node + 255);
            lemma_grown_bits(self.has_child@, 256 * node + 255);
            lemma_grown_bits(self.is_prefix_key@, node);
        }
        let top = self.label_offset() + 255;
        self.labels.get(top)?;
        let top = self.has_child_offset() + 255;
        self.has_child.get(top)?;
        let bit = self.is_prefix_key_offset();
        self.is_prefix_key.get(bit)?;
        proof {
            lemma_same_bits(
                kv,
                d,
                lo as int,
                old(self).labels@,
                self.labels@,
                256 * node - 1,
                256 * node,
            );
            lemma_same_bits(
                kv,
                d,
                lo as int,
                old(self).has_child@,
                self.has_child@,
                256 * node - 1,
                256 * node,
            );
            lemma_same_bits(
                kv,
                d,
                lo as int,
                old(self).is_prefix_key@,
                self.is_prefix_key@,
                256 * node - 1,
                256 * node,
            );
            lemma_prefix_node(kv, d, lo as int, hi as int, node, flag, self.is_prefix_key@);
            lemma_grown_bits(self.is_prefix_key@, node);
        }
        if flag {
            self.is_prefix_key.set(bit)?;
        }
        Ok(())
    }

    /// Builds the node whose keys are those of `lo..hi`: makes room for it in
    /// the three bitmaps, sets its prefix-key bit where `flag` says so, then
    /// takes the keys in order. A key whose byte at `depth` differs from that
    /// of the key before starts a new edge and a new task for the node behind
    /// it; a key that ends with the edge marks that task, one that goes on
    /// sets the has-child bit and joins the task's keys.
    fn build_node(
        &mut self,
        keys: &[Key],
        depth: usize,
        lo: usize,
        hi: usize,
        flag: bool,
        Ghost(base): Ghost<int>,
    ) -> (r: Result<(), BitmapError>)
        requires
            buildable(views(keys@)),
            old(self).inv(views(keys@), depth as int, lo as int),
            lo < hi <= keys@.len(),
            forall|i: int| lo <= i < hi ==> #[trigger] passes(views(keys@), depth as int, i),
            forall|i: int| lo < i < hi ==> #[trigger] same_node(views(keys@), depth as int, i),
            opens_node(views(keys@), depth as int, lo as int),
            flag <==> (lo > 0 && views(keys@)[lo - 1] == views(keys@)[lo as int].subrange(
                0,
                depth as int,
            )),
            level_ok(views(keys@), depth + 1, old(self).tasks@, base, lo as int),
            0 <= base <= old(self).tasks@.len(),
        ensures
            final(self).wf(),
            final(self).memory_unit() == old(self).memory_unit(),
            r is Ok ==> final(self).inv(views(keys@), depth as int, hi as int) && level_ok(
                views(keys@),
                depth + 1,
                final(self).tasks@,
                base,
                hi as int,
            ) && final(self).tasks@.len() >= old(self).tasks@.len() && (forall|t: int|
                0 <= t < base ==> final(self).tasks@[t] == old(self).tasks@[t]),
            r is Err ==> r == Err::<(), BitmapError>(BitmapError::OutOfBounds) && node_count(
                views(keys@),
            ) > old(self).memory_unit(),
    {
        let ghost kv = views(keys@);
        let ghost d = depth as int;
        let ghost node = self.current_node_id as int;
        let ghost mu = self.memory_unit();
        let mut node_has_edges = false;
        let mut most_recent_edge: u8 = 0x00;
        self.open_node(keys, depth, lo, hi, flag)?;
        let mut k: usize = lo;
        let ghost mut g: int = lo as int;
        while k < hi
            invariant
                buildable(kv),
                kv == views(keys@),
                d == depth as int,
                lo < hi <= keys@.len(),
                forall|i: int| lo <= i < hi ==> #[trigger] passes(kv, d, i),
                forall|i: int| lo < i < hi ==> #[trigger] same_node(kv, d, i),
                opens_node(kv, d, lo as int),
                self.wf(),
                self.memory_unit() == mu,
                self.current_node_id == node,
                node < mu,
                node == level_start(kv, d) + nodes_before(kv, d, lo as int),
                lo <= k <= hi,
                node_has_edges == (k > lo),
                labels_done(kv, d, k as int, self.labels@),
                children_done(kv, d, k as int, self.has_child@),
                prefixes_done(kv, d, hi as int, self.is_prefix_key@),
                self.labels@.len() == 256 * (node + 1),
                self.has_child@.len() == 256 * (node + 1),
                self.is_prefix_key@.len() == round_up64(node + 1),
                clear_after(self.has_child@, cur_pos(node, node_has_edges, most_recent_edge)),
                count(self.has_child@, true, cur_pos(node, node_has_edges, most_recent_edge) + 1)
                    + 1 == level_start(kv, d + 1) + nodes_before(kv, d + 1, k as int),
                ranked(kv, d, k as int, self.has_child@),
                level_ok(kv, d + 1, self.tasks@, base, k as int),
                0 <= base <= old(self).tasks@.len() <= self.tasks@.len(),
                forall|t: int| 0 <= t < base ==> self.tasks@[t] == old(self).tasks@[t],
                node_has_edges ==> base < self.tasks@.len(),
                node_has_edges ==> self.current_task_id == self.tasks@.len() - 1 && group_ok(
                    kv,
                    d,
                    self.tasks@,
                    base,
                    g,
                    k as int,
                    lo as int,
                    most_recent_edge,
                    bit_or_zero(self.has_child@, cur_pos(node, node_has_edges, most_recent_edge)),
                ) && kv[k - 1][d] == most_recent_edge,
            decreases hi - k,
        {
            let key = &keys[k];
            let ghost ki = k as int;
            assert(passes(kv, d, ki));
            assert(key@ == kv[ki]);
            let edge = key[depth];
            let ghost o = 256 * node + edge;
            proof {
                lemma_in_node(kv, d, lo as int, ki);
                if ki > lo {
                    assert(same_node(kv, d, ki));
                    assert(passes(kv, d, ki - 1));
                    lemma_in_node(kv, d, lo as int, ki - 1);
                    assert(key_le(kv[ki - 1], kv[ki]));
                    lemma_bytes_in_order(kv[ki - 1], kv[ki], d);
                }
                assert(key_in_node(kv, d, lo as int, ki));
            }
            if !node_has_edges || most_recent_edge != edge {
                let bit = self.label_offset() + edge as usize;
                proof {
                    lemma_label_set(kv, d, ki, self.labels@, o);
                    lemma_clear_shift(
                        self.has_child@,
                        cur_pos(node, node_has_edges, most_recent_edge),
                        o,
                    );
                    lemma_edge_new(kv, d, self.tasks@, base, k, lo as int, edge);
                }
                self.labels.set(bit)?;
                self.append_node_task(k);
                most_recent_edge = edge;
                node_has_edges = true;
                proof {
                    g = ki;
                }
            } else {
                proof {
                    lemma_label_kept(kv, d, ki, self.labels@);
                }
            }
            let id = self.current_task_id;
            let task = self.tasks[id];
            let ghost tasks0 = self.tasks@;
            let ghost hc0 = self.has_child@;
            assert(task == tasks0.last());
            if depth == key.len() - 1 {
                proof {
                    lemma_key_ends(
                        kv,
                        d,
                        tasks0,
                        base,
                        g,
                        ki,
                        lo as int,
                        edge,
                        bit_or_zero(hc0, o),
                    );
                    lemma_child_skip(kv, d, ki, hc0);
                }
                self.tasks.set(id, NodeTask { lo: task.lo, hi: task.hi, is_prefix_key: true });
            } else {
                let bit = self.has_child_offset() + edge as usize;
                proof {
                    lemma_key_goes_on(
                        kv,
                        d,
                        tasks0,
                        base,
                        g,
                        ki,
                        lo as int,
                        edge,
                        bit_or_zero(hc0, o),
                    );
                    lemma_child_set(kv, d, ki, hc0, o);
                }
                self.has_child.set(bit)?;
                if task.lo == task.hi {
                    self.tasks.set(
                        id,
                        NodeTask { lo: k, hi: k + 1, is_prefix_key: task.is_prefix_key },
                    );
                } else {
                    self.tasks.set(
                        id,
                        NodeTask { lo: task.lo, hi: k + 1, is_prefix_key: task.is_prefix_key },
                    );
                }
            }
            k += 1;
        }
        self.current_node_id += 1;
        proof {
            lemma_in_node(kv, d, lo as int, hi - 1);
            lemma_clear_shift(
                self.has_child@,
                cur_pos(node, node_has_edges, most_recent_edge),
                256 * (node + 1) - 1,
            );
        }
        Ok(())
    }

    /// Builds the nodes of one level: takes the tasks that are in the queue
    /// in order, builds a node for each that has keys, which adds the tasks
    /// of the next level to the queue, and then drops the tasks it took.
    fn build_level(&mut self, keys: &[Key], depth: usize) -> (r: Result<(), BitmapError>)
        requires
            buildable(views(keys@)),
            old(self).inv(views(keys@), depth as int, 0),
            level_ok(views(keys@), depth as int, old(self).tasks@, 0, keys@.len() as int),
        ensures
            final(self).wf(),
            final(self).memory_unit() == old(self).memory_unit(),
            r is Ok ==> final(self).inv(views(keys@), depth + 1, 0) && level_ok(
                views(keys@),
                depth + 1,
                final(self).tasks@,
                0,
                keys@.len() as int,
            ),
            r is Err ==> r == Err::<(), BitmapError>(BitmapError::OutOfBounds) && node_count(
                views(keys@),
            ) > old(self).memory_unit(),
    {
        let ghost kv = views(keys@);
        let ghost d = depth as int;
        let ghost level = self.tasks@;
        let ghost mu = self.memory_unit();
        // While it works on this level the builder adds the tasks of the next,
        // so only the tasks that are in the queue now are of this one.
        let n = self.tasks.len();
        proof {
            lemma_level_empty(kv, d + 1, level, n as int);
        }
        let mut i: usize = 0;
        while i < n
            invariant
                buildable(kv),
                kv == views(keys@),
                d == depth as int,
                0 <= i <= n == level.len() <= self.tasks@.len(),
                forall|t: int| 0 <= t < n ==> self.tasks@[t] == level[t],
                level_ok(kv, d, level, 0, keys@.len() as int),
                self.inv(kv, d, gap_start(level, 0, i as int)),
                level_ok(kv, d + 1, self.tasks@, n as int, gap_start(level, 0, i as int)),
                self.memory_unit() == mu,
                mu == old(self).memory_unit(),
            decreases n - i,
        {
            let task = self.tasks[i];
            proof {
                lemma_level_task(kv, d, level, 0, keys@.len() as int, i as int);
                lemma_inv_skip(*self, kv, d, gap_start(level, 0, i as int), task.lo as int);
                lemma_level_skip(
                    kv,
                    d,
                    self.tasks@,
                    n as int,
                    gap_start(level, 0, i as int),
                    task.lo as int,
                );
            }
            if task.lo != task.hi {
                let flag = task.is_prefix_key;
                self.build_node(keys, depth, task.lo, task.hi, flag, Ghost(n as int))?;
            }
            i += 1;
        }
        proof {
            lemma_level_tail(kv, d, level, 0, keys@.len() as int);
            lemma_inv_skip(*self, kv, d, gap_start(level, 0, n as int), keys@.len() as int);
            lemma_level_skip(
                kv,
                d,
                self.tasks@,
                n as int,
                gap_start(level, 0, n as int),
                keys@.len() as int,
            );
            lemma_inv_next_level(*self, kv, d);
            lemma_level_rebase(kv, d + 1, self.tasks@, n as int, keys@.len() as int);
        }
        // The tasks of this level are done with.
        let rest = self.tasks.split_off(n);
        self.tasks = rest;
        Ok(())
    }

    /// Encodes the trie of `keys` in the three bitmaps.
    ///
    /// The builder must be fresh, and the keys sorted and none of them empty.
    /// The build succeeds exactly when the trie has no more nodes than the
    /// memory limit allows. The bitmaps then hold the encoding of the trie
    /// and nothing else, and the child-id rule holds: the node behind an
    /// edge has as its id the number of has-child bits up to that edge.
    pub fn build(&mut self, keys: &[Key]) -> (r: Result<(), BitmapError>)
        requires
            old(self).fresh(),
            buildable(views(keys@)),
        ensures
            final(self).wf(),
            final(self).memory_unit() == old(self).memory_unit(),
            r is Ok <==> node_count(views(keys@)) <= old(self).memory_unit(),
            r is Ok ==> encodes(
                views(keys@),
                final(self).labels@,
                final(self).has_child@,
                final(self).is_prefix_key@,
            ) && child_ids_by_rank(views(keys@), final(self).has_child@)
                && final(self).current_node_id == node_count(views(keys@)),
            r is Err ==> r == Err::<(), BitmapError>(BitmapError::OutOfBounds),
    {
        let ghost kv = views(keys@);
        // At depth 0 all keys run through the one node there is, the root.
        self.append_node_task(0);
        let id = self.current_task_id;
        self.tasks.set(id, NodeTask { lo: 0, hi: keys.len(), is_prefix_key: false });
        let max_len = max_key_length(keys);
        if keys.len() == 0 {
            proof {
                lemma_no_keys(kv, self.labels@, self.has_child@, self.is_prefix_key@);
            }
            return Ok(());
        }
        proof {
            lemma_root_level(kv, self.tasks@);
            lemma_fresh_inv(*self, kv);
        }
        let mut depth: usize = 0;
        while depth < max_len
            invariant
                buildable(kv),
                kv == views(keys@),
                max_len == crate::trie::max_len(kv),
                depth <= max_len,
                self.inv(kv, depth as int, 0),
                level_ok(kv, depth as int, self.tasks@, 0, keys@.len() as int),
                self.memory_unit() == old(self).memory_unit(),
            decreases max_len - depth,
        {
            self.build_level(keys, depth)?;
            depth += 1;
        }
        proof {
            lemma_built(*self, kv);
        }
        Ok(())
    }
}

/// The length of the longest key, zero where there is none.
pub fn max_key_length(keys: &[Key]) -> (r: usize)
    ensures
        r == max_len(views(keys@)),
{
    let mut r: usize = 0;
    let mut i: usize = 0;
    while i < keys.len()
        invariant
            i <= keys@.len(),
            r == max_len_upto(views(keys@), i as int),
        decreases keys@.len() - i,
    {
        if keys[i].len() > r {
            r = keys[i].len();
        }
        i += 1;
    }
    r
}

/// Dealing with key `k` at depth `d` adds what key `k` hits, and no more.
pub proof fn lemma_upto_step(keys: Seq<Seq<u8>>, d: int, k: int)
    ensures
        forall|o: int|
            #![trigger label_upto(keys, d, k + 1, o)]
            #![trigger label_upto(keys, d, k, o)]
            label_upto(keys, d, k + 1, o) == (label_upto(keys, d, k, o) || label_hit(
                keys,
                d,
                k,
                o,
            )),
        forall|o: int|
            #![trigger child_upto(keys, d, k + 1, o)]
            #![trigger child_upto(keys, d, k, o)]
            child_upto(keys, d, k + 1, o) == (child_upto(keys, d, k, o) || child_hit(
                keys,
                d,
                k,
                o,
            )),
        forall|n: int|
            #![trigger prefix_upto(keys, d, k + 1, n)]
            #![trigger prefix_upto(keys, d, k, n)]
            prefix_upto(keys, d, k + 1, n) == (prefix_upto(keys, d, k, n) || prefix_hit(
                keys,
                d,
                k,
                n,
            )),
{
    assert forall|o: int|
        label_upto(keys, d, k + 1, o) == (label_upto(keys, d, k, o) || label_hit(
            keys,
            d,
            k,
            o,
        )) by {
        if label_upto(keys, d, k + 1, o) {
            let (dd, i) = choose|dd: int, i: int| #[trigger]
                label_hit(keys, dd, i, o) && before(dd, i, d, k + 1);
            if !(dd == d && i == k) {
                assert(label_hit(keys, dd, i, o) && before(dd, i, d, k));
            }
        }
        if label_upto(keys, d, k, o) {
            let (dd, i) = choose|dd: int, i: int| #[trigger]
                label_hit(keys, dd, i, o) && before(dd, i, d, k);
            assert(label_hit(keys, dd, i, o) && before(dd, i, d, k + 1));
        }
        if label_hit(keys, d, k, o) {
            assert(label_hit(keys, d, k, o) && before(d, k, d, k + 1));
        }
    }
    assert forall|o: int|
        child_upto(keys, d, k + 1, o) == (child_upto(keys, d, k, o) || child_hit(
            keys,
            d,
            k,
            o,
        )) by {
        if child_upto(keys, d, k + 1, o) {
            let (dd, i) = choose|dd: int, i: int| #[trigger]
                child_hit(keys, dd, i, o) && before(dd, i, d, k + 1);
            if !(dd == d && i == k) {
                assert(child_hit(keys, dd, i, o) && before(dd, i, d, k));
            }
        }
        if child_upto(keys, d, k, o) {
            let (dd, i) = choose|dd: int, i: int| #[trigger]
                child_hit(keys, dd, i, o) && before(dd, i, d, k);
            assert(child_hit(keys, dd, i, o) && before(dd, i, d, k + 1));
        }
        if child_hit(keys, d, k, o) {
            assert(child_hit(keys, d, k, o) && before(d, k, d, k + 1));
        }
    }
    assert forall|n: int|
        prefix_upto(keys, d, k + 1, n) == (prefix_upto(keys, d, k, n) || prefix_hit(
            keys,
            d,
            k,
            n,
        )) by {
        if prefix_upto(keys, d, k + 1, n) {
            let (dd, i) = choose|dd: int, i: int| #[trigger]
                prefix_hit(keys, dd, i, n) && before(dd, i, d, k + 1);
            if !(dd == d && i == k) {
                assert(prefix_hit(keys, dd, i, n) && before(dd, i, d, k));
            }
        }
        if prefix_upto(keys, d, k, n) {
            let (dd, i) = choose|dd: int, i: int| #[trigger]
                prefix_hit(keys, dd, i, n) && before(dd, i, d, k);
            assert(prefix_hit(keys, dd, i, n) && before(dd, i, d, k + 1));
        }
        if prefix_hit(keys, d, k, n) {
            assert(prefix_hit(keys, d, k, n) && before(d, k, d, k + 1));
        }
    }
}

/// Of the keys of a node only the first can be the one before which a key
/// ends at the node.
pub proof fn lemma_prefix_upto_node(keys: Seq<Seq<u8>>, d: int, lo: int, hi: int, m: int)
    requires
        lo < hi,
        opens_node(keys, d, lo),
        forall|i: int| lo < i < hi ==> #[trigger] same_node(keys, d, i),
    ensures
        prefix_upto(keys, d, hi, m) == (prefix_upto(keys, d, lo, m) || prefix_hit(keys, d, lo, m)),
{
    if prefix_upto(keys, d, hi, m) {
        let (dd, i) = choose|dd: int, i: int| #[trigger]
            prefix_hit(keys, dd, i, m) && before(dd, i, d, hi);
        if dd == d && i > lo {
            assert(same_node(keys, d, i));
        }
        if !(dd == d && i == lo) {
            assert(prefix_hit(keys, dd, i, m) && before(dd, i, d, lo));
        }
    }
    if prefix_upto(keys, d, lo, m) {
        let (dd, i) = choose|dd: int, i: int| #[trigger]
            prefix_hit(keys, dd, i, m) && before(dd, i, d, lo);
        assert(prefix_hit(keys, dd, i, m) && before(dd, i, d, hi));
    }
    if prefix_hit(keys, d, lo, m) {
        assert(prefix_hit(keys, d, lo, m) && before(d, lo, d, hi));
    }
}

/// Bitmaps with the same bits stand for the same progress.
pub proof fn lemma_same_bits(
    keys: Seq<Seq<u8>>,
    d: int,
    done: int,
    a: Seq<bool>,
    b: Seq<bool>,
    p: int,
    n: int,
)
    requires
        forall|j: int| bit_or_zero(a, j) == bit_or_zero(b, j),
    ensures
        labels_done(keys, d, done, a) == labels_done(keys, d, done, b),
        children_done(keys, d, done, a) == children_done(keys, d, done, b),
        prefixes_done(keys, d, done, a) == prefixes_done(keys, d, done, b),
        ranked(keys, d, done, a) == ranked(keys, d, done, b),
        clear_after(a, p) == clear_after(b, p),
        count(a, true, n) == count(b, true, n),
{
    reveal(labels_done);
    reveal(children_done);
    reveal(prefixes_done);
    reveal(ranked);
    reveal(clear_after);
    lemma_count_same_bits(a, b);
}

/// A key that takes a new edge adds that edge to the labels.
pub proof fn lemma_label_set(keys: Seq<Seq<u8>>, d: int, k: int, labels: Seq<bool>, o: int)
    requires
        labels_done(keys, d, k, labels),
        passes(keys, d, k),
        o == 256 * node_id(keys, d, k) + keys[k][d],
        0 <= o < labels.len(),
    ensures
        labels_done(keys, d, k + 1, labels.update(o, true)),
        labels.update(o, true) == crate::bitmap::with_bit(labels, o, true),
{
    reveal(labels_done);
    lemma_upto_step(keys, d, k);
    assert(labels.update(o, true) =~= crate::bitmap::with_bit(labels, o, true));
}

/// A key that takes the edge of the key before it adds nothing to the labels.
pub proof fn lemma_label_kept(keys: Seq<Seq<u8>>, d: int, k: int, labels: Seq<bool>)
    requires
        labels_done(keys, d, k, labels),
        passes(keys, d, k),
        passes(keys, d, k - 1),
        node_id(keys, d, k - 1) == node_id(keys, d, k),
        keys[k - 1][d] == keys[k][d],
    ensures
        labels_done(keys, d, k + 1, labels),
{
    reveal(labels_done);
    lemma_upto_step(keys, d, k);
    let o = 256 * node_id(keys, d, k) + keys[k][d];
    assert(label_hit(keys, d, k - 1, o) && before(d, k - 1, d, k));
}

/// A key that ends with its edge adds nothing to the has-child bits.
pub proof fn lemma_child_skip(keys: Seq<Seq<u8>>, d: int, k: int, has_child: Seq<bool>)
    requires
        children_done(keys, d, k, has_child),
        ranked(keys, d, k, has_child),
        !passes(keys, d + 1, k),
    ensures
        children_done(keys, d, k + 1, has_child),
        ranked(keys, d, k + 1, has_child),
        nodes_before(keys, d + 1, k + 1) == nodes_before(keys, d + 1, k),
{
    reveal(children_done);
    reveal(ranked);
    lemma_upto_step(keys, d, k);
    assert(!goes_on(keys, d, k));
}

/// A key that goes on from its edge sets the has-child bit of the edge; the
/// count of has-child bits up to it is then the id of the node behind it.
pub proof fn lemma_child_set(keys: Seq<Seq<u8>>, d: int, k: int, has_child: Seq<bool>, o: int)
    requires
        0 <= d,
        children_done(keys, d, k, has_child),
        ranked(keys, d, k, has_child),
        clear_after(has_child, o),
        passes(keys, d + 1, k),
        o == 256 * node_id(keys, d, k) + keys[k][d],
        0 <= o < has_child.len(),
        bit_or_zero(has_child, o) == !opens_node(keys, d + 1, k),
        count(has_child, true, o + 1) + 1 == level_start(keys, d + 1) + nodes_before(
            keys,
            d + 1,
            k,
        ),
    ensures
        children_done(keys, d, k + 1, has_child.update(o, true)),
        ranked(keys, d, k + 1, has_child.update(o, true)),
        clear_after(has_child.update(o, true), o),
        count(has_child.update(o, true), true, o + 1) + 1 == level_start(keys, d + 1)
            + nodes_before(keys, d + 1, k + 1),
        bit_or_zero(has_child.update(o, true), o),
        has_child.update(o, true) == crate::bitmap::with_bit(has_child, o, true),
{
    reveal(children_done);
    reveal(ranked);
    reveal(clear_after);
    let after = has_child.update(o, true);
    lemma_upto_step(keys, d, k);
    lemma_count_with_bit(has_child, o, o + 1);
    assert(after =~= crate::bitmap::with_bit(has_child, o, true));
    assert(passes(keys, d, k));
    assert forall|x: int| x > o implies !#[trigger] bit_or_zero(after, x) by {
        assert(!bit_or_zero(has_child, x));
    }
    assert forall|dd: int, i: int| #[trigger]
        goes_on(keys, dd, i) && before(dd, i, d, k + 1) implies count(
        after,
        true,
        256 * node_id(keys, dd, i) + keys[i][dd] + 1,
    ) == node_id(keys, dd + 1, i) by {
        let x = 256 * node_id(keys, dd, i) + keys[i][dd];
        if dd == d && i == k {
        } else {
            assert(child_hit(keys, dd, i, x) && before(dd, i, d, k));
            assert(child_upto(keys, d, k, x));
            assert(bit_or_zero(has_child, x));
            if x < o {
                lemma_count_with_bit(has_child, o, x + 1);
            } else {
                assert(after =~= has_child);
            }
        }
    }
}

/// Where no bit is set after `p`, none is set after a later `q`, and the
/// counts up to `p` and up to `q` are the same.
pub proof fn lemma_clear_shift(bits: Seq<bool>, p: int, q: int)
    requires
        clear_after(bits, p),
        p <= q,
    ensures
        clear_after(bits, q),
        count(bits, true, q + 1) == count(bits, true, p + 1),
        q > p ==> !bit_or_zero(bits, q),
{
    reveal(clear_after);
    lemma_count_no_ones(bits, p + 1, q + 1);
}

/// The prefix-key bit of a node is decided by the key before its first.
pub proof fn lemma_prefix_node(
    keys: Seq<Seq<u8>>,
    d: int,
    lo: int,
    hi: int,
    node: int,
    flag: bool,
    is_prefix_key: Seq<bool>,
)
    requires
        prefixes_done(keys, d, lo, is_prefix_key),
        lo < hi,
        opens_node(keys, d, lo),
        forall|i: int| lo < i < hi ==> #[trigger] same_node(keys, d, i),
        node == node_id(keys, d, lo),
        flag <==> (lo > 0 && keys[lo - 1] == keys[lo].subrange(0, d)),
        0 <= node < is_prefix_key.len(),
    ensures
        flag ==> prefixes_done(keys, d, hi, is_prefix_key.update(node, true))
            && is_prefix_key.update(node, true) == crate::bitmap::with_bit(
            is_prefix_key,
            node,
            true,
        ),
        !flag ==> prefixes_done(keys, d, hi, is_prefix_key),
{
    reveal(prefixes_done);
    assert(is_prefix_key.update(node, true) =~= crate::bitmap::with_bit(
        is_prefix_key,
        node,
        true,
    ));
    assert forall|m: int| #[trigger]
        prefix_upto(keys, d, hi, m) == (prefix_upto(keys, d, lo, m) || (flag && m == node)) by {
        lemma_prefix_upto_node(keys, d, lo, hi, m);
    }
}

/// A task without keys may join the queue where the keys dealt with end.
proof fn lemma_level_push(keys: Seq<Seq<u8>>, d: int, tasks: Seq<NodeTask>, base: int, k: usize)
    requires
        level_ok(keys, d, tasks, base, k as int),
    ensures
        level_ok(
            keys,
            d,
            tasks.push((NodeTask { lo: k, hi: k, is_prefix_key: false })),
            base,
            k as int,
        ),
{
    reveal(level_ok);
    let after = tasks.push((NodeTask { lo: k, hi: k, is_prefix_key: false }));
    assert forall|t: int| base <= t < after.len() implies #[trigger] task_ok(
        keys,
        d,
        after,
        base,
        t,
    ) by {
        if t < tasks.len() {
            assert(task_ok(keys, d, tasks, base, t));
        }
    }
}

/// Replacing the last task by one that is in order for the keys up to
/// `upto` leaves the queue in order.
proof fn lemma_level_replace_last(
    keys: Seq<Seq<u8>>,
    d: int,
    tasks: Seq<NodeTask>,
    base: int,
    k: int,
    upto: int,
    task: NodeTask,
)
    requires
        level_ok(keys, d, tasks, base, k),
        base < tasks.len(),
        task_ok(keys, d, tasks.update(tasks.len() - 1, task), base, tasks.len() - 1),
        task.hi <= upto <= keys.len(),
        forall|i: int| task.hi <= i < upto ==> !#[trigger] passes(keys, d, i),
    ensures
        level_ok(keys, d, tasks.update(tasks.len() - 1, task), base, upto),
{
    reveal(level_ok);
    let after = tasks.update(tasks.len() - 1, task);
    assert forall|t: int| base <= t < after.len() implies #[trigger] task_ok(
        keys,
        d,
        after,
        base,
        t,
    ) by {
        if t < tasks.len() - 1 {
            assert(task_ok(keys, d, tasks, base, t));
        }
    }
}

/// A key that takes a new edge: the task for the node behind the edge joins
/// the queue, without keys and unmarked.
pub proof fn lemma_edge_new(
    keys: Seq<Seq<u8>>,
    d: int,
    tasks: Seq<NodeTask>,
    base: int,
    k: usize,
    lo: int,
    edge: u8,
)
    requires
        level_ok(keys, d + 1, tasks, base, k as int),
        0 <= base <= tasks.len(),
        lo <= k,
        k > lo ==> keys[k - 1][d] != edge,
    ensures
        level_ok(
            keys,
            d + 1,
            tasks.push((NodeTask { lo: k, hi: k, is_prefix_key: false })),
            base,
            k as int,
        ),
        group_ok(
            keys,
            d,
            tasks.push((NodeTask { lo: k, hi: k, is_prefix_key: false })),
            base,
            k as int,
            k as int,
            lo,
            edge,
            false,
        ),
{
    reveal(group_ok);
    lemma_level_push(keys, d + 1, tasks, base, k);
}

/// A key that ends with the edge taken last: no key went on from that edge
/// before it, and the task for the node behind the edge is marked.
pub proof fn lemma_key_ends(
    keys: Seq<Seq<u8>>,
    d: int,
    tasks: Seq<NodeTask>,
    base: int,
    g: int,
    k: int,
    lo: int,
    edge: u8,
    bit_set: bool,
)
    requires
        key_in_node(keys, d, lo, k),
        keys[k][d] == edge,
        keys[k].len() == d + 1,
        group_ok(keys, d, tasks, base, g, k, lo, edge, bit_set),
        level_ok(keys, d + 1, tasks, base, k),
    ensures
        tasks.last().lo == tasks.last().hi,
        level_ok(
            keys,
            d + 1,
            tasks.update(
                tasks.len() - 1,
                (NodeTask { lo: tasks.last().lo, hi: tasks.last().hi, is_prefix_key: true }),
            ),
            base,
            k + 1,
        ),
        group_ok(
            keys,
            d,
            tasks.update(
                tasks.len() - 1,
                (NodeTask { lo: tasks.last().lo, hi: tasks.last().hi, is_prefix_key: true }),
            ),
            base,
            g,
            k + 1,
            lo,
            edge,
            bit_set,
        ),
{
    reveal(group_ok);
    let c = tasks.last();
    if c.lo < c.hi {
        // A key that goes on from this edge came before one that ends with it.
        assert(keys[k - 1].len() > d + 1);
        assert(keys[k - 1][d] == edge);
        assert(same_node(keys, d, k));
        lemma_prefix_extend(keys[k - 1], keys[k], d);
        assert(keys[k].subrange(0, d + 1) =~= keys[k]);
        lemma_prefix_comes_first(keys[k], keys[k - 1]);
        assert(key_le(keys[k - 1], keys[k]));
        assert(false);
    }
    let task = NodeTask { lo: c.lo, hi: c.hi, is_prefix_key: true };
    let after = tasks.update(tasks.len() - 1, task);
    assert(task_ok(keys, d + 1, after, base, tasks.len() - 1)) by {
        reveal(level_ok);
        assert(task_ok(keys, d + 1, tasks, base, tasks.len() - 1));
    }
    assert forall|i: int| task.hi <= i < k + 1 implies !#[trigger] passes(keys, d + 1, i) by {
        assert(keys[i].len() == d + 1);
    }
    lemma_level_replace_last(keys, d + 1, tasks, base, k, k + 1, task);
}

/// A key that goes on from the edge taken last joins the task for the node
/// behind the edge: as its first key where no key went on from the edge
/// before, which is when the has-child bit of the edge is not yet set.
pub proof fn lemma_key_goes_on(
    keys: Seq<Seq<u8>>,
    d: int,
    tasks: Seq<NodeTask>,
    base: int,
    g: int,
    k: int,
    lo: int,
    edge: u8,
    bit_set: bool,
)
    requires
        key_in_node(keys, d, lo, k),
        keys[k][d] == edge,
        keys[k].len() > d + 1,
        group_ok(keys, d, tasks, base, g, k, lo, edge, bit_set),
        level_ok(keys, d + 1, tasks, base, k),
    ensures
        bit_set == !opens_node(keys, d + 1, k),
        bit_set == (tasks.last().lo < tasks.last().hi),
        level_ok(keys, d + 1, tasks.update(tasks.len() - 1, joined(tasks.last(), k)), base, k + 1),
        group_ok(
            keys,
            d,
            tasks.update(tasks.len() - 1, joined(tasks.last(), k)),
            base,
            g,
            k + 1,
            lo,
            edge,
            true,
        ),
{
    reveal(group_ok);
    let c = tasks.last();
    let q = keys[k].subrange(0, d + 1);
    let task = joined(c, k);
    let after = tasks.update(tasks.len() - 1, task);
    assert(passes(keys, d, k));
    assert(passes(keys, d + 1, k));
    if k > lo {
        assert(same_node(keys, d, k));
        assert(passes(keys, d, k - 1));
        lemma_prefix_extend(keys[k - 1], keys[k], d);
    }
    if k > 0 && k == lo && keys[k - 1].len() > d {
        // The key before is not of this node.
        assert(passes(keys, d, k - 1));
        if keys[k - 1].len() == d + 1 {
            assert(keys[k - 1].subrange(0, d + 1) =~= keys[k - 1]);
        }
        lemma_prefix_extend(keys[k - 1], keys[k], d);
    }
    if k > g {
        assert(keys[k - 1][d] == edge);
    }
    if c.lo == c.hi {
        if k > g {
            assert(keys[k - 1].len() == d + 1);
            assert(keys[k - 1].subrange(0, d + 1) =~= keys[k - 1]);
        } else if k > 0 && keys[k - 1] == q {
            assert(keys[k - 1].len() == d + 1);
            assert(keys[k - 1].subrange(0, d + 1) =~= keys[k - 1]);
            assert(q[d] == keys[k][d]);
        }
        assert(opens_node(keys, d + 1, k));
        assert(c.is_prefix_key <==> (k > 0 && keys[k - 1] == q));
    } else {
        assert(c.lo < c.hi);
        assert(c.hi == k);
        assert(forall|i: int| c.lo <= i < c.hi ==> (#[trigger] keys[i]).len() > d + 1);
        assert(keys[k - 1].len() > d + 1);
        assert(passes(keys, d + 1, k - 1));
        assert(same_node(keys, d + 1, k));
    }
    assert(task_ok(keys, d + 1, after, base, tasks.len() - 1)) by {
        reveal(level_ok);
        assert(task_ok(keys, d + 1, tasks, base, tasks.len() - 1));
        let gap = gap_start(after, base, tasks.len() - 1);
        assert forall|i: int| gap <= i < task.lo implies !#[trigger] passes(keys, d + 1, i) by {
            if i >= g {
                assert(keys[i].len() == d + 1);
            }
        }
        assert forall|i: int| task.lo <= i < task.hi implies #[trigger] passes(keys, d + 1, i) by {
            if i < k {
                assert(keys[i].len() > d + 1);
            }
        }
    }
    lemma_level_replace_last(keys, d + 1, tasks, base, k, k + 1, task);
}

/// The task after key `k` has joined it: its only key where it had none.
pub open spec fn joined(task: NodeTask, k: int) -> NodeTask {
    if task.lo == task.hi {
        NodeTask { lo: k as usize, hi: (k + 1) as usize, is_prefix_key: task.is_prefix_key }
    } else {
        NodeTask { lo: task.lo, hi: (k + 1) as usize, is_prefix_key: task.is_prefix_key }
    }
}

/// The queue hands out what it holds of each of its tasks.
proof fn lemma_level_task(
    keys: Seq<Seq<u8>>,
    d: int,
    tasks: Seq<NodeTask>,
    base: int,
    upto: int,
    t: int,
)
    requires
        level_ok(keys, d, tasks, base, upto),
        base <= t < tasks.len(),
    ensures
        task_ok(keys, d, tasks, base, t),
        tasks[t].hi <= gap_start(tasks, base, tasks.len() as int) <= upto,
    decreases tasks.len() - t,
{
    reveal(level_ok);
    if t + 1 < tasks.len() {
        lemma_level_task(keys, d, tasks, base, upto, t + 1);
        assert(task_ok(keys, d, tasks, base, t + 1));
    }
}

/// After the last task of a level no key runs through a node of the level.
proof fn lemma_level_tail(keys: Seq<Seq<u8>>, d: int, tasks: Seq<NodeTask>, base: int, upto: int)
    requires
        level_ok(keys, d, tasks, base, upto),
    ensures
        0 <= gap_start(tasks, base, tasks.len() as int) <= upto <= keys.len(),
        forall|i: int|
            gap_start(tasks, base, tasks.len() as int) <= i < upto ==> !#[trigger] passes(
                keys,
                d,
                i,
            ),
{
    reveal(level_ok);
    if base < tasks.len() {
        assert(task_ok(keys, d, tasks, base, tasks.len() - 1));
    }
}

/// Keys that do not run through a node at depth `d` do not run through one
/// at the depth below either: the queue of that depth stays in order.
proof fn lemma_level_skip(
    keys: Seq<Seq<u8>>,
    d: int,
    tasks: Seq<NodeTask>,
    base: int,
    a: int,
    b: int,
)
    requires
        0 <= d,
        level_ok(keys, d + 1, tasks, base, a),
        a <= b <= keys.len(),
        forall|i: int| a <= i < b ==> !#[trigger] passes(keys, d, i),
    ensures
        level_ok(keys, d + 1, tasks, base, b),
{
    reveal(level_ok);
    let gap = gap_start(tasks, base, tasks.len() as int);
    assert forall|i: int| gap <= i < b implies !#[trigger] passes(keys, d + 1, i) by {
        if i >= a {
            assert(!passes(keys, d, i));
        }
    }
}

/// Before a level is worked on, the queue holds no task of the next.
proof fn lemma_level_empty(keys: Seq<Seq<u8>>, d: int, tasks: Seq<NodeTask>, n: int)
    requires
        n == tasks.len(),
    ensures
        level_ok(keys, d, tasks, n, 0),
{
    reveal(level_ok);
}

/// The tasks of a level are in order whether they are counted from the
/// start of the queue or from where the level starts in it.
proof fn lemma_level_rebase(keys: Seq<Seq<u8>>, d: int, tasks: Seq<NodeTask>, n: int, upto: int)
    requires
        level_ok(keys, d, tasks, n, upto),
    ensures
        level_ok(keys, d, tasks.subrange(n, tasks.len() as int), 0, upto),
{
    reveal(level_ok);
    let rest = tasks.subrange(n, tasks.len() as int);
    assert forall|t: int| 0 <= t < rest.len() implies #[trigger] task_ok(keys, d, rest, 0, t) by {
        assert(task_ok(keys, d, tasks, n, t + n));
        assert(rest[t] == tasks[t + n]);
        if t > 0 {
            assert(rest[t - 1] == tasks[t + n - 1]);
        }
    }
    if rest.len() > 0 {
        assert(rest[rest.len() - 1] == tasks[tasks.len() - 1]);
    }
}

/// Keys that run through no node at depth `d` add nothing to the encoding
/// when the builder passes them.
proof fn lemma_inv_skip(b: Builder, keys: Seq<Seq<u8>>, d: int, from: int, to: int)
    requires
        b.inv(keys, d, from),
        from <= to <= keys.len(),
        forall|i: int| from <= i < to ==> !#[trigger] passes(keys, d, i),
    ensures
        b.inv(keys, d, to),
    decreases to - from,
{
    if from < to {
        lemma_inv_skip(b, keys, d, from, to - 1);
        let k = to - 1;
        assert(!passes(keys, d, k));
        reveal(labels_done);
        reveal(children_done);
        reveal(prefixes_done);
        reveal(ranked);
        lemma_upto_step(keys, d, k);
        assert(!goes_on(keys, d, k));
    }
}

/// When a level is done the builder stands at the start of the next.
proof fn lemma_inv_next_level(b: Builder, keys: Seq<Seq<u8>>, d: int)
    requires
        b.inv(keys, d, keys.len() as int),
    ensures
        b.inv(keys, d + 1, 0),
{
    reveal(labels_done);
    reveal(children_done);
    reveal(prefixes_done);
    reveal(ranked);
    let n = keys.len() as int;
    assert forall|o: int| label_upto(keys, d, n, o) == label_upto(keys, d + 1, 0, o) by {
        if label_upto(keys, d, n, o) {
            let (dd, i) = choose|dd: int, i: int| #[trigger]
                label_hit(keys, dd, i, o) && before(dd, i, d, n);
            assert(label_hit(keys, dd, i, o) && before(dd, i, d + 1, 0));
        }
        if label_upto(keys, d + 1, 0, o) {
            let (dd, i) = choose|dd: int, i: int| #[trigger]
                label_hit(keys, dd, i, o) && before(dd, i, d + 1, 0);
            assert(label_hit(keys, dd, i, o) && before(dd, i, d, n));
        }
    }
    assert forall|o: int| child_upto(keys, d, n, o) == child_upto(keys, d + 1, 0, o) by {
        if child_upto(keys, d, n, o) {
            let (dd, i) = choose|dd: int, i: int| #[trigger]
                child_hit(keys, dd, i, o) && before(dd, i, d, n);
            assert(child_hit(keys, dd, i, o) && before(dd, i, d + 1, 0));
        }
        if child_upto(keys, d + 1, 0, o) {
            let (dd, i) = choose|dd: int, i: int| #[trigger]
                child_hit(keys, dd, i, o) && before(dd, i, d + 1, 0);
            assert(child_hit(keys, dd, i, o) && before(dd, i, d, n));
        }
    }
    assert forall|m: int| prefix_upto(keys, d, n, m) == prefix_upto(keys, d + 1, 0, m) by {
        if prefix_upto(keys, d, n, m) {
            let (dd, i) = choose|dd: int, i: int| #[trigger]
                prefix_hit(keys, dd, i, m) && before(dd, i, d, n);
            assert(prefix_hit(keys, dd, i, m) && before(dd, i, d + 1, 0));
        }
        if prefix_upto(keys, d + 1, 0, m) {
            let (dd, i) = choose|dd: int, i: int| #[trigger]
                prefix_hit(keys, dd, i, m) && before(dd, i, d + 1, 0);
            assert(prefix_hit(keys, dd, i, m) && before(dd, i, d, n));
        }
    }
}

/// All keys run through the root, which the first of them opens.
pub proof fn lemma_root(keys: Seq<Seq<u8>>, i: int)
    requires
        buildable(keys),
        0 <= i <= keys.len(),
    ensures
        nodes_before(keys, 0, i) == if i == 0 { 0nat } else { 1nat },
        forall|j: int| 0 < j < i ==> #[trigger] same_node(keys, 0, j),
    decreases i,
{
    if i > 0 {
        lemma_root(keys, i - 1);
        if i > 1 {
            assert(keys[i - 2].subrange(0, 0) =~= keys[i - 1].subrange(0, 0));
            assert(same_node(keys, 0, i - 1));
        }
    }
}

/// The queue with the one task of all keys is the level of the root.
proof fn lemma_root_level(keys: Seq<Seq<u8>>, tasks: Seq<NodeTask>)
    requires
        buildable(keys),
        keys.len() > 0,
        tasks.len() == 1,
        tasks[0] == (NodeTask { lo: 0, hi: keys.len() as usize, is_prefix_key: false }),
        keys.len() <= usize::MAX,
    ensures
        level_ok(keys, 0, tasks, 0, keys.len() as int),
        level_size(keys, 0) == 1,
{
    reveal(level_ok);
    lemma_root(keys, keys.len() as int);
    assert(task_ok(keys, 0, tasks, 0, 0));
}

/// A fresh builder stands at the start of the first level.
proof fn lemma_fresh_inv(b: Builder, keys: Seq<Seq<u8>>)
    requires
        b.wf(),
        b.current_node_id == 0,
        b.labels@ == zeros(256),
        b.has_child@ == zeros(256),
        b.is_prefix_key@ == zeros(64),
        buildable(keys),
        keys.len() > 0,
    ensures
        b.inv(keys, 0, 0),
{
    reveal(labels_done);
    reveal(children_done);
    reveal(prefixes_done);
    reveal(ranked);
    reveal(clear_after);
    lemma_root(keys, keys.len() as int);
    assert(level_start(keys, 0) == 0);
    assert(level_start(keys, 1) == level_start(keys, 0) + level_size(keys, 0));
    assert(nodes_before(keys, 1, 0) == 0);
    assert(count(b.has_child@, true, 0) == 0);
    assert(forall|o: int| !label_upto(keys, 0, 0, o));
    assert(forall|o: int| !child_upto(keys, 0, 0, o));
    assert(forall|m: int| !prefix_upto(keys, 0, 0, m));
}

/// Without keys there is nothing to encode.
proof fn lemma_no_keys(
    keys: Seq<Seq<u8>>,
    labels: Seq<bool>,
    has_child: Seq<bool>,
    is_prefix_key: Seq<bool>,
)
    requires
        keys.len() == 0,
        labels == zeros(256),
        has_child == zeros(256),
        is_prefix_key == zeros(64),
    ensures
        encodes(keys, labels, has_child, is_prefix_key),
        child_ids_by_rank(keys, has_child),
        node_count(keys) == 0,
{
}

/// When the deepest level is done the bitmaps hold the encoding of the trie.
proof fn lemma_built(b: Builder, keys: Seq<Seq<u8>>)
    requires
        b.inv(keys, max_len(keys) as int, 0),
    ensures
        encodes(keys, b.labels@, b.has_child@, b.is_prefix_key@),
        child_ids_by_rank(keys, b.has_child@),
        b.current_node_id == node_count(keys),
        node_count(keys) <= b.memory_unit(),
{
    reveal(labels_done);
    reveal(children_done);
    reveal(prefixes_done);
    reveal(ranked);
    let d = max_len(keys) as int;
    assert forall|o: int| label_upto(keys, d, 0, o) == label_at(keys, o) by {
        if label_at(keys, o) {
            let (dd, i) = choose|dd: int, i: int| #[trigger] label_hit(keys, dd, i, o);
            lemma_passes_below_max(keys, dd, i);
            assert(label_hit(keys, dd, i, o) && before(dd, i, d, 0));
        }
    }
    assert forall|o: int| child_upto(keys, d, 0, o) == child_at(keys, o) by {
        if child_at(keys, o) {
            let (dd, i) = choose|dd: int, i: int| #[trigger] child_hit(keys, dd, i, o);
            lemma_passes_below_max(keys, dd, i);
            assert(child_hit(keys, dd, i, o) && before(dd, i, d, 0));
        }
    }
    assert forall|m: int| prefix_upto(keys, d, 0, m) == prefix_key_at(keys, m) by {
        if prefix_key_at(keys, m) {
            let (dd, i) = choose|dd: int, i: int| #[trigger] prefix_hit(keys, dd, i, m);
            lemma_passes_below_max(keys, dd, i);
            assert(prefix_hit(keys, dd, i, m) && before(dd, i, d, 0));
        }
    }
    assert forall|dd: int, i: int| #[trigger] goes_on(keys, dd, i) implies rank_of(
        b.has_child@,
        true,
        256 * node_id(keys, dd, i) + keys[i][dd],
    ) == node_id(keys, dd + 1, i) by {
        lemma_passes_below_max(keys, dd + 1, i);
        assert(before(dd, i, d, 0));
    }
}

} // verus!
