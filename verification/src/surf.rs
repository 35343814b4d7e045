//! The filter: built from a set of keys, it answers point and range queries
//! on the LOUDS-DENSE encoding of their truncated forms.

use crate::bitmap::{bit_or_zero, Bitmap, BitmapError};
use crate::dense::Builder;
use crate::iterator::{
    ahead, descent, faults_at, faulty, fits, halts, stored, yields, Encoded, Iterator, SurfError,
};
use crate::key::{
    is_normal_form, is_prefix, key_le, key_lt, law_truncated_is_prefix, law_truncated_sorted,
    lemma_between_shares_prefix, lemma_common_prefix, lemma_key_le_transitive,
    lemma_key_order_total, lemma_prefix_common, normalize, normalized, strictly_sorted, truncate,
    truncated, views, KeyOps,
};
use crate::options::Options;
use crate::trie::{buildable, child_ids_by_rank, encodes, node_count};
use std::collections::VecDeque;
use vstd::prelude::*;
use vstd::slice::{slice_subrange, slice_to_vec};

verus! {

/// A succinct range filter over a set of keys.
pub struct Surf {
    /// The edges of the nodes of the trie.
    pub dense_labels: Bitmap,
    /// The edges that lead to a node.
    pub dense_has_child: Bitmap,
    /// The nodes at which a key ends.
    pub dense_is_prefix_key: Bitmap,
}

/// How far the walk from node `node` along the bytes of `key` from index `i`
/// on gets, and at which node it ends: it takes an edge for each byte as
/// long as there is a node behind the edge.
pub open spec fn walk(t: Encoded, key: Seq<u8>, i: int, node: int) -> (int, int)
    decreases key.len() - i,
{
    if 0 <= i < key.len() {
        match descent(t, node, key[i]) {
            Ok(m) => walk(t, key, i + 1, m),
            Err(_) => (i, node),
        }
    } else {
        (i, node)
    }
}

/// What a point query finds.
pub struct Found {
    /// Whether the filter takes the key to be present.
    pub exists: bool,
    /// The prefix of the key that made it so, empty where there is none.
    pub matched: Seq<u8>,
    /// The fault that ended the query, if one did.
    pub fault: Option<SurfError>,
}

/// What the point query for `key` finds when its walk ends at index `i` in
/// node `node`. Where the walk ends before the key does, it was stopped by
/// an edge: by an edge without a node behind it, with which the key up to
/// there is found, or by a missing edge, or by a fault. Where the walk
/// reaches the end of the key, the key is found if the node is marked as the
/// end of a key.
pub open spec fn outcome(t: Encoded, key: Seq<u8>, i: int, node: int) -> Found {
    if 0 <= i < key.len() {
        match descent(t, node, key[i]) {
            Err(SurfError::IsLeaf) => Found { exists: true, matched: key.take(i + 1), fault: None },
            Err(SurfError::NoSuchEdge) => Found {
                exists: false,
                matched: Seq::empty(),
                fault: None,
            },
            Err(e) => Found { exists: false, matched: Seq::empty(), fault: Some(e) },
            Ok(_) => Found { exists: false, matched: Seq::empty(), fault: None },
        }
    } else if node >= t.prefix_cap {
        Found {
            exists: false,
            matched: Seq::empty(),
            fault: Some(SurfError::Bitmap(BitmapError::OutOfBounds)),
        }
    } else if bit_or_zero(t.is_prefix_key, node) {
        Found { exists: true, matched: key, fault: None }
    } else {
        Found { exists: false, matched: Seq::empty(), fault: None }
    }
}

/// The keys of the encoding that are at or after the place `(path, e)` and
/// no greater than `high`, in order.
#[verifier::opaque]
pub open spec fn lists(t: Encoded, path: Seq<u8>, e: int, high: Seq<u8>, ys: Seq<Seq<u8>>) -> bool {
    &&& strictly_sorted(ys)
    &&& forall|k: Seq<u8>|
        #![trigger ys.contains(k)]
        #![trigger stored(t, k)]
        ys.contains(k) <==> stored(t, k) && ahead(path, e, k) && key_le(k, high)
}

/// `n` as a machine integer, or the greatest machine integer where it is
/// too large to be one.
pub open spec fn saturated(n: nat) -> usize {
    if n > usize::MAX {
        usize::MAX
    } else {
        n as usize
    }
}

impl Surf {
    /// The bitmaps of the filter are well formed.
    pub open spec fn wf(&self) -> bool {
        &&& self.dense_labels.wf()
        &&& self.dense_has_child.wf()
        &&& self.dense_is_prefix_key.wf()
    }

    /// The encoding that the filter holds.
    pub open spec fn encoded(&self) -> Encoded {
        Encoded {
            labels: self.dense_labels@,
            has_child: self.dense_has_child@,
            is_prefix_key: self.dense_is_prefix_key@,
            label_cap: self.dense_labels.capacity as int,
            child_cap: self.dense_has_child.capacity as int,
            prefix_cap: self.dense_is_prefix_key.capacity as int,
        }
    }

    /// The capacities of the bitmaps hold every node of the encoding.
    pub open spec fn fits(&self) -> bool {
        fits(self.encoded())
    }

    /// Where the walk along `key` from the root ends: the number of bytes
    /// taken and the node reached.
    pub open spec fn walked(&self, key: Seq<u8>) -> (int, int) {
        walk(self.encoded(), key, 0, 0)
    }

    /// What the point query for `key` finds.
    pub open spec fn found(&self, key: Seq<u8>) -> Found {
        outcome(self.encoded(), key, self.walked(key).0, self.walked(key).1)
    }

    /// The path of the cursor after the point query for `key`: the bytes of
    /// the key that the walk took.
    pub open spec fn place_path(&self, key: Seq<u8>) -> Seq<u8> {
        key.take(self.walked(key).0)
    }

    /// The edge that the cursor is to try next after the point query for
    /// `key`: the byte at which the walk stopped, or the first edge of the
    /// node at the end of the key.
    pub open spec fn place_edge(&self, key: Seq<u8>) -> int {
        let i = self.walked(key).0;
        if 0 <= i < key.len() {
            key[i] as int
        } else {
            0
        }
    }

    /// A cursor of this filter stands where the point query for `key` left it.
    pub open spec fn cursor_after_lookup(&self, it: &Iterator, key: Seq<u8>) -> bool {
        &&& self.cursor_of(it)
        &&& it.key_prefix@ == self.place_path(key)
        &&& it.next_edge == self.place_edge(key)
        &&& it.node_index == self.walked(key).1
    }

    /// `it` is a cursor on the encoding of this filter.
    pub open spec fn cursor_of(&self, it: &Iterator) -> bool {
        &&& it.wf()
        &&& it.encoded() == self.encoded()
    }

    /// The filter is what `new` builds from the keys `raw` within a memory
    /// limit of `unit` nodes: it holds the encoding of the trie of the
    /// truncated keys, in bitmaps with the capacities for `unit` nodes.
    pub open spec fn built_from(&self, raw: Seq<Seq<u8>>, unit: int) -> bool {
        let keys = truncated(normalized(raw));
        &&& self.wf()
        &&& is_normal_form(raw, normalized(raw))
        &&& buildable(keys)
        &&& strictly_sorted(keys)
        &&& encodes(keys, self.dense_labels@, self.dense_has_child@, self.dense_is_prefix_key@)
        &&& child_ids_by_rank(keys, self.dense_has_child@)
        &&& node_count(keys) <= unit
        &&& self.dense_labels.capacity == 256 * unit
        &&& self.dense_has_child.capacity == 256 * unit
        &&& self.dense_is_prefix_key.capacity == unit
    }

    /// Builds the filter of the keys: they are sorted, each is kept once and
    /// truncated to its shortest distinguishing prefix, and the trie of the
    /// truncated keys is encoded.
    ///
    /// The build succeeds exactly when that trie has no more nodes than the
    /// memory limit allows, 513 bits being needed for each.
    pub fn new(raw_keys: Vec<Vec<u8>>, options: Options) -> (r: Result<Surf, SurfError>)
        requires
            forall|i: int| 0 <= i < raw_keys@.len() ==> (#[trigger] raw_keys@[i])@.len() > 0,
        ensures
            r is Ok <==> node_count(truncated(normalized(views(raw_keys@))))
                <= options.memory_limit / 513,
            r is Err ==> r->Err_0 == SurfError::Bitmap(BitmapError::OutOfBounds),
            r is Ok ==> r->Ok_0.built_from(views(raw_keys@), options.memory_limit as int / 513),
    {
        let ghost raw = views(raw_keys@);
        let keys = normalize(raw_keys);
        let ghost norm = views(keys@);
        let keys = truncate(keys.as_slice());
        proof {
            let tk = views(keys@);
            law_truncated_sorted(norm);
            assert forall|i: int| 0 <= i < tk.len() implies (#[trigger] tk[i]).len() > 0 by {
                law_truncated_is_prefix(norm, i);
                assert(norm.contains(norm[i]));
                assert(raw.contains(norm[i]));
                let j = choose|j: int| 0 <= j < raw.len() && raw[j] == norm[i];
                assert(raw_keys@[j]@.len() > 0);
            }
            assert(buildable(tk));
        }
        let mut dense_builder = Builder::new(options.memory_limit);
        match dense_builder.build(keys.as_slice()) {
            Ok(_) => {},
            Err(e) => {
                return Err(SurfError::Bitmap(e));
            },
        }
        Ok(
            Surf {
                dense_labels: dense_builder.labels,
                dense_has_child: dense_builder.has_child,
                dense_is_prefix_key: dense_builder.is_prefix_key,
            },
        )
    }

    /// The point query: walks from the root along the bytes of `key`.
    ///
    /// The key is found where the walk comes to an edge without a node
    /// behind it, with the key up to that edge as the match, or where it
    /// reaches the end of the key in a node that is marked as the end of a
    /// key. It is not found where an edge is missing. The cursor is handed
    /// back where the walk ended. A fault is handed back as the last part of
    /// the result.
    pub fn lookup(&mut self, key: Vec<u8>) -> (r: Result<
        (bool, Vec<u8>, Iterator, Option<SurfError>),
        SurfError,
    >)
        requires
            old(self).wf(),
        ensures
            *final(self) == *old(self),
            r is Ok,
            r->Ok_0.0 == old(self).found(key@).exists,
            r->Ok_0.1@ == old(self).found(key@).matched,
            r->Ok_0.3 == old(self).found(key@).fault,
            old(self).cursor_after_lookup(&r->Ok_0.2, key@),
            old(self).fits() ==> r->Ok_0.3 is None,
    {
        proof {
            self.lemma_fitting(key@);
        }
        let mut it = Iterator {
            labels: self.dense_labels.clone(),
            has_child: self.dense_has_child.clone(),
            is_prefix_key: self.dense_is_prefix_key.clone(),
            node_index: 0,
            next_edge: 0,
            edges: VecDeque::new(),
            nodes: VecDeque::new(),
            key_prefix: VecDeque::new(),
        };
        let ghost t = self.encoded();
        proof {
            assert(it.encoded() == t);
            assert(key@.take(0) =~= Seq::<u8>::empty());
        }
        let mut i: usize = 0;
        while i < key.len()
            invariant
                *self == *old(self),
                self.cursor_of(&it),
                t == self.encoded(),
                i <= key@.len(),
                it.key_prefix@ == key@.take(i as int),
                it.next_edge == 0,
                walk(t, key@, 0, 0) == walk(t, key@, i as int, it.node_index as int),
            decreases key@.len() - i,
        {
            let key_byte = key[i];
            match it.go_to_child(key_byte) {
                Ok(_) => {
                    proof {
                        assert(key@.take(i as int).push(key_byte) =~= key@.take(i + 1));
                    }
                },
                Err(e) => {
                    if e == SurfError::NoSuchEdge {
                        // No edge with this byte, so the key is not there.
                        return Ok((false, Vec::new(), it, None));
                    } else if e == SurfError::IsLeaf {
                        // An edge without a node behind it: a key ends here.
                        let matched = slice_to_vec(slice_subrange(key.as_slice(), 0, i + 1));
                        return Ok((true, matched, it, None));
                    } else {
                        return Ok((false, Vec::new(), it, Some(e)));
                    }
                },
            }
            i += 1;
        }
        // The whole key was walked: it is there if a key ends at this node.
        if it.node_index >= it.is_prefix_key.capacity {
            return Ok(
                (false, Vec::new(), it, Some(SurfError::Bitmap(BitmapError::OutOfBounds))),
            );
        }
        let is_prefix_key = it.is_prefix_key.peek(it.node_index);
        proof {
            assert(key@.take(key@.len() as int) =~= key@);
        }
        if is_prefix_key == 1 {
            Ok((true, key, it, None))
        } else {
            Ok((false, Vec::new(), it, None))
        }
    }

    /// On a filter whose encoding fits the capacities of its bitmaps the
    /// point query ends without a fault.
    pub proof fn lemma_fitting(&self, key: Seq<u8>)
        ensures
            self.fits() ==> self.found(key).fault is None,
    {
        if self.fits() {
            crate::laws::law_fitting_lookup(self.encoded(), key);
        }
    }

    /// What `lookup_or_greater` hands back for `key`: the match of the point
    /// query where there is one, with the cursor moved on by one edge; else
    /// the next key of the encoding from where the point query ended, with
    /// the cursor just after it; else no key, and the signal or fault that
    /// says why.
    pub open spec fn successor(
        &self,
        key: Seq<u8>,
        found_key: Seq<u8>,
        it: &Iterator,
        err: Option<SurfError>,
    ) -> bool {
        let f = self.found(key);
        let path = self.place_path(key);
        let e = self.place_edge(key);
        &&& self.cursor_of(it)
        &&& f.fault is Some ==> found_key.len() == 0 && err == f.fault
            && self.cursor_after_lookup(it, key)
        &&& f.fault is None && f.exists ==> {
            &&& found_key == f.matched
            &&& err is None
            &&& it.key_prefix@ == path
            &&& it.next_edge == e + 1
        }
        &&& f.fault is None && !f.exists ==> match err {
            None => yields(self.encoded(), path, e, found_key, it.key_prefix@, it.next_edge as int),
            Some(SurfError::EndOfTrie) => found_key.len() == 0 && forall|q: Seq<u8>| #[trigger]
                halts(self.encoded(), q) ==> !ahead(path, e, q),
            Some(x) => found_key.len() == 0 && x == SurfError::Bitmap(BitmapError::OutOfBounds)
                && exists|q: Seq<u8>|
                faults_at(self.encoded(), path, e, q, it.key_prefix@, it.next_edge as int),
        }
    }

    /// The key that matches `key`, or else the next key of the filter after
    /// it, with a cursor from which the keys after that one can be had.
    pub fn lookup_or_greater(&mut self, key: Vec<u8>) -> (r: Result<
        (Vec<u8>, Iterator, Option<SurfError>),
        SurfError,
    >)
        requires
            old(self).wf(),
        ensures
            *final(self) == *old(self),
            r is Ok,
            old(self).successor(key@, r->Ok_0.0@, &r->Ok_0.1, r->Ok_0.2),
            old(self).fits() ==> r->Ok_0.2 is None || r->Ok_0.2 == Some(SurfError::EndOfTrie),
    {
        proof {
            self.lemma_fitting(key@);
        }
        let (exists, matched_key, it0, err) = match self.lookup(key) {
            Ok(found) => found,
            Err(e) => {
                return Err(e);
            },
        };
        let mut it = it0;
        if let Some(e) = err {
            return Ok((Vec::new(), it, Some(e)));
        }
        if exists {
            it.next_edge += 1;
            Ok((matched_key, it, None))
        } else {
            match it.next() {
                Ok(larger_key) => Ok((larger_key, it, None)),
                Err(e) => Ok((Vec::new(), it, Some(e))),
            }
        }
    }

    /// Whether the filter may hold a key between `low` and `high`.
    ///
    /// Where the point query for `low` finds a match, the answer is whether
    /// the match is no greater than `high`. Else it is whether the encoding
    /// holds a key that is no greater than `high`, from where the point
    /// query ended. A fault of the point query is handed on, and so is one
    /// to which the search for the next key comes before it comes to a key.
    pub fn range_lookup(&mut self, low: Vec<u8>, high: Vec<u8>) -> (r: Result<bool, SurfError>)
        requires
            old(self).wf(),
        ensures
            *final(self) == *old(self),
            old(self).fits() ==> r is Ok,
            r is Err ==> r->Err_0 == SurfError::Bitmap(BitmapError::OutOfBounds),
            old(self).found(low@).fault is Some ==> r is Err,
            old(self).found(low@).fault is None && old(self).found(low@).exists ==> r == Ok::<
                bool,
                SurfError,
            >(key_le(old(self).found(low@).matched, high@)),
            old(self).found(low@).fault is None && !old(self).found(low@).exists ==> (r is Err
                <==> fault_first(
                old(self).encoded(),
                old(self).place_path(low@),
                old(self).place_edge(low@),
            )) && (r is Ok ==> r->Ok_0 == exists|k: Seq<u8>| #[trigger]
                stored(old(self).encoded(), k) && ahead(
                    old(self).place_path(low@),
                    old(self).place_edge(low@),
                    k,
                ) && key_le(k, high@)),
    {
        let ghost t = self.encoded();
        let ghost path = self.place_path(low@);
        let ghost e = self.place_edge(low@);
        proof {
            self.lemma_fitting(low@);
            self.lemma_fault_is_out_of_bounds(low@);
        }
        let (matched_key, it, err) = match self.lookup_or_greater(low) {
            Ok(found) => found,
            Err(e) => {
                return Err(e);
            },
        };
        match err {
            Some(SurfError::EndOfTrie) => {
                proof {
                    lemma_nothing_ahead(t, path, e);
                }
                Ok(false)
            },
            Some(x) => {
                proof {
                    if self.found(low@).fault is None {
                        let q = choose|q: Seq<u8>|
                            faults_at(t, path, e, q, it.key_prefix@, it.next_edge as int);
                        lemma_fault_is_first(t, path, e, q, it.key_prefix@, it.next_edge as int);
                    }
                }
                Err(x)
            },
            None => {
                let within = !high.less(matched_key.as_slice());
                proof {
                    lemma_key_order_total(matched_key@, high@);
                    if !self.found(low@).exists {
                        lemma_key_is_first(
                            t,
                            path,
                            e,
                            matched_key@,
                            it.key_prefix@,
                            it.next_edge as int,
                            high@,
                        );
                    }
                }
                Ok(within)
            },
        }
    }

    /// The point query ends with no fault but that of an access out of bounds.
    pub proof fn lemma_fault_is_out_of_bounds(&self, key: Seq<u8>)
        ensures
            self.found(key).fault is Some ==> self.found(key).fault == Some(
                SurfError::Bitmap(BitmapError::OutOfBounds),
            ),
    {
    }

    /// The number of keys of the filter between `low` and `high`.
    ///
    /// Where the point query for `low` finds a match, the match is counted
    /// if it is no greater than `high`, and with it the keys of the encoding
    /// from just after it that are no greater than `high`; where the match
    /// is greater than `high`, the count is zero. Else the count is that of
    /// the keys of the encoding that are no greater than `high`, from where
    /// the point query ended. A fault of the point query is handed on, and
    /// so is one to which the cursor comes before it comes to a key that is
    /// greater than `high`.
    pub fn count(&mut self, low: Vec<u8>, high: Vec<u8>) -> (r: Result<usize, SurfError>)
        requires
            old(self).wf(),
        ensures
            *final(self) == *old(self),
            old(self).fits() ==> r is Ok,
            r is Err ==> r->Err_0 == SurfError::Bitmap(BitmapError::OutOfBounds),
            old(self).found(low@).fault is Some ==> r is Err,
            old(self).found(low@).fault is None && old(self).found(low@).exists && !key_le(
                old(self).found(low@).matched,
                high@,
            ) ==> r == Ok::<usize, SurfError>(0),
            old(self).found(low@).fault is None && old(self).found(low@).exists && key_le(
                old(self).found(low@).matched,
                high@,
            ) ==> (r is Err <==> fault_within(
                old(self).encoded(),
                old(self).place_path(low@),
                old(self).place_edge(low@) + 1,
                high@,
            )) && (r is Ok ==> exists|ys: Seq<Seq<u8>>| #[trigger]
                lists(
                    old(self).encoded(),
                    old(self).place_path(low@),
                    old(self).place_edge(low@) + 1,
                    high@,
                    ys,
                ) && r->Ok_0 == saturated(1 + ys.len())),
            old(self).found(low@).fault is None && !old(self).found(low@).exists ==> (r is Err
                <==> fault_within(
                old(self).encoded(),
                old(self).place_path(low@),
                old(self).place_edge(low@),
                high@,
            )) && (r is Ok ==> exists|ys: Seq<Seq<u8>>| #[trigger]
                lists(
                    old(self).encoded(),
                    old(self).place_path(low@),
                    old(self).place_edge(low@),
                    high@,
                    ys,
                ) && r->Ok_0 == saturated(ys.len())),
    {
        let ghost t = self.encoded();
        let ghost path = self.place_path(low@);
        let ghost e = self.place_edge(low@);
        let ghost hit = self.found(low@).exists;
        proof {
            self.lemma_fitting(low@);
            self.lemma_fault_is_out_of_bounds(low@);
        }
        let (matched_key, it, err) = match self.lookup_or_greater(low) {
            Ok(found) => found,
            Err(e) => {
                return Err(e);
            },
        };
        match err {
            Some(SurfError::EndOfTrie) => {
                proof {
                    lemma_nothing_ahead(t, path, e);
                    lemma_nothing_within(t, path, e, high@);
                    assert(lists(t, path, e, high@, Seq::<Seq<u8>>::empty()) && 0 == saturated(
                        Seq::<Seq<u8>>::empty().len(),
                    ));
                }
                return Ok(0);
            },
            Some(x) => {
                proof {
                    if self.found(low@).fault is None {
                        let q = choose|q: Seq<u8>|
                            faults_at(t, path, e, q, it.key_prefix@, it.next_edge as int);
                        lemma_fault_is_first(t, path, e, q, it.key_prefix@, it.next_edge as int);
                        lemma_first_fault_within(t, path, e, high@);
                    }
                }
                return Err(x);
            },
            None => {},
        }
        if high.less(matched_key.as_slice()) {
            proof {
                lemma_key_order_total(matched_key@, high@);
                if !hit {
                    lemma_key_is_first(
                        t,
                        path,
                        e,
                        matched_key@,
                        it.key_prefix@,
                        it.next_edge as int,
                        high@,
                    );
                    lemma_first_key_over(
                        t,
                        path,
                        e,
                        matched_key@,
                        it.key_prefix@,
                        it.next_edge as int,
                        high@,
                    );
                    assert(lists(t, path, e, high@, Seq::<Seq<u8>>::empty()) && 0 == saturated(
                        Seq::<Seq<u8>>::empty().len(),
                    ));
                }
            }
            return Ok(0);
        }
        let ghost c_path = it.key_prefix@;
        let ghost c_edge = it.next_edge as int;
        let r = count_on(it, &high, 1);
        proof {
            lemma_fits_no_fault_within(t, c_path, c_edge, high@);
            lemma_key_order_total(matched_key@, high@);
            if !hit {
                lemma_fault_within_after(t, path, e, matched_key@, c_path, c_edge, high@);
                match r {
                    Ok(n) => {
                        let ys = choose|ys: Seq<Seq<u8>>| #[trigger]
                            lists(t, c_path, c_edge, high@, ys) && n == saturated(1 + ys.len());
                        lemma_lists_first(t, path, e, matched_key@, c_path, c_edge, high@, ys);
                        let all = seq![matched_key@] + ys;
                        assert(lists(t, path, e, high@, all) && n == saturated(all.len()));
                    },
                    Err(_) => {},
                }
            }
        }
        r
    }
}

/// The search from the place `(path, e)` comes to a fault before it comes to
/// a key.
#[verifier::opaque]
pub open spec fn fault_first(t: Encoded, path: Seq<u8>, e: int) -> bool {
    exists|q: Seq<u8>| #[trigger]
        faulty(t, q) && ahead(path, e, q) && forall|k: Seq<u8>| #[trigger]
            halts(t, k) && ahead(path, e, k) ==> key_le(q, k)
}

/// A cursor that goes through the keys from the place `(path, e)` on comes
/// to a fault before it comes to a key that is greater than `high`.
#[verifier::opaque]
pub open spec fn fault_within(t: Encoded, path: Seq<u8>, e: int, high: Seq<u8>) -> bool {
    exists|q: Seq<u8>| #[trigger]
        faulty(t, q) && ahead(path, e, q) && forall|k: Seq<u8>| #[trigger]
            stored(t, k) && ahead(path, e, k) && key_lt(k, q) ==> key_le(k, high)
}

/// Counts on from `start` the keys that the cursor yields for as long as
/// they are no greater than `high`.
fn count_on(cursor: Iterator, high: &Vec<u8>, start: usize) -> (r: Result<usize, SurfError>)
    requires
        cursor.wf(),
    ensures
        r is Err <==> fault_within(
            cursor.encoded(),
            cursor.key_prefix@,
            cursor.next_edge as int,
            high@,
        ),
        match r {
            Ok(n) => exists|ys: Seq<Seq<u8>>| #[trigger]
                lists(cursor.encoded(), cursor.key_prefix@, cursor.next_edge as int, high@, ys)
                    && n == saturated((start + ys.len()) as nat),
            Err(x) => x == SurfError::Bitmap(BitmapError::OutOfBounds),
        },
{
    let ghost t = cursor.encoded();
    let ghost path = cursor.key_prefix@;
    let ghost e = cursor.next_edge as int;
    let ghost mut ys: Seq<Seq<u8>> = Seq::empty();
    let mut it = cursor;
    let mut count: usize = start;
    proof {
        lemma_counting_start(t, path, e, high@);
    }
    loop
        invariant_except_break
            it.wf(),
            it.encoded() == t,
            counting(t, path, e, high@, ys, it.key_prefix@, it.next_edge as int),
        invariant
            count == saturated((start + ys.len()) as nat),
            t == cursor.encoded(),
            path == cursor.key_prefix@,
            e == cursor.next_edge as int,
        ensures
            lists(t, path, e, high@, ys),
            !fault_within(t, path, e, high@),
        decreases it.potential(),
    {
        let ghost c_path = it.key_prefix@;
        let ghost c_edge = it.next_edge as int;
        match it.next() {
            Ok(next_key) => {
                if high.less(next_key.as_slice()) {
                    proof {
                        lemma_key_order_total(next_key@, high@);
                        lemma_counting_over(
                            t,
                            path,
                            e,
                            high@,
                            ys,
                            c_path,
                            c_edge,
                            next_key@,
                            it.key_prefix@,
                            it.next_edge as int,
                        );
                    }
                    break ;
                }
                proof {
                    lemma_key_order_total(next_key@, high@);
                    lemma_counting_next(
                        t,
                        path,
                        e,
                        high@,
                        ys,
                        c_path,
                        c_edge,
                        next_key@,
                        it.key_prefix@,
                        it.next_edge as int,
                    );
                    ys = ys.push(next_key@);
                }
                if count < usize::MAX {
                    count += 1;
                }
            },
            Err(SurfError::EndOfTrie) => {
                proof {
                    lemma_counting_end(t, path, e, high@, ys, c_path, c_edge);
                }
                break ;
            },
            Err(x) => {
                proof {
                    let q = choose|q: Seq<u8>|
                        faults_at(t, c_path, c_edge, q, it.key_prefix@, it.next_edge as int);
                    lemma_counting_fault(
                        t,
                        path,
                        e,
                        high@,
                        ys,
                        c_path,
                        c_edge,
                        q,
                        it.key_prefix@,
                        it.next_edge as int,
                    );
                }
                return Err(x);
            },
        }
    }
    Ok(count)
}

/// What holds while the keys from the place `(path, e)` are counted, the
/// cursor has come to `(c_path, c_edge)` and the keys `ys` were counted: they
/// are keys of the encoding from that place on, none greater than `high`, in
/// order; the cursor has passed no fault; and what is still ahead of the
/// cursor is what lies from that place on and was not counted yet, all of it
/// greater than the counted keys.
#[verifier::opaque]
pub open spec fn counting(
    t: Encoded,
    path: Seq<u8>,
    e: int,
    high: Seq<u8>,
    ys: Seq<Seq<u8>>,
    c_path: Seq<u8>,
    c_edge: int,
) -> bool {
    &&& strictly_sorted(ys)
    &&& forall|j: int|
        0 <= j < ys.len() ==> stored(t, #[trigger] ys[j]) && ahead(path, e, ys[j]) && key_le(
            ys[j],
            high,
        )
    &&& forall|k: Seq<u8>| #[trigger]
        halts(t, k) && ahead(path, e, k) ==> (!faulty(t, k) && ys.contains(k)) || ahead(
            c_path,
            c_edge,
            k,
        )
    &&& forall|k: Seq<u8>| #[trigger] halts(t, k) && ahead(c_path, c_edge, k) ==> ahead(path, e, k)
    &&& ys.len() > 0 ==> forall|k: Seq<u8>| #[trigger]
        halts(t, k) && ahead(c_path, c_edge, k) ==> key_lt(ys.last(), k)
}

/// A key at or after a key that is ahead of a place is ahead of it too.
pub proof fn lemma_ahead_upward(path: Seq<u8>, e: int, a: Seq<u8>, b: Seq<u8>)
    requires
        ahead(path, e, a),
        key_le(a, b),
    ensures
        ahead(path, e, b),
{
    if 0 <= e < 256 {
        lemma_key_le_transitive(path.push(e as u8), a, b);
    } else {
        lemma_key_le_transitive(path, a, b);
        if is_prefix(path, b) {
            lemma_between_shares_prefix(path, a, b);
            lemma_prefix_common(path, b);
            lemma_prefix_common(path, a);
            lemma_common_prefix(path, a);
        }
    }
}

/// In an encoding that fits its capacities no search and no count comes to a
/// fault.
pub proof fn lemma_fits_no_fault_within(t: Encoded, path: Seq<u8>, e: int, high: Seq<u8>)
    ensures
        fits(t) ==> !fault_within(t, path, e, high) && !fault_first(t, path, e),
{
    reveal(fault_first);
    reveal(fault_within);
    assert forall|q: Seq<u8>| fits(t) implies !#[trigger] faulty(t, q) by {
        crate::iterator::lemma_fits_no_fault(t, q);
    }
}

/// With nothing ahead at which a search ends, there is no key ahead and no
/// fault.
pub proof fn lemma_nothing_ahead(t: Encoded, path: Seq<u8>, e: int)
    requires
        forall|q: Seq<u8>| #[trigger] halts(t, q) ==> !ahead(path, e, q),
    ensures
        !fault_first(t, path, e),
        forall|k: Seq<u8>| #[trigger] stored(t, k) ==> !ahead(path, e, k),
{
    reveal(lists);
    reveal(fault_first);
    reveal(fault_within);
    assert forall|k: Seq<u8>| #[trigger] stored(t, k) implies !ahead(path, e, k) by {
        assert(halts(t, k));
    }
    if fault_first(t, path, e) {
        let q = choose|q: Seq<u8>| #[trigger]
            faulty(t, q) && ahead(path, e, q) && forall|k: Seq<u8>| #[trigger]
                halts(t, k) && ahead(path, e, k) ==> key_le(q, k);
        assert(halts(t, q));
    }
}

/// With nothing ahead at which a search ends, a count finds no key and no
/// fault.
pub proof fn lemma_nothing_within(t: Encoded, path: Seq<u8>, e: int, high: Seq<u8>)
    requires
        forall|q: Seq<u8>| #[trigger] halts(t, q) ==> !ahead(path, e, q),
    ensures
        !fault_within(t, path, e, high),
        lists(t, path, e, high, Seq::<Seq<u8>>::empty()),
{
    reveal(lists);
    reveal(fault_first);
    reveal(fault_within);
    if fault_within(t, path, e, high) {
        let q = choose|q: Seq<u8>| #[trigger]
            faulty(t, q) && ahead(path, e, q) && forall|k: Seq<u8>| #[trigger]
                stored(t, k) && ahead(path, e, k) && key_lt(k, q) ==> key_le(k, high);
        assert(halts(t, q));
    }
    assert forall|k: Seq<u8>| #[trigger] stored(t, k) implies !ahead(path, e, k) by {
        assert(halts(t, k));
    }
}

/// A search that ended with a fault came to the fault first.
pub proof fn lemma_fault_is_first(
    t: Encoded,
    path: Seq<u8>,
    e: int,
    q: Seq<u8>,
    path_after: Seq<u8>,
    e_after: int,
)
    requires
        faults_at(t, path, e, q, path_after, e_after),
    ensures
        fault_first(t, path, e),
{
    reveal(lists);
    reveal(fault_first);
    reveal(fault_within);
    reveal(faults_at);
    assert(faulty(t, q) && ahead(path, e, q) && forall|k: Seq<u8>| #[trigger]
        halts(t, k) && ahead(path, e, k) ==> key_le(q, k));
}

/// A count that comes to a fault at once comes to a fault.
pub proof fn lemma_first_fault_within(t: Encoded, path: Seq<u8>, e: int, high: Seq<u8>)
    requires
        fault_first(t, path, e),
    ensures
        fault_within(t, path, e, high),
{
    reveal(lists);
    reveal(fault_first);
    reveal(fault_within);
    let q = choose|q: Seq<u8>| #[trigger]
        faulty(t, q) && ahead(path, e, q) && forall|k: Seq<u8>| #[trigger]
            halts(t, k) && ahead(path, e, k) ==> key_le(q, k);
    assert forall|k: Seq<u8>| #[trigger]
        stored(t, k) && ahead(path, e, k) && key_lt(k, q) implies key_le(k, high) by {
        assert(halts(t, k));
        lemma_key_order_total(q, k);
    }
}

/// A search that yielded a key did not come to a fault first, and the key
/// is no greater than a bound exactly when some key ahead is.
pub proof fn lemma_key_is_first(
    t: Encoded,
    path: Seq<u8>,
    e: int,
    key: Seq<u8>,
    path_after: Seq<u8>,
    e_after: int,
    high: Seq<u8>,
)
    requires
        yields(t, path, e, key, path_after, e_after),
    ensures
        !fault_first(t, path, e),
        key_le(key, high) <==> exists|k: Seq<u8>| #[trigger]
            stored(t, k) && ahead(path, e, k) && key_le(k, high),
{
    reveal(lists);
    reveal(fault_first);
    reveal(fault_within);
    reveal(yields);
    if fault_first(t, path, e) {
        let q = choose|q: Seq<u8>| #[trigger]
            faulty(t, q) && ahead(path, e, q) && forall|k: Seq<u8>| #[trigger]
                halts(t, k) && ahead(path, e, k) ==> key_le(q, k);
        assert(halts(t, q));
        assert(halts(t, key));
        lemma_key_order_total(q, key);
    }
    if key_le(key, high) {
        assert(stored(t, key) && ahead(path, e, key) && key_le(key, high));
    }
    if exists|k: Seq<u8>| #[trigger] stored(t, k) && ahead(path, e, k) && key_le(k, high) {
        let k = choose|k: Seq<u8>| #[trigger]
            stored(t, k) && ahead(path, e, k) && key_le(k, high);
        assert(halts(t, k));
        lemma_key_le_transitive(key, k, high);
    }
}

/// Where the first key ahead is beyond the bound, a count finds no key and
/// no fault.
pub proof fn lemma_first_key_over(
    t: Encoded,
    path: Seq<u8>,
    e: int,
    key: Seq<u8>,
    path_after: Seq<u8>,
    e_after: int,
    high: Seq<u8>,
)
    requires
        yields(t, path, e, key, path_after, e_after),
        !key_le(key, high),
    ensures
        !fault_within(t, path, e, high),
        lists(t, path, e, high, Seq::<Seq<u8>>::empty()),
{
    reveal(lists);
    reveal(fault_first);
    reveal(fault_within);
    reveal(yields);
    if fault_within(t, path, e, high) {
        let q = choose|q: Seq<u8>| #[trigger]
            faulty(t, q) && ahead(path, e, q) && forall|k: Seq<u8>| #[trigger]
                stored(t, k) && ahead(path, e, k) && key_lt(k, q) ==> key_le(k, high);
        assert(halts(t, q));
        lemma_key_order_total(key, q);
    }
    assert forall|k: Seq<u8>| #[trigger] stored(t, k) && ahead(path, e, k) implies !key_le(
        k,
        high,
    ) by {
        assert(halts(t, k));
        if key_le(k, high) {
            lemma_key_le_transitive(key, k, high);
        }
    }
}

/// A count from a place comes to a fault exactly when, its first key being
/// within the bound, the count from just after that key does.
pub proof fn lemma_fault_within_after(
    t: Encoded,
    path: Seq<u8>,
    e: int,
    first: Seq<u8>,
    c_path: Seq<u8>,
    c_edge: int,
    high: Seq<u8>,
)
    requires
        yields(t, path, e, first, c_path, c_edge),
        key_le(first, high),
    ensures
        fault_within(t, path, e, high) <==> fault_within(t, c_path, c_edge, high),
{
    reveal(lists);
    reveal(fault_first);
    reveal(fault_within);
    reveal(yields);
    if fault_within(t, path, e, high) {
        let q = choose|q: Seq<u8>| #[trigger]
            faulty(t, q) && ahead(path, e, q) && forall|k: Seq<u8>| #[trigger]
                stored(t, k) && ahead(path, e, k) && key_lt(k, q) ==> key_le(k, high);
        assert(halts(t, q));
        lemma_key_order_total(first, q);
        assert forall|k: Seq<u8>| #[trigger]
            stored(t, k) && ahead(c_path, c_edge, k) && key_lt(k, q) implies key_le(k, high) by {
            assert(halts(t, k));
            lemma_ahead_upward(path, e, first, k);
        }
        assert(faulty(t, q) && ahead(c_path, c_edge, q));
    }
    if fault_within(t, c_path, c_edge, high) {
        let q = choose|q: Seq<u8>| #[trigger]
            faulty(t, q) && ahead(c_path, c_edge, q) && forall|k: Seq<u8>| #[trigger]
                stored(t, k) && ahead(c_path, c_edge, k) && key_lt(k, q) ==> key_le(k, high);
        assert(halts(t, q));
        lemma_ahead_upward(path, e, first, q);
        assert forall|k: Seq<u8>| #[trigger]
            stored(t, k) && ahead(path, e, k) && key_lt(k, q) implies key_le(k, high) by {
            assert(halts(t, k));
            lemma_key_order_total(first, k);
        }
        assert(faulty(t, q) && ahead(path, e, q));
    }
}

/// The keys from a place on are the first of them and then those from the
/// place just after it.
pub proof fn lemma_lists_first(
    t: Encoded,
    path: Seq<u8>,
    e: int,
    first: Seq<u8>,
    c_path: Seq<u8>,
    c_edge: int,
    high: Seq<u8>,
    ys: Seq<Seq<u8>>,
)
    requires
        yields(t, path, e, first, c_path, c_edge),
        key_le(first, high),
        lists(t, c_path, c_edge, high, ys),
    ensures
        lists(t, path, e, high, seq![first] + ys),
{
    reveal(lists);
    reveal(fault_first);
    reveal(fault_within);
    reveal(yields);
    let all = seq![first] + ys;
    assert forall|i: int, j: int| 0 <= i < j < all.len() implies key_lt(
        #[trigger] all[i],
        #[trigger] all[j],
    ) by {
        if i == 0 {
            assert(ys.contains(ys[j - 1]));
            assert(halts(t, ys[j - 1]));
        } else {
            assert(key_lt(ys[i - 1], ys[j - 1]));
        }
    }
    assert forall|k: Seq<u8>|
        all.contains(k) <==> #[trigger] stored(t, k) && ahead(path, e, k) && key_le(k, high) by {
        if all.contains(k) {
            let i = choose|i: int| 0 <= i < all.len() && all[i] == k;
            if i > 0 {
                assert(ys.contains(ys[i - 1]));
                assert(halts(t, k));
                lemma_ahead_upward(path, e, first, k);
            }
        }
        if stored(t, k) && ahead(path, e, k) && key_le(k, high) {
            assert(halts(t, k));
            lemma_key_order_total(first, k);
            if k == first {
                assert(all[0] == k);
            } else {
                assert(ys.contains(k));
                let i = choose|i: int| 0 <= i < ys.len() && ys[i] == k;
                assert(all[i + 1] == k);
            }
        }
    }
}

/// A count begins with nothing counted and nothing passed.
pub proof fn lemma_counting_start(t: Encoded, path: Seq<u8>, e: int, high: Seq<u8>)
    ensures
        counting(t, path, e, high, Seq::<Seq<u8>>::empty(), path, e),
{
    reveal(counting);
}

/// The next key that the cursor yields is the next to be counted.
pub proof fn lemma_counting_next(
    t: Encoded,
    path: Seq<u8>,
    e: int,
    high: Seq<u8>,
    ys: Seq<Seq<u8>>,
    c_path: Seq<u8>,
    c_edge: int,
    next: Seq<u8>,
    n_path: Seq<u8>,
    n_edge: int,
)
    requires
        counting(t, path, e, high, ys, c_path, c_edge),
        yields(t, c_path, c_edge, next, n_path, n_edge),
        key_le(next, high),
    ensures
        counting(t, path, e, high, ys.push(next), n_path, n_edge),
{
    reveal(counting);
    reveal(yields);
    let after = ys.push(next);
    assert(halts(t, next));
    assert forall|i: int, j: int| 0 <= i < j < after.len() implies key_lt(
        #[trigger] after[i],
        #[trigger] after[j],
    ) by {
        if j == after.len() - 1 {
            assert(key_lt(ys.last(), next));
            if i < j - 1 {
                assert(key_lt(ys[i], ys[j - 1]));
                lemma_key_le_transitive(ys[i], ys.last(), next);
            }
        } else {
            assert(key_lt(ys[i], ys[j]));
        }
    }
    assert forall|k: Seq<u8>| #[trigger] halts(t, k) && ahead(path, e, k) implies (!faulty(t, k)
        && after.contains(k)) || ahead(n_path, n_edge, k) by {
        if !faulty(t, k) && ys.contains(k) {
            let i = choose|i: int| 0 <= i < ys.len() && ys[i] == k;
            assert(after[i] == k);
        } else {
            lemma_key_order_total(next, k);
            if k == next {
                assert(after[after.len() - 1] == k);
            }
        }
    }
    assert forall|k: Seq<u8>| #[trigger] halts(t, k) && ahead(n_path, n_edge, k) implies ahead(
        path,
        e,
        k,
    ) by {
        lemma_ahead_upward(c_path, c_edge, next, k);
    }
}

/// A key beyond the bound ends the count: all that comes after it is beyond
/// the bound too, and no fault lies before it.
pub proof fn lemma_counting_over(
    t: Encoded,
    path: Seq<u8>,
    e: int,
    high: Seq<u8>,
    ys: Seq<Seq<u8>>,
    c_path: Seq<u8>,
    c_edge: int,
    next: Seq<u8>,
    n_path: Seq<u8>,
    n_edge: int,
)
    requires
        counting(t, path, e, high, ys, c_path, c_edge),
        yields(t, c_path, c_edge, next, n_path, n_edge),
        key_lt(high, next),
    ensures
        lists(t, path, e, high, ys),
        !fault_within(t, path, e, high),
{
    reveal(lists);
    reveal(fault_first);
    reveal(fault_within);
    reveal(counting);
    reveal(yields);
    assert(halts(t, next));
    assert forall|k: Seq<u8>|
        ys.contains(k) <==> #[trigger] stored(t, k) && ahead(path, e, k) && key_le(k, high) by {
        if stored(t, k) && ahead(path, e, k) && key_le(k, high) && !ys.contains(k) {
            assert(halts(t, k));
            lemma_key_le_transitive(next, k, high);
            lemma_key_order_total(next, high);
        }
    }
    if fault_within(t, path, e, high) {
        let q = choose|q: Seq<u8>| #[trigger]
            faulty(t, q) && ahead(path, e, q) && forall|k: Seq<u8>| #[trigger]
                stored(t, k) && ahead(path, e, k) && key_lt(k, q) ==> key_le(k, high);
        assert(halts(t, q));
        lemma_key_order_total(next, q);
        lemma_key_order_total(next, high);
    }
}

/// With nothing left ahead of the cursor all keys were counted, and there
/// was no fault.
pub proof fn lemma_counting_end(
    t: Encoded,
    path: Seq<u8>,
    e: int,
    high: Seq<u8>,
    ys: Seq<Seq<u8>>,
    c_path: Seq<u8>,
    c_edge: int,
)
    requires
        counting(t, path, e, high, ys, c_path, c_edge),
        forall|k: Seq<u8>| #[trigger] halts(t, k) ==> !ahead(c_path, c_edge, k),
    ensures
        lists(t, path, e, high, ys),
        !fault_within(t, path, e, high),
{
    reveal(lists);
    reveal(fault_first);
    reveal(fault_within);
    reveal(counting);
    assert forall|k: Seq<u8>|
        ys.contains(k) <==> #[trigger] stored(t, k) && ahead(path, e, k) && key_le(k, high) by {
        if stored(t, k) {
            assert(halts(t, k));
        }
    }
    if fault_within(t, path, e, high) {
        let q = choose|q: Seq<u8>| #[trigger]
            faulty(t, q) && ahead(path, e, q) && forall|k: Seq<u8>| #[trigger]
                stored(t, k) && ahead(path, e, k) && key_lt(k, q) ==> key_le(k, high);
        assert(halts(t, q));
    }
}

/// A fault ahead of the cursor, with all keys before it counted, is a fault
/// of the count.
pub proof fn lemma_counting_fault(
    t: Encoded,
    path: Seq<u8>,
    e: int,
    high: Seq<u8>,
    ys: Seq<Seq<u8>>,
    c_path: Seq<u8>,
    c_edge: int,
    q: Seq<u8>,
    n_path: Seq<u8>,
    n_edge: int,
)
    requires
        counting(t, path, e, high, ys, c_path, c_edge),
        faults_at(t, c_path, c_edge, q, n_path, n_edge),
    ensures
        fault_within(t, path, e, high),
{
    reveal(lists);
    reveal(fault_first);
    reveal(fault_within);
    reveal(counting);
    reveal(faults_at);
    assert(halts(t, q));
    assert forall|k: Seq<u8>| #[trigger]
        stored(t, k) && ahead(path, e, k) && key_lt(k, q) implies key_le(k, high) by {
        assert(halts(t, k));
        lemma_key_order_total(q, k);
        if ys.contains(k) {
            let i = choose|i: int| 0 <= i < ys.len() && ys[i] == k;
            assert(key_le(ys[i], high));
        }
    }
    assert(faulty(t, q) && ahead(path, e, q));
}

} // verus!
