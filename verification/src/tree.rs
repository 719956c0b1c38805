//! The range-sum tree: an arena of nodes in implicit heap layout, a cached
//! leaf count, and a table mapping each leaf position to its arena slot.
//!
//! The mathematical view of a tree (`self@`) is the sequence of its leaf
//! values.  Construction validates the input, sizes the arena to
//! `2 * np2(n) - 1` slots, and builds every node so that it caches the sum
//! of the leaf range it covers; queries and updates keep that invariant.
//!
//! Accepted element magnitudes scale with the input length: every element
//! must fit within `elem_limit(n)`, a bound chosen so that no partial sum
//! of any reachable tree state can overflow the machine integers.  For a
//! single-element sequence this is the half-range bound; longer sequences
//! tighten it in proportion.

use vstd::prelude::*;

use crate::layout::in_subtree;
use crate::layout::is_anc;
use crate::layout::lemma_anc_le;
use crate::layout::lemma_leaf_exists;
use crate::layout::lemma_not_in_subtree_below;
use crate::layout::lemma_np2_ge;
use crate::layout::lemma_np2_le_lin;
use crate::layout::lemma_np2_mono;
use crate::layout::lemma_on_path;
use crate::layout::lemma_siblings_disjoint;
use crate::layout::lemma_tnode_bounds;
use crate::layout::lemma_tnode_children;
use crate::layout::lemma_tnode_parent;
use crate::layout::lemma_tnode_widen;
use crate::layout::np2;
use crate::layout::tnode;
use crate::sums::clipped;
use crate::sums::lemma_clipped_bound;
use crate::sums::lemma_clipped_split;
use crate::sums::lemma_rsum_agree;
use crate::sums::lemma_rsum_bound;
use crate::sums::lemma_rsum_split;
use crate::sums::rsum;

verus! {

/// The largest accepted input length.  A sequence of `n` leaves needs an
/// arena of `2 * np2(n) - 1` slots, which can reach almost `4 * n`; capping
/// the length at a quarter of the index space keeps the size computation
/// and every arena index representable.
pub const MAX_INPUT_SIZE: usize = usize::MAX / 4;

/// The largest accepted element magnitude for a sequence of `n` elements.
/// Any node sums at most `n` elements, so every cached sum stays within
/// `isize::MAX / 2` and combining two children can never overflow.
pub open spec fn elem_limit(n: int) -> int {
    ((isize::MAX as int) / 2) / n
}

/// The elements of `s`, as mathematical integers.
pub open spec fn ints_of(s: Seq<isize>) -> Seq<int> {
    Seq::new(s.len(), |i: int| s[i] as int)
}

/// All elements of `s` lie within `[-lim, lim]`.
pub open spec fn elems_in_range(s: Seq<isize>, lim: int) -> bool {
    forall|i: int| 0 <= i < s.len() ==> -lim <= #[trigger] s[i] <= lim
}

/// One node of the tree: the cached sum of the leaf range `[start, end]`
/// it covers, and the arena indices of its two children — both present
/// (internal node) or both absent (leaf).
#[derive(Debug, Clone)]
pub struct Node {
    pub value: isize,
    pub start: usize,
    pub end: usize,
    pub left: Option<usize>,
    pub right: Option<usize>,
}

/// The node at arena index `j`, covering leaf range `[s, e]`, has the
/// fields the layout demands: its recorded range, its children at the heap
/// positions `2j + 1` and `2j + 2` when internal, and its slot recorded in
/// the leaf table when it is a leaf.
pub open spec fn node_shape(nodes: Seq<Node>, li: Seq<usize>, j: int, s: int, e: int) -> bool {
    &&& 0 <= j < nodes.len()
    &&& nodes[j].start == s
    &&& nodes[j].end == e
    &&& (s == e ==> {
        &&& nodes[j].left is None
        &&& nodes[j].right is None
        &&& 0 <= s < li.len()
        &&& li[s] == j
    })
    &&& (s < e ==> {
        &&& 2 * j + 2 < nodes.len()
        &&& nodes[j].left == Some((2 * j + 1) as usize)
        &&& nodes[j].right == Some((2 * j + 2) as usize)
    })
}

/// A fully built node: the right shape, and a value that is exactly the
/// sum of the leaf values it covers.
pub open spec fn built_node(
    nodes: Seq<Node>,
    li: Seq<usize>,
    vals: Seq<int>,
    j: int,
    s: int,
    e: int,
) -> bool {
    &&& node_shape(nodes, li, j, s, e)
    &&& nodes[j].value == rsum(vals, s, e)
}

/// The range-sum tree.
pub struct SegmentTree {
    nodes: Vec<Node>,
    leaf_len: usize,
    leaf_indices: Vec<usize>,
}

impl View for SegmentTree {
    type V = Seq<int>;

    /// The sequence of leaf values, read through the leaf table.
    closed spec fn view(&self) -> Seq<int> {
        Seq::new(
            self.leaf_len as nat,
            |p: int| self.nodes@[self.leaf_indices@[p] as int].value as int,
        )
    }
}

impl SegmentTree {
    /// The number of leaves, that is, of original sequence elements.
    pub closed spec fn leaf_count(&self) -> int {
        self.leaf_len as int
    }

    /// The number of arena slots.
    pub closed spec fn node_count(&self) -> int {
        self.nodes@.len() as int
    }

    /// The node stored at arena index `j`.
    pub closed spec fn node_at(&self, j: int) -> Node {
        self.nodes@[j]
    }

    /// Structural well-formedness: a non-empty leaf range, an arena of
    /// exactly `2 * np2(n) - 1` slots, every tree node shaped as the
    /// layout demands, and the leaf table pointing at the leaf nodes.
    pub closed spec fn shape_inv(&self) -> bool {
        &&& 1 <= self.leaf_len <= MAX_INPUT_SIZE
        &&& self.leaf_indices@.len() == self.leaf_len
        &&& self.nodes@.len() == 2 * np2(self.leaf_len as nat) - 1
        &&& (forall|j: int, s: int, e: int|
            #[trigger] tnode(0, 0, self.leaf_len - 1, j, s, e) ==> node_shape(
                self.nodes@,
                self.leaf_indices@,
                j,
                s,
                e,
            ))
        &&& (forall|p: int|
            #![trigger self.leaf_indices@[p]]
            0 <= p < self.leaf_len ==> tnode(
                0,
                0,
                self.leaf_len - 1,
                self.leaf_indices@[p] as int,
                p,
                p,
            ))
    }

    /// Every tree node caches the sum of the leaf values it covers.
    pub closed spec fn values_ok(&self) -> bool {
        forall|j: int, s: int, e: int|
            #[trigger] tnode(0, 0, self.leaf_len - 1, j, s, e) ==> self.nodes@[j].value == rsum(
                self@,
                s,
                e,
            )
    }

    /// Every leaf value lies within the magnitude bound for this length.
    pub closed spec fn leaves_bounded(&self) -> bool {
        forall|p: int|
            0 <= p < self@.len() ==> -elem_limit(self.leaf_count()) <= #[trigger] self@[p]
                <= elem_limit(self.leaf_count())
    }

    /// The tree invariant: established by construction, preserved by update.
    pub closed spec fn inv(&self) -> bool {
        &&& self.shape_inv()
        &&& self.values_ok()
        &&& self.leaves_bounded()
    }

    /// Create a new segment tree for the given sequence of values.
    ///
    /// Succeeds exactly when the input is non-empty, no longer than
    /// `MAX_INPUT_SIZE`, and every element fits the magnitude bound for
    /// its length; the tree then satisfies the invariant and its view is
    /// the input sequence.
    pub fn new(input: &Vec<isize>) -> (r: Result<SegmentTree, &'static str>)
        ensures
            r is Ok <==> (1 <= input@.len() <= MAX_INPUT_SIZE && elems_in_range(
                input@,
                elem_limit(input@.len() as int),
            )),
            r is Ok ==> r->Ok_0.inv(),
            r is Ok ==> r->Ok_0.leaf_count() == input@.len(),
            r is Ok ==> r->Ok_0@ == ints_of(input@),
            input@.len() == 0 ==> r is Err && r->Err_0@ == "Input is empty"@,
            input@.len() > MAX_INPUT_SIZE ==> r is Err && r->Err_0@
                == "Input size exceeded maximum value"@,
            (1 <= input@.len() <= MAX_INPUT_SIZE && (exists|i: int|
                #![auto]
                0 <= i < input@.len() && input@[i] < -elem_limit(input@.len() as int) && (
                forall|k: int|
                    0 <= k < i ==> -elem_limit(input@.len() as int) <= #[trigger] input@[k]
                        <= elem_limit(input@.len() as int)))) ==> r is Err && r->Err_0@
                == "Input value exceeded maximum value"@,
            (1 <= input@.len() <= MAX_INPUT_SIZE && (exists|i: int|
                #![auto]
                0 <= i < input@.len() && input@[i] > elem_limit(input@.len() as int) && (
                forall|k: int|
                    0 <= k < i ==> -elem_limit(input@.len() as int) <= #[trigger] input@[k]
                        <= elem_limit(input@.len() as int)))) ==> r is Err && r->Err_0@
                == "Input value exceeded minimum value"@,
    {
        match Self::validate_input(input) {
            Err(e) => {
                return Err(e);
            },
            Ok(()) => {},
        }
        let leaf_len: usize = input.len();
        let tree_len: usize = Self::get_segment_tree_size(leaf_len);
        let mut nodes: Vec<Node> = Self::reserve_nodes(tree_len);
        let mut leaf_indices: Vec<usize> = Vec::new();
        while leaf_indices.len() < leaf_len
            invariant
                leaf_indices@.len() <= leaf_len,
            decreases leaf_len - leaf_indices@.len(),
        {
            leaf_indices.push(0);
        }
        let ghost n = leaf_len as int;
        let ghost iv = ints_of(input@);
        Self::build_nodes_recursive(&mut nodes, &mut leaf_indices, 0, 0, leaf_len - 1, input);
        let t = SegmentTree { nodes, leaf_len, leaf_indices };
        proof {
            let lim = elem_limit(n);
            assert forall|p: int|
                #![trigger t.leaf_indices@[p]]
                #![trigger t@[p]]
                0 <= p < n implies t@[p] == iv[p] && tnode(
                0,
                0,
                n - 1,
                t.leaf_indices@[p] as int,
                p,
                p,
            ) by {
                let j = lemma_leaf_exists(0, 0, n - 1, p);
                assert(built_node(t.nodes@, t.leaf_indices@, iv, j, p, p));
                assert(rsum(iv, p, p - 1) == 0);
                assert(rsum(iv, p, p) == iv[p]);
            }
            assert(t@ =~= iv);
            assert forall|j: int, s: int, e: int|
                #[trigger] tnode(0, 0, n - 1, j, s, e) implies node_shape(
                t.nodes@,
                t.leaf_indices@,
                j,
                s,
                e,
            ) && t.nodes@[j].value == rsum(t@, s, e) by {
                assert(built_node(t.nodes@, t.leaf_indices@, iv, j, s, e));
            }
            assert(t.shape_inv());
            assert(t.values_ok());
            assert forall|p: int| 0 <= p < t@.len() implies -lim <= #[trigger] t@[p] <= lim by {
                assert(-lim <= input@[p] <= lim);
                assert(t@[p] == iv[p]);
            }
            assert(t.leaves_bounded());
        }
        Ok(t)
    }

    /// Validate input values.
    /// Returns `Ok(())` exactly when the input is non-empty, no longer than
    /// `MAX_INPUT_SIZE`, and every element fits the magnitude bound.
    fn validate_input(input: &Vec<isize>) -> (r: Result<(), &'static str>)
        ensures
            r is Ok <==> (1 <= input@.len() <= MAX_INPUT_SIZE && elems_in_range(
                input@,
                elem_limit(input@.len() as int),
            )),
            input@.len() == 0 ==> r is Err && r->Err_0@ == "Input is empty"@,
            input@.len() > MAX_INPUT_SIZE ==> r is Err && r->Err_0@
                == "Input size exceeded maximum value"@,
            (1 <= input@.len() <= MAX_INPUT_SIZE && (exists|i: int|
                #![auto]
                0 <= i < input@.len() && input@[i] < -elem_limit(input@.len() as int) && (
                forall|k: int|
                    0 <= k < i ==> -elem_limit(input@.len() as int) <= #[trigger] input@[k]
                        <= elem_limit(input@.len() as int)))) ==> r is Err && r->Err_0@
                == "Input value exceeded maximum value"@,
            (1 <= input@.len() <= MAX_INPUT_SIZE && (exists|i: int|
                #![auto]
                0 <= i < input@.len() && input@[i] > elem_limit(input@.len() as int) && (
                forall|k: int|
                    0 <= k < i ==> -elem_limit(input@.len() as int) <= #[trigger] input@[k]
                        <= elem_limit(input@.len() as int)))) ==> r is Err && r->Err_0@
                == "Input value exceeded minimum value"@,
    {
        let len: usize = input.len();
        if len == 0 {
            return Err("Input is empty");
        }
        if len > MAX_INPUT_SIZE {
            return Err("Input size exceeded maximum value");
        }
        let half_max: usize = isize::MAX as usize / 2;
        assert(half_max / len <= half_max) by (nonlinear_arith)
            requires
                len >= 1,
                half_max >= 0,
        ;
        let limit: isize = (half_max / len) as isize;
        assert(limit == elem_limit(len as int));
        let mut i: usize = 0;
        while i < len
            invariant
                len == input@.len(),
                1 <= len <= MAX_INPUT_SIZE,
                i <= len,
                -elem_limit(len as int) <= limit <= elem_limit(len as int),
                limit == elem_limit(len as int),
                forall|k: int| 0 <= k < i ==> -limit <= #[trigger] input@[k] <= limit,
            decreases len - i,
        {
            if input[i] < -limit {
                return Err("Input value exceeded maximum value");
            }
            if input[i] > limit {
                return Err("Input value exceeded minimum value");
            }
            i = i + 1;
        }
        Ok(())
    }

    /// The smallest power of two at least `sz`, by the halving recurrence.
    fn next_pow2(sz: usize) -> (r: usize)
        requires
            1 <= sz <= MAX_INPUT_SIZE,
        ensures
            r == np2(sz as nat),
        decreases sz,
    {
        if sz <= 1 {
            1
        } else {
            let c: usize = (sz + 1) / 2;
            let h: usize = Self::next_pow2(c);
            proof {
                if c >= 2 {
                    lemma_np2_le_lin(c as nat);
                }
            }
            2 * h
        }
    }

    /// Get the exact size of the segment tree: `2 * np2(vec_len) - 1`
    /// arena slots host a complete binary tree whose leaf level has at
    /// least `vec_len` positions.
    fn get_segment_tree_size(vec_len: usize) -> (r: usize)
        requires
            vec_len <= MAX_INPUT_SIZE,
        ensures
            vec_len == 0 ==> r == 0,
            vec_len >= 1 ==> r == 2 * np2(vec_len as nat) - 1,
    {
        if vec_len == 0 {
            return 0;
        }
        let p: usize = Self::next_pow2(vec_len);
        proof {
            lemma_np2_ge(vec_len as nat);
            if vec_len >= 2 {
                lemma_np2_le_lin(vec_len as nat);
            }
        }
        p - 1 + p
    }

    /// Reserve memory for the nodes in the segment tree, every slot holding
    /// the zero node.
    fn reserve_nodes(tree_size: usize) -> (nodes: Vec<Node>)
        ensures
            nodes@.len() == tree_size,
            forall|j: int|
                0 <= j < tree_size ==> #[trigger] nodes@[j] == (Node {
                    value: 0,
                    start: 0,
                    end: 0,
                    left: None,
                    right: None,
                }),
    {
        let mut nodes: Vec<Node> = Vec::new();
        while nodes.len() < tree_size
            invariant
                nodes@.len() <= tree_size,
                forall|j: int|
                    0 <= j < nodes@.len() ==> #[trigger] nodes@[j] == (Node {
                        value: 0,
                        start: 0,
                        end: 0,
                        left: None,
                        right: None,
                    }),
            decreases tree_size - nodes@.len(),
        {
            nodes.push(Node { value: 0, start: 0, end: 0, left: None, right: None });
        }
        nodes
    }

    /// Validate query parameters against the tree's bounds.
    fn validate_public_query(&self, start: usize, end: usize) -> (r: Result<(), &'static str>)
        requires
            self.leaf_len >= 1,
        ensures
            r is Ok <==> (start <= end && end < self.leaf_len),
            start > end ==> r is Err && r->Err_0@ == "Start index is greater than end index"@,
            start <= end && start >= self.leaf_len ==> r is Err && r->Err_0@
                == "Start index is out of bounds"@,
            start <= end && start < self.leaf_len && end >= self.leaf_len ==> r is Err
                && r->Err_0@ == "End index is out of bounds"@,
    {
        if self.leaf_len == 0 {
            return Err("Segment tree is empty");
        }
        if start > end {
            return Err("Start index is greater than end index");
        }
        if start > self.leaf_len - 1 {
            return Err("Start index is out of bounds");
        }
        if end > self.leaf_len - 1 {
            return Err("End index is out of bounds");
        }
        Ok(())
    }

    /// Query the sum of the leaf values over positions `start ..= end`.
    ///
    /// Succeeds exactly when `start <= end` and both lie within the leaf
    /// range; the result is then the exact sum of the viewed sequence over
    /// that range.
    pub fn query(&self, start: usize, end: usize) -> (r: Result<isize, &'static str>)
        requires
            self.inv(),
        ensures
            r is Ok <==> (start <= end && (end as int) < self.leaf_count()),
            r is Ok ==> r->Ok_0 == rsum(self@, start as int, end as int),
            start > end ==> r is Err && r->Err_0@ == "Start index is greater than end index"@,
            start <= end && start as int >= self.leaf_count() ==> r is Err && r->Err_0@
                == "Start index is out of bounds"@,
            start <= end && (start as int) < self.leaf_count() && end as int
                >= self.leaf_count() ==> r is Err && r->Err_0@ == "End index is out of bounds"@,
    {
        match self.validate_public_query(start, end) {
            Err(e) => {
                return Err(e);
            },
            Ok(()) => {},
        }
        proof {
            assert(tnode(0, 0, self.leaf_len - 1, 0, 0, self.leaf_len - 1));
        }
        let v: isize = self.internal_query_recursive(
            0,
            start,
            end,
            Ghost(0),
            Ghost(self.leaf_len as int - 1),
        );
        Ok(v)
    }

    /// Query the subtree at `node_idx`, which covers leaf range `[ns, ne]`
    /// (recursive).  Returns the sum of the leaf values in the part of
    /// `[ns, ne]` that falls inside the query range.
    fn internal_query_recursive(
        &self,
        node_idx: usize,
        start: usize,
        end: usize,
        Ghost(ns): Ghost<int>,
        Ghost(ne): Ghost<int>,
    ) -> (sum: isize)
        requires
            self.inv(),
            start <= end,
            (end as int) < self.leaf_count(),
            tnode(0, 0, self.leaf_count() - 1, node_idx as int, ns, ne),
        ensures
            sum == clipped(self@, start as int, end as int, ns, ne),
        decreases ne - ns,
    {
        let ghost n = self.leaf_len as int;
        let ghost j = node_idx as int;
        let arena_len: usize = self.nodes.len();
        proof {
            lemma_tnode_bounds(0, 0, n - 1, j, ns, ne);
            assert(node_shape(self.nodes@, self.leaf_indices@, j, ns, ne));
            assert(arena_len == self.nodes@.len());
        }
        let nd_start: usize = self.nodes[node_idx].start;
        let nd_end: usize = self.nodes[node_idx].end;
        if start <= nd_start && end >= nd_end {
            let v: isize = self.nodes[node_idx].value;
            proof {
                assert(self.nodes@[j].value == rsum(self@, ns, ne));
            }
            return v;
        }
        if end < nd_start || start > nd_end {
            return 0;
        }
        proof {
            assert(ns < ne);
            lemma_tnode_children(0, 0, n - 1, j, ns, ne);
        }
        let left_idx: usize = self.nodes[node_idx].left.unwrap();
        let right_idx: usize = self.nodes[node_idx].right.unwrap();
        let ghost m = (ns + ne) / 2;
        let left_sum: isize = self.internal_query_recursive(
            left_idx,
            start,
            end,
            Ghost(ns),
            Ghost(m),
        );
        let right_sum: isize = self.internal_query_recursive(
            right_idx,
            start,
            end,
            Ghost(m + 1),
            Ghost(ne),
        );
        proof {
            let lim = elem_limit(n);
            let half = (isize::MAX as int) / 2;
            assert(lim >= 0 && n * lim <= half) by (nonlinear_arith)
                requires
                    n >= 1,
                    lim == half / n,
                    half >= 0,
            ;
            assert(forall|i: int| ns <= i <= m ==> -lim <= #[trigger] self@[i] <= lim);
            assert(forall|i: int| m + 1 <= i <= ne ==> -lim <= #[trigger] self@[i] <= lim);
            lemma_clipped_bound(self@, start as int, end as int, ns, m, lim);
            lemma_clipped_bound(self@, start as int, end as int, m + 1, ne, lim);
            assert((m - ns + 1) * lim + (ne - m) * lim == (ne - ns + 1) * lim)
                by (nonlinear_arith);
            assert((ne - ns + 1) * lim <= n * lim) by (nonlinear_arith)
                requires
                    ne - ns + 1 <= n,
                    lim >= 0,
            ;
            lemma_clipped_split(self@, start as int, end as int, ns, m, ne);
        }
        left_sum + right_sum
    }

    /// Build the nodes of the segment tree (recursive): fill the subtree
    /// rooted at arena slot `node` covering leaf range `[start, end]`,
    /// record every leaf's slot in the leaf table, and return the sum of
    /// the range.  Slots outside the subtree and table entries outside the
    /// range are left untouched.
    fn build_nodes_recursive(
        nodes: &mut Vec<Node>,
        leaf_indices: &mut Vec<usize>,
        node: usize,
        start: usize,
        end: usize,
        input: &Vec<isize>,
    ) -> (sum: isize)
        requires
            start <= end,
            end < input@.len(),
            input@.len() <= MAX_INPUT_SIZE,
            old(leaf_indices)@.len() == input@.len(),
            elems_in_range(input@, elem_limit(input@.len() as int)),
            (node as int + 2) * (np2((end - start + 1) as nat) as int) - 1 <= old(nodes)@.len(),
        ensures
            final(nodes)@.len() == old(nodes)@.len(),
            final(leaf_indices)@.len() == old(leaf_indices)@.len(),
            sum == rsum(ints_of(input@), start as int, end as int),
            forall|j: int, s: int, e: int|
                #[trigger] tnode(node as int, start as int, end as int, j, s, e) ==> built_node(
                    final(nodes)@,
                    final(leaf_indices)@,
                    ints_of(input@),
                    j,
                    s,
                    e,
                ),
            forall|j: int|
                0 <= j < old(nodes)@.len() && !in_subtree(
                    node as int,
                    start as int,
                    end as int,
                    j,
                ) ==> final(nodes)@[j] == old(nodes)@[j],
            forall|p: int|
                0 <= p < old(leaf_indices)@.len() && !(start <= p <= end)
                    ==> final(leaf_indices)@[p] == old(leaf_indices)@[p],
        decreases end - start,
    {
        let arena_len: usize = nodes.len();
        let ghost iv = ints_of(input@);
        let ghost n0 = node as int;
        let ghost s0 = start as int;
        let ghost e0 = end as int;
        let ghost sz = (e0 - s0 + 1) as nat;
        proof {
            lemma_np2_ge(sz);
            assert(arena_len == nodes@.len());
        }
        if start == end {
            proof {
                assert(np2(sz) == 1);
                assert((n0 + 2) * (np2(sz) as int) == n0 + 2) by (nonlinear_arith)
                    requires
                        np2(sz) == 1,
                ;
            }
            let val: isize = input[start];
            nodes.set(node, Node { value: val, start: start, end: end, left: None, right: None });
            leaf_indices.set(start, node);
            proof {
                assert(rsum(iv, s0, e0 - 1) == 0);
                assert(rsum(iv, s0, e0) == iv[e0]);
                assert(tnode(n0, s0, e0, n0, s0, e0));
                assert(in_subtree(n0, s0, e0, n0));
                assert forall|j: int, s: int, e: int|
                    #[trigger] tnode(n0, s0, e0, j, s, e) implies built_node(
                    nodes@,
                    leaf_indices@,
                    iv,
                    j,
                    s,
                    e,
                ) by {
                    assert(j == n0 && s == s0 && e == e0);
                }
            }
            return val;
        }
        let mid: usize = (start + end) / 2;
        let ghost m0 = mid as int;
        let ghost lsz = (m0 - s0 + 1) as nat;
        let ghost rsz = (e0 - m0) as nat;
        proof {
            assert(lsz == (sz + 1) / 2);
            assert(np2(sz) == 2 * np2(lsz));
            lemma_np2_ge(lsz);
            lemma_np2_ge(rsz);
            assert((n0 + 2) * 2 <= (n0 + 2) * (np2(sz) as int)) by (nonlinear_arith)
                requires
                    n0 >= 0,
                    np2(sz) >= 2,
            ;
        }
        let left: usize = 2 * node + 1;
        let right: usize = 2 * node + 2;
        nodes[node].left = Some(left);
        nodes[node].right = Some(right);
        nodes[node].start = start;
        nodes[node].end = end;
        let ghost nodes0 = nodes@;
        proof {
            assert((2 * n0 + 3) * (np2(lsz) as int) <= (n0 + 2) * (np2(sz) as int))
                by (nonlinear_arith)
                requires
                    n0 >= 0,
                    np2(lsz) >= 1,
                    np2(sz) == 2 * np2(lsz),
            ;
        }
        let left_sum: isize = Self::build_nodes_recursive(nodes, leaf_indices, left, start, mid, input);
        let ghost nodes1 = nodes@;
        let ghost li1 = leaf_indices@;
        proof {
            lemma_not_in_subtree_below(left as int, s0, m0, n0);
            lemma_np2_mono(rsz, lsz);
            assert((2 * n0 + 4) * (np2(rsz) as int) <= (n0 + 2) * (np2(sz) as int))
                by (nonlinear_arith)
                requires
                    n0 >= 0,
                    np2(rsz) >= 1,
                    np2(rsz) <= np2(lsz),
                    np2(sz) == 2 * np2(lsz),
            ;
        }
        let right_sum: isize = Self::build_nodes_recursive(
            nodes,
            leaf_indices,
            right,
            mid + 1,
            end,
            input,
        );
        let ghost nodes2 = nodes@;
        let ghost li2 = leaf_indices@;
        proof {
            lemma_not_in_subtree_below(right as int, m0 + 1, e0, n0);
            // The left subtree's nodes are untouched by the right build.
            assert forall|j: int, s: int, e: int|
                #[trigger] tnode(left as int, s0, m0, j, s, e) implies built_node(
                nodes2,
                li2,
                iv,
                j,
                s,
                e,
            ) by {
                assert(built_node(nodes1, li1, iv, j, s, e));
                assert(in_subtree(left as int, s0, m0, j));
                lemma_siblings_disjoint(n0, s0, m0, m0 + 1, e0, j);
                lemma_tnode_bounds(left as int, s0, m0, j, s, e);
            }
            // The two sums fit: each node sums at most the whole input,
            // whose elements are bounded by elem_limit.
            let lim = elem_limit(input@.len() as int);
            let n = input@.len() as int;
            assert(lim >= 0) by (nonlinear_arith)
                requires
                    n >= 1,
                    lim == ((isize::MAX as int) / 2) / n,
                    (isize::MAX as int) / 2 >= 0,
            ;
            assert(forall|i: int| s0 <= i <= e0 ==> -lim <= #[trigger] iv[i] <= lim);
            lemma_rsum_bound(iv, s0, m0, lim);
            lemma_rsum_bound(iv, m0 + 1, e0, lim);
            assert(n * lim <= (isize::MAX as int) / 2) by (nonlinear_arith)
                requires
                    n >= 1,
                    lim == ((isize::MAX as int) / 2) / n,
                    (isize::MAX as int) / 2 >= 0,
            ;
            assert((m0 - s0 + 1) * lim + (e0 - m0) * lim == (e0 - s0 + 1) * lim)
                by (nonlinear_arith);
            assert((e0 - s0 + 1) * lim <= n * lim) by (nonlinear_arith)
                requires
                    e0 - s0 + 1 <= n,
                    lim >= 0,
            ;
        }
        nodes[node].value = left_sum + right_sum;
        let total: isize = nodes[node].value;
        proof {
            let ghost nodes3 = nodes@;
            lemma_rsum_split(iv, s0, m0, e0);
            assert forall|j: int, s: int, e: int|
                #[trigger] tnode(n0, s0, e0, j, s, e) implies built_node(
                nodes3,
                li2,
                iv,
                j,
                s,
                e,
            ) by {
                if j == n0 && s == s0 && e == e0 {
                    assert(nodes3[n0].start == s0);
                    assert(nodes3[n0].value == left_sum + right_sum);
                } else {
                    if tnode(left as int, s0, m0, j, s, e) {
                        lemma_tnode_bounds(left as int, s0, m0, j, s, e);
                        assert(built_node(nodes2, li2, iv, j, s, e));
                        assert(nodes3[j] == nodes2[j]);
                    } else {
                        assert(tnode(right as int, m0 + 1, e0, j, s, e));
                        lemma_tnode_bounds(right as int, m0 + 1, e0, j, s, e);
                        assert(built_node(nodes2, li2, iv, j, s, e));
                        assert(nodes3[j] == nodes2[j]);
                    }
                }
            }
            // Frame: indices outside the subtree are untouched.
            assert forall|j: int|
                0 <= j < old(nodes)@.len() && !in_subtree(n0, s0, e0, j) implies nodes3[j] == old(
                nodes,
            )@[j] by {
                assert(tnode(n0, s0, e0, n0, s0, e0));
                assert(in_subtree(n0, s0, e0, n0));
                assert(!in_subtree(left as int, s0, m0, j)) by {
                    if in_subtree(left as int, s0, m0, j) {
                        let (s, e) = choose|s: int, e: int|
                            #[trigger] tnode(left as int, s0, m0, j, s, e);
                        lemma_tnode_widen(n0, s0, e0, j, s, e);
                        assert(in_subtree(n0, s0, e0, j));
                    }
                }
                assert(!in_subtree(right as int, m0 + 1, e0, j)) by {
                    if in_subtree(right as int, m0 + 1, e0, j) {
                        let (s, e) = choose|s: int, e: int|
                            #[trigger] tnode(right as int, m0 + 1, e0, j, s, e);
                        lemma_tnode_widen(n0, s0, e0, j, s, e);
                        assert(in_subtree(n0, s0, e0, j));
                    }
                }
                assert(nodes0[j] == old(nodes)@[j]);
                assert(nodes1[j] == nodes0[j]);
                assert(nodes2[j] == nodes1[j]);
            }
        }
        total
    }
    /// Validate update parameters.
    fn validate_public_update(&self, index: usize, new_value: isize) -> (r: Result<
        (),
        &'static str,
    >)
        requires
            1 <= self.leaf_len <= MAX_INPUT_SIZE,
        ensures
            r is Ok <==> (index < self.leaf_len && -elem_limit(self.leaf_len as int) <= new_value
                <= elem_limit(self.leaf_len as int)),
            index >= self.leaf_len ==> r is Err && r->Err_0@ == "Update index is out of bounds"@,
            index < self.leaf_len && !(-elem_limit(self.leaf_len as int) <= new_value
                <= elem_limit(self.leaf_len as int)) ==> r is Err && r->Err_0@
                == "New value is out of valid range"@,
    {
        if self.leaf_len == 0 {
            return Err("Segment tree is empty");
        }
        if index >= self.leaf_len {
            return Err("Update index is out of bounds");
        }
        let half_max: usize = isize::MAX as usize / 2;
        assert(half_max / self.leaf_len <= half_max) by (nonlinear_arith)
            requires
                self.leaf_len >= 1,
                half_max >= 0,
        ;
        let limit: isize = (half_max / self.leaf_len) as isize;
        if new_value > limit || new_value < -limit {
            return Err("New value is out of valid range");
        }
        Ok(())
    }

    /// Replace the value at leaf position `index` and restore every
    /// ancestor's cached sum.
    ///
    /// Succeeds exactly when the index is within the leaf range and the
    /// value fits the magnitude bound; the view is then the old view with
    /// that one position replaced.  Rewriting a leaf with its current
    /// value leaves every node's value unchanged, and arena slots outside
    /// the tree are never touched.
    pub fn update(&mut self, index: usize, new_value: isize) -> (r: Result<(), &'static str>)
        requires
            old(self).inv(),
        ensures
            final(self).inv(),
            final(self).leaf_count() == old(self).leaf_count(),
            final(self).node_count() == old(self).node_count(),
            r is Ok <==> ((index as int) < old(self).leaf_count() && -elem_limit(
                old(self).leaf_count(),
            ) <= new_value <= elem_limit(old(self).leaf_count())),
            r is Ok ==> final(self)@ == old(self)@.update(index as int, new_value as int),
            r is Err ==> *final(self) == *old(self),
            index as int >= old(self).leaf_count() ==> r is Err && r->Err_0@
                == "Update index is out of bounds"@,
            ((index as int) < old(self).leaf_count() && !(-elem_limit(old(self).leaf_count())
                <= new_value <= elem_limit(old(self).leaf_count()))) ==> r is Err && r->Err_0@
                == "New value is out of valid range"@,
            (r is Ok && new_value as int == old(self)@[index as int]) ==> (forall|j: int|
                0 <= j < old(self).node_count() ==> #[trigger] final(self).node_at(j).value
                    == old(self).node_at(j).value),
            forall|j: int|
                0 <= j < old(self).node_count() && !in_subtree(
                    0,
                    0,
                    old(self).leaf_count() - 1,
                    j,
                ) ==> final(self).node_at(j) == old(self).node_at(j),
    {
        match self.validate_public_update(index, new_value) {
            Err(e) => {
                return Err(e);
            },
            Ok(()) => {},
        }
        let ghost n = self.leaf_len as int;
        let ghost w0 = self@;
        let ghost p0 = index as int;
        let leaf_node: usize = self.leaf_indices[index];
        let ghost l = leaf_node as int;
        proof {
            assert(tnode(0, 0, n - 1, l, p0, p0));
            assert(node_shape(self.nodes@, self.leaf_indices@, l, p0, p0));
        }
        self.nodes[leaf_node].value = new_value;
        let ghost w1 = self@;
        proof {
            let ghost prev_nodes = old(self).nodes@;
            assert forall|p: int|
                #![trigger w1[p]]
                #![trigger w0[p]]
                0 <= p < n implies w1[p] == w0.update(p0, new_value as int)[p] by {
                assert(tnode(0, 0, n - 1, self.leaf_indices@[p] as int, p, p));
                assert(node_shape(prev_nodes, self.leaf_indices@, self.leaf_indices@[p] as int, p, p));
                if self.leaf_indices@[p] as int == l {
                    assert(p == p0);
                }
            }
            assert(w1 =~= w0.update(p0, new_value as int));
            assert forall|j: int, s: int, e: int|
                #[trigger] tnode(0, 0, n - 1, j, s, e) implies node_shape(
                self.nodes@,
                self.leaf_indices@,
                j,
                s,
                e,
            ) by {
                assert(node_shape(prev_nodes, self.leaf_indices@, j, s, e));
            }
            assert(self.shape_inv());
            assert(rsum(w1, p0, p0 - 1) == 0);
            assert forall|j: int, s: int, e: int|
                #[trigger] tnode(0, 0, n - 1, j, s, e) && !is_anc(j, l) implies self.nodes@[j].value
                == rsum(w1, s, e) by {
                lemma_tnode_bounds(0, 0, n - 1, j, s, e);
                assert(node_shape(prev_nodes, self.leaf_indices@, j, s, e));
                if j == l {
                    assert(s == p0 && e == p0);
                    assert(w1[p0] == new_value as int);
                } else {
                    if s <= p0 <= e {
                        lemma_on_path(0, 0, n - 1, j, s, e, l, p0);
                    }
                    lemma_rsum_agree(w1, w0, s, e);
                }
            }
            assert forall|p: int| 0 <= p < n implies -elem_limit(n) <= #[trigger] w1[p]
                <= elem_limit(n) by {
                assert(-elem_limit(n) <= w0[p] <= elem_limit(n));
            }
        }
        self.update_ancestors(leaf_node, Ghost(index as int));
        proof {
            assert(self@ == w1);
            assert(self.values_ok());
            assert(self.leaves_bounded());
            if new_value as int == w0[p0] {
                assert(w1 =~= w0);
                assert forall|j: int| 0 <= j < old(self).node_count() implies #[trigger] self
                    .node_at(j).value == old(self).node_at(j).value by {
                    if in_subtree(0, 0, n - 1, j) {
                        let (s, e) = choose|s: int, e: int| #[trigger] tnode(0, 0, n - 1, j, s, e);
                        assert(old(self).nodes@[j].value == rsum(w0, s, e));
                        assert(self.nodes@[j].value == rsum(w1, s, e));
                    }
                }
            }
        }
        Ok(())
    }

    /// Update the ancestors of a node: walk upward from the given arena
    /// slot, recomputing each parent's cached sum from its two children,
    /// until the root has been recomputed.
    ///
    /// On entry every tree node except the strict ancestors of `node_idx`
    /// must already cache the sum, over the current view, of the range it
    /// covers; on exit every tree node does.
    fn update_ancestors(&mut self, node_idx: usize, Ghost(pos): Ghost<int>)
        requires
            old(self).shape_inv(),
            0 <= pos < old(self).leaf_len,
            tnode(0, 0, old(self).leaf_len - 1, node_idx as int, pos, pos),
            forall|p: int|
                0 <= p < old(self)@.len() ==> -elem_limit(old(self).leaf_count())
                    <= #[trigger] old(self)@[p] <= elem_limit(old(self).leaf_count()),
            forall|j: int, s: int, e: int|
                #[trigger] tnode(0, 0, old(self).leaf_len - 1, j, s, e) && !is_anc(
                    j,
                    node_idx as int,
                ) ==> old(self).nodes@[j].value == rsum(old(self)@, s, e),
        ensures
            final(self).shape_inv(),
            final(self).leaf_len == old(self).leaf_len,
            final(self).leaf_indices@ == old(self).leaf_indices@,
            final(self).nodes@.len() == old(self).nodes@.len(),
            final(self)@ == old(self)@,
            forall|j: int, s: int, e: int|
                #[trigger] tnode(0, 0, old(self).leaf_len - 1, j, s, e)
                    ==> final(self).nodes@[j].value == rsum(old(self)@, s, e),
            forall|j: int|
                0 <= j < old(self).nodes@.len() && !in_subtree(
                    0,
                    0,
                    old(self).leaf_len - 1,
                    j,
                ) ==> final(self).nodes@[j] == old(self).nodes@[j],
    {
        let ghost n = old(self).leaf_len as int;
        let ghost w = old(self)@;
        let arena_len: usize = self.nodes.len();
        proof {
            assert(arena_len == self.nodes@.len());
        }
        let mut node_idx: usize = node_idx;
        let ghost mut cs: int = pos;
        let ghost mut ce: int = pos;
        while node_idx > 0
            invariant
                self.leaf_len == old(self).leaf_len,
                self.leaf_indices@ == old(self).leaf_indices@,
                self.nodes@.len() == old(self).nodes@.len(),
                self.shape_inv(),
                n == self.leaf_len as int,
                self@ == w,
                arena_len == self.nodes@.len(),
                0 <= pos < n,
                tnode(0, 0, n - 1, node_idx as int, cs, ce),
                cs <= pos <= ce,
                forall|j: int, s: int, e: int|
                    #[trigger] tnode(0, 0, n - 1, j, s, e) && !is_anc(j, node_idx as int)
                        ==> self.nodes@[j].value == rsum(w, s, e),
                forall|p: int|
                    0 <= p < n ==> -elem_limit(n) <= #[trigger] w[p] <= elem_limit(n),
                forall|j: int|
                    0 <= j < self.nodes@.len() && !in_subtree(0, 0, n - 1, j)
                        ==> self.nodes@[j] == old(self).nodes@[j],
            decreases node_idx,
        {
            let parent: usize = (node_idx - 1) / 2;
            let ghost c = node_idx as int;
            let ghost q = parent as int;
            let ghost mut ps: int = 0;
            let ghost mut pe: int = 0;
            proof {
                lemma_tnode_bounds(0, 0, n - 1, c, cs, ce);
                let r = lemma_tnode_parent(0, 0, n - 1, c, cs, ce);
                ps = r.0;
                pe = r.1;
                lemma_tnode_bounds(0, 0, n - 1, q, ps, pe);
                assert(node_shape(self.nodes@, self.leaf_indices@, q, ps, pe));
                lemma_tnode_children(0, 0, n - 1, q, ps, pe);
            }
            let ghost m = (ps + pe) / 2;
            let left_child: usize = self.nodes[parent].left.unwrap();
            let right_child: usize = self.nodes[parent].right.unwrap();
            proof {
                assert(left_child as int == 2 * q + 1);
                assert(right_child as int == 2 * q + 2);
                assert(!is_anc(2 * q + 1, c)) by {
                    if is_anc(2 * q + 1, c) {
                        lemma_anc_le(2 * q + 1, c);
                    }
                }
                assert(!is_anc(2 * q + 2, c)) by {
                    if is_anc(2 * q + 2, c) {
                        lemma_anc_le(2 * q + 2, c);
                    }
                }
                assert(self.nodes@[2 * q + 1].value == rsum(w, ps, m));
                assert(self.nodes@[2 * q + 2].value == rsum(w, m + 1, pe));
                let lim = elem_limit(n);
                let half = (isize::MAX as int) / 2;
                assert(lim >= 0 && n * lim <= half) by (nonlinear_arith)
                    requires
                        n >= 1,
                        lim == half / n,
                        half >= 0,
                ;
                assert(forall|i: int| ps <= i <= m ==> -lim <= #[trigger] w[i] <= lim);
                assert(forall|i: int| m + 1 <= i <= pe ==> -lim <= #[trigger] w[i] <= lim);
                lemma_rsum_bound(w, ps, m, lim);
                lemma_rsum_bound(w, m + 1, pe, lim);
                assert((m - ps + 1) * lim + (pe - m) * lim == (pe - ps + 1) * lim)
                    by (nonlinear_arith);
                assert((pe - ps + 1) * lim <= n * lim) by (nonlinear_arith)
                    requires
                        pe - ps + 1 <= n,
                        lim >= 0,
                ;
            }
            let ghost prev_nodes = self.nodes@;
            self.nodes[parent].value = self.nodes[left_child].value
                + self.nodes[right_child].value;
            proof {
                lemma_rsum_split(w, ps, m, pe);
                assert(self.nodes@[q].value == rsum(w, ps, pe));
                // Only an internal slot was written, so no leaf slot — and
                // hence the view — changed.
                assert forall|p: int|
                    #![trigger self.leaf_indices@[p]]
                    0 <= p < n implies self.leaf_indices@[p] as int != q by {
                    assert(tnode(0, 0, n - 1, self.leaf_indices@[p] as int, p, p));
                    assert(node_shape(prev_nodes, self.leaf_indices@, self.leaf_indices@[p] as int, p, p));
                }
                assert forall|p: int| #![trigger self@[p]] 0 <= p < n implies self@[p] == w[p] by {
                    assert(self.leaf_indices@[p] as int != q);
                }
                assert(self@ =~= w);
                assert forall|j: int, s: int, e: int|
                    #[trigger] tnode(0, 0, n - 1, j, s, e) implies node_shape(
                    self.nodes@,
                    self.leaf_indices@,
                    j,
                    s,
                    e,
                ) by {
                    assert(node_shape(prev_nodes, self.leaf_indices@, j, s, e));
                }
                assert(self.shape_inv());
                assert forall|j: int, s: int, e: int|
                    #[trigger] tnode(0, 0, n - 1, j, s, e) && !is_anc(j, q)
                    implies self.nodes@[j].value == rsum(w, s, e) by {
                    if j == q {
                        assert(node_shape(prev_nodes, self.leaf_indices@, j, s, e));
                        assert(s == ps && e == pe);
                    } else {
                        assert(!is_anc(j, c));
                    }
                }
                assert(tnode(0, 0, n - 1, q, ps, pe));
                assert(in_subtree(0, 0, n - 1, q));
            }
            node_idx = parent;
            proof {
                cs = ps;
                ce = pe;
            }
        }
        proof {
            assert forall|j: int, s: int, e: int|
                #[trigger] tnode(0, 0, n - 1, j, s, e) implies self.nodes@[j].value == rsum(
                w,
                s,
                e,
            ) by {
                assert(!is_anc(j, 0));
            }
        }
    }
}

/// Structural invariant of every reachable tree state: each internal node
/// caches exactly the sum of its two children's cached values.  `new` and
/// `update` ensure `inv`, so this holds after construction and after every
/// update.
pub proof fn lemma_internal_node_sum(t: &SegmentTree, j: int, s: int, e: int)
    requires
        t.inv(),
        tnode(0, 0, t.leaf_count() - 1, j, s, e),
        s < e,
    ensures
        t.node_at(j).left == Some((2 * j + 1) as usize),
        t.node_at(j).right == Some((2 * j + 2) as usize),
        t.node_at(j).value == t.node_at(2 * j + 1).value + t.node_at(2 * j + 2).value,
{
    let n = t.leaf_count();
    let m = (s + e) / 2;
    lemma_tnode_children(0, 0, n - 1, j, s, e);
    assert(t.node_at(j).value == rsum(t@, s, e));
    assert(t.node_at(2 * j + 1).value == rsum(t@, s, m));
    assert(t.node_at(2 * j + 2).value == rsum(t@, m + 1, e));
    lemma_rsum_split(t@, s, m, e);
}

/// Query additivity: sums over adjacent ranges add up.  With `query`'s
/// postcondition `query(a, b) == rsum(view, a, b)`, this says that
/// `query(a, b) + query(b + 1, c) == query(a, c)` whenever `a <= b < c`
/// within bounds.
pub proof fn lemma_query_additivity(v: Seq<int>, a: int, b: int, c: int)
    requires
        0 <= a <= b < c < v.len(),
    ensures
        rsum(v, a, b) + rsum(v, b + 1, c) == rsum(v, a, c),
{
    lemma_rsum_split(v, a, b, c);
}

/// A single-position range sums to that element alone.  With `query`'s
/// postcondition, `query(i, i)` returns exactly the element at position
/// `i` of the view.
pub proof fn lemma_single_point_sum(v: Seq<int>, i: int)
    requires
        0 <= i < v.len(),
    ensures
        rsum(v, i, i) == v[i],
{
    assert(rsum(v, i, i - 1) == 0);
}

} // verus!

