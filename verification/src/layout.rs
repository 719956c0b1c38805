//! The implicit complete-binary-tree layout of the node arena.
//!
//! The arena stores a binary tree in heap order: the root sits at index 0 and
//! the children of the node at index `i` sit at indices `2*i + 1` and
//! `2*i + 2`.  Each node covers an inclusive range of leaf positions; an
//! internal node covering `[s, e]` splits it at the midpoint between its two
//! children.  This module defines that shape as a pure relation on integers,
//! together with the next-power-of-two sizing function and the lemmas that
//! the tree operations rely on: range nesting, disjointness of sibling
//! subtrees, and the ancestor chain used by bottom-up updates.

use vstd::prelude::*;

verus! {

/// The smallest power of two that is at least `sz` (and 1 for `sz <= 1`),
/// written through the recurrence that halves the range size: a range of
/// `sz` leaves splits into halves of at most `(sz + 1) / 2` leaves each.
pub open spec fn np2(sz: nat) -> nat
    decreases sz,
{
    if sz <= 1 {
        1
    } else {
        2 * np2(((sz + 1) / 2) as nat)
    }
}

pub proof fn lemma_np2_ge(sz: nat)
    ensures
        np2(sz) >= sz,
        np2(sz) >= 1,
    decreases sz,
{
    if sz > 1 {
        lemma_np2_ge(((sz + 1) / 2) as nat);
    }
}

pub proof fn lemma_np2_mono(a: nat, b: nat)
    requires
        a <= b,
    ensures
        np2(a) <= np2(b),
    decreases b,
{
    if a <= 1 {
        lemma_np2_ge(b);
    } else {
        lemma_np2_mono(((a + 1) / 2) as nat, ((b + 1) / 2) as nat);
    }
}

/// Linear bound on the sizing function: the next power of two at most
/// doubles the range size.
pub proof fn lemma_np2_le_lin(sz: nat)
    requires
        sz >= 2,
    ensures
        np2(sz) <= 2 * (sz - 1),
    decreases sz,
{
    let c = ((sz + 1) / 2) as nat;
    assert(np2(sz) == 2 * np2(c));
    if c >= 2 {
        lemma_np2_le_lin(c);
    } else {
        assert(np2(c) == 1);
    }
}

/// The node at arena index `j` covers leaf range `[s, e]` somewhere in the
/// subtree whose root is arena index `ri` covering leaf range `[rs, re]`.
pub open spec fn tnode(ri: int, rs: int, re: int, j: int, s: int, e: int) -> bool
    decreases re - rs,
{
    ||| (j == ri && s == rs && e == re)
    ||| (rs < re && {
        let m = (rs + re) / 2;
        tnode(2 * ri + 1, rs, m, j, s, e) || tnode(2 * ri + 2, m + 1, re, j, s, e)
    })
}

/// Arena index `j` occurs in the subtree rooted at index `ri` covering `[rs, re]`.
pub open spec fn in_subtree(ri: int, rs: int, re: int, j: int) -> bool {
    exists|s: int, e: int| tnode(ri, rs, re, j, s, e)
}

/// Index `a` lies on the strict ancestor chain of index `c` under the
/// heap-order parent map `c -> (c - 1) / 2`.
pub open spec fn is_anc(a: int, c: int) -> bool
    decreases c,
{
    c > 0 && ((c - 1) / 2 == a || is_anc(a, (c - 1) / 2))
}

/// Every node of a subtree covers a range nested in the root's range, and
/// its index is the root's or lies beyond the root's first child.
pub proof fn lemma_tnode_bounds(ri: int, rs: int, re: int, j: int, s: int, e: int)
    requires
        ri >= 0,
        rs <= re,
        tnode(ri, rs, re, j, s, e),
    ensures
        rs <= s <= e <= re,
        j == ri || j >= 2 * ri + 1,
    decreases re - rs,
{
    if !(j == ri && s == rs && e == re) {
        let m = (rs + re) / 2;
        if tnode(2 * ri + 1, rs, m, j, s, e) {
            lemma_tnode_bounds(2 * ri + 1, rs, m, j, s, e);
        } else {
            lemma_tnode_bounds(2 * ri + 2, m + 1, re, j, s, e);
        }
    }
}

/// The root index occurs in its subtree with the root range only.
pub proof fn lemma_tnode_self(ri: int, rs: int, re: int, s: int, e: int)
    requires
        ri >= 0,
        tnode(ri, rs, re, ri, s, e),
    ensures
        s == rs && e == re,
{
    if !(s == rs && e == re) {
        let m = (rs + re) / 2;
        if tnode(2 * ri + 1, rs, m, ri, s, e) {
            lemma_tnode_bounds(2 * ri + 1, rs, m, ri, s, e);
        } else {
            lemma_tnode_bounds(2 * ri + 2, m + 1, re, ri, s, e);
        }
    }
}

/// An internal node's two children are nodes of the same tree, covering the
/// two halves of its range.
pub proof fn lemma_tnode_children(ri: int, rs: int, re: int, j: int, s: int, e: int)
    requires
        tnode(ri, rs, re, j, s, e),
        s < e,
    ensures
        tnode(ri, rs, re, 2 * j + 1, s, (s + e) / 2),
        tnode(ri, rs, re, 2 * j + 2, (s + e) / 2 + 1, e),
    decreases re - rs,
{
    let m = (rs + re) / 2;
    if j == ri && s == rs && e == re {
        assert(tnode(2 * ri + 1, rs, m, 2 * ri + 1, rs, m));
        assert(tnode(2 * ri + 2, m + 1, re, 2 * ri + 2, m + 1, re));
    } else {
        if tnode(2 * ri + 1, rs, m, j, s, e) {
            lemma_tnode_children(2 * ri + 1, rs, m, j, s, e);
        } else {
            lemma_tnode_children(2 * ri + 2, m + 1, re, j, s, e);
        }
    }
}

/// A child subtree's nodes are nodes of the parent's subtree.
pub proof fn lemma_tnode_widen(ri: int, rs: int, re: int, j: int, s: int, e: int)
    requires
        rs < re,
        tnode(2 * ri + 1, rs, (rs + re) / 2, j, s, e) || tnode(
            2 * ri + 2,
            (rs + re) / 2 + 1,
            re,
            j,
            s,
            e,
        ),
    ensures
        tnode(ri, rs, re, j, s, e),
{
}

/// No index below the subtree's root occurs in the subtree.
pub proof fn lemma_not_in_subtree_below(ri: int, rs: int, re: int, j: int)
    requires
        ri >= 0,
        rs <= re,
        j < ri,
    ensures
        !in_subtree(ri, rs, re, j),
{
    assert forall|s: int, e: int| !#[trigger] tnode(ri, rs, re, j, s, e) by {
        if tnode(ri, rs, re, j, s, e) {
            lemma_tnode_bounds(ri, rs, re, j, s, e);
        }
    }
}

/// Two subtrees rooted at `a` and `b` with `a < b <= 2 * a` share no index.
/// Sibling subtrees are the case `b == a + 1` with `a` odd.
pub proof fn lemma_subtrees_disjoint(
    a: int,
    ars: int,
    are: int,
    sa: int,
    ea: int,
    b: int,
    brs: int,
    bre: int,
    sb: int,
    eb: int,
    j: int,
)
    requires
        1 <= a < b <= 2 * a,
        ars <= are,
        brs <= bre,
        tnode(a, ars, are, j, sa, ea),
    ensures
        !tnode(b, brs, bre, j, sb, eb),
    decreases (are - ars) + (bre - brs),
{
    if tnode(b, brs, bre, j, sb, eb) {
        lemma_tnode_bounds(a, ars, are, j, sa, ea);
        lemma_tnode_bounds(b, brs, bre, j, sb, eb);
        if j != a && j != b {
            let ma = (ars + are) / 2;
            let mb = (brs + bre) / 2;
            if tnode(2 * a + 1, ars, ma, j, sa, ea) {
                if tnode(2 * b + 1, brs, mb, j, sb, eb) {
                    lemma_subtrees_disjoint(
                        2 * a + 1, ars, ma, sa, ea, 2 * b + 1, brs, mb, sb, eb, j);
                } else {
                    lemma_subtrees_disjoint(
                        2 * a + 1, ars, ma, sa, ea, 2 * b + 2, mb + 1, bre, sb, eb, j);
                }
            } else {
                if tnode(2 * b + 1, brs, mb, j, sb, eb) {
                    lemma_subtrees_disjoint(
                        2 * a + 2, ma + 1, are, sa, ea, 2 * b + 1, brs, mb, sb, eb, j);
                } else {
                    lemma_subtrees_disjoint(
                        2 * a + 2, ma + 1, are, sa, ea, 2 * b + 2, mb + 1, bre, sb, eb, j);
                }
            }
        }
    }
}

/// An index in the left sibling's subtree is not in the right sibling's.
pub proof fn lemma_siblings_disjoint(k: int, ars: int, are: int, brs: int, bre: int, j: int)
    requires
        k >= 0,
        ars <= are,
        brs <= bre,
        in_subtree(2 * k + 1, ars, are, j),
    ensures
        !in_subtree(2 * k + 2, brs, bre, j),
{
    let (sa, ea) = choose|sa: int, ea: int| #[trigger] tnode(2 * k + 1, ars, are, j, sa, ea);
    assert forall|sb: int, eb: int| !#[trigger] tnode(2 * k + 2, brs, bre, j, sb, eb) by {
        lemma_subtrees_disjoint(2 * k + 1, ars, are, sa, ea, 2 * k + 2, brs, bre, sb, eb, j);
    }
}

/// Every leaf position of the root range is covered by some leaf node.
pub proof fn lemma_leaf_exists(ri: int, rs: int, re: int, p: int) -> (j: int)
    requires
        rs <= p <= re,
    ensures
        tnode(ri, rs, re, j, p, p),
    decreases re - rs,
{
    if rs == re {
        ri
    } else {
        let m = (rs + re) / 2;
        if p <= m {
            lemma_leaf_exists(2 * ri + 1, rs, m, p)
        } else {
            lemma_leaf_exists(2 * ri + 2, m + 1, re, p)
        }
    }
}

/// A strict ancestor sits at or below the parent index, hence strictly below.
pub proof fn lemma_anc_le(a: int, c: int)
    requires
        is_anc(a, c),
    ensures
        0 <= a <= (c - 1) / 2 < c,
    decreases c,
{
    if (c - 1) / 2 != a {
        lemma_anc_le(a, (c - 1) / 2);
    }
}

/// The ancestor chain extends through a parent step at its upper end.
pub proof fn lemma_anc_chain(a: int, b: int, c: int)
    requires
        b > 0,
        (b - 1) / 2 == a,
        is_anc(b, c),
    ensures
        is_anc(a, c),
    decreases c,
{
    if (c - 1) / 2 == b {
        assert(is_anc(a, b));
    } else {
        lemma_anc_chain(a, b, (c - 1) / 2);
    }
}

/// The root of a subtree is a strict ancestor of every other index in it.
pub proof fn lemma_root_anc(ri: int, rs: int, re: int, j: int, s: int, e: int)
    requires
        ri >= 0,
        tnode(ri, rs, re, j, s, e),
        j != ri,
    ensures
        is_anc(ri, j),
    decreases re - rs,
{
    let m = (rs + re) / 2;
    if tnode(2 * ri + 1, rs, m, j, s, e) {
        if j == 2 * ri + 1 {
            assert((j - 1) / 2 == ri);
        } else {
            lemma_root_anc(2 * ri + 1, rs, m, j, s, e);
            lemma_anc_chain(ri, 2 * ri + 1, j);
        }
    } else {
        if j == 2 * ri + 2 {
            assert((j - 1) / 2 == ri);
        } else {
            lemma_root_anc(2 * ri + 2, m + 1, re, j, s, e);
            lemma_anc_chain(ri, 2 * ri + 2, j);
        }
    }
}

/// Any node whose range covers a leaf position lies on that leaf's ancestor
/// chain: the nodes covering a position are exactly the path to its leaf.
pub proof fn lemma_on_path(ri: int, rs: int, re: int, j: int, s: int, e: int, l: int, p: int)
    requires
        ri >= 0,
        rs <= re,
        tnode(ri, rs, re, j, s, e),
        tnode(ri, rs, re, l, p, p),
        s <= p <= e,
        j != l,
    ensures
        is_anc(j, l),
    decreases re - rs,
{
    if j == ri {
        lemma_root_anc(ri, rs, re, l, p, p);
    } else if l == ri {
        lemma_tnode_self(ri, rs, re, p, p);
        lemma_tnode_bounds(ri, rs, re, j, s, e);
    } else {
        let m = (rs + re) / 2;
        lemma_tnode_bounds(ri, rs, re, j, s, e);
        if tnode(2 * ri + 1, rs, m, j, s, e) {
            if tnode(2 * ri + 1, rs, m, l, p, p) {
                lemma_on_path(2 * ri + 1, rs, m, j, s, e, l, p);
            } else {
                lemma_tnode_bounds(2 * ri + 1, rs, m, j, s, e);
                lemma_tnode_bounds(2 * ri + 2, m + 1, re, l, p, p);
            }
        } else {
            if tnode(2 * ri + 2, m + 1, re, l, p, p) {
                lemma_on_path(2 * ri + 2, m + 1, re, j, s, e, l, p);
            } else {
                lemma_tnode_bounds(2 * ri + 2, m + 1, re, j, s, e);
                lemma_tnode_bounds(2 * ri + 1, rs, m, l, p, p);
            }
        }
    }
}

/// A non-root node's parent index `(c - 1) / 2` is a node of the same tree;
/// its range is split at its midpoint between the node and its sibling.
pub proof fn lemma_tnode_parent(ri: int, rs: int, re: int, c: int, cs: int, ce: int) -> (r: (
    int,
    int,
))
    requires
        ri >= 0,
        rs <= re,
        tnode(ri, rs, re, c, cs, ce),
        c != ri,
    ensures
        ({
            let (ps, pe) = r;
            let q = (c - 1) / 2;
            let m = (ps + pe) / 2;
            &&& tnode(ri, rs, re, q, ps, pe)
            &&& ps < pe
            &&& ps <= cs <= ce <= pe
            &&& (c == 2 * q + 1 ==> cs == ps && ce == m)
            &&& (c == 2 * q + 2 ==> cs == m + 1 && ce == pe)
        }),
    decreases re - rs,
{
    let m = (rs + re) / 2;
    if tnode(2 * ri + 1, rs, m, c, cs, ce) {
        if c == 2 * ri + 1 {
            lemma_tnode_self(2 * ri + 1, rs, m, cs, ce);
            (rs, re)
        } else {
            let r = lemma_tnode_parent(2 * ri + 1, rs, m, c, cs, ce);
            lemma_tnode_widen(ri, rs, re, (c - 1) / 2, r.0, r.1);
            r
        }
    } else {
        if c == 2 * ri + 2 {
            lemma_tnode_self(2 * ri + 2, m + 1, re, cs, ce);
            (rs, re)
        } else {
            let r = lemma_tnode_parent(2 * ri + 2, m + 1, re, c, cs, ce);
            lemma_tnode_widen(ri, rs, re, (c - 1) / 2, r.0, r.1);
            r
        }
    }
}

} // verus!
