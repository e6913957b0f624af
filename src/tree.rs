//! The mathematics of a buddy tree: node layout in the arena, ancestry, and the
//! value each node must hold given the set of live allocations.
use vstd::prelude::*;
use crate::block::combine;

verus! {

/// Number of pages in a block of order `k`.
pub open spec fn pow2(k: int) -> int
    decreases k,
{
    if k <= 0 {
        1
    } else {
        2 * pow2(k - 1)
    }
}

/// Number of nodes on level `k` of a tree whose top level has `top` nodes.
pub open spec fn level_len(top: int, k: int) -> int
    decreases 11 - k,
{
    if k >= 11 {
        top
    } else {
        2 * level_len(top, k + 1)
    }
}

/// Where level `k` starts in the arena: the top level comes first, each
/// level below follows the one above it.
pub open spec fn level_off(top: int, k: int) -> int
    decreases 11 - k,
{
    if k >= 11 {
        0
    } else {
        level_off(top, k + 1) + level_len(top, k + 1)
    }
}

/// Arena position of node `i` on level `k`.
pub open spec fn node_pos(top: int, k: int, i: int) -> int {
    level_off(top, k) + i
}

/// Number of nodes in a whole tree.
pub open spec fn arena_len(top: int) -> int {
    level_off(top, 0) + level_len(top, 0)
}

/// A node is on the tree.
pub open spec fn valid_node(top: int, k: int, i: int) -> bool {
    0 <= k <= 11 && 0 <= i < level_len(top, k)
}

/// Index on level `k` of the ancestor of node `y` on level `o` (for `k >= o`).
pub open spec fn anc(o: int, y: int, k: int) -> int
    decreases k - o,
{
    if k <= o {
        y
    } else {
        anc(o, y, k - 1) / 2
    }
}

/// Node `x` (a level and an index) lies in the subtree rooted at node `i` of level `k`.
pub open spec fn in_subtree(x: (int, int), k: int, i: int) -> bool {
    0 <= x.0 <= k && anc(x.0, x.1, k) == i
}

/// The byte that node `i` of level `k` holds when `allocs` are the allocated
/// blocks and the zone has `n` pages: an allocated node is `Used`; a leaf is
/// free exactly when its page exists; an inner node combines its children.
pub open spec fn model(allocs: Set<(int, int)>, n: int, k: int, i: int) -> int
    decreases k,
{
    if allocs.contains((k, i)) {
        0
    } else if k <= 0 {
        if i < n {
            1
        } else {
            0
        }
    } else {
        combine(model(allocs, n, k - 1, 2 * i), model(allocs, n, k - 1, 2 * i + 1), k - 1)
    }
}

/// The node of level `order` that a search for a free block of `order`
/// reaches from node `i` of level `k`: down the tree, to the left child when
/// it holds a large enough free block, else to the right one.
pub open spec fn descend(allocs: Set<(int, int)>, n: int, k: int, i: int, order: int) -> int
    decreases k - order,
{
    if k <= order {
        i
    } else if model(allocs, n, k - 1, 2 * i) > order {
        descend(allocs, n, k - 1, 2 * i, order)
    } else {
        descend(allocs, n, k - 1, 2 * i + 1, order)
    }
}

/// The allocated blocks lie within the zone's `n` pages, and none lies inside another.
pub open spec fn allocs_valid(allocs: Set<(int, int)>, n: int) -> bool {
    &&& forall|x: (int, int)|
        #[trigger] allocs.contains(x) ==> 0 <= x.0 <= 11 && 0 <= x.1 && (x.1 + 1) * pow2(x.0)
            <= n
    &&& forall|x: (int, int), y: (int, int)|
        #[trigger] allocs.contains(x) && #[trigger] allocs.contains(y) && x != y && x.0 <= y.0
            ==> anc(x.0, x.1, y.0) != y.1
}

pub proof fn lemma_pow2_positive(k: int)
    ensures
        pow2(k) >= 1,
    decreases k,
{
    if k > 0 {
        lemma_pow2_positive(k - 1);
    }
}

pub proof fn lemma_pow2_strictly_increasing(a: int, b: int)
    requires
        0 <= a < b,
    ensures
        pow2(a) < pow2(b),
    decreases b,
{
    lemma_pow2_positive(b - 1);
    if a < b - 1 {
        lemma_pow2_strictly_increasing(a, b - 1);
    }
}

/// Levels are laid out one after another, each one before the level below it.
pub proof fn lemma_layout(top: int, k: int, j: int)
    requires
        top >= 0,
        0 <= k < j <= 11,
    ensures
        level_off(top, j) + level_len(top, j) <= level_off(top, k),
        level_off(top, j) >= 0,
        level_len(top, j) >= 0,
    decreases j - k,
{
    lemma_level_nonneg(top, j);
    lemma_level_nonneg(top, k + 1);
    if j > k + 1 {
        lemma_layout(top, k + 1, j);
    }
}

pub proof fn lemma_level_nonneg(top: int, k: int)
    requires
        top >= 0,
    ensures
        level_off(top, k) >= 0,
        level_len(top, k) >= 0,
    decreases 11 - k,
{
    if k < 11 {
        lemma_level_nonneg(top, k + 1);
    }
}

/// Every node of the tree has its own position inside the arena.
pub proof fn lemma_node_in_arena(top: int, k: int, i: int)
    requires
        top >= 0,
        valid_node(top, k, i),
    ensures
        0 <= node_pos(top, k, i) < arena_len(top),
{
    lemma_level_nonneg(top, k);
    lemma_level_nonneg(top, 0);
    if k > 0 {
        lemma_layout(top, 0, k);
    }
}

/// Two distinct nodes never share an arena position.
pub proof fn lemma_pos_distinct(top: int, k0: int, i0: int)
    requires
        top >= 0,
        valid_node(top, k0, i0),
    ensures
        forall|k: int, i: int|
            valid_node(top, k, i) && (k != k0 || i != i0) ==> #[trigger] node_pos(top, k, i)
                != node_pos(top, k0, i0),
{
    assert forall|k: int, i: int|
        valid_node(top, k, i) && (k != k0 || i != i0) implies #[trigger] node_pos(top, k, i)
        != node_pos(top, k0, i0) by {
        if k < k0 {
            lemma_layout(top, k, k0);
        } else if k > k0 {
            lemma_layout(top, k0, k);
        }
    }
}

/// The closed forms of the layout: the leaves count `2048 * top`, the whole
/// tree `4095 * top`.
pub proof fn lemma_layout_closed_form(top: int)
    ensures
        level_len(top, 0) == 2048 * top,
        arena_len(top) == 4095 * top,
{
    reveal_with_fuel(level_len, 12);
    reveal_with_fuel(level_off, 12);
}

/// A level's nodes, each `2^k` pages wide, span the same pages as the leaves.
pub proof fn lemma_level_len_pages(top: int, k: int)
    requires
        0 <= k <= 11,
    ensures
        level_len(top, k) * pow2(k) == level_len(top, 0),
    decreases k,
{
    if k > 0 {
        lemma_level_len_pages(top, k - 1);
        let a = level_len(top, k);
        let p = pow2(k - 1);
        assert(a * (2 * p) == (2 * a) * p) by (nonlinear_arith);
    }
}

pub proof fn lemma_anc_step(o: int, y: int, k: int)
    requires
        o < k,
    ensures
        anc(o, y, k) == anc(o + 1, y / 2, k),
    decreases k - o,
{
    if k > o + 1 {
        lemma_anc_step(o, y, k - 1);
    } else {
        assert(anc(o, y, o) == y);
        assert(anc(o + 1, y / 2, k) == y / 2);
    }
}

pub proof fn lemma_model_bound(allocs: Set<(int, int)>, n: int, k: int, i: int)
    requires
        k >= 0,
    ensures
        0 <= model(allocs, n, k, i) <= k + 1,
    decreases k,
{
    if k > 0 {
        lemma_model_bound(allocs, n, k - 1, 2 * i);
        lemma_model_bound(allocs, n, k - 1, 2 * i + 1);
    }
}

/// A node reads as wholly free exactly when no allocated block lies beneath it
/// and all of its pages exist.
pub proof fn lemma_full(allocs: Set<(int, int)>, n: int, k: int, i: int)
    requires
        k >= 0,
        i >= 0,
        model(allocs, n, k, i) == k + 1,
    ensures
        forall|x: (int, int)| #[trigger] allocs.contains(x) ==> !in_subtree(x, k, i),
        (i + 1) * pow2(k) <= n,
    decreases k,
{
    if k > 0 {
        lemma_model_bound(allocs, n, k - 1, 2 * i);
        lemma_model_bound(allocs, n, k - 1, 2 * i + 1);
        lemma_full(allocs, n, k - 1, 2 * i);
        lemma_full(allocs, n, k - 1, 2 * i + 1);
        assert forall|x: (int, int)| #[trigger] allocs.contains(x) implies !in_subtree(x, k, i) by {
            if x.0 < k && 0 <= x.0 {
                assert(anc(x.0, x.1, k) == anc(x.0, x.1, k - 1) / 2);
                assert(!in_subtree(x, k - 1, 2 * i));
                assert(!in_subtree(x, k - 1, 2 * i + 1));
            }
        }
        let p = pow2(k - 1);
        assert((i + 1) * pow2(k) == (2 * i + 2) * p) by (nonlinear_arith)
            requires
                pow2(k) == 2 * p,
        ;
    }
}

/// The converse of `lemma_full`.
pub proof fn lemma_empty_is_full(allocs: Set<(int, int)>, n: int, k: int, i: int)
    requires
        k >= 0,
        i >= 0,
        forall|x: (int, int)| #[trigger] allocs.contains(x) ==> !in_subtree(x, k, i),
        (i + 1) * pow2(k) <= n,
    ensures
        model(allocs, n, k, i) == k + 1,
    decreases k,
{
    assert(!allocs.contains((k, i))) by {
        if allocs.contains((k, i)) {
            assert(in_subtree((k, i), k, i));
        }
    }
    if k > 0 {
        let p = pow2(k - 1);
        lemma_pow2_positive(k - 1);
        assert((i + 1) * pow2(k) == (2 * i + 2) * p && (2 * i + 1) * p <= (2 * i + 2) * p)
            by (nonlinear_arith)
            requires
                pow2(k) == 2 * p,
                p >= 1,
        ;
        assert forall|x: (int, int)| #[trigger] allocs.contains(x) implies !in_subtree(
            x,
            k - 1,
            2 * i,
        ) && !in_subtree(x, k - 1, 2 * i + 1) by {
            if 0 <= x.0 <= k - 1 {
                assert(anc(x.0, x.1, k) == anc(x.0, x.1, k - 1) / 2);
            }
        }
        lemma_empty_is_full(allocs, n, k - 1, 2 * i);
        lemma_empty_is_full(allocs, n, k - 1, 2 * i + 1);
    }
}

/// Adding or removing an allocation outside a node's subtree leaves the node's value alone.
pub proof fn lemma_frame(allocs: Set<(int, int)>, x: (int, int), n: int, k: int, i: int)
    requires
        k >= 0,
        !in_subtree(x, k, i),
    ensures
        model(allocs.insert(x), n, k, i) == model(allocs, n, k, i),
        model(allocs.remove(x), n, k, i) == model(allocs, n, k, i),
    decreases k,
{
    assert(x != (k, i)) by {
        if x == (k, i) {
            assert(anc(k, i, k) == i);
        }
    }
    if k > 0 {
        assert(!in_subtree(x, k - 1, 2 * i) && !in_subtree(x, k - 1, 2 * i + 1)) by {
            if 0 <= x.0 <= k - 1 {
                assert(anc(x.0, x.1, k) == anc(x.0, x.1, k - 1) / 2);
            }
        }
        lemma_frame(allocs, x, n, k - 1, 2 * i);
        lemma_frame(allocs, x, n, k - 1, 2 * i + 1);
    }
}

/// The pages of a node's ancestor contain the node's own pages.
pub proof fn lemma_anc_range(o: int, y: int, k: int)
    requires
        0 <= o <= k,
        y >= 0,
    ensures
        anc(o, y, k) >= 0,
        anc(o, y, k) * pow2(k) <= y * pow2(o),
        (y + 1) * pow2(o) <= (anc(o, y, k) + 1) * pow2(k),
    decreases k - o,
{
    if k > o {
        lemma_anc_range(o, y, k - 1);
        let a1 = anc(o, y, k - 1);
        let a = a1 / 2;
        let p = pow2(k - 1);
        lemma_pow2_positive(k - 1);
        assert(a * pow2(k) <= a1 * p && (a1 + 1) * p <= (a + 1) * pow2(k)) by (nonlinear_arith)
            requires
                pow2(k) == 2 * p,
                p >= 1,
                2 * a <= a1 <= 2 * a + 1,
        ;
    }
}

/// Blocks of which neither lies inside the other share no page.
pub proof fn lemma_unnested_disjoint(x: (int, int), z: (int, int))
    requires
        0 <= x.0 <= z.0,
        x.1 >= 0,
        z.1 >= 0,
        anc(x.0, x.1, z.0) != z.1,
    ensures
        (x.1 + 1) * pow2(x.0) <= z.1 * pow2(z.0) || (z.1 + 1) * pow2(z.0) <= x.1 * pow2(x.0),
{
    lemma_anc_range(x.0, x.1, z.0);
    let a = anc(x.0, x.1, z.0);
    let p = pow2(z.0);
    lemma_pow2_positive(z.0);
    if a < z.1 {
        assert((a + 1) * p <= z.1 * p) by (nonlinear_arith)
            requires
                a + 1 <= z.1,
                p >= 1,
        ;
    } else {
        assert((z.1 + 1) * p <= a * p) by (nonlinear_arith)
            requires
                z.1 + 1 <= a,
                p >= 1,
        ;
    }
}

} // verus!
