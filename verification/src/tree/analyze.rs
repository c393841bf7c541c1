//! The shape of a tree: how many levels for how many elements, and how
//! many nodes for how many levels.

use vstd::prelude::*;

verus! {

/// The number of elements that a node is meant to hold at most.
pub const DEFAULT_NUMBER_ELEM_PER_NODE: usize = 32;

/// The greatest number of levels that the heuristic gives.
pub const MAX_HEIGHT: usize = 20;

/// The greatest number of levels that a tree can have.
pub const HEIGHT_LIMIT: usize = 31;

/// One more than the number of times that `per_node` must be doubled to
/// reach `num_bots`, at most `limit`: the levels of a tree whose leaves are
/// to hold about `per_node` elements each.
pub open spec fn height_heuristic(num_bots: nat, per_node: nat, limit: nat) -> nat
    decreases limit,
{
    if limit <= 1 || num_bots <= per_node {
        1
    } else {
        1 + height_heuristic(num_bots, 2 * per_node, (limit - 1) as nat)
    }
}

/// The heuristic gives the least height whose leaves, at `per_node`
/// elements each, hold all elements, unless the limit is less: with
/// `height` levels there are two to the power of `height - 1` leaves; one
/// level less would not hold all, and the height itself holds all unless it
/// was cut off at the limit.
pub proof fn lemma_height_heuristic(num_bots: nat, per_node: nat, limit: nat)
    ensures
        ({
            let height = height_heuristic(num_bots, per_node, limit);
            &&& 1 <= height
            &&& limit >= 1 ==> height <= limit
            &&& height > 1 ==> per_node * vstd::arithmetic::power2::pow2((height - 2) as nat)
                < num_bots
            &&& limit >= 1 && height < limit ==> per_node * vstd::arithmetic::power2::pow2(
                (height - 1) as nat,
            ) >= num_bots
        }),
    decreases limit,
{
    vstd::arithmetic::power2::lemma2_to64();
    if limit <= 1 || num_bots <= per_node {
    } else {
        lemma_height_heuristic(num_bots, 2 * per_node, (limit - 1) as nat);
        let rest = height_heuristic(num_bots, 2 * per_node, (limit - 1) as nat);
        let height = 1 + rest;
        if rest > 1 {
            vstd::arithmetic::power2::lemma_pow2_unfold((height - 2) as nat);
            assert(per_node * vstd::arithmetic::power2::pow2((height - 2) as nat) == (2 * per_node)
                * vstd::arithmetic::power2::pow2((rest - 2) as nat)) by (nonlinear_arith)
                requires
                    vstd::arithmetic::power2::pow2((height - 2) as nat) == 2
                        * vstd::arithmetic::power2::pow2((rest - 2) as nat),
            ;
        } else {
            assert(per_node * vstd::arithmetic::power2::pow2(0) == per_node) by (nonlinear_arith)
                requires
                    vstd::arithmetic::power2::pow2(0) == 1,
            ;
        }
        if height < limit {
            vstd::arithmetic::power2::lemma_pow2_unfold((height - 1) as nat);
            assert(per_node * vstd::arithmetic::power2::pow2((height - 1) as nat) == (2 * per_node)
                * vstd::arithmetic::power2::pow2((rest - 1) as nat)) by (nonlinear_arith)
                requires
                    vstd::arithmetic::power2::pow2((height - 1) as nat) == 2
                        * vstd::arithmetic::power2::pow2((rest - 1) as nat),
            ;
        }
    }
    if height_heuristic(num_bots, per_node, limit) == 1 && 1 < limit {
        assert(per_node * vstd::arithmetic::power2::pow2(0) == per_node) by (nonlinear_arith)
            requires
                vstd::arithmetic::power2::pow2(0) == 1,
        ;
    }
}

/// One more than the number of doublings that take `per_node` to
/// `num_bots`, at most `limit`.
pub fn levels_for(num_bots: usize, per_node: usize, limit: usize) -> (height: usize)
    requires
        1 <= limit,
    ensures
        height == height_heuristic(num_bots as nat, per_node as nat, limit as nat),
        1 <= height <= limit,
{
    let mut height: usize = 1;
    let mut reach: usize = per_node;
    while height < limit && reach < num_bots
        invariant
            1 <= height <= limit,
            height_heuristic(num_bots as nat, per_node as nat, limit as nat) == (height - 1)
                + height_heuristic(num_bots as nat, reach as nat, (limit - (height - 1)) as nat),
        decreases limit - height,
    {
        if reach > usize::MAX / 2 {
            // Twice the reach is more than any number of elements.
            proof {
                assert(height_heuristic(
                    num_bots as nat,
                    (2 * reach) as nat,
                    (limit - height) as nat,
                ) == 1);
            }
            return height + 1;
        }
        reach = reach * 2;
        height += 1;
    }
    height
}

/// The height that a tree over `num_bots` elements gets when a node is to
/// hold about `num_per_node` of them.
pub fn compute_tree_height_heuristic(num_bots: usize, num_per_node: usize) -> (height: usize)
    ensures
        height == height_heuristic(num_bots as nat, num_per_node as nat, MAX_HEIGHT as nat),
        1 <= height <= MAX_HEIGHT,
{
    levels_for(num_bots, num_per_node, MAX_HEIGHT)
}

/// The number of nodes of a complete tree with `height` levels.
pub fn num_nodes_of(height: usize) -> (len: usize)
    requires
        height <= HEIGHT_LIMIT,
    ensures
        len == crate::model::subtree_len(height as nat),
        len < 0x8000_0000,
{
    let mut len: usize = 0;
    let mut k: usize = 0;
    proof {
        vstd::arithmetic::power2::lemma2_to64();
    }
    while k < height
        invariant
            k <= height <= HEIGHT_LIMIT,
            len == crate::model::subtree_len(k as nat),
            len + 1 == vstd::arithmetic::power2::pow2(k as nat),
            len < 0x8000_0000,
        decreases height - k,
    {
        proof {
            vstd::arithmetic::power2::lemma_pow2_unfold((k + 1) as nat);
            vstd::arithmetic::power2::lemma2_to64();
            if k + 1 < 31 {
                vstd::arithmetic::power2::lemma_pow2_strictly_increases((k + 1) as nat, 31);
            }
        }
        len = 2 * len + 1;
        k += 1;
    }
    len
}

/// The number of nodes at and below a node at `depth` in a tree of
/// `height` levels.
pub fn nodes_left(depth: usize, height: usize) -> (len: usize)
    requires
        depth <= height <= HEIGHT_LIMIT,
    ensures
        len == crate::model::subtree_len((height - depth) as nat),
{
    num_nodes_of(height - depth)
}

} // verus!
