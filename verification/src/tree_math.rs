//! Index arithmetic on the complete binary tree that lies over the roster.
//!
//! The tree is kept level by level: level 0 holds the leaves, one for each
//! roster index, and the last level holds the root alone. The node at offset
//! `i` of a level has its children at offsets `2 * i` and `2 * i + 1` of the
//! level below, and its parent at offset `i / 2` of the level above.

use vstd::prelude::*;

verus! {

/// The deepest tree the library keeps. This is a limit of the library, not
/// of the protocol: a member holds every node of the tree, so that the tree
/// of a group takes memory in proportion to its roster.
pub const MAX_DEPTH: usize = 16;

/// The largest roster that the library keeps: the number of leaves of the
/// deepest tree. A handshake that would add a member beyond it is refused.
pub const MAX_ROSTER: u32 = 65536;

/// Two to the power `e`.
pub open spec fn pow2(e: nat) -> nat
    decreases e,
{
    if e == 0 {
        1
    } else {
        2 * pow2((e - 1) as nat)
    }
}

/// The depth of the smallest complete tree with at least `n` leaves: the
/// least `d` with `n <= pow2(d)`.
pub open spec fn tree_depth(n: nat) -> nat
    decreases n,
{
    if n <= 1 {
        0
    } else {
        1 + tree_depth((n + 1) / 2)
    }
}

/// The offset, `level` levels up, of the ancestor of the node at `offset`.
pub open spec fn ancestor(offset: nat, level: nat) -> nat
    decreases level,
{
    if level == 0 {
        offset
    } else {
        ancestor(offset, (level - 1) as nat) / 2
    }
}

/// The number of levels between two leaves and their lowest common ancestor.
pub open spec fn common_level(i: nat, j: nat) -> nat
    decreases i + j,
{
    if i == j {
        0
    } else {
        1 + common_level(i / 2, j / 2)
    }
}

/// Powers of two are positive and grow with the exponent.
pub proof fn lemma_pow2_monotonic(a: nat, b: nat)
    requires
        a <= b,
    ensures
        1 <= pow2(a) <= pow2(b),
    decreases b,
{
    if b == 0 {
    } else if a == b {
        lemma_pow2_monotonic((a - 1) as nat, (b - 1) as nat);
    } else {
        lemma_pow2_monotonic(a, (b - 1) as nat);
    }
}

/// `pow2(16)` is the largest roster.
pub proof fn lemma_pow2_max()
    ensures
        pow2(MAX_DEPTH as nat) == MAX_ROSTER,
{
    reveal_with_fuel(pow2, 17);
}

/// The depth of a tree is the one exponent whose power of two is at least
/// the number of leaves while the power before it is not.
pub proof fn lemma_tree_depth_is(n: nat, d: nat)
    requires
        n <= pow2(d),
        d == 0 || pow2((d - 1) as nat) < n,
    ensures
        tree_depth(n) == d,
    decreases d,
{
    if n <= 1 {
        if d > 0 {
            lemma_pow2_monotonic(0, (d - 1) as nat);
        }
    } else {
        assert(d > 0);
        let half = (n + 1) / 2;
        if d - 1 > 0 {
            assert(pow2((d - 1) as nat) == 2 * pow2((d - 2) as nat));
        }
        lemma_tree_depth_is(half, (d - 1) as nat);
    }
}

/// A tree of the depth that `n` leaves ask for has room for them, and a
/// tree one level lower has not.
pub proof fn lemma_tree_depth_bounds(n: nat)
    ensures
        n <= pow2(tree_depth(n)),
        tree_depth(n) == 0 || pow2((tree_depth(n) - 1) as nat) < n,
    decreases n,
{
    if n <= 1 {
    } else {
        lemma_tree_depth_bounds((n + 1) / 2);
        let d = tree_depth((n + 1) / 2);
        if d > 0 {
            assert(pow2(d) == 2 * pow2((d - 1) as nat));
        }
    }
}

/// More leaves never ask for a lower tree.
pub proof fn lemma_tree_depth_monotonic(m: nat, n: nat)
    requires
        m <= n,
    ensures
        tree_depth(m) <= tree_depth(n),
    decreases n,
{
    if m <= 1 {
    } else {
        lemma_tree_depth_monotonic((m + 1) / 2, (n + 1) / 2);
    }
}

/// An ancestor of a node of a tree of depth `depth` lies within its level.
pub proof fn lemma_ancestor_in_level(offset: nat, depth: nat, level: nat)
    requires
        offset < pow2(depth),
        level <= depth,
    ensures
        ancestor(offset, level) < pow2((depth - level) as nat),
    decreases level,
{
    if level > 0 {
        lemma_ancestor_in_level(offset, depth, (level - 1) as nat);
        assert(pow2((depth - level + 1) as nat) == 2 * pow2((depth - level) as nat));
    }
}

/// One level up from the start is `level` levels up from the parent.
pub proof fn lemma_ancestor_of_parent(offset: nat, level: nat)
    ensures
        ancestor(offset / 2, level) == ancestor(offset, level + 1),
    decreases level,
{
    reveal_with_fuel(ancestor, 2);
    if level > 0 {
        lemma_ancestor_of_parent(offset, (level - 1) as nat);
    }
}

/// Two leaves of one tree meet within the tree, at the same node, and no
/// lower.
pub proof fn lemma_common_level(i: nat, j: nat, depth: nat)
    requires
        i < pow2(depth),
        j < pow2(depth),
    ensures
        common_level(i, j) <= depth,
        ancestor(i, common_level(i, j)) == ancestor(j, common_level(i, j)),
        i != j ==> common_level(i, j) >= 1,
        forall|k: nat| k < common_level(i, j) ==> ancestor(i, k) != ancestor(j, k),
    decreases i + j,
{
    if i == j {
    } else {
        assert(depth > 0);
        lemma_common_level(i / 2, j / 2, (depth - 1) as nat);
        let below = common_level(i / 2, j / 2);
        lemma_ancestor_of_parent(i, below);
        lemma_ancestor_of_parent(j, below);
        assert forall|k: nat| k < common_level(i, j) implies ancestor(i, k) != ancestor(
            j,
            k,
        ) by {
            if k > 0 {
                lemma_ancestor_of_parent(i, (k - 1) as nat);
                lemma_ancestor_of_parent(j, (k - 1) as nat);
            }
        }
    }
}

/// Two to the power `e`.
pub fn power_of_two(e: usize) -> (power: u32)
    requires
        e <= MAX_DEPTH,
    ensures
        power == pow2(e as nat),
        1 <= power <= MAX_ROSTER,
{
    let mut power: u32 = 1;
    let mut i: usize = 0;
    proof {
        lemma_pow2_max();
    }
    while i < e
        invariant
            i <= e <= MAX_DEPTH,
            power == pow2(i as nat),
            pow2(MAX_DEPTH as nat) == MAX_ROSTER,
        decreases e - i,
    {
        proof {
            lemma_pow2_monotonic((i + 1) as nat, MAX_DEPTH as nat);
        }
        power = power * 2;
        i += 1;
    }
    proof {
        lemma_pow2_monotonic(e as nat, MAX_DEPTH as nat);
    }
    power
}

/// The depth of the smallest complete tree with at least `n` leaves.
pub fn depth_for(n: u32) -> (depth: usize)
    requires
        n <= MAX_ROSTER,
    ensures
        depth == tree_depth(n as nat),
        depth <= MAX_DEPTH,
        n <= pow2(depth as nat),
{
    let mut depth: usize = 0;
    let mut width: u32 = 1;
    proof {
        lemma_pow2_max();
    }
    while width < n
        invariant
            depth <= MAX_DEPTH,
            width == pow2(depth as nat),
            depth == 0 || pow2((depth - 1) as nat) < n,
            n <= MAX_ROSTER,
            pow2(MAX_DEPTH as nat) == MAX_ROSTER,
        decreases MAX_ROSTER - width,
    {
        proof {
            if depth == MAX_DEPTH {
                assert(false);
            }
            lemma_pow2_monotonic((depth + 1) as nat, MAX_DEPTH as nat);
        }
        width = width * 2;
        depth += 1;
    }
    proof {
        lemma_tree_depth_is(n as nat, depth as nat);
    }
    depth
}

/// The offset, `level` levels up, of the ancestor of the node at `offset`.
pub fn ancestor_of(offset: u32, level: usize) -> (up: u32)
    ensures
        up == ancestor(offset as nat, level as nat),
{
    let mut up: u32 = offset;
    let mut i: usize = 0;
    while i < level
        invariant
            i <= level,
            up == ancestor(offset as nat, i as nat),
        decreases level - i,
    {
        up = up / 2;
        i += 1;
    }
    up
}

/// The number of levels between two leaves and their lowest common ancestor.
pub fn common_level_of(i: u32, j: u32) -> (level: usize)
    ensures
        level == common_level(i as nat, j as nat),
        level <= 32,
{
    let mut a: u32 = i;
    let mut b: u32 = j;
    let mut level: usize = 0;
    proof {
        assert(pow2(32) == 0x1_0000_0000) by {
            reveal_with_fuel(pow2, 33);
        }
    }
    while a != b
        invariant
            level + common_level(a as nat, b as nat) == common_level(i as nat, j as nat),
            level <= 32,
            a < pow2((32 - level) as nat),
            b < pow2((32 - level) as nat),
        decreases a + b,
    {
        proof {
            if level == 32 {
                assert(false);
            }
            assert(pow2((32 - level) as nat) == 2 * pow2((32 - level - 1) as nat));
        }
        a = a / 2;
        b = b / 2;
        level += 1;
    }
    level
}

} // verus!
