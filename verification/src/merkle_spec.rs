//! The mathematics of the lean incremental Merkle tree: node values over a
//! sequence of leaves padded with zeros, empty subtrees, authentication paths,
//! and the node cache that an append rewrites.
use vstd::arithmetic::div_mod::{lemma_div_denominator, lemma_fundamental_div_mod_converse};
use vstd::arithmetic::power2::{lemma_pow2_pos, lemma_pow2_unfold, pow2};
use vstd::prelude::*;

use crate::poseidon::poseidon;

verus! {

/// The hash of two children: Poseidon of the pair.
pub open spec fn hash_pair(left: nat, right: nat) -> nat {
    poseidon(seq![left, right])
}

/// The root of a subtree of height `level` whose leaves are all zero.
pub open spec fn zero_hash(level: nat) -> nat
    decreases level,
{
    if level == 0 {
        0
    } else {
        hash_pair(zero_hash((level - 1) as nat), zero_hash((level - 1) as nat))
    }
}

/// Leaf `i`, or zero past the last leaf.
pub open spec fn leaf_or_zero(leaves: Seq<nat>, i: nat) -> nat {
    if i < leaves.len() {
        leaves[i as int]
    } else {
        0
    }
}

/// The node at height `level` and position `index` of the Merkle tree over
/// `leaves`, missing leaves being zero.
pub open spec fn merkle_node(leaves: Seq<nat>, level: nat, index: nat) -> nat
    decreases level,
{
    if level == 0 {
        leaf_or_zero(leaves, index)
    } else {
        hash_pair(
            merkle_node(leaves, (level - 1) as nat, 2 * index),
            merkle_node(leaves, (level - 1) as nat, 2 * index + 1),
        )
    }
}

/// The root of the Merkle tree of height `depth` over `leaves`.
pub open spec fn merkle_root(leaves: Seq<nat>, depth: nat) -> nat {
    merkle_node(leaves, depth, 0)
}

/// The position at height `level` of the ancestor of leaf `i`.
pub open spec fn ancestor(i: nat, level: nat) -> nat {
    i / pow2(level)
}

/// The position at height `level` of the sibling of leaf `i`'s ancestor.
pub open spec fn sibling_index(i: nat, level: nat) -> nat {
    let c = ancestor(i, level);
    if c % 2 == 0 {
        c + 1
    } else {
        (c - 1) as nat
    }
}

/// The node reached by hashing `leaf`, at position `index`, with the first
/// `level` siblings of an authentication path.
pub open spec fn fold_path(leaf: nat, index: nat, siblings: Seq<nat>, level: nat) -> nat
    decreases level,
{
    if level == 0 {
        leaf
    } else {
        let below = fold_path(leaf, index, siblings, (level - 1) as nat);
        if ancestor(index, (level - 1) as nat) % 2 == 0 {
            hash_pair(below, siblings[level - 1])
        } else {
            hash_pair(siblings[level - 1], below)
        }
    }
}

/// The ancestor one level up is half the ancestor below.
pub proof fn lemma_ancestor_step(i: nat, level: nat)
    ensures
        ancestor(i, level + 1) == ancestor(i, level) / 2,
        ancestor(i, 0) == i,
{
    lemma_pow2_pos(level);
    lemma_pow2_unfold(level + 1);
    lemma_div_denominator(i as int, pow2(level) as int, 2);
    assert(pow2(level) * 2 == pow2(level + 1));
    vstd::arithmetic::power2::lemma2_to64();
}

/// Every subtree that starts past the last leaf has the root of an all-zero subtree.
pub proof fn lemma_empty_subtree(leaves: Seq<nat>, level: nat, index: nat)
    requires
        index * pow2(level) >= leaves.len(),
    ensures
        merkle_node(leaves, level, index) == zero_hash(level),
    decreases level,
{
    if level == 0 {
        vstd::arithmetic::power2::lemma2_to64();
    } else {
        let p = pow2((level - 1) as nat);
        lemma_pow2_unfold(level);
        assert((2 * index) * p == index * (2 * p)) by (nonlinear_arith);
        assert((2 * index + 1) * p >= (2 * index) * p) by (nonlinear_arith);
        lemma_empty_subtree(leaves, (level - 1) as nat, 2 * index);
        lemma_empty_subtree(leaves, (level - 1) as nat, 2 * index + 1);
    }
}

/// Two leaf sequences that agree (with zero padding) on the leaves below a
/// node give that node the same value.
pub proof fn lemma_node_locality(a: Seq<nat>, b: Seq<nat>, level: nat, index: nat)
    requires
        forall|j: nat|
            index * pow2(level) <= j < (index + 1) * pow2(level) ==> #[trigger] leaf_or_zero(a, j)
                == leaf_or_zero(b, j),
    ensures
        merkle_node(a, level, index) == merkle_node(b, level, index),
    decreases level,
{
    if level == 0 {
        vstd::arithmetic::power2::lemma2_to64();
        assert(leaf_or_zero(a, index) == leaf_or_zero(b, index));
    } else {
        let p = pow2((level - 1) as nat);
        lemma_pow2_unfold(level);
        assert((2 * index) * p == index * (2 * p)) by (nonlinear_arith);
        assert((2 * index + 1) * p == index * (2 * p) + p) by (nonlinear_arith);
        assert((2 * index + 2) * p == (index + 1) * (2 * p)) by (nonlinear_arith);
        assert(pow2(level) == 2 * p);
        assert((2 * index + 1) * p <= (2 * index + 2) * p) by (nonlinear_arith);
        assert(index * pow2(level) == index * (2 * p));
        assert((index + 1) * pow2(level) == (index + 1) * (2 * p));
        assert forall|j: nat|
            (2 * index) * p <= j < (2 * index + 2) * p implies #[trigger] leaf_or_zero(a, j)
                == leaf_or_zero(b, j) by {
            assert(index * pow2(level) <= j < (index + 1) * pow2(level));
        }
        lemma_node_locality(a, b, (level - 1) as nat, 2 * index);
        lemma_node_locality(a, b, (level - 1) as nat, 2 * index + 1);
    }
}

/// A leaf lies below the node at its ancestor position, and below no other
/// node of that height.
pub proof fn lemma_ancestor_range(j: nat, level: nat, index: nat)
    requires
        index * pow2(level) <= j < (index + 1) * pow2(level),
    ensures
        ancestor(j, level) == index,
{
    lemma_pow2_pos(level);
    let p = pow2(level);
    assert((index + 1) * p == index * p + p) by (nonlinear_arith);
    lemma_fundamental_div_mod_converse(j as int, p as int, index as int, j - index * p);
}

/// Hashing a leaf with the siblings of its authentication path gives its
/// ancestors, and at the top the root.
pub proof fn lemma_fold_path(leaves: Seq<nat>, i: nat, siblings: Seq<nat>, level: nat)
    requires
        i < leaves.len(),
        siblings.len() >= level,
        forall|l: nat| l < level ==> #[trigger] siblings[l as int] == merkle_node(
            leaves,
            l,
            sibling_index(i, l),
        ),
    ensures
        fold_path(leaves[i as int], i, siblings, level) == merkle_node(
            leaves,
            level,
            ancestor(i, level),
        ),
    decreases level,
{
    if level == 0 {
        lemma_ancestor_step(i, 0);
    } else {
        let l = (level - 1) as nat;
        lemma_fold_path(leaves, i, siblings, l);
        lemma_ancestor_step(i, l);
        let c = ancestor(i, l);
        assert(siblings[l as int] == merkle_node(leaves, l, sibling_index(i, l)));
        if c % 2 == 0 {
            assert(2 * (c / 2) == c);
        } else {
            assert(2 * (c / 2) + 1 == c);
        }
    }
}

/// The value that a tree reports for a node, given its leaves, its height
/// `depth` and its node cache: zero above the root; the cached value where
/// there is one; the all-zero root for a subtree that starts past the last
/// leaf; the leaf itself at height zero; otherwise the hash of the two children.
pub open spec fn node_value(
    leaves: Seq<nat>,
    depth: nat,
    cache: Map<(nat, nat), nat>,
    level: nat,
    index: nat,
) -> nat
    decreases level,
{
    if level > depth {
        0
    } else if cache.contains_key((level, index)) {
        cache[(level, index)]
    } else if index * pow2(level) >= leaves.len() {
        zero_hash(level)
    } else if level == 0 {
        leaves[index as int]
    } else {
        hash_pair(
            node_value(leaves, depth, cache, (level - 1) as nat, 2 * index),
            node_value(leaves, depth, cache, (level - 1) as nat, 2 * index + 1),
        )
    }
}

/// A child's value while an append rewrites the cache: the cached value if
/// there is one, else the node's value.
pub open spec fn batch_value(
    leaves: Seq<nat>,
    depth: nat,
    cache: Map<(nat, nat), nat>,
    level: nat,
    index: nat,
) -> nat {
    if cache.contains_key((level, index)) {
        cache[(level, index)]
    } else {
        node_value(leaves, depth, cache, level, index)
    }
}

/// The new value of a node on the path of an appended leaf: the leaf itself
/// at height zero, else the hash of its children's batch values.
pub open spec fn refreshed_node(
    leaves: Seq<nat>,
    depth: nat,
    cache: Map<(nat, nat), nat>,
    level: nat,
    index: nat,
) -> nat {
    if level == 0 {
        leaf_or_zero(leaves, index)
    } else {
        hash_pair(
            batch_value(leaves, depth, cache, (level - 1) as nat, 2 * index),
            batch_value(leaves, depth, cache, (level - 1) as nat, 2 * index + 1),
        )
    }
}

/// The cache after leaves `first` and `first + 1` were appended, once the
/// heights up to `level` were rewritten: at height zero the two leaves, then
/// at each height the ancestors of the two leaves, lower one first.
pub open spec fn cache_after_append(
    leaves: Seq<nat>,
    depth: nat,
    cache: Map<(nat, nat), nat>,
    first: nat,
    level: nat,
) -> Map<(nat, nat), nat>
    decreases level,
{
    if level == 0 {
        cache.insert((0, first), leaf_or_zero(leaves, first)).insert(
            (0, first + 1),
            leaf_or_zero(leaves, first + 1),
        )
    } else {
        let prev = cache_after_append(leaves, depth, cache, first, (level - 1) as nat);
        let a = ancestor(first, level);
        let b = ancestor(first + 1, level);
        let with_a = prev.insert((level, a), refreshed_node(leaves, depth, prev, level, a));
        if a == b {
            with_a
        } else {
            with_a.insert((level, b), refreshed_node(leaves, depth, with_a, level, b))
        }
    }
}

/// Whether every cached node of height at most `top` holds its Merkle value.
pub open spec fn cache_agrees(leaves: Seq<nat>, cache: Map<(nat, nat), nat>, top: nat) -> bool {
    forall|l: nat, k: nat|
        l <= top && #[trigger] cache.contains_key((l, k)) ==> cache[(l, k)] == merkle_node(
            leaves,
            l,
            k,
        )
}

/// Where the cache agrees with the leaves, a node's reported value is its Merkle value.
pub proof fn lemma_node_value_agrees(
    leaves: Seq<nat>,
    depth: nat,
    cache: Map<(nat, nat), nat>,
    level: nat,
    index: nat,
)
    requires
        level <= depth,
        cache_agrees(leaves, cache, level),
    ensures
        node_value(leaves, depth, cache, level, index) == merkle_node(leaves, level, index),
    decreases level,
{
    if cache.contains_key((level, index)) {
    } else if index * pow2(level) >= leaves.len() {
        lemma_empty_subtree(leaves, level, index);
    } else if level == 0 {
        vstd::arithmetic::power2::lemma2_to64();
    } else {
        lemma_node_value_agrees(leaves, depth, cache, (level - 1) as nat, 2 * index);
        lemma_node_value_agrees(leaves, depth, cache, (level - 1) as nat, 2 * index + 1);
    }
}

/// A node above neither of two appended leaves keeps its Merkle value.
pub proof fn lemma_unaffected_node(old: Seq<nat>, new: Seq<nat>, level: nat, index: nat)
    requires
        new.len() == old.len() + 2,
        forall|j: int| 0 <= j < old.len() ==> new[j] == old[j],
        index != ancestor(old.len(), level),
        index != ancestor(old.len() + 1, level),
    ensures
        merkle_node(old, level, index) == merkle_node(new, level, index),
{
    assert forall|j: nat|
        index * pow2(level) <= j < (index + 1) * pow2(level) implies #[trigger] leaf_or_zero(
        old,
        j,
    ) == leaf_or_zero(new, j) by {
        lemma_ancestor_range(j, level, index);
    }
    lemma_node_locality(old, new, level, index);
}

/// Rewriting the cache after an append, height by height: every rewritten
/// height agrees with the new leaves, and the nodes above that are off the
/// two new paths still do.
pub proof fn lemma_append_rewrite(
    old: Seq<nat>,
    new: Seq<nat>,
    depth: nat,
    cache: Map<(nat, nat), nat>,
    level: nat,
)
    requires
        new.len() == old.len() + 2,
        forall|j: int| 0 <= j < old.len() ==> new[j] == old[j],
        level <= depth,
        cache_agrees(old, cache, depth),
    ensures
        ({
            let c = cache_after_append(new, depth, cache, old.len(), level);
            &&& cache_agrees(new, c, level)
            &&& c.contains_key((level, ancestor(old.len(), level)))
            &&& forall|m: nat, k: nat|
                level < m <= depth && #[trigger] c.contains_key((m, k)) && k != ancestor(
                    old.len(),
                    m,
                ) && k != ancestor(old.len() + 1, m) ==> c[(m, k)] == merkle_node(new, m, k)
        }),
    decreases level,
{
    let f = old.len();
    let c = cache_after_append(new, depth, cache, f, level);
    if level == 0 {
        lemma_ancestor_step(f, 0);
        lemma_ancestor_step(f + 1, 0);
        assert forall|l: nat, k: nat|
            l <= 0 && #[trigger] c.contains_key((l, k)) implies c[(l, k)] == merkle_node(
            new,
            l,
            k,
        ) by {
            if k != f && k != f + 1 {
                assert(cache.contains_key((l, k)));
                assert(leaf_or_zero(old, k) == leaf_or_zero(new, k));
            }
        }
        assert forall|m: nat, k: nat|
            0 < m <= depth && #[trigger] c.contains_key((m, k)) && k != ancestor(f, m) && k
                != ancestor(f + 1, m) implies c[(m, k)] == merkle_node(new, m, k) by {
            assert(cache.contains_key((m, k)));
            lemma_unaffected_node(old, new, m, k);
        }
    } else {
        let l = (level - 1) as nat;
        lemma_append_rewrite(old, new, depth, cache, l);
        let prev = cache_after_append(new, depth, cache, f, l);
        let a = ancestor(f, level);
        let b = ancestor(f + 1, level);
        let with_a = prev.insert((level, a), refreshed_node(new, depth, prev, level, a));
        assert(cache_agrees(new, prev, l));
        lemma_node_value_agrees(new, depth, prev, l, 2 * a);
        lemma_node_value_agrees(new, depth, prev, l, 2 * a + 1);
        assert(refreshed_node(new, depth, prev, level, a) == merkle_node(new, level, a));
        assert(cache_agrees(new, with_a, l)) by {
            assert forall|m: nat, k: nat|
                m <= l && #[trigger] with_a.contains_key((m, k)) implies with_a[(m, k)]
                == merkle_node(new, m, k) by {
                assert(prev.contains_key((m, k)));
            }
        }
        lemma_node_value_agrees(new, depth, with_a, l, 2 * b);
        lemma_node_value_agrees(new, depth, with_a, l, 2 * b + 1);
        assert(refreshed_node(new, depth, with_a, level, b) == merkle_node(new, level, b));
        assert forall|m: nat, k: nat|
            m <= level && #[trigger] c.contains_key((m, k)) implies c[(m, k)] == merkle_node(
            new,
            m,
            k,
        ) by {
            if m == level && (k == a || k == b) {
            } else {
                assert(prev.contains_key((m, k)));
            }
        }
        assert forall|m: nat, k: nat|
            level < m <= depth && #[trigger] c.contains_key((m, k)) && k != ancestor(f, m) && k
                != ancestor(f + 1, m) implies c[(m, k)] == merkle_node(new, m, k) by {
            assert(prev.contains_key((m, k)));
        }
    }
}

/// After an append that fits below the root, the rewritten cache agrees with
/// the new leaves and holds the new root.
pub proof fn lemma_append_keeps_cache(
    old: Seq<nat>,
    new: Seq<nat>,
    depth: nat,
    cache: Map<(nat, nat), nat>,
)
    requires
        new.len() == old.len() + 2,
        forall|j: int| 0 <= j < old.len() ==> new[j] == old[j],
        new.len() <= pow2(depth),
        cache_agrees(old, cache, depth),
    ensures
        ({
            let c = cache_after_append(new, depth, cache, old.len(), depth);
            &&& cache_agrees(new, c, depth)
            &&& c.contains_key((depth, 0))
            &&& c[(depth, 0)] == merkle_root(new, depth)
        }),
{
    lemma_append_rewrite(old, new, depth, cache, depth);
    lemma_pow2_pos(depth);
    lemma_fundamental_div_mod_converse(old.len() as int, pow2(depth) as int, 0, old.len() as int);
}

/// Once an append rewrote the heights up to `level`, the ancestor at that
/// height of the first appended leaf is cached.
pub proof fn lemma_append_touches(
    leaves: Seq<nat>,
    depth: nat,
    cache: Map<(nat, nat), nat>,
    first: nat,
    level: nat,
)
    ensures
        cache_after_append(leaves, depth, cache, first, level).contains_key(
            (level, ancestor(first, level)),
        ),
{
    if level == 0 {
        lemma_ancestor_step(first, 0);
    }
}

/// When both appended leaves fit below the root, the rewritten cache holds
/// the top node.
pub proof fn lemma_append_touches_top(
    leaves: Seq<nat>,
    depth: nat,
    cache: Map<(nat, nat), nat>,
    first: nat,
)
    requires
        first + 2 <= pow2(depth),
    ensures
        cache_after_append(leaves, depth, cache, first, depth).contains_key((depth, 0)),
{
    lemma_append_touches(leaves, depth, cache, first, depth);
    lemma_pow2_pos(depth);
    lemma_fundamental_div_mod_converse(first as int, pow2(depth) as int, 0, first as int);
}

/// The node cache that appending `leaves`, two at a time, to an empty tree of
/// height `depth` builds.
pub open spec fn appended_cache(leaves: Seq<nat>, depth: nat) -> Map<(nat, nat), nat>
    decreases leaves.len(),
{
    if leaves.len() < 2 {
        Map::empty()
    } else {
        let before = leaves.drop_last().drop_last();
        cache_after_append(leaves, depth, appended_cache(before, depth), before.len(), depth)
    }
}

/// Whether node `p` (height, position) lies on the path of one of the first
/// `n` leaves, at height at most `depth`.
pub open spec fn path_node(n: nat, depth: nat, p: (nat, nat)) -> bool {
    p.0 <= depth && exists|j: nat| j < n && p.1 == #[trigger] ancestor(j, p.0)
}

/// The nodes that an append rewrites are the ancestors, up to `level`, of
/// the two appended leaves.
pub proof fn lemma_append_domain(
    leaves: Seq<nat>,
    depth: nat,
    cache: Map<(nat, nat), nat>,
    first: nat,
    level: nat,
    p: (nat, nat),
)
    ensures
        cache_after_append(leaves, depth, cache, first, level).contains_key(p) <==> cache.contains_key(p)
            || (p.0 <= level && (p.1 == ancestor(first, p.0) || p.1 == ancestor(first + 1, p.0))),
    decreases level,
{
    lemma_ancestor_step(first, 0);
    lemma_ancestor_step(first + 1, 0);
    if level > 0 {
        lemma_append_domain(leaves, depth, cache, first, (level - 1) as nat, p);
    }
}

/// The cache that appends build holds exactly the path nodes of the leaves.
pub proof fn lemma_appended_domain(leaves: Seq<nat>, depth: nat, p: (nat, nat))
    requires
        leaves.len() % 2 == 0,
    ensures
        appended_cache(leaves, depth).contains_key(p) <==> path_node(leaves.len(), depth, p),
    decreases leaves.len(),
{
    let n = leaves.len();
    if n >= 2 {
        let before = leaves.drop_last().drop_last();
        let f = before.len();
        lemma_appended_domain(before, depth, p);
        lemma_append_domain(leaves, depth, appended_cache(before, depth), f, depth, p);
        if path_node(n, depth, p) {
            let j = choose|j: nat| j < n && p.1 == #[trigger] ancestor(j, p.0);
            if j < f {
                assert(path_node(f, depth, p));
            }
        }
        if path_node(f, depth, p) {
            let j = choose|j: nat| j < f && p.1 == #[trigger] ancestor(j, p.0);
            assert(j < n);
        }
        if p.0 <= depth && p.1 == ancestor(f, p.0) {
            assert(f < n);
        }
        if p.0 <= depth && p.1 == ancestor(f + 1, p.0) {
            assert(f + 1 < n);
        }
    }
}

} // verus!
