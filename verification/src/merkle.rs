//! A lean incremental Merkle tree of fixed height over BN254 field elements,
//! appended to two leaves at a time, with a sparse cache of the nodes that
//! appends rewrite.
use std::collections::BTreeMap;
use vstd::arithmetic::power2::{lemma_pow2_pos, lemma_pow2_unfold, pow2};
use vstd::prelude::*;
use vstd::string::*;
use vstd::std_specs::cmp::PartialEqSpecImpl;

use crate::encoding::decimal_digits;
use crate::encoding::u64_to_decimal;
use crate::field::{
    decimal_to_fr_result, decimal_value, fr_to_decimal, undecimal_message, FieldElement,
};
use crate::merkle_spec::{
    appended_cache, batch_value, cache_after_append, cache_agrees, fold_path, leaf_or_zero,
    lemma_appended_domain, lemma_fold_path, lemma_node_value_agrees, merkle_node, merkle_root,
    node_value, path_node, refreshed_node, sibling_index, zero_hash,
};
use crate::poseidon::poseidon_hash_2;

verus! {

/// One cached node of a snapshot, its value as a decimal field element.
#[derive(Clone, Debug)]
pub struct LeanImtNode {
    pub level: u32,
    pub index: u32,
    pub value: String,
}

/// A tree written out as text: height, root, leaves and cached nodes, all
/// field elements as decimal numerals.
#[derive(Clone, Debug)]
pub struct LeanImtSnapshot {
    pub depth: u32,
    pub root: String,
    pub leaves: Vec<String>,
    pub nodes: Vec<LeanImtNode>,
}

/// Whether two snapshot nodes have the same place and value text.
pub open spec fn same_node(a: LeanImtNode, b: LeanImtNode) -> bool {
    a.level == b.level && a.index == b.index && a.value@ == b.value@
}

impl PartialEq for LeanImtNode {
    fn eq(&self, other: &LeanImtNode) -> (r: bool) {
        self.level == other.level && self.index == other.index && self.value == other.value
    }
}

impl Eq for LeanImtNode {
}

impl PartialEqSpecImpl for LeanImtNode {
    open spec fn obeys_eq_spec() -> bool {
        true
    }

    open spec fn eq_spec(&self, other: &LeanImtNode) -> bool {
        same_node(*self, *other)
    }
}

impl PartialEq for LeanImtSnapshot {
    fn eq(&self, other: &LeanImtSnapshot) -> (r: bool) {
        if self.depth != other.depth || self.root != other.root {
            return false;
        }
        if self.leaves.len() != other.leaves.len() || self.nodes.len() != other.nodes.len() {
            return false;
        }
        let mut i: usize = 0;
        while i < self.leaves.len()
            invariant
                self.leaves@.len() == other.leaves@.len(),
                i <= self.leaves@.len(),
                forall|j: int| 0 <= j < i ==> #[trigger] self.leaves@[j]@ == other.leaves@[j]@,
            decreases self.leaves@.len() - i,
        {
            if self.leaves[i] != other.leaves[i] {
                return false;
            }
            i = i + 1;
        }
        let mut k: usize = 0;
        while k < self.nodes.len()
            invariant
                self.nodes@.len() == other.nodes@.len(),
                k <= self.nodes@.len(),
                forall|j: int| 0 <= j < k ==> same_node(#[trigger] self.nodes@[j], other.nodes@[j]),
            decreases self.nodes@.len() - k,
        {
            if self.nodes[k] != other.nodes[k] {
                return false;
            }
            k = k + 1;
        }
        true
    }
}

impl Eq for LeanImtSnapshot {
}

impl PartialEqSpecImpl for LeanImtSnapshot {
    open spec fn obeys_eq_spec() -> bool {
        true
    }

    open spec fn eq_spec(&self, other: &LeanImtSnapshot) -> bool {
        same_snapshot(*self, *other)
    }
}

/// Whether two snapshots have the same height, and the same root, leaves and
/// nodes as text.
pub open spec fn same_snapshot(a: LeanImtSnapshot, b: LeanImtSnapshot) -> bool {
    &&& a.depth == b.depth
    &&& a.root@ == b.root@
    &&& a.leaves@.len() == b.leaves@.len()
    &&& forall|j: int| 0 <= j < a.leaves@.len() ==> #[trigger] a.leaves@[j]@ == b.leaves@[j]@
    &&& a.nodes@.len() == b.nodes@.len()
    &&& forall|j: int| 0 <= j < a.nodes@.len() ==> same_node(#[trigger] a.nodes@[j], b.nodes@[j])
}

/// The key of node `(level, index)` in the node cache.
pub open spec fn node_key(level: nat, index: nat) -> nat {
    level * 0x1_0000_0000 + index
}

/// The number of leaves a tree of height `depth` holds: `2^depth`, capped at `u32::MAX`.
pub open spec fn capacity_for(depth: nat) -> nat {
    if depth < 32 {
        pow2(depth)
    } else {
        0xffff_ffff
    }
}

/// Whether `s` is the text of `t`: its height, the decimal numerals of its
/// root and leaves, and each cached node once, in increasing order of height
/// and then position, with the decimal numeral of its value.
pub open spec fn snapshot_of(s: LeanImtSnapshot, t: LeanIMT) -> bool {
    &&& s.depth as nat == t.depth_view()
    &&& s.root@ == decimal_digits(t.root_view())
    &&& decimal_value(s.root@) == Some(t.root_view())
    &&& s.leaves@.len() == t.leaves_view().len()
    &&& forall|i: int|
        0 <= i < s.leaves@.len() ==> #[trigger] s.leaves@[i]@ == decimal_digits(t.leaves_view()[i])
            && decimal_value(s.leaves@[i]@) == Some(t.leaves_view()[i])
    &&& forall|i: int|
        0 <= i < s.nodes@.len() ==> {
            let n = #[trigger] s.nodes@[i];
            &&& t.node_cache().contains_key((n.level as nat, n.index as nat))
            &&& n.value@ == decimal_digits(t.node_cache()[(n.level as nat, n.index as nat)])
            &&& decimal_value(n.value@) == Some(t.node_cache()[(n.level as nat, n.index as nat)])
        }
    &&& forall|p: (nat, nat)|
        #[trigger] t.node_cache().contains_key(p) ==> exists|i: int|
            0 <= i < s.nodes@.len() && s.nodes@[i].level == p.0 && s.nodes@[i].index == p.1
    &&& forall|i: int, j: int|
        0 <= i < j < s.nodes@.len() ==> node_key(s.nodes@[i].level as nat, s.nodes@[i].index as nat)
            < node_key(s.nodes@[j].level as nat, s.nodes@[j].index as nat)
}

/// Whether every string is a decimal field element.
pub open spec fn all_decimal(strs: Seq<String>) -> bool {
    forall|i: int| 0 <= i < strs.len() ==> decimal_value(#[trigger] strs[i]@) is Some
}

/// Whether string `i` is the first that is not a decimal field element.
pub open spec fn first_undecimal(strs: Seq<String>, i: int) -> bool {
    &&& 0 <= i < strs.len()
    &&& decimal_value(strs[i]@) is None
    &&& forall|j: int| 0 <= j < i ==> decimal_value(#[trigger] strs[j]@) is Some
}

/// The field elements that decimal strings denote.
pub open spec fn decimal_values(strs: Seq<String>) -> Seq<nat> {
    strs.map_values(|s: String| decimal_value(s@)->0)
}

/// The value texts of snapshot nodes.
pub open spec fn node_values(nodes: Seq<LeanImtNode>) -> Seq<String> {
    nodes.map_values(|n: LeanImtNode| n.value)
}

/// The cache that snapshot nodes describe, a later node overriding an
/// earlier one at the same place.
pub open spec fn cache_of_nodes(nodes: Seq<LeanImtNode>) -> Map<(nat, nat), nat>
    decreases nodes.len(),
{
    if nodes.len() == 0 {
        Map::empty()
    } else {
        let n = nodes.last();
        cache_of_nodes(nodes.drop_last()).insert(
            (n.level as nat, n.index as nat),
            decimal_value(n.value@)->0,
        )
    }
}

/// What restoring a snapshot of height `depth`, root `root`, leaves `leaves`
/// and nodes `nodes` gives: each refusal with the inputs on which it comes and
/// its message, in the order of the checks; otherwise the tree.
pub open spec fn restore_outcome(
    depth: u32,
    root: String,
    leaves: Seq<String>,
    nodes: Seq<LeanImtNode>,
    r: Result<LeanIMT, String>,
) -> bool {
    let n = leaves.len();
    let values = node_values(nodes);
    if n % 2 != 0 {
        r matches Err(e) && e@ == "expected an even number of leaves, got "@ + decimal_digits(n)
    } else if !all_decimal(leaves) {
        r matches Err(e) && exists|i: int|
            first_undecimal(leaves, i) && e@ == undecimal_message(leaves[i]@)
    } else if n > capacity_for(depth as nat) {
        r matches Err(e) && e@ == "snapshot exceeds tree capacity"@
    } else if !all_decimal(values) {
        r matches Err(e) && exists|i: int|
            first_undecimal(values, i) && e@ == undecimal_message(values[i]@)
    } else if decimal_value(root@) is None {
        r matches Err(e) && e@ == undecimal_message(root@)
    } else {
        r matches Ok(t) && {
            &&& t.well_formed()
            &&& t.depth_view() == depth as nat
            &&& t.leaves_view() == decimal_values(leaves)
            &&& t.node_cache() == cache_of_nodes(nodes)
            &&& t.root_view() == decimal_value(root@)->0
        }
    }
}

/// What restoring snapshot `s` gives.
pub open spec fn snapshot_outcome(s: LeanImtSnapshot, r: Result<LeanIMT, String>) -> bool {
    restore_outcome(s.depth, s.root, s.leaves@, s.nodes@, r)
}

/// The keys of an ordered iteration over the node cache strictly increase.
proof fn lemma_increasing_keys(keys: Seq<u64>, i: int, j: int)
    requires
        vstd::std_specs::btree::increasing_seq(keys),
        0 <= i < j < keys.len(),
    ensures
        keys[i] < keys[j],
{
    assert(vstd::laws_cmp::obeys_cmp::<u64>());
    assert(vstd::std_specs::cmp::OrdSpec::cmp_spec(&keys[i], &keys[j]) is Less);
}

/// Distinct nodes have distinct cache keys.
proof fn lemma_node_key_injective(l1: nat, i1: nat, l2: nat, i2: nat)
    requires
        i1 < 0x1_0000_0000,
        i2 < 0x1_0000_0000,
        node_key(l1, i1) == node_key(l2, i2),
    ensures
        l1 == l2,
        i1 == i2,
{
    vstd::arithmetic::div_mod::lemma_fundamental_div_mod_converse(
        node_key(l1, i1) as int,
        0x1_0000_0000,
        l1 as int,
        i1 as int,
    );
    vstd::arithmetic::div_mod::lemma_fundamental_div_mod_converse(
        node_key(l2, i2) as int,
        0x1_0000_0000,
        l2 as int,
        i2 as int,
    );
}

/// Lean incremental Merkle tree: the leaves, the height, the root, the roots
/// of all-zero subtrees per height, and a cache of nodes keyed by height and
/// position. Missing leaves are zero.
#[derive(Debug)]
pub struct LeanIMT {
    leaves: Vec<FieldElement>,
    depth: u32,
    capacity: u32,
    root: FieldElement,
    subtree_cache: Vec<FieldElement>,
    sparse_cache: BTreeMap<u64, FieldElement>,
}

impl LeanIMT {
    /// The values of the leaves, in order.
    pub closed spec fn leaves_view(&self) -> Seq<nat> {
        self.leaves@.map_values(|f: FieldElement| f@)
    }

    /// The height of the tree.
    pub closed spec fn depth_view(&self) -> nat {
        self.depth as nat
    }

    /// The stored root.
    pub closed spec fn root_view(&self) -> nat {
        self.root@
    }

    /// The cached nodes: `(height, position)` to value.
    pub closed spec fn node_cache(&self) -> Map<(nat, nat), nat> {
        Map::new(
            |p: (nat, nat)|
                p.0 < 0x1_0000_0000 && p.1 < 0x1_0000_0000 && self.sparse_cache@.contains_key(
                    node_key(p.0, p.1) as u64,
                ),
            |p: (nat, nat)| self.sparse_cache@[node_key(p.0, p.1) as u64]@,
        )
    }

    /// The shape every tree keeps: capacity from the height, an even number of
    /// leaves within capacity, and the all-zero subtree roots for heights
    /// `0..=depth` (none at height zero).
    pub closed spec fn well_formed(&self) -> bool {
        &&& self.capacity as nat == capacity_for(self.depth as nat)
        &&& self.leaves@.len() <= self.capacity
        &&& self.leaves@.len() % 2 == 0
        &&& if self.depth == 0 {
            self.subtree_cache@.len() == 0
        } else {
            self.subtree_cache@.len() == self.depth + 1
        }
        &&& forall|l: int|
            0 <= l < self.subtree_cache@.len() ==> #[trigger] self.subtree_cache@[l]@ == zero_hash(
                l as nat,
            )
    }

    /// Whether the root and every cached node up to the root hold their
    /// Merkle values over the leaves.
    pub open spec fn is_synced(&self) -> bool {
        &&& self.root_view() == merkle_root(self.leaves_view(), self.depth_view())
        &&& cache_agrees(self.leaves_view(), self.node_cache(), self.depth_view())
    }

    /// Whether the tree is what appending its leaves, two at a time, to an
    /// empty tree of its height gives: synced, with the cache of those appends.
    pub open spec fn built_by_appends(&self) -> bool {
        &&& self.is_synced()
        &&& self.node_cache() == appended_cache(self.leaves_view(), self.depth_view())
    }

    /// The value the tree reports for node `(level, index)`.
    pub open spec fn reported_node(&self, level: nat, index: nat) -> nat {
        node_value(self.leaves_view(), self.depth_view(), self.node_cache(), level, index)
    }

    /// The sibling at height `level` on the authentication path of leaf
    /// `leaf_index`: at height zero the neighbouring leaf (zero past the end),
    /// above it the reported node.
    pub open spec fn proof_sibling(&self, leaf_index: nat, level: nat) -> nat {
        let s = sibling_index(leaf_index, level);
        if level == 0 {
            leaf_or_zero(self.leaves_view(), s)
        } else {
            self.reported_node(level, s)
        }
    }

    /// The cache key of node `(level, index)`.
    fn key_of(level: u32, index: u32) -> (k: u64)
        ensures
            k == node_key(level as nat, index as nat),
    {
        level as u64 * 0x1_0000_0000 + index as u64
    }

    /// The cached node `(level, index)`, if any.
    fn cache_get(&self, level: u32, index: u32) -> (r: Option<FieldElement>)
        ensures
            r is Some <==> self.node_cache().contains_key((level as nat, index as nat)),
            r matches Some(v) ==> v@ == self.node_cache()[(level as nat, index as nat)],
    {
        let k = Self::key_of(level, index);
        match self.sparse_cache.get(&k) {
            Some(v) => Some(*v),
            None => None,
        }
    }

    /// Caches `value` for node `(level, index)`.
    fn cache_insert(&mut self, level: u32, index: u32, value: FieldElement)
        ensures
            final(self).node_cache() == old(self).node_cache().insert(
                (level as nat, index as nat),
                value@,
            ),
            final(self).leaves == old(self).leaves,
            final(self).depth == old(self).depth,
            final(self).capacity == old(self).capacity,
            final(self).root == old(self).root,
            final(self).subtree_cache == old(self).subtree_cache,
    {
        let k = Self::key_of(level, index);
        self.sparse_cache.insert(k, value);
        proof {
            let m1 = final(self).node_cache();
            let m2 = old(self).node_cache().insert((level as nat, index as nat), value@);
            assert forall|p: (nat, nat)| m1.contains_key(p) <==> m2.contains_key(p) by {
                if p.0 < 0x1_0000_0000 && p.1 < 0x1_0000_0000 && node_key(p.0, p.1) == k {
                    lemma_node_key_injective(p.0, p.1, level as nat, index as nat);
                }
            }
            assert forall|p: (nat, nat)| #[trigger] m1.contains_key(p) implies m1[p] == m2[p] by {
                if node_key(p.0, p.1) == k {
                    lemma_node_key_injective(p.0, p.1, level as nat, index as nat);
                }
            }
            assert(m1 =~= m2);
        }
    }

    /// The stored root.
    pub fn get_root(&self) -> (r: FieldElement)
        ensures
            r@ == self.root_view(),
    {
        self.root
    }

    /// The number of leaves.
    pub fn get_leaf_count(&self) -> (r: u32)
        requires
            self.well_formed(),
        ensures
            r == self.leaves_view().len(),
    {
        self.leaves.len() as u32
    }

    /// The leaves, in order.
    pub fn leaves(&self) -> (r: &[FieldElement])
        ensures
            r@.map_values(|f: FieldElement| f@) == self.leaves_view(),
    {
        self.leaves.as_slice()
    }

    /// The value of an absent leaf: the cached all-zero root of height zero,
    /// else zero.
    fn empty_leaf_scalar(&self) -> (r: FieldElement)
        requires
            self.well_formed(),
        ensures
            r@ == 0,
    {
        if self.subtree_cache.len() > 0 {
            self.subtree_cache[0]
        } else {
            FieldElement::zero()
        }
    }

    /// Whether the subtree at `(level, node_index)` starts past the last leaf.
    fn is_empty_subtree(&self, level: u32, node_index: u32) -> (r: bool)
        requires
            self.well_formed(),
        ensures
            r == (node_index * pow2(level as nat) >= self.leaves_view().len()),
    {
        let n = self.leaves.len() as u64;
        let width: u64 = if level < 64 {
            proof {
                vstd::bits::lemma_u64_pow2_no_overflow(level as nat);
                vstd::bits::lemma_u64_shl_is_mul(1, level as u64);
            }
            1u64 << (level as u64)
        } else {
            u64::MAX
        };
        let start: u64 = match (node_index as u64).checked_mul(width) {
            Some(v) => v,
            None => u64::MAX,
        };
        proof {
            lemma_pow2_pos(level as nat);
            assert(self.leaves_view().len() == self.leaves@.len());
            assert(n == self.leaves@.len());
            if level < 64 {
                assert(1 * pow2(level as nat) == pow2(level as nat));
                assert(width == pow2(level as nat));
            }
            if node_index == 0 {
                assert(node_index * pow2(level as nat) == 0) by (nonlinear_arith)
                    requires node_index == 0;
            }
            if level >= 64 {
                if level > 64 {
                    vstd::arithmetic::power2::lemma_pow2_strictly_increases(64, level as nat);
                }
                vstd::arithmetic::power2::lemma2_to64();
                if node_index >= 1 {
                    assert(node_index * pow2(level as nat) >= pow2(level as nat)) by (nonlinear_arith)
                        requires node_index >= 1, pow2(level as nat) > 0;
                }
            }
        }
        start >= n
    }

    /// The node `(level, node_index)` if it is cached or is an all-zero subtree
    /// whose root is kept.
    fn get_cached_node(&self, level: u32, node_index: u32) -> (r: Option<FieldElement>)
        requires
            self.well_formed(),
        ensures
            self.node_cache().contains_key((level as nat, node_index as nat)) ==> r is Some,
            !self.node_cache().contains_key((level as nat, node_index as nat)) ==> (r is Some
                <==> (node_index * pow2(level as nat) >= self.leaves_view().len() && level
                < self.subtree_cache@.len())),
            r matches Some(v) ==> !self.node_cache().contains_key(
                (level as nat, node_index as nat),
            ) ==> v@ == zero_hash(level as nat),
            r matches Some(v) ==> self.node_cache().contains_key(
                (level as nat, node_index as nat),
            ) ==> v@ == self.node_cache()[(level as nat, node_index as nat)],
    {
        if let Some(v) = self.cache_get(level, node_index) {
            return Some(v);
        }
        if self.is_empty_subtree(level, node_index) {
            if (level as usize) < self.subtree_cache.len() {
                return Some(self.subtree_cache[level as usize]);
            }
        }
        None
    }

    /// The value of node `node_index` at height `target_level`: zero above
    /// the root, else the cached or all-zero value, else the leaf or the hash
    /// of the two children.
    #[verifier::spinoff_prover]
    fn compute_node_at_level(&self, node_index: u32, target_level: u32) -> (r: FieldElement)
        requires
            self.well_formed(),
        ensures
            r@ == self.reported_node(target_level as nat, node_index as nat),
        decreases target_level,
    {
        if target_level > self.depth {
            return FieldElement::zero();
        }
        if let Some(cached) = self.get_cached_node(target_level, node_index) {
            return cached;
        }
        proof {
            assert(self.leaves_view().len() == self.leaves@.len());
            vstd::arithmetic::power2::lemma2_to64();
        }
        if target_level == 0 {
            if node_index < self.get_leaf_count() {
                proof {
                    assert(node_index * pow2(0) == node_index);
                }
                self.leaves[node_index as usize]
            } else {
                self.empty_leaf_scalar()
            }
        } else {
            proof {
                // a non-empty subtree above height zero sits within the leaf count
                lemma_pow2_unfold(target_level as nat);
                lemma_pow2_pos((target_level - 1) as nat);
                let p = pow2((target_level - 1) as nat);
                assert(node_index * 2 <= node_index * pow2(target_level as nat)) by (nonlinear_arith)
                    requires
                        pow2(target_level as nat) == 2 * p,
                        p >= 1,
                ;
            }
            let left = self.compute_node_at_level(node_index * 2, target_level - 1);
            let right = self.compute_node_at_level(node_index * 2 + 1, target_level - 1);
            poseidon_hash_2(left, right)
        }
    }

    /// The authentication path of leaf `leaf_index`: the sibling at every
    /// height below the root, bottom first, and the height. `None` past the
    /// last leaf.
    pub fn generate_proof(&self, leaf_index: u32) -> (r: Option<(Vec<FieldElement>, u32)>)
        requires
            self.well_formed(),
        ensures
            r is Some <==> leaf_index < self.leaves_view().len(),
            r matches Some((siblings, d)) ==> {
                &&& d as nat == self.depth_view()
                &&& siblings@.len() == self.depth_view()
                &&& forall|l: int|
                    0 <= l < siblings@.len() ==> #[trigger] siblings@[l]@ == self.proof_sibling(
                        leaf_index as nat,
                        l as nat,
                    )
            },
            r matches Some((siblings, d)) ==> (self.is_synced() ==> fold_path(
                self.leaves_view()[leaf_index as int],
                leaf_index as nat,
                siblings@.map_values(|f: FieldElement| f@),
                self.depth_view(),
            ) == self.root_view()),
    {
        if leaf_index >= self.get_leaf_count() {
            return None;
        }
        let ghost leaves = self.leaves_view();
        proof {
            assert(leaves.len() == self.leaves@.len());
        }
        let mut siblings: Vec<FieldElement> = Vec::new();
        if self.depth == 1 && self.get_leaf_count() == 2 {
            proof {
                crate::merkle_spec::lemma_ancestor_step(leaf_index as nat, 0);
            }
            if leaf_index == 0 {
                siblings.push(self.leaves[1]);
            } else {
                siblings.push(self.leaves[0]);
            }
        } else {
            let mut current_index = leaf_index;
            let mut current_depth = 0u32;
            proof {
                crate::merkle_spec::lemma_ancestor_step(leaf_index as nat, 0);
            }
            while current_depth < self.depth
                invariant
                    self.well_formed(),
                    leaves == self.leaves_view(),
                    leaves.len() == self.leaves@.len(),
                    leaf_index < leaves.len(),
                    current_depth <= self.depth,
                    current_index <= leaf_index,
                    current_index as nat == crate::merkle_spec::ancestor(
                        leaf_index as nat,
                        current_depth as nat,
                    ),
                    siblings@.len() == current_depth,
                    forall|l: int|
                        0 <= l < siblings@.len() ==> #[trigger] siblings@[l]@
                            == self.proof_sibling(leaf_index as nat, l as nat),
                decreases self.depth - current_depth,
            {
                let sibling_index = if current_index % 2 == 0 {
                    current_index + 1
                } else {
                    current_index - 1
                };
                let sibling = if current_depth == 0 {
                    if sibling_index < self.get_leaf_count() {
                        self.leaves[sibling_index as usize]
                    } else {
                        self.empty_leaf_scalar()
                    }
                } else {
                    self.compute_node_at_level(sibling_index, current_depth)
                };
                siblings.push(sibling);
                proof {
                    crate::merkle_spec::lemma_ancestor_step(
                        leaf_index as nat,
                        current_depth as nat,
                    );
                    vstd::arithmetic::div_mod::lemma_div_is_ordered(
                        current_index as int / 2,
                        current_index as int,
                        1,
                    );
                }
                current_index = current_index / 2;
                current_depth = current_depth + 1;
            }
        }
        proof {
            if self.is_synced() {
                let values = siblings@.map_values(|f: FieldElement| f@);
                assert forall|l: int| 0 <= l < values.len() implies #[trigger] values[l]
                    == self.proof_sibling(leaf_index as nat, l as nat) by {
                    assert(values[l] == siblings@[l]@);
                }
                lemma_synced_path_reaches_root(*self, leaf_index as nat, values);
            }
        }
        Some((siblings, self.depth))
    }

    /// Fills the all-zero subtree roots for heights `0..=depth` and sets the
    /// root to the all-zero root of the full height (zero at height zero,
    /// where nothing is kept).
    fn recompute_tree(&mut self)
        requires
            old(self).subtree_cache@.len() == 0,
        ensures
            final(self).leaves == old(self).leaves,
            final(self).depth == old(self).depth,
            final(self).capacity == old(self).capacity,
            final(self).sparse_cache == old(self).sparse_cache,
            final(self).root@ == zero_hash(old(self).depth as nat),
            if old(self).depth == 0 {
                final(self).subtree_cache@.len() == 0
            } else {
                final(self).subtree_cache@.len() == old(self).depth + 1
            },
            forall|l: int|
                0 <= l < final(self).subtree_cache@.len() ==> #[trigger] final(self).subtree_cache@[l]@
                    == zero_hash(l as nat),
    {
        if self.depth == 0 {
            self.root = FieldElement::zero();
            return;
        }
        let zero = FieldElement::zero();
        let mut current = zero;
        let mut level: u64 = 0;
        while level <= self.depth as u64
            invariant
                self.leaves == old(self).leaves,
                self.depth == old(self).depth,
                self.capacity == old(self).capacity,
                self.sparse_cache == old(self).sparse_cache,
                self.depth > 0,
                level <= self.depth as u64 + 1,
                zero@ == 0,
                self.subtree_cache@.len() == level,
                level > 0 ==> current@ == zero_hash((level - 1) as nat),
                forall|l: int|
                    0 <= l < self.subtree_cache@.len() ==> #[trigger] self.subtree_cache@[l]@
                        == zero_hash(l as nat),
            decreases self.depth as u64 + 1 - level,
        {
            if level == 0 {
                current = zero;
            } else {
                current = poseidon_hash_2(current, current);
            }
            self.subtree_cache.push(current);
            level = level + 1;
        }
        self.root = current;
    }

    /// An empty tree of height `depth`: capacity `2^depth` (at most
    /// `u32::MAX`), no leaves, no cached nodes, and the all-zero root.
    pub fn new(depth: u32) -> (t: LeanIMT)
        ensures
            t.well_formed(),
            t.depth_view() == depth,
            t.leaves_view() == Seq::<nat>::empty(),
            t.node_cache() == Map::<(nat, nat), nat>::empty(),
            t.root_view() == zero_hash(depth as nat),
            t.is_synced(),
            t.built_by_appends(),
    {
        let capacity: u32 = if depth < 32 {
            proof {
                vstd::bits::lemma_u32_pow2_no_overflow(depth as nat);
                vstd::bits::lemma_u32_shl_is_mul(1, depth);
            }
            1u32 << depth
        } else {
            u32::MAX
        };
        let mut tree = LeanIMT {
            leaves: Vec::new(),
            depth,
            capacity,
            root: FieldElement::zero(),
            subtree_cache: Vec::new(),
            sparse_cache: BTreeMap::new(),
        };
        tree.recompute_tree();
        proof {
            assert(tree.leaves_view() =~= Seq::<nat>::empty());
            assert(tree.node_cache() =~= Map::<(nat, nat), nat>::empty());
            assert(appended_cache(tree.leaves_view(), depth as nat) =~= Map::<(nat, nat), nat>::empty());
            assert(0 * pow2(depth as nat) == 0);
            crate::merkle_spec::lemma_empty_subtree(tree.leaves_view(), depth as nat, 0);
        }
        tree
    }

    /// The position of the ancestor of leaf `i` at height `level`.
    fn ancestor_index(i: u32, level: u32) -> (r: u32)
        ensures
            r as nat == crate::merkle_spec::ancestor(i as nat, level as nat),
    {
        if level >= 32 {
            proof {
                vstd::arithmetic::power2::lemma2_to64();
                if level > 32 {
                    vstd::arithmetic::power2::lemma_pow2_strictly_increases(32, level as nat);
                }
                vstd::arithmetic::div_mod::lemma_basic_div(i as int, pow2(level as nat) as int);
            }
            0
        } else {
            proof {
                vstd::bits::lemma_u32_shr_is_div(i, level);
            }
            i >> level
        }
    }

    /// A child's value during an append: the cached value, else the computed one.
    fn get_node_scalar_during_batch(&self, level: u32, index: u32) -> (r: FieldElement)
        requires
            self.well_formed(),
        ensures
            r@ == batch_value(
                self.leaves_view(),
                self.depth_view(),
                self.node_cache(),
                level as nat,
                index as nat,
            ),
    {
        if let Some(s) = self.cache_get(level, index) {
            return s;
        }
        self.compute_node_at_level(index, level)
    }

    /// Recomputes node `(level, index)` from the leaves or its children and caches it.
    fn recompute_sparse_node_at_level(&mut self, level: u32, index: u32)
        requires
            old(self).well_formed(),
            level > 0 ==> index < 0x8000_0000,
        ensures
            final(self).well_formed(),
            final(self).leaves == old(self).leaves,
            final(self).depth == old(self).depth,
            final(self).root == old(self).root,
            final(self).node_cache() == old(self).node_cache().insert(
                (level as nat, index as nat),
                refreshed_node(
                    old(self).leaves_view(),
                    old(self).depth_view(),
                    old(self).node_cache(),
                    level as nat,
                    index as nat,
                ),
            ),
    {
        let scalar = if level == 0 {
            if index < self.get_leaf_count() {
                self.leaves[index as usize]
            } else {
                self.empty_leaf_scalar()
            }
        } else {
            let left = self.get_node_scalar_during_batch(level - 1, index * 2);
            let right = self.get_node_scalar_during_batch(level - 1, index * 2 + 1);
            poseidon_hash_2(left, right)
        };
        proof {
            assert(self.leaves_view().len() == self.leaves@.len());
        }
        self.cache_insert(level, index, scalar);
    }

    /// Rewrites the cache and the root after the last two leaves were appended:
    /// both leaves at height zero, then at each height up to the root the
    /// ancestors of the two leaves; the root is the cached top node.
    fn incremental_update_two(&mut self)
        requires
            old(self).well_formed(),
            old(self).leaves@.len() >= 2,
        ensures
            final(self).well_formed(),
            final(self).leaves == old(self).leaves,
            final(self).depth == old(self).depth,
            final(self).node_cache() == cache_after_append(
                old(self).leaves_view(),
                old(self).depth_view(),
                old(self).node_cache(),
                (old(self).leaves_view().len() - 2) as nat,
                old(self).depth_view(),
            ),
            final(self).root_view() == final(self).node_cache()[(old(self).depth_view(), 0)],
    {
        let ghost leaves = self.leaves_view();
        let ghost base = self.node_cache();
        let ghost depth = self.depth_view();
        proof {
            assert(leaves.len() == self.leaves@.len());
        }
        let i0 = self.leaves.len() as u32 - 2;
        let i1 = self.leaves.len() as u32 - 1;
        let v0 = self.leaves[i0 as usize];
        self.cache_insert(0, i0, v0);
        let v1 = self.leaves[i1 as usize];
        self.cache_insert(0, i1, v1);
        proof {
            assert(self.node_cache() == cache_after_append(leaves, depth, base, i0 as nat, 0));
            // the leaves fit below the root, so the depth is at least one
            if self.depth == 0 {
                vstd::arithmetic::power2::lemma2_to64();
            }
        }
        let mut level: u64 = 1;
        while level <= self.depth as u64
            invariant
                self.well_formed(),
                self.leaves == old(self).leaves,
                self.depth == old(self).depth,
                leaves == self.leaves_view(),
                depth == self.depth_view(),
                base == old(self).node_cache(),
                i0 as nat == leaves.len() - 2,
                i1 == i0 + 1,
                1 <= level <= self.depth as u64 + 1,
                self.node_cache() == cache_after_append(
                    leaves,
                    depth,
                    base,
                    i0 as nat,
                    (level - 1) as nat,
                ),
            decreases self.depth as u64 + 1 - level,
        {
            let lvl = level as u32;
            let a = Self::ancestor_index(i0, lvl);
            let b = Self::ancestor_index(i1, lvl);
            proof {
                vstd::arithmetic::power2::lemma2_to64();
                lemma_pow2_unfold(lvl as nat);
                lemma_pow2_pos((lvl - 1) as nat);
                vstd::arithmetic::div_mod::lemma_div_is_ordered(i0 as int, i1 as int, pow2(lvl as nat) as int);
                vstd::arithmetic::div_mod::lemma_div_is_ordered(i1 as int, 0xffff_ffff, pow2(lvl as nat) as int);
                vstd::arithmetic::div_mod::lemma_div_is_ordered_by_denominator(0xffff_ffff, 2, pow2(lvl as nat) as int);
            }
            if a == b {
                self.recompute_sparse_node_at_level(lvl, a);
            } else {
                let lo = if a < b { a } else { b };
                let hi = if a < b { b } else { a };
                self.recompute_sparse_node_at_level(lvl, lo);
                self.recompute_sparse_node_at_level(lvl, hi);
            }
            level = level + 1;
        }
        proof {
            assert(leaves.len() <= pow2(depth)) by {
                vstd::arithmetic::power2::lemma2_to64();
                if depth > 32 {
                    vstd::arithmetic::power2::lemma_pow2_strictly_increases(32, depth);
                }
            }
            crate::merkle_spec::lemma_append_touches_top(leaves, depth, base, i0 as nat);
        }
        self.root = match self.cache_get(self.depth, 0) {
            Some(v) => v,
            None => {
                if (self.depth as usize) < self.subtree_cache.len() {
                    self.subtree_cache[self.depth as usize]
                } else {
                    FieldElement::zero()
                }
            },
        };
    }

    /// Appends two leaves and rewrites the root and the cache on their paths.
    /// Refused, leaving the tree as it was, when the two would not fit.
    pub fn insert_two(&mut self, leaf_a: FieldElement, leaf_b: FieldElement) -> (r: Result<
        (),
        &'static str,
    >)
        requires
            old(self).well_formed(),
        ensures
            final(self).well_formed(),
            r is Err <==> old(self).leaves_view().len() + 2 > capacity_for(old(self).depth_view()),
            r matches Err(e) ==> *final(self) == *old(self) && e@ == "Tree is at capacity"@,
            r is Ok ==> {
                let leaves = old(self).leaves_view().push(leaf_a@).push(leaf_b@);
                let cache = cache_after_append(
                    leaves,
                    old(self).depth_view(),
                    old(self).node_cache(),
                    old(self).leaves_view().len(),
                    old(self).depth_view(),
                );
                &&& final(self).leaves_view() == leaves
                &&& final(self).depth_view() == old(self).depth_view()
                &&& final(self).node_cache() == cache
                &&& final(self).root_view() == cache[(old(self).depth_view(), 0)]
            },
            r is Ok && old(self).is_synced() ==> final(self).is_synced(),
            r is Ok && old(self).is_synced() ==> final(self).root_view() == merkle_root(
                final(self).leaves_view(),
                final(self).depth_view(),
            ),
            r is Ok && old(self).built_by_appends() ==> final(self).built_by_appends(),
    {
        proof {
            assert(self.leaves_view().len() == self.leaves@.len());
        }
        if self.leaves.len() as u64 + 2 > self.capacity as u64 {
            return Err("Tree is at capacity");
        }
        let ghost old_leaves = self.leaves_view();
        self.leaves.push(leaf_a);
        self.leaves.push(leaf_b);
        proof {
            assert(self.leaves_view() =~= old_leaves.push(leaf_a@).push(leaf_b@));
        }
        self.incremental_update_two();
        proof {
            if old(self).is_synced() {
                let new_leaves = old_leaves.push(leaf_a@).push(leaf_b@);
                let d = old(self).depth_view();
                assert(new_leaves.len() <= pow2(d)) by {
                    if d >= 32 {
                        vstd::arithmetic::power2::lemma2_to64();
                        if d > 32 {
                            vstd::arithmetic::power2::lemma_pow2_strictly_increases(32, d);
                        }
                    }
                }
                crate::merkle_spec::lemma_append_keeps_cache(
                    old_leaves,
                    new_leaves,
                    d,
                    old(self).node_cache(),
                );
                assert(new_leaves.drop_last().drop_last() =~= old_leaves);
            }
        }
        Ok(())
    }

    /// The tree as text: height, root, leaves and every cached node as
    /// decimal numerals, the nodes ordered by height, then position.
    pub fn export_snapshot(&self) -> (s: LeanImtSnapshot)
        requires
            self.well_formed(),
        ensures
            snapshot_of(s, *self),
    {
        let mut nodes: Vec<LeanImtNode> = Vec::new();
        let ghost cache = self.node_cache();
        let iter = self.sparse_cache.iter();
        let ghost items = vstd::std_specs::iter::IteratorSpec::remaining(&iter);
        let ghost keys = items.map_values(|kv: (&u64, &FieldElement)| *kv.0);
        proof {
            assert(vstd::std_specs::btree::increasing_seq(keys));
            assert(iter == vstd::std_specs::btree::spec_btree_map_iter(&self.sparse_cache));
        }
        for item in it: iter
            invariant
                cache == self.node_cache(),
                it.seq() == items,
                items == vstd::std_specs::iter::IteratorSpec::remaining(
                    &vstd::std_specs::btree::spec_btree_map_iter(&self.sparse_cache),
                ),
                forall|i: int|
                    0 <= i < nodes@.len() ==> {
                        let n = #[trigger] nodes@[i];
                        &&& n.level as nat * 0x1_0000_0000 + n.index as nat == *it.seq()[i].0
                        &&& cache.contains_key((n.level as nat, n.index as nat))
                        &&& n.value@ == decimal_digits(cache[(n.level as nat, n.index as nat)])
                        &&& decimal_value(n.value@) == Some(
                            cache[(n.level as nat, n.index as nat)],
                        )
                    },
                nodes@.len() == it.index(),
        {
            let (k, v) = item;
            assert(self.sparse_cache@.contains_key(*k));
            assert(self.sparse_cache@[*k] == *v);
            let level = (*k / 0x1_0000_0000) as u32;
            let index = (*k % 0x1_0000_0000) as u32;
            let value = fr_to_decimal(v);
            nodes.push(LeanImtNode { level, index, value });
        }
        assert(nodes@.len() == items.len());
        proof {
            assert forall|i: int, j: int|
                0 <= i < j < nodes@.len() implies node_key(
                nodes@[i].level as nat,
                nodes@[i].index as nat,
            ) < node_key(nodes@[j].level as nat, nodes@[j].index as nat) by {
                assert(keys[i] == *items[i].0);
                assert(keys[j] == *items[j].0);
                lemma_increasing_keys(keys, i, j);
                assert(nodes@[i].level as nat * 0x1_0000_0000 + nodes@[i].index as nat == keys[i]);
            }
            assert forall|p: (nat, nat)| #[trigger] cache.contains_key(p) implies exists|i: int|
                0 <= i < nodes@.len() && nodes@[i].level == p.0 && nodes@[i].index == p.1 by {
                let k = node_key(p.0, p.1) as u64;
                assert(self.sparse_cache@.contains_key(k));
                assert(items.contains((&k, &self.sparse_cache@[k])));
                let i = choose|i: int| 0 <= i < items.len() && items[i] == (&k, &self.sparse_cache@[k]);
                let n = nodes@[i];
                lemma_node_key_injective(n.level as nat, n.index as nat, p.0, p.1);
            }
        }
        let mut leaves: Vec<String> = Vec::new();
        let n = self.leaves.len();
        for i in 0..n
            invariant
                n == self.leaves@.len(),
                leaves@.len() == i,
                forall|j: int|
                    0 <= j < i ==> #[trigger] leaves@[j]@ == decimal_digits(self.leaves@[j]@)
                        && decimal_value(leaves@[j]@) == Some(self.leaves@[j]@),
        {
            leaves.push(fr_to_decimal(&self.leaves[i]));
        }
        let s = LeanImtSnapshot { depth: self.depth, root: fr_to_decimal(&self.root), leaves, nodes };
        s
    }

    /// Rebuilds a tree from its text. Refused, in this order, when the number
    /// of leaves is odd, when a leaf is not a decimal field element, when the
    /// leaves exceed the capacity of the height, when a node value or the root
    /// is not a decimal field element; otherwise the tree has the given height,
    /// leaves, cached nodes (a later node overriding an earlier one at the same
    /// place) and root, taken as they are.
    pub fn from_snapshot(snapshot: &LeanImtSnapshot) -> (r: Result<LeanIMT, String>)
        ensures
            snapshot_outcome(*snapshot, r),
    {
        let n = snapshot.leaves.len();
        if n % 2 != 0 {
            let msg = String::from_str("expected an even number of leaves, got ");
            let count = u64_to_decimal(n as u64);
            return Err(msg.concat(count.as_str()));
        }
        let mut tree = Self::new(snapshot.depth);
        let mut leaves: Vec<FieldElement> = Vec::new();
        let mut i: usize = 0;
        while i < n
            invariant
                n == snapshot.leaves@.len(),
                n % 2 == 0,
                0 <= i <= n,
                leaves@.len() == i,
                forall|j: int| 0 <= j < i ==> decimal_value(#[trigger] snapshot.leaves@[j]@) is Some,
                forall|j: int|
                    0 <= j < i ==> #[trigger] leaves@[j]@ == decimal_value(snapshot.leaves@[j]@)->0,
            decreases n - i,
        {
            match decimal_to_fr_result(snapshot.leaves[i].as_str()) {
                Ok(f) => leaves.push(f),
                Err(e) => {
                    proof {
                        assert(first_undecimal(snapshot.leaves@, i as int));
                        assert(!all_decimal(snapshot.leaves@));
                        assert(e@ == undecimal_message(snapshot.leaves@[i as int]@));
                        assert(exists|i2: int|
                            first_undecimal(snapshot.leaves@, i2) && e@ == undecimal_message(
                                snapshot.leaves@[i2]@,
                            ));
                        assert(snapshot_outcome(*snapshot, Err(e)));
                    }
                    return Err(e);
                },
            }
            i = i + 1;
        }
        proof {
            assert(decimal_values(snapshot.leaves@) =~= leaves@.map_values(|f: FieldElement| f@));
        }
        proof {
            assert(all_decimal(snapshot.leaves@));
        }
        if leaves.len() as u64 > tree.capacity as u64 {
            return Err(String::from_str("snapshot exceeds tree capacity"));
        }
        tree.leaves = leaves;
        tree.sparse_cache.clear();
        proof {
            assert(tree.node_cache() =~= Map::<(nat, nat), nat>::empty());
        }
        let m = snapshot.nodes.len();
        let mut k: usize = 0;
        while k < m
            invariant
                m == snapshot.nodes@.len(),
                0 <= k <= m,
                snapshot.leaves@.len() % 2 == 0,
                all_decimal(snapshot.leaves@),
                snapshot.leaves@.len() <= capacity_for(snapshot.depth as nat),
                tree.well_formed(),
                tree.depth == snapshot.depth,
                tree.leaves_view() == decimal_values(snapshot.leaves@),
                forall|j: int|
                    0 <= j < k ==> decimal_value(#[trigger] snapshot.nodes@[j].value@) is Some,
                tree.node_cache() == cache_of_nodes(snapshot.nodes@.take(k as int)),
            decreases m - k,
        {
            let node = &snapshot.nodes[k];
            match decimal_to_fr_result(node.value.as_str()) {
                Ok(v) => {
                    tree.cache_insert(node.level, node.index, v);
                    proof {
                        assert(snapshot.nodes@.take(k + 1).drop_last() =~= snapshot.nodes@.take(
                            k as int,
                        ));
                    }
                },
                Err(e) => {
                    proof {
                        let values = node_values(snapshot.nodes@);
                        assert(values[k as int] == node.value);
                        assert forall|j: int| 0 <= j < k implies decimal_value(
                            #[trigger] values[j]@,
                        ) is Some by {
                            assert(values[j] == snapshot.nodes@[j].value);
                        }
                        assert(first_undecimal(values, k as int));
                        assert(!all_decimal(values));
                        assert(e@ == undecimal_message(values[k as int]@));
                    }
                    return Err(e);
                },
            }
            k = k + 1;
        }
        proof {
            assert(snapshot.nodes@.take(m as int) =~= snapshot.nodes@);
            let values = node_values(snapshot.nodes@);
            assert forall|j: int| 0 <= j < values.len() implies decimal_value(
                #[trigger] values[j]@,
            ) is Some by {
                assert(values[j] == snapshot.nodes@[j].value);
            }
            assert(all_decimal(values));
        }
        match decimal_to_fr_result(snapshot.root.as_str()) {
            Ok(root) => {
                tree.root = root;
            },
            Err(e) => {
                return Err(e);
            },
        }
        Ok(tree)
    }
}

/// The cache that nodes describe, when each node names a cached place and
/// carries the numeral of its value: exactly the places named, with the
/// cached values.
proof fn lemma_cache_of_nodes(nodes: Seq<LeanImtNode>, cache: Map<(nat, nat), nat>)
    requires
        forall|i: int|
            0 <= i < nodes.len() ==> {
                let n = #[trigger] nodes[i];
                &&& cache.contains_key((n.level as nat, n.index as nat))
                &&& decimal_value(n.value@) == Some(cache[(n.level as nat, n.index as nat)])
            },
    ensures
        forall|p: (nat, nat)|
            #[trigger] cache_of_nodes(nodes).contains_key(p) <==> exists|i: int|
                0 <= i < nodes.len() && nodes[i].level == p.0 && nodes[i].index == p.1,
        forall|p: (nat, nat)|
            #[trigger] cache_of_nodes(nodes).contains_key(p) ==> cache_of_nodes(nodes)[p] == cache[p],
    decreases nodes.len(),
{
    if nodes.len() > 0 {
        let init = nodes.drop_last();
        lemma_cache_of_nodes(init, cache);
        let c = cache_of_nodes(nodes);
        assert forall|p: (nat, nat)|
            #[trigger] c.contains_key(p) <==> exists|i: int|
                0 <= i < nodes.len() && nodes[i].level == p.0 && nodes[i].index == p.1 by {
            if c.contains_key(p) {
                if p == (nodes.last().level as nat, nodes.last().index as nat) {
                    assert(nodes[nodes.len() - 1] == nodes.last());
                } else {
                    assert(cache_of_nodes(init).contains_key(p));
                    let i = choose|i: int|
                        0 <= i < init.len() && init[i].level == p.0 && init[i].index == p.1;
                    assert(nodes[i] == init[i]);
                }
            }
            if exists|i: int| 0 <= i < nodes.len() && nodes[i].level == p.0 && nodes[i].index == p.1 {
                let i = choose|i: int|
                    0 <= i < nodes.len() && nodes[i].level == p.0 && nodes[i].index == p.1;
                if i < init.len() {
                    assert(init[i] == nodes[i]);
                    assert(cache_of_nodes(init).contains_key(p));
                } else {
                    assert(nodes[i] == nodes.last());
                }
            }
        }
        let last = nodes[nodes.len() - 1];
        assert(last == nodes.last());
        assert(decimal_value(last.value@) == Some(cache[(last.level as nat, last.index as nat)]));
        assert forall|p: (nat, nat)| #[trigger] c.contains_key(p) implies c[p] == cache[p] by {
            if p != (last.level as nat, last.index as nat) {
                assert(cache_of_nodes(init).contains_key(p));
            }
        }
    }
}

/// A tree holds an even number of leaves, at most its capacity.
pub proof fn lemma_leaf_count_bound(t: LeanIMT)
    requires
        t.well_formed(),
    ensures
        t.leaves_view().len() <= capacity_for(t.depth_view()),
        t.leaves_view().len() % 2 == 0,
{
    assert(t.leaves_view().len() == t.leaves@.len());
}

/// Restoring a tree from its own snapshot succeeds and gives back its
/// height, leaves, cached nodes and root.
pub proof fn lemma_snapshot_round_trip(t: LeanIMT, s: LeanImtSnapshot)
    requires
        t.well_formed(),
        snapshot_of(s, t),
    ensures
        s.leaves@.len() % 2 == 0,
        all_decimal(s.leaves@),
        s.leaves@.len() <= capacity_for(s.depth as nat),
        all_decimal(node_values(s.nodes@)),
        decimal_value(s.root@) == Some(t.root_view()),
        decimal_values(s.leaves@) == t.leaves_view(),
        cache_of_nodes(s.nodes@) == t.node_cache(),
{
    assert(t.leaves_view().len() == t.leaves@.len());
    assert forall|i: int| 0 <= i < s.leaves@.len() implies decimal_value(
        #[trigger] s.leaves@[i]@,
    ) is Some by {}
    let values = node_values(s.nodes@);
    assert forall|i: int| 0 <= i < values.len() implies decimal_value(#[trigger] values[i]@) is Some by {
        assert(values[i] == s.nodes@[i].value);
    }
    assert(decimal_values(s.leaves@) =~= t.leaves_view());
    lemma_cache_of_nodes(s.nodes@, t.node_cache());
    assert(cache_of_nodes(s.nodes@) =~= t.node_cache());
}

/// Restoring the snapshot of a tree gives the tree back: the same height,
/// leaves, cached nodes and root, so every path it reports is the same.
pub proof fn lemma_restore_own_snapshot(t: LeanIMT, s: LeanImtSnapshot, r: Result<LeanIMT, String>)
    requires
        t.well_formed(),
        snapshot_of(s, t),
        snapshot_outcome(s, r),
    ensures
        r matches Ok(u) && {
            &&& u.well_formed()
            &&& u.depth_view() == t.depth_view()
            &&& u.leaves_view() == t.leaves_view()
            &&& u.node_cache() == t.node_cache()
            &&& u.root_view() == t.root_view()
            &&& u.is_synced() == t.is_synced()
            &&& forall|i: nat, l: nat| #[trigger] u.proof_sibling(i, l) == t.proof_sibling(i, l)
        },
{
    lemma_snapshot_round_trip(t, s);
}

/// The snapshot of a tree built by appends lists exactly the path nodes of
/// its leaves, each with the decimal numeral of its Merkle value.
pub proof fn lemma_export_path_nodes(t: LeanIMT, s: LeanImtSnapshot)
    requires
        t.well_formed(),
        t.built_by_appends(),
        snapshot_of(s, t),
    ensures
        forall|i: int|
            0 <= i < s.nodes@.len() ==> {
                let n = #[trigger] s.nodes@[i];
                &&& path_node(
                    t.leaves_view().len(),
                    t.depth_view(),
                    (n.level as nat, n.index as nat),
                )
                &&& n.value@ == decimal_digits(
                    merkle_node(t.leaves_view(), n.level as nat, n.index as nat),
                )
            },
        forall|p: (nat, nat)|
            #[trigger] path_node(t.leaves_view().len(), t.depth_view(), p) ==> exists|i: int|
                0 <= i < s.nodes@.len() && s.nodes@[i].level == p.0 && s.nodes@[i].index == p.1,
{
    let leaves = t.leaves_view();
    let depth = t.depth_view();
    lemma_leaf_count_bound(t);
    assert forall|i: int| 0 <= i < s.nodes@.len() implies {
        let n = #[trigger] s.nodes@[i];
        &&& path_node(leaves.len(), depth, (n.level as nat, n.index as nat))
        &&& n.value@ == decimal_digits(merkle_node(leaves, n.level as nat, n.index as nat))
    } by {
        let n = s.nodes@[i];
        let p = (n.level as nat, n.index as nat);
        lemma_appended_domain(leaves, depth, p);
        assert(t.node_cache().contains_key(p));
        assert(t.node_cache()[(p.0, p.1)] == merkle_node(leaves, p.0, p.1));
    }
    assert forall|p: (nat, nat)| #[trigger] path_node(leaves.len(), depth, p) implies exists|i: int|
        0 <= i < s.nodes@.len() && s.nodes@[i].level == p.0 && s.nodes@[i].index == p.1 by {
        lemma_appended_domain(leaves, depth, p);
        assert(t.node_cache().contains_key(p));
    }
}

/// Whether a text is the canonical decimal numeral of a field element.
pub open spec fn canonical_decimal(s: Seq<char>) -> bool {
    decimal_value(s) is Some && s == decimal_digits(decimal_value(s)->0)
}

/// The cache key of a snapshot node.
pub open spec fn key_of_node(n: LeanImtNode) -> nat {
    node_key(n.level as nat, n.index as nat)
}

/// Whether a snapshot is written the way `export_snapshot` writes one: every
/// number a canonical decimal numeral, the nodes in strictly increasing
/// order of height, then position.
pub open spec fn canonical_snapshot(s: LeanImtSnapshot) -> bool {
    &&& canonical_decimal(s.root@)
    &&& forall|i: int| 0 <= i < s.leaves@.len() ==> canonical_decimal(#[trigger] s.leaves@[i]@)
    &&& forall|i: int|
        0 <= i < s.nodes@.len() ==> canonical_decimal((#[trigger] s.nodes@[i]).value@)
    &&& forall|i: int, j: int|
        0 <= i < j < s.nodes@.len() ==> key_of_node(s.nodes@[i]) < key_of_node(s.nodes@[j])
}

/// Nodes in strictly increasing key order describe a cache holding each of
/// them, with its own value, and nothing else.
proof fn lemma_cache_of_ordered_nodes(nodes: Seq<LeanImtNode>)
    requires
        forall|i: int, j: int|
            0 <= i < j < nodes.len() ==> key_of_node(nodes[i]) < key_of_node(nodes[j]),
    ensures
        forall|i: int|
            0 <= i < nodes.len() ==> {
                let n = #[trigger] nodes[i];
                &&& cache_of_nodes(nodes).contains_key((n.level as nat, n.index as nat))
                &&& cache_of_nodes(nodes)[(n.level as nat, n.index as nat)] == decimal_value(
                    n.value@,
                )->0
            },
        forall|p: (nat, nat)|
            #[trigger] cache_of_nodes(nodes).contains_key(p) ==> exists|i: int|
                0 <= i < nodes.len() && nodes[i].level == p.0 && nodes[i].index == p.1,
    decreases nodes.len(),
{
    if nodes.len() > 0 {
        let init = nodes.drop_last();
        let last = nodes[nodes.len() - 1];
        assert(last == nodes.last());
        lemma_cache_of_ordered_nodes(init);
        let c = cache_of_nodes(nodes);
        assert forall|i: int| 0 <= i < nodes.len() implies {
            let n = #[trigger] nodes[i];
            &&& c.contains_key((n.level as nat, n.index as nat))
            &&& c[(n.level as nat, n.index as nat)] == decimal_value(n.value@)->0
        } by {
            if i < nodes.len() - 1 {
                assert(init[i] == nodes[i]);
                assert(key_of_node(nodes[i]) < key_of_node(last));
            }
        }
        assert forall|p: (nat, nat)| #[trigger] c.contains_key(p) implies exists|i: int|
            0 <= i < nodes.len() && nodes[i].level == p.0 && nodes[i].index == p.1 by {
            if p != (last.level as nat, last.index as nat) {
                assert(cache_of_nodes(init).contains_key(p));
                let i = choose|i: int|
                    0 <= i < init.len() && init[i].level == p.0 && init[i].index == p.1;
                assert(nodes[i] == init[i]);
            }
        }
    }
}

/// Whether `x` occurs in `s`.
#[verifier::opaque]
spec fn occurs_in(x: nat, s: Seq<nat>) -> bool {
    exists|j: int| 0 <= j < s.len() && s[j] == x
}

/// A place where `x` occurs in `s`.
proof fn lemma_occurrence(x: nat, s: Seq<nat>) -> (j: int)
    requires
        occurs_in(x, s),
    ensures
        0 <= j < s.len(),
        s[j] == x,
{
    reveal(occurs_in);
    choose|j: int| 0 <= j < s.len() && s[j] == x
}

/// An element of `s` occurs in it.
proof fn lemma_occurs_at(s: Seq<nat>, j: int)
    requires
        0 <= j < s.len(),
    ensures
        occurs_in(s[j], s),
{
    reveal(occurs_in);
}

/// Two strictly increasing sequences with the same members agree on their
/// first `k` places.
proof fn lemma_sorted_prefix(a: Seq<nat>, b: Seq<nat>, k: nat)
    requires
        k <= a.len(),
        k <= b.len(),
        forall|i: int, j: int| 0 <= i < j < a.len() ==> a[i] < a[j],
        forall|i: int, j: int| 0 <= i < j < b.len() ==> b[i] < b[j],
        forall|i: int| 0 <= i < a.len() ==> occurs_in(#[trigger] a[i], b),
        forall|j: int| 0 <= j < b.len() ==> occurs_in(#[trigger] b[j], a),
    ensures
        forall|m: int| 0 <= m < k ==> a[m] == b[m],
    decreases k,
{
    if k > 0 {
        let m = k - 1;
        lemma_sorted_prefix(a, b, m as nat);
        let j = lemma_occurrence(a[m], b);
        let i = lemma_occurrence(b[m], a);
        if j < m {
            assert(a[j] == b[j]);
        }
        if i < m {
            assert(a[i] == b[i]);
        }
    }
}

/// Two strictly increasing sequences with the same members are equal.
proof fn lemma_sorted_same_members(a: Seq<nat>, b: Seq<nat>)
    requires
        forall|i: int, j: int| 0 <= i < j < a.len() ==> a[i] < a[j],
        forall|i: int, j: int| 0 <= i < j < b.len() ==> b[i] < b[j],
        forall|i: int| 0 <= i < a.len() ==> occurs_in(#[trigger] a[i], b),
        forall|j: int| 0 <= j < b.len() ==> occurs_in(#[trigger] b[j], a),
    ensures
        a == b,
{
    if a.len() < b.len() {
        lemma_sorted_prefix(a, b, a.len());
        let m = a.len() as int;
        let i = lemma_occurrence(b[m], a);
        assert(a[i] == b[i]);
    } else if b.len() < a.len() {
        lemma_sorted_prefix(a, b, b.len());
        let m = b.len() as int;
        let j = lemma_occurrence(a[m], b);
        assert(a[j] == b[j]);
    } else {
        lemma_sorted_prefix(a, b, a.len());
    }
    assert(a =~= b);
}

/// Exporting a tree restored from a canonical snapshot gives that snapshot
/// back, as text.
pub proof fn lemma_export_restored_snapshot(s: LeanImtSnapshot, t: LeanIMT, s2: LeanImtSnapshot)
    requires
        canonical_snapshot(s),
        snapshot_outcome(s, Ok(t)),
        snapshot_of(s2, t),
    ensures
        same_snapshot(s2, s),
{
    let cache = t.node_cache();
    assert(cache == cache_of_nodes(s.nodes@));
    assert forall|j: int| 0 <= j < s2.leaves@.len() implies #[trigger] s2.leaves@[j]@ == s.leaves@[j]@ by {
        assert(t.leaves_view()[j] == decimal_values(s.leaves@)[j]);
        assert(canonical_decimal(s.leaves@[j]@));
    }
    lemma_cache_of_ordered_nodes(s.nodes@);
    let a = s.nodes@.map_values(|n: LeanImtNode| key_of_node(n));
    let b = s2.nodes@.map_values(|n: LeanImtNode| key_of_node(n));
    assert forall|i: int| 0 <= i < a.len() implies occurs_in(#[trigger] a[i], b) by {
        let n = s.nodes@[i];
        let p = (n.level as nat, n.index as nat);
        assert(cache.contains_key(p));
        let j = choose|j: int|
            0 <= j < s2.nodes@.len() && s2.nodes@[j].level == p.0 && s2.nodes@[j].index == p.1;
        assert(b[j] == a[i]);
        lemma_occurs_at(b, j);
    }
    assert forall|j: int| 0 <= j < b.len() implies occurs_in(#[trigger] b[j], a) by {
        let n = s2.nodes@[j];
        let p = (n.level as nat, n.index as nat);
        assert(cache.contains_key(p));
        let i = choose|i: int|
            0 <= i < s.nodes@.len() && s.nodes@[i].level == p.0 && s.nodes@[i].index == p.1;
        assert(a[i] == b[j]);
        lemma_occurs_at(a, i);
    }
    assert forall|i: int, j: int| 0 <= i < j < b.len() implies b[i] < b[j] by {
        assert(b[i] == node_key(s2.nodes@[i].level as nat, s2.nodes@[i].index as nat));
        assert(b[j] == node_key(s2.nodes@[j].level as nat, s2.nodes@[j].index as nat));
    }
    assert forall|i: int, j: int| 0 <= i < j < a.len() implies a[i] < a[j] by {
        assert(a[i] == key_of_node(s.nodes@[i]));
        assert(a[j] == key_of_node(s.nodes@[j]));
    }
    lemma_sorted_same_members(a, b);
    assert forall|j: int| 0 <= j < s2.nodes@.len() implies same_node(#[trigger] s2.nodes@[j], s.nodes@[j]) by {
        let n2 = s2.nodes@[j];
        let n = s.nodes@[j];
        assert(a[j] == b[j]);
        lemma_node_key_injective(n2.level as nat, n2.index as nat, n.level as nat, n.index as nat);
        assert(canonical_decimal(n.value@));
    }
}

/// In a synced tree, the authentication path of a leaf, as the tree reports
/// it, hashes the leaf up to the root.
pub proof fn lemma_synced_path_reaches_root(t: LeanIMT, leaf_index: nat, siblings: Seq<nat>)
    requires
        t.well_formed(),
        t.is_synced(),
        leaf_index < t.leaves_view().len(),
        siblings.len() == t.depth_view(),
        forall|l: int|
            0 <= l < siblings.len() ==> #[trigger] siblings[l] == t.proof_sibling(
                leaf_index,
                l as nat,
            ),
    ensures
        fold_path(t.leaves_view()[leaf_index as int], leaf_index, siblings, t.depth_view())
            == t.root_view(),
{
    let leaves = t.leaves_view();
    let depth = t.depth_view();
    assert(leaves.len() == t.leaves@.len());
    assert forall|l: nat| l < depth implies #[trigger] siblings[l as int] == merkle_node(
        leaves,
        l,
        sibling_index(leaf_index, l),
    ) by {
        assert(siblings[l as int] == t.proof_sibling(leaf_index, l));
        if l > 0 {
            lemma_node_value_agrees(leaves, depth, t.node_cache(), l, sibling_index(leaf_index, l));
        }
    }
    lemma_fold_path(leaves, leaf_index, siblings, depth);
    assert(leaves.len() <= pow2(depth)) by {
        vstd::arithmetic::power2::lemma2_to64();
        if depth > 32 {
            vstd::arithmetic::power2::lemma_pow2_strictly_increases(32, depth);
        }
    }
    lemma_pow2_pos(depth);
    vstd::arithmetic::div_mod::lemma_fundamental_div_mod_converse(
        leaf_index as int,
        pow2(depth) as int,
        0,
        leaf_index as int,
    );
}

} // verus!
