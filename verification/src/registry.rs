//! The trees of a session, each kept under a numeric handle so that a caller
//! across a language boundary can refer to it between calls.
use std::collections::HashMap;
use vstd::prelude::*;
use vstd::string::*;

use crate::coin::{
    lean_imt_from_state, state_tree_outcome, withdraw_merkle_witness_from_tree, witness_outcome,
    CoinData, StateFile, WithdrawMerkleWitness,
};
use crate::encoding::decimal_digits;
use crate::field::{decimal_to_fr_result, decimal_value, fr_to_decimal, undecimal_message};
use crate::merkle::{
    capacity_for, snapshot_of, snapshot_outcome, LeanIMT, LeanImtSnapshot,
};
use crate::merkle_spec::cache_after_append;

verus! {

broadcast use vstd::std_specs::hash::group_hash_axioms;

/// The handle that follows `h`, wrapping around after `u32::MAX`.
pub open spec fn next_after(h: u32) -> u32 {
    if h == u32::MAX {
        0
    } else {
        (h + 1) as u32
    }
}

/// The message for a handle that names no tree.
pub open spec fn unknown_handle_message() -> Seq<char> {
    "unknown LeanIMT handle"@
}

/// Whether `after` is `before` with leaves `a` and `b` appended: the leaves,
/// the height, the rewritten cache and root, and a synced tree stays synced.
pub open spec fn after_insert_two(before: LeanIMT, after: LeanIMT, a: nat, b: nat) -> bool {
    let leaves = before.leaves_view().push(a).push(b);
    let cache = cache_after_append(
        leaves,
        before.depth_view(),
        before.node_cache(),
        before.leaves_view().len(),
        before.depth_view(),
    );
    &&& after.well_formed()
    &&& after.leaves_view() == leaves
    &&& after.depth_view() == before.depth_view()
    &&& after.node_cache() == cache
    &&& after.root_view() == cache[(before.depth_view(), 0)]
    &&& before.is_synced() ==> after.is_synced()
}

/// An authentication path as text: the root, the height, and the siblings
/// bottom first, field elements as decimal numerals.
#[derive(Clone, Debug)]
pub struct PathProof {
    pub root: String,
    pub depth: u32,
    pub siblings: Vec<String>,
}

/// Trees under handles, and the handle the next tree will get.
pub struct TreeRegistry {
    trees: HashMap<u32, LeanIMT>,
    next_id: u32,
}

impl TreeRegistry {
    /// The trees, by handle.
    pub closed spec fn trees_view(&self) -> Map<u32, LeanIMT> {
        self.trees@
    }

    /// The handle the next tree will get.
    pub closed spec fn next_handle(&self) -> u32 {
        self.next_id
    }

    #[verifier::type_invariant]
    closed spec fn every_tree_well_formed(self) -> bool {
        forall|h: u32| #[trigger] self.trees@.contains_key(h) ==> self.trees@[h].well_formed()
    }

    /// Takes the trees out, leaving none; the caller puts them back.
    fn take_trees(&mut self) -> (m: HashMap<u32, LeanIMT>)
        ensures
            m@ == old(self).trees_view(),
            forall|h: u32| #[trigger] m@.contains_key(h) ==> m@[h].well_formed(),
            final(self).trees_view() == Map::<u32, LeanIMT>::empty(),
            final(self).next_handle() == old(self).next_handle(),
    {
        proof {
            use_type_invariant(&*self);
        }
        let mut m: HashMap<u32, LeanIMT> = HashMap::new();
        std::mem::swap(&mut m, &mut self.trees);
        m
    }

    /// Puts trees back in.
    fn put_trees(&mut self, m: HashMap<u32, LeanIMT>)
        requires
            forall|h: u32| #[trigger] m@.contains_key(h) ==> m@[h].well_formed(),
        ensures
            final(self).trees_view() == m@,
            final(self).next_handle() == old(self).next_handle(),
    {
        let mut m = m;
        std::mem::swap(&mut m, &mut self.trees);
    }

    /// An empty registry whose first handle is 1.
    pub fn new() -> (r: TreeRegistry)
        ensures
            r.trees_view() == Map::<u32, LeanIMT>::empty(),
            r.next_handle() == 1,
    {
        TreeRegistry { trees: HashMap::new(), next_id: 1 }
    }

    /// Keeps `tree` under the next handle (replacing a tree the handle may
    /// still name after the handles wrapped around) and returns the handle.
    pub fn insert_tree(&mut self, tree: LeanIMT) -> (h: u32)
        requires
            tree.well_formed(),
        ensures
            h == old(self).next_handle(),
            final(self).trees_view() == old(self).trees_view().insert(h, tree),
            final(self).next_handle() == next_after(h),
    {
        proof {
            use_type_invariant(&*self);
        }
        let h = self.next_id;
        let mut trees = self.take_trees();
        trees.insert(h, tree);
        self.put_trees(trees);
        self.next_id = if h == u32::MAX {
            0
        } else {
            h + 1
        };
        h
    }

    /// Restores a tree from a snapshot and keeps it under the next handle;
    /// the refusal of the snapshot leaves the registry as it was.
    pub fn import_snapshot(&mut self, snapshot: &LeanImtSnapshot) -> (r: Result<u32, String>)
        ensures
            exists|tr: Result<LeanIMT, String>|
                #[trigger] snapshot_outcome(*snapshot, tr) && match tr {
                    Ok(t) => {
                        &&& r == Ok::<u32, String>(old(self).next_handle())
                        &&& final(self).trees_view() == old(self).trees_view().insert(
                            old(self).next_handle(),
                            t,
                        )
                        &&& final(self).next_handle() == next_after(old(self).next_handle())
                    },
                    Err(e) => r == Err::<u32, String>(e) && *final(self) == *old(self),
                },
    {
        let tr = LeanIMT::from_snapshot(snapshot);
        proof {
            assert(snapshot_outcome(*snapshot, tr));
        }
        match tr {
            Ok(t) => Ok(self.insert_tree(t)),
            Err(e) => Err(e),
        }
    }

    /// Builds the commitment tree of a state and keeps it under the next
    /// handle; the refusal of the state leaves the registry as it was.
    pub fn import_state(&mut self, state: &StateFile) -> (r: Result<u32, String>)
        ensures
            exists|tr: Result<LeanIMT, String>|
                #[trigger] state_tree_outcome(*state, tr) && match tr {
                    Ok(t) => {
                        &&& r == Ok::<u32, String>(old(self).next_handle())
                        &&& final(self).trees_view() == old(self).trees_view().insert(
                            old(self).next_handle(),
                            t,
                        )
                        &&& final(self).next_handle() == next_after(old(self).next_handle())
                    },
                    Err(e) => r == Err::<u32, String>(e) && *final(self) == *old(self),
                },
    {
        let tr = lean_imt_from_state(state);
        proof {
            assert(state_tree_outcome(*state, tr));
        }
        match tr {
            Ok(t) => Ok(self.insert_tree(t)),
            Err(e) => Err(e),
        }
    }

    /// The snapshot of the tree under `handle`.
    pub fn export(&self, handle: u32) -> (r: Result<LeanImtSnapshot, String>)
        ensures
            !self.trees_view().contains_key(handle) ==> (r matches Err(e) && e@
                == unknown_handle_message()),
            self.trees_view().contains_key(handle) ==> (r matches Ok(s) && snapshot_of(
                s,
                self.trees_view()[handle],
            )),
    {
        proof {
            use_type_invariant(self);
        }
        match self.trees.get(&handle) {
            Some(tree) => Ok(tree.export_snapshot()),
            None => Err(String::from_str("unknown LeanIMT handle")),
        }
    }

    /// Appends two decimal leaves to the tree under `handle` and gives its
    /// new root as a decimal numeral. Refused, in this order, when a leaf is
    /// not a decimal field element, when the handle names no tree, or when
    /// the tree is full; a refusal leaves the registry as it was.
    pub fn insert_two(&mut self, handle: u32, leaf_a_decimal: &str, leaf_b_decimal: &str) -> (r:
        Result<String, String>)
        ensures
            final(self).next_handle() == old(self).next_handle(),
            r is Err ==> final(self).trees_view() == old(self).trees_view(),
            decimal_value(leaf_a_decimal@) is None ==> (r matches Err(e) && e@ == undecimal_message(
                leaf_a_decimal@,
            )),
            decimal_value(leaf_a_decimal@) is Some && decimal_value(leaf_b_decimal@) is None ==> (r matches Err(
                e,
            ) && e@ == undecimal_message(leaf_b_decimal@)),
            decimal_value(leaf_a_decimal@) is Some && decimal_value(leaf_b_decimal@) is Some
                && !old(self).trees_view().contains_key(handle) ==> (r matches Err(e) && e@
                == unknown_handle_message()),
            decimal_value(leaf_a_decimal@) is Some && decimal_value(leaf_b_decimal@) is Some
                && old(self).trees_view().contains_key(handle) ==> {
                let before = old(self).trees_view()[handle];
                if before.leaves_view().len() + 2 > capacity_for(before.depth_view()) {
                    r matches Err(e) && e@ == "Tree is at capacity"@
                } else {
                    r matches Ok(root) && {
                        let after = final(self).trees_view()[handle];
                        &&& final(self).trees_view() == old(self).trees_view().insert(handle, after)
                        &&& after_insert_two(
                            before,
                            after,
                            decimal_value(leaf_a_decimal@)->0,
                            decimal_value(leaf_b_decimal@)->0,
                        )
                        &&& root@ == decimal_digits(after.root_view())
                    }
                }
            },
    {
        proof {
            use_type_invariant(&*self);
        }
        let a = match decimal_to_fr_result(leaf_a_decimal) {
            Ok(f) => f,
            Err(e) => {
                return Err(e);
            },
        };
        let b = match decimal_to_fr_result(leaf_b_decimal) {
            Ok(f) => f,
            Err(e) => {
                return Err(e);
            },
        };
        let ghost before_map = self.trees@;
        let mut trees = self.take_trees();
        let removed = trees.remove(&handle);
        let mut tree = match removed {
            Some(t) => t,
            None => {
                proof {
                    assert(trees@ =~= before_map);
                }
                self.put_trees(trees);
                return Err(String::from_str("unknown LeanIMT handle"));
            },
        };
        assert(tree.well_formed());
        match tree.insert_two(a, b) {
            Ok(()) => {
                let root = fr_to_decimal(&tree.get_root());
                trees.insert(handle, tree);
                proof {
                    assert(trees@ =~= before_map.insert(handle, tree));
                }
                self.put_trees(trees);
                Ok(root)
            },
            Err(e) => {
                trees.insert(handle, tree);
                proof {
                    assert(trees@ =~= before_map);
                }
                self.put_trees(trees);
                Err(String::from_str(e))
            },
        }
    }

    /// The authentication path of leaf `leaf_index` in the tree under
    /// `handle`. Refused when the handle names no tree, then when the tree
    /// has no such leaf.
    pub fn generate_proof(&self, handle: u32, leaf_index: u32) -> (r: Result<PathProof, String>)
        ensures
            !self.trees_view().contains_key(handle) ==> (r matches Err(e) && e@
                == unknown_handle_message()),
            self.trees_view().contains_key(handle) ==> {
                let t = self.trees_view()[handle];
                if leaf_index >= t.leaves_view().len() {
                    r matches Err(e) && e@ == "Failed to generate merkle proof"@
                } else {
                    r matches Ok(p) && {
                        &&& p.root@ == decimal_digits(t.root_view())
                        &&& p.depth as nat == t.depth_view()
                        &&& p.siblings@.len() == t.depth_view()
                        &&& forall|l: int|
                            0 <= l < p.siblings@.len() ==> #[trigger] p.siblings@[l]@
                                == decimal_digits(t.proof_sibling(leaf_index as nat, l as nat))
                    }
                }
            },
    {
        proof {
            use_type_invariant(self);
        }
        let tree = match self.trees.get(&handle) {
            Some(t) => t,
            None => {
                return Err(String::from_str("unknown LeanIMT handle"));
            },
        };
        let (siblings, depth) = match tree.generate_proof(leaf_index) {
            Some(p) => p,
            None => {
                return Err(String::from_str("Failed to generate merkle proof"));
            },
        };
        let mut texts: Vec<String> = Vec::new();
        for l in 0..siblings.len()
            invariant
                texts@.len() == l,
                forall|j: int|
                    0 <= j < l ==> #[trigger] texts@[j]@ == decimal_digits(siblings@[j]@),
        {
            texts.push(fr_to_decimal(&siblings[l]));
        }
        Ok(PathProof { root: fr_to_decimal(&tree.get_root()), depth, siblings: texts })
    }

    /// The withdraw witness of `coin` against the tree under `handle`.
    pub fn build_withdraw_merkle_witness(&self, coin: &CoinData, handle: u32) -> (r: Result<
        WithdrawMerkleWitness,
        String,
    >)
        ensures
            !self.trees_view().contains_key(handle) ==> (r matches Err(e) && e@
                == unknown_handle_message()),
            self.trees_view().contains_key(handle) ==> witness_outcome(
                *coin,
                self.trees_view()[handle],
                r,
            ),
    {
        proof {
            use_type_invariant(self);
        }
        match self.trees.get(&handle) {
            Some(tree) => withdraw_merkle_witness_from_tree(coin, tree),
            None => Err(String::from_str("unknown LeanIMT handle")),
        }
    }

    /// Forgets the tree under `handle`, if any.
    pub fn drop_tree(&mut self, handle: u32)
        ensures
            final(self).trees_view() == old(self).trees_view().remove(handle),
            final(self).next_handle() == old(self).next_handle(),
    {
        let mut trees = self.take_trees();
        trees.remove(&handle);
        self.put_trees(trees);
    }
}

} // verus!
