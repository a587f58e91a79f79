//! Binary-tree puncture state: tags are leaves `2^d + tag` of a tree of depth
//! `d`; puncturing a tag marks its leaf and every ancestor up to the root (1).
use vstd::prelude::*;
use std::collections::{HashMap, HashSet};
use crate::errors::{PabsCrfError, PabsCrfResult};
use vstd::arithmetic::power2::pow2;
use vstd::std_specs::iter::IteratorSpec;

verus! {

broadcast use vstd::std_specs::hash::group_hash_axioms;

/// Maximum puncture tree depth bound for u64 safety: (1 << 63) is last representable power of two
pub const MAX_PUNCTURE_DEPTH: usize = 63;

/// Binary tree node for puncture tracking
#[derive(Debug, Clone, Copy)]
pub struct TreeNode {
    /// Node index in the tree (root = 1)
    pub index: u64,
    /// Whether this node or any descendant is punctured
    pub is_punctured: bool,
    /// Left child index (0 if leaf)
    pub left_child: u64,
    /// Right child index (0 if leaf)
    pub right_child: u64,
    /// Depth of this node in the tree
    pub depth: usize,
}

/// Binary tree for efficient puncture tracking
#[derive(Debug)]
pub struct PunctureTree {
    /// Maximum depth of the tree
    pub max_depth: usize,
    /// Map from node index to node data
    pub nodes: HashMap<u64, TreeNode>,
    /// Set of punctured leaf indices for quick lookup
    pub punctured_leaves: HashSet<u64>,
    /// Total number of punctured tags
    pub puncture_count: usize,
}

/// Statistics about the puncture tree
#[derive(Debug, Clone)]
pub struct PunctureTreeStats {
    /// Maximum depth of the tree
    pub max_depth: usize,
    /// Total number of nodes in the tree
    pub total_nodes: usize,
    /// Number of punctured leaves
    pub punctured_leaves: usize,
    /// Total number of puncture operations performed
    pub puncture_count: usize,
    /// Maximum number of tags supported (2^max_depth)
    pub max_tags: u64,
}

/// The leaf of `tag` in a tree of depth `d`.
pub open spec fn leaf_of(tag: u64, d: usize) -> int {
    pow2(d as nat) + tag
}

/// The `j`-th ancestor of node `x` (`x` itself for `j = 0`).
pub open spec fn ancestor(x: int, j: nat) -> int
    decreases j,
{
    if j == 0 { x } else { ancestor(x, (j - 1) as nat) / 2 }
}

/// Every node on the path from `leaf` to the root is present and marked punctured.
pub open spec fn path_punctured(nodes: Map<u64, TreeNode>, leaf: int) -> bool {
    forall|x: u64| #![trigger nodes.dom().contains(x)]
        (exists|j: nat| ancestor(leaf, j) == x && x >= 1) ==> nodes.dom().contains(x) && nodes[x].is_punctured
}

proof fn lemma_ancestor_bounds(x: int, j: nat)
    requires
        x >= 0,
    ensures
        0 <= ancestor(x, j) <= x,
    decreases j,
{
    if j > 0 {
        lemma_ancestor_bounds(x, (j - 1) as nat);
    }
}

proof fn lemma_ancestor_after(x: int, s: nat, j: nat)
    requires
        x >= 0,
        ancestor(x, s) <= 1,
        s < j,
    ensures
        ancestor(x, j) == 0,
    decreases j,
{
    lemma_ancestor_bounds(x, s);
    if j > s + 1 {
        lemma_ancestor_after(x, s, (j - 1) as nat);
    }
}

impl PunctureTree {
    /// Erase the tree: depth and count set to zero, every node and punctured
    /// leaf removed.
    pub fn zeroize(&mut self)
        ensures
            final(self).max_depth == 0,
            final(self).nodes@ == Map::<u64, TreeNode>::empty(),
            final(self).punctured_leaves@ == Set::<u64>::empty(),
            final(self).puncture_count == 0,
    {
        self.max_depth = 0;
        self.nodes.clear();
        self.punctured_leaves.clear();
        self.puncture_count = 0;
    }

    /// Create a tree of depth `max_depth` holding only its root.
    pub fn new(max_depth: usize) -> (t: Self)
        requires
            max_depth <= MAX_PUNCTURE_DEPTH,
        ensures
            t.max_depth == max_depth,
            t.punctured_leaves@ == Set::<u64>::empty(),
            t.puncture_count == 0,
            t.nodes@.dom() == set![1u64],
            t.nodes@[1] == (TreeNode { index: 1, is_punctured: false, left_child: 2, right_child: 3, depth: 0 }),
    {
        let mut nodes: HashMap<u64, TreeNode> = HashMap::new();
        let root = TreeNode { index: 1, is_punctured: false, left_child: 2, right_child: 3, depth: 0 };
        nodes.insert(1, root);
        assert(nodes@.dom() =~= set![1u64]);
        PunctureTree { max_depth, nodes, punctured_leaves: HashSet::new(), puncture_count: 0 }
    }

    /// The leaf index `2^max_depth + tag`, or `InvalidInput` when the tag does not fit the tree.
    fn tag_to_leaf_index(&self, tag: u64) -> (r: PabsCrfResult<u64>)
        requires
            self.max_depth <= MAX_PUNCTURE_DEPTH,
        ensures
            r is Ok <==> tag < pow2(self.max_depth as nat),
            r matches Ok(l) ==> l == leaf_of(tag, self.max_depth),
            r matches Err(e) ==> e is InvalidInput,
    {
        let d = self.max_depth as u64;
        proof {
            vstd::arithmetic::power2::lemma2_to64();
            vstd::arithmetic::power2::lemma2_to64_rest();
            if d < 63 {
                vstd::arithmetic::power2::lemma_pow2_strictly_increases(d as nat, 63);
            }
        }
        assert((1u64 << d) == pow2(d as nat)) by {
            vstd::bits::lemma_u64_shl_is_mul(1, d);
        }
        let upper = 1u64 << d;
        if tag >= upper {
            return Err(PabsCrfError::InvalidInput("tag exceeds puncture tree capacity".to_string()));
        }
        Ok(upper + tag)
    }

    /// Whether `tag` has been punctured (`InvalidInput` when it does not fit the tree).
    pub fn is_punctured(&self, tag: u64) -> (r: PabsCrfResult<bool>)
        requires
            self.max_depth <= MAX_PUNCTURE_DEPTH,
        ensures
            r is Ok <==> tag < pow2(self.max_depth as nat),
            r matches Ok(b) ==> b == self.punctured_leaves@.contains(leaf_of(tag, self.max_depth) as u64),
            r matches Err(e) ==> e is InvalidInput,
    {
        let leaf = match self.tag_to_leaf_index(tag) {
            Ok(l) => l,
            Err(e) => {
                return Err(e);
            },
        };
        Ok(self.punctured_leaves.contains(&leaf))
    }

    /// Puncture `tag`: record its leaf, count it when new, and mark the whole
    /// leaf-to-root path as punctured. Returns whether the tag was new.
    pub fn puncture(&mut self, tag: u64) -> (r: PabsCrfResult<bool>)
        requires
            old(self).max_depth <= MAX_PUNCTURE_DEPTH,
            old(self).puncture_count < usize::MAX,
        ensures
            r is Ok <==> tag < pow2(old(self).max_depth as nat),
            r matches Err(e) ==> e is InvalidInput && *final(self) == *old(self),
            final(self).max_depth == old(self).max_depth,
            r matches Ok(b) ==> ({
                let leaf = leaf_of(tag, old(self).max_depth);
                &&& b == !old(self).punctured_leaves@.contains(leaf as u64)
                &&& final(self).punctured_leaves@ == old(self).punctured_leaves@.insert(leaf as u64)
                &&& final(self).puncture_count == old(self).puncture_count + if b { 1int } else { 0int }
                &&& b ==> path_punctured(final(self).nodes@, leaf)
                &&& !b ==> final(self).nodes@ == old(self).nodes@
            }),
    {
        let leaf_index = match self.tag_to_leaf_index(tag) {
            Ok(l) => l,
            Err(e) => {
                return Err(e);
            },
        };
        if !self.punctured_leaves.insert(leaf_index) {
            return Ok(false);
        }
        self.puncture_count = self.puncture_count + 1;
        let leaf_node = match self.nodes.get(&leaf_index) {
            Some(node) => {
                let mut n = *node;
                n.is_punctured = true;
                n
            },
            None => TreeNode { index: leaf_index, is_punctured: true, left_child: 0, right_child: 0, depth: self.max_depth },
        };
        self.nodes.insert(leaf_index, leaf_node);
        let ghost leaf = leaf_index as int;
        let mut current = leaf_index;
        let ghost mut steps: nat = 0;
        proof {
            lemma_ancestor_bounds(leaf, 0);
        }
        while current > 1
            invariant
                current >= 1,
                leaf >= 1,
                current == ancestor(leaf, steps),
                self.max_depth == old(self).max_depth,
                self.punctured_leaves@ == old(self).punctured_leaves@.insert(leaf as u64),
                self.puncture_count == old(self).puncture_count + 1,
                forall|j: nat| #![trigger ancestor(leaf, j)] j <= steps ==> self.nodes@.dom().contains(ancestor(leaf, j) as u64)
                    && self.nodes@[ancestor(leaf, j) as u64].is_punctured,
            decreases current,
        {
            let parent = current / 2;
            let parent_node = match self.nodes.get(&parent) {
                Some(node) => {
                    let mut n = *node;
                    n.is_punctured = true;
                    n
                },
                None => {
                    let depth = match self.nodes.get(&current) {
                        Some(c) => if c.depth >= 1 { c.depth - 1 } else { 0 },
                        None => 0,
                    };
                    TreeNode {
                        index: parent,
                        is_punctured: true,
                        left_child: parent * 2,
                        right_child: parent * 2 + 1,
                        depth,
                    }
                },
            };
            self.nodes.insert(parent, parent_node);
            proof {
                assert(ancestor(leaf, steps + 1) == parent);
                steps = steps + 1;
                assert forall|j: nat| #![trigger ancestor(leaf, j)] j <= steps implies self.nodes@.dom().contains(ancestor(leaf, j) as u64)
                    && self.nodes@[ancestor(leaf, j) as u64].is_punctured by {
                    lemma_ancestor_bounds(leaf, j);
                }
            }
            current = parent;
        }
        proof {
            assert forall|x: u64| #![trigger self.nodes@.dom().contains(x)]
                (exists|j: nat| ancestor(leaf, j) == x && x >= 1) implies self.nodes@.dom().contains(x) && self.nodes@[x].is_punctured by {
                let j = choose|j: nat| ancestor(leaf, j) == x && x >= 1;
                if j > steps {
                    lemma_ancestor_after(leaf, steps, j);
                }
                lemma_ancestor_bounds(leaf, j);
            }
        }
        Ok(true)
    }
}

/// Every recorded leaf is a leaf of the tree: `2^d <= leaf < 2^(d + 1)`.
pub open spec fn leaves_ok(leaves: Set<u64>, d: usize) -> bool {
    forall|l: u64| leaves.contains(l) ==> pow2(d as nat) <= l < 2 * pow2(d as nat)
}

/// The leaf-to-root path of `leaf`.
pub open spec fn is_path_of(p: Seq<u64>, leaf: int) -> bool {
    &&& p.len() >= 1
    &&& forall|j: int| 0 <= j < p.len() ==> #[trigger] p[j] == ancestor(leaf, j as nat)
    &&& p.last() == 1
}

/// A witness the tree accepts for `leaf`: it starts at the leaf, each entry is
/// the parent of the one before, and every entry is a punctured node.
pub open spec fn witness_ok(nodes: Map<u64, TreeNode>, p: Seq<u64>, leaf: int) -> bool {
    &&& p.len() >= 1
    &&& p[0] == leaf
    &&& forall|i: int| 1 <= i < p.len() ==> #[trigger] p[i] == p[i - 1] / 2
    &&& forall|i: int| 0 <= i < p.len() ==> nodes.dom().contains(#[trigger] p[i]) && nodes[p[i]].is_punctured
}

/// Puncturing a tag makes it punctured and leaves every other tag as it was.
pub proof fn lemma_puncture_effect(before: Set<u64>, tag: u64, other: u64, d: usize)
    requires
        d <= MAX_PUNCTURE_DEPTH,
        tag < pow2(d as nat),
        other < pow2(d as nat),
    ensures
        before.insert(leaf_of(tag, d) as u64).contains(leaf_of(tag, d) as u64),
        other != tag ==> (before.insert(leaf_of(tag, d) as u64).contains(leaf_of(other, d) as u64)
            == before.contains(leaf_of(other, d) as u64)),
{
    vstd::arithmetic::power2::lemma2_to64();
    vstd::arithmetic::power2::lemma2_to64_rest();
    if d < 63 {
        vstd::arithmetic::power2::lemma_pow2_strictly_increases(d as nat, 63);
    }
}

impl PunctureTree {
    /// All punctured tags, in the order the leaf set is walked.
    pub fn get_punctured_tags(&self) -> (tags: Vec<u64>)
        requires
            self.max_depth <= MAX_PUNCTURE_DEPTH,
            leaves_ok(self.punctured_leaves@, self.max_depth),
        ensures
            tags@.len() == self.punctured_leaves@.len(),
            forall|i: int| 0 <= i < tags@.len() ==> #[trigger] self.punctured_leaves@.contains(
                leaf_of(tags@[i], self.max_depth) as u64,
            ),
            forall|l: u64| #[trigger] self.punctured_leaves@.contains(l) ==> exists|i: int|
                0 <= i < tags@.len() && leaf_of(tags@[i], self.max_depth) == l,
    {
        let d = self.max_depth as u64;
        proof {
            vstd::arithmetic::power2::lemma2_to64();
            vstd::arithmetic::power2::lemma2_to64_rest();
            if d < 63 {
                vstd::arithmetic::power2::lemma_pow2_strictly_increases(d as nat, 63);
            }
        }
        assert((1u64 << d) == pow2(d as nat)) by {
            vstd::bits::lemma_u64_shl_is_mul(1, d);
        }
        let off = 1u64 << d;
        let mut out: Vec<u64> = Vec::new();
        let ghost keys = self.punctured_leaves@;
        let ghost rem = vstd::std_specs::hash::spec_hash_keys_iter(&self.punctured_leaves).remaining();
        proof {
            vstd::std_specs::hash::axiom_spec_hash_keys_iter(&self.punctured_leaves);
        }
        for leaf in it: self.punctured_leaves.iter()
            invariant
                off == pow2(self.max_depth as nat),
                keys == self.punctured_leaves@,
                leaves_ok(keys, self.max_depth),
                it.seq() == rem,
                rem.unref().to_set() == keys,
                rem.len() == keys.len(),
                out@.len() == it.index(),
                forall|i: int| 0 <= i < out@.len() ==> #[trigger] out@[i] + off == *rem[i],
        {
            assert(keys.contains(*leaf));
            out.push(*leaf - off);
        }
        proof {
            assert(out@.len() == rem.len());
            assert forall|i: int| 0 <= i < out@.len() implies #[trigger] self.punctured_leaves@.contains(
                leaf_of(out@[i], self.max_depth) as u64,
            ) by {
                assert(rem.unref()[i] == *rem[i]);
                assert(rem.unref().contains(*rem[i]));
            }
            assert forall|l: u64| #[trigger] self.punctured_leaves@.contains(l) implies exists|i: int|
                0 <= i < out@.len() && leaf_of(out@[i], self.max_depth) == l by {
                assert(rem.unref().to_set().contains(l));
                let i = choose|i: int| 0 <= i < rem.unref().len() && rem.unref()[i] == l;
                assert(out@[i] + off == *rem[i]);
            }
        }
        out
    }

    /// The leaf-to-root path of a punctured tag (`None` when it is not punctured).
    pub fn get_puncture_proof(&self, tag: u64) -> (r: PabsCrfResult<Option<Vec<u64>>>)
        requires
            self.max_depth <= MAX_PUNCTURE_DEPTH,
        ensures
            r is Ok <==> tag < pow2(self.max_depth as nat),
            r matches Err(e) ==> e is InvalidInput,
            r matches Ok(o) ==> (o is Some <==> self.punctured_leaves@.contains(leaf_of(tag, self.max_depth) as u64)),
            r matches Ok(Some(p)) ==> is_path_of(p@, leaf_of(tag, self.max_depth)),
    {
        let punctured = match self.is_punctured(tag) {
            Ok(b) => b,
            Err(e) => {
                return Err(e);
            },
        };
        if !punctured {
            return Ok(None);
        }
        let leaf_index = match self.tag_to_leaf_index(tag) {
            Ok(l) => l,
            Err(e) => {
                return Err(e);
            },
        };
        let ghost leaf = leaf_index as int;
        let mut proof_path: Vec<u64> = Vec::new();
        proof_path.push(leaf_index);
        let mut current = leaf_index;
        while current > 1
            invariant
                current >= 1,
                leaf >= 1,
                proof_path@.len() >= 1,
                current == ancestor(leaf, (proof_path@.len() - 1) as nat),
                current == proof_path@.last(),
                forall|j: int| 0 <= j < proof_path@.len() ==> #[trigger] proof_path@[j] == ancestor(leaf, j as nat),
            decreases current,
        {
            current = current / 2;
            proof_path.push(current);
        }
        Ok(Some(proof_path))
    }

    /// Whether `proof` is a witness this tree accepts for `tag` (an empty
    /// witness is rejected before the tag is looked at).
    pub fn verify_puncture_proof(&self, tag: u64, proof: &[u64]) -> (r: PabsCrfResult<bool>)
        requires
            self.max_depth <= MAX_PUNCTURE_DEPTH,
        ensures
            r is Err <==> (proof@.len() > 0 && tag >= pow2(self.max_depth as nat)),
            r matches Err(e) ==> e is InvalidInput,
            r matches Ok(b) ==> (b <==> witness_ok(self.nodes@, proof@, leaf_of(tag, self.max_depth))),
    {
        if proof.len() == 0 {
            return Ok(false);
        }
        let leaf_index = match self.tag_to_leaf_index(tag) {
            Ok(l) => l,
            Err(e) => {
                return Err(e);
            },
        };
        if proof[0] != leaf_index {
            return Ok(false);
        }
        match self.nodes.get(&proof[0]) {
            Some(node) => {
                if !node.is_punctured {
                    return Ok(false);
                }
            },
            None => {
                return Ok(false);
            },
        }
        let mut i: usize = 1;
        while i < proof.len()
            invariant
                1 <= i <= proof@.len(),
                tag < pow2(self.max_depth as nat),
                leaf_index == leaf_of(tag, self.max_depth),
                proof@[0] == leaf_index,
                forall|t: int| 1 <= t < i ==> #[trigger] proof@[t] == proof@[t - 1] / 2,
                forall|t: int| 0 <= t < i ==> self.nodes@.dom().contains(#[trigger] proof@[t]) && self.nodes@[proof@[t]].is_punctured,
            decreases proof@.len() - i,
        {
            if proof[i] != proof[i - 1] / 2 {
                return Ok(false);
            }
            match self.nodes.get(&proof[i]) {
                Some(node) => {
                    if !node.is_punctured {
                        return Ok(false);
                    }
                },
                None => {
                    return Ok(false);
                },
            }
            i += 1;
        }
        Ok(true)
    }

    /// Statistics about the tree.
    pub fn stats(&self) -> (s: PunctureTreeStats)
        requires
            self.max_depth <= MAX_PUNCTURE_DEPTH,
        ensures
            s.max_depth == self.max_depth,
            s.total_nodes == self.nodes@.len(),
            s.punctured_leaves == self.punctured_leaves@.len(),
            s.puncture_count == self.puncture_count,
            s.max_tags == pow2(self.max_depth as nat),
    {
        let d = self.max_depth as u64;
        proof {
            vstd::arithmetic::power2::lemma2_to64();
            vstd::arithmetic::power2::lemma2_to64_rest();
            if d < 63 {
                vstd::arithmetic::power2::lemma_pow2_strictly_increases(d as nat, 63);
            }
        }
        assert((1u64 << d) == pow2(d as nat)) by {
            vstd::bits::lemma_u64_shl_is_mul(1, d);
        }
        PunctureTreeStats {
            max_depth: self.max_depth,
            total_nodes: self.nodes.len(),
            punctured_leaves: self.punctured_leaves.len(),
            puncture_count: self.puncture_count,
            max_tags: 1u64 << d,
        }
    }
}

/// A copy of a set of `u64` values.
pub fn clone_u64_set(s: &HashSet<u64>) -> (r: HashSet<u64>)
    ensures
        r@ == s@,
{
    let mut out: HashSet<u64> = HashSet::new();
    let ghost keys = s@;
    let ghost rem = vstd::std_specs::hash::spec_hash_keys_iter(s).remaining();
    proof {
        vstd::std_specs::hash::axiom_spec_hash_keys_iter(s);
    }
    for x in it: s.iter()
        invariant
            keys == s@,
            it.seq() == rem,
            rem.unref().to_set() == keys,
            out@ == rem.unref().take(it.index() as int).to_set(),
    {
        let ghost before = rem.unref().take(it.index() as int);
        out.insert(*x);
        proof {
            assert(rem.unref().take(it.index() + 1) =~= before.push(*x));
            before.lemma_push_to_set_commute(*x);
        }
    }
    proof {
        assert(rem.unref().take(rem.len() as int) =~= rem.unref());
    }
    out
}

impl Clone for PunctureTree {
    fn clone(&self) -> (r: Self)
        ensures
            r.max_depth == self.max_depth,
            r.nodes@ == self.nodes@,
            r.punctured_leaves@ == self.punctured_leaves@,
            r.puncture_count == self.puncture_count,
    {
        PunctureTree {
            max_depth: self.max_depth,
            nodes: self.nodes.clone(),
            punctured_leaves: clone_u64_set(&self.punctured_leaves),
            puncture_count: self.puncture_count,
        }
    }
}

} // verus!
