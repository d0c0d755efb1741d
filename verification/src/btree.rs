//! The tree's node model: leaf and branch nodes, the container around them,
//! and the exact-key lookup. The mathematical view of every node is a
//! `Map<i64, String>` holding the key/value pairs of the whole subtree, and
//! each operation is specified against that view.

use vstd::prelude::*;

verus! {

/// An entry of a leaf node: one key with its value, no children.
pub struct LeafElt {
    pub key: i64,
    pub value: String,
}

/// An entry of a branch node: one key with its value, together with the
/// subtree holding exactly the keys between the previous entry's key and
/// this entry's key.
pub struct BranchElt {
    pub left: Node,
    pub key: i64,
    pub value: String,
}

/// A node without children: an ordered run of key/value entries.
pub struct Leaf {
    pub elts: Vec<LeafElt>,
}

/// An internal node: an ordered run of entries, each owning the subtree to
/// its left, plus one rightmost subtree for the keys greater than every
/// entry's key.
pub struct Branch {
    pub elts: Vec<BranchElt>,
    pub rightmost_child: Box<Node>,
}

/// A tree node is either a leaf or a branch.
pub enum Node {
    LeafNode(Leaf),
    BranchNode(Branch),
}

/// The container: a root node plus the element count and the configured
/// branching bounds (the upper bound is twice the lower bound).
pub struct BTree {
    pub(crate) root: Node,
    pub(crate) len: usize,
    pub(crate) lower_bound: usize,
    pub(crate) upper_bound: usize,
}

/// A fault detected while building a tree.
#[derive(Debug, PartialEq, Eq, Structural)]
pub enum BTreeError {
    /// The requested lower branching bound was zero, which no node could
    /// ever satisfy once the tree has to hold its branching invariant.
    InvalidConfiguration,
}

/// The key/value pairs of the entries of a leaf from position `i` on, as a
/// map. An earlier entry wins over a later one with the same key, as a scan
/// in storage order would.
pub open spec fn leaf_entries_map(elts: Seq<LeafElt>, i: int) -> Map<i64, String>
    decreases elts.len() - i,
{
    if i < 0 || i >= elts.len() {
        Map::empty()
    } else {
        leaf_entries_map(elts, i + 1).insert(elts[i].key, elts[i].value)
    }
}

/// The key/value pairs held by the entries of a branch from position `i`
/// on: each entry's own pair together with everything in its left subtree.
pub open spec fn branch_entries_map(elts: Seq<BranchElt>, i: int) -> Map<i64, String>
    decreases elts, elts.len() - i,
{
    if i < 0 || i >= elts.len() {
        Map::empty()
    } else {
        elts[i].left.as_map().union_prefer_right(branch_entries_map(elts, i + 1)).insert(
            elts[i].key,
            elts[i].value,
        )
    }
}

/// The keys of a run of leaf entries are strictly ascending.
pub open spec fn leaf_keys_sorted(elts: Seq<LeafElt>) -> bool {
    forall|a: int, b: int| 0 <= a < b < elts.len() ==> elts[a].key < elts[b].key
}

/// The keys of a run of branch entries are strictly ascending.
pub open spec fn branch_keys_sorted(elts: Seq<BranchElt>) -> bool {
    forall|a: int, b: int| 0 <= a < b < elts.len() ==> elts[a].key < elts[b].key
}

/// Well-formedness of the entries of a branch from position `i` on: every
/// entry's left subtree is itself well-formed and holds only keys below the
/// entry's key and, past the first entry, above the previous entry's key.
pub open spec fn branch_entries_wf(elts: Seq<BranchElt>, i: int) -> bool
    decreases elts, elts.len() - i,
{
    if i < 0 || i >= elts.len() {
        true
    } else {
        &&& elts[i].left.wf()
        &&& (forall|q: i64| elts[i].left.as_map().contains_key(q) ==> q < elts[i].key)
        &&& (i > 0 ==> forall|q: i64|
            elts[i].left.as_map().contains_key(q) ==> q > elts[i - 1].key)
        &&& branch_entries_wf(elts, i + 1)
    }
}

/// Well-formedness of a run of branch entries is kept when the run is
/// entered further along: the property from position `i` on covers the
/// property from any later position `j` on.
pub(crate) proof fn lemma_branch_entries_wf_suffix(elts: Seq<BranchElt>, i: int, j: int)
    requires
        0 <= i <= j <= elts.len(),
        branch_entries_wf(elts, i),
    ensures
        branch_entries_wf(elts, j),
    decreases j - i,
{
    if i < j {
        lemma_branch_entries_wf_suffix(elts, i + 1, j);
    }
}

/// Every key held by the entries from position `i` on lies at or below the
/// last entry's key, and, past the first entry, strictly above the previous
/// entry's key.
pub(crate) proof fn lemma_branch_entries_map_key_range(elts: Seq<BranchElt>, i: int)
    requires
        0 <= i <= elts.len(),
        branch_keys_sorted(elts),
        branch_entries_wf(elts, i),
    ensures
        forall|q: i64| #[trigger]
            branch_entries_map(elts, i).contains_key(q) ==> q <= elts[elts.len() - 1].key,
        i > 0 ==> forall|q: i64| #[trigger]
            branch_entries_map(elts, i).contains_key(q) ==> q > elts[i - 1].key,
    decreases elts.len() - i,
{
    if i < elts.len() {
        lemma_branch_entries_map_key_range(elts, i + 1);
        assert forall|q: i64| #[trigger]
            branch_entries_map(elts, i).contains_key(q) implies q <= elts[elts.len() - 1].key by {
            if q != elts[i].key && !branch_entries_map(elts, i + 1).contains_key(q) {
                assert(elts[i].left.as_map().contains_key(q));
            }
            assert(elts[i].key <= elts[elts.len() - 1].key);
        }
        if i > 0 {
            assert forall|q: i64| #[trigger]
                branch_entries_map(elts, i).contains_key(q) implies q > elts[i - 1].key by {
                assert(elts[i - 1].key < elts[i].key);
                if q != elts[i].key && !branch_entries_map(elts, i + 1).contains_key(q) {
                    assert(elts[i].left.as_map().contains_key(q));
                }
            }
        }
    }
}

/// A scan that has passed the first `i` entries because their keys lie
/// below the queried key loses nothing: the map of all entries and the map
/// of the remaining entries agree at that key.
pub(crate) proof fn lemma_branch_entries_map_skip(elts: Seq<BranchElt>, i: int, k: i64)
    requires
        0 <= i <= elts.len(),
        branch_keys_sorted(elts),
        branch_entries_wf(elts, 0),
        forall|j: int| 0 <= j < i ==> elts[j].key < k,
    ensures
        branch_entries_map(elts, 0).contains_key(k) <==> branch_entries_map(
            elts,
            i,
        ).contains_key(k),
        branch_entries_map(elts, i).contains_key(k) ==> branch_entries_map(elts, 0)[k]
            == branch_entries_map(elts, i)[k],
    decreases i,
{
    if i > 0 {
        lemma_branch_entries_map_skip(elts, i - 1, k);
        lemma_branch_entries_wf_suffix(elts, 0, i - 1);
        assert(elts[i - 1].key < k);
        assert(!elts[i - 1].left.as_map().contains_key(k));
    }
}

/// A scan that has passed the first `i` entries of a leaf because their
/// keys differ from the queried key loses nothing: the map of all entries
/// and the map of the remaining entries agree at that key.
pub(crate) proof fn lemma_leaf_entries_map_skip(elts: Seq<LeafElt>, i: int, k: i64)
    requires
        0 <= i <= elts.len(),
        forall|j: int| 0 <= j < i ==> elts[j].key != k,
    ensures
        leaf_entries_map(elts, 0).contains_key(k) <==> leaf_entries_map(elts, i).contains_key(k),
        leaf_entries_map(elts, i).contains_key(k) ==> leaf_entries_map(elts, 0)[k]
            == leaf_entries_map(elts, i)[k],
    decreases i,
{
    if i > 0 {
        lemma_leaf_entries_map_skip(elts, i - 1, k);
        assert(elts[i - 1].key != k);
    }
}

impl Leaf {
    /// The pairs this leaf holds, as a map.
    pub open spec fn as_map(self) -> Map<i64, String> {
        leaf_entries_map(self.elts@, 0)
    }

    /// Linear scan over the entries in storage order, returning the value
    /// of the first entry whose key equals the queried key. The result is
    /// exactly the lookup in this leaf's map.
    pub fn get(&self, k: i64) -> (r: Option<&String>)
        ensures
            self.as_map().contains_key(k) ==> (r matches Some(v) && v == self.as_map()[k]),
            !self.as_map().contains_key(k) ==> r is None,
    {
        let n = self.elts.len();
        let mut i: usize = 0;
        while i < n
            invariant
                n == self.elts@.len(),
                0 <= i <= n,
                forall|j: int| 0 <= j < i ==> self.elts@[j].key != k,
            decreases n - i,
        {
            if self.elts[i].key == k {
                proof {
                    lemma_leaf_entries_map_skip(self.elts@, i as int, k);
                }
                return Some(&self.elts[i].value);
            }
            i += 1;
        }
        proof {
            lemma_leaf_entries_map_skip(self.elts@, n as int, k);
        }
        None
    }

    /// A leaf is well-formed when its keys are strictly ascending.
    pub open spec fn wf(self) -> bool {
        leaf_keys_sorted(self.elts@)
    }

    /// Builds a leaf over the given run of entries.
    pub fn new(vec: Vec<LeafElt>) -> (r: Leaf)
        ensures
            r == (Leaf { elts: vec }),
    {
        Leaf { elts: vec }
    }
}

impl Branch {
    /// The pairs this branch holds, as a map: everything in the rightmost
    /// subtree together with everything held by the entries.
    pub open spec fn as_map(self) -> Map<i64, String>
        decreases self, 1int,
    {
        self.rightmost_child.as_map().union_prefer_right(branch_entries_map(self.elts@, 0))
    }

    /// A branch is well-formed when it has at least one entry, its keys are
    /// strictly ascending, each entry's left subtree holds exactly keys
    /// between the neighbouring entry keys, and the rightmost subtree holds
    /// only keys above the last entry's key.
    pub open spec fn wf(self) -> bool
        decreases self, 1int,
    {
        &&& self.elts@.len() >= 1
        &&& branch_keys_sorted(self.elts@)
        &&& branch_entries_wf(self.elts@, 0)
        &&& self.rightmost_child.wf()
        &&& (forall|q: i64|
            self.rightmost_child.as_map().contains_key(q) ==> q > self.elts@[self.elts@.len()
                - 1].key)
    }

    /// Builds a branch over the given entries and rightmost subtree.
    pub fn new(vec: Vec<BranchElt>, right: Box<Node>) -> (r: Branch)
        ensures
            r == (Branch { elts: vec, rightmost_child: right }),
    {
        Branch { elts: vec, rightmost_child: right }
    }

    /// Scans the entries in ascending key order. An entry whose key equals
    /// the queried key answers with its value; the first entry whose key
    /// exceeds the queried key decides the lookup through its left subtree;
    /// when every entry's key lies below the queried key, the rightmost
    /// child decides. The result is exactly the lookup in this branch's
    /// map.
    pub fn get(&self, k: i64) -> (r: Option<&String>)
        requires
            self.wf(),
        ensures
            self.as_map().contains_key(k) ==> (r matches Some(v) && v == self.as_map()[k]),
            !self.as_map().contains_key(k) ==> r is None,
        decreases *self,
    {
        let n = self.elts.len();
        let mut i: usize = 0;
        while i < n
            invariant
                self.wf(),
                n == self.elts@.len(),
                0 <= i <= n,
                forall|j: int| 0 <= j < i ==> self.elts@[j].key < k,
            decreases n - i,
        {
            let ek = self.elts[i].key;
            if ek == k {
                proof {
                    lemma_branch_entries_map_skip(self.elts@, i as int, k);
                    assert(branch_entries_map(self.elts@, i as int)[k] == self.elts@[i as int].value);
                    assert(self.elts@[i as int].key <= self.elts@[n - 1].key);
                    assert(!self.rightmost_child.as_map().contains_key(k));
                }
                return Some(&self.elts[i].value);
            } else if ek > k {
                proof {
                    lemma_branch_entries_wf_suffix(self.elts@, 0, i as int);
                    lemma_branch_entries_wf_suffix(self.elts@, 0, i as int + 1);
                    lemma_branch_entries_map_key_range(self.elts@, i as int + 1);
                    lemma_branch_entries_map_skip(self.elts@, i as int, k);
                    assert(!branch_entries_map(self.elts@, i as int + 1).contains_key(k));
                    assert(self.elts@[i as int].key <= self.elts@[n - 1].key);
                    assert(!self.rightmost_child.as_map().contains_key(k));
                    assert(self.as_map().contains_key(k) <==> self.elts@[i as int].left.as_map().contains_key(k));
                    assert(self.elts@[i as int].left.as_map().contains_key(k) ==> self.as_map()[k]
                        == self.elts@[i as int].left.as_map()[k]);
                }
                return self.elts[i].left.get(k);
            }
            i += 1;
        }
        proof {
            lemma_branch_entries_map_skip(self.elts@, n as int, k);
            assert(!branch_entries_map(self.elts@, n as int).contains_key(k));
            assert(self.as_map().contains_key(k) <==> self.rightmost_child.as_map().contains_key(k));
        }
        self.rightmost_child.get(k)
    }
}

impl Node {
    /// The pairs this subtree holds, as a map.
    pub open spec fn as_map(self) -> Map<i64, String>
        decreases self, 2int,
    {
        match self {
            Node::LeafNode(leaf) => leaf.as_map(),
            Node::BranchNode(branch) => branch.as_map(),
        }
    }

    /// Well-formedness of the subtree rooted here.
    pub open spec fn wf(self) -> bool
        decreases self, 2int,
    {
        match self {
            Node::LeafNode(leaf) => leaf.wf(),
            Node::BranchNode(branch) => branch.wf(),
        }
    }

    /// True exactly of the leaf variant.
    pub fn is_leaf(&self) -> (r: bool)
        ensures
            r == (*self matches Node::LeafNode(_)),
    {
        match self {
            Node::LeafNode(_) => true,
            Node::BranchNode(_) => false,
        }
    }

    /// Wraps a run of leaf entries as a leaf node.
    pub fn new_leaf(vec: Vec<LeafElt>) -> (r: Node)
        ensures
            r == Node::LeafNode(Leaf { elts: vec }),
    {
        Node::LeafNode(Leaf::new(vec))
    }

    /// Wraps branch entries and a rightmost subtree as a branch node.
    pub fn new_branch(vec: Vec<BranchElt>, right: Box<Node>) -> (r: Node)
        ensures
            r == Node::BranchNode(Branch { elts: vec, rightmost_child: right }),
    {
        Node::BranchNode(Branch::new(vec, right))
    }

    /// Dispatches the lookup to the variant at hand. The result is exactly
    /// the lookup in this subtree's map: the value under the queried key
    /// when the subtree holds it, and nothing otherwise.
    pub fn get(&self, k: i64) -> (r: Option<&String>)
        requires
            self.wf(),
        ensures
            self.as_map().contains_key(k) ==> (r matches Some(v) && v == self.as_map()[k]),
            !self.as_map().contains_key(k) ==> r is None,
        decreases *self,
    {
        match self {
            Node::LeafNode(leaf) => leaf.get(k),
            Node::BranchNode(branch) => branch.get(k),
        }
    }
}

impl LeafElt {
    /// Builds a leaf entry from a key and its value.
    pub fn new(k: i64, v: String) -> (r: LeafElt)
        ensures
            r == (LeafElt { key: k, value: v }),
    {
        LeafElt { key: k, value: v }
    }

    /// True exactly when this entry's key is below the other's.
    pub fn less_than(self, other: LeafElt) -> (r: bool)
        ensures
            r == (self.key < other.key),
    {
        self.key < other.key
    }

    /// True exactly when this entry's key is above the other's.
    pub fn greater_than(self, other: LeafElt) -> (r: bool)
        ensures
            r == (self.key > other.key),
    {
        self.key > other.key
    }

    /// True exactly when this entry's key equals the queried key.
    pub fn has_key(self, other: i64) -> (r: bool)
        ensures
            r == (self.key == other),
    {
        self.key == other
    }
}

impl BranchElt {
    /// Builds a branch entry from a key, its value and the subtree to its
    /// left.
    pub fn new(k: i64, v: String, n: Node) -> (r: BranchElt)
        ensures
            r == (BranchElt { left: n, key: k, value: v }),
    {
        BranchElt { left: n, key: k, value: v }
    }
}

impl View for BTree {
    type V = Map<i64, String>;

    /// The key/value pairs of the whole tree.
    closed spec fn view(&self) -> Map<i64, String> {
        self.root.as_map()
    }
}

impl BTree {
    /// The tree is well-formed: the root subtree is, the recorded length is
    /// the number of keys held, and the branching bounds are a positive
    /// lower bound with twice that as the upper bound.
    pub closed spec fn wf(self) -> bool {
        &&& self.root.wf()
        &&& self@.dom().finite()
        &&& self.len == self@.dom().len()
        &&& self.lower_bound >= 1
        &&& self.upper_bound == 2 * self.lower_bound
    }

    /// The recorded element count.
    pub closed spec fn spec_len(self) -> nat {
        self.len as nat
    }

    /// The configured minimum entries per node.
    pub closed spec fn spec_lower_bound(self) -> nat {
        self.lower_bound as nat
    }

    /// The configured maximum entries per node.
    pub closed spec fn spec_upper_bound(self) -> nat {
        self.upper_bound as nat
    }

    /// Builds a tree whose root is a single-entry leaf holding the given
    /// pair, with the given lower branching bound. A lower bound of zero is
    /// rejected: no node could ever hold at least zero-but-one entries once
    /// the branching invariant has to be kept.
    pub fn new(k: i64, v: String, lb: usize) -> (r: Result<BTree, BTreeError>)
        requires
            lb <= usize::MAX / 2,
        ensures
            lb == 0 <==> r matches Err(BTreeError::InvalidConfiguration),
            lb >= 1 ==> (r matches Ok(t) && t.wf() && t@ == Map::<i64, String>::empty().insert(
                k,
                v,
            ) && t.spec_len() == 1 && t.spec_lower_bound() == lb && t.spec_upper_bound() == 2
                * lb),
    {
        if lb == 0 {
            return Err(BTreeError::InvalidConfiguration);
        }
        let mut elts: Vec<LeafElt> = Vec::new();
        elts.push(LeafElt::new(k, v));
        let root = Node::new_leaf(elts);
        let tree = BTree { root, len: 1, lower_bound: lb, upper_bound: 2 * lb };
        proof {
            let s = tree.root->LeafNode_0.elts@;
            assert(leaf_entries_map(s, 1) =~= Map::<i64, String>::empty());
            assert(tree@ =~= Map::<i64, String>::empty().insert(k, v));
            assert(tree@.dom() =~= Set::<i64>::empty().insert(k));
        }
        Ok(tree)
    }

    /// Returns the value owned by the unique entry whose key equals the
    /// queried key, and nothing when no entry anywhere in the tree holds
    /// that key. A read-only descent from the root; the tree is unchanged.
    pub fn get(&self, k: i64) -> (r: Option<&String>)
        requires
            self.wf(),
        ensures
            self@.contains_key(k) ==> (r matches Some(v) && v == self@[k]),
            !self@.contains_key(k) ==> r is None,
    {
        self.root.get(k)
    }
}

} // verus!
