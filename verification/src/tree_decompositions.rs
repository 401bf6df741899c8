//! The tree of a nice tree decomposition: nodes are the integers
//! `0..node_count`, kept in tables from a node to its children and to its
//! parent.

use std::collections::HashMap;
use vstd::prelude::*;
use vstd::std_specs::hash::group_hash_axioms;

verus! {

broadcast use group_hash_axioms;

/// A node of the decomposition tree.
pub type TreeNode = u64;

/// A vertex of the pattern graph or of the target graph.
pub type Vertex = usize;

/// Why a tree, a decomposition or a graph was refused.
#[derive(Debug, Clone, Copy, PartialEq, Eq)]
pub enum FormatError {
    /// A node gets a second parent.
    SecondParent,
    /// A record names a node or a vertex that was not declared.
    UndefinedNode,
    /// A word is not what its place asks for, or a word is missing.
    BadToken,
    /// The text ends without the line that declares the sizes.
    MissingHeader,
    /// A declared size is more than a graph or this machine can hold.
    TooLarge,
}

/// The node reached from `node` by following at most `fuel` parent links.
pub open spec fn climb(parents: Map<TreeNode, TreeNode>, node: TreeNode, fuel: nat) -> TreeNode
    decreases fuel,
{
    if fuel == 0 || !parents.contains_key(node) {
        node
    } else {
        climb(parents, parents[node], (fuel - 1) as nat)
    }
}

/// The parent links from `node` end after at most `fuel` of them, at a node
/// without a parent.
pub open spec fn ends_within(parents: Map<TreeNode, TreeNode>, node: TreeNode, fuel: nat) -> bool
    decreases fuel,
{
    if !parents.contains_key(node) {
        true
    } else if fuel == 0 {
        false
    } else {
        ends_within(parents, parents[node], (fuel - 1) as nat)
    }
}

/// Where the parent links end, the climb ends: at a node without a
/// parent.
pub proof fn lemma_climb_ends(parents: Map<TreeNode, TreeNode>, node: TreeNode, fuel: nat)
    requires
        ends_within(parents, node, fuel),
    ensures
        !parents.contains_key(climb(parents, node, fuel)),
    decreases fuel,
{
    if parents.contains_key(node) && fuel > 0 {
        lemma_climb_ends(parents, parents[node], (fuel - 1) as nat);
    }
}

/// A rooted forest on the nodes `0..node_count`.
#[derive(PartialEq, Eq, Debug, Clone)]
pub struct TreeStructure {
    number_of_nodes: TreeNode,
    children_list: HashMap<TreeNode, Vec<TreeNode>>,
    parents_list: HashMap<TreeNode, TreeNode>,
}

impl TreeStructure {
    /// The number of nodes.
    pub closed spec fn spec_node_count(&self) -> TreeNode {
        self.number_of_nodes
    }

    /// The children of `p`, in the order in which they were added.
    pub closed spec fn spec_children(&self, p: TreeNode) -> Seq<TreeNode> {
        if self.children_list@.contains_key(p) {
            self.children_list@[p]@
        } else {
            Seq::empty()
        }
    }

    /// The table from each node that has a parent to that parent.
    pub closed spec fn spec_parents(&self) -> Map<TreeNode, TreeNode> {
        self.parents_list@
    }

    /// The parent of `q`, if it has one.
    pub open spec fn spec_parent(&self, q: TreeNode) -> Option<TreeNode> {
        if self.spec_parents().contains_key(q) {
            Some(self.spec_parents()[q])
        } else {
            None
        }
    }

    /// The node reached from node 0 by following parent links, at most
    /// `node_count` of them.
    pub open spec fn spec_root(&self) -> TreeNode {
        climb(self.spec_parents(), 0, self.spec_node_count() as nat)
    }

    /// The two tables agree: `q` is a child of `p` exactly if `p` is the
    /// parent of `q`, no child is listed twice, and all nodes are below
    /// `node_count`.
    pub open spec fn wf(&self) -> bool {
        &&& self.tables_wf()
        &&& forall|q: TreeNode| #[trigger]
            self.spec_parents().contains_key(q) ==> q < self.spec_node_count()
                && self.spec_parents()[q] < self.spec_node_count() && self.spec_children(
                self.spec_parents()[q],
            ).contains(q)
        &&& forall|p: TreeNode, i: int|
            0 <= i < self.spec_children(p).len() ==> self.spec_parent(
                #[trigger] self.spec_children(p)[i],
            ) == Some(p)
        &&& forall|p: TreeNode| #[trigger] self.spec_children(p).no_duplicates()
    }

    /// No node is listed with an empty vector of children.
    pub closed spec fn tables_wf(&self) -> bool {
        forall|p: TreeNode| #[trigger]
            self.children_list@.contains_key(p) ==> self.children_list@[p]@.len() > 0
    }

    /// A tree structure of `number_of_nodes` nodes without edges.
    pub fn new(number_of_nodes: u64) -> (t: TreeStructure)
        ensures
            t.wf(),
            t.spec_node_count() == number_of_nodes,
            t.spec_parents() == Map::<TreeNode, TreeNode>::empty(),
            forall|p: TreeNode| t.spec_children(p) == Seq::<TreeNode>::empty(),
    {
        TreeStructure {
            number_of_nodes,
            children_list: HashMap::new(),
            parents_list: HashMap::new(),
        }
    }

    /// The number of nodes.
    pub fn node_count(&self) -> (n: TreeNode)
        ensures
            n == self.spec_node_count(),
    {
        self.number_of_nodes
    }

    /// The children of `p`, or `None` if it has none.
    pub fn children(&self, p: TreeNode) -> (r: Option<&Vec<TreeNode>>)
        requires
            self.wf(),
        ensures
            match r {
                Some(v) => v@ == self.spec_children(p) && v@.len() > 0,
                None => self.spec_children(p).len() == 0,
            },
    {
        self.children_list.get(&p)
    }

    /// The number of children of `p`.
    pub fn children_count(&self, p: TreeNode) -> (n: TreeNode)
        requires
            self.wf(),
        ensures
            n == self.spec_children(p).len(),
    {
        match self.children(p) {
            Some(v) => v.len() as TreeNode,
            None => 0,
        }
    }

    /// The parent of `node`, or `None` if it has none.
    pub fn parent(&self, node: TreeNode) -> (r: Option<&TreeNode>)
        ensures
            match r {
                Some(p) => self.spec_parent(node) == Some(*p),
                None => self.spec_parent(node) is None,
            },
    {
        self.parents_list.get(&node)
    }

    /// Whether `p` is the parent of `q`.
    pub fn is_parent_of(&self, p: TreeNode, q: TreeNode) -> (r: bool)
        ensures
            r == (self.spec_parent(q) == Some(p)),
    {
        match self.parent(q) {
            Some(node) => p == *node,
            None => false,
        }
    }

    /// Makes `q` a child of `p`. A node gets a parent only once, and both
    /// nodes must be nodes of the tree; otherwise nothing changes.
    pub fn add_child(&mut self, p: TreeNode, q: TreeNode) -> (r: Result<(), FormatError>)
        requires
            old(self).wf(),
        ensures
            final(self).wf(),
            final(self).spec_node_count() == old(self).spec_node_count(),
            r == Err::<(), FormatError>(FormatError::SecondParent) <==> old(self).spec_parent(q)
                is Some,
            r == Err::<(), FormatError>(FormatError::UndefinedNode) <==> old(self).spec_parent(q)
                is None && (p >= old(self).spec_node_count() || q >= old(self).spec_node_count()),
            r is Ok <==> old(self).spec_parent(q) is None && p < old(self).spec_node_count() && q
                < old(self).spec_node_count(),
            r is Err ==> *final(self) == *old(self),
            r is Ok ==> final(self).spec_parents() == old(self).spec_parents().insert(q, p)
                && final(self).spec_children(p) == old(self).spec_children(p).push(q) && forall|
                x: TreeNode,
            |
                x != p ==> final(self).spec_children(x) == old(self).spec_children(x),
    {
        if self.parents_list.get(&q).is_some() {
            return Err(FormatError::SecondParent);
        }
        if p >= self.number_of_nodes || q >= self.number_of_nodes {
            return Err(FormatError::UndefinedNode);
        }
        let ghost before = *self;
        assert(!before.spec_children(p).contains(q)) by {
            if before.spec_children(p).contains(q) {
                let i = choose|i: int|
                    0 <= i < before.spec_children(p).len() && before.spec_children(p)[i] == q;
                assert(before.spec_parent(before.spec_children(p)[i]) == Some(p));
            }
        }
        self.parents_list.insert(q, p);
        let mut list: Vec<TreeNode> = match self.children_list.remove(&p) {
            Some(v) => v,
            None => Vec::new(),
        };
        assert(list@ == before.spec_children(p));
        list.push(q);
        self.children_list.insert(p, list);
        proof {
            assert(self.spec_children(p) == before.spec_children(p).push(q));
            assert forall|x: TreeNode| x != p implies self.spec_children(x)
                == before.spec_children(x) by {}
            assert forall|x: TreeNode| #[trigger]
                self.spec_parents().contains_key(x) implies x < self.spec_node_count()
                && self.spec_parents()[x] < self.spec_node_count() && self.spec_children(
                self.spec_parents()[x],
            ).contains(x) by {
                if x == q {
                    assert(self.spec_children(p)[before.spec_children(p).len() as int] == q);
                } else {
                    let px = before.spec_parents()[x];
                    assert(before.spec_parents().contains_key(x));
                    let i = choose|i: int|
                        0 <= i < before.spec_children(px).len() && before.spec_children(px)[i]
                            == x;
                    assert(self.spec_children(px)[i] == x);
                }
            }
            assert forall|x: TreeNode, i: int|
                0 <= i < self.spec_children(x).len() implies self.spec_parent(
                #[trigger] self.spec_children(x)[i],
            ) == Some(x) by {
                if x == p && i == before.spec_children(p).len() {
                } else {
                    assert(self.spec_children(x)[i] == before.spec_children(x)[i]);
                    assert(before.spec_parent(before.spec_children(x)[i]) == Some(x));
                }
            }
            assert forall|x: TreeNode| #[trigger] self.spec_children(x).no_duplicates() by {
                assert(before.spec_children(x).no_duplicates());
            }
        }
        Ok(())
    }

    /// The root of the tree that node 0 belongs to: the node reached from
    /// node 0 by following parent links, at most `node_count` of them. It
    /// has no parent if the links end within so many steps, as they do in a
    /// tree.
    pub fn root(&self) -> (r: TreeNode)
        ensures
            r == self.spec_root(),
            ends_within(self.spec_parents(), 0, self.spec_node_count() as nat) ==> self.spec_parent(
                r,
            ) is None,
    {
        proof {
            if ends_within(self.spec_parents(), 0, self.spec_node_count() as nat) {
                lemma_climb_ends(self.spec_parents(), 0, self.spec_node_count() as nat);
            }
        }
        let mut current_node: TreeNode = 0;
        let mut steps: TreeNode = 0;
        while steps < self.number_of_nodes
            invariant
                steps <= self.number_of_nodes,
                climb(
                    self.spec_parents(),
                    current_node,
                    (self.number_of_nodes - steps) as nat,
                ) == self.spec_root(),
            decreases self.number_of_nodes - steps,
        {
            match self.parents_list.get(&current_node) {
                Some(parent) => {
                    current_node = *parent;
                    steps = steps + 1;
                },
                None => {
                    return current_node;
                },
            }
        }
        current_node
    }
}

} // verus!
