//! Nice tree decompositions: a tree whose nodes are leaves, introduce
//! nodes, forget nodes and join nodes, each with a bag of pattern
//! vertices, together with the order in which the dynamic programs visit
//! the nodes.

use crate::tree_decompositions::TreeNode;
use crate::tree_decompositions::TreeStructure;
use crate::tree_decompositions::Vertex;
use std::collections::HashMap;
use vstd::prelude::*;
use vstd::std_specs::hash::group_hash_axioms;

verus! {

broadcast use group_hash_axioms;

/// The bag of a node: its vertices in increasing order.
pub type Bag = Vec<Vertex>;

/// Each element is smaller than the next.
pub open spec fn strictly_increasing(s: Seq<Vertex>) -> bool {
    forall|i: int, j: int| 0 <= i < j < s.len() ==> s[i] < s[j]
}

/// The four kinds of nodes of a nice tree decomposition.
#[derive(PartialEq, Eq, Debug, Clone, Copy)]
pub enum NodeType {
    /// No child; one vertex in the bag.
    Leaf,
    /// One child; the bag is the child's bag and one more vertex.
    Introduce,
    /// One child; the bag is the child's bag without one of its vertices.
    Forget,
    /// Two children with the bag of the node.
    Join,
}

/// What a node carries: its kind and its bag.
#[derive(PartialEq, Eq, Debug, Clone)]
pub struct NodeData {
    node_type: NodeType,
    bag: Bag,
}

impl NodeData {
    /// The kind of the node.
    pub closed spec fn spec_node_type(&self) -> NodeType {
        self.node_type
    }

    /// The bag of the node.
    pub closed spec fn spec_bag(&self) -> Seq<Vertex> {
        self.bag@
    }

    /// The bag is in increasing order, so no vertex occurs twice.
    pub open spec fn wf(&self) -> bool {
        strictly_increasing(self.spec_bag())
    }

    /// Node data of the given kind whose bag holds the vertices of `bag`,
    /// in whatever order and however often they are given.
    pub fn new(node_type: NodeType, bag: Bag) -> (d: NodeData)
        ensures
            d.wf(),
            d.spec_node_type() == node_type,
            forall|v: Vertex| d.spec_bag().contains(v) <==> bag@.contains(v),
    {
        let mut sorted: Vec<Vertex> = Vec::new();
        let mut i: usize = 0;
        while i < bag.len()
            invariant
                i <= bag.len(),
                strictly_increasing(sorted@),
                forall|v: Vertex|
                    sorted@.contains(v) <==> exists|k: int| 0 <= k < i && bag@[k] == v,
            decreases bag.len() - i,
        {
            let x: Vertex = bag[i];
            let mut j: usize = 0;
            while j < sorted.len() && sorted[j] < x
                invariant
                    j <= sorted.len(),
                    forall|k: int| 0 <= k < j ==> sorted@[k] < x,
                decreases sorted.len() - j,
            {
                j = j + 1;
            }
            let ghost before = sorted@;
            if j < sorted.len() && sorted[j] == x {
                assert(before.contains(x));
            } else {
                sorted.insert(j, x);
                assert(sorted@[j as int] == x);
                assert forall|a: int, b: int| 0 <= a < b < sorted@.len() implies sorted@[a]
                    < sorted@[b] by {
                    if b < j {
                        assert(sorted@[a] == before[a] && sorted@[b] == before[b]);
                    } else if b == j {
                        assert(sorted@[a] == before[a]);
                    } else if a < j {
                        assert(sorted@[a] == before[a] && sorted@[b] == before[b - 1]);
                        assert(before[j as int] > x);
                    } else if a == j {
                        assert(sorted@[b] == before[b - 1]);
                        assert(before[j as int] > x);
                    } else {
                        assert(sorted@[a] == before[a - 1] && sorted@[b] == before[b - 1]);
                    }
                }
                assert forall|v: Vertex| sorted@.contains(v) <==> (before.contains(v) || v
                    == x) by {
                    if sorted@.contains(v) {
                        let k = choose|k: int| 0 <= k < sorted@.len() && sorted@[k] == v;
                        if k < j {
                            assert(before[k] == v);
                        } else if k > j {
                            assert(before[k - 1] == v);
                        }
                    }
                    if before.contains(v) {
                        let k = choose|k: int| 0 <= k < before.len() && before[k] == v;
                        if k < j {
                            assert(sorted@[k] == v);
                        } else {
                            assert(sorted@[k + 1] == v);
                        }
                    }
                }
            }
            assert forall|v: Vertex|
                sorted@.contains(v) <==> exists|k: int| 0 <= k < i + 1 && bag@[k] == v by {
                if exists|k: int| 0 <= k < i + 1 && bag@[k] == v {
                    let k = choose|k: int| 0 <= k < i + 1 && bag@[k] == v;
                    if k < i {
                        assert(before.contains(v));
                    }
                }
                if before.contains(v) {
                    let k = choose|k: int| 0 <= k < i && bag@[k] == v;
                    assert(0 <= k < i + 1 && bag@[k] == v);
                }
                if v == x {
                    assert(0 <= i < i + 1 && bag@[i as int] == v);
                }
            }
            i = i + 1;
        }
        assert forall|v: Vertex| sorted@.contains(v) <==> bag@.contains(v) by {
            if bag@.contains(v) {
                let k = choose|k: int| 0 <= k < bag@.len() && bag@[k] == v;
                assert(0 <= k < i && bag@[k] == v);
            }
        }
        NodeData { node_type, bag: sorted }
    }

    /// The kind of the node.
    pub fn node_type(&self) -> (t: &NodeType)
        ensures
            *t == self.spec_node_type(),
    {
        &self.node_type
    }

    /// The bag of the node, in increasing order.
    pub fn bag(&self) -> (b: &Bag)
        ensures
            b@ == self.spec_bag(),
    {
        &self.bag
    }
}

/// The kind of node `p` according to `data`, if `p` is listed there.
pub open spec fn kind_of(data: Map<TreeNode, NodeData>, p: TreeNode) -> Option<NodeType> {
    if data.contains_key(p) {
        Some(data[p].spec_node_type())
    } else {
        None
    }
}

/// The bag of node `p` according to `data`; empty if `p` is not listed.
pub open spec fn bag_of(data: Map<TreeNode, NodeData>, p: TreeNode) -> Seq<Vertex> {
    if data.contains_key(p) {
        data[p].spec_bag()
    } else {
        Seq::empty()
    }
}

/// The stingy ordering of the subtree at `p` and its branch number. A leaf
/// comes alone, with branch number 0. A node with one child comes after the
/// child's ordering and has the child's branch number. A join node comes
/// after the orderings of its two children, the child with the larger branch
/// number first (the first child if they are equal), and its branch number
/// is the sum of theirs plus one. The walk goes at most `depth` levels down
/// and takes a node whose children are missing as it takes a leaf.
pub open spec fn stingy_walk(
    tree: TreeStructure,
    data: Map<TreeNode, NodeData>,
    p: TreeNode,
    depth: nat,
) -> (Seq<TreeNode>, nat)
    decreases depth,
{
    let c = tree.spec_children(p);
    if depth == 0 {
        (seq![p], 0)
    } else {
        match kind_of(data, p) {
            Some(NodeType::Introduce) | Some(NodeType::Forget) => {
                if c.len() >= 1 {
                    let below = stingy_walk(tree, data, c[0], (depth - 1) as nat);
                    (below.0.push(p), below.1)
                } else {
                    (seq![p], 0)
                }
            },
            Some(NodeType::Join) => {
                if c.len() >= 2 {
                    let first = stingy_walk(tree, data, c[0], (depth - 1) as nat);
                    let second = stingy_walk(tree, data, c[1], (depth - 1) as nat);
                    if first.1 >= second.1 {
                        ((first.0 + second.0).push(p), first.1 + second.1 + 1)
                    } else {
                        ((second.0 + first.0).push(p), first.1 + second.1 + 1)
                    }
                } else {
                    (seq![p], 0)
                }
            },
            _ => (seq![p], 0),
        }
    }
}

/// The first element of `a` that does not occur in `b`.
pub open spec fn first_missing(a: Seq<Vertex>, b: Seq<Vertex>) -> Option<Vertex>
    decreases a.len(),
{
    if a.len() == 0 {
        None
    } else if !b.contains(a[0]) {
        Some(a[0])
    } else {
        first_missing(a.subrange(1, a.len() as int), b)
    }
}

/// The vertex that sets node `p` apart: for a leaf the smallest vertex of
/// its bag (its only one, in a nice decomposition), for an introduce node
/// the smallest vertex of its bag that its child lacks, for a forget node
/// the smallest vertex of its child's bag that it lacks. A join node has
/// none.
pub open spec fn unique_vertex_of(
    tree: TreeStructure,
    data: Map<TreeNode, NodeData>,
    p: TreeNode,
) -> Option<Vertex> {
    let c = tree.spec_children(p);
    match kind_of(data, p) {
        Some(NodeType::Leaf) => if bag_of(data, p).len() > 0 {
            Some(bag_of(data, p)[0])
        } else {
            None
        },
        Some(NodeType::Introduce) => if c.len() >= 1 && data.contains_key(c[0]) {
            first_missing(bag_of(data, p), bag_of(data, c[0]))
        } else {
            None
        },
        Some(NodeType::Forget) => if c.len() >= 1 && data.contains_key(c[0]) {
            first_missing(bag_of(data, c[0]), bag_of(data, p))
        } else {
            None
        },
        _ => None,
    }
}

/// Whether `v` occurs in `list`.
pub fn vertex_in_list(v: Vertex, list: &Vec<Vertex>) -> (r: bool)
    ensures
        r == list@.contains(v),
{
    let mut i: usize = 0;
    while i < list.len()
        invariant
            i <= list.len(),
            forall|k: int| 0 <= k < i ==> list@[k] != v,
        decreases list.len() - i,
    {
        if list[i] == v {
            return true;
        }
        i = i + 1;
    }
    false
}

/// The first vertex of `a` that does not occur in `b`.
pub fn first_vertex_missing(a: &Vec<Vertex>, b: &Vec<Vertex>) -> (r: Option<Vertex>)
    ensures
        r == first_missing(a@, b@),
{
    let mut i: usize = 0;
    assert(a@.subrange(0, a@.len() as int) == a@);
    while i < a.len()
        invariant
            i <= a.len(),
            first_missing(a@, b@) == first_missing(a@.subrange(i as int, a@.len() as int), b@),
        decreases a.len() - i,
    {
        let ghost rest = a@.subrange(i as int, a@.len() as int);
        assert(rest[0] == a@[i as int]);
        assert(rest.subrange(1, rest.len() as int) == a@.subrange(i + 1, a@.len() as int));
        if !vertex_in_list(a[i], b) {
            return Some(a[i]);
        }
        i = i + 1;
    }
    None
}

/// The number of vertices at the head of `bag` that are smaller than `v`. In
/// a bag in increasing order this is the place of `v`, or the place where
/// `v` would be put in.
pub open spec fn rank_of(bag: Seq<Vertex>, v: Vertex) -> nat
    decreases bag.len(),
{
    if bag.len() == 0 || bag[0] >= v {
        0
    } else {
        1 + rank_of(bag.subrange(1, bag.len() as int), v)
    }
}

/// The rank is at most the length of the bag, and smaller if the bag holds
/// `v`.
pub proof fn lemma_rank_bound(bag: Seq<Vertex>, v: Vertex)
    ensures
        rank_of(bag, v) <= bag.len(),
        bag.contains(v) ==> rank_of(bag, v) < bag.len(),
    decreases bag.len(),
{
    if bag.len() == 0 || bag[0] >= v {
        if bag.contains(v) {
            assert(bag.len() > 0);
        }
    } else {
        let rest = bag.subrange(1, bag.len() as int);
        lemma_rank_bound(rest, v);
        if bag.contains(v) {
            let k = choose|k: int| 0 <= k < bag.len() && bag[k] == v;
            assert(k > 0);
            assert(rest[k - 1] == v);
        }
    }
}

/// The first element of `a` that `b` lacks is an element of `a`.
pub proof fn lemma_first_missing_is_member(a: Seq<Vertex>, b: Seq<Vertex>)
    ensures
        first_missing(a, b) is Some ==> a.contains(first_missing(a, b)->0) && !b.contains(
            first_missing(a, b)->0,
        ),
    decreases a.len(),
{
    if a.len() == 0 {
    } else if !b.contains(a[0]) {
        assert(a[0] == a[0]);
    } else {
        let rest = a.subrange(1, a.len() as int);
        lemma_first_missing_is_member(rest, b);
        if first_missing(rest, b) is Some {
            let v = first_missing(rest, b)->0;
            let k = choose|k: int| 0 <= k < rest.len() && rest[k] == v;
            assert(a[k + 1] == v);
        }
    }
}

/// The place of `v` in the bag, or the place where it would be put in.
pub fn rank_in_bag(bag: &Bag, v: Vertex) -> (r: usize)
    ensures
        r == rank_of(bag@, v),
        r <= bag@.len(),
{
    let mut i: usize = 0;
    assert(bag@.subrange(0, bag@.len() as int) == bag@);
    while i < bag.len() && bag[i] < v
        invariant
            i <= bag.len(),
            rank_of(bag@, v) == i + rank_of(bag@.subrange(i as int, bag@.len() as int), v),
        decreases bag.len() - i,
    {
        let ghost rest = bag@.subrange(i as int, bag@.len() as int);
        assert(rest[0] == bag@[i as int]);
        assert(rest.subrange(1, rest.len() as int) == bag@.subrange(i + 1, bag@.len() as int));
        i = i + 1;
    }
    proof {
        let rest = bag@.subrange(i as int, bag@.len() as int);
        if i < bag.len() {
            assert(rest[0] == bag@[i as int]);
        }
    }
    i
}

/// Whether `q` stands in `order` before place `i`.
pub open spec fn comes_before(order: Seq<TreeNode>, q: TreeNode, i: int) -> bool {
    exists|j: int| 0 <= j < i && j < order.len() && order[j] == q
}

/// A nice tree decomposition with its stingy ordering and the vertex that
/// sets each node apart.
#[derive(PartialEq, Eq, Debug, Clone)]
pub struct NiceTreeDecomposition {
    tree_structure: TreeStructure,
    nodes_data: HashMap<TreeNode, NodeData>,
    stingy_ordering: Vec<TreeNode>,
    unique_vertices: HashMap<TreeNode, Vertex>,
    number_of_vertices: usize,
    width: usize,
}

impl NiceTreeDecomposition {
    /// The tree.
    pub closed spec fn spec_tree(&self) -> TreeStructure {
        self.tree_structure
    }

    /// The table from each node to its kind and bag.
    pub closed spec fn spec_data(&self) -> Map<TreeNode, NodeData> {
        self.nodes_data@
    }

    /// The stingy ordering.
    pub closed spec fn spec_ordering(&self) -> Seq<TreeNode> {
        self.stingy_ordering@
    }

    /// The table from each node to the vertex that sets it apart.
    pub closed spec fn spec_unique_vertices(&self) -> Map<TreeNode, Vertex> {
        self.unique_vertices@
    }

    /// The number of vertices of the pattern graphs that are decomposed.
    pub closed spec fn spec_vertex_count(&self) -> usize {
        self.number_of_vertices
    }

    /// The width that the decomposition was declared with.
    pub closed spec fn spec_width(&self) -> usize {
        self.width
    }

    /// The kind of node `p`.
    pub open spec fn spec_node_type(&self, p: TreeNode) -> Option<NodeType> {
        kind_of(self.spec_data(), p)
    }

    /// The bag of node `p`; empty if the node has no data.
    pub open spec fn spec_bag(&self, p: TreeNode) -> Seq<Vertex> {
        bag_of(self.spec_data(), p)
    }

    /// The children of node `p`.
    pub open spec fn spec_children(&self, p: TreeNode) -> Seq<TreeNode> {
        self.spec_tree().spec_children(p)
    }

    /// The root.
    pub open spec fn spec_root(&self) -> TreeNode {
        self.spec_tree().spec_root()
    }

    /// The vertex that sets node `p` apart, for the nodes of the ordering.
    pub open spec fn spec_unique_vertex(&self, p: TreeNode) -> Option<Vertex> {
        if self.spec_unique_vertices().contains_key(p) {
            Some(self.spec_unique_vertices()[p])
        } else {
            None
        }
    }

    /// The parts fit together: the tree's tables agree, every bag is in
    /// increasing order, the ordering is the stingy ordering from the root,
    /// and the vertices that set the nodes apart are those of the nodes of
    /// the ordering.
    pub open spec fn wf(&self) -> bool {
        &&& self.spec_tree().wf()
        &&& forall|p: TreeNode| #[trigger]
            self.spec_data().contains_key(p) ==> self.spec_data()[p].wf()
        &&& self.spec_ordering() == stingy_walk(
            self.spec_tree(),
            self.spec_data(),
            self.spec_root(),
            self.spec_tree().spec_node_count() as nat,
        ).0
        &&& forall|p: TreeNode|
            #![trigger self.spec_unique_vertex(p)]
            self.spec_unique_vertex(p) == if self.spec_ordering().contains(p) {
                unique_vertex_of(self.spec_tree(), self.spec_data(), p)
            } else {
                None
            }
    }

    /// The node at place `i` of `order` has the shape of its kind: a leaf
    /// has no child and one vertex; an introduce node has one child, which
    /// stands before it, and one vertex more than the child; a forget node
    /// has one child, which stands before it, and one vertex less than the
    /// child; a join node has two children, which stand before it, with as
    /// many vertices as the node.
    pub open spec fn node_is_nice(&self, order: Seq<TreeNode>, i: int) -> bool {
        let p = order[i];
        let c = self.spec_children(p);
        let bag = self.spec_bag(p);
        match self.spec_node_type(p) {
            None => false,
            Some(NodeType::Leaf) => c.len() == 0 && bag.len() == 1,
            Some(NodeType::Introduce) => c.len() == 1 && comes_before(order, c[0], i)
                && bag.len() == self.spec_bag(c[0]).len() + 1 && first_missing(
                bag,
                self.spec_bag(c[0]),
            ) is Some,
            Some(NodeType::Forget) => c.len() == 1 && comes_before(order, c[0], i)
                && self.spec_bag(c[0]).len() == bag.len() + 1 && first_missing(
                self.spec_bag(c[0]),
                bag,
            ) is Some,
            Some(NodeType::Join) => c.len() == 2 && comes_before(order, c[0], i) && comes_before(
                order,
                c[1],
                i,
            ) && self.spec_bag(c[0]).len() == bag.len() && self.spec_bag(c[1]).len() == bag.len(),
        }
    }

    /// `order` is an order in which the dynamic programs can visit the
    /// tree: it names no node twice and ends with the root, every node in it
    /// has the shape of its kind with its children before it, and every
    /// node in it but the root has its parent in it.
    pub open spec fn valid_order(&self, order: Seq<TreeNode>) -> bool {
        &&& order.len() >= 1
        &&& order.no_duplicates()
        &&& order.last() == self.spec_root()
        &&& forall|i: int| 0 <= i < order.len() ==> #[trigger] self.node_is_nice(order, i)
        &&& forall|i: int|
            0 <= i < order.len() - 1 ==> self.spec_tree().spec_parents().contains_key(
                #[trigger] order[i],
            ) && order.contains(self.spec_tree().spec_parents()[order[i]])
    }

    /// The decomposition is well formed and its stingy ordering is an order
    /// in which the dynamic programs can visit it.
    pub open spec fn nice(&self) -> bool {
        self.wf() && self.valid_order(self.spec_ordering())
    }

    /// Puts a decomposition together from its tree and the data of its
    /// nodes, and computes the stingy ordering and the vertex that sets each
    /// node apart.
    pub fn new(
        tree_structure: TreeStructure,
        nodes_data: HashMap<TreeNode, NodeData>,
        number_of_vertices: usize,
        width: usize,
    ) -> (ntd: NiceTreeDecomposition)
        requires
            tree_structure.wf(),
            forall|p: TreeNode| #[trigger] nodes_data@.contains_key(p) ==> nodes_data@[p].wf(),
        ensures
            ntd.wf(),
            ntd.spec_tree() == tree_structure,
            ntd.spec_data() == nodes_data@,
            ntd.spec_vertex_count() == number_of_vertices,
            ntd.spec_width() == width,
    {
        let stingy_ordering = Self::compute_stingy_ordering(&tree_structure, &nodes_data);
        let unique_vertices = Self::compute_unique_vertices(
            &tree_structure,
            &nodes_data,
            &stingy_ordering,
        );
        NiceTreeDecomposition {
            tree_structure,
            nodes_data,
            stingy_ordering,
            unique_vertices,
            number_of_vertices,
            width,
        }
    }

    /// The bag of node `p`, in increasing order.
    pub fn bag(&self, p: TreeNode) -> (r: Option<&Bag>)
        ensures
            match r {
                Some(b) => self.spec_data().contains_key(p) && b@ == self.spec_bag(p),
                None => !self.spec_data().contains_key(p),
            },
    {
        match self.nodes_data.get(&p) {
            Some(node_data) => Some(node_data.bag()),
            None => None,
        }
    }

    /// The kind of node `p`.
    pub fn node_type(&self, p: TreeNode) -> (r: Option<&NodeType>)
        ensures
            match r {
                Some(t) => self.spec_node_type(p) == Some(*t),
                None => self.spec_node_type(p) is None,
            },
    {
        match self.nodes_data.get(&p) {
            Some(node_data) => Some(node_data.node_type()),
            None => None,
        }
    }

    /// The number of nodes of the tree.
    pub fn node_count(&self) -> (n: TreeNode)
        ensures
            n == self.spec_tree().spec_node_count(),
    {
        self.tree_structure.node_count()
    }

    /// The number of vertices of the pattern graphs that are decomposed.
    pub fn vertex_count(&self) -> (n: usize)
        ensures
            n == self.spec_vertex_count(),
    {
        self.number_of_vertices
    }

    /// The width that the decomposition was declared with.
    pub fn width(&self) -> (w: usize)
        ensures
            w == self.spec_width(),
    {
        self.width
    }

    /// The root of the tree: the node reached from node 0 by following
    /// parent links.
    pub fn root(&self) -> (r: TreeNode)
        ensures
            r == self.spec_root(),
    {
        self.tree_structure.root()
    }

    /// The parent of node `p`.
    pub fn parent(&self, p: TreeNode) -> (r: Option<&TreeNode>)
        ensures
            match r {
                Some(q) => self.spec_tree().spec_parent(p) == Some(*q),
                None => self.spec_tree().spec_parent(p) is None,
            },
    {
        self.tree_structure.parent(p)
    }

    /// The children of node `p`, or `None` if it has none.
    pub fn children(&self, p: TreeNode) -> (r: Option<&Vec<TreeNode>>)
        requires
            self.wf(),
        ensures
            match r {
                Some(v) => v@ == self.spec_children(p) && v@.len() > 0,
                None => self.spec_children(p).len() == 0,
            },
    {
        self.tree_structure.children(p)
    }

    /// The number of children of node `p`.
    pub fn children_count(&self, p: TreeNode) -> (n: TreeNode)
        requires
            self.wf(),
        ensures
            n == self.spec_children(p).len(),
    {
        self.tree_structure.children_count(p)
    }

    /// Whether `p` is the parent of `q`.
    pub fn is_parent_of(&self, p: TreeNode, q: TreeNode) -> (r: bool)
        ensures
            r == (self.spec_tree().spec_parent(q) == Some(p)),
    {
        self.tree_structure.is_parent_of(p, q)
    }

    /// The child of an introduce node or a forget node: its first child.
    /// Other nodes have no such child.
    pub fn unique_child(&self, p: TreeNode) -> (r: Option<&TreeNode>)
        requires
            self.wf(),
        ensures
            match r {
                Some(q) => *q == self.spec_children(p)[0],
                None => true,
            },
            r is Some <==> (self.spec_node_type(p) == Some(NodeType::Introduce)
                || self.spec_node_type(p) == Some(NodeType::Forget)) && self.spec_children(p).len()
                > 0,
    {
        match self.node_type(p) {
            Some(NodeType::Introduce) | Some(NodeType::Forget) => {
                match self.children(p) {
                    Some(c) => Some(&c[0]),
                    None => None,
                }
            },
            _ => None,
        }
    }

    /// The vertex that sets apart each node of the ordering that has one.
    fn compute_unique_vertices(
        tree_structure: &TreeStructure,
        nodes_data: &HashMap<TreeNode, NodeData>,
        stingy_ordering: &Vec<TreeNode>,
    ) -> (unique_vertices: HashMap<TreeNode, Vertex>)
        requires
            tree_structure.wf(),
        ensures
            forall|p: TreeNode|
                #![trigger unique_vertices@.contains_key(p)]
                (unique_vertices@.contains_key(p) <==> stingy_ordering@.contains(p)
                    && unique_vertex_of(*tree_structure, nodes_data@, p) is Some) && (
                unique_vertices@.contains_key(p) ==> Some(unique_vertices@[p]) == unique_vertex_of(
                    *tree_structure,
                    nodes_data@,
                    p,
                )),
    {
        let mut unique_vertices: HashMap<TreeNode, Vertex> = HashMap::new();
        let mut i: usize = 0;
        while i < stingy_ordering.len()
            invariant
                i <= stingy_ordering.len(),
                tree_structure.wf(),
                forall|p: TreeNode|
                    #![trigger unique_vertices@.contains_key(p)]
                    (unique_vertices@.contains_key(p) <==> (exists|k: int|
                        0 <= k < i && stingy_ordering@[k] == p) && unique_vertex_of(
                        *tree_structure,
                        nodes_data@,
                        p,
                    ) is Some) && (unique_vertices@.contains_key(p) ==> Some(unique_vertices@[p])
                        == unique_vertex_of(*tree_structure, nodes_data@, p)),
            decreases stingy_ordering.len() - i,
        {
            let p: TreeNode = stingy_ordering[i];
            let found: Option<Vertex> = Self::find_unique_vertex(tree_structure, nodes_data, p);
            let ghost before = unique_vertices@;
            match found {
                Some(v) => {
                    unique_vertices.insert(p, v);
                },
                None => {},
            }
            assert forall|x: TreeNode|
                #![trigger unique_vertices@.contains_key(x)]
                (unique_vertices@.contains_key(x) <==> (exists|k: int|
                    0 <= k < i + 1 && stingy_ordering@[k] == x) && unique_vertex_of(
                    *tree_structure,
                    nodes_data@,
                    x,
                ) is Some) && (unique_vertices@.contains_key(x) ==> Some(unique_vertices@[x])
                    == unique_vertex_of(*tree_structure, nodes_data@, x)) by {
                if before.contains_key(x) {
                    let k = choose|k: int| 0 <= k < i && stingy_ordering@[k] == x;
                    assert(0 <= k < i + 1 && stingy_ordering@[k] == x);
                }
                if exists|k: int| 0 <= k < i + 1 && stingy_ordering@[k] == x {
                    let k = choose|k: int| 0 <= k < i + 1 && stingy_ordering@[k] == x;
                    if k < i {
                        assert(0 <= k < i && stingy_ordering@[k] == x);
                    }
                }
            }
            i = i + 1;
        }
        assert forall|p: TreeNode|
            stingy_ordering@.contains(p) <==> (exists|k: int|
                0 <= k < i && stingy_ordering@[k] == p) by {}
        unique_vertices
    }

    /// The vertex that sets node `p` apart, found from the bags of `p` and
    /// of its child. For a node of the ordering it is the vertex that
    /// `unique_vertex` gives.
    pub fn unique_vertex_from_bags(&self, p: TreeNode) -> (r: Option<Vertex>)
        requires
            self.wf(),
        ensures
            r == unique_vertex_of(self.spec_tree(), self.spec_data(), p),
    {
        Self::find_unique_vertex(&self.tree_structure, &self.nodes_data, p)
    }

    /// The vertex that sets node `p` apart, from the bags.
    fn find_unique_vertex(
        tree_structure: &TreeStructure,
        nodes_data: &HashMap<TreeNode, NodeData>,
        p: TreeNode,
    ) -> (r: Option<Vertex>)
        requires
            tree_structure.wf(),
        ensures
            r == unique_vertex_of(*tree_structure, nodes_data@, p),
    {
        match nodes_data.get(&p) {
            None => None,
            Some(node_data) => {
                match node_data.node_type() {
                    NodeType::Leaf => {
                        if node_data.bag().len() > 0 {
                            Some(node_data.bag()[0])
                        } else {
                            None
                        }
                    },
                    NodeType::Introduce => {
                        match tree_structure.children(p) {
                            None => None,
                            Some(c) => match nodes_data.get(&c[0]) {
                                None => None,
                                Some(child) => first_vertex_missing(node_data.bag(), child.bag()),
                            },
                        }
                    },
                    NodeType::Forget => {
                        match tree_structure.children(p) {
                            None => None,
                            Some(c) => match nodes_data.get(&c[0]) {
                                None => None,
                                Some(child) => first_vertex_missing(child.bag(), node_data.bag()),
                            },
                        }
                    },
                    NodeType::Join => None,
                }
            },
        }
    }

    /// The vertex that sets node `p` apart: the only vertex of a leaf, the
    /// vertex that an introduce node introduces, the vertex that a forget
    /// node forgets.
    pub fn unique_vertex(&self, p: TreeNode) -> (r: Option<&Vertex>)
        ensures
            match r {
                Some(v) => self.spec_unique_vertex(p) == Some(*v),
                None => self.spec_unique_vertex(p) is None,
            },
    {
        self.unique_vertices.get(&p)
    }

    /// The vertex that an introduce node introduces; other nodes introduce
    /// none.
    pub fn introduced_vertex(&self, node: TreeNode) -> (r: Option<Vertex>)
        requires
            self.wf(),
        ensures
            r == if self.spec_node_type(node) == Some(NodeType::Introduce) {
                unique_vertex_of(self.spec_tree(), self.spec_data(), node)
            } else {
                None
            },
    {
        match self.node_type(node) {
            Some(NodeType::Introduce) => self.unique_vertex_from_bags(node),
            _ => None,
        }
    }

    /// The vertex that a forget node forgets; other nodes forget none.
    pub fn forgotten_vertex(&self, node: TreeNode) -> (r: Option<Vertex>)
        requires
            self.wf(),
        ensures
            r == if self.spec_node_type(node) == Some(NodeType::Forget) {
                unique_vertex_of(self.spec_tree(), self.spec_data(), node)
            } else {
                None
            },
    {
        match self.node_type(node) {
            Some(NodeType::Forget) => self.unique_vertex_from_bags(node),
            _ => None,
        }
    }

    /// The stingy ordering: every node after its children, and of the two
    /// subtrees of a join node the one with more join nodes in a row first.
    pub fn stingy_ordering(&self) -> (r: Vec<TreeNode>)
        ensures
            r@ == self.spec_ordering(),
    {
        let r = self.stingy_ordering.clone();
        assert(r@ =~= self.stingy_ordering@);
        r
    }

    /// The stingy ordering of the whole tree.
    fn compute_stingy_ordering(
        tree_structure: &TreeStructure,
        nodes_data: &HashMap<TreeNode, NodeData>,
    ) -> (r: Vec<TreeNode>)
        requires
            tree_structure.wf(),
        ensures
            r@ == stingy_walk(
                *tree_structure,
                nodes_data@,
                tree_structure.spec_root(),
                tree_structure.spec_node_count() as nat,
            ).0,
    {
        Self::stingy_ordering_below(
            tree_structure,
            nodes_data,
            tree_structure.root(),
            tree_structure.node_count(),
        ).0
    }

    /// The stingy ordering of the subtree at `current_node` and its branch
    /// number: the number of join nodes in the subtree.
    pub fn recursive_stingy_ordering(&self, current_node: TreeNode) -> (r: (Vec<TreeNode>, TreeNode))
        requires
            self.wf(),
        ensures
            r.0@ == stingy_walk(
                self.spec_tree(),
                self.spec_data(),
                current_node,
                self.spec_tree().spec_node_count() as nat,
            ).0,
            r.1 == stingy_walk(
                self.spec_tree(),
                self.spec_data(),
                current_node,
                self.spec_tree().spec_node_count() as nat,
            ).1,
    {
        Self::stingy_ordering_below(
            &self.tree_structure,
            &self.nodes_data,
            current_node,
            self.tree_structure.node_count(),
        )
    }

    /// The stingy ordering of the subtree at `p` and its branch number,
    /// going at most `depth` levels down.
    fn stingy_ordering_below(
        tree_structure: &TreeStructure,
        nodes_data: &HashMap<TreeNode, NodeData>,
        p: TreeNode,
        depth: u64,
    ) -> (r: (Vec<TreeNode>, TreeNode))
        requires
            tree_structure.wf(),
        ensures
            r.0@ == stingy_walk(*tree_structure, nodes_data@, p, depth as nat).0,
            r.1 == stingy_walk(*tree_structure, nodes_data@, p, depth as nat).1,
            r.1 < r.0@.len(),
        decreases depth,
    {
        let mut stingy_order: Vec<TreeNode> = Vec::new();
        let mut branch_number: TreeNode = 0;
        if depth > 0 {
            match nodes_data.get(&p) {
                None => {},
                Some(node_data) => {
                    match node_data.node_type() {
                        NodeType::Leaf => {},
                        NodeType::Introduce | NodeType::Forget => {
                            match tree_structure.children(p) {
                                None => {},
                                Some(children) => {
                                    let (so, bn) = Self::stingy_ordering_below(
                                        tree_structure,
                                        nodes_data,
                                        children[0],
                                        depth - 1,
                                    );
                                    stingy_order = so;
                                    branch_number = bn;
                                },
                            }
                        },
                        NodeType::Join => {
                            match tree_structure.children(p) {
                                None => {},
                                Some(children) => {
                                    if children.len() >= 2 {
                                        let (mut so1, bn1) = Self::stingy_ordering_below(
                                            tree_structure,
                                            nodes_data,
                                            children[0],
                                            depth - 1,
                                        );
                                        let (mut so2, bn2) = Self::stingy_ordering_below(
                                            tree_structure,
                                            nodes_data,
                                            children[1],
                                            depth - 1,
                                        );
                                        let ghost len1 = so1@.len();
                                        let ghost len2 = so2@.len();
                                        if bn1 >= bn2 {
                                            stingy_order = so1;
                                            stingy_order.append(&mut so2);
                                        } else {
                                            stingy_order = so2;
                                            stingy_order.append(&mut so1);
                                        }
                                        stingy_order.push(p);
                                        let total: usize = stingy_order.len();
                                        assert(total == len1 + len2 + 1);
                                        branch_number = bn1 + bn2 + 1;
                                        return (stingy_order, branch_number);
                                    }
                                },
                            }
                        },
                    }
                },
            }
        }
        stingy_order.push(p);
        (stingy_order, branch_number)
    }
}

/// The table `positions` gives the place of every node of `order`, and of
/// no other node.
pub open spec fn places_of(order: Seq<TreeNode>, positions: Map<TreeNode, usize>) -> bool {
    &&& forall|x: TreeNode| #[trigger] positions.contains_key(x) <==> order.contains(x)
    &&& forall|x: TreeNode| #[trigger]
        positions.contains_key(x) ==> positions[x] < order.len() && order[positions[x] as int] == x
}

/// The place of every node of `order`, if no node stands in it twice.
pub fn index_positions(order: &Vec<TreeNode>) -> (r: Option<HashMap<TreeNode, usize>>)
    ensures
        match r {
            Some(positions) => order@.no_duplicates() && places_of(order@, positions@),
            None => !order@.no_duplicates(),
        },
{
    let mut positions: HashMap<TreeNode, usize> = HashMap::new();
    let mut i: usize = 0;
    while i < order.len()
        invariant
            i <= order.len(),
            order@.take(i as int).no_duplicates(),
            places_of(order@.take(i as int), positions@),
        decreases order.len() - i,
    {
        let x: TreeNode = order[i];
        let ghost sofar = order@.take(i as int);
        let ghost next = order@.take(i + 1);
        let ghost before = positions@;
        if positions.get(&x).is_some() {
            proof {
                let j = before[x] as int;
                assert(sofar[j] == x);
                assert(order@[j] == order@[i as int] && j != i);
            }
            return None;
        }
        positions.insert(x, i);
        proof {
            assert(next.len() == i + 1);
            assert forall|a: int, b: int| 0 <= a < next.len() && 0 <= b < next.len() && a
                != b implies next[a] != next[b] by {
                if a < i && b < i {
                    assert(sofar[a] != sofar[b]);
                } else if a < i {
                    assert(sofar[a] == next[a]);
                    assert(sofar.contains(next[a]));
                } else {
                    assert(sofar[b] == next[b]);
                    assert(sofar.contains(next[b]));
                }
            }
            assert forall|y: TreeNode| #[trigger] positions@.contains_key(y) <==> next.contains(
                y,
            ) by {
                if next.contains(y) {
                    let k = choose|k: int| 0 <= k < next.len() && next[k] == y;
                    if k < i {
                        assert(sofar[k] == y);
                        assert(sofar.contains(y));
                    }
                }
                if before.contains_key(y) {
                    let k = choose|k: int| 0 <= k < sofar.len() && sofar[k] == y;
                    assert(next[k] == y);
                }
                if y == x {
                    assert(next[i as int] == y);
                }
            }
            assert forall|y: TreeNode| #[trigger] positions@.contains_key(y) implies positions@[y]
                < next.len() && next[positions@[y] as int] == y by {
                if y != x {
                    assert(before.contains_key(y));
                    assert(sofar[before[y] as int] == y);
                }
            }
        }
        i = i + 1;
    }
    assert(order@.take(order@.len() as int) == order@);
    Some(positions)
}

/// With the places of the nodes at hand, a node comes before place `i`
/// exactly if its place is smaller.
pub proof fn lemma_comes_before(
    order: Seq<TreeNode>,
    positions: Map<TreeNode, usize>,
    q: TreeNode,
    i: int,
)
    requires
        order.no_duplicates(),
        places_of(order, positions),
        0 <= i <= order.len(),
    ensures
        comes_before(order, q, i) <==> positions.contains_key(q) && positions[q] < i,
{
    if comes_before(order, q, i) {
        let j = choose|j: int| 0 <= j < i && j < order.len() && order[j] == q;
        assert(order.contains(q));
        assert(positions.contains_key(q));
        assert(order[positions[q] as int] == q);
    }
    if positions.contains_key(q) && positions[q] < i {
        assert(order[positions[q] as int] == q);
    }
}

impl NiceTreeDecomposition {
    /// Whether the node `q` comes before place `i` of the order.
    fn child_comes_before(
        order: &Vec<TreeNode>,
        positions: &HashMap<TreeNode, usize>,
        q: TreeNode,
        i: usize,
    ) -> (r: bool)
        requires
            order@.no_duplicates(),
            places_of(order@, positions@),
            i <= order@.len(),
        ensures
            r == comes_before(order@, q, i as int),
    {
        proof {
            lemma_comes_before(order@, positions@, q, i as int);
        }
        match positions.get(&q) {
            Some(place) => *place < i,
            None => false,
        }
    }

    /// The number of vertices in the bag of `q`; none if `q` has no data.
    fn bag_size(&self, q: TreeNode) -> (r: usize)
        ensures
            r == self.spec_bag(q).len(),
    {
        match self.bag(q) {
            Some(bag) => bag.len(),
            None => 0,
        }
    }

    /// Whether the node at place `i` of `order` has the shape of its kind.
    fn node_fits(
        &self,
        order: &Vec<TreeNode>,
        positions: &HashMap<TreeNode, usize>,
        i: usize,
    ) -> (r: bool)
        requires
            self.wf(),
            order@.no_duplicates(),
            places_of(order@, positions@),
            i < order@.len(),
        ensures
            r == self.node_is_nice(order@, i as int),
    {
        let p: TreeNode = order[i];
        let count: TreeNode = self.children_count(p);
        let size: usize = self.bag_size(p);
        match self.node_type(p) {
            None => false,
            Some(NodeType::Leaf) => count == 0 && size == 1,
            Some(NodeType::Introduce) => {
                if count != 1 {
                    return false;
                }
                let q: TreeNode = self.children(p).unwrap()[0];
                let below: usize = self.bag_size(q);
                Self::child_comes_before(order, positions, q, i) && below < size && size - below
                    == 1 && match self.bag(q) {
                    Some(bag_q) => first_vertex_missing(self.bag(p).unwrap(), bag_q).is_some(),
                    None => size > 0,
                }
            },
            Some(NodeType::Forget) => {
                if count != 1 {
                    return false;
                }
                let q: TreeNode = self.children(p).unwrap()[0];
                let below: usize = self.bag_size(q);
                Self::child_comes_before(order, positions, q, i) && size < below && below - size
                    == 1 && match self.bag(q) {
                    Some(bag_q) => first_vertex_missing(bag_q, self.bag(p).unwrap()).is_some(),
                    None => false,
                }
            },
            Some(NodeType::Join) => {
                if count != 2 {
                    return false;
                }
                let children = self.children(p).unwrap();
                let q1: TreeNode = children[0];
                let q2: TreeNode = children[1];
                Self::child_comes_before(order, positions, q1, i) && Self::child_comes_before(
                    order,
                    positions,
                    q2,
                    i,
                ) && self.bag_size(q1) == size && self.bag_size(q2) == size
            },
        }
    }

    /// Whether `order` is an order in which the dynamic programs can visit
    /// the tree.
    pub fn is_valid_order(&self, order: &Vec<TreeNode>) -> (r: bool)
        requires
            self.wf(),
        ensures
            r == self.valid_order(order@),
    {
        if order.len() == 0 {
            return false;
        }
        if order[order.len() - 1] != self.root() {
            return false;
        }
        let positions = match index_positions(order) {
            Some(positions) => positions,
            None => {
                return false;
            },
        };
        let mut i: usize = 0;
        while i < order.len()
            invariant
                i <= order.len(),
                self.wf(),
                order@.no_duplicates(),
                places_of(order@, positions@),
                forall|j: int| 0 <= j < i ==> #[trigger] self.node_is_nice(order@, j),
                forall|j: int|
                    0 <= j < i && j < order@.len() - 1
                        ==> self.spec_tree().spec_parents().contains_key(#[trigger] order@[j])
                        && order@.contains(self.spec_tree().spec_parents()[order@[j]]),
            decreases order.len() - i,
        {
            if !self.node_fits(order, &positions, i) {
                return false;
            }
            if i < order.len() - 1 {
                match self.parent(order[i]) {
                    None => {
                        return false;
                    },
                    Some(parent) => {
                        if positions.get(parent).is_none() {
                            return false;
                        }
                    },
                }
            }
            i = i + 1;
        }
        true
    }

    /// Whether the decomposition has the shape that the dynamic programs
    /// need: whether its stingy ordering is an order in which they can
    /// visit it.
    pub fn is_nice(&self) -> (r: bool)
        requires
            self.wf(),
        ensures
            r == self.nice(),
    {
        self.is_valid_order(&self.stingy_ordering)
    }
}

} // verus!
