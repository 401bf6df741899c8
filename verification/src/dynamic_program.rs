//! The table of the dynamic programs and the rules that fill it.
//!
//! For a node `p`, a set of pattern edges and a mapping `f` of the bag of
//! `p` into the target graph, the table holds the number of ways in which
//! `f` extends to the vertices that were forgotten below `p`, so that every
//! pattern edge seen so far is mapped onto an edge of the target graph. The
//! set of pattern edges is kept as an integer; the program for one pattern
//! graph uses the integer 0 throughout.

use crate::edge_sets::EdgeList;
use crate::graphs::Graph;
use crate::integer_functions::apply;
use crate::integer_functions::digit;
use crate::integer_functions::extend;
use crate::integer_functions::insert_digit;
use crate::integer_functions::lemma_digit_of_insert;
use crate::integer_functions::lemma_insert_of_remove;
use crate::integer_functions::lemma_insert_range;
use crate::integer_functions::lemma_power_monotonic;
use crate::integer_functions::lemma_power_step;
use crate::integer_functions::lemma_remove_of_insert;
use crate::integer_functions::lemma_remove_range;
use crate::integer_functions::max_mappings;
use crate::integer_functions::power_of;
use crate::integer_functions::reduce;
use crate::integer_functions::remove_digit;
use crate::integer_functions::Mapping;
use crate::nice_tree_decomposition::comes_before;
use crate::nice_tree_decomposition::lemma_first_missing_is_member;
use crate::nice_tree_decomposition::lemma_rank_bound;
use crate::nice_tree_decomposition::rank_in_bag;
use crate::nice_tree_decomposition::rank_of;
use crate::nice_tree_decomposition::unique_vertex_of;
use crate::nice_tree_decomposition::Bag;
use crate::nice_tree_decomposition::NiceTreeDecomposition;
use crate::nice_tree_decomposition::NodeType;
use crate::tree_decompositions::TreeNode;
use crate::tree_decompositions::Vertex;
use std::collections::HashMap;
use vstd::prelude::*;
use vstd::std_specs::hash::group_hash_axioms;

verus! {

broadcast use group_hash_axioms;


/// The adjacency of a graph as a predicate on pairs of vertices.
pub open spec fn adjacency(g: Graph) -> spec_fn(Vertex, Vertex) -> bool {
    |u: Vertex, v: Vertex| g.adjacent(u, v)
}

/// Whether the mapping `f` of the bag `bag` may send the introduced vertex
/// `v` to the target vertex `a`: every vertex of the bag that the pattern
/// joins to `v` has an image that the target graph joins to `a`. The bag
/// holds `v` itself, so a self-loop at `v` asks for a self-loop at `a`. The
/// image of the vertex at place `k` of the bag is the digit of
/// significance `k` of `f`.
pub open spec fn introduce_condition(
    pattern: spec_fn(Vertex, Vertex) -> bool,
    to: Graph,
    bag: Seq<Vertex>,
    v: Vertex,
    a: nat,
    f: nat,
) -> bool {
    forall|k: int|
        0 <= k < bag.len() && pattern(v, #[trigger] bag[k]) ==> to.adjacent(
            a as usize,
            digit(to.order(), f, k as nat) as usize,
        )
}

/// The table entry of node `p` and mapping `f`, by the rule of the node's
/// kind, for a tree of fewer than `depth` levels below `p` (the count is 0
/// where the tree does not have the shape of a nice decomposition):
/// - leaf with vertex `v`: 1, but 0 if `v` has a self-loop in the pattern
///   and its image `f` has none in the target;
/// - introduce node with child `q` and vertex `v`, put in at place `s` of
///   the child's bag: the entry of `q` for `f` without its digit `s`, if the
///   image of `v` fits, and 0 otherwise;
/// - forget node with child `q` and vertex `v` at place `s` of the child's
///   bag: the sum over all target vertices `a` of the entries of `q` for `f`
///   with `a` put in at place `s`;
/// - join node: the product of the entries of its two children for `f`.
pub open spec fn extensions(
    ntd: NiceTreeDecomposition,
    pattern: spec_fn(Vertex, Vertex) -> bool,
    to: Graph,
    p: TreeNode,
    f: nat,
    depth: nat,
) -> nat
    decreases depth, 0nat,
{
    let n = to.order();
    let c = ntd.spec_children(p);
    let unique = unique_vertex_of(ntd.spec_tree(), ntd.spec_data(), p);
    if depth == 0 {
        0
    } else {
        match ntd.spec_node_type(p) {
            Some(NodeType::Leaf) => match unique {
                Some(v) => if pattern(v, v) && !to.adjacent(f as usize, f as usize) {
                    0
                } else {
                    1
                },
                None => 0,
            },
            Some(NodeType::Introduce) => match unique {
                Some(v) => {
                    let s = rank_of(ntd.spec_bag(c[0]), v);
                    if introduce_condition(pattern, to, ntd.spec_bag(p), v, digit(n, f, s), f) {
                        extensions(ntd, pattern, to, c[0], remove_digit(n, f, s), (depth - 1) as nat)
                    } else {
                        0
                    }
                },
                None => 0,
            },
            Some(NodeType::Forget) => match unique {
                Some(v) => {
                    let s = rank_of(ntd.spec_bag(c[0]), v);
                    forget_sum(ntd, pattern, to, c[0], f, s, n, (depth - 1) as nat)
                },
                None => 0,
            },
            Some(NodeType::Join) => if c.len() >= 2 {
                extensions(ntd, pattern, to, c[0], f, (depth - 1) as nat) * extensions(
                    ntd,
                    pattern,
                    to,
                    c[1],
                    f,
                    (depth - 1) as nat,
                )
            } else {
                0
            },
            None => 0,
        }
    }
}

/// The sum, over the target vertices `a` below `count`, of the entries of
/// node `q` for the mapping `f` with `a` put in at place `s`.
pub open spec fn forget_sum(
    ntd: NiceTreeDecomposition,
    pattern: spec_fn(Vertex, Vertex) -> bool,
    to: Graph,
    q: TreeNode,
    f: nat,
    s: nat,
    count: nat,
    depth: nat,
) -> nat
    decreases depth, count + 1,
{
    if count == 0 {
        0
    } else {
        forget_sum(ntd, pattern, to, q, f, s, (count - 1) as nat, depth) + extensions(
            ntd,
            pattern,
            to,
            q,
            insert_digit(to.order(), f, s, (count - 1) as nat),
            depth,
        )
    }
}

/// The number of mappings of the bag of node `p` into the target graph.
pub open spec fn row_count(ntd: NiceTreeDecomposition, to: Graph, p: TreeNode) -> nat {
    power_of(to.order(), ntd.spec_bag(p).len())
}

/// A table entry does not depend on the depth allowed, once the depth is
/// more than the node's place in a valid order.
pub proof fn lemma_depth_irrelevant(
    ntd: NiceTreeDecomposition,
    pattern: spec_fn(Vertex, Vertex) -> bool,
    to: Graph,
    order: Seq<TreeNode>,
    j: int,
    f: nat,
    d1: nat,
    d2: nat,
)
    requires
        ntd.valid_order(order),
        0 <= j < order.len(),
        d1 > j,
        d2 > j,
    ensures
        extensions(ntd, pattern, to, order[j], f, d1) == extensions(
            ntd,
            pattern,
            to,
            order[j],
            f,
            d2,
        ),
    decreases j, 0nat,
{
    let p = order[j];
    let c = ntd.spec_children(p);
    let n = to.order();
    assert(ntd.node_is_nice(order, j));
    let unique = unique_vertex_of(ntd.spec_tree(), ntd.spec_data(), p);
    match ntd.spec_node_type(p) {
        Some(NodeType::Introduce) => {
            if unique is Some {
                let v = unique->0;
                let s = rank_of(ntd.spec_bag(c[0]), v);
                let k = choose|k: int| 0 <= k < j && k < order.len() && order[k] == c[0];
                lemma_depth_irrelevant(
                    ntd,
                    pattern,
                    to,
                    order,
                    k,
                    remove_digit(n, f, s),
                    (d1 - 1) as nat,
                    (d2 - 1) as nat,
                );
            }
        },
        Some(NodeType::Forget) => {
            if unique is Some {
                let v = unique->0;
                let s = rank_of(ntd.spec_bag(c[0]), v);
                let k = choose|k: int| 0 <= k < j && k < order.len() && order[k] == c[0];
                lemma_forget_sum_depth(
                    ntd,
                    pattern,
                    to,
                    order,
                    k,
                    f,
                    s,
                    n,
                    (d1 - 1) as nat,
                    (d2 - 1) as nat,
                );
            }
        },
        Some(NodeType::Join) => {
            let k0 = choose|k: int| 0 <= k < j && k < order.len() && order[k] == c[0];
            let k1 = choose|k: int| 0 <= k < j && k < order.len() && order[k] == c[1];
            lemma_depth_irrelevant(ntd, pattern, to, order, k0, f, (d1 - 1) as nat, (d2 - 1) as nat);
            lemma_depth_irrelevant(ntd, pattern, to, order, k1, f, (d1 - 1) as nat, (d2 - 1) as nat);
        },
        _ => {},
    }
}

/// The sum at a forget node does not depend on the depth allowed either.
pub proof fn lemma_forget_sum_depth(
    ntd: NiceTreeDecomposition,
    pattern: spec_fn(Vertex, Vertex) -> bool,
    to: Graph,
    order: Seq<TreeNode>,
    k: int,
    f: nat,
    s: nat,
    count: nat,
    d1: nat,
    d2: nat,
)
    requires
        ntd.valid_order(order),
        0 <= k < order.len(),
        d1 > k,
        d2 > k,
    ensures
        forget_sum(ntd, pattern, to, order[k], f, s, count, d1) == forget_sum(
            ntd,
            pattern,
            to,
            order[k],
            f,
            s,
            count,
            d2,
        ),
    decreases k, count + 1,
{
    if count > 0 {
        lemma_forget_sum_depth(ntd, pattern, to, order, k, f, s, (count - 1) as nat, d1, d2);
        lemma_depth_irrelevant(
            ntd,
            pattern,
            to,
            order,
            k,
            insert_digit(to.order(), f, s, (count - 1) as nat),
            d1,
            d2,
        );
    }
}

/// The count at the root is the same for every valid order of the same
/// decomposition: whichever of two valid orders the dynamic program
/// follows, it ends with the same number.
pub proof fn lemma_count_independent_of_order(
    ntd: NiceTreeDecomposition,
    pattern: spec_fn(Vertex, Vertex) -> bool,
    to: Graph,
    first: Seq<TreeNode>,
    second: Seq<TreeNode>,
)
    requires
        ntd.valid_order(first),
        ntd.valid_order(second),
    ensures
        extensions(ntd, pattern, to, ntd.spec_root(), 0, first.len()) == extensions(
            ntd,
            pattern,
            to,
            ntd.spec_root(),
            0,
            second.len(),
        ),
{
    let top = if first.len() >= second.len() {
        first.len()
    } else {
        second.len()
    };
    lemma_depth_irrelevant(ntd, pattern, to, first, first.len() - 1, 0, first.len(), top);
    lemma_depth_irrelevant(ntd, pattern, to, second, second.len() - 1, 0, second.len(), top);
}

/// The sum at a forget node grows with the number of target vertices
/// summed over.
pub proof fn lemma_forget_sum_grows(
    ntd: NiceTreeDecomposition,
    pattern: spec_fn(Vertex, Vertex) -> bool,
    to: Graph,
    q: TreeNode,
    f: nat,
    s: nat,
    count: nat,
    more: nat,
    depth: nat,
)
    requires
        count <= more,
    ensures
        forget_sum(ntd, pattern, to, q, f, s, count, depth) <= forget_sum(
            ntd,
            pattern,
            to,
            q,
            f,
            s,
            more,
            depth,
        ),
    decreases more,
{
    if count < more {
        lemma_forget_sum_grows(ntd, pattern, to, q, f, s, count, (more - 1) as nat, depth);
    }
}

/// Every row of the table fits into its integers: for each node of
/// `order`, the number of mappings of its bag and each entry of its row are
/// at most `u64::MAX`.
pub open spec fn counts_fit(
    ntd: NiceTreeDecomposition,
    pattern: spec_fn(Vertex, Vertex) -> bool,
    to: Graph,
    order: Seq<TreeNode>,
) -> bool {
    forall|i: int|
        0 <= i < order.len() ==> row_count(ntd, to, #[trigger] order[i]) <= u64::MAX && forall|
            f: Mapping,
        |
            f < row_count(ntd, to, order[i]) ==> #[trigger] extensions(
                ntd,
                pattern,
                to,
                order[i],
                f as nat,
                order.len(),
            ) <= u64::MAX
}

/// After the first `i` nodes of `order` were visited, the row of `x` is
/// still needed: `x` was visited and its parent was not.
pub open spec fn live(ntd: NiceTreeDecomposition, order: Seq<TreeNode>, x: TreeNode, i: int) -> bool {
    comes_before(order, x, i) && !(ntd.spec_tree().spec_parents().contains_key(x) && comes_before(
        order,
        ntd.spec_tree().spec_parents()[x],
        i,
    ))
}

/// A node of a valid order does not stand before its own place, and its
/// children are live when it is visited, differ from it and have data.
pub proof fn lemma_children_are_live(
    ntd: NiceTreeDecomposition,
    order: Seq<TreeNode>,
    i: int,
    m: int,
)
    requires
        ntd.wf(),
        ntd.valid_order(order),
        0 <= i < order.len(),
        0 <= m < ntd.spec_children(order[i]).len(),
    ensures
        !comes_before(order, order[i], i),
        live(ntd, order, ntd.spec_children(order[i])[m], i),
        ntd.spec_children(order[i])[m] != order[i],
        ntd.spec_data().contains_key(ntd.spec_children(order[i])[m]),
        ntd.spec_tree().spec_parent(ntd.spec_children(order[i])[m]) == Some(order[i]),
{
    let p = order[i];
    let q = ntd.spec_children(p)[m];
    assert(ntd.node_is_nice(order, i));
    assert(ntd.spec_tree().spec_parent(ntd.spec_tree().spec_children(p)[m]) == Some(p));
    assert(comes_before(order, q, i));
    let j = choose|j: int| 0 <= j < i && j < order.len() && order[j] == q;
    assert(ntd.node_is_nice(order, j));
}

/// The children of a node of a valid order differ from the node.
pub proof fn lemma_children_are_distinct(
    ntd: NiceTreeDecomposition,
    order: Seq<TreeNode>,
    i: int,
)
    requires
        ntd.wf(),
        ntd.valid_order(order),
        0 <= i < order.len(),
    ensures
        !ntd.spec_children(order[i]).contains(order[i]),
{
    if ntd.spec_children(order[i]).contains(order[i]) {
        let m = choose|m: int|
            0 <= m < ntd.spec_children(order[i]).len() && ntd.spec_children(order[i])[m]
                == order[i];
        lemma_children_are_live(ntd, order, i, m);
    }
}

/// A node of a valid order does not stand before its own place.
pub proof fn lemma_not_yet_visited(ntd: NiceTreeDecomposition, order: Seq<TreeNode>, i: int)
    requires
        ntd.valid_order(order),
        0 <= i < order.len(),
    ensures
        !comes_before(order, order[i], i),
{
}

/// Visiting the node at place `i` makes that node live and ends the life
/// of its children, and of no other node.
pub proof fn lemma_live_step(ntd: NiceTreeDecomposition, order: Seq<TreeNode>, i: int, x: TreeNode)
    requires
        ntd.wf(),
        ntd.valid_order(order),
        0 <= i < order.len(),
    ensures
        live(ntd, order, x, i + 1) <==> x == order[i] || (live(ntd, order, x, i)
            && !ntd.spec_children(order[i]).contains(x)),
{
    let p = order[i];
    let parents = ntd.spec_tree().spec_parents();
    assert(comes_before(order, p, i + 1)) by {
        assert(0 <= i < i + 1 && i < order.len() && order[i] == p);
    }
    if live(ntd, order, x, i + 1) {
        let j = choose|j: int| 0 <= j < i + 1 && j < order.len() && order[j] == x;
        if j < i {
            assert(comes_before(order, x, i));
            if parents.contains_key(x) && comes_before(order, parents[x], i) {
                let k = choose|k: int| 0 <= k < i && k < order.len() && order[k] == parents[x];
                assert(0 <= k < i + 1 && k < order.len() && order[k] == parents[x]);
            }
            if ntd.spec_children(p).contains(x) {
                let m = choose|m: int|
                    0 <= m < ntd.spec_children(p).len() && ntd.spec_children(p)[m] == x;
                assert(ntd.spec_tree().spec_parent(ntd.spec_tree().spec_children(p)[m]) == Some(
                    p,
                ));
            }
        }
    }
    if x == p {
        if parents.contains_key(x) && comes_before(order, parents[x], i + 1) {
            let pp = parents[x];
            let k = choose|k: int| 0 <= k < i + 1 && k < order.len() && order[k] == pp;
            assert(ntd.spec_tree().spec_children(pp).contains(x));
            let m = choose|m: int|
                0 <= m < ntd.spec_children(pp).len() && ntd.spec_children(pp)[m] == x;
            assert(ntd.node_is_nice(order, k));
            assert(comes_before(order, x, k));
            let j = choose|j: int| 0 <= j < k && j < order.len() && order[j] == x;
            assert(order[j] == order[i] && j != i);
            assert(false);
        }
    }
    if live(ntd, order, x, i) && !ntd.spec_children(p).contains(x) {
        let j = choose|j: int| 0 <= j < i && j < order.len() && order[j] == x;
        assert(0 <= j < i + 1 && j < order.len() && order[j] == x);
        if parents.contains_key(x) && comes_before(order, parents[x], i + 1) {
            let k = choose|k: int| 0 <= k < i + 1 && k < order.len() && order[k] == parents[x];
            if k < i {
                assert(comes_before(order, parents[x], i));
            } else {
                assert(ntd.spec_tree().spec_children(parents[x]).contains(x));
            }
            assert(false);
        }
    }
}

/// What the rule of the node at place `i` needs of the numbers: the rows
/// of the node and of its children have at most `u64::MAX` entries, and
/// the entries of the node's row for the pattern are at most `u64::MAX`.
pub proof fn lemma_row_fits(
    ntd: NiceTreeDecomposition,
    pattern: spec_fn(Vertex, Vertex) -> bool,
    to: Graph,
    order: Seq<TreeNode>,
    i: int,
)
    requires
        ntd.wf(),
        ntd.valid_order(order),
        0 <= i < order.len(),
        counts_fit(ntd, pattern, to, order),
    ensures
        row_count(ntd, to, order[i]) <= u64::MAX,
        forall|m: int|
            0 <= m < ntd.spec_children(order[i]).len() ==> row_count(
                ntd,
                to,
                #[trigger] ntd.spec_children(order[i])[m],
            ) <= u64::MAX,
        forall|f: Mapping|
            f < row_count(ntd, to, order[i]) ==> #[trigger] extensions(
                ntd,
                pattern,
                to,
                order[i],
                f as nat,
                order.len() + 1,
            ) <= u64::MAX,
{
    assert forall|m: int| 0 <= m < ntd.spec_children(order[i]).len() implies row_count(
        ntd,
        to,
        #[trigger] ntd.spec_children(order[i])[m],
    ) <= u64::MAX by {
        lemma_children_are_live(ntd, order, i, m);
        let q = ntd.spec_children(order[i])[m];
        let j = choose|j: int| 0 <= j < i && j < order.len() && order[j] == q;
        assert(row_count(ntd, to, order[j]) <= u64::MAX);
    }
    assert forall|f: Mapping| f < row_count(ntd, to, order[i]) implies #[trigger] extensions(
        ntd,
        pattern,
        to,
        order[i],
        f as nat,
        order.len() + 1,
    ) <= u64::MAX by {
        lemma_depth_irrelevant(ntd, pattern, to, order, i, f as nat, order.len(), order.len() + 1);
        assert(extensions(ntd, pattern, to, order[i], f as nat, order.len()) <= u64::MAX);
    }
}

/// The table `m` without the entries of node `p`.
pub open spec fn without_node(m: Map<(TreeNode, EdgeList, Mapping), u64>, p: TreeNode) -> Map<
    (TreeNode, EdgeList, Mapping),
    u64,
> {
    Map::new(
        |k: (TreeNode, EdgeList, Mapping)| m.contains_key(k) && k.0 != p,
        |k: (TreeNode, EdgeList, Mapping)| m[k],
    )
}

/// Whether the mapping `f` may send a vertex to the target vertex `a`,
/// where `neighbours` says of each place of the bag whether the pattern
/// joins the vertex there to that vertex.
pub open spec fn flagged_condition(to: Graph, neighbours: Seq<bool>, a: nat, f: nat) -> bool {
    forall|k: int|
        0 <= k < neighbours.len() && #[trigger] neighbours[k] ==> to.adjacent(
            a as usize,
            digit(to.order(), f, k as nat) as usize,
        )
}

/// The table of a dynamic program with the target graph and the
/// decomposition that it is computed for.
pub struct Table<'a> {
    table: HashMap<TreeNode, HashMap<EdgeList, HashMap<Mapping, u64>>>,
    nice_tree_decomposition: &'a NiceTreeDecomposition,
    to_graph: &'a Graph,
}

impl<'a> Table<'a> {
    /// The table: from a node, a set of edges and a mapping of the node's
    /// bag to the entry.
    pub closed spec fn entries(&self) -> Map<(TreeNode, EdgeList, Mapping), u64> {
        Map::new(
            |k: (TreeNode, EdgeList, Mapping)|
                self.table@.contains_key(k.0) && self.table@[k.0]@.contains_key(k.1)
                    && self.table@[k.0]@[k.1]@.contains_key(k.2),
            |k: (TreeNode, EdgeList, Mapping)| self.table@[k.0]@[k.1]@[k.2],
        )
    }

    /// The decomposition.
    pub closed spec fn ntd(&self) -> NiceTreeDecomposition {
        *self.nice_tree_decomposition
    }

    /// The target graph.
    pub closed spec fn target_graph(&self) -> Graph {
        *self.to_graph
    }

    /// The base of the mappings: the number of vertices of the target.
    pub open spec fn base(&self) -> nat {
        self.target_graph().order()
    }

    /// `other` is a table for the same target graph and decomposition.
    pub open spec fn same_context(&self, other: &Self) -> bool {
        &&& self.ntd() == other.ntd()
        &&& self.target_graph() == other.target_graph()
    }

    /// The entry that belongs at node `p` and mapping `f` for the pattern
    /// with the given adjacency.
    pub open spec fn value(
        &self,
        pattern: spec_fn(Vertex, Vertex) -> bool,
        p: TreeNode,
        f: nat,
        depth: nat,
    ) -> nat {
        extensions(self.ntd(), pattern, self.target_graph(), p, f, depth)
    }

    /// The number of mappings of the bag of `p`.
    pub open spec fn rows(&self, p: TreeNode) -> nat {
        row_count(self.ntd(), self.target_graph(), p)
    }

    /// The table holds for node `p` and the edge set `e` exactly the
    /// entries that belong there for the given pattern.
    pub open spec fn holds_row(
        &self,
        p: TreeNode,
        e: EdgeList,
        pattern: spec_fn(Vertex, Vertex) -> bool,
        depth: nat,
    ) -> bool {
        forall|f: Mapping|
            #![trigger self.entries().contains_key((p, e, f))]
            (self.entries().contains_key((p, e, f)) <==> f < self.rows(p)) && (f < self.rows(p)
                ==> self.entries()[(p, e, f)] == self.value(pattern, p, f as nat, depth))
    }

    /// The table holds nothing for node `p` and the edge set `e`.
    pub open spec fn lacks_row(&self, p: TreeNode, e: EdgeList) -> bool {
        forall|f: Mapping| !#[trigger] self.entries().contains_key((p, e, f))
    }

    /// But for the row of node `p` and edge set `e`, the table is as
    /// `before`.
    pub open spec fn kept_but_row(&self, before: &Self, p: TreeNode, e: EdgeList) -> bool {
        forall|k: (TreeNode, EdgeList, Mapping)|
            #![trigger self.entries().contains_key(k)]
            !(k.0 == p && k.1 == e) ==> (self.entries().contains_key(k)
                <==> before.entries().contains_key(k)) && (self.entries().contains_key(k)
                ==> self.entries()[k] == before.entries()[k])
    }

    /// An empty table for the given target graph and decomposition.
    pub fn new<'b>(to_graph: &'b Graph, nice_tree_decomposition: &'b NiceTreeDecomposition) -> (t:
        Table<'b>)
        ensures
            t.entries() == Map::<(TreeNode, EdgeList, Mapping), u64>::empty(),
            t.ntd() == *nice_tree_decomposition,
            t.target_graph() == *to_graph,
    {
        let t = Table { table: HashMap::new(), nice_tree_decomposition, to_graph };
        assert(t.entries() =~= Map::<(TreeNode, EdgeList, Mapping), u64>::empty());
        t
    }

    /// The decomposition that the table is computed for.
    pub fn decomposition(&self) -> (ntd: &'a NiceTreeDecomposition)
        ensures
            *ntd == self.ntd(),
    {
        self.nice_tree_decomposition
    }

    /// The entry of node `p`, edge set `e` and mapping `f`, if the table
    /// holds one.
    pub fn get(&self, p: &TreeNode, e: &EdgeList, f: &Mapping) -> (r: Option<&u64>)
        ensures
            match r {
                Some(v) => self.entries().contains_key((*p, *e, *f)) && self.entries()[(
                    *p,
                    *e,
                    *f,
                )] == *v,
                None => !self.entries().contains_key((*p, *e, *f)),
            },
    {
        match self.table.get(p) {
            Some(sets) => match sets.get(e) {
                Some(mappings) => mappings.get(f),
                None => None,
            },
            None => None,
        }
    }

    /// Sets the entry of node `p`, edge set `e` and mapping `f` to `v`.
    pub fn set(&mut self, p: TreeNode, e: EdgeList, f: Mapping, v: u64)
        ensures
            final(self).entries() == old(self).entries().insert((p, e, f), v),
            final(self).same_context(old(self)),
    {
        let mut sets: HashMap<EdgeList, HashMap<Mapping, u64>> = match self.table.remove(&p) {
            Some(r) => r,
            None => HashMap::new(),
        };
        let mut row: HashMap<Mapping, u64> = match sets.remove(&e) {
            Some(r) => r,
            None => HashMap::new(),
        };
        row.insert(f, v);
        sets.insert(e, row);
        self.table.insert(p, sets);
        assert(self.entries() =~= old(self).entries().insert((p, e, f), v));
    }

    /// Deletes the entries of node `p`.
    pub fn remove(&mut self, p: TreeNode)
        ensures
            final(self).entries() == without_node(old(self).entries(), p),
            final(self).same_context(old(self)),
    {
        self.table.remove(&p);
        assert(self.entries() =~= without_node(old(self).entries(), p));
    }

    /// The image of the bag place of significance `s` under `f`, in the
    /// base of the target graph.
    pub fn table_apply(&self, f: Mapping, s: Mapping) -> (r: Mapping)
        requires
            self.base() >= 1,
            power_of(self.base(), s as nat) <= u64::MAX,
        ensures
            r == digit(self.base(), f as nat, s as nat),
            r < self.base(),
    {
        apply(self.to_graph.node_count() as Mapping, f, s)
    }

    /// The mapping `f` with the image `v` put in at significance `s`, in the
    /// base of the target graph.
    pub fn table_extend(&self, f: Mapping, s: Mapping, v: Mapping) -> (r: Mapping)
        requires
            self.base() >= 1,
            power_of(self.base(), s as nat) <= u64::MAX,
            insert_digit(self.base(), f as nat, s as nat, v as nat) <= u64::MAX,
        ensures
            r == insert_digit(self.base(), f as nat, s as nat, v as nat),
    {
        extend(self.to_graph.node_count() as Mapping, f, s, v)
    }

    /// The mapping `f` without its digit of significance `s`, in the base
    /// of the target graph.
    pub fn table_reduce(&self, f: Mapping, s: Mapping) -> (r: Mapping)
        requires
            self.base() >= 1,
            power_of(self.base(), s as nat + 1) <= u64::MAX,
        ensures
            r == remove_digit(self.base(), f as nat, s as nat),
    {
        reduce(self.to_graph.node_count() as Mapping, f, s)
    }

    /// The number of mappings of the bag of `node` into the target graph.
    pub fn max_bag_mappings(&self, node: TreeNode) -> (r: Mapping)
        requires
            self.ntd().spec_data().contains_key(node),
            self.rows(node) <= u64::MAX,
        ensures
            r == self.rows(node),
    {
        let bag = self.nice_tree_decomposition.bag(node).unwrap();
        max_mappings(bag.len() as Mapping, self.to_graph.node_count() as Mapping)
    }

    /// The bag of node `p` in increasing order: the place of a vertex in it
    /// is the significance of its image in a mapping.
    pub fn sorted_bag(&self, p: TreeNode) -> (r: Option<&Bag>)
        ensures
            match r {
                Some(b) => self.ntd().spec_data().contains_key(p) && b@ == self.ntd().spec_bag(p),
                None => !self.ntd().spec_data().contains_key(p),
            },
    {
        self.nice_tree_decomposition.bag(p)
    }

    /// Whether the mapping `f` may send a vertex to the target vertex `a`,
    /// where `neighbours` says of each place of the bag whether the pattern
    /// joins the vertex there to that vertex.
    fn image_fits(&self, neighbours: &Vec<bool>, a: usize, f: Mapping) -> (r: bool)
        requires
            self.base() >= 1,
            power_of(self.base(), neighbours@.len()) <= u64::MAX,
        ensures
            r == flagged_condition(self.target_graph(), neighbours@, a as nat, f as nat),
    {
        let mut k: usize = 0;
        while k < neighbours.len()
            invariant
                k <= neighbours.len(),
                self.base() >= 1,
                power_of(self.base(), neighbours@.len()) <= u64::MAX,
                forall|j: int|
                    0 <= j < k && #[trigger] neighbours@[j] ==> self.target_graph().adjacent(
                        a,
                        digit(self.base(), f as nat, j as nat) as usize,
                    ),
            decreases neighbours.len() - k,
        {
            if neighbours[k] {
                proof {
                    lemma_power_monotonic(self.base(), k as nat, neighbours@.len());
                }
                let image: Mapping = self.table_apply(f, k as Mapping);
                if !self.to_graph.has_edge(a, image as usize) {
                    assert(neighbours@[k as int]);
                    return false;
                }
            }
            k = k + 1;
        }
        true
    }

    /// Fills the row of a leaf for the edge set `e`. `looped` says whether
    /// the pattern has a self-loop at the leaf's vertex.
    pub(crate) fn fill_leaf(
        &mut self,
        p: TreeNode,
        e: EdgeList,
        looped: bool,
        Ghost(pattern): Ghost<spec_fn(Vertex, Vertex) -> bool>,
        Ghost(depth): Ghost<nat>,
    )
        requires
            old(self).ntd().wf(),
            old(self).ntd().spec_node_type(p) == Some(NodeType::Leaf),
            old(self).ntd().spec_bag(p).len() == 1,
            old(self).lacks_row(p, e),
            depth >= 1,
            looped == pattern(old(self).ntd().spec_bag(p)[0], old(self).ntd().spec_bag(p)[0]),
        ensures
            final(self).same_context(old(self)),
            final(self).holds_row(p, e, pattern, depth),
            final(self).kept_but_row(old(self), p, e),
    {
        let n: usize = self.to_graph.node_count();
        proof {
            lemma_power_step(n as nat, 0);
        }
        let ghost v = self.ntd().spec_bag(p)[0];
        let mut a: usize = 0;
        while a < n
            invariant
                a <= n,
                n == self.base(),
                self.rows(p) == n,
                looped == pattern(v, v),
                self.same_context(old(self)),
                self.ntd().spec_node_type(p) == Some(NodeType::Leaf),
                unique_vertex_of(self.ntd().spec_tree(), self.ntd().spec_data(), p) == Some(v),
                depth >= 1,
                self.kept_but_row(old(self), p, e),
                forall|f: Mapping|
                    #![trigger self.entries().contains_key((p, e, f))]
                    (self.entries().contains_key((p, e, f)) <==> f < a) && (f < a
                        ==> self.entries()[(p, e, f)] == self.value(pattern, p, f as nat, depth)),
            decreases n - a,
        {
            let value: u64 = if looped && !self.to_graph.has_edge(a, a) {
                0
            } else {
                1
            };
            assert((a as Mapping) as nat as usize == a);
            self.set(p, e, a as Mapping, value);
            a = a + 1;
        }
    }

    /// Fills the row of an introduce node for the edge set `e` from the row
    /// of its child `q` for the edge set `below`. `neighbours` says of each
    /// place of the node's bag whether the pattern joins the vertex there
    /// to the introduced vertex.
    pub(crate) fn fill_introduce(
        &mut self,
        p: TreeNode,
        q: TreeNode,
        e: EdgeList,
        below: EdgeList,
        neighbours: &Vec<bool>,
        Ghost(pattern): Ghost<spec_fn(Vertex, Vertex) -> bool>,
        Ghost(depth): Ghost<nat>,
    )
        requires
            old(self).ntd().wf(),
            old(self).ntd().spec_node_type(p) == Some(NodeType::Introduce),
            old(self).ntd().spec_children(p).len() == 1,
            old(self).ntd().spec_children(p)[0] == q,
            p != q,
            old(self).ntd().spec_data().contains_key(q),
            old(self).ntd().spec_bag(p).len() == old(self).ntd().spec_bag(q).len() + 1,
            unique_vertex_of(old(self).ntd().spec_tree(), old(self).ntd().spec_data(), p) is Some,
            old(self).rows(p) <= u64::MAX,
            old(self).rows(q) <= u64::MAX,
            old(self).lacks_row(p, e),
            old(self).holds_row(q, below, pattern, depth),
            neighbours@.len() == old(self).ntd().spec_bag(p).len(),
            forall|k: int|
                0 <= k < neighbours@.len() ==> #[trigger] neighbours@[k] == pattern(
                    unique_vertex_of(
                        old(self).ntd().spec_tree(),
                        old(self).ntd().spec_data(),
                        p,
                    )->0,
                    old(self).ntd().spec_bag(p)[k],
                ),
        ensures
            final(self).same_context(old(self)),
            final(self).holds_row(p, e, pattern, depth + 1),
            final(self).kept_but_row(old(self), p, e),
    {
        let n: usize = self.to_graph.node_count();
        let ntd = self.nice_tree_decomposition;
        let v: Vertex = ntd.unique_vertex_from_bags(p).unwrap();
        let bag_q = ntd.bag(q).unwrap();
        let new_index: usize = rank_in_bag(bag_q, v);
        let count_q: Mapping = self.max_bag_mappings(q);
        let ghost s = new_index as nat;
        let ghost d = bag_q@.len();
        let ghost base = n as nat;
        let ghost bag_p = self.ntd().spec_bag(p);
        proof {
            lemma_power_step(base, d);
        }
        let mut f_q: Mapping = 0;
        while f_q < count_q
            invariant
                f_q <= count_q,
                count_q == self.rows(q),
                n == self.base(),
                base == n,
                s == new_index,
                s == rank_of(self.ntd().spec_bag(q), v),
                s <= d,
                d == bag_q@.len(),
                bag_q@ == self.ntd().spec_bag(q),
                bag_p == self.ntd().spec_bag(p),
                bag_p.len() == d + 1,
                neighbours@.len() == d + 1,
                forall|k: int|
                    0 <= k < neighbours@.len() ==> #[trigger] neighbours@[k] == pattern(
                        v,
                        bag_p[k],
                    ),
                p != q,
                self.rows(p) <= u64::MAX,
                self.rows(q) <= u64::MAX,
                self.rows(q) == power_of(base, d),
                self.rows(p) == power_of(base, d + 1),
                self.same_context(old(self)),
                self.ntd().spec_node_type(p) == Some(NodeType::Introduce),
                self.ntd().spec_children(p)[0] == q,
                unique_vertex_of(self.ntd().spec_tree(), self.ntd().spec_data(), p) == Some(v),
                self.holds_row(q, below, pattern, depth),
                self.kept_but_row(old(self), p, e),
                forall|f: Mapping|
                    #![trigger self.entries().contains_key((p, e, f))]
                    (self.entries().contains_key((p, e, f)) <==> f < self.rows(p) && remove_digit(
                        base,
                        f as nat,
                        s,
                    ) < f_q) && (self.entries().contains_key((p, e, f)) ==> self.entries()[(
                        p,
                        e,
                        f,
                    )] == self.value(pattern, p, f as nat, depth + 1)),
            decreases count_q - f_q,
        {
            let mut a: usize = 0;
            while a < n
                invariant
                    a <= n,
                    f_q < count_q,
                    count_q == self.rows(q),
                    n == self.base(),
                    base == n,
                    s == new_index,
                    s == rank_of(self.ntd().spec_bag(q), v),
                    s <= d,
                    d == bag_q@.len(),
                    bag_q@ == self.ntd().spec_bag(q),
                    bag_p == self.ntd().spec_bag(p),
                    bag_p.len() == d + 1,
                    neighbours@.len() == d + 1,
                    forall|k: int|
                        0 <= k < neighbours@.len() ==> #[trigger] neighbours@[k] == pattern(
                            v,
                            bag_p[k],
                        ),
                    p != q,
                    self.rows(p) <= u64::MAX,
                    self.rows(q) <= u64::MAX,
                    self.rows(q) == power_of(base, d),
                    self.rows(p) == power_of(base, d + 1),
                    self.same_context(old(self)),
                    self.ntd().spec_node_type(p) == Some(NodeType::Introduce),
                    self.ntd().spec_children(p)[0] == q,
                    unique_vertex_of(self.ntd().spec_tree(), self.ntd().spec_data(), p) == Some(
                        v,
                    ),
                    self.holds_row(q, below, pattern, depth),
                    self.kept_but_row(old(self), p, e),
                    forall|f: Mapping|
                        #![trigger self.entries().contains_key((p, e, f))]
                        (self.entries().contains_key((p, e, f)) <==> f < self.rows(p) && (
                        remove_digit(base, f as nat, s) < f_q || (remove_digit(base, f as nat, s)
                            == f_q && digit(base, f as nat, s) < a))) && (
                        self.entries().contains_key((p, e, f)) ==> self.entries()[(p, e, f)]
                            == self.value(pattern, p, f as nat, depth + 1)),
                decreases n - a,
            {
                proof {
                    lemma_insert_range(base, f_q as nat, s, a as nat, d);
                    lemma_power_monotonic(base, s, d);
                    lemma_digit_of_insert(base, f_q as nat, s, a as nat);
                    lemma_remove_of_insert(base, f_q as nat, s, a as nat);
                }
                let f_prime: Mapping = self.table_extend(
                    f_q,
                    new_index as Mapping,
                    a as Mapping,
                );
                let condition: bool = self.image_fits(neighbours, a, f_prime);
                assert(condition == introduce_condition(
                    pattern,
                    self.target_graph(),
                    bag_p,
                    v,
                    a as nat,
                    f_prime as nat,
                )) by {
                    if condition {
                        assert forall|k: int|
                            0 <= k < bag_p.len() && pattern(
                                v,
                                #[trigger] bag_p[k],
                            ) implies self.target_graph().adjacent(
                            a,
                            digit(base, f_prime as nat, k as nat) as usize,
                        ) by {
                            assert(neighbours@[k]);
                        }
                    }
                }
                assert(self.entries().contains_key((q, below, f_q)));
                let child: u64 = *self.get(&q, &below, &f_q).unwrap();
                let value: u64 = if condition {
                    child
                } else {
                    0
                };
                let ghost before = self.entries();
                self.set(p, e, f_prime, value);
                proof {
                    assert(self.value(pattern, p, f_prime as nat, depth + 1) == value);
                    assert forall|f: Mapping|
                        #![trigger self.entries().contains_key((p, e, f))]
                        (self.entries().contains_key((p, e, f)) <==> f < self.rows(p) && (
                        remove_digit(base, f as nat, s) < f_q || (remove_digit(base, f as nat, s)
                            == f_q && digit(base, f as nat, s) < a + 1))) && (
                        self.entries().contains_key((p, e, f)) ==> self.entries()[(p, e, f)]
                            == self.value(pattern, p, f as nat, depth + 1)) by {
                        assert(before.contains_key((p, e, f)) || !before.contains_key((p, e, f)));
                        lemma_insert_of_remove(base, f as nat, s);
                    }
                    assert(self.holds_row(q, below, pattern, depth)) by {
                        assert forall|f: Mapping|
                            #![trigger self.entries().contains_key((q, below, f))]
                            (self.entries().contains_key((q, below, f)) <==> f < self.rows(q))
                            && (f < self.rows(q) ==> self.entries()[(q, below, f)] == self.value(
                                pattern,
                                q,
                                f as nat,
                                depth,
                            )) by {
                            assert(before.contains_key((q, below, f)) <==> f < self.rows(q));
                        }
                    }
                    assert(self.kept_but_row(old(self), p, e)) by {
                        assert forall|k: (TreeNode, EdgeList, Mapping)|
                            #![trigger self.entries().contains_key(k)]
                            !(k.0 == p && k.1 == e) implies (self.entries().contains_key(k)
                            <==> old(self).entries().contains_key(k)) && (
                        self.entries().contains_key(k) ==> self.entries()[k] == old(
                            self,
                        ).entries()[k]) by {
                            assert(before.contains_key(k) <==> old(self).entries().contains_key(k));
                        }
                    }
                }
                a = a + 1;
            }
            proof {
                assert forall|f: Mapping|
                    #![trigger self.entries().contains_key((p, e, f))]
                    (self.entries().contains_key((p, e, f)) <==> f < self.rows(p) && remove_digit(
                        base,
                        f as nat,
                        s,
                    ) < f_q + 1) && (self.entries().contains_key((p, e, f)) ==> self.entries()[(
                        p,
                        e,
                        f,
                    )] == self.value(pattern, p, f as nat, depth + 1)) by {
                    if base >= 1 {
                        lemma_insert_of_remove(base, f as nat, s);
                    } else {
                        vstd::arithmetic::power::lemma0_pow(d + 1);
                    }
                }
            }
            f_q = f_q + 1;
        }
        proof {
            assert forall|f: Mapping|
                #![trigger self.entries().contains_key((p, e, f))]
                (self.entries().contains_key((p, e, f)) <==> f < self.rows(p)) && (f < self.rows(p)
                    ==> self.entries()[(p, e, f)] == self.value(pattern, p, f as nat, depth + 1)) by {
                if f < self.rows(p) {
                    if base >= 1 {
                        lemma_remove_range(base, f as nat, s, d);
                    } else {
                        vstd::arithmetic::power::lemma0_pow(d + 1);
                    }
                }
            }
        }
    }

    /// Fills the row of a forget node for the edge set `e` from the row of
    /// its child `q` for the edge set `below`.
    pub(crate) fn fill_forget(
        &mut self,
        p: TreeNode,
        q: TreeNode,
        e: EdgeList,
        below: EdgeList,
        Ghost(pattern): Ghost<spec_fn(Vertex, Vertex) -> bool>,
        Ghost(depth): Ghost<nat>,
    )
        requires
            old(self).ntd().wf(),
            old(self).ntd().spec_node_type(p) == Some(NodeType::Forget),
            old(self).ntd().spec_children(p).len() == 1,
            old(self).ntd().spec_children(p)[0] == q,
            p != q,
            old(self).ntd().spec_data().contains_key(q),
            old(self).ntd().spec_bag(q).len() == old(self).ntd().spec_bag(p).len() + 1,
            unique_vertex_of(old(self).ntd().spec_tree(), old(self).ntd().spec_data(), p) is Some,
            old(self).rows(p) <= u64::MAX,
            old(self).rows(q) <= u64::MAX,
            old(self).lacks_row(p, e),
            old(self).holds_row(q, below, pattern, depth),
            forall|f: Mapping|
                f < old(self).rows(p) ==> #[trigger] old(self).value(
                    pattern,
                    p,
                    f as nat,
                    depth + 1,
                ) <= u64::MAX,
        ensures
            final(self).same_context(old(self)),
            final(self).holds_row(p, e, pattern, depth + 1),
            final(self).kept_but_row(old(self), p, e),
    {
        let n: usize = self.to_graph.node_count();
        let ntd = self.nice_tree_decomposition;
        let v: Vertex = ntd.unique_vertex_from_bags(p).unwrap();
        let bag_q = ntd.bag(q).unwrap();
        let bag_p = ntd.bag(p).unwrap();
        let place: usize = rank_in_bag(bag_q, v);
        let count_p: Mapping = self.max_bag_mappings(p);
        let ghost s = place as nat;
        let ghost d = bag_p@.len();
        let ghost base = n as nat;
        proof {
            lemma_first_missing_is_member(bag_q@, bag_p@);
            lemma_rank_bound(bag_q@, v);
        }
        let mut f: Mapping = 0;
        while f < count_p
            invariant
                f <= count_p,
                count_p == self.rows(p),
                n == self.base(),
                base == n,
                s == place,
                s == rank_of(self.ntd().spec_bag(q), v),
                s <= d,
                d == bag_p@.len(),
                bag_q@ == self.ntd().spec_bag(q),
                bag_p@ == self.ntd().spec_bag(p),
                bag_q@.len() == d + 1,
                p != q,
                self.rows(p) <= u64::MAX,
                self.rows(q) <= u64::MAX,
                self.rows(p) == power_of(base, d),
                self.rows(q) == power_of(base, d + 1),
                self.same_context(old(self)),
                self.ntd().spec_node_type(p) == Some(NodeType::Forget),
                self.ntd().spec_children(p)[0] == q,
                unique_vertex_of(self.ntd().spec_tree(), self.ntd().spec_data(), p) == Some(v),
                self.holds_row(q, below, pattern, depth),
                self.kept_but_row(old(self), p, e),
                forall|g: Mapping|
                    g < old(self).rows(p) ==> #[trigger] old(self).value(
                        pattern,
                        p,
                        g as nat,
                        depth + 1,
                    ) <= u64::MAX,
                forall|g: Mapping|
                    #![trigger self.entries().contains_key((p, e, g))]
                    (self.entries().contains_key((p, e, g)) <==> g < f) && (
                    self.entries().contains_key((p, e, g)) ==> self.entries()[(p, e, g)]
                        == self.value(pattern, p, g as nat, depth + 1)),
            decreases count_p - f,
        {
            let mut sum: u64 = 0;
            let mut a: usize = 0;
            assert(old(self).value(pattern, p, f as nat, depth + 1) <= u64::MAX);
            assert(self.value(pattern, p, f as nat, depth + 1) == old(self).value(
                pattern,
                p,
                f as nat,
                depth + 1,
            ));
            assert(self.value(pattern, p, f as nat, depth + 1) == forget_sum(
                self.ntd(),
                pattern,
                self.target_graph(),
                q,
                f as nat,
                s,
                base,
                depth,
            ));
            while a < n
                invariant
                    a <= n,
                    f < count_p,
                    count_p == self.rows(p),
                    n == self.base(),
                    base == n,
                    s == place,
                    s <= d,
                    self.rows(p) <= u64::MAX,
                    self.rows(q) <= u64::MAX,
                    self.rows(p) == power_of(base, d),
                    self.rows(q) == power_of(base, d + 1),
                    self.holds_row(q, below, pattern, depth),
                    forget_sum(
                        self.ntd(),
                        pattern,
                        self.target_graph(),
                        q,
                        f as nat,
                        s,
                        base,
                        depth,
                    ) <= u64::MAX,
                    sum == forget_sum(
                        self.ntd(),
                        pattern,
                        self.target_graph(),
                        q,
                        f as nat,
                        s,
                        a as nat,
                        depth,
                    ),
                decreases n - a,
            {
                proof {
                    lemma_insert_range(base, f as nat, s, a as nat, d);
                    lemma_power_monotonic(base, s, d);
                    lemma_forget_sum_grows(
                        self.ntd(),
                        pattern,
                        self.target_graph(),
                        q,
                        f as nat,
                        s,
                        (a + 1) as nat,
                        base,
                        depth,
                    );
                }
                let f_old: Mapping = self.table_extend(f, place as Mapping, a as Mapping);
                assert(self.entries().contains_key((q, below, f_old)));
                let child: u64 = *self.get(&q, &below, &f_old).unwrap();
                sum = sum + child;
                a = a + 1;
            }
            let ghost before = self.entries();
            self.set(p, e, f, sum);
            proof {
                assert(self.holds_row(q, below, pattern, depth)) by {
                    assert forall|g: Mapping|
                        #![trigger self.entries().contains_key((q, below, g))]
                        (self.entries().contains_key((q, below, g)) <==> g < self.rows(q)) && (g
                            < self.rows(q) ==> self.entries()[(q, below, g)] == self.value(
                            pattern,
                            q,
                            g as nat,
                            depth,
                        )) by {
                        assert(before.contains_key((q, below, g)) <==> g < self.rows(q));
                    }
                }
                assert(self.kept_but_row(old(self), p, e)) by {
                    assert forall|k: (TreeNode, EdgeList, Mapping)|
                        #![trigger self.entries().contains_key(k)]
                        !(k.0 == p && k.1 == e) implies (self.entries().contains_key(k) <==> old(
                            self,
                        ).entries().contains_key(k)) && (self.entries().contains_key(k)
                            ==> self.entries()[k] == old(self).entries()[k]) by {
                        assert(before.contains_key(k) <==> old(self).entries().contains_key(k));
                    }
                }
                assert forall|g: Mapping|
                    #![trigger self.entries().contains_key((p, e, g))]
                    (self.entries().contains_key((p, e, g)) <==> g < f + 1) && (
                    self.entries().contains_key((p, e, g)) ==> self.entries()[(p, e, g)]
                        == self.value(pattern, p, g as nat, depth + 1)) by {
                    assert(before.contains_key((p, e, g)) <==> g < f);
                }
            }
            f = f + 1;
        }
    }

    /// Fills the row of a join node for the edge set `e` from the rows of
    /// its children `q1` and `q2` for the edge sets `below1` and `below2`.
    pub(crate) fn fill_join(
        &mut self,
        p: TreeNode,
        q1: TreeNode,
        q2: TreeNode,
        e: EdgeList,
        below1: EdgeList,
        below2: EdgeList,
        Ghost(pattern): Ghost<spec_fn(Vertex, Vertex) -> bool>,
        Ghost(depth): Ghost<nat>,
    )
        requires
            old(self).ntd().wf(),
            old(self).ntd().spec_node_type(p) == Some(NodeType::Join),
            old(self).ntd().spec_children(p).len() == 2,
            old(self).ntd().spec_children(p)[0] == q1,
            old(self).ntd().spec_children(p)[1] == q2,
            p != q1,
            p != q2,
            old(self).ntd().spec_data().contains_key(p),
            old(self).ntd().spec_bag(q1).len() == old(self).ntd().spec_bag(p).len(),
            old(self).ntd().spec_bag(q2).len() == old(self).ntd().spec_bag(p).len(),
            old(self).rows(p) <= u64::MAX,
            old(self).lacks_row(p, e),
            old(self).holds_row(q1, below1, pattern, depth),
            old(self).holds_row(q2, below2, pattern, depth),
            forall|f: Mapping|
                f < old(self).rows(p) ==> #[trigger] old(self).value(
                    pattern,
                    p,
                    f as nat,
                    depth + 1,
                ) <= u64::MAX,
        ensures
            final(self).same_context(old(self)),
            final(self).holds_row(p, e, pattern, depth + 1),
            final(self).kept_but_row(old(self), p, e),
    {
        let count_p: Mapping = self.max_bag_mappings(p);
        let mut f: Mapping = 0;
        while f < count_p
            invariant
                f <= count_p,
                count_p == self.rows(p),
                p != q1,
                p != q2,
                self.rows(q1) == self.rows(p),
                self.rows(q2) == self.rows(p),
                self.same_context(old(self)),
                self.ntd().spec_node_type(p) == Some(NodeType::Join),
                self.ntd().spec_children(p).len() == 2,
                self.ntd().spec_children(p)[0] == q1,
                self.ntd().spec_children(p)[1] == q2,
                self.holds_row(q1, below1, pattern, depth),
                self.holds_row(q2, below2, pattern, depth),
                self.kept_but_row(old(self), p, e),
                forall|g: Mapping|
                    g < old(self).rows(p) ==> #[trigger] old(self).value(
                        pattern,
                        p,
                        g as nat,
                        depth + 1,
                    ) <= u64::MAX,
                forall|g: Mapping|
                    #![trigger self.entries().contains_key((p, e, g))]
                    (self.entries().contains_key((p, e, g)) <==> g < f) && (
                    self.entries().contains_key((p, e, g)) ==> self.entries()[(p, e, g)]
                        == self.value(pattern, p, g as nat, depth + 1)),
            decreases count_p - f,
        {
            assert(self.entries().contains_key((q1, below1, f)));
            assert(self.entries().contains_key((q2, below2, f)));
            let first: u64 = *self.get(&q1, &below1, &f).unwrap();
            let second: u64 = *self.get(&q2, &below2, &f).unwrap();
            assert(old(self).value(pattern, p, f as nat, depth + 1) <= u64::MAX);
            assert(self.value(pattern, p, f as nat, depth + 1) == old(self).value(
                pattern,
                p,
                f as nat,
                depth + 1,
            ));
            assert(self.value(pattern, p, f as nat, depth + 1) == first * second);
            let ghost before = self.entries();
            self.set(p, e, f, first * second);
            proof {
                assert(self.holds_row(q1, below1, pattern, depth)) by {
                    assert forall|g: Mapping|
                        #![trigger self.entries().contains_key((q1, below1, g))]
                        (self.entries().contains_key((q1, below1, g)) <==> g < self.rows(q1))
                        && (g < self.rows(q1) ==> self.entries()[(q1, below1, g)] == self.value(
                            pattern,
                            q1,
                            g as nat,
                            depth,
                        )) by {
                        assert(before.contains_key((q1, below1, g)) <==> g < self.rows(q1));
                    }
                }
                assert(self.holds_row(q2, below2, pattern, depth)) by {
                    assert forall|g: Mapping|
                        #![trigger self.entries().contains_key((q2, below2, g))]
                        (self.entries().contains_key((q2, below2, g)) <==> g < self.rows(q2))
                        && (g < self.rows(q2) ==> self.entries()[(q2, below2, g)] == self.value(
                            pattern,
                            q2,
                            g as nat,
                            depth,
                        )) by {
                        assert(before.contains_key((q2, below2, g)) <==> g < self.rows(q2));
                    }
                }
                assert(self.kept_but_row(old(self), p, e)) by {
                    assert forall|k: (TreeNode, EdgeList, Mapping)|
                        #![trigger self.entries().contains_key(k)]
                        !(k.0 == p && k.1 == e) implies (self.entries().contains_key(k) <==> old(
                            self,
                        ).entries().contains_key(k)) && (self.entries().contains_key(k)
                            ==> self.entries()[k] == old(self).entries()[k]) by {
                        assert(before.contains_key(k) <==> old(self).entries().contains_key(k));
                    }
                }
                assert forall|g: Mapping|
                    #![trigger self.entries().contains_key((p, e, g))]
                    (self.entries().contains_key((p, e, g)) <==> g < f + 1) && (
                    self.entries().contains_key((p, e, g)) ==> self.entries()[(p, e, g)]
                        == self.value(pattern, p, g as nat, depth + 1)) by {
                    assert(before.contains_key((p, e, g)) <==> g < f);
                }
            }
            f = f + 1;
        }
    }
}

} // verus!
