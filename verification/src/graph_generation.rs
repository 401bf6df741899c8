//! The edges that a pattern graph with a given nice tree decomposition can
//! have, and the graphs that are made of them.
//!
//! An edge is a pair of vertices and stands for both directions; a pair
//! `(v, v)` is a self-loop.

use crate::edge_sets::all_selections;
use crate::edge_sets::has_selection;
use crate::edge_sets::is_selection;
use crate::edge_sets::pick;
use crate::edge_sets::powerset_of;
use crate::graphs::symmetric;
use crate::graphs::Graph;
use crate::graphs::MAX_VERTEX;
use crate::nice_tree_decomposition::comes_before;
use crate::nice_tree_decomposition::unique_vertex_of;
use crate::nice_tree_decomposition::NiceTreeDecomposition;
use crate::nice_tree_decomposition::NodeType;
use crate::tree_decompositions::TreeNode;
use crate::tree_decompositions::Vertex;
use std::collections::HashMap;
use vstd::arithmetic::power2::pow2;
use vstd::prelude::*;
use vstd::std_specs::hash::group_hash_axioms;

verus! {

broadcast use group_hash_axioms;

/// The pairs `d` and `e` are the same undirected edge.
pub open spec fn same_edge(d: (usize, usize), e: (usize, usize)) -> bool {
    d == e || (d.0 == e.1 && d.1 == e.0)
}

/// The list holds the undirected edge `e`.
pub open spec fn lists_edge(list: Seq<(usize, usize)>, e: (usize, usize)) -> bool {
    exists|i: int| 0 <= i < list.len() && same_edge(#[trigger] list[i], e)
}

/// No undirected edge stands twice in the list.
pub open spec fn distinct_edges(list: Seq<(usize, usize)>) -> bool {
    forall|i: int, j: int|
        0 <= i < j < list.len() ==> !same_edge(#[trigger] list[i], #[trigger] list[j])
}

/// The list `list` followed by the edges of `more` that were not listed
/// before, each once and in the order of `more`.
pub open spec fn add_missing(list: Seq<(usize, usize)>, more: Seq<(usize, usize)>) -> Seq<
    (usize, usize),
>
    decreases more.len(),
{
    if more.len() == 0 {
        list
    } else {
        let sofar = add_missing(list, more.drop_last());
        if lists_edge(sofar, more.last()) {
            sofar
        } else {
            sofar.push(more.last())
        }
    }
}

/// The pairs of each vertex of `bag` with the vertex `v`.
pub open spec fn pairs_with(bag: Seq<Vertex>, v: Vertex) -> Seq<(usize, usize)> {
    Seq::new(bag.len(), |k: int| (bag[k], v))
}

/// The edges that a pattern graph can have among the vertices met in the
/// subtree of node `p`, in the order in which the walk meets them:
/// - a leaf has the self-loop of its vertex;
/// - an introduce node has the edges of its child, and after them the pairs
///   of each vertex of its bag with the introduced vertex that are not there
///   yet;
/// - a forget node has the edges of its child;
/// - a join node has the edges of its child with the longer list (of the
///   first child, if they are equally long) and after them the edges of
///   the other child that are not there yet.
/// The walk goes fewer than `depth` levels down.
pub open spec fn possible_edges_of(ntd: NiceTreeDecomposition, p: TreeNode, depth: nat) -> Seq<
    (usize, usize),
>
    decreases depth,
{
    let c = ntd.spec_children(p);
    let unique = unique_vertex_of(ntd.spec_tree(), ntd.spec_data(), p);
    if depth == 0 {
        Seq::empty()
    } else {
        match ntd.spec_node_type(p) {
            Some(NodeType::Leaf) => match unique {
                Some(v) => seq![(v, v)],
                None => Seq::empty(),
            },
            Some(NodeType::Introduce) => match unique {
                Some(v) => add_missing(
                    possible_edges_of(ntd, c[0], (depth - 1) as nat),
                    pairs_with(ntd.spec_bag(p), v),
                ),
                None => Seq::empty(),
            },
            Some(NodeType::Forget) => possible_edges_of(ntd, c[0], (depth - 1) as nat),
            Some(NodeType::Join) => {
                let first = possible_edges_of(ntd, c[0], (depth - 1) as nat);
                let second = possible_edges_of(ntd, c[1], (depth - 1) as nat);
                if first.len() >= second.len() {
                    add_missing(first, second)
                } else {
                    add_missing(second, first)
                }
            },
            None => Seq::empty(),
        }
    }
}

/// The list of possible edges of a node does not depend on the depth
/// allowed, once the depth is more than the node's place in a valid order.
pub proof fn lemma_possible_edges_depth(
    ntd: NiceTreeDecomposition,
    order: Seq<TreeNode>,
    j: int,
    d1: nat,
    d2: nat,
)
    requires
        ntd.valid_order(order),
        0 <= j < order.len(),
        d1 > j,
        d2 > j,
    ensures
        possible_edges_of(ntd, order[j], d1) == possible_edges_of(ntd, order[j], d2),
    decreases j,
{
    let p = order[j];
    let c = ntd.spec_children(p);
    assert(ntd.node_is_nice(order, j));
    match ntd.spec_node_type(p) {
        Some(NodeType::Introduce) | Some(NodeType::Forget) => {
            let k = choose|k: int| 0 <= k < j && k < order.len() && order[k] == c[0];
            lemma_possible_edges_depth(ntd, order, k, (d1 - 1) as nat, (d2 - 1) as nat);
        },
        Some(NodeType::Join) => {
            let k0 = choose|k: int| 0 <= k < j && k < order.len() && order[k] == c[0];
            let k1 = choose|k: int| 0 <= k < j && k < order.len() && order[k] == c[1];
            lemma_possible_edges_depth(ntd, order, k0, (d1 - 1) as nat, (d2 - 1) as nat);
            lemma_possible_edges_depth(ntd, order, k1, (d1 - 1) as nat, (d2 - 1) as nat);
        },
        _ => {},
    }
}

/// What `add_missing` keeps: the edges of `list` stay at their places, an
/// edge is listed in the result exactly if it is listed in `list` or in
/// `more`, and no edge comes twice if none did in `list`.
pub proof fn lemma_add_missing(list: Seq<(usize, usize)>, more: Seq<(usize, usize)>)
    ensures
        add_missing(list, more).len() >= list.len(),
        forall|i: int| 0 <= i < list.len() ==> add_missing(list, more)[i] == list[i],
        forall|e: (usize, usize)|
            lists_edge(add_missing(list, more), e) <==> lists_edge(list, e) || lists_edge(more, e),
        distinct_edges(list) ==> distinct_edges(add_missing(list, more)),
    decreases more.len(),
{
    let result = add_missing(list, more);
    if more.len() == 0 {
        assert forall|e: (usize, usize)| !lists_edge(more, e) by {}
    } else {
        let head = more.drop_last();
        let last = more.last();
        let sofar = add_missing(list, head);
        lemma_add_missing(list, head);
        assert forall|e: (usize, usize)|
            lists_edge(result, e) <==> lists_edge(list, e) || lists_edge(more, e) by {
            if lists_edge(more, e) {
                let i = choose|i: int| 0 <= i < more.len() && same_edge(more[i], e);
                if i < more.len() - 1 {
                    assert(same_edge(head[i], e));
                    assert(lists_edge(head, e));
                } else {
                    if lists_edge(sofar, last) {
                        let k = choose|k: int| 0 <= k < sofar.len() && same_edge(sofar[k], last);
                        assert(same_edge(sofar[k], e));
                    } else {
                        assert(same_edge(result[sofar.len() as int], e));
                    }
                }
            }
            if lists_edge(head, e) {
                let i = choose|i: int| 0 <= i < head.len() && same_edge(head[i], e);
                assert(same_edge(more[i], e));
            }
            if lists_edge(sofar, e) {
                let k = choose|k: int| 0 <= k < sofar.len() && same_edge(sofar[k], e);
                assert(same_edge(result[k], e));
            }
            if lists_edge(result, e) {
                let k = choose|k: int| 0 <= k < result.len() && same_edge(result[k], e);
                if k < sofar.len() {
                    assert(same_edge(sofar[k], e));
                } else {
                    assert(same_edge(more[more.len() - 1], e));
                }
            }
        }
        if distinct_edges(list) {
            assert forall|i: int, j: int| 0 <= i < j < result.len() implies !same_edge(
                #[trigger] result[i],
                #[trigger] result[j],
            ) by {
                if j < sofar.len() {
                    assert(!same_edge(sofar[i], sofar[j]));
                } else {
                    if same_edge(result[i], result[j]) {
                        assert(same_edge(sofar[i], last));
                    }
                }
            }
        }
    }
}

/// The possible edges of a node of a valid order hold no edge twice.
pub proof fn lemma_possible_edges_distinct(
    ntd: NiceTreeDecomposition,
    order: Seq<TreeNode>,
    j: int,
    depth: nat,
)
    requires
        ntd.valid_order(order),
        0 <= j < order.len(),
    ensures
        distinct_edges(possible_edges_of(ntd, order[j], depth)),
    decreases j,
{
    let p = order[j];
    let c = ntd.spec_children(p);
    assert(ntd.node_is_nice(order, j));
    if depth > 0 {
        let below = (depth - 1) as nat;
        match ntd.spec_node_type(p) {
            Some(NodeType::Introduce) => {
                let k = choose|k: int| 0 <= k < j && k < order.len() && order[k] == c[0];
                lemma_possible_edges_distinct(ntd, order, k, below);
                let unique = unique_vertex_of(ntd.spec_tree(), ntd.spec_data(), p);
                if unique is Some {
                    lemma_add_missing(
                        possible_edges_of(ntd, c[0], below),
                        pairs_with(ntd.spec_bag(p), unique->0),
                    );
                }
            },
            Some(NodeType::Forget) => {
                let k = choose|k: int| 0 <= k < j && k < order.len() && order[k] == c[0];
                lemma_possible_edges_distinct(ntd, order, k, below);
            },
            Some(NodeType::Join) => {
                let k0 = choose|k: int| 0 <= k < j && k < order.len() && order[k] == c[0];
                let k1 = choose|k: int| 0 <= k < j && k < order.len() && order[k] == c[1];
                lemma_possible_edges_distinct(ntd, order, k0, below);
                lemma_possible_edges_distinct(ntd, order, k1, below);
                lemma_add_missing(
                    possible_edges_of(ntd, c[0], below),
                    possible_edges_of(ntd, c[1], below),
                );
                lemma_add_missing(
                    possible_edges_of(ntd, c[1], below),
                    possible_edges_of(ntd, c[0], below),
                );
            },
            _ => {},
        }
    }
}

/// The possible edges of a child are possible edges of its parent: with
/// `m` a place among the children of the node at place `i` of a valid
/// order, every edge listed for that child is listed for the node.
pub proof fn lemma_possible_edges_grow(
    ntd: NiceTreeDecomposition,
    order: Seq<TreeNode>,
    i: int,
    m: int,
    depth: nat,
    e: (usize, usize),
)
    requires
        ntd.valid_order(order),
        0 <= i < order.len(),
        0 <= m < ntd.spec_children(order[i]).len(),
        depth > 0,
        lists_edge(possible_edges_of(ntd, ntd.spec_children(order[i])[m], (depth - 1) as nat), e),
    ensures
        lists_edge(possible_edges_of(ntd, order[i], depth), e),
{
    let p = order[i];
    let c = ntd.spec_children(p);
    let below = (depth - 1) as nat;
    assert(ntd.node_is_nice(order, i));
    match ntd.spec_node_type(p) {
        Some(NodeType::Introduce) => {
            let unique = unique_vertex_of(ntd.spec_tree(), ntd.spec_data(), p);
            let k = choose|k: int| 0 <= k < i && k < order.len() && order[k] == c[0];
            assert(ntd.node_is_nice(order, k));
            lemma_add_missing(
                possible_edges_of(ntd, c[0], below),
                pairs_with(ntd.spec_bag(p), unique->0),
            );
        },
        Some(NodeType::Join) => {
            lemma_add_missing(
                possible_edges_of(ntd, c[0], below),
                possible_edges_of(ntd, c[1], below),
            );
            lemma_add_missing(
                possible_edges_of(ntd, c[1], below),
                possible_edges_of(ntd, c[0], below),
            );
        },
        _ => {},
    }
}

/// The possible edges of every node of a valid order are possible edges
/// of the root.
pub proof fn lemma_possible_edges_reach_root(
    ntd: NiceTreeDecomposition,
    order: Seq<TreeNode>,
    j: int,
    e: (usize, usize),
)
    requires
        ntd.wf(),
        ntd.valid_order(order),
        0 <= j < order.len(),
        lists_edge(possible_edges_of(ntd, order[j], order.len()), e),
    ensures
        lists_edge(possible_edges_of(ntd, ntd.spec_root(), order.len()), e),
    decreases order.len() - j,
{
    if j < order.len() - 1 {
        let x = order[j];
        let pp = ntd.spec_tree().spec_parents()[x];
        assert(order.contains(pp));
        let i = choose|i: int| 0 <= i < order.len() && order[i] == pp;
        assert(ntd.spec_tree().spec_children(pp).contains(x));
        let m = choose|m: int| 0 <= m < ntd.spec_children(pp).len() && ntd.spec_children(pp)[m] == x;
        assert(ntd.node_is_nice(order, i));
        assert(comes_before(order, x, i));
        let j2 = choose|j2: int| 0 <= j2 < i && j2 < order.len() && order[j2] == x;
        assert(j2 == j);
        lemma_possible_edges_depth(ntd, order, j, order.len(), (order.len() - 1) as nat);
        lemma_possible_edges_grow(ntd, order, i, m, order.len(), e);
        lemma_possible_edges_reach_root(ntd, order, i, e);
    }
}

/// The list of possible edges of a node of a valid order is at most as
/// long as the list of its parent, and so at most as long as the list of
/// the root.
pub proof fn lemma_possible_edges_length(ntd: NiceTreeDecomposition, order: Seq<TreeNode>, j: int)
    requires
        ntd.wf(),
        ntd.valid_order(order),
        0 <= j < order.len(),
    ensures
        possible_edges_of(ntd, order[j], order.len()).len() <= possible_edges_of(
            ntd,
            ntd.spec_root(),
            order.len(),
        ).len(),
    decreases order.len() - j,
{
    if j < order.len() - 1 {
        let x = order[j];
        let pp = ntd.spec_tree().spec_parents()[x];
        assert(order.contains(pp));
        let i = choose|i: int| 0 <= i < order.len() && order[i] == pp;
        assert(ntd.spec_tree().spec_children(pp).contains(x));
        let m = choose|m: int| 0 <= m < ntd.spec_children(pp).len() && ntd.spec_children(pp)[m] == x;
        assert(ntd.node_is_nice(order, i));
        assert(comes_before(order, x, i));
        let j2 = choose|j2: int| 0 <= j2 < i && j2 < order.len() && order[j2] == x;
        assert(j2 == j);
        let below = (order.len() - 1) as nat;
        lemma_possible_edges_depth(ntd, order, j, order.len(), below);
        let c = ntd.spec_children(pp);
        match ntd.spec_node_type(pp) {
            Some(NodeType::Introduce) => {
                let unique = unique_vertex_of(ntd.spec_tree(), ntd.spec_data(), pp);
                assert(ntd.node_is_nice(order, j));
                lemma_add_missing(
                    possible_edges_of(ntd, c[0], below),
                    pairs_with(ntd.spec_bag(pp), unique->0),
                );
            },
            Some(NodeType::Join) => {
                lemma_add_missing(
                    possible_edges_of(ntd, c[0], below),
                    possible_edges_of(ntd, c[1], below),
                );
                lemma_add_missing(
                    possible_edges_of(ntd, c[1], below),
                    possible_edges_of(ntd, c[0], below),
                );
            },
            _ => {},
        }
        lemma_possible_edges_length(ntd, order, i);
    }
}

/// The place of the undirected edge in the list: the first place that
/// holds it.
pub fn index_of_edge(list: &Vec<(usize, usize)>, edge: (usize, usize)) -> (r: Option<usize>)
    ensures
        match r {
            Some(i) => i < list@.len() && same_edge(list@[i as int], edge) && forall|k: int|
                0 <= k < i ==> !same_edge(#[trigger] list@[k], edge),
            None => !lists_edge(list@, edge),
        },
{
    let mut i: usize = 0;
    while i < list.len()
        invariant
            i <= list.len(),
            forall|k: int| 0 <= k < i ==> !same_edge(#[trigger] list@[k], edge),
        decreases list.len() - i,
    {
        let d: (usize, usize) = list[i];
        if (d.0 == edge.0 && d.1 == edge.1) || (d.0 == edge.1 && d.1 == edge.0) {
            return Some(i);
        }
        i = i + 1;
    }
    None
}

/// Whether the undirected edge is in the list.
pub fn edge_in_list(edge: (usize, usize), list: &Vec<(usize, usize)>) -> (r: bool)
    ensures
        r == lists_edge(list@, edge),
{
    let mut i: usize = 0;
    while i < list.len()
        invariant
            i <= list.len(),
            forall|k: int| 0 <= k < i ==> !same_edge(#[trigger] list@[k], edge),
        decreases list.len() - i,
    {
        let d: (usize, usize) = list[i];
        if (d.0 == edge.0 && d.1 == edge.1) || (d.0 == edge.1 && d.1 == edge.0) {
            assert(same_edge(list@[i as int], edge));
            return true;
        }
        i = i + 1;
    }
    false
}

/// Whether the two lists hold the same undirected edges, in whatever
/// order and however often.
pub fn compare_edge_lists(list1: &Vec<(usize, usize)>, list2: &Vec<(usize, usize)>) -> (r: bool)
    ensures
        r == ((forall|i: int| 0 <= i < list1@.len() ==> lists_edge(list2@, #[trigger] list1@[i]))
            && (forall|i: int|
            0 <= i < list2@.len() ==> lists_edge(list1@, #[trigger] list2@[i]))),
{
    let mut i: usize = 0;
    while i < list1.len()
        invariant
            i <= list1.len(),
            forall|k: int| 0 <= k < i ==> lists_edge(list2@, #[trigger] list1@[k]),
        decreases list1.len() - i,
    {
        if !edge_in_list(list1[i], list2) {
            return false;
        }
        i = i + 1;
    }
    let mut j: usize = 0;
    while j < list2.len()
        invariant
            j <= list2.len(),
            forall|k: int| 0 <= k < list1@.len() ==> lists_edge(list2@, #[trigger] list1@[k]),
            forall|k: int| 0 <= k < j ==> lists_edge(list1@, #[trigger] list2@[k]),
        decreases list2.len() - j,
    {
        if !edge_in_list(list2[j], list1) {
            return false;
        }
        j = j + 1;
    }
    true
}

/// A copy of the list.
pub fn copy_edges(list: &Vec<(usize, usize)>) -> (r: Vec<(usize, usize)>)
    ensures
        r@ == list@,
{
    let mut r: Vec<(usize, usize)> = Vec::new();
    let mut i: usize = 0;
    while i < list.len()
        invariant
            i <= list.len(),
            r@ == list@.take(i as int),
        decreases list.len() - i,
    {
        r.push(list[i]);
        assert(list@.take(i + 1) == list@.take(i as int).push(list@[i as int]));
        i = i + 1;
    }
    assert(list@.take(list@.len() as int) == list@);
    r
}

/// Appends to `edges` the edges of `more` that it does not hold yet.
pub fn append_missing(edges: &mut Vec<(usize, usize)>, more: &Vec<(usize, usize)>)
    ensures
        final(edges)@ == add_missing(old(edges)@, more@),
{
    let mut i: usize = 0;
    assert(more@.take(0) == Seq::<(usize, usize)>::empty());
    while i < more.len()
        invariant
            i <= more.len(),
            edges@ == add_missing(old(edges)@, more@.take(i as int)),
        decreases more.len() - i,
    {
        let e: (usize, usize) = more[i];
        assert(more@.take(i + 1).drop_last() == more@.take(i as int));
        assert(more@.take(i + 1).last() == e);
        if !edge_in_list(e, edges) {
            edges.push(e);
        }
        i = i + 1;
    }
    assert(more@.take(more@.len() as int) == more@);
}

/// The possible edges of every node of the stingy ordering: each node of
/// the ordering is mapped to the edges that a pattern graph can have among
/// the vertices met in its subtree.
pub fn generate_possible_edges(ntd: &NiceTreeDecomposition) -> (possible_edges: HashMap<
    TreeNode,
    Vec<(usize, usize)>,
>)
    requires
        ntd.nice(),
    ensures
        forall|p: TreeNode| #[trigger]
            possible_edges@.contains_key(p) <==> ntd.spec_ordering().contains(p),
        forall|p: TreeNode| #[trigger]
            possible_edges@.contains_key(p) ==> possible_edges@[p]@ == possible_edges_of(
                *ntd,
                p,
                ntd.spec_ordering().len(),
            ),
{
    let stingy_ordering = ntd.stingy_ordering();
    let mut possible_edges: HashMap<TreeNode, Vec<(usize, usize)>> = HashMap::new();
    let ghost order = stingy_ordering@;
    let ghost all = order.len();
    let mut i: usize = 0;
    while i < stingy_ordering.len()
        invariant
            i <= stingy_ordering.len(),
            order == stingy_ordering@,
            order == ntd.spec_ordering(),
            all == order.len(),
            ntd.nice(),
            forall|p: TreeNode| #[trigger]
                possible_edges@.contains_key(p) <==> comes_before(order, p, i as int),
            forall|p: TreeNode| #[trigger]
                possible_edges@.contains_key(p) ==> possible_edges@[p]@ == possible_edges_of(
                    *ntd,
                    p,
                    all,
                ),
        decreases stingy_ordering.len() - i,
    {
        let p: TreeNode = stingy_ordering[i];
        let ghost before = possible_edges@;
        proof {
            assert(ntd.node_is_nice(order, i as int));
            lemma_possible_edges_depth(*ntd, order, i as int, all, all + 1);
        }
        let mut edges: Vec<(usize, usize)> = Vec::new();
        match ntd.node_type(p) {
            None => {
                assert(false);
            },
            Some(NodeType::Leaf) => {
                match ntd.unique_vertex_from_bags(p) {
                    Some(v) => {
                        edges.push((v, v));
                        assert(edges@ == seq![(v, v)]);
                    },
                    None => {},
                }
            },
            Some(NodeType::Introduce) => {
                let q: TreeNode = *ntd.unique_child(p).unwrap();
                assert(possible_edges@.contains_key(q));
                proof {
                    let j = choose|j: int| 0 <= j < i && j < order.len() && order[j] == q;
                    assert(ntd.node_is_nice(order, j));
                }
                edges = copy_edges(possible_edges.get(&q).unwrap());
                match ntd.unique_vertex_from_bags(p) {
                    Some(v) => {
                        let bag = ntd.bag(p).unwrap();
                        let mut pairs: Vec<(usize, usize)> = Vec::new();
                        let mut k: usize = 0;
                        while k < bag.len()
                            invariant
                                k <= bag.len(),
                                pairs@.len() == k,
                                forall|m: int| 0 <= m < k ==> pairs@[m] == (bag@[m], v),
                            decreases bag.len() - k,
                        {
                            pairs.push((bag[k], v));
                            k = k + 1;
                        }
                        assert(pairs@ == pairs_with(bag@, v));
                        append_missing(&mut edges, &pairs);
                    },
                    None => {
                        assert(false);
                    },
                }
            },
            Some(NodeType::Forget) => {
                let q: TreeNode = *ntd.unique_child(p).unwrap();
                assert(possible_edges@.contains_key(q));
                edges = copy_edges(possible_edges.get(&q).unwrap());
            },
            Some(NodeType::Join) => {
                let children = ntd.children(p).unwrap();
                let q1: TreeNode = children[0];
                let q2: TreeNode = children[1];
                assert(possible_edges@.contains_key(q1));
                assert(possible_edges@.contains_key(q2));
                let first = possible_edges.get(&q1).unwrap();
                let second = possible_edges.get(&q2).unwrap();
                if first.len() >= second.len() {
                    edges = copy_edges(first);
                    append_missing(&mut edges, second);
                } else {
                    edges = copy_edges(second);
                    append_missing(&mut edges, first);
                }
            },
        }
        assert(edges@ == possible_edges_of(*ntd, p, all + 1));
        possible_edges.insert(p, edges);
        proof {
            assert forall|x: TreeNode| #[trigger]
                possible_edges@.contains_key(x) <==> comes_before(order, x, i + 1) by {
                if comes_before(order, x, i + 1) {
                    let j = choose|j: int| 0 <= j < i + 1 && j < order.len() && order[j] == x;
                    if j < i {
                        assert(comes_before(order, x, i as int));
                    }
                }
                if before.contains_key(x) {
                    let j = choose|j: int| 0 <= j < i && j < order.len() && order[j] == x;
                    assert(0 <= j < i + 1 && j < order.len() && order[j] == x);
                }
                if x == p {
                    assert(0 <= i < i + 1 && i < order.len() && order[i as int] == x);
                }
            }
        }
        i = i + 1;
    }
    proof {
        assert forall|p: TreeNode| #[trigger]
            possible_edges@.contains_key(p) <==> ntd.spec_ordering().contains(p) by {
            if ntd.spec_ordering().contains(p) {
                let j = choose|j: int| 0 <= j < order.len() && order[j] == p;
                assert(0 <= j < i && j < order.len() && order[j] == p);
            }
        }
    }
    possible_edges
}

/// The graph `g` has `number_of_vertices` vertices, as far as a graph can
/// have so many, and joins two of them exactly if the list holds their
/// edge.
pub open spec fn graph_has_edges(
    g: Graph,
    number_of_vertices: nat,
    edges: Seq<(usize, usize)>,
) -> bool {
    &&& g.order() == if number_of_vertices <= MAX_VERTEX {
        number_of_vertices
    } else {
        MAX_VERTEX as nat
    }
    &&& forall|x: usize, y: usize|
        #![trigger g.adjacent(x, y)]
        g.adjacent(x, y) <==> x < g.order() && y < g.order() && lists_edge(edges, (x, y))
}

/// A graph that was made of a list of edges joins `b` to `a` whenever it
/// joins `a` to `b`.
pub proof fn lemma_edges_have_no_direction(
    g: Graph,
    number_of_vertices: nat,
    edges: Seq<(usize, usize)>,
)
    requires
        graph_has_edges(g, number_of_vertices, edges),
    ensures
        symmetric(g),
{
    assert forall|a: usize, b: usize|
        #![trigger g.adjacent(a, b)]
        a < g.order() && b < g.order() implies g.adjacent(a, b) == g.adjacent(b, a) by {
        if lists_edge(edges, (a, b)) {
            let i = choose|i: int| 0 <= i < edges.len() && same_edge(#[trigger] edges[i], (a, b));
            assert(same_edge(edges[i], (b, a)));
        }
        if lists_edge(edges, (b, a)) {
            let i = choose|i: int| 0 <= i < edges.len() && same_edge(#[trigger] edges[i], (b, a));
            assert(same_edge(edges[i], (a, b)));
        }
    }
}

/// The graph with the given number of vertices and the given edges. An
/// edge that is given twice, or the other way round, counts once; an edge
/// with an end that is no vertex of the graph is left out.
pub fn graph_of_edges(number_of_vertices: usize, edges: &Vec<(usize, usize)>) -> (g: Graph)
    ensures
        graph_has_edges(g, number_of_vertices as nat, edges@),
        symmetric(g),
{
    let mut graph = Graph::new_undirected();
    let mut n: usize = 0;
    while n < number_of_vertices && n < MAX_VERTEX
        invariant
            n <= number_of_vertices,
            n <= MAX_VERTEX,
            graph.order() == n,
            forall|x: usize, y: usize| !graph.adjacent(x, y),
        decreases number_of_vertices - n,
    {
        graph.add_node();
        n = n + 1;
    }
    let mut i: usize = 0;
    while i < edges.len()
        invariant
            i <= edges.len(),
            n <= MAX_VERTEX,
            graph.order() == n,
            forall|x: usize, y: usize|
                #![trigger graph.adjacent(x, y)]
                graph.adjacent(x, y) <==> x < n && y < n && lists_edge(
                    edges@.take(i as int),
                    (x, y),
                ),
        decreases edges.len() - i,
    {
        let edge: (usize, usize) = edges[i];
        let ghost before = graph;
        let added = graph.add_edge(edge.0, edge.1);
        proof {
            let sofar = edges@.take(i as int);
            let next = edges@.take(i + 1);
            assert(next.len() == i + 1 && next[i as int] == edge);
            assert forall|x: usize, y: usize|
                #![trigger graph.adjacent(x, y)]
                graph.adjacent(x, y) <==> x < n && y < n && lists_edge(next, (x, y)) by {
                if lists_edge(sofar, (x, y)) {
                    let k = choose|k: int| 0 <= k < sofar.len() && same_edge(#[trigger] sofar[k], (x, y));
                    assert(same_edge(next[k], (x, y)));
                }
                if lists_edge(next, (x, y)) {
                    let k = choose|k: int| 0 <= k < next.len() && same_edge(#[trigger] next[k], (x, y));
                    if k < i {
                        assert(same_edge(sofar[k], (x, y)));
                    } else {
                        assert(same_edge(edge, (x, y)));
                        if x < n && y < n && !added {
                            assert(before.adjacent(edge.0, edge.1) || before.adjacent(
                                edge.1,
                                edge.0,
                            ));
                            if before.adjacent(edge.0, edge.1) {
                                let m = choose|m: int|
                                    0 <= m < sofar.len() && same_edge(
                                        #[trigger] sofar[m],
                                        (edge.0, edge.1),
                                    );
                                assert(same_edge(sofar[m], (x, y)));
                            } else {
                                let m = choose|m: int|
                                    0 <= m < sofar.len() && same_edge(
                                        #[trigger] sofar[m],
                                        (edge.1, edge.0),
                                    );
                                assert(same_edge(sofar[m], (x, y)));
                            }
                        }
                    }
                }
                if added && ((x == edge.0 && y == edge.1) || (x == edge.1 && y == edge.0)) {
                    assert(same_edge(next[i as int], (x, y)));
                }
                assert(before.adjacent(x, y) <==> x < n && y < n && lists_edge(sofar, (x, y)));
            }
        }
        i = i + 1;
    }
    assert(edges@.take(edges@.len() as int) == edges@);
    proof {
        lemma_edges_have_no_direction(graph, number_of_vertices as nat, edges@);
    }
    graph
}

/// The edges of `edges` at the given places, in the order of the places.
pub open spec fn edges_at(edges: Seq<(usize, usize)>, places: Seq<usize>) -> Seq<(usize, usize)> {
    Seq::new(places.len(), |k: int| edges[places[k] as int])
}

/// The numbers `0..n` in their order.
pub open spec fn places_below(n: nat) -> Seq<usize> {
    Seq::new(n, |k: int| k as usize)
}

/// The graph `g` is the graph of the selection `keep` from the possible
/// edges.
pub open spec fn is_selected_graph(
    g: Graph,
    number_of_vertices: nat,
    possible_edges: Seq<(usize, usize)>,
    keep: Seq<bool>,
) -> bool {
    graph_has_edges(
        g,
        number_of_vertices,
        edges_at(possible_edges, pick(places_below(possible_edges.len()), keep)),
    )
}

/// The graph `g` is the graph of some selection from the possible edges.
pub open spec fn is_some_selected_graph(
    g: Graph,
    number_of_vertices: nat,
    possible_edges: Seq<(usize, usize)>,
) -> bool {
    exists|keep: Seq<bool>|
        keep.len() == possible_edges.len() && #[trigger] is_selected_graph(
            g,
            number_of_vertices,
            possible_edges,
            keep,
        )
}

/// One of the graphs is the graph of the selection `keep` from the
/// possible edges.
pub open spec fn has_selected_graph(
    graphs: Seq<Graph>,
    number_of_vertices: nat,
    possible_edges: Seq<(usize, usize)>,
    keep: Seq<bool>,
) -> bool {
    exists|t: int|
        0 <= t < graphs.len() && is_selected_graph(
            #[trigger] graphs[t],
            number_of_vertices,
            possible_edges,
            keep,
        )
}

/// All graphs with the given number of vertices whose edges are among the
/// possible edges: one graph for each selection from the list of possible
/// edges.
pub fn generate_graphs(number_of_vertices: u64, possible_edges: Vec<(usize, usize)>) -> (graphs:
    Vec<Graph>)
    requires
        pow2(possible_edges@.len()) <= usize::MAX,
    ensures
        graphs@.len() == pow2(possible_edges@.len()),
        forall|t: int|
            0 <= t < graphs@.len() ==> is_some_selected_graph(
                #[trigger] graphs@[t],
                number_of_vertices as nat,
                possible_edges@,
            ),
        forall|keep: Seq<bool>|
            keep.len() == possible_edges@.len() ==> #[trigger] has_selected_graph(
                graphs@,
                number_of_vertices as nat,
                possible_edges@,
                keep,
            ),
{
    let count: usize = if number_of_vertices > MAX_VERTEX as u64 {
        MAX_VERTEX
    } else {
        number_of_vertices as usize
    };
    let mut places: Vec<usize> = Vec::new();
    let mut k: usize = 0;
    while k < possible_edges.len()
        invariant
            k <= possible_edges.len(),
            places@ == places_below(k as nat),
        decreases possible_edges.len() - k,
    {
        places.push(k);
        assert(places@ =~= places_below((k + 1) as nat));
        k = k + 1;
    }
    let subsets = powerset_of(&places);
    let mut graphs: Vec<Graph> = Vec::new();
    let mut t: usize = 0;
    while t < subsets.len()
        invariant
            t <= subsets.len(),
            places@ == places_below(possible_edges@.len()),
            all_selections(places@, subsets@),
            count == if number_of_vertices <= MAX_VERTEX {
                number_of_vertices as nat
            } else {
                MAX_VERTEX as nat
            },
            graphs@.len() == t,
            forall|u: int|
                0 <= u < t ==> graph_has_edges(
                    #[trigger] graphs@[u],
                    number_of_vertices as nat,
                    edges_at(possible_edges@, subsets@[u]@),
                ),
        decreases subsets.len() - t,
    {
        let subset = &subsets[t];
        proof {
            assert(is_selection(places@, subsets@[t as int]@));
            let keep = choose|keep: Seq<bool>|
                keep.len() == places@.len() && subsets@[t as int]@ == #[trigger] pick(places@, keep);
            lemma_picked_places(places@, keep);
        }
        let mut edges: Vec<(usize, usize)> = Vec::new();
        let mut j: usize = 0;
        while j < subset.len()
            invariant
                j <= subset.len(),
                forall|m: int|
                    0 <= m < subset@.len() ==> #[trigger] subset@[m] < possible_edges@.len(),
                edges@.len() == j,
                forall|m: int| 0 <= m < j ==> edges@[m] == possible_edges@[subset@[m] as int],
            decreases subset.len() - j,
        {
            edges.push(possible_edges[subset[j]]);
            j = j + 1;
        }
        assert(edges@ =~= edges_at(possible_edges@, subset@));
        let graph = graph_of_edges(count, &edges);
        graphs.push(graph);
        t = t + 1;
    }
    proof {
        assert forall|u: int| 0 <= u < graphs@.len() implies is_some_selected_graph(
            #[trigger] graphs@[u],
            number_of_vertices as nat,
            possible_edges@,
        ) by {
            assert(is_selection(places@, subsets@[u]@));
            let keep = choose|keep: Seq<bool>|
                keep.len() == places@.len() && subsets@[u]@ == #[trigger] pick(places@, keep);
            assert(is_selected_graph(
                graphs@[u],
                number_of_vertices as nat,
                possible_edges@,
                keep,
            ));
        }
        assert forall|keep: Seq<bool>|
            keep.len() == possible_edges@.len() implies #[trigger] has_selected_graph(
            graphs@,
            number_of_vertices as nat,
            possible_edges@,
            keep,
        ) by {
            assert(has_selection(subsets@, pick(places@, keep)));
            let u = choose|u: int|
                0 <= u < subsets@.len() && (#[trigger] subsets@[u])@ == pick(places@, keep);
            assert(is_selected_graph(
                graphs@[u],
                number_of_vertices as nat,
                possible_edges@,
                keep,
            ));
        }
    }
    graphs
}

/// A selection from a list of places below a bound holds places below the
/// bound.
pub proof fn lemma_picked_places(places: Seq<usize>, keep: Seq<bool>)
    requires
        keep.len() == places.len(),
        places == places_below(places.len()),
    ensures
        forall|m: int|
            0 <= m < pick(places, keep).len() ==> #[trigger] pick(places, keep)[m] < places.len(),
{
    let picked = pick(places, keep);
    assert forall|m: int| 0 <= m < picked.len() implies #[trigger] picked[m] < places.len() by {
        crate::edge_sets::lemma_pick(places, keep, picked[m]);
        let k = choose|k: int| 0 <= k < places.len() && keep[k] && #[trigger] places[k] == picked[m];
    }
}

/// Whether the two graphs have the same vertices and the same edges.
pub fn equal_graphs(a: &Graph, b: &Graph) -> (r: bool)
    ensures
        r == (a.order() == b.order() && forall|u: usize, v: usize|
            u < a.order() && v < a.order() ==> a.adjacent(u, v) == b.adjacent(u, v)),
{
    if a.node_count() != b.node_count() {
        return false;
    }
    let nodes: usize = a.node_count();
    let mut u: usize = 0;
    while u < nodes
        invariant
            u <= nodes,
            nodes == a.order(),
            nodes == b.order(),
            forall|x: usize, y: usize| x < u && y < nodes ==> a.adjacent(x, y) == b.adjacent(x, y),
        decreases nodes - u,
    {
        let mut v: usize = 0;
        while v < nodes
            invariant
                v <= nodes,
                u < nodes,
                nodes == a.order(),
                nodes == b.order(),
                forall|x: usize, y: usize|
                    x < u && y < nodes ==> a.adjacent(x, y) == b.adjacent(x, y),
                forall|y: usize| y < v ==> a.adjacent(u, y) == b.adjacent(u, y),
            decreases nodes - v,
        {
            if a.has_edge(u, v) != b.has_edge(u, v) {
                return false;
            }
            v = v + 1;
        }
        u = u + 1;
    }
    true
}

} // verus!
