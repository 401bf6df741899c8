//! Checking that a nice tree decomposition decomposes a pattern graph, and
//! counting homomorphisms behind that check: what is counted then is the
//! number of homomorphisms.

use crate::all_patterns::decomposes_vertices;
use crate::all_patterns::is_blank_decomposed;
use crate::all_patterns::lemma_answer_counts_homomorphisms;
use crate::all_patterns::lemma_pattern_is_decomposed;
use crate::bounds::count_all_homomorphisms;
use crate::bounds::counts_surely_fit;
use crate::bounds::few_possible_edges;
use crate::bounds::lemma_surely_fits;
use crate::bounds::surely_fits;
use crate::brute_force::homomorphisms;
use crate::edge_sets::EdgeList;
use crate::equivalence_class_algorithm::has_answer;
use crate::equivalence_class_algorithm::is_some_answer;
use crate::graph_generation::graph_of_edges;
use crate::graph_generation::lists_edge;
use crate::graph_generation::possible_edges_of;
use crate::graph_generation::same_edge;
use crate::diaz::diaz;
use crate::dynamic_program::adjacency;
use crate::graphs::symmetric;
use crate::graphs::Graph;
use crate::integer_functions::lemma_power_step;
use crate::nice_tree_decomposition::comes_before;
use crate::nice_tree_decomposition::rank_in_bag;
use crate::nice_tree_decomposition::vertex_in_list;
use crate::nice_tree_decomposition::Bag;
use crate::nice_tree_decomposition::NiceTreeDecomposition;
use crate::nice_tree_decomposition::NodeType;
use crate::soundness::decomposes;
use crate::soundness::lemma_count_is_number_of_homomorphisms;
use crate::soundness::lemma_seen_depth;
use crate::soundness::node_decomposes;
use crate::soundness::seen;
use crate::tree_decompositions::TreeNode;
use crate::tree_decompositions::Vertex;
use std::collections::HashMap;
use vstd::arithmetic::power2::pow2;
use vstd::prelude::*;
use vstd::std_specs::hash::group_hash_axioms;

verus! {

broadcast use group_hash_axioms;

/// Whether the graph joins `b` to `a` whenever it joins `a` to `b`.
pub fn is_symmetric(g: &Graph) -> (r: bool)
    ensures
        r == symmetric(*g),
{
    let n: usize = g.node_count();
    let mut a: usize = 0;
    while a < n
        invariant
            a <= n,
            n == g.order(),
            forall|x: usize, y: usize|
                #![trigger g.adjacent(x, y)]
                x < a && y < n ==> g.adjacent(x, y) == g.adjacent(y, x),
        decreases n - a,
    {
        let mut b: usize = 0;
        while b < n
            invariant
                b <= n,
                a < n,
                n == g.order(),
                forall|x: usize, y: usize|
                    #![trigger g.adjacent(x, y)]
                    x < a && y < n ==> g.adjacent(x, y) == g.adjacent(y, x),
                forall|y: usize|
                    #![trigger g.adjacent(a, y)]
                    y < b ==> g.adjacent(a, y) == g.adjacent(y, a),
            decreases n - b,
        {
            if g.has_edge(a, b) != g.has_edge(b, a) {
                return false;
            }
            b = b + 1;
        }
        a = a + 1;
    }
    true
}

/// Whether all vertices of the bag are below `h`.
fn all_below(bag: &Bag, h: usize) -> (r: bool)
    ensures
        r == forall|k: int| 0 <= k < bag@.len() ==> #[trigger] bag@[k] < h,
{
    let mut k: usize = 0;
    while k < bag.len()
        invariant
            k <= bag.len(),
            forall|m: int| 0 <= m < k ==> #[trigger] bag@[m] < h,
        decreases bag.len() - k,
    {
        if bag[k] >= h {
            return false;
        }
        k = k + 1;
    }
    true
}

/// Whether the two bags hold the same vertices.
fn same_bag(first: &Bag, second: &Bag) -> (r: bool)
    ensures
        r == (first@ == second@),
{
    if first.len() != second.len() {
        return false;
    }
    let mut k: usize = 0;
    while k < first.len()
        invariant
            k <= first.len(),
            first@.len() == second@.len(),
            forall|m: int| 0 <= m < k ==> first@[m] == second@[m],
        decreases first.len() - k,
    {
        if first[k] != second[k] {
            return false;
        }
        k = k + 1;
    }
    assert(first@ =~= second@);
    true
}

/// Whether the longer bag is the shorter bag with the vertex `v` put in at
/// the place `s`.
fn is_bag_with(longer: &Bag, shorter: &Bag, s: usize, v: Vertex) -> (r: bool)
    requires
        s <= shorter@.len(),
    ensures
        r == (longer@ == shorter@.insert(s as int, v)),
{
    let ghost target = shorter@.insert(s as int, v);
    assert(target.len() == shorter@.len() + 1);
    let longer_len: usize = longer.len();
    let shorter_len: usize = shorter.len();
    if shorter_len == usize::MAX || longer_len != shorter_len + 1 {
        return false;
    }
    let mut k: usize = 0;
    while k < longer.len()
        invariant
            k <= longer.len(),
            s <= shorter@.len(),
            longer@.len() == shorter@.len() + 1,
            target == shorter@.insert(s as int, v),
            forall|m: int| 0 <= m < k ==> longer@[m] == target[m],
        decreases longer.len() - k,
    {
        let expected: Vertex = if k < s {
            shorter[k]
        } else if k == s {
            v
        } else {
            shorter[k - 1]
        };
        if longer[k] != expected {
            return false;
        }
        k = k + 1;
    }
    assert(longer@ =~= target);
    true
}

/// Whether the pattern joins `v` to none of the listed vertices outside
/// the bag.
fn no_edge_to_forgotten(from: &Graph, v: Vertex, list: &Vec<Vertex>, bag: &Bag) -> (r: bool)
    ensures
        r == forall|w: Vertex|
            list@.contains(w) && !bag@.contains(w) ==> !#[trigger] from.adjacent(v, w),
{
    let mut k: usize = 0;
    while k < list.len()
        invariant
            k <= list.len(),
            forall|m: int|
                0 <= m < k && !bag@.contains(list@[m]) ==> !from.adjacent(v, #[trigger] list@[m]),
        decreases list.len() - k,
    {
        if !vertex_in_list(list[k], bag) && from.has_edge(v, list[k]) {
            return false;
        }
        k = k + 1;
    }
    proof {
        assert forall|w: Vertex| list@.contains(w) && !bag@.contains(w) implies !#[trigger] from.adjacent(
            v,
            w,
        ) by {
            let m = choose|m: int| 0 <= m < list@.len() && list@[m] == w;
            assert(!from.adjacent(v, list@[m]));
        }
    }
    true
}

/// Whether every vertex that both lists hold is in the bag.
fn common_in_bag(first: &Vec<Vertex>, second: &Vec<Vertex>, bag: &Bag) -> (r: bool)
    ensures
        r == forall|u: Vertex|
            first@.contains(u) && #[trigger] second@.contains(u) ==> bag@.contains(u),
{
    let mut k: usize = 0;
    while k < first.len()
        invariant
            k <= first.len(),
            forall|m: int|
                0 <= m < k && second@.contains(#[trigger] first@[m]) ==> bag@.contains(first@[m]),
        decreases first.len() - k,
    {
        if vertex_in_list(first[k], second) && !vertex_in_list(first[k], bag) {
            return false;
        }
        k = k + 1;
    }
    proof {
        assert forall|u: Vertex|
            first@.contains(u) && #[trigger] second@.contains(u) implies bag@.contains(u) by {
            let m = choose|m: int| 0 <= m < first@.len() && first@[m] == u;
            assert(second@.contains(first@[m]));
        }
    }
    true
}

/// Whether the pattern joins no vertex of the first list outside the bag
/// to a vertex of the second list outside the bag.
fn no_edges_between(from: &Graph, first: &Vec<Vertex>, second: &Vec<Vertex>, bag: &Bag) -> (r:
    bool)
    ensures
        r == forall|u: Vertex, w: Vertex|
            first@.contains(u) && !bag@.contains(u) && second@.contains(w) && !bag@.contains(w)
                ==> !#[trigger] from.adjacent(u, w),
{
    let mut k: usize = 0;
    while k < first.len()
        invariant
            k <= first.len(),
            forall|m: int, w: Vertex|
                0 <= m < k && !bag@.contains(first@[m]) && second@.contains(w) && !bag@.contains(w)
                    ==> !#[trigger] from.adjacent(first@[m], w),
        decreases first.len() - k,
    {
        if !vertex_in_list(first[k], bag) {
            if !no_edge_to_forgotten(from, first[k], second, bag) {
                return false;
            }
        }
        k = k + 1;
    }
    proof {
        assert forall|u: Vertex, w: Vertex|
            first@.contains(u) && !bag@.contains(u) && second@.contains(w) && !bag@.contains(
                w,
            ) implies !#[trigger] from.adjacent(u, w) by {
            let m = choose|m: int| 0 <= m < first@.len() && first@[m] == u;
            assert(!from.adjacent(first@[m], w));
        }
    }
    true
}

/// Adds to the list the vertices of `more` that it does not hold yet.
fn add_vertices(list: &mut Vec<Vertex>, more: &Vec<Vertex>)
    ensures
        forall|u: Vertex| final(list)@.contains(u) <==> old(list)@.contains(u) || more@.contains(u),
{
    let mut k: usize = 0;
    while k < more.len()
        invariant
            k <= more.len(),
            forall|u: Vertex|
                list@.contains(u) <==> old(list)@.contains(u) || exists|m: int|
                    0 <= m < k && more@[m] == u,
        decreases more.len() - k,
    {
        let ghost before = list@;
        let v: Vertex = more[k];
        if !vertex_in_list(v, list) {
            list.push(v);
        }
        proof {
            assert forall|u: Vertex|
                list@.contains(u) <==> old(list)@.contains(u) || exists|m: int|
                    0 <= m < k + 1 && more@[m] == u by {
                if before.contains(u) {
                    let i = choose|i: int| 0 <= i < before.len() && before[i] == u;
                    assert(list@[i] == u);
                    if !old(list)@.contains(u) {
                        let m = choose|m: int| 0 <= m < k && more@[m] == u;
                        assert(0 <= m < k + 1 && more@[m] == u);
                    }
                }
                if u == v {
                    assert(0 <= k < k + 1 && more@[k as int] == u);
                    if !before.contains(u) {
                        assert(list@[list@.len() - 1] == u);
                    }
                }
                if list@.contains(u) {
                    let i = choose|i: int| 0 <= i < list@.len() && list@[i] == u;
                    if i < before.len() {
                        assert(before[i] == u);
                    }
                }
                if exists|m: int| 0 <= m < k + 1 && more@[m] == u {
                    let m = choose|m: int| 0 <= m < k + 1 && more@[m] == u;
                    if m < k {
                        assert(before.contains(u));
                    }
                }
            }
        }
        k = k + 1;
    }
    proof {
        assert forall|u: Vertex|
            list@.contains(u) <==> old(list)@.contains(u) || more@.contains(u) by {
            if more@.contains(u) {
                let m = choose|m: int| 0 <= m < more@.len() && more@[m] == u;
                assert(0 <= m < k && more@[m] == u);
            }
        }
    }
}

/// Whether the list holds every vertex below `h`.
fn holds_all_below(list: &Vec<Vertex>, h: usize) -> (r: bool)
    ensures
        r == forall|u: Vertex| u < h ==> #[trigger] list@.contains(u),
{
    let mut u: usize = 0;
    while u < h
        invariant
            u <= h,
            forall|x: Vertex| x < u ==> #[trigger] list@.contains(x),
        decreases h - u,
    {
        if !vertex_in_list(u, list) {
            return false;
        }
        u = u + 1;
    }
    true
}

/// The list holds the vertices seen below node `x`.
pub open spec fn lists_seen(ntd: NiceTreeDecomposition, x: TreeNode, list: Seq<Vertex>) -> bool {
    forall|u: Vertex|
        #![trigger list.contains(u)]
        list.contains(u) <==> seen(ntd, x, ntd.spec_ordering().len()).contains(u)
}

/// The vertices seen below the node at place `i` of the ordering, if the
/// node decomposes the pattern graph as its kind asks. `lists` holds the
/// vertices seen below the nodes before it.
fn seen_below(
    ntd: &NiceTreeDecomposition,
    from: &Graph,
    lists: &HashMap<TreeNode, Vec<Vertex>>,
    p: TreeNode,
    Ghost(i): Ghost<int>,
) -> (r: Option<Vec<Vertex>>)
    requires
        ntd.nice(),
        0 <= i < ntd.spec_ordering().len(),
        p == ntd.spec_ordering()[i],
        forall|x: TreeNode| #[trigger]
            lists@.contains_key(x) <==> comes_before(ntd.spec_ordering(), x, i),
        forall|x: TreeNode| #[trigger] lists@.contains_key(x) ==> lists_seen(*ntd, x, lists@[x]@),
    ensures
        match r {
            Some(list) => node_decomposes(*ntd, *from, ntd.spec_ordering(), i) && lists_seen(
                *ntd,
                p,
                list@,
            ),
            None => !node_decomposes(*ntd, *from, ntd.spec_ordering(), i),
        },
{
    let ghost order = ntd.spec_ordering();
    let ghost all = order.len();
    let h: usize = from.node_count();
    proof {
        assert(ntd.node_is_nice(order, i));
    }
    let bag = ntd.bag(p).unwrap();
    if !all_below(bag, h) {
        return None;
    }
    let mut list: Vec<Vertex> = Vec::new();
    match ntd.node_type(p) {
        None => {
            assert(false);
            None
        },
        Some(NodeType::Leaf) => {
            add_vertices(&mut list, bag);
            proof {
                assert forall|u: Vertex|
                    #![trigger list@.contains(u)]
                    list@.contains(u) <==> seen(*ntd, p, all).contains(u) by {
                    assert(bag@.to_set().contains(u) <==> bag@.contains(u));
                }
                assert(node_decomposes(*ntd, *from, order, i));
            }
            Some(list)
        },
        Some(NodeType::Introduce) => {
            let q: TreeNode = *ntd.unique_child(p).unwrap();
            proof {
                let k = choose|k: int| 0 <= k < i && k < order.len() && order[k] == q;
                assert(ntd.node_is_nice(order, k));
                lemma_seen_depth(*ntd, order, k, all, (all - 1) as nat);
                assert(lists@.contains_key(q));
            }
            let v: Vertex = ntd.unique_vertex_from_bags(p).unwrap();
            let bag_q = ntd.bag(q).unwrap();
            let seen_q = lists.get(&q).unwrap();
            let s: usize = rank_in_bag(bag_q, v);
            if !is_bag_with(bag, bag_q, s, v) {
                return None;
            }
            if vertex_in_list(v, seen_q) {
                return None;
            }
            if !no_edge_to_forgotten(from, v, seen_q, bag_q) {
                proof {
                    let w = choose|w: Vertex|
                        seen_q@.contains(w) && !bag_q@.contains(w) && from.adjacent(v, w);
                    assert(seen(*ntd, q, all).contains(w));
                }
                return None;
            }
            list = seen_q.clone();
            assert(list@ =~= seen_q@);
            add_vertices(&mut list, bag);
            proof {
                assert forall|u: Vertex|
                    #![trigger list@.contains(u)]
                    list@.contains(u) <==> seen(*ntd, p, all).contains(u) by {
                    assert(bag@.to_set().contains(u) <==> bag@.contains(u));
                }
                assert(node_decomposes(*ntd, *from, order, i));
            }
            Some(list)
        },
        Some(NodeType::Forget) => {
            let q: TreeNode = *ntd.unique_child(p).unwrap();
            proof {
                let k = choose|k: int| 0 <= k < i && k < order.len() && order[k] == q;
                assert(ntd.node_is_nice(order, k));
                lemma_seen_depth(*ntd, order, k, all, (all - 1) as nat);
                assert(lists@.contains_key(q));
            }
            let v: Vertex = ntd.unique_vertex_from_bags(p).unwrap();
            let bag_q = ntd.bag(q).unwrap();
            let s: usize = rank_in_bag(bag_q, v);
            proof {
                crate::nice_tree_decomposition::lemma_first_missing_is_member(bag_q@, bag@);
                crate::nice_tree_decomposition::lemma_rank_bound(bag_q@, v);
            }
            if !is_bag_with(bag_q, bag, s, v) {
                return None;
            }
            let seen_q = lists.get(&q).unwrap();
            list = seen_q.clone();
            assert(list@ =~= seen_q@);
            add_vertices(&mut list, bag);
            proof {
                assert forall|u: Vertex|
                    #![trigger list@.contains(u)]
                    list@.contains(u) <==> seen(*ntd, p, all).contains(u) by {
                    assert(bag@.to_set().contains(u) <==> bag@.contains(u));
                }
                assert(node_decomposes(*ntd, *from, order, i));
            }
            Some(list)
        },
        Some(NodeType::Join) => {
            let children = ntd.children(p).unwrap();
            let q1: TreeNode = children[0];
            let q2: TreeNode = children[1];
            proof {
                let k1 = choose|k: int| 0 <= k < i && k < order.len() && order[k] == q1;
                let k2 = choose|k: int| 0 <= k < i && k < order.len() && order[k] == q2;
                assert(ntd.node_is_nice(order, k1));
                assert(ntd.node_is_nice(order, k2));
                lemma_seen_depth(*ntd, order, k1, all, (all - 1) as nat);
                lemma_seen_depth(*ntd, order, k2, all, (all - 1) as nat);
                assert(lists@.contains_key(q1));
                assert(lists@.contains_key(q2));
            }
            let first = lists.get(&q1).unwrap();
            let second = lists.get(&q2).unwrap();
            if !same_bag(ntd.bag(q1).unwrap(), bag) {
                return None;
            }
            if !same_bag(ntd.bag(q2).unwrap(), bag) {
                return None;
            }
            if !common_in_bag(first, second, bag) {
                proof {
                    let u = choose|u: Vertex|
                        first@.contains(u) && second@.contains(u) && !bag@.contains(u);
                    assert(seen(*ntd, q1, all).contains(u) && seen(*ntd, q2, all).contains(u));
                }
                return None;
            }
            if !no_edges_between(from, first, second, bag) {
                proof {
                    let (u, w) = choose|u: Vertex, w: Vertex|
                        first@.contains(u) && !bag@.contains(u) && second@.contains(w)
                            && !bag@.contains(w) && from.adjacent(u, w);
                    assert(seen(*ntd, q1, all).contains(u) && seen(*ntd, q2, all).contains(w));
                }
                return None;
            }
            list = first.clone();
            assert(list@ =~= first@);
            add_vertices(&mut list, second);
            let ghost both = list@;
            add_vertices(&mut list, bag);
            proof {
                let below_first = seen(*ntd, q1, all);
                let below_second = seen(*ntd, q2, all);
                assert forall|u: Vertex|
                    #![trigger list@.contains(u)]
                    list@.contains(u) <==> seen(*ntd, p, all).contains(u) by {
                    assert(bag@.to_set().contains(u) <==> bag@.contains(u));
                    assert(both.contains(u) <==> first@.contains(u) || second@.contains(u));
                    assert(first@.contains(u) <==> below_first.contains(u));
                    assert(second@.contains(u) <==> below_second.contains(u));
                }
                assert forall|u: Vertex|
                    below_first.contains(u) && #[trigger] below_second.contains(
                        u,
                    ) implies bag@.contains(u) by {
                    assert(first@.contains(u) <==> below_first.contains(u));
                    assert(second@.contains(u) <==> below_second.contains(u));
                }
                assert forall|u: Vertex, w: Vertex|
                    below_first.contains(u) && !bag@.contains(u) && below_second.contains(w)
                        && !bag@.contains(w) implies !#[trigger] from.adjacent(u, w) by {
                    assert(first@.contains(u) <==> below_first.contains(u));
                    assert(second@.contains(w) <==> below_second.contains(w));
                }
                assert(node_decomposes(*ntd, *from, order, i));
            }
            Some(list)
        },
    }
}

/// Whether the decomposition is a nice tree decomposition of the pattern
/// graph.
pub fn decomposes_graph(ntd: &NiceTreeDecomposition, from: &Graph) -> (r: bool)
    requires
        ntd.wf(),
    ensures
        r == decomposes(*ntd, *from),
{
    if !ntd.is_nice() {
        return false;
    }
    let order = ntd.stingy_ordering();
    let h: usize = from.node_count();
    let ghost all = order@.len();
    let mut lists: HashMap<TreeNode, Vec<Vertex>> = HashMap::new();
    let mut i: usize = 0;
    while i < order.len()
        invariant
            i <= order.len(),
            order@ == ntd.spec_ordering(),
            all == order@.len(),
            h == from.order(),
            ntd.nice(),
            forall|x: TreeNode| #[trigger]
                lists@.contains_key(x) <==> comes_before(order@, x, i as int),
            forall|x: TreeNode| #[trigger]
                lists@.contains_key(x) ==> lists_seen(*ntd, x, lists@[x]@),
            forall|m: int| 0 <= m < i ==> #[trigger] node_decomposes(*ntd, *from, order@, m),
        decreases order.len() - i,
    {
        let p: TreeNode = order[i];
        let ghost before = lists@;
        let list = match seen_below(ntd, from, &lists, p, Ghost(i as int)) {
            None => {
                return false;
            },
            Some(list) => list,
        };
        lists.insert(p, list);
        proof {
            assert forall|x: TreeNode| #[trigger]
                lists@.contains_key(x) <==> comes_before(order@, x, i + 1) by {
                if comes_before(order@, x, i + 1) {
                    let m = choose|m: int| 0 <= m < i + 1 && m < order@.len() && order@[m] == x;
                    if m < i {
                        assert(comes_before(order@, x, i as int));
                    }
                }
                if before.contains_key(x) {
                    let m = choose|m: int| 0 <= m < i && m < order@.len() && order@[m] == x;
                    assert(0 <= m < i + 1 && m < order@.len() && order@[m] == x);
                }
                if x == p {
                    assert(0 <= i < i + 1 && i < order@.len() && order@[i as int] == x);
                }
            }
        }
        i = i + 1;
    }
    let root: TreeNode = ntd.root();
    proof {
        assert(order@[all - 1] == root);
        assert(0 <= all - 1 < i && all - 1 < order@.len() && order@[all - 1] == root);
        assert(comes_before(order@, root, i as int));
        assert(ntd.node_is_nice(order@, all - 1));
    }
    if ntd.bag(root).unwrap().len() != 0 {
        return false;
    }
    let seen_root = lists.get(&root).unwrap();
    if !holds_all_below(seen_root, h) {
        proof {
            let u = choose|u: Vertex| u < h && !seen_root@.contains(u);
            assert(!seen(*ntd, root, all).contains(u));
        }
        return false;
    }
    if !all_below(seen_root, h) {
        proof {
            let k = choose|k: int| 0 <= k < seen_root@.len() && !(#[trigger] seen_root@[k] < h);
            assert(seen_root@.contains(seen_root@[k]));
            assert(seen(*ntd, root, all).contains(seen_root@[k]));
        }
        return false;
    }
    proof {
        assert forall|u: Vertex|
            #![trigger seen(*ntd, root, all).contains(u)]
            seen(*ntd, root, all).contains(u) <==> u < from.order() by {
            if seen(*ntd, root, all).contains(u) {
                assert(seen_root@.contains(u));
                let k = choose|k: int| 0 <= k < seen_root@.len() && seen_root@[k] == u;
                assert(seen_root@[k] < h);
            }
            if u < h {
                assert(seen_root@.contains(u));
            }
        }
    }
    true
}

/// The number of homomorphisms from the pattern graph into the target
/// graph, if the decomposition is a nice tree decomposition of the
/// pattern graph, the edges of both graphs have no direction, and the
/// table surely fits into its integers.
pub fn count_homomorphisms_of_decomposed(
    from_graph: &Graph,
    ntd: &NiceTreeDecomposition,
    to_graph: &Graph,
) -> (r: Option<u64>)
    requires
        ntd.wf(),
    ensures
        r is Some <==> decomposes(*ntd, *from_graph) && symmetric(*from_graph) && symmetric(
            *to_graph,
        ) && surely_fits(*ntd, *to_graph),
        r is Some ==> r->0 == homomorphisms(*from_graph, *to_graph),
{
    if !decomposes_graph(ntd, from_graph) {
        return None;
    }
    if !is_symmetric(from_graph) || !is_symmetric(to_graph) {
        return None;
    }
    if !counts_surely_fit(ntd, to_graph) {
        return None;
    }
    proof {
        lemma_surely_fits(*ntd, adjacency(*from_graph), *to_graph);
        lemma_count_is_number_of_homomorphisms(*from_graph, *ntd, *to_graph);
        lemma_power_step(to_graph.order(), 0);
    }
    Some(diaz(from_graph, ntd, to_graph))
}

/// For every set of possible edges of the decomposition, the pattern graph
/// with these edges and the number of homomorphisms from it into the
/// target graph, if the decomposition is a nice tree decomposition of its
/// vertices with few enough possible edges, the edges of the target graph
/// have no direction, and the table surely fits into its integers.
pub fn count_all_homomorphisms_of_decomposed(ntd: &NiceTreeDecomposition, to_graph: &Graph) -> (r:
    Option<Vec<(Graph, u64)>>)
    requires
        ntd.wf(),
    ensures
        r is Some <==> decomposes_vertices(*ntd) && few_possible_edges(*ntd) && symmetric(
            *to_graph,
        ) && surely_fits(*ntd, *to_graph),
        r is Some ==> r->0@.len() == pow2(
            possible_edges_of(*ntd, ntd.spec_root(), ntd.spec_ordering().len()).len(),
        ) && (forall|t: int|
            0 <= t < r->0@.len() ==> is_some_answer(*ntd, *to_graph, #[trigger] r->0@[t]) && r->0@[t].1
                == homomorphisms(r->0@[t].0, *to_graph)) && forall|e: EdgeList| #[trigger]
            has_answer(*ntd, *to_graph, r->0@, e),
{
    let no_edges: Vec<(usize, usize)> = Vec::new();
    let blank = graph_of_edges(ntd.vertex_count(), &no_edges);
    proof {
        assert forall|a: usize, b: usize| !#[trigger] blank.adjacent(a, b) by {
            if lists_edge(no_edges@, (a, b)) {
                let i = choose|i: int|
                    0 <= i < no_edges@.len() && same_edge(#[trigger] no_edges@[i], (a, b));
            }
        }
    }
    if !decomposes_graph(ntd, &blank) {
        proof {
            if decomposes_vertices(*ntd) {
                let other = choose|other: Graph| is_blank_decomposed(*ntd, other);
                lemma_pattern_is_decomposed(*ntd, other, blank);
            }
        }
        return None;
    }
    proof {
        assert(is_blank_decomposed(*ntd, blank));
        lemma_power_step(to_graph.order(), 0);
    }
    if !is_symmetric(to_graph) {
        return None;
    }
    match count_all_homomorphisms(ntd, to_graph) {
        None => None,
        Some(answers) => {
            proof {
                assert forall|t: int| 0 <= t < answers@.len() implies is_some_answer(
                    *ntd,
                    *to_graph,
                    #[trigger] answers@[t],
                ) && answers@[t].1 == homomorphisms(answers@[t].0, *to_graph) by {
                    lemma_answer_counts_homomorphisms(*ntd, *to_graph, answers@[t]);
                }
            }
            Some(answers)
        },
    }
}

} // verus!
