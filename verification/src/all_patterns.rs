//! Why the dynamic program for all pattern graphs counts homomorphisms: a
//! nice tree decomposition of the vertices decomposes every graph whose
//! edges are among its possible edges.

use crate::brute_force::homomorphisms;
use crate::brute_force::order_for;
use crate::edge_sets::has_bit;
use crate::edge_sets::EdgeList;
use crate::equivalence_class_algorithm::is_answer;
use crate::equivalence_class_algorithm::is_some_answer;
use crate::equivalence_class_algorithm::lemma_count_of_pattern;
use crate::equivalence_class_algorithm::pattern_of;
use crate::graph_generation::lemma_add_missing;
use crate::graph_generation::lemma_possible_edges_depth;
use crate::graph_generation::lists_edge;
use crate::graph_generation::pairs_with;
use crate::graph_generation::possible_edges_of;
use crate::graph_generation::same_edge;
use crate::graphs::symmetric;
use crate::graphs::Graph;
use crate::nice_tree_decomposition::comes_before;
use crate::nice_tree_decomposition::rank_of;
use crate::nice_tree_decomposition::unique_vertex_of;
use crate::nice_tree_decomposition::NiceTreeDecomposition;
use crate::nice_tree_decomposition::NodeType;
use crate::dynamic_program::lemma_children_are_live;
use crate::soundness::decomposes;
use crate::soundness::lemma_count_is_number_of_homomorphisms;
use crate::soundness::lemma_bag_insert;
use crate::soundness::lemma_forget_shape;
use crate::soundness::lemma_introduce_shape;
use crate::soundness::lemma_join_shape;
use crate::soundness::lemma_seen;
use crate::soundness::node_decomposes;
use crate::soundness::seen;
use crate::tree_decompositions::Vertex;
use vstd::prelude::*;

verus! {

/// The graph has no edge.
pub open spec fn edgeless(g: Graph) -> bool {
    forall|a: usize, b: usize| !#[trigger] g.adjacent(a, b)
}

/// Both ends of a possible edge of a node were seen below the node.
pub proof fn lemma_possible_edges_are_seen(
    ntd: NiceTreeDecomposition,
    blank: Graph,
    j: int,
    a: Vertex,
    b: Vertex,
)
    requires
        decomposes(ntd, blank),
        0 <= j < ntd.spec_ordering().len(),
        lists_edge(
            possible_edges_of(ntd, ntd.spec_ordering()[j], ntd.spec_ordering().len()),
            (a, b),
        ),
    ensures
        seen(ntd, ntd.spec_ordering()[j], ntd.spec_ordering().len()).contains(a),
        seen(ntd, ntd.spec_ordering()[j], ntd.spec_ordering().len()).contains(b),
    decreases j,
{
    let order = ntd.spec_ordering();
    let all = order.len();
    let p = order[j];
    let c = ntd.spec_children(p);
    let bag = ntd.spec_bag(p);
    let edges = possible_edges_of(ntd, p, all);
    let below = (all - 1) as nat;
    assert(ntd.node_is_nice(order, j));
    lemma_seen(ntd, blank, j);
    let unique = unique_vertex_of(ntd.spec_tree(), ntd.spec_data(), p);
    let i = choose|i: int| 0 <= i < edges.len() && same_edge(#[trigger] edges[i], (a, b));
    match ntd.spec_node_type(p) {
        Some(NodeType::Leaf) => {
            assert(bag.to_set().contains(bag[0]));
        },
        Some(NodeType::Introduce) => {
            let v = unique->0;
            lemma_children_are_live(ntd, order, j, 0);
            let k = choose|k: int| 0 <= k < j && k < order.len() && order[k] == c[0];
            lemma_possible_edges_depth(ntd, order, k, all, below);
            lemma_introduce_shape(blank, ntd, j);
            lemma_add_missing(possible_edges_of(ntd, c[0], below), pairs_with(bag, v));
            if lists_edge(possible_edges_of(ntd, c[0], below), (a, b)) {
                lemma_possible_edges_are_seen(ntd, blank, k, a, b);
            } else {
                let m = choose|m: int|
                    0 <= m < pairs_with(bag, v).len() && same_edge(
                        #[trigger] pairs_with(bag, v)[m],
                        (a, b),
                    );
                assert(bag.to_set().contains(bag[m]));
            }
        },
        Some(NodeType::Forget) => {
            lemma_children_are_live(ntd, order, j, 0);
            let k = choose|k: int| 0 <= k < j && k < order.len() && order[k] == c[0];
            lemma_possible_edges_depth(ntd, order, k, all, below);
            lemma_possible_edges_are_seen(ntd, blank, k, a, b);
        },
        Some(NodeType::Join) => {
            lemma_children_are_live(ntd, order, j, 0);
            lemma_children_are_live(ntd, order, j, 1);
            let k0 = choose|k: int| 0 <= k < j && k < order.len() && order[k] == c[0];
            let k1 = choose|k: int| 0 <= k < j && k < order.len() && order[k] == c[1];
            lemma_possible_edges_depth(ntd, order, k0, all, below);
            lemma_possible_edges_depth(ntd, order, k1, all, below);
            lemma_add_missing(
                possible_edges_of(ntd, c[0], below),
                possible_edges_of(ntd, c[1], below),
            );
            lemma_add_missing(
                possible_edges_of(ntd, c[1], below),
                possible_edges_of(ntd, c[0], below),
            );
            if lists_edge(possible_edges_of(ntd, c[0], below), (a, b)) {
                lemma_possible_edges_are_seen(ntd, blank, k0, a, b);
            } else {
                lemma_possible_edges_are_seen(ntd, blank, k1, a, b);
            }
        },
        None => {},
    }
}

/// Two vertices seen below a node, one of them forgotten there, that are
/// not joined by a possible edge of the node are not joined by a possible
/// edge of the root: no node further up joins them.
pub proof fn lemma_never_possible(
    ntd: NiceTreeDecomposition,
    blank: Graph,
    j: int,
    a: Vertex,
    b: Vertex,
)
    requires
        decomposes(ntd, blank),
        0 <= j < ntd.spec_ordering().len(),
        seen(ntd, ntd.spec_ordering()[j], ntd.spec_ordering().len()).contains(a),
        seen(ntd, ntd.spec_ordering()[j], ntd.spec_ordering().len()).contains(b),
        !ntd.spec_bag(ntd.spec_ordering()[j]).contains(b),
        !lists_edge(
            possible_edges_of(ntd, ntd.spec_ordering()[j], ntd.spec_ordering().len()),
            (a, b),
        ),
    ensures
        !lists_edge(
            possible_edges_of(ntd, ntd.spec_root(), ntd.spec_ordering().len()),
            (a, b),
        ),
    decreases ntd.spec_ordering().len() - j,
{
    let order = ntd.spec_ordering();
    let all = order.len();
    let below = (all - 1) as nat;
    if j < all - 1 {
        let x = order[j];
        let y = ntd.spec_tree().spec_parents()[x];
        assert(order.contains(y));
        let i = choose|i: int| 0 <= i < order.len() && order[i] == y;
        assert(ntd.spec_tree().spec_children(y).contains(x));
        let m = choose|m: int| 0 <= m < ntd.spec_children(y).len() && ntd.spec_children(y)[m] == x;
        assert(ntd.node_is_nice(order, i));
        assert(comes_before(order, x, i));
        let j2 = choose|j2: int| 0 <= j2 < i && j2 < order.len() && order[j2] == x;
        assert(j2 == j);
        let c = ntd.spec_children(y);
        let bag_x = ntd.spec_bag(x);
        let bag_y = ntd.spec_bag(y);
        let unique = unique_vertex_of(ntd.spec_tree(), ntd.spec_data(), y);
        lemma_seen(ntd, blank, i);
        lemma_possible_edges_depth(ntd, order, j, all, below);
        match ntd.spec_node_type(y) {
            Some(NodeType::Introduce) => {
                let v = unique->0;
                let s = rank_of(bag_x, v);
                lemma_introduce_shape(blank, ntd, i);
                lemma_add_missing(possible_edges_of(ntd, x, below), pairs_with(bag_y, v));
                assert(!bag_y.contains(b)) by {
                    if bag_y.contains(b) {
                        let k = choose|k: int| 0 <= k < bag_y.len() && bag_y[k] == b;
                        lemma_bag_insert(bag_x, s as int, v, k);
                        if k < s {
                            assert(bag_x[k] == b);
                        } else if k > s {
                            assert(bag_x[k - 1] == b);
                        }
                    }
                }
                assert(!lists_edge(pairs_with(bag_y, v), (a, b))) by {
                    if lists_edge(pairs_with(bag_y, v), (a, b)) {
                        let k = choose|k: int|
                            0 <= k < pairs_with(bag_y, v).len() && same_edge(
                                #[trigger] pairs_with(bag_y, v)[k],
                                (a, b),
                            );
                        assert(v == a || v == b);
                    }
                }
            },
            Some(NodeType::Forget) => {
                let v = unique->0;
                let s = rank_of(bag_x, v);
                lemma_forget_shape(blank, ntd, i);
                assert(!bag_y.contains(b)) by {
                    if bag_y.contains(b) {
                        let k = choose|k: int| 0 <= k < bag_y.len() && bag_y[k] == b;
                        if k < s {
                            lemma_bag_insert(bag_y, s as int, v, k);
                            assert(bag_x[k] == b);
                        } else {
                            lemma_bag_insert(bag_y, s as int, v, k + 1);
                            assert(bag_x[k + 1] == b);
                        }
                    }
                }
            },
            Some(NodeType::Join) => {
                lemma_join_shape(blank, ntd, i);
                lemma_children_are_live(ntd, order, i, 0);
                lemma_children_are_live(ntd, order, i, 1);
                let k0 = choose|k: int| 0 <= k < i && k < order.len() && order[k] == c[0];
                let k1 = choose|k: int| 0 <= k < i && k < order.len() && order[k] == c[1];
                lemma_possible_edges_depth(ntd, order, k0, all, below);
                lemma_possible_edges_depth(ntd, order, k1, all, below);
                lemma_add_missing(
                    possible_edges_of(ntd, c[0], below),
                    possible_edges_of(ntd, c[1], below),
                );
                lemma_add_missing(
                    possible_edges_of(ntd, c[1], below),
                    possible_edges_of(ntd, c[0], below),
                );
                if m == 0 {
                    if lists_edge(possible_edges_of(ntd, c[1], all), (a, b)) {
                        lemma_possible_edges_are_seen(ntd, blank, k1, a, b);
                        assert(seen(ntd, c[1], all).contains(b));
                    }
                } else {
                    if lists_edge(possible_edges_of(ntd, c[0], all), (a, b)) {
                        lemma_possible_edges_are_seen(ntd, blank, k0, a, b);
                        assert(seen(ntd, c[1], all).contains(b));
                    }
                }
            },
            _ => {},
        }
        lemma_never_possible(ntd, blank, i, a, b);
    }
}

/// A nice tree decomposition of the vertices decomposes every graph on
/// these vertices whose edges are among its possible edges.
pub proof fn lemma_pattern_is_decomposed(ntd: NiceTreeDecomposition, blank: Graph, from: Graph)
    requires
        decomposes(ntd, blank),
        edgeless(blank),
        from.order() == blank.order(),
        forall|u: Vertex, w: Vertex|
            #![trigger from.adjacent(u, w)]
            from.adjacent(u, w) ==> lists_edge(
                possible_edges_of(ntd, ntd.spec_root(), ntd.spec_ordering().len()),
                (u, w),
            ),
    ensures
        decomposes(ntd, from),
{
    let order = ntd.spec_ordering();
    let all = order.len();
    assert forall|i: int| 0 <= i < order.len() implies #[trigger] node_decomposes(
        ntd,
        from,
        order,
        i,
    ) by {
        lemma_node_is_decomposed(ntd, blank, from, i);
    }
    assert forall|u: Vertex|
        #![trigger seen(ntd, ntd.spec_root(), all).contains(u)]
        seen(ntd, ntd.spec_root(), all).contains(u) <==> u < from.order() by {}
}

/// A node of a nice tree decomposition of the vertices decomposes every
/// graph on these vertices whose edges are among the possible edges.
pub proof fn lemma_node_is_decomposed(
    ntd: NiceTreeDecomposition,
    blank: Graph,
    from: Graph,
    i: int,
)
    requires
        decomposes(ntd, blank),
        from.order() == blank.order(),
        0 <= i < ntd.spec_ordering().len(),
        forall|u: Vertex, w: Vertex|
            #![trigger from.adjacent(u, w)]
            from.adjacent(u, w) ==> lists_edge(
                possible_edges_of(ntd, ntd.spec_root(), ntd.spec_ordering().len()),
                (u, w),
            ),
    ensures
        node_decomposes(ntd, from, ntd.spec_ordering(), i),
{
    let order = ntd.spec_ordering();
    let all = order.len();
    let below = (all - 1) as nat;
    let p = order[i];
    let c = ntd.spec_children(p);
    let bag = ntd.spec_bag(p);
    let unique = unique_vertex_of(ntd.spec_tree(), ntd.spec_data(), p);
    assert(ntd.node_is_nice(order, i));
    assert(node_decomposes(ntd, blank, order, i));
    lemma_seen(ntd, blank, i);
    match ntd.spec_node_type(p) {
        Some(NodeType::Introduce) => {
            let v = unique->0;
            let q = c[0];
            let bag_q = ntd.spec_bag(q);
            let s = rank_of(bag_q, v);
            lemma_children_are_live(ntd, order, i, 0);
            let k = choose|k: int| 0 <= k < i && k < order.len() && order[k] == q;
            lemma_introduce_shape(blank, ntd, i);
            lemma_possible_edges_depth(ntd, order, k, all, below);
            lemma_add_missing(possible_edges_of(ntd, q, below), pairs_with(bag, v));
            assert forall|w: Vertex|
                seen(ntd, q, all).contains(w) && !bag_q.contains(w) implies !#[trigger] from.adjacent(
                v,
                w,
            ) by {
                // w is not in the bag of the node either
                assert(!bag.contains(w)) by {
                    if bag.contains(w) {
                        let m = choose|m: int| 0 <= m < bag.len() && bag[m] == w;
                        lemma_bag_insert(bag_q, s as int, v, m);
                        if m < s {
                            assert(bag_q[m] == w);
                        } else if m > s {
                            assert(bag_q[m - 1] == w);
                        }
                    }
                }
                assert(!lists_edge(possible_edges_of(ntd, p, all), (v, w))) by {
                    if lists_edge(possible_edges_of(ntd, q, all), (v, w)) {
                        lemma_possible_edges_are_seen(ntd, blank, k, v, w);
                    }
                    if lists_edge(pairs_with(bag, v), (v, w)) {
                        let m = choose|m: int|
                            0 <= m < pairs_with(bag, v).len() && same_edge(
                                #[trigger] pairs_with(bag, v)[m],
                                (v, w),
                            );
                        assert(bag[m] == w);
                    }
                }
                lemma_never_possible(ntd, blank, i, v, w);
            }
        },
        Some(NodeType::Join) => {
            let q1 = c[0];
            let q2 = c[1];
            lemma_join_shape(blank, ntd, i);
            lemma_children_are_live(ntd, order, i, 0);
            lemma_children_are_live(ntd, order, i, 1);
            let k0 = choose|k: int| 0 <= k < i && k < order.len() && order[k] == q1;
            let k1 = choose|k: int| 0 <= k < i && k < order.len() && order[k] == q2;
            lemma_possible_edges_depth(ntd, order, k0, all, below);
            lemma_possible_edges_depth(ntd, order, k1, all, below);
            lemma_add_missing(
                possible_edges_of(ntd, q1, below),
                possible_edges_of(ntd, q2, below),
            );
            lemma_add_missing(
                possible_edges_of(ntd, q2, below),
                possible_edges_of(ntd, q1, below),
            );
            assert forall|u: Vertex, w: Vertex|
                seen(ntd, q1, all).contains(u) && !bag.contains(u) && seen(ntd, q2, all).contains(w)
                    && !bag.contains(w) implies !#[trigger] from.adjacent(u, w) by {
                assert(!lists_edge(possible_edges_of(ntd, p, all), (u, w))) by {
                    if lists_edge(possible_edges_of(ntd, q1, all), (u, w)) {
                        lemma_possible_edges_are_seen(ntd, blank, k0, u, w);
                        assert(seen(ntd, q2, all).contains(w));
                    }
                    if lists_edge(possible_edges_of(ntd, q2, all), (u, w)) {
                        lemma_possible_edges_are_seen(ntd, blank, k1, u, w);
                        assert(seen(ntd, q2, all).contains(u));
                    }
                }
                lemma_never_possible(ntd, blank, i, u, w);
            }
        },
        _ => {},
    }
}

/// The graph `blank` is the graph without edges on the vertices that the
/// decomposition was declared with, and the decomposition decomposes it.
pub open spec fn is_blank_decomposed(ntd: NiceTreeDecomposition, blank: Graph) -> bool {
    edgeless(blank) && blank.order() == order_for(ntd.spec_vertex_count() as nat) && decomposes(
        ntd,
        blank,
    )
}

/// The decomposition is a nice tree decomposition of the vertices that it
/// was declared with: it decomposes the graph on these vertices without
/// edges.
pub open spec fn decomposes_vertices(ntd: NiceTreeDecomposition) -> bool {
    exists|blank: Graph| is_blank_decomposed(ntd, blank)
}

/// An answer of the dynamic program for all pattern graphs is a pattern
/// graph with the number of homomorphisms from it, if the decomposition
/// decomposes the vertices.
pub proof fn lemma_answer_counts_homomorphisms(
    ntd: NiceTreeDecomposition,
    to: Graph,
    answer: (Graph, u64),
)
    requires
        decomposes_vertices(ntd),
        symmetric(to),
        is_some_answer(ntd, to, answer),
    ensures
        decomposes(ntd, answer.0),
        symmetric(answer.0),
        answer.1 == homomorphisms(answer.0, to),
{
    let blank = choose|blank: Graph| is_blank_decomposed(ntd, blank);
    let e = choose|e: EdgeList| #[trigger] is_answer(ntd, to, answer, e);
    let order = ntd.spec_ordering();
    let all = possible_edges_of(ntd, ntd.spec_root(), order.len());
    let pattern = pattern_of(all, e);
    let g = answer.0;
    assert(order[order.len() - 1] == ntd.spec_root());
    assert forall|u: Vertex, w: Vertex| #![trigger g.adjacent(u, w)] g.adjacent(u, w) implies lists_edge(
        all,
        (u, w),
    ) by {
        assert(pattern(u, w));
        let i = choose|i: int|
            0 <= i < all.len() && has_bit(e, i as nat) && same_edge(#[trigger] all[i], (u, w));
    }
    lemma_pattern_is_decomposed(ntd, blank, g);
    assert(symmetric(g)) by {
        assert forall|a: usize, b: usize|
            #![trigger g.adjacent(a, b)]
            a < g.order() && b < g.order() implies g.adjacent(a, b) == g.adjacent(b, a) by {
            if pattern(a, b) {
                let i = choose|i: int|
                    0 <= i < all.len() && has_bit(e, i as nat) && same_edge(
                        #[trigger] all[i],
                        (a, b),
                    );
                assert(same_edge(all[i], (b, a)));
            }
            if pattern(b, a) {
                let i = choose|i: int|
                    0 <= i < all.len() && has_bit(e, i as nat) && same_edge(
                        #[trigger] all[i],
                        (b, a),
                    );
                assert(same_edge(all[i], (a, b)));
            }
        }
    }
    assert forall|u: Vertex, v: Vertex|
        #![trigger g.adjacent(u, v)]
        lists_edge(all, (u, v)) implies pattern(u, v) == g.adjacent(u, v) by {
        lemma_possible_edges_are_seen(ntd, blank, order.len() - 1, u, v);
    }
    lemma_count_of_pattern(g, ntd, to, e);
    lemma_count_is_number_of_homomorphisms(g, ntd, to);
}


} // verus!
