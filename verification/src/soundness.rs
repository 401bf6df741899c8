//! Why the dynamic program counts homomorphisms: for a nice tree
//! decomposition that does decompose the pattern graph, the entry of a node
//! for a mapping of its bag is the number of mappings of all pattern
//! vertices seen below the node that go on from the mapping of the bag and
//! send every edge among these vertices onto an edge of the target graph,
//! and the entry of the root is the number of homomorphisms.

use crate::brute_force::homomorphisms;
use crate::brute_force::homomorphisms_below;
use crate::brute_force::is_homomorphism;
use crate::diaz::homomorphism_count;
use crate::digits::encode;
use crate::digits::lemma_digit_bound;
use crate::digits::lemma_digits_of_insert;
use crate::digits::lemma_encode;
use crate::digits::lemma_same_digits;
use crate::dynamic_program::adjacency;
use crate::dynamic_program::extensions;
use crate::dynamic_program::forget_sum;
use crate::dynamic_program::introduce_condition;
use crate::dynamic_program::lemma_children_are_live;
use crate::dynamic_program::lemma_depth_irrelevant;
use crate::dynamic_program::lemma_forget_sum_depth;
use crate::dynamic_program::row_count;
use crate::graphs::symmetric;
use crate::graphs::Graph;
use crate::integer_functions::digit;
use crate::integer_functions::insert_digit;
use crate::integer_functions::lemma_insert_of_remove;
use crate::integer_functions::lemma_insert_range;
use crate::integer_functions::lemma_power_step;
use crate::integer_functions::lemma_remove_range;
use crate::integer_functions::power_of;
use crate::integer_functions::remove_digit;
use crate::nice_tree_decomposition::lemma_first_missing_is_member;
use crate::nice_tree_decomposition::lemma_rank_bound;
use crate::nice_tree_decomposition::rank_of;
use crate::nice_tree_decomposition::unique_vertex_of;
use crate::nice_tree_decomposition::NiceTreeDecomposition;
use crate::nice_tree_decomposition::NodeType;
use crate::tree_decompositions::TreeNode;
use crate::tree_decompositions::Vertex;
use vstd::prelude::*;
use vstd::set_lib::lemma_int_range;
use vstd::set_lib::lemma_map_size;
use vstd::set_lib::set_int_range;

verus! {

/// The pattern vertices that occur in the bags of the subtree of node `p`,
/// fewer than `depth` levels down.
pub open spec fn seen(ntd: NiceTreeDecomposition, p: TreeNode, depth: nat) -> Set<Vertex>
    decreases depth,
{
    let c = ntd.spec_children(p);
    let bag = ntd.spec_bag(p).to_set();
    if depth == 0 {
        Set::empty()
    } else {
        match ntd.spec_node_type(p) {
            Some(NodeType::Leaf) => bag,
            Some(NodeType::Introduce) | Some(NodeType::Forget) => seen(
                ntd,
                c[0],
                (depth - 1) as nat,
            ) + bag,
            Some(NodeType::Join) => seen(ntd, c[0], (depth - 1) as nat) + seen(
                ntd,
                c[1],
                (depth - 1) as nat,
            ) + bag,
            None => Set::empty(),
        }
    }
}

/// The vertices seen below a node do not depend on the depth allowed,
/// once the depth is more than the node's place in a valid order.
pub proof fn lemma_seen_depth(
    ntd: NiceTreeDecomposition,
    order: Seq<TreeNode>,
    j: int,
    d1: nat,
    d2: nat,
)
    requires
        ntd.valid_order(order),
        0 <= j < order.len(),
        d1 > j,
        d2 > j,
    ensures
        seen(ntd, order[j], d1) == seen(ntd, order[j], d2),
    decreases j,
{
    let p = order[j];
    let c = ntd.spec_children(p);
    assert(ntd.node_is_nice(order, j));
    match ntd.spec_node_type(p) {
        Some(NodeType::Introduce) | Some(NodeType::Forget) => {
            let k = choose|k: int| 0 <= k < j && k < order.len() && order[k] == c[0];
            lemma_seen_depth(ntd, order, k, (d1 - 1) as nat, (d2 - 1) as nat);
        },
        Some(NodeType::Join) => {
            let k0 = choose|k: int| 0 <= k < j && k < order.len() && order[k] == c[0];
            let k1 = choose|k: int| 0 <= k < j && k < order.len() && order[k] == c[1];
            lemma_seen_depth(ntd, order, k0, (d1 - 1) as nat, (d2 - 1) as nat);
            lemma_seen_depth(ntd, order, k1, (d1 - 1) as nat, (d2 - 1) as nat);
        },
        _ => {},
    }
}

/// The node at place `i` of the order decomposes the pattern graph as its
/// kind asks: its bag holds pattern vertices; an introduce node has the
/// bag of its child with one vertex put in that was not seen below, and
/// the pattern joins this vertex to no vertex that was forgotten below; a
/// forget node has the bag of its child without one vertex; a join node has
/// the bag of its children, which have seen no other vertex in common,
/// and the pattern joins no vertex forgotten below one child to a vertex
/// forgotten below the other.
pub open spec fn node_decomposes(
    ntd: NiceTreeDecomposition,
    from: Graph,
    order: Seq<TreeNode>,
    i: int,
) -> bool {
    let p = order[i];
    let c = ntd.spec_children(p);
    let bag = ntd.spec_bag(p);
    let all = order.len();
    let unique = unique_vertex_of(ntd.spec_tree(), ntd.spec_data(), p);
    &&& forall|k: int| 0 <= k < bag.len() ==> #[trigger] bag[k] < from.order()
    &&& match ntd.spec_node_type(p) {
        Some(NodeType::Introduce) => {
            let v = unique->0;
            let below = seen(ntd, c[0], all);
            &&& bag == ntd.spec_bag(c[0]).insert(rank_of(ntd.spec_bag(c[0]), v) as int, v)
            &&& !below.contains(v)
            &&& forall|w: Vertex|
                below.contains(w) && !ntd.spec_bag(c[0]).contains(w) ==> !#[trigger] from.adjacent(
                    v,
                    w,
                )
        },
        Some(NodeType::Forget) => ntd.spec_bag(c[0]) == bag.insert(
            rank_of(ntd.spec_bag(c[0]), unique->0) as int,
            unique->0,
        ),
        Some(NodeType::Join) => {
            let first = seen(ntd, c[0], all);
            let second = seen(ntd, c[1], all);
            &&& ntd.spec_bag(c[0]) == bag
            &&& ntd.spec_bag(c[1]) == bag
            &&& forall|u: Vertex|
                first.contains(u) && #[trigger] second.contains(u) ==> bag.contains(u)
            &&& forall|u: Vertex, w: Vertex|
                first.contains(u) && !bag.contains(u) && second.contains(w) && !bag.contains(w)
                    ==> !#[trigger] from.adjacent(u, w)
        },
        _ => true,
    }
}

/// The decomposition is a nice tree decomposition of the pattern graph:
/// every node decomposes the pattern graph as its kind asks, the bag of
/// the root is empty, and the vertices seen below the root are the
/// vertices of the pattern graph (whose number is one that a machine
/// holds).
pub open spec fn decomposes(ntd: NiceTreeDecomposition, from: Graph) -> bool {
    let order = ntd.spec_ordering();
    &&& ntd.nice()
    &&& from.order() <= usize::MAX
    &&& forall|i: int| 0 <= i < order.len() ==> #[trigger] node_decomposes(ntd, from, order, i)
    &&& ntd.spec_bag(ntd.spec_root()).len() == 0
    &&& forall|u: Vertex|
        #![trigger seen(ntd, ntd.spec_root(), order.len()).contains(u)]
        seen(ntd, ntd.spec_root(), order.len()).contains(u) <==> u < from.order()
}

/// The mapping `big` of all pattern vertices goes on from the mapping `f`
/// of the bag: the vertex at each place of the bag has the image that `f`
/// gives to the place.
pub open spec fn agrees(n: nat, bag: Seq<Vertex>, f: nat, big: int) -> bool {
    forall|k: int|
        0 <= k < bag.len() ==> digit(n, big as nat, #[trigger] bag[k] as nat) == digit(
            n,
            f,
            k as nat,
        )
}

/// The mapping `big` sends every pattern edge among the vertices of `part`
/// onto an edge of the target graph.
pub open spec fn respects(from: Graph, to: Graph, part: Set<Vertex>, big: int) -> bool {
    forall|u: Vertex, w: Vertex|
        #![trigger from.adjacent(u, w)]
        part.contains(u) && part.contains(w) && from.adjacent(u, w) ==> to.adjacent(
            digit(to.order(), big as nat, u as nat) as usize,
            digit(to.order(), big as nat, w as nat) as usize,
        )
}

/// The mapping `big` sends every pattern vertex outside `part` to the
/// target vertex 0.
pub open spec fn blank(n: nat, h: nat, part: Set<Vertex>, big: int) -> bool {
    forall|u: Vertex| u < h && !part.contains(u) ==> #[trigger] digit(n, big as nat, u as nat) == 0
}

/// The mapping `big` of all pattern vertices goes on from the mapping `f`
/// of the bag, sends every pattern edge among the vertices of `part` onto
/// an edge of the target graph, and sends the vertices outside `part` to
/// the target vertex 0.
pub open spec fn solves_in(
    from: Graph,
    to: Graph,
    bag: Seq<Vertex>,
    part: Set<Vertex>,
    f: nat,
    big: int,
) -> bool {
    &&& 0 <= big < power_of(to.order(), from.order())
    &&& agrees(to.order(), bag, f, big)
    &&& respects(from, to, part, big)
    &&& blank(to.order(), from.order(), part, big)
}

/// The mapping `big` of all pattern vertices is one of those that the
/// entry of node `p` for the mapping `f` counts.
pub open spec fn solves(
    from: Graph,
    ntd: NiceTreeDecomposition,
    to: Graph,
    p: TreeNode,
    f: nat,
    big: int,
) -> bool {
    solves_in(from, to, ntd.spec_bag(p), seen(ntd, p, ntd.spec_ordering().len()), f, big)
}

/// The mappings that the entry of node `p` for the mapping `f` counts.
pub open spec fn solutions(
    from: Graph,
    ntd: NiceTreeDecomposition,
    to: Graph,
    p: TreeNode,
    f: nat,
) -> Set<int> {
    Set::new(|big: int| solves(from, ntd, to, p, f, big))
}

/// There are finitely many mappings to count.
pub proof fn lemma_solutions_finite(
    from: Graph,
    ntd: NiceTreeDecomposition,
    to: Graph,
    p: TreeNode,
    f: nat,
)
    ensures
        solutions(from, ntd, to, p, f).finite(),
{
    let all = set_int_range(0, power_of(to.order(), from.order()) as int);
    lemma_int_range(0, power_of(to.order(), from.order()) as int);
    assert(solutions(from, ntd, to, p, f).subset_of(all));
    vstd::set_lib::lemma_set_subset_finite(all, solutions(from, ntd, to, p, f));
}

/// What is seen below the node at place `j` of the order: its bag and
/// what is seen below its children, all of it pattern vertices.
pub proof fn lemma_seen(ntd: NiceTreeDecomposition, from: Graph, j: int)
    requires
        decomposes(ntd, from),
        0 <= j < ntd.spec_ordering().len(),
    ensures
        forall|k: int|
            0 <= k < ntd.spec_bag(ntd.spec_ordering()[j]).len() ==> seen(
                ntd,
                ntd.spec_ordering()[j],
                ntd.spec_ordering().len(),
            ).contains(#[trigger] ntd.spec_bag(ntd.spec_ordering()[j])[k]),
        forall|u: Vertex|
            #![trigger seen(ntd, ntd.spec_ordering()[j], ntd.spec_ordering().len()).contains(u)]
            seen(ntd, ntd.spec_ordering()[j], ntd.spec_ordering().len()).contains(u) ==> u
                < from.order(),
        seen(ntd, ntd.spec_ordering()[j], ntd.spec_ordering().len()) == match ntd.spec_node_type(
            ntd.spec_ordering()[j],
        ) {
            Some(NodeType::Leaf) => ntd.spec_bag(ntd.spec_ordering()[j]).to_set(),
            Some(NodeType::Introduce) | Some(NodeType::Forget) => seen(
                ntd,
                ntd.spec_children(ntd.spec_ordering()[j])[0],
                ntd.spec_ordering().len(),
            ) + ntd.spec_bag(ntd.spec_ordering()[j]).to_set(),
            Some(NodeType::Join) => seen(
                ntd,
                ntd.spec_children(ntd.spec_ordering()[j])[0],
                ntd.spec_ordering().len(),
            ) + seen(
                ntd,
                ntd.spec_children(ntd.spec_ordering()[j])[1],
                ntd.spec_ordering().len(),
            ) + ntd.spec_bag(ntd.spec_ordering()[j]).to_set(),
            None => Set::empty(),
        },
    decreases j,
{
    let order = ntd.spec_ordering();
    let all = order.len();
    let p = order[j];
    let c = ntd.spec_children(p);
    let bag = ntd.spec_bag(p);
    assert(ntd.node_is_nice(order, j));
    assert(node_decomposes(ntd, from, order, j));
    assert forall|k: int| 0 <= k < bag.len() implies bag.to_set().contains(#[trigger] bag[k]) by {}
    match ntd.spec_node_type(p) {
        Some(NodeType::Introduce) | Some(NodeType::Forget) => {
            let k = choose|k: int| 0 <= k < j && k < order.len() && order[k] == c[0];
            lemma_seen_depth(ntd, order, k, all, (all - 1) as nat);
            lemma_seen(ntd, from, k);
        },
        Some(NodeType::Join) => {
            let k0 = choose|k: int| 0 <= k < j && k < order.len() && order[k] == c[0];
            let k1 = choose|k: int| 0 <= k < j && k < order.len() && order[k] == c[1];
            lemma_seen_depth(ntd, order, k0, all, (all - 1) as nat);
            lemma_seen_depth(ntd, order, k1, all, (all - 1) as nat);
            lemma_seen(ntd, from, k0);
            lemma_seen(ntd, from, k1);
        },
        _ => {},
    }
    assert forall|u: Vertex|
        #![trigger seen(ntd, p, all).contains(u)]
        seen(ntd, p, all).contains(u) implies u < from.order() by {
        if bag.to_set().contains(u) {
            let k = choose|k: int| 0 <= k < bag.len() && bag[k] == u;
            assert(bag[k] < from.order());
        }
    }
}

/// The lowest digit of a mapping below the base is the mapping.
pub proof fn lemma_single_digit(n: nat, f: nat)
    requires
        n >= 1,
        f < n,
    ensures
        digit(n, f, 0) == f,
{
    lemma_power_step(n, 0);
    vstd::arithmetic::div_mod::lemma_fundamental_div_mod_converse(f as int, n as int, 0, f as int);
}

/// The entry of a leaf counts what it is to count.
pub proof fn lemma_leaf_sound(
    from: Graph,
    ntd: NiceTreeDecomposition,
    to: Graph,
    j: int,
    f: nat,
)
    requires
        decomposes(ntd, from),
        to.order() >= 1,
        0 <= j < ntd.spec_ordering().len(),
        ntd.spec_node_type(ntd.spec_ordering()[j]) == Some(NodeType::Leaf),
        f < row_count(ntd, to, ntd.spec_ordering()[j]),
    ensures
        extensions(
            ntd,
            adjacency(from),
            to,
            ntd.spec_ordering()[j],
            f,
            ntd.spec_ordering().len(),
        ) == solutions(from, ntd, to, ntd.spec_ordering()[j], f).len(),
{
    let order = ntd.spec_ordering();
    let p = order[j];
    let n = to.order();
    let h = from.order();
    let bag = ntd.spec_bag(p);
    assert(ntd.node_is_nice(order, j));
    assert(bag.len() == 1);
    let v = bag[0];
    let sols = solutions(from, ntd, to, p, f);
    assert(node_decomposes(ntd, from, order, j));
    lemma_seen(ntd, from, j);
    lemma_solutions_finite(from, ntd, to, p, f);
    lemma_power_step(n, 0);
    lemma_single_digit(n, f);
    assert(bag[0] < h);
    let part = seen(ntd, p, order.len());
    assert forall|u: Vertex| part.contains(u) <==> u == v by {
        if part.contains(u) {
            let k = choose|k: int| 0 <= k < bag.len() && bag[k] == u;
        }
        if u == v {
            assert(bag[0] == u);
        }
    }
    let digits = |i: nat|
        if i == v {
            f
        } else {
            0nat
        };
    let only = encode(n, h, digits) as int;
    lemma_encode(n, h, digits);
    if from.adjacent(v, v) && !to.adjacent(f as usize, f as usize) {
        assert forall|big: int| !sols.contains(big) by {
            if solves(from, ntd, to, p, f, big) {
                assert(digit(n, big as nat, bag[0] as nat) == digit(n, f, 0));
                assert(from.adjacent(v, v));
            }
        }
        assert(sols =~= Set::<int>::empty());
    } else {
        assert forall|big: int| sols.contains(big) <==> big == only by {
            if solves(from, ntd, to, p, f, big) {
                assert(digit(n, big as nat, bag[0] as nat) == digit(n, f, 0));
                assert forall|i: nat| i < h implies #[trigger] digit(n, big as nat, i) == digit(
                    n,
                    only as nat,
                    i,
                ) by {
                    assert(digit(n, only as nat, i) == digits(i));
                    if i != v {
                        assert(!part.contains(i as usize));
                        assert(digit(n, big as nat, (i as usize) as nat) == 0);
                    }
                }
                lemma_same_digits(n, h, big as nat, only as nat);
            }
            if big == only {
                assert(digit(n, only as nat, v as nat) == digits(v as nat));
                assert(agrees(n, bag, f, only)) by {
                    assert forall|k: int| 0 <= k < bag.len() implies digit(
                        n,
                        only as nat,
                        #[trigger] bag[k] as nat,
                    ) == digit(n, f, k as nat) by {}
                }
                assert(blank(n, h, part, only)) by {
                    assert forall|u: Vertex| u < h && !part.contains(u) implies #[trigger] digit(
                        n,
                        only as nat,
                        u as nat,
                    ) == 0 by {
                        assert(digit(n, only as nat, u as nat) == digits(u as nat));
                    }
                }
                assert(respects(from, to, part, only));
            }
        }
        assert(sols =~= set![only]);
    }
}

/// The entries of node `q` are the numbers of mappings that they are to
/// count.
pub open spec fn sound_at(from: Graph, ntd: NiceTreeDecomposition, to: Graph, q: TreeNode) -> bool {
    forall|g: nat|
        g < row_count(ntd, to, q) ==> #[trigger] extensions(
            ntd,
            adjacency(from),
            to,
            q,
            g,
            ntd.spec_ordering().len(),
        ) == solutions(from, ntd, to, q, g).len()
}

/// What a bag with a vertex put in holds at each place.
pub proof fn lemma_bag_insert(bag: Seq<Vertex>, s: int, v: Vertex, k: int)
    requires
        0 <= s <= bag.len(),
        0 <= k <= bag.len(),
    ensures
        bag.insert(s, v).len() == bag.len() + 1,
        bag.insert(s, v)[k] == if k < s {
            bag[k]
        } else if k == s {
            v
        } else {
            bag[k - 1]
        },
{
}

/// A mapping of all vertices goes on from a mapping of a bag with the
/// image `a` put in at the place `s` exactly if it goes on from the
/// mapping of the bag and sends the vertex `v` that is put in there to `a`.
pub proof fn lemma_agrees_insert(
    n: nat,
    bag: Seq<Vertex>,
    s: nat,
    v: Vertex,
    f: nat,
    a: nat,
    big: int,
)
    requires
        n >= 1,
        a < n,
        s <= bag.len(),
    ensures
        agrees(n, bag.insert(s as int, v), insert_digit(n, f, s, a), big) <==> agrees(
            n,
            bag,
            f,
            big,
        ) && digit(n, big as nat, v as nat) == a,
{
    let more = bag.insert(s as int, v);
    let g = insert_digit(n, f, s, a);
    lemma_bag_insert(bag, s as int, v, s as int);
    lemma_digits_of_insert(n, f, s, a, s);
    if agrees(n, more, g, big) {
        assert(digit(n, big as nat, more[s as int] as nat) == digit(n, g, s));
        assert forall|m: int| 0 <= m < bag.len() implies digit(
            n,
            big as nat,
            #[trigger] bag[m] as nat,
        ) == digit(n, f, m as nat) by {
            if m < s {
                lemma_bag_insert(bag, s as int, v, m);
                lemma_digits_of_insert(n, f, s, a, m as nat);
                assert(digit(n, big as nat, more[m] as nat) == digit(n, g, m as nat));
            } else {
                lemma_bag_insert(bag, s as int, v, m + 1);
                lemma_digits_of_insert(n, f, s, a, (m + 1) as nat);
                assert(digit(n, big as nat, more[m + 1] as nat) == digit(n, g, (m + 1) as nat));
            }
        }
    }
    if agrees(n, bag, f, big) && digit(n, big as nat, v as nat) == a {
        assert forall|m: int| 0 <= m < more.len() implies digit(
            n,
            big as nat,
            #[trigger] more[m] as nat,
        ) == digit(n, g, m as nat) by {
            lemma_bag_insert(bag, s as int, v, m);
            lemma_digits_of_insert(n, f, s, a, m as nat);
            if m < s {
                assert(digit(n, big as nat, bag[m] as nat) == digit(n, f, m as nat));
            } else if m > s {
                assert(digit(n, big as nat, bag[m - 1] as nat) == digit(n, f, (m - 1) as nat));
            }
        }
    }
}

/// At a forget node the bag of the child is the bag of the node with the
/// forgotten vertex put in, and the same vertices are seen below both.
pub proof fn lemma_forget_shape(from: Graph, ntd: NiceTreeDecomposition, j: int)
    requires
        decomposes(ntd, from),
        0 <= j < ntd.spec_ordering().len(),
        ntd.spec_node_type(ntd.spec_ordering()[j]) == Some(NodeType::Forget),
    ensures
        ({
            let p = ntd.spec_ordering()[j];
            let q = ntd.spec_children(p)[0];
            let v = unique_vertex_of(ntd.spec_tree(), ntd.spec_data(), p)->0;
            let s = rank_of(ntd.spec_bag(q), v);
            &&& s <= ntd.spec_bag(p).len()
            &&& ntd.spec_bag(q) == ntd.spec_bag(p).insert(s as int, v)
            &&& seen(ntd, p, ntd.spec_ordering().len()) == seen(ntd, q, ntd.spec_ordering().len())
        }),
{
    let order = ntd.spec_ordering();
    let all = order.len();
    let p = order[j];
    let q = ntd.spec_children(p)[0];
    let v = unique_vertex_of(ntd.spec_tree(), ntd.spec_data(), p)->0;
    let bag_p = ntd.spec_bag(p);
    let bag_q = ntd.spec_bag(q);
    let s = rank_of(bag_q, v);
    assert(ntd.node_is_nice(order, j));
    assert(node_decomposes(ntd, from, order, j));
    lemma_children_are_live(ntd, order, j, 0);
    let k = choose|k: int| 0 <= k < j && k < order.len() && order[k] == q;
    lemma_seen(ntd, from, j);
    lemma_seen(ntd, from, k);
    lemma_first_missing_is_member(bag_q, bag_p);
    lemma_rank_bound(bag_q, v);
    assert(seen(ntd, p, all) =~= seen(ntd, q, all)) by {
        assert forall|u: Vertex| bag_p.to_set().contains(u) implies seen(ntd, q, all).contains(
            u,
        ) by {
            let m = choose|m: int| 0 <= m < bag_p.len() && bag_p[m] == u;
            if m < s {
                lemma_bag_insert(bag_p, s as int, v, m);
                assert(bag_q[m] == u);
            } else {
                lemma_bag_insert(bag_p, s as int, v, m + 1);
                assert(bag_q[m + 1] == u);
            }
        }
    }
}

/// The mappings counted at a forget node for `f` that send the forgotten
/// vertex to `a` are the mappings counted at its child for `f` with `a`
/// put in.
pub proof fn lemma_forget_slice(
    from: Graph,
    ntd: NiceTreeDecomposition,
    to: Graph,
    j: int,
    f: nat,
    a: nat,
    big: int,
)
    requires
        decomposes(ntd, from),
        to.order() >= 1,
        0 <= j < ntd.spec_ordering().len(),
        ntd.spec_node_type(ntd.spec_ordering()[j]) == Some(NodeType::Forget),
        a < to.order(),
    ensures
        ({
            let p = ntd.spec_ordering()[j];
            let q = ntd.spec_children(p)[0];
            let v = unique_vertex_of(ntd.spec_tree(), ntd.spec_data(), p)->0;
            let s = rank_of(ntd.spec_bag(q), v);
            solves(from, ntd, to, q, insert_digit(to.order(), f, s, a), big) <==> solves(
                from,
                ntd,
                to,
                p,
                f,
                big,
            ) && digit(to.order(), big as nat, v as nat) == a
        }),
{
    let p = ntd.spec_ordering()[j];
    let q = ntd.spec_children(p)[0];
    let v = unique_vertex_of(ntd.spec_tree(), ntd.spec_data(), p)->0;
    let s = rank_of(ntd.spec_bag(q), v);
    lemma_forget_shape(from, ntd, j);
    lemma_agrees_insert(to.order(), ntd.spec_bag(p), s, v, f, a, big);
}

/// The mappings counted at a forget node for `f` that send the forgotten
/// vertex `v` to a target vertex below `count`.
pub open spec fn forget_part(
    from: Graph,
    ntd: NiceTreeDecomposition,
    to: Graph,
    p: TreeNode,
    f: nat,
    v: Vertex,
    count: nat,
) -> Set<int> {
    Set::new(
        |big: int| solves(from, ntd, to, p, f, big) && digit(to.order(), big as nat, v as nat) < count,
    )
}

/// The sum at a forget node over the target vertices below `count` is the
/// number of mappings that send the forgotten vertex to one of them.
pub proof fn lemma_forget_parts(
    from: Graph,
    ntd: NiceTreeDecomposition,
    to: Graph,
    j: int,
    f: nat,
    count: nat,
)
    requires
        decomposes(ntd, from),
        to.order() >= 1,
        0 <= j < ntd.spec_ordering().len(),
        ntd.spec_node_type(ntd.spec_ordering()[j]) == Some(NodeType::Forget),
        f < row_count(ntd, to, ntd.spec_ordering()[j]),
        sound_at(from, ntd, to, ntd.spec_children(ntd.spec_ordering()[j])[0]),
        count <= to.order(),
    ensures
        ({
            let p = ntd.spec_ordering()[j];
            let q = ntd.spec_children(p)[0];
            let v = unique_vertex_of(ntd.spec_tree(), ntd.spec_data(), p)->0;
            let s = rank_of(ntd.spec_bag(q), v);
            forget_sum(ntd, adjacency(from), to, q, f, s, count, ntd.spec_ordering().len())
                == forget_part(from, ntd, to, p, f, v, count).len() && forget_part(
                from,
                ntd,
                to,
                p,
                f,
                v,
                count,
            ).finite()
        }),
    decreases count,
{
    let order = ntd.spec_ordering();
    let all = order.len();
    let n = to.order();
    let p = order[j];
    let q = ntd.spec_children(p)[0];
    let v = unique_vertex_of(ntd.spec_tree(), ntd.spec_data(), p)->0;
    let bag_p = ntd.spec_bag(p);
    let bag_q = ntd.spec_bag(q);
    let s = rank_of(bag_q, v);
    let part = forget_part(from, ntd, to, p, f, v, count);
    lemma_solutions_finite(from, ntd, to, p, f);
    assert(part.subset_of(solutions(from, ntd, to, p, f)));
    vstd::set_lib::lemma_set_subset_finite(solutions(from, ntd, to, p, f), part);
    if count == 0 {
        assert(part =~= Set::<int>::empty());
    } else {
        let a = (count - 1) as nat;
        let before = forget_part(from, ntd, to, p, f, v, a);
        let g = insert_digit(n, f, s, a);
        let slice = solutions(from, ntd, to, q, g);
        lemma_forget_parts(from, ntd, to, j, f, a);
        assert(ntd.node_is_nice(order, j));
        lemma_first_missing_is_member(bag_q, bag_p);
        lemma_rank_bound(bag_q, v);
        lemma_insert_range(n, f, s, a, bag_p.len());
        assert(g < row_count(ntd, to, q));
        assert(extensions(ntd, adjacency(from), to, q, g, all) == slice.len());
        lemma_solutions_finite(from, ntd, to, q, g);
        assert forall|big: int| slice.contains(big) <==> solves(from, ntd, to, p, f, big) && digit(
            n,
            big as nat,
            v as nat,
        ) == a by {
            lemma_forget_slice(from, ntd, to, j, f, a, big);
        }
        assert(part =~= before + slice);
        assert(before.disjoint(slice));
        vstd::set_lib::lemma_set_disjoint_lens(before, slice);
    }
}

/// The entry of a forget node counts what it is to count, if the entries
/// of its child do.
pub proof fn lemma_forget_sound(
    from: Graph,
    ntd: NiceTreeDecomposition,
    to: Graph,
    j: int,
    f: nat,
)
    requires
        decomposes(ntd, from),
        to.order() >= 1,
        0 <= j < ntd.spec_ordering().len(),
        ntd.spec_node_type(ntd.spec_ordering()[j]) == Some(NodeType::Forget),
        f < row_count(ntd, to, ntd.spec_ordering()[j]),
        sound_at(from, ntd, to, ntd.spec_children(ntd.spec_ordering()[j])[0]),
    ensures
        extensions(
            ntd,
            adjacency(from),
            to,
            ntd.spec_ordering()[j],
            f,
            ntd.spec_ordering().len(),
        ) == solutions(from, ntd, to, ntd.spec_ordering()[j], f).len(),
{
    let order = ntd.spec_ordering();
    let all = order.len();
    let n = to.order();
    let p = order[j];
    let q = ntd.spec_children(p)[0];
    let v = unique_vertex_of(ntd.spec_tree(), ntd.spec_data(), p)->0;
    let s = rank_of(ntd.spec_bag(q), v);
    assert(ntd.node_is_nice(order, j));
    lemma_children_are_live(ntd, order, j, 0);
    let k = choose|k: int| 0 <= k < j && k < order.len() && order[k] == q;
    lemma_forget_sum_depth(ntd, adjacency(from), to, order, k, f, s, n, (all - 1) as nat, all);
    lemma_forget_parts(from, ntd, to, j, f, n);
    assert(forget_part(from, ntd, to, p, f, v, n) =~= solutions(from, ntd, to, p, f)) by {
        assert forall|big: int| solves(from, ntd, to, p, f, big) implies digit(
            n,
            big as nat,
            v as nat,
        ) < n by {
            lemma_digit_bound(n, big as nat, v as nat);
        }
    }
}

/// The images of `big`, but for the vertex `v`, whose image is `a`.
pub open spec fn images_with(n: nat, big: int, v: Vertex, a: nat) -> spec_fn(nat) -> nat {
    |i: nat|
        if i == v {
            a
        } else {
            digit(n, big as nat, i)
        }
}

/// The mapping `big` with the image of the vertex `v` set to `a`.
pub open spec fn with_image(n: nat, h: nat, big: int, v: Vertex, a: nat) -> int {
    encode(n, h, images_with(n, big, v, a)) as int
}

/// Setting the image of a vertex sets it and leaves the other images as
/// they are.
pub proof fn lemma_with_image(n: nat, h: nat, big: int, v: Vertex, a: nat)
    requires
        n >= 1,
        a < n,
    ensures
        0 <= with_image(n, h, big, v, a) < power_of(n, h),
        forall|i: nat|
            i < h ==> #[trigger] digit(n, with_image(n, h, big, v, a) as nat, i) == if i == v {
                a
            } else {
                digit(n, big as nat, i)
            },
{
    let digits = images_with(n, big, v, a);
    assert forall|i: nat| i < h implies #[trigger] digits(i) < n by {
        lemma_digit_bound(n, big as nat, i);
    }
    lemma_encode(n, h, digits);
    assert forall|i: nat| i < h implies #[trigger] digit(
        n,
        with_image(n, h, big, v, a) as nat,
        i,
    ) == digits(i) by {}
}

/// What an introduce node adds to its child: the vertex `v`, put into the
/// bag at the place `s` and not seen below the child, which the pattern
/// joins to no vertex that was forgotten below the child.
pub open spec fn introduces(
    from: Graph,
    bag: Seq<Vertex>,
    part: Set<Vertex>,
    v: Vertex,
    s: nat,
) -> bool {
    &&& s <= bag.len()
    &&& v < from.order()
    &&& from.order() <= usize::MAX
    &&& !part.contains(v)
    &&& forall|k: int| 0 <= k < bag.len() ==> part.contains(#[trigger] bag[k])
    &&& forall|u: Vertex| #[trigger] part.contains(u) ==> u < from.order()
    &&& forall|w: Vertex| part.contains(w) && !bag.contains(w) ==> !#[trigger] from.adjacent(v, w)
}

/// A mapping counted at an introduce node fits the introduced vertex, and
/// with the image of the introduced vertex set to 0 it is counted at the
/// child.
pub proof fn lemma_introduce_down(
    from: Graph,
    to: Graph,
    bag: Seq<Vertex>,
    part: Set<Vertex>,
    v: Vertex,
    s: nat,
    f: nat,
    a: nat,
    big: int,
)
    requires
        to.order() >= 1,
        a < to.order(),
        introduces(from, bag, part, v, s),
        solves_in(
            from,
            to,
            bag.insert(s as int, v),
            part.insert(v),
            insert_digit(to.order(), f, s, a),
            big,
        ),
    ensures
        introduce_condition(
            adjacency(from),
            to,
            bag.insert(s as int, v),
            v,
            a,
            insert_digit(to.order(), f, s, a),
        ),
        solves_in(from, to, bag, part, f, with_image(to.order(), from.order(), big, v, 0)),
        with_image(
            to.order(),
            from.order(),
            with_image(to.order(), from.order(), big, v, 0),
            v,
            a,
        ) == big,
{
    let n = to.order();
    let h = from.order();
    let more = bag.insert(s as int, v);
    let g = insert_digit(n, f, s, a);
    let down = with_image(n, h, big, v, 0);
    let up = with_image(n, h, down, v, a);
    lemma_agrees_insert(n, bag, s, v, f, a, big);
    lemma_with_image(n, h, big, v, 0);
    lemma_with_image(n, h, down, v, a);
    assert(digit(n, big as nat, v as nat) == a);
    // the mapping with the image set to 0 is counted at the child
    assert(agrees(n, bag, f, down)) by {
        assert forall|k: int| 0 <= k < bag.len() implies digit(
            n,
            down as nat,
            #[trigger] bag[k] as nat,
        ) == digit(n, f, k as nat) by {
            assert(part.contains(bag[k]));
            assert(digit(n, down as nat, bag[k] as nat) == digit(n, big as nat, bag[k] as nat));
        }
    }
    assert(respects(from, to, part, down)) by {
        assert forall|u: Vertex, w: Vertex|
            #![trigger from.adjacent(u, w)]
            part.contains(u) && part.contains(w) && from.adjacent(u, w) implies to.adjacent(
            digit(n, down as nat, u as nat) as usize,
            digit(n, down as nat, w as nat) as usize,
        ) by {
            assert(part.insert(v).contains(u) && part.insert(v).contains(w));
            assert(digit(n, down as nat, u as nat) == digit(n, big as nat, u as nat));
            assert(digit(n, down as nat, w as nat) == digit(n, big as nat, w as nat));
        }
    }
    assert(blank(n, h, part, down)) by {
        assert forall|u: Vertex| u < h && !part.contains(u) implies #[trigger] digit(
            n,
            down as nat,
            u as nat,
        ) == 0 by {
            if u != v {
                assert(!part.insert(v).contains(u));
                assert(digit(n, big as nat, u as nat) == 0);
                assert(digit(n, down as nat, u as nat) == digit(n, big as nat, u as nat));
            }
        }
    }
    // the image of the introduced vertex fits
    assert forall|k: int| 0 <= k < more.len() && adjacency(from)(v, #[trigger] more[k])
        implies to.adjacent(a as usize, digit(n, g, k as nat) as usize) by {
        lemma_bag_insert(bag, s as int, v, k);
        assert(part.insert(v).contains(more[k]));
        assert(part.insert(v).contains(v));
        assert(from.adjacent(v, more[k]));
        assert(digit(n, big as nat, more[k] as nat) == digit(n, g, k as nat));
    }
    // and setting the image again gives the mapping back
    assert forall|i: nat| i < h implies #[trigger] digit(n, up as nat, i) == digit(
        n,
        big as nat,
        i,
    ) by {
        if i != v {
            assert(digit(n, down as nat, i) == digit(n, big as nat, i));
        }
    }
    lemma_same_digits(n, h, up as nat, big as nat);
}

/// A mapping counted at the child of an introduce node, with the image of
/// the introduced vertex set to an image that fits, is counted at the
/// node.
pub proof fn lemma_introduce_up(
    from: Graph,
    to: Graph,
    bag: Seq<Vertex>,
    part: Set<Vertex>,
    v: Vertex,
    s: nat,
    f: nat,
    a: nat,
    big: int,
)
    requires
        to.order() >= 1,
        a < to.order(),
        symmetric(from),
        symmetric(to),
        introduces(from, bag, part, v, s),
        solves_in(from, to, bag, part, f, big),
        introduce_condition(
            adjacency(from),
            to,
            bag.insert(s as int, v),
            v,
            a,
            insert_digit(to.order(), f, s, a),
        ),
    ensures
        solves_in(
            from,
            to,
            bag.insert(s as int, v),
            part.insert(v),
            insert_digit(to.order(), f, s, a),
            with_image(to.order(), from.order(), big, v, a),
        ),
        with_image(
            to.order(),
            from.order(),
            with_image(to.order(), from.order(), big, v, a),
            v,
            0,
        ) == big,
{
    let n = to.order();
    let h = from.order();
    let more = bag.insert(s as int, v);
    let whole = part.insert(v);
    let g = insert_digit(n, f, s, a);
    let up = with_image(n, h, big, v, a);
    let down = with_image(n, h, up, v, 0);
    lemma_with_image(n, h, big, v, a);
    lemma_with_image(n, h, up, v, 0);
    assert(digit(n, up as nat, v as nat) == a);
    assert(agrees(n, bag, f, up)) by {
        assert forall|k: int| 0 <= k < bag.len() implies digit(
            n,
            up as nat,
            #[trigger] bag[k] as nat,
        ) == digit(n, f, k as nat) by {
            assert(part.contains(bag[k]));
            assert(digit(n, up as nat, bag[k] as nat) == digit(n, big as nat, bag[k] as nat));
        }
    }
    lemma_agrees_insert(n, bag, s, v, f, a, up);
    assert(blank(n, h, whole, up)) by {
        assert forall|u: Vertex| u < h && !whole.contains(u) implies #[trigger] digit(
            n,
            up as nat,
            u as nat,
        ) == 0 by {
            assert(!part.contains(u));
            assert(digit(n, big as nat, u as nat) == 0);
            assert(digit(n, up as nat, u as nat) == digit(n, big as nat, u as nat));
        }
    }
    // the images of the introduced vertex and of a vertex that the pattern
    // joins to it are joined
    assert forall|w: Vertex| whole.contains(w) && from.adjacent(v, w) implies to.adjacent(
        a as usize,
        #[trigger] digit(n, up as nat, w as nat) as usize,
    ) by {
        if more.contains(w) {
            let k = choose|k: int| 0 <= k < more.len() && more[k] == w;
            assert(adjacency(from)(v, more[k]));
            assert(digit(n, up as nat, more[k] as nat) == digit(n, g, k as nat));
        } else {
            assert(w != v) by {
                lemma_bag_insert(bag, s as int, v, s as int);
                assert(more[s as int] == v);
            }
            if bag.contains(w) {
                let k = choose|k: int| 0 <= k < bag.len() && bag[k] == w;
                if k < s {
                    lemma_bag_insert(bag, s as int, v, k);
                    assert(more[k] == w);
                } else {
                    lemma_bag_insert(bag, s as int, v, k + 1);
                    assert(more[k + 1] == w);
                }
            }
            assert(!from.adjacent(v, w));
        }
    }
    assert(respects(from, to, whole, up)) by {
        assert forall|u: Vertex, w: Vertex|
            #![trigger from.adjacent(u, w)]
            whole.contains(u) && whole.contains(w) && from.adjacent(u, w) implies to.adjacent(
            digit(n, up as nat, u as nat) as usize,
            digit(n, up as nat, w as nat) as usize,
        ) by {
            if u == v {
                assert(to.adjacent(a as usize, digit(n, up as nat, w as nat) as usize));
            } else if w == v {
                assert(from.adjacent(v, u));
                assert(to.adjacent(a as usize, digit(n, up as nat, u as nat) as usize));
            } else {
                assert(digit(n, up as nat, u as nat) == digit(n, big as nat, u as nat));
                assert(digit(n, up as nat, w as nat) == digit(n, big as nat, w as nat));
            }
        }
    }
    assert forall|i: nat| i < h implies #[trigger] digit(n, down as nat, i) == digit(
        n,
        big as nat,
        i,
    ) by {
        if i != v {
            assert(digit(n, up as nat, i) == digit(n, big as nat, i));
        } else {
            assert(digit(n, big as nat, v as nat) == 0);
        }
    }
    lemma_same_digits(n, h, down as nat, big as nat);
}

/// At an introduce node the bag is the bag of the child with the
/// introduced vertex put in, and the vertices seen below are those seen
/// below the child and the introduced vertex.
pub proof fn lemma_introduce_shape(from: Graph, ntd: NiceTreeDecomposition, j: int)
    requires
        decomposes(ntd, from),
        0 <= j < ntd.spec_ordering().len(),
        ntd.spec_node_type(ntd.spec_ordering()[j]) == Some(NodeType::Introduce),
    ensures
        ({
            let p = ntd.spec_ordering()[j];
            let q = ntd.spec_children(p)[0];
            let v = unique_vertex_of(ntd.spec_tree(), ntd.spec_data(), p)->0;
            let s = rank_of(ntd.spec_bag(q), v);
            let all = ntd.spec_ordering().len();
            &&& introduces(from, ntd.spec_bag(q), seen(ntd, q, all), v, s)
            &&& ntd.spec_bag(p) == ntd.spec_bag(q).insert(s as int, v)
            &&& seen(ntd, p, all) == seen(ntd, q, all).insert(v)
        }),
{
    let order = ntd.spec_ordering();
    let all = order.len();
    let p = order[j];
    let q = ntd.spec_children(p)[0];
    let v = unique_vertex_of(ntd.spec_tree(), ntd.spec_data(), p)->0;
    let bag_p = ntd.spec_bag(p);
    let bag_q = ntd.spec_bag(q);
    let s = rank_of(bag_q, v);
    assert(ntd.node_is_nice(order, j));
    assert(node_decomposes(ntd, from, order, j));
    lemma_children_are_live(ntd, order, j, 0);
    let k = choose|k: int| 0 <= k < j && k < order.len() && order[k] == q;
    lemma_seen(ntd, from, j);
    lemma_seen(ntd, from, k);
    lemma_rank_bound(bag_q, v);
    lemma_bag_insert(bag_q, s as int, v, s as int);
    assert(bag_p[s as int] == v);
    assert(bag_p[s as int] < from.order());
    assert(seen(ntd, p, all) =~= seen(ntd, q, all).insert(v)) by {
        assert forall|u: Vertex| bag_p.to_set().contains(u) implies seen(ntd, q, all).insert(
            v,
        ).contains(u) by {
            let m = choose|m: int| 0 <= m < bag_p.len() && bag_p[m] == u;
            lemma_bag_insert(bag_q, s as int, v, m);
            if m < s {
                assert(seen(ntd, q, all).contains(bag_q[m]));
            } else if m > s {
                assert(seen(ntd, q, all).contains(bag_q[m - 1]));
            }
        }
        assert(bag_p.to_set().contains(v));
    }
}

/// The entry of an introduce node counts what it is to count, if the
/// entries of its child do.
pub proof fn lemma_introduce_sound(
    from: Graph,
    ntd: NiceTreeDecomposition,
    to: Graph,
    j: int,
    f: nat,
)
    requires
        decomposes(ntd, from),
        symmetric(from),
        symmetric(to),
        to.order() >= 1,
        0 <= j < ntd.spec_ordering().len(),
        ntd.spec_node_type(ntd.spec_ordering()[j]) == Some(NodeType::Introduce),
        f < row_count(ntd, to, ntd.spec_ordering()[j]),
        sound_at(from, ntd, to, ntd.spec_children(ntd.spec_ordering()[j])[0]),
    ensures
        extensions(
            ntd,
            adjacency(from),
            to,
            ntd.spec_ordering()[j],
            f,
            ntd.spec_ordering().len(),
        ) == solutions(from, ntd, to, ntd.spec_ordering()[j], f).len(),
{
    let order = ntd.spec_ordering();
    let all = order.len();
    let n = to.order();
    let h = from.order();
    let p = order[j];
    let q = ntd.spec_children(p)[0];
    let v = unique_vertex_of(ntd.spec_tree(), ntd.spec_data(), p)->0;
    let bag_p = ntd.spec_bag(p);
    let bag_q = ntd.spec_bag(q);
    let part = seen(ntd, q, all);
    let s = rank_of(bag_q, v);
    let a = digit(n, f, s);
    let g = remove_digit(n, f, s);
    let above = solutions(from, ntd, to, p, f);
    let below = solutions(from, ntd, to, q, g);
    assert(ntd.node_is_nice(order, j));
    lemma_children_are_live(ntd, order, j, 0);
    let k = choose|k: int| 0 <= k < j && k < order.len() && order[k] == q;
    lemma_introduce_shape(from, ntd, j);
    lemma_insert_of_remove(n, f, s);
    lemma_remove_range(n, f, s, bag_q.len());
    lemma_depth_irrelevant(ntd, adjacency(from), to, order, k, g, (all - 1) as nat, all);
    lemma_solutions_finite(from, ntd, to, q, g);
    lemma_solutions_finite(from, ntd, to, p, f);
    assert(extensions(ntd, adjacency(from), to, q, g, all) == below.len());
    let fits = introduce_condition(adjacency(from), to, bag_p, v, a, f);
    assert(extensions(ntd, adjacency(from), to, p, f, all) == if fits {
        extensions(ntd, adjacency(from), to, q, g, (all - 1) as nat)
    } else {
        0
    });
    if !fits {
        assert forall|big: int| !above.contains(big) by {
            if solves(from, ntd, to, p, f, big) {
                lemma_introduce_down(from, to, bag_q, part, v, s, g, a, big);
            }
        }
        assert(above =~= Set::<int>::empty());
    } else {
        let up = |x: int| with_image(n, h, x, v, a);
        assert(below.map(up) =~= above) by {
            assert forall|big: int| above.contains(big) implies below.map(up).contains(big) by {
                lemma_introduce_down(from, to, bag_q, part, v, s, g, a, big);
                let down = with_image(n, h, big, v, 0);
                assert(below.contains(down) && big == up(down));
            }
            assert forall|big: int| below.map(up).contains(big) implies above.contains(big) by {
                let x = choose|x: int| below.contains(x) && big == up(x);
                lemma_introduce_up(from, to, bag_q, part, v, s, g, a, x);
            }
        }
        assert(vstd::relations::injective_on(up, below)) by {
            assert forall|x1: int, x2: int|
                below.contains(x1) && below.contains(x2) && #[trigger] up(x1) == #[trigger] up(
                    x2,
                ) implies x1 == x2 by {
                lemma_introduce_up(from, to, bag_q, part, v, s, g, a, x1);
                lemma_introduce_up(from, to, bag_q, part, v, s, g, a, x2);
            }
        }
        lemma_map_size(below, above, up);
    }
}

/// The pairs of an element of `first` and an element of `second`.
pub open spec fn pairs(first: Set<int>, second: Set<int>) -> Set<(int, int)> {
    Set::new(|pair: (int, int)| first.contains(pair.0) && second.contains(pair.1))
}

/// There are as many pairs as the product of the sizes of the two sets.
pub proof fn lemma_pairs_size(first: Set<int>, second: Set<int>)
    requires
        first.finite(),
        second.finite(),
    ensures
        pairs(first, second).finite(),
        pairs(first, second).len() == first.len() * second.len(),
    decreases first.len(),
{
    if first.len() == 0 {
        first.lemma_len0_is_empty();
        assert(pairs(first, second) =~= Set::<(int, int)>::empty());
        assert(first.len() * second.len() == 0) by (nonlinear_arith)
            requires
                first.len() == 0,
        ;
    } else {
        let x = first.choose();
        let rest = first.remove(x);
        lemma_pairs_size(rest, second);
        let beside = |y: int| (x, y);
        let row = second.map(beside);
        assert(vstd::relations::injective_on(beside, second));
        lemma_map_size(second, row, beside);
        assert(pairs(first, second) =~= pairs(rest, second) + row) by {
            assert forall|pair: (int, int)| pairs(first, second).contains(pair) implies (pairs(
                rest,
                second,
            ) + row).contains(pair) by {
                if pair.0 == x {
                    assert(second.contains(pair.1) && pair == beside(pair.1));
                }
            }
        }
        assert(pairs(rest, second).disjoint(row));
        vstd::set_lib::lemma_set_disjoint_lens(pairs(rest, second), row);
        assert((first.len() - 1) * second.len() + second.len() == first.len() * second.len())
            by (nonlinear_arith);
    }
}

/// The images of `big` for the vertices of `part`, and the image 0 for
/// all others.
pub open spec fn images_within(n: nat, big: int, part: Set<Vertex>) -> spec_fn(nat) -> nat {
    |i: nat|
        if i <= usize::MAX && part.contains(i as usize) {
            digit(n, big as nat, i)
        } else {
            0
        }
}

/// The mapping `big` with the images of the vertices outside `part` set
/// to 0.
pub open spec fn within_part(n: nat, h: nat, big: int, part: Set<Vertex>) -> int {
    encode(n, h, images_within(n, big, part)) as int
}

/// The images of `first` for the vertices of `part`, and the images of
/// `second` for all others.
pub open spec fn images_merged(n: nat, first: int, second: int, part: Set<Vertex>) -> spec_fn(
    nat,
) -> nat {
    |i: nat|
        if i <= usize::MAX && part.contains(i as usize) {
            digit(n, first as nat, i)
        } else {
            digit(n, second as nat, i)
        }
}

/// The mapping with the images of `first` for the vertices of `part` and
/// the images of `second` for all others.
pub open spec fn merged(n: nat, h: nat, first: int, second: int, part: Set<Vertex>) -> int {
    encode(n, h, images_merged(n, first, second, part)) as int
}

/// What a restricted mapping sends the vertices to.
pub proof fn lemma_within_part(n: nat, h: nat, big: int, part: Set<Vertex>)
    requires
        n >= 1,
        h <= usize::MAX,
    ensures
        0 <= within_part(n, h, big, part) < power_of(n, h),
        forall|u: Vertex|
            u < h ==> #[trigger] digit(n, within_part(n, h, big, part) as nat, u as nat)
                == if part.contains(u) {
                digit(n, big as nat, u as nat)
            } else {
                0
            },
{
    let digits = images_within(n, big, part);
    assert forall|i: nat| i < h implies #[trigger] digits(i) < n by {
        lemma_digit_bound(n, big as nat, i);
    }
    lemma_encode(n, h, digits);
    assert forall|u: Vertex| u < h implies #[trigger] digit(
        n,
        within_part(n, h, big, part) as nat,
        u as nat,
    ) == if part.contains(u) {
        digit(n, big as nat, u as nat)
    } else {
        0
    } by {
        assert(digit(n, within_part(n, h, big, part) as nat, u as nat) == digits(u as nat));
        assert((u as nat) as usize == u);
    }
}

/// What a merged mapping sends the vertices to.
pub proof fn lemma_merged(n: nat, h: nat, first: int, second: int, part: Set<Vertex>)
    requires
        n >= 1,
        h <= usize::MAX,
    ensures
        0 <= merged(n, h, first, second, part) < power_of(n, h),
        forall|u: Vertex|
            u < h ==> #[trigger] digit(n, merged(n, h, first, second, part) as nat, u as nat)
                == if part.contains(u) {
                digit(n, first as nat, u as nat)
            } else {
                digit(n, second as nat, u as nat)
            },
{
    let digits = images_merged(n, first, second, part);
    assert forall|i: nat| i < h implies #[trigger] digits(i) < n by {
        lemma_digit_bound(n, first as nat, i);
        lemma_digit_bound(n, second as nat, i);
    }
    lemma_encode(n, h, digits);
    assert forall|u: Vertex| u < h implies #[trigger] digit(
        n,
        merged(n, h, first, second, part) as nat,
        u as nat,
    ) == if part.contains(u) {
        digit(n, first as nat, u as nat)
    } else {
        digit(n, second as nat, u as nat)
    } by {
        assert(digit(n, merged(n, h, first, second, part) as nat, u as nat) == digits(u as nat));
        assert((u as nat) as usize == u);
    }
}

/// Two mappings of all pattern vertices with the same images are the same
/// mapping.
pub proof fn lemma_same_images(n: nat, h: nat, first: int, second: int)
    requires
        n >= 1,
        h <= usize::MAX,
        0 <= first < power_of(n, h),
        0 <= second < power_of(n, h),
        forall|u: Vertex|
            u < h ==> #[trigger] digit(n, first as nat, u as nat) == digit(
                n,
                second as nat,
                u as nat,
            ),
    ensures
        first == second,
{
    assert forall|i: nat| i < h implies #[trigger] digit(n, first as nat, i) == digit(
        n,
        second as nat,
        i,
    ) by {
        let u = i as usize;
        assert(digit(n, first as nat, u as nat) == digit(n, second as nat, u as nat));
    }
    lemma_same_digits(n, h, first as nat, second as nat);
}

/// What a join node joins: two parts with the vertices of the bag in
/// common and no others, such that the pattern joins no vertex of the one
/// part outside the bag to a vertex of the other part outside the bag.
pub open spec fn joins(
    from: Graph,
    bag: Seq<Vertex>,
    first: Set<Vertex>,
    second: Set<Vertex>,
) -> bool {
    &&& from.order() <= usize::MAX
    &&& forall|k: int|
        0 <= k < bag.len() ==> first.contains(#[trigger] bag[k]) && second.contains(bag[k])
    &&& forall|u: Vertex| #[trigger] first.contains(u) ==> u < from.order()
    &&& forall|u: Vertex| #[trigger] second.contains(u) ==> u < from.order()
    &&& forall|u: Vertex| first.contains(u) && #[trigger] second.contains(u) ==> bag.contains(u)
    &&& forall|u: Vertex, w: Vertex|
        first.contains(u) && !bag.contains(u) && second.contains(w) && !bag.contains(w)
            ==> !#[trigger] from.adjacent(u, w)
}

/// A mapping counted at a join node, restricted to what is seen below
/// either child, is counted at that child, and the two restrictions merge
/// into the mapping.
pub proof fn lemma_join_down(
    from: Graph,
    to: Graph,
    bag: Seq<Vertex>,
    first: Set<Vertex>,
    second: Set<Vertex>,
    f: nat,
    big: int,
)
    requires
        to.order() >= 1,
        joins(from, bag, first, second),
        solves_in(from, to, bag, first + second, f, big),
    ensures
        solves_in(from, to, bag, first, f, within_part(to.order(), from.order(), big, first)),
        solves_in(from, to, bag, second, f, within_part(to.order(), from.order(), big, second)),
        merged(
            to.order(),
            from.order(),
            within_part(to.order(), from.order(), big, first),
            within_part(to.order(), from.order(), big, second),
            first,
        ) == big,
{
    let n = to.order();
    let h = from.order();
    let left = within_part(n, h, big, first);
    let right = within_part(n, h, big, second);
    let both = merged(n, h, left, right, first);
    lemma_within_part(n, h, big, first);
    lemma_within_part(n, h, big, second);
    lemma_merged(n, h, left, right, first);
    lemma_restriction_solves(from, to, bag, first + second, first, f, big);
    lemma_restriction_solves(from, to, bag, first + second, second, f, big);
    assert forall|u: Vertex| u < h implies #[trigger] digit(n, both as nat, u as nat) == digit(
        n,
        big as nat,
        u as nat,
    ) by {
        if first.contains(u) {
            assert(digit(n, left as nat, u as nat) == digit(n, big as nat, u as nat));
        } else if second.contains(u) {
            assert(digit(n, right as nat, u as nat) == digit(n, big as nat, u as nat));
        } else {
            assert(!(first + second).contains(u));
            assert(digit(n, big as nat, u as nat) == 0);
            assert(digit(n, right as nat, u as nat) == 0);
        }
    }
    lemma_same_images(n, h, both, big);
}

/// A mapping that respects the pattern edges among the vertices of a part
/// and goes on from a mapping of a bag within a smaller part does so when
/// it is restricted to the smaller part.
pub proof fn lemma_restriction_solves(
    from: Graph,
    to: Graph,
    bag: Seq<Vertex>,
    whole: Set<Vertex>,
    part: Set<Vertex>,
    f: nat,
    big: int,
)
    requires
        to.order() >= 1,
        from.order() <= usize::MAX,
        part.subset_of(whole),
        forall|k: int| 0 <= k < bag.len() ==> part.contains(#[trigger] bag[k]),
        forall|u: Vertex| #[trigger] part.contains(u) ==> u < from.order(),
        solves_in(from, to, bag, whole, f, big),
    ensures
        solves_in(from, to, bag, part, f, within_part(to.order(), from.order(), big, part)),
{
    let n = to.order();
    let h = from.order();
    let small = within_part(n, h, big, part);
    lemma_within_part(n, h, big, part);
    assert(agrees(n, bag, f, small)) by {
        assert forall|k: int| 0 <= k < bag.len() implies digit(
            n,
            small as nat,
            #[trigger] bag[k] as nat,
        ) == digit(n, f, k as nat) by {
            assert(part.contains(bag[k]));
            assert(digit(n, small as nat, bag[k] as nat) == digit(n, big as nat, bag[k] as nat));
        }
    }
    assert(respects(from, to, part, small)) by {
        assert forall|u: Vertex, w: Vertex|
            #![trigger from.adjacent(u, w)]
            part.contains(u) && part.contains(w) && from.adjacent(u, w) implies to.adjacent(
            digit(n, small as nat, u as nat) as usize,
            digit(n, small as nat, w as nat) as usize,
        ) by {
            assert(whole.contains(u) && whole.contains(w));
            assert(digit(n, small as nat, u as nat) == digit(n, big as nat, u as nat));
            assert(digit(n, small as nat, w as nat) == digit(n, big as nat, w as nat));
        }
    }
    assert(blank(n, h, part, small)) by {
        assert forall|u: Vertex| u < h && !part.contains(u) implies #[trigger] digit(
            n,
            small as nat,
            u as nat,
        ) == 0 by {}
    }
}

/// Two mappings counted at the children of a join node merge into a
/// mapping counted at the node, and its restrictions to what is seen below
/// the children are the two mappings.
pub proof fn lemma_join_up(
    from: Graph,
    to: Graph,
    bag: Seq<Vertex>,
    first: Set<Vertex>,
    second: Set<Vertex>,
    f: nat,
    left: int,
    right: int,
)
    requires
        to.order() >= 1,
        symmetric(from),
        joins(from, bag, first, second),
        solves_in(from, to, bag, first, f, left),
        solves_in(from, to, bag, second, f, right),
    ensures
        solves_in(
            from,
            to,
            bag,
            first + second,
            f,
            merged(to.order(), from.order(), left, right, first),
        ),
        within_part(
            to.order(),
            from.order(),
            merged(to.order(), from.order(), left, right, first),
            first,
        ) == left,
        within_part(
            to.order(),
            from.order(),
            merged(to.order(), from.order(), left, right, first),
            second,
        ) == right,
{
    let n = to.order();
    let h = from.order();
    let whole = first + second;
    let both = merged(n, h, left, right, first);
    lemma_merged(n, h, left, right, first);
    lemma_within_part(n, h, both, first);
    lemma_within_part(n, h, both, second);
    // on what is seen below the second child the merged mapping is the
    // second mapping: on the bag the two mappings are the same
    assert forall|u: Vertex| second.contains(u) implies #[trigger] digit(
        n,
        both as nat,
        u as nat,
    ) == digit(n, right as nat, u as nat) by {
        if first.contains(u) {
            let k = choose|k: int| 0 <= k < bag.len() && bag[k] == u;
            assert(digit(n, left as nat, bag[k] as nat) == digit(n, f, k as nat));
            assert(digit(n, right as nat, bag[k] as nat) == digit(n, f, k as nat));
        }
    }
    assert forall|u: Vertex| first.contains(u) implies #[trigger] digit(
        n,
        both as nat,
        u as nat,
    ) == digit(n, left as nat, u as nat) by {}
    assert(agrees(n, bag, f, both)) by {
        assert forall|k: int| 0 <= k < bag.len() implies digit(
            n,
            both as nat,
            #[trigger] bag[k] as nat,
        ) == digit(n, f, k as nat) by {
            assert(first.contains(bag[k]));
            assert(digit(n, both as nat, bag[k] as nat) == digit(n, left as nat, bag[k] as nat));
        }
    }
    assert(blank(n, h, whole, both)) by {
        assert forall|u: Vertex| u < h && !whole.contains(u) implies #[trigger] digit(
            n,
            both as nat,
            u as nat,
        ) == 0 by {
            assert(!second.contains(u));
            assert(digit(n, right as nat, u as nat) == 0);
        }
    }
    assert(respects(from, to, whole, both)) by {
        assert forall|u: Vertex, w: Vertex|
            #![trigger from.adjacent(u, w)]
            whole.contains(u) && whole.contains(w) && from.adjacent(u, w) implies to.adjacent(
            digit(n, both as nat, u as nat) as usize,
            digit(n, both as nat, w as nat) as usize,
        ) by {
            if first.contains(u) && first.contains(w) {
                assert(digit(n, both as nat, u as nat) == digit(n, left as nat, u as nat));
                assert(digit(n, both as nat, w as nat) == digit(n, left as nat, w as nat));
            } else if second.contains(u) && second.contains(w) {
                assert(digit(n, both as nat, u as nat) == digit(n, right as nat, u as nat));
                assert(digit(n, both as nat, w as nat) == digit(n, right as nat, w as nat));
            } else if first.contains(u) {
                // u is seen below the first child only, w below the second only
                assert(!bag.contains(u)) by {
                    if bag.contains(u) {
                        let k = choose|k: int| 0 <= k < bag.len() && bag[k] == u;
                        assert(second.contains(bag[k]));
                    }
                }
                assert(!bag.contains(w)) by {
                    if bag.contains(w) {
                        let k = choose|k: int| 0 <= k < bag.len() && bag[k] == w;
                        assert(first.contains(bag[k]));
                    }
                }
                assert(!from.adjacent(u, w));
            } else {
                assert(!bag.contains(u)) by {
                    if bag.contains(u) {
                        let k = choose|k: int| 0 <= k < bag.len() && bag[k] == u;
                        assert(first.contains(bag[k]));
                    }
                }
                assert(!bag.contains(w)) by {
                    if bag.contains(w) {
                        let k = choose|k: int| 0 <= k < bag.len() && bag[k] == w;
                        assert(second.contains(bag[k]));
                    }
                }
                assert(from.adjacent(w, u));
                assert(!from.adjacent(w, u));
            }
        }
    }
    let back_left = within_part(n, h, both, first);
    let back_right = within_part(n, h, both, second);
    assert forall|u: Vertex| u < h implies #[trigger] digit(n, back_left as nat, u as nat)
        == digit(n, left as nat, u as nat) by {
        if !first.contains(u) {
            assert(digit(n, left as nat, u as nat) == 0);
        } else {
            assert(digit(n, both as nat, u as nat) == digit(n, left as nat, u as nat));
        }
    }
    lemma_same_images(n, h, back_left, left);
    assert forall|u: Vertex| u < h implies #[trigger] digit(n, back_right as nat, u as nat)
        == digit(n, right as nat, u as nat) by {
        if !second.contains(u) {
            assert(digit(n, right as nat, u as nat) == 0);
        } else {
            assert(digit(n, both as nat, u as nat) == digit(n, right as nat, u as nat));
        }
    }
    lemma_same_images(n, h, back_right, right);
}

/// At a join node the bags of the children are the bag of the node, and
/// what is seen below the node is what is seen below its children.
pub proof fn lemma_join_shape(from: Graph, ntd: NiceTreeDecomposition, j: int)
    requires
        decomposes(ntd, from),
        0 <= j < ntd.spec_ordering().len(),
        ntd.spec_node_type(ntd.spec_ordering()[j]) == Some(NodeType::Join),
    ensures
        ({
            let p = ntd.spec_ordering()[j];
            let q1 = ntd.spec_children(p)[0];
            let q2 = ntd.spec_children(p)[1];
            let all = ntd.spec_ordering().len();
            &&& joins(from, ntd.spec_bag(p), seen(ntd, q1, all), seen(ntd, q2, all))
            &&& ntd.spec_bag(q1) == ntd.spec_bag(p)
            &&& ntd.spec_bag(q2) == ntd.spec_bag(p)
            &&& seen(ntd, p, all) == seen(ntd, q1, all) + seen(ntd, q2, all)
        }),
{
    let order = ntd.spec_ordering();
    let all = order.len();
    let p = order[j];
    let q1 = ntd.spec_children(p)[0];
    let q2 = ntd.spec_children(p)[1];
    let bag = ntd.spec_bag(p);
    assert(ntd.node_is_nice(order, j));
    assert(node_decomposes(ntd, from, order, j));
    lemma_children_are_live(ntd, order, j, 0);
    lemma_children_are_live(ntd, order, j, 1);
    let k1 = choose|k: int| 0 <= k < j && k < order.len() && order[k] == q1;
    let k2 = choose|k: int| 0 <= k < j && k < order.len() && order[k] == q2;
    lemma_seen(ntd, from, j);
    lemma_seen(ntd, from, k1);
    lemma_seen(ntd, from, k2);
    assert(seen(ntd, p, all) =~= seen(ntd, q1, all) + seen(ntd, q2, all)) by {
        assert forall|u: Vertex| bag.to_set().contains(u) implies seen(ntd, q1, all).contains(
            u,
        ) by {
            let m = choose|m: int| 0 <= m < bag.len() && bag[m] == u;
            assert(seen(ntd, q1, all).contains(ntd.spec_bag(q1)[m]));
        }
    }
    assert forall|m: int| 0 <= m < bag.len() implies seen(ntd, q1, all).contains(
        #[trigger] bag[m],
    ) && seen(ntd, q2, all).contains(bag[m]) by {
        assert(seen(ntd, q1, all).contains(ntd.spec_bag(q1)[m]));
        assert(seen(ntd, q2, all).contains(ntd.spec_bag(q2)[m]));
    }
}

/// The entry of a join node counts what it is to count, if the entries of
/// its children do.
pub proof fn lemma_join_sound(
    from: Graph,
    ntd: NiceTreeDecomposition,
    to: Graph,
    j: int,
    f: nat,
)
    requires
        decomposes(ntd, from),
        symmetric(from),
        to.order() >= 1,
        0 <= j < ntd.spec_ordering().len(),
        ntd.spec_node_type(ntd.spec_ordering()[j]) == Some(NodeType::Join),
        f < row_count(ntd, to, ntd.spec_ordering()[j]),
        sound_at(from, ntd, to, ntd.spec_children(ntd.spec_ordering()[j])[0]),
        sound_at(from, ntd, to, ntd.spec_children(ntd.spec_ordering()[j])[1]),
    ensures
        extensions(
            ntd,
            adjacency(from),
            to,
            ntd.spec_ordering()[j],
            f,
            ntd.spec_ordering().len(),
        ) == solutions(from, ntd, to, ntd.spec_ordering()[j], f).len(),
{
    let order = ntd.spec_ordering();
    let all = order.len();
    let n = to.order();
    let h = from.order();
    let p = order[j];
    let q1 = ntd.spec_children(p)[0];
    let q2 = ntd.spec_children(p)[1];
    let bag = ntd.spec_bag(p);
    let first = seen(ntd, q1, all);
    let second = seen(ntd, q2, all);
    let above = solutions(from, ntd, to, p, f);
    let left = solutions(from, ntd, to, q1, f);
    let right = solutions(from, ntd, to, q2, f);
    assert(ntd.node_is_nice(order, j));
    lemma_children_are_live(ntd, order, j, 0);
    lemma_children_are_live(ntd, order, j, 1);
    let k1 = choose|k: int| 0 <= k < j && k < order.len() && order[k] == q1;
    let k2 = choose|k: int| 0 <= k < j && k < order.len() && order[k] == q2;
    lemma_join_shape(from, ntd, j);
    lemma_depth_irrelevant(ntd, adjacency(from), to, order, k1, f, (all - 1) as nat, all);
    lemma_depth_irrelevant(ntd, adjacency(from), to, order, k2, f, (all - 1) as nat, all);
    lemma_solutions_finite(from, ntd, to, q1, f);
    lemma_solutions_finite(from, ntd, to, q2, f);
    assert(extensions(ntd, adjacency(from), to, q1, f, all) == left.len());
    assert(extensions(ntd, adjacency(from), to, q2, f, all) == right.len());
    assert(extensions(ntd, adjacency(from), to, p, f, all) == left.len() * right.len());
    let both = pairs(left, right);
    lemma_pairs_size(left, right);
    let merge = |pair: (int, int)| merged(n, h, pair.0, pair.1, first);
    assert(both.map(merge) =~= above) by {
        assert forall|big: int| above.contains(big) implies both.map(merge).contains(big) by {
            lemma_join_down(from, to, bag, first, second, f, big);
            let pair = (within_part(n, h, big, first), within_part(n, h, big, second));
            assert(both.contains(pair) && big == merge(pair));
        }
        assert forall|big: int| both.map(merge).contains(big) implies above.contains(big) by {
            let pair = choose|pair: (int, int)| both.contains(pair) && big == merge(pair);
            lemma_join_up(from, to, bag, first, second, f, pair.0, pair.1);
        }
    }
    assert(vstd::relations::injective_on(merge, both)) by {
        assert forall|x1: (int, int), x2: (int, int)|
            both.contains(x1) && both.contains(x2) && #[trigger] merge(x1) == #[trigger] merge(
                x2,
            ) implies x1 == x2 by {
            lemma_join_up(from, to, bag, first, second, f, x1.0, x1.1);
            lemma_join_up(from, to, bag, first, second, f, x2.0, x2.1);
        }
    }
    lemma_map_size(both, above, merge);
}

/// The number of homomorphisms among the mappings below `limit` is the
/// size of their set.
pub proof fn lemma_homomorphisms_below(from: Graph, to: Graph, limit: nat)
    ensures
        Set::new(|big: int| 0 <= big < limit && is_homomorphism(from, to, big as nat)).finite(),
        homomorphisms_below(from, to, limit) == Set::new(
            |big: int| 0 <= big < limit && is_homomorphism(from, to, big as nat),
        ).len(),
    decreases limit,
{
    let these = Set::new(|big: int| 0 <= big < limit && is_homomorphism(from, to, big as nat));
    if limit == 0 {
        assert(these =~= Set::<int>::empty());
    } else {
        let last = (limit - 1) as nat;
        let before = Set::new(|big: int| 0 <= big < last && is_homomorphism(from, to, big as nat));
        lemma_homomorphisms_below(from, to, last);
        if is_homomorphism(from, to, last) {
            assert(these =~= before.insert(last as int));
        } else {
            assert(these =~= before);
        }
    }
}

/// The entries of every node of the ordering count what they are to
/// count.
pub proof fn lemma_sound(from: Graph, ntd: NiceTreeDecomposition, to: Graph, j: int)
    requires
        decomposes(ntd, from),
        symmetric(from),
        symmetric(to),
        to.order() >= 1,
        0 <= j < ntd.spec_ordering().len(),
    ensures
        sound_at(from, ntd, to, ntd.spec_ordering()[j]),
    decreases j,
{
    let order = ntd.spec_ordering();
    let all = order.len();
    let p = order[j];
    let c = ntd.spec_children(p);
    assert(ntd.node_is_nice(order, j));
    match ntd.spec_node_type(p) {
        Some(NodeType::Leaf) => {
            assert forall|g: nat| g < row_count(ntd, to, p) implies #[trigger] extensions(
                ntd,
                adjacency(from),
                to,
                p,
                g,
                all,
            ) == solutions(from, ntd, to, p, g).len() by {
                lemma_leaf_sound(from, ntd, to, j, g);
            }
        },
        Some(NodeType::Introduce) => {
            let k = choose|k: int| 0 <= k < j && k < order.len() && order[k] == c[0];
            lemma_sound(from, ntd, to, k);
            assert forall|g: nat| g < row_count(ntd, to, p) implies #[trigger] extensions(
                ntd,
                adjacency(from),
                to,
                p,
                g,
                all,
            ) == solutions(from, ntd, to, p, g).len() by {
                lemma_introduce_sound(from, ntd, to, j, g);
            }
        },
        Some(NodeType::Forget) => {
            let k = choose|k: int| 0 <= k < j && k < order.len() && order[k] == c[0];
            lemma_sound(from, ntd, to, k);
            assert forall|g: nat| g < row_count(ntd, to, p) implies #[trigger] extensions(
                ntd,
                adjacency(from),
                to,
                p,
                g,
                all,
            ) == solutions(from, ntd, to, p, g).len() by {
                lemma_forget_sound(from, ntd, to, j, g);
            }
        },
        Some(NodeType::Join) => {
            let k0 = choose|k: int| 0 <= k < j && k < order.len() && order[k] == c[0];
            let k1 = choose|k: int| 0 <= k < j && k < order.len() && order[k] == c[1];
            lemma_sound(from, ntd, to, k0);
            lemma_sound(from, ntd, to, k1);
            assert forall|g: nat| g < row_count(ntd, to, p) implies #[trigger] extensions(
                ntd,
                adjacency(from),
                to,
                p,
                g,
                all,
            ) == solutions(from, ntd, to, p, g).len() by {
                lemma_join_sound(from, ntd, to, j, g);
            }
        },
        None => {},
    }
}

/// For a target graph without vertices, the entries of a node with an
/// empty bag are 0.
pub proof fn lemma_nothing_to_count(
    from: Graph,
    ntd: NiceTreeDecomposition,
    to: Graph,
    j: int,
    f: nat,
)
    requires
        ntd.nice(),
        to.order() == 0,
        0 <= j < ntd.spec_ordering().len(),
        ntd.spec_bag(ntd.spec_ordering()[j]).len() == 0,
    ensures
        extensions(
            ntd,
            adjacency(from),
            to,
            ntd.spec_ordering()[j],
            f,
            ntd.spec_ordering().len(),
        ) == 0,
    decreases j,
{
    let order = ntd.spec_ordering();
    let all = order.len();
    let p = order[j];
    let c = ntd.spec_children(p);
    assert(ntd.node_is_nice(order, j));
    match ntd.spec_node_type(p) {
        Some(NodeType::Join) => {
            let k0 = choose|k: int| 0 <= k < j && k < order.len() && order[k] == c[0];
            lemma_nothing_to_count(from, ntd, to, k0, f);
            lemma_depth_irrelevant(ntd, adjacency(from), to, order, k0, f, (all - 1) as nat, all);
            let first = extensions(ntd, adjacency(from), to, c[0], f, (all - 1) as nat);
            let second = extensions(ntd, adjacency(from), to, c[1], f, (all - 1) as nat);
            assert(first * second == 0) by (nonlinear_arith)
                requires
                    first == 0,
            ;
        },
        Some(NodeType::Forget) => {
            let unique = unique_vertex_of(ntd.spec_tree(), ntd.spec_data(), p);
            if unique is Some {
                let s = rank_of(ntd.spec_bag(c[0]), unique->0);
                assert(forget_sum(ntd, adjacency(from), to, c[0], f, s, 0, (all - 1) as nat) == 0);
            }
        },
        _ => {},
    }
}

/// The dynamic program counts the homomorphisms: for a nice tree
/// decomposition of the pattern graph, and graphs whose edges have no
/// direction, the entry of the root for the empty mapping is the number of
/// mappings of the pattern vertices into the target vertices that send
/// every edge of the pattern onto an edge of the target.
pub proof fn lemma_count_is_number_of_homomorphisms(
    from: Graph,
    ntd: NiceTreeDecomposition,
    to: Graph,
)
    requires
        decomposes(ntd, from),
        symmetric(from),
        symmetric(to),
    ensures
        homomorphism_count(from, ntd, to) == homomorphisms(from, to),
{
    let order = ntd.spec_ordering();
    let all = order.len();
    let n = to.order();
    let h = from.order();
    let root = ntd.spec_root();
    let limit = power_of(n, h);
    assert(order[all - 1] == root);
    if n == 0 {
        // the first node of the ordering is a leaf, so there is a pattern
        // vertex, and nothing to send it to
        assert(ntd.node_is_nice(order, 0));
        assert(node_decomposes(ntd, from, order, 0));
        assert(ntd.spec_bag(order[0])[0] < h);
        vstd::arithmetic::power::lemma0_pow(h);
        lemma_nothing_to_count(from, ntd, to, all - 1, 0);
    } else {
        lemma_sound(from, ntd, to, all - 1);
        lemma_power_step(n, 0);
        assert(extensions(ntd, adjacency(from), to, root, 0, all) == solutions(
            from,
            ntd,
            to,
            root,
            0,
        ).len());
        lemma_homomorphisms_below(from, to, limit);
        let these = Set::new(|big: int| 0 <= big < limit && is_homomorphism(from, to, big as nat));
        assert(solutions(from, ntd, to, root, 0) =~= these) by {
            assert forall|big: int| solves(from, ntd, to, root, 0, big) <==> 0 <= big < limit
                && is_homomorphism(from, to, big as nat) by {
                lemma_root_solves(from, ntd, to, big);
            }
        }
    }
}

/// The mappings counted at the root for the empty mapping are the
/// homomorphisms.
pub proof fn lemma_root_solves(from: Graph, ntd: NiceTreeDecomposition, to: Graph, big: int)
    requires
        decomposes(ntd, from),
    ensures
        solves(from, ntd, to, ntd.spec_root(), 0, big) <==> 0 <= big < power_of(
            to.order(),
            from.order(),
        ) && is_homomorphism(from, to, big as nat),
{
    let part = seen(ntd, ntd.spec_root(), ntd.spec_ordering().len());
    let n = to.order();
    let h = from.order();
    assert(agrees(n, ntd.spec_bag(ntd.spec_root()), 0, big));
    assert(blank(n, h, part, big)) by {
        assert forall|u: Vertex| u < h && !part.contains(u) implies #[trigger] digit(
            n,
            big as nat,
            u as nat,
        ) == 0 by {
            assert(part.contains(u));
        }
    }
    if respects(from, to, part, big) {
        assert forall|u: usize, v: usize|
            #![trigger from.adjacent(u, v)]
            u < from.order() && v < from.order() && from.adjacent(u, v) implies to.adjacent(
            digit(to.order(), big as nat, u as nat) as usize,
            digit(to.order(), big as nat, v as nat) as usize,
        ) by {
            assert(part.contains(u) && part.contains(v));
        }
    }
    if is_homomorphism(from, to, big as nat) {
        assert forall|u: Vertex, w: Vertex|
            #![trigger from.adjacent(u, w)]
            part.contains(u) && part.contains(w) && from.adjacent(u, w) implies to.adjacent(
            digit(to.order(), big as nat, u as nat) as usize,
            digit(to.order(), big as nat, w as nat) as usize,
        ) by {
            assert(u < from.order() && w < from.order());
        }
    }
}

} // verus!
