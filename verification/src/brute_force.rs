//! Counting homomorphisms by trying every mapping of the pattern's
//! vertices: slow, and plain enough to check the dynamic programs against.

use crate::graph_generation::generate_graphs;
use crate::graph_generation::generate_possible_edges;
use crate::graph_generation::copy_edges;
use crate::graph_generation::has_selected_graph;
use crate::graph_generation::is_selected_graph;
use crate::graph_generation::is_some_selected_graph;
use crate::graph_generation::possible_edges_of;
use crate::graphs::Graph;
use crate::graphs::MAX_VERTEX;
use crate::integer_functions::apply;
use crate::integer_functions::digit;
use crate::integer_functions::lemma_power_monotonic;
use crate::integer_functions::max_mappings;
use crate::integer_functions::power_of;
use crate::integer_functions::Mapping;
use crate::nice_tree_decomposition::NiceTreeDecomposition;
use crate::tree_decompositions::TreeNode;
use vstd::arithmetic::power2::pow2;
use vstd::prelude::*;
use vstd::std_specs::hash::group_hash_axioms;

verus! {

broadcast use group_hash_axioms;

/// The mapping `f` of the vertices of `from` into the vertices of `to` is a
/// homomorphism: it sends every edge onto an edge. The image of vertex `u`
/// is the digit of significance `u` of `f` in the base of the number of
/// vertices of `to`.
pub open spec fn is_homomorphism(from: Graph, to: Graph, f: nat) -> bool {
    forall|u: usize, v: usize|
        #![trigger from.adjacent(u, v)]
        u < from.order() && v < from.order() && from.adjacent(u, v) ==> to.adjacent(
            digit(to.order(), f, u as nat) as usize,
            digit(to.order(), f, v as nat) as usize,
        )
}

/// The number of homomorphisms among the mappings below `limit`.
pub open spec fn homomorphisms_below(from: Graph, to: Graph, limit: nat) -> nat
    decreases limit,
{
    if limit == 0 {
        0
    } else {
        homomorphisms_below(from, to, (limit - 1) as nat) + if is_homomorphism(
            from,
            to,
            (limit - 1) as nat,
        ) {
            1nat
        } else {
            0nat
        }
    }
}

/// The number of homomorphisms from `from` into `to`: of the mappings of
/// all vertices of `from`, those that send every edge onto an edge.
pub open spec fn homomorphisms(from: Graph, to: Graph) -> nat {
    homomorphisms_below(from, to, power_of(to.order(), from.order()))
}

/// There are at most as many homomorphisms below a limit as mappings.
pub proof fn lemma_homomorphisms_bound(from: Graph, to: Graph, limit: nat)
    ensures
        homomorphisms_below(from, to, limit) <= limit,
    decreases limit,
{
    if limit > 0 {
        lemma_homomorphisms_bound(from, to, (limit - 1) as nat);
    }
}

/// Whether the mapping `f` is a homomorphism.
fn check_mapping(from_graph: &Graph, to_graph: &Graph, f: Mapping) -> (r: bool)
    requires
        to_graph.order() >= 1 || from_graph.order() == 0,
        power_of(to_graph.order(), from_graph.order()) <= u64::MAX,
    ensures
        r == is_homomorphism(*from_graph, *to_graph, f as nat),
{
    let h: usize = from_graph.node_count();
    let g: usize = to_graph.node_count();
    let mut ret: bool = true;
    let mut u: usize = 0;
    while u < h
        invariant
            u <= h,
            h == from_graph.order(),
            g == to_graph.order(),
            g >= 1 || h == 0,
            power_of(g as nat, h as nat) <= u64::MAX,
            ret == forall|x: usize, y: usize|
                #![trigger from_graph.adjacent(x, y)]
                x < u && y < h && from_graph.adjacent(x, y) ==> to_graph.adjacent(
                    digit(g as nat, f as nat, x as nat) as usize,
                    digit(g as nat, f as nat, y as nat) as usize,
                ),
        decreases h - u,
    {
        let mut v: usize = 0;
        while v < h
            invariant
                v <= h,
                u < h,
                h == from_graph.order(),
                g == to_graph.order(),
                g >= 1,
                power_of(g as nat, h as nat) <= u64::MAX,
                ret == ((forall|x: usize, y: usize|
                    #![trigger from_graph.adjacent(x, y)]
                    x < u && y < h && from_graph.adjacent(x, y) ==> to_graph.adjacent(
                        digit(g as nat, f as nat, x as nat) as usize,
                        digit(g as nat, f as nat, y as nat) as usize,
                    )) && (forall|y: usize|
                    #![trigger from_graph.adjacent(u, y)]
                    y < v && from_graph.adjacent(u, y) ==> to_graph.adjacent(
                        digit(g as nat, f as nat, u as nat) as usize,
                        digit(g as nat, f as nat, y as nat) as usize,
                    ))),
            decreases h - v,
        {
            if from_graph.has_edge(u, v) {
                proof {
                    lemma_power_monotonic(g as nat, u as nat, h as nat);
                    lemma_power_monotonic(g as nat, v as nat, h as nat);
                }
                let map_u: Mapping = apply(g as Mapping, f, u as Mapping);
                let map_v: Mapping = apply(g as Mapping, f, v as Mapping);
                if !to_graph.has_edge(map_u as usize, map_v as usize) {
                    ret = false;
                }
            }
            v = v + 1;
        }
        u = u + 1;
    }
    ret
}

/// The number of homomorphisms from `from_graph` into `to_graph`, found
/// by trying every mapping.
pub fn simple_brute_force(from_graph: &Graph, to_graph: &Graph) -> (count: u64)
    requires
        power_of(to_graph.order(), from_graph.order()) <= u64::MAX,
    ensures
        count == homomorphisms(*from_graph, *to_graph),
{
    let h: usize = from_graph.node_count();
    let g: usize = to_graph.node_count();
    let max: Mapping = max_mappings(h as Mapping, g as Mapping);
    proof {
        if g == 0 && h > 0 {
            vstd::arithmetic::power::lemma0_pow(h as nat);
        }
    }
    let mut counter: u64 = 0;
    let mut f: Mapping = 0;
    while f < max
        invariant
            f <= max,
            g >= 1 || h == 0 || max == 0,
            h == from_graph.order(),
            g == to_graph.order(),
            power_of(g as nat, h as nat) <= u64::MAX,
            counter == homomorphisms_below(*from_graph, *to_graph, f as nat),
        decreases max - f,
    {
        proof {
            lemma_homomorphisms_bound(*from_graph, *to_graph, f as nat);
        }
        if check_mapping(from_graph, to_graph, f) {
            counter = counter + 1;
        }
        f = f + 1;
    }
    counter
}

/// The pair `answer` is the graph of the selection `keep` from the
/// possible edges and the number of homomorphisms from it into `to`.
pub open spec fn is_counted_graph(
    answer: (Graph, u64),
    to: Graph,
    number_of_vertices: nat,
    possible_edges: Seq<(usize, usize)>,
    keep: Seq<bool>,
) -> bool {
    &&& is_selected_graph(answer.0, number_of_vertices, possible_edges, keep)
    &&& answer.1 == homomorphisms(answer.0, to)
}

/// The pair `answer` is a graph of some selection from the possible edges
/// with its number of homomorphisms.
pub open spec fn is_some_counted_graph(
    answer: (Graph, u64),
    to: Graph,
    number_of_vertices: nat,
    possible_edges: Seq<(usize, usize)>,
) -> bool {
    exists|keep: Seq<bool>|
        keep.len() == possible_edges.len() && #[trigger] is_counted_graph(
            answer,
            to,
            number_of_vertices,
            possible_edges,
            keep,
        )
}

/// One of the answers is the graph of the selection `keep` with its
/// number of homomorphisms.
pub open spec fn has_counted_graph(
    answers: Seq<(Graph, u64)>,
    to: Graph,
    number_of_vertices: nat,
    possible_edges: Seq<(usize, usize)>,
    keep: Seq<bool>,
) -> bool {
    exists|t: int|
        0 <= t < answers.len() && is_counted_graph(
            #[trigger] answers[t],
            to,
            number_of_vertices,
            possible_edges,
            keep,
        )
}

/// The number of vertices of a graph that is to have `number_of_vertices`
/// of them.
pub open spec fn order_for(number_of_vertices: nat) -> nat {
    if number_of_vertices <= MAX_VERTEX {
        number_of_vertices
    } else {
        MAX_VERTEX as nat
    }
}

/// For every pattern graph whose edges are among the possible edges of the
/// decomposition, the graph and the number of homomorphisms from it into
/// the target graph, each found by trying every mapping.
pub fn simple_brute_force_for_ntd_set(ntd: &NiceTreeDecomposition, to_graph: &Graph) -> (result:
    Vec<(Graph, u64)>)
    requires
        ntd.nice(),
        pow2(possible_edges_of(*ntd, ntd.spec_root(), ntd.spec_ordering().len()).len())
            <= usize::MAX,
        power_of(to_graph.order(), order_for(ntd.spec_vertex_count() as nat)) <= u64::MAX,
    ensures
        result@.len() == pow2(
            possible_edges_of(*ntd, ntd.spec_root(), ntd.spec_ordering().len()).len(),
        ),
        forall|t: int|
            0 <= t < result@.len() ==> is_some_counted_graph(
                #[trigger] result@[t],
                *to_graph,
                ntd.spec_vertex_count() as nat,
                possible_edges_of(*ntd, ntd.spec_root(), ntd.spec_ordering().len()),
            ),
        forall|keep: Seq<bool>|
            keep.len() == possible_edges_of(
                *ntd,
                ntd.spec_root(),
                ntd.spec_ordering().len(),
            ).len() ==> #[trigger] has_counted_graph(
                result@,
                *to_graph,
                ntd.spec_vertex_count() as nat,
                possible_edges_of(*ntd, ntd.spec_root(), ntd.spec_ordering().len()),
                keep,
            ),
{
    let possible_edges = generate_possible_edges(ntd);
    let root: TreeNode = ntd.root();
    let ghost order = ntd.spec_ordering();
    let ghost all = possible_edges_of(*ntd, ntd.spec_root(), order.len());
    let ghost n = ntd.spec_vertex_count() as nat;
    assert(order[order.len() - 1] == root);
    assert(order.contains(root));
    let edges = copy_edges(possible_edges.get(&root).unwrap());
    let mut graphs = generate_graphs(ntd.vertex_count() as u64, edges);
    let ghost made = graphs@;
    let mut reversed: Vec<(Graph, u64)> = Vec::new();
    while graphs.len() > 0
        invariant
            graphs@.len() + reversed@.len() == made.len(),
            graphs@ == made.take(graphs@.len() as int),
            power_of(to_graph.order(), order_for(n)) <= u64::MAX,
            forall|t: int|
                0 <= t < made.len() ==> is_some_selected_graph(#[trigger] made[t], n, all),
            forall|j: int|
                0 <= j < reversed@.len() ==> (#[trigger] reversed@[j]).0 == made[made.len() - 1
                    - j] && reversed@[j].1 == homomorphisms(reversed@[j].0, *to_graph),
        decreases graphs.len(),
    {
        let ghost last = graphs@.len() - 1;
        let graph = graphs.pop().unwrap();
        proof {
            assert(graph == made[last]);
            assert(is_some_selected_graph(made[last], n, all));
            let keep = choose|keep: Seq<bool>|
                keep.len() == all.len() && #[trigger] is_selected_graph(made[last], n, all, keep);
            assert(graph.order() == order_for(n));
            assert(graphs@ =~= made.take(graphs@.len() as int));
        }
        let hom_number: u64 = simple_brute_force(&graph, to_graph);
        reversed.push((graph, hom_number));
    }
    let mut result: Vec<(Graph, u64)> = Vec::new();
    let ghost turned = reversed@;
    while reversed.len() > 0
        invariant
            reversed@.len() + result@.len() == made.len(),
            turned.len() == made.len(),
            reversed@ == turned.take(reversed@.len() as int),
            forall|j: int|
                0 <= j < turned.len() ==> (#[trigger] turned[j]).0 == made[made.len() - 1 - j]
                    && turned[j].1 == homomorphisms(turned[j].0, *to_graph),
            forall|j: int|
                0 <= j < result@.len() ==> (#[trigger] result@[j]).0 == made[j] && result@[j].1
                    == homomorphisms(result@[j].0, *to_graph),
        decreases reversed.len(),
    {
        let ghost last = reversed@.len() - 1;
        let answer = reversed.pop().unwrap();
        proof {
            assert(answer == turned[last]);
            assert(reversed@ =~= turned.take(reversed@.len() as int));
        }
        result.push(answer);
    }
    proof {
        assert forall|t: int| 0 <= t < result@.len() implies is_some_counted_graph(
            #[trigger] result@[t],
            *to_graph,
            n,
            all,
        ) by {
            assert(is_some_selected_graph(made[t], n, all));
            let keep = choose|keep: Seq<bool>|
                keep.len() == all.len() && #[trigger] is_selected_graph(made[t], n, all, keep);
            assert(is_counted_graph(result@[t], *to_graph, n, all, keep));
        }
        assert forall|keep: Seq<bool>| keep.len() == all.len() implies #[trigger] has_counted_graph(
            result@,
            *to_graph,
            n,
            all,
            keep,
        ) by {
            assert(has_selected_graph(made, n, all, keep));
            let t = choose|t: int|
                0 <= t < made.len() && is_selected_graph(#[trigger] made[t], n, all, keep);
            assert(is_counted_graph(result@[t], *to_graph, n, all, keep));
        }
    }
    result
}

} // verus!
