//! The dynamic program for all pattern graphs at once: for every set of
//! possible edges of a nice tree decomposition, the number of
//! homomorphisms from the graph with these edges into the target graph.
//! The table has one row for each node and each set of the node's possible
//! edges.

use crate::all_patterns::decomposes_vertices;
use crate::all_patterns::lemma_answer_counts_homomorphisms;
use crate::brute_force::homomorphisms;
use crate::dynamic_program::adjacency;
use crate::dynamic_program::counts_fit;
use crate::dynamic_program::extensions;
use crate::dynamic_program::forget_sum;
use crate::dynamic_program::introduce_condition;
use crate::dynamic_program::lemma_children_are_distinct;
use crate::dynamic_program::lemma_children_are_live;
use crate::dynamic_program::lemma_depth_irrelevant;
use crate::dynamic_program::lemma_live_step;
use crate::dynamic_program::lemma_not_yet_visited;
use crate::dynamic_program::lemma_row_fits;
use crate::dynamic_program::live;
use crate::dynamic_program::row_count;
use crate::dynamic_program::without_node;
use crate::dynamic_program::Table;
use crate::edge_sets::all_selections;
use crate::edge_sets::bit_is_set;
use crate::edge_sets::has_selection;
use crate::edge_sets::is_selection;
use crate::edge_sets::lemma_pick_small;
use crate::edge_sets::bits_of;
use crate::edge_sets::has_bit;
use crate::edge_sets::indices_to_bits;
use crate::edge_sets::lemma_and_bit;
use crate::edge_sets::lemma_bits_of;
use crate::edge_sets::lemma_picked_is_subset;
use crate::edge_sets::lemma_subset_is_picked;
use crate::edge_sets::pick;
use crate::edge_sets::powerset_of;
use crate::edge_sets::small_indices;
use crate::edge_sets::within;
use crate::edge_sets::EdgeList;
use crate::edge_sets::MAX_EDGES;
use crate::graph_generation::copy_edges;
use crate::graph_generation::distinct_edges;
use crate::graph_generation::generate_possible_edges;
use crate::graph_generation::graph_of_edges;
use crate::graph_generation::index_of_edge;
use crate::graph_generation::lemma_add_missing;
use crate::graph_generation::lemma_possible_edges_distinct;
use crate::graph_generation::lemma_possible_edges_length;
use crate::graph_generation::lemma_possible_edges_reach_root;
use crate::graph_generation::lists_edge;
use crate::graph_generation::pairs_with;
use crate::graph_generation::possible_edges_of;
use crate::graph_generation::same_edge;
use crate::diaz::homomorphism_count;
use crate::graphs::symmetric;
use crate::graphs::Graph;
use crate::graphs::MAX_VERTEX;
use crate::integer_functions::digit;
use crate::integer_functions::insert_digit;
use crate::integer_functions::power_of;
use crate::integer_functions::remove_digit;
use crate::integer_functions::Mapping;
use crate::nice_tree_decomposition::comes_before;
use crate::nice_tree_decomposition::rank_of;
use crate::nice_tree_decomposition::unique_vertex_of;
use crate::nice_tree_decomposition::Bag;
use crate::nice_tree_decomposition::NiceTreeDecomposition;
use crate::nice_tree_decomposition::NodeType;
use crate::tree_decompositions::TreeNode;
use crate::tree_decompositions::Vertex;
use std::collections::HashMap;
use vstd::arithmetic::power2::pow2;
use vstd::prelude::*;
use vstd::std_specs::hash::group_hash_axioms;

verus! {

broadcast use group_hash_axioms;

/// The adjacency of the pattern graph whose edges are those of the list
/// `all` that the set `e` holds.
pub open spec fn pattern_of(all: Seq<(usize, usize)>, e: EdgeList) -> spec_fn(Vertex, Vertex) -> bool {
    |u: Vertex, v: Vertex|
        exists|i: int| 0 <= i < all.len() && has_bit(e, i as nat) && same_edge(#[trigger] all[i], (u, v))
}

/// A table entry depends only on the pattern edges among the possible
/// edges of its node: two patterns that agree on these give the same
/// entry.
pub proof fn lemma_extensions_local(
    ntd: NiceTreeDecomposition,
    first: spec_fn(Vertex, Vertex) -> bool,
    second: spec_fn(Vertex, Vertex) -> bool,
    to: Graph,
    order: Seq<TreeNode>,
    j: int,
    f: nat,
    depth: nat,
)
    requires
        ntd.valid_order(order),
        0 <= j < order.len(),
        depth > j,
        forall|u: Vertex, v: Vertex|
            #![trigger first(u, v)]
            lists_edge(possible_edges_of(ntd, order[j], depth), (u, v)) ==> first(u, v) == second(
                u,
                v,
            ),
    ensures
        extensions(ntd, first, to, order[j], f, depth) == extensions(
            ntd,
            second,
            to,
            order[j],
            f,
            depth,
        ),
    decreases j, 0nat,
{
    let p = order[j];
    let c = ntd.spec_children(p);
    let n = to.order();
    let below = (depth - 1) as nat;
    let edges = possible_edges_of(ntd, p, depth);
    assert(ntd.node_is_nice(order, j));
    let unique = unique_vertex_of(ntd.spec_tree(), ntd.spec_data(), p);
    match ntd.spec_node_type(p) {
        Some(NodeType::Leaf) => {
            if unique is Some {
                let v = unique->0;
                assert(same_edge(edges[0], (v, v)));
                assert(first(v, v) == second(v, v));
            }
        },
        Some(NodeType::Introduce) => {
            if unique is Some {
                let v = unique->0;
                let bag = ntd.spec_bag(p);
                let s = rank_of(ntd.spec_bag(c[0]), v);
                let k = choose|k: int| 0 <= k < j && k < order.len() && order[k] == c[0];
                lemma_add_missing(possible_edges_of(ntd, c[0], below), pairs_with(bag, v));
                assert forall|u: Vertex, w: Vertex|
                    #![trigger first(u, w)]
                    lists_edge(possible_edges_of(ntd, order[k], below), (u, w)) implies first(u, w)
                    == second(u, w) by {}
                lemma_extensions_local(
                    ntd,
                    first,
                    second,
                    to,
                    order,
                    k,
                    remove_digit(n, f, s),
                    below,
                );
                assert forall|m: int| 0 <= m < bag.len() implies first(v, #[trigger] bag[m])
                    == second(v, bag[m]) by {
                    assert(same_edge(pairs_with(bag, v)[m], (v, bag[m])));
                    assert(lists_edge(pairs_with(bag, v), (v, bag[m])));
                }
                assert(introduce_condition(first, to, bag, v, digit(n, f, s), f)
                    == introduce_condition(second, to, bag, v, digit(n, f, s), f));
            }
        },
        Some(NodeType::Forget) => {
            if unique is Some {
                let v = unique->0;
                let s = rank_of(ntd.spec_bag(c[0]), v);
                let k = choose|k: int| 0 <= k < j && k < order.len() && order[k] == c[0];
                lemma_forget_sum_local(ntd, first, second, to, order, k, f, s, n, below);
            }
        },
        Some(NodeType::Join) => {
            let k0 = choose|k: int| 0 <= k < j && k < order.len() && order[k] == c[0];
            let k1 = choose|k: int| 0 <= k < j && k < order.len() && order[k] == c[1];
            lemma_add_missing(
                possible_edges_of(ntd, c[0], below),
                possible_edges_of(ntd, c[1], below),
            );
            lemma_add_missing(
                possible_edges_of(ntd, c[1], below),
                possible_edges_of(ntd, c[0], below),
            );
            assert forall|u: Vertex, w: Vertex|
                #![trigger first(u, w)]
                lists_edge(possible_edges_of(ntd, order[k0], below), (u, w)) implies first(u, w)
                == second(u, w) by {}
            assert forall|u: Vertex, w: Vertex|
                #![trigger first(u, w)]
                lists_edge(possible_edges_of(ntd, order[k1], below), (u, w)) implies first(u, w)
                == second(u, w) by {}
            lemma_extensions_local(ntd, first, second, to, order, k0, f, below);
            lemma_extensions_local(ntd, first, second, to, order, k1, f, below);
        },
        None => {},
    }
}

/// The sum at a forget node depends only on the pattern edges among the
/// possible edges of the child.
pub proof fn lemma_forget_sum_local(
    ntd: NiceTreeDecomposition,
    first: spec_fn(Vertex, Vertex) -> bool,
    second: spec_fn(Vertex, Vertex) -> bool,
    to: Graph,
    order: Seq<TreeNode>,
    k: int,
    f: nat,
    s: nat,
    count: nat,
    depth: nat,
)
    requires
        ntd.valid_order(order),
        0 <= k < order.len(),
        depth > k,
        forall|u: Vertex, v: Vertex|
            #![trigger first(u, v)]
            lists_edge(possible_edges_of(ntd, order[k], depth), (u, v)) ==> first(u, v) == second(
                u,
                v,
            ),
    ensures
        forget_sum(ntd, first, to, order[k], f, s, count, depth) == forget_sum(
            ntd,
            second,
            to,
            order[k],
            f,
            s,
            count,
            depth,
        ),
    decreases k, count + 1,
{
    if count > 0 {
        lemma_forget_sum_local(
            ntd,
            first,
            second,
            to,
            order,
            k,
            f,
            s,
            (count - 1) as nat,
            depth,
        );
        lemma_extensions_local(
            ntd,
            first,
            second,
            to,
            order,
            k,
            insert_digit(to.order(), f, s, (count - 1) as nat),
            depth,
        );
    }
}

/// The list `indices` gives, place by place, where the edges of `edges`
/// stand in `all`.
pub open spec fn indexes(
    all: Seq<(usize, usize)>,
    edges: Seq<(usize, usize)>,
    indices: Seq<usize>,
) -> bool {
    &&& indices.len() == edges.len()
    &&& forall|k: int|
        0 <= k < indices.len() ==> #[trigger] indices[k] < all.len() && same_edge(
            all[indices[k] as int],
            edges[k],
        )
}

/// The table of the dynamic program for all pattern graphs, with the
/// possible edges of the decomposition: all of them in a fixed order, and
/// for each node the indices of its own.
pub struct DPData<'a> {
    rows: Table<'a>,
    possible_edges: HashMap<TreeNode, Vec<usize>>,
    all_possible_edges: Vec<(usize, usize)>,
}

impl<'a> DPData<'a> {
    /// The table.
    pub closed spec fn table(&self) -> Table<'a> {
        self.rows
    }

    /// All possible edges: those of the root. The index of an edge is its
    /// place in this list.
    pub closed spec fn all(&self) -> Seq<(usize, usize)> {
        self.all_possible_edges@
    }

    /// The nodes that have a list of indices.
    pub closed spec fn has_indices(&self, p: TreeNode) -> bool {
        self.possible_edges@.contains_key(p)
    }

    /// The indices of the possible edges of node `p`.
    pub closed spec fn indices(&self, p: TreeNode) -> Seq<usize> {
        if self.possible_edges@.contains_key(p) {
            self.possible_edges@[p]@
        } else {
            Seq::empty()
        }
    }

    /// The set of the possible edges of node `p`.
    pub open spec fn mask(&self, p: TreeNode) -> EdgeList {
        bits_of(self.indices(p))
    }

    /// The decomposition.
    pub open spec fn ntd(&self) -> NiceTreeDecomposition {
        self.table().ntd()
    }

    /// The target graph.
    pub open spec fn target_graph(&self) -> Graph {
        self.table().target_graph()
    }

    /// The number of nodes of the stingy ordering.
    pub open spec fn depth(&self) -> nat {
        self.ntd().spec_ordering().len()
    }

    /// The possible edges of node `p`.
    pub open spec fn edges(&self, p: TreeNode) -> Seq<(usize, usize)> {
        possible_edges_of(self.ntd(), p, self.depth())
    }

    /// `other` has the same graph, decomposition and possible edges.
    pub open spec fn same_context(&self, other: &Self) -> bool {
        &&& self.table().same_context(&other.table())
        &&& self.all() == other.all()
        &&& forall|p: TreeNode| self.has_indices(p) == other.has_indices(p)
        &&& forall|p: TreeNode| self.indices(p) == other.indices(p)
    }

    /// The decomposition is nice, the possible edges are those of its
    /// root, an integer can hold them, and every node of the ordering has
    /// the indices of its possible edges.
    pub open spec fn wf(&self) -> bool {
        &&& self.ntd().nice()
        &&& self.all() == self.edges(self.ntd().spec_root())
        &&& self.all().len() <= MAX_EDGES
        &&& pow2(self.all().len()) <= usize::MAX
        &&& forall|p: TreeNode| #[trigger]
            self.has_indices(p) <==> self.ntd().spec_ordering().contains(p)
        &&& forall|p: TreeNode| #[trigger]
            self.has_indices(p) ==> indexes(self.all(), self.edges(p), self.indices(p))
    }

    /// An empty table for the given target graph and decomposition, with
    /// the possible edges of the decomposition.
    pub fn new<'b>(nice_tree_decomposition: &'b NiceTreeDecomposition, to_graph: &'b Graph) -> (dp:
        DPData<'b>)
        requires
            nice_tree_decomposition.nice(),
            possible_edges_of(
                *nice_tree_decomposition,
                nice_tree_decomposition.spec_root(),
                nice_tree_decomposition.spec_ordering().len(),
            ).len() <= MAX_EDGES,
            pow2(
                possible_edges_of(
                    *nice_tree_decomposition,
                    nice_tree_decomposition.spec_root(),
                    nice_tree_decomposition.spec_ordering().len(),
                ).len(),
            ) <= usize::MAX,
        ensures
            dp.wf(),
            dp.table().entries() == Map::<(TreeNode, EdgeList, Mapping), u64>::empty(),
            dp.ntd() == *nice_tree_decomposition,
            dp.target_graph() == *to_graph,
    {
        let ntd = nice_tree_decomposition;
        let generated = generate_possible_edges(ntd);
        let root: TreeNode = ntd.root();
        let order = ntd.stingy_ordering();
        let ghost depth = order@.len();
        assert(order@[depth - 1] == root);
        assert(ntd.spec_ordering().contains(root));
        let all: Vec<(usize, usize)> = copy_edges(generated.get(&root).unwrap());
        let mut possible_edges: HashMap<TreeNode, Vec<usize>> = HashMap::new();
        let mut i: usize = 0;
        while i < order.len()
            invariant
                i <= order.len(),
                ntd.nice(),
                order@ == ntd.spec_ordering(),
                depth == order@.len(),
                all@ == possible_edges_of(*ntd, ntd.spec_root(), depth),
                forall|p: TreeNode| #[trigger]
                    generated@.contains_key(p) <==> ntd.spec_ordering().contains(p),
                forall|p: TreeNode| #[trigger]
                    generated@.contains_key(p) ==> generated@[p]@ == possible_edges_of(
                        *ntd,
                        p,
                        depth,
                    ),
                forall|p: TreeNode| #[trigger]
                    possible_edges@.contains_key(p) <==> comes_before(order@, p, i as int),
                forall|p: TreeNode| #[trigger]
                    possible_edges@.contains_key(p) ==> indexes(
                        all@,
                        possible_edges_of(*ntd, p, depth),
                        possible_edges@[p]@,
                    ),
            decreases order.len() - i,
        {
            let x: TreeNode = order[i];
            assert(ntd.spec_ordering().contains(x));
            let edges = generated.get(&x).unwrap();
            let mut found: Vec<usize> = Vec::new();
            let mut k: usize = 0;
            while k < edges.len()
                invariant
                    k <= edges.len(),
                    0 <= i < order@.len(),
                    x == order@[i as int],
                    ntd.nice(),
                    order@ == ntd.spec_ordering(),
                    depth == order@.len(),
                    all@ == possible_edges_of(*ntd, ntd.spec_root(), depth),
                    edges@ == possible_edges_of(*ntd, x, depth),
                    found@.len() == k,
                    forall|m: int|
                        0 <= m < k ==> #[trigger] found@[m] < all@.len() && same_edge(
                            all@[found@[m] as int],
                            edges@[m],
                        ),
                decreases edges.len() - k,
            {
                match index_of_edge(&all, edges[k]) {
                    Some(index) => {
                        found.push(index);
                    },
                    None => {
                        proof {
                            assert(same_edge(edges@[k as int], edges@[k as int]));
                            lemma_possible_edges_reach_root(*ntd, order@, i as int, edges@[k as int]);
                        }
                        assert(false);
                    },
                }
                k = k + 1;
            }
            let ghost before = possible_edges@;
            possible_edges.insert(x, found);
            proof {
                assert forall|p: TreeNode| #[trigger]
                    possible_edges@.contains_key(p) <==> comes_before(order@, p, i + 1) by {
                    if comes_before(order@, p, i + 1) {
                        let j = choose|j: int| 0 <= j < i + 1 && j < order@.len() && order@[j] == p;
                        if j < i {
                            assert(comes_before(order@, p, i as int));
                        }
                    }
                    if before.contains_key(p) {
                        let j = choose|j: int| 0 <= j < i && j < order@.len() && order@[j] == p;
                        assert(0 <= j < i + 1 && j < order@.len() && order@[j] == p);
                    }
                    if p == x {
                        assert(0 <= i < i + 1 && i < order@.len() && order@[i as int] == p);
                    }
                }
            }
            i = i + 1;
        }
        let dp = DPData {
            rows: Table::new(to_graph, ntd),
            possible_edges,
            all_possible_edges: all,
        };
        proof {
            assert forall|p: TreeNode| #[trigger]
                dp.has_indices(p) <==> dp.ntd().spec_ordering().contains(p) by {
                if dp.ntd().spec_ordering().contains(p) {
                    let j = choose|j: int| 0 <= j < order@.len() && order@[j] == p;
                    assert(0 <= j < i && j < order@.len() && order@[j] == p);
                }
            }
        }
        dp
    }

    /// The entry of node `p`, edge set `e` and mapping `f`, if the table
    /// holds one.
    pub fn get(&self, p: &TreeNode, e: &EdgeList, f: &Mapping) -> (r: Option<&u64>)
        ensures
            match r {
                Some(v) => self.table().entries().contains_key((*p, *e, *f))
                    && self.table().entries()[(*p, *e, *f)] == *v,
                None => !self.table().entries().contains_key((*p, *e, *f)),
            },
    {
        self.rows.get(p, e, f)
    }

    /// Sets the entry of node `p`, edge set `e` and mapping `f` to `v`.
    pub fn set(&mut self, p: TreeNode, e: EdgeList, f: Mapping, v: u64)
        ensures
            final(self).table().entries() == old(self).table().entries().insert((p, e, f), v),
            final(self).same_context(old(self)),
    {
        self.rows.set(p, e, f, v);
    }

    /// Deletes the entries of node `p`.
    pub fn remove(&mut self, p: TreeNode)
        ensures
            final(self).table().entries() == without_node(old(self).table().entries(), p),
            final(self).same_context(old(self)),
    {
        self.rows.remove(p);
    }

    /// The image of the bag place of significance `s` under `f`, in the
    /// base of the target graph.
    pub fn table_apply(&self, f: Mapping, s: Mapping) -> (r: Mapping)
        requires
            self.target_graph().order() >= 1,
            power_of(self.target_graph().order(), s as nat) <= u64::MAX,
        ensures
            r == digit(self.target_graph().order(), f as nat, s as nat),
    {
        self.rows.table_apply(f, s)
    }

    /// The mapping `f` with the image `v` put in at significance `s`, in the
    /// base of the target graph.
    pub fn table_extend(&self, f: Mapping, s: Mapping, v: Mapping) -> (r: Mapping)
        requires
            self.target_graph().order() >= 1,
            power_of(self.target_graph().order(), s as nat) <= u64::MAX,
            insert_digit(self.target_graph().order(), f as nat, s as nat, v as nat) <= u64::MAX,
        ensures
            r == insert_digit(self.target_graph().order(), f as nat, s as nat, v as nat),
    {
        self.rows.table_extend(f, s, v)
    }

    /// The mapping `f` without its digit of significance `s`, in the base
    /// of the target graph.
    pub fn table_reduce(&self, f: Mapping, s: Mapping) -> (r: Mapping)
        requires
            self.target_graph().order() >= 1,
            power_of(self.target_graph().order(), s as nat + 1) <= u64::MAX,
        ensures
            r == remove_digit(self.target_graph().order(), f as nat, s as nat),
    {
        self.rows.table_reduce(f, s)
    }

    /// The number of mappings of the bag of `node` into the target graph.
    pub fn max_bag_mappings(&self, node: TreeNode) -> (r: Mapping)
        requires
            self.ntd().spec_data().contains_key(node),
            row_count(self.ntd(), self.target_graph(), node) <= u64::MAX,
        ensures
            r == row_count(self.ntd(), self.target_graph(), node),
    {
        self.rows.max_bag_mappings(node)
    }

    /// The bag of node `p` in increasing order: the place of a vertex in it
    /// is the significance of its image in a mapping.
    pub fn sorted_bag(&self, p: TreeNode) -> (r: Option<&Bag>)
        ensures
            match r {
                Some(b) => self.ntd().spec_data().contains_key(p) && b@ == self.ntd().spec_bag(p),
                None => !self.ntd().spec_data().contains_key(p),
            },
    {
        self.rows.sorted_bag(p)
    }

    /// The edge with the given index.
    pub fn index_to_edge(&self, index: &usize) -> (r: Option<&(usize, usize)>)
        ensures
            match r {
                Some(edge) => *index < self.all().len() && *edge == self.all()[*index as int],
                None => *index >= self.all().len(),
            },
    {
        if *index < self.all_possible_edges.len() {
            Some(&self.all_possible_edges[*index])
        } else {
            None
        }
    }

    /// The index of the given edge, whichever way round it is given.
    pub fn edge_to_index(&self, edge: &(usize, usize)) -> (r: Option<usize>)
        ensures
            match r {
                Some(i) => i < self.all().len() && same_edge(self.all()[i as int], *edge)
                    && forall|k: int| 0 <= k < i ==> !same_edge(#[trigger] self.all()[k], *edge),
                None => !lists_edge(self.all(), *edge),
            },
    {
        index_of_edge(&self.all_possible_edges, *edge)
    }

    /// All possible edges, each at the place of its index.
    pub fn all_possible_edges(&self) -> (r: &Vec<(usize, usize)>)
        ensures
            r@ == self.all(),
    {
        &self.all_possible_edges
    }

    /// The indices of the possible edges of node `p`.
    pub fn possible_edges(&self, p: TreeNode) -> (r: Option<&Vec<usize>>)
        ensures
            match r {
                Some(v) => self.has_indices(p) && v@ == self.indices(p),
                None => !self.has_indices(p),
            },
    {
        self.possible_edges.get(&p)
    }

    /// The set of the edges with the given indices, as an integer.
    pub fn edges_to_integer_representation(&self, edges: &Vec<usize>) -> (r: EdgeList)
        requires
            small_indices(edges@),
        ensures
            r == bits_of(edges@),
            forall|i: nat|
                has_bit(r, i) <==> exists|k: int| 0 <= k < edges@.len() && #[trigger] edges@[k] == i,
    {
        proof {
            assert forall|i: nat|
                has_bit(bits_of(edges@), i) <==> exists|k: int|
                    0 <= k < edges@.len() && #[trigger] edges@[k] == i by {
                lemma_bits_of(edges@, i);
            }
        }
        indices_to_bits(edges)
    }

    /// The intersection of two sets of edges.
    pub fn intersection(&self, edge_set_1: EdgeList, edge_set_2: EdgeList) -> (r: EdgeList)
        ensures
            r == edge_set_1 & edge_set_2,
            forall|i: nat| has_bit(r, i) <==> has_bit(edge_set_1, i) && has_bit(edge_set_2, i),
    {
        proof {
            assert forall|i: nat|
                has_bit(edge_set_1 & edge_set_2, i) <==> has_bit(edge_set_1, i) && has_bit(
                    edge_set_2,
                    i,
                ) by {
                lemma_and_bit(edge_set_1, edge_set_2, i);
            }
        }
        edge_set_1 & edge_set_2
    }

    /// The adjacency of the pattern graph with the edges of the set `e`.
    pub open spec fn pattern(&self, e: EdgeList) -> spec_fn(Vertex, Vertex) -> bool {
        pattern_of(self.all(), e)
    }

    /// The table after the first `i` nodes of the ordering were visited: it
    /// holds, for each live node and each set of the node's possible edges,
    /// the row of the pattern with these edges, and nothing else.
    pub open spec fn holds_live_rows(&self, i: int) -> bool {
        forall|k: (TreeNode, EdgeList, Mapping)|
            #![trigger self.table().entries().contains_key(k)]
            (self.table().entries().contains_key(k) <==> live(
                self.ntd(),
                self.ntd().spec_ordering(),
                k.0,
                i,
            ) && within(k.1, self.mask(k.0)) && k.2 < self.table().rows(k.0)) && (
            self.table().entries().contains_key(k) ==> self.table().entries()[k]
                == self.table().value(self.pattern(k.1), k.0, k.2 as nat, self.depth()))
    }

    /// For every set of edges, every row of the table fits into its
    /// integers.
    pub open spec fn all_counts_fit(&self) -> bool {
        forall|e: EdgeList|
            counts_fit(
                self.ntd(),
                #[trigger] self.pattern(e),
                self.target_graph(),
                self.ntd().spec_ordering(),
            )
    }

    /// The rows of the children of `p` are there, for every set of their
    /// possible edges.
    pub open spec fn children_ready(&self, p: TreeNode) -> bool {
        forall|m: int, e: EdgeList|
            #![trigger self.ntd().spec_children(p)[m], self.pattern(e)]
            0 <= m < self.ntd().spec_children(p).len() && within(
                e,
                self.mask(self.ntd().spec_children(p)[m]),
            ) ==> self.table().holds_row(
                self.ntd().spec_children(p)[m],
                e,
                self.pattern(e),
                self.depth(),
            )
    }
}

/// One of the first `t` subsets has the edge set `e`.
pub open spec fn listed(subsets: Seq<Vec<usize>>, t: int, e: EdgeList) -> bool {
    exists|u: int| 0 <= u < t && u < subsets.len() && e == bits_of((#[trigger] subsets[u])@)
}

/// The bits of the mask of a node are the indices of its possible edges.
pub proof fn lemma_mask_bits(dp: DPData, x: TreeNode, i: nat)
    requires
        dp.wf(),
        dp.ntd().spec_ordering().contains(x),
    ensures
        small_indices(dp.indices(x)),
        distinct_edges(dp.all()),
        has_bit(dp.mask(x), i) <==> i < dp.all().len() && lists_edge(dp.edges(x), dp.all()[i as int]),
{
    let order = dp.ntd().spec_ordering();
    let all = dp.all();
    let idx = dp.indices(x);
    let edges = dp.edges(x);
    assert(dp.has_indices(x));
    assert(indexes(all, edges, idx));
    assert(order[order.len() - 1] == dp.ntd().spec_root());
    lemma_possible_edges_distinct(dp.ntd(), order, order.len() - 1, order.len());
    assert(small_indices(idx)) by {
        assert forall|k: int| 0 <= k < idx.len() implies #[trigger] idx[k] < MAX_EDGES by {}
    }
    lemma_bits_of(idx, i);
    if has_bit(dp.mask(x), i) {
        let k = choose|k: int| 0 <= k < idx.len() && #[trigger] idx[k] == i;
        assert(same_edge(edges[k], all[i as int]));
    }
    if i < all.len() && lists_edge(edges, all[i as int]) {
        let k = choose|k: int| 0 <= k < edges.len() && same_edge(#[trigger] edges[k], all[i as int]);
        let other = idx[k];
        assert(same_edge(all[other as int], all[i as int]));
        if other < i {
            assert(!same_edge(all[other as int], all[i as int]));
        }
        if i < other {
            assert(!same_edge(all[i as int], all[other as int]));
        }
        assert(idx[k] == i);
    }
}

/// On the possible edges of node `x`, the pattern of the set `e` is the
/// pattern of the part of `e` among these edges.
pub proof fn lemma_pattern_restrict(dp: DPData, e: EdgeList, x: TreeNode, u: Vertex, v: Vertex)
    requires
        dp.wf(),
        dp.ntd().spec_ordering().contains(x),
        lists_edge(dp.edges(x), (u, v)),
    ensures
        dp.pattern(e)(u, v) == dp.pattern(e & dp.mask(x))(u, v),
{
    let all = dp.all();
    let part = e & dp.mask(x);
    if dp.pattern(e)(u, v) {
        let i = choose|i: int|
            0 <= i < all.len() && has_bit(e, i as nat) && same_edge(#[trigger] all[i], (u, v));
        let k = choose|k: int|
            0 <= k < dp.edges(x).len() && same_edge(#[trigger] dp.edges(x)[k], (u, v));
        assert(same_edge(dp.edges(x)[k], all[i]));
        lemma_mask_bits(dp, x, i as nat);
        lemma_and_bit(e, dp.mask(x), i as nat);
        assert(has_bit(part, i as nat) && same_edge(all[i], (u, v)));
    }
    if dp.pattern(part)(u, v) {
        let i = choose|i: int|
            0 <= i < all.len() && has_bit(part, i as nat) && same_edge(#[trigger] all[i], (u, v));
        lemma_and_bit(e, dp.mask(x), i as nat);
        assert(has_bit(e, i as nat) && same_edge(all[i], (u, v)));
    }
}

/// The row of a child for the part of the set `e` among the child's
/// possible edges is the child's row for the pattern of `e`.
pub proof fn lemma_child_row(dp: DPData, i: int, m: int, e: EdgeList)
    requires
        dp.wf(),
        0 <= i < dp.depth(),
        0 <= m < dp.ntd().spec_children(dp.ntd().spec_ordering()[i]).len(),
        dp.children_ready(dp.ntd().spec_ordering()[i]),
    ensures
        dp.table().holds_row(
            dp.ntd().spec_children(dp.ntd().spec_ordering()[i])[m],
            e & dp.mask(dp.ntd().spec_children(dp.ntd().spec_ordering()[i])[m]),
            dp.pattern(e),
            dp.depth(),
        ),
{
    let order = dp.ntd().spec_ordering();
    let p = order[i];
    let q = dp.ntd().spec_children(p)[m];
    let part = e & dp.mask(q);
    lemma_children_are_live(dp.ntd(), order, i, m);
    let j = choose|j: int| 0 <= j < i && j < order.len() && order[j] == q;
    assert(order.contains(q));
    assert(within(part, dp.mask(q))) by {
        assert forall|b: nat| has_bit(part, b) implies has_bit(dp.mask(q), b) by {
            lemma_and_bit(e, dp.mask(q), b);
        }
    }
    assert(dp.table().holds_row(dp.ntd().spec_children(p)[m], part, dp.pattern(part), dp.depth()));
    let t = dp.table();
    let first = dp.pattern(e);
    let second = dp.pattern(part);
    let depth = dp.depth();
    assert(t.holds_row(q, part, second, depth));
    assert forall|u: Vertex, v: Vertex|
        #![trigger first(u, v)]
        lists_edge(possible_edges_of(dp.ntd(), order[j], depth), (u, v)) implies first(u, v)
        == second(u, v) by {
        lemma_pattern_restrict(dp, e, q, u, v);
    }
    assert forall|f: Mapping| #[trigger]
        t.value(first, q, f as nat, depth) == t.value(second, q, f as nat, depth) by {
        lemma_extensions_local(
            dp.ntd(),
            first,
            second,
            dp.target_graph(),
            order,
            j,
            f as nat,
            depth,
        );
    }
    lemma_row_of_equal_values(t, q, part, first, second, depth);
}

/// A row for one pattern is a row for every pattern with the same
/// entries.
pub proof fn lemma_row_of_equal_values(
    t: Table,
    q: TreeNode,
    e: EdgeList,
    first: spec_fn(Vertex, Vertex) -> bool,
    second: spec_fn(Vertex, Vertex) -> bool,
    depth: nat,
)
    requires
        t.holds_row(q, e, second, depth),
        forall|f: Mapping| #[trigger]
            t.value(first, q, f as nat, depth) == t.value(second, q, f as nat, depth),
    ensures
        t.holds_row(q, e, first, depth),
{
    assert forall|f: Mapping|
        #![trigger t.entries().contains_key((q, e, f))]
        (t.entries().contains_key((q, e, f)) <==> f < t.rows(q)) && (f < t.rows(q)
            ==> t.entries()[(q, e, f)] == t.value(first, q, f as nat, depth)) by {
        assert(t.value(first, q, f as nat, depth) == t.value(second, q, f as nat, depth));
    }
}

/// Whether the pattern with the edges of the set `e` joins `u` and `v`.
pub fn edge_flag(all: &Vec<(usize, usize)>, e: EdgeList, u: Vertex, v: Vertex) -> (r: bool)
    requires
        distinct_edges(all@),
    ensures
        r == pattern_of(all@, e)(u, v),
{
    match index_of_edge(all, (u, v)) {
        Some(i) => {
            let r = bit_is_set(e, i);
            proof {
                if pattern_of(all@, e)(u, v) {
                    let k = choose|k: int|
                        0 <= k < all@.len() && has_bit(e, k as nat) && same_edge(
                            #[trigger] all@[k],
                            (u, v),
                        );
                    assert(same_edge(all@[k], all@[i as int]));
                    if k < i {
                        assert(!same_edge(all@[k], all@[i as int]));
                    }
                    if i < k {
                        assert(!same_edge(all@[i as int], all@[k]));
                    }
                }
                if r {
                    assert(has_bit(e, i as nat) && same_edge(all@[i as int], (u, v)));
                }
            }
            r
        },
        None => false,
    }
}

/// For each place of the bag, whether the pattern with the edges of the
/// set `e` joins the vertex there to `v`.
pub fn edge_flags(all: &Vec<(usize, usize)>, e: EdgeList, v: Vertex, bag: &Bag) -> (flags: Vec<
    bool,
>)
    requires
        distinct_edges(all@),
    ensures
        flags@.len() == bag@.len(),
        forall|k: int|
            0 <= k < flags@.len() ==> #[trigger] flags@[k] == pattern_of(all@, e)(v, bag@[k]),
{
    let mut flags: Vec<bool> = Vec::new();
    let mut k: usize = 0;
    while k < bag.len()
        invariant
            k <= bag.len(),
            distinct_edges(all@),
            flags@.len() == k,
            forall|j: int| 0 <= j < k ==> #[trigger] flags@[j] == pattern_of(all@, e)(v, bag@[j]),
        decreases bag.len() - k,
    {
        flags.push(edge_flag(all, e, v, bag[k]));
        k = k + 1;
    }
    flags
}

impl<'a> DPData<'a> {
    /// Fills the row of the node at place `i` of the ordering for the edge
    /// set `e`, from the rows of its children for the parts of `e` among
    /// their possible edges.
    fn fill_row(&mut self, p: TreeNode, e: EdgeList, Ghost(i): Ghost<int>)
        requires
            old(self).wf(),
            0 <= i < old(self).depth(),
            p == old(self).ntd().spec_ordering()[i],
            old(self).table().lacks_row(p, e),
            old(self).children_ready(p),
            counts_fit(
                old(self).ntd(),
                old(self).pattern(e),
                old(self).target_graph(),
                old(self).ntd().spec_ordering(),
            ),
        ensures
            final(self).same_context(old(self)),
            final(self).table().holds_row(p, e, old(self).pattern(e), old(self).depth() + 1),
            final(self).table().kept_but_row(&old(self).table(), p, e),
    {
        let ghost order = self.ntd().spec_ordering();
        let ghost depth = self.depth();
        let ghost pattern = self.pattern(e);
        let ghost before = *self;
        proof {
            assert(self.ntd().node_is_nice(order, i));
            assert(order.contains(p));
            lemma_row_fits(self.ntd(), pattern, self.target_graph(), order, i);
            lemma_mask_bits(*self, p, 0);
        }
        let ntd = self.rows.decomposition();
        match ntd.node_type(p) {
            None => {
                assert(false);
            },
            Some(NodeType::Leaf) => {
                let v: Vertex = ntd.unique_vertex_from_bags(p).unwrap();
                let looped: bool = edge_flag(&self.all_possible_edges, e, v, v);
                self.rows.fill_leaf(p, e, looped, Ghost(pattern), Ghost(depth + 1));
            },
            Some(NodeType::Introduce) => {
                let q: TreeNode = *ntd.unique_child(p).unwrap();
                proof {
                    lemma_children_are_live(self.ntd(), order, i, 0);
                    lemma_child_row(*self, i, 0, e);
                    assert(order.contains(q));
                    lemma_mask_bits(*self, q, 0);
                    assert(self.has_indices(q));
                }
                let v: Vertex = ntd.unique_vertex_from_bags(p).unwrap();
                let flags = edge_flags(&self.all_possible_edges, e, v, ntd.bag(p).unwrap());
                let below: EdgeList = e & indices_to_bits(self.possible_edges.get(&q).unwrap());
                self.rows.fill_introduce(p, q, e, below, &flags, Ghost(pattern), Ghost(depth));
            },
            Some(NodeType::Forget) => {
                let q: TreeNode = *ntd.unique_child(p).unwrap();
                proof {
                    lemma_children_are_live(self.ntd(), order, i, 0);
                    lemma_child_row(*self, i, 0, e);
                    assert(order.contains(q));
                    lemma_mask_bits(*self, q, 0);
                    assert(self.has_indices(q));
                }
                let below: EdgeList = e & indices_to_bits(self.possible_edges.get(&q).unwrap());
                self.rows.fill_forget(p, q, e, below, Ghost(pattern), Ghost(depth));
            },
            Some(NodeType::Join) => {
                let children = ntd.children(p).unwrap();
                let q1: TreeNode = children[0];
                let q2: TreeNode = children[1];
                proof {
                    lemma_children_are_live(self.ntd(), order, i, 0);
                    lemma_children_are_live(self.ntd(), order, i, 1);
                    lemma_child_row(*self, i, 0, e);
                    lemma_child_row(*self, i, 1, e);
                    assert(order.contains(q1));
                    assert(order.contains(q2));
                    lemma_mask_bits(*self, q1, 0);
                    lemma_mask_bits(*self, q2, 0);
                    assert(self.has_indices(q1));
                    assert(self.has_indices(q2));
                }
                let below1: EdgeList = e & indices_to_bits(self.possible_edges.get(&q1).unwrap());
                let below2: EdgeList = e & indices_to_bits(self.possible_edges.get(&q2).unwrap());
                self.rows.fill_join(p, q1, q2, e, below1, below2, Ghost(pattern), Ghost(depth));
            },
        }
    }
}

impl<'a> DPData<'a> {
    /// While the node `p` is visited and the first `t` subsets are done:
    /// the table holds for `p` the rows of these subsets, and for every
    /// other node what it held in `before`.
    pub open spec fn rows_listed(
        &self,
        before: &Self,
        p: TreeNode,
        subsets: Seq<Vec<usize>>,
        t: int,
    ) -> bool {
        forall|k: (TreeNode, EdgeList, Mapping)|
            #![trigger self.table().entries().contains_key(k)]
            if k.0 == p {
                (self.table().entries().contains_key(k) <==> listed(subsets, t, k.1) && k.2
                    < self.table().rows(p)) && (self.table().entries().contains_key(k)
                    ==> self.table().entries()[k] == self.table().value(
                    self.pattern(k.1),
                    p,
                    k.2 as nat,
                    self.depth() + 1,
                ))
            } else {
                (self.table().entries().contains_key(k) <==> before.table().entries().contains_key(
                    k,
                )) && (self.table().entries().contains_key(k) ==> self.table().entries()[k]
                    == before.table().entries()[k])
            }
    }

    /// After the node `p` was visited: the table holds for `p` the rows of
    /// all sets of its possible edges, nothing for its children, and for
    /// every other node what it held in `before`.
    pub open spec fn visited(&self, before: &Self, p: TreeNode) -> bool {
        forall|k: (TreeNode, EdgeList, Mapping)|
            #![trigger self.table().entries().contains_key(k)]
            if k.0 == p {
                (self.table().entries().contains_key(k) <==> within(k.1, self.mask(p)) && k.2
                    < self.table().rows(p)) && (self.table().entries().contains_key(k)
                    ==> self.table().entries()[k] == self.table().value(
                    self.pattern(k.1),
                    p,
                    k.2 as nat,
                    self.depth(),
                ))
            } else {
                (self.table().entries().contains_key(k) <==> before.table().entries().contains_key(
                    k,
                ) && !self.ntd().spec_children(p).contains(k.0)) && (
                self.table().entries().contains_key(k) ==> self.table().entries()[k]
                    == before.table().entries()[k])
            }
    }
}

/// While a node is visited, the rows of its children stay as they were.
pub proof fn lemma_children_stay_ready(
    now: DPData,
    before: DPData,
    i: int,
    subsets: Seq<Vec<usize>>,
    t: int,
)
    requires
        before.wf(),
        now.same_context(&before),
        0 <= i < before.depth(),
        before.holds_live_rows(i),
        now.rows_listed(&before, before.ntd().spec_ordering()[i], subsets, t),
    ensures
        now.children_ready(before.ntd().spec_ordering()[i]),
{
    let order = before.ntd().spec_ordering();
    let p = order[i];
    assert forall|m: int, e: EdgeList|
        #![trigger now.ntd().spec_children(p)[m], now.pattern(e)]
        0 <= m < now.ntd().spec_children(p).len() && within(
            e,
            now.mask(now.ntd().spec_children(p)[m]),
        ) implies now.table().holds_row(
        now.ntd().spec_children(p)[m],
        e,
        now.pattern(e),
        now.depth(),
    ) by {
        let q = now.ntd().spec_children(p)[m];
        lemma_children_are_live(before.ntd(), order, i, m);
        assert forall|f: Mapping|
            #![trigger now.table().entries().contains_key((q, e, f))]
            (now.table().entries().contains_key((q, e, f)) <==> f < now.table().rows(q)) && (f
                < now.table().rows(q) ==> now.table().entries()[(q, e, f)] == now.table().value(
                now.pattern(e),
                q,
                f as nat,
                now.depth(),
            )) by {
            assert(before.table().entries().contains_key((q, e, f)) <==> f < before.table().rows(
                q,
            ));
        }
    }
}

/// A row whose entry for the mapping 0 is missing is missing altogether.
pub proof fn lemma_row_absent(
    now: DPData,
    before: DPData,
    p: TreeNode,
    subsets: Seq<Vec<usize>>,
    t: int,
    e: EdgeList,
)
    requires
        now.rows_listed(&before, p, subsets, t),
        !now.table().entries().contains_key((p, e, 0)),
    ensures
        now.table().lacks_row(p, e),
{
    assert forall|f: Mapping| !#[trigger] now.table().entries().contains_key((p, e, f)) by {
        if now.table().entries().contains_key((p, e, f)) {
            assert(listed(subsets, t, e) && f < now.table().rows(p));
            assert(now.table().entries().contains_key((p, e, 0)));
        }
    }
}

/// A subset whose row is there already is done.
pub proof fn lemma_listed_again(
    now: DPData,
    before: DPData,
    p: TreeNode,
    subsets: Seq<Vec<usize>>,
    t: int,
)
    requires
        0 <= t < subsets.len(),
        now.rows_listed(&before, p, subsets, t),
        now.table().entries().contains_key((p, bits_of(subsets[t]@), 0)),
    ensures
        now.rows_listed(&before, p, subsets, t + 1),
{
    let e = bits_of(subsets[t]@);
    assert(listed(subsets, t, e));
    assert forall|k: (TreeNode, EdgeList, Mapping)| k.0 == p implies (listed(subsets, t + 1, k.1)
        <==> listed(subsets, t, k.1)) by {
        if listed(subsets, t + 1, k.1) {
            let u = choose|u: int|
                0 <= u < t + 1 && u < subsets.len() && k.1 == bits_of((#[trigger] subsets[u])@);
            if u == t {
                assert(k.1 == e);
            }
        }
        if listed(subsets, t, k.1) {
            let u = choose|u: int|
                0 <= u < t && u < subsets.len() && k.1 == bits_of((#[trigger] subsets[u])@);
            assert(0 <= u < t + 1 && u < subsets.len() && k.1 == bits_of(subsets[u]@));
        }
    }
}

/// A subset whose row was filled is done.
pub proof fn lemma_listed_next(
    now: DPData,
    mid: DPData,
    before: DPData,
    p: TreeNode,
    subsets: Seq<Vec<usize>>,
    t: int,
)
    requires
        0 <= t < subsets.len(),
        now.same_context(&mid),
        mid.rows_listed(&before, p, subsets, t),
        now.table().holds_row(
            p,
            bits_of(subsets[t]@),
            mid.pattern(bits_of(subsets[t]@)),
            mid.depth() + 1,
        ),
        now.table().kept_but_row(&mid.table(), p, bits_of(subsets[t]@)),
    ensures
        now.rows_listed(&before, p, subsets, t + 1),
{
    let e = bits_of(subsets[t]@);
    assert forall|k: (TreeNode, EdgeList, Mapping)|
        #![trigger now.table().entries().contains_key(k)]
        if k.0 == p {
            (now.table().entries().contains_key(k) <==> listed(subsets, t + 1, k.1) && k.2
                < now.table().rows(p)) && (now.table().entries().contains_key(k)
                ==> now.table().entries()[k] == now.table().value(
                now.pattern(k.1),
                p,
                k.2 as nat,
                now.depth() + 1,
            ))
        } else {
            (now.table().entries().contains_key(k) <==> before.table().entries().contains_key(k))
                && (now.table().entries().contains_key(k) ==> now.table().entries()[k]
                == before.table().entries()[k])
        } by {
        assert(mid.table().entries().contains_key(k) || !mid.table().entries().contains_key(k));
        if k.0 == p {
            if k.1 == e {
                assert(now.table().entries().contains_key((p, e, k.2)) <==> k.2
                    < now.table().rows(p));
                assert(0 <= t < t + 1 && t < subsets.len() && k.1 == bits_of(subsets[t]@));
            } else {
                if listed(subsets, t + 1, k.1) {
                    let u = choose|u: int|
                        0 <= u < t + 1 && u < subsets.len() && k.1 == bits_of(
                            (#[trigger] subsets[u])@,
                        );
                    assert(0 <= u < t && u < subsets.len() && k.1 == bits_of(subsets[u]@));
                }
                if listed(subsets, t, k.1) {
                    let u = choose|u: int|
                        0 <= u < t && u < subsets.len() && k.1 == bits_of((#[trigger] subsets[u])@);
                    assert(0 <= u < t + 1 && u < subsets.len() && k.1 == bits_of(subsets[u]@));
                }
            }
        }
    }
}

/// Once all subsets of the indices of a node are done, the node has the
/// rows of all sets of its possible edges.
pub proof fn lemma_all_listed(dp: DPData, p: TreeNode, subsets: Seq<Vec<usize>>, e: EdgeList)
    requires
        dp.wf(),
        dp.ntd().spec_ordering().contains(p),
        all_selections(dp.indices(p), subsets),
    ensures
        listed(subsets, subsets.len() as int, e) <==> within(e, dp.mask(p)),
{
    let idx = dp.indices(p);
    lemma_mask_bits(dp, p, 0);
    if listed(subsets, subsets.len() as int, e) {
        let u = choose|u: int|
            0 <= u < subsets.len() && u < subsets.len() && e == bits_of((#[trigger] subsets[u])@);
        assert(is_selection(idx, subsets[u]@));
        let keep = choose|keep: Seq<bool>|
            keep.len() == idx.len() && subsets[u]@ == #[trigger] pick(idx, keep);
        lemma_picked_is_subset(idx, keep);
    }
    if within(e, dp.mask(p)) {
        let keep = lemma_subset_is_picked(idx, e);
        assert(has_selection(subsets, pick(idx, keep)));
        let t = choose|t: int|
            0 <= t < subsets.len() && (#[trigger] subsets[t])@ == pick(idx, keep);
        assert(0 <= t < subsets.len() && t < subsets.len() && e == bits_of(subsets[t]@));
    }
}

/// Visiting the node at place `i` takes a table with the rows of the live
/// nodes to a table with the rows of the nodes that are live afterwards.
pub proof fn lemma_live_rows_step(now: DPData, before: DPData, i: int)
    requires
        before.wf(),
        now.same_context(&before),
        0 <= i < before.depth(),
        before.holds_live_rows(i),
        now.visited(&before, before.ntd().spec_ordering()[i]),
    ensures
        now.holds_live_rows(i + 1),
{
    let order = before.ntd().spec_ordering();
    let p = order[i];
    lemma_not_yet_visited(before.ntd(), order, i);
    assert forall|k: (TreeNode, EdgeList, Mapping)|
        #![trigger now.table().entries().contains_key(k)]
        (now.table().entries().contains_key(k) <==> live(now.ntd(), order, k.0, i + 1) && within(
            k.1,
            now.mask(k.0),
        ) && k.2 < now.table().rows(k.0)) && (now.table().entries().contains_key(k)
            ==> now.table().entries()[k] == now.table().value(
            now.pattern(k.1),
            k.0,
            k.2 as nat,
            now.depth(),
        )) by {
        lemma_live_step(before.ntd(), order, i, k.0);
        assert(before.table().entries().contains_key(k) <==> live(before.ntd(), order, k.0, i)
            && within(k.1, before.mask(k.0)) && k.2 < before.table().rows(k.0));
    }
}

/// Once all subsets are done and the rows of the children are deleted,
/// the node is visited.
pub proof fn lemma_visit_done(
    last: DPData,
    now: DPData,
    before: DPData,
    i: int,
    subsets: Seq<Vec<usize>>,
)
    requires
        before.wf(),
        now.same_context(&before),
        last.same_context(&before),
        0 <= i < before.depth(),
        now.rows_listed(&before, before.ntd().spec_ordering()[i], subsets, subsets.len() as int),
        all_selections(before.indices(before.ntd().spec_ordering()[i]), subsets),
        forall|k: (TreeNode, EdgeList, Mapping)|
            #![trigger last.table().entries().contains_key(k)]
            (last.table().entries().contains_key(k) <==> now.table().entries().contains_key(k)
                && !before.ntd().spec_children(before.ntd().spec_ordering()[i]).contains(k.0)) && (
            last.table().entries().contains_key(k) ==> last.table().entries()[k]
                == now.table().entries()[k]),
    ensures
        last.visited(&before, before.ntd().spec_ordering()[i]),
{
    let order = before.ntd().spec_ordering();
    let p = order[i];
    lemma_children_are_distinct(before.ntd(), order, i);
    assert forall|k: (TreeNode, EdgeList, Mapping)|
        #![trigger last.table().entries().contains_key(k)]
        if k.0 == p {
            (last.table().entries().contains_key(k) <==> within(k.1, last.mask(p)) && k.2
                < last.table().rows(p)) && (last.table().entries().contains_key(k)
                ==> last.table().entries()[k] == last.table().value(
                last.pattern(k.1),
                p,
                k.2 as nat,
                last.depth(),
            ))
        } else {
            (last.table().entries().contains_key(k) <==> before.table().entries().contains_key(k)
                && !last.ntd().spec_children(p).contains(k.0)) && (
            last.table().entries().contains_key(k) ==> last.table().entries()[k]
                == before.table().entries()[k])
        } by {
        assert(now.table().entries().contains_key(k) || !now.table().entries().contains_key(k));
        if k.0 == p {
            lemma_all_listed(before, p, subsets, k.1);
            lemma_depth_irrelevant(
                before.ntd(),
                before.pattern(k.1),
                before.target_graph(),
                order,
                i,
                k.2 as nat,
                before.depth(),
                before.depth() + 1,
            );
        }
    }
}

impl<'a> DPData<'a> {
    /// Visits the node at place `i` of the ordering: fills its rows for all
    /// sets of its possible edges and deletes the rows of its children.
    fn visit(&mut self, p: TreeNode, Ghost(i): Ghost<int>)
        requires
            old(self).wf(),
            0 <= i < old(self).depth(),
            p == old(self).ntd().spec_ordering()[i],
            old(self).holds_live_rows(i),
            old(self).all_counts_fit(),
        ensures
            final(self).same_context(old(self)),
            final(self).visited(old(self), p),
    {
        let ghost before = *self;
        let ghost order = self.ntd().spec_ordering();
        proof {
            assert(order.contains(p));
            assert(self.has_indices(p));
            lemma_mask_bits(*self, p, 0);
            lemma_possible_edges_length(self.ntd(), order, i);
            if self.indices(p).len() < self.all().len() {
                vstd::arithmetic::power2::lemma_pow2_strictly_increases(
                    self.indices(p).len(),
                    self.all().len(),
                );
            }
            lemma_not_yet_visited(self.ntd(), order, i);
        }
        let subsets: Vec<Vec<usize>> = powerset_of(self.possible_edges.get(&p).unwrap());
        let mut t: usize = 0;
        proof {
            assert forall|k: (TreeNode, EdgeList, Mapping)|
                #![trigger self.table().entries().contains_key(k)]
                k.0 == p implies !self.table().entries().contains_key(k) && !listed(
                subsets@,
                0,
                k.1,
            ) by {}
        }
        while t < subsets.len()
            invariant
                t <= subsets.len(),
                before.wf(),
                self.wf(),
                self.same_context(&before),
                0 <= i < before.depth(),
                order == before.ntd().spec_ordering(),
                p == order[i],
                before.holds_live_rows(i),
                before.all_counts_fit(),
                small_indices(before.indices(p)),
                all_selections(before.indices(p), subsets@),
                self.rows_listed(&before, p, subsets@, t as int),
            decreases subsets.len() - t,
        {
            proof {
                assert(is_selection(before.indices(p), subsets@[t as int]@));
                let keep = choose|keep: Seq<bool>|
                    keep.len() == before.indices(p).len() && subsets@[t as int]@ == #[trigger] pick(
                        before.indices(p),
                        keep,
                    );
                lemma_pick_small(before.indices(p), keep);
            }
            let e: EdgeList = indices_to_bits(&subsets[t]);
            let ghost mid = *self;
            if self.rows.get(&p, &e, &0).is_none() {
                proof {
                    lemma_row_absent(mid, before, p, subsets@, t as int, e);
                    lemma_children_stay_ready(mid, before, i, subsets@, t as int);
                    assert(before.pattern(e) == self.pattern(e));
                    assert(counts_fit(
                        before.ntd(),
                        before.pattern(e),
                        before.target_graph(),
                        before.ntd().spec_ordering(),
                    ));
                }
                self.fill_row(p, e, Ghost(i));
                proof {
                    lemma_listed_next(*self, mid, before, p, subsets@, t as int);
                }
            } else {
                proof {
                    lemma_listed_again(mid, before, p, subsets@, t as int);
                }
            }
            t = t + 1;
        }
        let ghost filled = *self;
        let ntd = self.rows.decomposition();
        proof {
            assert(self.ntd().node_is_nice(order, i));
        }
        match ntd.node_type(p) {
            Some(NodeType::Introduce) | Some(NodeType::Forget) => {
                let q: TreeNode = *ntd.unique_child(p).unwrap();
                self.rows.remove(q);
                assert(self.ntd().spec_children(p) =~= seq![q]);
                assert(seq![q][0] == q);
            },
            Some(NodeType::Join) => {
                let children = ntd.children(p).unwrap();
                let q1: TreeNode = children[0];
                let q2: TreeNode = children[1];
                self.rows.remove(q1);
                self.rows.remove(q2);
                assert(self.ntd().spec_children(p) =~= seq![q1, q2]);
                assert(seq![q1, q2][0] == q1);
                assert(seq![q1, q2][1] == q2);
            },
            _ => {
                assert(self.ntd().spec_children(p) =~= Seq::<TreeNode>::empty());
            },
        }
        proof {
            lemma_visit_done(*self, filled, before, i, subsets@);
        }
    }

    /// Runs the dynamic program: visits the nodes in the stingy ordering,
    /// fills the rows of each node from the rows of its children and
    /// deletes the children's rows at once. In the end the table holds, for
    /// each set of possible edges, the row of the root, and no entry of any
    /// other node.
    pub fn run(&mut self)
        requires
            old(self).wf(),
            old(self).table().entries() == Map::<(TreeNode, EdgeList, Mapping), u64>::empty(),
            old(self).all_counts_fit(),
        ensures
            final(self).same_context(old(self)),
            forall|k: (TreeNode, EdgeList, Mapping)|
                #![trigger final(self).table().entries().contains_key(k)]
                (final(self).table().entries().contains_key(k) <==> k.0 == old(
                    self,
                ).ntd().spec_root() && within(k.1, old(self).mask(k.0)) && k.2 < old(
                    self,
                ).table().rows(k.0)) && (final(self).table().entries().contains_key(k)
                    ==> final(self).table().entries()[k] == old(self).table().value(
                    old(self).pattern(k.1),
                    k.0,
                    k.2 as nat,
                    old(self).depth(),
                )),
    {
        let order = self.rows.decomposition().stingy_ordering();
        let ghost start = *self;
        let mut i: usize = 0;
        while i < order.len()
            invariant
                i <= order.len(),
                order@ == start.ntd().spec_ordering(),
                start.wf(),
                self.wf(),
                self.same_context(&start),
                self.all_counts_fit(),
                self.holds_live_rows(i as int),
            decreases order.len() - i,
        {
            let ghost before = *self;
            self.visit(order[i], Ghost(i as int));
            proof {
                lemma_live_rows_step(*self, before, i as int);
                assert forall|e: EdgeList|
                    counts_fit(
                        self.ntd(),
                        #[trigger] self.pattern(e),
                        self.target_graph(),
                        self.ntd().spec_ordering(),
                    ) by {
                    assert(before.pattern(e) == self.pattern(e));
                    assert(counts_fit(
                        before.ntd(),
                        before.pattern(e),
                        before.target_graph(),
                        before.ntd().spec_ordering(),
                    ));
                }
            }
            i = i + 1;
        }
        proof {
            lemma_only_root_is_live(*self);
        }
    }
}

/// After the whole ordering was visited, the root alone is live.
pub proof fn lemma_only_root_is_live(dp: DPData)
    requires
        dp.wf(),
    ensures
        forall|x: TreeNode|
            live(dp.ntd(), dp.ntd().spec_ordering(), x, dp.depth() as int) <==> x
                == dp.ntd().spec_root(),
{
    let order = dp.ntd().spec_ordering();
    let all = dp.depth() as int;
    let root = dp.ntd().spec_root();
    assert(order[all - 1] == root);
    lemma_live_step(dp.ntd(), order, all - 1, root);
    assert forall|x: TreeNode| live(dp.ntd(), order, x, all) implies x == root by {
        let j = choose|j: int| 0 <= j < all && j < order.len() && order[j] == x;
        if j < all - 1 {
            let pp = dp.ntd().spec_tree().spec_parents()[order[j]];
            assert(order.contains(pp));
            let m = choose|m: int| 0 <= m < order.len() && order[m] == pp;
            assert(comes_before(order, pp, all));
            assert(false);
        }
    }
}

/// The graph `g` has `number_of_vertices` vertices, as far as a graph can
/// have so many, and joins two of them exactly if the pattern does.
pub open spec fn has_pattern(
    g: Graph,
    number_of_vertices: nat,
    pattern: spec_fn(Vertex, Vertex) -> bool,
) -> bool {
    &&& g.order() == if number_of_vertices <= MAX_VERTEX {
        number_of_vertices
    } else {
        MAX_VERTEX as nat
    }
    &&& forall|x: usize, y: usize|
        #![trigger g.adjacent(x, y)]
        g.adjacent(x, y) <==> x < g.order() && y < g.order() && pattern(x, y)
}

impl<'a> DPData<'a> {
    /// The pattern graph with the edges of the set `edges`, on the
    /// vertices of the decomposition.
    pub fn edges_to_graph(&self, edges: EdgeList) -> (g: Graph)
        ensures
            has_pattern(g, self.ntd().spec_vertex_count() as nat, self.pattern(edges)),
    {
        let mut edge_list: Vec<(usize, usize)> = Vec::new();
        let mut i: usize = 0;
        while i < self.all_possible_edges.len()
            invariant
                i <= self.all().len(),
                forall|x: usize, y: usize|
                    #![trigger lists_edge(edge_list@, (x, y))]
                    lists_edge(edge_list@, (x, y)) <==> exists|k: int|
                        0 <= k < i && has_bit(edges, k as nat) && same_edge(
                            #[trigger] self.all()[k],
                            (x, y),
                        ),
            decreases self.all().len() - i,
        {
            let ghost before = edge_list@;
            if bit_is_set(edges, i) {
                edge_list.push(self.all_possible_edges[i]);
            }
            proof {
                assert forall|x: usize, y: usize|
                    #![trigger lists_edge(edge_list@, (x, y))]
                    lists_edge(edge_list@, (x, y)) <==> exists|k: int|
                        0 <= k < i + 1 && has_bit(edges, k as nat) && same_edge(
                            #[trigger] self.all()[k],
                            (x, y),
                        ) by {
                    assert(lists_edge(before, (x, y)) <==> exists|k: int|
                        0 <= k < i && has_bit(edges, k as nat) && same_edge(
                            #[trigger] self.all()[k],
                            (x, y),
                        ));
                    if lists_edge(before, (x, y)) {
                        let m = choose|m: int|
                            0 <= m < before.len() && same_edge(#[trigger] before[m], (x, y));
                        assert(same_edge(edge_list@[m], (x, y)));
                        let k = choose|k: int|
                            0 <= k < i && has_bit(edges, k as nat) && same_edge(
                                #[trigger] self.all()[k],
                                (x, y),
                            );
                        assert(0 <= k < i + 1 && has_bit(edges, k as nat) && same_edge(
                            self.all()[k],
                            (x, y),
                        ));
                    }
                    if lists_edge(edge_list@, (x, y)) {
                        let m = choose|m: int|
                            0 <= m < edge_list@.len() && same_edge(
                                #[trigger] edge_list@[m],
                                (x, y),
                            );
                        if m < before.len() {
                            assert(same_edge(before[m], (x, y)));
                        } else {
                            assert(has_bit(edges, i as nat) && same_edge(
                                self.all()[i as int],
                                (x, y),
                            ));
                        }
                    }
                    if exists|k: int|
                        0 <= k < i + 1 && has_bit(edges, k as nat) && same_edge(
                            #[trigger] self.all()[k],
                            (x, y),
                        ) {
                        let k = choose|k: int|
                            0 <= k < i + 1 && has_bit(edges, k as nat) && same_edge(
                                #[trigger] self.all()[k],
                                (x, y),
                            );
                        if k < i {
                            assert(lists_edge(before, (x, y)));
                        } else {
                            assert(same_edge(edge_list@[edge_list@.len() - 1], (x, y)));
                        }
                    }
                }
            }
            i = i + 1;
        }
        let g = graph_of_edges(self.rows.decomposition().vertex_count(), &edge_list);
        proof {
            assert forall|x: usize, y: usize|
                #![trigger g.adjacent(x, y)]
                g.adjacent(x, y) <==> x < g.order() && y < g.order() && self.pattern(edges)(
                    x,
                    y,
                ) by {
                assert(lists_edge(edge_list@, (x, y)) <==> self.pattern(edges)(x, y));
            }
        }
        g
    }
}

/// The count that is computed for the set of edges that a pattern graph
/// has among the possible edges is the number of homomorphisms from that
/// pattern graph: the program for all pattern graphs and the program for
/// one pattern graph agree.
pub proof fn lemma_count_of_pattern(
    from: Graph,
    ntd: NiceTreeDecomposition,
    to: Graph,
    e: EdgeList,
)
    requires
        ntd.nice(),
        forall|u: Vertex, v: Vertex|
            #![trigger from.adjacent(u, v)]
            lists_edge(
                possible_edges_of(ntd, ntd.spec_root(), ntd.spec_ordering().len()),
                (u, v),
            ) ==> pattern_of(
                possible_edges_of(ntd, ntd.spec_root(), ntd.spec_ordering().len()),
                e,
            )(u, v) == from.adjacent(u, v),
    ensures
        extensions(
            ntd,
            pattern_of(possible_edges_of(ntd, ntd.spec_root(), ntd.spec_ordering().len()), e),
            to,
            ntd.spec_root(),
            0,
            ntd.spec_ordering().len(),
        ) == homomorphism_count(from, ntd, to),
{
    let order = ntd.spec_ordering();
    let all = possible_edges_of(ntd, ntd.spec_root(), order.len());
    let first = pattern_of(all, e);
    let second = adjacency(from);
    assert(order[order.len() - 1] == ntd.spec_root());
    assert forall|u: Vertex, v: Vertex|
        #![trigger first(u, v)]
        lists_edge(possible_edges_of(ntd, order[order.len() - 1], order.len()), (u, v))
        implies first(u, v) == second(u, v) by {
        assert(first(u, v) == from.adjacent(u, v));
    }
    lemma_extensions_local(ntd, first, second, to, order, order.len() - 1, 0, order.len());
}

/// The pair `answer` is the pattern graph with the edges of the set `e`
/// and the number of homomorphisms from it into the target graph.
pub open spec fn is_answer(
    ntd: NiceTreeDecomposition,
    to: Graph,
    answer: (Graph, u64),
    e: EdgeList,
) -> bool {
    let all = possible_edges_of(ntd, ntd.spec_root(), ntd.spec_ordering().len());
    &&& has_pattern(answer.0, ntd.spec_vertex_count() as nat, pattern_of(all, e))
    &&& answer.1 == extensions(
        ntd,
        pattern_of(all, e),
        to,
        ntd.spec_root(),
        0,
        ntd.spec_ordering().len(),
    )
}

/// The pair `answer` is the answer for some set of edges.
pub open spec fn is_some_answer(ntd: NiceTreeDecomposition, to: Graph, answer: (Graph, u64)) -> bool {
    exists|e: EdgeList| #[trigger] is_answer(ntd, to, answer, e)
}

/// One of the answers is the answer for the set `e`.
pub open spec fn has_answer(
    ntd: NiceTreeDecomposition,
    to: Graph,
    answers: Seq<(Graph, u64)>,
    e: EdgeList,
) -> bool {
    exists|t: int| 0 <= t < answers.len() && is_answer(ntd, to, #[trigger] answers[t], e)
}

/// An answer for the part of a set among the possible edges is an answer
/// for the set.
pub proof fn lemma_answer_of_part(dp: DPData, answer: (Graph, u64), e: EdgeList)
    requires
        dp.wf(),
        is_answer(dp.ntd(), dp.target_graph(), answer, e & dp.mask(dp.ntd().spec_root())),
    ensures
        is_answer(dp.ntd(), dp.target_graph(), answer, e),
{
    let ntd = dp.ntd();
    let order = ntd.spec_ordering();
    let root = ntd.spec_root();
    let all = dp.all();
    let part = e & dp.mask(root);
    let first = pattern_of(all, e);
    let second = pattern_of(all, part);
    assert(order[order.len() - 1] == root);
    assert(order.contains(root));
    assert forall|u: Vertex, v: Vertex| #![trigger first(u, v)] first(u, v) == second(u, v) by {
        if lists_edge(all, (u, v)) {
            lemma_pattern_restrict(dp, e, root, u, v);
        } else {
            if first(u, v) {
                let i = choose|i: int|
                    0 <= i < all.len() && has_bit(e, i as nat) && same_edge(
                        #[trigger] all[i],
                        (u, v),
                    );
                assert(false);
            }
            if second(u, v) {
                let i = choose|i: int|
                    0 <= i < all.len() && has_bit(part, i as nat) && same_edge(
                        #[trigger] all[i],
                        (u, v),
                    );
                assert(false);
            }
        }
    }
    lemma_extensions_local(
        ntd,
        first,
        second,
        dp.target_graph(),
        order,
        order.len() - 1,
        0,
        order.len(),
    );
    assert forall|x: usize, y: usize|
        #![trigger answer.0.adjacent(x, y)]
        answer.0.adjacent(x, y) <==> x < answer.0.order() && y < answer.0.order() && first(
            x,
            y,
        ) by {
        assert(first(x, y) == second(x, y));
    }
}

/// For every set of possible edges of the decomposition, the pattern graph
/// with these edges and the entry of the root for this set and the empty
/// mapping, which is the number of homomorphisms from the pattern graph
/// into the target graph if the decomposition is a nice tree decomposition
/// of its vertices and the edges of the target graph have no direction.
pub fn equivalence_class_algorithm(ntd: &NiceTreeDecomposition, to_graph: &Graph) -> (answers: Vec<
    (Graph, u64),
>)
    requires
        ntd.nice(),
        possible_edges_of(*ntd, ntd.spec_root(), ntd.spec_ordering().len()).len() <= MAX_EDGES,
        pow2(possible_edges_of(*ntd, ntd.spec_root(), ntd.spec_ordering().len()).len())
            <= usize::MAX,
        forall|e: EdgeList|
            counts_fit(
                *ntd,
                #[trigger] pattern_of(
                    possible_edges_of(*ntd, ntd.spec_root(), ntd.spec_ordering().len()),
                    e,
                ),
                *to_graph,
                ntd.spec_ordering(),
            ),
        row_count(*ntd, *to_graph, ntd.spec_root()) > 0,
    ensures
        answers@.len() == pow2(
            possible_edges_of(*ntd, ntd.spec_root(), ntd.spec_ordering().len()).len(),
        ),
        forall|t: int|
            0 <= t < answers@.len() ==> is_some_answer(*ntd, *to_graph, #[trigger] answers@[t]),
        forall|e: EdgeList| #[trigger] has_answer(*ntd, *to_graph, answers@, e),
        decomposes_vertices(*ntd) && symmetric(*to_graph) ==> forall|t: int|
            0 <= t < answers@.len() ==> (#[trigger] answers@[t]).1 == homomorphisms(
                answers@[t].0,
                *to_graph,
            ),
{
    let mut dpdata = DPData::new(ntd, to_graph);
    proof {
        assert forall|e: EdgeList|
            counts_fit(
                dpdata.ntd(),
                #[trigger] dpdata.pattern(e),
                dpdata.target_graph(),
                dpdata.ntd().spec_ordering(),
            ) by {
            assert(dpdata.pattern(e) == pattern_of(
                possible_edges_of(*ntd, ntd.spec_root(), ntd.spec_ordering().len()),
                e,
            ));
        }
    }
    let ghost start = dpdata;
    dpdata.run();
    let root: TreeNode = ntd.root();
    let ghost order = ntd.spec_ordering();
    proof {
        assert(order[order.len() - 1] == root);
        assert(order.contains(root));
        assert(dpdata.has_indices(root));
        lemma_mask_bits(dpdata, root, 0);
    }
    let subsets = powerset_of(dpdata.possible_edges(root).unwrap());
    let mut answers: Vec<(Graph, u64)> = Vec::new();
    let mut t: usize = 0;
    while t < subsets.len()
        invariant
            t <= subsets.len(),
            dpdata.wf(),
            dpdata.same_context(&start),
            start.ntd() == *ntd,
            start.target_graph() == *to_graph,
            root == ntd.spec_root(),
            order == ntd.spec_ordering(),
            order.contains(root),
            row_count(*ntd, *to_graph, ntd.spec_root()) > 0,
            small_indices(dpdata.indices(root)),
            all_selections(dpdata.indices(root), subsets@),
            forall|k: (TreeNode, EdgeList, Mapping)|
                #![trigger dpdata.table().entries().contains_key(k)]
                (dpdata.table().entries().contains_key(k) <==> k.0 == root && within(
                    k.1,
                    start.mask(k.0),
                ) && k.2 < start.table().rows(k.0)) && (dpdata.table().entries().contains_key(k)
                    ==> dpdata.table().entries()[k] == start.table().value(
                    start.pattern(k.1),
                    k.0,
                    k.2 as nat,
                    start.depth(),
                )),
            answers@.len() == t,
            forall|u: int|
                0 <= u < t ==> is_answer(
                    *ntd,
                    *to_graph,
                    #[trigger] answers@[u],
                    bits_of(subsets@[u]@),
                ),
        decreases subsets.len() - t,
    {
        proof {
            assert(is_selection(dpdata.indices(root), subsets@[t as int]@));
            let keep = choose|keep: Seq<bool>|
                keep.len() == dpdata.indices(root).len() && subsets@[t as int]@ == #[trigger] pick(
                    dpdata.indices(root),
                    keep,
                );
            lemma_pick_small(dpdata.indices(root), keep);
            lemma_picked_is_subset(dpdata.indices(root), keep);
        }
        let e: EdgeList = indices_to_bits(&subsets[t]);
        assert(dpdata.table().entries().contains_key((root, e, 0)));
        let count: u64 = *dpdata.get(&root, &e, &0).unwrap();
        let graph = dpdata.edges_to_graph(e);
        answers.push((graph, count));
        t = t + 1;
    }
    proof {
        assert forall|u: int| 0 <= u < answers@.len() implies is_some_answer(
            *ntd,
            *to_graph,
            #[trigger] answers@[u],
        ) by {
            assert(is_answer(*ntd, *to_graph, answers@[u], bits_of(subsets@[u]@)));
        }
        assert forall|e: EdgeList| #[trigger] has_answer(*ntd, *to_graph, answers@, e) by {
            let part = e & dpdata.mask(root);
            assert(within(part, dpdata.mask(root))) by {
                assert forall|b: nat| has_bit(part, b) implies has_bit(dpdata.mask(root), b) by {
                    lemma_and_bit(e, dpdata.mask(root), b);
                }
            }
            lemma_all_listed(dpdata, root, subsets@, part);
            let u = choose|u: int|
                0 <= u < subsets@.len() && u < subsets@.len() && part == bits_of(
                    (#[trigger] subsets@[u])@,
                );
            assert(is_answer(*ntd, *to_graph, answers@[u], part));
            lemma_answer_of_part(dpdata, answers@[u], e);
        }
        if decomposes_vertices(*ntd) && symmetric(*to_graph) {
            assert forall|u: int| 0 <= u < answers@.len() implies (#[trigger] answers@[u]).1
                == homomorphisms(answers@[u].0, *to_graph) by {
                assert(is_some_answer(*ntd, *to_graph, answers@[u]));
                lemma_answer_counts_homomorphisms(*ntd, *to_graph, answers@[u]);
            }
        }
    }
    answers
}

} // verus!
