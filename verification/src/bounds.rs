//! How large the entries of the table can get, and the dynamic programs
//! behind a check of all that they need: a pattern vertex that is
//! forgotten multiplies the number of mappings by at most the number of
//! target vertices, so no entry is larger than that number to the power of
//! the forget nodes of the decomposition.

use crate::all_patterns::decomposes_vertices;
use crate::brute_force::homomorphisms;
use crate::diaz::diaz;
use crate::diaz::homomorphism_count;
use crate::dynamic_program::adjacency;
use crate::dynamic_program::counts_fit;
use crate::dynamic_program::extensions;
use crate::dynamic_program::forget_sum;
use crate::dynamic_program::row_count;
use crate::edge_sets::EdgeList;
use crate::edge_sets::MAX_EDGES;
use crate::equivalence_class_algorithm::equivalence_class_algorithm;
use crate::equivalence_class_algorithm::has_answer;
use crate::equivalence_class_algorithm::is_some_answer;
use crate::equivalence_class_algorithm::pattern_of;
use crate::graph_generation::copy_edges;
use crate::graph_generation::generate_graphs;
use crate::graph_generation::generate_possible_edges;
use crate::graph_generation::has_selected_graph;
use crate::graph_generation::is_selected_graph;
use crate::graph_generation::is_some_selected_graph;
use crate::graph_generation::possible_edges_of;
use crate::graphs::symmetric;
use crate::graphs::Graph;
use crate::integer_functions::insert_digit;
use crate::integer_functions::lemma_power_monotonic;
use crate::integer_functions::lemma_power_step;
use crate::integer_functions::power_of;
use crate::integer_functions::Mapping;
use crate::nice_tree_decomposition::comes_before;
use crate::soundness::decomposes;
use crate::nice_tree_decomposition::rank_of;
use crate::nice_tree_decomposition::unique_vertex_of;
use crate::nice_tree_decomposition::NiceTreeDecomposition;
use crate::nice_tree_decomposition::NodeType;
use crate::tree_decompositions::TreeNode;
use crate::tree_decompositions::Vertex;
use std::collections::HashMap;
use vstd::arithmetic::power2::pow2;
use vstd::prelude::*;
use vstd::std_specs::hash::group_hash_axioms;

verus! {

broadcast use group_hash_axioms;

/// The number of forget nodes in the subtree of node `p`, fewer than
/// `depth` levels down.
pub open spec fn forget_count(ntd: NiceTreeDecomposition, p: TreeNode, depth: nat) -> nat
    decreases depth,
{
    let c = ntd.spec_children(p);
    if depth == 0 {
        0
    } else {
        match ntd.spec_node_type(p) {
            Some(NodeType::Introduce) => forget_count(ntd, c[0], (depth - 1) as nat),
            Some(NodeType::Forget) => forget_count(ntd, c[0], (depth - 1) as nat) + 1,
            Some(NodeType::Join) => forget_count(ntd, c[0], (depth - 1) as nat) + forget_count(
                ntd,
                c[1],
                (depth - 1) as nat,
            ),
            _ => 0,
        }
    }
}

/// The largest entry that a node with `k` forget nodes in its subtree can
/// have for a target graph with `n` vertices.
pub open spec fn largest_entry(n: nat, k: nat) -> nat {
    if n == 0 {
        1
    } else {
        power_of(n, k)
    }
}

/// The number of forget nodes of a node does not depend on the depth
/// allowed, once the depth is more than the node's place in a valid order.
pub proof fn lemma_forget_count_depth(
    ntd: NiceTreeDecomposition,
    order: Seq<TreeNode>,
    j: int,
    d1: nat,
    d2: nat,
)
    requires
        ntd.valid_order(order),
        0 <= j < order.len(),
        d1 > j,
        d2 > j,
    ensures
        forget_count(ntd, order[j], d1) == forget_count(ntd, order[j], d2),
    decreases j,
{
    let p = order[j];
    let c = ntd.spec_children(p);
    assert(ntd.node_is_nice(order, j));
    match ntd.spec_node_type(p) {
        Some(NodeType::Introduce) | Some(NodeType::Forget) => {
            let k = choose|k: int| 0 <= k < j && k < order.len() && order[k] == c[0];
            lemma_forget_count_depth(ntd, order, k, (d1 - 1) as nat, (d2 - 1) as nat);
        },
        Some(NodeType::Join) => {
            let k0 = choose|k: int| 0 <= k < j && k < order.len() && order[k] == c[0];
            let k1 = choose|k: int| 0 <= k < j && k < order.len() && order[k] == c[1];
            lemma_forget_count_depth(ntd, order, k0, (d1 - 1) as nat, (d2 - 1) as nat);
            lemma_forget_count_depth(ntd, order, k1, (d1 - 1) as nat, (d2 - 1) as nat);
        },
        _ => {},
    }
}

/// The largest entry is at least 1 and grows with the number of forget
/// nodes.
pub proof fn lemma_largest_entry(n: nat, k: nat, more: nat)
    requires
        k <= more,
    ensures
        1 <= largest_entry(n, k) <= largest_entry(n, more),
        largest_entry(n, k + 1) >= n * largest_entry(n, k),
{
    if n >= 1 {
        lemma_power_step(n, k);
        lemma_power_monotonic(n, k, more);
    }
}

/// The largest entry for the forget nodes of two subtrees together is the
/// product of the largest entries for each.
pub proof fn lemma_largest_entry_product(n: nat, first: nat, second: nat)
    ensures
        largest_entry(n, first + second) == largest_entry(n, first) * largest_entry(n, second),
{
    if n >= 1 {
        crate::integer_functions::lemma_power_split(n, first, first + second);
        assert((first + second - first) as nat == second);
    }
}

/// No entry of a node is larger than the number of target vertices to the
/// power of the forget nodes in the node's subtree.
pub proof fn lemma_extensions_bound(
    ntd: NiceTreeDecomposition,
    pattern: spec_fn(Vertex, Vertex) -> bool,
    to: Graph,
    order: Seq<TreeNode>,
    j: int,
    f: nat,
    depth: nat,
)
    requires
        ntd.valid_order(order),
        0 <= j < order.len(),
        depth > j,
    ensures
        extensions(ntd, pattern, to, order[j], f, depth) <= largest_entry(
            to.order(),
            forget_count(ntd, order[j], depth),
        ),
    decreases j, 0nat,
{
    let p = order[j];
    let c = ntd.spec_children(p);
    let n = to.order();
    let below = (depth - 1) as nat;
    assert(ntd.node_is_nice(order, j));
    let unique = unique_vertex_of(ntd.spec_tree(), ntd.spec_data(), p);
    lemma_largest_entry(n, forget_count(ntd, p, depth), forget_count(ntd, p, depth));
    match ntd.spec_node_type(p) {
        Some(NodeType::Introduce) => {
            if unique is Some {
                let s = rank_of(ntd.spec_bag(c[0]), unique->0);
                let k = choose|k: int| 0 <= k < j && k < order.len() && order[k] == c[0];
                lemma_extensions_bound(
                    ntd,
                    pattern,
                    to,
                    order,
                    k,
                    crate::integer_functions::remove_digit(n, f, s),
                    below,
                );
            }
        },
        Some(NodeType::Forget) => {
            if unique is Some {
                let s = rank_of(ntd.spec_bag(c[0]), unique->0);
                let k = choose|k: int| 0 <= k < j && k < order.len() && order[k] == c[0];
                lemma_forget_sum_bound(ntd, pattern, to, order, k, f, s, n, below);
                lemma_largest_entry(n, forget_count(ntd, c[0], below), forget_count(ntd, c[0], below));
            }
        },
        Some(NodeType::Join) => {
            let k0 = choose|k: int| 0 <= k < j && k < order.len() && order[k] == c[0];
            let k1 = choose|k: int| 0 <= k < j && k < order.len() && order[k] == c[1];
            lemma_extensions_bound(ntd, pattern, to, order, k0, f, below);
            lemma_extensions_bound(ntd, pattern, to, order, k1, f, below);
            let a = extensions(ntd, pattern, to, c[0], f, below);
            let b = extensions(ntd, pattern, to, c[1], f, below);
            let la = largest_entry(n, forget_count(ntd, c[0], below));
            let lb = largest_entry(n, forget_count(ntd, c[1], below));
            lemma_largest_entry_product(
                n,
                forget_count(ntd, c[0], below),
                forget_count(ntd, c[1], below),
            );
            assert(a * b <= la * lb) by (nonlinear_arith)
                requires
                    0 <= a <= la,
                    0 <= b <= lb,
            ;
        },
        _ => {},
    }
}

/// The sum at a forget node over `count` target vertices is at most
/// `count` times the largest entry of the child.
pub proof fn lemma_forget_sum_bound(
    ntd: NiceTreeDecomposition,
    pattern: spec_fn(Vertex, Vertex) -> bool,
    to: Graph,
    order: Seq<TreeNode>,
    k: int,
    f: nat,
    s: nat,
    count: nat,
    depth: nat,
)
    requires
        ntd.valid_order(order),
        0 <= k < order.len(),
        depth > k,
    ensures
        forget_sum(ntd, pattern, to, order[k], f, s, count, depth) <= count * largest_entry(
            to.order(),
            forget_count(ntd, order[k], depth),
        ),
    decreases k, count + 1,
{
    let largest = largest_entry(to.order(), forget_count(ntd, order[k], depth));
    if count > 0 {
        lemma_forget_sum_bound(ntd, pattern, to, order, k, f, s, (count - 1) as nat, depth);
        lemma_extensions_bound(
            ntd,
            pattern,
            to,
            order,
            k,
            insert_digit(to.order(), f, s, (count - 1) as nat),
            depth,
        );
        assert((count - 1) * largest + largest == count * largest) by (nonlinear_arith);
    } else {
        assert(0 * largest == 0);
    }
}

/// A node of a valid order has at most as many forget nodes in its
/// subtree as the root.
pub proof fn lemma_forget_count_grows(ntd: NiceTreeDecomposition, order: Seq<TreeNode>, j: int)
    requires
        ntd.wf(),
        ntd.valid_order(order),
        0 <= j < order.len(),
    ensures
        forget_count(ntd, order[j], order.len()) <= forget_count(
            ntd,
            ntd.spec_root(),
            order.len(),
        ),
    decreases order.len() - j,
{
    if j < order.len() - 1 {
        let x = order[j];
        let pp = ntd.spec_tree().spec_parents()[x];
        assert(order.contains(pp));
        let i = choose|i: int| 0 <= i < order.len() && order[i] == pp;
        assert(ntd.spec_tree().spec_children(pp).contains(x));
        let m = choose|m: int| 0 <= m < ntd.spec_children(pp).len() && ntd.spec_children(pp)[m] == x;
        assert(ntd.node_is_nice(order, i));
        assert(comes_before(order, x, i));
        let j2 = choose|j2: int| 0 <= j2 < i && j2 < order.len() && order[j2] == x;
        assert(j2 == j);
        lemma_forget_count_depth(ntd, order, j, order.len(), (order.len() - 1) as nat);
        lemma_forget_count_grows(ntd, order, i);
    }
}

/// The table surely fits into its integers: the number of target vertices
/// to the power of the forget nodes of the decomposition is at most
/// `u64::MAX`, and so is the number of mappings of every bag.
pub open spec fn surely_fits(ntd: NiceTreeDecomposition, to: Graph) -> bool {
    &&& largest_entry(
        to.order(),
        forget_count(ntd, ntd.spec_root(), ntd.spec_ordering().len()),
    ) <= u64::MAX
    &&& forall|i: int|
        0 <= i < ntd.spec_ordering().len() ==> row_count(ntd, to, #[trigger] ntd.spec_ordering()[i])
            <= u64::MAX
}

/// A table that surely fits does fit, whatever the pattern.
pub proof fn lemma_surely_fits(
    ntd: NiceTreeDecomposition,
    pattern: spec_fn(Vertex, Vertex) -> bool,
    to: Graph,
)
    requires
        ntd.nice(),
        surely_fits(ntd, to),
    ensures
        counts_fit(ntd, pattern, to, ntd.spec_ordering()),
{
    let order = ntd.spec_ordering();
    assert forall|i: int| 0 <= i < order.len() implies row_count(ntd, to, #[trigger] order[i])
        <= u64::MAX && forall|f: Mapping|
        f < row_count(ntd, to, order[i]) ==> #[trigger] extensions(
            ntd,
            pattern,
            to,
            order[i],
            f as nat,
            order.len(),
        ) <= u64::MAX by {
        assert forall|f: Mapping| f < row_count(ntd, to, order[i]) implies #[trigger] extensions(
            ntd,
            pattern,
            to,
            order[i],
            f as nat,
            order.len(),
        ) <= u64::MAX by {
            lemma_extensions_bound(ntd, pattern, to, order, i, f as nat, order.len());
            lemma_forget_count_grows(ntd, order, i);
            lemma_largest_entry(
                to.order(),
                forget_count(ntd, order[i], order.len()),
                forget_count(ntd, ntd.spec_root(), order.len()),
            );
        }
    }
}

/// `n` to the power `e`, if it is at most `u64::MAX`.
pub fn checked_power(n: u64, e: u64) -> (r: Option<u64>)
    ensures
        match r {
            Some(v) => v == power_of(n as nat, e as nat),
            None => power_of(n as nat, e as nat) > u64::MAX,
        },
{
    if n == 0 {
        if e == 0 {
            proof {
                lemma_power_step(0, 0);
            }
            Some(1)
        } else {
            proof {
                vstd::arithmetic::power::lemma0_pow(e as nat);
            }
            Some(0)
        }
    } else if n == 1 {
        proof {
            vstd::arithmetic::power::lemma1_pow(e as nat);
        }
        Some(1)
    } else {
        let mut r: u64 = 1;
        let mut i: u64 = 0;
        proof {
            lemma_power_step(n as nat, 0);
        }
        while i < e
            invariant
                n >= 2,
                i <= e,
                r == power_of(n as nat, i as nat),
            decreases e - i,
        {
            proof {
                lemma_power_step(n as nat, i as nat);
                lemma_power_monotonic(n as nat, (i + 1) as nat, e as nat);
            }
            match r.checked_mul(n) {
                None => {
                    assert(n * power_of(n as nat, i as nat) == r * n) by (nonlinear_arith)
                        requires
                            r == power_of(n as nat, i as nat),
                    ;
                    return None;
                },
                Some(next) => {
                    assert(n * power_of(n as nat, i as nat) == r * n) by (nonlinear_arith)
                        requires
                            r == power_of(n as nat, i as nat),
                    ;
                    r = next;
                },
            }
            i = i + 1;
        }
        Some(r)
    }
}

/// A base of at least 2 to the power 64 is more than `u64::MAX`.
pub proof fn lemma_power_outgrows(n: nat, k: nat)
    requires
        n >= 2,
    ensures
        power_of(n, k) >= pow2(k),
    decreases k,
{
    lemma_power_step(n, 0);
    vstd::arithmetic::power2::lemma2_to64();
    if k > 0 {
        lemma_power_outgrows(n, (k - 1) as nat);
        lemma_power_step(n, (k - 1) as nat);
        vstd::arithmetic::power2::lemma_pow2_unfold(k);
        assert(n * power_of(n, (k - 1) as nat) >= 2 * pow2((k - 1) as nat)) by (nonlinear_arith)
            requires
                n >= 2,
                power_of(n, (k - 1) as nat) >= pow2((k - 1) as nat),
                pow2((k - 1) as nat) >= 0,
        ;
    }
}

/// The number `k`, but at most 64.
pub open spec fn capped(k: nat) -> nat {
    if k <= 64 {
        k
    } else {
        64
    }
}

/// The number of forget nodes of the decomposition, but at most 64.
fn capped_forget_count(ntd: &NiceTreeDecomposition) -> (r: u64)
    requires
        ntd.nice(),
    ensures
        r == capped(forget_count(*ntd, ntd.spec_root(), ntd.spec_ordering().len())),
{
    let order = ntd.stingy_ordering();
    let ghost all = order@.len();
    let mut counts: HashMap<TreeNode, u64> = HashMap::new();
    let mut i: usize = 0;
    while i < order.len()
        invariant
            i <= order.len(),
            order@ == ntd.spec_ordering(),
            all == order@.len(),
            ntd.nice(),
            forall|p: TreeNode| #[trigger]
                counts@.contains_key(p) <==> comes_before(order@, p, i as int),
            forall|p: TreeNode| #[trigger]
                counts@.contains_key(p) ==> counts@[p] == capped(forget_count(*ntd, p, all)),
        decreases order.len() - i,
    {
        let p: TreeNode = order[i];
        let ghost before = counts@;
        proof {
            assert(ntd.node_is_nice(order@, i as int));
            lemma_forget_count_depth(*ntd, order@, i as int, all, all + 1);
        }
        let count: u64 = match ntd.node_type(p) {
            Some(NodeType::Introduce) => {
                let q: TreeNode = *ntd.unique_child(p).unwrap();
                assert(counts@.contains_key(q));
                *counts.get(&q).unwrap()
            },
            Some(NodeType::Forget) => {
                let q: TreeNode = *ntd.unique_child(p).unwrap();
                assert(counts@.contains_key(q));
                let below: u64 = *counts.get(&q).unwrap();
                if below < 64 {
                    below + 1
                } else {
                    64
                }
            },
            Some(NodeType::Join) => {
                let children = ntd.children(p).unwrap();
                assert(counts@.contains_key(children@[0]));
                assert(counts@.contains_key(children@[1]));
                let first: u64 = *counts.get(&children[0]).unwrap();
                let second: u64 = *counts.get(&children[1]).unwrap();
                if first + second < 64 {
                    first + second
                } else {
                    64
                }
            },
            _ => 0,
        };
        assert(count == capped(forget_count(*ntd, p, all + 1)));
        counts.insert(p, count);
        proof {
            assert forall|x: TreeNode| #[trigger]
                counts@.contains_key(x) <==> comes_before(order@, x, i + 1) by {
                if comes_before(order@, x, i + 1) {
                    let j = choose|j: int| 0 <= j < i + 1 && j < order@.len() && order@[j] == x;
                    if j < i {
                        assert(comes_before(order@, x, i as int));
                    }
                }
                if before.contains_key(x) {
                    let j = choose|j: int| 0 <= j < i && j < order@.len() && order@[j] == x;
                    assert(0 <= j < i + 1 && j < order@.len() && order@[j] == x);
                }
                if x == p {
                    assert(0 <= i < i + 1 && i < order@.len() && order@[i as int] == x);
                }
            }
        }
        i = i + 1;
    }
    let root: TreeNode = ntd.root();
    proof {
        assert(order@[all - 1] == root);
        assert(0 <= all - 1 < i && all - 1 < order@.len() && order@[all - 1] == root);
        assert(comes_before(order@, root, i as int));
    }
    *counts.get(&root).unwrap()
}

/// Whether the table surely fits into its integers.
pub fn counts_surely_fit(ntd: &NiceTreeDecomposition, to_graph: &Graph) -> (r: bool)
    requires
        ntd.nice(),
    ensures
        r == surely_fits(*ntd, *to_graph),
{
    let n: u64 = to_graph.node_count() as u64;
    let order = ntd.stingy_ordering();
    let ghost all = order@.len();
    let ghost forgets = forget_count(*ntd, ntd.spec_root(), all);
    if n >= 2 {
        let capped_count: u64 = capped_forget_count(ntd);
        proof {
            if forgets > 64 {
                lemma_power_outgrows(n as nat, 64);
                lemma_power_monotonic(n as nat, 64, forgets);
                vstd::arithmetic::power2::lemma2_to64();
            }
        }
        if checked_power(n, capped_count).is_none() {
            return false;
        }
    } else {
        proof {
            vstd::arithmetic::power::lemma1_pow(forgets);
        }
    }
    let mut i: usize = 0;
    while i < order.len()
        invariant
            i <= order.len(),
            order@ == ntd.spec_ordering(),
            ntd.nice(),
            n == to_graph.order(),
            largest_entry(
                n as nat,
                forget_count(*ntd, ntd.spec_root(), ntd.spec_ordering().len()),
            ) <= u64::MAX,
            forall|j: int|
                0 <= j < i ==> row_count(*ntd, *to_graph, #[trigger] order@[j]) <= u64::MAX,
        decreases order.len() - i,
    {
        proof {
            assert(ntd.node_is_nice(order@, i as int));
        }
        let bag = ntd.bag(order[i]).unwrap();
        if checked_power(n, bag.len() as u64).is_none() {
            return false;
        }
        i = i + 1;
    }
    true
}

/// The entry of the root for the empty mapping, computed for the pattern
/// graph `from_graph` over the decomposition `ntd`, if the decomposition is
/// nice, the table surely fits into its integers and the root has a row.
/// It is the number of homomorphisms from `from_graph` into `to_graph` if
/// `ntd` is a nice tree decomposition of the pattern graph and the edges
/// of both graphs have no direction.
pub fn count_homomorphisms(
    from_graph: &Graph,
    ntd: &NiceTreeDecomposition,
    to_graph: &Graph,
) -> (r: Option<u64>)
    requires
        ntd.wf(),
    ensures
        r is Some <==> ntd.nice() && surely_fits(*ntd, *to_graph) && row_count(
            *ntd,
            *to_graph,
            ntd.spec_root(),
        ) > 0,
        r is Some ==> r->0 == homomorphism_count(*from_graph, *ntd, *to_graph),
        r is Some && decomposes(*ntd, *from_graph) && symmetric(*from_graph) && symmetric(
            *to_graph,
        ) ==> r->0 == homomorphisms(*from_graph, *to_graph),
{
    if !ntd.is_nice() {
        return None;
    }
    if !counts_surely_fit(ntd, to_graph) {
        return None;
    }
    if !root_has_a_row(ntd, to_graph) {
        return None;
    }
    proof {
        lemma_surely_fits(*ntd, adjacency(*from_graph), *to_graph);
    }
    Some(diaz(from_graph, ntd, to_graph))
}

/// Whether the root has a mapping of its bag: whether the target graph
/// has a vertex or the bag of the root is empty.
fn root_has_a_row(ntd: &NiceTreeDecomposition, to_graph: &Graph) -> (r: bool)
    requires
        ntd.nice(),
    ensures
        r == (row_count(*ntd, *to_graph, ntd.spec_root()) > 0),
{
    let root: TreeNode = ntd.root();
    let ghost order = ntd.spec_ordering();
    proof {
        assert(order[order.len() - 1] == root);
        assert(ntd.node_is_nice(order, order.len() - 1));
    }
    let size: usize = ntd.bag(root).unwrap().len();
    proof {
        if to_graph.order() == 0 {
            if size > 0 {
                vstd::arithmetic::power::lemma0_pow(size as nat);
            } else {
                lemma_power_step(0, 0);
            }
        } else {
            lemma_power_step(to_graph.order(), size as nat);
        }
    }
    to_graph.node_count() > 0 || size == 0
}

/// The possible edges of the decomposition are few enough for an integer
/// to hold them and for all their subsets to be listed.
pub open spec fn few_possible_edges(ntd: NiceTreeDecomposition) -> bool {
    let edges = possible_edges_of(ntd, ntd.spec_root(), ntd.spec_ordering().len());
    edges.len() <= MAX_EDGES && pow2(edges.len()) <= usize::MAX
}

/// Whether the possible edges are few enough.
pub fn has_few_possible_edges(ntd: &NiceTreeDecomposition) -> (r: bool)
    requires
        ntd.nice(),
    ensures
        r == few_possible_edges(*ntd),
{
    let possible_edges = generate_possible_edges(ntd);
    let root: TreeNode = ntd.root();
    let ghost order = ntd.spec_ordering();
    assert(order[order.len() - 1] == root);
    assert(order.contains(root));
    let count: usize = possible_edges.get(&root).unwrap().len();
    proof {
        vstd::arithmetic::power2::lemma2_to64();
        vstd::arithmetic::power2::lemma2_to64_rest();
        if count >= 64 {
            if count > 64 {
                vstd::arithmetic::power2::lemma_pow2_strictly_increases(64, count as nat);
            }
        } else if count >= 32 {
            if count > 32 {
                vstd::arithmetic::power2::lemma_pow2_strictly_increases(32, count as nat);
            }
            vstd::arithmetic::power2::lemma_pow2_strictly_increases(count as nat, 64);
        } else {
            if count < 31 {
                vstd::arithmetic::power2::lemma_pow2_strictly_increases(count as nat, 31);
            }
        }
    }
    if count >= 64 {
        false
    } else if count >= 32 {
        usize::BITS >= 64
    } else {
        true
    }
}

/// For every set of possible edges of the decomposition, the pattern graph
/// with these edges and the entry of the root for this set and the empty
/// mapping, if the decomposition is nice, its possible edges are few
/// enough, the table surely fits into its integers and the root has a
/// row. The entry is the number of homomorphisms from the pattern graph
/// into the target graph if the decomposition is a nice tree decomposition
/// of its vertices and the edges of the target graph have no direction.
pub fn count_all_homomorphisms(ntd: &NiceTreeDecomposition, to_graph: &Graph) -> (r: Option<
    Vec<(Graph, u64)>,
>)
    requires
        ntd.wf(),
    ensures
        r is Some <==> ntd.nice() && few_possible_edges(*ntd) && surely_fits(*ntd, *to_graph)
            && row_count(*ntd, *to_graph, ntd.spec_root()) > 0,
        r is Some ==> r->0@.len() == pow2(
            possible_edges_of(*ntd, ntd.spec_root(), ntd.spec_ordering().len()).len(),
        ) && (forall|t: int|
            0 <= t < r->0@.len() ==> is_some_answer(*ntd, *to_graph, #[trigger] r->0@[t]))
            && forall|e: EdgeList| #[trigger] has_answer(*ntd, *to_graph, r->0@, e),
        r is Some && decomposes_vertices(*ntd) && symmetric(*to_graph) ==> forall|t: int|
            0 <= t < r->0@.len() ==> (#[trigger] r->0@[t]).1 == homomorphisms(
                r->0@[t].0,
                *to_graph,
            ),
{
    if !ntd.is_nice() {
        return None;
    }
    if !has_few_possible_edges(ntd) {
        return None;
    }
    if !counts_surely_fit(ntd, to_graph) {
        return None;
    }
    if !root_has_a_row(ntd, to_graph) {
        return None;
    }
    proof {
        let all = possible_edges_of(*ntd, ntd.spec_root(), ntd.spec_ordering().len());
        assert forall|e: EdgeList|
            counts_fit(*ntd, #[trigger] pattern_of(all, e), *to_graph, ntd.spec_ordering()) by {
            lemma_surely_fits(*ntd, pattern_of(all, e), *to_graph);
        }
    }
    Some(equivalence_class_algorithm(ntd, to_graph))
}

/// The pair `answer` is the graph of the selection `keep` from the
/// possible edges and the number of homomorphisms from it into `to`.
pub open spec fn is_computed_graph(
    answer: (Graph, u64),
    ntd: NiceTreeDecomposition,
    to: Graph,
    keep: Seq<bool>,
) -> bool {
    &&& is_selected_graph(
        answer.0,
        ntd.spec_vertex_count() as nat,
        possible_edges_of(ntd, ntd.spec_root(), ntd.spec_ordering().len()),
        keep,
    )
    &&& answer.1 == homomorphism_count(answer.0, ntd, to)
}

/// The pair `answer` is a graph of some selection from the possible edges
/// with its number of homomorphisms.
pub open spec fn is_some_computed_graph(
    answer: (Graph, u64),
    ntd: NiceTreeDecomposition,
    to: Graph,
) -> bool {
    exists|keep: Seq<bool>|
        keep.len() == possible_edges_of(ntd, ntd.spec_root(), ntd.spec_ordering().len()).len()
            && #[trigger] is_computed_graph(answer, ntd, to, keep)
}

/// One of the answers is the graph of the selection `keep` with its
/// number of homomorphisms.
pub open spec fn has_computed_graph(
    answers: Seq<(Graph, u64)>,
    ntd: NiceTreeDecomposition,
    to: Graph,
    keep: Seq<bool>,
) -> bool {
    exists|t: int| 0 <= t < answers.len() && is_computed_graph(#[trigger] answers[t], ntd, to, keep)
}

/// For every pattern graph whose edges are among the possible edges of the
/// decomposition, the graph and the number of homomorphisms from it into
/// the target graph, each computed by the dynamic program for one pattern
/// graph.
pub fn diaz_serna_thilikos_for_ntd_set(ntd: &NiceTreeDecomposition, to_graph: &Graph) -> (result:
    Vec<(Graph, u64)>)
    requires
        ntd.nice(),
        pow2(possible_edges_of(*ntd, ntd.spec_root(), ntd.spec_ordering().len()).len())
            <= usize::MAX,
        surely_fits(*ntd, *to_graph),
        row_count(*ntd, *to_graph, ntd.spec_root()) > 0,
    ensures
        result@.len() == pow2(
            possible_edges_of(*ntd, ntd.spec_root(), ntd.spec_ordering().len()).len(),
        ),
        forall|t: int|
            0 <= t < result@.len() ==> is_some_computed_graph(
                #[trigger] result@[t],
                *ntd,
                *to_graph,
            ),
        forall|keep: Seq<bool>|
            keep.len() == possible_edges_of(
                *ntd,
                ntd.spec_root(),
                ntd.spec_ordering().len(),
            ).len() ==> #[trigger] has_computed_graph(result@, *ntd, *to_graph, keep),
{
    let possible_edges = generate_possible_edges(ntd);
    let root: TreeNode = ntd.root();
    let ghost order = ntd.spec_ordering();
    let ghost all = possible_edges_of(*ntd, ntd.spec_root(), order.len());
    let ghost n = ntd.spec_vertex_count() as nat;
    assert(order[order.len() - 1] == root);
    assert(order.contains(root));
    let edges = copy_edges(possible_edges.get(&root).unwrap());
    let mut graphs = generate_graphs(ntd.vertex_count() as u64, edges);
    let ghost made = graphs@;
    let mut reversed: Vec<(Graph, u64)> = Vec::new();
    while graphs.len() > 0
        invariant
            graphs@.len() + reversed@.len() == made.len(),
            graphs@ == made.take(graphs@.len() as int),
            ntd.nice(),
            surely_fits(*ntd, *to_graph),
            row_count(*ntd, *to_graph, ntd.spec_root()) > 0,
            forall|j: int|
                0 <= j < reversed@.len() ==> (#[trigger] reversed@[j]).0 == made[made.len() - 1
                    - j] && reversed@[j].1 == homomorphism_count(reversed@[j].0, *ntd, *to_graph),
        decreases graphs.len(),
    {
        let ghost last = graphs@.len() - 1;
        let graph = graphs.pop().unwrap();
        proof {
            assert(graph == made[last]);
            assert(graphs@ =~= made.take(graphs@.len() as int));
            lemma_surely_fits(*ntd, adjacency(graph), *to_graph);
        }
        let hom_number: u64 = diaz(&graph, ntd, to_graph);
        reversed.push((graph, hom_number));
    }
    let mut result: Vec<(Graph, u64)> = Vec::new();
    let ghost turned = reversed@;
    while reversed.len() > 0
        invariant
            reversed@.len() + result@.len() == made.len(),
            turned.len() == made.len(),
            reversed@ == turned.take(reversed@.len() as int),
            forall|j: int|
                0 <= j < turned.len() ==> (#[trigger] turned[j]).0 == made[made.len() - 1 - j]
                    && turned[j].1 == homomorphism_count(turned[j].0, *ntd, *to_graph),
            forall|j: int|
                0 <= j < result@.len() ==> (#[trigger] result@[j]).0 == made[j] && result@[j].1
                    == homomorphism_count(result@[j].0, *ntd, *to_graph),
        decreases reversed.len(),
    {
        let ghost last = reversed@.len() - 1;
        let answer = reversed.pop().unwrap();
        proof {
            assert(answer == turned[last]);
            assert(reversed@ =~= turned.take(reversed@.len() as int));
        }
        result.push(answer);
    }
    proof {
        assert forall|t: int| 0 <= t < result@.len() implies is_some_computed_graph(
            #[trigger] result@[t],
            *ntd,
            *to_graph,
        ) by {
            assert(is_some_selected_graph(made[t], n, all));
            let keep = choose|keep: Seq<bool>|
                keep.len() == all.len() && #[trigger] is_selected_graph(made[t], n, all, keep);
            assert(is_computed_graph(result@[t], *ntd, *to_graph, keep));
        }
        assert forall|keep: Seq<bool>| keep.len() == all.len() implies #[trigger] has_computed_graph(
            result@,
            *ntd,
            *to_graph,
            keep,
        ) by {
            assert(has_selected_graph(made, n, all, keep));
            let t = choose|t: int|
                0 <= t < made.len() && is_selected_graph(#[trigger] made[t], n, all, keep);
            assert(is_computed_graph(result@[t], *ntd, *to_graph, keep));
        }
    }
    result
}

} // verus!
