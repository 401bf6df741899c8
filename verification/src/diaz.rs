//! The dynamic program of Diaz, Serna and Thilikos: the number of
//! homomorphisms from a pattern graph into a target graph, computed over a
//! nice tree decomposition of the pattern.

use crate::brute_force::homomorphisms;
use crate::dynamic_program::adjacency;
use crate::dynamic_program::counts_fit;
use crate::dynamic_program::extensions;
use crate::dynamic_program::lemma_children_are_distinct;
use crate::dynamic_program::lemma_children_are_live;
use crate::dynamic_program::lemma_count_independent_of_order;
use crate::dynamic_program::lemma_depth_irrelevant;
use crate::dynamic_program::lemma_live_step;
use crate::dynamic_program::lemma_not_yet_visited;
use crate::dynamic_program::live;
use crate::dynamic_program::row_count;
use crate::dynamic_program::Table;
use crate::edge_sets::EdgeList;
use crate::graphs::symmetric;
use crate::graphs::Graph;
use crate::integer_functions::digit;
use crate::integer_functions::insert_digit;
use crate::integer_functions::power_of;
use crate::integer_functions::remove_digit;
use crate::integer_functions::Mapping;
use crate::nice_tree_decomposition::comes_before;
use crate::soundness::decomposes;
use crate::soundness::lemma_count_is_number_of_homomorphisms;
use crate::nice_tree_decomposition::Bag;
use crate::nice_tree_decomposition::NiceTreeDecomposition;
use crate::nice_tree_decomposition::NodeType;
use crate::tree_decompositions::TreeNode;
use crate::tree_decompositions::Vertex;
use vstd::prelude::*;

verus! {

/// The number of homomorphisms from the pattern graph into the target
/// graph, as the table entry of the root for the empty mapping.
pub open spec fn homomorphism_count(from: Graph, ntd: NiceTreeDecomposition, to: Graph) -> nat {
    extensions(ntd, adjacency(from), to, ntd.spec_root(), 0, ntd.spec_ordering().len())
}

/// The table of the dynamic program for one pattern graph. Its rows are
/// those of the edge set 0.
pub struct DPData<'a> {
    rows: Table<'a>,
    from_graph: &'a Graph,
}

impl<'a> DPData<'a> {
    /// The table.
    pub closed spec fn table(&self) -> Table<'a> {
        self.rows
    }

    /// The pattern graph.
    pub closed spec fn pattern_graph(&self) -> Graph {
        *self.from_graph
    }

    /// The decomposition.
    pub open spec fn ntd(&self) -> NiceTreeDecomposition {
        self.table().ntd()
    }

    /// The target graph.
    pub open spec fn target_graph(&self) -> Graph {
        self.table().target_graph()
    }

    /// The entry of node `p` and mapping `f`, if the table holds one.
    pub open spec fn entry(&self, p: TreeNode, f: Mapping) -> Option<u64> {
        if self.table().entries().contains_key((p, 0, f)) {
            Some(self.table().entries()[(p, 0, f)])
        } else {
            None
        }
    }

    /// `other` is a table for the same graphs and decomposition.
    pub open spec fn same_context(&self, other: &Self) -> bool {
        &&& self.table().same_context(&other.table())
        &&& self.pattern_graph() == other.pattern_graph()
    }

    /// The table after the first `i` nodes of `order` were visited: it
    /// holds the rows of the live nodes, and nothing else.
    pub open spec fn holds_live_rows(&self, order: Seq<TreeNode>, i: int) -> bool {
        forall|k: (TreeNode, EdgeList, Mapping)|
            #![trigger self.table().entries().contains_key(k)]
            (self.table().entries().contains_key(k) <==> live(self.ntd(), order, k.0, i) && k.1
                == 0 && k.2 < self.table().rows(k.0)) && (self.table().entries().contains_key(k)
                ==> self.table().entries()[k] == self.table().value(
                adjacency(self.pattern_graph()),
                k.0,
                k.2 as nat,
                order.len(),
            ))
    }

    /// An empty table for the given graphs and decomposition.
    pub fn new<'b>(
        from_graph: &'b Graph,
        to_graph: &'b Graph,
        nice_tree_decomposition: &'b NiceTreeDecomposition,
    ) -> (dp: DPData<'b>)
        ensures
            dp.table().entries() == Map::<(TreeNode, EdgeList, Mapping), u64>::empty(),
            dp.ntd() == *nice_tree_decomposition,
            dp.pattern_graph() == *from_graph,
            dp.target_graph() == *to_graph,
    {
        DPData { rows: Table::new(to_graph, nice_tree_decomposition), from_graph }
    }

    /// The entry of node `p` and mapping `f`, if the table holds one.
    pub fn get(&self, p: &TreeNode, f: &Mapping) -> (r: Option<&u64>)
        ensures
            match r {
                Some(v) => self.entry(*p, *f) == Some(*v),
                None => self.entry(*p, *f) is None,
            },
    {
        self.rows.get(p, &0, f)
    }

    /// Sets the entry of node `p` and mapping `f` to `v`.
    pub fn set(&mut self, p: TreeNode, f: Mapping, v: u64)
        ensures
            final(self).table().entries() == old(self).table().entries().insert((p, 0, f), v),
            final(self).same_context(old(self)),
    {
        self.rows.set(p, 0, f, v);
    }

    /// Deletes the entries of node `p`.
    pub fn remove(&mut self, p: TreeNode)
        ensures
            forall|x: TreeNode, f: Mapping|
                #![trigger final(self).entry(x, f)]
                final(self).entry(x, f) == if x == p {
                    None
                } else {
                    old(self).entry(x, f)
                },
            final(self).same_context(old(self)),
    {
        self.rows.remove(p);
    }

    /// The image of the bag place of significance `s` under `f`, in the
    /// base of the target graph.
    pub fn table_apply(&self, f: Mapping, s: Mapping) -> (r: Mapping)
        requires
            self.target_graph().order() >= 1,
            power_of(self.target_graph().order(), s as nat) <= u64::MAX,
        ensures
            r == digit(self.target_graph().order(), f as nat, s as nat),
    {
        self.rows.table_apply(f, s)
    }

    /// The mapping `f` with the image `v` put in at significance `s`, in the
    /// base of the target graph.
    pub fn table_extend(&self, f: Mapping, s: Mapping, v: Mapping) -> (r: Mapping)
        requires
            self.target_graph().order() >= 1,
            power_of(self.target_graph().order(), s as nat) <= u64::MAX,
            insert_digit(self.target_graph().order(), f as nat, s as nat, v as nat) <= u64::MAX,
        ensures
            r == insert_digit(self.target_graph().order(), f as nat, s as nat, v as nat),
    {
        self.rows.table_extend(f, s, v)
    }

    /// The mapping `f` without its digit of significance `s`, in the base
    /// of the target graph.
    pub fn table_reduce(&self, f: Mapping, s: Mapping) -> (r: Mapping)
        requires
            self.target_graph().order() >= 1,
            power_of(self.target_graph().order(), s as nat + 1) <= u64::MAX,
        ensures
            r == remove_digit(self.target_graph().order(), f as nat, s as nat),
    {
        self.rows.table_reduce(f, s)
    }

    /// The number of mappings of the bag of `node` into the target graph.
    pub fn max_bag_mappings(&self, node: TreeNode) -> (r: Mapping)
        requires
            self.ntd().spec_data().contains_key(node),
            row_count(self.ntd(), self.target_graph(), node) <= u64::MAX,
        ensures
            r == row_count(self.ntd(), self.target_graph(), node),
    {
        self.rows.max_bag_mappings(node)
    }

    /// The bag of node `p` in increasing order: the place of a vertex in it
    /// is the significance of its image in a mapping.
    pub fn sorted_bag(&self, p: TreeNode) -> (r: Option<&Bag>)
        ensures
            match r {
                Some(b) => self.ntd().spec_data().contains_key(p) && b@ == self.ntd().spec_bag(p),
                None => !self.ntd().spec_data().contains_key(p),
            },
    {
        self.rows.sorted_bag(p)
    }

    /// For each place of the bag, whether the pattern graph joins the
    /// vertex there to `v`.
    fn neighbour_flags(&self, bag: &Bag, v: Vertex) -> (flags: Vec<bool>)
        ensures
            flags@.len() == bag@.len(),
            forall|k: int|
                0 <= k < flags@.len() ==> #[trigger] flags@[k] == adjacency(self.pattern_graph())(
                    v,
                    bag@[k],
                ),
    {
        let mut flags: Vec<bool> = Vec::new();
        let mut k: usize = 0;
        while k < bag.len()
            invariant
                k <= bag.len(),
                flags@.len() == k,
                forall|j: int|
                    0 <= j < k ==> #[trigger] flags@[j] == adjacency(self.pattern_graph())(
                        v,
                        bag@[j],
                    ),
            decreases bag.len() - k,
        {
            flags.push(self.from_graph.has_edge(v, bag[k]));
            k = k + 1;
        }
        flags
    }

    /// Runs the dynamic program: visits the nodes in the given order, fills
    /// the row of each node from the rows of its children and deletes the
    /// children's rows at once. In the end the table holds the row of the
    /// root and no entry of any other node.
    pub fn run(&mut self, order: &Vec<TreeNode>)
        requires
            old(self).table().entries() == Map::<(TreeNode, EdgeList, Mapping), u64>::empty(),
            old(self).ntd().wf(),
            old(self).ntd().valid_order(order@),
            counts_fit(
                old(self).ntd(),
                adjacency(old(self).pattern_graph()),
                old(self).target_graph(),
                order@,
            ),
        ensures
            final(self).same_context(old(self)),
            final(self).table().holds_row(
                final(self).ntd().spec_root(),
                0,
                adjacency(final(self).pattern_graph()),
                order@.len(),
            ),
            forall|k: (TreeNode, EdgeList, Mapping)|
                final(self).table().entries().contains_key(k) ==> k.0
                    == final(self).ntd().spec_root(),
    {
        let ghost all = order@.len();
        let ghost pattern = adjacency(self.pattern_graph());
        let mut i: usize = 0;
        while i < order.len()
            invariant
                i <= order.len(),
                all == order@.len(),
                pattern == adjacency(self.pattern_graph()),
                self.same_context(old(self)),
                self.ntd().wf(),
                self.ntd().valid_order(order@),
                counts_fit(self.ntd(), pattern, self.target_graph(), order@),
                self.holds_live_rows(order@, i as int),
            decreases order.len() - i,
        {
            let p: TreeNode = order[i];
            let ghost before = *self;
            proof {
                assert(self.ntd().node_is_nice(order@, i as int));
                lemma_not_yet_visited(self.ntd(), order@, i as int);
                assert(self.table().lacks_row(p, 0));
                assert(self.table().rows(p) <= u64::MAX);
                assert forall|f: Mapping|
                    f < self.table().rows(p) implies #[trigger] self.table().value(
                    pattern,
                    p,
                    f as nat,
                    all + 1,
                ) <= u64::MAX by {
                    lemma_depth_irrelevant(
                        self.ntd(),
                        pattern,
                        self.target_graph(),
                        order@,
                        i as int,
                        f as nat,
                        all,
                        all + 1,
                    );
                    assert(extensions(
                        self.ntd(),
                        pattern,
                        self.target_graph(),
                        order@[i as int],
                        f as nat,
                        order@.len(),
                    ) <= u64::MAX);
                }
            }
            let ghost gone: Seq<TreeNode> = self.ntd().spec_children(p);
            let ntd = self.rows.decomposition();
            match ntd.node_type(p) {
                None => {
                    assert(false);
                },
                Some(NodeType::Leaf) => {
                    let v: Vertex = ntd.unique_vertex_from_bags(p).unwrap();
                    let looped: bool = self.from_graph.has_edge(v, v);
                    self.rows.fill_leaf(p, 0, looped, Ghost(pattern), Ghost(all + 1));
                    assert(gone =~= Seq::<TreeNode>::empty());
                },
                Some(NodeType::Introduce) => {
                    let q: TreeNode = *ntd.unique_child(p).unwrap();
                    proof {
                        lemma_children_are_live(self.ntd(), order@, i as int, 0);
                        assert(self.table().rows(q) <= u64::MAX) by {
                            let j = choose|j: int| 0 <= j < i && j < order@.len() && order@[j] == q;
                            assert(row_count(self.ntd(), self.target_graph(), order@[j])
                                <= u64::MAX);
                        }
                        assert(self.table().holds_row(q, 0, pattern, all));
                    }
                    let v: Vertex = ntd.unique_vertex_from_bags(p).unwrap();
                    let flags = self.neighbour_flags(ntd.bag(p).unwrap(), v);
                    self.rows.fill_introduce(p, q, 0, 0, &flags, Ghost(pattern), Ghost(all));
                    self.rows.remove(q);
                    assert(gone =~= seq![q]);
                },
                Some(NodeType::Forget) => {
                    let q: TreeNode = *ntd.unique_child(p).unwrap();
                    proof {
                        lemma_children_are_live(self.ntd(), order@, i as int, 0);
                        assert(self.table().rows(q) <= u64::MAX) by {
                            let j = choose|j: int| 0 <= j < i && j < order@.len() && order@[j] == q;
                            assert(row_count(self.ntd(), self.target_graph(), order@[j])
                                <= u64::MAX);
                        }
                        assert(self.table().holds_row(q, 0, pattern, all));
                    }
                    self.rows.fill_forget(p, q, 0, 0, Ghost(pattern), Ghost(all));
                    self.rows.remove(q);
                    assert(gone =~= seq![q]);
                },
                Some(NodeType::Join) => {
                    let children = ntd.children(p).unwrap();
                    let q1: TreeNode = children[0];
                    let q2: TreeNode = children[1];
                    proof {
                        lemma_children_are_live(self.ntd(), order@, i as int, 0);
                        lemma_children_are_live(self.ntd(), order@, i as int, 1);
                        assert(self.table().holds_row(q1, 0, pattern, all));
                        assert(self.table().holds_row(q2, 0, pattern, all));
                    }
                    self.rows.fill_join(p, q1, q2, 0, 0, 0, Ghost(pattern), Ghost(all));
                    self.rows.remove(q1);
                    self.rows.remove(q2);
                    assert(gone =~= seq![q1, q2]);
                },
            }
            proof {
                assert forall|k: (TreeNode, EdgeList, Mapping)|
                    #![trigger self.table().entries().contains_key(k)]
                    (self.table().entries().contains_key(k) <==> live(
                        self.ntd(),
                        order@,
                        k.0,
                        i + 1,
                    ) && k.1 == 0 && k.2 < self.table().rows(k.0)) && (
                    self.table().entries().contains_key(k) ==> self.table().entries()[k]
                        == self.table().value(pattern, k.0, k.2 as nat, order@.len())) by {
                    lemma_live_step(self.ntd(), order@, i as int, k.0);
                    lemma_children_are_distinct(self.ntd(), order@, i as int);
                    assert(before.table().entries().contains_key(k) <==> live(
                        before.ntd(),
                        order@,
                        k.0,
                        i as int,
                    ) && k.1 == 0 && k.2 < before.table().rows(k.0));
                    if k.0 == p {
                        lemma_depth_irrelevant(
                            self.ntd(),
                            pattern,
                            self.target_graph(),
                            order@,
                            i as int,
                            k.2 as nat,
                            all,
                            all + 1,
                        );
                    }
                }
            }
            i = i + 1;
        }
        proof {
            let root = self.ntd().spec_root();
            let last = all - 1;
            assert(order@[last] == root);
            lemma_live_step(self.ntd(), order@, last, root);
            assert(live(self.ntd(), order@, root, all as int));
            assert forall|k: (TreeNode, EdgeList, Mapping)|
                self.table().entries().contains_key(k) implies k.0 == root by {
                let j = choose|j: int| 0 <= j < all && j < order@.len() && order@[j] == k.0;
                if j < all - 1 {
                    let pp = self.ntd().spec_tree().spec_parents()[order@[j]];
                    assert(order@.contains(pp));
                    let m = choose|m: int| 0 <= m < order@.len() && order@[m] == pp;
                    assert(comes_before(order@, pp, all as int));
                    assert(false);
                }
            }
            assert forall|f: Mapping|
                #![trigger self.table().entries().contains_key((root, 0, f))]
                (self.table().entries().contains_key((root, 0, f)) <==> f < self.table().rows(
                    root,
                )) && (f < self.table().rows(root) ==> self.table().entries()[(root, 0, f)]
                    == self.table().value(pattern, root, f as nat, all)) by {}
        }
    }
}

/// Whether `x` stands in `order` at place `j` or later.
pub open spec fn comes_from(order: Seq<TreeNode>, x: TreeNode, j: int) -> bool {
    exists|m: int| j <= m < order.len() && 0 <= m && order[m] == x
}

impl<'a> DPData<'a> {
    /// The table while no row is deleted, after the first `i` nodes of
    /// `order` were visited: it holds the rows of these nodes.
    pub open spec fn holds_visited_rows(&self, order: Seq<TreeNode>, i: int) -> bool {
        forall|k: (TreeNode, EdgeList, Mapping)|
            #![trigger self.table().entries().contains_key(k)]
            (self.table().entries().contains_key(k) <==> comes_before(order, k.0, i) && k.1 == 0
                && k.2 < self.table().rows(k.0)) && (self.table().entries().contains_key(k)
                ==> self.table().entries()[k] == self.table().value(
                adjacency(self.pattern_graph()),
                k.0,
                k.2 as nat,
                order.len(),
            ))
    }

    /// The table while the rows are deleted, before the row of the node at
    /// place `j` is: it holds the rows of the nodes from that place on.
    pub open spec fn holds_later_rows(&self, order: Seq<TreeNode>, j: int) -> bool {
        forall|k: (TreeNode, EdgeList, Mapping)|
            #![trigger self.table().entries().contains_key(k)]
            (self.table().entries().contains_key(k) <==> comes_from(order, k.0, j) && k.1 == 0
                && k.2 < self.table().rows(k.0)) && (self.table().entries().contains_key(k)
                ==> self.table().entries()[k] == self.table().value(
                adjacency(self.pattern_graph()),
                k.0,
                k.2 as nat,
                order.len(),
            ))
    }

    /// Runs the dynamic program as `run` does, but keeps every row until
    /// the root is done and deletes the rows of the other nodes only then.
    /// The table is the same in the end: when the rows are deleted makes
    /// no difference to the row of the root.
    pub fn run_deleting_last(&mut self, order: &Vec<TreeNode>)
        requires
            old(self).table().entries() == Map::<(TreeNode, EdgeList, Mapping), u64>::empty(),
            old(self).ntd().wf(),
            old(self).ntd().valid_order(order@),
            counts_fit(
                old(self).ntd(),
                adjacency(old(self).pattern_graph()),
                old(self).target_graph(),
                order@,
            ),
        ensures
            final(self).same_context(old(self)),
            final(self).table().holds_row(
                final(self).ntd().spec_root(),
                0,
                adjacency(final(self).pattern_graph()),
                order@.len(),
            ),
            forall|k: (TreeNode, EdgeList, Mapping)|
                final(self).table().entries().contains_key(k) ==> k.0
                    == final(self).ntd().spec_root(),
    {
        let ghost all = order@.len();
        let ghost pattern = adjacency(self.pattern_graph());
        let mut i: usize = 0;
        while i < order.len()
            invariant
                i <= order.len(),
                all == order@.len(),
                pattern == adjacency(self.pattern_graph()),
                self.same_context(old(self)),
                self.ntd().wf(),
                self.ntd().valid_order(order@),
                counts_fit(self.ntd(), pattern, self.target_graph(), order@),
                self.holds_visited_rows(order@, i as int),
            decreases order.len() - i,
        {
            let p: TreeNode = order[i];
            let ghost before = *self;
            proof {
                assert(self.ntd().node_is_nice(order@, i as int));
                lemma_not_yet_visited(self.ntd(), order@, i as int);
                assert(self.table().lacks_row(p, 0));
                crate::dynamic_program::lemma_row_fits(
                    self.ntd(),
                    pattern,
                    self.target_graph(),
                    order@,
                    i as int,
                );
            }
            let ntd = self.rows.decomposition();
            match ntd.node_type(p) {
                None => {
                    assert(false);
                },
                Some(NodeType::Leaf) => {
                    let v: Vertex = ntd.unique_vertex_from_bags(p).unwrap();
                    let looped: bool = self.from_graph.has_edge(v, v);
                    self.rows.fill_leaf(p, 0, looped, Ghost(pattern), Ghost(all + 1));
                },
                Some(NodeType::Introduce) => {
                    let q: TreeNode = *ntd.unique_child(p).unwrap();
                    proof {
                        lemma_children_are_live(self.ntd(), order@, i as int, 0);
                        assert(self.table().holds_row(q, 0, pattern, all));
                    }
                    let v: Vertex = ntd.unique_vertex_from_bags(p).unwrap();
                    let flags = self.neighbour_flags(ntd.bag(p).unwrap(), v);
                    self.rows.fill_introduce(p, q, 0, 0, &flags, Ghost(pattern), Ghost(all));
                },
                Some(NodeType::Forget) => {
                    let q: TreeNode = *ntd.unique_child(p).unwrap();
                    proof {
                        lemma_children_are_live(self.ntd(), order@, i as int, 0);
                        assert(self.table().holds_row(q, 0, pattern, all));
                    }
                    self.rows.fill_forget(p, q, 0, 0, Ghost(pattern), Ghost(all));
                },
                Some(NodeType::Join) => {
                    let children = ntd.children(p).unwrap();
                    let q1: TreeNode = children[0];
                    let q2: TreeNode = children[1];
                    proof {
                        lemma_children_are_live(self.ntd(), order@, i as int, 0);
                        lemma_children_are_live(self.ntd(), order@, i as int, 1);
                        assert(self.table().holds_row(q1, 0, pattern, all));
                        assert(self.table().holds_row(q2, 0, pattern, all));
                    }
                    self.rows.fill_join(p, q1, q2, 0, 0, 0, Ghost(pattern), Ghost(all));
                },
            }
            proof {
                assert forall|k: (TreeNode, EdgeList, Mapping)|
                    #![trigger self.table().entries().contains_key(k)]
                    (self.table().entries().contains_key(k) <==> comes_before(order@, k.0, i + 1)
                        && k.1 == 0 && k.2 < self.table().rows(k.0)) && (
                    self.table().entries().contains_key(k) ==> self.table().entries()[k]
                        == self.table().value(pattern, k.0, k.2 as nat, order@.len())) by {
                    assert(before.table().entries().contains_key(k) <==> comes_before(
                        order@,
                        k.0,
                        i as int,
                    ) && k.1 == 0 && k.2 < before.table().rows(k.0));
                    if comes_before(order@, k.0, i + 1) {
                        let j = choose|j: int| 0 <= j < i + 1 && j < order@.len() && order@[j] == k.0;
                        if j < i {
                            assert(comes_before(order@, k.0, i as int));
                        }
                    }
                    if comes_before(order@, k.0, i as int) {
                        let j = choose|j: int| 0 <= j < i && j < order@.len() && order@[j] == k.0;
                        assert(0 <= j < i + 1 && j < order@.len() && order@[j] == k.0);
                    }
                    if k.0 == p {
                        assert(0 <= i < i + 1 && i < order@.len() && order@[i as int] == p);
                        lemma_depth_irrelevant(
                            self.ntd(),
                            pattern,
                            self.target_graph(),
                            order@,
                            i as int,
                            k.2 as nat,
                            all,
                            all + 1,
                        );
                    }
                }
            }
            i = i + 1;
        }
        let mut j: usize = 0;
        proof {
            assert forall|x: TreeNode| comes_before(order@, x, all as int) <==> comes_from(
                order@,
                x,
                0,
            ) by {
                if comes_before(order@, x, all as int) {
                    let m = choose|m: int| 0 <= m < all && m < order@.len() && order@[m] == x;
                    assert(0 <= m < order@.len() && order@[m] == x);
                }
                if comes_from(order@, x, 0) {
                    let m = choose|m: int| 0 <= m < order@.len() && 0 <= m && order@[m] == x;
                    assert(0 <= m < all && m < order@.len() && order@[m] == x);
                }
            }
        }
        while j < order.len() - 1
            invariant
                j <= order.len() - 1,
                all == order@.len(),
                pattern == adjacency(self.pattern_graph()),
                self.same_context(old(self)),
                self.ntd().valid_order(order@),
                self.holds_later_rows(order@, j as int),
            decreases order.len() - j,
        {
            let ghost before = *self;
            self.rows.remove(order[j]);
            proof {
                assert forall|k: (TreeNode, EdgeList, Mapping)|
                    #![trigger self.table().entries().contains_key(k)]
                    (self.table().entries().contains_key(k) <==> comes_from(order@, k.0, j + 1)
                        && k.1 == 0 && k.2 < self.table().rows(k.0)) && (
                    self.table().entries().contains_key(k) ==> self.table().entries()[k]
                        == self.table().value(pattern, k.0, k.2 as nat, order@.len())) by {
                    assert(before.table().entries().contains_key(k) <==> comes_from(
                        order@,
                        k.0,
                        j as int,
                    ) && k.1 == 0 && k.2 < before.table().rows(k.0));
                    if comes_from(order@, k.0, j + 1) {
                        let m = choose|m: int| j + 1 <= m < order@.len() && 0 <= m && order@[m] == k.0;
                        assert(j <= m < order@.len() && 0 <= m && order@[m] == k.0);
                        assert(order@[m] != order@[j as int]);
                    }
                    if comes_from(order@, k.0, j as int) && k.0 != order@[j as int] {
                        let m = choose|m: int| j <= m < order@.len() && 0 <= m && order@[m] == k.0;
                        assert(j + 1 <= m < order@.len() && 0 <= m && order@[m] == k.0);
                    }
                }
            }
            j = j + 1;
        }
        proof {
            let root = self.ntd().spec_root();
            assert(order@[all - 1] == root);
            assert(comes_from(order@, root, all - 1));
            assert forall|k: (TreeNode, EdgeList, Mapping)|
                self.table().entries().contains_key(k) implies k.0 == root by {
                let m = choose|m: int| all - 1 <= m < order@.len() && 0 <= m && order@[m] == k.0;
            }
            assert forall|f: Mapping|
                #![trigger self.table().entries().contains_key((root, 0, f))]
                (self.table().entries().contains_key((root, 0, f)) <==> f < self.table().rows(
                    root,
                )) && (f < self.table().rows(root) ==> self.table().entries()[(root, 0, f)]
                    == self.table().value(pattern, root, f as nat, all)) by {}
        }
    }
}

/// Two tables that hold the row of the root for the same graphs and the
/// same decomposition hold the same entries there: a run that deletes
/// the rows of the children at once and a run that deletes all rows in the
/// end give the same count.
pub proof fn lemma_deletion_makes_no_difference(
    first: DPData,
    second: DPData,
    depth: nat,
    f: Mapping,
)
    requires
        first.same_context(&second),
        first.table().holds_row(
            first.ntd().spec_root(),
            0,
            adjacency(first.pattern_graph()),
            depth,
        ),
        second.table().holds_row(
            second.ntd().spec_root(),
            0,
            adjacency(second.pattern_graph()),
            depth,
        ),
    ensures
        first.entry(first.ntd().spec_root(), f) == second.entry(second.ntd().spec_root(), f),
{
    let root = first.ntd().spec_root();
    assert(first.table().entries().contains_key((root, 0, f)) <==> f < first.table().rows(root));
    assert(second.table().entries().contains_key((root, 0, f)) <==> f < second.table().rows(
        root,
    ));
}

/// The number of homomorphisms from the pattern graph `from_graph` into
/// `to_graph`, computed over the decomposition `ntd` of the pattern with
/// its nodes visited in the given order: the entry of the root for the
/// empty mapping. Whatever valid order is given, the result is the same,
/// and it is the number of homomorphisms if `ntd` is a nice tree
/// decomposition of the pattern graph and the edges of both graphs have no
/// direction.
pub fn diaz_with_ordering(
    from_graph: &Graph,
    ntd: &NiceTreeDecomposition,
    to_graph: &Graph,
    order: &Vec<TreeNode>,
) -> (count: u64)
    requires
        ntd.wf(),
        ntd.valid_order(order@),
        counts_fit(*ntd, adjacency(*from_graph), *to_graph, order@),
        row_count(*ntd, *to_graph, ntd.spec_root()) > 0,
    ensures
        count == extensions(
            *ntd,
            adjacency(*from_graph),
            *to_graph,
            ntd.spec_root(),
            0,
            order@.len(),
        ),
        ntd.valid_order(ntd.spec_ordering()) ==> count == homomorphism_count(
            *from_graph,
            *ntd,
            *to_graph,
        ),
        decomposes(*ntd, *from_graph) && symmetric(*from_graph) && symmetric(*to_graph) ==> count
            == homomorphisms(*from_graph, *to_graph),
{
    proof {
        if decomposes(*ntd, *from_graph) && symmetric(*from_graph) && symmetric(*to_graph) {
            lemma_count_is_number_of_homomorphisms(*from_graph, *ntd, *to_graph);
        }
    }
    let mut dp_data = DPData::new(from_graph, to_graph, ntd);
    dp_data.run(order);
    let root: TreeNode = ntd.root();
    assert(dp_data.table().entries().contains_key((root, 0, 0)));
    proof {
        if ntd.valid_order(ntd.spec_ordering()) {
            lemma_count_independent_of_order(
                *ntd,
                adjacency(*from_graph),
                *to_graph,
                order@,
                ntd.spec_ordering(),
            );
        }
    }
    *dp_data.get(&root, &0).unwrap()
}

/// The number of homomorphisms from the pattern graph `from_graph` into
/// `to_graph`, computed over the decomposition `ntd` of the pattern in its
/// stingy ordering: the entry of the root for the empty mapping, which is
/// the number of homomorphisms if `ntd` is a nice tree decomposition of the
/// pattern graph and the edges of both graphs have no direction.
pub fn diaz(from_graph: &Graph, ntd: &NiceTreeDecomposition, to_graph: &Graph) -> (count: u64)
    requires
        ntd.nice(),
        counts_fit(*ntd, adjacency(*from_graph), *to_graph, ntd.spec_ordering()),
        row_count(*ntd, *to_graph, ntd.spec_root()) > 0,
    ensures
        count == homomorphism_count(*from_graph, *ntd, *to_graph),
        decomposes(*ntd, *from_graph) && symmetric(*from_graph) && symmetric(*to_graph) ==> count
            == homomorphisms(*from_graph, *to_graph),
{
    proof {
        if decomposes(*ntd, *from_graph) && symmetric(*from_graph) && symmetric(*to_graph) {
            lemma_count_is_number_of_homomorphisms(*from_graph, *ntd, *to_graph);
        }
    }
    let stingy_ordering = ntd.stingy_ordering();
    diaz_with_ordering(from_graph, ntd, to_graph, &stingy_ordering)
}

} // verus!
