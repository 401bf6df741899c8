use counting_homomorphisms::bounds::checked_power;
use counting_homomorphisms::bounds::count_all_homomorphisms;
use counting_homomorphisms::bounds::count_homomorphisms;
use counting_homomorphisms::bounds::counts_surely_fit;
use counting_homomorphisms::bounds::diaz_serna_thilikos_for_ntd_set;
use counting_homomorphisms::bounds::has_few_possible_edges;
use counting_homomorphisms::brute_force::simple_brute_force;
use counting_homomorphisms::brute_force::simple_brute_force_for_ntd_set;
use counting_homomorphisms::decomposition_check::count_all_homomorphisms_of_decomposed;
use counting_homomorphisms::decomposition_check::count_homomorphisms_of_decomposed;
use counting_homomorphisms::decomposition_check::decomposes_graph;
use counting_homomorphisms::decomposition_check::is_symmetric;
use counting_homomorphisms::diaz::diaz;
use counting_homomorphisms::diaz::diaz_with_ordering;
use counting_homomorphisms::diaz::DPData;
use counting_homomorphisms::equivalence_class_algorithm::edge_flag;
use counting_homomorphisms::equivalence_class_algorithm::equivalence_class_algorithm;
use counting_homomorphisms::file_handler::import_metis;
use counting_homomorphisms::file_handler::import_ntd;
use counting_homomorphisms::graph_generation::compare_edge_lists;
use counting_homomorphisms::graph_generation::edge_in_list;
use counting_homomorphisms::graph_generation::equal_graphs;
use counting_homomorphisms::graph_generation::generate_graphs;
use counting_homomorphisms::graph_generation::generate_possible_edges;
use counting_homomorphisms::graph_generation::graph_of_edges;
use counting_homomorphisms::graph_generation::index_of_edge;
use counting_homomorphisms::graphs::Graph;
use counting_homomorphisms::nice_tree_decomposition::Bag;
use counting_homomorphisms::nice_tree_decomposition::NiceTreeDecomposition;
use counting_homomorphisms::nice_tree_decomposition::NodeData;
use counting_homomorphisms::nice_tree_decomposition::NodeType;
use counting_homomorphisms::tree_decompositions::FormatError;
use counting_homomorphisms::tree_decompositions::TreeStructure;
use std::collections::HashMap;

/// The star with the centre 1 and the leaves 0, 2 and 3, in 10 nodes.
const EXAMPLE: &str = "s 10 2 4
n 1 l 1
n 2 i 1 2
n 3 f 2
n 4 l 2
n 5 i 2 3
n 6 f 2
n 7 j 2
n 8 i 2 4
n 9 f 4
n 10 f
a 2 1
a 3 2
a 7 3
a 5 4
a 6 5
a 7 6
a 8 7
a 9 8
a 10 9
";

/// The tree with the edges 4-2, 2-1, 1-0 and 1-3, in 14 nodes.
const EXAMPLE_2: &str = "c a tree on five vertices
s 14 2 5
n 1 l 5
n 2 i 3 5
n 3 f 3
n 4 l 3
n 5 j 3
n 6 i 2 3
n 7 f 2
n 8 l 1
n 9 i 1 2
n 10 f 2
n 11 j 2
n 12 i 2 4
n 13 f 4
n 14 f
a 2 1
a 3 2
a 5 3
a 5 4
a 6 5
a 7 6
a 9 8
a 10 9
a 11 7
a 11 10
a 12 11
a 13 12
a 14 13
";

/// The triangles 0-1-3, 0-2-3 and 0-3-4, in 17 nodes.
const EXAMPLE_3: &str = "s 17 3 5
n 1 l 2
n 2 i 1 2
n 4 i 1 2 4
n 12 f 1 4
n 9 i 1 3 4
n 3 l 3
n 6 i 1 3
n 8 i 1 3 4
n 17 j 1 3 4
n 5 f 1 4
n 7 l 4
n 10 i 1 4
n 11 j 1 4
n 13 i 1 4 5
n 15 f 1 4
n 14 f 4
n 16 f
a 2 1
a 4 2
a 12 4
a 9 12
a 6 3
a 8 6
a 17 9
a 17 8
a 5 17
a 10 7
a 11 5
a 11 10
a 13 11
a 15 13
a 14 15
a 16 14
";

/// The triangle 0-1-2 with the path 2-3-4, in 12 nodes.
const NTD_4: &str = "s 12 3 5
n 1 l 1
n 2 i 1 2
n 3 i 1 2 3
n 4 f 2 3
n 5 f 3
n 6 l 5
n 7 i 4 5
n 8 f 4
n 9 i 3 4
n 10 f 3
n 11 j 3
n 12 f
a 2 1
a 3 2
a 4 3
a 5 4
a 7 6
a 8 7
a 9 8
a 10 9
a 11 5
a 11 10
a 12 11
";

/// The tree with the edges 4-2, 2-1, 1-0 and 1-3.
const FROM_2: &str = "5 4
2
1 3 4
2 5
2
3
";

/// The complete graph on 5 vertices.
const TO_2: &str = "5 10
2 3 4 5
1 3 4 5
1 2 4 5
1 2 3 5
1 2 3 4
";

/// The path 4-2-1 and the vertices 0 and 3 on their own.
const FROM_3: &str = "5 2

3
2 5

3
";

/// The cycle on 4 vertices.
const TO_3: &str = "% a cycle
4 4
2 4
1 3
2 4
1 3
";

/// The triangle 0-1-3 with the edge 0-4.
const FROM_4: &str = "5 4
2 4 5
1 4

1 2
1
";

/// The path on 4 vertices.
const TO_4: &str = "4 3
2
1 3
2 4
3
";

/// The triangle 0-2-3 with a loop at 1.
const FROM_5: &str = "5 4
3 4
2
1 4
1 3

";

/// All twelve possible edges of the third example but the loops.
const FROM_6: &str = "5 7
2 3 4 5
1 4
1 4
1 2 3 5
1 4
";

/// The triangle 0-1-2 with the path 2-3-4.
const FROM_7: &str = "5 5
2 3
1 3
1 2 4
3 5
4
";

const TINY_01: &str = "7 11
5 3 2
1 3 4
5 4 2 1
2 3 6 7
1 3 6
5 4 7
6 4
";

/// The loop at 0 and the edges 0-1 and 3-4.
const TEST_EDGES_TO_GRAPH: &str = "5 3
1 2
1

5
4
";

fn ntd(text: &str) -> NiceTreeDecomposition {
    let ntd = import_ntd(text.as_bytes()).unwrap();
    assert!(ntd.is_nice());
    ntd
}

fn metis(text: &str) -> Graph {
    import_metis(text.as_bytes()).unwrap()
}

fn count_edges(g: &Graph) -> usize {
    let mut count = 0;
    for u in 0..g.node_count() {
        for v in u..g.node_count() {
            if g.has_edge(u, v) {
                count += 1;
            }
        }
    }
    count
}

/// hard-wired example one
fn ntd_test_example() -> NiceTreeDecomposition {
    let mut tree_structure = TreeStructure::new(10);
    tree_structure.add_child(1, 0).unwrap();
    tree_structure.add_child(2, 1).unwrap();
    tree_structure.add_child(6, 2).unwrap();
    tree_structure.add_child(4, 3).unwrap();
    tree_structure.add_child(5, 4).unwrap();
    tree_structure.add_child(6, 5).unwrap();
    tree_structure.add_child(7, 6).unwrap();
    tree_structure.add_child(8, 7).unwrap();
    tree_structure.add_child(9, 8).unwrap();

    let mut nodes_data = HashMap::new();
    nodes_data.insert(0, NodeData::new(NodeType::Leaf, Bag::from([0])));
    nodes_data.insert(1, NodeData::new(NodeType::Introduce, Bag::from([0, 1])));
    nodes_data.insert(2, NodeData::new(NodeType::Forget, Bag::from([1])));
    nodes_data.insert(3, NodeData::new(NodeType::Leaf, Bag::from([1])));
    nodes_data.insert(4, NodeData::new(NodeType::Introduce, Bag::from([1, 2])));
    nodes_data.insert(5, NodeData::new(NodeType::Forget, Bag::from([1])));
    nodes_data.insert(6, NodeData::new(NodeType::Join, Bag::from([1])));
    nodes_data.insert(7, NodeData::new(NodeType::Introduce, Bag::from([1, 3])));
    nodes_data.insert(8, NodeData::new(NodeType::Forget, Bag::from([3])));
    nodes_data.insert(9, NodeData::new(NodeType::Forget, Bag::from([])));

    NiceTreeDecomposition::new(tree_structure, nodes_data, 4, 1)
}

#[test]
fn unit_tests_test_stingy_ordering() {
    let ntd = ntd_test_example();
    assert_eq!(ntd.stingy_ordering(), vec![0, 1, 2, 3, 4, 5, 6, 7, 8, 9]);

    let ntd = import_ntd(EXAMPLE_2.as_bytes()).unwrap();
    assert_eq!(ntd.stingy_ordering(), vec![0, 1, 2, 3, 4, 5, 6, 7, 8, 9, 10, 11, 12, 13]);
}

#[test]
fn test_ntd_import() {
    let ntd = ntd_test_example();
    assert_eq!(import_ntd(EXAMPLE.as_bytes()).unwrap(), ntd);
}

#[test]
fn import_ntd_reads_lines_with_carriage_returns_and_without_a_last_line_feed() {
    let text = EXAMPLE.trim_end().replace("\n", "\r\n");
    assert_eq!(import_ntd(text.as_bytes()).unwrap(), ntd_test_example());
}

#[test]
fn import_ntd_says_what_is_wrong() {
    let error = |text: &str| import_ntd(text.as_bytes()).err();
    assert_eq!(error(""), Some(FormatError::MissingHeader));
    assert_eq!(error("c nothing\n"), Some(FormatError::MissingHeader));
    assert_eq!(error("s 2 1\n"), Some(FormatError::BadToken));
    assert_eq!(error("s 2 one 1\n"), Some(FormatError::BadToken));
    assert_eq!(error("s 2 0 1\n"), Some(FormatError::BadToken));
    assert_eq!(error("s 2 1 1\nn 1 x 1\n"), Some(FormatError::BadToken));
    assert_eq!(error("s 2 1 1\nn 1 l 1 \n"), Some(FormatError::BadToken));
    assert_eq!(error("s 2 1 1\nn 1 l -1\n"), Some(FormatError::BadToken));
    assert_eq!(error("s 2 1 1\nn 1\n"), Some(FormatError::BadToken));
    assert_eq!(error("s 2 1 1\na 1\n"), Some(FormatError::BadToken));
    assert_eq!(error("s 2 1 1\nn 1 l 18446744073709551616\n"), Some(FormatError::BadToken));
    assert_eq!(error("n 1 l 1\ns 2 1 1\n"), Some(FormatError::UndefinedNode));
    assert_eq!(error("s 2 1 1\nn 3 l 1\n"), Some(FormatError::UndefinedNode));
    assert_eq!(error("s 2 1 1\nn 0 l 1\n"), Some(FormatError::UndefinedNode));
    assert_eq!(error("s 2 1 1\nn 1 l 0\n"), Some(FormatError::UndefinedNode));
    assert_eq!(error("s 2 1 1\na 1 3\n"), Some(FormatError::UndefinedNode));
    assert_eq!(error("s 2 1 1\na 0 1\n"), Some(FormatError::UndefinedNode));
    assert_eq!(error("s 3 1 1\na 1 2\na 3 2\n"), Some(FormatError::SecondParent));
    assert_eq!(error("s 3 1 1\na 1 2\na 9 2\n"), Some(FormatError::SecondParent));
    let small = import_ntd("s 2 1 1\nn 1 l 1\nn 2 f\na 2 1\n".as_bytes()).unwrap();
    assert!(small.is_nice());
    assert_eq!(small.root(), 1);
    assert_eq!(small.vertex_count(), 1);
    assert_eq!(small.width(), 0);
}

#[test]
fn test_import_metis() {
    let edges = vec![
        (0, 4),
        (0, 2),
        (0, 1),
        (1, 0),
        (1, 2),
        (1, 3),
        (2, 4),
        (2, 3),
        (2, 1),
        (2, 0),
        (3, 1),
        (3, 2),
        (3, 5),
        (3, 6),
        (4, 0),
        (4, 2),
        (4, 5),
        (5, 4),
        (5, 3),
        (5, 6),
        (6, 5),
        (6, 3),
    ];

    let g = import_metis(TINY_01.as_bytes()).unwrap();

    assert_eq!(g.node_count(), 7);
    assert_eq!(count_edges(&g), 11);
    for (a, b) in edges {
        assert!(g.has_edge(a, b));
    }
    assert!(!g.has_edge(0, 0));
    assert!(!g.has_edge(0, 3));
    assert!(!g.has_edge(6, 0));
    assert!(!g.has_edge(0, 7));
}

#[test]
fn import_metis_reads_comments_empty_lines_and_loops() {
    let g = metis("% a comment\n4 3\n1 2\n1\n% another comment\n\n4\n");
    assert_eq!(g.node_count(), 4);
    assert_eq!(count_edges(&g), 3);
    assert!(g.has_edge(0, 0));
    assert!(g.has_edge(0, 1));
    assert!(g.has_edge(1, 0));
    assert!(g.has_edge(3, 3));
    assert!(!g.has_edge(2, 2));
    assert!(!g.has_edge(2, 3));
    // an edge may be listed at one of its ends only
    let g = metis("3 1\n\n3\n");
    assert_eq!(count_edges(&g), 1);
    assert!(g.has_edge(1, 2));
    assert!(g.has_edge(2, 1));
}

#[test]
fn import_metis_says_what_is_wrong() {
    let error = |text: &str| import_metis(text.as_bytes()).err();
    assert_eq!(error(""), Some(FormatError::MissingHeader));
    assert_eq!(error("% only a comment\n\n"), Some(FormatError::MissingHeader));
    assert_eq!(error("3\n"), Some(FormatError::BadToken));
    assert_eq!(error("3 x\n"), Some(FormatError::BadToken));
    assert_eq!(error("3 1\n2  3\n"), Some(FormatError::BadToken));
    assert_eq!(error("3 1\n2 a\n"), Some(FormatError::BadToken));
    assert_eq!(error("3 1\n4\n"), Some(FormatError::UndefinedNode));
    assert_eq!(error("3 1\n0\n"), Some(FormatError::UndefinedNode));
    assert_eq!(error("2 1\n2\n1\n1\n"), Some(FormatError::UndefinedNode));
    assert_eq!(error("65536 0\n"), Some(FormatError::TooLarge));
    assert_eq!(metis("65535 0\n").node_count(), 65535);
}

#[test]
fn graphs_are_built_edge_by_edge() {
    let mut g = Graph::new_undirected();
    assert_eq!(g.node_count(), 0);
    assert!(!g.has_edge(0, 0));
    assert!(!g.add_edge(0, 0));
    assert!(g.add_node());
    assert!(g.add_node());
    assert!(g.add_node());
    assert_eq!(g.node_count(), 3);
    assert!(!g.has_edge(0, 1));
    assert!(g.add_edge(0, 1));
    assert!(g.has_edge(0, 1));
    assert!(g.has_edge(1, 0));
    assert!(!g.has_edge(1, 2));
    assert!(!g.has_edge(1, 1));
    assert!(!g.add_edge(1, 0));
    assert!(!g.add_edge(0, 3));
    assert!(!g.add_edge(70000, 0));
    assert!(g.add_edge(2, 2));
    assert!(g.has_edge(2, 2));
    assert!(!g.has_edge(65536, 65537));
    assert_eq!(g.node_count(), 3);
    let h = graph_of_edges(3, &vec![(1, 0), (0, 1), (2, 2), (2, 5)]);
    assert!(equal_graphs(&g, &h));
    assert_eq!(graph_of_edges(70000, &vec![]).node_count(), 65535);
}

#[test]
fn test_brute_force() {
    let from_graph = metis(FROM_2);
    let to_graph = metis(TO_2);
    let i = simple_brute_force(&from_graph, &to_graph);
    assert_eq!(i, 1280);

    let from_graph = metis(FROM_3);
    let to_graph = metis(TO_3);
    let i = simple_brute_force(&from_graph, &to_graph);
    assert_eq!(i, 256);

    let from_graph = metis(FROM_4);
    let to_graph = metis(TO_4);
    let i = simple_brute_force(&from_graph, &to_graph);
    assert_eq!(i, 0);

    let from_graph = metis(FROM_5);
    let to_graph = metis(TO_4);
    let i = simple_brute_force(&from_graph, &to_graph);
    assert_eq!(i, 0);

    let from_graph = metis(FROM_6);
    let to_graph = metis(TO_4);
    let i = simple_brute_force(&from_graph, &to_graph);
    assert_eq!(i, 0);

    let from_graph = metis(FROM_7);
    let to_graph = metis(TO_2);
    let i = simple_brute_force(&from_graph, &to_graph);
    assert_eq!(i, 960);
}

#[test]
fn brute_force_counts_the_mappings_of_graphs_without_edges() {
    let empty = graph_of_edges(0, &vec![]);
    let three = graph_of_edges(3, &vec![]);
    let looped = graph_of_edges(2, &vec![(0, 0)]);
    assert_eq!(simple_brute_force(&empty, &empty), 1);
    assert_eq!(simple_brute_force(&empty, &three), 1);
    assert_eq!(simple_brute_force(&three, &empty), 0);
    assert_eq!(simple_brute_force(&three, &looped), 8);
    // the loop at 0 must go to the loop at 0
    assert_eq!(simple_brute_force(&looped, &looped), 2);
    assert_eq!(simple_brute_force(&looped, &three), 0);
}

#[test]
fn test_diaz() {
    let from_graph = metis(FROM_2);
    let to_graph = metis(TO_2);
    let ntd2 = ntd(EXAMPLE_2);
    let i = diaz(&from_graph, &ntd2, &to_graph);
    assert_eq!(i, 1280);

    let from_graph = metis(FROM_3);
    let to_graph = metis(TO_3);
    let i = diaz(&from_graph, &ntd2, &to_graph);
    assert_eq!(i, 256);

    let from_graph = metis(FROM_4);
    let to_graph = metis(TO_4);
    let ntd3 = ntd(EXAMPLE_3);
    let i = diaz(&from_graph, &ntd3, &to_graph);
    assert_eq!(i, 0);

    let from_graph = metis(FROM_5);
    let to_graph = metis(TO_4);
    let i = diaz(&from_graph, &ntd3, &to_graph);
    assert_eq!(i, 0);

    let from_graph = metis(FROM_6);
    let to_graph = metis(TO_4);
    let i = diaz(&from_graph, &ntd3, &to_graph);
    assert_eq!(i, 0);

    let from_graph = metis(FROM_7);
    let to_graph = metis(TO_2);
    let ntd4 = ntd(NTD_4);
    let i = diaz(&from_graph, &ntd4, &to_graph);
    assert_eq!(i, 960);
}

#[test]
fn diaz_maps_loops_onto_loops() {
    let ntd2 = ntd(EXAMPLE_2);
    let to_graph = graph_of_edges(3, &vec![(0, 0), (0, 1), (1, 2)]);
    for edges in [
        vec![(4, 4)],
        vec![(0, 0), (1, 0)],
        vec![(1, 1), (1, 3), (3, 3)],
        vec![(4, 2), (2, 2), (2, 1), (1, 1), (0, 0), (1, 0), (3, 3), (3, 1), (4, 4)],
    ] {
        let from_graph = graph_of_edges(5, &edges);
        assert_eq!(
            diaz(&from_graph, &ntd2, &to_graph),
            simple_brute_force(&from_graph, &to_graph)
        );
    }
    let one_loop = graph_of_edges(5, &vec![(4, 4)]);
    assert_eq!(diaz(&one_loop, &ntd2, &to_graph), 81);
}

#[test]
fn diaz_on_a_target_without_vertices() {
    let ntd2 = ntd(EXAMPLE_2);
    let from_graph = metis(FROM_2);
    let to_graph = graph_of_edges(0, &vec![]);
    assert_eq!(diaz(&from_graph, &ntd2, &to_graph), 0);
}

#[test]
fn count_does_not_depend_on_the_order() {
    let ntd2 = ntd(EXAMPLE_2);
    let from_graph = graph_of_edges(5, &vec![(4, 2), (2, 1), (1, 0), (1, 3), (3, 3)]);
    let to_graph = graph_of_edges(5, &vec![(0, 1), (1, 2), (2, 3), (3, 4), (4, 0), (2, 2), (0, 2)]);
    let expected = simple_brute_force(&from_graph, &to_graph);
    assert_eq!(diaz(&from_graph, &ntd2, &to_graph), expected);
    // the children of both join nodes the other way round
    let swapped: Vec<u64> = vec![7, 8, 9, 3, 0, 1, 2, 4, 5, 6, 10, 11, 12, 13];
    assert!(ntd2.is_valid_order(&swapped));
    assert_eq!(diaz_with_ordering(&from_graph, &ntd2, &to_graph, &swapped), expected);
    let mixed: Vec<u64> = vec![7, 0, 3, 8, 1, 2, 9, 4, 5, 6, 10, 11, 12, 13];
    assert!(ntd2.is_valid_order(&mixed));
    assert_eq!(diaz_with_ordering(&from_graph, &ntd2, &to_graph, &mixed), expected);
}

#[test]
fn only_the_row_of_the_root_is_left() {
    let ntd2 = ntd(EXAMPLE_2);
    let from_graph = metis(FROM_2);
    let to_graph = metis(TO_2);
    let mut dp_data = DPData::new(&from_graph, &to_graph, &ntd2);
    dp_data.run(&ntd2.stingy_ordering());
    for p in 0..13 {
        for f in 0..25 {
            assert_eq!(dp_data.get(&p, &f), None);
        }
    }
    assert_eq!(dp_data.get(&13, &0), Some(&1280));
    assert_eq!(dp_data.get(&13, &1), None);
}

#[test]
fn unit_tests_test_dpddata() {
    let from_graph = metis(FROM_5);
    let to_graph = metis(TO_3);
    let ntd3 = ntd(EXAMPLE_3);

    let mut dp_data = DPData::new(&from_graph, &to_graph, &ntd3);

    // test empty table
    assert_eq!(dp_data.get(&4, &10), None);
    assert_eq!(dp_data.get(&9, &3), None);

    // try to set the values
    dp_data.set(4, 10, 5);
    dp_data.set(9, 3, 2);

    // check values again
    assert_eq!(dp_data.get(&4, &10), Some(&5));
    assert_eq!(dp_data.get(&9, &3), Some(&2));

    // remove the entries of a node
    dp_data.remove(4);
    assert_eq!(dp_data.get(&4, &10), None);
    assert_eq!(dp_data.get(&9, &3), Some(&2));

    // Check table_apply
    assert_eq!(dp_data.table_apply(30, 1), 3);
    assert_eq!(dp_data.table_apply(28, 0), 0);

    // Check table_extend
    assert_eq!(dp_data.table_extend(15, 1, 2), 59);
    assert_eq!(dp_data.table_extend(0, 2, 3), 48);

    // Check table_reduce
    assert_eq!(dp_data.table_reduce(59, 0), 14);
    assert_eq!(dp_data.table_reduce(15, 1), 3);

    // Check max_bag_mappings
    assert_eq!(dp_data.max_bag_mappings(16), 64);
    assert_eq!(dp_data.max_bag_mappings(0), 4);
    assert_eq!(dp_data.max_bag_mappings(5), 16);

    // check sorted bags
    assert_eq!(*dp_data.sorted_bag(8).unwrap(), vec![0, 2, 3]);
    assert_eq!(*dp_data.sorted_bag(16).unwrap(), vec![0, 2, 3]);
    assert_eq!(*dp_data.sorted_bag(7).unwrap(), vec![0, 2, 3]);
    assert_eq!(*dp_data.sorted_bag(11).unwrap(), vec![0, 3]);
    assert_eq!(*dp_data.sorted_bag(2).unwrap(), vec![2]);
}

#[test]
fn test_dpddata() {
    let to_graph = metis(TO_3);
    let ntd3 = ntd(EXAMPLE_3);

    let mut dp_data =
        counting_homomorphisms::equivalence_class_algorithm::DPData::new(&ntd3, &to_graph);

    // test empty table
    assert_eq!(dp_data.get(&4, &5, &10), None);
    assert_eq!(dp_data.get(&9, &2, &3), None);

    // try to set the values
    dp_data.set(4, 5, 10, 5);
    dp_data.set(9, 2, 3, 2);

    // Check values again
    assert_eq!(dp_data.get(&4, &5, &10), Some(&5));
    assert_eq!(dp_data.get(&9, &2, &3), Some(&2));

    // Check table_apply
    assert_eq!(dp_data.table_apply(30, 1), 3);
    assert_eq!(dp_data.table_apply(28, 0), 0);

    // Check table_extend
    assert_eq!(dp_data.table_extend(15, 1, 2), 59);
    assert_eq!(dp_data.table_extend(0, 2, 3), 48);

    // Check table_reduce
    assert_eq!(dp_data.table_reduce(59, 0), 14);
    assert_eq!(dp_data.table_reduce(15, 1), 3);

    // Check max_bag_mappings
    assert_eq!(dp_data.max_bag_mappings(16), 64);
    assert_eq!(dp_data.max_bag_mappings(0), 4);
    assert_eq!(dp_data.max_bag_mappings(5), 16);

    // check sorted bags
    assert_eq!(*dp_data.sorted_bag(8).unwrap(), vec![0, 2, 3]);
    assert_eq!(*dp_data.sorted_bag(16).unwrap(), vec![0, 2, 3]);
    assert_eq!(*dp_data.sorted_bag(7).unwrap(), vec![0, 2, 3]);
    assert_eq!(*dp_data.sorted_bag(11).unwrap(), vec![0, 3]);
    assert_eq!(*dp_data.sorted_bag(2).unwrap(), vec![2]);

    assert!(compare_edge_lists(
        dp_data.all_possible_edges(),
        &vec![
            (0, 0),
            (1, 1),
            (2, 2),
            (3, 3),
            (4, 4),
            (0, 1),
            (1, 3),
            (0, 3),
            (0, 2),
            (2, 3),
            (0, 4),
            (3, 4)
        ]
    ));
    assert!(!compare_edge_lists(
        dp_data.all_possible_edges(),
        &vec![
            (0, 0),
            (1, 1),
            (2, 2),
            (3, 3),
            (4, 4),
            (0, 1),
            (1, 3),
            (0, 3),
            (0, 2),
            (2, 3),
            (0, 4)
        ]
    ));

    // test for index to edge
    assert_eq!(dp_data.index_to_edge(&3), dp_data.all_possible_edges().get(3));
    assert_eq!(dp_data.index_to_edge(&4), dp_data.all_possible_edges().get(4));
    assert_eq!(dp_data.index_to_edge(&6), dp_data.all_possible_edges().get(6));
    assert_ne!(dp_data.index_to_edge(&2), dp_data.all_possible_edges().get(3));
    assert_ne!(dp_data.index_to_edge(&3), dp_data.all_possible_edges().get(4));
    assert_eq!(dp_data.index_to_edge(&12), None);

    // test for edge to index
    assert_eq!(
        dp_data.edge_to_index(&(0 as usize, 0 as usize)).unwrap(),
        dp_data.all_possible_edges().iter().position(|x| *x == (0, 0)).unwrap()
    );

    assert_eq!(
        dp_data.edge_to_index(&(2 as usize, 3 as usize)).unwrap(),
        dp_data.all_possible_edges().iter().position(|x| *x == (2, 3) || *x == (3, 2)).unwrap()
    );
    assert_eq!(dp_data.edge_to_index(&(3, 2)), dp_data.edge_to_index(&(2, 3)));
    assert_eq!(dp_data.edge_to_index(&(1, 2)), None);

    // test the possible_edges function
    let pos_edges = dp_data.possible_edges(7).unwrap();
    let edges: Vec<(usize, usize)> =
        pos_edges.iter().map(|x| *dp_data.index_to_edge(x).unwrap()).collect();
    assert!(compare_edge_lists(&vec![(0, 0), (2, 2), (3, 3), (0, 2), (0, 3), (2, 3)], &edges));

    let pos_edges = dp_data.possible_edges(14).unwrap();
    let edges: Vec<(usize, usize)> =
        pos_edges.iter().map(|x| *dp_data.index_to_edge(x).unwrap()).collect();
    assert!(compare_edge_lists(
        &vec![
            (0, 0),
            (1, 1),
            (2, 2),
            (3, 3),
            (4, 4),
            (0, 1),
            (1, 3),
            (0, 3),
            (0, 2),
            (2, 3),
            (0, 4),
            (3, 4)
        ],
        &edges
    ));

    // test edges_to_integer_representation
    // 2^0 + 2^4 + 2^7 + 2^1 + 2^2 = 1 + 16 + 128 + 2 + 4 = 151
    let edges = vec![0, 4, 7, 1, 2];
    assert_eq!(dp_data.edges_to_integer_representation(&edges), 151);

    // 2^0 = 1
    let edges = vec![0];
    assert_eq!(dp_data.edges_to_integer_representation(&edges), 1);

    // no edge
    let edges = vec![];
    assert_eq!(dp_data.edges_to_integer_representation(&edges), 0);

    // the last edge that an integer holds
    let edges = vec![63];
    assert_eq!(dp_data.edges_to_integer_representation(&edges), 1u64 << 63);

    // test the intersection
    // a = [0,2,3] -> 2^0 + 2^2 + 2^3 = 1 + 4 + 8 = 13
    // b = [0,3,5] -> 2^0 + 2^3 + 2^5 = 1 + 8 + 32 = 41
    // intersection = [0, 3] -> 2^0 + 2^3 = 1 + 8 = 9
    assert_eq!(dp_data.intersection(13, 41), 9);

    // test edges_to_graph()
    let mut edges = vec![];
    edges.push(dp_data.edge_to_index(&(0, 0)).unwrap());
    edges.push(dp_data.edge_to_index(&(0, 1)).unwrap());
    edges.push(dp_data.edge_to_index(&(4, 3)).unwrap());

    let edges_integer = dp_data.edges_to_integer_representation(&edges);
    let graph = dp_data.edges_to_graph(edges_integer);

    let expected_graph = metis(TEST_EDGES_TO_GRAPH);
    assert!(equal_graphs(&graph, &expected_graph));
    assert!(edge_flag(dp_data.all_possible_edges(), edges_integer, 3, 4));
    assert!(!edge_flag(dp_data.all_possible_edges(), edges_integer, 0, 3));
}

#[test]
fn test_my_approach_dpdata() {
    let ntd2 = ntd(EXAMPLE_2);
    let to_graph = metis(TO_2);
    let mut test_dp_data =
        counting_homomorphisms::equivalence_class_algorithm::DPData::new(&ntd2, &to_graph);

    assert_eq!(test_dp_data.get(&1, &1, &1), None);
    assert_eq!(test_dp_data.get(&1, &2, &3), None);

    test_dp_data.set(1, 1, 1, 5);
    test_dp_data.set(1, 2, 3, 4);

    assert_eq!(*test_dp_data.get(&1, &1, &1).unwrap(), 5);
    assert_eq!(*test_dp_data.get(&1, &2, &3).unwrap(), 4);

    test_dp_data.remove(1);
    assert_eq!(test_dp_data.get(&1, &1, &1), None);
}

#[test]
fn test_generate_edges() {
    let ntd2 = ntd(EXAMPLE_2);
    assert!(compare_edge_lists(
        &vec![(4, 4), (4, 2), (2, 2), (2, 1), (1, 1), (0, 0), (1, 0), (3, 3), (3, 1)],
        generate_possible_edges(&ntd2).get(&ntd2.root()).unwrap()
    ));

    let ntd1 = ntd(EXAMPLE);
    assert!(compare_edge_lists(
        &vec![(0, 0), (1, 1), (2, 2), (3, 3), (0, 1), (1, 2), (1, 3)],
        generate_possible_edges(&ntd1).get(&ntd1.root()).unwrap()
    ));
}

#[test]
fn test_generate_edges_mapping() {
    let ntd2 = ntd(EXAMPLE_2);
    let possible_edges = generate_possible_edges(&ntd2);
    let all_possible_edges = possible_edges.get(&ntd2.root()).unwrap().clone();
    assert!(compare_edge_lists(
        &vec![(4, 4), (4, 2), (2, 2), (2, 1), (1, 1), (0, 0), (1, 0), (3, 3), (3, 1)],
        &all_possible_edges
    ));

    let ntd1 = ntd(EXAMPLE);
    let possible_edges = generate_possible_edges(&ntd1);
    let all_possible_edges = possible_edges.get(&ntd1.root()).unwrap().clone();
    assert!(compare_edge_lists(
        &vec![(0, 0), (1, 1), (2, 2), (3, 3), (0, 1), (1, 2), (1, 3)],
        &all_possible_edges
    ));

    let ntd4 = ntd(NTD_4);
    let possible_edges = generate_possible_edges(&ntd4);
    let all_possible_edges = possible_edges.get(&4).unwrap().clone();
    assert!(compare_edge_lists(
        &vec![(0, 0), (1, 1), (2, 2), (0, 1), (1, 2), (0, 2)],
        &all_possible_edges
    ));

    let all_possible_edges = possible_edges.get(&10).unwrap().clone();
    assert!(compare_edge_lists(
        &vec![(0, 0), (1, 1), (2, 2), (3, 3), (4, 4), (0, 1), (1, 2), (0, 2), (2, 3), (3, 4)],
        &all_possible_edges
    ));
}

#[test]
fn test_generate_possible_edges() {
    let ntd2 = ntd(EXAMPLE_2);
    let possible_edge_hash = generate_possible_edges(&ntd2);

    assert!(compare_edge_lists(possible_edge_hash.get(&1).unwrap(), &vec![(4, 2), (2, 2), (4, 4)]));
    assert!(compare_edge_lists(
        possible_edge_hash.get(&5).unwrap(),
        &vec![(4, 2), (2, 2), (4, 4), (1, 2), (1, 1)]
    ));
    assert!(compare_edge_lists(possible_edge_hash.get(&7).unwrap(), &vec![(0, 0)]));
    assert!(compare_edge_lists(possible_edge_hash.get(&8).unwrap(), &vec![(0, 0), (1, 1), (0, 1)]));
    assert!(compare_edge_lists(
        possible_edge_hash.get(&10).unwrap(),
        &vec![(0, 0), (1, 1), (0, 1), (4, 2), (2, 2), (4, 4), (1, 2)]
    ));
    assert!(compare_edge_lists(
        possible_edge_hash.get(&13).unwrap(),
        &vec![(0, 0), (1, 1), (0, 1), (4, 2), (2, 2), (4, 4), (1, 2), (1, 3), (3, 3)]
    ));
    // the edges in the order in which the walk meets them
    assert_eq!(possible_edge_hash.get(&1).unwrap(), &vec![(4, 4), (2, 2), (4, 2)]);
    assert_eq!(
        possible_edge_hash.get(&10).unwrap(),
        &vec![(4, 4), (2, 2), (4, 2), (1, 1), (2, 1), (0, 0), (0, 1)]
    );
    assert_eq!(possible_edge_hash.len(), 14);
}

#[test]
fn edge_lists_are_compared_without_direction() {
    let list = vec![(4, 2), (2, 2), (0, 1)];
    assert!(edge_in_list((4, 2), &list));
    assert!(edge_in_list((2, 4), &list));
    assert!(edge_in_list((1, 0), &list));
    assert!(!edge_in_list((4, 4), &list));
    assert!(!edge_in_list((0, 2), &list));
    assert_eq!(index_of_edge(&list, (1, 0)), Some(2));
    assert_eq!(index_of_edge(&list, (1, 1)), None);
    assert!(compare_edge_lists(&list, &vec![(1, 0), (2, 4), (2, 2), (4, 2)]));
    assert!(!compare_edge_lists(&list, &vec![(1, 0), (2, 4)]));
    assert!(!compare_edge_lists(&vec![(1, 0), (2, 4)], &list));
    assert!(compare_edge_lists(&vec![], &vec![]));
}

#[test]
fn algorithms_test_generate_graphs() {
    let graphs = generate_graphs(3, vec![(0, 1), (1, 2)]);
    assert_eq!(graphs.len(), 4);
    for edges in [vec![], vec![(0, 1)], vec![(1, 2)], vec![(0, 1), (1, 2)]] {
        let expected = graph_of_edges(3, &edges);
        assert_eq!(graphs.iter().filter(|g| equal_graphs(g, &expected)).count(), 1);
    }
    let none = generate_graphs(2, vec![]);
    assert_eq!(none.len(), 1);
    assert!(equal_graphs(&none[0], &graph_of_edges(2, &vec![])));
}

#[test]
fn unit_tests_test_generate_graphs() {
    let gen_graphs = generate_graphs(4, vec![(0, 1), (0, 3), (0, 2), (2, 3)]);
    let possible = [(0, 1), (0, 3), (0, 2), (2, 3)];
    let mut import_graphs = vec![];

    // all graphs on 4 vertices with some of the 4 edges
    for i in 0..16 {
        let edges: Vec<(usize, usize)> =
            (0..4).filter(|k| i >> k & 1 == 1).map(|k| possible[k]).collect();
        import_graphs.push(graph_of_edges(4, &edges));
    }

    // check if all imports are in the generated list of graphs
    assert_eq!(gen_graphs.len(), 16);
    for g in &import_graphs {
        assert!(gen_graphs.iter().any(|x| { equal_graphs(x, g) }));
    }
}

#[test]
fn test_equal_graphs() {
    let graph1 = metis("4 0\n\n\n\n\n");
    let graph2 = metis("4 1\n2\n1\n\n\n");
    assert!(!equal_graphs(&graph1, &graph2));
    assert!(equal_graphs(&graph1, &graph1));
    assert!(equal_graphs(&graph2, &graph2));
    assert!(!equal_graphs(&graph1, &metis("3 0\n")));
}

#[test]
fn compare_brute_force_with_diaz() {
    let ntd2 = ntd(EXAMPLE_2);
    let possible_edges = generate_possible_edges(&ntd2);

    let all_possible_edges = possible_edges.get(&ntd2.root()).unwrap().clone();

    let graphs = generate_graphs(ntd2.vertex_count() as u64, all_possible_edges);
    assert_eq!(graphs.len(), 512);

    let second_graph = metis(TO_2);

    for g in &graphs {
        assert_eq!(diaz(g, &ntd2, &second_graph), simple_brute_force(g, &second_graph));
    }
}

#[test]
fn test_equivalence_class_algorithm() {
    let ntd3 = ntd(EXAMPLE_3);
    let to_graph = metis(TO_3);

    let graphs_hom = equivalence_class_algorithm(&ntd3, &to_graph);

    let graphs = generate_graphs(
        ntd3.vertex_count() as u64,
        generate_possible_edges(&ntd3).get(&ntd3.root()).unwrap().clone(),
    );
    assert_eq!(graphs_hom.len(), 4096);

    for graph in &graphs {
        let pos = graphs_hom.iter().position(|(g, _)| equal_graphs(g, graph)).unwrap();
        let diaz = diaz(graph, &ntd3, &to_graph);

        let (_, h) = graphs_hom.get(pos).unwrap();

        assert_eq!(diaz, *h);
    }
}

#[test]
fn all_pattern_graphs_at_once_agree_with_each_pattern_graph_alone() {
    let ntd2 = ntd(EXAMPLE_2);
    let to_graph = graph_of_edges(4, &vec![(0, 1), (1, 2), (2, 3), (3, 0), (0, 0), (1, 3)]);
    let graphs_hom = equivalence_class_algorithm(&ntd2, &to_graph);
    assert_eq!(graphs_hom.len(), 512);
    for (graph, count) in &graphs_hom {
        assert_eq!(graph.node_count(), 5);
        assert_eq!(*count, diaz(graph, &ntd2, &to_graph));
        assert_eq!(*count, simple_brute_force(graph, &to_graph));
    }
    // the graph with all possible edges, and the graph with none
    let all = graph_of_edges(
        5,
        &vec![(4, 4), (4, 2), (2, 2), (2, 1), (1, 1), (0, 0), (1, 0), (3, 3), (3, 1)],
    );
    let (_, count) = graphs_hom.iter().find(|(g, _)| equal_graphs(g, &all)).unwrap();
    assert_eq!(*count, 1);
    let none = graph_of_edges(5, &vec![]);
    let (_, count) = graphs_hom.iter().find(|(g, _)| equal_graphs(g, &none)).unwrap();
    assert_eq!(*count, 1024);
}

#[test]
fn brute_force_for_all_pattern_graphs() {
    let ntd1 = ntd(EXAMPLE);
    let to_graph = metis(TO_3);
    let counted = simple_brute_force_for_ntd_set(&ntd1, &to_graph);
    let computed = equivalence_class_algorithm(&ntd1, &to_graph);
    assert_eq!(counted.len(), 128);
    assert_eq!(computed.len(), 128);
    for (graph, count) in &counted {
        let (_, other) = computed.iter().find(|(g, _)| equal_graphs(g, graph)).unwrap();
        assert_eq!(count, other);
    }
    // the star with three leaves into the cycle: 4 * 2 * 2 * 2
    let star = graph_of_edges(4, &vec![(0, 1), (1, 2), (1, 3)]);
    let (_, count) = counted.iter().find(|(g, _)| equal_graphs(g, &star)).unwrap();
    assert_eq!(*count, 32);
}

#[test]
fn deleting_rows_at_once_or_in_the_end_gives_the_same_table() {
    let ntd3 = ntd(EXAMPLE_3);
    let to_graph = graph_of_edges(3, &vec![(0, 1), (1, 2), (2, 0), (1, 1)]);
    for edges in [
        vec![],
        vec![(0, 1), (1, 3), (0, 3)],
        vec![(0, 0), (0, 2), (2, 3), (3, 4)],
        vec![(0, 1), (1, 3), (0, 3), (0, 2), (2, 3), (0, 4), (3, 4)],
    ] {
        let from_graph = graph_of_edges(5, &edges);
        let order = ntd3.stingy_ordering();
        let mut at_once = DPData::new(&from_graph, &to_graph, &ntd3);
        at_once.run(&order);
        let mut in_the_end = DPData::new(&from_graph, &to_graph, &ntd3);
        in_the_end.run_deleting_last(&order);
        for p in 0..17 {
            for f in 0..27 {
                assert_eq!(at_once.get(&p, &f), in_the_end.get(&p, &f));
                assert_eq!(at_once.get(&p, &f).is_some(), p == 15 && f == 0);
            }
        }
        assert_eq!(
            *at_once.get(&15, &0).unwrap(),
            simple_brute_force(&from_graph, &to_graph)
        );
    }
}

#[test]
fn checked_power_says_when_the_power_is_too_large() {
    assert_eq!(checked_power(0, 0), Some(1));
    assert_eq!(checked_power(0, 5), Some(0));
    assert_eq!(checked_power(1, u64::MAX), Some(1));
    assert_eq!(checked_power(2, 63), Some(1u64 << 63));
    assert_eq!(checked_power(2, 64), None);
    assert_eq!(checked_power(5, 4), Some(625));
    assert_eq!(checked_power(65535, 4), Some(18445618199572250625));
    assert_eq!(checked_power(65536, 4), None);
    assert_eq!(checked_power(3, 1000000), None);
}

#[test]
fn counting_behind_the_checks() {
    let ntd2 = ntd(EXAMPLE_2);
    let from_graph = metis(FROM_2);
    let to_graph = metis(TO_2);
    assert!(counts_surely_fit(&ntd2, &to_graph));
    assert!(has_few_possible_edges(&ntd2));
    assert_eq!(count_homomorphisms(&from_graph, &ntd2, &to_graph), Some(1280));
    assert_eq!(count_homomorphisms(&metis(FROM_7), &ntd(NTD_4), &to_graph), Some(960));

    // a target without vertices
    let nothing = graph_of_edges(0, &vec![]);
    assert_eq!(count_homomorphisms(&from_graph, &ntd2, &nothing), Some(0));
    assert_eq!(count_all_homomorphisms(&ntd2, &nothing).unwrap().len(), 512);

    // five forgotten vertices: 7132^5 is just too large, 7131^5 is not
    let large = graph_of_edges(7132, &vec![]);
    assert!(!counts_surely_fit(&ntd2, &large));
    assert_eq!(count_homomorphisms(&from_graph, &ntd2, &large), None);
    assert!(count_all_homomorphisms(&ntd2, &large).is_none());
    let smaller = graph_of_edges(7131, &vec![]);
    assert!(counts_surely_fit(&ntd2, &smaller));

    // a decomposition that is not nice: a leaf with two vertices
    let bad = import_ntd("s 3 2 2\nn 1 l 1 2\nn 2 f 1\nn 3 f\na 2 1\na 3 2\n".as_bytes())
        .unwrap();
    assert!(!bad.is_nice());
    assert_eq!(count_homomorphisms(&from_graph, &bad, &to_graph), None);
    assert!(count_all_homomorphisms(&bad, &to_graph).is_none());

    // a root with a vertex in its bag, and a target without vertices
    let rooted = import_ntd("s 1 1 1\nn 1 l 1\n".as_bytes()).unwrap();
    assert!(rooted.is_nice());
    let single = graph_of_edges(1, &vec![]);
    assert_eq!(count_homomorphisms(&single, &rooted, &nothing), None);
    assert_eq!(count_homomorphisms(&single, &rooted, &to_graph), Some(1));
}

#[test]
fn all_pattern_graphs_one_by_one() {
    let ntd1 = ntd(EXAMPLE);
    let to_graph = metis(TO_2);
    let one_by_one = diaz_serna_thilikos_for_ntd_set(&ntd1, &to_graph);
    let at_once = count_all_homomorphisms(&ntd1, &to_graph).unwrap();
    let graphs = generate_graphs(4, generate_possible_edges(&ntd1).get(&9).unwrap().clone());
    assert_eq!(one_by_one.len(), 128);
    assert_eq!(at_once.len(), 128);
    for (k, (graph, count)) in one_by_one.iter().enumerate() {
        assert!(equal_graphs(graph, &graphs[k]));
        let (_, other) = at_once.iter().find(|(g, _)| equal_graphs(g, graph)).unwrap();
        assert_eq!(count, other);
        assert_eq!(*count, simple_brute_force(graph, &to_graph));
    }
    // the star with three leaves into the complete graph: 5 * 4 * 4 * 4
    let star = graph_of_edges(4, &vec![(0, 1), (1, 2), (1, 3)]);
    let (_, count) = one_by_one.iter().find(|(g, _)| equal_graphs(g, &star)).unwrap();
    assert_eq!(*count, 320);
}

#[test]
fn decompositions_are_told_from_others() {
    let ntd2 = ntd(EXAMPLE_2);
    let ntd3 = ntd(EXAMPLE_3);
    let ntd4 = ntd(NTD_4);
    assert!(decomposes_graph(&ntd2, &metis(FROM_2)));
    assert!(decomposes_graph(&ntd2, &metis(FROM_3)));
    assert!(decomposes_graph(&ntd3, &metis(FROM_4)));
    assert!(decomposes_graph(&ntd3, &metis(FROM_5)));
    assert!(decomposes_graph(&ntd3, &metis(FROM_6)));
    assert!(decomposes_graph(&ntd4, &metis(FROM_7)));
    assert!(decomposes_graph(&ntd(EXAMPLE), &graph_of_edges(4, &vec![(0, 1), (1, 2), (3, 1)])));
    // every pattern graph of the possible edges is decomposed
    let possible = generate_possible_edges(&ntd2).get(&13).unwrap().clone();
    for graph in generate_graphs(5, possible) {
        assert!(decomposes_graph(&ntd2, &graph));
    }
    // an edge between vertices that no bag holds together
    assert!(!decomposes_graph(&ntd2, &graph_of_edges(5, &vec![(4, 1)])));
    assert!(!decomposes_graph(&ntd2, &graph_of_edges(5, &vec![(0, 3)])));
    assert!(!decomposes_graph(&ntd4, &metis(FROM_2)));
    // more or fewer vertices than the decomposition has
    assert!(!decomposes_graph(&ntd2, &graph_of_edges(6, &vec![])));
    assert!(!decomposes_graph(&ntd2, &graph_of_edges(4, &vec![])));
    // a vertex that comes back after it was forgotten
    let again = import_ntd(
        "s 5 1 1\nn 1 l 1\nn 2 f\nn 3 i 1\nn 4 f\nn 5 j\na 2 1\na 4 3\na 5 2\n".as_bytes(),
    )
    .unwrap();
    assert!(!again.is_nice());
    let again = import_ntd(
        "s 6 1 1\nn 1 l 1\nn 2 f\nn 3 l 1\nn 4 f\nn 5 j\na 2 1\na 4 3\na 5 2\na 5 4\n"
            .as_bytes(),
    )
    .unwrap();
    assert!(again.is_nice());
    assert!(!decomposes_graph(&again, &graph_of_edges(1, &vec![])));
    // a root with a vertex in its bag
    let rooted = import_ntd("s 1 1 1\nn 1 l 1\n".as_bytes()).unwrap();
    assert!(rooted.is_nice());
    assert!(!decomposes_graph(&rooted, &graph_of_edges(1, &vec![])));
}

#[test]
fn what_is_counted_for_a_decomposed_graph_is_the_number_of_homomorphisms() {
    let ntd3 = ntd(EXAMPLE_3);
    let to_graph = graph_of_edges(3, &vec![(0, 1), (1, 2), (2, 0), (1, 1)]);
    assert!(is_symmetric(&to_graph));
    let possible = generate_possible_edges(&ntd3).get(&15).unwrap().clone();
    for (k, graph) in generate_graphs(5, possible).iter().enumerate() {
        if k % 37 == 0 {
            assert_eq!(
                count_homomorphisms_of_decomposed(graph, &ntd3, &to_graph),
                Some(simple_brute_force(graph, &to_graph))
            );
        }
    }
    assert_eq!(
        count_homomorphisms_of_decomposed(&metis(FROM_2), &ntd(EXAMPLE_2), &metis(TO_2)),
        Some(1280)
    );
    assert_eq!(
        count_homomorphisms_of_decomposed(&metis(FROM_7), &ntd(NTD_4), &metis(TO_2)),
        Some(960)
    );
    // not a decomposition of the graph
    assert_eq!(count_homomorphisms_of_decomposed(&metis(FROM_2), &ntd(NTD_4), &metis(TO_2)), None);
    // a target without vertices
    assert_eq!(
        count_homomorphisms_of_decomposed(
            &metis(FROM_2),
            &ntd(EXAMPLE_2),
            &graph_of_edges(0, &vec![])
        ),
        Some(0)
    );
    // a table that may not fit
    assert_eq!(
        count_homomorphisms_of_decomposed(
            &metis(FROM_2),
            &ntd(EXAMPLE_2),
            &graph_of_edges(7132, &vec![])
        ),
        None
    );
}

#[test]
fn what_is_counted_for_all_pattern_graphs_is_the_number_of_homomorphisms() {
    let ntd4 = ntd(NTD_4);
    let to_graph = graph_of_edges(3, &vec![(0, 1), (1, 2), (2, 0), (2, 2)]);
    let answers = count_all_homomorphisms_of_decomposed(&ntd4, &to_graph).unwrap();
    assert_eq!(answers.len(), 1024);
    for (k, (graph, count)) in answers.iter().enumerate() {
        assert!(is_symmetric(graph));
        if k % 11 == 0 {
            assert!(decomposes_graph(&ntd4, graph));
            assert_eq!(*count, simple_brute_force(graph, &to_graph));
        }
    }
    // the triangle with the path, into the triangle with a loop: the
    // triangle goes 3, 3 and 7 ways with its last vertex at 0, 1 and 2,
    // and the path goes on from there 5, 5 and 7 ways
    let pattern = metis(FROM_7);
    let (_, count) = answers.iter().find(|(g, _)| equal_graphs(g, &pattern)).unwrap();
    assert_eq!(*count, simple_brute_force(&pattern, &to_graph));
    assert_eq!(*count, 3 * 5 + 3 * 5 + 7 * 7);

    // a decomposition whose join sees a vertex below both children
    let again = import_ntd(
        "s 6 1 1\nn 1 l 1\nn 2 f\nn 3 l 1\nn 4 f\nn 5 j\na 2 1\na 4 3\na 5 2\na 5 4\n"
            .as_bytes(),
    )
    .unwrap();
    assert!(count_all_homomorphisms_of_decomposed(&again, &to_graph).is_none());
    // more vertices declared than the bags hold
    let short = import_ntd("s 2 1 2\nn 1 l 1\nn 2 f\na 2 1\n".as_bytes()).unwrap();
    assert!(short.is_nice());
    assert!(count_all_homomorphisms_of_decomposed(&short, &to_graph).is_none());
    let exact = import_ntd("s 2 1 1\nn 1 l 1\nn 2 f\na 2 1\n".as_bytes()).unwrap();
    let both = count_all_homomorphisms_of_decomposed(&exact, &to_graph).unwrap();
    assert_eq!(both.len(), 2);
    assert_eq!(both.iter().map(|(_, c)| *c).sum::<u64>(), 3 + 1);
}
