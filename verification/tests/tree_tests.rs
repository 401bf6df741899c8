use counting_homomorphisms::nice_tree_decomposition::first_vertex_missing;
use counting_homomorphisms::nice_tree_decomposition::index_positions;
use counting_homomorphisms::nice_tree_decomposition::rank_in_bag;
use counting_homomorphisms::nice_tree_decomposition::vertex_in_list;
use counting_homomorphisms::nice_tree_decomposition::Bag;
use counting_homomorphisms::nice_tree_decomposition::NiceTreeDecomposition;
use counting_homomorphisms::nice_tree_decomposition::NodeData;
use counting_homomorphisms::nice_tree_decomposition::NodeType;
use counting_homomorphisms::tree_decompositions::FormatError;
use counting_homomorphisms::tree_decompositions::TreeStructure;
use std::collections::HashMap;

/// The decomposition with 10 nodes of the star with the centre 1 and the
/// leaves 0, 2 and 3.
fn ntd_test_example() -> NiceTreeDecomposition {
    let mut tree_structure = TreeStructure::new(10);
    tree_structure.add_child(1, 0).unwrap();
    tree_structure.add_child(2, 1).unwrap();
    tree_structure.add_child(6, 2).unwrap();
    tree_structure.add_child(4, 3).unwrap();
    tree_structure.add_child(5, 4).unwrap();
    tree_structure.add_child(6, 5).unwrap();
    tree_structure.add_child(7, 6).unwrap();
    tree_structure.add_child(8, 7).unwrap();
    tree_structure.add_child(9, 8).unwrap();

    let mut nodes_data = HashMap::new();
    nodes_data.insert(0, NodeData::new(NodeType::Leaf, Bag::from([0])));
    nodes_data.insert(1, NodeData::new(NodeType::Introduce, Bag::from([0, 1])));
    nodes_data.insert(2, NodeData::new(NodeType::Forget, Bag::from([1])));
    nodes_data.insert(3, NodeData::new(NodeType::Leaf, Bag::from([1])));
    nodes_data.insert(4, NodeData::new(NodeType::Introduce, Bag::from([1, 2])));
    nodes_data.insert(5, NodeData::new(NodeType::Forget, Bag::from([1])));
    nodes_data.insert(6, NodeData::new(NodeType::Join, Bag::from([1])));
    nodes_data.insert(7, NodeData::new(NodeType::Introduce, Bag::from([1, 3])));
    nodes_data.insert(8, NodeData::new(NodeType::Forget, Bag::from([3])));
    nodes_data.insert(9, NodeData::new(NodeType::Forget, Bag::from([])));

    NiceTreeDecomposition::new(tree_structure, nodes_data, 4, 1)
}

fn check_tree_structure_methods() {
    let mut tree_structure = TreeStructure::new(5);

    // Before adding edges
    assert_eq!(tree_structure.is_parent_of(4, 0), false);
    assert_eq!(tree_structure.node_count(), 5);
    assert_eq!(tree_structure.parent(1), None);
    assert_eq!(tree_structure.root(), 0);
    assert_eq!(tree_structure.children_count(0), 0);

    // Adding edges
    assert_eq!(tree_structure.add_child(4, 0), Ok(()));
    assert_eq!(tree_structure.add_child(0, 2), Ok(()));
    assert_eq!(tree_structure.add_child(0, 1), Ok(()));
    assert_eq!(tree_structure.add_child(1, 3), Ok(()));

    // After adding edges
    assert_eq!(tree_structure.is_parent_of(4, 0), true);
    assert_eq!(tree_structure.node_count(), 5);
    assert_eq!(tree_structure.parent(1), Some(&0));
    assert_eq!(tree_structure.root(), 4);
    assert_eq!(tree_structure.children_count(0), 2);
}

#[test]
fn tree_decompositions_test_tree_structure_methods() {
    check_tree_structure_methods();
}

#[test]
fn unit_tests_test_tree_structure_methods() {
    check_tree_structure_methods();
}

#[test]
fn add_child_refuses_a_second_parent_and_undefined_nodes() {
    let mut tree_structure = TreeStructure::new(3);
    assert_eq!(tree_structure.add_child(0, 1), Ok(()));
    assert_eq!(tree_structure.add_child(2, 1), Err(FormatError::SecondParent));
    assert_eq!(tree_structure.add_child(5, 1), Err(FormatError::SecondParent));
    assert_eq!(tree_structure.add_child(3, 2), Err(FormatError::UndefinedNode));
    assert_eq!(tree_structure.add_child(0, 3), Err(FormatError::UndefinedNode));
    assert_eq!(tree_structure.children(0), Some(&vec![1]));
    assert_eq!(tree_structure.children(2), None);
    assert_eq!(tree_structure.parent(1), Some(&0));
    assert_eq!(tree_structure.parent(2), None);
}

#[test]
fn root_of_a_cycle_is_reached_after_node_count_steps() {
    let mut tree_structure = TreeStructure::new(3);
    assert_eq!(tree_structure.add_child(0, 1), Ok(()));
    assert_eq!(tree_structure.add_child(1, 2), Ok(()));
    assert_eq!(tree_structure.add_child(2, 0), Ok(()));
    // 0 -> 2 -> 1 -> 0
    assert_eq!(tree_structure.root(), 0);
}

/// The decomposition with 14 nodes of the tree with the edges 4-2, 2-1,
/// 1-0 and 1-3.
fn fourteen_nodes() -> NiceTreeDecomposition {
    let mut tree_structure = TreeStructure::new(14);
    for (p, q) in [
        (1, 0),
        (2, 1),
        (4, 2),
        (4, 3),
        (5, 4),
        (6, 5),
        (8, 7),
        (9, 8),
        (10, 6),
        (10, 9),
        (11, 10),
        (12, 11),
        (13, 12),
    ] {
        tree_structure.add_child(p, q).unwrap();
    }
    let mut nodes_data = HashMap::new();
    nodes_data.insert(0, NodeData::new(NodeType::Leaf, Bag::from([4])));
    nodes_data.insert(1, NodeData::new(NodeType::Introduce, Bag::from([2, 4])));
    nodes_data.insert(2, NodeData::new(NodeType::Forget, Bag::from([2])));
    nodes_data.insert(3, NodeData::new(NodeType::Leaf, Bag::from([2])));
    nodes_data.insert(4, NodeData::new(NodeType::Join, Bag::from([2])));
    nodes_data.insert(5, NodeData::new(NodeType::Introduce, Bag::from([1, 2])));
    nodes_data.insert(6, NodeData::new(NodeType::Forget, Bag::from([1])));
    nodes_data.insert(7, NodeData::new(NodeType::Leaf, Bag::from([0])));
    nodes_data.insert(8, NodeData::new(NodeType::Introduce, Bag::from([0, 1])));
    nodes_data.insert(9, NodeData::new(NodeType::Forget, Bag::from([1])));
    nodes_data.insert(10, NodeData::new(NodeType::Join, Bag::from([1])));
    nodes_data.insert(11, NodeData::new(NodeType::Introduce, Bag::from([1, 3])));
    nodes_data.insert(12, NodeData::new(NodeType::Forget, Bag::from([3])));
    nodes_data.insert(13, NodeData::new(NodeType::Forget, Bag::from([])));
    NiceTreeDecomposition::new(tree_structure, nodes_data, 5, 1)
}

#[test]
fn graph_structures_test_stingy_ordering() {
    let ntd = ntd_test_example();
    assert_eq!(ntd.stingy_ordering(), vec![0, 1, 2, 3, 4, 5, 6, 7, 8, 9]);

    let ntd = fourteen_nodes();
    assert_eq!(ntd.stingy_ordering(), vec![0, 1, 2, 3, 4, 5, 6, 7, 8, 9, 10, 11, 12, 13]);
    assert!(ntd.is_nice());

    let ntd = ntd_test_example();
    assert_eq!(ntd.recursive_stingy_ordering(ntd.root()), (vec![0, 1, 2, 3, 4, 5, 6, 7, 8, 9], 1));
    assert_eq!(ntd.recursive_stingy_ordering(5), (vec![3, 4, 5], 0));
}

#[test]
fn stingy_ordering_takes_the_subtree_with_more_joins_first() {
    // the root 6 joins the leaf 0 and the join node 5 of the leaves 1 and 2
    let mut tree = TreeStructure::new(7);
    tree.add_child(3, 0).unwrap();
    tree.add_child(5, 1).unwrap();
    tree.add_child(5, 2).unwrap();
    tree.add_child(4, 3).unwrap();
    tree.add_child(4, 5).unwrap();
    tree.add_child(6, 4).unwrap();
    let mut data = HashMap::new();
    data.insert(0, NodeData::new(NodeType::Leaf, Bag::from([0])));
    data.insert(1, NodeData::new(NodeType::Leaf, Bag::from([0])));
    data.insert(2, NodeData::new(NodeType::Leaf, Bag::from([0])));
    data.insert(3, NodeData::new(NodeType::Join, Bag::from([0])));
    data.insert(5, NodeData::new(NodeType::Join, Bag::from([0])));
    data.insert(4, NodeData::new(NodeType::Join, Bag::from([0])));
    data.insert(6, NodeData::new(NodeType::Forget, Bag::from([])));
    let ntd = NiceTreeDecomposition::new(tree, data, 1, 0);
    // node 3 is a join node with one child: it is taken as a leaf
    assert_eq!(ntd.stingy_ordering(), vec![1, 2, 5, 3, 4, 6]);
    assert!(!ntd.is_nice());
}

#[test]
fn test_nice_tree_decomposition_basic() {
    let ntd = ntd_test_example();

    assert_eq!(ntd.node_count(), 10);
    assert_eq!(ntd.vertex_count(), 4);
    assert_eq!(ntd.width(), 1);

    // test children for each node type
    assert_eq!(ntd.children(0), None); // Leaf
    assert_eq!(ntd.children(7), Some(&vec![6])); // Introduce
    assert_eq!(ntd.children(2), Some(&vec![1])); // Forget
    assert_eq!(ntd.children(6), Some(&vec![2, 5])); // Join

    // test parent for each node type and the root
    assert_eq!(ntd.parent(9), None); // root
    assert_eq!(ntd.parent(0), Some(&(1 as u64))); // leaf
    assert_eq!(ntd.parent(4), Some(&(5 as u64))); // Introduce
    assert_eq!(ntd.parent(8), Some(&(9 as u64))); // Forget
    assert_eq!(ntd.parent(6), Some(&(7 as u64))); // Join

    // test children count
    assert_eq!(ntd.children_count(6), 2);
    assert_eq!(ntd.children_count(0), 0);
    assert_eq!(ntd.children_count(2), 1);

    // test is_child_of
    assert!(ntd.is_parent_of(6, 2));
    assert!(ntd.is_parent_of(6, 5));
    assert!(ntd.is_parent_of(9, 8));
    assert!(!ntd.is_parent_of(9, 0));
    assert!(!ntd.is_parent_of(2, 6));

    // test root
    assert_eq!(ntd.root(), 9);

    // test bag
    assert_eq!(ntd.bag(0), Some(&Bag::from([0])));
    assert_eq!(ntd.bag(7), Some(&Bag::from([1, 3])));
    assert_eq!(ntd.bag(6), Some(&Bag::from([1])));
    assert_eq!(ntd.bag(9), Some(&Bag::from([])));
    assert_eq!(ntd.bag(8), Some(&Bag::from([3])));

    // test node_type()
    assert_eq!(ntd.node_type(0), Some(&NodeType::Leaf));
    assert_eq!(ntd.node_type(4), Some(&NodeType::Introduce));
    assert_eq!(ntd.node_type(8), Some(&NodeType::Forget));
    assert_eq!(ntd.node_type(6), Some(&NodeType::Join));

    // test unique child
    assert_eq!(ntd.unique_child(7), Some(&6));
    assert_eq!(ntd.unique_child(2), Some(&1));
    assert_eq!(ntd.unique_child(0), None);
    assert_eq!(ntd.unique_child(6), None);

    // Join nodes do not have an unique vertex
    assert_eq!(ntd.unique_vertex(6), None);

    // test introduced vertices
    assert_eq!(ntd.unique_vertex(1), Some(&1));
    assert_eq!(ntd.unique_vertex(4), Some(&2));
    assert_eq!(ntd.unique_vertex(7), Some(&3));

    // test forgotten vertices
    assert_eq!(ntd.unique_vertex(2), Some(&0));
    assert_eq!(ntd.unique_vertex(5), Some(&2));
    assert_eq!(ntd.unique_vertex(8), Some(&1));

    // test leaf nodes
    assert_eq!(ntd.unique_vertex(0), Some(&0));
    assert_eq!(ntd.unique_vertex(3), Some(&1));

    assert!(ntd.is_nice());
}

#[test]
fn test_tree_structure() {
    let test_object = ntd_test_example();

    assert_eq!(test_object.node_count(), 10);

    // test children for each node type
    assert_eq!(test_object.children(0), None); // Leaf
    assert_eq!(test_object.children(7), Some(&vec![6])); // Introduce
    assert_eq!(test_object.children(2), Some(&vec![1])); // Forget
    assert_eq!(test_object.children(6), Some(&vec![2, 5])); // Join

    // test parent for each node type and the root
    assert_eq!(test_object.parent(9), None); // root
    assert_eq!(test_object.parent(0), Some(&(1 as u64))); // leaf
    assert_eq!(test_object.parent(4), Some(&(5 as u64))); // Introduce
    assert_eq!(test_object.parent(8), Some(&(9 as u64))); // Forget
    assert_eq!(test_object.parent(6), Some(&(7 as u64))); // Join

    // test children count
    assert_eq!(test_object.children_count(6), 2);
    assert_eq!(test_object.children_count(0), 0);
    assert_eq!(test_object.children_count(2), 1);

    // test is_child_of
    assert!(test_object.is_parent_of(6, 2));
    assert!(test_object.is_parent_of(6, 5));
    assert!(test_object.is_parent_of(9, 8));
    assert!(!test_object.is_parent_of(9, 0));
    assert!(!test_object.is_parent_of(2, 6));

    // test root
    assert_eq!(test_object.root(), 9);

    // test bag
    assert_eq!(test_object.bag(0), Some(&Bag::from([0])));
    assert_eq!(test_object.bag(7), Some(&Bag::from([1, 3])));
    assert_eq!(test_object.bag(6), Some(&Bag::from([1])));
    assert_eq!(test_object.bag(9), Some(&Bag::from([])));
    assert_eq!(test_object.bag(8), Some(&Bag::from([3])));

    // test node_type()
    assert_eq!(test_object.node_type(0), Some(&NodeType::Leaf));
    assert_eq!(test_object.node_type(4), Some(&NodeType::Introduce));
    assert_eq!(test_object.node_type(8), Some(&NodeType::Forget));
    assert_eq!(test_object.node_type(6), Some(&NodeType::Join));

    // test unqiue child
    assert_eq!(test_object.unique_child(7), Some(&6));
    assert_eq!(test_object.unique_child(2), Some(&1));
    assert_eq!(test_object.unique_child(0), None);
    assert_eq!(test_object.unique_child(6), None);

    // test introduced vertex
    assert_eq!(test_object.introduced_vertex(1), Some(1));
    assert_eq!(test_object.introduced_vertex(2), None);
    assert_eq!(test_object.introduced_vertex(4), Some(2));
    assert_eq!(test_object.introduced_vertex(7), Some(3));
    assert_eq!(test_object.introduced_vertex(8), None);
    assert_eq!(test_object.introduced_vertex(6), None);

    // test forgotten vertex
    assert_eq!(test_object.forgotten_vertex(2), Some(0));
    assert_eq!(test_object.forgotten_vertex(5), Some(2));
    assert_eq!(test_object.forgotten_vertex(8), Some(1));
    assert_eq!(test_object.forgotten_vertex(0), None);
    assert_eq!(test_object.forgotten_vertex(6), None);
    assert_eq!(test_object.forgotten_vertex(1), None);
}

#[test]
fn node_data_keeps_its_bag_in_increasing_order() {
    let data = NodeData::new(NodeType::Join, Bag::from([5, 1, 3, 1, 0, 5]));
    assert_eq!(data.bag(), &vec![0, 1, 3, 5]);
    assert_eq!(data.node_type(), &NodeType::Join);
    assert_eq!(rank_in_bag(data.bag(), 0), 0);
    assert_eq!(rank_in_bag(data.bag(), 3), 2);
    assert_eq!(rank_in_bag(data.bag(), 4), 3);
    assert_eq!(rank_in_bag(data.bag(), 9), 4);
    assert!(vertex_in_list(3, data.bag()));
    assert!(!vertex_in_list(4, data.bag()));
    assert_eq!(first_vertex_missing(&vec![0, 1, 3, 5], &vec![0, 1, 5]), Some(3));
    assert_eq!(first_vertex_missing(&vec![0, 1], &vec![0, 1, 5]), None);
}

#[test]
fn valid_orders_are_told_from_others() {
    let ntd = ntd_test_example();
    assert!(ntd.is_valid_order(&vec![0, 1, 2, 3, 4, 5, 6, 7, 8, 9]));
    assert!(ntd.is_valid_order(&vec![3, 4, 5, 0, 1, 2, 6, 7, 8, 9]));
    assert!(ntd.is_valid_order(&vec![3, 0, 4, 1, 5, 2, 6, 7, 8, 9]));
    // a child after its parent
    assert!(!ntd.is_valid_order(&vec![1, 0, 2, 3, 4, 5, 6, 7, 8, 9]));
    // a node twice
    assert!(!ntd.is_valid_order(&vec![0, 1, 2, 3, 4, 5, 6, 7, 8, 8, 9]));
    // the root is not the last
    assert!(!ntd.is_valid_order(&vec![0, 1, 2, 3, 4, 5, 6, 7, 8]));
    // a node is missing
    assert!(!ntd.is_valid_order(&vec![0, 1, 2, 4, 5, 6, 7, 8, 9]));
    assert!(!ntd.is_valid_order(&vec![]));
    assert_eq!(index_positions(&vec![4, 2, 9]).unwrap().get(&9), Some(&2));
    assert!(index_positions(&vec![4, 2, 4]).is_none());
}

#[test]
fn a_decomposition_with_wrong_bag_sizes_is_not_nice() {
    let mut tree = TreeStructure::new(3);
    tree.add_child(1, 0).unwrap();
    tree.add_child(2, 1).unwrap();
    let mut data = HashMap::new();
    data.insert(0, NodeData::new(NodeType::Leaf, Bag::from([0])));
    data.insert(1, NodeData::new(NodeType::Introduce, Bag::from([0, 1, 2])));
    data.insert(2, NodeData::new(NodeType::Forget, Bag::from([0, 1])));
    let ntd = NiceTreeDecomposition::new(tree, data, 3, 2);
    assert_eq!(ntd.stingy_ordering(), vec![0, 1, 2]);
    assert!(!ntd.is_nice());
}
