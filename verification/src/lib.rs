//! Counting graph homomorphisms from a pattern graph of bounded treewidth
//! into a target graph, by dynamic programming over a nice tree
//! decomposition of the pattern.

pub mod all_patterns;
pub mod bounds;
pub mod brute_force;
pub mod decomposition_check;
pub mod diaz;
pub mod digits;
pub mod dynamic_program;
pub mod edge_sets;
pub mod equivalence_class_algorithm;
pub mod file_handler;
pub mod graph_generation;
pub mod graphs;
pub mod integer_functions;
pub mod nice_tree_decomposition;
pub mod soundness;
pub mod text;
pub mod tree_decompositions;
