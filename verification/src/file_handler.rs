//! The text formats: graphs in the METIS format and nice tree
//! decompositions in the `.ntd` format. Both are read line by line, and
//! the first line that cannot be read decides the error.

use crate::graph_generation::graph_has_edges;
use crate::graph_generation::graph_of_edges;
use crate::graphs::Graph;
use crate::graphs::MAX_VERTEX;
use crate::nice_tree_decomposition::Bag;
use crate::nice_tree_decomposition::NiceTreeDecomposition;
use crate::nice_tree_decomposition::NodeData;
use crate::nice_tree_decomposition::NodeType;
use crate::text::lines;
use crate::text::lines_of;
use crate::text::number_of;
use crate::text::parse_number;
use crate::text::split;
use crate::text::views;
use crate::text::words_of;
use crate::tree_decompositions::FormatError;
use crate::tree_decompositions::TreeNode;
use crate::tree_decompositions::TreeStructure;
use crate::tree_decompositions::Vertex;
use std::collections::HashMap;
use vstd::prelude::*;
use vstd::std_specs::hash::group_hash_axioms;

verus! {

broadcast use group_hash_axioms;

/// What has been read of a graph: the number of vertices, once the header
/// was read, the vertex whose line comes next, and the edges so far.
pub struct GraphText {
    pub vertices: Option<u64>,
    pub current: nat,
    pub edges: Seq<(usize, usize)>,
}

/// The edges that a line of neighbours gives to the vertex `vertex`: each
/// word is the number of a neighbour, counted from 1, in a graph of `n`
/// vertices.
pub open spec fn neighbours_of(words: Seq<Seq<u8>>, vertex: nat, n: u64) -> Result<
    Seq<(usize, usize)>,
    FormatError,
>
    decreases words.len(),
{
    if words.len() == 0 {
        Ok(Seq::empty())
    } else {
        match neighbours_of(words.drop_last(), vertex, n) {
            Err(e) => Err(e),
            Ok(list) => match number_of(words.last()) {
                None => Err(FormatError::BadToken),
                Some(v) => if 1 <= v <= n && vertex < n {
                    Ok(list.push((vertex as usize, (v - 1) as usize)))
                } else {
                    Err(FormatError::UndefinedNode)
                },
            },
        }
    }
}

/// What one line adds to what has been read of a graph. A line that starts
/// with `%` is a comment. An empty line stands for a vertex without
/// neighbours. The first other line is the header, with the number of
/// vertices and the number of edges; every later one lists the neighbours
/// of the next vertex.
pub open spec fn graph_line(state: GraphText, line: Seq<u8>) -> Result<GraphText, FormatError> {
    if line.len() == 0 {
        Ok(GraphText { current: state.current + 1, ..state })
    } else if line[0] == 37 {
        Ok(state)
    } else {
        let words = words_of(line);
        match state.vertices {
            None => if words.len() < 2 {
                Err(FormatError::BadToken)
            } else {
                match (number_of(words[0]), number_of(words[1])) {
                    (Some(n), Some(_)) => if n <= MAX_VERTEX {
                        Ok(GraphText { vertices: Some(n), ..state })
                    } else {
                        Err(FormatError::TooLarge)
                    },
                    _ => Err(FormatError::BadToken),
                }
            },
            Some(n) => match neighbours_of(words, state.current, n) {
                Err(e) => Err(e),
                Ok(list) => Ok(
                    GraphText { current: state.current + 1, edges: state.edges + list, ..state },
                ),
            },
        }
    }
}

/// What the lines give, read one after the other.
pub open spec fn graph_lines(lines: Seq<Seq<u8>>) -> Result<GraphText, FormatError>
    decreases lines.len(),
{
    if lines.len() == 0 {
        Ok(GraphText { vertices: None, current: 0, edges: Seq::empty() })
    } else {
        match graph_lines(lines.drop_last()) {
            Err(e) => Err(e),
            Ok(state) => graph_line(state, lines.last()),
        }
    }
}

/// The graph that a text in the METIS format describes: its number of
/// vertices and its edges, with the vertices counted from 0.
pub open spec fn graph_of_text(text: Seq<u8>) -> Result<(nat, Seq<(usize, usize)>), FormatError> {
    match graph_lines(lines_of(text)) {
        Err(e) => Err(e),
        Ok(state) => match state.vertices {
            None => Err(FormatError::MissingHeader),
            Some(n) => Ok((n as nat, state.edges)),
        },
    }
}

/// The edges that a line of neighbours gives to the vertex `vertex`.
fn read_neighbours(words: &Vec<Vec<u8>>, vertex: usize, n: u64, edges: &mut Vec<(usize, usize)>) -> (r:
    Result<(), FormatError>)
    requires
        n <= MAX_VERTEX,
    ensures
        match r {
            Ok(_) => neighbours_of(views(words@), vertex as nat, n) is Ok && final(edges)@ == old(
                edges,
            )@ + neighbours_of(views(words@), vertex as nat, n)->Ok_0,
            Err(e) => neighbours_of(views(words@), vertex as nat, n) == Err::<
                Seq<(usize, usize)>,
                FormatError,
            >(e),
        },
{
    let ghost all = views(words@);
    let mut k: usize = 0;
    assert(all.take(0) == Seq::<Seq<u8>>::empty());
    assert(edges@ + Seq::<(usize, usize)>::empty() == edges@);
    while k < words.len()
        invariant
            k <= words.len(),
            all == views(words@),
            n <= MAX_VERTEX,
            neighbours_of(all.take(k as int), vertex as nat, n) is Ok,
            edges@ == old(edges)@ + neighbours_of(all.take(k as int), vertex as nat, n)->Ok_0,
        decreases words.len() - k,
    {
        let ghost sofar = all.take(k as int);
        let ghost next = all.take(k + 1);
        proof {
            assert(next.drop_last() == sofar);
            assert(next.last() == words@[k as int]@);
            if neighbours_of(next, vertex as nat, n) is Err {
                lemma_neighbours_error(all, k + 1, vertex as nat, n);
            }
        }
        match parse_number(&words[k]) {
            None => {
                return Err(FormatError::BadToken);
            },
            Some(v) => {
                if 1 <= v && v <= n && (vertex as u64) < n {
                    let ghost list = neighbours_of(sofar, vertex as nat, n)->Ok_0;
                    edges.push((vertex, (v - 1) as usize));
                    assert(edges@ =~= old(edges)@ + list.push((vertex, (v - 1) as usize)));
                } else {
                    return Err(FormatError::UndefinedNode);
                }
            },
        }
        k = k + 1;
    }
    assert(all.take(all.len() as int) == all);
    Ok(())
}

/// An error among the first words of a line is the error of the line.
pub proof fn lemma_neighbours_error(words: Seq<Seq<u8>>, k: int, vertex: nat, n: u64)
    requires
        0 <= k <= words.len(),
        neighbours_of(words.take(k), vertex, n) is Err,
    ensures
        neighbours_of(words, vertex, n) == neighbours_of(words.take(k), vertex, n),
    decreases words.len() - k,
{
    if k < words.len() {
        let next = words.take(k + 1);
        assert(next.drop_last() == words.take(k));
        lemma_neighbours_error(words, k + 1, vertex, n);
    } else {
        assert(words.take(k) == words);
    }
}

/// An error among the first lines of a text is the error of the text.
pub proof fn lemma_graph_lines_error(lines: Seq<Seq<u8>>, k: int)
    requires
        0 <= k <= lines.len(),
        graph_lines(lines.take(k)) is Err,
    ensures
        graph_lines(lines) == graph_lines(lines.take(k)),
    decreases lines.len() - k,
{
    if k < lines.len() {
        let next = lines.take(k + 1);
        assert(next.drop_last() == lines.take(k));
        lemma_graph_lines_error(lines, k + 1);
    } else {
        assert(lines.take(k) == lines);
    }
}

/// Reads a graph from a text in the METIS format: the header line gives
/// the number of vertices and of edges, and the line of each vertex lists
/// its neighbours, counted from 1. The graph has the vertices from 0.
pub fn import_metis(text: &[u8]) -> (r: Result<Graph, FormatError>)
    ensures
        match r {
            Ok(g) => graph_of_text(text@) is Ok && graph_has_edges(
                g,
                graph_of_text(text@)->Ok_0.0,
                graph_of_text(text@)->Ok_0.1,
            ),
            Err(e) => graph_of_text(text@) == Err::<(nat, Seq<(usize, usize)>), FormatError>(e),
        },
{
    let all_lines = lines(text);
    let ghost all = views(all_lines@);
    let mut vertices: Option<u64> = None;
    let mut current_vertex: usize = 0;
    let mut edges: Vec<(usize, usize)> = Vec::new();
    let mut i: usize = 0;
    assert(all.take(0) == Seq::<Seq<u8>>::empty());
    while i < all_lines.len()
        invariant
            i <= all_lines.len(),
            all == views(all_lines@),
            all == lines_of(text@),
            current_vertex <= i,
            vertices is Some ==> vertices->0 <= MAX_VERTEX,
            graph_lines(all.take(i as int)) == Ok::<GraphText, FormatError>(
                GraphText { vertices, current: current_vertex as nat, edges: edges@ },
            ),
        decreases all_lines.len() - i,
    {
        let line = &all_lines[i];
        let ghost state = GraphText { vertices, current: current_vertex as nat, edges: edges@ };
        proof {
            let next = all.take(i + 1);
            assert(next.drop_last() == all.take(i as int));
            assert(next.last() == line@);
            assert(graph_lines(next) == graph_line(state, line@));
            if graph_line(state, line@) is Err {
                lemma_graph_lines_error(all, i + 1);
            }
        }
        if line.len() == 0 {
            current_vertex = current_vertex + 1;
        } else if line[0] == 37 {
        } else {
            let words = split(line.as_slice(), 32);
            match vertices {
                None => {
                    if words.len() < 2 {
                        return Err(FormatError::BadToken);
                    }
                    match (parse_number(&words[0]), parse_number(&words[1])) {
                        (Some(n), Some(_)) => {
                            if n <= MAX_VERTEX as u64 {
                                vertices = Some(n);
                            } else {
                                return Err(FormatError::TooLarge);
                            }
                        },
                        _ => {
                            return Err(FormatError::BadToken);
                        },
                    }
                },
                Some(n) => {
                    match read_neighbours(&words, current_vertex, n, &mut edges) {
                        Err(e) => {
                            return Err(e);
                        },
                        Ok(_) => {
                            current_vertex = current_vertex + 1;
                        },
                    }
                },
            }
        }
        i = i + 1;
    }
    assert(all.take(all.len() as int) == all);
    match vertices {
        None => Err(FormatError::MissingHeader),
        Some(n) => Ok(graph_of_edges(n as usize, &edges)),
    }
}

/// What has been read of a decomposition: the sizes that the header
/// declares, the edges of the tree, and the kind and the vertices of each
/// node.
pub struct DecompositionText {
    pub header: bool,
    pub nodes: u64,
    pub max_bag_size: u64,
    pub vertices: u64,
    pub parents: Map<TreeNode, TreeNode>,
    pub children: Map<TreeNode, Seq<TreeNode>>,
    pub data: Map<TreeNode, (NodeType, Seq<Vertex>)>,
}

/// The children that were read for node `p`.
pub open spec fn children_in(state: DecompositionText, p: TreeNode) -> Seq<TreeNode> {
    if state.children.contains_key(p) {
        state.children[p]
    } else {
        Seq::empty()
    }
}

/// The kind of node that the word stands for: `l`, `i`, `f` or `j`.
pub open spec fn kind_of_word(word: Seq<u8>) -> Option<NodeType> {
    if word.len() != 1 {
        None
    } else if word[0] == 108 {
        Some(NodeType::Leaf)
    } else if word[0] == 105 {
        Some(NodeType::Introduce)
    } else if word[0] == 102 {
        Some(NodeType::Forget)
    } else if word[0] == 106 {
        Some(NodeType::Join)
    } else {
        None
    }
}

/// The vertices that the words of a bag stand for: each word is the
/// number of a vertex, counted from 1.
pub open spec fn bag_of_words(words: Seq<Seq<u8>>) -> Result<Seq<Vertex>, FormatError>
    decreases words.len(),
{
    if words.len() == 0 {
        Ok(Seq::empty())
    } else {
        match bag_of_words(words.drop_last()) {
            Err(e) => Err(e),
            Ok(bag) => match number_of(words.last()) {
                None => Err(FormatError::BadToken),
                Some(v) => if v < 1 {
                    Err(FormatError::UndefinedNode)
                } else if v - 1 > usize::MAX {
                    Err(FormatError::TooLarge)
                } else {
                    Ok(bag.push((v - 1) as usize))
                },
            },
        }
    }
}

/// What a header line gives: `s`, the number of nodes, the largest size
/// of a bag and the number of vertices.
pub open spec fn header_line(state: DecompositionText, words: Seq<Seq<u8>>) -> Result<
    DecompositionText,
    FormatError,
> {
    if words.len() < 4 {
        Err(FormatError::BadToken)
    } else {
        match (number_of(words[1]), number_of(words[2]), number_of(words[3])) {
            (Some(nodes), Some(max_bag_size), Some(vertices)) => if max_bag_size < 1 {
                Err(FormatError::BadToken)
            } else if vertices > usize::MAX || max_bag_size - 1 > usize::MAX {
                Err(FormatError::TooLarge)
            } else {
                Ok(
                    DecompositionText {
                        header: true,
                        nodes,
                        max_bag_size,
                        vertices,
                        parents: Map::empty(),
                        children: Map::empty(),
                        data: state.data,
                    },
                )
            },
            _ => Err(FormatError::BadToken),
        }
    }
}

/// What a node line gives: `n`, the number of the node, counted from 1,
/// its kind and the vertices of its bag.
pub open spec fn node_line(state: DecompositionText, words: Seq<Seq<u8>>) -> Result<
    DecompositionText,
    FormatError,
> {
    if words.len() < 3 {
        Err(FormatError::BadToken)
    } else {
        match number_of(words[1]) {
            None => Err(FormatError::BadToken),
            Some(id) => if id < 1 || id > state.nodes {
                Err(FormatError::UndefinedNode)
            } else {
                match kind_of_word(words[2]) {
                    None => Err(FormatError::BadToken),
                    Some(kind) => match bag_of_words(words.subrange(3, words.len() as int)) {
                        Err(e) => Err(e),
                        Ok(bag) => Ok(
                            DecompositionText {
                                data: state.data.insert((id - 1) as u64, (kind, bag)),
                                ..state
                            },
                        ),
                    },
                }
            },
        }
    }
}

/// What an edge line gives: `a`, the number of the parent and the number
/// of the child, counted from 1.
pub open spec fn edge_line(state: DecompositionText, words: Seq<Seq<u8>>) -> Result<
    DecompositionText,
    FormatError,
> {
    if words.len() < 3 {
        Err(FormatError::BadToken)
    } else {
        match (number_of(words[1]), number_of(words[2])) {
            (Some(parent), Some(child)) => if parent < 1 || child < 1 {
                Err(FormatError::UndefinedNode)
            } else {
                let p = (parent - 1) as u64;
                let q = (child - 1) as u64;
                if state.parents.contains_key(q) {
                    Err(FormatError::SecondParent)
                } else if p >= state.nodes || q >= state.nodes {
                    Err(FormatError::UndefinedNode)
                } else {
                    Ok(
                        DecompositionText {
                            parents: state.parents.insert(q, p),
                            children: state.children.insert(p, children_in(state, p).push(q)),
                            ..state
                        },
                    )
                }
            },
            _ => Err(FormatError::BadToken),
        }
    }
}

/// What one line adds to what has been read of a decomposition. The
/// first word says what the line is: `s` the header, `n` a node, `a` an
/// edge of the tree; any other line is passed over.
pub open spec fn decomposition_line(state: DecompositionText, line: Seq<u8>) -> Result<
    DecompositionText,
    FormatError,
> {
    let words = words_of(line);
    if words[0] == seq![115u8] {
        header_line(state, words)
    } else if words[0] == seq![110u8] {
        node_line(state, words)
    } else if words[0] == seq![97u8] {
        edge_line(state, words)
    } else {
        Ok(state)
    }
}

/// What the lines give, read one after the other.
pub open spec fn decomposition_lines(lines: Seq<Seq<u8>>) -> Result<DecompositionText, FormatError>
    decreases lines.len(),
{
    if lines.len() == 0 {
        Ok(
            DecompositionText {
                header: false,
                nodes: 0,
                max_bag_size: 0,
                vertices: 0,
                parents: Map::empty(),
                children: Map::empty(),
                data: Map::empty(),
            },
        )
    } else {
        match decomposition_lines(lines.drop_last()) {
            Err(e) => Err(e),
            Ok(state) => decomposition_line(state, lines.last()),
        }
    }
}

/// The decomposition that a text in the `.ntd` format describes.
pub open spec fn decomposition_of_text(text: Seq<u8>) -> Result<DecompositionText, FormatError> {
    match decomposition_lines(lines_of(text)) {
        Err(e) => Err(e),
        Ok(state) => if state.header {
            Ok(state)
        } else {
            Err(FormatError::MissingHeader)
        },
    }
}

/// The tree and the node data hold what was read.
pub open spec fn holds_text(
    tree: TreeStructure,
    nodes_data: Map<TreeNode, NodeData>,
    state: DecompositionText,
) -> bool {
    &&& tree.wf()
    &&& tree.spec_node_count() == state.nodes
    &&& tree.spec_parents() == state.parents
    &&& forall|p: TreeNode| #[trigger] tree.spec_children(p) == children_in(state, p)
    &&& forall|p: TreeNode| #[trigger] nodes_data.contains_key(p) <==> state.data.contains_key(p)
    &&& forall|p: TreeNode| #[trigger]
        nodes_data.contains_key(p) ==> nodes_data[p].wf() && nodes_data[p].spec_node_type()
            == state.data[p].0 && forall|v: Vertex|
            nodes_data[p].spec_bag().contains(v) <==> state.data[p].1.contains(v)
}

/// The decomposition is the one that the text describes: the same tree,
/// for each node the kind and the vertices that were read, and the
/// declared number of vertices and width.
pub open spec fn describes(ntd: NiceTreeDecomposition, state: DecompositionText) -> bool {
    &&& ntd.wf()
    &&& holds_text(ntd.spec_tree(), ntd.spec_data(), state)
    &&& ntd.spec_vertex_count() == state.vertices
    &&& ntd.spec_width() == state.max_bag_size - 1
}

/// An error among the first words of a bag is the error of the bag.
pub proof fn lemma_bag_error(words: Seq<Seq<u8>>, k: int)
    requires
        0 <= k <= words.len(),
        bag_of_words(words.take(k)) is Err,
    ensures
        bag_of_words(words) == bag_of_words(words.take(k)),
    decreases words.len() - k,
{
    if k < words.len() {
        let next = words.take(k + 1);
        assert(next.drop_last() == words.take(k));
        lemma_bag_error(words, k + 1);
    } else {
        assert(words.take(k) == words);
    }
}

/// An error among the first lines of a text is the error of the text.
pub proof fn lemma_decomposition_lines_error(lines: Seq<Seq<u8>>, k: int)
    requires
        0 <= k <= lines.len(),
        decomposition_lines(lines.take(k)) is Err,
    ensures
        decomposition_lines(lines) == decomposition_lines(lines.take(k)),
    decreases lines.len() - k,
{
    if k < lines.len() {
        let next = lines.take(k + 1);
        assert(next.drop_last() == lines.take(k));
        lemma_decomposition_lines_error(lines, k + 1);
    } else {
        assert(lines.take(k) == lines);
    }
}

/// Whether the word is the one letter.
fn is_letter(word: &Vec<u8>, letter: u8) -> (r: bool)
    ensures
        r == (word@ == seq![letter]),
{
    if word.len() == 1 && word[0] == letter {
        assert(word@ =~= seq![letter]);
        true
    } else {
        proof {
            if word@ == seq![letter] {
                assert(seq![letter].len() == 1 && seq![letter][0] == letter);
            }
        }
        false
    }
}

/// The kind of node that the word stands for.
fn read_kind(word: &Vec<u8>) -> (r: Option<NodeType>)
    ensures
        r == kind_of_word(word@),
{
    if word.len() != 1 {
        None
    } else if word[0] == 108 {
        Some(NodeType::Leaf)
    } else if word[0] == 105 {
        Some(NodeType::Introduce)
    } else if word[0] == 102 {
        Some(NodeType::Forget)
    } else if word[0] == 106 {
        Some(NodeType::Join)
    } else {
        None
    }
}

/// The vertices that the words from the fourth on stand for.
fn read_bag(words: &Vec<Vec<u8>>) -> (r: Result<Bag, FormatError>)
    requires
        words@.len() >= 3,
    ensures
        match r {
            Ok(bag) => bag_of_words(views(words@).subrange(3, words@.len() as int)) == Ok::<
                Seq<Vertex>,
                FormatError,
            >(bag@),
            Err(e) => bag_of_words(views(words@).subrange(3, words@.len() as int)) == Err::<
                Seq<Vertex>,
                FormatError,
            >(e),
        },
{
    let ghost rest = views(words@).subrange(3, words@.len() as int);
    let mut bag: Bag = Vec::new();
    let mut k: usize = 3;
    assert(rest.take(0) == Seq::<Seq<u8>>::empty());
    while k < words.len()
        invariant
            3 <= k <= words.len(),
            rest == views(words@).subrange(3, words@.len() as int),
            bag_of_words(rest.take(k - 3)) == Ok::<Seq<Vertex>, FormatError>(bag@),
        decreases words.len() - k,
    {
        let ghost sofar = rest.take(k - 3);
        let ghost next = rest.take(k - 2);
        proof {
            assert(next.drop_last() == sofar);
            assert(next.last() == words@[k as int]@);
            if bag_of_words(next) is Err {
                lemma_bag_error(rest, k - 2);
            }
        }
        match parse_number(&words[k]) {
            None => {
                return Err(FormatError::BadToken);
            },
            Some(v) => {
                if v < 1 {
                    return Err(FormatError::UndefinedNode);
                } else if v - 1 > usize::MAX as u64 {
                    return Err(FormatError::TooLarge);
                } else {
                    bag.push((v - 1) as usize);
                }
            },
        }
        k = k + 1;
    }
    assert(rest.take(rest.len() as int) == rest);
    Ok(bag)
}

/// Reads a nice tree decomposition from a text in the `.ntd` format: the
/// header line `s` declares the number of nodes, the largest size of a
/// bag and the number of vertices; a line `n` gives a node its kind and its
/// bag; a line `a` makes one node the child of another. Nodes and vertices
/// are counted from 1 in the text and from 0 in the decomposition.
pub fn import_ntd(text: &[u8]) -> (r: Result<NiceTreeDecomposition, FormatError>)
    ensures
        match r {
            Ok(ntd) => decomposition_of_text(text@) is Ok && describes(
                ntd,
                decomposition_of_text(text@)->Ok_0,
            ),
            Err(e) => decomposition_of_text(text@) == Err::<DecompositionText, FormatError>(e),
        },
{
    let all_lines = lines(text);
    let ghost all = views(all_lines@);
    let mut header: bool = false;
    let mut max_bag_size: u64 = 0;
    let mut number_of_vertices: u64 = 0;
    let mut tree_structure: TreeStructure = TreeStructure::new(0);
    let mut nodes_data: HashMap<TreeNode, NodeData> = HashMap::new();
    let ghost mut state = DecompositionText {
        header: false,
        nodes: 0,
        max_bag_size: 0,
        vertices: 0,
        parents: Map::empty(),
        children: Map::empty(),
        data: Map::empty(),
    };
    let mut i: usize = 0;
    assert(all.take(0) == Seq::<Seq<u8>>::empty());
    while i < all_lines.len()
        invariant
            i <= all_lines.len(),
            all == views(all_lines@),
            all == lines_of(text@),
            decomposition_lines(all.take(i as int)) == Ok::<DecompositionText, FormatError>(state),
            holds_text(tree_structure, nodes_data@, state),
            state.header == header,
            state.max_bag_size == max_bag_size,
            state.vertices == number_of_vertices,
            header ==> max_bag_size >= 1 && max_bag_size - 1 <= usize::MAX && number_of_vertices
                <= usize::MAX,
        decreases all_lines.len() - i,
    {
        let line = &all_lines[i];
        proof {
            let next = all.take(i + 1);
            assert(next.drop_last() == all.take(i as int));
            assert(next.last() == line@);
            assert(decomposition_lines(next) == decomposition_line(state, line@));
            if decomposition_line(state, line@) is Err {
                lemma_decomposition_lines_error(all, i + 1);
            }
            crate::text::lemma_split_has_pieces(line@, 32);
        }
        let words = split(line.as_slice(), 32);
        let ghost w = views(words@);
        assert(w[0] == words@[0]@);
        if is_letter(&words[0], 115) {
            if words.len() < 4 {
                return Err(FormatError::BadToken);
            }
            match (parse_number(&words[1]), parse_number(&words[2]), parse_number(&words[3])) {
                (Some(nodes), Some(bag_size), Some(vertices)) => {
                    if bag_size < 1 {
                        return Err(FormatError::BadToken);
                    } else if vertices > usize::MAX as u64 || bag_size - 1 > usize::MAX as u64 {
                        return Err(FormatError::TooLarge);
                    }
                    header = true;
                    max_bag_size = bag_size;
                    number_of_vertices = vertices;
                    tree_structure = TreeStructure::new(nodes);
                    proof {
                        state = header_line(state, w)->Ok_0;
                    }
                },
                _ => {
                    return Err(FormatError::BadToken);
                },
            }
        } else if is_letter(&words[0], 110) {
            if words.len() < 3 {
                return Err(FormatError::BadToken);
            }
            let id: u64 = match parse_number(&words[1]) {
                None => {
                    return Err(FormatError::BadToken);
                },
                Some(id) => id,
            };
            if id < 1 || id > tree_structure.node_count() {
                return Err(FormatError::UndefinedNode);
            }
            let kind: NodeType = match read_kind(&words[2]) {
                None => {
                    return Err(FormatError::BadToken);
                },
                Some(kind) => kind,
            };
            let bag: Bag = match read_bag(&words) {
                Err(e) => {
                    return Err(e);
                },
                Ok(bag) => bag,
            };
            let ghost read = bag@;
            let node_data = NodeData::new(kind, bag);
            nodes_data.insert(id - 1, node_data);
            proof {
                state = node_line(state, w)->Ok_0;
            }
        } else if is_letter(&words[0], 97) {
            if words.len() < 3 {
                return Err(FormatError::BadToken);
            }
            match (parse_number(&words[1]), parse_number(&words[2])) {
                (Some(parent), Some(child)) => {
                    if parent < 1 || child < 1 {
                        return Err(FormatError::UndefinedNode);
                    }
                    let ghost before = tree_structure;
                    match tree_structure.add_child(parent - 1, child - 1) {
                        Err(e) => {
                            proof {
                                assert(before.spec_parent((child - 1) as u64) is Some
                                    <==> state.parents.contains_key((child - 1) as u64));
                            }
                            return Err(e);
                        },
                        Ok(_) => {
                            proof {
                                let old_state = state;
                                state = edge_line(state, w)->Ok_0;
                                assert forall|p: TreeNode| #[trigger]
                                    tree_structure.spec_children(p) == children_in(state, p) by {
                                    assert(before.spec_children(p) == children_in(old_state, p));
                                }
                            }
                        },
                    }
                },
                _ => {
                    return Err(FormatError::BadToken);
                },
            }
        }
        i = i + 1;
    }
    assert(all.take(all.len() as int) == all);
    if !header {
        return Err(FormatError::MissingHeader);
    }
    Ok(
        NiceTreeDecomposition::new(
            tree_structure,
            nodes_data,
            number_of_vertices as usize,
            (max_bag_size - 1) as usize,
        ),
    )
}

} // verus!
