use logos_core::analysis::BacktrackDistanceAnalysis;
use logos_core::graph::arena::Arena;
use logos_core::graph::byte_set::ByteSet;
use logos_core::graph::fork::Fork;
use logos_core::graph::node::Node;
use logos_core::graph::rope::Rope;
use logos_core::graph::{Graph, NodeId};
use logos_core::{Lexer, SimpleVariantMatch, Specification};

fn rope<'a>(bytes: &[u8], target: usize, miss: Option<usize>) -> Node<'a, SimpleVariantMatch<'a>> {
    let mut rope = Rope::new(bytes.iter().map(|b| ByteSet::singleton(*b)).collect(), NodeId(target));
    rope.miss = miss.map(NodeId);
    Node::Rope(rope)
}

fn graph_with<'a>(
    nodes: Vec<Node<'a, SimpleVariantMatch<'a>>>,
    start: usize,
) -> Graph<'a, SimpleVariantMatch<'a>> {
    let mut arena = Arena::new();
    for node in nodes {
        arena.insert(node);
    }
    Graph { nodes: arena, start_node_id: NodeId(start) }
}


fn fork_recording<'a>(record: usize, branches: &[(u8, usize)]) -> Node<'a, SimpleVariantMatch<'a>> {
    let mut fork = Fork::new();
    for (byte, target) in branches {
        fork.lookup_table[*byte as usize] = Some(NodeId(*target));
    }
    fork.record_miss_backtrack_idx = Some(NodeId(record));
    Node::Fork(fork)
}

#[test]
fn analysis_finds_one_static_distance() {
    let a = SimpleVariantMatch::new("a", 2);
    let abcd = SimpleVariantMatch::new("abcd", 8);
    let graph = graph_with(
        vec![
            Node::VariantMatch(&a),
            fork_recording(0, &[(b'b', 2)]),
            rope(b"cd", 3, Some(0)),
            Node::VariantMatch(&abcd),
        ],
        1,
    );
    let analysis = BacktrackDistanceAnalysis::new(&graph);
    assert_eq!(analysis.static_distance_for_backtrack(NodeId(0)), Some(1));
    assert_eq!(analysis.static_distance_for_backtrack(NodeId(1)), None);
    assert_eq!(analysis.static_distance_for_backtrack(NodeId(9)), None);
}

#[test]
fn analysis_keeps_no_distance_when_paths_differ() {
    let a = SimpleVariantMatch::new("a", 2);
    let abcd = SimpleVariantMatch::new("abcd", 8);
    let graph = graph_with(
        vec![
            Node::VariantMatch(&a),
            fork_recording(0, &[(b'b', 2), (b'x', 4)]),
            rope(b"cd", 3, Some(0)),
            Node::VariantMatch(&abcd),
            rope(b"y", 5, None),
            rope(b"z", 3, Some(0)),
        ],
        1,
    );
    let analysis = BacktrackDistanceAnalysis::new(&graph);
    assert_eq!(analysis.static_distance_for_backtrack(NodeId(0)), None);
    match &analysis.distances[0] {
        Some(Err(distances)) => {
            let mut distances = distances.clone();
            distances.sort();
            distances.dedup();
            assert_eq!(distances, vec![1, 2]);
        }
        _ => panic!("expected several distances"),
    }
}

#[test]
fn analysis_distance_zero_at_the_recording_node() {
    let a = SimpleVariantMatch::new("a", 2);
    let abcd = SimpleVariantMatch::new("abcd", 8);
    let mut recording = Rope::new(vec![ByteSet::singleton(b'b')], NodeId(2));
    recording.miss = Some(NodeId(0));
    recording.record_miss_backtrack_idx = Some(NodeId(0));
    let graph = graph_with(
        vec![Node::VariantMatch(&a), Node::Rope(recording), Node::VariantMatch(&abcd)],
        1,
    );
    let analysis = BacktrackDistanceAnalysis::new(&graph);
    assert_eq!(analysis.static_distance_for_backtrack(NodeId(0)), Some(0));
}

#[test]
fn analysis_on_a_built_lexer() {
    let lexer = Lexer::new(vec![
        (Specification::new_str_sequence("a"), SimpleVariantMatch::new("a", 2)),
        (Specification::new_str_sequence("abcd"), SimpleVariantMatch::new("abcd", 8)),
    ])
    .unwrap();
    let graph = Graph::for_lexer(&lexer).unwrap();
    let analysis = BacktrackDistanceAnalysis::new(&graph);
    let a_id = graph
        .iter()
        .into_iter()
        .find(|(_, node)| matches!(node, Node::VariantMatch(v) if v.name == "a"))
        .unwrap()
        .0;
    assert!(analysis.static_distance_for_backtrack(a_id).is_some());
}
