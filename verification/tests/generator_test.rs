use logos_core::generator::{generate, ArmBody, Backtrack, LoopTest, OnMiss};
use logos_core::graph::arena::Arena;
use logos_core::graph::byte_set::ByteSet;
use logos_core::graph::fork::Fork;
use logos_core::graph::node::Node;
use logos_core::graph::rope::Rope;
use logos_core::graph::{Graph, NodeId};
use logos_core::SimpleVariantMatch;

fn set(bytes: &[u8]) -> ByteSet {
    let mut s = ByteSet::empty();
    for b in bytes {
        s.insert(*b);
    }
    s
}

fn graph_with<'a>(nodes: Vec<Node<'a, SimpleVariantMatch<'a>>>, start: usize) -> Graph<'a, SimpleVariantMatch<'a>> {
    let mut arena = Arena::new();
    for node in nodes {
        arena.insert(node);
    }
    Graph { nodes: arena, start_node_id: NodeId(start) }
}

#[test]
fn generate_plans_forks_ropes_and_matches() {
    let a = SimpleVariantMatch::new("a", 2);
    let abcd = SimpleVariantMatch::new("abcd", 8);
    let mut fork = Fork::new();
    fork.lookup_table[b'b' as usize] = Some(NodeId(2));
    fork.record_miss_backtrack_idx = Some(NodeId(0));
    let mut rope = Rope::new(vec![set(b"c"), set(b"d")], NodeId(3));
    rope.miss = Some(NodeId(0));
    let graph = graph_with(
        vec![Node::VariantMatch(&a), Node::Fork(fork), Node::Rope(rope), Node::VariantMatch(&abcd)],
        1,
    );
    let plan = generate(&graph, NodeId(1));
    assert_eq!(plan.initial_state, NodeId(1));
    assert_eq!(plan.arms.len(), 4);
    assert!(!plan.uses_fast_loop);
    assert!(plan.backtrack_fields.is_empty());
    assert!(plan.rope_lookups.is_empty());
    match &plan.arms[0].1 {
        ArmBody::VariantMatch(v) => assert_eq!(v.name, "a"),
        _ => panic!("expected a variant match"),
    }
    match &plan.arms[1].1 {
        ArmBody::Fork { lookup_table, record, is_entrypoint, on_miss } => {
            assert_eq!(lookup_table[b'b' as usize], Some(NodeId(2)));
            assert_eq!(lookup_table.iter().filter(|t| t.is_some()).count(), 1);
            assert_eq!(*record, None);
            assert!(*is_entrypoint);
            assert_eq!(*on_miss, OnMiss::Break);
        }
        _ => panic!("expected a fork"),
    }
    match &plan.arms[2].1 {
        ArmBody::RopeBytes { record, length, bytes, then, on_miss } => {
            assert_eq!(*record, None);
            assert_eq!(*length, 2);
            assert_eq!(bytes, &vec![b'c', b'd']);
            assert_eq!(*then, NodeId(3));
            assert_eq!(*on_miss, OnMiss::Goto(NodeId(0), Backtrack::Distance(1)));
        }
        _ => panic!("expected a rope of bytes"),
    }
}

#[test]
fn generate_plans_fast_loops_and_lookups() {
    let word = SimpleVariantMatch::new("word", 2);
    let space = SimpleVariantMatch::new("space", 2);
    let mut letters = Rope::new(vec![set(b"abc")], NodeId(1));
    letters.miss = Some(NodeId(0));
    letters.record_miss_backtrack_idx = Some(NodeId(0));
    let mut spaces = Rope::new(vec![set(b" ")], NodeId(3));
    spaces.miss = Some(NodeId(2));
    let mut classes = Rope::new(vec![set(b"ab"), set(b"c"), set(b"ab")], NodeId(1));
    classes.miss = None;
    let graph = graph_with(
        vec![
            Node::VariantMatch(&word),
            Node::Rope(letters),
            Node::VariantMatch(&space),
            Node::Rope(spaces),
            Node::Rope(classes),
        ],
        4,
    );
    let plan = generate(&graph, NodeId(4));
    assert!(plan.uses_fast_loop);
    match &plan.arms[1].1 {
        ArmBody::FastLoop { test, record, on_miss } => {
            assert_eq!(*test, LoopTest::Lookup(0, 0));
            assert_eq!(*record, None);
            assert_eq!(*on_miss, OnMiss::Goto(NodeId(0), Backtrack::Unchanged));
        }
        _ => panic!("expected a fast loop"),
    }
    match &plan.arms[3].1 {
        ArmBody::FastLoop { test, .. } => assert_eq!(*test, LoopTest::Byte(b' ')),
        _ => panic!("expected a fast loop"),
    }
    match &plan.arms[4].1 {
        ArmBody::RopeLookups { length, checks, then, on_miss, .. } => {
            assert_eq!(*length, 3);
            assert_eq!(checks, &vec![(0, 1), (0, 2), (0, 1)]);
            assert_eq!(*then, NodeId(1));
            assert_eq!(*on_miss, OnMiss::Break);
        }
        _ => panic!("expected a rope of lookups"),
    }
    assert_eq!(plan.rope_lookups.len(), 1);
    let table = &plan.rope_lookups[0];
    assert_eq!(table[b'a' as usize], 0b011);
    assert_eq!(table[b'b' as usize], 0b011);
    assert_eq!(table[b'c' as usize], 0b101);
    assert_eq!(table[b'd' as usize], 0);
}

#[test]
fn generate_stores_positions_without_static_distance() {
    let a = SimpleVariantMatch::new("a", 2);
    let abcd = SimpleVariantMatch::new("abcd", 8);
    let mut fork = Fork::new();
    fork.lookup_table[b'b' as usize] = Some(NodeId(2));
    fork.lookup_table[b'x' as usize] = Some(NodeId(4));
    fork.record_miss_backtrack_idx = Some(NodeId(0));
    let mut cd = Rope::new(vec![set(b"c"), set(b"d")], NodeId(3));
    cd.miss = Some(NodeId(0));
    let y = Rope::new(vec![set(b"y")], NodeId(5));
    let mut z = Rope::new(vec![set(b"z")], NodeId(3));
    z.miss = Some(NodeId(0));
    let graph = graph_with(
        vec![
            Node::VariantMatch(&a),
            Node::Fork(fork),
            Node::Rope(cd),
            Node::VariantMatch(&abcd),
            Node::Rope(y),
            Node::Rope(z),
        ],
        1,
    );
    let plan = generate(&graph, NodeId(1));
    assert_eq!(plan.backtrack_fields, vec![NodeId(0)]);
    match &plan.arms[1].1 {
        ArmBody::Fork { record, .. } => assert_eq!(*record, Some(NodeId(0))),
        _ => panic!("expected a fork"),
    }
    match &plan.arms[2].1 {
        ArmBody::RopeBytes { on_miss, .. } => {
            assert_eq!(*on_miss, OnMiss::Goto(NodeId(0), Backtrack::Stored(NodeId(0))))
        }
        _ => panic!("expected a rope of bytes"),
    }
}
