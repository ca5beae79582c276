use logos_core::graph::byte_set::ByteSet;
use logos_core::graph::fork::Fork;
use logos_core::graph::node::Node;
use logos_core::graph::rope::Rope;
use logos_core::graph::{Error, Graph, GraphBuilder};
use logos_core::{Lexer, SimpleVariantMatch, Specification};

fn bytes(list: &[u8]) -> ByteSet {
    let mut set = ByteSet::empty();
    for b in list {
        set.insert(*b);
    }
    set
}

fn lowercase() -> ByteSet {
    bytes(&(b'a'..=b'z').collect::<Vec<u8>>())
}

fn set_members(set: &ByteSet) -> Vec<u8> {
    (0..=255u8).filter(|b| set.contains(*b)).collect()
}

#[test]
fn test_record_miss_backtrack_idx_properly_propagated_on_fork_rope_merge() {
    let mut graph_builder = GraphBuilder::new();
    let variant_match_a = SimpleVariantMatch::new("a", 2);
    let variant_match_a_id = graph_builder.insert(Node::VariantMatch(&variant_match_a));
    let mut fork = Fork::new();
    fork.lookup_table[b'a' as usize] = Some(variant_match_a_id);
    let fork_id = graph_builder.insert(Node::from_fork(fork));
    let variant_match_abc = SimpleVariantMatch::new("abc", 6);
    let variant_match_abc_id = graph_builder.insert(Node::VariantMatch(&variant_match_abc));
    let rope = Rope::new(
        vec![bytes(&[b'a']), bytes(&[b'b']), bytes(&[b'c'])],
        variant_match_abc_id,
    );
    let rope_id = graph_builder.insert(Node::Rope(rope));
    let merged_id = graph_builder.merge(fork_id, rope_id);
    let merged = graph_builder.get(merged_id);
    let Some(Node::Rope(rope)) = merged else {
        panic!("Expected merged node to be a rope, got {:?}", merged);
    };
    assert_eq!(rope.record_miss_backtrack_idx(), None);
    assert_eq!(rope.miss(), None);
    assert_eq!(rope.pattern().iter().map(set_members).collect::<Vec<_>>(), vec![vec![b'a']]);
    let node_id = rope.target();
    let node = graph_builder.get(node_id);
    let Some(Node::Rope(rope)) = node else {
        panic!("Expected rope to go to another rope, got {:?}", node);
    };
    assert_eq!(rope.record_miss_backtrack_idx(), Some(variant_match_a_id));
    assert_eq!(rope.miss(), Some(variant_match_a_id));
    assert_eq!(rope.pattern().iter().map(set_members).collect::<Vec<_>>(), vec![vec![b'b']]);
    let node_id = rope.target();
    let node = graph_builder.get(node_id);
    let Some(Node::Rope(rope)) = node else {
        panic!("Expected rope to go to another rope, got {:?}", node);
    };
    assert_eq!(rope.record_miss_backtrack_idx(), None);
    assert_eq!(rope.miss(), Some(variant_match_a_id));
}

#[test]
fn graph_test_longer_match_lower_priority() {
    let mut graph_builder = GraphBuilder::new();
    let variant_match_abc = SimpleVariantMatch::new("abc", 6);
    let variant_match_abc_id = graph_builder.insert(Node::VariantMatch(&variant_match_abc));
    let rope_def = Rope::new(
        vec![bytes(&[b'd']), bytes(&[b'e']), bytes(&[b'f'])],
        variant_match_abc_id,
    )
    .with_miss(Some((variant_match_abc_id, true)), &mut graph_builder);
    let rope_def_id = graph_builder.insert(rope_def);
    let rope_abc = Rope::new(vec![bytes(&[b'a']), bytes(&[b'b']), bytes(&[b'c'])], rope_def_id);
    let rope_abc_id = graph_builder.insert(Node::Rope(rope_abc));
    let variant_match_word = SimpleVariantMatch::new("word", 2);
    let variant_match_word_id = graph_builder.insert(Node::VariantMatch(&variant_match_word));
    let text_rope_reserved_id = graph_builder.reserve();
    let text_rope = Rope::new(vec![lowercase()], text_rope_reserved_id.0)
        .with_miss(Some((variant_match_word_id, true)), &mut graph_builder);
    let text_rope_id = graph_builder.insert_reserved(text_rope_reserved_id, text_rope);
    let text_start_rope = Rope::new(vec![lowercase()], text_rope_id);
    let text_start_rope_id = graph_builder.insert(Node::Rope(text_start_rope));
    let merge_id = graph_builder.merge(rope_abc_id, text_start_rope_id);
    let node = graph_builder.get(merge_id);
    let Some(Node::Fork(fork)) = node else {
        panic!("Expected merged node to be a fork, got {:?}", node);
    };
    let node_id = fork.lookup_table[b'a' as usize].unwrap();
    let node = graph_builder.get(node_id);
    let Some(Node::Fork(fork)) = node else {
        panic!("Expected merged node to be a fork, got {:?}", node);
    };
    assert_eq!(fork.miss(), Some(variant_match_word_id));
    assert_eq!(fork.record_miss_backtrack_idx(), Some(variant_match_word_id));
    let node_id = fork.lookup_table[b'b' as usize].unwrap();
    let node = graph_builder.get(node_id);
    let Some(Node::Fork(fork)) = node else {
        panic!("Expected merged node to be a fork, got {:?}", node);
    };
    assert_eq!(fork.miss(), Some(variant_match_word_id));
    assert_eq!(fork.record_miss_backtrack_idx(), Some(variant_match_word_id));
    let node_id = fork.lookup_table[b'c' as usize].unwrap();
    let node = graph_builder.get(node_id);
    let Some(Node::Fork(fork)) = node else {
        panic!("Expected merged node to be a fork, got {:?}", node);
    };
    assert_eq!(fork.miss(), Some(variant_match_abc_id));
    assert_eq!(fork.record_miss_backtrack_idx(), Some(variant_match_abc_id));
    let node_id = fork.lookup_table[b'd' as usize].unwrap();
    let node = graph_builder.get(node_id);
    let Some(Node::Fork(fork)) = node else {
        panic!("Expected merged node to be a fork, got {:?}", node);
    };
    assert_eq!(fork.miss(), Some(variant_match_word_id));
    assert_eq!(fork.record_miss_backtrack_idx(), Some(variant_match_word_id));
}

#[test]
fn test_overlapping_infinite_loops() {
    let mut graph_builder = GraphBuilder::new();
    let variant_match_abc = SimpleVariantMatch::new("abc", 6);
    let variant_match_abc_id = graph_builder.insert(Node::VariantMatch(&variant_match_abc));
    let rope_abc_reserved_id = graph_builder.reserve();
    let rope_abc = Rope::new(
        vec![bytes(&[b'a']), bytes(&[b'b']), bytes(&[b'c'])],
        rope_abc_reserved_id.0,
    )
    .with_miss(Some((variant_match_abc_id, true)), &mut graph_builder);
    let rope_abc_id = graph_builder.insert_reserved(rope_abc_reserved_id, rope_abc);
    let rope_abc_start = Rope::new(vec![bytes(&[b'a']), bytes(&[b'b']), bytes(&[b'c'])], rope_abc_id);
    let rope_abc_start_id = graph_builder.insert(Node::Rope(rope_abc_start));
    let variant_match_abcd = SimpleVariantMatch::new("abcd", 8);
    let variant_match_abcd_id = graph_builder.insert(Node::VariantMatch(&variant_match_abcd));
    let rope_d = Rope::new(vec![bytes(&[b'd'])], variant_match_abcd_id);
    let rope_d_id = graph_builder.insert(Node::Rope(rope_d));
    let _ = rope_d_id;
    let rope_abcd_loop_reserved_id = graph_builder.reserve();
    let rope_abcd_loop = Rope::new(
        vec![bytes(&[b'a']), bytes(&[b'b']), bytes(&[b'c'])],
        rope_abcd_loop_reserved_id.0,
    )
    .with_miss(Some((variant_match_abcd_id, true)), &mut graph_builder);
    let rope_abcd_loop_id = graph_builder.insert_reserved(rope_abcd_loop_reserved_id, rope_abcd_loop);
    let rope_abcd_start =
        Rope::new(vec![bytes(&[b'a']), bytes(&[b'b']), bytes(&[b'c'])], rope_abcd_loop_id);
    let rope_abcd_start_id = graph_builder.insert(Node::Rope(rope_abcd_start));
    let _merge_id = graph_builder.merge(rope_abc_start_id, rope_abcd_start_id);
}

#[test]
fn test_equal_priority_overlap_error() {
    let lexer = Lexer::new(vec![
        (Specification::Byte(b'a'), SimpleVariantMatch::new("a", 2)),
        (
            Specification::new_loop(1, None, Specification::ascii_alphabetic()),
            SimpleVariantMatch::new("text", 2),
        ),
    ])
    .unwrap();

    let errors = match Graph::for_lexer(&lexer) {
        Err(errors) => errors,
        Ok(_) => panic!("expected error"),
    };

    assert_eq!(
        errors,
        vec![Error::VariantMatchesOverlapWithSamePriority(
            &lexer.variant_matches()[1].1,
            &lexer.variant_matches()[0].1
        )],
    );
}

#[test]
fn test_simple_merge() {
    let mut graph_builder = GraphBuilder::new();
    let leaf1 = SimpleVariantMatch::new("a", 2);
    let leaf2 = SimpleVariantMatch::new("b", 2);
    let leaf1_id = graph_builder.insert(Node::VariantMatch(&leaf1));
    let leaf2_id = graph_builder.insert(Node::VariantMatch(&leaf2));
    let mut fork1 = Fork::new();
    fork1.lookup_table[b'a' as usize] = Some(leaf1_id);
    let mut fork2 = Fork::new();
    fork2.lookup_table[b'b' as usize] = Some(leaf2_id);
    fork1.merge(fork2, &mut graph_builder);
    assert_eq!(fork1.lookup_table[b'a' as usize], Some(leaf1_id));
    assert_eq!(fork1.lookup_table[b'b' as usize], Some(leaf2_id));
}

#[test]
fn with_miss_merges_fork() {
    let mut graph_builder = GraphBuilder::new();
    let leaf1 = SimpleVariantMatch::new("a", 2);
    let leaf2 = SimpleVariantMatch::new("b", 2);
    let leaf3 = SimpleVariantMatch::new("c", 2);
    let leaf1_id = graph_builder.insert(Node::VariantMatch(&leaf1));
    let leaf2_id = graph_builder.insert(Node::VariantMatch(&leaf2));
    let leaf3_id = graph_builder.insert(Node::VariantMatch(&leaf3));
    let mut fork1 = Fork::new();
    fork1.lookup_table[b'a' as usize] = Some(leaf1_id);
    let mut fork2 = Fork::new();
    fork2.lookup_table[b'b' as usize] = Some(leaf2_id);
    let mut fork3 = Fork::new();
    fork3.lookup_table[b'c' as usize] = Some(leaf3_id);
    let fork3_id = graph_builder.insert(Node::from_fork(fork3));
    fork2 = fork2.with_miss(Some((fork3_id, true)), &mut graph_builder);
    let fork2_id = graph_builder.insert(Node::from_fork(fork2));
    fork1 = fork1.with_miss(Some((fork2_id, true)), &mut graph_builder);
    assert_eq!(fork1.lookup_table[b'a' as usize], Some(leaf1_id));
    assert_eq!(fork1.lookup_table[b'b' as usize], Some(leaf2_id));
    assert_eq!(fork1.lookup_table[b'c' as usize], Some(leaf3_id));
    assert_eq!(fork1.miss(), None);
    assert_eq!(fork1.record_miss_backtrack_idx(), None);
}

#[test]
fn merge_is_remembered_in_either_order() {
    let mut graph_builder = GraphBuilder::new();
    let low = SimpleVariantMatch::new("low", 2);
    let high = SimpleVariantMatch::new("high", 4);
    let low_id = graph_builder.insert(Node::VariantMatch(&low));
    let high_id = graph_builder.insert(Node::VariantMatch(&high));
    let rope_id = graph_builder.insert(Node::Rope(Rope::new(vec![bytes(&[b'x'])], low_id)));
    let merged = graph_builder.merge(high_id, low_id);
    assert_eq!(merged, high_id);
    let merged_rope = graph_builder.merge(rope_id, high_id);
    let len = graph_builder.nodes.len();
    assert_eq!(graph_builder.merge(high_id, rope_id), merged_rope);
    assert_eq!(graph_builder.merge(low_id, high_id), high_id);
    assert_eq!(graph_builder.nodes.len(), len);
    assert!(graph_builder.errors.is_empty());
}

#[test]
fn equal_priorities_record_an_overlap() {
    let mut graph_builder = GraphBuilder::new();
    let first = SimpleVariantMatch::new("first", 2);
    let second = SimpleVariantMatch::new("second", 2);
    let first_id = graph_builder.insert(Node::VariantMatch(&first));
    let second_id = graph_builder.insert(Node::VariantMatch(&second));
    assert_eq!(graph_builder.merge(first_id, second_id), second_id);
    assert_eq!(
        graph_builder.errors,
        vec![Error::VariantMatchesOverlapWithSamePriority(&first, &second)]
    );
}

#[test]
fn graph_variant_match_keeps_its_variant() {
    let m = logos_core::graph::variant_match::VariantMatch { variant_name: "word", priority: 4 };
    assert_eq!(*m.variant_name(), "word");
    assert_eq!(m.priority(), 4);
}

#[test]
fn node_for_byte_specifications_is_a_rope() {
    let mut graph_builder: GraphBuilder<SimpleVariantMatch> = GraphBuilder::new();
    let v = SimpleVariantMatch::new("v", 2);
    let target = graph_builder.insert(Node::VariantMatch(&v));
    let node = graph_builder.node_for_specification(&Specification::ascii_digit(), target, None);
    match node {
        Node::Rope(rope) => {
            assert_eq!(rope.pattern().len(), 1);
            assert_eq!(set_members(&rope.pattern()[0]), (b'0'..=b'9').collect::<Vec<u8>>());
            assert_eq!(rope.target(), target);
            assert_eq!(rope.miss(), None);
        }
        other => panic!("expected a rope, got {:?}", other),
    }
}

#[test]
fn reserved_slot_is_filled_and_waiting_merge_runs() {
    let mut graph_builder = GraphBuilder::new();
    let variant_match_a = SimpleVariantMatch::new("a", 2);
    let variant_match_b = SimpleVariantMatch::new("b", 2);
    let a_id = graph_builder.insert(Node::VariantMatch(&variant_match_a));
    let b_id = graph_builder.insert(Node::VariantMatch(&variant_match_b));
    let reserved = graph_builder.reserve();
    let mut fork = Fork::new();
    fork.lookup_table[b'b' as usize] = Some(b_id);
    let other_id = graph_builder.insert(Node::from_fork(fork));
    // merging with a reserved slot waits for it in a new reserved slot
    let waiting = graph_builder.merge(reserved.0, other_id);
    assert!(graph_builder.get(waiting).is_none());
    let mut filling = Fork::new();
    filling.lookup_table[b'a' as usize] = Some(a_id);
    let filled = graph_builder.insert_reserved(reserved, Node::from_fork(filling));
    assert_eq!(filled, reserved.0);
    assert!(graph_builder.get(reserved.0).is_some());
    // the merge that waited has run
    let Some(Node::Fork(merged)) = graph_builder.get(waiting) else {
        panic!("expected the waiting merge to build a fork");
    };
    assert_eq!(merged.lookup_table[b'a' as usize], Some(a_id));
    assert_eq!(merged.lookup_table[b'b' as usize], Some(b_id));
    assert!(graph_builder.errors.is_empty());
}

#[test]
fn merging_unchecked_with_a_reserved_slot_is_an_error() {
    let mut graph_builder = GraphBuilder::<SimpleVariantMatch>::new();
    let variant_match = SimpleVariantMatch::new("a", 2);
    let a_id = graph_builder.insert(Node::VariantMatch(&variant_match));
    let empty = graph_builder.reserve();
    let into = graph_builder.reserve();
    let r = graph_builder.merge_unchecked(a_id, empty.0, into);
    assert_eq!(r, into.0);
    assert!(graph_builder.get(into.0).is_none());
    assert_eq!(graph_builder.errors, vec![Error::MergedReservedNodes]);
}

#[test]
fn long_rope_forks_off_to_its_rest() {
    let mut graph_builder = GraphBuilder::new();
    let variant_match = SimpleVariantMatch::new("abc", 6);
    let target = graph_builder.insert(Node::VariantMatch(&variant_match));
    let rope = Rope::new(vec![bytes(&[b'a', b'x']), bytes(&[b'b']), bytes(&[b'c'])], target);
    let rope_id = graph_builder.insert(Node::Rope(rope));
    let fork = graph_builder.fork_off(rope_id);
    let rest_id = fork.lookup_table[b'a' as usize].expect("a leads on");
    assert_eq!(fork.lookup_table[b'x' as usize], Some(rest_id));
    assert_eq!(fork.lookup_table[b'b' as usize], None);
    let Some(Node::Rope(rest)) = graph_builder.get(rest_id) else {
        panic!("expected the rest of the rope");
    };
    assert_eq!(rest.target(), target);
    assert_eq!(rest.pattern().iter().map(set_members).collect::<Vec<_>>(), vec![vec![b'b'], vec![b'c']]);
}

#[test]
fn overlapping_byte_classes_of_equal_priority_are_refused() {
    let lexer = Lexer::new(vec![
        (Specification::Byte(b'a'), SimpleVariantMatch::new("a", 2)),
        (
            Specification::new_any(vec![Specification::Byte(b'b'), Specification::Byte(b'a')]),
            SimpleVariantMatch::new("a or b", 2),
        ),
    ])
    .unwrap();
    let errors = match Graph::for_lexer(&lexer) {
        Err(errors) => errors,
        Ok(_) => panic!("expected error"),
    };
    assert_eq!(
        errors,
        vec![Error::VariantMatchesOverlapWithSamePriority(
            &lexer.variant_matches()[1].1,
            &lexer.variant_matches()[0].1
        )],
    );
}

#[test]
fn disjoint_literals_build_a_graph() {
    let lexer = Lexer::new(vec![
        (Specification::new_str_sequence("if"), SimpleVariantMatch::new("if", 4)),
        (Specification::new_str_sequence("else"), SimpleVariantMatch::new("else", 8)),
        (Specification::ascii_digit(), SimpleVariantMatch::new("digit", 1)),
    ])
    .unwrap();
    assert!(Graph::for_lexer(&lexer).is_ok());
}

#[test]
fn node_for_required_loop_begins_with_its_body() {
    let mut graph_builder: GraphBuilder<SimpleVariantMatch> = GraphBuilder::new();
    let v = SimpleVariantMatch::new("v", 2);
    let target = graph_builder.insert(Node::VariantMatch(&v));
    let spec = Specification::new_loop(1, None, Specification::ascii_digit());
    let node = graph_builder.node_for_specification(&spec, target, None);
    match node {
        Node::Rope(rope) => {
            assert_eq!(rope.pattern().len(), 1);
            assert_eq!(set_members(&rope.pattern()[0]), (b'0'..=b'9').collect::<Vec<u8>>());
            assert_eq!(rope.miss(), None);
            assert_eq!(rope.record_miss_backtrack_idx(), None);
        }
        other => panic!("expected a rope, got {:?}", other),
    }
}
