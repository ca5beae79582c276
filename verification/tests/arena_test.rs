use logos_core::graph::{Arena, ByteSet, Node, Rope};
use logos_core::SimpleVariantMatch;

#[test]
fn arena_insert() {
    let mut arena = Arena::default();

    let id1 = arena.insert(1);
    let id2 = arena.insert(2);

    assert_eq!(*arena.get(id1), 1);
    assert_eq!(*arena.get(id2), 2);
}

#[test]
fn arena_iter() {
    let mut arena = Arena::default();

    let id1 = arena.insert(1);
    let id2 = arena.insert(2);

    let entries = arena.iter();
    let mut iter = entries.into_iter();

    assert_eq!(iter.next(), Some((id1, &1)));
    assert_eq!(iter.next(), Some((id2, &2)));
    assert_eq!(iter.next(), None);
}

#[test]
fn arena_delete_nodes_with_dependencies() {
    let a = SimpleVariantMatch::new("a", 2);
    let b = SimpleVariantMatch::new("b", 2);
    let mut arena: Arena<Option<Node<SimpleVariantMatch>>> = Arena::default();

    let id1 = arena.insert(Some(Node::VariantMatch(&a)));
    let id2 = arena.insert(Some(Node::VariantMatch(&b)));
    arena.insert(Some(Node::Rope(Rope::new(vec![ByteSet::singleton(b'x')], id2))));

    let new_id2 = arena.delete_nodes(vec![id1], id2);

    assert_eq!(new_id2, id1);

    // id2 is now id1, id3 is now id2
    match arena.get(id1) {
        Some(Node::VariantMatch(v)) => assert_eq!(v.name, "b"),
        other => panic!("expected the variant match b, got {:?}", other),
    }
    match arena.get(id2) {
        Some(Node::Rope(rope)) => assert_eq!(rope.target(), id1),
        other => panic!("expected a rope, got {:?}", other),
    }
    assert_eq!(arena.len(), 2);
}
