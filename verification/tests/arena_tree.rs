use comrak::arena_tree::{Arena, Id, Node, NodeEdge};

fn build() -> (Arena<&'static str>, Id, Id, Id, Id) {
    let mut arena = Arena::new();
    let root = arena.new_node("root");
    let a = arena.new_node("a");
    let b = arena.new_node("b");
    let c = arena.new_node("c");
    root.append(&mut arena, a);
    root.append(&mut arena, b);
    b.append(&mut arena, c);
    (arena, root, a, b, c)
}

fn children_of(arena: &Arena<&'static str>, id: Id) -> Vec<Id> {
    let mut out = Vec::new();
    let mut it = id.children(arena);
    while let Some(c) = it.next() {
        out.push(c);
    }
    out
}

#[test]
fn append_orders_children() {
    let (arena, root, a, b, c) = build();
    assert_eq!(children_of(&arena, root), vec![a, b]);
    assert_eq!(children_of(&arena, b), vec![c]);
    assert_eq!(root.first_child(&arena), Some(a));
    assert_eq!(root.last_child(&arena), Some(b));
    assert_eq!(a.next_sibling(&arena), Some(b));
    assert_eq!(b.previous_sibling(&arena), Some(a));
    assert_eq!(c.parent(&arena), Some(b));
    assert_eq!(root.parent(&arena), None);
    assert_eq!(*b.data(&arena), "b");
}

#[test]
fn prepend_and_insert() {
    let (mut arena, root, a, b, _c) = build();
    let d = arena.new_node("d");
    let e = arena.new_node("e");
    let f = arena.new_node("f");
    root.prepend(&mut arena, d);
    a.insert_after(&mut arena, e);
    b.insert_before(&mut arena, f);
    assert_eq!(children_of(&arena, root), vec![d, a, e, f, b]);
    let mut rev = Vec::new();
    let mut it = root.reverse_children(&arena);
    while let Some(x) = it.next() {
        rev.push(x);
    }
    assert_eq!(rev, vec![b, f, e, a, d]);
}

#[test]
fn detach_unlinks_node() {
    let (mut arena, root, a, b, c) = build();
    a.detach(&mut arena);
    assert_eq!(children_of(&arena, root), vec![b]);
    assert_eq!(a.parent(&arena), None);
    assert_eq!(a.next_sibling(&arena), None);
    assert_eq!(b.previous_sibling(&arena), None);
    assert_eq!(root.first_child(&arena), Some(b));
    b.detach(&mut arena);
    assert_eq!(root.first_child(&arena), None);
    assert_eq!(root.last_child(&arena), None);
    // The detached node keeps its children.
    assert_eq!(children_of(&arena, b), vec![c]);
}

#[test]
fn append_moves_node() {
    let (mut arena, root, a, b, c) = build();
    a.append(&mut arena, c);
    assert_eq!(children_of(&arena, b), vec![]);
    assert_eq!(children_of(&arena, a), vec![c]);
    assert_eq!(c.parent(&arena), Some(a));
    assert_eq!(children_of(&arena, root), vec![a, b]);
}

#[test]
fn detach_after_append_restores() {
    let (mut arena, root, a, b, _c) = build();
    let x = arena.new_node("x");
    root.append(&mut arena, x);
    assert_eq!(children_of(&arena, root), vec![a, b, x]);
    x.detach(&mut arena);
    assert_eq!(children_of(&arena, root), vec![a, b]);
    assert_eq!(b.next_sibling(&arena), None);
    assert_eq!(root.last_child(&arena), Some(b));
}

#[test]
fn descendants_in_tree_order() {
    let (arena, root, a, b, c) = build();
    let mut out = Vec::new();
    let mut it = root.descendants(&arena);
    while let Some(x) = it.next() {
        out.push(x);
    }
    assert_eq!(out, vec![root, a, b, c]);

    let mut free = Vec::new();
    let mut it = b.descendants_free();
    while let Some(x) = it.next(&arena) {
        free.push(x);
    }
    assert_eq!(free, vec![b, c]);
}

#[test]
fn traverse_edges() {
    let (arena, root, a, b, c) = build();
    let mut out = Vec::new();
    let mut it = root.traverse(&arena);
    while let Some(e) = it.next() {
        out.push(e);
    }
    assert_eq!(
        out,
        vec![
            NodeEdge::Start(root),
            NodeEdge::Start(a),
            NodeEdge::End(a),
            NodeEdge::Start(b),
            NodeEdge::Start(c),
            NodeEdge::End(c),
            NodeEdge::End(b),
            NodeEdge::End(root),
        ]
    );
    let mut back = Vec::new();
    let mut it = root.reverse_traverse(&arena);
    while let Some(e) = it.next() {
        back.push(e);
    }
    // The reverse walk starts at the end of the root, where it stops.
    assert_eq!(back, vec![NodeEdge::End(root)]);
}

#[test]
fn ancestors_and_siblings() {
    let (arena, root, a, b, c) = build();
    let mut up = Vec::new();
    let mut it = c.ancestors(&arena);
    while let Some(x) = it.next() {
        up.push(x);
    }
    assert_eq!(up, vec![c, b, root]);
    let mut after = Vec::new();
    let mut it = a.following_siblings(&arena);
    while let Some(x) = it.next() {
        after.push(x);
    }
    assert_eq!(after, vec![a, b]);
    let mut before = Vec::new();
    let mut it = b.preceding_siblings(&arena);
    while let Some(x) = it.next() {
        before.push(x);
    }
    assert_eq!(before, vec![b, a]);
    let mut kids = Vec::new();
    let mut it = root.children_free(&arena);
    while let Some(x) = it.next(&arena) {
        kids.push(x);
    }
    assert_eq!(kids, vec![a, b]);
}

#[test]
fn data_mut_changes_data() {
    let (mut arena, root, a, _b, _c) = build();
    *a.data_mut(&mut arena) = "changed";
    assert_eq!(*a.data(&arena), "changed");
    assert_eq!(root.first_child(&arena), Some(a));
    let node = Node::new(5u32);
    assert_eq!(node.parent(), None);
    assert_eq!(*node.data(), 5);
}
