use comrak::arena_tree::{Arena, Id};
use comrak::nodes::{validate, Ast, LineColumn, NodeValue, ValidationError};

fn node(arena: &mut Arena<Ast>, parent: Option<Id>, v: NodeValue) -> Id {
    let id = arena.new_node(Ast::new(v, LineColumn { line: 1, column: 1 }));
    if let Some(p) = parent {
        p.append(arena, id);
    }
    id
}

#[test]
fn validate_accepts_parsed_shape() {
    let mut arena = Arena::new();
    let doc = node(&mut arena, None, NodeValue::Document);
    let p = node(&mut arena, Some(doc), NodeValue::Paragraph);
    node(&mut arena, Some(p), NodeValue::Text("a".to_string()));
    let e = node(&mut arena, Some(p), NodeValue::Emph);
    node(&mut arena, Some(e), NodeValue::Text("b".to_string()));
    node(&mut arena, Some(doc), NodeValue::ThematicBreak);
    assert!(validate(&arena, doc).is_ok());
}

#[test]
fn validate_reports_block_inside_inline() {
    let mut arena = Arena::new();
    let doc = node(&mut arena, None, NodeValue::Document);
    let p = node(&mut arena, Some(doc), NodeValue::Paragraph);
    let bad = node(&mut arena, Some(p), NodeValue::Paragraph);
    match validate(&arena, doc) {
        Err(ValidationError::InvalidChildType { parent, child }) => {
            assert_eq!(parent, p);
            assert_eq!(child, bad);
        }
        Ok(()) => panic!("expected an error"),
    }
}

#[test]
fn validate_reports_last_subtree_first() {
    let mut arena = Arena::new();
    let doc = node(&mut arena, None, NodeValue::Document);
    let first = node(&mut arena, Some(doc), NodeValue::Text("x".to_string()));
    let second = node(&mut arena, Some(doc), NodeValue::Text("y".to_string()));
    match validate(&arena, doc) {
        Err(ValidationError::InvalidChildType { parent, child }) => {
            assert_eq!(parent, doc);
            assert_eq!(child, second);
            assert_ne!(child, first);
        }
        Ok(()) => panic!("expected an error"),
    }
}

#[test]
fn validate_checks_root_against_its_parent() {
    let mut arena = Arena::new();
    let doc = node(&mut arena, None, NodeValue::Document);
    let p = node(&mut arena, Some(doc), NodeValue::Paragraph);
    let inner = node(&mut arena, Some(p), NodeValue::ThematicBreak);
    match validate(&arena, inner) {
        Err(ValidationError::InvalidChildType { parent, child }) => {
            assert_eq!(parent, p);
            assert_eq!(child, inner);
        }
        Ok(()) => panic!("expected an error"),
    }
}
