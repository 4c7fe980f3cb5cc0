use comrak::arena_tree::{Arena, Id};
use comrak::nodes::{Ast, LineColumn, NodeValue, Sourcepos, TableAlignment};
use comrak::parser::options::Options;
use comrak::parser::table::try_opening_header;

fn setup(content: &str) -> (Arena<Ast>, Id, Id) {
    let mut arena = Arena::new();
    let doc = arena.new_node(Ast::new(NodeValue::Document, LineColumn { line: 1, column: 1 }));
    let mut para = Ast::new(NodeValue::Paragraph, LineColumn { line: 1, column: 1 });
    para.content = content.to_string();
    para.line_offsets = vec![0; content.matches('\n').count()];
    let p = arena.new_node(para);
    doc.append(&mut arena, p);
    (arena, doc, p)
}

fn children(arena: &Arena<Ast>, id: Id) -> Vec<Id> {
    let mut out = Vec::new();
    let mut c = id.first_child(arena);
    while let Some(x) = c {
        out.push(x);
        c = x.next_sibling(arena);
    }
    out
}

fn options() -> Options<'static> {
    let mut o = Options::default();
    o.extension.table = true;
    o
}

#[test]
fn header_opens_table() {
    let (mut arena, _doc, p) = setup("| a | b | c |\n");
    let line = "|:--|--:|:-:|\n";
    let r = try_opening_header(&mut arena, p, line, 0, &options());
    let (t, matched, lazy) = r.expect("always some");
    assert!(matched && !lazy);
    assert_eq!(t.parent(&arena), Some(p));
    match &t.data(&arena).value {
        NodeValue::Table(nt) => {
            assert_eq!(
                nt.alignments,
                vec![TableAlignment::Left, TableAlignment::Right, TableAlignment::Center]
            );
            assert_eq!(nt.num_columns, 3);
            assert_eq!(nt.num_rows, 0);
        }
        _ => panic!("not a table"),
    }
    let rows = children(&arena, t);
    assert_eq!(rows.len(), 1);
    assert!(matches!(rows[0].data(&arena).value, NodeValue::TableRow(true)));
    let cells = children(&arena, rows[0]);
    let texts: Vec<String> = cells.iter().map(|c| c.data(&arena).content.clone()).collect();
    assert_eq!(texts, vec!["a", "b", "c"]);
    for c in cells.iter() {
        assert!(matches!(c.data(&arena).value, NodeValue::TableCell));
    }
    assert_eq!(t.data(&arena).sourcepos, pos(1, 1, 1, 0));
    assert_eq!(rows[0].data(&arena).sourcepos, pos(1, 1, 1, 13));
    let spans: Vec<Sourcepos> = cells.iter().map(|c| c.data(&arena).sourcepos).collect();
    assert_eq!(spans, vec![pos(1, 2, 1, 4), pos(1, 6, 1, 8), pos(1, 10, 1, 12)]);
    let offsets: Vec<Vec<usize>> = cells.iter().map(|c| c.data(&arena).line_offsets.clone()).collect();
    assert_eq!(offsets, vec![vec![2], vec![6], vec![10]]);
}

fn pos(l1: usize, c1: usize, l2: usize, c2: usize) -> Sourcepos {
    Sourcepos {
        start: LineColumn { line: l1, column: c1 },
        end: LineColumn { line: l2, column: c2 },
    }
}

#[test]
fn header_unaligned_columns() {
    let (mut arena, _doc, p) = setup("x|y\n");
    let r = try_opening_header(&mut arena, p, "  |---|---|\n", 2, &options());
    let (t, matched, _) = r.unwrap();
    assert!(matched);
    match &t.data(&arena).value {
        NodeValue::Table(nt) => {
            assert_eq!(nt.alignments, vec![TableAlignment::Unaligned, TableAlignment::Unaligned]);
        }
        _ => panic!("not a table"),
    }
}

#[test]
fn header_cell_count_mismatch_is_lazy() {
    let (mut arena, _doc, p) = setup("| a | b |\n");
    let before = arena.len();
    let r = try_opening_header(&mut arena, p, "|---|---|---|\n", 0, &options());
    assert_eq!(r, Some((p, false, true)));
    assert_eq!(arena.len(), before);
}

#[test]
fn header_not_a_delimiter_row() {
    let (mut arena, _doc, p) = setup("| a | b |\n");
    let r = try_opening_header(&mut arena, p, "just text\n", 0, &options());
    assert_eq!(r, Some((p, false, false)));
}

#[test]
fn header_visited_paragraph_is_left_alone() {
    let (mut arena, _doc, p) = setup("| a |\n");
    p.data_mut(&mut arena).table_visited = true;
    let r = try_opening_header(&mut arena, p, "|---|\n", 0, &options());
    assert_eq!(r, Some((p, false, false)));
}

#[test]
fn header_preface_lines_become_paragraph() {
    let (mut arena, doc, p) = setup("intro \\| text\n| a | b |\n");
    let r = try_opening_header(&mut arena, p, "|---|---|\n", 0, &options());
    let (t, matched, _) = r.unwrap();
    assert!(matched);
    let kids = children(&arena, doc);
    assert_eq!(kids.len(), 2);
    assert_eq!(kids[1], p);
    assert!(matches!(kids[0].data(&arena).value, NodeValue::Paragraph));
    assert_eq!(kids[0].data(&arena).content, "intro | text");
    assert_eq!(kids[0].data(&arena).sourcepos, pos(1, 1, 1, 13));
    assert_eq!(kids[0].data(&arena).line_offsets, vec![0]);
    assert_eq!(p.data(&arena).sourcepos.start, LineColumn { line: 2, column: 1 });
    assert_eq!(t.data(&arena).sourcepos.start, LineColumn { line: 2, column: 1 });
    let rows = children(&arena, t);
    let cells = children(&arena, rows[0]);
    let texts: Vec<String> = cells.iter().map(|c| c.data(&arena).content.clone()).collect();
    assert_eq!(texts, vec!["a", "b"]);
    assert_eq!(rows[0].data(&arena).sourcepos, pos(2, 1, 2, 9));
    assert_eq!(cells[0].data(&arena).sourcepos, pos(2, 2, 2, 4));
    assert_eq!(cells[0].data(&arena).line_offsets, vec![2]);
}
