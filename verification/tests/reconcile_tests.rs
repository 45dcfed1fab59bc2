use markdown_view::blocks::{
    BlockKind, BlockState, CodeBlock, TableBlock, TextBlock, heading_size, match_block_kind,
};
use markdown_view::ir::RenderMarker;
use markdown_view::node::{DocNode, InlineNode, TableCell, TableRow};
use markdown_view::view::{MarkdownView, RenderOp, block_inset, get_continuation_depth};

fn text(s: &str) -> InlineNode {
    InlineNode::Text(s.to_string())
}

fn para(s: &str) -> DocNode {
    DocNode::Paragraph(vec![text(s)])
}

fn heading_doc() -> DocNode {
    DocNode::Root(vec![DocNode::Heading(1, vec![text("Heading")])])
}

fn code_doc() -> DocNode {
    DocNode::Root(vec![DocNode::Code(None, "code".to_string())])
}

#[test]
fn first_render_creates_every_block() {
    let mut view = MarkdownView::default();
    let ops = view.render(DocNode::Root(vec![para("a"), DocNode::ThematicBreak]));
    assert_eq!(ops.len(), 2);
    assert!(matches!(ops[0], RenderOp::Create { pos: 0, kind: BlockKind::Text, .. }));
    assert!(
        matches!(ops[1], RenderOp::Create { pos: 1, kind: BlockKind::ThematicBreak, .. })
    );
    assert_eq!(view.blocks.len(), 2);
}

#[test]
fn rerender_same_document_reuses_everything() {
    let build = || {
        DocNode::Root(vec![
            DocNode::Heading(2, vec![text("t")]),
            para("body"),
            DocNode::Code(Some("rust".to_string()), "x".to_string()),
        ])
    };
    let mut view = MarkdownView::default();
    let first = view.render(build());
    assert!(first.iter().all(|o| matches!(o, RenderOp::Create { .. })));
    let second = view.render(build());
    assert_eq!(second.len(), 3);
    for op in &second {
        match op {
            RenderOp::Update { changed, .. } => assert!(!changed),
            other => panic!("expected a no-change update, got {:?}", other),
        }
    }
}

#[test]
fn eviction_on_kind_change() {
    let mut view = MarkdownView::default();
    let first = view.render(heading_doc());
    assert_eq!(first.len(), 1);
    assert!(matches!(first[0], RenderOp::Create { pos: 0, kind: BlockKind::Text, .. }));
    assert_eq!(view.blocks.len(), 1);

    let second = view.render(code_doc());
    assert_eq!(second.len(), 2);
    assert!(matches!(second[0], RenderOp::Evict { pos: 0 }));
    assert!(matches!(second[1], RenderOp::Create { pos: 0, kind: BlockKind::Code, .. }));
    // the position holds exactly one instance throughout
    assert_eq!(view.blocks.len(), 1);
    assert!(view.blocks[0].is_some());
}

#[test]
fn content_change_updates_in_place() {
    let mut view = MarkdownView::default();
    view.render(DocNode::Root(vec![para("old")]));
    let ops = view.render(DocNode::Root(vec![para("new")]));
    assert_eq!(ops.len(), 1);
    assert!(matches!(ops[0], RenderOp::Update { pos: 0, changed: true, .. }));
}

#[test]
fn shrinking_document_evicts_tail() {
    let mut view = MarkdownView::default();
    view.render(DocNode::Root(vec![para("a"), DocNode::ThematicBreak]));
    let ops = view.render(DocNode::Root(vec![para("a")]));
    assert_eq!(ops.len(), 2);
    assert!(matches!(ops[0], RenderOp::Evict { pos: 1 }));
    assert!(matches!(ops[1], RenderOp::Update { pos: 0, changed: false, .. }));
    assert_eq!(view.blocks.len(), 1);
}

#[test]
fn markers_and_layout_metadata_in_ops() {
    let mut view = MarkdownView::default();
    let doc = DocNode::Root(vec![DocNode::List {
        ordered: true,
        start: Some(5),
        children: vec![DocNode::ListItem(vec![para("one"), para("two")])],
    }]);
    let ops = view.render(doc);
    assert_eq!(ops.len(), 2);
    match ops[0] {
        RenderOp::Create { pos, kind, marker, depth, is_continuation } => {
            assert_eq!(pos, 0);
            assert_eq!(kind, BlockKind::Text);
            assert_eq!(marker, Some(RenderMarker::Ordered(5)));
            assert_eq!(depth, 0);
            assert!(!is_continuation);
        },
        ref other => panic!("expected create, got {:?}", other),
    }
    match ops[1] {
        RenderOp::Create { pos, marker, is_continuation, .. } => {
            assert_eq!(pos, 1);
            assert_eq!(marker, None);
            assert!(is_continuation);
        },
        ref other => panic!("expected create, got {:?}", other),
    }
}

#[test]
fn no_renderer_for_structural_kinds() {
    let list = DocNode::List { ordered: false, start: None, children: vec![] };
    assert_eq!(match_block_kind(&list), None);
    assert_eq!(match_block_kind(&DocNode::Root(vec![])), None);
    assert_eq!(match_block_kind(&DocNode::ListItem(vec![])), None);
    assert_eq!(match_block_kind(&DocNode::Blockquote(vec![])), None);
    assert_eq!(match_block_kind(&DocNode::Other(vec![])), None);
    assert_eq!(match_block_kind(&para("x")), Some(BlockKind::Text));
}

#[test]
fn continuation_inset_formula() {
    // first block of an item: nesting inset alone
    assert_eq!(block_inset(1, false, 30), 16);
    // continuation block: nesting inset plus marker width plus gap
    assert_eq!(block_inset(1, true, 30), 16 + 30 + 4);
    assert_eq!(block_inset(0, true, 12), 16 * 0 + 12 + 4);
    assert_eq!(block_inset(3, false, 0), 48);
    assert_eq!(get_continuation_depth(true, 30), 34);
    assert_eq!(get_continuation_depth(false, 30), 0);
}

#[test]
fn text_block_update_is_idempotent() {
    let mut tb = TextBlock::default();
    let p = para("hello");
    assert!(tb.update(&p));
    assert!(!tb.update(&p));
    assert_eq!(tb.markup, "hello");
}

#[test]
fn heading_markup_wraps_in_size_span() {
    let mut tb = TextBlock::default();
    tb.update(&DocNode::Heading(2, vec![text("Hi")]));
    assert_eq!(tb.markup, "<span size=\"150%\">Hi</span>");
    assert_eq!(heading_size(1), "170%");
    assert_eq!(heading_size(6), "90%");
    assert_eq!(heading_size(9), "100%");
}

#[test]
fn code_block_caches_lang_and_text() {
    let mut cb = CodeBlock::default();
    let node = DocNode::Code(Some("rust".to_string()), "fn f() {}".to_string());
    assert!(cb.update(&node));
    assert_eq!(cb.lang.as_deref(), Some("rust"));
    assert_eq!(cb.text, "fn f() {}");
    let same = DocNode::Code(Some("rust".to_string()), "fn f() {}".to_string());
    assert!(!cb.update(&same));
    let new_lang = DocNode::Code(Some("c".to_string()), "fn f() {}".to_string());
    assert!(cb.update(&new_lang));
    assert_eq!(cb.lang.as_deref(), Some("c"));
}

#[test]
fn code_set_markup_skips_identical_text() {
    let mut cb = CodeBlock::default();
    assert!(cb.set_markup("abc"));
    assert!(!cb.set_markup("abc"));
    assert!(cb.set_markup("abcd"));
}

#[test]
fn malformed_table_renders_rectangular() {
    let table = DocNode::Table(vec![
        TableRow {
            cells: vec![
                TableCell { content: vec![text("h1")] },
                TableCell { content: vec![text("h2")] },
            ],
        },
        TableRow { cells: vec![TableCell { content: vec![text("only")] }] },
    ]);
    let mut tb = TableBlock::default();
    assert!(tb.update(&table));
    assert_eq!(tb.cells.len(), 2);
    assert_eq!(tb.cells[0].len(), 2);
    assert_eq!(tb.cells[1].len(), 2);
    assert_eq!(tb.cells[0][0], "h1");
    assert_eq!(tb.cells[0][1], "h2");
    assert_eq!(tb.cells[1][0], "only");
    // the missing cell is shown empty
    assert_eq!(tb.cells[1][1], "");
}

#[test]
fn table_extra_cells_are_dropped() {
    let table = DocNode::Table(vec![
        TableRow { cells: vec![TableCell { content: vec![text("h")] }] },
        TableRow {
            cells: vec![
                TableCell { content: vec![text("a")] },
                TableCell { content: vec![text("b")] },
            ],
        },
    ]);
    let mut tb = TableBlock::default();
    tb.update(&table);
    assert_eq!(tb.cells[0].len(), 1);
    assert_eq!(tb.cells[1].len(), 1);
    assert_eq!(tb.cells[1][0], "a");
}

#[test]
fn malformed_table_through_full_render() {
    let mut view = MarkdownView::default();
    let doc = DocNode::Root(vec![DocNode::Table(vec![
        TableRow {
            cells: vec![
                TableCell { content: vec![text("h1")] },
                TableCell { content: vec![text("h2")] },
            ],
        },
        TableRow { cells: vec![TableCell { content: vec![text("c1")] }] },
    ])]);
    let ops = view.render(doc);
    assert_eq!(ops.len(), 1);
    assert!(matches!(ops[0], RenderOp::Create { kind: BlockKind::Table, .. }));
    match view.blocks[0].as_ref().map(|e| &e.block) {
        Some(BlockState::Table(tb)) => {
            assert_eq!(tb.cells.len(), 2);
            assert_eq!(tb.cells[1][1], "");
        },
        other => panic!("expected a table instance, got {:?}", other),
    }
}

#[test]
fn table_update_same_content_reports_no_change() {
    let rows = || {
        vec![TableRow {
            cells: vec![TableCell { content: vec![text("x")] }],
        }]
    };
    let mut tb = TableBlock::default();
    assert!(tb.update(&DocNode::Table(rows())));
    assert!(!tb.update(&DocNode::Table(rows())));
}
