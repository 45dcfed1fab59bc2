use markdown_view::blocks::TextBlock;
use markdown_view::ir::{RenderBuffer, RenderMarker, marker_label};
use markdown_view::node::{DocNode, InlineNode, TableCell, TableRow};
use markdown_view::util::{get_html_tag, inline_node_to_pango_markup, xml_escape};

fn text(s: &str) -> InlineNode {
    InlineNode::Text(s.to_string())
}

fn para(s: &str) -> DocNode {
    DocNode::Paragraph(vec![text(s)])
}

fn item(children: Vec<DocNode>) -> DocNode {
    DocNode::ListItem(children)
}

fn ordered_list(start: u32, children: Vec<DocNode>) -> DocNode {
    DocNode::List { ordered: true, start: Some(start), children }
}

fn bullet_list(children: Vec<DocNode>) -> DocNode {
    DocNode::List { ordered: false, start: None, children }
}

#[test]
fn flattening_order_document_order() {
    let doc = DocNode::Root(vec![
        DocNode::Heading(1, vec![text("Title")]),
        para("hello"),
        DocNode::Code(Some("rust".to_string()), "fn main() {}".to_string()),
        DocNode::ThematicBreak,
        DocNode::Table(vec![TableRow { cells: vec![TableCell { content: vec![text("h")] }] }]),
    ]);
    let mut buf = RenderBuffer::default();
    buf.set(doc);
    assert_eq!(buf.blocks.len(), 5);
    assert!(matches!(buf.blocks[0].node, DocNode::Heading(1, _)));
    assert!(matches!(buf.blocks[1].node, DocNode::Paragraph(_)));
    assert!(matches!(buf.blocks[2].node, DocNode::Code(_, _)));
    assert!(matches!(buf.blocks[3].node, DocNode::ThematicBreak));
    assert!(matches!(buf.blocks[4].node, DocNode::Table(_)));
    for b in &buf.blocks {
        assert_eq!(b.depth, 0);
        assert_eq!(b.marker, None);
        assert!(!b.is_continuation);
    }
}

#[test]
fn structural_nodes_contribute_no_entries() {
    let doc = DocNode::Root(vec![DocNode::Blockquote(vec![para("quoted")]), DocNode::Other(
        vec![para("inside")],
    )]);
    let mut buf = RenderBuffer::default();
    buf.set(doc);
    assert_eq!(buf.blocks.len(), 2);
    assert!(matches!(buf.blocks[0].node, DocNode::Paragraph(_)));
    assert!(matches!(buf.blocks[1].node, DocNode::Paragraph(_)));
}

#[test]
fn paragraph_merge_two_adjacent() {
    let doc = DocNode::Root(vec![para("A"), para("B")]);
    let mut buf = RenderBuffer::default();
    buf.set(doc);
    assert_eq!(buf.blocks.len(), 1);
    let merged = &buf.blocks[0].node;
    assert_eq!(
        *merged,
        DocNode::Paragraph(vec![text("A"), text("\n\n"), text("B")])
    );
    // the rendered text of the merged block
    let mut tb = TextBlock::default();
    let changed = tb.update(merged);
    assert!(changed);
    assert_eq!(tb.markup, "A\n\nB");
    assert_eq!(buf.blocks[0].depth, 0);
    assert_eq!(buf.blocks[0].marker, None);
    assert!(!buf.blocks[0].is_continuation);
}

#[test]
fn paragraph_merge_three_adjacent() {
    let doc = DocNode::Root(vec![para("A"), para("B"), para("C")]);
    let mut buf = RenderBuffer::default();
    buf.set(doc);
    assert_eq!(buf.blocks.len(), 1);
    let mut tb = TextBlock::default();
    tb.update(&buf.blocks[0].node);
    assert_eq!(tb.markup, "A\n\nB\n\nC");
}

#[test]
fn paragraphs_not_merged_across_heading() {
    let doc = DocNode::Root(vec![para("A"), DocNode::Heading(2, vec![text("H")]), para("B")]);
    let mut buf = RenderBuffer::default();
    buf.set(doc);
    assert_eq!(buf.blocks.len(), 3);
    assert!(matches!(buf.blocks[0].node, DocNode::Paragraph(_)));
    assert!(matches!(buf.blocks[1].node, DocNode::Heading(2, _)));
    assert!(matches!(buf.blocks[2].node, DocNode::Paragraph(_)));
}

#[test]
fn marker_assignment_ordered_start_five() {
    let doc = DocNode::Root(vec![ordered_list(5, vec![
        item(vec![para("one")]),
        item(vec![para("two")]),
        item(vec![para("three"), para("tail")]),
    ])]);
    let mut buf = RenderBuffer::default();
    buf.set(doc);
    assert_eq!(buf.blocks.len(), 4);
    assert_eq!(buf.blocks[0].marker, Some(RenderMarker::Ordered(5)));
    assert_eq!(buf.blocks[1].marker, Some(RenderMarker::Ordered(6)));
    assert_eq!(buf.blocks[2].marker, Some(RenderMarker::Ordered(7)));
    assert_eq!(buf.blocks[3].marker, None);
    assert!(buf.blocks[3].is_continuation);
}

#[test]
fn marker_assignment_bullet() {
    let doc = DocNode::Root(vec![bullet_list(vec![
        item(vec![para("a")]),
        item(vec![para("b")]),
    ])]);
    let mut buf = RenderBuffer::default();
    buf.set(doc);
    assert_eq!(buf.blocks.len(), 2);
    assert_eq!(buf.blocks[0].marker, Some(RenderMarker::Bullet));
    assert_eq!(buf.blocks[1].marker, Some(RenderMarker::Bullet));
}

#[test]
fn ordered_list_default_start_is_one() {
    let doc = DocNode::Root(vec![DocNode::List {
        ordered: true,
        start: None,
        children: vec![item(vec![para("a")])],
    }]);
    let mut buf = RenderBuffer::default();
    buf.set(doc);
    assert_eq!(buf.blocks[0].marker, Some(RenderMarker::Ordered(1)));
}

#[test]
fn empty_item_consumes_no_marker() {
    let doc = DocNode::Root(vec![ordered_list(1, vec![
        item(vec![]),
        item(vec![para("only")]),
    ])]);
    let mut buf = RenderBuffer::default();
    buf.set(doc);
    assert_eq!(buf.blocks.len(), 1);
    assert_eq!(buf.blocks[0].marker, Some(RenderMarker::Ordered(1)));
}

#[test]
fn depth_nested_two_levels() {
    // list -> item -> [ list -> item -> paragraph, paragraph ]
    let inner = bullet_list(vec![item(vec![para("inner")])]);
    let doc = DocNode::Root(vec![bullet_list(vec![item(vec![inner, para("outer-sibling")])])]);
    let mut buf = RenderBuffer::default();
    buf.set(doc);
    assert_eq!(buf.blocks.len(), 2);
    // the inner paragraph comes first in document order
    assert_eq!(buf.blocks[0].depth, 1);
    assert_eq!(buf.blocks[1].depth, 0);
}

#[test]
fn continuation_flag_within_item() {
    let doc = DocNode::Root(vec![bullet_list(vec![item(vec![para("first"), para("second")])])]);
    let mut buf = RenderBuffer::default();
    buf.set(doc);
    assert_eq!(buf.blocks.len(), 2);
    assert_eq!(buf.blocks[0].marker, Some(RenderMarker::Bullet));
    assert!(!buf.blocks[0].is_continuation);
    assert_eq!(buf.blocks[1].marker, None);
    assert!(buf.blocks[1].is_continuation);
}

#[test]
fn rerun_set_replaces_contents() {
    let mut buf = RenderBuffer::default();
    buf.set(DocNode::Root(vec![para("x"), DocNode::ThematicBreak]));
    assert_eq!(buf.blocks.len(), 2);
    buf.set(DocNode::Root(vec![para("y")]));
    assert_eq!(buf.blocks.len(), 1);
}

#[test]
fn xml_escape_exact() {
    assert_eq!(xml_escape("a<b&c"), "a&lt;b&amp;c");
    assert_eq!(xml_escape("\"x'\" > y"), "&quot;x&apos;&quot; &gt; y");
    assert_eq!(xml_escape("plain"), "plain");
    assert_eq!(xml_escape(""), "");
}

#[test]
fn get_html_tag_cases() {
    assert_eq!(get_html_tag("<br>"), Some("br".to_string()));
    assert_eq!(get_html_tag("</br>"), Some("br".to_string()));
    assert_eq!(get_html_tag("<br/>"), Some("br".to_string()));
    assert_eq!(get_html_tag("  <div class=\"x\">"), Some("div".to_string()));
    assert_eq!(get_html_tag("no tag"), None);
    assert_eq!(get_html_tag("<unclosed"), None);
    assert_eq!(get_html_tag("< >"), None);
    assert_eq!(get_html_tag(""), None);
}

#[test]
fn inline_markup_exact() {
    assert_eq!(inline_node_to_pango_markup(&text("a&b")), "a&amp;b");
    assert_eq!(inline_node_to_pango_markup(&InlineNode::Break), "\n");
    assert_eq!(
        inline_node_to_pango_markup(&InlineNode::Emphasis(vec![text("it")])),
        "<i>it</i>"
    );
    assert_eq!(
        inline_node_to_pango_markup(&InlineNode::Strong(vec![text("bo")])),
        "<b>bo</b>"
    );
    assert_eq!(
        inline_node_to_pango_markup(&InlineNode::Delete(vec![text("no")])),
        "<s>no</s>"
    );
    assert_eq!(
        inline_node_to_pango_markup(&InlineNode::Link("https://e.com/?a=1&b=2".to_string(), vec![
            text("go")
        ])),
        "<a href=\"https://e.com/?a=1&amp;b=2\">go</a>"
    );
    assert_eq!(
        inline_node_to_pango_markup(&InlineNode::InlineCode("x<y".to_string())),
        "<tt>x&lt;y</tt>"
    );
    assert_eq!(
        inline_node_to_pango_markup(&InlineNode::Html("<br>".to_string())),
        "\n"
    );
    assert_eq!(
        inline_node_to_pango_markup(&InlineNode::Html("<BR/>".to_string())),
        "\n"
    );
    assert_eq!(
        inline_node_to_pango_markup(&InlineNode::Html("<em>".to_string())),
        "&lt;em&gt;"
    );
    assert_eq!(inline_node_to_pango_markup(&InlineNode::Other), "");
}

#[test]
fn empty_document_emits_nothing() {
    let mut buf = RenderBuffer::default();
    buf.set(DocNode::Root(vec![]));
    assert_eq!(buf.blocks.len(), 0);
}

#[test]
fn buffered_paragraph_flushes_at_list_close() {
    // a blockquote at the end of a list item leaves its paragraph buffered;
    // closing the list scope flushes it at the list's depth
    let doc = DocNode::Root(vec![bullet_list(vec![item(vec![DocNode::Blockquote(vec![para(
        "quoted",
    )])])])]);
    let mut buf = RenderBuffer::default();
    buf.set(doc);
    assert_eq!(buf.blocks.len(), 1);
    assert!(matches!(buf.blocks[0].node, DocNode::Paragraph(_)));
    assert_eq!(buf.blocks[0].depth, 0);
    assert_eq!(buf.blocks[0].marker, None);
}

#[test]
fn list_item_outside_list_is_skipped() {
    let doc = DocNode::Root(vec![item(vec![para("stray")])]);
    let mut buf = RenderBuffer::default();
    buf.set(doc);
    assert_eq!(buf.blocks.len(), 0);
}

#[test]
fn heading_depth_zero_is_not_merged_with_paragraphs() {
    // headings never enter the paragraph merge buffer
    let doc = DocNode::Root(vec![DocNode::Heading(1, vec![text("H")]), para("A")]);
    let mut buf = RenderBuffer::default();
    buf.set(doc);
    assert_eq!(buf.blocks.len(), 2);
}

#[test]
fn marker_label_text() {
    assert_eq!(marker_label(&RenderMarker::Bullet), "\u{2022}");
    assert_eq!(marker_label(&RenderMarker::Ordered(5)), "5.");
    assert_eq!(marker_label(&RenderMarker::Ordered(123)), "123.");
    assert_eq!(marker_label(&RenderMarker::Ordered(0)), "0.");
}
