//! The document tree that the renderer walks.
//!
//! A freshly parsed document arrives as a tree of typed nodes: block-level
//! leaves (paragraph, heading, code, table, thematic break), structural
//! containers (root, list, list item, blockquote, unrecognized containers)
//! and inline content inside paragraphs, headings and table cells.  The tree
//! carries no identity that survives a reparse; the renderer works purely on
//! its shape and payload, which these types hold as plain values.
//!
//! Each executable type has a ghost model (`InlineModel`, `DocModel`) over
//! `Seq` and `Seq<char>`, reached through the `inline_model` / `doc_model`
//! spec functions; every contract in the crate speaks of those models.

use vstd::prelude::*;

verus! {

/// Inline content of a paragraph, heading or table cell.
#[derive(Debug, PartialEq)]
pub enum InlineNode {
    /// Literal text.
    Text(String),
    /// A hard line break.
    Break,
    /// Emphasized (italic) content.
    Emphasis(Vec<InlineNode>),
    /// Strong (bold) content.
    Strong(Vec<InlineNode>),
    /// Struck-through content.
    Delete(Vec<InlineNode>),
    /// A link: target URL and the linked content.
    Link(String, Vec<InlineNode>),
    /// A code span.
    InlineCode(String),
    /// Raw HTML passed through from the source.
    Html(String),
    /// Any inline kind the renderer does not translate.
    Other,
}

/// One cell of a table row.
#[derive(Debug, PartialEq)]
pub struct TableCell {
    pub content: Vec<InlineNode>,
}

/// One row of a table.
#[derive(Debug, PartialEq)]
pub struct TableRow {
    pub cells: Vec<TableCell>,
}

/// A node of the parsed document tree.
#[derive(Debug, PartialEq)]
pub enum DocNode {
    /// The document root; purely structural.
    Root(Vec<DocNode>),
    /// A paragraph of inline content.
    Paragraph(Vec<InlineNode>),
    /// A heading: level (1 to 6) and inline content.
    Heading(u8, Vec<InlineNode>),
    /// A fenced or indented code block: optional language tag and raw text.
    Code(Option<String>, String),
    /// A table given as its rows.
    Table(Vec<TableRow>),
    /// A thematic break (horizontal rule).
    ThematicBreak,
    /// A list; purely structural.
    List { ordered: bool, start: Option<u32>, children: Vec<DocNode> },
    /// A list item; purely structural.
    ListItem(Vec<DocNode>),
    /// A block quote; purely structural.
    Blockquote(Vec<DocNode>),
    /// Any other node kind; treated as a transparent container.
    Other(Vec<DocNode>),
}

/// Ghost model of inline content.
pub enum InlineModel {
    Text(Seq<char>),
    Break,
    Emphasis(Seq<InlineModel>),
    Strong(Seq<InlineModel>),
    Delete(Seq<InlineModel>),
    Link(Seq<char>, Seq<InlineModel>),
    InlineCode(Seq<char>),
    Html(Seq<char>),
    Other,
}

/// Ghost model of a document node.  A table is modelled as its rows, each row
/// as its cells, each cell as its inline content.
pub enum DocModel {
    Root(Seq<DocModel>),
    Paragraph(Seq<InlineModel>),
    Heading(u8, Seq<InlineModel>),
    Code(Option<Seq<char>>, Seq<char>),
    Table(Seq<Seq<Seq<InlineModel>>>),
    ThematicBreak,
    List { ordered: bool, start: Option<u32>, children: Seq<DocModel> },
    ListItem(Seq<DocModel>),
    Blockquote(Seq<DocModel>),
    Other(Seq<DocModel>),
}

pub open spec fn inline_model(n: InlineNode) -> InlineModel
    decreases n,
{
    match n {
        InlineNode::Text(s) => InlineModel::Text(s@),
        InlineNode::Break => InlineModel::Break,
        InlineNode::Emphasis(cs) => InlineModel::Emphasis(inlines_model(cs@)),
        InlineNode::Strong(cs) => InlineModel::Strong(inlines_model(cs@)),
        InlineNode::Delete(cs) => InlineModel::Delete(inlines_model(cs@)),
        InlineNode::Link(url, cs) => InlineModel::Link(url@, inlines_model(cs@)),
        InlineNode::InlineCode(s) => InlineModel::InlineCode(s@),
        InlineNode::Html(s) => InlineModel::Html(s@),
        InlineNode::Other => InlineModel::Other,
    }
}

pub open spec fn inlines_model(s: Seq<InlineNode>) -> Seq<InlineModel>
    decreases s,
{
    if s.len() == 0 {
        seq![]
    } else {
        inlines_model(s.drop_last()).push(inline_model(s.last()))
    }
}

pub open spec fn cell_model(c: TableCell) -> Seq<InlineModel> {
    inlines_model(c.content@)
}

pub open spec fn row_model(r: TableRow) -> Seq<Seq<InlineModel>> {
    Seq::new(r.cells@.len(), |i: int| cell_model(r.cells@[i]))
}

pub open spec fn rows_model(rs: Seq<TableRow>) -> Seq<Seq<Seq<InlineModel>>> {
    Seq::new(rs.len(), |i: int| row_model(rs[i]))
}

pub open spec fn doc_model(n: DocNode) -> DocModel
    decreases n,
{
    match n {
        DocNode::Root(cs) => DocModel::Root(docs_model(cs@)),
        DocNode::Paragraph(cs) => DocModel::Paragraph(inlines_model(cs@)),
        DocNode::Heading(d, cs) => DocModel::Heading(d, inlines_model(cs@)),
        DocNode::Code(lang, text) => DocModel::Code(
            match lang {
                Some(l) => Some(l@),
                None => None,
            },
            text@,
        ),
        DocNode::Table(rows) => DocModel::Table(rows_model(rows@)),
        DocNode::ThematicBreak => DocModel::ThematicBreak,
        DocNode::List { ordered, start, children } => DocModel::List {
            ordered,
            start,
            children: docs_model(children@),
        },
        DocNode::ListItem(cs) => DocModel::ListItem(docs_model(cs@)),
        DocNode::Blockquote(cs) => DocModel::Blockquote(docs_model(cs@)),
        DocNode::Other(cs) => DocModel::Other(docs_model(cs@)),
    }
}

pub open spec fn docs_model(s: Seq<DocNode>) -> Seq<DocModel>
    decreases s,
{
    if s.len() == 0 {
        seq![]
    } else {
        docs_model(s.drop_last()).push(doc_model(s.last()))
    }
}

/// The sequence model of a node list is the node-wise model, elementwise.
pub proof fn lemma_docs_model(s: Seq<DocNode>)
    ensures
        docs_model(s).len() == s.len(),
        forall|i: int| 0 <= i < s.len() ==> #[trigger] docs_model(s)[i] == doc_model(s[i]),
    decreases s,
{
    if s.len() > 0 {
        lemma_docs_model(s.drop_last());
    }
}

/// The sequence model of an inline list is the node-wise model, elementwise.
pub proof fn lemma_inlines_model(s: Seq<InlineNode>)
    ensures
        inlines_model(s).len() == s.len(),
        forall|i: int| 0 <= i < s.len() ==> #[trigger] inlines_model(s)[i] == inline_model(s[i]),
    decreases s,
{
    if s.len() > 0 {
        lemma_inlines_model(s.drop_last());
    }
}

/// The model of a concatenation is the concatenation of the models.
pub proof fn lemma_inlines_model_concat(a: Seq<InlineNode>, b: Seq<InlineNode>)
    ensures
        inlines_model(a + b) == inlines_model(a) + inlines_model(b),
    decreases b.len(),
{
    if b.len() == 0 {
        assert(a + b =~= a);
        assert(inlines_model(a) + inlines_model(b) =~= inlines_model(a));
    } else {
        lemma_inlines_model_concat(a, b.drop_last());
        assert((a + b).drop_last() =~= a + b.drop_last());
        assert((a + b).last() == b.last());
        assert(inlines_model(a + b) =~= inlines_model(a) + inlines_model(b));
    }
}

/// True exactly for the node kinds that are rendered as one visual block.
/// Structural kinds (root, list, list item, blockquote, unrecognized
/// containers) are excluded: they only shape the metadata of their
/// descendants.
pub open spec fn is_block_model(n: DocModel) -> bool {
    match n {
        DocModel::Paragraph(_) => true,
        DocModel::Heading(_, _) => true,
        DocModel::Code(_, _) => true,
        DocModel::Table(_) => true,
        DocModel::ThematicBreak => true,
        _ => false,
    }
}

/// The name of a node's kind, for diagnostics.
pub open spec fn variant_name_model(n: DocModel) -> Seq<char> {
    match n {
        DocModel::Root(_) => "Root"@,
        DocModel::Paragraph(_) => "Paragraph"@,
        DocModel::Heading(_, _) => "Heading"@,
        DocModel::Code(_, _) => "Code"@,
        DocModel::Table(_) => "Table"@,
        DocModel::ThematicBreak => "ThematicBreak"@,
        DocModel::List { .. } => "List"@,
        DocModel::ListItem(_) => "ListItem"@,
        DocModel::Blockquote(_) => "Blockquote"@,
        DocModel::Other(_) => "Other"@,
    }
}

/// Returns the variant name for a document node (e.g. `Paragraph`).
pub fn node_variant_name(node: &DocNode) -> (r: &'static str)
    ensures
        r@ == variant_name_model(doc_model(*node)),
{
    match node {
        DocNode::Root(_) => "Root",
        DocNode::Paragraph(_) => "Paragraph",
        DocNode::Heading(_, _) => "Heading",
        DocNode::Code(_, _) => "Code",
        DocNode::Table(_) => "Table",
        DocNode::ThematicBreak => "ThematicBreak",
        DocNode::List { .. } => "List",
        DocNode::ListItem(_) => "ListItem",
        DocNode::Blockquote(_) => "Blockquote",
        DocNode::Other(_) => "Other",
    }
}

/// Returns true if the node is a renderable block-level node.
/// Structural nodes such as lists and blockquotes are intentionally excluded.
pub fn is_block_node(node: &DocNode) -> (r: bool)
    ensures
        r == is_block_model(doc_model(*node)),
{
    match node {
        DocNode::Paragraph(_) => true,
        DocNode::Heading(_, _) => true,
        DocNode::Code(_, _) => true,
        DocNode::Table(_) => true,
        DocNode::ThematicBreak => true,
        _ => false,
    }
}

} // verus!
