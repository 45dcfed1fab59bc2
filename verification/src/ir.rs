//! The flattening stage: from a nested document tree to a flat, ordered
//! sequence of renderable block descriptors.
//!
//! The walk keeps two pieces of running state: a stack of open list scopes
//! (kind of list and next ordinal), and a buffer of adjacent paragraphs that
//! are merged into one block before the next non-paragraph node, at list
//! scope boundaries, and at the end of the walk.  The ghost mirror of the
//! walk (`walk_model` and friends) is the authoritative statement of what
//! `RenderBuffer::set` produces.

use vstd::prelude::*;

use crate::node::{
    DocModel, DocNode, InlineModel, InlineNode, doc_model, docs_model, inline_model,
    inlines_model, is_block_model, is_block_node, lemma_docs_model,
};

verus! {

/// Types of lists while rendering.
#[derive(Debug, Clone, Copy, PartialEq, Eq, Structural)]
pub enum RenderListType {
    Bullet,
    Ordered,
}

/// Marker for list items while rendering.
#[derive(Debug, Clone, Copy, PartialEq, Eq, Structural)]
pub enum RenderMarker {
    Bullet,
    Ordered(u32),
}

/// One decimal digit as a character.
pub open spec fn dec_digit(d: nat) -> char {
    if d == 0 {
        '0'
    } else if d == 1 {
        '1'
    } else if d == 2 {
        '2'
    } else if d == 3 {
        '3'
    } else if d == 4 {
        '4'
    } else if d == 5 {
        '5'
    } else if d == 6 {
        '6'
    } else if d == 7 {
        '7'
    } else if d == 8 {
        '8'
    } else {
        '9'
    }
}

/// The decimal numeral of a natural number, most significant digit first.
pub open spec fn dec_str(n: nat) -> Seq<char>
    decreases n,
{
    if n < 10 {
        seq![dec_digit(n)]
    } else {
        dec_str(n / 10).push(dec_digit(n % 10))
    }
}

/// The text of the label rendered beside a list item's first block: the
/// bullet glyph, or the ordinal followed by a period.
pub open spec fn marker_label_model(m: RenderMarker) -> Seq<char> {
    match m {
        RenderMarker::Bullet => seq!['\u{2022}'],
        RenderMarker::Ordered(n) => dec_str(n as nat).push('.'),
    }
}

/// One decimal digit as a string slice.
fn dec_digit_str(d: u32) -> (r: &'static str)
    requires
        d < 10,
    ensures
        r@ == seq![dec_digit(d as nat)],
{
    proof {
        reveal_strlit("0");
        reveal_strlit("1");
        reveal_strlit("2");
        reveal_strlit("3");
        reveal_strlit("4");
        reveal_strlit("5");
        reveal_strlit("6");
        reveal_strlit("7");
        reveal_strlit("8");
        reveal_strlit("9");
    }
    let r = if d == 0 {
        "0"
    } else if d == 1 {
        "1"
    } else if d == 2 {
        "2"
    } else if d == 3 {
        "3"
    } else if d == 4 {
        "4"
    } else if d == 5 {
        "5"
    } else if d == 6 {
        "6"
    } else if d == 7 {
        "7"
    } else if d == 8 {
        "8"
    } else {
        "9"
    };
    proof {
        assert(r@ =~= seq![dec_digit(d as nat)]);
    }
    r
}

/// The decimal numeral of a number as a string.
fn dec_string(n: u32) -> (r: String)
    ensures
        r@ == dec_str(n as nat),
    decreases n,
{
    if n < 10 {
        dec_digit_str(n).to_owned()
    } else {
        let mut s = dec_string(n / 10);
        s.append(dec_digit_str(n % 10));
        proof {
            assert(s@ =~= dec_str((n / 10) as nat).push(dec_digit((n % 10) as nat)));
        }
        s
    }
}

/// Renders the label text shown beside a list item's first block: the
/// bullet glyph for unordered lists, `"{index}."` for ordered ones.
pub fn marker_label(m: &RenderMarker) -> (r: String)
    ensures
        r@ == marker_label_model(*m),
{
    match m {
        RenderMarker::Bullet => {
            let s = "\u{2022}".to_owned();
            proof {
                reveal_strlit("\u{2022}");
                assert(s@ =~= seq!['\u{2022}']);
            }
            s
        },
        RenderMarker::Ordered(n) => {
            let mut s = dec_string(*n);
            s.append(".");
            proof {
                reveal_strlit(".");
                assert(s@ =~= dec_str(*n as nat).push('.'));
            }
            s
        },
    }
}

/// A block of content to be rendered.
#[derive(Debug, PartialEq)]
pub struct RenderBlock {
    /// The subtree this block renders: always a block-level node.
    pub node: DocNode,
    /// Nesting depth: number of enclosing lists minus one, floored at zero.
    pub depth: usize,
    /// The list marker, only on the first block of a list item.
    pub marker: Option<RenderMarker>,
    /// True for every block of a list item after the first.
    pub is_continuation: bool,
}

/// Ghost model of a render block.
pub struct BlockModel {
    pub node: DocModel,
    pub depth: int,
    pub marker: Option<RenderMarker>,
    pub is_continuation: bool,
}

pub open spec fn block_model(b: RenderBlock) -> BlockModel {
    BlockModel {
        node: doc_model(b.node),
        depth: b.depth as int,
        marker: b.marker,
        is_continuation: b.is_continuation,
    }
}

pub open spec fn blocks_model(s: Seq<RenderBlock>) -> Seq<BlockModel> {
    Seq::new(s.len(), |i: int| block_model(s[i]))
}

/// Represents the scope of a list while rendering.
#[derive(Debug, Clone, Copy, PartialEq, Eq, Structural)]
pub struct RenderListScope {
    pub list_type: RenderListType,
    pub next_marker_index: u32,
}

/// Context while walking the tree for rendering.
pub struct RenderWalkContext {
    pub list_stack: Vec<RenderListScope>,
    pub paragraph_stack: Vec<Vec<InlineNode>>,
}

/// Ghost model of the walk context.
pub struct WalkModel {
    pub stack: Seq<RenderListScope>,
    pub pstack: Seq<Seq<InlineModel>>,
}

pub open spec fn ctx_model(ctx: RenderWalkContext) -> WalkModel {
    WalkModel {
        stack: ctx.list_stack@,
        pstack: Seq::new(
            ctx.paragraph_stack@.len(),
            |i: int| inlines_model(ctx.paragraph_stack@[i]@),
        ),
    }
}

/// Depth of a block under the given stack: a top-level list is depth zero.
pub open spec fn depth_of(stack: Seq<RenderListScope>) -> int {
    if stack.len() == 0 {
        0
    } else {
        stack.len() - 1
    }
}

/// The inline children of the merged paragraph: the buffered paragraphs'
/// children concatenated, with a literal two-newline text node between
/// consecutive originals.
pub open spec fn merged_children(ps: Seq<Seq<InlineModel>>) -> Seq<InlineModel>
    decreases ps,
{
    if ps.len() == 0 {
        seq![]
    } else if ps.len() == 1 {
        ps[0]
    } else {
        merged_children(ps.drop_last()) + seq![InlineModel::Text(seq!['\n', '\n'])] + ps.last()
    }
}

/// Flushing the paragraph buffer: an empty buffer emits nothing; otherwise
/// one merged paragraph block is emitted at the current depth, with no
/// marker, and the buffer empties.  The list stack is untouched.
pub open spec fn drain_model(st: WalkModel) -> (Seq<BlockModel>, WalkModel) {
    if st.pstack.len() == 0 {
        (seq![], st)
    } else {
        (
            seq![
                BlockModel {
                    node: DocModel::Paragraph(merged_children(st.pstack)),
                    depth: depth_of(st.stack),
                    marker: None,
                    is_continuation: false,
                },
            ],
            WalkModel { stack: st.stack, pstack: seq![] },
        )
    }
}

/// The marker a list scope hands to the first block of its next item.
pub open spec fn item_marker(scope: RenderListScope) -> RenderMarker {
    match scope.list_type {
        RenderListType::Bullet => RenderMarker::Bullet,
        RenderListType::Ordered => RenderMarker::Ordered(scope.next_marker_index),
    }
}

/// Consuming an ordinal from the top scope: the next index moves up by one
/// (saturating at the type bound); a bullet scope is unchanged.
pub open spec fn consume_marker(stack: Seq<RenderListScope>) -> Seq<RenderListScope> {
    let top = stack.last();
    match top.list_type {
        RenderListType::Bullet => stack,
        RenderListType::Ordered => stack.update(
            stack.len() - 1,
            RenderListScope {
                list_type: top.list_type,
                next_marker_index: if top.next_marker_index == u32::MAX {
                    top.next_marker_index
                } else {
                    (top.next_marker_index + 1) as u32
                },
            },
        ),
    }
}

/// Walking one node.  Paragraphs are buffered; every other node first
/// flushes the buffer.  Lists open a scope around their children and flush
/// again before closing it; list items hand markers to their block children;
/// root, blockquote and unrecognized containers are transparent; block
/// leaves emit one descriptor at the current depth.
pub open spec fn walk_model(n: DocModel, st: WalkModel) -> (Seq<BlockModel>, WalkModel)
    decreases n,
{
    match n {
        DocModel::Paragraph(cs) => (
            seq![],
            WalkModel { stack: st.stack, pstack: st.pstack.push(cs) },
        ),
        DocModel::List { ordered, start, children } => {
            let (b0, st0) = drain_model(st);
            let scope = RenderListScope {
                list_type: if ordered {
                    RenderListType::Ordered
                } else {
                    RenderListType::Bullet
                },
                next_marker_index: match start {
                    Some(s) => s,
                    None => 1,
                },
            };
            let st1 = WalkModel { stack: st0.stack.push(scope), pstack: st0.pstack };
            let (b1, st2) = walk_children_model(children, st1);
            let (b2, st3) = drain_model(st2);
            let st4 = WalkModel { stack: st3.stack.drop_last(), pstack: st3.pstack };
            (b0 + b1 + b2, st4)
        },
        DocModel::ListItem(cs) => {
            let (b0, st0) = drain_model(st);
            if st0.stack.len() == 0 {
                (b0, st0)
            } else {
                let (b1, st1, pending) = walk_item_children_model(cs, st0, true);
                (b0 + b1, st1)
            }
        },
        DocModel::Root(cs) => {
            let (b0, st0) = drain_model(st);
            let (b1, st1) = walk_children_model(cs, st0);
            (b0 + b1, st1)
        },
        DocModel::Blockquote(cs) => {
            let (b0, st0) = drain_model(st);
            let (b1, st1) = walk_children_model(cs, st0);
            (b0 + b1, st1)
        },
        DocModel::Other(cs) => {
            let (b0, st0) = drain_model(st);
            let (b1, st1) = walk_children_model(cs, st0);
            (b0 + b1, st1)
        },
        _ => {
            let (b0, st0) = drain_model(st);
            (
                b0 + seq![
                    BlockModel {
                        node: n,
                        depth: depth_of(st0.stack),
                        marker: None,
                        is_continuation: false,
                    },
                ],
                st0,
            )
        },
    }
}

/// Walking a sequence of sibling nodes in order.
pub open spec fn walk_children_model(cs: Seq<DocModel>, st: WalkModel) -> (Seq<BlockModel>, WalkModel)
    decreases cs,
{
    if cs.len() == 0 {
        (seq![], st)
    } else {
        let (b0, st0) = walk_model(cs[0], st);
        let (b1, st1) = walk_children_model(cs.drop_first(), st0);
        (b0 + b1, st1)
    }
}

/// Walking the children of a list item.  `pending` is true while no block
/// child has been emitted yet: the first block child consumes the scope's
/// marker and is not a continuation; later block children carry no marker
/// and are continuations.  A non-paragraph block child flushes the buffer
/// first; non-block children are walked transparently.  An item with no
/// block-level children never consumes a marker.
pub open spec fn walk_item_children_model(cs: Seq<DocModel>, st: WalkModel, pending: bool) -> (
    Seq<BlockModel>,
    WalkModel,
    bool,
)
    decreases cs,
{
    if cs.len() == 0 {
        (seq![], st, pending)
    } else {
        let c = cs[0];
        if is_block_model(c) {
            let (b0, st0) = if c matches DocModel::Paragraph(_) {
                (seq![], st)
            } else {
                drain_model(st)
            };
            let took = pending && st0.stack.len() > 0;
            let marker = if took {
                Some(item_marker(st0.stack.last()))
            } else {
                None
            };
            let st1 = if took {
                WalkModel { stack: consume_marker(st0.stack), pstack: st0.pstack }
            } else {
                st0
            };
            let blk = BlockModel {
                node: c,
                depth: depth_of(st1.stack),
                marker,
                is_continuation: !pending,
            };
            let (b2, st2, p2) = walk_item_children_model(
                cs.drop_first(),
                st1,
                pending && !took,
            );
            (b0 + seq![blk] + b2, st2, p2)
        } else {
            let (b0, st0) = walk_model(c, st);
            let (b1, st1, p1) = walk_item_children_model(cs.drop_first(), st0, pending);
            (b0 + b1, st1, p1)
        }
    }
}

/// The whole flattening pass: walk from the root with empty state, then
/// flush whatever paragraphs are still buffered.
pub open spec fn flatten_model(d: DocModel) -> Seq<BlockModel> {
    let (b0, st0) = walk_model(d, WalkModel { stack: seq![], pstack: seq![] });
    let (b1, st1) = drain_model(st0);
    b0 + b1
}

/// Every descriptor the walk emits renders a block-level node.
pub proof fn lemma_walk_block_level(n: DocModel, st: WalkModel)
    ensures
        forall|i: int|
            0 <= i < walk_model(n, st).0.len() ==> is_block_model(
                #[trigger] walk_model(n, st).0[i].node,
            ),
    decreases n,
{
    match n {
        DocModel::List { ordered, start, children } => {
            let (b0, st0) = drain_model(st);
            let scope = RenderListScope {
                list_type: if ordered {
                    RenderListType::Ordered
                } else {
                    RenderListType::Bullet
                },
                next_marker_index: match start {
                    Some(s) => s,
                    None => 1,
                },
            };
            let st1 = WalkModel { stack: st0.stack.push(scope), pstack: st0.pstack };
            lemma_walk_children_block_level(children, st1);
        },
        DocModel::ListItem(cs) => {
            let (b0, st0) = drain_model(st);
            if st0.stack.len() > 0 {
                lemma_walk_item_block_level(cs, st0, true);
            }
        },
        DocModel::Root(cs) => {
            lemma_walk_children_block_level(cs, drain_model(st).1);
        },
        DocModel::Blockquote(cs) => {
            lemma_walk_children_block_level(cs, drain_model(st).1);
        },
        DocModel::Other(cs) => {
            lemma_walk_children_block_level(cs, drain_model(st).1);
        },
        _ => {
        },
    }
}

/// Every descriptor a sibling walk emits renders a block-level node.
pub proof fn lemma_walk_children_block_level(cs: Seq<DocModel>, st: WalkModel)
    ensures
        forall|i: int|
            0 <= i < walk_children_model(cs, st).0.len() ==> is_block_model(
                #[trigger] walk_children_model(cs, st).0[i].node,
            ),
    decreases cs,
{
    if cs.len() > 0 {
        lemma_walk_block_level(cs[0], st);
        lemma_walk_children_block_level(cs.drop_first(), walk_model(cs[0], st).1);
    }
}

/// Every descriptor an item walk emits renders a block-level node.
pub proof fn lemma_walk_item_block_level(cs: Seq<DocModel>, st: WalkModel, pending: bool)
    ensures
        forall|i: int|
            0 <= i < walk_item_children_model(cs, st, pending).0.len() ==> is_block_model(
                #[trigger] walk_item_children_model(cs, st, pending).0[i].node,
            ),
    decreases cs,
{
    if cs.len() > 0 {
        let c = cs[0];
        if is_block_model(c) {
            let (b0, st0) = if c matches DocModel::Paragraph(_) {
                (seq![], st)
            } else {
                drain_model(st)
            };
            let took = pending && st0.stack.len() > 0;
            let st1 = if took {
                WalkModel { stack: consume_marker(st0.stack), pstack: st0.pstack }
            } else {
                st0
            };
            lemma_walk_item_block_level(cs.drop_first(), st1, pending && !took);
        } else {
            lemma_walk_block_level(c, st);
            lemma_walk_item_block_level(cs.drop_first(), walk_model(c, st).1, pending);
        }
    }
}

/// Flattening order: the emitted sequence holds only block-level nodes, one
/// descriptor per renderable unit in document order; the structural kinds
/// (root, list, list item, blockquote, unrecognized containers) never
/// contribute an entry of their own.
pub proof fn lemma_flatten_block_level(d: DocModel)
    ensures
        forall|i: int|
            0 <= i < flatten_model(d).len() ==> is_block_model(#[trigger] flatten_model(d)[i].node),
{
    let st = WalkModel { stack: seq![], pstack: seq![] };
    lemma_walk_block_level(d, st);
}

/// A sibling walk over non-paragraph block-level nodes with clean state
/// emits exactly one descriptor per node, in order, and leaves the state
/// unchanged.
proof fn lemma_walk_children_top_order(cs: Seq<DocModel>, st: WalkModel)
    requires
        st.pstack.len() == 0,
        st.stack.len() == 0,
        forall|i: int|
            0 <= i < cs.len() ==> is_block_model(#[trigger] cs[i]) && !(cs[i]
                matches DocModel::Paragraph(_)),
    ensures
        ({
            let (b, st2) = walk_children_model(cs, st);
            &&& st2 == st
            &&& b.len() == cs.len()
            &&& forall|i: int|
                0 <= i < cs.len() ==> #[trigger] b[i] == (BlockModel {
                    node: cs[i],
                    depth: 0,
                    marker: None,
                    is_continuation: false,
                })
        }),
    decreases cs,
{
    if cs.len() > 0 {
        let c = cs[0];
        let (b0, st0) = walk_model(c, st);
        let blk = BlockModel { node: c, depth: 0, marker: None, is_continuation: false };
        assert(b0 =~= seq![blk]);
        assert(st0 == st);
        lemma_walk_children_top_order(cs.drop_first(), st0);
        let (b1, st1) = walk_children_model(cs.drop_first(), st0);
        assert(walk_children_model(cs, st).0 =~= seq![blk] + b1);
    }
}

/// Flattening order at the top level: a document whose children are all
/// non-paragraph block-level nodes flattens to exactly one descriptor per
/// child, in document order, each at depth zero with no marker and no
/// continuation flag.
pub proof fn lemma_flatten_top_level_order(cs: Seq<DocModel>)
    requires
        forall|i: int|
            0 <= i < cs.len() ==> is_block_model(#[trigger] cs[i]) && !(cs[i]
                matches DocModel::Paragraph(_)),
    ensures
        flatten_model(DocModel::Root(cs)).len() == cs.len(),
        forall|i: int|
            0 <= i < cs.len() ==> #[trigger] flatten_model(DocModel::Root(cs))[i] == (BlockModel {
                node: cs[i],
                depth: 0,
                marker: None,
                is_continuation: false,
            }),
{
    let st = WalkModel { stack: seq![], pstack: seq![] };
    lemma_walk_children_top_order(cs, st);
    let (b, st2) = walk_children_model(cs, st);
    let (b0, st0) = walk_model(DocModel::Root(cs), st);
    assert(b0 =~= seq![] + b);
    assert(flatten_model(DocModel::Root(cs)) =~= b0 + seq![]);
    assert(flatten_model(DocModel::Root(cs)) =~= b);
}

/// The single-paragraph list items of the given paragraph contents.
pub open spec fn single_paragraph_items(ps: Seq<Seq<InlineModel>>) -> Seq<DocModel> {
    Seq::new(ps.len(), |i: int| DocModel::ListItem(seq![DocModel::Paragraph(ps[i])]))
}

/// Walking single-paragraph items inside one ordered scope emits one marked
/// descriptor per item, with consecutive ordinals from the scope's counter.
proof fn lemma_ordered_items(ps: Seq<Seq<InlineModel>>, next: u32)
    requires
        next + ps.len() <= u32::MAX,
    ensures
        ({
            let st = WalkModel {
                stack: seq![
                    RenderListScope { list_type: RenderListType::Ordered, next_marker_index: next },
                ],
                pstack: seq![],
            };
            let (b, st2) = walk_children_model(single_paragraph_items(ps), st);
            &&& st2 == (WalkModel {
                stack: seq![
                    RenderListScope {
                        list_type: RenderListType::Ordered,
                        next_marker_index: (next + ps.len()) as u32,
                    },
                ],
                pstack: seq![],
            })
            &&& b.len() == ps.len()
            &&& forall|i: int|
                0 <= i < ps.len() ==> #[trigger] b[i] == (BlockModel {
                    node: DocModel::Paragraph(ps[i]),
                    depth: 0,
                    marker: Some(RenderMarker::Ordered((next + i) as u32)),
                    is_continuation: false,
                })
        }),
    decreases ps,
{
    reveal_with_fuel(walk_item_children_model, 3);
    reveal_with_fuel(walk_children_model, 3);
    let st = WalkModel {
        stack: seq![
            RenderListScope { list_type: RenderListType::Ordered, next_marker_index: next },
        ],
        pstack: seq![],
    };
    let items = single_paragraph_items(ps);
    if ps.len() > 0 {
        let item = items[0];
        assert(item == DocModel::ListItem(seq![DocModel::Paragraph(ps[0])]));
        let (b0, st0) = walk_model(item, st);
        let blk = BlockModel {
            node: DocModel::Paragraph(ps[0]),
            depth: 0,
            marker: Some(RenderMarker::Ordered(next)),
            is_continuation: false,
        };
        let st_next = WalkModel {
            stack: seq![
                RenderListScope {
                    list_type: RenderListType::Ordered,
                    next_marker_index: (next + 1) as u32,
                },
            ],
            pstack: seq![],
        };
        let ics = seq![DocModel::Paragraph(ps[0])];
        assert(ics.drop_first() =~= Seq::<DocModel>::empty());
        let (bi, sti, pi) = walk_item_children_model(ics, st, true);
        assert(item_marker(st.stack.last()) == RenderMarker::Ordered(next));
        assert(consume_marker(st.stack) =~= st_next.stack);
        assert(sti == (WalkModel { stack: consume_marker(st.stack), pstack: seq![] }));
        assert(sti == st_next);
        assert(bi =~= seq![blk]);
        assert(b0 =~= seq![blk]);
        assert(st0 == st_next);
        lemma_ordered_items(ps.drop_first(), (next + 1) as u32);
        assert(items.drop_first() =~= single_paragraph_items(ps.drop_first()));
        let (b1, st1) = walk_children_model(items.drop_first(), st0);
        assert(walk_children_model(items, st).0 =~= seq![blk] + b1);
        assert((next + 1) + ps.drop_first().len() == next + ps.len());
    } else {
        assert(items =~= Seq::<DocModel>::empty());
    }
}

/// Marker assignment: an ordered list starting at `s` whose items each hold
/// one paragraph flattens to one descriptor per item, the i-th carrying the
/// marker `Ordered(s + i)` and no continuation flag.
pub proof fn lemma_ordered_marker_assignment(ps: Seq<Seq<InlineModel>>, s: u32)
    requires
        s + ps.len() <= u32::MAX,
    ensures
        ({
            let d = DocModel::Root(
                seq![
                    DocModel::List {
                        ordered: true,
                        start: Some(s),
                        children: single_paragraph_items(ps),
                    },
                ],
            );
            &&& flatten_model(d).len() == ps.len()
            &&& forall|i: int|
                0 <= i < ps.len() ==> #[trigger] flatten_model(d)[i] == (BlockModel {
                    node: DocModel::Paragraph(ps[i]),
                    depth: 0,
                    marker: Some(RenderMarker::Ordered((s + i) as u32)),
                    is_continuation: false,
                })
        }),
{
    reveal_with_fuel(walk_children_model, 3);
    let st = WalkModel { stack: seq![], pstack: seq![] };
    let list = DocModel::List { ordered: true, start: Some(s), children: single_paragraph_items(ps) };
    let d = DocModel::Root(seq![list]);
    lemma_ordered_items(ps, s);
    let st1 = WalkModel {
        stack: seq![RenderListScope { list_type: RenderListType::Ordered, next_marker_index: s }],
        pstack: seq![],
    };
    assert(st.stack.push(
        RenderListScope { list_type: RenderListType::Ordered, next_marker_index: s },
    ) =~= st1.stack);
    let (bl, stl) = walk_children_model(single_paragraph_items(ps), st1);
    let (b0, st0) = walk_model(list, st);
    assert(stl.stack.drop_last() =~= Seq::<RenderListScope>::empty());
    assert(b0 =~= seq![] + bl + seq![]);
    assert(b0 =~= bl);
    let cs = seq![list];
    assert(cs.drop_first() =~= Seq::<DocModel>::empty());
    let (br, str2) = walk_children_model(cs, st);
    assert(br =~= b0 + seq![]);
    let (bw, stw) = walk_model(d, st);
    assert(bw =~= seq![] + br);
    assert(stw.pstack.len() == 0);
    assert(flatten_model(d) =~= bw + seq![]);
    assert(flatten_model(d) =~= bl);
}

/// Continuation flag: in a list item of two paragraphs, the first block
/// carries the item's marker and is not a continuation; the second carries
/// no marker and is a continuation, at the same depth.
pub proof fn lemma_continuation_flag(a: Seq<InlineModel>, b: Seq<InlineModel>)
    ensures
        ({
            let d = DocModel::Root(
                seq![
                    DocModel::List {
                        ordered: false,
                        start: None,
                        children: seq![
                            DocModel::ListItem(
                                seq![DocModel::Paragraph(a), DocModel::Paragraph(b)],
                            ),
                        ],
                    },
                ],
            );
            flatten_model(d) =~= seq![
                BlockModel {
                    node: DocModel::Paragraph(a),
                    depth: 0,
                    marker: Some(RenderMarker::Bullet),
                    is_continuation: false,
                },
                BlockModel {
                    node: DocModel::Paragraph(b),
                    depth: 0,
                    marker: None,
                    is_continuation: true,
                },
            ]
        }),
{
    reveal_with_fuel(walk_item_children_model, 4);
    reveal_with_fuel(walk_children_model, 3);
    let st = WalkModel { stack: seq![], pstack: seq![] };
    let ics = seq![DocModel::Paragraph(a), DocModel::Paragraph(b)];
    let item = DocModel::ListItem(ics);
    let list = DocModel::List { ordered: false, start: None, children: seq![item] };
    let d = DocModel::Root(seq![list]);
    let scope = RenderListScope { list_type: RenderListType::Bullet, next_marker_index: 1 };
    let st1 = WalkModel { stack: seq![scope], pstack: seq![] };
    assert(st.stack.push(scope) =~= st1.stack);
    // inside the item: first paragraph takes the marker, second continues
    let blk_a = BlockModel {
        node: DocModel::Paragraph(a),
        depth: 0,
        marker: Some(RenderMarker::Bullet),
        is_continuation: false,
    };
    let blk_b = BlockModel {
        node: DocModel::Paragraph(b),
        depth: 0,
        marker: None,
        is_continuation: true,
    };
    assert(item_marker(scope) == RenderMarker::Bullet);
    assert(consume_marker(st1.stack) == st1.stack);
    assert(ics.drop_first() =~= seq![DocModel::Paragraph(b)]);
    assert(ics.drop_first().drop_first() =~= Seq::<DocModel>::empty());
    let (bi, sti, pi) = walk_item_children_model(ics, st1, true);
    assert(bi =~= seq![blk_a, blk_b]);
    assert(sti == st1);
    let (bitem, stitem) = walk_model(item, st1);
    assert(bitem =~= bi);
    let lcs = seq![item];
    assert(lcs.drop_first() =~= Seq::<DocModel>::empty());
    let (blc, stlc) = walk_children_model(lcs, st1);
    assert(blc =~= bi);
    let (bl, stl) = walk_model(list, st);
    assert(stlc.stack.drop_last() =~= Seq::<RenderListScope>::empty());
    assert(bl =~= bi);
    let rcs = seq![list];
    assert(rcs.drop_first() =~= Seq::<DocModel>::empty());
    let (br, str2) = walk_children_model(rcs, st);
    assert(br =~= bi);
    let (bw, stw) = walk_model(d, st);
    assert(bw =~= bi);
    assert(stw.pstack.len() == 0);
    assert(flatten_model(d) =~= bi);
}

/// Depth: in a list whose item holds a nested list (with one
/// single-paragraph item) followed by a sibling paragraph, the inner
/// paragraph is emitted at depth one and the sibling directly under the
/// outer item at depth zero.
pub proof fn lemma_nested_depth(inner: Seq<InlineModel>, sibling: Seq<InlineModel>)
    ensures
        ({
            let inner_list = DocModel::List {
                ordered: false,
                start: None,
                children: seq![DocModel::ListItem(seq![DocModel::Paragraph(inner)])],
            };
            let d = DocModel::Root(
                seq![
                    DocModel::List {
                        ordered: false,
                        start: None,
                        children: seq![
                            DocModel::ListItem(seq![inner_list, DocModel::Paragraph(sibling)]),
                        ],
                    },
                ],
            );
            &&& flatten_model(d).len() == 2
            &&& flatten_model(d)[0].node == DocModel::Paragraph(inner)
            &&& flatten_model(d)[0].depth == 1
            &&& flatten_model(d)[1].node == DocModel::Paragraph(sibling)
            &&& flatten_model(d)[1].depth == 0
        }),
{
    reveal_with_fuel(walk_item_children_model, 4);
    reveal_with_fuel(walk_children_model, 3);
    let st = WalkModel { stack: seq![], pstack: seq![] };
    let scope = RenderListScope { list_type: RenderListType::Bullet, next_marker_index: 1 };
    let inner_item = DocModel::ListItem(seq![DocModel::Paragraph(inner)]);
    let inner_list = DocModel::List { ordered: false, start: None, children: seq![inner_item] };
    let outer_item = DocModel::ListItem(seq![inner_list, DocModel::Paragraph(sibling)]);
    let outer_list = DocModel::List { ordered: false, start: None, children: seq![outer_item] };
    let d = DocModel::Root(seq![outer_list]);
    // outer scope
    let st1 = WalkModel { stack: seq![scope], pstack: seq![] };
    assert(st.stack.push(scope) =~= st1.stack);
    // inner scope, two levels deep
    let st2 = WalkModel { stack: seq![scope, scope], pstack: seq![] };
    assert(st1.stack.push(scope) =~= st2.stack);
    let blk_inner = BlockModel {
        node: DocModel::Paragraph(inner),
        depth: 1,
        marker: Some(RenderMarker::Bullet),
        is_continuation: false,
    };
    let blk_sibling = BlockModel {
        node: DocModel::Paragraph(sibling),
        depth: 0,
        marker: Some(RenderMarker::Bullet),
        is_continuation: false,
    };
    // the inner item emits its paragraph at depth one
    let iics = seq![DocModel::Paragraph(inner)];
    assert(iics.drop_first() =~= Seq::<DocModel>::empty());
    assert(depth_of(st2.stack) == 1);
    assert(consume_marker(st2.stack) == st2.stack);
    let (bii, stii, pii) = walk_item_children_model(iics, st2, true);
    assert(bii =~= seq![blk_inner]);
    assert(stii == st2);
    let (bi_item, sti_item) = walk_model(inner_item, st2);
    assert(bi_item =~= seq![blk_inner]);
    assert(sti_item == st2);
    let ilcs = seq![inner_item];
    assert(ilcs.drop_first() =~= Seq::<DocModel>::empty());
    let (bil, stil) = walk_children_model(ilcs, st2);
    assert(bil =~= seq![blk_inner]);
    let (b_ilist, st_ilist) = walk_model(inner_list, st1);
    assert(st2.stack.drop_last() =~= st1.stack);
    assert(b_ilist =~= seq![blk_inner]);
    assert(st_ilist == st1);
    // the outer item: nested list first (transparent to the marker), then
    // the sibling paragraph, which takes the outer marker at depth zero
    let oics = seq![inner_list, DocModel::Paragraph(sibling)];
    assert(oics.drop_first() =~= seq![DocModel::Paragraph(sibling)]);
    assert(oics.drop_first().drop_first() =~= Seq::<DocModel>::empty());
    assert(depth_of(st1.stack) == 0);
    assert(consume_marker(st1.stack) == st1.stack);
    let (boi, stoi, poi) = walk_item_children_model(oics, st1, true);
    assert(boi =~= seq![blk_inner, blk_sibling]);
    assert(stoi == st1);
    let (b_oitem, st_oitem) = walk_model(outer_item, st1);
    assert(b_oitem =~= seq![blk_inner, blk_sibling]);
    let olcs = seq![outer_item];
    assert(olcs.drop_first() =~= Seq::<DocModel>::empty());
    let (bol, stol) = walk_children_model(olcs, st1);
    assert(bol =~= seq![blk_inner, blk_sibling]);
    let (b_olist, st_olist) = walk_model(outer_list, st);
    assert(stol.stack.drop_last() =~= Seq::<RenderListScope>::empty());
    assert(b_olist =~= seq![blk_inner, blk_sibling]);
    let rcs = seq![outer_list];
    assert(rcs.drop_first() =~= Seq::<DocModel>::empty());
    let (br, str2) = walk_children_model(rcs, st);
    assert(br =~= seq![blk_inner, blk_sibling]);
    let (bw, stw) = walk_model(d, st);
    assert(bw =~= seq![blk_inner, blk_sibling]);
    assert(stw.pstack.len() == 0);
    assert(flatten_model(d) =~= seq![blk_inner, blk_sibling]);
}

/// Paragraph merge: a document of exactly two adjacent paragraphs flattens
/// to exactly one block, whose children are the first paragraph's, a
/// two-newline text separator, then the second paragraph's, at depth zero
/// with no marker.
pub proof fn lemma_paragraph_merge(a: Seq<InlineModel>, b: Seq<InlineModel>)
    ensures
        flatten_model(DocModel::Root(seq![DocModel::Paragraph(a), DocModel::Paragraph(b)]))
            =~= seq![
            BlockModel {
                node: DocModel::Paragraph(a + seq![InlineModel::Text(seq!['\n', '\n'])] + b),
                depth: 0,
                marker: None,
                is_continuation: false,
            },
        ],
{
    reveal_with_fuel(walk_children_model, 4);
    let st = WalkModel { stack: seq![], pstack: seq![] };
    let d = DocModel::Root(seq![DocModel::Paragraph(a), DocModel::Paragraph(b)]);
    let cs = seq![DocModel::Paragraph(a), DocModel::Paragraph(b)];
    assert(cs[0] == DocModel::Paragraph(a));
    assert(cs.drop_first()[0] == DocModel::Paragraph(b));
    assert(drain_model(st) == (Seq::<BlockModel>::empty(), st));
    let (bw, stw) = walk_model(DocModel::Paragraph(a), st);
    assert(stw.pstack =~= seq![a]);
    let (bw2, stw2) = walk_model(DocModel::Paragraph(b), stw);
    assert(stw2.pstack =~= seq![a, b]);
    assert(cs.drop_first() =~= seq![DocModel::Paragraph(b)]);
    assert(cs.drop_first().drop_first() =~= Seq::<DocModel>::empty());
    let (b1, st1) = walk_children_model(cs, st);
    assert(b1 =~= seq![] + (seq![] + seq![]));
    assert(st1 == stw2);
    let (b0, st0) = walk_model(d, st);
    assert(b0 =~= seq![] + b1);
    assert(st0 == st1);
    let ps = st0.pstack;
    assert(ps =~= seq![a, b]);
    assert(ps.drop_last() =~= seq![a]);
    assert(merged_children(seq![a]) == a);
    assert(merged_children(ps) =~= a + seq![InlineModel::Text(seq!['\n', '\n'])] + b);
    let (b2, st2) = drain_model(st0);
    assert(depth_of(st0.stack) == 0);
    assert(flatten_model(d) =~= b0 + b2);
    assert(b0 =~= Seq::<BlockModel>::empty());
}

/// Walking a node leaves the list-scope stack at its entry length: a list
/// pops exactly the scope it pushed, and marker consumption only rewrites
/// the top entry.
pub proof fn lemma_walk_stack_len(n: DocModel, st: WalkModel)
    ensures
        walk_model(n, st).1.stack.len() == st.stack.len(),
    decreases n,
{
    match n {
        DocModel::List { ordered, start, children } => {
            let (b0, st0) = drain_model(st);
            let scope = RenderListScope {
                list_type: if ordered {
                    RenderListType::Ordered
                } else {
                    RenderListType::Bullet
                },
                next_marker_index: match start {
                    Some(s) => s,
                    None => 1,
                },
            };
            let st1 = WalkModel { stack: st0.stack.push(scope), pstack: st0.pstack };
            lemma_walk_children_stack_len(children, st1);
        },
        DocModel::ListItem(cs) => {
            let (b0, st0) = drain_model(st);
            if st0.stack.len() > 0 {
                lemma_walk_item_stack_len(cs, st0, true);
            }
        },
        DocModel::Root(cs) => {
            lemma_walk_children_stack_len(cs, drain_model(st).1);
        },
        DocModel::Blockquote(cs) => {
            lemma_walk_children_stack_len(cs, drain_model(st).1);
        },
        DocModel::Other(cs) => {
            lemma_walk_children_stack_len(cs, drain_model(st).1);
        },
        _ => {
        },
    }
}

/// Walking a node list leaves the list-scope stack at its entry length.
pub proof fn lemma_walk_children_stack_len(cs: Seq<DocModel>, st: WalkModel)
    ensures
        walk_children_model(cs, st).1.stack.len() == st.stack.len(),
    decreases cs,
{
    if cs.len() > 0 {
        lemma_walk_stack_len(cs[0], st);
        lemma_walk_children_stack_len(cs.drop_first(), walk_model(cs[0], st).1);
    }
}

/// Walking a list item's children leaves the list-scope stack at its entry
/// length.
pub proof fn lemma_walk_item_stack_len(cs: Seq<DocModel>, st: WalkModel, pending: bool)
    ensures
        walk_item_children_model(cs, st, pending).1.stack.len() == st.stack.len(),
    decreases cs,
{
    if cs.len() > 0 {
        let c = cs[0];
        if is_block_model(c) {
            let (b0, st0) = if c matches DocModel::Paragraph(_) {
                (seq![], st)
            } else {
                drain_model(st)
            };
            let took = pending && st0.stack.len() > 0;
            let st1 = if took {
                WalkModel { stack: consume_marker(st0.stack), pstack: st0.pstack }
            } else {
                st0
            };
            lemma_walk_item_stack_len(cs.drop_first(), st1, pending && !took);
        } else {
            lemma_walk_stack_len(c, st);
            lemma_walk_item_stack_len(cs.drop_first(), walk_model(c, st).1, pending);
        }
    }
}

/// Pushing a block extends the block sequence model by its model.
pub proof fn lemma_blocks_model_push(s: Seq<RenderBlock>, b: RenderBlock)
    ensures
        blocks_model(s.push(b)) == blocks_model(s).push(block_model(b)),
{
    assert(blocks_model(s.push(b)) =~= blocks_model(s).push(block_model(b)));
}

impl RenderWalkContext {
    /// A fresh context: no open list scope, nothing buffered.
    pub fn new() -> (r: Self)
        ensures
            ctx_model(r) == (WalkModel { stack: seq![], pstack: seq![] }),
    {
        let r = RenderWalkContext { list_stack: Vec::new(), paragraph_stack: Vec::new() };
        proof {
            assert(ctx_model(r).stack =~= seq![]);
            assert(ctx_model(r).pstack =~= seq![]);
        }
        r
    }

    /// Current nesting depth: a top-level list is depth zero.
    fn depth(&self) -> (d: usize)
        ensures
            d as int == depth_of(ctx_model(*self).stack),
    {
        if self.list_stack.len() == 0 {
            0
        } else {
            self.list_stack.len() - 1
        }
    }
}

/// An intermediate representation of the parsed document for rendering.
#[derive(Debug)]
pub struct RenderBuffer {
    pub blocks: Vec<RenderBlock>,
}

impl Default for RenderBuffer {
    /// An empty render buffer.
    fn default() -> (r: Self)
        ensures
            r.blocks@.len() == 0,
    {
        RenderBuffer { blocks: Vec::new() }
    }
}

impl RenderBuffer {
    /// Sets the render buffer by walking the tree starting from the given node.
    pub fn set(&mut self, node: DocNode)
        ensures
            blocks_model(final(self).blocks@) == flatten_model(doc_model(node)),
    {
        self.blocks.clear();
        let mut ctx = RenderWalkContext::new();
        let ghost st_empty = WalkModel { stack: seq![], pstack: seq![] };
        self.walk(node, &mut ctx);
        self.drain_paragraph_stack(&mut ctx);
        proof {
            let (b0, st0) = walk_model(doc_model(node), st_empty);
            let (b1, st1) = drain_model(st0);
            assert(blocks_model(Seq::<RenderBlock>::empty()) =~= seq![]);
            assert(seq![] + b0 =~= b0);
            assert(blocks_model(self.blocks@) =~= b0 + b1);
        }
    }

    /// Recursively walks the tree and populates the render buffer.
    fn walk(&mut self, node: DocNode, ctx: &mut RenderWalkContext)
        ensures
            ({
                let (b, st) = walk_model(doc_model(node), ctx_model(*old(ctx)));
                &&& blocks_model(final(self).blocks@) == blocks_model(old(self).blocks@) + b
                &&& ctx_model(*final(ctx)) == st
            }),
        decreases node,
    {
        let ghost st_in = ctx_model(*old(ctx));
        let ghost n0 = node;
        match node {
            DocNode::Paragraph(cs) => {
                // Merge adjacent paragraphs: buffer, emit nothing yet.
                ctx.paragraph_stack.push(cs);
                proof {
                    assert(ctx_model(*ctx).pstack =~= st_in.pstack.push(inlines_model(cs@)));
                    assert(ctx_model(*ctx).stack == st_in.stack);
                    assert(blocks_model(self.blocks@) =~= blocks_model(self.blocks@) + seq![]);
                }
            },
            DocNode::List { ordered, start, children } => {
                proof {
                    assert(decreases_to!(n0 => children));
                }
                self.drain_paragraph_stack(ctx);
                let ghost b0 = drain_model(st_in).0;
                let ghost st0 = drain_model(st_in).1;
                let next = match start {
                    Some(s) => s,
                    None => 1,
                };
                let scope = RenderListScope {
                    list_type: if ordered {
                        RenderListType::Ordered
                    } else {
                        RenderListType::Bullet
                    },
                    next_marker_index: next,
                };
                ctx.list_stack.push(scope);
                let ghost st1 = WalkModel { stack: st0.stack.push(scope), pstack: st0.pstack };
                proof {
                    assert(ctx_model(*ctx).pstack =~= st0.pstack);
                    assert(ctx_model(*ctx) == st1);
                }
                let ghost blocks1 = self.blocks@;
                self.walk_children(children, ctx);
                let ghost b1 = walk_children_model(docs_model(children@), st1).0;
                let ghost st2 = walk_children_model(docs_model(children@), st1).1;
                let ghost blocks2 = self.blocks@;
                self.drain_paragraph_stack(ctx);
                let ghost b2 = drain_model(st2).0;
                let ghost st3 = drain_model(st2).1;
                proof {
                    lemma_walk_children_stack_len(docs_model(children@), st1);
                    assert(st3.stack.len() > 0);
                }
                ctx.list_stack.pop();
                proof {
                    assert(ctx_model(*ctx).stack =~= st3.stack.drop_last());
                    assert(ctx_model(*ctx).pstack =~= st3.pstack);
                    assert(ctx_model(*ctx) == (WalkModel {
                        stack: st3.stack.drop_last(),
                        pstack: st3.pstack,
                    }));
                    assert(blocks_model(self.blocks@) =~= blocks_model(old(self).blocks@) + (b0
                        + b1 + b2));
                }
            },
            DocNode::ListItem(cs) => {
                proof {
                    assert(decreases_to!(n0 => cs));
                }
                self.drain_paragraph_stack(ctx);
                let ghost b0 = drain_model(st_in).0;
                let ghost st0 = drain_model(st_in).1;
                if ctx.list_stack.len() > 0 {
                    self.walk_item_children(cs, ctx);
                    proof {
                        let (b1, st1, p1) = walk_item_children_model(docs_model(cs@), st0, true);
                        assert(blocks_model(self.blocks@) =~= blocks_model(old(self).blocks@) + (b0
                            + b1));
                    }
                } else {
                    proof {
                        assert(blocks_model(self.blocks@) == blocks_model(old(self).blocks@) + b0);
                    }
                }
            },
            DocNode::Root(cs) => {
                proof {
                    assert(decreases_to!(n0 => cs));
                }
                self.drain_paragraph_stack(ctx);
                let ghost b0 = drain_model(st_in).0;
                let ghost st0 = drain_model(st_in).1;
                self.walk_children(cs, ctx);
                proof {
                    let (b1, st1) = walk_children_model(docs_model(cs@), st0);
                    assert(blocks_model(self.blocks@) =~= blocks_model(old(self).blocks@) + (b0
                        + b1));
                }
            },
            DocNode::Blockquote(cs) => {
                proof {
                    assert(decreases_to!(n0 => cs));
                }
                self.drain_paragraph_stack(ctx);
                let ghost b0 = drain_model(st_in).0;
                let ghost st0 = drain_model(st_in).1;
                self.walk_children(cs, ctx);
                proof {
                    let (b1, st1) = walk_children_model(docs_model(cs@), st0);
                    assert(blocks_model(self.blocks@) =~= blocks_model(old(self).blocks@) + (b0
                        + b1));
                }
            },
            DocNode::Other(cs) => {
                proof {
                    assert(decreases_to!(n0 => cs));
                }
                self.drain_paragraph_stack(ctx);
                let ghost b0 = drain_model(st_in).0;
                let ghost st0 = drain_model(st_in).1;
                self.walk_children(cs, ctx);
                proof {
                    let (b1, st1) = walk_children_model(docs_model(cs@), st0);
                    assert(blocks_model(self.blocks@) =~= blocks_model(old(self).blocks@) + (b0
                        + b1));
                }
            },
            other => {
                self.drain_paragraph_stack(ctx);
                let ghost b0 = drain_model(st_in).0;
                let ghost st0 = drain_model(st_in).1;
                let d = ctx.depth();
                let ghost blk = RenderBlock {
                    node: other,
                    depth: d,
                    marker: None,
                    is_continuation: false,
                };
                let ghost bb = self.blocks@;
                self.blocks.push(
                    RenderBlock { node: other, depth: d, marker: None, is_continuation: false },
                );
                proof {
                    let bm = BlockModel {
                        node: doc_model(n0),
                        depth: depth_of(st0.stack),
                        marker: None,
                        is_continuation: false,
                    };
                    assert(block_model(blk) == bm);
                    lemma_blocks_model_push(bb, blk);
                    assert((blocks_model(old(self).blocks@) + b0).push(bm)
                        =~= blocks_model(old(self).blocks@) + (b0 + seq![bm]));
                    assert(blocks_model(self.blocks@) =~= blocks_model(old(self).blocks@) + (b0
                        + seq![bm]));
                    assert(walk_model(doc_model(n0), st_in) == (b0 + seq![bm], st0));
                }
            },
        }
    }

    /// Walks a list of sibling nodes in order.
    #[verifier::loop_isolation(false)]
    fn walk_children(&mut self, cs: Vec<DocNode>, ctx: &mut RenderWalkContext)
        ensures
            ({
                let (b, st) = walk_children_model(docs_model(cs@), ctx_model(*old(ctx)));
                &&& blocks_model(final(self).blocks@) == blocks_model(old(self).blocks@) + b
                &&& ctx_model(*final(ctx)) == st
            }),
        decreases cs,
    {
        let ghost cs_entry = cs;
        let ghost cs0 = cs@;
        let ghost st_in = ctx_model(*old(ctx));
        let ghost full = walk_children_model(docs_model(cs0), st_in);
        proof {
            lemma_docs_model(cs0);
        }
        let mut rest = cs;
        let ghost mut k: int = 0;
        let ghost mut emitted: Seq<BlockModel> = seq![];
        proof {
            assert(rest@ =~= cs0.skip(0));
            assert(blocks_model(self.blocks@) =~= blocks_model(self.blocks@) + seq![]);
        }
        while rest.len() > 0
            invariant
                0 <= k <= cs0.len(),
                rest@ == cs0.skip(k),
                cs_entry@ == cs0,
                full == walk_children_model(docs_model(cs0), st_in),
                blocks_model(self.blocks@) == blocks_model(old(self).blocks@) + emitted,
                ({
                    let (br, sr) = walk_children_model(docs_model(rest@), ctx_model(*ctx));
                    full == (emitted + br, sr)
                }),
            decreases rest@.len(),
        {
            let ghost rest_pre = rest@;
            let ghost st_cur = ctx_model(*ctx);
            let c = rest.remove(0);
            proof {
                assert(c == cs0[k]);
                assert(decreases_to!(cs_entry => c));
                assert(rest@ =~= cs0.skip(k + 1));
            }
            let ghost emitted_pre = emitted;
            self.walk(c, ctx);
            proof {
                let (bstep, sstep) = walk_model(doc_model(c), st_cur);
                lemma_docs_model(rest_pre);
                lemma_docs_model(rest@);
                assert(docs_model(rest_pre).len() == rest_pre.len());
                assert(docs_model(rest_pre)[0] == doc_model(c));
                assert(docs_model(rest_pre).drop_first() =~= docs_model(rest@));
                let (br_pre, sr_pre) = walk_children_model(docs_model(rest_pre), st_cur);
                let (br, sr) = walk_children_model(docs_model(rest@), sstep);
                assert(br_pre == bstep + br && sr_pre == sr);
                emitted = emitted + bstep;
                k = k + 1;
                assert(emitted_pre + (bstep + br) =~= emitted + br);
                assert(blocks_model(self.blocks@) =~= blocks_model(old(self).blocks@) + emitted);
            }
        }
        proof {
            assert(rest@ =~= Seq::<DocNode>::empty());
            assert(docs_model(rest@) =~= Seq::<DocModel>::empty());
            let (br, sr) = walk_children_model(docs_model(rest@), ctx_model(*ctx));
            assert(br =~= seq![]);
            assert(emitted + br =~= emitted);
        }
    }

    /// Walks the children of a list item, handing the scope's marker to the
    /// first block-level child and marking later block-level children as
    /// continuations.
    #[verifier::loop_isolation(false)]
    #[verifier::rlimit(100)]
    fn walk_item_children(&mut self, cs: Vec<DocNode>, ctx: &mut RenderWalkContext)
        ensures
            ({
                let (b, st, p) = walk_item_children_model(
                    docs_model(cs@),
                    ctx_model(*old(ctx)),
                    true,
                );
                &&& blocks_model(final(self).blocks@) == blocks_model(old(self).blocks@) + b
                &&& ctx_model(*final(ctx)) == st
            }),
        decreases cs,
    {
        let ghost cs_entry = cs;
        let ghost cs0 = cs@;
        let ghost st_in = ctx_model(*old(ctx));
        let ghost full = walk_item_children_model(docs_model(cs0), st_in, true);
        proof {
            lemma_docs_model(cs0);
        }
        let mut rest = cs;
        let mut pending = true;
        let ghost mut k: int = 0;
        let ghost mut emitted: Seq<BlockModel> = seq![];
        proof {
            assert(rest@ =~= cs0.skip(0));
            assert(blocks_model(self.blocks@) =~= blocks_model(self.blocks@) + seq![]);
        }
        while rest.len() > 0
            invariant
                0 <= k <= cs0.len(),
                rest@ == cs0.skip(k),
                cs_entry@ == cs0,
                full == walk_item_children_model(docs_model(cs0), st_in, true),
                blocks_model(self.blocks@) == blocks_model(old(self).blocks@) + emitted,
                ({
                    let (br, sr, pr) = walk_item_children_model(
                        docs_model(rest@),
                        ctx_model(*ctx),
                        pending,
                    );
                    full == (emitted + br, sr, pr)
                }),
            decreases rest@.len(),
        {
            let ghost rest_pre = rest@;
            let ghost st_cur = ctx_model(*ctx);
            let was_pending = pending;
            let ghost pending_pre = pending;
            let c = rest.remove(0);
            proof {
                assert(c == cs0[k]);
                assert(decreases_to!(cs_entry => c));
                assert(rest@ =~= cs0.skip(k + 1));
                lemma_docs_model(rest_pre);
                lemma_docs_model(rest@);
                assert(docs_model(rest_pre)[0] == doc_model(c));
                assert(docs_model(rest_pre).drop_first() =~= docs_model(rest@));
            }
            let ghost emitted_pre = emitted;
            if is_block_node(&c) {
                if !(matches!(c, DocNode::Paragraph(_))) {
                    self.drain_paragraph_stack(ctx);
                }
                let ghost b0 = if doc_model(c) matches DocModel::Paragraph(_) {
                    seq![]
                } else {
                    drain_model(st_cur).0
                };
                let ghost st0 = if doc_model(c) matches DocModel::Paragraph(_) {
                    st_cur
                } else {
                    drain_model(st_cur).1
                };
                let took = pending && ctx.list_stack.len() > 0;
                let mut marker: Option<RenderMarker> = None;
                if took {
                    let ti = ctx.list_stack.len() - 1;
                    let top = ctx.list_stack[ti];
                    match top.list_type {
                        RenderListType::Bullet => {
                            marker = Some(RenderMarker::Bullet);
                        },
                        RenderListType::Ordered => {
                            marker = Some(RenderMarker::Ordered(top.next_marker_index));
                            let bumped = if top.next_marker_index == u32::MAX {
                                top.next_marker_index
                            } else {
                                top.next_marker_index + 1
                            };
                            ctx.list_stack.pop();
                            ctx.list_stack.push(
                                RenderListScope {
                                    list_type: RenderListType::Ordered,
                                    next_marker_index: bumped,
                                },
                            );
                            proof {
                                assert(ctx_model(*ctx).stack =~= consume_marker(st0.stack));
                                assert(ctx_model(*ctx).pstack =~= st0.pstack);
                            }
                        },
                    }
                    pending = false;
                }
                let ghost st1 = if took {
                    WalkModel { stack: consume_marker(st0.stack), pstack: st0.pstack }
                } else {
                    st0
                };
                proof {
                    if took {
                        assert(marker == Some(item_marker(st0.stack.last())));
                    }
                    assert(ctx_model(*ctx) == st1);
                }
                let d = ctx.depth();
                let ghost blkv = RenderBlock {
                    node: c,
                    depth: d,
                    marker,
                    is_continuation: !was_pending,
                };
                let ghost bb = self.blocks@;
                self.blocks.push(
                    RenderBlock { node: c, depth: d, marker, is_continuation: !was_pending },
                );
                proof {
                    lemma_blocks_model_push(bb, blkv);
                    let bm = BlockModel {
                        node: doc_model(c),
                        depth: depth_of(st1.stack),
                        marker: marker,
                        is_continuation: !pending_pre,
                    };
                    assert(block_model(blkv) == bm);
                    let (br_pre, sr_pre, pr_pre) = walk_item_children_model(
                        docs_model(rest_pre),
                        st_cur,
                        pending_pre,
                    );
                    let (br, sr, pr) = walk_item_children_model(
                        docs_model(rest@),
                        st1,
                        pending_pre && !took,
                    );
                    assert(br_pre == b0 + seq![bm] + br && sr_pre == sr && pr_pre == pr);
                    emitted = emitted + b0 + seq![bm];
                    k = k + 1;
                    assert(pending == (pending_pre && !took));
                    assert(((blocks_model(old(self).blocks@) + emitted_pre) + b0).push(bm)
                        =~= blocks_model(old(self).blocks@) + emitted);
                    assert(blocks_model(self.blocks@) =~= blocks_model(old(self).blocks@)
                        + emitted);
                    assert(emitted_pre + (b0 + seq![bm] + br) =~= emitted + br);
                }
            } else {
                self.walk(c, ctx);
                proof {
                    let (bstep, sstep) = walk_model(doc_model(c), st_cur);
                    let (br_pre, sr_pre, pr_pre) = walk_item_children_model(
                        docs_model(rest_pre),
                        st_cur,
                        pending_pre,
                    );
                    let (br, sr, pr) = walk_item_children_model(
                        docs_model(rest@),
                        sstep,
                        pending_pre,
                    );
                    assert(br_pre == bstep + br && sr_pre == sr && pr_pre == pr);
                    emitted = emitted + bstep;
                    k = k + 1;
                    assert(emitted_pre + (bstep + br) =~= emitted + br);
                    assert((blocks_model(old(self).blocks@) + emitted_pre) + bstep
                        =~= blocks_model(old(self).blocks@) + emitted);
                    assert(blocks_model(self.blocks@) =~= blocks_model(old(self).blocks@)
                        + emitted);
                }
            }
        }
        proof {
            assert(rest@ =~= Seq::<DocNode>::empty());
            assert(docs_model(rest@) =~= Seq::<DocModel>::empty());
            let (br, sr, pr) = walk_item_children_model(
                docs_model(rest@),
                ctx_model(*ctx),
                pending,
            );
            assert(br =~= seq![]);
            assert(emitted + br =~= emitted);
        }
    }

    /// Drains the paragraph stack: if any paragraphs are buffered, emits the
    /// single merged paragraph block and empties the buffer.
    fn drain_paragraph_stack(&mut self, ctx: &mut RenderWalkContext)
        ensures
            ({
                let (b, st) = drain_model(ctx_model(*old(ctx)));
                &&& blocks_model(final(self).blocks@) == blocks_model(old(self).blocks@) + b
                &&& ctx_model(*final(ctx)) == st
            }),
    {
        let ghost st_in = ctx_model(*old(ctx));
        if ctx.paragraph_stack.len() > 0 {
            let ghost ps0 = st_in.pstack;
            let mut children: Vec<InlineNode> = Vec::new();
            let mut first_chunk = true;
            let ghost mut k: int = 0;
            proof {
                assert(ctx_model(*ctx).pstack =~= ps0.skip(0));
                assert(inlines_model(children@) =~= merged_children(ps0.take(0)));
            }
            while ctx.paragraph_stack.len() > 0
                invariant
                    0 <= k <= ps0.len(),
                    first_chunk == (k == 0),
                    ps0.len() == k + ctx.paragraph_stack@.len(),
                    ctx_model(*ctx).pstack == ps0.skip(k as int),
                    ctx_model(*ctx).stack == st_in.stack,
                    inlines_model(children@) == merged_children(ps0.take(k as int)),
                    self.blocks@ == old(self).blocks@,
                decreases ctx.paragraph_stack@.len(),
            {
                let ghost pre = ctx_model(*ctx).pstack;
                let ghost ps_pre = ctx.paragraph_stack@;
                let mut chunk = ctx.paragraph_stack.remove(0);
                proof {
                    assert(pre[0] == inlines_model(chunk@));
                    assert(pre[0] == ps0[k as int]);
                    assert(ctx.paragraph_stack@ =~= ps_pre.drop_first());
                    assert forall|q: int| 0 <= q < ctx.paragraph_stack@.len() implies ctx_model(
                        *ctx,
                    ).pstack[q] == ps0.skip(k + 1 as int)[q] by {
                        assert(ctx.paragraph_stack@[q] == ps_pre[q + 1]);
                        assert(pre[q + 1] == ps0[k + 1 + q]);
                    }
                    assert(ctx_model(*ctx).pstack =~= ps0.skip(k + 1 as int));
                    assert(ctx_model(*ctx).stack == st_in.stack);
                }
                let ghost before = children@;
                if !first_chunk {
                    let sep = InlineNode::Text("\n\n".to_owned());
                    let ghost sepg = sep;
                    children.push(sep);
                    proof {
                        reveal_strlit("\n\n");
                        assert("\n\n"@ =~= seq!['\n', '\n']);
                        assert(inline_model(sepg) == InlineModel::Text(seq!['\n', '\n']));
                        assert(children@.drop_last() =~= before);
                        assert(children@.last() == sepg);
                        assert(inlines_model(children@) =~= inlines_model(before).push(
                            InlineModel::Text(seq!['\n', '\n']),
                        ));
                    }
                }
                let ghost mid = children@;
                let ghost chunk0 = chunk@;
                children.append(&mut chunk);
                proof {
                    crate::node::lemma_inlines_model_concat(mid, chunk0);
                    assert(inlines_model(chunk0) == pre[0]);
                    assert(pre[0] == ps0[k as int]);
                    let t = ps0.take(k + 1 as int);
                    assert(t.drop_last() =~= ps0.take(k as int));
                    assert(t.last() == ps0[k as int]);
                    if k == 0 {
                        assert(mid =~= Seq::<InlineNode>::empty());
                        assert(inlines_model(mid) =~= Seq::<InlineModel>::empty());
                        assert(seq![] + chunk0 =~= chunk0);
                        assert(inlines_model(children@) =~= merged_children(t));
                    } else {
                        assert(inlines_model(children@) =~= merged_children(ps0.take(k as int))
                            + seq![InlineModel::Text(seq!['\n', '\n'])] + ps0[k as int]);
                        assert(inlines_model(children@) =~= merged_children(t));
                    }
                }
                first_chunk = false;
                proof {
                    k = k + 1;
                }
            }
            let d = ctx.depth();
            let ghost final_children = children@;
            self.blocks.push(
                RenderBlock {
                    node: DocNode::Paragraph(children),
                    depth: d,
                    marker: None,
                    is_continuation: false,
                },
            );
            proof {
                assert(ps0.take(ps0.len() as int) =~= ps0);
                assert(inlines_model(final_children) == merged_children(ps0));
                let (b, st) = drain_model(st_in);
                assert(blocks_model(self.blocks@) =~= blocks_model(old(self).blocks@) + b);
                assert(ctx_model(*ctx).pstack =~= seq![]);
                assert(ctx_model(*ctx) == st);
            }
        } else {
            proof {
                assert(ctx_model(*ctx).pstack.len() == 0);
                let (b, st) = drain_model(st_in);
                assert(blocks_model(self.blocks@) =~= blocks_model(old(self).blocks@) + b);
                assert(ctx_model(*ctx) == st);
            }
        }
    }
}

} // verus!
