//! The reconciliation stage: a position-keyed table of live block instances
//! is held against each freshly flattened block sequence.
//!
//! A render pass first evicts every stale entry (position gone, or content
//! kind no longer accepted by the instance), then walks the new sequence in
//! ascending position order, reusing a surviving instance in place or
//! creating a fresh one, and emits the ordered list of operations a host
//! container must perform: evictions first, then one update/create/skip per
//! position.  The ghost mirror (`reconcile_model`) is the authoritative
//! statement of what `MarkdownView::render` does.

use vstd::prelude::*;

use crate::blocks::{
    BlockKind, BlockState, StateModel, fresh_model, kind_accepts, kind_for, match_block_kind,
    state_kind, state_model, update_state_model,
};
use crate::ir::{BlockModel, RenderBuffer, RenderMarker, blocks_model, flatten_model};
use crate::node::{DocNode, doc_model};

verus! {

/// Horizontal inset per nesting level, in display units.
pub const DEPTH_MULTIPLIER: i32 = 16;

/// Gap between a list marker and the content beside it, in display units.
pub const MARKER_SPACING: i32 = 4;

/// The extra left inset of a block inside a list item: a continuation block
/// aligns under the marker, so it is inset by the measured width of the
/// marker label plus the marker gap; the item's first block carries the
/// marker itself and needs none.
pub fn get_continuation_depth(is_continuation: bool, marker_width: i32) -> (r: i32)
    requires
        0 <= marker_width <= 1000000,
    ensures
        r == if is_continuation {
            marker_width + MARKER_SPACING
        } else {
            0
        },
{
    if is_continuation {
        marker_width + MARKER_SPACING
    } else {
        0
    }
}

/// The whole left inset of a block's display root: the nesting inset
/// (depth times the per-level unit) plus, for continuation blocks, the
/// marker alignment inset.
pub fn block_inset(depth: usize, is_continuation: bool, marker_width: i32) -> (r: i32)
    requires
        depth <= 1000000,
        0 <= marker_width <= 1000000,
    ensures
        r == depth * DEPTH_MULTIPLIER + if is_continuation {
            marker_width + MARKER_SPACING
        } else {
            0
        },
{
    (depth as i32) * DEPTH_MULTIPLIER + get_continuation_depth(is_continuation, marker_width)
}

/// A live rendered block: its instance and the marker it was created with.
#[derive(Debug, PartialEq)]
pub struct MarkdownBlock {
    pub block: BlockState,
    pub marker: Option<RenderMarker>,
}

/// Ghost model of a registry entry.
pub struct EntryModel {
    pub kind: BlockKind,
    pub state: StateModel,
    pub marker: Option<RenderMarker>,
}

pub open spec fn entry_model(e: MarkdownBlock) -> EntryModel {
    EntryModel { kind: state_kind(e.block), state: state_model(e.block), marker: e.marker }
}

pub open spec fn registry_model(v: Seq<Option<MarkdownBlock>>) -> Seq<Option<EntryModel>> {
    Seq::new(
        v.len(),
        |i: int|
            match v[i] {
                Some(e) => Some(entry_model(e)),
                None => None,
            },
    )
}

/// One structural operation the host container must perform, at a position.
#[derive(Debug, Clone, Copy, PartialEq, Eq)]
pub enum RenderOp {
    /// Detach the instance's display root; the entry is gone.
    Evict { pos: usize },
    /// A fresh instance was created and registered; append its display root
    /// (wrapped in a marker box when `marker` is set) and apply the layout
    /// metadata.
    Create {
        pos: usize,
        kind: BlockKind,
        marker: Option<RenderMarker>,
        depth: usize,
        is_continuation: bool,
    },
    /// The existing instance was reused in place; refresh its content only
    /// when `changed`, and apply the layout metadata.
    Update { pos: usize, changed: bool, depth: usize, is_continuation: bool },
    /// No renderer matches this position's node; it is not rendered.
    Skip { pos: usize },
}

/// Ghost model of a render operation.
pub enum OpModel {
    Evict { pos: int },
    Create {
        pos: int,
        kind: BlockKind,
        marker: Option<RenderMarker>,
        depth: int,
        is_continuation: bool,
    },
    Update { pos: int, changed: bool, depth: int, is_continuation: bool },
    Skip { pos: int },
}

pub open spec fn op_model(o: RenderOp) -> OpModel {
    match o {
        RenderOp::Evict { pos } => OpModel::Evict { pos: pos as int },
        RenderOp::Create { pos, kind, marker, depth, is_continuation } => OpModel::Create {
            pos: pos as int,
            kind,
            marker,
            depth: depth as int,
            is_continuation,
        },
        RenderOp::Update { pos, changed, depth, is_continuation } => OpModel::Update {
            pos: pos as int,
            changed,
            depth: depth as int,
            is_continuation,
        },
        RenderOp::Skip { pos } => OpModel::Skip { pos: pos as int },
    }
}

pub open spec fn ops_model(s: Seq<RenderOp>) -> Seq<OpModel> {
    Seq::new(s.len(), |i: int| op_model(s[i]))
}

/// An entry survives the eviction pass when its position still exists and
/// its instance accepts the node now at that position.
pub open spec fn keep_entry(e: Option<EntryModel>, seq: Seq<BlockModel>, i: int) -> bool {
    match e {
        Some(en) => 0 <= i < seq.len() && kind_accepts(en.kind, seq[i].node),
        None => true,
    }
}

/// The registry after the eviction pass: stale entries cleared in place.
pub open spec fn evict_registry(
    reg: Seq<Option<EntryModel>>,
    seq: Seq<BlockModel>,
) -> Seq<Option<EntryModel>> {
    Seq::new(
        reg.len(),
        |i: int|
            if keep_entry(reg[i], seq, i) {
                reg[i]
            } else {
                None
            },
    )
}

/// The eviction operations, in ascending position order, from position `i`.
pub open spec fn evict_ops(reg: Seq<Option<EntryModel>>, seq: Seq<BlockModel>, i: int) -> Seq<
    OpModel,
>
    decreases reg.len() - i,
{
    if i < 0 || i >= reg.len() {
        seq![]
    } else {
        let rest = evict_ops(reg, seq, i + 1);
        if reg[i] matches Some(_) && !keep_entry(reg[i], seq, i) {
            seq![OpModel::Evict { pos: i }] + rest
        } else {
            rest
        }
    }
}

/// The registry resized to the new sequence length: positions beyond the
/// old length start absent, entries beyond the new length are dropped (the
/// eviction pass has already retired them).
pub open spec fn sized_registry(reg: Seq<Option<EntryModel>>, n: nat) -> Seq<Option<EntryModel>> {
    Seq::new(
        n,
        |i: int|
            if i < reg.len() {
                reg[i]
            } else {
                None
            },
    )
}

/// The reuse-or-create pass from position `i`: a surviving compatible entry
/// is updated in place; otherwise a fresh instance of the matching kind is
/// created (content applied, marker recorded); a position whose node no
/// renderer matches is skipped and stays absent.  Returns the final
/// registry and the operations in ascending position order.
pub open spec fn place_model(reg: Seq<Option<EntryModel>>, seq: Seq<BlockModel>, i: int) -> (
    Seq<Option<EntryModel>>,
    Seq<OpModel>,
)
    decreases seq.len() - i,
{
    if i < 0 || i >= seq.len() {
        (reg, seq![])
    } else {
        let b = seq[i];
        let step: (Seq<Option<EntryModel>>, OpModel) = if reg[i] matches Some(en)
            && kind_accepts(en.kind, b.node) {
            let en = reg[i]->Some_0;
            let ns = update_state_model(en.state, b.node);
            (
                reg.update(i, Some(EntryModel { kind: en.kind, state: ns, marker: en.marker })),
                OpModel::Update {
                    pos: i,
                    changed: ns != en.state,
                    depth: b.depth,
                    is_continuation: b.is_continuation,
                },
            )
        } else {
            match kind_for(b.node) {
                Some(k) => (
                    reg.update(
                        i,
                        Some(
                            EntryModel {
                                kind: k,
                                state: update_state_model(fresh_model(k), b.node),
                                marker: b.marker,
                            },
                        ),
                    ),
                    OpModel::Create {
                        pos: i,
                        kind: k,
                        marker: b.marker,
                        depth: b.depth,
                        is_continuation: b.is_continuation,
                    },
                ),
                None => (reg, OpModel::Skip { pos: i }),
            }
        };
        let (reg2, ops2) = place_model(step.0, seq, i + 1);
        (reg2, seq![step.1] + ops2)
    }
}

/// A whole reconciliation pass over a new block sequence: evictions first,
/// then reuse-or-create per position in ascending order.
pub open spec fn reconcile_model(reg: Seq<Option<EntryModel>>, seq: Seq<BlockModel>) -> (
    Seq<Option<EntryModel>>,
    Seq<OpModel>,
) {
    let sized = sized_registry(evict_registry(reg, seq), seq.len());
    let (reg2, pops) = place_model(sized, seq, 0);
    (reg2, evict_ops(reg, seq, 0) + pops)
}

/// Appending an operation extends the operation sequence model.
proof fn lemma_ops_model_push(s: Seq<RenderOp>, o: RenderOp)
    ensures
        ops_model(s.push(o)) == ops_model(s).push(op_model(o)),
{
    assert(ops_model(s.push(o)) =~= ops_model(s).push(op_model(o)));
}

/// Appending an entry extends the registry model.
proof fn lemma_registry_model_push(s: Seq<Option<MarkdownBlock>>, e: Option<MarkdownBlock>)
    ensures
        registry_model(s.push(e)) == registry_model(s).push(
            match e {
                Some(x) => Some(entry_model(x)),
                None => None,
            },
        ),
{
    assert(registry_model(s.push(e)) =~= registry_model(s).push(
        match e {
            Some(x) => Some(entry_model(x)),
            None => None,
        },
    ));
}

/// The entry standing at a position after the reuse-or-create pass handled
/// it, given the entry that survived eviction there.
pub open spec fn place_entry(e: Option<EntryModel>, b: BlockModel) -> Option<EntryModel> {
    if e matches Some(en) && kind_accepts(en.kind, b.node) {
        let en = e->Some_0;
        Some(EntryModel { kind: en.kind, state: update_state_model(en.state, b.node), marker: en.marker })
    } else {
        match kind_for(b.node) {
            Some(k) => Some(
                EntryModel {
                    kind: k,
                    state: update_state_model(fresh_model(k), b.node),
                    marker: b.marker,
                },
            ),
            None => e,
        }
    }
}

/// The reuse-or-create pass rewrites each position from `i` on to its
/// placed entry and leaves earlier positions untouched.
proof fn lemma_place_result(reg: Seq<Option<EntryModel>>, seq: Seq<BlockModel>, i: int)
    requires
        0 <= i <= seq.len(),
        reg.len() == seq.len(),
    ensures
        ({
            let (r2, ops) = place_model(reg, seq, i);
            &&& r2.len() == seq.len()
            &&& forall|p: int| 0 <= p < i ==> r2[p] == reg[p]
            &&& forall|p: int| i <= p < seq.len() ==> r2[p] == place_entry(reg[p], #[trigger] seq[p])
        }),
    decreases seq.len() - i,
{
    if i < seq.len() {
        let b = seq[i];
        let step_reg: Seq<Option<EntryModel>> = if reg[i] matches Some(en) && kind_accepts(
            en.kind,
            b.node,
        ) {
            let en = reg[i]->Some_0;
            reg.update(
                i,
                Some(
                    EntryModel {
                        kind: en.kind,
                        state: update_state_model(en.state, b.node),
                        marker: en.marker,
                    },
                ),
            )
        } else {
            match kind_for(b.node) {
                Some(k) => reg.update(
                    i,
                    Some(
                        EntryModel {
                            kind: k,
                            state: update_state_model(fresh_model(k), b.node),
                            marker: b.marker,
                        },
                    ),
                ),
                None => reg,
            }
        };
        assert(step_reg.len() == seq.len());
        assert(step_reg[i] == place_entry(reg[i], b));
        lemma_place_result(step_reg, seq, i + 1);
    }
}

/// A position's entry is stable under a block when it is present, accepts
/// the node, and already displays its content — or is absent with no
/// renderer matching the node.
pub open spec fn entry_stable(e: Option<EntryModel>, b: BlockModel) -> bool {
    match e {
        Some(en) => kind_accepts(en.kind, b.node) && update_state_model(en.state, b.node)
            == en.state,
        None => kind_for(b.node) matches None,
    }
}

/// On a registry whose every entry is stable, eviction retires nothing.
proof fn lemma_evict_ops_stable(reg: Seq<Option<EntryModel>>, seq: Seq<BlockModel>, i: int)
    requires
        reg.len() == seq.len(),
        forall|p: int| 0 <= p < seq.len() ==> keep_entry(#[trigger] reg[p], seq, p),
    ensures
        evict_ops(reg, seq, i) == Seq::<OpModel>::empty(),
    decreases reg.len() - i,
{
    if 0 <= i < reg.len() {
        lemma_evict_ops_stable(reg, seq, i + 1);
        assert(evict_ops(reg, seq, i) =~= Seq::<OpModel>::empty());
    } else {
        assert(evict_ops(reg, seq, i) =~= Seq::<OpModel>::empty());
    }
}

/// On a registry whose every entry is stable, the reuse-or-create pass
/// changes nothing and every operation is an update that reports no change.
proof fn lemma_place_stable(reg: Seq<Option<EntryModel>>, seq: Seq<BlockModel>, i: int)
    requires
        0 <= i <= seq.len(),
        reg.len() == seq.len(),
        forall|p: int| 0 <= p < seq.len() ==> entry_stable(#[trigger] reg[p], seq[p]),
    ensures
        ({
            let (r2, ops) = place_model(reg, seq, i);
            &&& r2 == reg
            &&& forall|q: int|
                0 <= q < ops.len() ==> (#[trigger] ops[q] matches OpModel::Update {
                    changed,
                    ..
                } && changed == false) || (ops[q] matches OpModel::Skip { .. })
        }),
    decreases seq.len() - i,
{
    if i < seq.len() {
        let b = seq[i];
        assert(entry_stable(reg[i], b));
        if reg[i] matches Some(en) && kind_accepts(en.kind, b.node) {
            let en = reg[i]->Some_0;
            assert(update_state_model(en.state, b.node) == en.state);
            assert(reg.update(
                i,
                Some(
                    EntryModel {
                        kind: en.kind,
                        state: update_state_model(en.state, b.node),
                        marker: en.marker,
                    },
                ),
            ) =~= reg);
            lemma_place_stable(reg, seq, i + 1);
        } else {
            assert(kind_for(b.node) matches None);
            lemma_place_stable(reg, seq, i + 1);
        }
    }
}

/// A placed entry is stable: rendering the same block again reuses it with
/// no content change.
proof fn lemma_place_entry_stable(e: Option<EntryModel>, b: BlockModel)
    requires
        match e {
            Some(en) => kind_accepts(en.kind, b.node),
            None => true,
        },
    ensures
        entry_stable(place_entry(e, b), b),
{
    if e matches Some(en) && kind_accepts(en.kind, b.node) {
        let en = e->Some_0;
        crate::blocks::lemma_update_state_idempotent(en.state, b.node);
    } else {
        match kind_for(b.node) {
            Some(k) => {
                crate::blocks::lemma_update_state_idempotent(fresh_model(k), b.node);
            },
            None => {
            },
        }
    }
}

/// Reuse idempotence: rendering the same flattened document twice in a row
/// performs, on the second pass, no eviction and no creation, and every
/// per-position operation is a reuse that reports no content change.
pub proof fn lemma_rerender_identity(reg0: Seq<Option<EntryModel>>, d: crate::node::DocModel)
    ensures
        ({
            let seq = flatten_model(d);
            let (reg1, ops1) = reconcile_model(reg0, seq);
            let (reg2, ops2) = reconcile_model(reg1, seq);
            &&& reg2 == reg1
            &&& forall|q: int|
                0 <= q < ops2.len() ==> (#[trigger] ops2[q] matches OpModel::Update {
                    changed,
                    ..
                } && changed == false) || (ops2[q] matches OpModel::Skip { .. })
        }),
{
    let seq = flatten_model(d);
    let n = seq.len();
    let sized1 = sized_registry(evict_registry(reg0, seq), n);
    assert(sized1.len() == n);
    lemma_place_result(sized1, seq, 0);
    let (reg1, ops1) = reconcile_model(reg0, seq);
    assert(reg1 == place_model(sized1, seq, 0).0);
    assert(reg1.len() == n);
    // every entry of reg1 is stable
    assert forall|p: int| 0 <= p < n implies entry_stable(#[trigger] reg1[p], seq[p]) by {
        assert(reg1[p] == place_entry(sized1[p], seq[p]));
        match sized1[p] {
            Some(en) => {
                assert(sized1[p] == evict_registry(reg0, seq)[p]);
                assert(kind_accepts(en.kind, seq[p].node));
            },
            None => {
            },
        }
        lemma_place_entry_stable(sized1[p], seq[p]);
    }
    // second pass: nothing is evicted
    assert forall|p: int| 0 <= p < n implies keep_entry(#[trigger] reg1[p], seq, p) by {
        assert(entry_stable(reg1[p], seq[p]));
    }
    lemma_evict_ops_stable(reg1, seq, 0);
    let ev2 = evict_registry(reg1, seq);
    assert(ev2 =~= reg1);
    let sized2 = sized_registry(ev2, n);
    assert(sized2 =~= reg1);
    lemma_place_stable(reg1, seq, 0);
    let (reg2, ops2) = reconcile_model(reg1, seq);
    assert(reg2 == place_model(sized2, seq, 0).0);
    assert(place_model(sized2, seq, 0) == place_model(reg1, seq, 0));
    assert(reg2 == reg1);
    assert(ops2 =~= Seq::<OpModel>::empty() + place_model(reg1, seq, 0).1);
    assert(ops2 =~= place_model(reg1, seq, 0).1);
}

/// The view controller's state: the flattened block sequence of the current
/// document and the position-keyed table of live block instances.
#[derive(Debug)]
pub struct MarkdownView {
    pub buffer: RenderBuffer,
    pub blocks: Vec<Option<MarkdownBlock>>,
}

impl Default for MarkdownView {
    /// A fresh view: nothing rendered yet.
    fn default() -> (r: Self)
        ensures
            r.buffer.blocks@.len() == 0,
            registry_model(r.blocks@) == Seq::<Option<EntryModel>>::empty(),
    {
        let r = MarkdownView { buffer: RenderBuffer::default(), blocks: Vec::new() };
        proof {
            assert(registry_model(r.blocks@) =~= Seq::<Option<EntryModel>>::empty());
        }
        r
    }
}

impl MarkdownView {
    /// One render pass over a freshly parsed document: flatten it, retire
    /// every stale instance, then reuse or create an instance per position.
    /// Returns the operations the host container must perform, in order.
    #[verifier::loop_isolation(false)]
    #[verifier::rlimit(100)]
    pub fn render(&mut self, doc: DocNode) -> (ops: Vec<RenderOp>)
        ensures
            ({
                let seq = flatten_model(doc_model(doc));
                let (reg2, opsm) = reconcile_model(registry_model(old(self).blocks@), seq);
                &&& blocks_model(final(self).buffer.blocks@) == seq
                &&& registry_model(final(self).blocks@) == reg2
                &&& ops_model(ops@) == opsm
            }),
    {
        self.buffer.set(doc);
        let ghost reg0 = registry_model(old(self).blocks@);
        let ghost seqm = blocks_model(self.buffer.blocks@);
        let n = self.buffer.blocks.len();
        let mut ops: Vec<RenderOp> = Vec::new();
        proof {
            assert(ops_model(ops@) =~= seq![]);
            assert(seq![] + evict_ops(reg0, seqm, 0) =~= evict_ops(reg0, seqm, 0));
        }
        // Eviction pass: runs to completion before any placement.
        let mut i: usize = 0;
        while i < self.blocks.len()
            invariant
                i <= self.blocks@.len(),
                registry_model(self.blocks@) == reg0,
                ops_model(ops@) + evict_ops(reg0, seqm, i as int) == evict_ops(reg0, seqm, 0),
            decreases self.blocks@.len() - i,
        {
            let stale = match &self.blocks[i] {
                Some(e) => {
                    if i < n {
                        !e.block.valid_node(&self.buffer.blocks[i].node)
                    } else {
                        true
                    }
                },
                None => false,
            };
            proof {
                assert(stale == !keep_entry(reg0[i as int], seqm, i as int));
            }
            if stale {
                let ghost ops_pre = ops@;
                ops.push(RenderOp::Evict { pos: i });
                proof {
                    lemma_ops_model_push(ops_pre, RenderOp::Evict { pos: i });
                    assert(ops_model(ops@) + evict_ops(reg0, seqm, i + 1 as int) =~= ops_model(
                        ops_pre,
                    ) + evict_ops(reg0, seqm, i as int));
                }
            }
            i = i + 1;
        }
        proof {
            assert(evict_ops(reg0, seqm, self.blocks@.len() as int) =~= seq![]);
            assert(ops_model(ops@) + evict_ops(reg0, seqm, self.blocks@.len() as int) =~= ops_model(
                ops@,
            ));
            assert(ops_model(ops@) == evict_ops(reg0, seqm, 0));
        }
        // Reuse-or-create pass, in ascending position order.
        let ghost sized = sized_registry(evict_registry(reg0, seqm), seqm.len());
        let mut old_blocks: Vec<Option<MarkdownBlock>> = Vec::new();
        core::mem::swap(&mut self.blocks, &mut old_blocks);
        let ghost orig = old_blocks@;
        let ghost evops = ops_model(ops@);
        let ghost mut pops: Seq<OpModel> = seq![];
        let mut j: usize = 0;
        proof {
            assert(self.blocks@.len() == 0);
            assert(registry_model(self.blocks@) =~= Seq::<Option<EntryModel>>::empty());
            assert(registry_model(self.blocks@) + sized.skip(0) =~= sized);
            assert(seq![] + place_model(sized, seqm, 0).1 =~= place_model(sized, seqm, 0).1);
        }
        while j < n
            invariant
                j <= n,
                n == self.buffer.blocks@.len(),
                seqm == blocks_model(self.buffer.blocks@),
                seqm.len() == n,
                self.blocks@.len() == j,
                registry_model(orig) == reg0,
                old_blocks@ == (if j as int <= orig.len() {
                    orig.skip(j as int)
                } else {
                    Seq::<Option<MarkdownBlock>>::empty()
                }),
                ops_model(ops@) == evops + pops,
                ({
                    let rem = place_model(
                        registry_model(self.blocks@) + sized.skip(j as int),
                        seqm,
                        j as int,
                    );
                    place_model(sized, seqm, 0) == (rem.0, pops + rem.1)
                }),
            decreases n - j,
        {
            let ghost self_blocks_pre = self.blocks@;
            let ghost reg_cur = registry_model(self.blocks@) + sized.skip(j as int);
            proof {
                assert(reg_cur[j as int] == sized[j as int]);
                assert(seqm[j as int].node == doc_model(self.buffer.blocks@[j as int].node));
                assert(seqm[j as int].depth == self.buffer.blocks@[j as int].depth as int);
                assert(seqm[j as int].marker == self.buffer.blocks@[j as int].marker);
                assert(seqm[j as int].is_continuation == self.buffer.blocks@[
                    j as int
                ].is_continuation);
            }
            let old_entry: Option<MarkdownBlock> = if old_blocks.len() > 0 {
                old_blocks.remove(0)
            } else {
                None
            };
            proof {
                if (j as int) < orig.len() {
                    assert(old_entry == orig[j as int]);
                    assert(reg0[j as int] == (match orig[j as int] {
                        Some(x) => Some(entry_model(x)),
                        None => None,
                    }));
                    assert(old_blocks@ =~= (if j + 1 as int <= orig.len() {
                        orig.skip(j + 1 as int)
                    } else {
                        Seq::<Option<MarkdownBlock>>::empty()
                    }));
                } else {
                    assert(old_entry matches None);
                    assert(old_blocks@ =~= Seq::<Option<MarkdownBlock>>::empty());
                }
            }
            let depth = self.buffer.blocks[j].depth;
            let is_continuation = self.buffer.blocks[j].is_continuation;
            let ghost step = place_model(reg_cur, seqm, j as int);
            let mut entry_opt: Option<MarkdownBlock> = None;
            let mut op: RenderOp = RenderOp::Skip { pos: j };
            match old_entry {
                Some(mut e) => {
                    let valid = e.block.valid_node(&self.buffer.blocks[j].node);
                    if valid {
                        let changed = e.block.update(&self.buffer.blocks[j].node);
                        op = RenderOp::Update { pos: j, changed, depth, is_continuation };
                        entry_opt = Some(e);
                    } else {
                        match match_block_kind(&self.buffer.blocks[j].node) {
                            Some(kind) => {
                                let mut b = BlockState::create(kind);
                                let _ = b.update(&self.buffer.blocks[j].node);
                                let marker = self.buffer.blocks[j].marker;
                                op = RenderOp::Create {
                                    pos: j,
                                    kind,
                                    marker,
                                    depth,
                                    is_continuation,
                                };
                                entry_opt = Some(MarkdownBlock { block: b, marker });
                            },
                            None => {
                            },
                        }
                    }
                },
                None => {
                    match match_block_kind(&self.buffer.blocks[j].node) {
                        Some(kind) => {
                            let mut b = BlockState::create(kind);
                            let _ = b.update(&self.buffer.blocks[j].node);
                            let marker = self.buffer.blocks[j].marker;
                            op = RenderOp::Create { pos: j, kind, marker, depth, is_continuation };
                            entry_opt = Some(MarkdownBlock { block: b, marker });
                        },
                        None => {
                        },
                    }
                },
            }
            let ghost entry_g = entry_opt;
            let ghost op_g = op;
            let ghost ops_pre = ops@;
            ops.push(op);
            self.blocks.push(entry_opt);
            proof {
                lemma_ops_model_push(ops_pre, op_g);
                lemma_registry_model_push(self_blocks_pre, entry_g);
                // the step taken matches the model's step at position j
                let reg_next = registry_model(self.blocks@) + sized.skip(j + 1 as int);
                let b = seqm[j as int];
                if reg_cur[j as int] matches Some(en) && kind_accepts(en.kind, b.node) {
                    let en = reg_cur[j as int]->Some_0;
                    assert(op_model(op_g) == (OpModel::Update {
                        pos: j as int,
                        changed: update_state_model(en.state, b.node) != en.state,
                        depth: b.depth,
                        is_continuation: b.is_continuation,
                    }));
                    assert(reg_next =~= reg_cur.update(
                        j as int,
                        Some(
                            EntryModel {
                                kind: en.kind,
                                state: update_state_model(en.state, b.node),
                                marker: en.marker,
                            },
                        ),
                    ));
                } else {
                    match kind_for(b.node) {
                        Some(k) => {
                            assert(op_model(op_g) == (OpModel::Create {
                                pos: j as int,
                                kind: k,
                                marker: b.marker,
                                depth: b.depth,
                                is_continuation: b.is_continuation,
                            }));
                            assert(reg_next =~= reg_cur.update(
                                j as int,
                                Some(
                                    EntryModel {
                                        kind: k,
                                        state: update_state_model(fresh_model(k), b.node),
                                        marker: b.marker,
                                    },
                                ),
                            ));
                        },
                        None => {
                            assert(op_model(op_g) == (OpModel::Skip { pos: j as int }));
                            assert(reg_next =~= reg_cur);
                        },
                    }
                }
                let rem_next = place_model(reg_next, seqm, j + 1 as int);
                assert(step == (rem_next.0, seq![op_model(op_g)] + rem_next.1));
                pops = pops.push(op_model(op_g));
                assert(pops + rem_next.1 =~= (pops.drop_last() + (seq![op_model(op_g)]
                    + rem_next.1)));
                assert(ops_model(ops@) =~= evops + pops);
            }
            j = j + 1;
        }
        proof {
            let rem = place_model(
                registry_model(self.blocks@) + sized.skip(n as int),
                seqm,
                n as int,
            );
            assert(registry_model(self.blocks@) + sized.skip(n as int) =~= registry_model(
                self.blocks@,
            ));
            assert(rem.1 =~= seq![]);
            assert(pops + rem.1 =~= pops);
            assert(ops_model(ops@) == evops + pops);
        }
        ops
    }
}

} // verus!
