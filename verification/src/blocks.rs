//! Content state of the leaf block renderers.
//!
//! Each block kind (text/heading, code, table, thematic break) keeps the
//! content it currently displays as plain values; `update` recomputes the
//! content from a node and reports whether anything visibly changed, so a
//! host can skip redundant layout work.  Dispatch over the kinds is a closed
//! tagged enum (`BlockState`), selected through the fixed matcher order of
//! `match_block_kind`.

use vstd::prelude::*;
use vstd::string::*;

use crate::node::{
    DocModel, DocNode, InlineModel, InlineNode, TableRow, doc_model, inlines_model, rows_model,
};
use crate::util::{inlines_markup_model, inlines_to_pango_markup};

verus! {

/// Which renderer a block instance is bound to.
#[derive(Debug, Clone, Copy, PartialEq, Eq, Structural)]
pub enum BlockKind {
    Text,
    Code,
    Table,
    ThematicBreak,
}

/// The renderer kind selected for a node, consulting the fixed matcher
/// order: text (paragraph or heading), then code, then table, then thematic
/// break.  Structural kinds match no renderer.
pub open spec fn kind_for(n: DocModel) -> Option<BlockKind> {
    match n {
        DocModel::Paragraph(_) => Some(BlockKind::Text),
        DocModel::Heading(_, _) => Some(BlockKind::Text),
        DocModel::Code(_, _) => Some(BlockKind::Code),
        DocModel::Table(_) => Some(BlockKind::Table),
        DocModel::ThematicBreak => Some(BlockKind::ThematicBreak),
        _ => None,
    }
}

/// True when an instance of kind `k` may be reused for node `n`.
pub open spec fn kind_accepts(k: BlockKind, n: DocModel) -> bool {
    kind_for(n) == Some(k)
}

/// Selects a renderer kind for a node from the fixed matcher table.
pub fn match_block_kind(node: &DocNode) -> (r: Option<BlockKind>)
    ensures
        r == kind_for(doc_model(*node)),
{
    match node {
        DocNode::Paragraph(_) => Some(BlockKind::Text),
        DocNode::Heading(_, _) => Some(BlockKind::Text),
        DocNode::Code(_, _) => Some(BlockKind::Code),
        DocNode::Table(_) => Some(BlockKind::Table),
        DocNode::ThematicBreak => Some(BlockKind::ThematicBreak),
        _ => None,
    }
}

/// The font-size label used for a heading of the given level; levels beyond
/// six (or below one) fall back to the body size.
pub open spec fn heading_size_model(depth: u8) -> Seq<char> {
    if depth == 1 {
        seq!['1', '7', '0', '%']
    } else if depth == 2 {
        seq!['1', '5', '0', '%']
    } else if depth == 3 {
        seq!['1', '2', '5', '%']
    } else if depth == 4 {
        seq!['1', '1', '0', '%']
    } else if depth == 5 {
        seq!['1', '0', '0', '%']
    } else if depth == 6 {
        seq!['9', '0', '%']
    } else {
        seq!['1', '0', '0', '%']
    }
}

/// Executable mirror of [`heading_size_model`].
pub fn heading_size(depth: u8) -> (r: &'static str)
    ensures
        r@ == heading_size_model(depth),
{
    proof {
        reveal_strlit("170%");
        reveal_strlit("150%");
        reveal_strlit("125%");
        reveal_strlit("110%");
        reveal_strlit("100%");
        reveal_strlit("90%");
    }
    let r = if depth == 1 {
        "170%"
    } else if depth == 2 {
        "150%"
    } else if depth == 3 {
        "125%"
    } else if depth == 4 {
        "110%"
    } else if depth == 5 {
        "100%"
    } else if depth == 6 {
        "90%"
    } else {
        "100%"
    };
    proof {
        assert(r@ =~= heading_size_model(depth));
    }
    r
}

/// The markup a text block displays for a heading: the inline markup
/// wrapped in a size span.
pub open spec fn heading_markup_model(depth: u8, cs: Seq<InlineModel>) -> Seq<char> {
    seq!['<', 's', 'p', 'a', 'n', ' ', 's', 'i', 'z', 'e', '=', '"'] + heading_size_model(depth)
        + seq!['"', '>'] + inlines_markup_model(cs) + seq!['<', '/', 's', 'p', 'a', 'n', '>']
}

/// What a text block displays after an update: a paragraph's inline markup,
/// a heading's span-wrapped markup, and for any other node the previous
/// content unchanged.
pub open spec fn text_update_model(n: DocModel, old_markup: Seq<char>) -> Seq<char> {
    match n {
        DocModel::Paragraph(cs) => inlines_markup_model(cs),
        DocModel::Heading(d, cs) => heading_markup_model(d, cs),
        _ => old_markup,
    }
}

/// A text (paragraph or heading) block: the markup currently displayed.
#[derive(Debug, PartialEq)]
pub struct TextBlock {
    pub markup: String,
}

impl Default for TextBlock {
    /// A fresh text block displays nothing.
    fn default() -> (r: Self)
        ensures
            r.markup@ == Seq::<char>::empty(),
    {
        TextBlock { markup: String::new() }
    }
}

impl TextBlock {
    /// Displays the markup of a paragraph's inline children; reports whether
    /// the displayed content changed.
    pub fn set_from_paragraph(&mut self, children: &Vec<InlineNode>) -> (changed: bool)
        ensures
            final(self).markup@ == inlines_markup_model(inlines_model(children@)),
            changed == (final(self).markup@ != old(self).markup@),
    {
        let m = inlines_to_pango_markup(children);
        let same = self.markup.eq(&m);
        if !same {
            self.markup = m;
        }
        !same
    }

    /// Displays a heading's inline children wrapped in its size span;
    /// reports whether the displayed content changed.
    pub fn set_from_heading(
        &mut self,
        depth: u8,
        children: &Vec<InlineNode>,
    ) -> (changed: bool)
        ensures
            final(self).markup@ == heading_markup_model(depth, inlines_model(children@)),
            changed == (final(self).markup@ != old(self).markup@),
    {
        let mut m = String::new();
        m.append("<span size=\"");
        m.append(heading_size(depth));
        m.append("\">");
        let inner = inlines_to_pango_markup(children);
        m.append(inner.as_str());
        m.append("</span>");
        proof {
            reveal_strlit("<span size=\"");
            reveal_strlit("\">");
            reveal_strlit("</span>");
            assert(("<span size=\"")@ =~= seq![
                '<',
                's',
                'p',
                'a',
                'n',
                ' ',
                's',
                'i',
                'z',
                'e',
                '=',
                '"',
            ]);
            assert(("\">")@ =~= seq!['"', '>']);
            assert(("</span>")@ =~= seq!['<', '/', 's', 'p', 'a', 'n', '>']);
            assert(m@ =~= heading_markup_model(depth, inlines_model(children@)));
        }
        let same = self.markup.eq(&m);
        if !same {
            self.markup = m;
        }
        !same
    }

    /// Applies a node: paragraphs and headings set the markup; any other
    /// node leaves the display untouched.
    pub fn update(&mut self, node: &DocNode) -> (changed: bool)
        ensures
            final(self).markup@ == text_update_model(doc_model(*node), old(self).markup@),
            changed == (final(self).markup@ != old(self).markup@),
    {
        match node {
            DocNode::Paragraph(children) => self.set_from_paragraph(children),
            DocNode::Heading(depth, children) => self.set_from_heading(*depth, children),
            _ => false,
        }
    }

    /// True when this instance may display the given node.
    pub fn valid_node(&self, node: &DocNode) -> (r: bool)
        ensures
            r == kind_accepts(BlockKind::Text, doc_model(*node)),
    {
        matches!(node, DocNode::Paragraph(_) | DocNode::Heading(_, _))
    }
}

/// The model of an optional language tag.
pub open spec fn lang_model(l: Option<String>) -> Option<Seq<char>> {
    match l {
        Some(s) => Some(s@),
        None => None,
    }
}

/// What a code block displays after an update: a code node replaces both
/// the language tag and the text; any other node leaves them untouched.
pub open spec fn code_update_model(
    lang: Option<Seq<char>>,
    text: Seq<char>,
    n: DocModel,
) -> (Option<Seq<char>>, Seq<char>) {
    match n {
        DocModel::Code(nl, nv) => (nl, nv),
        _ => (lang, text),
    }
}

/// A code block: the language tag and source text currently displayed.
#[derive(Debug, PartialEq)]
pub struct CodeBlock {
    pub lang: Option<String>,
    pub text: String,
}

impl Default for CodeBlock {
    /// A fresh code block: no language, empty text.
    fn default() -> (r: Self)
        ensures
            lang_model(r.lang) matches None,
            r.text@ == Seq::<char>::empty(),
    {
        CodeBlock { lang: None, text: String::new() }
    }
}

/// Compares two optional language tags by content.
fn opt_string_eq(a: &Option<String>, b: &Option<String>) -> (r: bool)
    ensures
        r == (lang_model(*a) == lang_model(*b)),
{
    match (a, b) {
        (None, None) => true,
        (Some(x), Some(y)) => x.eq(y),
        _ => false,
    }
}

impl CodeBlock {
    /// Displays new source text; reports whether it differs from what was
    /// shown.  The language tag is untouched.
    pub fn set_markup(&mut self, code: &str) -> (changed: bool)
        ensures
            final(self).text@ == code@,
            final(self).lang == old(self).lang,
            changed == (old(self).text@ != code@),
    {
        let code_s = code.to_owned();
        let same = self.text.eq(&code_s);
        if !same {
            self.text = code_s;
        }
        !same
    }

    /// Applies a node: a code node sets language and text; any other node
    /// leaves the display untouched.
    pub fn update(&mut self, node: &DocNode) -> (changed: bool)
        ensures
            ({
                let (nl, nt) = code_update_model(
                    lang_model(old(self).lang),
                    old(self).text@,
                    doc_model(*node),
                );
                &&& lang_model(final(self).lang) == nl
                &&& final(self).text@ == nt
                &&& changed == ((nl, nt) != (
                    lang_model(old(self).lang),
                    old(self).text@,
                ))
            }),
    {
        match node {
            DocNode::Code(new_lang, value) => {
                let lang_changed = !opt_string_eq(&self.lang, new_lang);
                if lang_changed {
                    let copied = match new_lang {
                        Some(s) => Some(s.clone()),
                        None => None,
                    };
                    self.lang = copied;
                }
                let text_changed = self.set_markup(value.as_str());
                lang_changed || text_changed
            },
            _ => false,
        }
    }

    /// True when this instance may display the given node.
    pub fn valid_node(&self, node: &DocNode) -> (r: bool)
        ensures
            r == kind_accepts(BlockKind::Code, doc_model(*node)),
    {
        matches!(node, DocNode::Code(_, _))
    }
}

/// The model of one displayed table row: its cell markups.
pub open spec fn table_row_cells_model(v: Vec<String>) -> Seq<Seq<char>> {
    Seq::new(v@.len(), |c: int| v@[c]@)
}

/// The model of the displayed grid: rows of cell markups.
pub open spec fn cells_model(v: Seq<Vec<String>>) -> Seq<Seq<Seq<char>>> {
    Seq::new(v.len(), |r: int| table_row_cells_model(v[r]))
}

/// The grid a table displays for the given rows: rectangular, with the
/// first row's cell count as the column count everywhere; a missing cell is
/// shown empty, an extra cell is not shown.
pub open spec fn table_grid_model(rows: Seq<Seq<Seq<InlineModel>>>) -> Seq<Seq<Seq<char>>> {
    let cols = if rows.len() == 0 {
        0
    } else {
        rows[0].len()
    };
    Seq::new(
        rows.len(),
        |r: int|
            Seq::new(
                cols,
                |c: int|
                    if c < rows[r].len() {
                        inlines_markup_model(rows[r][c])
                    } else {
                        Seq::<char>::empty()
                    },
            ),
    )
}

/// A table block: the grid of cell markups currently displayed.
#[derive(Debug, PartialEq)]
pub struct TableBlock {
    pub cells: Vec<Vec<String>>,
}

impl Default for TableBlock {
    /// A fresh table block displays no cells.
    fn default() -> (r: Self)
        ensures
            cells_model(r.cells@) == Seq::<Seq<Seq<char>>>::empty(),
    {
        let r = TableBlock { cells: Vec::new() };
        proof {
            assert(cells_model(r.cells@) =~= Seq::<Seq<Seq<char>>>::empty());
        }
        r
    }
}

/// Compares two rows of cell markups by content.
fn row_eq(a: &Vec<String>, b: &Vec<String>) -> (r: bool)
    ensures
        r == (table_row_cells_model(*a) == table_row_cells_model(*b)),
{
    let ghost ma = table_row_cells_model(*a);
    let ghost mb = table_row_cells_model(*b);
    if a.len() != b.len() {
        proof {
            assert(ma.len() != mb.len());
        }
        return false;
    }
    let n = a.len();
    let mut i: usize = 0;
    while i < n
        invariant
            i <= n,
            n == a@.len() == b@.len(),
            ma == table_row_cells_model(*a),
            mb == table_row_cells_model(*b),
            forall|p: int| 0 <= p < i ==> ma[p] == mb[p],
        decreases n - i,
    {
        if !a[i].eq(&b[i]) {
            proof {
                if ma == mb {
                    assert(ma[i as int] == mb[i as int]);
                }
            }
            return false;
        }
        i = i + 1;
    }
    proof {
        assert(ma =~= mb);
    }
    true
}

/// Compares two grids of cell markups by content.
fn grid_eq(a: &Vec<Vec<String>>, b: &Vec<Vec<String>>) -> (r: bool)
    ensures
        r == (cells_model(a@) == cells_model(b@)),
{
    let ghost ma = cells_model(a@);
    let ghost mb = cells_model(b@);
    if a.len() != b.len() {
        proof {
            assert(ma.len() != mb.len());
        }
        return false;
    }
    let n = a.len();
    let mut i: usize = 0;
    while i < n
        invariant
            i <= n,
            n == a@.len() == b@.len(),
            ma == cells_model(a@),
            mb == cells_model(b@),
            forall|p: int| 0 <= p < i ==> ma[p] == mb[p],
        decreases n - i,
    {
        if !row_eq(&a[i], &b[i]) {
            proof {
                if ma == mb {
                    assert(ma[i as int] == mb[i as int]);
                }
            }
            return false;
        }
        i = i + 1;
    }
    proof {
        assert(ma =~= mb);
    }
    true
}

impl TableBlock {
    /// Displays the given rows as a rectangular grid: the first row fixes
    /// the column count, a missing cell is shown empty, an extra cell is
    /// dropped.  Reports whether the displayed grid changed.
    pub fn set_table(&mut self, rows: &Vec<TableRow>) -> (changed: bool)
        ensures
            cells_model(final(self).cells@) == table_grid_model(rows_model(rows@)),
            changed == (cells_model(final(self).cells@) != cells_model(old(self).cells@)),
    {
        let ghost target = table_grid_model(rows_model(rows@));
        let cols = if rows.len() == 0 {
            0
        } else {
            rows[0].cells.len()
        };
        let mut grid: Vec<Vec<String>> = Vec::new();
        let mut r: usize = 0;
        while r < rows.len()
            invariant
                r <= rows@.len(),
                cols as int == (if rows@.len() == 0 {
                    0int
                } else {
                    rows_model(rows@)[0].len() as int
                }),
                target == table_grid_model(rows_model(rows@)),
                grid@.len() == r,
                forall|p: int| 0 <= p < r ==> #[trigger] cells_model(grid@)[p] == target[p],
            decreases rows@.len() - r,
        {
            let mut row: Vec<String> = Vec::new();
            let rcells = &rows[r].cells;
            let mut c: usize = 0;
            while c < cols
                invariant
                    c <= cols,
                    r < rows@.len(),
                    rcells == rows@[r as int].cells,
                    cols as int == (if rows@.len() == 0 {
                        0int
                    } else {
                        rows_model(rows@)[0].len() as int
                    }),
                    target == table_grid_model(rows_model(rows@)),
                    row@.len() == c,
                    forall|q: int|
                        0 <= q < c ==> #[trigger] row@[q]@ == target[r as int][q],
                decreases cols - c,
            {
                if c < rcells.len() {
                    let m = inlines_to_pango_markup(&rcells[c].content);
                    row.push(m);
                    proof {
                        assert(rows_model(rows@)[r as int][c as int] == inlines_model(
                            rows@[r as int].cells@[c as int].content@,
                        ));
                        assert(row@[c as int]@ == target[r as int][c as int]);
                    }
                } else {
                    row.push(String::new());
                    proof {
                        assert(rows_model(rows@)[r as int].len() == rcells@.len());
                        assert(row@[c as int]@ == target[r as int][c as int]);
                    }
                }
                c = c + 1;
            }
            let ghost gpre = grid@;
            grid.push(row);
            proof {
                assert(table_row_cells_model(grid@[r as int]) =~= target[r as int]);
                assert forall|p: int| 0 <= p <= r implies #[trigger] cells_model(grid@)[p]
                    == target[p] by {
                    if p < r {
                        assert(grid@[p] == gpre[p]);
                        assert(cells_model(gpre)[p] == target[p]);
                    }
                }
            }
            r = r + 1;
        }
        proof {
            assert(cells_model(grid@) =~= target);
        }
        let same = grid_eq(&self.cells, &grid);
        if !same {
            self.cells = grid;
        }
        !same
    }

    /// Applies a node: a table node sets the grid; any other node leaves
    /// the display untouched.
    pub fn update(&mut self, node: &DocNode) -> (changed: bool)
        ensures
            ({
                let g = match doc_model(*node) {
                    DocModel::Table(rows) => table_grid_model(rows),
                    _ => cells_model(old(self).cells@),
                };
                &&& cells_model(final(self).cells@) == g
                &&& changed == (g != cells_model(old(self).cells@))
            }),
    {
        match node {
            DocNode::Table(rows) => self.set_table(rows),
            _ => false,
        }
    }

    /// True when this instance may display the given node.
    pub fn valid_node(&self, node: &DocNode) -> (r: bool)
        ensures
            r == kind_accepts(BlockKind::Table, doc_model(*node)),
    {
        matches!(node, DocNode::Table(_))
    }
}

/// A thematic break block: a plain separator with no content state.
#[derive(Debug, PartialEq)]
pub struct ThematicBreakBlock {}

impl Default for ThematicBreakBlock {
    /// A fresh separator.
    fn default() -> (r: Self)
        ensures
            true,
    {
        ThematicBreakBlock {  }
    }
}

impl ThematicBreakBlock {
    /// A separator displays nothing that could change.
    pub fn update(&mut self, node: &DocNode) -> (changed: bool)
        ensures
            changed == false,
    {
        false
    }

    /// True when this instance may display the given node.
    pub fn valid_node(&self, node: &DocNode) -> (r: bool)
        ensures
            r == kind_accepts(BlockKind::ThematicBreak, doc_model(*node)),
    {
        matches!(node, DocNode::ThematicBreak)
    }
}

/// A live block instance: closed dispatch over the supported kinds.
#[derive(Debug, PartialEq)]
pub enum BlockState {
    Text(TextBlock),
    Code(CodeBlock),
    Table(TableBlock),
    ThematicBreak(ThematicBreakBlock),
}

/// Ghost model of a block instance's displayed content.
pub enum StateModel {
    Text(Seq<char>),
    Code(Option<Seq<char>>, Seq<char>),
    Table(Seq<Seq<Seq<char>>>),
    ThematicBreak,
}

pub open spec fn state_model(s: BlockState) -> StateModel {
    match s {
        BlockState::Text(b) => StateModel::Text(b.markup@),
        BlockState::Code(b) => StateModel::Code(lang_model(b.lang), b.text@),
        BlockState::Table(b) => StateModel::Table(cells_model(b.cells@)),
        BlockState::ThematicBreak(_) => StateModel::ThematicBreak,
    }
}

pub open spec fn state_kind(s: BlockState) -> BlockKind {
    match s {
        BlockState::Text(_) => BlockKind::Text,
        BlockState::Code(_) => BlockKind::Code,
        BlockState::Table(_) => BlockKind::Table,
        BlockState::ThematicBreak(_) => BlockKind::ThematicBreak,
    }
}

/// The content of a freshly created instance of each kind.
pub open spec fn fresh_model(k: BlockKind) -> StateModel {
    match k {
        BlockKind::Text => StateModel::Text(Seq::<char>::empty()),
        BlockKind::Code => StateModel::Code(None, Seq::<char>::empty()),
        BlockKind::Table => StateModel::Table(Seq::<Seq<Seq<char>>>::empty()),
        BlockKind::ThematicBreak => StateModel::ThematicBreak,
    }
}

/// What an instance displays after `update` with a node: a compatible node
/// replaces the content, an incompatible one leaves it untouched.
pub open spec fn update_state_model(s: StateModel, n: DocModel) -> StateModel {
    match s {
        StateModel::Text(m) => StateModel::Text(text_update_model(n, m)),
        StateModel::Code(l, t) => {
            let (l2, t2) = code_update_model(l, t, n);
            StateModel::Code(l2, t2)
        },
        StateModel::Table(g) => match n {
            DocModel::Table(rows) => StateModel::Table(table_grid_model(rows)),
            _ => StateModel::Table(g),
        },
        StateModel::ThematicBreak => StateModel::ThematicBreak,
    }
}

/// Applying the same node twice displays the same content as applying it
/// once.
pub proof fn lemma_update_state_idempotent(s: StateModel, n: DocModel)
    ensures
        update_state_model(update_state_model(s, n), n) == update_state_model(s, n),
{
}

/// A renderer exists for a node exactly when the node is block-level.
pub proof fn lemma_kind_for_block_level(n: DocModel)
    ensures
        (kind_for(n) matches Some(_)) <==> crate::node::is_block_model(n),
{
}

impl BlockState {
    /// Instantiates a fresh block of the requested kind.
    pub fn create(kind: BlockKind) -> (r: Self)
        ensures
            state_kind(r) == kind,
            state_model(r) == fresh_model(kind),
    {
        match kind {
            BlockKind::Text => BlockState::Text(TextBlock::default()),
            BlockKind::Code => BlockState::Code(CodeBlock::default()),
            BlockKind::Table => BlockState::Table(TableBlock::default()),
            BlockKind::ThematicBreak => BlockState::ThematicBreak(ThematicBreakBlock::default()),
        }
    }

    /// Applies a node to the instance's content; reports whether the
    /// displayed content changed.
    pub fn update(&mut self, node: &DocNode) -> (changed: bool)
        ensures
            state_kind(*final(self)) == state_kind(*old(self)),
            state_model(*final(self)) == update_state_model(
                state_model(*old(self)),
                doc_model(*node),
            ),
            changed == (state_model(*final(self)) != state_model(*old(self))),
    {
        match self {
            BlockState::Text(b) => b.update(node),
            BlockState::Code(b) => b.update(node),
            BlockState::Table(b) => b.update(node),
            BlockState::ThematicBreak(b) => b.update(node),
        }
    }

    /// True when this instance may be reused for the given node.
    pub fn valid_node(&self, node: &DocNode) -> (r: bool)
        ensures
            r == kind_accepts(state_kind(*self), doc_model(*node)),
    {
        match self {
            BlockState::Text(b) => b.valid_node(node),
            BlockState::Code(b) => b.valid_node(node),
            BlockState::Table(b) => b.valid_node(node),
            BlockState::ThematicBreak(b) => b.valid_node(node),
        }
    }
}

} // verus!
