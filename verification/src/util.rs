//! Pure text helpers: XML escaping, HTML tag extraction, and translation of
//! inline content to a presentation-markup string.
//!
//! Every executable function has an exact specification over `Seq<char>`;
//! the spec functions here are also the vocabulary that the block content
//! states in `blocks` use to describe their displayed markup.

use vstd::prelude::*;
use vstd::string::*;

use crate::node::{InlineModel, InlineNode, inline_model, inlines_model, lemma_inlines_model};

verus! {

/// A Unicode whitespace character, by code point (the `White_Space`
/// property: ASCII whitespace, NEL, and the Unicode space separators).
pub open spec fn is_space_char(c: char) -> bool {
    let u = c as u32;
    (0x9 <= u && u <= 0xD) || u == 0x20 || u == 0x85 || u == 0xA0 || u == 0x1680 || (0x2000 <= u
        && u <= 0x200A) || u == 0x2028 || u == 0x2029 || u == 0x202F || u == 0x205F || u == 0x3000
}

/// Executable mirror of [`is_space_char`].
pub fn is_space(c: char) -> (r: bool)
    ensures
        r == is_space_char(c),
{
    let u = c as u32;
    (0x9 <= u && u <= 0xD) || u == 0x20 || u == 0x85 || u == 0xA0 || u == 0x1680 || (0x2000 <= u
        && u <= 0x200A) || u == 0x2028 || u == 0x2029 || u == 0x202F || u == 0x205F || u == 0x3000
}

/// First index in `[i, j)` that does not hold whitespace, or `j`.
pub open spec fn scan_non_space(s: Seq<char>, i: int, j: int) -> int
    decreases j - i,
{
    if i < j && is_space_char(s[i]) {
        scan_non_space(s, i + 1, j)
    } else {
        i
    }
}

/// First index in `[i, j)` that holds whitespace, or `j`.
pub open spec fn scan_space(s: Seq<char>, i: int, j: int) -> int
    decreases j - i,
{
    if i < j && !is_space_char(s[i]) {
        scan_space(s, i + 1, j)
    } else {
        i
    }
}

/// Index of the first occurrence of `c` at or after `i`, if any.
pub open spec fn scan_char(s: Seq<char>, i: int, c: char) -> Option<int>
    decreases s.len() - i,
{
    if i < s.len() {
        if s[i] == c {
            Some(i)
        } else {
            scan_char(s, i + 1, c)
        }
    } else {
        None
    }
}

/// First index in `[i, j)` that does not hold `'/'`, or `j`.
pub open spec fn scan_non_slash(s: Seq<char>, i: int, j: int) -> int
    decreases j - i,
{
    if i < j && s[i] == '/' {
        scan_non_slash(s, i + 1, j)
    } else {
        i
    }
}

/// Largest `m` in `[i, j]` such that `s[m - 1]` is not `'/'` (or `m == i`),
/// scanning from the right.
pub open spec fn rscan_non_slash(s: Seq<char>, i: int, j: int) -> int
    decreases j - i,
{
    if j > i && s[j - 1] == '/' {
        rscan_non_slash(s, i, j - 1)
    } else {
        j
    }
}

/// The escaped form of one character of XML text.
pub open spec fn escape_char(c: char) -> Seq<char> {
    if c == '&' {
        seq!['&', 'a', 'm', 'p', ';']
    } else if c == '<' {
        seq!['&', 'l', 't', ';']
    } else if c == '>' {
        seq!['&', 'g', 't', ';']
    } else if c == '"' {
        seq!['&', 'q', 'u', 'o', 't', ';']
    } else if c == '\'' {
        seq!['&', 'a', 'p', 'o', 's', ';']
    } else {
        seq![c]
    }
}

/// The escaped form of a string: each character replaced by its escape.
pub open spec fn xml_escape_model(s: Seq<char>) -> Seq<char>
    decreases s,
{
    if s.len() == 0 {
        seq![]
    } else {
        xml_escape_model(s.drop_last()) + escape_char(s.last())
    }
}

/// Escapes special characters in a string for use in XML.
pub fn xml_escape(input: &str) -> (r: String)
    ensures
        r@ == xml_escape_model(input@),
{
    let n = input.unicode_len();
    let mut out = String::new();
    let mut i: usize = 0;
    while i < n
        invariant
            i <= n,
            n == input@.len(),
            out@ == xml_escape_model(input@.take(i as int)),
        decreases n - i,
    {
        let c = input.get_char(i);
        if c == '&' {
            out.append("&amp;");
            proof {
                reveal_strlit("&amp;");
            }
        } else if c == '<' {
            out.append("&lt;");
            proof {
                reveal_strlit("&lt;");
            }
        } else if c == '>' {
            out.append("&gt;");
            proof {
                reveal_strlit("&gt;");
            }
        } else if c == '"' {
            out.append("&quot;");
            proof {
                reveal_strlit("&quot;");
            }
        } else if c == '\'' {
            out.append("&apos;");
            proof {
                reveal_strlit("&apos;");
            }
        } else {
            let piece = input.substring_char(i, i + 1);
            out.append(piece);
            proof {
                assert(piece@ =~= seq![input@[i as int]]);
            }
        }
        proof {
            let t = input@.take(i + 1 as int);
            assert(t.drop_last() =~= input@.take(i as int));
            assert(t.last() == input@[i as int]);
            assert(out@ =~= xml_escape_model(t));
        }
        i = i + 1;
    }
    proof {
        assert(input@.take(n as int) =~= input@);
    }
    out
}

/// The tag name of an HTML fragment: after optional leading whitespace the
/// fragment must open with `'<'` and hold a closing `'>'`; the name is the
/// first whitespace-delimited word between them, with any leading and
/// trailing `'/'` stripped (so `</br>` and `<br/>` both name `br`).  `None`
/// when the shape does not match or only whitespace precedes the `'>'`.
pub open spec fn get_html_tag_model(s: Seq<char>) -> Option<Seq<char>> {
    let i = scan_non_space(s, 0, s.len() as int);
    if i >= s.len() || s[i] != '<' {
        None
    } else {
        match scan_char(s, i + 1, '>') {
            None => None,
            Some(j) => {
                let k = scan_non_space(s, i + 1, j);
                if k >= j {
                    None
                } else {
                    let m = scan_space(s, k, j);
                    let k2 = scan_non_slash(s, k, m);
                    let m2 = rscan_non_slash(s, k2, m);
                    Some(s.subrange(k2, m2))
                }
            },
        }
    }
}

/// Gets an HTML tag
pub fn get_html_tag(input: &str) -> (r: Option<String>)
    ensures
        match r {
            Some(t) => get_html_tag_model(input@) == Some(t@),
            None => get_html_tag_model(input@) matches None,
        },
{
    let n = input.unicode_len();
    let ghost sv = input@;
    let mut i: usize = 0;
    while i < n && is_space(input.get_char(i))
        invariant
            i <= n,
            n == sv.len(),
            sv == input@,
            scan_non_space(sv, 0, n as int) == scan_non_space(sv, i as int, n as int),
        decreases n - i,
    {
        i = i + 1;
    }
    proof {
        assert(scan_non_space(sv, 0, n as int) == i);
    }
    if i >= n || input.get_char(i) != '<' {
        return None;
    }
    // find the closing '>'
    let mut j: usize = i + 1;
    while j < n && input.get_char(j) != '>'
        invariant
            i + 1 <= j <= n,
            n == sv.len(),
            sv == input@,
            scan_char(sv, i + 1, '>') == scan_char(sv, j as int, '>'),
        decreases n - j,
    {
        j = j + 1;
    }
    if j >= n {
        proof {
            assert(scan_char(sv, i + 1, '>') matches None);
        }
        return None;
    }
    proof {
        assert(scan_char(sv, i + 1, '>') == Some(j as int));
    }
    // first non-space index of the tag content
    let mut k: usize = i + 1;
    while k < j && is_space(input.get_char(k))
        invariant
            i + 1 <= k <= j,
            j < n == sv.len(),
            sv == input@,
            scan_non_space(sv, i + 1, j as int) == scan_non_space(sv, k as int, j as int),
        decreases j - k,
    {
        k = k + 1;
    }
    proof {
        assert(scan_non_space(sv, i + 1, j as int) == k);
    }
    if k >= j {
        return None;
    }
    // end of the first word
    let mut m: usize = k;
    while m < j && !is_space(input.get_char(m))
        invariant
            k <= m <= j,
            j < n == sv.len(),
            sv == input@,
            scan_space(sv, k as int, j as int) == scan_space(sv, m as int, j as int),
        decreases j - m,
    {
        m = m + 1;
    }
    proof {
        assert(scan_space(sv, k as int, j as int) == m);
    }
    // strip leading and trailing slashes
    let mut k2: usize = k;
    while k2 < m && input.get_char(k2) == '/'
        invariant
            k <= k2 <= m,
            m <= j < n == sv.len(),
            sv == input@,
            scan_non_slash(sv, k as int, m as int) == scan_non_slash(sv, k2 as int, m as int),
        decreases m - k2,
    {
        k2 = k2 + 1;
    }
    proof {
        assert(scan_non_slash(sv, k as int, m as int) == k2);
    }
    let mut m2: usize = m;
    while m2 > k2 && input.get_char(m2 - 1) == '/'
        invariant
            k2 <= m2 <= m,
            m <= j < n == sv.len(),
            sv == input@,
            rscan_non_slash(sv, k2 as int, m as int) == rscan_non_slash(sv, k2 as int, m2 as int),
        decreases m2,
    {
        m2 = m2 - 1;
    }
    proof {
        assert(rscan_non_slash(sv, k2 as int, m as int) == m2);
    }
    let tag = input.substring_char(k2, m2);
    Some(tag.to_owned())
}

/// True when an HTML fragment names the `br` tag, in either case.
pub open spec fn html_is_break(s: Seq<char>) -> bool {
    match get_html_tag_model(s) {
        Some(t) => t.len() == 2 && (t[0] == 'b' || t[0] == 'B') && (t[1] == 'r' || t[1] == 'R'),
        None => false,
    }
}

/// Executable mirror of [`html_is_break`].
fn html_fragment_is_break(s: &str) -> (r: bool)
    ensures
        r == html_is_break(s@),
{
    match get_html_tag(s) {
        Some(tag) => {
            let t = tag.as_str();
            if t.unicode_len() == 2 {
                let c0 = t.get_char(0);
                let c1 = t.get_char(1);
                (c0 == 'b' || c0 == 'B') && (c1 == 'r' || c1 == 'R')
            } else {
                false
            }
        },
        None => false,
    }
}

/// The presentation markup emitted for one inline node: text and code spans
/// are escaped, emphasis/strong/delete/link wrap their children's markup in
/// the matching tag, hard breaks and `br` fragments become a newline, and
/// untranslated kinds vanish.
pub open spec fn inline_markup_model(n: InlineModel) -> Seq<char>
    decreases n,
{
    match n {
        InlineModel::Text(s) => xml_escape_model(s),
        InlineModel::Break => seq!['\n'],
        InlineModel::Emphasis(cs) => seq!['<', 'i', '>'] + inlines_markup_model(cs) + seq![
            '<',
            '/',
            'i',
            '>',
        ],
        InlineModel::Strong(cs) => seq!['<', 'b', '>'] + inlines_markup_model(cs) + seq![
            '<',
            '/',
            'b',
            '>',
        ],
        InlineModel::Delete(cs) => seq!['<', 's', '>'] + inlines_markup_model(cs) + seq![
            '<',
            '/',
            's',
            '>',
        ],
        InlineModel::Link(url, cs) => seq!['<', 'a', ' ', 'h', 'r', 'e', 'f', '=', '"']
            + xml_escape_model(url) + seq!['"', '>'] + inlines_markup_model(cs) + seq![
            '<',
            '/',
            'a',
            '>',
        ],
        InlineModel::InlineCode(s) => seq!['<', 't', 't', '>'] + xml_escape_model(s) + seq![
            '<',
            '/',
            't',
            't',
            '>',
        ],
        InlineModel::Html(s) => if html_is_break(s) {
            seq!['\n']
        } else {
            xml_escape_model(s)
        },
        InlineModel::Other => seq![],
    }
}

/// The concatenated markup of a sequence of inline nodes.
pub open spec fn inlines_markup_model(cs: Seq<InlineModel>) -> Seq<char>
    decreases cs,
{
    if cs.len() == 0 {
        seq![]
    } else {
        inlines_markup_model(cs.drop_last()) + inline_markup_model(cs.last())
    }
}

/// Appends the markup of one inline node to `out`.
fn push_inline_markup(out: &mut String, node: &InlineNode)
    ensures
        final(out)@ == old(out)@ + inline_markup_model(inline_model(*node)),
    decreases *node,
{
    match node {
        InlineNode::Text(s) => {
            let e = xml_escape(s.as_str());
            out.append(e.as_str());
        },
        InlineNode::Break => {
            out.append("\n");
            proof {
                reveal_strlit("\n");
            }
        },
        InlineNode::Emphasis(cs) => {
            out.append("<i>");
            push_inlines_markup(out, cs);
            out.append("</i>");
            proof {
                reveal_strlit("<i>");
                reveal_strlit("</i>");
            }
        },
        InlineNode::Strong(cs) => {
            out.append("<b>");
            push_inlines_markup(out, cs);
            out.append("</b>");
            proof {
                reveal_strlit("<b>");
                reveal_strlit("</b>");
            }
        },
        InlineNode::Delete(cs) => {
            out.append("<s>");
            push_inlines_markup(out, cs);
            out.append("</s>");
            proof {
                reveal_strlit("<s>");
                reveal_strlit("</s>");
            }
        },
        InlineNode::Link(url, cs) => {
            out.append("<a href=\"");
            let e = xml_escape(url.as_str());
            out.append(e.as_str());
            out.append("\">");
            push_inlines_markup(out, cs);
            out.append("</a>");
            proof {
                reveal_strlit("<a href=\"");
                reveal_strlit("\">");
                reveal_strlit("</a>");
            }
        },
        InlineNode::InlineCode(s) => {
            out.append("<tt>");
            let e = xml_escape(s.as_str());
            out.append(e.as_str());
            out.append("</tt>");
            proof {
                reveal_strlit("<tt>");
                reveal_strlit("</tt>");
            }
        },
        InlineNode::Html(s) => {
            if html_fragment_is_break(s.as_str()) {
                out.append("\n");
                proof {
                    reveal_strlit("\n");
                }
            } else {
                let e = xml_escape(s.as_str());
                out.append(e.as_str());
            }
        },
        InlineNode::Other => {
        },
    }
    proof {
        assert(out@ =~= old(out)@ + inline_markup_model(inline_model(*node)));
    }
}

/// Appends the markup of a list of inline nodes to `out`.
fn push_inlines_markup(out: &mut String, nodes: &Vec<InlineNode>)
    ensures
        final(out)@ == old(out)@ + inlines_markup_model(inlines_model(nodes@)),
    decreases *nodes,
{
    let ghost m = inlines_model(nodes@);
    proof {
        lemma_inlines_model(nodes@);
    }
    let n = nodes.len();
    let mut i: usize = 0;
    while i < n
        invariant
            i <= n == nodes@.len(),
            m == inlines_model(nodes@),
            m.len() == n,
            forall|q: int| 0 <= q < n ==> #[trigger] m[q] == inline_model(nodes@[q]),
            out@ == old(out)@ + inlines_markup_model(m.take(i as int)),
        decreases n - i,
    {
        push_inline_markup(out, &nodes[i]);
        proof {
            let t = m.take(i + 1 as int);
            assert(t.drop_last() =~= m.take(i as int));
            assert(t.last() == m[i as int]);
            assert(out@ =~= old(out)@ + inlines_markup_model(t));
        }
        i = i + 1;
    }
    proof {
        assert(m.take(n as int) =~= m);
    }
}

/// Converts an inline node into presentation markup.
pub fn inline_node_to_pango_markup(node: &InlineNode) -> (r: String)
    ensures
        r@ == inline_markup_model(inline_model(*node)),
{
    let mut out = String::new();
    push_inline_markup(&mut out, node);
    out
}

/// Converts a list of inline nodes into presentation markup.
pub fn inlines_to_pango_markup(nodes: &Vec<InlineNode>) -> (r: String)
    ensures
        r@ == inlines_markup_model(inlines_model(nodes@)),
{
    let mut out = String::new();
    push_inlines_markup(&mut out, nodes);
    out
}

} // verus!
