//! What stands where a parsed wiki says that it stands: the range of a title holds the title, and the
//! range of a link holds the delimiters and the target that the link was read from.

use vstd::prelude::*;

use crate::changing;
use crate::error;
use crate::error::ErrorView;
use crate::formatting;
use crate::parser;
use crate::text;
use crate::wiki;
use crate::wiki::LinkView;
use crate::wiki::NodeView;

verus! {

/// Whether a delimiter at an index has no backslash before it.
pub open spec fn is_bare(s: Seq<char>, i: int, delimiter: char) -> bool {
    0 <= i < s.len() && s[i] == delimiter && (i == 0 || s[i - 1] != '\\')
}

/// Whether a character can stand inside a link: it is no line feed, and no delimiter without a backslash
/// before it.
pub open spec fn is_inner(s: Seq<char>, j: int) -> bool {
    &&& s[j] != '\n'
    &&& s[j] == '[' || s[j] == ']' ==> j > 0 && s[j - 1] == '\\'
}

/// Whether everything between two indices can stand inside a link.
pub open spec fn is_plain_between(s: Seq<char>, from: int, to: int) -> bool {
    forall|j: int| from <= j < to ==> #[trigger] is_inner(s, j)
}

/// Whether a link stands between two indices: it has its delimiters there, with nothing else between them
/// that starts or ends a link, and what stands between them without the space around it, and without the
/// backslashes before delimiters, is the target that the link was read from.
pub open spec fn is_link_from_to(s: Seq<char>, a: int, b: int, link: LinkView) -> bool {
    &&& 0 <= a < b < s.len()
    &&& is_bare(s, a, '[')
    &&& is_bare(s, b, ']')
    &&& is_plain_between(s, a + 1, b)
    &&& link.span() == error::span_of(s, a, b + 1)
    &&& parser::link_of(
        wiki::unescaped(text::trimmed(s.subrange(a + 1, b))),
        error::span_of(s, a, b + 1),
    ) == Ok::<LinkView, Seq<char>>(link)
}

/// Whether a delimiter that opens a link has no backslash before it.
proof fn lemma_opens(s: Seq<char>, lo: int, i: int)
    requires
        0 <= lo <= i <= s.len(),
    ensures
        parser::open_link(s, lo, i) matches Some(a) ==> lo <= a < i && parser::delimiter_at(
            s,
            lo,
            a,
            '[',
        ),
    decreases i - lo,
{
    if lo < i {
        lemma_opens(s, lo, i - 1);
    }
}

/// The character before the content of a node is white space.
proof fn lemma_before_content(path: Option<Seq<char>>, s: Seq<char>, lo: int)
    requires
        formatting::is_clean_section(path, s, lo),
        parser::content_start(s, lo) < parser::content_end(s, lo),
    ensures
        parser::content_start(s, lo) > 0,
        s[parser::content_start(s, lo) - 1] != '\\',
{
    changing::lemma_section_parts(path, s, lo);
    let cs = parser::content_start(s, lo);
    let first = parser::next_line(s, lo);
    assert(!text::white_space('\\'));
    if cs > first {
        assert(text::white_space(s[cs - 1]));
    }
}

/// The place of a link in the content of a section without errors.
pub proof fn lemma_content_link(path: Option<Seq<char>>, s: Seq<char>, lo: int, a: int, b: int)
    requires
        formatting::is_clean_section(path, s, lo),
        changing::is_content_link(
            s,
            parser::content_start(s, lo),
            parser::content_end(s, lo),
            a,
            b,
        ),
        parser::link_at(s, a, b) is Ok,
    ensures
        is_link_from_to(s, a, b, parser::link_at(s, a, b)->Ok_0),
{
    let cs = parser::content_start(s, lo);
    let ce = parser::content_end(s, lo);
    formatting::lemma_section(path, s, lo);
    changing::lemma_inside_ok(s, cs, ce, a, b);
    lemma_opens(s, cs, b);
    lemma_before_content(path, s, lo);
    assert(is_plain_between(s, a + 1, b)) by {
        assert forall|j: int| a + 1 <= j < b implies #[trigger] is_inner(s, j) by {
            assert(s[j] != '\n');
            assert(!parser::delimiter_at(s, cs, j, '['));
            assert(!parser::delimiter_at(s, cs, j, ']'));
        }
    }
    parser::lemma_link_span(
        wiki::unescaped(parser::link_text(s, a, b)),
        error::span_of(s, a, b + 1),
    );
}

/// The place of a link of a parsed wiki.
pub proof fn lemma_link_place(
    path: Option<Seq<char>>,
    s: Seq<char>,
    nodes: Seq<NodeView>,
    i: int,
    k: int,
) -> (ends: (int, int))
    requires
        parser::parsed(path, s) == Ok::<Seq<NodeView>, Seq<ErrorView>>(nodes),
        0 <= i < nodes.len(),
        0 <= k < nodes[i].links.len(),
    ensures
        is_link_from_to(s, ends.0, ends.1, nodes[i].links[k]),
{
    let lo = changing::lemma_node_section(path, s, nodes, i);
    let cs = parser::content_start(s, lo);
    let ce = parser::content_end(s, lo);
    formatting::lemma_section(path, s, lo);
    let (a, b) = changing::lemma_listed_link(s, cs, ce, k);
    lemma_content_link(path, s, lo, a, b);
    (a, b)
}

/// Every link of a parsed wiki stands in its source where its range says.
pub proof fn law_links_stand_at_their_ranges(
    path: Option<Seq<char>>,
    s: Seq<char>,
    nodes: Seq<NodeView>,
    i: int,
    k: int,
)
    requires
        parser::parsed(path, s) == Ok::<Seq<NodeView>, Seq<ErrorView>>(nodes),
        0 <= i < nodes.len(),
        0 <= k < nodes[i].links.len(),
    ensures
        exists|a: int, b: int| #[trigger] is_link_from_to(s, a, b, nodes[i].links[k]),
{
    let (a, b) = lemma_link_place(path, s, nodes, i, k);
    assert(is_link_from_to(s, a, b, nodes[i].links[k]));
}

/// Whether a node stands in a source from the start of a title line on: the marker, the title with
/// nothing but space around it on its line, and more text up to an index after which there is nothing but
/// space before the next title line.
pub open spec fn is_node_from(s: Seq<char>, lo: int, ts: int, te: int, end: int, node: NodeView) -> bool {
    let next = parser::next_title_line(s, parser::next_line(s, lo));
    &&& 0 <= lo
    &&& lo + 2 <= ts < te <= end <= s.len()
    &&& lo == 0 || s[lo - 1] == '\n'
    &&& s[lo] == '#'
    &&& s[lo + 1] == ' '
    &&& forall|j: int| lo + 2 <= j < ts ==> text::white_space(#[trigger] s[j]) && s[j] != '\n'
    &&& s.subrange(ts, te) == node.title
    &&& text::is_trimmed(node.title)
    &&& !node.title.contains('\n')
    &&& forall|j: int| te <= j < text::line_end(s, te) ==> text::white_space(#[trigger] s[j])
    &&& node.title_span == error::span_of(s, ts, te)
    &&& node.span == error::span_of(s, lo, end)
    &&& !text::white_space(s[end - 1])
    &&& end <= next
    &&& forall|j: int| end <= j < next ==> text::white_space(#[trigger] s[j])
}

/// Every node of a parsed wiki stands in its source where its ranges say: the range of its title holds
/// the title, and the range of the node reaches from its title marker to the last character of it that is
/// not white space.
pub proof fn law_nodes_stand_at_their_ranges(
    path: Option<Seq<char>>,
    s: Seq<char>,
    nodes: Seq<NodeView>,
    i: int,
)
    requires
        parser::parsed(path, s) == Ok::<Seq<NodeView>, Seq<ErrorView>>(nodes),
        0 <= i < nodes.len(),
    ensures
        exists|lo: int, ts: int, te: int, end: int| #[trigger]
            is_node_from(s, lo, ts, te, end, nodes[i]),
{
    let lo = changing::lemma_node_section(path, s, nodes, i);
    changing::lemma_section_parts(path, s, lo);
    formatting::lemma_section(path, s, lo);
    let ts = parser::title_start(s, lo);
    let te = parser::title_end(s, lo);
    let stop = parser::line_stop(s, lo);
    let line = text::line_end(s, lo);
    let next = parser::next_title_line(s, parser::next_line(s, lo));
    text::lemma_trim_end_index(s, lo, next);
    text::lemma_trim_start_index(s, lo, next);
    assert(!text::white_space('#'));
    assert(text::trim_start_index(s, lo, next) == lo);
    let end = text::trim_end_index(s, lo, next);
    assert(te <= end) by {
        if end < te {
            assert(text::white_space(s[te - 1]));
        }
    }
    formatting::lemma_line_end_at(s, te, line);
    assert(text::white_space('\r'));
    assert forall|j: int| te <= j < text::line_end(s, te) implies text::white_space(
        #[trigger] s[j],
    ) by {
        if j >= stop {
            assert(j == line - 1 && s[j] == '\r');
        }
    }
    assert(!nodes[i].title.contains('\n')) by {
        if nodes[i].title.contains('\n') {
            let j = choose|j: int| 0 <= j < nodes[i].title.len() && nodes[i].title[j] == '\n';
            assert(nodes[i].title[j] == s[ts + j]);
        }
    }
    assert(is_node_from(s, lo, ts, te, end, nodes[i]));
}

} // verus!
