//! Where nodes and links occur in a source.

use vstd::prelude::*;

use crate::error::SourceRange;
use crate::error::Span;
use crate::order;
use crate::parser;
use crate::text;
use crate::text::Text;
use crate::validator;
use crate::wiki;
use crate::wiki::Link;
use crate::wiki::LinkView;
use crate::wiki::NodeView;
use crate::wiki::Wiki;

verus! {

/// The nodes of a source, if it has no syntax errors.
pub open spec fn nodes_of(s: Seq<char>) -> Option<Seq<NodeView>> {
    match parser::parsed(None, s) {
        Ok(nodes) => Some(nodes),
        Err(errors) => None,
    }
}

/// Parse a source, leaving its syntax errors aside.
pub fn parse_wiki(source_contents: &str) -> (wiki: Option<Wiki>)
    ensures
        match wiki {
            Some(wiki) => nodes_of(source_contents@) == Some(wiki@),
            None => nodes_of(source_contents@) == None::<Seq<NodeView>>,
        },
{
    match parser::parse(None, source_contents) {
        Ok(wiki) => Some(wiki),
        Err(errors) => None,
    }
}

/// Whether a byte offset lies in a range.
pub open spec fn covers(span: Span, b: int) -> bool {
    span.start <= b < span.end
}

/// Test whether a byte offset lies in a range.
fn range_covers(range: SourceRange, b: usize) -> (result: bool)
    ensures
        result == covers(range@, b as int),
{
    range.start <= b && b < range.end
}

/// The first link in a sequence that a byte offset lies in.
pub open spec fn first_link_at(links: Seq<LinkView>, b: int) -> Option<int>
    decreases links.len(),
{
    if links.len() == 0 {
        None
    } else {
        match first_link_at(links.drop_last(), b) {
            Some(k) => Some(k),
            None => if covers(links.last().span(), b) {
                Some(links.len() - 1)
            } else {
                None
            },
        }
    }
}

pub proof fn lemma_first_link_at(links: Seq<LinkView>, b: int)
    ensures
        match first_link_at(links, b) {
            Some(k) => 0 <= k < links.len() && covers(links[k].span(), b) && forall|j: int|
                0 <= j < k ==> !covers((#[trigger] links[j]).span(), b),
            None => forall|j: int|
                0 <= j < links.len() ==> !covers((#[trigger] links[j]).span(), b),
        },
    decreases links.len(),
{
    if links.len() > 0 {
        let front = links.drop_last();
        lemma_first_link_at(front, b);
        assert(forall|j: int| 0 <= j < front.len() ==> front[j] == #[trigger] links[j]);
        assert(links[links.len() - 1] == links.last());
        if first_link_at(front, b) is None {
            assert forall|j: int| 0 <= j < links.len() - 1 implies !covers(
                (#[trigger] links[j]).span(),
                b,
            ) by {
                assert(front[j] == links[j]);
            }
        }
    }
}

/// The link of any kind at a byte offset.
pub open spec fn link_view_at(nodes: Seq<NodeView>, b: int) -> Option<LinkView> {
    match first_link_at(validator::all_links(nodes), b) {
        Some(k) => Some(validator::all_links(nodes)[k]),
        None => None,
    }
}

/// The link found at a byte offset is one of the links, and covers it.
pub proof fn lemma_link_view_at(nodes: Seq<NodeView>, b: int)
    ensures
        link_view_at(nodes, b) matches Some(link) ==> covers(link.span(), b)
            && validator::all_links(nodes).contains(link),
{
    lemma_first_link_at(validator::all_links(nodes), b);
}

/// List the links of a wiki, one node after the other.
pub fn list_links(wiki: &Wiki) -> (links: Vec<&Link>)
    ensures
        validator::link_ref_views(links@) == validator::all_links(wiki@),
{
    let ghost nodes = wiki@;
    let mut links: Vec<&Link> = Vec::new();
    let mut i: usize = 0;
    proof {
        assert(nodes.take(0) =~= Seq::<NodeView>::empty());
        assert(validator::link_ref_views(links@) =~= validator::all_links(nodes.take(0)));
    }
    while i < wiki.text_nodes.len()
        invariant
            nodes == wiki@,
            i <= wiki.text_nodes@.len(),
            validator::link_ref_views(links@) == validator::all_links(nodes.take(i as int)),
        decreases wiki.text_nodes.len() - i,
    {
        let node = &wiki.text_nodes[i];
        let ghost node_links = node@.links;
        let ghost before = validator::link_ref_views(links@);
        let mut k: usize = 0;
        proof {
            assert(before + node_links.take(0) =~= before);
        }
        while k < node.links.len()
            invariant
                k <= node.links@.len(),
                node_links == wiki::link_views(node.links@),
                validator::link_ref_views(links@) == before + node_links.take(k as int),
            decreases node.links.len() - k,
        {
            let ghost earlier = links@;
            links.push(&node.links[k]);
            proof {
                assert(node_links[k as int] == node.links@[k as int]@);
                assert(validator::link_ref_views(links@) =~= validator::link_ref_views(
                    earlier,
                ).push(node_links[k as int]));
                assert(validator::link_ref_views(links@) =~= before + node_links.take(k + 1));
            }
            k = k + 1;
        }
        proof {
            assert(node_links.take(k as int) =~= node_links);
            assert(nodes.take(i + 1).drop_last() =~= nodes.take(i as int));
            assert(nodes.take(i + 1).last() == nodes[i as int]);
            assert(node@ == nodes[i as int]);
        }
        i = i + 1;
    }
    proof {
        assert(nodes.take(i as int) =~= nodes);
    }
    links
}

/// Find the link of any kind at a source offset without resolving its destination.
pub fn link_at(wiki: &Wiki, byte_offset: usize) -> (found: Option<&Link>)
    ensures
        match found {
            Some(link) => link_view_at(wiki@, byte_offset as int) == Some(link@),
            None => link_view_at(wiki@, byte_offset as int) == None::<LinkView>,
        },
{
    let links = list_links(wiki);
    let ghost views = validator::link_ref_views(links@);
    let mut i: usize = 0;
    while i < links.len()
        invariant
            views == validator::link_ref_views(links@),
            views == validator::all_links(wiki@),
            i <= links@.len(),
            forall|j: int|
                0 <= j < i ==> !covers((#[trigger] views[j]).span(), byte_offset as int),
        decreases links.len() - i,
    {
        proof {
            assert(views[i as int] == links@[i as int]@);
        }
        if range_covers(links[i].source_range(), byte_offset) {
            proof {
                lemma_first_link_at(views, byte_offset as int);
            }
            return Some(links[i]);
        }
        i = i + 1;
    }
    proof {
        lemma_first_link_at(views, byte_offset as int);
    }
    None
}

/// Which part of a text link is relevant: the complete link with its delimiters, or the text
/// between them.
#[derive(Clone, Copy, Debug, PartialEq, Eq, Structural)]
pub enum LinkExtent {
    Whole,
    Target,
}

/// The range between the delimiters of a link, if the range holds a link.
pub open spec fn target_span(s: Seq<char>, span: Span) -> Option<Span> {
    let i = text::floor_index(s, span.start);
    let j = text::floor_index(s, span.end);
    if text::offset(s, i) == span.start && text::offset(s, j) == span.end && i + 1 < j && s[i]
        == '[' && s[j - 1] == ']' {
        Some(Span { start: span.start + 1, end: span.end - 1 })
    } else {
        None
    }
}

/// Exclude the delimiters from a source range known to represent a complete link.
pub fn text_link_target_source_range(source: &Text, source_range: SourceRange) -> (result: Option<
    SourceRange,
>)
    requires
        source.wf(),
    ensures
        match result {
            Some(range) => target_span(source@, source_range@) == Some(range@),
            None => target_span(source@, source_range@) == None::<Span>,
        },
{
    let i = source.floor(source_range.start);
    let j = source.floor(source_range.end);
    if source.offsets[i] != source_range.start || source.offsets[j] != source_range.end {
        return None;
    }
    if i < j && j - i >= 2 && source.chars[i] == '[' && source.chars[j - 1] == ']' {
        proof {
            text::lemma_offset_step(source@, i as int);
            text::lemma_offset_monotonic(source@, i + 1, j as int);
            text::lemma_offset_step(source@, j - 1);
        }
        Some(SourceRange { start: source_range.start + 1, end: source_range.end - 1 })
    } else {
        None
    }
}

/// The first node whose title a byte offset lies in.
pub open spec fn titled_at(nodes: Seq<NodeView>, b: int) -> Option<int>
    decreases nodes.len(),
{
    if nodes.len() == 0 {
        None
    } else {
        match titled_at(nodes.drop_last(), b) {
            Some(i) => Some(i),
            None => if covers(nodes.last().title_span, b) {
                Some(nodes.len() - 1)
            } else {
                None
            },
        }
    }
}

pub proof fn lemma_titled_at(nodes: Seq<NodeView>, b: int)
    ensures
        match titled_at(nodes, b) {
            Some(i) => 0 <= i < nodes.len() && covers(nodes[i].title_span, b) && forall|j: int|
                0 <= j < i ==> !covers((#[trigger] nodes[j]).title_span, b),
            None => forall|j: int|
                0 <= j < nodes.len() ==> !covers((#[trigger] nodes[j]).title_span, b),
        },
    decreases nodes.len(),
{
    if nodes.len() > 0 {
        let front = nodes.drop_last();
        lemma_titled_at(front, b);
        assert(forall|j: int| 0 <= j < front.len() ==> front[j] == #[trigger] nodes[j]);
        assert(nodes[nodes.len() - 1] == nodes.last());
        if titled_at(front, b) is None {
            assert forall|j: int| 0 <= j < nodes.len() - 1 implies !covers(
                (#[trigger] nodes[j]).title_span,
                b,
            ) by {
                assert(front[j] == nodes[j]);
            }
        }
    }
}

/// The node that is declared or linked at a byte offset, with the range that denotes it.
pub open spec fn denoted_at(nodes: Seq<NodeView>, s: Seq<char>, b: int, extent: LinkExtent) -> Option<
    (int, Span),
> {
    match titled_at(nodes, b) {
        Some(i) => Some((i, nodes[i].title_span)),
        None => match link_view_at(nodes, b) {
            Some(LinkView::Text { title, span }) => match wiki::position_of(nodes, title) {
                Some(i) => match extent {
                    LinkExtent::Whole => Some((i, span)),
                    LinkExtent::Target => match target_span(s, span) {
                        Some(target) => Some((i, target)),
                        None => None,
                    },
                },
                None => None,
            },
            _ => None,
        },
    }
}

/// Resolve the node denoted by a declaration or text link at a source offset.
pub fn node_at(wiki: &Wiki, source: &Text, byte_offset: usize, link_extent: LinkExtent) -> (result:
    Option<(usize, SourceRange)>)
    requires
        source.wf(),
    ensures
        match result {
            Some((i, range)) => i < wiki@.len() && denoted_at(
                wiki@,
                source@,
                byte_offset as int,
                link_extent,
            ) == Some((i as int, range@)),
            None => denoted_at(wiki@, source@, byte_offset as int, link_extent) == None::<
                (int, Span),
            >,
        },
{
    // Prefer a declaration, whose title is the only range it can contribute.
    let mut i: usize = 0;
    while i < wiki.text_nodes.len()
        invariant
            i <= wiki.text_nodes@.len(),
            forall|j: int|
                0 <= j < i ==> !covers((#[trigger] wiki@[j]).title_span, byte_offset as int),
        decreases wiki.text_nodes.len() - i,
    {
        proof {
            assert(wiki@[i as int] == wiki.text_nodes@[i as int]@);
        }
        let range = wiki.text_nodes[i].title_source_range;
        if range_covers(range, byte_offset) {
            proof {
                lemma_titled_at(wiki@, byte_offset as int);
            }
            return Some((i, range));
        }
        i = i + 1;
    }
    proof {
        lemma_titled_at(wiki@, byte_offset as int);
    }

    // Resolve a reference, reporting whichever extent of the link the caller asked for.
    match link_at(wiki, byte_offset) {
        Some(Link::Text { title, source_range }) => match wiki.position(title.as_str()) {
            Some(i) => match link_extent {
                LinkExtent::Whole => Some((i, *source_range)),
                LinkExtent::Target => match text_link_target_source_range(source, *source_range) {
                    Some(target) => Some((i, target)),
                    None => None,
                },
            },
            None => None,
        },
        _ => None,
    }
}

/// The ranges in a vector.
pub open spec fn span_views(ranges: Seq<SourceRange>) -> Seq<Span> {
    ranges.map_values(|range: SourceRange| range@)
}

/// The keys that order ranges by where they start and end.
pub open spec fn span_keys(spans: Seq<Span>) -> Seq<Seq<u64>> {
    spans.map_values(|span: Span| seq![span.start as u64, span.end as u64])
}

/// Items in the order of the ranges that belong to them.
pub open spec fn ordered_by_span<T>(items: Seq<T>, spans: Seq<Span>) -> Seq<T> {
    order::arranged(items, order::sort_order(span_keys(spans)))
}

/// Find the order of ranges by where they start and end.
pub fn range_order(ranges: &Vec<SourceRange>) -> (order: Vec<usize>)
    ensures
        order::index_views(order@) == order::sort_order(span_keys(span_views(ranges@))),
        order@.len() == ranges@.len(),
        forall|i: int| 0 <= i < order@.len() ==> #[trigger] order@[i] < ranges@.len(),
        forall|i: int, j: int|
            #![trigger order@[i], order@[j]]
            0 <= i < j < order@.len() ==> order@[i] != order@[j],
{
    let ghost spans = span_views(ranges@);
    let mut keys: Vec<Vec<u64>> = Vec::new();
    let mut i: usize = 0;
    while i < ranges.len()
        invariant
            spans == span_views(ranges@),
            i <= ranges@.len(),
            keys@.len() == i,
            forall|j: int|
                0 <= j < i ==> #[trigger] keys@[j]@ == seq![
                    spans[j].start as u64,
                    spans[j].end as u64,
                ],
        decreases ranges.len() - i,
    {
        let mut key: Vec<u64> = Vec::new();
        key.push(ranges[i].start as u64);
        key.push(ranges[i].end as u64);
        proof {
            assert(spans[i as int] == ranges@[i as int]@);
            assert(key@ =~= seq![spans[i as int].start as u64, spans[i as int].end as u64]);
        }
        keys.push(key);
        i = i + 1;
    }
    proof {
        assert(order::key_views(keys@) =~= span_keys(spans));
        order::lemma_sort_order_sorts(span_keys(spans));
    }
    let order = order::sort(&keys);
    proof {
        let indices = order::index_views(order@);
        assert forall|a: int, b: int|
            #![trigger order@[a], order@[b]]
            0 <= a < b < order@.len() implies order@[a] != order@[b] by {
            order::lemma_sort_order_distinct(span_keys(spans), indices, a, b);
            assert(indices[a] == order@[a] as int);
            assert(indices[b] == order@[b] as int);
        }
    }
    order
}

/// Sort ranges by where they start and end.
pub fn sort_ranges(ranges: Vec<SourceRange>) -> (sorted: Vec<SourceRange>)
    ensures
        span_views(sorted@) == ordered_by_span(span_views(ranges@), span_views(ranges@)),
{
    let ghost all = ranges@;
    let order = range_order(&ranges);
    let sorted = order::arrange(ranges, &order);
    proof {
        let indices = order::index_views(order@);
        assert forall|a: int| 0 <= a < order@.len() implies 0 <= #[trigger] indices[a]
            < all.len() by {
            assert(indices[a] == order@[a] as int);
        }
        assert(span_views(sorted@) =~= ordered_by_span(span_views(all), span_views(all)));
    }
    sorted
}

/// The ranges of the text links in a sequence that name a title.
pub open spec fn spans_naming(links: Seq<LinkView>, title: Seq<char>) -> Seq<Span>
    decreases links.len(),
{
    if links.len() == 0 {
        Seq::empty()
    } else {
        let spans = spans_naming(links.drop_last(), title);
        match links.last() {
            LinkView::Text { title: named, span } => if named == title {
                spans.push(span)
            } else {
                spans
            },
            _ => spans,
        }
    }
}

/// The ranges of the text links of a wiki that name a title, in source order.
pub open spec fn references_to(nodes: Seq<NodeView>, title: Seq<char>) -> Seq<Span> {
    let spans = spans_naming(validator::all_links(nodes), title);
    ordered_by_span(spans, spans)
}

/// List the text-link ranges that name a title, one node after the other.
fn list_references(wiki: &Wiki, title: &str) -> (ranges: Vec<SourceRange>)
    ensures
        span_views(ranges@) == spans_naming(validator::all_links(wiki@), title@),
{
    let links = list_links(wiki);
    let ghost views = validator::link_ref_views(links@);
    let mut ranges: Vec<SourceRange> = Vec::new();
    let mut i: usize = 0;
    proof {
        assert(span_views(ranges@) =~= spans_naming(views.take(0), title@));
    }
    while i < links.len()
        invariant
            views == validator::link_ref_views(links@),
            i <= links@.len(),
            span_views(ranges@) == spans_naming(views.take(i as int), title@),
        decreases links.len() - i,
    {
        let ghost before = span_views(ranges@);
        proof {
            assert(views[i as int] == links@[i as int]@);
            assert(views.take(i + 1).drop_last() =~= views.take(i as int));
            assert(views.take(i + 1).last() == views[i as int]);
        }
        if let Link::Text { title: named, source_range } = links[i] {
            if text::same_text(named.as_str(), title) {
                ranges.push(*source_range);
                proof {
                    assert(span_views(ranges@) =~= before.push(source_range@));
                }
            }
        }
        i = i + 1;
    }
    proof {
        assert(views.take(i as int) =~= views);
    }
    ranges
}

/// Collect every complete text-link range that names a title.
pub fn text_link_source_ranges(wiki: &Wiki, title: &str) -> (ranges: Vec<SourceRange>)
    ensures
        span_views(ranges@) == references_to(wiki@, title@),
{
    sort_ranges(list_references(wiki, title))
}

/// Whether two filesystem links have the same kind and path.
pub open spec fn same_filesystem_target(a: LinkView, b: LinkView) -> bool {
    match (a, b) {
        (
            LinkView::File { path: first, span: _ },
            LinkView::File { path: second, span: _ },
        ) => first == second,
        (
            LinkView::Directory { path: first, span: _ },
            LinkView::Directory { path: second, span: _ },
        ) => first == second,
        _ => false,
    }
}

/// The ranges of the links in a sequence with the same kind and path as a filesystem link.
pub open spec fn spans_matching(links: Seq<LinkView>, target: LinkView) -> Seq<Span>
    decreases links.len(),
{
    if links.len() == 0 {
        Seq::empty()
    } else {
        let spans = spans_matching(links.drop_last(), target);
        if same_filesystem_target(links.last(), target) {
            spans.push(links.last().span())
        } else {
            spans
        }
    }
}

/// Collect every complete filesystem-link range with the same kind and path as a target.
pub fn filesystem_link_source_ranges(wiki: &Wiki, target: &Link) -> (ranges: Vec<SourceRange>)
    ensures
        span_views(ranges@) == spans_matching(validator::all_links(wiki@), target@),
{
    let links = list_links(wiki);
    let ghost views = validator::link_ref_views(links@);
    let mut ranges: Vec<SourceRange> = Vec::new();
    let mut i: usize = 0;
    proof {
        assert(span_views(ranges@) =~= spans_matching(views.take(0), target@));
    }
    while i < links.len()
        invariant
            views == validator::link_ref_views(links@),
            i <= links@.len(),
            span_views(ranges@) == spans_matching(views.take(i as int), target@),
        decreases links.len() - i,
    {
        let ghost before = span_views(ranges@);
        proof {
            assert(views[i as int] == links@[i as int]@);
            assert(views.take(i + 1).drop_last() =~= views.take(i as int));
            assert(views.take(i + 1).last() == views[i as int]);
        }
        let same = match (links[i], target) {
            (
                Link::File { path: first, source_range: _ },
                Link::File { path: second, source_range: _ },
            ) => text::same_text(first.as_str(), second.as_str()),
            (
                Link::Directory { path: first, source_range: _ },
                Link::Directory { path: second, source_range: _ },
            ) => text::same_text(first.as_str(), second.as_str()),
            _ => false,
        };
        if same {
            let range = links[i].source_range();
            ranges.push(range);
            proof {
                assert(span_views(ranges@) =~= before.push(range@));
            }
        }
        i = i + 1;
    }
    proof {
        assert(views.take(i as int) =~= views);
    }
    ranges
}

} // verus!
