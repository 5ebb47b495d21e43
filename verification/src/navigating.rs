//! Where navigation leads: a position in a title or in a link stands for the node, the file or the
//! directory that is named there, and everything that an editor shows about it is about that one.

use vstd::prelude::*;

use crate::changing;
use crate::error;
use crate::error::ErrorView;
use crate::error::Span;
use crate::formatting;
use crate::language_server;
use crate::language_server::DiagnosticView;
use crate::language_server::DocumentHighlight;
use crate::language_server::HighlightKind;
use crate::moving;
use crate::occurrences;
use crate::occurrences::LinkExtent;
use crate::order;
use crate::parser;
use crate::position;
use crate::position::Position;
use crate::position::Range;
use crate::ranges;
use crate::text;
use crate::validator;
use crate::wiki;
use crate::wiki::LinkView;
use crate::wiki::NodeView;

verus! {

/// Whether a link of a node is at a byte offset.
pub open spec fn has_link_at(nodes: Seq<NodeView>, i: int, k: int, b: int) -> bool {
    &&& 0 <= i < nodes.len()
    &&& 0 <= k < nodes[i].links.len()
    &&& nodes[i].links[k].span().start <= b < nodes[i].links[k].span().end
}

/// Whether the title of a node is at a byte offset.
pub open spec fn has_title_at(nodes: Seq<NodeView>, i: int, b: int) -> bool {
    0 <= i < nodes.len() && nodes[i].title_span.start <= b < nodes[i].title_span.end
}

/// The link of a parsed wiki at a byte offset is the one that is found there.
pub proof fn lemma_link_found(
    path: Option<Seq<char>>,
    s: Seq<char>,
    nodes: Seq<NodeView>,
    i: int,
    k: int,
    b: int,
)
    requires
        parser::parsed(path, s) == Ok::<Seq<NodeView>, Seq<ErrorView>>(nodes),
        has_link_at(nodes, i, k, b),
    ensures
        occurrences::link_view_at(nodes, b) == Some(nodes[i].links[k]),
        occurrences::titled_at(nodes, b) is None,
{
    let links = validator::all_links(nodes);
    ranges::law_source_ranges(path, s, nodes);
    ranges::lemma_all_links_in_order(s, nodes);
    validator::lemma_all_links_contain(nodes, i, k);
    let m = choose|m: int| 0 <= m < links.len() && #[trigger] links[m] == nodes[i].links[k];
    occurrences::lemma_first_link_at(links, b);
    let q = occurrences::first_link_at(links, b);
    assert(occurrences::covers(links[m].span(), b));
    assert(q is Some);
    assert(q->0 == m) by {
        if q->0 < m {
            assert(links[q->0].span().end <= links[m].span().start);
        } else if m < q->0 {
            assert(links[m].span().end <= links[q->0].span().start);
        }
    }
    occurrences::lemma_titled_at(nodes, b);
    if let Some(j) = occurrences::titled_at(nodes, b) {
        ranges::lemma_titles_and_links_apart(s, nodes, j, m);
    }
}

/// The title of a parsed wiki at a byte offset is the one that is found there.
pub proof fn lemma_title_found(
    path: Option<Seq<char>>,
    s: Seq<char>,
    nodes: Seq<NodeView>,
    i: int,
    b: int,
)
    requires
        parser::parsed(path, s) == Ok::<Seq<NodeView>, Seq<ErrorView>>(nodes),
        has_title_at(nodes, i, b),
    ensures
        occurrences::titled_at(nodes, b) == Some(i),
        occurrences::link_view_at(nodes, b) is None,
{
    ranges::law_source_ranges(path, s, nodes);
    occurrences::lemma_titled_at(nodes, b);
    assert(occurrences::covers(nodes[i].title_span, b));
    let j = occurrences::titled_at(nodes, b)->0;
    assert(ranges::is_laid_out(s, nodes[i]) && ranges::is_laid_out(s, nodes[j]));
    if j < i {
        assert(nodes[j].span.end <= nodes[i].span.start);
    } else if i < j {
        assert(nodes[i].span.end <= nodes[j].span.start);
    }
    let links = validator::all_links(nodes);
    occurrences::lemma_first_link_at(links, b);
    if let Some(q) = occurrences::first_link_at(links, b) {
        ranges::lemma_titles_and_links_apart(s, nodes, i, q);
    }
}

/// Where no link is at a byte offset, none is found.
proof fn lemma_no_link_found(nodes: Seq<NodeView>, b: int)
    requires
        forall|i: int, k: int| !#[trigger] has_link_at(nodes, i, k, b),
    ensures
        occurrences::link_view_at(nodes, b) is None,
{
    let links = validator::all_links(nodes);
    occurrences::lemma_first_link_at(links, b);
    if let Some(q) = occurrences::first_link_at(links, b) {
        validator::lemma_all_links_come_from(nodes, q);
        let (i, k) = choose|i: int, k: int|
            0 <= i < nodes.len() && 0 <= k < nodes[i].links.len() && links[q]
                == #[trigger] nodes[i].links[k];
        assert(has_link_at(nodes, i, k, b));
    }
}

/// A position in the title of a node stands for that node, and what stands for it is the title.
pub proof fn law_titles_stand_for_their_nodes(
    s: Seq<char>,
    nodes: Seq<NodeView>,
    cursor: Position,
    index: int,
    i: int,
    extent: LinkExtent,
)
    requires
        parser::parsed(None, s) == Ok::<Seq<NodeView>, Seq<ErrorView>>(nodes),
        position::index_of(s, cursor) == Some(index),
        has_title_at(nodes, i, text::offset(s, index)),
    ensures
        language_server::nodes_at(s, cursor, extent) == Some((nodes, i, nodes[i].title_span)),
        language_server::denoted(s, cursor, extent) == Some((nodes[i], nodes[i].title_span)),
        moving::path_at(s, cursor) is None,
{
    lemma_title_found(None, s, nodes, i, text::offset(s, index));
}

/// The part of a link that stands for what it leads to: the whole link, or what stands between its
/// delimiters.
pub open spec fn extent_of(span: Span, extent: LinkExtent) -> Span {
    match extent {
        LinkExtent::Whole => span,
        LinkExtent::Target => Span { start: span.start + 1, end: span.end - 1 },
    }
}

/// A position in a text link stands for the node with the title that the link names, and for nothing if
/// no node has that title. So the definition of a text link, its preview, its references and its rename
/// are those of the node that it names.
pub proof fn law_text_links_stand_for_the_nodes_they_name(
    s: Seq<char>,
    nodes: Seq<NodeView>,
    cursor: Position,
    index: int,
    i: int,
    k: int,
    extent: LinkExtent,
)
    requires
        parser::parsed(None, s) == Ok::<Seq<NodeView>, Seq<ErrorView>>(nodes),
        position::index_of(s, cursor) == Some(index),
        has_link_at(nodes, i, k, text::offset(s, index)),
        nodes[i].links[k] is Text,
    ensures
        ({
            let title = nodes[i].links[k]->Text_title;
            let span = extent_of(nodes[i].links[k].span(), extent);
            &&& forall|j: int|
                0 <= j < nodes.len() && (#[trigger] nodes[j]).title == title ==> {
                    &&& language_server::nodes_at(s, cursor, extent) == Some((nodes, j, span))
                    &&& language_server::denoted(s, cursor, extent) == Some((nodes[j], span))
                }
            &&& (forall|j: int| 0 <= j < nodes.len() ==> (#[trigger] nodes[j]).title != title)
                ==> language_server::nodes_at(s, cursor, extent) is None
            &&& moving::path_at(s, cursor) is None
        }),
{
    let b = text::offset(s, index);
    let title = nodes[i].links[k]->Text_title;
    lemma_link_found(None, s, nodes, i, k, b);
    formatting::law_parsed_wikis_are_valid(None, s, nodes);
    ranges::law_source_ranges(None, s, nodes);
    assert(ranges::is_laid_out(s, nodes[i]));
    assert(ranges::is_delimited(s, nodes[i].links[k].span()));
    wiki::lemma_position_of(nodes, title);
    assert forall|j: int| 0 <= j < nodes.len() && (#[trigger] nodes[j]).title == title implies {
        let span = extent_of(nodes[i].links[k].span(), extent);
        &&& language_server::nodes_at(s, cursor, extent) == Some((nodes, j, span))
        &&& language_server::denoted(s, cursor, extent) == Some((nodes[j], span))
    } by {
        wiki::lemma_position_of_distinct(nodes, j);
    }
}

/// A position in a link to a file or a directory stands for no node. If the link names something below
/// the wiki's directory, the position stands for its path, and what stands for it is what is between the
/// delimiters of the link.
pub proof fn law_filesystem_links_stand_for_their_paths(
    s: Seq<char>,
    nodes: Seq<NodeView>,
    cursor: Position,
    index: int,
    i: int,
    k: int,
    extent: LinkExtent,
)
    requires
        parser::parsed(None, s) == Ok::<Seq<NodeView>, Seq<ErrorView>>(nodes),
        position::index_of(s, cursor) == Some(index),
        has_link_at(nodes, i, k, text::offset(s, index)),
        !(nodes[i].links[k] is Text),
    ensures
        language_server::nodes_at(s, cursor, extent) is None,
        ({
            let link = nodes[i].links[k];
            let named = match link {
                LinkView::Text { title, span } => Seq::empty(),
                LinkView::File { path, span } => path,
                LinkView::Directory { path, span } => path,
            };
            if named.len() == 0 {
                moving::path_at(s, cursor) is None
            } else {
                moving::path_at(s, cursor) == Some(
                    (nodes, named, extent_of(link.span(), LinkExtent::Target)),
                )
            }
        }),
{
    lemma_link_found(None, s, nodes, i, k, text::offset(s, index));
    ranges::law_source_ranges(None, s, nodes);
    assert(ranges::is_laid_out(s, nodes[i]));
    assert(ranges::is_delimited(s, nodes[i].links[k].span()));
}

/// A position in neither a title nor a link stands for nothing, and so does every position in a source
/// that does not parse.
pub proof fn law_other_positions_stand_for_nothing(s: Seq<char>, cursor: Position, extent: LinkExtent)
    requires
        match (parser::parsed(None, s), position::index_of(s, cursor)) {
            (Ok(nodes), Some(index)) => {
                &&& forall|i: int| !#[trigger] has_title_at(nodes, i, text::offset(s, index))
                &&& forall|i: int, k: int|
                    !#[trigger] has_link_at(nodes, i, k, text::offset(s, index))
            },
            _ => true,
        },
    ensures
        language_server::nodes_at(s, cursor, extent) is None,
        language_server::denoted(s, cursor, extent) is None,
        moving::path_at(s, cursor) is None,
{
    if let (Ok(nodes), Some(index)) = (parser::parsed(None, s), position::index_of(s, cursor)) {
        let b = text::offset(s, index);
        lemma_no_link_found(nodes, b);
        occurrences::lemma_titled_at(nodes, b);
        if let Some(i) = occurrences::titled_at(nodes, b) {
            assert(has_title_at(nodes, i, b));
        }
    }
}

/// In a preview, a text link leads to the title of the node that it names. A text link that names no
/// node leads nowhere, and neither does a link to a file or a directory.
pub proof fn law_links_in_previews_lead_to_the_nodes_they_name(
    uri: Seq<char>,
    s: Seq<char>,
    nodes: Seq<NodeView>,
    links: Seq<LinkView>,
    m: int,
)
    requires
        wiki::titles_distinct(nodes),
        0 <= m < links.len(),
    ensures
        language_server::preview_urls(uri, s, nodes, links).len() == links.len(),
        ({
            let url = language_server::preview_urls(uri, s, nodes, links)[m];
            match links[m] {
                LinkView::Text { title, span } => {
                    &&& forall|i: int|
                        0 <= i < nodes.len() && (#[trigger] nodes[i]).title == title ==> url == Some(
                            language_server::reveal_url(uri, s, nodes[i].title_span),
                        )
                    &&& (forall|i: int| 0 <= i < nodes.len() ==> (#[trigger] nodes[i]).title
                        != title) ==> url is None
                },
                LinkView::File { path, span } => url is None,
                LinkView::Directory { path, span } => url is None,
            }
        }),
{
    if let LinkView::Text { title, span } = links[m] {
        wiki::lemma_position_of(nodes, title);
        assert forall|i: int|
            0 <= i < nodes.len() && (#[trigger] nodes[i]).title
                == title implies language_server::preview_url(uri, s, nodes, links[m]) == Some(
            language_server::reveal_url(uri, s, nodes[i].title_span),
        ) by {
            wiki::lemma_position_of_distinct(nodes, i);
        }
    }
}

/// Whether a link of a node is a text link that names a title.
pub open spec fn names_at(nodes: Seq<NodeView>, i: int, k: int, title: Seq<char>) -> bool {
    &&& 0 <= i < nodes.len()
    &&& 0 <= k < nodes[i].links.len()
    &&& nodes[i].links[k] is Text
    &&& nodes[i].links[k]->Text_title == title
}

/// Whether a range is that of a text link that names a title.
pub open spec fn is_reference(nodes: Seq<NodeView>, title: Seq<char>, span: Span) -> bool {
    exists|i: int, k: int| #[trigger]
        names_at(nodes, i, k, title) && nodes[i].links[k].span() == span
}

/// The ranges of the text links that name a title are those of such links, one after the other.
proof fn lemma_references(
    path: Option<Seq<char>>,
    s: Seq<char>,
    nodes: Seq<NodeView>,
    title: Seq<char>,
)
    requires
        parser::parsed(path, s) == Ok::<Seq<NodeView>, Seq<ErrorView>>(nodes),
        text::byte_len(s) <= usize::MAX,
    ensures
        ({
            let spans = occurrences::references_to(nodes, title);
            &&& forall|span: Span|
                #[trigger] spans.contains(span) <==> is_reference(nodes, title, span)
            &&& forall|x: int|
                0 <= x < spans.len() ==> ranges::is_delimited(s, #[trigger] spans[x])
            &&& forall|x: int, y: int|
                #![trigger spans[x], spans[y]]
                0 <= x < y < spans.len() ==> spans[x].end <= spans[y].start
        }),
{
    let links = validator::all_links(nodes);
    let found = occurrences::spans_naming(links, title);
    let spans = occurrences::references_to(nodes, title);
    ranges::law_source_ranges(path, s, nodes);
    ranges::lemma_all_links_in_order(s, nodes);
    ranges::lemma_naming_spans(s, links, title);
    let targets = language_server::target_spans_naming(s, links, title);
    assert forall|x: int| 0 <= x < found.len() implies ranges::is_delimited(
        s,
        #[trigger] found[x],
    ) by {
        assert(targets[x].start == found[x].start + 1);
    }
    lemma_in_order_already(s, found);
    assert(spans == found);
    assert forall|span: Span| #[trigger] spans.contains(span) implies is_reference(
        nodes,
        title,
        span,
    ) by {
        let x = choose|x: int| 0 <= x < found.len() && found[x] == span;
        let m = lemma_naming_link(links, title, x);
        validator::lemma_all_links_come_from(nodes, m);
        let (i, k) = choose|i: int, k: int|
            0 <= i < nodes.len() && 0 <= k < nodes[i].links.len() && links[m]
                == #[trigger] nodes[i].links[k];
        assert(names_at(nodes, i, k, title));
    }
    assert forall|span: Span| is_reference(nodes, title, span) implies #[trigger] spans.contains(
        span,
    ) by {
        let (i, k) = choose|i: int, k: int| #[trigger]
            names_at(nodes, i, k, title) && nodes[i].links[k].span() == span;
        validator::lemma_all_links_contain(nodes, i, k);
        let m = choose|m: int| 0 <= m < links.len() && #[trigger] links[m] == nodes[i].links[k];
        let x = lemma_naming_listed(links, title, m);
        assert(spans[x] == span);
    }
}

/// The ranges of the text links that name a title are listed.
proof fn lemma_naming_link(links: Seq<LinkView>, title: Seq<char>, x: int) -> (k: int)
    requires
        0 <= x < occurrences::spans_naming(links, title).len(),
    ensures
        0 <= k < links.len(),
        changing::names_title(links[k], title),
        occurrences::spans_naming(links, title)[x] == links[k].span(),
    decreases links.len(),
{
    let front = links.drop_last();
    let earlier = occurrences::spans_naming(front, title);
    if x < earlier.len() {
        let k = lemma_naming_link(front, title, x);
        assert(occurrences::spans_naming(links, title)[x] == earlier[x]);
        k
    } else {
        links.len() - 1
    }
}

/// Every text link that names a title is listed.
proof fn lemma_naming_listed(links: Seq<LinkView>, title: Seq<char>, k: int) -> (x: int)
    requires
        0 <= k < links.len(),
        changing::names_title(links[k], title),
    ensures
        0 <= x < occurrences::spans_naming(links, title).len(),
        occurrences::spans_naming(links, title)[x] == links[k].span(),
    decreases links.len(),
{
    let front = links.drop_last();
    let earlier = occurrences::spans_naming(front, title);
    if k == links.len() - 1 {
        earlier.len() as int
    } else {
        let x = lemma_naming_listed(front, title, k);
        assert(occurrences::spans_naming(links, title)[x] == earlier[x]);
        x
    }
}

/// Ranges that come one after the other are in order already.
proof fn lemma_in_order_already(s: Seq<char>, spans: Seq<Span>)
    requires
        text::byte_len(s) <= usize::MAX,
        forall|x: int| 0 <= x < spans.len() ==> ranges::is_delimited(s, #[trigger] spans[x]),
        forall|x: int, y: int|
            #![trigger spans[x], spans[y]]
            0 <= x < y < spans.len() ==> spans[x].end <= spans[y].start,
    ensures
        occurrences::ordered_by_span(spans, spans) == spans,
        order::sort_order(occurrences::span_keys(spans)) == Seq::new(spans.len(), |i: int| i),
{
    let keys = occurrences::span_keys(spans);
    assert forall|x: int, y: int|
        #![trigger keys[x], keys[y]]
        0 <= x < y < keys.len() implies !order::key_before(keys[y], keys[x]) by {
        assert(ranges::is_delimited(s, spans[x]) && ranges::is_delimited(s, spans[y]));
        assert(spans[x].end <= spans[y].start);
        assert(keys[x][0] == spans[x].start as u64);
        assert(keys[y][0] == spans[y].start as u64);
    }
    order::lemma_sort_order_of_sorted(keys);
    assert(occurrences::ordered_by_span(spans, spans) =~= spans);
}

/// The references to a node are the ranges of the text links that name it, and that of its title if it is
/// asked for. Each comes once, and they come in source order.
pub proof fn law_references_are_the_links_that_name_a_node(
    path: Option<Seq<char>>,
    s: Seq<char>,
    nodes: Seq<NodeView>,
    r: int,
    include_declaration: bool,
)
    requires
        parser::parsed(path, s) == Ok::<Seq<NodeView>, Seq<ErrorView>>(nodes),
        0 <= r < nodes.len(),
        text::byte_len(s) <= usize::MAX,
    ensures
        ({
            let spans = language_server::reference_spans(nodes, nodes[r], include_declaration);
            &&& forall|span: Span| #[trigger]
                spans.contains(span) <==> is_reference(nodes, nodes[r].title, span)
                    || include_declaration && span == nodes[r].title_span
            &&& forall|x: int, y: int|
                #![trigger spans[x], spans[y]]
                0 <= x < y < spans.len() ==> spans[x].end <= spans[y].start
        }),
{
    let node = nodes[r];
    let references = occurrences::references_to(nodes, node.title);
    lemma_references(path, s, nodes, node.title);
    let all = references.push(node.title_span);
    let spans = language_server::reference_spans(nodes, node, include_declaration);
    if include_declaration {
        lemma_with_title(path, s, nodes, r);
        lemma_same_items(all, occurrences::ordered_by_span(all, all));
        assert forall|span: Span| #[trigger] spans.contains(span) <==> is_reference(
            nodes,
            node.title,
            span,
        ) || span == node.title_span by {
            lemma_pushed(references, node.title_span, span);
            assert(spans.contains(span) == all.contains(span));
        }
    } else {
        lemma_in_order_already(s, references);
    }
}

/// What is in a sequence once an item has been added to it.
proof fn lemma_pushed<T>(items: Seq<T>, last: T, item: T)
    ensures
        items.push(last).contains(item) <==> items.contains(item) || item == last,
{
    let all = items.push(last);
    if items.contains(item) {
        let x = choose|x: int| 0 <= x < items.len() && items[x] == item;
        assert(all[x] == item);
    }
    assert(all[items.len() as int] == last);
}

/// Ordering ranges keeps them.
proof fn lemma_same_items(spans: Seq<Span>, sorted: Seq<Span>)
    requires
        sorted == occurrences::ordered_by_span(spans, spans),
    ensures
        forall|span: Span| #[trigger] sorted.contains(span) == spans.contains(span),
{
    let keys = occurrences::span_keys(spans);
    let sorting = order::sort_order(keys);
    order::lemma_sort_order_permutes(keys);
    assert forall|span: Span| #[trigger] sorted.contains(span) == spans.contains(span) by {
        if sorted.contains(span) {
            let x = choose|x: int| 0 <= x < sorted.len() && sorted[x] == span;
            assert(spans[sorting[x]] == span);
        }
        if spans.contains(span) {
            let x = choose|x: int| 0 <= x < spans.len() && spans[x] == span;
            assert(sorting.contains(x));
            let y = choose|y: int| 0 <= y < sorting.len() && sorting[y] == x;
            assert(sorted[y] == span);
        }
    }
}

/// The references to a node and its title come one after the other once they are in order.
proof fn lemma_with_title(path: Option<Seq<char>>, s: Seq<char>, nodes: Seq<NodeView>, r: int)
    requires
        parser::parsed(path, s) == Ok::<Seq<NodeView>, Seq<ErrorView>>(nodes),
        0 <= r < nodes.len(),
        text::byte_len(s) <= usize::MAX,
    ensures
        ({
            let references = occurrences::references_to(nodes, nodes[r].title);
            let all = references.push(nodes[r].title_span);
            let sorted = occurrences::ordered_by_span(all, all);
            forall|x: int, y: int|
                #![trigger sorted[x], sorted[y]]
                0 <= x < y < sorted.len() ==> sorted[x].end <= sorted[y].start
        }),
{
    let references = occurrences::references_to(nodes, nodes[r].title);
    let all = references.push(nodes[r].title_span);
    let n = references.len() as int;
    lemma_references(path, s, nodes, nodes[r].title);
    ranges::law_source_ranges(path, s, nodes);
    assert(ranges::is_laid_out(s, nodes[r]));
    changing::lemma_title_holds_something(path, s, nodes, r);
    assert forall|x: int| 0 <= x < all.len() implies 0 <= (#[trigger] all[x]).start < all[x].end
        <= text::byte_len(s) by {
        if x < n {
            assert(ranges::is_delimited(s, references[x]));
        }
    }
    assert forall|x: int, y: int|
        #![trigger all[x], all[y]]
        0 <= x < y < all.len() implies all[x].end <= all[y].start || all[y].end <= all[x].start by {
        if y < n {
            assert(references[x].end <= references[y].start);
        } else {
            assert(references.contains(references[x]));
            let (i, k) = choose|i: int, k: int| #[trigger]
                names_at(nodes, i, k, nodes[r].title) && nodes[i].links[k].span()
                    == references[x];
            let links = validator::all_links(nodes);
            validator::lemma_all_links_contain(nodes, i, k);
            let m = choose|m: int|
                0 <= m < links.len() && #[trigger] links[m] == nodes[i].links[k];
            ranges::lemma_titles_and_links_apart(s, nodes, r, m);
        }
    }
    let keys = occurrences::span_keys(all);
    let sorting = order::sort_order(keys);
    let sorted = occurrences::ordered_by_span(all, all);
    order::lemma_sort_order_sorts(keys);
    assert forall|x: int, y: int|
        #![trigger sorted[x], sorted[y]]
        0 <= x < y < sorted.len() implies sorted[x].end <= sorted[y].start by {
        let p = sorting[x];
        let q = sorting[y];
        assert(sorted[x] == all[p] && sorted[y] == all[q]);
        order::lemma_sort_order_distinct(keys, sorting, x, y);
        if p < q {
            assert(all[p].end <= all[q].start || all[q].end <= all[p].start);
        } else {
            assert(all[q].end <= all[p].start || all[p].end <= all[q].start);
        }
        assert(keys[p][0] == all[p].start as u64);
        assert(keys[q][0] == all[q].start as u64);
        assert(order::key_before(keys[p], keys[q]) || keys[p] == keys[q]);
    }
}

/// The highlights for a node are its references and its title, in source order. The title is highlighted
/// as the place where the node is declared, and each reference as a place that refers to it.
pub proof fn law_highlights_are_references_and_the_title(
    path: Option<Seq<char>>,
    s: Seq<char>,
    nodes: Seq<NodeView>,
    r: int,
)
    requires
        parser::parsed(path, s) == Ok::<Seq<NodeView>, Seq<ErrorView>>(nodes),
        0 <= r < nodes.len(),
        text::byte_len(s) <= usize::MAX,
    ensures
        ({
            let highlights = language_server::node_highlights(s, nodes, nodes[r]);
            let spans = language_server::reference_spans(nodes, nodes[r], true);
            &&& highlights.len() == spans.len()
            &&& forall|x: int|
                0 <= x < spans.len() ==> {
                    &&& (#[trigger] highlights[x]).range == position::range_of(s, spans[x])
                    &&& highlights[x].kind == if spans[x] == nodes[r].title_span {
                        HighlightKind::Write
                    } else {
                        HighlightKind::Read
                    }
                }
        }),
{
    let node = nodes[r];
    let references = occurrences::references_to(nodes, node.title);
    let all = references.push(node.title_span);
    let keys = occurrences::span_keys(all);
    let sorting = order::sort_order(keys);
    let highlights = language_server::node_highlights(s, nodes, node);
    let spans = language_server::reference_spans(nodes, node, true);
    order::lemma_sort_order_sorts(keys);
    lemma_references(path, s, nodes, node.title);
    changing::lemma_title_holds_something(path, s, nodes, r);
    assert forall|x: int| 0 <= x < spans.len() implies {
        &&& (#[trigger] highlights[x]).range == position::range_of(s, spans[x])
        &&& highlights[x].kind == if spans[x] == node.title_span {
            HighlightKind::Write
        } else {
            HighlightKind::Read
        }
    } by {
        let p = sorting[x];
        assert(0 <= p < keys.len());
        assert(spans[x] == all[p]);
        if p < references.len() {
            assert(all[p] == references[p]);
            assert(references.contains(references[p]));
            let (i, k) = choose|i: int, k: int| #[trigger]
                names_at(nodes, i, k, node.title) && nodes[i].links[k].span() == references[p];
            let links = validator::all_links(nodes);
            validator::lemma_all_links_contain(nodes, i, k);
            let m = choose|m: int|
                0 <= m < links.len() && #[trigger] links[m] == nodes[i].links[k];
            ranges::law_source_ranges(path, s, nodes);
            ranges::lemma_titles_and_links_apart(s, nodes, r, m);
            assert(ranges::is_delimited(s, references[p]));
        }
    }
}

/// Whether two links lead to a file, or both to a directory, and have the same path.
pub open spec fn lead_to_the_same(a: LinkView, b: LinkView) -> bool {
    ||| a is File && b is File && a->File_path == b->File_path
    ||| a is Directory && b is Directory && a->Directory_path == b->Directory_path
}

/// Whether a range is that of a link which leads to the same file or directory as another link.
pub open spec fn is_matching(nodes: Seq<NodeView>, link: LinkView, span: Span) -> bool {
    exists|i: int, k: int|
        {
            &&& 0 <= i < nodes.len()
            &&& 0 <= k < nodes[i].links.len()
            &&& lead_to_the_same(#[trigger] nodes[i].links[k], link)
            &&& nodes[i].links[k].span() == span
        }
}

/// The ranges of matching links are those of such links, one after the other.
proof fn lemma_matching(s: Seq<char>, links: Seq<LinkView>, target: LinkView)
    requires
        ranges::links_in_order(links),
        forall|k: int|
            0 <= k < links.len() ==> ranges::is_delimited(s, (#[trigger] links[k]).span()),
    ensures
        ({
            let spans = occurrences::spans_matching(links, target);
            &&& forall|x: int|
                0 <= x < spans.len() ==> ranges::is_delimited(s, #[trigger] spans[x]) && exists|
                    k: int,
                |
                    0 <= k < links.len() && lead_to_the_same(#[trigger] links[k], target)
                        && links[k].span() == spans[x]
            &&& forall|k: int|
                0 <= k < links.len() && lead_to_the_same(#[trigger] links[k], target)
                    ==> spans.contains(links[k].span())
            &&& forall|x: int, y: int|
                #![trigger spans[x], spans[y]]
                0 <= x < y < spans.len() ==> spans[x].end <= spans[y].start
        }),
    decreases links.len(),
{
    if links.len() > 0 {
        let front = links.drop_last();
        let last = links.last();
        let n = links.len() - 1;
        assert(links[n] == last);
        assert forall|k: int| 0 <= k < front.len() implies ranges::is_delimited(
            s,
            (#[trigger] front[k]).span(),
        ) by {
            assert(front[k] == links[k]);
        }
        assert forall|k: int, m: int|
            #![trigger front[k], front[m]]
            0 <= k < m < front.len() implies front[k].span().end <= front[m].span().start by {
            assert(links[k].span().end <= links[m].span().start);
        }
        lemma_matching(s, front, target);
        let earlier = occurrences::spans_matching(front, target);
        let spans = occurrences::spans_matching(links, target);
        assert forall|x: int| 0 <= x < spans.len() implies ranges::is_delimited(
            s,
            #[trigger] spans[x],
        ) && exists|k: int|
            0 <= k < links.len() && lead_to_the_same(#[trigger] links[k], target)
                && links[k].span() == spans[x] by {
            if x < earlier.len() {
                assert(spans[x] == earlier[x]);
                let k = choose|k: int|
                    0 <= k < front.len() && lead_to_the_same(#[trigger] front[k], target)
                        && front[k].span() == earlier[x];
                assert(links[k] == front[k]);
            } else {
                assert(lead_to_the_same(links[n], target));
            }
        }
        assert forall|k: int|
            0 <= k < links.len() && lead_to_the_same(
                #[trigger] links[k],
                target,
            ) implies spans.contains(links[k].span()) by {
            if k < n {
                assert(front[k] == links[k]);
                assert(earlier.contains(front[k].span()));
                let x = choose|x: int|
                    0 <= x < earlier.len() && earlier[x] == front[k].span();
                assert(spans[x] == earlier[x]);
            } else {
                assert(spans[earlier.len() as int] == last.span());
            }
        }
        assert forall|x: int, y: int|
            #![trigger spans[x], spans[y]]
            0 <= x < y < spans.len() implies spans[x].end <= spans[y].start by {
            assert(spans[x] == earlier[x]);
            if y < earlier.len() {
                assert(spans[y] == earlier[y]);
            } else {
                let k = choose|k: int|
                    0 <= k < front.len() && lead_to_the_same(#[trigger] front[k], target)
                        && front[k].span() == earlier[x];
                assert(links[k] == front[k]);
            }
        }
    }
}

/// Whether highlights are those of ranges that refer to something, in their order.
pub open spec fn are_shown_as_references(
    s: Seq<char>,
    spans: Seq<Span>,
    highlights: Seq<DocumentHighlight>,
) -> bool {
    &&& highlights.len() == spans.len()
    &&& forall|x: int|
        0 <= x < spans.len() ==> #[trigger] highlights[x] == (DocumentHighlight {
            range: position::range_of(s, spans[x]),
            kind: HighlightKind::Read,
        })
}

/// The highlights for a link to a file or a directory are the links that lead to the same, in source
/// order, each as a place that refers to it.
pub proof fn law_filesystem_highlights_are_the_links_to_the_same(
    path: Option<Seq<char>>,
    s: Seq<char>,
    nodes: Seq<NodeView>,
    link: LinkView,
)
    requires
        parser::parsed(path, s) == Ok::<Seq<NodeView>, Seq<ErrorView>>(nodes),
        text::byte_len(s) <= usize::MAX,
    ensures
        exists|spans: Seq<Span>|
            {
                &&& forall|span: Span| #[trigger]
                    spans.contains(span) <==> is_matching(nodes, link, span)
                &&& forall|x: int, y: int|
                    #![trigger spans[x], spans[y]]
                    0 <= x < y < spans.len() ==> spans[x].end <= spans[y].start
                &&& #[trigger] are_shown_as_references(
                    s,
                    spans,
                    language_server::filesystem_highlights(s, nodes, link),
                )
            },
{
    let links = validator::all_links(nodes);
    let spans = occurrences::spans_matching(links, link);
    ranges::law_source_ranges(path, s, nodes);
    ranges::lemma_all_links_in_order(s, nodes);
    lemma_matching(s, links, link);
    lemma_in_order_already(s, spans);
    let highlights = language_server::filesystem_highlights(s, nodes, link);
    let keys = occurrences::span_keys(spans);
    assert forall|x: int| 0 <= x < spans.len() implies #[trigger] highlights[x] == (
    DocumentHighlight { range: position::range_of(s, spans[x]), kind: HighlightKind::Read }) by {
        assert(order::sort_order(keys)[x] == x);
    }
    assert(are_shown_as_references(s, spans, highlights));
    assert forall|span: Span| #[trigger] spans.contains(span) implies is_matching(
        nodes,
        link,
        span,
    ) by {
        let x = choose|x: int| 0 <= x < spans.len() && spans[x] == span;
        let m = choose|m: int|
            0 <= m < links.len() && lead_to_the_same(#[trigger] links[m], link)
                && links[m].span() == spans[x];
        validator::lemma_all_links_come_from(nodes, m);
        let (i, k) = choose|i: int, k: int|
            0 <= i < nodes.len() && 0 <= k < nodes[i].links.len() && links[m]
                == #[trigger] nodes[i].links[k];
        assert(lead_to_the_same(nodes[i].links[k], link));
    }
    assert forall|span: Span| is_matching(nodes, link, span) implies #[trigger] spans.contains(
        span,
    ) by {
        let (i, k) = choose|i: int, k: int|
            {
                &&& 0 <= i < nodes.len()
                &&& 0 <= k < nodes[i].links.len()
                &&& lead_to_the_same(#[trigger] nodes[i].links[k], link)
                &&& nodes[i].links[k].span() == span
            };
        validator::lemma_all_links_contain(nodes, i, k);
        let m = choose|m: int| 0 <= m < links.len() && #[trigger] links[m] == nodes[i].links[k];
        assert(lead_to_the_same(links[m], link));
    }
}

/// What is highlighted at a position is about what the position stands for: the node with the title
/// there, the node that the text link there names, or the file or directory that the link there leads
/// to. A text link that names no node has nothing to highlight.
pub proof fn law_highlights_are_about_what_is_there(
    s: Seq<char>,
    nodes: Seq<NodeView>,
    b: int,
)
    requires
        parser::parsed(None, s) == Ok::<Seq<NodeView>, Seq<ErrorView>>(nodes),
    ensures
        forall|i: int| #[trigger]
            has_title_at(nodes, i, b) ==> language_server::highlights_at(s, nodes, b) == Some(
                language_server::node_highlights(s, nodes, nodes[i]),
            ),
        forall|i: int, k: int, j: int|
            #![trigger has_link_at(nodes, i, k, b), nodes[j]]
            has_link_at(nodes, i, k, b) && nodes[i].links[k] is Text && 0 <= j < nodes.len()
                && nodes[j].title == nodes[i].links[k]->Text_title
                ==> language_server::highlights_at(s, nodes, b) == Some(
                language_server::node_highlights(s, nodes, nodes[j]),
            ),
        forall|i: int, k: int| #[trigger]
            has_link_at(nodes, i, k, b) && nodes[i].links[k] is Text && (forall|j: int|
                0 <= j < nodes.len() ==> (#[trigger] nodes[j]).title
                    != nodes[i].links[k]->Text_title) ==> language_server::highlights_at(
                s,
                nodes,
                b,
            ) is None,
        forall|i: int, k: int| #[trigger]
            has_link_at(nodes, i, k, b) && !(nodes[i].links[k] is Text)
                ==> language_server::highlights_at(s, nodes, b) == Some(
                language_server::filesystem_highlights(s, nodes, nodes[i].links[k]),
            ),
{
    formatting::law_parsed_wikis_are_valid(None, s, nodes);
    assert forall|i: int| #[trigger] has_title_at(
        nodes,
        i,
        b,
    ) implies language_server::highlights_at(s, nodes, b) == Some(
        language_server::node_highlights(s, nodes, nodes[i]),
    ) by {
        lemma_title_found(None, s, nodes, i, b);
    }
    assert forall|i: int, k: int, j: int|
        #![trigger has_link_at(nodes, i, k, b), nodes[j]]
        has_link_at(nodes, i, k, b) && nodes[i].links[k] is Text && 0 <= j < nodes.len()
            && nodes[j].title
            == nodes[i].links[k]->Text_title implies language_server::highlights_at(s, nodes, b)
        == Some(language_server::node_highlights(s, nodes, nodes[j])) by {
        lemma_link_found(None, s, nodes, i, k, b);
        wiki::lemma_position_of_distinct(nodes, j);
    }
    assert forall|i: int, k: int| #[trigger]
        has_link_at(nodes, i, k, b) && nodes[i].links[k] is Text && (forall|j: int|
            0 <= j < nodes.len() ==> (#[trigger] nodes[j]).title
                != nodes[i].links[k]->Text_title) implies language_server::highlights_at(
        s,
        nodes,
        b,
    ) is None by {
        lemma_link_found(None, s, nodes, i, k, b);
        wiki::lemma_position_of(nodes, nodes[i].links[k]->Text_title);
    }
    assert forall|i: int, k: int| #[trigger]
        has_link_at(nodes, i, k, b) && !(
        nodes[i].links[k] is Text) implies language_server::highlights_at(s, nodes, b) == Some(
        language_server::filesystem_highlights(s, nodes, nodes[i].links[k]),
    ) by {
        lemma_link_found(None, s, nodes, i, k, b);
    }
}

/// The nodes of a parsed wiki are in source order already, so an outline lists them as they come.
pub proof fn law_outlines_list_nodes_as_they_come(
    path: Option<Seq<char>>,
    s: Seq<char>,
    nodes: Seq<NodeView>,
)
    requires
        parser::parsed(path, s) == Ok::<Seq<NodeView>, Seq<ErrorView>>(nodes),
        text::byte_len(s) <= usize::MAX,
    ensures
        language_server::nodes_by_start(nodes) == nodes,
{
    let keys = language_server::start_keys(nodes);
    ranges::law_source_ranges(path, s, nodes);
    assert forall|x: int, y: int|
        #![trigger keys[x], keys[y]]
        0 <= x < y < keys.len() implies !order::key_before(keys[y], keys[x]) by {
        assert(ranges::is_laid_out(s, nodes[x]) && ranges::is_laid_out(s, nodes[y]));
        assert(nodes[x].span.end <= nodes[y].span.start);
        assert(keys[x][0] == nodes[x].span.start as u64);
        assert(keys[y][0] == nodes[y].span.start as u64);
        assert(keys[x].len() == 1 && keys[y].len() == 1);
        assert(!order::key_before(keys[y].drop_first(), keys[x].drop_first()));
    }
    order::lemma_sort_order_of_sorted(keys);
    assert(language_server::nodes_by_start(nodes) =~= nodes);
}

/// A fix for a missing node is offered in a text link that names no node, for the title that the link
/// names, unless that is empty. It is offered nowhere else.
pub proof fn law_missing_nodes_are_offered_in_their_links(
    s: Seq<char>,
    nodes: Seq<NodeView>,
    cursor: Position,
    index: int,
)
    requires
        parser::parsed(None, s) == Ok::<Seq<NodeView>, Seq<ErrorView>>(nodes),
        position::index_of(s, cursor) == Some(index),
    ensures
        forall|i: int, k: int| #[trigger]
            has_link_at(nodes, i, k, text::offset(s, index)) ==> {
                let link = nodes[i].links[k];
                language_server::missing_link_at(s, nodes, cursor) == if link is Text
                    && link->Text_title.len() > 0 && forall|j: int|
                    0 <= j < nodes.len() ==> (#[trigger] nodes[j]).title != link->Text_title {
                    Some((link->Text_title, link.span()))
                } else {
                    None
                }
            },
        (forall|i: int, k: int| !#[trigger] has_link_at(nodes, i, k, text::offset(s, index)))
            ==> language_server::missing_link_at(s, nodes, cursor) is None,
{
    let b = text::offset(s, index);
    assert forall|i: int, k: int| #[trigger] has_link_at(nodes, i, k, b) implies {
        let link = nodes[i].links[k];
        language_server::missing_link_at(s, nodes, cursor) == if link is Text
            && link->Text_title.len() > 0 && forall|j: int|
            0 <= j < nodes.len() ==> (#[trigger] nodes[j]).title != link->Text_title {
            Some((link->Text_title, link.span()))
        } else {
            None
        }
    } by {
        lemma_link_found(None, s, nodes, i, k, b);
        let link = nodes[i].links[k];
        if link is Text {
            let title = link->Text_title;
            if wiki::has_title(nodes, title) {
                let j = choose|j: int| 0 <= j < nodes.len() && #[trigger] nodes[j].title == title;
                assert(nodes[j].title == title);
            }
        }
    }
    if forall|i: int, k: int| !#[trigger] has_link_at(nodes, i, k, b) {
        lemma_no_link_found(nodes, b);
    }
}

/// A fix resolves the diagnostics at its range, all of them and in their order.
pub proof fn law_fixes_resolve_the_diagnostics_at_their_range(
    diagnostics: Seq<DiagnosticView>,
    range: Range,
)
    ensures
        language_server::diagnostics_in(diagnostics, range) == diagnostics.filter(
            |diagnostic: DiagnosticView| diagnostic.range == range,
        ),
    decreases diagnostics.len(),
{
    reveal(Seq::filter);
    if diagnostics.len() > 0 {
        law_fixes_resolve_the_diagnostics_at_their_range(diagnostics.drop_last(), range);
    }
}

/// A diagnostic is where its error is: from the character that the range of the error starts at to the
/// one that it ends at. An error without a range has its diagnostic at the start of the document.
pub proof fn law_diagnostics_are_where_their_errors_are(
    s: Seq<char>,
    from: int,
    to: int,
    message: Seq<char>,
)
    requires
        0 <= from <= to <= s.len(),
    ensures
        language_server::diagnostic_of(s, Some(error::span_of(s, from, to)), message).range == (
        Range { start: position::position_at(s, from), end: position::position_at(s, to) }),
        language_server::diagnostic_of(s, None, message).range == (Range {
            start: Position { line: 0, character: 0 },
            end: Position { line: 0, character: 0 },
        }),
        language_server::diagnostic_of(s, None, message).message == message,
        language_server::diagnostic_of(s, Some(error::span_of(s, from, to)), message).message
            == message,
{
    text::lemma_floor_index_at(s, from);
    text::lemma_floor_index_at(s, to);
    text::lemma_floor_index_at(s, 0);
    text::lemma_offset_ends(s);
    assert(s.subrange(0, 0) =~= Seq::<char>::empty());
}

/// The position after a character is at the start of the next line if the character is a line feed, and
/// otherwise further along the line by one, or by two for a character beyond the basic plane.
pub proof fn law_positions_advance_by_characters(s: Seq<char>, i: int)
    requires
        0 <= i < s.len(),
        text::line_feeds(s, i) < u32::MAX,
        text::utf16_len(s.subrange(text::line_start(s, i), i)) < u32::MAX - 1,
    ensures
        position::position_at(s, 0) == (Position { line: 0, character: 0 }),
        ({
            let here = position::position_at(s, i);
            let next = position::position_at(s, i + 1);
            if s[i] == '\n' {
                next == (Position { line: (here.line + 1) as u32, character: 0 })
            } else {
                &&& next.line == here.line
                &&& next.character == here.character + (if s[i] as u32 <= 0xffff {
                    1int
                } else {
                    2int
                })
            }
        }),
{
    let lo = text::line_start(s, i);
    assert(s.subrange(0, 0) =~= Seq::<char>::empty());
    assert(s.subrange(i + 1, i + 1) =~= Seq::<char>::empty());
    lemma_line_start_before(s, i);
    if s[i] != '\n' {
        assert(s.subrange(lo, i + 1).drop_last() =~= s.subrange(lo, i));
        lemma_basic_plane(s[i]);
    }
}

proof fn lemma_line_start_before(s: Seq<char>, i: int)
    requires
        0 <= i <= s.len(),
    ensures
        0 <= text::line_start(s, i) <= i,
    decreases i,
{
    if i > 0 && s[i - 1] != '\n' {
        lemma_line_start_before(s, i - 1);
    }
}

proof fn lemma_basic_plane(c: char)
    ensures
        c as u32 <= 0xffff <==> c <= '\u{ffff}',
{
}

/// A new title for a node is refused if and only if it has a line break, is empty, starts like a
/// filesystem link, or is the title of another node.
pub proof fn law_new_titles_are_refused_for_cause(
    nodes: Seq<NodeView>,
    r: int,
    new_name: Seq<char>,
)
    requires
        wiki::titles_distinct(nodes),
        0 <= r < nodes.len(),
    ensures
        language_server::rename_error(nodes, nodes[r], new_name) is Some <==> {
            let title = text::trimmed(new_name);
            ||| new_name.contains('\n')
            ||| new_name.contains('\r')
            ||| title.len() == 0
            ||| title[0] == '/'
            ||| title.len() >= 5 && title.take(5) == seq!['f', 'i', 'l', 'e', ':']
            ||| title.len() >= 4 && title.take(4) == seq!['d', 'i', 'r', ':']
            ||| exists|j: int| 0 <= j < nodes.len() && j != r && #[trigger] nodes[j].title == title
        },
{
    reveal_strlit("file:");
    reveal_strlit("dir:");
    reveal_strlit("/");
    let title = text::trimmed(new_name);
    assert("file:"@ =~= seq!['f', 'i', 'l', 'e', ':']);
    assert("dir:"@ =~= seq!['d', 'i', 'r', ':']);
    assert("/"@ =~= seq!['/']);
    if title.len() >= 5 {
        assert(title.subrange(0, 5) =~= title.take(5));
    }
    if title.len() >= 4 {
        assert(title.subrange(0, 4) =~= title.take(4));
    }
    if title.len() >= 1 {
        assert(title.subrange(0, 1) =~= seq![title[0]]);
        if title[0] != '/' {
            assert(seq![title[0]][0] != seq!['/'][0]);
        }
    }
    if wiki::has_title(nodes, title) && title != nodes[r].title {
        let j = choose|j: int| 0 <= j < nodes.len() && #[trigger] nodes[j].title == title;
        assert(j != r);
    }
    if exists|j: int| 0 <= j < nodes.len() && j != r && #[trigger] nodes[j].title == title {
        let j = choose|j: int| 0 <= j < nodes.len() && j != r && #[trigger] nodes[j].title == title;
        if j < r {
            assert(nodes[j].title != nodes[r].title);
        } else {
            assert(nodes[r].title != nodes[j].title);
        }
    }
}

/// A text link at a byte offset stands for the node that it names.
pub proof fn lemma_link_denotes(
    path: Option<Seq<char>>,
    s: Seq<char>,
    nodes: Seq<NodeView>,
    i: int,
    k: int,
    b: int,
    j: int,
    extent: LinkExtent,
)
    requires
        parser::parsed(path, s) == Ok::<Seq<NodeView>, Seq<ErrorView>>(nodes),
        has_link_at(nodes, i, k, b),
        0 <= j < nodes.len(),
        nodes[i].links[k] matches LinkView::Text { title, span } && nodes[j].title == title,
    ensures
        occurrences::denoted_at(nodes, s, b, extent) == Some(
            (j, extent_of(nodes[i].links[k].span(), extent)),
        ),
{
    let title = nodes[i].links[k]->Text_title;
    lemma_link_found(path, s, nodes, i, k, b);
    formatting::law_parsed_wikis_are_valid(path, s, nodes);
    ranges::law_source_ranges(path, s, nodes);
    assert(ranges::is_laid_out(s, nodes[i]));
    assert(ranges::is_delimited(s, nodes[i].links[k].span()));
    wiki::lemma_position_of(nodes, title);
    wiki::lemma_position_of_distinct(nodes, j);
}

/// Where neither a title nor a link is at a byte offset, nothing is denoted.
pub proof fn lemma_nothing_denoted(s: Seq<char>, nodes: Seq<NodeView>, b: int, extent: LinkExtent)
    requires
        forall|i: int| !#[trigger] has_title_at(nodes, i, b),
        forall|i: int, k: int| !#[trigger] has_link_at(nodes, i, k, b),
    ensures
        occurrences::denoted_at(nodes, s, b, extent) is None,
{
    lemma_no_link_found(nodes, b);
    occurrences::lemma_titled_at(nodes, b);
    if let Some(i) = occurrences::titled_at(nodes, b) {
        assert(has_title_at(nodes, i, b));
    }
}

} // verus!
