//! Where nodes and links lie in their source.

use vstd::prelude::*;

use crate::error;
use crate::error::ErrorView;
use crate::error::Span;
use crate::formatting;
use crate::language_server;
use crate::occurrences;
use crate::order;
use crate::parser;
use crate::parser::Outline;
use crate::position;
use crate::scoring;
use crate::text;
use crate::validator;
use crate::wiki::LinkView;
use crate::wiki::NodeView;

verus! {

/// Whether one range lies inside another.
pub open spec fn is_within(inner: Span, outer: Span) -> bool {
    outer.start <= inner.start <= inner.end <= outer.end
}

/// Whether each of the links ends before the next one starts.
pub open spec fn links_in_order(links: Seq<LinkView>) -> bool {
    forall|k: int, m: int|
        #![trigger links[k], links[m]]
        0 <= k < m < links.len() ==> links[k].span().end <= links[m].span().start
}

/// Whether the title of a node and its links lie inside the node, the links after the title and one
/// after the other, and each link has its delimiters.
pub open spec fn is_laid_out(s: Seq<char>, node: NodeView) -> bool {
    &&& is_within(node.span, Span { start: 0, end: text::byte_len(s) as int })
    &&& is_within(node.title_span, node.span)
    &&& forall|k: int|
        0 <= k < node.links.len() ==> {
            &&& is_within((#[trigger] node.links[k]).span(), node.span)
            &&& node.title_span.end <= node.links[k].span().start
            &&& is_delimited(s, node.links[k].span())
        }
    &&& links_in_order(node.links)
}

/// Whether each of the nodes ends before the next one starts.
pub open spec fn nodes_in_source_order(nodes: Seq<NodeView>) -> bool {
    forall|i: int, j: int|
        #![trigger nodes[i], nodes[j]]
        0 <= i < j < nodes.len() ==> nodes[i].span.end <= nodes[j].span.start
}

/// Whether a range of a source holds a link with its delimiters.
pub open spec fn is_delimited(s: Seq<char>, span: Span) -> bool {
    &&& 0 <= span.start
    &&& span.start + 2 <= span.end <= text::byte_len(s)
    &&& occurrences::target_span(s, span) == Some(
        Span { start: span.start + 1, end: span.end - 1 },
    )
}

/// A link reaches from an opening to a closing delimiter.
pub proof fn lemma_delimited(s: Seq<char>, start: int, end: int)
    requires
        0 <= start < end < s.len(),
        s[start] == '[',
        s[end] == ']',
    ensures
        is_delimited(s, error::span_of(s, start, end + 1)),
{
    text::lemma_floor_index_at(s, start);
    text::lemma_floor_index_at(s, end + 1);
    text::lemma_offset_monotonic(s, start, end + 1);
    text::lemma_offset_monotonic(s, 0, start);
    text::lemma_offset_monotonic(s, end + 1, s.len() as int);
    text::lemma_offset_ends(s);
}

/// The links of a content lie in it, one after the other, up to the last one that ended.
proof fn lemma_links(s: Seq<char>, lo: int, i: int)
    requires
        0 <= lo <= i <= s.len(),
    ensures
        lo <= parser::prose_start(s, lo, i) <= i,
        match parser::open_link(s, lo, i) {
            Some(start) => parser::prose_start(s, lo, i) <= start < i && s[start] == '[',
            None => true,
        },
        ({
            let links = parser::links_before(s, lo, i);
            let all = error::span_of(s, lo, parser::prose_start(s, lo, i));
            &&& links_in_order(links)
            &&& forall|k: int|
                0 <= k < links.len() ==> is_within((#[trigger] links[k]).span(), all)
                    && is_delimited(s, links[k].span())
        }),
    decreases i - lo,
{
    if lo < i {
        let j = i - 1;
        lemma_links(s, lo, j);
        let links = parser::links_before(s, lo, j);
        let old = parser::prose_start(s, lo, j);
        let all = error::span_of(s, lo, old);
        if let Some(start) = parser::open_link(s, lo, j) {
            if parser::delimiter_at(s, lo, j, ']') {
                text::lemma_offset_monotonic(s, lo, old);
                text::lemma_offset_monotonic(s, old, start);
                text::lemma_offset_monotonic(s, start, i);
                let more = parser::links_before(s, lo, i);
                let wider = error::span_of(s, lo, i);
                assert(parser::prose_start(s, lo, i) == i);
                if let Ok(link) = parser::link_at(s, start, j) {
                    assert(more == links.push(link));
                    assert(link.span() == error::span_of(s, start, i));
                    lemma_delimited(s, start, j);
                    assert forall|k: int, m: int|
                        #![trigger more[k], more[m]]
                        0 <= k < m < more.len() implies more[k].span().end
                        <= more[m].span().start by {
                        assert(more[k] == links[k]);
                        assert(is_within(links[k].span(), all));
                        if m < links.len() {
                            assert(more[m] == links[m]);
                        }
                    }
                }
                assert forall|k: int| 0 <= k < more.len() implies is_within(
                    (#[trigger] more[k]).span(),
                    wider,
                ) && is_delimited(s, more[k].span()) by {
                    if k < links.len() {
                        assert(more[k] == links[k]);
                        assert(is_within(links[k].span(), all));
                    }
                }
            }
        }
    }
}

/// A range ends after every character in it that is not white space.
proof fn lemma_trim_end_after(s: Seq<char>, lo: int, hi: int, i: int)
    requires
        0 <= lo <= i < hi <= s.len(),
        !text::white_space(s[i]),
    ensures
        i < text::trim_end_index(s, lo, hi) <= hi,
{
    text::lemma_trim_end_index(s, lo, hi);
}

/// The node of a section lies between the start of the section and the start of the next one.
proof fn lemma_section_ranges(path: Option<Seq<char>>, s: Seq<char>, lo: int)
    requires
        formatting::is_section(s, lo),
        parser::title_error(path, s, lo) is None,
    ensures
        is_laid_out(s, parser::node_at(s, lo)),
        ({
            let next = parser::next_title_line(s, parser::next_line(s, lo));
            &&& lo <= next <= s.len()
            &&& is_within(parser::node_at(s, lo).span, error::span_of(s, lo, next))
        }),
{
    reveal_strlit("#");
    reveal_strlit("# ");
    text::lemma_line_end(s, lo);
    parser::lemma_title_bounds(s, lo);
    let line = s.subrange(lo, parser::line_stop(s, lo));
    assert(s[lo] == '#') by {
        assert(line[0] == s[lo]);
        if text::starts_with(line, "# "@) {
            assert(line.subrange(0, 2)[0] == line[0]);
        }
    }
    let first = parser::next_line(s, lo);
    parser::lemma_next_title_line(s, first);
    let next = parser::next_title_line(s, first);
    let end = text::trim_end_index(s, lo, next);
    assert(text::trim_start_index(s, lo, next) == lo);
    text::lemma_trim_end_index(s, lo, next);

    // The title is not empty, so it ends with something other than space.
    let a = parser::title_start(s, lo);
    let b = parser::title_end(s, lo);
    text::lemma_trim_end_index(s, a, parser::line_stop(s, lo));
    assert(a < b);
    lemma_trim_end_after(s, lo, next, b - 1);
    text::lemma_offset_monotonic(s, lo, a);
    text::lemma_offset_monotonic(s, a, b);
    text::lemma_offset_monotonic(s, b, end);
    text::lemma_offset_monotonic(s, end, next);
    text::lemma_offset_monotonic(s, 0, lo);
    text::lemma_offset_monotonic(s, next, s.len() as int);
    text::lemma_offset_ends(s);

    // So does the content, if it is not empty.
    let start = parser::content_start(s, lo);
    let stop = parser::content_end(s, lo);
    text::lemma_trim_start_index(s, first, next);
    text::lemma_trim_end_index(s, start, next);
    lemma_links(s, start, stop);
    if start < stop {
        lemma_trim_end_after(s, lo, next, stop - 1);
        let last = parser::prose_start(s, start, stop);
        text::lemma_offset_monotonic(s, b, start);
        text::lemma_offset_monotonic(s, start, last);
        text::lemma_offset_monotonic(s, last, end);
        text::lemma_offset_monotonic(s, lo, start);
    }
}

/// The nodes of a source lie in it one after the other.
proof fn lemma_outline_ranges(path: Option<Seq<char>>, s: Seq<char>, lo: int, before: Outline)
    requires
        lo == s.len() || formatting::is_section(s, lo),
        nodes_in_source_order(before.nodes),
        forall|i: int|
            0 <= i < before.nodes.len() ==> is_laid_out(s, #[trigger] before.nodes[i])
                && before.nodes[i].span.end <= text::offset(s, lo),
    ensures
        ({
            let nodes = parser::outline_from(path, s, lo, before).nodes;
            &&& nodes_in_source_order(nodes)
            &&& forall|i: int| 0 <= i < nodes.len() ==> is_laid_out(s, #[trigger] nodes[i])
        }),
    decreases s.len() - lo,
{
    if lo < s.len() {
        text::lemma_line_end(s, lo);
        let first = parser::next_line(s, lo);
        formatting::lemma_next_section(s, first);
        let next = parser::next_title_line(s, first);
        let after = parser::with_section(path, s, lo, before);
        let node = parser::node_at(s, lo);
        text::lemma_offset_monotonic(s, lo, next);
        if parser::title_error(path, s, lo) is None {
            lemma_section_ranges(path, s, lo);
            if after.nodes.len() > before.nodes.len() {
                assert(after.nodes == before.nodes.push(node));
                assert forall|i: int, j: int|
                    #![trigger after.nodes[i], after.nodes[j]]
                    0 <= i < j < after.nodes.len() implies after.nodes[i].span.end
                    <= after.nodes[j].span.start by {
                    assert(after.nodes[i] == before.nodes[i]);
                    if j < before.nodes.len() {
                        assert(after.nodes[j] == before.nodes[j]);
                    }
                }
            }
        }
        assert forall|i: int| 0 <= i < after.nodes.len() implies is_laid_out(
            s,
            #[trigger] after.nodes[i],
        ) && after.nodes[i].span.end <= text::offset(s, next) by {
            if i < before.nodes.len() {
                assert(after.nodes[i] == before.nodes[i]);
            }
        }
        lemma_outline_ranges(path, s, next, after);
    }
}

/// The nodes of a parsed wiki lie in its source one after the other, and the title and the links of
/// a node lie inside it one after the other.
pub proof fn law_source_ranges(path: Option<Seq<char>>, s: Seq<char>, nodes: Seq<NodeView>)
    requires
        parser::parsed(path, s) == Ok::<Seq<NodeView>, Seq<ErrorView>>(nodes),
    ensures
        nodes_in_source_order(nodes),
        forall|i: int| 0 <= i < nodes.len() ==> is_laid_out(s, #[trigger] nodes[i]),
{
    formatting::lemma_next_section(s, 0);
    let before = Outline { nodes: Seq::empty(), errors: parser::stray_errors(path, s) };
    lemma_outline_ranges(path, s, parser::next_title_line(s, 0), before);
    let found = parser::outline(path, s).nodes;
    assert(nodes == scoring::scored(found));
    assert forall|i: int, j: int|
        #![trigger nodes[i], nodes[j]]
        0 <= i < j < nodes.len() implies nodes[i].span.end <= nodes[j].span.start by {
        assert(found[i].span.end <= found[j].span.start);
    }
    assert forall|i: int| 0 <= i < nodes.len() implies is_laid_out(s, #[trigger] nodes[i]) by {
        assert(is_laid_out(s, found[i]));
    }
}

/// Links never overlap: at most one link of a parsed wiki contains a byte offset.
pub proof fn law_links_never_overlap(
    path: Option<Seq<char>>,
    s: Seq<char>,
    nodes: Seq<NodeView>,
    i: int,
    k: int,
    j: int,
    m: int,
    b: int,
)
    requires
        parser::parsed(path, s) == Ok::<Seq<NodeView>, Seq<ErrorView>>(nodes),
        0 <= i < nodes.len(),
        0 <= k < nodes[i].links.len(),
        0 <= j < nodes.len(),
        0 <= m < nodes[j].links.len(),
        occurrences::covers(nodes[i].links[k].span(), b),
        occurrences::covers(nodes[j].links[m].span(), b),
    ensures
        i == j,
        k == m,
{
    law_source_ranges(path, s, nodes);
    assert(is_laid_out(s, nodes[i]) && is_laid_out(s, nodes[j]));
    assert(is_within(nodes[i].links[k].span(), nodes[i].span));
    assert(is_within(nodes[j].links[m].span(), nodes[j].span));
    if i < j {
        assert(nodes[i].span.end <= nodes[j].span.start);
    } else if j < i {
        assert(nodes[j].span.end <= nodes[i].span.start);
    } else {
        let links = nodes[i].links;
        if k < m {
            assert(links[k].span().end <= links[m].span().start);
        } else if m < k {
            assert(links[m].span().end <= links[k].span().start);
        }
    }
}

/// The links of a parsed wiki, one node after the other, lie in its source one after the other.
pub proof fn lemma_all_links_in_order(s: Seq<char>, nodes: Seq<NodeView>)
    requires
        nodes_in_source_order(nodes),
        forall|i: int| 0 <= i < nodes.len() ==> is_laid_out(s, #[trigger] nodes[i]),
    ensures
        links_in_order(validator::all_links(nodes)),
        forall|k: int|
            0 <= k < validator::all_links(nodes).len() ==> is_delimited(
                s,
                (#[trigger] validator::all_links(nodes)[k]).span(),
            ),
        nodes.len() > 0 ==> forall|k: int|
            0 <= k < validator::all_links(nodes).len() ==> (#[trigger] validator::all_links(
                nodes,
            )[k]).span().end <= nodes.last().span.end,
    decreases nodes.len(),
{
    if nodes.len() > 0 {
        let front = nodes.drop_last();
        let last = nodes.last();
        assert(nodes[nodes.len() - 1] == last);
        assert forall|i: int| 0 <= i < front.len() implies is_laid_out(s, #[trigger] front[i]) by {
            assert(front[i] == nodes[i]);
        }
        assert forall|i: int, j: int|
            #![trigger front[i], front[j]]
            0 <= i < j < front.len() implies front[i].span.end <= front[j].span.start by {
            assert(nodes[i].span.end <= nodes[j].span.start);
        }
        lemma_all_links_in_order(s, front);
        let earlier = validator::all_links(front);
        let links = validator::all_links(nodes);
        let n = earlier.len() as int;
        if front.len() > 0 {
            assert(nodes[front.len() - 1] == front.last());
            assert(front.last().span.end <= last.span.start);
        }
        assert forall|k: int| 0 <= k < links.len() implies is_delimited(
            s,
            (#[trigger] links[k]).span(),
        ) && links[k].span().end <= last.span.end && (k < n ==> links[k].span().end
            <= last.span.start) && (k >= n ==> last.span.start <= links[k].span().start) by {
            if k < n {
                assert(links[k] == earlier[k]);
            } else {
                assert(links[k] == last.links[k - n]);
            }
        }
        assert forall|k: int, m: int|
            #![trigger links[k], links[m]]
            0 <= k < m < links.len() implies links[k].span().end <= links[m].span().start by {
            if m < n {
                assert(links[k] == earlier[k] && links[m] == earlier[m]);
            } else if k >= n {
                assert(links[k] == last.links[k - n] && links[m] == last.links[m - n]);
            }
        }
    }
}

/// A title and a link of a parsed wiki never overlap.
pub proof fn lemma_titles_and_links_apart(s: Seq<char>, nodes: Seq<NodeView>, i: int, k: int)
    requires
        nodes_in_source_order(nodes),
        forall|j: int| 0 <= j < nodes.len() ==> is_laid_out(s, #[trigger] nodes[j]),
        0 <= i < nodes.len(),
        0 <= k < validator::all_links(nodes).len(),
    ensures
        ({
            let title = nodes[i].title_span;
            let link = validator::all_links(nodes)[k].span();
            title.end <= link.start || link.end <= title.start
        }),
{
    validator::lemma_all_links_come_from(nodes, k);
    let (j, m) = choose|j: int, m: int|
        0 <= j < nodes.len() && 0 <= m < nodes[j].links.len() && validator::all_links(nodes)[k]
            == #[trigger] nodes[j].links[m];
    assert(is_laid_out(s, nodes[i]) && is_laid_out(s, nodes[j]));
    if i < j {
        assert(nodes[i].span.end <= nodes[j].span.start);
    } else if j < i {
        assert(nodes[j].span.end <= nodes[i].span.start);
    }
}

/// The text links that name a title, and what stands between their delimiters.
pub proof fn lemma_naming_spans(s: Seq<char>, links: Seq<LinkView>, title: Seq<char>)
    requires
        links_in_order(links),
        forall|k: int| 0 <= k < links.len() ==> is_delimited(s, (#[trigger] links[k]).span()),
    ensures
        ({
            let spans = occurrences::spans_naming(links, title);
            let targets = language_server::target_spans_naming(s, links, title);
            &&& targets.len() == spans.len()
            &&& forall|x: int|
                0 <= x < spans.len() ==> {
                    &&& #[trigger] targets[x] == (Span {
                        start: spans[x].start + 1,
                        end: spans[x].end - 1,
                    })
                    &&& is_delimited(s, spans[x])
                    &&& exists|k: int|
                        0 <= k < links.len() && spans[x] == (#[trigger] links[k]).span()
                }
            &&& forall|x: int, y: int|
                #![trigger spans[x], spans[y]]
                0 <= x < y < spans.len() ==> spans[x].end <= spans[y].start
        }),
    decreases links.len(),
{
    if links.len() > 0 {
        let front = links.drop_last();
        let last = links.last();
        assert(links[links.len() - 1] == last);
        assert forall|k: int| 0 <= k < front.len() implies is_delimited(
            s,
            (#[trigger] front[k]).span(),
        ) by {
            assert(front[k] == links[k]);
        }
        assert forall|k: int, m: int|
            #![trigger front[k], front[m]]
            0 <= k < m < front.len() implies front[k].span().end <= front[m].span().start by {
            assert(links[k].span().end <= links[m].span().start);
        }
        lemma_naming_spans(s, front, title);
        let earlier = occurrences::spans_naming(front, title);
        let sooner = language_server::target_spans_naming(s, front, title);
        let spans = occurrences::spans_naming(links, title);
        let targets = language_server::target_spans_naming(s, links, title);
        assert(targets.len() == spans.len()) by {
            assert(is_delimited(s, last.span()));
        }
        assert forall|x: int| 0 <= x < spans.len() implies #[trigger] targets[x] == (Span {
            start: spans[x].start + 1,
            end: spans[x].end - 1,
        }) && is_delimited(s, spans[x]) && exists|k: int|
            0 <= k < links.len() && spans[x] == (#[trigger] links[k]).span() by {
            if x < earlier.len() {
                assert(targets[x] == sooner[x]);
                assert(spans[x] == earlier[x]);
                let k = choose|k: int|
                    0 <= k < front.len() && earlier[x] == (#[trigger] front[k]).span();
                assert(links[k] == front[k]);
            }
        }
        assert forall|x: int, y: int|
            #![trigger spans[x], spans[y]]
            0 <= x < y < spans.len() implies spans[x].end <= spans[y].start by {
            assert(sooner[x] == targets[x]);
            if y < earlier.len() {
                assert(spans[x] == earlier[x] && spans[y] == earlier[y]);
            } else {
                let k = choose|k: int|
                    0 <= k < front.len() && earlier[x] == (#[trigger] front[k]).span();
                assert(links[k] == front[k]);
            }
        }
    }
}

/// The ranges that a rename replaces: the title of the node and what stands between the delimiters of
/// the text links that name it, in source order.
pub open spec fn renamed_spans(s: Seq<char>, nodes: Seq<NodeView>, node: NodeView) -> Seq<Span> {
    let spans = seq![node.title_span] + language_server::target_spans_naming(
        s,
        validator::all_links(nodes),
        node.title,
    );
    occurrences::ordered_by_span(spans, spans)
}

/// A rename has one edit for the title of the node and one for each text link that names it, and no
/// two of them overlap or even touch.
pub proof fn law_rename_edits_do_not_overlap(
    path: Option<Seq<char>>,
    s: Seq<char>,
    nodes: Seq<NodeView>,
    i: int,
    new_title: Seq<char>,
)
    requires
        parser::parsed(path, s) == Ok::<Seq<NodeView>, Seq<ErrorView>>(nodes),
        0 <= i < nodes.len(),
        text::byte_len(s) <= usize::MAX,
    ensures
        ({
            let edits = language_server::rename_edits(s, nodes, nodes[i], new_title);
            let spans = renamed_spans(s, nodes, nodes[i]);
            let named = occurrences::references_to(nodes, nodes[i].title);
            &&& edits.len() == spans.len()
            &&& edits.len() == named.len() + 1
            &&& forall|a: int|
                0 <= a < edits.len() ==> (#[trigger] edits[a]).range == position::range_of(
                    s,
                    spans[a],
                )
            &&& forall|a: int, b: int|
                #![trigger spans[a], spans[b]]
                0 <= a < b < spans.len() ==> spans[a].end < spans[b].start
        }),
{
    law_source_ranges(path, s, nodes);
    let node = nodes[i];
    let links = validator::all_links(nodes);
    lemma_all_links_in_order(s, nodes);
    lemma_naming_spans(s, links, node.title);
    let found = occurrences::spans_naming(links, node.title);
    let targets = language_server::target_spans_naming(s, links, node.title);
    let all = seq![node.title_span] + targets;
    let keys = occurrences::span_keys(all);
    let sorted = order::sort_order(keys);
    order::lemma_sort_order_sorts(keys);
    order::lemma_sort_order_sorts(occurrences::span_keys(found));
    assert(is_laid_out(s, node));
    assert forall|x: int| 0 <= x < all.len() implies 0 <= (#[trigger] all[x]).start <= all[x].end
        <= text::byte_len(s) by {
        if x > 0 {
            assert(all[x] == targets[x - 1]);
        }
    }
    assert forall|x: int, y: int|
        #![trigger all[x], all[y]]
        0 <= x < y < all.len() implies all[x].end < all[y].start || all[y].end < all[x].start by {
        assert(all[y] == targets[y - 1]);
        if x == 0 {
            let k = choose|k: int|
                0 <= k < links.len() && found[y - 1] == (#[trigger] links[k]).span();
            lemma_titles_and_links_apart(s, nodes, i, k);
        } else {
            assert(all[x] == targets[x - 1]);
            assert(found[x - 1].end <= found[y - 1].start);
        }
    }
    let spans = renamed_spans(s, nodes, node);
    assert forall|a: int, b: int|
        #![trigger spans[a], spans[b]]
        0 <= a < b < spans.len() implies spans[a].end < spans[b].start by {
        let x = sorted[a];
        let y = sorted[b];
        assert(spans[a] == all[x] && spans[b] == all[y]);
        order::lemma_sort_order_distinct(keys, sorted, a, b);
        if x < y {
            assert(all[x].end < all[y].start || all[y].end < all[x].start);
        } else {
            assert(all[y].end < all[x].start || all[x].end < all[y].start);
        }
        assert(keys[x][0] == all[x].start as u64);
        assert(keys[y][0] == all[y].start as u64);
        assert(order::key_before(keys[x], keys[y]) || keys[x] == keys[y]);
    }
    let edits = language_server::rename_edits(s, nodes, node, new_title);
    assert forall|a: int| 0 <= a < edits.len() implies (#[trigger] edits[a]).range
        == position::range_of(s, spans[a]) by {
        let x = sorted[a];
        assert(0 <= x < keys.len());
        assert(spans[a] == all[x]);
        if x > 0 {
            assert(all[x] == targets[x - 1]);
        }
    }
}

} // verus!
