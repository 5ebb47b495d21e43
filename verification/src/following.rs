//! What renaming a file or a directory does: the source reads as the wiki with every link to it, or to
//! anything within it, leading to where it has gone.

use vstd::prelude::*;

use crate::arriving;
use crate::changing;
use crate::changing::Change;
use crate::error;
use crate::error::ErrorView;
use crate::error::Span;
use crate::formatting;
use crate::language_server::EditView;
use crate::moving;
use crate::occurrences;
use crate::parser;
use crate::path_util;
use crate::placing;
use crate::position;
use crate::ranges;
use crate::rereading;
use crate::text;
use crate::validator;
use crate::wiki;
use crate::wiki::LinkView;
use crate::wiki::NodeView;

verus! {

/// The ranges that renaming a path replaces.
pub open spec fn moved_spans(
    s: Seq<char>,
    links: Seq<LinkView>,
    old: Seq<char>,
    new: Seq<char>,
) -> Seq<Span>
    decreases links.len(),
{
    if links.len() == 0 {
        Seq::empty()
    } else {
        let spans = moved_spans(s, links.drop_last(), old, new);
        match moving::move_edit(s, links.last(), old, new) {
            Some(edit) => spans.push(occurrences::target_span(s, links.last().span())->0),
            None => spans,
        }
    }
}

/// The texts that renaming a path puts in place of the ranges that it replaces.
pub open spec fn moved_texts(
    s: Seq<char>,
    links: Seq<LinkView>,
    old: Seq<char>,
    new: Seq<char>,
) -> Seq<Seq<char>> {
    moving::move_edits(s, links, old, new).map_values(|edit: EditView| edit.new_text)
}

/// A source after a path that its links lead to has been renamed.
pub open spec fn moved_source(
    s: Seq<char>,
    nodes: Seq<NodeView>,
    old: Seq<char>,
    new: Seq<char>,
) -> Seq<char> {
    let links = validator::all_links(nodes);
    changing::replaced_ranges(s, moved_spans(s, links, old, new), moved_texts(s, links, old, new))
}

/// The ranges that renaming a path replaces are those of its edits.
pub proof fn law_edits_replace_moved_spans(
    s: Seq<char>,
    links: Seq<LinkView>,
    old: Seq<char>,
    new: Seq<char>,
)
    ensures
        moved_spans(s, links, old, new).len() == moving::move_edits(s, links, old, new).len(),
        forall|x: int|
            0 <= x < moved_spans(s, links, old, new).len() ==> (#[trigger] moving::move_edits(
                s,
                links,
                old,
                new,
            )[x]).range == position::range_of(s, moved_spans(s, links, old, new)[x]),
    decreases links.len(),
{
    if links.len() > 0 {
        let front = links.drop_last();
        law_edits_replace_moved_spans(s, front, old, new);
        let earlier = moving::move_edits(s, front, old, new);
        let spans = moved_spans(s, front, old, new);
        let edits = moving::move_edits(s, links, old, new);
        assert forall|x: int| 0 <= x < edits.len() implies (#[trigger] edits[x]).range
            == position::range_of(s, moved_spans(s, links, old, new)[x]) by {
            if x < earlier.len() {
                assert(edits[x] == earlier[x]);
                assert(moved_spans(s, links, old, new)[x] == spans[x]);
            }
        }
    }
}

/// What the edit of a delimited link replaces, and what it puts there.
proof fn lemma_edit_of_link(s: Seq<char>, link: LinkView, old: Seq<char>, new: Seq<char>)
    requires
        ranges::is_delimited(s, link.span()),
    ensures
        moving::move_edit(s, link, old, new) is Some <==> moving::leads_inside(link, old),
        occurrences::target_span(s, link.span()) == Some(
            Span { start: link.span().start + 1, end: link.span().end - 1 },
        ),
{
}

/// Where a range that renaming a path replaces comes from.
proof fn lemma_span_from(s: Seq<char>, links: Seq<LinkView>, old: Seq<char>, new: Seq<char>, x: int) -> (
m: int)
    requires
        forall|k: int|
            0 <= k < links.len() ==> ranges::is_delimited(s, (#[trigger] links[k]).span()),
        0 <= x < moved_spans(s, links, old, new).len(),
    ensures
        0 <= m < links.len(),
        moving::leads_inside(links[m], old),
        moved_spans(s, links, old, new)[x] == (Span {
            start: links[m].span().start + 1,
            end: links[m].span().end - 1,
        }),
        x < moved_spans(s, links.drop_last(), old, new).len() <==> m < links.len() - 1,
    decreases links.len(),
{
    let front = links.drop_last();
    let earlier = moved_spans(s, front, old, new);
    let last = links.len() - 1;
    assert(links[last] == links.last());
    lemma_edit_of_link(s, links.last(), old, new);
    if x < earlier.len() {
        assert forall|k: int| 0 <= k < front.len() implies ranges::is_delimited(
            s,
            (#[trigger] front[k]).span(),
        ) by {
            assert(front[k] == links[k]);
        }
        let m = lemma_span_from(s, front, old, new, x);
        assert(front[m] == links[m]);
        assert(moved_spans(s, links, old, new)[x] == earlier[x]);
        m
    } else {
        last
    }
}

/// The ranges that renaming a path replaces come one after the other.
proof fn lemma_spans_in_order(
    s: Seq<char>,
    links: Seq<LinkView>,
    old: Seq<char>,
    new: Seq<char>,
    x: int,
    y: int,
)
    requires
        ranges::links_in_order(links),
        forall|k: int|
            0 <= k < links.len() ==> ranges::is_delimited(s, (#[trigger] links[k]).span()),
        0 <= x < y < moved_spans(s, links, old, new).len(),
    ensures
        moved_spans(s, links, old, new)[x].end < moved_spans(s, links, old, new)[y].start,
    decreases links.len(),
{
    let front = links.drop_last();
    let earlier = moved_spans(s, front, old, new);
    assert forall|k: int| 0 <= k < front.len() implies ranges::is_delimited(
        s,
        (#[trigger] front[k]).span(),
    ) by {
        assert(front[k] == links[k]);
    }
    if y < earlier.len() {
        assert(ranges::links_in_order(front)) by {
            assert(forall|k: int| 0 <= k < front.len() ==> front[k] == #[trigger] links[k]);
        }
        lemma_spans_in_order(s, front, old, new, x, y);
        assert(moved_spans(s, links, old, new)[x] == earlier[x]);
        assert(moved_spans(s, links, old, new)[y] == earlier[y]);
    } else {
        let p = lemma_span_from(s, links, old, new, x);
        let q = lemma_span_from(s, links, old, new, y);
        assert(p < q);
        assert(links[p].span().end <= links[q].span().start);
    }
}

/// Renaming a path replaces what stands between the delimiters of every link that leads there.
proof fn lemma_span_of_link(
    s: Seq<char>,
    links: Seq<LinkView>,
    old: Seq<char>,
    new: Seq<char>,
    m: int,
) -> (x: int)
    requires
        forall|k: int|
            0 <= k < links.len() ==> ranges::is_delimited(s, (#[trigger] links[k]).span()),
        0 <= m < links.len(),
        moving::leads_inside(links[m], old),
    ensures
        0 <= x < moved_spans(s, links, old, new).len(),
        moved_spans(s, links, old, new)[x] == (Span {
            start: links[m].span().start + 1,
            end: links[m].span().end - 1,
        }),
        moved_texts(s, links, old, new)[x] == moving::moved_text(
            moving::target_text(s, links[m].span()),
            links[m],
            old,
            new,
        ),
    decreases links.len(),
{
    let front = links.drop_last();
    let earlier = moved_spans(s, front, old, new);
    let edits = moving::move_edits(s, front, old, new);
    law_edits_replace_moved_spans(s, front, old, new);
    law_edits_replace_moved_spans(s, links, old, new);
    assert(links[links.len() - 1] == links.last());
    lemma_edit_of_link(s, links.last(), old, new);
    if m < links.len() - 1 {
        assert forall|k: int| 0 <= k < front.len() implies ranges::is_delimited(
            s,
            (#[trigger] front[k]).span(),
        ) by {
            assert(front[k] == links[k]);
        }
        let x = lemma_span_of_link(s, front, old, new, m);
        assert(moved_spans(s, links, old, new)[x] == earlier[x]);
        assert(moving::move_edits(s, links, old, new)[x] == edits[x]);
        assert(moved_texts(s, front, old, new)[x] == edits[x].new_text);
        x
    } else {
        earlier.len() as int
    }
}

/// The edits that make links follow a path carry out its renaming.
proof fn lemma_move_carried_out(
    path: Option<Seq<char>>,
    s: Seq<char>,
    nodes: Seq<NodeView>,
    old: Seq<char>,
    new: Seq<char>,
)
    requires
        parser::parsed(path, s) == Ok::<Seq<NodeView>, Seq<ErrorView>>(nodes),
        moving::is_new_path(old, new),
    ensures
        ({
            let links = validator::all_links(nodes);
            changing::carries_out(
                path,
                s,
                moved_spans(s, links, old, new),
                moved_texts(s, links, old, new),
                (Change::Path { old, new }),
            )
        }),
{
    let change = Change::Path { old, new };
    let links = validator::all_links(nodes);
    let spans = moved_spans(s, links, old, new);
    let texts = moved_texts(s, links, old, new);
    changing::lemma_links_lie_in_order(path, s, nodes);
    assert forall|x: int| 0 <= x < spans.len() implies (#[trigger] spans[x]).start
        < spans[x].end by {
        let m = lemma_span_from(s, links, old, new, x);
        let (at, a, b) = changing::lemma_changed_link_place(path, s, nodes, change, m);
        changing::lemma_offset_order(s, a + 1, b);
    }
    assert forall|x: int, y: int|
        #![trigger spans[x], spans[y]]
        0 <= x < y < spans.len() implies spans[x].end < spans[y].start by {
        lemma_spans_in_order(s, links, old, new, x, y);
    }
    assert forall|x: int, i: int|
        0 <= x < spans.len() && 0 <= i < s.len() && #[trigger] changing::is_hit(
            spans[x],
            text::offset(s, i),
        ) implies exists|at: int| #[trigger]
        formatting::is_clean_section(path, s, at) && changing::is_touched(s, at, change, i) by {
        let m = lemma_span_from(s, links, old, new, x);
        let at = changing::lemma_link_range_within(path, s, nodes, change, m, i);
        assert(formatting::is_clean_section(path, s, at));
    }
    lemma_move_covers_links(path, s, nodes, old, new);
}

/// The edits that make links follow a path reach every link that leads there.
proof fn lemma_move_covers_links(
    path: Option<Seq<char>>,
    s: Seq<char>,
    nodes: Seq<NodeView>,
    old: Seq<char>,
    new: Seq<char>,
)
    requires
        parser::parsed(path, s) == Ok::<Seq<NodeView>, Seq<ErrorView>>(nodes),
        moving::is_new_path(old, new),
    ensures
        ({
            let links = validator::all_links(nodes);
            changing::covers_links(
                path,
                s,
                moved_spans(s, links, old, new),
                moved_texts(s, links, old, new),
                (Change::Path { old, new }),
            )
        }),
{
    let change = Change::Path { old, new };
    let links = validator::all_links(nodes);
    let spans = moved_spans(s, links, old, new);
    let texts = moved_texts(s, links, old, new);
    changing::lemma_links_lie_in_order(path, s, nodes);
    assert forall|lo: int, a: int, b: int|
        formatting::is_clean_section(path, s, lo) && #[trigger] changing::is_changed_link(
            s,
            parser::content_start(s, lo),
            parser::content_end(s, lo),
            a,
            b,
            change,
        ) implies changing::has_range(
        spans,
        texts,
        error::span_of(s, a + 1, b),
        change.written(s, a, b),
    ) by {
        let m = changing::lemma_changed_link_listed(path, s, nodes, change, lo, a, b);
        let x = lemma_span_of_link(s, links, old, new, m);
        formatting::lemma_section(path, s, lo);
        changing::lemma_inside_ok(
            s,
            parser::content_start(s, lo),
            parser::content_end(s, lo),
            a,
            b,
        );
        moving::lemma_target_text(s, a, b, links[m]);
        assert(spans[x] == error::span_of(s, a + 1, b));
    }
}

/// Renaming a file or a directory is complete: once its edits have been applied, the source reads as the
/// same nodes in the same order with the same titles. Every link that led to the path, or to anything
/// within it, leads to where that has gone, and all other links are as they were. The source may have
/// another name when it is read again.
pub proof fn law_moved_sources_read_back(
    path: Option<Seq<char>>,
    s: Seq<char>,
    nodes: Seq<NodeView>,
    old: Seq<char>,
    new_name: Seq<char>,
    other: Option<Seq<char>>,
)
    requires
        parser::parsed(path, s) == Ok::<Seq<NodeView>, Seq<ErrorView>>(nodes),
        moving::new_path(old, new_name) is Ok,
    ensures
        ({
            let new = moving::new_path(old, new_name)->Ok_0;
            let again = parser::parsed(other, moved_source(s, nodes, old, new));
            &&& again is Ok
            &&& changing::all_changed(again->Ok_0, nodes, (Change::Path { old, new }))
        }),
{
    let new = moving::new_path(old, new_name)->Ok_0;
    let links = validator::all_links(nodes);
    assert(moving::new_path(old, new_name) == Ok::<Seq<char>, Seq<char>>(new));
    lemma_move_carried_out(path, s, nodes, old, new);
    changing::lemma_changed_source_reads(
        path,
        s,
        nodes,
        moved_spans(s, links, old, new),
        moved_texts(s, links, old, new),
        Change::Path { old, new },
        other,
    );
}

/// Whether a link is another one once a path has been renamed: a link to the path or to anything within
/// it has the components of the new path and then those below the old one, and every other link has the
/// target that it had.
pub open spec fn is_moved_link(after: LinkView, before: LinkView, old: Seq<char>, new: Seq<char>) -> bool {
    match (after, before) {
        (LinkView::Text { title: x, span: _ }, LinkView::Text { title: y, span: _ }) => x == y,
        (LinkView::File { path: x, span: _ }, LinkView::File { path: y, span: _ }) =>
            arriving::leads_after(y, old, new, x),
        (LinkView::Directory { path: x, span: _ }, LinkView::Directory { path: y, span: _ }) =>
            arriving::leads_after(y, old, new, x),
        _ => false,
    }
}

/// Whether a node is another one once a path has been renamed.
pub open spec fn is_moved_node(after: NodeView, before: NodeView, old: Seq<char>, new: Seq<char>) -> bool {
    &&& after.title == before.title
    &&& after.links.len() == before.links.len()
    &&& forall|k: int|
        0 <= k < after.links.len() ==> is_moved_link(
            #[trigger] after.links[k],
            before.links[k],
            old,
            new,
        )
}

/// Once a file or a directory has been renamed and the edits have been applied, every link to it and to
/// anything within it leads to the new place, and nothing else has changed.
pub proof fn law_renames_take_along_the_links_within(
    path: Option<Seq<char>>,
    s: Seq<char>,
    nodes: Seq<NodeView>,
    old: Seq<char>,
    new_name: Seq<char>,
    other: Option<Seq<char>>,
    again: Seq<NodeView>,
)
    requires
        parser::parsed(path, s) == Ok::<Seq<NodeView>, Seq<ErrorView>>(nodes),
        moving::new_path(old, new_name) is Ok,
        path_util::components(old).len() > 0,
        parser::parsed(other, moved_source(s, nodes, old, moving::new_path(old, new_name)->Ok_0)) == Ok::<
            Seq<NodeView>,
            Seq<ErrorView>,
        >(again),
    ensures
        again.len() == nodes.len(),
        forall|i: int|
            0 <= i < nodes.len() ==> is_moved_node(
                #[trigger] again[i],
                nodes[i],
                old,
                moving::new_path(old, new_name)->Ok_0,
            ),
{
    law_moved_sources_read_back(path, s, nodes, old, new_name, other);
    let new = moving::new_path(old, new_name)->Ok_0;
    let change = Change::Path { old, new };
    arriving::lemma_new_path(old, new_name);
    assert forall|i: int| 0 <= i < nodes.len() implies is_moved_node(
        #[trigger] again[i],
        nodes[i],
        old,
        new,
    ) by {
        assert(changing::is_changed(again[i], nodes[i], change));
        let mine = rereading::all_unplaced(again[i].links);
        let theirs = changing::all_relinked(nodes[i].links, change);
        assert(mine == theirs);
        assert(mine.len() == again[i].links.len());
        assert(theirs.len() == nodes[i].links.len());
        assert forall|k: int| 0 <= k < again[i].links.len() implies is_moved_link(
            #[trigger] again[i].links[k],
            nodes[i].links[k],
            old,
            new,
        ) by {
            let link = nodes[i].links[k];
            assert(mine[k] == rereading::unplaced(again[i].links[k]));
            assert(theirs[k] == rereading::unplaced(change.relinked(link)));
            let (a, b) = placing::lemma_link_place(path, s, nodes, i, k);
            arriving::lemma_plain_link(
                wiki::unescaped(text::trimmed(s.subrange(a + 1, b))),
                error::span_of(s, a, b + 1),
                link,
            );
            arriving::law_links_move_with_the_path_they_lead_into(link, old, new);
        }
    }
}

} // verus!
