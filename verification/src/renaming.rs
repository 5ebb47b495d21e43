//! What a rename does: the renamed source reads as the wiki with one title changed, and every text
//! link still leads to the node that it led to.

use vstd::prelude::*;

use crate::changing;
use crate::changing::Change;
use crate::error;
use crate::error::ErrorView;
use crate::error::Span;
use crate::formatting;
use crate::language_server;
use crate::occurrences;
use crate::order;
use crate::parser;
use crate::ranges;
use crate::rereading;
use crate::scoring;
use crate::text;
use crate::validator;
use crate::wiki;
use crate::wiki::LinkView;
use crate::wiki::NodeView;

verus! {

/// The ranges of the text links that name a title are listed.
proof fn lemma_naming_link(links: Seq<LinkView>, title: Seq<char>, x: int) -> (k: int)
    requires
        0 <= x < occurrences::spans_naming(links, title).len(),
    ensures
        0 <= k < links.len(),
        changing::names_title(links[k], title),
        occurrences::spans_naming(links, title)[x] == links[k].span(),
    decreases links.len(),
{
    let front = links.drop_last();
    let earlier = occurrences::spans_naming(front, title);
    if x < earlier.len() {
        let k = lemma_naming_link(front, title, x);
        assert(occurrences::spans_naming(links, title)[x] == earlier[x]);
        k
    } else {
        links.len() - 1
    }
}

/// Every text link that names a title is listed.
proof fn lemma_naming_listed(links: Seq<LinkView>, title: Seq<char>, k: int) -> (x: int)
    requires
        0 <= k < links.len(),
        changing::names_title(links[k], title),
    ensures
        0 <= x < occurrences::spans_naming(links, title).len(),
        occurrences::spans_naming(links, title)[x] == links[k].span(),
    decreases links.len(),
{
    let front = links.drop_last();
    let earlier = occurrences::spans_naming(front, title);
    if k == links.len() - 1 {
        earlier.len() as int
    } else {
        let x = lemma_naming_listed(front, title, k);
        assert(occurrences::spans_naming(links, title)[x] == earlier[x]);
        x
    }
}

/// The texts that a rename puts in place of the ranges that it replaces.
pub open spec fn rename_texts(
    s: Seq<char>,
    nodes: Seq<NodeView>,
    node: NodeView,
    new_title: Seq<char>,
) -> Seq<Seq<char>> {
    language_server::rename_edits(s, nodes, node, new_title).map_values(
        |edit: language_server::EditView| edit.new_text,
    )
}

/// A source after the rename of one of its nodes.
pub open spec fn renamed_source(
    s: Seq<char>,
    nodes: Seq<NodeView>,
    node: NodeView,
    new_title: Seq<char>,
) -> Seq<char> {
    changing::replaced_ranges(
        s,
        ranges::renamed_spans(s, nodes, node),
        rename_texts(s, nodes, node, new_title),
    )
}

/// Where the ranges of a rename come from: the title of the node, or a text link that names it.
proof fn lemma_rename_edit(
    s: Seq<char>,
    nodes: Seq<NodeView>,
    node: NodeView,
    new_title: Seq<char>,
    x: int,
) -> (m: int)
    requires
        ranges::links_in_order(validator::all_links(nodes)),
        forall|k: int|
            0 <= k < validator::all_links(nodes).len() ==> ranges::is_delimited(
                s,
                (#[trigger] validator::all_links(nodes)[k]).span(),
            ),
        0 <= x < ranges::renamed_spans(s, nodes, node).len(),
    ensures
        ({
            let links = validator::all_links(nodes);
            let span = ranges::renamed_spans(s, nodes, node)[x];
            let new_text = rename_texts(s, nodes, node, new_title)[x];
            if m < 0 {
                span == node.title_span && new_text == new_title
            } else {
                &&& m < links.len()
                &&& changing::names_title(links[m], node.title)
                &&& span == (Span { start: links[m].span().start + 1, end: links[m].span().end - 1 })
                &&& new_text == wiki::escaped(new_title)
            }
        }),
{
    let links = validator::all_links(nodes);
    ranges::lemma_naming_spans(s, links, node.title);
    let targets = language_server::target_spans_naming(s, links, node.title);
    let all = seq![node.title_span] + targets;
    let keys = occurrences::span_keys(all);
    let sorted = order::sort_order(keys);
    order::lemma_sort_order_sorts(keys);
    let y = sorted[x];
    assert(0 <= y < keys.len());
    assert(ranges::renamed_spans(s, nodes, node)[x] == all[y]);
    if y == 0 {
        -1
    } else {
        assert(all[y] == targets[y - 1]);
        lemma_naming_link(links, node.title, y - 1)
    }
}

/// The ranges of a rename cover the title of the node.
proof fn lemma_rename_title(
    s: Seq<char>,
    nodes: Seq<NodeView>,
    node: NodeView,
    new_title: Seq<char>,
) -> (x: int)
    ensures
        0 <= x < ranges::renamed_spans(s, nodes, node).len(),
        ranges::renamed_spans(s, nodes, node)[x] == node.title_span,
        rename_texts(s, nodes, node, new_title)[x] == new_title,
{
    let links = validator::all_links(nodes);
    let targets = language_server::target_spans_naming(s, links, node.title);
    let all = seq![node.title_span] + targets;
    let keys = occurrences::span_keys(all);
    order::lemma_sort_order_sorts(keys);
    order::lemma_sort_order_covers(keys, 0);
    let sorted = order::sort_order(keys);
    let x = choose|x: int| 0 <= x < sorted.len() && #[trigger] sorted[x] == 0;
    assert(ranges::renamed_spans(s, nodes, node)[x] == all[0]);
    x
}

/// The ranges of a rename cover every text link that names the node.
proof fn lemma_rename_link(
    s: Seq<char>,
    nodes: Seq<NodeView>,
    node: NodeView,
    new_title: Seq<char>,
    m: int,
) -> (x: int)
    requires
        ranges::links_in_order(validator::all_links(nodes)),
        forall|k: int|
            0 <= k < validator::all_links(nodes).len() ==> ranges::is_delimited(
                s,
                (#[trigger] validator::all_links(nodes)[k]).span(),
            ),
        0 <= m < validator::all_links(nodes).len(),
        changing::names_title(validator::all_links(nodes)[m], node.title),
    ensures
        ({
            let link = validator::all_links(nodes)[m];
            &&& 0 <= x < ranges::renamed_spans(s, nodes, node).len()
            &&& ranges::renamed_spans(s, nodes, node)[x] == (Span {
                start: link.span().start + 1,
                end: link.span().end - 1,
            })
            &&& rename_texts(s, nodes, node, new_title)[x] == wiki::escaped(new_title)
        }),
{
    let links = validator::all_links(nodes);
    ranges::lemma_naming_spans(s, links, node.title);
    let targets = language_server::target_spans_naming(s, links, node.title);
    let y = lemma_naming_listed(links, node.title, m);
    let all = seq![node.title_span] + targets;
    assert(all[y + 1] == targets[y]);
    let keys = occurrences::span_keys(all);
    order::lemma_sort_order_sorts(keys);
    order::lemma_sort_order_covers(keys, y + 1);
    let sorted = order::sort_order(keys);
    let x = choose|x: int| 0 <= x < sorted.len() && #[trigger] sorted[x] == y + 1;
    assert(ranges::renamed_spans(s, nodes, node)[x] == all[y + 1]);
    x
}

/// Another title for a node.
pub open spec fn new_title_for(node: NodeView, new_title: Seq<char>) -> Change {
    Change::Title { old: node.title, new: new_title }
}

proof fn lemma_title_not_empty(path: Option<Seq<char>>, s: Seq<char>, nodes: Seq<NodeView>, r: int)
    requires
        parser::parsed(path, s) == Ok::<Seq<NodeView>, Seq<ErrorView>>(nodes),
        0 <= r < nodes.len(),
    ensures
        nodes[r].title.len() > 0,
{
    formatting::law_parsed_wikis_are_valid(path, s, nodes);
    assert(formatting::is_title(nodes[r].title));
}

/// What a range of a rename covers: a title, or what stands between the delimiters of a link.
proof fn lemma_rename_hit(
    path: Option<Seq<char>>,
    s: Seq<char>,
    nodes: Seq<NodeView>,
    r: int,
    new_title: Seq<char>,
    x: int,
    i: int,
) -> (at: int)
    requires
        parser::parsed(path, s) == Ok::<Seq<NodeView>, Seq<ErrorView>>(nodes),
        0 <= r < nodes.len(),
        changing::is_linkable(new_title),
        0 <= x < ranges::renamed_spans(s, nodes, nodes[r]).len(),
        0 <= i < s.len(),
        changing::is_hit(ranges::renamed_spans(s, nodes, nodes[r])[x], text::offset(s, i)),
    ensures
        formatting::is_clean_section(path, s, at),
        changing::is_touched(s, at, new_title_for(nodes[r], new_title), i),
{
    let change = new_title_for(nodes[r], new_title);
    changing::lemma_links_lie_in_order(path, s, nodes);
    lemma_title_not_empty(path, s, nodes, r);
    let m = lemma_rename_edit(s, nodes, nodes[r], new_title, x);
    if m < 0 {
        let at = changing::lemma_node_section(path, s, nodes, r);
        changing::lemma_section_parts(path, s, at);
        changing::lemma_offset_order(s, parser::title_start(s, at), i);
        changing::lemma_offset_order(s, i, parser::title_end(s, at));
        at
    } else {
        changing::lemma_link_range_within(path, s, nodes, change, m, i)
    }
}

/// The ranges of a rename hold something and do not touch.
proof fn lemma_rename_apart(
    path: Option<Seq<char>>,
    s: Seq<char>,
    nodes: Seq<NodeView>,
    r: int,
    new_title: Seq<char>,
)
    requires
        parser::parsed(path, s) == Ok::<Seq<NodeView>, Seq<ErrorView>>(nodes),
        0 <= r < nodes.len(),
        changing::is_linkable(new_title),
        text::byte_len(s) <= usize::MAX,
    ensures
        changing::are_apart(ranges::renamed_spans(s, nodes, nodes[r])),
{
    let change = new_title_for(nodes[r], new_title);
    let spans = ranges::renamed_spans(s, nodes, nodes[r]);
    ranges::law_rename_edits_do_not_overlap(path, s, nodes, r, new_title);
    changing::lemma_links_lie_in_order(path, s, nodes);
    lemma_title_not_empty(path, s, nodes, r);
    assert forall|x: int| 0 <= x < spans.len() implies (#[trigger] spans[x]).start
        < spans[x].end by {
        let m = lemma_rename_edit(s, nodes, nodes[r], new_title, x);
        if m < 0 {
            let at = changing::lemma_node_section(path, s, nodes, r);
            changing::lemma_section_parts(path, s, at);
            changing::lemma_offset_order(
                s,
                parser::title_start(s, at),
                parser::title_end(s, at),
            );
        } else {
            let (at, a, b) = changing::lemma_changed_link_place(path, s, nodes, change, m);
            changing::lemma_offset_order(s, a + 1, b);
        }
    }
}

/// The edits of a rename carry it out.
proof fn lemma_rename_carried_out(
    path: Option<Seq<char>>,
    s: Seq<char>,
    nodes: Seq<NodeView>,
    r: int,
    new_title: Seq<char>,
)
    requires
        parser::parsed(path, s) == Ok::<Seq<NodeView>, Seq<ErrorView>>(nodes),
        0 <= r < nodes.len(),
        changing::is_linkable(new_title),
        text::byte_len(s) <= usize::MAX,
    ensures
        changing::carries_out(
            path,
            s,
            ranges::renamed_spans(s, nodes, nodes[r]),
            rename_texts(s, nodes, nodes[r], new_title),
            new_title_for(nodes[r], new_title),
        ),
{
    let change = new_title_for(nodes[r], new_title);
    let spans = ranges::renamed_spans(s, nodes, nodes[r]);
    let texts = rename_texts(s, nodes, nodes[r], new_title);
    lemma_rename_apart(path, s, nodes, r, new_title);
    lemma_title_not_empty(path, s, nodes, r);
    assert forall|x: int, i: int|
        0 <= x < spans.len() && 0 <= i < s.len() && #[trigger] changing::is_hit(
            spans[x],
            text::offset(s, i),
        ) implies exists|at: int| #[trigger]
        formatting::is_clean_section(path, s, at) && changing::is_touched(s, at, change, i) by {
        let at = lemma_rename_hit(path, s, nodes, r, new_title, x, i);
        assert(formatting::is_clean_section(path, s, at));
    }
    lemma_rename_covers_titles(path, s, nodes, r, new_title);
    lemma_rename_covers_links(path, s, nodes, r, new_title);
}

/// The edits of a rename reach the title of the node.
proof fn lemma_rename_covers_titles(
    path: Option<Seq<char>>,
    s: Seq<char>,
    nodes: Seq<NodeView>,
    r: int,
    new_title: Seq<char>,
)
    requires
        parser::parsed(path, s) == Ok::<Seq<NodeView>, Seq<ErrorView>>(nodes),
        0 <= r < nodes.len(),
    ensures
        changing::covers_titles(
            path,
            s,
            ranges::renamed_spans(s, nodes, nodes[r]),
            rename_texts(s, nodes, nodes[r], new_title),
            new_title_for(nodes[r], new_title),
        ),
{
    let change = new_title_for(nodes[r], new_title);
    let spans = ranges::renamed_spans(s, nodes, nodes[r]);
    let texts = rename_texts(s, nodes, nodes[r], new_title);
    assert forall|lo: int| #[trigger]
        formatting::is_clean_section(path, s, lo) && change.retitles(parser::title_of(s, lo))
        implies changing::has_range(
        spans,
        texts,
        error::span_of(s, parser::title_start(s, lo), parser::title_end(s, lo)),
        change.new_title(parser::title_of(s, lo)),
    ) by {
        let k = changing::lemma_node_of_section(path, s, nodes, lo);
        formatting::law_parsed_wikis_are_valid(path, s, nodes);
        assert(k == r) by {
            if k < r {
                assert(nodes[k].title != nodes[r].title);
            } else if r < k {
                assert(nodes[r].title != nodes[k].title);
            }
        }
        let x = lemma_rename_title(s, nodes, nodes[r], new_title);
        assert(spans[x] == nodes[r].title_span);
    }
}

/// The edits of a rename reach every text link that names the node.
proof fn lemma_rename_covers_links(
    path: Option<Seq<char>>,
    s: Seq<char>,
    nodes: Seq<NodeView>,
    r: int,
    new_title: Seq<char>,
)
    requires
        parser::parsed(path, s) == Ok::<Seq<NodeView>, Seq<ErrorView>>(nodes),
        0 <= r < nodes.len(),
        changing::is_linkable(new_title),
    ensures
        changing::covers_links(
            path,
            s,
            ranges::renamed_spans(s, nodes, nodes[r]),
            rename_texts(s, nodes, nodes[r], new_title),
            new_title_for(nodes[r], new_title),
        ),
{
    let change = new_title_for(nodes[r], new_title);
    let spans = ranges::renamed_spans(s, nodes, nodes[r]);
    let texts = rename_texts(s, nodes, nodes[r], new_title);
    lemma_title_not_empty(path, s, nodes, r);
    changing::lemma_links_lie_in_order(path, s, nodes);
    assert forall|lo: int, a: int, b: int|
        formatting::is_clean_section(path, s, lo) && #[trigger] changing::is_changed_link(
            s,
            parser::content_start(s, lo),
            parser::content_end(s, lo),
            a,
            b,
            change,
        ) implies changing::has_range(
        spans,
        texts,
        error::span_of(s, a + 1, b),
        change.written(s, a, b),
    ) by {
        let m = changing::lemma_changed_link_listed(path, s, nodes, change, lo, a, b);
        let x = lemma_rename_link(s, nodes, nodes[r], new_title, m);
        assert(spans[x] == error::span_of(s, a + 1, b));
    }
}

/// A rename is complete: once its edits have been applied, the source reads as the same nodes in the
/// same order, with the new title in place of the old one in the node and in every text link that
/// named it, and with all other titles and links as they were. The new title is one that the node may
/// have, and it does not end with a backslash. The source may have another name when it is read again.
pub proof fn law_renamed_sources_read_back(
    path: Option<Seq<char>>,
    s: Seq<char>,
    nodes: Seq<NodeView>,
    r: int,
    new_title: Seq<char>,
    other: Option<Seq<char>>,
)
    requires
        parser::parsed(path, s) == Ok::<Seq<NodeView>, Seq<ErrorView>>(nodes),
        0 <= r < nodes.len(),
        changing::is_linkable(new_title),
        nodes[r].title == new_title || !wiki::has_title(nodes, new_title),
        text::byte_len(s) <= usize::MAX,
    ensures
        parser::parsed(other, renamed_source(s, nodes, nodes[r], new_title)) is Ok,
        changing::all_changed(
            parser::parsed(other, renamed_source(s, nodes, nodes[r], new_title))->Ok_0,
            nodes,
            new_title_for(nodes[r], new_title),
        ),
{
    lemma_title_not_empty(path, s, nodes, r);
    lemma_rename_carried_out(path, s, nodes, r, new_title);
    changing::lemma_changed_source_reads(
        path,
        s,
        nodes,
        ranges::renamed_spans(s, nodes, nodes[r]),
        rename_texts(s, nodes, nodes[r], new_title),
        new_title_for(nodes[r], new_title),
        other,
    );
}

/// A new name that a rename accepts is, without the space around it, a title that the node may have.
pub proof fn law_accepted_names_are_titles(
    nodes: Seq<NodeView>,
    node: NodeView,
    new_name: Seq<char>,
)
    requires
        language_server::rename_error(nodes, node, new_name) is None,
    ensures
        formatting::is_title(text::trimmed(new_name)),
        node.title == text::trimmed(new_name) || !wiki::has_title(nodes, text::trimmed(new_name)),
{
    let n = new_name.len() as int;
    text::lemma_trimmed_subrange(new_name, 0, n);
    assert(new_name.subrange(0, n) =~= new_name);
    let title = text::trimmed(new_name);
    let start = text::trim_start_index(new_name, 0, n);
    assert forall|i: int| 0 <= i < title.len() implies #[trigger] title[i] != '\n' by {
        assert(title[i] == new_name[start + i]);
        assert(new_name.contains(new_name[start + i]));
    }
}

/// After a rename, every text link leads to the node that it led to before.
pub proof fn law_renamed_links_still_lead(
    nodes: Seq<NodeView>,
    again: Seq<NodeView>,
    title: Seq<char>,
    new_title: Seq<char>,
    i: int,
    j: int,
)
    requires
        wiki::titles_distinct(nodes),
        title == new_title || !wiki::has_title(nodes, new_title),
        changing::all_changed(again, nodes, (Change::Title { old: title, new: new_title })),
        0 <= i < nodes.len(),
        scoring::leads_to(nodes, i, j),
    ensures
        scoring::leads_to(again, i, j),
{
    let change = Change::Title { old: title, new: new_title };
    let mine = nodes[i].links;
    let k = choose|k: int|
        0 <= k < nodes[i].links.len() && scoring::link_leads_to(
            nodes,
            #[trigger] nodes[i].links[k],
            j,
        );
    assert(changing::is_changed(again[i], nodes[i], change));
    let plain = rereading::all_unplaced(again[i].links);
    assert(plain.len() == again[i].links.len());
    assert(plain == changing::all_relinked(mine, change));
    assert(plain.len() == mine.len());
    assert(plain[k] == rereading::unplaced(again[i].links[k]));
    assert(plain[k] == change.relinked(rereading::unplaced(mine[k])));
    if let LinkView::Text { title: named, span } = mine[k] {
        wiki::lemma_position_of(nodes, named);
        let name = change.retitled(named);
        assert(changing::is_changed(again[j], nodes[j], change));
        assert(again[j].title == name);
        wiki::lemma_position_of(again, name);
        let p = wiki::position_of(again, name)->0;
        assert(changing::is_changed(again[p], nodes[p], change));
        assert(p == j) by {
            if p < j {
                assert(nodes[p].title != nodes[j].title);
                assert(nodes[p].title == new_title || nodes[j].title == new_title);
            } else if j < p {
                assert(nodes[j].title != nodes[p].title);
                assert(nodes[p].title == new_title || nodes[j].title == new_title);
            }
        }
        assert(scoring::link_leads_to(again, again[i].links[k], j));
    }
}

/// Whether a link is another one once a title has been replaced: a text link that named the old title
/// names the new one, and every other link has the target that it had.
pub open spec fn is_renamed_link(
    after: LinkView,
    before: LinkView,
    old: Seq<char>,
    new: Seq<char>,
) -> bool {
    match (after, before) {
        (LinkView::Text { title: x, span: _ }, LinkView::Text { title: y, span: _ }) => x
            == if y == old {
            new
        } else {
            y
        },
        (LinkView::File { path: x, span: _ }, LinkView::File { path: y, span: _ }) => x == y,
        (LinkView::Directory { path: x, span: _ }, LinkView::Directory { path: y, span: _ }) => x == y,
        _ => false,
    }
}

/// Whether a node is another one once a title has been replaced, in its title and in its links.
pub open spec fn is_renamed_node(
    after: NodeView,
    before: NodeView,
    old: Seq<char>,
    new: Seq<char>,
) -> bool {
    &&& after.title == if before.title == old {
        new
    } else {
        before.title
    }
    &&& after.links.len() == before.links.len()
    &&& forall|k: int|
        0 <= k < after.links.len() ==> is_renamed_link(
            #[trigger] after.links[k],
            before.links[k],
            old,
            new,
        )
}

/// A rename replaces the old title wherever it is a title or the target of a text link, and changes no
/// other title and no other target.
pub proof fn law_renames_replace_the_title_everywhere(
    path: Option<Seq<char>>,
    s: Seq<char>,
    nodes: Seq<NodeView>,
    r: int,
    new_title: Seq<char>,
    other: Option<Seq<char>>,
    again: Seq<NodeView>,
)
    requires
        parser::parsed(path, s) == Ok::<Seq<NodeView>, Seq<ErrorView>>(nodes),
        0 <= r < nodes.len(),
        changing::is_linkable(new_title),
        nodes[r].title == new_title || !wiki::has_title(nodes, new_title),
        text::byte_len(s) <= usize::MAX,
        parser::parsed(other, renamed_source(s, nodes, nodes[r], new_title)) == Ok::<
            Seq<NodeView>,
            Seq<ErrorView>,
        >(again),
    ensures
        again.len() == nodes.len(),
        forall|i: int|
            0 <= i < nodes.len() ==> is_renamed_node(
                #[trigger] again[i],
                nodes[i],
                nodes[r].title,
                new_title,
            ),
{
    law_renamed_sources_read_back(path, s, nodes, r, new_title, other);
    let change = new_title_for(nodes[r], new_title);
    assert forall|i: int| 0 <= i < nodes.len() implies is_renamed_node(
        #[trigger] again[i],
        nodes[i],
        nodes[r].title,
        new_title,
    ) by {
        assert(changing::is_changed(again[i], nodes[i], change));
        let mine = rereading::all_unplaced(again[i].links);
        let theirs = changing::all_relinked(nodes[i].links, change);
        assert(mine == theirs);
        assert(mine.len() == again[i].links.len());
        assert(theirs.len() == nodes[i].links.len());
        assert forall|k: int| 0 <= k < again[i].links.len() implies is_renamed_link(
            #[trigger] again[i].links[k],
            nodes[i].links[k],
            nodes[r].title,
            new_title,
        ) by {
            assert(mine[k] == rereading::unplaced(again[i].links[k]));
            assert(theirs[k] == rereading::unplaced(change.relinked(nodes[i].links[k])));
        }
    }
}

} // verus!
