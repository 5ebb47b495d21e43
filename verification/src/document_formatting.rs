//! What formatting keeps of a document: reading a rendered document again gives the same nodes.

use vstd::prelude::*;

use crate::document;
use crate::document::NodeView;
use crate::formatting;
use crate::order;
use crate::parse;
use crate::parser;
use crate::phrase;
use crate::rereading;
use crate::text;
use crate::wiki;

verus! {

/// Whether a text can be the title of a node of a document: it is one line that is not empty and has
/// no space at its ends.
pub open spec fn is_title(title: Seq<char>) -> bool {
    &&& title.len() > 0
    &&& text::is_trimmed(title)
    &&& forall|i: int| 0 <= i < title.len() ==> #[trigger] title[i] != '\n'
}

/// Whether a text has no carriage return before a line feed.
pub open spec fn has_plain_lines(c: Seq<char>) -> bool {
    forall|k: int| 0 <= k < c.len() - 1 ==> !(#[trigger] c[k] == '\r' && c[k + 1] == '\n')
}

/// Whether a content reads back as it is: it has no space at its ends, no carriage return before a line
/// feed and no title line.
pub open spec fn settles(content: Seq<char>) -> bool {
    &&& text::is_trimmed(content)
    &&& has_plain_lines(content)
    &&& parse::next_title_line(content, 0) == content.len()
}

/// Whether no two nodes of a document have the same title.
pub open spec fn titles_distinct(nodes: Seq<NodeView>) -> bool {
    forall|i: int, j: int|
        #![trigger nodes[i], nodes[j]]
        0 <= i < j < nodes.len() ==> nodes[i].title != nodes[j].title
}

/// Whether the nodes of a document have titles of their own.
pub open spec fn is_valid(nodes: Seq<NodeView>) -> bool {
    &&& titles_distinct(nodes)
    &&& forall|i: int| 0 <= i < nodes.len() ==> is_title((#[trigger] nodes[i]).title)
}

/// Whether the contents of all nodes of a document read back as they are.
pub open spec fn all_settle(nodes: Seq<NodeView>) -> bool {
    forall|i: int| 0 <= i < nodes.len() ==> settles((#[trigger] nodes[i]).content)
}

/// What reading finds of a node: its title, its content and the links of its content.
pub open spec fn as_read(node: NodeView) -> NodeView {
    NodeView {
        title: node.title,
        content: node.content,
        links: parse::links_of(node.content),
        depth: None,
    }
}

/// Whether the text of a node stands at an index, and an empty line and a title line follow it unless
/// the source ends there.
spec fn is_block(r: Seq<char>, at: int, title: Seq<char>, content: Seq<char>) -> bool {
    let block = wiki::node_text(title, content);
    let end = at + block.len();
    &&& 0 <= at
    &&& end <= r.len()
    &&& r.subrange(at, end) == block
    &&& end == r.len() || r[end] == '\n' && end + 1 < r.len() && parse::is_title_line(r, end + 1)
}

/// The index at which what follows the text of a node starts.
spec fn block_next(r: Seq<char>, at: int, title: Seq<char>, content: Seq<char>) -> int {
    let end = at + wiki::node_text(title, content).len();
    if end == r.len() {
        end
    } else {
        end + 1
    }
}

/// A block starts with a title line that holds the title of its node.
proof fn lemma_block_title(r: Seq<char>, at: int, title: Seq<char>, content: Seq<char>)
    requires
        is_block(r, at, title, content),
        is_title(title),
    ensures
        at < r.len(),
        parse::is_title_line(r, at),
        parse::title_of(r, at) == title,
        parser::next_line(r, at) == at + 3 + title.len(),
{
    reveal_strlit("# ");
    formatting::lemma_block_chars(r, at, title, content);
    let stop = at + 2 + title.len();
    assert forall|i: int| at <= i < stop implies #[trigger] r[i] != '\n' by {
        if i >= at + 2 {
            assert(title[i - (at + 2)] != '\n');
        }
    }
    formatting::lemma_line_end_at(r, at, stop);
    assert(r[stop - 1] == title.last());
    assert(text::line_stop(r, at) == stop);
    let line = r.subrange(at, stop);
    assert(line.subrange(0, 2) =~= "# "@);
    assert(text::starts_with(line, "# "@));
    assert(r.subrange(at + 2, stop) =~= title);
    rereading::lemma_trimmed_again(title);
}

/// Where no line of a content is a title line, none is where the content stands in another text.
proof fn lemma_no_title_line(r: Seq<char>, from: int, content: Seq<char>, lo: int)
    requires
        0 <= from,
        0 <= lo < content.len(),
        from + content.len() < r.len(),
        forall|i: int| from <= i < from + content.len() ==> #[trigger] r[i] == content[i - from],
        r[from + content.len()] == '\n',
        text::is_trimmed(content),
        parse::next_title_line(content, lo) == content.len(),
    ensures
        parse::next_title_line(r, from + lo) == parse::next_title_line(
            r,
            from + content.len() + 1,
        ),
    decreases content.len() - lo,
{
    let n = content.len() as int;
    let end = text::line_end(content, lo);
    text::lemma_line_end(content, lo);
    assert forall|i: int| from + lo <= i < from + end implies #[trigger] r[i] != '\n' by {
        assert(content[i - from] != '\n');
    }
    if end < n {
        assert(r[from + end] == content[end]);
    }
    formatting::lemma_line_end_at(r, from + lo, from + end);
    if end > lo {
        assert(r[from + end - 1] == content[end - 1]);
        if end == n {
            assert(content[end - 1] == content.last());
        }
    }
    assert(text::line_stop(r, from + lo) == from + text::line_stop(content, lo));
    assert(r.subrange(from + lo, text::line_stop(r, from + lo)) =~= content.subrange(
        lo,
        text::line_stop(content, lo),
    ));
    assert(!parse::is_title_line(r, from + lo));
    if end < n {
        if end + 1 == n {
            assert(content.last() == '\n');
        }
        lemma_no_title_line(r, from, content, end + 1);
    }
}

/// The next title line after a block is that of the next block.
proof fn lemma_block_end(r: Seq<char>, at: int, title: Seq<char>, content: Seq<char>)
    requires
        is_block(r, at, title, content),
        settles(content),
    ensures
        parse::next_title_line(r, at + 3 + title.len()) == block_next(r, at, title, content),
{
    reveal_strlit("# ");
    formatting::lemma_block_chars(r, at, title, content);
    let end = at + wiki::node_text(title, content).len();
    let first = at + 3 + title.len();
    if end < r.len() {
        formatting::lemma_line_end_at(r, end, end);
        assert(r.subrange(end, end).len() == 0);
        assert(!parse::is_title_line(r, end));
        assert(parse::next_title_line(r, end) == parse::next_title_line(r, end + 1));
        assert(parse::next_title_line(r, end + 1) == end + 1);
    }
    assert(parse::next_title_line(r, end) == block_next(r, at, title, content));
    if content.len() > 0 {
        formatting::lemma_line_end_at(r, first, first);
        assert(r.subrange(first, first).len() == 0);
        assert(!parse::is_title_line(r, first));
        assert(parse::next_title_line(r, first) == parse::next_title_line(r, first + 1));
        lemma_no_title_line(r, first + 1, content, 0);
    }
}

/// The lines up to a line ending are what stands there, where no line ends with a carriage return.
proof fn lemma_lines(r: Seq<char>, lo: int, hi: int)
    requires
        0 <= lo < hi <= r.len(),
        r[hi - 1] == '\n',
        forall|k: int| lo <= k < hi - 1 ==> !(#[trigger] r[k] == '\r' && r[k + 1] == '\n'),
    ensures
        parse::lines_between(r, lo, hi).len() > 0,
        phrase::joined(parse::lines_between(r, lo, hi), "\n"@) == r.subrange(lo, hi - 1),
    decreases hi - lo,
{
    reveal_strlit("\n");
    let end = text::line_end(r, lo);
    text::lemma_line_end(r, lo);
    assert(end <= hi - 1) by {
        if end > hi - 1 {
            assert(r[hi - 1] != '\n');
        }
    }
    if end > lo {
        assert(!(r[end - 1] == '\r' && r[end] == '\n'));
    }
    assert(text::line_stop(r, lo) == end);
    let line = r.subrange(lo, end);
    let rest = parse::lines_between(r, end + 1, hi);
    if end + 1 < hi {
        lemma_lines(r, end + 1, hi);
        phrase::lemma_joined_front(line, rest, "\n"@);
        assert(line + "\n"@ + r.subrange(end + 1, hi - 1) =~= r.subrange(lo, hi - 1));
    } else {
        assert(seq![line] + rest =~= seq![line]);
        assert(phrase::joined(seq![line], "\n"@) == line);
    }
}

/// The content below the title line of a block is that of its node.
proof fn lemma_block_content(r: Seq<char>, at: int, title: Seq<char>, content: Seq<char>)
    requires
        is_block(r, at, title, content),
        is_title(title),
        settles(content),
    ensures
        parse::next_title_line(r, parser::next_line(r, at)) == block_next(r, at, title, content),
        parse::content_of(r, at) == content,
{
    lemma_block_title(r, at, title, content);
    lemma_block_end(r, at, title, content);
    formatting::lemma_block_chars(r, at, title, content);
    let n = content.len() as int;
    let first = at + 3 + title.len();
    let from = first + 1;
    let hi = block_next(r, at, title, content);
    let end = at + wiki::node_text(title, content).len();
    let lines = parse::lines_between(r, first, hi);
    if first == hi {
        assert(lines.len() == 0);
        assert(phrase::joined(lines, "\n"@) =~= content);
        rereading::lemma_trimmed_again(content);
    } else {
        assert forall|k: int| first <= k < hi - 1 implies !(#[trigger] r[k] == '\r' && r[k + 1]
            == '\n') by {
            if n > 0 && from <= k < from + n {
                assert(r[k] == content[k - from]);
                if k + 1 < from + n {
                    assert(r[k + 1] == content[k + 1 - from]);
                    assert(!(content[k - from] == '\r' && content[k - from + 1] == '\n'));
                } else {
                    assert(content[k - from] == content.last());
                }
            }
        }
        lemma_lines(r, first, hi);
        let x = r.subrange(first, hi - 1);
        if n == 0 {
            assert(x =~= content);
            rereading::lemma_trimmed_again(content);
        } else {
            assert(r[from] == content[0]);
            assert(r[from + n - 1] == content.last());
            formatting::lemma_trim_start_at(r, first, hi - 1, from);
            assert forall|i: int| from + n <= i < hi - 1 implies text::white_space(
                #[trigger] r[i],
            ) by {
                assert(i == end - 1);
            }
            formatting::lemma_trim_end_at(r, from, hi - 1, from + n);
            text::lemma_trimmed_subrange(r, first, hi - 1);
            assert(r.subrange(from, from + n) =~= content);
        }
    }
}

/// The texts of nodes.
spec fn node_texts(nodes: Seq<NodeView>) -> Seq<Seq<char>> {
    nodes.map_values(|node: NodeView| wiki::node_text(node.title, node.content))
}

/// The text of nodes one after the other, with an empty line between two nodes.
spec fn rendered(nodes: Seq<NodeView>) -> Seq<char> {
    phrase::joined(node_texts(nodes), "\n"@)
}

/// Where a node of a rendered text starts, or the end of that text after the last node.
spec fn block_start(nodes: Seq<NodeView>, k: int) -> int {
    if k < nodes.len() {
        formatting::start_of(node_texts(nodes), k)
    } else {
        rendered(nodes).len() as int
    }
}

/// Rendered nodes are blocks.
proof fn lemma_rendered_block(nodes: Seq<NodeView>, k: int)
    requires
        0 <= k < nodes.len(),
        is_valid(nodes),
    ensures
        is_block(rendered(nodes), block_start(nodes, k), nodes[k].title, nodes[k].content),
        block_next(rendered(nodes), block_start(nodes, k), nodes[k].title, nodes[k].content)
            == block_start(nodes, k + 1),
        block_start(nodes, k) < rendered(nodes).len(),
        parse::is_title_line(rendered(nodes), block_start(nodes, k)),
    decreases nodes.len() - k,
{
    let items = node_texts(nodes);
    let r = rendered(nodes);
    let at = block_start(nodes, k);
    formatting::lemma_joined(items, k);
    if k + 1 < nodes.len() {
        lemma_rendered_block(nodes, k + 1);
    }
    assert(is_block(r, at, nodes[k].title, nodes[k].content));
    lemma_block_title(r, at, nodes[k].title, nodes[k].content);
}

/// Reading rendered nodes again gives the same nodes in the same order.
proof fn lemma_rendered_nodes(nodes: Seq<NodeView>, k: int, before: Seq<NodeView>)
    requires
        0 <= k <= nodes.len(),
        is_valid(nodes),
        all_settle(nodes),
        before.len() == k,
        forall|i: int| 0 <= i < k ==> #[trigger] before[i] == as_read(nodes[i]),
    ensures
        parse::nodes_from(rendered(nodes), block_start(nodes, k), before) == Ok::<
            Seq<NodeView>,
            Seq<char>,
        >(nodes.map_values(|node: NodeView| as_read(node))),
    decreases nodes.len() - k,
{
    let all = nodes.map_values(|node: NodeView| as_read(node));
    if k < nodes.len() {
        let r = rendered(nodes);
        let at = block_start(nodes, k);
        let node = nodes[k];
        lemma_rendered_block(nodes, k);
        lemma_block_title(r, at, node.title, node.content);
        lemma_block_content(r, at, node.title, node.content);
        assert(!document::has_title(before, node.title)) by {
            assert forall|i: int| 0 <= i < before.len() implies #[trigger] before[i].title
                != node.title by {
                assert(before[i] == as_read(nodes[i]));
            }
        }
        let after = before.push(as_read(node));
        assert forall|i: int| 0 <= i < k + 1 implies #[trigger] after[i] == as_read(nodes[i]) by {
            if i < k {
                assert(after[i] == before[i]);
            }
        }
        lemma_rendered_nodes(nodes, k + 1, after);
    } else {
        assert(before =~= all);
    }
}

/// Reading a rendered document again gives its nodes by title.
///
/// Contents that do not settle are left out: a content that starts like a title line once the space
/// before it is gone, and one with a carriage return before a line ending.
pub proof fn law_documents_read_back(nodes: Seq<NodeView>)
    requires
        is_valid(nodes),
        all_settle(nodes),
    ensures
        parse::parsed(document::document_text(nodes)) == Ok::<Seq<NodeView>, Seq<char>>(
            document::nodes_by_title(nodes).map_values(|node: NodeView| as_read(node)),
        ),
{
    let sorted = document::nodes_by_title(nodes);
    let keys = document::title_keys(nodes);
    let order = order::sort_order(keys);
    order::lemma_sort_order_sorts(keys);
    order::lemma_sort_order_permutes(keys);
    assert forall|i: int| 0 <= i < sorted.len() implies is_title((#[trigger] sorted[i]).title)
        && settles(sorted[i].content) by {
        assert(0 <= order[i] < keys.len());
        assert(sorted[i] == nodes[order[i]]);
    }
    assert forall|i: int, j: int|
        #![trigger sorted[i], sorted[j]]
        0 <= i < j < sorted.len() implies sorted[i].title != sorted[j].title by {
        assert(order[i] != order[j]);
        assert(sorted[i] == nodes[order[i]]);
        assert(sorted[j] == nodes[order[j]]);
    }
    let r = rendered(sorted);
    assert(r == document::document_text(nodes));
    if sorted.len() > 0 {
        lemma_rendered_block(sorted, 0);
        assert(parse::next_title_line(r, 0) == 0);
    } else {
        assert(r.len() == 0);
    }
    lemma_rendered_nodes(sorted, 0, Seq::empty());
}

/// The nodes read from a document are valid.
proof fn lemma_nodes_valid(s: Seq<char>, lo: int, before: Seq<NodeView>)
    requires
        0 <= lo <= s.len(),
        lo < s.len() ==> parse::is_title_line(s, lo),
        is_valid(before),
        forall|i: int|
            0 <= i < before.len() ==> text::is_trimmed((#[trigger] before[i]).content) && before[i]
                == as_read(before[i]),
        parse::nodes_from(s, lo, before) is Ok,
    ensures
        is_valid(parse::nodes_from(s, lo, before)->Ok_0),
        ({
            let nodes = parse::nodes_from(s, lo, before)->Ok_0;
            forall|i: int|
                0 <= i < nodes.len() ==> text::is_trimmed((#[trigger] nodes[i]).content) && nodes[i]
                    == as_read(nodes[i])
        }),
    decreases s.len() - lo,
{
    if lo < s.len() {
        reveal_strlit("# ");
        let title = parse::title_of(s, lo);
        let content = parse::content_of(s, lo);
        let stop = text::line_stop(s, lo);
        let start = parser::next_line(s, lo);
        text::lemma_line_end(s, lo);
        parse::lemma_next_title_line(s, start);
        assert(s.subrange(lo, stop).len() >= 2);
        text::lemma_trimmed_subrange(s, lo + 2, stop);
        assert(is_title(title)) by {
            assert forall|i: int| 0 <= i < title.len() implies #[trigger] title[i] != '\n' by {
                let from = text::trim_start_index(s, lo + 2, stop);
                assert(title[i] == s[from + i]);
            }
        }
        let joined = phrase::joined(
            parse::lines_between(s, start, parse::next_title_line(s, start)),
            "\n"@,
        );
        text::lemma_trimmed_subrange(joined, 0, joined.len() as int);
        assert(joined.subrange(0, joined.len() as int) =~= joined);
        assert(text::is_trimmed(content));
        let node = NodeView { title, content, links: parse::links_of(content), depth: None };
        let after = before.push(node);
        assert forall|i: int| 0 <= i < after.len() implies text::is_trimmed(
            (#[trigger] after[i]).content,
        ) && after[i] == as_read(after[i]) && is_title(after[i].title) by {
            if i < before.len() {
                assert(after[i] == before[i]);
            }
        }
        assert forall|i: int, j: int|
            #![trigger after[i], after[j]]
            0 <= i < j < after.len() implies after[i].title != after[j].title by {
            assert(after[i] == before[i]);
            if j < before.len() {
                assert(after[j] == before[j]);
            } else {
                assert(before[i].title != title);
            }
        }
        lemma_nodes_valid(s, parse::next_title_line(s, start), after);
    }
}

/// The nodes that are read from a document have titles of their own, each one line that is not empty
/// and has no space at its ends. Their contents have no space at their ends, their links are those of
/// their contents, and they have no depths yet.
pub proof fn law_parsed_documents_are_valid(s: Seq<char>)
    requires
        parse::parsed(s) is Ok,
    ensures
        is_valid(parse::parsed(s)->Ok_0),
        ({
            let nodes = parse::parsed(s)->Ok_0;
            forall|i: int|
                0 <= i < nodes.len() ==> text::is_trimmed((#[trigger] nodes[i]).content) && nodes[i]
                    == as_read(nodes[i])
        }),
{
    parse::lemma_next_title_line(s, 0);
    lemma_nodes_valid(s, parse::next_title_line(s, 0), Seq::empty());
}

/// Rendering nodes that are in order already gives the same text.
proof fn lemma_rendering_again(nodes: Seq<NodeView>)
    ensures
        document::document_text(
            document::nodes_by_title(nodes).map_values(|node: NodeView| as_read(node)),
        ) == document::document_text(nodes),
{
    let keys = document::title_keys(nodes);
    let sorted = order::sort_order(keys);
    order::lemma_sort_order_sorts(keys);
    let ordered = document::nodes_by_title(nodes);
    let again = ordered.map_values(|node: NodeView| as_read(node));
    let later = document::title_keys(again);
    assert forall|i: int| 0 <= i < later.len() implies #[trigger] later[i] == keys[sorted[i]] by {
        assert(again[i] == as_read(ordered[i]));
        assert(0 <= sorted[i] < keys.len());
        assert(ordered[i] == nodes[sorted[i]]);
    }
    assert forall|i: int, j: int|
        #![trigger later[i], later[j]]
        0 <= i < j < later.len() implies !order::key_before(later[j], later[i]) by {
        if order::key_before(later[j], later[i]) {
            if order::key_before(keys[sorted[i]], keys[sorted[j]]) {
                order::lemma_key_order_transitive(later[j], later[i], later[j]);
            }
            order::lemma_key_order_irreflexive(later[j]);
        }
    }
    order::lemma_sort_order_of_sorted(later);
    assert(document::nodes_by_title(again) =~= again);
    assert(node_texts(again) =~= node_texts(ordered));
}

/// Formatting a document that has been formatted changes nothing.
pub proof fn law_document_formatting_is_stable(s: Seq<char>)
    requires
        parse::parsed(s) is Ok,
        all_settle(parse::parsed(s)->Ok_0),
    ensures
        ({
            let text = document::document_text(parse::parsed(s)->Ok_0);
            parse::parsed(text) is Ok && document::document_text(parse::parsed(text)->Ok_0) == text
        }),
{
    let nodes = parse::parsed(s)->Ok_0;
    law_parsed_documents_are_valid(s);
    law_documents_read_back(nodes);
    lemma_rendering_again(nodes);
}

} // verus!
