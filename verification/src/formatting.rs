//! What formatting keeps: reading a rendered wiki again gives the wiki that was rendered.

use vstd::prelude::*;

use crate::error::ErrorView;
use crate::order;
use crate::parser;
use crate::parser::Outline;
use crate::phrase;
use crate::rereading;
use crate::scoring;
use crate::text;
use crate::validator;
use crate::wiki;
use crate::wiki::LinkView;
use crate::wiki::NodeView;

verus! {

/// Whether a line that starts at an index starts a section of a source.
pub open spec fn is_section(s: Seq<char>, lo: int) -> bool {
    &&& 0 <= lo < s.len()
    &&& lo == 0 || s[lo - 1] == '\n'
    &&& parser::is_title_line(s, lo)
}

/// Whether the section that starts at an index has no errors but perhaps for a title that was used
/// before.
pub open spec fn is_clean_section(path: Option<Seq<char>>, s: Seq<char>, lo: int) -> bool {
    &&& is_section(s, lo)
    &&& parser::title_error(path, s, lo) is None
    &&& parser::content_errors(
        path,
        s,
        parser::content_start(s, lo),
        parser::content_end(s, lo),
    ).len() == 0
}

/// Whether a node was read from a section without errors.
pub open spec fn is_read_from(path: Option<Seq<char>>, s: Seq<char>, node: NodeView) -> bool {
    exists|lo: int| #[trigger] is_clean_section(path, s, lo) && node == parser::node_at(s, lo)
}

/// Whether a text can be the title of a node: it is one line that is not empty, has no space at its
/// ends and does not start like a filesystem link.
pub open spec fn is_title(title: Seq<char>) -> bool {
    &&& title.len() > 0
    &&& text::is_trimmed(title)
    &&& forall|i: int| 0 <= i < title.len() ==> #[trigger] title[i] != '\n'
    &&& !text::starts_with(title, "file:"@)
    &&& !text::starts_with(title, "dir:"@)
    &&& !text::starts_with(title, "/"@)
}

/// The next title line after the start of a line starts a section, if there is one.
pub proof fn lemma_next_section(s: Seq<char>, lo: int)
    requires
        0 <= lo <= s.len(),
        lo == 0 || lo == s.len() || s[lo - 1] == '\n',
    ensures
        lo <= parser::next_title_line(s, lo) <= s.len(),
        parser::next_title_line(s, lo) < s.len() ==> is_section(s, parser::next_title_line(s, lo)),
    decreases s.len() - lo,
{
    if lo < s.len() && !parser::is_title_line(s, lo) {
        text::lemma_line_end(s, lo);
        lemma_next_section(s, parser::next_line(s, lo));
    }
}

/// The nodes of a source without errors were read from its sections, and no two have the same title.
pub proof fn lemma_outline(path: Option<Seq<char>>, s: Seq<char>, lo: int, before: Outline)
    requires
        lo == s.len() || is_section(s, lo),
        parser::outline_from(path, s, lo, before).errors.len() == 0,
        wiki::titles_distinct(before.nodes),
        forall|i: int|
            0 <= i < before.nodes.len() ==> is_read_from(path, s, #[trigger] before.nodes[i]),
    ensures
        before.errors.len() == 0,
        ({
            let nodes = parser::outline_from(path, s, lo, before).nodes;
            &&& wiki::titles_distinct(nodes)
            &&& forall|i: int| 0 <= i < nodes.len() ==> is_read_from(path, s, #[trigger] nodes[i])
        }),
    decreases s.len() - lo,
{
    if lo < s.len() {
        text::lemma_line_end(s, lo);
        let next = parser::next_line(s, lo);
        lemma_next_section(s, next);
        let after = parser::with_section(path, s, lo, before);
        let errors = parser::node_errors(path, s, lo, before.nodes);
        let node = parser::node_at(s, lo);
        if parser::title_error(path, s, lo) is None && errors.len() == 0 {
            assert(is_clean_section(path, s, lo));
            assert(is_read_from(path, s, node));
            assert(after.nodes == before.nodes.push(node));
            assert forall|i: int| 0 <= i < after.nodes.len() implies is_read_from(
                path,
                s,
                #[trigger] after.nodes[i],
            ) by {
                if i < before.nodes.len() {
                    assert(after.nodes[i] == before.nodes[i]);
                }
            }
            assert forall|i: int, j: int|
                #![trigger after.nodes[i], after.nodes[j]]
                0 <= i < j < after.nodes.len() implies after.nodes[i].title
                != after.nodes[j].title by {
                assert(after.nodes[i] == before.nodes[i]);
                if j < before.nodes.len() {
                    assert(after.nodes[j] == before.nodes[j]);
                }
            }
        }
        lemma_outline(path, s, parser::next_title_line(s, next), after);
    }
}

/// The title and the content of a section without errors.
pub proof fn lemma_section(path: Option<Seq<char>>, s: Seq<char>, lo: int)
    requires
        is_clean_section(path, s, lo),
    ensures
        is_title(parser::title_of(s, lo)),
        ({
            let start = parser::content_start(s, lo);
            let end = parser::content_end(s, lo);
            &&& 0 <= start <= end <= s.len()
            &&& text::is_trimmed(s.subrange(start, end))
            &&& parser::content_errors(None, s, start, end).len() == 0
            &&& text::is_trimmed(parser::content_text(s, start, end))
            &&& rereading::has_trimmed_lines(parser::content_text(s, start, end))
        }),
{
    reveal_strlit("#");
    reveal_strlit("# ");
    text::lemma_line_end(s, lo);
    let stop = parser::line_stop(s, lo);
    let line = s.subrange(lo, stop);
    if text::starts_with(line, "# "@) {
        assert(line.len() >= 2);
    } else {
        assert(line.len() == 1);
    }
    let raw = parser::raw_title_start(s, lo);
    text::lemma_trimmed_subrange(s, raw, stop);
    let title = parser::title_of(s, lo);
    assert forall|i: int| 0 <= i < title.len() implies #[trigger] title[i] != '\n' by {
        assert(title[i] == s[parser::title_start(s, lo) + i]);
    }
    let next = parser::next_line(s, lo);
    lemma_next_section(s, next);
    let hi = parser::next_title_line(s, next);
    text::lemma_trimmed_subrange(s, next, hi);
    let start = parser::content_start(s, lo);
    let end = parser::content_end(s, lo);
    rereading::lemma_clean_anywhere(path, s, start, end);
    rereading::lemma_content_trimmed(s, start, end);
    rereading::lemma_content_lines(s, start, end);
}

/// The titles of a parsed wiki are distinct, each is one line that is not empty, has no space at its
/// ends and does not start like a filesystem link, and no content has space at its ends or at the end
/// of a line.
pub proof fn law_parsed_wikis_are_valid(path: Option<Seq<char>>, s: Seq<char>, nodes: Seq<NodeView>)
    requires
        parser::parsed(path, s) == Ok::<Seq<NodeView>, Seq<ErrorView>>(nodes),
    ensures
        wiki::titles_distinct(nodes),
        forall|i: int|
            0 <= i < nodes.len() ==> is_title((#[trigger] nodes[i]).title) && text::is_trimmed(
                nodes[i].content,
            ) && rereading::has_trimmed_lines(nodes[i].content),
{
    lemma_next_section(s, 0);
    let first = parser::next_title_line(s, 0);
    let before = Outline { nodes: Seq::empty(), errors: parser::stray_errors(path, s) };
    lemma_outline(path, s, first, before);
    let found = parser::outline(path, s).nodes;
    assert(nodes == scoring::scored(found));
    assert forall|i: int| 0 <= i < nodes.len() implies is_title((#[trigger] nodes[i]).title)
        && text::is_trimmed(nodes[i].content) && rereading::has_trimmed_lines(
        nodes[i].content,
    ) by {
        assert(is_read_from(path, s, found[i]));
        let lo = choose|lo: int| #[trigger] is_clean_section(path, s, lo) && found[i]
            == parser::node_at(s, lo);
        lemma_section(path, s, lo);
    }
    assert forall|i: int, j: int|
        #![trigger nodes[i], nodes[j]]
        0 <= i < j < nodes.len() implies nodes[i].title != nodes[j].title by {
        assert(found[i].title != found[j].title);
    }
}

pub proof fn lemma_line_end_at(s: Seq<char>, lo: int, end: int)
    requires
        0 <= lo <= end <= s.len(),
        forall|i: int| lo <= i < end ==> #[trigger] s[i] != '\n',
        end == s.len() || s[end] == '\n',
    ensures
        text::line_end(s, lo) == end,
    decreases end - lo,
{
    if lo < end {
        lemma_line_end_at(s, lo + 1, end);
    }
}

pub proof fn lemma_trim_start_at(s: Seq<char>, lo: int, hi: int, at: int)
    requires
        0 <= lo <= at <= hi <= s.len(),
        forall|i: int| lo <= i < at ==> text::white_space(#[trigger] s[i]),
        at == hi || !text::white_space(s[at]),
    ensures
        text::trim_start_index(s, lo, hi) == at,
    decreases at - lo,
{
    if lo < at {
        lemma_trim_start_at(s, lo + 1, hi, at);
    }
}

pub proof fn lemma_trim_end_at(s: Seq<char>, lo: int, hi: int, at: int)
    requires
        0 <= lo <= at <= hi <= s.len(),
        forall|i: int| at <= i < hi ==> text::white_space(#[trigger] s[i]),
        at == lo || !text::white_space(s[at - 1]),
    ensures
        text::trim_end_index(s, lo, hi) == at,
    decreases hi - at,
{
    if at < hi {
        lemma_trim_end_at(s, lo, hi - 1, at);
    }
}

/// Whether the text of a node stands at an index, and an empty line and another section follow it
/// unless the source ends there.
pub open spec fn is_block(r: Seq<char>, at: int, title: Seq<char>, content: Seq<char>) -> bool {
    let block = wiki::node_text(title, content);
    let end = at + block.len();
    &&& 0 <= at
    &&& end <= r.len()
    &&& r.subrange(at, end) == block
    &&& end == r.len() || r[end] == '\n' && is_section(r, end + 1)
}

/// The index at which what follows the text of a node starts.
pub open spec fn block_next(r: Seq<char>, at: int, title: Seq<char>, content: Seq<char>) -> int {
    let end = at + wiki::node_text(title, content).len();
    if end == r.len() {
        end
    } else {
        end + 1
    }
}

/// The characters of the text of a node that stands at an index.
pub proof fn lemma_block_chars(r: Seq<char>, at: int, title: Seq<char>, content: Seq<char>)
    requires
        0 <= at,
        at + wiki::node_text(title, content).len() <= r.len(),
        r.subrange(at, at + wiki::node_text(title, content).len()) == wiki::node_text(
            title,
            content,
        ),
    ensures
        r[at] == '#',
        r[at + 1] == ' ',
        forall|i: int|
            at + 2 <= i < at + 2 + title.len() ==> #[trigger] r[i] == title[i - (at + 2)],
        r[at + 2 + title.len()] == '\n',
        ({
            let from = at + 4 + title.len();
            let end = at + wiki::node_text(title, content).len();
            if content.len() == 0 {
                end == at + 3 + title.len()
            } else {
                &&& end == from + content.len() + 1
                &&& r[from - 1] == '\n'
                &&& forall|i: int|
                    from <= i < from + content.len() ==> #[trigger] r[i] == content[i - from]
                &&& r[end - 1] == '\n'
            }
        }),
{
    reveal_strlit("# ");
    reveal_strlit("\n");
    reveal_strlit("\n\n");
    let block = wiki::node_text(title, content);
    let end = at + block.len();
    assert forall|i: int| at <= i < end implies #[trigger] r[i] == block[i - at] by {
        assert(r.subrange(at, end)[i - at] == r[i]);
    }
    assert(r[at] == block[0]);
    assert(r[at + 1] == block[1]);
    assert(r[at + 2 + title.len()] == block[2 + title.len() as int]);
    if content.len() > 0 {
        assert(r[at + 3 + title.len()] == block[3 + title.len() as int]);
        assert(r[end - 1] == block[block.len() - 1]);
    }
}

/// A block starts a section with the title of its node.
pub proof fn lemma_block_title(
    path: Option<Seq<char>>,
    r: Seq<char>,
    at: int,
    title: Seq<char>,
    content: Seq<char>,
)
    requires
        is_block(r, at, title, content),
        is_title(title),
    ensures
        at < r.len(),
        parser::is_title_line(r, at),
        parser::title_of(r, at) == title,
        parser::title_error(path, r, at) is None,
        parser::next_line(r, at) == at + 3 + title.len(),
{
    reveal_strlit("# ");
    lemma_block_chars(r, at, title, content);
    let stop = at + 2 + title.len();
    assert forall|i: int| at <= i < stop implies #[trigger] r[i] != '\n' by {
        if i >= at + 2 {
            assert(title[i - (at + 2)] != '\n');
        }
    }
    lemma_line_end_at(r, at, stop);
    assert(r[at + 2] == title[0]);
    assert(r[stop - 1] == title.last());
    assert(parser::line_stop(r, at) == stop);
    let line = r.subrange(at, stop);
    assert(line.subrange(0, 2) =~= "# "@);
    assert(text::starts_with(line, "# "@));
    lemma_trim_start_at(r, at + 2, stop, at + 2);
    lemma_trim_end_at(r, at + 2, stop, stop);
    assert(r.subrange(at + 2, stop) =~= title);
}

/// Where no line of a content is a title line, none is where the content stands in another text.
proof fn lemma_no_title_line(r: Seq<char>, from: int, content: Seq<char>, lo: int)
    requires
        0 <= from,
        0 <= lo < content.len(),
        from + content.len() < r.len(),
        forall|i: int| from <= i < from + content.len() ==> #[trigger] r[i] == content[i - from],
        r[from + content.len()] == '\n',
        text::is_trimmed(content),
        parser::next_title_line(content, lo) == content.len(),
    ensures
        parser::next_title_line(r, from + lo) == parser::next_title_line(
            r,
            from + content.len() + 1,
        ),
    decreases content.len() - lo,
{
    let n = content.len() as int;
    let end = text::line_end(content, lo);
    text::lemma_line_end(content, lo);
    assert forall|i: int| from + lo <= i < from + end implies #[trigger] r[i] != '\n' by {
        assert(content[i - from] != '\n');
    }
    if end < n {
        assert(r[from + end] == content[end]);
    }
    lemma_line_end_at(r, from + lo, from + end);
    if end > lo {
        assert(r[from + end - 1] == content[end - 1]);
    }
    assert(parser::line_stop(r, from + lo) == from + parser::line_stop(content, lo));
    assert(r.subrange(from + lo, parser::line_stop(r, from + lo)) =~= content.subrange(
        lo,
        parser::line_stop(content, lo),
    ));
    assert(!parser::is_title_line(r, from + lo));
    if end < n {
        if end + 1 == n {
            assert(content.last() == '\n');
        }
        lemma_no_title_line(r, from, content, end + 1);
    }
}

/// The section that a block starts ends where the block does.
proof fn lemma_block_end(r: Seq<char>, at: int, title: Seq<char>, content: Seq<char>)
    requires
        is_block(r, at, title, content),
        text::is_trimmed(content),
        parser::next_title_line(content, 0) == content.len(),
    ensures
        parser::next_title_line(r, at + 3 + title.len()) == block_next(r, at, title, content),
{
    reveal_strlit("#");
    reveal_strlit("# ");
    lemma_block_chars(r, at, title, content);
    let end = at + wiki::node_text(title, content).len();
    let first = at + 3 + title.len();
    if end < r.len() {
        lemma_line_end_at(r, end, end);
        assert(r.subrange(end, end).len() == 0);
        assert(!parser::is_title_line(r, end));
        assert(parser::next_title_line(r, end) == parser::next_title_line(r, end + 1));
        assert(parser::next_title_line(r, end + 1) == end + 1);
    }
    assert(parser::next_title_line(r, end) == block_next(r, at, title, content));
    if content.len() > 0 {
        lemma_line_end_at(r, first, first);
        assert(r.subrange(first, first).len() == 0);
        assert(!parser::is_title_line(r, first));
        assert(parser::next_title_line(r, first) == parser::next_title_line(r, first + 1));
        lemma_no_title_line(r, first + 1, content, 0);
    }
}

/// Two nodes with the same title, the same content and the same links but for their places.
pub open spec fn says_the_same(a: NodeView, b: NodeView) -> bool {
    &&& a.title == b.title
    &&& a.content == b.content
    &&& rereading::all_unplaced(a.links) == rereading::all_unplaced(b.links)
}

/// The section that a block starts has the content and the links of its node.
pub proof fn lemma_block_content(path: Option<Seq<char>>, r: Seq<char>, at: int, node: NodeView)
    requires
        is_block(r, at, node.title, node.content),
        is_title(node.title),
        rereading::is_settled(node.content, node.links),
    ensures
        parser::next_title_line(r, parser::next_line(r, at)) == block_next(
            r,
            at,
            node.title,
            node.content,
        ),
        parser::content_errors(
            path,
            r,
            parser::content_start(r, at),
            parser::content_end(r, at),
        ).len() == 0,
        says_the_same(parser::node_at(r, at), node),
{
    let title = node.title;
    let content = node.content;
    let n = content.len() as int;
    let first = at + 3 + title.len();
    let hi = block_next(r, at, title, content);
    let end = at + wiki::node_text(title, content).len();
    lemma_block_title(path, r, at, title, content);
    lemma_block_end(r, at, title, content);
    lemma_block_chars(r, at, title, content);
    let from = if n == 0 {
        hi
    } else {
        first + 1
    };
    assert forall|i: int| end <= i < hi implies text::white_space(#[trigger] r[i]) by {}
    if n > 0 {
        assert(r[from] == content[0]);
        assert(r[from + n - 1] == content.last());
    }
    lemma_trim_start_at(r, first, hi, from);
    lemma_trim_end_at(r, from, hi, from + n);
    assert(parser::content_start(r, at) == from);
    assert(parser::content_end(r, at) == from + n);
    assert forall|k: int| 0 <= k < n implies content[0 + k] == #[trigger] r[from + k] by {}
    rereading::lemma_content_shift(content, 0, r, from, n);
    rereading::lemma_scan_shift(content, 0, r, from, n);
    rereading::lemma_clean_anywhere(path, r, from, from + n);
    let ps = parser::prose_start(content, 0, n);
    let rest = content.subrange(ps, n);
    assert(rest =~= r.subrange(from + ps, from + n)) by {
        assert forall|k: int| 0 <= k < rest.len() implies rest[k] == r[from + ps + k] by {
            assert(content[0 + (ps + k)] == r[from + (ps + k)]);
        }
    }
    assert(parser::content_text(r, from, from + n) == content);
}

/// Where an item of joined texts starts.
pub open spec fn start_of(items: Seq<Seq<char>>, k: int) -> int
    decreases k,
{
    if k <= 0 {
        0
    } else {
        start_of(items, k - 1) + items[k - 1].len() + 1
    }
}

proof fn lemma_start_of_front(items: Seq<Seq<char>>, k: int)
    requires
        0 <= k < items.len(),
    ensures
        start_of(items.drop_last(), k) == start_of(items, k),
    decreases k,
{
    if k > 0 {
        lemma_start_of_front(items, k - 1);
    }
}

/// Joined texts hold each item, followed by a line feed unless it is the last.
pub proof fn lemma_joined(items: Seq<Seq<char>>, k: int)
    requires
        0 <= k < items.len(),
    ensures
        ({
            let r = phrase::joined(items, "\n"@);
            let start = start_of(items, k);
            let end = start + items[k].len();
            &&& 0 <= start
            &&& end <= r.len()
            &&& r.subrange(start, end) == items[k]
            &&& k == items.len() - 1 ==> end == r.len()
            &&& k < items.len() - 1 ==> end < r.len() && r[end] == '\n'
        }),
    decreases items.len(),
{
    reveal_strlit("\n");
    let r = phrase::joined(items, "\n"@);
    if items.len() == 1 {
        assert(r.subrange(0, r.len() as int) =~= r);
    } else {
        let front = items.drop_last();
        let before = phrase::joined(front, "\n"@);
        assert(r == before + "\n"@ + items.last());
        let start = start_of(items, k);
        let end = start + items[k].len();
        if k < items.len() - 1 {
            lemma_joined(front, k);
            lemma_start_of_front(items, k);
            assert(front[k] == items[k]);
            assert(r.subrange(start, end) =~= before.subrange(start, end));
        } else {
            lemma_joined(front, k - 1);
            lemma_start_of_front(items, k - 1);
            assert(front[k - 1] == items[k - 1]);
            assert(start == before.len() + 1);
            assert(r.subrange(start, end) =~= items.last());
        }
    }
}

/// The texts of nodes.
spec fn node_texts(nodes: Seq<NodeView>) -> Seq<Seq<char>> {
    nodes.map_values(|node: NodeView| wiki::node_text(node.title, node.content))
}

/// Whether a node reads back as it is once it has been rendered.
spec fn is_lasting(node: NodeView) -> bool {
    is_title(node.title) && rereading::is_settled(node.content, node.links)
}

/// The text of nodes one after the other, with an empty line between two nodes.
spec fn rendered(nodes: Seq<NodeView>) -> Seq<char> {
    phrase::joined(node_texts(nodes), "\n"@)
}

/// Where a node of a rendered text starts, or the end of that text after the last node.
spec fn block_start(nodes: Seq<NodeView>, k: int) -> int {
    if k < nodes.len() {
        start_of(node_texts(nodes), k)
    } else {
        rendered(nodes).len() as int
    }
}

/// Rendered nodes are blocks.
proof fn lemma_rendered_block(nodes: Seq<NodeView>, k: int)
    requires
        0 <= k < nodes.len(),
        forall|i: int| 0 <= i < nodes.len() ==> is_lasting(#[trigger] nodes[i]),
    ensures
        is_block(rendered(nodes), block_start(nodes, k), nodes[k].title, nodes[k].content),
        block_next(rendered(nodes), block_start(nodes, k), nodes[k].title, nodes[k].content)
            == block_start(nodes, k + 1),
        is_section(rendered(nodes), block_start(nodes, k)),
    decreases nodes.len() - k,
{
    let items = node_texts(nodes);
    let r = rendered(nodes);
    let at = block_start(nodes, k);
    lemma_joined(items, k);
    assert(is_lasting(nodes[k]));
    if k + 1 < nodes.len() {
        lemma_rendered_block(nodes, k + 1);
    }
    assert(is_block(r, at, nodes[k].title, nodes[k].content));
    lemma_block_title(None, r, at, nodes[k].title, nodes[k].content);
    if k > 0 {
        lemma_joined(items, k - 1);
    }
}

/// Reading a rendered node again adds the same node.
proof fn lemma_rendered_section(
    path: Option<Seq<char>>,
    nodes: Seq<NodeView>,
    k: int,
    before: Outline,
)
    requires
        0 <= k < nodes.len(),
        forall|i: int| 0 <= i < nodes.len() ==> is_lasting(#[trigger] nodes[i]),
        !wiki::has_title(before.nodes, nodes[k].title),
    ensures
        ({
            let r = rendered(nodes);
            let at = block_start(nodes, k);
            &&& 0 <= at < r.len()
            &&& parser::next_title_line(r, parser::next_line(r, at)) == block_start(nodes, k + 1)
            &&& says_the_same(parser::node_at(r, at), nodes[k])
            &&& parser::with_section(path, r, at, before) == Outline {
                nodes: before.nodes.push(parser::node_at(r, at)),
                errors: before.errors,
            }
        }),
{
    let r = rendered(nodes);
    let at = block_start(nodes, k);
    lemma_rendered_block(nodes, k);
    assert(is_lasting(nodes[k]));
    lemma_block_title(path, r, at, nodes[k].title, nodes[k].content);
    lemma_block_content(path, r, at, nodes[k]);
}

/// Reading rendered nodes again gives the same nodes in the same order.
proof fn lemma_rendered_outline(
    path: Option<Seq<char>>,
    nodes: Seq<NodeView>,
    k: int,
    before: Outline,
)
    requires
        0 <= k <= nodes.len(),
        forall|i: int| 0 <= i < nodes.len() ==> is_lasting(#[trigger] nodes[i]),
        wiki::titles_distinct(nodes),
        before.errors.len() == 0,
        before.nodes.len() == k,
        forall|i: int| 0 <= i < k ==> says_the_same(#[trigger] before.nodes[i], nodes[i]),
    ensures
        ({
            let after = parser::outline_from(path, rendered(nodes), block_start(nodes, k), before);
            &&& after.errors.len() == 0
            &&& after.nodes.len() == nodes.len()
            &&& forall|i: int|
                0 <= i < nodes.len() ==> says_the_same(#[trigger] after.nodes[i], nodes[i])
        }),
    decreases nodes.len() - k,
{
    if k < nodes.len() {
        assert(!wiki::has_title(before.nodes, nodes[k].title)) by {
            assert forall|i: int| 0 <= i < before.nodes.len() implies #[trigger] before.nodes[i].title
                != nodes[k].title by {
                assert(says_the_same(before.nodes[i], nodes[i]));
            }
        }
        lemma_rendered_section(path, nodes, k, before);
        let after = parser::with_section(path, rendered(nodes), block_start(nodes, k), before);
        assert forall|i: int| 0 <= i < k + 1 implies says_the_same(
            #[trigger] after.nodes[i],
            nodes[i],
        ) by {
            if i < k {
                assert(after.nodes[i] == before.nodes[i]);
            }
        }
        lemma_rendered_outline(path, nodes, k + 1, after);
    }
}

/// Whether the nodes of one wiki are those of another in a given order, but for their contents and
/// the places of their links.
pub open spec fn is_rearranged(a: Seq<NodeView>, b: Seq<NodeView>, order: Seq<int>) -> bool {
    &&& a.len() == b.len()
    &&& order::is_permutation(order, b.len())
    &&& forall|i: int|
        0 <= i < a.len() ==> {
            &&& (#[trigger] a[i]).title == b[order[i]].title
            &&& rereading::all_unplaced(a[i].links) == rereading::all_unplaced(b[order[i]].links)
        }
}

proof fn lemma_rearranged_position(
    a: Seq<NodeView>,
    b: Seq<NodeView>,
    order: Seq<int>,
    title: Seq<char>,
    i: int,
)
    requires
        is_rearranged(a, b, order),
        wiki::titles_distinct(b),
        0 <= i < a.len(),
    ensures
        wiki::position_of(a, title) == Some(i) <==> wiki::position_of(b, title) == Some(order[i]),
{
    assert(wiki::titles_distinct(a)) by {
        assert forall|x: int, y: int|
            #![trigger a[x], a[y]]
            0 <= x < y < a.len() implies a[x].title != a[y].title by {
            assert(order[x] != order[y]);
            assert(b[order[x]].title != b[order[y]].title);
        }
    }
    wiki::lemma_position_of(a, title);
    wiki::lemma_position_of(b, title);
    assert(a[i].title == b[order[i]].title);
    if wiki::position_of(a, title) == Some(i) {
        wiki::lemma_position_of_distinct(b, order[i]);
    }
    if wiki::position_of(b, title) == Some(order[i]) {
        wiki::lemma_position_of_distinct(a, i);
    }
}

proof fn lemma_rearranged_link(
    a: Seq<NodeView>,
    b: Seq<NodeView>,
    order: Seq<int>,
    i: int,
    j: int,
)
    requires
        is_rearranged(a, b, order),
        wiki::titles_distinct(b),
        0 <= i < a.len(),
        0 <= j < a.len(),
    ensures
        scoring::leads_to(a, i, j) <==> scoring::leads_to(b, order[i], order[j]),
{
    let mine = a[i].links;
    let yours = b[order[i]].links;
    let plain = rereading::all_unplaced(mine);
    assert(plain == rereading::all_unplaced(yours));
    assert(mine.len() == plain.len() && yours.len() == plain.len());
    assert forall|k: int| 0 <= k < mine.len() implies scoring::link_leads_to(
        a,
        #[trigger] mine[k],
        j,
    ) == scoring::link_leads_to(b, yours[k], order[j]) by {
        assert(plain[k] == rereading::unplaced(mine[k]));
        assert(plain[k] == rereading::unplaced(yours[k]));
        if let LinkView::Text { title, span } = mine[k] {
            lemma_rearranged_position(a, b, order, title, j);
        }
    }
    if scoring::leads_to(a, i, j) {
        let k = choose|k: int|
            0 <= k < a[i].links.len() && scoring::link_leads_to(a, #[trigger] a[i].links[k], j);
        assert(scoring::link_leads_to(a, mine[k], j));
        assert(scoring::link_leads_to(b, b[order[i]].links[k], order[j]));
    }
    if scoring::leads_to(b, order[i], order[j]) {
        let k = choose|k: int|
            0 <= k < b[order[i]].links.len() && scoring::link_leads_to(
                b,
                #[trigger] b[order[i]].links[k],
                order[j],
            );
        assert(scoring::link_leads_to(a, mine[k], j));
        assert(scoring::link_leads_to(a, a[i].links[k], j));
    }
}

proof fn lemma_rearranged_walk(
    a: Seq<NodeView>,
    b: Seq<NodeView>,
    order: Seq<int>,
    length: nat,
    j: int,
)
    requires
        is_rearranged(a, b, order),
        wiki::titles_distinct(b),
        0 <= j < a.len(),
    ensures
        scoring::walk(a, length, j) <==> scoring::walk(b, length, order[j]),
    decreases length,
{
    if length == 0 {
        lemma_rearranged_position(a, b, order, "Home"@, j);
    } else {
        let less = (length - 1) as nat;
        if scoring::walk(a, length, j) {
            let i = choose|i: int|
                0 <= i < a.len() && scoring::walk(a, less, i) && #[trigger] scoring::leads_to(
                    a,
                    i,
                    j,
                );
            lemma_rearranged_walk(a, b, order, less, i);
            lemma_rearranged_link(a, b, order, i, j);
            assert(scoring::leads_to(b, order[i], order[j]));
        }
        if scoring::walk(b, length, order[j]) {
            let other = choose|i: int|
                0 <= i < b.len() && scoring::walk(b, less, i) && #[trigger] scoring::leads_to(
                    b,
                    i,
                    order[j],
                );
            assert(order.contains(other));
            let i = choose|i: int| 0 <= i < order.len() && order[i] == other;
            lemma_rearranged_walk(a, b, order, less, i);
            lemma_rearranged_link(a, b, order, i, j);
            assert(scoring::leads_to(a, i, j));
        }
    }
}

/// The depth of a node depends neither on the order of the nodes nor on their contents nor on where
/// links stand in the source.
pub proof fn law_scoring_ignores_order(
    a: Seq<NodeView>,
    b: Seq<NodeView>,
    order: Seq<int>,
    i: int,
)
    requires
        is_rearranged(a, b, order),
        wiki::titles_distinct(b),
        0 <= i < a.len(),
    ensures
        scoring::scored(a)[i].depth == scoring::scored(b)[order[i]].depth,
{
    scoring::law_depth_is_distance(a, i);
    let depth = scoring::scored(a)[i].depth;
    let j = order[i];
    assert forall|k: nat| #[trigger] scoring::walk(b, k, j) == scoring::walk(a, k, i) by {
        lemma_rearranged_walk(a, b, order, k, i);
    }
    assert(scoring::is_distance(b, j, depth)) by {
        match depth {
            Some(d) => {
                assert(scoring::walk(b, d, j));
                assert forall|k: nat| #[trigger] scoring::walk(b, k, j) implies d <= k by {
                    assert(scoring::walk(a, k, i));
                }
            },
            None => {
                assert forall|k: nat| !#[trigger] scoring::walk(b, k, j) by {
                    assert(!scoring::walk(a, k, i));
                }
            },
        }
    }
    scoring::lemma_distance_unique(b, j, depth);
}

/// Whether the contents of all sections stay what they are once they have been formatted.
pub open spec fn all_settle(s: Seq<char>) -> bool {
    forall|lo: int| #[trigger]
        is_section(s, lo) ==> rereading::settles(
            s,
            parser::content_start(s, lo),
            parser::content_end(s, lo),
        )
}

/// The nodes of a source whose contents settle last.
proof fn lemma_nodes_last(path: Option<Seq<char>>, s: Seq<char>)
    requires
        parser::outline(path, s).errors.len() == 0,
        all_settle(s),
    ensures
        wiki::titles_distinct(parser::outline(path, s).nodes),
        forall|i: int|
            0 <= i < parser::outline(path, s).nodes.len() ==> is_lasting(
                #[trigger] parser::outline(path, s).nodes[i],
            ),
{
    lemma_next_section(s, 0);
    let before = Outline { nodes: Seq::empty(), errors: parser::stray_errors(path, s) };
    lemma_outline(path, s, parser::next_title_line(s, 0), before);
    let found = parser::outline(path, s).nodes;
    assert forall|i: int| 0 <= i < found.len() implies is_lasting(#[trigger] found[i]) by {
        assert(is_read_from(path, s, found[i]));
        let lo = choose|lo: int| #[trigger] is_clean_section(path, s, lo) && found[i]
            == parser::node_at(s, lo);
        lemma_section(path, s, lo);
        assert(is_section(s, lo));
        rereading::lemma_content_settles(
            s,
            parser::content_start(s, lo),
            parser::content_end(s, lo),
        );
    }
}

/// Reading rendered nodes again.
proof fn lemma_rendered_parsed(path: Option<Seq<char>>, nodes: Seq<NodeView>)
    requires
        forall|i: int| 0 <= i < nodes.len() ==> is_lasting(#[trigger] nodes[i]),
        wiki::titles_distinct(nodes),
    ensures
        ({
            let after = parser::outline(path, rendered(nodes));
            &&& after.errors.len() == 0
            &&& after.nodes.len() == nodes.len()
            &&& forall|i: int|
                0 <= i < nodes.len() ==> says_the_same(#[trigger] after.nodes[i], nodes[i])
        }),
{
    let r = rendered(nodes);
    if nodes.len() > 0 {
        lemma_rendered_block(nodes, 0);
    } else {
        assert(r =~= Seq::<char>::empty());
    }
    assert(parser::next_title_line(r, 0) == 0);
    assert(block_start(nodes, 0) == 0);
    let before = Outline { nodes: Seq::empty(), errors: parser::stray_errors(path, r) };
    assert(before.errors.len() == 0);
    lemma_rendered_outline(path, nodes, 0, before);
}

/// Formatting is stable: the rendered text of a parsed wiki whose contents settle parses without
/// errors, to the same nodes in rendered order with the same contents, links and depths, and
/// rendering those again gives the same text. The source may have another name when it is read
/// again.
pub proof fn law_formatting_is_stable(
    path: Option<Seq<char>>,
    s: Seq<char>,
    nodes: Seq<NodeView>,
    other: Option<Seq<char>>,
)
    requires
        parser::parsed(path, s) == Ok::<Seq<NodeView>, Seq<ErrorView>>(nodes),
        all_settle(s),
    ensures
        parser::parsed(other, wiki::wiki_text(nodes)) is Ok,
        ({
            let again = parser::parsed(other, wiki::wiki_text(nodes))->Ok_0;
            &&& says_in_order(again, nodes)
            &&& wiki::wiki_text(again) == wiki::wiki_text(nodes)
        }),
{
    let found = parser::outline(path, s).nodes;
    assert(nodes == scoring::scored(found));
    lemma_nodes_last(path, s);
    let keys = wiki::node_keys(nodes);
    let sorted = order::sort_order(keys);
    order::lemma_sort_order_sorts(keys);
    let ordered = wiki::nodes_in_order(nodes);
    assert forall|i: int| 0 <= i < ordered.len() implies is_lasting(#[trigger] ordered[i])
        && ordered[i] == nodes[sorted[i]] by {
        assert(0 <= sorted[i] < keys.len());
        assert(is_lasting(found[sorted[i]]));
    }
    assert forall|i: int, j: int|
        #![trigger ordered[i], ordered[j]]
        0 <= i < j < ordered.len() implies ordered[i].title != ordered[j].title by {
        order::lemma_sort_order_distinct(keys, sorted, i, j);
        assert(found[sorted[i]].title != found[sorted[j]].title);
    }
    let r = rendered(ordered);
    assert(wiki::wiki_text(nodes) == r) by {
        assert(ordered.map_values(|node: NodeView| wiki::node_text(node.title, node.content))
            =~= node_texts(ordered));
    }
    lemma_rendered_parsed(other, ordered);
    let reread = parser::outline(other, r).nodes;
    let again = parser::parsed(other, r)->Ok_0;
    assert(again == scoring::scored(reread));
    lemma_reread_rearranged(found, nodes, reread, sorted);
    assert forall|i: int| 0 <= i < again.len() implies says_the_same(#[trigger] again[i], ordered[i])
        && again[i].depth == ordered[i].depth by {
        assert(says_the_same(reread[i], ordered[i]));
        law_scoring_ignores_order(reread, found, sorted, i);
    }
    lemma_rendering_again(nodes, again);
}

/// Nodes that were read again are a rearrangement of the nodes that were rendered.
proof fn lemma_reread_rearranged(
    found: Seq<NodeView>,
    nodes: Seq<NodeView>,
    reread: Seq<NodeView>,
    sorted: Seq<int>,
)
    requires
        nodes == scoring::scored(found),
        sorted == order::sort_order(wiki::node_keys(nodes)),
        reread.len() == nodes.len(),
        forall|i: int|
            0 <= i < reread.len() ==> says_the_same(
                #[trigger] reread[i],
                wiki::nodes_in_order(nodes)[i],
            ),
    ensures
        is_rearranged(reread, found, sorted),
{
    let keys = wiki::node_keys(nodes);
    order::lemma_sort_order_permutes(keys);
    assert forall|i: int| 0 <= i < reread.len() implies (#[trigger] reread[i]).title
        == found[sorted[i]].title && rereading::all_unplaced(reread[i].links)
        == rereading::all_unplaced(found[sorted[i]].links) by {
        assert(says_the_same(reread[i], wiki::nodes_in_order(nodes)[i]));
        assert(0 <= sorted[i] < keys.len());
        assert(wiki::nodes_in_order(nodes)[i] == nodes[sorted[i]]);
    }
}

/// Whether nodes say the same as the nodes of another wiki in rendered order, at the same depths.
pub open spec fn says_in_order(again: Seq<NodeView>, nodes: Seq<NodeView>) -> bool {
    let ordered = wiki::nodes_in_order(nodes);
    &&& again.len() == ordered.len()
    &&& forall|i: int|
        0 <= i < again.len() ==> says_the_same(#[trigger] again[i], ordered[i]) && again[i].depth
            == ordered[i].depth
}

/// Every node says the same as one of the nodes that were put in order.
proof fn lemma_said_in_order(again: Seq<NodeView>, nodes: Seq<NodeView>, i: int) -> (j: int)
    requires
        says_in_order(again, nodes),
        0 <= i < again.len(),
    ensures
        0 <= j < nodes.len(),
        says_the_same(again[i], nodes[j]),
        again[i].depth == nodes[j].depth,
{
    let keys = wiki::node_keys(nodes);
    let sorted = order::sort_order(keys);
    order::lemma_sort_order_sorts(keys);
    assert(says_the_same(again[i], wiki::nodes_in_order(nodes)[i]));
    assert(0 <= sorted[i] < keys.len());
    sorted[i]
}

/// Every title is kept.
proof fn lemma_titles_in_order(again: Seq<NodeView>, nodes: Seq<NodeView>, title: Seq<char>)
    requires
        says_in_order(again, nodes),
        wiki::has_title(nodes, title),
    ensures
        wiki::has_title(again, title),
{
    let j = choose|j: int| 0 <= j < nodes.len() && #[trigger] nodes[j].title == title;
    let keys = wiki::node_keys(nodes);
    let sorted = order::sort_order(keys);
    order::lemma_sort_order_covers(keys, j);
    order::lemma_sort_order_sorts(keys);
    let i = choose|i: int| 0 <= i < sorted.len() && #[trigger] sorted[i] == j;
    assert(says_the_same(again[i], wiki::nodes_in_order(nodes)[i]));
    assert(again[i].title == title);
}

/// A wiki without errors in its text-link graph has none once its nodes are in order.
pub proof fn lemma_graph_in_order(
    path: Option<Seq<char>>,
    s: Seq<char>,
    nodes: Seq<NodeView>,
    r: Seq<char>,
    again: Seq<NodeView>,
)
    requires
        says_in_order(again, nodes),
        validator::graph_errors(path, s, nodes).len() == 0,
    ensures
        validator::graph_errors(path, r, again).len() == 0,
{
    validator::law_graph_errors(path, s, nodes);
    validator::law_graph_errors(path, r, again);
    lemma_titles_in_order(again, nodes, "Home"@);
    assert forall|i: int, k: int|
        0 <= i < again.len() && 0 <= k < again[i].links.len() implies match (
    #[trigger] again[i].links[k]) {
        LinkView::Text { title, span } => wiki::has_title(again, title),
        LinkView::File { path, span } => true,
        LinkView::Directory { path, span } => true,
    } by {
        let j = lemma_said_in_order(again, nodes, i);
        let plain = rereading::all_unplaced(again[i].links);
        assert(plain.len() == again[i].links.len());
        assert(rereading::all_unplaced(nodes[j].links).len() == nodes[j].links.len());
        assert(plain[k] == rereading::unplaced(again[i].links[k]));
        assert(plain[k] == rereading::unplaced(nodes[j].links[k]));
        if let LinkView::Text { title, span } = again[i].links[k] {
            assert(nodes[j].links[k] is Text);
            lemma_titles_in_order(again, nodes, title);
        }
    }
    assert forall|i: int| 0 <= i < again.len() implies (#[trigger] again[i]).depth is Some by {
        let j = lemma_said_in_order(again, nodes, i);
        assert(nodes[j].depth is Some);
    }
}

/// Rendering nodes that are in order already gives the same text.
proof fn lemma_rendering_again(nodes: Seq<NodeView>, again: Seq<NodeView>)
    requires
        says_in_order(again, nodes),
    ensures
        wiki::wiki_text(again) == wiki::wiki_text(nodes),
{
    let keys = wiki::node_keys(nodes);
    let sorted = order::sort_order(keys);
    order::lemma_sort_order_sorts(keys);
    let ordered = wiki::nodes_in_order(nodes);
    let later = wiki::node_keys(again);
    assert forall|i: int| 0 <= i < later.len() implies #[trigger] later[i] == keys[sorted[i]] by {
        assert(says_the_same(again[i], ordered[i]));
        assert(0 <= sorted[i] < keys.len());
        assert(ordered[i] == nodes[sorted[i]]);
    }
    assert forall|i: int, j: int|
        #![trigger later[i], later[j]]
        0 <= i < j < later.len() implies !order::key_before(later[j], later[i]) by {
        if order::key_before(later[j], later[i]) {
            if order::key_before(keys[sorted[i]], keys[sorted[j]]) {
                order::lemma_key_order_transitive(later[j], later[i], later[j]);
            }
            order::lemma_key_order_irreflexive(later[j]);
        }
    }
    order::lemma_sort_order_of_sorted(later);
    assert(wiki::nodes_in_order(again) =~= again);
    assert(again.map_values(|node: NodeView| wiki::node_text(node.title, node.content))
        =~= ordered.map_values(|node: NodeView| wiki::node_text(node.title, node.content))) by {
        assert forall|i: int| 0 <= i < again.len() implies wiki::node_text(
            (#[trigger] again[i]).title,
            again[i].content,
        ) == wiki::node_text(ordered[i].title, ordered[i].content) by {
            assert(says_the_same(again[i], ordered[i]));
        }
    }
}

/// The outline of a source holds the same nodes and as many errors under another name.
proof fn lemma_outline_anywhere(
    path: Option<Seq<char>>,
    other: Option<Seq<char>>,
    s: Seq<char>,
    lo: int,
    before: Outline,
    twin: Outline,
)
    requires
        0 <= lo <= s.len(),
        before.nodes == twin.nodes,
        before.errors.len() == twin.errors.len(),
    ensures
        ({
            let one = parser::outline_from(path, s, lo, before);
            let two = parser::outline_from(other, s, lo, twin);
            one.nodes == two.nodes && one.errors.len() == two.errors.len()
        }),
    decreases s.len() - lo,
{
    if lo < s.len() {
        text::lemma_line_end(s, lo);
        let next = parser::next_line(s, lo);
        parser::lemma_next_title_line(s, next);
        let start = parser::content_start(s, lo);
        let end = parser::content_end(s, lo);
        lemma_errors_anywhere(path, other, s, start, end);
        lemma_outline_anywhere(
            path,
            other,
            s,
            parser::next_title_line(s, next),
            parser::with_section(path, s, lo, before),
            parser::with_section(other, s, lo, twin),
        );
    }
}

proof fn lemma_errors_anywhere(
    path: Option<Seq<char>>,
    other: Option<Seq<char>>,
    s: Seq<char>,
    lo: int,
    i: int,
)
    ensures
        parser::errors_before(path, s, lo, i).len() == parser::errors_before(other, s, lo, i).len(),
    decreases i - lo,
{
    if i > lo {
        lemma_errors_anywhere(path, other, s, lo, i - 1);
        assert(parser::errors_at(path, s, lo, i - 1).len() == parser::errors_at(
            other,
            s,
            lo,
            i - 1,
        ).len());
    }
}

/// Whether a source parses, and to what, does not depend on its name, nor does the number of its
/// errors.
pub proof fn law_parsing_ignores_names(
    path: Option<Seq<char>>,
    other: Option<Seq<char>>,
    s: Seq<char>,
)
    ensures
        match (parser::parsed(path, s), parser::parsed(other, s)) {
            (Ok(nodes), Ok(twins)) => nodes == twins,
            (Err(errors), Err(others)) => errors.len() == others.len(),
            _ => false,
        },
{
    parser::lemma_next_title_line(s, 0);
    lemma_outline_anywhere(
        path,
        other,
        s,
        parser::next_title_line(s, 0),
        Outline { nodes: Seq::empty(), errors: parser::stray_errors(path, s) },
        Outline { nodes: Seq::empty(), errors: parser::stray_errors(other, s) },
    );
}

/// Nodes with different titles have different keys.
proof fn lemma_node_keys_distinct(nodes: Seq<NodeView>)
    requires
        wiki::titles_distinct(nodes),
    ensures
        order::keys_distinct(wiki::node_keys(nodes)),
        order::keys_distinct(wiki::title_keys(nodes)),
{
    let keys = wiki::node_keys(nodes);
    let titles = wiki::title_keys(nodes);
    assert forall|i: int, j: int|
        #![trigger keys[i], keys[j]]
        0 <= i < j < keys.len() implies keys[i] != keys[j] by {
        let a = nodes[i];
        let b = nodes[j];
        if keys[i] == keys[j] {
            assert(wiki::node_key(a).skip(2) =~= order::text_key(a.title));
            assert(wiki::node_key(b).skip(2) =~= order::text_key(b.title));
            order::lemma_text_key_injective(a.title, b.title);
        }
    }
    assert forall|i: int, j: int|
        #![trigger titles[i], titles[j]]
        0 <= i < j < titles.len() implies titles[i] != titles[j] by {
        if titles[i] == titles[j] {
            order::lemma_text_key_injective(nodes[i].title, nodes[j].title);
            assert(nodes[i].title == nodes[j].title);
        }
    }
}

/// A wiki renders the same in whatever order it holds its nodes.
pub proof fn law_rendering_ignores_order(nodes: Seq<NodeView>, permutation: Seq<int>)
    requires
        wiki::titles_distinct(nodes),
        order::is_permutation(permutation, nodes.len()),
    ensures
        wiki::wiki_text(order::arranged(nodes, permutation)) == wiki::wiki_text(nodes),
{
    let moved = order::arranged(nodes, permutation);
    let keys = wiki::node_keys(nodes);
    lemma_node_keys_distinct(nodes);
    assert(wiki::node_keys(moved) =~= order::arranged(keys, permutation)) by {
        assert forall|i: int| 0 <= i < moved.len() implies #[trigger] wiki::node_keys(moved)[i]
            == order::arranged(keys, permutation)[i] by {
            assert(0 <= permutation[i] < nodes.len());
        }
    }
    order::lemma_sorting_ignores_order(nodes, keys, permutation);
}

/// The errors in the text-link graph of a wiki are the same in whatever order it holds its nodes.
pub proof fn law_graph_errors_ignore_order(
    path: Option<Seq<char>>,
    s: Seq<char>,
    nodes: Seq<NodeView>,
    permutation: Seq<int>,
)
    requires
        wiki::titles_distinct(nodes),
        order::is_permutation(permutation, nodes.len()),
    ensures
        validator::graph_errors(path, s, order::arranged(nodes, permutation))
            == validator::graph_errors(path, s, nodes),
{
    let moved = order::arranged(nodes, permutation);
    let keys = wiki::title_keys(nodes);
    lemma_node_keys_distinct(nodes);
    assert(wiki::title_keys(moved) =~= order::arranged(keys, permutation)) by {
        assert forall|i: int| 0 <= i < moved.len() implies #[trigger] wiki::title_keys(moved)[i]
            == order::arranged(keys, permutation)[i] by {
            assert(0 <= permutation[i] < nodes.len());
        }
    }
    order::lemma_sorting_ignores_order(nodes, keys, permutation);
    assert forall|title: Seq<char>| #[trigger] wiki::has_title(moved, title) == wiki::has_title(
        nodes,
        title,
    ) by {
        if wiki::has_title(moved, title) {
            let i = choose|i: int| 0 <= i < moved.len() && #[trigger] moved[i].title == title;
            assert(0 <= permutation[i] < nodes.len());
            assert(nodes[permutation[i]].title == title);
        }
        if wiki::has_title(nodes, title) {
            let j = choose|j: int| 0 <= j < nodes.len() && #[trigger] nodes[j].title == title;
            assert(permutation.contains(j));
            let i = choose|i: int| 0 <= i < permutation.len() && permutation[i] == j;
            assert(moved[i].title == title);
        }
    }
    lemma_targets_ignore_order(
        path,
        s,
        nodes,
        moved,
        validator::all_links(wiki::nodes_by_title(nodes)),
    );
}

proof fn lemma_targets_ignore_order(
    path: Option<Seq<char>>,
    s: Seq<char>,
    nodes: Seq<NodeView>,
    moved: Seq<NodeView>,
    links: Seq<LinkView>,
)
    requires
        forall|title: Seq<char>| #[trigger]
            wiki::has_title(moved, title) == wiki::has_title(nodes, title),
    ensures
        validator::targets_errors(path, s, moved, links) == validator::targets_errors(
            path,
            s,
            nodes,
            links,
        ),
    decreases links.len(),
{
    if links.len() > 0 {
        lemma_targets_ignore_order(path, s, nodes, moved, links.drop_last());
        if let LinkView::Text { title, span } = links.last() {
            assert(wiki::has_title(moved, title) == wiki::has_title(nodes, title));
        }
    }
}

} // verus!
