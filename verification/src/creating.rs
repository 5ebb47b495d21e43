//! What creating a missing node does: the source reads back with that node and without other changes.

use vstd::prelude::*;

use crate::error::ErrorView;
use crate::formatting;
use crate::language_server;
use crate::occurrences;
use crate::parser;
use crate::parser::Outline;
use crate::position;
use crate::position::Position;
use crate::rereading;
use crate::scoring;
use crate::settling;
use crate::text;
use crate::validator;
use crate::wiki;
use crate::wiki::LinkView;
use crate::wiki::NodeView;

verus! {

/// Whether one text stands inside another from an index on, and only line feeds stand between its end
/// and `next`, where the other text ends or a section starts on a line of its own.
spec fn is_within(s: Seq<char>, t: Seq<char>, from: int, next: int) -> bool {
    let end = from + s.len();
    &&& 0 <= from
    &&& end <= next <= t.len()
    &&& forall|k: int| 0 <= k < s.len() ==> s[k] == #[trigger] t[from + k]
    &&& forall|i: int| end <= i < next ==> #[trigger] t[i] == '\n'
    &&& next < t.len() ==> formatting::is_section(t, next)
    &&& next == end && next < t.len() && s.len() > 0 ==> s.last() == '\n'
}

/// Where an index at which a line of the inner text starts, or its end, lies in the outer text.
spec fn lifted(s: Seq<char>, from: int, next: int, i: int) -> int {
    if i < s.len() {
        from + i
    } else {
        next
    }
}

/// Part of the inner text is part of the outer text.
proof fn lemma_same_chars(s: Seq<char>, lo: int, hi: int, t: Seq<char>, at: int)
    requires
        0 <= lo <= hi <= s.len(),
        lo <= at,
        at - lo + s.len() <= t.len(),
        forall|k: int| 0 <= k < s.len() ==> s[k] == #[trigger] t[at - lo + k],
    ensures
        t.subrange(at, at + hi - lo) == s.subrange(lo, hi),
{
    let mine = s.subrange(lo, hi);
    let other = t.subrange(at, at + hi - lo);
    assert forall|k: int| 0 <= k < mine.len() implies #[trigger] other[k] == mine[k] by {
        assert(s[lo + k] == t[at - lo + (lo + k)]);
    }
    assert(other =~= mine);
}

/// The lines of the inner text are lines of the outer text.
proof fn lemma_line_within(s: Seq<char>, t: Seq<char>, from: int, next: int, lo: int)
    requires
        is_within(s, t, from, next),
        0 <= lo < s.len(),
    ensures
        text::line_end(t, from + lo) == from + text::line_end(s, lo),
        parser::line_stop(t, from + lo) == from + parser::line_stop(s, lo),
        lo <= parser::line_stop(s, lo) <= s.len(),
        t.subrange(from + lo, parser::line_stop(t, from + lo)) == s.subrange(
            lo,
            parser::line_stop(s, lo),
        ),
        parser::is_title_line(t, from + lo) == parser::is_title_line(s, lo),
{
    let n = s.len() as int;
    let end = text::line_end(s, lo);
    text::lemma_line_end(s, lo);
    assert forall|i: int| from + lo <= i < from + end implies #[trigger] t[i] != '\n' by {
        assert(s[i - from] == t[from + (i - from)]);
    }
    if end < n {
        assert(s[end] == t[from + end]);
    } else if from + n < t.len() && next == from + n {
        assert(s[n - 1] != '\n');
    }
    formatting::lemma_line_end_at(t, from + lo, from + end);
    if end > lo {
        assert(s[end - 1] == t[from + (end - 1)]);
    }
    let stop = parser::line_stop(s, lo);
    lemma_same_chars(s, lo, stop, t, from + lo);
}

/// No title line stands between the inner text and what follows it.
proof fn lemma_gap(s: Seq<char>, t: Seq<char>, from: int, next: int, i: int)
    requires
        is_within(s, t, from, next),
        from + s.len() <= i <= next,
    ensures
        parser::next_title_line(t, i) == next,
    decreases next - i,
{
    reveal_strlit("#");
    reveal_strlit("# ");
    if i < next {
        formatting::lemma_line_end_at(t, i, i);
        assert(t.subrange(i, i).len() == 0);
        assert(!parser::is_title_line(t, i));
        lemma_gap(s, t, from, next, i + 1);
    }
}

/// The title lines of the inner text are title lines of the outer text.
proof fn lemma_next_title_within(s: Seq<char>, t: Seq<char>, from: int, next: int, lo: int)
    requires
        is_within(s, t, from, next),
        0 <= lo <= s.len(),
    ensures
        parser::next_title_line(t, from + lo) == lifted(
            s,
            from,
            next,
            parser::next_title_line(s, lo),
        ),
    decreases s.len() - lo,
{
    let n = s.len() as int;
    if lo == n {
        lemma_gap(s, t, from, next, from + n);
    } else {
        lemma_line_within(s, t, from, next, lo);
        text::lemma_line_end(s, lo);
        if !parser::is_title_line(s, lo) {
            let end = text::line_end(s, lo);
            if end < n {
                lemma_next_title_within(s, t, from, next, end + 1);
            } else {
                assert(parser::next_title_line(s, n) == n);
                assert(parser::next_title_line(s, lo) == n);
                if from + n < t.len() {
                    lemma_gap(s, t, from, next, from + n + 1);
                } else {
                    lemma_gap(s, t, from, next, from + n);
                }
            }
        }
    }
}

/// The line after one of the inner text.
proof fn lemma_after_line_within(s: Seq<char>, t: Seq<char>, from: int, next: int, lo: int)
    requires
        is_within(s, t, from, next),
        0 <= lo < s.len(),
    ensures
        parser::next_title_line(t, parser::next_line(t, from + lo)) == lifted(
            s,
            from,
            next,
            parser::next_title_line(s, parser::next_line(s, lo)),
        ),
        ({
            let later = parser::next_line(s, lo);
            &&& lo < later <= s.len()
            &&& parser::next_line(t, from + lo) == from + later || later == s.len()
                && parser::next_line(t, from + lo) == from + later + 1 <= next
        }),
{
    let n = s.len() as int;
    let end = text::line_end(s, lo);
    text::lemma_line_end(s, lo);
    lemma_line_within(s, t, from, next, lo);
    if end < n {
        lemma_next_title_within(s, t, from, next, end + 1);
    } else if from + n < t.len() {
        assert(s[n - 1] != '\n');
        lemma_gap(s, t, from, next, from + n + 1);
        assert(parser::next_title_line(s, n) == n);
    } else {
        lemma_gap(s, t, from, next, from + n);
    }
}

/// The title of a section of the inner text.
proof fn lemma_title_within(
    path: Option<Seq<char>>,
    s: Seq<char>,
    t: Seq<char>,
    from: int,
    next: int,
    lo: int,
    other: Option<Seq<char>>,
)
    requires
        is_within(s, t, from, next),
        formatting::is_clean_section(path, s, lo),
    ensures
        parser::is_title_line(t, from + lo),
        parser::title_of(t, from + lo) == parser::title_of(s, lo),
        parser::title_error(other, t, from + lo) is None,
{
    reveal_strlit("#");
    reveal_strlit("# ");
    lemma_line_within(s, t, from, next, lo);
    let stop = parser::line_stop(s, lo);
    let line = s.subrange(lo, stop);
    if text::starts_with(line, "# "@) {
        assert(line.len() >= 2);
    } else {
        assert(line.len() == 1);
    }
    let raw = parser::raw_title_start(s, lo);
    assert(parser::raw_title_start(t, from + lo) == from + raw);
    text::lemma_trimmed_subrange(s, raw, stop);
    text::lemma_trimmed_subrange(t, from + raw, from + stop);
    lemma_same_chars(s, raw, stop, t, from + raw);
}

/// Where the content of a section of the inner text starts in the outer text.
spec fn content_within(s: Seq<char>, from: int, next: int, lo: int) -> int {
    let start = parser::content_start(s, lo);
    if parser::content_end(s, lo) == start {
        lifted(s, from, next, parser::next_title_line(s, parser::next_line(s, lo)))
    } else {
        from + start
    }
}

/// The content of a section of the inner text has the same length in the outer text.
proof fn lemma_bounds_within(s: Seq<char>, t: Seq<char>, from: int, next: int, lo: int)
    requires
        is_within(s, t, from, next),
        formatting::is_section(s, lo),
    ensures
        ({
            let start = parser::content_start(s, lo);
            let end = parser::content_end(s, lo);
            let begin = content_within(s, from, next, lo);
            &&& 0 <= start <= end <= s.len()
            &&& 0 <= begin <= begin + (end - start) <= t.len()
            &&& parser::content_start(t, from + lo) == begin
            &&& parser::content_end(t, from + lo) == begin + (end - start)
        }),
{
    lemma_after_line_within(s, t, from, next, lo);
    let later = parser::next_line(s, lo);
    let first = parser::next_line(t, from + lo);
    text::lemma_line_end(s, lo);
    formatting::lemma_next_section(s, later);
    let hi = parser::next_title_line(s, later);
    let high = lifted(s, from, next, hi);
    text::lemma_trim_start_index(s, later, hi);
    let start = parser::content_start(s, lo);
    text::lemma_trim_end_index(s, start, hi);
    let end = parser::content_end(s, lo);
    let n = end - start;
    let begin = content_within(s, from, next, lo);
    assert(first <= high);
    assert forall|i: int| first <= i < begin implies text::white_space(#[trigger] t[i]) by {
        if i < from + s.len() {
            assert(s[i - from] == t[from + (i - from)]);
        }
    }
    assert forall|i: int| begin + n <= i < high implies text::white_space(#[trigger] t[i]) by {
        if i < from + s.len() {
            assert(s[i - from] == t[from + (i - from)]);
        }
    }
    if n > 0 {
        assert(s[start] == t[from + start]);
        assert(s[end - 1] == t[from + (end - 1)]);
    }
    formatting::lemma_trim_start_at(t, first, high, begin);
    formatting::lemma_trim_end_at(t, begin, high, begin + n);
}

/// A section of the inner text reads the same in the outer text.
proof fn lemma_section_within(
    path: Option<Seq<char>>,
    s: Seq<char>,
    t: Seq<char>,
    from: int,
    next: int,
    lo: int,
    other: Option<Seq<char>>,
)
    requires
        is_within(s, t, from, next),
        formatting::is_clean_section(path, s, lo),
    ensures
        parser::content_errors(
            other,
            t,
            parser::content_start(t, from + lo),
            parser::content_end(t, from + lo),
        ).len() == 0,
        formatting::says_the_same(parser::node_at(t, from + lo), parser::node_at(s, lo)),
{
    lemma_title_within(path, s, t, from, next, lo, other);
    lemma_bounds_within(s, t, from, next, lo);
    let start = parser::content_start(s, lo);
    let end = parser::content_end(s, lo);
    let n = end - start;
    let begin = content_within(s, from, next, lo);
    assert forall|k: int| 0 <= k < n implies s[start + k] == #[trigger] t[begin + k] by {
        assert(s[start + k] == t[from + (start + k)]);
    }
    rereading::lemma_content_shift(s, start, t, begin, n);
    rereading::lemma_scan_shift(s, start, t, begin, n);
    rereading::lemma_clean_anywhere(path, s, start, end);
    rereading::lemma_clean_anywhere(other, t, begin, begin + n);
    let prose = parser::prose_start(s, start, end);
    if n > 0 {
        lemma_same_chars(s, prose, end, t, from + prose);
    }
    assert(s.subrange(prose, end) =~= t.subrange(begin + (prose - start), begin + n));
}

/// Whether nodes are some nodes followed by nodes that say the same as others.
spec fn follows(nodes: Seq<NodeView>, extra: Seq<NodeView>, others: Seq<NodeView>) -> bool {
    &&& nodes.len() == extra.len() + others.len()
    &&& forall|i: int| 0 <= i < extra.len() ==> #[trigger] nodes[i] == extra[i]
    &&& forall|i: int|
        0 <= i < others.len() ==> formatting::says_the_same(
            nodes[extra.len() + i],
            #[trigger] others[i],
        )
}

/// The outline of the inner text is part of the outline of the outer text.
proof fn lemma_outline_within(
    path: Option<Seq<char>>,
    s: Seq<char>,
    t: Seq<char>,
    from: int,
    next: int,
    lo: int,
    before: Outline,
    other: Option<Seq<char>>,
    extra: Seq<NodeView>,
    already: Outline,
) -> (after: Outline)
    requires
        is_within(s, t, from, next),
        lo == s.len() || formatting::is_section(s, lo),
        parser::outline_from(path, s, lo, before).errors.len() == 0,
        already.errors.len() == 0,
        follows(already.nodes, extra, before.nodes),
        forall|i: int|
            0 <= i < extra.len() ==> !wiki::has_title(
                parser::outline_from(path, s, lo, before).nodes,
                (#[trigger] extra[i]).title,
            ),
    ensures
        parser::outline_from(other, t, lifted(s, from, next, lo), already)
            == parser::outline_from(other, t, next, after),
        after.errors.len() == 0,
        follows(after.nodes, extra, parser::outline_from(path, s, lo, before).nodes),
    decreases s.len() - lo,
{
    if lo == s.len() {
        already
    } else {
        let later = parser::next_line(s, lo);
        text::lemma_line_end(s, lo);
        formatting::lemma_next_section(s, later);
        let hi = parser::next_title_line(s, later);
        let more = parser::with_section(path, s, lo, before);
        settling::lemma_errors_stay(path, s, hi, more);
        lemma_nodes_stay(path, s, hi, more);
        assert(parser::title_error(path, s, lo) is None);
        assert(parser::node_errors(path, s, lo, before.nodes).len() == 0);
        assert(formatting::is_clean_section(path, s, lo));
        let node = parser::node_at(s, lo);
        assert(more.nodes == before.nodes.push(node));
        lemma_title_within(path, s, t, from, next, lo, other);
        lemma_section_within(path, s, t, from, next, lo, other);
        lemma_after_line_within(s, t, from, next, lo);
        let found = parser::node_at(t, from + lo);
        assert(!wiki::has_title(already.nodes, found.title)) by {
            assert forall|i: int| 0 <= i < already.nodes.len() implies #[trigger] already.nodes[i].title
                != found.title by {
                if i < extra.len() {
                    let all = parser::outline_from(path, s, lo, before).nodes;
                    assert(more.nodes[before.nodes.len() as int] == node);
                    assert(all[before.nodes.len() as int] == node);
                    assert(!wiki::has_title(all, extra[i].title));
                } else {
                    let k = i - extra.len();
                    assert(formatting::says_the_same(
                        already.nodes[extra.len() + k],
                        before.nodes[k],
                    ));
                    assert(before.nodes[k].title != node.title);
                }
            }
        }
        let then_found = Outline {
            nodes: already.nodes.push(found),
            errors: already.errors,
        };
        assert(parser::with_section(other, t, from + lo, already) == then_found);
        assert(follows(then_found.nodes, extra, more.nodes)) by {
            assert forall|i: int| 0 <= i < more.nodes.len() implies formatting::says_the_same(
                then_found.nodes[extra.len() + i],
                #[trigger] more.nodes[i],
            ) by {
                if i < before.nodes.len() {
                    assert(more.nodes[i] == before.nodes[i]);
                }
            }
        }
        lemma_outline_within(path, s, t, from, next, hi, more, other, extra, then_found)
    }
}

/// Nodes stay in an outline.
proof fn lemma_nodes_stay(path: Option<Seq<char>>, s: Seq<char>, lo: int, before: Outline)
    requires
        0 <= lo <= s.len(),
    ensures
        ({
            let nodes = parser::outline_from(path, s, lo, before).nodes;
            &&& nodes.len() >= before.nodes.len()
            &&& forall|i: int| 0 <= i < before.nodes.len() ==> #[trigger] nodes[i] == before.nodes[i]
        }),
    decreases s.len() - lo,
{
    if lo < s.len() {
        text::lemma_line_end(s, lo);
        parser::lemma_next_title_line(s, parser::next_line(s, lo));
        let after = parser::with_section(path, s, lo, before);
        let next = parser::next_title_line(s, parser::next_line(s, lo));
        lemma_nodes_stay(path, s, next, after);
        let nodes = parser::outline_from(path, s, lo, before).nodes;
        assert forall|i: int| 0 <= i < before.nodes.len() implies #[trigger] nodes[i]
            == before.nodes[i] by {
            assert(nodes[i] == after.nodes[i]);
        }
    }
}

/// Where no line holds anything but white space, no character is anything else.
proof fn lemma_blank_lines(s: Seq<char>, lo: int, hi: int)
    requires
        0 <= lo <= hi <= s.len(),
        lo == hi || hi == s.len() || s[hi - 1] == '\n',
        parser::first_stray_line(s, lo, hi) is None,
    ensures
        forall|i: int| lo <= i < hi ==> text::white_space(#[trigger] s[i]),
    decreases hi - lo,
{
    if lo < hi {
        text::lemma_line_end(s, lo);
        let stop = parser::line_stop(s, lo);
        let later = parser::next_line(s, lo);
        assert(later <= hi) by {
            if hi < s.len() && text::line_end(s, lo) >= hi {
                assert(s[hi - 1] != '\n');
            }
        }
        text::lemma_trimmed_subrange(s, lo, stop);
        text::lemma_trim_start_index(s, lo, stop);
        text::lemma_trim_end_index(s, text::trim_start_index(s, lo, stop), stop);
        lemma_blank_lines(s, later, hi);
        assert forall|i: int| lo <= i < hi implies text::white_space(#[trigger] s[i]) by {
            if stop <= i < later {
                assert(s[i] == '\r' || s[i] == '\n');
            }
        }
    }
}

/// White space is in no line that is not blank.
proof fn lemma_no_stray_line(s: Seq<char>, lo: int, hi: int)
    requires
        0 <= lo <= hi <= s.len(),
        lo == hi || hi == s.len() || s[hi - 1] == '\n',
        forall|i: int| lo <= i < hi ==> text::white_space(#[trigger] s[i]),
    ensures
        parser::first_stray_line(s, lo, hi) is None,
    decreases hi - lo,
{
    if lo < hi {
        text::lemma_line_end(s, lo);
        let stop = parser::line_stop(s, lo);
        let later = parser::next_line(s, lo);
        assert(later <= hi) by {
            if hi < s.len() && text::line_end(s, lo) >= hi {
                assert(s[hi - 1] != '\n');
            }
        }
        formatting::lemma_trim_start_at(s, lo, stop, stop);
        text::lemma_trimmed_subrange(s, lo, stop);
        lemma_no_stray_line(s, later, hi);
    }
}

/// A parsed source has nothing but white space before its first section.
proof fn lemma_parsed(path: Option<Seq<char>>, s: Seq<char>)
    requires
        parser::parsed(path, s) is Ok,
    ensures
        ({
            let first = parser::next_title_line(s, 0);
            &&& 0 <= first <= s.len()
            &&& first < s.len() ==> formatting::is_section(s, first)
            &&& forall|i: int| 0 <= i < first ==> text::white_space(#[trigger] s[i])
        }),
        parser::stray_errors(path, s).len() == 0,
{
    formatting::lemma_next_section(s, 0);
    let first = parser::next_title_line(s, 0);
    settling::lemma_errors_stay(
        path,
        s,
        first,
        Outline { nodes: Seq::empty(), errors: parser::stray_errors(path, s) },
    );
    lemma_blank_lines(s, 0, first);
}

/// A source with a node appended to it.
pub open spec fn with_node(s: Seq<char>, title: Seq<char>) -> Seq<char> {
    s + language_server::append_edit(s, title).new_text
}

/// A source with a home node put before it.
pub open spec fn with_home(s: Seq<char>) -> Seq<char> {
    language_server::home_edit(s).new_text + s
}

/// Whether a node has a title and nothing else.
pub open spec fn is_bare(node: NodeView, title: Seq<char>) -> bool {
    &&& node.title == title
    &&& node.content.len() == 0
    &&& node.links.len() == 0
}

/// A source stands in the source with a node appended to it, and that node follows.
proof fn lemma_appended(s: Seq<char>, title: Seq<char>) -> (next: int)
    requires
        formatting::is_title(title),
    ensures
        is_within(s, with_node(s, title), 0, next),
        formatting::is_block(with_node(s, title), next, title, Seq::empty()),
        next + wiki::node_text(title, Seq::empty()).len() == with_node(s, title).len(),
{
    reveal_strlit("");
    reveal_strlit("\n");
    reveal_strlit("\n\n");
    reveal_strlit("# ");
    let t = with_node(s, title);
    let n = s.len() as int;
    let separator = if language_server::ends_with(s, "\n\n"@) {
        ""@
    } else if language_server::ends_with(s, "\n"@) {
        "\n"@
    } else {
        "\n\n"@
    };
    let next = n + separator.len();
    let block = wiki::node_text(title, Seq::empty());
    assert(t =~= s + separator + block);
    assert(t.subrange(next, next + block.len()) =~= block);
    if language_server::ends_with(s, "\n\n"@) {
        assert(s.subrange(n - 2, n)[1] == s[n - 1]);
        assert(s[n - 1] == '\n');
    }
    assert(t[next - 1] == '\n');
    assert(formatting::is_block(t, next, title, Seq::empty()));
    formatting::lemma_block_title(None, t, next, title, Seq::empty());
    assert forall|i: int| n <= i < next implies #[trigger] t[i] == '\n' by {}
    next
}

/// A block of a title alone at the end of a source reads as a node with that title alone.
proof fn lemma_bare(path: Option<Seq<char>>, t: Seq<char>, at: int, title: Seq<char>)
    requires
        formatting::is_block(t, at, title, Seq::empty()),
        formatting::is_title(title),
        at + wiki::node_text(title, Seq::empty()).len() == t.len(),
    ensures
        at < t.len(),
        parser::title_error(path, t, at) is None,
        parser::content_errors(
            path,
            t,
            parser::content_start(t, at),
            parser::content_end(t, at),
        ).len() == 0,
        parser::next_title_line(t, parser::next_line(t, at)) == t.len(),
        is_bare(parser::node_at(t, at), title),
{
    reveal_strlit("# ");
    reveal_strlit("\n");
    formatting::lemma_block_title(path, t, at, title, Seq::empty());
    let n = t.len() as int;
    assert(parser::next_line(t, at) == n);
    assert(parser::content_start(t, at) == n);
    assert(parser::content_end(t, at) == n);
    assert(parser::content_text(t, n, n).len() == 0);
}

/// The outline of a source after its last section.
proof fn lemma_last_section(path: Option<Seq<char>>, t: Seq<char>, at: int, before: Outline)
    requires
        0 <= at < t.len(),
        parser::next_title_line(t, parser::next_line(t, at)) == t.len(),
    ensures
        parser::outline_from(path, t, at, before) == parser::with_section(path, t, at, before),
{
    let after = parser::with_section(path, t, at, before);
    assert(parser::outline_from(path, t, t.len() as int, after) == after);
}

/// The outline of a source with a node appended to it, up to that node.
proof fn lemma_appended_outline(
    path: Option<Seq<char>>,
    s: Seq<char>,
    title: Seq<char>,
    next: int,
    other: Option<Seq<char>>,
) -> (after: Outline)
    requires
        parser::parsed(path, s) is Ok,
        is_within(s, with_node(s, title), 0, next),
    ensures
        parser::outline(other, with_node(s, title)) == parser::outline_from(
            other,
            with_node(s, title),
            next,
            after,
        ),
        after.errors.len() == 0,
        follows(after.nodes, Seq::empty(), parser::outline(path, s).nodes),
{
    let t = with_node(s, title);
    lemma_parsed(path, s);
    let first = parser::next_title_line(s, 0);
    let begin = parser::next_title_line(t, 0);
    lemma_next_title_within(s, t, 0, next, 0);
    formatting::lemma_next_section(t, 0);
    assert forall|i: int| 0 <= i < begin implies text::white_space(#[trigger] t[i]) by {
        if i < s.len() {
            assert(s[i] == t[0 + i]);
        }
    }
    lemma_no_stray_line(t, 0, begin);
    let before = Outline { nodes: Seq::empty(), errors: parser::stray_errors(path, s) };
    let already = Outline { nodes: Seq::empty(), errors: parser::stray_errors(other, t) };
    lemma_outline_within(path, s, t, 0, next, first, before, other, Seq::empty(), already)
}

/// Creating the missing destination of a text link leaves every other node as it is, and the link
/// leads to the new node. The source may have another name when it is read again.
pub proof fn law_created_nodes_read_back(
    path: Option<Seq<char>>,
    s: Seq<char>,
    nodes: Seq<NodeView>,
    title: Seq<char>,
    other: Option<Seq<char>>,
)
    requires
        parser::parsed(path, s) == Ok::<Seq<NodeView>, Seq<ErrorView>>(nodes),
        formatting::is_title(title),
        !wiki::has_title(nodes, title),
    ensures
        parser::parsed(other, with_node(s, title)) is Ok,
        ({
            let again = parser::parsed(other, with_node(s, title))->Ok_0;
            &&& again.len() == nodes.len() + 1
            &&& forall|i: int|
                0 <= i < nodes.len() ==> formatting::says_the_same(again[i], #[trigger] nodes[i])
            &&& is_bare(again[nodes.len() as int], title)
            &&& wiki::position_of(again, title) == Some(nodes.len() as int)
        }),
{
    let t = with_node(s, title);
    let found = parser::outline(path, s).nodes;
    let next = lemma_appended(s, title);
    let after = lemma_appended_outline(path, s, title, next, other);
    assert(!wiki::has_title(after.nodes, title)) by {
        assert forall|i: int| 0 <= i < after.nodes.len() implies #[trigger] after.nodes[i].title
            != title by {
            assert(formatting::says_the_same(after.nodes[0 + i], found[i]));
            assert(nodes[i].title != title);
        }
    }
    lemma_bare(other, t, next, title);
    lemma_last_section(other, t, next, after);
    let reread = after.nodes.push(parser::node_at(t, next));
    assert(parser::outline(other, t).nodes == reread);
    let again = scoring::scored(reread);
    assert forall|i: int| 0 <= i < nodes.len() implies formatting::says_the_same(
        again[i],
        #[trigger] nodes[i],
    ) by {
        assert(formatting::says_the_same(after.nodes[0 + i], found[i]));
        assert(reread[i] == after.nodes[i]);
    }
    wiki::lemma_position_of(again, title);
    assert(again[nodes.len() as int].title == title);
    assert forall|i: int| 0 <= i < nodes.len() implies #[trigger] again[i].title != title by {
        assert(formatting::says_the_same(again[i], nodes[i]));
    }
}

/// Where a source starts in the source with a home node put before it.
spec fn home_len(s: Seq<char>) -> int {
    if s.len() == 0 {
        7
    } else {
        8
    }
}

/// A source stands in the source with a home node put before it.
proof fn lemma_home_first(s: Seq<char>)
    ensures
        is_within(s, with_home(s), home_len(s), with_home(s).len() as int),
        with_home(s).len() == home_len(s) + s.len(),
        parser::is_title_line(with_home(s), 0),
        parser::title_of(with_home(s), 0) == "Home"@,
        parser::next_line(with_home(s), 0) == 7,
        s.len() > 0 ==> with_home(s)[7] == '\n',
{
    reveal_strlit("\n");
    reveal_strlit("\n\n");
    reveal_strlit("# ");
    reveal_strlit("#");
    reveal_strlit("Home");
    let t = with_home(s);
    formatting::lemma_line_end_at(t, 0, 6);
    assert(t.subrange(0, 6).subrange(0, 2) =~= "# "@);
    formatting::lemma_trim_start_at(t, 2, 6, 2);
    formatting::lemma_trim_end_at(t, 2, 6, 6);
    assert(t.subrange(2, 6) =~= "Home"@);
}

/// The home node that is put before a source reads as a node with that title alone.
proof fn lemma_home_bare(path: Option<Seq<char>>, s: Seq<char>, other: Option<Seq<char>>)
    requires
        parser::parsed(path, s) is Ok,
    ensures
        ({
            let t = with_home(s);
            let from = home_len(s);
            let next = lifted(s, from, t.len() as int, parser::next_title_line(s, 0));
            &&& parser::next_title_line(t, parser::next_line(t, 0)) == next
            &&& parser::title_error(other, t, 0) is None
            &&& parser::content_errors(
                other,
                t,
                parser::content_start(t, 0),
                parser::content_end(t, 0),
            ).len() == 0
            &&& is_bare(parser::node_at(t, 0), "Home"@)
        }),
{
    reveal_strlit("Home");
    reveal_strlit("file:");
    reveal_strlit("dir:");
    reveal_strlit("/");
    reveal_strlit("#");
    reveal_strlit("# ");
    let t = with_home(s);
    let end = t.len() as int;
    let from = home_len(s);
    lemma_home_first(s);
    lemma_parsed(path, s);
    lemma_next_title_within(s, t, from, end, 0);
    let next = parser::next_title_line(t, from);
    if from == 8 {
        formatting::lemma_line_end_at(t, 7, 7);
        assert(t.subrange(7, 7).len() == 0);
        assert(!parser::is_title_line(t, 7));
    }
    assert(parser::next_title_line(t, 7) == next);
    let first = parser::next_title_line(s, 0);
    assert forall|i: int| 7 <= i < next implies text::white_space(#[trigger] t[i]) by {
        if i >= from {
            assert(s[i - from] == t[from + (i - from)]);
        }
    }
    formatting::lemma_trim_start_at(t, 7, next, next);
    formatting::lemma_trim_end_at(t, next, next, next);
    assert(parser::content_text(t, next, next).len() == 0);
    let title = "Home"@;
    assert(title[0] == 'H');
    if text::starts_with(title, "file:"@) {
        assert("file:"@.len() <= title.len());
    }
    if text::starts_with(title, "dir:"@) {
        assert(title.subrange(0, 4)[0] == "dir:"@[0]);
    }
    if text::starts_with(title, "/"@) {
        assert(title.subrange(0, 1)[0] == "/"@[0]);
    }
}

/// Creating a missing home node leaves every other node as it is. The source may have another name
/// when it is read again.
pub proof fn law_created_home_reads_back(
    path: Option<Seq<char>>,
    s: Seq<char>,
    nodes: Seq<NodeView>,
    other: Option<Seq<char>>,
)
    requires
        parser::parsed(path, s) == Ok::<Seq<NodeView>, Seq<ErrorView>>(nodes),
        !wiki::has_title(nodes, "Home"@),
    ensures
        parser::parsed(other, with_home(s)) is Ok,
        ({
            let again = parser::parsed(other, with_home(s))->Ok_0;
            &&& again.len() == nodes.len() + 1
            &&& is_bare(again[0], "Home"@)
            &&& forall|i: int|
                0 <= i < nodes.len() ==> formatting::says_the_same(again[i + 1], #[trigger] nodes[i])
            &&& wiki::position_of(again, "Home"@) == Some(0int)
        }),
{
    let t = with_home(s);
    let end = t.len() as int;
    let found = parser::outline(path, s).nodes;
    let from = home_len(s);
    lemma_home_first(s);
    lemma_home_bare(path, s, other);
    lemma_parsed(path, s);
    let first = parser::next_title_line(s, 0);
    let home = parser::node_at(t, 0);
    let start = Outline { nodes: Seq::empty(), errors: parser::stray_errors(other, t) };
    assert(parser::next_title_line(t, 0) == 0);
    assert(start.errors.len() == 0);
    let already = parser::with_section(other, t, 0, start);
    let extra = seq![home];
    assert(already.nodes =~= extra);
    let before = Outline { nodes: Seq::empty(), errors: parser::stray_errors(path, s) };
    assert(!wiki::has_title(found, "Home"@)) by {
        if wiki::has_title(found, "Home"@) {
            let k = choose|k: int| 0 <= k < found.len() && #[trigger] found[k].title == "Home"@;
            assert(nodes[k].title == "Home"@);
        }
    }
    let after = lemma_outline_within(
        path,
        s,
        t,
        from,
        end,
        first,
        before,
        other,
        extra,
        already,
    );
    assert(parser::outline_from(other, t, end, after) == after);
    assert(parser::outline(other, t) == after);
    let again = scoring::scored(after.nodes);
    assert(after.nodes[0] == extra[0]);
    assert forall|i: int| 0 <= i < nodes.len() implies formatting::says_the_same(
        again[i + 1],
        #[trigger] nodes[i],
    ) by {
        assert(formatting::says_the_same(after.nodes[extra.len() + i], found[i]));
    }
    wiki::lemma_position_of(again, "Home"@);
    assert(again[0].title == "Home"@);
}

/// Whether a link that names a node names it by a line without space at its ends that does not start
/// like a filesystem link.
spec fn is_linkable(link: LinkView) -> bool {
    match link {
        LinkView::Text { title, span } => title.len() > 0 ==> formatting::is_title(title),
        _ => true,
    }
}

/// A link in content without errors has no line break before it ends.
proof fn lemma_no_line_break(s: Seq<char>, lo: int, i: int)
    requires
        0 <= lo <= i <= s.len(),
        rereading::clean(s, lo, i),
        parser::open_link(s, lo, i) is Some,
    ensures
        lo <= parser::open_link(s, lo, i)->0 < i,
        !parser::has_line_break(s, parser::open_link(s, lo, i)->0, i),
    decreases i - lo,
{
    let j = i - 1;
    let start = parser::open_link(s, lo, i)->0;
    rereading::lemma_clean_step(s, lo, j);
    if parser::open_link(s, lo, j) is Some {
        lemma_no_line_break(s, lo, j);
        assert(parser::open_link(s, lo, j) == Some(start));
        if parser::has_line_break(s, start, i) {
            let k = choose|k: int| start <= k < i && #[trigger] s[k] == '\n';
            if k < j {
                assert(parser::has_line_break(s, start, j));
            }
        }
    }
}

/// The text links in content without errors name nodes by titles that nodes can have.
proof fn lemma_links_linkable(s: Seq<char>, lo: int, i: int)
    requires
        0 <= lo <= i <= s.len(),
        rereading::clean(s, lo, i),
    ensures
        forall|k: int|
            0 <= k < parser::links_before(s, lo, i).len() ==> is_linkable(
                #[trigger] parser::links_before(s, lo, i)[k],
            ),
    decreases i - lo,
{
    if lo < i {
        let j = i - 1;
        rereading::lemma_clean_step(s, lo, j);
        lemma_links_linkable(s, lo, j);
        let earlier = parser::links_before(s, lo, j);
        let links = parser::links_before(s, lo, i);
        if let Some(start) = parser::open_link(s, lo, j) {
            lemma_no_line_break(s, lo, j);
            if parser::delimiter_at(s, lo, j, ']') && parser::link_at(s, start, j) is Ok {
                text::lemma_trimmed_subrange(s, start + 1, j);
                let target = parser::link_text(s, start, j);
                let first = text::trim_start_index(s, start + 1, j);
                assert forall|k: int| 0 <= k < target.len() implies #[trigger] target[k] != '\n' by {
                    assert(target[k] == s[first + k]);
                }
                wiki::lemma_unescaped_line(target);
                assert(is_linkable(parser::link_at(s, start, j)->Ok_0));
            }
        }
        assert forall|k: int| 0 <= k < links.len() implies is_linkable(#[trigger] links[k]) by {
            if k < earlier.len() {
                assert(links[k] == earlier[k]);
            }
        }
    }
}

/// A link among those of nodes is a link of one of them.
pub proof fn lemma_all_links_from(nodes: Seq<NodeView>, link: LinkView) -> (at: (int, int))
    requires
        validator::all_links(nodes).contains(link),
    ensures
        0 <= at.0 < nodes.len(),
        0 <= at.1 < nodes[at.0].links.len(),
        nodes[at.0].links[at.1] == link,
    decreases nodes.len(),
{
    let all = validator::all_links(nodes);
    let k = choose|k: int| 0 <= k < all.len() && all[k] == link;
    let front = nodes.drop_last();
    let earlier = validator::all_links(front);
    if k < earlier.len() {
        assert(earlier[k] == link);
        lemma_all_links_from(front, link)
    } else {
        (nodes.len() - 1, k - earlier.len())
    }
}

/// A text link to a missing node can always be given a destination: what it names can be the title of
/// a node.
pub proof fn law_missing_nodes_can_be_created(
    path: Option<Seq<char>>,
    s: Seq<char>,
    nodes: Seq<NodeView>,
    at: Position,
)
    requires
        parser::parsed(path, s) == Ok::<Seq<NodeView>, Seq<ErrorView>>(nodes),
        language_server::missing_link_at(s, nodes, at) is Some,
    ensures
        language_server::missing_link_at(s, nodes, at) matches Some((title, span))
            ==> formatting::is_title(title) && !wiki::has_title(nodes, title),
{
    let b = text::offset(s, position::index_of(s, at)->0);
    occurrences::lemma_link_view_at(nodes, b);
    let link = occurrences::link_view_at(nodes, b)->0;
    let (i, k) = lemma_all_links_from(nodes, link);
    formatting::lemma_next_section(s, 0);
    let before = Outline { nodes: Seq::empty(), errors: parser::stray_errors(path, s) };
    formatting::lemma_outline(path, s, parser::next_title_line(s, 0), before);
    let found = parser::outline(path, s).nodes;
    assert(nodes == scoring::scored(found));
    assert(formatting::is_read_from(path, s, found[i]));
    let lo = choose|lo: int| #[trigger] formatting::is_clean_section(path, s, lo) && found[i]
        == parser::node_at(s, lo);
    formatting::lemma_section(path, s, lo);
    let start = parser::content_start(s, lo);
    let end = parser::content_end(s, lo);
    lemma_links_linkable(s, start, end);
    assert(is_linkable(parser::links_before(s, start, end)[k]));
}

} // verus!
