//! What completion does to a link that is being written: it replaces what belongs to the link and nothing
//! else, and what it writes leads to what was chosen.

use vstd::prelude::*;

use crate::completion;
use crate::completion::CompletionItemKind;
use crate::completion::ContextView;
use crate::completion::ItemView;
use crate::error;
use crate::error::ErrorView;
use crate::error::Span;
use crate::formatting;
use crate::moving;
use crate::navigating;
use crate::occurrences;
use crate::ordering;
use crate::parser;
use crate::path_util;
use crate::placing;
use crate::position::Range;
use crate::rereading;
use crate::text;
use crate::validator;
use crate::wiki;
use crate::wiki::LinkView;
use crate::wiki::NodeView;

verus! {

/// Whether a text link of a source is at a byte offset.
pub open spec fn has_text_link_at(s: Seq<char>, nodes: Seq<NodeView>, i: int, k: int, b: int) -> bool {
    &&& parser::parsed(None, s) == Ok::<Seq<NodeView>, Seq<ErrorView>>(nodes)
    &&& navigating::has_link_at(nodes, i, k, b)
    &&& nodes[i].links[k] is Text
}

/// Whether some text link of a source is at a byte offset.
pub open spec fn is_in_text_link(s: Seq<char>, b: int) -> bool {
    exists|nodes: Seq<NodeView>, i: int, k: int| #[trigger] has_text_link_at(s, nodes, i, k, b)
}

/// The text link at a byte offset is the one that is found there.
proof fn lemma_text_link_at(s: Seq<char>, b: int)
    ensures
        forall|nodes: Seq<NodeView>, i: int, k: int| #[trigger]
            has_text_link_at(s, nodes, i, k, b) ==> completion::text_link_at(s, b) == Some(
                (nodes, nodes[i].links[k].span()),
            ),
        completion::text_link_at(s, b) is Some <==> is_in_text_link(s, b),
{
    assert forall|nodes: Seq<NodeView>, i: int, k: int| #[trigger]
        has_text_link_at(s, nodes, i, k, b) implies completion::text_link_at(s, b) == Some(
        (nodes, nodes[i].links[k].span()),
    ) by {
        navigating::lemma_link_found(None, s, nodes, i, k, b);
    }
    if completion::text_link_at(s, b) is Some {
        let nodes = parser::parsed(None, s)->Ok_0;
        let links = validator::all_links(nodes);
        occurrences::lemma_first_link_at(links, b);
        let q = occurrences::first_link_at(links, b)->0;
        validator::lemma_all_links_come_from(nodes, q);
        let (i, k) = choose|i: int, k: int|
            0 <= i < nodes.len() && 0 <= k < nodes[i].links.len() && links[q]
                == #[trigger] nodes[i].links[k];
        assert(has_text_link_at(s, nodes, i, k, b));
    }
}

/// A text link that is closed is completed as a whole: what a completion replaces is the link at the
/// cursor with its delimiters, and the titles that are offered are those of the wiki.
pub proof fn law_closed_links_are_completed_whole(
    s: Seq<char>,
    index: int,
    nodes: Seq<NodeView>,
    i: int,
    k: int,
)
    requires
        0 <= index <= s.len(),
        has_text_link_at(s, nodes, i, k, text::offset(s, index)),
    ensures
        completion::link_to_complete(s, index) == Some((nodes, nodes[i].links[k].span())),
        exists|a: int, b: int|
            #![trigger placing::is_link_from_to(s, a, b, nodes[i].links[k])]
            placing::is_link_from_to(s, a, b, nodes[i].links[k]) && a <= index <= b,
{
    lemma_text_link_at(s, text::offset(s, index));
    let (a, b) = placing::lemma_link_place(None, s, nodes, i, k);
    lemma_offsets(s, a, index);
    lemma_offsets(s, index, b + 1);
    assert(placing::is_link_from_to(s, a, b, nodes[i].links[k]) && a <= index <= b);
}

/// Byte offsets are ordered as indices are.
proof fn lemma_offsets(s: Seq<char>, i: int, j: int)
    requires
        0 <= i <= s.len(),
        0 <= j <= s.len(),
    ensures
        text::offset(s, i) <= text::offset(s, j) <==> i <= j,
        text::offset(s, i) < text::offset(s, j) <==> i < j,
{
    if i <= j {
        text::lemma_offset_monotonic(s, i, j);
    } else {
        text::lemma_offset_monotonic(s, j, i);
    }
}

/// Whether the last opening delimiter before the cursor is at an index: it has no backslash before it,
/// and up to the cursor there is no line feed and no other delimiter without a backslash before it.
pub open spec fn opens_before(s: Seq<char>, a: int, index: int) -> bool {
    &&& 0 <= a < index <= s.len()
    &&& placing::is_bare(s, a, '[')
    &&& placing::is_plain_between(s, a + 1, index)
}

/// A text link that is not closed is completed from its opening delimiter up to the cursor: no character
/// after the cursor is replaced. A cursor right after a backslash is left out, since a delimiter there
/// would be escaped.
pub proof fn law_unfinished_links_are_completed_up_to_the_cursor(
    s: Seq<char>,
    index: int,
    nodes: Seq<NodeView>,
    span: Span,
)
    requires
        0 <= index <= s.len(),
        index == 0 || s[index - 1] != '\\',
        !is_in_text_link(s, text::offset(s, index)),
        completion::link_to_complete(s, index) == Some((nodes, span)),
    ensures
        span.end == text::offset(s, index),
        exists|a: int| #[trigger] opens_before(s, a, index) && span == error::span_of(s, a, index),
{
    let b = text::offset(s, index);
    let t = s.insert(index, ']');
    lemma_text_link_at(s, b);
    lemma_text_link_at(t, b);
    let (found, i, k) = choose|found: Seq<NodeView>, i: int, k: int| #[trigger]
        has_text_link_at(t, found, i, k, b);
    let link = found[i].links[k];
    let (a, e) = placing::lemma_link_place(None, t, found, i, k);
    assert(t.take(index) =~= s.take(index));
    assert(text::offset(t, index) == b);
    lemma_offsets(t, a, index);
    lemma_offsets(t, index, e + 1);
    assert(t[index] == ']');
    assert(a != index);
    if index > 0 {
        assert(t[index - 1] == s[index - 1]);
    }
    assert(index == e) by {
        if index < e {
            assert(placing::is_inner(t, index));
        }
    }
    text::lemma_offset_step(t, index);
    assert(t.take(a) =~= s.take(a));
    assert(opens_before(s, a, index)) by {
        assert(s[a] == t[a]);
        if a > 0 {
            assert(s[a - 1] == t[a - 1]);
        }
        assert forall|j: int| a + 1 <= j < index implies #[trigger] placing::is_inner(s, j) by {
            assert(placing::is_inner(t, j));
            assert(s[j] == t[j]);
            assert(s[j - 1] == t[j - 1]);
        }
    }
    assert(span == error::span_of(s, a, index));
}

/// A link is completed whenever it is a text link once it is closed at the cursor, and the titles that
/// are offered are those of the wiki with the link closed. Where there is no such link, closed or not, no
/// titles are offered.
pub proof fn law_links_are_completed_while_they_are_written(s: Seq<char>, index: int)
    requires
        0 <= index <= s.len(),
        !is_in_text_link(s, text::offset(s, index)),
    ensures
        ({
            let closed = s.take(index) + seq![']'] + s.skip(index);
            let b = text::offset(s, index);
            &&& completion::link_to_complete(s, index) is Some <==> is_in_text_link(closed, b)
            &&& forall|nodes: Seq<NodeView>, i: int, k: int| #[trigger]
                has_text_link_at(closed, nodes, i, k, b) ==> (completion::link_to_complete(
                    s,
                    index,
                ) matches Some((found, span)) && found == nodes)
        }),
{
    let b = text::offset(s, index);
    let closed = s.take(index) + seq![']'] + s.skip(index);
    assert(closed =~= s.insert(index, ']'));
    lemma_text_link_at(s, b);
    lemma_text_link_at(closed, b);
}

/// Whether a completion for a title writes a link to it: in place of the range stand delimiters with a
/// text between them that ends nowhere else, and that is read as a text link to the title.
pub open spec fn writes_link_to(item: ItemView, range: Range, title: Seq<char>, inner: Seq<char>) -> bool {
    &&& item.label == title
    &&& item.kind == CompletionItemKind::Reference
    &&& item.command is None
    &&& item.text_edit.range == range
    &&& item.text_edit.new_text == seq!['['] + inner + seq![']']
    &&& item.filter_text == seq!['['] + inner
    &&& moving::fits_in_link(inner)
    &&& forall|span: Span| #[trigger]
        parser::link_of(wiki::unescaped(text::trimmed(inner)), span) == Ok::<LinkView, Seq<char>>(
            LinkView::Text { title, span },
        )
}

/// Whether a completion for a title writes a link to it.
pub open spec fn writes_link(item: ItemView, range: Range, title: Seq<char>) -> bool {
    exists|inner: Seq<char>| #[trigger] writes_link_to(item, range, title, inner)
}

/// There is one completion for each node, in the order of their titles. Where titles do not end with a
/// backslash, the completion for a title writes a link to the node with that title in place of the range.
pub proof fn law_titles_are_completed_to_links(nodes: Seq<NodeView>, range: Range)
    ensures
        ({
            let items = completion::title_items(nodes, range);
            let sorted = wiki::nodes_by_title(nodes);
            &&& items.len() == nodes.len()
            &&& ordering::rearranges(sorted, nodes)
            &&& forall|i: int|
                0 <= i < items.len() ==> (#[trigger] items[i]).label == sorted[i].title
            &&& forall|i: int, j: int|
                0 <= i < j < items.len() ==> ordering::text_up_to(
                    (#[trigger] items[i]).label,
                    (#[trigger] items[j]).label,
                )
            &&& forall|i: int|
                0 <= i < items.len() && formatting::is_title(sorted[i].title)
                    && sorted[i].title.last() != '\\' ==> writes_link(
                    #[trigger] items[i],
                    range,
                    sorted[i].title,
                )
        }),
{
    let items = completion::title_items(nodes, range);
    let sorted = wiki::nodes_by_title(nodes);
    ordering::law_nodes_by_title(nodes);
    assert forall|i: int| 0 <= i < items.len() implies (#[trigger] items[i]).label
        == sorted[i].title by {}
    assert forall|i: int, j: int| 0 <= i < j < items.len() implies ordering::text_up_to(
        (#[trigger] items[i]).label,
        (#[trigger] items[j]).label,
    ) by {
        assert(ordering::text_up_to(sorted[i].title, sorted[j].title));
    }
    assert forall|i: int|
        0 <= i < items.len() && formatting::is_title(sorted[i].title) && sorted[i].title.last()
            != '\\' implies writes_link(#[trigger] items[i], range, sorted[i].title) by {
        let title = sorted[i].title;
        let inner = wiki::escaped(title);
        reveal_strlit("[");
        reveal_strlit("]");
        wiki::lemma_escaped_chars(title);
        wiki::law_unescaping_undoes_escaping(title);
        rereading::lemma_trimmed_again(inner);
        assert("["@ =~= seq!['[']);
        assert("]"@ =~= seq![']']);
        assert(writes_link_to(items[i], range, title, inner));
    }
}

/// Whether the path of a filesystem link is being written at a cursor: after the opening delimiter and
/// space there is a prefix, and the path starts behind it, without the space behind a prefix that has a
/// colon.
pub open spec fn writes_path(
    s: Seq<char>,
    open: int,
    start: int,
    path_start: int,
    cursor: int,
    is_directory_link: bool,
) -> bool {
    &&& open < start
    &&& start < path_start <= cursor
    &&& forall|j: int| open < j < start ==> text::white_space(#[trigger] s[j])
    &&& !text::white_space(s[start])
    &&& {
        ||| {
            &&& !is_directory_link
            &&& s[start] == '/'
            &&& path_start == start + 1
        }
        ||| {
            &&& is_directory_link
            &&& start + 4 <= path_start
            &&& s.subrange(start, start + 4) == seq!['d', 'i', 'r', ':']
            &&& forall|j: int| start + 4 <= j < path_start ==> text::white_space(#[trigger] s[j])
            &&& path_start < cursor ==> !text::white_space(s[path_start])
        }
        ||| {
            &&& !is_directory_link
            &&& start + 5 <= path_start
            &&& s.subrange(start, start + 5) == seq!['f', 'i', 'l', 'e', ':']
            &&& forall|j: int| start + 5 <= j < path_start ==> text::white_space(#[trigger] s[j])
            &&& path_start < cursor ==> !text::white_space(s[path_start])
        }
    }
}

/// Whether a context describes the filesystem link that is being written at a cursor.
pub open spec fn describes(
    s: Seq<char>,
    context: ContextView,
    open: int,
    start: int,
    cursor: int,
) -> bool {
    let name = context.path_start + context.typed_directory.len();
    &&& opens_before(s, open, cursor)
    &&& writes_path(s, open, start, context.path_start, cursor, context.is_directory_link)
    &&& context.cursor == cursor
    &&& name <= cursor
    &&& context.typed_directory == s.subrange(context.path_start, name)
    &&& name == context.path_start || s[name - 1] == '/'
    &&& forall|j: int| name <= j < cursor ==> #[trigger] s[j] != '/'
    &&& context.directory == path_util::normalized(wiki::unescaped(context.typed_directory))
    &&& !path_util::is_absolute(wiki::unescaped(context.typed_directory))
    &&& !path_util::components(wiki::unescaped(context.typed_directory)).contains(".."@)
    &&& match context.closing_delimiter {
        Some(at) => cursor <= at < s.len() && s[at] == ']' && (at == 0 || s[at - 1] != '\\')
            && placing::is_plain_between(s, cursor, at),
        None => true,
    }
}

/// The index after the last separator.
proof fn lemma_name_start(s: Seq<char>, lo: int, hi: int)
    requires
        0 <= lo <= hi <= s.len(),
    ensures
        lo <= completion::name_start(s, lo, hi) <= hi,
        completion::name_start(s, lo, hi) == lo || s[completion::name_start(s, lo, hi) - 1] == '/',
        forall|j: int| completion::name_start(s, lo, hi) <= j < hi ==> #[trigger] s[j] != '/',
    decreases hi - lo,
{
    if lo < hi && s[hi - 1] != '/' {
        lemma_name_start(s, lo, hi - 1);
    }
}

/// The last opening delimiter on a line.
proof fn lemma_last_open(s: Seq<char>, lo: int, i: int)
    requires
        0 <= lo <= i <= s.len(),
        lo == 0 || s[lo - 1] == '\n',
        forall|j: int| lo <= j < i ==> #[trigger] s[j] != '\n',
    ensures
        match completion::last_open(s, lo, i) {
            Some(open) => lo <= open && opens_before(s, open, i),
            None => forall|open: int| #[trigger] opens_before(s, open, i) ==> open < lo,
        },
    decreases i - lo,
{
    if lo < i {
        lemma_last_open(s, lo, i - 1);
        if parser::delimiter_at(s, lo, i - 1, '[') {
            assert(opens_before(s, i - 1, i));
        } else if parser::delimiter_at(s, lo, i - 1, ']') {
            assert forall|open: int| #[trigger] opens_before(s, open, i) implies open < lo by {
                if open < i - 1 {
                    assert(placing::is_inner(s, i - 1));
                }
            }
        } else {
            if let Some(open) = completion::last_open(s, lo, i - 1) {
                assert(placing::is_plain_between(s, open + 1, i)) by {
                    assert forall|j: int| open + 1 <= j < i implies #[trigger] placing::is_inner(
                        s,
                        j,
                    ) by {
                        assert(s[j] != '\n');
                    }
                }
            } else {
                assert forall|open: int| #[trigger] opens_before(s, open, i) implies open < lo by {
                    if open < i - 1 {
                        assert(opens_before(s, open, i - 1));
                    }
                }
            }
        }
    }
}

/// The next closing delimiter on a line.
proof fn lemma_next_close(s: Seq<char>, lo: int, i: int, stop: int)
    requires
        0 <= lo <= i,
        stop <= s.len(),
        lo == 0 || s[lo - 1] == '\n',
        forall|j: int| lo <= j < stop ==> #[trigger] s[j] != '\n',
    ensures
        completion::next_close(s, lo, i, stop) matches Some(at) ==> i <= at < stop && s[at] == ']'
            && (at == 0 || s[at - 1] != '\\') && placing::is_plain_between(s, i, at),
    decreases stop - i,
{
    if i < stop {
        if !parser::delimiter_at(s, lo, i, ']') && !parser::delimiter_at(s, lo, i, '[') {
            lemma_next_close(s, lo, i + 1, stop);
            if let Some(at) = completion::next_close(s, lo, i, stop) {
                assert(placing::is_plain_between(s, i, at)) by {
                    assert forall|j: int| i <= j < at implies #[trigger] placing::is_inner(
                        s,
                        j,
                    ) by {
                        assert(s[j] != '\n');
                    }
                }
            }
        }
    }
}

proof fn lemma_line(s: Seq<char>, i: int)
    requires
        0 <= i <= s.len(),
    ensures
        0 <= text::line_start(s, i) <= i,
        text::line_start(s, i) == 0 || s[text::line_start(s, i) - 1] == '\n',
        forall|j: int| text::line_start(s, i) <= j < i ==> #[trigger] s[j] != '\n',
    decreases i,
{
    if 0 < i && s[i - 1] != '\n' {
        lemma_line(s, i - 1);
    }
}

/// When a filesystem link is being completed, the completion is about the link that the cursor is in: its
/// path starts behind the prefix of the link, the directory that has been typed ends with the last
/// separator before the cursor and does not lead out of the wiki's directory, and the link's own closing
/// delimiter is the next delimiter behind the cursor, if that is a closing one.
pub proof fn law_filesystem_completion_is_about_the_link_at_the_cursor(
    s: Seq<char>,
    cursor: int,
    context: ContextView,
)
    requires
        0 <= cursor <= s.len(),
        completion::context_at(s, cursor) == Some(context),
        cursor <= parser::line_stop(s, text::line_start(s, cursor)),
    ensures
        exists|open: int, start: int| #[trigger] describes(s, context, open, start, cursor),
        !parser::is_title_line(s, text::line_start(s, cursor)),
{
    reveal_strlit("file:");
    reveal_strlit("dir:");
    reveal_strlit("/");
    let lo = text::line_start(s, cursor);
    let stop = parser::line_stop(s, lo);
    lemma_line(s, cursor);
    text::lemma_line_end(s, lo);
    assert(completion::smaller(cursor, stop) == cursor);
    lemma_last_open(s, lo, cursor);
    let open = completion::last_open(s, lo, cursor)->0;
    text::lemma_trim_start_index(s, open + 1, cursor);
    let start = text::trim_start_index(s, open + 1, cursor);
    let target = s.subrange(start, cursor);
    let path_start = context.path_start;
    assert("file:"@ =~= seq!['f', 'i', 'l', 'e', ':']);
    assert("dir:"@ =~= seq!['d', 'i', 'r', ':']);
    assert("/"@ =~= seq!['/']);
    if text::starts_with(target, "file:"@) {
        assert(target.subrange(0, 5) =~= s.subrange(start, start + 5));
        text::lemma_trim_start_index(s, start + 5, cursor);
        assert(path_start == text::trim_start_index(s, start + 5, cursor));
    } else if text::starts_with(target, "dir:"@) {
        assert(target.subrange(0, 4) =~= s.subrange(start, start + 4));
        text::lemma_trim_start_index(s, start + 4, cursor);
        assert(path_start == text::trim_start_index(s, start + 4, cursor));
    } else {
        assert(target.subrange(0, 1)[0] == s[start]);
        assert(path_start == start + 1);
    }
    assert(writes_path(s, open, start, path_start, cursor, context.is_directory_link));
    lemma_name_start(s, path_start, cursor);
    lemma_next_close(s, lo, cursor, stop);
    let name = completion::name_start(s, path_start, cursor);
    assert(context.typed_directory.len() == name - path_start);
    assert(describes(s, context, open, start, cursor));
}

/// A filesystem link that is being written at the cursor is completed unless the directory that has been
/// typed leads out of the wiki's directory, or the line is a title line.
pub proof fn law_filesystem_links_are_completed_while_they_are_written(
    s: Seq<char>,
    open: int,
    start: int,
    path_start: int,
    cursor: int,
    is_directory_link: bool,
)
    requires
        opens_before(s, open, cursor),
        writes_path(s, open, start, path_start, cursor, is_directory_link),
        cursor <= parser::line_stop(s, text::line_start(s, cursor)),
        !parser::is_title_line(s, text::line_start(s, cursor)),
    ensures
        exists|name: int|
            {
                &&& path_start <= name <= cursor
                &&& name == path_start || s[name - 1] == '/'
                &&& forall|j: int| name <= j < cursor ==> s[j] != '/'
                &&& ({
                    let typed = wiki::unescaped(#[trigger] s.subrange(path_start, name));
                    completion::context_at(s, cursor) is None <==> path_util::is_absolute(typed)
                        || path_util::components(typed).contains(".."@)
                })
            },
        completion::context_at(s, cursor) matches Some(context) ==> context.path_start == path_start
            && context.is_directory_link == is_directory_link,
{
    reveal_strlit("file:");
    reveal_strlit("dir:");
    reveal_strlit("/");
    let lo = text::line_start(s, cursor);
    let stop = parser::line_stop(s, lo);
    lemma_line(s, cursor);
    text::lemma_line_end(s, lo);
    assert(completion::smaller(cursor, stop) == cursor);
    lemma_last_open(s, lo, cursor);
    assert(open >= lo) by {
        if open < lo - 1 {
            assert(placing::is_inner(s, lo - 1));
        }
    }
    let found = completion::last_open(s, lo, cursor)->0;
    assert(found == open) by {
        if found < open {
            assert(placing::is_inner(s, open));
        } else if open < found {
            assert(placing::is_inner(s, found));
        }
    }
    formatting::lemma_trim_start_at(s, open + 1, cursor, start);
    let target = s.subrange(start, cursor);
    assert("file:"@ =~= seq!['f', 'i', 'l', 'e', ':']);
    assert("dir:"@ =~= seq!['d', 'i', 'r', ':']);
    assert("/"@ =~= seq!['/']);
    assert(target[0] == s[start]);
    if target.len() >= 5 {
        assert(target.subrange(0, 5) =~= s.subrange(start, start + 5));
    }
    if target.len() >= 4 {
        assert(target.subrange(0, 4) =~= s.subrange(start, start + 4));
        assert(s.subrange(start, start + 4)[0] == s[start]);
    }
    assert(target.subrange(0, 1) =~= seq![s[start]]);
    if s[start] == '/' {
        assert(target.subrange(0, 1) =~= seq!['/']);
        if text::starts_with(target, "file:"@) {
            assert(target.subrange(0, 5)[0] == target[0]);
        }
        if text::starts_with(target, "dir:"@) {
            assert(target.subrange(0, 4)[0] == target[0]);
        }
    } else if is_directory_link {
        formatting::lemma_trim_start_at(s, start + 4, cursor, path_start);
        assert(s.subrange(start, start + 4)[0] == 'd');
        if text::starts_with(target, "file:"@) {
            assert(target.subrange(0, 5)[0] == target[0]);
        }
    } else {
        formatting::lemma_trim_start_at(s, start + 5, cursor, path_start);
    }
    lemma_name_start(s, path_start, cursor);
    let name = completion::name_start(s, path_start, cursor);
    let typed = wiki::unescaped(s.subrange(path_start, name));
    assert(completion::context_at(s, cursor) == completion::path_context(
        s,
        cursor,
        is_directory_link,
        path_start,
    ));
}

} // verus!
