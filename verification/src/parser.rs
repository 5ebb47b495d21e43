//! The wiki format.

use vstd::prelude::*;
use vstd::string::StringExecFns;

use crate::error;
use crate::error::Error;
use crate::error::ErrorView;
use crate::error::SourceRange;
use crate::path_util;
use crate::phrase;
use crate::scoring;
use crate::text;
use crate::text::Text;
use crate::wiki;
use crate::wiki::Link;
use crate::wiki::LinkView;
use crate::wiki::NodeView;
use crate::wiki::TextNode;
use crate::wiki::Wiki;

verus! {

/// Whether the character at an index belongs to the white space that stands between the end of a line
/// and its line feed.
pub open spec fn ends_line(s: Seq<char>, i: int) -> bool
    decreases s.len() - i,
{
    &&& 0 <= i < s.len() - 1
    &&& s[i] != '\n'
    &&& text::white_space(s[i])
    &&& s[i + 1] == '\n' || ends_line(s, i + 1)
}

/// A text from an index on, with its lines trimmed at the end.
pub open spec fn normalized_from(s: Seq<char>, i: int) -> Seq<char>
    decreases s.len() - i,
{
    if i < 0 || i >= s.len() {
        Seq::empty()
    } else if ends_line(s, i) {
        normalized_from(s, i + 1)
    } else {
        seq![s[i]] + normalized_from(s, i + 1)
    }
}

/// A text with its lines trimmed at the end, which also writes Windows line endings as line feeds.
/// The last line has no line feed and stays as it is.
pub open spec fn normalized(s: Seq<char>) -> Seq<char> {
    normalized_from(s, 0)
}

/// What a filesystem link path stands for: the path below the wiki's directory, or what is wrong
/// with it.
pub open spec fn filesystem_path(path: Seq<char>) -> Result<Seq<char>, Seq<char>> {
    if path.len() == 0 {
        Err("This link is missing a path."@)
    } else if path_util::is_absolute(path) {
        Err("Path "@ + phrase::code(path) + " must be relative to the wiki directory."@)
    } else if path_util::components(path).contains(".."@) {
        Err("Path "@ + phrase::code(path) + " must not contain "@ + phrase::code(".."@) + "."@)
    } else {
        Ok(path_util::normalized(path))
    }
}

/// What stands between the delimiters of a link that starts and ends at given indices, without the
/// space around it.
pub open spec fn link_text(s: Seq<char>, start: int, end: int) -> Seq<char> {
    text::trimmed(s.subrange(start + 1, end))
}

/// What a link target stands for: the link, or what is wrong with it.
pub open spec fn link_of(target: Seq<char>, span: error::Span) -> Result<LinkView, Seq<char>> {
    if text::starts_with(target, "file:"@) {
        match filesystem_path(text::trimmed_start(target.skip("file:"@.len() as int))) {
            Ok(path) => Ok(LinkView::File { path, span }),
            Err(message) => Err(message),
        }
    } else if text::starts_with(target, "dir:"@) {
        match filesystem_path(text::trimmed_start(target.skip("dir:"@.len() as int))) {
            Ok(path) => Ok(LinkView::Directory { path, span }),
            Err(message) => Err(message),
        }
    } else if text::starts_with(target, "/"@) {
        let below = target.skip("/"@.len() as int);
        if below.len() == 0 {
            Ok(LinkView::Directory { path: below, span })
        } else {
            match filesystem_path(below) {
                Ok(path) => if below.last() == '/' {
                    Ok(LinkView::Directory { path, span })
                } else {
                    Ok(LinkView::File { path, span })
                },
                Err(message) => Err(message),
            }
        }
    } else {
        Ok(LinkView::Text { title: target, span })
    }
}

/// Whether a path ends with a reference to the directory that it names so far.
pub open spec fn ends_with_here(path: Seq<char>) -> bool {
    path.len() >= 2 && path[path.len() - 2] == '/' && path.last() == '.'
}

/// The path of a filesystem link as formatting writes it after a prefix: its normalized form, with the
/// `./` in front of it or the `/` behind it if there is one.
pub open spec fn written_path(path: Seq<char>) -> Seq<char> {
    let names = path_util::normalized(path);
    let end = if path.last() == '/' || ends_with_here(path) {
        "/"@
    } else {
        ""@
    };
    if names.len() == 0 {
        "."@ + end
    } else if text::starts_with(path, "./"@) {
        "./"@ + names + end
    } else {
        names + end
    }
}

/// The path of a filesystem link as formatting writes it after a leading `/`: its normalized form, with
/// the `/` behind it that makes it name a directory.
pub open spec fn written_below(path: Seq<char>) -> Seq<char> {
    let names = path_util::normalized(path);
    if path.len() == 0 {
        path
    } else if names.len() == 0 {
        if path.last() == '/' {
            ""@
        } else {
            "."@
        }
    } else if path.last() == '/' {
        names + "/"@
    } else if ends_with_here(path) {
        names + "/."@
    } else {
        names
    }
}

/// A link target as formatting writes it.
pub open spec fn written_target(target: Seq<char>) -> Seq<char> {
    if text::starts_with(target, "file:"@) {
        "file:"@ + written_path(text::trimmed_start(target.skip("file:"@.len() as int)))
    } else if text::starts_with(target, "dir:"@) {
        "dir:"@ + written_path(text::trimmed_start(target.skip("dir:"@.len() as int)))
    } else {
        "/"@ + written_below(target.skip("/"@.len() as int))
    }
}

/// Whether a link target stands for a file or a directory.
pub open spec fn is_filesystem_target(target: Seq<char>) -> bool {
    match link_of(target, error::Span { start: 0, end: 0 }) {
        Ok(LinkView::Text { title, span }) => false,
        Ok(link) => true,
        Err(message) => false,
    }
}

/// What formatting writes between the delimiters of a link, given what stands there: a filesystem link
/// is written in its normalized form, and any other link stays as it is.
pub open spec fn written_link(x: Seq<char>) -> Seq<char> {
    if is_filesystem_target(wiki::unescaped(x)) {
        wiki::escaped(written_target(wiki::unescaped(x)))
    } else {
        x
    }
}

/// The link that starts and ends at given indices, or what is wrong with it.
pub open spec fn link_at(s: Seq<char>, start: int, end: int) -> Result<LinkView, Seq<char>> {
    link_of(wiki::unescaped(link_text(s, start, end)), error::span_of(s, start, end + 1))
}

/// Whether a link delimiter stands at an index of the content that starts at `lo`, without a
/// backslash before it in that content.
pub open spec fn delimiter_at(s: Seq<char>, lo: int, i: int, delimiter: char) -> bool {
    s[i] == delimiter && !(i > lo && s[i - 1] == '\\')
}

/// The opening delimiter of the link that is still open before an index of the content.
pub open spec fn open_link(s: Seq<char>, lo: int, i: int) -> Option<int>
    decreases i - lo,
{
    if i <= lo {
        None
    } else if delimiter_at(s, lo, i - 1, ']') {
        None
    } else if delimiter_at(s, lo, i - 1, '[') && open_link(s, lo, i - 1) is None {
        Some(i - 1)
    } else {
        open_link(s, lo, i - 1)
    }
}

/// Whether there is a line feed between two indices.
pub open spec fn has_line_break(s: Seq<char>, start: int, end: int) -> bool {
    exists|i: int| start <= i < end && #[trigger] s[i] == '\n'
}

/// The errors that the character at an index of the content gives rise to.
pub open spec fn errors_at(path: Option<Seq<char>>, s: Seq<char>, lo: int, i: int) -> Seq<ErrorView> {
    match open_link(s, lo, i) {
        Some(start) => if s[i] == '\n' && !has_line_break(s, start, i) {
            seq![
                error::located_error(
                    "This link contains a line break."@,
                    path,
                    s,
                    error::span_of(s, start, i + 1),
                    None,
                ),
            ]
        } else if delimiter_at(s, lo, i, '[') {
            seq![
                error::located_error(
                    "Unexpected opening link delimiter."@,
                    path,
                    s,
                    error::span_of(s, i, i + 1),
                    None,
                ),
            ]
        } else if delimiter_at(s, lo, i, ']') {
            match link_at(s, start, i) {
                Ok(link) => Seq::empty(),
                Err(message) => seq![
                    error::located_error(message, path, s, error::span_of(s, start, i + 1), None),
                ],
            }
        } else {
            Seq::empty()
        },
        None => if delimiter_at(s, lo, i, ']') {
            seq![
                error::located_error(
                    "Unexpected closing link delimiter."@,
                    path,
                    s,
                    error::span_of(s, i, i + 1),
                    None,
                ),
            ]
        } else {
            Seq::empty()
        },
    }
}

/// The errors that the characters of the content before an index give rise to.
pub open spec fn errors_before(path: Option<Seq<char>>, s: Seq<char>, lo: int, i: int) -> Seq<
    ErrorView,
>
    decreases i - lo,
{
    if i <= lo {
        Seq::empty()
    } else {
        errors_before(path, s, lo, i - 1) + errors_at(path, s, lo, i - 1)
    }
}

/// The errors in the content between two indices.
pub open spec fn content_errors(path: Option<Seq<char>>, s: Seq<char>, lo: int, hi: int) -> Seq<
    ErrorView,
> {
    let errors = errors_before(path, s, lo, hi);
    match open_link(s, lo, hi) {
        Some(start) => errors.push(
            error::located_error(
                "Unclosed link."@,
                path,
                s,
                error::span_of(s, start, start + 1),
                None,
            ),
        ),
        None => errors,
    }
}

/// The links in the content that end before an index.
pub open spec fn links_before(s: Seq<char>, lo: int, i: int) -> Seq<LinkView>
    decreases i - lo,
{
    if i <= lo {
        Seq::empty()
    } else {
        let links = links_before(s, lo, i - 1);
        match open_link(s, lo, i - 1) {
            Some(start) => if delimiter_at(s, lo, i - 1, ']') {
                match link_at(s, start, i - 1) {
                    Ok(link) => links.push(link),
                    Err(message) => links,
                }
            } else {
                links
            },
            None => links,
        }
    }
}

/// The index after the last link in the content that ends before an index.
pub open spec fn prose_start(s: Seq<char>, lo: int, i: int) -> int
    decreases i - lo,
{
    if i <= lo {
        lo
    } else if delimiter_at(s, lo, i - 1, ']') && open_link(s, lo, i - 1) is Some {
        i
    } else {
        prose_start(s, lo, i - 1)
    }
}

/// The content up to the last link that ends before an index: the space inside link delimiters is
/// left out, filesystem links are normalized, and lines are trimmed at the end.
pub open spec fn text_before(s: Seq<char>, lo: int, i: int) -> Seq<char>
    decreases i - lo,
{
    if i <= lo {
        Seq::empty()
    } else {
        let before = text_before(s, lo, i - 1);
        match open_link(s, lo, i - 1) {
            Some(start) => if delimiter_at(s, lo, i - 1, ']') {
                before + normalized(s.subrange(prose_start(s, lo, i - 1), start + 1))
                    + written_link(link_text(s, start, i - 1)) + "]"@
            } else {
                before
            },
            None => before,
        }
    }
}

/// The content between two indices: the space inside link delimiters is left out, filesystem links are
/// normalized, and lines are trimmed at the end.
pub open spec fn content_text(s: Seq<char>, lo: int, hi: int) -> Seq<char> {
    text_before(s, lo, hi) + normalized(s.subrange(prose_start(s, lo, hi), hi))
}

/// The index after the last character of the line that starts at an index, not counting its line
/// ending.
pub open spec fn line_stop(s: Seq<char>, lo: int) -> int {
    let end = text::line_end(s, lo);
    if end > lo && s[end - 1] == '\r' {
        end - 1
    } else {
        end
    }
}

/// The index at which the next line starts.
pub open spec fn next_line(s: Seq<char>, lo: int) -> int {
    let end = text::line_end(s, lo);
    if end < s.len() {
        end + 1
    } else {
        end
    }
}

/// Whether the line that starts at an index is a title line: a title marker followed by a space or
/// by the end of the line.
pub open spec fn is_title_line(s: Seq<char>, lo: int) -> bool {
    let line = s.subrange(lo, line_stop(s, lo));
    line == "#"@ || text::starts_with(line, "# "@)
}

/// The start of the first title line at or after the line that starts at an index, or the length of
/// the source.
pub open spec fn next_title_line(s: Seq<char>, lo: int) -> int
    decreases s.len() - lo,
{
    if lo < 0 || lo >= s.len() {
        s.len() as int
    } else if is_title_line(s, lo) {
        lo
    } else {
        proof {
            text::lemma_line_end(s, lo);
        }
        next_title_line(s, next_line(s, lo))
    }
}

/// The index after the marker of a title line.
pub open spec fn raw_title_start(s: Seq<char>, lo: int) -> int {
    if line_stop(s, lo) == lo + 1 {
        lo + 1
    } else {
        lo + 2
    }
}

/// Where the title of a title line starts, without the space before it.
pub open spec fn title_start(s: Seq<char>, lo: int) -> int {
    text::trim_start_index(s, raw_title_start(s, lo), line_stop(s, lo))
}

/// Where the title of a title line ends, without the space after it.
pub open spec fn title_end(s: Seq<char>, lo: int) -> int {
    text::trim_end_index(s, title_start(s, lo), line_stop(s, lo))
}

/// The title of a title line.
pub open spec fn title_of(s: Seq<char>, lo: int) -> Seq<char> {
    s.subrange(title_start(s, lo), title_end(s, lo))
}

/// What is wrong with the title of a title line, if anything.
pub open spec fn title_error(path: Option<Seq<char>>, s: Seq<char>, lo: int) -> Option<ErrorView> {
    let title = title_of(s, lo);
    if title.len() == 0 {
        Some(
            error::located_error(
                "This title is empty."@,
                path,
                s,
                error::span_of(s, lo, line_stop(s, lo)),
                None,
            ),
        )
    } else if text::starts_with(title, "file:"@) || text::starts_with(title, "dir:"@) {
        Some(
            error::located_error(
                "This title cannot start with "@ + phrase::code("file:"@) + " or "@ + phrase::code(
                    "dir:"@,
                ) + "."@,
                path,
                s,
                error::span_of(s, title_start(s, lo), title_end(s, lo)),
                None,
            ),
        )
    } else if text::starts_with(title, "/"@) {
        Some(
            error::located_error(
                "This title cannot start with "@ + phrase::code("/"@) + "."@,
                path,
                s,
                error::span_of(s, title_start(s, lo), title_end(s, lo)),
                None,
            ),
        )
    } else {
        None
    }
}

/// The range between two indices without the space at its ends.
pub open spec fn trimmed_span(s: Seq<char>, lo: int, hi: int) -> error::Span {
    let start = text::trim_start_index(s, lo, hi);
    error::span_of(s, start, text::trim_end_index(s, start, hi))
}

/// Where the content of the node that starts at a title line starts, without the space before it.
pub open spec fn content_start(s: Seq<char>, lo: int) -> int {
    text::trim_start_index(s, next_line(s, lo), next_title_line(s, next_line(s, lo)))
}

/// Where the content of the node that starts at a title line ends, without the space after it.
pub open spec fn content_end(s: Seq<char>, lo: int) -> int {
    text::trim_end_index(s, content_start(s, lo), next_title_line(s, next_line(s, lo)))
}

/// The node that starts at a title line.
pub open spec fn node_at(s: Seq<char>, lo: int) -> NodeView {
    NodeView {
        title: title_of(s, lo),
        content: content_text(s, content_start(s, lo), content_end(s, lo)),
        links: links_before(s, content_start(s, lo), content_end(s, lo)),
        depth: None,
        span: trimmed_span(s, lo, next_title_line(s, next_line(s, lo))),
        title_span: error::span_of(s, title_start(s, lo), title_end(s, lo)),
    }
}

/// The errors in the node that starts at a title line, given the nodes before it.
pub open spec fn node_errors(
    path: Option<Seq<char>>,
    s: Seq<char>,
    lo: int,
    nodes: Seq<NodeView>,
) -> Seq<ErrorView> {
    let errors = content_errors(path, s, content_start(s, lo), content_end(s, lo));
    if wiki::has_title(nodes, title_of(s, lo)) {
        errors.push(
            error::located_error(
                "Duplicate title "@ + phrase::code(title_of(s, lo)) + "."@,
                path,
                s,
                error::span_of(s, title_start(s, lo), title_end(s, lo)),
                None,
            ),
        )
    } else {
        errors
    }
}

/// The nodes and the errors of a source.
pub struct Outline {
    pub nodes: Seq<NodeView>,
    pub errors: Seq<ErrorView>,
}

/// The outline of a source after the section that starts at a title line: a section with an error
/// adds its errors, and one without adds its node.
pub open spec fn with_section(path: Option<Seq<char>>, s: Seq<char>, lo: int, before: Outline) -> Outline {
    match title_error(path, s, lo) {
        Some(error) => Outline { nodes: before.nodes, errors: before.errors.push(error) },
        None => {
            let errors = node_errors(path, s, lo, before.nodes);
            if errors.len() == 0 {
                Outline { nodes: before.nodes.push(node_at(s, lo)), errors: before.errors }
            } else {
                Outline { nodes: before.nodes, errors: before.errors + errors }
            }
        },
    }
}

/// The outline of a source, given the outline of what comes before a title line.
pub open spec fn outline_from(path: Option<Seq<char>>, s: Seq<char>, lo: int, before: Outline) -> Outline
    decreases s.len() - lo,
{
    if lo < 0 || lo >= s.len() {
        before
    } else {
        proof {
            text::lemma_line_end(s, lo);
            lemma_next_title_line(s, next_line(s, lo));
        }
        outline_from(
            path,
            s,
            next_title_line(s, next_line(s, lo)),
            with_section(path, s, lo, before),
        )
    }
}

/// The first line at or after the one that starts at `lo` that starts before `hi` and is not blank.
pub open spec fn first_stray_line(s: Seq<char>, lo: int, hi: int) -> Option<int>
    decreases s.len() - lo,
{
    if lo < 0 || lo >= hi || hi > s.len() {
        None
    } else if text::trimmed(s.subrange(lo, line_stop(s, lo))).len() > 0 {
        Some(lo)
    } else {
        proof {
            text::lemma_line_end(s, lo);
        }
        first_stray_line(s, next_line(s, lo), hi)
    }
}

/// The error for content before the first title line, if there is such content.
pub open spec fn stray_errors(path: Option<Seq<char>>, s: Seq<char>) -> Seq<ErrorView> {
    match first_stray_line(s, 0, next_title_line(s, 0)) {
        Some(lo) => seq![
            error::located_error(
                "This content is not in any node."@,
                path,
                s,
                trimmed_span(s, lo, line_stop(s, lo)),
                None,
            ),
        ],
        None => Seq::empty(),
    }
}

/// The outline of a source.
pub open spec fn outline(path: Option<Seq<char>>, s: Seq<char>) -> Outline {
    outline_from(
        path,
        s,
        next_title_line(s, 0),
        Outline { nodes: Seq::empty(), errors: stray_errors(path, s) },
    )
}

pub proof fn lemma_next_title_line(s: Seq<char>, lo: int)
    requires
        0 <= lo <= s.len(),
    ensures
        lo <= next_title_line(s, lo) <= s.len(),
        next_title_line(s, lo) < s.len() ==> is_title_line(s, next_title_line(s, lo)),
    decreases s.len() - lo,
{
    if lo < s.len() && !is_title_line(s, lo) {
        text::lemma_line_end(s, lo);
        lemma_next_title_line(s, next_line(s, lo));
    }
}

/// White space before the end of a line stretches to a line feed, or to something else.
proof fn lemma_ends_line(s: Seq<char>, i: int, j: int)
    requires
        0 <= i < j <= s.len(),
        forall|k: int| i <= k < j ==> text::white_space(#[trigger] s[k]) && s[k] != '\n',
        j == s.len() || s[j] == '\n' || !text::white_space(s[j]),
    ensures
        ends_line(s, i) == (j < s.len() && s[j] == '\n'),
    decreases j - i,
{
    assert(text::white_space(s[i]));
    if i + 1 < j {
        lemma_ends_line(s, i + 1, j);
        assert(s[i + 1] != '\n');
    } else if j < s.len() && s[j] != '\n' {
        assert(!ends_line(s, j));
    }
}

/// Append source text with its lines trimmed at the end, which normalizes Windows line endings as well.
fn push_normalized(target: &mut Vec<char>, source: &[char])
    ensures
        final(target)@ == old(target)@ + normalized(source@),
{
    let ghost s = source@;
    let ghost whole = target@ + normalized(s);
    let total: usize = source.len();
    let mut i: usize = 0;
    while i < total
        invariant
            s == source@,
            total == s.len(),
            i <= total,
            target@ + normalized_from(s, i as int) == whole,
        decreases total - i,
    {
        // Find the white space that starts here, which ends a line if a line feed follows it.
        let mut j: usize = i;
        while j < total && source[j] != '\n' && text::is_white_space(source[j])
            invariant
                s == source@,
                total == s.len(),
                i <= j <= total,
                forall|k: int|
                    i <= k < j ==> text::white_space(#[trigger] s[k]) && s[k] != '\n',
            decreases total - j,
        {
            j = j + 1;
        }
        if j > i && j < total && source[j] == '\n' {
            while i < j
                invariant
                    s == source@,
                    total == s.len(),
                    i <= j < total,
                    s[j as int] == '\n',
                    forall|k: int|
                        i <= k < j ==> text::white_space(#[trigger] s[k]) && s[k] != '\n',
                    target@ + normalized_from(s, i as int) == whole,
                decreases j - i,
            {
                proof {
                    lemma_ends_line(s, i as int, j as int);
                }
                i = i + 1;
            }
        } else {
            // Keep the white space along with the character after it.
            let stop: usize = if j < total {
                j + 1
            } else {
                j
            };
            while i < stop
                invariant
                    s == source@,
                    total == s.len(),
                    i <= stop <= total,
                    i <= j + 1,
                    j <= stop <= j + 1,
                    j < total ==> s[j as int] == '\n' || !text::white_space(s[j as int]),
                    i < j ==> !(j < total && s[j as int] == '\n'),
                    j <= total,
                    j == total ==> stop == j,
                    forall|k: int|
                        i <= k < j ==> text::white_space(#[trigger] s[k]) && s[k] != '\n',
                    target@ + normalized_from(s, i as int) == whole,
                decreases stop - i,
            {
                proof {
                    if i < j {
                        lemma_ends_line(s, i as int, j as int);
                    }
                    assert(!ends_line(s, i as int));
                    assert(target@ + (seq![s[i as int]] + normalized_from(s, i + 1))
                        =~= target@.push(s[i as int]) + normalized_from(s, i + 1));
                }
                target.push(source[i]);
                i = i + 1;
            }
        }
    }
    proof {
        assert(target@ + normalized_from(s, i as int) =~= target@);
    }
}

/// The text of a result's value or error.
pub open spec fn result_views(result: Result<String, String>) -> Result<Seq<char>, Seq<char>> {
    match result {
        Ok(value) => Ok(value@),
        Err(message) => Err(message@),
    }
}

/// Normalize a filesystem link path while keeping it inside the wiki's logical tree, describing any
/// problem with a message.
pub fn normalize_filesystem_path(path: &str) -> (result: Result<String, String>)
    ensures
        result_views(result) == filesystem_path(path@),
{
    // Reject an empty path before inspecting its components.
    let chars = text::chars_of(path);
    if chars.len() == 0 {
        return Err("This link is missing a path.".to_owned());
    }

    // Reject components that escape the logical wiki tree. A root makes the path absolute.
    let quoted = phrase::code_str(path);
    if chars[0] == '/' {
        return Err(
            phrase::concat3("Path ", quoted.as_str(), " must be relative to the wiki directory."),
        );
    }

    // A parent component could lead outside the wiki directory.
    let parts = path_util::split_path(chars.as_slice());
    let ghost views = path_util::part_views(parts@);
    let above = text::chars_of("..");
    let mut i: usize = 0;
    while i < parts.len()
        invariant
            i <= parts@.len(),
            chars@ == path@,
            views == path_util::part_views(parts@),
            views == path_util::components(path@),
            above@ == ".."@,
            quoted@ == phrase::code(path@),
            path@.len() > 0,
            !path_util::is_absolute(path@),
            forall|j: int| 0 <= j < i ==> #[trigger] views[j] != ".."@,
        decreases parts.len() - i,
    {
        proof {
            assert(views[i as int] == parts@[i as int]@);
        }
        if text::same_chars(parts[i].as_slice(), above.as_slice()) {
            let mut message = phrase::concat3("Path ", quoted.as_str(), " must not contain ");
            message.append(phrase::code_str("..").as_str());
            message.append(".");
            proof {
                assert(message@ =~= "Path "@ + phrase::code(path@) + " must not contain "@
                    + phrase::code(".."@) + "."@);
            }
            return Err(message);
        }
        i = i + 1;
    }

    // Normalize harmless current-directory components without resolving symlinks.
    let here = text::chars_of(".");
    let mut names: Vec<String> = Vec::new();
    let mut first: usize = 0;
    proof {
        if parts@.len() > 0 {
            assert(views[0] == parts@[0]@);
        }
    }
    if parts.len() > 0 && text::same_chars(parts[0].as_slice(), here.as_slice()) {
        first = 1;
    }
    let ghost below = path_util::names_below(path@);
    proof {
        assert(below =~= views.skip(first as int));
    }
    let mut k: usize = first;
    while k < parts.len()
        invariant
            first <= k <= parts@.len(),
            views == path_util::part_views(parts@),
            below == views.skip(first as int),
            phrase::text_views(names@) == below.take(k - first),
        decreases parts.len() - k,
    {
        let ghost before = names@;
        names.push(text::string_of(parts[k].as_slice()));
        proof {
            assert(views[k as int] == parts@[k as int]@);
            assert(phrase::text_views(names@) =~= phrase::text_views(before).push(
                parts@[k as int]@,
            ));
            assert(phrase::text_views(names@) =~= below.take(k + 1 - first));
        }
        k = k + 1;
    }
    proof {
        assert(below.take(k - first) =~= below);
    }
    Ok(phrase::join(&names, "/"))
}

/// Parse a filesystem link path, attributing any problem to the link's source range.
fn parse_filesystem_path(
    path: &str,
    source_path: Option<&str>,
    source: &Text,
    source_range: SourceRange,
) -> (result: Result<String, Error>)
    requires
        source.wf(),
    ensures
        match result {
            Ok(value) => filesystem_path(path@) == Ok::<Seq<char>, Seq<char>>(value@),
            Err(error) => filesystem_path(path@) is Err && error@ == error::located_error(
                filesystem_path(path@)->Err_0,
                error::optional_text(source_path),
                source@,
                source_range@,
                None,
            ),
        },
{
    match normalize_filesystem_path(path) {
        Ok(value) => Ok(value),
        Err(message) => Err(Error::at(message, source_path, source, source_range, None)),
    }
}

/// Convert the contents of a closed delimiter pair into a typed link occurrence.
fn parse_link(
    target: &[char],
    source_path: Option<&str>,
    source: &Text,
    source_range: SourceRange,
) -> (result: Result<Link, Error>)
    requires
        source.wf(),
    ensures
        ({
            let link = link_of(wiki::unescaped(target@), source_range@);
            match result {
                Ok(value) => link == Ok::<LinkView, Seq<char>>(value@),
                Err(error) => link is Err && error@ == error::located_error(
                    link->Err_0,
                    error::optional_text(source_path),
                    source@,
                    source_range@,
                    None,
                ),
            }
        }),
{
    // Unescape delimiters before converting the target into its semantic link type.
    let decoded = wiki::unescape_link_delimiters(text::string_of(target).as_str());
    let chars = text::chars_of(decoded.as_str());
    if let Some(rest) = text::strip_prefix(chars.as_slice(), wiki::FILE_LINK_PREFIX) {
        let path = text::string_of(text::trim_start(rest.as_slice()).as_slice());
        match parse_filesystem_path(path.as_str(), source_path, source, source_range) {
            Ok(path) => Ok(Link::File { path, source_range }),
            Err(error) => Err(error),
        }
    } else if let Some(rest) = text::strip_prefix(chars.as_slice(), wiki::DIRECTORY_LINK_PREFIX) {
        let path = text::string_of(text::trim_start(rest.as_slice()).as_slice());
        match parse_filesystem_path(path.as_str(), source_path, source, source_range) {
            Ok(path) => Ok(Link::Directory { path, source_range }),
            Err(error) => Err(error),
        }
    } else if let Some(below) = text::strip_prefix(
        chars.as_slice(),
        wiki::FILESYSTEM_LINK_PREFIX,
    ) {
        // The prefix alone names the wiki's directory.
        if below.len() == 0 {
            let path = String::new();
            proof {
                assert(path@ =~= below@);
            }
            return Ok(Link::Directory { path, source_range });
        }
        let path = text::string_of(below.as_slice());
        match parse_filesystem_path(path.as_str(), source_path, source, source_range) {
            Ok(path) => if below[below.len() - 1] == '/' {
                Ok(Link::Directory { path, source_range })
            } else {
                Ok(Link::File { path, source_range })
            },
            Err(error) => Err(error),
        }
    } else {
        Ok(Link::Text { title: decoded, source_range })
    }
}

/// Find the normalized form of a path that is not empty, and whether it ends with a separator or with a
/// reference to the directory that it names so far.
fn find_path_parts(path: &[char]) -> (parts: (String, bool, bool))
    requires
        path@.len() > 0,
        filesystem_path(path@) is Ok,
    ensures
        parts.0@ == path_util::normalized(path@),
        parts.1 == (path@.last() == '/'),
        parts.2 == ends_with_here(path@),
{
    let names = match normalize_filesystem_path(text::string_of(path).as_str()) {
        Ok(names) => names,
        Err(message) => message,
    };
    let last: usize = path.len() - 1;
    (names, path[last] == '/', last > 0 && path[last - 1] == '/' && path[last] == '.')
}

/// Write the path of a filesystem link after a prefix.
fn write_path(path: &[char]) -> (written: Vec<char>)
    requires
        filesystem_path(path@) is Ok,
    ensures
        written@ == written_path(path@),
{
    let (names, ends_with_separator, ends_with_here) = find_path_parts(path);
    let end = if ends_with_separator || ends_with_here {
        wiki::DIRECTORY_LINK_SUFFIX
    } else {
        ""
    };
    let start = if names.as_str().is_empty() {
        "."
    } else if text::has_prefix(path, "./") {
        "./"
    } else {
        ""
    };
    let written = text::chars_of(phrase::concat3(start, names.as_str(), end).as_str());
    proof {
        reveal_strlit("");
        assert(written@ =~= written_path(path@));
    }
    written
}

/// Write the path of a filesystem link after a leading separator.
fn write_below(path: &[char]) -> (written: Vec<char>)
    requires
        path@.len() > 0 ==> filesystem_path(path@) is Ok,
    ensures
        written@ == written_below(path@),
{
    if path.len() == 0 {
        return Vec::new();
    }
    let (names, ends_with_separator, ends_with_here) = find_path_parts(path);
    let end = if names.as_str().is_empty() {
        if ends_with_separator {
            ""
        } else {
            "."
        }
    } else if ends_with_separator {
        wiki::DIRECTORY_LINK_SUFFIX
    } else if ends_with_here {
        "/."
    } else {
        ""
    };
    let written = text::chars_of(phrase::concat3("", names.as_str(), end).as_str());
    proof {
        reveal_strlit("");
        assert(written@ =~= written_below(path@));
    }
    written
}

/// Write what formatting leaves between the delimiters of a link.
fn write_link(target: &[char], link: &Link) -> (written: Vec<char>)
    requires
        link_of(wiki::unescaped(target@), link@.span()) == Ok::<LinkView, Seq<char>>(link@),
    ensures
        written@ == written_link(target@),
{
    proof {
        assert(is_filesystem_target(wiki::unescaped(target@)) == !(link@ is Text));
    }
    if let Link::Text { title, source_range } = link {
        return text::slice_of(target, 0, target.len());
    }
    let decoded = wiki::unescape_link_delimiters(text::string_of(target).as_str());
    let chars = text::chars_of(decoded.as_str());
    let mut written: Vec<char>;
    let path: Vec<char>;
    if let Some(rest) = text::strip_prefix(chars.as_slice(), wiki::FILE_LINK_PREFIX) {
        written = text::chars_of(wiki::FILE_LINK_PREFIX);
        path = write_path(text::trim_start(rest.as_slice()).as_slice());
    } else if let Some(rest) = text::strip_prefix(chars.as_slice(), wiki::DIRECTORY_LINK_PREFIX) {
        written = text::chars_of(wiki::DIRECTORY_LINK_PREFIX);
        path = write_path(text::trim_start(rest.as_slice()).as_slice());
    } else if let Some(rest) = text::strip_prefix(
        chars.as_slice(),
        wiki::FILESYSTEM_LINK_PREFIX,
    ) {
        written = text::chars_of(wiki::FILESYSTEM_LINK_PREFIX);
        path = write_below(rest.as_slice());
    } else {
        return Vec::new();
    }
    text::append_chars(&mut written, path.as_slice());
    let escaped = wiki::escape_link_delimiters(text::string_of(written.as_slice()).as_str());
    text::chars_of(escaped.as_str())
}

/// The place of a link does not matter to what its target stands for.
pub proof fn lemma_link_span(target: Seq<char>, span: error::Span)
    ensures
        match link_of(target, span) {
            Ok(link) => {
                &&& link.span() == span
                &&& is_filesystem_target(target) == !(link is Text)
            },
            Err(message) => !is_filesystem_target(target),
        },
{
}

/// What parsing the content of a node gives.
struct ParsedContent {
    content: String,
    links: Vec<Link>,
    errors: Vec<Error>,
}

pub proof fn lemma_open_link(s: Seq<char>, lo: int, i: int)
    requires
        0 <= lo <= i <= s.len(),
    ensures
        lo <= prose_start(s, lo, i) <= i,
        match open_link(s, lo, i) {
            Some(start) => prose_start(s, lo, i) <= start < i,
            None => true,
        },
    decreases i - lo,
{
    if lo < i {
        lemma_open_link(s, lo, i - 1);
    }
}

/// Parse link occurrences and produce the normalized content stored on a text node.
#[verifier::rlimit(40)]
fn parse_content(source_path: Option<&str>, source: &Text, lo: usize, hi: usize) -> (result:
    ParsedContent)
    requires
        source.wf(),
        lo <= hi <= source@.len(),
    ensures
        result.content@ == content_text(source@, lo as int, hi as int),
        wiki::link_views(result.links@) == links_before(source@, lo as int, hi as int),
        error::error_views(result.errors@) == content_errors(
            error::optional_text(source_path),
            source@,
            lo as int,
            hi as int,
        ),
{
    // Traverse the original content while retaining indices for copying and diagnostics.
    let ghost s = source@;
    let ghost path = error::optional_text(source_path);
    let chars = source.chars.as_slice();
    let mut content: Vec<char> = Vec::new();
    let mut copied_through: usize = lo;
    let mut links: Vec<Link> = Vec::new();
    let mut errors: Vec<Error> = Vec::new();
    let mut link_start: Option<usize> = None;
    let mut link_has_line_break = false;
    let mut i: usize = lo;
    proof {
        assert(error::error_views(errors@) =~= Seq::<ErrorView>::empty());
        assert(wiki::link_views(links@) =~= Seq::<LinkView>::empty());
    }
    while i < hi
        invariant
            source.wf(),
            s == source@,
            chars@ == s,
            path == error::optional_text(source_path),
            lo <= i <= hi <= s.len(),
            copied_through == prose_start(s, lo as int, i as int),
            lo <= copied_through <= i,
            content@ == text_before(s, lo as int, i as int),
            wiki::link_views(links@) == links_before(s, lo as int, i as int),
            error::error_views(errors@) == errors_before(path, s, lo as int, i as int),
            match link_start {
                Some(start) => {
                    &&& open_link(s, lo as int, i as int) == Some(start as int)
                    &&& copied_through <= start < i
                    &&& link_has_line_break == has_line_break(s, start as int, i as int)
                },
                None => open_link(s, lo as int, i as int) is None,
            },
        decreases hi - i,
    {
        proof {
            lemma_open_link(s, lo as int, i as int);
            lemma_open_link(s, lo as int, i + 1);
        }
        let c = chars[i];
        let is_escaped = i > lo && chars[i - 1] == '\\';
        let ghost earlier_errors = error::error_views(errors@);
        let ghost earlier_links = wiki::link_views(links@);
        let ghost earlier_content = content@;

        match link_start {
            Some(start) => {
                if c == '\n' {
                    // Report the first line break within each link.
                    if !link_has_line_break {
                        let range = SourceRange::of(source, start, i + 1);
                        let error = Error::at(
                            "This link contains a line break.".to_owned(),
                            source_path,
                            source,
                            range,
                            None,
                        );
                        errors.push(error);
                        proof {
                            assert(error::error_views(errors@) =~= earlier_errors.push(error@));
                        }
                    }
                    link_has_line_break = true;
                    proof {
                        assert(s[i as int] == '\n');
                    }
                } else if c == '[' && !is_escaped {
                    let error = Error::at(
                        "Unexpected opening link delimiter.".to_owned(),
                        source_path,
                        source,
                        SourceRange::of(source, i, i + 1),
                        None,
                    );
                    errors.push(error);
                    proof {
                        assert(error::error_views(errors@) =~= earlier_errors.push(error@));
                    }
                } else if c == ']' && !is_escaped {
                    let target = text::trim(
                        text::slice_of(chars, start + 1, i).as_slice(),
                    );
                    let range = SourceRange::of(source, start, i + 1);
                    let written = match parse_link(target.as_slice(), source_path, source, range) {
                        Ok(link) => {
                            proof {
                                lemma_link_span(wiki::unescaped(target@), range@);
                            }
                            let written = write_link(target.as_slice(), &link);
                            links.push(link);
                            proof {
                                assert(wiki::link_views(links@) =~= earlier_links.push(link@));
                            }
                            written
                        },
                        Err(error) => {
                            proof {
                                lemma_link_span(wiki::unescaped(target@), range@);
                            }
                            errors.push(error);
                            proof {
                                assert(error::error_views(errors@) =~= earlier_errors.push(
                                    error@,
                                ));
                            }
                            text::slice_of(target.as_slice(), 0, target.len())
                        },
                    };
                    proof {
                        assert(written@ == written_link(target@));
                    }
                    let prose = text::slice_of(chars, copied_through, start + 1);
                    push_normalized(&mut content, prose.as_slice());
                    text::append_chars(&mut content, written.as_slice());
                    content.push(']');
                    proof {
                        reveal_strlit("]");
                        assert(content@ =~= earlier_content + normalized(prose@) + written@ + "]"@);
                    }
                    copied_through = i + 1;
                    link_start = None;
                }
            },
            None => {
                if c == '[' && !is_escaped {
                    link_start = Some(i);
                    link_has_line_break = false;
                } else if c == ']' && !is_escaped {
                    // Reject a closing delimiter without an opening delimiter.
                    let error = Error::at(
                        "Unexpected closing link delimiter.".to_owned(),
                        source_path,
                        source,
                        SourceRange::of(source, i, i + 1),
                        None,
                    );
                    errors.push(error);
                    proof {
                        assert(error::error_views(errors@) =~= earlier_errors.push(error@));
                    }
                }
            },
        }
        proof {
            assert(error::error_views(errors@) =~= earlier_errors + errors_at(
                path,
                s,
                lo as int,
                i as int,
            ));
        }
        i = i + 1;
    }

    // Reject an opening delimiter that has no closing delimiter.
    if let Some(start) = link_start {
        let ghost earlier_errors = error::error_views(errors@);
        let error = Error::at(
            "Unclosed link.".to_owned(),
            source_path,
            source,
            SourceRange::of(source, start, start + 1),
            None,
        );
        errors.push(error);
        proof {
            assert(error::error_views(errors@) =~= earlier_errors.push(error@));
        }
    }

    // Retain the content following the final link.
    let prose = text::slice_of(chars, copied_through, hi);
    push_normalized(&mut content, prose.as_slice());
    ParsedContent { content: text::string_of(content.as_slice()), links, errors }
}

/// Find the end of the line that starts at an index, not counting its line ending.
pub fn find_line_stop(chars: &[char], lo: usize) -> (stop: usize)
    requires
        lo <= chars@.len(),
    ensures
        stop == line_stop(chars@, lo as int),
        lo <= stop <= chars@.len(),
{
    let end = text::find_line_end(chars, lo);
    if end > lo && chars[end - 1] == '\r' {
        end - 1
    } else {
        end
    }
}

/// Find the start of the next line.
pub fn find_next_line(chars: &[char], lo: usize) -> (next: usize)
    requires
        lo <= chars@.len(),
    ensures
        next == next_line(chars@, lo as int),
        lo <= next <= chars@.len(),
        lo < chars@.len() ==> lo < next,
{
    let end = text::find_line_end(chars, lo);
    if end < chars.len() {
        end + 1
    } else {
        end
    }
}

/// Whether the line that starts at an index is a title line.
pub fn starts_title_line(chars: &[char], lo: usize) -> (result: bool)
    requires
        lo <= chars@.len(),
    ensures
        result == is_title_line(chars@, lo as int),
{
    let stop = find_line_stop(chars, lo);
    let line = text::slice_of(chars, lo, stop);
    let marker = text::chars_of(wiki::TITLE_MARKER);
    text::same_chars(line.as_slice(), marker.as_slice()) || text::has_prefix(
        line.as_slice(),
        wiki::TITLE_PREFIX,
    )
}

/// Find the first title line at or after the line that starts at an index.
fn find_next_title_line(chars: &[char], lo: usize) -> (found: usize)
    requires
        lo <= chars@.len(),
    ensures
        found == next_title_line(chars@, lo as int),
        lo <= found <= chars@.len(),
{
    let mut at: usize = lo;
    while at < chars.len() && !starts_title_line(chars, at)
        invariant
            lo <= at <= chars@.len(),
            next_title_line(chars@, lo as int) == next_title_line(chars@, at as int),
        decreases chars.len() - at,
    {
        at = find_next_line(chars, at);
    }
    at
}

/// The bounds of a title line: the marker and the title lie on the line.
pub proof fn lemma_title_bounds(s: Seq<char>, lo: int)
    requires
        0 <= lo < s.len(),
        is_title_line(s, lo),
    ensures
        lo < raw_title_start(s, lo) <= title_start(s, lo) <= title_end(s, lo) <= line_stop(s, lo)
            <= next_line(s, lo) <= s.len(),
{
    reveal_strlit("#");
    reveal_strlit("# ");
    text::lemma_line_end(s, lo);
    let line = s.subrange(lo, line_stop(s, lo));
    if line != "#"@ {
        assert(line.len() >= 2);
    }
    text::lemma_trim_start_index(s, raw_title_start(s, lo), line_stop(s, lo));
    text::lemma_trim_end_index(s, title_start(s, lo), line_stop(s, lo));
}

/// Locate the title of a title line, rejecting titles that are empty after surrounding whitespace
/// is stripped, as well as titles that text links could not target because they would become
/// filesystem links.
fn parse_title(source_path: Option<&str>, source: &Text, lo: usize) -> (result: Result<
    (usize, usize),
    Error,
>)
    requires
        source.wf(),
        lo < source@.len(),
        is_title_line(source@, lo as int),
    ensures
        match result {
            Ok((start, end)) => {
                &&& title_error(error::optional_text(source_path), source@, lo as int)
                    == None::<ErrorView>
                &&& start == title_start(source@, lo as int)
                &&& end == title_end(source@, lo as int)
            },
            Err(error) => title_error(error::optional_text(source_path), source@, lo as int)
                == Some(error@),
        },
{
    // Strip surrounding whitespace from the text after the marker, which ends the line.
    let chars = source.chars.as_slice();
    proof {
        lemma_title_bounds(source@, lo as int);
    }
    let stop = find_line_stop(chars, lo);
    let raw_start = if stop - lo == 1 {
        stop
    } else {
        lo + 2
    };
    let start = text::find_trim_start(chars, raw_start, stop);
    let end = text::find_trim_end(chars, start, stop);
    let title = text::slice_of(chars, start, end);

    // Report an empty title at the whole line, since the title has no text of its own.
    if title.len() == 0 {
        Err(
            Error::at(
                "This title is empty.".to_owned(),
                source_path,
                source,
                SourceRange::of(source, lo, stop),
                None,
            ),
        )
    } else if text::has_prefix(title.as_slice(), wiki::FILE_LINK_PREFIX) || text::has_prefix(
        title.as_slice(),
        wiki::DIRECTORY_LINK_PREFIX,
    ) {
        let file = phrase::code_str(wiki::FILE_LINK_PREFIX);
        let directory = phrase::code_str(wiki::DIRECTORY_LINK_PREFIX);
        let mut message = phrase::concat3("This title cannot start with ", file.as_str(), " or ");
        message.append(directory.as_str());
        message.append(".");
        proof {
            assert(message@ =~= "This title cannot start with "@ + phrase::code("file:"@) + " or "@
                + phrase::code("dir:"@) + "."@);
        }
        Err(
            Error::at(message, source_path, source, SourceRange::of(source, start, end), None),
        )
    } else if text::has_prefix(title.as_slice(), wiki::FILESYSTEM_LINK_PREFIX) {
        let prefix = phrase::code_str(wiki::FILESYSTEM_LINK_PREFIX);
        let message = phrase::concat3("This title cannot start with ", prefix.as_str(), ".");
        Err(
            Error::at(message, source_path, source, SourceRange::of(source, start, end), None),
        )
    } else {
        Ok((start, end))
    }
}

/// Add the node that starts at a title line after collecting all of its parsing errors.
fn insert_node(
    wiki: &mut Wiki,
    source_path: Option<&str>,
    source: &Text,
    lo: usize,
    title_start: usize,
    title_end: usize,
) -> (result: Result<(), Vec<Error>>)
    requires
        source.wf(),
        lo < source@.len(),
        is_title_line(source@, lo as int),
        title_start == self::title_start(source@, lo as int),
        title_end == self::title_end(source@, lo as int),
    ensures
        ({
            let errors = node_errors(
                error::optional_text(source_path),
                source@,
                lo as int,
                old(wiki)@,
            );
            match result {
                Ok(_) => errors.len() == 0 && final(wiki)@ == old(wiki)@.push(
                    node_at(source@, lo as int),
                ),
                Err(found) => found@.len() > 0 && error::error_views(found@) == errors
                    && final(wiki)@ == old(wiki)@,
            }
        }),
{
    // Locate the trimmed node and its trimmed content in the original source.
    let chars = source.chars.as_slice();
    proof {
        lemma_title_bounds(source@, lo as int);
    }
    let next = find_next_line(chars, lo);
    let hi = find_next_title_line(chars, next);
    let node_start = text::find_trim_start(chars, lo, hi);
    let node_end = text::find_trim_end(chars, node_start, hi);
    let from = text::find_trim_start(chars, next, hi);
    let to = text::find_trim_end(chars, from, hi);
    let title = text::string_of(text::slice_of(chars, title_start, title_end).as_slice());
    let title_range = SourceRange::of(source, title_start, title_end);
    let parsed = parse_content(source_path, source, from, to);
    let mut errors = parsed.errors;

    // Reject a title that has already been used.
    if wiki.contains(title.as_str()) {
        let quoted = phrase::code_str(title.as_str());
        let message = phrase::concat3("Duplicate title ", quoted.as_str(), ".");
        let ghost earlier = error::error_views(errors@);
        let error = Error::at(message, source_path, source, title_range, None);
        errors.push(error);
        proof {
            assert(error::error_views(errors@) =~= earlier.push(error@));
        }
    }

    // Insert only nodes that parsed without errors.
    proof {
        assert(errors@.len() == error::error_views(errors@).len());
    }
    if errors.len() == 0 {
        let node = TextNode {
            title,
            content: parsed.content,
            links: parsed.links,
            depth: None,
            source_range: SourceRange::of(source, node_start, node_end),
            title_source_range: title_range,
        };
        let ghost before = wiki@;
        wiki.text_nodes.push(node);
        proof {
            assert(node@ == node_at(source@, lo as int));
            assert(wiki@ =~= before.push(node@));
        }
        Ok(())
    } else {
        Err(errors)
    }
}

/// What parsing a source gives: the scored nodes if there are no errors, and the errors otherwise.
pub open spec fn parsed(path: Option<Seq<char>>, s: Seq<char>) -> Result<
    Seq<NodeView>,
    Seq<ErrorView>,
> {
    let outline = outline(path, s);
    if outline.errors.len() == 0 {
        Ok(scoring::scored(outline.nodes))
    } else {
        Err(outline.errors)
    }
}

/// The contents of a parsed wiki or of its errors.
pub open spec fn parse_views(result: Result<Wiki, Vec<Error>>) -> Result<
    Seq<NodeView>,
    Seq<ErrorView>,
> {
    match result {
        Ok(wiki) => Ok(wiki@),
        Err(errors) => Err(error::error_views(errors@)),
    }
}

/// Find the first line that is not blank before an index.
fn find_stray_line(chars: &[char], hi: usize) -> (found: Option<usize>)
    requires
        hi <= chars@.len(),
    ensures
        match found {
            Some(lo) => first_stray_line(chars@, 0, hi as int) == Some(lo as int) && lo < hi,
            None => first_stray_line(chars@, 0, hi as int) == None::<int>,
        },
{
    let mut at: usize = 0;
    while at < hi
        invariant
            at <= chars@.len(),
            hi <= chars@.len(),
            first_stray_line(chars@, 0, hi as int) == first_stray_line(
                chars@,
                at as int,
                hi as int,
            ),
        decreases chars.len() - at,
    {
        let stop = find_line_stop(chars, at);
        let line = text::trim(text::slice_of(chars, at, stop).as_slice());
        if line.len() > 0 {
            return Some(at);
        }
        at = find_next_line(chars, at);
    }
    None
}

/// Parse source contents into a scored wiki with source ranges for every node and link.
pub fn parse(source_path: Option<&str>, source_contents: &str) -> (result: Result<
    Wiki,
    Vec<Error>,
>)
    ensures
        parse_views(result) == parsed(error::optional_text(source_path), source_contents@),
{
    let text = Text::new(source_contents);
    let source = &text;
    let ghost s = source@;
    let ghost path = error::optional_text(source_path);
    let chars = source.chars.as_slice();
    let mut wiki = Wiki { text_nodes: Vec::new() };
    let mut errors: Vec<Error> = Vec::new();
    let mut at = find_next_title_line(chars, 0);
    proof {
        lemma_next_title_line(s, 0);
        assert(wiki@ =~= Seq::<NodeView>::empty());
        assert(error::error_views(errors@) =~= Seq::<ErrorView>::empty());
    }

    // Report only the first non-whitespace content before the first title.
    if let Some(lo) = find_stray_line(chars, at) {
        let stop = find_line_stop(chars, lo);
        let start = text::find_trim_start(chars, lo, stop);
        let end = text::find_trim_end(chars, start, stop);
        let error = Error::at(
            "This content is not in any node.".to_owned(),
            source_path,
            source,
            SourceRange::of(source, start, end),
            None,
        );
        errors.push(error);
        proof {
            assert(error::error_views(errors@) =~= seq![error@]);
        }
    }

    // Process the sections that title lines start.
    while at < chars.len()
        invariant
            source.wf(),
            s == source@,
            chars@ == s,
            path == error::optional_text(source_path),
            at <= s.len(),
            at < s.len() ==> is_title_line(s, at as int),
            outline(path, s) == outline_from(
                path,
                s,
                at as int,
                Outline { nodes: wiki@, errors: error::error_views(errors@) },
            ),
        decreases chars.len() - at,
    {
        let ghost nodes = wiki@;
        let ghost earlier = error::error_views(errors@);
        match parse_title(source_path, source, at) {
            Ok((title_start, title_end)) => {
                if let Err(mut found) = insert_node(
                    &mut wiki,
                    source_path,
                    source,
                    at,
                    title_start,
                    title_end,
                ) {
                    let ghost more = error::error_views(found@);
                    proof {
                        assert(more.len() == found@.len());
                    }
                    errors.append(&mut found);
                    proof {
                        assert(error::error_views(errors@) =~= earlier + more);
                    }
                }
            },
            Err(error) => {
                errors.push(error);
                proof {
                    assert(error::error_views(errors@) =~= earlier.push(error@));
                }
            },
        }
        proof {
            let before = Outline { nodes, errors: earlier };
            let after = Outline { nodes: wiki@, errors: error::error_views(errors@) };
            assert(with_section(path, s, at as int, before) == after);
        }
        let next = find_next_line(chars, at);
        proof {
            lemma_next_title_line(s, next as int);
        }
        at = find_next_title_line(chars, next);
    }

    // Return all node errors together, or score and return the parsed wiki.
    proof {
        assert(errors@.len() == error::error_views(errors@).len());
    }
    if errors.len() == 0 {
        scoring::populate_depths(&mut wiki);
        Ok(wiki)
    } else {
        Err(errors)
    }
}

} // verus!
