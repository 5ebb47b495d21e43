//! The document format.

use vstd::prelude::*;
use vstd::string::StringExecFns;

use crate::document;
use crate::document::Document;
use crate::document::Link;
use crate::document::LinkView;
use crate::document::Node;
use crate::document::NodeView;
use crate::parser;
use crate::phrase;
use crate::text;
use crate::wiki;

verus! {

/// A text as a string literal: what the `Debug` of `str` writes.
pub uninterp spec fn debug_text(s: Seq<char>) -> Seq<char>;

/// Writes a text as a string literal: `format!` with the `Debug` of `str`. The result depends only
/// on the text.
#[verifier::external_body]
pub(crate) fn debug(value: &str) -> (quoted: String)
    ensures
        quoted@ == debug_text(value@),
{
    format!("{:?}", value)
}

/// Whether the line that starts at an index is a title line.
pub open spec fn is_title_line(s: Seq<char>, lo: int) -> bool {
    text::starts_with(s.subrange(lo, text::line_stop(s, lo)), "# "@)
}

/// The start of the first title line at or after the line that starts at an index, or the length of
/// the source.
pub open spec fn next_title_line(s: Seq<char>, lo: int) -> int
    decreases s.len() - lo,
{
    if lo < 0 || lo >= s.len() {
        s.len() as int
    } else if is_title_line(s, lo) {
        lo
    } else {
        proof {
            text::lemma_line_end(s, lo);
        }
        next_title_line(s, parser::next_line(s, lo))
    }
}

pub proof fn lemma_next_title_line(s: Seq<char>, lo: int)
    requires
        0 <= lo <= s.len(),
    ensures
        lo <= next_title_line(s, lo) <= s.len(),
        next_title_line(s, lo) < s.len() ==> is_title_line(s, next_title_line(s, lo)),
    decreases s.len() - lo,
{
    if lo < s.len() && !is_title_line(s, lo) {
        text::lemma_line_end(s, lo);
        lemma_next_title_line(s, parser::next_line(s, lo));
    }
}

/// The number of the line that starts at an index.
pub open spec fn line_number(s: Seq<char>, i: int) -> nat {
    text::line_feeds(s, i) + 1
}

/// The lines that start between two indices.
pub open spec fn lines_between(s: Seq<char>, lo: int, hi: int) -> Seq<Seq<char>>
    decreases s.len() - lo,
{
    if lo < 0 || lo >= hi || hi > s.len() {
        Seq::empty()
    } else {
        proof {
            text::lemma_line_end(s, lo);
        }
        seq![s.subrange(lo, text::line_stop(s, lo))] + lines_between(s, parser::next_line(s, lo), hi)
    }
}

/// The title on a title line.
pub open spec fn title_of(s: Seq<char>, lo: int) -> Seq<char> {
    text::trimmed(s.subrange(lo + 2, text::line_stop(s, lo)))
}

/// The content below a title line.
pub open spec fn content_of(s: Seq<char>, lo: int) -> Seq<char> {
    let start = parser::next_line(s, lo);
    text::trimmed(phrase::joined(lines_between(s, start, next_title_line(s, start)), "\n"@))
}

/// What a link target stands for: a file or a directory after a prefix, else a node.
pub open spec fn target_link(target: Seq<char>) -> LinkView {
    if text::starts_with(target, "file:"@) {
        LinkView::File(text::trimmed_start(target.skip("file:"@.len() as int)))
    } else if text::starts_with(target, "dir:"@) {
        LinkView::Directory(text::trimmed_start(target.skip("dir:"@.len() as int)))
    } else if text::starts_with(target, "/"@) {
        let below = target.skip("/"@.len() as int);
        if below.len() == 0 || below.last() == '/' {
            LinkView::Directory(below)
        } else {
            LinkView::File(below)
        }
    } else {
        LinkView::Text(target)
    }
}

/// The link between two delimiters of a content.
pub open spec fn link_between(content: Seq<char>, start: int, end: int) -> LinkView {
    target_link(wiki::unescaped(parser::link_text(content, start, end)))
}

/// Links with one more, unless they hold it already.
pub open spec fn with_link(links: Seq<LinkView>, link: LinkView) -> Seq<LinkView> {
    if links.contains(link) {
        links
    } else {
        links.push(link)
    }
}

/// The links of a content that end before an index, each once.
pub open spec fn links_before(content: Seq<char>, i: int) -> Seq<LinkView>
    decreases i,
{
    if i <= 0 {
        Seq::empty()
    } else {
        let links = links_before(content, i - 1);
        match parser::open_link(content, 0, i - 1) {
            Some(start) => if parser::delimiter_at(content, 0, i - 1, ']') {
                with_link(links, link_between(content, start, i - 1))
            } else {
                links
            },
            None => links,
        }
    }
}

/// The links of a content, each once.
pub open spec fn links_of(content: Seq<char>) -> Seq<LinkView> {
    links_before(content, content.len() as int)
}

/// The link that a content has between two delimiters is among its links.
proof fn lemma_link_found(content: Seq<char>, i: int, end: int)
    requires
        0 <= end < i <= content.len(),
        parser::delimiter_at(content, 0, end, ']'),
        parser::open_link(content, 0, end) is Some,
    ensures
        links_before(content, i).contains(
            link_between(content, parser::open_link(content, 0, end)->Some_0, end),
        ),
    decreases i,
{
    let link = link_between(content, parser::open_link(content, 0, end)->Some_0, end);
    let links = links_before(content, i - 1);
    if end < i - 1 {
        lemma_link_found(content, i - 1, end);
        let k = choose|k: int| 0 <= k < links.len() && links[k] == link;
        assert(links_before(content, i)[k] == link);
    } else if !links.contains(link) {
        assert(links.push(link).last() == link);
    }
}

/// Each link of a content stands between delimiters of it, and none occurs twice.
proof fn lemma_links_before(content: Seq<char>, i: int)
    requires
        0 <= i <= content.len(),
    ensures
        links_before(content, i).no_duplicates(),
        forall|k: int|
            0 <= k < links_before(content, i).len() ==> exists|start: int, end: int|
                0 <= start < end < i && #[trigger] link_between(content, start, end)
                    == #[trigger] links_before(content, i)[k],
    decreases i,
{
    if i > 0 {
        lemma_links_before(content, i - 1);
        parser::lemma_open_link(content, 0, i - 1);
        let earlier = links_before(content, i - 1);
        let links = links_before(content, i);
        assert forall|k: int| 0 <= k < links.len() implies exists|start: int, end: int|
            0 <= start < end < i && #[trigger] link_between(content, start, end)
                == #[trigger] links[k] by {
            if k < earlier.len() {
                assert(links[k] == earlier[k]);
                let (start, end) = choose|start: int, end: int|
                    0 <= start < end < i - 1 && #[trigger] link_between(content, start, end)
                        == earlier[k];
                assert(0 <= start < end < i && link_between(content, start, end) == links[k]);
            } else {
                let start = parser::open_link(content, 0, i - 1)->Some_0;
                assert(link_between(content, start, i - 1) == links[k]);
            }
        }
    }
}

/// The links of a content are what stands between its link delimiters, each once: an opening delimiter
/// outside a link starts one, and the next closing delimiter ends it.
pub proof fn law_document_links(content: Seq<char>)
    ensures
        links_of(content).no_duplicates(),
        forall|end: int|
            0 <= end < content.len() && #[trigger] parser::delimiter_at(content, 0, end, ']')
                && parser::open_link(content, 0, end) is Some ==> links_of(content).contains(
                link_between(content, parser::open_link(content, 0, end)->Some_0, end),
            ),
        forall|k: int|
            0 <= k < links_of(content).len() ==> exists|start: int, end: int|
                0 <= start < end < content.len() && #[trigger] link_between(content, start, end)
                    == #[trigger] links_of(content)[k],
{
    let n = content.len() as int;
    lemma_links_before(content, n);
    assert forall|end: int|
        0 <= end < content.len() && #[trigger] parser::delimiter_at(content, 0, end, ']')
            && parser::open_link(content, 0, end) is Some implies links_of(content).contains(
        link_between(content, parser::open_link(content, 0, end)->Some_0, end),
    ) by {
        lemma_link_found(content, n, end);
    }
}

/// What a document with an empty title is rejected with.
pub open spec fn empty_title_message(number: nat) -> Seq<char> {
    "Title on line "@ + text::decimal(number) + " is empty."@
}

/// What a document with a repeated title is rejected with.
pub open spec fn duplicate_message(quoted: Seq<char>, number: nat) -> Seq<char> {
    "Duplicate title "@ + quoted + " on line "@ + text::decimal(number) + "."@
}

/// What a document with content before its first title is rejected with.
pub open spec fn stray_message(number: nat) -> Seq<char> {
    "Content appears before the first title on line "@ + text::decimal(number) + "."@
}

/// The nodes of a document from a title line on, given those before it, or what it is rejected with.
pub open spec fn nodes_from(s: Seq<char>, lo: int, nodes: Seq<NodeView>) -> Result<
    Seq<NodeView>,
    Seq<char>,
>
    decreases s.len() - lo,
{
    if lo < 0 || lo >= s.len() {
        Ok(nodes)
    } else if title_of(s, lo).len() == 0 {
        Err(empty_title_message(line_number(s, lo)))
    } else if document::has_title(nodes, title_of(s, lo)) {
        Err(duplicate_message(debug_text(title_of(s, lo)), line_number(s, lo)))
    } else {
        proof {
            text::lemma_line_end(s, lo);
            lemma_next_title_line(s, parser::next_line(s, lo));
        }
        nodes_from(
            s,
            next_title_line(s, parser::next_line(s, lo)),
            nodes.push(
                NodeView {
                    title: title_of(s, lo),
                    content: content_of(s, lo),
                    links: links_of(content_of(s, lo)),
                    depth: None,
                },
            ),
        )
    }
}

/// The first line from an index on that starts before `hi` and is not blank.
pub open spec fn first_stray_line(s: Seq<char>, lo: int, hi: int) -> Option<int>
    decreases s.len() - lo,
{
    if lo < 0 || lo >= hi || hi > s.len() {
        None
    } else if text::trimmed(s.subrange(lo, text::line_stop(s, lo))).len() > 0 {
        Some(lo)
    } else {
        proof {
            text::lemma_line_end(s, lo);
        }
        first_stray_line(s, parser::next_line(s, lo), hi)
    }
}

/// The nodes of a document, or what it is rejected with.
pub open spec fn parsed(s: Seq<char>) -> Result<Seq<NodeView>, Seq<char>> {
    match first_stray_line(s, 0, next_title_line(s, 0)) {
        Some(lo) => Err(stray_message(line_number(s, lo))),
        None => nodes_from(s, next_title_line(s, 0), Seq::empty()),
    }
}

/// The contents of a parsed document, or what it was rejected with.
pub open spec fn parse_views(result: Result<Document, String>) -> Result<
    Seq<NodeView>,
    Seq<char>,
> {
    match result {
        Ok(document) => Ok(document@),
        Err(message) => Err(message@),
    }
}

/// Find the first title line at or after the line that starts at an index.
fn find_next_title_line(chars: &[char], lo: usize) -> (found: usize)
    requires
        lo <= chars@.len(),
    ensures
        found == next_title_line(chars@, lo as int),
        lo <= found <= chars@.len(),
{
    let mut at: usize = lo;
    while at < chars.len()
        invariant
            lo <= at <= chars@.len(),
            next_title_line(chars@, lo as int) == next_title_line(chars@, at as int),
        decreases chars.len() - at,
    {
        let line = text::slice_of(chars, at, text::find_line_stop(chars, at));
        if text::has_prefix(line.as_slice(), "# ") {
            return at;
        }
        at = parser::find_next_line(chars, at);
    }
    at
}

/// Write a line number.
fn line_number_text(chars: &[char], i: usize) -> (digits: String)
    requires
        i < chars@.len(),
    ensures
        digits@ == text::decimal(line_number(chars@, i as int)),
{
    let count = text::count_line_feeds(chars, i);
    let total: usize = chars.len();
    proof {
        assert(count < total);
    }
    text::decimal_text(count + 1)
}

/// Write what a document with a repeated title is rejected with.
pub fn describe_duplicate(quoted_title: &str, line_number: &str) -> (message: String)
    ensures
        message@ == "Duplicate title "@ + quoted_title@ + " on line "@ + line_number@ + "."@,
{
    let mut message = phrase::concat3("Duplicate title ", quoted_title, " on line ");
    message.append(line_number);
    message.append(".");
    proof {
        assert(message@ =~= "Duplicate title "@ + quoted_title@ + " on line "@ + line_number@
            + "."@);
    }
    message
}

/// Read the content below a title line.
fn read_content(chars: &[char], start: usize, hi: usize) -> (content: String)
    requires
        start <= hi <= chars@.len(),
    ensures
        content@ == text::trimmed(
            phrase::joined(lines_between(chars@, start as int, hi as int), "\n"@),
        ),
{
    let ghost all = lines_between(chars@, start as int, hi as int);
    let mut lines: Vec<String> = Vec::new();
    let mut at: usize = start;
    proof {
        assert(phrase::text_views(lines@) + all =~= all);
    }
    while at < hi
        invariant
            at <= chars@.len(),
            hi <= chars@.len(),
            all == phrase::text_views(lines@) + lines_between(chars@, at as int, hi as int),
        decreases chars.len() - at,
    {
        let stop = text::find_line_stop(chars, at);
        let line = text::string_of(text::slice_of(chars, at, stop).as_slice());
        let ghost before = phrase::text_views(lines@);
        lines.push(line);
        proof {
            assert(phrase::text_views(lines@) =~= before.push(line@));
            let rest = lines_between(chars@, parser::next_line(chars@, at as int), hi as int);
            assert(phrase::text_views(lines@) + rest =~= before + (seq![line@] + rest));
        }
        at = parser::find_next_line(chars, at);
    }
    proof {
        assert(all =~= phrase::text_views(lines@));
    }
    let joined = phrase::join(&lines, "\n");
    text::string_of(text::trim(text::chars_of(joined.as_str()).as_slice()).as_slice())
}

/// Read what stands between two link delimiters.
fn read_link(target: &[char]) -> (link: Link)
    ensures
        link@ == target_link(wiki::unescaped(target@)),
{
    let decoded = wiki::unescape_link_delimiters(text::string_of(target).as_str());
    let chars = text::chars_of(decoded.as_str());
    if let Some(rest) = text::strip_prefix(chars.as_slice(), wiki::FILE_LINK_PREFIX) {
        Link::File(text::string_of(text::trim_start(rest.as_slice()).as_slice()))
    } else if let Some(rest) = text::strip_prefix(chars.as_slice(), wiki::DIRECTORY_LINK_PREFIX) {
        Link::Directory(text::string_of(text::trim_start(rest.as_slice()).as_slice()))
    } else if let Some(below) = text::strip_prefix(
        chars.as_slice(),
        wiki::FILESYSTEM_LINK_PREFIX,
    ) {
        let path = text::string_of(below.as_slice());
        if below.len() == 0 || below[below.len() - 1] == '/' {
            Link::Directory(path)
        } else {
            Link::File(path)
        }
    } else {
        Link::Text(decoded)
    }
}

/// Check whether two links lead to the same place.
fn same_link(a: &Link, b: &Link) -> (same: bool)
    ensures
        same == (a@ == b@),
{
    match (a, b) {
        (Link::Text(x), Link::Text(y)) => text::same_text(x.as_str(), y.as_str()),
        (Link::File(x), Link::File(y)) => text::same_text(x.as_str(), y.as_str()),
        (Link::Directory(x), Link::Directory(y)) => text::same_text(x.as_str(), y.as_str()),
        _ => false,
    }
}

/// Add a link unless it is there already.
fn insert_link(links: &mut Vec<Link>, link: Link)
    ensures
        document::link_views(final(links)@) == with_link(document::link_views(old(links)@), link@),
{
    let ghost views = document::link_views(links@);
    let mut i: usize = 0;
    while i < links.len()
        invariant
            links@ == old(links)@,
            views == document::link_views(links@),
            i <= links@.len(),
            forall|j: int| 0 <= j < i ==> #[trigger] views[j] != link@,
        decreases links.len() - i,
    {
        proof {
            assert(views[i as int] == links@[i as int]@);
        }
        if same_link(&links[i], &link) {
            return;
        }
        i = i + 1;
    }
    let ghost view = link@;
    links.push(link);
    proof {
        assert(!views.contains(view));
        assert(document::link_views(links@) =~= views.push(view));
    }
}

/// Read the links of a content.
fn read_links(content: &str) -> (links: Vec<Link>)
    ensures
        document::link_views(links@) == links_of(content@),
{
    let text = text::chars_of(content);
    let chars = text.as_slice();
    let ghost c = content@;
    let mut links: Vec<Link> = Vec::new();
    let mut link_start: Option<usize> = None;
    let mut i: usize = 0;
    proof {
        assert(document::link_views(links@) =~= Seq::<LinkView>::empty());
    }
    while i < chars.len()
        invariant
            chars@ == c,
            i <= c.len(),
            document::link_views(links@) == links_before(c, i as int),
            match link_start {
                Some(start) => start < i && parser::open_link(c, 0, i as int) == Some(start as int),
                None => parser::open_link(c, 0, i as int) is None,
            },
        decreases c.len() - i,
    {
        let is_escaped = i > 0 && chars[i - 1] == '\\';
        if chars[i] == ']' && !is_escaped {
            if let Some(start) = link_start {
                let target = text::trim(text::slice_of(chars, start + 1, i).as_slice());
                insert_link(&mut links, read_link(target.as_slice()));
            }
            link_start = None;
        } else if chars[i] == '[' && !is_escaped && link_start.is_none() {
            link_start = Some(i);
        }
        i = i + 1;
    }
    links
}

/// Parse source contents into a document.
pub fn parse(contents: &str) -> (result: Result<Document, String>)
    ensures
        parse_views(result) == parsed(contents@),
{
    let text = text::chars_of(contents);
    let chars = text.as_slice();
    let ghost s = contents@;
    let mut at = find_next_title_line(chars, 0);
    proof {
        lemma_next_title_line(s, 0);
    }

    // Non-whitespace content cannot appear before the first title.
    let mut lo: usize = 0;
    while lo < at
        invariant
            chars@ == s,
            s == contents@,
            lo <= s.len(),
            at <= s.len(),
            at == next_title_line(s, 0),
            first_stray_line(s, 0, at as int) == first_stray_line(s, lo as int, at as int),
        decreases s.len() - lo,
    {
        let line = text::trim(text::slice_of(chars, lo, text::find_line_stop(chars, lo)).as_slice());
        if line.len() > 0 {
            let number = line_number_text(chars, lo);
            return Err(
                phrase::concat3(
                    "Content appears before the first title on line ",
                    number.as_str(),
                    ".",
                ),
            );
        }
        lo = parser::find_next_line(chars, lo);
    }

    // Process title lines as boundaries and retain all other lines as content.
    let mut document = Document { nodes: Vec::new() };
    proof {
        assert(document@ =~= Seq::<NodeView>::empty());
    }
    while at < chars.len()
        invariant
            chars@ == s,
            s == contents@,
            at <= s.len(),
            at < s.len() ==> is_title_line(s, at as int),
            first_stray_line(s, 0, next_title_line(s, 0)) is None,
            parsed(s) == nodes_from(s, at as int, document@),
        decreases s.len() - at,
    {
        // Reject titles that are empty after surrounding whitespace is stripped.
        let stop = text::find_line_stop(chars, at);
        proof {
            reveal_strlit("# ");
        }
        let title_chars = text::trim(text::slice_of(chars, at + 2, stop).as_slice());
        if title_chars.len() == 0 {
            let number = line_number_text(chars, at);
            return Err(phrase::concat3("Title on line ", number.as_str(), " is empty."));
        }
        let title = text::string_of(title_chars.as_slice());

        // Insert the node unless its title has already been used.
        if document.position(title.as_str()).is_some() {
            let number = line_number_text(chars, at);
            let quoted = debug(title.as_str());
            return Err(describe_duplicate(quoted.as_str(), number.as_str()));
        }
        let start = parser::find_next_line(chars, at);
        let next = find_next_title_line(chars, start);
        proof {
            lemma_next_title_line(s, start as int);
        }
        let content = read_content(chars, start, next);
        let links = read_links(content.as_str());
        let node = Node { title, content, links, depth: None };
        let ghost before = document@;
        let ghost view = NodeView {
            title: title_of(s, at as int),
            content: content_of(s, at as int),
            links: links_of(content_of(s, at as int)),
            depth: None,
        };
        proof {
            assert(node@ == view);
        }
        document.nodes.push(node);
        proof {
            assert(document@ =~= before.push(view));
        }
        at = next;
    }

    // Parsing succeeded.
    Ok(document)
}

} // verus!
