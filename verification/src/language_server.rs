//! Language features for editors.

use percent_encoding::NON_ALPHANUMERIC;
use percent_encoding::utf8_percent_encode;
use vstd::prelude::*;
use vstd::string::StringExecFns;
use vstd::utf8;

use crate::analyzer;
use crate::cancellation::Outcome;
use crate::error;
use crate::error::Error;
use crate::error::Reason;
use crate::error::SourceRange;
use crate::error::Span;
use crate::formatting;
use crate::markdown;
use crate::moving;
use crate::occurrences;
use crate::occurrences::LinkExtent;
use crate::order;
use crate::phrase;
use crate::position;
use crate::position::Position;
use crate::position::Range;
use crate::text;
use crate::text::Text;
use crate::validator;
use crate::wiki;
use crate::wiki::Link;
use crate::wiki::LinkView;
use crate::wiki::NodeView;
use crate::wiki::Wiki;

verus! {

// This extension command reveals a source range for clickable text links in hover previews.
pub const REVEAL_RANGE_COMMAND: &'static str = "mull.revealRange";

// This editor command reopens suggestions so the children of a completed directory can be chosen.
pub const TRIGGER_SUGGEST_COMMAND: &'static str = "editor.action.triggerSuggest";

/// Whether a URI has the scheme for files, in any case.
pub open spec fn is_file_uri(uri: Seq<char>) -> bool {
    let prefix = "file:"@;
    uri.len() >= prefix.len() && forall|i: int|
        0 <= i < prefix.len() ==> text::same_letter(#[trigger] uri[i], prefix[i])
}

/// The path that a URI of a file names, where paths are separated by `/`: what
/// `tower_lsp_server::ls_types::Uri::to_file_path` gives for the URI that its `FromStr` reads, if
/// it gives a path that is text.
pub uninterp spec fn uri_path_text(uri: Seq<char>) -> Option<Seq<char>>;

/// Reads the path from the URI of a file: `Uri::from_str` and `Uri::to_file_path` of
/// `tower_lsp_server::ls_types`. On systems whose paths are separated by `/`, the result depends only
/// on the URI. Nothing is claimed of what it is.
#[verifier::external_body]
fn uri_file_path(uri: &str) -> (path: Option<String>)
    ensures
        markdown::url_view(path) == uri_path_text(uri@),
{
    let parsed: tower_lsp_server::ls_types::Uri = uri.parse().ok()?;
    let path = parsed.to_file_path()?;
    path.to_str().map(|text| text.to_owned())
}

/// The path that a URI names, if it is the URI of a file.
pub open spec fn local_path_text(uri: Seq<char>) -> Option<Seq<char>> {
    if is_file_uri(uri) {
        uri_path_text(uri)
    } else {
        None
    }
}

/// Test whether a URI has the scheme for files.
pub fn has_file_scheme(uri: &str) -> (result: bool)
    ensures
        result == is_file_uri(uri@),
{
    let chars = text::chars_of(uri);
    let prefix = text::chars_of("file:");
    if chars.len() < prefix.len() {
        return false;
    }
    let mut i: usize = 0;
    while i < prefix.len()
        invariant
            chars@ == uri@,
            prefix@ == "file:"@,
            prefix@.len() <= chars@.len(),
            i <= prefix@.len(),
            forall|j: int| 0 <= j < i ==> text::same_letter(#[trigger] uri@[j], prefix@[j]),
        decreases prefix.len() - i,
    {
        if !text::is_same_letter(chars[i], prefix[i]) {
            proof {
                assert(!text::same_letter(uri@[i as int], prefix@[i as int]));
            }
            return false;
        }
        i = i + 1;
    }
    true
}

/// Convert only file-scheme URIs because the URI library does not enforce this distinction.
pub fn local_path(uri: &str) -> (path: Option<String>)
    ensures
        markdown::url_view(path) == local_path_text(uri@),
{
    if has_file_scheme(uri) {
        uri_file_path(uri)
    } else {
        None
    }
}

/// A digit of a byte's hexadecimal form, in upper case.
pub open spec fn hex_digit(n: int) -> char {
    if n < 10 {
        (48 + n) as char
    } else {
        (55 + n) as char
    }
}

/// A byte in percent-encoded text: ASCII letters and digits stand for themselves.
pub open spec fn encoded_byte(b: u8) -> Seq<char> {
    if 48 <= b <= 57 || 65 <= b <= 90 || 97 <= b <= 122 {
        seq![b as char]
    } else {
        seq!['%', hex_digit(b as int / 16), hex_digit(b as int % 16)]
    }
}

/// Bytes as percent-encoded text.
pub open spec fn percent_encoded(bytes: Seq<u8>) -> Seq<char>
    decreases bytes.len(),
{
    if bytes.len() == 0 {
        Seq::empty()
    } else {
        percent_encoded(bytes.drop_last()) + encoded_byte(bytes.last())
    }
}

/// Percent-encodes a text: `percent_encoding::utf8_percent_encode` with `NON_ALPHANUMERIC`, written
/// out by its `Display`. Each byte of the UTF-8 encoding that is not an ASCII letter or digit becomes
/// a percent sign and two hexadecimal digits in upper case.
#[verifier::external_body]
fn percent_encode(value: &str) -> (encoded: String)
    ensures
        encoded@ == percent_encoded(utf8::encode_utf8(value@)),
{
    utf8_percent_encode(value, NON_ALPHANUMERIC).to_string()
}

/// A character inside a JSON string: quotes, backslashes and control characters are escaped.
pub open spec fn json_char(c: char) -> Seq<char> {
    if c == '"' {
        seq!['\\', '"']
    } else if c == '\\' {
        seq!['\\', '\\']
    } else if c == '\u{8}' {
        seq!['\\', 'b']
    } else if c == '\t' {
        seq!['\\', 't']
    } else if c == '\n' {
        seq!['\\', 'n']
    } else if c == '\u{c}' {
        seq!['\\', 'f']
    } else if c == '\r' {
        seq!['\\', 'r']
    } else if c <= '\u{f}' {
        seq!['\\', 'u', '0', '0', '0', lower_hex_digit(c as int)]
    } else if c <= '\u{1f}' {
        seq!['\\', 'u', '0', '0', '1', lower_hex_digit(c as int - 16)]
    } else {
        seq![c]
    }
}

/// A hexadecimal digit in lower case.
pub open spec fn lower_hex_digit(n: int) -> char {
    if n < 10 {
        (48 + n) as char
    } else {
        (87 + n) as char
    }
}

/// What stands between the quotes of a JSON string.
pub open spec fn json_chars(s: Seq<char>) -> Seq<char>
    decreases s.len(),
{
    if s.len() == 0 {
        Seq::empty()
    } else {
        json_chars(s.drop_last()) + json_char(s.last())
    }
}

/// The JSON array of a text and of the line and character numbers of a range.
pub open spec fn json_arguments(uri: Seq<char>, range: Range) -> Seq<char> {
    "[\""@ + json_chars(uri) + "\","@ + text::decimal(range.start.line as nat) + ","@
        + text::decimal(range.start.character as nat) + ","@ + text::decimal(range.end.line as nat)
        + ","@ + text::decimal(range.end.character as nat) + "]"@
}

/// Writes a text and a range as a JSON array: `serde_json::to_string` on a tuple of a string and four
/// numbers, which it never fails to write. There is no space between the values, numbers are decimal,
/// and of the characters of the string only quotes, backslashes and control characters are escaped.
#[verifier::external_body]
fn json_array(uri: &str, range: Range) -> (json: Option<String>)
    ensures
        json is Some,
        json->0@ == json_arguments(uri@, range),
{
    let (start, end) = (range.start, range.end);
    serde_json::to_string(&(uri, start.line, start.character, end.line, end.character)).ok()
}

/// The URI of an editor navigation command with given arguments.
pub open spec fn command_url(arguments: Seq<char>) -> Seq<char> {
    "command:"@ + "mull.revealRange"@ + "?"@ + percent_encoded(utf8::encode_utf8(arguments))
}

/// The URI of the editor navigation command that reveals a range of a document.
pub open spec fn reveal_url(uri: Seq<char>, s: Seq<char>, span: Span) -> Seq<char> {
    command_url(json_arguments(uri, position::range_of(s, span)))
}

/// Write the URI of an editor navigation command with given arguments.
pub fn encode_command(arguments: &str) -> (url: String)
    ensures
        url@ == command_url(arguments@),
{
    let encoded = percent_encode(arguments);
    let mut url = phrase::concat3("command:", REVEAL_RANGE_COMMAND, "?");
    url.append(encoded.as_str());
    url
}

/// Encode an editor navigation command as a Markdown-safe URI. The arguments are the document URI and
/// the destination range in UTF-16 code units.
pub fn reveal_range_command_url(uri: &str, source: &Text, source_range: SourceRange) -> (url: Option<
    String,
>)
    requires
        source.wf(),
    ensures
        url matches Some(found) && found@ == reveal_url(uri@, source@, source_range@),
{
    let range = source.editor_range(source_range);
    match json_array(uri, range) {
        Some(arguments) => Some(encode_command(arguments.as_str())),
        None => None,
    }
}

/// Where a definition is: the range that was asked about, and the node that it denotes.
#[derive(Clone, Debug)]
pub struct LocationLink {
    pub origin_selection_range: Range,
    pub target_uri: String,
    pub target_range: Range,
    pub target_selection_range: Range,
}

/// The node that a position of a source denotes, with the range that denotes it.
pub open spec fn denoted(s: Seq<char>, cursor: Position, extent: LinkExtent) -> Option<
    (NodeView, Span),
> {
    match nodes_at(s, cursor, extent) {
        Some((nodes, i, span)) => Some((nodes[i], span)),
        None => None,
    }
}

/// The nodes of a source, with the index of the one that a position denotes and the range that
/// denotes it.
pub open spec fn nodes_at(s: Seq<char>, cursor: Position, extent: LinkExtent) -> Option<
    (Seq<NodeView>, int, Span),
> {
    match (occurrences::nodes_of(s), position::index_of(s, cursor)) {
        (Some(nodes), Some(index)) => match occurrences::denoted_at(
            nodes,
            s,
            text::offset(s, index),
            extent,
        ) {
            Some((i, span)) => Some((nodes, i, span)),
            None => None,
        },
        _ => None,
    }
}

/// Parse a source and find the node that a position denotes.
fn find_node(source_contents: &str, source: &Text, cursor: Position, extent: LinkExtent) -> (result:
    Option<(Wiki, usize, SourceRange)>)
    requires
        source.wf(),
        source@ == source_contents@,
    ensures
        match result {
            Some((wiki, i, range)) => i < wiki@.len() && nodes_at(source@, cursor, extent) == Some(
                (wiki@, i as int, range@),
            ),
            None => nodes_at(source@, cursor, extent) == None::<(Seq<NodeView>, int, Span)>,
        },
{
    // Parse only the wiki syntax because navigation does not require filesystem validation.
    let wiki = match occurrences::parse_wiki(source_contents) {
        Some(wiki) => wiki,
        None => return None,
    };
    match source.index_of_position(cursor) {
        Some(index) => match occurrences::node_at(&wiki, source, source.offsets[index], extent) {
            Some((i, range)) => Some((wiki, i, range)),
            None => None,
        },
        None => None,
    }
}

/// Locate the node declared or linked at an editor position.
pub fn goto_definition_for_document(uri: &str, source_contents: &str, cursor: Position) -> (result:
    Option<LocationLink>)
    ensures
        match denoted(source_contents@, cursor, LinkExtent::Whole) {
            Some((node, span)) => result matches Some(link) && {
                &&& link.origin_selection_range == position::range_of(source_contents@, span)
                &&& link.target_uri@ == uri@
                &&& link.target_range == position::range_of(source_contents@, node.span)
                &&& link.target_selection_range == position::range_of(
                    source_contents@,
                    node.title_span,
                )
            },
            None => result is None,
        },
{
    let text = Text::new(source_contents);
    match find_node(source_contents, &text, cursor, LinkExtent::Whole) {
        Some((wiki, i, range)) => {
            let node = &wiki.text_nodes[i];
            proof {
                assert(wiki@[i as int] == node@);
            }
            Some(
                LocationLink {
                    origin_selection_range: text.editor_range(range),
                    target_uri: uri.to_owned(),
                    target_range: text.editor_range(node.source_range),
                    target_selection_range: text.editor_range(node.title_source_range),
                },
            )
        },
        None => None,
    }
}

/// A preview in Markdown, with the range that it is about.
#[derive(Clone, Debug)]
pub struct Hover {
    pub value: String,
    pub range: Range,
}

/// The destination of a link in a preview: the title of the node that a text link names, if there is
/// such a node.
pub open spec fn preview_url(
    uri: Seq<char>,
    s: Seq<char>,
    nodes: Seq<NodeView>,
    link: LinkView,
) -> Option<Seq<char>> {
    match link {
        LinkView::Text { title, span } => match wiki::position_of(nodes, title) {
            Some(i) => Some(reveal_url(uri, s, nodes[i].title_span)),
            None => None,
        },
        LinkView::File { path, span } => None,
        LinkView::Directory { path, span } => None,
    }
}

/// The destinations of links in a preview.
pub open spec fn preview_urls(
    uri: Seq<char>,
    s: Seq<char>,
    nodes: Seq<NodeView>,
    links: Seq<LinkView>,
) -> Seq<Option<Seq<char>>> {
    links.map_values(|link: LinkView| preview_url(uri, s, nodes, link))
}

/// Find the destination of a link in a preview.
fn find_preview_url(uri: &str, source: &Text, wiki: &Wiki, link: &Link) -> (url: Option<String>)
    requires
        source.wf(),
    ensures
        markdown::url_view(url) == preview_url(uri@, source@, wiki@, link@),
{
    match link {
        Link::Text { title, source_range } => match wiki.position(title.as_str()) {
            Some(i) => {
                proof {
                    assert(wiki@[i as int] == wiki.text_nodes@[i as int]@);
                }
                reveal_range_command_url(uri, source, wiki.text_nodes[i].title_source_range)
            },
            None => None,
        },
        Link::File { path, source_range } => None,
        Link::Directory { path, source_range } => None,
    }
}

/// The destinations of links beyond those that the content shows do not matter to a preview.
proof fn lemma_markdown_urls(
    s: Seq<char>,
    links: Seq<LinkView>,
    a: Seq<Option<Seq<char>>>,
    b: Seq<Option<Seq<char>>>,
    i: int,
)
    requires
        a.len() == markdown::min(markdown::links_before(s, s.len() as int), links.len()),
        b.len() == links.len(),
        forall|k: int| 0 <= k < a.len() ==> #[trigger] a[k] == b[k],
        0 <= i <= s.len(),
    ensures
        markdown::rendered_before(s, links, a, i) == markdown::rendered_before(s, links, b, i),
        markdown::links_before(s, i) <= markdown::links_before(s, s.len() as int),
    decreases i,
{
    lemma_links_before_monotonic(s, i, s.len() as int);
    if i > 0 {
        lemma_markdown_urls(s, links, a, b, i - 1);
        if markdown::link_ends_at(s, i - 1) {
            let number = markdown::links_before(s, i - 1);
            if number < links.len() {
                assert(number < a.len());
                assert(a[number as int] == b[number as int]);
            }
        }
    }
}

proof fn lemma_links_before_monotonic(s: Seq<char>, i: int, j: int)
    requires
        0 <= i <= j,
    ensures
        markdown::links_before(s, i) <= markdown::links_before(s, j),
    decreases j - i,
{
    if i < j {
        lemma_links_before_monotonic(s, i, j - 1);
    }
}

/// The preview of a node.
pub open spec fn preview(uri: Seq<char>, s: Seq<char>, nodes: Seq<NodeView>, node: NodeView) -> Seq<
    char,
> {
    markdown::node_markdown(
        node.title,
        node.content,
        node.links,
        preview_urls(uri, s, nodes, node.links),
    )
}

/// Preview the destination of a text link at an editor position.
pub fn hover_for_document(uri: &str, source_contents: &str, cursor: Position) -> (result: Option<
    Hover,
>)
    ensures
        match nodes_at(source_contents@, cursor, LinkExtent::Whole) {
            Some((nodes, i, span)) => result matches Some(hover) && {
                &&& hover.value@ == preview(uri@, source_contents@, nodes, nodes[i])
                &&& hover.range == position::range_of(source_contents@, span)
            },
            None => result is None,
        },
{
    let text = Text::new(source_contents);
    match find_node(source_contents, &text, cursor, LinkExtent::Whole) {
        Some((wiki, i, range)) => {
            let node = &wiki.text_nodes[i];

            // Render the node as Markdown with commands that navigate its resolvable text links.
            let link_url = |link: &Link| -> (url: Option<String>)
                requires
                    text.wf(),
                ensures
                    markdown::url_view(url) == preview_url(uri@, text@, wiki@, link@),
            {
                find_preview_url(uri, &text, &wiki, link)
            };
            let value = node.to_markdown(link_url);
            proof {
                assert(wiki@[i as int] == node@);
                let content = node@.content;
                let links = node@.links;
                let all = preview_urls(uri@, text@, wiki@, links);
                let urls = choose|urls: Seq<Option<String>>|
                    {
                        &&& urls.len() == markdown::min(
                            markdown::links_before(content, content.len() as int),
                            links.len(),
                        )
                        &&& forall|k: int|
                            0 <= k < urls.len() ==> markdown::url_view(#[trigger] urls[k])
                                == preview_url(uri@, text@, wiki@, node.links@[k]@)
                        &&& value@ == markdown::node_markdown(
                            node@.title,
                            content,
                            links,
                            #[trigger] markdown::url_views(urls),
                        )
                    };
                let found = markdown::url_views(urls);
                assert forall|k: int| 0 <= k < found.len() implies #[trigger] found[k] == all[k] by {
                    assert(found[k] == markdown::url_view(urls[k]));
                    assert(links[k] == node.links@[k]@);
                }
                lemma_markdown_urls(content, links, found, all, content.len() as int);
            }
            Some(Hover { value, range: text.editor_range(range) })
        },
        None => None,
    }
}

/// A range of a document.
#[derive(Clone, Debug)]
pub struct Location {
    pub uri: String,
    pub range: Range,
}

/// The contents of a location.
pub struct LocationView {
    pub uri: Seq<char>,
    pub range: Range,
}

impl View for Location {
    type V = LocationView;

    open spec fn view(&self) -> LocationView {
        LocationView { uri: self.uri@, range: self.range }
    }
}

/// The locations in a vector.
pub open spec fn location_views(locations: Seq<Location>) -> Seq<LocationView> {
    locations.map_values(|location: Location| location@)
}

/// The locations of ranges of a document.
pub open spec fn locations_of(uri: Seq<char>, s: Seq<char>, spans: Seq<Span>) -> Seq<LocationView> {
    spans.map_values(|span: Span| LocationView { uri, range: position::range_of(s, span) })
}

/// The ranges of the references to a node, with its declaration if that is asked for.
pub open spec fn reference_spans(
    nodes: Seq<NodeView>,
    node: NodeView,
    include_declaration: bool,
) -> Seq<Span> {
    let references = occurrences::references_to(nodes, node.title);
    let spans = if include_declaration {
        references.push(node.title_span)
    } else {
        references
    };
    occurrences::ordered_by_span(spans, spans)
}

/// Locate ranges of a document.
fn locate(uri: &str, source: &Text, ranges: &Vec<SourceRange>) -> (locations: Vec<Location>)
    requires
        source.wf(),
    ensures
        location_views(locations@) == locations_of(
            uri@,
            source@,
            occurrences::span_views(ranges@),
        ),
{
    let mut locations: Vec<Location> = Vec::new();
    let mut i: usize = 0;
    while i < ranges.len()
        invariant
            source.wf(),
            i <= ranges@.len(),
            locations@.len() == i,
            forall|j: int|
                0 <= j < i ==> (#[trigger] locations@[j])@ == (LocationView {
                    uri: uri@,
                    range: position::range_of(source@, ranges@[j]@),
                }),
        decreases ranges.len() - i,
    {
        locations.push(Location { uri: uri.to_owned(), range: source.editor_range(ranges[i]) });
        i = i + 1;
    }
    proof {
        let spans = occurrences::span_views(ranges@);
        assert(forall|j: int| 0 <= j < ranges@.len() ==> spans[j] == (#[trigger] ranges@[j])@);
        assert(location_views(locations@) =~= locations_of(uri@, source@, spans));
    }
    locations
}

/// Locate every text link to the node at an editor position.
pub fn references_for_document(
    uri: &str,
    source_contents: &str,
    cursor: Position,
    include_declaration: bool,
) -> (result: Option<Vec<Location>>)
    ensures
        match nodes_at(source_contents@, cursor, LinkExtent::Whole) {
            Some((nodes, i, span)) => result matches Some(locations) && location_views(locations@)
                == locations_of(
                uri@,
                source_contents@,
                reference_spans(nodes, nodes[i], include_declaration),
            ),
            None => result is None,
        },
{
    let text = Text::new(source_contents);
    match find_node(source_contents, &text, cursor, LinkExtent::Whole) {
        Some((wiki, i, range)) => {
            let node = &wiki.text_nodes[i];
            proof {
                assert(wiki@[i as int] == node@);
            }

            // Include the declaration only when requested, then restore source order.
            let mut ranges = occurrences::text_link_source_ranges(&wiki, node.title.as_str());
            let ghost references = occurrences::span_views(ranges@);
            if include_declaration {
                ranges.push(node.title_source_range);
                proof {
                    assert(occurrences::span_views(ranges@) =~= references.push(
                        node.title_source_range@,
                    ));
                }
            }
            let sorted = occurrences::sort_ranges(ranges);
            Some(locate(uri, &text, &sorted))
        },
        None => None,
    }
}

/// Whether an occurrence refers to something or declares it.
#[derive(Clone, Copy, Debug, PartialEq, Eq, Structural)]
pub enum HighlightKind {
    Read,
    Write,
}

/// An occurrence to be highlighted.
#[derive(Clone, Copy, Debug, PartialEq, Eq, Structural)]
pub struct DocumentHighlight {
    pub range: Range,
    pub kind: HighlightKind,
}

/// Highlights of the same kind for ranges.
pub open spec fn highlights_of(s: Seq<char>, spans: Seq<Span>, kind: HighlightKind) -> Seq<
    DocumentHighlight,
> {
    spans.map_values(|span: Span| DocumentHighlight { range: position::range_of(s, span), kind })
}

/// The highlights for a node: its references and its declaration, in source order.
pub open spec fn node_highlights(s: Seq<char>, nodes: Seq<NodeView>, node: NodeView) -> Seq<
    DocumentHighlight,
> {
    let references = occurrences::references_to(nodes, node.title);
    let highlights = highlights_of(s, references, HighlightKind::Read).push(
        DocumentHighlight {
            range: position::range_of(s, node.title_span),
            kind: HighlightKind::Write,
        },
    );
    occurrences::ordered_by_span(highlights, references.push(node.title_span))
}

/// The highlights for a filesystem link: the links with the same kind and path, in source order.
pub open spec fn filesystem_highlights(s: Seq<char>, nodes: Seq<NodeView>, link: LinkView) -> Seq<
    DocumentHighlight,
> {
    let spans = occurrences::spans_matching(validator::all_links(nodes), link);
    occurrences::ordered_by_span(highlights_of(s, spans, HighlightKind::Read), spans)
}

/// The highlights for a byte offset. Filesystem links have no declaration in the wiki, and a text
/// link without a target has nothing to highlight.
pub open spec fn highlights_at(s: Seq<char>, nodes: Seq<NodeView>, b: int) -> Option<
    Seq<DocumentHighlight>,
> {
    match occurrences::denoted_at(nodes, s, b, LinkExtent::Whole) {
        Some((i, span)) => Some(node_highlights(s, nodes, nodes[i])),
        None => match occurrences::link_view_at(nodes, b) {
            Some(LinkView::Text { title, span }) => None,
            Some(link) => Some(filesystem_highlights(s, nodes, link)),
            None => None,
        },
    }
}

/// Highlight ranges.
fn highlight(source: &Text, ranges: &Vec<SourceRange>, kind: HighlightKind) -> (highlights: Vec<
    DocumentHighlight,
>)
    requires
        source.wf(),
    ensures
        highlights@ == highlights_of(source@, occurrences::span_views(ranges@), kind),
{
    let mut highlights: Vec<DocumentHighlight> = Vec::new();
    let mut i: usize = 0;
    while i < ranges.len()
        invariant
            source.wf(),
            i <= ranges@.len(),
            highlights@.len() == i,
            forall|j: int|
                0 <= j < i ==> #[trigger] highlights@[j] == (DocumentHighlight {
                    range: position::range_of(source@, ranges@[j]@),
                    kind,
                }),
        decreases ranges.len() - i,
    {
        highlights.push(DocumentHighlight { range: source.editor_range(ranges[i]), kind });
        i = i + 1;
    }
    proof {
        let spans = occurrences::span_views(ranges@);
        assert(forall|j: int| 0 <= j < ranges@.len() ==> spans[j] == (#[trigger] ranges@[j])@);
        assert(highlights@ =~= highlights_of(source@, spans, kind));
    }
    highlights
}

/// Highlight related node or filesystem-link occurrences at an editor position.
pub fn document_highlight_for_document(source_contents: &str, cursor: Position) -> (result: Option<
    Vec<DocumentHighlight>,
>)
    ensures
        match (
            occurrences::nodes_of(source_contents@),
            position::index_of(source_contents@, cursor),
        ) {
            (Some(nodes), Some(index)) => match highlights_at(
                source_contents@,
                nodes,
                text::offset(source_contents@, index),
            ) {
                Some(highlights) => result matches Some(found) && found@ == highlights,
                None => result is None,
            },
            _ => result is None,
        },
{
    // Parse only the wiki syntax because document highlights do not require validation.
    let text = Text::new(source_contents);
    let wiki = match occurrences::parse_wiki(source_contents) {
        Some(wiki) => wiki,
        None => return None,
    };
    let byte_offset = match text.index_of_position(cursor) {
        Some(index) => text.offsets[index],
        None => return None,
    };

    // Distinguish a text-node declaration from its references.
    match occurrences::node_at(&wiki, &text, byte_offset, LinkExtent::Whole) {
        Some((i, range)) => {
            let node = &wiki.text_nodes[i];
            proof {
                assert(wiki@[i as int] == node@);
            }
            let mut ranges = occurrences::text_link_source_ranges(&wiki, node.title.as_str());
            let ghost references = occurrences::span_views(ranges@);
            let mut highlights = highlight(&text, &ranges, HighlightKind::Read);
            highlights.push(
                DocumentHighlight {
                    range: text.editor_range(node.title_source_range),
                    kind: HighlightKind::Write,
                },
            );
            ranges.push(node.title_source_range);
            proof {
                assert(occurrences::span_views(ranges@) =~= references.push(
                    node.title_source_range@,
                ));
            }
            let order = occurrences::range_order(&ranges);
            Some(order::arrange(highlights, &order))
        },
        None => {
            // Every filesystem link with the same kind and path is a reference.
            let link = match occurrences::link_at(&wiki, byte_offset) {
                Some(link) => link,
                None => return None,
            };
            if let Link::Text { title, source_range } = link {
                return None;
            }
            let ranges = occurrences::filesystem_link_source_ranges(&wiki, link);
            let highlights = highlight(&text, &ranges, HighlightKind::Read);
            let order = occurrences::range_order(&ranges);
            Some(order::arrange(highlights, &order))
        },
    }
}

/// What an editor selects before a rename, and what it offers to change.
#[derive(Clone, Debug)]
pub struct PrepareRename {
    pub range: Range,
    pub placeholder: String,
}

/// Identify the source occurrence that should be selected before renaming a node, or a file or a
/// directory that a link names.
pub fn prepare_rename_for_document(source_contents: &str, cursor: Position) -> (result: Option<
    PrepareRename,
>)
    ensures
        match denoted(source_contents@, cursor, LinkExtent::Target) {
            Some((node, span)) => result matches Some(rename) && {
                &&& rename.range == position::range_of(source_contents@, span)
                &&& rename.placeholder@ == node.title
            },
            None => match moving::path_at(source_contents@, cursor) {
                Some((nodes, path, span)) => result matches Some(rename) && {
                    &&& rename.range == position::range_of(source_contents@, span)
                    &&& rename.placeholder@ == path
                },
                None => result is None,
            },
        },
{
    let text = Text::new(source_contents);
    match find_node(source_contents, &text, cursor, LinkExtent::Target) {
        Some((wiki, i, range)) => {
            // Select only the title text and seed the rename prompt with its decoded value.
            proof {
                assert(wiki@[i as int] == wiki.text_nodes@[i as int]@);
            }
            Some(
                PrepareRename {
                    range: text.editor_range(range),
                    placeholder: wiki.text_nodes[i].title.clone(),
                },
            )
        },
        None => match moving::find_path(source_contents, &text, cursor) {
            Some((wiki, path, range)) => Some(
                PrepareRename { range: text.editor_range(range), placeholder: path },
            ),
            None => None,
        },
    }
}

/// A change of a range of a document.
#[derive(Clone, Debug)]
pub struct TextEdit {
    pub range: Range,
    pub new_text: String,
}

/// The contents of an edit.
pub struct EditView {
    pub range: Range,
    pub new_text: Seq<char>,
}

impl View for TextEdit {
    type V = EditView;

    open spec fn view(&self) -> EditView {
        EditView { range: self.range, new_text: self.new_text@ }
    }
}

/// The edits in a vector.
pub open spec fn edit_views(edits: Seq<TextEdit>) -> Seq<EditView> {
    edits.map_values(|edit: TextEdit| edit@)
}

/// A new path for a file or a directory. Both paths are relative to the wiki's directory.
#[derive(Clone, Debug)]
pub struct FileRename {
    pub old_path: String,
    pub new_path: String,
}

/// Changes of one document, and of a file or a directory that it links to.
#[derive(Clone, Debug)]
pub struct WorkspaceEdit {
    pub uri: String,
    pub edits: Vec<TextEdit>,
    pub file_rename: Option<FileRename>,
}

/// What is wrong with a new title for a node, if anything.
pub open spec fn rename_error(nodes: Seq<NodeView>, node: NodeView, new_name: Seq<char>) -> Option<
    Seq<char>,
> {
    let title = text::trimmed(new_name);
    if new_name.contains('\r') || new_name.contains('\n') {
        Some("A node title cannot contain a line break."@)
    } else if title.len() == 0 {
        Some("A node title cannot be empty."@)
    } else if text::starts_with(title, "file:"@) || text::starts_with(title, "dir:"@) {
        Some("A node title cannot start with `file:` or `dir:`."@)
    } else if text::starts_with(title, "/"@) {
        Some("A node title cannot start with `/`."@)
    } else if title != node.title && wiki::has_title(nodes, title) {
        Some("Node `"@ + title + "` already exists."@)
    } else {
        None
    }
}

/// The ranges between the delimiters of the text links in a sequence that name a title.
pub open spec fn target_spans_naming(s: Seq<char>, links: Seq<LinkView>, title: Seq<char>) -> Seq<
    Span,
>
    decreases links.len(),
{
    if links.len() == 0 {
        Seq::empty()
    } else {
        let spans = target_spans_naming(s, links.drop_last(), title);
        match links.last() {
            LinkView::Text { title: named, span } => if named == title {
                match occurrences::target_span(s, span) {
                    Some(target) => spans.push(target),
                    None => spans,
                }
            } else {
                spans
            },
            _ => spans,
        }
    }
}

/// The edits that give a node a new title: its declaration takes the title as it is, and the text
/// links that name it take the title with its delimiters escaped.
pub open spec fn rename_edits(
    s: Seq<char>,
    nodes: Seq<NodeView>,
    node: NodeView,
    new_title: Seq<char>,
) -> Seq<EditView> {
    let targets = target_spans_naming(s, validator::all_links(nodes), node.title);
    let declaration = EditView {
        range: position::range_of(s, node.title_span),
        new_text: new_title,
    };
    let links = targets.map_values(
        |span: Span|
            EditView {
                range: position::range_of(s, span),
                new_text: wiki::escaped(new_title),
            },
    );
    occurrences::ordered_by_span(seq![declaration] + links, seq![node.title_span] + targets)
}

/// Test whether a text has a line break.
pub fn has_line_break(chars: &[char]) -> (result: bool)
    ensures
        result == (chars@.contains('\r') || chars@.contains('\n')),
{
    let mut i: usize = 0;
    while i < chars.len()
        invariant
            i <= chars@.len(),
            forall|j: int| 0 <= j < i ==> #[trigger] chars@[j] != '\r' && chars@[j] != '\n',
        decreases chars.len() - i,
    {
        if chars[i] == '\r' || chars[i] == '\n' {
            proof {
                assert(chars@[i as int] == '\r' || chars@[i as int] == '\n');
            }
            return true;
        }
        i = i + 1;
    }
    false
}

/// Reject titles that the parser would not accept: those that span multiple lines, are empty, start
/// like a filesystem link, or already exist.
fn check_new_name(wiki: &Wiki, index: usize, new_name: &str) -> (result: Result<String, String>)
    requires
        index < wiki@.len(),
    ensures
        match result {
            Ok(title) => rename_error(wiki@, wiki@[index as int], new_name@) == None::<Seq<char>>
                && title@ == text::trimmed(new_name@),
            Err(message) => rename_error(wiki@, wiki@[index as int], new_name@) == Some(message@),
        },
{
    let chars = text::chars_of(new_name);
    if has_line_break(chars.as_slice()) {
        return Err("A node title cannot contain a line break.".to_owned());
    }
    let title = text::trim(chars.as_slice());
    if title.len() == 0 {
        return Err("A node title cannot be empty.".to_owned());
    }
    if text::has_prefix(title.as_slice(), wiki::FILE_LINK_PREFIX) || text::has_prefix(
        title.as_slice(),
        wiki::DIRECTORY_LINK_PREFIX,
    ) {
        return Err("A node title cannot start with `file:` or `dir:`.".to_owned());
    }
    if text::has_prefix(title.as_slice(), wiki::FILESYSTEM_LINK_PREFIX) {
        return Err("A node title cannot start with `/`.".to_owned());
    }
    let new_title = text::string_of(title.as_slice());
    proof {
        assert(wiki@[index as int].title == wiki.text_nodes@[index as int].title@);
    }
    if !text::same_text(new_title.as_str(), wiki.text_nodes[index].title.as_str())
        && wiki.contains(new_title.as_str()) {
        return Err(phrase::concat3("Node `", new_title.as_str(), "` already exists."));
    }
    Ok(new_title)
}

/// Rename a file or a directory that a wiki links to, along with every link to it or to anything within
/// it.
fn rename_path(uri: &str, source_contents: &str, source: &Text, cursor: Position, new_name: &str) -> (
result: Result<Option<WorkspaceEdit>, String>)
    requires
        source.wf(),
        source@ == source_contents@,
    ensures
        match moving::path_at(source@, cursor) {
            Some((nodes, old_path, span)) => match moving::new_path(old_path, new_name@) {
                Ok(new_path) => result matches Ok(Some(edit)) && {
                    &&& edit.uri@ == uri@
                    &&& edit_views(edit.edits@) == moving::move_edits(
                        source@,
                        validator::all_links(nodes),
                        old_path,
                        new_path,
                    )
                    &&& edit.file_rename matches Some(rename) && rename.old_path@ == old_path
                        && rename.new_path@ == new_path
                },
                Err(message) => result matches Err(found) && found@ == message,
            },
            None => result matches Ok(None),
        },
{
    let (wiki, old_path) = match moving::find_path(source_contents, source, cursor) {
        Some((wiki, path, range)) => (wiki, path),
        None => return Ok(None),
    };
    let new_path = match moving::check_new_path(old_path.as_str(), new_name) {
        Ok(path) => path,
        Err(message) => return Err(message),
    };
    let edits = moving::follow_all(source, &wiki, old_path.as_str(), new_path.as_str());
    Ok(
        Some(
            WorkspaceEdit {
                uri: uri.to_owned(),
                edits,
                file_rename: Some(FileRename { old_path, new_path }),
            },
        ),
    )
}

/// Rename one text node and every text link that targets it, or one file or directory and every link to
/// it or to anything within it.
pub fn rename_for_document(uri: &str, source_contents: &str, cursor: Position, new_name: &str) -> (
result: Result<Option<WorkspaceEdit>, String>)
    ensures
        match nodes_at(source_contents@, cursor, LinkExtent::Target) {
            Some((nodes, i, span)) => match rename_error(nodes, nodes[i], new_name@) {
                Some(message) => result matches Err(found) && found@ == message,
                None => result matches Ok(Some(edit)) && {
                    &&& edit.uri@ == uri@
                    &&& edit_views(edit.edits@) == rename_edits(
                        source_contents@,
                        nodes,
                        nodes[i],
                        text::trimmed(new_name@),
                    )
                    &&& edit.file_rename is None
                },
            },
            None => match moving::path_at(source_contents@, cursor) {
                Some((nodes, old_path, span)) => match moving::new_path(old_path, new_name@) {
                    Ok(new_path) => result matches Ok(Some(edit)) && {
                        &&& edit.uri@ == uri@
                        &&& edit_views(edit.edits@) == moving::move_edits(
                            source_contents@,
                            validator::all_links(nodes),
                            old_path,
                            new_path,
                        )
                        &&& edit.file_rename matches Some(rename) && rename.old_path@ == old_path
                            && rename.new_path@ == new_path
                    },
                    Err(message) => result matches Err(found) && found@ == message,
                },
                None => result matches Ok(None),
            },
        },
{
    // Resolve the requested node without requiring the wiki to pass semantic validation.
    let text = Text::new(source_contents);
    let (wiki, index) = match find_node(source_contents, &text, cursor, LinkExtent::Target) {
        Some((wiki, i, range)) => (wiki, i),
        None => return rename_path(uri, source_contents, &text, cursor, new_name),
    };
    let new_title = match check_new_name(&wiki, index, new_name) {
        Ok(title) => title,
        Err(message) => return Err(message),
    };
    let node = &wiki.text_nodes[index];
    let ghost s = text@;
    let ghost nodes = wiki@;
    proof {
        assert(nodes[index as int] == node@);
    }

    // Replace the declaration literally and encode the title inside every matching text link.
    let escaped = wiki::escape_link_delimiters(new_title.as_str());
    let mut ranges: Vec<SourceRange> = Vec::new();
    let mut edits: Vec<TextEdit> = Vec::new();
    ranges.push(node.title_source_range);
    edits.push(
        TextEdit { range: text.editor_range(node.title_source_range), new_text: new_title.clone() },
    );
    let ghost declaration = edits@[0]@;
    let links = occurrences::list_links(&wiki);
    let ghost views = validator::link_ref_views(links@);
    let mut i: usize = 0;
    let ghost as_edit = |span: Span|
        EditView { range: position::range_of(s, span), new_text: wiki::escaped(new_title@) };
    proof {
        let none = target_spans_naming(s, views.take(0), node.title@);
        assert(occurrences::span_views(ranges@) =~= seq![node.title_source_range@] + none);
        assert(edit_views(edits@) =~= seq![declaration] + none.map_values(as_edit));
    }
    while i < links.len()
        invariant
            text.wf(),
            s == text@,
            escaped@ == wiki::escaped(new_title@),
            as_edit == (|span: Span|
                EditView {
                    range: position::range_of(s, span),
                    new_text: wiki::escaped(new_title@),
                }),
            views == validator::link_ref_views(links@),
            i <= links@.len(),
            ranges@.len() == edits@.len(),
            occurrences::span_views(ranges@) == seq![node.title_source_range@]
                + target_spans_naming(s, views.take(i as int), node.title@),
            edit_views(edits@) == seq![declaration] + target_spans_naming(
                s,
                views.take(i as int),
                node.title@,
            ).map_values(as_edit),
        decreases links.len() - i,
    {
        let ghost before = target_spans_naming(s, views.take(i as int), node.title@);
        let ghost earlier_ranges = occurrences::span_views(ranges@);
        let ghost earlier_edits = edit_views(edits@);
        proof {
            assert(views[i as int] == links@[i as int]@);
            assert(views.take(i + 1).drop_last() =~= views.take(i as int));
            assert(views.take(i + 1).last() == views[i as int]);
        }
        if let Link::Text { title, source_range } = links[i] {
            if text::same_text(title.as_str(), node.title.as_str()) {
                let target = occurrences::text_link_target_source_range(&text, *source_range);
                if let Some(range) = target {
                    let edit = TextEdit {
                        range: text.editor_range(range),
                        new_text: escaped.clone(),
                    };
                    let ghost edit_view = edit@;
                    ranges.push(range);
                    edits.push(edit);
                    proof {
                        let after = before.push(range@);
                        assert(target_spans_naming(s, views.take(i + 1), node.title@) == after);
                        assert(occurrences::span_views(ranges@) =~= earlier_ranges.push(range@));
                        assert(occurrences::span_views(ranges@) =~= seq![
                            node.title_source_range@,
                        ] + after);
                        assert(edit_view == as_edit(range@));
                        assert(edit_views(edits@) =~= earlier_edits.push(edit_view));
                        assert(after.map_values(as_edit) =~= before.map_values(as_edit).push(
                            edit_view,
                        ));
                        assert(edit_views(edits@) =~= seq![declaration] + after.map_values(
                            as_edit,
                        ));
                    }
                }
            }
        }
        i = i + 1;
    }
    proof {
        assert(views.take(i as int) =~= views);
    }

    // Return one edit for each occurrence in the current document.
    let ghost unsorted = edits@;
    let order = occurrences::range_order(&ranges);
    let sorted = order::arrange(edits, &order);
    proof {
        let targets = target_spans_naming(s, validator::all_links(nodes), node.title@);
        let indices = order::index_views(order@);
        assert forall|a: int| 0 <= a < order@.len() implies 0 <= #[trigger] indices[a]
            < unsorted.len() by {
            assert(indices[a] == order@[a] as int);
        }
        assert(edit_views(sorted@) =~= order::arranged(edit_views(unsorted), indices));
        assert(edit_views(sorted@) == rename_edits(s, nodes, node@, new_title@));
    }
    Ok(Some(WorkspaceEdit { uri: uri.to_owned(), edits: sorted, file_rename: None }))
}

/// The position after a source.
pub open spec fn end_position(s: Seq<char>) -> Position {
    position::position_at(s, s.len() as int)
}

/// The start of a document.
pub open spec fn start_position() -> Position {
    Position { line: 0, character: 0 }
}

/// The edits that format a wiki: none if it is its own rendering, and otherwise one that replaces
/// the whole document.
pub open spec fn format_edits(s: Seq<char>, nodes: Seq<NodeView>) -> Seq<EditView> {
    if s == wiki::wiki_text(nodes) {
        Seq::empty()
    } else {
        seq![
            EditView {
                range: Range { start: start_position(), end: end_position(s) },
                new_text: wiki::wiki_text(nodes),
            },
        ]
    }
}

/// Formatting a formatted wiki changes nothing: what the edit for a wiki whose contents settle puts in
/// its place needs no edit.
pub proof fn law_formatting_twice_is_formatting_once(
    s: Seq<char>,
    nodes: Seq<NodeView>,
    edit: EditView,
)
    requires
        occurrences::nodes_of(s) == Some(nodes),
        formatting::all_settle(s),
        format_edits(s, nodes) == seq![edit],
    ensures
        occurrences::nodes_of(edit.new_text) is Some,
        format_edits(edit.new_text, occurrences::nodes_of(edit.new_text)->0).len() == 0,
{
    assert(format_edits(s, nodes)[0] == edit);
    assert(seq![edit].len() == 1);
    formatting::law_formatting_is_stable(None, s, nodes, None);
}

/// Produce a whole-document formatting edit for any wiki that parses, even if it is invalid.
pub fn formatting_for_document(source_contents: &str) -> (result: Option<Vec<TextEdit>>)
    ensures
        match occurrences::nodes_of(source_contents@) {
            Some(nodes) => result matches Some(edits) && edit_views(edits@) == format_edits(
                source_contents@,
                nodes,
            ),
            None => result is None,
        },
{
    // Render the parsed wiki without reporting syntax errors, which diagnostics already cover.
    let text = Text::new(source_contents);
    let rendered = match occurrences::parse_wiki(source_contents) {
        Some(wiki) => wiki.to_string(),
        None => return None,
    };

    // A successful request returns either one whole-document edit or an empty edit list.
    let mut edits: Vec<TextEdit> = Vec::new();
    if !text::same_text(source_contents, rendered.as_str()) {
        let range = Range::new(Position::new(0, 0), text.position(text.len()));
        let edit = TextEdit { range, new_text: rendered };
        let ghost view = edit@;
        edits.push(edit);
        proof {
            assert(edit_views(edits@) =~= seq![view]);
        }
    } else {
        proof {
            assert(edit_views(edits@) =~= Seq::<EditView>::empty());
        }
    }
    Some(edits)
}

/// A node in an outline, with the range of the node and that of its title.
#[derive(Clone, Debug)]
pub struct DocumentSymbol {
    pub name: String,
    pub range: Range,
    pub selection_range: Range,
}

/// A node in a flat list of symbols, at its title.
#[derive(Clone, Debug)]
pub struct SymbolInformation {
    pub name: String,
    pub location: Location,
}

/// The symbols of a document, in the form that the editor supports.
#[derive(Clone, Debug)]
pub enum DocumentSymbolResponse {
    Nested(Vec<DocumentSymbol>),
    Flat(Vec<SymbolInformation>),
}

/// The keys that order nodes by where they start.
pub open spec fn start_keys(nodes: Seq<NodeView>) -> Seq<Seq<u64>> {
    nodes.map_values(|node: NodeView| seq![node.span.start as u64])
}

/// The nodes of a wiki in source order.
pub open spec fn nodes_by_start(nodes: Seq<NodeView>) -> Seq<NodeView> {
    order::arranged(nodes, order::sort_order(start_keys(nodes)))
}

/// Whether a symbol in an outline describes a node.
pub open spec fn describes(symbol: DocumentSymbol, s: Seq<char>, node: NodeView) -> bool {
    &&& symbol.name@ == node.title
    &&& symbol.range == position::range_of(s, node.span)
    &&& symbol.selection_range == position::range_of(s, node.title_span)
}

/// Whether a symbol in a flat list describes a node.
pub open spec fn describes_flat(
    symbol: SymbolInformation,
    uri: Seq<char>,
    s: Seq<char>,
    node: NodeView,
) -> bool {
    &&& symbol.name@ == node.title
    &&& symbol.location@ == (LocationView { uri, range: position::range_of(s, node.title_span) })
}

/// Whether a response describes every node of a wiki in source order.
pub open spec fn describes_all(
    response: DocumentSymbolResponse,
    uri: Seq<char>,
    s: Seq<char>,
    nodes: Seq<NodeView>,
) -> bool {
    match response {
        DocumentSymbolResponse::Nested(symbols) => {
            &&& symbols@.len() == nodes.len()
            &&& forall|i: int|
                0 <= i < nodes.len() ==> describes(
                    #[trigger] symbols@[i],
                    s,
                    nodes_by_start(nodes)[i],
                )
        },
        DocumentSymbolResponse::Flat(symbols) => {
            &&& symbols@.len() == nodes.len()
            &&& forall|i: int|
                0 <= i < nodes.len() ==> describes_flat(
                    #[trigger] symbols@[i],
                    uri,
                    s,
                    nodes_by_start(nodes)[i],
                )
        },
    }
}

/// Find the order of the nodes of a wiki in its source.
fn start_order(wiki: &Wiki) -> (order: Vec<usize>)
    ensures
        order@.len() == wiki@.len(),
        forall|i: int|
            0 <= i < order@.len() ==> {
                &&& #[trigger] order@[i] < wiki.text_nodes@.len()
                &&& wiki.text_nodes@[order@[i] as int]@ == nodes_by_start(wiki@)[i]
            },
{
    let mut keys: Vec<Vec<u64>> = Vec::new();
    let mut i: usize = 0;
    while i < wiki.text_nodes.len()
        invariant
            i <= wiki.text_nodes@.len(),
            keys@.len() == i,
            forall|j: int|
                0 <= j < i ==> #[trigger] keys@[j]@ == seq![wiki@[j].span.start as u64],
        decreases wiki.text_nodes.len() - i,
    {
        let mut key: Vec<u64> = Vec::new();
        key.push(wiki.text_nodes[i].source_range.start as u64);
        proof {
            assert(wiki@[i as int] == wiki.text_nodes@[i as int]@);
            assert(key@ =~= seq![wiki@[i as int].span.start as u64]);
        }
        keys.push(key);
        i = i + 1;
    }
    proof {
        assert(order::key_views(keys@) =~= start_keys(wiki@));
    }
    let order = order::sort(&keys);
    proof {
        let indices = order::index_views(order@);
        assert forall|j: int| 0 <= j < order@.len() implies wiki.text_nodes@[(
        #[trigger] order@[j]) as int]@ == nodes_by_start(wiki@)[j] by {
            assert(indices[j] == order@[j] as int);
        }
    }
    order
}

/// Describe every parsed text node for editor outlines and document-symbol navigation.
pub fn document_symbol_for_document(
    uri: &str,
    source_contents: &str,
    supports_hierarchy: bool,
) -> (result: Option<DocumentSymbolResponse>)
    ensures
        match occurrences::nodes_of(source_contents@) {
            Some(nodes) => result matches Some(response) && {
                &&& response is Nested == supports_hierarchy
                &&& describes_all(response, uri@, source_contents@, nodes)
            },
            None => result is None,
        },
{
    // Parse syntax without semantic validation so structurally valid nodes remain navigable.
    let text = Text::new(source_contents);
    let wiki = match occurrences::parse_wiki(source_contents) {
        Some(wiki) => wiki,
        None => return None,
    };
    let order = start_order(&wiki);
    let ghost sorted = nodes_by_start(wiki@);

    // Use separate node and title ranges when the client supports hierarchical symbols, and locate
    // each flat symbol at its title otherwise.
    let mut nested: Vec<DocumentSymbol> = Vec::new();
    let mut flat: Vec<SymbolInformation> = Vec::new();
    let mut i: usize = 0;
    while i < order.len()
        invariant
            text.wf(),
            sorted == nodes_by_start(wiki@),
            i <= order@.len(),
            forall|j: int|
                0 <= j < order@.len() ==> {
                    &&& #[trigger] order@[j] < wiki.text_nodes@.len()
                    &&& wiki.text_nodes@[order@[j] as int]@ == sorted[j]
                },
            supports_hierarchy ==> nested@.len() == i,
            !supports_hierarchy ==> flat@.len() == i,
            supports_hierarchy ==> forall|j: int|
                0 <= j < i ==> describes(#[trigger] nested@[j], text@, sorted[j]),
            !supports_hierarchy ==> forall|j: int|
                0 <= j < i ==> describes_flat(#[trigger] flat@[j], uri@, text@, sorted[j]),
        decreases order.len() - i,
    {
        let node = &wiki.text_nodes[order[i]];
        proof {
            assert(node@ == sorted[i as int]);
        }
        if supports_hierarchy {
            nested.push(
                DocumentSymbol {
                    name: node.title.clone(),
                    range: text.editor_range(node.source_range),
                    selection_range: text.editor_range(node.title_source_range),
                },
            );
        } else {
            flat.push(
                SymbolInformation {
                    name: node.title.clone(),
                    location: Location {
                        uri: uri.to_owned(),
                        range: text.editor_range(node.title_source_range),
                    },
                },
            );
        }
        i = i + 1;
    }
    if supports_hierarchy {
        Some(DocumentSymbolResponse::Nested(nested))
    } else {
        Some(DocumentSymbolResponse::Flat(flat))
    }
}

/// How severe a diagnostic is.
#[derive(Clone, Copy, Debug, PartialEq, Eq, Structural)]
pub enum DiagnosticSeverity {
    Error,
}

/// An error shown in an editor.
#[derive(Clone, Debug)]
pub struct Diagnostic {
    pub range: Range,
    pub severity: DiagnosticSeverity,
    pub source: String,
    pub message: String,
}

/// The contents of a diagnostic.
pub struct DiagnosticView {
    pub range: Range,
    pub severity: DiagnosticSeverity,
    pub source: Seq<char>,
    pub message: Seq<char>,
}

impl View for Diagnostic {
    type V = DiagnosticView;

    open spec fn view(&self) -> DiagnosticView {
        DiagnosticView {
            range: self.range,
            severity: self.severity,
            source: self.source@,
            message: self.message@,
        }
    }
}

/// The diagnostics in a vector.
pub open spec fn diagnostic_views(diagnostics: Seq<Diagnostic>) -> Seq<DiagnosticView> {
    diagnostics.map_values(|diagnostic: Diagnostic| diagnostic@)
}

/// A diagnostic at a source range, or at the start of the document.
pub open spec fn diagnostic_of(s: Seq<char>, span: Option<Span>, message: Seq<char>) -> DiagnosticView {
    DiagnosticView {
        range: match span {
            Some(span) => position::range_of(s, span),
            None => position::range_of(s, Span { start: 0, end: 0 }),
        },
        severity: DiagnosticSeverity::Error,
        source: "mull"@,
        message,
    }
}

/// Construct an error diagnostic at a source range or at the start of the document.
pub fn diagnostic(source: &Text, source_range: Option<SourceRange>, message: String) -> (result:
    Diagnostic)
    requires
        source.wf(),
    ensures
        result@ == diagnostic_of(
            source@,
            match source_range {
                Some(range) => Some(range@),
                None => None,
            },
            message@,
        ),
{
    let range = match source_range {
        Some(range) => range,
        None => SourceRange { start: 0, end: 0 },
    };
    Diagnostic {
        range: source.editor_range(range),
        severity: DiagnosticSeverity::Error,
        source: "mull".to_owned(),
        message,
    }
}

/// The message of a diagnostic for an error, given the text of the error's reason if it has one.
pub open spec fn diagnostic_message(message: Seq<char>, reason: Option<Seq<char>>) -> Seq<char> {
    match reason {
        Some(reason) => message + "\n\nReason: "@ + reason,
        None => message,
    }
}

/// Whether a diagnostic may be that of an error.
pub open spec fn is_diagnostic_of(
    s: Seq<char>,
    error: Error,
    colorized: bool,
    diagnostic: DiagnosticView,
) -> bool {
    match error.reason {
        Some(reason) => has_reason_text(s, error, reason, colorized, diagnostic),
        None => diagnostic == diagnostic_of(s, error@.span, error.message@),
    }
}

/// Whether a diagnostic describes an error with one of the texts of its reason.
pub open spec fn has_reason_text(
    s: Seq<char>,
    error: Error,
    reason: Reason,
    colorized: bool,
    diagnostic: DiagnosticView,
) -> bool {
    exists|text: Seq<char>|
        {
            &&& #[trigger] error::is_reason_text(reason, colorized, text)
            &&& diagnostic == diagnostic_of(
                s,
                error@.span,
                diagnostic_message(error.message@, Some(text)),
            )
        }
}

/// The diagnostic of an error whose reason is described without colors.
pub open spec fn plain_diagnostic(s: Seq<char>, error: Error) -> DiagnosticView {
    diagnostic_of(
        s,
        error@.span,
        diagnostic_message(
            error.message@,
            match error.reason {
                Some(reason) => Some(reason.plain()),
                None => None,
            },
        ),
    )
}

/// Convert an error into a diagnostic, describing its reason in colors or without.
pub fn diagnostic_from_error_with(source: &Text, error: &Error, colorized: bool) -> (result:
    Diagnostic)
    requires
        source.wf(),
    ensures
        is_diagnostic_of(source@, *error, colorized, result@),
        !colorized ==> result@ == plain_diagnostic(source@, *error),
{
    // Include an underlying reason without including terminal prefixes, paths, or source listings.
    let mut message = error.message().to_owned();
    if let Some(reason) = error.reason() {
        let text = reason.render(colorized);
        message.append("\n\nReason: ");
        message.append(text.as_str());
        proof {
            assert(message@ =~= diagnostic_message(error.message@, Some(text@)));
            assert(error::is_reason_text(*reason, colorized, text@));
        }
    }
    diagnostic(source, error.source_range(), message)
}

/// Convert a structured error into the representation expected by language clients.
pub fn diagnostic_from_error(source_contents: &str, error: &Error) -> (result: Diagnostic)
    ensures
        exists|colorized: bool|
            #[trigger] is_diagnostic_of(source_contents@, *error, colorized, result@),
{
    let source = Text::new(source_contents);
    diagnostic_from_error_with(&source, error, crate::paint::should_colorize())
}

/// Whether diagnostics are those of errors with given contents, one for each.
pub open spec fn are_diagnostics_of(
    s: Seq<char>,
    errors: Seq<error::ErrorView>,
    colorized: bool,
    diagnostics: Seq<DiagnosticView>,
) -> bool {
    exists|found: Seq<Error>|
        {
            &&& #[trigger] error::error_views(found) == errors
            &&& diagnostics.len() == found.len()
            &&& forall|i: int|
                0 <= i < found.len() ==> is_diagnostic_of(
                    s,
                    found[i],
                    colorized,
                    #[trigger] diagnostics[i],
                )
            &&& !colorized ==> forall|i: int|
                0 <= i < found.len() ==> #[trigger] diagnostics[i] == plain_diagnostic(s, found[i])
        }
}

/// Analyze an editor snapshot without checking its formatting, given the path of its file and the
/// outcome of a check of the filesystem around it.
pub fn diagnostics_at(
    source_path: Option<&str>,
    source_contents: &str,
    filesystem: Outcome<Vec<Error>>,
    colorized: bool,
) -> (result: Option<Vec<Diagnostic>>)
    ensures
        match analyzer::analysis_of(
            error::optional_text(source_path),
            source_contents@,
            analyzer::errors_view(filesystem),
        ) {
            Outcome::Cancelled => result is None,
            Outcome::Completed(Ok(nodes)) => result matches Some(diagnostics) && diagnostics@.len()
                == 0,
            Outcome::Completed(Err(errors)) => result matches Some(diagnostics)
                && are_diagnostics_of(
                source_contents@,
                errors,
                colorized,
                diagnostic_views(diagnostics@),
            ),
        },
{
    // Report nothing for a cancelled check, whose errors may cover only part of the wiki.
    let errors = match analyzer::analyze(source_path, source_contents, filesystem) {
        Outcome::Cancelled => return None,
        Outcome::Completed(Ok(wiki)) => return Some(Vec::new()),
        Outcome::Completed(Err(errors)) => errors,
    };

    // Preserve independent errors as independent editor diagnostics.
    let source = Text::new(source_contents);
    let mut diagnostics: Vec<Diagnostic> = Vec::new();
    let mut i: usize = 0;
    while i < errors.len()
        invariant
            source.wf(),
            source@ == source_contents@,
            i <= errors@.len(),
            diagnostics@.len() == i,
            forall|j: int|
                0 <= j < i ==> is_diagnostic_of(
                    source@,
                    errors@[j],
                    colorized,
                    (#[trigger] diagnostics@[j])@,
                ),
            !colorized ==> forall|j: int|
                0 <= j < i ==> (#[trigger] diagnostics@[j])@ == plain_diagnostic(
                    source@,
                    errors@[j],
                ),
        decreases errors.len() - i,
    {
        diagnostics.push(diagnostic_from_error_with(&source, &errors[i], colorized));
        i = i + 1;
    }
    proof {
        let views = diagnostic_views(diagnostics@);
        assert forall|j: int| 0 <= j < errors@.len() implies is_diagnostic_of(
            source@,
            errors@[j],
            colorized,
            #[trigger] views[j],
        ) by {
            assert(views[j] == diagnostics@[j]@);
        }
        if !colorized {
            assert forall|j: int| 0 <= j < errors@.len() implies #[trigger] views[j]
                == plain_diagnostic(source@, errors@[j]) by {
                assert(views[j] == diagnostics@[j]@);
            }
        }
        assert(error::error_views(errors@).len() == errors@.len());
    }
    Some(diagnostics)
}

/// Analyze an editor snapshot without checking its formatting, given the outcome of a check of the
/// filesystem around it.
pub fn diagnostics_for_document(
    uri: &str,
    source_contents: &str,
    filesystem: Outcome<Vec<Error>>,
) -> (result: Option<Vec<Diagnostic>>)
    ensures
        match analyzer::analysis_of(
            local_path_text(uri@),
            source_contents@,
            analyzer::errors_view(filesystem),
        ) {
            Outcome::Cancelled => result is None,
            Outcome::Completed(Ok(nodes)) => result matches Some(diagnostics) && diagnostics@.len()
                == 0,
            Outcome::Completed(Err(errors)) => result matches Some(diagnostics)
                && exists|colorized: bool|
                #[trigger] are_diagnostics_of(
                    source_contents@,
                    errors,
                    colorized,
                    diagnostic_views(diagnostics@),
                ),
        },
{
    let path = local_path(uri);
    let source_path = match &path {
        Some(path) => Some(path.as_str()),
        None => None,
    };
    diagnostics_at(source_path, source_contents, filesystem, crate::paint::should_colorize())
}

/// A fix that an editor can apply: an edit of a document, with the diagnostics that it resolves.
#[derive(Clone, Debug)]
pub struct CodeAction {
    pub title: String,
    pub diagnostics: Vec<Diagnostic>,
    pub edit: WorkspaceEdit,
    pub is_preferred: bool,
}

/// The diagnostics in a sequence that are at a range.
pub open spec fn diagnostics_in(diagnostics: Seq<DiagnosticView>, range: Range) -> Seq<
    DiagnosticView,
>
    decreases diagnostics.len(),
{
    if diagnostics.len() == 0 {
        Seq::empty()
    } else {
        let front = diagnostics_in(diagnostics.drop_last(), range);
        if diagnostics.last().range == range {
            front.push(diagnostics.last())
        } else {
            front
        }
    }
}

/// Whether a fix creates a node by an edit and resolves the diagnostics at a range.
pub open spec fn creates_node(
    action: CodeAction,
    uri: Seq<char>,
    title: Seq<char>,
    edit: EditView,
    diagnostics: Seq<DiagnosticView>,
    range: Range,
) -> bool {
    &&& action.title@ == "Create node "@ + phrase::code(title)
    &&& diagnostic_views(action.diagnostics@) == diagnostics_in(diagnostics, range)
    &&& action.edit.uri@ == uri
    &&& edit_views(action.edit.edits@) == seq![edit]
    &&& action.edit.file_rename is None
    &&& action.is_preferred
}

/// The edit that puts a missing home node before everything else.
pub open spec fn home_edit(s: Seq<char>) -> EditView {
    EditView {
        range: Range { start: start_position(), end: start_position() },
        new_text: if s.len() == 0 {
            "# "@ + "Home"@ + "\n"@
        } else {
            "# "@ + "Home"@ + "\n\n"@
        },
    }
}

/// Whether a text ends with a suffix.
pub open spec fn ends_with(s: Seq<char>, suffix: Seq<char>) -> bool {
    text::occurs_at(s, s.len() - suffix.len(), suffix)
}

/// The edit that appends a missing node after an empty line.
pub open spec fn append_edit(s: Seq<char>, title: Seq<char>) -> EditView {
    let separator = if ends_with(s, "\n\n"@) {
        ""@
    } else if ends_with(s, "\n"@) {
        "\n"@
    } else {
        "\n\n"@
    };
    EditView {
        range: Range { start: end_position(s), end: end_position(s) },
        new_text: separator + "# "@ + title + "\n"@,
    }
}

/// The text link at a position that names a missing node, unless it names nothing.
pub open spec fn missing_link_at(s: Seq<char>, nodes: Seq<NodeView>, at: Position) -> Option<
    (Seq<char>, Span),
> {
    match position::index_of(s, at) {
        Some(index) => match occurrences::link_view_at(nodes, text::offset(s, index)) {
            Some(LinkView::Text { title, span }) => if title.len() > 0 && !wiki::has_title(
                nodes,
                title,
            ) {
                Some((title, span))
            } else {
                None
            },
            _ => None,
        },
        None => None,
    }
}

/// Copy the diagnostics at a range.
fn copy_diagnostics(diagnostics: &[Diagnostic], range: Range) -> (copied: Vec<Diagnostic>)
    ensures
        diagnostic_views(copied@) == diagnostics_in(diagnostic_views(diagnostics@), range),
{
    let ghost views = diagnostic_views(diagnostics@);
    let mut copied: Vec<Diagnostic> = Vec::new();
    let mut i: usize = 0;
    proof {
        assert(diagnostic_views(copied@) =~= diagnostics_in(views.take(0), range));
    }
    while i < diagnostics.len()
        invariant
            views == diagnostic_views(diagnostics@),
            i <= diagnostics@.len(),
            diagnostic_views(copied@) == diagnostics_in(views.take(i as int), range),
        decreases diagnostics.len() - i,
    {
        let ghost before = diagnostic_views(copied@);
        proof {
            assert(views[i as int] == diagnostics@[i as int]@);
            assert(views.take(i + 1).drop_last() =~= views.take(i as int));
            assert(views.take(i + 1).last() == views[i as int]);
        }
        let original = &diagnostics[i];
        if original.range == range {
            let copy = Diagnostic {
                range: original.range,
                severity: original.severity,
                source: original.source.clone(),
                message: original.message.clone(),
            };
            let ghost copy_view = copy@;
            copied.push(copy);
            proof {
                assert(diagnostic_views(copied@) =~= before.push(copy_view));
            }
        }
        i = i + 1;
    }
    proof {
        assert(views.take(i as int) =~= views);
    }
    copied
}

/// Describe a preferred quick fix that declares a node and resolves the diagnostics at a range.
pub fn create_node_action(
    uri: &str,
    title: &str,
    edit: TextEdit,
    diagnostics: &[Diagnostic],
    diagnostic_range: Range,
) -> (action: CodeAction)
    ensures
        creates_node(
            action,
            uri@,
            title@,
            edit@,
            diagnostic_views(diagnostics@),
            diagnostic_range,
        ),
{
    let quoted = phrase::code_str(title);
    let name = phrase::concat3("Create node ", quoted.as_str(), "");
    proof {
        reveal_strlit("");
        assert(name@ =~= "Create node "@ + phrase::code(title@));
    }
    let ghost view = edit@;
    let mut edits: Vec<TextEdit> = Vec::new();
    edits.push(edit);
    proof {
        assert(edit_views(edits@) =~= seq![view]);
    }
    CodeAction {
        title: name,
        diagnostics: copy_diagnostics(diagnostics, diagnostic_range),
        edit: WorkspaceEdit { uri: uri.to_owned(), edits, file_rename: None },
        is_preferred: true,
    }
}

/// Test whether a text ends with a suffix.
fn has_suffix(chars: &[char], suffix: &str) -> (result: bool)
    ensures
        result == ends_with(chars@, suffix@),
{
    let pattern = text::chars_of(suffix);
    if pattern.len() > chars.len() {
        return false;
    }
    text::has_at(chars, chars.len() - pattern.len(), pattern.as_slice())
}

/// Whether a home node is to be offered at a range: only at the start of the document, and only if
/// there is none.
pub open spec fn offers_home(nodes: Seq<NodeView>, range: Range) -> bool {
    range.start == start_position() && !wiki::has_title(nodes, "Home"@)
}

/// The number of fixes for a range.
pub open spec fn action_count(s: Seq<char>, nodes: Seq<NodeView>, range: Range) -> nat {
    (if offers_home(nodes, range) {
        1nat
    } else {
        0nat
    }) + (if missing_link_at(s, nodes, range.start) is Some {
        1nat
    } else {
        0nat
    })
}

/// Whether fixes are those for a range: one for a missing home node, then one for a text link to a
/// missing node.
pub open spec fn are_actions(
    actions: Seq<CodeAction>,
    uri: Seq<char>,
    s: Seq<char>,
    nodes: Seq<NodeView>,
    range: Range,
    diagnostics: Seq<DiagnosticView>,
) -> bool {
    &&& actions.len() == action_count(s, nodes, range)
    &&& offers_home(nodes, range) ==> creates_node(
        actions[0],
        uri,
        "Home"@,
        home_edit(s),
        diagnostics,
        Range { start: start_position(), end: start_position() },
    )
    &&& match missing_link_at(s, nodes, range.start) {
        Some((title, span)) => creates_node(
            actions.last(),
            uri,
            title,
            append_edit(s, title),
            diagnostics,
            position::range_of(s, span),
        ),
        None => true,
    }
}

/// Offer to create a missing home node or the missing destination of a text link at an editor range.
pub fn code_action_for_document(
    uri: &str,
    source_contents: &str,
    range: Range,
    diagnostics: &[Diagnostic],
) -> (result: Option<Vec<CodeAction>>)
    ensures
        match occurrences::nodes_of(source_contents@) {
            Some(nodes) => match result {
                Some(actions) => actions@.len() > 0 && are_actions(
                    actions@,
                    uri@,
                    source_contents@,
                    nodes,
                    range,
                    diagnostic_views(diagnostics@),
                ),
                None => action_count(source_contents@, nodes, range) == 0,
            },
            None => result is None,
        },
{
    // Parse only the wiki syntax so fixes are available before the debounced check completes.
    let text = Text::new(source_contents);
    let wiki = match occurrences::parse_wiki(source_contents) {
        Some(wiki) => wiki,
        None => return None,
    };
    let ghost s = source_contents@;
    let mut actions: Vec<CodeAction> = Vec::new();

    // Prepend a missing home node where its diagnostic is reported, since it has no source range.
    let start = Position::new(0, 0);
    if range.start == start && !wiki.contains(wiki::HOME_TITLE) {
        let document_start = Range::new(start, start);
        let separator = if text.len() == 0 {
            "\n"
        } else {
            "\n\n"
        };
        let edit = TextEdit {
            range: document_start,
            new_text: phrase::concat3(wiki::TITLE_PREFIX, wiki::HOME_TITLE, separator),
        };
        actions.push(
            create_node_action(uri, wiki::HOME_TITLE, edit, diagnostics, document_start),
        );
    }

    // Append the missing destination of a text link after a blank line, leaving its placement to
    // the formatter. Skip empty targets, which no title can declare.
    if let Some(index) = text.index_of_position(range.start) {
        if let Some(Link::Text { title, source_range }) = occurrences::link_at(
            &wiki,
            text.offsets[index],
        ) {
            if !title.as_str().is_empty() && !wiki.contains(title.as_str()) {
                let separator = if has_suffix(text.chars.as_slice(), "\n\n") {
                    ""
                } else if has_suffix(text.chars.as_slice(), "\n") {
                    "\n"
                } else {
                    "\n\n"
                };
                let end = text.position(text.len());
                let mut new_text = phrase::concat3(
                    separator,
                    wiki::TITLE_PREFIX,
                    title.as_str(),
                );
                new_text.append("\n");
                let edit = TextEdit { range: Range::new(end, end), new_text };
                let link_range = text.editor_range(*source_range);
                actions.push(create_node_action(uri, title.as_str(), edit, diagnostics, link_range));
            }
        }
    }

    // Report the absence of fixes as no response.
    if actions.len() == 0 {
        None
    } else {
        Some(actions)
    }
}

} // verus!
