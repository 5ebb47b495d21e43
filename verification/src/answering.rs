//! What an editor gets back: what calls of the operations return, in terms of what is written in the
//! source where the cursor is.

use vstd::prelude::*;

use crate::arriving;
use crate::changing;
use crate::completing;
use crate::completion;
use crate::completion::CompletionItem;
use crate::completion::Entry;
use crate::completion::FilesystemLinkContext;
use crate::creating;
use crate::error::ErrorView;
use crate::error::SourceRange;
use crate::error::Span;
use crate::formatting;
use crate::language_server;
use crate::language_server::CodeAction;
use crate::language_server::Diagnostic;
use crate::language_server::DocumentHighlight;
use crate::language_server::DocumentSymbolResponse;
use crate::language_server::HighlightKind;
use crate::language_server::Hover;
use crate::language_server::Location;
use crate::language_server::LocationLink;
use crate::language_server::PrepareRename;
use crate::language_server::TextEdit;
use crate::language_server::WorkspaceEdit;
use crate::moving;
use crate::navigating;
use crate::occurrences;
use crate::occurrences::LinkExtent;
use crate::order;
use crate::ordering;
use crate::parser;
use crate::path_util;
use crate::phrase;
use crate::position;
use crate::position::Position;
use crate::position::Range;
use crate::ranges;
use crate::referencing;
use crate::renaming;
use crate::text;
use crate::text::Text;
use crate::validator::FilesystemCheck;
use crate::validator::MAX_FILESYSTEM_ERRORS;
use crate::wiki;
use crate::wiki::LinkView;
use crate::wiki::NodeView;
use crate::wiki::Wiki;

verus! {

/// Whether a position of a parsed source is in a text link that names a node.
pub open spec fn is_in_link_to(
    s: Seq<char>,
    nodes: Seq<NodeView>,
    cursor: Position,
    i: int,
    k: int,
    j: int,
) -> bool {
    &&& parser::parsed(None, s) == Ok::<Seq<NodeView>, Seq<ErrorView>>(nodes)
    &&& position::index_of(s, cursor) matches Some(index) && navigating::has_link_at(
        nodes,
        i,
        k,
        text::offset(s, index),
    )
    &&& 0 <= j < nodes.len()
    &&& nodes[i].links[k] matches LinkView::Text { title, span } && nodes[j].title == title
}

/// Whether a position of a parsed source is in the title of a node.
pub open spec fn is_in_title_of(s: Seq<char>, nodes: Seq<NodeView>, cursor: Position, j: int) -> bool {
    &&& parser::parsed(None, s) == Ok::<Seq<NodeView>, Seq<ErrorView>>(nodes)
    &&& position::index_of(s, cursor) matches Some(index) && navigating::has_title_at(
        nodes,
        j,
        text::offset(s, index),
    )
}

/// Whether a position of a source is neither in a title nor in a link, or the source cannot be parsed.
pub open spec fn is_elsewhere(s: Seq<char>, cursor: Position) -> bool {
    match (parser::parsed(None, s), position::index_of(s, cursor)) {
        (Ok(nodes), Some(index)) => {
            &&& forall|i: int| !#[trigger] navigating::has_title_at(nodes, i, text::offset(s, index))
            &&& forall|i: int, k: int|
                !#[trigger] navigating::has_link_at(nodes, i, k, text::offset(s, index))
        },
        _ => true,
    }
}

proof fn lemma_in_link(
    s: Seq<char>,
    nodes: Seq<NodeView>,
    cursor: Position,
    i: int,
    k: int,
    j: int,
    extent: LinkExtent,
)
    requires
        is_in_link_to(s, nodes, cursor, i, k, j),
    ensures
        ({
            let span = navigating::extent_of(nodes[i].links[k].span(), extent);
            &&& language_server::nodes_at(s, cursor, extent) == Some((nodes, j, span))
            &&& language_server::denoted(s, cursor, extent) == Some((nodes[j], span))
        }),
{
    let index = position::index_of(s, cursor)->0;
    navigating::law_text_links_stand_for_the_nodes_they_name(s, nodes, cursor, index, i, k, extent);
    assert(nodes[j].title == nodes[i].links[k]->Text_title);
}

proof fn lemma_in_title(
    s: Seq<char>,
    nodes: Seq<NodeView>,
    cursor: Position,
    j: int,
    extent: LinkExtent,
)
    requires
        is_in_title_of(s, nodes, cursor, j),
    ensures
        language_server::nodes_at(s, cursor, extent) == Some((nodes, j, nodes[j].title_span)),
        language_server::denoted(s, cursor, extent) == Some((nodes[j], nodes[j].title_span)),
{
    let index = position::index_of(s, cursor)->0;
    navigating::law_titles_stand_for_their_nodes(s, nodes, cursor, index, j, extent);
}

/// Whether a location link leads from a range of a document to a node in it.
pub open spec fn leads_to_node(
    link: LocationLink,
    uri: Seq<char>,
    s: Seq<char>,
    from: Span,
    node: NodeView,
) -> bool {
    &&& link.target_uri@ == uri
    &&& link.origin_selection_range == position::range_of(s, from)
    &&& link.target_range == position::range_of(s, node.span)
    &&& link.target_selection_range == position::range_of(s, node.title_span)
}

/// Going to the definition leads from a text link to the node with the title that it names, from a title
/// to its own node, and from anywhere else nowhere.
pub proof fn law_definitions_are_the_nodes_that_links_name(
    uri: &str,
    source_contents: &str,
    cursor: Position,
    result: Option<LocationLink>,
)
    requires
        call_ensures(
            language_server::goto_definition_for_document,
            (uri, source_contents, cursor),
            result,
        ),
    ensures
        forall|nodes: Seq<NodeView>, i: int, k: int, j: int| #[trigger]
            is_in_link_to(source_contents@, nodes, cursor, i, k, j) ==> (result matches Some(link)
                && leads_to_node(link, uri@, source_contents@, nodes[i].links[k].span(), nodes[j])),
        forall|nodes: Seq<NodeView>, j: int| #[trigger]
            is_in_title_of(source_contents@, nodes, cursor, j) ==> (result matches Some(link)
                && leads_to_node(link, uri@, source_contents@, nodes[j].title_span, nodes[j])),
        is_elsewhere(source_contents@, cursor) ==> result is None,
{
    let s = source_contents@;
    assert forall|nodes: Seq<NodeView>, i: int, k: int, j: int| #[trigger]
        is_in_link_to(s, nodes, cursor, i, k, j) implies (result matches Some(link)
        && leads_to_node(link, uri@, s, nodes[i].links[k].span(), nodes[j])) by {
        lemma_in_link(s, nodes, cursor, i, k, j, LinkExtent::Whole);
    }
    assert forall|nodes: Seq<NodeView>, j: int| #[trigger]
        is_in_title_of(s, nodes, cursor, j) implies (result matches Some(link)
        && leads_to_node(link, uri@, s, nodes[j].title_span, nodes[j])) by {
        lemma_in_title(s, nodes, cursor, j, LinkExtent::Whole);
    }
    if is_elsewhere(s, cursor) {
        navigating::law_other_positions_stand_for_nothing(s, cursor, LinkExtent::Whole);
    }
}

/// Hovering over a text link previews the node with the title that it names, hovering over a title
/// previews its own node, and hovering anywhere else previews nothing.
pub proof fn law_previews_are_of_the_nodes_that_links_name(
    uri: &str,
    source_contents: &str,
    cursor: Position,
    result: Option<Hover>,
)
    requires
        call_ensures(language_server::hover_for_document, (uri, source_contents, cursor), result),
    ensures
        forall|nodes: Seq<NodeView>, i: int, k: int, j: int| #[trigger]
            is_in_link_to(source_contents@, nodes, cursor, i, k, j) ==> (result matches Some(hover)
                && hover.value@ == language_server::preview(uri@, source_contents@, nodes, nodes[j])
                && hover.range == position::range_of(source_contents@, nodes[i].links[k].span())),
        forall|nodes: Seq<NodeView>, j: int| #[trigger]
            is_in_title_of(source_contents@, nodes, cursor, j) ==> (result matches Some(hover)
                && hover.value@ == language_server::preview(uri@, source_contents@, nodes, nodes[j])
                && hover.range == position::range_of(source_contents@, nodes[j].title_span)),
        is_elsewhere(source_contents@, cursor) ==> result is None,
{
    let s = source_contents@;
    assert forall|nodes: Seq<NodeView>, i: int, k: int, j: int| #[trigger]
        is_in_link_to(s, nodes, cursor, i, k, j) implies (result matches Some(hover) && hover.value@
        == language_server::preview(uri@, s, nodes, nodes[j]) && hover.range == position::range_of(
        s,
        nodes[i].links[k].span(),
    )) by {
        lemma_in_link(s, nodes, cursor, i, k, j, LinkExtent::Whole);
    }
    assert forall|nodes: Seq<NodeView>, j: int| #[trigger]
        is_in_title_of(s, nodes, cursor, j) implies (result matches Some(hover) && hover.value@
        == language_server::preview(uri@, s, nodes, nodes[j]) && hover.range == position::range_of(
        s,
        nodes[j].title_span,
    )) by {
        lemma_in_title(s, nodes, cursor, j, LinkExtent::Whole);
    }
    if is_elsewhere(s, cursor) {
        navigating::law_other_positions_stand_for_nothing(s, cursor, LinkExtent::Whole);
    }
}

/// Whether locations are those of ranges of a document, one for each.
pub open spec fn are_locations(
    locations: Seq<Location>,
    uri: Seq<char>,
    s: Seq<char>,
    spans: Seq<Span>,
) -> bool {
    &&& locations.len() == spans.len()
    &&& forall|x: int|
        0 <= x < spans.len() ==> (#[trigger] locations[x]).uri@ == uri && locations[x].range
            == position::range_of(s, spans[x])
}

/// Whether ranges are those of the text links that name a node, in the order of the source, with that of
/// its title if that is asked for.
pub open spec fn are_references(
    spans: Seq<Span>,
    nodes: Seq<NodeView>,
    j: int,
    include_declaration: bool,
) -> bool {
    &&& forall|span: Span| #[trigger]
        spans.contains(span) <==> navigating::is_reference(nodes, nodes[j].title, span)
            || include_declaration && span == nodes[j].title_span
    &&& forall|x: int, y: int|
        #![trigger spans[x], spans[y]]
        0 <= x < y < spans.len() ==> spans[x].end <= spans[y].start
}

/// The references of the node that a text link names are the ranges of all text links that name it, with
/// that of its title if that is asked for.
#[verifier::rlimit(40)]
#[verifier::spinoff_prover]
pub proof fn law_references_are_found_from_links(
    uri: &str,
    source_contents: &str,
    cursor: Position,
    include_declaration: bool,
    result: Option<Vec<Location>>,
    nodes: Seq<NodeView>,
    i: int,
    k: int,
    j: int,
)
    requires
        call_ensures(
            language_server::references_for_document,
            (uri, source_contents, cursor, include_declaration),
            result,
        ),
        text::byte_len(source_contents@) <= usize::MAX,
        is_in_link_to(source_contents@, nodes, cursor, i, k, j) || is_in_title_of(
            source_contents@,
            nodes,
            cursor,
            j,
        ),
    ensures
        result matches Some(locations) && exists|spans: Seq<Span>| #[trigger]
            are_references(spans, nodes, j, include_declaration) && are_locations(
                locations@,
                uri@,
                source_contents@,
                spans,
            ),
{
    let s = source_contents@;
    if is_in_link_to(s, nodes, cursor, i, k, j) {
        lemma_in_link(s, nodes, cursor, i, k, j, LinkExtent::Whole);
    } else {
        lemma_in_title(s, nodes, cursor, j, LinkExtent::Whole);
    }
    let spans = language_server::reference_spans(nodes, nodes[j], include_declaration);
    navigating::law_references_are_the_links_that_name_a_node(None, s, nodes, j, include_declaration);
    assert(are_references(spans, nodes, j, include_declaration));
    let locations = result->0;
    let views = language_server::location_views(locations@);
    let expected = language_server::locations_of(uri@, s, spans);
    assert(views.len() == locations@.len());
    assert(expected.len() == spans.len());
    assert forall|x: int| 0 <= x < spans.len() implies (#[trigger] locations@[x]).uri@ == uri@
        && locations@[x].range == position::range_of(s, spans[x]) by {
        assert(views[x] == locations@[x]@);
        assert(views[x] == expected[x]);
    }
    assert(are_locations(locations@, uri@, s, spans));
}

/// A rename that starts in a text link or in a title is of the node that the link names or that has the
/// title. What is selected is the target of the link without its delimiters, or the title.
pub proof fn law_renames_start_from_the_old_title(
    source_contents: &str,
    cursor: Position,
    result: Option<PrepareRename>,
)
    requires
        call_ensures(
            language_server::prepare_rename_for_document,
            (source_contents, cursor),
            result,
        ),
    ensures
        forall|nodes: Seq<NodeView>, i: int, k: int, j: int| #[trigger]
            is_in_link_to(source_contents@, nodes, cursor, i, k, j) ==> (result matches Some(rename)
                && rename.placeholder@ == nodes[j].title && rename.range == position::range_of(
                source_contents@,
                Span {
                    start: nodes[i].links[k].span().start + 1,
                    end: nodes[i].links[k].span().end - 1,
                },
            )),
        forall|nodes: Seq<NodeView>, j: int| #[trigger]
            is_in_title_of(source_contents@, nodes, cursor, j) ==> (result matches Some(rename)
                && rename.placeholder@ == nodes[j].title && rename.range == position::range_of(
                source_contents@,
                nodes[j].title_span,
            )),
        is_elsewhere(source_contents@, cursor) ==> result is None,
{
    let s = source_contents@;
    assert forall|nodes: Seq<NodeView>, i: int, k: int, j: int| #[trigger]
        is_in_link_to(s, nodes, cursor, i, k, j) implies (result matches Some(rename)
        && rename.placeholder@ == nodes[j].title && rename.range == position::range_of(
        s,
        Span {
            start: nodes[i].links[k].span().start + 1,
            end: nodes[i].links[k].span().end - 1,
        },
    )) by {
        lemma_in_link(s, nodes, cursor, i, k, j, LinkExtent::Target);
    }
    assert forall|nodes: Seq<NodeView>, j: int| #[trigger]
        is_in_title_of(s, nodes, cursor, j) implies (result matches Some(rename)
        && rename.placeholder@ == nodes[j].title && rename.range == position::range_of(
        s,
        nodes[j].title_span,
    )) by {
        lemma_in_title(s, nodes, cursor, j, LinkExtent::Target);
    }
    if is_elsewhere(s, cursor) {
        navigating::law_other_positions_stand_for_nothing(s, cursor, LinkExtent::Target);
    }
}

/// A node is found at a byte offset exactly if its title is there or a text link that names it.
#[verifier::rlimit(40)]
#[verifier::spinoff_prover]
pub proof fn law_nodes_are_found_by_title_and_by_link(
    wiki: Wiki,
    source: Text,
    byte_offset: usize,
    extent: LinkExtent,
    result: Option<(usize, SourceRange)>,
)
    requires
        call_ensures(occurrences::node_at, (&wiki, &source, byte_offset, extent), result),
        parser::parsed(None, source@) == Ok::<Seq<NodeView>, Seq<ErrorView>>(wiki@),
    ensures
        forall|j: int| #[trigger]
            navigating::has_title_at(wiki@, j, byte_offset as int) ==> (result matches Some((
                found,
                range,
            )) && found == j && range@ == wiki@[j].title_span),
        forall|i: int, k: int, j: int|
            #![trigger navigating::has_link_at(wiki@, i, k, byte_offset as int), wiki@[j]]
            navigating::has_link_at(wiki@, i, k, byte_offset as int) && 0 <= j < wiki@.len()
                && names_node(wiki@[i].links[k], wiki@[j]) ==> (result matches Some((found, range))
                && found == j && range@ == navigating::extent_of(wiki@[i].links[k].span(), extent)),
        (forall|j: int| !#[trigger] navigating::has_title_at(wiki@, j, byte_offset as int)) && (forall|
            i: int,
            k: int,
        |
            !#[trigger] navigating::has_link_at(wiki@, i, k, byte_offset as int)) ==> result is None,
{
    let b = byte_offset as int;
    let s = source@;
    let nodes = wiki@;
    assert forall|j: int| #[trigger] navigating::has_title_at(nodes, j, b) implies (
    result matches Some((found, range)) && found == j && range@ == nodes[j].title_span) by {
        navigating::lemma_title_found(None, s, nodes, j, b);
    }
    assert forall|i: int, k: int, j: int|
        #![trigger navigating::has_link_at(nodes, i, k, b), nodes[j]]
        navigating::has_link_at(nodes, i, k, b) && 0 <= j < nodes.len() && names_node(
            nodes[i].links[k],
            nodes[j],
        ) implies (result matches Some((found, range)) && found == j && range@
        == navigating::extent_of(nodes[i].links[k].span(), extent)) by {
        navigating::lemma_link_denotes(None, s, nodes, i, k, b, j, extent);
    }
    if (forall|j: int| !#[trigger] navigating::has_title_at(nodes, j, b)) && (forall|i: int, k: int|
        !#[trigger] navigating::has_link_at(nodes, i, k, b)) {
        navigating::lemma_nothing_denoted(s, nodes, b, extent);
    }
}

/// Whether a link is a text link that names a node.
pub open spec fn names_node(link: LinkView, node: NodeView) -> bool {
    link matches LinkView::Text { title, span } && title == node.title
}

/// The walk around a wiki is left out exactly if there are too many errors already, or a directory link
/// led to the directory that would be walked.
pub proof fn law_walks_are_left_out_for_cause(check: FilesystemCheck, result: bool)
    requires
        call_ensures(FilesystemCheck::needs_walk, (&check,), result),
    ensures
        result <==> check@.link_errors.len() < MAX_FILESYSTEM_ERRORS && !referencing::is_among(
            check@.directories,
            check@.wiki_directory,
        ),
{
    referencing::lemma_among(check@.directories, check@.wiki_directory);
}

/// An entry around a wiki is left out exactly if it is the wiki or a directory that a link led to.
pub proof fn law_entries_are_left_out_for_cause(check: FilesystemCheck, path: &str, result: bool)
    requires
        call_ensures(FilesystemCheck::visits, (&check, path), result),
    ensures
        result <==> path_util::components(path@) != path_util::components(check@.wiki_path)
            && !referencing::is_among(check@.directories, path@),
{
    referencing::lemma_among(check@.directories, path@);
}

/// Whether one node is displayed before another: it has the smaller depth, or a depth at all, or the same
/// and a title that comes no later.
pub open spec fn is_displayed_before(a: NodeView, b: NodeView) -> bool {
    &&& ordering::depth_up_to(a.depth, b.depth)
    &&& a.depth == b.depth ==> ordering::text_up_to(a.title, b.title)
}

/// The display order lists every node once, nodes that are nearer to the start first, nodes that cannot
/// be reached last, and nodes of one depth by title.
pub proof fn law_nodes_are_displayed_by_depth_and_title(wiki: Wiki, result: Vec<usize>)
    requires
        call_ensures(Wiki::display_order, (&wiki,), result),
        ordering::depths_fit(wiki@),
    ensures
        result@.len() == wiki@.len(),
        forall|i: int| 0 <= i < result@.len() ==> #[trigger] result@[i] < wiki@.len(),
        forall|i: int, j: int|
            #![trigger result@[i], result@[j]]
            0 <= i < j < result@.len() ==> result@[i] != result@[j] && is_displayed_before(
                wiki@[result@[i] as int],
                wiki@[result@[j] as int],
            ),
{
    let nodes = wiki@;
    let keys = wiki::node_keys(nodes);
    let indices = order::index_views(result@);
    order::lemma_sort_order_sorts(keys);
    ordering::law_nodes_are_rendered_by_depth_and_title(nodes);
    let shown = wiki::nodes_in_order(nodes);
    assert(nodes.len() == wiki.text_nodes@.len());
    assert(keys.len() == nodes.len());
    assert forall|i: int, j: int|
        #![trigger result@[i], result@[j]]
        0 <= i < j < result@.len() implies result@[i] != result@[j] && is_displayed_before(
        nodes[result@[i] as int],
        nodes[result@[j] as int],
    ) by {
        order::lemma_sort_order_distinct(keys, indices, i, j);
        assert(indices[i] == result@[i] as int);
        assert(indices[j] == result@[j] as int);
        assert(shown[i] == nodes[indices[i]]);
        assert(shown[j] == nodes[indices[j]]);
    }
}

/// Completion of a text link replaces the whole link if it is closed, and otherwise what stands between
/// its opening delimiter and the cursor. A cursor right after a backslash is left out, since a delimiter
/// there would be escaped.
pub proof fn law_completions_replace_the_link_at_the_cursor(
    source_contents: &str,
    source: Text,
    index: usize,
    result: Option<(Wiki, SourceRange)>,
)
    requires
        source.wf(),
        source@ == source_contents@,
        index <= source@.len(),
        call_ensures(completion::completion_context, (source_contents, &source, index), result),
    ensures
        forall|nodes: Seq<NodeView>, i: int, k: int| #[trigger]
            completing::has_text_link_at(
                source@,
                nodes,
                i,
                k,
                text::offset(source@, index as int),
            ) ==> (result matches Some((wiki, range)) && wiki@ == nodes && range@
                == nodes[i].links[k].span()),
        !completing::is_in_text_link(source@, text::offset(source@, index as int)) && (index == 0
            || source@[index - 1] != '\\') ==> (result matches Some((wiki, range)) ==> range@.end
            == text::offset(source@, index as int) && exists|a: int| #[trigger]
            completing::opens_before(source@, a, index as int) && range@.start == text::offset(
                source@,
                a,
            )),
{
    let s = source@;
    let at = index as int;
    assert forall|nodes: Seq<NodeView>, i: int, k: int| #[trigger]
        completing::has_text_link_at(s, nodes, i, k, text::offset(s, at)) implies (
    result matches Some((wiki, range)) && wiki@ == nodes && range@ == nodes[i].links[k].span()) by {
        completing::law_closed_links_are_completed_whole(s, at, nodes, i, k);
    }
    if !completing::is_in_text_link(s, text::offset(s, at)) && (index == 0 || s[index - 1] != '\\') {
        if let Some((wiki, range)) = result {
            completing::law_unfinished_links_are_completed_up_to_the_cursor(s, at, wiki@, range@);
            let a = choose|a: int| #[trigger]
                completing::opens_before(s, a, at) && range@ == crate::error::span_of(s, a, at);
            assert(completing::opens_before(s, a, at) && range@.start == text::offset(s, a));
        }
    }
}

/// The directories above a path are listed from the nearest one up, each with all components of the path
/// but the last ones.
pub proof fn law_directories_above_are_listed_upward(path: &str, result: Vec<String>)
    requires
        call_ensures(moving::directories_above, (path,), result),
        arriving::are_plain(path_util::components(path@)),
    ensures
        result@.len() == 0 || result@.len() == path_util::components(path@).len() - 1,
        path_util::components(path@).len() > 0 ==> result@.len() == path_util::components(path@).len()
            - 1,
        forall|i: int|
            0 <= i < result@.len() ==> path_util::components((#[trigger] result@[i])@)
                == path_util::components(path@).take(path_util::components(path@).len() - 1 - i),
{
    assert forall|i: int| 0 <= i < result@.len() implies path_util::components(
        (#[trigger] result@[i])@,
    ) == path_util::components(path@).take(path_util::components(path@).len() - 1 - i) by {
        arriving::law_directories_above_drop_components(path@, i);
    }
}

/// The directories that a rename leaves empty are the nearest ones, up to the first with another entry or
/// with the new path in it.
pub proof fn law_emptied_directories_are_the_nearest_ones(
    directories: Vec<String>,
    entry_counts: Vec<usize>,
    new_path: &str,
    result: usize,
)
    requires
        call_ensures(moving::count_emptied, (&directories, &entry_counts, new_path), result),
    ensures
        result <= directories@.len(),
        result <= entry_counts@.len(),
        forall|i: int|
            0 <= i < result ==> arriving::is_left_empty(
                (#[trigger] directories@[i])@,
                entry_counts@[i],
                new_path@,
            ),
        result < directories@.len() && result < entry_counts@.len() ==> !arriving::is_left_empty(
            directories@[result as int]@,
            entry_counts@[result as int],
            new_path@,
        ),
{
    let views = phrase::text_views(directories@);
    arriving::law_directories_are_left_up_to_the_first_with_entries(views, entry_counts@, new_path@);
    assert(views.len() == directories@.len());
    assert forall|i: int| 0 <= i < result implies arriving::is_left_empty(
        (#[trigger] directories@[i])@,
        entry_counts@[i],
        new_path@,
    ) by {
        assert(views[i] == directories@[i]@);
    }
    if result < directories@.len() {
        assert(views[result as int] == directories@[result as int]@);
    }
}

/// The search for entries to complete a path goes as deep as the entries of the directory that has been
/// written so far.
pub proof fn law_the_search_is_deep_enough(
    context: FilesystemLinkContext,
    home: Seq<char>,
    entry: Seq<char>,
    result: usize,
)
    requires
        call_ensures(FilesystemLinkContext::depth, (&context,), result),
        path_util::components(entry).len() > 0,
        path_util::components(entry).drop_last() == path_util::components(home)
            + path_util::components(context@.directory),
    ensures
        path_util::components(entry).len() == path_util::components(home).len() + result,
{
    assert(path_util::components(entry).drop_last().len() == path_util::components(entry).len() - 1);
}

/// Formatting a source that can be parsed replaces all of it with its rendering, and does nothing where
/// it is its rendering already. A source that cannot be parsed is left alone.
pub proof fn law_formatting_replaces_the_whole_source(source_contents: &str, result: Option<Vec<TextEdit>>)
    requires
        call_ensures(language_server::formatting_for_document, (source_contents,), result),
    ensures
        match parser::parsed(None, source_contents@) {
            Ok(nodes) => result matches Some(edits) && if source_contents@ == wiki::wiki_text(nodes) {
                edits@.len() == 0
            } else {
                &&& edits@.len() == 1
                &&& edits@[0].new_text@ == wiki::wiki_text(nodes)
                &&& edits@[0].range.start == position::position_at(source_contents@, 0)
                &&& edits@[0].range.end == position::position_at(
                    source_contents@,
                    source_contents@.len() as int,
                )
            },
            Err(errors) => result is None,
        },
{
    let s = source_contents@;
    if let Ok(nodes) = parser::parsed(None, s) {
        let edits = result->0;
        let views = language_server::edit_views(edits@);
        let expected = language_server::format_edits(s, nodes);
        assert(views == expected);
        assert(views.len() == edits@.len());
        if s != wiki::wiki_text(nodes) {
            assert(views[0] == edits@[0]@);
            assert(views[0] == expected[0]);
            assert(position::position_at(s, 0) == (Position { line: 0, character: 0 }));
        }
    }
}

/// Whether edits put texts in place of ranges of a source, one for each.
pub open spec fn are_edits(
    edits: Seq<TextEdit>,
    s: Seq<char>,
    spans: Seq<Span>,
    texts: Seq<Seq<char>>,
) -> bool {
    &&& edits.len() == spans.len()
    &&& texts.len() == spans.len()
    &&& forall|x: int|
        0 <= x < edits.len() ==> (#[trigger] edits[x]).range == position::range_of(s, spans[x])
            && edits[x].new_text@ == texts[x]
}

/// Whether a source reads as given nodes once a title has been replaced, in the node that had it and in
/// every text link that named it, and nowhere else.
pub open spec fn reads_renamed(
    source: Seq<char>,
    nodes: Seq<NodeView>,
    old: Seq<char>,
    new: Seq<char>,
) -> bool {
    parser::parsed(None, source) matches Ok(again) && again.len() == nodes.len() && forall|i: int|
        0 <= i < nodes.len() ==> renaming::is_renamed_node(#[trigger] again[i], nodes[i], old, new)
}

/// Whether a text cannot be the new title of a node.
pub open spec fn is_refused_title(nodes: Seq<NodeView>, j: int, new_name: Seq<char>) -> bool {
    let title = text::trimmed(new_name);
    ||| new_name.contains('\n')
    ||| new_name.contains('\r')
    ||| title.len() == 0
    ||| title[0] == '/'
    ||| title.len() >= 5 && title.take(5) == seq!['f', 'i', 'l', 'e', ':']
    ||| title.len() >= 4 && title.take(4) == seq!['d', 'i', 'r', ':']
    ||| exists|i: int| 0 <= i < nodes.len() && i != j && #[trigger] nodes[i].title == title
}

/// Renaming from a text link or from a title renames the node that the link names or that has the title:
/// once the edits have been applied, the source reads as the wiki with the new title. A new title that
/// ends with a backslash is left out of the last part, since it would escape the delimiter behind it.
pub proof fn law_renames_are_carried_out(
    uri: &str,
    source_contents: &str,
    cursor: Position,
    new_name: &str,
    result: Result<Option<WorkspaceEdit>, String>,
    nodes: Seq<NodeView>,
    i: int,
    k: int,
    j: int,
)
    requires
        call_ensures(
            language_server::rename_for_document,
            (uri, source_contents, cursor, new_name),
            result,
        ),
        text::byte_len(source_contents@) <= usize::MAX,
        is_in_link_to(source_contents@, nodes, cursor, i, k, j) || is_in_title_of(
            source_contents@,
            nodes,
            cursor,
            j,
        ),
    ensures
        result is Err <==> is_refused_title(nodes, j, new_name@),
        result matches Ok(change) ==> (change matches Some(edit) && edit.uri@ == uri@
            && edit.file_rename is None && exists|spans: Seq<Span>, texts: Seq<Seq<char>>|
            {
                &&& #[trigger] are_edits(edit.edits@, source_contents@, spans, texts)
                &&& text::trimmed(new_name@).last() != '\\' ==> reads_renamed(
                    changing::replaced_ranges(source_contents@, spans, texts),
                    nodes,
                    nodes[j].title,
                    text::trimmed(new_name@),
                )
            }),
{
    let s = source_contents@;
    if is_in_link_to(s, nodes, cursor, i, k, j) {
        lemma_in_link(s, nodes, cursor, i, k, j, LinkExtent::Target);
    } else {
        lemma_in_title(s, nodes, cursor, j, LinkExtent::Target);
    }
    let title = text::trimmed(new_name@);
    formatting::law_parsed_wikis_are_valid(None, s, nodes);
    navigating::law_new_titles_are_refused_for_cause(nodes, j, new_name@);
    if let Ok(change) = result {
        let edit = change->0;
        let spans = ranges::renamed_spans(s, nodes, nodes[j]);
        let texts = renaming::rename_texts(s, nodes, nodes[j], title);
        let expected = language_server::rename_edits(s, nodes, nodes[j], title);
        let views = language_server::edit_views(edit.edits@);
        ranges::law_rename_edits_do_not_overlap(None, s, nodes, j, title);
        renaming::law_accepted_names_are_titles(nodes, nodes[j], new_name@);
        assert(views == expected);
        assert(views.len() == edit.edits@.len());
        assert(texts.len() == expected.len());
        assert forall|x: int| 0 <= x < edit.edits@.len() implies (#[trigger] edit.edits@[x]).range
            == position::range_of(s, spans[x]) && edit.edits@[x].new_text@ == texts[x] by {
            assert(views[x] == edit.edits@[x]@);
            assert(expected[x].range == position::range_of(s, spans[x]));
            assert(texts[x] == expected[x].new_text);
        }
        assert(are_edits(edit.edits@, s, spans, texts));
        if title.last() != '\\' {
            let after = renaming::renamed_source(s, nodes, nodes[j], title);
            renaming::law_renamed_sources_read_back(None, s, nodes, j, title, None);
            let again = parser::parsed(None, after)->Ok_0;
            renaming::law_renames_replace_the_title_everywhere(
                None,
                s,
                nodes,
                j,
                title,
                None,
                again,
            );
        }
    }
}

/// The highlights for a text link that names a node, and for the title of the node, are the text links
/// that name it and its title, in the order of the source. The title is where it is written.
pub proof fn law_highlights_are_found_from_links(
    source_contents: &str,
    cursor: Position,
    result: Option<Vec<DocumentHighlight>>,
    nodes: Seq<NodeView>,
    i: int,
    k: int,
    j: int,
)
    requires
        call_ensures(
            language_server::document_highlight_for_document,
            (source_contents, cursor),
            result,
        ),
        text::byte_len(source_contents@) <= usize::MAX,
        is_in_link_to(source_contents@, nodes, cursor, i, k, j) || is_in_title_of(
            source_contents@,
            nodes,
            cursor,
            j,
        ),
    ensures
        result matches Some(highlights) && exists|spans: Seq<Span>| #[trigger]
            are_references(spans, nodes, j, true) && highlights@.len() == spans.len() && forall|x: int|
                0 <= x < spans.len() ==> {
                    &&& (#[trigger] highlights@[x]).range == position::range_of(
                        source_contents@,
                        spans[x],
                    )
                    &&& highlights@[x].kind == if spans[x] == nodes[j].title_span {
                        HighlightKind::Write
                    } else {
                        HighlightKind::Read
                    }
                },
{
    let s = source_contents@;
    let b = text::offset(s, position::index_of(s, cursor)->0);
    navigating::law_highlights_are_about_what_is_there(s, nodes, b);
    if is_in_link_to(s, nodes, cursor, i, k, j) {
        assert(navigating::has_link_at(nodes, i, k, b));
        assert(nodes[j].title == nodes[i].links[k]->Text_title);
    } else {
        assert(navigating::has_title_at(nodes, j, b));
    }
    let spans = language_server::reference_spans(nodes, nodes[j], true);
    navigating::law_references_are_the_links_that_name_a_node(None, s, nodes, j, true);
    navigating::law_highlights_are_references_and_the_title(None, s, nodes, j);
    assert(are_references(spans, nodes, j, true));
}

/// The outline of a source has one symbol for each node, in the order of the source, with the title and
/// the ranges of the node.
pub proof fn law_outlines_describe_every_node(
    uri: &str,
    source_contents: &str,
    supports_hierarchy: bool,
    result: Option<DocumentSymbolResponse>,
    nodes: Seq<NodeView>,
)
    requires
        call_ensures(
            language_server::document_symbol_for_document,
            (uri, source_contents, supports_hierarchy),
            result,
        ),
        text::byte_len(source_contents@) <= usize::MAX,
        parser::parsed(None, source_contents@) == Ok::<Seq<NodeView>, Seq<ErrorView>>(nodes),
    ensures
        result is Some,
        result matches Some(DocumentSymbolResponse::Nested(symbols)) ==> {
            &&& supports_hierarchy
            &&& symbols@.len() == nodes.len()
            &&& forall|i: int|
                0 <= i < nodes.len() ==> {
                    &&& (#[trigger] symbols@[i]).name@ == nodes[i].title
                    &&& symbols@[i].range == position::range_of(source_contents@, nodes[i].span)
                    &&& symbols@[i].selection_range == position::range_of(
                        source_contents@,
                        nodes[i].title_span,
                    )
                }
        },
        result matches Some(DocumentSymbolResponse::Flat(symbols)) ==> {
            &&& !supports_hierarchy
            &&& symbols@.len() == nodes.len()
            &&& forall|i: int|
                0 <= i < nodes.len() ==> {
                    &&& (#[trigger] symbols@[i]).name@ == nodes[i].title
                    &&& symbols@[i].location.uri@ == uri@
                    &&& symbols@[i].location.range == position::range_of(
                        source_contents@,
                        nodes[i].title_span,
                    )
                }
        },
{
    navigating::law_outlines_list_nodes_as_they_come(None, source_contents@, nodes);
}

/// A new path for a file or a directory is accepted for the reasons that it should be, and stands for the
/// names that were entered.
pub proof fn law_new_paths_are_checked(old_path: &str, new_name: &str, result: Result<String, String>)
    requires
        call_ensures(moving::check_new_path, (old_path, new_name), result),
    ensures
        result matches Ok(path) ==> {
            let written = text::trimmed(new_name@);
            &&& path_util::components(path@) == path_util::names_below(written)
            &&& path_util::components(path@).len() > 0
            &&& !path_util::components(path@).contains(seq!['.', '.'])
            &&& path@ == old_path@ || !path_util::components(old_path@).is_prefix_of(
                path_util::components(path@),
            )
        },
{
    arriving::law_new_paths_are_refused_for_cause(old_path@, new_name@);
    if let Ok(path) = result {
        let written = text::trimmed(new_name@);
        let names = path_util::names_below(written);
        let parts = path_util::components(written);
        reveal_strlit("/");
        assert("/"@ =~= seq!['/']);
        if names.contains(seq!['.', '.']) {
            let k = choose|k: int| 0 <= k < names.len() && names[k] == seq!['.', '.'];
            assert(parts.contains(seq!['.', '.'])) by {
                if parts.len() > names.len() {
                    assert(parts[k + 1] == names[k]);
                } else {
                    assert(parts[k] == names[k]);
                }
            }
        }
    }
}

/// Whether a fix inserts a text at an index of a source, and does nothing else.
pub open spec fn inserts_at(action: CodeAction, uri: Seq<char>, s: Seq<char>, at: int, new: Seq<char>) -> bool {
    &&& action.edit.uri@ == uri
    &&& action.edit.file_rename is None
    &&& action.edit.edits@.len() == 1
    &&& action.edit.edits@[0].range.start == position::position_at(s, at)
    &&& action.edit.edits@[0].range.end == position::position_at(s, at)
    &&& action.edit.edits@[0].new_text@ == new
}

/// Whether a source reads as given nodes and a node behind them that has a title and nothing else.
pub open spec fn reads_with_last(source: Seq<char>, nodes: Seq<NodeView>, title: Seq<char>) -> bool {
    parser::parsed(None, source) matches Ok(again) && {
        &&& again.len() == nodes.len() + 1
        &&& forall|i: int|
            0 <= i < nodes.len() ==> formatting::says_the_same(#[trigger] again[i], nodes[i])
        &&& again.last().title == title
        &&& again.last().content.len() == 0
    }
}

/// Whether a source reads as given nodes and a node before them that has a title and nothing else.
pub open spec fn reads_with_first(source: Seq<char>, nodes: Seq<NodeView>, title: Seq<char>) -> bool {
    parser::parsed(None, source) matches Ok(again) && {
        &&& again.len() == nodes.len() + 1
        &&& forall|i: int|
            0 <= i < nodes.len() ==> formatting::says_the_same(
                again[i + 1],
                #[trigger] nodes[i],
            )
        &&& again[0].title == title
        &&& again[0].content.len() == 0
    }
}

/// Whether a position of a parsed source is in a text link that names no node, though it names something.
pub open spec fn is_in_dangling_link(
    s: Seq<char>,
    nodes: Seq<NodeView>,
    cursor: Position,
    i: int,
    k: int,
    title: Seq<char>,
) -> bool {
    &&& position::index_of(s, cursor) matches Some(index) && navigating::has_link_at(
        nodes,
        i,
        k,
        text::offset(s, index),
    )
    &&& nodes[i].links[k] matches LinkView::Text { title: named, span } && named == title
    &&& title.len() > 0
    &&& forall|j: int| 0 <= j < nodes.len() ==> (#[trigger] nodes[j]).title != title
}

/// In a text link that names no node, the fix appends a node with the title that the link names at the end
/// of the source, and the source then reads as before with that node behind all others.
pub proof fn law_missing_nodes_are_appended(
    uri: &str,
    source_contents: &str,
    range: Range,
    diagnostics: &[Diagnostic],
    result: Option<Vec<CodeAction>>,
    nodes: Seq<NodeView>,
    i: int,
    k: int,
    title: Seq<char>,
)
    requires
        call_ensures(
            language_server::code_action_for_document,
            (uri, source_contents, range, diagnostics),
            result,
        ),
        parser::parsed(None, source_contents@) == Ok::<Seq<NodeView>, Seq<ErrorView>>(nodes),
        is_in_dangling_link(source_contents@, nodes, range.start, i, k, title),
    ensures
        result matches Some(actions) && actions@.len() > 0 && exists|new: Seq<char>| #[trigger]
            inserts_at(
                actions@.last(),
                uri@,
                source_contents@,
                source_contents@.len() as int,
                new,
            ) && reads_with_last(source_contents@ + new, nodes, title),
{
    let s = source_contents@;
    let index = position::index_of(s, range.start)->0;
    navigating::law_missing_nodes_are_offered_in_their_links(s, nodes, range.start, index);
    assert(language_server::missing_link_at(s, nodes, range.start) == Some(
        (title, nodes[i].links[k].span()),
    ));
    creating::law_missing_nodes_can_be_created(None, s, nodes, range.start);
    creating::law_created_nodes_read_back(None, s, nodes, title, None);
    let actions = result->0;
    let edit = language_server::append_edit(s, title);
    let action = actions@.last();
    let views = language_server::edit_views(action.edit.edits@);
    assert(views == seq![edit]);
    assert(views.len() == action.edit.edits@.len());
    assert(views[0] == action.edit.edits@[0]@);
    assert(seq![edit][0] == edit);
    assert(inserts_at(action, uri@, s, s.len() as int, edit.new_text));
    let again = parser::parsed(None, creating::with_node(s, title))->Ok_0;
    assert forall|i: int| 0 <= i < nodes.len() implies formatting::says_the_same(
        #[trigger] again[i],
        nodes[i],
    ) by {
        assert(formatting::says_the_same(again[i], nodes[i]));
    }
    assert(again.last() == again[nodes.len() as int]);
    assert(reads_with_last(s + edit.new_text, nodes, title));
}

/// At the start of a source without a home node, the first fix puts one before everything else, and the
/// source then reads as before with that node in front.
pub proof fn law_a_missing_home_is_put_in_front(
    uri: &str,
    source_contents: &str,
    range: Range,
    diagnostics: &[Diagnostic],
    result: Option<Vec<CodeAction>>,
    nodes: Seq<NodeView>,
)
    requires
        call_ensures(
            language_server::code_action_for_document,
            (uri, source_contents, range, diagnostics),
            result,
        ),
        parser::parsed(None, source_contents@) == Ok::<Seq<NodeView>, Seq<ErrorView>>(nodes),
        range.start.line == 0,
        range.start.character == 0,
        forall|j: int|
            0 <= j < nodes.len() ==> (#[trigger] nodes[j]).title != seq!['H', 'o', 'm', 'e'],
    ensures
        result matches Some(actions) && actions@.len() > 0 && exists|new: Seq<char>| #[trigger]
            inserts_at(actions@[0], uri@, source_contents@, 0, new) && reads_with_first(
                new + source_contents@,
                nodes,
                seq!['H', 'o', 'm', 'e'],
            ),
{
    reveal_strlit("Home");
    let s = source_contents@;
    assert("Home"@ =~= seq!['H', 'o', 'm', 'e']);
    assert(!wiki::has_title(nodes, "Home"@));
    assert(language_server::offers_home(nodes, range));
    creating::law_created_home_reads_back(None, s, nodes, None);
    let actions = result->0;
    let edit = language_server::home_edit(s);
    let action = actions@[0];
    let views = language_server::edit_views(action.edit.edits@);
    assert(views == seq![edit]);
    assert(views.len() == action.edit.edits@.len());
    assert(views[0] == action.edit.edits@[0]@);
    assert(seq![edit][0] == edit);
    assert(s.subrange(0, 0) =~= Seq::<char>::empty());
    assert(position::position_at(s, 0) == (Position { line: 0, character: 0 }));
    assert(inserts_at(action, uri@, s, 0, edit.new_text));
    assert(reads_with_first(edit.new_text + s, nodes, "Home"@));
}

/// No fix is offered where there is a home node or the range starts elsewhere, and the range does not
/// start in a text link that names no node.
pub proof fn law_fixes_are_offered_only_where_something_is_missing(
    uri: &str,
    source_contents: &str,
    range: Range,
    diagnostics: &[Diagnostic],
    result: Option<Vec<CodeAction>>,
)
    requires
        call_ensures(
            language_server::code_action_for_document,
            (uri, source_contents, range, diagnostics),
            result,
        ),
        match parser::parsed(None, source_contents@) {
            Ok(nodes) => {
                &&& range.start.line != 0 || range.start.character != 0 || exists|j: int|
                    0 <= j < nodes.len() && (#[trigger] nodes[j]).title == seq!['H', 'o', 'm', 'e']
                &&& forall|i: int, k: int, title: Seq<char>|
                    !#[trigger] is_in_dangling_link(
                        source_contents@,
                        nodes,
                        range.start,
                        i,
                        k,
                        title,
                    )
            },
            Err(errors) => true,
        },
    ensures
        result is None,
{
    reveal_strlit("Home");
    let s = source_contents@;
    assert("Home"@ =~= seq!['H', 'o', 'm', 'e']);
    if let Ok(nodes) = parser::parsed(None, s) {
        if let Some(index) = position::index_of(s, range.start) {
            navigating::law_missing_nodes_are_offered_in_their_links(s, nodes, range.start, index);
            let b = text::offset(s, index);
            if exists|i: int, k: int| #[trigger] navigating::has_link_at(nodes, i, k, b) {
                let (i, k) = choose|i: int, k: int| #[trigger]
                    navigating::has_link_at(nodes, i, k, b);
                if nodes[i].links[k] is Text {
                    let title = nodes[i].links[k]->Text_title;
                    assert(!is_in_dangling_link(s, nodes, range.start, i, k, title));
                }
            }
        }
        assert(language_server::missing_link_at(s, nodes, range.start) is None);
        assert(!language_server::offers_home(nodes, range));
        assert(language_server::action_count(s, nodes, range) == 0);
    }
}

/// What completion offers in a text link that is closed is every title, in order, each in place of the
/// whole link.
pub proof fn law_every_title_is_offered(
    wiki_path: Option<&str>,
    source_contents: &str,
    cursor: Position,
    entries: Vec<Entry>,
    result: Option<Vec<CompletionItem>>,
    nodes: Seq<NodeView>,
    i: int,
    k: int,
)
    requires
        call_ensures(
            completion::complete_at,
            (wiki_path, source_contents, cursor, &entries),
            result,
        ),
        position::index_of(source_contents@, cursor) matches Some(index)
            && completing::has_text_link_at(
            source_contents@,
            nodes,
            i,
            k,
            text::offset(source_contents@, index),
        ) && completion::context_at(source_contents@, index) is None,
    ensures
        result matches Some(items) && {
            &&& items@.len() == nodes.len()
            &&& forall|x: int|
                0 <= x < items@.len() ==> (#[trigger] items@[x])@.text_edit.range
                    == position::range_of(source_contents@, nodes[i].links[k].span())
            &&& forall|j: int|
                0 <= j < nodes.len() ==> has_label(items@, (#[trigger] nodes[j]).title)
            &&& forall|x: int, y: int|
                0 <= x < y < items@.len() ==> ordering::text_up_to(
                    (#[trigger] items@[x])@.label,
                    (#[trigger] items@[y])@.label,
                )
        },
{
    let s = source_contents@;
    let index = position::index_of(s, cursor)->0;
    position::law_index_has_its_position(s, cursor);
    completing::law_closed_links_are_completed_whole(s, index, nodes, i, k);
    let range = position::range_of(s, nodes[i].links[k].span());
    completing::law_titles_are_completed_to_links(nodes, range);
    let expected = completion::title_items(nodes, range);
    let items = result->0;
    let views = completion::item_views(items@);
    let sorted = wiki::nodes_by_title(nodes);
    assert(views == expected);
    assert(views.len() == items@.len());
    assert forall|x: int| 0 <= x < items@.len() implies (#[trigger] items@[x])@.text_edit.range
        == range by {
        assert(views[x] == items@[x]@);
        assert(expected[x] == completion::title_item(sorted[x].title, range));
    }
    assert forall|j: int| 0 <= j < nodes.len() implies has_label(
        items@,
        (#[trigger] nodes[j]).title,
    ) by {
        let x = ordering::lemma_sorted_node(nodes, j);
        assert(views[x] == items@[x]@);
        assert(expected[x].label == sorted[x].title);
        assert(items@[x]@.label == nodes[j].title);
    }
    assert forall|x: int, y: int| 0 <= x < y < items@.len() implies ordering::text_up_to(
        (#[trigger] items@[x])@.label,
        (#[trigger] items@[y])@.label,
    ) by {
        assert(views[x] == items@[x]@);
        assert(views[y] == items@[y]@);
        assert(ordering::text_up_to(expected[x].label, expected[y].label));
    }
}

/// Whether one of several items has a label.
pub open spec fn has_label(items: Seq<CompletionItem>, label: Seq<char>) -> bool {
    exists|x: int| 0 <= x < items.len() && (#[trigger] items[x])@.label == label
}

} // verus!
