//! Checks on a parsed document and on the files around it.

use vstd::prelude::*;
use vstd::string::StringExecFns;

use crate::document;
use crate::document::Document;
use crate::document::Link;
use crate::document::LinkView;
use crate::document::Node;
use crate::document::NodeView;
use crate::error;
use crate::error::SourceRange;
use crate::order;
use crate::parse;
use crate::path_util;
use crate::phrase;
use crate::scoring;
use crate::text;
use crate::validator;
use crate::wiki;
use crate::wiki::TextNode;
use crate::wiki::Wiki;

verus! {

/// The link of a wiki that stands for a document's link.
pub open spec fn graph_link(link: LinkView) -> wiki::LinkView {
    let span = error::Span { start: 0, end: 0 };
    match link {
        LinkView::Text(title) => wiki::LinkView::Text { title, span },
        LinkView::File(path) => wiki::LinkView::File { path, span },
        LinkView::Directory(path) => wiki::LinkView::Directory { path, span },
    }
}

/// The node of a wiki that stands for a document's node.
pub open spec fn graph_node(node: NodeView) -> wiki::NodeView {
    let span = error::Span { start: 0, end: 0 };
    wiki::NodeView {
        title: node.title,
        content: Seq::empty(),
        links: node.links.map_values(|link: LinkView| graph_link(link)),
        depth: None,
        span,
        title_span: span,
    }
}

/// The text-link graph of a document.
pub open spec fn graph_of(nodes: Seq<NodeView>) -> Seq<wiki::NodeView> {
    nodes.map_values(|node: NodeView| graph_node(node))
}

/// The nodes of a document with their distances from the home node as depths.
pub open spec fn scored(nodes: Seq<NodeView>) -> Seq<NodeView> {
    Seq::new(
        nodes.len(),
        |i: int| NodeView { depth: scoring::scored(graph_of(nodes))[i].depth, ..nodes[i] },
    )
}

/// Build the text-link graph of a document.
fn build_graph(document: &Document) -> (wiki: Wiki)
    ensures
        wiki@ == graph_of(document@),
{
    let range = SourceRange { start: 0, end: 0 };
    let mut text_nodes: Vec<TextNode> = Vec::new();
    let mut i: usize = 0;
    while i < document.nodes.len()
        invariant
            i <= document.nodes@.len(),
            range@ == (error::Span { start: 0, end: 0 }),
            text_nodes@.len() == i,
            forall|j: int|
                0 <= j < i ==> (#[trigger] text_nodes@[j])@ == graph_node(document@[j]),
        decreases document.nodes.len() - i,
    {
        let node = &document.nodes[i];
        let mut links: Vec<wiki::Link> = Vec::new();
        let mut k: usize = 0;
        while k < node.links.len()
            invariant
                k <= node.links@.len(),
                range@ == (error::Span { start: 0, end: 0 }),
                links@.len() == k,
                forall|j: int|
                    0 <= j < k ==> (#[trigger] links@[j])@ == graph_link(node@.links[j]),
            decreases node.links.len() - k,
        {
            let link = match &node.links[k] {
                Link::Text(title) => wiki::Link::Text {
                    title: title.clone(),
                    source_range: range,
                },
                Link::File(path) => wiki::Link::File { path: path.clone(), source_range: range },
                Link::Directory(path) => wiki::Link::Directory {
                    path: path.clone(),
                    source_range: range,
                },
            };
            links.push(link);
            k = k + 1;
        }
        let text_node = TextNode {
            title: node.title.clone(),
            content: String::new(),
            links,
            depth: None,
            source_range: range,
            title_source_range: range,
        };
        proof {
            let view = graph_node(document@[i as int]);
            assert(document@[i as int] == node@);
            assert(text_node@.links =~= view.links);
            assert(text_node@.content =~= view.content);
        }
        text_nodes.push(text_node);
        i = i + 1;
    }
    let wiki = Wiki { text_nodes };
    proof {
        assert(wiki@ =~= graph_of(document@));
    }
    wiki
}

/// The titles of the text links in a sequence.
pub open spec fn text_titles(links: Seq<LinkView>) -> Seq<Seq<char>>
    decreases links.len(),
{
    if links.len() == 0 {
        Seq::empty()
    } else {
        let titles = text_titles(links.drop_last());
        match links.last() {
            LinkView::Text(title) => titles.push(title),
            _ => titles,
        }
    }
}

/// Texts in order.
pub open spec fn sorted_texts(texts: Seq<Seq<char>>) -> Seq<Seq<char>> {
    validator::ordered_by_text(texts, texts)
}

/// A title with each of a sequence of titles.
pub open spec fn paired(title: Seq<char>, targets: Seq<Seq<char>>) -> Seq<(Seq<char>, Seq<char>)> {
    targets.map_values(|target: Seq<char>| (title, target))
}

/// The text links of the nodes in a sequence: the title of the node and that of its target.
pub open spec fn text_links(nodes: Seq<NodeView>) -> Seq<(Seq<char>, Seq<char>)>
    decreases nodes.len(),
{
    if nodes.len() == 0 {
        Seq::empty()
    } else {
        text_links(nodes.drop_last()) + paired(
            nodes.last().title,
            sorted_texts(text_titles(nodes.last().links)),
        )
    }
}

/// The first of a sequence of text links that leads to a missing node.
pub open spec fn first_missing(nodes: Seq<NodeView>, links: Seq<(Seq<char>, Seq<char>)>) -> Option<
    (Seq<char>, Seq<char>),
>
    decreases links.len(),
{
    if links.len() == 0 {
        None
    } else {
        match first_missing(nodes, links.drop_last()) {
            Some(link) => Some(link),
            None => if document::has_title(nodes, links.last().1) {
                None
            } else {
                Some(links.last())
            },
        }
    }
}

/// What a link to a missing node is rejected with.
pub open spec fn missing_message(quoted_node: Seq<char>, quoted_target: Seq<char>) -> Seq<char> {
    "Node "@ + quoted_node + " links to missing node "@ + quoted_target + "."@
}

/// What an unreachable node is rejected with.
pub open spec fn unreachable_message(quoted_node: Seq<char>) -> Seq<char> {
    "Node "@ + quoted_node + " is not reachable from \"Home\"."@
}

/// What the unreachable nodes in a sequence are rejected with.
pub open spec fn unreachable_messages(nodes: Seq<NodeView>) -> Seq<Seq<char>>
    decreases nodes.len(),
{
    if nodes.len() == 0 {
        Seq::empty()
    } else {
        let messages = unreachable_messages(nodes.drop_last());
        if nodes.last().depth is None {
            messages.push(unreachable_message(parse::debug_text(nodes.last().title)))
        } else {
            messages
        }
    }
}

/// Whether the text links of a document lead to nodes, with a home node among them.
pub open spec fn targets_ok(nodes: Seq<NodeView>) -> Result<(), Seq<char>> {
    if !document::has_title(nodes, "Home"@) {
        Err("Document does not contain a \"Home\" node."@)
    } else {
        match first_missing(nodes, text_links(document::nodes_by_title(nodes))) {
            Some((node, target)) => Err(
                missing_message(parse::debug_text(node), parse::debug_text(target)),
            ),
            None => Ok(()),
        }
    }
}

/// Whether every node of a scored document has a depth.
pub open spec fn depths_ok(nodes: Seq<NodeView>) -> Result<(), Seq<char>> {
    let messages = unreachable_messages(document::nodes_by_title(nodes));
    if messages.len() == 0 {
        Ok(())
    } else {
        Err(phrase::joined(messages, "\n"@))
    }
}

/// The text of a result's error.
pub open spec fn result_view(result: Result<(), String>) -> Result<(), Seq<char>> {
    match result {
        Ok(_) => Ok(()),
        Err(message) => Err(message@),
    }
}

/// Write what a link to a missing node is rejected with.
pub fn describe_missing(quoted_node: &str, quoted_target: &str) -> (message: String)
    ensures
        message@ == missing_message(quoted_node@, quoted_target@),
{
    let mut message = phrase::concat3("Node ", quoted_node, " links to missing node ");
    message.append(quoted_target);
    message.append(".");
    proof {
        assert(message@ =~= missing_message(quoted_node@, quoted_target@));
    }
    message
}

/// Write what an unreachable node is rejected with.
pub fn describe_unreachable(quoted_node: &str) -> (message: String)
    ensures
        message@ == unreachable_message(quoted_node@),
{
    phrase::concat3("Node ", quoted_node, " is not reachable from \"Home\".")
}

/// Sort texts.
pub fn sort_texts(texts: Vec<String>) -> (sorted: Vec<String>)
    ensures
        phrase::text_views(sorted@) == sorted_texts(phrase::text_views(texts@)),
        sorted@.len() == texts@.len(),
{
    let ghost views = phrase::text_views(texts@);
    let ghost all = texts@;
    let mut keys: Vec<Vec<u64>> = Vec::new();
    let mut i: usize = 0;
    while i < texts.len()
        invariant
            i <= texts@.len(),
            keys@.len() == i,
            forall|j: int| 0 <= j < i ==> #[trigger] keys@[j]@ == order::text_key(texts@[j]@),
        decreases texts.len() - i,
    {
        keys.push(order::key_of_text(text::chars_of(texts[i].as_str()).as_slice()));
        i = i + 1;
    }
    proof {
        assert(order::key_views(keys@) =~= validator::text_keys(views));
        order::lemma_sort_order_sorts(validator::text_keys(views));
    }
    let order = order::sort(&keys);
    let ghost indices = order::index_views(order@);
    proof {
        assert forall|a: int, b: int|
            #![trigger order@[a], order@[b]]
            0 <= a < b < order@.len() implies order@[a] != order@[b] by {
            order::lemma_sort_order_distinct(validator::text_keys(views), indices, a, b);
            assert(indices[a] == order@[a] as int);
            assert(indices[b] == order@[b] as int);
        }
    }
    let sorted = order::arrange(texts, &order);
    proof {
        assert forall|a: int| 0 <= a < order@.len() implies 0 <= #[trigger] indices[a]
            < all.len() by {
            assert(indices[a] == order@[a] as int);
        }
        assert(phrase::text_views(sorted@) =~= sorted_texts(views));
    }
    sorted
}

/// List the titles of a node's text links in order.
fn sorted_link_titles(node: &Node) -> (titles: Vec<String>)
    ensures
        phrase::text_views(titles@) == sorted_texts(text_titles(node@.links)),
{
    let ghost links = node@.links;
    let mut titles: Vec<String> = Vec::new();
    let mut i: usize = 0;
    proof {
        assert(phrase::text_views(titles@) =~= text_titles(links.take(0)));
    }
    while i < node.links.len()
        invariant
            links == document::link_views(node.links@),
            i <= node.links@.len(),
            phrase::text_views(titles@) == text_titles(links.take(i as int)),
        decreases node.links.len() - i,
    {
        let ghost before = phrase::text_views(titles@);
        proof {
            assert(links.take(i + 1).drop_last() =~= links.take(i as int));
            assert(links.take(i + 1).last() == node.links@[i as int]@);
        }
        if let Link::Text(title) = &node.links[i] {
            titles.push(title.clone());
            proof {
                assert(phrase::text_views(titles@) =~= before.push(title@));
            }
        }
        i = i + 1;
    }
    proof {
        assert(links.take(i as int) =~= links);
    }
    sort_texts(titles)
}

/// A link found to be missing stays the first missing one when more links follow.
proof fn lemma_first_missing_stays(
    nodes: Seq<NodeView>,
    links: Seq<(Seq<char>, Seq<char>)>,
    more: Seq<(Seq<char>, Seq<char>)>,
)
    requires
        first_missing(nodes, links) is Some,
    ensures
        first_missing(nodes, links + more) == first_missing(nodes, links),
    decreases more.len(),
{
    if more.len() == 0 {
        assert(links + more =~= links);
    } else {
        lemma_first_missing_stays(nodes, links, more.drop_last());
        assert((links + more).drop_last() =~= links + more.drop_last());
    }
}

proof fn lemma_text_links_prefix(nodes: Seq<NodeView>, i: int) -> (more: Seq<
    (Seq<char>, Seq<char>),
>)
    requires
        0 <= i <= nodes.len(),
    ensures
        text_links(nodes) == text_links(nodes.take(i)) + more,
    decreases nodes.len(),
{
    if i == nodes.len() {
        assert(nodes.take(i) =~= nodes);
        assert(text_links(nodes) + Seq::<(Seq<char>, Seq<char>)>::empty() =~= text_links(nodes));
        Seq::empty()
    } else {
        let more = lemma_text_links_prefix(nodes.drop_last(), i);
        assert(nodes.drop_last().take(i) =~= nodes.take(i));
        let last = paired(
            nodes.last().title,
            sorted_texts(text_titles(nodes.last().links)),
        );
        assert(text_links(nodes) =~= text_links(nodes.take(i)) + (more + last));
        more + last
    }
}

/// Check that text links lead to nodes, with a home node among them.
fn check_targets(document: &Document) -> (result: Result<(), String>)
    ensures
        result_view(result) == targets_ok(document@),
{
    // Require the root node from which every other node must be reachable.
    if document.position("Home").is_none() {
        return Err("Document does not contain a \"Home\" node.".to_owned());
    }

    // Validate text links deterministically after every node is available.
    let ghost nodes = document@;
    let ghost sorted = document::nodes_by_title(nodes);
    let ghost all = text_links(sorted);
    let order = document.title_order();
    let mut i: usize = 0;
    proof {
        assert(sorted.take(0) =~= Seq::<NodeView>::empty());
    }
    while i < order.len()
        invariant
            nodes == document@,
            sorted == document::nodes_by_title(nodes),
            all == text_links(sorted),
            document::has_title(nodes, "Home"@),
            order@.len() == sorted.len(),
            i <= order@.len(),
            forall|j: int|
                0 <= j < order@.len() ==> {
                    &&& #[trigger] order@[j] < document.nodes@.len()
                    &&& document.nodes@[order@[j] as int]@ == sorted[j]
                },
            first_missing(nodes, text_links(sorted.take(i as int))) is None,
        decreases order.len() - i,
    {
        let node = &document.nodes[order[i]];
        let titles = sorted_link_titles(node);
        let ghost targets = phrase::text_views(titles@);
        let ghost before = text_links(sorted.take(i as int));
        let ghost pairs = paired(node.title@, targets);
        proof {
            assert(node@ == sorted[i as int]);
            assert(sorted.take(i + 1).drop_last() =~= sorted.take(i as int));
            assert(sorted.take(i + 1).last() == sorted[i as int]);
            assert(text_links(sorted.take(i + 1)) == before + pairs);
            assert(before + pairs.take(0) =~= before);
        }
        let mut k: usize = 0;
        while k < titles.len()
            invariant
                nodes == document@,
                sorted == document::nodes_by_title(nodes),
                all == text_links(sorted),
                document::has_title(nodes, "Home"@),
                0 <= i < sorted.len(),
                k <= titles@.len(),
                targets == phrase::text_views(titles@),
                pairs == paired(node.title@, targets),
                text_links(sorted.take(i + 1)) == before + pairs,
                first_missing(nodes, before + pairs.take(k as int)) is None,
            decreases titles.len() - k,
        {
            proof {
                assert(targets[k as int] == titles@[k as int]@);
                let next = before + pairs.take(k + 1);
                assert(next.drop_last() =~= before + pairs.take(k as int));
                assert(next.last() == (node.title@, titles@[k as int]@));
            }
            if document.position(titles[k].as_str()).is_none() {
                proof {
                    let next = before + pairs.take(k + 1);
                    lemma_first_missing_stays(nodes, next, pairs.skip(k + 1));
                    assert(next + pairs.skip(k + 1) =~= before + pairs);
                    let more = lemma_text_links_prefix(sorted, i + 1);
                    lemma_first_missing_stays(nodes, before + pairs, more);
                }
                let quoted = parse::debug(node.title.as_str());
                let target = parse::debug(titles[k].as_str());
                return Err(describe_missing(quoted.as_str(), target.as_str()));
            }
            k = k + 1;
        }
        proof {
            assert(pairs.take(k as int) =~= pairs);
        }
        i = i + 1;
    }
    proof {
        assert(sorted.take(i as int) =~= sorted);
    }
    Ok(())
}

/// Check that every node has a depth.
fn check_depths(document: &Document) -> (result: Result<(), String>)
    ensures
        result_view(result) == depths_ok(document@),
{
    let ghost sorted = document::nodes_by_title(document@);
    let order = document.title_order();
    let mut messages: Vec<String> = Vec::new();
    let mut i: usize = 0;
    proof {
        assert(phrase::text_views(messages@) =~= unreachable_messages(sorted.take(0)));
    }
    while i < order.len()
        invariant
            sorted == document::nodes_by_title(document@),
            order@.len() == sorted.len(),
            i <= order@.len(),
            forall|j: int|
                0 <= j < order@.len() ==> {
                    &&& #[trigger] order@[j] < document.nodes@.len()
                    &&& document.nodes@[order@[j] as int]@ == sorted[j]
                },
            phrase::text_views(messages@) == unreachable_messages(sorted.take(i as int)),
        decreases order.len() - i,
    {
        let node = &document.nodes[order[i]];
        let ghost before = phrase::text_views(messages@);
        proof {
            assert(node@ == sorted[i as int]);
            assert(sorted.take(i + 1).drop_last() =~= sorted.take(i as int));
            assert(sorted.take(i + 1).last() == sorted[i as int]);
        }
        if node.depth.is_none() {
            let message = describe_unreachable(parse::debug(node.title.as_str()).as_str());
            messages.push(message);
            proof {
                assert(phrase::text_views(messages@) =~= before.push(message@));
            }
        }
        i = i + 1;
    }
    proof {
        assert(sorted.take(i as int) =~= sorted);
        assert(phrase::text_views(messages@).len() == messages@.len());
    }
    if messages.len() == 0 {
        Ok(())
    } else {
        Err(phrase::join(&messages, "\n"))
    }
}

/// Validate text-link targets and the graph rooted at the home node, scoring the nodes once every
/// text link has a target.
pub fn validate_text_links(document: &mut Document) -> (result: Result<(), String>)
    ensures
        match targets_ok(old(document)@) {
            Err(message) => result_view(result) == Err::<(), Seq<char>>(message)
                && final(document)@ == old(document)@,
            Ok(_) => final(document)@ == scored(old(document)@) && result_view(result)
                == depths_ok(final(document)@),
        },
{
    if let Err(message) = check_targets(document) {
        return Err(message);
    }

    // Find minimum distances from the home node with breadth-first traversal.
    let ghost nodes = document@;
    let mut graph = build_graph(document);
    scoring::populate_depths(&mut graph);
    let ghost depths = scoring::scored(graph_of(nodes));
    let mut i: usize = 0;
    while i < document.nodes.len()
        invariant
            i <= document.nodes@.len(),
            document.nodes@.len() == nodes.len(),
            graph@ == depths,
            depths == scoring::scored(graph_of(nodes)),
            forall|j: int|
                0 <= j < i ==> (#[trigger] document.nodes@[j])@ == (NodeView {
                    depth: depths[j].depth,
                    ..nodes[j]
                }),
            forall|j: int| i <= j < nodes.len() ==> (#[trigger] document.nodes@[j])@ == nodes[j],
        decreases document.nodes.len() - i,
    {
        proof {
            assert(depths.len() == nodes.len());
            assert(graph.text_nodes@.len() == nodes.len());
            assert(document.nodes@[i as int]@ == nodes[i as int]);
            assert(graph.text_nodes@[i as int]@ == depths[i as int]);
        }
        let depth = graph.text_nodes[i].depth;
        document.nodes[i].depth = depth;
        i = i + 1;
    }
    proof {
        assert(document@ =~= scored(nodes));
    }

    // Reject every node outside the graph rooted at the home node.
    check_depths(document)
}

/// The key that orders links: text links by title, then files by path, then directories by path.
pub open spec fn link_key(link: LinkView) -> Seq<u64> {
    match link {
        LinkView::Text(title) => seq![0u64] + order::text_key(title),
        LinkView::File(path) => seq![1u64] + path_util::path_key(path),
        LinkView::Directory(path) => seq![2u64] + path_util::path_key(path),
    }
}

/// The keys that order links.
pub open spec fn link_keys(links: Seq<LinkView>) -> Seq<Seq<u64>> {
    links.map_values(|link: LinkView| link_key(link))
}

/// Links in order.
pub open spec fn sorted_links(links: Seq<LinkView>) -> Seq<LinkView> {
    order::arranged(links, order::sort_order(link_keys(links)))
}

/// A filesystem link to be checked.
#[derive(Clone, Debug)]
pub struct DocumentTarget {
    pub node_title: String,
    pub path: String,
    pub expect_directory: bool,
}

/// The contents of a filesystem link to be checked.
pub struct TargetView {
    pub node_title: Seq<char>,
    pub path: Seq<char>,
    pub expect_directory: bool,
}

impl View for DocumentTarget {
    type V = TargetView;

    open spec fn view(&self) -> TargetView {
        TargetView {
            node_title: self.node_title@,
            path: self.path@,
            expect_directory: self.expect_directory,
        }
    }
}

/// The targets in a vector.
pub open spec fn target_views(targets: Seq<DocumentTarget>) -> Seq<TargetView> {
    targets.map_values(|target: DocumentTarget| target@)
}

/// The filesystem links in a sequence of one node's links.
pub open spec fn link_targets(title: Seq<char>, links: Seq<LinkView>) -> Seq<TargetView>
    decreases links.len(),
{
    if links.len() == 0 {
        Seq::empty()
    } else {
        let targets = link_targets(title, links.drop_last());
        match links.last() {
            LinkView::Text(_) => targets,
            LinkView::File(path) => targets.push(
                TargetView { node_title: title, path, expect_directory: false },
            ),
            LinkView::Directory(path) => targets.push(
                TargetView { node_title: title, path, expect_directory: true },
            ),
        }
    }
}

/// The filesystem links of the nodes in a sequence.
pub open spec fn targets_of(nodes: Seq<NodeView>) -> Seq<TargetView>
    decreases nodes.len(),
{
    if nodes.len() == 0 {
        Seq::empty()
    } else {
        targets_of(nodes.drop_last()) + link_targets(
            nodes.last().title,
            sorted_links(nodes.last().links),
        )
    }
}

/// What the filesystem says of a target: why it cannot be accessed, or what it is and how its path
/// resolves or why it does not.
#[derive(Debug)]
pub enum TargetOutcome {
    Inaccessible(String),
    Found { is_file: bool, is_directory: bool, resolved: Result<String, String> },
}

/// The kind of an entry that a walk comes across.
#[derive(Clone, Copy, Debug, PartialEq, Eq, Structural)]
pub enum EntryKind {
    File,
    Directory,
    Other,
}

/// What a target comes to: its resolved path, or what the document is rejected with.
pub open spec fn target_result(
    target: TargetView,
    quoted_title: Seq<char>,
    outcome: TargetOutcome,
) -> Result<Seq<char>, Seq<char>> {
    match outcome {
        TargetOutcome::Inaccessible(reason) => Err(
            "Node "@ + quoted_title + " links to inaccessible path "@ + target.path + ": "@
                + reason@,
        ),
        TargetOutcome::Found { is_file, is_directory, resolved } => if target.expect_directory
            && !is_directory {
            Err(
                "Node "@ + quoted_title + " links to "@ + target.path
                    + ", which is not a directory."@,
            )
        } else if !target.expect_directory && !is_file {
            Err("Node "@ + quoted_title + " links to "@ + target.path + ", which is not a file."@)
        } else {
            match resolved {
                Ok(path) => Ok(path@),
                Err(reason) => Err(
                    "Failed to resolve path "@ + target.path + " linked from node "@ + quoted_title
                        + ": "@ + reason@,
                ),
            }
        },
    }
}

/// Validate one filesystem target, given its node's quoted title and what the filesystem says of it.
pub fn validate_target(target: &DocumentTarget, quoted_title: &str, outcome: TargetOutcome) -> (
result: Result<String, String>)
    ensures
        match result {
            Ok(path) => target_result(target@, quoted_title@, outcome) == Ok::<
                Seq<char>,
                Seq<char>,
            >(path@),
            Err(message) => target_result(target@, quoted_title@, outcome) == Err::<
                Seq<char>,
                Seq<char>,
            >(message@),
        },
{
    let mut message = String::new();
    match outcome {
        TargetOutcome::Inaccessible(reason) => {
            message.append("Node ");
            message.append(quoted_title);
            message.append(" links to inaccessible path ");
            message.append(target.path.as_str());
            message.append(": ");
            message.append(reason.as_str());
            proof {
                assert(message@ =~= "Node "@ + quoted_title@ + " links to inaccessible path "@
                    + target.path@ + ": "@ + reason@);
            }
            Err(message)
        },
        TargetOutcome::Found { is_file, is_directory, resolved } => {
            let has_expected_type = if target.expect_directory {
                is_directory
            } else {
                is_file
            };
            if !has_expected_type {
                message.append("Node ");
                message.append(quoted_title);
                message.append(" links to ");
                message.append(target.path.as_str());
                if target.expect_directory {
                    message.append(", which is not a directory.");
                    proof {
                        assert(message@ =~= "Node "@ + quoted_title@ + " links to "@ + target.path@
                            + ", which is not a directory."@);
                    }
                } else {
                    message.append(", which is not a file.");
                    proof {
                        assert(message@ =~= "Node "@ + quoted_title@ + " links to "@ + target.path@
                            + ", which is not a file."@);
                    }
                }
                return Err(message);
            }
            match resolved {
                Ok(path) => Ok(path),
                Err(reason) => {
                    message.append("Failed to resolve path ");
                    message.append(target.path.as_str());
                    message.append(" linked from node ");
                    message.append(quoted_title);
                    message.append(": ");
                    message.append(reason.as_str());
                    proof {
                        assert(message@ =~= "Failed to resolve path "@ + target.path@
                            + " linked from node "@ + quoted_title@ + ": "@ + reason@);
                    }
                    Err(message)
                },
            }
        },
    }
}

/// A check of the filesystem around a document, one observation at a time: first the targets of the
/// document's links, then the entries below the document's directory. Paths are absolute.
#[derive(Clone, Debug)]
pub struct DocumentCheck {
    pub directory: String,
    pub document_path: String,
    pub targets: Vec<DocumentTarget>,
    pub checked: usize,
    pub files: Vec<String>,
    pub directories: Vec<String>,
    pub errors: Vec<String>,
}

/// The contents of a check.
pub struct CheckView {
    pub directory: Seq<char>,
    pub document_path: Seq<char>,
    pub targets: Seq<TargetView>,
    pub checked: int,
    pub files: Seq<Seq<char>>,
    pub directories: Seq<Seq<char>>,
    pub errors: Seq<Seq<char>>,
}

impl View for DocumentCheck {
    type V = CheckView;

    open spec fn view(&self) -> CheckView {
        CheckView {
            directory: self.directory@,
            document_path: self.document_path@,
            targets: target_views(self.targets@),
            checked: self.checked as int,
            files: phrase::text_views(self.files@),
            directories: phrase::text_views(self.directories@),
            errors: phrase::text_views(self.errors@),
        }
    }
}

impl CheckView {
    /// The check after the path of its next target.
    pub open spec fn after_target(self, path: Seq<char>) -> CheckView {
        if self.targets[self.checked].expect_directory {
            CheckView {
                checked: self.checked + 1,
                directories: self.directories.push(path),
                ..self
            }
        } else {
            CheckView { checked: self.checked + 1, files: self.files.push(path), ..self }
        }
    }

    /// The check after a look at an entry: a file has to be linked, and a directory that the walk
    /// has come to is not.
    pub open spec fn after_entry(self, path: Seq<char>, kind: EntryKind) -> CheckView {
        let shown = path_util::relative(self.directory, path);
        if path_util::same_components(path, self.directory) || path_util::same_components(
            path,
            self.document_path,
        ) {
            self
        } else if kind == EntryKind::File && !validator::lists_path(self.files, path) {
            CheckView {
                errors: self.errors.push("File "@ + shown + " is not referenced."@),
                ..self
            }
        } else if kind == EntryKind::Directory {
            CheckView {
                errors: self.errors.push("Directory "@ + shown + " is not referenced."@),
                ..self
            }
        } else {
            self
        }
    }

    /// What the check comes to.
    pub open spec fn result(self) -> Result<(), Seq<char>> {
        if self.errors.len() == 0 {
            Ok(())
        } else {
            Err(phrase::joined(sorted_texts(self.errors), "\n"@))
        }
    }
}

/// The check before anything has been observed.
pub open spec fn initial_check(
    nodes: Seq<NodeView>,
    directory: Seq<char>,
    document_path: Seq<char>,
) -> CheckView {
    CheckView {
        directory,
        document_path,
        targets: targets_of(document::nodes_by_title(nodes)),
        checked: 0,
        files: Seq::empty(),
        directories: Seq::empty(),
        errors: Seq::empty(),
    }
}

/// Compute the key that orders a link.
fn key_of_link(link: &Link) -> (key: Vec<u64>)
    ensures
        key@ == link_key(link@),
{
    let mut key: Vec<u64> = Vec::new();
    let mut rest = match link {
        Link::Text(title) => {
            key.push(0);
            order::key_of_text(text::chars_of(title.as_str()).as_slice())
        },
        Link::File(path) => {
            key.push(1);
            path_util::key_of_path(path.as_str())
        },
        Link::Directory(path) => {
            key.push(2);
            path_util::key_of_path(path.as_str())
        },
    };
    let ghost first = key@;
    let ghost more = rest@;
    key.append(&mut rest);
    proof {
        assert(key@ =~= first + more);
        assert(first =~= seq![first[0]]);
    }
    key
}

/// List the filesystem links of a node in order.
fn node_targets(node: &Node) -> (targets: Vec<DocumentTarget>)
    ensures
        target_views(targets@) == link_targets(node@.title, sorted_links(node@.links)),
{
    let ghost links = node@.links;
    let mut keys: Vec<Vec<u64>> = Vec::new();
    let mut i: usize = 0;
    while i < node.links.len()
        invariant
            links == document::link_views(node.links@),
            i <= node.links@.len(),
            keys@.len() == i,
            forall|j: int| 0 <= j < i ==> #[trigger] keys@[j]@ == link_key(links[j]),
        decreases node.links.len() - i,
    {
        proof {
            assert(links[i as int] == node.links@[i as int]@);
        }
        keys.push(key_of_link(&node.links[i]));
        i = i + 1;
    }
    proof {
        assert(order::key_views(keys@) =~= link_keys(links));
    }
    let order = order::sort(&keys);
    let ghost sorted = sorted_links(links);
    let ghost indices = order::index_views(order@);
    let mut targets: Vec<DocumentTarget> = Vec::new();
    let mut k: usize = 0;
    proof {
        assert(target_views(targets@) =~= link_targets(node.title@, sorted.take(0)));
    }
    while k < order.len()
        invariant
            links == document::link_views(node.links@),
            indices == order::index_views(order@),
            sorted == order::arranged(links, indices),
            k <= order@.len(),
            forall|j: int| 0 <= j < order@.len() ==> #[trigger] order@[j] < node.links@.len(),
            target_views(targets@) == link_targets(node.title@, sorted.take(k as int)),
        decreases order.len() - k,
    {
        let ghost before = target_views(targets@);
        let link = &node.links[order[k]];
        proof {
            assert(indices[k as int] == order@[k as int] as int);
            assert(sorted[k as int] == link@);
            assert(sorted.take(k + 1).drop_last() =~= sorted.take(k as int));
            assert(sorted.take(k + 1).last() == link@);
        }
        match link {
            Link::Text(title) => {},
            Link::File(path) => {
                let target = DocumentTarget {
                    node_title: node.title.clone(),
                    path: path.clone(),
                    expect_directory: false,
                };
                targets.push(target);
                proof {
                    assert(target_views(targets@) =~= before.push(target@));
                }
            },
            Link::Directory(path) => {
                let target = DocumentTarget {
                    node_title: node.title.clone(),
                    path: path.clone(),
                    expect_directory: true,
                };
                targets.push(target);
                proof {
                    assert(target_views(targets@) =~= before.push(target@));
                }
            },
        }
        k = k + 1;
    }
    proof {
        assert(sorted.take(k as int) =~= sorted);
    }
    targets
}

impl DocumentCheck {
    /// Start a check of the filesystem around a document.
    pub fn new(document: &Document, directory: &str, document_path: &str) -> (check: DocumentCheck)
        ensures
            check@ == initial_check(document@, directory@, document_path@),
    {
        let ghost sorted = document::nodes_by_title(document@);
        let order = document.title_order();
        let mut targets: Vec<DocumentTarget> = Vec::new();
        let mut i: usize = 0;
        proof {
            assert(target_views(targets@) =~= targets_of(sorted.take(0)));
        }
        while i < order.len()
            invariant
                sorted == document::nodes_by_title(document@),
                order@.len() == sorted.len(),
                i <= order@.len(),
                forall|j: int|
                    0 <= j < order@.len() ==> {
                        &&& #[trigger] order@[j] < document.nodes@.len()
                        &&& document.nodes@[order@[j] as int]@ == sorted[j]
                    },
                target_views(targets@) == targets_of(sorted.take(i as int)),
            decreases order.len() - i,
        {
            let ghost before = target_views(targets@);
            let mut more = node_targets(&document.nodes[order[i]]);
            let ghost found = target_views(more@);
            targets.append(&mut more);
            proof {
                assert(target_views(targets@) =~= before + found);
                assert(sorted.take(i + 1).drop_last() =~= sorted.take(i as int));
                assert(sorted.take(i + 1).last() == sorted[i as int]);
                assert(document.nodes@[order@[i as int] as int]@ == sorted[i as int]);
            }
            i = i + 1;
        }
        let check = DocumentCheck {
            directory: directory.to_owned(),
            document_path: document_path.to_owned(),
            targets,
            checked: 0,
            files: Vec::new(),
            directories: Vec::new(),
            errors: Vec::new(),
        };
        proof {
            let start = initial_check(document@, directory@, document_path@);
            assert(sorted.take(i as int) =~= sorted);
            assert(check@.files =~= start.files);
            assert(check@.directories =~= start.directories);
            assert(check@.errors =~= start.errors);
        }
        check
    }

    /// Find the location of the next target to look at.
    pub fn next_target(&self) -> (location: Option<String>)
        ensures
            match location {
                Some(location) => self@.checked < self@.targets.len() && location@
                    == path_util::join_of(self@.directory, self@.targets[self@.checked].path),
                None => self@.checked >= self@.targets.len(),
            },
    {
        if self.checked < self.targets.len() {
            proof {
                assert(self@.targets[self@.checked] == self.targets@[self.checked as int]@);
            }
            Some(
                path_util::join(self.directory.as_str(), self.targets[self.checked].path.as_str()),
            )
        } else {
            None
        }
    }

    /// Take in what the filesystem says of the next target. A target that is not right ends the
    /// check.
    pub fn observe_target(&mut self, outcome: TargetOutcome) -> (result: Result<(), String>)
        requires
            old(self)@.checked < old(self)@.targets.len(),
        ensures
            ({
                let target = old(self)@.targets[old(self)@.checked];
                match target_result(target, parse::debug_text(target.node_title), outcome) {
                    Ok(path) => result is Ok && final(self)@ == old(self)@.after_target(path),
                    Err(message) => result_view(result) == Err::<(), Seq<char>>(message)
                        && final(self)@ == old(self)@,
                }
            }),
    {
        let ghost before = self@;
        let total: usize = self.targets.len();
        proof {
            assert(self.checked < total);
            assert(before.targets[before.checked] == self.targets@[self.checked as int]@);
        }
        let quoted = parse::debug(self.targets[self.checked].node_title.as_str());
        let expect_directory = self.targets[self.checked].expect_directory;
        match validate_target(&self.targets[self.checked], quoted.as_str(), outcome) {
            Ok(path) => {
                let ghost resolved = path@;
                if expect_directory {
                    self.directories.push(path);
                    proof {
                        assert(self@.directories =~= before.directories.push(resolved));
                    }
                } else {
                    self.files.push(path);
                    proof {
                        assert(self@.files =~= before.files.push(resolved));
                    }
                }
                self.checked = self.checked + 1;
                Ok(())
            },
            Err(message) => Err(message),
        }
    }

    /// Whether an entry is to be looked at: not if the document links to it as a directory.
    pub fn visits(&self, path: &str) -> (result: bool)
        ensures
            result == !validator::lists_path(self@.directories, path@),
    {
        !validator::contains_path(&self.directories, path)
    }

    /// Take in an entry below the document's directory.
    pub fn observe_entry(&mut self, path: &str, kind: EntryKind)
        ensures
            final(self)@ == old(self)@.after_entry(path@, kind),
    {
        let ghost before = self@;
        if path_util::same_path(path, self.directory.as_str()) || path_util::same_path(
            path,
            self.document_path.as_str(),
        ) {
            return;
        }
        let shown = path_util::relative_path(self.directory.as_str(), path);
        if kind == EntryKind::File && !validator::contains_path(&self.files, path) {
            let message = phrase::concat3("File ", shown.as_str(), " is not referenced.");
            let ghost text = message@;
            self.errors.push(message);
            proof {
                assert(self@.errors =~= before.errors.push(text));
            }
        } else if kind == EntryKind::Directory {
            let message = phrase::concat3("Directory ", shown.as_str(), " is not referenced.");
            let ghost text = message@;
            self.errors.push(message);
            proof {
                assert(self@.errors =~= before.errors.push(text));
            }
        }
    }

    /// End the check, reporting every unreferenced entry together.
    pub fn finish(self) -> (result: Result<(), String>)
        ensures
            result_view(result) == self@.result(),
    {
        proof {
            assert(self@.errors.len() == self.errors@.len());
        }
        if self.errors.len() == 0 {
            Ok(())
        } else {
            Err(phrase::join(&sort_texts(self.errors), "\n"))
        }
    }
}

/// The directory of a document. A document that is given by its name alone is in the current
/// directory.
pub open spec fn directory_of(path: Seq<char>) -> Seq<char> {
    match path_util::parent_of(path) {
        Some(above) => if above.len() == 0 {
            "."@
        } else {
            above
        },
        None => "."@,
    }
}

/// Find the directory of a document.
pub fn document_directory(document_path: &str) -> (directory: String)
    ensures
        directory@ == directory_of(document_path@),
{
    match path_util::parent(document_path) {
        Some(above) => if above.as_str().is_empty() {
            ".".to_owned()
        } else {
            above
        },
        None => ".".to_owned(),
    }
}

/// What the filesystem says of the places that a document's check starts from: how the directory
/// and the document resolve, or why they do not.
#[derive(Debug)]
pub struct Places {
    pub directory: Result<String, String>,
    pub document: Result<String, String>,
}

/// The start of a check, or what the document is rejected with.
pub open spec fn check_start(nodes: Seq<NodeView>, document_path: Seq<char>, places: Places) -> Result<
    CheckView,
    Seq<char>,
> {
    match places.directory {
        Err(reason) => Err(
            "Failed to resolve document directory "@ + directory_of(document_path) + ": "@
                + reason@,
        ),
        Ok(directory) => match places.document {
            Err(reason) => Err("Failed to resolve "@ + document_path + ": "@ + reason@),
            Ok(path) => Ok(initial_check(nodes, directory@, path@)),
        },
    }
}

/// Validate the text links of a document and start a check of the filesystem around it.
pub fn validate(document: &mut Document, document_path: &str, places: Places) -> (result: Result<
    DocumentCheck,
    String,
>)
    ensures
        match targets_ok(old(document)@) {
            Err(message) => {
                &&& final(document)@ == old(document)@
                &&& result matches Err(found) && found@ == message
            },
            Ok(_) => {
                &&& final(document)@ == scored(old(document)@)
                &&& match depths_ok(final(document)@) {
                    Err(message) => result matches Err(found) && found@ == message,
                    Ok(_) => match check_start(final(document)@, document_path@, places) {
                        Err(message) => result matches Err(found) && found@ == message,
                        Ok(start) => result matches Ok(check) && check@ == start,
                    },
                }
            },
        },
{
    // Validate the graph formed by nodes and their text links.
    if let Err(message) = validate_text_links(document) {
        return Err(message);
    }

    // Start from stable absolute paths.
    let directory = match places.directory {
        Ok(directory) => directory,
        Err(reason) => {
            let shown = document_directory(document_path);
            let mut message = phrase::concat3(
                "Failed to resolve document directory ",
                shown.as_str(),
                ": ",
            );
            message.append(reason.as_str());
            return Err(message);
        },
    };
    let path = match places.document {
        Ok(path) => path,
        Err(reason) => {
            let mut message = phrase::concat3("Failed to resolve ", document_path, ": ");
            message.append(reason.as_str());
            return Err(message);
        },
    };
    Ok(DocumentCheck::new(document, directory.as_str(), path.as_str()))
}

/// Whether every text link of every node of a document leads to a node.
pub open spec fn links_have_targets(nodes: Seq<NodeView>) -> bool {
    forall|i: int, k: int|
        0 <= i < nodes.len() && 0 <= k < nodes[i].links.len() ==> match (
        #[trigger] nodes[i].links[k]) {
            LinkView::Text(title) => document::has_title(nodes, title),
            LinkView::File(path) => true,
            LinkView::Directory(path) => true,
        }
}

/// Texts in order are the same texts.
proof fn lemma_sorted_texts(texts: Seq<Seq<char>>, text: Seq<char>)
    ensures
        sorted_texts(texts).contains(text) <==> texts.contains(text),
{
    let keys = validator::text_keys(texts);
    let sorted = order::sort_order(keys);
    order::lemma_sort_order_sorts(keys);
    let arranged = sorted_texts(texts);
    if arranged.contains(text) {
        let i = choose|i: int| 0 <= i < arranged.len() && arranged[i] == text;
        assert(0 <= sorted[i] < keys.len());
        assert(texts[sorted[i]] == text);
    }
    if texts.contains(text) {
        let j = choose|j: int| 0 <= j < texts.len() && texts[j] == text;
        order::lemma_sort_order_covers(keys, j);
        let i = choose|i: int| 0 <= i < sorted.len() && #[trigger] sorted[i] == j;
        assert(arranged[i] == text);
    }
}

/// The titles of the text links in a sequence are those that some text link names.
proof fn lemma_text_titles(links: Seq<LinkView>, title: Seq<char>)
    ensures
        text_titles(links).contains(title) <==> links.contains(LinkView::Text(title)),
    decreases links.len(),
{
    let titles = text_titles(links);
    if links.len() == 0 {
        assert(!titles.contains(title));
    } else {
        let front = links.drop_last();
        let earlier = text_titles(front);
        lemma_text_titles(front, title);
        if titles.contains(title) {
            let i = choose|i: int| 0 <= i < titles.len() && titles[i] == title;
            if i < earlier.len() {
                assert(earlier[i] == title);
                let k = choose|k: int| 0 <= k < front.len() && front[k] == LinkView::Text(title);
                assert(links[k] == front[k]);
            } else {
                assert(links[links.len() - 1] == LinkView::Text(title));
            }
        }
        if links.contains(LinkView::Text(title)) {
            let k = choose|k: int| 0 <= k < links.len() && links[k] == LinkView::Text(title);
            if k < front.len() {
                assert(front[k] == links[k]);
                let i = choose|i: int| 0 <= i < earlier.len() && earlier[i] == title;
                assert(titles[i] == title);
            } else {
                assert(titles[earlier.len() as int] == title);
            }
        }
    }
}

/// The text links of nodes are those that some node has.
proof fn lemma_text_links(nodes: Seq<NodeView>, target: Seq<char>)
    ensures
        (exists|k: int| 0 <= k < text_links(nodes).len() && (#[trigger] text_links(nodes)[k]).1
            == target) <==> (exists|i: int|
            0 <= i < nodes.len() && (#[trigger] nodes[i]).links.contains(LinkView::Text(target))),
    decreases nodes.len(),
{
    let links = text_links(nodes);
    if nodes.len() > 0 {
        let front = nodes.drop_last();
        let last = nodes.last();
        let earlier = text_links(front);
        let titles = text_titles(last.links);
        let sorted = sorted_texts(titles);
        lemma_text_links(front, target);
        lemma_sorted_texts(titles, target);
        lemma_text_titles(last.links, target);
        if exists|k: int| 0 <= k < links.len() && (#[trigger] links[k]).1 == target {
            let k = choose|k: int| 0 <= k < links.len() && (#[trigger] links[k]).1 == target;
            if k < earlier.len() {
                assert(earlier[k] == links[k]);
                let i = choose|i: int|
                    0 <= i < front.len() && (#[trigger] front[i]).links.contains(
                        LinkView::Text(target),
                    );
                assert(nodes[i] == front[i]);
            } else {
                assert(sorted[k - earlier.len()] == target);
                assert(nodes[nodes.len() - 1] == last);
            }
        }
        if exists|i: int|
            0 <= i < nodes.len() && (#[trigger] nodes[i]).links.contains(LinkView::Text(target)) {
            let i = choose|i: int|
                0 <= i < nodes.len() && (#[trigger] nodes[i]).links.contains(
                    LinkView::Text(target),
                );
            if i < front.len() {
                assert(front[i] == nodes[i]);
                let k = choose|k: int|
                    0 <= k < earlier.len() && (#[trigger] earlier[k]).1 == target;
                assert(links[k] == earlier[k]);
            } else {
                let k = choose|k: int| 0 <= k < sorted.len() && sorted[k] == target;
                assert(links[earlier.len() + k].1 == target);
            }
        }
    }
}

/// A missing target is found if there is one.
proof fn lemma_first_missing(nodes: Seq<NodeView>, links: Seq<(Seq<char>, Seq<char>)>)
    ensures
        first_missing(nodes, links) is None <==> forall|k: int|
            0 <= k < links.len() ==> document::has_title(nodes, (#[trigger] links[k]).1),
    decreases links.len(),
{
    if links.len() > 0 {
        let front = links.drop_last();
        lemma_first_missing(nodes, front);
        assert(forall|k: int| 0 <= k < front.len() ==> front[k] == #[trigger] links[k]);
        assert(links[links.len() - 1] == links.last());
        if first_missing(nodes, front) is None {
            assert forall|k: int| 0 <= k < links.len() - 1 implies document::has_title(
                nodes,
                (#[trigger] links[k]).1,
            ) by {
                assert(front[k] == links[k]);
            }
        } else {
            let k = choose|k: int|
                0 <= k < front.len() && !document::has_title(nodes, (#[trigger] front[k]).1);
            assert(links[k] == front[k]);
        }
    }
}

/// A message is there for every node without a depth.
proof fn lemma_unreachable_messages(nodes: Seq<NodeView>)
    ensures
        unreachable_messages(nodes).len() == 0 <==> forall|i: int|
            0 <= i < nodes.len() ==> (#[trigger] nodes[i]).depth is Some,
    decreases nodes.len(),
{
    if nodes.len() > 0 {
        let front = nodes.drop_last();
        lemma_unreachable_messages(front);
        assert(forall|i: int| 0 <= i < front.len() ==> front[i] == #[trigger] nodes[i]);
        assert(nodes[nodes.len() - 1] == nodes.last());
        if unreachable_messages(front).len() == 0 {
            assert forall|i: int| 0 <= i < nodes.len() - 1 implies (#[trigger] nodes[i]).depth is Some by {
                assert(front[i] == nodes[i]);
            }
        } else {
            let i = choose|i: int| 0 <= i < front.len() && (#[trigger] front[i]).depth is None;
            assert(nodes[i] == front[i]);
        }
    }
}

/// The text-link graph of a document is accepted if and only if there is a home node, every text link
/// leads to a node and every node can be reached from the home node.
pub proof fn law_document_graph(nodes: Seq<NodeView>)
    ensures
        targets_ok(nodes) is Ok <==> document::has_title(nodes, "Home"@) && links_have_targets(
            nodes,
        ),
        depths_ok(scored(nodes)) is Ok <==> forall|i: int|
            0 <= i < nodes.len() ==> (#[trigger] scored(nodes)[i]).depth is Some,
{
    let sorted = document::nodes_by_title(nodes);
    let keys = document::title_keys(nodes);
    let order = order::sort_order(keys);
    order::lemma_sort_order_sorts(keys);
    let links = text_links(sorted);
    lemma_first_missing(nodes, links);
    if first_missing(nodes, links) is None {
        assert forall|i: int, k: int|
            0 <= i < nodes.len() && 0 <= k < nodes[i].links.len() implies match (
        #[trigger] nodes[i].links[k]) {
            LinkView::Text(title) => document::has_title(nodes, title),
            LinkView::File(path) => true,
            LinkView::Directory(path) => true,
        } by {
            if let LinkView::Text(title) = nodes[i].links[k] {
                order::lemma_sort_order_covers(keys, i);
                let j = choose|j: int| 0 <= j < order.len() && #[trigger] order[j] == i;
                assert(sorted[j] == nodes[i]);
                assert(sorted[j].links.contains(LinkView::Text(title)));
                lemma_text_links(sorted, title);
                let m = choose|m: int| 0 <= m < links.len() && (#[trigger] links[m]).1 == title;
                assert(document::has_title(nodes, links[m].1));
            }
        }
        assert(links_have_targets(nodes));
    }
    if links_have_targets(nodes) {
        assert forall|m: int| 0 <= m < links.len() implies document::has_title(
            nodes,
            (#[trigger] links[m]).1,
        ) by {
            let title = links[m].1;
            lemma_text_links(sorted, title);
            let j = choose|j: int|
                0 <= j < sorted.len() && (#[trigger] sorted[j]).links.contains(
                    LinkView::Text(title),
                );
            let i = order[j];
            assert(0 <= i < keys.len());
            assert(sorted[j] == nodes[i]);
            let k = choose|k: int|
                0 <= k < nodes[i].links.len() && nodes[i].links[k] == LinkView::Text(title);
            assert(nodes[i].links[k] == LinkView::Text(title));
        }
    }
    lemma_depths(scored(nodes));
}

/// Whether nodes have depths does not depend on their order.
proof fn lemma_depths(nodes: Seq<NodeView>)
    ensures
        depths_ok(nodes) is Ok <==> forall|i: int|
            0 <= i < nodes.len() ==> (#[trigger] nodes[i]).depth is Some,
{
    let sorted = document::nodes_by_title(nodes);
    let keys = document::title_keys(nodes);
    let order = order::sort_order(keys);
    order::lemma_sort_order_sorts(keys);
    lemma_unreachable_messages(sorted);
    if forall|i: int| 0 <= i < nodes.len() ==> (#[trigger] nodes[i]).depth is Some {
        assert forall|j: int| 0 <= j < sorted.len() implies (#[trigger] sorted[j]).depth is Some by {
            assert(0 <= order[j] < keys.len());
            assert(nodes[order[j]].depth is Some);
        }
    }
    if forall|j: int| 0 <= j < sorted.len() ==> (#[trigger] sorted[j]).depth is Some {
        assert forall|i: int| 0 <= i < nodes.len() implies (#[trigger] nodes[i]).depth is Some by {
            order::lemma_sort_order_covers(keys, i);
            let j = choose|j: int| 0 <= j < order.len() && #[trigger] order[j] == i;
            assert(sorted[j].depth is Some);
        }
    }
}

} // verus!
