//! Checks on a parsed wiki and on the files around it.

use vstd::prelude::*;
use vstd::string::StringExecFns;

use crate::error;
use crate::error::Error;
use crate::error::ErrorView;
use crate::error::Reason;
use crate::error::SourceRange;
use crate::order;
use crate::paint;
use crate::parser;
use crate::path_util;
use crate::path_util::WikiLocation;
use crate::phrase;
use crate::scoring;
use crate::text;
use crate::text::Text;
use crate::wiki;
use crate::wiki::Link;
use crate::wiki::LinkView;
use crate::wiki::NodeView;
use crate::wiki::Wiki;

verus! {

// Limit filesystem diagnostics so pathological wikis and directories remain manageable.
pub const MAX_FILESYSTEM_ERRORS: usize = 50;

/// The error for a wiki without a home node.
pub open spec fn home_errors(path: Option<Seq<char>>, nodes: Seq<NodeView>) -> Seq<ErrorView> {
    if wiki::has_title(nodes, "Home"@) {
        Seq::empty()
    } else {
        seq![
            error::file_error(
                "The wiki does not contain a "@ + phrase::code("Home"@) + " node."@,
                path,
                None,
            ),
        ]
    }
}

/// What a text link to a missing node is reported with.
pub open spec fn missing_message(title: Seq<char>) -> Seq<char> {
    if title.len() == 0 {
        "This link is missing a target."@
    } else {
        "Node "@ + phrase::code(title) + " not found."@
    }
}

/// The error for a link, if it is a text link to a missing node.
pub open spec fn target_errors(
    path: Option<Seq<char>>,
    s: Seq<char>,
    nodes: Seq<NodeView>,
    link: LinkView,
) -> Seq<ErrorView> {
    match link {
        LinkView::Text { title, span } => if wiki::has_title(nodes, title) {
            Seq::empty()
        } else {
            seq![error::located_error(missing_message(title), path, s, span, None)]
        },
        LinkView::File { path, span } => Seq::empty(),
        LinkView::Directory { path, span } => Seq::empty(),
    }
}

/// The errors for the text links in a sequence that lead to missing nodes.
pub open spec fn targets_errors(
    path: Option<Seq<char>>,
    s: Seq<char>,
    nodes: Seq<NodeView>,
    links: Seq<LinkView>,
) -> Seq<ErrorView>
    decreases links.len(),
{
    if links.len() == 0 {
        Seq::empty()
    } else {
        targets_errors(path, s, nodes, links.drop_last()) + target_errors(
            path,
            s,
            nodes,
            links.last(),
        )
    }
}

/// The links of the nodes in a sequence, one node after the other.
pub open spec fn all_links(nodes: Seq<NodeView>) -> Seq<LinkView>
    decreases nodes.len(),
{
    if nodes.len() == 0 {
        Seq::empty()
    } else {
        all_links(nodes.drop_last()) + nodes.last().links
    }
}

/// The error for a node, if it cannot be reached from the home node.
pub open spec fn reach_errors(path: Option<Seq<char>>, s: Seq<char>, node: NodeView) -> Seq<
    ErrorView,
> {
    if node.depth is None {
        seq![
            error::located_error(
                "Node "@ + phrase::code(node.title) + " is not reachable from "@ + phrase::code(
                    "Home"@,
                ) + "."@,
                path,
                s,
                node.title_span,
                None,
            ),
        ]
    } else {
        Seq::empty()
    }
}

/// The errors for the nodes in a sequence that cannot be reached from the home node.
pub open spec fn reaches_errors(path: Option<Seq<char>>, s: Seq<char>, nodes: Seq<NodeView>) -> Seq<
    ErrorView,
>
    decreases nodes.len(),
{
    if nodes.len() == 0 {
        Seq::empty()
    } else {
        reaches_errors(path, s, nodes.drop_last()) + reach_errors(path, s, nodes.last())
    }
}

/// The errors in the text-link graph of a wiki.
pub open spec fn graph_errors(path: Option<Seq<char>>, s: Seq<char>, nodes: Seq<NodeView>) -> Seq<
    ErrorView,
> {
    let sorted = wiki::nodes_by_title(nodes);
    home_errors(path, nodes) + targets_errors(path, s, nodes, all_links(sorted)) + if wiki::has_title(
        nodes,
        "Home"@,
    ) {
        reaches_errors(path, s, sorted)
    } else {
        Seq::empty()
    }
}

/// The links in a vector of references.
pub open spec fn link_ref_views(links: Seq<&Link>) -> Seq<LinkView> {
    links.map_values(|link: &Link| link@)
}

/// List the links of all nodes in title order.
fn links_by_title(wiki: &Wiki) -> (links: Vec<&Link>)
    ensures
        link_ref_views(links@) == all_links(wiki::nodes_by_title(wiki@)),
{
    let ghost sorted = wiki::nodes_by_title(wiki@);
    let order = wiki.title_order();
    let mut links: Vec<&Link> = Vec::new();
    let mut i: usize = 0;
    proof {
        assert(sorted.take(0) =~= Seq::<NodeView>::empty());
        assert(link_ref_views(links@) =~= all_links(sorted.take(0)));
    }
    while i < order.len()
        invariant
            sorted == wiki::nodes_by_title(wiki@),
            order@.len() == sorted.len(),
            i <= order@.len(),
            forall|j: int|
                0 <= j < order@.len() ==> {
                    &&& #[trigger] order@[j] < wiki.text_nodes@.len()
                    &&& wiki.text_nodes@[order@[j] as int]@ == sorted[j]
                },
            link_ref_views(links@) == all_links(sorted.take(i as int)),
        decreases order.len() - i,
    {
        let node = &wiki.text_nodes[order[i]];
        let ghost node_links = node@.links;
        let ghost before = link_ref_views(links@);
        let mut k: usize = 0;
        proof {
            assert(before + node_links.take(0) =~= before);
        }
        while k < node.links.len()
            invariant
                k <= node.links@.len(),
                node_links == wiki::link_views(node.links@),
                link_ref_views(links@) == before + node_links.take(k as int),
            decreases node.links.len() - k,
        {
            let ghost earlier = links@;
            links.push(&node.links[k]);
            proof {
                assert(node_links[k as int] == node.links@[k as int]@);
                assert(link_ref_views(links@) =~= link_ref_views(earlier).push(
                    node_links[k as int],
                ));
                assert(link_ref_views(links@) =~= before + node_links.take(
                    k + 1,
                ));
            }
            k = k + 1;
        }
        proof {
            assert(node_links.take(k as int) =~= node_links);
            assert(sorted.take(i + 1).drop_last() =~= sorted.take(i as int));
            assert(sorted.take(i + 1).last() == sorted[i as int]);
            assert(node@ == sorted[i as int]);
        }
        i = i + 1;
    }
    proof {
        assert(sorted.take(i as int) =~= sorted);
    }
    links
}

/// Validate text-link targets and reachability from the home node.
pub fn validate_text_links(wiki: &Wiki, source_path: Option<&str>, source: &Text) -> (errors: Vec<
    Error,
>)
    requires
        source.wf(),
    ensures
        error::error_views(errors@) == graph_errors(
            error::optional_text(source_path),
            source@,
            wiki@,
        ),
{
    let ghost path = error::optional_text(source_path);
    let ghost s = source@;
    let ghost nodes = wiki@;
    let ghost sorted = wiki::nodes_by_title(nodes);
    let mut errors: Vec<Error> = Vec::new();

    // Require the root node from which every other node must be reachable.
    let has_home = wiki.contains(wiki::HOME_TITLE);
    if !has_home {
        let quoted = phrase::code_str(wiki::HOME_TITLE);
        let message = phrase::concat3(
            "The wiki does not contain a ",
            quoted.as_str(),
            " node.",
        );
        errors.push(Error::of_file(message, source_path, None));
    }
    proof {
        assert(error::error_views(errors@) =~= home_errors(path, nodes));
    }

    // Validate text-link targets deterministically.
    let links = links_by_title(wiki);
    let ghost views = link_ref_views(links@);
    let mut i: usize = 0;
    proof {
        assert(error::error_views(errors@) =~= home_errors(path, nodes) + targets_errors(
            path,
            s,
            nodes,
            views.take(0),
        ));
    }
    while i < links.len()
        invariant
            source.wf(),
            s == source@,
            path == error::optional_text(source_path),
            nodes == wiki@,
            views == link_ref_views(links@),
            i <= links@.len(),
            error::error_views(errors@) == home_errors(path, nodes) + targets_errors(
                path,
                s,
                nodes,
                views.take(i as int),
            ),
        decreases links.len() - i,
    {
        let ghost before = error::error_views(errors@);
        proof {
            assert(views[i as int] == links@[i as int]@);
            assert(views.take(i + 1).drop_last() =~= views.take(i as int));
            assert(views.take(i + 1).last() == views[i as int]);
        }
        if let Link::Text { title, source_range } = links[i] {
            if !wiki.contains(title.as_str()) {
                let message = if title.as_str().is_empty() {
                    "This link is missing a target.".to_owned()
                } else {
                    let quoted = phrase::code_str(title.as_str());
                    phrase::concat3("Node ", quoted.as_str(), " not found.")
                };
                let error = Error::at(message, source_path, source, *source_range, None);
                errors.push(error);
                proof {
                    assert(error::error_views(errors@) =~= before.push(error@));
                }
            }
        }
        proof {
            assert(error::error_views(errors@) =~= before + target_errors(
                path,
                s,
                nodes,
                views[i as int],
            ));
            assert(error::error_views(errors@) =~= home_errors(path, nodes) + targets_errors(
                path,
                s,
                nodes,
                views.take(i + 1),
            ));
        }
        i = i + 1;
    }
    proof {
        assert(views.take(i as int) =~= views);
    }

    // Reject every node outside the graph rooted at the home node.
    if has_home {
        let ghost first = error::error_views(errors@);
        let order = wiki.title_order();
        let mut k: usize = 0;
        proof {
            assert(first + reaches_errors(path, s, sorted.take(0)) =~= first);
        }
        while k < order.len()
            invariant
                source.wf(),
                s == source@,
                path == error::optional_text(source_path),
                sorted == wiki::nodes_by_title(wiki@),
                k <= order@.len(),
                order@.len() == sorted.len(),
                forall|j: int|
                    0 <= j < order@.len() ==> {
                        &&& #[trigger] order@[j] < wiki.text_nodes@.len()
                        &&& wiki.text_nodes@[order@[j] as int]@ == sorted[j]
                    },
                error::error_views(errors@) == first + reaches_errors(
                    path,
                    s,
                    sorted.take(k as int),
                ),
            decreases order.len() - k,
        {
            let ghost before = error::error_views(errors@);
            let node = &wiki.text_nodes[order[k]];
            if node.depth.is_none() {
                let quoted = phrase::code_str(node.title.as_str());
                let home = phrase::code_str(wiki::HOME_TITLE);
                let mut message = phrase::concat3(
                    "Node ",
                    quoted.as_str(),
                    " is not reachable from ",
                );
                message.append(home.as_str());
                message.append(".");
                proof {
                    assert(message@ =~= "Node "@ + phrase::code(node.title@)
                        + " is not reachable from "@ + phrase::code("Home"@) + "."@);
                }
                let error = Error::at(message, source_path, source, node.title_source_range, None);
                errors.push(error);
                proof {
                    assert(error::error_views(errors@) =~= before.push(error@));
                }
            }
            proof {
                assert(sorted.take(k + 1).drop_last() =~= sorted.take(k as int));
                assert(sorted.take(k + 1).last() == sorted[k as int]);
                assert(node@ == sorted[k as int]);
                assert(error::error_views(errors@) =~= before + reach_errors(
                    path,
                    s,
                    sorted[k as int],
                ));
                assert(error::error_views(errors@) =~= first + reaches_errors(
                    path,
                    s,
                    sorted.take(k + 1),
                ));
            }
            k = k + 1;
        }
        proof {
            assert(sorted.take(k as int) =~= sorted);
        }
    }
    proof {
        assert(error::error_views(errors@) =~= graph_errors(path, s, nodes));
    }
    errors
}

/// The error for a link, if it is a filesystem link in a wiki that is not in a file.
pub open spec fn unsaved_errors(path: Option<Seq<char>>, s: Seq<char>, link: LinkView) -> Seq<
    ErrorView,
> {
    match link {
        LinkView::Text { title, span } => Seq::empty(),
        _ => seq![
            error::located_error(
                "Save the wiki to validate this filesystem link."@,
                path,
                s,
                link.span(),
                None,
            ),
        ],
    }
}

/// The errors for the filesystem links of a wiki that is not in a file.
pub open spec fn all_unsaved_errors(
    path: Option<Seq<char>>,
    s: Seq<char>,
    links: Seq<LinkView>,
) -> Seq<ErrorView>
    decreases links.len(),
{
    if links.len() == 0 {
        Seq::empty()
    } else {
        all_unsaved_errors(path, s, links.drop_last()) + unsaved_errors(path, s, links.last())
    }
}

/// The start of a sequence, up to the limit on filesystem errors.
pub open spec fn limited<T>(errors: Seq<T>) -> Seq<T> {
    if errors.len() <= MAX_FILESYSTEM_ERRORS {
        errors
    } else {
        errors.take(MAX_FILESYSTEM_ERRORS as int)
    }
}

/// The first filesystem errors of a wiki that is not in a file.
pub open spec fn untitled_errors(path: Option<Seq<char>>, s: Seq<char>, nodes: Seq<NodeView>) -> Seq<
    ErrorView,
> {
    limited(all_unsaved_errors(path, s, all_links(wiki::nodes_by_title(nodes))))
}

/// Errors for more links start with the errors for fewer links.
proof fn lemma_unsaved_errors_prefix(
    path: Option<Seq<char>>,
    s: Seq<char>,
    links: Seq<LinkView>,
    i: int,
)
    requires
        0 <= i <= links.len(),
    ensures
        all_unsaved_errors(path, s, links.take(i)).is_prefix_of(
            all_unsaved_errors(path, s, links),
        ),
    decreases links.len(),
{
    if i == links.len() {
        assert(links.take(i) =~= links);
    } else {
        lemma_unsaved_errors_prefix(path, s, links.drop_last(), i);
        assert(links.drop_last().take(i) =~= links.take(i));
    }
}

/// Require local filesystem context for every file and directory link in an untitled wiki.
pub fn validate_untitled_filesystem_links(
    wiki: &Wiki,
    source_path: Option<&str>,
    source: &Text,
) -> (errors: Vec<Error>)
    requires
        source.wf(),
    ensures
        error::error_views(errors@) == untitled_errors(
            error::optional_text(source_path),
            source@,
            wiki@,
        ),
{
    // Visit links deterministically and respect the shared filesystem-error budget.
    let ghost path = error::optional_text(source_path);
    let ghost s = source@;
    let links = links_by_title(wiki);
    let ghost views = link_ref_views(links@);
    let mut errors: Vec<Error> = Vec::new();
    let mut i: usize = 0;
    proof {
        assert(error::error_views(errors@) =~= all_unsaved_errors(path, s, views.take(0)));
    }
    while i < links.len() && errors.len() < MAX_FILESYSTEM_ERRORS
        invariant
            source.wf(),
            s == source@,
            path == error::optional_text(source_path),
            views == link_ref_views(links@),
            i <= links@.len(),
            errors@.len() <= MAX_FILESYSTEM_ERRORS,
            error::error_views(errors@) == all_unsaved_errors(path, s, views.take(i as int)),
        decreases links.len() - i,
    {
        let ghost before = error::error_views(errors@);
        let is_text = match links[i] {
            Link::Text { title, source_range } => true,
            Link::File { path, source_range } => false,
            Link::Directory { path, source_range } => false,
        };
        proof {
            assert(views[i as int] == links@[i as int]@);
            assert(views.take(i + 1).drop_last() =~= views.take(i as int));
            assert(views.take(i + 1).last() == views[i as int]);
        }
        if !is_text {
            let error = Error::at(
                "Save the wiki to validate this filesystem link.".to_owned(),
                source_path,
                source,
                links[i].source_range(),
                None,
            );
            errors.push(error);
            proof {
                assert(error::error_views(errors@) =~= before.push(error@));
            }
        }
        proof {
            assert(error::error_views(errors@) =~= before + unsaved_errors(
                path,
                s,
                views[i as int],
            ));
        }
        i = i + 1;
    }
    proof {
        lemma_unsaved_errors_prefix(path, s, views, i as int);
        assert(views.take(i as int).len() == i);
        let found = error::error_views(errors@);
        let all = all_unsaved_errors(path, s, views);
        if i == links@.len() {
            assert(views.take(i as int) =~= views);
            assert(all.take(all.len() as int) =~= all);
        } else {
            assert(found.len() == MAX_FILESYSTEM_ERRORS);
        }
        assert(found =~= limited(all));
    }
    errors
}

/// What a filesystem link has to lead to.
#[derive(Clone, Copy, Debug, PartialEq, Eq, Structural)]
pub enum TargetKind {
    File,
    Directory,
}

/// A filesystem link to be checked.
#[derive(Clone, Debug)]
pub struct Target {
    pub kind: TargetKind,
    pub path: String,  // As the link has it
    pub location: String,  // As the filesystem has it
    pub source_range: SourceRange,
}

/// The contents of a filesystem link to be checked.
pub struct TargetView {
    pub kind: TargetKind,
    pub path: Seq<char>,
    pub location: Seq<char>,
    pub span: error::Span,
}

impl View for Target {
    type V = TargetView;

    open spec fn view(&self) -> TargetView {
        TargetView {
            kind: self.kind,
            path: self.path@,
            location: self.location@,
            span: self.source_range@,
        }
    }
}

/// The targets in a vector.
pub open spec fn target_views(targets: Seq<Target>) -> Seq<TargetView> {
    targets.map_values(|target: Target| target@)
}

/// What the filesystem has at a location, once symbolic links are followed.
#[derive(Clone, Debug)]
pub enum TargetState {
    File,
    Directory,
    Other,
    NotFound(Reason),
    Inaccessible(Reason),
}

/// The targets of a link: itself, if it is a filesystem link.
pub open spec fn link_targets(directory: Seq<char>, link: LinkView) -> Seq<TargetView> {
    match link {
        LinkView::Text { title, span } => Seq::empty(),
        LinkView::File { path, span } => seq![
            TargetView {
                kind: TargetKind::File,
                path,
                location: path_util::join_of(directory, path),
                span,
            },
        ],
        LinkView::Directory { path, span } => seq![
            TargetView {
                kind: TargetKind::Directory,
                path,
                location: path_util::join_of(directory, path),
                span,
            },
        ],
    }
}

/// The filesystem links in a sequence.
pub open spec fn targets_of(directory: Seq<char>, links: Seq<LinkView>) -> Seq<TargetView>
    decreases links.len(),
{
    if links.len() == 0 {
        Seq::empty()
    } else {
        targets_of(directory, links.drop_last()) + link_targets(directory, links.last())
    }
}

/// Whether a target is what its link needs.
pub open spec fn target_matches(kind: TargetKind, state: TargetState) -> bool {
    match kind {
        TargetKind::File => state is File,
        TargetKind::Directory => state is Directory,
    }
}

/// The error for a target, if it is not what its link needs.
pub open spec fn state_errors(
    path: Option<Seq<char>>,
    s: Seq<char>,
    target: TargetView,
    state: TargetState,
) -> Seq<ErrorView> {
    let name = phrase::code(target.path);
    match state {
        TargetState::NotFound(reason) => seq![
            error::located_error(name + " not found."@, path, s, target.span, Some(reason)),
        ],
        TargetState::Inaccessible(reason) => seq![
            error::located_error(
                "Unable to access "@ + name + "."@,
                path,
                s,
                target.span,
                Some(reason),
            ),
        ],
        _ => if target_matches(target.kind, state) {
            Seq::empty()
        } else {
            match target.kind {
                TargetKind::File => seq![
                    error::located_error(name + " is not a file."@, path, s, target.span, None),
                ],
                TargetKind::Directory => seq![
                    error::located_error(name + " is not a directory."@, path, s, target.span, None),
                ],
            }
        },
    }
}

/// A check of the filesystem around a wiki, one observation at a time: first the targets of the
/// wiki's links, then the entries below the wiki's directory.
#[derive(Clone, Debug)]
pub struct FilesystemCheck {
    pub wiki_directory: String,
    pub wiki_path: String,
    pub targets: Vec<Target>,
    pub checked: usize,
    pub files: Vec<String>,
    pub directories: Vec<String>,
    pub link_errors: Vec<Error>,
    pub walk_errors: Vec<Error>,
}

/// The contents of a filesystem check.
pub struct CheckView {
    pub wiki_directory: Seq<char>,
    pub wiki_path: Seq<char>,
    pub targets: Seq<TargetView>,
    pub checked: int,
    pub files: Seq<Seq<char>>,
    pub directories: Seq<Seq<char>>,
    pub link_errors: Seq<ErrorView>,
    pub walk_errors: Seq<ErrorView>,
}

impl View for FilesystemCheck {
    type V = CheckView;

    open spec fn view(&self) -> CheckView {
        CheckView {
            wiki_directory: self.wiki_directory@,
            wiki_path: self.wiki_path@,
            targets: target_views(self.targets@),
            checked: self.checked as int,
            files: phrase::text_views(self.files@),
            directories: phrase::text_views(self.directories@),
            link_errors: error::error_views(self.link_errors@),
            walk_errors: error::error_views(self.walk_errors@),
        }
    }
}

/// Whether one of the paths in a sequence has the components of a path.
pub open spec fn lists_path(paths: Seq<Seq<char>>, path: Seq<char>) -> bool {
    exists|i: int| 0 <= i < paths.len() && path_util::same_components(#[trigger] paths[i], path)
}

/// Test whether one of the paths in a vector has the components of a path.
pub fn contains_path(paths: &Vec<String>, path: &str) -> (result: bool)
    ensures
        result == lists_path(phrase::text_views(paths@), path@),
{
    let ghost views = phrase::text_views(paths@);
    let mut i: usize = 0;
    while i < paths.len()
        invariant
            views == phrase::text_views(paths@),
            i <= paths@.len(),
            forall|j: int|
                0 <= j < i ==> !path_util::same_components(#[trigger] views[j], path@),
        decreases paths.len() - i,
    {
        proof {
            assert(views[i as int] == paths@[i as int]@);
        }
        if path_util::same_path(paths[i].as_str(), path) {
            return true;
        }
        i = i + 1;
    }
    false
}

/// The check before anything has been observed.
pub open spec fn initial_check(
    nodes: Seq<NodeView>,
    wiki_directory: Seq<char>,
    wiki_path: Seq<char>,
) -> CheckView {
    CheckView {
        wiki_directory,
        wiki_path,
        targets: targets_of(wiki_directory, all_links(wiki::nodes_by_title(nodes))),
        checked: 0,
        files: Seq::empty(),
        directories: Seq::empty(),
        link_errors: Seq::empty(),
        walk_errors: Seq::empty(),
    }
}

impl CheckView {
    /// Whether another target is to be looked at. The check gives up on targets once they have used
    /// up the error budget.
    pub open spec fn has_next_target(self) -> bool {
        self.checked < self.targets.len() && self.link_errors.len() < MAX_FILESYSTEM_ERRORS
    }

    /// The check after a look at its next target.
    pub open spec fn after_target(
        self,
        path: Option<Seq<char>>,
        s: Seq<char>,
        state: TargetState,
    ) -> CheckView {
        let target = self.targets[self.checked];
        CheckView {
            checked: self.checked + 1,
            files: if target.kind == TargetKind::File && state is File {
                self.files.push(target.location)
            } else {
                self.files
            },
            directories: if target.kind == TargetKind::Directory && state is Directory {
                self.directories.push(target.location)
            } else {
                self.directories
            },
            link_errors: self.link_errors + state_errors(path, s, target, state),
            ..self
        }
    }

    /// Whether the entries below the wiki's directory are to be looked at: not if links have used up
    /// the error budget, and not if the wiki links to its directory.
    pub open spec fn needs_walk(self) -> bool {
        self.link_errors.len() < MAX_FILESYSTEM_ERRORS && !lists_path(
            self.directories,
            self.wiki_directory,
        )
    }

    /// Whether an entry is to be looked at: not if it is the wiki, and not if it is a directory that
    /// the wiki links to.
    pub open spec fn visits(self, path: Seq<char>) -> bool {
        !path_util::same_components(path, self.wiki_path) && !lists_path(self.directories, path)
    }

    /// Whether there is room for another error.
    pub open spec fn has_room(self) -> bool {
        self.link_errors.len() + self.walk_errors.len() < MAX_FILESYSTEM_ERRORS
    }

    /// The check after a look at an entry.
    pub open spec fn after_entry(
        self,
        path: Option<Seq<char>>,
        entry: Seq<char>,
        is_file: bool,
    ) -> CheckView {
        if is_file && !lists_path(self.files, entry) {
            CheckView {
                walk_errors: self.walk_errors.push(
                    error::file_error(
                        "File "@ + phrase::code(path_util::relative(self.wiki_directory, entry))
                            + " is not referenced."@,
                        path,
                        None,
                    ),
                ),
                ..self
            }
        } else {
            self
        }
    }

    /// The check after the entries could not be looked at.
    pub open spec fn after_failure(
        self,
        message: Seq<char>,
        path: Option<Seq<char>>,
        reason: Reason,
    ) -> CheckView {
        CheckView {
            walk_errors: self.walk_errors.push(error::file_error(message, path, Some(reason))),
            ..self
        }
    }
}

/// Whether texts may be the texts of errors.
pub open spec fn are_error_texts(errors: Seq<Error>, colorized: bool, texts: Seq<Seq<char>>) -> bool {
    &&& texts.len() == errors.len()
    &&& forall|i: int|
        0 <= i < errors.len() ==> error::is_error_text(errors[i], colorized, #[trigger] texts[i])
}

/// The keys that order texts.
pub open spec fn text_keys(texts: Seq<Seq<char>>) -> Seq<Seq<u64>> {
    texts.map_values(|text: Seq<char>| order::text_key(text))
}

/// Items in the order of the texts that belong to them.
pub open spec fn ordered_by_text<T>(items: Seq<T>, texts: Seq<Seq<char>>) -> Seq<T> {
    order::arranged(items, order::sort_order(text_keys(texts)))
}

/// What decides whether an entry below the wiki's directory is to be looked at. It holds nothing but
/// paths, so that threads can share it.
#[derive(Clone, Debug)]
pub struct EntryFilter {
    pub wiki_path: String,
    pub directories: Vec<String>,
}

impl EntryFilter {
    /// Whether an entry is to be looked at.
    pub open spec fn visits_path(self, path: Seq<char>) -> bool {
        !path_util::same_components(path, self.wiki_path@) && !lists_path(
            phrase::text_views(self.directories@),
            path,
        )
    }

    /// Whether an entry below the wiki's directory is to be looked at, along with what is below it.
    pub fn visits(&self, path: &str) -> (result: bool)
        ensures
            result == self.visits_path(path@),
    {
        !path_util::same_path(path, self.wiki_path.as_str()) && !contains_path(
            &self.directories,
            path,
        )
    }
}

impl FilesystemCheck {
    /// Start a check of the filesystem around a wiki.
    pub fn new(wiki: &Wiki, wiki_directory: &str, wiki_path: &str) -> (check: FilesystemCheck)
        ensures
            check@ == initial_check(wiki@, wiki_directory@, wiki_path@),
    {
        let links = links_by_title(wiki);
        let ghost views = link_ref_views(links@);
        let mut targets: Vec<Target> = Vec::new();
        let mut i: usize = 0;
        proof {
            assert(target_views(targets@) =~= targets_of(wiki_directory@, views.take(0)));
        }
        while i < links.len()
            invariant
                views == link_ref_views(links@),
                i <= links@.len(),
                target_views(targets@) == targets_of(wiki_directory@, views.take(i as int)),
            decreases links.len() - i,
        {
            let ghost before = target_views(targets@);
            proof {
                assert(views[i as int] == links@[i as int]@);
                assert(views.take(i + 1).drop_last() =~= views.take(i as int));
                assert(views.take(i + 1).last() == views[i as int]);
            }
            match links[i] {
                Link::Text { title, source_range } => {},
                Link::File { path, source_range } => {
                    let target = Target {
                        kind: TargetKind::File,
                        path: path.clone(),
                        location: path_util::join(wiki_directory, path.as_str()),
                        source_range: *source_range,
                    };
                    targets.push(target);
                    proof {
                        assert(target_views(targets@) =~= before.push(target@));
                    }
                },
                Link::Directory { path, source_range } => {
                    let target = Target {
                        kind: TargetKind::Directory,
                        path: path.clone(),
                        location: path_util::join(wiki_directory, path.as_str()),
                        source_range: *source_range,
                    };
                    targets.push(target);
                    proof {
                        assert(target_views(targets@) =~= before.push(target@));
                    }
                },
            }
            proof {
                assert(target_views(targets@) =~= before + link_targets(
                    wiki_directory@,
                    views[i as int],
                ));
            }
            i = i + 1;
        }
        let check = FilesystemCheck {
            wiki_directory: wiki_directory.to_owned(),
            wiki_path: wiki_path.to_owned(),
            targets,
            checked: 0,
            files: Vec::new(),
            directories: Vec::new(),
            link_errors: Vec::new(),
            walk_errors: Vec::new(),
        };
        proof {
            let start = initial_check(wiki@, wiki_directory@, wiki_path@);
            assert(views.take(i as int) =~= views);
            assert(check@.files =~= start.files);
            assert(check@.directories =~= start.directories);
            assert(check@.link_errors =~= start.link_errors);
            assert(check@.walk_errors =~= start.walk_errors);
        }
        check
    }

    /// Find the location of the next target to look at.
    pub fn next_target(&self) -> (location: Option<&str>)
        ensures
            match location {
                Some(location) => self@.has_next_target() && location@
                    == self@.targets[self@.checked].location,
                None => !self@.has_next_target(),
            },
    {
        if self.checked < self.targets.len() && self.link_errors.len() < MAX_FILESYSTEM_ERRORS {
            proof {
                assert(self@.targets[self@.checked] == self.targets@[self.checked as int]@);
            }
            Some(self.targets[self.checked].location.as_str())
        } else {
            None
        }
    }

    /// Take in what the filesystem has at the next target: retain correctly typed targets and report
    /// the others.
    pub fn observe_target(
        &mut self,
        state: TargetState,
        source_path: Option<&str>,
        source: &Text,
    )
        requires
            source.wf(),
            old(self)@.has_next_target(),
        ensures
            final(self)@ == old(self)@.after_target(
                error::optional_text(source_path),
                source@,
                state,
            ),
    {
        let ghost before = self@;
        let ghost path = error::optional_text(source_path);
        let ghost s = source@;
        let ghost target_view = before.targets[before.checked];
        proof {
            assert(target_view == self.targets@[self.checked as int]@);
        }
        let total: usize = self.targets.len();
        proof {
            assert(self.checked < total);
        }
        let kind = self.targets[self.checked].kind;
        let range = self.targets[self.checked].source_range;
        let location = self.targets[self.checked].location.clone();
        let name = phrase::code_str(self.targets[self.checked].path.as_str());
        let ghost expected = state_errors(path, s, target_view, state);
        let mut found: Option<Error> = None;
        match state {
            TargetState::NotFound(reason) => {
                let mut message = name;
                message.append(" not found.");
                found = Some(Error::at(message, source_path, source, range, Some(reason)));
            },
            TargetState::Inaccessible(reason) => {
                let message = phrase::concat3("Unable to access ", name.as_str(), ".");
                found = Some(Error::at(message, source_path, source, range, Some(reason)));
            },
            TargetState::File => {
                if kind == TargetKind::File {
                    self.files.push(location);
                } else {
                    let mut message = name;
                    message.append(" is not a directory.");
                    found = Some(Error::at(message, source_path, source, range, None));
                }
            },
            TargetState::Directory => {
                if kind == TargetKind::Directory {
                    self.directories.push(location);
                } else {
                    let mut message = name;
                    message.append(" is not a file.");
                    found = Some(Error::at(message, source_path, source, range, None));
                }
            },
            TargetState::Other => {
                let mut message = name;
                if kind == TargetKind::File {
                    message.append(" is not a file.");
                } else {
                    message.append(" is not a directory.");
                }
                found = Some(Error::at(message, source_path, source, range, None));
            },
        }
        if let Some(error) = found {
            self.link_errors.push(error);
            proof {
                assert(expected =~= seq![error@]);
                assert(self@.link_errors =~= before.link_errors.push(error@));
            }
        }
        self.checked = self.checked + 1;
        proof {
            let after = before.after_target(path, s, state);
            assert(self@.files =~= after.files);
            assert(self@.directories =~= after.directories);
            assert(self@.link_errors =~= after.link_errors);
        }
    }

    /// Whether the entries below the wiki's directory are to be looked at.
    pub fn needs_walk(&self) -> (result: bool)
        ensures
            result == self@.needs_walk(),
    {
        self.link_errors.len() < MAX_FILESYSTEM_ERRORS && !contains_path(
            &self.directories,
            self.wiki_directory.as_str(),
        )
    }

    /// Take out what decides whether an entry is to be looked at.
    pub fn entry_filter(&self) -> (filter: EntryFilter)
        ensures
            forall|path: Seq<char>| #[trigger] filter.visits_path(path) == self@.visits(path),
    {
        let mut directories: Vec<String> = Vec::new();
        let mut i: usize = 0;
        while i < self.directories.len()
            invariant
                i <= self.directories@.len(),
                directories@.len() == i,
                forall|j: int| 0 <= j < i ==> directories@[j]@ == #[trigger] self.directories@[j]@,
            decreases self.directories.len() - i,
        {
            directories.push(self.directories[i].clone());
            i = i + 1;
        }
        proof {
            assert(phrase::text_views(directories@) =~= phrase::text_views(self.directories@));
        }
        EntryFilter { wiki_path: self.wiki_path.clone(), directories }
    }

    /// Whether an entry below the wiki's directory is to be looked at, along with what is below it.
    pub fn visits(&self, path: &str) -> (result: bool)
        ensures
            result == self@.visits(path@),
    {
        !path_util::same_path(path, self.wiki_path.as_str()) && !contains_path(
            &self.directories,
            path,
        )
    }

    /// Whether there is room for another error.
    pub fn has_room(&self) -> (result: bool)
        ensures
            result == self@.has_room(),
    {
        self.link_errors.len() < MAX_FILESYSTEM_ERRORS && self.walk_errors.len()
            < MAX_FILESYSTEM_ERRORS - self.link_errors.len()
    }

    /// Take in an entry below the wiki's directory: report a file that the wiki does not link to.
    pub fn observe_entry(&mut self, entry: &str, is_file: bool, source_path: Option<&str>)
        requires
            old(self)@.has_room(),
        ensures
            final(self)@ == old(self)@.after_entry(
                error::optional_text(source_path),
                entry@,
                is_file,
            ),
    {
        let ghost before = self@;
        if is_file && !contains_path(&self.files, entry) {
            let shown = path_util::relative_path(self.wiki_directory.as_str(), entry);
            let name = phrase::code_str(shown.as_str());
            let message = phrase::concat3("File ", name.as_str(), " is not referenced.");
            let error = Error::of_file(message, source_path, None);
            self.walk_errors.push(error);
            proof {
                assert(self@.walk_errors =~= before.walk_errors.push(error@));
            }
        }
    }

    /// Take in that an entry below the wiki's directory could not be looked at.
    pub fn observe_walk_failure(&mut self, reason: Reason, source_path: Option<&str>)
        requires
            old(self)@.has_room(),
        ensures
            final(self)@ == old(self)@.after_failure(
                "Unable to walk wiki directory."@,
                error::optional_text(source_path),
                reason,
            ),
    {
        let ghost before = self@;
        let error = Error::of_file(
            "Unable to walk wiki directory.".to_owned(),
            source_path,
            Some(reason),
        );
        self.walk_errors.push(error);
        proof {
            assert(self@.walk_errors =~= before.walk_errors.push(error@));
        }
    }

    /// Take in that there are no rules for what to look at.
    pub fn observe_rules_failure(&mut self, reason: Reason, source_path: Option<&str>)
        requires
            old(self)@.has_room(),
        ensures
            final(self)@ == old(self)@.after_failure(
                "Unable to build filesystem ignore rules."@,
                error::optional_text(source_path),
                reason,
            ),
    {
        let ghost before = self@;
        let error = Error::of_file(
            "Unable to build filesystem ignore rules.".to_owned(),
            source_path,
            Some(reason),
        );
        self.walk_errors.push(error);
        proof {
            assert(self@.walk_errors =~= before.walk_errors.push(error@));
        }
    }

    /// End the check: the errors for links in the order of the links, and then those for entries in
    /// the order of their texts.
    pub fn finish_with(self, colorized: bool) -> (errors: Vec<Error>)
        ensures
            exists|texts: Seq<Seq<char>>|
                {
                    &&& are_error_texts(self.walk_errors@, colorized, texts)
                    &&& error::error_views(errors@) == self@.link_errors
                        + #[trigger] ordered_by_text(self@.walk_errors, texts)
                },
            !colorized ==> error::error_views(errors@) == self@.link_errors + ordered_by_text(
                self@.walk_errors,
                self.walk_errors@.map_values(|error: Error| error::plain_error(error)),
            ),
    {
        let ghost links = self@.link_errors;
        let ghost walks = self.walk_errors@;
        let ghost walk_views = self@.walk_errors;
        let mut texts: Vec<String> = Vec::new();
        let mut keys: Vec<Vec<u64>> = Vec::new();
        let mut i: usize = 0;
        while i < self.walk_errors.len()
            invariant
                walks == self.walk_errors@,
                i <= walks.len(),
                texts@.len() == i,
                keys@.len() == i,
                forall|j: int|
                    0 <= j < i ==> error::is_error_text(
                        walks[j],
                        colorized,
                        #[trigger] texts@[j]@,
                    ),
                !colorized ==> forall|j: int|
                    0 <= j < i ==> #[trigger] texts@[j]@ == error::plain_error(walks[j]),
                forall|j: int|
                    0 <= j < i ==> #[trigger] keys@[j]@ == order::text_key(texts@[j]@),
            decreases self.walk_errors.len() - i,
        {
            let text = self.walk_errors[i].render(colorized);
            keys.push(order::key_of_text(text::chars_of(text.as_str()).as_slice()));
            texts.push(text);
            i = i + 1;
        }
        let ghost views = phrase::text_views(texts@);
        proof {
            assert(order::key_views(keys@) =~= text_keys(views));
            order::lemma_sort_order_sorts(text_keys(views));
        }
        let order = order::sort(&keys);
        let ghost indices = order::index_views(order@);
        proof {
            assert forall|a: int, b: int|
                #![trigger order@[a], order@[b]]
                0 <= a < b < order@.len() implies order@[a] != order@[b] by {
                order::lemma_sort_order_distinct(text_keys(views), indices, a, b);
                assert(indices[a] == order@[a] as int);
                assert(indices[b] == order@[b] as int);
            }
        }
        let mut sorted = order::arrange(self.walk_errors, &order);
        let ghost sorted_views = error::error_views(sorted@);
        proof {
            assert forall|a: int| 0 <= a < order@.len() implies 0 <= #[trigger] indices[a]
                < walks.len() by {
                assert(indices[a] == order@[a] as int);
            }
            assert(sorted_views =~= order::arranged(walk_views, indices));
        }
        let mut errors = self.link_errors;
        errors.append(&mut sorted);
        proof {
            assert(error::error_views(errors@) =~= links + ordered_by_text(walk_views, views));
            assert forall|j: int| 0 <= j < walks.len() implies error::is_error_text(
                walks[j],
                colorized,
                #[trigger] views[j],
            ) by {
                assert(views[j] == texts@[j]@);
            }
            assert(are_error_texts(walks, colorized, views));
            if !colorized {
                assert(views =~= walks.map_values(|error: Error| error::plain_error(error)));
            }
        }
        errors
    }

    /// End the check.
    pub fn finish(self) -> (errors: Vec<Error>)
        ensures
            exists|colorized: bool, texts: Seq<Seq<char>>|
                {
                    &&& #[trigger] are_error_texts(self.walk_errors@, colorized, texts)
                    &&& error::error_views(errors@) == self@.link_errors + ordered_by_text(
                        self@.walk_errors,
                        texts,
                    )
                },
    {
        self.finish_with(paint::should_colorize())
    }
}

/// The directory of a wiki, and the wiki's path by way of that directory. A wiki that is given by
/// its name alone is in the current directory.
pub open spec fn wiki_place(path: Seq<char>) -> Option<(Seq<char>, Seq<char>)> {
    let directory = match path_util::parent_of(path) {
        Some(above) => if above.len() == 0 {
            "."@
        } else {
            above
        },
        None => "."@,
    };
    match path_util::file_name_of(path) {
        Some(name) => Some((directory, path_util::join_of(directory, name))),
        None => None,
    }
}

/// Derive the paths that a filesystem check needs from the path of a wiki.
pub fn place_of(wiki_path: &str) -> (result: Option<(String, String)>)
    ensures
        match result {
            Some((directory, path)) => wiki_place(wiki_path@) == Some((directory@, path@)),
            None => wiki_place(wiki_path@) == None::<(Seq<char>, Seq<char>)>,
        },
{
    let directory = match path_util::parent(wiki_path) {
        Some(above) => if above.as_str().is_empty() {
            ".".to_owned()
        } else {
            above
        },
        None => ".".to_owned(),
    };
    match path_util::file_name(wiki_path) {
        Some(name) => {
            let path = path_util::join(directory.as_str(), name.as_str());
            Some((directory, path))
        },
        None => None,
    }
}

/// The errors of a wiki, given those of the filesystem around it.
pub open spec fn wiki_errors(
    nodes: Seq<NodeView>,
    wiki_path: Option<Seq<char>>,
    path: Option<Seq<char>>,
    s: Seq<char>,
    filesystem: Seq<ErrorView>,
) -> Seq<ErrorView> {
    graph_errors(path, s, nodes) + match wiki_path {
        None => untitled_errors(path, s, nodes),
        Some(wiki_path) => if wiki_place(wiki_path) is None {
            seq![
                error::file_error(
                    "Unable to determine the file name of "@ + phrase::code(wiki_path) + "."@,
                    path,
                    None,
                ),
            ]
        } else {
            filesystem
        },
    }
}

/// Convert collected validation errors into the public result type.
pub fn errors_to_result(errors: Vec<Error>) -> (result: Result<(), Vec<Error>>)
    ensures
        match result {
            Ok(_) => errors@.len() == 0,
            Err(found) => errors@.len() > 0 && found == errors,
        },
{
    if errors.len() == 0 {
        Ok(())
    } else {
        Err(errors)
    }
}

/// Check text links, reachability and filesystem links, and take in the errors that a check of the
/// filesystem around the wiki found.
pub fn validate(
    wiki: &Wiki,
    location: WikiLocation,
    source_contents: &str,
    filesystem_errors: Vec<Error>,
) -> (result: Result<(), Vec<Error>>)
    ensures
        ({
            let errors = wiki_errors(
                wiki@,
                location.path_text(),
                location.display_text(),
                source_contents@,
                error::error_views(filesystem_errors@),
            );
            match result {
                Ok(_) => errors.len() == 0,
                Err(found) => errors.len() > 0 && error::error_views(found@) == errors,
            }
        }),
{
    // Preserve graph errors if resolving the wiki later fails.
    let ghost filesystem = error::error_views(filesystem_errors@);
    let text = Text::new(source_contents);
    let source_path = location.display_path();
    let mut errors = validate_text_links(wiki, source_path, &text);
    let ghost graph = error::error_views(errors@);

    // Report each filesystem link precisely when an editor buffer has no filesystem context.
    let mut rest = match location.path() {
        None => validate_untitled_filesystem_links(wiki, source_path, &text),
        Some(wiki_path) => match place_of(wiki_path) {
            Some(place) => filesystem_errors,
            None => {
                let name = phrase::code_str(wiki_path);
                let message = phrase::concat3(
                    "Unable to determine the file name of ",
                    name.as_str(),
                    ".",
                );
                let error = Error::of_file(message, source_path, None);
                let mut unresolved: Vec<Error> = Vec::new();
                unresolved.push(error);
                proof {
                    assert(error::error_views(unresolved@) =~= seq![error@]);
                }
                unresolved
            },
        },
    };
    let ghost more = error::error_views(rest@);
    errors.append(&mut rest);
    proof {
        assert(error::error_views(errors@) =~= graph + more);
        assert(errors@.len() == error::error_views(errors@).len());
    }
    errors_to_result(errors)
}

/// Whether every text link of every node leads to a node.
pub open spec fn links_have_targets(nodes: Seq<NodeView>) -> bool {
    forall|i: int, k: int|
        0 <= i < nodes.len() && 0 <= k < nodes[i].links.len() ==> match (
        #[trigger] nodes[i].links[k]) {
            LinkView::Text { title, span } => wiki::has_title(nodes, title),
            LinkView::File { path, span } => true,
            LinkView::Directory { path, span } => true,
        }
}

/// Whether every node can be reached from the home node.
pub open spec fn all_reachable(nodes: Seq<NodeView>) -> bool {
    forall|i: int| 0 <= i < nodes.len() ==> (#[trigger] nodes[i]).depth is Some
}

proof fn lemma_targets_errors(
    path: Option<Seq<char>>,
    s: Seq<char>,
    nodes: Seq<NodeView>,
    links: Seq<LinkView>,
)
    ensures
        targets_errors(path, s, nodes, links).len() == 0 <==> forall|k: int|
            0 <= k < links.len() ==> target_errors(path, s, nodes, #[trigger] links[k]).len() == 0,
    decreases links.len(),
{
    if links.len() > 0 {
        let front = links.drop_last();
        lemma_targets_errors(path, s, nodes, front);
        assert(forall|k: int| 0 <= k < front.len() ==> front[k] == #[trigger] links[k]);
        assert(links[links.len() - 1] == links.last());
        if forall|k: int|
            0 <= k < front.len() ==> target_errors(path, s, nodes, #[trigger] front[k]).len()
                == 0 {
            assert forall|k: int| 0 <= k < links.len() - 1 implies target_errors(
                path,
                s,
                nodes,
                #[trigger] links[k],
            ).len() == 0 by {
                assert(front[k] == links[k]);
            }
        } else {
            let k = choose|k: int|
                0 <= k < front.len() && target_errors(path, s, nodes, #[trigger] front[k]).len()
                    != 0;
            assert(links[k] == front[k]);
        }
    }
}

proof fn lemma_reaches_errors(path: Option<Seq<char>>, s: Seq<char>, nodes: Seq<NodeView>)
    ensures
        reaches_errors(path, s, nodes).len() == 0 <==> all_reachable(nodes),
    decreases nodes.len(),
{
    if nodes.len() > 0 {
        let front = nodes.drop_last();
        lemma_reaches_errors(path, s, front);
        assert(forall|k: int| 0 <= k < front.len() ==> front[k] == #[trigger] nodes[k]);
        assert(nodes[nodes.len() - 1] == nodes.last());
        if all_reachable(front) {
            assert forall|k: int| 0 <= k < nodes.len() - 1 implies (#[trigger] nodes[k]).depth is Some by {
                assert(front[k] == nodes[k]);
            }
        } else {
            let k = choose|k: int| 0 <= k < front.len() && (#[trigger] front[k]).depth is None;
            assert(nodes[k] == front[k]);
        }
    }
}

/// Every link of a node is among the links of all nodes.
pub proof fn lemma_all_links_contain(nodes: Seq<NodeView>, i: int, k: int)
    requires
        0 <= i < nodes.len(),
        0 <= k < nodes[i].links.len(),
    ensures
        exists|m: int| 0 <= m < all_links(nodes).len() && #[trigger] all_links(nodes)[m] == nodes[i].links[k],
    decreases nodes.len(),
{
    let before = all_links(nodes.drop_last());
    if i == nodes.len() - 1 {
        assert(all_links(nodes)[before.len() + k] == nodes[i].links[k]);
    } else {
        lemma_all_links_contain(nodes.drop_last(), i, k);
        let m = choose|m: int|
            0 <= m < before.len() && #[trigger] before[m] == nodes[i].links[k];
        assert(all_links(nodes)[m] == before[m]);
    }
}

/// Every one of the links of all nodes is a link of some node.
pub proof fn lemma_all_links_come_from(nodes: Seq<NodeView>, m: int)
    requires
        0 <= m < all_links(nodes).len(),
    ensures
        exists|i: int, k: int|
            0 <= i < nodes.len() && 0 <= k < nodes[i].links.len() && all_links(nodes)[m]
                == #[trigger] nodes[i].links[k],
    decreases nodes.len(),
{
    if nodes.len() > 0 {
        let front = nodes.drop_last();
        let before = all_links(front);
        let n = nodes.len() - 1;
        if m < before.len() {
            lemma_all_links_come_from(front, m);
            let (i, k) = choose|i: int, k: int|
                0 <= i < front.len() && 0 <= k < front[i].links.len() && before[m]
                    == #[trigger] front[i].links[k];
            assert(nodes[i].links[k] == all_links(nodes)[m]);
        } else {
            assert(nodes[n].links[m - before.len()] == all_links(nodes)[m]);
        }
    }
}

/// Every node has a place among the nodes by title.
pub proof fn lemma_place_by_title(nodes: Seq<NodeView>, i: int) -> (j: int)
    requires
        0 <= i < nodes.len(),
    ensures
        wiki::nodes_by_title(nodes).len() == nodes.len(),
        0 <= j < nodes.len(),
        wiki::nodes_by_title(nodes)[j] == nodes[i],
{
    let keys = wiki::title_keys(nodes);
    let order = order::sort_order(keys);
    order::lemma_sort_order_sorts(keys);
    order::lemma_sort_order_covers(keys, i);
    choose|j: int| 0 <= j < order.len() && #[trigger] order[j] == i
}

/// Every one of the nodes by title is a node.
pub proof fn lemma_origin_by_title(nodes: Seq<NodeView>, j: int) -> (i: int)
    requires
        0 <= j < wiki::nodes_by_title(nodes).len(),
    ensures
        0 <= i < nodes.len(),
        wiki::nodes_by_title(nodes)[j] == nodes[i],
{
    let keys = wiki::title_keys(nodes);
    order::lemma_sort_order_sorts(keys);
    order::sort_order(keys)[j]
}

/// The text-link graph of a wiki has no errors if and only if there is a home node, every text link
/// leads to a node and every node can be reached from the home node.
pub proof fn law_graph_errors(path: Option<Seq<char>>, s: Seq<char>, nodes: Seq<NodeView>)
    ensures
        graph_errors(path, s, nodes).len() == 0 <==> wiki::has_title(nodes, "Home"@)
            && links_have_targets(nodes) && all_reachable(nodes),
{
    let sorted = wiki::nodes_by_title(nodes);
    let links = all_links(sorted);
    lemma_targets_errors(path, s, nodes, links);
    lemma_reaches_errors(path, s, sorted);
    if targets_errors(path, s, nodes, links).len() == 0 {
        assert forall|i: int, k: int|
            0 <= i < nodes.len() && 0 <= k < nodes[i].links.len() implies match (
        #[trigger] nodes[i].links[k]) {
            LinkView::Text { title, span } => wiki::has_title(nodes, title),
            LinkView::File { path, span } => true,
            LinkView::Directory { path, span } => true,
        } by {
            let j = lemma_place_by_title(nodes, i);
            lemma_all_links_contain(sorted, j, k);
            let m = choose|m: int|
                0 <= m < links.len() && #[trigger] links[m] == sorted[j].links[k];
            assert(target_errors(path, s, nodes, links[m]).len() == 0);
        }
        assert(links_have_targets(nodes));
    }
    if links_have_targets(nodes) {
        assert forall|m: int| 0 <= m < links.len() implies target_errors(
            path,
            s,
            nodes,
            #[trigger] links[m],
        ).len() == 0 by {
            lemma_all_links_come_from(sorted, m);
            let (j, k) = choose|j: int, k: int|
                0 <= j < sorted.len() && 0 <= k < sorted[j].links.len() && links[m]
                    == #[trigger] sorted[j].links[k];
            let i = lemma_origin_by_title(nodes, j);
            assert(nodes[i].links[k] == links[m]);
        }
    }
    if all_reachable(nodes) {
        assert forall|j: int| 0 <= j < sorted.len() implies (#[trigger] sorted[j]).depth is Some by {
            let i = lemma_origin_by_title(nodes, j);
            assert(nodes[i].depth is Some);
        }
    }
    if all_reachable(sorted) {
        assert forall|i: int| 0 <= i < nodes.len() implies (#[trigger] nodes[i]).depth is Some by {
            let j = lemma_place_by_title(nodes, i);
            assert(sorted[j].depth is Some);
        }
    }
}

/// In a parsed wiki whose text-link graph has no errors, text links lead from the home node to every
/// node.
pub proof fn law_every_node_is_reachable(
    path: Option<Seq<char>>,
    s: Seq<char>,
    nodes: Seq<NodeView>,
    j: int,
)
    requires
        parser::parsed(path, s) == Ok::<Seq<NodeView>, Seq<ErrorView>>(nodes),
        graph_errors(path, s, nodes).len() == 0,
        0 <= j < nodes.len(),
    ensures
        exists|length: nat| #[trigger] scoring::walk(nodes, length, j),
{
    let found = parser::outline(path, s).nodes;
    assert(nodes == scoring::scored(found));
    law_graph_errors(path, s, nodes);
    scoring::law_scoring_ignores_old_depths(found, found);
    scoring::law_depth_is_distance(nodes, j);
    assert(nodes[j].depth is Some);
    assert(scoring::walk(nodes, nodes[j].depth->0, j));
}

/// Filesystem errors stay within their budget: neither a look at a target nor one at an entry takes
/// a check beyond it.
pub proof fn law_filesystem_budget(
    check: CheckView,
    path: Option<Seq<char>>,
    s: Seq<char>,
    state: TargetState,
    entry: Seq<char>,
    is_file: bool,
    message: Seq<char>,
    reason: Reason,
)
    ensures
        check.has_next_target() ==> check.after_target(path, s, state).link_errors.len()
            <= MAX_FILESYSTEM_ERRORS,
        check.has_room() ==> {
            let after = check.after_entry(path, entry, is_file);
            after.link_errors.len() + after.walk_errors.len() <= MAX_FILESYSTEM_ERRORS
        },
        check.has_room() ==> {
            let after = check.after_failure(message, path, reason);
            after.link_errors.len() + after.walk_errors.len() <= MAX_FILESYSTEM_ERRORS
        },
{
}

/// A check after a look at one target after the other.
pub open spec fn after_targets(
    check: CheckView,
    path: Option<Seq<char>>,
    s: Seq<char>,
    states: Seq<TargetState>,
) -> CheckView
    decreases states.len(),
{
    if states.len() == 0 {
        check
    } else {
        after_targets(check, path, s, states.drop_last()).after_target(path, s, states.last())
    }
}

/// A check after a look at one entry after the other, each with whether it is a file.
pub open spec fn after_entries(
    check: CheckView,
    path: Option<Seq<char>>,
    entries: Seq<(Seq<char>, bool)>,
) -> CheckView
    decreases entries.len(),
{
    if entries.len() == 0 {
        check
    } else {
        after_entries(check, path, entries.drop_last()).after_entry(
            path,
            entries.last().0,
            entries.last().1,
        )
    }
}

/// Whether the first targets of a check are what their links need.
pub open spec fn targets_match(targets: Seq<TargetView>, states: Seq<TargetState>) -> bool {
    forall|i: int|
        0 <= i < states.len() ==> target_matches((#[trigger] targets[i]).kind, states[i])
}

/// Whether some file link leads to an entry.
pub open spec fn is_linked_file(targets: Seq<TargetView>, entry: Seq<char>) -> bool {
    exists|i: int|
        0 <= i < targets.len() && (#[trigger] targets[i]).kind == TargetKind::File
            && path_util::same_components(targets[i].location, entry)
}

/// What a look at the first targets of a check finds.
proof fn lemma_after_targets(
    check: CheckView,
    path: Option<Seq<char>>,
    s: Seq<char>,
    states: Seq<TargetState>,
)
    requires
        states.len() <= check.targets.len(),
        check.checked == 0,
        check.files.len() == 0,
        check.link_errors.len() == 0,
    ensures
        ({
            let after = after_targets(check, path, s, states);
            &&& after.targets == check.targets
            &&& after.checked == states.len()
            &&& after.walk_errors == check.walk_errors
            &&& after.link_errors.len() == 0 <==> targets_match(check.targets, states)
            &&& targets_match(check.targets, states) ==> forall|entry: Seq<char>|
                #[trigger] lists_path(after.files, entry) == is_linked_file(
                    check.targets.take(states.len() as int),
                    entry,
                )
        }),
    decreases states.len(),
{
    let after = after_targets(check, path, s, states);
    let targets = check.targets;
    if states.len() == 0 {
        assert forall|entry: Seq<char>| #[trigger] lists_path(after.files, entry) == is_linked_file(
            targets.take(0),
            entry,
        ) by {}
    } else {
        let earlier = states.drop_last();
        let n = earlier.len() as int;
        let before = after_targets(check, path, s, earlier);
        let target = targets[n];
        let state = states.last();
        lemma_after_targets(check, path, s, earlier);
        assert(state_errors(path, s, target, state).len() == 0 <==> target_matches(
            target.kind,
            state,
        ));
        if targets_match(targets, states) {
            assert forall|i: int| 0 <= i < earlier.len() implies target_matches(
                (#[trigger] targets[i]).kind,
                earlier[i],
            ) by {
                assert(earlier[i] == states[i]);
            }
            assert(target_matches(targets[n].kind, states[n]));
            lemma_linked_step(before.files, after.files, targets, n);
        }
        if targets_match(targets, earlier) && target_matches(target.kind, state) {
            assert forall|i: int| 0 <= i < states.len() implies target_matches(
                (#[trigger] targets[i]).kind,
                states[i],
            ) by {
                if i < n {
                    assert(earlier[i] == states[i]);
                }
            }
        }
    }
}

/// One more target adds its location to the linked files if it is a file.
proof fn lemma_linked_step(
    before: Seq<Seq<char>>,
    after: Seq<Seq<char>>,
    targets: Seq<TargetView>,
    n: int,
)
    requires
        0 <= n < targets.len(),
        after == if targets[n].kind == TargetKind::File {
            before.push(targets[n].location)
        } else {
            before
        },
        forall|entry: Seq<char>| #[trigger]
            lists_path(before, entry) == is_linked_file(targets.take(n), entry),
    ensures
        forall|entry: Seq<char>| #[trigger]
            lists_path(after, entry) == is_linked_file(targets.take(n + 1), entry),
{
    let fewer = targets.take(n);
    let more = targets.take(n + 1);
    assert forall|entry: Seq<char>| #[trigger] lists_path(after, entry) == is_linked_file(
        more,
        entry,
    ) by {
        assert(lists_path(before, entry) == is_linked_file(fewer, entry));
        if lists_path(after, entry) {
            let i = choose|i: int|
                0 <= i < after.len() && path_util::same_components(#[trigger] after[i], entry);
            if i < before.len() {
                assert(before[i] == after[i]);
                let k = choose|k: int|
                    0 <= k < fewer.len() && (#[trigger] fewer[k]).kind == TargetKind::File
                        && path_util::same_components(fewer[k].location, entry);
                assert(more[k] == fewer[k]);
            } else {
                assert(more[n] == targets[n]);
            }
        }
        if is_linked_file(more, entry) {
            let k = choose|k: int|
                0 <= k < more.len() && (#[trigger] more[k]).kind == TargetKind::File
                    && path_util::same_components(more[k].location, entry);
            if k < n {
                assert(fewer[k] == more[k]);
                let i = choose|i: int|
                    0 <= i < before.len() && path_util::same_components(
                        #[trigger] before[i],
                        entry,
                    );
                assert(after[i] == before[i]);
            } else {
                assert(after[before.len() as int] == targets[n].location);
            }
        }
    }
}

/// What a look at entries finds.
proof fn lemma_after_entries(
    check: CheckView,
    path: Option<Seq<char>>,
    entries: Seq<(Seq<char>, bool)>,
)
    requires
        check.walk_errors.len() == 0,
    ensures
        ({
            let after = after_entries(check, path, entries);
            &&& after.files == check.files
            &&& after.link_errors == check.link_errors
            &&& after.walk_errors.len() == 0 <==> forall|k: int|
                0 <= k < entries.len() && (#[trigger] entries[k]).1 ==> lists_path(
                    check.files,
                    entries[k].0,
                )
        }),
    decreases entries.len(),
{
    if entries.len() > 0 {
        let earlier = entries.drop_last();
        lemma_after_entries(check, path, earlier);
        assert(forall|k: int| 0 <= k < earlier.len() ==> earlier[k] == #[trigger] entries[k]);
        assert(entries[entries.len() - 1] == entries.last());
        if forall|k: int|
            0 <= k < earlier.len() && (#[trigger] earlier[k]).1 ==> lists_path(
                check.files,
                earlier[k].0,
            ) {
            assert forall|k: int|
                0 <= k < entries.len() - 1 && (#[trigger] entries[k]).1 implies lists_path(
                check.files,
                entries[k].0,
            ) by {
                assert(earlier[k] == entries[k]);
            }
        } else {
            let k = choose|k: int|
                0 <= k < earlier.len() && (#[trigger] earlier[k]).1 && !lists_path(
                    check.files,
                    earlier[k].0,
                );
            assert(entries[k] == earlier[k]);
        }
    }
}

/// The filesystem check of a wiki finds no errors if and only if every filesystem link leads to
/// something of its kind and every file that the walk comes upon is linked.
pub proof fn law_filesystem_errors(
    nodes: Seq<NodeView>,
    directory: Seq<char>,
    wiki_path: Seq<char>,
    path: Option<Seq<char>>,
    s: Seq<char>,
    states: Seq<TargetState>,
    entries: Seq<(Seq<char>, bool)>,
)
    requires
        states.len() == initial_check(nodes, directory, wiki_path).targets.len(),
    ensures
        ({
            let start = initial_check(nodes, directory, wiki_path);
            let after = after_entries(after_targets(start, path, s, states), path, entries);
            after.link_errors.len() == 0 && after.walk_errors.len() == 0 <==> targets_match(
                start.targets,
                states,
            ) && forall|k: int|
                0 <= k < entries.len() && (#[trigger] entries[k]).1 ==> is_linked_file(
                    start.targets,
                    entries[k].0,
                )
        }),
{
    let start = initial_check(nodes, directory, wiki_path);
    let looked = after_targets(start, path, s, states);
    lemma_after_targets(start, path, s, states);
    lemma_after_entries(looked, path, entries);
    assert(start.targets.take(states.len() as int) =~= start.targets);
    if targets_match(start.targets, states) {
        assert forall|k: int|
            0 <= k < entries.len() && (#[trigger] entries[k]).1 implies lists_path(
            looked.files,
            entries[k].0,
        ) == is_linked_file(start.targets, entries[k].0) by {}
    }
}

/// A link to a file or directory that is there, and is of the right kind, covers it: the walk does
/// not report a linked file and does not enter a linked directory.
pub proof fn law_links_cover(
    check: CheckView,
    path: Option<Seq<char>>,
    s: Seq<char>,
    state: TargetState,
    entry: Seq<char>,
)
    requires
        check.has_next_target(),
        target_matches(check.targets[check.checked].kind, state),
        path_util::same_components(check.targets[check.checked].location, entry),
    ensures
        ({
            let after = check.after_target(path, s, state);
            match check.targets[check.checked].kind {
                TargetKind::File => after.after_entry(path, entry, true) == after,
                TargetKind::Directory => !after.visits(entry),
            }
        }),
{
    let target = check.targets[check.checked];
    let after = check.after_target(path, s, state);
    match target.kind {
        TargetKind::File => {
            assert(after.files[check.files.len() as int] == target.location);
            assert(lists_path(after.files, entry));
        },
        TargetKind::Directory => {
            assert(after.directories[check.directories.len() as int] == target.location);
            assert(lists_path(after.directories, entry));
        },
    }
}

} // verus!
