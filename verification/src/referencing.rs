//! What a check of the files around a document reports: every file and directory that no link leads to,
//! and nothing else.

use vstd::prelude::*;

use crate::document;
use crate::document::LinkView;
use crate::document::NodeView;
use crate::leading;
use crate::ordering;
use crate::path_util;
use crate::validate;
use crate::validate::CheckView;
use crate::validate::DocumentCheck;
use crate::validate::EntryKind;
use crate::validate::TargetOutcome;
use crate::validate::TargetView;
use crate::validator;

verus! {

/// Whether one of several paths has the components of a path.
pub open spec fn is_among(paths: Seq<Seq<char>>, path: Seq<char>) -> bool {
    exists|i: int|
        0 <= i < paths.len() && path_util::components(#[trigger] paths[i]) == path_util::components(path)
}

/// Whether a path is listed does not depend on how it is spelled.
pub proof fn lemma_among(paths: Seq<Seq<char>>, path: Seq<char>)
    ensures
        validator::lists_path(paths, path) <==> is_among(paths, path),
{
    if is_among(paths, path) {
        let i = choose|i: int|
            0 <= i < paths.len() && path_util::components(#[trigger] paths[i])
                == path_util::components(path);
        assert(path_util::same_components(paths[i], path));
    }
    if validator::lists_path(paths, path) {
        let i = choose|i: int|
            0 <= i < paths.len() && path_util::same_components(#[trigger] paths[i], path);
        assert(path_util::components(paths[i]) == path_util::components(path));
    }
}

/// The check passes over an entry exactly if a directory link of the document led to it.
pub proof fn law_only_referenced_directories_are_passed_over(check: DocumentCheck, path: &str, result: bool)
    requires
        call_ensures(DocumentCheck::visits, (&check, path), result),
    ensures
        result <==> !is_among(check@.directories, path@),
{
    lemma_among(check@.directories, path@);
}

/// Whether a text says that something at a path shown from a directory is not referenced.
pub open spec fn reports(message: Seq<char>, directory: Seq<char>, path: Seq<char>) -> bool {
    exists|before: Seq<char>, shown: Seq<char>, after: Seq<char>|
        {
            &&& message == #[trigger] (before + shown + after)
            &&& path_util::components(directory).is_prefix_of(path_util::components(path))
                ==> path_util::components(shown) == path_util::components(path).skip(
                path_util::components(directory).len() as int,
            )
        }
}

/// A look at an entry is reported exactly if the entry is neither the document nor its directory, and is
/// a file that no link led to or a directory. Reports are never taken back.
pub proof fn law_unreferenced_entries_are_reported(check: CheckView, path: Seq<char>, kind: EntryKind)
    ensures
        ({
            let after = check.after_entry(path, kind);
            let is_exempt = path_util::components(path) == path_util::components(check.directory)
                || path_util::components(path) == path_util::components(check.document_path);
            let is_reported = !is_exempt && (kind == EntryKind::Directory || kind == EntryKind::File
                && !is_among(check.files, path));
            &&& after.errors.len() == check.errors.len() + if is_reported {
                1int
            } else {
                0
            }
            &&& check.errors.is_prefix_of(after.errors)
            &&& is_reported ==> reports(after.errors.last(), check.directory, path)
            &&& after.files == check.files
            &&& after.directories == check.directories
        }),
{
    lemma_among(check.files, path);
    leading::law_relative_paths_drop_the_base(check.directory, path);
    let shown = path_util::relative(check.directory, path);
    let file = "File "@ + shown + " is not referenced."@;
    let directory = "Directory "@ + shown + " is not referenced."@;
    assert(reports(file, check.directory, path));
    assert(reports(directory, check.directory, path));
    let after = check.after_entry(path, kind);
    assert(check.errors.is_prefix_of(after.errors));
}

/// The check accepts a document exactly if there is nothing to report.
pub proof fn law_documents_are_accepted_without_reports(check: CheckView)
    ensures
        check.result() is Ok <==> check.errors.len() == 0,
{
}

/// A link is accepted exactly if it leads to something of its kind that can be resolved, and what is
/// remembered is where it leads, among the directories or among the files.
pub proof fn law_targets_are_judged_by_kind(
    check: CheckView,
    target: TargetView,
    quoted_title: Seq<char>,
    outcome: TargetOutcome,
)
    requires
        0 <= check.checked < check.targets.len(),
        check.targets[check.checked] == target,
    ensures
        validate::target_result(target, quoted_title, outcome) is Ok <==> (
        outcome matches TargetOutcome::Found { is_file, is_directory, resolved } && resolved is Ok && if
            target.expect_directory {
            is_directory
        } else {
            is_file
        }),
        validate::target_result(target, quoted_title, outcome) matches Ok(path) ==> {
            let after = check.after_target(path);
            &&& outcome matches TargetOutcome::Found { is_file, is_directory, resolved: Ok(found) }
                && found@ == path
            &&& after.checked == check.checked + 1
            &&& after.errors == check.errors
            &&& target.expect_directory ==> after.directories == check.directories.push(path)
                && after.files == check.files
            &&& !target.expect_directory ==> after.files == check.files.push(path)
                && after.directories == check.directories
        },
{
}

/// Whether a target comes from a link of a node.
pub open spec fn comes_from(target: TargetView, node: NodeView, link: LinkView) -> bool {
    &&& target.node_title == node.title
    &&& match link {
        LinkView::Text(title) => false,
        LinkView::File(path) => target.path == path && !target.expect_directory,
        LinkView::Directory(path) => target.path == path && target.expect_directory,
    }
}

/// Whether one of several targets comes from a link of a node.
pub open spec fn has_target(targets: Seq<TargetView>, node: NodeView, link: LinkView) -> bool {
    exists|t: int| 0 <= t < targets.len() && comes_from(#[trigger] targets[t], node, link)
}

proof fn lemma_link_target(node: NodeView, links: Seq<LinkView>, k: int) -> (t: int)
    requires
        0 <= k < links.len(),
        !(links[k] is Text),
    ensures
        0 <= t < validate::link_targets(node.title, links).len(),
        comes_from(validate::link_targets(node.title, links)[t], node, links[k]),
    decreases links.len(),
{
    let front = links.drop_last();
    let before = validate::link_targets(node.title, front);
    if k == links.len() - 1 {
        before.len() as int
    } else {
        assert(front[k] == links[k]);
        let t = lemma_link_target(node, front, k);
        assert(validate::link_targets(node.title, links)[t] == before[t]);
        t
    }
}

proof fn lemma_node_target(nodes: Seq<NodeView>, i: int, k: int) -> (t: int)
    requires
        0 <= i < nodes.len(),
        0 <= k < nodes[i].links.len(),
        !(nodes[i].links[k] is Text),
    ensures
        0 <= t < validate::targets_of(nodes).len(),
        comes_from(validate::targets_of(nodes)[t], nodes[i], nodes[i].links[k]),
    decreases nodes.len(),
{
    let front = nodes.drop_last();
    let before = validate::targets_of(front);
    if i < nodes.len() - 1 {
        assert(front[i] == nodes[i]);
        let t = lemma_node_target(front, i, k);
        assert(validate::targets_of(nodes)[t] == before[t]);
        t
    } else {
        let node = nodes[i];
        let sorted = validate::sorted_links(node.links);
        let at = ordering::lemma_sorted_link(node.links, k);
        let t = lemma_link_target(node, sorted, at);
        let mine = validate::link_targets(node.title, sorted);
        assert(validate::targets_of(nodes) == before + mine);
        assert((before + mine)[before.len() + t] == mine[t]);
        before.len() + t
    }
}

/// Every filesystem link of a document is checked.
pub proof fn law_every_filesystem_link_of_a_document_is_checked(
    nodes: Seq<NodeView>,
    directory: Seq<char>,
    document_path: Seq<char>,
    i: int,
    k: int,
)
    requires
        0 <= i < nodes.len(),
        0 <= k < nodes[i].links.len(),
        !(nodes[i].links[k] is Text),
    ensures
        has_target(
            validate::initial_check(nodes, directory, document_path).targets,
            nodes[i],
            nodes[i].links[k],
        ),
{
    let sorted = document::nodes_by_title(nodes);
    let at = ordering::lemma_sorted_document_node(nodes, i);
    let t = lemma_node_target(sorted, at, k);
    let targets = validate::initial_check(nodes, directory, document_path).targets;
    assert(targets == validate::targets_of(sorted));
    assert(comes_from(targets[t], nodes[i], nodes[i].links[k]));
}

} // verus!
