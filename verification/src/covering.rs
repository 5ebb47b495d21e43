//! What a check of the files around a wiki guarantees: every filesystem link is looked at, and every
//! file that no link covers is reported.

use vstd::prelude::*;

use crate::error::ErrorView;
use crate::path_util;
use crate::phrase;
use crate::validator;
use crate::validator::CheckView;
use crate::validator::TargetKind;
use crate::validator::TargetState;
use crate::validator::TargetView;
use crate::validator::MAX_FILESYSTEM_ERRORS;
use crate::wiki;
use crate::wiki::LinkView;
use crate::wiki::NodeView;

verus! {

/// Whether one of the first targets is a link of a kind that was found to lead to something of that
/// kind, at a place with the components of a path.
pub open spec fn is_found_at(
    targets: Seq<TargetView>,
    states: Seq<TargetState>,
    i: int,
    kind: TargetKind,
    path: Seq<char>,
) -> bool {
    &&& 0 <= i < states.len()
    &&& i < targets.len()
    &&& targets[i].kind == kind
    &&& match kind {
        TargetKind::File => states[i] is File,
        TargetKind::Directory => states[i] is Directory,
    }
    &&& path_util::components(targets[i].location) == path_util::components(path)
}

/// Whether a path was found through a link of a kind.
pub open spec fn is_found(
    targets: Seq<TargetView>,
    states: Seq<TargetState>,
    kind: TargetKind,
    path: Seq<char>,
) -> bool {
    exists|i: int| #[trigger] is_found_at(targets, states, i, kind, path)
}

/// What a check keeps of the targets that it has looked at.
proof fn lemma_looked_at(
    check: CheckView,
    path: Option<Seq<char>>,
    s: Seq<char>,
    states: Seq<TargetState>,
    place: Seq<char>,
)
    requires
        states.len() <= check.targets.len(),
        check.checked == 0,
        check.files.len() == 0,
        check.directories.len() == 0,
    ensures
        ({
            let after = validator::after_targets(check, path, s, states);
            &&& after.wiki_directory == check.wiki_directory
            &&& after.wiki_path == check.wiki_path
            &&& after.targets == check.targets
            &&& after.checked == states.len()
            &&& after.walk_errors == check.walk_errors
            &&& validator::lists_path(after.directories, place) <==> is_found(
                check.targets,
                states,
                TargetKind::Directory,
                place,
            )
            &&& validator::lists_path(after.files, place) <==> is_found(
                check.targets,
                states,
                TargetKind::File,
                place,
            )
        }),
    decreases states.len(),
{
    let after = validator::after_targets(check, path, s, states);
    let targets = check.targets;
    if states.len() > 0 {
        let earlier = states.drop_last();
        let n = earlier.len() as int;
        let before = validator::after_targets(check, path, s, earlier);
        lemma_looked_at(check, path, s, earlier, place);
        lemma_one_more(before.files, after.files, targets, states, TargetKind::File, place);
        lemma_one_more(
            before.directories,
            after.directories,
            targets,
            states,
            TargetKind::Directory,
            place,
        );
    } else {
        assert(!validator::lists_path(after.files, place));
        assert(!validator::lists_path(after.directories, place));
    }
}

/// One more target adds its location if it was found.
proof fn lemma_one_more(
    before: Seq<Seq<char>>,
    after: Seq<Seq<char>>,
    targets: Seq<TargetView>,
    states: Seq<TargetState>,
    kind: TargetKind,
    place: Seq<char>,
)
    requires
        0 < states.len() <= targets.len(),
        validator::lists_path(before, place) <==> is_found(
            targets,
            states.drop_last(),
            kind,
            place,
        ),
        ({
            let target = targets[states.len() - 1];
            let found = target.kind == kind && match kind {
                TargetKind::File => states.last() is File,
                TargetKind::Directory => states.last() is Directory,
            };
            after == if found {
                before.push(target.location)
            } else {
                before
            }
        }),
    ensures
        validator::lists_path(after, place) <==> is_found(targets, states, kind, place),
{
    let earlier = states.drop_last();
    let n = states.len() - 1;
    if validator::lists_path(after, place) {
        let m = choose|m: int|
            0 <= m < after.len() && path_util::same_components(#[trigger] after[m], place);
        if m < before.len() {
            assert(before[m] == after[m]);
            let i = choose|i: int| #[trigger] is_found_at(targets, earlier, i, kind, place);
            assert(is_found_at(targets, states, i, kind, place));
        } else {
            assert(is_found_at(targets, states, n, kind, place));
        }
    }
    if is_found(targets, states, kind, place) {
        let i = choose|i: int| #[trigger] is_found_at(targets, states, i, kind, place);
        if i < n {
            assert(is_found_at(targets, earlier, i, kind, place));
            let m = choose|m: int|
                0 <= m < before.len() && path_util::same_components(#[trigger] before[m], place);
            assert(after[m] == before[m]);
        } else {
            assert(after[before.len() as int] == targets[n].location);
        }
    }
}

/// As long as links have left room for errors, the files around a wiki are looked at unless a directory
/// link was found to lead to the wiki's own directory. So a wiki without filesystem links always has the
/// files around it looked at.
pub proof fn law_walk_is_skipped_only_for_a_linked_directory(
    nodes: Seq<NodeView>,
    directory: Seq<char>,
    wiki_path: Seq<char>,
    path: Option<Seq<char>>,
    s: Seq<char>,
    states: Seq<TargetState>,
)
    requires
        states.len() <= validator::initial_check(nodes, directory, wiki_path).targets.len(),
    ensures
        ({
            let start = validator::initial_check(nodes, directory, wiki_path);
            let after = validator::after_targets(start, path, s, states);
            &&& after.needs_walk() <==> after.link_errors.len() < MAX_FILESYSTEM_ERRORS && !is_found(
                start.targets,
                states,
                TargetKind::Directory,
                directory,
            )
            &&& start.needs_walk()
        }),
{
    let start = validator::initial_check(nodes, directory, wiki_path);
    lemma_looked_at(start, path, s, states, directory);
    lemma_looked_at(start, path, s, Seq::empty(), directory);
}

/// An entry around a wiki is looked at unless it is the wiki itself or a directory that a link was found
/// to lead to.
pub proof fn law_only_linked_directories_are_passed_over(
    nodes: Seq<NodeView>,
    directory: Seq<char>,
    wiki_path: Seq<char>,
    path: Option<Seq<char>>,
    s: Seq<char>,
    states: Seq<TargetState>,
    entry: Seq<char>,
)
    requires
        states.len() <= validator::initial_check(nodes, directory, wiki_path).targets.len(),
    ensures
        ({
            let start = validator::initial_check(nodes, directory, wiki_path);
            let after = validator::after_targets(start, path, s, states);
            after.visits(entry) <==> path_util::components(entry) != path_util::components(wiki_path)
                && !is_found(start.targets, states, TargetKind::Directory, entry)
        }),
{
    lemma_looked_at(
        validator::initial_check(nodes, directory, wiki_path),
        path,
        s,
        states,
        entry,
    );
}

/// Whether something lies at a path or below it.
pub open spec fn lies_within(outer: Seq<char>, place: Seq<char>) -> bool {
    path_util::components(outer).is_prefix_of(path_util::components(place))
}

/// Whether an entry is one of the directories on the way down to a file, or the file itself.
pub open spec fn is_on_the_way(directory: Seq<char>, place: Seq<char>, file: Seq<char>) -> bool {
    &&& lies_within(directory, place)
    &&& lies_within(place, file)
    &&& path_util::components(place) != path_util::components(directory)
}

/// Every file below the directory of a wiki is reported unless it is the wiki, a file link was found to
/// lead to it, or a directory link was found to lead to a directory that it lies in. For such a file, the
/// check goes through the directory, looks at everything on the way to the file, and the look at the file
/// adds an error about it.
pub proof fn law_unlinked_files_are_reported(
    nodes: Seq<NodeView>,
    directory: Seq<char>,
    wiki_path: Seq<char>,
    path: Option<Seq<char>>,
    s: Seq<char>,
    states: Seq<TargetState>,
    file: Seq<char>,
)
    requires
        states.len() == validator::initial_check(nodes, directory, wiki_path).targets.len(),
        lies_within(directory, file),
        !lies_within(wiki_path, file),
        ({
            let start = validator::initial_check(nodes, directory, wiki_path);
            &&& validator::after_targets(start, path, s, states).link_errors.len()
                < MAX_FILESYSTEM_ERRORS
            &&& !is_found(start.targets, states, TargetKind::File, file)
            &&& forall|place: Seq<char>| #[trigger]
                is_found(start.targets, states, TargetKind::Directory, place) ==> !lies_within(
                    place,
                    file,
                )
        }),
    ensures
        ({
            let start = validator::initial_check(nodes, directory, wiki_path);
            let after = validator::after_targets(start, path, s, states);
            let seen = after.after_entry(path, file, true);
            &&& after.needs_walk()
            &&& forall|place: Seq<char>|
                is_on_the_way(directory, place, file) ==> #[trigger] after.visits(place)
            &&& seen.walk_errors.len() == after.walk_errors.len() + 1
            &&& seen.walk_errors.last().path == path
            &&& seen.walk_errors.last().message == "File "@ + phrase::code(
                path_util::relative(directory, file),
            ) + " is not referenced."@
        }),
{
    let start = validator::initial_check(nodes, directory, wiki_path);
    let after = validator::after_targets(start, path, s, states);
    lemma_looked_at(start, path, s, states, directory);
    lemma_looked_at(start, path, s, states, file);
    assert forall|place: Seq<char>| is_on_the_way(directory, place, file) implies
        #[trigger] after.visits(place) by {
        lemma_looked_at(start, path, s, states, place);
        if is_found(start.targets, states, TargetKind::Directory, place) {
            assert(!lies_within(place, file));
        }
        if path_util::components(place) == path_util::components(wiki_path) {
            assert(lies_within(wiki_path, file));
        }
    }
    if is_found(start.targets, states, TargetKind::Directory, directory) {
        assert(!lies_within(directory, file));
    }
}

/// A file that a file link was found to lead to is not reported, nor is anything that is no file.
pub proof fn law_linked_files_are_not_reported(
    nodes: Seq<NodeView>,
    directory: Seq<char>,
    wiki_path: Seq<char>,
    path: Option<Seq<char>>,
    s: Seq<char>,
    states: Seq<TargetState>,
    entry: Seq<char>,
    is_file: bool,
)
    requires
        states.len() <= validator::initial_check(nodes, directory, wiki_path).targets.len(),
        !is_file || is_found(
            validator::initial_check(nodes, directory, wiki_path).targets,
            states,
            TargetKind::File,
            entry,
        ),
    ensures
        ({
            let start = validator::initial_check(nodes, directory, wiki_path);
            let after = validator::after_targets(start, path, s, states);
            after.after_entry(path, entry, is_file) == after
        }),
{
    lemma_looked_at(
        validator::initial_check(nodes, directory, wiki_path),
        path,
        s,
        states,
        entry,
    );
}

/// The target that a filesystem link is checked as.
pub open spec fn target_of(directory: Seq<char>, link: LinkView) -> Option<TargetView> {
    match link {
        LinkView::Text { title, span } => None,
        LinkView::File { path, span } => Some(
            TargetView {
                kind: TargetKind::File,
                path,
                location: path_util::join_of(directory, path),
                span,
            },
        ),
        LinkView::Directory { path, span } => Some(
            TargetView {
                kind: TargetKind::Directory,
                path,
                location: path_util::join_of(directory, path),
                span,
            },
        ),
    }
}

/// Whether a target is that of a link of a node.
pub open spec fn comes_from_link(
    nodes: Seq<NodeView>,
    directory: Seq<char>,
    target: TargetView,
    i: int,
    k: int,
) -> bool {
    &&& 0 <= i < nodes.len()
    &&& 0 <= k < nodes[i].links.len()
    &&& target_of(directory, nodes[i].links[k]) == Some(target)
}

/// Whether a target is that of some link of some node.
pub open spec fn has_link(nodes: Seq<NodeView>, directory: Seq<char>, target: TargetView) -> bool {
    exists|i: int, k: int| #[trigger] comes_from_link(nodes, directory, target, i, k)
}

proof fn lemma_targets_of(directory: Seq<char>, links: Seq<LinkView>)
    ensures
        forall|k: int|
            0 <= k < links.len() && target_of(directory, #[trigger] links[k]) is Some
                ==> validator::targets_of(directory, links).contains(
                target_of(directory, links[k])->0,
            ),
        forall|m: int|
            0 <= m < validator::targets_of(directory, links).len() ==> exists|k: int|
                0 <= k < links.len() && target_of(directory, #[trigger] links[k]) == Some(
                    #[trigger] validator::targets_of(directory, links)[m],
                ),
        validator::targets_of(directory, links).len() == links.filter(
            |link: LinkView| !(link is Text),
        ).len(),
    decreases links.len(),
{
    reveal(Seq::filter);
    if links.len() > 0 {
        let front = links.drop_last();
        let before = validator::targets_of(directory, front);
        let all = validator::targets_of(directory, links);
        lemma_targets_of(directory, front);
        assert forall|k: int|
            0 <= k < links.len() && target_of(directory, #[trigger] links[k]) is Some
            implies all.contains(target_of(directory, links[k])->0) by {
            let target = target_of(directory, links[k])->0;
            if k < front.len() {
                assert(front[k] == links[k]);
                assert(before.contains(target));
                let m = choose|m: int| 0 <= m < before.len() && before[m] == target;
                assert(all[m] == target);
            } else {
                assert(all[before.len() as int] == target);
            }
        }
        assert forall|m: int| 0 <= m < all.len() implies exists|k: int|
            0 <= k < links.len() && target_of(directory, #[trigger] links[k]) == Some(
                #[trigger] all[m],
            ) by {
            if m < before.len() {
                assert(all[m] == before[m]);
                let k = choose|k: int|
                    0 <= k < front.len() && target_of(directory, #[trigger] front[k]) == Some(
                        before[m],
                    );
                assert(links[k] == front[k]);
            } else {
                let last = links.len() - 1;
                assert(target_of(directory, links[last]) == Some(all[m]));
            }
        }
    }
}

/// A check of the files around a wiki looks at every file link and every directory link of every node, at
/// the place where the path of the link leads from the wiki's directory, and at nothing else.
pub proof fn law_every_filesystem_link_is_checked(
    nodes: Seq<NodeView>,
    directory: Seq<char>,
    wiki_path: Seq<char>,
)
    ensures
        ({
            let targets = validator::initial_check(nodes, directory, wiki_path).targets;
            &&& forall|i: int, k: int|
                0 <= i < nodes.len() && 0 <= k < nodes[i].links.len() && target_of(
                    directory,
                    #[trigger] nodes[i].links[k],
                ) is Some ==> targets.contains(target_of(directory, nodes[i].links[k])->0)
            &&& forall|m: int|
                0 <= m < targets.len() ==> has_link(nodes, directory, #[trigger] targets[m])
        }),
{
    let sorted = wiki::nodes_by_title(nodes);
    let links = validator::all_links(sorted);
    let targets = validator::initial_check(nodes, directory, wiki_path).targets;
    lemma_targets_of(directory, links);
    assert forall|i: int, k: int|
        0 <= i < nodes.len() && 0 <= k < nodes[i].links.len() && target_of(
            directory,
            #[trigger] nodes[i].links[k],
        ) is Some implies targets.contains(target_of(directory, nodes[i].links[k])->0) by {
        let j = validator::lemma_place_by_title(nodes, i);
        validator::lemma_all_links_contain(sorted, j, k);
        let m = choose|m: int| 0 <= m < links.len() && #[trigger] links[m] == sorted[j].links[k];
        assert(links[m] == nodes[i].links[k]);
    }
    assert forall|m: int| 0 <= m < targets.len() implies has_link(
        nodes,
        directory,
        #[trigger] targets[m],
    ) by {
        let q = choose|q: int|
            0 <= q < links.len() && target_of(directory, #[trigger] links[q]) == Some(targets[m]);
        validator::lemma_all_links_come_from(sorted, q);
        let (j, k) = choose|j: int, k: int|
            0 <= j < sorted.len() && 0 <= k < sorted[j].links.len() && links[q]
                == #[trigger] sorted[j].links[k];
        let i = validator::lemma_origin_by_title(nodes, j);
        assert(comes_from_link(nodes, directory, targets[m], i, k));
    }
}

/// A check stops looking at links only when it has looked at all of them or there have been too many
/// errors, and it stops looking at files only when there have been too many errors.
pub proof fn law_checks_stop_only_at_the_end_or_at_the_limit(check: CheckView)
    ensures
        !check.has_next_target() ==> check.checked >= check.targets.len()
            || check.link_errors.len() >= MAX_FILESYSTEM_ERRORS,
        check.has_next_target() ==> check.checked < check.targets.len()
            && check.link_errors.len() < MAX_FILESYSTEM_ERRORS,
        check.has_room() <==> check.link_errors.len() + check.walk_errors.len()
            < MAX_FILESYSTEM_ERRORS,
{
}

/// Whether a text has another one in it.
pub open spec fn mentions(message: Seq<char>, part: Seq<char>) -> bool {
    exists|before: Seq<char>, after: Seq<char>| message == #[trigger] (before + part + after)
}

/// A look at a filesystem link adds no error if it leads to something of its kind. Otherwise it adds one
/// error, which is about the link and names its path, and which has the reason if there is one.
pub proof fn law_filesystem_links_are_judged_by_kind(
    check: CheckView,
    path: Option<Seq<char>>,
    s: Seq<char>,
    state: TargetState,
)
    requires
        check.has_next_target(),
    ensures
        ({
            let target = check.targets[check.checked];
            let after = check.after_target(path, s, state);
            let is_right = match target.kind {
                TargetKind::File => state is File,
                TargetKind::Directory => state is Directory,
            };
            if is_right {
                after.link_errors == check.link_errors
            } else {
                let error = after.link_errors.last();
                &&& after.link_errors.len() == check.link_errors.len() + 1
                &&& after.link_errors.drop_last() == check.link_errors
                &&& error.span == Some(target.span)
                &&& error.path == path
                &&& mentions(error.message, phrase::code(target.path))
                &&& error.reason == match state {
                    TargetState::NotFound(reason) => Some(reason),
                    TargetState::Inaccessible(reason) => Some(reason),
                    _ => None,
                }
            }
        }),
{
    reveal_strlit("");
    let target = check.targets[check.checked];
    let after = check.after_target(path, s, state);
    let name = phrase::code(target.path);
    let errors = validator::state_errors(path, s, target, state);
    let is_right = match target.kind {
        TargetKind::File => state is File,
        TargetKind::Directory => state is Directory,
    };
    if is_right {
        assert(errors =~= Seq::<ErrorView>::empty());
        assert(after.link_errors =~= check.link_errors);
    } else {
        assert(errors.len() == 1);
        assert(after.link_errors =~= check.link_errors.push(errors[0]));
        assert(after.link_errors.drop_last() =~= check.link_errors);
        let message = errors[0].message;
        match state {
            TargetState::Inaccessible(reason) => {
                assert(message =~= "Unable to access "@ + name + "."@);
            },
            TargetState::NotFound(reason) => {
                assert(message =~= Seq::<char>::empty() + name + " not found."@);
            },
            _ => {
                if target.kind == TargetKind::File {
                    assert(message =~= Seq::<char>::empty() + name + " is not a file."@);
                } else {
                    assert(message =~= Seq::<char>::empty() + name + " is not a directory."@);
                }
            },
        }
    }
}

} // verus!
