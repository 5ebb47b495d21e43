//! What is found wrong with a wiki, and where: every fault of its text links is reported at the place of
//! the fault, and a wiki is accepted only if it has none.

use vstd::prelude::*;

use crate::analyzer;
use crate::cancellation::Outcome;
use crate::command;
use crate::command::CompletionView;
use crate::command::Operation;
use crate::covering;
use crate::error::ErrorView;
use crate::error::Span;
use crate::parser;
use crate::path_util;
use crate::phrase;
use crate::validator;
use crate::validator::MAX_FILESYSTEM_ERRORS;
use crate::wiki;
use crate::wiki::LinkView;
use crate::wiki::NodeView;

verus! {

/// Whether an error is about a range of a source and has no reason of its own.
pub open spec fn is_about(found: ErrorView, path: Option<Seq<char>>, span: Span) -> bool {
    &&& found.span == Some(span)
    &&& found.path == path
    &&& found.reason is None
}

/// Whether errors have one about a range of a source that names a title.
pub open spec fn has_error_about(
    errors: Seq<ErrorView>,
    path: Option<Seq<char>>,
    span: Span,
    title: Seq<char>,
) -> bool {
    exists|m: int|
        {
            &&& 0 <= m < errors.len()
            &&& is_about(#[trigger] errors[m], path, span)
            &&& title.len() > 0 ==> covering::mentions(errors[m].message, phrase::code(title))
        }
}

/// Whether a link is a text link that names no node.
pub open spec fn is_missing(nodes: Seq<NodeView>, link: LinkView) -> bool {
    link matches LinkView::Text { title, span } && forall|i: int|
        0 <= i < nodes.len() ==> (#[trigger] nodes[i]).title != title
}

proof fn lemma_missing(nodes: Seq<NodeView>, link: LinkView)
    ensures
        is_missing(nodes, link) <==> (link matches LinkView::Text { title, span }
            && !wiki::has_title(nodes, title)),
{
    if let LinkView::Text { title, span } = link {
        if !wiki::has_title(nodes, title) {
            assert forall|i: int| 0 <= i < nodes.len() implies (#[trigger] nodes[i]).title
                != title by {}
        }
    }
}

/// The errors for links are one for each text link that names no node, in their order.
proof fn lemma_targets_errors(
    path: Option<Seq<char>>,
    s: Seq<char>,
    nodes: Seq<NodeView>,
    links: Seq<LinkView>,
)
    ensures
        ({
            let errors = validator::targets_errors(path, s, nodes, links);
            let missing = links.filter(|link: LinkView| is_missing(nodes, link));
            &&& errors.len() == missing.len()
            &&& forall|m: int|
                0 <= m < errors.len() ==> is_about(
                    #[trigger] errors[m],
                    path,
                    missing[m].span(),
                ) && (missing[m] matches LinkView::Text { title, span } && (title.len() > 0
                    ==> covering::mentions(errors[m].message, phrase::code(title))))
        }),
    decreases links.len(),
{
    reveal(Seq::filter);
    if links.len() > 0 {
        let front = links.drop_last();
        let last = links.last();
        lemma_targets_errors(path, s, nodes, front);
        lemma_missing(nodes, last);
        let before = validator::targets_errors(path, s, nodes, front);
        let errors = validator::targets_errors(path, s, nodes, links);
        let fewer = front.filter(|link: LinkView| is_missing(nodes, link));
        let missing = links.filter(|link: LinkView| is_missing(nodes, link));
        assert forall|m: int| 0 <= m < errors.len() implies is_about(
            #[trigger] errors[m],
            path,
            missing[m].span(),
        ) && (missing[m] matches LinkView::Text { title, span } && (title.len() > 0
            ==> covering::mentions(errors[m].message, phrase::code(title)))) by {
            if m < before.len() {
                assert(errors[m] == before[m]);
                assert(missing[m] == fewer[m]);
            } else if let LinkView::Text { title, span } = last {
                assert(missing[m] == last);
                assert(errors[m].message == validator::missing_message(title));
                if title.len() > 0 {
                    assert(errors[m].message =~= "Node "@ + phrase::code(title) + " not found."@);
                }
            }
        }
    }
}

/// The errors for nodes are one for each node without a depth, in their order.
proof fn lemma_reaches_errors(path: Option<Seq<char>>, s: Seq<char>, nodes: Seq<NodeView>)
    ensures
        ({
            let errors = validator::reaches_errors(path, s, nodes);
            let lost = nodes.filter(|node: NodeView| node.depth is None);
            &&& errors.len() == lost.len()
            &&& forall|m: int|
                0 <= m < errors.len() ==> is_about(#[trigger] errors[m], path, lost[m].title_span)
                    && covering::mentions(errors[m].message, phrase::code(lost[m].title))
        }),
    decreases nodes.len(),
{
    reveal(Seq::filter);
    if nodes.len() > 0 {
        let front = nodes.drop_last();
        let last = nodes.last();
        lemma_reaches_errors(path, s, front);
        let before = validator::reaches_errors(path, s, front);
        let errors = validator::reaches_errors(path, s, nodes);
        let fewer = front.filter(|node: NodeView| node.depth is None);
        let lost = nodes.filter(|node: NodeView| node.depth is None);
        assert forall|m: int| 0 <= m < errors.len() implies is_about(
            #[trigger] errors[m],
            path,
            lost[m].title_span,
        ) && covering::mentions(errors[m].message, phrase::code(lost[m].title)) by {
            if m < before.len() {
                assert(errors[m] == before[m]);
                assert(lost[m] == fewer[m]);
            } else {
                assert(lost[m] == last);
                let rest = " is not reachable from "@ + phrase::code("Home"@) + "."@;
                assert(errors[m].message =~= "Node "@ + phrase::code(last.title) + rest);
            }
        }
    }
}

/// An item that is kept by a filter is found in what is left.
proof fn lemma_kept<T>(items: Seq<T>, keep: spec_fn(T) -> bool, k: int) -> (m: int)
    requires
        0 <= k < items.len(),
        keep(items[k]),
    ensures
        0 <= m < items.filter(keep).len(),
        items.filter(keep)[m] == items[k],
    decreases items.len(),
{
    reveal(Seq::filter);
    let front = items.drop_last();
    if k == items.len() - 1 {
        front.filter(keep).len() as int
    } else {
        let m = lemma_kept(front, keep, k);
        assert(items.filter(keep)[m] == front.filter(keep)[m]);
        m
    }
}

/// Every text link that names no node has an error at the link that names the missing title, and every
/// node that cannot be reached has one at its title that names it. There are as many errors as there are
/// such links and nodes, and one more if there is no home node.
pub proof fn law_faults_of_text_links_are_reported_in_place(
    path: Option<Seq<char>>,
    s: Seq<char>,
    nodes: Seq<NodeView>,
)
    ensures
        ({
            let errors = validator::graph_errors(path, s, nodes);
            let sorted = wiki::nodes_by_title(nodes);
            let missing = validator::all_links(sorted).filter(
                |link: LinkView| is_missing(nodes, link),
            );
            let lost = sorted.filter(|node: NodeView| node.depth is None);
            let has_home = exists|i: int|
                0 <= i < nodes.len() && (#[trigger] nodes[i]).title == "Home"@;
            &&& errors.len() == (if has_home {
                missing.len() + lost.len()
            } else {
                missing.len() + 1
            })
            &&& forall|i: int, k: int|
                0 <= i < nodes.len() && 0 <= k < nodes[i].links.len() && is_missing(
                    nodes,
                    #[trigger] nodes[i].links[k],
                ) ==> has_error_about(
                    errors,
                    path,
                    nodes[i].links[k].span(),
                    nodes[i].links[k]->Text_title,
                )
            &&& has_home ==> forall|i: int|
                0 <= i < nodes.len() && (#[trigger] nodes[i]).depth is None ==> has_error_about(
                    errors,
                    path,
                    nodes[i].title_span,
                    nodes[i].title,
                )
        }),
{
    let errors = validator::graph_errors(path, s, nodes);
    let sorted = wiki::nodes_by_title(nodes);
    let links = validator::all_links(sorted);
    let keep = |link: LinkView| is_missing(nodes, link);
    let missing = links.filter(keep);
    let stray = |node: NodeView| node.depth is None;
    let lost = sorted.filter(stray);
    let first = validator::home_errors(path, nodes);
    let second = validator::targets_errors(path, s, nodes, links);
    let third = validator::reaches_errors(path, s, sorted);
    lemma_targets_errors(path, s, nodes, links);
    lemma_reaches_errors(path, s, sorted);
    assert forall|i: int, k: int|
        0 <= i < nodes.len() && 0 <= k < nodes[i].links.len() && is_missing(
            nodes,
            #[trigger] nodes[i].links[k],
        ) implies has_error_about(
        errors,
        path,
        nodes[i].links[k].span(),
        nodes[i].links[k]->Text_title,
    ) by {
        let j = validator::lemma_place_by_title(nodes, i);
        validator::lemma_all_links_contain(sorted, j, k);
        let q = choose|q: int| 0 <= q < links.len() && #[trigger] links[q] == sorted[j].links[k];
        let m = lemma_kept(links, keep, q);
        assert(is_about(second[m], path, missing[m].span()));
        assert(errors[first.len() + m] == second[m]);
    }
    if wiki::has_title(nodes, "Home"@) {
        assert forall|i: int|
            0 <= i < nodes.len() && (#[trigger] nodes[i]).depth is None implies has_error_about(
            errors,
            path,
            nodes[i].title_span,
            nodes[i].title,
        ) by {
            let j = validator::lemma_place_by_title(nodes, i);
            let m = lemma_kept(sorted, stray, j);
            assert(is_about(third[m], path, lost[m].title_span));
            assert(errors[first.len() + second.len() + m] == third[m]);
        }
    }
}

/// In a wiki that is in no file, filesystem links have errors at their places, one for each until there
/// are too many.
pub proof fn law_unsaved_wikis_have_errors_at_filesystem_links(
    path: Option<Seq<char>>,
    s: Seq<char>,
    nodes: Seq<NodeView>,
)
    ensures
        ({
            let errors = validator::untitled_errors(path, s, nodes);
            let found = validator::all_links(wiki::nodes_by_title(nodes)).filter(
                |link: LinkView| !(link is Text),
            );
            &&& errors.len() == if found.len() < MAX_FILESYSTEM_ERRORS {
                found.len()
            } else {
                MAX_FILESYSTEM_ERRORS as nat
            }
            &&& forall|m: int|
                0 <= m < errors.len() ==> is_about(#[trigger] errors[m], path, found[m].span())
        }),
{
    lemma_unsaved_errors(path, s, validator::all_links(wiki::nodes_by_title(nodes)));
}

proof fn lemma_unsaved_errors(path: Option<Seq<char>>, s: Seq<char>, links: Seq<LinkView>)
    ensures
        ({
            let errors = validator::all_unsaved_errors(path, s, links);
            let found = links.filter(|link: LinkView| !(link is Text));
            &&& errors.len() == found.len()
            &&& forall|m: int|
                0 <= m < errors.len() ==> is_about(#[trigger] errors[m], path, found[m].span())
        }),
    decreases links.len(),
{
    reveal(Seq::filter);
    if links.len() > 0 {
        let front = links.drop_last();
        lemma_unsaved_errors(path, s, front);
        let before = validator::all_unsaved_errors(path, s, front);
        let errors = validator::all_unsaved_errors(path, s, links);
        let fewer = front.filter(|link: LinkView| !(link is Text));
        let found = links.filter(|link: LinkView| !(link is Text));
        assert forall|m: int| 0 <= m < errors.len() implies is_about(
            #[trigger] errors[m],
            path,
            found[m].span(),
        ) by {
            if m < before.len() {
                assert(errors[m] == before[m]);
                assert(found[m] == fewer[m]);
            }
        }
    }
}

/// Whether no link of a wiki leads to a file or a directory.
pub open spec fn has_no_filesystem_links(nodes: Seq<NodeView>) -> bool {
    forall|i: int, k: int|
        0 <= i < nodes.len() && 0 <= k < nodes[i].links.len() ==> (
        #[trigger] nodes[i].links[k]) is Text
}

proof fn lemma_no_filesystem_links(path: Option<Seq<char>>, s: Seq<char>, nodes: Seq<NodeView>)
    ensures
        validator::untitled_errors(path, s, nodes).len() == 0 <==> has_no_filesystem_links(nodes),
{
    let sorted = wiki::nodes_by_title(nodes);
    let links = validator::all_links(sorted);
    let keep = |link: LinkView| !(link is Text);
    let found = links.filter(keep);
    law_unsaved_wikis_have_errors_at_filesystem_links(path, s, nodes);
    if found.len() == 0 {
        assert forall|i: int, k: int|
            0 <= i < nodes.len() && 0 <= k < nodes[i].links.len() implies (
        #[trigger] nodes[i].links[k]) is Text by {
            let j = validator::lemma_place_by_title(nodes, i);
            validator::lemma_all_links_contain(sorted, j, k);
            let q = choose|q: int|
                0 <= q < links.len() && #[trigger] links[q] == sorted[j].links[k];
            if !(links[q] is Text) {
                let m = lemma_kept(links, keep, q);
            }
        }
    } else {
        links.filter_lemma(keep);
        assert(keep(found[0]));
        links.lemma_filter_contains_rev(keep, found[0]);
        let q = choose|q: int| 0 <= q < links.len() && links[q] == found[0];
        validator::lemma_all_links_come_from(sorted, q);
        let (j, k) = choose|j: int, k: int|
            0 <= j < sorted.len() && 0 <= k < sorted[j].links.len() && links[q]
                == #[trigger] sorted[j].links[k];
        let i = validator::lemma_origin_by_title(nodes, j);
        assert(!(nodes[i].links[k] is Text));
    }
}

/// A wiki is found to be in order if and only if it parses, it has a home node, its text links lead to
/// nodes, its nodes can be reached, and nothing is wrong with the files around it. A wiki that is in no
/// file may not have filesystem links, and one in a file needs a file name.
pub proof fn law_analysis_accepts_exactly_sound_wikis(
    path: Option<Seq<char>>,
    s: Seq<char>,
    filesystem: Seq<ErrorView>,
    nodes: Seq<NodeView>,
)
    ensures
        analyzer::analysis_of(path, s, Outcome::Completed(filesystem)) == Outcome::Completed(
            Ok::<Seq<NodeView>, Seq<ErrorView>>(nodes),
        ) <==> {
            &&& parser::parsed(path, s) == Ok::<Seq<NodeView>, Seq<ErrorView>>(nodes)
            &&& exists|i: int| 0 <= i < nodes.len() && (#[trigger] nodes[i]).title == "Home"@
            &&& validator::links_have_targets(nodes)
            &&& validator::all_reachable(nodes)
            &&& match path {
                None => has_no_filesystem_links(nodes),
                Some(place) => path_util::file_name_of(place) is Some && filesystem.len() == 0,
            }
        },
{
    if let Ok(found) = parser::parsed(path, s) {
        validator::law_graph_errors(path, s, found);
        lemma_no_filesystem_links(path, s, found);
        let graph = validator::graph_errors(path, s, found);
        let all = validator::wiki_errors(found, path, path, s, filesystem);
        assert(all.len() == 0 ==> graph.len() == 0);
    }
}

/// An analysis is cancelled only if the wiki parses and the check of the files around it was cancelled,
/// and the errors of a wiki that does not parse are those of its syntax.
pub proof fn law_analysis_is_cancelled_with_its_check(
    path: Option<Seq<char>>,
    s: Seq<char>,
    filesystem: Outcome<Seq<ErrorView>>,
)
    ensures
        analyzer::analysis_of(path, s, filesystem) is Cancelled <==> parser::parsed(path, s) is Ok
            && filesystem is Cancelled,
        parser::parsed(path, s) matches Err(errors) ==> analyzer::analysis_of(path, s, filesystem)
            == Outcome::Completed(Err::<Seq<NodeView>, Seq<ErrorView>>(errors)),
{
}

/// A fix of a sound wiki writes the rendering of the wiki unless that is what it has already, and it never
/// writes anything else. A check of a sound wiki succeeds if and only if the wiki is its own rendering.
pub proof fn law_fix_writes_the_rendering(path: Seq<char>, s: Seq<char>, nodes: Seq<NodeView>)
    ensures
        ({
            let sound = Outcome::Completed(Ok::<Seq<NodeView>, Seq<ErrorView>>(nodes));
            let fix = command::completion_of(Operation::Fix, path, s, sound);
            let check = command::completion_of(Operation::Check, path, s, sound);
            &&& fix matches Outcome::Completed(Ok(done)) && done.rewrite == if s
                == wiki::wiki_text(nodes) {
                None
            } else {
                Some(wiki::wiki_text(nodes))
            }
            &&& check matches Outcome::Completed(result) && (result is Ok <==> s
                == wiki::wiki_text(nodes)) && (result matches Ok(done) ==> done.rewrite is None)
                && (result matches Err(errors) ==> errors.len() == 1 && errors[0].path == Some(path))
        }),
{
}

/// A wiki with errors is neither fixed nor accepted: the errors are what either operation comes to.
pub proof fn law_errors_stop_every_operation(
    operation: Operation,
    path: Seq<char>,
    s: Seq<char>,
    errors: Seq<ErrorView>,
)
    ensures
        command::completion_of(
            operation,
            path,
            s,
            Outcome::Completed(Err::<Seq<NodeView>, Seq<ErrorView>>(errors)),
        ) == Outcome::Completed(Err::<CompletionView, Seq<ErrorView>>(errors)),
        command::completion_of(operation, path, s, Outcome::Cancelled) is Cancelled,
{
}

} // verus!
