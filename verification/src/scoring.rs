//! Distances from the home node.

use vstd::prelude::*;

use crate::wiki;
use crate::wiki::Link;
use crate::wiki::LinkView;
use crate::wiki::NodeView;
use crate::wiki::Wiki;

verus! {

/// Whether a link leads to the node at an index.
pub open spec fn link_leads_to(nodes: Seq<NodeView>, link: LinkView, j: int) -> bool {
    match link {
        LinkView::Text { title, span } => wiki::position_of(nodes, title) == Some(j),
        LinkView::File { path, span } => false,
        LinkView::Directory { path, span } => false,
    }
}

/// Whether the node at one index has a text link to the node at another.
pub open spec fn leads_to(nodes: Seq<NodeView>, i: int, j: int) -> bool {
    exists|k: int|
        0 <= k < nodes[i].links.len() && link_leads_to(nodes, #[trigger] nodes[i].links[k], j)
}

/// Whether a number of text links, one after the other, lead from the home node to the node at an
/// index.
pub open spec fn walk(nodes: Seq<NodeView>, length: nat, j: int) -> bool
    decreases length,
{
    if length == 0 {
        wiki::position_of(nodes, "Home"@) == Some(j)
    } else {
        exists|i: int|
            0 <= i < nodes.len() && walk(nodes, (length - 1) as nat, i) && #[trigger] leads_to(
                nodes,
                i,
                j,
            )
    }
}

/// Whether a depth is the smallest number of text links that lead from the home node to the node at
/// an index, or nothing if none do.
pub open spec fn is_distance(nodes: Seq<NodeView>, j: int, depth: Option<nat>) -> bool {
    match depth {
        Some(depth) => walk(nodes, depth, j) && forall|k: nat|
            #![trigger walk(nodes, k, j)]
            walk(nodes, k, j) ==> depth <= k,
        None => forall|k: nat| !#[trigger] walk(nodes, k, j),
    }
}

/// The smallest number of text links that lead from the home node to the node at an index, or
/// nothing if none do.
pub open spec fn distance(nodes: Seq<NodeView>, j: int) -> Option<nat> {
    choose|depth: Option<nat>| #[trigger] is_distance(nodes, j, depth)
}

/// The nodes with their distances as depths.
pub open spec fn scored(nodes: Seq<NodeView>) -> Seq<NodeView> {
    Seq::new(
        nodes.len(),
        |j: int| NodeView { depth: distance(nodes, j), ..nodes[j] },
    )
}

/// A node has no more than one distance.
pub proof fn lemma_distance_unique(nodes: Seq<NodeView>, j: int, depth: Option<nat>)
    requires
        is_distance(nodes, j, depth),
    ensures
        distance(nodes, j) == depth,
{
    let other = distance(nodes, j);
    assert(is_distance(nodes, j, other));
    match depth {
        Some(a) => match other {
            Some(b) => {
                assert(walk(nodes, a, j) && walk(nodes, b, j));
            },
            None => {
                assert(!walk(nodes, a, j));
            },
        },
        None => match other {
            Some(b) => {
                assert(!walk(nodes, b, j));
            },
            None => {},
        },
    }
}

/// If a walk leads to a node, a shortest one does.
proof fn lemma_shortest_walk(nodes: Seq<NodeView>, j: int, length: nat)
    requires
        walk(nodes, length, j),
    ensures
        exists|depth: Option<nat>| #[trigger] is_distance(nodes, j, depth),
    decreases length,
{
    if exists|k: nat| k < length && #[trigger] walk(nodes, k, j) {
        let k = choose|k: nat| k < length && #[trigger] walk(nodes, k, j);
        lemma_shortest_walk(nodes, j, k);
    } else {
        assert(is_distance(nodes, j, Some(length)));
    }
}

/// The depth of a scored node is the smallest number of text links that lead to it from the home
/// node, and a node has no depth if and only if no text links lead to it from there.
pub proof fn law_depth_is_distance(nodes: Seq<NodeView>, j: int)
    requires
        0 <= j < nodes.len(),
    ensures
        is_distance(nodes, j, scored(nodes)[j].depth),
{
    if exists|k: nat| #[trigger] walk(nodes, k, j) {
        lemma_shortest_walk(nodes, j, choose|k: nat| #[trigger] walk(nodes, k, j));
    } else {
        assert(is_distance(nodes, j, None));
    }
}

/// A text link leads at most one step deeper: whatever a reachable node links to is reachable, by no
/// more than one link more.
pub proof fn law_links_go_one_deeper(nodes: Seq<NodeView>, i: int, j: int)
    requires
        0 <= i < nodes.len(),
        0 <= j < nodes.len(),
        leads_to(nodes, i, j),
        scored(nodes)[i].depth is Some,
    ensures
        scored(nodes)[j].depth is Some,
        scored(nodes)[j].depth->0 <= scored(nodes)[i].depth->0 + 1,
{
    law_depth_is_distance(nodes, i);
    law_depth_is_distance(nodes, j);
    let depth = scored(nodes)[i].depth->0;
    assert(walk(nodes, depth + 1, j));
}

/// The home node is the only node at depth zero.
pub proof fn law_home_is_the_root(nodes: Seq<NodeView>, j: int)
    requires
        0 <= j < nodes.len(),
    ensures
        scored(nodes)[j].depth == Some(0nat) <==> wiki::position_of(nodes, "Home"@) == Some(j),
{
    law_depth_is_distance(nodes, j);
    if wiki::position_of(nodes, "Home"@) == Some(j) {
        assert(walk(nodes, 0, j));
    }
}

proof fn lemma_position_of_same_titles(a: Seq<NodeView>, b: Seq<NodeView>, title: Seq<char>)
    requires
        a.len() == b.len(),
        forall|i: int| 0 <= i < a.len() ==> (#[trigger] a[i]).title == b[i].title,
    ensures
        wiki::position_of(a, title) == wiki::position_of(b, title),
    decreases a.len(),
{
    if a.len() > 0 {
        assert forall|i: int| 0 <= i < a.len() - 1 implies (#[trigger] a.drop_last()[i]).title
            == b.drop_last()[i].title by {
            assert(a.drop_last()[i] == a[i]);
        }
        lemma_position_of_same_titles(a.drop_last(), b.drop_last(), title);
        assert(a[a.len() - 1].title == b[b.len() - 1].title);
    }
}

proof fn lemma_walk_same_links(a: Seq<NodeView>, b: Seq<NodeView>, length: nat, j: int)
    requires
        a.len() == b.len(),
        forall|i: int|
            0 <= i < a.len() ==> (#[trigger] a[i]).title == b[i].title && a[i].links == b[i].links,
        walk(a, length, j),
    ensures
        walk(b, length, j),
    decreases length,
{
    if length == 0 {
        lemma_position_of_same_titles(a, b, "Home"@);
    } else {
        let i = choose|i: int|
            0 <= i < a.len() && walk(a, (length - 1) as nat, i) && #[trigger] leads_to(a, i, j);
        lemma_walk_same_links(a, b, (length - 1) as nat, i);
        let k = choose|k: int|
            0 <= k < a[i].links.len() && link_leads_to(a, #[trigger] a[i].links[k], j);
        if let LinkView::Text { title, span } = a[i].links[k] {
            lemma_position_of_same_titles(a, b, title);
        }
        assert(link_leads_to(b, b[i].links[k], j));
        assert(leads_to(b, i, j));
    }
}

/// Scoring does not depend on the depths that the nodes had before, so scoring twice is scoring
/// once.
pub proof fn law_scoring_ignores_old_depths(a: Seq<NodeView>, b: Seq<NodeView>)
    requires
        a.len() == b.len(),
        forall|i: int|
            0 <= i < a.len() ==> #[trigger] b[i] == (NodeView { depth: b[i].depth, ..a[i] }),
    ensures
        scored(a) == scored(b),
        scored(scored(a)) == scored(a),
{
    lemma_scoring_ignores_old_depths(a, b);
    lemma_scoring_ignores_old_depths(a, scored(a));
}

proof fn lemma_scoring_ignores_old_depths(a: Seq<NodeView>, b: Seq<NodeView>)
    requires
        a.len() == b.len(),
        forall|i: int|
            0 <= i < a.len() ==> #[trigger] b[i] == (NodeView { depth: b[i].depth, ..a[i] }),
    ensures
        scored(a) == scored(b),
{
    assert forall|j: int| 0 <= j < a.len() implies #[trigger] scored(a)[j] == scored(b)[j] by {
        law_depth_is_distance(a, j);
        let depth = scored(a)[j].depth;
        assert forall|i: int| 0 <= i < a.len() implies (#[trigger] a[i]).title == b[i].title
            && a[i].links == b[i].links by {
            assert(b[i] == (NodeView { depth: b[i].depth, ..a[i] }));
        }
        assert forall|k: nat| #[trigger] walk(a, k, j) == walk(b, k, j) by {
            if walk(a, k, j) {
                lemma_walk_same_links(a, b, k, j);
            }
            if walk(b, k, j) {
                lemma_walk_same_links(b, a, k, j);
            }
        }
        assert(is_distance(b, j, depth)) by {
            match depth {
                Some(d) => {
                    assert(walk(b, d, j));
                    assert forall|k: nat| #[trigger] walk(b, k, j) implies d <= k by {
                        assert(walk(a, k, j));
                    }
                },
                None => {
                    assert forall|k: nat| !#[trigger] walk(b, k, j) by {
                        assert(!walk(a, k, j));
                    }
                },
            }
        }
        lemma_distance_unique(b, j, depth);
        assert(b[j] == (NodeView { depth: b[j].depth, ..a[j] }));
    }
    assert(scored(a) =~= scored(b));
}

/// The number of nodes without a depth.
spec fn unscored(depths: Seq<Option<usize>>) -> nat
    decreases depths.len(),
{
    if depths.len() == 0 {
        0
    } else {
        unscored(depths.drop_last()) + if depths.last() is None {
            1nat
        } else {
            0nat
        }
    }
}

proof fn lemma_unscored_update(depths: Seq<Option<usize>>, j: int, depth: usize)
    requires
        0 <= j < depths.len(),
        depths[j] is None,
    ensures
        unscored(depths) == unscored(depths.update(j, Some(depth))) + 1,
    decreases depths.len(),
{
    let after = depths.update(j, Some(depth));
    if j == depths.len() - 1 {
        assert(after.drop_last() =~= depths.drop_last());
    } else {
        assert(after.drop_last() =~= depths.drop_last().update(j, Some(depth)));
        lemma_unscored_update(depths.drop_last(), j, depth);
    }
}

proof fn lemma_unscored_all(depths: Seq<Option<usize>>)
    requires
        forall|j: int| 0 <= j < depths.len() ==> #[trigger] depths[j] is None,
    ensures
        unscored(depths) == depths.len(),
    decreases depths.len(),
{
    if depths.len() > 0 {
        lemma_unscored_all(depths.drop_last());
    }
}

/// Whether the nodes in a queue are those with a depth, in an order in which depths never decrease.
spec fn queue_ok(nodes: Seq<NodeView>, depths: Seq<Option<usize>>, queue: Seq<usize>) -> bool {
    &&& depths.len() == nodes.len()
    &&& unscored(depths) + queue.len() == nodes.len()
    &&& forall|a: int|
        0 <= a < queue.len() ==> {
            &&& #[trigger] queue[a] < nodes.len()
            &&& depths[queue[a] as int] is Some
            &&& depths[queue[a] as int]->0 <= a
        }
    &&& forall|a: int, b: int|
        #![trigger queue[a], queue[b]]
        0 <= a <= b < queue.len() ==> depths[queue[a] as int]->0 <= depths[queue[b] as int]->0
    &&& forall|j: int|
        0 <= j < nodes.len() && (#[trigger] depths[j]) is Some ==> exists|a: int|
            0 <= a < queue.len() && #[trigger] queue[a] == j
    &&& forall|j: int|
        0 <= j < nodes.len() && (#[trigger] depths[j]) is Some ==> walk(
            nodes,
            depths[j]->0 as nat,
            j,
        )
}

/// Whether the home node has depth zero, if there is one.
spec fn home_scored(nodes: Seq<NodeView>, depths: Seq<Option<usize>>) -> bool {
    match wiki::position_of(nodes, "Home"@) {
        Some(home) => 0 <= home < depths.len() && depths[home] == Some(0usize),
        None => true,
    }
}

/// Whether the first links of a node lead only to nodes that are at most one step deeper than it.
spec fn links_done(nodes: Seq<NodeView>, depths: Seq<Option<usize>>, i: int, count: int) -> bool {
    forall|k: int, j: int|
        #![trigger link_leads_to(nodes, nodes[i].links[k], j)]
        0 <= k < count && link_leads_to(nodes, nodes[i].links[k], j) ==> 0 <= j < nodes.len()
            && depths[j] is Some && depths[j]->0 <= depths[i]->0 + 1
}

/// Whether the nodes in the first part of a queue have had their links followed.
spec fn done(
    nodes: Seq<NodeView>,
    depths: Seq<Option<usize>>,
    queue: Seq<usize>,
    head: int,
) -> bool {
    forall|a: int|
        0 <= a < head ==> links_done(
            nodes,
            depths,
            (#[trigger] queue[a]) as int,
            nodes[queue[a] as int].links.len() as int,
        )
}

/// Once all links have been followed, no walk is shorter than the depth of the node it leads to.
proof fn lemma_walks_covered(
    nodes: Seq<NodeView>,
    depths: Seq<Option<usize>>,
    queue: Seq<usize>,
    length: nat,
    j: int,
)
    requires
        queue_ok(nodes, depths, queue),
        done(nodes, depths, queue, queue.len() as int),
        home_scored(nodes, depths),
        walk(nodes, length, j),
    ensures
        0 <= j < nodes.len(),
        depths[j] is Some,
        depths[j]->0 <= length,
    decreases length,
{
    if length == 0 {
        wiki::lemma_position_of(nodes, "Home"@);
    } else {
        let i = choose|i: int|
            0 <= i < nodes.len() && walk(nodes, (length - 1) as nat, i) && #[trigger] leads_to(
                nodes,
                i,
                j,
            );
        lemma_walks_covered(nodes, depths, queue, (length - 1) as nat, i);
        let a = choose|a: int| 0 <= a < queue.len() && #[trigger] queue[a] == i;
        let k = choose|k: int|
            0 <= k < nodes[i].links.len() && link_leads_to(nodes, #[trigger] nodes[i].links[k], j);
        assert(links_done(nodes, depths, queue[a] as int, nodes[i].links.len() as int));
        assert(link_leads_to(nodes, nodes[i].links[k], j));
    }
}

/// Find the minimum text-link distances from the home node by breadth-first traversal.
#[verifier::rlimit(60)]
fn find_depths(wiki: &Wiki) -> (depths: Vec<Option<usize>>)
    ensures
        depths@.len() == wiki@.len(),
        forall|j: int|
            0 <= j < wiki@.len() ==> wiki::depth_view(#[trigger] depths@[j]) == distance(wiki@, j),
{
    let ghost nodes = wiki@;
    let total: usize = wiki.text_nodes.len();
    let mut depths: Vec<Option<usize>> = Vec::new();
    let mut i: usize = 0;
    while i < total
        invariant
            i <= total,
            depths@.len() == i,
            forall|j: int| 0 <= j < i ==> #[trigger] depths@[j] is None,
        decreases total - i,
    {
        depths.push(None);
        i = i + 1;
    }
    proof {
        lemma_unscored_all(depths@);
    }

    // Start traversal at the home node when it exists.
    let mut queue: Vec<usize> = Vec::new();
    if let Some(home) = wiki.position(wiki::HOME_TITLE) {
        proof {
            lemma_unscored_update(depths@, home as int, 0);
        }
        depths.set(home, Some(0));
        queue.push(home);
        proof {
            assert(walk(nodes, 0, home as int));
            assert(queue@[0] == home);
        }
    }

    // Score each newly reached node and queue it for traversal.
    let mut head: usize = 0;
    while head < queue.len()
        invariant
            nodes == wiki@,
            total == nodes.len(),
            total == wiki.text_nodes@.len(),
            head <= queue@.len(),
            queue_ok(nodes, depths@, queue@),
            done(nodes, depths@, queue@, head as int),
            home_scored(nodes, depths@),
            head < queue@.len() ==> forall|b: int|
                0 <= b < queue@.len() ==> depths@[(#[trigger] queue@[b]) as int]->0
                    <= depths@[queue@[head as int] as int]->0 + 1,
        decreases total - head,
    {
        let at = queue[head];
        proof {
            assert(queue@[head as int] == at);
        }
        let depth = depths[at].unwrap();
        let links = &wiki.text_nodes[at].links;
        let mut k: usize = 0;
        proof {
            assert(nodes[at as int].links.len() == links@.len());
        }
        while k < links.len()
            invariant
                nodes == wiki@,
                total == nodes.len(),
                total == wiki.text_nodes@.len(),
                at < total,
                *links == wiki.text_nodes@[at as int].links,
                head < queue@.len(),
                queue@[head as int] == at,
                depths@[at as int] == Some(depth),
                depth <= head,
                k <= links@.len(),
                queue_ok(nodes, depths@, queue@),
                done(nodes, depths@, queue@, head as int),
                links_done(nodes, depths@, at as int, k as int),
                home_scored(nodes, depths@),
                forall|b: int|
                    0 <= b < queue@.len() ==> depths@[(#[trigger] queue@[b]) as int]->0 <= depth
                        + 1,
            decreases links.len() - k,
        {
            let ghost link = nodes[at as int].links[k as int];
            proof {
                assert(link == links@[k as int]@);
            }
            if let Link::Text { title, source_range } = &links[k] {
                let found = wiki.position(title.as_str());
                if let Some(target) = found {
                    proof {
                        assert(link_leads_to(nodes, link, target as int));
                        assert(leads_to(nodes, at as int, target as int));
                    }
                    if depths[target].is_none() {
                        let ghost before = depths@;
                        let ghost waiting = queue@;
                        proof {
                            lemma_unscored_update(before, target as int, (depth + 1) as usize);
                            assert(walk(nodes, (depth + 1) as nat, target as int)) by {
                                assert(walk(nodes, depth as nat, at as int));
                            }
                        }
                        depths.set(target, Some(depth + 1));
                        queue.push(target);
                        proof {
                            let after = depths@;
                            assert(after == before.update(target as int, Some((depth + 1) as usize)));
                            assert(queue@ == waiting.push(target));
                            assert forall|a: int| 0 <= a < waiting.len() implies
                                #[trigger] queue@[a] == waiting[a] && queue@[a] != target by {}
                            assert forall|j: int|
                                0 <= j < nodes.len() && (#[trigger] after[j]) is Some implies exists|
                                a: int,
                            | 0 <= a < queue@.len() && #[trigger] queue@[a] == j by {
                                if j == target {
                                    assert(queue@[waiting.len() as int] == j);
                                } else {
                                    assert(before[j] is Some);
                                    let a = choose|a: int|
                                        0 <= a < waiting.len() && #[trigger] waiting[a] == j;
                                    assert(queue@[a] == j);
                                }
                            }
                            assert(queue_ok(nodes, after, queue@));
                            assert forall|a: int| 0 <= a < head implies links_done(
                                nodes,
                                after,
                                (#[trigger] queue@[a]) as int,
                                nodes[queue@[a] as int].links.len() as int,
                            ) by {
                                assert(links_done(
                                    nodes,
                                    before,
                                    waiting[a] as int,
                                    nodes[waiting[a] as int].links.len() as int,
                                ));
                            }
                        }
                    } else {
                        proof {
                            let b = choose|b: int|
                                0 <= b < queue@.len() && #[trigger] queue@[b] == target;
                            assert(depths@[queue@[b] as int]->0 <= depth + 1);
                        }
                    }
                }
            }
            proof {
                assert forall|m: int, j: int|
                    #![trigger link_leads_to(nodes, nodes[at as int].links[m], j)]
                    0 <= m < k + 1 && link_leads_to(nodes, nodes[at as int].links[m], j) implies 0
                    <= j < nodes.len() && depths@[j] is Some && depths@[j]->0 <= depths@[at as int]->0
                    + 1 by {
                    if m == k {
                        assert(nodes[at as int].links[m] == link);
                    }
                }
            }
            k = k + 1;
        }
        head = head + 1;
        proof {
            if head < queue@.len() {
                assert(depths@[queue@[head - 1] as int]->0 <= depths@[queue@[head as int] as int]->0);
            }
        }
    }
    proof {
        assert forall|j: int| 0 <= j < nodes.len() implies wiki::depth_view(#[trigger] depths@[j])
            == distance(nodes, j) by {
            assert forall|k: nat| #[trigger] walk(nodes, k, j) implies depths@[j] is Some
                && depths@[j]->0 <= k by {
                lemma_walks_covered(nodes, depths@, queue@, k, j);
            }
            assert(is_distance(nodes, j, wiki::depth_view(depths@[j])));
            lemma_distance_unique(nodes, j, wiki::depth_view(depths@[j]));
        }
    }
    depths
}

/// Populate minimum text-link distances from the home node using breadth-first traversal.
pub fn populate_depths(wiki: &mut Wiki)
    ensures
        final(wiki)@ == scored(old(wiki)@),
{
    let ghost nodes = wiki@;
    let depths = find_depths(wiki);
    let mut i: usize = 0;
    while i < wiki.text_nodes.len()
        invariant
            i <= wiki.text_nodes@.len(),
            wiki.text_nodes@.len() == nodes.len(),
            depths@.len() == nodes.len(),
            forall|j: int|
                0 <= j < nodes.len() ==> wiki::depth_view(#[trigger] depths@[j]) == distance(
                    nodes,
                    j,
                ),
            forall|j: int|
                0 <= j < i ==> (#[trigger] wiki.text_nodes@[j])@ == (NodeView {
                    depth: distance(nodes, j),
                    ..nodes[j]
                }),
            forall|j: int|
                i <= j < nodes.len() ==> (#[trigger] wiki.text_nodes@[j])@ == nodes[j],
        decreases wiki.text_nodes.len() - i,
    {
        let depth = depths[i];
        proof {
            assert(wiki.text_nodes@[i as int]@ == nodes[i as int]);
            assert(wiki::depth_view(depths@[i as int]) == distance(nodes, i as int));
        }
        wiki.text_nodes[i].depth = depth;
        i = i + 1;
    }
    proof {
        assert(wiki@ =~= scored(nodes));
    }
}

} // verus!
