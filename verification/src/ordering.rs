//! The orders in which results come: what is listed keeps all of its items, and which of two items
//! comes first follows from what they are.

use vstd::prelude::*;

use crate::command;
use crate::completion;
use crate::completion::ItemView;
use crate::document;
use crate::error::Span;
use crate::language_server;
use crate::occurrences;
use crate::order;
use crate::path_util;
use crate::validate;
use crate::validator;
use crate::wiki;
use crate::wiki::NodeView;

verus! {

/// Whether indices choose the items of one sequence from another, each once.
pub open spec fn chooses<T>(a: Seq<T>, b: Seq<T>, indices: Seq<int>) -> bool {
    &&& indices.len() == a.len()
    &&& forall|i: int|
        0 <= i < a.len() ==> 0 <= #[trigger] indices[i] < b.len() && a[i] == b[indices[i]]
    &&& forall|i: int, j: int|
        #![trigger indices[i], indices[j]]
        0 <= i < j < a.len() ==> indices[i] != indices[j]
}

/// Whether one sequence has the items of another in some order, each as often as the other has it.
pub open spec fn rearranges<T>(a: Seq<T>, b: Seq<T>) -> bool {
    a.len() == b.len() && exists|indices: Seq<int>| #[trigger] chooses(a, b, indices)
}

/// Whether two texts are the same up to an index, and the first one ends there or has the character
/// with the smaller code point there.
pub open spec fn parts_at(a: Seq<char>, b: Seq<char>, k: int) -> bool {
    &&& 0 <= k <= a.len()
    &&& k < b.len()
    &&& forall|i: int| 0 <= i < k ==> #[trigger] a[i] == b[i]
    &&& k < a.len() ==> (a[k] as int) < (b[k] as int)
}

/// Whether a text comes before another one in the dictionary.
pub open spec fn text_before(a: Seq<char>, b: Seq<char>) -> bool {
    exists|k: int| #[trigger] parts_at(a, b, k)
}

/// Whether a text comes no later than another one in the dictionary.
pub open spec fn text_up_to(a: Seq<char>, b: Seq<char>) -> bool {
    a == b || text_before(a, b)
}

/// Where two keys part.
proof fn lemma_keys_part(x: Seq<u64>, y: Seq<u64>) -> (k: int)
    requires
        order::key_before(x, y),
    ensures
        0 <= k <= x.len(),
        k < y.len(),
        forall|i: int| 0 <= i < k ==> #[trigger] x[i] == y[i],
        k < x.len() ==> x[k] < y[k],
    decreases x.len(),
{
    if x.len() == 0 || x[0] != y[0] {
        0
    } else {
        let k = lemma_keys_part(x.drop_first(), y.drop_first()) + 1;
        assert forall|i: int| 0 <= i < k implies #[trigger] x[i] == y[i] by {
            if i > 0 {
                assert(x.drop_first()[i - 1] == y.drop_first()[i - 1]);
            }
        }
        k
    }
}

/// Keys of texts are ordered as the texts are.
proof fn lemma_text_keys(a: Seq<char>, b: Seq<char>)
    ensures
        order::key_before(order::text_key(a), order::text_key(b)) ==> text_before(a, b),
        order::text_key(a) == order::text_key(b) ==> a == b,
{
    let x = order::text_key(a);
    let y = order::text_key(b);
    if order::key_before(x, y) {
        let k = lemma_keys_part(x, y);
        assert forall|i: int| 0 <= i < k implies #[trigger] a[i] == b[i] by {
            assert(x[i] == y[i]);
            assert(x[i] == a[i] as u64 && y[i] == b[i] as u64);
            lemma_same_code(a[i], b[i]);
        }
        if k < a.len() {
            assert(x[k] == a[k] as u64 && y[k] == b[k] as u64);
            lemma_code_order(a[k], b[k]);
        }
        assert(parts_at(a, b, k));
    }
    if x == y {
        order::lemma_text_key_injective(a, b);
    }
}

proof fn lemma_same_code(a: char, b: char)
    requires
        a as u64 == b as u64,
    ensures
        a == b,
{
}

proof fn lemma_code_order(a: char, b: char)
    requires
        (a as u64) < (b as u64),
    ensures
        (a as int) < (b as int),
{
}

/// Sorting keeps all items, and keys never decrease.
proof fn lemma_arranged<T>(items: Seq<T>, keys: Seq<Seq<u64>>)
    requires
        items.len() == keys.len(),
    ensures
        rearranges(order::arranged(items, order::sort_order(keys)), items),
        forall|i: int|
            0 <= i < items.len() ==> {
                let p = #[trigger] order::sort_order(keys)[i];
                0 <= p < items.len() && order::arranged(items, order::sort_order(keys))[i]
                    == items[p]
            },
        forall|i: int, j: int|
            0 <= i < j < items.len() ==> {
                let x = keys[#[trigger] order::sort_order(keys)[i]];
                let y = keys[#[trigger] order::sort_order(keys)[j]];
                order::key_before(x, y) || x == y
            },
{
    let sorted = order::sort_order(keys);
    let result = order::arranged(items, sorted);
    order::lemma_sort_order_sorts(keys);
    order::lemma_sort_order_permutes(keys);
    assert(chooses(result, items, sorted));
}

/// Items that are ordered by texts stay the same items, and the text of an item comes no later than
/// that of an item behind it.
proof fn lemma_ordered_by_text<T>(items: Seq<T>, texts: Seq<Seq<char>>)
    requires
        items.len() == texts.len(),
    ensures
        ({
            let keys = validator::text_keys(texts);
            let sorted = order::sort_order(keys);
            let result = order::arranged(items, sorted);
            &&& rearranges(result, items)
            &&& forall|i: int|
                0 <= i < items.len() ==> 0 <= #[trigger] sorted[i] < items.len() && result[i]
                    == items[sorted[i]]
            &&& forall|i: int, j: int|
                #![trigger sorted[i], sorted[j]]
                0 <= i < j < items.len() ==> text_up_to(texts[sorted[i]], texts[sorted[j]])
        }),
{
    let keys = validator::text_keys(texts);
    let sorted = order::sort_order(keys);
    lemma_arranged(items, keys);
    assert forall|i: int, j: int|
        #![trigger sorted[i], sorted[j]]
        0 <= i < j < items.len() implies text_up_to(texts[sorted[i]], texts[sorted[j]]) by {
        let a = texts[sorted[i]];
        let b = texts[sorted[j]];
        assert(keys[sorted[i]] == order::text_key(a));
        assert(keys[sorted[j]] == order::text_key(b));
        lemma_text_keys(a, b);
    }
}

/// Whether a depth comes no later than another one: nodes without a depth come last.
pub open spec fn depth_up_to(a: Option<nat>, b: Option<nat>) -> bool {
    match (a, b) {
        (Some(x), Some(y)) => x <= y,
        (Some(x), None) => true,
        (None, Some(y)) => false,
        (None, None) => true,
    }
}

/// Whether the depths of nodes are numbers that a machine can hold.
pub open spec fn depths_fit(nodes: Seq<NodeView>) -> bool {
    forall|i: int|
        0 <= i < nodes.len() ==> ((#[trigger] nodes[i]).depth matches Some(depth) ==> depth
            <= usize::MAX)
}

/// A rendered wiki has all of its nodes. Depths never decrease from node to node, nodes without a
/// depth come last, and among nodes of one depth titles are in alphabetical order.
pub proof fn law_nodes_are_rendered_by_depth_and_title(nodes: Seq<NodeView>)
    requires
        depths_fit(nodes),
    ensures
        rearranges(wiki::nodes_in_order(nodes), nodes),
        forall|i: int, j: int|
            0 <= i < j < nodes.len() ==> {
                let a = #[trigger] wiki::nodes_in_order(nodes)[i];
                let b = #[trigger] wiki::nodes_in_order(nodes)[j];
                &&& depth_up_to(a.depth, b.depth)
                &&& a.depth == b.depth ==> text_up_to(a.title, b.title)
            },
{
    let keys = wiki::node_keys(nodes);
    let sorted = order::sort_order(keys);
    let result = wiki::nodes_in_order(nodes);
    lemma_arranged(nodes, keys);
    assert forall|i: int, j: int| 0 <= i < j < nodes.len() implies {
        let a = #[trigger] result[i];
        let b = #[trigger] result[j];
        &&& depth_up_to(a.depth, b.depth)
        &&& a.depth == b.depth ==> text_up_to(a.title, b.title)
    } by {
        let a = nodes[sorted[i]];
        let b = nodes[sorted[j]];
        assert(result[i] == a && result[j] == b);
        let x = keys[sorted[i]];
        let y = keys[sorted[j]];
        assert(x == wiki::node_key(a));
        assert(y == wiki::node_key(b));
        lemma_text_keys(a.title, b.title);
        assert(x.skip(2) =~= order::text_key(a.title));
        assert(y.skip(2) =~= order::text_key(b.title));
        if order::key_before(x, y) {
            let k = lemma_keys_part(x, y);
            if a.depth == b.depth {
                assert(x[0] == y[0] && x[1] == y[1]);
                assert(x.drop_first().drop_first() =~= x.skip(2));
                assert(y.drop_first().drop_first() =~= y.skip(2));
                assert(order::key_before(x.drop_first(), y.drop_first()));
                assert(order::key_before(x.skip(2), y.skip(2)));
            } else if k >= 2 {
                assert(x[0] == y[0] && x[1] == y[1]);
            }
        } else {
            assert(x[0] == y[0] && x[1] == y[1]);
        }
    }
}

/// The nodes of a wiki by title are all of its nodes, with their titles in alphabetical order.
pub proof fn law_nodes_by_title(nodes: Seq<NodeView>)
    ensures
        rearranges(wiki::nodes_by_title(nodes), nodes),
        forall|i: int, j: int|
            0 <= i < j < nodes.len() ==> text_up_to(
                (#[trigger] wiki::nodes_by_title(nodes)[i]).title,
                (#[trigger] wiki::nodes_by_title(nodes)[j]).title,
            ),
{
    let titles = nodes.map_values(|node: NodeView| node.title);
    let sorted = order::sort_order(validator::text_keys(titles));
    assert(validator::text_keys(titles) =~= wiki::title_keys(nodes));
    lemma_ordered_by_text(nodes, titles);
    assert forall|i: int, j: int| 0 <= i < j < nodes.len() implies text_up_to(
        (#[trigger] wiki::nodes_by_title(nodes)[i]).title,
        (#[trigger] wiki::nodes_by_title(nodes)[j]).title,
    ) by {
        assert(titles[sorted[i]] == nodes[sorted[i]].title);
        assert(titles[sorted[j]] == nodes[sorted[j]].title);
    }
}

/// The nodes of a document by title are all of its nodes, with their titles in alphabetical order.
pub proof fn law_document_nodes_by_title(nodes: Seq<document::NodeView>)
    ensures
        rearranges(document::nodes_by_title(nodes), nodes),
        forall|i: int, j: int|
            0 <= i < j < nodes.len() ==> text_up_to(
                (#[trigger] document::nodes_by_title(nodes)[i]).title,
                (#[trigger] document::nodes_by_title(nodes)[j]).title,
            ),
{
    let titles = nodes.map_values(|node: document::NodeView| node.title);
    let sorted = order::sort_order(validator::text_keys(titles));
    assert(validator::text_keys(titles) =~= document::title_keys(nodes));
    lemma_ordered_by_text(nodes, titles);
    assert forall|i: int, j: int| 0 <= i < j < nodes.len() implies text_up_to(
        (#[trigger] document::nodes_by_title(nodes)[i]).title,
        (#[trigger] document::nodes_by_title(nodes)[j]).title,
    ) by {
        assert(titles[sorted[i]] == nodes[sorted[i]].title);
        assert(titles[sorted[j]] == nodes[sorted[j]].title);
    }
}

/// Texts in order are the same texts in alphabetical order.
pub proof fn law_sorted_texts(texts: Seq<Seq<char>>)
    ensures
        rearranges(validate::sorted_texts(texts), texts),
        forall|i: int, j: int|
            0 <= i < j < texts.len() ==> text_up_to(
                #[trigger] validate::sorted_texts(texts)[i],
                #[trigger] validate::sorted_texts(texts)[j],
            ),
{
    lemma_ordered_by_text(texts, texts);
    let sorted = order::sort_order(validator::text_keys(texts));
    assert forall|i: int, j: int| 0 <= i < j < texts.len() implies text_up_to(
        #[trigger] validate::sorted_texts(texts)[i],
        #[trigger] validate::sorted_texts(texts)[j],
    ) by {
        assert(validate::sorted_texts(texts)[i] == texts[sorted[i]]);
        assert(validate::sorted_texts(texts)[j] == texts[sorted[j]]);
    }
}

/// Errors that are ordered by their texts are the same errors, and each has a text that comes no later
/// than that of an error behind it.
pub proof fn law_errors_are_ordered_by_text<T>(errors: Seq<T>, texts: Seq<Seq<char>>)
    requires
        errors.len() == texts.len(),
    ensures
        exists|indices: Seq<int>|
            {
                &&& #[trigger] chooses(validator::ordered_by_text(errors, texts), errors, indices)
                &&& forall|i: int, j: int|
                    #![trigger indices[i], indices[j]]
                    0 <= i < j < errors.len() ==> text_up_to(texts[indices[i]], texts[indices[j]])
            },
        validator::ordered_by_text(errors, texts).len() == errors.len(),
{
    let keys = validator::text_keys(texts);
    let sorted = order::sort_order(keys);
    lemma_ordered_by_text(errors, texts);
    order::lemma_sort_order_permutes(keys);
    assert(chooses(validator::ordered_by_text(errors, texts), errors, sorted));
}

/// Completions in order are the same completions, with their labels in alphabetical order.
pub proof fn law_completions_are_ordered_by_label(items: Seq<ItemView>)
    ensures
        rearranges(completion::items_by_label(items), items),
        forall|i: int, j: int|
            0 <= i < j < items.len() ==> text_up_to(
                (#[trigger] completion::items_by_label(items)[i]).label,
                (#[trigger] completion::items_by_label(items)[j]).label,
            ),
{
    let labels = completion::labels(items);
    let sorted = order::sort_order(validator::text_keys(labels));
    lemma_ordered_by_text(items, labels);
    assert forall|i: int, j: int| 0 <= i < j < items.len() implies text_up_to(
        (#[trigger] completion::items_by_label(items)[i]).label,
        (#[trigger] completion::items_by_label(items)[j]).label,
    ) by {
        assert(labels[sorted[i]] == items[sorted[i]].label);
        assert(labels[sorted[j]] == items[sorted[j]].label);
    }
}

/// Whether a range starts before another one, or at the same place and ends no later.
pub open spec fn span_up_to(a: Span, b: Span) -> bool {
    a.start < b.start || a.start == b.start && a.end <= b.end
}

/// Whether ranges hold numbers that a machine can hold.
pub open spec fn spans_fit(spans: Seq<Span>) -> bool {
    forall|i: int|
        0 <= i < spans.len() ==> 0 <= (#[trigger] spans[i]).start <= usize::MAX && 0
            <= spans[i].end <= usize::MAX
}

/// Items that are ordered by ranges are the same items, each with its range, and ranges come in the
/// order of their starts.
pub proof fn law_items_are_ordered_by_range<T>(items: Seq<T>, spans: Seq<Span>)
    requires
        items.len() == spans.len(),
        spans_fit(spans),
    ensures
        exists|indices: Seq<int>|
            {
                &&& #[trigger] chooses(occurrences::ordered_by_span(items, spans), items, indices)
                &&& forall|i: int, j: int|
                    #![trigger indices[i], indices[j]]
                    0 <= i < j < items.len() ==> span_up_to(spans[indices[i]], spans[indices[j]])
            },
        occurrences::ordered_by_span(items, spans).len() == items.len(),
{
    let keys = occurrences::span_keys(spans);
    let sorted = order::sort_order(keys);
    lemma_arranged(items, keys);
    order::lemma_sort_order_permutes(keys);
    assert(chooses(occurrences::ordered_by_span(items, spans), items, sorted));
    assert forall|i: int, j: int|
        #![trigger sorted[i], sorted[j]]
        0 <= i < j < items.len() implies span_up_to(spans[sorted[i]], spans[sorted[j]]) by {
        let a = spans[sorted[i]];
        let b = spans[sorted[j]];
        let x = keys[sorted[i]];
        let y = keys[sorted[j]];
        assert(x == seq![a.start as u64, a.end as u64]);
        assert(y == seq![b.start as u64, b.end as u64]);
        assert(x[0] == a.start as u64 && x[1] == a.end as u64);
        assert(y[0] == b.start as u64 && y[1] == b.end as u64);
        if order::key_before(x, y) {
            let k = lemma_keys_part(x, y);
            if k == 1 {
                assert(x[0] == y[0]);
            }
        }
    }
}

/// The nodes of a wiki in source order are all of its nodes, and none starts before one ahead of it.
pub proof fn law_nodes_by_start(nodes: Seq<NodeView>)
    requires
        forall|i: int|
            0 <= i < nodes.len() ==> 0 <= (#[trigger] nodes[i]).span.start <= usize::MAX,
    ensures
        rearranges(language_server::nodes_by_start(nodes), nodes),
        forall|i: int, j: int|
            0 <= i < j < nodes.len() ==> (#[trigger] language_server::nodes_by_start(
                nodes,
            )[i]).span.start <= (#[trigger] language_server::nodes_by_start(nodes)[j]).span.start,
{
    let keys = language_server::start_keys(nodes);
    let sorted = order::sort_order(keys);
    lemma_arranged(nodes, keys);
    assert forall|i: int, j: int| 0 <= i < j < nodes.len() implies (
    #[trigger] language_server::nodes_by_start(nodes)[i]).span.start <= (
    #[trigger] language_server::nodes_by_start(nodes)[j]).span.start by {
        let a = nodes[sorted[i]];
        let b = nodes[sorted[j]];
        let x = keys[sorted[i]];
        let y = keys[sorted[j]];
        assert(x == seq![a.span.start as u64]);
        assert(y == seq![b.span.start as u64]);
        assert(x[0] == a.span.start as u64);
        assert(y[0] == b.span.start as u64);
        if order::key_before(x, y) {
            let k = lemma_keys_part(x, y);
        }
    }
}

/// The place of a component among the kinds of components: the root, the directory itself, the one above,
/// and names.
pub open spec fn rank(component: Seq<char>) -> int {
    if component == seq!['/'] {
        0
    } else if component == seq!['.'] {
        1
    } else if component == seq!['.', '.'] {
        2
    } else {
        3
    }
}

/// Whether a component comes before another one: it is of an earlier kind, or both are names and its
/// text comes first.
pub open spec fn component_before(a: Seq<char>, b: Seq<char>) -> bool {
    rank(a) < rank(b) || rank(a) == 3 && rank(b) == 3 && text_before(a, b)
}

/// Whether two paths have the same components up to an index, and the first one ends there or has the
/// earlier component there.
pub open spec fn paths_part_at(a: Seq<Seq<char>>, b: Seq<Seq<char>>, k: int) -> bool {
    &&& 0 <= k <= a.len()
    &&& k < b.len()
    &&& forall|i: int| 0 <= i < k ==> #[trigger] a[i] == b[i]
    &&& k < a.len() ==> component_before(a[k], b[k])
}

/// Whether a path comes no later than another one, component by component.
pub open spec fn path_up_to(a: Seq<char>, b: Seq<char>) -> bool {
    let x = path_util::components(a);
    let y = path_util::components(b);
    x == y || exists|k: int| #[trigger] paths_part_at(x, y, k)
}

/// Whether a link comes no later than another one: text links by title, then files, then directories by
/// path.
pub open spec fn link_up_to(a: document::LinkView, b: document::LinkView) -> bool {
    match (a, b) {
        (document::LinkView::Text(x), document::LinkView::Text(y)) => text_up_to(x, y),
        (document::LinkView::File(x), document::LinkView::File(y)) => path_up_to(x, y),
        (document::LinkView::Directory(x), document::LinkView::Directory(y)) => path_up_to(x, y),
        (document::LinkView::Text(x), _) => true,
        (document::LinkView::File(x), document::LinkView::Directory(y)) => true,
        _ => false,
    }
}

/// The key of components goes component by component from the front as well.
proof fn lemma_key_from_front(parts: Seq<Seq<char>>)
    requires
        parts.len() > 0,
    ensures
        path_util::components_key(parts) == path_util::component_key(parts[0])
            + path_util::components_key(parts.drop_first()),
    decreases parts.len(),
{
    let first = path_util::component_key(parts[0]);
    if parts.len() == 1 {
        assert(parts.drop_last() =~= Seq::<Seq<char>>::empty());
        assert(parts.drop_first() =~= Seq::<Seq<char>>::empty());
        assert(parts.last() == parts[0]);
        assert(path_util::components_key(parts.drop_last()) =~= Seq::<u64>::empty());
        assert(path_util::components_key(parts) =~= first);
        assert(first + path_util::components_key(parts.drop_first()) =~= first);
    } else {
        let front = parts.drop_last();
        let rest = parts.drop_first();
        lemma_key_from_front(front);
        assert(front.drop_first() =~= rest.drop_last());
        assert(rest.last() == parts.last());
        assert(first + path_util::components_key(rest) =~= (first + path_util::components_key(
            rest.drop_last(),
        )) + path_util::component_key(parts.last()));
    }
}

/// Keys that start alike are ordered by what follows.
proof fn lemma_keys_start_alike(start: Seq<u64>, x: Seq<u64>, y: Seq<u64>)
    requires
        order::key_before(start + x, start + y),
    ensures
        order::key_before(x, y),
    decreases start.len(),
{
    if start.len() == 0 {
        assert(start + x =~= x);
        assert(start + y =~= y);
    } else {
        assert((start + x).drop_first() =~= start.drop_first() + x);
        assert((start + y).drop_first() =~= start.drop_first() + y);
        lemma_keys_start_alike(start.drop_first(), x, y);
    }
}

/// What the key of a component is made of.
proof fn lemma_component_key(c: Seq<char>)
    ensures
        ({
            let key = path_util::component_key(c);
            &&& key.len() == c.len() + 2
            &&& key[0] == rank(c)
            &&& forall|i: int|
                0 < i <= c.len() ==> #[trigger] key[i] == c[i - 1] as int + 1
            &&& key[c.len() as int + 1] == 0
        }),
{
    reveal_strlit("/");
    reveal_strlit(".");
    reveal_strlit("..");
    assert("/"@ =~= seq!['/']);
    assert("."@ =~= seq!['.']);
    assert(".."@ =~= seq!['.', '.']);
    let key = path_util::component_key(c);
    let codes = c.map_values(|c: char| (c as u64 + 1) as u64).push(0);
    assert(key[0] == path_util::component_kind(c));
    assert forall|i: int| 0 < i <= c.len() implies #[trigger] key[i] == c[i - 1] as int + 1 by {
        assert(key[i] == codes[i - 1]);
        lemma_code_and_one(c[i - 1]);
    }
    assert(key[c.len() as int + 1] == codes[c.len() as int]);
}

proof fn lemma_code_and_one(c: char)
    ensures
        (c as u64 + 1) as u64 == c as int + 1,
        c as int >= 0,
{
}

proof fn lemma_same_code_and_one(a: char, b: char)
    requires
        a as int + 1 == b as int + 1,
    ensures
        a == b,
{
}

/// Different components with keys that agree up to an index part no later than both have ended.
#[verifier::rlimit(40)]
#[verifier::spinoff_prover]
proof fn lemma_components_part(a: Seq<char>, b: Seq<char>, k: int)
    requires
        a != b,
        0 <= k,
        forall|i: int|
            0 <= i < k && i < a.len() + 2 && i < b.len() + 2 ==> #[trigger] path_util::component_key(
                a,
            )[i] == path_util::component_key(b)[i],
    ensures
        k < a.len() + 2,
        k < b.len() + 2,
        k > 0 ==> rank(a) == 3 && rank(b) == 3,
        forall|i: int| 0 <= i < k - 1 ==> i < a.len() && i < b.len() && #[trigger] a[i] == b[i],
{
    let x = path_util::component_key(a);
    let y = path_util::component_key(b);
    lemma_component_key(a);
    lemma_component_key(b);
    let n: int = if a.len() <= b.len() {
        a.len() as int
    } else {
        b.len() as int
    };
    assert forall|i: int| 0 <= i < k - 1 && i < n implies #[trigger] a[i] == b[i] by {
        assert(x[i + 1] == y[i + 1]);
        assert(x[i + 1] == a[i] as int + 1);
        assert(y[i + 1] == b[i] as int + 1);
        lemma_same_code_and_one(a[i], b[i]);
    }
    if k > n + 1 {
        assert(x[n + 1] == y[n + 1]);
        if a.len() < b.len() {
            assert(y[n + 1] == b[n] as int + 1);
            lemma_code_and_one(b[n]);
        } else if b.len() < a.len() {
            assert(x[n + 1] == a[n] as int + 1);
            lemma_code_and_one(a[n]);
        }
        assert(a.len() == b.len());
        assert(a =~= b);
    }
    if k > 0 {
        assert(x[0] == y[0]);
    }
}

/// Keys of paths are ordered as their components are.
#[verifier::rlimit(40)]
#[verifier::spinoff_prover]
proof fn lemma_path_keys(a: Seq<Seq<char>>, b: Seq<Seq<char>>) -> (k: int)
    requires
        order::key_before(path_util::components_key(a), path_util::components_key(b)),
    ensures
        paths_part_at(a, b, k),
    decreases a.len(),
{
    if b.len() == 0 || a.len() == 0 {
        0
    } else {
        lemma_key_from_front(a);
        lemma_key_from_front(b);
        let x = path_util::component_key(a[0]);
        let y = path_util::component_key(b[0]);
        let more = path_util::components_key(a.drop_first());
        let others = path_util::components_key(b.drop_first());
        if a[0] == b[0] {
            lemma_keys_start_alike(x, more, others);
            let k = lemma_path_keys(a.drop_first(), b.drop_first()) + 1;
            assert forall|i: int| 0 <= i < k implies #[trigger] a[i] == b[i] by {
                if i > 0 {
                    assert(a.drop_first()[i - 1] == b.drop_first()[i - 1]);
                }
            }
            if k < a.len() {
                assert(a.drop_first()[k - 1] == a[k]);
                assert(b.drop_first()[k - 1] == b[k]);
            }
            k
        } else {
            let k = lemma_keys_part(x + more, y + others);
            lemma_component_key(a[0]);
            lemma_component_key(b[0]);
            assert forall|i: int| 0 <= i < k && i < a[0].len() + 2 && i < b[0].len() + 2 implies
                #[trigger] path_util::component_key(a[0])[i] == path_util::component_key(b[0])[i] by {
                assert((x + more)[i] == (y + others)[i]);
            }
            lemma_components_part(a[0], b[0], k);
            assert((x + more)[k] == x[k]);
            assert((y + others)[k] == y[k]);
            if k > 0 {
                let c = a[0];
                let d = b[0];
                assert(x[k] < y[k]);
                assert(k - 1 < d.len());
                assert(y[k] == d[k - 1] as int + 1);
                if k - 1 < c.len() {
                    assert(x[k] == c[k - 1] as int + 1);
                }
                assert(parts_at(c, d, k - 1));
            }
            0
        }
    }
}

/// Paths with the same key have the same components.
proof fn lemma_same_path_key(a: Seq<Seq<char>>, b: Seq<Seq<char>>)
    requires
        path_util::components_key(a) == path_util::components_key(b),
    ensures
        a == b,
    decreases a.len(),
{
    if a.len() == 0 || b.len() == 0 {
        if a.len() > 0 {
            lemma_key_from_front(a);
            lemma_component_key(a[0]);
        }
        if b.len() > 0 {
            lemma_key_from_front(b);
            lemma_component_key(b[0]);
        }
        assert(a =~= b);
    } else {
        lemma_key_from_front(a);
        lemma_key_from_front(b);
        let x = path_util::component_key(a[0]);
        let y = path_util::component_key(b[0]);
        let more = path_util::components_key(a.drop_first());
        let others = path_util::components_key(b.drop_first());
        lemma_component_key(a[0]);
        lemma_component_key(b[0]);
        if a[0] != b[0] {
            let k = (a[0].len() + b[0].len() + 4) as int;
            assert forall|i: int| 0 <= i < k && i < a[0].len() + 2 && i < b[0].len() + 2 implies
                #[trigger] path_util::component_key(a[0])[i] == path_util::component_key(b[0])[i] by {
                assert((x + more)[i] == (y + others)[i]);
            }
            lemma_components_part(a[0], b[0], k);
        }
        assert((x + more).skip(x.len() as int) =~= more);
        assert((y + others).skip(y.len() as int) =~= others);
        lemma_same_path_key(a.drop_first(), b.drop_first());
        assert(a =~= seq![a[0]] + a.drop_first());
        assert(b =~= seq![b[0]] + b.drop_first());
    }
}

proof fn lemma_paths_ordered(a: Seq<char>, b: Seq<char>)
    requires
        order::key_before(path_util::path_key(a), path_util::path_key(b)) || path_util::path_key(a)
            == path_util::path_key(b),
    ensures
        path_up_to(a, b),
{
    let x = path_util::components(a);
    let y = path_util::components(b);
    if path_util::path_key(a) == path_util::path_key(b) {
        lemma_same_path_key(x, y);
    } else {
        let k = lemma_path_keys(x, y);
        assert(paths_part_at(x, y, k));
    }
}

/// Sorting paths keeps every path, and puts them in order component by component.
pub proof fn law_sorted_paths(paths: Seq<Seq<char>>)
    ensures
        rearranges(command::sorted_paths(paths), paths),
        forall|i: int, j: int|
            0 <= i < j < paths.len() ==> path_up_to(
                #[trigger] command::sorted_paths(paths)[i],
                #[trigger] command::sorted_paths(paths)[j],
            ),
{
    let keys = command::path_keys(paths);
    let sorted = order::sort_order(keys);
    let result = command::sorted_paths(paths);
    lemma_arranged(paths, keys);
    assert forall|i: int, j: int| 0 <= i < j < paths.len() implies path_up_to(
        #[trigger] result[i],
        #[trigger] result[j],
    ) by {
        let p = sorted[i];
        let q = sorted[j];
        assert(result[i] == paths[p] && result[j] == paths[q]);
        assert(keys[p] == path_util::path_key(paths[p]));
        assert(keys[q] == path_util::path_key(paths[q]));
        lemma_paths_ordered(paths[p], paths[q]);
    }
}

/// Sorting the links of a node keeps every link, and puts text links before files and files before
/// directories, text links by title and the others by path.
pub proof fn law_sorted_links(links: Seq<document::LinkView>)
    ensures
        rearranges(validate::sorted_links(links), links),
        forall|i: int, j: int|
            0 <= i < j < links.len() ==> link_up_to(
                #[trigger] validate::sorted_links(links)[i],
                #[trigger] validate::sorted_links(links)[j],
            ),
{
    let keys = validate::link_keys(links);
    let sorted = order::sort_order(keys);
    let result = validate::sorted_links(links);
    lemma_arranged(links, keys);
    assert forall|i: int, j: int| 0 <= i < j < links.len() implies link_up_to(
        #[trigger] result[i],
        #[trigger] result[j],
    ) by {
        let a = links[sorted[i]];
        let b = links[sorted[j]];
        assert(result[i] == a && result[j] == b);
        assert(keys[sorted[i]] == validate::link_key(a));
        assert(keys[sorted[j]] == validate::link_key(b));
        lemma_links_ordered(a, b);
    }
}

proof fn lemma_links_ordered(a: document::LinkView, b: document::LinkView)
    requires
        order::key_before(validate::link_key(a), validate::link_key(b)) || validate::link_key(a)
            == validate::link_key(b),
    ensures
        link_up_to(a, b),
{
    let x = validate::link_key(a);
    let y = validate::link_key(b);
    assert(x[0] <= y[0]);
    let more = x.drop_first();
    let others = y.drop_first();
    match (a, b) {
        (document::LinkView::Text(s), document::LinkView::Text(t)) => {
            assert(more =~= order::text_key(s));
            assert(others =~= order::text_key(t));
            lemma_text_keys(s, t);
        },
        (document::LinkView::File(s), document::LinkView::File(t)) => {
            assert(more =~= path_util::path_key(s));
            assert(others =~= path_util::path_key(t));
            lemma_paths_ordered(s, t);
        },
        (document::LinkView::Directory(s), document::LinkView::Directory(t)) => {
            assert(more =~= path_util::path_key(s));
            assert(others =~= path_util::path_key(t));
            lemma_paths_ordered(s, t);
        },
        _ => {},
    }
}

/// Every link of a node is among its links in order.
pub proof fn lemma_sorted_link(links: Seq<document::LinkView>, k: int) -> (at: int)
    requires
        0 <= k < links.len(),
    ensures
        0 <= at < validate::sorted_links(links).len(),
        validate::sorted_links(links)[at] == links[k],
{
    let keys = validate::link_keys(links);
    let sorted = order::sort_order(keys);
    order::lemma_sort_order_sorts(keys);
    order::lemma_sort_order_covers(keys, k);
    let at = choose|at: int| 0 <= at < sorted.len() && sorted[at] == k;
    assert(validate::sorted_links(links)[at] == links[sorted[at]]);
    at
}

/// Every node of a document is among its nodes by title.
pub proof fn lemma_sorted_document_node(nodes: Seq<document::NodeView>, i: int) -> (at: int)
    requires
        0 <= i < nodes.len(),
    ensures
        0 <= at < document::nodes_by_title(nodes).len(),
        document::nodes_by_title(nodes)[at] == nodes[i],
{
    let keys = document::title_keys(nodes);
    let sorted = order::sort_order(keys);
    order::lemma_sort_order_sorts(keys);
    order::lemma_sort_order_covers(keys, i);
    let at = choose|at: int| 0 <= at < sorted.len() && sorted[at] == i;
    assert(document::nodes_by_title(nodes)[at] == nodes[sorted[at]]);
    at
}

/// Every node of a wiki is among its nodes by title.
pub proof fn lemma_sorted_node(nodes: Seq<NodeView>, i: int) -> (at: int)
    requires
        0 <= i < nodes.len(),
    ensures
        0 <= at < wiki::nodes_by_title(nodes).len(),
        wiki::nodes_by_title(nodes)[at] == nodes[i],
{
    let keys = wiki::title_keys(nodes);
    let sorted = order::sort_order(keys);
    order::lemma_sort_order_sorts(keys);
    order::lemma_sort_order_covers(keys, i);
    let at = choose|at: int| 0 <= at < sorted.len() && sorted[at] == i;
    assert(wiki::nodes_by_title(nodes)[at] == nodes[sorted[at]]);
    at
}

} // verus!
