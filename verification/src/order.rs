//! A stable sort over lexicographic keys.

use vstd::prelude::*;

verus! {

/// Whether one key comes strictly before another in lexicographic order.
pub open spec fn key_before(a: Seq<u64>, b: Seq<u64>) -> bool
    decreases a.len(),
{
    if b.len() == 0 {
        false
    } else if a.len() == 0 {
        true
    } else if a[0] != b[0] {
        a[0] < b[0]
    } else {
        key_before(a.drop_first(), b.drop_first())
    }
}

/// The key that sorts texts as strings sort: by the code points of their characters.
pub open spec fn text_key(s: Seq<char>) -> Seq<u64> {
    s.map_values(|c: char| c as u64)
}

/// The keys in a vector of keys.
pub open spec fn key_views(keys: Seq<Vec<u64>>) -> Seq<Seq<u64>> {
    keys.map_values(|key: Vec<u64>| key@)
}

/// Where a key belongs among indices that are already in order: after every index whose key does
/// not come after it.
pub open spec fn insertion_point(keys: Seq<Seq<u64>>, order: Seq<int>, key: Seq<u64>) -> int
    decreases order.len(),
{
    if order.len() > 0 && key_before(key, keys[order.last()]) {
        insertion_point(keys, order.drop_last(), key)
    } else {
        order.len() as int
    }
}

/// The indices of a sequence of keys in the order that sorts the keys, keeping equal keys in their
/// original order.
pub open spec fn sort_order(keys: Seq<Seq<u64>>) -> Seq<int>
    decreases keys.len(),
{
    if keys.len() == 0 {
        Seq::empty()
    } else {
        let order = sort_order(keys.drop_last());
        order.insert(insertion_point(keys, order, keys.last()), keys.len() - 1)
    }
}

/// The items of a sequence, in a given order.
pub open spec fn arranged<T>(items: Seq<T>, order: Seq<int>) -> Seq<T> {
    order.map_values(|i: int| items[i])
}

/// Whether an order lists every index of the keys once, with keys that never decrease and with
/// equal keys in their original order.
pub open spec fn is_sort_order(keys: Seq<Seq<u64>>, order: Seq<int>) -> bool {
    &&& order.len() == keys.len()
    &&& forall|i: int| 0 <= i < order.len() ==> 0 <= #[trigger] order[i] < keys.len()
    &&& forall|i: int, j: int|
        #![trigger order[i], order[j]]
        0 <= i < j < order.len() ==> {
            ||| key_before(keys[order[i]], keys[order[j]])
            ||| keys[order[i]] == keys[order[j]] && order[i] < order[j]
        }
}

pub proof fn lemma_key_order_irreflexive(a: Seq<u64>)
    ensures
        !key_before(a, a),
    decreases a.len(),
{
    if a.len() > 0 {
        lemma_key_order_irreflexive(a.drop_first());
    }
}

pub proof fn lemma_key_order_transitive(a: Seq<u64>, b: Seq<u64>, c: Seq<u64>)
    requires
        key_before(a, b),
        key_before(b, c),
    ensures
        key_before(a, c),
    decreases a.len(),
{
    if a.len() > 0 && b.len() > 0 && c.len() > 0 && a[0] == b[0] && b[0] == c[0] {
        lemma_key_order_transitive(a.drop_first(), b.drop_first(), c.drop_first());
    }
}

pub proof fn lemma_key_order_total(a: Seq<u64>, b: Seq<u64>)
    ensures
        key_before(a, b) || key_before(b, a) || a == b,
    decreases a.len(),
{
    if a.len() == 0 || b.len() == 0 {
        if a.len() == b.len() {
            assert(a =~= b);
        }
    } else if a[0] == b[0] {
        let x = a.drop_first();
        let y = b.drop_first();
        lemma_key_order_total(x, y);
        if x == y {
            assert(a =~= b) by {
                assert forall|i: int| 0 <= i < a.len() implies a[i] == b[i] by {
                    if i > 0 {
                        assert(a[i] == x[i - 1] && b[i] == y[i - 1]);
                    }
                }
            }
        }
    }
}

/// Texts with the same key are the same text.
pub proof fn lemma_text_key_injective(a: Seq<char>, b: Seq<char>)
    requires
        text_key(a) == text_key(b),
    ensures
        a == b,
{
    assert(a.len() == text_key(a).len());
    assert(b.len() == text_key(b).len());
    assert forall|i: int| 0 <= i < a.len() implies a[i] == b[i] by {
        let x: char = a[i];
        let y: char = b[i];
        assert(text_key(a)[i] == x as u64);
        assert(text_key(b)[i] == y as u64);
        lemma_char_code_injective(a[i], b[i]);
    }
    assert(a =~= b);
}

proof fn lemma_char_code_injective(a: char, b: char)
    requires
        a as u64 == b as u64,
    ensures
        a == b,
{
}

proof fn lemma_insertion_point(keys: Seq<Seq<u64>>, order: Seq<int>, key: Seq<u64>)
    ensures
        0 <= insertion_point(keys, order, key) <= order.len(),
        forall|i: int|
            insertion_point(keys, order, key) <= i < order.len() ==> key_before(
                key,
                keys[#[trigger] order[i]],
            ),
        insertion_point(keys, order, key) > 0 ==> !key_before(
            key,
            keys[order[insertion_point(keys, order, key) - 1]],
        ),
    decreases order.len(),
{
    if order.len() > 0 && key_before(key, keys[order.last()]) {
        lemma_insertion_point(keys, order.drop_last(), key);
        let at = insertion_point(keys, order.drop_last(), key);
        assert forall|i: int| at <= i < order.len() implies key_before(
            key,
            keys[#[trigger] order[i]],
        ) by {
            if i < order.len() - 1 {
                assert(order.drop_last()[i] == order[i]);
            }
        }
    }
}

/// Sorting lists every index once, in key order, and keeps equal keys in their original order.
pub proof fn lemma_sort_order_sorts(keys: Seq<Seq<u64>>)
    ensures
        is_sort_order(keys, sort_order(keys)),
    decreases keys.len(),
{
    if keys.len() > 0 {
        let front = keys.drop_last();
        let order = sort_order(front);
        let key = keys.last();
        let n = keys.len() - 1;
        lemma_sort_order_sorts(front);
        lemma_insertion_point(keys, order, key);
        let at = insertion_point(keys, order, key);
        let result = sort_order(keys);
        assert(result == order.insert(at, n));
        assert forall|i: int| 0 <= i < result.len() implies 0 <= #[trigger] result[i]
            < keys.len() by {
            if i < at {
                assert(result[i] == order[i]);
            } else if i > at {
                assert(result[i] == order[i - 1]);
            }
        }
        assert forall|i: int, j: int|
            #![trigger result[i], result[j]]
            0 <= i < j < result.len() implies ({
            ||| key_before(keys[result[i]], keys[result[j]])
            ||| keys[result[i]] == keys[result[j]] && result[i] < result[j]
        }) by {
            let a = if i < at {
                i
            } else {
                i - 1
            };
            let b = if j < at {
                j
            } else {
                j - 1
            };
            if i == at {
                assert(result[j] == order[b]);
            } else if j == at {
                assert(result[i] == order[i]);
                let last = order[at - 1];
                assert(keys[last] == front[last]);
                assert(keys[order[i]] == front[order[i]]);
                lemma_key_order_total(key, keys[last]);
                if i < at - 1 {
                    assert(key_before(front[order[i]], front[last]) || front[order[i]]
                        == front[last]);
                    if key_before(front[order[i]], front[last]) && key_before(keys[last], key) {
                        lemma_key_order_transitive(keys[order[i]], keys[last], key);
                    }
                }
            } else {
                assert(result[i] == order[a]);
                assert(result[j] == order[b]);
                assert(keys[order[a]] == front[order[a]]);
                assert(keys[order[b]] == front[order[b]]);
            }
        }
    }
}

/// The indices of a sort order are pairwise different.
pub proof fn lemma_sort_order_distinct(keys: Seq<Seq<u64>>, order: Seq<int>, i: int, j: int)
    requires
        is_sort_order(keys, order),
        0 <= i < j < order.len(),
    ensures
        order[i] != order[j],
{
    lemma_key_order_irreflexive(keys[order[i]]);
}

/// Sorting leaves no index out.
pub proof fn lemma_sort_order_covers(keys: Seq<Seq<u64>>, i: int)
    requires
        0 <= i < keys.len(),
    ensures
        exists|j: int| 0 <= j < sort_order(keys).len() && #[trigger] sort_order(keys)[j] == i,
    decreases keys.len(),
{
    let front = keys.drop_last();
    let order = sort_order(front);
    let at = insertion_point(keys, order, keys.last());
    lemma_insertion_point(keys, order, keys.last());
    let result = sort_order(keys);
    assert(result == order.insert(at, keys.len() - 1));
    if i == keys.len() - 1 {
        assert(result[at] == i);
    } else {
        lemma_sort_order_covers(front, i);
        let j = choose|j: int| 0 <= j < order.len() && #[trigger] order[j] == i;
        if j < at {
            assert(result[j] == i);
        } else {
            assert(result[j + 1] == i);
        }
    }
}

/// Sorting keys that are in order already leaves them where they are.
pub proof fn lemma_sort_order_of_sorted(keys: Seq<Seq<u64>>)
    requires
        forall|i: int, j: int|
            #![trigger keys[i], keys[j]]
            0 <= i < j < keys.len() ==> !key_before(keys[j], keys[i]),
    ensures
        sort_order(keys) == Seq::new(keys.len(), |i: int| i),
    decreases keys.len(),
{
    if keys.len() == 0 {
        assert(sort_order(keys) =~= Seq::new(keys.len(), |i: int| i));
    } else {
        let front = keys.drop_last();
        assert forall|i: int, j: int|
            #![trigger front[i], front[j]]
            0 <= i < j < front.len() implies !key_before(front[j], front[i]) by {
            assert(!key_before(keys[j], keys[i]));
        }
        lemma_sort_order_of_sorted(front);
        let order = sort_order(front);
        if order.len() > 0 {
            assert(order.last() == keys.len() - 2);
            assert(!key_before(keys[keys.len() - 1], keys[keys.len() - 2]));
        }
        assert(sort_order(keys) =~= Seq::new(keys.len(), |i: int| i));
    }
}

/// Whether an order lists every index below a bound once.
pub open spec fn is_permutation(order: Seq<int>, n: nat) -> bool {
    &&& order.len() == n
    &&& forall|i: int| 0 <= i < n ==> 0 <= #[trigger] order[i] < n
    &&& forall|i: int, j: int|
        #![trigger order[i], order[j]]
        0 <= i < j < n ==> order[i] != order[j]
    &&& forall|i: int| 0 <= i < n ==> #[trigger] order.contains(i)
}

/// Sorting gives a permutation.
pub proof fn lemma_sort_order_permutes(keys: Seq<Seq<u64>>)
    ensures
        is_permutation(sort_order(keys), keys.len()),
{
    let order = sort_order(keys);
    lemma_sort_order_sorts(keys);
    assert forall|i: int, j: int|
        #![trigger order[i], order[j]]
        0 <= i < j < keys.len() implies order[i] != order[j] by {
        lemma_sort_order_distinct(keys, order, i, j);
    }
    assert forall|i: int| 0 <= i < keys.len() implies #[trigger] order.contains(i) by {
        lemma_sort_order_covers(keys, i);
    }
}

/// Whether no two keys are the same.
pub open spec fn keys_distinct(keys: Seq<Seq<u64>>) -> bool {
    forall|i: int, j: int|
        #![trigger keys[i], keys[j]]
        0 <= i < j < keys.len() ==> keys[i] != keys[j]
}

/// Two orders that sort the same keys agree from the start.
proof fn lemma_sort_orders_agree(keys: Seq<Seq<u64>>, a: Seq<int>, b: Seq<int>, k: int)
    requires
        is_permutation(a, keys.len()),
        is_permutation(b, keys.len()),
        is_sort_order(keys, a),
        is_sort_order(keys, b),
        keys_distinct(keys),
        0 <= k <= keys.len(),
    ensures
        forall|i: int| 0 <= i < k ==> #[trigger] a[i] == b[i],
    decreases k,
{
    if k > 0 {
        let m = k - 1;
        lemma_sort_orders_agree(keys, a, b, m);
        if a[m] != b[m] {
            assert(b.contains(a[m]));
            let i = choose|i: int| 0 <= i < b.len() && b[i] == a[m];
            assert(a.contains(b[m]));
            let j = choose|j: int| 0 <= j < a.len() && a[j] == b[m];
            if i < m {
                assert(a[i] == b[i]);
            }
            if j < m {
                assert(a[j] == b[j]);
            }
            assert(key_before(keys[b[m]], keys[b[i]]));
            assert(key_before(keys[a[m]], keys[a[j]]));
            lemma_key_order_transitive(keys[a[m]], keys[b[m]], keys[a[m]]);
            lemma_key_order_irreflexive(keys[a[m]]);
        }
    }
}

/// Where no two keys are the same, sorting does not depend on the order in which the items come.
pub proof fn lemma_sorting_ignores_order<T>(
    items: Seq<T>,
    keys: Seq<Seq<u64>>,
    permutation: Seq<int>,
)
    requires
        items.len() == keys.len(),
        is_permutation(permutation, keys.len()),
        keys_distinct(keys),
    ensures
        arranged(arranged(items, permutation), sort_order(arranged(keys, permutation)))
            == arranged(items, sort_order(keys)),
{
    let n = keys.len();
    let moved = arranged(keys, permutation);
    let inner = sort_order(moved);
    let sorted = sort_order(keys);
    lemma_sort_order_permutes(moved);
    lemma_sort_order_permutes(keys);
    lemma_sort_order_sorts(moved);
    lemma_sort_order_sorts(keys);
    let outer = inner.map_values(|i: int| permutation[i]);
    assert forall|i: int| 0 <= i < n implies 0 <= #[trigger] outer[i] < n && outer[i]
        == permutation[inner[i]] by {
        assert(0 <= inner[i] < n);
        assert(0 <= permutation[inner[i]] < n);
    }
    assert forall|i: int, j: int|
        #![trigger outer[i], outer[j]]
        0 <= i < j < n implies outer[i] != outer[j] by {
        assert(inner[i] != inner[j]);
        assert(permutation[inner[i]] != permutation[inner[j]]);
    }
    assert forall|v: int| 0 <= v < n implies #[trigger] outer.contains(v) by {
        assert(permutation.contains(v));
        let u = choose|u: int| 0 <= u < permutation.len() && permutation[u] == v;
        assert(inner.contains(u));
        let i = choose|i: int| 0 <= i < inner.len() && inner[i] == u;
        assert(outer[i] == v);
    }
    assert forall|i: int, j: int|
        #![trigger outer[i], outer[j]]
        0 <= i < j < n implies ({
        ||| key_before(keys[outer[i]], keys[outer[j]])
        ||| keys[outer[i]] == keys[outer[j]] && outer[i] < outer[j]
    }) by {
        assert(moved[inner[i]] == keys[outer[i]]);
        assert(moved[inner[j]] == keys[outer[j]]);
        assert(outer[i] != outer[j]);
    }
    lemma_sort_orders_agree(keys, outer, sorted, n as int);
    let result = arranged(arranged(items, permutation), inner);
    assert forall|i: int| 0 <= i < n implies #[trigger] result[i] == items[sorted[i]] by {
        assert(outer[i] == sorted[i]);
        assert(0 <= inner[i] < n);
    }
    assert(result =~= arranged(items, sorted));
}

/// Compare two keys.
pub fn is_key_before(a: &Vec<u64>, b: &Vec<u64>) -> (result: bool)
    ensures
        result == key_before(a@, b@),
{
    let mut i: usize = 0;
    proof {
        assert(a@.skip(0) =~= a@);
        assert(b@.skip(0) =~= b@);
    }
    while i < a.len() && i < b.len()
        invariant
            i <= a@.len(),
            i <= b@.len(),
            key_before(a@, b@) == key_before(a@.skip(i as int), b@.skip(i as int)),
        decreases a.len() - i,
    {
        if a[i] != b[i] {
            return a[i] < b[i];
        }
        proof {
            assert(a@.skip(i as int).drop_first() =~= a@.skip(i + 1));
            assert(b@.skip(i as int).drop_first() =~= b@.skip(i + 1));
        }
        i = i + 1;
    }
    i < b.len()
}

/// Compute the key of a text.
pub fn key_of_text(chars: &[char]) -> (key: Vec<u64>)
    ensures
        key@ == text_key(chars@),
{
    let mut key: Vec<u64> = Vec::new();
    let mut i: usize = 0;
    while i < chars.len()
        invariant
            i <= chars@.len(),
            key@ == text_key(chars@.take(i as int)),
        decreases chars.len() - i,
    {
        key.push(chars[i] as u64);
        proof {
            assert(text_key(chars@.take(i + 1)) =~= text_key(chars@.take(i as int)).push(
                chars@[i as int] as u64,
            ));
        }
        i = i + 1;
    }
    proof {
        assert(chars@.take(i as int) =~= chars@);
    }
    key
}

/// The indices in a vector.
pub open spec fn index_views(order: Seq<usize>) -> Seq<int> {
    order.map_values(|i: usize| i as int)
}

/// Sort keys, giving the indices in sorted order.
pub fn sort(keys: &Vec<Vec<u64>>) -> (order: Vec<usize>)
    ensures
        index_views(order@) == sort_order(key_views(keys@)),
        order@.len() == keys@.len(),
        forall|i: int| 0 <= i < order@.len() ==> #[trigger] order@[i] < keys@.len(),
{
    let ghost views = key_views(keys@);
    let mut order: Vec<usize> = Vec::new();
    let mut i: usize = 0;
    proof {
        assert(index_views(order@) =~= sort_order(views.take(0)));
    }
    while i < keys.len()
        invariant
            views == key_views(keys@),
            i <= keys@.len(),
            order@.len() == i,
            index_views(order@) == sort_order(views.take(i as int)),
            forall|j: int| 0 <= j < order@.len() ==> #[trigger] order@[j] < i,
        decreases keys.len() - i,
    {
        let ghost front = views.take(i as int);
        let ghost next = views.take(i + 1);
        let ghost indices = index_views(order@);
        proof {
            assert(next.drop_last() =~= front);
            assert(next.last() == keys@[i as int]@);
            assert(indices.take(i as int) =~= indices);
        }
        let mut at: usize = order.len();
        while at > 0 && is_key_before(&keys[i], &keys[order[at - 1]])
            invariant
                views == key_views(keys@),
                next == views.take(i + 1),
                indices == index_views(order@),
                i < keys@.len(),
                order@.len() == i,
                at <= i,
                forall|j: int| 0 <= j < order@.len() ==> #[trigger] order@[j] < i,
                insertion_point(next, indices, keys@[i as int]@) == insertion_point(
                    next,
                    indices.take(at as int),
                    keys@[i as int]@,
                ),
            decreases at,
        {
            proof {
                let prefix = indices.take(at as int);
                assert(prefix.last() == order@[at - 1] as int);
                assert(next[prefix.last()] == keys@[order@[at - 1] as int]@);
                assert(prefix.drop_last() =~= indices.take(at - 1));
            }
            at = at - 1;
        }
        proof {
            if at > 0 {
                let prefix = indices.take(at as int);
                assert(prefix.last() == order@[at - 1] as int);
                assert(next[prefix.last()] == keys@[order@[at - 1] as int]@);
            }
        }
        order.insert(at, i);
        proof {
            assert(index_views(order@) =~= indices.insert(at as int, i as int));
        }
        i = i + 1;
    }
    proof {
        assert(views.take(i as int) =~= views);
    }
    order
}

/// Put items in a given order.
pub fn arrange<T>(items: Vec<T>, order: &Vec<usize>) -> (result: Vec<T>)
    requires
        forall|i: int| 0 <= i < order@.len() ==> #[trigger] order@[i] < items@.len(),
        forall|i: int, j: int|
            #![trigger order@[i], order@[j]]
            0 <= i < j < order@.len() ==> order@[i] != order@[j],
    ensures
        result@ == arranged(items@, index_views(order@)),
{
    let ghost all = items@;
    let count = items.len();
    let mut rest = items;
    let mut slots: Vec<Option<T>> = Vec::new();
    while slots.len() < count
        invariant
            count == all.len(),
            slots@.len() + rest@.len() == count,
            rest@ == all.take(rest@.len() as int),
            forall|k: int| 0 <= k < slots@.len() ==> #[trigger] slots@[k] == Some(all[count - 1 - k]),
        decreases count - slots.len(),
    {
        let item = rest.pop();
        slots.push(item);
    }
    let mut result: Vec<T> = Vec::new();
    let mut i: usize = 0;
    while i < order.len()
        invariant
            count == all.len(),
            slots@.len() == count,
            i <= order@.len(),
            result@.len() == i,
            forall|j: int| 0 <= j < order@.len() ==> #[trigger] order@[j] < count,
            forall|j: int, k: int|
                #![trigger order@[j], order@[k]]
                0 <= j < k < order@.len() ==> order@[j] != order@[k],
            forall|j: int|
                i <= j < order@.len() ==> slots@[count - 1 - #[trigger] order@[j]] == Some(
                    all[order@[j] as int],
                ),
            forall|j: int| 0 <= j < i ==> #[trigger] result@[j] == all[order@[j] as int],
        decreases order.len() - i,
    {
        let mut slot: Option<T> = None;
        let at = order[i];
        slots.set_and_swap(count - 1 - at, &mut slot);
        if let Some(item) = slot {
            result.push(item);
        }
        i = i + 1;
    }
    proof {
        assert(result@ =~= arranged(all, index_views(order@)));
    }
    result
}

} // verus!
