//! Where paths lead: what the operations on paths do to the components that a path has.

use vstd::prelude::*;

use crate::path_util;
use crate::path_util::Bounds;
use crate::phrase;

verus! {

/// Bounds that have been moved along.
spec fn shifted(bounds: Seq<Bounds>, by: int) -> Seq<Bounds> {
    bounds.map_values(|b: Bounds| Bounds { start: b.start + by, end: b.end + by })
}

/// The components of a part of a path that starts and ends at separators or at the ends of the path.
proof fn lemma_part(p: Seq<char>, lo: int, hi: int, x: int)
    requires
        0 <= lo <= x <= hi <= p.len(),
        x == 0 || p[x - 1] == '/',
        hi == p.len() || p[hi] == '/',
        x == lo && lo > 0 && x < hi ==> path_util::is_component(p, x, path_util::segment_end(p, x))
            || p[x] == '/',
    ensures
        path_util::bounds_from(p, x) == shifted(
            path_util::bounds_from(p.subrange(lo, hi), x - lo),
            lo,
        ) + path_util::bounds_from(p, hi + 1),
    decreases hi - x,
{
    let q = p.subrange(lo, hi);
    let mine = path_util::bounds_from(q, x - lo);
    let rest = path_util::bounds_from(p, hi + 1);
    if x == hi {
        assert(mine =~= Seq::<Bounds>::empty());
        assert(shifted(mine, lo) =~= Seq::<Bounds>::empty());
        if hi < p.len() {
            assert(path_util::segment_end(p, hi) == hi);
        }
        assert(path_util::bounds_from(p, x) =~= rest);
        assert(shifted(mine, lo) + rest =~= rest);
    } else {
        path_util::lemma_segment_end(p, x);
        path_util::lemma_segment_end(q, x - lo);
        let end = path_util::segment_end(p, x);
        let near = path_util::segment_end(q, x - lo);
        assert(end <= hi) by {
            if hi < end {
                assert(p[hi] != '/');
            }
        }
        assert(near == end - lo) by {
            if near < end - lo {
                assert(q[near] == p[near + lo]);
            } else if end - lo < near {
                assert(q[end - lo] == p[end]);
            }
        }
        assert(q[x - lo] == p[x]);
        let more = path_util::bounds_from(q, near + 1);
        if end < hi {
            lemma_part(p, lo, hi, end + 1);
            assert(path_util::bounds_from(p, end + 1) == shifted(more, lo) + rest);
        } else {
            assert(more =~= Seq::<Bounds>::empty());
            assert(shifted(more, lo) + rest =~= path_util::bounds_from(p, end + 1));
        }
        if path_util::is_component(p, x, end) {
            let one = seq![Bounds { start: x - lo, end: near }];
            assert(mine == one + more);
            assert(shifted(mine, lo) + rest =~= seq![Bounds { start: x, end }] + (shifted(more, lo)
                + rest));
        } else {
            assert(mine == more);
        }
    }
}

/// The components from one of them on, and those behind it.
proof fn lemma_tail(p: Seq<char>, x: int, i: int)
    requires
        0 <= x,
        0 <= i < path_util::bounds_from(p, x).len(),
        x == 0 || x >= p.len() || p[x - 1] == '/',
    ensures
        ({
            let all = path_util::bounds_from(p, x);
            let b = all[i];
            &&& x <= b.start < b.end <= p.len()
            &&& path_util::bounds_from(p, b.start) == all.skip(i)
            &&& path_util::bounds_from(p, b.end + 1) == all.skip(i + 1)
            &&& b.start == 0 || p[b.start - 1] == '/'
            &&& b.end == p.len() || p[b.end] == '/'
            &&& path_util::segment_end(p, b.start) == b.end
            &&& path_util::is_component(p, b.start, b.end)
            &&& p[b.start] != '/'
        }),
    decreases p.len() + 1 - x,
{
    if x < p.len() {
        path_util::lemma_segment_end(p, x);
        let end = path_util::segment_end(p, x);
        let all = path_util::bounds_from(p, x);
        let rest = path_util::bounds_from(p, end + 1);
        if path_util::is_component(p, x, end) {
            assert(all == seq![Bounds { start: x, end }] + rest);
            if i == 0 {
                assert(all.skip(0) =~= all);
                assert(all.skip(1) =~= rest);
            } else {
                lemma_tail(p, end + 1, i - 1);
                assert(all[i] == rest[i - 1]);
                assert(all.skip(i) =~= rest.skip(i - 1));
                assert(all.skip(i + 1) =~= rest.skip(i));
            }
        } else {
            lemma_tail(p, end + 1, i);
        }
    }
}

/// The texts between bounds of a part of a path are those between the bounds in the path.
proof fn lemma_part_texts(p: Seq<char>, lo: int, hi: int, inner: Seq<Bounds>, outer: Seq<Bounds>)
    requires
        0 <= lo <= hi <= p.len(),
        outer == shifted(inner, lo),
        forall|i: int|
            0 <= i < inner.len() ==> 0 <= (#[trigger] inner[i]).start <= inner[i].end <= hi - lo,
    ensures
        inner.map_values(|b: Bounds| p.subrange(lo, hi).subrange(b.start, b.end))
            == outer.map_values(|b: Bounds| p.subrange(b.start, b.end)),
{
    let a = inner.map_values(|b: Bounds| p.subrange(lo, hi).subrange(b.start, b.end));
    let b = outer.map_values(|b: Bounds| p.subrange(b.start, b.end));
    assert forall|i: int| 0 <= i < a.len() implies #[trigger] a[i] == b[i] by {
        assert(0 <= inner[i].start <= inner[i].end <= hi - lo);
        assert(outer[i] == (Bounds { start: inner[i].start + lo, end: inner[i].end + lo }));
        assert(p.subrange(lo, hi).subrange(inner[i].start, inner[i].end) =~= p.subrange(
            outer[i].start,
            outer[i].end,
        ));
    }
    assert(a =~= b);
}

/// The root of a path is not among its other components.
proof fn lemma_root(p: Seq<char>)
    requires
        path_util::is_absolute(p),
    ensures
        path_util::bounds_from(p, 0) == path_util::bounds_from(p, 1),
        path_util::components(p).len() > 0,
        path_util::components(p)[0] == seq!['/'],
{
    assert(path_util::segment_end(p, 0) == 0);
    assert(path_util::component_bounds(p)[0] == (Bounds { start: 0, end: 1 }));
    assert(p.subrange(0, 1) =~= seq!['/']);
}

/// The bounds of a part of a path are those of the path that lie in it.
proof fn lemma_part_bounds(p: Seq<char>, lo: int, from: int, to: int)
    requires
        ({
            let rest = path_util::bounds_from(p, 0);
            &&& 0 <= from <= to < rest.len()
            &&& lo == rest[from].start || lo == 0 && from == 0
        }),
    ensures
        ({
            let rest = path_util::bounds_from(p, 0);
            let hi = rest[to].end;
            &&& 0 <= lo < hi <= p.len()
            &&& lo < rest[from].start || p[lo] != '/'
            &&& shifted(path_util::bounds_from(p.subrange(lo, hi), 0), lo) == rest.subrange(
                from,
                to + 1,
            )
        }),
{
    let rest = path_util::bounds_from(p, 0);
    let hi = rest[to].end;
    lemma_tail(p, 0, to);
    lemma_tail(p, 0, from);
    assert(lo < hi) by {
        if from < to {
            lemma_tail(p, rest[from].end + 1, to - from - 1);
            assert(rest.skip(from + 1)[to - from - 1] == rest[to]);
        }
    }
    assert(path_util::bounds_from(p, lo) == rest.skip(from)) by {
        if lo == 0 && from == 0 {
            assert(rest.skip(0) =~= rest);
        }
    }
    lemma_part(p, lo, hi, lo);
    let mine = shifted(path_util::bounds_from(p.subrange(lo, hi), 0), lo);
    let after = path_util::bounds_from(p, hi + 1);
    let whole = rest.skip(from);
    assert(whole == mine + after);
    assert(after == rest.skip(to + 1));
    assert(mine.len() == to + 1 - from);
    assert forall|i: int| 0 <= i < mine.len() implies mine[i] == #[trigger] rest.subrange(
        from,
        to + 1,
    )[i] by {
        assert(whole[i] == rest[from + i]);
        assert((mine + after)[i] == mine[i]);
    }
    assert(mine =~= rest.subrange(from, to + 1));
}

/// The texts of the bounds of a part of a path.
proof fn lemma_part_components(p: Seq<char>, lo: int, from: int, to: int)
    requires
        ({
            let rest = path_util::bounds_from(p, 0);
            &&& 0 <= from <= to < rest.len()
            &&& lo == rest[from].start || lo == 0 && from == 0
        }),
    ensures
        ({
            let rest = path_util::bounds_from(p, 0);
            let q = p.subrange(lo, rest[to].end);
            path_util::bounds_from(q, 0).map_values(|b: Bounds| q.subrange(b.start, b.end))
                == rest.subrange(from, to + 1).map_values(|b: Bounds| p.subrange(b.start, b.end))
        }),
{
    let rest = path_util::bounds_from(p, 0);
    let hi = rest[to].end;
    let q = p.subrange(lo, hi);
    let mine = path_util::bounds_from(q, 0);
    lemma_part_bounds(p, lo, from, to);
    assert forall|i: int| 0 <= i < mine.len() implies 0 <= (#[trigger] mine[i]).start
        <= mine[i].end <= hi - lo by {
        lemma_tail(q, 0, i);
    }
    lemma_part_texts(p, lo, hi, mine, rest.subrange(from, to + 1));
}

/// The part of a path between two of its components has exactly the components between them.
pub proof fn law_parts_of_paths_keep_components(p: Seq<char>, first: int, last: int)
    requires
        0 <= first <= last + 1,
        last < path_util::components(p).len(),
    ensures
        path_util::components(path_util::between_components(p, first, last))
            == path_util::components(p).subrange(first, last + 1),
{
    path_util::lemma_component_bounds(p);
    let q = path_util::between_components(p, first, last);
    let all = path_util::component_bounds(p);
    let parts = path_util::components(p);
    let rest = path_util::bounds_from(p, 0);
    let texts = rest.map_values(|b: Bounds| p.subrange(b.start, b.end));
    if first > last {
        assert(q =~= Seq::<char>::empty());
        assert(path_util::bounds_from(q, 0) =~= Seq::<Bounds>::empty());
        assert(path_util::components(q) =~= parts.subrange(first, last + 1));
    } else if !path_util::is_absolute(p) {
        lemma_part_bounds(p, all[first].start, first, last);
        lemma_part_components(p, all[first].start, first, last);
        assert(q[0] == p[all[first].start]);
        assert(rest.subrange(first, last + 1).map_values(|b: Bounds| p.subrange(b.start, b.end))
            =~= parts.subrange(first, last + 1));
    } else {
        lemma_root(p);
        assert(all == seq![Bounds { start: 0, end: 1 }] + rest);
        assert(parts =~= seq![seq!['/']] + texts);
        if last == 0 {
            assert(q =~= seq!['/']);
            assert(path_util::bounds_from(q, 1) =~= Seq::<Bounds>::empty());
            lemma_root(q);
            assert(path_util::components(q) =~= parts.subrange(0, 1));
        } else {
            assert(all[last] == rest[last - 1]);
            if first > 0 {
                assert(all[first] == rest[first - 1]);
                lemma_part_bounds(p, all[first].start, first - 1, last - 1);
                lemma_part_components(p, all[first].start, first - 1, last - 1);
                assert(q[0] == p[all[first].start]);
                assert(rest.subrange(first - 1, last).map_values(
                    |b: Bounds| p.subrange(b.start, b.end),
                ) =~= parts.subrange(first, last + 1));
            } else {
                lemma_part_bounds(p, 0, 0, last - 1);
                lemma_part_components(p, 0, 0, last - 1);
                assert(q[0] == p[0]);
                lemma_root(q);
                let mine = path_util::bounds_from(q, 0).map_values(
                    |b: Bounds| q.subrange(b.start, b.end),
                );
                assert(path_util::components(q) =~= seq![seq!['/']] + mine);
                assert(mine =~= texts.subrange(0, last));
                assert(parts.subrange(0, last + 1) =~= seq![seq!['/']] + mine);
            }
        }
    }
}

/// A path that lies in a directory, or is the directory, is shown from there by what is left of its
/// components, and any other path is shown as it is.
pub proof fn law_relative_paths_drop_the_base(base: Seq<char>, path: Seq<char>)
    ensures
        ({
            let prefix = path_util::components(base);
            let parts = path_util::components(path);
            if prefix.is_prefix_of(parts) {
                path_util::components(path_util::relative(base, path)) == parts.skip(
                    prefix.len() as int,
                )
            } else {
                path_util::relative(base, path) == path
            }
        }),
{
    let prefix = path_util::components(base);
    let parts = path_util::components(path);
    let n = prefix.len() as int;
    if prefix.len() <= parts.len() {
        assert(parts.take(n) =~= parts.subrange(0, n));
        if prefix.is_prefix_of(parts) {
            law_parts_of_paths_keep_components(path, n, parts.len() - 1);
            assert(parts.subrange(n, parts.len() as int) =~= parts.skip(n));
        } else if parts.take(n) == prefix {
            assert(prefix.is_prefix_of(parts));
        }
    }
}

/// The parent of a path has all of its components but the last one. Only the empty path and the root have
/// no parent.
pub proof fn law_parents_drop_the_last_component(p: Seq<char>)
    ensures
        match path_util::parent_of(p) {
            Some(above) => path_util::components(p).len() > 0 && path_util::components(above)
                == path_util::components(p).drop_last(),
            None => path_util::components(p).len() == 0 || path_util::components(p) == seq![
                seq!['/'],
            ],
        },
        path_util::components(p).len() > 1 ==> path_util::parent_of(p) is Some,
{
    reveal_strlit("/");
    let parts = path_util::components(p);
    assert("/"@ =~= seq!['/']);
    if let Some(above) = path_util::parent_of(p) {
        law_parts_of_paths_keep_components(p, 0, parts.len() - 2);
        assert(parts.subrange(0, parts.len() - 1) =~= parts.drop_last());
    }
    if parts.len() > 1 {
        assert(seq!["/"@].len() == 1);
    }
}

/// The file name of a path is its last component, if that names something rather than the root, the
/// directory itself or the one above.
pub proof fn law_file_names_are_last_components(p: Seq<char>)
    ensures
        ({
            let parts = path_util::components(p);
            let has_name = parts.len() > 0 && parts.last() != seq!['/'] && parts.last() != seq!['.']
                && parts.last() != seq!['.', '.'];
            path_util::file_name_of(p) == if has_name {
                Some(parts.last())
            } else {
                None
            }
        }),
{
    reveal_strlit("/");
    reveal_strlit(".");
    reveal_strlit("..");
    assert("/"@ =~= seq!['/']);
    assert("."@ =~= seq!['.']);
    assert(".."@ =~= seq!['.', '.']);
}

/// The components of one path behind another one and a separator.
proof fn lemma_after_separator(j: Seq<char>, path: Seq<char>, k: int)
    requires
        0 < k <= j.len(),
        j[k - 1] == '/',
        j.subrange(k, j.len() as int) == path,
        !path_util::is_absolute(path),
    ensures
        path_util::bounds_from(j, k).map_values(|b: Bounds| j.subrange(b.start, b.end))
            == path_util::names_below(path),
{
    reveal_strlit(".");
    assert("."@ =~= seq!['.']);
    let n = j.len() as int;
    let rest = path_util::bounds_from(path, 0);
    path_util::lemma_component_bounds(path);
    assert(path_util::component_bounds(path) == rest);
    let names = path_util::names_below(path);
    let parts = path_util::components(path);
    assert(path_util::bounds_from(j, n + 1) =~= Seq::<Bounds>::empty());
    if path.len() == 0 {
        assert(path_util::bounds_from(j, k) =~= Seq::<Bounds>::empty());
        assert(rest =~= Seq::<Bounds>::empty());
        assert(names =~= path_util::bounds_from(j, k).map_values(
            |b: Bounds| j.subrange(b.start, b.end),
        ));
    } else {
        path_util::lemma_segment_end(path, 0);
        path_util::lemma_segment_end(j, k);
        let near = path_util::segment_end(path, 0);
        let end = path_util::segment_end(j, k);
        assert(path[0] == j[k]);
        assert(near == end - k) by {
            if near < end - k {
                assert(path[near] == j[near + k]);
            } else if end - k < near {
                assert(path[end - k] == j[end]);
            }
        }
        let more = path_util::bounds_from(path, near + 1);
        assert(rest == seq![Bounds { start: 0, end: near }] + more);
        assert(rest[0] == (Bounds { start: 0, end: near }));
        assert(parts[0] == path.subrange(0, near));
        if near == 1 && path[0] == '.' {
            assert(path.subrange(0, near) =~= seq!['.']);
            assert(!path_util::is_component(j, k, end));
            let found = path_util::bounds_from(j, end + 1);
            assert(path_util::bounds_from(j, k) == found);
            if end + 1 <= n {
                lemma_part(j, k, n, end + 1);
                assert(found =~= shifted(more, k));
            } else {
                assert(found =~= Seq::<Bounds>::empty());
                assert(more =~= Seq::<Bounds>::empty());
                assert(found =~= shifted(more, k));
            }
            assert forall|i: int| 0 <= i < more.len() implies 0 <= (#[trigger] more[i]).start
                <= more[i].end <= n - k by {
                assert(rest[i + 1] == more[i]);
            }
            lemma_part_texts(j, k, n, more, found);
            let texts = more.map_values(|b: Bounds| path.subrange(b.start, b.end));
            assert(names =~= texts) by {
                assert forall|i: int| 0 <= i < more.len() implies #[trigger] names[i]
                    == texts[i] by {
                    assert(rest[i + 1] == more[i]);
                }
            }
        } else {
            assert(parts[0] != "."@) by {
                if parts[0] == "."@ {
                    assert(path.subrange(0, near).len() == 1);
                    assert(path.subrange(0, near)[0] == path[0]);
                }
            }
            assert(path_util::is_component(j, k, end));
            lemma_part(j, k, n, k);
            let found = path_util::bounds_from(j, k);
            assert(found =~= shifted(rest, k));
            assert forall|i: int| 0 <= i < rest.len() implies 0 <= (#[trigger] rest[i]).start
                <= rest[i].end <= n - k by {}
            lemma_part_texts(j, k, n, rest, found);
            let texts = rest.map_values(|b: Bounds| path.subrange(b.start, b.end));
            assert(names =~= texts);
        }
    }
}

/// A path that is taken from a directory has the components of the directory and then its own, without a
/// leading reference to the directory itself. An absolute path stays what it is.
pub proof fn law_joined_paths_have_the_components_of_both(base: Seq<char>, path: Seq<char>)
    ensures
        path_util::is_absolute(path) ==> path_util::join_of(base, path) == path,
        base.len() > 0 && !path_util::is_absolute(path) ==> path_util::components(
            path_util::join_of(base, path),
        ) == path_util::components(base) + path_util::names_below(path),
{
    reveal_strlit("/");
    if base.len() > 0 && !path_util::is_absolute(path) {
        let j = path_util::join_of(base, path);
        let n = base.len() as int;
        let ends = base.last() == '/';
        let hi: int = if ends {
            n - 1
        } else {
            n
        };
        let k = hi + 1;
        assert(j.subrange(k, j.len() as int) =~= path);
        assert(j[hi] == '/');
        let q = j.subrange(0, hi);
        lemma_part(j, 0, hi, 0);
        assert(q =~= base.subrange(0, hi));
        let mine = path_util::bounds_from(q, 0);
        assert(shifted(mine, 0) =~= mine);
        let after = path_util::bounds_from(j, k);
        assert(path_util::bounds_from(j, 0) == mine + after);
        assert(path_util::bounds_from(base, 0) == mine) by {
            if ends {
                lemma_part(base, 0, hi, 0);
                assert(path_util::bounds_from(base, n) =~= Seq::<Bounds>::empty());
                assert(mine + path_util::bounds_from(base, n) =~= mine);
            } else {
                assert(q =~= base);
            }
        }
        lemma_after_separator(j, path, k);
        let below = after.map_values(|b: Bounds| j.subrange(b.start, b.end));
        assert(path_util::is_absolute(j) == path_util::is_absolute(base)) by {
            assert(j[0] == base[0]);
        }
        let all = path_util::component_bounds(base);
        path_util::lemma_component_bounds(base);
        let result = path_util::components(j);
        assert(path_util::component_bounds(j) =~= all + after);
        assert(result =~= path_util::components(base) + below) by {
            assert forall|i: int| 0 <= i < all.len() implies #[trigger] result[i]
                == path_util::components(base)[i] by {
                let b = all[i];
                assert(path_util::component_bounds(j)[i] == b);
                assert(j.subrange(b.start, b.end) =~= base.subrange(b.start, b.end));
            }
            assert forall|i: int| 0 <= i < after.len() implies #[trigger] result[all.len() + i]
                == below[i] by {
                assert(path_util::component_bounds(j)[all.len() + i] == after[i]);
            }
        }
    }
}

/// What is taken from a directory is shown from that directory by its own components.
pub proof fn law_relative_undoes_join(base: Seq<char>, path: Seq<char>)
    requires
        base.len() > 0,
        !path_util::is_absolute(path),
    ensures
        path_util::components(path_util::relative(base, path_util::join_of(base, path)))
            == path_util::names_below(path),
{
    law_joined_paths_have_the_components_of_both(base, path);
    law_relative_paths_drop_the_base(base, path_util::join_of(base, path));
    let prefix = path_util::components(base);
    let names = path_util::names_below(path);
    assert(prefix.is_prefix_of(prefix + names));
    assert((prefix + names).skip(prefix.len() as int) =~= names);
}

/// Names in a row with separators between them are the components of what they make up. A `./` in front
/// of them is one more component, and a separator behind them is none.
pub proof fn law_names_in_a_row_are_components(names: Seq<Seq<char>>)
    requires
        names.len() > 0,
        forall|k: int|
            0 <= k < names.len() ==> (#[trigger] names[k]).len() > 0 && names[k] != seq!['.']
                && !names[k].contains('/'),
    ensures
        path_util::components(phrase::joined(names, seq!['/'])) == names,
        path_util::components(phrase::joined(names, seq!['/']) + seq!['/']) == names,
        path_util::components(seq!['.', '/'] + phrase::joined(names, seq!['/'])) == seq![
            seq!['.'],
        ] + names,
{
    reveal_strlit("");
    reveal_strlit("/");
    reveal_strlit(".");
    reveal_strlit("./");
    assert("/"@ =~= seq!['/']);
    assert("."@ =~= seq!['.']);
    assert("./"@ =~= seq!['.', '/']);
    let row = phrase::joined(names, "/"@);
    assert(path_util::are_names(names));
    path_util::lemma_names_again(""@, names, ""@);
    assert(""@ + row + ""@ =~= row);
    path_util::lemma_names_again(""@, names, "/"@);
    assert(""@ + row + "/"@ =~= row + seq!['/']);
    path_util::lemma_names_again("./"@, names, ""@);
    assert("./"@ + row + ""@ =~= seq!['.', '/'] + row);
}

} // verus!
