//! Which wikis stay what they are once they have been formatted.

use vstd::prelude::*;

use crate::error::ErrorView;
use crate::formatting;
use crate::linking;
use crate::parser;
use crate::parser::Outline;
use crate::rereading;
use crate::text;
use crate::wiki;
use crate::wiki::NodeView;

verus! {

/// Whether every line that would be a title line without the space around it is one.
pub open spec fn titles_stand_out(s: Seq<char>) -> bool {
    forall|lo: int|
        #![trigger parser::is_title_line(s, lo)]
        0 <= lo < s.len() && (lo == 0 || s[lo - 1] == '\n') ==> {
            let line = s.subrange(lo, text::line_end(s, lo));
            text::trimmed(line) == "#"@ || text::starts_with(text::trimmed_start(line), "# "@)
                ==> parser::is_title_line(s, lo)
        }
}

/// Whether no link target ends with a backslash.
pub open spec fn targets_end_plainly(s: Seq<char>) -> bool {
    forall|lo: int, j: int|
        #![trigger formatting::is_section(s, lo), rereading::ends_plainly(
            s,
            parser::content_start(s, lo),
            j,
        )]
        formatting::is_section(s, lo) && parser::content_start(s, lo) <= j < parser::content_end(
            s,
            lo,
        ) ==> rereading::ends_plainly(s, parser::content_start(s, lo), j)
}

/// Whether no line of the content between two indices would be a title line without the space around
/// it.
spec fn has_no_titles(s: Seq<char>, a: int, b: int) -> bool {
    forall|m: int|
        a <= m < b && (m == a || s[m - 1] == '\n') && #[trigger] s[m] == '#' ==> {
            &&& m + 1 < b
            &&& s[m + 1] != ' '
            &&& s[m + 1] != '\n'
            &&& !rereading::is_dropped(s, m + 1, b)
        }
}

/// Whether a line that ends before the end of a text is a title line.
spec fn is_marked(o: Seq<char>, p: int) -> bool {
    o[p] == '#' && (o[p + 1] == ' ' || o[p + 1] == '\n')
}

/// Whether the line of the content that is being written starts at `p`, and the line of the source that
/// it comes from at `m`.
spec fn tracks(s: Seq<char>, a: int, i: int, b: int, m: int, p: int) -> bool {
    let o = rereading::so_far(s, a, i, b);
    let n = o.len() - p;
    &&& a <= m <= i
    &&& m == a || s[m - 1] == '\n'
    &&& 0 <= p <= o.len()
    &&& p == 0 || o[p - 1] == '\n'
    &&& forall|k: int| p <= k < o.len() ==> #[trigger] o[k] != '\n'
    &&& n == 0 ==> forall|k: int| m <= k < i ==> #[trigger] rereading::is_dropped(s, k, b)
    &&& n > 0 ==> m < i && o[p] == s[m]
    &&& n == 1 && o[p] == '#' ==> i == m + 1
    &&& n > 1 && o[p] == '#' ==> o[p + 1] != ' '
    &&& parser::open_link(s, a, i) is Some ==> n > 0 && o.last() == '['
    &&& forall|k: int|
        0 <= k < p && (k == 0 || o[k - 1] == '\n') ==> !(#[trigger] is_marked(o, k))
}

/// No line that has been written is a title line.
#[verifier::rlimit(60)]
#[verifier::spinoff_prover]
proof fn lemma_tracks(s: Seq<char>, a: int, i: int, b: int) -> (at: (int, int))
    requires
        0 <= a <= i <= b <= s.len(),
        rereading::clean(s, a, i),
        has_no_titles(s, a, b),
    ensures
        tracks(s, a, i, b, at.0, at.1),
        match parser::open_link(s, a, i) {
            Some(start) => a <= start && forall|k: int| start < k < i ==> #[trigger] s[k] != '\n',
            None => true,
        },
    decreases i - a,
{
    if i == a {
        assert(rereading::so_far(s, a, i, b) =~= Seq::<char>::empty());
        (a, 0)
    } else {
        let j = i - 1;
        rereading::lemma_clean_step(s, a, j);
        rereading::lemma_so_far_step(s, a, j, b);
        rereading::lemma_scan_bounds(s, a, j);
        let (m, p) = lemma_tracks(s, a, j, b);
        let o = rereading::so_far(s, a, j, b);
        let more = rereading::added(s, a, j, b);
        let t = o + more;
        let c = s[j];
        assert(t == rereading::so_far(s, a, i, b));
        match parser::open_link(s, a, j) {
            None => {
                if rereading::is_dropped(s, j, b) {
                    assert(t =~= o);
                    if o.len() - p == 1 && o[p] == '#' {
                        assert(s[m] == '#');
                        assert(j == m + 1);
                    }
                    assert(tracks(s, a, i, b, m, p));
                    (m, p)
                } else if c == '\n' {
                    assert(t =~= o.push(c));
                    assert forall|k: int|
                        0 <= k < t.len() && (k == 0 || t[k - 1] == '\n') implies !(
                    #[trigger] is_marked(t, k)) by {
                        if k < p {
                            assert(k == 0 || o[k - 1] == '\n');
                            assert(!is_marked(o, k));
                            assert(t[k] == o[k]);
                            if k + 1 < o.len() {
                                assert(t[k + 1] == o[k + 1]);
                            }
                            assert(k + 1 <= p);
                            if k + 1 == p && p > 0 {
                                assert(o[p - 1] == '\n');
                            }
                            if k + 1 == o.len() {
                                assert(o[k] == '\n');
                            }
                        } else if k < o.len() {
                            if k > p {
                                assert(o[k - 1] != '\n');
                            }
                            if o[p] == '#' {
                                assert(s[m] == '#');
                                if o.len() - p == 1 {
                                    assert(j == m + 1);
                                } else {
                                    assert(t[p + 1] == o[p + 1]);
                                    assert(o[p + 1] != '\n');
                                }
                            }
                        }
                    }
                    assert(tracks(s, a, i, b, i, t.len() as int));
                    (i, t.len() as int)
                } else {
                    assert(t =~= o.push(c));
                    if o.len() == p && m < j {
                        assert(rereading::is_dropped(s, j - 1, b));
                    }
                    if o.len() - p == 1 && o[p] == '#' {
                        assert(s[m] == '#');
                        assert(j == m + 1);
                    }
                    assert forall|k: int|
                        0 <= k < p && (k == 0 || t[k - 1] == '\n') implies !(
                    #[trigger] is_marked(t, k)) by {
                        lemma_same_mark(o, t, k, p);
                    }
                    assert(tracks(s, a, i, b, m, p));
                    (m, p)
                }
            },
            Some(start) => {
                if parser::has_line_break(s, start, j) {
                    let k = choose|k: int| start <= k < j && #[trigger] s[k] == '\n';
                    assert(k != start);
                    assert(s[k] != '\n');
                }
                assert(c != '\n');
                if parser::delimiter_at(s, a, j, ']') {
                    let raw = parser::link_text(s, start, j);
                    text::lemma_trimmed_subrange(s, start + 1, j);
                    let first = text::trim_start_index(s, start + 1, j);
                    assert forall|k: int| 0 <= k < raw.len() implies #[trigger] raw[k] != '\n' by {
                        assert(raw[k] == s[first + k]);
                    }
                    linking::lemma_written_line(raw);
                    assert forall|k: int| p <= k < t.len() implies #[trigger] t[k] != '\n' by {
                        if k >= o.len() {
                            assert(t[k] == more[k - o.len()]);
                        }
                    }
                    assert forall|k: int|
                        0 <= k < p && (k == 0 || t[k - 1] == '\n') implies !(
                    #[trigger] is_marked(t, k)) by {
                        lemma_same_mark(o, t, k, p);
                    }
                    assert(o[o.len() - 1] == '[');
                    assert(tracks(s, a, i, b, m, p));
                } else {
                    assert(t =~= o);
                    assert(tracks(s, a, i, b, m, p));
                }
                (m, p)
            },
        }
    }
}

/// What follows a line does not matter to it.
proof fn lemma_same_mark(o: Seq<char>, t: Seq<char>, k: int, p: int)
    requires
        0 <= k < p <= o.len(),
        o.is_prefix_of(t),
        o[p - 1] == '\n',
        k == 0 || t[k - 1] == '\n',
        forall|x: int|
            0 <= x < p && (x == 0 || o[x - 1] == '\n') ==> !(#[trigger] is_marked(o, x)),
    ensures
        !is_marked(t, k),
{
    assert(t[k] == o[k]);
    if k > 0 {
        assert(t[k - 1] == o[k - 1]);
    }
    assert(!is_marked(o, k));
    if k + 1 < p {
        assert(t[k + 1] == o[k + 1]);
    }
}

/// A text without a line that is marked as a title has no title line.
proof fn lemma_no_title_line(c: Seq<char>, lo: int)
    requires
        0 <= lo <= c.len(),
        lo == 0 || lo == c.len() || c[lo - 1] == '\n',
        text::is_trimmed(c),
        rereading::has_trimmed_lines(c),
        forall|k: int|
            0 <= k < c.len() && (k == 0 || c[k - 1] == '\n') && #[trigger] c[k] == '#' ==> k + 1
                < c.len() && c[k + 1] != ' ' && c[k + 1] != '\n',
    ensures
        parser::next_title_line(c, lo) == c.len(),
    decreases c.len() - lo,
{
    reveal_strlit("#");
    reveal_strlit("# ");
    if lo < c.len() {
        text::lemma_line_end(c, lo);
        let end = text::line_end(c, lo);
        let stop = parser::line_stop(c, lo);
        let line = c.subrange(lo, stop);
        if parser::is_title_line(c, lo) {
            assert(line.len() > 0);
            assert(line[0] == c[lo]);
            if text::starts_with(line, "# "@) {
                assert(line.subrange(0, 2)[0] == line[0] && line.subrange(0, 2)[1] == line[1]);
                assert(line[1] == c[lo + 1]);
            } else {
                assert(line[0] == '#');
                assert(stop == lo + 1);
                if stop < end {
                    assert(c[end - 1] == '\r');
                    if end < c.len() {
                        assert(text::white_space(c[end - 1]));
                    } else {
                        assert(c.last() == '\r');
                    }
                }
            }
        }
        lemma_no_title_line(c, parser::next_line(c, lo));
    }
}

/// No line between two title lines is a title line.
proof fn lemma_between_titles(s: Seq<char>, lo: int, q: int)
    requires
        0 <= lo <= q < s.len(),
        lo == 0 || lo == s.len() || s[lo - 1] == '\n',
        q == 0 || s[q - 1] == '\n',
        parser::is_title_line(s, q),
    ensures
        parser::next_title_line(s, lo) <= q,
    decreases s.len() - lo,
{
    if lo < q && !parser::is_title_line(s, lo) {
        text::lemma_line_end(s, lo);
        let end = text::line_end(s, lo);
        if end >= q {
            assert(s[q - 1] != '\n');
        }
        lemma_between_titles(s, parser::next_line(s, lo), q);
    }
}

/// The content of a section has no line that would be a title line without the space around it.
proof fn lemma_content_titles(s: Seq<char>, lo: int)
    requires
        formatting::is_section(s, lo),
        titles_stand_out(s),
    ensures
        has_no_titles(s, parser::content_start(s, lo), parser::content_end(s, lo)),
{
    reveal_strlit("#");
    reveal_strlit("# ");
    text::lemma_line_end(s, lo);
    let next = parser::next_line(s, lo);
    formatting::lemma_next_section(s, next);
    let hi = parser::next_title_line(s, next);
    let a = parser::content_start(s, lo);
    let b = parser::content_end(s, lo);
    text::lemma_trim_start_index(s, next, hi);
    text::lemma_trim_end_index(s, a, hi);
    assert forall|m: int|
        a <= m < b && (m == a || s[m - 1] == '\n') && #[trigger] s[m] == '#' implies {
        &&& m + 1 < b
        &&& s[m + 1] != ' '
        &&& s[m + 1] != '\n'
        &&& !rereading::is_dropped(s, m + 1, b)
    } by {
        let q = lemma_line_start(s, next, m);
        assert(!parser::is_title_line(s, q)) by {
            if parser::is_title_line(s, q) {
                lemma_between_titles(s, next, q);
            }
        }
        text::lemma_line_end(s, q);
        let end = text::line_end(s, q);
        let line = s.subrange(q, end);
        assert(m < end);
        formatting::lemma_trim_start_at(line, 0, line.len() as int, m - q);
        let rest = text::trimmed_start(line);
        assert(rest =~= s.subrange(m, end));
        if m + 1 < end && s[m + 1] == ' ' {
            assert(rest.subrange(0, 2) =~= "# "@);
            assert(text::starts_with(rest, "# "@));
        }
        let is_bare = m + 1 >= b || s[m + 1] == '\n' || rereading::is_dropped(s, m + 1, b);
        if is_bare {
            assert forall|k: int| m + 1 <= k < end implies text::white_space(#[trigger] s[k]) by {
                if k < b && rereading::is_dropped(s, m + 1, b) {
                    lemma_dropped_to_end(s, m + 1, b, k);
                } else if k < b {
                    assert(s[m + 1] == '\n');
                    assert(s[m + 1] != '\n');
                } else {
                    lemma_line_within(s, next, hi, q, end);
                }
            }
            assert forall|k: int| m + 1 - q <= k < line.len() implies text::white_space(
                #[trigger] line[k],
            ) by {
                assert(line[k] == s[q + k]);
            }
            formatting::lemma_trim_end_at(line, m - q, line.len() as int, m + 1 - q);
            assert(text::trimmed(line) =~= "#"@);
        }
        if m + 1 < b && s[m + 1] == ' ' {
            assert(m + 1 < end) by {
                if end == m + 1 {
                    assert(s[end] == '\n');
                }
            }
        }
    }
}

/// The line that an index is on, with nothing but white space before the index if it is the first that
/// holds anything else.
proof fn lemma_line_start(s: Seq<char>, lo: int, m: int) -> (q: int)
    requires
        0 <= lo <= m < s.len(),
        lo == 0 || s[lo - 1] == '\n',
        s[m] == '#',
        (m > lo && s[m - 1] == '\n') || forall|k: int| lo <= k < m ==> text::white_space(
            #[trigger] s[k],
        ),
    ensures
        lo <= q <= m,
        q == 0 || s[q - 1] == '\n',
        forall|k: int| q <= k < m ==> text::white_space(#[trigger] s[k]) && s[k] != '\n',
        text::line_end(s, q) > m,
    decreases m - lo,
{
    if m > lo && s[m - 1] == '\n' {
        text::lemma_line_end(s, m + 1);
        m
    } else {
        text::lemma_line_end(s, lo);
        let end = text::line_end(s, lo);
        if end < m {
            lemma_line_start(s, end + 1, m)
        } else {
            if end == m {
                assert(s[end] == '\n');
            }
            assert forall|k: int| lo <= k < m implies text::white_space(#[trigger] s[k]) && s[k]
                != '\n' by {}
            lo
        }
    }
}

/// White space before a line feed is white space up to that line feed.
proof fn lemma_dropped_to_end(s: Seq<char>, i: int, b: int, k: int)
    requires
        0 <= i <= k < b <= s.len(),
        rereading::is_dropped(s, i, b),
        forall|x: int| i <= x <= k ==> #[trigger] s[x] != '\n',
    ensures
        text::white_space(s[k]),
    decreases k - i,
{
    if i < k {
        assert(s[i + 1] != '\n');
        lemma_dropped_to_end(s, i + 1, b, k);
    }
}

/// A line that starts before a title line ends before it.
proof fn lemma_line_within(s: Seq<char>, lo: int, hi: int, q: int, end: int)
    requires
        0 <= lo <= q < hi <= s.len(),
        hi == s.len() || s[hi - 1] == '\n',
        end == text::line_end(s, q),
    ensures
        end <= hi,
{
    text::lemma_line_end(s, q);
    if end > hi {
        assert(s[hi - 1] != '\n');
    }
}

/// Every section of a source without errors has content without errors.
proof fn lemma_all_clean(path: Option<Seq<char>>, s: Seq<char>, x: int, before: Outline, lo: int)
    requires
        0 <= x <= lo,
        formatting::is_section(s, lo),
        formatting::is_section(s, x),
        parser::outline_from(path, s, x, before).errors.len() == 0,
    ensures
        formatting::is_clean_section(path, s, lo),
    decreases s.len() - x,
{
    text::lemma_line_end(s, x);
    let next = parser::next_line(s, x);
    formatting::lemma_next_section(s, next);
    let later = parser::next_title_line(s, next);
    let after = parser::with_section(path, s, x, before);
    lemma_errors_stay(path, s, later, after);
    if x == lo {
        assert(parser::title_error(path, s, lo) is None);
        assert(parser::node_errors(path, s, lo, before.nodes).len() == 0);
    } else {
        assert(next <= lo) by {
            if text::line_end(s, x) >= lo {
                assert(s[lo - 1] != '\n');
            }
        }
        lemma_between_titles(s, next, lo);
        lemma_all_clean(path, s, later, after, lo);
    }
}

/// Errors stay in an outline.
pub proof fn lemma_errors_stay(path: Option<Seq<char>>, s: Seq<char>, lo: int, before: Outline)
    requires
        0 <= lo <= s.len(),
    ensures
        parser::outline_from(path, s, lo, before).errors.len() >= before.errors.len(),
    decreases s.len() - lo,
{
    if lo < s.len() {
        text::lemma_line_end(s, lo);
        parser::lemma_next_title_line(s, parser::next_line(s, lo));
        lemma_errors_stay(
            path,
            s,
            parser::next_title_line(s, parser::next_line(s, lo)),
            parser::with_section(path, s, lo, before),
        );
    }
}

/// The content of a section without errors has no title line once it has been written.
proof fn lemma_content_has_no_title(s: Seq<char>, lo: int)
    requires
        formatting::is_clean_section(None, s, lo),
        titles_stand_out(s),
    ensures
        ({
            let c = parser::content_text(
                s,
                parser::content_start(s, lo),
                parser::content_end(s, lo),
            );
            parser::next_title_line(c, 0) == c.len()
        }),
{
    let a = parser::content_start(s, lo);
    let b = parser::content_end(s, lo);
    let c = parser::content_text(s, a, b);
    formatting::lemma_section(None, s, lo);
    lemma_content_titles(s, lo);
    rereading::lemma_scan_bounds(s, a, b);
    rereading::lemma_normalized(s, parser::prose_start(s, a, b), b);
    assert(rereading::so_far(s, a, b, b) == c);
    let (m, p) = lemma_tracks(s, a, b, b);
    assert forall|k: int|
        0 <= k < c.len() && (k == 0 || c[k - 1] == '\n') && #[trigger] c[k] == '#' implies k + 1
        < c.len() && c[k + 1] != ' ' && c[k + 1] != '\n' by {
        if k < p {
            assert(!is_marked(c, k));
            if k + 1 == p {
                assert(c[p - 1] == '\n');
            }
        } else {
            if k > p {
                assert(c[k - 1] != '\n');
            }
            if c.len() - p == 1 {
                assert(s[m] == '#');
                assert(b == m + 1);
            }
        }
    }
    lemma_no_title_line(c, 0);
}

/// Formatting leaves a wiki what it is if every line that would be a title line without the space around
/// it is one, and no link target ends with a backslash.
pub proof fn law_plain_wikis_settle(path: Option<Seq<char>>, s: Seq<char>)
    requires
        parser::parsed(path, s) is Ok,
        titles_stand_out(s),
        targets_end_plainly(s),
    ensures
        formatting::all_settle(s),
{
    formatting::lemma_next_section(s, 0);
    let first = parser::next_title_line(s, 0);
    let before = Outline { nodes: Seq::empty(), errors: parser::stray_errors(path, s) };
    assert forall|lo: int| #[trigger] formatting::is_section(s, lo) implies rereading::settles(
        s,
        parser::content_start(s, lo),
        parser::content_end(s, lo),
    ) by {
        lemma_between_titles(s, 0, lo);
        lemma_all_clean(path, s, first, before, lo);
        formatting::lemma_section(path, s, lo);
        assert(formatting::is_clean_section(None, s, lo));
        lemma_content_has_no_title(s, lo);
        assert forall|j: int|
            parser::content_start(s, lo) <= j < parser::content_end(s, lo) implies
            #[trigger] rereading::ends_plainly(s, parser::content_start(s, lo), j) by {}
    }
}

/// Formatting is stable: under the same conditions, the rendered text of a parsed wiki parses without
/// errors, to the same nodes in rendered order with the same contents, links and depths, and rendering
/// those again gives the same text.
pub proof fn law_plain_wikis_format_stably(
    path: Option<Seq<char>>,
    s: Seq<char>,
    nodes: Seq<NodeView>,
    other: Option<Seq<char>>,
)
    requires
        parser::parsed(path, s) == Ok::<Seq<NodeView>, Seq<ErrorView>>(nodes),
        titles_stand_out(s),
        targets_end_plainly(s),
    ensures
        parser::parsed(other, wiki::wiki_text(nodes)) is Ok,
        ({
            let again = parser::parsed(other, wiki::wiki_text(nodes))->Ok_0;
            &&& formatting::says_in_order(again, nodes)
            &&& wiki::wiki_text(again) == wiki::wiki_text(nodes)
        }),
{
    law_plain_wikis_settle(path, s);
    formatting::law_formatting_is_stable(path, s, nodes, other);
}

} // verus!
