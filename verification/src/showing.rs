//! What is shown of a source: which lines an error shows, and how a node looks in a preview.

use vstd::prelude::*;

use crate::error;
use crate::error::RowView;
use crate::markdown;
use crate::text;
use crate::wiki::LinkView;

verus! {

/// The number of line feeds before an index.
pub open spec fn line_feeds(s: Seq<char>, i: int) -> nat
    decreases i,
{
    if i <= 0 {
        0
    } else if s[i - 1] == '\n' {
        line_feeds(s, i - 1) + 1
    } else {
        line_feeds(s, i - 1)
    }
}

/// Whether a line starts at an index.
pub open spec fn starts_line(s: Seq<char>, start: int) -> bool {
    0 <= start <= s.len() && (start == 0 || s[start - 1] == '\n')
}

/// Whether the line that starts at one index has characters between two others, its line feed included.
pub open spec fn is_touched(s: Seq<char>, start: int, a: int, b: int) -> bool {
    starts_line(s, start) && start < b && a <= text::line_end(s, start)
}

/// Whether a row shows the line that starts at an index: it has the number of the line and its text up to
/// the white space at its end, in three parts, and the middle part is what lies between two other
/// indices, without indentation.
pub open spec fn shows_line(s: Seq<char>, row: RowView, start: int, a: int, b: int) -> bool {
    let end = text::line_end(s, start);
    let shown = row.before + row.section + row.after;
    let from = start + row.before.len();
    let to = from + row.section.len();
    let stop = start + shown.len();
    &&& row.number == line_feeds(s, start) + 1
    &&& stop <= end
    &&& shown == s.subrange(start, stop)
    &&& forall|i: int| stop <= i < end ==> text::white_space(#[trigger] s[i])
    &&& from < to ==> a <= from && to <= b
    &&& forall|i: int| start <= i < stop && a <= i < b && !(from <= i < to) ==> text::white_space(
        #[trigger] s[i],
    )
}

proof fn lemma_listing_row(s: Seq<char>, start: int, a: int, b: int)
    requires
        is_touched(s, start, a, b),
        0 <= a,
    ensures
        shows_line(
            s,
            error::listing_row(s, start, text::line_end(s, start), line_feeds(s, start) + 1, a, b),
            start,
            a,
            b,
        ),
{
    text::lemma_line_end(s, start);
    let end = text::line_end(s, start);
    text::lemma_trim_end_index(s, start, end);
    let stop = text::trim_end_index(s, start, end);
    text::lemma_trim_start_index(s, start, stop);
    let row = error::listing_row(s, start, end, line_feeds(s, start) + 1, a, b);
    assert(row.before + row.section + row.after =~= s.subrange(start, stop));
}

proof fn lemma_line_feeds(s: Seq<char>, start: int, end: int)
    requires
        0 <= start <= end <= s.len(),
        forall|i: int| start <= i < end ==> #[trigger] s[i] != '\n',
    ensures
        line_feeds(s, end) == line_feeds(s, start),
    decreases end - start,
{
    if start < end {
        lemma_line_feeds(s, start, end - 1);
    }
}

/// Whether rows are those of the lines that are touched, from one that starts at an index on.
spec fn are_rows(s: Seq<char>, rows: Seq<RowView>, start: int, a: int, b: int) -> bool {
    &&& forall|r: int|
        0 <= r < rows.len() ==> shows_touched_line(s, #[trigger] rows[r], a, b) && rows[r].number
            > line_feeds(s, start)
    &&& forall|r: int, q: int|
        #![trigger rows[r], rows[q]]
        0 <= r < q < rows.len() ==> rows[q].number - rows[r].number == q - r
    &&& forall|at: int|
        start <= at && #[trigger] is_touched(s, at, a, b) ==> has_row(rows, line_feeds(s, at) + 1)
}

/// Whether a row shows some line that is touched.
pub open spec fn shows_touched_line(s: Seq<char>, row: RowView, a: int, b: int) -> bool {
    exists|start: int| #[trigger] is_touched(s, start, a, b) && shows_line(s, row, start, a, b)
}

/// Whether there is a row with a number.
pub open spec fn has_row(rows: Seq<RowView>, number: nat) -> bool {
    exists|r: int| 0 <= r < rows.len() && (#[trigger] rows[r]).number == number
}

#[verifier::rlimit(40)]
#[verifier::spinoff_prover]
proof fn lemma_rows(s: Seq<char>, start: int, a: int, b: int)
    requires
        starts_line(s, start) || start == s.len() + 1,
        0 <= a,
    ensures
        start <= s.len() ==> are_rows(
            s,
            error::rows_from(s, start, line_feeds(s, start) + 1, a, b),
            start,
            a,
            b,
        ),
        start <= s.len() && start < b && a <= text::line_end(s, start) ==> error::rows_from(
            s,
            start,
            line_feeds(s, start) + 1,
            a,
            b,
        ).len() > 0 && error::rows_from(s, start, line_feeds(s, start) + 1, a, b)[0].number
            == line_feeds(s, start) + 1,
    decreases s.len() + 1 - start,
{
    if start <= s.len() {
        text::lemma_line_end(s, start);
        let number = line_feeds(s, start) + 1;
        let end = text::line_end(s, start);
        let next = end + 1;
        let rows = error::rows_from(s, start, number, a, b);
        if start < b {
            lemma_line_feeds(s, start, end);
            let rest = error::rows_from(s, next, number + 1, a, b);
            if end < s.len() {
                assert(line_feeds(s, next) == number);
                lemma_rows(s, next, a, b);
            } else {
                assert(rest =~= Seq::<RowView>::empty());
            }
            if next <= a {
                assert(rows == rest);
            } else {
                let row = error::listing_row(s, start, end, number, a, b);
                assert(is_touched(s, start, a, b));
                lemma_listing_row(s, start, a, b);
                assert(rows == seq![row] + rest);
                assert(rows[0] == row);
                assert forall|r: int| 0 <= r < rows.len() implies shows_touched_line(
                    s,
                    #[trigger] rows[r],
                    a,
                    b,
                ) && rows[r].number > line_feeds(s, start) by {
                    if r > 0 {
                        assert(rows[r] == rest[r - 1]);
                    }
                }
                assert forall|r: int, q: int|
                    #![trigger rows[r], rows[q]]
                    0 <= r < q < rows.len() implies rows[q].number - rows[r].number == q - r by {
                    assert(rows[q] == rest[q - 1]);
                    if r > 0 {
                        assert(rows[r] == rest[r - 1]);
                    } else {
                        lemma_first_row(s, next, a, b, rest);
                        if q > 1 {
                            assert(rest[q - 1].number - rest[0].number == q - 1);
                        }
                    }
                }
            }
            assert forall|at: int| start <= at && #[trigger] is_touched(s, at, a, b) implies has_row(
                rows,
                line_feeds(s, at) + 1,
            ) by {
                if at == start {
                    assert(rows[0].number == number);
                } else {
                    assert(next <= at) by {
                        if at < next {
                            assert(s[at - 1] == '\n');
                        }
                    }
                    let wanted = line_feeds(s, at) + 1;
                    assert(has_row(rest, wanted));
                    let r = choose|r: int|
                        0 <= r < rest.len() && (#[trigger] rest[r]).number == wanted;
                    if next <= a {
                        assert(rows[r].number == wanted);
                    } else {
                        assert(rows[r + 1] == rest[r]);
                    }
                }
            }
        } else {
            assert(rows =~= Seq::<RowView>::empty());
        }
    }
}

proof fn lemma_first_row(s: Seq<char>, start: int, a: int, b: int, rows: Seq<RowView>)
    requires
        starts_line(s, start),
        0 <= a,
        a < start,
        rows == error::rows_from(s, start, line_feeds(s, start) + 1, a, b),
        rows.len() > 0,
    ensures
        rows[0].number == line_feeds(s, start) + 1,
{
    text::lemma_line_end(s, start);
}

/// An error shows exactly the lines that its range touches, one after the other, each with its number and
/// its text, and marks what lies in the range.
pub proof fn law_errors_show_the_lines_they_are_about(s: Seq<char>, a: int, b: int)
    requires
        0 <= a <= s.len(),
    ensures
        ({
            let rows = error::rows_from(s, 0, 1, a, b);
            &&& forall|r: int| 0 <= r < rows.len() ==> shows_touched_line(s, #[trigger] rows[r], a, b)
            &&& forall|r: int, q: int|
                #![trigger rows[r], rows[q]]
                0 <= r < q < rows.len() ==> rows[q].number - rows[r].number == q - r
            &&& forall|start: int| #[trigger]
                is_touched(s, start, a, b) ==> has_row(rows, line_feeds(s, start) + 1)
        }),
{
    lemma_rows(s, 0, a, b);
}

/// The rows of an error about a range of a source are those of the characters in the range.
pub proof fn law_errors_show_the_lines_of_their_ranges(s: Seq<char>, from: int, to: int)
    requires
        0 <= from <= to <= s.len(),
    ensures
        error::listing_rows(s, error::span_of(s, from, to)) == error::rows_from(s, 0, 1, from, to),
{
    text::lemma_offset_ends(s);
    text::lemma_offset_monotonic(s, from, s.len() as int);
    text::lemma_offset_monotonic(s, to, s.len() as int);
    text::lemma_floor_index_at(s, from);
    text::lemma_floor_index_at(s, to);
}

/// Whether a character has a meaning in Markdown that entities do not use.
pub open spec fn is_syntax(c: char) -> bool {
    c == '<' || c == '>' || c == '\\' || c == '`' || c == '*' || c == '_' || c == '[' || c == ']'
        || c == '~'
}

/// Whether a character is written as an entity.
pub open spec fn is_replaced(c: char) -> bool {
    is_syntax(c) || c == '&' || c == '#'
}

#[verifier::rlimit(40)]
#[verifier::spinoff_prover]
proof fn lemma_entity(c: char)
    ensures
        markdown::entity(c).len() > 0,
        forall|i: int| 0 <= i < markdown::entity(c).len() ==> !is_syntax(#[trigger] markdown::entity(c)[i]),
        !is_replaced(c) ==> markdown::entity(c) == seq![c],
        is_replaced(c) ==> {
            let e = markdown::entity(c);
            &&& e.len() > 1
            &&& e[0] == '&'
            &&& e.last() == ';'
            &&& forall|i: int| 0 <= i < e.len() - 1 ==> #[trigger] e[i] != ';'
        },
{
    reveal_strlit("&amp;");
    reveal_strlit("&lt;");
    reveal_strlit("&gt;");
    reveal_strlit("&#92;");
    reveal_strlit("&#96;");
    reveal_strlit("&#42;");
    reveal_strlit("&#95;");
    reveal_strlit("&#91;");
    reveal_strlit("&#93;");
    reveal_strlit("&#126;");
    reveal_strlit("&#35;");
}

#[verifier::rlimit(40)]
#[verifier::spinoff_prover]
proof fn lemma_same_entity(c: char, d: char)
    requires
        is_replaced(c),
        is_replaced(d),
        markdown::entity(c) == markdown::entity(d),
    ensures
        c == d,
{
    reveal_strlit("&amp;");
    reveal_strlit("&lt;");
    reveal_strlit("&gt;");
    reveal_strlit("&#92;");
    reveal_strlit("&#96;");
    reveal_strlit("&#42;");
    reveal_strlit("&#95;");
    reveal_strlit("&#91;");
    reveal_strlit("&#93;");
    reveal_strlit("&#126;");
    reveal_strlit("&#35;");
    let x = markdown::entity(c);
    let y = markdown::entity(d);
    assert(x.len() == y.len());
    assert(x[1] == y[1]);
    assert(x[2] == y[2]);
    assert(x[3] == y[3]);
}

/// What is shown literally has no characters that Markdown would take for syntax, but for those that make
/// up entities.
pub proof fn law_literals_hold_no_syntax(s: Seq<char>)
    ensures
        forall|i: int| 0 <= i < markdown::literal(s).len() ==> !is_syntax(
            #[trigger] markdown::literal(s)[i],
        ),
    decreases s.len(),
{
    if s.len() > 0 {
        law_literals_hold_no_syntax(s.drop_last());
        lemma_entity(s.last());
        let before = markdown::literal(s.drop_last());
        let e = markdown::entity(s.last());
        assert forall|i: int| 0 <= i < markdown::literal(s).len() implies !is_syntax(
            #[trigger] markdown::literal(s)[i],
        ) by {
            if i < before.len() {
                assert(markdown::literal(s)[i] == before[i]);
            } else {
                assert(markdown::literal(s)[i] == e[i - before.len()]);
            }
        }
    }
}

proof fn lemma_literal_front(s: Seq<char>)
    requires
        s.len() > 0,
    ensures
        markdown::literal(s) == markdown::entity(s[0]) + markdown::literal(s.drop_first()),
    decreases s.len(),
{
    let first = markdown::entity(s[0]);
    if s.len() == 1 {
        assert(s.drop_last() =~= Seq::<char>::empty());
        assert(s.drop_first() =~= Seq::<char>::empty());
        assert(markdown::literal(s.drop_last()) =~= Seq::<char>::empty());
        assert(s.last() == s[0]);
        assert(markdown::literal(s) =~= first);
        assert(first + markdown::literal(s.drop_first()) =~= first);
    } else {
        let front = s.drop_last();
        let rest = s.drop_first();
        lemma_literal_front(front);
        assert(front.drop_first() =~= rest.drop_last());
        assert(rest.last() == s.last());
        assert((first + markdown::literal(rest.drop_last())) + markdown::entity(s.last()) =~= first
            + markdown::literal(rest));
    }
}

/// Texts that are shown literally in the same way are the same.
#[verifier::rlimit(40)]
#[verifier::spinoff_prover]
pub proof fn law_literals_can_be_told_apart(a: Seq<char>, b: Seq<char>)
    requires
        markdown::literal(a) == markdown::literal(b),
    ensures
        a == b,
    decreases a.len(),
{
    if a.len() == 0 || b.len() == 0 {
        if a.len() > 0 {
            lemma_literal_front(a);
            lemma_entity(a[0]);
        }
        if b.len() > 0 {
            lemma_literal_front(b);
            lemma_entity(b[0]);
        }
        assert(a =~= b);
    } else {
        lemma_literal_front(a);
        lemma_literal_front(b);
        lemma_entity(a[0]);
        lemma_entity(b[0]);
        let x = markdown::entity(a[0]);
        let y = markdown::entity(b[0]);
        let more = markdown::literal(a.drop_first());
        let others = markdown::literal(b.drop_first());
        let all = x + more;
        assert(all == y + others);
        assert(all[0] == x[0] && all[0] == y[0]);
        if is_replaced(a[0]) || is_replaced(b[0]) {
            assert(is_replaced(a[0]) && is_replaced(b[0]));
            let n = x.len() as int;
            let m = y.len() as int;
            assert(n == m) by {
                if n < m {
                    assert(all[n - 1] == x[n - 1] && all[n - 1] == y[n - 1]);
                } else if m < n {
                    assert(all[m - 1] == y[m - 1] && all[m - 1] == x[m - 1]);
                }
            }
            assert(x =~= all.take(n));
            assert(y =~= (y + others).take(n));
            lemma_same_entity(a[0], b[0]);
        }
        assert(a[0] == b[0]);
        assert(more =~= all.skip(x.len() as int));
        assert(others =~= (y + others).skip(y.len() as int));
        law_literals_can_be_told_apart(a.drop_first(), b.drop_first());
        assert(a =~= seq![a[0]] + a.drop_first());
        assert(b =~= seq![b[0]] + b.drop_first());
    }
}

/// Whether no link delimiter stands at an index.
pub open spec fn is_free(s: Seq<char>, j: int) -> bool {
    !markdown::delimiter_at(s, j, '[') && !markdown::delimiter_at(s, j, ']')
}

/// Whether a link of a content has its delimiters at two indices, with no other delimiters between them.
pub open spec fn is_link_between(s: Seq<char>, a: int, b: int) -> bool {
    &&& 0 <= a < b < s.len()
    &&& markdown::delimiter_at(s, a, '[')
    &&& markdown::delimiter_at(s, b, ']')
    &&& forall|j: int| a < j < b ==> #[trigger] is_free(s, j)
}

proof fn lemma_open(s: Seq<char>, a: int, i: int)
    requires
        0 <= a < i <= s.len(),
        markdown::delimiter_at(s, a, '['),
        forall|j: int| a < j < i ==> #[trigger] is_free(s, j),
    ensures
        markdown::last_open(s, i) == Some(a),
        markdown::links_before(s, i) == markdown::links_before(s, a),
        markdown::prose_start(s, i) == markdown::prose_start(s, a),
    decreases i - a,
{
    if a + 1 < i {
        lemma_open(s, a, i - 1);
        assert(is_free(s, i - 1));
    } else {
        assert(s[a] == '[');
    }
}

proof fn lemma_rendered_open(
    s: Seq<char>,
    links: Seq<LinkView>,
    urls: Seq<Option<Seq<char>>>,
    a: int,
    i: int,
)
    requires
        0 <= a < i <= s.len(),
        markdown::delimiter_at(s, a, '['),
        forall|j: int| a < j < i ==> #[trigger] is_free(s, j),
    ensures
        markdown::rendered_before(s, links, urls, i) == markdown::rendered_before(s, links, urls, a),
    decreases i - a,
{
    if a + 1 < i {
        lemma_rendered_open(s, links, urls, a, i - 1);
        assert(is_free(s, i - 1));
    } else {
        assert(s[a] == '[');
        assert(!markdown::delimiter_at(s, a, ']'));
    }
}

/// Rendering looks only at what comes before an index.
proof fn lemma_render_prefix(
    s: Seq<char>,
    t: Seq<char>,
    links: Seq<LinkView>,
    urls: Seq<Option<Seq<char>>>,
    i: int,
)
    requires
        0 <= i <= t.len() <= s.len(),
        t == s.take(t.len() as int),
    ensures
        markdown::last_open(t, i) == markdown::last_open(s, i),
        markdown::last_open(s, i) matches Some(a) ==> 0 <= a < i,
        markdown::links_before(t, i) == markdown::links_before(s, i),
        markdown::prose_start(t, i) == markdown::prose_start(s, i),
        0 <= markdown::prose_start(s, i) <= i,
        markdown::last_open(s, i) matches Some(a) ==> markdown::prose_start(s, i) <= a,
        markdown::rendered_before(t, links, urls, i) == markdown::rendered_before(s, links, urls, i),
    decreases i,
{
    if i > 0 {
        lemma_render_prefix(s, t, links, urls, i - 1);
        assert(t[i - 1] == s[i - 1]);
        if i > 1 {
            assert(t[i - 2] == s[i - 2]);
        }
        if let Some(a) = markdown::last_open(s, i - 1) {
            let ps = markdown::prose_start(s, i - 1);
            assert(t.subrange(ps, a) =~= s.subrange(ps, a));
            assert(t.subrange(a + 1, i - 1) =~= s.subrange(a + 1, i - 1));
        }
    }
}

/// A preview renders a content link by link: up to a link it is what the content before the link renders
/// to, and then comes the link, as the one of the node's links that it is by number, with the destination
/// of that number.
#[verifier::rlimit(40)]
#[verifier::spinoff_prover]
pub proof fn law_previews_show_links_by_number(
    s: Seq<char>,
    links: Seq<LinkView>,
    urls: Seq<Option<Seq<char>>>,
    a: int,
    b: int,
)
    requires
        is_link_between(s, a, b),
        b + 1 == s.len(),
        links.len() == urls.len(),
        markdown::last_open(s, a) is None,
        markdown::links_before(s, a) < links.len(),
    ensures
        ({
            let n = markdown::links_before(s, a) as int;
            let target = s.subrange(a + 1, b);
            let shown = match links[n] {
                LinkView::Text { title, span } => markdown::text_link(target, urls[n]),
                LinkView::File { path, span } => markdown::filesystem_link(target, urls[n]),
                LinkView::Directory { path, span } => markdown::filesystem_link(target, urls[n]),
            };
            &&& markdown::rendered_content(s, links, urls) == markdown::rendered_content(
                s.take(a),
                links,
                urls,
            ) + shown
            &&& markdown::links_before(s, b + 1) == n + 1
        }),
{
    lemma_open(s, a, b);
    lemma_rendered_open(s, links, urls, a, b);
    assert(s.take(s.len() as int) =~= s);
    lemma_render_prefix(s, s, links, urls, a);
    let t = s.take(a);
    lemma_render_prefix(s, t, links, urls, a);
    let ps = markdown::prose_start(s, a);
    assert(t.subrange(ps, a) =~= s.subrange(ps, a));
    let end = s.subrange(b + 1, b + 1);
    assert(end =~= Seq::<char>::empty());
    assert(markdown::prose_start(s, b + 1) == b + 1);
    lemma_no_prose(end);
    let n = markdown::links_before(s, a) as int;
    assert(markdown::link_ends_at(s, b));
    let before = markdown::rendered_before(s, links, urls, a);
    let words = markdown::prose(s.subrange(ps, a));
    let link = markdown::numbered_link(s.subrange(a + 1, b), links, urls, n as nat);
    assert(markdown::rendered_before(s, links, urls, b + 1) == before + words + link);
    assert(markdown::rendered_content(s, links, urls) =~= before + words + link);
    assert(markdown::rendered_content(t, links, urls) == before + words);
}

proof fn lemma_no_prose(s: Seq<char>)
    requires
        s.len() == 0,
    ensures
        markdown::prose(s).len() == 0,
{
    let inner = text::replaced(s, "\\["@, "&#91;"@);
    assert(inner.len() == 0);
}

proof fn lemma_after_link(
    s: Seq<char>,
    links: Seq<LinkView>,
    urls: Seq<Option<Seq<char>>>,
    from: int,
    i: int,
)
    requires
        0 <= from <= i <= s.len(),
        from == 0 || markdown::link_ends_at(s, from - 1),
        forall|j: int| from <= j < i ==> #[trigger] is_free(s, j),
    ensures
        markdown::last_open(s, i) is None,
        markdown::prose_start(s, i) == from,
        markdown::links_before(s, i) == markdown::links_before(s, from),
        markdown::rendered_before(s, links, urls, i) == markdown::rendered_before(s, links, urls, from),
    decreases i - from,
{
    if from < i {
        lemma_after_link(s, links, urls, from, i - 1);
        assert(is_free(s, i - 1));
    }
}

/// A preview shows the text behind the last link of a content, or the whole content if it has no links,
/// as prose.
pub proof fn law_previews_show_text_as_prose(
    s: Seq<char>,
    links: Seq<LinkView>,
    urls: Seq<Option<Seq<char>>>,
    from: int,
)
    requires
        0 <= from <= s.len(),
        from == 0 || markdown::link_ends_at(s, from - 1),
        forall|j: int| from <= j < s.len() ==> #[trigger] is_free(s, j),
    ensures
        markdown::rendered_content(s, links, urls) == markdown::rendered_content(
            s.take(from),
            links,
            urls,
        ) + markdown::prose(s.skip(from)),
        markdown::links_before(s, s.len() as int) == markdown::links_before(s, from),
{
    let n = s.len() as int;
    let t = s.take(from);
    lemma_after_link(s, links, urls, from, n);
    lemma_render_prefix(s, t, links, urls, from);
    assert(s.skip(from) =~= s.subrange(from, n));
    assert(markdown::prose_start(s, from) == from) by {
        lemma_after_link(s, links, urls, from, from);
    }
    let end = t.subrange(from, from);
    assert(end =~= Seq::<char>::empty());
    lemma_no_prose(end);
    let before = markdown::rendered_before(s, links, urls, from);
    assert(markdown::rendered_content(t, links, urls) =~= before);
}

/// The number that digits stand for.
pub open spec fn number_of(digits: Seq<char>) -> int
    decreases digits.len(),
{
    if digits.len() == 0 {
        0
    } else {
        number_of(digits.drop_last()) * 10 + (digits.last() as int - 48)
    }
}

/// A number in digits stands for itself, has no zero in front, and is made of digits alone.
pub proof fn law_numbers_are_written_in_digits(n: nat)
    ensures
        number_of(text::decimal(n)) == n,
        text::decimal(n).len() > 0,
        n > 0 ==> text::decimal(n)[0] != '0',
        forall|i: int| 0 <= i < text::decimal(n).len() ==> '0' <= #[trigger] text::decimal(n)[i] <= '9',
    decreases n,
{
    let all = text::decimal(n);
    let digit = (48 + n % 10) as char;
    assert(digit as int == 48 + n % 10);
    assert(all.last() == digit);
    if n >= 10 {
        law_numbers_are_written_in_digits(n / 10);
        let front = text::decimal(n / 10);
        assert(all.drop_last() =~= front);
        assert(all[0] == front[0]);
        assert forall|i: int| 0 <= i < all.len() implies '0' <= #[trigger] all[i] <= '9' by {
            if i < front.len() {
                assert(all[i] == front[i]);
            }
        }
    } else {
        assert(all.drop_last() =~= Seq::<char>::empty());
        assert(number_of(all.drop_last()) == 0);
    }
}

} // verus!
