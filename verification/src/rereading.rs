//! What the content of a node becomes when it is read again.

use vstd::prelude::*;

use crate::error;
use crate::error::Span;
use crate::linking;
use crate::parser;
use crate::text;
use crate::wiki;
use crate::wiki::LinkView;

verus! {

/// Whether the character at an index belongs to white space that a line feed follows before `hi`.
pub open spec fn is_dropped(s: Seq<char>, k: int, hi: int) -> bool
    decreases hi - k,
{
    &&& k + 1 < hi
    &&& s[k] != '\n'
    &&& text::white_space(s[k])
    &&& s[k + 1] == '\n' || is_dropped(s, k + 1, hi)
}

/// The characters between two indices but for white space before line feeds.
pub open spec fn kept(s: Seq<char>, a: int, i: int, hi: int) -> Seq<char>
    decreases i - a,
{
    if i <= a {
        Seq::empty()
    } else if is_dropped(s, i - 1, hi) {
        kept(s, a, i - 1, hi)
    } else {
        kept(s, a, i - 1, hi).push(s[i - 1])
    }
}

proof fn lemma_kept_front(s: Seq<char>, a: int, i: int, hi: int)
    requires
        0 <= a < i <= s.len(),
    ensures
        kept(s, a, i, hi) == if is_dropped(s, a, hi) {
            kept(s, a + 1, i, hi)
        } else {
            seq![s[a]] + kept(s, a + 1, i, hi)
        },
    decreases i - a,
{
    if i == a + 1 {
        assert(kept(s, a, a, hi) =~= Seq::<char>::empty());
        assert(kept(s, a + 1, i, hi) =~= Seq::<char>::empty());
        assert(kept(s, a, i, hi) =~= if is_dropped(s, a, hi) {
            Seq::<char>::empty()
        } else {
            seq![s[a]]
        });
        assert(seq![s[a]] + Seq::<char>::empty() =~= seq![s[a]]);
    } else {
        lemma_kept_front(s, a, i - 1, hi);
        if !is_dropped(s, i - 1, hi) {
            assert((seq![s[a]] + kept(s, a + 1, i - 1, hi)).push(s[i - 1]) =~= seq![s[a]] + kept(
                s,
                a + 1,
                i - 1,
                hi,
            ).push(s[i - 1]));
        }
    }
}

/// White space before a line feed in a slice is white space before a line feed in the whole.
proof fn lemma_ends_line(s: Seq<char>, a: int, b: int, i: int)
    requires
        0 <= a <= b <= s.len(),
        0 <= i < b - a,
    ensures
        parser::ends_line(s.subrange(a, b), i) == is_dropped(s, a + i, b),
    decreases b - a - i,
{
    if i + 1 < b - a {
        lemma_ends_line(s, a, b, i + 1);
    }
}

/// Normalizing a slice drops the white space before its line feeds.
proof fn lemma_normalized_from(s: Seq<char>, a: int, b: int, i: int)
    requires
        0 <= a <= b <= s.len(),
        0 <= i <= b - a,
    ensures
        parser::normalized_from(s.subrange(a, b), i) == kept(s, a + i, b, b),
    decreases b - a - i,
{
    if i < b - a {
        lemma_ends_line(s, a, b, i);
        lemma_kept_front(s, a + i, b, b);
        lemma_normalized_from(s, a, b, i + 1);
    }
}

/// Normalizing a slice drops the white space before its line feeds.
pub proof fn lemma_normalized(s: Seq<char>, a: int, b: int)
    requires
        0 <= a <= b <= s.len(),
    ensures
        parser::normalized(s.subrange(a, b)) == kept(s, a, b, b),
{
    lemma_normalized_from(s, a, b, 0);
}

/// Where a slice ends with something else than white space, what follows it does not matter.
proof fn lemma_dropped_bound(s: Seq<char>, k: int, b: int, hi: int)
    requires
        0 <= k < b <= hi <= s.len(),
        b == hi || !text::white_space(s[b - 1]),
    ensures
        is_dropped(s, k, b) == is_dropped(s, k, hi),
    decreases b - k,
{
    if k + 1 < b {
        lemma_dropped_bound(s, k + 1, b, hi);
    }
}

/// Where a slice ends with something else than white space, what follows it does not matter.
proof fn lemma_kept_bound(s: Seq<char>, a: int, i: int, b: int, hi: int)
    requires
        0 <= a <= i <= b <= hi <= s.len(),
        b == hi || b == a || !text::white_space(s[b - 1]),
    ensures
        kept(s, a, i, b) == kept(s, a, i, hi),
    decreases i - a,
{
    if i > a {
        lemma_kept_bound(s, a, i - 1, b, hi);
        lemma_dropped_bound(s, i - 1, b, hi);
    }
}

/// Whether a character is white space that has no place at the end of a line.
pub open spec fn is_space(c: char) -> bool {
    c != '\n' && text::white_space(c)
}

/// Whether the lines of a text are trimmed at the end, up to its last line feed.
pub open spec fn has_trimmed_lines(c: Seq<char>) -> bool {
    forall|k: int|
        0 <= k < c.len() - 1 && #[trigger] text::white_space(c[k]) && c[k] != '\n' ==> c[k + 1]
            != '\n'
}

proof fn lemma_nothing_dropped(c: Seq<char>, k: int, b: int)
    requires
        0 <= k < b <= c.len(),
        has_trimmed_lines(c),
    ensures
        !is_dropped(c, k, b),
    decreases b - k,
{
    if k + 1 < b {
        lemma_nothing_dropped(c, k + 1, b);
    }
}

proof fn lemma_kept_plain(c: Seq<char>, a: int, i: int, b: int)
    requires
        0 <= a <= i <= b <= c.len(),
        has_trimmed_lines(c),
    ensures
        kept(c, a, i, b) == c.subrange(a, i),
    decreases i - a,
{
    if a < i {
        lemma_kept_plain(c, a, i - 1, b);
        lemma_nothing_dropped(c, i - 1, b);
        assert(c.subrange(a, i) =~= c.subrange(a, i - 1).push(c[i - 1]));
    } else {
        assert(c.subrange(a, i) =~= Seq::<char>::empty());
    }
}

/// A text whose lines are trimmed already is its own normalization.
pub proof fn lemma_normalized_plain(c: Seq<char>, a: int, b: int)
    requires
        0 <= a <= b <= c.len(),
        has_trimmed_lines(c),
    ensures
        parser::normalized(c.subrange(a, b)) == c.subrange(a, b),
{
    lemma_normalized(c, a, b);
    lemma_kept_plain(c, a, b, b);
}

/// A link without its place in the source.
pub open spec fn unplaced(link: LinkView) -> LinkView {
    let span = Span { start: 0, end: 0 };
    match link {
        LinkView::Text { title, span: _ } => LinkView::Text { title, span },
        LinkView::File { path, span: _ } => LinkView::File { path, span },
        LinkView::Directory { path, span: _ } => LinkView::Directory { path, span },
    }
}

/// Links without their places in the source.
pub open spec fn all_unplaced(links: Seq<LinkView>) -> Seq<LinkView> {
    links.map_values(|link: LinkView| unplaced(link))
}

/// Whether the characters before an index of the content give rise to no errors.
pub open spec fn clean(s: Seq<char>, lo: int, i: int) -> bool {
    parser::errors_before(None, s, lo, i).len() == 0
}

/// What the character at an index has to satisfy to give rise to no errors.
pub proof fn lemma_clean_step(s: Seq<char>, lo: int, i: int)
    requires
        0 <= lo <= i < s.len(),
    ensures
        clean(s, lo, i + 1) <==> clean(s, lo, i) && parser::errors_at(None, s, lo, i).len() == 0,
{
}

/// Scanning looks only at what lies between the start of the content and the index.
pub proof fn lemma_scan_shift(s: Seq<char>, lo: int, t: Seq<char>, from: int, n: int)
    requires
        0 <= lo,
        0 <= from,
        0 <= n,
        lo + n <= s.len(),
        from + n <= t.len(),
        forall|k: int| 0 <= k < n ==> s[lo + k] == #[trigger] t[from + k],
    ensures
        match parser::open_link(s, lo, lo + n) {
            Some(start) => parser::open_link(t, from, from + n) == Some(start - lo + from) && lo
                <= start < lo + n,
            None => parser::open_link(t, from, from + n) == None::<int>,
        },
        parser::prose_start(t, from, from + n) - from == parser::prose_start(s, lo, lo + n) - lo,
        lo <= parser::prose_start(s, lo, lo + n) <= lo + n,
        parser::open_link(s, lo, lo + n) matches Some(start) ==> parser::prose_start(s, lo, lo + n)
            <= start,
    decreases n,
{
    if n > 0 {
        assert forall|k: int| 0 <= k < n - 1 implies s[lo + k] == #[trigger] t[from + k] by {}
        lemma_scan_shift(s, lo, t, from, n - 1);
        assert(s[lo + (n - 1)] == t[from + (n - 1)]);
        if n > 1 {
            assert(s[lo + (n - 2)] == t[from + (n - 2)]);
        }
    }
}

proof fn lemma_delimiter_shift(s: Seq<char>, lo: int, t: Seq<char>, from: int, n: int, d: char)
    requires
        0 <= lo,
        0 <= from,
        0 <= n,
        lo + n < s.len(),
        from + n < t.len(),
        forall|k: int| 0 <= k <= n ==> s[lo + k] == #[trigger] t[from + k],
    ensures
        parser::delimiter_at(s, lo, lo + n, d) == parser::delimiter_at(t, from, from + n, d),
{
    assert(s[lo + n] == t[from + n]);
    if n > 0 {
        assert(s[lo + (n - 1)] == t[from + (n - 1)]);
    }
}

pub proof fn lemma_link_of_unplaced(target: Seq<char>, a: Span, b: Span)
    ensures
        match (parser::link_of(target, a), parser::link_of(target, b)) {
            (Ok(x), Ok(y)) => unplaced(x) == unplaced(y),
            (Err(x), Err(y)) => true,
            _ => false,
        },
{
}

/// A link that is open at the same place in two texts with the same characters reads the same.
proof fn lemma_link_shift(
    s: Seq<char>,
    lo: int,
    t: Seq<char>,
    from: int,
    n: int,
    ps: int,
    start: int,
)
    requires
        0 <= lo <= ps <= start < lo + n,
        0 <= from,
        lo + n <= s.len(),
        from + n <= t.len(),
        forall|k: int| 0 <= k < n ==> s[lo + k] == #[trigger] t[from + k],
    ensures
        ({
            let begin = start - lo + from;
            &&& parser::has_line_break(s, start, lo + n) == parser::has_line_break(
                t,
                begin,
                from + n,
            )
            &&& parser::link_text(s, start, lo + n) == parser::link_text(t, begin, from + n)
            &&& s.subrange(ps, start + 1) == t.subrange(ps - lo + from, begin + 1)
            &&& match (parser::link_at(s, start, lo + n), parser::link_at(t, begin, from + n)) {
                (Ok(x), Ok(y)) => unplaced(x) == unplaced(y),
                (Err(x), Err(y)) => true,
                _ => false,
            }
        }),
{
    let i = lo + n;
    let j = from + n;
    let begin = start - lo + from;
    assert(parser::has_line_break(s, start, i) == parser::has_line_break(t, begin, j)) by {
        if parser::has_line_break(s, start, i) {
            let k = choose|k: int| start <= k < i && #[trigger] s[k] == '\n';
            assert(s[lo + (k - lo)] == t[from + (k - lo)]);
            assert(t[k - lo + from] == '\n');
        }
        if parser::has_line_break(t, begin, j) {
            let k = choose|k: int| begin <= k < j && #[trigger] t[k] == '\n';
            assert(s[lo + (k - from)] == t[from + (k - from)]);
            assert(s[k - from + lo] == '\n');
        }
    }
    let raw = s.subrange(start + 1, i);
    assert(raw =~= t.subrange(begin + 1, j)) by {
        assert forall|k: int| 0 <= k < raw.len() implies raw[k] == t[begin + 1 + k] by {
            let m = start + 1 + k - lo;
            assert(s[lo + m] == t[from + m]);
        }
    }
    let prose = s.subrange(ps, start + 1);
    assert(prose =~= t.subrange(ps - lo + from, begin + 1)) by {
        assert forall|k: int| 0 <= k < prose.len() implies prose[k] == t[ps - lo + from + k] by {
            let m = ps + k - lo;
            assert(s[lo + m] == t[from + m]);
        }
    }
    lemma_link_of_unplaced(
        wiki::unescaped(parser::link_text(s, start, i)),
        error::span_of(s, start, i + 1),
        error::span_of(t, begin, j + 1),
    );
}

/// Whether an open link reads the same in two texts.
spec fn reads_alike(s: Seq<char>, lo: int, i: int, t: Seq<char>, from: int, j: int) -> bool {
    match (parser::open_link(s, lo, i), parser::open_link(t, from, j)) {
        (Some(start), Some(begin)) => {
            &&& parser::has_line_break(s, start, i) == parser::has_line_break(t, begin, j)
            &&& parser::link_text(s, start, i) == parser::link_text(t, begin, j)
            &&& s.subrange(parser::prose_start(s, lo, i), start + 1) == t.subrange(
                parser::prose_start(t, from, j),
                begin + 1,
            )
            &&& match (parser::link_at(s, start, i), parser::link_at(t, begin, j)) {
                (Ok(x), Ok(y)) => unplaced(x) == unplaced(y),
                (Err(x), Err(y)) => true,
                _ => false,
            }
        },
        (None, None) => true,
        _ => false,
    }
}

/// Whether the contents before two indices have the same text and the same links, and either both
/// or neither have errors.
spec fn is_alike(s: Seq<char>, lo: int, i: int, t: Seq<char>, from: int, j: int) -> bool {
    &&& clean(s, lo, i) == clean(t, from, j)
    &&& parser::text_before(s, lo, i) == parser::text_before(t, from, j)
    &&& all_unplaced(parser::links_before(s, lo, i)) == all_unplaced(
        parser::links_before(t, from, j),
    )
}

proof fn lemma_content_step(s: Seq<char>, lo: int, i: int, t: Seq<char>, from: int, j: int)
    requires
        lo <= i,
        from <= j,
        s[i] == t[j],
        parser::delimiter_at(s, lo, i, '[') == parser::delimiter_at(t, from, j, '['),
        parser::delimiter_at(s, lo, i, ']') == parser::delimiter_at(t, from, j, ']'),
        reads_alike(s, lo, i, t, from, j),
        is_alike(s, lo, i, t, from, j),
    ensures
        is_alike(s, lo, i + 1, t, from, j + 1),
{
    assert(parser::errors_at(None, s, lo, i).len() == parser::errors_at(None, t, from, j).len());
    let links = parser::links_before(s, lo, i);
    let other = parser::links_before(t, from, j);
    if let Some(start) = parser::open_link(s, lo, i) {
        let begin = parser::open_link(t, from, j)->0;
        if parser::delimiter_at(s, lo, i, ']') {
            if let Ok(link) = parser::link_at(s, start, i) {
                let twin = parser::link_at(t, begin, j)->Ok_0;
                assert(all_unplaced(links.push(link)) =~= all_unplaced(links).push(unplaced(link)));
                assert(all_unplaced(other.push(twin)) =~= all_unplaced(other).push(unplaced(twin)));
            }
        }
    }
}

/// Links, contents and the absence of errors carry over to a text with the same characters.
pub proof fn lemma_content_shift(s: Seq<char>, lo: int, t: Seq<char>, from: int, n: int)
    requires
        0 <= lo,
        0 <= from,
        0 <= n,
        lo + n <= s.len(),
        from + n <= t.len(),
        forall|k: int| 0 <= k < n ==> s[lo + k] == #[trigger] t[from + k],
    ensures
        clean(s, lo, lo + n) == clean(t, from, from + n),
        parser::text_before(s, lo, lo + n) == parser::text_before(t, from, from + n),
        all_unplaced(parser::links_before(s, lo, lo + n)) == all_unplaced(
            parser::links_before(t, from, from + n),
        ),
    decreases n,
{
    if n == 0 {
        assert(all_unplaced(parser::links_before(s, lo, lo)) =~= all_unplaced(
            parser::links_before(t, from, from),
        ));
    } else {
        let i = lo + n - 1;
        let j = from + n - 1;
        assert forall|k: int| 0 <= k < n - 1 implies s[lo + k] == #[trigger] t[from + k] by {}
        lemma_content_shift(s, lo, t, from, n - 1);
        assert(reads_alike(s, lo, i, t, from, j)) by {
            lemma_scan_shift(s, lo, t, from, n - 1);
            if let Some(start) = parser::open_link(s, lo, i) {
                lemma_link_shift(s, lo, t, from, n - 1, parser::prose_start(s, lo, i), start);
            }
        }
        lemma_delimiter_shift(s, lo, t, from, n - 1, '[');
        lemma_delimiter_shift(s, lo, t, from, n - 1, ']');
        assert(s[lo + (n - 1)] == t[from + (n - 1)]);
        lemma_content_step(s, lo, i, t, from, j);
    }
}

/// The content that has been written once the characters before an index have been read. Inside a
/// link, that is everything up to its opening delimiter.
pub open spec fn so_far(s: Seq<char>, lo: int, i: int, hi: int) -> Seq<char> {
    let ps = parser::prose_start(s, lo, i);
    match parser::open_link(s, lo, i) {
        Some(start) => parser::text_before(s, lo, i) + kept(s, ps, start + 1, hi),
        None => parser::text_before(s, lo, i) + kept(s, ps, i, hi),
    }
}

/// What reading one more character adds to the content.
pub open spec fn added(s: Seq<char>, lo: int, i: int, hi: int) -> Seq<char> {
    match parser::open_link(s, lo, i) {
        Some(start) => if parser::delimiter_at(s, lo, i, ']') {
            parser::written_link(parser::link_text(s, start, i)).push(']')
        } else {
            Seq::empty()
        },
        None => if is_dropped(s, i, hi) {
            Seq::empty()
        } else {
            seq![s[i]]
        },
    }
}

pub proof fn lemma_scan_bounds(s: Seq<char>, lo: int, i: int)
    requires
        0 <= lo <= i <= s.len(),
    ensures
        lo <= parser::prose_start(s, lo, i) <= i,
        match parser::open_link(s, lo, i) {
            Some(start) => parser::prose_start(s, lo, i) <= start < i && s[start] == '[',
            None => true,
        },
    decreases i - lo,
{
    if lo < i {
        lemma_scan_bounds(s, lo, i - 1);
    }
}

pub proof fn lemma_so_far_step(s: Seq<char>, lo: int, i: int, hi: int)
    requires
        0 <= lo <= i < hi <= s.len(),
    ensures
        so_far(s, lo, i + 1, hi) == so_far(s, lo, i, hi) + added(s, lo, i, hi),
{
    reveal_strlit("]");
    lemma_scan_bounds(s, lo, i);
    let ps = parser::prose_start(s, lo, i);
    let before = parser::text_before(s, lo, i);
    match parser::open_link(s, lo, i) {
        Some(start) => {
            if parser::delimiter_at(s, lo, i, ']') {
                lemma_normalized(s, ps, start + 1);
                lemma_kept_bound(s, ps, start + 1, start + 1, hi);
                assert(kept(s, i + 1, i + 1, hi) =~= Seq::<char>::empty());
                assert(so_far(s, lo, i + 1, hi) =~= so_far(s, lo, i, hi) + added(s, lo, i, hi));
            } else {
                assert(so_far(s, lo, i + 1, hi) =~= so_far(s, lo, i, hi) + Seq::<char>::empty());
            }
        },
        None => {
            assert(so_far(s, lo, i + 1, hi) =~= so_far(s, lo, i, hi) + added(s, lo, i, hi));
        },
    }
}

proof fn lemma_so_far_prefix(s: Seq<char>, lo: int, i: int, hi: int)
    requires
        0 <= lo <= i <= hi <= s.len(),
    ensures
        so_far(s, lo, i, hi).is_prefix_of(so_far(s, lo, hi, hi)),
    decreases hi - i,
{
    if i < hi {
        lemma_so_far_prefix(s, lo, i + 1, hi);
        lemma_so_far_step(s, lo, i, hi);
    }
}

/// Whether the link that ends at an index, if one does, does not end with a backslash.
pub open spec fn ends_plainly(s: Seq<char>, lo: int, i: int) -> bool {
    match parser::open_link(s, lo, i) {
        Some(start) => parser::delimiter_at(s, lo, i, ']') ==> parser::link_text(s, start, i).len()
            == 0 || parser::link_text(s, start, i).last() != '\\',
        None => true,
    }
}

/// Whether the inside of the open link holds neither line feeds nor delimiters without a backslash.
pub open spec fn inside_ok(s: Seq<char>, lo: int, start: int, i: int) -> bool {
    forall|j: int|
        start < j < i ==> (#[trigger] s[j]) != '\n' && !parser::delimiter_at(s, lo, j, '[')
            && !parser::delimiter_at(s, lo, j, ']')
}

/// Whether reading a text again leaves it as it is: it has no errors, and it holds the same links.
spec fn reads_back(o: Seq<char>, links: Seq<LinkView>) -> bool {
    let n = o.len() as int;
    &&& clean(o, 0, n)
    &&& all_unplaced(parser::links_before(o, 0, n)) == all_unplaced(links)
    &&& parser::text_before(o, 0, n) == o.subrange(0, parser::prose_start(o, 0, n))
}

/// Whether the content that has been written reads back, and ends where the source does.
spec fn mirrors(s: Seq<char>, lo: int, i: int, hi: int) -> bool {
    let o = so_far(s, lo, i, hi);
    let n = o.len() as int;
    &&& reads_back(o, parser::links_before(s, lo, i))
    &&& has_trimmed_lines(o)
    &&& match parser::open_link(s, lo, i) {
        Some(start) => {
            &&& n > 0
            &&& o.last() == '['
            &&& parser::open_link(o, 0, n) == Some(n - 1)
            &&& inside_ok(s, lo, start, i)
        },
        None => {
            &&& parser::open_link(o, 0, n) is None
            &&& i == lo ==> n == 0
            &&& i > lo && !is_dropped(s, i - 1, hi) ==> n > 0 && o.last() == s[i - 1]
            &&& i > lo && is_dropped(s, i - 1, hi) ==> n == 0 || !is_space(o.last())
        },
    }
}

/// Scanning a prefix of a text is scanning the text.
pub proof fn lemma_reads_prefix(o: Seq<char>, longer: Seq<char>)
    requires
        o.is_prefix_of(longer),
    ensures
        clean(longer, 0, o.len() as int) == clean(o, 0, o.len() as int),
        parser::open_link(longer, 0, o.len() as int) == parser::open_link(o, 0, o.len() as int),
        parser::prose_start(longer, 0, o.len() as int) == parser::prose_start(o, 0, o.len() as int),
        parser::text_before(longer, 0, o.len() as int) == parser::text_before(o, 0, o.len() as int),
        all_unplaced(parser::links_before(longer, 0, o.len() as int)) == all_unplaced(
            parser::links_before(o, 0, o.len() as int),
        ),
{
    let n = o.len() as int;
    assert forall|k: int| 0 <= k < n implies o[0 + k] == #[trigger] longer[0 + k] by {
        assert(longer.subrange(0, n)[k] == longer[k]);
    }
    lemma_scan_shift(o, 0, longer, 0, n);
    lemma_content_shift(o, 0, longer, 0, n);
}

/// A character that is not a delimiter keeps a text readable outside links.
proof fn lemma_push_prose(o: Seq<char>, c: char, links: Seq<LinkView>)
    requires
        reads_back(o, links),
        parser::open_link(o, 0, o.len() as int) is None,
        !parser::delimiter_at(o.push(c), 0, o.len() as int, ']'),
        !parser::delimiter_at(o.push(c), 0, o.len() as int, '['),
    ensures
        reads_back(o.push(c), links),
        parser::open_link(o.push(c), 0, o.push(c).len() as int) is None,
{
    let t = o.push(c);
    let n = o.len() as int;
    assert(t.subrange(0, n) =~= o);
    lemma_reads_prefix(o, t);
    lemma_scan_bounds(o, 0, n);
    lemma_clean_step(t, 0, n);
    assert(parser::errors_at(None, t, 0, n).len() == 0);
    assert(t.subrange(0, parser::prose_start(o, 0, n)) =~= o.subrange(
        0,
        parser::prose_start(o, 0, n),
    ));
}

/// An opening delimiter keeps a text readable outside links.
proof fn lemma_push_open(o: Seq<char>, links: Seq<LinkView>)
    requires
        reads_back(o, links),
        parser::open_link(o, 0, o.len() as int) is None,
        o.len() > 0 ==> o.last() != '\\',
    ensures
        reads_back(o.push('['), links),
        parser::open_link(o.push('['), 0, o.push('[').len() as int) == Some(o.len() as int),
{
    let t = o.push('[');
    let n = o.len() as int;
    assert(t.subrange(0, n) =~= o);
    lemma_reads_prefix(o, t);
    lemma_scan_bounds(o, 0, n);
    lemma_clean_step(t, 0, n);
    if n > 0 {
        assert(t[n - 1] == o.last());
    }
    assert(parser::delimiter_at(t, 0, n, '['));
    assert(parser::errors_at(None, t, 0, n).len() == 0);
    assert(t.subrange(0, parser::prose_start(o, 0, n)) =~= o.subrange(
        0,
        parser::prose_start(o, 0, n),
    ));
}

/// The inside of a link keeps the link open and adds no errors.
proof fn lemma_push_inside(o: Seq<char>, x: Seq<char>, links: Seq<LinkView>)
    requires
        reads_back(o, links),
        o.len() > 0,
        parser::open_link(o, 0, o.len() as int) == Some(o.len() - 1),
        forall|m: int|
            0 <= m < x.len() ==> (#[trigger] x[m]) != '\n' && !parser::delimiter_at(
                o + x,
                0,
                o.len() + m,
                '[',
            ) && !parser::delimiter_at(o + x, 0, o.len() + m, ']'),
    ensures
        reads_back(o + x, links),
        parser::open_link(o + x, 0, (o + x).len() as int) == Some(o.len() - 1),
        parser::prose_start(o + x, 0, (o + x).len() as int) == parser::prose_start(
            o,
            0,
            o.len() as int,
        ),
    decreases x.len(),
{
    if x.len() == 0 {
        assert(o + x =~= o);
    } else {
        let front = x.drop_last();
        let t = o + x;
        let shorter = o + front;
        let n = shorter.len() as int;
        assert(t =~= shorter.push(x.last()));
        assert(t.subrange(0, n) =~= shorter);
        assert forall|m: int| 0 <= m < front.len() implies (#[trigger] front[m]) != '\n'
            && !parser::delimiter_at(shorter, 0, o.len() + m, '[') && !parser::delimiter_at(
            shorter,
            0,
            o.len() + m,
            ']',
        ) by {
            assert(front[m] == x[m]);
            assert(shorter[o.len() + m] == t[o.len() + m]);
            assert(shorter[o.len() + m - 1] == t[o.len() + m - 1]);
        }
        lemma_push_inside(o, front, links);
        lemma_reads_prefix(shorter, t);
        lemma_clean_step(t, 0, n);
        assert(x[x.len() - 1] == t[n]);
        assert(parser::errors_at(None, t, 0, n).len() == 0);
        lemma_scan_bounds(o, 0, o.len() as int);
        let ps = parser::prose_start(o, 0, o.len() as int);
        assert(t.subrange(0, ps) =~= shorter.subrange(0, ps));
    }
}

/// Trimming a trimmed text changes nothing.
pub proof fn lemma_trimmed_again(x: Seq<char>)
    requires
        text::is_trimmed(x),
    ensures
        text::trimmed(x) == x,
{
    let n = x.len() as int;
    if n > 0 {
        assert(text::trim_start_index(x, 0, n) == 0);
        assert(text::trim_end_index(x, 0, n) == n);
    }
    assert(x.subrange(0, n) =~= x);
    assert(text::trimmed(x) =~= x);
}

/// A closing delimiter keeps a text readable if the link it closes has a valid target.
#[verifier::rlimit(60)]
#[verifier::spinoff_prover]
proof fn lemma_push_close(o: Seq<char>, x: Seq<char>, links: Seq<LinkView>, link: LinkView, span: Span)
    requires
        has_trimmed_lines(o + x.push(']')),
        parser::written_link(x) == x,
        reads_back(o + x, links),
        o.len() > 0,
        o.last() == '[',
        parser::open_link(o + x, 0, (o + x).len() as int) == Some(o.len() - 1),
        text::is_trimmed(x),
        x.len() == 0 || x.last() != '\\',
        parser::link_of(wiki::unescaped(x), span) == Ok::<LinkView, Seq<char>>(link),
    ensures
        reads_back(o + x.push(']'), links.push(link)),
        parser::open_link(o + x.push(']'), 0, (o + x.push(']')).len() as int) is None,
{
    reveal_strlit("]");
    let inner = o + x;
    let t = o + x.push(']');
    let n = inner.len() as int;
    let p = o.len() - 1;
    assert(t =~= inner.push(']'));
    assert(t.subrange(0, n) =~= inner);
    lemma_reads_prefix(inner, t);
    lemma_scan_bounds(inner, 0, n);
    lemma_clean_step(t, 0, n);
    if x.len() > 0 {
        assert(t[n - 1] == x.last());
    } else {
        assert(t[n - 1] == o.last());
    }
    assert(parser::delimiter_at(t, 0, n, ']'));
    assert(t.subrange(p + 1, n) =~= x);
    lemma_trimmed_again(x);
    let place = error::span_of(t, p, n + 1);
    lemma_link_of_unplaced(wiki::unescaped(x), span, place);
    let twin = parser::link_at(t, p, n)->Ok_0;
    assert(parser::link_at(t, p, n) == Ok::<LinkView, Seq<char>>(twin));
    assert(parser::errors_at(None, t, 0, n).len() == 0);
    let found = parser::links_before(t, 0, n);
    assert(parser::links_before(t, 0, n + 1) == found.push(twin));
    assert(all_unplaced(found.push(twin)) =~= all_unplaced(found).push(unplaced(twin)));
    assert(all_unplaced(links.push(link)) =~= all_unplaced(links).push(unplaced(link)));
    let ps = parser::prose_start(t, 0, n);
    lemma_normalized_plain(t, ps, p + 1);
    assert(parser::text_before(t, 0, n + 1) =~= t.subrange(0, n + 1));
}

/// The content that has been written reads back, as long as the source has no errors and no link
/// ends with a backslash.
proof fn lemma_mirrors(s: Seq<char>, lo: int, i: int, hi: int)
    requires
        0 <= lo <= i <= hi <= s.len(),
        clean(s, lo, i),
        forall|j: int| lo <= j < i ==> #[trigger] ends_plainly(s, lo, j),
    ensures
        mirrors(s, lo, i, hi),
    decreases i - lo,
{
    if i == lo {
        let o = so_far(s, lo, i, hi);
        assert(o =~= Seq::<char>::empty());
        assert(o.subrange(0, 0) =~= Seq::<char>::empty());
        assert(all_unplaced(parser::links_before(o, 0, 0)) =~= all_unplaced(
            parser::links_before(s, lo, lo),
        ));
    } else {
        let j = i - 1;
        lemma_clean_step(s, lo, j);
        lemma_mirrors(s, lo, j, hi);
        lemma_so_far_step(s, lo, j, hi);
        lemma_scan_bounds(s, lo, j);
        let o = so_far(s, lo, j, hi);
        let links = parser::links_before(s, lo, j);
        let c = s[j];
        match parser::open_link(s, lo, j) {
            None => {
                if is_dropped(s, j, hi) {
                    assert(o + Seq::<char>::empty() =~= o);
                    if j > lo && !is_dropped(s, j - 1, hi) {
                        assert(!is_space(s[j - 1]));
                    }
                } else {
                    assert(o + seq![c] =~= o.push(c));
                    let t = o.push(c);
                    let n = o.len() as int;
                    assert(t[n] == c);
                    if n > 0 {
                        assert(t[n - 1] == o.last());
                    }
                    assert(has_trimmed_lines(t)) by {
                        assert forall|k: int|
                            0 <= k < t.len() - 1 && #[trigger] text::white_space(t[k]) && t[k] != '\n'
                            implies t[k + 1] != '\n' by {
                            if k + 1 < n {
                                assert(text::white_space(o[k]));
                                assert(o[k + 1] != '\n');
                            } else if c == '\n' {
                                assert(j > lo);
                                if is_dropped(s, j - 1, hi) {
                                    assert(!is_space(o.last()));
                                } else {
                                    assert(o.last() == s[j - 1]);
                                }
                            }
                        }
                    }
                    if parser::delimiter_at(s, lo, j, '[') {
                        lemma_push_open(o, links);
                    } else {
                        assert(!parser::delimiter_at(s, lo, j, ']'));
                        lemma_push_prose(o, c, links);
                    }
                }
            },
            Some(start) => {
                assert(!parser::has_line_break(s, start, j)) by {
                    if parser::has_line_break(s, start, j) {
                        let k = choose|k: int| start <= k < j && #[trigger] s[k] == '\n';
                        assert(k != start);
                        assert(s[k] != '\n');
                    }
                }
                assert(s[j] != '\n');
                assert(!parser::delimiter_at(s, lo, j, '['));
                if parser::delimiter_at(s, lo, j, ']') {
                    assert(ends_plainly(s, lo, j));
                    lemma_close_mirrors(s, lo, start, j, hi);
                } else {
                    assert(o + Seq::<char>::empty() =~= o);
                    assert(inside_ok(s, lo, start, i));
                }
            },
        }
    }
}

/// What stands between the delimiters of a link in content without errors ends nowhere else.
proof fn lemma_stays_inside(s: Seq<char>, lo: int, start: int, j: int)
    requires
        0 <= lo <= start < j < s.len(),
        parser::open_link(s, lo, j) == Some(start),
        s[start] == '[',
        parser::delimiter_at(s, lo, j, ']'),
        ends_plainly(s, lo, j),
        inside_ok(s, lo, start, j),
    ensures
        linking::stays_inside(parser::link_text(s, start, j)),
{
    let x = parser::link_text(s, start, j);
    text::lemma_trimmed_subrange(s, start + 1, j);
    let a = text::trim_start_index(s, start + 1, j);
    let b = text::trim_end_index(s, a, j);
    text::lemma_trim_start_index(s, start + 1, j);
    assert(x =~= s.subrange(a, b));
    assert forall|m: int| 0 <= m < x.len() implies #[trigger] x[m] != '\n' by {
        assert(x[m] == s[a + m]);
    }
    assert forall|m: int|
        0 <= m < x.len() && (#[trigger] x[m] == '[' || x[m] == ']') implies m > 0 && x[m - 1]
        == '\\' by {
        let k = a + m;
        assert(x[m] == s[k]);
        assert(s[k - 1] == '\\');
        if m == 0 {
            assert(k - 1 > start);
            assert(text::white_space(s[k - 1]));
        } else {
            assert(x[m - 1] == s[k - 1]);
        }
    }
}

/// Closing a link keeps the content readable.
proof fn lemma_close_mirrors(s: Seq<char>, lo: int, start: int, j: int, hi: int)
    requires
        0 <= lo <= start < j < hi <= s.len(),
        mirrors(s, lo, j, hi),
        parser::open_link(s, lo, j) == Some(start),
        s[start] == '[',
        parser::delimiter_at(s, lo, j, ']'),
        parser::errors_at(None, s, lo, j).len() == 0,
        ends_plainly(s, lo, j),
        so_far(s, lo, j + 1, hi) == so_far(s, lo, j, hi) + added(s, lo, j, hi),
        s[j] != '\n',
    ensures
        mirrors(s, lo, j + 1, hi),
{
    let o = so_far(s, lo, j, hi);
    let raw = parser::link_text(s, start, j);
    let x = parser::written_link(raw);
    let links = parser::links_before(s, lo, j);
    let t = o + x.push(']');
    let span = error::span_of(s, start, j + 1);
    lemma_stays_inside(s, lo, start, j);
    linking::law_written_links_keep_their_meaning(raw, span);
    assert forall|m: int| 0 <= m < x.len() implies (#[trigger] x[m]) != '\n'
        && !parser::delimiter_at(o + x, 0, o.len() + m, '[') && !parser::delimiter_at(
        o + x,
        0,
        o.len() + m,
        ']',
    ) by {
        assert((o + x)[o.len() + m] == x[m]);
        if m > 0 {
            assert((o + x)[o.len() + m - 1] == x[m - 1]);
        }
    }
    assert(has_trimmed_lines(t)) by {
        assert forall|k: int|
            0 <= k < t.len() - 1 && #[trigger] text::white_space(t[k]) && t[k] != '\n' implies t[k
            + 1] != '\n' by {
            if k + 1 < o.len() {
                assert(text::white_space(o[k]));
                assert(o[k + 1] != '\n');
            } else if k + 1 < o.len() + x.len() {
                assert(t[k + 1] == x[k + 1 - o.len()]);
            }
        }
    }
    lemma_push_inside(o, x, links);
    let link = parser::link_at(s, start, j)->Ok_0;
    assert(parser::link_at(s, start, j) == Ok::<LinkView, Seq<char>>(link));
    lemma_push_close(o, x, links, link, span);
    assert(so_far(s, lo, j + 1, hi) == t);
    assert(parser::links_before(s, lo, j + 1) == links.push(link));
    assert(t.last() == ']');
}

/// Whether the content between two indices stays what it is once it has been formatted: no link
/// ends with a backslash, which would escape its closing delimiter once the space between the two is
/// gone; and no line becomes a title line.
pub open spec fn settles(s: Seq<char>, lo: int, hi: int) -> bool {
    let content = parser::content_text(s, lo, hi);
    &&& forall|j: int| lo <= j < hi ==> #[trigger] ends_plainly(s, lo, j)
    &&& parser::next_title_line(content, 0) == content.len()
}

/// Whether a content reads back as it is, with the given links.
pub open spec fn is_settled(content: Seq<char>, links: Seq<LinkView>) -> bool {
    let n = content.len() as int;
    &&& clean(content, 0, n)
    &&& parser::open_link(content, 0, n) is None
    &&& parser::content_text(content, 0, n) == content
    &&& all_unplaced(parser::links_before(content, 0, n)) == all_unplaced(links)
    &&& text::is_trimmed(content)
    &&& parser::next_title_line(content, 0) == n
}

/// Whether there are errors does not depend on the name of the source.
pub proof fn lemma_clean_anywhere(path: Option<Seq<char>>, s: Seq<char>, lo: int, i: int)
    ensures
        clean(s, lo, i) <==> parser::errors_before(path, s, lo, i).len() == 0,
    decreases i - lo,
{
    if i > lo {
        lemma_clean_anywhere(path, s, lo, i - 1);
        assert(parser::errors_at(path, s, lo, i - 1).len() == parser::errors_at(
            None,
            s,
            lo,
            i - 1,
        ).len());
    }
}

/// Content without space at its ends and without an open link stays without space at its ends.
pub proof fn lemma_content_trimmed(s: Seq<char>, lo: int, hi: int)
    requires
        0 <= lo <= hi <= s.len(),
        text::is_trimmed(s.subrange(lo, hi)),
        parser::open_link(s, lo, hi) is None,
    ensures
        text::is_trimmed(parser::content_text(s, lo, hi)),
{
    let c = parser::content_text(s, lo, hi);
    lemma_scan_bounds(s, lo, hi);
    lemma_normalized(s, parser::prose_start(s, lo, hi), hi);
    assert(so_far(s, lo, hi, hi) == c);
    if lo < hi {
        assert(s.subrange(lo, hi)[0] == s[lo]);
        assert(s.subrange(lo, hi).last() == s[hi - 1]);
        assert(parser::open_link(s, lo, lo) is None);
        assert(so_far(s, lo, lo, hi) =~= Seq::<char>::empty());
        lemma_so_far_step(s, lo, lo, hi);
        lemma_so_far_prefix(s, lo, lo + 1, hi);
        assert(so_far(s, lo, lo + 1, hi) =~= seq![s[lo]]);
        assert(seq![s[lo]][0] == s[lo]);
        assert(c.subrange(0, 1)[0] == c[0]);
        lemma_so_far_step(s, lo, hi - 1, hi);
        let end = added(s, lo, hi - 1, hi);
        assert(end.len() > 0 && (end.last() == s[hi - 1] || end.last() == ']'));
        assert(c.last() == end.last());
    } else {
        assert(c =~= Seq::<char>::empty());
    }
}

/// The lines of the content that has been written are trimmed at the end.
proof fn lemma_lines_so_far(s: Seq<char>, lo: int, i: int, hi: int)
    requires
        0 <= lo <= i <= hi <= s.len(),
        clean(s, lo, i),
    ensures
        ({
            let o = so_far(s, lo, i, hi);
            &&& has_trimmed_lines(o)
            &&& match parser::open_link(s, lo, i) {
                Some(start) => {
                    &&& start >= lo
                    &&& forall|k: int| start < k < i ==> #[trigger] s[k] != '\n'
                },
                None => {
                    &&& i > lo && !is_dropped(s, i - 1, hi) ==> o.len() > 0 && o.last() == s[i - 1]
                    &&& i > lo && is_dropped(s, i - 1, hi) ==> o.len() == 0 || !is_space(o.last())
                    &&& i == lo ==> o.len() == 0
                },
            }
        }),
    decreases i - lo,
{
    if i == lo {
        assert(so_far(s, lo, i, hi) =~= Seq::<char>::empty());
    } else {
        let j = i - 1;
        lemma_clean_step(s, lo, j);
        lemma_lines_so_far(s, lo, j, hi);
        lemma_so_far_step(s, lo, j, hi);
        lemma_scan_bounds(s, lo, j);
        let o = so_far(s, lo, j, hi);
        let more = added(s, lo, j, hi);
        let t = o + more;
        let c = s[j];
        match parser::open_link(s, lo, j) {
            None => {
                if is_dropped(s, j, hi) {
                    assert(t =~= o);
                    if j > lo && !is_dropped(s, j - 1, hi) {
                        assert(!is_space(s[j - 1]));
                    }
                } else if c == '\n' && j > lo && o.len() > 0 {
                    if !is_dropped(s, j - 1, hi) {
                        assert(o.last() == s[j - 1]);
                    }
                    assert(!is_space(o.last()));
                }
            },
            Some(start) => {
                if parser::has_line_break(s, start, j) {
                    let k = choose|k: int| start <= k < j && #[trigger] s[k] == '\n';
                    assert(k != start);
                    assert(s[k] != '\n');
                }
                assert(s[j] != '\n');
                if parser::delimiter_at(s, lo, j, ']') {
                    let raw = parser::link_text(s, start, j);
                    text::lemma_trimmed_subrange(s, start + 1, j);
                    let a = text::trim_start_index(s, start + 1, j);
                    assert forall|k: int| 0 <= k < raw.len() implies #[trigger] raw[k] != '\n' by {
                        assert(raw[k] == s[a + k]);
                    }
                    linking::lemma_written_line(raw);
                    assert(t.last() == ']');
                } else {
                    assert(t =~= o);
                }
            },
        }
        assert forall|k: int|
            0 <= k < t.len() - 1 && #[trigger] text::white_space(t[k]) && t[k] != '\n' implies t[k
            + 1] != '\n' by {
            if k + 1 < o.len() {
                assert(text::white_space(o[k]));
                assert(o[k + 1] != '\n');
            } else {
                assert(t[k + 1] == more[k + 1 - o.len()]);
            }
        }
    }
}

/// The lines of a content without errors are trimmed at the end.
pub proof fn lemma_content_lines(s: Seq<char>, lo: int, hi: int)
    requires
        0 <= lo <= hi <= s.len(),
        parser::content_errors(None, s, lo, hi).len() == 0,
    ensures
        has_trimmed_lines(parser::content_text(s, lo, hi)),
{
    lemma_scan_bounds(s, lo, hi);
    lemma_normalized(s, parser::prose_start(s, lo, hi), hi);
    assert(so_far(s, lo, hi, hi) == parser::content_text(s, lo, hi));
    lemma_lines_so_far(s, lo, hi, hi);
}

/// Content without errors that settles reads back as it is.
pub proof fn lemma_content_settles(s: Seq<char>, lo: int, hi: int)
    requires
        0 <= lo <= hi <= s.len(),
        text::is_trimmed(s.subrange(lo, hi)),
        parser::content_errors(None, s, lo, hi).len() == 0,
        settles(s, lo, hi),
    ensures
        is_settled(parser::content_text(s, lo, hi), parser::links_before(s, lo, hi)),
{
    let ps = parser::prose_start(s, lo, hi);
    let c = parser::content_text(s, lo, hi);
    let n = c.len() as int;
    lemma_scan_bounds(s, lo, hi);
    lemma_normalized(s, ps, hi);
    assert(parser::open_link(s, lo, hi) is None);
    assert(so_far(s, lo, hi, hi) == c);
    lemma_mirrors(s, lo, hi, hi);
    lemma_scan_bounds(c, 0, n);
    let at = parser::prose_start(c, 0, n);
    lemma_normalized_plain(c, at, n);
    assert(parser::content_text(c, 0, n) =~= c);
    lemma_content_trimmed(s, lo, hi);
}

/// A link with an escaped target stays open until its closing delimiter and gives rise to no errors
/// before it.
proof fn lemma_escaped_inside(s: Seq<char>, n: int, target: Seq<char>, k: int)
    requires
        0 <= n,
        0 <= k <= wiki::escaped(target).len(),
        n + 1 + wiki::escaped(target).len() <= s.len(),
        s[n] == '[',
        parser::open_link(s, 0, n + 1) == Some(n),
        clean(s, 0, n + 1),
        forall|j: int|
            n + 1 <= j < n + 1 + wiki::escaped(target).len() ==> #[trigger] s[j] == wiki::escaped(
                target,
            )[j - n - 1],
        forall|i: int| 0 <= i < target.len() ==> #[trigger] target[i] != '\n',
    ensures
        parser::open_link(s, 0, n + 1 + k) == Some(n),
        clean(s, 0, n + 1 + k),
        parser::links_before(s, 0, n + 1 + k) == parser::links_before(s, 0, n + 1),
    decreases k,
{
    if k > 0 {
        let x = wiki::escaped(target);
        let i = n + k;
        lemma_escaped_inside(s, n, target, k - 1);
        wiki::lemma_escaped_chars(target);
        assert(s[i] == x[k - 1]);
        if x[k - 1] == '[' || x[k - 1] == ']' {
            assert(s[i - 1] == x[k - 2]);
        }
        lemma_clean_step(s, 0, i);
    }
}

/// What the closing delimiter of a link with an escaped target gives.
proof fn lemma_escaped_close(s: Seq<char>, n: int, close: int, target: Seq<char>)
    requires
        0 <= n < close < s.len(),
        parser::open_link(s, 0, close) == Some(n),
        clean(s, 0, close),
        parser::delimiter_at(s, 0, close, ']'),
        s.subrange(n + 1, close) == wiki::escaped(target),
        text::is_trimmed(wiki::escaped(target)),
    ensures
        parser::open_link(s, 0, close + 1) is None,
        ({
            let span = error::span_of(s, n, close + 1);
            let earlier = parser::links_before(s, 0, close);
            &&& clean(s, 0, close + 1) <==> parser::link_of(target, span) is Ok
            &&& all_unplaced(parser::links_before(s, 0, close + 1)) == match parser::link_of(
                target,
                span,
            ) {
                Ok(link) => all_unplaced(earlier).push(unplaced(link)),
                Err(message) => all_unplaced(earlier),
            }
        }),
{
    let span = error::span_of(s, n, close + 1);
    lemma_clean_step(s, 0, close);
    lemma_trimmed_again(wiki::escaped(target));
    wiki::law_unescaping_undoes_escaping(target);
    assert(parser::link_at(s, n, close) == parser::link_of(target, span));
    let earlier = parser::links_before(s, 0, close);
    if let Ok(link) = parser::link_of(target, span) {
        assert(all_unplaced(earlier.push(link)) =~= all_unplaced(earlier).push(unplaced(link)));
    }
}

/// A target keeps its meaning inside a link once its delimiters are escaped: wherever the content
/// before the link has no errors and no open link and does not end with a backslash, the link has the
/// target that was escaped, and errors come only from the target itself. The target is one line that
/// has no space at its ends and does not end with a backslash.
pub proof fn law_escaped_targets_keep_their_meaning(before: Seq<char>, target: Seq<char>)
    requires
        clean(before, 0, before.len() as int),
        parser::open_link(before, 0, before.len() as int) is None,
        before.len() == 0 || before.last() != '\\',
        text::is_trimmed(target),
        forall|i: int| 0 <= i < target.len() ==> #[trigger] target[i] != '\n',
        target.len() == 0 || target.last() != '\\',
    ensures
        ({
            let s = before + "["@ + wiki::escaped(target) + "]"@;
            let end = s.len() as int;
            let span = error::span_of(s, before.len() as int, end);
            let earlier = parser::links_before(before, 0, before.len() as int);
            &&& parser::open_link(s, 0, end) is None
            &&& clean(s, 0, end) <==> parser::link_of(target, span) is Ok
            &&& all_unplaced(parser::links_before(s, 0, end)) == match parser::link_of(
                target,
                span,
            ) {
                Ok(link) => all_unplaced(earlier).push(unplaced(link)),
                Err(message) => all_unplaced(earlier),
            }
        }),
{
    reveal_strlit("[");
    reveal_strlit("]");
    let x = wiki::escaped(target);
    let s = before + "["@ + x + "]"@;
    let n = before.len() as int;
    let close = n + 1 + x.len();
    assert(s.subrange(0, n) =~= before);
    lemma_reads_prefix(before, s);
    if n > 0 {
        assert(s[n - 1] == before.last());
    }
    assert(parser::delimiter_at(s, 0, n, '['));
    lemma_clean_step(s, 0, n);
    assert(parser::open_link(s, 0, n + 1) == Some(n));
    lemma_escaped_inside(s, n, target, x.len() as int);
    wiki::lemma_escaped_chars(target);
    if x.len() > 0 {
        assert(s[close - 1] == x.last());
        assert(text::is_trimmed(x));
    } else {
        assert(s[close - 1] == '[');
    }
    assert(parser::delimiter_at(s, 0, close, ']'));
    assert(s.subrange(n + 1, close) =~= x);
    lemma_escaped_close(s, n, close, target);
    assert(parser::links_before(s, 0, n + 1) == parser::links_before(s, 0, n));
    assert(close + 1 == s.len());
}

} // verus!
