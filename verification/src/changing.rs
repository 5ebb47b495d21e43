//! What a change to a wiki does to its source: another title for a node, or another path for a file or a
//! directory. Once the ranges that a change covers have been replaced, the source reads as it did, but for
//! the change.

use vstd::prelude::*;

use crate::error;
use crate::error::ErrorView;
use crate::error::Span;
use crate::formatting;
use crate::moving;
use crate::parser;
use crate::parser::Outline;
use crate::ranges;
use crate::rereading;
use crate::scoring;
use crate::text;
use crate::validator;
use crate::wiki;
use crate::wiki::LinkView;
use crate::wiki::NodeView;

verus! {

/// What the characters between two indices become, given what each of them becomes.
pub open spec fn built(pieces: Seq<Seq<char>>, a: int, b: int) -> Seq<char>
    decreases b - a,
{
    if b <= a {
        Seq::empty()
    } else {
        built(pieces, a, b - 1) + pieces[b - 1]
    }
}

/// Where an index of the source ends up.
pub open spec fn image(pieces: Seq<Seq<char>>, i: int) -> int {
    built(pieces, 0, i).len() as int
}

proof fn lemma_built_split(pieces: Seq<Seq<char>>, a: int, m: int, b: int)
    requires
        a <= m <= b,
    ensures
        built(pieces, a, b) == built(pieces, a, m) + built(pieces, m, b),
    decreases b - m,
{
    if m == b {
        assert(built(pieces, a, b) =~= built(pieces, a, m) + built(pieces, m, b));
    } else {
        lemma_built_split(pieces, a, m, b - 1);
        assert(built(pieces, a, b) =~= built(pieces, a, m) + built(pieces, m, b));
    }
}

/// What stands between the places where two indices end up.
proof fn lemma_image(pieces: Seq<Seq<char>>, a: int, b: int)
    requires
        0 <= a <= b <= pieces.len(),
    ensures
        0 <= image(pieces, a) <= image(pieces, b) <= built(pieces, 0, pieces.len() as int).len(),
        built(pieces, 0, pieces.len() as int).subrange(image(pieces, a), image(pieces, b)) == built(
            pieces,
            a,
            b,
        ),
        image(pieces, b) - image(pieces, a) == built(pieces, a, b).len(),
{
    let n = pieces.len() as int;
    lemma_built_split(pieces, 0, a, b);
    lemma_built_split(pieces, 0, b, n);
    assert(built(pieces, 0, n).subrange(image(pieces, a), image(pieces, b)) =~= built(
        pieces,
        a,
        b,
    ));
}

/// A character that stays what it is stands where its index ends up.
proof fn lemma_kept_char(s: Seq<char>, pieces: Seq<Seq<char>>, i: int)
    requires
        0 <= i < s.len(),
        pieces.len() == s.len(),
        pieces[i] == seq![s[i]],
    ensures
        image(pieces, i) < built(pieces, 0, s.len() as int).len(),
        built(pieces, 0, s.len() as int)[image(pieces, i)] == s[i],
        image(pieces, i + 1) == image(pieces, i) + 1,
{
    lemma_image(pieces, i, i + 1);
    let t = built(pieces, 0, s.len() as int);
    assert(built(pieces, i, i) =~= Seq::<char>::empty());
    assert(built(pieces, i, i + 1) =~= seq![s[i]]);
    assert(t.subrange(image(pieces, i), image(pieces, i + 1))[0] == t[image(pieces, i)]);
}

/// Characters that stay what they are.
proof fn lemma_kept_chars(s: Seq<char>, pieces: Seq<Seq<char>>, a: int, b: int)
    requires
        0 <= a <= b <= s.len(),
        pieces.len() == s.len(),
        forall|i: int| a <= i < b ==> #[trigger] pieces[i] == seq![s[i]],
    ensures
        built(pieces, a, b) == s.subrange(a, b),
        image(pieces, b) == image(pieces, a) + (b - a),
    decreases b - a,
{
    if a < b {
        lemma_kept_chars(s, pieces, a, b - 1);
        assert(pieces[b - 1] == seq![s[b - 1]]);
        assert(built(pieces, a, b) =~= s.subrange(a, b));
    } else {
        assert(built(pieces, a, b) =~= s.subrange(a, b));
    }
    lemma_image(pieces, a, b);
}

/// Whether pieces keep the lines of a source: line feeds stay what they are and come from nowhere
/// else, lines start with the same characters as far as title markers go, and they end with a
/// carriage return where they did before.
pub open spec fn keeps_lines(s: Seq<char>, pieces: Seq<Seq<char>>) -> bool {
    &&& pieces.len() == s.len()
    &&& forall|i: int| 0 <= i < s.len() ==> #[trigger] keeps_line_feed(s, pieces, i)
    &&& forall|i: int|
        0 <= i < s.len() && (i == 0 || s[i - 1] == '\n') ==> #[trigger] keeps_line_start(
            s,
            pieces,
            i,
        )
    &&& forall|i: int|
        0 < i <= s.len() && s[i - 1] != '\n' && (i == s.len() || s[i] == '\n')
            ==> #[trigger] keeps_line_end(s, pieces, i)
}

/// Whether a character becomes a line feed if and only if it is one.
pub open spec fn keeps_line_feed(s: Seq<char>, pieces: Seq<Seq<char>>, i: int) -> bool {
    if s[i] == '\n' {
        pieces[i] == seq!['\n']
    } else {
        forall|k: int| 0 <= k < pieces[i].len() ==> #[trigger] pieces[i][k] != '\n'
    }
}

/// Whether a line starts as it did, as far as title markers go.
pub open spec fn keeps_line_start(s: Seq<char>, pieces: Seq<Seq<char>>, i: int) -> bool {
    &&& pieces[i] == seq![s[i]]
    &&& s[i] == '#' && i + 1 < s.len() ==> pieces[i + 1] == seq![s[i + 1]]
    &&& s[i] == '#' && i + 2 < text::line_end(s, i) ==> built(
        pieces,
        i + 2,
        text::line_end(s, i),
    ).len() > 0
}

/// Whether what comes before the end of a line ends with a carriage return if and only if it did.
pub open spec fn keeps_line_end(s: Seq<char>, pieces: Seq<Seq<char>>, i: int) -> bool {
    let before = built(pieces, 0, i);
    before.len() > 0 && (before.last() == '\r' <==> s[i - 1] == '\r')
}

/// Where there is no line feed between two indices, there is none between where they end up.
proof fn lemma_no_line_feed(s: Seq<char>, pieces: Seq<Seq<char>>, a: int, b: int)
    requires
        keeps_lines(s, pieces),
        0 <= a <= b <= s.len(),
        forall|i: int| a <= i < b ==> #[trigger] s[i] != '\n',
    ensures
        forall|k: int| 0 <= k < built(pieces, a, b).len() ==> #[trigger] built(pieces, a, b)[k]
            != '\n',
    decreases b - a,
{
    if a < b {
        lemma_no_line_feed(s, pieces, a, b - 1);
        let before = built(pieces, a, b - 1);
        let all = built(pieces, a, b);
        assert(s[b - 1] != '\n');
        assert(keeps_line_feed(s, pieces, b - 1));
        assert forall|k: int| 0 <= k < all.len() implies #[trigger] all[k] != '\n' by {
            if k < before.len() {
                assert(all[k] == before[k]);
            } else {
                assert(all[k] == pieces[b - 1][k - before.len()]);
            }
        }
    }
}

/// Lines end where they did.
proof fn lemma_line_end_image(s: Seq<char>, pieces: Seq<Seq<char>>, i: int)
    requires
        keeps_lines(s, pieces),
        0 <= i <= s.len(),
    ensures
        text::line_end(built(pieces, 0, s.len() as int), image(pieces, i)) == image(
            pieces,
            text::line_end(s, i),
        ),
{
    let t = built(pieces, 0, s.len() as int);
    let end = text::line_end(s, i);
    text::lemma_line_end(s, i);
    lemma_no_line_feed(s, pieces, i, end);
    lemma_image(pieces, i, end);
    let from = image(pieces, i);
    let to = image(pieces, end);
    assert forall|k: int| from <= k < to implies #[trigger] t[k] != '\n' by {
        assert(t.subrange(from, to)[k - from] == t[k]);
    }
    if end < s.len() {
        assert(keeps_line_feed(s, pieces, end));
        lemma_kept_char(s, pieces, end);
    }
    formatting::lemma_line_end_at(t, from, to);
}

/// Lines stay title lines, and no other lines become title lines.
proof fn lemma_title_line_image(s: Seq<char>, pieces: Seq<Seq<char>>, i: int)
    requires
        keeps_lines(s, pieces),
        0 <= i < s.len(),
        i == 0 || s[i - 1] == '\n',
    ensures
        parser::line_stop(built(pieces, 0, s.len() as int), image(pieces, i)) == if text::line_end(
            s,
            i,
        ) > i && s[text::line_end(s, i) - 1] == '\r' {
            image(pieces, text::line_end(s, i)) - 1
        } else {
            image(pieces, text::line_end(s, i))
        },
        parser::is_title_line(built(pieces, 0, s.len() as int), image(pieces, i))
            == parser::is_title_line(s, i),
        parser::next_line(built(pieces, 0, s.len() as int), image(pieces, i)) == image(
            pieces,
            parser::next_line(s, i),
        ),
        image(pieces, i) < built(pieces, 0, s.len() as int).len(),
{
    reveal_strlit("#");
    reveal_strlit("# ");
    let t = built(pieces, 0, s.len() as int);
    let at = image(pieces, i);
    let end = text::line_end(s, i);
    let stop = image(pieces, end);
    text::lemma_line_end(s, i);
    lemma_line_end_image(s, pieces, i);
    lemma_image(pieces, i, end);
    assert(keeps_line_start(s, pieces, i));
    lemma_kept_char(s, pieces, i);
    if end < s.len() {
        assert(keeps_line_feed(s, pieces, end));
        lemma_kept_char(s, pieces, end);
    } else {
        lemma_image(pieces, end, s.len() as int);
        assert(built(pieces, end, end).len() == 0);
    }
    if end > i {
        assert(s[end - 1] != '\n');
        assert(keeps_line_end(s, pieces, end));
        lemma_image(pieces, 0, end);
        let before = built(pieces, 0, end);
        assert(t.subrange(0, stop) =~= before) by {
            assert(built(pieces, 0, 0).len() == 0);
        }
        assert(t.subrange(0, stop)[stop - 1] == t[stop - 1]);
        lemma_image(pieces, i + 1, end);
        assert(stop > at);
    }
    let line = s.subrange(i, parser::line_stop(s, i));
    let copy = t.subrange(at, parser::line_stop(t, at));
    if end > i {
        assert(t[at] == s[i]);
        if s[i] == '#' && end > i + 1 {
            lemma_kept_char(s, pieces, i + 1);
            lemma_image(pieces, i + 2, end);
            lemma_title_shape(s, i, line);
            lemma_title_shape(t, at, copy);
            assert(line.len() == 1 <==> copy.len() == 1) by {
                if end > i + 2 {
                    assert(line.len() > 1);
                    if s[end - 1] == '\r' && image(pieces, end) == at + 3 {
                        assert(image(pieces, i + 2) == at + 2);
                    }
                }
            }
        } else {
            lemma_title_shape(s, i, line);
            lemma_title_shape(t, at, copy);
        }
    } else {
        assert(line.len() == 0);
        assert(copy.len() == 0);
    }
}

/// A title line is a marker alone or a marker and a space.
proof fn lemma_title_shape(s: Seq<char>, i: int, line: Seq<char>)
    requires
        0 <= i <= i + line.len() <= s.len(),
        line == s.subrange(i, i + line.len()),
    ensures
        (line == "#"@ || text::starts_with(line, "# "@)) <==> line.len() > 0 && s[i] == '#' && (
        line.len() == 1 || s[i + 1] == ' '),
{
    reveal_strlit("#");
    reveal_strlit("# ");
    if line.len() > 0 {
        assert(line[0] == s[i]);
        if line.len() == 1 {
            if s[i] == '#' {
                assert(line =~= "#"@);
            }
        } else {
            assert(line[1] == s[i + 1]);
            assert(line.subrange(0, 2)[0] == line[0]);
            assert(line.subrange(0, 2)[1] == line[1]);
            if s[i] == '#' && s[i + 1] == ' ' {
                assert(line.subrange(0, 2) =~= "# "@);
            }
        }
    }
}

/// Title lines come one after the other as they did.
proof fn lemma_next_title_image(s: Seq<char>, pieces: Seq<Seq<char>>, i: int)
    requires
        keeps_lines(s, pieces),
        0 <= i <= s.len(),
        i == 0 || i == s.len() || s[i - 1] == '\n',
    ensures
        parser::next_title_line(built(pieces, 0, s.len() as int), image(pieces, i)) == image(
            pieces,
            parser::next_title_line(s, i),
        ),
    decreases s.len() - i,
{
    if i < s.len() {
        lemma_title_line_image(s, pieces, i);
        if !parser::is_title_line(s, i) {
            text::lemma_line_end(s, i);
            lemma_next_title_image(s, pieces, parser::next_line(s, i));
        }
    }
}

/// Whether a text can be the new title of a node in links: a title that does not end with a
/// backslash, which would escape the closing delimiter.
pub open spec fn is_linkable(title: Seq<char>) -> bool {
    formatting::is_title(title) && title.last() != '\\'
}

/// Whether a link is a text link that names a title.
pub open spec fn names_title(link: LinkView, title: Seq<char>) -> bool {
    match link {
        LinkView::Text { title: named, span } => named == title,
        LinkView::File { path, span } => false,
        LinkView::Directory { path, span } => false,
    }
}

/// A change to a wiki: another title for a node, or another path for a file or a directory.
pub enum Change {
    Title { old: Seq<char>, new: Seq<char> },
    Path { old: Seq<char>, new: Seq<char> },
}

impl Change {
    /// Whether what the change puts in place of what was there can stand in a source.
    pub open spec fn is_sound(self) -> bool {
        match self {
            Change::Title { old, new } => old.len() > 0 && is_linkable(new),
            Change::Path { old, new } => moving::is_new_path(old, new),
        }
    }

    /// Whether a link leads to what the change is about.
    pub open spec fn affects(self, link: LinkView) -> bool {
        match self {
            Change::Title { old, new } => names_title(link, old),
            Change::Path { old, new } => moving::leads_inside(link, old),
        }
    }

    /// What stands between the delimiters of a link after the change.
    pub open spec fn written(self, s: Seq<char>, a: int, b: int) -> Seq<char> {
        match self {
            Change::Title { old, new } => wiki::escaped(new),
            Change::Path { old, new } => moving::moved_text(
                parser::link_text(s, a, b),
                parser::link_at(s, a, b)->Ok_0,
                old,
                new,
            ),
        }
    }

    /// A link after the change.
    pub open spec fn relinked(self, link: LinkView) -> LinkView {
        match self {
            Change::Title { old, new } => match link {
                LinkView::Text { title, span } => if title == old {
                    LinkView::Text { title: new, span }
                } else {
                    link
                },
                LinkView::File { path, span } => link,
                LinkView::Directory { path, span } => link,
            },
            Change::Path { old, new } => moving::moved_link(link, old, new),
        }
    }

    /// Whether the change is about the node with a title.
    pub open spec fn retitles(self, found: Seq<char>) -> bool {
        match self {
            Change::Title { old, new } => found == old,
            Change::Path { old, new } => false,
        }
    }

    /// The title of a node that the change is about, after the change.
    pub open spec fn new_title(self, found: Seq<char>) -> Seq<char> {
        match self {
            Change::Title { old, new } => new,
            Change::Path { old, new } => found,
        }
    }

    /// The title that a node has after the change.
    pub open spec fn retitled(self, found: Seq<char>) -> Seq<char> {
        if self.retitles(found) {
            self.new_title(found)
        } else {
            found
        }
    }

    /// Whether the change gives no node the title of another.
    pub open spec fn keeps_apart(self, nodes: Seq<NodeView>) -> bool {
        match self {
            Change::Title { old, new } => old == new || !wiki::has_title(nodes, new),
            Change::Path { old, new } => true,
        }
    }

    /// Where a link stands has no part in what becomes of it.
    proof fn lemma_relinked_anywhere(self, link: LinkView)
        ensures
            rereading::unplaced(self.relinked(link)) == self.relinked(rereading::unplaced(link)),
    {
    }
}


/// Whether a link of the content reaches from one index to another.
pub open spec fn is_content_link(s: Seq<char>, lo: int, hi: int, a: int, b: int) -> bool {
    &&& lo <= a < b < hi
    &&& parser::open_link(s, lo, b) == Some(a)
    &&& parser::delimiter_at(s, lo, b, ']')
}

/// Whether a link of the content that a change affects reaches from one index to another.
pub open spec fn is_changed_link(
    s: Seq<char>,
    lo: int,
    hi: int,
    a: int,
    b: int,
    change: Change,
) -> bool {
    &&& is_content_link(s, lo, hi, a, b)
    &&& parser::link_at(s, a, b) is Ok
    &&& change.affects(parser::link_at(s, a, b)->Ok_0)
}

/// Whether an index lies between the delimiters of a link that a change affects.
pub open spec fn is_inside(s: Seq<char>, lo: int, hi: int, change: Change, i: int) -> bool {
    exists|a: int, b: int| #[trigger] is_changed_link(s, lo, hi, a, b, change) && a < i < b
}

/// Whether a link that a change affects starts at an index.
pub open spec fn starts_changed_link(s: Seq<char>, lo: int, hi: int, change: Change, a: int) -> bool {
    exists|b: int| #[trigger] is_changed_link(s, lo, hi, a, b, change)
}

/// Whether what stands between two delimiters becomes what a change writes there.
pub open spec fn takes_text(
    s: Seq<char>,
    pieces: Seq<Seq<char>>,
    a: int,
    b: int,
    change: Change,
) -> bool {
    &&& pieces[a + 1] == change.written(s, a, b)
    &&& forall|i: int| a + 1 < i < b ==> (#[trigger] pieces[i]).len() == 0
}

/// Whether a character of the content stays what it is unless it lies between the delimiters of a
/// link that a change affects.
pub open spec fn stays_outside(
    s: Seq<char>,
    lo: int,
    hi: int,
    pieces: Seq<Seq<char>>,
    change: Change,
    i: int,
) -> bool {
    lo <= i < hi && !is_inside(s, lo, hi, change, i) ==> pieces[i] == seq![s[i]]
}

/// Whether what stands between the delimiters of the links that a change affects becomes what it writes
/// there, and everything else in the content stays what it is.
pub open spec fn retargets(
    s: Seq<char>,
    lo: int,
    hi: int,
    pieces: Seq<Seq<char>>,
    change: Change,
) -> bool {
    &&& forall|a: int, b: int| #[trigger]
        is_changed_link(s, lo, hi, a, b, change) ==> takes_text(s, pieces, a, b, change)
    &&& forall|i: int| #[trigger] stays_outside(s, lo, hi, pieces, change, i)
}

/// Links after a change, without their places in the source.
pub open spec fn all_relinked(links: Seq<LinkView>, change: Change) -> Seq<LinkView> {
    links.map_values(|link: LinkView| change.relinked(rereading::unplaced(link)))
}

/// Inside a link, the link is open.
proof fn lemma_open_inside(s: Seq<char>, lo: int, a: int, b: int, i: int)
    requires
        0 <= lo <= a < i <= b,
        parser::open_link(s, lo, b) == Some(a),
    ensures
        parser::open_link(s, lo, i) == Some(a),
    decreases b - i,
{
    if i < b {
        lemma_open_inside(s, lo, a, b, i + 1);
    }
}

/// Outside links nothing is inside a link, and inside a link nothing is inside another.
proof fn lemma_inside_open(s: Seq<char>, lo: int, hi: int, change: Change, i: int)
    requires
        0 <= lo <= i < hi,
        is_inside(s, lo, hi, change, i),
    ensures
        parser::open_link(s, lo, i) is Some,
        starts_changed_link(s, lo, hi, change, parser::open_link(s, lo, i)->0),
        !parser::delimiter_at(s, lo, i, ']'),
{
    let (a, b) = choose|a: int, b: int| #[trigger]
        is_changed_link(s, lo, hi, a, b, change) && a < i < b;
    lemma_open_inside(s, lo, a, b, i);
    lemma_open_inside(s, lo, a, b, i + 1);
}

/// A link has only one end.
proof fn lemma_one_end(s: Seq<char>, lo: int, hi: int, a: int, b: int, c: int)
    requires
        0 <= lo,
        is_content_link(s, lo, hi, a, b),
        is_content_link(s, lo, hi, a, c),
    ensures
        b == c,
{
    if b < c {
        lemma_open_inside(s, lo, a, c, b + 1);
    } else if c < b {
        lemma_open_inside(s, lo, a, b, c + 1);
    }
}

/// Whether a text has no line feeds.
pub open spec fn has_no_line_feed(x: Seq<char>) -> bool {
    forall|k: int| 0 <= k < x.len() ==> #[trigger] x[k] != '\n'
}

/// An open link without errors has neither line feeds nor other delimiters so far.
proof fn lemma_open_ok(s: Seq<char>, lo: int, i: int)
    requires
        0 <= lo <= i <= s.len(),
        rereading::clean(s, lo, i),
    ensures
        match parser::open_link(s, lo, i) {
            Some(a) => lo <= a < i && s[a] == '[' && rereading::inside_ok(s, lo, a, i),
            None => true,
        },
    decreases i - lo,
{
    if i > lo {
        let j = i - 1;
        rereading::lemma_clean_step(s, lo, j);
        lemma_open_ok(s, lo, j);
        if let Some(a) = parser::open_link(s, lo, j) {
            lemma_no_break_inside(s, lo, a, j);
        }
    }
}

/// Between the delimiters of a link there are neither line feeds nor other delimiters.
pub proof fn lemma_inside_ok(s: Seq<char>, lo: int, hi: int, a: int, b: int)
    requires
        0 <= lo <= hi <= s.len(),
        rereading::clean(s, lo, hi),
        is_content_link(s, lo, hi, a, b),
    ensures
        s[a] == '[',
        s[b] == ']',
        rereading::inside_ok(s, lo, a, b),
{
    lemma_clean_before(s, lo, b, hi);
    lemma_open_ok(s, lo, b);
}

/// Whether what a change writes in a link stays inside it and stands for the link after the change.
pub open spec fn writes_well(s: Seq<char>, a: int, b: int, change: Change) -> bool {
    let x = change.written(s, a, b);
    let span = error::span_of(s, a, b + 1);
    &&& a + 1 < b
    &&& moving::fits_in_link(x)
    &&& parser::link_of(wiki::unescaped(text::trimmed(x)), span) == Ok::<LinkView, Seq<char>>(
        change.relinked(parser::link_at(s, a, b)->Ok_0),
    )
}

/// What a sound change writes in a link stays inside it and stands for the link after the change.
proof fn lemma_writes_well(s: Seq<char>, lo: int, hi: int, a: int, b: int, change: Change)
    requires
        0 <= lo <= hi <= s.len(),
        rereading::clean(s, lo, hi),
        is_changed_link(s, lo, hi, a, b, change),
        change.is_sound(),
    ensures
        writes_well(s, a, b, change),
{
    lemma_inside_ok(s, lo, hi, a, b);
    if b == a + 1 {
        let raw = s.subrange(a + 1, b);
        assert(raw =~= Seq::<char>::empty());
        assert(text::trimmed(raw) =~= Seq::<char>::empty());
        assert(wiki::unescaped(Seq::<char>::empty()) =~= Seq::<char>::empty());
    }
    match change {
        Change::Title { old, new } => {
            let x = wiki::escaped(new);
            wiki::lemma_escaped_chars(new);
            wiki::law_unescaping_undoes_escaping(new);
            rereading::lemma_trimmed_again(x);
        },
        Change::Path { old, new } => {
            moving::lemma_moved_text(s, a, b, old, new);
        },
    }
}


/// The end of a link that starts at an index and that a change affects.
pub open spec fn changed_end(s: Seq<char>, lo: int, hi: int, a: int, change: Change) -> int {
    choose|b: int| #[trigger] is_changed_link(s, lo, hi, a, b, change)
}

/// What a change writes in the link that starts at an index.
pub open spec fn written_from(s: Seq<char>, lo: int, hi: int, a: int, change: Change) -> Seq<char> {
    change.written(s, a, changed_end(s, lo, hi, a, change))
}

/// What has been written of an open link after its opening delimiter.
pub open spec fn middle(
    s: Seq<char>,
    lo: int,
    hi: int,
    a: int,
    i: int,
    change: Change,
) -> Seq<char> {
    if starts_changed_link(s, lo, hi, change, a) {
        if i == a + 1 {
            Seq::empty()
        } else {
            written_from(s, lo, hi, a, change)
        }
    } else {
        s.subrange(a + 1, i)
    }
}

/// Whether what the content before an index becomes reads as the content does after a change.
pub open spec fn reads_changed(
    s: Seq<char>,
    lo: int,
    i: int,
    hi: int,
    pieces: Seq<Seq<char>>,
    change: Change,
) -> bool {
    let w = built(pieces, lo, i);
    let n = w.len() as int;
    &&& rereading::clean(w, 0, n)
    &&& rereading::all_unplaced(parser::links_before(w, 0, n)) == all_relinked(
        parser::links_before(s, lo, i),
        change,
    )
    &&& match parser::open_link(s, lo, i) {
        None => {
            &&& parser::open_link(w, 0, n) is None
            &&& i == lo ==> n == 0
            &&& i > lo ==> n > 0 && w.last() == s[i - 1]
        },
        Some(a) => {
            let o = built(pieces, lo, a + 1);
            &&& o.len() > 0
            &&& o.last() == '['
            &&& parser::open_link(w, 0, n) == Some(o.len() - 1)
            &&& rereading::inside_ok(s, lo, a, i)
            &&& w == o + middle(s, lo, hi, a, i, change)
        },
    }
}

/// What stands inside a link keeps it open.
proof fn lemma_stays_open(o: Seq<char>, x: Seq<char>)
    requires
        o.len() > 0,
        rereading::clean(o, 0, o.len() as int),
        parser::open_link(o, 0, o.len() as int) == Some(o.len() - 1),
        forall|m: int|
            0 <= m < x.len() ==> (#[trigger] x[m]) != '\n' && !parser::delimiter_at(
                o + x,
                0,
                o.len() + m,
                '[',
            ) && !parser::delimiter_at(o + x, 0, o.len() + m, ']'),
    ensures
        rereading::clean(o + x, 0, (o + x).len() as int),
        parser::open_link(o + x, 0, (o + x).len() as int) == Some(o.len() - 1),
        rereading::all_unplaced(parser::links_before(o + x, 0, (o + x).len() as int))
            == rereading::all_unplaced(parser::links_before(o, 0, o.len() as int)),
    decreases x.len(),
{
    if x.len() == 0 {
        assert(o + x =~= o);
    } else {
        let front = x.drop_last();
        let t = o + x;
        let shorter = o + front;
        let n = shorter.len() as int;
        assert(t =~= shorter.push(x.last()));
        assert(t.subrange(0, n) =~= shorter);
        assert forall|m: int| 0 <= m < front.len() implies (#[trigger] front[m]) != '\n'
            && !parser::delimiter_at(shorter, 0, o.len() + m, '[') && !parser::delimiter_at(
            shorter,
            0,
            o.len() + m,
            ']',
        ) by {
            assert(front[m] == x[m]);
            assert(shorter[o.len() + m] == t[o.len() + m]);
            assert(shorter[o.len() + m - 1] == t[o.len() + m - 1]);
        }
        lemma_stays_open(o, front);
        rereading::lemma_reads_prefix(shorter, t);
        rereading::lemma_clean_step(t, 0, n);
        assert(x[x.len() - 1] == t[n]);
        assert(parser::errors_at(None, t, 0, n).len() == 0);
    }
}

/// A closing delimiter ends a link.
proof fn lemma_closes(o: Seq<char>, x: Seq<char>, link: LinkView, span: Span)
    requires
        o.len() > 0,
        o.last() == '[',
        rereading::clean(o + x, 0, (o + x).len() as int),
        parser::open_link(o + x, 0, (o + x).len() as int) == Some(o.len() - 1),
        x.len() == 0 || x.last() != '\\',
        parser::link_of(wiki::unescaped(text::trimmed(x)), span) == Ok::<LinkView, Seq<char>>(link),
    ensures
        ({
            let t = (o + x).push(']');
            let n = t.len() as int;
            &&& rereading::clean(t, 0, n)
            &&& parser::open_link(t, 0, n) is None
            &&& rereading::all_unplaced(parser::links_before(t, 0, n)) == rereading::all_unplaced(
                parser::links_before(o + x, 0, (o + x).len() as int),
            ).push(rereading::unplaced(link))
        }),
{
    let inner = o + x;
    let t = inner.push(']');
    let n = inner.len() as int;
    let p = o.len() - 1;
    assert(t.subrange(0, n) =~= inner);
    rereading::lemma_reads_prefix(inner, t);
    rereading::lemma_clean_step(t, 0, n);
    if x.len() > 0 {
        assert(t[n - 1] == x.last());
    } else {
        assert(t[n - 1] == o.last());
    }
    assert(parser::delimiter_at(t, 0, n, ']'));
    assert(t.subrange(p + 1, n) =~= x);
    let place = error::span_of(t, p, n + 1);
    rereading::lemma_link_of_unplaced(wiki::unescaped(text::trimmed(x)), span, place);
    let twin = parser::link_at(t, p, n)->Ok_0;
    assert(parser::link_at(t, p, n) == Ok::<LinkView, Seq<char>>(twin));
    assert(parser::errors_at(None, t, 0, n).len() == 0);
    let found = parser::links_before(t, 0, n);
    assert(rereading::all_unplaced(found.push(twin)) =~= rereading::all_unplaced(found).push(
        rereading::unplaced(twin),
    ));
}

/// What one character of the content becomes.
pub open spec fn piece_of(
    s: Seq<char>,
    lo: int,
    hi: int,
    j: int,
    change: Change,
) -> Seq<char> {
    match parser::open_link(s, lo, j) {
        Some(a) => if parser::delimiter_at(s, lo, j, ']') || !starts_changed_link(
            s,
            lo,
            hi,
            change,
            a,
        ) {
            seq![s[j]]
        } else if j == a + 1 {
            written_from(s, lo, hi, a, change)
        } else {
            Seq::empty()
        },
        None => seq![s[j]],
    }
}

proof fn lemma_piece(
    s: Seq<char>,
    lo: int,
    hi: int,
    pieces: Seq<Seq<char>>,
    j: int,
    change: Change,
)
    requires
        0 <= lo <= j < hi <= s.len(),
        retargets(s, lo, hi, pieces, change),
    ensures
        pieces[j] == piece_of(s, lo, hi, j, change),
{
    rereading::lemma_scan_bounds(s, lo, j);
    if is_inside(s, lo, hi, change, j) {
        lemma_inside_open(s, lo, hi, change, j);
        let (a, b) = choose|a: int, b: int| #[trigger]
            is_changed_link(s, lo, hi, a, b, change) && a < j < b;
        lemma_open_inside(s, lo, a, b, j);
        let c = changed_end(s, lo, hi, a, change);
        assert(is_changed_link(s, lo, hi, a, c, change));
        lemma_one_end(s, lo, hi, a, b, c);
        if j > a + 1 {
            assert(pieces[j].len() == 0);
            assert(pieces[j] =~= Seq::<char>::empty());
        }
    } else {
        assert(stays_outside(s, lo, hi, pieces, change, j));
        if let Some(a) = parser::open_link(s, lo, j) {
            if starts_changed_link(s, lo, hi, change, a) && !parser::delimiter_at(s, lo, j, ']') {
                let b = choose|b: int| #[trigger] is_changed_link(s, lo, hi, a, b, change);
                if b < j {
                    lemma_open_inside(s, lo, a, j, b + 1);
                }
                assert(is_changed_link(s, lo, hi, a, b, change) && a < j < b);
            }
        }
    }
}

proof fn lemma_changed_outside(
    s: Seq<char>,
    lo: int,
    j: int,
    hi: int,
    pieces: Seq<Seq<char>>,
    change: Change,
)
    requires
        0 <= lo <= j < hi <= s.len(),
        pieces[j] == seq![s[j]],
        reads_changed(s, lo, j, hi, pieces, change),
        parser::open_link(s, lo, j) is None,
        parser::errors_at(None, s, lo, j).len() == 0,
    ensures
        reads_changed(s, lo, j + 1, hi, pieces, change),
{
    let w = built(pieces, lo, j);
    let t = built(pieces, lo, j + 1);
    let n = w.len() as int;
    assert(t =~= w.push(s[j]));
    assert(t.subrange(0, n) =~= w);
    rereading::lemma_reads_prefix(w, t);
    rereading::lemma_clean_step(t, 0, n);
    if n > 0 {
        assert(t[n - 1] == w.last());
    }
    assert(parser::delimiter_at(t, 0, n, '[') == parser::delimiter_at(s, lo, j, '['));
    assert(parser::delimiter_at(t, 0, n, ']') == parser::delimiter_at(s, lo, j, ']'));
    assert(parser::errors_at(None, t, 0, n).len() == 0);
    if parser::delimiter_at(s, lo, j, '[') {
        assert(t =~= t + middle(s, lo, hi, j, j + 1, change));
    }
}

/// Inside a link that a change affects, what it writes stands in place of all that was there.
proof fn lemma_changed_inside_affected(
    s: Seq<char>,
    lo: int,
    a: int,
    j: int,
    hi: int,
    pieces: Seq<Seq<char>>,
    change: Change,
)
    requires
        0 <= lo <= a < j < hi <= s.len(),
        reads_changed(s, lo, j, hi, pieces, change),
        parser::open_link(s, lo, j) == Some(a),
        parser::open_link(s, lo, j + 1) == Some(a),
        parser::links_before(s, lo, j + 1) == parser::links_before(s, lo, j),
        rereading::inside_ok(s, lo, a, j + 1),
        starts_changed_link(s, lo, hi, change, a),
        pieces[j] == if j == a + 1 {
            written_from(s, lo, hi, a, change)
        } else {
            Seq::<char>::empty()
        },
        change.is_sound(),
        rereading::clean(s, lo, hi),
    ensures
        reads_changed(s, lo, j + 1, hi, pieces, change),
{
    let o = built(pieces, lo, a + 1);
    let w = built(pieces, lo, j);
    let t = built(pieces, lo, j + 1);
    assert(t == w + pieces[j]);
    if j == a + 1 {
        assert(o + Seq::<char>::empty() =~= o);
        assert(w =~= o);
        let b = changed_end(s, lo, hi, a, change);
        assert(is_changed_link(s, lo, hi, a, b, change));
        lemma_writes_well(s, lo, hi, a, b, change);
        let x = change.written(s, a, b);
        assert forall|m: int| 0 <= m < x.len() implies (#[trigger] x[m]) != '\n'
            && !parser::delimiter_at(o + x, 0, o.len() + m, '[') && !parser::delimiter_at(
            o + x,
            0,
            o.len() + m,
            ']',
        ) by {
            assert((o + x)[o.len() + m] == x[m]);
            if x[m] == '[' || x[m] == ']' {
                assert((o + x)[o.len() + m - 1] == x[m - 1]);
            }
        }
        lemma_stays_open(o, x);
        assert(t == o + x);
    } else {
        assert(t =~= w);
    }
}

/// Inside another link, everything stays what it is.
proof fn lemma_changed_inside_other(
    s: Seq<char>,
    lo: int,
    a: int,
    j: int,
    hi: int,
    pieces: Seq<Seq<char>>,
    change: Change,
)
    requires
        0 <= lo <= a < j < hi <= s.len(),
        reads_changed(s, lo, j, hi, pieces, change),
        s[a] == '[',
        parser::open_link(s, lo, j) == Some(a),
        parser::open_link(s, lo, j + 1) == Some(a),
        parser::links_before(s, lo, j + 1) == parser::links_before(s, lo, j),
        rereading::inside_ok(s, lo, a, j + 1),
        !starts_changed_link(s, lo, hi, change, a),
        pieces[j] == seq![s[j]],
    ensures
        reads_changed(s, lo, j + 1, hi, pieces, change),
{
    let o = built(pieces, lo, a + 1);
    let w = built(pieces, lo, j);
    let t = built(pieces, lo, j + 1);
    let n = w.len() as int;
    assert(t =~= w.push(s[j]));
    assert(t.subrange(0, n) =~= w);
    rereading::lemma_reads_prefix(w, t);
    rereading::lemma_clean_step(t, 0, n);
    assert(t[n - 1] == s[j - 1]) by {
        assert(t[n - 1] == w.last());
        if j == a + 1 {
            assert(w =~= o);
        } else {
            assert(w.last() == s.subrange(a + 1, j).last());
        }
    }
    assert(s[j] != '\n');
    assert(!parser::delimiter_at(t, 0, n, '['));
    assert(!parser::delimiter_at(t, 0, n, ']'));
    assert(parser::errors_at(None, t, 0, n).len() == 0);
    assert(t =~= o + s.subrange(a + 1, j + 1));
}

/// A link without errors has no line feeds.
proof fn lemma_no_break_inside(s: Seq<char>, lo: int, a: int, j: int)
    requires
        0 <= lo <= a < j < s.len(),
        s[a] == '[',
        parser::open_link(s, lo, j) == Some(a),
        rereading::inside_ok(s, lo, a, j),
        parser::errors_at(None, s, lo, j).len() == 0,
    ensures
        s[j] != '\n',
        !parser::delimiter_at(s, lo, j, '['),
        !parser::delimiter_at(s, lo, j, ']') ==> rereading::inside_ok(s, lo, a, j + 1),
{
    if parser::has_line_break(s, a, j) {
        let k = choose|k: int| a <= k < j && #[trigger] s[k] == '\n';
        assert(k != a);
        assert(s[k] != '\n');
    }
}

/// The end of a link that a change affects.
proof fn lemma_changed_close_affected(
    s: Seq<char>,
    lo: int,
    a: int,
    j: int,
    hi: int,
    o: Seq<char>,
    change: Change,
)
    requires
        0 <= lo <= a < j < hi <= s.len(),
        o.len() > 0,
        o.last() == '[',
        is_content_link(s, lo, hi, a, j),
        starts_changed_link(s, lo, hi, change, a),
        ({
            let w = o + middle(s, lo, hi, a, j, change);
            &&& rereading::clean(w, 0, w.len() as int)
            &&& parser::open_link(w, 0, w.len() as int) == Some(o.len() - 1)
        }),
        change.is_sound(),
        rereading::clean(s, lo, hi),
    ensures
        parser::link_at(s, a, j) is Ok,
        ({
            let w = o + middle(s, lo, hi, a, j, change);
            let t = w.push(']');
            let n = t.len() as int;
            &&& rereading::clean(t, 0, n)
            &&& parser::open_link(t, 0, n) is None
            &&& rereading::all_unplaced(parser::links_before(t, 0, n)) == rereading::all_unplaced(
                parser::links_before(w, 0, w.len() as int),
            ).push(
                change.relinked(rereading::unplaced(parser::link_at(s, a, j)->Ok_0)),
            )
        }),
{
    let x = middle(s, lo, hi, a, j, change);
    let span = error::span_of(s, a, j + 1);
    let b = changed_end(s, lo, hi, a, change);
    assert(is_changed_link(s, lo, hi, a, b, change));
    lemma_one_end(s, lo, hi, a, b, j);
    lemma_writes_well(s, lo, hi, a, j, change);
    let link = parser::link_at(s, a, j)->Ok_0;
    change.lemma_relinked_anywhere(link);
    lemma_closes(o, x, change.relinked(link), span);
}

/// The end of another link.
proof fn lemma_changed_close_other(
    s: Seq<char>,
    lo: int,
    a: int,
    j: int,
    hi: int,
    o: Seq<char>,
    change: Change,
)
    requires
        0 <= lo <= a < j < hi <= s.len(),
        o.len() > 0,
        o.last() == '[',
        is_content_link(s, lo, hi, a, j),
        !starts_changed_link(s, lo, hi, change, a),
        parser::link_at(s, a, j) is Ok,
        ({
            let w = o + middle(s, lo, hi, a, j, change);
            &&& rereading::clean(w, 0, w.len() as int)
            &&& parser::open_link(w, 0, w.len() as int) == Some(o.len() - 1)
        }),
    ensures
        ({
            let w = o + middle(s, lo, hi, a, j, change);
            let t = w.push(']');
            let n = t.len() as int;
            &&& rereading::clean(t, 0, n)
            &&& parser::open_link(t, 0, n) is None
            &&& rereading::all_unplaced(parser::links_before(t, 0, n)) == rereading::all_unplaced(
                parser::links_before(w, 0, w.len() as int),
            ).push(
                change.relinked(rereading::unplaced(parser::link_at(s, a, j)->Ok_0)),
            )
        }),
{
    let x = middle(s, lo, hi, a, j, change);
    let span = error::span_of(s, a, j + 1);
    let link = parser::link_at(s, a, j)->Ok_0;
    assert(!change.affects(link)) by {
        if change.affects(link) {
            assert(is_changed_link(s, lo, hi, a, j, change));
        }
    }
    change.lemma_relinked_anywhere(link);
    if x.len() > 0 {
        assert(x.last() == s[j - 1]);
    }
    lemma_closes(o, x, link, span);
}

proof fn lemma_changed_close(
    s: Seq<char>,
    lo: int,
    a: int,
    j: int,
    hi: int,
    pieces: Seq<Seq<char>>,
    change: Change,
)
    requires
        0 <= lo <= a < j < hi <= s.len(),
        reads_changed(s, lo, j, hi, pieces, change),
        parser::open_link(s, lo, j) == Some(a),
        s[j] != '\n',
        parser::errors_at(None, s, lo, j).len() == 0,
        parser::delimiter_at(s, lo, j, ']'),
        pieces[j] == seq![s[j]],
        change.is_sound(),
        rereading::clean(s, lo, hi),
    ensures
        reads_changed(s, lo, j + 1, hi, pieces, change),
{
    assert(is_content_link(s, lo, hi, a, j));
    let o = built(pieces, lo, a + 1);
    let w = built(pieces, lo, j);
    let t = built(pieces, lo, j + 1);
    assert(t =~= w.push(']'));
    let old_links = parser::links_before(s, lo, j);
    if starts_changed_link(s, lo, hi, change, a) {
        lemma_changed_close_affected(s, lo, a, j, hi, o, change);
    } else {
        lemma_changed_close_other(s, lo, a, j, hi, o, change);
    }
    let link = parser::link_at(s, a, j)->Ok_0;
    assert(parser::links_before(s, lo, j + 1) == old_links.push(link));
    assert(all_relinked(old_links.push(link), change) =~= all_relinked(
        old_links,
        change,
    ).push(change.relinked(rereading::unplaced(link))));
}

/// Content whose links follow a change reads as it did after that change.
proof fn lemma_changed_content(
    s: Seq<char>,
    lo: int,
    i: int,
    hi: int,
    pieces: Seq<Seq<char>>,
    change: Change,
)
    requires
        0 <= lo <= i <= hi <= s.len(),
        pieces.len() == s.len(),
        retargets(s, lo, hi, pieces, change),
        rereading::clean(s, lo, hi),
        change.is_sound(),
    ensures
        reads_changed(s, lo, i, hi, pieces, change),
    decreases i - lo,
{
    if i == lo {
        let w = built(pieces, lo, i);
        assert(rereading::all_unplaced(parser::links_before(w, 0, 0)) =~= all_relinked(
            parser::links_before(s, lo, lo),
            change,
        ));
    } else {
        let j = i - 1;
        lemma_clean_before(s, lo, i, hi);
        rereading::lemma_clean_step(s, lo, j);
        lemma_changed_content(s, lo, j, hi, pieces, change);
        lemma_piece(s, lo, hi, pieces, j, change);
        rereading::lemma_scan_bounds(s, lo, j);
        match parser::open_link(s, lo, j) {
            None => {
                lemma_changed_outside(s, lo, j, hi, pieces, change);
            },
            Some(a) => {
                lemma_no_break_inside(s, lo, a, j);
                if parser::delimiter_at(s, lo, j, ']') {
                    lemma_changed_close(s, lo, a, j, hi, pieces, change);
                } else if starts_changed_link(s, lo, hi, change, a) {
                    lemma_changed_inside_affected(s, lo, a, j, hi, pieces, change);
                } else {
                    lemma_changed_inside_other(s, lo, a, j, hi, pieces, change);
                }
            },
        }
    }
}

/// Where the section that starts at an index ends.
pub open spec fn section_end(s: Seq<char>, lo: int) -> int {
    parser::next_title_line(s, parser::next_line(s, lo))
}

/// The parts of a section without errors.
pub proof fn lemma_section_parts(path: Option<Seq<char>>, s: Seq<char>, lo: int)
    requires
        formatting::is_clean_section(path, s, lo),
    ensures
        ({
            let ts = parser::title_start(s, lo);
            let te = parser::title_end(s, lo);
            let stop = parser::line_stop(s, lo);
            let end = text::line_end(s, lo);
            let first = parser::next_line(s, lo);
            let cs = parser::content_start(s, lo);
            let ce = parser::content_end(s, lo);
            let next = section_end(s, lo);
            &&& lo + 2 <= ts < te <= stop <= end <= first <= cs <= ce <= next <= s.len()
            &&& s[lo] == '#'
            &&& s[lo + 1] == ' '
            &&& !text::white_space(s[ts])
            &&& !text::white_space(s[te - 1])
            &&& forall|i: int| lo + 2 <= i < ts ==> text::white_space(#[trigger] s[i])
            &&& forall|i: int| te <= i < stop ==> text::white_space(#[trigger] s[i])
            &&& forall|i: int| lo <= i < end ==> #[trigger] s[i] != '\n'
            &&& forall|i: int| first <= i < cs ==> text::white_space(#[trigger] s[i])
            &&& forall|i: int| ce <= i < next ==> text::white_space(#[trigger] s[i])
            &&& cs < ce ==> !text::white_space(s[cs]) && !text::white_space(s[ce - 1])
            &&& cs == ce ==> cs == next
            &&& end < s.len() ==> s[end] == '\n' && first == end + 1
            &&& end == s.len() ==> first == end
            &&& next < s.len() ==> formatting::is_section(s, next)
        }),
{
    reveal_strlit("#");
    reveal_strlit("# ");
    formatting::lemma_section(path, s, lo);
    text::lemma_line_end(s, lo);
    let stop = parser::line_stop(s, lo);
    let line = s.subrange(lo, stop);
    lemma_title_shape(s, lo, line);
    parser::lemma_title_bounds(s, lo);
    let raw = parser::raw_title_start(s, lo);
    let ts = parser::title_start(s, lo);
    text::lemma_trim_start_index(s, raw, stop);
    text::lemma_trim_end_index(s, ts, stop);
    let title = parser::title_of(s, lo);
    assert(title.len() > 0);
    let first = parser::next_line(s, lo);
    formatting::lemma_next_section(s, first);
    let next = section_end(s, lo);
    text::lemma_trim_start_index(s, first, next);
    let cs = parser::content_start(s, lo);
    text::lemma_trim_end_index(s, cs, next);
}

/// Whether pieces give a section the title that it has after a change, and retarget its links.
pub open spec fn changes_section(
    s: Seq<char>,
    pieces: Seq<Seq<char>>,
    lo: int,
    change: Change,
) -> bool {
    let ts = parser::title_start(s, lo);
    let te = parser::title_end(s, lo);
    let cs = parser::content_start(s, lo);
    let ce = parser::content_end(s, lo);
    let next = section_end(s, lo);
    &&& forall|i: int|
        (lo <= i < ts || te <= i < cs || ce <= i < next) ==> #[trigger] pieces[i] == seq![s[i]]
    &&& if change.retitles(parser::title_of(s, lo)) {
        &&& pieces[ts] == change.new_title(parser::title_of(s, lo))
        &&& forall|i: int| ts < i < te ==> (#[trigger] pieces[i]).len() == 0
    } else {
        forall|i: int| ts <= i < te ==> #[trigger] pieces[i] == seq![s[i]]
    }
    &&& retargets(s, cs, ce, pieces, change)
}

/// Between the delimiters of a link there are no line feeds, and what stands there is replaced.
proof fn lemma_link_interior(
    s: Seq<char>,
    lo: int,
    hi: int,
    pieces: Seq<Seq<char>>,
    change: Change,
    a: int,
    b: int,
    i: int,
)
    requires
        0 <= lo <= hi <= s.len(),
        pieces.len() == s.len(),
        retargets(s, lo, hi, pieces, change),
        rereading::clean(s, lo, hi),
        change.is_sound(),
        is_changed_link(s, lo, hi, a, b, change),
        a < i < b,
    ensures
        s[a] == '[',
        s[b] == ']',
        s[i] != '\n',
        s[i - 1] != '\n',
        s[i + 1] != '\n',
        has_no_line_feed(pieces[i]),
{
    lemma_inside_ok(s, lo, hi, a, b);
    lemma_writes_well(s, lo, hi, a, b, change);
    assert(s[i] != '\n');
    if i - 1 > a {
        assert(s[i - 1] != '\n');
    }
    if i + 1 < b {
        assert(s[i + 1] != '\n');
    }
    if i > a + 1 {
        assert(pieces[i].len() == 0);
    }
}

/// An index between the delimiters of a link that a change affects.
proof fn lemma_no_feed_inside(
    s: Seq<char>,
    lo: int,
    hi: int,
    pieces: Seq<Seq<char>>,
    change: Change,
    i: int,
)
    requires
        0 <= lo <= hi <= s.len(),
        pieces.len() == s.len(),
        retargets(s, lo, hi, pieces, change),
        rereading::clean(s, lo, hi),
        change.is_sound(),
        is_inside(s, lo, hi, change, i),
    ensures
        s[i] != '\n',
        s[i - 1] != '\n',
        i + 1 < s.len(),
        s[i + 1] != '\n',
        has_no_line_feed(pieces[i]),
        s[i - 1] == '[' || is_inside(s, lo, hi, change, i - 1),
{
    let (a, b) = choose|a: int, b: int| #[trigger]
        is_changed_link(s, lo, hi, a, b, change) && a < i < b;
    lemma_link_interior(s, lo, hi, pieces, change, a, b, i);
    if i - 1 > a {
        assert(is_changed_link(s, lo, hi, a, b, change) && a < i - 1 < b);
    }
}

/// Between the delimiters of a link of a section there are no line feeds, and what stands there is
/// replaced.
proof fn lemma_no_feed_in_link(
    path: Option<Seq<char>>,
    s: Seq<char>,
    pieces: Seq<Seq<char>>,
    lo: int,
    change: Change,
    i: int,
)
    requires
        formatting::is_clean_section(path, s, lo),
        pieces.len() == s.len(),
        changes_section(s, pieces, lo, change),
        change.is_sound(),
        is_inside(s, parser::content_start(s, lo), parser::content_end(s, lo), change, i),
    ensures
        s[i] != '\n',
        s[i - 1] != '\n',
        i + 1 < s.len(),
        s[i + 1] != '\n',
        has_no_line_feed(pieces[i]),
        s[i - 1] == '[' || is_inside(
            s,
            parser::content_start(s, lo),
            parser::content_end(s, lo),
            change,
            i - 1,
        ),
{
    let cs = parser::content_start(s, lo);
    let ce = parser::content_end(s, lo);
    assert(0 <= cs <= ce <= s.len() && rereading::clean(s, cs, ce)) by {
        formatting::lemma_section(path, s, lo);
    }
    lemma_no_feed_inside(s, cs, ce, pieces, change, i);
}

/// Content without errors has none before any index.
pub proof fn lemma_clean_before(s: Seq<char>, lo: int, i: int, hi: int)
    requires
        lo <= i <= hi,
        rereading::clean(s, lo, hi),
    ensures
        rereading::clean(s, lo, i),
    decreases hi - i,
{
    if i < hi {
        lemma_clean_before(s, lo, i + 1, hi);
    }
}

/// What becomes of a character of a section.
proof fn lemma_section_piece(
    path: Option<Seq<char>>,
    s: Seq<char>,
    pieces: Seq<Seq<char>>,
    lo: int,
    change: Change,
    i: int,
)
    requires
        formatting::is_clean_section(path, s, lo),
        pieces.len() == s.len(),
        changes_section(s, pieces, lo, change),
        lo <= i < section_end(s, lo),
    ensures
        ({
            let ts = parser::title_start(s, lo);
            let te = parser::title_end(s, lo);
            let cs = parser::content_start(s, lo);
            let ce = parser::content_end(s, lo);
            ||| pieces[i] == seq![s[i]]
            ||| ts <= i < te && change.retitles(parser::title_of(s, lo)) && pieces[ts]
                == change.new_title(parser::title_of(s, lo)) && (i > ts ==> pieces[i].len() == 0)
                && (forall|k: int| ts < k < te ==> (#[trigger] pieces[k]).len() == 0)
            ||| cs <= i < ce && is_inside(s, cs, ce, change, i)
        }),
{
    lemma_section_parts(path, s, lo);
    let cs = parser::content_start(s, lo);
    let ce = parser::content_end(s, lo);
    assert(stays_outside(s, cs, ce, pieces, change, i));
}

/// Pieces that are not all empty build something.
proof fn lemma_built_something(pieces: Seq<Seq<char>>, a: int, m: int, b: int)
    requires
        a <= m < b,
        pieces[m].len() > 0,
    ensures
        built(pieces, a, b).len() > 0,
{
    lemma_built_split(pieces, a, m + 1, b);
}

/// Empty pieces build nothing.
proof fn lemma_built_nothing(pieces: Seq<Seq<char>>, a: int, b: int)
    requires
        forall|i: int| a <= i < b ==> (#[trigger] pieces[i]).len() == 0,
    ensures
        built(pieces, a, b).len() == 0,
    decreases b - a,
{
    if a < b {
        lemma_built_nothing(pieces, a, b - 1);
        assert(pieces[b - 1].len() == 0);
    }
}

proof fn lemma_section_line_feed(
    path: Option<Seq<char>>,
    s: Seq<char>,
    pieces: Seq<Seq<char>>,
    lo: int,
    change: Change,
    i: int,
)
    requires
        formatting::is_clean_section(path, s, lo),
        pieces.len() == s.len(),
        changes_section(s, pieces, lo, change),
        change.is_sound(),
        lo <= i < section_end(s, lo),
    ensures
        keeps_line_feed(s, pieces, i),
{
    lemma_section_parts(path, s, lo);
    lemma_section_piece(path, s, pieces, lo, change, i);
    let cs = parser::content_start(s, lo);
    let ce = parser::content_end(s, lo);
    if cs <= i < ce && is_inside(s, cs, ce, change, i) {
        lemma_no_feed_in_link(path, s, pieces, lo, change, i);
    }
}

proof fn lemma_title_line_start(
    path: Option<Seq<char>>,
    s: Seq<char>,
    pieces: Seq<Seq<char>>,
    lo: int,
    change: Change,
)
    requires
        formatting::is_clean_section(path, s, lo),
        pieces.len() == s.len(),
        changes_section(s, pieces, lo, change),
        change.is_sound(),
    ensures
        keeps_line_start(s, pieces, lo),
{
    lemma_section_parts(path, s, lo);
    let ts = parser::title_start(s, lo);
    let end = text::line_end(s, lo);
    assert(pieces[lo] == seq![s[lo]]);
    assert(pieces[lo + 1] == seq![s[lo + 1]]);
    if !change.retitles(parser::title_of(s, lo)) {
        assert(pieces[ts] == seq![s[ts]]);
    }
    lemma_built_something(pieces, lo + 2, ts, end);
}

/// A character after the title line of a section stays what it is if it is the first or the last of
/// its line, or comes right after a title marker.
proof fn lemma_plain_piece(
    path: Option<Seq<char>>,
    s: Seq<char>,
    pieces: Seq<Seq<char>>,
    lo: int,
    change: Change,
    i: int,
)
    requires
        formatting::is_clean_section(path, s, lo),
        pieces.len() == s.len(),
        changes_section(s, pieces, lo, change),
        change.is_sound(),
        parser::next_line(s, lo) <= i < section_end(s, lo),
        ({
            ||| s[i - 1] == '\n'
            ||| i + 1 == s.len()
            ||| s[i + 1] == '\n'
            ||| s[i - 1] == '#' && i - 2 >= 0 && s[i - 2] == '\n'
        }),
    ensures
        pieces[i] == seq![s[i]],
{
    assert(lo < parser::title_end(s, lo) <= parser::next_line(s, lo)) by {
        lemma_section_parts(path, s, lo);
    }
    let cs = parser::content_start(s, lo);
    let ce = parser::content_end(s, lo);
    assert(!is_inside(s, cs, ce, change, i)) by {
        if is_inside(s, cs, ce, change, i) {
            lemma_no_feed_in_link(path, s, pieces, lo, change, i);
            if s[i - 1] == '#' {
                lemma_no_feed_in_link(path, s, pieces, lo, change, i - 1);
            }
        }
    }
    lemma_section_piece(path, s, pieces, lo, change, i);
}

proof fn lemma_section_line_start(
    path: Option<Seq<char>>,
    s: Seq<char>,
    pieces: Seq<Seq<char>>,
    lo: int,
    change: Change,
    i: int,
)
    requires
        formatting::is_clean_section(path, s, lo),
        pieces.len() == s.len(),
        changes_section(s, pieces, lo, change),
        change.is_sound(),
        lo <= i < section_end(s, lo),
        i == 0 || s[i - 1] == '\n',
    ensures
        keeps_line_start(s, pieces, i),
{
    if i == lo {
        lemma_title_line_start(path, s, pieces, lo, change);
    } else {
        let next = section_end(s, lo);
        let end = text::line_end(s, i);
        assert(0 <= parser::next_line(s, lo) <= i < next <= s.len() && (next == s.len() || s[next
            - 1] == '\n')) by {
            lemma_section_parts(path, s, lo);
        }
        text::lemma_line_end(s, i);
        lemma_line_within(s, i, end, next);
        lemma_plain_piece(path, s, pieces, lo, change, i);
        if s[i] == '#' && i + 1 < s.len() {
            assert(i + 1 < next);
            lemma_plain_piece(path, s, pieces, lo, change, i + 1);
        }
        if i + 2 < end {
            lemma_plain_piece(path, s, pieces, lo, change, end - 1);
            lemma_built_something(pieces, i + 2, end - 1, end);
        }
    }
}

/// A line that starts before a line start ends before it.
proof fn lemma_line_within(s: Seq<char>, i: int, end: int, next: int)
    requires
        0 <= i < next <= s.len(),
        end == text::line_end(s, i),
        next == s.len() || s[next - 1] == '\n',
    ensures
        end <= next,
        end < s.len() ==> end < next,
{
    text::lemma_line_end(s, i);
    if next < s.len() && end >= next {
        assert(s[next - 1] != '\n');
    }
}

proof fn lemma_section_line_stop(
    path: Option<Seq<char>>,
    s: Seq<char>,
    pieces: Seq<Seq<char>>,
    lo: int,
    change: Change,
    i: int,
)
    requires
        formatting::is_clean_section(path, s, lo),
        pieces.len() == s.len(),
        changes_section(s, pieces, lo, change),
        change.is_sound(),
        lo <= i - 1 < section_end(s, lo),
        s[i - 1] != '\n',
        i == s.len() || s[i] == '\n',
    ensures
        keeps_line_end(s, pieces, i),
{
    lemma_section_parts(path, s, lo);
    let j = i - 1;
    lemma_section_piece(path, s, pieces, lo, change, j);
    let ts = parser::title_start(s, lo);
    let te = parser::title_end(s, lo);
    let cs = parser::content_start(s, lo);
    let ce = parser::content_end(s, lo);
    if pieces[j] == seq![s[j]] {
        assert(built(pieces, 0, i).last() == s[j]);
    } else if ts <= j < te {
        assert(te == i);
        lemma_title_stop(pieces, ts, i, change.new_title(parser::title_of(s, lo)));
    } else {
        lemma_no_feed_in_link(path, s, pieces, lo, change, j);
    }
}

/// A title that ends its line does so with its last character.
proof fn lemma_title_stop(pieces: Seq<Seq<char>>, ts: int, i: int, new_title: Seq<char>)
    requires
        0 <= ts < i,
        pieces[ts] == new_title,
        new_title.len() > 0,
        forall|k: int| ts < k < i ==> (#[trigger] pieces[k]).len() == 0,
    ensures
        built(pieces, 0, i).len() > 0,
        built(pieces, 0, i).last() == new_title.last(),
{
    lemma_built_nothing(pieces, ts + 1, i);
    lemma_built_split(pieces, 0, ts + 1, i);
    assert(built(pieces, 0, i) =~= built(pieces, 0, ts) + new_title);
}

/// An outline never loses errors.
proof fn lemma_errors_stay(path: Option<Seq<char>>, s: Seq<char>, lo: int, before: Outline)
    requires
        0 <= lo <= s.len(),
    ensures
        before.errors.len() <= parser::outline_from(path, s, lo, before).errors.len(),
    decreases s.len() - lo,
{
    if lo < s.len() {
        text::lemma_line_end(s, lo);
        let first = parser::next_line(s, lo);
        parser::lemma_next_title_line(s, first);
        lemma_errors_stay(
            path,
            s,
            parser::next_title_line(s, first),
            parser::with_section(path, s, lo, before),
        );
    }
}

/// The section that an index lies in.
proof fn lemma_section_of(
    path: Option<Seq<char>>,
    s: Seq<char>,
    lo: int,
    before: Outline,
    i: int,
) -> (at: int)
    requires
        formatting::is_section(s, lo),
        lo <= i < s.len(),
        parser::outline_from(path, s, lo, before).errors.len() == 0,
    ensures
        formatting::is_clean_section(path, s, at),
        at <= i < section_end(s, at),
    decreases s.len() - lo,
{
    text::lemma_line_end(s, lo);
    let first = parser::next_line(s, lo);
    formatting::lemma_next_section(s, first);
    let next = section_end(s, lo);
    let after = parser::with_section(path, s, lo, before);
    lemma_errors_stay(path, s, next, after);
    if i < next {
        lo
    } else {
        lemma_section_of(path, s, next, after, i)
    }
}

/// Whether pieces carry out a change in every section of a source, and nowhere else.
pub open spec fn changes(
    s: Seq<char>,
    pieces: Seq<Seq<char>>,
    change: Change,
) -> bool {
    &&& pieces.len() == s.len()
    &&& forall|i: int|
        0 <= i < parser::next_title_line(s, 0) ==> #[trigger] pieces[i] == seq![s[i]]
    &&& forall|lo: int| #[trigger]
        formatting::is_section(s, lo) ==> changes_section(s, pieces, lo, change)
}

/// Before the first section everything stays what it is.
proof fn lemma_stray_lines(
    s: Seq<char>,
    pieces: Seq<Seq<char>>,
    change: Change,
    i: int,
)
    requires
        changes(s, pieces, change),
        0 <= i < parser::next_title_line(s, 0),
    ensures
        i == 0 || s[i - 1] == '\n' ==> keeps_line_start(s, pieces, i),
        keeps_line_feed(s, pieces, i),
        keeps_line_end(s, pieces, i + 1),
{
    formatting::lemma_next_section(s, 0);
    let first = parser::next_title_line(s, 0);
    assert(pieces[i] == seq![s[i]]);
    assert(built(pieces, 0, i + 1).last() == s[i]);
    if i == 0 || s[i - 1] == '\n' {
        text::lemma_line_end(s, i);
        let end = text::line_end(s, i);
        lemma_line_within(s, i, end, first);
        if s[i] == '#' && i + 1 < s.len() {
            assert(i + 1 < first);
            assert(pieces[i + 1] == seq![s[i + 1]]);
        }
        if i + 2 < end {
            assert(pieces[end - 1] == seq![s[end - 1]]);
            lemma_built_something(pieces, i + 2, end - 1, end);
        }
    }
}

/// A change keeps lines.
proof fn lemma_changes_keep_lines(
    path: Option<Seq<char>>,
    s: Seq<char>,
    pieces: Seq<Seq<char>>,
    change: Change,
)
    requires
        parser::outline(path, s).errors.len() == 0,
        changes(s, pieces, change),
        change.is_sound(),
    ensures
        keeps_lines(s, pieces),
{
    formatting::lemma_next_section(s, 0);
    let first = parser::next_title_line(s, 0);
    let before = Outline { nodes: Seq::empty(), errors: parser::stray_errors(path, s) };
    assert forall|i: int| 0 <= i < s.len() implies #[trigger] keeps_line_feed(s, pieces, i) by {
        if i < first {
            lemma_stray_lines(s, pieces, change, i);
        } else {
            let lo = lemma_section_of(path, s, first, before, i);
            lemma_section_line_feed(path, s, pieces, lo, change, i);
        }
    }
    assert forall|i: int|
        0 <= i < s.len() && (i == 0 || s[i - 1] == '\n') implies #[trigger] keeps_line_start(
        s,
        pieces,
        i,
    ) by {
        if i < first {
            lemma_stray_lines(s, pieces, change, i);
        } else {
            let lo = lemma_section_of(path, s, first, before, i);
            lemma_section_line_start(path, s, pieces, lo, change, i);
        }
    }
    assert forall|i: int|
        0 < i <= s.len() && s[i - 1] != '\n' && (i == s.len() || s[i] == '\n')
        implies #[trigger] keeps_line_end(s, pieces, i) by {
        if i - 1 < first {
            lemma_stray_lines(s, pieces, change, i - 1);
        } else {
            let lo = lemma_section_of(path, s, first, before, i - 1);
            lemma_section_line_stop(path, s, pieces, lo, change, i);
        }
    }
}

/// What the title of a section becomes.
proof fn lemma_title_built(
    path: Option<Seq<char>>,
    s: Seq<char>,
    pieces: Seq<Seq<char>>,
    lo: int,
    change: Change,
)
    requires
        formatting::is_clean_section(path, s, lo),
        pieces.len() == s.len(),
        changes_section(s, pieces, lo, change),
    ensures
        built(pieces, parser::title_start(s, lo), parser::title_end(s, lo)) == change.retitled(
            parser::title_of(s, lo),
        ),
{
    lemma_section_parts(path, s, lo);
    let ts = parser::title_start(s, lo);
    let te = parser::title_end(s, lo);
    if change.retitles(parser::title_of(s, lo)) {
        lemma_built_nothing(pieces, ts + 1, te);
        lemma_built_split(pieces, ts, ts + 1, te);
        assert(built(pieces, ts, ts).len() == 0);
        assert(built(pieces, ts, te) =~= pieces[ts]);
    } else {
        lemma_kept_chars(s, pieces, ts, te);
    }
}

/// The title line of a section after a change.
#[verifier::rlimit(60)]
#[verifier::spinoff_prover]
proof fn lemma_changed_title(
    path: Option<Seq<char>>,
    s: Seq<char>,
    pieces: Seq<Seq<char>>,
    lo: int,
    change: Change,
)
    requires
        keeps_lines(s, pieces),
        formatting::is_clean_section(path, s, lo),
        changes_section(s, pieces, lo, change),
        change.is_sound(),
    ensures
        ({
            let t = built(pieces, 0, s.len() as int);
            let at = image(pieces, lo);
            &&& 0 <= at < t.len()
            &&& parser::is_title_line(t, at)
            &&& parser::title_of(t, at) == change.retitled(parser::title_of(s, lo))
            &&& parser::title_error(path, t, at) is None
            &&& parser::next_line(t, at) == image(pieces, parser::next_line(s, lo))
        }),
{
    let t = built(pieces, 0, s.len() as int);
    let at = image(pieces, lo);
    let ts = parser::title_start(s, lo);
    let te = parser::title_end(s, lo);
    let stop = parser::line_stop(s, lo);
    let end = text::line_end(s, lo);
    lemma_section_parts(path, s, lo);
    formatting::lemma_section(path, s, lo);
    lemma_title_line_image(s, pieces, lo);
    lemma_title_built(path, s, pieces, lo, change);
    let name = change.retitled(parser::title_of(s, lo));
    lemma_kept_chars(s, pieces, lo, ts);
    lemma_kept_chars(s, pieces, te, stop);
    lemma_image(pieces, lo, ts);
    lemma_image(pieces, ts, te);
    lemma_image(pieces, te, stop);
    let from = image(pieces, ts);
    let to = image(pieces, te);
    let last = image(pieces, stop);
    assert(parser::line_stop(t, at) == last) by {
        if stop < end {
            assert(stop == end - 1 && s[end - 1] == '\r');
            assert(pieces[stop] == seq![s[stop]]);
            lemma_kept_char(s, pieces, stop);
        }
    }
    assert forall|k: int| at + 2 <= k < from implies text::white_space(#[trigger] t[k]) by {
        let i = k - at + lo;
        assert(t.subrange(at, from)[k - at] == t[k]);
        assert(s.subrange(lo, ts)[i - lo] == s[i]);
    }
    assert(t.subrange(from, to) == name);
    assert(t[from] == name[0]) by {
        assert(t.subrange(from, to)[0] == t[from]);
    }
    assert(t[to - 1] == name.last()) by {
        assert(t.subrange(from, to)[to - from - 1] == t[to - 1]);
    }
    assert forall|k: int| to <= k < last implies text::white_space(#[trigger] t[k]) by {
        let i = k - to + te;
        assert(t.subrange(to, last)[k - to] == t[k]);
        assert(s.subrange(te, stop)[i - te] == s[i]);
    }
    formatting::lemma_trim_start_at(t, at + 2, last, from);
    formatting::lemma_trim_end_at(t, from, last, to);
}

/// White space that stays what it is stays white space.
proof fn lemma_white_image(s: Seq<char>, pieces: Seq<Seq<char>>, a: int, b: int)
    requires
        0 <= a <= b <= s.len(),
        pieces.len() == s.len(),
        forall|i: int| a <= i < b ==> #[trigger] pieces[i] == seq![s[i]],
        forall|i: int| a <= i < b ==> text::white_space(#[trigger] s[i]),
    ensures
        forall|k: int|
            image(pieces, a) <= k < image(pieces, b) ==> text::white_space(
                #[trigger] built(pieces, 0, s.len() as int)[k],
            ),
{
    let t = built(pieces, 0, s.len() as int);
    lemma_kept_chars(s, pieces, a, b);
    lemma_image(pieces, a, b);
    let from = image(pieces, a);
    let to = image(pieces, b);
    assert forall|k: int| from <= k < to implies text::white_space(#[trigger] t[k]) by {
        let i = k - from + a;
        assert(t.subrange(from, to)[k - from] == t[k]);
        assert(s.subrange(a, b)[i - a] == s[i]);
        assert(text::white_space(s[i]));
    }
}

/// Where the content of a section lies after a change.
proof fn lemma_changed_bounds(
    path: Option<Seq<char>>,
    s: Seq<char>,
    pieces: Seq<Seq<char>>,
    lo: int,
    change: Change,
)
    requires
        keeps_lines(s, pieces),
        formatting::is_clean_section(path, s, lo),
        changes_section(s, pieces, lo, change),
        parser::next_line(built(pieces, 0, s.len() as int), image(pieces, lo)) == image(
            pieces,
            parser::next_line(s, lo),
        ),
    ensures
        ({
            let t = built(pieces, 0, s.len() as int);
            let at = image(pieces, lo);
            &&& section_end(t, at) == image(pieces, section_end(s, lo))
            &&& parser::content_start(t, at) == image(pieces, parser::content_start(s, lo))
            &&& parser::content_end(t, at) == image(pieces, parser::content_end(s, lo))
        }),
{
    let t = built(pieces, 0, s.len() as int);
    let first = parser::next_line(s, lo);
    let cs = parser::content_start(s, lo);
    let ce = parser::content_end(s, lo);
    let next = section_end(s, lo);
    lemma_section_parts(path, s, lo);
    lemma_next_title_image(s, pieces, first);
    lemma_white_image(s, pieces, first, cs);
    lemma_white_image(s, pieces, ce, next);
    lemma_image(pieces, first, cs);
    lemma_image(pieces, cs, ce);
    lemma_image(pieces, ce, next);
    let from = image(pieces, cs);
    let to = image(pieces, ce);
    if cs < ce {
        assert(!is_inside(s, cs, ce, change, cs));
        assert(!is_inside(s, cs, ce, change, ce - 1));
        assert(stays_outside(s, cs, ce, pieces, change, cs));
        assert(stays_outside(s, cs, ce, pieces, change, ce - 1));
        lemma_kept_char(s, pieces, cs);
        lemma_kept_char(s, pieces, ce - 1);
    } else {
        assert(built(pieces, cs, ce).len() == 0);
    }
    formatting::lemma_trim_start_at(t, image(pieces, first), image(pieces, next), from);
    formatting::lemma_trim_end_at(t, from, image(pieces, next), to);
}

/// The content of a section after a change.
proof fn lemma_changed_section(
    path: Option<Seq<char>>,
    s: Seq<char>,
    pieces: Seq<Seq<char>>,
    lo: int,
    change: Change,
)
    requires
        keeps_lines(s, pieces),
        formatting::is_clean_section(path, s, lo),
        changes_section(s, pieces, lo, change),
        change.is_sound(),
    ensures
        ({
            let t = built(pieces, 0, s.len() as int);
            let at = image(pieces, lo);
            &&& section_end(t, at) == image(pieces, section_end(s, lo))
            &&& parser::content_errors(
                path,
                t,
                parser::content_start(t, at),
                parser::content_end(t, at),
            ).len() == 0
            &&& rereading::all_unplaced(parser::node_at(t, at).links) == all_relinked(
                parser::node_at(s, lo).links,
                change,
            )
        }),
{
    let t = built(pieces, 0, s.len() as int);
    let cs = parser::content_start(s, lo);
    let ce = parser::content_end(s, lo);
    lemma_changed_title(path, s, pieces, lo, change);
    lemma_changed_bounds(path, s, pieces, lo, change);
    assert(0 <= cs <= ce <= s.len() && rereading::clean(s, cs, ce) && parser::open_link(
        s,
        cs,
        ce,
    ) is None) by {
        formatting::lemma_section(path, s, lo);
    }
    lemma_image(pieces, cs, ce);
    lemma_changed_content(s, cs, ce, ce, pieces, change);
    let from = image(pieces, cs);
    let to = image(pieces, ce);
    let w = built(pieces, cs, ce);
    let n = w.len() as int;
    assert forall|k: int| 0 <= k < n implies w[0 + k] == #[trigger] t[from + k] by {
        assert(t.subrange(from, to)[k] == t[from + k]);
    }
    rereading::lemma_content_shift(w, 0, t, from, n);
    rereading::lemma_scan_shift(w, 0, t, from, n);
    rereading::lemma_clean_anywhere(path, t, from, to);
}

/// Whether one node is another after a change: its title and its links are changed, and nothing is
/// said of where they stand.
pub open spec fn is_changed(
    node: NodeView,
    found: NodeView,
    change: Change,
) -> bool {
    &&& node.title == change.retitled(found.title)
    &&& rereading::all_unplaced(node.links) == all_relinked(found.links, change)
}

/// Whether the nodes of one wiki are those of another after a change.
pub open spec fn all_changed(
    nodes: Seq<NodeView>,
    found: Seq<NodeView>,
    change: Change,
) -> bool {
    &&& nodes.len() == found.len()
    &&& forall|i: int|
        0 <= i < nodes.len() ==> is_changed(#[trigger] nodes[i], found[i], change)
}

/// An outline never loses nodes.
proof fn lemma_nodes_stay(path: Option<Seq<char>>, s: Seq<char>, lo: int, before: Outline)
    requires
        0 <= lo <= s.len(),
    ensures
        before.nodes.is_prefix_of(parser::outline_from(path, s, lo, before).nodes),
    decreases s.len() - lo,
{
    if lo < s.len() {
        text::lemma_line_end(s, lo);
        let first = parser::next_line(s, lo);
        parser::lemma_next_title_line(s, first);
        lemma_nodes_stay(
            path,
            s,
            parser::next_title_line(s, first),
            parser::with_section(path, s, lo, before),
        );
    }
}

/// A change keeps titles apart.
proof fn lemma_titles_stay_apart(
    nodes: Seq<NodeView>,
    before: Seq<NodeView>,
    twins: Seq<NodeView>,
    node: NodeView,
    change: Change,
)
    requires
        all_changed(twins, before, change),
        before.push(node).is_prefix_of(nodes),
        !wiki::has_title(before, node.title),
        change.keeps_apart(nodes),
    ensures
        !wiki::has_title(twins, change.retitled(node.title)),
{
    let some = before.push(node);
    let name = change.retitled(node.title);
    assert(nodes[before.len() as int] == node) by {
        assert(some[before.len() as int] == node);
    }
    if wiki::has_title(twins, name) {
        let k = choose|k: int| 0 <= k < twins.len() && #[trigger] twins[k].title == name;
        assert(is_changed(twins[k], before[k], change));
        assert(nodes[k] == before[k]) by {
            assert(some[k] == before[k]);
        }
        assert(before[k].title != node.title);
        if let Change::Title { old, new } = change {
            if node.title == old {
                assert(nodes[k].title == new);
            } else if before[k].title == old {
                assert(nodes[before.len() as int].title == new);
            }
        }
    }
}

/// The outline of a source after a change.
proof fn lemma_changed_outline(
    path: Option<Seq<char>>,
    s: Seq<char>,
    pieces: Seq<Seq<char>>,
    change: Change,
    lo: int,
    before: Outline,
    twin: Outline,
)
    requires
        keeps_lines(s, pieces),
        changes(s, pieces, change),
        change.is_sound(),
        lo == s.len() || formatting::is_section(s, lo),
        parser::outline_from(path, s, lo, before).errors.len() == 0,
        change.keeps_apart(parser::outline_from(path, s, lo, before).nodes),
        twin.errors.len() == 0,
        all_changed(twin.nodes, before.nodes, change),
    ensures
        ({
            let t = built(pieces, 0, s.len() as int);
            let after = parser::outline_from(path, t, image(pieces, lo), twin);
            &&& after.errors.len() == 0
            &&& all_changed(
                after.nodes,
                parser::outline_from(path, s, lo, before).nodes,
                change,
            )
        }),
    decreases s.len() - lo,
{
    if lo < s.len() {
        let t = built(pieces, 0, s.len() as int);
        let at = image(pieces, lo);
        text::lemma_line_end(s, lo);
        let first = parser::next_line(s, lo);
        formatting::lemma_next_section(s, first);
        let next = section_end(s, lo);
        let after = parser::with_section(path, s, lo, before);
        lemma_errors_stay(path, s, next, after);
        lemma_nodes_stay(path, s, next, after);
        let node = parser::node_at(s, lo);
        assert(formatting::is_clean_section(path, s, lo));
        assert(!wiki::has_title(before.nodes, node.title));
        assert(after.nodes == before.nodes.push(node));
        assert(changes_section(s, pieces, lo, change));
        lemma_changed_title(path, s, pieces, lo, change);
        lemma_changed_section(path, s, pieces, lo, change);
        let nodes = parser::outline_from(path, s, lo, before).nodes;
        lemma_titles_stay_apart(nodes, before.nodes, twin.nodes, node, change);
        let other = parser::node_at(t, at);
        let later = parser::with_section(path, t, at, twin);
        assert(later == Outline { nodes: twin.nodes.push(other), errors: twin.errors });
        assert forall|i: int| 0 <= i < later.nodes.len() implies is_changed(
            #[trigger] later.nodes[i],
            after.nodes[i],
            change,
        ) by {
            if i < twin.nodes.len() {
                assert(later.nodes[i] == twin.nodes[i]);
                assert(after.nodes[i] == before.nodes[i]);
            }
        }
        lemma_changed_outline(path, s, pieces, change, next, after, later);
    } else {
        lemma_image(pieces, s.len() as int, s.len() as int);
    }
}

/// Blank lines before the first section stay blank.
proof fn lemma_stray_image(s: Seq<char>, pieces: Seq<Seq<char>>, i: int, first: int)
    requires
        keeps_lines(s, pieces),
        0 <= i <= first <= s.len(),
        first == s.len() || s[first - 1] == '\n' || first == 0,
        i == 0 || i == s.len() || s[i - 1] == '\n',
        forall|k: int| 0 <= k < first ==> #[trigger] pieces[k] == seq![s[k]],
        parser::first_stray_line(s, i, first) is None,
    ensures
        parser::first_stray_line(
            built(pieces, 0, s.len() as int),
            image(pieces, i),
            image(pieces, first),
        ) is None,
    decreases first - i,
{
    if i < first {
        let t = built(pieces, 0, s.len() as int);
        let end = text::line_end(s, i);
        let stop = parser::line_stop(s, i);
        text::lemma_line_end(s, i);
        lemma_line_within(s, i, end, first);
        lemma_title_line_image(s, pieces, i);
        lemma_kept_chars(s, pieces, i, stop);
        lemma_image(pieces, i, stop);
        if stop < end {
            assert(pieces[stop] == seq![s[stop]]);
            lemma_kept_char(s, pieces, stop);
        }
        assert(parser::line_stop(t, image(pieces, i)) == image(pieces, stop));
        lemma_stray_image(s, pieces, parser::next_line(s, i), first);
        lemma_image(pieces, first, s.len() as int);
    }
}

/// A source after a change reads as it did, but for the change.
proof fn lemma_changed_reads(
    path: Option<Seq<char>>,
    s: Seq<char>,
    pieces: Seq<Seq<char>>,
    change: Change,
)
    requires
        parser::outline(path, s).errors.len() == 0,
        changes(s, pieces, change),
        change.is_sound(),
        change.keeps_apart(parser::outline(path, s).nodes),
    ensures
        ({
            let after = parser::outline(path, built(pieces, 0, s.len() as int));
            &&& after.errors.len() == 0
            &&& all_changed(after.nodes, parser::outline(path, s).nodes, change)
        }),
{
    lemma_changes_keep_lines(path, s, pieces, change);
    let t = built(pieces, 0, s.len() as int);
    formatting::lemma_next_section(s, 0);
    let first = parser::next_title_line(s, 0);
    lemma_next_title_image(s, pieces, 0);
    assert(image(pieces, 0) == 0);
    let before = Outline { nodes: Seq::empty(), errors: parser::stray_errors(path, s) };
    lemma_errors_stay(path, s, first, before);
    lemma_stray_image(s, pieces, 0, first);
    let twin = Outline { nodes: Seq::empty(), errors: parser::stray_errors(path, t) };
    lemma_changed_outline(path, s, pieces, change, first, before, twin);
}

/// Whether a byte offset lies in a range.
pub open spec fn is_hit(span: Span, b: int) -> bool {
    span.start <= b < span.end
}

/// What a character becomes when ranges of a source are replaced that hold something and do not
/// overlap: the first character of a range becomes the text in its place, and the others go.
pub open spec fn replaced_char(
    s: Seq<char>,
    spans: Seq<Span>,
    texts: Seq<Seq<char>>,
    i: int,
) -> Seq<char> {
    let b = text::offset(s, i);
    if exists|x: int| 0 <= x < spans.len() && (#[trigger] spans[x]).start == b {
        texts[choose|x: int| 0 <= x < spans.len() && (#[trigger] spans[x]).start == b]
    } else if exists|x: int|
        0 <= x < spans.len() && (#[trigger] spans[x]).start < b < spans[x].end {
        Seq::empty()
    } else {
        seq![s[i]]
    }
}

/// What the characters of a source become when ranges of it are replaced.
pub open spec fn replaced_chars(s: Seq<char>, spans: Seq<Span>, texts: Seq<Seq<char>>) -> Seq<
    Seq<char>,
> {
    Seq::new(s.len(), |i: int| replaced_char(s, spans, texts, i))
}

/// A source with ranges of it replaced.
pub open spec fn replaced_ranges(s: Seq<char>, spans: Seq<Span>, texts: Seq<Seq<char>>) -> Seq<
    char,
> {
    built(replaced_chars(s, spans, texts), 0, s.len() as int)
}

/// The links of a content reach from an opening to a closing delimiter.
pub proof fn lemma_listed_link(s: Seq<char>, lo: int, i: int, k: int) -> (ends: (int, int))
    requires
        0 <= lo <= i <= s.len(),
        0 <= k < parser::links_before(s, lo, i).len(),
    ensures
        is_content_link(s, lo, i, ends.0, ends.1),
        parser::link_at(s, ends.0, ends.1) == Ok::<LinkView, Seq<char>>(
            parser::links_before(s, lo, i)[k],
        ),
    decreases i - lo,
{
    let j = i - 1;
    let links = parser::links_before(s, lo, j);
    rereading::lemma_scan_bounds(s, lo, j);
    if k < links.len() {
        let ends = lemma_listed_link(s, lo, j, k);
        assert(parser::links_before(s, lo, i)[k] == links[k]);
        ends
    } else {
        (parser::open_link(s, lo, j)->0, j)
    }
}

/// Every link of a content is listed.
pub proof fn lemma_link_listed(s: Seq<char>, lo: int, i: int, a: int, b: int) -> (k: int)
    requires
        0 <= lo <= i <= s.len(),
        is_content_link(s, lo, i, a, b),
        parser::link_at(s, a, b) is Ok,
    ensures
        0 <= k < parser::links_before(s, lo, i).len(),
        parser::links_before(s, lo, i)[k] == parser::link_at(s, a, b)->Ok_0,
    decreases i - lo,
{
    let j = i - 1;
    let links = parser::links_before(s, lo, j);
    if b == j {
        links.len() as int
    } else {
        let k = lemma_link_listed(s, lo, j, a, b);
        assert(parser::links_before(s, lo, i)[k] == links[k]);
        k
    }
}
/// A title line at or after the start of a line is no earlier than the next title line.
proof fn lemma_title_line_found(s: Seq<char>, i: int, at: int)
    requires
        0 <= i <= at < s.len(),
        i == 0 || s[i - 1] == '\n',
        formatting::is_section(s, at),
    ensures
        parser::next_title_line(s, i) <= at,
    decreases s.len() - i,
{
    if !parser::is_title_line(s, i) {
        text::lemma_line_end(s, i);
        let end = text::line_end(s, i);
        if end >= at {
            assert(at > i);
            assert(s[at - 1] != '\n');
        }
        lemma_title_line_found(s, end + 1, at);
    }
}

/// An index lies in only one section.
proof fn lemma_one_section(s: Seq<char>, a: int, b: int, i: int)
    requires
        formatting::is_section(s, a),
        formatting::is_section(s, b),
        a <= i < section_end(s, a),
        b <= i < section_end(s, b),
    ensures
        a == b,
{
    text::lemma_line_end(s, a);
    text::lemma_line_end(s, b);
    if a < b {
        lemma_section_after(s, a, b);
    } else if b < a {
        lemma_section_after(s, b, a);
    }
}

/// A section that starts after another starts no earlier than where that one ends.
proof fn lemma_section_after(s: Seq<char>, a: int, b: int)
    requires
        formatting::is_section(s, a),
        formatting::is_section(s, b),
        a < b,
    ensures
        section_end(s, a) <= b,
{
    text::lemma_line_end(s, a);
    let end = text::line_end(s, a);
    if b <= end {
        assert(s[b - 1] != '\n');
    }
    lemma_title_line_found(s, end + 1, b);
}

/// Every section of a source without errors has its node.
proof fn lemma_section_node(
    path: Option<Seq<char>>,
    s: Seq<char>,
    lo: int,
    before: Outline,
    at: int,
) -> (k: int)
    requires
        formatting::is_section(s, lo),
        formatting::is_section(s, at),
        lo <= at,
        parser::outline_from(path, s, lo, before).errors.len() == 0,
    ensures
        formatting::is_clean_section(path, s, at),
        0 <= k < parser::outline_from(path, s, lo, before).nodes.len(),
        parser::outline_from(path, s, lo, before).nodes[k] == parser::node_at(s, at),
    decreases s.len() - lo,
{
    text::lemma_line_end(s, lo);
    let first = parser::next_line(s, lo);
    formatting::lemma_next_section(s, first);
    let next = section_end(s, lo);
    let after = parser::with_section(path, s, lo, before);
    lemma_errors_stay(path, s, next, after);
    lemma_nodes_stay(path, s, next, after);
    if lo == at {
        let k = before.nodes.len() as int;
        assert(after.nodes[k] == parser::node_at(s, lo));
        k
    } else {
        lemma_section_after(s, lo, at);
        lemma_section_node(path, s, next, after, at)
    }
}

/// Whether ranges hold something and come one after the other without touching.
pub open spec fn are_apart(spans: Seq<Span>) -> bool {
    &&& forall|x: int| 0 <= x < spans.len() ==> (#[trigger] spans[x]).start < spans[x].end
    &&& forall|x: int, y: int|
        #![trigger spans[x], spans[y]]
        0 <= x < y < spans.len() ==> spans[x].end < spans[y].start
}

/// A character outside all ranges stays what it is.
proof fn lemma_char_kept(s: Seq<char>, spans: Seq<Span>, texts: Seq<Seq<char>>, i: int)
    requires
        are_apart(spans),
        forall|x: int|
            0 <= x < spans.len() ==> !is_hit(#[trigger] spans[x], text::offset(s, i)),
    ensures
        replaced_char(s, spans, texts, i) == seq![s[i]],
{
    let b = text::offset(s, i);
    if exists|x: int| 0 <= x < spans.len() && (#[trigger] spans[x]).start == b {
        let x = choose|x: int| 0 <= x < spans.len() && (#[trigger] spans[x]).start == b;
        assert(!is_hit(spans[x], b));
    }
    if exists|x: int| 0 <= x < spans.len() && (#[trigger] spans[x]).start < b < spans[x].end {
        let x = choose|x: int|
            0 <= x < spans.len() && (#[trigger] spans[x]).start < b < spans[x].end;
        assert(!is_hit(spans[x], b));
    }
}

/// The first character of a range becomes the text in its place.
proof fn lemma_char_replaced(s: Seq<char>, spans: Seq<Span>, texts: Seq<Seq<char>>, x: int, i: int)
    requires
        are_apart(spans),
        0 <= x < spans.len(),
        spans[x].start == text::offset(s, i),
    ensures
        replaced_char(s, spans, texts, i) == texts[x],
{
    let b = text::offset(s, i);
    let y = choose|y: int| 0 <= y < spans.len() && (#[trigger] spans[y]).start == b;
    assert(0 <= y < spans.len() && spans[y].start == b);
    if x < y {
        assert(spans[x].end < spans[y].start);
    } else if y < x {
        assert(spans[y].end < spans[x].start);
    }
}

/// The other characters of a range go.
proof fn lemma_char_dropped(s: Seq<char>, spans: Seq<Span>, texts: Seq<Seq<char>>, x: int, i: int)
    requires
        are_apart(spans),
        0 <= x < spans.len(),
        spans[x].start < text::offset(s, i) < spans[x].end,
    ensures
        replaced_char(s, spans, texts, i).len() == 0,
{
    let b = text::offset(s, i);
    if exists|y: int| 0 <= y < spans.len() && (#[trigger] spans[y]).start == b {
        let y = choose|y: int| 0 <= y < spans.len() && (#[trigger] spans[y]).start == b;
        if x < y {
            assert(spans[x].end < spans[y].start);
        } else if y < x {
            assert(spans[y].end < spans[x].start);
        }
    }
    assert(spans[x].start < b < spans[x].end);
}

/// Byte offsets are ordered as indices are.
pub proof fn lemma_offset_order(s: Seq<char>, i: int, j: int)
    requires
        0 <= i <= s.len(),
        0 <= j <= s.len(),
    ensures
        text::offset(s, i) <= text::offset(s, j) <==> i <= j,
        text::offset(s, i) < text::offset(s, j) <==> i < j,
{
    if i <= j {
        text::lemma_offset_monotonic(s, i, j);
    } else {
        text::lemma_offset_monotonic(s, j, i);
    }
}

/// The section that a node was read from.
pub proof fn lemma_node_section(path: Option<Seq<char>>, s: Seq<char>, nodes: Seq<NodeView>, k: int) -> (
lo: int)
    requires
        parser::parsed(path, s) == Ok::<Seq<NodeView>, Seq<ErrorView>>(nodes),
        0 <= k < nodes.len(),
    ensures
        formatting::is_clean_section(path, s, lo),
        nodes[k].title == parser::title_of(s, lo),
        nodes[k].links == parser::node_at(s, lo).links,
        nodes[k].title_span == parser::node_at(s, lo).title_span,
        nodes[k].span == parser::node_at(s, lo).span,
        nodes[k].content == parser::node_at(s, lo).content,
{
    formatting::lemma_next_section(s, 0);
    let before = Outline { nodes: Seq::empty(), errors: parser::stray_errors(path, s) };
    formatting::lemma_outline(path, s, parser::next_title_line(s, 0), before);
    let found = parser::outline(path, s).nodes;
    assert(nodes == scoring::scored(found));
    assert(formatting::is_read_from(path, s, found[k]));
    choose|lo: int| #[trigger]
        formatting::is_clean_section(path, s, lo) && found[k] == parser::node_at(s, lo)
}

/// The node that was read from a section.
pub proof fn lemma_node_of_section(
    path: Option<Seq<char>>,
    s: Seq<char>,
    nodes: Seq<NodeView>,
    lo: int,
) -> (k: int)
    requires
        parser::parsed(path, s) == Ok::<Seq<NodeView>, Seq<ErrorView>>(nodes),
        formatting::is_section(s, lo),
    ensures
        formatting::is_clean_section(path, s, lo),
        0 <= k < nodes.len(),
        nodes[k].title == parser::title_of(s, lo),
        nodes[k].links == parser::node_at(s, lo).links,
        nodes[k].title_span == parser::node_at(s, lo).title_span,
{
    formatting::lemma_next_section(s, 0);
    let first = parser::next_title_line(s, 0);
    lemma_title_line_found(s, 0, lo);
    let before = Outline { nodes: Seq::empty(), errors: parser::stray_errors(path, s) };
    let found = parser::outline(path, s).nodes;
    assert(nodes == scoring::scored(found));
    let k = lemma_section_node(path, s, first, before, lo);
    assert(found[k] == parser::node_at(s, lo));
    k
}

/// The links of a parsed wiki lie in its source one after the other.
pub proof fn lemma_links_lie_in_order(path: Option<Seq<char>>, s: Seq<char>, nodes: Seq<NodeView>)
    requires
        parser::parsed(path, s) == Ok::<Seq<NodeView>, Seq<ErrorView>>(nodes),
    ensures
        ranges::links_in_order(validator::all_links(nodes)),
        forall|k: int|
            0 <= k < validator::all_links(nodes).len() ==> ranges::is_delimited(
                s,
                (#[trigger] validator::all_links(nodes)[k]).span(),
            ),
{
    ranges::law_source_ranges(path, s, nodes);
    ranges::lemma_all_links_in_order(s, nodes);
}

/// Where what stands between the delimiters of a link that a change affects lies.
proof fn lemma_link_inner(s: Seq<char>, lo: int, hi: int, a: int, b: int, change: Change)
    requires
        0 <= lo <= hi <= s.len(),
        rereading::clean(s, lo, hi),
        is_changed_link(s, lo, hi, a, b, change),
        change.is_sound(),
    ensures
        a + 1 < b,
        parser::link_at(s, a, b)->Ok_0.span().start + 1 == text::offset(s, a + 1),
        parser::link_at(s, a, b)->Ok_0.span().end - 1 == text::offset(s, b),
{
    lemma_inside_ok(s, lo, hi, a, b);
    lemma_writes_well(s, lo, hi, a, b, change);
    text::lemma_offset_step(s, a);
    text::lemma_offset_step(s, b);
}

/// Whether a change covers an index of a section.
pub open spec fn is_touched(s: Seq<char>, at: int, change: Change, i: int) -> bool {
    ||| parser::title_start(s, at) <= i < parser::title_end(s, at)
        && change.retitles(parser::title_of(s, at))
    ||| is_inside(s, parser::content_start(s, at), parser::content_end(s, at), change, i)
}

/// What a change covers of a section lies in the section.
proof fn lemma_touched_in_section(
    path: Option<Seq<char>>,
    s: Seq<char>,
    at: int,
    change: Change,
    i: int,
)
    requires
        formatting::is_clean_section(path, s, at),
        is_touched(s, at, change, i),
    ensures
        at <= i < section_end(s, at),
        i < s.len(),
{
    lemma_section_parts(path, s, at);
}
/// Whether every range that is replaced lies in what a change covers.
pub open spec fn stays_within(
    path: Option<Seq<char>>,
    s: Seq<char>,
    spans: Seq<Span>,
    change: Change,
) -> bool {
    forall|x: int, i: int|
        0 <= x < spans.len() && 0 <= i < s.len() && #[trigger] is_hit(spans[x], text::offset(s, i))
            ==> exists|at: int| #[trigger]
            formatting::is_clean_section(path, s, at) && is_touched(s, at, change, i)
}

/// Whether a range is replaced by a text.
pub open spec fn has_range(
    spans: Seq<Span>,
    texts: Seq<Seq<char>>,
    span: Span,
    new_text: Seq<char>,
) -> bool {
    exists|x: int| 0 <= x < spans.len() && #[trigger] spans[x] == span && texts[x] == new_text
}

/// Whether the titles that a change is about are replaced.
pub open spec fn covers_titles(
    path: Option<Seq<char>>,
    s: Seq<char>,
    spans: Seq<Span>,
    texts: Seq<Seq<char>>,
    change: Change,
) -> bool {
    forall|lo: int| #[trigger]
        formatting::is_clean_section(path, s, lo) && change.retitles(parser::title_of(s, lo))
            ==> has_range(
            spans,
            texts,
            error::span_of(s, parser::title_start(s, lo), parser::title_end(s, lo)),
            change.new_title(parser::title_of(s, lo)),
        )
}

/// Whether what stands between the delimiters of the links that a change affects is replaced.
pub open spec fn covers_links(
    path: Option<Seq<char>>,
    s: Seq<char>,
    spans: Seq<Span>,
    texts: Seq<Seq<char>>,
    change: Change,
) -> bool {
    forall|lo: int, a: int, b: int|
        formatting::is_clean_section(path, s, lo) && #[trigger] is_changed_link(
            s,
            parser::content_start(s, lo),
            parser::content_end(s, lo),
            a,
            b,
            change,
        ) ==> has_range(spans, texts, error::span_of(s, a + 1, b), change.written(s, a, b))
}

/// Whether replacing ranges by texts carries out a change.
pub open spec fn carries_out(
    path: Option<Seq<char>>,
    s: Seq<char>,
    spans: Seq<Span>,
    texts: Seq<Seq<char>>,
    change: Change,
) -> bool {
    &&& are_apart(spans)
    &&& stays_within(path, s, spans, change)
    &&& covers_titles(path, s, spans, texts, change)
    &&& covers_links(path, s, spans, texts, change)
}

/// What a change does not cover stays what it is.
proof fn lemma_change_keeps(
    path: Option<Seq<char>>,
    s: Seq<char>,
    spans: Seq<Span>,
    texts: Seq<Seq<char>>,
    change: Change,
    i: int,
)
    requires
        are_apart(spans),
        stays_within(path, s, spans, change),
        0 <= i < s.len(),
        forall|at: int| #[trigger]
            formatting::is_clean_section(path, s, at) ==> !is_touched(s, at, change, i),
    ensures
        replaced_char(s, spans, texts, i) == seq![s[i]],
{
    assert forall|x: int| 0 <= x < spans.len() implies !is_hit(
        #[trigger] spans[x],
        text::offset(s, i),
    ) by {
        if is_hit(spans[x], text::offset(s, i)) {
            let at = choose|at: int| #[trigger]
                formatting::is_clean_section(path, s, at) && is_touched(s, at, change, i);
            assert(formatting::is_clean_section(path, s, at));
        }
    }
    lemma_char_kept(s, spans, texts, i);
}

/// What a change does not cover of a section stays what it is.
proof fn lemma_change_keeps_in_section(
    path: Option<Seq<char>>,
    s: Seq<char>,
    spans: Seq<Span>,
    texts: Seq<Seq<char>>,
    change: Change,
    lo: int,
    i: int,
)
    requires
        are_apart(spans),
        stays_within(path, s, spans, change),
        formatting::is_clean_section(path, s, lo),
        lo <= i < section_end(s, lo),
        0 <= i < s.len(),
        !is_touched(s, lo, change, i),
    ensures
        replaced_char(s, spans, texts, i) == seq![s[i]],
{
    assert forall|at: int| #[trigger] formatting::is_clean_section(path, s, at) implies !is_touched(
        s,
        at,
        change,
        i,
    ) by {
        if is_touched(s, at, change, i) {
            lemma_touched_in_section(path, s, at, change, i);
            lemma_one_section(s, at, lo, i);
        }
    }
    lemma_change_keeps(path, s, spans, texts, change, i);
}

/// A range that is replaced by a text becomes that text.
proof fn lemma_range_replaced(
    s: Seq<char>,
    spans: Seq<Span>,
    texts: Seq<Seq<char>>,
    from: int,
    to: int,
    new_text: Seq<char>,
)
    requires
        are_apart(spans),
        0 <= from < to <= s.len(),
        has_range(spans, texts, error::span_of(s, from, to), new_text),
    ensures
        replaced_chars(s, spans, texts)[from] == new_text,
        forall|i: int|
            from < i < to ==> (#[trigger] replaced_chars(s, spans, texts)[i]).len() == 0,
{
    let pieces = replaced_chars(s, spans, texts);
    let span = error::span_of(s, from, to);
    let x = choose|x: int|
        0 <= x < spans.len() && #[trigger] spans[x] == span && texts[x] == new_text;
    lemma_char_replaced(s, spans, texts, x, from);
    assert forall|i: int| from < i < to implies (#[trigger] pieces[i]).len() == 0 by {
        lemma_offset_order(s, from, i);
        lemma_offset_order(s, i, to);
        lemma_char_dropped(s, spans, texts, x, i);
    }
}

/// Replacing ranges carries out a change in a section.
proof fn lemma_change_in_section(
    path: Option<Seq<char>>,
    s: Seq<char>,
    spans: Seq<Span>,
    texts: Seq<Seq<char>>,
    change: Change,
    lo: int,
)
    requires
        carries_out(path, s, spans, texts, change),
        change.is_sound(),
        formatting::is_clean_section(path, s, lo),
    ensures
        changes_section(s, replaced_chars(s, spans, texts), lo, change),
{
    let pieces = replaced_chars(s, spans, texts);
    let ts = parser::title_start(s, lo);
    let te = parser::title_end(s, lo);
    let cs = parser::content_start(s, lo);
    let ce = parser::content_end(s, lo);
    let next = section_end(s, lo);
    lemma_section_parts(path, s, lo);
    assert forall|i: int| lo <= i < next && !is_touched(s, lo, change, i) implies #[trigger] pieces[i]
        == seq![s[i]] by {
        lemma_change_keeps_in_section(path, s, spans, texts, change, lo, i);
    }
    assert forall|i: int|
        (lo <= i < ts || te <= i < cs || ce <= i < next) implies #[trigger] pieces[i]
        == seq![s[i]] by {
        assert(!is_touched(s, lo, change, i));
    }
    if change.retitles(parser::title_of(s, lo)) {
        lemma_range_replaced(
            s,
            spans,
            texts,
            ts,
            te,
            change.new_title(parser::title_of(s, lo)),
        );
    } else {
        assert forall|i: int| ts <= i < te implies #[trigger] pieces[i] == seq![s[i]] by {
            assert(!is_touched(s, lo, change, i));
        }
    }
    assert forall|a: int, b: int| #[trigger]
        is_changed_link(s, cs, ce, a, b, change) implies takes_text(s, pieces, a, b, change) by {
        formatting::lemma_section(path, s, lo);
        lemma_link_inner(s, cs, ce, a, b, change);
        lemma_range_replaced(s, spans, texts, a + 1, b, change.written(s, a, b));
    }
    assert forall|i: int| #[trigger] stays_outside(s, cs, ce, pieces, change, i) by {
        if cs <= i < ce && !is_inside(s, cs, ce, change, i) {
            assert(!is_touched(s, lo, change, i));
            assert(pieces[i] == seq![s[i]]);
        }
    }
}

/// Replacing ranges carries out a change in a source.
proof fn lemma_change_in_source(
    path: Option<Seq<char>>,
    s: Seq<char>,
    nodes: Seq<NodeView>,
    spans: Seq<Span>,
    texts: Seq<Seq<char>>,
    change: Change,
)
    requires
        parser::parsed(path, s) == Ok::<Seq<NodeView>, Seq<ErrorView>>(nodes),
        carries_out(path, s, spans, texts, change),
        change.is_sound(),
    ensures
        changes(s, replaced_chars(s, spans, texts), change),
{
    let pieces = replaced_chars(s, spans, texts);
    formatting::lemma_next_section(s, 0);
    let first = parser::next_title_line(s, 0);
    assert forall|i: int| 0 <= i < first implies #[trigger] pieces[i] == seq![s[i]] by {
        assert forall|at: int| #[trigger]
            formatting::is_clean_section(path, s, at) implies !is_touched(s, at, change, i) by {
            if is_touched(s, at, change, i) {
                lemma_touched_in_section(path, s, at, change, i);
                lemma_title_line_found(s, 0, at);
            }
        }
        lemma_change_keeps(path, s, spans, texts, change, i);
    }
    assert forall|lo: int| #[trigger] formatting::is_section(s, lo) implies changes_section(
        s,
        pieces,
        lo,
        change,
    ) by {
        let k = lemma_node_of_section(path, s, nodes, lo);
        lemma_change_in_section(path, s, spans, texts, change, lo);
    }
}

/// A source in which a change has been carried out reads as the same nodes in the same order, but for the
/// change. It may have another name when it is read again.
pub proof fn lemma_changed_source_reads(
    path: Option<Seq<char>>,
    s: Seq<char>,
    nodes: Seq<NodeView>,
    spans: Seq<Span>,
    texts: Seq<Seq<char>>,
    change: Change,
    other: Option<Seq<char>>,
)
    requires
        parser::parsed(path, s) == Ok::<Seq<NodeView>, Seq<ErrorView>>(nodes),
        carries_out(path, s, spans, texts, change),
        change.is_sound(),
        change.keeps_apart(nodes),
    ensures
        parser::parsed(other, replaced_ranges(s, spans, texts)) is Ok,
        all_changed(parser::parsed(other, replaced_ranges(s, spans, texts))->Ok_0, nodes, change),
{
    let pieces = replaced_chars(s, spans, texts);
    let t = replaced_ranges(s, spans, texts);
    let found = parser::outline(path, s).nodes;
    assert(nodes == scoring::scored(found));
    lemma_change_in_source(path, s, nodes, spans, texts, change);
    assert(change.keeps_apart(found)) by {
        if let Change::Title { old, new } = change {
            if wiki::has_title(found, new) {
                let k = choose|k: int| 0 <= k < found.len() && #[trigger] found[k].title == new;
                assert(nodes[k].title == new);
            }
        }
    }
    lemma_changed_reads(path, s, pieces, change);
    formatting::law_parsing_ignores_names(path, other, t);
    let read = parser::outline(path, t).nodes;
    let again = parser::parsed(other, t)->Ok_0;
    assert(again == scoring::scored(read));
    assert forall|i: int| 0 <= i < again.len() implies is_changed(
        #[trigger] again[i],
        nodes[i],
        change,
    ) by {
        assert(is_changed(read[i], found[i], change));
    }
}

/// Where a link that a change affects stands.
pub proof fn lemma_changed_link_place(
    path: Option<Seq<char>>,
    s: Seq<char>,
    nodes: Seq<NodeView>,
    change: Change,
    m: int,
) -> (place: (int, int, int))
    requires
        parser::parsed(path, s) == Ok::<Seq<NodeView>, Seq<ErrorView>>(nodes),
        change.is_sound(),
        0 <= m < validator::all_links(nodes).len(),
        change.affects(validator::all_links(nodes)[m]),
    ensures
        ({
            let (at, a, b) = place;
            let link = validator::all_links(nodes)[m];
            &&& formatting::is_clean_section(path, s, at)
            &&& is_changed_link(
                s,
                parser::content_start(s, at),
                parser::content_end(s, at),
                a,
                b,
                change,
            )
            &&& 0 <= a
            &&& a + 1 < b < s.len()
            &&& parser::link_at(s, a, b) == Ok::<LinkView, Seq<char>>(link)
            &&& link.span().start + 1 == text::offset(s, a + 1)
            &&& link.span().end - 1 == text::offset(s, b)
        }),
{
    let links = validator::all_links(nodes);
    validator::lemma_all_links_come_from(nodes, m);
    let (j, q) = choose|j: int, q: int|
        0 <= j < nodes.len() && 0 <= q < nodes[j].links.len() && links[m]
            == #[trigger] nodes[j].links[q];
    let at = lemma_node_section(path, s, nodes, j);
    let cs = parser::content_start(s, at);
    let ce = parser::content_end(s, at);
    formatting::lemma_section(path, s, at);
    let (a, b) = lemma_listed_link(s, cs, ce, q);
    lemma_link_inner(s, cs, ce, a, b, change);
    (at, a, b)
}

/// A range between the delimiters of a link that a change affects lies in what the change covers.
pub proof fn lemma_link_range_within(
    path: Option<Seq<char>>,
    s: Seq<char>,
    nodes: Seq<NodeView>,
    change: Change,
    m: int,
    i: int,
) -> (at: int)
    requires
        parser::parsed(path, s) == Ok::<Seq<NodeView>, Seq<ErrorView>>(nodes),
        change.is_sound(),
        0 <= m < validator::all_links(nodes).len(),
        change.affects(validator::all_links(nodes)[m]),
        0 <= i < s.len(),
        validator::all_links(nodes)[m].span().start + 1 <= text::offset(s, i)
            < validator::all_links(nodes)[m].span().end - 1,
    ensures
        formatting::is_clean_section(path, s, at),
        is_touched(s, at, change, i),
{
    let (at, a, b) = lemma_changed_link_place(path, s, nodes, change, m);
    lemma_offset_order(s, a + 1, i);
    lemma_offset_order(s, i, b);
    assert(is_changed_link(
        s,
        parser::content_start(s, at),
        parser::content_end(s, at),
        a,
        b,
        change,
    ) && a < i < b);
    at
}

/// A link of a section that a change affects is among the links of the wiki.
pub proof fn lemma_changed_link_listed(
    path: Option<Seq<char>>,
    s: Seq<char>,
    nodes: Seq<NodeView>,
    change: Change,
    lo: int,
    a: int,
    b: int,
) -> (m: int)
    requires
        parser::parsed(path, s) == Ok::<Seq<NodeView>, Seq<ErrorView>>(nodes),
        change.is_sound(),
        formatting::is_clean_section(path, s, lo),
        is_changed_link(
            s,
            parser::content_start(s, lo),
            parser::content_end(s, lo),
            a,
            b,
            change,
        ),
    ensures
        0 <= m < validator::all_links(nodes).len(),
        ({
            let link = validator::all_links(nodes)[m];
            &&& parser::link_at(s, a, b) == Ok::<LinkView, Seq<char>>(link)
            &&& change.affects(link)
            &&& link.span().start + 1 == text::offset(s, a + 1)
            &&& link.span().end - 1 == text::offset(s, b)
        }),
{
    let links = validator::all_links(nodes);
    let cs = parser::content_start(s, lo);
    let ce = parser::content_end(s, lo);
    formatting::lemma_section(path, s, lo);
    lemma_link_inner(s, cs, ce, a, b, change);
    let k = lemma_node_of_section(path, s, nodes, lo);
    let q = lemma_link_listed(s, cs, ce, a, b);
    validator::lemma_all_links_contain(nodes, k, q);
    choose|m: int| 0 <= m < links.len() && #[trigger] links[m] == nodes[k].links[q]
}

/// The range of the title of a node is not empty.
pub proof fn lemma_title_holds_something(
    path: Option<Seq<char>>,
    s: Seq<char>,
    nodes: Seq<NodeView>,
    r: int,
)
    requires
        parser::parsed(path, s) == Ok::<Seq<NodeView>, Seq<ErrorView>>(nodes),
        0 <= r < nodes.len(),
    ensures
        nodes[r].title_span.start < nodes[r].title_span.end,
{
    let lo = lemma_node_section(path, s, nodes, r);
    lemma_section_parts(path, s, lo);
    lemma_offset_order(s, parser::title_start(s, lo), parser::title_end(s, lo));
}

} // verus!
