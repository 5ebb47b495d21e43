//! What reading a source takes in: every title line and every link of it, and all of its text.

use vstd::prelude::*;

use crate::changing;
use crate::error::ErrorView;
use crate::error::Span;
use crate::formatting;
use crate::parser;
use crate::path_util;
use crate::placing;
use crate::rereading;
use crate::text;
use crate::wiki;
use crate::wiki::LinkView;
use crate::wiki::NodeView;

verus! {

/// Whether one of the nodes has a title.
pub open spec fn is_titled(nodes: Seq<NodeView>, title: Seq<char>) -> bool {
    exists|k: int| 0 <= k < nodes.len() && (#[trigger] nodes[k]).title == title
}

/// Every line of a parsed source that starts with a title marker and a space is the title of a node, and
/// the source starts with such a line, but for white space.
#[verifier::rlimit(40)]
#[verifier::spinoff_prover]
pub proof fn law_every_title_line_starts_a_node(
    path: Option<Seq<char>>,
    s: Seq<char>,
    nodes: Seq<NodeView>,
    lo: int,
    end: int,
)
    requires
        parser::parsed(path, s) == Ok::<Seq<NodeView>, Seq<ErrorView>>(nodes),
        0 <= lo,
        lo + 2 <= end <= s.len(),
        lo == 0 || s[lo - 1] == '\n',
        s[lo] == '#',
        s[lo + 1] == ' ',
        end == s.len() || s[end] == '\n',
        forall|j: int| lo <= j < end ==> #[trigger] s[j] != '\n',
    ensures
        is_titled(nodes, text::trimmed(s.subrange(lo + 2, end))),
{
    reveal_strlit("#");
    reveal_strlit("# ");
    assert("# "@ =~= seq!['#', ' ']);
    formatting::lemma_line_end_at(s, lo, end);
    let stop = parser::line_stop(s, lo);
    let line = s.subrange(lo, stop);
    assert(stop >= lo + 2) by {
        if stop == lo + 1 {
            assert(s[lo + 1] == '\r');
        }
    }
    assert(line.subrange(0, 2) =~= "# "@);
    assert(parser::is_title_line(s, lo));
    let k = changing::lemma_node_of_section(path, s, nodes, lo);
    changing::lemma_section_parts(path, s, lo);
    let ts = parser::title_start(s, lo);
    let te = parser::title_end(s, lo);
    let x = s.subrange(lo + 2, end);
    assert(text::trimmed(x) == nodes[k].title) by {
        assert(text::white_space('\r'));
        assert forall|j: int| te <= j < end implies text::white_space(#[trigger] s[j]) by {
            if j >= stop {
                assert(s[j] == '\r');
            }
        }
        lemma_trimmed_part(x, ts - (lo + 2), te - (lo + 2));
        assert(x.subrange(ts - (lo + 2), te - (lo + 2)) =~= s.subrange(ts, te));
    }
}

/// A text without the white space around it.
proof fn lemma_trimmed_part(x: Seq<char>, a: int, b: int)
    requires
        0 <= a < b <= x.len(),
        forall|j: int| 0 <= j < a ==> text::white_space(#[trigger] x[j]),
        forall|j: int| b <= j < x.len() ==> text::white_space(#[trigger] x[j]),
        !text::white_space(x[a]),
        !text::white_space(x[b - 1]),
    ensures
        text::trimmed(x) == x.subrange(a, b),
{
    let n = x.len() as int;
    text::lemma_trim_start_index(x, 0, n);
    let start = text::trim_start_index(x, 0, n);
    assert(start == a) by {
        if start < a {
            assert(text::white_space(x[start]));
        } else if a < start {
            assert(text::white_space(x[a]));
        }
    }
    text::lemma_trim_end_index(x, start, n);
    let end = text::trim_end_index(x, start, n);
    assert(end == b) by {
        if end < b {
            assert(text::white_space(x[b - 1]));
        } else if b < end {
            assert(text::white_space(x[end - 1]));
        }
    }
}

/// Whether one of the links of a node starts at an index of the source.
pub open spec fn has_link_from(s: Seq<char>, node: NodeView, a: int) -> bool {
    exists|k: int, b: int|
        0 <= k < node.links.len() && #[trigger] placing::is_link_from_to(s, a, b, node.links[k])
}

/// Whether one of the links of a node ends at an index of the source.
pub open spec fn has_link_to(s: Seq<char>, node: NodeView, b: int) -> bool {
    exists|k: int, a: int|
        0 <= k < node.links.len() && #[trigger] placing::is_link_from_to(s, a, b, node.links[k])
}

/// Every link that opens in content without errors is closed.
proof fn lemma_closes(s: Seq<char>, lo: int, hi: int, a: int, i: int) -> (b: int)
    requires
        0 <= lo <= i <= hi <= s.len(),
        parser::content_errors(None, s, lo, hi).len() == 0,
        parser::open_link(s, lo, i) == Some(a),
    ensures
        changing::is_content_link(s, lo, hi, a, b),
        parser::link_at(s, a, b) is Ok,
    decreases hi - i,
{
    rereading::lemma_scan_bounds(s, lo, i);
    lemma_start(s, lo, i);
    if i == hi {
        i
    } else {
        changing::lemma_clean_before(s, lo, i + 1, hi);
        rereading::lemma_clean_step(s, lo, i);
        if parser::delimiter_at(s, lo, i, ']') {
            i
        } else {
            assert(parser::open_link(s, lo, i + 1) == Some(a));
            lemma_closes(s, lo, hi, a, i + 1)
        }
    }
}

proof fn lemma_start(s: Seq<char>, lo: int, i: int)
    requires
        0 <= lo <= i <= s.len(),
    ensures
        parser::open_link(s, lo, i) matches Some(a) ==> lo <= a < i,
    decreases i - lo,
{
    if lo < i {
        lemma_start(s, lo, i - 1);
    }
}

/// In a parsed source every delimiter without a backslash before it belongs to a link: an opening one
/// between a title line and the next starts a link of the node, and a closing one ends a link of it.
#[verifier::rlimit(40)]
#[verifier::spinoff_prover]
pub proof fn law_every_delimiter_belongs_to_a_link(
    path: Option<Seq<char>>,
    s: Seq<char>,
    nodes: Seq<NodeView>,
    lo: int,
    j: int,
)
    requires
        parser::parsed(path, s) == Ok::<Seq<NodeView>, Seq<ErrorView>>(nodes),
        formatting::is_section(s, lo),
        parser::next_line(s, lo) <= j < parser::next_title_line(s, parser::next_line(s, lo)),
    ensures
        exists|i: int|
            {
                &&& 0 <= i < nodes.len()
                &&& (#[trigger] nodes[i]).title == parser::title_of(s, lo)
                &&& placing::is_bare(s, j, '[') ==> has_link_from(s, nodes[i], j)
                &&& placing::is_bare(s, j, ']') ==> has_link_to(s, nodes[i], j)
            },
{
    let i = changing::lemma_node_of_section(path, s, nodes, lo);
    changing::lemma_section_parts(path, s, lo);
    formatting::lemma_section(path, s, lo);
    let cs = parser::content_start(s, lo);
    let ce = parser::content_end(s, lo);
    assert(!text::white_space('['));
    assert(!text::white_space(']'));
    if placing::is_bare(s, j, '[') || placing::is_bare(s, j, ']') {
        assert(cs <= j < ce) by {
            if j < cs {
                assert(text::white_space(s[j]));
            } else if j >= ce {
                assert(text::white_space(s[j]));
            }
        }
        changing::lemma_clean_before(s, cs, j + 1, ce);
        rereading::lemma_clean_step(s, cs, j);
        rereading::lemma_scan_bounds(s, cs, j);
        lemma_start(s, cs, j);
    }
    if placing::is_bare(s, j, '[') {
        assert(parser::delimiter_at(s, cs, j, '['));
        assert(parser::open_link(s, cs, j) is None);
        assert(parser::open_link(s, cs, j + 1) == Some(j));
        let b = lemma_closes(s, cs, ce, j, j + 1);
        let k = changing::lemma_link_listed(s, cs, ce, j, b);
        placing::lemma_content_link(path, s, lo, j, b);
        assert(placing::is_link_from_to(s, j, b, nodes[i].links[k]));
    }
    if placing::is_bare(s, j, ']') {
        assert(parser::delimiter_at(s, cs, j, ']'));
        let a = parser::open_link(s, cs, j)->0;
        let k = changing::lemma_link_listed(s, cs, ce, a, j);
        placing::lemma_content_link(path, s, lo, a, j);
        assert(placing::is_link_from_to(s, a, j, nodes[i].links[k]));
    }
    assert(nodes[i].title == parser::title_of(s, lo));
}

/// A text without its white space, but with its line feeds.
pub open spec fn solid(s: Seq<char>) -> Seq<char>
    decreases s.len(),
{
    if s.len() == 0 {
        Seq::empty()
    } else if text::white_space(s.last()) && s.last() != '\n' {
        solid(s.drop_last())
    } else {
        solid(s.drop_last()).push(s.last())
    }
}

proof fn lemma_solid_joined(a: Seq<char>, b: Seq<char>)
    ensures
        solid(a + b) == solid(a) + solid(b),
    decreases b.len(),
{
    if b.len() == 0 {
        assert(a + b =~= a);
        assert(solid(a) + solid(b) =~= solid(a));
    } else {
        assert((a + b).drop_last() =~= a + b.drop_last());
        lemma_solid_joined(a, b.drop_last());
        assert(solid(a + b) =~= solid(a) + solid(b));
    }
}

proof fn lemma_solid_space(a: Seq<char>)
    requires
        forall|j: int| 0 <= j < a.len() ==> text::white_space(#[trigger] a[j]) && a[j] != '\n',
    ensures
        solid(a) == Seq::<char>::empty(),
    decreases a.len(),
{
    if a.len() > 0 {
        assert(a.last() == a[a.len() - 1]);
        assert forall|j: int| 0 <= j < a.drop_last().len() implies text::white_space(
            #[trigger] a.drop_last()[j],
        ) && a.drop_last()[j] != '\n' by {
            assert(a.drop_last()[j] == a[j]);
        }
        lemma_solid_space(a.drop_last());
    }
}

proof fn lemma_solid_normalized(s: Seq<char>, i: int)
    requires
        0 <= i <= s.len(),
    ensures
        solid(parser::normalized_from(s, i)) == solid(s.skip(i)),
    decreases s.len() - i,
{
    if i < s.len() {
        lemma_solid_normalized(s, i + 1);
        let one = seq![s[i]];
        assert(s.skip(i) =~= one + s.skip(i + 1));
        lemma_solid_joined(one, s.skip(i + 1));
        if parser::ends_line(s, i) {
            lemma_solid_space(one);
            assert(solid(one) + solid(s.skip(i + 1)) =~= solid(s.skip(i + 1)));
        } else {
            lemma_solid_joined(one, parser::normalized_from(s, i + 1));
        }
    } else {
        assert(s.skip(i) =~= Seq::<char>::empty());
    }
}

proof fn lemma_solid_trimmed(x: Seq<char>)
    requires
        !x.contains('\n'),
    ensures
        solid(text::trimmed(x)) == solid(x),
{
    let n = x.len() as int;
    text::lemma_trim_start_index(x, 0, n);
    let a = text::trim_start_index(x, 0, n);
    text::lemma_trim_end_index(x, a, n);
    let b = text::trim_end_index(x, a, n);
    let before = x.subrange(0, a);
    let after = x.subrange(b, n);
    let mid = x.subrange(a, b);
    assert(text::trimmed(x) == mid);
    assert forall|j: int| 0 <= j < before.len() implies text::white_space(#[trigger] before[j])
        && before[j] != '\n' by {
        assert(before[j] == x[j]);
        assert(x.contains(x[j]));
    }
    assert forall|j: int| 0 <= j < after.len() implies text::white_space(#[trigger] after[j])
        && after[j] != '\n' by {
        assert(after[j] == x[b + j]);
        assert(x.contains(x[b + j]));
    }
    lemma_solid_space(before);
    lemma_solid_space(after);
    assert(x =~= before + mid + after);
    lemma_solid_joined(before + mid, after);
    lemma_solid_joined(before, mid);
    assert(solid(before) + solid(mid) + solid(after) =~= solid(mid));
}

/// Whether none of the links is a filesystem link.
pub open spec fn are_text_links(links: Seq<LinkView>) -> bool {
    forall|k: int| 0 <= k < links.len() ==> (#[trigger] links[k]) is Text
}

/// What a target is does not depend on where it stands.
proof fn lemma_kind_anywhere(target: Seq<char>, span: Span)
    requires
        parser::link_of(target, span) matches Ok(link) && link is Text,
    ensures
        !parser::is_filesystem_target(target),
{
}

#[verifier::rlimit(40)]
#[verifier::spinoff_prover]
proof fn lemma_solid_before(s: Seq<char>, lo: int, hi: int, i: int)
    requires
        0 <= lo <= i <= hi <= s.len(),
        parser::content_errors(None, s, lo, hi).len() == 0,
        are_text_links(parser::links_before(s, lo, i)),
    ensures
        solid(parser::text_before(s, lo, i)) == solid(
            s.subrange(lo, parser::prose_start(s, lo, i)),
        ),
    decreases i - lo,
{
    reveal_strlit("]");
    rereading::lemma_scan_bounds(s, lo, i);
    if i == lo {
        assert(s.subrange(lo, lo) =~= Seq::<char>::empty());
    } else {
        let j = i - 1;
        let links = parser::links_before(s, lo, j);
        let all = parser::links_before(s, lo, i);
        assert forall|k: int| 0 <= k < links.len() implies (#[trigger] links[k]) is Text by {
            assert(all[k] == links[k]);
        }
        rereading::lemma_scan_bounds(s, lo, j);
        lemma_solid_before(s, lo, hi, j);
        lemma_start(s, lo, j);
        if let Some(a) = parser::open_link(s, lo, j) {
            if parser::delimiter_at(s, lo, j, ']') {
                changing::lemma_clean_before(s, lo, i, hi);
                rereading::lemma_clean_step(s, lo, j);
                assert(changing::is_content_link(s, lo, hi, a, j));
                changing::lemma_inside_ok(s, lo, hi, a, j);
                let link = parser::link_at(s, a, j)->Ok_0;
                assert(all == links.push(link));
                assert(all[links.len() as int] is Text);
                let inner = s.subrange(a + 1, j);
                assert(!inner.contains('\n')) by {
                    if inner.contains('\n') {
                        let k = choose|k: int| 0 <= k < inner.len() && inner[k] == '\n';
                        assert(s[a + 1 + k] == '\n');
                    }
                }
                let x = text::trimmed(inner);
                let ps = parser::prose_start(s, lo, j);
                let prose = s.subrange(ps, a + 1);
                lemma_kind_anywhere(wiki::unescaped(x), crate::error::span_of(s, a, j + 1));
                assert(parser::written_link(x) == x);
                lemma_solid_trimmed(inner);
                lemma_solid_normalized(prose, 0);
                assert(prose.skip(0) =~= prose);
                let before = parser::text_before(s, lo, j);
                lemma_solid_joined(before + parser::normalized(prose) + x, "]"@);
                lemma_solid_joined(before + parser::normalized(prose), x);
                lemma_solid_joined(before, parser::normalized(prose));
                let done = s.subrange(lo, ps);
                assert(s.subrange(lo, i) =~= done + prose + inner + "]"@);
                lemma_solid_joined(done + prose + inner, "]"@);
                lemma_solid_joined(done + prose, inner);
                lemma_solid_joined(done, prose);
            }
        }
    }
}

/// Reading keeps all of the text of a node that has no filesystem links: its content has the characters
/// between the title line and the next one in the same order, but for white space, and no line is joined
/// with another or split.
pub proof fn law_text_is_kept(
    path: Option<Seq<char>>,
    s: Seq<char>,
    nodes: Seq<NodeView>,
    i: int,
)
    requires
        parser::parsed(path, s) == Ok::<Seq<NodeView>, Seq<ErrorView>>(nodes),
        0 <= i < nodes.len(),
        are_text_links(nodes[i].links),
    ensures
        exists|from: int, to: int| #[trigger] is_text_from_to(s, from, to, nodes[i]),
{
    let lo = changing::lemma_node_section(path, s, nodes, i);
    changing::lemma_section_parts(path, s, lo);
    formatting::lemma_section(path, s, lo);
    let cs = parser::content_start(s, lo);
    let ce = parser::content_end(s, lo);
    rereading::lemma_scan_bounds(s, cs, ce);
    lemma_solid_before(s, cs, ce, ce);
    let ps = parser::prose_start(s, cs, ce);
    let prose = s.subrange(ps, ce);
    lemma_solid_normalized(prose, 0);
    assert(prose.skip(0) =~= prose);
    lemma_solid_joined(parser::text_before(s, cs, ce), parser::normalized(prose));
    assert(s.subrange(cs, ce) =~= s.subrange(cs, ps) + prose);
    lemma_solid_joined(s.subrange(cs, ps), prose);
    assert(is_text_from_to(s, cs, ce, nodes[i]));
}

/// Whether the text between two indices is that of a node: there is nothing but white space between its
/// title line and the first index, and between the second one and the next title line.
pub open spec fn is_text_from_to(s: Seq<char>, from: int, to: int, node: NodeView) -> bool {
    exists|lo: int|
        {
            let first = #[trigger] parser::next_line(s, lo);
            &&& formatting::is_section(s, lo)
            &&& parser::title_of(s, lo) == node.title
            &&& first <= from <= to <= parser::next_title_line(s, first) <= s.len()
            &&& forall|j: int| first <= j < from ==> text::white_space(#[trigger] s[j])
            &&& forall|j: int|
                to <= j < parser::next_title_line(s, first) ==> text::white_space(#[trigger] s[j])
            &&& solid(node.content) == solid(s.subrange(from, to))
        }
}

/// A link target is read by its prefix: a file after `file:`, a directory after `dir:`, after `/` a
/// directory if there is another separator at the end or nothing else and a file otherwise, and a title
/// without any of these. A path is refused if it is empty, absolute, or leads upward, and what it leads to
/// has its names as components.
#[verifier::rlimit(40)]
#[verifier::spinoff_prover]
pub proof fn law_targets_are_read_by_their_prefixes(target: Seq<char>, span: Span, rest: Seq<char>)
    ensures
        target == seq!['d', 'i', 'r', ':'] + rest ==> match parser::link_of(target, span) {
            Ok(link) => link matches LinkView::Directory { path, span: place } && place == span
                && stands_for(text::trimmed_start(rest), path),
            Err(message) => is_refused(text::trimmed_start(rest)),
        },
        target == seq!['f', 'i', 'l', 'e', ':'] + rest ==> match parser::link_of(target, span) {
            Ok(link) => link matches LinkView::File { path, span: place } && place == span
                && stands_for(text::trimmed_start(rest), path),
            Err(message) => is_refused(text::trimmed_start(rest)),
        },
        target == seq!['/'] ==> parser::link_of(target, span) == Ok::<LinkView, Seq<char>>(
            LinkView::Directory { path: Seq::empty(), span },
        ),
        rest.len() > 0 && rest.last() == '/' && target == seq!['/'] + rest ==> match parser::link_of(
            target,
            span,
        ) {
            Ok(link) => link matches LinkView::Directory { path, span: place } && place == span
                && stands_for(rest, path),
            Err(message) => is_refused(rest),
        },
        rest.len() > 0 && rest.last() != '/' && target == seq!['/'] + rest ==> match parser::link_of(
            target,
            span,
        ) {
            Ok(link) => link matches LinkView::File { path, span: place } && place == span
                && stands_for(rest, path),
            Err(message) => is_refused(rest),
        },
        !seq!['/'].is_prefix_of(target) && !seq!['d', 'i', 'r', ':'].is_prefix_of(target) && !seq![
            'f',
            'i',
            'l',
            'e',
            ':',
        ].is_prefix_of(target) ==> parser::link_of(target, span) == Ok::<LinkView, Seq<char>>(
            LinkView::Text { title: target, span },
        ),
{
    reveal_strlit("file:");
    reveal_strlit("dir:");
    reveal_strlit("/");
    assert("file:"@ =~= seq!['f', 'i', 'l', 'e', ':']);
    assert("dir:"@ =~= seq!['d', 'i', 'r', ':']);
    if target == "dir:"@ + rest {
        assert(target[0] == 'd');
        assert(!text::starts_with(target, "file:"@)) by {
            if text::starts_with(target, "file:"@) {
                assert(target.subrange(0, 5)[0] == 'f');
            }
        }
        assert(target.subrange(0, 4) =~= "dir:"@);
        assert(target.skip(4) =~= rest);
        lemma_stands_for(text::trimmed_start(rest));
    }
    assert("/"@ =~= seq!['/']);
    if target == "/"@ || target == "/"@ + rest {
        assert(target[0] == '/');
        assert(!text::starts_with(target, "file:"@)) by {
            if text::starts_with(target, "file:"@) {
                assert(target.subrange(0, 5)[0] == 'f');
            }
        }
        assert(!text::starts_with(target, "dir:"@)) by {
            if text::starts_with(target, "dir:"@) {
                assert(target.subrange(0, 4)[0] == 'd');
            }
        }
        assert(target.subrange(0, 1) =~= "/"@);
        if target == "/"@ {
            assert(target.skip(1) =~= Seq::<char>::empty());
        } else {
            assert(target.skip(1) =~= rest);
            lemma_stands_for(rest);
        }
    }
    if target == "file:"@ + rest {
        assert(target.subrange(0, 5) =~= "file:"@);
        assert(target.skip(5) =~= rest);
        lemma_stands_for(text::trimmed_start(rest));
    }
}

/// Whether a path below a directory cannot be written in a link.
pub open spec fn is_refused(path: Seq<char>) -> bool {
    path.len() == 0 || path[0] == '/' || path_util::components(path).contains(seq!['.', '.'])
}

/// Whether a path is what another one stands for below a directory.
pub open spec fn stands_for(written: Seq<char>, path: Seq<char>) -> bool {
    !is_refused(written) && path_util::components(path) == path_util::names_below(written)
}

proof fn lemma_stands_for(written: Seq<char>)
    ensures
        match parser::filesystem_path(written) {
            Ok(path) => stands_for(written, path),
            Err(message) => is_refused(written),
        },
{
    reveal_strlit("");
    reveal_strlit("..");
    assert(".."@ =~= seq!['.', '.']);
    if let Ok(path) = parser::filesystem_path(written) {
        let names = path_util::names_below(written);
        path_util::lemma_names_below(written);
        if names.len() > 0 {
            path_util::lemma_names_again(""@, names, ""@);
            assert(""@ + path + ""@ =~= path);
        } else {
            assert(path_util::bounds_from(path, 0).len() == 0);
            assert(path_util::components(path) =~= names);
        }
    }
}

} // verus!
