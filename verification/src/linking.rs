//! What formatting leaves of a link: it stands for the same, and formatting it again changes nothing.

use vstd::prelude::*;

use crate::error::Span;
use crate::parser;
use crate::path_util;
use crate::phrase;
use crate::text;
use crate::wiki;

verus! {

/// The end of names in a row is the last of them.
proof fn lemma_row_end(names: Seq<Seq<char>>)
    requires
        names.len() > 0,
        path_util::are_names(names),
    ensures
        ({
            let row = phrase::joined(names, "/"@);
            &&& row.len() > 0
            &&& row.last() != '/'
            &&& !parser::ends_with_here(row)
            &&& !text::starts_with(row, "./"@)
            &&& row != "."@
        }),
{
    reveal_strlit("/");
    reveal_strlit(".");
    reveal_strlit("./");
    let row = phrase::joined(names, "/"@);
    let last = names.last();
    let first = names[0];
    path_util::lemma_joined_ends(names);
    assert(names[names.len() - 1] == last);
    let n = row.len() as int;
    let m = last.len() as int;
    assert(row.subrange(n - m, n) =~= last);
    assert(last.contains(last[m - 1]));
    if parser::ends_with_here(row) {
        if m >= 2 {
            assert(row.subrange(n - m, n)[m - 2] == row[n - 2]);
            assert(last.contains(last[m - 2]));
        } else {
            assert(last =~= "."@);
        }
    }
    if row == "."@ {
        if m == 1 {
            assert(last =~= "."@);
        }
    }
    if text::starts_with(row, "./"@) {
        assert(row.subrange(0, 2)[0] == row[0] && row.subrange(0, 2)[1] == row[1]);
        lemma_row_start(names);
        if first.len() >= 2 {
            assert(row.subrange(0, first.len() as int)[1] == row[1]);
            assert(first.contains(first[1]));
        } else {
            assert(first =~= "."@);
        }
    }
}

/// The start of names in a row is the first of them.
proof fn lemma_row_start(names: Seq<Seq<char>>)
    requires
        names.len() > 0,
    ensures
        names[0].len() <= phrase::joined(names, "/"@).len(),
        phrase::joined(names, "/"@).subrange(0, names[0].len() as int) == names[0],
    decreases names.len(),
{
    let row = phrase::joined(names, "/"@);
    if names.len() > 1 {
        let front = names.drop_last();
        lemma_row_start(front);
        let before = phrase::joined(front, "/"@);
        assert(row.subrange(0, names[0].len() as int) =~= before.subrange(
            0,
            names[0].len() as int,
        ));
    } else {
        assert(row.subrange(0, row.len() as int) =~= row);
    }
}

/// What stands in front of names in a row, and behind them, is found again.
pub proof fn lemma_path_of_names(start: Seq<char>, names: Seq<Seq<char>>, end: Seq<char>)
    requires
        names.len() > 0,
        path_util::are_names(names),
        !names.contains(".."@),
        start == ""@ || start == "./"@,
        end == ""@ || end == "/"@ || end == "/."@,
    ensures
        ({
            let row = phrase::joined(names, "/"@);
            let t = start + row + end;
            &&& parser::filesystem_path(t) == Ok::<Seq<char>, Seq<char>>(row)
            &&& path_util::normalized(t) == row
            &&& text::starts_with(t, "./"@) == (start == "./"@)
            &&& (t.last() == '/') == (end == "/"@)
            &&& parser::ends_with_here(t) == (end == "/."@)
        }),
{
    reveal_strlit("");
    reveal_strlit("/");
    reveal_strlit("/.");
    reveal_strlit(".");
    reveal_strlit("..");
    reveal_strlit("./");
    let row = phrase::joined(names, "/"@);
    let t = start + row + end;
    let n = t.len() as int;
    path_util::lemma_names_again(start, names, end);
    lemma_row_end(names);
    assert("."@.len() != ".."@.len());
    assert(!path_util::components(t).contains(".."@)) by {
        let parts = path_util::components(t);
        if parts.contains(".."@) {
            let k = choose|k: int| 0 <= k < parts.len() && parts[k] == ".."@;
            assert(parts[k] == "."@ || names.contains(parts[k]));
        }
    }
    if start == "./"@ {
        assert(t.subrange(0, 2) =~= "./"@);
    } else {
        assert(t =~= row + end);
        if text::starts_with(t, "./"@) {
            assert(t.subrange(0, 2)[0] == t[0] && t.subrange(0, 2)[1] == t[1]);
            if row.len() >= 2 {
                assert(row.subrange(0, 2) =~= "./"@);
            } else {
                assert(row =~= "."@);
            }
        }
    }
    if end == ""@ {
        assert(t =~= start + row);
        assert(t.last() == row.last());
        if parser::ends_with_here(t) {
            if row.len() >= 2 {
                assert(row[row.len() - 2] == t[n - 2]);
            } else {
                assert(row =~= "."@);
            }
        }
    } else if end == "/"@ {
        assert(t.last() == '/');
    } else {
        assert(t[n - 2] == '/' && t[n - 1] == '.');
    }
}

/// What stands in a path as it is written.
spec fn keeps_chars(w: Seq<char>, p: Seq<char>) -> bool {
    forall|c: char|
        #![trigger w.contains(c)]
        w.contains(c) ==> c == '/' || c == '.' || p.contains(c)
}

proof fn lemma_keeps_chars(start: Seq<char>, p: Seq<char>, end: Seq<char>)
    requires
        !path_util::is_absolute(p),
        start == ""@ || start == "./"@ || start == "."@,
        end == ""@ || end == "/"@ || end == "/."@,
    ensures
        keeps_chars(start + path_util::normalized(p) + end, p),
{
    reveal_strlit("");
    reveal_strlit("/");
    reveal_strlit("/.");
    reveal_strlit(".");
    reveal_strlit("./");
    let names = path_util::names_below(p);
    let row = path_util::normalized(p);
    let w = start + row + end;
    path_util::lemma_names_below(p);
    assert forall|c: char| #![trigger w.contains(c)] w.contains(c) implies c == '/' || c == '.'
        || p.contains(c) by {
        let i = choose|i: int| 0 <= i < w.len() && w[i] == c;
        let k = i - start.len();
        if 0 <= k < row.len() {
            assert(row[k] == c);
            if c != '/' {
                let m = path_util::lemma_joined_char(names, k);
                assert(names[m].contains(c));
            }
        }
    }
}

/// A path stands for the same once it has been written, and writing it again changes nothing.
proof fn lemma_written_path(p: Seq<char>)
    requires
        parser::filesystem_path(p) is Ok,
    ensures
        ({
            let w = parser::written_path(p);
            &&& parser::filesystem_path(w) == parser::filesystem_path(p)
            &&& parser::written_path(w) == w
            &&& w.len() > 0
            &&& w[0] == p[0] || w[0] == '.'
            &&& w.last() == p.last() || w.last() == '/' || w.last() == '.'
            &&& keeps_chars(w, p)
        }),
{
    reveal_strlit("");
    reveal_strlit("/");
    reveal_strlit(".");
    reveal_strlit("./");
    reveal_strlit("/.");
    reveal_strlit("..");
    let names = path_util::names_below(p);
    let row = path_util::normalized(p);
    let w = parser::written_path(p);
    let end = if p.last() == '/' || parser::ends_with_here(p) {
        "/"@
    } else {
        ""@
    };
    path_util::lemma_names_below(p);
    if names.len() == 0 {
        path_util::lemma_here();
        assert(row =~= Seq::<char>::empty());
        lemma_keeps_chars("."@, p, end);
        assert(w =~= "."@ + row + end);
        if end == "/"@ {
            assert(w =~= "./"@);
        } else {
            assert(w =~= "."@);
        }
        assert(path_util::normalized(w) =~= row);
        assert(!path_util::components(w).contains(".."@));
        assert(parser::written_path(w) =~= w);
    } else {
        let start = if text::starts_with(p, "./"@) {
            "./"@
        } else {
            ""@
        };
        path_util::lemma_joined_ends(names);
        assert(!names.contains(".."@)) by {
            if names.contains(".."@) {
                let k = choose|k: int| 0 <= k < names.len() && names[k] == ".."@;
                assert(path_util::components(p).contains(names[k]));
            }
        }
        lemma_keeps_chars(start, p, end);
        assert(w =~= start + row + end);
        lemma_path_of_names(start, names, end);
        assert(parser::written_path(w) =~= w);
        if start == ""@ {
            path_util::lemma_first_name(p);
        }
        if end == ""@ {
            path_util::lemma_last_name(p);
        }
    }
}

/// A path below the wiki's directory stands for the same once it has been written, and writing it again
/// changes nothing.
proof fn lemma_written_below(p: Seq<char>)
    requires
        p.len() > 0 ==> parser::filesystem_path(p) is Ok,
    ensures
        ({
            let w = parser::written_below(p);
            let names = path_util::normalized(p);
            &&& parser::written_below(w) == w
            &&& w.len() == 0 ==> p.len() == 0 || p.last() == '/' && names.len() == 0
            &&& w.len() > 0 ==> {
                &&& p.len() > 0
                &&& parser::filesystem_path(w) == parser::filesystem_path(p)
                &&& (w.last() == '/') == (p.last() == '/')
                &&& w.last() == p.last() || w.last() == '/' || w.last() == '.'
            }
            &&& keeps_chars(w, p)
        }),
{
    reveal_strlit("");
    reveal_strlit("/");
    reveal_strlit("/.");
    reveal_strlit(".");
    reveal_strlit("./");
    reveal_strlit("..");
    let w = parser::written_below(p);
    if p.len() > 0 {
        let names = path_util::names_below(p);
        let row = path_util::normalized(p);
        path_util::lemma_names_below(p);
        if names.len() == 0 {
            path_util::lemma_here();
            assert(row =~= Seq::<char>::empty());
            lemma_keeps_chars("."@, p, ""@);
            if p.last() == '/' {
                assert(w =~= Seq::<char>::empty());
                assert(parser::written_below(w) =~= w);
            } else {
                assert(w =~= "."@ + row + ""@);
                assert(w =~= "."@);
                assert(path_util::normalized(w) =~= row);
                assert(!path_util::components(w).contains(".."@));
                assert(parser::written_below(w) =~= w);
            }
        } else {
            let end = if p.last() == '/' {
                "/"@
            } else if parser::ends_with_here(p) {
                "/."@
            } else {
                ""@
            };
            path_util::lemma_joined_ends(names);
            assert(!names.contains(".."@)) by {
                if names.contains(".."@) {
                    let k = choose|k: int| 0 <= k < names.len() && names[k] == ".."@;
                    assert(path_util::components(p).contains(names[k]));
                }
            }
            lemma_keeps_chars(""@, p, end);
            assert(w =~= ""@ + row + end);
            lemma_path_of_names(""@, names, end);
            assert(parser::written_below(w) =~= w);
            if end == ""@ {
                path_util::lemma_last_name(p);
            }
        }
    }
}

/// A path after a prefix, without the white space in front of it.
proof fn lemma_prefixed(prefix: Seq<char>, target: Seq<char>)
    requires
        text::starts_with(target, prefix),
        parser::filesystem_path(text::trimmed_start(target.skip(prefix.len() as int))) is Ok,
    ensures
        ({
            let p = text::trimmed_start(target.skip(prefix.len() as int));
            let w = prefix + parser::written_path(p);
            &&& text::starts_with(w, prefix)
            &&& w.skip(prefix.len() as int) == parser::written_path(p)
            &&& text::trimmed_start(w.skip(prefix.len() as int)) == parser::written_path(p)
            &&& parser::filesystem_path(parser::written_path(p)) == parser::filesystem_path(p)
            &&& parser::written_path(parser::written_path(p)) == parser::written_path(p)
            &&& w.last() == target.last() || w.last() == '/' || w.last() == '.'
            &&& keeps_chars(parser::written_path(p), target)
        }),
{
    let n = prefix.len() as int;
    let rest = target.skip(n);
    let p = text::trimmed_start(rest);
    let x = parser::written_path(p);
    let w = prefix + x;
    text::lemma_trim_start_index(rest, 0, rest.len() as int);
    lemma_written_path(p);
    assert(w.subrange(0, n) =~= prefix);
    assert(w.skip(n) =~= x);
    let at = text::trim_start_index(rest, 0, rest.len() as int);
    assert(p[0] == rest[at]);
    assert(!text::white_space(x[0]));
    assert(text::trim_start_index(x, 0, x.len() as int) == 0);
    assert(text::trimmed_start(x) =~= x);
    assert(p.last() == target.last());
    assert forall|c: char| #![trigger x.contains(c)] x.contains(c) implies c == '/' || c == '.'
        || target.contains(c) by {
        if p.contains(c) {
            let i = choose|i: int| 0 <= i < p.len() && p[i] == c;
            assert(target[n + at + i] == c);
        }
    }
}

/// A filesystem target stands for the same once it has been written, and writing it again changes
/// nothing.
proof fn lemma_written_target(target: Seq<char>, span: Span)
    requires
        parser::is_filesystem_target(target),
    ensures
        ({
            let w = parser::written_target(target);
            &&& parser::link_of(w, span) == parser::link_of(target, span)
            &&& parser::is_filesystem_target(w)
            &&& parser::written_target(w) == w
            &&& w.len() > 0
            &&& !text::white_space(w[0])
            &&& w.last() == target.last() || w.last() == '/' || w.last() == '.'
            &&& forall|i: int|
                0 <= i < w.len() ==> #[trigger] w[i] != '\n' || target.contains('\n')
        }),
{
    reveal_strlit("file:");
    reveal_strlit("dir:");
    reveal_strlit("/");
    reveal_strlit("");
    reveal_strlit(".");
    let w = parser::written_target(target);
    let start = if text::starts_with(target, "file:"@) {
        lemma_prefixed("file:"@, target);
        "file:"@
    } else if text::starts_with(target, "dir:"@) {
        lemma_prefixed("dir:"@, target);
        assert(w[0] == 'd');
        if text::starts_with(w, "file:"@) {
            assert(w.subrange(0, 5)[0] == w[0]);
        }
        "dir:"@
    } else {
        let p = target.skip(1);
        let x = parser::written_below(p);
        lemma_written_below(p);
        assert(w.subrange(0, 1) =~= "/"@);
        assert(w.skip(1) =~= x);
        assert(w[0] == '/');
        if text::starts_with(w, "file:"@) {
            assert(w.subrange(0, 5)[0] == w[0]);
        }
        if text::starts_with(w, "dir:"@) {
            assert(w.subrange(0, 4)[0] == w[0]);
        }
        assert(forall|c: char| x.contains(c) && p.contains(c) ==> target.contains(c)) by {
            assert forall|c: char| x.contains(c) && p.contains(c) implies target.contains(c) by {
                let i = choose|i: int| 0 <= i < p.len() && p[i] == c;
                assert(target[1 + i] == c);
            }
        }
        if x.len() == 0 {
            assert(w.last() == '/');
            if p.len() > 0 {
                assert(path_util::normalized(p) =~= x);
            } else {
                assert(p =~= x);
            }
        } else {
            assert(w.last() == x.last());
            assert(p.last() == target.last());
        }
        "/"@
    };
    let rest = w.skip(start.len() as int);
    assert forall|i: int| 0 <= i < w.len() implies #[trigger] w[i] != '\n' || target.contains(
        '\n',
    ) by {
        if i >= start.len() {
            assert(rest[i - start.len()] == w[i]);
            assert(rest.contains(w[i]));
        } else {
            assert(w[i] == start[i]);
        }
    }
}

/// Whether what stands between the delimiters of a link ends nowhere else: it is one line without space
/// at its ends, every delimiter in it has a backslash before it, and it does not end with a backslash.
pub open spec fn stays_inside(x: Seq<char>) -> bool {
    &&& text::is_trimmed(x)
    &&& x.len() == 0 || x.last() != '\\'
    &&& forall|k: int| 0 <= k < x.len() ==> #[trigger] x[k] != '\n'
    &&& forall|k: int|
        0 <= k < x.len() && (#[trigger] x[k] == '[' || x[k] == ']') ==> k > 0 && x[k - 1] == '\\'
}

/// A link that is one line stays one once it has been written.
pub proof fn lemma_written_line(x: Seq<char>)
    requires
        text::is_trimmed(x),
        forall|k: int| 0 <= k < x.len() ==> #[trigger] x[k] != '\n',
    ensures
        forall|k: int|
            0 <= k < parser::written_link(x).len() ==> #[trigger] parser::written_link(x)[k] != '\n',
{
    let target = wiki::unescaped(x);
    if parser::is_filesystem_target(target) {
        let w = parser::written_target(target);
        wiki::lemma_unescaped_line(x);
        lemma_written_target(target, Span { start: 0, end: 0 });
        wiki::lemma_escaped_chars(w);
        assert forall|i: int| 0 <= i < w.len() implies #[trigger] w[i] != '\n' by {
            if target.contains('\n') {
                let k = choose|k: int| 0 <= k < target.len() && target[k] == '\n';
                assert(target[k] != '\n');
            }
        }
    }
}

/// Formatting a link keeps what it stands for, and formatting it again changes nothing.
pub proof fn law_written_links_keep_their_meaning(x: Seq<char>, span: Span)
    requires
        stays_inside(x),
        parser::link_of(wiki::unescaped(x), span) is Ok,
    ensures
        stays_inside(parser::written_link(x)),
        parser::link_of(wiki::unescaped(parser::written_link(x)), span) == parser::link_of(
            wiki::unescaped(x),
            span,
        ),
        parser::written_link(parser::written_link(x)) == parser::written_link(x),
{
    let target = wiki::unescaped(x);
    parser::lemma_link_span(target, span);
    if parser::is_filesystem_target(target) {
        let w = parser::written_target(target);
        wiki::lemma_unescaped_line(x);
        lemma_written_target(target, span);
        wiki::law_unescaping_undoes_escaping(w);
        wiki::lemma_escaped_chars(w);
        if x.len() == 0 {
            assert(target.len() == 0) by {
                wiki::lemma_unescaped_empty();
                assert(x =~= Seq::<char>::empty());
            }
            reveal_strlit("file:");
            reveal_strlit("dir:");
            reveal_strlit("/");
        }
        assert(target.len() > 0);
        assert(!target.contains('\n')) by {
            if target.contains('\n') {
                let i = choose|i: int| 0 <= i < target.len() && target[i] == '\n';
                assert(target[i] != '\n');
            }
        }
        wiki::lemma_unescaped_last(x);
        assert(target.last() == x.last());
        assert(!text::white_space('/') && !text::white_space('.'));
        assert(!text::white_space(w.last()));
        assert(w.last() != '\\');
        let y = wiki::escaped(w);
        assert(parser::written_link(x) == y);
        assert(y[0] == wiki::escaped_char(w[0])[0]);
        assert forall|i: int| 0 <= i < w.len() implies #[trigger] w[i] != '\n' by {}
    }
}

} // verus!
