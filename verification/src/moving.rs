//! Renaming of the files and directories that a wiki links to.

use vstd::prelude::*;

use crate::changing;
use crate::creating;
use crate::error;
use crate::error::ErrorView;
use crate::error::SourceRange;
use crate::error::Span;
use crate::formatting;
use crate::language_server;
use crate::language_server::EditView;
use crate::language_server::TextEdit;
use crate::linking;
use crate::occurrences;
use crate::parser;
use crate::parser::Outline;
use crate::path_util;
use crate::phrase;
use crate::position;
use crate::position::Position;
use crate::ranges;
use crate::rereading;
use crate::scoring;
use crate::text;
use crate::text::Text;
use crate::validator;
use crate::wiki;
use crate::wiki::Link;
use crate::wiki::LinkView;
use crate::wiki::NodeView;
use crate::wiki::Wiki;

verus! {

/// The path that a link names, if it names a file or a directory below the wiki's.
pub open spec fn link_path(link: LinkView) -> Option<Seq<char>> {
    match link {
        LinkView::Text { title, span } => None,
        LinkView::File { path, span } => if path.len() > 0 {
            Some(path)
        } else {
            None
        },
        LinkView::Directory { path, span } => if path.len() > 0 {
            Some(path)
        } else {
            None
        },
    }
}

/// Whether a link leads to a path or to anything within it.
pub open spec fn leads_inside(link: LinkView, old: Seq<char>) -> bool {
    link_path(link) matches Some(path) && path_util::is_inside(old, path)
}

/// The target of a filesystem link that has come to name another path. It keeps its prefix, and the
/// `./` in front of its path or the `/` or `/.` behind it.
pub open spec fn moved_target(target: Seq<char>, path: Seq<char>) -> Seq<char> {
    if text::starts_with(target, "file:"@) {
        "file:"@ + moved_path(text::trimmed_start(target.skip("file:"@.len() as int)), path)
    } else if text::starts_with(target, "dir:"@) {
        "dir:"@ + moved_path(text::trimmed_start(target.skip("dir:"@.len() as int)), path)
    } else if target.len() > 0 && target.last() == '/' {
        "/"@ + path + "/"@
    } else if target.len() > 2 && parser::ends_with_here(target) {
        "/"@ + path + "/."@
    } else {
        "/"@ + path
    }
}

/// A path that has come to be another path.
pub open spec fn moved_path(old: Seq<char>, path: Seq<char>) -> Seq<char> {
    let start = if text::starts_with(old, "./"@) {
        "./"@
    } else {
        ""@
    };
    let end = if old.len() > 0 && old.last() == '/' || parser::ends_with_here(old) {
        "/"@
    } else {
        ""@
    };
    start + path + end
}

/// What can stand before a closing delimiter: a text, with a space after it if it ends with a backslash,
/// which would escape the delimiter.
pub open spec fn set_apart(x: Seq<char>) -> Seq<char> {
    if x.len() > 0 && x.last() == '\\' {
        x.push(' ')
    } else {
        x
    }
}

/// What stands between the delimiters of a link that follows a path that is being renamed, given what
/// stood there without the space around it.
pub open spec fn moved_text(x: Seq<char>, link: LinkView, old: Seq<char>, new: Seq<char>) -> Seq<
    char,
> {
    set_apart(
        wiki::escaped(
            moved_target(wiki::unescaped(x), path_util::moved(link_path(link)->0, old, new)),
        ),
    )
}

/// What stands between the delimiters of a link at a range, without the space around it.
pub open spec fn target_text(s: Seq<char>, span: Span) -> Seq<char> {
    text::trimmed(
        s.subrange(text::floor_index(s, span.start) + 1, text::floor_index(s, span.end) - 1),
    )
}

/// The edit that makes a link follow a path that is being renamed, if it leads there.
pub open spec fn move_edit(s: Seq<char>, link: LinkView, old: Seq<char>, new: Seq<char>) -> Option<
    EditView,
> {
    match (link_path(link), occurrences::target_span(s, link.span())) {
        (Some(path), Some(span)) => if path_util::is_inside(old, path) {
            Some(
                EditView {
                    range: position::range_of(s, span),
                    new_text: moved_text(target_text(s, link.span()), link, old, new),
                },
            )
        } else {
            None
        },
        _ => None,
    }
}

/// The edits that make links follow a path that is being renamed.
pub open spec fn move_edits(
    s: Seq<char>,
    links: Seq<LinkView>,
    old: Seq<char>,
    new: Seq<char>,
) -> Seq<EditView>
    decreases links.len(),
{
    if links.len() == 0 {
        Seq::empty()
    } else {
        let edits = move_edits(s, links.drop_last(), old, new);
        match move_edit(s, links.last(), old, new) {
            Some(edit) => edits.push(edit),
            None => edits,
        }
    }
}

/// The path that a new name for a file or a directory stands for, or what is wrong with it.
pub open spec fn new_path(old: Seq<char>, new_name: Seq<char>) -> Result<Seq<char>, Seq<char>> {
    if new_name.contains('\r') || new_name.contains('\n') {
        Err("A path cannot contain a line break."@)
    } else {
        match parser::filesystem_path(text::trimmed(new_name)) {
            Ok(path) => if path.len() == 0 {
                Err("A path cannot be the wiki directory itself."@)
            } else if !text::is_trimmed(path) {
                Err("A path cannot start or end with white space."@)
            } else if path.last() == '\\' {
                Err("A path cannot end with a backslash."@)
            } else if path_util::is_inside(old, path) && path != old {
                Err("Path "@ + phrase::code(old) + " cannot be moved into itself."@)
            } else {
                Ok(path)
            },
            Err(message) => Err(message),
        }
    }
}

/// Whether a path is what a new name for a file or a directory stands for.
pub open spec fn is_new_path(old: Seq<char>, new: Seq<char>) -> bool {
    exists|name: Seq<char>| #[trigger] new_path(old, name) == Ok::<Seq<char>, Seq<char>>(new)
}

/// The nodes of a source, with the path that the filesystem link at a position names and the range
/// between its delimiters.
pub open spec fn path_at(s: Seq<char>, cursor: Position) -> Option<(Seq<NodeView>, Seq<char>, Span)> {
    match (occurrences::nodes_of(s), position::index_of(s, cursor)) {
        (Some(nodes), Some(index)) => match occurrences::link_view_at(
            nodes,
            text::offset(s, index),
        ) {
            Some(link) => match (link_path(link), occurrences::target_span(s, link.span())) {
                (Some(path), Some(span)) => Some((nodes, path, span)),
                _ => None,
            },
            None => None,
        },
        _ => None,
    }
}

/// Find the path that a link names.
fn find_link_path<'a>(link: &'a Link) -> (path: Option<&'a str>)
    ensures
        error::optional_text(path) == link_path(link@),
{
    match link {
        Link::Text { title, source_range } => None,
        Link::File { path, source_range } => if path.as_str().is_empty() {
            None
        } else {
            Some(path.as_str())
        },
        Link::Directory { path, source_range } => if path.as_str().is_empty() {
            None
        } else {
            Some(path.as_str())
        },
    }
}

/// Parse a source and find the path that the filesystem link at a position names.
pub fn find_path(source_contents: &str, source: &Text, cursor: Position) -> (result: Option<
    (Wiki, String, SourceRange),
>)
    requires
        source.wf(),
        source@ == source_contents@,
    ensures
        match result {
            Some((wiki, path, range)) => path_at(source@, cursor) == Some((wiki@, path@, range@)),
            None => path_at(source@, cursor) == None::<(Seq<NodeView>, Seq<char>, Span)>,
        },
{
    let wiki = match occurrences::parse_wiki(source_contents) {
        Some(wiki) => wiki,
        None => return None,
    };
    let index = match source.index_of_position(cursor) {
        Some(index) => index,
        None => return None,
    };
    let link = match occurrences::link_at(&wiki, source.offsets[index]) {
        Some(link) => link,
        None => return None,
    };
    let path = match find_link_path(link) {
        Some(path) => path.to_owned(),
        None => return None,
    };
    match occurrences::text_link_target_source_range(source, link.source_range()) {
        Some(range) => Some((wiki, path, range)),
        None => None,
    }
}

/// Check a new name for a file or a directory.
pub fn check_new_path(old_path: &str, new_name: &str) -> (result: Result<String, String>)
    ensures
        parser::result_views(result) == new_path(old_path@, new_name@),
{
    let chars = text::chars_of(new_name);
    if language_server::has_line_break(chars.as_slice()) {
        return Err("A path cannot contain a line break.".to_owned());
    }
    let name = text::string_of(text::trim(chars.as_slice()).as_slice());
    let path = match parser::normalize_filesystem_path(name.as_str()) {
        Ok(path) => path,
        Err(message) => return Err(message),
    };
    let names = text::chars_of(path.as_str());
    if names.len() == 0 {
        return Err("A path cannot be the wiki directory itself.".to_owned());
    }
    if text::is_white_space(names[0]) || text::is_white_space(names[names.len() - 1]) {
        return Err("A path cannot start or end with white space.".to_owned());
    }
    if names[names.len() - 1] == '\\' {
        return Err("A path cannot end with a backslash.".to_owned());
    }
    if path_util::leads_to(old_path, path.as_str()) && !text::same_text(path.as_str(), old_path) {
        let quoted = phrase::code_str(old_path);
        return Err(phrase::concat3("Path ", quoted.as_str(), " cannot be moved into itself."));
    }
    Ok(path)
}

/// Write a path that has come to be another path.
fn write_moved_path(old: &[char], path: &str) -> (written: String)
    ensures
        written@ == moved_path(old@, path@),
{
    let total: usize = old.len();
    let start = if text::has_prefix(old, "./") {
        "./"
    } else {
        ""
    };
    let end = if total > 0 && (old[total - 1] == '/' || (total > 1 && old[total - 2] == '/' && old[total
        - 1] == '.')) {
        wiki::DIRECTORY_LINK_SUFFIX
    } else {
        ""
    };
    phrase::concat3(start, path, end)
}

/// Write the target of a filesystem link that has come to name another path.
fn write_moved_target(target: &[char], path: &str) -> (written: String)
    ensures
        written@ == moved_target(target@, path@),
{
    if let Some(rest) = text::strip_prefix(target, wiki::FILE_LINK_PREFIX) {
        let moved = write_moved_path(text::trim_start(rest.as_slice()).as_slice(), path);
        let written = phrase::concat3(wiki::FILE_LINK_PREFIX, moved.as_str(), "");
        proof {
            reveal_strlit("");
            assert(written@ =~= moved_target(target@, path@));
        }
        return written;
    }
    if let Some(rest) = text::strip_prefix(target, wiki::DIRECTORY_LINK_PREFIX) {
        let moved = write_moved_path(text::trim_start(rest.as_slice()).as_slice(), path);
        let written = phrase::concat3(wiki::DIRECTORY_LINK_PREFIX, moved.as_str(), "");
        proof {
            reveal_strlit("");
            assert(written@ =~= moved_target(target@, path@));
        }
        return written;
    }
    let total: usize = target.len();
    let end = if total > 0 && target[total - 1] == '/' {
        wiki::DIRECTORY_LINK_SUFFIX
    } else if total > 2 && target[total - 2] == '/' && target[total - 1] == '.' {
        "/."
    } else {
        ""
    };
    let written = phrase::concat3(wiki::FILESYSTEM_LINK_PREFIX, path, end);
    proof {
        reveal_strlit("");
        reveal_strlit("/");
        assert(written@ =~= moved_target(target@, path@));
    }
    written
}

/// Keep a text apart from the closing delimiter that comes after it.
fn keep_apart(written: String) -> (kept: String)
    ensures
        kept@ == set_apart(written@),
{
    let chars = text::chars_of(written.as_str());
    if chars.len() > 0 && chars[chars.len() - 1] == '\\' {
        let kept = phrase::concat3(written.as_str(), " ", "");
        proof {
            reveal_strlit(" ");
            reveal_strlit("");
            assert(kept@ =~= set_apart(written@));
        }
        return kept;
    }
    written
}

/// Make a link follow a path that is being renamed, if it leads there.
fn follow(source: &Text, link: &Link, old_path: &str, new_path: &str) -> (edit: Option<TextEdit>)
    requires
        source.wf(),
    ensures
        match edit {
            Some(edit) => move_edit(source@, link@, old_path@, new_path@) == Some(edit@),
            None => move_edit(source@, link@, old_path@, new_path@) == None::<EditView>,
        },
{
    let path = match find_link_path(link) {
        Some(path) => path,
        None => return None,
    };
    let range = link.source_range();
    let target_range = match occurrences::text_link_target_source_range(source, range) {
        Some(target_range) => target_range,
        None => return None,
    };
    if !path_util::leads_to(old_path, path) {
        return None;
    }
    let start = source.floor(range.start);
    let end = source.floor(range.end);
    let inside = text::slice_of(source.chars.as_slice(), start + 1, end - 1);
    let target = text::trim(inside.as_slice());
    let decoded = wiki::unescape_link_delimiters(text::string_of(target.as_slice()).as_str());
    let moved = path_util::move_path(path, old_path, new_path);
    let written = write_moved_target(
        text::chars_of(decoded.as_str()).as_slice(),
        moved.as_str(),
    );
    let escaped = wiki::escape_link_delimiters(written.as_str());
    Some(
        TextEdit {
            range: source.editor_range(target_range),
            new_text: keep_apart(escaped),
        },
    )
}

/// Make the links of a wiki follow a path that is being renamed.
pub fn follow_all(source: &Text, wiki: &Wiki, old_path: &str, new_path: &str) -> (edits: Vec<TextEdit>)
    requires
        source.wf(),
    ensures
        language_server::edit_views(edits@) == move_edits(
            source@,
            validator::all_links(wiki@),
            old_path@,
            new_path@,
        ),
{
    let links = occurrences::list_links(wiki);
    let ghost views = validator::link_ref_views(links@);
    let mut edits: Vec<TextEdit> = Vec::new();
    let mut i: usize = 0;
    proof {
        assert(language_server::edit_views(edits@) =~= move_edits(
            source@,
            views.take(0),
            old_path@,
            new_path@,
        ));
    }
    while i < links.len()
        invariant
            source.wf(),
            views == validator::link_ref_views(links@),
            i <= links@.len(),
            language_server::edit_views(edits@) == move_edits(
                source@,
                views.take(i as int),
                old_path@,
                new_path@,
            ),
        decreases links.len() - i,
    {
        let ghost before = language_server::edit_views(edits@);
        proof {
            assert(views[i as int] == links@[i as int]@);
            assert(views.take(i + 1).drop_last() =~= views.take(i as int));
            assert(views.take(i + 1).last() == views[i as int]);
        }
        if let Some(edit) = follow(source, links[i], old_path, new_path) {
            let ghost view = edit@;
            edits.push(edit);
            proof {
                assert(language_server::edit_views(edits@) =~= before.push(view));
            }
        }
        i = i + 1;
    }
    proof {
        assert(views.take(i as int) =~= views);
    }
    edits
}

/// The components of a path that has been normalized.
proof fn lemma_normalized_names(p: Seq<char>)
    requires
        parser::filesystem_path(p) is Ok,
        path_util::normalized(p).len() > 0,
    ensures
        ({
            let names = path_util::names_below(p);
            &&& names.len() > 0
            &&& path_util::are_names(names)
            &&& !names.contains(".."@)
            &&& path_util::components(path_util::normalized(p)) == names
        }),
{
    reveal_strlit("");
    let names = path_util::names_below(p);
    let row = path_util::normalized(p);
    path_util::lemma_names_below(p);
    path_util::lemma_names_again(""@, names, ""@);
    assert(""@ + row + ""@ =~= row);
    if names.contains(".."@) {
        let k = choose|k: int| 0 <= k < names.len() && names[k] == ".."@;
        assert(path_util::components(p).contains(names[k]));
    }
}

/// The components of a path that follows another one.
proof fn lemma_moved_names(path: Seq<char>, old: Seq<char>, new: Seq<char>)
    requires
        path_util::is_inside(old, path),
        path_util::are_names(path_util::components(path)),
        path_util::are_names(path_util::components(new)),
        !path_util::components(path).contains(".."@),
        !path_util::components(new).contains(".."@),
        path_util::components(new).len() > 0,
    ensures
        ({
            let names = path_util::moved_names(path, old, new);
            &&& names.len() > 0
            &&& path_util::are_names(names)
            &&& !names.contains(".."@)
        }),
{
    let start = path_util::components(new);
    let parts = path_util::components(path);
    let from = path_util::components(old).len() as int;
    let names = path_util::moved_names(path, old, new);
    assert forall|k: int| 0 <= k < names.len() implies {
        &&& (#[trigger] names[k]).len() > 0
        &&& names[k] != "."@
        &&& !names[k].contains('/')
        &&& names[k] != ".."@
    } by {
        if k < start.len() {
            assert(names[k] == start[k]);
            assert(start.contains(start[k]));
        } else {
            let m = k - start.len() + from;
            assert(names[k] == parts[m]);
            assert(parts.contains(parts[m]));
        }
    }
}

/// A path after a prefix that has come to be another path.
proof fn lemma_moved_path(prefix: Seq<char>, p: Seq<char>, names: Seq<Seq<char>>)
    requires
        p.len() > 0,
        names.len() > 0,
        path_util::are_names(names),
        !names.contains(".."@),
        !text::white_space(names[0][0]) || text::starts_with(p, "./"@),
    ensures
        ({
            let row = phrase::joined(names, "/"@);
            let w = moved_path(p, row);
            let t = prefix + w;
            &&& text::starts_with(t, prefix)
            &&& text::trimmed_start(t.skip(prefix.len() as int)) == w
            &&& parser::filesystem_path(w) == Ok::<Seq<char>, Seq<char>>(row)
            &&& parser::written_path(w) == w
        }),
{
    reveal_strlit("");
    reveal_strlit("/");
    reveal_strlit("/.");
    reveal_strlit("./");
    reveal_strlit(".");
    let row = phrase::joined(names, "/"@);
    let w = moved_path(p, row);
    let t = prefix + w;
    let n = prefix.len() as int;
    let start = if text::starts_with(p, "./"@) {
        "./"@
    } else {
        ""@
    };
    let end = if p.last() == '/' || parser::ends_with_here(p) {
        "/"@
    } else {
        ""@
    };
    path_util::lemma_joined_ends(names);
    linking::lemma_path_of_names(start, names, end);
    assert(w == start + row + end);
    assert(t.subrange(0, n) =~= prefix);
    assert(t.skip(n) =~= w);
    if start == "./"@ {
        assert(w[0] == '.');
    } else {
        assert(w[0] == row[0]);
    }
    assert(text::trim_start_index(w, 0, w.len() as int) == 0);
    assert(text::trimmed_start(w) =~= w);
    assert(parser::written_path(w) =~= w);
}

/// The components of a new path.
proof fn lemma_new_names(old: Seq<char>, new_name: Seq<char>)
    requires
        new_path(old, new_name) is Ok,
    ensures
        ({
            let names = path_util::components(new_path(old, new_name)->Ok_0);
            &&& names.len() > 0
            &&& path_util::are_names(names)
            &&& !names.contains(".."@)
            &&& !text::white_space(names[0][0])
        }),
{
    let new = new_path(old, new_name)->Ok_0;
    lemma_normalized_names(text::trimmed(new_name));
    path_util::lemma_joined_ends(path_util::names_below(text::trimmed(new_name)));
}

/// The components of the path that a filesystem link names.
proof fn lemma_link_names(target: Seq<char>, span: Span, path: Seq<char>)
    requires
        parser::link_of(target, span) matches Ok(link) && link_path(link) == Some(path),
    ensures
        path_util::are_names(path_util::components(path)),
        !path_util::components(path).contains(".."@),
{
    if text::starts_with(target, "file:"@) {
        lemma_normalized_names(text::trimmed_start(target.skip("file:"@.len() as int)));
    } else if text::starts_with(target, "dir:"@) {
        lemma_normalized_names(text::trimmed_start(target.skip("dir:"@.len() as int)));
    } else {
        lemma_normalized_names(target.skip("/"@.len() as int));
    }
}

/// A link with the same kind of target and another path.
pub open spec fn with_path(link: LinkView, path: Seq<char>) -> LinkView {
    match link {
        LinkView::Text { title, span } => LinkView::Text { title, span },
        LinkView::File { path: _, span } => LinkView::File { path, span },
        LinkView::Directory { path: _, span } => LinkView::Directory { path, span },
    }
}

/// A link that follows a path that is being renamed.
pub open spec fn moved_link(link: LinkView, old: Seq<char>, new: Seq<char>) -> LinkView {
    if leads_inside(link, old) {
        with_path(link, path_util::moved(link_path(link)->0, old, new))
    } else {
        link
    }
}

/// A target after a prefix that has come to name another path.
proof fn lemma_moved_prefixed(target: Seq<char>, span: Span, names: Seq<Seq<char>>)
    requires
        parser::link_of(target, span) is Ok,
        text::starts_with(target, "file:"@) || text::starts_with(target, "dir:"@),
        names.len() > 0,
        path_util::are_names(names),
        !names.contains(".."@),
        !text::white_space(names[0][0]),
    ensures
        ({
            let row = phrase::joined(names, "/"@);
            let after = moved_target(target, row);
            &&& parser::link_of(after, span) == Ok::<LinkView, Seq<char>>(
                with_path(parser::link_of(target, span)->Ok_0, row),
            )
            &&& parser::written_target(after) == after
        }),
{
    reveal_strlit("file:");
    reveal_strlit("dir:");
    let row = phrase::joined(names, "/"@);
    let after = moved_target(target, row);
    if text::starts_with(target, "file:"@) {
        lemma_moved_path("file:"@, text::trimmed_start(target.skip("file:"@.len() as int)), names);
    } else {
        lemma_moved_path("dir:"@, text::trimmed_start(target.skip("dir:"@.len() as int)), names);
        assert(after[0] == 'd');
        if text::starts_with(after, "file:"@) {
            assert(after.subrange(0, 5)[0] == after[0]);
        }
    }
}

/// A target after a leading separator that has come to name another path.
proof fn lemma_moved_rooted(target: Seq<char>, span: Span, names: Seq<Seq<char>>)
    requires
        parser::link_of(target, span) matches Ok(link) && link_path(link) is Some,
        !text::starts_with(target, "file:"@),
        !text::starts_with(target, "dir:"@),
        names.len() > 0,
        path_util::are_names(names),
        !names.contains(".."@),
    ensures
        ({
            let row = phrase::joined(names, "/"@);
            let after = moved_target(target, row);
            &&& parser::link_of(after, span) == Ok::<LinkView, Seq<char>>(
                with_path(parser::link_of(target, span)->Ok_0, row),
            )
            &&& parser::written_target(after) == after
        }),
{
    reveal_strlit("file:");
    reveal_strlit("dir:");
    reveal_strlit("/");
    reveal_strlit("/.");
    reveal_strlit("");
    let row = phrase::joined(names, "/"@);
    let after = moved_target(target, row);
    let p = target.skip(1);
    let end = if target.last() == '/' {
        "/"@
    } else if parser::ends_with_here(p) {
        "/."@
    } else {
        ""@
    };
    linking::lemma_path_of_names(""@, names, end);
    let below = row + end;
    assert(""@ + row + end =~= below);
    path_util::lemma_joined_ends(names);
    assert(after =~= "/"@ + below);
    assert(after.subrange(0, 1) =~= "/"@);
    assert(after.skip(1) =~= below);
    assert(after[0] == '/');
    if text::starts_with(after, "file:"@) {
        assert(after.subrange(0, 5)[0] == after[0]);
    }
    if text::starts_with(after, "dir:"@) {
        assert(after.subrange(0, 4)[0] == after[0]);
    }
    assert(p.last() == target.last());
    assert(parser::written_below(below) =~= below);
}

/// A filesystem link that follows a path leads to where the path has gone: it stands for the same kind of
/// target, with the path below the new one that it had below the old one. Formatting leaves it as it is.
pub proof fn law_links_follow_renamed_paths(
    target: Seq<char>,
    span: Span,
    path: Seq<char>,
    old: Seq<char>,
    new_name: Seq<char>,
)
    requires
        parser::link_of(target, span) matches Ok(link) && link_path(link) == Some(path),
        path_util::is_inside(old, path),
        new_path(old, new_name) is Ok,
    ensures
        ({
            let moved = path_util::moved(path, old, new_path(old, new_name)->Ok_0);
            let after = moved_target(target, moved);
            &&& parser::link_of(after, span) == Ok::<LinkView, Seq<char>>(
                with_path(parser::link_of(target, span)->Ok_0, moved),
            )
            &&& parser::written_target(after) == after
        }),
{
    let new = new_path(old, new_name)->Ok_0;
    lemma_new_names(old, new_name);
    lemma_link_names(target, span, path);
    lemma_moved_names(path, old, new);
    let names = path_util::moved_names(path, old, new);
    assert(names[0] == path_util::components(new)[0]);
    if text::starts_with(target, "file:"@) || text::starts_with(target, "dir:"@) {
        lemma_moved_prefixed(target, span, names);
    } else {
        lemma_moved_rooted(target, span, names);
    }
}

/// Whether a text can stand between the delimiters of a link and end nowhere else: it is one line that is
/// not empty, every delimiter in it has a backslash before it, and it does not end with a backslash.
pub open spec fn fits_in_link(x: Seq<char>) -> bool {
    &&& x.len() > 0
    &&& x.last() != '\\'
    &&& forall|k: int| 0 <= k < x.len() ==> #[trigger] x[k] != '\n'
    &&& forall|k: int|
        0 <= k < x.len() && (#[trigger] x[k] == '[' || x[k] == ']') ==> k > 0 && x[k - 1] == '\\'
}

/// The path that a link target spells out.
spec fn spelled_path(target: Seq<char>) -> Seq<char> {
    if text::starts_with(target, "file:"@) {
        text::trimmed_start(target.skip("file:"@.len() as int))
    } else if text::starts_with(target, "dir:"@) {
        text::trimmed_start(target.skip("dir:"@.len() as int))
    } else {
        target.skip("/"@.len() as int)
    }
}

/// The path that a link target spells out is the end of it.
proof fn lemma_spelled_path(target: Seq<char>)
    requires
        spelled_path(target).len() > 0,
        target.len() > 0,
    ensures
        spelled_path(target).last() == target.last(),
        forall|c: char| #[trigger] spelled_path(target).contains(c) ==> target.contains(c),
{
    reveal_strlit("file:");
    reveal_strlit("dir:");
    reveal_strlit("/");
    let p = spelled_path(target);
    let from: int = target.len() - p.len();
    let rest = if text::starts_with(target, "file:"@) {
        target.skip(5)
    } else if text::starts_with(target, "dir:"@) {
        target.skip(4)
    } else {
        target.skip(1)
    };
    text::lemma_trim_start_index(rest, 0, rest.len() as int);
    assert(forall|i: int| 0 <= i < p.len() ==> #[trigger] p[i] == target[from + i]);
}

/// The components of the path that a link names are spelled out by its target.
proof fn lemma_link_chars(target: Seq<char>, span: Span, path: Seq<char>)
    requires
        parser::link_of(target, span) matches Ok(link) && link_path(link) == Some(path),
    ensures
        target.len() > 0,
        spelled_path(target).len() > 0,
        parser::filesystem_path(spelled_path(target)) == Ok::<Seq<char>, Seq<char>>(path),
        path_util::components(path) == path_util::names_below(spelled_path(target)),
        path_util::components(path).len() > 0,
        forall|k: int, c: char|
            #![trigger path_util::components(path)[k].contains(c)]
            0 <= k < path_util::components(path).len() && path_util::components(path)[k].contains(c)
                ==> target.contains(c),
{
    reveal_strlit("file:");
    reveal_strlit("dir:");
    reveal_strlit("/");
    let p = spelled_path(target);
    lemma_normalized_names(p);
    lemma_spelled_path(target);
    path_util::lemma_names_below(p);
    let names = path_util::components(path);
    assert forall|k: int, c: char|
        #![trigger names[k].contains(c)]
        0 <= k < names.len() && names[k].contains(c) implies target.contains(c) by {
        assert(path_util::names_below(p)[k].contains(c));
        assert(p.contains(c));
    }
}

/// The components of a new path are in one line, and the last of them does not end with white space.
proof fn lemma_new_chars(old: Seq<char>, new_name: Seq<char>)
    requires
        new_path(old, new_name) is Ok,
    ensures
        ({
            let names = path_util::components(new_path(old, new_name)->Ok_0);
            &&& names.len() > 0
            &&& !text::white_space(names.last().last())
            &&& forall|k: int, c: char|
                #![trigger names[k].contains(c)]
                0 <= k < names.len() && names[k].contains(c) ==> c != '\n'
        }),
{
    let new = new_path(old, new_name)->Ok_0;
    let q = text::trimmed(new_name);
    let n = new_name.len() as int;
    lemma_normalized_names(q);
    path_util::lemma_joined_ends(path_util::names_below(q));
    path_util::lemma_names_below(q);
    let names = path_util::components(new);
    text::lemma_trimmed_subrange(new_name, 0, n);
    assert(new_name.subrange(0, n) =~= new_name);
    let start = text::trim_start_index(new_name, 0, n);
    assert forall|k: int, c: char|
        #![trigger names[k].contains(c)]
        0 <= k < names.len() && names[k].contains(c) implies c != '\n' by {
        assert(path_util::names_below(q)[k].contains(c));
        assert(q.contains(c));
        let i = choose|i: int| 0 <= i < q.len() && q[i] == c;
        assert(new_name[start + i] == c);
        assert(new_name.contains(c));
    }
}

/// The last of the components that a path has once it has moved.
proof fn lemma_moved_end(
    target: Seq<char>,
    span: Span,
    path: Seq<char>,
    old: Seq<char>,
    new_name: Seq<char>,
)
    requires
        parser::link_of(target, span) matches Ok(link) && link_path(link) == Some(path),
        path_util::is_inside(old, path),
        new_path(old, new_name) is Ok,
        text::is_trimmed(target),
        spelled_path(target).last() != '/',
        !parser::ends_with_here(spelled_path(target)),
    ensures
        ({
            let names = path_util::moved_names(path, old, new_path(old, new_name)->Ok_0);
            names.len() > 0 && !text::white_space(names.last().last())
        }),
{
    let new = new_path(old, new_name)->Ok_0;
    lemma_new_chars(old, new_name);
    lemma_link_chars(target, span, path);
    lemma_spelled_path(target);
    let p = spelled_path(target);
    let start = path_util::components(new);
    let parts = path_util::components(path);
    let from = path_util::components(old).len() as int;
    let names = path_util::moved_names(path, old, new);
    if from < parts.len() {
        path_util::lemma_last_name(p);
        assert(names.last() == parts.last());
    } else {
        assert(names =~= start);
    }
}

/// The characters of the components that a path has once it has moved.
proof fn lemma_moved_chars(
    target: Seq<char>,
    span: Span,
    path: Seq<char>,
    old: Seq<char>,
    new_name: Seq<char>,
    i: int,
)
    requires
        parser::link_of(target, span) matches Ok(link) && link_path(link) == Some(path),
        path_util::is_inside(old, path),
        new_path(old, new_name) is Ok,
        !target.contains('\n'),
        0 <= i < path_util::moved(path, old, new_path(old, new_name)->Ok_0).len(),
    ensures
        path_util::moved(path, old, new_path(old, new_name)->Ok_0)[i] != '\n',
{
    let new = new_path(old, new_name)->Ok_0;
    let start = path_util::components(new);
    let parts = path_util::components(path);
    let from = path_util::components(old).len() as int;
    let names = path_util::moved_names(path, old, new);
    let row = path_util::moved(path, old, new);
    lemma_new_chars(old, new_name);
    lemma_link_chars(target, span, path);
    if row[i] != '/' {
        let k = path_util::lemma_joined_char(names, i);
        if k < start.len() {
            assert(start[k].contains(row[i]));
        } else {
            assert(parts[k - start.len() + from].contains(row[i]));
        }
    }
}

/// A target that follows a path that is being renamed is one line that is not empty and has no space at
/// its ends.
proof fn lemma_moved_line(
    target: Seq<char>,
    span: Span,
    path: Seq<char>,
    old: Seq<char>,
    new_name: Seq<char>,
)
    requires
        parser::link_of(target, span) matches Ok(link) && link_path(link) == Some(path),
        path_util::is_inside(old, path),
        new_path(old, new_name) is Ok,
        text::is_trimmed(target),
        !target.contains('\n'),
    ensures
        ({
            let moved = path_util::moved(path, old, new_path(old, new_name)->Ok_0);
            let after = moved_target(target, moved);
            &&& after.len() > 0
            &&& text::is_trimmed(after)
            &&& forall|i: int| 0 <= i < after.len() ==> #[trigger] after[i] != '\n'
        }),
{
    reveal_strlit("");
    reveal_strlit("file:");
    reveal_strlit("dir:");
    reveal_strlit("/");
    reveal_strlit("/.");
    reveal_strlit("./");
    let new = new_path(old, new_name)->Ok_0;
    let row = path_util::moved(path, old, new);
    let names = path_util::moved_names(path, old, new);
    let after = moved_target(target, row);
    let p = spelled_path(target);
    lemma_new_names(old, new_name);
    lemma_link_names(target, span, path);
    lemma_moved_names(path, old, new);
    lemma_link_chars(target, span, path);
    lemma_spelled_path(target);
    path_util::lemma_joined_ends(names);
    assert(!text::white_space('/') && !text::white_space('.') && !text::white_space('f')
        && !text::white_space('d'));
    if p.last() != '/' && !parser::ends_with_here(p) {
        lemma_moved_end(target, span, path, old, new_name);
    }
    let n = after.len() as int;
    let (lead, end) = lemma_moved_shape(target, row);
    assert forall|i: int| 0 <= i < n implies #[trigger] after[i] != '\n' by {
        if lead.len() <= i < lead.len() + row.len() {
            lemma_moved_chars(target, span, path, old, new_name, i - lead.len());
            assert(after[i] == row[i - lead.len()]);
        } else if i < lead.len() {
            assert(after[i] == lead[i]);
        } else {
            assert(after[i] == end[i - lead.len() - row.len()]);
        }
    }
    assert(after[0] == lead[0]);
    if end.len() > 0 {
        assert(after.last() == end.last());
    } else {
        assert(after.last() == row.last());
    }
}

/// What stands around the path in a target that has come to name it.
proof fn lemma_moved_shape(target: Seq<char>, row: Seq<char>) -> (ends: (Seq<char>, Seq<char>))
    requires
        target.len() > 0,
        spelled_path(target).len() > 0,
    ensures
        moved_target(target, row) == ends.0 + row + ends.1,
        ends.0.len() > 0,
        ends.0[0] == 'f' || ends.0[0] == 'd' || ends.0[0] == '/',
        forall|i: int| 0 <= i < ends.0.len() ==> #[trigger] ends.0[i] != '\n',
        forall|i: int| 0 <= i < ends.1.len() ==> #[trigger] ends.1[i] != '\n',
        ends.1.len() == 0 ==> spelled_path(target).last() != '/' && !parser::ends_with_here(
            spelled_path(target),
        ),
        ends.1.len() > 0 ==> ends.1.last() == '/' || ends.1.last() == '.',
{
    reveal_strlit("");
    reveal_strlit("file:");
    reveal_strlit("dir:");
    reveal_strlit("/");
    reveal_strlit("/.");
    reveal_strlit("./");
    let p = spelled_path(target);
    lemma_spelled_path(target);
    let prefix = if text::starts_with(target, "file:"@) {
        "file:"@
    } else if text::starts_with(target, "dir:"@) {
        "dir:"@
    } else {
        "/"@
    };
    let start = if prefix != "/"@ && text::starts_with(p, "./"@) {
        "./"@
    } else {
        ""@
    };
    let end = if p.last() == '/' {
        "/"@
    } else if parser::ends_with_here(p) {
        if prefix == "/"@ {
            "/."@
        } else {
            "/"@
        }
    } else {
        ""@
    };
    assert("file:"@[0] == 'f' && "dir:"@[0] == 'd' && "/"@[0] == '/');
    assert(moved_target(target, row) =~= (prefix + start) + row + end);
    (prefix + start, end)
}

/// What stands between the delimiters of a link that follows a path that is being renamed ends nowhere
/// else, and it stands for the link that leads to where the path has gone.
pub proof fn lemma_moved_text(s: Seq<char>, a: int, b: int, old: Seq<char>, new: Seq<char>)
    requires
        0 <= a < b < s.len(),
        parser::link_at(s, a, b) is Ok,
        leads_inside(parser::link_at(s, a, b)->Ok_0, old),
        is_new_path(old, new),
        forall|j: int| a < j < b ==> #[trigger] s[j] != '\n',
    ensures
        ({
            let link = parser::link_at(s, a, b)->Ok_0;
            let x = moved_text(parser::link_text(s, a, b), link, old, new);
            &&& fits_in_link(x)
            &&& parser::link_of(wiki::unescaped(text::trimmed(x)), error::span_of(s, a, b + 1))
                == Ok::<LinkView, Seq<char>>(moved_link(link, old, new))
        }),
{
    let new_name = choose|name: Seq<char>| #[trigger]
        new_path(old, name) == Ok::<Seq<char>, Seq<char>>(new);
    let link = parser::link_at(s, a, b)->Ok_0;
    let path = link_path(link)->0;
    let span = error::span_of(s, a, b + 1);
    let raw = parser::link_text(s, a, b);
    let target = wiki::unescaped(raw);
    text::lemma_trimmed_subrange(s, a + 1, b);
    let from = text::trim_start_index(s, a + 1, b);
    assert forall|k: int| 0 <= k < raw.len() implies #[trigger] raw[k] != '\n' by {
        assert(raw[k] == s[from + k]);
    }
    wiki::lemma_unescaped_line(raw);
    assert(!target.contains('\n'));
    law_links_follow_renamed_paths(target, span, path, old, new_name);
    lemma_moved_line(target, span, path, old, new_name);
    let after = moved_target(target, path_util::moved(path, old, new));
    let y = wiki::escaped(after);
    let x = set_apart(y);
    wiki::law_unescaping_undoes_escaping(after);
    wiki::lemma_escaped_chars(after);
    assert(!text::white_space('\\'));
    assert(text::is_trimmed(y));
    lemma_set_apart(y);
}

/// Keeping a text apart adds nothing but space.
proof fn lemma_set_apart(y: Seq<char>)
    requires
        y.len() > 0,
        text::is_trimmed(y),
    ensures
        text::trimmed(set_apart(y)) == y,
{
    let x = set_apart(y);
    let n = y.len() as int;
    assert(text::white_space(' '));
    formatting::lemma_trim_start_at(x, 0, x.len() as int, 0);
    formatting::lemma_trim_end_at(x, 0, x.len() as int, n);
    text::lemma_trimmed_subrange(x, 0, x.len() as int);
    assert(x.subrange(0, x.len() as int) =~= x);
    assert(x.subrange(0, n) =~= y);
}

/// The edits hold the edit of every link that leads to the path that is being renamed.
proof fn lemma_edits_hold(s: Seq<char>, links: Seq<LinkView>, old: Seq<char>, new: Seq<char>, k: int)
    requires
        0 <= k < links.len(),
        move_edit(s, links[k], old, new) is Some,
    ensures
        move_edits(s, links, old, new).contains(move_edit(s, links[k], old, new)->0),
    decreases links.len(),
{
    let front = links.drop_last();
    let earlier = move_edits(s, front, old, new);
    let all = move_edits(s, links, old, new);
    if k < links.len() - 1 {
        assert(front[k] == links[k]);
        lemma_edits_hold(s, front, old, new, k);
        let edit = move_edit(s, links[k], old, new)->0;
        let m = choose|m: int| 0 <= m < earlier.len() && earlier[m] == edit;
        assert(all[m] == edit);
    } else {
        assert(all[earlier.len() as int] == move_edit(s, links[k], old, new)->0);
    }
}

/// Renaming a file or a directory reaches every link to it or to anything within it: there is an edit of
/// what stands between the delimiters of the link, and what it writes there leads to where the path has
/// gone.
pub proof fn law_every_link_follows_a_renamed_path(
    path: Option<Seq<char>>,
    s: Seq<char>,
    nodes: Seq<NodeView>,
    old: Seq<char>,
    new_name: Seq<char>,
    k: int,
)
    requires
        parser::parsed(path, s) == Ok::<Seq<NodeView>, Seq<ErrorView>>(nodes),
        new_path(old, new_name) is Ok,
        0 <= k < validator::all_links(nodes).len(),
        leads_inside(validator::all_links(nodes)[k], old),
    ensures
        ({
            let new = new_path(old, new_name)->Ok_0;
            let links = validator::all_links(nodes);
            let link = links[k];
            let span = link.span();
            let edit = move_edit(s, link, old, new)->0;
            &&& move_edit(s, link, old, new) is Some
            &&& move_edits(s, links, old, new).contains(edit)
            &&& edit.range == position::range_of(
                s,
                (Span { start: span.start + 1, end: span.end - 1 }),
            )
            &&& parser::link_of(wiki::unescaped(text::trimmed(edit.new_text)), span) == Ok::<
                LinkView,
                Seq<char>,
            >(with_path(link, path_util::moved(link_path(link)->0, old, new)))
        }),
{
    let new = new_path(old, new_name)->Ok_0;
    let links = validator::all_links(nodes);
    let link = links[k];
    let (a, b) = lemma_placed_link(path, s, nodes, link);
    lemma_followed(s, a, b, link, old, new_name);
    lemma_edits_hold(s, links, old, new, k);
}

/// Where a link of a parsed wiki stands in its source.
proof fn lemma_placed_link(path: Option<Seq<char>>, s: Seq<char>, nodes: Seq<NodeView>, link: LinkView) -> (
ends: (int, int))
    requires
        parser::parsed(path, s) == Ok::<Seq<NodeView>, Seq<ErrorView>>(nodes),
        validator::all_links(nodes).contains(link),
    ensures
        0 <= ends.0 < ends.1 < s.len(),
        s[ends.0] == '[',
        s[ends.1] == ']',
        parser::link_at(s, ends.0, ends.1) == Ok::<LinkView, Seq<char>>(link),
        forall|j: int| ends.0 < j < ends.1 ==> #[trigger] s[j] != '\n',
{
    let (i, m) = creating::lemma_all_links_from(nodes, link);
    formatting::lemma_next_section(s, 0);
    let before = Outline { nodes: Seq::empty(), errors: parser::stray_errors(path, s) };
    formatting::lemma_outline(path, s, parser::next_title_line(s, 0), before);
    let found = parser::outline(path, s).nodes;
    assert(nodes == scoring::scored(found));
    assert(formatting::is_read_from(path, s, found[i]));
    let lo = choose|lo: int| #[trigger] formatting::is_clean_section(path, s, lo) && found[i]
        == parser::node_at(s, lo);
    formatting::lemma_section(path, s, lo);
    let start = parser::content_start(s, lo);
    let end = parser::content_end(s, lo);
    let (a, b) = changing::lemma_listed_link(s, start, end, m);
    rereading::lemma_scan_bounds(s, start, b);
    changing::lemma_inside_ok(s, start, end, a, b);
    (a, b)
}

/// The text that a link is read from is what stands between its delimiters.
pub proof fn lemma_target_text(s: Seq<char>, a: int, b: int, link: LinkView)
    requires
        0 <= a < b < s.len(),
        s[a] == '[',
        s[b] == ']',
        parser::link_at(s, a, b) == Ok::<LinkView, Seq<char>>(link),
    ensures
        link.span() == error::span_of(s, a, b + 1),
        target_text(s, link.span()) == parser::link_text(s, a, b),
{
    let span = error::span_of(s, a, b + 1);
    parser::lemma_link_span(wiki::unescaped(parser::link_text(s, a, b)), span);
    ranges::lemma_delimited(s, a, b);
    text::lemma_floor_index_at(s, a);
    text::lemma_floor_index_at(s, b + 1);
}

/// What the edit of a link writes.
proof fn lemma_followed(
    s: Seq<char>,
    a: int,
    b: int,
    link: LinkView,
    old: Seq<char>,
    new_name: Seq<char>,
)
    requires
        0 <= a < b < s.len(),
        s[a] == '[',
        s[b] == ']',
        parser::link_at(s, a, b) == Ok::<LinkView, Seq<char>>(link),
        new_path(old, new_name) is Ok,
        leads_inside(link, old),
        forall|j: int| a < j < b ==> #[trigger] s[j] != '\n',
    ensures
        ({
            let new = new_path(old, new_name)->Ok_0;
            let span = link.span();
            let edit = move_edit(s, link, old, new)->0;
            &&& move_edit(s, link, old, new) is Some
            &&& edit.range == position::range_of(
                s,
                (Span { start: span.start + 1, end: span.end - 1 }),
            )
            &&& parser::link_of(wiki::unescaped(text::trimmed(edit.new_text)), span) == Ok::<
                LinkView,
                Seq<char>,
            >(with_path(link, path_util::moved(link_path(link)->0, old, new)))
        }),
{
    let new = new_path(old, new_name)->Ok_0;
    lemma_target_text(s, a, b, link);
    ranges::lemma_delimited(s, a, b);
    assert(new_path(old, new_name) == Ok::<Seq<char>, Seq<char>>(new));
    lemma_moved_text(s, a, b, old, new);
}

/// The directory some levels above a path below the wiki's directory.
pub open spec fn directory_above(path: Seq<char>, level: int) -> Seq<char> {
    let names = path_util::components(path);
    phrase::joined(names.take(names.len() - 1 - level), "/"@)
}

/// List the directories above a path, from the nearest one up to those in the wiki's directory.
pub fn directories_above(path: &str) -> (directories: Vec<String>)
    ensures
        directories@.len() == if path_util::components(path@).len() > 0 {
            path_util::components(path@).len() - 1
        } else {
            0
        },
        forall|i: int|
            0 <= i < directories@.len() ==> (#[trigger] directories@[i])@ == directory_above(
                path@,
                i,
            ),
{
    let parts = path_util::split_path(text::chars_of(path).as_slice());
    let ghost names = path_util::components(path@);
    let mut texts: Vec<String> = Vec::new();
    let mut k: usize = 0;
    while k < parts.len()
        invariant
            k <= parts@.len(),
            names == path_util::part_views(parts@),
            phrase::text_views(texts@) == names.take(k as int),
        decreases parts.len() - k,
    {
        let ghost before = phrase::text_views(texts@);
        let name = text::string_of(parts[k].as_slice());
        texts.push(name);
        proof {
            assert(names[k as int] == parts@[k as int]@);
            assert(phrase::text_views(texts@) =~= before.push(name@));
            assert(phrase::text_views(texts@) =~= names.take(k + 1));
        }
        k = k + 1;
    }
    proof {
        assert(names.take(k as int) =~= names);
        assert(texts@.len() == phrase::text_views(texts@).len());
    }
    let mut directories: Vec<String> = Vec::new();
    let total: usize = texts.len();
    if total == 0 {
        return directories;
    }
    let mut left: usize = total;
    while left > 1
        invariant
            1 <= left <= total,
            total == names.len(),
            names == path_util::components(path@),
            texts@.len() == left,
            phrase::text_views(texts@) == names.take(left as int),
            directories@.len() == total - left,
            forall|i: int|
                0 <= i < directories@.len() ==> (#[trigger] directories@[i])@ == directory_above(
                    path@,
                    i,
                ),
        decreases left,
    {
        let ghost before = texts@;
        texts.pop();
        proof {
            assert(phrase::text_views(texts@) =~= names.take(left - 1));
        }
        directories.push(phrase::join(&texts, "/"));
        left = left - 1;
    }
    directories
}

/// How many of the directories above a path a rename leaves empty, given how many entries each has: the
/// nearest ones that have no other entry and do not lead to the new path.
pub open spec fn emptied(
    directories: Seq<Seq<char>>,
    entry_counts: Seq<usize>,
    new_path: Seq<char>,
) -> nat
    decreases directories.len(),
{
    if directories.len() == 0 || entry_counts.len() == 0 || entry_counts[0] != 1
        || path_util::is_inside(directories[0], new_path) {
        0
    } else {
        emptied(directories.drop_first(), entry_counts.drop_first(), new_path) + 1
    }
}

/// Count the directories that a rename leaves empty.
pub fn count_emptied(directories: &Vec<String>, entry_counts: &Vec<usize>, new_path: &str) -> (count:
    usize)
    ensures
        count == emptied(phrase::text_views(directories@), entry_counts@, new_path@),
        count <= directories@.len(),
{
    let ghost views = phrase::text_views(directories@);
    let mut i: usize = 0;
    proof {
        assert(views.skip(0) =~= views);
        assert(entry_counts@.skip(0) =~= entry_counts@);
    }
    while i < directories.len() && i < entry_counts.len()
        invariant
            views == phrase::text_views(directories@),
            i <= directories@.len(),
            i <= entry_counts@.len(),
            emptied(views, entry_counts@, new_path@) == i + emptied(
                views.skip(i as int),
                entry_counts@.skip(i as int),
                new_path@,
            ),
        decreases directories.len() - i,
    {
        proof {
            assert(views[i as int] == directories@[i as int]@);
            assert(views.skip(i as int)[0] == views[i as int]);
            assert(entry_counts@.skip(i as int)[0] == entry_counts@[i as int]);
            assert(views.skip(i as int).drop_first() =~= views.skip(i + 1));
            assert(entry_counts@.skip(i as int).drop_first() =~= entry_counts@.skip(i + 1));
        }
        if entry_counts[i] != 1 || path_util::leads_to(directories[i].as_str(), new_path) {
            return i;
        }
        i = i + 1;
    }
    i
}

} // verus!
