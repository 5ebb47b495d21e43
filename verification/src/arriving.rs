//! What becomes of paths: where links lead once a path has been renamed, which directories that leaves
//! behind, and which files are wikis.

use vstd::prelude::*;

use crate::command;
use crate::command::SearchStep;
use crate::error::Span;
use crate::language_server;
use crate::leading;
use crate::moving;
use crate::parser;
use crate::path_util;
use crate::phrase;
use crate::text;
use crate::validator;
use crate::wiki::LinkView;

verus! {

/// Whether components are names of entries, which a path below a directory is made of.
pub open spec fn are_plain(names: Seq<Seq<char>>) -> bool {
    forall|k: int|
        0 <= k < names.len() ==> (#[trigger] names[k]).len() > 0 && names[k] != seq!['.']
            && !names[k].contains('/')
}

/// A path within one that is being renamed has the components of the new path and then those that it had
/// below the old one.
pub proof fn law_moved_paths_keep_what_is_below(path: Seq<char>, old: Seq<char>, new: Seq<char>)
    requires
        are_plain(path_util::components(path)),
        are_plain(path_util::components(new)),
        path_util::components(new).len() > 0,
        path_util::components(old).is_prefix_of(path_util::components(path)),
    ensures
        path_util::components(path_util::moved(path, old, new)) == path_util::components(new)
            + path_util::components(path).skip(path_util::components(old).len() as int),
{
    reveal_strlit("/");
    assert("/"@ =~= seq!['/']);
    let start = path_util::components(new);
    let parts = path_util::components(path);
    let n = path_util::components(old).len() as int;
    let names = start + parts.skip(n);
    assert forall|k: int| 0 <= k < names.len() implies (#[trigger] names[k]).len() > 0 && names[k]
        != seq!['.'] && !names[k].contains('/') by {
        if k < start.len() {
            assert(names[k] == start[k]);
        } else {
            assert(names[k] == parts[k - start.len() + n]);
        }
    }
    leading::law_names_in_a_row_are_components(names);
}

/// Once a path has been renamed, the links that are updated are those to the path and to anything within
/// it. Each keeps its kind and the components below the old path. Every other link stays.
pub proof fn law_links_move_with_the_path_they_lead_into(
    link: LinkView,
    old: Seq<char>,
    new: Seq<char>,
)
    requires
        are_plain(path_util::components(new)),
        path_util::components(new).len() > 0,
        path_util::components(old).len() > 0,
    ensures
        match link {
            LinkView::Text { title, span } => moving::moved_link(link, old, new) == link,
            LinkView::File { path, span } => moving::moved_link(link, old, new) matches LinkView::File {
                path: after,
                span: place,
            } && place == span && (are_plain(path_util::components(path)) ==> leads_after(
                path,
                old,
                new,
                after,
            )),
            LinkView::Directory { path, span } => moving::moved_link(link, old, new)
                matches LinkView::Directory { path: after, span: place } && place == span && (
            are_plain(path_util::components(path)) ==> leads_after(path, old, new, after)),
        },
{
    match link {
        LinkView::Text { title, span } => {},
        LinkView::File { path, span } => {
            lemma_leads_after(link, path, old, new);
        },
        LinkView::Directory { path, span } => {
            lemma_leads_after(link, path, old, new);
        },
    }
}

/// Whether a path is what another one becomes when a path is renamed.
pub open spec fn leads_after(path: Seq<char>, old: Seq<char>, new: Seq<char>, after: Seq<char>) -> bool {
    let parts = path_util::components(path);
    let prefix = path_util::components(old);
    if prefix.is_prefix_of(parts) {
        path_util::components(after) == path_util::components(new) + parts.skip(prefix.len() as int)
    } else {
        after == path
    }
}

proof fn lemma_leads_after(link: LinkView, path: Seq<char>, old: Seq<char>, new: Seq<char>)
    requires
        link matches LinkView::File { path: found, span } ==> found == path,
        link matches LinkView::Directory { path: found, span } ==> found == path,
        !(link is Text),
        are_plain(path_util::components(new)),
        path_util::components(new).len() > 0,
        path_util::components(old).len() > 0,
    ensures
        moving::leads_inside(link, old) == path_util::components(old).is_prefix_of(
            path_util::components(path),
        ),
        are_plain(path_util::components(path)) && moving::leads_inside(link, old) ==> leads_after(
            path,
            old,
            new,
            path_util::moved(path, old, new),
        ),
{
    if path.len() == 0 {
        assert(path_util::bounds_from(path, 0).len() == 0);
        assert(path_util::components(path).len() == 0);
    }
    if are_plain(path_util::components(path)) && path_util::components(old).is_prefix_of(
        path_util::components(path),
    ) {
        law_moved_paths_keep_what_is_below(path, old, new);
    }
}

/// The directories above a path have all of its components but the last one, then all but the last two,
/// and so on.
pub proof fn law_directories_above_drop_components(path: Seq<char>, level: int)
    requires
        are_plain(path_util::components(path)),
        0 <= level < path_util::components(path).len() - 1,
    ensures
        path_util::components(moving::directory_above(path, level)) == path_util::components(path).take(
            path_util::components(path).len() - 1 - level,
        ),
{
    reveal_strlit("/");
    assert("/"@ =~= seq!['/']);
    let parts = path_util::components(path);
    let names = parts.take(parts.len() - 1 - level);
    assert forall|k: int| 0 <= k < names.len() implies (#[trigger] names[k]).len() > 0 && names[k]
        != seq!['.'] && !names[k].contains('/') by {
        assert(names[k] == parts[k]);
    }
    leading::law_names_in_a_row_are_components(names);
}

/// Whether a directory is empty once its only entry has been moved to a path: it has no other entry, and
/// the path is not in it.
pub open spec fn is_left_empty(directory: Seq<char>, entry_count: usize, new_path: Seq<char>) -> bool {
    entry_count == 1 && !path_util::components(directory).is_prefix_of(
        path_util::components(new_path),
    )
}

/// A rename leaves behind every directory up to the first one that is not left empty, and none from there
/// on.
pub proof fn law_directories_are_left_up_to_the_first_with_entries(
    directories: Seq<Seq<char>>,
    entry_counts: Seq<usize>,
    new_path: Seq<char>,
)
    ensures
        ({
            let n = moving::emptied(directories, entry_counts, new_path) as int;
            &&& n <= directories.len()
            &&& n <= entry_counts.len()
            &&& forall|i: int|
                0 <= i < n ==> is_left_empty(#[trigger] directories[i], entry_counts[i], new_path)
            &&& n < directories.len() && n < entry_counts.len() ==> !is_left_empty(
                directories[n],
                entry_counts[n],
                new_path,
            )
        }),
    decreases directories.len(),
{
    let n = moving::emptied(directories, entry_counts, new_path) as int;
    if n > 0 {
        law_directories_are_left_up_to_the_first_with_entries(
            directories.drop_first(),
            entry_counts.drop_first(),
            new_path,
        );
        assert forall|i: int| 0 <= i < n implies is_left_empty(
            #[trigger] directories[i],
            entry_counts[i],
            new_path,
        ) by {
            if i > 0 {
                assert(directories.drop_first()[i - 1] == directories[i]);
                assert(entry_counts.drop_first()[i - 1] == entry_counts[i]);
            }
        }
        if n < directories.len() && n < entry_counts.len() {
            assert(directories.drop_first()[n - 1] == directories[n]);
            assert(entry_counts.drop_first()[n - 1] == entry_counts[n]);
        }
    }
}

/// A file is a wiki exactly if its name ends with a dot and the letters `mull` in any case, with
/// something before the dot.
#[verifier::rlimit(40)]
#[verifier::spinoff_prover]
pub proof fn law_wikis_have_the_extension(path: Seq<char>)
    ensures
        command::is_wiki_path(path) <==> (path_util::file_name_of(path) matches Some(name)
            && name.len() > 5 && name[name.len() - 5] == '.' && is_either(
            name[name.len() - 4],
            'm',
            'M',
        ) && is_either(name[name.len() - 3], 'u', 'U') && is_either(name[name.len() - 2], 'l', 'L')
            && is_either(name[name.len() - 1], 'l', 'L')),
{
    reveal_strlit("mull");
    assert("mull"@ =~= seq!['m', 'u', 'l', 'l']);
    if let Some(name) = path_util::file_name_of(path) {
        let n = name.len() as int;
        lemma_last_dot(name, n);
        if n > 5 {
            lemma_extension(name.skip(n - 4));
        }
        if command::is_wiki_path(path) {
            let dot = command::last_dot(name, n)->0;
            assert(name.skip(dot + 1).len() == 4);
        }
        if n > 5 && name[n - 5] == '.' && text::same_letters(name.skip(n - 4), "mull"@) {
            let end = name.skip(n - 4);
            assert forall|k: int| n - 4 <= k < n implies #[trigger] name[k] != '.' by {
                assert(end[k - (n - 4)] == name[k]);
                assert(text::same_letter(end[k - (n - 4)], "mull"@[k - (n - 4)]));
            }
            assert(command::last_dot(name, n) == Some(n - 5));
        }
    }
}

/// Whether a character is one of two.
pub open spec fn is_either(c: char, a: char, b: char) -> bool {
    c == a || c == b
}

proof fn lemma_extension(x: Seq<char>)
    requires
        x.len() == 4,
    ensures
        text::same_letters(x, "mull"@) <==> is_either(x[0], 'm', 'M') && is_either(x[1], 'u', 'U')
            && is_either(x[2], 'l', 'L') && is_either(x[3], 'l', 'L'),
{
    reveal_strlit("mull");
    let mull = "mull"@;
    lemma_either_case(x[0]);
    lemma_either_case(x[1]);
    lemma_either_case(x[2]);
    lemma_either_case(x[3]);
    if text::same_letters(x, mull) {
        assert(text::same_letter(x[0], mull[0]));
        assert(text::same_letter(x[1], mull[1]));
        assert(text::same_letter(x[2], mull[2]));
        assert(text::same_letter(x[3], mull[3]));
    }
}

proof fn lemma_either_case(c: char)
    ensures
        text::same_letter(c, 'm') <==> is_either(c, 'm', 'M'),
        text::same_letter(c, 'u') <==> is_either(c, 'u', 'U'),
        text::same_letter(c, 'l') <==> is_either(c, 'l', 'L'),
{
}

proof fn lemma_last_dot(name: Seq<char>, i: int)
    requires
        0 <= i <= name.len(),
    ensures
        match command::last_dot(name, i) {
            Some(dot) => 0 <= dot < i && name[dot] == '.' && forall|k: int|
                dot < k < i ==> #[trigger] name[k] != '.',
            None => forall|k: int| 0 <= k < i ==> #[trigger] name[k] != '.',
        },
    decreases i,
{
    if i > 0 && name[i - 1] != '.' {
        lemma_last_dot(name, i - 1);
    }
}

/// A search that finds no wiki in a directory goes on to the directory that has all of its components but
/// the last one. It ends where there is no such directory.
pub proof fn law_searches_go_up_one_directory_at_a_time(
    step: SearchStep,
    directory: Seq<char>,
    next: Option<Seq<char>>,
)
    requires
        command::is_step(step, directory, Seq::empty(), next),
    ensures
        step is Continue,
        match next {
            Some(above) => path_util::components(directory).len() > 0 && path_util::components(above)
                == path_util::components(directory).drop_last(),
            None => path_util::components(directory).len() == 0 || path_util::components(directory)
                == seq![seq!['/']],
        },
{
    leading::law_parents_drop_the_last_component(directory);
}

/// Whether a path leads to a file with a name.
pub open spec fn is_named(path: Seq<char>, name: Seq<char>) -> bool {
    path_util::file_name_of(path) == Some(name)
}

/// Whether one of several paths leads to a file with a name.
pub open spec fn has_name(paths: Seq<Seq<char>>, name: Seq<char>) -> bool {
    exists|i: int| 0 <= i < paths.len() && #[trigger] is_named(paths[i], name)
}

/// The names that are listed are those of the files that the paths lead to, each between backticks.
#[verifier::rlimit(40)]
#[verifier::spinoff_prover]
pub proof fn law_every_name_is_listed(paths: Seq<Seq<char>>, name: Seq<char>)
    ensures
        command::quoted_names(paths).contains(seq!['`'] + name + seq!['`']) <==> has_name(paths, name),
        command::quoted_names(paths).len() <= paths.len(),
        (forall|i: int|
            0 <= i < paths.len() ==> path_util::file_name_of(#[trigger] paths[i]) is Some)
            ==> command::quoted_names(paths).len() == paths.len(),
    decreases paths.len(),
{
    reveal_strlit("`");
    assert("`"@ =~= seq!['`']);
    let quoted = phrase::code(name);
    assert(quoted =~= seq!['`'] + name + seq!['`']);
    if paths.len() > 0 {
        let front = paths.drop_last();
        let before = command::quoted_names(front);
        law_every_name_is_listed(front, name);
        let all = command::quoted_names(paths);
        if (forall|i: int|
            0 <= i < paths.len() ==> path_util::file_name_of(#[trigger] paths[i]) is Some) {
            assert forall|i: int| 0 <= i < front.len() implies path_util::file_name_of(
                #[trigger] front[i],
            ) is Some by {
                assert(front[i] == paths[i]);
            }
            assert(paths.last() == paths[paths.len() - 1]);
        }
        if has_name(front, name) {
            let i = choose|i: int| 0 <= i < front.len() && #[trigger] is_named(front[i], name);
            assert(is_named(paths[i], name));
            let k = choose|k: int| 0 <= k < before.len() && before[k] == quoted;
            assert(all[k] == quoted);
        }
        if is_named(paths.last(), name) {
            assert(paths[paths.len() - 1] == paths.last());
            assert(is_named(paths[paths.len() - 1], name));
            assert(all.last() == quoted);
            assert(all[all.len() - 1] == quoted);
        }
        if has_name(paths, name) {
            let i = choose|i: int| 0 <= i < paths.len() && #[trigger] is_named(paths[i], name);
            if i < front.len() {
                assert(front[i] == paths[i]);
                assert(is_named(front[i], name));
            }
        }
        if all.contains(quoted) {
            let k = choose|k: int| 0 <= k < all.len() && all[k] == quoted;
            if k < before.len() {
                assert(before[k] == quoted);
                assert(before.contains(quoted));
            } else {
                let other = path_util::file_name_of(paths.last())->0;
                assert(phrase::code(other) == quoted);
                assert(phrase::code(other).subrange(1, 1 + other.len() as int) =~= other);
                assert(quoted.subrange(1, 1 + name.len() as int) =~= name);
                assert(phrase::code(other).len() == other.len() + 2);
            }
        }
    }
}

/// The place of a wiki is the directory that has all of the components of its path but the last one, or
/// the current directory if there are no others, and the file with that last component in it.
#[verifier::rlimit(40)]
#[verifier::spinoff_prover]
pub proof fn law_wikis_lie_in_their_directories(path: Seq<char>)
    ensures
        validator::wiki_place(path) is Some <==> path_util::file_name_of(path) is Some,
        validator::wiki_place(path) matches Some((directory, file)) ==> {
            let parts = path_util::components(path);
            &&& parts.len() > 1 ==> path_util::components(directory) == parts.drop_last()
            &&& parts.len() == 1 ==> path_util::components(directory) == seq![seq!['.']]
            &&& directory.len() > 0
            &&& path_util::is_absolute(parts.last()) || path_util::components(file)
                == path_util::components(directory) + path_util::names_below(parts.last())
        },
{
    reveal_strlit(".");
    assert("."@ =~= seq!['.']);
    leading::law_parents_drop_the_last_component(path);
    leading::law_file_names_are_last_components(path);
    let parts = path_util::components(path);
    if let Some((directory, file)) = validator::wiki_place(path) {
        let name = parts.last();
        let here = seq!['.'];
        assert(path_util::components(here) == seq![here]) by {
            path_util::lemma_component_bounds(here);
            path_util::lemma_segment_end(here, 0);
            assert(path_util::segment_end(here, 0) == 1);
            assert(path_util::bounds_from(here, 2).len() == 0);
            assert(path_util::is_component(here, 0, 1));
            let bounds = path_util::bounds_from(here, 0);
            assert(bounds =~= seq![path_util::Bounds { start: 0, end: 1 }]);
            assert(here.subrange(0, 1) =~= here);
            assert(path_util::components(here) =~= seq![here]);
        }
        if let Some(above) = path_util::parent_of(path) {
            if above.len() == 0 {
                assert(path_util::bounds_from(above, 0).len() == 0);
                assert(path_util::components(above).len() == 0);
                assert(parts.drop_last().len() == 0);
            } else if parts.len() == 1 {
                assert(path_util::between_components(path, 0, -1).len() == 0);
            }
        }
        leading::law_joined_paths_have_the_components_of_both(directory, name);
    }
}

/// The components of a path in its normalized form are names.
pub proof fn lemma_normalized(p: Seq<char>)
    requires
        !path_util::is_absolute(p),
        !path_util::components(p).contains(".."@),
    ensures
        path_util::components(path_util::normalized(p)) == path_util::names_below(p),
        are_plain(path_util::names_below(p)),
{
    reveal_strlit("");
    reveal_strlit(".");
    assert("."@ =~= seq!['.']);
    let names = path_util::names_below(p);
    let row = path_util::normalized(p);
    path_util::lemma_names_below(p);
    if names.len() > 0 {
        path_util::lemma_names_again(""@, names, ""@);
        assert(""@ + row + ""@ =~= row);
    } else {
        assert(path_util::bounds_from(row, 0).len() == 0);
        assert(path_util::components(row) =~= names);
    }
}

/// The components of the path that a filesystem link names are names.
pub proof fn lemma_plain_link(target: Seq<char>, span: Span, link: LinkView)
    requires
        parser::link_of(target, span) == Ok::<LinkView, Seq<char>>(link),
    ensures
        match link {
            LinkView::Text { title, span: _ } => true,
            LinkView::File { path, span: _ } => are_plain(path_util::components(path)),
            LinkView::Directory { path, span: _ } => are_plain(path_util::components(path)),
        },
{
    if text::starts_with(target, "file:"@) {
        lemma_normalized(text::trimmed_start(target.skip("file:"@.len() as int)));
    } else if text::starts_with(target, "dir:"@) {
        lemma_normalized(text::trimmed_start(target.skip("dir:"@.len() as int)));
    } else if text::starts_with(target, "/"@) {
        let below = target.skip("/"@.len() as int);
        if below.len() > 0 {
            lemma_normalized(below);
        } else {
            assert(path_util::bounds_from(below, 0).len() == 0);
            assert(path_util::components(below).len() == 0);
        }
    }
}

/// The components of a new path are names.
pub proof fn lemma_new_path(old: Seq<char>, new_name: Seq<char>)
    requires
        moving::new_path(old, new_name) is Ok,
    ensures
        are_plain(path_util::components(moving::new_path(old, new_name)->Ok_0)),
        path_util::components(moving::new_path(old, new_name)->Ok_0).len() > 0,
        path_util::components(moving::new_path(old, new_name)->Ok_0) == path_util::names_below(
            text::trimmed(new_name),
        ),
{
    let written = text::trimmed(new_name);
    lemma_normalized(written);
    if path_util::names_below(written).len() == 0 {
        assert(path_util::normalized(written).len() == 0);
    }
}

/// A new path for a file or a directory is accepted exactly if it has no line breaks, names something
/// below the wiki's directory without leading upward, is not within the old path, and can be written in a
/// link. It then has the names of what was entered as components.
pub proof fn law_new_paths_are_refused_for_cause(old: Seq<char>, new_name: Seq<char>)
    ensures
        ({
            let written = text::trimmed(new_name);
            let names = path_util::names_below(written);
            let row = phrase::joined(names, seq!['/']);
            let is_accepted = !new_name.contains('\n') && !new_name.contains('\r') && written.len() > 0
                && written[0] != '/' && !path_util::components(written).contains(seq!['.', '.'])
                && names.len() > 0 && text::is_trimmed(row) && row.last() != '\\' && (
            !path_util::components(old).is_prefix_of(names) || row == old);
            &&& moving::new_path(old, new_name) is Ok <==> is_accepted
            &&& moving::new_path(old, new_name) matches Ok(path) ==> path_util::components(path) == names
        }),
{
    reveal_strlit("..");
    reveal_strlit("/");
    assert(".."@ =~= seq!['.', '.']);
    assert("/"@ =~= seq!['/']);
    let written = text::trimmed(new_name);
    let names = path_util::names_below(written);
    let row = phrase::joined(names, seq!['/']);
    if moving::new_path(old, new_name) is Ok {
        lemma_new_path(old, new_name);
    }
    if written.len() > 0 && !path_util::is_absolute(written) && !path_util::components(
        written,
    ).contains(".."@) {
        lemma_normalized(written);
        assert(path_util::normalized(written) == row);
        if names.len() > 0 {
            path_util::lemma_names_below(written);
            path_util::lemma_joined_ends(names);
        } else {
            assert(row.len() == 0);
        }
    }
}

/// A URI is that of a file exactly if it starts with the scheme `file` in any case and a colon. No other
/// URI has a path.
pub proof fn law_only_file_uris_have_paths(uri: Seq<char>)
    ensures
        language_server::is_file_uri(uri) <==> uri.len() >= 5 && is_either(uri[0], 'f', 'F')
            && is_either(uri[1], 'i', 'I') && is_either(uri[2], 'l', 'L') && is_either(uri[3], 'e', 'E')
            && uri[4] == ':',
        !language_server::is_file_uri(uri) ==> language_server::local_path_text(uri) is None,
{
    reveal_strlit("file:");
    let scheme = "file:"@;
    if uri.len() >= 5 {
        lemma_scheme_case(uri[0]);
        lemma_scheme_case(uri[1]);
        lemma_scheme_case(uri[2]);
        lemma_scheme_case(uri[3]);
        lemma_scheme_case(uri[4]);
        if language_server::is_file_uri(uri) {
            assert(text::same_letter(uri[0], scheme[0]));
            assert(text::same_letter(uri[1], scheme[1]));
            assert(text::same_letter(uri[2], scheme[2]));
            assert(text::same_letter(uri[3], scheme[3]));
            assert(text::same_letter(uri[4], scheme[4]));
        }
    }
}

proof fn lemma_scheme_case(c: char)
    ensures
        text::same_letter(c, 'f') <==> is_either(c, 'f', 'F'),
        text::same_letter(c, 'i') <==> is_either(c, 'i', 'I'),
        text::same_letter(c, 'l') <==> is_either(c, 'l', 'L'),
        text::same_letter(c, 'e') <==> is_either(c, 'e', 'E'),
        text::same_letter(c, ':') <==> c == ':',
{
}

} // verus!
