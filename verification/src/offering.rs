//! What is offered while the path of a link is being written: the entries of the directory that has been
//! written so far, found on the way there, and completed to links that lead to them.

use vstd::prelude::*;

use crate::arriving;
use crate::completion;
use crate::completion::CompletionItemKind;
use crate::completion::ContextView;
use crate::completion::EntryView;
use crate::leading;
use crate::path_util;
use crate::position;
use crate::validate;
use crate::validator;
use crate::wiki;

verus! {

/// Whether a path has the components of a directory, those of a path below it, and one more.
pub open spec fn lies_directly_in(
    path: Seq<Seq<char>>,
    directory: Seq<Seq<char>>,
    below: Seq<Seq<char>>,
) -> bool {
    path.len() > 0 && path.drop_last() == directory + below
}

/// Whether a path found below a directory is there by names.
pub open spec fn is_below(path: Seq<Seq<char>>, directory: Seq<Seq<char>>) -> bool {
    directory.is_prefix_of(path) && arriving::are_plain(path.skip(directory.len() as int))
}

/// The path of a wiki is shown from its directory by its last component.
proof fn lemma_shown_wiki(wiki_path: Seq<char>)
    requires
        path_util::file_name_of(wiki_path) is Some,
    ensures
        path_util::components(path_util::relative(validate::directory_of(wiki_path), wiki_path))
            == seq![path_util::components(wiki_path).last()],
{
    let parts = path_util::components(wiki_path);
    let directory = validate::directory_of(wiki_path);
    arriving::law_wikis_lie_in_their_directories(wiki_path);
    leading::law_file_names_are_last_components(wiki_path);
    leading::law_relative_paths_drop_the_base(directory, wiki_path);
    assert(validator::wiki_place(wiki_path) matches Some((place, file)) && place == directory);
    if parts.len() > 1 {
        assert(parts.drop_last().is_prefix_of(parts));
        assert(parts.skip(parts.len() - 1) =~= seq![parts.last()]);
    } else {
        let prefix = path_util::components(directory);
        if prefix.is_prefix_of(parts) {
            assert(prefix[0] == parts[0]);
        }
        assert(parts =~= seq![parts.last()]);
    }
}

/// A path is directly inside a directory exactly if it has one more component.
proof fn lemma_child(path: Seq<char>, directory: Seq<char>)
    requires
        arriving::are_plain(path_util::components(path)),
    ensures
        completion::is_child(path, directory) <==> path_util::components(path).len() > 0
            && path_util::components(path).drop_last() == path_util::components(directory),
{
    let parts = path_util::components(path);
    leading::law_parents_drop_the_last_component(path);
    if parts == seq![seq!['/']] {
        assert(parts[0] == seq!['/']);
        assert(seq!['/'][0] == '/');
        assert(parts[0].contains('/'));
    }
}

/// An entry of the wiki's directory is offered exactly if it is directly in the directory that has been
/// written so far and is not the wiki. Files are not offered for links to directories.
#[verifier::rlimit(40)]
#[verifier::spinoff_prover]
pub proof fn law_entries_are_offered_by_where_they_lie(
    s: Seq<char>,
    context: ContextView,
    wiki_path: Seq<char>,
    entry: EntryView,
)
    requires
        path_util::file_name_of(wiki_path) is Some,
        is_below(
            path_util::components(entry.path),
            path_util::components(validate::directory_of(wiki_path)),
        ),
    ensures
        ({
            let items = completion::entry_items(s, context, wiki_path, entry);
            let home = path_util::components(validate::directory_of(wiki_path));
            let path = path_util::components(entry.path);
            let below = path_util::components(context.directory);
            let is_wiki = below.len() == 0 && path.last() == path_util::components(wiki_path).last();
            items.len() == if lies_directly_in(path, home, below) && !is_wiki && (entry.is_directory
                || !context.is_directory_link) {
                1int
            } else {
                0
            }
        }),
{
    let directory = validate::directory_of(wiki_path);
    let home = path_util::components(directory);
    let path = path_util::components(entry.path);
    let below = path_util::components(context.directory);
    let n = home.len() as int;
    let shown = path_util::relative(directory, entry.path);
    let rest = path.skip(n);
    leading::law_relative_paths_drop_the_base(directory, entry.path);
    lemma_shown_wiki(wiki_path);
    lemma_child(shown, context.directory);
    let last = path_util::components(wiki_path).last();
    assert(path =~= home + rest);
    if rest.len() > 0 {
        assert(path.drop_last() =~= home + rest.drop_last());
        assert(rest.last() == path.last());
        if home + rest.drop_last() == home + below {
            assert((home + rest.drop_last()).skip(n) =~= rest.drop_last());
            assert((home + below).skip(n) =~= below);
        }
        if rest.drop_last() == below {
            if below.len() == 0 {
                assert(rest =~= seq![path.last()]);
                assert(rest == seq![last] <==> path.last() == last) by {
                    if rest == seq![last] {
                        assert(rest[0] == last);
                    }
                }
            } else {
                assert(rest.len() > 1);
                assert(seq![last].len() == 1);
            }
        }
    } else if lies_directly_in(path, home, below) {
        assert(path.drop_last().len() == n - 1);
        assert((home + below).len() >= n);
    }
}

/// The search for entries looks at every entry on the way to one that is offered, and at the entry, and no
/// deeper than it has to.
pub proof fn law_the_search_reaches_what_is_offered(
    directory: Seq<char>,
    home: Seq<char>,
    entry: Seq<char>,
    above: Seq<char>,
)
    requires
        is_below(path_util::components(entry), path_util::components(home)),
        lies_directly_in(
            path_util::components(entry),
            path_util::components(home),
            path_util::components(directory),
        ),
        path_util::components(home).is_prefix_of(path_util::components(above)),
        path_util::components(above).is_prefix_of(path_util::components(entry)),
    ensures
        completion::enters(directory, home, above),
        completion::enters(directory, home, entry),
        path_util::components(entry).len() - path_util::components(home).len()
            == path_util::components(directory).len() + 1,
{
    let start = path_util::components(home);
    let path = path_util::components(entry);
    let below = path_util::components(directory);
    let mid = path_util::components(above);
    let n = start.len() as int;
    leading::law_relative_paths_drop_the_base(home, entry);
    leading::law_relative_paths_drop_the_base(home, above);
    let shown = path_util::relative(home, entry);
    let rest = path.skip(n);
    assert(path.drop_last().len() == n + below.len());
    assert(rest.drop_last() =~= path.drop_last().skip(n));
    assert((start + below).skip(n) =~= below);
    lemma_child(shown, directory);
    let part = mid.skip(n);
    if mid.len() < path.len() {
        assert(part.is_prefix_of(below)) by {
            assert forall|i: int| 0 <= i < part.len() implies part[i] == below[i] by {
                assert(part[i] == mid[n + i]);
                assert(mid[n + i] == path[n + i]);
                assert(path.drop_last()[n + i] == path[n + i]);
                assert((start + below)[n + i] == below[i]);
            }
            assert(part =~= below.take(part.len() as int));
        }
    } else {
        assert(mid =~= path);
        lemma_child(path_util::relative(home, above), directory);
    }
}

/// The search for entries looks only at what is on the way to the directory that has been written so far,
/// and at what is directly in it.
pub proof fn law_the_search_looks_nowhere_else(directory: Seq<char>, home: Seq<char>, entry: Seq<char>)
    requires
        is_below(path_util::components(entry), path_util::components(home)),
        completion::enters(directory, home, entry),
    ensures
        ({
            let goal = path_util::components(home) + path_util::components(directory);
            let path = path_util::components(entry);
            path.is_prefix_of(goal) || path.len() > 0 && path.drop_last() == goal
        }),
{
    let start = path_util::components(home);
    let path = path_util::components(entry);
    let below = path_util::components(directory);
    let n = start.len() as int;
    leading::law_relative_paths_drop_the_base(home, entry);
    let rest = path.skip(n);
    assert(path =~= start + rest);
    lemma_child(path_util::relative(home, entry), directory);
    if rest.is_prefix_of(below) {
        assert(path.is_prefix_of(start + below));
    } else {
        assert(path.drop_last() =~= start + rest.drop_last());
    }
}

/// What is written for an entry leads to it: once its delimiters have lost their escapes, it has the
/// components of the directory that has been written so far and then the name of the entry. Directories
/// are left open, with a separator at the end, and replace what is written up to the closing delimiter.
/// Files close the link, in place of its closing delimiter.
#[verifier::rlimit(40)]
#[verifier::spinoff_prover]
pub proof fn law_completed_paths_lead_to_their_entries(
    s: Seq<char>,
    context: ContextView,
    wiki_path: Seq<char>,
    entry: EntryView,
)
    requires
        completion::entry_items(s, context, wiki_path, entry).len() > 0,
        completion::typed_directory_path(context.typed_directory) == Some(context.directory),
        context.typed_directory.len() == 0 || context.typed_directory.last() == '/',
        arriving::are_plain(seq![entry.name]),
    ensures
        ({
            let item = completion::entry_items(s, context, wiki_path, entry)[0];
            let edit = item.text_edit;
            let written = edit.new_text.drop_last();
            let path = wiki::unescaped(written);
            &&& edit.new_text.len() > 0
            &&& path_util::names_below(path) == path_util::components(context.directory).push(entry.name)
            &&& context.typed_directory.is_prefix_of(written)
            &&& item.filter_text == written
            &&& edit.range.start == position::position_at(s, context.path_start)
            &&& entry.is_directory ==> {
                &&& item.kind == CompletionItemKind::Folder
                &&& item.label == entry.name.push('/')
                &&& edit.new_text.last() == '/'
                &&& edit.range.end == position::position_at(
                    s,
                    match context.closing_delimiter {
                        Some(at) => at,
                        None => context.cursor,
                    },
                )
            }
            &&& !entry.is_directory ==> {
                &&& item.kind == CompletionItemKind::File
                &&& item.label == entry.name
                &&& item.command is None
                &&& edit.new_text.last() == ']'
                &&& edit.range.end == position::position_at(
                    s,
                    match context.closing_delimiter {
                        Some(at) => at + 1,
                        None => context.cursor,
                    },
                )
            }
        }),
{
    reveal_strlit("/");
    reveal_strlit("]");
    reveal_strlit(".");
    assert("/"@ =~= seq!['/']);
    assert("]"@ =~= seq![']']);
    assert("."@ =~= seq!['.']);
    let item = completion::entry_items(s, context, wiki_path, entry)[0];
    let typed = context.typed_directory;
    let name = entry.name;
    let written = typed + wiki::escaped(name);
    assert(item.text_edit.new_text.drop_last() =~= written);
    assert(entry.is_directory ==> item.label =~= name.push('/'));
    wiki::lemma_unescaped_joined(typed, wiki::escaped(name));
    wiki::law_unescaping_undoes_escaping(name);
    let base = wiki::unescaped(typed);
    let path = wiki::unescaped(written);
    assert(path == base + name);
    assert(seq![name][0] == name);
    assert(!path_util::is_absolute(name)) by {
        if name.len() > 0 && name[0] == '/' {
            assert(name.contains('/'));
        }
    }
    let one = seq![name];
    leading::law_names_in_a_row_are_components(one);
    assert(path_util::components(name) == one);
    assert(path_util::names_below(name) == one);
    path_util::lemma_names_below(base);
    let names = path_util::names_below(base);
    assert(path_util::components(context.directory) == names) by {
        arriving::lemma_normalized(base);
    }
    if base.len() == 0 {
        assert(path =~= name);
        assert(path_util::bounds_from(base, 0).len() == 0);
        assert(path_util::components(base).len() == 0);
        assert(names.push(name) =~= one);
    } else {
        assert(path_util::join_of(base, name) == base + name);
        leading::law_joined_paths_have_the_components_of_both(base, name);
        let all = path_util::components(path);
        let parts = path_util::components(base);
        assert(all == parts + one);
        if parts.len() > 0 && parts[0] == "."@ {
            assert(all[0] == parts[0]);
            assert(all.drop_first() =~= names.push(name));
        } else if parts.len() > 0 {
            assert(all[0] == parts[0]);
            assert(all =~= names.push(name));
        } else {
            assert(all =~= names.push(name));
            assert(all[0] == name);
        }
    }
}

} // verus!
