//! Completion of links while they are being written.

use vstd::prelude::*;

use crate::error::SourceRange;
use crate::error::Span;
use crate::language_server;
use crate::language_server::EditView;
use crate::language_server::TextEdit;
use crate::markdown;
use crate::occurrences;
use crate::order;
use crate::parser;
use crate::path_util;
use crate::phrase;
use crate::position;
use crate::position::Position;
use crate::position::Range;
use crate::text;
use crate::text::Text;
use crate::validate;
use crate::validator;
use crate::wiki;
use crate::wiki::Link;
use crate::wiki::LinkView;
use crate::wiki::NodeView;
use crate::wiki::Wiki;

verus! {

/// The path of a filesystem link being authored at the cursor.
#[derive(Clone, Debug)]
pub struct FilesystemLinkContext {
    pub is_directory_link: bool,
    pub typed_directory: String,  // The typed path through its last `/`, as written in the source
    pub directory: String,  // The normalized directory named by `typed_directory`
    pub path_start: usize,
    pub cursor: usize,
    pub closing_delimiter: Option<usize>,
}

/// The contents of a context. Places are indices of characters.
pub struct ContextView {
    pub is_directory_link: bool,
    pub typed_directory: Seq<char>,
    pub directory: Seq<char>,
    pub path_start: int,
    pub cursor: int,
    pub closing_delimiter: Option<int>,
}

impl View for FilesystemLinkContext {
    type V = ContextView;

    open spec fn view(&self) -> ContextView {
        ContextView {
            is_directory_link: self.is_directory_link,
            typed_directory: self.typed_directory@,
            directory: self.directory@,
            path_start: self.path_start as int,
            cursor: self.cursor as int,
            closing_delimiter: match self.closing_delimiter {
                Some(at) => Some(at as int),
                None => None,
            },
        }
    }
}

/// The last opening delimiter before an index of the line that starts at `lo` that no closing
/// delimiter follows.
pub open spec fn last_open(s: Seq<char>, lo: int, i: int) -> Option<int>
    decreases i - lo,
{
    if i <= lo {
        None
    } else if parser::delimiter_at(s, lo, i - 1, '[') {
        Some(i - 1)
    } else if parser::delimiter_at(s, lo, i - 1, ']') {
        None
    } else {
        last_open(s, lo, i - 1)
    }
}

/// The first delimiter at or after an index of the line that starts at `lo` if it is a closing one.
pub open spec fn next_close(s: Seq<char>, lo: int, i: int, stop: int) -> Option<int>
    decreases stop - i,
{
    if i >= stop {
        None
    } else if parser::delimiter_at(s, lo, i, ']') {
        Some(i)
    } else if parser::delimiter_at(s, lo, i, '[') {
        None
    } else {
        next_close(s, lo, i + 1, stop)
    }
}

/// The index after the last separator between two indices, or the first of them.
pub open spec fn name_start(s: Seq<char>, lo: int, hi: int) -> int
    decreases hi - lo,
{
    if lo < hi && s[hi - 1] != '/' {
        name_start(s, lo, hi - 1)
    } else {
        hi
    }
}

/// The directory that a typed path names, unless it may lead outside the wiki's directory.
pub open spec fn typed_directory_path(typed: Seq<char>) -> Option<Seq<char>> {
    let path = wiki::unescaped(typed);
    if path_util::is_absolute(path) || path_util::components(path).contains(".."@) {
        None
    } else {
        Some(path_util::normalized(path))
    }
}

/// The smaller of two indices.
pub open spec fn smaller(a: int, b: int) -> int {
    if a < b {
        a
    } else {
        b
    }
}

/// The context of a path that starts at an index, if it names a directory inside the wiki's.
pub open spec fn path_context(
    s: Seq<char>,
    cursor: int,
    is_directory_link: bool,
    path_start: int,
) -> Option<ContextView> {
    let lo = text::line_start(s, cursor);
    let typed = s.subrange(path_start, name_start(s, path_start, cursor));
    match typed_directory_path(typed) {
        Some(directory) => Some(
            ContextView {
                is_directory_link,
                typed_directory: typed,
                directory,
                path_start,
                cursor,
                closing_delimiter: next_close(s, lo, cursor, parser::line_stop(s, lo)),
            },
        ),
        None => None,
    }
}

/// The filesystem link whose path contains the cursor, even if the link is unfinished. Titles cannot
/// contain links.
pub open spec fn context_at(s: Seq<char>, cursor: int) -> Option<ContextView> {
    let lo = text::line_start(s, cursor);
    let stop = parser::line_stop(s, lo);
    if parser::is_title_line(s, lo) {
        None
    } else {
        match last_open(s, lo, smaller(cursor, stop)) {
            None => None,
            Some(open) => {
                let start = text::trim_start_index(s, open + 1, cursor);
                let target = s.subrange(start, cursor);
                if text::starts_with(target, "file:"@) {
                    let prefix_end = start + "file:"@.len();
                    path_context(s, cursor, false, text::trim_start_index(s, prefix_end, cursor))
                } else if text::starts_with(target, "dir:"@) {
                    let prefix_end = start + "dir:"@.len();
                    path_context(s, cursor, true, text::trim_start_index(s, prefix_end, cursor))
                } else if text::starts_with(target, "/"@) {
                    path_context(s, cursor, false, start + "/"@.len())
                } else {
                    None
                }
            },
        }
    }
}

/// Find the last opening delimiter that no closing delimiter follows.
fn find_last_open(chars: &[char], lo: usize, hi: usize) -> (found: Option<usize>)
    requires
        lo <= hi <= chars@.len(),
    ensures
        match found {
            Some(open) => last_open(chars@, lo as int, hi as int) == Some(open as int) && lo <= open
                < hi,
            None => last_open(chars@, lo as int, hi as int) == None::<int>,
        },
{
    let mut i: usize = hi;
    while i > lo
        invariant
            lo <= i <= hi <= chars@.len(),
            last_open(chars@, lo as int, hi as int) == last_open(chars@, lo as int, i as int),
        decreases i,
    {
        let c = chars[i - 1];
        let is_escaped = i - 1 > lo && chars[i - 2] == '\\';
        if c == '[' && !is_escaped {
            return Some(i - 1);
        }
        if c == ']' && !is_escaped {
            return None;
        }
        i = i - 1;
    }
    None
}

/// Find the first delimiter if it is a closing one.
fn find_next_close(chars: &[char], lo: usize, from: usize, stop: usize) -> (found: Option<usize>)
    requires
        lo <= from,
        stop <= chars@.len(),
    ensures
        match found {
            Some(at) => next_close(chars@, lo as int, from as int, stop as int) == Some(at as int)
                && from <= at < stop,
            None => next_close(chars@, lo as int, from as int, stop as int) == None::<int>,
        },
{
    let mut i: usize = from;
    while i < stop
        invariant
            lo <= from <= i,
            stop <= chars@.len(),
            next_close(chars@, lo as int, from as int, stop as int) == next_close(
                chars@,
                lo as int,
                i as int,
                stop as int,
            ),
        decreases stop - i,
    {
        let c = chars[i];
        let is_escaped = i > lo && chars[i - 1] == '\\';
        if c == ']' && !is_escaped {
            return Some(i);
        }
        if c == '[' && !is_escaped {
            return None;
        }
        i = i + 1;
    }
    None
}

/// Find the index after the last separator.
fn find_name_start(chars: &[char], lo: usize, hi: usize) -> (start: usize)
    requires
        lo <= hi <= chars@.len(),
    ensures
        start == name_start(chars@, lo as int, hi as int),
        lo <= start <= hi,
{
    let mut i: usize = hi;
    while i > lo && chars[i - 1] != '/'
        invariant
            lo <= i <= hi <= chars@.len(),
            name_start(chars@, lo as int, hi as int) == name_start(chars@, lo as int, i as int),
        decreases i,
    {
        i = i - 1;
    }
    i
}

/// Resolve a typed directory, declining paths which may escape the wiki tree.
fn resolve_typed_directory(typed: &str) -> (directory: Option<String>)
    ensures
        markdown::url_view(directory) == typed_directory_path(typed@),
{
    let decoded = wiki::unescape_link_delimiters(typed);
    let path = decoded.as_str();
    if path.is_empty() {
        proof {
            assert(path_util::bounds_from(path@, 0) =~= Seq::<path_util::Bounds>::empty());
            assert(path_util::components(path@) =~= Seq::<Seq<char>>::empty());
            assert(path_util::normalized(path@) =~= Seq::<char>::empty());
        }
        return Some(String::new());
    }
    match parser::normalize_filesystem_path(path) {
        Ok(directory) => Some(directory),
        Err(message) => None,
    }
}

/// Build the context of a path that starts at an index.
fn build_context(source: &Text, cursor: usize, is_directory_link: bool, path_start: usize) -> (
context: Option<FilesystemLinkContext>)
    requires
        source.wf(),
        path_start <= cursor <= source@.len(),
    ensures
        match path_context(source@, cursor as int, is_directory_link, path_start as int) {
            Some(view) => context matches Some(found) && found@ == view,
            None => context is None,
        },
        context matches Some(found) ==> found.path_start == path_start && found.cursor == cursor
            && (found.closing_delimiter matches Some(at) ==> cursor <= at < source@.len()),
{
    let chars = source.chars.as_slice();
    let lo = text::find_line_start(chars, cursor);
    let stop = parser::find_line_stop(chars, lo);
    let end = find_name_start(chars, path_start, cursor);
    let typed = text::string_of(text::slice_of(chars, path_start, end).as_slice());
    match resolve_typed_directory(typed.as_str()) {
        Some(directory) => Some(
            FilesystemLinkContext {
                is_directory_link,
                typed_directory: typed,
                directory,
                path_start,
                cursor,
                closing_delimiter: find_next_close(chars, lo, cursor, stop),
            },
        ),
        None => None,
    }
}

/// Identify a filesystem link whose path contains the cursor, even if the link is unfinished. The
/// cursor is the index of a character.
pub fn filesystem_link_context(source: &Text, cursor: usize) -> (context: Option<
    FilesystemLinkContext,
>)
    requires
        source.wf(),
        cursor <= source@.len(),
    ensures
        match context_at(source@, cursor as int) {
            Some(view) => context matches Some(found) && found@ == view,
            None => context is None,
        },
        context matches Some(found) ==> found.path_start <= found.cursor <= source@.len() && (
        found.closing_delimiter matches Some(at) ==> found.cursor <= at < source@.len()),
{
    // Confine the search to the cursor's line, since links cannot contain line breaks.
    let chars = source.chars.as_slice();
    let lo = text::find_line_start(chars, cursor);
    let stop = parser::find_line_stop(chars, lo);

    // Ignore titles, which cannot contain links.
    if parser::starts_title_line(chars, lo) {
        return None;
    }

    // Find the open link before the cursor, skipping escaped delimiters as the parser does.
    let before = if cursor < stop {
        cursor
    } else {
        stop
    };
    let open = match find_last_open(chars, lo, before) {
        Some(open) => open,
        None => return None,
    };

    // Require a filesystem prefix after any leading whitespace, since the parser trims targets.
    let start = text::find_trim_start(chars, open + 1, cursor);
    let target = text::slice_of(chars, start, cursor);
    let file = text::chars_of(wiki::FILE_LINK_PREFIX);
    let directory = text::chars_of(wiki::DIRECTORY_LINK_PREFIX);
    let root = text::chars_of(wiki::FILESYSTEM_LINK_PREFIX);
    if text::has_at(target.as_slice(), 0, file.as_slice()) {
        let path_start = text::find_trim_start(chars, start + file.len(), cursor);
        build_context(source, cursor, false, path_start)
    } else if text::has_at(target.as_slice(), 0, directory.as_slice()) {
        let path_start = text::find_trim_start(chars, start + directory.len(), cursor);
        build_context(source, cursor, true, path_start)
    } else if text::has_at(target.as_slice(), 0, root.as_slice()) {
        build_context(source, cursor, false, start + root.len())
    } else {
        None
    }
}

/// What a completion stands for.
#[derive(Clone, Copy, Debug, PartialEq, Eq, Structural)]
pub enum CompletionItemKind {
    Reference,
    Folder,
    File,
}

/// A command that the editor runs after a completion.
#[derive(Clone, Debug)]
pub struct Command {
    pub title: String,
    pub command: String,
}

/// A completion that the editor offers.
#[derive(Clone, Debug)]
pub struct CompletionItem {
    pub label: String,
    pub kind: CompletionItemKind,
    pub filter_text: String,
    pub text_edit: TextEdit,
    pub command: Option<Command>,
}

/// The contents of a completion.
pub struct ItemView {
    pub label: Seq<char>,
    pub kind: CompletionItemKind,
    pub filter_text: Seq<char>,
    pub text_edit: EditView,
    pub command: Option<(Seq<char>, Seq<char>)>,
}

impl View for CompletionItem {
    type V = ItemView;

    open spec fn view(&self) -> ItemView {
        ItemView {
            label: self.label@,
            kind: self.kind,
            filter_text: self.filter_text@,
            text_edit: self.text_edit@,
            command: match self.command {
                Some(command) => Some((command.title@, command.command@)),
                None => None,
            },
        }
    }
}

/// The completions in a vector.
pub open spec fn item_views(items: Seq<CompletionItem>) -> Seq<ItemView> {
    items.map_values(|item: CompletionItem| item@)
}

/// An entry of a directory.
#[derive(Clone, Debug)]
pub struct Entry {
    pub path: String,
    pub name: String,
    pub is_directory: bool,
}

/// The contents of an entry.
pub struct EntryView {
    pub path: Seq<char>,
    pub name: Seq<char>,
    pub is_directory: bool,
}

impl View for Entry {
    type V = EntryView;

    open spec fn view(&self) -> EntryView {
        EntryView { path: self.path@, name: self.name@, is_directory: self.is_directory }
    }
}

/// The entries in a vector.
pub open spec fn entry_views(entries: Seq<Entry>) -> Seq<EntryView> {
    entries.map_values(|entry: Entry| entry@)
}

/// Whether a path is directly inside a directory.
pub open spec fn is_child(path: Seq<char>, directory: Seq<char>) -> bool {
    match path_util::parent_of(path) {
        Some(above) => path_util::same_components(above, directory),
        None => false,
    }
}

/// Test whether a path is directly inside a directory.
fn has_parent(path: &str, directory: &str) -> (result: bool)
    ensures
        result == is_child(path@, directory@),
{
    match path_util::parent(path) {
        Some(above) => path_util::same_path(above.as_str(), directory),
        None => false,
    }
}

/// Whether the search for completions looks at an entry: only on the way to the typed directory and
/// directly inside it.
pub open spec fn enters(directory: Seq<char>, wiki_directory: Seq<char>, path: Seq<char>) -> bool {
    let shown = path_util::relative(wiki_directory, path);
    path_util::components(shown).is_prefix_of(path_util::components(directory)) || is_child(
        shown,
        directory,
    )
}

impl FilesystemLinkContext {
    /// Test whether the search for completions looks at an entry.
    pub fn enters(&self, wiki_directory: &str, path: &str) -> (result: bool)
        ensures
            result == enters(self@.directory, wiki_directory@, path@),
    {
        let shown = path_util::relative_path(wiki_directory, path);
        path_util::leads_to(shown.as_str(), self.directory.as_str()) || has_parent(
            shown.as_str(),
            self.directory.as_str(),
        )
    }

    /// Count the levels below the wiki's directory that the search for completions looks at.
    pub fn depth(&self) -> (depth: usize)
        requires
            path_util::components(self@.directory).len() < usize::MAX,
        ensures
            depth == path_util::components(self@.directory).len() + 1,
    {
        path_util::split_path(text::chars_of(self.directory.as_str()).as_slice()).len() + 1
    }
}

/// Whether an entry is offered: it is a child of the typed directory and not the wiki itself.
pub open spec fn offers(context: ContextView, wiki_path: Seq<char>, entry: EntryView) -> bool {
    let wiki_directory = validate::directory_of(wiki_path);
    let shown = path_util::relative(wiki_directory, entry.path);
    is_child(shown, context.directory) && !path_util::same_components(
        shown,
        path_util::relative(wiki_directory, wiki_path),
    )
}

/// The range between two indices.
pub open spec fn range_between(s: Seq<char>, from: int, to: int) -> Range {
    Range { start: position::position_at(s, from), end: position::position_at(s, to) }
}

/// The completions for an entry. A directory's link stays open for its children, and a file's link
/// is closed.
pub open spec fn entry_items(
    s: Seq<char>,
    context: ContextView,
    wiki_path: Seq<char>,
    entry: EntryView,
) -> Seq<ItemView> {
    let completed = context.typed_directory + wiki::escaped(entry.name);
    if !offers(context, wiki_path, entry) {
        Seq::empty()
    } else if entry.is_directory {
        let end = match context.closing_delimiter {
            Some(at) => at,
            None => context.cursor,
        };
        seq![
            ItemView {
                label: entry.name + "/"@,
                kind: CompletionItemKind::Folder,
                filter_text: completed,
                text_edit: EditView {
                    range: range_between(s, context.path_start, end),
                    new_text: completed + "/"@,
                },
                command: Some(("Suggest"@, "editor.action.triggerSuggest"@)),
            },
        ]
    } else if context.is_directory_link {
        Seq::empty()
    } else {
        let end = match context.closing_delimiter {
            Some(at) => at + 1,
            None => context.cursor,
        };
        seq![
            ItemView {
                label: entry.name,
                kind: CompletionItemKind::File,
                filter_text: completed,
                text_edit: EditView {
                    range: range_between(s, context.path_start, end),
                    new_text: completed + "]"@,
                },
                command: None,
            },
        ]
    }
}

/// The completions for entries.
pub open spec fn all_entry_items(
    s: Seq<char>,
    context: ContextView,
    wiki_path: Seq<char>,
    entries: Seq<EntryView>,
) -> Seq<ItemView>
    decreases entries.len(),
{
    if entries.len() == 0 {
        Seq::empty()
    } else {
        all_entry_items(s, context, wiki_path, entries.drop_last()) + entry_items(
            s,
            context,
            wiki_path,
            entries.last(),
        )
    }
}

/// The labels of completions.
pub open spec fn labels(items: Seq<ItemView>) -> Seq<Seq<char>> {
    items.map_values(|item: ItemView| item.label)
}

/// Completions in the order of their labels.
pub open spec fn items_by_label(items: Seq<ItemView>) -> Seq<ItemView> {
    validator::ordered_by_text(items, labels(items))
}

/// Sort completions by their labels.
fn sort_items(items: Vec<CompletionItem>) -> (sorted: Vec<CompletionItem>)
    ensures
        item_views(sorted@) == items_by_label(item_views(items@)),
{
    let ghost all = items@;
    let ghost views = item_views(items@);
    let mut keys: Vec<Vec<u64>> = Vec::new();
    let mut i: usize = 0;
    while i < items.len()
        invariant
            views == item_views(items@),
            i <= items@.len(),
            keys@.len() == i,
            forall|j: int|
                0 <= j < i ==> #[trigger] keys@[j]@ == order::text_key(views[j].label),
        decreases items.len() - i,
    {
        proof {
            assert(views[i as int] == items@[i as int]@);
        }
        keys.push(order::key_of_text(text::chars_of(items[i].label.as_str()).as_slice()));
        i = i + 1;
    }
    let ghost text_keys = validator::text_keys(labels(views));
    proof {
        assert(order::key_views(keys@) =~= text_keys);
        order::lemma_sort_order_sorts(text_keys);
    }
    let order = order::sort(&keys);
    let ghost indices = order::index_views(order@);
    proof {
        assert forall|a: int, b: int|
            #![trigger order@[a], order@[b]]
            0 <= a < b < order@.len() implies order@[a] != order@[b] by {
            order::lemma_sort_order_distinct(text_keys, indices, a, b);
            assert(indices[a] == order@[a] as int);
            assert(indices[b] == order@[b] as int);
        }
    }
    let sorted = order::arrange(items, &order);
    proof {
        assert forall|a: int| 0 <= a < order@.len() implies 0 <= #[trigger] indices[a]
            < all.len() by {
            assert(indices[a] == order@[a] as int);
        }
        assert(item_views(sorted@) =~= order::arranged(views, indices));
    }
    sorted
}

/// Complete the path of a filesystem link with an entry.
fn complete_entry(source: &Text, context: &FilesystemLinkContext, entry: &Entry) -> (item: Option<
    CompletionItem,
>)
    requires
        source.wf(),
        context.path_start <= context.cursor <= source@.len(),
        context.closing_delimiter matches Some(at) ==> context.cursor <= at < source@.len(),
    ensures
        forall|wiki_path: Seq<char>|
            offers(context@, wiki_path, entry@) ==> #[trigger] entry_items(
                source@,
                context@,
                wiki_path,
                entry@,
            ) == match item {
                Some(item) => seq![item@],
                None => Seq::empty(),
            },
{
    // Leave a directory's link open for its children, and close a file's link.
    let escaped = wiki::escape_link_delimiters(entry.name.as_str());
    let completed = phrase::concat3(context.typed_directory.as_str(), escaped.as_str(), "");
    proof {
        reveal_strlit("");
        assert(completed@ =~= context.typed_directory@ + wiki::escaped(entry.name@));
    }
    let total: usize = source.len();
    let start = source.position(context.path_start);
    if entry.is_directory {
        let end = match context.closing_delimiter {
            Some(at) => at,
            None => context.cursor,
        };
        let label = phrase::concat3(entry.name.as_str(), "/", "");
        let new_text = phrase::concat3(completed.as_str(), "/", "");
        proof {
            assert(label@ =~= entry.name@ + "/"@);
            assert(new_text@ =~= completed@ + "/"@);
        }
        Some(
            CompletionItem {
                label,
                kind: CompletionItemKind::Folder,
                filter_text: completed,
                text_edit: TextEdit { range: Range::new(start, source.position(end)), new_text },
                command: Some(
                    Command {
                        title: "Suggest".to_owned(),
                        command: language_server::TRIGGER_SUGGEST_COMMAND.to_owned(),
                    },
                ),
            },
        )
    } else if context.is_directory_link {
        None
    } else {
        let end = match context.closing_delimiter {
            Some(at) => {
                proof {
                    assert(at < total);
                }
                at + 1
            },
            None => context.cursor,
        };
        let new_text = phrase::concat3(completed.as_str(), "]", "");
        proof {
            assert(new_text@ =~= completed@ + "]"@);
        }
        Some(
            CompletionItem {
                label: entry.name.clone(),
                kind: CompletionItemKind::File,
                filter_text: completed,
                text_edit: TextEdit { range: Range::new(start, source.position(end)), new_text },
                command: None,
            },
        )
    }
}

/// Complete the next component of a filesystem link's path, given the entries that the search came
/// across.
pub fn filesystem_link_completions(
    wiki_path: &str,
    source: &Text,
    context: &FilesystemLinkContext,
    entries: &Vec<Entry>,
) -> (completions: Vec<CompletionItem>)
    requires
        source.wf(),
        context.path_start <= context.cursor <= source@.len(),
        context.closing_delimiter matches Some(at) ==> context.cursor <= at < source@.len(),
    ensures
        item_views(completions@) == items_by_label(
            all_entry_items(source@, context@, wiki_path@, entry_views(entries@)),
        ),
{
    // Derive every filesystem path from the wiki's containing directory, as validation does.
    let wiki_directory = validate::document_directory(wiki_path);
    let shown_wiki = path_util::relative_path(wiki_directory.as_str(), wiki_path);
    let ghost s = source@;
    let ghost views = entry_views(entries@);

    // Offer each visible child of the typed directory other than the wiki itself.
    let mut items: Vec<CompletionItem> = Vec::new();
    let mut i: usize = 0;
    proof {
        assert(item_views(items@) =~= all_entry_items(s, context@, wiki_path@, views.take(0)));
    }
    while i < entries.len()
        invariant
            source.wf(),
            context.path_start <= context.cursor <= source@.len(),
            context.closing_delimiter matches Some(at) ==> context.cursor <= at < source@.len(),
            s == source@,
            wiki_directory@ == validate::directory_of(wiki_path@),
            shown_wiki@ == path_util::relative(wiki_directory@, wiki_path@),
            views == entry_views(entries@),
            i <= entries@.len(),
            item_views(items@) == all_entry_items(s, context@, wiki_path@, views.take(i as int)),
        decreases entries.len() - i,
    {
        let entry = &entries[i];
        let ghost before = item_views(items@);
        proof {
            assert(views[i as int] == entry@);
            assert(views.take(i + 1).drop_last() =~= views.take(i as int));
            assert(views.take(i + 1).last() == views[i as int]);
        }
        let shown = path_util::relative_path(wiki_directory.as_str(), entry.path.as_str());
        if has_parent(shown.as_str(), context.directory.as_str()) && !path_util::same_path(
            shown.as_str(),
            shown_wiki.as_str(),
        ) {
            proof {
                assert(offers(context@, wiki_path@, entry@));
            }
            let completed = complete_entry(source, context, entry);
            proof {
                assert(entry_items(s, context@, wiki_path@, entry@) == match completed {
                    Some(item) => seq![item@],
                    None => Seq::empty(),
                });
            }
            if let Some(item) = completed {
                let ghost item_view = item@;
                items.push(item);
                proof {
                    assert(item_views(items@) =~= before.push(item_view));
                }
            }
        }
        proof {
            assert(item_views(items@) =~= before + entry_items(
                s,
                context@,
                wiki_path@,
                entry@,
            ));
        }
        i = i + 1;
    }
    proof {
        assert(views.take(i as int) =~= views);
    }

    // Present entries deterministically.
    sort_items(items)
}

/// The completion for a title: it replaces the whole link, including its delimiters, so the cursor
/// ends up after the closing one.
pub open spec fn title_item(title: Seq<char>, range: Range) -> ItemView {
    ItemView {
        label: title,
        kind: CompletionItemKind::Reference,
        filter_text: "["@ + wiki::escaped(title),
        text_edit: EditView { range, new_text: "["@ + wiki::escaped(title) + "]"@ },
        command: None,
    }
}

/// The completions for the titles of a wiki.
pub open spec fn title_items(nodes: Seq<NodeView>, range: Range) -> Seq<ItemView> {
    wiki::nodes_by_title(nodes).map_values(|node: NodeView| title_item(node.title, range))
}

/// The text link of a source at an index, with the nodes of the source.
pub open spec fn text_link_at(s: Seq<char>, b: int) -> Option<(Seq<NodeView>, Span)> {
    match occurrences::nodes_of(s) {
        Some(nodes) => match occurrences::link_view_at(nodes, b) {
            Some(LinkView::Text { title, span }) => Some((nodes, span)),
            _ => None,
        },
        None => None,
    }
}

/// The nodes that a text link at an index may name, and the range that a completion replaces: the
/// link at the index, or else the link there once it is closed at the index.
pub open spec fn link_to_complete(s: Seq<char>, index: int) -> Option<(Seq<NodeView>, Span)> {
    let b = text::offset(s, index);
    match text_link_at(s, b) {
        Some(found) => Some(found),
        None => match text_link_at(s.insert(index, ']'), b) {
            Some((nodes, span)) => Some((nodes, Span { start: span.start, end: span.end - 1 })),
            None => None,
        },
    }
}

/// Parse a source and find the text link at a byte offset.
fn find_text_link(source_contents: &str, byte_offset: usize) -> (result: Option<
    (Wiki, SourceRange),
>)
    ensures
        match result {
            Some((wiki, range)) => text_link_at(source_contents@, byte_offset as int) == Some(
                (wiki@, range@),
            ) && byte_offset < range.end,
            None => text_link_at(source_contents@, byte_offset as int) == None::<
                (Seq<NodeView>, Span),
            >,
        },
{
    let wiki = match occurrences::parse_wiki(source_contents) {
        Some(wiki) => wiki,
        None => return None,
    };
    let range = match occurrences::link_at(&wiki, byte_offset) {
        Some(Link::Text { title, source_range }) => *source_range,
        _ => return None,
    };
    proof {
        occurrences::lemma_link_view_at(wiki@, byte_offset as int);
    }
    Some((wiki, range))
}

/// Parse enough of an active text link to identify the source range a completion should replace.
pub fn completion_context(source_contents: &str, source: &Text, index: usize) -> (result: Option<
    (Wiki, SourceRange),
>)
    requires
        source.wf(),
        source@ == source_contents@,
        index <= source@.len(),
    ensures
        match result {
            Some((wiki, range)) => link_to_complete(source@, index as int) == Some((wiki@, range@)),
            None => link_to_complete(source@, index as int) == None::<(Seq<NodeView>, Span)>,
        },
{
    // Prefer the unchanged source when the active link is already closed.
    let byte_offset = source.offsets[index];
    if let Some((wiki, range)) = find_text_link(source_contents, byte_offset) {
        return Some((wiki, range));
    }

    // Close a link at the cursor temporarily so completion works while it is being authored.
    let mut completed = text::slice_of(source.chars.as_slice(), 0, source.len());
    proof {
        assert(completed@ =~= source@);
    }
    completed.insert(index, ']');
    let completed_source = text::string_of(completed.as_slice());

    // Map the link's end back into the original source, which lacks the temporary delimiter.
    match find_text_link(completed_source.as_str(), byte_offset) {
        Some((wiki, range)) => Some(
            (wiki, SourceRange { start: range.start, end: range.end - 1 }),
        ),
        None => None,
    }
}

/// Complete a text link with the titles of a wiki.
fn title_completions(wiki: &Wiki, range: Range) -> (items: Vec<CompletionItem>)
    ensures
        item_views(items@) == title_items(wiki@, range),
{
    let ghost sorted = wiki::nodes_by_title(wiki@);
    let order = wiki.title_order();
    let mut items: Vec<CompletionItem> = Vec::new();
    let mut i: usize = 0;
    while i < order.len()
        invariant
            sorted == wiki::nodes_by_title(wiki@),
            order@.len() == sorted.len(),
            i <= order@.len(),
            forall|j: int|
                0 <= j < order@.len() ==> {
                    &&& #[trigger] order@[j] < wiki.text_nodes@.len()
                    &&& wiki.text_nodes@[order@[j] as int]@ == sorted[j]
                },
            items@.len() == i,
            forall|j: int|
                0 <= j < i ==> (#[trigger] items@[j])@ == title_item(sorted[j].title, range),
        decreases order.len() - i,
    {
        let node = &wiki.text_nodes[order[i]];
        let escaped = wiki::escape_link_delimiters(node.title.as_str());
        let filter_text = phrase::concat3("[", escaped.as_str(), "");
        proof {
            reveal_strlit("");
            assert(node@ == sorted[i as int]);
            assert(filter_text@ =~= "["@ + escaped@);
        }
        let item = CompletionItem {
            label: node.title.clone(),
            kind: CompletionItemKind::Reference,
            filter_text,
            text_edit: TextEdit { range, new_text: phrase::concat3("[", escaped.as_str(), "]") },
            command: None,
        };
        proof {
            assert(item@ == title_item(sorted[i as int].title, range));
        }
        items.push(item);
        i = i + 1;
    }
    proof {
        assert(item_views(items@) =~= title_items(wiki@, range));
    }
    items
}

/// The completions at a position, given the path of the wiki's file if it has one and the entries
/// that the search came across. A filesystem link needs a file to start from.
pub open spec fn completions_at(
    path: Option<Seq<char>>,
    s: Seq<char>,
    cursor: Position,
    entries: Seq<EntryView>,
) -> Option<Seq<ItemView>> {
    match position::index_of(s, cursor) {
        None => None,
        Some(index) => match context_at(s, index) {
            Some(context) => match path {
                Some(wiki_path) => Some(
                    items_by_label(all_entry_items(s, context, wiki_path, entries)),
                ),
                None => None,
            },
            None => match link_to_complete(s, index) {
                Some((nodes, span)) => Some(title_items(nodes, position::range_of(s, span))),
                None => None,
            },
        },
    }
}

/// Complete the link target at an editor position with node titles or filesystem paths, given the
/// path of the wiki's file.
pub fn complete_at(
    wiki_path: Option<&str>,
    source_contents: &str,
    cursor: Position,
    entries: &Vec<Entry>,
) -> (result: Option<Vec<CompletionItem>>)
    ensures
        match completions_at(
            crate::error::optional_text(wiki_path),
            source_contents@,
            cursor,
            entry_views(entries@),
        ) {
            Some(items) => result matches Some(found) && item_views(found@) == items,
            None => result is None,
        },
{
    // Complete a filesystem link from the directory containing the wiki.
    let text = Text::new(source_contents);
    let index = match text.index_of_position(cursor) {
        Some(index) => index,
        None => return None,
    };
    if let Some(context) = filesystem_link_context(&text, index) {
        return match wiki_path {
            Some(path) => Some(filesystem_link_completions(path, &text, &context, entries)),
            None => None,
        };
    }

    // Present node titles deterministically.
    match completion_context(source_contents, &text, index) {
        Some((wiki, range)) => Some(title_completions(&wiki, text.editor_range(range))),
        None => None,
    }
}

/// Complete the link target at an editor position with node titles or filesystem paths.
pub fn completion_for_document(
    uri: &str,
    source_contents: &str,
    cursor: Position,
    entries: &Vec<Entry>,
) -> (result: Option<Vec<CompletionItem>>)
    ensures
        match completions_at(
            language_server::local_path_text(uri@),
            source_contents@,
            cursor,
            entry_views(entries@),
        ) {
            Some(items) => result matches Some(found) && item_views(found@) == items,
            None => result is None,
        },
{
    let path = language_server::local_path(uri);
    let wiki_path = match &path {
        Some(path) => Some(path.as_str()),
        None => None,
    };
    complete_at(wiki_path, source_contents, cursor, entries)
}

} // verus!
