//! The commands that check and fix a wiki.

use vstd::prelude::*;
use vstd::string::StringExecFns;
use vstd::utf8;

use crate::analyzer;
use crate::analyzer::Analysis;
use crate::cancellation::Outcome;
use crate::checker;
use crate::error;
use crate::error::Error;
use crate::error::ErrorView;
use crate::error::Reason;
use crate::formatting;
use crate::order;
use crate::parser;
use crate::path_util;
use crate::phrase;
use crate::text;
use crate::validator;
use crate::wiki;

verus! {

/// The index of the last dot before an index, if there is one.
pub open spec fn last_dot(name: Seq<char>, i: int) -> Option<int>
    decreases i,
{
    if i <= 0 {
        None
    } else if name[i - 1] == '.' {
        Some(i - 1)
    } else {
        last_dot(name, i - 1)
    }
}

/// The extension of a path: what follows the last dot of its file name, unless the name has no dot
/// after its first character.
pub open spec fn extension_of(path: Seq<char>) -> Option<Seq<char>> {
    match path_util::file_name_of(path) {
        Some(name) => match last_dot(name, name.len() as int) {
            Some(dot) => if dot > 0 {
                Some(name.skip(dot + 1))
            } else {
                None
            },
            None => None,
        },
        None => None,
    }
}

/// Whether a path has the extension of a wiki, in any case.
pub open spec fn is_wiki_path(path: Seq<char>) -> bool {
    match extension_of(path) {
        Some(extension) => text::same_letters(extension, "mull"@),
        None => false,
    }
}

/// Test whether a path has the extension of a wiki.
pub fn has_wiki_extension(path: &str) -> (result: bool)
    ensures
        result == is_wiki_path(path@),
{
    let name = match path_util::file_name(path) {
        Some(name) => text::chars_of(name.as_str()),
        None => return false,
    };
    let extension = text::chars_of(wiki::WIKI_EXTENSION);
    let mut i: usize = name.len();
    while i > 0
        invariant
            i <= name@.len(),
            path_util::file_name_of(path@) == Some(name@),
            extension@ == "mull"@,
            last_dot(name@, name@.len() as int) == last_dot(name@, i as int),
        decreases i,
    {
        if name[i - 1] == '.' {
            if i == 1 {
                return false;
            }
            let rest = text::slice_of(name.as_slice(), i, name.len());
            proof {
                assert(rest@ =~= name@.skip(i as int));
            }
            return text::has_same_letters(rest.as_slice(), extension.as_slice());
        }
        i = i - 1;
    }
    false
}

/// The keys that order paths.
pub open spec fn path_keys(paths: Seq<Seq<char>>) -> Seq<Seq<u64>> {
    paths.map_values(|path: Seq<char>| path_util::path_key(path))
}

/// Paths in order, component by component.
pub open spec fn sorted_paths(paths: Seq<Seq<char>>) -> Seq<Seq<char>> {
    order::arranged(paths, order::sort_order(path_keys(paths)))
}

/// Sort paths component by component.
fn sort_paths(paths: Vec<String>) -> (sorted: Vec<String>)
    ensures
        phrase::text_views(sorted@) == sorted_paths(phrase::text_views(paths@)),
        sorted@.len() == paths@.len(),
{
    let ghost all = paths@;
    let ghost views = phrase::text_views(paths@);
    let mut keys: Vec<Vec<u64>> = Vec::new();
    let mut i: usize = 0;
    while i < paths.len()
        invariant
            i <= paths@.len(),
            keys@.len() == i,
            forall|j: int| 0 <= j < i ==> #[trigger] keys@[j]@ == path_util::path_key(paths@[j]@),
        decreases paths.len() - i,
    {
        keys.push(path_util::key_of_path(paths[i].as_str()));
        i = i + 1;
    }
    proof {
        assert(order::key_views(keys@) =~= path_keys(views));
        order::lemma_sort_order_sorts(path_keys(views));
    }
    let order = order::sort(&keys);
    let ghost indices = order::index_views(order@);
    proof {
        assert forall|a: int, b: int|
            #![trigger order@[a], order@[b]]
            0 <= a < b < order@.len() implies order@[a] != order@[b] by {
            order::lemma_sort_order_distinct(path_keys(views), indices, a, b);
            assert(indices[a] == order@[a] as int);
            assert(indices[b] == order@[b] as int);
        }
    }
    let sorted = order::arrange(paths, &order);
    proof {
        assert forall|a: int| 0 <= a < order@.len() implies 0 <= #[trigger] indices[a]
            < all.len() by {
            assert(indices[a] == order@[a] as int);
        }
        assert(phrase::text_views(sorted@) =~= sorted_paths(views));
    }
    sorted
}

/// The quoted names of the files that paths lead to.
pub open spec fn quoted_names(paths: Seq<Seq<char>>) -> Seq<Seq<char>>
    decreases paths.len(),
{
    if paths.len() == 0 {
        Seq::empty()
    } else {
        let names = quoted_names(paths.drop_last());
        match path_util::file_name_of(paths.last()) {
            Some(name) => names.push(phrase::code(name)),
            None => names,
        }
    }
}

/// Quote the names of the files that paths lead to.
fn quote_names(paths: &Vec<String>) -> (names: Vec<String>)
    ensures
        phrase::text_views(names@) == quoted_names(phrase::text_views(paths@)),
{
    let ghost views = phrase::text_views(paths@);
    let mut names: Vec<String> = Vec::new();
    let mut i: usize = 0;
    proof {
        assert(phrase::text_views(names@) =~= quoted_names(views.take(0)));
    }
    while i < paths.len()
        invariant
            views == phrase::text_views(paths@),
            i <= paths@.len(),
            phrase::text_views(names@) == quoted_names(views.take(i as int)),
        decreases paths.len() - i,
    {
        let ghost before = phrase::text_views(names@);
        proof {
            assert(views[i as int] == paths@[i as int]@);
            assert(views.take(i + 1).drop_last() =~= views.take(i as int));
            assert(views.take(i + 1).last() == views[i as int]);
        }
        if let Some(name) = path_util::file_name(paths[i].as_str()) {
            let quoted = phrase::code_str(name.as_str());
            let ghost quoted_view = quoted@;
            names.push(quoted);
            proof {
                assert(phrase::text_views(names@) =~= before.push(quoted_view));
            }
        }
        i = i + 1;
    }
    proof {
        assert(views.take(i as int) =~= views);
    }
    names
}

/// A search for the nearest wiki in a directory or one of its ancestors.
#[derive(Clone, Debug)]
pub struct WikiSearch {
    pub start: String,
    pub directory: Option<String>,
}

/// What a search has come to.
pub enum SearchStep {
    Found(String),
    Failed(Error),
    Continue,
}

/// The error for a directory with more than one wiki.
pub open spec fn ambiguity_error(directory: Seq<char>, wikis: Seq<Seq<char>>) -> ErrorView {
    error::file_error(
        "Found multiple wikis in "@ + phrase::code(directory) + ": "@ + phrase::joined(
            quoted_names(sorted_paths(wikis)),
            ", "@,
        ),
        None,
        None,
    )
}

/// The text of an optional string.
pub open spec fn text_of(value: Option<String>) -> Option<Seq<char>> {
    match value {
        Some(value) => Some(value@),
        None => None,
    }
}

/// Whether a step is what the wikis of a directory lead to: the only one is the result, more than
/// one is an error, and none sends the search to the directory above.
pub open spec fn is_step(
    step: SearchStep,
    directory: Seq<char>,
    wikis: Seq<Seq<char>>,
    next: Option<Seq<char>>,
) -> bool {
    if wikis.len() > 1 {
        step matches SearchStep::Failed(error) && error@ == ambiguity_error(directory, wikis)
    } else if wikis.len() == 1 {
        step matches SearchStep::Found(path) && path@ == wikis[0]
    } else {
        step is Continue && next == path_util::parent_of(directory)
    }
}

impl WikiSearch {
    /// Start a search in a directory.
    pub fn new(current_directory: &str) -> (search: WikiSearch)
        ensures
            search.start@ == current_directory@,
            text_of(search.directory) == Some(current_directory@),
    {
        WikiSearch {
            start: current_directory.to_owned(),
            directory: Some(current_directory.to_owned()),
        }
    }

    /// Find the directory to look at next.
    pub fn next_directory(&self) -> (directory: Option<&str>)
        ensures
            error::optional_text(directory) == text_of(self.directory),
    {
        match &self.directory {
            Some(directory) => Some(directory.as_str()),
            None => None,
        }
    }

    /// Take in the wikis that the next directory has.
    pub fn observe(&mut self, wikis: Vec<String>) -> (step: SearchStep)
        requires
            old(self).directory is Some,
        ensures
            is_step(
                step,
                old(self).directory->0@,
                phrase::text_views(wikis@),
                text_of(final(self).directory),
            ),
            !(step is Continue) ==> final(self).directory == old(self).directory,
            final(self).start == old(self).start,
    {
        let directory = match &self.directory {
            Some(directory) => directory.clone(),
            None => return SearchStep::Continue,
        };
        let ghost views = phrase::text_views(wikis@);
        proof {
            assert(views.len() == wikis@.len());
        }

        // Reject multiple wikis because there is no unambiguous choice.
        if wikis.len() > 1 {
            let sorted = sort_paths(wikis);
            let names = phrase::join(&quote_names(&sorted), ", ");
            let quoted = phrase::code_str(directory.as_str());
            let mut message = phrase::concat3("Found multiple wikis in ", quoted.as_str(), ": ");
            message.append(names.as_str());
            return SearchStep::Failed(Error::of_file(message, None, None));
        }

        // Return the wiki in this directory, if one exists.
        if wikis.len() == 1 {
            proof {
                assert(views[0] == wikis@[0]@);
            }
            return SearchStep::Found(wikis[0].clone());
        }
        self.directory = path_util::parent(directory.as_str());
        SearchStep::Continue
    }

    /// Report that the search completed without finding a wiki.
    pub fn not_found(&self) -> (error: Error)
        ensures
            error@ == error::file_error(
                "No wiki found in "@ + phrase::code(self.start@) + " or its ancestors."@,
                None,
                None,
            ),
    {
        let quoted = phrase::code_str(self.start.as_str());
        let message = phrase::concat3("No wiki found in ", quoted.as_str(), " or its ancestors.");
        Error::of_file(message, None, None)
    }
}

/// The directory some levels above another, if there is one.
pub open spec fn ancestor(start: Seq<char>, level: nat) -> Option<Seq<char>>
    decreases level,
{
    if level == 0 {
        Some(start)
    } else {
        match ancestor(start, (level - 1) as nat) {
            Some(directory) => path_util::parent_of(directory),
            None => None,
        }
    }
}

/// Whether steps are those of a search that starts in a directory, given the wikis that each directory
/// has: every step but the last one goes on to the directory above.
pub open spec fn is_search(
    start: Seq<char>,
    wikis_in: spec_fn(Seq<char>) -> Seq<Seq<char>>,
    steps: Seq<SearchStep>,
) -> bool {
    forall|k: int|
        0 <= k < steps.len() ==> {
            &&& ancestor(start, k as nat) is Some
            &&& is_step(
                #[trigger] steps[k],
                ancestor(start, k as nat)->0,
                wikis_in(ancestor(start, k as nat)->0),
                ancestor(start, (k + 1) as nat),
            )
            &&& k < steps.len() - 1 ==> steps[k] is Continue
        }
}

/// A search finds the only wiki of the nearest directory that has any, fails at that directory if it has
/// more than one, and goes past every directory only if none has a wiki.
pub proof fn law_search_finds_the_nearest_wiki(
    start: Seq<char>,
    wikis_in: spec_fn(Seq<char>) -> Seq<Seq<char>>,
    steps: Seq<SearchStep>,
)
    requires
        is_search(start, wikis_in, steps),
        steps.len() > 0,
    ensures
        forall|k: nat|
            k < steps.len() - 1 ==> wikis_in((#[trigger] ancestor(start, k))->0).len() == 0,
        ({
            let last = ancestor(start, (steps.len() - 1) as nat)->0;
            match steps.last() {
                SearchStep::Found(path) => wikis_in(last) == seq![path@],
                SearchStep::Failed(error) => wikis_in(last).len() > 1 && error@
                    == ambiguity_error(last, wikis_in(last)),
                SearchStep::Continue => wikis_in(last).len() == 0,
            }
        }),
{
    assert forall|k: nat| k < steps.len() - 1 implies wikis_in(
        (#[trigger] ancestor(start, k))->0,
    ).len() == 0 by {
        assert(steps[k as int] is Continue);
    }
    let n = steps.len() - 1;
    assert(steps[n] == steps.last());
    if let SearchStep::Found(path) = steps.last() {
        assert(wikis_in(ancestor(start, n as nat)->0) =~= seq![path@]);
    }
}

/// How bytes that are not valid UTF-8 are described: what the `Display` of the error of
/// `String::from_utf8` writes.
pub uninterp spec fn utf8_error_text(bytes: Seq<u8>) -> Seq<char>;

/// Decodes bytes as UTF-8: `String::from_utf8`. A text comes back exactly if the bytes are valid
/// UTF-8, and then it is the text whose encoding they are. Otherwise a description comes back that
/// depends only on the bytes.
#[verifier::external_body]
fn decode_utf8(bytes: Vec<u8>) -> (result: Result<String, String>)
    ensures
        result is Ok <==> utf8::valid_utf8(bytes@),
        result matches Ok(text) ==> utf8::encode_utf8(text@) == bytes@,
        result matches Err(description) ==> description@ == utf8_error_text(bytes@),
{
    String::from_utf8(bytes).map_err(|error| error.to_string())
}

/// Require the contents of a wiki to be valid UTF-8.
pub fn decode_wiki(wiki_path: &str, bytes: Vec<u8>) -> (result: Result<String, Error>)
    ensures
        match result {
            Ok(contents) => utf8::valid_utf8(bytes@) && utf8::encode_utf8(contents@) == bytes@,
            Err(error) => !utf8::valid_utf8(bytes@) && exists|description: String|
                description@ == utf8_error_text(bytes@) && error@ == #[trigger] error::file_error(
                    "The wiki is not valid UTF-8."@,
                    Some(wiki_path@),
                    Some(Reason::Outside(description)),
                ),
        },
{
    match decode_utf8(bytes) {
        Ok(contents) => Ok(contents),
        Err(description) => Err(
            Error::of_file(
                "The wiki is not valid UTF-8.".to_owned(),
                Some(wiki_path),
                Some(Reason::Outside(description)),
            ),
        ),
    }
}

/// What is to be done with a wiki.
#[derive(Clone, Copy, Debug, PartialEq, Eq, Structural)]
pub enum Operation {
    Check,
    Fix,
}

/// What an operation comes to: what to tell, and what to write in place of the wiki, if anything.
#[derive(Clone, Debug)]
pub struct Completion {
    pub message: String,
    pub rewrite: Option<String>,
}

/// The contents of a completion.
pub struct CompletionView {
    pub message: Seq<char>,
    pub rewrite: Option<Seq<char>>,
}

impl View for Completion {
    type V = CompletionView;

    open spec fn view(&self) -> CompletionView {
        CompletionView { message: self.message@, rewrite: text_of(self.rewrite) }
    }
}

/// What to tell of a wiki that needs no change.
pub open spec fn good(path: Seq<char>) -> CompletionView {
    CompletionView { message: "Wiki "@ + phrase::code(path) + " looks good."@, rewrite: None }
}

/// What an operation comes to, given the analysis of the wiki. A fix rewrites a wiki that differs from
/// its rendering, and a check reports it.
pub open spec fn completion_of(
    operation: Operation,
    path: Seq<char>,
    s: Seq<char>,
    analysis: Analysis,
) -> Outcome<Result<CompletionView, Seq<ErrorView>>> {
    let result = match operation {
        Operation::Check => checker::check_of(Some(path), s, analysis),
        Operation::Fix => analysis,
    };
    match result {
        Outcome::Cancelled => Outcome::Cancelled,
        Outcome::Completed(Err(errors)) => Outcome::Completed(Err(errors)),
        Outcome::Completed(Ok(nodes)) => if s == wiki::wiki_text(nodes) {
            Outcome::Completed(Ok(good(path)))
        } else {
            Outcome::Completed(
                Ok(
                    CompletionView {
                        message: "Fixed "@ + phrase::code(path) + "."@,
                        rewrite: Some(wiki::wiki_text(nodes)),
                    },
                ),
            )
        },
    }
}

/// The contents of what an operation came to.
pub open spec fn completion_view(result: Outcome<Result<Completion, Vec<Error>>>) -> Outcome<
    Result<CompletionView, Seq<ErrorView>>,
> {
    match result {
        Outcome::Cancelled => Outcome::Cancelled,
        Outcome::Completed(Ok(completion)) => Outcome::Completed(Ok(completion@)),
        Outcome::Completed(Err(errors)) => Outcome::Completed(Err(error::error_views(errors@))),
    }
}

/// Check or fix a wiki, given the outcome of a check of the filesystem around it.
pub fn operate(
    operation: Operation,
    wiki_path: &str,
    wiki_contents: &str,
    filesystem: Outcome<Vec<Error>>,
) -> (result: Outcome<Result<Completion, Vec<Error>>>)
    ensures
        completion_view(result) == completion_of(
            operation,
            wiki_path@,
            wiki_contents@,
            analyzer::analysis_of(
                Some(wiki_path@),
                wiki_contents@,
                analyzer::errors_view(filesystem),
            ),
        ),
{
    // Analyze the wiki and additionally check its formatting when no fix was requested.
    let analysis = match operation {
        Operation::Check => checker::check(Some(wiki_path), wiki_contents, filesystem),
        Operation::Fix => analyzer::analyze(Some(wiki_path), wiki_contents, filesystem),
    };
    let wiki = match analysis {
        Outcome::Cancelled => return Outcome::Cancelled,
        Outcome::Completed(Err(errors)) => return Outcome::Completed(Err(errors)),
        Outcome::Completed(Ok(wiki)) => wiki,
    };

    // Avoid a rewrite when the wiki is already canonical.
    let rendered = wiki.to_string();
    let quoted = phrase::code_str(wiki_path);
    if text::same_text(wiki_contents, rendered.as_str()) {
        let message = phrase::concat3("Wiki ", quoted.as_str(), " looks good.");
        Outcome::Completed(Ok(Completion { message, rewrite: None }))
    } else {
        let message = phrase::concat3("Fixed ", quoted.as_str(), ".");
        Outcome::Completed(Ok(Completion { message, rewrite: Some(rendered) }))
    }
}

/// A check never rewrites a wiki, and it succeeds on exactly the wikis that a fix would leave alone.
pub proof fn law_check_agrees_with_fix(path: Seq<char>, s: Seq<char>, analysis: Analysis)
    ensures
        ({
            let check = completion_of(Operation::Check, path, s, analysis);
            let fix = completion_of(Operation::Fix, path, s, analysis);
            &&& check matches Outcome::Completed(Ok(completion)) ==> completion.rewrite is None
            &&& check == Outcome::Completed(
                Ok::<CompletionView, Seq<ErrorView>>(good(path)),
            ) <==> fix == Outcome::Completed(Ok::<CompletionView, Seq<ErrorView>>(good(path)))
        }),
{
    let check = completion_of(Operation::Check, path, s, analysis);
    if let Outcome::Completed(Ok(nodes)) = analysis {
        if s != wiki::wiki_text(nodes) {
            assert(check is Completed);
        }
    }
}

/// Once a fix has succeeded, a check has nothing to report: neither on what the fix wrote nor, if it
/// wrote nothing, on the wiki that it left alone. This is so as long as the contents of the wiki
/// settle and there is nothing wrong with the files around it.
pub proof fn law_check_accepts_what_fix_leaves(path: Seq<char>, s: Seq<char>, fixed: CompletionView)
    requires
        formatting::all_settle(s),
        completion_of(
            Operation::Fix,
            path,
            s,
            analyzer::analysis_of(Some(path), s, Outcome::Completed(Seq::empty())),
        ) == Outcome::Completed(Ok::<CompletionView, Seq<ErrorView>>(fixed)),
    ensures
        ({
            let left = match fixed.rewrite {
                Some(text) => text,
                None => s,
            };
            completion_of(
                Operation::Check,
                path,
                left,
                analyzer::analysis_of(Some(path), left, Outcome::Completed(Seq::empty())),
            ) == Outcome::Completed(Ok::<CompletionView, Seq<ErrorView>>(good(path)))
        }),
{
    let source = Some(path);
    let nodes = parser::parsed(source, s)->Ok_0;
    let clean = Seq::<ErrorView>::empty();
    let r = wiki::wiki_text(nodes);
    assert(validator::wiki_errors(nodes, source, source, s, clean).len() == 0);
    assert(validator::graph_errors(source, s, nodes).len() == 0);
    if s != r {
        formatting::law_formatting_is_stable(source, s, nodes, source);
        let again = parser::parsed(source, r)->Ok_0;
        formatting::lemma_graph_in_order(source, s, nodes, r, again);
        assert(validator::wiki_errors(again, source, source, r, clean).len() == 0);
    }
}

} // verus!
