//! The check command.

use vstd::prelude::*;
use vstd::string::StringExecFns;

use crate::analyzer;
use crate::analyzer::Analysis;
use crate::cancellation::Outcome;
use crate::error;
use crate::error::Error;
use crate::error::ErrorView;
use crate::phrase;
use crate::text;
use crate::wiki;
use crate::wiki::Wiki;

pub use crate::analyzer::analyze;

verus! {

/// The unified diff that takes one text to another, by lines, under given names: what the `Display`
/// of `similar::udiff::UnifiedDiff` writes for a `similar::TextDiff` without a deadline.
pub uninterp spec fn unified_diff_text(
    old_text: Seq<char>,
    new_text: Seq<char>,
    old_name: Seq<char>,
    new_name: Seq<char>,
) -> Seq<char>;

/// Compares two texts: `similar::TextDiff::from_lines`, shown by `unified_diff` with a header. The
/// result depends only on the two texts and the two names, since no deadline is set.
#[verifier::external_body]
fn unified_diff(old_text: &str, new_text: &str, old_name: &str, new_name: &str) -> (diff: String)
    ensures
        diff@ == unified_diff_text(old_text@, new_text@, old_name@, new_name@),
{
    similar::TextDiff::from_lines(old_text, new_text)
        .unified_diff()
        .header(old_name, new_name)
        .to_string()
}

/// The error for a wiki that differs from its rendering.
pub open spec fn format_error(path: Option<Seq<char>>, diff: Seq<char>) -> ErrorView {
    error::file_error(
        "The wiki is not formatted correctly. "@ + phrase::code("mull fix"@) + " can fix it.\n\n"@
            + diff,
        path,
        None,
    )
}

/// Report a wiki that differs from its rendering, given the difference.
pub fn report_format(source_path: Option<&str>, diff: &str) -> (error: Error)
    ensures
        error@ == format_error(error::optional_text(source_path), diff@),
{
    let command = phrase::code_str("mull fix");
    let mut message = phrase::concat3(
        "The wiki is not formatted correctly. ",
        command.as_str(),
        " can fix it.\n\n",
    );
    message.append(diff);
    Error::of_file(message, source_path, None)
}

/// The check of a source, given its analysis: a wiki that differs from its rendering has an error.
pub open spec fn check_of(path: Option<Seq<char>>, s: Seq<char>, analysis: Analysis) -> Analysis {
    match analysis {
        Outcome::Completed(Ok(nodes)) => if s == wiki::wiki_text(nodes) {
            analysis
        } else {
            Outcome::Completed(
                Err(
                    seq![
                        format_error(
                            path,
                            unified_diff_text(
                                s,
                                wiki::wiki_text(nodes),
                                "wiki"@,
                                "rendered"@,
                            ),
                        ),
                    ],
                ),
            )
        },
        _ => analysis,
    }
}

/// Perform every check required by the check command while retaining the parsed wiki.
pub fn check(
    source_path: Option<&str>,
    source_contents: &str,
    filesystem: Outcome<Vec<Error>>,
) -> (result: Outcome<Result<Wiki, Vec<Error>>>)
    ensures
        analyzer::analysis_view(result) == check_of(
            error::optional_text(source_path),
            source_contents@,
            analyzer::analysis_of(
                error::optional_text(source_path),
                source_contents@,
                analyzer::errors_view(filesystem),
            ),
        ),
{
    // Analyze the source before comparing it with its canonical rendering.
    let wiki = match analyze(source_path, source_contents, filesystem) {
        Outcome::Completed(Ok(wiki)) => wiki,
        Outcome::Completed(Err(errors)) => return Outcome::Completed(Err(errors)),
        Outcome::Cancelled => return Outcome::Cancelled,
    };
    let rendered_wiki = wiki.to_string();
    if !text::same_text(source_contents, rendered_wiki.as_str()) {
        let diff = unified_diff(source_contents, rendered_wiki.as_str(), "wiki", "rendered");
        let error = report_format(source_path, diff.as_str());
        let mut errors: Vec<Error> = Vec::new();
        errors.push(error);
        proof {
            assert(error::error_views(errors@) =~= seq![error@]);
        }
        return Outcome::Completed(Err(errors));
    }

    // Every check succeeded.
    Outcome::Completed(Ok(wiki))
}

} // verus!
