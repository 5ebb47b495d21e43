//! Parsing and validation together.

use vstd::prelude::*;

use crate::cancellation::Outcome;
use crate::error;
use crate::error::Error;
use crate::error::ErrorView;
use crate::parser;
use crate::path_util::WikiLocation;
use crate::validator;
use crate::wiki::NodeView;
use crate::wiki::Wiki;

verus! {

/// What an analysis of a source gives: the wiki, or its errors, or nothing if it was cancelled.
pub type Analysis = Outcome<Result<Seq<NodeView>, Seq<ErrorView>>>;

/// The contents of an analysis.
pub open spec fn analysis_view(analysis: Outcome<Result<Wiki, Vec<Error>>>) -> Analysis {
    match analysis {
        Outcome::Completed(result) => Outcome::Completed(parser::parse_views(result)),
        Outcome::Cancelled => Outcome::Cancelled,
    }
}

/// The errors in an outcome.
pub open spec fn errors_view(outcome: Outcome<Vec<Error>>) -> Outcome<Seq<ErrorView>> {
    match outcome {
        Outcome::Completed(errors) => Outcome::Completed(error::error_views(errors@)),
        Outcome::Cancelled => Outcome::Cancelled,
    }
}

/// The analysis of a source, given the outcome of a check of the filesystem around it. Errors in
/// the syntax come alone.
pub open spec fn analysis_of(
    path: Option<Seq<char>>,
    s: Seq<char>,
    filesystem: Outcome<Seq<ErrorView>>,
) -> Analysis {
    match parser::parsed(path, s) {
        Err(errors) => Outcome::Completed(Err(errors)),
        Ok(nodes) => match filesystem {
            Outcome::Cancelled => Outcome::Cancelled,
            Outcome::Completed(found) => {
                let errors = validator::wiki_errors(nodes, path, path, s, found);
                if errors.len() == 0 {
                    Outcome::Completed(Ok(nodes))
                } else {
                    Outcome::Completed(Err(errors))
                }
            },
        },
    }
}

/// Parse and validate source contents with any available surrounding filesystem.
pub fn analyze(
    source_path: Option<&str>,
    source_contents: &str,
    filesystem: Outcome<Vec<Error>>,
) -> (analysis: Outcome<Result<Wiki, Vec<Error>>>)
    ensures
        analysis_view(analysis) == analysis_of(
            error::optional_text(source_path),
            source_contents@,
            errors_view(filesystem),
        ),
{
    // Parse and score the wiki before performing validations that require its structure.
    let wiki = match parser::parse(source_path, source_contents) {
        Ok(wiki) => wiki,
        Err(errors) => return Outcome::Completed(Err(errors)),
    };
    let location = match source_path {
        Some(path) => WikiLocation::Local { path, display_path: path },
        None => WikiLocation::Untitled,
    };
    match filesystem {
        Outcome::Cancelled => Outcome::Cancelled,
        Outcome::Completed(found) => match validator::validate(
            &wiki,
            location,
            source_contents,
            found,
        ) {
            Ok(_) => Outcome::Completed(Ok(wiki)),
            Err(errors) => Outcome::Completed(Err(errors)),
        },
    }
}

} // verus!
