//! The commands that check and fix a wiki.

use mull::analyzer::analyze;
use mull::cancellation::Outcome;
use mull::checker::check;
use mull::checker::report_format;
use mull::command::decode_wiki;
use mull::command::has_wiki_extension;
use mull::command::operate;
use mull::command::Operation;
use mull::command::SearchStep;
use mull::command::WikiSearch;
use mull::error::Error;
use mull::error::Reason;

fn nothing() -> Outcome<Vec<Error>> {
    Outcome::Completed(Vec::new())
}

// Recognize wikis by their extension in any case.
#[test]
fn wiki_extensions() {
    assert!(has_wiki_extension("/notes/wiki.mull"));
    assert!(has_wiki_extension("wiki.old.MULL"));
    assert!(!has_wiki_extension("wiki.mul"));
    assert!(!has_wiki_extension(".mull"));
    assert!(!has_wiki_extension("mull"));
    assert!(!has_wiki_extension("wiki.mull.txt"));
}

// Search the ancestors of a directory until one has a wiki.
#[test]
fn wiki_search() {
    let mut search = WikiSearch::new("/home/notes");
    assert_eq!(search.next_directory(), Some("/home/notes"));
    assert!(matches!(search.observe(Vec::new()), SearchStep::Continue));
    assert_eq!(search.next_directory(), Some("/home"));
    let step = search.observe(vec!["/home/wiki.mull".to_owned()]);
    assert!(matches!(step, SearchStep::Found(path) if path == "/home/wiki.mull"));

    let mut search = WikiSearch::new("/home");
    assert!(matches!(search.observe(Vec::new()), SearchStep::Continue));
    assert_eq!(search.next_directory(), Some("/"));
    assert!(matches!(search.observe(Vec::new()), SearchStep::Continue));
    assert_eq!(search.next_directory(), None);
    assert_eq!(
        search.not_found().message(),
        "No wiki found in `/home` or its ancestors.",
    );
}

// Reject more than one wiki in a directory.
#[test]
fn ambiguous_wikis() {
    let mut search = WikiSearch::new("/home");
    let step = search.observe(vec!["/home/b.mull".to_owned(), "/home/a.mull".to_owned()]);
    let SearchStep::Failed(error) = step else {
        panic!("two wikis should be ambiguous");
    };
    assert_eq!(
        error.message(),
        "Found multiple wikis in `/home`: `a.mull`, `b.mull`",
    );
}

// Require the contents of a wiki to be text.
#[test]
fn wiki_encoding() {
    assert_eq!(decode_wiki("wiki.mull", "# Grüße".as_bytes().to_vec()).unwrap(), "# Grüße");
    let error = decode_wiki("wiki.mull", vec![35, 255]).unwrap_err();
    assert_eq!(error.message(), "The wiki is not valid UTF-8.");
    assert_eq!(error.source_path(), Some("wiki.mull"));
    let std_error = String::from_utf8(vec![35, 255]).unwrap_err().to_string();
    assert!(matches!(error.reason(), Some(Reason::Outside(text)) if *text == std_error));
}

// Leave a canonical wiki alone, and rewrite one that is not when fixing it.
#[test]
fn fixing_and_checking() {
    let canonical = "# Home\n\n[Zulu]\n\n# Zulu\n";
    for operation in [Operation::Check, Operation::Fix] {
        let completion = operate(operation, "wiki.mull", canonical, nothing())
            .assume_completed()
            .unwrap();
        assert_eq!(completion.message, "Wiki `wiki.mull` looks good.");
        assert_eq!(completion.rewrite, None);
    }

    let source = "# Zulu\n\n# Home\n\n[Zulu]";
    let completion = operate(Operation::Fix, "wiki.mull", source, nothing())
        .assume_completed()
        .unwrap();
    assert_eq!(completion.message, "Fixed `wiki.mull`.");
    assert_eq!(completion.rewrite.as_deref(), Some(canonical));

    let errors = operate(Operation::Check, "wiki.mull", source, nothing())
        .assume_completed()
        .unwrap_err();
    assert_eq!(errors.len(), 1);
    assert!(matches!(
        operate(Operation::Check, "wiki.mull", source, Outcome::Cancelled),
        Outcome::Cancelled
    ));
}

// Show how a wiki differs from its rendering.
#[test]
fn format_differences() {
    let errors = check(Some("wiki.mull"), "# Home\n\n\n", nothing())
        .assume_completed()
        .unwrap_err();

    assert_eq!(errors.len(), 1);
    assert_eq!(
        errors[0].message(),
        "The wiki is not formatted correctly. `mull fix` can fix it.\n\n\
            --- wiki\n+++ rendered\n@@ -1,3 +1 @@\n # Home\n-\n-\n",
    );
    assert_eq!(
        report_format(None, "diff").message(),
        "The wiki is not formatted correctly. `mull fix` can fix it.\n\ndiff",
    );
}

// Report syntax errors alone, and otherwise every other error.
#[test]
fn analysis() {
    let found = || Outcome::Completed(vec![Error::new("File `a` is not referenced.")]);

    let errors = analyze(None, "# Home\n]", found()).assume_completed().unwrap_err();
    assert_eq!(errors.len(), 1);
    assert_eq!(errors[0].message(), "Unexpected closing link delimiter.");

    let errors = analyze(Some("wiki.mull"), "# Home\n[A]", found())
        .assume_completed()
        .unwrap_err();
    assert_eq!(
        errors.iter().map(Error::message).collect::<Vec<_>>(),
        vec!["Node `A` not found.", "File `a` is not referenced."],
    );
    assert!(analyze(Some("wiki.mull"), "# Home", nothing()).assume_completed().is_ok());
    assert!(matches!(
        analyze(Some("wiki.mull"), "# Home", Outcome::Cancelled),
        Outcome::Cancelled
    ));
}
