//! Errors, listings and colors.

use std::rc::Rc;

use mull::error::format_errors;
use mull::error::format_errors_with;
use mull::error::listing;
use mull::error::listing_with;
use mull::error::source_error;
use mull::error::source_error_with_reason;
use mull::error::throw;
use mull::error::Error;
use mull::error::Reason;
use mull::error::SourceRange;

fn nested(message: &str) -> Reason {
    Reason::Nested(Rc::new(Error::new(message)))
}

#[test]
fn error_no_reason_display() {
    assert_eq!(
        Error::new("Something went wrong.").to_string(),
        "[Error] Something went wrong.",
    );
}

#[test]
fn error_with_reason_display() {
    let mut error = Error::new("Something went wrong.");
    error.reason = Some(nested("Something deeper went wrong."));

    assert_eq!(
        error.to_string(),
        "[Error] Something went wrong.\n\nReason: [Error] Something deeper went wrong.",
    );
}

#[test]
fn throw_no_source_path_listing_reason() {
    let error = throw("An error occurred.", None, None, None);

    assert_eq!(error.message, "An error occurred.");
    assert_eq!(error.to_string(), "[Error] An error occurred.");
    assert!(error.source_range.is_none());
}

#[test]
fn throw_with_source_path_no_listing_reason() {
    assert_eq!(
        throw("An error occurred.", Some("foo"), None, None).to_string(),
        "[Error] [`foo`] An error occurred.",
    );
}

#[test]
fn throw_with_listing_no_source_path_reason() {
    assert_eq!(
        throw("An error occurred.", None, Some("It happened here."), None).to_string(),
        "[Error] An error occurred.\n\nIt happened here.",
    );
}

#[test]
fn throw_with_reason_no_source_path_listing() {
    let reason = throw("An deeper error occurred.", None, None, None);

    assert_eq!(
        throw("An error occurred.", None, None, Some(Reason::Nested(Rc::new(reason)))).to_string(),
        "[Error] An error occurred.\n\nReason: [Error] An deeper error occurred.",
    );
}

#[test]
fn throw_with_source_path_listing_no_reason() {
    assert_eq!(
        throw("An error occurred.", Some("foo"), Some("It happened here."), None).to_string(),
        "[Error] [`foo`] An error occurred.\n\nIt happened here.",
    );
}

#[test]
fn throw_with_listing_reason_no_source_path() {
    let reason = throw("An deeper error occurred.", None, None, None);

    assert_eq!(
        throw(
            "An error occurred.",
            None,
            Some("It happened here."),
            Some(Reason::Nested(Rc::new(reason))),
        )
        .to_string(),
        "[Error] An error occurred.\n\nIt happened here.\n\nReason: [Error] An deeper error occurred.",
    );
}

#[test]
fn throw_with_source_path_reason_no_listing() {
    let reason = throw("An deeper error occurred.", None, None, None);

    assert_eq!(
        throw(
            "An error occurred.",
            Some("foo"),
            None,
            Some(Reason::Nested(Rc::new(reason))),
        )
        .to_string(),
        "[Error] [`foo`] An error occurred.\n\nReason: [Error] An deeper error occurred.",
    );
}

#[test]
fn throw_with_source_path_listing_reason() {
    let reason = throw("An deeper error occurred.", None, None, None);

    assert_eq!(
        throw(
            "An error occurred.",
            Some("foo"),
            Some("It happened here."),
            Some(Reason::Nested(Rc::new(reason))),
        )
        .to_string(),
        "[Error] [`foo`] An error occurred.\n\nIt happened here.\n\nReason: [Error] An deeper error occurred.",
    );
}

#[test]
fn source_error_retains_range() {
    let source_range = SourceRange { start: 1, end: 3 };
    let error = source_error("An error occurred.", "foo", "abcd", source_range);

    assert_eq!(error.message, "An error occurred.");
    assert_eq!(error.source_range, Some(source_range));
    assert_eq!(
        error.to_string(),
        "[Error] [`foo`] An error occurred.\n\n1 \u{2502} abcd\n     \u{203e}\u{203e}",
    );
}

#[test]
fn listing_empty() {
    assert_eq!(listing("", SourceRange { start: 0, end: 0 }), "");
}

#[test]
fn listing_single_line_full_range() {
    assert_eq!(
        listing("foo bar", SourceRange { start: 0, end: 7 }),
        "1 \u{2502} foo bar\n    \u{203e}\u{203e}\u{203e}\u{203e}\u{203e}\u{203e}\u{203e}",
    );
}

#[test]
fn listing_single_line_partial_range() {
    assert_eq!(
        listing("foo bar", SourceRange { start: 1, end: 6 }),
        "1 \u{2502} foo bar\n     \u{203e}\u{203e}\u{203e}\u{203e}\u{203e}",
    );
}

#[test]
fn listing_multiple_lines_full_range() {
    assert_eq!(
        listing("foo\nbar\nbaz\nqux", SourceRange { start: 0, end: 15 }),
        "1 \u{2502} foo\n  \u{250a} \u{203e}\u{203e}\u{203e}\n2 \u{2502} bar\n  \u{250a} \
            \u{203e}\u{203e}\u{203e}\n3 \u{2502} baz\n  \u{250a} \u{203e}\u{203e}\u{203e}\n4 \
            \u{2502} qux\n    \u{203e}\u{203e}\u{203e}",
    );
}

#[test]
fn listing_multiple_lines_partial_range() {
    assert_eq!(
        listing("foo\nbar\nbaz\nqux", SourceRange { start: 5, end: 9 }),
        "2 \u{2502} bar\n  \u{250a}  \u{203e}\u{203e}\n3 \u{2502} baz\n    \u{203e}",
    );
}

#[test]
fn listing_many_lines_partial_range() {
    assert_eq!(
        listing(
            "foo\nbar\nbaz\nqux\nfoo\nbar\nbaz\nqux\nfoo\nbar\nbaz\nqux",
            SourceRange { start: 33, end: 42 },
        ),
        " 9 \u{2502} foo\n   \u{250a}  \u{203e}\u{203e}\n10 \u{2502} bar\n   \u{250a} \
            \u{203e}\u{203e}\u{203e}\n11 \u{2502} baz\n     \u{203e}\u{203e}",
    );
}

#[test]
fn format_errors_empty() {
    assert_eq!(format_errors(&[]), "");
}

#[test]
fn format_errors_single() {
    assert_eq!(
        format_errors(&[Error::new("Something went wrong.")]),
        "[Error] Something went wrong.",
    );
}

#[test]
fn format_errors_double() {
    assert_eq!(
        format_errors(&[
            Error::new("Something went kinda wrong."),
            Error::new("Something went sorta wrong."),
            Error::new("Something went very wrong."),
        ]),
        "\
[Error] Something went kinda wrong.

[Error] Something went sorta wrong.

[Error] Something went very wrong.\
",
    );
}

#[test]
fn format_errors_visually_empty_line() {
    assert_eq!(
        format_errors(&[
            Error::new(
                "1 \u{2502} foo\n  \u{250a} \u{203e}\u{203e}\u{203e}\n2 \u{2502} \
                            bar\n  \u{250a} \u{203e}\u{203e}\u{203e}\n3 \u{2502} baz\n  \
                            \u{250a} \u{203e}\u{203e}\u{203e}\n4 \u{2502} qux\n    \u{203e}\
                            \u{203e}\u{203e}",
            ),
            Error::new("Something went sorta wrong."),
        ]),
        "\
[Error] 1 \u{2502} foo\n  \u{250a} \u{203e}\u{203e}\u{203e}\n2 \u{2502} \
bar\n  \u{250a} \u{203e}\u{203e}\u{203e}\n3 \u{2502} baz\n  \
\u{250a} \u{203e}\u{203e}\u{203e}\n4 \u{2502} qux\n    \u{203e}\
\u{203e}\u{203e}
[Error] Something went sorta wrong.\
",
    );
}

// Keep an underlying failure alongside the listing of the range it concerns.
#[test]
fn source_error_shows_its_reason() {
    let error = source_error_with_reason(
        "`a` not found.",
        "wiki.mull",
        "[a]",
        SourceRange { start: 0, end: 3 },
        Reason::Outside("no such file".to_owned()),
    );

    assert_eq!(error.message(), "`a` not found.");
    assert_eq!(error.source_path(), Some("wiki.mull"));
    assert_eq!(error.source_range(), Some(SourceRange { start: 0, end: 3 }));
    assert_eq!(error.reason().unwrap().to_string(), "no such file");
    assert_eq!(
        error.render(false),
        "[Error] [`wiki.mull`] `a` not found.\n\n1 \u{2502} [a]\n    \u{203e}\u{203e}\u{203e}\n\nReason: no such file",
    );
}

// Count a range by characters on the line, and leave out the indentation it covers.
#[test]
fn listing_skips_indentation() {
    assert_eq!(
        listing_with("a\n  bc\nd", SourceRange { start: 0, end: 6 }, false),
        "1 \u{2502} a\n  \u{250a} \u{203e}\n2 \u{2502}   bc\n      \u{203e}\u{203e}",
    );
}

// Style each part of an error with its own escape sequences when colors are on.
#[test]
fn errors_are_styled_in_color() {
    colored::control::set_override(true);
    let error = source_error_with_reason(
        "Oops.",
        "foo",
        "abcd",
        SourceRange { start: 1, end: 3 },
        Reason::Outside("because".to_owned()),
    );
    let text = error.render(true);
    let errors = format_errors_with(&[error], true);
    colored::control::unset_override();

    assert_eq!(
        text,
        "\u{1b}[1;31m[Error]\u{1b}[0m \u{1b}[35m[`foo`]\u{1b}[0m Oops.\n\n\
            \u{1b}[1;34m1 \u{2502} \u{1b}[0ma\u{1b}[31mbc\u{1b}[0md\n\n\
            \u{1b}[1;34mReason:\u{1b}[0m because",
    );
    assert_eq!(errors, text);
}

// A range may reach past the end of the source, or lie past it.
#[test]
fn listing_past_the_end() {
    assert_eq!(
        listing_with("a\n", SourceRange { start: 0, end: 10 }, false),
        "1 \u{2502} a\n  \u{250a} \u{203e}\n2 \u{2502} \n   ",
    );
    assert_eq!(listing_with("a", SourceRange { start: 5, end: 10 }, false), "");
    assert_eq!(listing_with("a", SourceRange { start: 0, end: 10 }, false), "1 \u{2502} a\n    \u{203e}");
}
