//! Wikis: parsing, scoring, validation and rendering.

use mull::error::Error;
use mull::error::Reason;
use mull::error::SourceRange;
use mull::parser::normalize_filesystem_path;
use mull::parser::parse;
use mull::path_util::file_name;
use mull::path_util::join;
use mull::path_util::parent;
use mull::path_util::relative_path;
use mull::path_util::same_path;
use mull::path_util::WikiLocation;
use mull::scoring::populate_depths;
use mull::text::Text;
use mull::validator::place_of;
use mull::validator::validate;
use mull::validator::FilesystemCheck;
use mull::validator::TargetState;
use mull::validator::MAX_FILESYSTEM_ERRORS;
use mull::wiki::escape_link_delimiters;
use mull::wiki::unescape_link_delimiters;
use mull::wiki::Link;
use mull::wiki::TextNode;
use mull::wiki::Wiki;

// Use a harmless range when testing rendering, which does not inspect source locations.
const SOURCE_RANGE: SourceRange = SourceRange { start: 0, end: 0 };

fn node(title: &str, content: &str, links: Vec<Link>, depth: Option<usize>) -> TextNode {
    TextNode {
        title: title.to_owned(),
        content: content.to_owned(),
        links,
        depth,
        source_range: SOURCE_RANGE,
        title_source_range: SOURCE_RANGE,
    }
}

fn text_link(title: &str) -> Link {
    Link::Text {
        title: title.to_owned(),
        source_range: SOURCE_RANGE,
    }
}

// Parse test sources using a stable path for diagnostic assertions.
fn parse_test(source_contents: &str) -> Result<Wiki, Vec<Error>> {
    parse(Some("test.mull"), source_contents)
}

// Find a node that the wiki is known to have.
fn find<'a>(wiki: &'a Wiki, title: &str) -> &'a TextNode {
    wiki.get(title).unwrap()
}

// Describe link targets without coupling semantic assertions to their source ranges.
fn link_targets(links: &[Link]) -> Vec<String> {
    links
        .iter()
        .map(|link| match link {
            Link::Text { title, .. } => format!("text:{title}"),
            Link::File { path, .. } => format!("file:{path}"),
            Link::Directory { path, .. } => format!("dir:{path}"),
        })
        .collect()
}

// Require one of the errors of a parse to contain a message.
fn assert_fails(result: &Result<Wiki, Vec<Error>>, message: &str) {
    assert!(contains_error(result.as_ref().unwrap_err(), message));
}

// Check rendered diagnostics without coupling tests to their complete listings.
fn contains_error(errors: &[Error], message: &str) -> bool {
    errors.iter().any(|error| error.to_string().contains(message))
}

// Parse titles and multiline content while retaining exact source ranges.
#[test]
fn parser_nodes() {
    let source = "  \n#   Home  \n\n Check out the [Greeting]. \n\n# Greeting\n Hello,\nworld! \n";
    let wiki = parse_test(source).unwrap();

    assert_eq!(wiki.text_nodes.len(), 2);
    assert_eq!(find(&wiki, "Home").title, "Home");
    assert_eq!(find(&wiki, "Home").content, "Check out the [Greeting].");
    assert_eq!(
        link_targets(&find(&wiki, "Home").links),
        vec!["text:Greeting"],
    );
    assert_eq!(find(&wiki, "Greeting").content, "Hello,\nworld!");
    assert_eq!(find(&wiki, "Home").title_source_range.start, 7);
    assert_eq!(find(&wiki, "Home").title_source_range.end, 11);
    assert_eq!(find(&wiki, "Home").source_range.start, 3);
    assert_eq!(find(&wiki, "Home").source_range.end, 41);
    let Link::Text { source_range, .. } = &find(&wiki, "Home").links[0] else {
        panic!("the parsed link should be a text link");
    };
    assert_eq!(&source[source_range.start..source_range.end], "[Greeting]");
}

// Preserve duplicate links as distinct source occurrences while normalizing their text.
#[test]
fn links() {
    let wiki = parse_test(
        "# Home\nSee [Greeting], [ About ], and [Greeting].\n# About\n# Greeting",
    )
    .unwrap();

    assert_eq!(
        link_targets(&find(&wiki, "Home").links),
        vec!["text:Greeting", "text:About", "text:Greeting"],
    );
    assert_eq!(
        find(&wiki, "Home").content,
        "See [Greeting], [About], and [Greeting].",
    );
}

// Keep source ranges on UTF-8 boundaries when titles and links contain multibyte characters.
#[test]
fn unicode_source_ranges() {
    let source = "# Home\nSee [Grüße].\n# Grüße";
    let wiki = parse_test(source).unwrap();
    let Link::Text { source_range, .. } = &find(&wiki, "Home").links[0] else {
        panic!("the parsed link should be a text link");
    };

    assert_eq!(&source[source_range.start..source_range.end], "[Grüße]");
    assert_eq!(
        &source[find(&wiki, "Grüße").title_source_range.start
            ..find(&wiki, "Grüße").title_source_range.end],
        "Grüße",
    );
}

// Treat escaped square brackets as literal link-title characters.
#[test]
fn escaped_link_delimiters() {
    let wiki = parse_test(
        r"# Home
See \[Ignored\], [One\]Two], [\[Three], [Four], and \[also ignored\].
# Four
# One]Two
# [Three",
    )
    .unwrap();

    assert_eq!(
        link_targets(&find(&wiki, "Home").links),
        vec!["text:One]Two", "text:[Three", "text:Four"],
    );
}

// Parse file and directory links separately from text links.
#[test]
fn filesystem_links() {
    let wiki = parse_test(
        "# Home\nSee [file:./notes.txt], [dir:images], and [dir:images/./raw], plus [dir:.].",
    )
    .unwrap();

    assert_eq!(
        link_targets(&find(&wiki, "Home").links),
        vec!["file:notes.txt", "dir:images", "dir:images/raw", "dir:"],
    );
}

// Reject filesystem links that are empty, absolute, or contain parents.
#[test]
fn invalid_filesystem_link_paths() {
    let result = parse_test(
        "# Home\n[file:] [file:../notes.txt] [file:notes/../notes.txt] [dir:/images]",
    );

    assert_fails(&result, "This link is missing a path.");
    assert_fails(&result, "Path `../notes.txt` must not contain `..`.");
    assert_fails(&result, "Path `notes/../notes.txt` must not contain `..`.");
    assert_fails(
        &result,
        "Path `/images` must be relative to the wiki directory.",
    );
}

// Reject opening link delimiters that are not closed.
#[test]
fn unclosed_link() {
    assert_fails(&parse_test("# Home\nSee [Greeting."), "Unclosed link.");
}

// Reject links that span multiple lines.
#[test]
fn link_with_line_break() {
    assert_fails(
        &parse_test("# Home\nSee [Greeting\ncontinued]."),
        "This link contains a line break.",
    );
}

// Reject unescaped opening delimiters inside links.
#[test]
fn unexpected_opening_delimiter() {
    assert_fails(
        &parse_test("# Home\nSee [nested[Greeting]."),
        "Unexpected opening link delimiter.",
    );
}

// Reject unescaped closing delimiters outside links.
#[test]
fn unexpected_closing_delimiter() {
    let errors = parse_test("# Home\nSee Greeting].").unwrap_err();

    assert!(errors[0]
        .to_string()
        .contains("Unexpected closing link delimiter"));
    assert!(errors[0].to_string().contains("2 \u{2502} See Greeting]."));
}

// Treat non-title hash prefixes as ordinary content.
#[test]
fn parser_non_title_hashes() {
    let wiki = parse_test("# Home\n\n## Subtitle\n#not a title").unwrap();

    assert_eq!(find(&wiki, "Home").content, "## Subtitle\n#not a title");
}

// Accept empty and whitespace-only wikis.
#[test]
fn empty_wiki() {
    assert!(parse_test(" \n\t\n").unwrap().text_nodes.is_empty());
}

// Accept empty node content.
#[test]
fn parser_empty_content() {
    assert!(find(&parse_test("# Empty").unwrap(), "Empty").content.is_empty());
}

// Parse Windows line endings without retaining carriage returns.
#[test]
fn parser_windows_line_endings() {
    let wiki = parse_test("# Greeting\r\n\r\nHello, world!\r\n").unwrap();

    assert_eq!(find(&wiki, "Greeting").content, "Hello, world!");
}

// Reject non-whitespace content before the first title.
#[test]
fn parser_content_before_title() {
    assert_fails(
        &parse_test("Introduction\n# Home"),
        "This content is not in any node.",
    );
}

// Reject titles that are empty after whitespace is stripped.
#[test]
fn parser_empty_title() {
    let errors = parse_test("#   \nContent").unwrap_err();

    assert_eq!(errors.len(), 1);
    assert!(errors[0].to_string().contains("This title is empty."));
}

// Reject titles that text links would interpret as filesystem links.
#[test]
fn filesystem_link_titles() {
    let errors = parse_test("# Home\n\n# file:notes.txt\n\n# dir:images").unwrap_err();

    assert_eq!(errors.len(), 2);
    for error in &errors {
        assert!(error
            .to_string()
            .contains("This title cannot start with `file:` or `dir:`."));
    }
}

// Do not reinterpret content after an invalid title as content before the first title.
#[test]
fn content_after_empty_title() {
    let errors = parse_test("# Home\n\nfoo\n\n#\n\nbar").unwrap_err();

    assert_eq!(errors.len(), 1);
    assert!(errors[0].to_string().contains("This title is empty."));
}

// Recognize a bare title marker so it can be reported as an empty title.
#[test]
fn bare_empty_title() {
    let errors = parse_test("#").unwrap_err();

    assert_eq!(errors.len(), 1);
    assert!(errors[0].to_string().contains("This title is empty."));
    assert!(errors[0].to_string().contains("1 │ #"));
}

// Report only the first occurrence of content before a valid title.
#[test]
fn repeated_content_before_title() {
    let errors = parse_test("First\nSecond\n# Home").unwrap_err();

    assert_eq!(errors.len(), 1);
    assert!(errors[0]
        .to_string()
        .contains("This content is not in any node."));
}

// Reject duplicate titles and identify the later declaration.
#[test]
fn parser_duplicate_title() {
    let errors = parse_test("# Home\nFirst\n# Home\nSecond").unwrap_err();

    assert_eq!(errors.len(), 1);
    assert!(errors[0].to_string().contains("Duplicate title `Home`."));
    assert!(errors[0].to_string().contains("3 \u{2502} # Home"));
}

// Report errors from every invalid node in source order.
#[test]
fn multiple_node_errors() {
    let errors = parse_test("# First\nUnexpected].\n# Second\nUnclosed [link.").unwrap_err();

    assert_eq!(errors.len(), 2);
    assert!(errors[0]
        .to_string()
        .contains("Unexpected closing link delimiter"));
    assert!(errors[1].to_string().contains("Unclosed link"));
}

// Report every delimiter error within one node.
#[test]
fn multiple_errors_in_node() {
    let errors = parse_test("# Home\nUnexpected] and [nested[link.").unwrap_err();

    assert_eq!(errors.len(), 3);
    assert!(errors[0]
        .to_string()
        .contains("Unexpected closing link delimiter"));
    assert!(errors[1]
        .to_string()
        .contains("Unexpected opening link delimiter"));
    assert!(errors[2].to_string().contains("Unclosed link"));
}

// Report structural and node errors together in source order.
#[test]
fn multiple_error_types() {
    let errors = parse_test(
        "Introduction\n#   \nContent\n# First\nUnexpected].\n# Second\nUnclosed [link.",
    )
    .unwrap_err();

    assert_eq!(errors.len(), 4);
    assert!(errors[0]
        .to_string()
        .contains("This content is not in any node"));
    assert!(errors[1].to_string().contains("This title is empty"));
    assert!(errors[2]
        .to_string()
        .contains("Unexpected closing link delimiter"));
    assert!(errors[3].to_string().contains("Unclosed link"));
}

// Report only the first line break of a link, together with the link it is in.
#[test]
fn line_break_ranges() {
    let source = "# Home\n[a\nb\nc]";
    let errors = parse_test(source).unwrap_err();

    assert_eq!(errors.len(), 1);
    let range = errors[0].source_range().unwrap();
    assert_eq!(&source[range.start..range.end], "[a\n");
}

// A failed node does not reserve its title.
#[test]
fn failed_nodes_do_not_reserve_titles() {
    let errors = parse_test("# Home\n]\n# Home\n").unwrap_err();

    assert_eq!(errors.len(), 1);
    assert_eq!(errors[0].message(), "Unexpected closing link delimiter.");
}

// Normalize paths lexically.
#[test]
fn filesystem_paths() {
    assert_eq!(normalize_filesystem_path("./a//b/./c/"), Ok("a/b/c".to_owned()));
    assert_eq!(normalize_filesystem_path("."), Ok(String::new()));
    assert_eq!(
        normalize_filesystem_path(""),
        Err("This link is missing a path.".to_owned()),
    );
}

// Strip the base directory from a path contained within it.
#[test]
fn contained_path() {
    assert_eq!(
        relative_path("/notes", "/notes/archive/file.txt"),
        "archive/file.txt",
    );
}

// Preserve a path that's outside the base directory.
#[test]
fn outside_path() {
    assert_eq!(relative_path("/notes", "/other/file.txt"), "/other/file.txt");
}

// Take paths apart and put them together again.
#[test]
fn path_parts() {
    assert_eq!(parent("/notes/a.txt").as_deref(), Some("/notes"));
    assert_eq!(parent("/notes").as_deref(), Some("/"));
    assert_eq!(parent("/"), None);
    assert_eq!(parent("notes").as_deref(), Some(""));
    assert_eq!(parent(""), None);
    assert_eq!(file_name("/notes/a.txt").as_deref(), Some("a.txt"));
    assert_eq!(file_name("/notes/.."), None);
    assert_eq!(join("/notes", "a.txt"), "/notes/a.txt");
    assert_eq!(join("/notes/", "a.txt"), "/notes/a.txt");
    assert_eq!(join("", "a.txt"), "a.txt");
    assert_eq!(join("/notes", "/a.txt"), "/a.txt");
    assert!(same_path("/notes//a.txt/.", "/notes/a.txt"));
    assert!(!same_path("notes", "/notes"));
    assert_eq!(relative_path("/notes", "/notesx/a"), "/notesx/a");
    assert_eq!(place_of("wiki.mull"), Some((".".to_owned(), "./wiki.mull".to_owned())));
}

// Populate depths for nodes reached through multiple levels of text links.
#[test]
fn scoring_transitive_text_links() {
    let mut wiki = parse(None, "# Home\nSee [Middle].\n# Middle\nSee [End].\n# End").unwrap();

    populate_depths(&mut wiki);

    assert_eq!(find(&wiki, "Home").depth, Some(0));
    assert_eq!(find(&wiki, "Middle").depth, Some(1));
    assert_eq!(find(&wiki, "End").depth, Some(2));
}

// Choose the shortest distance when a node is reachable through multiple paths.
#[test]
fn scoring_minimum_depth() {
    let mut wiki = parse(
        None,
        "# Home\nSee [Left] and [Target].\n# Left\nSee [Middle].\n# Middle\nSee [Target].\n# Target",
    )
    .unwrap();

    populate_depths(&mut wiki);

    assert_eq!(find(&wiki, "Left").depth, Some(1));
    assert_eq!(find(&wiki, "Middle").depth, Some(2));
    assert_eq!(find(&wiki, "Target").depth, Some(1));
}

// Forget depths that no longer hold, and follow cycles only once.
#[test]
fn scoring_ignores_old_depths() {
    let mut wiki = parse(None, "# Home\n[A]\n# A\n[B]\n# B\n[A] [Home]\n# C\n[A]").unwrap();
    wiki.text_nodes[3].depth = Some(9);

    populate_depths(&mut wiki);
    populate_depths(&mut wiki);

    assert_eq!(find(&wiki, "B").depth, Some(2));
    assert_eq!(find(&wiki, "C").depth, None);
}

fn validate_untitled(source_contents: &str) -> Result<(), Vec<Error>> {
    let wiki = parse_test(source_contents).unwrap();
    validate(&wiki, WikiLocation::Untitled, source_contents, Vec::new())
}

fn local() -> WikiLocation<'static> {
    WikiLocation::Local {
        path: "/notes/wiki.mull",
        display_path: "test.mull",
    }
}

// Validate syntax and graph structure without requiring an untitled wiki to be saved.
#[test]
fn untitled_text_only_wiki() {
    assert!(validate_untitled("# Home\nSee [Greeting].\n# Greeting").is_ok());
}

// Report every filesystem link at its source location until an untitled wiki is saved.
#[test]
fn untitled_filesystem_links() {
    let source = "# Home\n[file:notes.txt] [dir:images]";

    let errors = validate_untitled(source).unwrap_err();
    assert_eq!(errors.len(), 2);
    assert!(errors.iter().all(|error| {
        error.message() == "Save the wiki to validate this filesystem link."
            && error.source_path().is_none()
    }));
    assert_eq!(
        errors
            .iter()
            .map(|error| {
                let range = error.source_range().unwrap();
                &source[range.start..range.end]
            })
            .collect::<Vec<_>>(),
        vec!["[file:notes.txt]", "[dir:images]"],
    );
}

// Limit the filesystem errors of an untitled wiki.
#[test]
fn untitled_filesystem_errors_are_limited() {
    let mut source = "# Home\n".to_owned();
    for _ in 0..MAX_FILESYSTEM_ERRORS + 5 {
        source.push_str("[file:a] ");
    }

    assert_eq!(
        validate_untitled(&source).unwrap_err().len(),
        MAX_FILESYSTEM_ERRORS,
    );
}

// Reject a missing home node, missing targets and unreachable nodes, in that order.
#[test]
fn graph_errors() {
    let source = "# Other\n[] [Missing]\n# Another";
    let wiki = parse_test(source).unwrap();
    let errors = validate(&wiki, local(), source, Vec::new()).unwrap_err();

    assert_eq!(
        errors.iter().map(Error::message).collect::<Vec<_>>(),
        vec![
            "The wiki does not contain a `Home` node.",
            "This link is missing a target.",
            "Node `Missing` not found.",
        ],
    );
    assert!(errors.iter().all(|error| error.source_path() == Some("test.mull")));

    let source = "# Home\nSee [Middle].\n# Middle\n# Zulu\n# Alpha";
    let wiki = parse_test(source).unwrap();
    let errors = validate(&wiki, local(), source, Vec::new()).unwrap_err();
    assert_eq!(
        errors.iter().map(Error::message).collect::<Vec<_>>(),
        vec![
            "Node `Alpha` is not reachable from `Home`.",
            "Node `Zulu` is not reachable from `Home`.",
        ],
    );
}

// Reject a wiki whose path has no file name, whatever the filesystem says.
#[test]
fn wiki_without_file_name() {
    let wiki = parse_test("# Home").unwrap();
    let location = WikiLocation::Local {
        path: "/notes/..",
        display_path: "..",
    };
    let errors = validate(&wiki, location, "# Home", vec![Error::new("Unused.")]).unwrap_err();

    assert_eq!(errors.len(), 1);
    assert_eq!(
        errors[0].message(),
        "Unable to determine the file name of `/notes/..`.",
    );
}

fn check_of(source: &str) -> (FilesystemCheck, Text) {
    let wiki = parse_test(source).unwrap();
    let check = FilesystemCheck::new(&wiki, "/notes", "/notes/wiki.mull");
    (check, Text::new(source))
}

// Report links to what is missing, cannot be accessed or is of the wrong kind.
#[test]
fn filesystem_target_errors() {
    let (mut check, source) = check_of("# Home\n[file:a] [file:b] [file:c] [dir:d] [dir:.]");
    let path = Some("wiki.mull");

    assert_eq!(check.next_target(), Some("/notes/a"));
    check.observe_target(TargetState::NotFound(Reason::Outside("gone".to_owned())), path, &source);
    assert_eq!(check.next_target(), Some("/notes/b"));
    check.observe_target(
        TargetState::Inaccessible(Reason::Outside("denied".to_owned())),
        path,
        &source,
    );
    assert_eq!(check.next_target(), Some("/notes/c"));
    check.observe_target(TargetState::Directory, path, &source);
    assert_eq!(check.next_target(), Some("/notes/d"));
    check.observe_target(TargetState::Other, path, &source);
    assert_eq!(check.next_target(), Some("/notes/"));
    assert!(check.needs_walk());
    check.observe_target(TargetState::Directory, path, &source);
    assert_eq!(check.next_target(), None);

    // A link to the wiki's directory covers everything in it.
    assert!(!check.needs_walk());
    let errors = check.finish();
    assert_eq!(
        errors.iter().map(Error::message).collect::<Vec<_>>(),
        vec![
            "`a` not found.",
            "Unable to access `b`.",
            "`c` is not a file.",
            "`d` is not a directory.",
        ],
    );
    assert!(errors[0].render(false).ends_with("Reason: gone"));
}

// Report files that no link covers, in the order of their texts.
#[test]
fn unreferenced_files() {
    let (mut check, source) = check_of("# Home\n[file:a.txt] [dir:images]");
    let path = Some("wiki.mull");
    check.observe_target(TargetState::File, path, &source);
    check.observe_target(TargetState::Directory, path, &source);

    assert!(check.needs_walk());
    assert!(!check.visits("/notes/wiki.mull"));
    assert!(!check.visits("/notes/images"));
    assert!(check.visits("/notes/other"));
    check.observe_entry("/notes/z.txt", true, path);
    check.observe_entry("/notes/a.txt", true, path);
    check.observe_entry("/notes/other", false, path);
    check.observe_entry("/notes/other/b.txt", true, path);
    check.observe_walk_failure(Reason::Outside("loop".to_owned()), path);
    check.observe_rules_failure(Reason::Outside("rule".to_owned()), path);
    assert!(check.has_room());
    assert_eq!(
        check.finish_with(false).iter().map(Error::message).collect::<Vec<_>>(),
        vec![
            "File `other/b.txt` is not referenced.",
            "File `z.txt` is not referenced.",
            "Unable to build filesystem ignore rules.",
            "Unable to walk wiki directory.",
        ],
    );
}

// Give up once the error budget is used up.
#[test]
fn filesystem_budget() {
    let mut source = "# Home\n".to_owned();
    for _ in 0..MAX_FILESYSTEM_ERRORS + 5 {
        source.push_str("[file:a] ");
    }
    let (mut check, text) = check_of(&source);
    let mut count = 0;
    while check.next_target().is_some() {
        check.observe_target(TargetState::Directory, None, &text);
        count += 1;
    }

    assert_eq!(count, MAX_FILESYSTEM_ERRORS);
    assert!(!check.needs_walk());
    assert!(!check.has_room());
    assert_eq!(check.finish().len(), MAX_FILESYSTEM_ERRORS);
}

// Ensure nodes are rendered in the wiki's source format.
#[test]
fn wiki_node_display() {
    let node = node("Greeting", "Hello, world!", Vec::new(), None);

    assert_eq!(node.to_string(), "# Greeting\n\nHello, world!\n");
}

// Ensure empty nodes do not contain a redundant content separator.
#[test]
fn wiki_empty_node_display() {
    let node = node("Greeting", "", Vec::new(), None);

    assert_eq!(node.to_string(), "# Greeting\n");
}

// Hide delimiter escapes while preserving links in Markdown previews.
#[test]
fn node_markdown() {
    let node = node(
        "Greeting",
        "Literal \\[brackets\\] and [Home].",
        vec![text_link("Home")],
        None,
    );

    assert_eq!(
        node.to_markdown(|link| match link {
            Link::Text { title, .. } if title == "Home" => {
                Some("command:mull.revealRange?destination".to_owned())
            }
            Link::Text { .. } | Link::File { .. } | Link::Directory { .. } => None,
        }),
        "# Greeting\n\nLiteral &#91;brackets&#93; and [&#91;Home&#93;](command:mull.revealRange?destination).",
    );
}

// Render titles literally rather than as Markdown syntax.
#[test]
fn node_markdown_title() {
    let node = node("A*B* [C](d) <e> #", "", Vec::new(), None);

    assert_eq!(
        node.to_markdown(|_link| None),
        "# A&#42;B&#42; &#91;C&#93;(d) &lt;e&gt; &#35;",
    );
}

// Keep unresolved text links visible but non-clickable in Markdown previews.
#[test]
fn unresolved_node_markdown_link() {
    let node = node("Greeting", "See [Missing].", vec![text_link("Missing")], None);

    assert_eq!(
        node.to_markdown(|_link| None),
        "# Greeting\n\nSee &#91;Missing&#93;.",
    );
}

// Distinguish file and directory links from prose with Markdown code styling, linking those with
// destinations.
#[test]
fn filesystem_link_markdown() {
    let node = node(
        "Files",
        "[/notes.txt] and [/odd`name/]",
        vec![
            Link::File {
                path: "notes.txt".to_owned(),
                source_range: SOURCE_RANGE,
            },
            Link::Directory {
                path: "odd`name".to_owned(),
                source_range: SOURCE_RANGE,
            },
        ],
        None,
    );

    assert_eq!(
        node.to_markdown(|link| {
            if matches!(link, Link::File { .. }) {
                Some("file:///wiki/notes.txt".to_owned())
            } else {
                None
            }
        }),
        "# Files\n\n[`[/notes.txt]`](<file:///wiki/notes.txt>) and ``[/odd`name/]``",
    );
}

// Ensure a wiki containing an empty node has only its trailing line break.
#[test]
fn empty_node_wiki_display() {
    let wiki = Wiki {
        text_nodes: vec![node("Greeting", "", Vec::new(), None)],
    };

    assert_eq!(wiki.to_string(), "# Greeting\n");
}

// Render nodes by depth and title, placing nodes without a depth last.
#[test]
fn wiki_display() {
    let wiki = Wiki {
        text_nodes: vec![
            node("Greeting", "Hello, world!", Vec::new(), Some(1)),
            node("Home", "Check out the [Greeting].", Vec::new(), Some(0)),
            node("Orphan", "", Vec::new(), None),
        ],
    };

    assert_eq!(
        wiki.to_string(),
        "# Home\n\nCheck out the [Greeting].\n\n# Greeting\n\nHello, world!\n\n# Orphan\n",
    );
}

// Ensure an empty wiki has no output.
#[test]
fn empty_wiki_display() {
    assert_eq!(Wiki::default().to_string(), "");
}

// Escaping and unescaping a title gives the title back.
#[test]
fn escaping_round_trip() {
    let title = "A[B]\\[C\\]] [";

    assert_eq!(escape_link_delimiters("A[B]"), "A\\[B\\]");
    assert_eq!(unescape_link_delimiters(&escape_link_delimiters(title)), title);
}

// Rendering what a rendered wiki parses to changes nothing.
#[test]
fn formatting_is_stable() {
    let source = "# Zulu\r\n\r\n [ Home ]\r\n\r\n# Home\n  a\\[b [Zulu]  \n\n c\n# Alpha\n";
    let rendered = parse_test(source).unwrap().to_string();

    assert_eq!(
        rendered,
        "# Home\n\na\\[b [Zulu]\n\n c\n\n# Zulu\n\n[Home]\n\n# Alpha\n",
    );
    assert_eq!(parse_test(&rendered).unwrap().to_string(), rendered);
}

// A target that starts with a separator is a filesystem link, whatever its last character says it is.
#[test]
fn rooted_filesystem_links() {
    let source = "# Home\n[/mona_lisa.jpg]";
    let wiki = parse(None, source).unwrap();
    let Link::File { path, source_range } = &wiki.text_nodes[0].links[0] else {
        panic!("the link should be a file link");
    };
    assert_eq!(path, "mona_lisa.jpg");
    assert_eq!((source_range.start, source_range.end), (7, 23));

    let wiki = parse_test("# Home\n[/images/] [/] [/./a//b/] [/a/./b] [/\\[x\\].txt] [/.]").unwrap();
    assert_eq!(
        link_targets(&wiki.text_nodes[0].links),
        ["dir:images", "dir:", "dir:a/b", "file:a/b", "file:[x].txt", "file:"],
    );
    assert_eq!(
        wiki.text_nodes[0].content,
        "[/images/] [/] [/a/b/] [/a/b] [/\\[x\\].txt] [/.]",
    );
}

#[test]
fn invalid_rooted_links() {
    let errors = parse_test("# Home\n[/../x] [//x] [/a/../b]").unwrap_err();
    let messages = errors.iter().map(Error::to_string).collect::<Vec<_>>();
    assert_eq!(messages.len(), 3);
    assert!(messages[0].contains("Path `../x` must not contain `..`."));
    assert!(messages[1].contains("Path `/x` must be relative to the wiki directory."));
    assert!(messages[2].contains("Path `a/../b` must not contain `..`."));
}

// A link to the wiki's directory covers every file.
#[test]
fn link_to_the_wiki_directory_covers_everything() {
    let source = "# Home\n[/]";
    let text = Text::new(source);
    let wiki = parse(Some("/notes/w.mull"), source).unwrap();
    let mut check = FilesystemCheck::new(&wiki, "/notes", "/notes/w.mull");
    assert_eq!(check.next_target(), Some("/notes/"));
    check.observe_target(TargetState::Directory, Some("/notes/w.mull"), &text);
    let filter = check.entry_filter();
    assert!(!filter.visits("/notes"));
    assert!(!check.visits("/notes"));
    assert!(check.finish().is_empty());
}

#[test]
fn rooted_titles() {
    let errors = parse_test("# Home\n\n# /notes").unwrap_err();
    assert_eq!(errors.len(), 1);
    assert!(errors[0].to_string().contains("This title cannot start with `/`."));
}

#[test]
fn lines_are_trimmed_at_the_end() {
    let wiki = parse(None, "# A\nx  \ny").unwrap();
    assert_eq!(wiki.text_nodes[0].content, "x\ny");

    let wiki = parse(None, "# A\nx \t\r\r\n \u{a0}\n\n  y [A]  \n z").unwrap();
    assert_eq!(wiki.text_nodes[0].content, "x\n\n\n  y [A]\n z");
    assert_eq!(parse(None, &wiki.to_string()).unwrap().to_string(), wiki.to_string());
}

// White space between a prefix and its path does not belong to the path.
#[test]
fn space_after_link_prefixes() {
    let wiki = parse_test("# Home\n[file: notes.txt] [dir:\t images ] [file:a b]").unwrap();
    assert_eq!(
        link_targets(&wiki.text_nodes[0].links),
        ["file:notes.txt", "dir:images", "file:a b"],
    );
    assert_eq!(
        wiki.text_nodes[0].content,
        "[file:notes.txt] [dir:images] [file:a b]",
    );
}

// Formatting writes paths in their normalized form but keeps what stands in front of them and behind.
#[test]
fn normalized_filesystem_links() {
    let wiki = parse_test(
        "# Home\n[file:./a//b/./c] [dir:a/./b//] [dir:.] [dir:./] [dir:./.] [dir:a/.] [file:\\[x\\]//y]",
    )
    .unwrap();
    let content = "[file:./a/b/c] [dir:a/b/] [dir:.] [dir:./] [dir:./] [dir:a/] [file:\\[x\\]/y]";
    assert_eq!(wiki.text_nodes[0].content, content);
    let again = parse_test(&wiki.to_string()).unwrap();
    assert_eq!(again.text_nodes[0].content, content);
    assert_eq!(
        link_targets(&again.text_nodes[0].links),
        link_targets(&wiki.text_nodes[0].links),
    );
}
