//! Documents: their rendering, parsing and validation.

use mull::document::Document;
use mull::document::Link;
use mull::document::Node;
use mull::node;
use mull::parse::describe_duplicate;
use mull::parse::parse;
use mull::validate::document_directory;
use mull::validate::validate;
use mull::validate::validate_text_links;
use mull::validate::DocumentCheck;
use mull::validate::EntryKind;
use mull::validate::Places;
use mull::validate::TargetOutcome;

fn document_node(title: &str, content: &str, links: Vec<Link>) -> Node {
    Node {
        title: title.to_owned(),
        content: content.to_owned(),
        links,
        depth: None,
    }
}

fn find<'a>(document: &'a Document, title: &str) -> &'a Node {
    &document.nodes[document.position(title).unwrap()]
}

#[test]
fn display() {
    let node = node::Node {
        title: "Greeting".to_owned(),
        content: "Hello, world!".to_owned(),
    };

    assert_eq!(node.to_string(), "# Greeting\n\nHello, world!");
}

#[test]
fn document_node_display() {
    let node = document_node("Greeting", "Hello, world!", Vec::new());

    assert_eq!(node.to_string(), "# Greeting\n\nHello, world!\n");
}

#[test]
fn document_empty_node_display() {
    let node = document_node("Greeting", "", Vec::new());

    assert_eq!(node.to_string(), "# Greeting\n");
}

#[test]
fn empty_node_document_display() {
    let document = Document {
        nodes: vec![document_node("Greeting", "", Vec::new())],
    };

    assert_eq!(document.to_string(), "# Greeting\n");
}

#[test]
fn document_display() {
    let document = Document {
        nodes: vec![
            document_node("Home", "Check out the [Greeting].", Vec::new()),
            document_node("Greeting", "Hello, world!", Vec::new()),
        ],
    };

    assert_eq!(
        document.to_string(),
        "# Greeting\n\nHello, world!\n\n# Home\n\nCheck out the [Greeting].\n",
    );
}

#[test]
fn empty_document_display() {
    assert_eq!(Document::default().to_string(), "");
}

#[test]
fn parse_nodes() {
    let document = parse(
        "  \n#   Home  \n\n Check out the [Greeting]. \n\n# Greeting\n Hello,\nworld! \n",
    )
    .unwrap();

    assert_eq!(document.nodes.len(), 2);
    assert_eq!(find(&document, "Home").title, "Home");
    assert_eq!(find(&document, "Home").content, "Check out the [Greeting].");
    assert_eq!(find(&document, "Greeting").content, "Hello,\nworld!");
}

#[test]
fn parse_non_title_hashes() {
    let document = parse("# Home\n\n## Subtitle\n#not a title").unwrap();

    assert_eq!(find(&document, "Home").content, "## Subtitle\n#not a title");
}

#[test]
fn empty_document() {
    assert!(parse(" \n\t\n").unwrap().nodes.is_empty());
}

#[test]
fn parse_empty_content() {
    assert!(find(&parse("# Empty").unwrap(), "Empty").content.is_empty());
}

#[test]
fn parse_windows_line_endings() {
    let document = parse("# Greeting\r\n\r\nHello, world!\r\n").unwrap();

    assert_eq!(find(&document, "Greeting").content, "Hello, world!");
}

#[test]
fn parse_content_before_title() {
    assert_eq!(
        parse("Introduction\n# Home").unwrap_err(),
        "Content appears before the first title on line 1.",
    );
}

#[test]
fn parse_empty_title() {
    assert_eq!(
        parse("#   \nContent").unwrap_err(),
        "Title on line 1 is empty.",
    );
}

#[test]
fn parse_duplicate_title() {
    assert_eq!(
        parse("# Home\nFirst\n# Home\nSecond").unwrap_err(),
        "Duplicate title \"Home\" on line 3.",
    );
}

// Quote a title with its quotation marks escaped.
#[test]
fn duplicate_titles_are_quoted() {
    assert_eq!(
        parse("# Say \"hi\"\n# Say \"hi\"").unwrap_err(),
        "Duplicate title \"Say \\\"hi\\\"\" on line 2.",
    );
    assert_eq!(
        describe_duplicate("'x'", "7"),
        "Duplicate title 'x' on line 7.",
    );
}

// Reject a document without a home node before anything else, leaving depths alone.
#[test]
fn document_without_home() {
    let mut document = Document {
        nodes: vec![document_node("Elsewhere", "", Vec::new())],
    };

    assert_eq!(
        validate_text_links(&mut document).unwrap_err(),
        "Document does not contain a \"Home\" node.",
    );
    assert_eq!(document.nodes[0].depth, None);
}

// Report the first missing target by node title and then by target.
#[test]
fn document_missing_target() {
    let links = vec![Link::Text("Zulu".to_owned()), Link::Text("Alpha".to_owned())];
    let mut document = Document {
        nodes: vec![document_node("Home", "", links)],
    };

    assert_eq!(
        validate_text_links(&mut document).unwrap_err(),
        "Node \"Home\" links to missing node \"Alpha\".",
    );
}

// Report every unreachable node after scoring the others.
#[test]
fn document_unreachable_nodes() {
    let mut document = Document {
        nodes: vec![
            document_node("Home", "", vec![Link::Text("Middle".to_owned())]),
            document_node("Zulu", "", Vec::new()),
            document_node("Middle", "", Vec::new()),
            document_node("Alpha", "", Vec::new()),
        ],
    };

    assert_eq!(
        validate_text_links(&mut document).unwrap_err(),
        "Node \"Alpha\" is not reachable from \"Home\".\nNode \"Zulu\" is not reachable from \"Home\".",
    );
    assert_eq!(find(&document, "Home").depth, Some(0));
    assert_eq!(find(&document, "Middle").depth, Some(1));
    assert_eq!(find(&document, "Zulu").depth, None);
}

fn places() -> Places {
    Places {
        directory: Ok("/notes".to_owned()),
        document: Ok("/notes/document.mull".to_owned()),
    }
}

fn found(path: &str) -> TargetOutcome {
    TargetOutcome::Found {
        is_file: true,
        is_directory: false,
        resolved: Ok(path.to_owned()),
    }
}

// Check targets files first, and report what the document does not link to.
#[test]
fn document_filesystem_check() {
    let links = vec![
        Link::Directory("images".to_owned()),
        Link::File("notes.txt".to_owned()),
        Link::Text("Home".to_owned()),
    ];
    let mut document = Document {
        nodes: vec![document_node("Home", "", links)],
    };
    let mut check = validate(&mut document, "document.mull", places()).unwrap();

    assert_eq!(check.next_target().as_deref(), Some("/notes/notes.txt"));
    assert!(check.observe_target(found("/notes/notes.txt")).is_ok());
    assert_eq!(check.next_target().as_deref(), Some("/notes/images"));
    assert!(check
        .observe_target(TargetOutcome::Found {
            is_file: false,
            is_directory: true,
            resolved: Ok("/notes/images".to_owned()),
        })
        .is_ok());
    assert_eq!(check.next_target(), None);

    assert!(!check.visits("/notes/images"));
    assert!(check.visits("/notes/other"));
    check.observe_entry("/notes", EntryKind::Directory);
    check.observe_entry("/notes/document.mull", EntryKind::File);
    check.observe_entry("/notes/notes.txt", EntryKind::File);
    check.observe_entry("/notes/other", EntryKind::Directory);
    check.observe_entry("/notes/other/b.txt", EntryKind::File);
    check.observe_entry("/notes/pipe", EntryKind::Other);
    assert_eq!(
        check.finish().unwrap_err(),
        "Directory other is not referenced.\nFile other/b.txt is not referenced.",
    );
}

// Stop at a target of the wrong kind, or one that cannot be reached or resolved.
#[test]
fn document_target_errors() {
    let document = Document {
        nodes: vec![document_node("Home", "", vec![Link::File("images".to_owned())])],
    };
    let mut check = DocumentCheck::new(&document, "/notes", "/notes/document.mull");

    assert_eq!(
        check
            .observe_target(TargetOutcome::Found {
                is_file: false,
                is_directory: true,
                resolved: Ok("/notes/images".to_owned()),
            })
            .unwrap_err(),
        "Node \"Home\" links to images, which is not a file.",
    );
    assert_eq!(
        check
            .observe_target(TargetOutcome::Inaccessible("denied".to_owned()))
            .unwrap_err(),
        "Node \"Home\" links to inaccessible path images: denied",
    );
    assert_eq!(
        check
            .observe_target(TargetOutcome::Found {
                is_file: true,
                is_directory: false,
                resolved: Err("gone".to_owned()),
            })
            .unwrap_err(),
        "Failed to resolve path images linked from node \"Home\": gone",
    );
    assert!(check.finish().is_ok());
}

// Report why the places that a check starts from cannot be resolved.
#[test]
fn document_place_errors() {
    let mut document = Document {
        nodes: vec![document_node("Home", "", Vec::new())],
    };
    let unresolved = Places {
        directory: Err("gone".to_owned()),
        document: Ok("/notes/document.mull".to_owned()),
    };
    assert_eq!(
        validate(&mut document, "document.mull", unresolved).unwrap_err(),
        "Failed to resolve document directory .: gone",
    );
    let unresolved = Places {
        directory: Ok("/notes".to_owned()),
        document: Err("gone".to_owned()),
    };
    assert_eq!(
        validate(&mut document, "notes/document.mull", unresolved).unwrap_err(),
        "Failed to resolve notes/document.mull: gone",
    );
    assert_eq!(document_directory("notes/document.mull"), "notes");
}

// Reject text links that do not correspond to any node in the document.
#[test]
fn validate_missing_text_link() {
    let mut document = parse("# Home\nSee [Zulu] and [Alpha].").unwrap();

    assert_eq!(
        validate(&mut document, "document.mull", places()).unwrap_err(),
        "Node \"Home\" links to missing node \"Alpha\".",
    );
}

// Reject an empty text link because node titles cannot be empty.
#[test]
fn validate_empty_text_link() {
    let mut document = parse("# Home\nSee [].").unwrap();

    assert_eq!(
        validate(&mut document, "document.mull", places()).unwrap_err(),
        "Node \"Home\" links to missing node \"\".",
    );
}

// Require every document to contain its special root node.
#[test]
fn validate_missing_home() {
    let mut document = parse("# Elsewhere").unwrap();

    assert_eq!(
        validate(&mut document, "document.mull", places()).unwrap_err(),
        "Document does not contain a \"Home\" node.",
    );
}

// Reject nodes that cannot be reached transitively from Home.
#[test]
fn validate_unreachable_nodes() {
    let mut document = parse("# Home\nSee [Middle].\n# Middle\n# Zulu\n# Alpha").unwrap();

    assert_eq!(
        validate(&mut document, "document.mull", places()).unwrap_err(),
        "Node \"Alpha\" is not reachable from \"Home\".\n\
         Node \"Zulu\" is not reachable from \"Home\".",
    );
}

// Accept nodes reached through multiple levels of text links.
#[test]
fn validate_transitive_text_links() {
    let mut document = parse("# Home\nSee [Middle].\n# Middle\nSee [End].\n# End").unwrap();

    let check = validate(&mut document, "document.mull", places()).unwrap();
    assert_eq!(check.next_target(), None);
    assert_eq!(check.finish(), Ok(()));
    assert_eq!(find(&document, "Home").depth, Some(0));
    assert_eq!(find(&document, "Middle").depth, Some(1));
    assert_eq!(find(&document, "End").depth, Some(2));
}

// Choose the shortest distance when a node is reachable through multiple paths.
#[test]
fn validate_minimum_depth() {
    let mut document = parse(
        "# Home\nSee [Left] and [Target].\n\
         # Left\nSee [Middle].\n\
         # Middle\nSee [Target].\n\
         # Target",
    )
    .unwrap();

    assert!(validate(&mut document, "document.mull", places()).is_ok());
    assert_eq!(find(&document, "Left").depth, Some(1));
    assert_eq!(find(&document, "Middle").depth, Some(2));
    assert_eq!(find(&document, "Target").depth, Some(1));
}

// Reject a filesystem link whose target has the wrong type.
#[test]
fn validate_wrong_target_type() {
    let mut document = parse("# Home\n[file:images]").unwrap();
    let mut check = validate(&mut document, "document.mull", places()).unwrap();

    assert_eq!(check.next_target().as_deref(), Some("/notes/images"));
    assert_eq!(
        check
            .observe_target(TargetOutcome::Found {
                is_file: false,
                is_directory: true,
                resolved: Ok("/notes/images".to_owned()),
            })
            .unwrap_err(),
        "Node \"Home\" links to images, which is not a file.",
    );
}

// Validate referenced entries and prune the recursive contents of referenced directories.
#[test]
fn validate_referenced_entries() {
    let mut document =
        parse("# Home\n[file:.gitignore] [file:.secret] [dir:images]").unwrap();
    let mut check = validate(&mut document, "document.mull", places()).unwrap();

    assert_eq!(check.next_target().as_deref(), Some("/notes/.gitignore"));
    assert!(check.observe_target(found("/notes/.gitignore")).is_ok());
    assert_eq!(check.next_target().as_deref(), Some("/notes/.secret"));
    assert!(check.observe_target(found("/notes/.secret")).is_ok());
    assert_eq!(check.next_target().as_deref(), Some("/notes/images"));
    assert!(check
        .observe_target(TargetOutcome::Found {
            is_file: false,
            is_directory: true,
            resolved: Ok("/notes/images".to_owned()),
        })
        .is_ok());
    assert_eq!(check.next_target(), None);
    assert!(!check.visits("/notes/images"));
    check.observe_entry("/notes", EntryKind::Directory);
    check.observe_entry("/notes/document.mull", EntryKind::File);
    check.observe_entry("/notes/.gitignore", EntryKind::File);
    check.observe_entry("/notes/.secret", EntryKind::File);
    assert_eq!(check.finish(), Ok(()));
}

// Report unreferenced entries throughout the document directory tree.
#[test]
fn validate_unreferenced_entries() {
    let mut document = parse("# Home").unwrap();
    let mut check = validate(&mut document, "document.mull", places()).unwrap();

    assert_eq!(check.next_target(), None);
    assert!(check.visits("/notes/images"));
    check.observe_entry("/notes", EntryKind::Directory);
    check.observe_entry("/notes/document.mull", EntryKind::File);
    check.observe_entry("/notes/images", EntryKind::Directory);
    check.observe_entry("/notes/images/photo.jpg", EntryKind::File);
    let error = check.finish().unwrap_err();
    assert!(error.contains("Directory images is not referenced."));
    assert!(error.contains("photo.jpg"));
}

// Order the components of paths by kind before their characters.
#[test]
fn document_targets_by_component_kind() {
    let mut document =
        parse("# Home\n[file:-a] [file:../c] [file:./b] [file:/d] [file:b/-] [file:b/..]").unwrap();
    let check = validate(&mut document, "document.mull", places()).unwrap();

    let paths: Vec<&str> = check.targets.iter().map(|target| target.path.as_str()).collect();
    assert_eq!(paths, ["/d", "./b", "../c", "-a", "b/..", "b/-"]);
}
