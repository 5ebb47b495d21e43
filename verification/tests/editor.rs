//! Language features.

use mull::cancellation::CancellationFlag;
use mull::cancellation::Outcome;
use mull::completion::completion_for_document;
use mull::completion::filesystem_link_context;
use mull::completion::CompletionItem;
use mull::completion::CompletionItemKind;
use mull::completion::Entry;
use mull::documents::OpenDocuments;
use mull::error::source_error;
use mull::error::Error;
use mull::error::Reason;
use mull::error::SourceRange;
use mull::language_server::code_action_for_document;
use mull::language_server::diagnostic_from_error;
use mull::language_server::diagnostics_for_document;
use mull::language_server::document_highlight_for_document;
use mull::language_server::document_symbol_for_document;
use mull::language_server::encode_command;
use mull::language_server::formatting_for_document;
use mull::language_server::goto_definition_for_document;
use mull::language_server::hover_for_document;
use mull::language_server::local_path;
use mull::language_server::prepare_rename_for_document;
use mull::language_server::references_for_document;
use mull::language_server::rename_for_document;
use mull::language_server::reveal_range_command_url;
use mull::language_server::CodeAction;
use mull::language_server::Diagnostic;
use mull::language_server::DiagnosticSeverity;
use mull::language_server::DocumentHighlight;
use mull::language_server::DocumentSymbolResponse;
use mull::language_server::HighlightKind;
use mull::moving::count_emptied;
use mull::moving::directories_above;
use mull::parser::parse;
use mull::position::byte_offset;
use mull::position::lsp_position;
use mull::position::Position;
use mull::position::Range;
use mull::text::Text;

const UNTITLED: &str = "untitled:Untitled-1";

const SAVED: &str = "file:///notes/wiki.mull";

fn position(line: u32, character: u32) -> Position {
    Position::new(line, character)
}

fn range(start: (u32, u32), end: (u32, u32)) -> Range {
    Range::new(position(start.0, start.1), position(end.0, end.1))
}

// Compute diagnostics for a wiki that the filesystem has nothing to say about.
fn diagnostics(uri: &str, source_contents: &str) -> Vec<Diagnostic> {
    diagnostics_for_document(uri, source_contents, Outcome::Completed(Vec::new()))
        .expect("a check without cancellation should complete")
}

fn same(a: &Diagnostic, b: &Diagnostic) -> bool {
    a.range == b.range && a.severity == b.severity && a.source == b.source && a.message == b.message
}

// Complete a link in a wiki with no entries around it.
fn complete(source: &str, cursor: Position) -> Option<Vec<CompletionItem>> {
    completion_for_document(UNTITLED, source, cursor, &Vec::new())
}

#[test]
fn positions_use_utf16_code_units() {
    let source = "zero\n😀 café";

    assert_eq!(lsp_position(source, 0), position(0, 0));
    assert_eq!(lsp_position(source, 5), position(1, 0));
    assert_eq!(lsp_position(source, 9), position(1, 2));
    assert_eq!(lsp_position(source, source.len()), position(1, 7));
}

// Convert editor positions back to byte offsets without splitting Unicode characters.
#[test]
fn byte_offsets_use_utf16_code_units() {
    let source = "zero\n😀 café";

    assert_eq!(byte_offset(source, position(0, 0)), Some(0));
    assert_eq!(byte_offset(source, position(1, 0)), Some(5));
    assert_eq!(byte_offset(source, position(1, 1)), None);
    assert_eq!(byte_offset(source, position(1, 2)), Some(9));
    assert_eq!(byte_offset(source, position(1, 7)), Some(source.len()));
    assert_eq!(byte_offset(source, position(1, 8)), None);
    assert_eq!(byte_offset(source, position(2, 0)), None);
}

// Every position of a source leads back to where it came from.
#[test]
fn positions_round_trip() {
    let source = "a\r\n😀b\n\nc";

    for (offset, _character) in source.char_indices() {
        if offset != 2 {
            assert_eq!(byte_offset(source, lsp_position(source, offset)), Some(offset));
        }
    }
    assert_eq!(byte_offset(source, position(0, 2)), None);
}

// Encode a document URI and UTF-16 title range for the trusted editor command.
#[test]
fn reveal_range_commands_encode_destinations() {
    let source = Text::new("# Home");
    let url =
        reveal_range_command_url(UNTITLED, &source, SourceRange { start: 2, end: 6 }).unwrap();

    assert_eq!(
        url,
        "command:mull.revealRange?%5B%22untitled%3AUntitled%2D1%22%2C0%2C2%2C0%2C6%5D",
    );
    assert_eq!(
        reveal_range_command_url(
            "a\"b\\\n\u{1}\u{1f}é",
            &source,
            SourceRange { start: 2, end: 6 },
        )
        .unwrap(),
        encode_command("[\"a\\\"b\\\\\\n\\u0001\\u001fé\",0,2,0,6]"),
    );
    assert_eq!(encode_command("aZ9 é"), "command:mull.revealRange?aZ9%20%C3%A9");
}

// Read paths only from the URIs of files.
#[test]
fn local_paths_need_file_uris() {
    assert_eq!(local_path("file:///notes/my%20wiki.mull").as_deref(), Some("/notes/my wiki.mull"));
    assert_eq!(local_path("FILE:///notes/wiki.mull").as_deref(), Some("/notes/wiki.mull"));
    assert_eq!(local_path(UNTITLED), None);
    assert_eq!(local_path("http://example.com/wiki.mull"), None);
}

// Expose text nodes in source order for saved and untitled editor outlines.
#[test]
fn document_symbols_describe_text_nodes() {
    let source = "# Zebra\n\nFirst\n\n# Alpha\n\nSecond";

    for uri in [UNTITLED, SAVED] {
        let response = document_symbol_for_document(uri, source, true).unwrap();
        let DocumentSymbolResponse::Nested(symbols) = response else {
            panic!("text nodes should be represented as nested document symbols");
        };
        assert_eq!(
            symbols
                .iter()
                .map(|symbol| symbol.name.as_str())
                .collect::<Vec<_>>(),
            vec!["Zebra", "Alpha"],
        );
        assert_eq!(symbols[0].range, range((0, 0), (2, 5)));
        assert_eq!(symbols[0].selection_range, range((0, 2), (0, 7)));
        assert_eq!(symbols[1].range, range((4, 0), (6, 6)));
        assert_eq!(symbols[1].selection_range, range((4, 2), (4, 7)));

        // Fall back to universally supported flat symbols at each title range.
        let response = document_symbol_for_document(uri, source, false).unwrap();
        let DocumentSymbolResponse::Flat(symbols) = response else {
            panic!("clients without hierarchy support should receive flat symbols");
        };
        assert_eq!(
            symbols
                .iter()
                .map(|symbol| symbol.name.as_str())
                .collect::<Vec<_>>(),
            vec!["Zebra", "Alpha"],
        );
        assert_eq!(symbols[0].location.range, range((0, 2), (0, 7)));
        assert_eq!(symbols[1].location.range, range((4, 2), (4, 7)));
        assert!(symbols.iter().all(|symbol| symbol.location.uri == uri));
    }
}

// Analyze ordinary text-node structure in a new editor buffer.
#[test]
fn untitled_text_only_wikis_receive_diagnostics() {
    let source = "# Home\nSee [Missing].";
    let diagnostics = diagnostics(UNTITLED, source);

    assert_eq!(diagnostics.len(), 1);
    assert_eq!(diagnostics[0].message, "Node `Missing` not found.");
    assert_eq!(diagnostics[0].range, range((1, 4), (1, 13)));
}

// Report parser errors from a new editor buffer at their exact source locations.
#[test]
fn untitled_syntax_errors_receive_diagnostics() {
    let source = "# Home\nUnexpected]";
    let diagnostics = diagnostics(UNTITLED, source);

    assert_eq!(diagnostics.len(), 1);
    assert_eq!(diagnostics[0].message, "Unexpected closing link delimiter.");
    assert_eq!(diagnostics[0].range, range((1, 10), (1, 11)));
}

// Require a first save before resolving filesystem links from a new editor buffer.
#[test]
fn untitled_filesystem_links_receive_diagnostics() {
    let source = "# Home\n[file:notes.txt] [dir:images]";
    let diagnostics = diagnostics(UNTITLED, source);

    assert_eq!(diagnostics.len(), 2);
    assert!(diagnostics.iter().all(|diagnostic| {
        diagnostic.message == "Save the wiki to validate this filesystem link."
    }));
    assert_eq!(
        diagnostics
            .iter()
            .map(|diagnostic| diagnostic.range)
            .collect::<Vec<_>>(),
        vec![range((1, 0), (1, 16)), range((1, 17), (1, 29))],
    );
}

// Report what a check of the filesystem found only for saved wikis, and nothing if it was cancelled.
#[test]
fn filesystem_errors_become_diagnostics() {
    let found = || Outcome::Completed(vec![Error::new("File `a` is not referenced.")]);

    assert!(diagnostics_for_document(UNTITLED, "# Home", found()).unwrap().is_empty());
    let diagnostics = diagnostics_for_document(SAVED, "# Home", found()).unwrap();
    assert_eq!(diagnostics.len(), 1);
    assert_eq!(diagnostics[0].message, "File `a` is not referenced.");
    assert!(diagnostics_for_document(SAVED, "# Home", Outcome::Cancelled).is_none());
    assert_eq!(
        diagnostics_for_document(SAVED, "]", Outcome::Cancelled).unwrap().len(),
        1,
    );
}

// Navigate among text nodes without requiring a new editor buffer to have a path.
#[test]
fn untitled_wikis_support_navigation() {
    let source = "# Home\n\n[Greeting]\n\n# Greeting";

    assert!(goto_definition_for_document(UNTITLED, source, position(2, 4)).is_some());
    assert!(hover_for_document(UNTITLED, source, position(2, 4)).is_some());
    assert!(references_for_document(UNTITLED, source, position(2, 4), false).is_some());
}

// Complete a partial target by replacing the whole link, including its delimiters.
#[test]
fn completions_replace_closed_links() {
    let source = "# Home\n\n[Gr]\n\n# Greeting\n\n# Other";
    let completions = complete(source, position(2, 3)).unwrap();

    assert_eq!(
        completions
            .iter()
            .map(|completion| completion.label.as_str())
            .collect::<Vec<_>>(),
        vec!["Greeting", "Home", "Other"],
    );
    let edit = &completions[0].text_edit;
    let link_range = range((2, 0), (2, 4));
    assert_eq!(edit.range, link_range);
    assert_eq!(edit.new_text, "[Greeting]");

    // Replace the same link from a cursor before its opening delimiter.
    let completions = complete(source, position(2, 0)).unwrap();
    assert_eq!(completions[0].text_edit.range, link_range);
}

// Close an unfinished link temporarily while calculating its completions.
#[test]
fn completions_support_unfinished_links() {
    let source = "# Home\n\n[Gre\n\n# Greeting";
    let completions = complete(source, position(2, 4)).unwrap();
    let greeting = completions
        .iter()
        .find(|completion| completion.label == "Greeting")
        .unwrap();

    assert_eq!(greeting.text_edit.range, range((2, 0), (2, 4)));
    assert_eq!(greeting.text_edit.new_text, "[Greeting]");
}

// Leave the cursor after a single closing delimiter once a completion has been applied.
#[test]
fn completions_do_not_duplicate_closing_delimiters() {
    // Model an editor that has already auto-closed the link the cursor sits inside.
    let source = "# Home\n\n[Gr]\n\n# Greeting";
    let completions = complete(source, position(2, 3)).unwrap();
    let greeting = completions
        .iter()
        .find(|completion| completion.label == "Greeting")
        .unwrap();
    let edit = &greeting.text_edit;

    // Apply the edit to confirm the link is closed exactly once.
    let start = byte_offset(source, edit.range.start).unwrap();
    let end = byte_offset(source, edit.range.end).unwrap();
    let mut applied = source.to_owned();
    applied.replace_range(start..end, &edit.new_text);
    assert_eq!(applied, "# Home\n\n[Greeting]\n\n# Greeting");
}

// Escape link delimiters when inserting a node title as a completion.
#[test]
fn completions_escape_title_delimiters() {
    let source = "# Home\n\n[]\n\n# A[B]";
    let completions = complete(source, position(2, 1)).unwrap();
    let bracketed = completions
        .iter()
        .find(|completion| completion.label == "A[B]")
        .unwrap();

    assert_eq!(bracketed.filter_text, "[A\\[B\\]");
    assert_eq!(bracketed.text_edit.new_text, "[A\\[B\\]]");
}

// Offer text-node completions only while the cursor is inside a text link target.
#[test]
fn completions_ignore_other_contexts() {
    let source = "# Home\n\nprose [file:notes.txt]";

    assert!(complete(source, position(2, 2)).is_none());
    assert!(complete(source, position(2, 10)).is_none());
    assert!(complete(source, position(0, 3)).is_none());
}

// Summarize each completion by its label, replacement range, and inserted text.
fn completion_edits(completions: &[CompletionItem]) -> Vec<(&str, Range, &str)> {
    completions
        .iter()
        .map(|completion| {
            (
                completion.label.as_str(),
                completion.text_edit.range,
                completion.text_edit.new_text.as_str(),
            )
        })
        .collect()
}

fn entry(path: &str, name: &str, is_directory: bool) -> Entry {
    Entry {
        path: path.to_owned(),
        name: name.to_owned(),
        is_directory,
    }
}

fn complete_saved(source: &str, cursor: Position, entries: Vec<Entry>) -> Vec<CompletionItem> {
    completion_for_document(SAVED, source, cursor, &entries).unwrap()
}

// Complete a file link with the entries of the wiki directory.
#[test]
fn completions_list_entries() {
    let source = "# Home\n\n[file:]";
    let entries = vec![
        entry("/notes", "notes", true),
        entry("/notes/notes.txt", "notes.txt", false),
        entry("/notes/wiki.mull", "wiki.mull", false),
        entry("/notes/images", "images", true),
        entry("/notes/images/photo.jpg", "photo.jpg", false),
        entry("/notes/.gitignore", ".gitignore", false),
    ];
    let completions = complete_saved(source, position(2, 6), entries);

    // Close a file's link but leave a directory's link open for its children.
    let empty_path = range((2, 6), (2, 6));
    let closed_path = range((2, 6), (2, 7));
    assert_eq!(
        completion_edits(&completions),
        vec![
            (".gitignore", closed_path, ".gitignore]"),
            ("images/", empty_path, "images/"),
            ("notes.txt", closed_path, "notes.txt]"),
        ],
    );
    assert_eq!(completions[0].kind, CompletionItemKind::File);
    assert_eq!(completions[1].kind, CompletionItemKind::Folder);
    assert!(completions[0].command.is_none());
    assert_eq!(
        completions[1]
            .command
            .as_ref()
            .map(|command| command.command.as_str()),
        Some("editor.action.triggerSuggest"),
    );
}

// Complete only directories within the directory named by an unfinished directory link.
#[test]
fn completions_list_directories() {
    let source = "# Home\n\n[dir:./images/r";
    let entries = vec![
        entry("/notes/images/raw", "raw", true),
        entry("/notes/images/photo.jpg", "photo.jpg", false),
    ];
    let completions = complete_saved(source, position(2, 15), entries);

    assert_eq!(
        completion_edits(&completions),
        vec![("raw/", range((2, 5), (2, 15)), "./images/raw/")],
    );
    assert_eq!(completions[0].filter_text, "./images/raw");
}

// Escape link delimiters in completed names and interpret them in typed directories.
#[test]
fn completions_escape_entry_names() {
    let source = "# Home\n\n[file:a\\[b\\]/]";
    let entries = || {
        vec![
            entry("/notes/a[b]", "a[b]", true),
            entry("/notes/a[b]/c[d].txt", "c[d].txt", false),
        ]
    };

    assert_eq!(
        completion_edits(&complete_saved(source, position(2, 6), entries())),
        vec![("a[b]/", range((2, 6), (2, 13)), "a\\[b\\]/")],
    );
    assert_eq!(
        completion_edits(&complete_saved(source, position(2, 13), entries())),
        vec![("c[d].txt", range((2, 6), (2, 14)), "a\\[b\\]/c\\[d\\].txt]")],
    );
}

// Decline filesystem completions where the parser would not recognize a valid link path.
#[test]
fn completions_decline_invalid_paths() {
    let source = "# [file:\n\n[file:../] [dir:/] \\[file:";

    // Ignore titles, escaping paths, and escaped delimiters.
    for cursor in [position(0, 8), position(2, 9), position(2, 17), position(2, 26)] {
        let entries = vec![entry("/notes/notes.txt", "notes.txt", false)];
        assert!(completion_for_document(SAVED, source, cursor, &entries)
            .map_or(true, |completions| completions.is_empty()));
    }

    // Require a filesystem to list entries from.
    assert!(complete("# Home\n\n[file:]", position(2, 6)).is_none());
}

// Look only along the typed directory for entries to complete with.
#[test]
fn completions_follow_the_typed_directory() {
    let source = Text::new("[file:a/b/c");
    let context = filesystem_link_context(&source, 11).unwrap();

    assert_eq!(context.directory, "a/b");
    assert_eq!(context.depth(), 3);
    assert!(context.enters("/notes", "/notes"));
    assert!(context.enters("/notes", "/notes/a"));
    assert!(context.enters("/notes", "/notes/a/b/c.txt"));
    assert!(!context.enters("/notes", "/notes/b"));
    assert!(!context.enters("/notes", "/notes/a/b/c/d"));
}

// Treat a title as its own definition, which lets editors fall back to finding references.
#[test]
fn definitions_of_titles_target_themselves() {
    let source = "# Home\n\n[Home]";
    let link = goto_definition_for_document(UNTITLED, source, position(0, 3)).unwrap();

    let title_range = range((0, 2), (0, 6));
    assert_eq!(link.origin_selection_range, title_range);
    assert_eq!(link.target_selection_range, title_range);
}

// Jump from a text link to the title of its destination node.
#[test]
fn definitions_target_node_titles() {
    let source = "# Home\n\n😀 [Greeting]\n\n# Greeting\n\nHello!";
    let link = goto_definition_for_document(SAVED, source, position(2, 5)).unwrap();

    assert_eq!(link.target_uri, SAVED);
    assert_eq!(link.origin_selection_range, range((2, 3), (2, 13)));
    assert_eq!(link.target_range, range((4, 0), (6, 6)));
    assert_eq!(link.target_selection_range, range((4, 2), (4, 10)));
}

// Preview the complete destination node while highlighting the source link.
#[test]
fn hovers_preview_nodes() {
    let source = "# Home\n\n😀 [Greeting]\n\n# Greeting\n\nLiteral \\[brackets\\] and [Home].";
    let hover = hover_for_document(SAVED, source, position(2, 5)).unwrap();

    let home_url = reveal_range_command_url(
        SAVED,
        &Text::new(source),
        SourceRange { start: 2, end: 6 },
    )
    .unwrap();
    assert_eq!(
        hover.value,
        format!(
            "# Greeting\n\nLiteral &#91;brackets&#93; and \
                [&#91;Home&#93;]({home_url}).",
        ),
    );
    assert_eq!(hover.range, range((2, 3), (2, 13)));
}

// Preview a node directly from its title declaration.
#[test]
fn hovers_preview_node_titles() {
    let source = "# Home\n\n[Greeting]\n\n# Greeting\n\nHello!";
    let hover = hover_for_document(SAVED, source, position(4, 4)).unwrap();

    assert_eq!(hover.value, "# Greeting\n\nHello!");
    assert_eq!(hover.range, range((4, 2), (4, 10)));
}

// Find every text link from either a declaration or one of its references.
#[test]
fn references_find_text_links() {
    let source = "# Home\n\n[Greeting] and [Greeting].\n\n# Other\n\n[Greeting]\n\n# Greeting";
    let from_title = references_for_document(SAVED, source, position(8, 3), false).unwrap();
    let from_link = references_for_document(SAVED, source, position(2, 3), false).unwrap();
    let ranges = vec![
        range((2, 0), (2, 10)),
        range((2, 15), (2, 25)),
        range((6, 0), (6, 10)),
    ];

    assert!(from_title.iter().all(|location| location.uri == SAVED));
    assert!(from_link.iter().all(|location| location.uri == SAVED));
    assert_eq!(
        from_title
            .iter()
            .map(|location| location.range)
            .collect::<Vec<_>>(),
        ranges,
    );
    assert_eq!(
        from_link
            .iter()
            .map(|location| location.range)
            .collect::<Vec<_>>(),
        ranges,
    );
}

// Include the declaration only when the language client requests it.
#[test]
fn references_optionally_include_declarations() {
    let source = "# Home\n\n[Greeting]\n\n# Greeting";
    let locations = references_for_document(SAVED, source, position(4, 3), true).unwrap();

    assert_eq!(
        locations
            .iter()
            .map(|location| location.range)
            .collect::<Vec<_>>(),
        vec![range((2, 0), (2, 10)), range((4, 2), (4, 10))],
    );
}

// Distinguish a known node with no references from a cursor that denotes no node.
#[test]
fn references_can_be_empty() {
    let source = "# Home";

    assert!(references_for_document(SAVED, source, position(0, 3), false)
        .unwrap()
        .is_empty());
    assert!(references_for_document(SAVED, source, position(0, 0), false).is_none());
}

fn highlight(start: (u32, u32), end: (u32, u32), kind: HighlightKind) -> DocumentHighlight {
    DocumentHighlight {
        range: range(start, end),
        kind,
    }
}

// Highlight a node declaration and all its text links from either kind of occurrence.
#[test]
fn document_highlights_find_node_occurrences() {
    let source = "# Home\n\n[Greeting] and [Greeting].\n\n# Other\n\n[Greeting]\n\n# Greeting";
    let from_title = document_highlight_for_document(source, position(8, 3)).unwrap();
    let from_link = document_highlight_for_document(source, position(2, 3)).unwrap();
    let expected = vec![
        highlight((2, 0), (2, 10), HighlightKind::Read),
        highlight((2, 15), (2, 25), HighlightKind::Read),
        highlight((6, 0), (6, 10), HighlightKind::Read),
        highlight((8, 2), (8, 10), HighlightKind::Write),
    ];

    assert_eq!(from_title, expected);
    assert_eq!(from_link, expected);
}

// Highlight an unreferenced declaration while ignoring a cursor outside node occurrences.
#[test]
fn document_highlights_distinguish_unreferenced_nodes() {
    let source = "# Home";

    assert_eq!(
        document_highlight_for_document(source, position(0, 3)),
        Some(vec![highlight((0, 2), (0, 6), HighlightKind::Write)]),
    );
    assert!(document_highlight_for_document(source, position(0, 0)).is_none());
}

// Highlight nothing for a text link whose target does not exist.
#[test]
fn document_highlights_ignore_unresolved_text_links() {
    let source = "# Home\n\n[Missing]";

    assert!(document_highlight_for_document(source, position(2, 3)).is_none());
}

// Highlight matching filesystem links without conflating file and directory references.
#[test]
fn document_highlights_find_filesystem_links() {
    let source = "# Home\n\n[file:foo] [file:foo] [dir:bar]\n\n# Other\n\n[dir:bar]";
    let file_highlights = document_highlight_for_document(source, position(2, 3)).unwrap();
    let directory_highlights = document_highlight_for_document(source, position(2, 25)).unwrap();

    assert_eq!(
        file_highlights,
        vec![
            highlight((2, 0), (2, 10), HighlightKind::Read),
            highlight((2, 11), (2, 21), HighlightKind::Read),
        ],
    );
    assert_eq!(
        directory_highlights,
        vec![
            highlight((2, 22), (2, 31), HighlightKind::Read),
            highlight((6, 0), (6, 9), HighlightKind::Read),
        ],
    );
}

// Prepare rename from either a declaration or text link without selecting its delimiters.
#[test]
fn rename_preparation_selects_title_text() {
    let source = "# Home\n\n[Greeting]\n\n# Greeting";
    let from_title = prepare_rename_for_document(source, position(4, 3)).unwrap();
    let from_link = prepare_rename_for_document(source, position(2, 4)).unwrap();

    assert_eq!(from_title.range, range((4, 2), (4, 10)));
    assert_eq!(from_title.placeholder, "Greeting");
    assert_eq!(from_link.range, range((2, 1), (2, 9)));
    assert_eq!(from_link.placeholder, "Greeting");
}

// Rename a declaration and every text link while trimming the requested title.
#[test]
fn rename_updates_every_occurrence() {
    let source = "# Home\n\n[Greeting] and [Greeting]\n\n# Greeting";
    let workspace_edit =
        rename_for_document(UNTITLED, source, position(4, 3), "  Salutation\t")
            .unwrap()
            .unwrap();
    let edits = &workspace_edit.edits;

    assert_eq!(workspace_edit.uri, UNTITLED);
    assert_eq!(edits.len(), 3);
    assert_eq!(edits[0].new_text, "Salutation");
    assert_eq!(edits[0].range.start, position(2, 1));
    assert_eq!(edits[1].new_text, "Salutation");
    assert_eq!(edits[1].range.start, position(2, 16));
    assert_eq!(edits[2].new_text, "Salutation");
    assert_eq!(edits[2].range.start, position(4, 2));
}

// Preserve renamed titles containing delimiters by escaping only their link occurrences.
#[test]
fn rename_escapes_link_delimiters() {
    let source = "# Home\n\n[Greeting]\n\n# Greeting";
    let workspace_edit = rename_for_document(UNTITLED, source, position(2, 4), "A[B]")
        .unwrap()
        .unwrap();
    let edits = &workspace_edit.edits;

    assert_eq!(edits[0].new_text, "A\\[B\\]");
    assert_eq!(edits[1].new_text, "A[B]");
}

// Allow renaming the structural home node even though validation will report its absence.
#[test]
fn rename_allows_home() {
    let source = "# Home";
    let workspace_edit = rename_for_document(UNTITLED, source, position(0, 3), "Start")
        .unwrap()
        .unwrap();
    let edits = &workspace_edit.edits;

    assert_eq!(edits.len(), 1);
    assert_eq!(edits[0].new_text, "Start");
}

// Reject only syntactically unusable or duplicate node titles during rename.
#[test]
fn rename_rejects_invalid_titles() {
    let source = "# Home\n\n[Greeting]\n\n# Greeting";
    let cursor = position(4, 3);

    assert_eq!(
        rename_for_document(UNTITLED, source, cursor, " \t").unwrap_err(),
        "A node title cannot be empty.",
    );
    assert_eq!(
        rename_for_document(UNTITLED, source, cursor, "Hello\nworld").unwrap_err(),
        "A node title cannot contain a line break.",
    );
    assert_eq!(
        rename_for_document(UNTITLED, source, cursor, "Home").unwrap_err(),
        "Node `Home` already exists.",
    );
    assert_eq!(
        rename_for_document(UNTITLED, source, cursor, "file:notes.txt").unwrap_err(),
        "A node title cannot start with `file:` or `dir:`.",
    );
}

// Apply the single text edit of a code action's workspace edit to a source.
fn apply_code_action(source: &str, action: &CodeAction) -> String {
    let [edit] = action.edit.edits.as_slice() else {
        panic!("a code action should make exactly one edit");
    };
    let start = byte_offset(source, edit.range.start).unwrap();
    let end = byte_offset(source, edit.range.end).unwrap();
    let mut applied = source.to_owned();
    applied.replace_range(start..end, &edit.new_text);
    applied
}

// Create the missing destination of a text link, resolving its diagnostic.
#[test]
fn code_actions_create_missing_nodes() {
    let source = "# Home\n\n[Greeting]";
    let link_range = range((2, 0), (2, 10));
    let link_diagnostic = diagnostics(UNTITLED, source).remove(0);
    let other_diagnostic = Diagnostic {
        range: range((0, 0), (0, 1)),
        ..link_diagnostic.clone()
    };
    assert_eq!(link_diagnostic.range, link_range);

    let actions = code_action_for_document(
        UNTITLED,
        source,
        range((2, 3), (2, 3)),
        &[other_diagnostic, link_diagnostic.clone()],
    )
    .unwrap();
    let [action] = actions.as_slice() else {
        panic!("a missing destination should have exactly one code action");
    };
    assert_eq!(action.title, "Create node `Greeting`");
    assert_eq!(action.diagnostics.len(), 1);
    assert!(same(&action.diagnostics[0], &link_diagnostic));
    assert!(action.is_preferred);
    assert_eq!(action.edit.uri, UNTITLED);

    // Confirm that the created node makes the wiki valid.
    let applied = apply_code_action(source, action);
    assert_eq!(applied, "# Home\n\n[Greeting]\n\n# Greeting\n");
    assert!(diagnostics(UNTITLED, &applied).is_empty());
}

// Separate the created node with exactly one blank line after a trailing line break.
#[test]
fn code_actions_reuse_trailing_line_breaks() {
    let source = "# Home\n\n[Greeting]\n";
    let actions =
        code_action_for_document(UNTITLED, source, range((2, 1), (2, 1)), &[]).unwrap();

    assert_eq!(
        apply_code_action(source, &actions[0]),
        "# Home\n\n[Greeting]\n\n# Greeting\n",
    );
}

// Create a missing home node at the start of the document, where its diagnostic is reported.
#[test]
fn code_actions_create_missing_home_nodes() {
    let document_start = range((0, 0), (0, 0));
    let home_diagnostic = diagnostics(UNTITLED, "").remove(0);
    assert_eq!(home_diagnostic.range, document_start);

    let actions = code_action_for_document(
        UNTITLED,
        "",
        document_start,
        std::slice::from_ref(&home_diagnostic),
    )
    .unwrap();
    let [action] = actions.as_slice() else {
        panic!("a missing home node should have exactly one code action");
    };
    assert_eq!(action.title, "Create node `Home`");
    assert_eq!(action.diagnostics.len(), 1);
    assert!(same(&action.diagnostics[0], &home_diagnostic));
    let applied = apply_code_action("", action);
    assert_eq!(applied, "# Home\n");
    assert!(diagnostics(UNTITLED, &applied).is_empty());

    // Separate the home node from the nodes that follow it.
    let source = "# Greeting\n";
    let actions = code_action_for_document(UNTITLED, source, document_start, &[]).unwrap();
    assert_eq!(
        apply_code_action(source, &actions[0]),
        "# Home\n\n# Greeting\n",
    );
}

// Offer to create a home node only when it is missing and the request starts the document.
#[test]
fn code_actions_omit_unneeded_home_nodes() {
    assert!(
        code_action_for_document(UNTITLED, "# Home\n", range((0, 0), (0, 0)), &[]).is_none(),
    );
    assert!(
        code_action_for_document(UNTITLED, "# Greeting\n", range((0, 3), (0, 3)), &[]).is_none(),
    );
}

// Offer to create nodes only for text links whose destinations are missing and declarable.
#[test]
fn code_actions_ignore_other_contexts() {
    let source = "# Home\n\n[Home] [] [file:notes.txt] prose";
    let actions_at = |character| {
        code_action_for_document(
            UNTITLED,
            source,
            range((2, character), (2, character)),
            &[],
        )
    };

    assert!(actions_at(1).is_none());
    assert!(actions_at(8).is_none());
    assert!(actions_at(14).is_none());
    assert!(actions_at(29).is_none());
}

// Leave filesystem links to ordinary editor and filesystem navigation.
#[test]
fn navigation_ignores_filesystem_links() {
    let source = "# Home\n\n[file:notes.txt]";

    assert!(goto_definition_for_document(SAVED, source, position(2, 4)).is_none());
    assert!(hover_for_document(SAVED, source, position(2, 4)).is_none());
    assert!(references_for_document(SAVED, source, position(2, 4), false).is_none());
}

// Omit navigation results when the deliberately simple parser cannot produce a wiki.
#[test]
fn navigation_requires_parseable_source() {
    let source = "# Home\n\n[Greeting]\n\n# Greeting\n\nUnexpected]";

    assert!(goto_definition_for_document(SAVED, source, position(2, 4)).is_none());
    assert!(hover_for_document(SAVED, source, position(2, 4)).is_none());
    assert!(references_for_document(SAVED, source, position(2, 4), false).is_none());
}

#[test]
fn formatting_replaces_noncanonical_source() {
    let source = "# Zulu\n\n😀\n\n# Home\n\n[Zulu]";
    let edits = formatting_for_document(source).unwrap();

    assert_eq!(edits.len(), 1);
    let edit = &edits[0];
    assert_eq!(edit.range, range((0, 0), (6, 6)));
    assert_eq!(edit.new_text, "# Home\n\n[Zulu]\n\n# Zulu\n\n😀\n");
}

#[test]
fn formatting_omits_edits_for_canonical_source() {
    let source = "# Home\n";

    assert!(formatting_for_document(source).unwrap().is_empty());
}

#[test]
fn formatting_rejects_unparsable_source() {
    let source = "# Home\n😀 ]";

    assert!(formatting_for_document(source).is_none());
}

// Format wikis that parse but fail validation, such as one without a home node.
#[test]
fn formatting_supports_invalid_wikis() {
    let source = "# Zulu\n\n# Elsewhere";
    let edits = formatting_for_document(source).unwrap();

    assert_eq!(edits.len(), 1);
    assert_eq!(edits[0].new_text, "# Elsewhere\n\n# Zulu\n");
}

// Format a new editor buffer without requiring a filesystem path.
#[test]
fn formatting_supports_untitled_wikis() {
    let source = "# Zulu\n\n# Home\n\n[Zulu]";
    let edits = formatting_for_document(source).unwrap();

    assert_eq!(edits.len(), 1);
    assert_eq!(edits[0].new_text, "# Home\n\n[Zulu]\n\n# Zulu\n");
}

#[test]
fn formatting_differences_are_not_diagnostics() {
    let source = "# Zulu\n\n# Home\n\n[Zulu]";

    assert!(diagnostics(SAVED, source).is_empty());
}

#[test]
fn source_errors_become_precise_diagnostics() {
    let source = "# Home\n😀 ]";
    let error = parse(Some("wiki.mull"), source)
        .unwrap_err()
        .into_iter()
        .next()
        .unwrap();
    let diagnostic = diagnostic_from_error(source, &error);

    assert_eq!(diagnostic.range, range((1, 3), (1, 4)));
    assert_eq!(diagnostic.severity, DiagnosticSeverity::Error);
    assert_eq!(diagnostic.source, "mull");
    assert_eq!(diagnostic.message, "Unexpected closing link delimiter.");
}

#[test]
fn errors_without_ranges_point_to_document_start() {
    let error = Error::new("Something went wrong.");
    let diagnostic = diagnostic_from_error("# Home\n", &error);

    assert_eq!(diagnostic.range, range((0, 0), (0, 0)));
}

#[test]
fn ranges_can_span_windows_line_endings() {
    let source = "first\r\nsecond";
    let error = source_error(
        "Something went wrong.",
        "wiki.mull",
        source,
        SourceRange { start: 0, end: 9 },
    );
    let diagnostic = diagnostic_from_error(source, &error);

    assert_eq!(diagnostic.range, range((0, 0), (1, 2)));
}

// Include an error's reason in its diagnostic.
#[test]
fn diagnostics_include_reasons() {
    let mut error = Error::new("`a` not found.");
    error.reason = Some(Reason::Outside("no such file".to_owned()));

    assert_eq!(
        diagnostic_from_error("# Home\n", &error).message,
        "`a` not found.\n\nReason: no such file",
    );
}

// Tell the latest snapshot of a document from stale ones.
#[test]
fn snapshots_go_stale() {
    let mut documents = OpenDocuments::new();
    let first = documents.store("a", "one".to_owned(), 1);
    let other = documents.store("b", "other".to_owned(), 1);
    assert!(documents.is_current("a", first));

    let second = documents.store("a", "two".to_owned(), 2);
    assert!(!documents.is_current("a", first));
    assert!(documents.is_current("a", second));
    assert!(documents.is_current("b", other));
    assert_eq!(documents.contents("a").as_deref(), Some("two"));
    assert_eq!(documents.contents("b").as_deref(), Some("other"));
    assert_eq!(documents.save("a", None), Some(("two".to_owned(), 2)));
    assert_eq!(
        documents.save("a", Some("three".to_owned())),
        Some(("three".to_owned(), 2)),
    );
    assert_eq!(documents.contents("a").as_deref(), Some("three"));
    assert_eq!(documents.save("c", None), None);

    let changed = vec!["a".to_owned()];
    let rechecked = documents.to_recheck(&changed);
    assert_eq!(rechecked.len(), 1);
    assert_eq!(rechecked[0].uri, "b");

    assert!(documents.close("a"));
    assert!(!documents.close("a"));
    assert_eq!(documents.contents("a"), None);
    assert!(!documents.is_current("a", second));
}

// Share a flag between those who set it and those who look at it.
#[test]
fn cancellation() {
    let flag = CancellationFlag::default();
    let shared = flag.clone();
    assert!(!shared.is_cancelled());

    flag.cancel();
    assert!(shared.is_cancelled());
    assert_eq!(Outcome::Completed(2).map(|value| value + 1).assume_completed(), 3);
    assert!(matches!(
        Outcome::<u8>::Cancelled.map(|value| value + 1),
        Outcome::Cancelled
    ));
}

// Complete a link that starts with a separator with files and directories.
#[test]
fn completions_of_rooted_links() {
    let entries = || {
        vec![
            entry("/notes/images", "images", true),
            entry("/notes/notes.txt", "notes.txt", false),
            entry("/notes/images/photo.jpg", "photo.jpg", false),
        ]
    };

    assert_eq!(
        completion_edits(&complete_saved("# Home\n\n[/]", position(2, 2), entries())),
        vec![
            ("images/", range((2, 2), (2, 2)), "images/"),
            ("notes.txt", range((2, 2), (2, 3)), "notes.txt]"),
        ],
    );
    assert_eq!(
        completion_edits(&complete_saved("# Home\n\n[/images/p", position(2, 10), entries())),
        vec![("photo.jpg", range((2, 2), (2, 10)), "images/photo.jpg]")],
    );
    assert_eq!(
        completion_edits(&complete_saved("# Home\n\n[file: images/p", position(2, 15), entries())),
        vec![("photo.jpg", range((2, 7), (2, 15)), "images/photo.jpg]")],
    );
}

// A target that names a file is not the title of a missing node, and no node can be renamed to it.
#[test]
fn rooted_targets_are_not_titles() {
    let source = "# Home\n\n[/notes.txt]";
    let at = position(2, 3);
    assert!(code_action_for_document(SAVED, source, Range::new(at, at), &[]).is_none());
    assert_eq!(
        rename_for_document(SAVED, source, position(0, 3), " /notes ").unwrap_err(),
        "A node title cannot start with `/`.",
    );
}

// Rename a linked file or directory along with every link to it or to anything within it.
#[test]
fn renaming_linked_paths() {
    let source = "# Home\n\n[file:./a/b.txt] [dir: a/] [/a/c\\[d\\].txt] [/a/] [dir:./a/.] [file:ab] \
                  [x]\n\n# x\n\n[ file:a//b.txt ] [/]\n";
    let cursor = position(2, 20);
    let prepared = prepare_rename_for_document(source, cursor).unwrap();
    assert_eq!(prepared.placeholder, "a");
    assert_eq!(prepared.range, range((2, 18), (2, 25)));

    let edit = rename_for_document(SAVED, source, cursor, " ./n [1]/m/ ").unwrap().unwrap();
    let rename = edit.file_rename.as_ref().unwrap();
    assert_eq!((rename.old_path.as_str(), rename.new_path.as_str()), ("a", "n [1]/m"));
    assert_eq!(
        edit.edits
            .iter()
            .map(|edit| edit.new_text.as_str())
            .collect::<Vec<_>>(),
        [
            "file:./n \\[1\\]/m/b.txt",
            "dir:n \\[1\\]/m/",
            "/n \\[1\\]/m/c\\[d\\].txt",
            "/n \\[1\\]/m/",
            "dir:./n \\[1\\]/m/",
            "file:n \\[1\\]/m/b.txt",
        ],
    );

    // Only the link itself follows a file.
    let edit = rename_for_document(SAVED, source, position(2, 3), "b.txt").unwrap().unwrap();
    assert_eq!(
        edit.edits
            .iter()
            .map(|edit| edit.new_text.as_str())
            .collect::<Vec<_>>(),
        ["file:./b.txt", "file:b.txt"],
    );
}

#[test]
fn renaming_rejects_invalid_paths() {
    let source = "# Home\n\n[dir:a] [/]";
    let rename = |name: &str| {
        rename_for_document(SAVED, source, position(2, 3), name).unwrap_err()
    };
    assert_eq!(rename("b\nc"), "A path cannot contain a line break.");
    assert_eq!(rename(" "), "This link is missing a path.");
    assert_eq!(rename("/b"), "Path `/b` must be relative to the wiki directory.");
    assert_eq!(rename("../b"), "Path `../b` must not contain `..`.");
    assert_eq!(rename("./."), "A path cannot be the wiki directory itself.");
    assert_eq!(rename("./ b"), "A path cannot start or end with white space.");
    assert_eq!(rename("b\\"), "A path cannot end with a backslash.");
    assert_eq!(rename("a/b"), "Path `a` cannot be moved into itself.");

    // The wiki's directory itself cannot be renamed.
    assert!(rename_for_document(SAVED, source, position(2, 9), "b").unwrap().is_none());
    assert!(prepare_rename_for_document(source, position(2, 9)).is_none());
}

#[test]
fn renames_leave_directories_empty() {
    let directories = directories_above("a/b/c/d.txt");
    assert_eq!(directories, ["a/b/c", "a/b", "a"]);
    assert!(directories_above("d.txt").is_empty());
    assert!(directories_above("").is_empty());

    assert_eq!(count_emptied(&directories, &vec![1, 1, 2], "e.txt"), 2);
    assert_eq!(count_emptied(&directories, &vec![1, 1, 1], "e.txt"), 3);
    assert_eq!(count_emptied(&directories, &vec![1, 1, 1], "a/b/e.txt"), 1);
    assert_eq!(count_emptied(&directories, &vec![2, 1, 1], "e.txt"), 0);
}
