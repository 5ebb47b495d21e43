//! What holds across functions, on concrete values.

use mull::cancellation::Outcome;
use mull::command::operate;
use mull::command::Operation;
use mull::document::Document;
use mull::language_server::code_action_for_document;
use mull::language_server::formatting_for_document;
use mull::language_server::rename_for_document;
use mull::language_server::WorkspaceEdit;
use mull::occurrences::link_at;
use mull::parse;
use mull::parser;
use mull::position::Position;
use mull::position::Range;
use mull::position::byte_offset;
use mull::text::Text;
use mull::validator::validate_text_links;
use mull::wiki::escape_link_delimiters;
use mull::wiki::unescape_link_delimiters;
use mull::wiki::Link;
use mull::wiki::Wiki;

const UNFORMATTED: &str = "# Zoo\r\n\r\n  Back to [ Home ].  \r\n\r\n\r\n# Home\n\nSee [Zoo] and \
                           [A \\[b\\]].\n# A [b]\nLeads to [file:notes.txt].\n\n";

// Apply the edits of a rename, last to first so that earlier ranges stay where they are.
fn applied(source: &str, edit: &WorkspaceEdit) -> String {
    let mut text = source.to_owned();
    for edit in edit.edits.iter().rev() {
        let start = byte_offset(source, edit.range.start).unwrap();
        let end = byte_offset(source, edit.range.end).unwrap();
        text.replace_range(start..end, &edit.new_text);
    }
    text
}

fn link_targets(wiki: &Wiki) -> Vec<String> {
    wiki.text_nodes
        .iter()
        .flat_map(|node| &node.links)
        .map(|link| match link {
            Link::Text { title, .. } => title.clone(),
            Link::File { path, .. } => format!("file:{path}"),
            Link::Directory { path, .. } => format!("dir:{path}"),
        })
        .collect()
}

#[test]
fn rendered_wikis_read_back() {
    let wiki = parser::parse(None, UNFORMATTED).unwrap();
    let rendered = wiki.to_string();
    assert_eq!(
        rendered,
        "# Home\n\nSee [Zoo] and [A \\[b\\]].\n\n# A [b]\n\nLeads to [file:notes.txt].\n\n# Zoo\n\n\
         Back to [Home].\n",
    );
    let again = parser::parse(Some("other.mull"), &rendered).unwrap();
    assert_eq!(again.to_string(), rendered);
    assert_eq!(
        again
            .text_nodes
            .iter()
            .map(|node| (node.title.as_str(), node.content.as_str(), node.depth))
            .collect::<Vec<_>>(),
        [
            ("Home", "See [Zoo] and [A \\[b\\]].", Some(0)),
            ("A [b]", "Leads to [file:notes.txt].", Some(1)),
            ("Zoo", "Back to [Home].", Some(1)),
        ],
    );
}

#[test]
fn formatting_twice_is_formatting_once() {
    let edits = formatting_for_document(UNFORMATTED).unwrap();
    assert_eq!(edits.len(), 1);
    assert_eq!(formatting_for_document(&edits[0].new_text).unwrap().len(), 0);
}

#[test]
fn check_accepts_what_fix_writes() {
    let source = "# B\n\n[Home]\n# Home\n\n[B]";
    let Outcome::Completed(Ok(fixed)) =
        operate(Operation::Fix, "w.mull", source, Outcome::Completed(Vec::new()))
    else {
        panic!("the wiki should be fixed");
    };
    let rewritten = fixed.rewrite.unwrap();
    assert_eq!(rewritten, "# Home\n\n[B]\n\n# B\n\n[Home]\n");
    let Outcome::Completed(Ok(checked)) = operate(
        Operation::Check,
        "w.mull",
        &rewritten,
        Outcome::Completed(Vec::new()),
    ) else {
        panic!("the check should succeed");
    };
    assert_eq!(checked.message, "Wiki `w.mull` looks good.");
    assert!(checked.rewrite.is_none());
}

// These contents do not settle: formatting them gives something else to read.
#[test]
fn contents_that_do_not_settle() {
    let first_line = parser::parse(None, "# Home\n # X").unwrap();
    assert_eq!(first_line.text_nodes.len(), 1);
    let reread = parser::parse(None, &first_line.to_string()).unwrap();
    assert_eq!(reread.text_nodes.len(), 2);

    let marker = parser::parse(None, "# Home\n\na\n#\t\nb").unwrap();
    assert_eq!(marker.text_nodes[0].content, "a\n#\nb");
    assert!(parser::parse(None, &marker.to_string()).is_err());

    let backslash = parser::parse(None, "# Home\n\n[x\\ ]").unwrap();
    assert_eq!(backslash.text_nodes[0].content, "[x\\]");
    assert!(parser::parse(None, &backslash.to_string()).is_err());
}

#[test]
fn unescaping_undoes_escaping() {
    for text in ["", "plain", "[a]", "\\[a\\]", "]]\\[[", "\\", "a\\"] {
        assert_eq!(unescape_link_delimiters(&escape_link_delimiters(text)), text);
    }
    assert_eq!(escape_link_delimiters("\\[a]"), "\\\\[a\\]");
}

#[test]
fn escaped_targets_keep_their_meaning() {
    for title in ["Plain", "A [b] c", "[x", "]", "\\[a"] {
        let source = format!(
            "# Home\n\nSee [Home] and [{}]",
            escape_link_delimiters(title),
        );
        let wiki = parser::parse(None, &source).unwrap();
        assert_eq!(link_targets(&wiki), ["Home", title]);
    }
    let source = format!("# Home\n\n[file:{}]", escape_link_delimiters("a[1].txt"));
    assert_eq!(
        link_targets(&parser::parse(None, &source).unwrap()),
        ["file:a[1].txt"],
    );
}

#[test]
fn parsing_ignores_names() {
    let named = parser::parse(Some("a.mull"), UNFORMATTED).unwrap();
    let unnamed = parser::parse(None, UNFORMATTED).unwrap();
    assert_eq!(named.to_string(), unnamed.to_string());
    let broken = "# Home\n\n[\n\n# \n\n]";
    assert_eq!(
        parser::parse(Some("a.mull"), broken).unwrap_err().len(),
        parser::parse(None, broken).unwrap_err().len(),
    );
}

#[test]
fn parsed_titles_and_contents_are_trimmed() {
    let wiki = parser::parse(None, "#   A b  \n\n  c  \n\n").unwrap();
    assert_eq!(wiki.text_nodes[0].title, "A b");
    assert_eq!(wiki.text_nodes[0].content, "c");
    assert!(parser::parse(None, "# A\n# A").is_err());
    assert!(parser::parse(None, "#  ").is_err());
    assert!(parser::parse(None, "# file:x").is_err());
}

#[test]
fn rendering_ignores_the_order_of_nodes() {
    let mut wiki = parser::parse(None, UNFORMATTED).unwrap();
    let rendered = wiki.to_string();
    wiki.text_nodes.reverse();
    assert_eq!(wiki.to_string(), rendered);
    wiki.text_nodes.swap(0, 1);
    assert_eq!(wiki.to_string(), rendered);

    let mut document: Document = parse::parse("# B\n\nb\n\n# A\n\n[B]\n").unwrap();
    let rendered = document.to_string();
    document.nodes.reverse();
    assert_eq!(document.to_string(), rendered);
    assert_eq!(rendered, "# A\n\n[B]\n\n# B\n\nb\n");
}

#[test]
fn graph_errors_ignore_the_order_of_nodes() {
    let source = "# Home\n\n[Nowhere]\n\n# C\n\n# B\n\n[Elsewhere]\n";
    let mut wiki = parser::parse(None, source).unwrap();
    let text = Text::new(source);
    let messages = |wiki: &Wiki| {
        validate_text_links(wiki, None, &text)
            .iter()
            .map(|error| error.message().to_owned())
            .collect::<Vec<_>>()
    };
    let expected = [
        "Node `Elsewhere` not found.",
        "Node `Nowhere` not found.",
        "Node `B` is not reachable from `Home`.",
        "Node `C` is not reachable from `Home`.",
    ];
    assert_eq!(messages(&wiki), expected);
    wiki.text_nodes.reverse();
    assert_eq!(messages(&wiki), expected);
}

#[test]
fn links_never_overlap() {
    let wiki = parser::parse(None, UNFORMATTED).unwrap();
    for offset in 0..UNFORMATTED.len() {
        let covering = wiki
            .text_nodes
            .iter()
            .flat_map(|node| &node.links)
            .filter(|link| {
                let range = link.source_range();
                range.start <= offset && offset < range.end
            })
            .count();
        assert!(covering <= 1);
        assert_eq!(link_at(&wiki, offset).is_some(), covering == 1);
    }
}

#[test]
fn rename_edits_do_not_overlap() {
    let edit = rename_for_document(
        "file:///w.mull",
        "# Home\n\n[Home][ Home ] [x]\n\n# x\n\n[Home]",
        Position::new(0, 3),
        "Start",
    )
    .unwrap()
    .unwrap();
    let source = "# Home\n\n[Home][ Home ] [x]\n\n# x\n\n[Home]";
    let ranges = edit
        .edits
        .iter()
        .map(|edit| {
            (
                byte_offset(source, edit.range.start).unwrap(),
                byte_offset(source, edit.range.end).unwrap(),
            )
        })
        .collect::<Vec<_>>();
    assert_eq!(ranges, [(2, 6), (9, 13), (15, 21), (34, 38)]);
    for pair in ranges.windows(2) {
        assert!(pair[0].1 < pair[1].0);
    }
}

#[test]
fn renamed_wikis_read_back() {
    let source = "# Home\n\n[Home][ Home ] [x]\n\n# x\n\n[Home]";
    let edit = rename_for_document("file:///w.mull", source, Position::new(0, 3), " A [b] ")
        .unwrap()
        .unwrap();
    let renamed = applied(source, &edit);
    assert_eq!(
        renamed,
        "# A [b]\n\n[A \\[b\\]][A \\[b\\]] [x]\n\n# x\n\n[A \\[b\\]]",
    );
    let wiki = parser::parse(None, &renamed).unwrap();
    assert_eq!(
        wiki.text_nodes
            .iter()
            .map(|node| node.title.as_str())
            .collect::<Vec<_>>(),
        ["A [b]", "x"],
    );
    assert_eq!(link_targets(&wiki), ["A [b]", "A [b]", "x", "A [b]"]);
}

#[test]
fn rendered_documents_read_back() {
    let source = "# Zebra\n\n  Stripes.\n## Not a title \n# Home\r\n\r\nSee [Zebra].\r\n# Empty\n";
    let first = parse::parse(source).unwrap().to_string();
    assert_eq!(
        first,
        "# Empty\n\n# Home\n\nSee [Zebra].\n\n# Zebra\n\nStripes.\n## Not a title\n",
    );

    let again = parse::parse(&first).unwrap();
    assert_eq!(again.nodes.len(), 3);
    assert_eq!(again.nodes[0].title, "Empty");
    assert_eq!(again.nodes[0].content, "");
    assert_eq!(again.nodes[2].content, "Stripes.\n## Not a title");
    assert_eq!(again.to_string(), first);
}

#[test]
fn document_contents_that_do_not_settle() {
    // The space before the content keeps its first line from being a title line.
    let first = parse::parse("# Home\n # X").unwrap().to_string();
    assert_eq!(first, "# Home\n\n# X\n");
    assert_eq!(parse::parse(&first).unwrap().nodes.len(), 2);

    // Only one carriage return belongs to a line ending.
    let first = parse::parse("# Home\na\r\r\nb").unwrap().to_string();
    assert_eq!(first, "# Home\n\na\r\nb\n");
    assert_eq!(parse::parse(&first).unwrap().to_string(), "# Home\n\na\nb\n");
}

#[test]
fn created_nodes_read_back() {
    let sources = [
        "# Home\n\nSee [ New\\[x\\] ].",
        "# Home\n\nSee [New\\[x\\]].\n",
        "# Home\r\n\r\nSee [New\\[x\\]].\r\n\r\n",
        "\n# Home\nSee [New\\[x\\]].\n\n# Empty",
    ];
    for source in sources {
        let start = source.find("[").unwrap();
        let line = source[..start].matches('\n').count();
        let at = Position::new(u32::try_from(line).unwrap(), 4);
        let actions =
            code_action_for_document("file:///a.mull", source, Range::new(at, at), &[]).unwrap();
        assert_eq!(actions.len(), 1);

        let created = applied(source, &actions[0].edit);
        assert!(created.ends_with("\n\n# New[x]\n"));
        let before = parser::parse(None, source).unwrap();
        let after = parser::parse(None, &created).unwrap();
        assert_eq!(after.text_nodes.len(), before.text_nodes.len() + 1);
        for (old, new) in before.text_nodes.iter().zip(&after.text_nodes) {
            assert_eq!(old.title, new.title);
            assert_eq!(old.content, new.content);
        }
        assert_eq!(after.text_nodes.last().unwrap().title, "New[x]");
        assert_eq!(after.text_nodes.last().unwrap().content, "");
        assert_eq!(link_targets(&after), link_targets(&before));
    }
}

#[test]
fn created_home_reads_back() {
    let start = Position::new(0, 0);
    for source in ["", "\n \n# A\n\nSee [B].\n\n# B", "# A\n\nText.\n"] {
        let actions =
            code_action_for_document("file:///a.mull", source, Range::new(start, start), &[])
                .unwrap();
        let created = applied(source, &actions[0].edit);
        let before = parser::parse(None, source).unwrap();
        let after = parser::parse(None, &created).unwrap();
        assert_eq!(after.text_nodes.len(), before.text_nodes.len() + 1);
        assert_eq!(after.text_nodes[0].title, "Home");
        assert_eq!(after.text_nodes[0].content, "");
        for (old, new) in before.text_nodes.iter().zip(&after.text_nodes[1..]) {
            assert_eq!(old.title, new.title);
            assert_eq!(old.content, new.content);
        }
    }
}

#[test]
fn plain_wikis_format_stably() {
    let source = "# Home  \n\n x \t\n ## y\n#z [ file: ./a//b ] [/c/./] [Zoo ]\n\n# Zoo\n#\u{2009}x\n";
    let wiki = parser::parse(None, source).unwrap();
    let rendered = wiki.to_string();
    assert_eq!(
        rendered,
        "# Home\n\nx\n ## y\n#z [file:./a/b] [/c/] [Zoo]\n\n# Zoo\n\n#\u{2009}x\n",
    );
    let again = parser::parse(None, &rendered).unwrap();
    assert_eq!(again.to_string(), rendered);
    assert_eq!(link_targets(&again), link_targets(&wiki));
}

#[test]
fn links_follow_renamed_paths() {
    let source = "# Home\n\n[dir:./a/] [/a/b/c.txt] [file: a/d] [/ab] [/]";
    let edit = rename_for_document("file:///w.mull", source, Position::new(2, 3), "x/y")
        .unwrap()
        .unwrap();
    let renamed = applied(source, &edit);
    assert_eq!(renamed, "# Home\n\n[dir:./x/y/] [/x/y/b/c.txt] [file:x/y/d] [/ab] [/]");
    let wiki = parser::parse(None, &renamed).unwrap();
    assert_eq!(
        link_targets(&wiki),
        ["dir:x/y", "file:x/y/b/c.txt", "file:x/y/d", "file:ab", "dir:"],
    );
    assert_eq!(wiki.to_string(), format!("{renamed}\n"));
}

#[test]
fn moved_sources_read_back() {
    let source = "# Home\n\nSee [A], [file:a/x\\ ], [/a/b /.] and [/ab].\n\n# A\n\n[dir: a/] [Home]";
    let edit = rename_for_document("file:///w.mull", source, Position::new(6, 3), "n [1]")
        .unwrap()
        .unwrap();
    let renamed = applied(source, &edit);
    assert_eq!(
        renamed,
        "# Home\n\nSee [A], [file:n \\[1\\]/x\\ ], [/n \\[1\\]/b /.] and [/ab].\n\n\
         # A\n\n[dir:n \\[1\\]/] [Home]",
    );
    let before = parser::parse(None, source).unwrap();
    let after = parser::parse(None, &renamed).unwrap();
    assert_eq!(
        link_targets(&before),
        ["A", "file:a/x\\", "file:a/b ", "file:ab", "dir:a", "Home"],
    );
    assert_eq!(
        link_targets(&after),
        ["A", "file:n [1]/x\\", "file:n [1]/b ", "file:ab", "dir:n [1]", "Home"],
    );
    let titles = |wiki: &Wiki| {
        wiki.text_nodes.iter().map(|node| node.title.clone()).collect::<Vec<_>>()
    };
    assert_eq!(titles(&after), titles(&before));
}

#[test]
fn document_links_are_read_once() {
    let document =
        parse::parse("# Home\n[B] [ B ] [\\[x\\]] \\[no\\] [file: ./a] [dir:d] [/e/] [/f] [/]").unwrap();
    let links: Vec<String> = document.nodes[0]
        .links
        .iter()
        .map(|link| format!("{link:?}"))
        .collect();
    assert_eq!(
        links,
        [
            "Text(\"B\")",
            "Text(\"[x]\")",
            "File(\"./a\")",
            "Directory(\"d\")",
            "Directory(\"e/\")",
            "File(\"f\")",
            "Directory(\"\")",
        ],
    );
}
