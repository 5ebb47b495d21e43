# Mull

Mull manages a personal knowledge wiki that is kept in one plain text file. A wiki consists of nodes,
each with a title line and content, and of links between them. Mull checks that links lead somewhere,
that every node can be reached from the home node and that every file around the wiki is linked from
it, and it puts the file into a canonical form. A language server offers the same to editors, along
with navigation, completion and renaming.

## Layout

- `src/` is the library. Everything in it is verified with [Verus](https://github.com/verus-lang/verus).
  - `text`, `order`, `phrase`, `path_util` and `paint` are the ground the rest stands on: characters
    and byte offsets, a stable sort, quoting, paths, and terminal colors.
  - `error` holds errors with listings of the source they are about.
  - `wiki`, `parser`, `scoring`, `markdown` and `validator` are wikis: their nodes and links, the
    format, distances from the home node, previews, and the checks. `analyzer`, `checker`, `command`
    and `cancellation` put these together.
  - `position`, `occurrences`, `completion`, `moving` (renaming of linked files), `documents` and
    `language_server` are the features that an editor asks for.
  - `node`, `document`, `parse` and `validate` are documents, the simpler kind of wiki without source
    ranges.
  - `linking`, `rereading`, `formatting`, `settling`, `ranges`, `changing`, `renaming`, `following` and
    `creating` state and prove what holds across these modules: formatting is stable, links keep their
    meaning, links never overlap, a wiki in which a node was renamed or created or a linked file was
    renamed reads back as the wiki that was meant, and so on. `document_formatting` does this for
    documents.
- `app/` is the program: the command line, the filesystem, and the connection to an editor. It is
  ordinary Rust that hands the library plain values.
- `tests/` runs the library.

## What is trusted

The library calls a few functions of other crates and of the standard library. Each such call but one
stands in a small function marked `#[verifier::external_body]`, whose doc comment says what is claimed of
the call: the colors of `colored`, the diff of `similar`, the file path of a URI from `tower-lsp-server`,
`percent-encoding`, the arrays of `serde_json`, and the `Debug` form and UTF-8 decoding of `String`. The
one exception is `String::push`, which is called directly and has its contract from an
`assume_specification` in `text`.

## Names

Functions named `law_…` are what the library promises; functions named `lemma_…` are steps on the way
to a proof.
