//! A verified core for Mull, a tool that manages a personal wiki kept in one plain text file.

pub mod analyzer;
pub mod answering;
pub mod arriving;
pub mod cancellation;
pub mod changing;
pub mod checker;
pub mod command;
pub mod completing;
pub mod completion;
pub mod covering;
pub mod creating;
pub mod document;
pub mod document_formatting;
pub mod documents;
pub mod error;
pub mod following;
pub mod formatting;
pub mod judging;
pub mod keeping;
pub mod language_server;
pub mod leading;
pub mod linking;
pub mod markdown;
pub mod moving;
pub mod navigating;
pub mod node;
pub mod occurrences;
pub mod offering;
pub mod order;
pub mod ordering;
pub mod paint;
pub mod parse;
pub mod parser;
pub mod path_util;
pub mod phrase;
pub mod placing;
pub mod position;
pub mod ranges;
pub mod referencing;
pub mod renaming;
pub mod rereading;
pub mod scoring;
pub mod settling;
pub mod showing;
pub mod text;
pub mod validate;
pub mod validator;
pub mod wiki;
