//! Terminal colors.

use colored::Colorize;
use vstd::prelude::*;

use crate::text;

verus! {

/// The escape sequence that ends a style.
pub open spec fn reset_code() -> Seq<char> {
    "\u{1b}[0m"@
}

/// The escape sequence for red text.
pub open spec fn red_code() -> Seq<char> {
    "\u{1b}[31m"@
}

/// The escape sequence for bold red text.
pub open spec fn red_bold_code() -> Seq<char> {
    "\u{1b}[1;31m"@
}

/// The escape sequence for bold blue text.
pub open spec fn blue_bold_code() -> Seq<char> {
    "\u{1b}[1;34m"@
}

/// The escape sequence for magenta text.
pub open spec fn magenta_code() -> Seq<char> {
    "\u{1b}[35m"@
}

/// A text between a style and a reset, with the style taken up again after each reset in the text.
/// Either occurrence of the style is missing if coloring is switched off while the text is being
/// written.
pub open spec fn painted_with(s: Seq<char>, style: Seq<char>, outer: bool, inner: bool) -> Seq<
    char,
> {
    let start = if outer {
        style
    } else {
        Seq::empty()
    };
    let again = if inner {
        style
    } else {
        Seq::empty()
    };
    start + text::replaced(s, reset_code(), reset_code() + again) + reset_code()
}

/// Whether a text may come out of styling another: the text itself when coloring is off, and the
/// text between escape sequences when it is on.
pub open spec fn is_painted(s: Seq<char>, style: Seq<char>, out: Seq<char>) -> bool {
    out == s || exists|outer: bool, inner: bool|
        out == #[trigger] painted_with(s, style, outer, inner)
}

/// Whether output is to be colored: `ShouldColorize::should_colorize` on
/// `colored::control::SHOULD_COLORIZE`. The answer depends on the environment, on the terminal and
/// on any manual override, so nothing is claimed of it.
#[verifier::external_body]
pub(crate) fn should_colorize() -> (result: bool)
{
    colored::control::SHOULD_COLORIZE.should_colorize()
}

/// Styles a text as red: `Colorize::red`, written out by the `Display` of `ColoredString`. The text
/// comes back unchanged if coloring is off, and between the escape sequences for red if it is on.
#[verifier::external_body]
fn red(value: &str) -> (styled: String)
    ensures
        is_painted(value@, red_code(), styled@),
{
    value.red().to_string()
}

/// Styles a text as bold red: `Colorize::red` and `Colorize::bold`, written out by the `Display` of
/// `ColoredString`. The text comes back unchanged if coloring is off, and between the escape
/// sequences for bold red if it is on.
#[verifier::external_body]
fn red_bold(value: &str) -> (styled: String)
    ensures
        is_painted(value@, red_bold_code(), styled@),
{
    value.red().bold().to_string()
}

/// Styles a text as bold blue: `Colorize::blue` and `Colorize::bold`, written out by the `Display`
/// of `ColoredString`. The text comes back unchanged if coloring is off, and between the escape
/// sequences for bold blue if it is on.
#[verifier::external_body]
fn blue_bold(value: &str) -> (styled: String)
    ensures
        is_painted(value@, blue_bold_code(), styled@),
{
    value.blue().bold().to_string()
}

/// Styles a text as magenta: `Colorize::magenta`, written out by the `Display` of `ColoredString`.
/// The text comes back unchanged if coloring is off, and between the escape sequences for magenta
/// if it is on.
#[verifier::external_body]
fn magenta(value: &str) -> (styled: String)
    ensures
        is_painted(value@, magenta_code(), styled@),
{
    value.magenta().to_string()
}

/// Style a text as red if output is colored.
pub fn paint_red(value: &str, colorized: bool) -> (styled: String)
    ensures
        is_painted(value@, red_code(), styled@),
        !colorized ==> styled@ == value@,
{
    if colorized {
        red(value)
    } else {
        value.to_owned()
    }
}

/// Style a text as bold red if output is colored.
pub fn paint_red_bold(value: &str, colorized: bool) -> (styled: String)
    ensures
        is_painted(value@, red_bold_code(), styled@),
        !colorized ==> styled@ == value@,
{
    if colorized {
        red_bold(value)
    } else {
        value.to_owned()
    }
}

/// Style a text as bold blue if output is colored.
pub fn paint_blue_bold(value: &str, colorized: bool) -> (styled: String)
    ensures
        is_painted(value@, blue_bold_code(), styled@),
        !colorized ==> styled@ == value@,
{
    if colorized {
        blue_bold(value)
    } else {
        value.to_owned()
    }
}

/// Style a text as magenta if output is colored.
pub fn paint_magenta(value: &str, colorized: bool) -> (styled: String)
    ensures
        is_painted(value@, magenta_code(), styled@),
        !colorized ==> styled@ == value@,
{
    if colorized {
        magenta(value)
    } else {
        value.to_owned()
    }
}

} // verus!
