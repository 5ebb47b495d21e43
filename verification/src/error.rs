//! Errors, and the source listings that they are shown with.

use std::rc::Rc;

use vstd::prelude::*;
use vstd::string::StringExecFns;

use crate::paint;
use crate::phrase;
use crate::text;
use crate::text::Text;

verus! {

/// A range of bytes in a source.
#[derive(Clone, Copy, Debug, PartialEq, Eq, Structural)]
pub struct SourceRange {
    pub start: usize,  // Inclusive
    pub end: usize,  // Exclusive
}

/// The bounds of a source range.
pub struct Span {
    pub start: int,
    pub end: int,
}

impl View for SourceRange {
    type V = Span;

    open spec fn view(&self) -> Span {
        Span { start: self.start as int, end: self.end as int }
    }
}

/// The range of bytes that a range of characters occupies.
pub open spec fn span_of(s: Seq<char>, lo: int, hi: int) -> Span {
    Span { start: text::offset(s, lo), end: text::offset(s, hi) }
}

impl SourceRange {
    /// Find the range of bytes that a range of characters occupies.
    pub fn of(source: &Text, lo: usize, hi: usize) -> (range: SourceRange)
        requires
            source.wf(),
            lo <= hi <= source@.len(),
        ensures
            range@ == span_of(source@, lo as int, hi as int),
    {
        SourceRange { start: source.offsets[lo], end: source.offsets[hi] }
    }
}

/// One line of a source listing, with the part of it that is highlighted.
#[derive(Clone, Debug)]
pub struct ListingRow {
    pub number: usize,
    pub before: String,
    pub section: String,
    pub after: String,
}

/// The contents of a listing row.
pub struct RowView {
    pub number: nat,
    pub before: Seq<char>,
    pub section: Seq<char>,
    pub after: Seq<char>,
}

impl View for ListingRow {
    type V = RowView;

    open spec fn view(&self) -> RowView {
        RowView {
            number: self.number as nat,
            before: self.before@,
            section: self.section@,
            after: self.after@,
        }
    }
}

/// The rows in a vector.
pub open spec fn row_views(rows: Seq<ListingRow>) -> Seq<RowView> {
    rows.map_values(|row: ListingRow| row@)
}

/// What is shown below an error's message: given text, or lines of the source.
#[derive(Clone, Debug)]
pub enum Listing {
    Plain(String),
    Source(Vec<ListingRow>),
}

/// The contents of a listing.
pub enum ListingView {
    Plain(Seq<char>),
    Source(Seq<RowView>),
}

impl View for Listing {
    type V = ListingView;

    open spec fn view(&self) -> ListingView {
        match self {
            Listing::Plain(text) => ListingView::Plain(text@),
            Listing::Source(rows) => ListingView::Source(row_views(rows@)),
        }
    }
}

/// What led to an error: another error, or a failure elsewhere that is known by its description.
#[derive(Clone, Debug)]
pub enum Reason {
    Nested(Rc<Error>),
    Outside(String),
}

/// The error type used throughout the crate.
#[derive(Clone, Debug)]
pub struct Error {
    pub message: String,
    pub source_range: Option<SourceRange>,
    pub source_path: Option<String>,
    pub listing: Option<Listing>,
    pub reason: Option<Reason>,
}

/// The contents of an error.
pub struct ErrorView {
    pub message: Seq<char>,
    pub span: Option<Span>,
    pub path: Option<Seq<char>>,
    pub listing: Option<ListingView>,
    pub reason: Option<Reason>,
}

impl View for Error {
    type V = ErrorView;

    open spec fn view(&self) -> ErrorView {
        ErrorView {
            message: self.message@,
            span: match self.source_range {
                Some(range) => Some(range@),
                None => None,
            },
            path: match self.source_path {
                Some(path) => Some(path@),
                None => None,
            },
            listing: match self.listing {
                Some(listing) => Some(listing@),
                None => None,
            },
            reason: self.reason,
        }
    }
}

/// The errors in a vector.
pub open spec fn error_views(errors: Seq<Error>) -> Seq<ErrorView> {
    errors.map_values(|error: Error| error@)
}

/// The text of an optional string.
pub open spec fn optional_text(value: Option<&str>) -> Option<Seq<char>> {
    match value {
        Some(value) => Some(value@),
        None => None,
    }
}

/// An error without any context.
pub open spec fn bare_error(message: Seq<char>) -> ErrorView {
    ErrorView { message, span: None, path: None, listing: None, reason: None }
}

/// An error about a file as a whole.
pub open spec fn file_error(
    message: Seq<char>,
    path: Option<Seq<char>>,
    reason: Option<Reason>,
) -> ErrorView {
    ErrorView { message, span: None, path, listing: None, reason }
}

/// An error about a range of a source.
pub open spec fn located_error(
    message: Seq<char>,
    path: Option<Seq<char>>,
    s: Seq<char>,
    span: Span,
    reason: Option<Reason>,
) -> ErrorView {
    ErrorView {
        message,
        span: Some(span),
        path,
        listing: Some(ListingView::Source(listing_rows(s, span))),
        reason,
    }
}

/// The row for a line of a source, with characters `a` to `b` of the source highlighted as far as
/// they are on the line. A highlight that covers the start of the line leaves out its indentation.
pub open spec fn listing_row(
    s: Seq<char>,
    start: int,
    end: int,
    number: nat,
    a: int,
    b: int,
) -> RowView {
    let stop = text::trim_end_index(s, start, end);
    let to = if b < stop {
        b
    } else {
        stop
    };
    let dark = text::trim_start_index(s, start, stop);
    let from = if a > start {
        if a < stop {
            a
        } else {
            stop
        }
    } else if dark < to {
        dark
    } else {
        to
    };
    let until = if from < to {
        to
    } else {
        from
    };
    RowView {
        number,
        before: s.subrange(start, from),
        section: s.subrange(from, until),
        after: s.subrange(until, stop),
    }
}

/// The rows for the lines from `start` on that characters `a` to `b` touch.
pub open spec fn rows_from(s: Seq<char>, start: int, number: nat, a: int, b: int) -> Seq<RowView>
    decreases s.len() + 1 - start,
{
    if start < 0 || start > s.len() || start >= b {
        Seq::empty()
    } else {
        proof {
            text::lemma_line_end(s, start);
        }
        let end = text::line_end(s, start);
        let rest = rows_from(s, end + 1, number + 1, a, b);
        if end + 1 <= a {
            rest
        } else {
            seq![listing_row(s, start, end, number, a, b)] + rest
        }
    }
}

/// The index that a byte offset stands for. An offset inside a character counts as the start of that
/// character, and an offset past the end of the source as an index past its end.
pub open spec fn reached_index(s: Seq<char>, b: int) -> int {
    if b <= text::byte_len(s) {
        text::floor_index(s, b)
    } else {
        s.len() + (b - text::byte_len(s))
    }
}

/// The lines of a source that a range touches.
pub open spec fn listing_rows(s: Seq<char>, span: Span) -> Seq<RowView> {
    rows_from(s, 0, 1, reached_index(s, span.start), reached_index(s, span.end))
}

/// Find the index that a byte offset stands for.
fn find_reached_index(source: &Text, offset: usize) -> (index: usize)
    requires
        source.wf(),
    ensures
        index == reached_index(source@, offset as int),
{
    let last = source.chars.len();
    let total: usize = source.offsets[last];
    proof {
        text::lemma_offset_ends(source@);
        text::lemma_offset_monotonic(source@, 0, last as int);
    }
    if offset <= total {
        source.floor(offset)
    } else {
        offset - (total - last)
    }
}

/// Collect the lines of a source that a range touches.
pub fn collect_listing_rows(source: &Text, range: SourceRange) -> (rows: Vec<ListingRow>)
    requires
        source.wf(),
    ensures
        row_views(rows@) == listing_rows(source@, range@),
{
    let a = find_reached_index(source, range.start);
    let b = find_reached_index(source, range.end);
    let chars = source.chars.as_slice();
    let total: usize = chars.len();
    let slots: usize = source.offsets.len();
    let mut rows: Vec<ListingRow> = Vec::new();
    let mut start: usize = 0;
    let mut number: usize = 1;
    while start < b
        invariant
            chars@ == source@,
            total == chars@.len(),
            slots == total + 1,
            a == reached_index(source@, range@.start),
            b == reached_index(source@, range@.end),
            start <= total,
            number <= start + 1,
            row_views(rows@) + rows_from(source@, start as int, number as nat, a as int, b as int)
                == rows_from(source@, 0, 1, a as int, b as int),
        decreases total + 1 - start,
    {
        let end = text::find_line_end(chars, start);
        let ghost before = row_views(rows@);
        let ghost rest = rows_from(source@, end + 1, (number + 1) as nat, a as int, b as int);
        if end >= a {
            let stop = text::find_trim_end(chars, start, end);
            let to = if b < stop {
                b
            } else {
                stop
            };
            let dark = text::find_trim_start(chars, start, stop);
            let from = if a > start {
                if a < stop {
                    a
                } else {
                    stop
                }
            } else if dark < to {
                dark
            } else {
                to
            };
            let until = if from < to {
                to
            } else {
                from
            };
            let row = ListingRow {
                number,
                before: text::string_of(text::slice_of(chars, start, from).as_slice()),
                section: text::string_of(text::slice_of(chars, from, until).as_slice()),
                after: text::string_of(text::slice_of(chars, until, stop).as_slice()),
            };
            let ghost row_view = row@;
            rows.push(row);
            proof {
                assert(row_view == listing_row(
                    source@,
                    start as int,
                    end as int,
                    number as nat,
                    a as int,
                    b as int,
                ));
                assert(row_views(rows@) =~= before.push(row_view));
                assert(row_views(rows@) + rest =~= before + (seq![row_view] + rest));
            }
        }
        if end >= total {
            proof {
                assert(rest =~= Seq::<RowView>::empty());
                assert(row_views(rows@) + rest =~= row_views(rows@));
            }
            return rows;
        }
        start = end + 1;
        number = number + 1;
    }
    proof {
        assert(row_views(rows@) + Seq::<RowView>::empty() =~= row_views(rows@));
    }
    rows
}

/// The number of columns that the line numbers of a listing need.
pub open spec fn gutter_width(rows: Seq<RowView>) -> nat
    decreases rows.len(),
{
    if rows.len() == 0 {
        0
    } else {
        let rest = gutter_width(rows.drop_last());
        let last = text::decimal(rows.last().number).len();
        if rest < last {
            last
        } else {
            rest
        }
    }
}

/// The line number of a row, aligned on the right.
pub open spec fn gutter(row: RowView, width: nat) -> Seq<char> {
    let digits = text::decimal(row.number);
    text::repeated(' ', (width - digits.len()) as nat) + digits + " \u{2502} "@
}

/// The line below a row, which marks the row's highlighted section. The marks are as many as the
/// bytes of the section.
pub open spec fn underline(row: RowView, width: nat, is_last: bool) -> Seq<char> {
    let margin = "\n"@ + text::repeated(' ', width) + " "@ + if is_last {
        " "@
    } else {
        "\u{250a}"@
    };
    if row.section.len() == 0 {
        margin
    } else {
        margin + " "@ + text::repeated(' ', text::byte_len(row.before)) + text::repeated(
            '\u{203e}',
            text::byte_len(row.section),
        )
    }
}

/// A row without colors.
pub open spec fn plain_row(row: RowView, width: nat, is_last: bool) -> Seq<char> {
    gutter(row, width) + row.before + row.section + row.after + underline(row, width, is_last)
}

/// A listing without colors.
pub open spec fn plain_rows(rows: Seq<RowView>) -> Seq<char> {
    phrase::joined(
        Seq::new(
            rows.len(),
            |i: int| plain_row(rows[i], gutter_width(rows), i == rows.len() - 1),
        ),
        "\n"@,
    )
}

/// Whether a text may be a row: the row's parts in order, with the line number and the section
/// styled. The section is underlined unless output is colored.
pub open spec fn is_row_text(
    row: RowView,
    width: nat,
    is_last: bool,
    colorized: bool,
    out: Seq<char>,
) -> bool {
    exists|number: Seq<char>, section: Seq<char>|
        {
            &&& #[trigger] paint::is_painted(gutter(row, width), paint::blue_bold_code(), number)
            &&& #[trigger] paint::is_painted(row.section, paint::red_code(), section)
            &&& out == number + row.before + section + row.after + if colorized {
                Seq::empty()
            } else {
                underline(row, width, is_last)
            }
        }
}

/// Whether a text may be a listing: its rows on lines of their own.
pub open spec fn is_rows_text(rows: Seq<RowView>, colorized: bool, out: Seq<char>) -> bool {
    exists|lines: Seq<Seq<char>>|
        {
            &&& lines.len() == rows.len()
            &&& forall|i: int|
                0 <= i < rows.len() ==> is_row_text(
                    rows[i],
                    gutter_width(rows),
                    i == rows.len() - 1,
                    colorized,
                    #[trigger] lines[i],
                )
            &&& out == #[trigger] phrase::joined(lines, "\n"@)
        }
}

/// Compute the number of columns that the line numbers of a listing need.
fn compute_gutter_width(rows: &Vec<ListingRow>) -> (width: usize)
    ensures
        width == gutter_width(row_views(rows@)),
        forall|i: int|
            0 <= i < rows@.len() ==> text::decimal(#[trigger] rows@[i].number as nat).len()
                <= width,
{
    let mut width: usize = 0;
    let mut i: usize = 0;
    let ghost views = row_views(rows@);
    while i < rows.len()
        invariant
            views == row_views(rows@),
            i <= rows@.len(),
            width == gutter_width(views.take(i as int)),
            forall|j: int|
                0 <= j < i ==> text::decimal(#[trigger] rows@[j].number as nat).len() <= width,
        decreases rows.len() - i,
    {
        let digits = text::chars_of(text::decimal_text(rows[i].number).as_str());
        proof {
            assert(views.take(i + 1).drop_last() =~= views.take(i as int));
            assert(views.take(i + 1).last() == rows@[i as int]@);
        }
        if width < digits.len() {
            width = digits.len();
        }
        i = i + 1;
    }
    proof {
        assert(views.take(i as int) =~= views);
    }
    width
}

/// Write a row.
fn render_row(row: &ListingRow, width: usize, is_last: bool, colorized: bool) -> (out: String)
    requires
        text::decimal(row.number as nat).len() <= width,
    ensures
        is_row_text(row@, width as nat, is_last, colorized, out@),
        !colorized ==> out@ == plain_row(row@, width as nat, is_last),
{
    let digits = text::decimal_text(row.number);
    let digit_count = text::chars_of(digits.as_str()).len();
    let mut number = String::new();
    text::push_repeated(&mut number, ' ', width - digit_count);
    number.append(digits.as_str());
    number.append(" \u{2502} ");
    proof {
        assert(number@ =~= gutter(row@, width as nat));
    }
    let painted_number = paint::paint_blue_bold(number.as_str(), colorized);
    let painted_section = paint::paint_red(row.section.as_str(), colorized);
    let mut out = String::new();
    out.append(painted_number.as_str());
    out.append(row.before.as_str());
    out.append(painted_section.as_str());
    out.append(row.after.as_str());
    let ghost line = painted_number@ + row.before@ + painted_section@ + row.after@;
    proof {
        assert(out@ =~= line);
    }
    if !colorized {
        let section = Text::new(row.section.as_str());
        let before = Text::new(row.before.as_str());
        proof {
            text::lemma_offset_ends(section@);
            text::lemma_offset_ends(before@);
        }
        out.append("\n");
        text::push_repeated(&mut out, ' ', width);
        out.append(" ");
        if is_last {
            out.append(" ");
        } else {
            out.append("\u{250a}");
        }
        if section.len() > 0 {
            out.append(" ");
            text::push_repeated(&mut out, ' ', before.offsets[before.len()]);
            text::push_repeated(&mut out, '\u{203e}', section.offsets[section.len()]);
        }
        proof {
            assert(out@ =~= line + underline(row@, width as nat, is_last));
        }
    } else {
        proof {
            assert(out@ =~= line + Seq::<char>::empty());
        }
    }
    out
}

/// Write a listing.
pub fn render_rows(rows: &Vec<ListingRow>, colorized: bool) -> (out: String)
    ensures
        is_rows_text(row_views(rows@), colorized, out@),
        !colorized ==> out@ == plain_rows(row_views(rows@)),
{
    let ghost views = row_views(rows@);
    let width = compute_gutter_width(rows);
    let mut lines: Vec<String> = Vec::new();
    let mut i: usize = 0;
    while i < rows.len()
        invariant
            views == row_views(rows@),
            width == gutter_width(views),
            forall|j: int|
                0 <= j < rows@.len() ==> text::decimal(#[trigger] rows@[j].number as nat).len()
                    <= width,
            i <= rows@.len(),
            lines@.len() == i,
            forall|j: int|
                0 <= j < i ==> is_row_text(
                    views[j],
                    width as nat,
                    j == views.len() - 1,
                    colorized,
                    #[trigger] lines@[j]@,
                ),
            !colorized ==> forall|j: int|
                0 <= j < i ==> #[trigger] lines@[j]@ == plain_row(
                    views[j],
                    width as nat,
                    j == views.len() - 1,
                ),
        decreases rows.len() - i,
    {
        assert(rows@[i as int]@ == views[i as int]);
        lines.push(render_row(&rows[i], width, i == rows.len() - 1, colorized));
        i = i + 1;
    }
    let out = phrase::join(&lines, "\n");
    proof {
        let texts = phrase::text_views(lines@);
        assert forall|j: int| 0 <= j < views.len() implies is_row_text(
            views[j],
            gutter_width(views),
            j == views.len() - 1,
            colorized,
            #[trigger] texts[j],
        ) by {
            assert(texts[j] == lines@[j]@);
        }
        if !colorized {
            assert(texts =~= Seq::new(
                views.len(),
                |j: int| plain_row(views[j], gutter_width(views), j == views.len() - 1),
            ));
        }
    }
    out
}

/// Render the lines of a source that a range touches, highlighting the range. The range is
/// inclusive on the left and exclusive on the right.
pub fn listing(source_contents: &str, source_range: SourceRange) -> (out: String)
    ensures
        exists|colorized: bool|
            #[trigger] is_rows_text(
                listing_rows(source_contents@, source_range@),
                colorized,
                out@,
            ),
{
    listing_with(source_contents, source_range, paint::should_colorize())
}

/// Render the lines of a source that a range touches, in colors or with underlines.
pub fn listing_with(source_contents: &str, source_range: SourceRange, colorized: bool) -> (out:
    String)
    ensures
        is_rows_text(listing_rows(source_contents@, source_range@), colorized, out@),
        !colorized ==> out@ == plain_rows(listing_rows(source_contents@, source_range@)),
{
    let source = Text::new(source_contents);
    let rows = collect_listing_rows(&source, source_range);
    render_rows(&rows, colorized)
}

/// What follows an error's message if it has a listing.
pub open spec fn listing_part(listing: Seq<char>) -> Seq<char> {
    if listing.len() == 0 {
        Seq::empty()
    } else {
        "\n\n"@ + listing
    }
}

/// The listing of an error without colors, or nothing if it has none.
pub open spec fn plain_listing(listing: Option<ListingView>) -> Seq<char> {
    match listing {
        None => Seq::empty(),
        Some(ListingView::Plain(text)) => text,
        Some(ListingView::Source(rows)) => plain_rows(rows),
    }
}

/// Whether a text may be the listing of an error.
pub open spec fn is_listing_text(
    listing: Option<ListingView>,
    colorized: bool,
    out: Seq<char>,
) -> bool {
    match listing {
        None => out.len() == 0,
        Some(ListingView::Plain(text)) => out == text,
        Some(ListingView::Source(rows)) => is_rows_text(rows, colorized, out),
    }
}

/// An error without colors.
pub open spec fn plain_error(error: Error) -> Seq<char>
    decreases error,
{
    let path = match error.source_path {
        Some(path) => " "@ + ("["@ + phrase::code(path@) + "]"@),
        None => Seq::empty(),
    };
    let reason = match error.reason {
        Some(Reason::Nested(inner)) => labelled("Reason:"@, plain_error(*inner)),
        Some(Reason::Outside(description)) => labelled("Reason:"@, description@),
        None => Seq::empty(),
    };
    assembled("[Error]"@, path, error.message@, plain_listing(error@.listing), reason)
}

/// Whether a text may be the name of an error's file.
pub open spec fn is_painted_path(path: Seq<char>, out: Seq<char>) -> bool {
    paint::is_painted("["@ + phrase::code(path) + "]"@, paint::magenta_code(), out)
}

/// Whether a text may start an error.
pub open spec fn is_error_label(out: Seq<char>) -> bool {
    paint::is_painted("[Error]"@, paint::red_bold_code(), out)
}

/// Whether a text may introduce the reason of an error.
pub open spec fn is_reason_label(out: Seq<char>) -> bool {
    paint::is_painted("Reason:"@, paint::blue_bold_code(), out)
}

/// Whether a text may be the name of an error's file after a space.
pub open spec fn is_spaced_path(path: Seq<char>, out: Seq<char>) -> bool {
    exists|name: Seq<char>| #[trigger] is_painted_path(path, name) && out == " "@ + name
}

/// Whether a text may be the part of an error that names its file.
pub open spec fn is_path_part(path: Option<Seq<char>>, out: Seq<char>) -> bool {
    match path {
        Some(path) => is_spaced_path(path, out),
        None => out.len() == 0,
    }
}

/// The parts of an error in a row.
pub open spec fn assembled(
    header: Seq<char>,
    path: Seq<char>,
    message: Seq<char>,
    body: Seq<char>,
    reason: Seq<char>,
) -> Seq<char> {
    header + path + " "@ + message + listing_part(body) + reason
}

/// The description of a reason after its label.
pub open spec fn labelled(label: Seq<char>, description: Seq<char>) -> Seq<char> {
    "\n\n"@ + label + " "@ + description
}

/// Whether a text may be an error: the styled parts in order, as `plain_error` has them without
/// styles.
pub open spec fn is_error_text(error: Error, colorized: bool, out: Seq<char>) -> bool
    decreases error, 0int,
{
    exists|header: Seq<char>, path: Seq<char>, body: Seq<char>, reason: Seq<char>|
        {
            &&& is_error_label(header)
            &&& is_path_part(error@.path, path)
            &&& is_listing_text(error@.listing, colorized, body)
            &&& is_reason_part(error.reason, colorized, reason)
            &&& out == #[trigger] assembled(header, path, error.message@, body, reason)
        }
}

/// Whether a text may be the part of an error that describes its reason.
pub open spec fn is_reason_part(reason: Option<Reason>, colorized: bool, out: Seq<char>) -> bool
    decreases reason, 0int,
{
    match reason {
        Some(reason) => is_labelled_reason(reason, colorized, out),
        None => out.len() == 0,
    }
}

/// Whether a text may introduce and describe the reason of an error.
pub open spec fn is_labelled_reason(reason: Reason, colorized: bool, out: Seq<char>) -> bool
    decreases reason, 1int,
{
    exists|label: Seq<char>, description: Seq<char>|
        {
            &&& is_reason_label(label)
            &&& is_reason_text(reason, colorized, description)
            &&& out == #[trigger] labelled(label, description)
        }
}

/// Whether a text may describe the reason of an error.
pub open spec fn is_reason_text(reason: Reason, colorized: bool, out: Seq<char>) -> bool
    decreases reason, 0int,
{
    match reason {
        Reason::Nested(inner) => is_error_text(*inner, colorized, out),
        Reason::Outside(description) => out == description@,
    }
}

impl Reason {
    /// The description of a reason without colors.
    pub open spec fn plain(self) -> Seq<char> {
        match self {
            Reason::Nested(inner) => plain_error(*inner),
            Reason::Outside(description) => description@,
        }
    }

    /// Write the description of a reason.
    pub fn render(&self, colorized: bool) -> (out: String)
        ensures
            is_reason_text(*self, colorized, out@),
            !colorized ==> out@ == self.plain(),
        decreases self,
    {
        match self {
            Reason::Nested(inner) => inner.render(colorized),
            Reason::Outside(description) => description.clone(),
        }
    }

    /// Describe a reason.
    pub fn to_string(&self) -> (out: String)
        ensures
            exists|colorized: bool| #[trigger] is_reason_text(*self, colorized, out@),
    {
        self.render(paint::should_colorize())
    }
}

impl Error {
    /// Construct an unadorned error for contexts that do not need a path or source listing.
    pub fn new(message: &str) -> (error: Error)
        ensures
            error@ == bare_error(message@),
    {
        Error {
            message: message.to_owned(),
            source_range: None,
            source_path: None,
            listing: None,
            reason: None,
        }
    }

    /// Construct an error about a file as a whole.
    pub fn of_file(message: String, source_path: Option<&str>, reason: Option<Reason>) -> (error:
        Error)
        ensures
            error@ == file_error(message@, optional_text(source_path), reason),
    {
        Error {
            message,
            source_range: None,
            source_path: owned_path(source_path),
            listing: None,
            reason,
        }
    }

    /// Construct an error about a range of a source.
    pub fn at(
        message: String,
        source_path: Option<&str>,
        source: &Text,
        source_range: SourceRange,
        reason: Option<Reason>,
    ) -> (error: Error)
        requires
            source.wf(),
        ensures
            error@ == located_error(
                message@,
                optional_text(source_path),
                source@,
                source_range@,
                reason,
            ),
    {
        Error {
            message,
            source_range: Some(source_range),
            source_path: owned_path(source_path),
            listing: Some(Listing::Source(collect_listing_rows(source, source_range))),
            reason,
        }
    }

    /// The message.
    pub fn message(&self) -> (message: &str)
        ensures
            message@ == self@.message,
    {
        self.message.as_str()
    }

    /// The range of the source that the error is about.
    pub fn source_range(&self) -> (range: Option<SourceRange>)
        ensures
            range == self.source_range,
    {
        self.source_range
    }

    /// The path of the file that the error is about.
    pub fn source_path(&self) -> (path: Option<&str>)
        ensures
            optional_text(path) == self@.path,
    {
        match &self.source_path {
            Some(path) => Some(path.as_str()),
            None => None,
        }
    }

    /// What led to the error.
    pub fn reason(&self) -> (reason: Option<&Reason>)
        ensures
            reason == (match self.reason {
                Some(reason) => Some(&reason),
                None => None,
            }),
    {
        match &self.reason {
            Some(reason) => Some(reason),
            None => None,
        }
    }

    /// Write the error, in colors or without.
    pub fn render(&self, colorized: bool) -> (out: String)
        ensures
            is_error_text(*self, colorized, out@),
            !colorized ==> out@ == plain_error(*self),
        decreases self,
    {
        // Render the error header from its structured fields.
        let header = paint::paint_red_bold("[Error]", colorized);
        let path = match &self.source_path {
            Some(path) => {
                let quoted = phrase::code_str(path.as_str());
                let bracketed = phrase::concat3("[", quoted.as_str(), "]");
                let name = paint::paint_magenta(bracketed.as_str(), colorized);
                let part = phrase::concat3(" ", name.as_str(), "");
                proof {
                    reveal_strlit("");
                    assert(part@ =~= " "@ + name@);
                    assert(bracketed@ == "["@ + phrase::code(path@) + "]"@);
                    assert(is_painted_path(path@, name@));
                    assert(is_spaced_path(path@, part@));
                    assert(is_path_part(self@.path, part@));
                }
                part
            },
            None => String::new(),
        };

        // Include the source listing when one is available and nonempty.
        let body = match &self.listing {
            Some(Listing::Plain(text)) => text.clone(),
            Some(Listing::Source(rows)) => render_rows(rows, colorized),
            None => String::new(),
        };

        // Include the underlying failure when one is available.
        let reason = match &self.reason {
            Some(reason) => {
                let label = paint::paint_blue_bold("Reason:", colorized);
                let description = reason.render(colorized);
                let mut part = phrase::concat3("\n\n", label.as_str(), " ");
                part.append(description.as_str());
                proof {
                    assert(is_reason_text(*reason, colorized, description@));
                    assert(is_reason_label(label@));
                    assert(part@ =~= labelled(label@, description@));
                    assert(is_labelled_reason(*reason, colorized, part@));
                }
                part
            },
            None => String::new(),
        };

        let mut out = phrase::concat3(header.as_str(), path.as_str(), " ");
        out.append(self.message.as_str());
        if !body.as_str().is_empty() {
            out.append("\n\n");
            out.append(body.as_str());
        }
        out.append(reason.as_str());
        proof {
            assert(is_error_label(header@));
            assert(is_path_part(self@.path, path@));
            assert(is_listing_text(self@.listing, colorized, body@));
            assert(is_reason_part(self.reason, colorized, reason@));
            assert(out@ =~= assembled(header@, path@, self.message@, body@, reason@));
            if !colorized {
                assert(body@ == plain_listing(self@.listing));
            }
        }
        out
    }

    /// Write the error.
    pub fn to_string(&self) -> (out: String)
        ensures
            exists|colorized: bool| #[trigger] is_error_text(*self, colorized, out@),
    {
        self.render(paint::should_colorize())
    }
}

/// Copy an optional path.
pub fn owned_path(path: Option<&str>) -> (owned: Option<String>)
    ensures
        match owned {
            Some(owned) => optional_text(path) == Some(owned@),
            None => optional_text(path) == None::<Seq<char>>,
        },
{
    match path {
        Some(path) => Some(path.to_owned()),
        None => None,
    }
}

/// Construct an error from a message, a path, a listing and a reason.
pub fn throw(
    message: &str,
    source_path: Option<&str>,
    listing: Option<&str>,
    reason: Option<Reason>,
) -> (error: Error)
    ensures
        error@ == (ErrorView {
            message: message@,
            span: None,
            path: optional_text(source_path),
            listing: match listing {
                Some(listing) => Some(ListingView::Plain(listing@)),
                None => None,
            },
            reason,
        }),
{
    Error {
        message: message.to_owned(),
        source_range: None,
        source_path: owned_path(source_path),
        listing: match listing {
            Some(listing) => Some(Listing::Plain(listing.to_owned())),
            None => None,
        },
        reason,
    }
}

/// Construct an error that retains the source range used by terminal and editor diagnostics.
pub fn source_error(
    message: &str,
    source_path: &str,
    source_contents: &str,
    source_range: SourceRange,
) -> (error: Error)
    ensures
        error@ == located_error(
            message@,
            Some(source_path@),
            source_contents@,
            source_range@,
            None,
        ),
{
    let source = Text::new(source_contents);
    Error::at(message.to_owned(), Some(source_path), &source, source_range, None)
}

/// Construct a source-aware error that retains an underlying failure.
pub fn source_error_with_reason(
    message: &str,
    source_path: &str,
    source_contents: &str,
    source_range: SourceRange,
    reason: Reason,
) -> (error: Error)
    ensures
        error@ == located_error(
            message@,
            Some(source_path@),
            source_contents@,
            source_range@,
            Some(reason),
        ),
{
    let source = Text::new(source_contents);
    Error::at(message.to_owned(), Some(source_path), &source, source_range, Some(reason))
}

/// Whether a line looks empty: it holds only spaces and the marks of an underline.
pub open spec fn looks_empty(line: Seq<char>) -> bool {
    forall|i: int| 0 <= i < line.len() ==> #[trigger] line[i] == ' ' || line[i] == '\u{203e}'
}

/// Texts below each other, with an empty line between two texts unless the line before it already
/// looks empty.
pub open spec fn stacked(texts: Seq<Seq<char>>) -> Seq<char>
    decreases texts.len(),
{
    if texts.len() == 0 {
        Seq::empty()
    } else {
        let above = stacked(texts.drop_last());
        let gap = if looks_empty(
            above.subrange(text::line_start(above, above.len() as int), above.len() as int),
        ) {
            Seq::empty()
        } else {
            "\n"@
        };
        above + "\n"@ + gap + texts.last()
    }
}

/// Put texts below each other, avoiding an extra visual gap after an underline.
pub fn format_texts(texts: &Vec<String>) -> (out: String)
    ensures
        out@ == text::trimmed(stacked(phrase::text_views(texts@))),
{
    let ghost views = phrase::text_views(texts@);
    let mut stack: Vec<char> = Vec::new();
    let newline = text::chars_of("\n");
    let mut i: usize = 0;
    proof {
        assert(stack@ =~= stacked(views.take(0)));
    }
    while i < texts.len()
        invariant
            views == phrase::text_views(texts@),
            newline@ == "\n"@,
            i <= texts@.len(),
            stack@ == stacked(views.take(i as int)),
        decreases texts.len() - i,
    {
        let ghost above = stack@;
        let from = text::find_line_start(stack.as_slice(), stack.len());
        let mut empty = true;
        let mut j: usize = from;
        while j < stack.len()
            invariant
                from <= j <= stack@.len(),
                empty == looks_empty(stack@.subrange(from as int, j as int)),
            decreases stack.len() - j,
        {
            let ghost part = stack@.subrange(from as int, j as int);
            let ghost longer = stack@.subrange(from as int, j + 1);
            proof {
                assert(longer =~= part.push(stack@[j as int]));
                assert(longer[j - from] == stack@[j as int]);
                assert(forall|k: int| 0 <= k < part.len() ==> longer[k] == part[k]);
            }
            empty = empty && (stack[j] == ' ' || stack[j] == '\u{203e}');
            proof {
                if empty {
                    assert(looks_empty(longer));
                } else if looks_empty(longer) {
                    assert forall|k: int| 0 <= k < part.len() implies #[trigger] part[k] == ' '
                        || part[k] == '\u{203e}' by {
                        assert(longer[k] == part[k]);
                    }
                }
            }
            j = j + 1;
        }
        text::append_chars(&mut stack, newline.as_slice());
        if !empty {
            text::append_chars(&mut stack, newline.as_slice());
        }
        let next = text::chars_of(texts[i].as_str());
        text::append_chars(&mut stack, next.as_slice());
        proof {
            assert(views.take(i + 1).drop_last() =~= views.take(i as int));
            assert(views.take(i + 1).last() == texts@[i as int]@);
            assert(stack@ =~= stacked(views.take(i + 1)));
        }
        i = i + 1;
    }
    proof {
        assert(views.take(i as int) =~= views);
    }
    text::string_of(text::trim(stack.as_slice()).as_slice())
}

/// The errors of a list without colors.
pub open spec fn plain_errors(errors: Seq<Error>) -> Seq<char> {
    text::trimmed(stacked(errors.map_values(|error: Error| plain_error(error))))
}

/// Whether a text may be a list of errors.
pub open spec fn is_errors_text(errors: Seq<Error>, colorized: bool, out: Seq<char>) -> bool {
    exists|texts: Seq<Seq<char>>|
        {
            &&& texts.len() == errors.len()
            &&& forall|i: int|
                0 <= i < errors.len() ==> is_error_text(errors[i], colorized, #[trigger] texts[i])
            &&& out == text::trimmed(#[trigger] stacked(texts))
        }
}

/// Format a list of errors, in colors or without.
pub fn format_errors_with(errors: &[Error], colorized: bool) -> (out: String)
    ensures
        is_errors_text(errors@, colorized, out@),
        !colorized ==> out@ == plain_errors(errors@),
{
    let mut texts: Vec<String> = Vec::new();
    let mut i: usize = 0;
    while i < errors.len()
        invariant
            i <= errors@.len(),
            texts@.len() == i,
            forall|j: int|
                0 <= j < i ==> is_error_text(errors@[j], colorized, #[trigger] texts@[j]@),
            !colorized ==> forall|j: int|
                0 <= j < i ==> #[trigger] texts@[j]@ == plain_error(errors@[j]),
        decreases errors.len() - i,
    {
        texts.push(errors[i].render(colorized));
        i = i + 1;
    }
    let out = format_texts(&texts);
    proof {
        let views = phrase::text_views(texts@);
        assert forall|j: int| 0 <= j < errors@.len() implies is_error_text(
            errors@[j],
            colorized,
            #[trigger] views[j],
        ) by {
            assert(views[j] == texts@[j]@);
        }
        if !colorized {
            assert(views =~= errors@.map_values(|error: Error| plain_error(error)));
        }
    }
    out
}

/// Format a list of errors while avoiding an extra visual gap after a source-range underline.
pub fn format_errors(errors: &[Error]) -> (out: String)
    ensures
        exists|colorized: bool| #[trigger] is_errors_text(errors@, colorized, out@),
{
    format_errors_with(errors, paint::should_colorize())
}

} // verus!
