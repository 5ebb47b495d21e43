//! Editor positions: lines and UTF-16 code units.

use vstd::prelude::*;

use crate::error::SourceRange;
use crate::error::Span;
use crate::text;
use crate::text::Text;

verus! {

/// A position in an editor: the number of a line and a number of UTF-16 code units on it, both from
/// zero.
#[derive(Clone, Copy, Debug, PartialEq, Eq, Structural)]
pub struct Position {
    pub line: u32,
    pub character: u32,
}

impl Position {
    /// Construct a position.
    pub fn new(line: u32, character: u32) -> (position: Position)
        ensures
            position == (Position { line, character }),
    {
        Position { line, character }
    }
}

/// A range in an editor.
#[derive(Clone, Copy, Debug, PartialEq, Eq, Structural)]
pub struct Range {
    pub start: Position,
    pub end: Position,
}

impl Range {
    /// Construct a range.
    pub fn new(start: Position, end: Position) -> (range: Range)
        ensures
            range == (Range { start, end }),
    {
        Range { start, end }
    }
}

/// A number, or the largest number that a position can hold if it is larger.
pub open spec fn clamped(n: nat) -> u32 {
    if n <= u32::MAX {
        n as u32
    } else {
        u32::MAX
    }
}

/// The position of an index.
pub open spec fn position_at(s: Seq<char>, i: int) -> Position {
    Position {
        line: clamped(text::line_feeds(s, i)),
        character: clamped(text::utf16_len(s.subrange(text::line_start(s, i), i))),
    }
}

/// The position of a byte offset. An offset inside a character counts as the start of that
/// character, and one beyond the source as its end.
pub open spec fn position_of(s: Seq<char>, b: int) -> Position {
    position_at(s, text::floor_index(s, b))
}

/// The range of a source range.
pub open spec fn range_of(s: Seq<char>, span: Span) -> Range {
    Range { start: position_of(s, span.start), end: position_of(s, span.end) }
}

/// The start of the line with a number, if there is such a line.
pub open spec fn line_begin(s: Seq<char>, line: nat) -> Option<int>
    decreases line,
{
    if line == 0 {
        Some(0)
    } else {
        match line_begin(s, (line - 1) as nat) {
            Some(lo) => if text::line_end(s, lo) < s.len() {
                Some(text::line_end(s, lo) + 1)
            } else {
                None
            },
            None => None,
        }
    }
}

/// The index between `lo` and `hi` that a number of UTF-16 code units lie before, if there is one.
pub open spec fn column_index(s: Seq<char>, lo: int, hi: int, units: nat) -> Option<int>
    decreases hi - lo,
{
    if units == 0 {
        Some(lo)
    } else if lo < hi && text::utf16_width(s[lo]) <= units {
        column_index(s, lo + 1, hi, (units - text::utf16_width(s[lo])) as nat)
    } else {
        None
    }
}

/// The index of a position, if it is on a line of the source, not beyond the line's contents and
/// not inside a character.
pub open spec fn index_of(s: Seq<char>, position: Position) -> Option<int> {
    match line_begin(s, position.line as nat) {
        Some(lo) => column_index(s, lo, text::line_stop(s, lo), position.character as nat),
        None => None,
    }
}

proof fn lemma_line_begin(s: Seq<char>, line: nat)
    ensures
        match line_begin(s, line) {
            Some(lo) => 0 <= lo <= s.len() && text::line_feeds(s, lo) == line && (lo == 0 || s[lo - 1]
                == '\n'),
            None => true,
        },
    decreases line,
{
    if line > 0 {
        lemma_line_begin(s, (line - 1) as nat);
        if let Some(lo) = line_begin(s, (line - 1) as nat) {
            text::lemma_line_end(s, lo);
            lemma_on_line(s, lo, text::line_end(s, lo));
        }
    }
}

/// Indices on one line have the same line number and the same line start.
proof fn lemma_on_line(s: Seq<char>, lo: int, i: int)
    requires
        0 <= lo <= i <= text::line_end(s, lo),
        lo <= s.len(),
        lo == 0 || s[lo - 1] == '\n',
    ensures
        text::line_feeds(s, i) == text::line_feeds(s, lo),
        text::line_start(s, i) == lo,
    decreases i - lo,
{
    text::lemma_line_end(s, lo);
    if lo < i {
        lemma_on_line(s, lo, i - 1);
        assert(s[i - 1] != '\n');
    }
}

proof fn lemma_line_start(s: Seq<char>, i: int)
    requires
        0 <= i <= s.len(),
    ensures
        0 <= text::line_start(s, i) <= i,
        text::line_start(s, i) == 0 || s[text::line_start(s, i) - 1] == '\n',
        i <= text::line_end(s, text::line_start(s, i)),
        text::line_feeds(s, text::line_start(s, i)) == text::line_feeds(s, i),
        forall|k: int| text::line_start(s, i) <= k < i ==> #[trigger] s[k] != '\n',
    decreases i,
{
    if 0 < i && s[i - 1] != '\n' {
        lemma_line_start(s, i - 1);
        let lo = text::line_start(s, i - 1);
        text::lemma_line_end(s, lo);
        if text::line_end(s, lo) == i - 1 {
            assert(s[i - 1] == '\n');
        }
    } else {
        text::lemma_line_end(s, i);
    }
}

/// The start of a line is where its number leads.
proof fn lemma_line_begin_at(s: Seq<char>, lo: int)
    requires
        0 <= lo <= s.len(),
        lo == 0 || s[lo - 1] == '\n',
    ensures
        line_begin(s, text::line_feeds(s, lo)) == Some(lo),
    decreases lo,
{
    if lo > 0 {
        let before = text::line_start(s, lo - 1);
        lemma_line_start(s, lo - 1);
        lemma_line_begin_at(s, before);
        text::lemma_line_end(s, before);
        if text::line_end(s, before) > lo - 1 {
            assert(s[lo - 1] != '\n');
        }
    }
}

proof fn lemma_utf16_len_prepend(s: Seq<char>, lo: int, i: int)
    requires
        0 <= lo < i <= s.len(),
    ensures
        text::utf16_len(s.subrange(lo, i)) == text::utf16_width(s[lo]) + text::utf16_len(
            s.subrange(lo + 1, i),
        ),
    decreases i - lo,
{
    let whole = s.subrange(lo, i);
    let rest = s.subrange(lo + 1, i);
    if lo + 1 == i {
        assert(whole.drop_last() =~= Seq::<char>::empty());
        assert(rest =~= Seq::<char>::empty());
    } else {
        assert(whole.drop_last() =~= s.subrange(lo, i - 1));
        assert(rest.drop_last() =~= s.subrange(lo + 1, i - 1));
        lemma_utf16_len_prepend(s, lo, i - 1);
    }
}

proof fn lemma_column_index(s: Seq<char>, lo: int, hi: int, units: nat)
    requires
        0 <= lo <= hi <= s.len(),
    ensures
        match column_index(s, lo, hi, units) {
            Some(i) => lo <= i <= hi && text::utf16_len(s.subrange(lo, i)) == units,
            None => forall|i: int|
                lo <= i <= hi ==> text::utf16_len(#[trigger] s.subrange(lo, i)) != units,
        },
    decreases hi - lo,
{
    assert(s.subrange(lo, lo) =~= Seq::<char>::empty());
    if units != 0 {
        if lo < hi {
            let width = text::utf16_width(s[lo]);
            assert forall|i: int| lo < i <= hi implies text::utf16_len(#[trigger] s.subrange(lo, i))
                == width + text::utf16_len(s.subrange(lo + 1, i)) by {
                lemma_utf16_len_prepend(s, lo, i);
            }
            if width <= units {
                lemma_column_index(s, lo + 1, hi, (units - width) as nat);
                if column_index(s, lo, hi, units) is None {
                    assert forall|i: int| lo <= i <= hi implies text::utf16_len(
                        #[trigger] s.subrange(lo, i),
                    ) != units by {
                        if i > lo {
                            assert(text::utf16_len(s.subrange(lo + 1, i)) != units - width);
                        }
                    }
                }
            }
        } else {
            assert forall|i: int| lo <= i <= hi implies text::utf16_len(
                #[trigger] s.subrange(lo, i),
            ) != units by {
                assert(i == lo);
            }
        }
    }
}

proof fn lemma_column_index_at(s: Seq<char>, lo: int, hi: int, i: int)
    requires
        0 <= lo <= i <= hi <= s.len(),
    ensures
        column_index(s, lo, hi, text::utf16_len(s.subrange(lo, i))) == Some(i),
    decreases i - lo,
{
    if lo == i {
        assert(s.subrange(lo, i) =~= Seq::<char>::empty());
    } else {
        lemma_utf16_len_prepend(s, lo, i);
        lemma_column_index_at(s, lo + 1, hi, i);
    }
}

/// The index of a position lies in the source, and its position is that position.
pub proof fn law_index_has_its_position(s: Seq<char>, position: Position)
    requires
        index_of(s, position) is Some,
    ensures
        0 <= index_of(s, position)->0 <= s.len(),
        position_at(s, index_of(s, position)->0) == position,
{
    let lo = line_begin(s, position.line as nat)->0;
    lemma_line_begin(s, position.line as nat);
    text::lemma_line_end(s, lo);
    let i = index_of(s, position)->0;
    lemma_column_index(s, lo, text::line_stop(s, lo), position.character as nat);
    lemma_on_line(s, lo, i);
}

/// The position of an index leads back to the index, unless the index is between the two characters
/// of a line ending or its position does not fit.
pub proof fn law_position_has_its_index(s: Seq<char>, i: int)
    requires
        0 <= i <= s.len(),
        i <= text::line_stop(s, text::line_start(s, i)),
        text::line_feeds(s, i) <= u32::MAX,
        text::utf16_len(s.subrange(text::line_start(s, i), i)) <= u32::MAX,
    ensures
        index_of(s, position_at(s, i)) == Some(i),
{
    let lo = text::line_start(s, i);
    lemma_line_start(s, i);
    lemma_line_begin_at(s, lo);
    text::lemma_line_end(s, lo);
    lemma_column_index_at(s, lo, text::line_stop(s, lo), i);
}

/// The index after one character is on the next line, or further along the same line.
proof fn lemma_position_bounds(s: Seq<char>, i: int)
    requires
        0 <= i <= s.len(),
    ensures
        0 <= text::line_start(s, i) <= i,
        text::line_feeds(s, i) <= i,
    decreases i,
{
    lemma_line_start(s, i);
    if i > 0 {
        lemma_position_bounds(s, i - 1);
    }
}

/// Clamp a number to what a position can hold.
fn clamp(n: usize) -> (result: u32)
    ensures
        result == clamped(n as nat),
{
    if n as u64 <= u32::MAX as u64 {
        n as u32
    } else {
        u32::MAX
    }
}

impl Text {
    /// Find the position of an index.
    pub fn position(&self, index: usize) -> (position: Position)
        requires
            self.wf(),
            index <= self@.len(),
        ensures
            position == position_at(self@, index as int),
    {
        let chars = self.chars.as_slice();
        let ghost s = self@;
        proof {
            lemma_position_bounds(s, index as int);
        }
        let lo = text::find_line_start(chars, index);
        let feeds = text::count_line_feeds(chars, index);
        let mut units: usize = 0;
        let mut i: usize = lo;
        proof {
            assert(s.subrange(lo as int, lo as int) =~= Seq::<char>::empty());
        }
        while i < index
            invariant
                chars@ == s,
                lo <= i <= index <= s.len(),
                units == text::utf16_len(s.subrange(lo as int, i as int)),
                self.wf(),
                s == self@,
                units <= text::offset(s, i as int),
            decreases index - i,
        {
            let width = text::char_utf16_width(chars[i]);
            let end = self.offsets[i + 1];
            proof {
                text::lemma_offset_step(s, i as int);
                assert(text::utf16_width(s[i as int]) <= text::utf8_width(s[i as int]));
                assert(units + width <= end);
                assert(s.subrange(lo as int, i + 1).drop_last() =~= s.subrange(
                    lo as int,
                    i as int,
                ));
            }
            units = units + width;
            i = i + 1;
        }
        Position { line: clamp(feeds), character: clamp(units) }
    }

    /// Find the editor range of a source range.
    pub fn editor_range(&self, source_range: SourceRange) -> (range: Range)
        requires
            self.wf(),
        ensures
            range == range_of(self@, source_range@),
    {
        let start = self.floor(source_range.start);
        let end = self.floor(source_range.end);
        Range { start: self.position(start), end: self.position(end) }
    }

    /// Find the index of a position.
    pub fn index_of_position(&self, position: Position) -> (index: Option<usize>)
        requires
            self.wf(),
        ensures
            match index {
                Some(i) => index_of(self@, position) == Some(i as int) && i <= self@.len(),
                None => index_of(self@, position) == None::<int>,
            },
    {
        // Locate the requested line without counting its line terminator as editor content.
        let chars = self.chars.as_slice();
        let ghost s = self@;
        let mut lo: usize = 0;
        let mut line: u32 = 0;
        while line < position.line
            invariant
                chars@ == s,
                lo <= s.len(),
                line <= position.line,
                line_begin(s, line as nat) == Some(lo as int),
                s == self@,
            decreases position.line - line,
        {
            let end = text::find_line_end(chars, lo);
            if end >= chars.len() {
                proof {
                    lemma_no_line(s, (line + 1) as nat, position.line as nat);
                }
                return None;
            }
            lo = end + 1;
            line = line + 1;
        }
        let stop = text::find_line_stop(chars, lo);

        // Reject positions that split a surrogate pair or extend past the line's contents.
        let mut units: u32 = position.character;
        let mut i: usize = lo;
        while units > 0
            invariant
                chars@ == s,
                lo <= i <= stop <= s.len(),
                column_index(s, lo as int, stop as int, position.character as nat) == column_index(
                    s,
                    i as int,
                    stop as int,
                    units as nat,
                ),
                index_of(s, position) == column_index(
                    s,
                    lo as int,
                    stop as int,
                    position.character as nat,
                ),
                s == self@,
            decreases stop - i,
        {
            if i >= stop {
                return None;
            }
            let width = text::char_utf16_width(chars[i]) as u32;
            if width > units {
                return None;
            }
            units = units - width;
            i = i + 1;
        }
        Some(i)
    }
}

/// Beyond a line that is not there, there are no lines.
proof fn lemma_no_line(s: Seq<char>, first: nat, line: nat)
    requires
        first <= line,
        line_begin(s, first) is None,
    ensures
        line_begin(s, line) is None,
    decreases line,
{
    if first < line {
        lemma_no_line(s, first, (line - 1) as nat);
    }
}

/// Convert a zero-based position measured in UTF-16 code units into a UTF-8 byte offset.
pub fn byte_offset(source_contents: &str, position: Position) -> (result: Option<usize>)
    ensures
        match index_of(source_contents@, position) {
            Some(i) => result matches Some(b) && b == text::offset(source_contents@, i),
            None => result is None,
        },
{
    let source = Text::new(source_contents);
    match source.index_of_position(position) {
        Some(i) => Some(source.offsets[i]),
        None => None,
    }
}

/// Convert a UTF-8 byte offset into a zero-based position measured in UTF-16 code units.
pub fn lsp_position(source_contents: &str, byte_offset: usize) -> (position: Position)
    ensures
        position == position_of(source_contents@, byte_offset as int),
{
    let source = Text::new(source_contents);
    let index = source.floor(byte_offset);
    source.position(index)
}

/// Convert a source range into the representation expected by the language server protocol.
pub fn lsp_range(source_contents: &str, source_range: SourceRange) -> (range: Range)
    ensures
        range == range_of(source_contents@, source_range@),
{
    let source = Text::new(source_contents);
    source.editor_range(source_range)
}

} // verus!
