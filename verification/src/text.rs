//! Characters, byte offsets, and the small string operations that the rest of the crate builds on.

use vstd::prelude::*;
use vstd::utf8;

verus! {

/// The Unicode `White_Space` property.
pub open spec fn white_space(c: char) -> bool {
    ||| '\u{9}' <= c <= '\u{d}'
    ||| c == '\u{20}'
    ||| c == '\u{85}'
    ||| c == '\u{a0}'
    ||| c == '\u{1680}'
    ||| '\u{2000}' <= c <= '\u{200a}'
    ||| c == '\u{2028}'
    ||| c == '\u{2029}'
    ||| c == '\u{202f}'
    ||| c == '\u{205f}'
    ||| c == '\u{3000}'
}

/// Whether a character is white space.
pub fn is_white_space(c: char) -> (result: bool)
    ensures
        result == white_space(c),
{
    ('\u{9}' <= c && c <= '\u{d}') || c == '\u{20}' || c == '\u{85}' || c == '\u{a0}' || c
        == '\u{1680}' || ('\u{2000}' <= c && c <= '\u{200a}') || c == '\u{2028}' || c == '\u{2029}'
        || c == '\u{202f}' || c == '\u{205f}' || c == '\u{3000}'
}

/// The number of bytes in the UTF-8 encoding of a character.
pub open spec fn utf8_width(c: char) -> nat {
    if c <= '\u{7f}' {
        1
    } else if c <= '\u{7ff}' {
        2
    } else if c <= '\u{ffff}' {
        3
    } else {
        4
    }
}

/// Compute the number of bytes in the UTF-8 encoding of a character.
pub fn char_utf8_width(c: char) -> (width: usize)
    ensures
        width == utf8_width(c),
{
    if c <= '\u{7f}' {
        1
    } else if c <= '\u{7ff}' {
        2
    } else if c <= '\u{ffff}' {
        3
    } else {
        4
    }
}

/// The number of code units in the UTF-16 encoding of a character.
pub open spec fn utf16_width(c: char) -> nat {
    if c <= '\u{ffff}' {
        1
    } else {
        2
    }
}

/// Compute the number of code units in the UTF-16 encoding of a character.
pub fn char_utf16_width(c: char) -> (width: usize)
    ensures
        width == utf16_width(c),
{
    if c <= '\u{ffff}' {
        1
    } else {
        2
    }
}

/// The number of bytes in the UTF-8 encoding of a text.
pub open spec fn byte_len(s: Seq<char>) -> nat
    decreases s.len(),
{
    if s.len() == 0 {
        0
    } else {
        byte_len(s.drop_last()) + utf8_width(s.last())
    }
}

/// The byte offset of the character at an index.
pub open spec fn offset(s: Seq<char>, i: int) -> int {
    byte_len(s.take(i)) as int
}

/// The number of UTF-16 code units in a text.
pub open spec fn utf16_len(s: Seq<char>) -> nat
    decreases s.len(),
{
    if s.len() == 0 {
        0
    } else {
        utf16_len(s.drop_last()) + utf16_width(s.last())
    }
}

pub proof fn lemma_byte_len_concat(a: Seq<char>, b: Seq<char>)
    ensures
        byte_len(a + b) == byte_len(a) + byte_len(b),
    decreases b.len(),
{
    if b.len() == 0 {
        assert(a + b =~= a);
    } else {
        assert((a + b).drop_last() =~= a + b.drop_last());
        lemma_byte_len_concat(a, b.drop_last());
    }
}

proof fn lemma_scalar_width(c: char)
    ensures
        utf8::encode_scalar(c as u32).len() == utf8_width(c),
{
    utf8::char_is_scalar(c);
}

/// The byte length of a text agrees with the length of its UTF-8 encoding.
pub proof fn lemma_byte_len_encodes(s: Seq<char>)
    ensures
        byte_len(s) == utf8::encode_utf8(s).len(),
    decreases s.len(),
{
    if s.len() > 0 {
        lemma_byte_len_encodes(s.drop_first());
        let head = seq![s[0]];
        assert(head + s.drop_first() =~= s);
        lemma_byte_len_concat(head, s.drop_first());
        assert(head.drop_last() =~= Seq::<char>::empty());
        reveal_with_fuel(byte_len, 2);
        lemma_scalar_width(s[0]);
    }
}

pub proof fn lemma_offset_step(s: Seq<char>, i: int)
    requires
        0 <= i < s.len(),
    ensures
        offset(s, i + 1) == offset(s, i) + utf8_width(s[i]),
{
    assert(s.take(i + 1).drop_last() =~= s.take(i));
}

pub proof fn lemma_offset_monotonic(s: Seq<char>, i: int, j: int)
    requires
        0 <= i <= j <= s.len(),
    ensures
        offset(s, i) + (j - i) <= offset(s, j),
        offset(s, i) <= offset(s, j),
    decreases j - i,
{
    if i < j {
        lemma_offset_monotonic(s, i, j - 1);
        lemma_offset_step(s, j - 1);
    }
}

pub proof fn lemma_offset_ends(s: Seq<char>)
    ensures
        offset(s, 0) == 0,
        offset(s, s.len() as int) == byte_len(s),
{
    assert(s.take(0) =~= Seq::<char>::empty());
    assert(s.take(s.len() as int) =~= s);
}

/// The number of characters that end at or before a byte offset.
pub open spec fn floor_index(s: Seq<char>, b: int) -> int
    decreases s.len(),
{
    if s.len() == 0 || byte_len(s) <= b {
        s.len() as int
    } else {
        floor_index(s.drop_last(), b)
    }
}

pub proof fn lemma_floor_index(s: Seq<char>, b: int)
    requires
        0 <= b,
    ensures
        0 <= floor_index(s, b) <= s.len(),
        offset(s, floor_index(s, b)) <= b,
        floor_index(s, b) < s.len() ==> b < offset(s, floor_index(s, b) + 1),
    decreases s.len(),
{
    lemma_offset_ends(s);
    if s.len() > 0 && byte_len(s) > b {
        let t = s.drop_last();
        lemma_floor_index(t, b);
        lemma_offset_ends(t);
        let k = floor_index(t, b);
        assert(t.take(k) =~= s.take(k));
        if k < t.len() {
            assert(t.take(k + 1) =~= s.take(k + 1));
        } else {
            assert(s.take(k + 1) =~= s);
        }
    }
}

/// At a byte offset where a character starts, the character's own index is found.
pub proof fn lemma_floor_index_at(s: Seq<char>, i: int)
    requires
        0 <= i <= s.len(),
    ensures
        floor_index(s, offset(s, i)) == i,
{
    let b = offset(s, i);
    lemma_offset_ends(s);
    lemma_offset_monotonic(s, 0, i);
    lemma_floor_index(s, b);
    let k = floor_index(s, b);
    if k < i {
        lemma_offset_monotonic(s, k + 1, i);
    } else if k > i {
        lemma_offset_monotonic(s, i, k);
    }
}

/// A source text with the byte offset of each of its characters.
pub struct Text {
    pub chars: Vec<char>,
    pub offsets: Vec<usize>,
}

impl View for Text {
    type V = Seq<char>;

    open spec fn view(&self) -> Seq<char> {
        self.chars@
    }
}

impl Text {
    /// Each offset is the byte offset of the character at the same index, and the last one is the
    /// length of the text in bytes.
    pub open spec fn wf(&self) -> bool {
        &&& self.offsets@.len() == self.chars@.len() + 1
        &&& forall|i: int|
            0 <= i <= self.chars@.len() ==> #[trigger] self.offsets@[i] == offset(self.chars@, i)
    }

    /// Split a string into characters and locate each of them.
    pub fn new(source: &str) -> (text: Text)
        ensures
            text.wf(),
            text@ == source@,
            byte_len(source@) <= usize::MAX,
    {
        let bytes = source.as_bytes();
        let total: usize = bytes.len();
        proof {
            lemma_byte_len_encodes(source@);
            lemma_offset_ends(source@);
        }
        let chars = chars_of(source);
        let mut offsets: Vec<usize> = Vec::new();
        offsets.push(0);
        let mut at: usize = 0;
        let mut i: usize = 0;
        while i < chars.len()
            invariant
                chars@ == source@,
                i <= chars.len(),
                total == byte_len(chars@),
                offsets@.len() == i + 1,
                at == offset(chars@, i as int),
                forall|j: int| 0 <= j <= i ==> #[trigger] offsets@[j] == offset(chars@, j),
            decreases chars.len() - i,
        {
            proof {
                lemma_offset_step(chars@, i as int);
                lemma_offset_ends(chars@);
                lemma_offset_monotonic(chars@, i + 1, chars@.len() as int);
            }
            at = at + char_utf8_width(chars[i]);
            offsets.push(at);
            i = i + 1;
        }
        Text { chars, offsets }
    }

    /// The number of characters.
    pub fn len(&self) -> (length: usize)
        ensures
            length == self@.len(),
    {
        self.chars.len()
    }

    /// The number of characters that end at or before a byte offset.
    pub fn floor(&self, b: usize) -> (index: usize)
        requires
            self.wf(),
        ensures
            index == floor_index(self@, b as int),
            index <= self@.len(),
    {
        let mut i: usize = self.chars.len();
        proof {
            assert(self@.take(i as int) =~= self@);
        }
        while i > 0 && self.offsets[i] > b
            invariant
                self.wf(),
                i <= self@.len(),
                floor_index(self@, b as int) == floor_index(self@.take(i as int), b as int),
            decreases i,
        {
            proof {
                assert(self@.take(i as int).drop_last() =~= self@.take(i - 1));
            }
            i = i - 1;
        }
        i
    }
}

/// Appends one character: `String::push`.
pub assume_specification[ String::push ](string: &mut String, c: char)
    ensures
        final(string)@ == old(string)@.push(c),
;

/// Collect the characters of a string.
pub fn chars_of(source: &str) -> (chars: Vec<char>)
    ensures
        chars@ == source@,
{
    let mut chars: Vec<char> = Vec::new();
    for c in it: source.chars()
        invariant
            it.seq() == source@,
            chars@ == it.seq().take(it.index() as int),
    {
        chars.push(c);
    }
    chars
}

/// Collect characters into a string.
pub fn string_of(chars: &[char]) -> (string: String)
    ensures
        string@ == chars@,
{
    let mut string = String::new();
    let mut i: usize = 0;
    while i < chars.len()
        invariant
            i <= chars.len(),
            string@ == chars@.take(i as int),
        decreases chars.len() - i,
    {
        string.push(chars[i]);
        i = i + 1;
    }
    proof {
        assert(chars@.take(i as int) =~= chars@);
    }
    string
}

/// The first index at or after `lo` and before `hi` that does not hold white space, or `hi`.
pub open spec fn trim_start_index(s: Seq<char>, lo: int, hi: int) -> int
    decreases hi - lo,
{
    if lo < hi && white_space(s[lo]) {
        trim_start_index(s, lo + 1, hi)
    } else {
        lo
    }
}

/// The index after the last character between `lo` and `hi` that is not white space, or `lo`.
pub open spec fn trim_end_index(s: Seq<char>, lo: int, hi: int) -> int
    decreases hi - lo,
{
    if lo < hi && white_space(s[hi - 1]) {
        trim_end_index(s, lo, hi - 1)
    } else {
        hi
    }
}

/// A text without the white space around it.
pub open spec fn trimmed(s: Seq<char>) -> Seq<char> {
    let start = trim_start_index(s, 0, s.len() as int);
    s.subrange(start, trim_end_index(s, start, s.len() as int))
}

/// A text without the white space in front of it.
pub open spec fn trimmed_start(s: Seq<char>) -> Seq<char> {
    s.skip(trim_start_index(s, 0, s.len() as int))
}

/// Whether a text has no white space at either end.
pub open spec fn is_trimmed(s: Seq<char>) -> bool {
    s.len() > 0 ==> !white_space(s[0]) && !white_space(s.last())
}

pub proof fn lemma_trim_start_index(s: Seq<char>, lo: int, hi: int)
    requires
        0 <= lo <= hi <= s.len(),
    ensures
        lo <= trim_start_index(s, lo, hi) <= hi,
        trim_start_index(s, lo, hi) < hi ==> !white_space(s[trim_start_index(s, lo, hi)]),
        forall|i: int| lo <= i < trim_start_index(s, lo, hi) ==> white_space(#[trigger] s[i]),
    decreases hi - lo,
{
    if lo < hi && white_space(s[lo]) {
        lemma_trim_start_index(s, lo + 1, hi);
    }
}

pub proof fn lemma_trim_end_index(s: Seq<char>, lo: int, hi: int)
    requires
        0 <= lo <= hi <= s.len(),
    ensures
        lo <= trim_end_index(s, lo, hi) <= hi,
        trim_end_index(s, lo, hi) > lo ==> !white_space(s[trim_end_index(s, lo, hi) - 1]),
        forall|i: int| trim_end_index(s, lo, hi) <= i < hi ==> white_space(#[trigger] s[i]),
    decreases hi - lo,
{
    if lo < hi && white_space(s[hi - 1]) {
        lemma_trim_end_index(s, lo, hi - 1);
    }
}

/// Trimming a slice of a text gives the same characters as trimming its bounds.
pub proof fn lemma_trimmed_subrange(s: Seq<char>, lo: int, hi: int)
    requires
        0 <= lo <= hi <= s.len(),
    ensures
        ({
            let start = trim_start_index(s, lo, hi);
            let end = trim_end_index(s, start, hi);
            &&& lo <= start <= end <= hi
            &&& trimmed(s.subrange(lo, hi)) == s.subrange(start, end)
            &&& is_trimmed(s.subrange(start, end))
        }),
{
    let t = s.subrange(lo, hi);
    lemma_trim_start_shift(s, lo, hi, lo);
    let start = trim_start_index(s, lo, hi);
    lemma_trim_start_index(s, lo, hi);
    lemma_trim_end_shift(s, lo, start, hi);
    lemma_trim_end_index(s, start, hi);
    assert(trimmed(t) =~= s.subrange(start, trim_end_index(s, start, hi)));
}

proof fn lemma_trim_start_shift(s: Seq<char>, lo: int, hi: int, at: int)
    requires
        0 <= lo <= at <= hi <= s.len(),
    ensures
        trim_start_index(s.subrange(lo, hi), at - lo, hi - lo) == trim_start_index(s, at, hi) - lo,
    decreases hi - at,
{
    if at < hi && white_space(s[at]) {
        lemma_trim_start_shift(s, lo, hi, at + 1);
    }
}

proof fn lemma_trim_end_shift(s: Seq<char>, lo: int, start: int, hi: int)
    requires
        0 <= lo <= start <= hi <= s.len(),
    ensures
        trim_end_index(s.subrange(lo, hi), start - lo, hi - lo) == trim_end_index(s, start, hi) - lo,
{
    lemma_trim_end_shift_at(s, lo, start, hi, hi);
}

proof fn lemma_trim_end_shift_at(s: Seq<char>, lo: int, start: int, hi: int, at: int)
    requires
        0 <= lo <= start <= at <= hi <= s.len(),
    ensures
        trim_end_index(s.subrange(lo, hi), start - lo, at - lo) == trim_end_index(s, start, at) - lo,
    decreases at - start,
{
    if start < at && white_space(s[at - 1]) {
        lemma_trim_end_shift_at(s, lo, start, hi, at - 1);
    }
}

/// Skip white space forward from `lo`, stopping at `hi`.
pub fn find_trim_start(chars: &[char], lo: usize, hi: usize) -> (start: usize)
    requires
        lo <= hi <= chars@.len(),
    ensures
        start == trim_start_index(chars@, lo as int, hi as int),
        lo <= start <= hi,
{
    let mut i: usize = lo;
    while i < hi && is_white_space(chars[i])
        invariant
            lo <= i <= hi <= chars@.len(),
            trim_start_index(chars@, lo as int, hi as int) == trim_start_index(
                chars@,
                i as int,
                hi as int,
            ),
        decreases hi - i,
    {
        i = i + 1;
    }
    i
}

/// Skip white space backward from `hi`, stopping at `lo`.
pub fn find_trim_end(chars: &[char], lo: usize, hi: usize) -> (end: usize)
    requires
        lo <= hi <= chars@.len(),
    ensures
        end == trim_end_index(chars@, lo as int, hi as int),
        lo <= end <= hi,
{
    let mut i: usize = hi;
    while i > lo && is_white_space(chars[i - 1])
        invariant
            lo <= i <= hi <= chars@.len(),
            trim_end_index(chars@, lo as int, hi as int) == trim_end_index(
                chars@,
                lo as int,
                i as int,
            ),
        decreases i - lo,
    {
        i = i - 1;
    }
    i
}

/// Copy a slice of characters.
pub fn slice_of(chars: &[char], lo: usize, hi: usize) -> (slice: Vec<char>)
    requires
        lo <= hi <= chars@.len(),
    ensures
        slice@ == chars@.subrange(lo as int, hi as int),
{
    let mut slice: Vec<char> = Vec::new();
    let mut i: usize = lo;
    while i < hi
        invariant
            lo <= i <= hi <= chars@.len(),
            slice@ == chars@.subrange(lo as int, i as int),
        decreases hi - i,
    {
        slice.push(chars[i]);
        i = i + 1;
    }
    slice
}

/// Remove the white space around a text.
pub fn trim(chars: &[char]) -> (result: Vec<char>)
    ensures
        result@ == trimmed(chars@),
{
    let start = find_trim_start(chars, 0, chars.len());
    let end = find_trim_end(chars, start, chars.len());
    slice_of(chars, start, end)
}

/// Remove the white space in front of a text.
pub fn trim_start(chars: &[char]) -> (result: Vec<char>)
    ensures
        result@ == trimmed_start(chars@),
{
    let start = find_trim_start(chars, 0, chars.len());
    let result = slice_of(chars, start, chars.len());
    proof {
        assert(result@ =~= trimmed_start(chars@));
    }
    result
}

/// Whether two texts are the same.
pub fn same_chars(a: &[char], b: &[char]) -> (result: bool)
    ensures
        result == (a@ == b@),
{
    if a.len() != b.len() {
        return false;
    }
    let mut i: usize = 0;
    while i < a.len()
        invariant
            a@.len() == b@.len(),
            i <= a@.len(),
            forall|j: int| 0 <= j < i ==> a@[j] == b@[j],
        decreases a.len() - i,
    {
        if a[i] != b[i] {
            return false;
        }
        i = i + 1;
    }
    proof {
        assert(a@ =~= b@);
    }
    true
}

/// Whether two strings are the same.
pub fn same_text(a: &str, b: &str) -> (result: bool)
    ensures
        result == (a@ == b@),
{
    let left = chars_of(a);
    let right = chars_of(b);
    same_chars(left.as_slice(), right.as_slice())
}

/// Whether a text has a pattern at an index.
pub open spec fn occurs_at(s: Seq<char>, i: int, pattern: Seq<char>) -> bool {
    &&& 0 <= i
    &&& i + pattern.len() <= s.len()
    &&& s.subrange(i, i + pattern.len()) == pattern
}

/// Whether a text starts with a prefix.
pub open spec fn starts_with(s: Seq<char>, prefix: Seq<char>) -> bool {
    occurs_at(s, 0, prefix)
}

/// Test whether a text has a pattern at an index.
pub fn has_at(chars: &[char], i: usize, pattern: &[char]) -> (result: bool)
    requires
        i <= chars@.len(),
    ensures
        result == occurs_at(chars@, i as int, pattern@),
{
    let total: usize = chars.len();
    if pattern.len() > total - i {
        return false;
    }
    let mut j: usize = 0;
    while j < pattern.len()
        invariant
            total == chars@.len(),
            i + pattern@.len() <= total,
            j <= pattern@.len(),
            forall|k: int| 0 <= k < j ==> chars@[i + k] == #[trigger] pattern@[k],
        decreases pattern.len() - j,
    {
        if chars[i + j] != pattern[j] {
            proof {
                assert(chars@.subrange(i as int, i + pattern@.len())[j as int] != pattern@[j as int]);
            }
            return false;
        }
        j = j + 1;
    }
    proof {
        assert(chars@.subrange(i as int, i + pattern@.len()) =~= pattern@);
    }
    true
}

/// Test whether a text starts with a string.
pub fn has_prefix(chars: &[char], prefix: &str) -> (result: bool)
    ensures
        result == starts_with(chars@, prefix@),
{
    let pattern = chars_of(prefix);
    has_at(chars, 0, pattern.as_slice())
}

/// Remove a prefix from a text that starts with it.
pub fn strip_prefix(chars: &[char], prefix: &str) -> (rest: Option<Vec<char>>)
    ensures
        match rest {
            Some(rest) => starts_with(chars@, prefix@) && rest@ == chars@.skip(
                prefix@.len() as int,
            ),
            None => !starts_with(chars@, prefix@),
        },
{
    let pattern = chars_of(prefix);
    if has_at(chars, 0, pattern.as_slice()) {
        let rest = slice_of(chars, pattern.len(), chars.len());
        proof {
            assert(rest@ =~= chars@.skip(prefix@.len() as int));
        }
        Some(rest)
    } else {
        None
    }
}

/// A text with every occurrence of a nonempty pattern replaced, taking occurrences from left to
/// right without overlap.
pub open spec fn replaced(s: Seq<char>, pattern: Seq<char>, replacement: Seq<char>) -> Seq<char>
    decreases s.len(),
{
    if pattern.len() == 0 || s.len() == 0 {
        s
    } else if starts_with(s, pattern) {
        replacement + replaced(s.skip(pattern.len() as int), pattern, replacement)
    } else {
        seq![s[0]] + replaced(s.drop_first(), pattern, replacement)
    }
}

/// Replace every occurrence of a pattern.
pub fn replace(chars: &[char], pattern: &str, replacement: &str) -> (result: Vec<char>)
    ensures
        result@ == replaced(chars@, pattern@, replacement@),
{
    let pattern_chars = chars_of(pattern);
    let replacement_chars = chars_of(replacement);
    if pattern_chars.len() == 0 {
        return slice_of(chars, 0, chars.len());
    }
    let mut result: Vec<char> = Vec::new();
    let mut i: usize = 0;
    proof {
        assert(chars@.skip(0) =~= chars@);
    }
    while i < chars.len()
        invariant
            pattern_chars@ == pattern@,
            replacement_chars@ == replacement@,
            pattern@.len() > 0,
            i <= chars@.len(),
            result@ + replaced(chars@.skip(i as int), pattern@, replacement@) == replaced(
                chars@,
                pattern@,
                replacement@,
            ),
        decreases chars.len() - i,
    {
        let ghost rest = chars@.skip(i as int);
        let ghost before = result@;
        proof {
            assert(forall|k: int|
                0 <= k && i + k <= chars@.len() ==> rest.subrange(0, k) =~= chars@.subrange(
                    i as int,
                    i + k,
                ));
        }
        if has_at(chars, i, pattern_chars.as_slice()) {
            append_chars(&mut result, replacement_chars.as_slice());
            proof {
                assert(starts_with(rest, pattern@));
                assert(rest.skip(pattern@.len() as int) =~= chars@.skip(i + pattern@.len()));
                assert(result@ + replaced(
                    rest.skip(pattern@.len() as int),
                    pattern@,
                    replacement@,
                ) =~= before + (replacement@ + replaced(
                    rest.skip(pattern@.len() as int),
                    pattern@,
                    replacement@,
                )));
            }
            i = i + pattern_chars.len();
        } else {
            result.push(chars[i]);
            proof {
                assert(!starts_with(rest, pattern@));
                assert(rest.drop_first() =~= chars@.skip(i + 1));
                assert(result@ + replaced(rest.drop_first(), pattern@, replacement@) =~= before + (
                seq![rest[0]] + replaced(rest.drop_first(), pattern@, replacement@)));
            }
            i = i + 1;
        }
    }
    proof {
        assert(chars@.skip(i as int) =~= Seq::<char>::empty());
        assert(result@ + Seq::<char>::empty() =~= result@);
    }
    result
}

/// Append characters to a text.
pub fn append_chars(target: &mut Vec<char>, chars: &[char])
    ensures
        final(target)@ == old(target)@ + chars@,
{
    let mut i: usize = 0;
    while i < chars.len()
        invariant
            i <= chars@.len(),
            target@ == old(target)@ + chars@.take(i as int),
        decreases chars.len() - i,
    {
        target.push(chars[i]);
        i = i + 1;
    }
    proof {
        assert(chars@.take(i as int) =~= chars@);
    }
}

/// The first index at or after `lo` that holds a line feed, or the length of the text.
pub open spec fn line_end(s: Seq<char>, lo: int) -> int
    decreases s.len() - lo,
{
    if 0 <= lo < s.len() && s[lo] != '\n' {
        line_end(s, lo + 1)
    } else {
        lo
    }
}

pub proof fn lemma_line_end(s: Seq<char>, lo: int)
    requires
        0 <= lo <= s.len(),
    ensures
        lo <= line_end(s, lo) <= s.len(),
        line_end(s, lo) < s.len() ==> s[line_end(s, lo)] == '\n',
        forall|i: int| lo <= i < line_end(s, lo) ==> #[trigger] s[i] != '\n',
    decreases s.len() - lo,
{
    if lo < s.len() && s[lo] != '\n' {
        lemma_line_end(s, lo + 1);
    }
}

/// Find the end of the line that an index is on.
pub fn find_line_end(chars: &[char], lo: usize) -> (end: usize)
    requires
        lo <= chars@.len(),
    ensures
        end == line_end(chars@, lo as int),
        lo <= end <= chars@.len(),
{
    let mut i: usize = lo;
    while i < chars.len() && chars[i] != '\n'
        invariant
            lo <= i <= chars@.len(),
            line_end(chars@, lo as int) == line_end(chars@, i as int),
        decreases chars.len() - i,
    {
        i = i + 1;
    }
    i
}

/// The index after the last line feed before `hi`, or 0.
pub open spec fn line_start(s: Seq<char>, hi: int) -> int
    decreases hi,
{
    if 0 < hi && s[hi - 1] != '\n' {
        line_start(s, hi - 1)
    } else {
        hi
    }
}

/// Find the start of the line that an index is on.
pub fn find_line_start(chars: &[char], hi: usize) -> (start: usize)
    requires
        hi <= chars@.len(),
    ensures
        start == line_start(chars@, hi as int),
        start <= hi,
{
    let mut i: usize = hi;
    while i > 0 && chars[i - 1] != '\n'
        invariant
            i <= hi <= chars@.len(),
            line_start(chars@, hi as int) == line_start(chars@, i as int),
        decreases i,
    {
        i = i - 1;
    }
    i
}

/// A number in decimal digits, without leading zeros.
pub open spec fn decimal(n: nat) -> Seq<char>
    decreases n,
{
    let digit = seq![(48 + n % 10) as char];
    if n < 10 {
        digit
    } else {
        decimal(n / 10) + digit
    }
}

/// Write a number in decimal digits.
pub fn decimal_text(n: usize) -> (digits: String)
    ensures
        digits@ == decimal(n as nat),
    decreases n,
{
    let mut digits = if n < 10 {
        String::new()
    } else {
        decimal_text(n / 10)
    };
    digits.push((48u8 + (n % 10) as u8) as char);
    proof {
        assert(digits@ =~= decimal(n as nat));
    }
    digits
}

/// A character repeated a number of times.
pub open spec fn repeated(c: char, count: nat) -> Seq<char> {
    Seq::new(count, |i: int| c)
}

/// Append a character a number of times.
pub fn push_repeated(target: &mut String, c: char, count: usize)
    ensures
        final(target)@ == old(target)@ + repeated(c, count as nat),
{
    let mut i: usize = 0;
    while i < count
        invariant
            i <= count,
            target@ =~= old(target)@ + repeated(c, i as nat),
        decreases count - i,
    {
        target.push(c);
        i = i + 1;
    }
}

/// The number of line feeds before an index.
pub open spec fn line_feeds(s: Seq<char>, i: int) -> nat
    decreases i,
{
    if i <= 0 {
        0
    } else if s[i - 1] == '\n' {
        line_feeds(s, i - 1) + 1
    } else {
        line_feeds(s, i - 1)
    }
}

/// The end of the line that starts at an index, not counting its line ending. A carriage return
/// belongs to the line ending only if a line feed follows it.
pub open spec fn line_stop(s: Seq<char>, lo: int) -> int {
    let end = line_end(s, lo);
    if end < s.len() && end > lo && s[end - 1] == '\r' {
        end - 1
    } else {
        end
    }
}

/// Count the line feeds before an index.
pub fn count_line_feeds(chars: &[char], i: usize) -> (count: usize)
    requires
        i <= chars@.len(),
    ensures
        count == line_feeds(chars@, i as int),
        count <= i,
{
    let mut count: usize = 0;
    let mut at: usize = 0;
    while at < i
        invariant
            at <= i <= chars@.len(),
            count <= at,
            count == line_feeds(chars@, at as int),
        decreases i - at,
    {
        if chars[at] == '\n' {
            count = count + 1;
        }
        at = at + 1;
    }
    count
}

/// Find the end of the line that starts at an index, not counting its line ending.
pub fn find_line_stop(chars: &[char], lo: usize) -> (stop: usize)
    requires
        lo <= chars@.len(),
    ensures
        stop == line_stop(chars@, lo as int),
        lo <= stop <= chars@.len(),
{
    let end = find_line_end(chars, lo);
    if end < chars.len() && end > lo && chars[end - 1] == '\r' {
        end - 1
    } else {
        end
    }
}

/// Whether two characters are the same but for ASCII case.
pub open spec fn same_letter(a: char, b: char) -> bool {
    a == b || ('A' <= a && a <= 'Z' && b as u32 == a as u32 + 32) || ('A' <= b && b <= 'Z'
        && a as u32 == b as u32 + 32)
}

/// Test whether two characters are the same but for ASCII case.
pub fn is_same_letter(a: char, b: char) -> (result: bool)
    ensures
        result == same_letter(a, b),
{
    a == b || ('A' <= a && a <= 'Z' && b as u32 == a as u32 + 32) || ('A' <= b && b <= 'Z'
        && a as u32 == b as u32 + 32)
}

/// Whether two texts are the same but for ASCII case.
pub open spec fn same_letters(a: Seq<char>, b: Seq<char>) -> bool {
    a.len() == b.len() && forall|i: int|
        0 <= i < a.len() ==> same_letter(#[trigger] a[i], b[i])
}

/// Test whether two texts are the same but for ASCII case.
pub fn has_same_letters(a: &[char], b: &[char]) -> (result: bool)
    ensures
        result == same_letters(a@, b@),
{
    if a.len() != b.len() {
        return false;
    }
    let mut i: usize = 0;
    while i < a.len()
        invariant
            a@.len() == b@.len(),
            i <= a@.len(),
            forall|j: int| 0 <= j < i ==> same_letter(#[trigger] a@[j], b@[j]),
        decreases a.len() - i,
    {
        if !is_same_letter(a[i], b[i]) {
            proof {
                assert(!same_letter(a@[i as int], b@[i as int]));
            }
            return false;
        }
        i = i + 1;
    }
    true
}

} // verus!
