//! Paths with components separated by `/`.

use vstd::prelude::*;

use crate::error;
use crate::phrase;
use crate::text;

verus! {

/// Where a wiki is: in an editor buffer without a file, or in a file with a path for messages.
#[derive(Clone, Copy, Debug)]
pub enum WikiLocation<'a> {
    Untitled,
    Local { path: &'a str, display_path: &'a str },
}

impl<'a> WikiLocation<'a> {
    /// The path of the wiki's file.
    pub open spec fn path_text(self) -> Option<Seq<char>> {
        match self {
            WikiLocation::Untitled => None,
            WikiLocation::Local { path, display_path } => Some(path@),
        }
    }

    /// The path that messages about the wiki show.
    pub open spec fn display_text(self) -> Option<Seq<char>> {
        match self {
            WikiLocation::Untitled => None,
            WikiLocation::Local { path, display_path } => Some(display_path@),
        }
    }

    /// Find the path of the wiki's file.
    pub fn path(&self) -> (result: Option<&'a str>)
        ensures
            error::optional_text(result) == self.path_text(),
    {
        match self {
            WikiLocation::Untitled => None,
            WikiLocation::Local { path, display_path } => Some(*path),
        }
    }

    /// Find the path that messages about the wiki show.
    pub fn display_path(&self) -> (result: Option<&'a str>)
        ensures
            error::optional_text(result) == self.display_text(),
    {
        match self {
            WikiLocation::Untitled => None,
            WikiLocation::Local { path, display_path } => Some(*display_path),
        }
    }
}

/// The bounds of one component of a path.
pub struct Bounds {
    pub start: int,
    pub end: int,
}

/// The first index at or after `lo` that holds a separator, or the length of the path.
pub open spec fn segment_end(p: Seq<char>, lo: int) -> int
    decreases p.len() - lo,
{
    if 0 <= lo < p.len() && p[lo] != '/' {
        segment_end(p, lo + 1)
    } else {
        lo
    }
}

pub proof fn lemma_segment_end(p: Seq<char>, lo: int)
    requires
        0 <= lo <= p.len(),
    ensures
        lo <= segment_end(p, lo) <= p.len(),
        segment_end(p, lo) < p.len() ==> p[segment_end(p, lo)] == '/',
        forall|i: int| lo <= i < segment_end(p, lo) ==> #[trigger] p[i] != '/',
    decreases p.len() - lo,
{
    if lo < p.len() && p[lo] != '/' {
        lemma_segment_end(p, lo + 1);
    }
}

/// Whether a segment of a path is a component: empty segments are not, and `.` is one only at the
/// start of the path.
pub open spec fn is_component(p: Seq<char>, lo: int, end: int) -> bool {
    lo < end && !(lo > 0 && end == lo + 1 && p[lo] == '.')
}

/// The bounds of the components from an index on.
pub open spec fn bounds_from(p: Seq<char>, lo: int) -> Seq<Bounds>
    decreases p.len() + 1 - lo,
{
    if lo < 0 || lo >= p.len() {
        Seq::empty()
    } else {
        proof {
            lemma_segment_end(p, lo);
        }
        let end = segment_end(p, lo);
        let rest = bounds_from(p, end + 1);
        if is_component(p, lo, end) {
            seq![Bounds { start: lo, end }] + rest
        } else {
            rest
        }
    }
}

/// Whether a path starts at the root.
pub open spec fn is_absolute(p: Seq<char>) -> bool {
    p.len() > 0 && p[0] == '/'
}

/// The bounds of the components of a path. The root is a component of its own.
pub open spec fn component_bounds(p: Seq<char>) -> Seq<Bounds> {
    if is_absolute(p) {
        seq![Bounds { start: 0, end: 1 }] + bounds_from(p, 0)
    } else {
        bounds_from(p, 0)
    }
}

/// The components of a path.
pub open spec fn components(p: Seq<char>) -> Seq<Seq<char>> {
    component_bounds(p).map_values(|b: Bounds| p.subrange(b.start, b.end))
}

/// Whether two paths have the same components.
pub open spec fn same_components(a: Seq<char>, b: Seq<char>) -> bool {
    components(a) == components(b)
}

/// The part of a path between two of its components, both included.
pub open spec fn between_components(p: Seq<char>, first: int, last: int) -> Seq<char> {
    if first <= last {
        p.subrange(component_bounds(p)[first].start, component_bounds(p)[last].end)
    } else {
        Seq::empty()
    }
}

/// A path relative to a base directory if the base's components lead to it, and the path itself
/// otherwise.
pub open spec fn relative(base: Seq<char>, path: Seq<char>) -> Seq<char> {
    let prefix = components(base);
    let parts = components(path);
    if prefix.len() <= parts.len() && parts.take(prefix.len() as int) == prefix {
        between_components(path, prefix.len() as int, parts.len() - 1)
    } else {
        path
    }
}

/// Whether a component names an entry of a directory, rather than the root, the directory itself or
/// the one above it.
pub open spec fn is_name(component: Seq<char>) -> bool {
    component != "/"@ && component != "."@ && component != ".."@
}

/// The path without its last component, unless it is empty or the root.
pub open spec fn parent_of(p: Seq<char>) -> Option<Seq<char>> {
    let parts = components(p);
    if parts.len() == 0 || parts == seq!["/"@] {
        None
    } else {
        Some(between_components(p, 0, parts.len() - 2))
    }
}

/// The last component of a path if it is a name.
pub open spec fn file_name_of(p: Seq<char>) -> Option<Seq<char>> {
    let parts = components(p);
    if parts.len() > 0 && is_name(parts.last()) {
        Some(parts.last())
    } else {
        None
    }
}

/// A path taken from a base directory. An absolute path replaces the base.
pub open spec fn join_of(base: Seq<char>, path: Seq<char>) -> Seq<char> {
    if is_absolute(path) || base.len() == 0 {
        path
    } else if base.last() == '/' {
        base + path
    } else {
        base + "/"@ + path
    }
}

/// The components of a path below a directory, without a leading reference to the directory itself.
pub open spec fn names_below(p: Seq<char>) -> Seq<Seq<char>> {
    let parts = components(p);
    if parts.len() > 0 && parts[0] == "."@ {
        parts.drop_first()
    } else {
        parts
    }
}

/// The components of a path in a row, without a leading reference to the directory itself.
pub open spec fn normalized(p: Seq<char>) -> Seq<char> {
    phrase::joined(names_below(p), "/"@)
}

proof fn lemma_bounds_from(p: Seq<char>, lo: int)
    requires
        0 <= lo,
    ensures
        forall|i: int|
            0 <= i < bounds_from(p, lo).len() ==> {
                let b = #[trigger] bounds_from(p, lo)[i];
                lo <= b.start < b.end <= p.len()
            },
        forall|i: int, j: int|
            #![trigger bounds_from(p, lo)[i], bounds_from(p, lo)[j]]
            0 <= i < j < bounds_from(p, lo).len() ==> bounds_from(p, lo)[i].end < bounds_from(
                p,
                lo,
            )[j].start,
    decreases p.len() + 1 - lo,
{
    if lo < p.len() {
        lemma_segment_end(p, lo);
        let end = segment_end(p, lo);
        lemma_bounds_from(p, end + 1);
        let rest = bounds_from(p, end + 1);
        if is_component(p, lo, end) {
            assert(forall|i: int|
                1 <= i < bounds_from(p, lo).len() ==> #[trigger] bounds_from(p, lo)[i] == rest[i
                    - 1]);
        }
    }
}

/// The components of a path lie in the path, one after the other.
pub proof fn lemma_component_bounds(p: Seq<char>)
    ensures
        components(p).len() == component_bounds(p).len(),
        forall|i: int|
            0 <= i < component_bounds(p).len() ==> {
                let b = #[trigger] component_bounds(p)[i];
                0 <= b.start < b.end <= p.len()
            },
        forall|i: int, j: int|
            #![trigger component_bounds(p)[i], component_bounds(p)[j]]
            0 <= i < j < component_bounds(p).len() ==> component_bounds(p)[i].end
                <= component_bounds(p)[j].start,
{
    lemma_bounds_from(p, 0);
    if is_absolute(p) {
        let rest = bounds_from(p, 0);
        assert(segment_end(p, 0) == 0);
        lemma_bounds_from(p, 1);
        assert(rest == bounds_from(p, 1));
        assert(forall|i: int|
            1 <= i < component_bounds(p).len() ==> #[trigger] component_bounds(p)[i] == rest[i
                - 1]);
    }
}

/// The start and the end of a component.
#[derive(Clone, Copy)]
pub struct Component {
    pub start: usize,
    pub end: usize,
}

impl View for Component {
    type V = Bounds;

    open spec fn view(&self) -> Bounds {
        Bounds { start: self.start as int, end: self.end as int }
    }
}

/// The bounds of the components in a vector.
pub open spec fn bounds_views(parts: Seq<Component>) -> Seq<Bounds> {
    parts.map_values(|part: Component| part@)
}

/// Find the end of a segment.
pub fn find_segment_end(chars: &[char], lo: usize) -> (end: usize)
    requires
        lo <= chars@.len(),
    ensures
        end == segment_end(chars@, lo as int),
        lo <= end <= chars@.len(),
{
    let mut end: usize = lo;
    while end < chars.len() && chars[end] != '/'
        invariant
            lo <= end <= chars@.len(),
            segment_end(chars@, lo as int) == segment_end(chars@, end as int),
        decreases chars.len() - end,
    {
        end = end + 1;
    }
    end
}

/// Find the components of a path.
pub fn find_components(chars: &[char]) -> (parts: Vec<Component>)
    ensures
        bounds_views(parts@) == component_bounds(chars@),
        forall|i: int|
            0 <= i < parts@.len() ==> (#[trigger] parts@[i]).start < parts@[i].end
                <= chars@.len(),
{
    let ghost p = chars@;
    let total: usize = chars.len();
    let mut parts: Vec<Component> = Vec::new();
    if total > 0 && chars[0] == '/' {
        parts.push(Component { start: 0, end: 1 });
    }
    let mut lo: usize = 0;
    proof {
        assert(bounds_views(parts@) + bounds_from(p, 0) =~= component_bounds(p));
    }
    while lo < total
        invariant
            p == chars@,
            total == chars@.len(),
            lo <= total,
            bounds_views(parts@) + bounds_from(p, lo as int) == component_bounds(p),
            forall|i: int|
                0 <= i < parts@.len() ==> (#[trigger] parts@[i]).start < parts@[i].end <= total,
        decreases total - lo,
    {
        let end = find_segment_end(chars, lo);
        let ghost before = bounds_views(parts@);
        let ghost rest = bounds_from(p, end + 1);
        if lo < end && !(lo > 0 && end - lo == 1 && chars[lo] == '.') {
            parts.push(Component { start: lo, end });
            proof {
                assert(bounds_views(parts@) =~= before.push(
                    Bounds { start: lo as int, end: end as int },
                ));
                assert(bounds_views(parts@) + rest =~= before + (seq![
                    Bounds { start: lo as int, end: end as int },
                ] + rest));
            }
        }
        if end < total {
            lo = end + 1;
        } else {
            proof {
                assert(bounds_from(p, end + 1) =~= bounds_from(p, end as int));
            }
            lo = end;
        }
    }
    proof {
        assert(bounds_views(parts@) + bounds_from(p, lo as int) =~= bounds_views(parts@));
    }
    parts
}

/// The texts in a vector of character vectors.
pub open spec fn part_views(parts: Seq<Vec<char>>) -> Seq<Seq<char>> {
    parts.map_values(|part: Vec<char>| part@)
}

/// Split a path into its components.
pub fn split_path(chars: &[char]) -> (parts: Vec<Vec<char>>)
    ensures
        part_views(parts@) == components(chars@),
        parts@.len() == components(chars@).len(),
{
    let bounds = find_components(chars);
    let mut parts: Vec<Vec<char>> = Vec::new();
    let mut i: usize = 0;
    while i < bounds.len()
        invariant
            i <= bounds@.len(),
            parts@.len() == i,
            forall|j: int|
                0 <= j < bounds@.len() ==> (#[trigger] bounds@[j]).start < bounds@[j].end
                    <= chars@.len(),
            forall|j: int|
                0 <= j < i ==> #[trigger] parts@[j]@ == chars@.subrange(
                    bounds@[j].start as int,
                    bounds@[j].end as int,
                ),
        decreases bounds.len() - i,
    {
        parts.push(text::slice_of(chars, bounds[i].start, bounds[i].end));
        i = i + 1;
    }
    proof {
        let spans = bounds_views(bounds@);
        assert forall|j: int| 0 <= j < spans.len() implies #[trigger] part_views(parts@)[j]
            == components(chars@)[j] by {
            assert(spans[j] == bounds@[j]@);
            assert(parts@[j]@ == chars@.subrange(spans[j].start, spans[j].end));
        }
        assert(part_views(parts@) =~= components(chars@));
    }
    parts
}

/// Whether the first parts of a path are given parts.
fn starts_with_parts(parts: &Vec<Vec<char>>, prefix: &Vec<Vec<char>>) -> (result: bool)
    ensures
        result == (prefix@.len() <= parts@.len() && part_views(parts@).take(
            prefix@.len() as int,
        ) == part_views(prefix@)),
{
    if prefix.len() > parts.len() {
        return false;
    }
    let ghost whole = part_views(parts@);
    let ghost front = part_views(prefix@);
    let mut i: usize = 0;
    while i < prefix.len()
        invariant
            whole == part_views(parts@),
            front == part_views(prefix@),
            i <= prefix@.len() <= parts@.len(),
            forall|j: int| 0 <= j < i ==> whole[j] == #[trigger] front[j],
        decreases prefix.len() - i,
    {
        proof {
            assert(whole[i as int] == parts@[i as int]@);
            assert(front[i as int] == prefix@[i as int]@);
        }
        if !text::same_chars(parts[i].as_slice(), prefix[i].as_slice()) {
            proof {
                assert(whole.take(prefix@.len() as int)[i as int] == whole[i as int]);
            }
            return false;
        }
        i = i + 1;
    }
    proof {
        assert(whole.take(prefix@.len() as int) =~= front);
    }
    true
}

/// Whether two paths have the same components.
pub fn same_path(a: &str, b: &str) -> (result: bool)
    ensures
        result == same_components(a@, b@),
{
    let left = split_path(text::chars_of(a).as_slice());
    let right = split_path(text::chars_of(b).as_slice());
    if left.len() != right.len() {
        return false;
    }
    proof {
        assert(part_views(left@).take(right@.len() as int) =~= part_views(left@));
    }
    starts_with_parts(&left, &right)
}

/// Whether the components of one path are the first components of another.
pub fn leads_to(path: &str, other: &str) -> (result: bool)
    ensures
        result == components(path@).is_prefix_of(components(other@)),
{
    let prefix = split_path(text::chars_of(path).as_slice());
    let parts = split_path(text::chars_of(other).as_slice());
    proof {
        let front = components(path@);
        let whole = components(other@);
        if front.len() <= whole.len() {
            assert(whole.take(front.len() as int) =~= whole.subrange(0, front.len() as int));
        }
    }
    starts_with_parts(&parts, &prefix)
}

/// Copy a part of a path between two of its components, both included.
fn copy_between(chars: &[char], first: usize, count: usize) -> (result: String)
    requires
        first <= count <= components(chars@).len(),
    ensures
        result@ == between_components(chars@, first as int, count - 1),
{
    proof {
        lemma_component_bounds(chars@);
    }
    if first == count {
        return String::new();
    }
    let bounds = find_components(chars);
    let ghost spans = bounds_views(bounds@);
    proof {
        assert(spans[first as int] == bounds@[first as int]@);
        assert(spans[count - 1] == bounds@[count - 1]@);
    }
    text::string_of(
        text::slice_of(chars, bounds[first].start, bounds[count - 1].end).as_slice(),
    )
}

/// Express a path relative to a base directory when the path is contained within it.
pub fn relative_path(base_directory: &str, path: &str) -> (result: String)
    ensures
        result@ == relative(base_directory@, path@),
{
    let chars = text::chars_of(path);
    let parts = split_path(chars.as_slice());
    let prefix = split_path(text::chars_of(base_directory).as_slice());
    if starts_with_parts(&parts, &prefix) {
        copy_between(chars.as_slice(), prefix.len(), parts.len())
    } else {
        path.to_owned()
    }
}

/// Find the path above a path.
pub fn parent(path: &str) -> (result: Option<String>)
    ensures
        match result {
            Some(above) => parent_of(path@) == Some(above@),
            None => parent_of(path@) == None::<Seq<char>>,
        },
{
    let chars = text::chars_of(path);
    let parts = split_path(chars.as_slice());
    let count = parts.len();
    if count == 0 {
        return None;
    }
    let root = text::chars_of("/");
    proof {
        let views = part_views(parts@);
        assert(views[0] == parts@[0]@);
        if count == 1 {
            if views[0] == "/"@ {
                assert(views =~= seq!["/"@]);
            } else {
                assert(views[0] != seq!["/"@][0]);
            }
        }
    }
    if count == 1 && text::same_chars(parts[0].as_slice(), root.as_slice()) {
        return None;
    }
    Some(copy_between(chars.as_slice(), 0, count - 1))
}

/// Find the last component of a path if it is a name.
pub fn file_name(path: &str) -> (result: Option<String>)
    ensures
        match result {
            Some(name) => file_name_of(path@) == Some(name@),
            None => file_name_of(path@) == None::<Seq<char>>,
        },
{
    let chars = text::chars_of(path);
    let parts = split_path(chars.as_slice());
    let count = parts.len();
    if count == 0 {
        return None;
    }
    let name = text::string_of(parts[count - 1].as_slice());
    proof {
        assert(part_views(parts@).last() == parts@[count - 1]@);
    }
    if text::same_text(name.as_str(), "/") || text::same_text(name.as_str(), ".")
        || text::same_text(name.as_str(), "..") {
        None
    } else {
        Some(name)
    }
}

/// Take a path from a base directory.
pub fn join(base: &str, path: &str) -> (result: String)
    ensures
        result@ == join_of(base@, path@),
{
    let base_chars = text::chars_of(base);
    let path_chars = text::chars_of(path);
    let count = base_chars.len();
    if count == 0 || (path_chars.len() > 0 && path_chars[0] == '/') {
        return path.to_owned();
    }
    let separator = if base_chars[count - 1] == '/' {
        ""
    } else {
        "/"
    };
    let result = phrase::concat3(base, separator, path);
    proof {
        reveal_strlit("");
        assert(base@ + ""@ + path@ =~= base@ + path@);
    }
    result
}

/// The kind of a component by which components are ordered first: the root, then `.`, then `..`, then
/// names.
pub open spec fn component_kind(component: Seq<char>) -> u64 {
    if component == "/"@ {
        0
    } else if component == "."@ {
        1
    } else if component == ".."@ {
        2
    } else {
        3
    }
}

/// The key that orders a component among others: its kind, its characters and a mark for its end that
/// comes before every character.
pub open spec fn component_key(component: Seq<char>) -> Seq<u64> {
    seq![component_kind(component)] + component.map_values(
        |c: char| (c as u64 + 1) as u64,
    ).push(0)
}

/// Find the kind of a component by which components are ordered first.
fn find_component_kind(part: &Vec<char>) -> (kind: u64)
    ensures
        kind == component_kind(part@),
{
    let component = text::string_of(part.as_slice());
    if text::same_text(component.as_str(), "/") {
        0
    } else if text::same_text(component.as_str(), ".") {
        1
    } else if text::same_text(component.as_str(), "..") {
        2
    } else {
        3
    }
}

/// The key that orders paths component by component.
pub open spec fn components_key(parts: Seq<Seq<char>>) -> Seq<u64>
    decreases parts.len(),
{
    if parts.len() == 0 {
        Seq::empty()
    } else {
        components_key(parts.drop_last()) + component_key(parts.last())
    }
}

/// The key that orders a path among others.
pub open spec fn path_key(p: Seq<char>) -> Seq<u64> {
    components_key(components(p))
}

proof fn lemma_char_code(c: char)
    ensures
        c as u64 <= 0x10ffff,
{
}

/// Compute the key that orders a path among others.
pub fn key_of_path(path: &str) -> (key: Vec<u64>)
    ensures
        key@ == path_key(path@),
{
    let parts = split_path(text::chars_of(path).as_slice());
    let ghost views = part_views(parts@);
    let mut key: Vec<u64> = Vec::new();
    let mut i: usize = 0;
    proof {
        assert(views.take(0) =~= Seq::<Seq<char>>::empty());
        assert(key@ =~= components_key(views.take(0)));
    }
    while i < parts.len()
        invariant
            views == part_views(parts@),
            i <= parts@.len(),
            key@ == components_key(views.take(i as int)),
        decreases parts.len() - i,
    {
        let part = &parts[i];
        let ghost earlier = key@;
        key.push(find_component_kind(part));
        let ghost before = key@;
        let ghost codes = part@.map_values(|c: char| (c as u64 + 1) as u64);
        let mut k: usize = 0;
        proof {
            assert(before + codes.take(0) =~= before);
        }
        while k < part.len()
            invariant
                k <= part@.len(),
                codes == part@.map_values(|c: char| (c as u64 + 1) as u64),
                key@ == before + codes.take(k as int),
            decreases part.len() - k,
        {
            let c = part[k];
            proof {
                lemma_char_code(c);
            }
            let code: u64 = c as u64;
            key.push(code + 1);
            proof {
                assert(codes[k as int] == (c as u64 + 1) as u64);
                assert(key@ =~= before + codes.take(k + 1));
            }
            k = k + 1;
        }
        key.push(0);
        proof {
            assert(codes.take(k as int) =~= codes);
            assert(views[i as int] == part@);
            assert(views.take(i + 1).drop_last() =~= views.take(i as int));
            assert(views.take(i + 1).last() == part@);
            assert(key@ =~= earlier + component_key(part@));
        }
        i = i + 1;
    }
    proof {
        assert(views.take(i as int) =~= views);
    }
    key
}

/// Whether a path is another path or leads to something inside it.
pub open spec fn is_inside(outer: Seq<char>, path: Seq<char>) -> bool {
    components(outer).is_prefix_of(components(path))
}

/// The components that a path has once the path that it is inside of has become another one.
pub open spec fn moved_names(path: Seq<char>, old: Seq<char>, new: Seq<char>) -> Seq<Seq<char>> {
    components(new) + components(path).skip(components(old).len() as int)
}

/// What a path becomes once the path that it is inside of has become another one.
pub open spec fn moved(path: Seq<char>, old: Seq<char>, new: Seq<char>) -> Seq<char> {
    phrase::joined(moved_names(path, old, new), "/"@)
}

/// Append components to texts, from an index on.
fn push_parts(names: &mut Vec<String>, parts: &Vec<Vec<char>>, from: usize)
    requires
        from <= parts@.len(),
    ensures
        phrase::text_views(final(names)@) == phrase::text_views(old(names)@) + part_views(
            parts@,
        ).skip(from as int),
{
    let ghost before = phrase::text_views(names@);
    let ghost views = part_views(parts@);
    let mut i: usize = from;
    proof {
        assert(phrase::text_views(names@) =~= before + views.subrange(from as int, from as int));
    }
    while i < parts.len()
        invariant
            from <= i <= parts@.len(),
            views == part_views(parts@),
            phrase::text_views(names@) == before + views.subrange(from as int, i as int),
        decreases parts.len() - i,
    {
        let ghost earlier = phrase::text_views(names@);
        let name = text::string_of(parts[i].as_slice());
        names.push(name);
        proof {
            assert(views[i as int] == parts@[i as int]@);
            assert(phrase::text_views(names@) =~= earlier.push(name@));
            assert(phrase::text_views(names@) =~= before + views.subrange(from as int, i + 1));
        }
        i = i + 1;
    }
    proof {
        assert(views.subrange(from as int, i as int) =~= views.skip(from as int));
    }
}

/// Find what a path becomes once the path that it is inside of has become another one.
pub fn move_path(path: &str, old_path: &str, new_path: &str) -> (result: String)
    requires
        is_inside(old_path@, path@),
    ensures
        result@ == moved(path@, old_path@, new_path@),
{
    let parts = split_path(text::chars_of(path).as_slice());
    let above = split_path(text::chars_of(old_path).as_slice());
    let start = split_path(text::chars_of(new_path).as_slice());
    let mut names: Vec<String> = Vec::new();
    proof {
        assert(phrase::text_views(names@) =~= Seq::<Seq<char>>::empty());
        assert(components(new_path@).skip(0) =~= components(new_path@));
    }
    push_parts(&mut names, &start, 0);
    push_parts(&mut names, &parts, above.len());
    proof {
        assert(phrase::text_views(names@) =~= moved_names(path@, old_path@, new_path@));
    }
    phrase::join(&names, "/")
}

/// Whether texts can be the components of a path below a directory.
pub open spec fn are_names(names: Seq<Seq<char>>) -> bool {
    forall|k: int|
        0 <= k < names.len() ==> {
            &&& (#[trigger] names[k]).len() > 0
            &&& names[k] != "."@
            &&& !names[k].contains('/')
        }
}

/// The components of a path are what stands between separators, and none but the first is a reference
/// to the directory itself.
proof fn lemma_segments(p: Seq<char>, lo: int)
    requires
        0 <= lo,
    ensures
        forall|i: int|
            0 <= i < bounds_from(p, lo).len() ==> {
                let b = #[trigger] bounds_from(p, lo)[i];
                &&& lo <= b.start < b.end <= p.len()
                &&& !p.subrange(b.start, b.end).contains('/')
                &&& b.start > 0 ==> p.subrange(b.start, b.end) != "."@
            },
    decreases p.len() + 1 - lo,
{
    reveal_strlit(".");
    if lo < p.len() {
        lemma_segment_end(p, lo);
        let end = segment_end(p, lo);
        lemma_segments(p, end + 1);
        let rest = bounds_from(p, end + 1);
        let all = bounds_from(p, lo);
        assert forall|i: int| 0 <= i < all.len() implies {
            let b = #[trigger] all[i];
            &&& lo <= b.start < b.end <= p.len()
            &&& !p.subrange(b.start, b.end).contains('/')
            &&& b.start > 0 ==> p.subrange(b.start, b.end) != "."@
        } by {
            if is_component(p, lo, end) {
                if i > 0 {
                    assert(all[i] == rest[i - 1]);
                } else {
                    let part = p.subrange(lo, end);
                    if part.contains('/') {
                        let k = choose|k: int| 0 <= k < part.len() && part[k] == '/';
                        assert(p[lo + k] == '/');
                    }
                    if part == "."@ {
                        assert(part[0] == p[lo]);
                    }
                }
            } else {
                assert(all[i] == rest[i]);
            }
        }
    }
}

/// What lies below a directory has names.
pub proof fn lemma_names_below(p: Seq<char>)
    requires
        !is_absolute(p),
    ensures
        are_names(names_below(p)),
        forall|k: int, c: char|
            #![trigger names_below(p)[k].contains(c)]
            0 <= k < names_below(p).len() && names_below(p)[k].contains(c) ==> p.contains(c),
        forall|k: int| 0 <= k < names_below(p).len() ==> components(p).contains(
            #[trigger] names_below(p)[k],
        ),
{
    let bounds = component_bounds(p);
    let parts = components(p);
    let names = names_below(p);
    lemma_segments(p, 0);
    lemma_component_bounds(p);
    let skipped: int = if parts.len() > 0 && parts[0] == "."@ {
        1
    } else {
        0
    };
    assert forall|k: int| 0 <= k < names.len() implies {
        &&& (#[trigger] names[k]).len() > 0
        &&& names[k] != "."@
        &&& !names[k].contains('/')
        &&& components(p).contains(names[k])
    } by {
        let j = k + skipped;
        assert(names[k] == parts[j]);
        let b = bounds[j];
        assert(parts[j] == p.subrange(b.start, b.end));
        if b.start == 0 && j > 0 {
            assert(bounds[0].end <= bounds[j].start);
        }
    }
    assert forall|k: int, c: char|
        #![trigger names[k].contains(c)]
        0 <= k < names.len() && names[k].contains(c) implies p.contains(c) by {
        let j = k + skipped;
        assert(names[k] == parts[j]);
        let b = bounds[j];
        let m = choose|m: int| 0 <= m < names[k].len() && names[k][m] == c;
        assert(p[b.start + m] == c);
    }
}

/// Where names stand in a row from an index on, they are the components from there on.
proof fn lemma_bounds_of_names(t: Seq<char>, lo: int, names: Seq<Seq<char>>, end: Seq<char>)
    requires
        0 <= lo <= t.len(),
        names.len() > 0,
        are_names(names),
        end == ""@ || end == "/"@ || end == "/."@,
        t.subrange(lo, t.len() as int) == phrase::joined(names, "/"@) + end,
    ensures
        bounds_from(t, lo).map_values(|b: Bounds| t.subrange(b.start, b.end)) == names,
    decreases names.len(),
{
    reveal_strlit("");
    reveal_strlit("/");
    reveal_strlit("/.");
    reveal_strlit(".");
    let first = names[0];
    let rest = names.drop_first();
    let stop = lo + first.len();
    let tail = t.subrange(lo, t.len() as int);
    let after = if rest.len() > 0 {
        phrase::lemma_joined_front(first, rest, "/"@);
        assert(seq![first] + rest =~= names);
        "/"@ + phrase::joined(rest, "/"@) + end
    } else {
        assert(names =~= seq![first]);
        end
    };
    assert(tail =~= first + after);
    assert forall|i: int| lo <= i < stop implies #[trigger] t[i] != '/' by {
        assert(t[i] == tail[i - lo]);
        assert(tail[i - lo] == first[i - lo]);
        assert(first.contains(first[i - lo]));
    }
    if stop < t.len() {
        assert(t[stop] == tail[stop - lo]);
        assert(tail[stop - lo] == after[0]);
    }
    lemma_segment_end_at(t, lo, stop);
    assert(t.subrange(lo, stop) =~= first);
    if stop == lo + 1 && t[lo] == '.' {
        assert(first =~= "."@);
    }
    assert(is_component(t, lo, stop));
    let others = bounds_from(t, stop + 1);
    if rest.len() > 0 {
        assert(t.subrange(stop + 1, t.len() as int) =~= phrase::joined(rest, "/"@) + end) by {
            assert forall|i: int| 0 <= i < t.len() - (stop + 1) implies #[trigger] t.subrange(
                stop + 1,
                t.len() as int,
            )[i] == (phrase::joined(rest, "/"@) + end)[i] by {
                assert(t[stop + 1 + i] == tail[stop + 1 + i - lo]);
                assert(tail[stop + 1 + i - lo] == after[1 + i]);
            }
        }
        assert forall|k: int| 0 <= k < rest.len() implies {
            &&& (#[trigger] rest[k]).len() > 0
            &&& rest[k] != "."@
            &&& !rest[k].contains('/')
        } by {
            assert(rest[k] == names[k + 1]);
        }
        lemma_bounds_of_names(t, stop + 1, rest, end);
    } else if end == "/."@ {
        assert(t[stop + 1] == tail[stop + 1 - lo]);
        assert(t[stop + 1] == '.');
        lemma_segment_end_at(t, stop + 1, stop + 2);
        assert(bounds_from(t, stop + 3) =~= Seq::<Bounds>::empty());
        assert(others =~= Seq::<Bounds>::empty());
    } else {
        assert(others =~= Seq::<Bounds>::empty());
    }
    let found = bounds_from(t, lo).map_values(|b: Bounds| t.subrange(b.start, b.end));
    let later = others.map_values(|b: Bounds| t.subrange(b.start, b.end));
    assert(found =~= seq![first] + later);
    assert(seq![first] + later =~= names);
}

proof fn lemma_segment_end_at(p: Seq<char>, lo: int, end: int)
    requires
        0 <= lo <= end <= p.len(),
        forall|i: int| lo <= i < end ==> #[trigger] p[i] != '/',
        end == p.len() || p[end] == '/',
    ensures
        segment_end(p, lo) == end,
    decreases end - lo,
{
    if lo < end {
        lemma_segment_end_at(p, lo + 1, end);
    }
}

/// Names in a row, with what may stand in front of them and behind them, have the same names.
pub proof fn lemma_names_again(start: Seq<char>, names: Seq<Seq<char>>, end: Seq<char>)
    requires
        names.len() > 0,
        are_names(names),
        start == ""@ || start == "./"@,
        end == ""@ || end == "/"@ || end == "/."@,
    ensures
        ({
            let t = start + phrase::joined(names, "/"@) + end;
            &&& !is_absolute(t)
            &&& names_below(t) == names
            &&& start == ""@ ==> components(t) == names
            &&& start == "./"@ ==> components(t) == seq!["."@] + names
            &&& forall|k: int|
                0 <= k < components(t).len() ==> (#[trigger] components(t)[k]) == "."@
                    || names.contains(components(t)[k])
        }),
{
    reveal_strlit("");
    reveal_strlit("./");
    reveal_strlit(".");
    let row = phrase::joined(names, "/"@);
    let t = start + row + end;
    lemma_joined_ends(names);
    assert(names[0].contains(names[0][0]));
    if start == "./"@ {
        assert(t.subrange(2, t.len() as int) =~= row + end);
        lemma_bounds_of_names(t, 2, names, end);
        assert(t[0] == '.' && t[1] == '/');
        lemma_segment_end_at(t, 0, 1);
        assert(t.subrange(0, 1) =~= "."@);
        let rest = bounds_from(t, 2);
        let later = rest.map_values(|b: Bounds| t.subrange(b.start, b.end));
        assert(components(t) =~= seq!["."@] + later);
        assert(components(t).drop_first() =~= names);
        assert(components(t) =~= seq!["."@] + names);
    } else {
        assert(t =~= row + end);
        assert(t.subrange(0, t.len() as int) =~= row + end);
        assert(t[0] == names[0][0]);
        lemma_bounds_of_names(t, 0, names, end);
        assert(components(t) == names);
    }
    assert forall|k: int| 0 <= k < components(t).len() implies (#[trigger] components(t)[k]) == "."@
        || names.contains(components(t)[k]) by {
        if start == "./"@ {
            if k > 0 {
                assert(components(t)[k] == names[k - 1]);
            }
        } else {
            assert(components(t)[k] == names[k]);
        }
    }
}

/// The ends of names in a row.
pub proof fn lemma_joined_ends(names: Seq<Seq<char>>)
    requires
        names.len() > 0,
        are_names(names),
    ensures
        ({
            let row = phrase::joined(names, "/"@);
            &&& row.len() > 0
            &&& row[0] == names[0][0]
            &&& row.last() == names.last().last()
        }),
    decreases names.len(),
{
    reveal_strlit("/");
    let row = phrase::joined(names, "/"@);
    assert(names[0].len() > 0);
    if names.len() > 1 {
        let front = names.drop_last();
        lemma_front_names(names);
        lemma_joined_ends(front);
        assert(front[0] == names[0]);
        assert(row == phrase::joined(front, "/"@) + "/"@ + names.last());
        assert(names[names.len() - 1].len() > 0);
    }
}

proof fn lemma_front_names(names: Seq<Seq<char>>)
    requires
        names.len() > 0,
        are_names(names),
    ensures
        are_names(names.drop_last()),
{
    let front = names.drop_last();
    assert forall|k: int| 0 <= k < front.len() implies {
        &&& (#[trigger] front[k]).len() > 0
        &&& front[k] != "."@
        &&& !front[k].contains('/')
    } by {
        assert(front[k] == names[k]);
    }
}

/// A character in names in a row is a separator or stands in one of the names.
pub proof fn lemma_joined_char(names: Seq<Seq<char>>, i: int) -> (k: int)
    requires
        0 <= i < phrase::joined(names, "/"@).len(),
        phrase::joined(names, "/"@)[i] != '/',
    ensures
        0 <= k < names.len(),
        names[k].contains(phrase::joined(names, "/"@)[i]),
    decreases names.len(),
{
    reveal_strlit("/");
    let row = phrase::joined(names, "/"@);
    if names.len() == 1 {
        assert(names[0][i] == row[i]);
        0
    } else {
        let front = names.drop_last();
        let before = phrase::joined(front, "/"@);
        assert(row == before + "/"@ + names.last());
        if i < before.len() {
            assert(before[i] == row[i]);
            let k = lemma_joined_char(front, i);
            assert(front[k] == names[k]);
            k
        } else {
            assert(names.last()[i - before.len() - 1] == row[i]);
            names.len() - 1
        }
    }
}

/// A path that does not end with a separator or a reference to the directory itself ends with its last
/// component.
proof fn lemma_last_bound(p: Seq<char>, lo: int)
    requires
        0 <= lo < p.len(),
        lo == 0 || p[lo - 1] == '/',
        p.last() != '/',
        !(p.len() >= 2 && p[p.len() - 2] == '/' && p.last() == '.'),
    ensures
        bounds_from(p, lo).len() > 0,
        bounds_from(p, lo).last().end == p.len(),
    decreases p.len() - lo,
{
    lemma_segment_end(p, lo);
    let end = segment_end(p, lo);
    if end < p.len() {
        lemma_last_bound(p, end + 1);
        assert(bounds_from(p, lo).last() == bounds_from(p, end + 1).last());
    } else {
        assert(bounds_from(p, end + 1) =~= Seq::<Bounds>::empty());
        assert(is_component(p, lo, end));
    }
}

/// The last character of a path that does not end with a separator or a reference to the directory
/// itself.
pub proof fn lemma_last_name(p: Seq<char>)
    requires
        p.len() > 0,
        !is_absolute(p),
        p.last() != '/',
        !(p.len() >= 2 && p[p.len() - 2] == '/' && p.last() == '.'),
        names_below(p).len() > 0,
    ensures
        names_below(p).last().last() == p.last(),
{
    lemma_last_bound(p, 0);
    lemma_segments(p, 0);
    let bounds = component_bounds(p);
    let parts = components(p);
    let b = bounds[bounds.len() - 1];
    assert(parts.last() == p.subrange(b.start, b.end));
    assert(names_below(p).last() == parts.last());
}

/// The first character of a path that does not start with a reference to the directory itself.
pub proof fn lemma_first_name(p: Seq<char>)
    requires
        p.len() > 0,
        !is_absolute(p),
        !text::starts_with(p, "./"@),
        names_below(p).len() > 0,
    ensures
        names_below(p)[0][0] == p[0],
{
    reveal_strlit("./");
    reveal_strlit(".");
    lemma_segment_end(p, 0);
    let end = segment_end(p, 0);
    let rest = bounds_from(p, end + 1);
    assert(component_bounds(p) == seq![Bounds { start: 0, end }] + rest);
    assert(components(p)[0] == p.subrange(0, end));
    if components(p)[0] == "."@ {
        assert(p.subrange(0, end)[0] == p[0]);
        if end < p.len() {
            assert(p.subrange(0, 2) =~= "./"@);
        } else {
            assert(rest =~= Seq::<Bounds>::empty());
        }
    }
}

/// A reference to the directory itself has no names below it.
pub proof fn lemma_here()
    ensures
        names_below("."@).len() == 0,
        names_below("./"@).len() == 0,
        components("."@) == seq!["."@],
        components("./"@) == seq!["."@],
{
    reveal_strlit("./");
    reveal_strlit(".");
    let here = "."@;
    lemma_segment_end_at(here, 0, 1);
    assert(bounds_from(here, 2) =~= Seq::<Bounds>::empty());
    assert(here.subrange(0, 1) =~= "."@);
    assert(components(here) =~= seq!["."@]);
    let there = "./"@;
    lemma_segment_end_at(there, 0, 1);
    assert(bounds_from(there, 2) =~= Seq::<Bounds>::empty());
    assert(there.subrange(0, 1) =~= "."@);
    assert(components(there) =~= seq!["."@]);
}

} // verus!
