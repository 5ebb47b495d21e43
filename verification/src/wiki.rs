//! Wikis: text nodes that link to each other and to files and directories.

use vstd::prelude::*;
use vstd::string::StringExecFns;

use crate::error::SourceRange;
use crate::error::Span;
use crate::order;
use crate::phrase;
use crate::text;

verus! {

// These strings define the wiki format's extension and structural markers. A link whose target
// starts with `/` is a filesystem link, relative to the wiki's directory, which names a directory
// if it ends with `/`. A filesystem link can also say with a prefix what it names.
pub const WIKI_EXTENSION: &'static str = "mull";

pub const TITLE_MARKER: &'static str = "#";

pub const TITLE_PREFIX: &'static str = "# ";

pub const FILESYSTEM_LINK_PREFIX: &'static str = "/";

pub const DIRECTORY_LINK_SUFFIX: &'static str = "/";

pub const FILE_LINK_PREFIX: &'static str = "file:";

pub const DIRECTORY_LINK_PREFIX: &'static str = "dir:";

// This title identifies the root of every wiki's text-link graph.
pub const HOME_TITLE: &'static str = "Home";

/// The source occurrences through which a node can reference a target.
#[derive(Clone, Debug)]
pub enum Link {
    Text { title: String, source_range: SourceRange },
    File { path: String, source_range: SourceRange },
    Directory { path: String, source_range: SourceRange },
}

/// The contents of a link.
pub enum LinkView {
    Text { title: Seq<char>, span: Span },
    File { path: Seq<char>, span: Span },
    Directory { path: Seq<char>, span: Span },
}

impl LinkView {
    /// Where a link stands in the source.
    pub open spec fn span(self) -> Span {
        match self {
            LinkView::Text { title, span } => span,
            LinkView::File { path, span } => span,
            LinkView::Directory { path, span } => span,
        }
    }
}

impl View for Link {
    type V = LinkView;

    open spec fn view(&self) -> LinkView {
        match self {
            Link::Text { title, source_range } => LinkView::Text {
                title: title@,
                span: source_range@,
            },
            Link::File { path, source_range } => LinkView::File {
                path: path@,
                span: source_range@,
            },
            Link::Directory { path, source_range } => LinkView::Directory {
                path: path@,
                span: source_range@,
            },
        }
    }
}

/// The links in a vector.
pub open spec fn link_views(links: Seq<Link>) -> Seq<LinkView> {
    links.map_values(|link: Link| link@)
}

impl Link {
    /// Where a link stands in the source.
    pub fn source_range(&self) -> (range: SourceRange)
        ensures
            range@ == self@.span(),
    {
        match self {
            Link::Text { title, source_range } => *source_range,
            Link::File { path, source_range } => *source_range,
            Link::Directory { path, source_range } => *source_range,
        }
    }
}

/// A text node in a wiki.
#[derive(Clone, Debug)]
pub struct TextNode {
    pub title: String,  // Nonempty, one line, trimmed, and not starting like a filesystem link, such as with `/`
    pub content: String,  // No leading or trailing whitespace, and lines are trimmed at the end
    pub links: Vec<Link>,
    pub depth: Option<usize>,  // Minimum text-link distance from the root
    pub source_range: SourceRange,  // The complete node without leading or trailing whitespace
    pub title_source_range: SourceRange,  // The trimmed title text, not including the `#`
}

/// The contents of a text node.
pub struct NodeView {
    pub title: Seq<char>,
    pub content: Seq<char>,
    pub links: Seq<LinkView>,
    pub depth: Option<nat>,
    pub span: Span,
    pub title_span: Span,
}

/// A depth as a number of any size.
pub open spec fn depth_view(depth: Option<usize>) -> Option<nat> {
    match depth {
        Some(depth) => Some(depth as nat),
        None => None,
    }
}

impl View for TextNode {
    type V = NodeView;

    open spec fn view(&self) -> NodeView {
        NodeView {
            title: self.title@,
            content: self.content@,
            links: link_views(self.links@),
            depth: depth_view(self.depth),
            span: self.source_range@,
            title_span: self.title_source_range@,
        }
    }
}

/// The nodes in a vector.
pub open spec fn node_views(nodes: Seq<TextNode>) -> Seq<NodeView> {
    nodes.map_values(|node: TextNode| node@)
}

/// A parsed wiki.
#[derive(Clone, Debug)]
pub struct Wiki {
    pub text_nodes: Vec<TextNode>,
}

impl View for Wiki {
    type V = Seq<NodeView>;

    open spec fn view(&self) -> Seq<NodeView> {
        node_views(self.text_nodes@)
    }
}

impl Default for Wiki {
    /// The wiki without any nodes.
    fn default() -> (wiki: Wiki)
        ensures
            wiki@ == Seq::<NodeView>::empty(),
    {
        let wiki = Wiki { text_nodes: Vec::new() };
        proof {
            assert(wiki@ =~= Seq::<NodeView>::empty());
        }
        wiki
    }
}

/// Whether no two nodes have the same title.
pub open spec fn titles_distinct(nodes: Seq<NodeView>) -> bool {
    forall|i: int, j: int|
        #![trigger nodes[i], nodes[j]]
        0 <= i < j < nodes.len() ==> nodes[i].title != nodes[j].title
}

/// The index of the first node with a title, if there is one.
pub open spec fn position_of(nodes: Seq<NodeView>, title: Seq<char>) -> Option<int>
    decreases nodes.len(),
{
    if nodes.len() == 0 {
        None
    } else {
        match position_of(nodes.drop_last(), title) {
            Some(i) => Some(i),
            None => if nodes.last().title == title {
                Some(nodes.len() - 1)
            } else {
                None
            },
        }
    }
}

/// Whether some node has a title.
pub open spec fn has_title(nodes: Seq<NodeView>, title: Seq<char>) -> bool {
    exists|i: int| 0 <= i < nodes.len() && #[trigger] nodes[i].title == title
}

/// The index found for a title holds a node with that title, and there is one whenever any node has
/// the title.
pub proof fn lemma_position_of(nodes: Seq<NodeView>, title: Seq<char>)
    ensures
        match position_of(nodes, title) {
            Some(i) => {
                &&& 0 <= i < nodes.len()
                &&& nodes[i].title == title
                &&& forall|j: int| 0 <= j < i ==> #[trigger] nodes[j].title != title
            },
            None => forall|j: int| 0 <= j < nodes.len() ==> #[trigger] nodes[j].title != title,
        },
        has_title(nodes, title) == (position_of(nodes, title) is Some),
    decreases nodes.len(),
{
    if nodes.len() > 0 {
        let front = nodes.drop_last();
        lemma_position_of(front, title);
        match position_of(front, title) {
            Some(i) => {
                assert(front[i] == nodes[i]);
                assert forall|j: int| 0 <= j < i implies #[trigger] nodes[j].title != title by {
                    assert(front[j] == nodes[j]);
                }
            },
            None => {
                assert forall|j: int| 0 <= j < nodes.len() - 1 implies #[trigger] nodes[j].title
                    != title by {
                    assert(front[j] == nodes[j]);
                }
                assert(nodes[nodes.len() - 1] == nodes.last());
            },
        }
    }
}

/// Where titles are distinct, a title determines its node.
pub proof fn lemma_position_of_distinct(nodes: Seq<NodeView>, i: int)
    requires
        titles_distinct(nodes),
        0 <= i < nodes.len(),
    ensures
        position_of(nodes, nodes[i].title) == Some(i),
{
    lemma_position_of(nodes, nodes[i].title);
}

impl Wiki {
    /// Whether a wiki's titles are distinct.
    pub open spec fn wf(&self) -> bool {
        titles_distinct(self@)
    }

    /// Find a node by its title.
    pub fn position(&self, title: &str) -> (found: Option<usize>)
        ensures
            match found {
                Some(i) => position_of(self@, title@) == Some(i as int) && i
                    < self.text_nodes@.len(),
                None => position_of(self@, title@) == None::<int>,
            },
    {
        let mut i: usize = 0;
        while i < self.text_nodes.len()
            invariant
                i <= self.text_nodes@.len(),
                forall|j: int| 0 <= j < i ==> #[trigger] self@[j].title != title@,
            decreases self.text_nodes.len() - i,
        {
            if text::same_text(self.text_nodes[i].title.as_str(), title) {
                proof {
                    lemma_position_of(self@, title@);
                    assert(self@[i as int].title == title@);
                }
                return Some(i);
            }
            proof {
                assert(self@[i as int].title != title@);
            }
            i = i + 1;
        }
        proof {
            lemma_position_of(self@, title@);
        }
        None
    }

    /// Look a node up by its title.
    pub fn get(&self, title: &str) -> (found: Option<&TextNode>)
        ensures
            match found {
                Some(node) => position_of(self@, title@) is Some && *node
                    == self.text_nodes@[position_of(self@, title@)->0],
                None => position_of(self@, title@) is None,
            },
    {
        match self.position(title) {
            Some(i) => Some(&self.text_nodes[i]),
            None => None,
        }
    }

    /// Whether a wiki has a node with a title.
    pub fn contains(&self, title: &str) -> (result: bool)
        ensures
            result == has_title(self@, title@),
    {
        proof {
            lemma_position_of(self@, title@);
        }
        self.position(title).is_some()
    }
}

/// A link text without the escapes of its delimiters.
pub open spec fn unescaped(s: Seq<char>) -> Seq<char> {
    text::replaced(text::replaced(s, "\\["@, "["@), "\\]"@, "]"@)
}

/// A text with its link delimiters escaped.
pub open spec fn escaped(s: Seq<char>) -> Seq<char> {
    text::replaced(text::replaced(s, "["@, "\\["@), "]"@, "\\]"@)
}

/// One delimiter escaped.
spec fn with_escapes(s: Seq<char>, delimiter: char) -> Seq<char> {
    text::replaced(s, seq![delimiter], seq!['\\', delimiter])
}

/// One delimiter without its escapes.
spec fn without_escapes(s: Seq<char>, delimiter: char) -> Seq<char> {
    text::replaced(s, seq!['\\', delimiter], seq![delimiter])
}

/// Whether a text starts with an escaped delimiter.
spec fn starts_with_escape(s: Seq<char>, delimiter: char) -> bool {
    s.len() >= 2 && s[0] == '\\' && s[1] == delimiter
}

/// Escaping goes character by character.
proof fn lemma_with_escapes(s: Seq<char>, delimiter: char)
    requires
        s.len() > 0,
    ensures
        with_escapes(s, delimiter) == if s[0] == delimiter {
            seq!['\\', delimiter] + with_escapes(s.drop_first(), delimiter)
        } else {
            seq![s[0]] + with_escapes(s.drop_first(), delimiter)
        },
        with_escapes(s, delimiter).len() > 0,
        with_escapes(s, delimiter)[0] == if s[0] == delimiter {
            '\\'
        } else {
            s[0]
        },
{
    if s[0] == delimiter {
        assert(s.subrange(0, 1) =~= seq![delimiter]);
    } else {
        assert(s.subrange(0, 1)[0] == s[0]);
    }
    assert(s.skip(1) =~= s.drop_first());
}

/// Removing escapes goes character by character, or escape by escape.
proof fn lemma_without_escapes(s: Seq<char>, delimiter: char)
    requires
        s.len() > 0,
    ensures
        without_escapes(s, delimiter) == if starts_with_escape(s, delimiter) {
            seq![delimiter] + without_escapes(s.skip(2), delimiter)
        } else {
            seq![s[0]] + without_escapes(s.drop_first(), delimiter)
        },
{
    if starts_with_escape(s, delimiter) {
        assert(s.subrange(0, 2) =~= seq!['\\', delimiter]);
    } else if s.len() >= 2 {
        assert(s.subrange(0, 2)[0] == s[0]);
        assert(s.subrange(0, 2)[1] == s[1]);
    }
}

/// Removing the escapes of a delimiter undoes adding them.
proof fn lemma_escapes_undone(s: Seq<char>, delimiter: char)
    requires
        delimiter != '\\',
    ensures
        without_escapes(with_escapes(s, delimiter), delimiter) == s,
    decreases s.len(),
{
    if s.len() > 0 {
        let rest = s.drop_first();
        let inner = with_escapes(rest, delimiter);
        let outer = with_escapes(s, delimiter);
        lemma_with_escapes(s, delimiter);
        lemma_without_escapes(outer, delimiter);
        lemma_escapes_undone(rest, delimiter);
        if rest.len() > 0 {
            lemma_with_escapes(rest, delimiter);
        }
        if s[0] == delimiter {
            assert(outer.skip(2) =~= inner);
        } else {
            assert(outer.drop_first() =~= inner);
        }
        assert(seq![s[0]] + rest =~= s);
    }
}

/// Removing the escapes of one delimiter and adding those of another can change places.
proof fn lemma_escapes_apart(s: Seq<char>, a: char, b: char)
    requires
        a != '\\',
        b != '\\',
        a != b,
    ensures
        without_escapes(with_escapes(s, b), a) == with_escapes(without_escapes(s, a), b),
    decreases s.len(),
{
    if s.len() > 0 {
        let rest = s.drop_first();
        let escaped = with_escapes(s, b);
        lemma_with_escapes(s, b);
        lemma_without_escapes(s, a);
        lemma_without_escapes(escaped, a);
        if rest.len() > 0 {
            lemma_with_escapes(rest, b);
        }
        if starts_with_escape(s, a) {
            let tail = s.skip(2);
            lemma_escapes_apart(tail, a, b);
            assert(rest.drop_first() =~= tail);
            assert(escaped.skip(2) =~= with_escapes(tail, b));
            let right = seq![a] + without_escapes(tail, a);
            lemma_with_escapes(right, b);
            assert(right.drop_first() =~= without_escapes(tail, a));
        } else {
            lemma_escapes_apart(rest, a, b);
            let right = seq![s[0]] + without_escapes(rest, a);
            lemma_with_escapes(right, b);
            assert(right.drop_first() =~= without_escapes(rest, a));
            if s[0] == b {
                let after = escaped.drop_first();
                lemma_without_escapes(after, a);
                assert(after.drop_first() =~= with_escapes(rest, b));
                assert(seq!['\\'] + (seq![b] + without_escapes(with_escapes(rest, b), a))
                    =~= seq!['\\', b] + without_escapes(with_escapes(rest, b), a));
            } else {
                assert(escaped.drop_first() =~= with_escapes(rest, b));
            }
        }
    }
}

/// Removing the escapes of one delimiter adds no line break, and no space at the ends.
proof fn lemma_escapes_kept_ends(s: Seq<char>, delimiter: char)
    requires
        s.len() > 0,
        delimiter != '\n',
        forall|i: int| 0 <= i < s.len() ==> #[trigger] s[i] != '\n',
    ensures
        ({
            let rest = without_escapes(s, delimiter);
            &&& rest.len() > 0
            &&& rest[0] == s[0] || rest[0] == delimiter
            &&& rest.last() == s.last()
            &&& forall|i: int| 0 <= i < rest.len() ==> #[trigger] rest[i] != '\n'
        }),
    decreases s.len(),
{
    lemma_without_escapes(s, delimiter);
    let (first, tail) = if starts_with_escape(s, delimiter) {
        (delimiter, s.skip(2))
    } else {
        (s[0], s.drop_first())
    };
    if tail.len() > 0 {
        lemma_escapes_kept_ends(tail, delimiter);
    } else {
        assert(without_escapes(tail, delimiter).len() == 0);
    }
    let rest = without_escapes(s, delimiter);
    let more = without_escapes(tail, delimiter);
    assert(rest == seq![first] + more);
    assert forall|i: int| 0 <= i < rest.len() implies #[trigger] rest[i] != '\n' by {
        if i > 0 {
            assert(rest[i] == more[i - 1]);
        }
    }
}

/// One delimiter loses its escapes in two parts of a text as it does in the whole, unless the first part
/// ends with a backslash.
proof fn lemma_without_escapes_joined(a: Seq<char>, b: Seq<char>, delimiter: char)
    requires
        a.len() == 0 || a.last() != '\\',
        delimiter != '\\',
    ensures
        without_escapes(a + b, delimiter) == without_escapes(a, delimiter) + without_escapes(b, delimiter),
        a.len() > 0 ==> without_escapes(a, delimiter).len() > 0 && without_escapes(a, delimiter).last()
            == a.last(),
        a.len() == 0 ==> without_escapes(a, delimiter).len() == 0,
    decreases a.len(),
{
    let mine = without_escapes(a, delimiter);
    if a.len() == 0 {
        assert(a + b =~= b);
        assert(mine =~= Seq::<char>::empty());
        assert(mine + without_escapes(b, delimiter) =~= without_escapes(b, delimiter));
    } else {
        let t = a + b;
        lemma_without_escapes(a, delimiter);
        lemma_without_escapes(t, delimiter);
        assert(t[0] == a[0]);
        if a.len() >= 2 {
            assert(t[1] == a[1]);
        }
        if starts_with_escape(a, delimiter) {
            let rest = a.skip(2);
            assert(t.skip(2) =~= rest + b);
            lemma_without_escapes_joined(rest, b, delimiter);
            assert(without_escapes(t, delimiter) =~= mine + without_escapes(b, delimiter));
        } else {
            let rest = a.drop_first();
            assert(t.drop_first() =~= rest + b);
            lemma_without_escapes_joined(rest, b, delimiter);
            assert(without_escapes(t, delimiter) =~= mine + without_escapes(b, delimiter));
        }
    }
}

/// Link delimiters lose their escapes in two parts of a text as they do in the whole, unless the first
/// part ends with a backslash.
pub proof fn lemma_unescaped_joined(a: Seq<char>, b: Seq<char>)
    requires
        a.len() == 0 || a.last() != '\\',
    ensures
        unescaped(a + b) == unescaped(a) + unescaped(b),
        a.len() > 0 ==> unescaped(a).len() > 0 && unescaped(a).last() == a.last(),
        a.len() == 0 ==> unescaped(a).len() == 0,
{
    lemma_delimiters(a);
    lemma_delimiters(b);
    lemma_delimiters(a + b);
    lemma_without_escapes_joined(a, b, '[');
    lemma_without_escapes_joined(without_escapes(a, '['), without_escapes(b, '['), ']');
}

/// A line without space at its ends stays one without its escapes.
pub proof fn lemma_unescaped_line(s: Seq<char>)
    requires
        text::is_trimmed(s),
        forall|i: int| 0 <= i < s.len() ==> #[trigger] s[i] != '\n',
    ensures
        text::is_trimmed(unescaped(s)),
        forall|i: int| 0 <= i < unescaped(s).len() ==> #[trigger] unescaped(s)[i] != '\n',
{
    lemma_delimiters(s);
    if s.len() > 0 {
        lemma_escapes_kept_ends(s, '[');
        lemma_escapes_kept_ends(without_escapes(s, '['), ']');
    } else {
        assert(without_escapes(s, '[') =~= s);
        assert(without_escapes(s, ']') =~= s);
    }
}

/// A text without line feeds ends the same without its escapes.
pub proof fn lemma_unescaped_last(s: Seq<char>)
    requires
        s.len() > 0,
        forall|i: int| 0 <= i < s.len() ==> #[trigger] s[i] != '\n',
    ensures
        unescaped(s).len() > 0,
        unescaped(s).last() == s.last(),
{
    lemma_delimiters(s);
    lemma_escapes_kept_ends(s, '[');
    lemma_escapes_kept_ends(without_escapes(s, '['), ']');
}

/// There are no escapes in an empty text.
pub proof fn lemma_unescaped_empty()
    ensures
        unescaped(Seq::empty()).len() == 0,
{
    let s = Seq::<char>::empty();
    lemma_delimiters(s);
    assert(without_escapes(s, '[') =~= s);
    assert(without_escapes(s, ']') =~= s);
}

/// Both delimiters, escaped and not, are what the single ones make them.
proof fn lemma_delimiters(s: Seq<char>)
    ensures
        escaped(s) == with_escapes(with_escapes(s, '['), ']'),
        unescaped(s) == without_escapes(without_escapes(s, '['), ']'),
{
    reveal_strlit("[");
    reveal_strlit("]");
    reveal_strlit("\\[");
    reveal_strlit("\\]");
    assert("["@ =~= seq!['[']);
    assert("]"@ =~= seq![']']);
    assert("\\["@ =~= seq!['\\', '[']);
    assert("\\]"@ =~= seq!['\\', ']']);
}

/// A character as it stands in a text with escaped delimiters.
pub open spec fn escaped_char(c: char) -> Seq<char> {
    if c == '[' || c == ']' {
        seq!['\\', c]
    } else {
        seq![c]
    }
}

/// Escaping goes character by character.
proof fn lemma_escaped_step(s: Seq<char>)
    requires
        s.len() > 0,
    ensures
        escaped(s) == escaped_char(s[0]) + escaped(s.drop_first()),
{
    let rest = s.drop_first();
    lemma_delimiters(s);
    lemma_delimiters(rest);
    let opened = with_escapes(s, '[');
    let inner = with_escapes(rest, '[');
    lemma_with_escapes(s, '[');
    lemma_with_escapes(opened, ']');
    if s[0] == '[' {
        assert(opened.drop_first() =~= seq!['['] + inner);
        lemma_with_escapes(opened.drop_first(), ']');
        assert(opened.drop_first().drop_first() =~= inner);
        assert(seq!['\\'] + (seq!['['] + with_escapes(inner, ']')) =~= seq!['\\', '[']
            + with_escapes(inner, ']'));
    } else {
        assert(opened.drop_first() =~= inner);
    }
}

/// Escaping leaves a text without delimiters in front of another as it is.
proof fn lemma_escaped_prefix(prefix: Seq<char>, s: Seq<char>)
    requires
        forall|i: int| 0 <= i < prefix.len() ==> #[trigger] prefix[i] != '[' && prefix[i] != ']',
    ensures
        escaped(prefix + s) == prefix + escaped(s),
    decreases prefix.len(),
{
    if prefix.len() == 0 {
        assert(prefix + s =~= s);
        assert(prefix + escaped(s) =~= escaped(s));
    } else {
        let rest = prefix.drop_first();
        assert forall|i: int| 0 <= i < rest.len() implies #[trigger] rest[i] != '[' && rest[i]
            != ']' by {
            assert(rest[i] == prefix[i + 1]);
        }
        lemma_escaped_step(prefix + s);
        assert((prefix + s).drop_first() =~= rest + s);
        assert(prefix[0] != '[' && prefix[0] != ']');
        lemma_escaped_prefix(rest, s);
        assert(seq![prefix[0]] + (rest + escaped(s)) =~= prefix + escaped(s));
    }
}

/// What stands in a text with escaped delimiters: every delimiter has a backslash before it, there
/// are line feeds only where there were before, and the ends are the same but for a backslash before
/// a delimiter.
pub proof fn lemma_escaped_chars(s: Seq<char>)
    ensures
        forall|k: int|
            0 <= k < escaped(s).len() && (#[trigger] escaped(s)[k] == '[' || escaped(s)[k] == ']')
                ==> k > 0 && escaped(s)[k - 1] == '\\',
        (forall|i: int| 0 <= i < s.len() ==> #[trigger] s[i] != '\n') ==> (forall|k: int|
            0 <= k < escaped(s).len() ==> #[trigger] escaped(s)[k] != '\n'),
        s.len() == 0 <==> escaped(s).len() == 0,
        s.len() > 0 ==> escaped(s).last() == s.last() && escaped(s)[0] == escaped_char(s[0])[0],
    decreases s.len(),
{
    if s.len() == 0 {
        lemma_delimiters(s);
    } else {
        let rest = s.drop_first();
        let head = escaped_char(s[0]);
        lemma_escaped_step(s);
        lemma_escaped_chars(rest);
        let n = head.len() as int;
        assert forall|k: int|
            0 <= k < escaped(s).len() && (#[trigger] escaped(s)[k] == '[' || escaped(s)[k] == ']')
            implies k > 0 && escaped(s)[k - 1] == '\\' by {
            if k >= n {
                assert(escaped(s)[k] == escaped(rest)[k - n]);
                assert(escaped(s)[k - 1] == escaped(rest)[k - n - 1]);
            }
        }
        if forall|i: int| 0 <= i < s.len() ==> #[trigger] s[i] != '\n' {
            assert forall|i: int| 0 <= i < rest.len() implies #[trigger] rest[i] != '\n' by {
                assert(rest[i] == s[i + 1]);
            }
            assert(s[0] != '\n');
            assert forall|k: int| 0 <= k < escaped(s).len() implies #[trigger] escaped(s)[k]
                != '\n' by {
                if k >= n {
                    assert(escaped(s)[k] == escaped(rest)[k - n]);
                }
            }
        }
    }
}

/// Decoding escaped delimiters gives back what they were escaped in.
pub proof fn law_unescaping_undoes_escaping(s: Seq<char>)
    ensures
        unescaped(escaped(s)) == s,
{
    let opened = with_escapes(s, '[');
    lemma_delimiters(s);
    lemma_delimiters(escaped(s));
    lemma_escapes_apart(opened, '[', ']');
    lemma_escapes_undone(s, '[');
    lemma_escapes_undone(s, ']');
}

/// A filesystem link target is escaped by escaping its path.
pub proof fn law_escaping_leaves_link_prefixes(path: Seq<char>)
    ensures
        escaped("file:"@ + path) == "file:"@ + escaped(path),
        escaped("dir:"@ + path) == "dir:"@ + escaped(path),
        escaped("/"@ + path) == "/"@ + escaped(path),
{
    reveal_strlit("file:");
    reveal_strlit("dir:");
    lemma_escaped_prefix("file:"@, path);
    reveal_strlit("/");
    lemma_escaped_prefix("dir:"@, path);
    lemma_escaped_prefix("/"@, path);
}

/// Escape delimiters so an arbitrary node title or path retains its meaning inside a link.
pub fn escape_link_delimiters(source: &str) -> (result: String)
    ensures
        result@ == escaped(source@),
{
    let chars = text::chars_of(source);
    let opened = text::replace(chars.as_slice(), "[", "\\[");
    text::string_of(text::replace(opened.as_slice(), "]", "\\]").as_slice())
}

/// Decode escaped delimiters in link text, as the parser does.
pub fn unescape_link_delimiters(source: &str) -> (result: String)
    ensures
        result@ == unescaped(source@),
{
    let chars = text::chars_of(source);
    let opened = text::replace(chars.as_slice(), "\\[", "[");
    text::string_of(text::replace(opened.as_slice(), "\\]", "]").as_slice())
}

/// A node in the wiki's heading-and-content format.
pub open spec fn node_text(title: Seq<char>, content: Seq<char>) -> Seq<char> {
    if content.len() == 0 {
        "# "@ + title + "\n"@
    } else {
        "# "@ + title + "\n\n"@ + content + "\n"@
    }
}

impl TextNode {
    /// Render a node in the wiki's heading-and-content format.
    pub fn to_string(&self) -> (out: String)
        ensures
            out@ == node_text(self@.title, self@.content),
    {
        // Omit the content separator when there is no content.
        let mut out = String::new();
        out.append(TITLE_PREFIX);
        out.append(self.title.as_str());
        if !self.content.as_str().is_empty() {
            out.append("\n\n");
            out.append(self.content.as_str());
        }
        out.append("\n");
        proof {
            assert(out@ =~= node_text(self@.title, self@.content));
        }
        out
    }
}

/// The key that orders nodes by depth and then by title, with nodes that have no depth last.
pub open spec fn node_key(node: NodeView) -> Seq<u64> {
    let depth = match node.depth {
        Some(depth) => seq![0u64, depth as u64],
        None => seq![1u64, 0u64],
    };
    depth + order::text_key(node.title)
}

/// The keys that order the nodes of a wiki.
pub open spec fn node_keys(nodes: Seq<NodeView>) -> Seq<Seq<u64>> {
    nodes.map_values(|node: NodeView| node_key(node))
}

/// The nodes of a wiki by depth and then by title, with nodes that have no depth last.
pub open spec fn nodes_in_order(nodes: Seq<NodeView>) -> Seq<NodeView> {
    order::arranged(nodes, order::sort_order(node_keys(nodes)))
}

/// A wiki as text: its nodes in order, with an empty line between two nodes.
pub open spec fn wiki_text(nodes: Seq<NodeView>) -> Seq<char> {
    phrase::joined(
        nodes_in_order(nodes).map_values(|node: NodeView| node_text(node.title, node.content)),
        "\n"@,
    )
}

/// Compute the key of a node.
fn key_of_node(node: &TextNode) -> (key: Vec<u64>)
    ensures
        key@ == node_key(node@),
{
    let mut key: Vec<u64> = Vec::new();
    match node.depth {
        Some(depth) => {
            key.push(0);
            key.push(depth as u64);
        },
        None => {
            key.push(1);
            key.push(0);
        },
    }
    let ghost start = key@;
    let chars = text::chars_of(node.title.as_str());
    let mut title = order::key_of_text(chars.as_slice());
    key.append(&mut title);
    proof {
        assert(key@ =~= start + order::text_key(node.title@));
        assert(start =~= match node@.depth {
            Some(depth) => seq![0u64, depth as u64],
            None => seq![1u64, 0u64],
        });
    }
    key
}

impl Wiki {
    /// Find the order of the nodes by depth and then by title, with nodes that have no depth last.
    pub fn display_order(&self) -> (order: Vec<usize>)
        ensures
            order::index_views(order@) == order::sort_order(node_keys(self@)),
            order@.len() == self.text_nodes@.len(),
            forall|i: int|
                0 <= i < order@.len() ==> #[trigger] order@[i] < self.text_nodes@.len(),
    {
        let mut keys: Vec<Vec<u64>> = Vec::new();
        let mut i: usize = 0;
        while i < self.text_nodes.len()
            invariant
                i <= self.text_nodes@.len(),
                keys@.len() == i,
                forall|j: int| 0 <= j < i ==> #[trigger] keys@[j]@ == node_key(self@[j]),
            decreases self.text_nodes.len() - i,
        {
            keys.push(key_of_node(&self.text_nodes[i]));
            i = i + 1;
        }
        proof {
            assert(order::key_views(keys@) =~= node_keys(self@));
        }
        order::sort(&keys)
    }

    /// Render a wiki deterministically: nodes in depth order with titles breaking ties.
    pub fn to_string(&self) -> (out: String)
        ensures
            out@ == wiki_text(self@),
    {
        let order = self.display_order();
        let mut texts: Vec<String> = Vec::new();
        let mut i: usize = 0;
        while i < order.len()
            invariant
                i <= order@.len(),
                texts@.len() == i,
                forall|j: int|
                    0 <= j < order@.len() ==> #[trigger] order@[j] < self.text_nodes@.len(),
                forall|j: int|
                    0 <= j < i ==> #[trigger] texts@[j]@ == node_text(
                        self@[order@[j] as int].title,
                        self@[order@[j] as int].content,
                    ),
            decreases order.len() - i,
        {
            texts.push(self.text_nodes[order[i]].to_string());
            i = i + 1;
        }
        proof {
            let indices = order::index_views(order@);
            let nodes = order::arranged(self@, indices);
            assert forall|j: int| 0 <= j < order@.len() implies #[trigger] nodes[j]
                == self@[order@[j] as int] by {
                assert(indices[j] == order@[j] as int);
            }
            assert(phrase::text_views(texts@) =~= nodes.map_values(
                |node: NodeView| node_text(node.title, node.content),
            ));
        }
        phrase::join(&texts, "\n")
    }
}

/// The keys that order the nodes of a wiki by title.
pub open spec fn title_keys(nodes: Seq<NodeView>) -> Seq<Seq<u64>> {
    nodes.map_values(|node: NodeView| order::text_key(node.title))
}

/// The nodes of a wiki by title.
pub open spec fn nodes_by_title(nodes: Seq<NodeView>) -> Seq<NodeView> {
    order::arranged(nodes, order::sort_order(title_keys(nodes)))
}

impl Wiki {
    /// Find the order of the nodes by title.
    pub fn title_order(&self) -> (order: Vec<usize>)
        ensures
            order@.len() == self@.len(),
            nodes_by_title(self@).len() == self@.len(),
            forall|i: int|
                0 <= i < order@.len() ==> {
                    &&& #[trigger] order@[i] < self.text_nodes@.len()
                    &&& self.text_nodes@[order@[i] as int]@ == nodes_by_title(self@)[i]
                },
    {
        let mut keys: Vec<Vec<u64>> = Vec::new();
        let mut i: usize = 0;
        while i < self.text_nodes.len()
            invariant
                i <= self.text_nodes@.len(),
                keys@.len() == i,
                forall|j: int|
                    0 <= j < i ==> #[trigger] keys@[j]@ == order::text_key(self@[j].title),
            decreases self.text_nodes.len() - i,
        {
            let chars = text::chars_of(self.text_nodes[i].title.as_str());
            keys.push(order::key_of_text(chars.as_slice()));
            i = i + 1;
        }
        proof {
            assert(order::key_views(keys@) =~= title_keys(self@));
        }
        let order = order::sort(&keys);
        proof {
            let indices = order::index_views(order@);
            assert forall|j: int| 0 <= j < order@.len() implies self.text_nodes@[(
            #[trigger] order@[j]) as int]@ == nodes_by_title(self@)[j] by {
                assert(indices[j] == order@[j] as int);
            }
        }
        order
    }
}

} // verus!
