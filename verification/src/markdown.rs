//! Markdown previews of text nodes.

use vstd::prelude::*;
use vstd::string::StringExecFns;

use crate::text;
use crate::wiki;
use crate::wiki::Link;
use crate::wiki::LinkView;
use crate::wiki::TextNode;

verus! {

/// How a character is written so that Markdown shows it literally.
pub open spec fn entity(c: char) -> Seq<char> {
    if c == '&' {
        "&amp;"@
    } else if c == '<' {
        "&lt;"@
    } else if c == '>' {
        "&gt;"@
    } else if c == '\\' {
        "&#92;"@
    } else if c == '`' {
        "&#96;"@
    } else if c == '*' {
        "&#42;"@
    } else if c == '_' {
        "&#95;"@
    } else if c == '[' {
        "&#91;"@
    } else if c == ']' {
        "&#93;"@
    } else if c == '~' {
        "&#126;"@
    } else if c == '#' {
        "&#35;"@
    } else {
        seq![c]
    }
}

/// A text that Markdown shows literally.
pub open spec fn literal(s: Seq<char>) -> Seq<char>
    decreases s.len(),
{
    if s.len() == 0 {
        Seq::empty()
    } else {
        literal(s.drop_last()) + entity(s.last())
    }
}

/// Prose with entities in place of escaped link delimiters.
pub open spec fn prose(s: Seq<char>) -> Seq<char> {
    text::replaced(text::replaced(s, "\\["@, "&#91;"@), "\\]"@, "&#93;"@)
}

/// A text link as bracketed text, with a destination if there is one.
pub open spec fn text_link(target: Seq<char>, url: Option<Seq<char>>) -> Seq<char> {
    let label = "&#91;"@ + literal(wiki::unescaped(target)) + "&#93;"@;
    match url {
        Some(url) => "["@ + label + "]("@ + url + ")"@,
        None => label,
    }
}

/// The number of backticks at the end of a text.
pub open spec fn trailing_backticks(s: Seq<char>) -> nat
    decreases s.len(),
{
    if s.len() > 0 && s.last() == '`' {
        trailing_backticks(s.drop_last()) + 1
    } else {
        0
    }
}

/// The number of backticks in the longest run of them in a text.
pub open spec fn longest_backticks(s: Seq<char>) -> nat
    decreases s.len(),
{
    if s.len() == 0 {
        0
    } else {
        let rest = longest_backticks(s.drop_last());
        if trailing_backticks(s) > rest {
            trailing_backticks(s)
        } else {
            rest
        }
    }
}

/// No run of backticks in a text is longer than the longest one, so a longer fence cannot end early.
pub proof fn law_longest_backticks(s: Seq<char>, a: int, b: int)
    requires
        0 <= a <= b <= s.len(),
        forall|i: int| a <= i < b ==> #[trigger] s[i] == '`',
    ensures
        b - a <= longest_backticks(s),
    decreases s.len(),
{
    if s.len() > 0 {
        if b < s.len() {
            assert forall|i: int| a <= i < b implies #[trigger] s.drop_last()[i] == '`' by {
                assert(s.drop_last()[i] == s[i]);
            }
            law_longest_backticks(s.drop_last(), a, b);
        } else {
            lemma_trailing_backticks(s, a);
        }
    }
}

proof fn lemma_trailing_backticks(s: Seq<char>, a: int)
    requires
        0 <= a <= s.len(),
        forall|i: int| a <= i < s.len() ==> #[trigger] s[i] == '`',
    ensures
        s.len() - a <= trailing_backticks(s),
    decreases s.len(),
{
    if a < s.len() {
        assert(s[s.len() - 1] == '`');
        assert forall|i: int| a <= i < s.len() - 1 implies #[trigger] s.drop_last()[i] == '`' by {
            assert(s.drop_last()[i] == s[i]);
        }
        lemma_trailing_backticks(s.drop_last(), a);
    }
}

/// A filesystem link as inline code between fences that are longer than every run of backticks in
/// the code, with a destination if there is one.
pub open spec fn filesystem_link(target: Seq<char>, url: Option<Seq<char>>) -> Seq<char> {
    let source = "["@ + wiki::unescaped(target) + "]"@;
    let fence = text::repeated('`', longest_backticks(source) + 1);
    let code = fence + source + fence;
    match url {
        Some(url) => "["@ + code + "](<"@ + url + ">)"@,
        None => code,
    }
}

/// Whether the character at an index is a link delimiter that no backslash escapes.
pub open spec fn delimiter_at(s: Seq<char>, i: int, delimiter: char) -> bool {
    &&& 0 <= i < s.len()
    &&& s[i] == delimiter
    &&& !(i > 0 && s[i - 1] == '\\')
}

/// The last opening delimiter before an index that no closing delimiter follows.
pub open spec fn last_open(s: Seq<char>, i: int) -> Option<int>
    decreases i,
{
    if i <= 0 {
        None
    } else if delimiter_at(s, i - 1, '[') {
        Some(i - 1)
    } else if delimiter_at(s, i - 1, ']') {
        None
    } else {
        last_open(s, i - 1)
    }
}

/// Whether a link ends at an index.
pub open spec fn link_ends_at(s: Seq<char>, i: int) -> bool {
    delimiter_at(s, i, ']') && last_open(s, i) is Some
}

/// The number of links that end before an index.
pub open spec fn links_before(s: Seq<char>, i: int) -> nat
    decreases i,
{
    if i <= 0 {
        0
    } else if link_ends_at(s, i - 1) {
        links_before(s, i - 1) + 1
    } else {
        links_before(s, i - 1)
    }
}

/// The index after the last link that ends before an index.
pub open spec fn prose_start(s: Seq<char>, i: int) -> int
    decreases i,
{
    if i <= 0 {
        0
    } else if link_ends_at(s, i - 1) {
        i
    } else {
        prose_start(s, i - 1)
    }
}

/// The link with a number, with its destination. A link that the node does not list counts as a
/// text link without a destination.
pub open spec fn numbered_link(
    target: Seq<char>,
    links: Seq<LinkView>,
    urls: Seq<Option<Seq<char>>>,
    number: nat,
) -> Seq<char> {
    if number < links.len() && number < urls.len() {
        match links[number as int] {
            LinkView::Text { title, span } => text_link(target, urls[number as int]),
            LinkView::File { path, span } => filesystem_link(target, urls[number as int]),
            LinkView::Directory { path, span } => filesystem_link(target, urls[number as int]),
        }
    } else {
        text_link(target, None)
    }
}

/// The content of a node as Markdown up to the last link that ends before an index.
pub open spec fn rendered_before(
    s: Seq<char>,
    links: Seq<LinkView>,
    urls: Seq<Option<Seq<char>>>,
    i: int,
) -> Seq<char>
    decreases i,
{
    if i <= 0 {
        Seq::empty()
    } else {
        let before = rendered_before(s, links, urls, i - 1);
        match last_open(s, i - 1) {
            Some(start) => if delimiter_at(s, i - 1, ']') {
                before + prose(s.subrange(prose_start(s, i - 1), start)) + numbered_link(
                    s.subrange(start + 1, i - 1),
                    links,
                    urls,
                    links_before(s, i - 1),
                )
            } else {
                before
            },
            None => before,
        }
    }
}

/// The content of a node as Markdown.
pub open spec fn rendered_content(
    s: Seq<char>,
    links: Seq<LinkView>,
    urls: Seq<Option<Seq<char>>>,
) -> Seq<char> {
    let n = s.len() as int;
    rendered_before(s, links, urls, n) + prose(s.subrange(prose_start(s, n), n))
}

/// A node as Markdown.
pub open spec fn node_markdown(
    title: Seq<char>,
    content: Seq<char>,
    links: Seq<LinkView>,
    urls: Seq<Option<Seq<char>>>,
) -> Seq<char> {
    let body = rendered_content(content, links, urls);
    if body.len() == 0 {
        "# "@ + literal(title)
    } else {
        "# "@ + literal(title) + "\n\n"@ + body
    }
}

/// The text of an optional destination.
pub open spec fn url_view(url: Option<String>) -> Option<Seq<char>> {
    match url {
        Some(url) => Some(url@),
        None => None,
    }
}

/// The destinations in a vector.
pub open spec fn url_views(urls: Seq<Option<String>>) -> Seq<Option<Seq<char>>> {
    urls.map_values(|url: Option<String>| url_view(url))
}

/// The smaller of two numbers.
pub open spec fn min(a: nat, b: nat) -> nat {
    if a < b {
        a
    } else {
        b
    }
}

/// Hide delimiter escapes in prose while preserving any intentional Markdown formatting.
fn render_markdown_prose(source: &[char]) -> (result: String)
    ensures
        result@ == prose(source@),
{
    let opened = text::replace(source, "\\[", "&#91;");
    text::string_of(text::replace(opened.as_slice(), "\\]", "&#93;").as_slice())
}

/// Render plain text literally in Markdown by replacing its syntax characters with entities. This
/// includes `#`, since a trailing sequence of them would otherwise close a heading.
pub fn render_markdown_literal(source: &str) -> (rendered: String)
    ensures
        rendered@ == literal(source@),
{
    let chars = text::chars_of(source);
    let mut rendered = String::new();
    let mut i: usize = 0;
    while i < chars.len()
        invariant
            chars@ == source@,
            i <= chars@.len(),
            rendered@ == literal(chars@.take(i as int)),
        decreases chars.len() - i,
    {
        let c = chars[i];
        proof {
            assert(chars@.take(i + 1).drop_last() =~= chars@.take(i as int));
        }
        if c == '&' {
            rendered.append("&amp;");
        } else if c == '<' {
            rendered.append("&lt;");
        } else if c == '>' {
            rendered.append("&gt;");
        } else if c == '\\' {
            rendered.append("&#92;");
        } else if c == '`' {
            rendered.append("&#96;");
        } else if c == '*' {
            rendered.append("&#42;");
        } else if c == '_' {
            rendered.append("&#95;");
        } else if c == '[' {
            rendered.append("&#91;");
        } else if c == ']' {
            rendered.append("&#93;");
        } else if c == '~' {
            rendered.append("&#126;");
        } else if c == '#' {
            rendered.append("&#35;");
        } else {
            rendered.push(c);
        }
        proof {
            assert(rendered@ =~= literal(chars@.take(i as int)) + entity(c));
        }
        i = i + 1;
    }
    proof {
        assert(chars@.take(i as int) =~= chars@);
    }
    rendered
}

/// Render a text link as ordinary bracketed text with an optional Markdown destination.
fn render_markdown_text_link(target: &str, url: &Option<String>) -> (result: String)
    ensures
        result@ == text_link(target@, url_view(*url)),
{
    // Keep Markdown punctuation in node titles from changing the rendered label, and retain the
    // visible link delimiters inside the clickable region.
    let mut label = String::new();
    label.append("&#91;");
    label.append(
        render_markdown_literal(wiki::unescape_link_delimiters(target).as_str()).as_str(),
    );
    label.append("&#93;");
    proof {
        assert(label@ =~= "&#91;"@ + literal(wiki::unescaped(target@)) + "&#93;"@);
    }
    match url {
        Some(url) => {
            let mut result = String::new();
            result.append("[");
            result.append(label.as_str());
            result.append("](");
            result.append(url.as_str());
            result.append(")");
            proof {
                assert(result@ =~= "["@ + label@ + "]("@ + url@ + ")"@);
            }
            result
        },
        None => label,
    }
}

/// Find the number of backticks in the longest run of them.
fn find_longest_backticks(chars: &[char]) -> (longest: usize)
    ensures
        longest == longest_backticks(chars@),
        longest <= chars@.len(),
{
    let mut longest: usize = 0;
    let mut run: usize = 0;
    let mut i: usize = 0;
    while i < chars.len()
        invariant
            i <= chars@.len(),
            run <= i,
            longest <= i,
            run == trailing_backticks(chars@.take(i as int)),
            longest == longest_backticks(chars@.take(i as int)),
        decreases chars.len() - i,
    {
        proof {
            assert(chars@.take(i + 1).drop_last() =~= chars@.take(i as int));
        }
        if chars[i] == '`' {
            run = run + 1;
        } else {
            run = 0;
        }
        if run > longest {
            longest = run;
        }
        i = i + 1;
    }
    proof {
        assert(chars@.take(i as int) =~= chars@);
    }
    longest
}

/// Render a filesystem link as inline code without exposing delimiter escapes, linking it to an
/// optional destination.
fn render_markdown_filesystem_link(target: &str, url: &Option<String>) -> (result: String)
    ensures
        result@ == filesystem_link(target@, url_view(*url)),
{
    // Use a fence longer than every backtick run occurring in the link text.
    let mut source = String::new();
    source.append("[");
    source.append(wiki::unescape_link_delimiters(target).as_str());
    source.append("]");
    proof {
        assert(source@ =~= "["@ + wiki::unescaped(target@) + "]"@);
    }
    let chars = text::chars_of(source.as_str());
    let longest_run = find_longest_backticks(chars.as_slice());
    let mut fence = String::new();
    text::push_repeated(&mut fence, '`', longest_run);
    fence.push('`');
    proof {
        assert(fence@ =~= text::repeated('`', longest_backticks(source@) + 1));
    }

    // The surrounding brackets keep the content distinct from either side of the fence, and angle
    // brackets let the destination contain characters such as parentheses.
    let mut code = String::new();
    code.append(fence.as_str());
    code.append(source.as_str());
    code.append(fence.as_str());
    proof {
        assert(code@ =~= fence@ + source@ + fence@);
    }
    match url {
        Some(url) => {
            let mut result = String::new();
            result.append("[");
            result.append(code.as_str());
            result.append("](<");
            result.append(url.as_str());
            result.append(">)");
            proof {
                assert(result@ =~= "["@ + code@ + "](<"@ + url@ + ">)"@);
            }
            result
        },
        None => code,
    }
}

/// What is rendered up to an index does not depend on the destinations of later links.
proof fn lemma_rendered_before_push(
    s: Seq<char>,
    links: Seq<LinkView>,
    urls: Seq<Option<Seq<char>>>,
    url: Option<Seq<char>>,
    i: int,
)
    requires
        links_before(s, i) <= urls.len(),
    ensures
        rendered_before(s, links, urls, i) == rendered_before(s, links, urls.push(url), i),
    decreases i,
{
    if i > 0 {
        lemma_rendered_before_push(s, links, urls, url, i - 1);
        if link_ends_at(s, i - 1) {
            assert(urls.push(url)[links_before(s, i - 1) as int] == urls[links_before(
                s,
                i - 1,
            ) as int]);
        }
    }
}

proof fn lemma_link_bounds(s: Seq<char>, i: int)
    requires
        0 <= i <= s.len(),
    ensures
        0 <= prose_start(s, i) <= i,
        links_before(s, i) <= i,
        match last_open(s, i) {
            Some(start) => prose_start(s, i) <= start < i,
            None => true,
        },
    decreases i,
{
    if i > 0 {
        lemma_link_bounds(s, i - 1);
    }
}

impl TextNode {
    /// Render the node for a Markdown preview without exposing delimiter escapes, linking each link
    /// to the destination the callback provides, if any.
    pub fn to_markdown<F>(&self, link_url: F) -> (out: String) where F: Fn(&Link) -> Option<String>
        requires
            forall|i: int|
                0 <= i < self.links@.len() ==> link_url.requires((&#[trigger] self.links@[i],)),
        ensures
            exists|urls: Seq<Option<String>>|
                {
                    &&& urls.len() == min(
                        links_before(self@.content, self@.content.len() as int),
                        self@.links.len(),
                    )
                    &&& forall|i: int|
                        0 <= i < urls.len() ==> link_url.ensures(
                            (&self.links@[i],),
                            #[trigger] urls[i],
                        )
                    &&& out@ == node_markdown(
                        self@.title,
                        self@.content,
                        self@.links,
                        #[trigger] url_views(urls),
                    )
                },
    {
        // Render each parsed link with its semantic destination while retaining surrounding prose.
        let chars = text::chars_of(self.content.as_str());
        let ghost s = self@.content;
        let ghost links = self@.links;
        let mut urls: Vec<Option<String>> = Vec::new();
        let mut content = String::new();
        let mut copied_through: usize = 0;
        let mut link_start: Option<usize> = None;
        let mut count: usize = 0;
        let mut i: usize = 0;
        while i < chars.len()
            invariant
                chars@ == s,
                s == self@.content,
                links == self@.links,
                i <= chars@.len(),
                count == links_before(s, i as int),
                count <= i,
                copied_through == prose_start(s, i as int),
                copied_through <= i,
                urls@.len() == min(count as nat, links.len()),
                content@ == rendered_before(s, links, url_views(urls@), i as int),
                match link_start {
                    Some(start) => last_open(s, i as int) == Some(start as int)
                        && copied_through <= start < i,
                    None => last_open(s, i as int) is None,
                },
                forall|j: int|
                    0 <= j < self.links@.len() ==> link_url.requires((&#[trigger] self.links@[j],)),
                forall|j: int|
                    0 <= j < urls@.len() ==> link_url.ensures(
                        (&self.links@[j],),
                        #[trigger] urls@[j],
                    ),
            decreases chars.len() - i,
        {
            proof {
                lemma_link_bounds(s, i as int);
                lemma_link_bounds(s, i + 1);
            }
            let is_escaped = i > 0 && chars[i - 1] == '\\';
            let c = chars[i];
            if c == '[' && !is_escaped {
                link_start = Some(i);
            } else if c == ']' && !is_escaped {
                if let Some(start) = link_start {
                    let before = text::slice_of(chars.as_slice(), copied_through, start);
                    let target = text::string_of(
                        text::slice_of(chars.as_slice(), start + 1, i).as_slice(),
                    );
                    let ghost earlier = content@;
                    let ghost old_urls = url_views(urls@);
                    content.append(render_markdown_prose(before.as_slice()).as_str());
                    let rendered;
                    if count < self.links.len() {
                        let link = &self.links[count];
                        let url = link_url(link);
                        rendered = match link {
                            Link::Text { title, source_range } => render_markdown_text_link(
                                target.as_str(),
                                &url,
                            ),
                            Link::File { path, source_range } => render_markdown_filesystem_link(
                                target.as_str(),
                                &url,
                            ),
                            Link::Directory { path, source_range } =>
                            render_markdown_filesystem_link(target.as_str(), &url),
                        };
                        urls.push(url);
                        proof {
                            assert(url_views(urls@) =~= old_urls.push(url_view(url)));
                            lemma_rendered_before_push(
                                s,
                                links,
                                old_urls,
                                url_view(url),
                                i as int,
                            );
                        }
                    } else {
                        rendered = render_markdown_text_link(target.as_str(), &None);
                    }
                    content.append(rendered.as_str());
                    proof {
                        assert(rendered@ == numbered_link(
                            s.subrange(start + 1, i as int),
                            links,
                            url_views(urls@),
                            count as nat,
                        ));
                        assert(content@ =~= earlier + prose(
                            s.subrange(copied_through as int, start as int),
                        ) + rendered@);
                    }
                    count = count + 1;
                    copied_through = i + 1;
                    link_start = None;
                }
            }
            i = i + 1;
        }
        let rest = text::slice_of(chars.as_slice(), copied_through, chars.len());
        content.append(render_markdown_prose(rest.as_slice()).as_str());
        proof {
            assert(content@ =~= rendered_content(s, links, url_views(urls@)));
        }

        // Preserve the same title-and-content shape as the wiki format without a trailing line.
        let mut out = String::new();
        out.append(wiki::TITLE_PREFIX);
        out.append(render_markdown_literal(self.title.as_str()).as_str());
        if !content.as_str().is_empty() {
            out.append("\n\n");
            out.append(content.as_str());
        }
        proof {
            assert(out@ =~= node_markdown(self@.title, s, links, url_views(urls@)));
        }
        out
    }
}

} // verus!
