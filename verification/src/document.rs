//! Documents: nodes with links that have no source locations.

use vstd::prelude::*;
use vstd::string::StringExecFns;

use crate::order;
use crate::phrase;
use crate::text;
use crate::wiki;

verus! {

/// What a node links to: another node, a file or a directory.
#[derive(Clone, Debug)]
pub enum Link {
    Text(String),
    File(String),
    Directory(String),
}

/// The contents of a link.
pub enum LinkView {
    Text(Seq<char>),
    File(Seq<char>),
    Directory(Seq<char>),
}

impl View for Link {
    type V = LinkView;

    open spec fn view(&self) -> LinkView {
        match self {
            Link::Text(title) => LinkView::Text(title@),
            Link::File(path) => LinkView::File(path@),
            Link::Directory(path) => LinkView::Directory(path@),
        }
    }
}

/// The links in a vector.
pub open spec fn link_views(links: Seq<Link>) -> Seq<LinkView> {
    links.map_values(|link: Link| link@)
}

/// A node in a document.
#[derive(Clone, Debug)]
pub struct Node {
    pub title: String,  // Nonempty, no line breaks, and no leading or trailing whitespace
    pub content: String,  // No leading or trailing whitespace
    pub links: Vec<Link>,
    pub depth: Option<usize>,  // Minimum text-link distance from the root
}

/// The contents of a node.
pub struct NodeView {
    pub title: Seq<char>,
    pub content: Seq<char>,
    pub links: Seq<LinkView>,
    pub depth: Option<nat>,
}

impl View for Node {
    type V = NodeView;

    open spec fn view(&self) -> NodeView {
        NodeView {
            title: self.title@,
            content: self.content@,
            links: link_views(self.links@),
            depth: wiki::depth_view(self.depth),
        }
    }
}

/// A parsed document.
#[derive(Clone, Debug)]
pub struct Document {
    pub nodes: Vec<Node>,
}

impl View for Document {
    type V = Seq<NodeView>;

    open spec fn view(&self) -> Seq<NodeView> {
        self.nodes@.map_values(|node: Node| node@)
    }
}

impl Default for Document {
    /// The document without any nodes.
    fn default() -> (document: Document)
        ensures
            document@ == Seq::<NodeView>::empty(),
    {
        let document = Document { nodes: Vec::new() };
        proof {
            assert(document@ =~= Seq::<NodeView>::empty());
        }
        document
    }
}

/// Whether some node has a title.
pub open spec fn has_title(nodes: Seq<NodeView>, title: Seq<char>) -> bool {
    exists|i: int| 0 <= i < nodes.len() && #[trigger] nodes[i].title == title
}

/// The keys that order the nodes of a document by title.
pub open spec fn title_keys(nodes: Seq<NodeView>) -> Seq<Seq<u64>> {
    nodes.map_values(|node: NodeView| order::text_key(node.title))
}

/// The nodes of a document by title.
pub open spec fn nodes_by_title(nodes: Seq<NodeView>) -> Seq<NodeView> {
    order::arranged(nodes, order::sort_order(title_keys(nodes)))
}

/// A document as text: its nodes by title, with an empty line between two nodes.
pub open spec fn document_text(nodes: Seq<NodeView>) -> Seq<char> {
    phrase::joined(
        nodes_by_title(nodes).map_values(
            |node: NodeView| wiki::node_text(node.title, node.content),
        ),
        "\n"@,
    )
}

impl Node {
    /// Render a node in the document's heading-and-content format.
    pub fn to_string(&self) -> (out: String)
        ensures
            out@ == wiki::node_text(self@.title, self@.content),
    {
        // Omit the content separator when there is no content.
        let mut out = String::new();
        out.append("# ");
        out.append(self.title.as_str());
        if !self.content.as_str().is_empty() {
            out.append("\n\n");
            out.append(self.content.as_str());
        }
        out.append("\n");
        proof {
            assert(out@ =~= wiki::node_text(self@.title, self@.content));
        }
        out
    }
}

impl Document {
    /// Find a node by its title.
    pub fn position(&self, title: &str) -> (found: Option<usize>)
        ensures
            match found {
                Some(i) => i < self@.len() && self@[i as int].title == title@ && forall|j: int|
                    0 <= j < i ==> #[trigger] self@[j].title != title@,
                None => !has_title(self@, title@),
            },
    {
        let mut i: usize = 0;
        while i < self.nodes.len()
            invariant
                i <= self.nodes@.len(),
                forall|j: int| 0 <= j < i ==> #[trigger] self@[j].title != title@,
            decreases self.nodes.len() - i,
        {
            proof {
                assert(self@[i as int].title == self.nodes@[i as int].title@);
            }
            if text::same_text(self.nodes[i].title.as_str(), title) {
                return Some(i);
            }
            i = i + 1;
        }
        None
    }

    /// Find the order of the nodes by title.
    pub fn title_order(&self) -> (order: Vec<usize>)
        ensures
            order@.len() == self@.len(),
            nodes_by_title(self@).len() == self@.len(),
            forall|i: int|
                0 <= i < order@.len() ==> {
                    &&& #[trigger] order@[i] < self.nodes@.len()
                    &&& self.nodes@[order@[i] as int]@ == nodes_by_title(self@)[i]
                },
    {
        let mut keys: Vec<Vec<u64>> = Vec::new();
        let mut i: usize = 0;
        while i < self.nodes.len()
            invariant
                i <= self.nodes@.len(),
                keys@.len() == i,
                forall|j: int|
                    0 <= j < i ==> #[trigger] keys@[j]@ == order::text_key(self@[j].title),
            decreases self.nodes.len() - i,
        {
            let chars = text::chars_of(self.nodes[i].title.as_str());
            keys.push(order::key_of_text(chars.as_slice()));
            i = i + 1;
        }
        proof {
            assert(order::key_views(keys@) =~= title_keys(self@));
        }
        let order = order::sort(&keys);
        proof {
            let indices = order::index_views(order@);
            assert forall|j: int| 0 <= j < order@.len() implies self.nodes@[(
            #[trigger] order@[j]) as int]@ == nodes_by_title(self@)[j] by {
                assert(indices[j] == order@[j] as int);
            }
        }
        order
    }

    /// Render a document deterministically in title order.
    pub fn to_string(&self) -> (out: String)
        ensures
            out@ == document_text(self@),
    {
        let order = self.title_order();
        let mut texts: Vec<String> = Vec::new();
        let mut i: usize = 0;
        while i < order.len()
            invariant
                i <= order@.len(),
                texts@.len() == i,
                forall|j: int|
                    0 <= j < order@.len() ==> {
                        &&& #[trigger] order@[j] < self.nodes@.len()
                        &&& self.nodes@[order@[j] as int]@ == nodes_by_title(self@)[j]
                    },
                forall|j: int|
                    0 <= j < i ==> #[trigger] texts@[j]@ == wiki::node_text(
                        nodes_by_title(self@)[j].title,
                        nodes_by_title(self@)[j].content,
                    ),
            decreases order.len() - i,
        {
            texts.push(self.nodes[order[i]].to_string());
            i = i + 1;
        }
        proof {
            assert(phrase::text_views(texts@) =~= nodes_by_title(self@).map_values(
                |node: NodeView| wiki::node_text(node.title, node.content),
            ));
        }
        phrase::join(&texts, "\n")
    }
}

/// A document renders the same in whatever order it holds its nodes.
pub proof fn law_document_rendering_ignores_order(nodes: Seq<NodeView>, permutation: Seq<int>)
    requires
        forall|i: int, j: int|
            #![trigger nodes[i], nodes[j]]
            0 <= i < j < nodes.len() ==> nodes[i].title != nodes[j].title,
        order::is_permutation(permutation, nodes.len()),
    ensures
        document_text(order::arranged(nodes, permutation)) == document_text(nodes),
{
    let moved = order::arranged(nodes, permutation);
    let keys = title_keys(nodes);
    assert forall|i: int, j: int|
        #![trigger keys[i], keys[j]]
        0 <= i < j < keys.len() implies keys[i] != keys[j] by {
        if keys[i] == keys[j] {
            order::lemma_text_key_injective(nodes[i].title, nodes[j].title);
            assert(nodes[i].title == nodes[j].title);
        }
    }
    assert(title_keys(moved) =~= order::arranged(keys, permutation)) by {
        assert forall|i: int| 0 <= i < moved.len() implies #[trigger] title_keys(moved)[i]
            == order::arranged(keys, permutation)[i] by {
            assert(0 <= permutation[i] < nodes.len());
        }
    }
    order::lemma_sorting_ignores_order(nodes, keys, permutation);
}

} // verus!
