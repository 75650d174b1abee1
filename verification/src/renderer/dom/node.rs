//! The nodes of a document and the arena that holds them as a tree.
//!
//! To the contracts a tree is the sequence of its nodes, each with its
//! content and the index of its parent. The links that the nodes carry for
//! going through the tree are held to that sequence: each names what its
//! name says.

use crate::renderer::html::attribute::{
    attribute_views, clone_attributes, Attribute, AttributeView,
};
use crate::text::{spells, to_chars};
use vstd::prelude::*;

verus! {

/// The tags that the tree constructor knows.
#[derive(Debug, Clone, Copy, PartialEq, Eq, Hash, Structural)]
pub enum ElementKind {
    Html,
    Head,
    Style,
    Script,
    Body,
    P,
    H1,
    H2,
    A,
}

/// The kind that a tag name stands for, or `None` for a name that the tree
/// constructor does not know. Names are compared as they are written.
pub open spec fn kind_of_tag(tag: Seq<char>) -> Option<ElementKind> {
    if tag == "html"@ {
        Some(ElementKind::Html)
    } else if tag == "head"@ {
        Some(ElementKind::Head)
    } else if tag == "style"@ {
        Some(ElementKind::Style)
    } else if tag == "script"@ {
        Some(ElementKind::Script)
    } else if tag == "body"@ {
        Some(ElementKind::Body)
    } else if tag == "p"@ {
        Some(ElementKind::P)
    } else if tag == "h1"@ {
        Some(ElementKind::H1)
    } else if tag == "h2"@ {
        Some(ElementKind::H2)
    } else if tag == "a"@ {
        Some(ElementKind::A)
    } else {
        None
    }
}

/// Each of the nine known tags stands for its own kind.
pub proof fn lemma_known_tags()
    ensures
        kind_of_tag("html"@) == Some(ElementKind::Html),
        kind_of_tag("head"@) == Some(ElementKind::Head),
        kind_of_tag("style"@) == Some(ElementKind::Style),
        kind_of_tag("script"@) == Some(ElementKind::Script),
        kind_of_tag("body"@) == Some(ElementKind::Body),
        kind_of_tag("p"@) == Some(ElementKind::P),
        kind_of_tag("h1"@) == Some(ElementKind::H1),
        kind_of_tag("h2"@) == Some(ElementKind::H2),
        kind_of_tag("a"@) == Some(ElementKind::A),
{
    reveal_strlit("html");
    reveal_strlit("head");
    reveal_strlit("style");
    reveal_strlit("script");
    reveal_strlit("body");
    reveal_strlit("p");
    reveal_strlit("h1");
    reveal_strlit("h2");
    reveal_strlit("a");
    assert("html"@[1] != "head"@[1]);
    assert("body"@[0] != "html"@[0] && "body"@[0] != "head"@[0]);
    assert("h1"@[1] != "h2"@[1]);
    assert("a"@[0] != "p"@[0]);
    assert("script"@.len() == 6 && "style"@.len() == 5 && "html"@.len() == 4 && "head"@.len() == 4);
}

impl ElementKind {
    /// The kind that `tag` stands for, if it is a known tag.
    pub fn from_tag(tag: &str) -> (kind: Option<ElementKind>)
        ensures
            kind == kind_of_tag(tag@),
    {
        let name = to_chars(tag);
        if spells(&name, "html") {
            Some(ElementKind::Html)
        } else if spells(&name, "head") {
            Some(ElementKind::Head)
        } else if spells(&name, "style") {
            Some(ElementKind::Style)
        } else if spells(&name, "script") {
            Some(ElementKind::Script)
        } else if spells(&name, "body") {
            Some(ElementKind::Body)
        } else if spells(&name, "p") {
            Some(ElementKind::P)
        } else if spells(&name, "h1") {
            Some(ElementKind::H1)
        } else if spells(&name, "h2") {
            Some(ElementKind::H2)
        } else if spells(&name, "a") {
            Some(ElementKind::A)
        } else {
            None
        }
    }
}

/// What an element is to the contracts: its tag name and its attributes.
pub ghost struct ElementView {
    pub tag: Seq<char>,
    pub attributes: Seq<AttributeView>,
}

/// An element: a tag name, the attributes of its start tag, and the kind
/// that the name stands for.
#[derive(Debug, PartialEq, Eq)]
pub struct Element {
    tag: String,
    attributes: Vec<Attribute>,
    kind: Option<ElementKind>,
}

impl View for Element {
    type V = ElementView;

    closed spec fn view(&self) -> ElementView {
        ElementView { tag: self.tag@, attributes: attribute_views(self.attributes@) }
    }
}

impl Clone for Element {
    fn clone(&self) -> (copy: Self)
        ensures
            copy@ == self@,
    {
        proof {
            use_type_invariant(self);
        }
        Element {
            tag: self.tag.clone(),
            attributes: clone_attributes(&self.attributes),
            kind: self.kind,
        }
    }
}

impl Element {
    #[verifier::type_invariant]
    spec fn kind_follows_tag(self) -> bool {
        self.kind == kind_of_tag(self.tag@)
    }

    /// The element `<tag>` with the given attributes.
    pub fn new(tag: &str, attributes: Vec<Attribute>) -> (element: Self)
        ensures
            element@ == (ElementView { tag: tag@, attributes: attribute_views(attributes@) }),
    {
        Element { tag: String::from_str(tag), attributes, kind: ElementKind::from_tag(tag) }
    }

    /// The kind of the element, or `None` where its tag is not a known one.
    pub fn kind(&self) -> (kind: Option<ElementKind>)
        ensures
            kind == kind_of_tag(self@.tag),
    {
        proof {
            use_type_invariant(self);
        }
        self.kind
    }

    /// A copy of the tag name.
    pub fn tag(&self) -> (tag: String)
        ensures
            tag@ == self@.tag,
    {
        self.tag.clone()
    }

    /// A copy of the attributes.
    pub fn attributes(&self) -> (attributes: Vec<Attribute>)
        ensures
            attribute_views(attributes@) == self@.attributes,
    {
        clone_attributes(&self.attributes)
    }
}

/// What the content of a node is to the contracts.
pub ghost enum NodeKindView {
    Document,
    Element(ElementView),
    Text(Seq<char>),
}

impl NodeKindView {
    /// The kind of an element node; `None` for every other node and for an
    /// element whose tag is not a known one.
    pub open spec fn element_kind(self) -> Option<ElementKind> {
        match self {
            NodeKindView::Element(element) => kind_of_tag(element.tag),
            _ => None,
        }
    }
}

/// The content of a node.
#[derive(Debug, PartialEq, Eq)]
pub enum NodeKind {
    /// The root of a tree.
    Document,
    Element(Element),
    Text(String),
}

impl View for NodeKind {
    type V = NodeKindView;

    open spec fn view(&self) -> NodeKindView {
        match self {
            NodeKind::Document => NodeKindView::Document,
            NodeKind::Element(element) => NodeKindView::Element(element@),
            NodeKind::Text(text) => NodeKindView::Text(text@),
        }
    }
}

impl Clone for NodeKind {
    fn clone(&self) -> (copy: Self)
        ensures
            copy@ == self@,
    {
        match self {
            NodeKind::Document => NodeKind::Document,
            NodeKind::Element(element) => NodeKind::Element(element.clone()),
            NodeKind::Text(text) => NodeKind::Text(text.clone()),
        }
    }
}

/// What a node is to the contracts: its content and its five links, each
/// the index of a node in the arena that holds it.
pub ghost struct NodeView {
    pub kind: NodeKindView,
    pub parent: Option<usize>,
    pub first_child: Option<usize>,
    pub last_child: Option<usize>,
    pub previous_sibling: Option<usize>,
    pub next_sibling: Option<usize>,
}

/// A node of the tree. Its links name other nodes by their index in the
/// arena, so that no node owns another and no cycle of owners can form.
#[derive(Debug, PartialEq, Eq)]
pub struct Node {
    kind: NodeKind,
    parent: Option<usize>,
    first_child: Option<usize>,
    last_child: Option<usize>,
    previous_sibling: Option<usize>,
    next_sibling: Option<usize>,
}

impl View for Node {
    type V = NodeView;

    closed spec fn view(&self) -> NodeView {
        NodeView {
            kind: self.kind@,
            parent: self.parent,
            first_child: self.first_child,
            last_child: self.last_child,
            previous_sibling: self.previous_sibling,
            next_sibling: self.next_sibling,
        }
    }
}

impl Clone for Node {
    fn clone(&self) -> (copy: Self)
        ensures
            copy@ == self@,
    {
        Node {
            kind: self.kind.clone(),
            parent: self.parent,
            first_child: self.first_child,
            last_child: self.last_child,
            previous_sibling: self.previous_sibling,
            next_sibling: self.next_sibling,
        }
    }
}

impl Node {
    /// A node with the given content and no links.
    pub fn new(kind: NodeKind) -> (node: Self)
        ensures
            node@ == (NodeView {
                kind: kind@,
                parent: None,
                first_child: None,
                last_child: None,
                previous_sibling: None,
                next_sibling: None,
            }),
    {
        Node {
            kind,
            parent: None,
            first_child: None,
            last_child: None,
            previous_sibling: None,
            next_sibling: None,
        }
    }

    /// The content of the node.
    pub fn kind(&self) -> (kind: &NodeKind)
        ensures
            kind@ == self@.kind,
    {
        &self.kind
    }

    /// The kind of an element node; `None` for every other node and for an
    /// element whose tag is not a known one.
    pub fn element_kind(&self) -> (kind: Option<ElementKind>)
        ensures
            kind == self@.kind.element_kind(),
    {
        match &self.kind {
            NodeKind::Element(element) => element.kind(),
            _ => None,
        }
    }

    /// The index of the parent of the node, if it has one.
    pub fn parent(&self) -> (link: Option<usize>)
        ensures
            link == self@.parent,
    {
        self.parent
    }

    /// The index of the first child of the node, if it has one.
    pub fn first_child(&self) -> (link: Option<usize>)
        ensures
            link == self@.first_child,
    {
        self.first_child
    }

    /// The index of the last child of the node, if it has one.
    pub fn last_child(&self) -> (link: Option<usize>)
        ensures
            link == self@.last_child,
    {
        self.last_child
    }

    /// The index of the sibling before the node, if it has one.
    pub fn previous_sibling(&self) -> (link: Option<usize>)
        ensures
            link == self@.previous_sibling,
    {
        self.previous_sibling
    }

    /// The index of the sibling behind the node, if it has one.
    pub fn next_sibling(&self) -> (link: Option<usize>)
        ensures
            link == self@.next_sibling,
    {
        self.next_sibling
    }

    /// Makes `link` the parent of the node; no other link changes.
    pub fn set_parent(&mut self, link: Option<usize>)
        ensures
            final(self)@ == (NodeView { parent: link, ..old(self)@ }),
    {
        self.parent = link;
    }

    /// Makes `link` the first child of the node; no other link changes.
    pub fn set_first_child(&mut self, link: Option<usize>)
        ensures
            final(self)@ == (NodeView { first_child: link, ..old(self)@ }),
    {
        self.first_child = link;
    }

    /// Makes `link` the last child of the node; no other link changes.
    pub fn set_last_child(&mut self, link: Option<usize>)
        ensures
            final(self)@ == (NodeView { last_child: link, ..old(self)@ }),
    {
        self.last_child = link;
    }

    /// Makes `link` the sibling before the node; no other link changes.
    pub fn set_previous_sibling(&mut self, link: Option<usize>)
        ensures
            final(self)@ == (NodeView { previous_sibling: link, ..old(self)@ }),
    {
        self.previous_sibling = link;
    }

    /// Makes `link` the sibling behind the node; no other link changes.
    pub fn set_next_sibling(&mut self, link: Option<usize>)
        ensures
            final(self)@ == (NodeView { next_sibling: link, ..old(self)@ }),
    {
        self.next_sibling = link;
    }

    /// Appends `c` to the text of a text node. Any other node stays as it is.
    pub fn push_char(&mut self, c: char)
        ensures
            final(self)@ == (NodeView { kind: old(self)@.kind.with_char(c), ..old(self)@ }),
    {
        match &mut self.kind {
            NodeKind::Text(text) => {
                text.push(c);
            },
            _ => {},
        }
    }
}

impl NodeKindView {
    /// A text with `c` appended; any other content as it is.
    pub open spec fn with_char(self, c: char) -> NodeKindView {
        match self {
            NodeKindView::Text(text) => NodeKindView::Text(text.push(c)),
            _ => self,
        }
    }
}

/// A node as a part of a tree: its content and the index of its parent.
/// The order of the children of a node is the order of their indices.
pub ghost struct TreeNode {
    pub kind: NodeKindView,
    pub parent: Option<int>,
}

/// Whether node `i` of `tree` has its place: it is no document and its
/// parent stands before it.
pub open spec fn is_placed(tree: Seq<TreeNode>, i: int) -> bool {
    &&& !(tree[i].kind is Document)
    &&& tree[i].parent is Some
    &&& 0 <= tree[i].parent->0 < i
}

/// Whether `tree` is a tree: node 0 is the document and has no parent, and
/// every other node has one parent, which stands before it. So no node is
/// its own ancestor.
pub open spec fn well_formed(tree: Seq<TreeNode>) -> bool {
    &&& tree.len() > 0
    &&& tree[0].kind is Document
    &&& tree[0].parent is None
    &&& forall|i: int| 0 < i < tree.len() ==> #[trigger] is_placed(tree, i)
}

/// Whether `c` is a node of `tree` whose parent is `p`.
pub open spec fn is_child(tree: Seq<TreeNode>, p: int, c: int) -> bool {
    0 <= c < tree.len() && tree[c].parent == Some(p)
}

/// Whether `link` names the first child of `p`: the child with the least
/// index, or nothing where `p` has no child.
pub open spec fn is_first_child(tree: Seq<TreeNode>, p: int, link: Option<usize>) -> bool {
    match link {
        Some(c) => is_child(tree, p, c as int) && forall|k: int|
            k < c ==> !#[trigger] is_child(tree, p, k),
        None => forall|k: int| !#[trigger] is_child(tree, p, k),
    }
}

/// Whether `link` names the last child of `p`: the child with the greatest
/// index, or nothing where `p` has no child.
pub open spec fn is_last_child(tree: Seq<TreeNode>, p: int, link: Option<usize>) -> bool {
    match link {
        Some(c) => is_child(tree, p, c as int) && forall|k: int|
            c < k ==> !#[trigger] is_child(tree, p, k),
        None => forall|k: int| !#[trigger] is_child(tree, p, k),
    }
}

/// Whether `link` names the next sibling of `n`: the next node behind `n`
/// with the parent of `n`, or nothing where there is none.
pub open spec fn is_next_sibling(tree: Seq<TreeNode>, n: int, link: Option<usize>) -> bool {
    match tree[n].parent {
        Some(p) => match link {
            Some(s) => n < s && is_child(tree, p, s as int) && forall|k: int|
                n < k < s ==> !#[trigger] is_child(tree, p, k),
            None => forall|k: int| n < k ==> !#[trigger] is_child(tree, p, k),
        },
        None => link is None,
    }
}

/// Whether `link` names the previous sibling of `n`: the last node before
/// `n` with the parent of `n`, or nothing where there is none.
pub open spec fn is_previous_sibling(tree: Seq<TreeNode>, n: int, link: Option<usize>) -> bool {
    match tree[n].parent {
        Some(p) => match link {
            Some(s) => s < n && is_child(tree, p, s as int) && forall|k: int|
                s < k < n ==> !#[trigger] is_child(tree, p, k),
            None => forall|k: int| k < n ==> !#[trigger] is_child(tree, p, k),
        },
        None => link is None,
    }
}

/// Whether `node` is node `n` of `tree`: it has the content and the parent
/// that the tree gives, and its other links name what their names say.
pub open spec fn is_node_of(tree: Seq<TreeNode>, n: int, node: NodeView) -> bool {
    &&& node.kind == tree[n].kind
    &&& tree[n].parent == match node.parent {
        Some(p) => Some(p as int),
        None => None,
    }
    &&& is_first_child(tree, n, node.first_child)
    &&& is_last_child(tree, n, node.last_child)
    &&& is_previous_sibling(tree, n, node.previous_sibling)
    &&& is_next_sibling(tree, n, node.next_sibling)
}

/// The children of `p` among the first `n` nodes of `tree`, in their order.
pub open spec fn children_below(tree: Seq<TreeNode>, p: int, n: int) -> Seq<int>
    decreases n,
{
    if n <= 0 {
        Seq::empty()
    } else if is_child(tree, p, n - 1) {
        children_below(tree, p, n - 1).push(n - 1)
    } else {
        children_below(tree, p, n - 1)
    }
}

/// The children of `p`, in their order.
pub open spec fn children(tree: Seq<TreeNode>, p: int) -> Seq<int> {
    children_below(tree, p, tree.len() as int)
}

/// The children of `p` below `n` are the nodes below `n` whose parent is
/// `p`, each once and in the order of their indices.
pub proof fn lemma_children_below(tree: Seq<TreeNode>, p: int, n: int)
    ensures
        forall|i: int|
            0 <= i < children_below(tree, p, n).len() ==> {
                let c = #[trigger] children_below(tree, p, n)[i];
                c < n && is_child(tree, p, c)
            },
        forall|i: int, j: int|
            0 <= i < j < children_below(tree, p, n).len() ==> #[trigger] children_below(
                tree,
                p,
                n,
            )[i] < #[trigger] children_below(tree, p, n)[j],
        forall|c: int|
            c < n && #[trigger] is_child(tree, p, c) ==> children_below(tree, p, n).contains(c),
    decreases n,
{
    if n > 0 {
        lemma_children_below(tree, p, n - 1);
        let rest = children_below(tree, p, n - 1);
        let all = children_below(tree, p, n);
        assert forall|c: int| c < n && #[trigger] is_child(tree, p, c) implies all.contains(c) by {
            if c < n - 1 {
                let i = choose|i: int| 0 <= i < rest.len() && rest[i] == c;
                assert(all[i] == c);
            } else {
                assert(all[all.len() - 1] == c);
            }
        }
    }
}

/// Where no node from `from` up to `to` is a child of `p`, `p` has no more
/// children below `to` than below `from`.
pub proof fn lemma_children_skip(tree: Seq<TreeNode>, p: int, from: int, to: int)
    requires
        from <= to,
        forall|k: int| from <= k < to ==> !#[trigger] is_child(tree, p, k),
    ensures
        children_below(tree, p, to) == children_below(tree, p, from),
    decreases to - from,
{
    if from < to {
        assert(!is_child(tree, p, to - 1));
        lemma_children_skip(tree, p, from, to - 1);
    }
}

/// The links of a node name its place among the children of its parent,
/// and its own first and last child: the first child of `p` is the first
/// of its children and the last child the last of them; the sibling
/// behind the child at place `i` is the child at place `i + 1`, and the
/// sibling before it the child at place `i - 1`.
pub proof fn lemma_links_name_children(tree: Seq<TreeNode>, p: int, i: int, node: NodeView)
    requires
        0 <= i < children(tree, p).len(),
        is_node_of(tree, children(tree, p)[i], node),
    ensures
        tree[children(tree, p)[i]].parent == Some(p),
        node.next_sibling matches Some(next) ==> i + 1 < children(tree, p).len() && next
            == children(tree, p)[i + 1],
        node.next_sibling is None ==> i + 1 == children(tree, p).len(),
        node.previous_sibling matches Some(previous) ==> 0 < i && previous == children(
            tree,
            p,
        )[i - 1],
        node.previous_sibling is None ==> i == 0,
{
    let all = children(tree, p);
    let n = all[i];
    lemma_children_below(tree, p, tree.len() as int);
    assert(is_child(tree, p, n));
    if i + 1 < all.len() {
        assert(is_child(tree, p, all[i + 1]) && n < all[i + 1]);
    }
    if 0 < i {
        assert(is_child(tree, p, all[i - 1]) && all[i - 1] < n);
    }
    if let Some(next) = node.next_sibling {
        assert(is_child(tree, p, next as int));
        let j = choose|j: int| 0 <= j < all.len() && all[j] == next;
        if j <= i {
            assert(j == i || all[j] < all[i]);
        }
        if j > i + 1 {
            assert(all[i] < all[i + 1] < all[j]);
            assert(is_child(tree, p, all[i + 1]));
        }
    }
    if let Some(previous) = node.previous_sibling {
        assert(is_child(tree, p, previous as int));
        let j = choose|j: int| 0 <= j < all.len() && all[j] == previous;
        if j >= i {
            assert(j == i || all[i] < all[j]);
        }
        if j < i - 1 {
            assert(all[j] < all[i - 1] < all[i]);
            assert(is_child(tree, p, all[i - 1]));
        }
    }
}

/// The first and the last child of a node are the first and the last of
/// its children.
pub proof fn lemma_links_name_ends(tree: Seq<TreeNode>, p: int, node: NodeView)
    requires
        0 <= p < tree.len(),
        is_node_of(tree, p, node),
    ensures
        node.first_child matches Some(first) ==> children(tree, p).len() > 0 && first == children(
            tree,
            p,
        )[0],
        node.first_child is None ==> children(tree, p).len() == 0,
        node.last_child matches Some(last) ==> children(tree, p).len() > 0 && last == children(
            tree,
            p,
        ).last(),
        node.last_child is None ==> children(tree, p).len() == 0,
{
    let all = children(tree, p);
    lemma_children_below(tree, p, tree.len() as int);
    if all.len() > 0 {
        assert(is_child(tree, p, all[0]));
        assert(is_child(tree, p, all[all.len() - 1]));
    }
    if let Some(first) = node.first_child {
        assert(is_child(tree, p, first as int));
        let j = choose|j: int| 0 <= j < all.len() && all[j] == first;
        if j > 0 {
            assert(all[0] < all[j]);
        }
    }
    if let Some(last) = node.last_child {
        assert(is_child(tree, p, last as int));
        let j = choose|j: int| 0 <= j < all.len() && all[j] == last;
        if j < all.len() - 1 {
            assert(all[j] < all[all.len() - 1]);
        }
    }
}

/// The index that `link` names, or the number of nodes where it names
/// none.
spec fn reach(tree: Seq<TreeNode>, link: Option<usize>) -> int {
    match link {
        Some(n) => n as int,
        None => tree.len() as int,
    }
}

/// Whether a walk over the children of `p` has come to `next` with the
/// children `found`: those before `next`, which is a child itself.
#[verifier::opaque]
spec fn has_walked(tree: Seq<TreeNode>, p: int, next: Option<usize>, found: Seq<usize>) -> bool {
    &&& next matches Some(n) ==> is_child(tree, p, n as int)
    &&& found.len() == children_below(tree, p, reach(tree, next)).len()
    &&& forall|i: int|
        0 <= i < found.len() ==> found[i] == children_below(tree, p, reach(tree, next))[i]
}

/// A walk begins at the first child, before which there is no child.
proof fn lemma_walk_begins(tree: Seq<TreeNode>, p: int, first: Option<usize>)
    requires
        is_first_child(tree, p, first),
    ensures
        has_walked(tree, p, first, Seq::empty()),
{
    reveal(has_walked);
    lemma_children_skip(tree, p, 0, reach(tree, first));
}

/// No walk begins at a node that is not there: it has no child.
proof fn lemma_walk_nowhere(tree: Seq<TreeNode>, p: int)
    requires
        well_formed(tree),
        p >= tree.len(),
    ensures
        has_walked(tree, p, None, Seq::empty()),
{
    reveal(has_walked);
    assert forall|k: int| 0 <= k < tree.len() implies !#[trigger] is_child(tree, p, k) by {
        if k > 0 {
            assert(is_placed(tree, k));
        }
    }
    lemma_children_skip(tree, p, 0, tree.len() as int);
}

/// A walk goes on from a child to the sibling behind it.
proof fn lemma_walk_goes_on(
    tree: Seq<TreeNode>,
    p: int,
    n: usize,
    behind: Option<usize>,
    found: Seq<usize>,
)
    requires
        has_walked(tree, p, Some(n), found),
        is_next_sibling(tree, n as int, behind),
    ensures
        has_walked(tree, p, behind, found.push(n)),
        n < reach(tree, behind) <= tree.len(),
{
    reveal(has_walked);
    assert(tree[n as int].parent == Some(p));
    assert forall|k: int| n + 1 <= k < reach(tree, behind) implies !#[trigger] is_child(
        tree,
        p,
        k,
    ) by {
        assert(!is_child(tree, tree[n as int].parent->0, k));
    }
    lemma_children_skip(tree, p, n + 1, reach(tree, behind));
}

/// A walk that has come to no child has found all children.
proof fn lemma_walk_ends(tree: Seq<TreeNode>, p: int, found: Seq<usize>)
    requires
        has_walked(tree, p, None, found),
    ensures
        found.len() == children(tree, p).len(),
        forall|i: int| 0 <= i < found.len() ==> found[i] == children(tree, p)[i],
{
    reveal(has_walked);
}

/// The views of `nodes`, in their order.
pub open spec fn node_views(nodes: Seq<Node>) -> Seq<NodeView> {
    Seq::new(nodes.len(), |i: int| nodes[i]@)
}

/// The node of a tree that `node` stands for.
pub open spec fn tree_node(node: NodeView) -> TreeNode {
    TreeNode {
        kind: node.kind,
        parent: match node.parent {
            Some(p) => Some(p as int),
            None => None,
        },
    }
}

/// The tree that the parents of `nodes` give.
pub open spec fn tree_of(nodes: Seq<NodeView>) -> Seq<TreeNode> {
    Seq::new(nodes.len(), |i: int| tree_node(nodes[i]))
}

/// Whether `nodes` hold a tree, each with links that name what they say.
pub open spec fn is_linked(nodes: Seq<NodeView>) -> bool {
    &&& well_formed(tree_of(nodes))
    &&& forall|n: int| 0 <= n < nodes.len() ==> is_node_of(tree_of(nodes), n, #[trigger] nodes[n])
}

/// A tree with one more node, whose parent is in the tree.
spec fn grown(before: Seq<TreeNode>, after: Seq<TreeNode>, parent: int) -> bool {
    &&& well_formed(before)
    &&& 0 <= parent < before.len()
    &&& after.len() == before.len() + 1
    &&& after.last().parent == Some(parent)
    &&& !(after.last().kind is Document)
    &&& forall|i: int| 0 <= i < before.len() ==> after[i] == before[i]
}

/// A tree that has got one more node is a tree; the new node is a child
/// of its parent and has no child, and no other node has changed its
/// parent.
proof fn lemma_grown_children(before: Seq<TreeNode>, after: Seq<TreeNode>, parent: int)
    requires
        grown(before, after, parent),
    ensures
        well_formed(after),
        forall|p: int, k: int| #[trigger]
            is_child(after, p, k) <==> is_child(before, p, k) || (k == before.len() && p
                == parent),
        forall|k: int| !#[trigger] is_child(after, before.len() as int, k),
{
    assert forall|i: int| 0 < i < after.len() implies #[trigger] is_placed(after, i) by {
        if i < before.len() {
            assert(is_placed(before, i));
        }
    }
    assert forall|k: int| !#[trigger] is_child(after, before.len() as int, k) by {
        if 0 < k < after.len() {
            assert(is_placed(after, k));
        }
    }
}

/// The links of the nodes that were there stay right when a node is added,
/// but for the two that the caller sets anew.
proof fn lemma_grown_keeps(
    before: Seq<TreeNode>,
    after: Seq<TreeNode>,
    parent: int,
    n: int,
    node: NodeView,
)
    requires
        grown(before, after, parent),
        0 <= n < before.len(),
        is_node_of(before, n, node),
    ensures
        node.kind == after[n].kind,
        tree_node(node).parent == after[n].parent,
        is_previous_sibling(after, n, node.previous_sibling),
        n != parent || node.first_child is Some ==> is_first_child(after, n, node.first_child),
        n != parent ==> is_last_child(after, n, node.last_child),
        before[n].parent != Some(parent) || node.next_sibling is Some ==> is_next_sibling(
            after,
            n,
            node.next_sibling,
        ),
{
    lemma_grown_children(before, after, parent);
    if n > 0 {
        assert(is_placed(before, n));
    }
}

/// The links that are set anew when a node is added as the last child of
/// `parent`, whose last child was `last` before.
proof fn lemma_grown_sets(
    before: Seq<TreeNode>,
    after: Seq<TreeNode>,
    parent: int,
    last: Option<usize>,
    id: usize,
)
    requires
        grown(before, after, parent),
        is_last_child(before, parent, last),
        id == before.len(),
    ensures
        is_last_child(after, parent, Some(id)),
        last is None ==> is_first_child(after, parent, Some(id)),
        last is Some ==> is_next_sibling(after, last->0 as int, Some(id)),
        is_previous_sibling(after, id as int, last),
        is_next_sibling(after, id as int, None),
        is_first_child(after, id as int, None),
        is_last_child(after, id as int, None),
{
    lemma_grown_children(before, after, parent);
}

/// A child of `parent` with nothing behind it is the last child.
proof fn lemma_last_has_no_next(
    tree: Seq<TreeNode>,
    parent: int,
    last: Option<usize>,
    n: int,
    next: Option<usize>,
)
    requires
        is_child(tree, parent, n),
        is_last_child(tree, parent, last),
        is_next_sibling(tree, n, next),
        next is None,
    ensures
        last is Some,
        last->0 == n,
{
    match last {
        Some(l) => {
            assert(is_child(tree, parent, l as int));
            assert(tree[n].parent == Some(parent));
            if n < l {
                assert(!is_child(tree, tree[n].parent->0, l as int));
            }
            if l < n {
                assert(!is_child(tree, parent, n));
            }
        },
        None => {
            assert(!is_child(tree, parent, n));
        },
    }
}

/// Appends a node with the given content to `nodes`, as the last child of
/// `parent`, and returns its index.
fn link_child(nodes: &mut Vec<Node>, parent: usize, kind: NodeKind) -> (id: usize)
    requires
        is_linked(node_views(old(nodes)@)),
        parent < old(nodes).len(),
        !(kind is Document),
    ensures
        is_linked(node_views(final(nodes)@)),
        id == old(nodes).len(),
        tree_of(node_views(final(nodes)@)) == tree_of(node_views(old(nodes)@)).push(
            TreeNode { kind: kind@, parent: Some(parent as int) },
        ),
{
    let ghost views = node_views(nodes@);
    let ghost before = tree_of(views);
    let ghost added = TreeNode { kind: kind@, parent: Some(parent as int) };
    let id = nodes.len();
    let last = nodes[parent].last_child();
    assert(is_node_of(before, parent as int, views[parent as int]));
    let mut node = Node::new(kind);
    node.set_parent(Some(parent));
    node.set_previous_sibling(last);
    nodes.push(node);
    match last {
        Some(l) => {
            assert(is_child(before, parent as int, l as int));
            assert(l != parent) by {
                assert(is_placed(before, l as int));
            }
            nodes[l].set_next_sibling(Some(id));
        },
        None => {
            nodes[parent].set_first_child(Some(id));
        },
    }
    nodes[parent].set_last_child(Some(id));
    let ghost linked = node_views(nodes@);
    let ghost after = tree_of(linked);
    proof {
        assert(after =~= before.push(added));
        assert(grown(before, after, parent as int));
        lemma_grown_children(before, after, parent as int);
        lemma_grown_sets(before, after, parent as int, last, id);
        assert forall|n: int| 0 <= n < linked.len() implies is_node_of(
            after,
            n,
            #[trigger] linked[n],
        ) by {
            if n < id {
                assert(is_node_of(before, n, views[n]));
                lemma_grown_keeps(before, after, parent as int, n, views[n]);
                if before[n].parent == Some(parent as int) && views[n].next_sibling is None {
                    lemma_last_has_no_next(
                        before,
                        parent as int,
                        last,
                        n,
                        views[n].next_sibling,
                    );
                }
            }
        }
    }
    id
}

/// Appends `c` to the text of node `id`. A node that is no text stays as
/// it is.
fn extend_text(nodes: &mut Vec<Node>, id: usize, c: char)
    requires
        is_linked(node_views(old(nodes)@)),
        id < old(nodes).len(),
    ensures
        is_linked(node_views(final(nodes)@)),
        tree_of(node_views(final(nodes)@)) == tree_of(node_views(old(nodes)@)).update(
            id as int,
            TreeNode {
                kind: tree_of(node_views(old(nodes)@))[id as int].kind.with_char(c),
                parent: tree_of(node_views(old(nodes)@))[id as int].parent,
            },
        ),
{
    let ghost views = node_views(nodes@);
    let ghost before = tree_of(views);
    nodes[id].push_char(c);
    let ghost written = node_views(nodes@);
    let ghost after = tree_of(written);
    proof {
        assert(after =~= before.update(
            id as int,
            TreeNode {
                kind: before[id as int].kind.with_char(c),
                parent: before[id as int].parent,
            },
        ));
        assert forall|p: int, k: int| #[trigger]
            is_child(after, p, k) == is_child(before, p, k) by {}
        assert forall|i: int| 0 < i < after.len() implies #[trigger] is_placed(after, i) by {
            assert(is_placed(before, i));
        }
        assert forall|n: int| 0 <= n < written.len() implies is_node_of(
            after,
            n,
            #[trigger] written[n],
        ) by {
            assert(is_node_of(before, n, views[n]));
        }
    }
}

/// The arena that holds the nodes of one document. Node 0 is the document;
/// every other node was appended as the last child of a node before it.
/// Only the tree constructor appends nodes; who gets the arena from it
/// reads the tree.
#[derive(Debug, PartialEq, Eq)]
pub struct Window {
    nodes: Vec<Node>,
}

impl View for Window {
    type V = Seq<TreeNode>;

    closed spec fn view(&self) -> Seq<TreeNode> {
        tree_of(node_views(self.nodes@))
    }
}

impl Clone for Window {
    fn clone(&self) -> (copy: Self)
        ensures
            copy@ == self@,
            self.wf() ==> copy.wf(),
    {
        let mut nodes: Vec<Node> = Vec::new();
        let mut i: usize = 0;
        while i < self.nodes.len()
            invariant
                i <= self.nodes.len(),
                nodes.len() == i,
                forall|j: int| 0 <= j < i ==> nodes[j]@ == self.nodes[j]@,
            decreases self.nodes.len() - i,
        {
            nodes.push(self.nodes[i].clone());
            i += 1;
        }
        assert(node_views(nodes@) =~= node_views(self.nodes@));
        Window { nodes }
    }
}

impl Window {
    /// Whether the nodes hold a tree, each with links that name what they
    /// say. Every arena that this module hands out is well formed.
    pub closed spec fn wf(&self) -> bool {
        is_linked(node_views(self.nodes@))
    }

    /// The nodes of a well-formed arena form a tree.
    pub proof fn lemma_tree(&self)
        requires
            self.wf(),
        ensures
            well_formed(self@),
    {
    }

    /// An arena that holds a document without children.
    pub fn new() -> (window: Self)
        ensures
            window.wf(),
            window@ == seq![TreeNode { kind: NodeKindView::Document, parent: None }],
    {
        let mut nodes: Vec<Node> = Vec::new();
        nodes.push(Node::new(NodeKind::Document));
        assert(tree_of(node_views(nodes@)) =~= seq![
            TreeNode { kind: NodeKindView::Document, parent: None },
        ]);
        Window { nodes }
    }

    /// The index of the document, the root of the tree.
    pub fn document(&self) -> (id: usize)
        ensures
            id == 0,
    {
        0
    }

    /// The number of nodes.
    pub fn len(&self) -> (n: usize)
        ensures
            n == self@.len(),
    {
        self.nodes.len()
    }

    /// Node `id`, or `None` where the arena holds no such node.
    pub fn get(&self, id: usize) -> (node: Option<&Node>)
        requires
            self.wf(),
        ensures
            id >= self@.len() ==> node is None,
            id < self@.len() ==> node is Some && is_node_of(self@, id as int, node->0@),
    {
        if id < self.nodes.len() {
            Some(&self.nodes[id])
        } else {
            None
        }
    }

    /// The kind of element `id`; `None` where node `id` is no element with
    /// a known tag, or is not there.
    pub fn element_kind(&self, id: usize) -> (kind: Option<ElementKind>)
        requires
            self.wf(),
        ensures
            kind == if id < self@.len() {
                self@[id as int].kind.element_kind()
            } else {
                None
            },
    {
        match self.get(id) {
            Some(node) => node.element_kind(),
            None => None,
        }
    }

    /// Tells whether node `id` is a text.
    pub fn is_text(&self, id: usize) -> (yes: bool)
        requires
            self.wf(),
        ensures
            yes == (id < self@.len() && self@[id as int].kind is Text),
    {
        match self.get(id) {
            Some(node) => match node.kind() {
                NodeKind::Text(_) => true,
                _ => false,
            },
            None => false,
        }
    }

    /// The parent of node `id`.
    pub fn parent(&self, id: usize) -> (link: Option<usize>)
        requires
            self.wf(),
        ensures
            id >= self@.len() ==> link is None,
            id < self@.len() ==> self@[id as int].parent == match link {
                Some(p) => Some(p as int),
                None => None,
            },
    {
        match self.get(id) {
            Some(node) => node.parent(),
            None => None,
        }
    }

    /// The first child of node `id`.
    pub fn first_child(&self, id: usize) -> (link: Option<usize>)
        requires
            self.wf(),
        ensures
            id >= self@.len() ==> link is None,
            id < self@.len() ==> is_first_child(self@, id as int, link),
    {
        match self.get(id) {
            Some(node) => node.first_child(),
            None => None,
        }
    }

    /// The last child of node `id`.
    pub fn last_child(&self, id: usize) -> (link: Option<usize>)
        requires
            self.wf(),
        ensures
            id >= self@.len() ==> link is None,
            id < self@.len() ==> is_last_child(self@, id as int, link),
    {
        match self.get(id) {
            Some(node) => node.last_child(),
            None => None,
        }
    }

    /// The sibling before node `id`.
    pub fn previous_sibling(&self, id: usize) -> (link: Option<usize>)
        requires
            self.wf(),
        ensures
            id >= self@.len() ==> link is None,
            id < self@.len() ==> is_previous_sibling(self@, id as int, link),
    {
        match self.get(id) {
            Some(node) => node.previous_sibling(),
            None => None,
        }
    }

    /// The sibling behind node `id`.
    pub fn next_sibling(&self, id: usize) -> (link: Option<usize>)
        requires
            self.wf(),
        ensures
            id >= self@.len() ==> link is None,
            id < self@.len() ==> is_next_sibling(self@, id as int, link),
    {
        match self.get(id) {
            Some(node) => node.next_sibling(),
            None => None,
        }
    }

    /// The children of node `id` in their order, found by going from its
    /// first child from sibling to sibling; none where node `id` is not
    /// there.
    pub fn children(&self, id: usize) -> (found: Vec<usize>)
        requires
            self.wf(),
        ensures
            found@.len() == children(self@, id as int).len(),
            forall|i: int| 0 <= i < found@.len() ==> found@[i] == children(self@, id as int)[i],
    {
        let mut found: Vec<usize> = Vec::new();
        let mut next = self.first_child(id);
        proof {
            if id < self@.len() {
                lemma_walk_begins(self@, id as int, next);
            } else {
                lemma_walk_nowhere(self@, id as int);
            }
        }
        loop
            invariant
                self.wf(),
                has_walked(self@, id as int, next, found@),
                reach(self@, next) <= self@.len(),
            decreases self@.len() - reach(self@, next) + if next is Some { 1int } else { 0int },
        {
            match next {
                None => {
                    proof {
                        lemma_walk_ends(self@, id as int, found@);
                    }
                    return found;
                },
                Some(n) => {
                    proof {
                        assert(n < self@.len()) by {
                            reveal(has_walked);
                        }
                    }
                    let behind = self.next_sibling(n);
                    proof {
                        lemma_walk_goes_on(self@, id as int, n, behind, found@);
                    }
                    found.push(n);
                    next = behind;
                },
            }
        }
    }

    /// Appends an element as the last child of `parent` and returns its
    /// index.
    pub(crate) fn append_element(&mut self, parent: usize, element: Element) -> (id: usize)
        requires
            old(self).wf(),
            parent < old(self)@.len(),
        ensures
            final(self).wf(),
            id == old(self)@.len(),
            final(self)@ == old(self)@.push(
                TreeNode { kind: NodeKindView::Element(element@), parent: Some(parent as int) },
            ),
    {
        link_child(&mut self.nodes, parent, NodeKind::Element(element))
    }

    /// Appends a text of the one character `c` as the last child of
    /// `parent` and returns its index.
    pub(crate) fn append_text(&mut self, parent: usize, c: char) -> (id: usize)
        requires
            old(self).wf(),
            parent < old(self)@.len(),
        ensures
            final(self).wf(),
            id == old(self)@.len(),
            final(self)@ == old(self)@.push(
                TreeNode { kind: NodeKindView::Text(seq![c]), parent: Some(parent as int) },
            ),
    {
        let mut text = String::new();
        text.push(c);
        assert(text@ =~= seq![c]);
        link_child(&mut self.nodes, parent, NodeKind::Text(text))
    }

    /// Appends `c` to the text of node `id`. A node that is no text stays
    /// as it is.
    pub(crate) fn push_char(&mut self, id: usize, c: char)
        requires
            old(self).wf(),
            id < old(self)@.len(),
        ensures
            final(self).wf(),
            final(self)@ == old(self)@.update(
                id as int,
                TreeNode {
                    kind: old(self)@[id as int].kind.with_char(c),
                    parent: old(self)@[id as int].parent,
                },
            ),
    {
        extend_text(&mut self.nodes, id, c)
    }
}

} // verus!
