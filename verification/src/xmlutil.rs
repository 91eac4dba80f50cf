//! XML documents, and paths through them.
//!
//! A document is the list of its nodes in document order, each with its depth: the children of
//! a node are the nodes behind it that are one deeper, up to the next one that is not deeper
//! than itself. Nodes are named by their position in the list.
//!
//! A path is `"tag"` (a child), `"./a/b/c"` (children from one to the next) or `".//a/b/c"`
//! (the first descendant named `a`, anywhere below, then children from there).
use crate::text::chars_of;
use vstd::prelude::*;

verus! {

/// The namespaces of an element: the prefix of its name, what its name belongs to, and the
/// prefixes that stand for something there.
#[derive(Debug)]
pub struct Scope {
    pub prefix: Option<String>,
    pub namespace: Option<String>,
    pub namespaces: Option<Vec<(String, String)>>,
}

/// What a `Scope` holds.
pub struct ScopeView {
    pub prefix: Option<Seq<char>>,
    pub namespace: Option<Seq<char>>,
    pub namespaces: Option<Map<Seq<char>, Seq<char>>>,
}

/// What a node holds besides its children.
#[derive(Debug)]
pub enum Content {
    Element { name: String, scope: Scope, attributes: Vec<(String, String)> },
    Text(String),
    CData(String),
    Comment(String),
    Instruction(String, Option<String>),
}

/// A node of a document.
#[derive(Debug)]
pub struct Node {
    pub depth: usize,
    pub content: Content,
}

/// A document, or a part of one: an element with everything below it.
#[derive(Debug)]
pub struct Document {
    pub nodes: Vec<Node>,
}

/// What a `Content` holds.
pub enum ContentView {
    Element { name: Seq<char>, scope: ScopeView, attributes: Map<Seq<char>, Seq<char>> },
    Text(Seq<char>),
    CData(Seq<char>),
    Comment(Seq<char>),
    Instruction(Seq<char>, Option<Seq<char>>),
}

/// What a `Node` holds.
pub struct NodeView {
    pub depth: usize,
    pub content: ContentView,
}

/// What a document holds.
pub type Doc = Seq<NodeView>;

/// The attributes in a list: of two with the same name, the first counts.
pub open spec fn attribute_map(list: Seq<(String, String)>) -> Map<Seq<char>, Seq<char>>
    decreases list.len(),
{
    if list.len() == 0 {
        Map::empty()
    } else {
        let before = attribute_map(list.drop_last());
        if before.contains_key(list.last().0@) {
            before
        } else {
            before.insert(list.last().0@, list.last().1@)
        }
    }
}

impl View for Scope {
    type V = ScopeView;

    open spec fn view(&self) -> ScopeView {
        ScopeView {
            prefix: match self.prefix {
                Some(s) => Some(s@),
                None => None,
            },
            namespace: match self.namespace {
                Some(s) => Some(s@),
                None => None,
            },
            namespaces: match self.namespaces {
                Some(list) => Some(attribute_map(list@)),
                None => None,
            },
        }
    }
}

/// No namespaces.
pub open spec fn no_scope() -> ScopeView {
    ScopeView { prefix: None, namespace: None, namespaces: None }
}

impl View for Content {
    type V = ContentView;

    open spec fn view(&self) -> ContentView {
        match *self {
            Content::Element { name, scope, attributes } => ContentView::Element {
                name: name@,
                scope: scope@,
                attributes: attribute_map(attributes@),
            },
            Content::Text(s) => ContentView::Text(s@),
            Content::CData(s) => ContentView::CData(s@),
            Content::Comment(s) => ContentView::Comment(s@),
            Content::Instruction(s, data) => ContentView::Instruction(
                s@,
                match data {
                    Some(d) => Some(d@),
                    None => None,
                },
            ),
        }
    }
}

impl View for Node {
    type V = NodeView;

    open spec fn view(&self) -> NodeView {
        NodeView { depth: self.depth, content: self.content@ }
    }
}

/// What the nodes hold.
pub open spec fn node_views(nodes: Seq<Node>) -> Doc {
    nodes.map_values(|n: Node| n@)
}

impl View for Document {
    type V = Doc;

    open spec fn view(&self) -> Doc {
        node_views(self.nodes@)
    }
}

impl NodeView {
    /// The node is an element of the given name.
    pub open spec fn is_named(self, wanted: Seq<char>) -> bool {
        self.content matches ContentView::Element { name, .. } && name == wanted
    }

    /// An attribute of the node.
    pub open spec fn attribute(self, key: Seq<char>) -> Option<Seq<char>> {
        match self.content {
            ContentView::Element { attributes, .. } => if attributes.contains_key(key) {
                Some(attributes[key])
            } else {
                None
            },
            _ => None,
        }
    }

    /// The node with an attribute set.
    pub open spec fn with_attribute(self, key: Seq<char>, value: Seq<char>) -> NodeView {
        match self.content {
            ContentView::Element { name, scope, attributes } => NodeView {
                content: ContentView::Element {
                    name,
                    scope,
                    attributes: attributes.insert(key, value),
                },
                ..self
            },
            _ => self,
        }
    }
}

/// The first position from `j` on that is not deeper than `depth`.
pub open spec fn end_from(d: Doc, depth: usize, j: int) -> int
    decreases d.len() - j,
{
    if j >= d.len() {
        d.len() as int
    } else if d[j].depth <= depth {
        j
    } else {
        end_from(d, depth, j + 1)
    }
}

/// The position behind everything below a node.
pub open spec fn end_of(d: Doc, at: int) -> int {
    end_from(d, d[at].depth, at + 1)
}

/// The first child with the given name, from position `j` on, of a node of the given depth.
pub open spec fn child_from(d: Doc, depth: usize, j: int, name: Seq<char>) -> Option<int>
    decreases d.len() - j,
{
    if j >= d.len() || d[j].depth <= depth {
        None
    } else if d[j].depth == depth + 1 && d[j].is_named(name) {
        Some(j)
    } else {
        child_from(d, depth, j + 1, name)
    }
}

/// The first child with the given name.
pub open spec fn child_of(d: Doc, at: int, name: Seq<char>) -> Option<int> {
    child_from(d, d[at].depth, at + 1, name)
}

/// The first descendant with the given name, from position `j` on, of a node of the given
/// depth.
pub open spec fn descendant_from(d: Doc, depth: usize, j: int, name: Seq<char>) -> Option<int>
    decreases d.len() - j,
{
    if j >= d.len() || d[j].depth <= depth {
        None
    } else if d[j].is_named(name) {
        Some(j)
    } else {
        descendant_from(d, depth, j + 1, name)
    }
}

/// The first descendant with the given name.
pub open spec fn descendant_of(d: Doc, at: int, name: Seq<char>) -> Option<int> {
    descendant_from(d, d[at].depth, at + 1, name)
}

/// The end of a chain of children.
pub open spec fn chain_of(d: Doc, at: int, names: Seq<Seq<char>>) -> Option<int>
    decreases names.len(),
{
    if names.len() == 0 {
        Some(at)
    } else {
        match chain_of(d, at, names.drop_last()) {
            Some(i) => child_of(d, i, names.last()),
            None => None,
        }
    }
}

/// The parts of a text between its slashes.
pub open spec fn pieces(s: Seq<char>) -> Seq<Seq<char>>
    decreases s.len(),
{
    if s.len() == 0 {
        seq![Seq::empty()]
    } else {
        let before = pieces(s.drop_last());
        if s.last() == '/' {
            before.push(Seq::empty())
        } else {
            before.drop_last().push(before.last().push(s.last()))
        }
    }
}

/// The path leads to any descendant.
pub open spec fn is_deep(path: Seq<char>) -> bool {
    path.len() >= 3 && path[0] == '.' && path[1] == '/' && path[2] == '/'
}

/// The path leads from child to child.
pub open spec fn is_direct(path: Seq<char>) -> bool {
    path.len() >= 2 && path[0] == '.' && path[1] == '/'
}

/// The node that a path leads to from the node at `at`.
pub open spec fn find_in(d: Doc, at: int, path: Seq<char>) -> Option<int> {
    if is_deep(path) {
        let names = pieces(path.skip(3));
        match descendant_of(d, at, names[0]) {
            Some(i) => chain_of(d, i, names.skip(1)),
            None => None,
        }
    } else if is_direct(path) {
        chain_of(d, at, pieces(path.skip(2)))
    } else {
        child_of(d, at, path)
    }
}

/// The document with an attribute of one node set.
pub open spec fn with_attribute(d: Doc, at: int, key: Seq<char>, value: Seq<char>) -> Doc {
    d.update(at, d[at].with_attribute(key, value))
}

/// The document with the `Value` of the node that a path leads to set; none where the path
/// leads nowhere.
pub open spec fn with_value(d: Doc, at: int, path: Seq<char>, value: Seq<char>) -> Option<Doc> {
    match find_in(d, at, path) {
        Some(i) => Some(with_attribute(d, i, "Value"@, value)),
        None => None,
    }
}

/// A sum that stops at the largest number.
pub open spec fn deeper(depth: usize, by: usize) -> usize {
    if depth > usize::MAX - by {
        usize::MAX
    } else {
        (depth + by) as usize
    }
}

/// The nodes, moved deeper.
pub open spec fn lowered(d: Doc, by: usize) -> Doc {
    d.map_values(|n: NodeView| NodeView { depth: deeper(n.depth, by), ..n })
}

/// The nodes, moved up.
pub open spec fn lifted(d: Doc, by: usize) -> Doc {
    d.map_values(
        |n: NodeView|
            NodeView {
                depth: if n.depth >= by {
                    (n.depth - by) as usize
                } else {
                    0
                },
                ..n
            },
    )
}

/// A node with everything below it, as a document of its own.
pub open spec fn part_at(d: Doc, at: int) -> Doc {
    lifted(d.subrange(at, end_of(d, at)), d[at].depth)
}

/// The document with a part put behind the last child of a node.
pub open spec fn with_child(d: Doc, at: int, part: Doc) -> Doc {
    let end = end_of(d, at);
    d.subrange(0, end) + lowered(part, deeper(d[at].depth, 1)) + d.subrange(end, d.len() as int)
}

/// The document without what is below a node.
pub open spec fn without_children(d: Doc, at: int) -> Doc {
    d.subrange(0, at + 1) + d.subrange(end_of(d, at), d.len() as int)
}

/// The document without a node and what is below it.
pub open spec fn without(d: Doc, at: int) -> Doc {
    d.subrange(0, at) + d.subrange(end_of(d, at), d.len() as int)
}

/// An element without children.
pub open spec fn element(name: Seq<char>, attributes: Map<Seq<char>, Seq<char>>) -> Doc {
    seq![NodeView { depth: 0, content: ContentView::Element { name, scope: no_scope(), attributes } }]
}

pub proof fn lemma_end(d: Doc, depth: usize, j: int)
    requires
        0 <= j <= d.len(),
    ensures
        j <= end_from(d, depth, j) <= d.len(),
        forall|k: int| j <= k < end_from(d, depth, j) ==> (#[trigger] d[k]).depth > depth,
        end_from(d, depth, j) < d.len() ==> d[end_from(d, depth, j)].depth <= depth,
    decreases d.len() - j,
{
    if j < d.len() && d[j].depth > depth {
        lemma_end(d, depth, j + 1);
    }
}

/// A child is below its parent.
pub proof fn lemma_child(d: Doc, depth: usize, j: int, name: Seq<char>)
    requires
        0 <= j <= d.len(),
    ensures
        child_from(d, depth, j, name) matches Some(i) ==> j <= i < d.len() && d[i].is_named(name)
            && i < end_from(d, depth, j),
    decreases d.len() - j,
{
    if j < d.len() && d[j].depth > depth && !(d[j].depth == depth + 1 && d[j].is_named(name)) {
        lemma_child(d, depth, j + 1, name);
    } else if j < d.len() && d[j].depth > depth {
        lemma_end(d, depth, j + 1);
    }
}

pub(crate) proof fn lemma_descendant(d: Doc, depth: usize, j: int, name: Seq<char>)
    requires
        0 <= j <= d.len(),
    ensures
        descendant_from(d, depth, j, name) matches Some(i) ==> j <= i < d.len() && d[i].is_named(
            name,
        ) && i < end_from(d, depth, j),
    decreases d.len() - j,
{
    if j < d.len() && d[j].depth > depth && !d[j].is_named(name) {
        lemma_descendant(d, depth, j + 1, name);
    } else if j < d.len() && d[j].depth > depth {
        lemma_end(d, depth, j + 1);
    }
}

pub(crate) proof fn lemma_chain(d: Doc, at: int, names: Seq<Seq<char>>)
    requires
        0 <= at < d.len(),
    ensures
        chain_of(d, at, names) matches Some(i) ==> at <= i < d.len() && (names.len() > 0
            ==> d[i].is_named(names.last())),
    decreases names.len(),
{
    if names.len() > 0 {
        lemma_chain(d, at, names.drop_last());
        match chain_of(d, at, names.drop_last()) {
            Some(i) => {
                lemma_child(d, d[i].depth, i + 1, names.last());
            },
            None => {},
        }
    }
}

pub proof fn lemma_pieces(s: Seq<char>)
    ensures
        pieces(s).len() >= 1,
    decreases s.len(),
{
    if s.len() > 0 {
        lemma_pieces(s.drop_last());
    }
}

/// A path leads to an element of the document.
pub proof fn lemma_find(d: Doc, at: int, path: Seq<char>)
    requires
        0 <= at < d.len(),
    ensures
        find_in(d, at, path) matches Some(i) ==> at <= i < d.len() && d[i].content is Element,
{
    if is_deep(path) {
        let names = pieces(path.skip(3));
        lemma_pieces(path.skip(3));
        lemma_descendant(d, d[at].depth, at + 1, names[0]);
        match descendant_of(d, at, names[0]) {
            Some(i) => {
                lemma_chain(d, i, names.skip(1));
            },
            None => {},
        }
    } else if is_direct(path) {
        lemma_pieces(path.skip(2));
        lemma_chain(d, at, pieces(path.skip(2)));
    } else {
        lemma_child(d, d[at].depth, at + 1, path);
    }
}

/// The two documents have the same elements at the same depths.
pub open spec fn same_shape(d: Doc, e: Doc) -> bool {
    &&& d.len() == e.len()
    &&& forall|i: int| 0 <= i < d.len() ==> (#[trigger] d[i]).depth == e[i].depth
    &&& forall|i: int, name: Seq<char>|
        0 <= i < d.len() ==> (#[trigger] d[i].is_named(name)) == e[i].is_named(name)
}

/// Documents of the same shape have the same children.
pub proof fn lemma_same_child(d: Doc, e: Doc, depth: usize, j: int, name: Seq<char>)
    requires
        same_shape(d, e),
        0 <= j,
    ensures
        child_from(d, depth, j, name) == child_from(e, depth, j, name),
        descendant_from(d, depth, j, name) == descendant_from(e, depth, j, name),
    decreases d.len() - j,
{
    if j < d.len() {
        assert(d[j].depth == e[j].depth);
        assert(d[j].is_named(name) == e[j].is_named(name));
        lemma_same_child(d, e, depth, j + 1, name);
    }
}

proof fn lemma_same_chain(d: Doc, e: Doc, at: int, names: Seq<Seq<char>>)
    requires
        same_shape(d, e),
        0 <= at < d.len(),
    ensures
        chain_of(d, at, names) == chain_of(e, at, names),
    decreases names.len(),
{
    if names.len() > 0 {
        lemma_same_chain(d, e, at, names.drop_last());
        lemma_chain(d, at, names.drop_last());
        match chain_of(d, at, names.drop_last()) {
            Some(i) => {
                assert(d[i].depth == e[i].depth);
                lemma_same_child(d, e, d[i].depth, i + 1, names.last());
            },
            None => {},
        }
    }
}

/// A path leads to the same place in documents of the same shape.
pub proof fn lemma_same_find(d: Doc, e: Doc, at: int, path: Seq<char>)
    requires
        same_shape(d, e),
        0 <= at < d.len(),
    ensures
        find_in(d, at, path) == find_in(e, at, path),
{
    assert(d[at].depth == e[at].depth);
    if is_deep(path) {
        let names = pieces(path.skip(3));
        lemma_same_child(d, e, d[at].depth, at + 1, names[0]);
        lemma_descendant(d, d[at].depth, at + 1, names[0]);
        match descendant_of(d, at, names[0]) {
            Some(i) => {
                lemma_same_chain(d, e, i, names.skip(1));
            },
            None => {},
        }
    } else if is_direct(path) {
        lemma_same_chain(d, e, at, pieces(path.skip(2)));
    } else {
        lemma_same_child(d, e, d[at].depth, at + 1, path);
    }
}

/// Setting an attribute moves no node: every path leads where it led before.
pub proof fn law_attributes_keep_paths(
    d: Doc,
    at: int,
    key: Seq<char>,
    value: Seq<char>,
    from: int,
    path: Seq<char>,
)
    requires
        0 <= at < d.len(),
        0 <= from < d.len(),
    ensures
        find_in(with_attribute(d, at, key, value), from, path) == find_in(d, from, path),
{
    assert(same_shape(d, with_attribute(d, at, key, value)));
    lemma_same_find(d, with_attribute(d, at, key, value), from, path);
}

/// A value that was set at a path is read there, and no other node has changed.
pub proof fn law_value_is_read_back(d: Doc, at: int, path: Seq<char>, value: Seq<char>)
    requires
        0 <= at < d.len(),
        find_in(d, at, path) is Some,
    ensures
        ({
            let i = find_in(d, at, path)->0;
            let e = with_value(d, at, path, value)->0;
            &&& with_value(d, at, path, value) is Some
            &&& find_in(e, at, path) == Some(i)
            &&& e[i].attribute("Value"@) == Some(value)
            &&& forall|j: int| 0 <= j < d.len() && j != i ==> e[j] == #[trigger] d[j]
        }),
{
    lemma_find(d, at, path);
    let i = find_in(d, at, path)->0;
    law_attributes_keep_paths(d, i, "Value"@, value, at, path);
}

/// Two nodes may follow each other below a root: the second is at most one deeper, and then the
/// first is an element.
pub open spec fn follows(a: NodeView, b: NodeView) -> bool {
    &&& 1 <= b.depth <= a.depth + 1
    &&& b.depth == a.depth + 1 ==> a.content is Element
}

/// The nodes at `i` and behind it may follow each other.
pub open spec fn follows_at(d: Doc, i: int) -> bool {
    follows(d[i], d[i + 1])
}

/// The nodes make one tree: the first is an element at depth 0, and everything else is below
/// it.
pub open spec fn is_tree(d: Doc) -> bool {
    &&& d.len() > 0
    &&& d[0].depth == 0
    &&& d[0].content is Element
    &&& forall|i: int| 0 <= i < d.len() - 1 ==> #[trigger] follows_at(d, i)
}

pub proof fn lemma_tree_depth(d: Doc, i: int)
    requires
        is_tree(d),
        0 <= i < d.len(),
    ensures
        d[i].depth <= i,
        i > 0 ==> d[i].depth >= 1,
    decreases i,
{
    if i > 0 {
        lemma_tree_depth(d, i - 1);
        assert(follows_at(d, i - 1));
    }
}

pub proof fn lemma_attribute_tree(d: Doc, at: int, key: Seq<char>, value: Seq<char>)
    requires
        is_tree(d),
        0 <= at < d.len(),
    ensures
        is_tree(with_attribute(d, at, key, value)),
{
    let e = with_attribute(d, at, key, value);
    assert forall|i: int| 0 <= i < e.len() - 1 implies #[trigger] follows_at(e, i) by {
        assert(follows_at(d, i));
    }
}

pub proof fn lemma_child_tree(d: Doc, at: int, part: Doc)
    requires
        is_tree(d),
        is_tree(part),
        0 <= at < d.len(),
        d[at].content is Element,
        d.len() + part.len() <= usize::MAX,
    ensures
        is_tree(with_child(d, at, part)),
{
    let e = with_child(d, at, part);
    let base = d[at].depth;
    let end = end_of(d, at);
    let n = part.len() as int;
    lemma_end(d, base, at + 1);
    lemma_tree_depth(d, at);
    assert forall|i: int| 0 <= i < e.len() - 1 implies #[trigger] follows_at(e, i) by {
        if i < end - 1 {
            assert(follows_at(d, i));
        } else if i == end - 1 {
            if end - 1 > at {
                assert(d[end - 1].depth > base);
            }
        } else if i < end + n - 1 {
            lemma_tree_depth(part, i - end);
            lemma_tree_depth(part, i + 1 - end);
            assert(follows_at(part, i - end));
        } else if i == end + n - 1 {
            lemma_tree_depth(part, n - 1);
            lemma_tree_depth(d, end);
        } else {
            assert(follows_at(d, i - n));
        }
    }
}

pub proof fn lemma_cleared_tree(d: Doc, at: int)
    requires
        is_tree(d),
        0 <= at < d.len(),
    ensures
        is_tree(without_children(d, at)),
{
    let e = without_children(d, at);
    let end = end_of(d, at);
    lemma_end(d, d[at].depth, at + 1);
    assert forall|i: int| 0 <= i < e.len() - 1 implies #[trigger] follows_at(e, i) by {
        if i < at {
            assert(follows_at(d, i));
        } else if i == at {
            lemma_tree_depth(d, end);
        } else {
            assert(follows_at(d, i - at - 1 + end));
        }
    }
}

pub proof fn lemma_removed_tree(d: Doc, at: int)
    requires
        is_tree(d),
        0 < at < d.len(),
    ensures
        is_tree(without(d, at)),
{
    let e = without(d, at);
    let end = end_of(d, at);
    lemma_end(d, d[at].depth, at + 1);
    assert forall|i: int| 0 <= i < e.len() - 1 implies #[trigger] follows_at(e, i) by {
        if i < at - 1 {
            assert(follows_at(d, i));
        } else if i == at - 1 {
            assert(follows_at(d, at - 1));
            lemma_tree_depth(d, end);
        } else {
            assert(follows_at(d, i - at + end));
        }
    }
}

pub proof fn lemma_part_tree(d: Doc, at: int)
    requires
        is_tree(d),
        0 <= at < d.len(),
        d[at].content is Element,
    ensures
        is_tree(part_at(d, at)),
{
    let e = part_at(d, at);
    let end = end_of(d, at);
    lemma_end(d, d[at].depth, at + 1);
    assert forall|i: int| 0 <= i < e.len() - 1 implies #[trigger] follows_at(e, i) by {
        assert(follows_at(d, at + i));
        assert(d[at + i + 1].depth > d[at].depth);
    }
}

fn same_name(a: &String, b: &String) -> (r: bool)
    ensures
        r == (a@ == b@),
{
    *a == *b
}

proof fn lemma_attribute_map(list: Seq<(String, String)>, key: Seq<char>, k: int)
    requires
        0 <= k <= list.len(),
        forall|j: int| 0 <= j < k ==> (#[trigger] list[j]).0@ != key,
    ensures
        !attribute_map(list.take(k)).contains_key(key),
        k < list.len() && list[k].0@ == key ==> attribute_map(list).contains_key(key)
            && attribute_map(list)[key] == list[k].1@,
        k == list.len() ==> !attribute_map(list).contains_key(key),
    decreases list.len(),
{
    if k > 0 {
        lemma_absent(list.take(k), key);
    } else {
        assert(list.take(0) =~= Seq::<(String, String)>::empty());
    }
    if k == list.len() {
        assert(list.take(k) =~= list);
    } else if list[k].0@ == key {
        lemma_present(list, key, k);
    }
}

proof fn lemma_absent(list: Seq<(String, String)>, key: Seq<char>)
    requires
        forall|j: int| 0 <= j < list.len() ==> (#[trigger] list[j]).0@ != key,
    ensures
        !attribute_map(list).contains_key(key),
    decreases list.len(),
{
    if list.len() > 0 {
        assert(list[list.len() - 1].0@ != key);
        assert forall|j: int| 0 <= j < list.drop_last().len() implies (
        #[trigger] list.drop_last()[j]).0@ != key by {
            assert(list[j].0@ != key);
        }
        lemma_absent(list.drop_last(), key);
    }
}

proof fn lemma_present(list: Seq<(String, String)>, key: Seq<char>, k: int)
    requires
        0 <= k < list.len(),
        list[k].0@ == key,
        forall|j: int| 0 <= j < k ==> (#[trigger] list[j]).0@ != key,
    ensures
        attribute_map(list).contains_key(key),
        attribute_map(list)[key] == list[k].1@,
    decreases list.len(),
{
    let d = list.drop_last();
    if k == list.len() - 1 {
        assert forall|j: int| 0 <= j < d.len() implies (#[trigger] d[j]).0@ != key by {
            assert(list[j].0@ != key);
        }
        lemma_absent(d, key);
    } else {
        assert(d[k] == list[k]);
        assert forall|j: int| 0 <= j < k implies (#[trigger] d[j]).0@ != key by {
            assert(list[j].0@ != key);
        }
        lemma_present(d, key, k);
    }
}

proof fn lemma_replaced(list: Seq<(String, String)>, k: int, e: (String, String))
    requires
        0 <= k < list.len(),
        list[k].0@ == e.0@,
        forall|j: int| 0 <= j < k ==> (#[trigger] list[j]).0@ != e.0@,
    ensures
        attribute_map(list.update(k, e)) =~= attribute_map(list).insert(e.0@, e.1@),
    decreases list.len(),
{
    let d = list.drop_last();
    let u = list.update(k, e);
    if k == list.len() - 1 {
        assert(u.drop_last() =~= d);
        assert forall|j: int| 0 <= j < d.len() implies (#[trigger] d[j]).0@ != e.0@ by {
            assert(list[j].0@ != e.0@);
        }
        lemma_absent(d, e.0@);
    } else {
        assert(u.drop_last() =~= d.update(k, e));
        assert forall|j: int| 0 <= j < k implies (#[trigger] d[j]).0@ != e.0@ by {
            assert(list[j].0@ != e.0@);
        }
        assert(d[k] == list[k]);
        lemma_replaced(d, k, e);
        lemma_present(d, e.0@, k);
        assert(u.last() == list.last());
    }
}

fn position_of(list: &Vec<(String, String)>, key: &str) -> (r: usize)
    ensures
        r <= list.len(),
        forall|j: int| 0 <= j < r ==> (#[trigger] list[j]).0@ != key@,
        r < list.len() ==> list[r as int].0@ == key@,
{
    let wanted: String = key.to_owned();
    let mut i: usize = 0;
    while i < list.len()
        invariant
            i <= list.len(),
            wanted@ == key@,
            forall|j: int| 0 <= j < i ==> (#[trigger] list[j]).0@ != key@,
        decreases list.len() - i,
    {
        if same_name(&list[i].0, &wanted) {
            return i;
        }
        i += 1;
    }
    i
}

fn put_attribute(list: &mut Vec<(String, String)>, key: &str, value: &str)
    ensures
        attribute_map(final(list)@) == attribute_map(old(list)@).insert(key@, value@),
{
    let i: usize = position_of(list, key);
    let e: (String, String) = (key.to_owned(), value.to_owned());
    let ghost start = list@;
    if i < list.len() {
        proof {
            lemma_replaced(start, i as int, e);
        }
        list.set(i, e);
    } else {
        proof {
            lemma_attribute_map(start, key@, i as int);
            assert(start.push(e).drop_last() =~= start);
        }
        list.push(e);
    }
}

fn clone_attributes(list: &Vec<(String, String)>) -> (r: Vec<(String, String)>)
    ensures
        r@ == list@,
{
    let mut out: Vec<(String, String)> = Vec::new();
    let mut i: usize = 0;
    while i < list.len()
        invariant
            i <= list.len(),
            out@ == list@.take(i as int),
        decreases list.len() - i,
    {
        out.push((list[i].0.clone(), list[i].1.clone()));
        i += 1;
        assert(out@ =~= list@.take(i as int));
    }
    assert(out@ =~= list@);
    out
}

impl Scope {
    /// No namespaces.
    pub fn none() -> (r: Scope)
        ensures
            r@ == no_scope(),
    {
        Scope { prefix: None, namespace: None, namespaces: None }
    }
}

impl Clone for Scope {
    fn clone(&self) -> (r: Self)
        ensures
            r@ == self@,
    {
        Scope {
            prefix: match &self.prefix {
                Some(s) => Some(s.clone()),
                None => None,
            },
            namespace: match &self.namespace {
                Some(s) => Some(s.clone()),
                None => None,
            },
            namespaces: match &self.namespaces {
                Some(list) => Some(clone_attributes(list)),
                None => None,
            },
        }
    }
}

impl Clone for Content {
    fn clone(&self) -> (r: Self)
        ensures
            r@ == self@,
    {
        match self {
            Content::Element { name, scope, attributes } => Content::Element {
                name: name.clone(),
                scope: scope.clone(),
                attributes: clone_attributes(attributes),
            },
            Content::Text(s) => Content::Text(s.clone()),
            Content::CData(s) => Content::CData(s.clone()),
            Content::Comment(s) => Content::Comment(s.clone()),
            Content::Instruction(s, data) => Content::Instruction(
                s.clone(),
                match data {
                    Some(d) => Some(d.clone()),
                    None => None,
                },
            ),
        }
    }
}

impl Node {
    fn named(&self, wanted: &String) -> (r: bool)
        ensures
            r == self@.is_named(wanted@),
    {
        match &self.content {
            Content::Element { name, .. } => same_name(name, wanted),
            _ => false,
        }
    }
}

impl Document {
    /// An element without attributes and children.
    pub fn new(name: &str) -> (r: Document)
        ensures
            r@ == element(name@, Map::empty()),
            is_tree(r@),
    {
        let mut nodes: Vec<Node> = Vec::new();
        let attributes: Vec<(String, String)> = Vec::new();
        assert(attribute_map(attributes@) == Map::<Seq<char>, Seq<char>>::empty());
        let scope: Scope = Scope::none();
        nodes.push(
            Node { depth: 0, content: Content::Element { name: name.to_owned(), scope, attributes } },
        );
        let r = Document { nodes };
        assert(r@ =~= element(name@, Map::empty()));
        r
    }

    /// An attribute of a node.
    pub fn attribute(&self, at: usize, key: &str) -> (r: Option<String>)
        requires
            at < self.nodes.len(),
        ensures
            match r {
                Some(v) => self@[at as int].attribute(key@) == Some(v@),
                None => self@[at as int].attribute(key@) is None,
            },
    {
        match &self.nodes[at].content {
            Content::Element { attributes, .. } => {
                let i: usize = position_of(attributes, key);
                proof {
                    lemma_attribute_map(attributes@, key@, i as int);
                }
                if i < attributes.len() {
                    Some(attributes[i].1.clone())
                } else {
                    None
                }
            },
            _ => None,
        }
    }

    /// Whether a node is an element of the given name.
    pub fn is_named(&self, at: usize, name: &str) -> (r: bool)
        requires
            at < self.nodes.len(),
        ensures
            r == self@[at as int].is_named(name@),
    {
        let wanted: String = name.to_owned();
        self.nodes[at].named(&wanted)
    }

    /// Sets an attribute of a node.
    pub fn set_attribute(&mut self, at: usize, key: &str, value: &str)
        requires
            at < old(self).nodes.len(),
        ensures
            final(self)@ == with_attribute(old(self)@, at as int, key@, value@),
            final(self).nodes.len() == old(self).nodes.len(),
            is_tree(old(self)@) ==> is_tree(final(self)@),
    {
        let ghost start = self.nodes@;
        proof {
            if is_tree(self@) {
                lemma_attribute_tree(self@, at as int, key@, value@);
            }
        }
        match &mut self.nodes[at].content {
            Content::Element { attributes, .. } => {
                put_attribute(attributes, key, value);
            },
            _ => {},
        }
        assert(node_views(self.nodes@) =~= with_attribute(
            node_views(start),
            at as int,
            key@,
            value@,
        ));
    }

    /// The position behind everything below a node.
    pub fn end(&self, at: usize) -> (r: usize)
        requires
            at < self.nodes.len(),
        ensures
            r == end_of(self@, at as int),
            at < r <= self.nodes.len(),
    {
        let depth: usize = self.nodes[at].depth;
        let mut j: usize = at + 1;
        while j < self.nodes.len() && self.nodes[j].depth > depth
            invariant
                at < j <= self.nodes.len(),
                end_from(self@, depth, j as int) == end_from(self@, depth, at + 1),
            decreases self.nodes.len() - j,
        {
            assert(self@[j as int] == self.nodes[j as int]@);
            j += 1;
        }
        proof {
            if j < self.nodes.len() {
                assert(self@[j as int] == self.nodes[j as int]@);
            }
        }
        j
    }

    fn descendant(&self, at: usize, name: &str) -> (r: Option<usize>)
        requires
            at < self.nodes.len(),
        ensures
            match r {
                Some(i) => descendant_of(self@, at as int, name@) == Some(i as int) && i
                    < self.nodes.len(),
                None => descendant_of(self@, at as int, name@) is None,
            },
    {
        let wanted: String = name.to_owned();
        let depth: usize = self.nodes[at].depth;
        let mut j: usize = at + 1;
        while j < self.nodes.len() && self.nodes[j].depth > depth
            invariant
                at < j <= self.nodes.len(),
                depth == self@[at as int].depth,
                wanted@ == name@,
                descendant_from(self@, depth, j as int, name@) == descendant_from(
                    self@,
                    depth,
                    at + 1,
                    name@,
                ),
            decreases self.nodes.len() - j,
        {
            assert(self@[j as int] == self.nodes[j as int]@);
            if self.nodes[j].named(&wanted) {
                return Some(j);
            }
            j += 1;
        }
        proof {
            if j < self.nodes.len() {
                assert(self@[j as int] == self.nodes[j as int]@);
            }
        }
        None
    }

    fn chain(&self, at: usize, names: &Vec<String>, from: usize) -> (r: Option<usize>)
        requires
            at < self.nodes.len(),
            from <= names.len(),
        ensures
            match r {
                Some(i) => chain_of(self@, at as int, texts(names@).skip(from as int)) == Some(
                    i as int,
                ) && i < self.nodes.len(),
                None => chain_of(self@, at as int, texts(names@).skip(from as int)) is None,
            },
    {
        let ghost whole = texts(names@).skip(from as int);
        let mut current: usize = at;
        let mut k: usize = from;
        assert(whole.take(0) =~= Seq::<Seq<char>>::empty());
        while k < names.len()
            invariant
                from <= k <= names.len(),
                at < self.nodes.len(),
                current < self.nodes.len(),
                whole == texts(names@).skip(from as int),
                chain_of(self@, at as int, whole.take(k - from)) == Some(current as int),
            decreases names.len() - k,
        {
            proof {
                let now = whole.take(k + 1 - from);
                assert(now.drop_last() =~= whole.take(k - from));
                assert(now.last() == names[k as int]@);
            }
            match child(self, current, names[k].as_str()) {
                Some(i) => {
                    current = i;
                },
                None => {
                    proof {
                        self.lemma_broken(at as int, whole, k + 1 - from);
                    }
                    return None;
                },
            }
            k += 1;
        }
        assert(whole.take(k - from) =~= whole);
        Some(current)
    }

    proof fn lemma_broken(&self, at: int, names: Seq<Seq<char>>, k: int)
        requires
            0 <= k <= names.len(),
            chain_of(self@, at, names.take(k)) is None,
        ensures
            chain_of(self@, at, names) is None,
        decreases names.len(),
    {
        if k == names.len() {
            assert(names.take(k) =~= names);
        } else {
            assert(names.drop_last().take(k) =~= names.take(k));
            self.lemma_broken(at, names.drop_last(), k);
        }
    }

    /// A node with everything below it, as a document of its own.
    pub fn copy(&self, at: usize) -> (r: Document)
        requires
            at < self.nodes.len(),
        ensures
            r@ == part_at(self@, at as int),
            r.nodes.len() > 0,
            is_tree(self@) && self@[at as int].content is Element ==> is_tree(r@),
    {
        proof {
            if is_tree(self@) && self@[at as int].content is Element {
                lemma_part_tree(self@, at as int);
            }
        }
        let end: usize = self.end(at);
        let by: usize = self.nodes[at].depth;
        let ghost whole = part_at(self@, at as int);
        let mut nodes: Vec<Node> = Vec::new();
        let mut i: usize = at;
        assert(node_views(nodes@) =~= whole.take(0));
        while i < end
            invariant
                at <= i <= end <= self.nodes.len(),
                end == end_of(self@, at as int),
                by == self@[at as int].depth,
                whole == part_at(self@, at as int),
                node_views(nodes@) == whole.take(i - at),
                nodes.len() == i - at,
            decreases end - i,
        {
            let depth: usize = self.nodes[i].depth;
            let node = Node {
                depth: if depth >= by {
                    depth - by
                } else {
                    0
                },
                content: self.nodes[i].content.clone(),
            };
            proof {
                assert(self@[i as int] == self.nodes[i as int]@);
                assert(node_views(nodes@.push(node)) =~= node_views(nodes@).push(node@));
                assert(whole.take(i + 1 - at) =~= whole.take(i - at).push(node@));
            }
            nodes.push(node);
            i += 1;
        }
        assert(whole.take(end - at) =~= whole);
        Document { nodes }
    }

    /// Puts a part behind the last child of a node.
    pub fn append_child(&mut self, at: usize, part: Document)
        requires
            at < old(self).nodes.len(),
        ensures
            final(self)@ == with_child(old(self)@, at as int, part@),
            final(self).nodes.len() >= old(self).nodes.len(),
            is_tree(old(self)@) && is_tree(part@) && old(self)@[at as int].content is Element
                ==> is_tree(final(self)@),
    {
        let ghost start = self.nodes@;
        let end: usize = self.end(at);
        let base: usize = self.nodes[at].depth;
        let by: usize = if base == usize::MAX {
            base
        } else {
            base + 1
        };
        let mut added: Vec<Node> = part.nodes;
        let ghost given = added@;
        let mut i: usize = 0;
        while i < added.len()
            invariant
                i <= added.len(),
                added.len() == given.len(),
                forall|j: int| i <= j < given.len() ==> #[trigger] added[j] == given[j],
                forall|j: int|
                    0 <= j < i ==> (#[trigger] added[j])@ == lowered(node_views(given), by)[j],
            decreases added.len() - i,
        {
            let depth: usize = added[i].depth;
            added[i].depth = if depth > usize::MAX - by {
                usize::MAX
            } else {
                depth + by
            };
            i += 1;
        }
        let mut tail: Vec<Node> = self.nodes.split_off(end);
        self.nodes.append(&mut added);
        self.nodes.append(&mut tail);
        assert(node_views(self.nodes@) =~= with_child(node_views(start), at as int, part@));
        proof {
            let total: usize = self.nodes.len();
            let d = node_views(start);
            if is_tree(d) && is_tree(part@) && d[at as int].content is Element {
                assert(d.len() + part@.len() == total);
                lemma_child_tree(d, at as int, part@);
            }
        }
    }

    /// Removes what is below a node.
    pub fn clear_children(&mut self, at: usize)
        requires
            at < old(self).nodes.len(),
        ensures
            final(self)@ == without_children(old(self)@, at as int),
            final(self).nodes.len() > at,
            is_tree(old(self)@) ==> is_tree(final(self)@),
    {
        let ghost start = self.nodes@;
        let end: usize = self.end(at);
        let mut tail: Vec<Node> = self.nodes.split_off(end);
        self.nodes.truncate(at + 1);
        self.nodes.append(&mut tail);
        proof {
            assert(node_views(self.nodes@) =~= without_children(node_views(start), at as int));
            if is_tree(node_views(start)) {
                lemma_cleared_tree(node_views(start), at as int);
            }
        }
    }

    /// Removes a node and what is below it.
    pub fn remove(&mut self, at: usize)
        requires
            at < old(self).nodes.len(),
        ensures
            final(self)@ == without(old(self)@, at as int),
            final(self).nodes.len() >= at,
            is_tree(old(self)@) && at > 0 ==> is_tree(final(self)@),
    {
        let ghost start = self.nodes@;
        let end: usize = self.end(at);
        let mut tail: Vec<Node> = self.nodes.split_off(end);
        self.nodes.truncate(at);
        self.nodes.append(&mut tail);
        proof {
            assert(node_views(self.nodes@) =~= without(node_views(start), at as int));
            if is_tree(node_views(start)) && at > 0 {
                lemma_removed_tree(node_views(start), at as int);
            }
        }
    }
}

impl Clone for Document {
    fn clone(&self) -> (r: Self)
        ensures
            r@ == self@,
    {
        let mut nodes: Vec<Node> = Vec::new();
        let mut i: usize = 0;
        assert(node_views(nodes@) =~= self@.take(0));
        while i < self.nodes.len()
            invariant
                i <= self.nodes.len(),
                node_views(nodes@) == self@.take(i as int),
            decreases self.nodes.len() - i,
        {
            let node = Node {
                depth: self.nodes[i].depth,
                content: self.nodes[i].content.clone(),
            };
            proof {
                assert(node_views(nodes@.push(node)) =~= node_views(nodes@).push(node@));
                assert(self@.take(i + 1) =~= self@.take(i as int).push(node@));
            }
            nodes.push(node);
            i += 1;
        }
        assert(self@.take(i as int) =~= self@);
        Document { nodes }
    }
}

/// The first child with the given name.
pub fn child(doc: &Document, at: usize, name: &str) -> (r: Option<usize>)
    requires
        at < doc.nodes.len(),
    ensures
        match r {
            Some(i) => child_of(doc@, at as int, name@) == Some(i as int) && at < i
                < doc.nodes.len() && doc@[i as int].is_named(name@),
            None => child_of(doc@, at as int, name@) is None,
        },
{
    let wanted: String = name.to_owned();
    let depth: usize = doc.nodes[at].depth;
    let mut j: usize = at + 1;
    while j < doc.nodes.len() && doc.nodes[j].depth > depth
        invariant
            at < j <= doc.nodes.len(),
            depth == doc@[at as int].depth,
            wanted@ == name@,
            child_from(doc@, depth, j as int, name@) == child_from(doc@, depth, at + 1, name@),
        decreases doc.nodes.len() - j,
    {
        assert(doc@[j as int] == doc.nodes[j as int]@);
        if doc.nodes[j].depth - depth == 1 && doc.nodes[j].named(&wanted) {
            return Some(j);
        }
        j += 1;
    }
    proof {
        if j < doc.nodes.len() {
            assert(doc@[j as int] == doc.nodes[j as int]@);
        }
    }
    None
}

/// What the texts hold.
pub open spec fn texts(list: Seq<String>) -> Seq<Seq<char>> {
    list.map_values(|s: String| s@)
}

/// The parts of a text between its slashes.
fn split_path(chars: &Vec<char>, from: usize) -> (r: Vec<String>)
    requires
        from <= chars.len(),
    ensures
        texts(r@) == pieces(chars@.skip(from as int)),
        r.len() >= 1,
{
    let ghost whole = chars@.skip(from as int);
    let mut done: Vec<String> = Vec::new();
    let mut open: String = String::new();
    let mut i: usize = from;
    proof {
        assert(whole.take(0) =~= Seq::<char>::empty());
        assert(texts(done@).push(open@) =~= pieces(whole.take(0)));
    }
    while i < chars.len()
        invariant
            from <= i <= chars.len(),
            whole == chars@.skip(from as int),
            texts(done@).push(open@) == pieces(whole.take(i - from)),
        decreases chars.len() - i,
    {
        let c: char = chars[i];
        let ghost before = texts(done@).push(open@);
        proof {
            let now = whole.take(i + 1 - from);
            assert(now.drop_last() =~= whole.take(i - from));
            assert(now.last() == c);
            assert(before.drop_last() =~= texts(done@));
        }
        if c == '/' {
            let ghost earlier = done@;
            done.push(open);
            open = String::new();
            assert(texts(done@) =~= before);
        } else {
            open.push(c);
        }
        i += 1;
    }
    let ghost earlier = done@;
    done.push(open);
    proof {
        assert(whole.take(i - from) =~= whole);
        assert(texts(done@) =~= texts(earlier).push(open@));
    }
    done
}

/// The node that a path leads to from the node at `at`.
pub fn find(doc: &Document, at: usize, path: &str) -> (r: Option<usize>)
    requires
        at < doc.nodes.len(),
    ensures
        match r {
            Some(i) => find_in(doc@, at as int, path@) == Some(i as int) && at <= i
                < doc.nodes.len() && doc@[i as int].content is Element,
            None => find_in(doc@, at as int, path@) is None,
        },
{
    proof {
        lemma_find(doc@, at as int, path@);
    }
    let chars: Vec<char> = chars_of(path);
    let direct: bool = chars.len() >= 2 && chars[0] == '.' && chars[1] == '/';
    if direct && chars.len() >= 3 && chars[2] == '/' {
        let names: Vec<String> = split_path(&chars, 3);
        assert(texts(names@)[0] == names[0]@);
        match doc.descendant(at, names[0].as_str()) {
            Some(i) => doc.chain(i, &names, 1),
            None => None,
        }
    } else if direct {
        let names: Vec<String> = split_path(&chars, 2);
        assert(texts(names@).skip(0) =~= texts(names@));
        doc.chain(at, &names, 0)
    } else {
        child(doc, at, path)
    }
}

/// The children, from position `j` on, with the given name.
pub open spec fn children_up_to(d: Doc, depth: usize, from: int, to: int, name: Seq<char>) -> Seq<
    int,
>
    decreases to - from,
{
    if to <= from {
        Seq::empty()
    } else {
        let before = children_up_to(d, depth, from, to - 1, name);
        if d[to - 1].depth == depth + 1 && d[to - 1].is_named(name) {
            before.push(to - 1)
        } else {
            before
        }
    }
}

/// The children with the given name, in order.
pub open spec fn children_named(d: Doc, at: int, name: Seq<char>) -> Seq<int> {
    children_up_to(d, d[at].depth, at + 1, end_of(d, at), name)
}

/// The positions in a list.
pub open spec fn positions(list: Seq<usize>) -> Seq<int> {
    list.map_values(|i: usize| i as int)
}

/// The children with the given name, in order.
pub fn find_all_children(doc: &Document, at: usize, name: &str) -> (r: Vec<usize>)
    requires
        at < doc.nodes.len(),
    ensures
        positions(r@) == children_named(doc@, at as int, name@),
        forall|i: int|
            0 <= i < r.len() ==> at < #[trigger] r[i] < doc.nodes.len()
                && doc@[r[i] as int].is_named(name@),
        forall|i: int, j: int| 0 <= i < j < r.len() ==> r[i] < r[j],
{
    let wanted: String = name.to_owned();
    let depth: usize = doc.nodes[at].depth;
    let end: usize = doc.end(at);
    proof {
        lemma_end(doc@, depth, at + 1);
    }
    let mut out: Vec<usize> = Vec::new();
    let mut j: usize = at + 1;
    assert(positions(out@) =~= Seq::<int>::empty());
    while j < end
        invariant
            at < j <= end <= doc.nodes.len(),
            wanted@ == name@,
            forall|k: int| at + 1 <= k < end ==> (#[trigger] doc@[k]).depth > depth,
            positions(out@) == children_up_to(doc@, depth, at + 1, j as int, name@),
            forall|i: int|
                0 <= i < out.len() ==> at < #[trigger] out[i] < j
                    && doc@[out[i] as int].is_named(name@),
            forall|i: int, k: int| 0 <= i < k < out.len() ==> out[i] < out[k],
        decreases end - j,
    {
        assert(doc@[j as int] == doc.nodes[j as int]@);
        assert(doc@[j as int].depth > depth);
        let ghost before = out@;
        if doc.nodes[j].depth - depth == 1 && doc.nodes[j].named(&wanted) {
            out.push(j);
            assert(positions(out@) =~= positions(before).push(j as int));
        }
        j += 1;
    }
    out
}

/// The descendants with the given name, in document order, among the positions before `to`.
pub open spec fn named_up_to(d: Doc, from: int, to: int, name: Seq<char>) -> Seq<int>
    decreases to - from,
{
    if to <= from {
        Seq::empty()
    } else {
        let before = named_up_to(d, from, to - 1, name);
        if d[to - 1].is_named(name) {
            before.push(to - 1)
        } else {
            before
        }
    }
}

/// The descendants with the given name, at any depth, in document order.
pub fn find_all_descendants(doc: &Document, at: usize, name: &str) -> (r: Vec<usize>)
    requires
        at < doc.nodes.len(),
    ensures
        positions(r@) == named_up_to(doc@, at + 1, end_of(doc@, at as int), name@),
        forall|i: int| 0 <= i < r.len() ==> at < #[trigger] r[i] < doc.nodes.len(),
{
    let wanted: String = name.to_owned();
    let end: usize = doc.end(at);
    let mut out: Vec<usize> = Vec::new();
    let mut j: usize = at + 1;
    assert(positions(out@) =~= Seq::<int>::empty());
    while j < end
        invariant
            at < j <= end <= doc.nodes.len(),
            wanted@ == name@,
            positions(out@) == named_up_to(doc@, at + 1, j as int, name@),
            forall|i: int| 0 <= i < out.len() ==> at < #[trigger] out[i] < doc.nodes.len(),
        decreases end - j,
    {
        assert(doc@[j as int] == doc.nodes[j as int]@);
        let ghost before = out@;
        if doc.nodes[j].named(&wanted) {
            out.push(j);
            assert(positions(out@) =~= positions(before).push(j as int));
        }
        j += 1;
    }
    out
}

/// The elements among the positions before `to`.
pub open spec fn elements_up_to(d: Doc, from: int, to: int) -> Seq<int>
    decreases to - from,
{
    if to <= from {
        Seq::empty()
    } else {
        let before = elements_up_to(d, from, to - 1);
        if d[to - 1].content is Element {
            before.push(to - 1)
        } else {
            before
        }
    }
}

/// A node and the elements below it, in document order.
pub fn iter_elements(doc: &Document, at: usize) -> (r: Vec<usize>)
    requires
        at < doc.nodes.len(),
    ensures
        positions(r@) == elements_up_to(doc@, at as int, end_of(doc@, at as int)),
        forall|i: int| 0 <= i < r.len() ==> at <= #[trigger] r[i] < doc.nodes.len(),
{
    let end: usize = doc.end(at);
    let mut out: Vec<usize> = Vec::new();
    let mut j: usize = at;
    assert(positions(out@) =~= Seq::<int>::empty());
    while j < end
        invariant
            at <= j <= end <= doc.nodes.len(),
            positions(out@) == elements_up_to(doc@, at as int, j as int),
            forall|i: int| 0 <= i < out.len() ==> at <= #[trigger] out[i] < doc.nodes.len(),
        decreases end - j,
    {
        assert(doc@[j as int] == doc.nodes[j as int]@);
        let ghost before = out@;
        let is_element: bool = match &doc.nodes[j].content {
            Content::Element { .. } => true,
            _ => false,
        };
        if is_element {
            out.push(j);
            assert(positions(out@) =~= positions(before).push(j as int));
        }
        j += 1;
    }
    out
}

/// Sets the `Value` of the node that a path leads to. Says whether it leads anywhere; nothing
/// changes where it does not.
pub fn set_value(doc: &mut Document, at: usize, path: &str, value: &str) -> (r: bool)
    requires
        at < old(doc).nodes.len(),
    ensures
        r == (with_value(old(doc)@, at as int, path@, value@) is Some),
        r ==> with_value(old(doc)@, at as int, path@, value@) == Some(final(doc)@),
        !r ==> *final(doc) == *old(doc),
        final(doc).nodes.len() == old(doc).nodes.len(),
        is_tree(old(doc)@) ==> is_tree(final(doc)@),
{
    match find(doc, at, path) {
        Some(i) => {
            doc.set_attribute(i, "Value", value);
            true
        },
        None => false,
    }
}

/// The document with several values set, one after the other; none where a path leads nowhere.
pub open spec fn with_values(d: Doc, at: int, list: Seq<(Seq<char>, Seq<char>)>) -> Option<Doc>
    decreases list.len(),
{
    if list.len() == 0 {
        Some(d)
    } else {
        match with_values(d, at, list.drop_last()) {
            Some(e) => with_value(e, at, list.last().0, list.last().1),
            None => None,
        }
    }
}

/// The paths and values in a list.
pub open spec fn pairs(list: Seq<(&str, &str)>) -> Seq<(Seq<char>, Seq<char>)> {
    list.map_values(|p: (&str, &str)| (p.0@, p.1@))
}

proof fn lemma_values_stop(d: Doc, at: int, list: Seq<(Seq<char>, Seq<char>)>, k: int)
    requires
        0 <= k <= list.len(),
        with_values(d, at, list.take(k)) is None,
    ensures
        with_values(d, at, list) is None,
    decreases list.len(),
{
    if k == list.len() {
        assert(list.take(k) =~= list);
    } else {
        assert(list.drop_last().take(k) =~= list.take(k));
        lemma_values_stop(d, at, list.drop_last(), k);
    }
}

/// Sets several values, one after the other. Says whether all the paths lead somewhere.
pub fn set_values(doc: &mut Document, at: usize, list: &Vec<(&str, &str)>) -> (r: bool)
    requires
        at < old(doc).nodes.len(),
    ensures
        r == (with_values(old(doc)@, at as int, pairs(list@)) is Some),
        r ==> with_values(old(doc)@, at as int, pairs(list@)) == Some(final(doc)@),
        final(doc).nodes.len() == old(doc).nodes.len(),
        is_tree(old(doc)@) ==> is_tree(final(doc)@),
{
    let ghost d = doc@;
    assert(doc.nodes.len() == d.len());
    let ghost whole = pairs(list@);
    let mut i: usize = 0;
    assert(whole.take(0) =~= Seq::<(Seq<char>, Seq<char>)>::empty());
    while i < list.len()
        invariant
            i <= list.len(),
            at < doc.nodes.len(),
            doc.nodes.len() == d.len(),
            d == old(doc)@,
            old(doc).nodes.len() == d.len(),
            whole == pairs(list@),
            with_values(d, at as int, whole.take(i as int)) == Some(doc@),
            is_tree(d) ==> is_tree(doc@),
        decreases list.len() - i,
    {
        proof {
            assert(whole.take(i + 1).drop_last() =~= whole.take(i as int));
            assert(whole.take(i + 1).last() == (list[i as int].0@, list[i as int].1@));
        }
        if !set_value(doc, at, list[i].0, list[i].1) {
            proof {
                lemma_values_stop(d, at as int, whole, i + 1);
            }
            return false;
        }
        i += 1;
    }
    assert(whole.take(i as int) =~= whole);
    true
}

} // verus!
