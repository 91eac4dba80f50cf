//! XML documents read and written.
use crate::text::whitespace;
use crate::xmlutil::{
    deeper, follows_at, is_tree, lowered, no_scope, node_views, Content, ContentView, Doc, Document,
    Node, NodeView, Scope,
};
use vstd::prelude::*;
use xmltree::{Element, EmitterConfig, Namespace, XMLNode};

verus! {

/// A node of a tree of the `xmltree` crate, with everything below it.
#[verifier::external_type_specification]
#[verifier::external_body]
pub struct ExXmlNode(xmltree::XMLNode);

/// What an `xmltree` node holds: itself at depth 0 and everything below it, in document order.
pub uninterp spec fn nodes_of(n: xmltree::XMLNode) -> Doc;

/// The document that bytes stand for, or the text of the error that reading them ends with.
pub uninterp spec fn parsed_xml(bytes: Seq<u8>) -> Result<Doc, Seq<char>>;

/// What the children of a node hold, one below the other.
pub open spec fn nodes_below(children: Seq<xmltree::XMLNode>) -> Doc
    decreases children.len(),
{
    if children.len() == 0 {
        Seq::empty()
    } else {
        nodes_below(children.drop_last()) + lowered(nodes_of(children.last()), 1)
    }
}

/// A node above its children.
pub open spec fn node_above(content: ContentView, children: Seq<xmltree::XMLNode>) -> Doc {
    seq![NodeView { depth: 0, content }] + nodes_below(children)
}

/// `xmltree::Element::parse`: reads a document. How XML is read is left unsaid; what comes of
/// it is one element with everything below it.
#[verifier::external_body]
fn parse_bytes(bytes: &[u8]) -> (r: Result<xmltree::XMLNode, String>)
    ensures
        match r {
            Ok(n) => parsed_xml(bytes@) == Ok::<Doc, Seq<char>>(nodes_of(n)),
            Err(e) => parsed_xml(bytes@) == Err::<Doc, Seq<char>>(e@),
        },
        r matches Ok(n) ==> is_tree(nodes_of(n)),
{
    match Element::parse(bytes) {
        Ok(e) => Ok(XMLNode::Element(e)),
        Err(e) => Err(e.to_string()),
    }
}

/// The variants of `xmltree::XMLNode` told apart: an element gives up its name, namespaces,
/// attributes and children; the others have no children.
#[verifier::external_body]
fn take_apart(n: xmltree::XMLNode) -> (r: (Content, Vec<xmltree::XMLNode>))
    ensures
        nodes_of(n) == node_above(r.0@, r.1@),
        r.1.len() > 0 ==> r.0@ is Element,
{
    match n {
        XMLNode::Element(e) => {
            let attributes = e.attributes.into_iter().collect();
            let namespaces = e.namespaces.map(|n| n.0.into_iter().collect());
            let scope = Scope { prefix: e.prefix, namespace: e.namespace, namespaces };
            (Content::Element { name: e.name, scope, attributes }, e.children)
        }
        XMLNode::Text(s) => (Content::Text(s), Vec::new()),
        XMLNode::CData(s) => (Content::CData(s), Vec::new()),
        XMLNode::Comment(s) => (Content::Comment(s), Vec::new()),
        XMLNode::ProcessingInstruction(s, d) => (Content::Instruction(s, d), Vec::new()),
    }
}

/// The variants of `xmltree::XMLNode` made: `xmltree::Element::new` with its namespaces,
/// attributes and children, and the others, which have no children. Of two entries with the same
/// key the first counts.
#[verifier::external_body]
fn put_together(content: Content, children: Vec<xmltree::XMLNode>) -> (r: xmltree::XMLNode)
    requires
        children.len() > 0 ==> content@ is Element,
    ensures
        nodes_of(r) == node_above(content@, children@),
{
    match content {
        Content::Element { name, scope, attributes } => {
            let mut e = Element::new(&name);
            e.prefix = scope.prefix;
            e.namespace = scope.namespace;
            e.namespaces = scope.namespaces.map(|n| Namespace(n.into_iter().rev().collect()));
            e.attributes.extend(attributes.into_iter().rev());
            e.children = children;
            XMLNode::Element(e)
        }
        Content::Text(s) => XMLNode::Text(s),
        Content::CData(s) => XMLNode::CData(s),
        Content::Comment(s) => XMLNode::Comment(s),
        Content::Instruction(s, d) => XMLNode::ProcessingInstruction(s, d),
    }
}

/// What stands before the root element of a written document.
pub const DECLARATION: &'static str = "<?xml version=\"1.0\" encoding=\"UTF-8\"?>\n";

/// A character that XML can hold.
pub open spec fn is_xml_char(c: char) -> bool {
    c == '\t' || c == '\n' || c == '\r' || (' ' <= c && c != '\u{FFFE}' && c != '\u{FFFF}')
}

/// An ASCII letter or digit, `.`, `-` or `_`.
pub open spec fn is_plain_char(c: char) -> bool {
    ('a' <= c && c <= 'z') || ('A' <= c && c <= 'Z') || ('0' <= c && c <= '9') || c == '.' || c
        == '-' || c == '_'
}

/// A name of ASCII letters, digits, `.`, `-` and `_`, not too long, that starts with a letter
/// or `_` and declares no namespace.
pub open spec fn is_plain_name(name: Seq<char>) -> bool {
    &&& 0 < name.len() <= 0x4_0000
    &&& forall|i: int| 0 <= i < name.len() ==> is_plain_char(#[trigger] name[i])
    &&& !('0' <= name[0] && name[0] <= '9') && name[0] != '.' && name[0] != '-'
    &&& name != "xmlns"@
}

/// A text of characters that XML can hold, not too long.
pub open spec fn is_plain_text(text: Seq<char>) -> bool {
    &&& text.len() <= 0x0fff_ffff
    &&& forall|i: int| 0 <= i < text.len() ==> is_xml_char(#[trigger] text[i])
}

/// A text that is not only space.
pub open spec fn says_something(text: Seq<char>) -> bool {
    exists|i: int|
        0 <= i < text.len() && #[trigger] text[i] != ' ' && text[i] != '\t' && text[i] != '\n'
            && text[i] != '\r'
}

/// A text that another one occurs in.
pub open spec fn holds_text(text: Seq<char>, part: Seq<char>) -> bool {
    exists|i: int|
        0 <= i <= text.len() - part.len() && #[trigger] text.subrange(i, i + part.len()) == part
}

/// The name `xml`, in capitals or not.
pub open spec fn is_reserved(name: Seq<char>) -> bool {
    &&& name.len() == 3
    &&& name[0] == 'x' || name[0] == 'X'
    &&& name[1] == 'm' || name[1] == 'M'
    &&& name[2] == 'l' || name[2] == 'L'
}

/// What XML can hold of a node: an element with a plain name and plain attributes, not too many,
/// and without namespaces; a text that is not only space; a comment, a section or an instruction
/// in which its own end does not occur.
pub open spec fn is_plain_content(content: ContentView) -> bool {
    match content {
        ContentView::Element { name, scope, attributes } => {
            &&& is_plain_name(name)
            &&& scope == no_scope()
            &&& attributes.dom().finite()
            &&& attributes.dom().len() <= 0x1_0000
            &&& forall|k: Seq<char>| #[trigger]
                attributes.contains_key(k) ==> is_plain_name(k) && is_plain_text(attributes[k])
        },
        ContentView::Text(s) => is_plain_text(s) && says_something(s),
        ContentView::CData(s) => is_plain_text(s) && !holds_text(s, "]]>"@),
        ContentView::Comment(s) => is_plain_text(s) && !holds_text(s, "--"@),
        ContentView::Instruction(name, data) => {
            &&& is_plain_name(name)
            &&& !is_reserved(name)
            &&& data matches Some(s) ==> is_plain_text(s) && !holds_text(s, "?>"@)
        },
    }
}

/// A text stands right before another one: they would be read as one.
pub open spec fn texts_meet(d: Doc, i: int) -> bool {
    d[i].content is Text && d[i + 1].content is Text && d[i].depth == d[i + 1].depth
}

/// A document that XML can hold.
pub open spec fn is_plain(d: Doc) -> bool {
    &&& forall|i: int| 0 <= i < d.len() ==> is_plain_content((#[trigger] d[i]).content)
    &&& forall|i: int| 0 <= i < d.len() - 1 ==> !#[trigger] texts_meet(d, i)
}

/// A comment with a space before and behind it, where there is none.
pub open spec fn padded(comment: Seq<char>) -> Seq<char> {
    let before = if comment.len() > 0 && whitespace(comment[0]) {
        comment
    } else {
        seq![' '] + comment
    };
    if comment.len() > 0 && whitespace(comment.last()) {
        before
    } else {
        before.push(' ')
    }
}

/// A node as it is written: comments are set off by spaces.
pub open spec fn written_node(n: NodeView) -> NodeView {
    match n.content {
        ContentView::Comment(s) => NodeView { content: ContentView::Comment(padded(s)), ..n },
        _ => n,
    }
}

/// A document as it is written.
pub open spec fn as_written(d: Doc) -> Doc {
    d.map_values(|n: NodeView| written_node(n))
}

/// `xmltree::Element::write_with_config`, without a document declaration. It fails only where
/// what it writes to does, which memory does not. The order in which the attributes of an
/// element come out changes from call to call, so the bytes are left unsaid; but they are
/// UTF-8, and a document that XML can hold is read back from them, its comments set off by
/// spaces, both behind the declaration. What is read back of an element with namespaces, of a
/// text that is only space or stands beside another one, and of what would end too early, is
/// left unsaid.
#[verifier::external_body]
fn write_node(n: &xmltree::XMLNode) -> (r: Result<Vec<u8>, String>)
    requires
        nodes_of(*n)[0].content is Element,
    ensures
        r is Ok,
        r matches Ok(bytes) ==> (is_plain(nodes_of(*n)) ==> parsed_xml(
            vstd::utf8::encode_utf8(DECLARATION@) + bytes@,
        ) == Ok::<Doc, Seq<char>>(as_written(nodes_of(*n)))),
        r matches Ok(bytes) ==> vstd::utf8::valid_utf8(
            vstd::utf8::encode_utf8(DECLARATION@) + bytes@,
        ),
{
    let mut out = Vec::new();
    let config = EmitterConfig::new().write_document_declaration(false);
    match n.as_element().map(|e| e.write_with_config(&mut out, config)) {
        Some(Err(e)) => Err(e.to_string()),
        _ => Ok(out),
    }
}

/// The nodes on a stack, the top first.
pub open spec fn stacked(stack: Seq<(usize, xmltree::XMLNode)>) -> Doc
    decreases stack.len(),
{
    if stack.len() == 0 {
        Seq::empty()
    } else {
        lowered(nodes_of(stack.last().1), stack.last().0) + stacked(stack.drop_last())
    }
}

proof fn lemma_lowered_twice(d: Doc, a: usize, b: usize)
    ensures
        lowered(lowered(d, a), b) =~= lowered(d, deeper(a, b)),
{
}

proof fn lemma_lowered_sum(d: Doc, e: Doc, by: usize)
    ensures
        lowered(d + e, by) =~= lowered(d, by) + lowered(e, by),
{
}

/// Puts the children on the stack, the first on top.
fn stack_children(
    stack: &mut Vec<(usize, xmltree::XMLNode)>,
    depth: usize,
    children: Vec<xmltree::XMLNode>,
)
    ensures
        stacked(final(stack)@) == lowered(nodes_below(children@), depth) + stacked(old(stack)@),
{
    let ghost given = children@;
    let ghost start = stack@;
    let below: usize = if depth == usize::MAX {
        depth
    } else {
        depth + 1
    };
    let mut rest: Vec<xmltree::XMLNode> = children;
    proof {
        assert(given.take(given.len() as int) =~= given);
        assert(rest@ =~= given.take(rest.len() as int));
    }
    let ghost mut pushed: Doc = Seq::empty();
    proof {
        assert(lowered(nodes_below(given), depth) + pushed =~= lowered(nodes_below(given), depth));
        assert(pushed + stacked(start) =~= stacked(start));
    }
    while rest.len() > 0
        invariant
            rest@ == given.take(rest.len() as int),
            rest.len() <= given.len(),
            below == deeper(1, depth),
            stacked(stack@) == pushed + stacked(start),
            lowered(nodes_below(rest@), depth) + pushed == lowered(nodes_below(given), depth),
        decreases rest.len(),
    {
        let ghost before = rest@;
        match rest.pop() {
            Some(node) => {
                proof {
                    assert(before.drop_last() =~= rest@);
                    assert(rest@ =~= given.take(rest.len() as int));
                    let doc = lowered(nodes_of(node), below);
                    lemma_lowered_twice(nodes_of(node), 1, depth);
                    lemma_lowered_sum(nodes_below(rest@), lowered(nodes_of(node), 1), depth);
                    let next = stack@.push((below, node));
                    assert(next.drop_last() =~= stack@);
                    assert(doc + (pushed + stacked(start)) =~= (doc + pushed) + stacked(start));
                    assert((lowered(nodes_below(rest@), depth) + doc) + pushed =~= lowered(
                        nodes_below(rest@),
                        depth,
                    ) + (doc + pushed));
                    pushed = doc + pushed;
                }
                stack.push((below, node));
            },
            None => {},
        }
    }
    proof {
        assert(rest@ =~= Seq::<xmltree::XMLNode>::empty());
        assert(lowered(nodes_below(rest@), depth) + pushed =~= pushed);
    }
}

/// The tree as a list of nodes.
fn flatten(root: xmltree::XMLNode) -> (r: Document)
    ensures
        r@ == nodes_of(root),
{
    let ghost whole = nodes_of(root);
    let mut stack: Vec<(usize, xmltree::XMLNode)> = Vec::new();
    let mut nodes: Vec<Node> = Vec::new();
    stack.push((0, root));
    proof {
        assert(stack@.drop_last() =~= Seq::<(usize, xmltree::XMLNode)>::empty());
        assert(stacked(stack@.drop_last()) == Seq::<NodeView>::empty());
        assert(lowered(whole, 0) =~= whole);
        assert(stacked(stack@) =~= whole);
        assert(node_views(nodes@) + stacked(stack@) =~= whole);
    }
    while stack.len() > 0
        invariant
            node_views(nodes@) + stacked(stack@) == whole,
        decreases stacked(stack@).len(),
    {
        let ghost before = stack@;
        match stack.pop() {
            Some((depth, node)) => {
                assert(before.drop_last() =~= stack@);
                let ghost rest = stack@;
                let (content, children) = take_apart(node);
                let item = Node { depth, content };
                let ghost earlier = nodes@;
                proof {
                    lemma_lowered_sum(
                        seq![NodeView { depth: 0, content: content@ }],
                        nodes_below(children@),
                        depth,
                    );
                    assert(lowered(seq![NodeView { depth: 0, content: content@ }], depth)
                        =~= seq![item@]);
                    assert(stacked(before) =~= seq![item@] + lowered(
                        nodes_below(children@),
                        depth,
                    ) + stacked(rest));
                }
                let ghost kids = children@;
                stack_children(&mut stack, depth, children);
                nodes.push(item);
                proof {
                    assert(node_views(nodes@) =~= node_views(earlier).push(item@));
                    assert(node_views(nodes@) + stacked(stack@) =~= node_views(earlier) + stacked(
                        before,
                    ));
                }
            },
            None => {},
        }
    }
    assert(stacked(stack@) =~= Seq::<NodeView>::empty());
    assert(node_views(nodes@) =~= whole);
    Document { nodes }
}

/// The stack holds nodes whose depths fall from the top down.
pub open spec fn falling(stack: Seq<(usize, xmltree::XMLNode)>) -> bool {
    forall|i: int, j: int|
        0 <= i <= j < stack.len() ==> (#[trigger] stack[i]).0 <= (#[trigger] stack[j]).0
}

/// Takes the children of a node of the given depth from the stack.
fn unstack_children(stack: &mut Vec<(usize, xmltree::XMLNode)>, depth: usize) -> (r: Vec<
    xmltree::XMLNode,
>)
    requires
        falling(old(stack)@),
        forall|i: int| 0 <= i < old(stack).len() ==> (#[trigger] old(stack)[i]).0 <= depth + 1,
        depth < usize::MAX,
    ensures
        stacked(old(stack)@) == lowered(nodes_below(r@), depth) + stacked(final(stack)@),
        falling(final(stack)@),
        forall|i: int| 0 <= i < final(stack).len() ==> (#[trigger] final(stack)[i]).0 <= depth,
        forall|i: int|
            0 <= i < final(stack).len() ==> #[trigger] final(stack)[i] == old(stack)[i],
        final(stack).len() <= old(stack).len(),
        r.len() > 0 ==> old(stack).len() > 0 && old(stack)[old(stack).len() - 1].0 > depth,
{
    let ghost start = stack@;
    let mut children: Vec<xmltree::XMLNode> = Vec::new();
    assert(lowered(nodes_below(children@), depth) + stacked(stack@) =~= stacked(start));
    while stack.len() > 0 && stack[stack.len() - 1].0 > depth
        invariant
            depth < usize::MAX,
            stack@ == start.take(stack.len() as int),
            stack.len() <= start.len(),
            falling(start),
            forall|i: int| 0 <= i < start.len() ==> (#[trigger] start[i]).0 <= depth + 1,
            children.len() > 0 ==> start.len() > 0 && start[start.len() - 1].0 > depth,
            lowered(nodes_below(children@), depth) + stacked(stack@) == stacked(start),
        decreases stack.len(),
    {
        let ghost before = stack@;
        let ghost kids = children@;
        match stack.pop() {
            Some((below, node)) => {
                proof {
                    assert(before.drop_last() =~= stack@);
                    assert(stack@ =~= start.take(stack.len() as int));
                    assert(start[before.len() - 1] == (below, node));
                    assert(below <= start[start.len() - 1].0);
                    assert(below == deeper(1, depth));
                    lemma_lowered_twice(nodes_of(node), 1, depth);
                    lemma_lowered_sum(nodes_below(kids), lowered(nodes_of(node), 1), depth);
                    assert(kids.push(node).drop_last() =~= kids);
                    assert(lowered(nodes_below(kids), depth) + (lowered(nodes_of(node), below)
                        + stacked(stack@)) =~= (lowered(nodes_below(kids), depth) + lowered(
                        nodes_of(node),
                        below,
                    )) + stacked(stack@));
                }
                children.push(node);
            },
            None => {},
        }
    }
    proof {
        if stack.len() > 0 {
            assert forall|i: int| 0 <= i < stack.len() implies (#[trigger] stack[i]).0 <= depth by {
                assert(start[i].0 <= start[stack.len() - 1].0);
            }
        }
        assert forall|i: int, j: int| 0 <= i <= j < stack.len() implies (#[trigger] stack[i]).0 <= (
        #[trigger] stack[j]).0 by {
            assert(start[i].0 <= start[j].0);
        }
    }
    children
}

/// The list of nodes as a tree.
fn build(doc: &Document) -> (r: xmltree::XMLNode)
    requires
        is_tree(doc@),
    ensures
        nodes_of(r) == doc@,
{
    let ghost d = doc@;
    let n: usize = doc.nodes.len();
    let mut stack: Vec<(usize, xmltree::XMLNode)> = Vec::new();
    let mut i: usize = n;
    assert(d.skip(n as int) =~= Seq::<NodeView>::empty());
    while i > 0
        invariant
            i <= n,
            n == doc.nodes.len(),
            d == doc@,
            is_tree(d),
            stacked(stack@) == d.skip(i as int),
            falling(stack@),
            i < n ==> stack.len() > 0 && stack[stack.len() - 1].0 == d[i as int].depth,
            i == n ==> stack.len() == 0,
            forall|k: int| 0 <= k < stack.len() ==> (#[trigger] stack[k]).0 >= 1 || i == 0,
            i == 0 ==> stack.len() == 1,
        decreases i,
    {
        let ghost old_stack = stack@;
        i -= 1;
        let depth: usize = doc.nodes[i].depth;
        let ghost node = doc.nodes[i as int];
        proof {
            assert(d[i as int] == node@);
            crate::xmlutil::lemma_tree_depth(d, i as int);
            if i + 1 < n {
                assert(follows_at(d, i as int));
                assert forall|k: int| 0 <= k < stack.len() implies (#[trigger] stack[k]).0 <= depth
                    + 1 by {
                    assert(stack[k].0 <= stack[stack.len() - 1].0);
                }
            }
        }
        let children: Vec<xmltree::XMLNode> = unstack_children(&mut stack, depth);
        let ghost rest = stack@;
        let ghost kids = children@;
        proof {
            if i == 0 && rest.len() > 0 {
                assert(rest[0] == old_stack[0]);
                assert(old_stack[0].0 >= 1);
            }
        }
        let built: xmltree::XMLNode = put_together(doc.nodes[i].content.clone(), children);
        stack.push((depth, built));
        proof {
            let head = seq![NodeView { depth: 0, content: node.content@ }];
            lemma_lowered_sum(head, nodes_below(kids), depth);
            assert(lowered(head, depth) =~= seq![node@]);
            assert(stack@.drop_last() =~= rest);
            assert(d.skip(i as int) =~= seq![node@] + d.skip(i + 1));
            assert((seq![node@] + lowered(nodes_below(kids), depth)) + stacked(rest) =~= seq![
                node@,
            ] + (lowered(nodes_below(kids), depth) + stacked(rest)));
            assert forall|k: int| 0 <= k < stack.len() implies (#[trigger] stack[k]).0 >= 1 || i
                == 0 by {
                if k < rest.len() {
                    assert(rest[k] == old_stack[k]);
                    assert(old_stack[k].0 >= 1);
                }
            }
            assert forall|k: int, j: int| 0 <= k <= j < stack.len() implies (
            #[trigger] stack[k]).0 <= (#[trigger] stack[j]).0 by {
                if j < rest.len() {
                    assert(rest[k].0 <= rest[j].0);
                } else if k < rest.len() {
                    assert(rest[k].0 <= depth);
                }
            }
        }
    }
    let ghost before = stack@;
    match stack.pop() {
        Some((depth, root)) => {
            proof {
                assert(before.drop_last() =~= Seq::<(usize, xmltree::XMLNode)>::empty());
                assert(stacked(before.drop_last()) == Seq::<NodeView>::empty());
                assert(d.skip(0) =~= d);
                assert(depth == 0);
                assert(lowered(nodes_of(root), 0) =~= nodes_of(root));
                assert(stacked(before) =~= lowered(nodes_of(root), depth));
            }
            root
        },
        None => put_together(doc.nodes[0].content.clone(), Vec::new()),
    }
}

/// Reads a document.
pub fn read_document(bytes: &[u8]) -> (r: Result<Document, String>)
    ensures
        match r {
            Ok(d) => parsed_xml(bytes@) == Ok::<Doc, Seq<char>>(d@) && is_tree(d@),
            Err(e) => parsed_xml(bytes@) == Err::<Doc, Seq<char>>(e@),
        },
{
    match parse_bytes(bytes) {
        Ok(root) => Ok(flatten(root)),
        Err(e) => Err(e),
    }
}

/// Writes a document, with the declaration before it: where XML can hold it, it is read back
/// from the bytes as it is, but for spaces around its comments.
pub fn write_document(doc: &Document) -> (r: Result<Vec<u8>, String>)
    requires
        is_tree(doc@),
    ensures
        r is Ok,
        r matches Ok(bytes) ==> (is_plain(doc@) ==> parsed_xml(bytes@) == Ok::<Doc, Seq<char>>(
            as_written(doc@),
        )),
        r matches Ok(bytes) ==> vstd::utf8::encode_utf8(DECLARATION@).is_prefix_of(bytes@),
        r matches Ok(bytes) ==> vstd::utf8::valid_utf8(bytes@),
{
    let root: xmltree::XMLNode = build(doc);
    match write_node(&root) {
        Ok(body) => {
            let mut out: Vec<u8> = vstd::slice::slice_to_vec(DECLARATION.as_bytes());
            let mut rest: Vec<u8> = body;
            let ghost head = out@;
            let ghost tail = rest@;
            out.append(&mut rest);
            assert(head.is_prefix_of(head + tail));
            Ok(out)
        },
        Err(e) => Err(e),
    }
}

} // verus!
