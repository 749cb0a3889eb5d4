//! The content model: a tree of formatting nodes and its mathematical view.
//!
//! A document is a `ContentNode` tree. Contracts never speak about the
//! executable tree directly; they speak about its view, a ghost `NodeView`
//! tree in which strings are character sequences. The plain text of a node
//! is the character sequence obtained by unwrapping decorations and
//! concatenating the text of the leaves; it is the basis of the
//! decoration-insensitive equivalence used by the differ.

use vstd::prelude::*;
use vstd::string::StrSliceExecFns;

verus! {

/// A decoration changes presentation without changing the underlying text.
///
/// A highlight carries its fill color packed as `0x00RRGGBB`; a
/// strikethrough carries its stroke thickness in thousandths of a
/// typographic point.
#[derive(Clone, Copy)]
pub enum DecorationKind {
    Underline,
    Overline,
    Highlight(u32),
    Superscript,
    Subscript,
    Strikethrough(u32),
}

/// One node of a document tree.
pub enum ContentNode {
    /// A run of text.
    Text(String),
    /// An inter-word space.
    Space,
    /// A forced break between lines or paragraphs.
    Linebreak,
    /// A raw (code) span; its text is not interpreted.
    Raw(String),
    /// A decorated child node.
    Decorated(DecorationKind, Box<ContentNode>),
    /// An ordered sequence of children.
    Sequence(Vec<ContentNode>),
}

/// The mathematical value of a `ContentNode`.
pub enum NodeView {
    Text(Seq<char>),
    Space,
    Linebreak,
    Raw(Seq<char>),
    Decorated(DecorationKind, Box<NodeView>),
    Sequence(Seq<NodeView>),
}

/// The view of one node.
pub open spec fn node_view(n: ContentNode) -> NodeView
    decreases n,
{
    match n {
        ContentNode::Text(s) => NodeView::Text(s@),
        ContentNode::Space => NodeView::Space,
        ContentNode::Linebreak => NodeView::Linebreak,
        ContentNode::Raw(s) => NodeView::Raw(s@),
        ContentNode::Decorated(k, c) => NodeView::Decorated(k, Box::new(node_view(*c))),
        ContentNode::Sequence(v) => NodeView::Sequence(nodes_view(v@)),
    }
}

/// The views of a sequence of nodes, in order.
pub open spec fn nodes_view(s: Seq<ContentNode>) -> Seq<NodeView>
    decreases s,
{
    if s.len() == 0 {
        Seq::empty()
    } else {
        nodes_view(s.drop_last()).push(node_view(s.last()))
    }
}

impl View for ContentNode {
    type V = NodeView;

    open spec fn view(&self) -> NodeView {
        node_view(*self)
    }
}

/// `nodes_view` maps `node_view` over the sequence pointwise.
pub proof fn lemma_nodes_view_index(s: Seq<ContentNode>)
    ensures
        nodes_view(s).len() == s.len(),
        forall|i: int| 0 <= i < s.len() ==> nodes_view(s)[i] == node_view(s[i]),
    decreases s.len(),
{
    if s.len() > 0 {
        lemma_nodes_view_index(s.drop_last());
    }
}

/// The plain text of a node: decorations are unwrapped, a space renders as
/// one space character, a break as one newline, and the children of a
/// sequence are concatenated in order.
pub open spec fn plain_of(v: NodeView) -> Seq<char>
    decreases v,
{
    match v {
        NodeView::Text(s) => s,
        NodeView::Space => seq![' '],
        NodeView::Linebreak => seq!['\n'],
        NodeView::Raw(s) => s,
        NodeView::Decorated(_, c) => plain_of(*c),
        NodeView::Sequence(cs) => plain_seq(cs),
    }
}

/// The concatenated plain text of a sequence of nodes.
pub open spec fn plain_seq(cs: Seq<NodeView>) -> Seq<char>
    decreases cs,
{
    if cs.len() == 0 {
        Seq::empty()
    } else {
        plain_seq(cs.drop_last()) + plain_of(cs.last())
    }
}

/// Splitting off the last element splits the plain text of a sequence.
pub proof fn lemma_plain_seq_push(cs: Seq<NodeView>, v: NodeView)
    ensures
        plain_seq(cs.push(v)) == plain_seq(cs) + plain_of(v),
{
    assert(cs.push(v).drop_last() =~= cs);
    assert(cs.push(v).last() == v);
}

/// Decoration is invisible to the plain text: unwrapping a decorated node
/// leaves its plain text unchanged. Nested decorations therefore all
/// collapse to the plain text of the innermost child.
pub proof fn lemma_decoration_insensitive(v: NodeView)
    requires
        v is Decorated,
    ensures
        plain_of(v) == plain_of(*v->Decorated_1),
{
}

/// Clones a node; the copy has the same view.
#[verifier::loop_isolation(false)]
pub fn clone_node(n: &ContentNode) -> (r: ContentNode)
    ensures
        r@ == n@,
    decreases *n,
{
    match n {
        ContentNode::Text(s) => ContentNode::Text(s.clone()),
        ContentNode::Space => ContentNode::Space,
        ContentNode::Linebreak => ContentNode::Linebreak,
        ContentNode::Raw(s) => ContentNode::Raw(s.clone()),
        ContentNode::Decorated(k, c) => ContentNode::Decorated(*k, Box::new(clone_node(c))),
        ContentNode::Sequence(v) => {
            let mut out: Vec<ContentNode> = Vec::new();
            let mut i: usize = 0;
            proof {
                lemma_nodes_view_index(v@);
            }
            while i < v.len()
                invariant
                    i <= v.len(),
                    nodes_view(out@) =~= nodes_view(v@).subrange(0, i as int),
                    nodes_view(v@).len() == v@.len(),
                    forall|k: int| 0 <= k < v@.len() ==> nodes_view(v@)[k] == node_view(v@[k]),
                decreases v.len() - i,
            {
                proof {
                    assert((*n)->Sequence_0@ == v@);
                    assert(decreases_to!(*n => (*n)->Sequence_0));
                    assert(decreases_to!((*n)->Sequence_0 => (*n)->Sequence_0@));
                    assert(decreases_to!((*n)->Sequence_0@ => (*n)->Sequence_0@[i as int]));
                }
                let c = clone_node(&v[i]);
                proof {
                    lemma_nodes_view_push(out@, c);
                }
                out.push(c);
                i += 1;
            }
            assert(nodes_view(out@) =~= nodes_view(v@));
            ContentNode::Sequence(out)
        },
    }
}

/// Appending one node extends the view sequence by one view.
pub proof fn lemma_nodes_view_push(s: Seq<ContentNode>, n: ContentNode)
    ensures
        nodes_view(s.push(n)) == nodes_view(s).push(node_view(n)),
{
    assert(s.push(n).drop_last() =~= s);
    assert(s.push(n).last() == n);
}

/// Appends the characters of a string to a character vector.
#[verifier::loop_isolation(false)]
pub fn push_str_chars(out: &mut Vec<char>, s: &str)
    ensures
        final(out)@ == old(out)@ + s@,
{
    let n = s.unicode_len();
    let mut i: usize = 0;
    while i < n
        invariant
            i <= n,
            n == s@.len(),
            out@ == old(out)@ + s@.subrange(0, i as int),
        decreases n - i,
    {
        let c = s.get_char(i);
        out.push(c);
        proof {
            assert(s@.subrange(0, i + 1 as int) =~= s@.subrange(0, i as int).push(s@[i as int]));
            assert(old(out)@ + s@.subrange(0, i + 1 as int) =~= (old(out)@ + s@.subrange(
                0,
                i as int,
            )).push(s@[i as int]));
        }
        i += 1;
    }
    assert(s@.subrange(0, n as int) =~= s@);
}

/// Appends the plain text of a node to a character vector.
#[verifier::loop_isolation(false)]
pub fn append_plain_text(n: &ContentNode, out: &mut Vec<char>)
    ensures
        final(out)@ == old(out)@ + plain_of(n@),
    decreases *n,
{
    match n {
        ContentNode::Text(s) => {
            push_str_chars(out, s.as_str());
        },
        ContentNode::Space => {
            out.push(' ');
            assert(out@ =~= old(out)@ + plain_of(n@));
        },
        ContentNode::Linebreak => {
            out.push('\n');
            assert(out@ =~= old(out)@ + plain_of(n@));
        },
        ContentNode::Raw(s) => {
            push_str_chars(out, s.as_str());
        },
        ContentNode::Decorated(_, c) => {
            append_plain_text(c, out);
        },
        ContentNode::Sequence(v) => {
            proof {
                lemma_nodes_view_index(v@);
            }
            let ghost sv = nodes_view(v@);
            let mut i: usize = 0;
            assert(out@ =~= old(out)@ + plain_seq(sv.subrange(0, 0)));
            while i < v.len()
                invariant
                    i <= v.len(),
                    out@ == old(out)@ + plain_seq(sv.subrange(0, i as int)),
                decreases v.len() - i,
            {
                proof {
                    assert(decreases_to!(*n => (*n)->Sequence_0));
                    assert(decreases_to!((*n)->Sequence_0 => (*n)->Sequence_0@));
                    assert(decreases_to!((*n)->Sequence_0@ => (*n)->Sequence_0@[i as int]));
                }
                append_plain_text(&v[i], out);
                proof {
                    assert(sv.subrange(0, i + 1 as int) =~= sv.subrange(0, i as int).push(
                        sv[i as int],
                    ));
                    lemma_plain_seq_push(sv.subrange(0, i as int), sv[i as int]);
                }
                i += 1;
            }
            assert(sv.subrange(0, v@.len() as int) =~= sv);
        },
    }
}

} // verus!
