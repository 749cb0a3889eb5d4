//! Diff units and the decoration-insensitive equivalence between them.
//!
//! A `DiffableContent` is the atom the differ compares: one or more
//! original nodes treated as a single unit, together with a cache of
//! their concatenated plain text. Two units are equivalent when
//! their plain texts are the same character sequence; decorations never
//! contribute to the plain text, so they never cause a difference.

use vstd::prelude::*;

use crate::content::clone_node;
use crate::content::lemma_nodes_view_push;
use crate::content::lemma_plain_seq_push;
use crate::content::nodes_view;
use crate::content::plain_of;
use crate::content::plain_seq;
use crate::content::ContentNode;
use crate::content::NodeView;

verus! {

/// One or more original nodes treated as a single unit for comparison,
/// with the concatenated plain text of those nodes cached for the
/// equivalence test.
pub struct DiffableContent {
    pub nodes: Vec<ContentNode>,
    pub text: Vec<char>,
}

impl View for DiffableContent {
    type V = Seq<NodeView>;

    open spec fn view(&self) -> Seq<NodeView> {
        nodes_view(self.nodes@)
    }
}

/// Two unit values (as sequences of node views) are equivalent when their
/// concatenated plain texts are equal.
pub open spec fn equiv(a: Seq<NodeView>, b: Seq<NodeView>) -> bool {
    plain_seq(a) == plain_seq(b)
}

/// Equivalence is reflexive: every unit is equivalent to itself.
pub proof fn lemma_equiv_reflexive(a: Seq<NodeView>)
    ensures
        equiv(a, a),
{
}

/// Equivalence is symmetric: the order of comparison does not matter.
pub proof fn lemma_equiv_symmetric(a: Seq<NodeView>, b: Seq<NodeView>)
    ensures
        equiv(a, b) == equiv(b, a),
{
}

/// Equivalence is transitive.
pub proof fn lemma_equiv_transitive(a: Seq<NodeView>, b: Seq<NodeView>, c: Seq<NodeView>)
    ensures
        equiv(a, b) && equiv(b, c) ==> equiv(a, c),
{
}

/// Wrapping a node in a decoration never breaks equivalence: a unit
/// holding the decorated node is equivalent to one holding the bare
/// node. Applied repeatedly, any nest of decorations around a node is
/// equivalent to the node itself.
pub proof fn lemma_equiv_decoration(k: crate::content::DecorationKind, v: NodeView)
    ensures
        equiv(seq![NodeView::Decorated(k, Box::new(v))], seq![v]),
{
    let d = NodeView::Decorated(k, Box::new(v));
    assert(seq![d].drop_last() =~= Seq::<NodeView>::empty());
    assert(seq![v].drop_last() =~= Seq::<NodeView>::empty());
    assert(plain_seq(Seq::<NodeView>::empty()) =~= Seq::<char>::empty());
    assert(plain_seq(seq![d]) =~= plain_of(d));
    assert(plain_seq(seq![v]) =~= plain_of(v));
}

impl DiffableContent {
    /// The unit is never empty and its text cache is exactly the plain
    /// text of the nodes it represents.
    pub open spec fn wf(&self) -> bool {
        &&& self@.len() >= 1
        &&& self.text@ == plain_seq(self@)
    }

    /// A unit representing a single node.
    pub fn new(node: ContentNode) -> (u: Self)
        ensures
            u@ =~= seq![node@],
            u.wf(),
    {
        let mut text: Vec<char> = Vec::new();
        crate::content::append_plain_text(&node, &mut text);
        let mut nodes: Vec<ContentNode> = Vec::new();
        nodes.push(node);
        let u = DiffableContent { nodes, text };
        proof {
            assert(nodes@ =~= Seq::empty().push(node));
            lemma_nodes_view_push(Seq::empty(), node);
            assert(u@ =~= seq![node@]);
            assert(seq![node@].drop_last() =~= Seq::<NodeView>::empty());
            assert(plain_seq(Seq::<NodeView>::empty()) =~= Seq::<char>::empty());
            assert(seq![node@].last() == node@);
            assert(plain_seq(seq![node@]) =~= plain_of(node@));
        }
        u
    }

    /// Extends the unit with one more node, gluing the node's plain text
    /// onto the cache.
    pub fn append(self, node: ContentNode) -> (u: Self)
        requires
            self.wf(),
        ensures
            u@ =~= self@.push(node@),
            u.wf(),
    {
        let DiffableContent { mut nodes, mut text } = self;
        crate::content::append_plain_text(&node, &mut text);
        proof {
            lemma_nodes_view_push(nodes@, node);
            lemma_plain_seq_push(nodes_view(nodes@), node@);
        }
        nodes.push(node);
        DiffableContent { nodes, text }
    }

    /// The original nodes this unit represents, in order.
    pub fn as_slice(&self) -> (r: &[ContentNode])
        ensures
            nodes_view(r@) == self@,
    {
        self.nodes.as_slice()
    }

    /// The cached plain text of the unit.
    pub fn text(&self) -> (r: &Vec<char>)
        ensures
            r@ == self.text@,
    {
        &self.text
    }

    /// Clones the unit; the copy has the same value and text cache.
    #[verifier::loop_isolation(false)]
    pub fn clone_unit(&self) -> (r: Self)
        ensures
            r@ == self@,
            r.text@ == self.text@,
            self.wf() ==> r.wf(),
    {
        let mut nodes: Vec<ContentNode> = Vec::new();
        let mut i: usize = 0;
        while i < self.nodes.len()
            invariant
                i <= self.nodes@.len(),
                nodes_view(nodes@) == nodes_view(self.nodes@).subrange(0, i as int),
            decreases self.nodes@.len() - i,
        {
            let c = clone_node(&self.nodes[i]);
            proof {
                lemma_nodes_view_push(nodes@, c);
                crate::content::lemma_nodes_view_index(self.nodes@);
                assert(nodes_view(self.nodes@).subrange(0, i + 1 as int) =~= nodes_view(
                    self.nodes@,
                ).subrange(0, i as int).push(nodes_view(self.nodes@)[i as int]));
            }
            nodes.push(c);
            i += 1;
        }
        proof {
            crate::content::lemma_nodes_view_index(self.nodes@);
            assert(nodes_view(self.nodes@).subrange(0, self.nodes@.len() as int) =~= nodes_view(
                self.nodes@,
            ));
        }
        let mut text: Vec<char> = Vec::new();
        let mut k: usize = 0;
        while k < self.text.len()
            invariant
                k <= self.text@.len(),
                text@ == self.text@.subrange(0, k as int),
            decreases self.text@.len() - k,
        {
            let c = self.text[k];
            proof {
                assert(self.text@.subrange(0, k + 1 as int) =~= self.text@.subrange(
                    0,
                    k as int,
                ).push(self.text@[k as int]));
            }
            text.push(c);
            k += 1;
        }
        proof {
            assert(self.text@.subrange(0, self.text@.len() as int) =~= self.text@);
        }
        DiffableContent { nodes, text }
    }

    /// Decides equivalence of two units: their plain texts are compared
    /// character by character, after a cheap length test that rejects
    /// early when the lengths differ.
    #[verifier::loop_isolation(false)]
    pub fn equivalent(&self, other: &Self) -> (r: bool)
        requires
            self.wf(),
            other.wf(),
        ensures
            r == equiv(self@, other@),
    {
        if self.text.len() != other.text.len() {
            return false;
        }
        let mut i: usize = 0;
        while i < self.text.len()
            invariant
                i <= self.text@.len(),
                self.text@.len() == other.text@.len(),
                self.text@.subrange(0, i as int) == other.text@.subrange(0, i as int),
            decreases self.text@.len() - i,
        {
            if self.text[i] != other.text[i] {
                proof {
                    assert(self.text@[i as int] != other.text@[i as int]);
                }
                return false;
            }
            proof {
                assert(self.text@.subrange(0, i + 1 as int) =~= self.text@.subrange(
                    0,
                    i as int,
                ).push(self.text@[i as int]));
                assert(other.text@.subrange(0, i + 1 as int) =~= other.text@.subrange(
                    0,
                    i as int,
                ).push(other.text@[i as int]));
            }
            i += 1;
        }
        proof {
            assert(self.text@.subrange(0, self.text@.len() as int) =~= self.text@);
            assert(other.text@.subrange(0, other.text@.len() as int) =~= other.text@);
        }
        true
    }
}

/// The views of a sequence of units, in order.
pub open spec fn units_views(us: Seq<DiffableContent>) -> Seq<Seq<NodeView>> {
    us.map_values(|u: DiffableContent| u@)
}

/// Appending one unit extends the view sequence by one unit value.
pub proof fn lemma_units_views_push(us: Seq<DiffableContent>, u: DiffableContent)
    ensures
        units_views(us.push(u)) == units_views(us).push(u@),
{
    assert(units_views(us.push(u)) =~= units_views(us).push(u@));
}

/// Lexicographic comparison of two character sequences by code point.
pub open spec fn lex_cmp(a: Seq<char>, b: Seq<char>) -> core::cmp::Ordering
    decreases a.len(),
{
    if a.len() == 0 && b.len() == 0 {
        core::cmp::Ordering::Equal
    } else if a.len() == 0 {
        core::cmp::Ordering::Less
    } else if b.len() == 0 {
        core::cmp::Ordering::Greater
    } else if a[0] < b[0] {
        core::cmp::Ordering::Less
    } else if a[0] > b[0] {
        core::cmp::Ordering::Greater
    } else {
        lex_cmp(a.drop_first(), b.drop_first())
    }
}

/// Two character sequences compare as equal exactly when they are equal.
pub proof fn lemma_lex_cmp_equal_iff_eq(a: Seq<char>, b: Seq<char>)
    ensures
        (lex_cmp(a, b) == core::cmp::Ordering::Equal) == (a == b),
    decreases a.len(),
{
    if a.len() == 0 && b.len() == 0 {
        assert(a =~= Seq::<char>::empty());
        assert(b =~= Seq::<char>::empty());
    } else if a.len() == 0 || b.len() == 0 {
    } else if a[0] == b[0] {
        lemma_lex_cmp_equal_iff_eq(a.drop_first(), b.drop_first());
        if a.drop_first() == b.drop_first() && a[0] == b[0] {
            assert(a.len() == b.len());
            assert forall|i: int| 0 <= i < a.len() implies a[i] == b[i] by {
                if i >= 1 {
                    assert(a[i] == a.drop_first()[i - 1]);
                    assert(b[i] == b.drop_first()[i - 1]);
                }
            }
            assert(a =~= b);
        }
        if a == b {
            assert(a.drop_first() =~= b.drop_first());
        }
    } else {
        if a == b {
            assert(a[0] == b[0]);
        }
    }
}

/// Equivalence of units is exactly a lexicographic comparison of their
/// plain texts that ends in `Equal`.
pub proof fn lemma_equiv_by_lex_cmp(a: Seq<NodeView>, b: Seq<NodeView>)
    ensures
        equiv(a, b) == (lex_cmp(plain_seq(a), plain_seq(b)) == core::cmp::Ordering::Equal),
{
    lemma_lex_cmp_equal_iff_eq(plain_seq(a), plain_seq(b));
}

/// The concatenation of a sequence of character sequences, in order.
pub open spec fn concat_all(ss: Seq<Seq<char>>) -> Seq<char>
    decreases ss.len(),
{
    if ss.len() == 0 {
        Seq::empty()
    } else {
        concat_all(ss.drop_last()) + ss.last()
    }
}

/// Appending one sequence extends the concatenation at the end.
pub proof fn lemma_concat_all_push(ss: Seq<Seq<char>>, x: Seq<char>)
    ensures
        concat_all(ss.push(x)) == concat_all(ss) + x,
{
    assert(ss.push(x).drop_last() =~= ss);
    assert(ss.push(x).last() == x);
}

/// The characters of a list of strings, flattened in order.
#[verifier::loop_isolation(false)]
fn flatten_texts(v: &Vec<String>) -> (r: Vec<char>)
    ensures
        r@ == concat_all(v@.map_values(|s: String| s@)),
{
    let ghost mv = v@.map_values(|s: String| s@);
    let mut out: Vec<char> = Vec::new();
    let mut i: usize = 0;
    assert(out@ =~= concat_all(mv.subrange(0, 0)));
    while i < v.len()
        invariant
            i <= v@.len(),
            out@ == concat_all(mv.subrange(0, i as int)),
        decreases v@.len() - i,
    {
        crate::content::push_str_chars(&mut out, v[i].as_str());
        proof {
            assert(mv.subrange(0, i + 1 as int) =~= mv.subrange(0, i as int).push(mv[i as int]));
            lemma_concat_all_push(mv.subrange(0, i as int), mv[i as int]);
        }
        i += 1;
    }
    assert(mv.subrange(0, mv.len() as int) =~= mv);
    out
}

/// Compares two character vectors lexicographically.
#[verifier::loop_isolation(false)]
fn cmp_char_seqs(x: &Vec<char>, y: &Vec<char>) -> (r: core::cmp::Ordering)
    ensures
        r == lex_cmp(x@, y@),
{
    let mut i: usize = 0;
    assert(x@.skip(0) =~= x@);
    assert(y@.skip(0) =~= y@);
    while i < x.len() && i < y.len()
        invariant
            i <= x@.len(),
            i <= y@.len(),
            lex_cmp(x@, y@) == lex_cmp(x@.skip(i as int), y@.skip(i as int)),
        decreases x@.len() - i,
    {
        let cx = x[i];
        let cy = y[i];
        proof {
            assert(x@.skip(i as int)[0] == x@[i as int]);
            assert(y@.skip(i as int)[0] == y@[i as int]);
        }
        if cx < cy {
            return core::cmp::Ordering::Less;
        }
        if cx > cy {
            return core::cmp::Ordering::Greater;
        }
        proof {
            assert(x@.skip(i as int).drop_first() =~= x@.skip(i + 1 as int));
            assert(y@.skip(i as int).drop_first() =~= y@.skip(i + 1 as int));
        }
        i += 1;
    }
    proof {
        assert(x@.skip(x@.len() as int) =~= Seq::<char>::empty());
        assert(y@.skip(y@.len() as int) =~= Seq::<char>::empty());
    }
    if i < y.len() {
        core::cmp::Ordering::Less
    } else if i < x.len() {
        core::cmp::Ordering::Greater
    } else {
        core::cmp::Ordering::Equal
    }
}

/// Compares the flattened characters of two lists of strings, as if each
/// list were one long string: list boundaries are invisible to the
/// comparison.
pub fn cmp_chars(a: &Vec<String>, b: &Vec<String>) -> (r: core::cmp::Ordering)
    ensures
        r == lex_cmp(
            concat_all(a@.map_values(|s: String| s@)),
            concat_all(b@.map_values(|s: String| s@)),
        ),
{
    let fa = flatten_texts(a);
    let fb = flatten_texts(b);
    cmp_char_seqs(&fa, &fb)
}

} // verus!
