//! The content normalizer: flattening a tree into diff units.
//!
//! The top-level children of a sequence are grouped so that an inter-word
//! space is glued onto the unit before it, together with the word that
//! follows the space. Re-flowing a paragraph into different line breaks
//! then does not, by itself, create a difference. A tree that is not a
//! sequence becomes a single unit.

use vstd::prelude::*;

use crate::content::clone_node;
use crate::content::nodes_view;
use crate::content::ContentNode;
use crate::content::NodeView;
use crate::unit::units_views;
use crate::unit::DiffableContent;

verus! {

/// One step of the normalizer fold: the state is the units built so far
/// and whether the next child must still be appended to the last unit.
pub open spec fn norm_step(
    st: (Seq<Seq<NodeView>>, bool),
    v: NodeView,
) -> (Seq<Seq<NodeView>>, bool) {
    let acc = st.0;
    if v is Space {
        (acc.update(acc.len() - 1, acc.last().push(v)), true)
    } else if st.1 {
        (acc.update(acc.len() - 1, acc.last().push(v)), false)
    } else {
        (acc.push(seq![v]), false)
    }
}

/// The normalizer state after consuming a sequence of children in order.
pub open spec fn norm_state(s: Seq<NodeView>) -> (Seq<Seq<NodeView>>, bool)
    decreases s.len(),
{
    if s.len() == 0 {
        (Seq::empty(), false)
    } else {
        norm_step(norm_state(s.drop_last()), s.last())
    }
}

/// The units a tree normalizes to: the folded children of a sequence, or
/// the tree itself as a single unit.
pub open spec fn normal_units(root: NodeView) -> Seq<Seq<NodeView>> {
    match root {
        NodeView::Sequence(cs) => norm_state(cs).0,
        _ => seq![seq![root]],
    }
}

/// A tree can be normalized when it does not start with a bare space: a
/// leading space would have no unit before it to be glued onto.
pub open spec fn normalizable(root: NodeView) -> bool {
    root matches NodeView::Sequence(cs) ==> (cs.len() == 0 || !(cs[0] is Space))
}

/// The concatenation of the node sequences of a list of units.
pub open spec fn concat_units(us: Seq<Seq<NodeView>>) -> Seq<NodeView>
    decreases us.len(),
{
    if us.len() == 0 {
        Seq::empty()
    } else {
        concat_units(us.drop_last()) + us.last()
    }
}

/// Once the normalizer has consumed a nonempty child list whose first
/// child is not a space, at least one unit has been built.
pub proof fn lemma_norm_state_nonempty(s: Seq<NodeView>)
    requires
        s.len() >= 1,
        !(s[0] is Space),
    ensures
        norm_state(s).0.len() >= 1,
    decreases s.len(),
{
    if s.len() == 1 {
        assert(s.drop_last().len() == 0);
    } else {
        lemma_norm_state_nonempty(s.drop_last());
    }
}

/// The normalizer neither drops nor duplicates a node: concatenating the
/// units it builds gives back exactly the children it consumed.
pub proof fn lemma_norm_partition(s: Seq<NodeView>)
    requires
        s.len() == 0 || !(s[0] is Space),
    ensures
        concat_units(norm_state(s).0) == s,
    decreases s.len(),
{
    if s.len() == 0 {
        assert(concat_units(norm_state(s).0) =~= s);
    } else {
        let p = s.drop_last();
        lemma_norm_partition(p);
        if p.len() >= 1 {
            lemma_norm_state_nonempty(p);
        }
        let acc = norm_state(p).0;
        let st1 = norm_state(s);
        let v = s.last();
        if v is Space || norm_state(p).1 {
            // the last unit is extended by one node
            assert(p.len() >= 1);
            assert(acc.len() >= 1);
            let acc1 = acc.update(acc.len() - 1, acc.last().push(v));
            assert(acc1.drop_last() =~= acc.drop_last());
            assert(acc1.last() == acc.last().push(v));
            assert(concat_units(acc1) =~= concat_units(acc.drop_last()) + acc.last().push(v));
            assert(concat_units(acc) == concat_units(acc.drop_last()) + acc.last());
            assert(concat_units(acc1) =~= concat_units(acc).push(v));
            assert(concat_units(st1.0) =~= s);
        } else {
            // a fresh unit is opened
            let acc1 = acc.push(seq![v]);
            assert(acc1.drop_last() =~= acc);
            assert(concat_units(acc1) =~= concat_units(acc) + seq![v]);
            assert(concat_units(st1.0) =~= s);
        }
    }
}

/// Every unit the normalizer builds is nonempty.
pub proof fn lemma_norm_units_nonempty(s: Seq<NodeView>)
    requires
        s.len() == 0 || !(s[0] is Space),
    ensures
        forall|k: int|
            0 <= k < norm_state(s).0.len() ==> (#[trigger] norm_state(s).0[k]).len() >= 1,
    decreases s.len(),
{
    if s.len() > 0 {
        let p = s.drop_last();
        lemma_norm_units_nonempty(p);
        if s.last() is Space || norm_state(p).1 {
            if p.len() == 0 {
                assert(s.len() == 1);
                assert(s.last() == s[0]);
                assert(norm_state(p).1 == false);
                assert(false);
            }
            lemma_norm_state_nonempty(p);
        }
    }
}

/// Normalizes a tree into its list of diff units, each unit carrying the
/// nodes it represents and their plain text.
#[verifier::loop_isolation(false)]
pub fn normalize(content: &ContentNode) -> (units: Vec<DiffableContent>)
    requires
        normalizable(content@),
    ensures
        units_views(units@) == normal_units(content@),
        forall|k: int| 0 <= k < units@.len() ==> (#[trigger] units@[k]).wf(),
{
    match content {
        ContentNode::Sequence(v) => {
            proof {
                crate::content::lemma_nodes_view_index(v@);
            }
            let ghost sv = nodes_view(v@);
            let mut units: Vec<DiffableContent> = Vec::new();
            let mut append: bool = false;
            let mut i: usize = 0;
            assert(units_views(units@) =~= norm_state(sv.subrange(0, 0)).0);
            while i < v.len()
                invariant
                    i <= v@.len(),
                    units_views(units@) == norm_state(sv.subrange(0, i as int)).0,
                    append == norm_state(sv.subrange(0, i as int)).1,
                    forall|k: int| 0 <= k < units@.len() ==> (#[trigger] units@[k]).wf(),
                decreases v@.len() - i,
            {
                let ghost pre = sv.subrange(0, i as int);
                let ghost cur = sv.subrange(0, i + 1 as int);
                proof {
                    assert(cur =~= pre.push(sv[i as int]));
                    assert(cur.drop_last() =~= pre);
                    assert(cur.last() == sv[i as int]);
                }
                let child = &v[i];
                let is_space = matches!(child, ContentNode::Space);
                proof {
                    assert(is_space == (sv[i as int] is Space));
                    if is_space || append {
                        if i == 0 {
                            assert(sv[0] is Space || norm_state(sv.subrange(0, 0)).1);
                            assert(!(sv[0] is Space));
                            assert(norm_state(sv.subrange(0, 0)).1 == false);
                            assert(false);
                        }
                        assert(!(sv[0] is Space));
                        assert(pre[0] == sv[0]);
                        lemma_norm_state_nonempty(pre);
                        assert(units@.len() >= 1);
                    }
                }
                if is_space || append {
                    let last = units.pop().unwrap();
                    let last = last.append(clone_node(child));
                    proof {
                        let old_views = norm_state(pre).0;
                        let new_views = old_views.update(
                            old_views.len() - 1,
                            old_views.last().push(sv[i as int]),
                        );
                        assert(last@ =~= old_views.last().push(sv[i as int]));
                        assert(units_views(units@.push(last)) =~= new_views);
                    }
                    units.push(last);
                    append = is_space;
                } else {
                    let u = DiffableContent::new(clone_node(child));
                    proof {
                        assert(u@ =~= seq![sv[i as int]]);
                        assert(units_views(units@.push(u)) =~= norm_state(pre).0.push(
                            seq![sv[i as int]],
                        ));
                    }
                    units.push(u);
                    append = false;
                }
                i += 1;
            }
            proof {
                assert(sv.subrange(0, v@.len() as int) =~= sv);
            }
            units
        },
        _ => {
            let mut units: Vec<DiffableContent> = Vec::new();
            units.push(DiffableContent::new(clone_node(content)));
            proof {
                assert(units_views(units@) =~= normal_units(content@));
            }
            units
        },
    }
}

} // verus!
