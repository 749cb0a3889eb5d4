//! The annotation merger: rebuilding one tree from the alignment runs.
//!
//! Each run is rebuilt from the original nodes of its units, in order.
//! An equal run passes through unchanged; a deleted run is struck through
//! and highlighted in the deletion color; an inserted run is highlighted
//! in the insertion color. The merged document is a single sequence node
//! holding the rebuilt runs in order.

use vstd::prelude::*;

use crate::content::clone_node;
use crate::content::lemma_nodes_view_index;
use crate::content::lemma_nodes_view_push;
use crate::content::nodes_view;
use crate::content::ContentNode;
use crate::content::DecorationKind;
use crate::content::NodeView;
use crate::diff::DiffRun;
use crate::norm::concat_units;
use crate::unit::units_views;
use crate::unit::DiffableContent;

verus! {

/// The highlight color that marks a deleted run, packed as `0x00RRGGBB`.
pub const DELETION_COLOR: u32 = 0xFF0000;

/// The highlight color that marks an inserted run, packed as `0x00RRGGBB`.
pub const INSERTION_COLOR: u32 = 0x00FF00;

/// The stroke thickness of the strikethrough on a deleted run, in
/// thousandths of a typographic point.
pub const STRIKE_THICKNESS: u32 = 1500;

/// The body of a run: every original node of its units, concatenated in
/// order. An insert run draws from the new sequence, the others from the
/// old one.
pub open spec fn run_body_views(r: DiffRun) -> Seq<NodeView> {
    if r is Insert {
        concat_units(r.b_views())
    } else {
        concat_units(r.a_views())
    }
}

/// The annotated subtree a run becomes in the merged document.
pub open spec fn wrap_run(r: DiffRun) -> NodeView {
    match r {
        DiffRun::Equal(_, _) => NodeView::Sequence(run_body_views(r)),
        DiffRun::Delete(_) => NodeView::Decorated(
            DecorationKind::Highlight(DELETION_COLOR),
            Box::new(
                NodeView::Decorated(
                    DecorationKind::Strikethrough(STRIKE_THICKNESS),
                    Box::new(NodeView::Sequence(run_body_views(r))),
                ),
            ),
        ),
        DiffRun::Insert(_) => NodeView::Decorated(
            DecorationKind::Highlight(INSERTION_COLOR),
            Box::new(NodeView::Sequence(run_body_views(r))),
        ),
    }
}

/// The merged document: one sequence holding every annotated run in run
/// order.
pub open spec fn merged_of(rs: Seq<DiffRun>) -> NodeView {
    NodeView::Sequence(rs.map_values(|r: DiffRun| wrap_run(r)))
}

/// Collects clones of every original node of a unit list, in order.
#[verifier::loop_isolation(false)]
fn collect_unit_nodes(us: &Vec<DiffableContent>) -> (out: Vec<ContentNode>)
    ensures
        nodes_view(out@) == concat_units(units_views(us@)),
{
    let ghost uv = units_views(us@);
    let mut out: Vec<ContentNode> = Vec::new();
    let mut i: usize = 0;
    assert(nodes_view(out@) =~= concat_units(uv.subrange(0, 0)));
    while i < us.len()
        invariant
            i <= us@.len(),
            nodes_view(out@) == concat_units(uv.subrange(0, i as int)),
        decreases us@.len() - i,
    {
        let nodes = us[i].as_slice();
        let ghost unit_views = uv[i as int];
        proof {
            assert(unit_views == us@[i as int]@);
            assert(nodes_view(nodes@) == unit_views);
            lemma_nodes_view_index(nodes@);
        }
        let mut k: usize = 0;
        while k < nodes.len()
            invariant
                k <= nodes@.len(),
                nodes_view(out@) == concat_units(uv.subrange(0, i as int)) + unit_views.subrange(
                    0,
                    k as int,
                ),
            decreases nodes@.len() - k,
        {
            let c = clone_node(&nodes[k]);
            proof {
                lemma_nodes_view_push(out@, c);
                assert(unit_views.subrange(0, k + 1 as int) =~= unit_views.subrange(
                    0,
                    k as int,
                ).push(unit_views[k as int]));
                assert(concat_units(uv.subrange(0, i as int)) + unit_views.subrange(0, k + 1 as int)
                    =~= (concat_units(uv.subrange(0, i as int)) + unit_views.subrange(
                    0,
                    k as int,
                )).push(unit_views[k as int]));
            }
            out.push(c);
            k += 1;
        }
        proof {
            assert(unit_views.subrange(0, unit_views.len() as int) =~= unit_views);
            assert(uv.subrange(0, i + 1 as int) =~= uv.subrange(0, i as int).push(uv[i as int]));
            assert(uv.subrange(0, i + 1 as int).drop_last() =~= uv.subrange(0, i as int));
            assert(concat_units(uv.subrange(0, i + 1 as int)) == concat_units(
                uv.subrange(0, i as int),
            ) + uv[i as int]);
        }
        i += 1;
    }
    assert(uv.subrange(0, uv.len() as int) =~= uv);
    out
}

/// Rebuilds the merged, annotated document from the alignment runs.
///
/// Every node of every run appears in the output exactly once and in run
/// order: equal runs unchanged, deleted runs struck through and
/// highlighted, inserted runs highlighted.
#[verifier::loop_isolation(false)]
pub fn merge_runs(runs: &Vec<DiffRun>) -> (merged: ContentNode)
    ensures
        merged@ == merged_of(runs@),
{
    let ghost wv = runs@.map_values(|r: DiffRun| wrap_run(r));
    let mut out: Vec<ContentNode> = Vec::new();
    let mut i: usize = 0;
    assert(nodes_view(out@) =~= wv.subrange(0, 0));
    while i < runs.len()
        invariant
            i <= runs@.len(),
            nodes_view(out@) == wv.subrange(0, i as int),
        decreases runs@.len() - i,
    {
        let wrapped: ContentNode;
        let r = &runs[i];
        proof {
            assert(*r == runs@[i as int]);
        }
        match r {
            DiffRun::Equal(va, _) => {
                let body = collect_unit_nodes(va);
                wrapped = ContentNode::Sequence(body);
                proof {
                    assert(wrapped@ == wrap_run(runs@[i as int]));
                }
            },
            DiffRun::Delete(va) => {
                let body = collect_unit_nodes(va);
                let inner = ContentNode::Sequence(body);
                proof {
                    assert(inner@ == NodeView::Sequence(run_body_views(runs@[i as int])));
                }
                let struck = ContentNode::Decorated(
                    DecorationKind::Strikethrough(STRIKE_THICKNESS),
                    Box::new(inner),
                );
                proof {
                    assert(struck@ == NodeView::Decorated(
                        DecorationKind::Strikethrough(STRIKE_THICKNESS),
                        Box::new(NodeView::Sequence(run_body_views(runs@[i as int]))),
                    ));
                }
                wrapped = ContentNode::Decorated(
                    DecorationKind::Highlight(DELETION_COLOR),
                    Box::new(struck),
                );
                proof {
                    assert(wrapped@ == wrap_run(runs@[i as int]));
                }
            },
            DiffRun::Insert(vb) => {
                let body = collect_unit_nodes(vb);
                let inner = ContentNode::Sequence(body);
                proof {
                    assert(inner@ == NodeView::Sequence(run_body_views(runs@[i as int])));
                }
                wrapped = ContentNode::Decorated(
                    DecorationKind::Highlight(INSERTION_COLOR),
                    Box::new(inner),
                );
                proof {
                    assert(wrapped@ == wrap_run(runs@[i as int]));
                }
            },
        }
        proof {
            assert(wrapped@ == wrap_run(runs@[i as int]));
            lemma_nodes_view_push(out@, wrapped);
            assert(wv.subrange(0, i + 1 as int) =~= wv.subrange(0, i as int).push(wv[i as int]));
        }
        out.push(wrapped);
        i += 1;
    }
    assert(wv.subrange(0, wv.len() as int) =~= wv);
    ContentNode::Sequence(out)
}

} // verus!
