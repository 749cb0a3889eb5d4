//! Comparison of two versions of a structured document.
//!
//! The crate models a document as a tree of content nodes (text, spaces,
//! line breaks, raw spans, decoration wrappers), flattens such a tree into
//! diff units — an inter-word space glues its neighbours onto the unit
//! before it — aligns the unit sequences of two documents with a
//! longest-common-subsequence diff whose element comparator ignores pure
//! decoration, and rebuilds one merged tree in which insertions and
//! deletions are visually annotated. A bounded convergence loop drives an
//! external typesetting engine until the merged document's introspection
//! state stabilizes.

pub mod content;
pub mod converge;
pub mod diff;
pub mod merge;
pub mod norm;
pub mod unit;

use vstd::prelude::*;

use crate::content::ContentNode;
use crate::diff::eq_total;
use crate::diff::lcs_len;
use crate::diff::runs_a_views;
use crate::diff::runs_b_views;
use crate::diff::runs_wf;
use crate::diff::DiffRun;
use crate::merge::merged_of;
use crate::norm::normal_units;
use crate::norm::normalizable;
use crate::unit::equiv;
use crate::unit::units_views;

verus! {

/// Whether a run list is the alignment of two unit sequences: the equal
/// and delete runs cover the old side exactly and the equal and insert
/// runs the new side, equal runs match equivalent units, adjacent runs
/// carry different tags, and the number of matched pairs is the length
/// of a longest common subsequence of the two sides.
pub open spec fn is_alignment(
    rs: Seq<DiffRun>,
    av: Seq<Seq<content::NodeView>>,
    bv: Seq<Seq<content::NodeView>>,
) -> bool {
    &&& runs_a_views(rs) == av
    &&& runs_b_views(rs) == bv
    &&& runs_wf(rs)
    &&& eq_total(rs) == lcs_len(av, bv)
}

/// Normalizes two documents and aligns their unit sequences.
///
/// Beyond the alignment properties, the degenerate cases are pinned
/// down: two documents whose units are pairwise equivalent come back as
/// one equal run, and an empty document against a nonempty one as a
/// single insert or delete run.
pub fn diff_runs(a: &ContentNode, b: &ContentNode) -> (runs: Vec<DiffRun>)
    requires
        normalizable(a@),
        normalizable(b@),
    ensures
        is_alignment(runs@, normal_units(a@), normal_units(b@)),
        ({
            let av = normal_units(a@);
            let bv = normal_units(b@);
            &&& (av.len() == bv.len() && av.len() > 0 && (forall|i: int|
                0 <= i < av.len() ==> equiv(#[trigger] av[i], bv[i]))) ==> (runs@.len() == 1
                && runs@[0] is Equal && runs@[0].a_views() == av && runs@[0].b_views() == bv)
            &&& av.len() == 0 && bv.len() > 0 ==> runs@.len() == 1 && runs@[0] is Insert
                && runs@[0].b_views() == bv
            &&& bv.len() == 0 && av.len() > 0 ==> runs@.len() == 1 && runs@[0] is Delete
                && runs@[0].a_views() == av
            &&& av.len() == 0 && bv.len() == 0 ==> runs@.len() == 0
        }),
{
    let ua = crate::norm::normalize(a);
    let ub = crate::norm::normalize(b);
    let runs = crate::diff::diff_units(&ua, &ub);
    proof {
        assert(units_views(ua@) == normal_units(a@));
        assert(units_views(ub@) == normal_units(b@));
        assert(forall|i: int|
            0 <= i < ua@.len() ==> (#[trigger] ua@[i])@ == units_views(ua@)[i]);
        assert(forall|i: int|
            0 <= i < ub@.len() ==> (#[trigger] ub@[i])@ == units_views(ub@)[i]);
    }
    runs
}

/// Compares two documents and rebuilds one merged, annotated document.
///
/// The result is the merged form of an alignment of the two normalized
/// documents: unchanged passages pass through untouched, deleted ones
/// are struck through and highlighted, inserted ones highlighted.
pub fn diff_content(a: &ContentNode, b: &ContentNode) -> (merged: ContentNode)
    requires
        normalizable(a@),
        normalizable(b@),
    ensures
        exists|rs: Seq<DiffRun>|
            #[trigger] is_alignment(rs, normal_units(a@), normal_units(b@)) && merged@
                == merged_of(rs),
{
    let runs = diff_runs(a, b);
    let merged = crate::merge::merge_runs(&runs);
    proof {
        assert(is_alignment(runs@, normal_units(a@), normal_units(b@)) && merged@ == merged_of(
            runs@,
        ));
    }
    merged
}

} // verus!
