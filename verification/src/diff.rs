//! The sequence differ: a longest-common-subsequence alignment of two
//! unit sequences under the decoration-insensitive equivalence.
//!
//! The alignment is computed by the classic dynamic program over suffix
//! pairs. Equivalent units are always aligned with each other; where the
//! sides disagree, a deletion is preferred over an insertion whenever both
//! preserve an optimal alignment. This one fixed rule makes the output a
//! deterministic function of the inputs. Consecutive operations with the
//! same tag are grouped into maximal runs.

use vstd::prelude::*;

use crate::content::NodeView;
use crate::unit::equiv;
use crate::unit::units_views;
use crate::unit::DiffableContent;

verus! {

/// The tag of an alignment run.
#[derive(Clone, Copy, PartialEq, Eq, Structural)]
pub enum RunTag {
    Equal,
    Delete,
    Insert,
}

/// One maximal alignment run.
///
/// An `Equal` run carries the matched slice of both sides: the units
/// drawn from the old sequence and the equivalent units drawn from the
/// new one. A `Delete` run carries units of the old sequence only, an
/// `Insert` run units of the new sequence only.
pub enum DiffRun {
    Equal(Vec<DiffableContent>, Vec<DiffableContent>),
    Delete(Vec<DiffableContent>),
    Insert(Vec<DiffableContent>),
}

impl DiffRun {
    /// The tag of this run.
    pub open spec fn tag(&self) -> RunTag {
        match self {
            DiffRun::Equal(_, _) => RunTag::Equal,
            DiffRun::Delete(_) => RunTag::Delete,
            DiffRun::Insert(_) => RunTag::Insert,
        }
    }

    /// The unit values this run draws from the old sequence.
    pub open spec fn a_views(&self) -> Seq<Seq<NodeView>> {
        match self {
            DiffRun::Equal(a, _) => units_views(a@),
            DiffRun::Delete(a) => units_views(a@),
            DiffRun::Insert(_) => Seq::empty(),
        }
    }

    /// The unit values this run draws from the new sequence.
    pub open spec fn b_views(&self) -> Seq<Seq<NodeView>> {
        match self {
            DiffRun::Equal(_, b) => units_views(b@),
            DiffRun::Delete(_) => Seq::empty(),
            DiffRun::Insert(b) => units_views(b@),
        }
    }

    /// A run is nonempty, and an equal run matches its two sides
    /// pointwise by equivalence.
    pub open spec fn wf(&self) -> bool {
        match self {
            DiffRun::Equal(a, b) => {
                &&& a@.len() >= 1
                &&& a@.len() == b@.len()
                &&& forall|i: int| 0 <= i < a@.len() ==> equiv(#[trigger] a@[i]@, b@[i]@)
            },
            DiffRun::Delete(a) => a@.len() >= 1,
            DiffRun::Insert(b) => b@.len() >= 1,
        }
    }
}

/// The old-side units of a run list, concatenated in order: an old unit
/// appears in an equal or a delete run.
pub open spec fn runs_a_views(rs: Seq<DiffRun>) -> Seq<Seq<NodeView>>
    decreases rs.len(),
{
    if rs.len() == 0 {
        Seq::empty()
    } else {
        runs_a_views(rs.drop_last()) + rs.last().a_views()
    }
}

/// The new-side units of a run list, concatenated in order: a new unit
/// appears in an equal or an insert run.
pub open spec fn runs_b_views(rs: Seq<DiffRun>) -> Seq<Seq<NodeView>>
    decreases rs.len(),
{
    if rs.len() == 0 {
        Seq::empty()
    } else {
        runs_b_views(rs.drop_last()) + rs.last().b_views()
    }
}

/// Every run is well-formed and consecutive runs carry different tags,
/// so each run is maximal.
pub open spec fn runs_wf(rs: Seq<DiffRun>) -> bool {
    &&& forall|k: int| 0 <= k < rs.len() ==> (#[trigger] rs[k]).wf()
    &&& forall|k: int| 0 <= k < rs.len() - 1 ==> (#[trigger] rs[k]).tag() != rs[k + 1].tag()
}

/// The number of matched unit pairs over all equal runs.
pub open spec fn eq_total(rs: Seq<DiffRun>) -> nat
    decreases rs.len(),
{
    if rs.len() == 0 {
        0
    } else {
        eq_total(rs.drop_last()) + if rs.last() is Equal {
            rs.last().a_views().len()
        } else {
            0
        }
    }
}

/// The number of units deleted over all delete runs.
pub open spec fn del_total(rs: Seq<DiffRun>) -> nat
    decreases rs.len(),
{
    if rs.len() == 0 {
        0
    } else {
        del_total(rs.drop_last()) + if rs.last() is Delete {
            rs.last().a_views().len()
        } else {
            0
        }
    }
}

/// The number of units inserted over all insert runs.
pub open spec fn ins_total(rs: Seq<DiffRun>) -> nat
    decreases rs.len(),
{
    if rs.len() == 0 {
        0
    } else {
        ins_total(rs.drop_last()) + if rs.last() is Insert {
            rs.last().b_views().len()
        } else {
            0
        }
    }
}

/// The length of a longest common subsequence of two unit sequences,
/// where units match by equivalence.
pub open spec fn lcs_len(a: Seq<Seq<NodeView>>, b: Seq<Seq<NodeView>>) -> nat
    decreases a.len() + b.len(),
{
    if a.len() == 0 || b.len() == 0 {
        0
    } else if equiv(a[0], b[0]) {
        1 + lcs_len(a.drop_first(), b.drop_first())
    } else {
        let d = lcs_len(a.drop_first(), b);
        let i = lcs_len(a, b.drop_first());
        if d >= i {
            d
        } else {
            i
        }
    }
}

/// A common subsequence is no longer than either sequence.
pub proof fn lemma_lcs_bound(a: Seq<Seq<NodeView>>, b: Seq<Seq<NodeView>>)
    ensures
        lcs_len(a, b) <= a.len(),
        lcs_len(a, b) <= b.len(),
    decreases a.len() + b.len(),
{
    if a.len() == 0 || b.len() == 0 {
    } else if equiv(a[0], b[0]) {
        lemma_lcs_bound(a.drop_first(), b.drop_first());
    } else {
        lemma_lcs_bound(a.drop_first(), b);
        lemma_lcs_bound(a, b.drop_first());
    }
}

/// Unfolds `lcs_len` on a pair of suffixes, one step.
pub proof fn lemma_lcs_skip_unfold(a: Seq<Seq<NodeView>>, b: Seq<Seq<NodeView>>, i: int, j: int)
    requires
        0 <= i <= a.len(),
        0 <= j <= b.len(),
    ensures
        i == a.len() || j == b.len() ==> lcs_len(a.skip(i), b.skip(j)) == 0,
        i < a.len() && j < b.len() && equiv(a[i], b[j]) ==> lcs_len(a.skip(i), b.skip(j)) == 1
            + lcs_len(a.skip(i + 1), b.skip(j + 1)),
        i < a.len() && j < b.len() && !equiv(a[i], b[j]) ==> lcs_len(a.skip(i), b.skip(j)) == {
            let d = lcs_len(a.skip(i + 1), b.skip(j));
            let n = lcs_len(a.skip(i), b.skip(j + 1));
            if d >= n {
                d
            } else {
                n
            }
        },
{
    if i == a.len() || j == b.len() {
        assert(a.skip(i).len() == 0 || b.skip(j).len() == 0);
    } else {
        assert(a.skip(i)[0] == a[i]);
        assert(b.skip(j)[0] == b[j]);
        assert(a.skip(i).drop_first() =~= a.skip(i + 1));
        assert(b.skip(j).drop_first() =~= b.skip(j + 1));
    }
}

/// Computes the dynamic-programming table of the alignment: entry
/// `(i, j)` is the length of a longest common subsequence of the suffixes
/// of the two unit sequences that start at `i` and `j`.
#[verifier::loop_isolation(false)]
fn lcs_table(a: &Vec<DiffableContent>, b: &Vec<DiffableContent>) -> (t: Vec<Vec<usize>>)
    requires
        forall|k: int| 0 <= k < a@.len() ==> (#[trigger] a@[k]).wf(),
        forall|k: int| 0 <= k < b@.len() ==> (#[trigger] b@[k]).wf(),
    ensures
        t@.len() == a@.len() + 1,
        forall|i: int| 0 <= i <= a@.len() ==> (#[trigger] t@[i])@.len() == b@.len() + 1,
        forall|i: int, j: int|
            0 <= i <= a@.len() && 0 <= j <= b@.len() ==> #[trigger] t@[i]@[j] == lcs_len(
                units_views(a@).skip(i),
                units_views(b@).skip(j),
            ),
{
    let n = a.len();
    let m = b.len();
    let ghost av = units_views(a@);
    let ghost bv = units_views(b@);
    proof {
        assert(av.len() == n);
        assert(bv.len() == m);
    }
    // The row for i == n: with an empty old suffix every entry is zero.
    let mut bottom: Vec<usize> = Vec::new();
    let mut jj: usize = 0;
    while jj < m
        invariant
            jj <= m,
            bottom@.len() == jj,
            forall|j: int| 0 <= j < jj ==> #[trigger] bottom@[j] == 0,
        decreases m - jj,
    {
        bottom.push(0);
        jj += 1;
    }
    bottom.push(0);
    proof {
        assert forall|j: int| 0 <= j <= m implies lcs_len(av.skip(n as int), bv.skip(j)) == 0 by {
            lemma_lcs_skip_unfold(av, bv, n as int, j);
        }
    }
    let mut t: Vec<Vec<usize>> = Vec::new();
    t.push(bottom);
    let mut i = n;
    while i > 0
        invariant
            i <= n,
            t@.len() == n - i + 1,
            forall|k: int| 0 <= k < t@.len() ==> (#[trigger] t@[k])@.len() == m + 1,
            forall|k: int, j: int|
                0 <= k < t@.len() && 0 <= j <= m ==> #[trigger] t@[k]@[j] == lcs_len(
                    av.skip(i + k),
                    bv.skip(j),
                ),
        decreases i,
    {
        i -= 1;
        // Build the row for this i, from j == m down to j == 0.
        let mut row: Vec<usize> = Vec::new();
        row.push(0);
        proof {
            lemma_lcs_skip_unfold(av, bv, i as int, m as int);
        }
        let mut j = m;
        while j > 0
            invariant
                j <= m,
                i < n,
                row@.len() == m - j + 1,
                forall|k: int|
                    0 <= k < row@.len() ==> #[trigger] row@[k] == lcs_len(
                        av.skip(i as int),
                        bv.skip(j + k),
                    ),
            decreases j,
        {
            j -= 1;
            proof {
                lemma_lcs_skip_unfold(av, bv, i as int, j as int);
                lemma_lcs_bound(av.skip(i + 1), bv.skip(j + 1));
                assert(av.skip(i + 1).len() == n - i - 1);
            }
            let val: usize;
            if a[i].equivalent(&b[j]) {
                let next = &t[0];
                val = next[j + 1] + 1;
            } else {
                let next = &t[0];
                let down = next[j];
                let right = row[0];
                val = if down >= right {
                    down
                } else {
                    right
                };
            }
            let ghost old_row = row@;
            row.insert(0, val);
            proof {
                assert(row@ =~= seq![val].add(old_row));
                assert forall|k: int| 0 <= k < row@.len() implies #[trigger] row@[k] == lcs_len(
                    av.skip(i as int),
                    bv.skip(j + k),
                ) by {
                    if k > 0 {
                        assert(row@[k] == old_row[k - 1]);
                    }
                }
            }
        }
        let ghost old_t = t@;
        let ghost row_snap = row;
        t.insert(0, row);
        proof {
            assert(t@ =~= seq![row_snap].add(old_t));
        }
    }
    t
}

/// Appending one run splits the side views and the totals of a run list.
proof fn lemma_runs_push(rs: Seq<DiffRun>, r: DiffRun)
    ensures
        runs_a_views(rs.push(r)) == runs_a_views(rs) + r.a_views(),
        runs_b_views(rs.push(r)) == runs_b_views(rs) + r.b_views(),
        eq_total(rs.push(r)) == eq_total(rs) + if r is Equal {
            r.a_views().len()
        } else {
            0
        },
        del_total(rs.push(r)) == del_total(rs) + if r is Delete {
            r.a_views().len()
        } else {
            0
        },
        ins_total(rs.push(r)) == ins_total(rs) + if r is Insert {
            r.b_views().len()
        } else {
            0
        },
{
    assert(rs.push(r).drop_last() =~= rs);
    assert(rs.push(r).last() == r);
}

/// The side views of a run list are as long as its totals say: every old
/// unit lies in an equal or a delete run, every new unit in an equal or
/// an insert run.
proof fn lemma_run_totals(rs: Seq<DiffRun>)
    requires
        forall|k: int| 0 <= k < rs.len() ==> (#[trigger] rs[k]).wf(),
    ensures
        runs_a_views(rs).len() == eq_total(rs) + del_total(rs),
        runs_b_views(rs).len() == eq_total(rs) + ins_total(rs),
    decreases rs.len(),
{
    if rs.len() > 0 {
        let p = rs.drop_last();
        assert(forall|k: int| 0 <= k < p.len() ==> p[k] == rs[k]);
        lemma_run_totals(p);
        let r = rs.last();
        assert(r.wf());
        match r {
            DiffRun::Equal(va, vb) => {
                assert(r.a_views().len() == va@.len());
                assert(r.b_views().len() == vb@.len());
            },
            DiffRun::Delete(_) => {},
            DiffRun::Insert(_) => {},
        }
    }
}

/// A run list whose total for a tag is zero holds no run of that tag.
proof fn lemma_tag_absent(rs: Seq<DiffRun>)
    requires
        forall|k: int| 0 <= k < rs.len() ==> (#[trigger] rs[k]).wf(),
    ensures
        eq_total(rs) == 0 ==> forall|k: int| 0 <= k < rs.len() ==> !((#[trigger] rs[k]) is Equal),
        del_total(rs) == 0 ==> forall|k: int|
            0 <= k < rs.len() ==> !((#[trigger] rs[k]) is Delete),
        ins_total(rs) == 0 ==> forall|k: int|
            0 <= k < rs.len() ==> !((#[trigger] rs[k]) is Insert),
    decreases rs.len(),
{
    if rs.len() > 0 {
        let p = rs.drop_last();
        assert(forall|k: int| 0 <= k < p.len() ==> p[k] == rs[k]);
        lemma_tag_absent(p);
        let r = rs.last();
        assert(r.wf());
        match r {
            DiffRun::Equal(va, _) => {
                assert(r.a_views().len() == va@.len());
            },
            DiffRun::Delete(va) => {
                assert(r.a_views().len() == va@.len());
            },
            DiffRun::Insert(vb) => {
                assert(r.b_views().len() == vb@.len());
            },
        }
    }
}

/// Replacing the last run of a list by an extension of itself that draws
/// one more matched pair extends the side views and the matched total.
#[verifier::rlimit(100)]
proof fn lemma_extend_equal(rs: Seq<DiffRun>, rs2: Seq<DiffRun>, r: DiffRun, ua: DiffableContent, ub: DiffableContent)
    requires
        runs_wf(rs),
        rs.len() >= 1,
        rs.last() is Equal,
        r is Equal,
        r->Equal_0@ == rs.last()->Equal_0@.push(ua),
        r->Equal_1@ == rs.last()->Equal_1@.push(ub),
        equiv(ua@, ub@),
        rs2 == rs.drop_last().push(r),
    ensures
        runs_wf(rs2),
        rs2.len() == rs.len(),
        runs_a_views(rs2) == runs_a_views(rs).push(ua@),
        runs_b_views(rs2) == runs_b_views(rs).push(ub@),
        eq_total(rs2) == eq_total(rs) + 1,
        del_total(rs2) == del_total(rs),
        ins_total(rs2) == ins_total(rs),
{
    let p = rs.drop_last();
    let r0 = rs.last();
    lemma_runs_push(p, r);
    assert(rs =~= p.push(r0));
    lemma_runs_push(p, r0);
    crate::unit::lemma_units_views_push(r0->Equal_0@, ua);
    crate::unit::lemma_units_views_push(r0->Equal_1@, ub);
    assert(r.a_views() == r0.a_views().push(ua@));
    assert(r.b_views() == r0.b_views().push(ub@));
    assert(runs_a_views(rs2) =~= runs_a_views(rs).push(ua@));
    assert(runs_b_views(rs2) =~= runs_b_views(rs).push(ub@));
    assert(r0.wf());
    assert forall|i: int| 0 <= i < r->Equal_0@.len() implies equiv(
        #[trigger] r->Equal_0@[i]@,
        r->Equal_1@[i]@,
    ) by {
        if i < r0->Equal_0@.len() {
            assert(r->Equal_0@[i] == r0->Equal_0@[i]);
            assert(r->Equal_1@[i] == r0->Equal_1@[i]);
        }
    }
    assert(r.wf());
    assert forall|k: int| 0 <= k < rs2.len() implies (#[trigger] rs2[k]).wf() by {
        if k < rs2.len() - 1 {
            assert(rs2[k] == rs[k]);
        }
    }
    assert forall|k: int| 0 <= k < rs2.len() - 1 implies (#[trigger] rs2[k]).tag() != rs2[k
        + 1].tag() by {
        assert(rs2[k] == rs[k]);
        if k < rs2.len() - 2 {
            assert(rs2[k + 1] == rs[k + 1]);
        } else {
            assert(rs2[k + 1].tag() == rs[k + 1].tag());
        }
    }
}

/// As `lemma_extend_equal`, for a delete run extended by one old unit.
#[verifier::rlimit(100)]
proof fn lemma_extend_delete(rs: Seq<DiffRun>, rs2: Seq<DiffRun>, r: DiffRun, ua: DiffableContent)
    requires
        runs_wf(rs),
        rs.len() >= 1,
        rs.last() is Delete,
        r is Delete,
        r->Delete_0@ == rs.last()->Delete_0@.push(ua),
        rs2 == rs.drop_last().push(r),
    ensures
        runs_wf(rs2),
        rs2.len() == rs.len(),
        runs_a_views(rs2) == runs_a_views(rs).push(ua@),
        runs_b_views(rs2) == runs_b_views(rs),
        eq_total(rs2) == eq_total(rs),
        del_total(rs2) == del_total(rs) + 1,
        ins_total(rs2) == ins_total(rs),
{
    let p = rs.drop_last();
    let r0 = rs.last();
    lemma_runs_push(p, r);
    assert(rs =~= p.push(r0));
    lemma_runs_push(p, r0);
    crate::unit::lemma_units_views_push(r0->Delete_0@, ua);
    assert(r.a_views() == r0.a_views().push(ua@));
    assert(r.b_views() == r0.b_views());
    assert(runs_a_views(rs2) =~= runs_a_views(rs).push(ua@));
    assert(runs_b_views(rs2) =~= runs_b_views(rs));
    assert(rs.last().wf());
    assert(r.wf());
    assert forall|k: int| 0 <= k < rs2.len() implies (#[trigger] rs2[k]).wf() by {
        if k < rs2.len() - 1 {
            assert(rs2[k] == rs[k]);
        }
    }
    assert forall|k: int| 0 <= k < rs2.len() - 1 implies (#[trigger] rs2[k]).tag() != rs2[k
        + 1].tag() by {
        assert(rs2[k] == rs[k]);
        if k < rs2.len() - 2 {
            assert(rs2[k + 1] == rs[k + 1]);
        } else {
            assert(rs2[k + 1].tag() == rs[k + 1].tag());
        }
    }
}

/// As `lemma_extend_equal`, for an insert run extended by one new unit.
#[verifier::rlimit(100)]
proof fn lemma_extend_insert(rs: Seq<DiffRun>, rs2: Seq<DiffRun>, r: DiffRun, ub: DiffableContent)
    requires
        runs_wf(rs),
        rs.len() >= 1,
        rs.last() is Insert,
        r is Insert,
        r->Insert_0@ == rs.last()->Insert_0@.push(ub),
        rs2 == rs.drop_last().push(r),
    ensures
        runs_wf(rs2),
        rs2.len() == rs.len(),
        runs_a_views(rs2) == runs_a_views(rs),
        runs_b_views(rs2) == runs_b_views(rs).push(ub@),
        eq_total(rs2) == eq_total(rs),
        del_total(rs2) == del_total(rs),
        ins_total(rs2) == ins_total(rs) + 1,
{
    let p = rs.drop_last();
    let r0 = rs.last();
    lemma_runs_push(p, r);
    assert(rs =~= p.push(r0));
    lemma_runs_push(p, r0);
    crate::unit::lemma_units_views_push(r0->Insert_0@, ub);
    assert(r.a_views() == r0.a_views());
    assert(r.b_views() == r0.b_views().push(ub@));
    assert(runs_a_views(rs2) =~= runs_a_views(rs));
    assert(runs_b_views(rs2) =~= runs_b_views(rs).push(ub@));
    assert(rs.last().wf());
    assert(r.wf());
    assert forall|k: int| 0 <= k < rs2.len() implies (#[trigger] rs2[k]).wf() by {
        if k < rs2.len() - 1 {
            assert(rs2[k] == rs[k]);
        }
    }
    assert forall|k: int| 0 <= k < rs2.len() - 1 implies (#[trigger] rs2[k]).tag() != rs2[k
        + 1].tag() by {
        assert(rs2[k] == rs[k]);
        if k < rs2.len() - 2 {
            assert(rs2[k + 1] == rs[k + 1]);
        } else {
            assert(rs2[k + 1].tag() == rs[k + 1].tag());
        }
    }
}

/// Appending a well-formed run whose tag differs from the last keeps the
/// list well-formed and extends the side views by the run's units.
#[verifier::rlimit(100)]
proof fn lemma_append_run(rs: Seq<DiffRun>, r: DiffRun)
    requires
        runs_wf(rs),
        r.wf(),
        rs.len() >= 1 ==> rs.last().tag() != r.tag(),
    ensures
        runs_wf(rs.push(r)),
        runs_a_views(rs.push(r)) == runs_a_views(rs) + r.a_views(),
        runs_b_views(rs.push(r)) == runs_b_views(rs) + r.b_views(),
        eq_total(rs.push(r)) == eq_total(rs) + if r is Equal {
            r.a_views().len()
        } else {
            0
        },
        del_total(rs.push(r)) == del_total(rs) + if r is Delete {
            r.a_views().len()
        } else {
            0
        },
        ins_total(rs.push(r)) == ins_total(rs) + if r is Insert {
            r.b_views().len()
        } else {
            0
        },
{
    lemma_runs_push(rs, r);
    let rs2 = rs.push(r);
    assert forall|k: int| 0 <= k < rs2.len() implies (#[trigger] rs2[k]).wf() by {
        if k < rs.len() {
            assert(rs2[k] == rs[k]);
        }
    }
    assert forall|k: int| 0 <= k < rs2.len() - 1 implies (#[trigger] rs2[k]).tag() != rs2[k
        + 1].tag() by {
        assert(rs2[k] == rs[k]);
        if k < rs.len() - 1 {
            assert(rs2[k + 1] == rs[k + 1]);
        } else {
            assert(rs2[k + 1] == r);
            assert(rs[k] == rs.last());
        }
    }
}

/// Adds one matched pair of equivalent units to the run list, extending a
/// trailing equal run or opening a new one.
#[verifier::loop_isolation(false)]
#[verifier::rlimit(100)]
fn push_equal(runs: &mut Vec<DiffRun>, ua: DiffableContent, ub: DiffableContent)
    requires
        runs_wf(old(runs)@),
        equiv(ua@, ub@),
    ensures
        runs_wf(final(runs)@),
        final(runs)@.len() >= 1,
        runs_a_views(final(runs)@) == runs_a_views(old(runs)@).push(ua@),
        runs_b_views(final(runs)@) == runs_b_views(old(runs)@).push(ub@),
        eq_total(final(runs)@) == eq_total(old(runs)@) + 1,
        del_total(final(runs)@) == del_total(old(runs)@),
        ins_total(final(runs)@) == ins_total(old(runs)@),
{
    let k = runs.len();
    let extend = if k > 0 {
        matches!(&runs[k - 1], DiffRun::Equal(_, _))
    } else {
        false
    };
    if extend {
        let last = runs.pop().unwrap();
        match last {
            DiffRun::Equal(mut va, mut vb) => {
                va.push(ua);
                vb.push(ub);
                let r = DiffRun::Equal(va, vb);
                runs.push(r);
                proof {
                    lemma_extend_equal(old(runs)@, runs@, r, ua, ub);
                }
            },
            DiffRun::Delete(va) => {
                proof {
                    assert(false);
                }
                runs.push(DiffRun::Delete(va));
            },
            DiffRun::Insert(vb) => {
                proof {
                    assert(false);
                }
                runs.push(DiffRun::Insert(vb));
            },
        }
    } else {
        let mut va: Vec<DiffableContent> = Vec::new();
        let mut vb: Vec<DiffableContent> = Vec::new();
        va.push(ua);
        vb.push(ub);
        let r = DiffRun::Equal(va, vb);
        proof {
            assert(r->Equal_0@ =~= seq![ua]);
            assert(r->Equal_1@ =~= seq![ub]);
            assert(r.a_views() =~= seq![ua@]);
            assert(r.b_views() =~= seq![ub@]);
            assert(r.wf());
            lemma_append_run(old(runs)@, r);
            assert(runs_a_views(old(runs)@) + r.a_views() =~= runs_a_views(old(runs)@).push(ua@));
            assert(runs_b_views(old(runs)@) + r.b_views() =~= runs_b_views(old(runs)@).push(ub@));
        }
        runs.push(r);
    }
}

/// Adds one deleted old unit to the run list, extending a trailing
/// delete run or opening a new one.
#[verifier::loop_isolation(false)]
#[verifier::rlimit(100)]
fn push_delete(runs: &mut Vec<DiffRun>, ua: DiffableContent)
    requires
        runs_wf(old(runs)@),
    ensures
        runs_wf(final(runs)@),
        final(runs)@.len() >= 1,
        runs_a_views(final(runs)@) == runs_a_views(old(runs)@).push(ua@),
        runs_b_views(final(runs)@) == runs_b_views(old(runs)@),
        eq_total(final(runs)@) == eq_total(old(runs)@),
        del_total(final(runs)@) == del_total(old(runs)@) + 1,
        ins_total(final(runs)@) == ins_total(old(runs)@),
{
    let k = runs.len();
    let extend = if k > 0 {
        matches!(&runs[k - 1], DiffRun::Delete(_))
    } else {
        false
    };
    if extend {
        let last = runs.pop().unwrap();
        match last {
            DiffRun::Delete(mut va) => {
                va.push(ua);
                let r = DiffRun::Delete(va);
                runs.push(r);
                proof {
                    lemma_extend_delete(old(runs)@, runs@, r, ua);
                }
            },
            DiffRun::Equal(va, vb) => {
                proof {
                    assert(false);
                }
                runs.push(DiffRun::Equal(va, vb));
            },
            DiffRun::Insert(vb) => {
                proof {
                    assert(false);
                }
                runs.push(DiffRun::Insert(vb));
            },
        }
    } else {
        let mut va: Vec<DiffableContent> = Vec::new();
        va.push(ua);
        let r = DiffRun::Delete(va);
        proof {
            assert(r->Delete_0@ =~= seq![ua]);
            assert(r.a_views() =~= seq![ua@]);
            assert(r.wf());
            lemma_append_run(old(runs)@, r);
            assert(runs_a_views(old(runs)@) + r.a_views() =~= runs_a_views(old(runs)@).push(ua@));
            assert(runs_b_views(old(runs)@) + r.b_views() =~= runs_b_views(old(runs)@));
        }
        runs.push(r);
    }
}

/// Adds one inserted new unit to the run list, extending a trailing
/// insert run or opening a new one.
#[verifier::loop_isolation(false)]
#[verifier::rlimit(100)]
fn push_insert(runs: &mut Vec<DiffRun>, ub: DiffableContent)
    requires
        runs_wf(old(runs)@),
    ensures
        runs_wf(final(runs)@),
        final(runs)@.len() >= 1,
        runs_a_views(final(runs)@) == runs_a_views(old(runs)@),
        runs_b_views(final(runs)@) == runs_b_views(old(runs)@).push(ub@),
        eq_total(final(runs)@) == eq_total(old(runs)@),
        del_total(final(runs)@) == del_total(old(runs)@),
        ins_total(final(runs)@) == ins_total(old(runs)@) + 1,
{
    let k = runs.len();
    let extend = if k > 0 {
        matches!(&runs[k - 1], DiffRun::Insert(_))
    } else {
        false
    };
    if extend {
        let last = runs.pop().unwrap();
        match last {
            DiffRun::Insert(mut vb) => {
                vb.push(ub);
                let r = DiffRun::Insert(vb);
                runs.push(r);
                proof {
                    lemma_extend_insert(old(runs)@, runs@, r, ub);
                }
            },
            DiffRun::Equal(va, vb) => {
                proof {
                    assert(false);
                }
                runs.push(DiffRun::Equal(va, vb));
            },
            DiffRun::Delete(va) => {
                proof {
                    assert(false);
                }
                runs.push(DiffRun::Delete(va));
            },
        }
    } else {
        let mut vb: Vec<DiffableContent> = Vec::new();
        vb.push(ub);
        let r = DiffRun::Insert(vb);
        proof {
            assert(r->Insert_0@ =~= seq![ub]);
            assert(r.b_views() =~= seq![ub@]);
            assert(r.wf());
            lemma_append_run(old(runs)@, r);
            assert(runs_a_views(old(runs)@) + r.a_views() =~= runs_a_views(old(runs)@));
            assert(runs_b_views(old(runs)@) + r.b_views() =~= runs_b_views(old(runs)@).push(ub@));
        }
        runs.push(r);
    }
}

/// What the partition, maximality and optimality of a run list force in
/// the degenerate cases: equivalent inputs leave one equal run, one empty
/// side leaves one insert or delete run, two empty sides leave nothing.
#[verifier::rlimit(100)]
proof fn lemma_diff_shape(rs: Seq<DiffRun>, av: Seq<Seq<NodeView>>, bv: Seq<Seq<NodeView>>)
    requires
        runs_wf(rs),
        runs_a_views(rs) == av,
        runs_b_views(rs) == bv,
        eq_total(rs) == lcs_len(av, bv),
    ensures
        (av.len() == bv.len() && av.len() > 0 && (forall|i: int|
            0 <= i < av.len() ==> equiv(#[trigger] av[i], bv[i]))) ==> (rs.len() == 1 && rs[0]
            is Equal && rs[0].a_views() == av && rs[0].b_views() == bv),
        av.len() == 0 && bv.len() > 0 ==> rs.len() == 1 && rs[0] is Insert && rs[0].b_views()
            == bv,
        bv.len() == 0 && av.len() > 0 ==> rs.len() == 1 && rs[0] is Delete && rs[0].a_views()
            == av,
        av.len() == 0 && bv.len() == 0 ==> rs.len() == 0,
{
    assert(rs.len() == 1 ==> {
        &&& runs_a_views(rs) == rs[0].a_views()
        &&& runs_b_views(rs) == rs[0].b_views()
    }) by {
        if rs.len() == 1 {
            assert(runs_a_views(rs.drop_last()) =~= Seq::<Seq<NodeView>>::empty());
            assert(runs_b_views(rs.drop_last()) =~= Seq::<Seq<NodeView>>::empty());
            assert(runs_a_views(rs) =~= rs.last().a_views());
            assert(runs_b_views(rs) =~= rs.last().b_views());
        }
    }
    lemma_run_totals(rs);
    lemma_tag_absent(rs);
    if av.len() == bv.len() && av.len() > 0 && (forall|i: int|
        0 <= i < av.len() ==> equiv(#[trigger] av[i], bv[i])) {
        lemma_lcs_pairwise_equiv(av, bv);
        assert(eq_total(rs) == av.len());
        assert(del_total(rs) == 0);
        assert(ins_total(rs) == 0);
        assert(rs.len() >= 1);
        if rs.len() >= 2 {
            assert(!(rs[0] is Delete) && !(rs[0] is Insert));
            assert(!(rs[1] is Delete) && !(rs[1] is Insert));
            assert(rs[0].tag() == RunTag::Equal);
            assert(rs[1].tag() == RunTag::Equal);
            assert(false);
        }
        assert(!(rs[0] is Delete) && !(rs[0] is Insert));
    }
    if av.len() == 0 && bv.len() > 0 {
        assert(eq_total(rs) + del_total(rs) == 0);
        assert(rs.len() >= 1);
        if rs.len() >= 2 {
            assert(rs[0].tag() == RunTag::Insert);
            assert(rs[1].tag() == RunTag::Insert);
            assert(false);
        }
    }
    if bv.len() == 0 && av.len() > 0 {
        assert(lcs_len(av, bv) == 0);
        assert(eq_total(rs) + ins_total(rs) == 0);
        assert(rs.len() >= 1);
        if rs.len() >= 2 {
            assert(rs[0].tag() == RunTag::Delete);
            assert(rs[1].tag() == RunTag::Delete);
            assert(false);
        }
    }
    if av.len() == 0 && bv.len() == 0 {
        if rs.len() >= 1 {
            assert(!(rs[0] is Equal) && !(rs[0] is Delete) && !(rs[0] is Insert));
            assert(false);
        }
    }
}

/// Aligns two unit sequences and groups the alignment into maximal runs.
///
/// The contract pins the result down: the equal and delete runs cover the
/// old sequence exactly and the equal and insert runs cover the new one
/// (the run partition law); equal runs match equivalent units pointwise;
/// adjacent runs carry different tags; and the number of matched pairs is
/// the length of a longest common subsequence, so the alignment is a
/// minimal edit. Equivalent inputs therefore come back as one equal run,
/// and an empty side as one insert or delete run covering the other side.
#[verifier::loop_isolation(false)]
#[verifier::rlimit(100)]
pub fn diff_units(a: &Vec<DiffableContent>, b: &Vec<DiffableContent>) -> (runs: Vec<DiffRun>)
    requires
        forall|k: int| 0 <= k < a@.len() ==> (#[trigger] a@[k]).wf(),
        forall|k: int| 0 <= k < b@.len() ==> (#[trigger] b@[k]).wf(),
    ensures
        runs_a_views(runs@) == units_views(a@),
        runs_b_views(runs@) == units_views(b@),
        runs_wf(runs@),
        eq_total(runs@) == lcs_len(units_views(a@), units_views(b@)),
        (a@.len() == b@.len() && a@.len() > 0 && (forall|i: int|
            0 <= i < a@.len() ==> equiv(#[trigger] a@[i]@, b@[i]@))) ==> (runs@.len() == 1
            && runs@[0] is Equal && runs@[0].a_views() == units_views(a@) && runs@[0].b_views()
            == units_views(b@)),
        a@.len() == 0 && b@.len() > 0 ==> runs@.len() == 1 && runs@[0] is Insert
            && runs@[0].b_views() == units_views(b@),
        b@.len() == 0 && a@.len() > 0 ==> runs@.len() == 1 && runs@[0] is Delete
            && runs@[0].a_views() == units_views(a@),
        a@.len() == 0 && b@.len() == 0 ==> runs@.len() == 0,
{
    let t = lcs_table(a, b);
    let n = a.len();
    let m = b.len();
    let ghost av = units_views(a@);
    let ghost bv = units_views(b@);
    let mut runs: Vec<DiffRun> = Vec::new();
    let mut i: usize = 0;
    let mut j: usize = 0;
    proof {
        assert(runs_a_views(runs@) =~= av.subrange(0, 0));
        assert(runs_b_views(runs@) =~= bv.subrange(0, 0));
        assert(av.skip(0) =~= av);
        assert(bv.skip(0) =~= bv);
    }
    while i < n || j < m
        invariant
            i <= n,
            j <= m,
            runs_a_views(runs@) == av.subrange(0, i as int),
            runs_b_views(runs@) == bv.subrange(0, j as int),
            runs_wf(runs@),
            eq_total(runs@) + lcs_len(av.skip(i as int), bv.skip(j as int)) == lcs_len(av, bv),
        decreases n - i + m - j,
    {
        let take_eq = i < n && j < m && a[i].equivalent(&b[j]);
        if take_eq {
            let ua = a[i].clone_unit();
            let ub = b[j].clone_unit();
            proof {
                lemma_lcs_skip_unfold(av, bv, i as int, j as int);
                assert(av.subrange(0, i + 1 as int) =~= av.subrange(0, i as int).push(av[i as int]));
                assert(bv.subrange(0, j + 1 as int) =~= bv.subrange(0, j as int).push(bv[j as int]));
            }
            push_equal(&mut runs, ua, ub);
            i += 1;
            j += 1;
        } else {
            let mut take_del = false;
            if i < n {
                if j == m {
                    take_del = true;
                } else {
                    let next = &t[i + 1];
                    let down = next[j];
                    let row = &t[i];
                    let right = row[j + 1];
                    if down >= right {
                        take_del = true;
                    }
                }
            }
            if take_del {
                let ua = a[i].clone_unit();
                proof {
                    lemma_lcs_skip_unfold(av, bv, i as int, j as int);
                    assert(av.subrange(0, i + 1 as int) =~= av.subrange(0, i as int).push(
                        av[i as int],
                    ));
                }
                push_delete(&mut runs, ua);
                i += 1;
            } else {
                proof {
                    if j == m {
                        assert(false);
                    }
                }
                let ub = b[j].clone_unit();
                proof {
                    lemma_lcs_skip_unfold(av, bv, i as int, j as int);
                    if i < n {
                        assert(lcs_len(av.skip(i as int), bv.skip(j as int)) == lcs_len(
                            av.skip(i as int),
                            bv.skip(j + 1 as int),
                        ));
                    }
                    assert(bv.subrange(0, j + 1 as int) =~= bv.subrange(0, j as int).push(
                        bv[j as int],
                    ));
                }
                push_insert(&mut runs, ub);
                j += 1;
            }
        }
    }
    proof {
        assert(av.subrange(0, n as int) =~= av);
        assert(bv.subrange(0, m as int) =~= bv);
        lemma_lcs_skip_unfold(av, bv, n as int, m as int);
        lemma_diff_shape(runs@, av, bv);
        assert(forall|i2: int| 0 <= i2 < a@.len() ==> av[i2] == (#[trigger] a@[i2])@);
        assert(forall|i2: int| 0 <= i2 < b@.len() ==> bv[i2] == (#[trigger] b@[i2])@);
    }
    runs
}

/// Two sequences of the same length whose units are pointwise equivalent
/// have a common subsequence of full length.
pub proof fn lemma_lcs_pairwise_equiv(a: Seq<Seq<NodeView>>, b: Seq<Seq<NodeView>>)
    requires
        a.len() == b.len(),
        forall|i: int| 0 <= i < a.len() ==> equiv(#[trigger] a[i], b[i]),
    ensures
        lcs_len(a, b) == a.len(),
    decreases a.len(),
{
    if a.len() > 0 {
        assert(equiv(a[0], b[0]));
        assert(forall|i: int|
            0 <= i < a.drop_first().len() ==> #[trigger] a.drop_first()[i] == a[i + 1]);
        assert(forall|i: int|
            0 <= i < b.drop_first().len() ==> #[trigger] b.drop_first()[i] == b[i + 1]);
        lemma_lcs_pairwise_equiv(a.drop_first(), b.drop_first());
    }
}

} // verus!
