//! Diagnostics and the bounded convergence loop around the external
//! typesetting engine.
//!
//! The engine itself is an external collaborator: it is handed the merged
//! tree and a constraint, and reports back whether the introspection
//! snapshot of the new layout validates against that constraint. The
//! decisions of the loop live here, verified: one `Layouter` value is the
//! state of the loop, and `on_pass` consumes the outcome of one layout
//! pass and says what to do next. The loop never runs more than
//! `MAX_LAYOUT_PASSES` passes; running out of passes is a warning, never
//! a failure; diagnostics that are still delayed once the loop settles
//! are promoted to fatal errors, deduplicated by location and message.

use vstd::prelude::*;

verus! {

/// How bad a diagnostic is.
#[derive(Clone, Copy, PartialEq, Eq, Structural)]
pub enum Severity {
    Error,
    Warning,
}

/// One diagnostic: where it points, how bad it is, and its message. A
/// location of zero stands for a diagnostic detached from any source.
pub struct Diagnostic {
    pub location: u64,
    pub severity: Severity,
    pub message: String,
}

impl Diagnostic {
    /// Clones the diagnostic.
    pub fn duplicate(&self) -> (r: Self)
        ensures
            r == *self,
    {
        Diagnostic {
            location: self.location,
            severity: self.severity,
            message: self.message.clone(),
        }
    }
}

/// Two diagnostics count as the same user-visible report when they agree
/// on location and message.
pub open spec fn dup_of(d1: Diagnostic, d2: Diagnostic) -> bool {
    d1.location == d2.location && d1.message@ == d2.message@
}

/// Whether the diagnostic at `k` repeats an earlier one.
pub open spec fn has_dup_before(s: Seq<Diagnostic>, k: int) -> bool {
    exists|l: int| 0 <= l < k && dup_of(s[l], #[trigger] s[k])
}

/// Deduplication keeps the first occurrence of every (location, message)
/// pair and drops the rest, preserving order.
pub open spec fn dedup_spec(s: Seq<Diagnostic>) -> Seq<Diagnostic>
    decreases s.len(),
{
    if s.len() == 0 {
        Seq::empty()
    } else {
        let p = dedup_spec(s.drop_last());
        if has_dup_before(s, s.len() - 1) {
            p
        } else {
            p.push(s.last())
        }
    }
}

/// Everything deduplication keeps comes from the input.
pub proof fn lemma_dedup_subset(s: Seq<Diagnostic>)
    ensures
        forall|l: int|
            0 <= l < dedup_spec(s).len() ==> exists|k: int|
                0 <= k < s.len() && s[k] == #[trigger] dedup_spec(s)[l],
    decreases s.len(),
{
    if s.len() > 0 {
        let p = dedup_spec(s.drop_last());
        lemma_dedup_subset(s.drop_last());
        assert forall|l: int| 0 <= l < dedup_spec(s).len() implies exists|k: int|
            0 <= k < s.len() && s[k] == #[trigger] dedup_spec(s)[l] by {
            if l < p.len() {
                assert(dedup_spec(s)[l] == p[l]);
                let k = choose|k: int| 0 <= k < s.drop_last().len() && s.drop_last()[k] == p[l];
                assert(s[k] == dedup_spec(s)[l]);
            } else {
                assert(dedup_spec(s)[l] == s.last());
                assert(s[s.len() - 1] == dedup_spec(s)[l]);
            }
        }
    }
}

/// No two diagnostics that deduplication keeps repeat each other.
pub proof fn lemma_dedup_no_dups(s: Seq<Diagnostic>)
    ensures
        forall|l1: int, l2: int|
            0 <= l1 < l2 < dedup_spec(s).len() ==> !dup_of(
                #[trigger] dedup_spec(s)[l1],
                #[trigger] dedup_spec(s)[l2],
            ),
    decreases s.len(),
{
    if s.len() > 0 {
        let p = dedup_spec(s.drop_last());
        lemma_dedup_no_dups(s.drop_last());
        lemma_dedup_subset(s.drop_last());
        assert forall|l1: int, l2: int| 0 <= l1 < l2 < dedup_spec(s).len() implies !dup_of(
            #[trigger] dedup_spec(s)[l1],
            #[trigger] dedup_spec(s)[l2],
        ) by {
            if l2 < p.len() {
                assert(dedup_spec(s)[l1] == p[l1]);
                assert(dedup_spec(s)[l2] == p[l2]);
            } else {
                // The last element was appended, so nothing before it
                // repeats it.
                assert(!has_dup_before(s, s.len() - 1));
                assert(dedup_spec(s)[l2] == s.last());
                assert(dedup_spec(s)[l1] == p[l1]);
                let k = choose|k: int|
                    0 <= k < s.drop_last().len() && s.drop_last()[k] == p[l1];
                assert(s[k] == p[l1]);
                assert(!dup_of(s[k], s[s.len() - 1]));
            }
        }
    }
}

/// Every input diagnostic is represented: something deduplication keeps
/// carries its location and message.
pub proof fn lemma_dedup_complete(s: Seq<Diagnostic>)
    ensures
        forall|k: int|
            0 <= k < s.len() ==> exists|l: int|
                0 <= l < dedup_spec(s).len() && dup_of(#[trigger] s[k], dedup_spec(s)[l]),
    decreases s.len(),
{
    if s.len() > 0 {
        let p = dedup_spec(s.drop_last());
        lemma_dedup_complete(s.drop_last());
        assert forall|k: int| 0 <= k < s.len() implies exists|l: int|
            0 <= l < dedup_spec(s).len() && dup_of(#[trigger] s[k], dedup_spec(s)[l]) by {
            if k < s.len() - 1 {
                assert(s.drop_last()[k] == s[k]);
                let l = choose|l: int| 0 <= l < p.len() && dup_of(s.drop_last()[k], p[l]);
                assert(dedup_spec(s)[l] == p[l]);
                assert(dup_of(s[k], dedup_spec(s)[l]));
            } else {
                if has_dup_before(s, s.len() - 1) {
                    let e = choose|e: int| 0 <= e < s.len() - 1 && dup_of(#[trigger] s[e], s[s.len() - 1]);
                    assert(s.drop_last()[e] == s[e]);
                    let l = choose|l: int| 0 <= l < p.len() && dup_of(s.drop_last()[e], p[l]);
                    assert(dedup_spec(s)[l] == p[l]);
                    assert(dup_of(s[k], dedup_spec(s)[l]));
                } else {
                    assert(dedup_spec(s).last() == s.last());
                    assert(dup_of(s[k], dedup_spec(s)[dedup_spec(s).len() - 1]));
                }
            }
        }
    }
}

/// Deduplicates diagnostics by (location, message), keeping the first
/// occurrence of each and the order of those kept.
#[verifier::loop_isolation(false)]
pub fn deduplicate(diags: &Vec<Diagnostic>) -> (r: Vec<Diagnostic>)
    ensures
        r@ == dedup_spec(diags@),
{
    let mut out: Vec<Diagnostic> = Vec::new();
    let mut i: usize = 0;
    assert(out@ =~= dedup_spec(diags@.subrange(0, 0)));
    while i < diags.len()
        invariant
            i <= diags@.len(),
            out@ == dedup_spec(diags@.subrange(0, i as int)),
        decreases diags@.len() - i,
    {
        let mut found = false;
        let mut l: usize = 0;
        while l < i
            invariant
                l <= i,
                i < diags@.len(),
                found == exists|l2: int| 0 <= l2 < l && dup_of(#[trigger] diags@[l2], diags@[i as int]),
            decreases i - l,
        {
            if diags[l].location == diags[i].location && diags[l].message == diags[i].message {
                proof {
                    assert(dup_of(diags@[l as int], diags@[i as int]));
                }
                found = true;
            }
            l += 1;
        }
        let ghost pre = diags@.subrange(0, i as int);
        let ghost cur = diags@.subrange(0, i + 1 as int);
        proof {
            assert(cur.drop_last() =~= pre);
            assert(cur.last() == diags@[i as int]);
            assert(forall|l2: int| 0 <= l2 < i ==> cur[l2] == #[trigger] diags@[l2]);
            assert(has_dup_before(cur, i as int) == found);
        }
        if !found {
            let d = diags[i].duplicate();
            out.push(d);
        }
        i += 1;
    }
    proof {
        assert(diags@.subrange(0, diags@.len() as int) =~= diags@);
    }
    out
}

/// The most layout passes the convergence loop will run.
pub const MAX_LAYOUT_PASSES: u64 = 5;

/// The phase of the convergence loop. `Laying` asks for one more layout
/// pass; `Done` and `Failed` are terminal. The check whether the loop has
/// converged happens inside `on_pass`, between one pass and the next.
#[derive(Clone, Copy, PartialEq, Eq, Structural)]
pub enum LayoutPhase {
    Laying,
    Done,
    Failed,
}

/// What the caller must do after reporting a pass: lay out once more,
/// accept the last document, or reject with the fatal diagnostics that
/// are left in `errors`.
#[derive(Clone, Copy, PartialEq, Eq, Structural)]
pub enum LayoutAction {
    Relayout,
    Accept,
    Reject,
}

/// The text of the warning emitted when the pass budget runs out.
pub open spec fn convergence_warning_text() -> Seq<char> {
    "layout did not converge within 5 attempts"@
}

/// The warning emitted when the pass budget runs out: detached from any
/// location, and a warning, not an error.
pub open spec fn is_convergence_warning(d: Diagnostic) -> bool {
    d.location == 0 && d.severity is Warning && d.message@ == convergence_warning_text()
}

/// The state of the convergence loop.
pub struct Layouter {
    /// The phase the loop is in.
    pub phase: LayoutPhase,
    /// How many layout passes have completed.
    pub attempts: u64,
    /// Non-fatal diagnostics accumulated so far.
    pub warnings: Vec<Diagnostic>,
    /// The fatal diagnostics, set only when the loop fails.
    pub errors: Vec<Diagnostic>,
}

impl Layouter {
    /// While the loop still asks for passes, the budget is not exhausted;
    /// fatal diagnostics exist only in the failed phase.
    pub open spec fn wf(&self) -> bool {
        &&& self.attempts <= MAX_LAYOUT_PASSES
        &&& self.phase is Laying ==> self.attempts < MAX_LAYOUT_PASSES
        &&& !(self.phase is Failed) ==> self.errors@.len() == 0
    }

    /// A fresh loop: no pass has run yet.
    pub fn new() -> (l: Self)
        ensures
            l.wf(),
            l.phase is Laying,
            l.attempts == 0,
            l.warnings@.len() == 0,
            l.errors@.len() == 0,
    {
        Layouter {
            phase: LayoutPhase::Laying,
            attempts: 0,
            warnings: Vec::new(),
            errors: Vec::new(),
        }
    }

    /// Consumes the outcome of one layout pass: whether the new snapshot
    /// validated against the constraint that produced it, and the
    /// diagnostics the pass left delayed.
    ///
    /// A validated pass settles the loop; an unvalidated pass settles it
    /// too once the budget is exhausted, with a non-fatal warning — the
    /// loop never fails solely because layout did not converge. When the
    /// loop settles with delayed diagnostics still present, they are
    /// promoted to fatal errors, deduplicated; otherwise the last
    /// document is accepted. Delayed diagnostics of a pass that is
    /// relaid out are discarded with that pass's stale snapshot.
    pub fn on_pass(&mut self, validated: bool, delayed: Vec<Diagnostic>) -> (act: LayoutAction)
        requires
            old(self).wf(),
            old(self).phase is Laying,
        ensures
            final(self).wf(),
            final(self).attempts == old(self).attempts + 1,
            ({
                let settled = validated || old(self).attempts + 1 == MAX_LAYOUT_PASSES;
                &&& (!settled ==> {
                    &&& final(self).phase is Laying
                    &&& act is Relayout
                    &&& final(self).warnings@ == old(self).warnings@
                    &&& final(self).errors@ == old(self).errors@
                })
                &&& (settled && delayed@.len() == 0 ==> {
                    &&& final(self).phase is Done
                    &&& act is Accept
                    &&& final(self).errors@ == old(self).errors@
                })
                &&& (settled && delayed@.len() > 0 ==> {
                    &&& final(self).phase is Failed
                    &&& act is Reject
                    &&& final(self).errors@ == dedup_spec(delayed@)
                })
                &&& (validated ==> final(self).warnings@ == old(self).warnings@)
                &&& (!validated && settled ==> {
                    &&& final(self).warnings@.len() == old(self).warnings@.len() + 1
                    &&& final(self).warnings@.subrange(0, old(self).warnings@.len() as int)
                        == old(self).warnings@
                    &&& is_convergence_warning(final(self).warnings@.last())
                })
            }),
    {
        self.attempts = self.attempts + 1;
        let settled = validated || self.attempts == MAX_LAYOUT_PASSES;
        if !validated && settled {
            let warning = Diagnostic {
                location: 0,
                severity: Severity::Warning,
                message: "layout did not converge within 5 attempts".to_owned(),
            };
            proof {
                assert(is_convergence_warning(warning));
            }
            let ghost before = self.warnings@;
            self.warnings.push(warning);
            proof {
                assert(self.warnings@.subrange(0, before.len() as int) =~= before);
            }
        }
        if !settled {
            LayoutAction::Relayout
        } else if delayed.len() == 0 {
            self.phase = LayoutPhase::Done;
            LayoutAction::Accept
        } else {
            self.phase = LayoutPhase::Failed;
            self.errors = deduplicate(&delayed);
            LayoutAction::Reject
        }
    }
}

/// The shape of one completed pass, as `on_pass` guarantees it: a pass
/// starts from a well-formed laying state and increments the count.
pub open spec fn passes_from(pre: Layouter, post: Layouter) -> bool {
    &&& pre.wf()
    &&& pre.phase is Laying
    &&& post.wf()
    &&& post.attempts == pre.attempts + 1
}

proof fn lemma_trace_attempts(trace: Seq<Layouter>, k: int)
    requires
        trace.len() >= 1,
        trace[0].attempts == 0,
        forall|k2: int| 0 <= k2 < trace.len() - 1 ==> passes_from(#[trigger] trace[k2], trace[k2 + 1]),
        0 <= k < trace.len(),
    ensures
        trace[k].attempts == k,
    decreases k,
{
    if k > 0 {
        lemma_trace_attempts(trace, k - 1);
    }
}

/// Law: for any input, the layouter performs at most `MAX_LAYOUT_PASSES`
/// layout passes. Any chain of states that starts fresh and advances by
/// completed passes contains at most that many steps: each pass starts
/// from a laying state, a laying state still has budget, and every pass
/// spends one unit of it.
pub proof fn lemma_bounded_passes(trace: Seq<Layouter>)
    requires
        trace.len() >= 1,
        trace[0].attempts == 0,
        forall|k: int| 0 <= k < trace.len() - 1 ==> passes_from(#[trigger] trace[k], trace[k + 1]),
    ensures
        trace.len() - 1 <= MAX_LAYOUT_PASSES,
{
    if trace.len() - 1 > MAX_LAYOUT_PASSES {
        let k = trace.len() - 2;
        lemma_trace_attempts(trace, k);
        assert(passes_from(trace[k], trace[k + 1]));
        assert(trace[k].attempts < MAX_LAYOUT_PASSES);
    }
}

} // verus!
