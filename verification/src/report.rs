//! Reporting data structures: an append-only, prunable tree of
//! severity-tagged diagnostic entries.
use vstd::prelude::*;

verus! {

/// Ordered severity levels for report items, from tool chatter up to
/// changes that require a major release.
#[derive(Clone, Copy, PartialEq, Eq, Structural, Debug)]
pub enum Severity {
    /// Tool debug
    Debug,
    /// Tool note
    Note,
    /// Change requiring bumping of minor release number
    Minor,
    /// Tool warning
    Warning,
    /// Breaking change that is not considered to require a major release
    Breaking,
    /// Change requiring bumping of major release number
    Major,
    /// Tool error
    Error,
}

/// The position of a severity in the total order.
pub open spec fn severity_rank(s: Severity) -> int {
    match s {
        Severity::Debug => 0,
        Severity::Note => 1,
        Severity::Minor => 2,
        Severity::Warning => 3,
        Severity::Breaking => 4,
        Severity::Major => 5,
        Severity::Error => 6,
    }
}

/// The rank of a severity as a machine integer.
pub fn severity_level(s: Severity) -> (r: u32)
    ensures
        r == severity_rank(s),
{
    match s {
        Severity::Debug => 0,
        Severity::Note => 1,
        Severity::Minor => 2,
        Severity::Warning => 3,
        Severity::Breaking => 4,
        Severity::Major => 5,
        Severity::Error => 6,
    }
}

/// Strictness level of a report item.
///
/// `Lazy` report items are only kept in the final report if a surviving
/// descendant is `Strict`.
#[derive(Clone, Copy, PartialEq, Eq, Structural, Debug)]
pub enum Strictness {
    /// Deleted unless a surviving descendant is Strict.
    Lazy,
    /// Deleted iff its parent is deleted.
    Inherit,
    /// Never deleted.
    Strict,
}

/// An informational entry in the report.
#[derive(Clone, PartialEq, Eq, Debug)]
pub struct ReportItem {
    pub strict: Strictness,
    pub severity: Severity,
    pub text: String,
}

/// A node in the tree structure of the report, owning its children.
#[derive(Debug)]
pub struct Report {
    pub item: ReportItem,
    pub children: Vec<Report>,
}

/// Whether the given severity occurs somewhere in the tree.
pub open spec fn sev_in_tree(t: Report, s: Severity) -> bool
    decreases t,
{
    t.item.severity == s || exists|i: int|
        0 <= i < t.children@.len() && sev_in_tree(#[trigger] t.children@[i], s)
}

/// Whether the tree holds a `Strict` node anywhere.  Pruning never removes
/// such a node, so this is exactly the condition under which a `Lazy`
/// ancestor survives.
pub open spec fn keeps_strict(t: Report) -> bool
    decreases t,
{
    t.item.strict == Strictness::Strict || exists|i: int|
        0 <= i < t.children@.len() && keeps_strict(#[trigger] t.children@[i])
}

/// Whether the pruning pass deletes this node: it is `Lazy` and no
/// surviving descendant is `Strict`.
pub open spec fn deletable(t: Report) -> bool {
    t.item.strict == Strictness::Lazy && !keeps_strict(t)
}

/// `b` is the pruned version of `a`: the same item, with the deletable
/// children removed and the others pruned recursively, in order.
pub open spec fn prune_rel(a: Report, b: Report) -> bool
    decreases a, 0int,
    via prune_rel_decreases
{
    b.item == a.item && prune_seq(a.children@, b.children@, 0, 0)
}

/// The children of `sb` from `bi` onward are the pruned survivors of the
/// children of `sa` from `ai` onward.
pub open spec fn prune_seq(sa: Seq<Report>, sb: Seq<Report>, ai: int, bi: int) -> bool
    decreases sa, sa.len() - ai,
{
    if ai < 0 || ai >= sa.len() {
        bi == sb.len()
    } else if deletable(sa[ai]) {
        prune_seq(sa, sb, ai + 1, bi)
    } else {
        0 <= bi < sb.len() && prune_rel(sa[ai], sb[bi]) && prune_seq(sa, sb, ai + 1, bi + 1)
    }
}

#[via_fn]
proof fn prune_rel_decreases(a: Report, b: Report) {
    assert(decreases_to!(a => a.children));
    assert(decreases_to!(a.children => a.children@));
    assert(decreases_to!(a, 0int => a.children@, a.children@.len()));
}

/// Every child the second report has beyond the first is not `Lazy`, and
/// so can never be deleted by the pruning pass.
pub open spec fn appended_not_lazy(before: Report, after: Report) -> bool {
    forall|i: int|
        before.children@.len() <= i < after.children@.len() ==> (#[trigger] after.children@[i]).item.strict
            != Strictness::Lazy
}

impl Report {
    /// Construct a new, empty report.
    pub fn new() -> (r: Report)
        ensures
            r.item.strict == Strictness::Strict,
            r.item.severity == Severity::Note,
            r.item.text@ == "library root"@,
            r.children@.len() == 0,
    {
        Report::from_item(
            ReportItem {
                strict: Strictness::Strict,
                severity: Severity::Note,
                text: "library root".to_owned(),
            },
        )
    }

    /// Wrap a single item in a childless report node.
    pub fn from_item(item: ReportItem) -> (r: Report)
        ensures
            r.item == item,
            r.children@.len() == 0,
    {
        Report { item, children: Vec::new() }
    }

    /// Calculate the highest severity item contained in this report: the
    /// maximum of this node's severity and everything below it.
    pub fn highest_severity(&self) -> (r: Severity)
        ensures
            sev_in_tree(*self, r),
            forall|s: Severity|
                sev_in_tree(*self, s) ==> severity_rank(s) <= severity_rank(r),
        decreases *self,
    {
        let mut best = self.item.severity;
        let mut best_level = severity_level(best);
        let n = self.children.len();
        let mut i: usize = 0;
        while i < n
            invariant
                i <= n,
                n == self.children@.len(),
                best_level == severity_rank(best),
                sev_in_tree(*self, best),
                severity_rank(self.item.severity) <= severity_rank(best),
                forall|s: Severity, j: int|
                    0 <= j < i && #[trigger] sev_in_tree(self.children@[j], s) ==> severity_rank(
                        s,
                    ) <= severity_rank(best),
            decreases n - i,
        {
            proof {
                assert(decreases_to!(*self => self.children));
                assert(decreases_to!(self.children => self.children@));
                assert(decreases_to!(self.children@ => self.children@[i as int]));
            }
            let h = self.children[i].highest_severity();
            let hl = severity_level(h);
            if hl > best_level {
                best = h;
                best_level = hl;
                proof {
                    assert(sev_in_tree(*self, best)) by {
                        assert(sev_in_tree(self.children@[i as int], best));
                    }
                }
            }
            i += 1;
        }
        proof {
            assert forall|s: Severity| sev_in_tree(*self, s) implies severity_rank(s)
                <= severity_rank(best) by {
                if s != self.item.severity {
                    let j = choose|j: int|
                        0 <= j < self.children@.len() && sev_in_tree(
                            #[trigger] self.children@[j],
                            s,
                        );
                    assert(sev_in_tree(self.children@[j], s));
                }
            }
        }
        best
    }

    /// Whether a `Strict` entry occurs anywhere in this report.
    pub fn contains_strict(&self) -> (r: bool)
        ensures
            r == keeps_strict(*self),
        decreases *self,
    {
        if matches!(self.item.strict, Strictness::Strict) {
            return true;
        }
        let n = self.children.len();
        let mut i: usize = 0;
        while i < n
            invariant
                i <= n,
                n == self.children@.len(),
                forall|j: int| 0 <= j < i ==> !keeps_strict(#[trigger] self.children@[j]),
            decreases n - i,
        {
            proof {
                assert(decreases_to!(*self => self.children));
                assert(decreases_to!(self.children => self.children@));
                assert(decreases_to!(self.children@ => self.children@[i as int]));
            }
            if self.children[i].contains_strict() {
                return true;
            }
            i += 1;
        }
        false
    }

    /// Insert a new childless entry into this report.
    pub fn push(&mut self, child: ReportItem)
        ensures
            final(self).item == old(self).item,
            final(self).children@.len() == old(self).children@.len() + 1,
            forall|i: int|
                0 <= i < old(self).children@.len() ==> final(self).children@[i] == old(
                    self,
                ).children@[i],
            final(self).children@.last().item == child,
            final(self).children@.last().children@.len() == 0,
    {
        let node = Report::from_item(child);
        self.children.push(node);
    }

    /// Append an already built subtree to this report's children.
    pub fn attach(&mut self, child: Report)
        ensures
            final(self).item == old(self).item,
            final(self).children@ == old(self).children@.push(child),
    {
        self.children.push(child);
    }

    /// Strip lazy entries, post-order.  Returns whether this entry itself
    /// should be deleted by its parent.
    pub fn strip_lazy(&mut self) -> (del: bool)
        ensures
            prune_rel(*old(self), *final(self)),
            del == deletable(*old(self)),
        decreases *self,
    {
        let mut cs: Vec<Report> = Vec::new();
        core::mem::swap(&mut self.children, &mut cs);
        let ghost cs0 = cs@;
        let ghost item0 = self.item;
        let mut kept: Vec<Report> = Vec::new();
        let mut any_ks = false;
        let mut k: usize = 0;
        let n0 = cs.len();
        while cs.len() > 0
            invariant
                k <= cs0.len(),
                cs0.len() == n0,
                cs@ == cs0.subrange(k as int, cs0.len() as int),
                cs0 == old(self).children@,
                self.item == item0,
                any_ks == exists|j: int| 0 <= j < k && keeps_strict(#[trigger] cs0[j]),
                prune_seq(cs0.take(k as int), kept@, 0, 0),
            decreases cs@.len(),
        {
            let mut child = cs.remove(0);
            proof {
                assert(child == cs0[k as int]);
                assert(cs@ =~= cs0.subrange(k + 1, cs0.len() as int));
                assert(decreases_to!(*old(self) => old(self).children));
                assert(decreases_to!(old(self).children => old(self).children@));
                assert(decreases_to!(old(self).children@ => old(self).children@[k as int]));
            }
            let ghost child0 = child;
            let child_ks = child.contains_strict();
            let d = child.strip_lazy();
            let ghost kept_pre = kept@;
            if !d {
                kept.push(child);
            }
            proof {
                assert(cs0.take(k + 1) =~= cs0.take(k as int).push(cs0[k as int]));
                if d {
                    lemma_prune_seq_push_deleted(cs0.take(k as int), kept_pre, 0, 0, child0);
                } else {
                    lemma_prune_seq_push_kept(cs0.take(k as int), kept_pre, 0, 0, child0, child);
                }
                if child_ks {
                    assert(keeps_strict(cs0[k as int]));
                }
            }
            if child_ks {
                any_ks = true;
            }
            k += 1;
        }
        self.children = kept;
        proof {
            assert(cs0.take(k as int) =~= cs0);
            assert(keeps_strict(*old(self)) == (old(self).item.strict == Strictness::Strict
                || any_ks)) by {
                assert(old(self).children@ == cs0);
                if any_ks {
                    let j = choose|j: int| 0 <= j < k && keeps_strict(#[trigger] cs0[j]);
                    assert(keeps_strict(old(self).children@[j]));
                }
                if keeps_strict(*old(self)) && old(self).item.strict != Strictness::Strict {
                    let j = choose|j: int|
                        0 <= j < old(self).children@.len() && keeps_strict(
                            #[trigger] old(self).children@[j],
                        );
                    assert(keeps_strict(cs0[j]));
                }
            }
        }
        matches!(self.item.strict, Strictness::Lazy) && !any_ks
    }
}

/// No node of the tree is deletable: the pruning pass has nothing left
/// to remove, so no `Lazy` node stands without a surviving `Strict`
/// descendant.
pub open spec fn fully_pruned(t: Report) -> bool
    decreases t,
{
    forall|i: int|
        0 <= i < t.children@.len() ==> !deletable(#[trigger] t.children@[i]) && fully_pruned(
            t.children@[i],
        )
}

/// Each pruned child comes from a surviving child of the input.
proof fn lemma_prune_origin(sa: Seq<Report>, sb: Seq<Report>, ai: int, bi: int, j: int)
    requires
        prune_seq(sa, sb, ai, bi),
        0 <= ai <= sa.len(),
        0 <= bi <= j < sb.len(),
    ensures
        exists|i: int|
            ai <= i < sa.len() && !deletable(#[trigger] sa[i]) && prune_rel(sa[i], sb[j]),
    decreases sa.len() - ai,
{
    if ai >= sa.len() {
    } else if deletable(sa[ai]) {
        lemma_prune_origin(sa, sb, ai + 1, bi, j);
    } else if j == bi {
        assert(!deletable(sa[ai]) && prune_rel(sa[ai], sb[j]));
    } else {
        lemma_prune_origin(sa, sb, ai + 1, bi + 1, j);
    }
}

/// Pruning preserves whether a strict node survives somewhere below.
proof fn lemma_prune_keeps_strict(a: Report, b: Report)
    requires
        prune_rel(a, b),
    ensures
        keeps_strict(b) == keeps_strict(a),
    decreases a,
{
    if keeps_strict(a) && a.item.strict != Strictness::Strict {
        let i = choose|i: int|
            0 <= i < a.children@.len() && keeps_strict(#[trigger] a.children@[i]);
        assert(!deletable(a.children@[i]));
        lemma_prune_keeps_rel(a.children@, b.children@, 0, 0, i);
        let j = choose|j: int|
            0 <= j < b.children@.len() && prune_rel(a.children@[i], #[trigger] b.children@[j]);
        lemma_prune_keeps_strict(a.children@[i], b.children@[j]);
        assert(keeps_strict(b.children@[j]));
    }
    if keeps_strict(b) && b.item.strict != Strictness::Strict {
        let j = choose|j: int|
            0 <= j < b.children@.len() && keeps_strict(#[trigger] b.children@[j]);
        lemma_prune_origin(a.children@, b.children@, 0, 0, j);
        let i = choose|i: int|
            0 <= i < a.children@.len() && !deletable(#[trigger] a.children@[i]) && prune_rel(
                a.children@[i],
                b.children@[j],
            );
        lemma_prune_keeps_strict(a.children@[i], b.children@[j]);
        assert(keeps_strict(a.children@[i]));
    }
}

/// After pruning, nothing deletable remains anywhere in the tree.
pub proof fn lemma_prune_fully_pruned(a: Report, b: Report)
    requires
        prune_rel(a, b),
    ensures
        fully_pruned(b),
    decreases a,
{
    assert forall|j: int| 0 <= j < b.children@.len() implies !deletable(
        #[trigger] b.children@[j],
    ) && fully_pruned(b.children@[j]) by {
        lemma_prune_origin(a.children@, b.children@, 0, 0, j);
        let i = choose|i: int|
            0 <= i < a.children@.len() && !deletable(#[trigger] a.children@[i]) && prune_rel(
                a.children@[i],
                b.children@[j],
            );
        lemma_prune_keeps_strict(a.children@[i], b.children@[j]);
        lemma_prune_fully_pruned(a.children@[i], b.children@[j]);
        assert(b.children@[j].item == a.children@[i].item);
    }
}

/// A child that pruning does not delete keeps its item in the pruned
/// sequence.
pub proof fn lemma_prune_keeps(sa: Seq<Report>, sb: Seq<Report>, ai: int, bi: int, k: int)
    requires
        prune_seq(sa, sb, ai, bi),
        0 <= ai <= k < sa.len(),
        0 <= bi,
        !deletable(sa[k]),
    ensures
        exists|j: int| bi <= j < sb.len() && (#[trigger] sb[j]).item == sa[k].item,
    decreases k - ai,
{
    if ai == k {
        assert(prune_rel(sa[ai], sb[bi]));
        assert(sb[bi].item == sa[k].item);
    } else if deletable(sa[ai]) {
        lemma_prune_keeps(sa, sb, ai + 1, bi, k);
    } else {
        lemma_prune_keeps(sa, sb, ai + 1, bi + 1, k);
        let j = choose|j: int| bi + 1 <= j < sb.len() && (#[trigger] sb[j]).item == sa[k].item;
        assert(sb[j].item == sa[k].item);
    }
}

/// A child that pruning does not delete is present, pruned, in the
/// output sequence.
pub proof fn lemma_prune_keeps_rel(sa: Seq<Report>, sb: Seq<Report>, ai: int, bi: int, k: int)
    requires
        prune_seq(sa, sb, ai, bi),
        0 <= ai <= k < sa.len(),
        0 <= bi,
        !deletable(sa[k]),
    ensures
        exists|j: int| bi <= j < sb.len() && prune_rel(sa[k], #[trigger] sb[j]),
    decreases k - ai,
{
    if ai == k {
        assert(prune_rel(sa[ai], sb[bi]));
        assert(prune_rel(sa[k], sb[bi]));
    } else if deletable(sa[ai]) {
        lemma_prune_keeps_rel(sa, sb, ai + 1, bi, k);
    } else {
        lemma_prune_keeps_rel(sa, sb, ai + 1, bi + 1, k);
        let j = choose|j: int| bi + 1 <= j < sb.len() && prune_rel(sa[k], #[trigger] sb[j]);
        assert(prune_rel(sa[k], sb[j]));
    }
}

/// When no child is deletable, pruning keeps every child, in order.
pub proof fn lemma_prune_none_deleted(sa: Seq<Report>, sb: Seq<Report>, ai: int, bi: int)
    requires
        prune_seq(sa, sb, ai, bi),
        0 <= ai <= sa.len(),
        0 <= bi <= sb.len(),
        forall|i: int| ai <= i < sa.len() ==> !deletable(#[trigger] sa[i]),
    ensures
        sb.len() - bi == sa.len() - ai,
        forall|d: int| 0 <= d < sa.len() - ai ==> prune_rel(#[trigger] sa[ai + d], sb[bi + d]),
    decreases sa.len() - ai,
{
    if ai >= sa.len() {
    } else {
        assert(!deletable(sa[ai]));
        lemma_prune_none_deleted(sa, sb, ai + 1, bi + 1);
        assert forall|d: int| 0 <= d < sa.len() - ai implies prune_rel(
            #[trigger] sa[ai + d],
            sb[bi + d],
        ) by {
            if d == 0 {
                assert(prune_rel(sa[ai], sb[bi]));
            } else {
                assert(prune_rel(sa[ai + 1 + (d - 1)], sb[bi + 1 + (d - 1)]));
            }
        }
    }
}

/// Extending the source sequence by a deletable child leaves the pruned
/// sequence unchanged.
proof fn lemma_prune_seq_push_deleted(sa: Seq<Report>, sb: Seq<Report>, ai: int, bi: int, x: Report)
    requires
        0 <= ai <= sa.len(),
        0 <= bi <= sb.len(),
        prune_seq(sa, sb, ai, bi),
        deletable(x),
    ensures
        prune_seq(sa.push(x), sb, ai, bi),
    decreases sa.len() - ai,
{
    if ai >= sa.len() {
        assert(sa.push(x)[ai] == x);
        assert(prune_seq(sa.push(x), sb, ai + 1, bi));
    } else {
        assert(sa.push(x)[ai] == sa[ai]);
        if deletable(sa[ai]) {
            lemma_prune_seq_push_deleted(sa, sb, ai + 1, bi, x);
        } else {
            lemma_prune_seq_push_deleted(sa, sb, ai + 1, bi + 1, x);
        }
    }
}

/// Extending the source sequence by a surviving child extends the pruned
/// sequence by its pruned version.
proof fn lemma_prune_seq_push_kept(
    sa: Seq<Report>,
    sb: Seq<Report>,
    ai: int,
    bi: int,
    x: Report,
    y: Report,
)
    requires
        0 <= ai <= sa.len(),
        0 <= bi <= sb.len(),
        prune_seq(sa, sb, ai, bi),
        !deletable(x),
        prune_rel(x, y),
    ensures
        prune_seq(sa.push(x), sb.push(y), ai, bi),
    decreases sa.len() - ai,
{
    if ai >= sa.len() {
        assert(sa.push(x)[ai] == x);
        assert(sb.push(y)[bi] == y);
        assert(prune_seq(sa.push(x), sb.push(y), ai + 1, bi + 1));
    } else {
        assert(sa.push(x)[ai] == sa[ai]);
        if deletable(sa[ai]) {
            lemma_prune_seq_push_kept(sa, sb, ai + 1, bi, x, y);
        } else {
            assert(sb.push(y)[bi] == sb[bi]);
            lemma_prune_seq_push_kept(sa, sb, ai + 1, bi + 1, x, y);
        }
    }
}

} // verus!
