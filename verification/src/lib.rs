//! Compares two versions of a library's public declaration surface and
//! classifies every difference by the severity of its compatibility impact.
//!
//! The core is a conditional-availability predicate algebra (`cfg`), a
//! prunable severity-tagged report tree (`report`), and a declaration-tree
//! diff engine (`compare`) that walks two versions of a module tree and
//! records severity-classified findings.  Turning source text into
//! declaration trees and rendering the finished report are left to thin
//! layers around this library.
use vstd::prelude::*;
use vstd::string::StringExecFns;

pub mod cfg;
pub mod compare;
pub mod report;
pub mod utils;

use crate::compare::{
    added_scope_claim, additions_reported, compare_crates, lemma_added_scope_claim_prunes,
    lemma_old_scope_claim_prunes, old_items_reported, old_scope_claim, Crate,
};
use crate::report::{
    fully_pruned, lemma_prune_fully_pruned, lemma_prune_keeps, lemma_prune_keeps_rel,
    lemma_prune_none_deleted, prune_rel, Report, ReportItem, Severity, Strictness,
};

verus! {

/// Compare two loaded libraries, returning the pruned report tree.
///
/// A side that failed to load is reported as a fatal error entry under
/// the root, named after its source location, and the report then holds
/// nothing else: the comparison itself runs only when both sides loaded.
/// The returned tree is pruned: no lazy node without a surviving strict
/// descendant remains anywhere in it.
pub fn create_report(
    old_crate: Option<&Crate>,
    new_crate: Option<&Crate>,
    old_source: &str,
    new_source: &str,
) -> (r: Report)
    ensures
        r.item.severity == Severity::Note,
        r.item.strict == Strictness::Strict,
        r.item.text@ == "library root"@,
        old_crate is None ==> exists|i: int|
            0 <= i < r.children@.len() && (#[trigger] r.children@[i]).item.severity
                == Severity::Error && r.children@[i].item.text@ == "Failed to read crate at "@
                + old_source@,
        new_crate is None ==> exists|i: int|
            0 <= i < r.children@.len() && (#[trigger] r.children@[i]).item.severity
                == Severity::Error && r.children@[i].item.text@ == "Failed to read crate at "@
                + new_source@,
        (match (old_crate, new_crate) {
            (Some(o), Some(n)) => old_items_reported(r, o.items@, n.items@)
                && additions_reported(r, n.items@, o.items@),
            _ => true,
        }),
        fully_pruned(r),
        old_crate is None || new_crate is None ==> r.children@.len() == ((if old_crate is None {
            1int
        } else {
            0int
        }) + (if new_crate is None {
            1int
        } else {
            0int
        })) && (forall|i: int|
            0 <= i < r.children@.len() ==> (#[trigger] r.children@[i]).item.severity
                == Severity::Error),
{
    let mut report = Report::new();
    match old_crate {
        Option::None => {
            let mut t: String = "Failed to read crate at ".to_owned();
            t.append(old_source);
            report.push(
                ReportItem { strict: Strictness::Strict, severity: Severity::Error, text: t },
            );
        }
        _ => {}
    }
    match new_crate {
        Option::None => {
            let mut t: String = "Failed to read crate at ".to_owned();
            t.append(new_source);
            report.push(
                ReportItem { strict: Strictness::Strict, severity: Severity::Error, text: t },
            );
        }
        _ => {}
    }
    match (old_crate, new_crate) {
        (Option::Some(o), Option::Some(n)) => {
            compare_crates(&mut report, o, n);
        }
        _ => {}
    }
    let ghost pre = report;
    let _ = report.strip_lazy();
    proof {
        assert(prune_rel(pre, report));
        lemma_prune_fully_pruned(pre, report);
        if old_crate is None || new_crate is None {
            assert forall|i: int| 0 <= i < pre.children@.len() implies !crate::report::deletable(
                #[trigger] pre.children@[i],
            ) by {
                assert(pre.children@[i].item.strict == Strictness::Strict);
            }
            lemma_prune_none_deleted(pre.children@, report.children@, 0, 0);
            assert forall|i: int| 0 <= i < report.children@.len() implies (#[trigger] report.children@[i]).item.severity
                == Severity::Error by {
                assert(prune_rel(pre.children@[0 + i], report.children@[0 + i]));
                assert(report.children@[i].item == pre.children@[i].item);
            }
        }
        if old_crate is None {
            assert(!crate::report::deletable(pre.children@[0]));
            lemma_prune_keeps(pre.children@, report.children@, 0, 0, 0);
        }
        if new_crate is None {
            let k: int = if old_crate is None {
                1
            } else {
                0
            };
            assert(!crate::report::deletable(pre.children@[k]));
            lemma_prune_keeps(pre.children@, report.children@, 0, 0, k);
        }
        if old_crate is Some && new_crate is Some {
            let olds = old_crate->Some_0.items@;
            let news = new_crate->Some_0.items@;
            assert forall|i: int|
                0 <= i < olds.len() && (#[trigger] olds[i]).public && !(olds[i].kind
                    is Unhandled) implies exists|k: int|
                0 <= k < report.children@.len() && old_scope_claim(
                    #[trigger] report.children@[k],
                    olds[i],
                    news,
                ) by {
                let k0 = choose|k0: int|
                    0 <= k0 < pre.children@.len() && old_scope_claim(
                        #[trigger] pre.children@[k0],
                        olds[i],
                        news,
                    );
                assert(!crate::report::deletable(pre.children@[k0]));
                lemma_prune_keeps_rel(pre.children@, report.children@, 0, 0, k0);
                let j = choose|j: int|
                    0 <= j < report.children@.len() && prune_rel(
                        pre.children@[k0],
                        #[trigger] report.children@[j],
                    );
                lemma_old_scope_claim_prunes(pre.children@[k0], report.children@[j], olds[i], news);
            }
            assert forall|jj: int|
                0 <= jj < news.len() && (#[trigger] news[jj]).public && !(news[jj].kind
                    is Unhandled) && !crate::compare::name_found(
                    news[jj].name@,
                    olds,
                ) implies exists|k: int|
                0 <= k < report.children@.len() && added_scope_claim(
                    #[trigger] report.children@[k],
                    news[jj],
                    olds,
                ) by {
                let k0 = choose|k0: int|
                    0 <= k0 < pre.children@.len() && added_scope_claim(
                        #[trigger] pre.children@[k0],
                        news[jj],
                        olds,
                    );
                let scope = pre.children@[k0];
                assert(!crate::report::deletable(scope)) by {
                    assert(crate::report::keeps_strict(scope.children@.last()));
                    assert(scope.children@[scope.children@.len() - 1]
                        == scope.children@.last());
                    assert(crate::report::keeps_strict(scope));
                }
                lemma_prune_keeps_rel(pre.children@, report.children@, 0, 0, k0);
                let j = choose|j: int|
                    0 <= j < report.children@.len() && prune_rel(
                        scope,
                        #[trigger] report.children@[j],
                    );
                lemma_added_scope_claim_prunes(scope, report.children@[j], news[jj], olds);
            }
        }
    }
    report
}

} // verus!
