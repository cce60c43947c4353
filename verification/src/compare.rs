//! The declaration-tree diff engine.
//!
//! Walks two versions of a module tree in lock step; for every public
//! declaration of the old tree it searches the new tree for a same-named,
//! kind-compatible, availability-intersecting counterpart and classifies
//! the outcome, then symmetrically reports declarations that only the new
//! tree has.  Findings are severity-classified per RFC 1105: `Minor`
//! changes only require a minor version bump, `Breaking` changes might
//! break downstream crates but still only require a minor bump, and
//! `Major` changes require a major version bump.
use crate::cfg::{
    attrs_sat, attrs_trivial, cfg_text, sat, spec_intersects, spec_subset, valid, Config, Meta,
    Var,
};
use crate::report::{appended_not_lazy, Report, ReportItem, Severity, Strictness};
use vstd::prelude::*;
use vstd::string::StringExecFns;

verus! {

/// Whether a static may be written to.
#[derive(Clone, Copy, PartialEq, Eq, Structural, Debug)]
pub enum Mutability {
    Mutable,
    Immutable,
}

/// The compatibility-relevant qualifiers of a function signature.  Full
/// parameter and return comparison is a separate extension point; see
/// `compare_functions`.
pub struct FnSig {
    pub is_unsafe: bool,
    pub is_const: bool,
    pub abi: String,
    pub variadic: bool,
}

/// The kind tag of a declaration, with its kind-specific shape data.
/// Types are carried as their canonical textual rendering; see
/// `types_equal`.
pub enum ItemKind {
    /// A module with its child declarations.
    Mod(Vec<Item>),
    /// A constant of the given type.
    Const(String),
    /// A static of the given type and mutability.
    Static(String, Mutability),
    /// A function.
    Fn(FnSig),
    /// Any other kind, named for the report.
    Unhandled(String),
}

/// One declaration: name, visibility, attributes and kind.
pub struct Item {
    pub name: String,
    pub public: bool,
    pub attrs: Vec<Meta>,
    pub kind: ItemKind,
}

/// A whole library: its own attributes and its root module's items.
pub struct Crate {
    pub attrs: Vec<Meta>,
    pub items: Vec<Item>,
}

/// The kind-specific matching predicate: which new kinds can stand in for
/// a declaration of the old kind.
pub open spec fn kind_matches(old: ItemKind, new: ItemKind) -> bool {
    match old {
        ItemKind::Mod(_) => new is Mod,
        ItemKind::Const(_) => new is Const || new is Static,
        ItemKind::Static(_, _) => new is Const || new is Static,
        ItemKind::Fn(_) => new is Fn,
        ItemKind::Unhandled(_) => false,
    }
}

/// Some declaration in the list carries this name.
pub open spec fn name_found(n: Seq<char>, items: Seq<Item>) -> bool {
    exists|i: int| 0 <= i < items.len() && (#[trigger] items[i]).name@ == n
}

/// Some exported declaration in the list carries this name.
pub open spec fn pub_found(n: Seq<char>, items: Seq<Item>) -> bool {
    exists|i: int| 0 <= i < items.len() && (#[trigger] items[i]).name@ == n && items[i].public
}

/// The availability predicates drawn from two attribute lists overlap.
pub open spec fn cfgs_intersect(a1: Seq<Meta>, a2: Seq<Meta>) -> bool {
    ||| attrs_trivial(a1)
    ||| attrs_trivial(a2)
    ||| exists|v: Set<Var>| valid(v) && #[trigger] attrs_sat(a1, v) && attrs_sat(a2, v)
}

/// A full counterpart: same name, exported, kind-compatible, and
/// available somewhere the original is.
pub open spec fn matching(orig: Item, it: Item) -> bool {
    &&& it.name@ == orig.name@
    &&& it.public
    &&& cfgs_intersect(orig.attrs@, it.attrs@)
    &&& kind_matches(orig.kind, it.kind)
}

/// What the search through the other tree found for one declaration.
struct SearchResult {
    /// The availability predicate of the declaration searched for.
    item_cfg: Config,
    /// The union of the availability predicates of its counterparts.
    found_cfgs: Config,
    /// Found a declaration with a matching name,
    found_name: bool,
    /// ... that is also exported,
    found_pub: bool,
    /// ... and of a matching kind under an overlapping predicate.
    found_kind: bool,
}

/// The report grew only at the end, keeping every earlier child.
pub open spec fn report_extended(before: Report, after: Report) -> bool {
    &&& after.item == before.item
    &&& after.children@.len() >= before.children@.len()
    &&& forall|i: int| 0 <= i < before.children@.len() ==> after.children@[i] == before.children@[i]
}

/// Build `a`, then the middle string, then `b`.
fn text3(a: &str, mid: &String, b: &str) -> (t: String)
    ensures
        t@ == a@ + mid@ + b@,
{
    let mut t: String = a.to_owned();
    t.append(mid.as_str());
    t.append(b);
    proof {
        assert(t@ =~= a@ + mid@ + b@);
    }
    t
}

/// A strict entry of the given severity.
fn entry(severity: Severity, text: String) -> (item: ReportItem)
    ensures
        item.severity == severity,
        item.strict == Strictness::Strict,
        item.text == text,
{
    ReportItem { strict: Strictness::Strict, severity, text }
}

/// The type-equality oracle: two declared types are equal iff their
/// canonical textual renderings are identical.  A documented placeholder:
/// structurally different but semantically identical types are falsely
/// flagged, and callers must tolerate such false positives.
fn types_equal(lhs: &String, rhs: &String) -> (r: bool)
    ensures
        r == (lhs@ == rhs@),
{
    *lhs == *rhs
}

/// The rendered report line for a changed detail.
pub open spec fn changed_text(what: Seq<char>, was: Seq<char>, now: Seq<char>) -> Seq<char> {
    what + " has changed:\n  Was: "@ + was + "\n  Now: "@ + now
}

/// The rendering of a safety qualifier.
pub open spec fn safety_text(is_unsafe: bool) -> Seq<char> {
    if is_unsafe {
        "unsafe"@
    } else {
        "normal"@
    }
}

/// The rendering of a mutability.
pub open spec fn mutability_text(m: Mutability) -> Seq<char> {
    if m is Mutable {
        "mutable"@
    } else {
        "immutable"@
    }
}

/// A childless strict entry of the given severity and text.
pub open spec fn is_leaf_entry(n: Report, sev: Severity, text: Seq<char>) -> bool {
    &&& n.item.severity == sev
    &&& n.item.strict == Strictness::Strict
    &&& n.item.text@ == text
    &&& n.children@.len() == 0
}

/// What the signature comparator records: one Major entry per changed
/// qualifier, in order, and nothing else.
pub open spec fn functions_compared(
    before: Report,
    after: Report,
    old_sig: FnSig,
    new_sig: FnSig,
) -> bool {
    let base = before.children@.len() as int;
    let du: int = if old_sig.is_unsafe != new_sig.is_unsafe {
        1int
    } else {
        0int
    };
    let da: int = if old_sig.abi@ != new_sig.abi@ {
        1int
    } else {
        0int
    };
    &&& after.item == before.item
    &&& after.children@.len() == base + du + da
    &&& forall|i: int| 0 <= i < base ==> after.children@[i] == before.children@[i]
    &&& old_sig.is_unsafe != new_sig.is_unsafe ==> is_leaf_entry(
        after.children@[base],
        Severity::Major,
        changed_text(
            "unsafety"@,
            safety_text(old_sig.is_unsafe),
            safety_text(new_sig.is_unsafe),
        ),
    )
    &&& old_sig.abi@ != new_sig.abi@ ==> is_leaf_entry(
        after.children@[base + du],
        Severity::Major,
        changed_text("abi"@, old_sig.abi@, new_sig.abi@),
    )
}

/// What the nested signature scope for two functions holds: the scope
/// label, a Major entry when the compile-time qualifier was dropped, and
/// the signature comparator's findings after it.
pub open spec fn fn_scope_claim(scope: Report, name: Seq<char>, sig: FnSig, nsig: FnSig) -> bool {
    let dc: int = if sig.is_const && !nsig.is_const {
        1int
    } else {
        0int
    };
    let du: int = if sig.is_unsafe != nsig.is_unsafe {
        1int
    } else {
        0int
    };
    let da: int = if sig.abi@ != nsig.abi@ {
        1int
    } else {
        0int
    };
    &&& scope.item.severity == Severity::Note
    &&& scope.item.strict == Strictness::Strict
    &&& scope.item.text@ == "fn "@ + name
    &&& scope.children@.len() == dc + du + da
    &&& (sig.is_const && !nsig.is_const) ==> is_leaf_entry(
        scope.children@[0],
        Severity::Major,
        "const qualifier removed"@,
    )
    &&& sig.is_unsafe != nsig.is_unsafe ==> is_leaf_entry(
        scope.children@[dc],
        Severity::Major,
        changed_text("unsafety"@, safety_text(sig.is_unsafe), safety_text(nsig.is_unsafe)),
    )
    &&& sig.abi@ != nsig.abi@ ==> is_leaf_entry(
        scope.children@[dc + du],
        Severity::Major,
        changed_text("abi"@, sig.abi@, nsig.abi@),
    )
}

/// What the kind-specific comparator records for one old declaration and
/// one exported, same-named candidate: the per-kind findings of the
/// severity policy, in order, and nothing else.
pub open spec fn kinds_compared(before: Report, after: Report, orig: Item, it: Item) -> bool {
    match (orig.kind, it.kind) {
        (ItemKind::Mod(_), ItemKind::Mod(_)) => after == before,
        (ItemKind::Const(ty), ItemKind::Const(nty)) => if ty@ == nty@ {
            after == before
        } else {
            one_entry_added(
                before,
                after,
                Severity::Major,
                changed_text("const "@ + orig.name@ + "'s type"@, ty@, nty@),
            )
        },
        (ItemKind::Const(ty), ItemKind::Static(nty, mu)) => {
            let base = before.children@.len() as int;
            let dt: int = if ty@ == nty@ {
                0int
            } else {
                1int
            };
            &&& after.item == before.item
            &&& after.children@.len() == base + 1 + dt
            &&& forall|i: int| 0 <= i < base ==> after.children@[i] == before.children@[i]
            &&& (mu is Mutable ==> is_leaf_entry(
                after.children@[base],
                Severity::Major,
                "const "@ + orig.name@ + " replaced by static mut"@,
            ))
            &&& (!(mu is Mutable) ==> is_leaf_entry(
                after.children@[base],
                Severity::Minor,
                "const "@ + orig.name@ + " replaced by static"@,
            ))
            &&& ty@ != nty@ ==> is_leaf_entry(
                after.children@[base + 1],
                Severity::Major,
                changed_text("const "@ + orig.name@ + "'s type"@, ty@, nty@),
            )
        },
        (ItemKind::Static(ty, _), ItemKind::Const(nty)) => {
            let base = before.children@.len() as int;
            let dt: int = if ty@ == nty@ {
                0int
            } else {
                1int
            };
            &&& after.item == before.item
            &&& after.children@.len() == base + 1 + dt
            &&& forall|i: int| 0 <= i < base ==> after.children@[i] == before.children@[i]
            &&& is_leaf_entry(
                after.children@[base],
                Severity::Major,
                "static "@ + orig.name@ + " replaced by const"@,
            )
            &&& ty@ != nty@ ==> is_leaf_entry(
                after.children@[base + 1],
                Severity::Major,
                changed_text("static "@ + orig.name@ + "'s type"@, ty@, nty@),
            )
        },
        (ItemKind::Static(ty, mu), ItemKind::Static(nty, nmu)) => {
            let base = before.children@.len() as int;
            let dt: int = if ty@ == nty@ {
                0int
            } else {
                1int
            };
            let dm: int = if mu == nmu {
                0int
            } else {
                1int
            };
            &&& after.item == before.item
            &&& after.children@.len() == base + dt + dm
            &&& forall|i: int| 0 <= i < base ==> after.children@[i] == before.children@[i]
            &&& ty@ != nty@ ==> is_leaf_entry(
                after.children@[base],
                Severity::Major,
                changed_text("static "@ + orig.name@ + "'s type"@, ty@, nty@),
            )
            &&& mu != nmu ==> is_leaf_entry(
                after.children@[base + dt],
                Severity::Major,
                changed_text(
                    "static "@ + orig.name@ + "'s mutability"@,
                    mutability_text(mu),
                    mutability_text(nmu),
                ),
            )
        },
        (ItemKind::Fn(sig), ItemKind::Fn(nsig)) => {
            let base = before.children@.len() as int;
            &&& after.item == before.item
            &&& after.children@.len() == base + 1
            &&& forall|i: int| 0 <= i < base ==> after.children@[i] == before.children@[i]
            &&& fn_scope_claim(after.children@[base], orig.name@, sig, nsig)
        },
        _ => after == before,
    }
}

/// Report a changed detail with its old and new rendering.
fn push_changed(r: &mut Report, severity: Severity, what: String, was: &str, now: &str)
    ensures
        report_extended(*old(r), *final(r)),
        appended_not_lazy(*old(r), *final(r)),
        final(r).children@.len() == old(r).children@.len() + 1,
        is_leaf_entry(
            final(r).children@.last(),
            severity,
            changed_text(what@, was@, now@),
        ),
{
    let mut text = what;
    text.append(" has changed:\n  Was: ");
    text.append(was);
    text.append("\n  Now: ");
    text.append(now);
    proof {
        assert(text@ =~= changed_text(what@, was@, now@));
    }
    r.push(entry(severity, text));
}

/// Compare two same-named function declarations' signatures.
///
/// Only the safety qualifier and the calling convention are compared
/// here; parameter, return and generics comparison is the acknowledged
/// extension point of this comparator.
fn compare_functions(r: &mut Report, old_sig: &FnSig, new_sig: &FnSig)
    ensures
        report_extended(*old(r), *final(r)),
        appended_not_lazy(*old(r), *final(r)),
        functions_compared(*old(r), *final(r), *old_sig, *new_sig),
{
    if old_sig.is_unsafe != new_sig.is_unsafe {
        let was = if old_sig.is_unsafe {
            "unsafe"
        } else {
            "normal"
        };
        let now = if new_sig.is_unsafe {
            "unsafe"
        } else {
            "normal"
        };
        push_changed(r, Severity::Major, "unsafety".to_owned(), was, now);
    }
    if !types_equal(&old_sig.abi, &new_sig.abi) {
        let what: String = "abi".to_owned();
        push_changed(r, Severity::Major, what, old_sig.abi.as_str(), new_sig.abi.as_str());
    }
}

/// Run the kind-specific comparator for an old declaration against one
/// exported, same-named candidate; returns whether the kinds match.
fn compare_kinds(r: &mut Report, orig: &Item, it: &Item) -> (matched: bool)
    ensures
        report_extended(*old(r), *final(r)),
        appended_not_lazy(*old(r), *final(r)),
        matched == kind_matches(orig.kind, it.kind),
        kinds_compared(*old(r), *final(r), *orig, *it),
{
    match (&orig.kind, &it.kind) {
        (ItemKind::Mod(_), ItemKind::Mod(_)) => true,
        (ItemKind::Const(ty), ItemKind::Const(nty)) => {
            if !types_equal(ty, nty) {
                let what = text3("const ", &orig.name, "'s type");
                push_changed(r, Severity::Major, what, ty.as_str(), nty.as_str());
            }
            true
        }
        (ItemKind::Const(ty), ItemKind::Static(nty, mu)) => {
            if matches!(mu, Mutability::Mutable) {
                let text = text3("const ", &orig.name, " replaced by static mut");
                r.push(entry(Severity::Major, text));
            } else {
                let text = text3("const ", &orig.name, " replaced by static");
                r.push(entry(Severity::Minor, text));
            }
            if !types_equal(ty, nty) {
                let what = text3("const ", &orig.name, "'s type");
                push_changed(r, Severity::Major, what, ty.as_str(), nty.as_str());
            }
            true
        }
        (ItemKind::Static(ty, _), ItemKind::Const(nty)) => {
            let text = text3("static ", &orig.name, " replaced by const");
            r.push(entry(Severity::Major, text));
            if !types_equal(ty, nty) {
                let what = text3("static ", &orig.name, "'s type");
                push_changed(r, Severity::Major, what, ty.as_str(), nty.as_str());
            }
            true
        }
        (ItemKind::Static(ty, mu), ItemKind::Static(nty, nmu)) => {
            if !types_equal(ty, nty) {
                let what = text3("static ", &orig.name, "'s type");
                push_changed(r, Severity::Major, what, ty.as_str(), nty.as_str());
            }
            if *mu != *nmu {
                let what = text3("static ", &orig.name, "'s mutability");
                let was = if matches!(mu, Mutability::Mutable) {
                    "mutable"
                } else {
                    "immutable"
                };
                let now = if matches!(nmu, Mutability::Mutable) {
                    "mutable"
                } else {
                    "immutable"
                };
                push_changed(r, Severity::Major, what, was, now);
            }
            true
        }
        (ItemKind::Fn(sig), ItemKind::Fn(nsig)) => {
            let mut sub = Report::from_item(
                entry(Severity::Note, text3("fn ", &orig.name, "")),
            );
            if sig.is_const && !nsig.is_const {
                sub.push(entry(Severity::Major, "const qualifier removed".to_owned()));
            }
            compare_functions(&mut sub, sig, nsig);
            proof {
                reveal_strlit("");
                assert(sub.item.text@ =~= "fn "@ + orig.name@);
                assert(fn_scope_claim(sub, orig.name@, *sig, *nsig));
            }
            r.attach(sub);
            true
        }
        _ => false,
    }
}

/// Search the other tree's declarations for counterparts of `orig`,
/// running the kind comparator on each exported, same-named candidate
/// whose availability overlaps, and collecting the union of the matched
/// candidates' availability predicates.  Matched module pairs are pushed
/// onto `pairs` as `(oi, index into items)` for later recursion.
fn search_items(
    r: &mut Report,
    orig: &Item,
    items: &Vec<Item>,
    deep: bool,
    pairs: &mut Vec<(usize, usize)>,
    oi: usize,
) -> (result: SearchResult)
    ensures
        report_extended(*old(r), *final(r)),
        appended_not_lazy(*old(r), *final(r)),
        result.found_pub ==> result.found_name,
        result.found_kind ==> result.found_pub,
        result.found_name == name_found(orig.name@, items@),
        result.found_pub == pub_found(orig.name@, items@),
        result.found_kind == exists|j: int| 0 <= j < items@.len() && matching(*orig, #[trigger] items@[j]),
        forall|v: Set<Var>|
            #[trigger] sat(result.item_cfg, v) == attrs_sat(orig.attrs@, v),
        attrs_trivial(orig.attrs@) ==> result.item_cfg == Config::True,
        !attrs_trivial(orig.attrs@) ==> crate::cfg::attrs_parse_to(orig.attrs@, result.item_cfg),
        forall|v: Set<Var>|
            #[trigger] sat(result.found_cfgs, v) == exists|j: int|
                0 <= j < items@.len() && matching(*orig, #[trigger] items@[j]) && attrs_sat(
                    items@[j].attrs@,
                    v,
                ),
        crate::cfg::norm(result.found_cfgs),
        !result.found_kind ==> result.found_cfgs == Config::False,
        attrs_trivial(orig.attrs@) && !pub_found(orig.name@, items@) ==> *final(r) == *old(r),
        final(pairs)@.len() >= old(pairs)@.len(),
        forall|k: int| 0 <= k < old(pairs)@.len() ==> final(pairs)@[k] == old(pairs)@[k],
        forall|k: int|
            old(pairs)@.len() <= k < final(pairs)@.len() ==> (#[trigger] final(pairs)@[k]).0 == oi
                && orig.kind is Mod && final(pairs)@[k].1 < items@.len()
                && items@[(final(pairs)@[k].1) as int].kind is Mod,
        forall|j: int|
            0 <= j < items@.len() && orig.kind is Mod && matching(*orig, #[trigger] items@[j])
                && items@[j].kind is Mod ==> exists|k: int|
                0 <= k < final(pairs)@.len() && (#[trigger] final(pairs)@[k]).0 == oi
                    && final(pairs)@[k].1 == j,
{
    let item_cfg = Config::new(r, &orig.attrs);
    item_cfg.report(r, &Config::True, "");
    let mut found_cfgs = Config::False;
    let mut found_name = false;
    let mut found_pub = false;
    let mut found_kind = false;
    let n = items.len();
    let mut j: usize = 0;
    while j < n
        invariant
            j <= n,
            n == items@.len(),
            report_extended(*old(r), *r),
            appended_not_lazy(*old(r), *r),
            forall|v: Set<Var>| #[trigger] sat(item_cfg, v) == attrs_sat(orig.attrs@, v),
            (item_cfg is True) <==> attrs_trivial(orig.attrs@),
            found_name == name_found(orig.name@, items@.take(j as int)),
            found_pub == pub_found(orig.name@, items@.take(j as int)),
            found_kind == exists|jj: int|
                0 <= jj < j && matching(*orig, #[trigger] items@[jj]),
            !found_kind ==> found_cfgs == Config::False,
            attrs_trivial(orig.attrs@) && !pub_found(orig.name@, items@.take(j as int)) ==> *r
                == *old(r),
            forall|v: Set<Var>|
                #[trigger] sat(found_cfgs, v) == exists|jj: int|
                    0 <= jj < j && matching(*orig, #[trigger] items@[jj]) && attrs_sat(
                        items@[jj].attrs@,
                        v,
                    ),
            pairs@.len() >= old(pairs)@.len(),
            forall|k: int| 0 <= k < old(pairs)@.len() ==> pairs@[k] == old(pairs)@[k],
            forall|k: int|
                old(pairs)@.len() <= k < pairs@.len() ==> (#[trigger] pairs@[k]).0 == oi
                    && orig.kind is Mod && pairs@[k].1 < items@.len() && items@[(pairs@[k].1) as int].kind is Mod,
            forall|jj: int|
                0 <= jj < j && orig.kind is Mod && matching(*orig, #[trigger] items@[jj])
                    && items@[jj].kind is Mod ==> exists|k: int|
                    0 <= k < pairs@.len() && (#[trigger] pairs@[k]).0 == oi && pairs@[k].1 == jj,
        decreases n - j,
    {
        let it = &items[j];
        let ghost pairs_pre = pairs@;
        let names_equal = it.name == orig.name;
        let ghost found_cfgs_pre = found_cfgs;
        let ghost matched_now: bool = names_equal && it.public && cfgs_intersect(
            orig.attrs@,
            it.attrs@,
        ) && kind_matches(orig.kind, it.kind);
        if names_equal {
            found_name = true;
            if it.public {
                found_pub = true;
                let local_cfg = Config::new(r, &it.attrs);
                if item_cfg.intersects(&local_cfg) {
                    let kinds_ok: bool;
                    if !item_cfg.subset(&local_cfg) {
                        let mut sub = Report::from_item(
                            ReportItem {
                                strict: Strictness::Inherit,
                                severity: Severity::Note,
                                text: text3("Comparing with ", &local_cfg.render(), ""),
                            },
                        );
                        if deep {
                            kinds_ok = compare_kinds(&mut sub, orig, it);
                        } else {
                            kinds_ok = kinds_match_only(orig, it);
                        }
                        r.attach(sub);
                    } else {
                        if deep {
                            kinds_ok = compare_kinds(r, orig, it);
                        } else {
                            kinds_ok = kinds_match_only(orig, it);
                        }
                    }
                    if kinds_ok {
                        found_kind = true;
                        if matches!(&orig.kind, ItemKind::Mod(_)) && matches!(
                            &it.kind,
                            ItemKind::Mod(_),
                        ) {
                            pairs.push((oi, j));
                        }
                        found_cfgs.union(local_cfg);
                        proof {
                            assert(matched_now);
                        }
                    } else {
                        proof {
                            assert(!matched_now);
                        }
                    }
                } else {
                    proof {
                        assert(!matched_now) by {
                            assert(!spec_intersects(item_cfg, local_cfg));
                            if cfgs_intersect(orig.attrs@, it.attrs@) {
                                if attrs_trivial(orig.attrs@) {
                                    assert(item_cfg is True);
                                } else if attrs_trivial(it.attrs@) {
                                    assert(local_cfg is True);
                                } else {
                                    let v = choose|v: Set<Var>|
                                        valid(v) && #[trigger] attrs_sat(orig.attrs@, v)
                                            && attrs_sat(it.attrs@, v);
                                    assert(valid(v) && sat(item_cfg, v) && sat(local_cfg, v));
                                }
                            }
                        }
                    }
                }
            } else {
                proof {
                    assert(!matched_now);
                }
            }
        } else {
            proof {
                assert(!matched_now);
            }
        }
        proof {
            assert(items@.take(j + 1) =~= items@.take(j as int).push(items@[j as int]));
            assert(found_name == name_found(orig.name@, items@.take(j + 1))) by {
                if found_name {
                    if names_equal {
                        assert(items@.take(j + 1)[j as int].name@ == orig.name@);
                    } else {
                        let jj = choose|jj: int|
                            0 <= jj < items@.take(j as int).len() && (#[trigger] items@.take(
                                j as int,
                            )[jj]).name@ == orig.name@;
                        assert(items@.take(j + 1)[jj].name@ == orig.name@);
                    }
                } else {
                    if name_found(orig.name@, items@.take(j + 1)) {
                        let jj = choose|jj: int|
                            0 <= jj < items@.take(j + 1).len() && (#[trigger] items@.take(
                                j + 1,
                            )[jj]).name@ == orig.name@;
                        if jj < j {
                            assert(items@.take(j as int)[jj].name@ == orig.name@);
                        }
                    }
                }
            }
            assert(found_pub == pub_found(orig.name@, items@.take(j + 1))) by {
                if found_pub {
                    if names_equal && items@[j as int].public {
                        assert(items@.take(j + 1)[j as int].name@ == orig.name@
                            && items@.take(j + 1)[j as int].public);
                    } else {
                        let jj = choose|jj: int|
                            0 <= jj < items@.take(j as int).len() && (#[trigger] items@.take(
                                j as int,
                            )[jj]).name@ == orig.name@ && items@.take(j as int)[jj].public;
                        assert(items@.take(j + 1)[jj].name@ == orig.name@ && items@.take(
                            j + 1,
                        )[jj].public);
                    }
                } else {
                    if pub_found(orig.name@, items@.take(j + 1)) {
                        let jj = choose|jj: int|
                            0 <= jj < items@.take(j + 1).len() && (#[trigger] items@.take(
                                j + 1,
                            )[jj]).name@ == orig.name@ && items@.take(j + 1)[jj].public;
                        if jj < j {
                            assert(items@.take(j as int)[jj].name@ == orig.name@ && items@.take(
                                j as int,
                            )[jj].public);
                        }
                    }
                }
            }
            assert forall|v: Set<Var>| #[trigger] sat(found_cfgs, v) == exists|jj: int|
                0 <= jj < j + 1 && matching(*orig, #[trigger] items@[jj]) && attrs_sat(
                    items@[jj].attrs@,
                    v,
                ) by {
                if matched_now {
                    assert(sat(found_cfgs, v) == (sat(found_cfgs_pre, v) || attrs_sat(
                        items@[j as int].attrs@,
                        v,
                    )));
                } else {
                    assert(sat(found_cfgs, v) == sat(found_cfgs_pre, v));
                }
                if sat(found_cfgs, v) {
                } else {
                    if exists|jj: int|
                        0 <= jj < j + 1 && matching(*orig, #[trigger] items@[jj]) && attrs_sat(
                            items@[jj].attrs@,
                            v,
                        ) {
                        let jj = choose|jj: int|
                            0 <= jj < j + 1 && matching(*orig, #[trigger] items@[jj]) && attrs_sat(
                                items@[jj].attrs@,
                                v,
                            );
                        assert(jj == j);
                    }
                }
            }
            assert forall|jj: int|
                0 <= jj < j + 1 && orig.kind is Mod && matching(*orig, #[trigger] items@[jj])
                    && items@[jj].kind is Mod implies exists|k: int|
                0 <= k < pairs@.len() && (#[trigger] pairs@[k]).0 == oi && pairs@[k].1 == jj by {
                if jj == j {
                    assert(pairs@[pairs@.len() - 1].0 == oi && pairs@[pairs@.len() - 1].1 == j);
                } else {
                    let k = choose|k: int|
                        0 <= k < pairs_pre.len() && (#[trigger] pairs_pre[k]).0 == oi
                            && pairs_pre[k].1 == jj;
                    assert(pairs@[k].0 == oi && pairs@[k].1 == jj);
                }
            }
        }
        j += 1;
    }
    proof {
        assert(items@.take(n as int) =~= items@);
        if found_kind {
            let jj = choose|jj: int| 0 <= jj < items@.len() && matching(*orig, #[trigger] items@[jj]);
            assert(items@[jj].name@ == orig.name@ && items@[jj].public);
        }
        if found_pub {
            let jj = choose|jj: int|
                0 <= jj < items@.len() && (#[trigger] items@[jj]).name@ == orig.name@
                    && items@[jj].public;
            assert(items@[jj].name@ == orig.name@);
        }
    }
    found_cfgs.simplify();
    SearchResult { item_cfg, found_cfgs, found_name, found_pub, found_kind }
}

/// The pure kind check used for the additions pass, where no detailed
/// comparison is wanted.
fn kinds_match_only(orig: &Item, it: &Item) -> (r: bool)
    ensures
        r == kind_matches(orig.kind, it.kind),
{
    match (&orig.kind, &it.kind) {
        (ItemKind::Mod(_), ItemKind::Mod(_)) => true,
        (ItemKind::Const(_), ItemKind::Const(_)) => true,
        (ItemKind::Const(_), ItemKind::Static(_, _)) => true,
        (ItemKind::Static(_, _), ItemKind::Const(_)) => true,
        (ItemKind::Static(_, _), ItemKind::Static(_, _)) => true,
        (ItemKind::Fn(_), ItemKind::Fn(_)) => true,
        _ => false,
    }
}

/// One strict entry of the given severity and text was appended.
pub open spec fn one_entry_added(before: Report, after: Report, sev: Severity, text: Seq<char>) -> bool {
    &&& after.item == before.item
    &&& after.children@.len() == before.children@.len() + 1
    &&& forall|i: int| 0 <= i < before.children@.len() ==> after.children@[i] == before.children@[i]
    &&& after.children@.last().item.severity == sev
    &&& after.children@.last().item.strict == Strictness::Strict
    &&& after.children@.last().item.text@ == text
}

/// Classify the outcome of the search for an old exported declaration.
fn classify_old(r: &mut Report, result: &SearchResult, kind_name: &str)
    requires
        result.found_pub ==> result.found_name,
        result.found_kind ==> result.found_pub,
    ensures
        report_extended(*old(r), *final(r)),
        appended_not_lazy(*old(r), *final(r)),
        !result.found_name ==> one_entry_added(*old(r), *final(r), Severity::Major, "removed"@),
        result.found_name && !result.found_pub ==> one_entry_added(
            *old(r),
            *final(r),
            Severity::Major,
            "made private"@,
        ),
        result.found_pub && !result.found_kind ==> one_entry_added(
            *old(r),
            *final(r),
            Severity::Major,
            "no longer a "@ + kind_name@,
        ),
        result.found_kind && !spec_subset(result.item_cfg, result.found_cfgs) ==> one_entry_added(
            *old(r),
            *final(r),
            Severity::Major,
            "availability narrowed:\n  Was: "@ + cfg_text(result.item_cfg) + "\n  Now: "@
                + cfg_text(result.found_cfgs),
        ),
        result.found_kind && spec_subset(result.item_cfg, result.found_cfgs) ==> *final(r) == *old(
            r,
        ),
{
    if !result.found_name {
        r.push(entry(Severity::Major, "removed".to_owned()));
    } else if !result.found_pub {
        r.push(entry(Severity::Major, "made private".to_owned()));
    } else if !result.found_kind {
        let mut t: String = "no longer a ".to_owned();
        t.append(kind_name);
        r.push(entry(Severity::Major, t));
    } else if !result.item_cfg.subset(&result.found_cfgs) {
        let mut t: String = "availability narrowed:\n  Was: ".to_owned();
        t.append(result.item_cfg.render().as_str());
        t.append("\n  Now: ");
        t.append(result.found_cfgs.render().as_str());
        proof {
            assert(t@ =~= "availability narrowed:\n  Was: "@ + cfg_text(result.item_cfg)
                + "\n  Now: "@ + cfg_text(result.found_cfgs));
        }
        r.push(entry(Severity::Major, t));
    }
}

/// Classify the outcome of the search for a declaration only the new tree
/// exports.  Additions could break consumers that use glob imports, but
/// they are deliberately reported as `Minor` in favour of report clarity.
fn classify_added(r: &mut Report, result: &SearchResult)
    requires
        result.found_pub ==> result.found_name,
    ensures
        report_extended(*old(r), *final(r)),
        appended_not_lazy(*old(r), *final(r)),
        !result.found_name ==> one_entry_added(*old(r), *final(r), Severity::Minor, "added"@),
        result.found_name && !result.found_pub ==> one_entry_added(
            *old(r),
            *final(r),
            Severity::Minor,
            "made public"@,
        ),
        result.found_pub && !spec_subset(result.item_cfg, result.found_cfgs) ==> one_entry_added(
            *old(r),
            *final(r),
            Severity::Minor,
            "availability widened:\n  Was: "@ + cfg_text(result.found_cfgs) + "\n  Now: "@
                + cfg_text(result.item_cfg),
        ),
        result.found_pub && spec_subset(result.item_cfg, result.found_cfgs) ==> *final(r) == *old(
            r,
        ),
{
    if !result.found_name {
        r.push(entry(Severity::Minor, "added".to_owned()));
    } else if !result.found_pub {
        r.push(entry(Severity::Minor, "made public".to_owned()));
    } else if !result.item_cfg.subset(&result.found_cfgs) {
        let mut t: String = "availability widened:\n  Was: ".to_owned();
        t.append(result.found_cfgs.render().as_str());
        t.append("\n  Now: ");
        t.append(result.item_cfg.render().as_str());
        proof {
            assert(t@ =~= "availability widened:\n  Was: "@ + cfg_text(result.found_cfgs)
                + "\n  Now: "@ + cfg_text(result.item_cfg));
        }
        r.push(entry(Severity::Minor, t));
    }
}

/// The kind label used in the report scope for a declaration.
fn kind_label(kind: &ItemKind) -> (s: &'static str)
    ensures
        kind is Mod ==> s@ == "mod"@,
        kind is Const ==> s@ == "const"@,
        kind is Static ==> s@ == "static"@,
        kind is Fn ==> s@ == "fn"@,
{
    match kind {
        ItemKind::Mod(_) => "mod",
        ItemKind::Const(_) => "const",
        ItemKind::Static(_, _) => "static",
        ItemKind::Fn(_) => "fn",
        ItemKind::Unhandled(_) => "?",
    }
}

/// The kind label of a declaration.
pub open spec fn kind_text(k: ItemKind) -> Seq<char> {
    match k {
        ItemKind::Mod(_) => "mod"@,
        ItemKind::Const(_) => "const"@,
        ItemKind::Static(_, _) => "static"@,
        ItemKind::Fn(_) => "fn"@,
        ItemKind::Unhandled(_) => "?"@,
    }
}

/// A counterpart of a matching kind exists in the list.
pub open spec fn kind_found(orig: Item, items: Seq<Item>) -> bool {
    exists|j: int| 0 <= j < items.len() && matching(orig, #[trigger] items[j])
}

/// Wherever the declaration is available, some counterpart in the list is
/// available too: its availability was not narrowed.
pub open spec fn avail_covered(orig: Item, items: Seq<Item>) -> bool {
    forall|v: Set<Var>|
        valid(v) && #[trigger] attrs_sat(orig.attrs@, v) ==> exists|j: int|
            0 <= j < items.len() && matching(orig, #[trigger] items[j]) && attrs_sat(
                items[j].attrs@,
                v,
            )
}

/// The two predicates cited by a narrowing or widening entry: `oc` is
/// the declaration's own parsed predicate and `u` is the simplified
/// union of its counterparts' predicates.
pub open spec fn cited_cfgs(orig: Item, items: Seq<Item>, oc: Config, u: Config) -> bool {
    &&& attrs_trivial(orig.attrs@) ==> oc == Config::True
    &&& !attrs_trivial(orig.attrs@) ==> crate::cfg::attrs_parse_to(orig.attrs@, oc)
    &&& crate::cfg::norm(u)
    &&& forall|v: Set<Var>|
        #[trigger] sat(u, v) == exists|j: int|
            0 <= j < items.len() && matching(orig, #[trigger] items[j]) && attrs_sat(
                items[j].attrs@,
                v,
            )
}

/// The classification stands alone at the end of the scope, after the
/// `pre` children the search itself recorded: exactly one entry for the
/// case that applies, and none at all when the declaration's
/// availability is covered by its counterparts.
pub open spec fn classified_at(scope: Report, pre: int, orig: Item, items: Seq<Item>) -> bool {
    &&& 0 <= pre <= scope.children@.len()
    &&& !name_found(orig.name@, items) ==> scope.children@.len() == pre + 1
    &&& name_found(orig.name@, items) && !pub_found(orig.name@, items) ==> scope.children@.len()
        == pre + 1
    &&& pub_found(orig.name@, items) && !kind_found(orig, items) ==> scope.children@.len() == pre
        + 1
    &&& kind_found(orig, items) && !avail_covered(orig, items) ==> scope.children@.len() == pre
        + 1
    &&& kind_found(orig, items) && avail_covered(orig, items) ==> scope.children@.len() == pre
}

/// As `classified_at`, for a declaration that only the new tree exports.
pub open spec fn added_classified_at(scope: Report, pre: int, orig: Item, items: Seq<Item>) -> bool {
    &&& 0 <= pre <= scope.children@.len()
    &&& !name_found(orig.name@, items) ==> scope.children@.len() == pre + 1
    &&& name_found(orig.name@, items) && !pub_found(orig.name@, items) ==> scope.children@.len()
        == pre + 1
    &&& pub_found(orig.name@, items) && !avail_covered(orig, items) ==> scope.children@.len()
        == pre + 1
    &&& pub_found(orig.name@, items) && avail_covered(orig, items) ==> scope.children@.len()
        == pre
}

/// The scope's last entry is a strict finding of this severity and text.
pub open spec fn last_entry_is(scope: Report, sev: Severity, text: Seq<char>) -> bool {
    &&& scope.children@.len() >= 1
    &&& scope.children@.last().item.severity == sev
    &&& scope.children@.last().item.strict == Strictness::Strict
    &&& scope.children@.last().item.text@ == text
}

/// What the scope recorded for one exported declaration of the old tree
/// says about its fate in the new tree.
pub open spec fn old_scope_claim(scope: Report, orig: Item, items: Seq<Item>) -> bool {
    &&& scope.item.severity == Severity::Note
    &&& scope.item.strict == Strictness::Strict
    &&& scope.item.text@ == kind_text(orig.kind) + " "@ + orig.name@
    &&& forall|c: int|
        0 <= c < scope.children@.len() ==> (#[trigger] scope.children@[c]).item.strict
            != Strictness::Lazy
    &&& !name_found(orig.name@, items) ==> last_entry_is(scope, Severity::Major, "removed"@)
    &&& name_found(orig.name@, items) && !pub_found(orig.name@, items) ==> last_entry_is(
        scope,
        Severity::Major,
        "made private"@,
    )
    &&& pub_found(orig.name@, items) && !kind_found(orig, items) ==> last_entry_is(
        scope,
        Severity::Major,
        "no longer a "@ + kind_text(orig.kind),
    )
    &&& kind_found(orig, items) && !avail_covered(orig, items) ==> exists|oc: Config, u: Config|
        #![trigger cfg_text(oc), cfg_text(u)]
        cited_cfgs(orig, items, oc, u) && last_entry_is(
            scope,
            Severity::Major,
            "availability narrowed:\n  Was: "@ + cfg_text(oc) + "\n  Now: "@ + cfg_text(u),
        )
    &&& !name_found(orig.name@, items) && attrs_trivial(orig.attrs@) ==> scope.children@.len()
        == 1
    &&& name_found(orig.name@, items) && !pub_found(orig.name@, items) && attrs_trivial(
        orig.attrs@,
    ) ==> scope.children@.len() == 1
    &&& exists|pre: int| #[trigger] classified_at(scope, pre, orig, items)
}

/// What the scope recorded for a declaration that only the new tree
/// exports says; such findings are deliberately Minor.
pub open spec fn added_scope_claim(scope: Report, orig: Item, items: Seq<Item>) -> bool {
    &&& scope.item.severity == Severity::Note
    &&& scope.item.strict == Strictness::Lazy
    &&& scope.item.text@ == kind_text(orig.kind) + " "@ + orig.name@
    &&& forall|c: int|
        0 <= c < scope.children@.len() ==> (#[trigger] scope.children@[c]).item.strict
            != Strictness::Lazy
    &&& !name_found(orig.name@, items) ==> last_entry_is(scope, Severity::Minor, "added"@)
    &&& name_found(orig.name@, items) && !pub_found(orig.name@, items) ==> last_entry_is(
        scope,
        Severity::Minor,
        "made public"@,
    )
    &&& pub_found(orig.name@, items) && !avail_covered(orig, items) ==> exists|oc: Config, u: Config|
        #![trigger cfg_text(oc), cfg_text(u)]
        cited_cfgs(orig, items, oc, u) && last_entry_is(
            scope,
            Severity::Minor,
            "availability widened:\n  Was: "@ + cfg_text(u) + "\n  Now: "@ + cfg_text(oc),
        )
    &&& !name_found(orig.name@, items) && attrs_trivial(orig.attrs@) ==> scope.children@.len()
        == 1
    &&& exists|pre: int| #[trigger] added_classified_at(scope, pre, orig, items)
}

/// The warning recorded for an exported declaration of a kind this engine
/// does not compare: a visible gap rather than a silent one.
pub open spec fn unhandled_claim(e: Report, orig: Item) -> bool {
    &&& e.item.severity == Severity::Warning
    &&& e.item.strict == Strictness::Strict
    &&& orig.kind is Unhandled ==> e.item.text@ == "Unhandled: "@ + orig.kind->Unhandled_0@ + " "@
        + orig.name@
}

/// Every exported declaration of both sides has its scope or warning
/// somewhere among the report's children.
pub open spec fn module_findings(rep: Report, olds: Seq<Item>, news: Seq<Item>) -> bool {
    &&& forall|i: int|
        0 <= i < olds.len() && (#[trigger] olds[i]).public && !(olds[i].kind is Unhandled)
            ==> exists|k: int|
            0 <= k < rep.children@.len() && old_scope_claim(
                #[trigger] rep.children@[k],
                olds[i],
                news,
            )
    &&& forall|i: int|
        0 <= i < olds.len() && (#[trigger] olds[i]).public && olds[i].kind is Unhandled
            ==> exists|k: int|
            0 <= k < rep.children@.len() && unhandled_claim(#[trigger] rep.children@[k], olds[i])
    &&& forall|j: int|
        0 <= j < news.len() && (#[trigger] news[j]).public && !(news[j].kind is Unhandled)
            ==> exists|k: int|
            0 <= k < rep.children@.len() && added_scope_claim(
                #[trigger] rep.children@[k],
                news[j],
                olds,
            )
}

/// What the nested scope for a matched pair of child modules holds: the
/// module label and, directly or under the narrowing context note, the
/// recursive findings for the two modules' members.
pub open spec fn mod_pair_claim(scope: Report, o: Item, n: Item) -> bool {
    &&& scope.item.severity == Severity::Note
    &&& scope.item.strict == Strictness::Strict
    &&& o.kind is Mod && n.kind is Mod
    &&& scope.item.text@ == "mod "@ + o.name@
    &&& (module_findings(scope, o.kind->Mod_0@, n.kind->Mod_0@) || exists|ci: int|
        0 <= ci < scope.children@.len() && (#[trigger] scope.children@[ci]).item.strict
            == Strictness::Inherit && module_findings(
            scope.children@[ci],
            o.kind->Mod_0@,
            n.kind->Mod_0@,
        ))
}

/// The full findings of one module comparison imply the position-free
/// form used for nested scopes.
proof fn lemma_findings_from_compared(before: Report, after: Report, olds: Seq<Item>, news: Seq<Item>)
    requires
        mods_compared(before, after, olds, news),
    ensures
        module_findings(after, olds, news),
{
    assert forall|i: int|
        0 <= i < olds.len() && (#[trigger] olds[i]).public && !(olds[i].kind
            is Unhandled) implies exists|k: int|
        0 <= k < after.children@.len() && old_scope_claim(
            #[trigger] after.children@[k],
            olds[i],
            news,
        ) by {
        let k = choose|k: int|
            before.children@.len() <= k < after.children@.len() && old_scope_claim(
                #[trigger] after.children@[k],
                olds[i],
                news,
            );
        assert(old_scope_claim(after.children@[k], olds[i], news));
    }
    assert forall|i: int|
        0 <= i < olds.len() && (#[trigger] olds[i]).public && olds[i].kind
            is Unhandled implies exists|k: int|
        0 <= k < after.children@.len() && unhandled_claim(
            #[trigger] after.children@[k],
            olds[i],
        ) by {
        let k = choose|k: int|
            before.children@.len() <= k < after.children@.len() && unhandled_claim(
                #[trigger] after.children@[k],
                olds[i],
            );
        assert(unhandled_claim(after.children@[k], olds[i]));
    }
    assert forall|j: int|
        0 <= j < news.len() && (#[trigger] news[j]).public && !(news[j].kind
            is Unhandled) implies exists|k: int|
        0 <= k < after.children@.len() && added_scope_claim(
            #[trigger] after.children@[k],
            news[j],
            olds,
        ) by {
        let k = choose|k: int|
            before.children@.len() <= k < after.children@.len() && added_scope_claim(
                #[trigger] after.children@[k],
                news[j],
                olds,
            );
        assert(added_scope_claim(after.children@[k], news[j], olds));
    }
}

/// Every child the module comparison appends at this level is a scope
/// note, an unhandled-kind warning, or an error: classification findings
/// live inside the scopes, never loose beside them.
pub open spec fn appended_top_level(before: Report, after: Report) -> bool {
    forall|k: int|
        before.children@.len() <= k < after.children@.len() ==> ((#[trigger] after.children@[k]).item.severity
            == Severity::Note || after.children@[k].item.severity == Severity::Warning
            || after.children@[k].item.severity == Severity::Error)
}

/// Every exported declaration of the old tree got its scope, every
/// exported addition of the new tree got its lazy scope, and every
/// exported declaration of an unhandled kind got its warning.
pub open spec fn mods_compared(
    before: Report,
    after: Report,
    old_items: Seq<Item>,
    new_items: Seq<Item>,
) -> bool {
    &&& forall|i: int|
        0 <= i < old_items.len() && (#[trigger] old_items[i]).public && !(old_items[i].kind
            is Unhandled) ==> exists|k: int|
            before.children@.len() <= k < after.children@.len() && old_scope_claim(
                #[trigger] after.children@[k],
                old_items[i],
                new_items,
            )
    &&& forall|i: int|
        0 <= i < old_items.len() && (#[trigger] old_items[i]).public && old_items[i].kind
            is Unhandled ==> exists|k: int|
            before.children@.len() <= k < after.children@.len() && unhandled_claim(
                #[trigger] after.children@[k],
                old_items[i],
            )
    &&& forall|j: int|
        0 <= j < new_items.len() && (#[trigger] new_items[j]).public && !(new_items[j].kind
            is Unhandled) ==> exists|k: int|
            before.children@.len() <= k < after.children@.len() && added_scope_claim(
                #[trigger] after.children@[k],
                new_items[j],
                old_items,
            )
    &&& forall|i: int, j: int|
        #![trigger old_items[i], new_items[j]]
        0 <= i < old_items.len() && 0 <= j < new_items.len() && old_items[i].public
            && old_items[i].kind is Mod && matching(old_items[i], new_items[j])
            && new_items[j].kind is Mod ==> exists|k: int|
            before.children@.len() <= k < after.children@.len() && mod_pair_claim(
                #[trigger] after.children@[k],
                old_items[i],
                new_items[j],
            )
}

/// Entailment between the parsed predicates is exactly availability
/// coverage over the declaration model.
proof fn lemma_avail_bridge(a: Config, b: Config, orig: Item, items: Seq<Item>)
    requires
        forall|v: Set<Var>| #[trigger] sat(a, v) == attrs_sat(orig.attrs@, v),
        forall|v: Set<Var>|
            #[trigger] sat(b, v) == exists|j: int|
                0 <= j < items.len() && matching(orig, #[trigger] items[j]) && attrs_sat(
                    items[j].attrs@,
                    v,
                ),
    ensures
        spec_subset(a, b) == avail_covered(orig, items),
{
    if spec_subset(a, b) {
        assert forall|v: Set<Var>|
            valid(v) && #[trigger] attrs_sat(orig.attrs@, v) implies exists|j: int|
            0 <= j < items.len() && matching(orig, #[trigger] items[j]) && attrs_sat(
                items[j].attrs@,
                v,
            ) by {
            assert(sat(a, v));
            assert(sat(b, v));
        }
    }
    if avail_covered(orig, items) {
        assert forall|v: Set<Var>| valid(v) && #[trigger] sat(a, v) implies sat(b, v) by {
            assert(attrs_sat(orig.attrs@, v));
            assert(exists|j: int|
                0 <= j < items.len() && matching(orig, #[trigger] items[j]) && attrs_sat(
                    items[j].attrs@,
                    v,
                ));
        }
    }
}

/// Every declaration that only the new tree exports has its addition
/// scope, with its Minor finding, somewhere among the report's children.
pub open spec fn additions_reported(rep: Report, news: Seq<Item>, olds: Seq<Item>) -> bool {
    forall|j: int|
        0 <= j < news.len() && (#[trigger] news[j]).public && !(news[j].kind is Unhandled) && !name_found(
            news[j].name@,
            olds,
        ) ==> exists|k: int|
            0 <= k < rep.children@.len() && added_scope_claim(
                #[trigger] rep.children@[k],
                news[j],
                olds,
            )
}

/// What an addition scope says survives the pruning pass once it holds a
/// finding: the strict finding keeps the lazy scope alive, and none of
/// the scope's children can be deleted.
pub proof fn lemma_added_scope_claim_prunes(a: Report, b: Report, orig: Item, items: Seq<Item>)
    requires
        crate::report::prune_rel(a, b),
        added_scope_claim(a, orig, items),
    ensures
        added_scope_claim(b, orig, items),
{
    let pre = choose|pre: int| #[trigger] added_classified_at(a, pre, orig, items);

    assert(crate::report::prune_seq(a.children@, b.children@, 0, 0));
    assert forall|i: int| 0 <= i < a.children@.len() implies !crate::report::deletable(
        #[trigger] a.children@[i],
    ) by {
        assert(a.children@[i].item.strict != Strictness::Lazy);
    }
    crate::report::lemma_prune_none_deleted(a.children@, b.children@, 0, 0);
    assert forall|d: int| 0 <= d < b.children@.len() implies (#[trigger] b.children@[d]).item
        == a.children@[d].item by {
        assert(crate::report::prune_rel(a.children@[0 + d], b.children@[0 + d]));
    }
    if a.children@.len() >= 1 {
        assert(b.children@.last().item == a.children@.last().item);
    }
    assert(added_classified_at(b, pre, orig, items));
}

/// Every exported declaration of the old tree has its scope, with its
/// classification, somewhere among the report's children.
pub open spec fn old_items_reported(rep: Report, olds: Seq<Item>, news: Seq<Item>) -> bool {
    forall|i: int|
        0 <= i < olds.len() && (#[trigger] olds[i]).public && !(olds[i].kind is Unhandled)
            ==> exists|k: int|
            0 <= k < rep.children@.len() && old_scope_claim(
                #[trigger] rep.children@[k],
                olds[i],
                news,
            )
}

/// What a declaration scope says survives the pruning pass: none of its
/// children is ever deleted, so the classification entry stays in place.
pub proof fn lemma_old_scope_claim_prunes(a: Report, b: Report, orig: Item, items: Seq<Item>)
    requires
        crate::report::prune_rel(a, b),
        old_scope_claim(a, orig, items),
    ensures
        old_scope_claim(b, orig, items),
{
    let pre = choose|pre: int| #[trigger] classified_at(a, pre, orig, items);

    assert(crate::report::prune_seq(a.children@, b.children@, 0, 0));
    assert forall|i: int| 0 <= i < a.children@.len() implies !crate::report::deletable(
        #[trigger] a.children@[i],
    ) by {
        assert(a.children@[i].item.strict != Strictness::Lazy);
    }
    crate::report::lemma_prune_none_deleted(a.children@, b.children@, 0, 0);
    assert forall|d: int| 0 <= d < b.children@.len() implies (#[trigger] b.children@[d]).item
        == a.children@[d].item by {
        assert(crate::report::prune_rel(a.children@[0 + d], b.children@[0 + d]));
    }
    if a.children@.len() >= 1 {
        assert(b.children@.last().item == a.children@.last().item);
    }
    assert(classified_at(b, pre, orig, items));
}

/// Recorded scope claims survive appending further children.
proof fn lemma_old_claims_carry(
    r1: Report,
    r2: Report,
    base: int,
    olds: Seq<Item>,
    news: Seq<Item>,
    upto: int,
)
    requires
        0 <= base,
        r1.children@.len() <= r2.children@.len(),
        forall|kk: int|
            0 <= kk < r1.children@.len() ==> (#[trigger] r2.children@[kk]) == r1.children@[kk],
        forall|ii: int|
            0 <= ii < upto && (#[trigger] olds[ii]).public && !(olds[ii].kind is Unhandled)
                ==> exists|kk: int|
                base <= kk < r1.children@.len() && old_scope_claim(
                    #[trigger] r1.children@[kk],
                    olds[ii],
                    news,
                ),
    ensures
        forall|ii: int|
            0 <= ii < upto && (#[trigger] olds[ii]).public && !(olds[ii].kind is Unhandled)
                ==> exists|kk: int|
                base <= kk < r2.children@.len() && old_scope_claim(
                    #[trigger] r2.children@[kk],
                    olds[ii],
                    news,
                ),
{
    assert forall|ii: int|
        0 <= ii < upto && (#[trigger] olds[ii]).public && !(olds[ii].kind
            is Unhandled) implies exists|kk: int|
        base <= kk < r2.children@.len() && old_scope_claim(
            #[trigger] r2.children@[kk],
            olds[ii],
            news,
        ) by {
        let kk = choose|kk: int|
            base <= kk < r1.children@.len() && old_scope_claim(
                #[trigger] r1.children@[kk],
                olds[ii],
                news,
            );
        assert(r2.children@[kk] == r1.children@[kk]);
        assert(old_scope_claim(r2.children@[kk], olds[ii], news));
    }
}

/// Recorded warnings survive appending further children.
proof fn lemma_unhandled_claims_carry(r1: Report, r2: Report, base: int, olds: Seq<Item>, upto: int)
    requires
        0 <= base,
        r1.children@.len() <= r2.children@.len(),
        forall|kk: int|
            0 <= kk < r1.children@.len() ==> (#[trigger] r2.children@[kk]) == r1.children@[kk],
        forall|ii: int|
            0 <= ii < upto && (#[trigger] olds[ii]).public && olds[ii].kind is Unhandled
                ==> exists|kk: int|
                base <= kk < r1.children@.len() && unhandled_claim(
                    #[trigger] r1.children@[kk],
                    olds[ii],
                ),
    ensures
        forall|ii: int|
            0 <= ii < upto && (#[trigger] olds[ii]).public && olds[ii].kind is Unhandled
                ==> exists|kk: int|
                base <= kk < r2.children@.len() && unhandled_claim(
                    #[trigger] r2.children@[kk],
                    olds[ii],
                ),
{
    assert forall|ii: int|
        0 <= ii < upto && (#[trigger] olds[ii]).public && olds[ii].kind
            is Unhandled implies exists|kk: int|
        base <= kk < r2.children@.len() && unhandled_claim(
            #[trigger] r2.children@[kk],
            olds[ii],
        ) by {
        let kk = choose|kk: int|
            base <= kk < r1.children@.len() && unhandled_claim(
                #[trigger] r1.children@[kk],
                olds[ii],
            );
        assert(r2.children@[kk] == r1.children@[kk]);
        assert(unhandled_claim(r2.children@[kk], olds[ii]));
    }
}

/// Recorded addition scopes survive appending further children.
proof fn lemma_added_claims_carry(
    r1: Report,
    r2: Report,
    base: int,
    news: Seq<Item>,
    olds: Seq<Item>,
    upto: int,
)
    requires
        0 <= base,
        r1.children@.len() <= r2.children@.len(),
        forall|kk: int|
            0 <= kk < r1.children@.len() ==> (#[trigger] r2.children@[kk]) == r1.children@[kk],
        forall|jj: int|
            0 <= jj < upto && (#[trigger] news[jj]).public && !(news[jj].kind is Unhandled)
                ==> exists|kk: int|
                base <= kk < r1.children@.len() && added_scope_claim(
                    #[trigger] r1.children@[kk],
                    news[jj],
                    olds,
                ),
    ensures
        forall|jj: int|
            0 <= jj < upto && (#[trigger] news[jj]).public && !(news[jj].kind is Unhandled)
                ==> exists|kk: int|
                base <= kk < r2.children@.len() && added_scope_claim(
                    #[trigger] r2.children@[kk],
                    news[jj],
                    olds,
                ),
{
    assert forall|jj: int|
        0 <= jj < upto && (#[trigger] news[jj]).public && !(news[jj].kind
            is Unhandled) implies exists|kk: int|
        base <= kk < r2.children@.len() && added_scope_claim(
            #[trigger] r2.children@[kk],
            news[jj],
            olds,
        ) by {
        let kk = choose|kk: int|
            base <= kk < r1.children@.len() && added_scope_claim(
                #[trigger] r1.children@[kk],
                news[jj],
                olds,
            );
        assert(r2.children@[kk] == r1.children@[kk]);
        assert(added_scope_claim(r2.children@[kk], news[jj], olds));
    }
}

/// Generate a report on the changes between two versions of one module's
/// declarations: renamed, removed or narrowed exported declarations of
/// the old version, additions of the new one, and a recursive comparison
/// of every matched pair of child modules under a nested scope.
pub fn compare_mods(r: &mut Report, old_items: &Vec<Item>, new_items: &Vec<Item>)
    ensures
        report_extended(*old(r), *final(r)),
        mods_compared(*old(r), *final(r), old_items@, new_items@),
        appended_top_level(*old(r), *final(r)),
    decreases old_items@,
{
    let mut pairs: Vec<(usize, usize)> = Vec::new();

    // Major: renaming, moving or removing any public item.  Check that
    // every exported declaration is found at the same path in the new
    // version and agrees with the old one in a kind-specific way.
    let n = old_items.len();
    let mut i: usize = 0;
    while i < n
        invariant
            i <= n,
            n == old_items@.len(),
            report_extended(*old(r), *r),
            appended_top_level(*old(r), *r),
            forall|k: int|
                0 <= k < pairs@.len() ==> ((#[trigger] pairs@[k]).0 < old_items@.len()
                    && old_items@[(pairs@[k].0) as int].kind is Mod && pairs@[k].1
                    < new_items@.len() && new_items@[(pairs@[k].1) as int].kind is Mod),
            forall|ii: int, jj: int|
                #![trigger old_items@[ii], new_items@[jj]]
                0 <= ii < i && 0 <= jj < new_items@.len()
                    && old_items@[ii].public && old_items@[ii].kind is Mod && matching(
                    old_items@[ii],
                    new_items@[jj],
                ) && new_items@[jj].kind is Mod ==> exists|kk: int|
                    0 <= kk < pairs@.len() && (#[trigger] pairs@[kk]).0 == ii && pairs@[kk].1
                        == jj,
            forall|ii: int|
                0 <= ii < i && (#[trigger] old_items@[ii]).public && !(old_items@[ii].kind
                    is Unhandled) ==> exists|kk: int|
                    old(r).children@.len() <= kk < r.children@.len() && old_scope_claim(
                        #[trigger] r.children@[kk],
                        old_items@[ii],
                        new_items@,
                    ),
            forall|ii: int|
                0 <= ii < i && (#[trigger] old_items@[ii]).public && old_items@[ii].kind
                    is Unhandled ==> exists|kk: int|
                    old(r).children@.len() <= kk < r.children@.len() && unhandled_claim(
                        #[trigger] r.children@[kk],
                        old_items@[ii],
                    ),
        decreases n - i,
    {
        let ghost r0 = *r;
        let ghost pairs0 = pairs@;
        let ghost base = old(r).children@.len() as int;
        let item = &old_items[i];
        let ghost itemg = old_items@[i as int];
        if item.public {
            match &item.kind {
                ItemKind::Unhandled(kname) => {
                    // visible gap rather than a silent one
                    let mut text: String = "Unhandled: ".to_owned();
                    text.append(kname.as_str());
                    text.append(" ");
                    text.append(item.name.as_str());
                    proof {
                        assert(text@ =~= "Unhandled: "@ + itemg.kind->Unhandled_0@ + " "@
                            + itemg.name@);
                    }
                    r.push(
                        ReportItem {
                            strict: Strictness::Strict,
                            severity: Severity::Warning,
                            text,
                        },
                    );
                    proof {
                        lemma_old_claims_carry(r0, *r, base, old_items@, new_items@, i as int);
                        lemma_unhandled_claims_carry(r0, *r, base, old_items@, i as int);
                        let last = r.children@.len() - 1;
                        assert(unhandled_claim(r.children@[last], itemg));
                        assert forall|ii: int|
                            0 <= ii < i + 1 && (#[trigger] old_items@[ii]).public
                                && old_items@[ii].kind is Unhandled implies exists|kk: int|
                            base <= kk < r.children@.len() && unhandled_claim(
                                #[trigger] r.children@[kk],
                                old_items@[ii],
                            ) by {
                            if ii == i {
                                assert(unhandled_claim(r.children@[last], old_items@[ii]));
                            }
                        }
                    }
                }
                _ => {
                    match &item.kind {
                        ItemKind::Fn(sig) => {
                            if sig.variadic {
                                let mut text: String = "non-foreign fn ".to_owned();
                                text.append(item.name.as_str());
                                text.append(" is variadic");
                                r.push(
                                    ReportItem {
                                        strict: Strictness::Strict,
                                        severity: Severity::Error,
                                        text,
                                    },
                                );
                            }
                        }
                        _ => {}
                    }
                    let kind_name = kind_label(&item.kind);
                    let mut label: String = kind_name.to_owned();
                    label.append(" ");
                    label.append(item.name.as_str());
                    proof {
                        assert(kind_name@ == kind_text(itemg.kind));
                        assert(label@ =~= kind_text(itemg.kind) + " "@ + itemg.name@);
                    }
                    let mut scope = Report::from_item(entry(Severity::Note, label));
                    let result = search_items(&mut scope, item, new_items, true, &mut pairs, i);
                    let ghost pre_len = scope.children@.len() as int;
                    classify_old(&mut scope, &result, kind_name);
                    proof {
                        assert(result.found_kind == kind_found(itemg, new_items@));
                        assert(spec_subset(result.item_cfg, result.found_cfgs) == avail_covered(
                            itemg,
                            new_items@,
                        )) by {
                            lemma_avail_bridge(result.item_cfg, result.found_cfgs, itemg, new_items@);
                        }
                        assert(classified_at(scope, pre_len, itemg, new_items@));
                        assert(old_scope_claim(scope, itemg, new_items@));
                    }
                    r.attach(scope);
                    proof {
                        lemma_old_claims_carry(r0, *r, base, old_items@, new_items@, i as int);
                        lemma_unhandled_claims_carry(r0, *r, base, old_items@, i as int);
                        let last = r.children@.len() - 1;
                        assert forall|ii: int|
                            0 <= ii < i + 1 && (#[trigger] old_items@[ii]).public && !(
                            old_items@[ii].kind is Unhandled) implies exists|kk: int|
                            base <= kk < r.children@.len() && old_scope_claim(
                                #[trigger] r.children@[kk],
                                old_items@[ii],
                                new_items@,
                            ) by {
                            if ii == i {
                                assert(old_scope_claim(r.children@[last], old_items@[ii], new_items@));
                            }
                        }
                        assert forall|ii: int, jj: int|
                            #![trigger old_items@[ii], new_items@[jj]]
                            0 <= ii < i + 1 && 0 <= jj < new_items@.len()
                                && old_items@[ii].public && old_items@[ii].kind is Mod
                                && matching(old_items@[ii], new_items@[jj])
                                && new_items@[jj].kind is Mod implies exists|kk: int|
                            0 <= kk < pairs@.len() && (#[trigger] pairs@[kk]).0 == ii
                                && pairs@[kk].1 == jj by {
                            if ii < i {
                                let kk = choose|kk: int|
                                    0 <= kk < pairs0.len() && (#[trigger] pairs0[kk]).0 == ii
                                        && pairs0[kk].1 == jj;
                                assert(pairs@[kk].0 == ii && pairs@[kk].1 == jj);
                            }
                        }
                    }
                }
            }
        }
        i += 1;
    }

    // Minor: adding new public items.  Due to glob imports these are
    // technically Breaking, but reporting that would hurt report clarity,
    // so they are deliberately reported as Minor.
    let m = new_items.len();
    let mut j: usize = 0;
    while j < m
        invariant
            j <= m,
            m == new_items@.len(),
            report_extended(*old(r), *r),
            appended_top_level(*old(r), *r),
            forall|k: int|
                0 <= k < pairs@.len() ==> ((#[trigger] pairs@[k]).0 < old_items@.len()
                    && old_items@[(pairs@[k].0) as int].kind is Mod && pairs@[k].1
                    < new_items@.len() && new_items@[(pairs@[k].1) as int].kind is Mod),
            forall|ii: int, jj: int|
                #![trigger old_items@[ii], new_items@[jj]]
                0 <= ii < old_items@.len() && 0 <= jj < new_items@.len()
                    && old_items@[ii].public && old_items@[ii].kind is Mod && matching(
                    old_items@[ii],
                    new_items@[jj],
                ) && new_items@[jj].kind is Mod ==> exists|kk: int|
                    0 <= kk < pairs@.len() && (#[trigger] pairs@[kk]).0 == ii && pairs@[kk].1
                        == jj,
            forall|ii: int|
                0 <= ii < old_items@.len() && (#[trigger] old_items@[ii]).public && !(
                old_items@[ii].kind is Unhandled) ==> exists|kk: int|
                    old(r).children@.len() <= kk < r.children@.len() && old_scope_claim(
                        #[trigger] r.children@[kk],
                        old_items@[ii],
                        new_items@,
                    ),
            forall|ii: int|
                0 <= ii < old_items@.len() && (#[trigger] old_items@[ii]).public
                    && old_items@[ii].kind is Unhandled ==> exists|kk: int|
                    old(r).children@.len() <= kk < r.children@.len() && unhandled_claim(
                        #[trigger] r.children@[kk],
                        old_items@[ii],
                    ),
            forall|jj: int|
                0 <= jj < j && (#[trigger] new_items@[jj]).public && !(new_items@[jj].kind
                    is Unhandled) ==> exists|kk: int|
                    old(r).children@.len() <= kk < r.children@.len() && added_scope_claim(
                        #[trigger] r.children@[kk],
                        new_items@[jj],
                        old_items@,
                    ),
        decreases m - j,
    {
        let ghost r0 = *r;
        let ghost base = old(r).children@.len() as int;
        let item = &new_items[j];
        let ghost itemg = new_items@[j as int];
        if item.public && !matches!(&item.kind, ItemKind::Unhandled(_)) {
            let kind_name = kind_label(&item.kind);
            let mut label: String = kind_name.to_owned();
            label.append(" ");
            label.append(item.name.as_str());
            proof {
                assert(kind_name@ == kind_text(itemg.kind));
                assert(label@ =~= kind_text(itemg.kind) + " "@ + itemg.name@);
            }
            let mut scope = Report::from_item(
                ReportItem { strict: Strictness::Lazy, severity: Severity::Note, text: label },
            );
            let mut ignored: Vec<(usize, usize)> = Vec::new();
            let result = search_items(&mut scope, item, old_items, false, &mut ignored, 0);
            let ghost pre_len = scope.children@.len() as int;
            classify_added(&mut scope, &result);
            proof {
                assert(spec_subset(result.item_cfg, result.found_cfgs) == avail_covered(
                    itemg,
                    old_items@,
                )) by {
                    lemma_avail_bridge(result.item_cfg, result.found_cfgs, itemg, old_items@);
                }
                assert(added_classified_at(scope, pre_len, itemg, old_items@));
                assert(added_scope_claim(scope, itemg, old_items@));
            }
            r.attach(scope);
            proof {
                lemma_old_claims_carry(
                    r0,
                    *r,
                    base,
                    old_items@,
                    new_items@,
                    old_items@.len() as int,
                );
                lemma_unhandled_claims_carry(r0, *r, base, old_items@, old_items@.len() as int);
                lemma_added_claims_carry(r0, *r, base, new_items@, old_items@, j as int);
                let last = r.children@.len() - 1;
                assert forall|jj: int|
                    0 <= jj < j + 1 && (#[trigger] new_items@[jj]).public && !(new_items@[jj].kind
                        is Unhandled) implies exists|kk: int|
                    base <= kk < r.children@.len() && added_scope_claim(
                        #[trigger] r.children@[kk],
                        new_items@[jj],
                        old_items@,
                    ) by {
                    if jj == j {
                        assert(added_scope_claim(r.children@[last], new_items@[jj], old_items@));
                    }
                }
            }
        }
        j += 1;
    }

    // Recurse into the matched child module pairs, each under a nested
    // scope whose predicate becomes the parent context for its members.
    let np = pairs.len();
    let mut k: usize = 0;
    while k < np
        invariant
            k <= np,
            np == pairs@.len(),
            report_extended(*old(r), *r),
            appended_top_level(*old(r), *r),
            forall|kk: int|
                0 <= kk < pairs@.len() ==> ((#[trigger] pairs@[kk]).0 < old_items@.len()
                    && old_items@[(pairs@[kk].0) as int].kind is Mod && pairs@[kk].1
                    < new_items@.len() && new_items@[(pairs@[kk].1) as int].kind is Mod),
            forall|ii: int, jj: int|
                #![trigger old_items@[ii], new_items@[jj]]
                0 <= ii < old_items@.len() && 0 <= jj < new_items@.len()
                    && old_items@[ii].public && old_items@[ii].kind is Mod && matching(
                    old_items@[ii],
                    new_items@[jj],
                ) && new_items@[jj].kind is Mod ==> exists|kk: int|
                    0 <= kk < pairs@.len() && (#[trigger] pairs@[kk]).0 == ii && pairs@[kk].1
                        == jj,
            forall|kk: int|
                0 <= kk < k ==> exists|c: int|
                    old(r).children@.len() <= c < r.children@.len() && mod_pair_claim(
                        #[trigger] r.children@[c],
                        old_items@[((#[trigger] pairs@[kk]).0) as int],
                        new_items@[(pairs@[kk].1) as int],
                    ),
            forall|ii: int|
                0 <= ii < old_items@.len() && (#[trigger] old_items@[ii]).public && !(
                old_items@[ii].kind is Unhandled) ==> exists|kk: int|
                    old(r).children@.len() <= kk < r.children@.len() && old_scope_claim(
                        #[trigger] r.children@[kk],
                        old_items@[ii],
                        new_items@,
                    ),
            forall|ii: int|
                0 <= ii < old_items@.len() && (#[trigger] old_items@[ii]).public
                    && old_items@[ii].kind is Unhandled ==> exists|kk: int|
                    old(r).children@.len() <= kk < r.children@.len() && unhandled_claim(
                        #[trigger] r.children@[kk],
                        old_items@[ii],
                    ),
            forall|jj: int|
                0 <= jj < new_items@.len() && (#[trigger] new_items@[jj]).public && !(
                new_items@[jj].kind is Unhandled) ==> exists|kk: int|
                    old(r).children@.len() <= kk < r.children@.len() && added_scope_claim(
                        #[trigger] r.children@[kk],
                        new_items@[jj],
                        old_items@,
                    ),
        decreases np - k,
    {
        let ghost r0 = *r;
        let ghost base = old(r).children@.len() as int;
        let p = pairs[k];
        let old_item = &old_items[p.0];
        let new_item = &new_items[p.1];
        match (&old_item.kind, &new_item.kind) {
            (ItemKind::Mod(sub_old), ItemKind::Mod(sub_new)) => {
                let mut label: String = "mod ".to_owned();
                label.append(old_item.name.as_str());
                proof {
                    assert(label@ =~= "mod "@ + old_items@[p.0 as int].name@);
                }
                let mut scope = Report::from_item(entry(Severity::Note, label));
                let old_cfg = Config::new(&mut scope, &old_item.attrs);
                old_cfg.report(&mut scope, &Config::True, "");
                let new_cfg = Config::new(&mut scope, &new_item.attrs);
                proof {
                    assert(decreases_to!(old_items@ => old_items@[p.0 as int]));
                    assert(decreases_to!(old_items@[p.0 as int] => old_items@[p.0 as int].kind));
                    assert(decreases_to!(old_items@[p.0 as int].kind => old_items@[p.0 as int].kind->Mod_0));
                    assert(decreases_to!(old_items@[p.0 as int].kind->Mod_0 => old_items@[p.0 as int].kind->Mod_0@));
                }
                if !old_cfg.subset(&new_cfg) {
                    let mut inner = Report::from_item(
                        ReportItem {
                            strict: Strictness::Inherit,
                            severity: Severity::Note,
                            text: text3("Comparing with ", &new_cfg.render(), ""),
                        },
                    );
                    let ghost inner0 = inner;
                    compare_mods(&mut inner, sub_old, sub_new);
                    proof {
                        lemma_findings_from_compared(inner0, inner, sub_old@, sub_new@);
                    }
                    scope.attach(inner);
                    proof {
                        let ci = scope.children@.len() - 1;
                        assert(scope.children@[ci].item.strict == Strictness::Inherit
                            && module_findings(
                            scope.children@[ci],
                            old_items@[p.0 as int].kind->Mod_0@,
                            new_items@[p.1 as int].kind->Mod_0@,
                        ));
                    }
                } else {
                    let ghost scope_pre = scope;
                    compare_mods(&mut scope, sub_old, sub_new);
                    proof {
                        lemma_findings_from_compared(scope_pre, scope, sub_old@, sub_new@);
                    }
                }
                proof {
                    assert(mod_pair_claim(
                        scope,
                        old_items@[p.0 as int],
                        new_items@[p.1 as int],
                    ));
                }
                r.attach(scope);
                proof {
                    lemma_old_claims_carry(
                        r0,
                        *r,
                        base,
                        old_items@,
                        new_items@,
                        old_items@.len() as int,
                    );
                    lemma_unhandled_claims_carry(r0, *r, base, old_items@, old_items@.len() as int);
                    lemma_added_claims_carry(
                        r0,
                        *r,
                        base,
                        new_items@,
                        old_items@,
                        new_items@.len() as int,
                    );
                    let last = r.children@.len() - 1;
                    assert forall|kk: int|
                        0 <= kk < k + 1 implies exists|c: int|
                        base <= c < r.children@.len() && mod_pair_claim(
                            #[trigger] r.children@[c],
                            old_items@[((#[trigger] pairs@[kk]).0) as int],
                            new_items@[(pairs@[kk].1) as int],
                        ) by {
                        if kk == k {
                            assert(mod_pair_claim(
                                r.children@[last],
                                old_items@[(pairs@[kk].0) as int],
                                new_items@[(pairs@[kk].1) as int],
                            ));
                        } else {
                            let c = choose|c: int|
                                base <= c < r0.children@.len() && mod_pair_claim(
                                    #[trigger] r0.children@[c],
                                    old_items@[(pairs@[kk].0) as int],
                                    new_items@[(pairs@[kk].1) as int],
                                );
                            assert(mod_pair_claim(
                                r.children@[c],
                                old_items@[(pairs@[kk].0) as int],
                                new_items@[(pairs@[kk].1) as int],
                            ));
                        }
                    }
                }
            }
            _ => {}
        }
        k += 1;
    }
    proof {
        assert forall|i2: int, j2: int|
            #![trigger old_items@[i2], new_items@[j2]]
            0 <= i2 < old_items@.len() && 0 <= j2 < new_items@.len() && old_items@[i2].public
                && old_items@[i2].kind is Mod && matching(old_items@[i2], new_items@[j2])
                && new_items@[j2].kind is Mod implies exists|c: int|
            old(r).children@.len() <= c < r.children@.len() && mod_pair_claim(
                #[trigger] r.children@[c],
                old_items@[i2],
                new_items@[j2],
            ) by {
            let kk = choose|kk: int|
                0 <= kk < pairs@.len() && (#[trigger] pairs@[kk]).0 == i2 && pairs@[kk].1 == j2;
            let c = choose|c: int|
                old(r).children@.len() <= c < r.children@.len() && mod_pair_claim(
                    #[trigger] r.children@[c],
                    old_items@[(pairs@[kk].0) as int],
                    new_items@[(pairs@[kk].1) as int],
                );
            assert(mod_pair_claim(r.children@[c], old_items@[i2], new_items@[j2]));
        }
    }
}

/// Whether every valid assignment accepted by the first attribute list is
/// accepted by the second.
pub open spec fn attrs_entails(a1: Seq<Meta>, a2: Seq<Meta>) -> bool {
    forall|v: Set<Var>| valid(v) && #[trigger] attrs_sat(a1, v) ==> attrs_sat(a2, v)
}

/// The two whole-library predicates a coverage entry cites: each is the
/// parse of its side's attributes, or the always-true sentinel when there
/// are none.
pub open spec fn crate_cited_cfgs(oldc: Crate, newc: Crate, oc: Config, nc: Config) -> bool {
    &&& attrs_trivial(oldc.attrs@) ==> oc == Config::True
    &&& !attrs_trivial(oldc.attrs@) ==> crate::cfg::attrs_parse_to(oldc.attrs@, oc)
    &&& attrs_trivial(newc.attrs@) ==> nc == Config::True
    &&& !attrs_trivial(newc.attrs@) ==> crate::cfg::attrs_parse_to(newc.attrs@, nc)
}

/// Generate a report on the changes between two versions of a library:
/// first the whole-library availability comparison, then the module tree.
///
/// A Major coverage entry is recorded when the old library was available
/// somewhere the new one is not; when the new one is merely available in
/// more places, the entry is Minor; when each predicate entails the
/// other, no coverage entry is recorded at all.
pub fn compare_crates(r: &mut Report, old_crate: &Crate, new_crate: &Crate)
    ensures
        report_extended(*old(r), *final(r)),
        mods_compared(*old(r), *final(r), old_crate.items@, new_crate.items@),
        !attrs_entails(old_crate.attrs@, new_crate.attrs@) ==> exists|oc: Config, nc: Config, k: int|
            #![trigger cfg_text(oc), cfg_text(nc), final(r).children@[k]]
            crate_cited_cfgs(*old_crate, *new_crate, oc, nc) && old(r).children@.len() <= k
                < final(r).children@.len() && is_leaf_entry(
                final(r).children@[k],
                Severity::Major,
                "New crate reduces #[cfg] coverage\n  Was: "@ + cfg_text(oc) + "\n  Now: "@
                    + cfg_text(nc),
            ) && (forall|k2: int|
                old(r).children@.len() <= k2 < final(r).children@.len() && k2 != k
                    ==> (#[trigger] final(r).children@[k2]).item.severity != Severity::Major
                    && final(r).children@[k2].item.severity != Severity::Minor),
        attrs_entails(old_crate.attrs@, new_crate.attrs@) && !attrs_entails(
            new_crate.attrs@,
            old_crate.attrs@,
        ) ==> exists|oc: Config, nc: Config, k: int|
            #![trigger cfg_text(oc), cfg_text(nc), final(r).children@[k]]
            crate_cited_cfgs(*old_crate, *new_crate, oc, nc) && old(r).children@.len() <= k
                < final(r).children@.len() && is_leaf_entry(
                final(r).children@[k],
                Severity::Minor,
                "New crate increases #[cfg] coverage\n  Was: "@ + cfg_text(oc) + "\n  Now: "@
                    + cfg_text(nc),
            ) && (forall|k2: int|
                old(r).children@.len() <= k2 < final(r).children@.len() && k2 != k
                    ==> (#[trigger] final(r).children@[k2]).item.severity != Severity::Major
                    && final(r).children@[k2].item.severity != Severity::Minor),
        attrs_entails(old_crate.attrs@, new_crate.attrs@) && attrs_entails(
            new_crate.attrs@,
            old_crate.attrs@,
        ) ==> forall|k: int|
            old(r).children@.len() <= k < final(r).children@.len()
                ==> (#[trigger] final(r).children@[k]).item.severity != Severity::Major
                && final(r).children@[k].item.severity != Severity::Minor,
{
    let ghost base = old(r).children@.len() as int;
    let old_config = Config::new(r, &old_crate.attrs);
    let new_config = Config::new(r, &new_crate.attrs);
    proof {
        assert(spec_subset(old_config, new_config) == attrs_entails(
            old_crate.attrs@,
            new_crate.attrs@,
        )) by {
            if spec_subset(old_config, new_config) {
                assert forall|v: Set<Var>|
                    valid(v) && #[trigger] attrs_sat(old_crate.attrs@, v) implies attrs_sat(
                    new_crate.attrs@,
                    v,
                ) by {
                    assert(sat(old_config, v));
                    assert(sat(new_config, v));
                }
            }
            if attrs_entails(old_crate.attrs@, new_crate.attrs@) {
                assert forall|v: Set<Var>|
                    valid(v) && #[trigger] sat(old_config, v) implies sat(new_config, v) by {
                    assert(attrs_sat(old_crate.attrs@, v));
                    assert(attrs_sat(new_crate.attrs@, v));
                }
            }
        }
        assert(spec_subset(new_config, old_config) == attrs_entails(
            new_crate.attrs@,
            old_crate.attrs@,
        )) by {
            if spec_subset(new_config, old_config) {
                assert forall|v: Set<Var>|
                    valid(v) && #[trigger] attrs_sat(new_crate.attrs@, v) implies attrs_sat(
                    old_crate.attrs@,
                    v,
                ) by {
                    assert(sat(new_config, v));
                    assert(sat(old_config, v));
                }
            }
            if attrs_entails(new_crate.attrs@, old_crate.attrs@) {
                assert forall|v: Set<Var>|
                    valid(v) && #[trigger] sat(new_config, v) implies sat(old_config, v) by {
                    assert(attrs_sat(new_crate.attrs@, v));
                    assert(attrs_sat(old_crate.attrs@, v));
                }
            }
        }
    }
    let ghost rp = *r;
    if !old_config.subset(&new_config) {
        let mut t: String = "New crate reduces #[cfg] coverage\n  Was: ".to_owned();
        t.append(old_config.render().as_str());
        t.append("\n  Now: ");
        t.append(new_config.render().as_str());
        proof {
            assert(t@ =~= "New crate reduces #[cfg] coverage\n  Was: "@ + cfg_text(old_config)
                + "\n  Now: "@ + cfg_text(new_config));
        }
        r.push(entry(Severity::Major, t));
    } else if !new_config.subset(&old_config) {
        let mut t: String = "New crate increases #[cfg] coverage\n  Was: ".to_owned();
        t.append(old_config.render().as_str());
        t.append("\n  Now: ");
        t.append(new_config.render().as_str());
        proof {
            assert(t@ =~= "New crate increases #[cfg] coverage\n  Was: "@ + cfg_text(old_config)
                + "\n  Now: "@ + cfg_text(new_config));
        }
        r.push(entry(Severity::Minor, t));
    }
    let ghost r1 = *r;
    compare_mods(r, &old_crate.items, &new_crate.items);
    proof {
        assert(crate_cited_cfgs(*old_crate, *new_crate, old_config, new_config));
        // everything appended besides the coverage entry is a parse error
        // or a top-level scope, warning or error of the module comparison
        assert forall|k2: int|
            base <= k2 < r.children@.len() && !(rp.children@.len() <= k2 < r1.children@.len())
                implies (#[trigger] r.children@[k2]).item.severity != Severity::Major
            && r.children@[k2].item.severity != Severity::Minor by {
            if k2 < rp.children@.len() {
                assert(r.children@[k2] == rp.children@[k2]);
                assert(rp.children@[k2].item.severity == Severity::Error);
            } else {
                assert(r.children@[k2].item.severity == Severity::Note || r.children@[k2].item.severity
                    == Severity::Warning || r.children@[k2].item.severity == Severity::Error);
            }
        }
        if !attrs_entails(old_crate.attrs@, new_crate.attrs@) {
            let idx = r1.children@.len() - 1;
            assert(r.children@[idx] == r1.children@[idx]);
            assert(is_leaf_entry(
                r.children@[idx],
                Severity::Major,
                "New crate reduces #[cfg] coverage\n  Was: "@ + cfg_text(old_config)
                    + "\n  Now: "@ + cfg_text(new_config),
            ));
            assert(base <= idx < r.children@.len());
            assert(rp.children@.len() <= idx < r1.children@.len());
        } else if !attrs_entails(new_crate.attrs@, old_crate.attrs@) {
            let idx = r1.children@.len() - 1;
            assert(r.children@[idx] == r1.children@[idx]);
            assert(is_leaf_entry(
                r.children@[idx],
                Severity::Minor,
                "New crate increases #[cfg] coverage\n  Was: "@ + cfg_text(old_config)
                    + "\n  Now: "@ + cfg_text(new_config),
            ));
            assert(base <= idx < r.children@.len());
            assert(rp.children@.len() <= idx < r1.children@.len());
        } else {
            assert(r1.children@.len() == rp.children@.len());
        }
    }
}

} // verus!
