//! Tests for the diff engine, end to end through `create_report`.
use semcmp::cfg::Meta;
use semcmp::compare::{compare_crates, Crate, FnSig, Item, ItemKind, Mutability};
use semcmp::create_report;
use semcmp::report::{Report, Severity};

fn cfg_attr(inner: Meta) -> Meta {
    Meta::List(String::from("cfg"), vec![inner])
}

fn plain_fn(name: &str) -> Item {
    Item {
        name: String::from(name),
        public: true,
        attrs: vec![],
        kind: ItemKind::Fn(FnSig {
            is_unsafe: false,
            is_const: false,
            abi: String::from("Rust"),
            variadic: false,
        }),
    }
}

fn plain_const(name: &str, ty: &str, attrs: Vec<Meta>) -> Item {
    Item {
        name: String::from(name),
        public: true,
        attrs,
        kind: ItemKind::Const(String::from(ty)),
    }
}

fn krate(items: Vec<Item>) -> Crate {
    Crate { attrs: vec![], items }
}

/// Every entry in the tree whose text equals `text`.
fn count_entries(r: &Report, text: &str) -> usize {
    let mut n = if r.item.text == text { 1 } else { 0 };
    for c in &r.children {
        n += count_entries(c, text);
    }
    n
}

/// Every entry in the tree whose text contains the scope label.
fn count_containing(r: &Report, needle: &str) -> usize {
    let mut n = if r.item.text.contains(needle) { 1 } else { 0 };
    for c in &r.children {
        n += count_containing(c, needle);
    }
    n
}

#[test]
fn removed_function_gets_one_major_entry() {
    let old = krate(vec![plain_fn("gone")]);
    let new = krate(vec![]);
    let report = create_report(Some(&old), Some(&new), "old.rs", "new.rs");
    // one scope for the old declaration, with exactly the "removed" finding
    assert_eq!(count_containing(&report, "gone"), 1);
    assert_eq!(report.children.len(), 1);
    assert_eq!(report.children[0].item.text, "fn gone");
    assert_eq!(report.children[0].children.len(), 1);
    assert_eq!(report.children[0].children[0].item.text, "removed");
    assert_eq!(report.children[0].children[0].item.severity, Severity::Major);
    assert_eq!(report.highest_severity(), Severity::Major);
}

#[test]
fn narrowed_constant_cites_both_predicates() {
    let old = krate(vec![plain_const("K", "i32", vec![])]);
    let new = krate(vec![plain_const(
        "K",
        "i32",
        vec![cfg_attr(Meta::NameValue(String::from("feature"), String::from("x")))],
    )]);
    let report = create_report(Some(&old), Some(&new), "old.rs", "new.rs");
    let expected =
        "availability narrowed:\n  Was: always available\n  Now: #[cfg(feature=\"x\")]";
    assert_eq!(count_entries(&report, expected), 1);
    assert_eq!(report.highest_severity(), Severity::Major);
}

#[test]
fn added_function_gets_one_minor_entry() {
    let old = krate(vec![plain_fn("stays")]);
    let new = krate(vec![plain_fn("stays"), plain_fn("brand_new")]);
    let report = create_report(Some(&old), Some(&new), "old.rs", "new.rs");
    // exactly one scope mentions the new name, from the additions pass
    assert_eq!(count_containing(&report, "brand_new"), 1);
    assert_eq!(count_entries(&report, "added"), 1);
    // the unchanged declaration keeps its old-pass scope with the nested
    // signature note, but its additions-pass lazy scope was pruned away
    assert_eq!(count_containing(&report, "stays"), 2);
    assert!(report.children.iter().all(|c| c.item.text != "fn stays"
        || c.children.iter().all(|g| g.item.text != "added")));
    assert_eq!(report.highest_severity(), Severity::Minor);
    // the entry sits under the "fn brand_new" scope
    let scope = report
        .children
        .iter()
        .find(|c| c.item.text == "fn brand_new")
        .expect("scope for the added fn");
    assert_eq!(scope.children.len(), 1);
    assert_eq!(scope.children[0].item.severity, Severity::Minor);
}

#[test]
fn made_private_and_made_public() {
    let mut hidden = plain_fn("f");
    hidden.public = false;
    let old = krate(vec![plain_fn("f")]);
    let new = krate(vec![hidden]);
    let report = create_report(Some(&old), Some(&new), "old.rs", "new.rs");
    assert_eq!(count_entries(&report, "made private"), 1);

    let mut hidden2 = plain_fn("g");
    hidden2.public = false;
    let old2 = krate(vec![hidden2]);
    let new2 = krate(vec![plain_fn("g")]);
    let report2 = create_report(Some(&old2), Some(&new2), "old.rs", "new.rs");
    assert_eq!(count_entries(&report2, "made public"), 1);
}

#[test]
fn const_replaced_by_static() {
    let old = krate(vec![plain_const("K", "i32", vec![])]);
    let new = krate(vec![Item {
        name: String::from("K"),
        public: true,
        attrs: vec![],
        kind: ItemKind::Static(String::from("i32"), Mutability::Mutable),
    }]);
    let report = create_report(Some(&old), Some(&new), "old.rs", "new.rs");
    assert_eq!(count_entries(&report, "const K replaced by static mut"), 1);
    assert_eq!(report.highest_severity(), Severity::Major);

    let new2 = krate(vec![Item {
        name: String::from("K"),
        public: true,
        attrs: vec![],
        kind: ItemKind::Static(String::from("u64"), Mutability::Immutable),
    }]);
    let old2 = krate(vec![plain_const("K", "i32", vec![])]);
    let report2 = create_report(Some(&old2), Some(&new2), "old.rs", "new.rs");
    assert_eq!(count_entries(&report2, "const K replaced by static"), 1);
    assert_eq!(
        count_entries(&report2, "const K's type has changed:\n  Was: i32\n  Now: u64"),
        1
    );
}

#[test]
fn function_qualifier_changes_are_major() {
    let mut old_f = plain_fn("f");
    if let ItemKind::Fn(ref mut sig) = old_f.kind {
        sig.is_unsafe = false;
        sig.is_const = true;
    }
    let mut new_f = plain_fn("f");
    if let ItemKind::Fn(ref mut sig) = new_f.kind {
        sig.is_unsafe = true;
        sig.is_const = false;
    }
    let report =
        create_report(Some(&krate(vec![old_f])), Some(&krate(vec![new_f])), "old.rs", "new.rs");
    assert_eq!(count_entries(&report, "const qualifier removed"), 1);
    assert_eq!(
        count_entries(&report, "unsafety has changed:\n  Was: normal\n  Now: unsafe"),
        1
    );
    assert_eq!(report.highest_severity(), Severity::Major);
}

#[test]
fn unhandled_kinds_are_reported_as_warnings() {
    let old = krate(vec![Item {
        name: String::from("Thing"),
        public: true,
        attrs: vec![],
        kind: ItemKind::Unhandled(String::from("struct")),
    }]);
    let new = krate(vec![]);
    let report = create_report(Some(&old), Some(&new), "old.rs", "new.rs");
    assert_eq!(count_entries(&report, "Unhandled: struct Thing"), 1);
    assert_eq!(report.highest_severity(), Severity::Warning);
}

#[test]
fn kind_change_is_no_longer_that_kind() {
    let old = krate(vec![plain_fn("f")]);
    let new = krate(vec![plain_const("f", "i32", vec![])]);
    let report = create_report(Some(&old), Some(&new), "old.rs", "new.rs");
    assert_eq!(count_entries(&report, "no longer a fn"), 1);
    assert_eq!(report.highest_severity(), Severity::Major);
}

#[test]
fn modules_are_compared_recursively() {
    let old = krate(vec![Item {
        name: String::from("inner"),
        public: true,
        attrs: vec![],
        kind: ItemKind::Mod(vec![plain_fn("deep")]),
    }]);
    let new = krate(vec![Item {
        name: String::from("inner"),
        public: true,
        attrs: vec![],
        kind: ItemKind::Mod(vec![]),
    }]);
    let report = create_report(Some(&old), Some(&new), "old.rs", "new.rs");
    assert_eq!(count_entries(&report, "removed"), 1);
    assert_eq!(count_entries(&report, "fn deep"), 1);
    assert_eq!(report.highest_severity(), Severity::Major);
}

#[test]
fn crate_coverage_changes_are_classified() {
    let feature_gated = || {
        vec![cfg_attr(Meta::NameValue(String::from("feature"), String::from("a")))]
    };
    let old = Crate { attrs: feature_gated(), items: vec![] };
    let new = Crate { attrs: vec![], items: vec![] };
    let mut r = Report::new();
    compare_crates(&mut r, &old, &new);
    assert_eq!(r.children.len(), 1);
    assert_eq!(r.children[0].item.severity, Severity::Minor);
    assert!(r.children[0].item.text.starts_with("New crate increases #[cfg] coverage"));

    let old2 = Crate { attrs: vec![], items: vec![] };
    let new2 = Crate { attrs: feature_gated(), items: vec![] };
    let mut r2 = Report::new();
    compare_crates(&mut r2, &old2, &new2);
    assert_eq!(r2.children.len(), 1);
    assert_eq!(r2.children[0].item.severity, Severity::Major);
    assert!(r2.children[0].item.text.starts_with("New crate reduces #[cfg] coverage"));
}

#[test]
fn widened_availability_keeps_the_comparing_note() {
    let old = krate(vec![plain_const(
        "K",
        "i32",
        vec![cfg_attr(Meta::NameValue(String::from("feature"), String::from("x")))],
    )]);
    let new = krate(vec![plain_const("K", "i32", vec![])]);
    let report = create_report(Some(&old), Some(&new), "old.rs", "new.rs");
    // the additions pass keeps its per-candidate context note beside the
    // Minor finding, as the old-declarations pass does
    let scope = report
        .children
        .iter()
        .find(|c| c.item.text == "const K" && !c.children.is_empty()
            && c.children[0].item.text.starts_with("Comparing with "))
        .expect("addition scope with the context note");
    assert_eq!(scope.children.len(), 2);
    assert_eq!(scope.children[0].item.text, "Comparing with #[cfg(feature=\"x\")]");
    assert_eq!(
        scope.children[1].item.text,
        "availability widened:\n  Was: #[cfg(feature=\"x\")]\n  Now: always available"
    );
    assert_eq!(scope.children[1].item.severity, Severity::Minor);
}

#[test]
fn loader_failures_become_error_entries() {
    let loaded = krate(vec![]);
    let report = create_report(None, Some(&loaded), "missing.rs", "new.rs");
    assert_eq!(count_entries(&report, "Failed to read crate at missing.rs"), 1);
    assert_eq!(report.highest_severity(), Severity::Error);

    let report2 = create_report(None, None, "a.rs", "b.rs");
    assert_eq!(count_entries(&report2, "Failed to read crate at a.rs"), 1);
    assert_eq!(count_entries(&report2, "Failed to read crate at b.rs"), 1);

    let report3 = create_report(Some(&loaded), Some(&krate(vec![])), "a.rs", "b.rs");
    assert_eq!(count_containing(&report3, "Failed to read"), 0);
}

#[test]
fn variadic_function_is_an_error() {
    let mut f = plain_fn("printfish");
    if let ItemKind::Fn(ref mut sig) = f.kind {
        sig.variadic = true;
    }
    let report = create_report(
        Some(&krate(vec![f])),
        Some(&krate(vec![plain_fn("printfish")])),
        "old.rs",
        "new.rs",
    );
    assert_eq!(count_entries(&report, "non-foreign fn printfish is variadic"), 1);
    assert_eq!(report.highest_severity(), Severity::Error);
}
