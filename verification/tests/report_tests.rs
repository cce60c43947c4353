//! Tests for the report tree: severity aggregation and pruning.
use semcmp::report::{severity_level, Report, ReportItem, Severity, Strictness};
use semcmp::utils::Indent;

fn item(strict: Strictness, severity: Severity, text: &str) -> ReportItem {
    ReportItem { strict, severity, text: String::from(text) }
}

fn leaf(strict: Strictness, severity: Severity, text: &str) -> Report {
    Report::from_item(item(strict, severity, text))
}

#[test]
fn new_report_is_a_strict_note() {
    let r = Report::new();
    assert_eq!(r.item.strict, Strictness::Strict);
    assert_eq!(r.item.severity, Severity::Note);
    assert_eq!(r.item.text, "library root");
    assert!(r.children.is_empty());
}

#[test]
fn push_appends_a_childless_node() {
    let mut r = Report::new();
    r.push(item(Strictness::Strict, Severity::Major, "removed"));
    assert_eq!(r.children.len(), 1);
    assert_eq!(r.children[0].item.text, "removed");
    assert!(r.children[0].children.is_empty());
}

#[test]
fn severity_order() {
    let all = [
        Severity::Debug,
        Severity::Note,
        Severity::Minor,
        Severity::Warning,
        Severity::Breaking,
        Severity::Major,
        Severity::Error,
    ];
    for w in all.windows(2) {
        assert!(severity_level(w[0]) < severity_level(w[1]));
    }
}

#[test]
fn highest_severity_takes_the_maximum_of_node_and_children() {
    let mut r = Report::new();
    r.push(item(Strictness::Strict, Severity::Minor, "a"));
    let mut sub = leaf(Strictness::Strict, Severity::Note, "scope");
    sub.push(item(Strictness::Strict, Severity::Major, "b"));
    r.attach(sub);
    assert_eq!(r.highest_severity(), Severity::Major);

    // the node's own severity counts too
    let own = leaf(Strictness::Strict, Severity::Error, "bad root");
    assert_eq!(own.highest_severity(), Severity::Error);
    let mut own2 = leaf(Strictness::Strict, Severity::Error, "bad root");
    own2.push(item(Strictness::Strict, Severity::Note, "fine"));
    assert_eq!(own2.highest_severity(), Severity::Error);
}

#[test]
fn strip_lazy_deletes_an_empty_lazy_scope() {
    let mut r = Report::new();
    r.attach(leaf(Strictness::Lazy, Severity::Note, "fn quiet"));
    r.attach(leaf(Strictness::Strict, Severity::Major, "removed"));
    let del = r.strip_lazy();
    assert!(!del);
    assert_eq!(r.children.len(), 1);
    assert_eq!(r.children[0].item.text, "removed");
}

#[test]
fn strip_lazy_keeps_a_lazy_scope_with_a_strict_descendant() {
    let mut r = Report::new();
    let mut lazy = leaf(Strictness::Lazy, Severity::Note, "fn busy");
    let mut inherit = leaf(Strictness::Inherit, Severity::Note, "Comparing with ...");
    inherit.push(item(Strictness::Strict, Severity::Minor, "added"));
    lazy.attach(inherit);
    r.attach(lazy);
    let del = r.strip_lazy();
    assert!(!del);
    assert_eq!(r.children.len(), 1);
    assert_eq!(r.children[0].item.text, "fn busy");
    assert_eq!(r.children[0].children.len(), 1);
    assert_eq!(r.children[0].children[0].children.len(), 1);
}

#[test]
fn strip_lazy_recurses_into_kept_scopes() {
    let mut r = Report::new();
    let mut strict = leaf(Strictness::Strict, Severity::Note, "mod m");
    strict.attach(leaf(Strictness::Lazy, Severity::Note, "fn quiet"));
    strict.push(item(Strictness::Strict, Severity::Major, "removed"));
    r.attach(strict);
    let del = r.strip_lazy();
    assert!(!del);
    assert_eq!(r.children.len(), 1);
    assert_eq!(r.children[0].children.len(), 1);
    assert_eq!(r.children[0].children[0].item.text, "removed");
}

#[test]
fn strip_lazy_reports_a_lazy_root_deletable() {
    let mut lazy = leaf(Strictness::Lazy, Severity::Note, "scope");
    lazy.attach(leaf(Strictness::Inherit, Severity::Note, "inner"));
    assert!(lazy.strip_lazy());

    let mut strict = leaf(Strictness::Strict, Severity::Note, "scope");
    assert!(!strict.strip_lazy());

    let mut inherit = leaf(Strictness::Inherit, Severity::Note, "scope");
    assert!(!inherit.strip_lazy());
}

#[test]
fn indent_steps_one_level() {
    let i = Indent::new();
    assert_eq!(i.0, 0);
    assert_eq!(i.next().0, 1);
    assert_eq!(i.next().next().0, 2);
}
