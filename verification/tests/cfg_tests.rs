//! Tests for the predicate algebra.
use semcmp::cfg::{Config, Meta};
use semcmp::report::{Report, ReportItem, Severity, Strictness};

fn root() -> Report {
    Report::from_item(ReportItem {
        strict: Strictness::Strict,
        severity: Severity::Note,
        text: String::from("test root"),
    })
}

fn flag(n: &str) -> Config {
    Config::Flag(String::from(n))
}

fn feature(n: &str) -> Config {
    Config::Feature(String::from(n))
}

fn prop(k: &str, v: &str) -> Config {
    Config::TargetProperty(String::from(k), String::from(v))
}

#[test]
fn oh_boy_here_we_go() {
    // #[cfg(arbitrary)] and #[cfg(unix)] might intersect!
    // without knowing the meaning of "arbitrary", it can't be said for sure
    assert!(Config::Flag("arbitrary".into())
        .intersects(&Config::TargetProperty("target_family".into(), "unix".into())));

    assert!(!Config::TargetProperty("target_os".into(), "linux".into())
        .intersects(&Config::TargetProperty("target_os".into(), "windows".into())));
    assert!(Config::Feature("one".into()).subset(&Config::Feature("one".into())));
    assert!(!Config::Feature("two".into()).subset(&Config::Feature("one".into())));
}

#[test]
fn subset_is_reflexive_on_samples() {
    assert!(flag("foo").subset(&flag("foo")));
    assert!(Config::True.subset(&Config::True));
    assert!(Config::False.subset(&Config::False));
    let composite = Config::All(vec![
        Config::Any(vec![feature("a"), prop("target_family", "unix")]),
        Config::Not(Box::new(flag("b"))),
    ]);
    let same = Config::All(vec![
        Config::Any(vec![feature("a"), prop("target_family", "unix")]),
        Config::Not(Box::new(flag("b"))),
    ]);
    assert!(composite.subset(&same));
}

#[test]
fn subset_is_transitive_on_samples() {
    let a = Config::All(vec![feature("x"), flag("y")]);
    let b = feature("x");
    let c = Config::Any(vec![feature("x"), flag("z")]);
    assert!(a.subset(&b));
    assert!(b.subset(&c));
    assert!(a.subset(&c));
}

#[test]
fn subset_scenarios() {
    assert!(flag("foo").subset(&flag("foo")));
    assert!(!flag("two").subset(&flag("one")));
}

#[test]
fn equivalent_matches_mutual_subset() {
    let samples = |i: usize| -> Config {
        match i {
            0 => flag("a"),
            1 => Config::Any(vec![flag("a"), feature("b")]),
            2 => Config::All(vec![flag("a"), feature("b")]),
            3 => Config::True,
            4 => Config::False,
            _ => Config::Not(Box::new(flag("a"))),
        }
    };
    for i in 0..6 {
        for j in 0..6 {
            let eq = samples(i).equivalent(&samples(j));
            let fwd = samples(i).subset(&samples(j));
            let back = samples(j).subset(&samples(i));
            assert_eq!(eq, fwd && back);
        }
    }
}

#[test]
fn universal_and_never_shortcuts() {
    // Universal.subset(X) == X.equivalent(Universal)
    // X.subset(Never) == X.equivalent(Never)
    let samples = |i: usize| -> Config {
        match i {
            0 => flag("a"),
            1 => Config::Any(vec![Config::True, Config::False]),
            2 => Config::All(vec![]),
            3 => Config::True,
            4 => Config::False,
            _ => Config::Any(vec![]),
        }
    };
    for i in 0..6 {
        assert_eq!(
            Config::True.subset(&samples(i)),
            samples(i).equivalent(&Config::True),
            "universal case {}",
            i
        );
        assert_eq!(
            samples(i).subset(&Config::False),
            samples(i).equivalent(&Config::False),
            "never case {}",
            i
        );
    }
}

#[test]
fn subset_does_not_shortcut_on_universal_left() {
    // any(__true, __false) is semantically universal without being the
    // literal sentinel
    let semantically_universal = Config::Any(vec![Config::True, Config::False]);
    assert!(Config::True.subset(&semantically_universal));
    assert!(semantically_universal.subset(&Config::True));
}

#[test]
fn union_accepts_what_either_side_did() {
    let mut u = feature("x");
    u.union(flag("y"));
    assert!(feature("x").subset(&u));
    assert!(flag("y").subset(&u));
    assert!(u.subset(&Config::Any(vec![feature("x"), flag("y")])));
    assert!(u.equivalent(&Config::Any(vec![feature("x"), flag("y")])));
}

#[test]
fn union_flattens_any_lists() {
    let mut u = Config::Any(vec![flag("a"), flag("b")]);
    u.union(Config::Any(vec![flag("c"), flag("d")]));
    assert_eq!(u.render(), "#[cfg(any(a, b, c, d))]");

    let mut v = Config::Any(vec![flag("a")]);
    v.union(flag("b"));
    assert_eq!(v.render(), "#[cfg(any(a, b))]");

    let mut w = flag("a");
    w.union(Config::Any(vec![flag("b")]));
    assert_eq!(w.render(), "#[cfg(any(b, a))]");
}

#[test]
fn simplify_preserves_meaning_and_is_idempotent() {
    let build = || {
        Config::All(vec![
            Config::True,
            Config::Any(vec![Config::False, flag("a")]),
            Config::True,
        ])
    };
    let mut x = build();
    x.simplify();
    assert!(x.equivalent(&build()));
    assert_eq!(x.render(), "#[cfg(a)]");
    let once = x.render();
    x.simplify();
    assert_eq!(x.render(), once);
}

#[test]
fn simplify_collapses_sentinels() {
    let mut x = Config::Not(Box::new(Config::All(vec![])));
    x.simplify();
    assert_eq!(x.render(), "never available");

    let mut y = Config::Any(vec![Config::False, Config::False]);
    y.simplify();
    assert_eq!(y.render(), "never available");

    let mut z = Config::All(vec![Config::True, Config::True]);
    z.simplify();
    assert_eq!(z.render(), "always available");

    // a never-true entry under all(..) is kept, as is nesting
    let mut k = Config::All(vec![Config::False, flag("a")]);
    k.simplify();
    assert_eq!(k.render(), "#[cfg(all(__false, a))]");
}

#[test]
fn render_formats() {
    assert_eq!(Config::True.render(), "always available");
    assert_eq!(Config::False.render(), "never available");
    assert_eq!(prop("target_os", "linux").render(), "#[cfg(target_os=\"linux\")]");
    assert_eq!(feature("x").render(), "#[cfg(feature=\"x\")]");
    assert_eq!(
        Config::Not(Box::new(Config::All(vec![flag("a"), flag("b")]))).render(),
        "#[cfg(not(all(a, b)))]"
    );
}

fn cfg_attr(inner: Meta) -> Meta {
    Meta::List(String::from("cfg"), vec![inner])
}

#[test]
fn new_without_cfg_attrs_is_universal() {
    let mut r = root();
    let c = Config::new(&mut r, &vec![Meta::Word(String::from("inline"))]);
    assert_eq!(c.render(), "always available");
    assert_eq!(r.children.len(), 0);
}

#[test]
fn new_parses_words() {
    let mut r = root();
    let c = cfg_attr(Meta::Word(String::from("unix")));
    let parsed = Config::new(&mut r, &vec![c]);
    assert!(parsed.equivalent(&prop("target_family", "unix")));
    let c2 = cfg_attr(Meta::Word(String::from("windows")));
    let parsed2 = Config::new(&mut r, &vec![c2]);
    assert!(parsed2.equivalent(&prop("target_family", "windows")));
    let c3 = cfg_attr(Meta::Word(String::from("anything_else")));
    let parsed3 = Config::new(&mut r, &vec![c3]);
    assert!(parsed3.equivalent(&flag("anything_else")));
    assert_eq!(r.children.len(), 0);
}

#[test]
fn new_parses_name_values() {
    let mut r = root();
    let feat = cfg_attr(Meta::NameValue(String::from("feature"), String::from("serde")));
    assert!(Config::new(&mut r, &vec![feat]).equivalent(&feature("serde")));
    let os = cfg_attr(Meta::NameValue(String::from("target_os"), String::from("linux")));
    assert!(Config::new(&mut r, &vec![os]).equivalent(&prop("target_os", "linux")));
    let atomic = cfg_attr(Meta::NameValue(String::from("target_has_atomic"), String::from("8")));
    assert!(Config::new(&mut r, &vec![atomic]).equivalent(&flag("target_has_atomic=\"8\"")));
    assert_eq!(r.children.len(), 0);
}

#[test]
fn new_parses_combinators() {
    let mut r = root();
    let c = cfg_attr(Meta::List(
        String::from("all"),
        vec![
            Meta::Word(String::from("unix")),
            Meta::List(String::from("not"), vec![Meta::NameValue(
                String::from("feature"),
                String::from("x"),
            )]),
        ],
    ));
    let parsed = Config::new(&mut r, &vec![c]);
    let expected = Config::All(vec![
        prop("target_family", "unix"),
        Config::Not(Box::new(feature("x"))),
    ]);
    assert!(parsed.equivalent(&expected));
    assert_eq!(r.children.len(), 0);
}

#[test]
fn multiple_cfg_attrs_conjoin() {
    let mut r = root();
    let attrs = vec![
        cfg_attr(Meta::Word(String::from("unix"))),
        Meta::Word(String::from("inline")),
        cfg_attr(Meta::NameValue(String::from("feature"), String::from("x"))),
    ];
    let parsed = Config::new(&mut r, &attrs);
    let expected = Config::All(vec![prop("target_family", "unix"), feature("x")]);
    assert!(parsed.equivalent(&expected));
}

#[test]
fn malformed_not_degrades_with_error() {
    let mut r = root();
    let c = cfg_attr(Meta::List(
        String::from("not"),
        vec![Meta::Word(String::from("a")), Meta::Word(String::from("b"))],
    ));
    let parsed = Config::new(&mut r, &vec![c]);
    assert!(parsed.equivalent(&flag("not")));
    assert_eq!(r.children.len(), 1);
    assert_eq!(r.children[0].item.severity, Severity::Error);
    assert_eq!(r.children[0].item.text, "Non-unary #[cfg(not())]");
}

#[test]
fn unknown_list_head_degrades_with_error() {
    let mut r = root();
    let c = cfg_attr(Meta::List(String::from("whatever"), vec![Meta::Word(String::from("a"))]));
    let parsed = Config::new(&mut r, &vec![c]);
    assert!(parsed.equivalent(&flag("whatever")));
    assert_eq!(r.children.len(), 1);
    assert_eq!(r.children[0].item.severity, Severity::Error);
    assert_eq!(r.children[0].item.text, "Unknown #[cfg] list: whatever(...)");
}

#[test]
fn unknown_key_value_degrades_with_error() {
    let mut r = root();
    let c = cfg_attr(Meta::NameValue(String::from("mystery"), String::from("v")));
    let parsed = Config::new(&mut r, &vec![c]);
    assert!(parsed.equivalent(&flag("mystery")));
    assert_eq!(r.children.len(), 1);
    assert_eq!(r.children[0].item.severity, Severity::Error);
    assert_eq!(r.children[0].item.text, "Unknown #[cfg] key-value pair: mystery = \"v\"");
}

#[test]
fn non_string_value_degrades_with_error() {
    let mut r = root();
    let c = cfg_attr(Meta::NameValueOther(String::from("feature"), String::from("12")));
    let parsed = Config::new(&mut r, &vec![c]);
    assert!(parsed.equivalent(&flag("feature")));
    assert_eq!(r.children.len(), 1);
    assert_eq!(r.children[0].item.severity, Severity::Error);
    assert_eq!(r.children[0].item.text, "Non-string #[cfg]: feature = 12");
}

#[test]
fn target_has_atomic_values_are_not_mutually_exclusive() {
    // the key may hold several values at once, so unlike other target
    // properties its values are opaque flags and do not exclude each other
    let mut r = root();
    let eight = Config::new(
        &mut r,
        &vec![cfg_attr(Meta::NameValue(
            String::from("target_has_atomic"),
            String::from("8"),
        ))],
    );
    let sixteen = Config::new(
        &mut r,
        &vec![cfg_attr(Meta::NameValue(
            String::from("target_has_atomic"),
            String::from("16"),
        ))],
    );
    assert!(eight.intersects(&sixteen));
    assert!(!prop("target_os", "linux").intersects(&prop("target_os", "windows")));
    assert_eq!(r.children.len(), 0);
}

#[test]
fn report_suppresses_entailed_configs() {
    let mut r = root();
    let c = feature("x");
    // the parent already guarantees feature x: no entry
    let pushed = c.report(&mut r, &feature("x"), "");
    assert!(!pushed);
    assert_eq!(r.children.len(), 0);
    // the parent does not: one inherit note
    let pushed2 = c.report(&mut r, &Config::True, "Comparing with ");
    assert!(pushed2);
    assert_eq!(r.children.len(), 1);
    assert_eq!(r.children[0].item.severity, Severity::Note);
    assert_eq!(r.children[0].item.strict, Strictness::Inherit);
    assert_eq!(r.children[0].item.text, "Comparing with #[cfg(feature=\"x\")]");
}

#[test]
fn property_grouping_is_exclusive_but_keys_are_independent() {
    // two values of one property key exclude each other
    assert!(!prop("target_os", "linux").intersects(&prop("target_os", "windows")));
    // the same value does not
    assert!(prop("target_os", "linux").intersects(&prop("target_os", "linux")));
    // different keys are independent
    assert!(prop("target_os", "linux").intersects(&prop("target_family", "unix")));
    // negation across a grouped key: not(linux) admits windows
    assert!(Config::Not(Box::new(prop("target_os", "linux")))
        .intersects(&prop("target_os", "windows")));
    // and admits "none of these" as well
    assert!(!Config::Not(Box::new(prop("target_os", "linux")))
        .subset(&prop("target_os", "windows")));
}
