//! The conditional-availability predicate algebra.
//!
//! A `Config` is a boolean expression tree over target properties, feature
//! names and opaque flags, as attached to a declaration by `#[cfg(...)]`
//! attributes.  Entailment, overlap and equivalence between two trees are
//! decided by enumerating assignments over the free variables of both.
use crate::report::{appended_not_lazy, Report, ReportItem, Severity, Strictness};
use vstd::prelude::*;
use vstd::string::StringExecFns;

verus! {

/// A `#[cfg]` attribute represented as a boolean expression tree.
pub enum Config {
    // combinators
    Not(Box<Config>),
    All(Vec<Config>),
    Any(Vec<Config>),
    // atoms
    TargetProperty(String, String),
    Feature(String),
    Flag(String),
    // internal use only
    True,
    False,
}

/// The semantic identity of an atom: the axis along which assignments are
/// enumerated when deciding satisfiability questions.
pub enum Var {
    Prop(Seq<char>, Seq<char>),
    Feat(Seq<char>),
    Switch(Seq<char>),
}

/// An assignment is valid when it gives each target property at most one
/// value: a target has exactly one value per property key at a time.
pub open spec fn valid(a: Set<Var>) -> bool {
    forall|k: Seq<char>, v1: Seq<char>, v2: Seq<char>|
        a.contains(Var::Prop(k, v1)) && a.contains(Var::Prop(k, v2)) ==> v1 == v2
}

/// Truth value of a predicate under an assignment: an atom is true iff its
/// variable is in the assignment; the combinators are negation, conjunction
/// and disjunction; the sentinels are constant.
pub open spec fn sat(c: Config, a: Set<Var>) -> bool
    decreases c,
{
    match c {
        Config::Not(inner) => !sat(*inner, a),
        Config::All(list) => forall|i: int| 0 <= i < list@.len() ==> sat(#[trigger] list@[i], a),
        Config::Any(list) => exists|i: int| 0 <= i < list@.len() && sat(#[trigger] list@[i], a),
        Config::TargetProperty(k, v) => a.contains(Var::Prop(k@, v@)),
        Config::Feature(n) => a.contains(Var::Feat(n@)),
        Config::Flag(n) => a.contains(Var::Switch(n@)),
        Config::True => true,
        Config::False => false,
    }
}

/// The free variables of a predicate.
pub open spec fn fv(c: Config) -> Set<Var>
    decreases c,
{
    match c {
        Config::Not(inner) => fv(*inner),
        Config::All(list) => Set::new(
            |v: Var| exists|i: int| 0 <= i < list@.len() && fv(#[trigger] list@[i]).contains(v),
        ),
        Config::Any(list) => Set::new(
            |v: Var| exists|i: int| 0 <= i < list@.len() && fv(#[trigger] list@[i]).contains(v),
        ),
        Config::TargetProperty(k, v) => Set::empty().insert(Var::Prop(k@, v@)),
        Config::Feature(n) => Set::empty().insert(Var::Feat(n@)),
        Config::Flag(n) => Set::empty().insert(Var::Switch(n@)),
        Config::True => Set::empty(),
        Config::False => Set::empty(),
    }
}

/// A free variable as executable data, carrying the strings of the atom it
/// was extracted from.
pub enum FreeVar {
    TargetProperty(String, String),
    Feature(String),
    Flag(String),
}

impl View for FreeVar {
    type V = Var;

    open spec fn view(&self) -> Var {
        match self {
            FreeVar::TargetProperty(k, v) => Var::Prop(k@, v@),
            FreeVar::Feature(n) => Var::Feat(n@),
            FreeVar::Flag(n) => Var::Switch(n@),
        }
    }
}

/// The assignment described by a list of free variables: the set of their
/// semantic identities.
pub open spec fn varset(s: Seq<FreeVar>) -> Set<Var> {
    Set::new(|v: Var| exists|i: int| 0 <= i < s.len() && s[i]@ == v)
}

/// Whether two free variables have the same semantic identity.
fn fv_eq(x: &FreeVar, y: &FreeVar) -> (r: bool)
    ensures
        r == (x@ == y@),
{
    match (x, y) {
        (FreeVar::TargetProperty(k1, v1), FreeVar::TargetProperty(k2, v2)) => *k1 == *k2 && *v1
            == *v2,
        (FreeVar::Feature(n1), FreeVar::Feature(n2)) => *n1 == *n2,
        (FreeVar::Flag(n1), FreeVar::Flag(n2)) => *n1 == *n2,
        _ => false,
    }
}

/// An exact copy of a free variable.
fn dup_fv(x: &FreeVar) -> (r: FreeVar)
    ensures
        r == *x,
{
    match x {
        FreeVar::TargetProperty(k, v) => FreeVar::TargetProperty(k.clone(), v.clone()),
        FreeVar::Feature(n) => FreeVar::Feature(n.clone()),
        FreeVar::Flag(n) => FreeVar::Flag(n.clone()),
    }
}

/// Whether the assignment contains a variable of the given identity.
fn assignment_contains(vars: &Vec<FreeVar>, x: &FreeVar) -> (r: bool)
    ensures
        r == varset(vars@).contains(x@),
{
    let n = vars.len();
    let mut i: usize = 0;
    while i < n
        invariant
            i <= n,
            n == vars@.len(),
            forall|j: int| 0 <= j < i ==> vars@[j]@ != x@,
        decreases n - i,
    {
        if fv_eq(&vars[i], x) {
            return true;
        }
        i += 1;
    }
    false
}

/// Truth value of a predicate under the assignment listed in `vars`.
fn evaluate(c: &Config, vars: &Vec<FreeVar>) -> (r: bool)
    ensures
        r == sat(*c, varset(vars@)),
    decreases *c,
{
    match c {
        Config::Not(inner) => !evaluate(&**inner, vars),
        Config::All(list) => {
            let n = list.len();
            let mut i: usize = 0;
            while i < n
                invariant
                    i <= n,
                    n == list@.len(),
                    *c is All,
                    c->All_0 == *list,
                    forall|j: int| 0 <= j < i ==> sat(#[trigger] list@[j], varset(vars@)),
                decreases n - i,
            {
                proof {
                    assert(decreases_to!(*c => c->All_0));
                    assert(decreases_to!(c->All_0 => c->All_0@));
                    assert(decreases_to!(c->All_0@ => c->All_0@[i as int]));
                }
                if !evaluate(&list[i], vars) {
                    return false;
                }
                i += 1;
            }
            true
        }
        Config::Any(list) => {
            let n = list.len();
            let mut i: usize = 0;
            while i < n
                invariant
                    i <= n,
                    n == list@.len(),
                    *c is Any,
                    c->Any_0 == *list,
                    forall|j: int| 0 <= j < i ==> !sat(#[trigger] list@[j], varset(vars@)),
                decreases n - i,
            {
                proof {
                    assert(decreases_to!(*c => c->Any_0));
                    assert(decreases_to!(c->Any_0 => c->Any_0@));
                    assert(decreases_to!(c->Any_0@ => c->Any_0@[i as int]));
                }
                if evaluate(&list[i], vars) {
                    return true;
                }
                i += 1;
            }
            false
        }
        Config::TargetProperty(k, v) => {
            let x = FreeVar::TargetProperty(k.clone(), v.clone());
            assignment_contains(vars, &x)
        }
        Config::Feature(n) => {
            let x = FreeVar::Feature(n.clone());
            assignment_contains(vars, &x)
        }
        Config::Flag(n) => {
            let x = FreeVar::Flag(n.clone());
            assignment_contains(vars, &x)
        }
        Config::True => true,
        Config::False => false,
    }
}

/// Truth of a predicate depends only on the assignment's restriction to the
/// predicate's free variables.
proof fn lemma_sat_agree(c: Config, a1: Set<Var>, a2: Set<Var>)
    requires
        forall|v: Var| fv(c).contains(v) ==> a1.contains(v) == a2.contains(v),
    ensures
        sat(c, a1) == sat(c, a2),
    decreases c,
{
    match c {
        Config::Not(inner) => {
            lemma_sat_agree(*inner, a1, a2);
        }
        Config::All(list) => {
            assert forall|i: int| 0 <= i < list@.len() implies sat(
                #[trigger] list@[i],
                a1,
            ) == sat(list@[i], a2) by {
                assert forall|v: Var| fv(list@[i]).contains(v) implies a1.contains(v)
                    == a2.contains(v) by {
                    assert(fv(c).contains(v));
                }
                lemma_sat_agree(list@[i], a1, a2);
            }
        }
        Config::Any(list) => {
            assert forall|i: int| 0 <= i < list@.len() implies sat(
                #[trigger] list@[i],
                a1,
            ) == sat(list@[i], a2) by {
                assert forall|v: Var| fv(list@[i]).contains(v) implies a1.contains(v)
                    == a2.contains(v) by {
                    assert(fv(c).contains(v));
                }
                lemma_sat_agree(list@[i], a1, a2);
            }
        }
        _ => {}
    }
}

/// The free variables of the first `n` entries of a predicate list.
pub open spec fn fv_upto(l: Seq<Config>, n: int) -> Set<Var> {
    Set::new(|v: Var| exists|i: int| 0 <= i < n && fv(#[trigger] l[i]).contains(v))
}

proof fn lemma_varset_push(s: Seq<FreeVar>, x: FreeVar)
    ensures
        varset(s.push(x)) == varset(s).insert(x@),
{
    assert forall|v: Var| varset(s.push(x)).contains(v) implies varset(s).insert(x@).contains(
        v,
    ) by {
        let i = choose|i: int| 0 <= i < s.push(x).len() && s.push(x)[i]@ == v;
        if i < s.len() {
            assert(s[i]@ == v);
        }
    }
    assert forall|v: Var| varset(s).insert(x@).contains(v) implies varset(s.push(x)).contains(
        v,
    ) by {
        if varset(s).contains(v) {
            let i = choose|i: int| 0 <= i < s.len() && s[i]@ == v;
            assert(s.push(x)[i]@ == v);
        } else {
            assert(s.push(x)[s.len() as int]@ == v);
        }
    }
    assert(varset(s.push(x)) =~= varset(s).insert(x@));
}

/// Gather the free variables of a predicate into `out`, skipping duplicates.
fn collect_vars(c: &Config, out: &mut Vec<FreeVar>)
    ensures
        varset(final(out)@) == varset(old(out)@).union(fv(*c)),
    decreases *c,
{
    let ghost base = varset(old(out)@);
    match c {
        Config::Not(inner) => {
            collect_vars(&**inner, out);
        }
        Config::All(list) => {
            let n = list.len();
            let mut i: usize = 0;
            while i < n
                invariant
                    i <= n,
                    n == list@.len(),
                    *c is All,
                    c->All_0 == *list,
                    base == varset(old(out)@),
                    varset(out@) == base.union(fv_upto(list@, i as int)),
                decreases n - i,
            {
                proof {
                    assert(decreases_to!(*c => c->All_0));
                    assert(decreases_to!(c->All_0 => c->All_0@));
                    assert(decreases_to!(c->All_0@ => c->All_0@[i as int]));
                }
                collect_vars(&list[i], out);
                proof {
                    assert(varset(out@) =~= base.union(fv_upto(list@, i + 1))) by {
                        assert(base.union(fv_upto(list@, i as int)).union(fv(list@[i as int]))
                            =~= base.union(fv_upto(list@, i + 1)));
                    }
                }
                i += 1;
            }
            proof {
                assert(varset(out@) =~= base.union(fv(*c))) by {
                    assert(fv_upto(list@, n as int) =~= fv(*c));
                }
            }
        }
        Config::Any(list) => {
            let n = list.len();
            let mut i: usize = 0;
            while i < n
                invariant
                    i <= n,
                    n == list@.len(),
                    *c is Any,
                    c->Any_0 == *list,
                    base == varset(old(out)@),
                    varset(out@) == base.union(fv_upto(list@, i as int)),
                decreases n - i,
            {
                proof {
                    assert(decreases_to!(*c => c->Any_0));
                    assert(decreases_to!(c->Any_0 => c->Any_0@));
                    assert(decreases_to!(c->Any_0@ => c->Any_0@[i as int]));
                }
                collect_vars(&list[i], out);
                proof {
                    assert(varset(out@) =~= base.union(fv_upto(list@, i + 1))) by {
                        assert(base.union(fv_upto(list@, i as int)).union(fv(list@[i as int]))
                            =~= base.union(fv_upto(list@, i + 1)));
                    }
                }
                i += 1;
            }
            proof {
                assert(varset(out@) =~= base.union(fv(*c))) by {
                    assert(fv_upto(list@, n as int) =~= fv(*c));
                }
            }
        }
        Config::TargetProperty(k, v) => {
            let x = FreeVar::TargetProperty(k.clone(), v.clone());
            push_var(out, x);
            proof {
                assert(varset(out@) =~= base.union(fv(*c)));
            }
        }
        Config::Feature(n) => {
            let x = FreeVar::Feature(n.clone());
            push_var(out, x);
            proof {
                assert(varset(out@) =~= base.union(fv(*c)));
            }
        }
        Config::Flag(n) => {
            let x = FreeVar::Flag(n.clone());
            push_var(out, x);
            proof {
                assert(varset(out@) =~= base.union(fv(*c)));
            }
        }
        Config::True => {
            proof {
                assert(varset(out@) =~= base.union(fv(*c)));
            }
        }
        Config::False => {
            proof {
                assert(varset(out@) =~= base.union(fv(*c)));
            }
        }
    }
}

/// Add one variable to the list unless an equal one is already there.
fn push_var(out: &mut Vec<FreeVar>, x: FreeVar)
    ensures
        varset(final(out)@) == varset(old(out)@).insert(x@),
{
    let present = assignment_contains(out, &x);
    if present {
        proof {
            assert(varset(out@) =~= varset(out@).insert(x@));
        }
    } else {
        let ghost s0 = out@;
        out.push(x);
        proof {
            lemma_varset_push(s0, x);
        }
    }
}

/// The key of a variable: the property key, or the feature or flag name.
pub open spec fn var_key(v: Var) -> Seq<char> {
    match v {
        Var::Prop(k, _) => k,
        Var::Feat(n) => n,
        Var::Switch(n) => n,
    }
}

/// One enumeration axis: either every collected property variable of one
/// key, of which an assignment may hold at most one, or a single feature or
/// flag variable, which is an independent binary choice.
pub open spec fn wf_group(g: Seq<FreeVar>) -> bool {
    &&& g.len() >= 1
    &&& if g[0]@ is Prop {
        forall|i: int|
            0 <= i < g.len() ==> (#[trigger] g[i]@) is Prop && var_key(g[i]@) == var_key(g[0]@)
    } else {
        g.len() == 1
    }
}

/// The grouped enumeration domain: well-formed groups, with any two
/// property groups keyed differently.
pub open spec fn well_grouped(gs: Seq<Vec<FreeVar>>) -> bool {
    &&& forall|g: int| 0 <= g < gs.len() ==> wf_group(#[trigger] gs[g]@)
    &&& forall|g1: int, g2: int|
        #![trigger gs[g1], gs[g2]]
        0 <= g1 < gs.len() && 0 <= g2 < gs.len() && g1 != g2 && gs[g1]@[0]@ is Prop
            && gs[g2]@[0]@ is Prop ==> var_key(gs[g1]@[0]@) != var_key(gs[g2]@[0]@)
}

/// All variables collected in the groups.
pub open spec fn groups_vars(gs: Seq<Vec<FreeVar>>) -> Set<Var> {
    Set::new(|v: Var| exists|g: int| 0 <= g < gs.len() && varset(#[trigger] gs[g]@).contains(v))
}

/// Collect every property variable of the given key.
fn props_with_key(vars: &Vec<FreeVar>, k: &String) -> (g: Vec<FreeVar>)
    ensures
        varset(g@) == Set::new(
            |v: Var| varset(vars@).contains(v) && v is Prop && var_key(v) == k@,
        ),
        forall|i: int| 0 <= i < g@.len() ==> (#[trigger] g@[i]@) is Prop && var_key(g@[i]@) == k@,
{
    let mut g: Vec<FreeVar> = Vec::new();
    let n = vars.len();
    let mut i: usize = 0;
    while i < n
        invariant
            i <= n,
            n == vars@.len(),
            forall|ii: int|
                0 <= ii < g@.len() ==> (#[trigger] g@[ii]@) is Prop && var_key(g@[ii]@) == k@,
            varset(g@) == Set::new(
                |v: Var| varset(vars@.take(i as int)).contains(v) && v is Prop && var_key(v) == k@,
            ),
        decreases n - i,
    {
        let ghost gpre = g@;
        let mut added = false;
        match &vars[i] {
            FreeVar::TargetProperty(k2, _) => {
                if *k == *k2 {
                    g.push(dup_fv(&vars[i]));
                    added = true;
                }
            }
            _ => {}
        }
        proof {
            if added {
                lemma_varset_push(gpre, vars@[i as int]);
            }
            assert(varset(vars@.take(i + 1)) =~= varset(vars@.take(i as int)).insert(
                vars@[i as int]@,
            )) by {
                assert forall|v: Var| varset(vars@.take(i + 1)).contains(v) implies varset(
                    vars@.take(i as int),
                ).insert(vars@[i as int]@).contains(v) by {
                    let ii = choose|ii: int|
                        #![trigger vars@.take(i + 1)[ii]]
                        0 <= ii < vars@.take(i + 1).len() && vars@.take(i + 1)[ii]@ == v;
                    if ii < i {
                        assert(vars@.take(i as int)[ii]@ == v);
                    }
                }
                assert forall|v: Var| varset(vars@.take(i as int)).insert(
                    vars@[i as int]@,
                ).contains(v) implies varset(vars@.take(i + 1)).contains(v) by {
                    if varset(vars@.take(i as int)).contains(v) {
                        let ii = choose|ii: int|
                            0 <= ii < vars@.take(i as int).len() && vars@.take(i as int)[ii]@ == v;
                        assert(vars@.take(i + 1)[ii]@ == v);
                    } else {
                        assert(vars@.take(i + 1)[i as int]@ == v);
                    }
                }
            }
            assert(varset(g@) =~= Set::new(
                |v: Var| varset(vars@.take(i + 1)).contains(v) && v is Prop && var_key(v) == k@,
            ));
        }
        i += 1;
    }
    proof {
        assert(vars@.take(n as int) =~= vars@);
        assert(varset(g@) =~= Set::new(
            |v: Var| varset(vars@).contains(v) && v is Prop && var_key(v) == k@,
        ));
    }
    g
}

/// Whether some group is already keyed by `k`.
fn have_prop_group(groups: &Vec<Vec<FreeVar>>, k: &String) -> (found: bool)
    requires
        forall|g: int| 0 <= g < groups@.len() ==> (#[trigger] groups@[g]@).len() >= 1,
    ensures
        found == exists|g: int|
            0 <= g < groups@.len() && (#[trigger] groups@[g]@[0]@) is Prop && var_key(
                groups@[g]@[0]@,
            ) == k@,
{
    let n = groups.len();
    let mut g: usize = 0;
    while g < n
        invariant
            g <= n,
            n == groups@.len(),
            forall|gg: int| 0 <= gg < groups@.len() ==> (#[trigger] groups@[gg]@).len() >= 1,
            forall|gg: int|
                0 <= gg < g ==> !((#[trigger] groups@[gg]@[0]@) is Prop && var_key(
                    groups@[gg]@[0]@,
                ) == k@),
        decreases n - g,
    {
        match &groups[g][0] {
            FreeVar::TargetProperty(k2, _) => {
                if *k == *k2 {
                    proof {
                        assert((groups@[g as int]@[0]@) is Prop && var_key(groups@[g as int]@[0]@)
                            == k@);
                    }
                    return true;
                }
            }
            _ => {}
        }
        g += 1;
    }
    false
}

/// The property variables of `vars` with the given key.
pub open spec fn prop_set(vars: Seq<FreeVar>, k: Seq<char>) -> Set<Var> {
    Set::new(|w: Var| varset(vars).contains(w) && w is Prop && var_key(w) == k)
}

/// Group the collected variables into the enumeration domain: one group per
/// property key, one singleton group per feature or flag.
fn group_vars(vars: &Vec<FreeVar>) -> (groups: Vec<Vec<FreeVar>>)
    ensures
        well_grouped(groups@),
        groups_vars(groups@) == varset(vars@),
{
    let mut groups: Vec<Vec<FreeVar>> = Vec::new();
    let n = vars.len();
    let mut i: usize = 0;
    while i < n
        invariant
            i <= n,
            n == vars@.len(),
            well_grouped(groups@),
            groups_vars(groups@).subset_of(varset(vars@)),
            varset(vars@.take(i as int)).subset_of(groups_vars(groups@)),
            forall|g: int|
                0 <= g < groups@.len() && (#[trigger] groups@[g]@)[0]@ is Prop ==> varset(
                    groups@[g]@,
                ) == prop_set(vars@, var_key(groups@[g]@[0]@)),
        decreases n - i,
    {
        let ghost gs0 = groups@;
        let ghost v = vars@[i as int]@;
        proof {
            assert(varset(vars@).contains(v)) by {
                assert(vars@[i as int]@ == v);
            }
        }
        match &vars[i] {
            FreeVar::TargetProperty(k, _) => {
                if have_prop_group(&groups, k) {
                    proof {
                        let g = choose|g: int|
                            0 <= g < groups@.len() && (#[trigger] groups@[g]@[0]@) is Prop
                                && var_key(groups@[g]@[0]@) == k@;
                        assert(varset(groups@[g]@) == prop_set(vars@, k@));
                        assert(prop_set(vars@, k@).contains(v));
                        assert(groups_vars(groups@).contains(v)) by {
                            assert(varset(groups@[g]@).contains(v));
                        }
                    }
                } else {
                    let g = props_with_key(vars, k);
                    proof {
                        assert(varset(g@).contains(v));
                        assert(g@.len() >= 1) by {
                            let ii = choose|ii: int| 0 <= ii < g@.len() && g@[ii]@ == v;
                        }
                        assert(wf_group(g@)) by {
                            assert(g@[0]@ is Prop && var_key(g@[0]@) == k@);
                        }
                    }
                    groups.push(g);
                    proof {
                        assert(forall|gg: int| 0 <= gg < gs0.len() ==> groups@[gg] == gs0[gg]);
                        assert(groups@[gs0.len() as int] == g);
                        assert(well_grouped(groups@));
                        assert(varset(g@) == prop_set(vars@, var_key(g@[0]@))) by {
                            assert(varset(g@) =~= prop_set(vars@, k@));
                        }
                        assert(groups_vars(groups@).contains(v)) by {
                            assert(varset(groups@[gs0.len() as int]@).contains(v));
                        }
                    }
                }
            }
            _ => {
                let x = dup_fv(&vars[i]);
                let mut single: Vec<FreeVar> = Vec::new();
                single.push(x);
                groups.push(single);
                proof {
                    assert(single@[0] == vars@[i as int]);
                    assert(single@.len() == 1);
                    assert(!(v is Prop));
                    assert(wf_group(single@));
                    assert(forall|gg: int| 0 <= gg < gs0.len() ==> groups@[gg] == gs0[gg]);
                    assert(groups@[gs0.len() as int] == single);
                    assert(well_grouped(groups@));
                    assert(groups_vars(groups@).contains(v)) by {
                        assert(varset(groups@[gs0.len() as int]@).contains(v)) by {
                            assert(single@[0]@ == v);
                        }
                    }
                }
            }
        }
        proof {
            // everything placed so far is still placed, and nothing foreign came in
            assert forall|w: Var| groups_vars(gs0).contains(w) implies groups_vars(
                groups@,
            ).contains(w) by {
                let gg = choose|gg: int|
                    0 <= gg < gs0.len() && varset(#[trigger] gs0[gg]@).contains(w);
                assert(varset(groups@[gg]@).contains(w));
            }
            assert(groups_vars(groups@).subset_of(varset(vars@))) by {
                assert forall|w: Var| groups_vars(groups@).contains(w) implies varset(
                    vars@,
                ).contains(w) by {
                    let gg = choose|gg: int|
                        0 <= gg < groups@.len() && varset(#[trigger] groups@[gg]@).contains(w);
                    if gg < gs0.len() {
                        assert(groups_vars(gs0).contains(w)) by {
                            assert(varset(gs0[gg]@).contains(w));
                        }
                    } else {
                        let ii = choose|ii: int|
                            0 <= ii < groups@[gg]@.len() && groups@[gg]@[ii]@ == w;
                        if groups@[gg]@[0]@ is Prop {
                            assert(varset(groups@[gg]@) == prop_set(
                                vars@,
                                var_key(groups@[gg]@[0]@),
                            ));
                        } else {
                            assert(groups@[gg]@[0]@ == v);
                            assert(ii == 0);
                        }
                    }
                }
            }
            assert(varset(vars@.take(i + 1)).subset_of(groups_vars(groups@))) by {
                assert forall|w: Var| varset(vars@.take(i + 1)).contains(w) implies groups_vars(
                    groups@,
                ).contains(w) by {
                    let ii = choose|ii: int|
                        #![trigger vars@.take(i + 1)[ii]]
                        0 <= ii < vars@.take(i + 1).len() && vars@.take(i + 1)[ii]@ == w;
                    if ii < i {
                        assert(varset(vars@.take(i as int)).contains(w)) by {
                            assert(vars@.take(i as int)[ii]@ == w);
                        }
                    } else {
                        assert(w == v);
                    }
                }
            }
        }
        i += 1;
    }
    proof {
        assert(vars@.take(n as int) =~= vars@);
        assert(groups_vars(groups@) =~= varset(vars@));
    }
    groups
}

/// The three satisfiability questions asked of a pair of predicates.
#[derive(Clone, Copy)]
enum Question {
    NonSubset,
    Both,
    Differ,
}

/// What a witness assignment must show for each question.
spec fn witness_holds(q: Question, a: Config, b: Config, s: Set<Var>) -> bool {
    match q {
        Question::NonSubset => sat(a, s) && !sat(b, s),
        Question::Both => sat(a, s) && sat(b, s),
        Question::Differ => sat(a, s) != sat(b, s),
    }
}

/// The assignments reachable from `base` by picking at most one variable
/// from each group at position `idx` onward.
spec fn is_completion(v: Set<Var>, base: Set<Var>, gs: Seq<Vec<FreeVar>>, idx: int) -> bool
    decreases gs.len() - idx,
{
    if idx < 0 || idx >= gs.len() {
        v == base
    } else {
        is_completion(v, base, gs, idx + 1) || exists|j: int|
            0 <= j < gs[idx]@.len() && is_completion(v, base.insert(gs[idx]@[j]@), gs, idx + 1)
    }
}

/// Whether some completion of `base` over the groups from `idx` onward
/// witnesses the question.
spec fn found_in(
    base: Set<Var>,
    gs: Seq<Vec<FreeVar>>,
    idx: int,
    q: Question,
    a: Config,
    b: Config,
) -> bool {
    exists|v: Set<Var>| is_completion(v, base, gs, idx) && witness_holds(q, a, b, v)
}

/// Unfolding of `found_in` by one group.
proof fn lemma_found_unfold(
    base: Set<Var>,
    gs: Seq<Vec<FreeVar>>,
    idx: int,
    q: Question,
    a: Config,
    b: Config,
)
    requires
        0 <= idx < gs.len(),
    ensures
        found_in(base, gs, idx, q, a, b) == (found_in(base, gs, idx + 1, q, a, b) || exists|j: int|
            0 <= j < gs[idx]@.len() && found_in(
                base.insert(gs[idx]@[j]@),
                gs,
                idx + 1,
                q,
                a,
                b,
            )),
{
    if found_in(base, gs, idx, q, a, b) {
        let v = choose|v: Set<Var>| is_completion(v, base, gs, idx) && witness_holds(q, a, b, v);
        if is_completion(v, base, gs, idx + 1) {
            assert(found_in(base, gs, idx + 1, q, a, b));
        } else {
            let j = choose|j: int|
                0 <= j < gs[idx]@.len() && is_completion(v, base.insert(gs[idx]@[j]@), gs, idx + 1);
            assert(found_in(base.insert(gs[idx]@[j]@), gs, idx + 1, q, a, b));
        }
    }
    if found_in(base, gs, idx + 1, q, a, b) {
        let v = choose|v: Set<Var>|
            is_completion(v, base, gs, idx + 1) && witness_holds(q, a, b, v);
        assert(is_completion(v, base, gs, idx));
        assert(found_in(base, gs, idx, q, a, b));
    }
    if exists|j: int|
        0 <= j < gs[idx]@.len() && found_in(base.insert(gs[idx]@[j]@), gs, idx + 1, q, a, b) {
        let j = choose|j: int|
            0 <= j < gs[idx]@.len() && found_in(base.insert(gs[idx]@[j]@), gs, idx + 1, q, a, b);
        let v = choose|v: Set<Var>|
            is_completion(v, base.insert(gs[idx]@[j]@), gs, idx + 1) && witness_holds(q, a, b, v);
        assert(is_completion(v, base, gs, idx));
        assert(found_in(base, gs, idx, q, a, b));
    }
}

/// Evaluate the question on the assignment at hand.
fn witness_test(a: &Config, b: &Config, q: Question, vars: &Vec<FreeVar>) -> (r: bool)
    ensures
        r == witness_holds(q, *a, *b, varset(vars@)),
{
    match q {
        Question::NonSubset => evaluate(a, vars) && !evaluate(b, vars),
        Question::Both => evaluate(a, vars) && evaluate(b, vars),
        Question::Differ => {
            let ra = evaluate(a, vars);
            let rb = evaluate(b, vars);
            ra != rb
        }
    }
}

/// Enumerate every completion of the current assignment over the remaining
/// groups, returning as soon as one witnesses the question.
fn search(
    groups: &Vec<Vec<FreeVar>>,
    idx: usize,
    current: &mut Vec<FreeVar>,
    a: &Config,
    b: &Config,
    q: Question,
) -> (r: bool)
    requires
        idx <= groups@.len(),
    ensures
        final(current)@ == old(current)@,
        r == found_in(varset(old(current)@), groups@, idx as int, q, *a, *b),
    decreases groups@.len() - idx,
{
    let ghost base = varset(current@);
    if idx == groups.len() {
        let w = witness_test(a, b, q, current);
        proof {
            if w {
                assert(is_completion(base, base, groups@, idx as int));
            }
            if found_in(base, groups@, idx as int, q, *a, *b) {
                let v = choose|v: Set<Var>|
                    is_completion(v, base, groups@, idx as int) && witness_holds(q, *a, *b, v);
                assert(v == base);
            }
        }
        return w;
    }
    if search(groups, idx + 1, current, a, b, q) {
        proof {
            lemma_found_unfold(base, groups@, idx as int, q, *a, *b);
        }
        return true;
    }
    let n = groups[idx].len();
    let mut j: usize = 0;
    while j < n
        invariant
            j <= n,
            idx < groups@.len(),
            groups@.len() <= usize::MAX,
            n == groups@[idx as int]@.len(),
            current@ == old(current)@,
            base == varset(old(current)@),
            !found_in(base, groups@, idx as int + 1, q, *a, *b),
            forall|jj: int|
                0 <= jj < j ==> !found_in(
                    base.insert(groups@[idx as int]@[jj]@),
                    groups@,
                    idx as int + 1,
                    q,
                    *a,
                    *b,
                ),
        decreases n - j,
    {
        let x = dup_fv(&groups[idx][j]);
        let ghost snap = current@;
        current.push(x);
        proof {
            lemma_varset_push(snap, groups@[idx as int]@[j as int]);
        }
        let found = search(groups, idx + 1, current, a, b, q);
        let _ = current.pop();
        proof {
            assert(current@ =~= snap);
        }
        if found {
            proof {
                lemma_found_unfold(base, groups@, idx as int, q, *a, *b);
            }
            return true;
        }
        j += 1;
    }
    proof {
        lemma_found_unfold(base, groups@, idx as int, q, *a, *b);
    }
    false
}

/// Whether some group at position `idx` onward is a property group with
/// the given key.
spec fn key_in_groups(gs: Seq<Vec<FreeVar>>, idx: int, k: Seq<char>) -> bool {
    exists|g: int|
        idx <= g < gs.len() && (#[trigger] gs[g]@)[0]@ is Prop && var_key(gs[g]@[0]@) == k
}

/// Every completion of a suitable base is a valid assignment: it never
/// picks two values for one property key.
proof fn lemma_completion_valid(v: Set<Var>, base: Set<Var>, gs: Seq<Vec<FreeVar>>, idx: int)
    requires
        0 <= idx <= gs.len(),
        well_grouped(gs),
        valid(base),
        forall|x: Var| base.contains(x) && x is Prop ==> !key_in_groups(gs, idx, var_key(x)),
        is_completion(v, base, gs, idx),
    ensures
        valid(v),
    decreases gs.len() - idx,
{
    if idx >= gs.len() {
    } else if is_completion(v, base, gs, idx + 1) {
        assert forall|x: Var| base.contains(x) && x is Prop implies !key_in_groups(
            gs,
            idx + 1,
            var_key(x),
        ) by {
            if key_in_groups(gs, idx + 1, var_key(x)) {
                let g = choose|g: int|
                    idx + 1 <= g < gs.len() && (#[trigger] gs[g]@)[0]@ is Prop && var_key(
                        gs[g]@[0]@,
                    ) == var_key(x);
                assert(key_in_groups(gs, idx, var_key(x)));
            }
        }
        lemma_completion_valid(v, base, gs, idx + 1);
    } else {
        let j = choose|j: int|
            0 <= j < gs[idx]@.len() && is_completion(v, base.insert(gs[idx]@[j]@), gs, idx + 1);
        let e = gs[idx]@[j]@;
        let base2 = base.insert(e);
        assert(wf_group(gs[idx]@));
        if e is Prop {
            let k0 = var_key(e);
            assert(gs[idx]@[0]@ is Prop && var_key(gs[idx]@[0]@) == k0) by {
                if !(gs[idx]@[0]@ is Prop) {
                    assert(gs[idx]@.len() == 1);
                    assert(j == 0);
                }
            }
            assert(!exists|w: Var| base.contains(w) && w is Prop && var_key(w) == k0) by {
                if exists|w: Var| base.contains(w) && w is Prop && var_key(w) == k0 {
                    let w = choose|w: Var| base.contains(w) && w is Prop && var_key(w) == k0;
                    assert(key_in_groups(gs, idx, k0)) by {
                        assert((gs[idx]@)[0]@ is Prop && var_key(gs[idx]@[0]@) == k0);
                    }
                }
            }
            assert(valid(base2)) by {
                assert forall|k: Seq<char>, v1: Seq<char>, v2: Seq<char>|
                    base2.contains(Var::Prop(k, v1)) && base2.contains(
                        Var::Prop(k, v2),
                    ) implies v1 == v2 by {
                    if base.contains(Var::Prop(k, v1)) && base.contains(Var::Prop(k, v2)) {
                    } else if k == k0 {
                        if base.contains(Var::Prop(k, v1)) {
                            assert(base.contains(Var::Prop(k, v1)) && Var::Prop(k, v1) is Prop
                                && var_key(Var::Prop(k, v1)) == k0);
                        }
                        if base.contains(Var::Prop(k, v2)) {
                            assert(base.contains(Var::Prop(k, v2)) && Var::Prop(k, v2) is Prop
                                && var_key(Var::Prop(k, v2)) == k0);
                        }
                    }
                }
            }
            assert forall|x: Var| base2.contains(x) && x is Prop implies !key_in_groups(
                gs,
                idx + 1,
                var_key(x),
            ) by {
                if key_in_groups(gs, idx + 1, var_key(x)) {
                    let g = choose|g: int|
                        idx + 1 <= g < gs.len() && (#[trigger] gs[g]@)[0]@ is Prop && var_key(
                            gs[g]@[0]@,
                        ) == var_key(x);
                    if base.contains(x) {
                        assert(key_in_groups(gs, idx, var_key(x)));
                    } else {
                        // x == e; its key belongs to the group at idx, and two
                        // different property groups never share a key
                        assert(var_key(x) == k0);
                        assert(gs[g]@[0]@ is Prop && gs[idx]@[0]@ is Prop && g != idx);
                        assert(var_key(gs[g]@[0]@) != var_key(gs[idx]@[0]@));
                    }
                }
            }
            lemma_completion_valid(v, base2, gs, idx + 1);
        } else {
            assert(valid(base2)) by {
                assert forall|k: Seq<char>, v1: Seq<char>, v2: Seq<char>|
                    base2.contains(Var::Prop(k, v1)) && base2.contains(
                        Var::Prop(k, v2),
                    ) implies v1 == v2 by {
                    assert(base.contains(Var::Prop(k, v1)) && base.contains(Var::Prop(k, v2)));
                }
            }
            assert forall|x: Var| base2.contains(x) && x is Prop implies !key_in_groups(
                gs,
                idx + 1,
                var_key(x),
            ) by {
                assert(base.contains(x));
                if key_in_groups(gs, idx + 1, var_key(x)) {
                    let g = choose|g: int|
                        idx + 1 <= g < gs.len() && (#[trigger] gs[g]@)[0]@ is Prop && var_key(
                            gs[g]@[0]@,
                        ) == var_key(x);
                    assert(key_in_groups(gs, idx, var_key(x)));
                }
            }
            lemma_completion_valid(v, base2, gs, idx + 1);
        }
    }
}

/// The part of an assignment that lives in the groups at `idx` onward.
spec fn inter(v: Set<Var>, gs: Seq<Vec<FreeVar>>, idx: int) -> Set<Var> {
    Set::new(
        |x: Var|
            v.contains(x) && exists|g: int|
                idx <= g < gs.len() && varset((#[trigger] gs[g])@).contains(x),
    )
}

/// A valid assignment, restricted to the collected variables, is one of the
/// enumerated completions.
proof fn lemma_restrict(v: Set<Var>, gs: Seq<Vec<FreeVar>>, idx: int, base: Set<Var>)
    requires
        valid(v),
        well_grouped(gs),
        0 <= idx <= gs.len(),
    ensures
        is_completion(base.union(inter(v, gs, idx)), base, gs, idx),
    decreases gs.len() - idx,
{
    if idx >= gs.len() {
        assert(inter(v, gs, idx) =~= Set::empty());
        assert(base.union(inter(v, gs, idx)) =~= base);
    } else {
        let g = gs[idx]@;
        assert(wf_group(g));
        if exists|i: int| 0 <= i < g.len() && v.contains(#[trigger] g[i]@) {
            let j = choose|j: int| 0 <= j < g.len() && v.contains(#[trigger] g[j]@);
            let base2 = base.insert(g[j]@);
            assert(base.union(inter(v, gs, idx)) =~= base2.union(inter(v, gs, idx + 1))) by {
                assert forall|x: Var| base.union(inter(v, gs, idx)).contains(x) implies base2.union(
                    inter(v, gs, idx + 1),
                ).contains(x) by {
                    if base.contains(x) {
                    } else {
                        let gp = choose|gp: int|
                            idx <= gp < gs.len() && varset((#[trigger] gs[gp])@).contains(x);
                        if gp >= idx + 1 {
                            assert(inter(v, gs, idx + 1).contains(x));
                        } else {
                            let i = choose|i: int| 0 <= i < g.len() && g[i]@ == x;
                            if g[0]@ is Prop {
                                assert(g[i]@ is Prop && var_key(g[i]@) == var_key(g[0]@));
                                assert(g[j]@ is Prop && var_key(g[j]@) == var_key(g[0]@));
                                let k0 = var_key(g[0]@);
                                let xi = g[i]@;
                                let xj = g[j]@;
                                assert(v.contains(Var::Prop(k0, xi->Prop_1)) && v.contains(
                                    Var::Prop(k0, xj->Prop_1),
                                ));
                                assert(xi->Prop_1 == xj->Prop_1);
                                assert(x == g[j]@);
                            } else {
                                assert(g.len() == 1);
                                assert(x == g[j]@);
                            }
                        }
                    }
                }
                assert forall|x: Var| base2.union(inter(v, gs, idx + 1)).contains(x) implies
                    base.union(inter(v, gs, idx)).contains(x) by {
                    if x == g[j]@ && !base.contains(x) {
                        assert(varset(gs[idx]@).contains(x)) by {
                            assert(g[j]@ == x);
                        }
                        assert(inter(v, gs, idx).contains(x));
                    } else if inter(v, gs, idx + 1).contains(x) {
                        let gp = choose|gp: int|
                            idx + 1 <= gp < gs.len() && varset((#[trigger] gs[gp])@).contains(x);
                        assert(inter(v, gs, idx).contains(x));
                    }
                }
            }
            lemma_restrict(v, gs, idx + 1, base2);
            assert(is_completion(base.union(inter(v, gs, idx)), base, gs, idx)) by {
                assert(is_completion(base2.union(inter(v, gs, idx + 1)), base2, gs, idx + 1));
            }
        } else {
            assert(base.union(inter(v, gs, idx)) =~= base.union(inter(v, gs, idx + 1))) by {
                assert forall|x: Var| inter(v, gs, idx).contains(x) implies inter(
                    v,
                    gs,
                    idx + 1,
                ).contains(x) by {
                    let gp = choose|gp: int|
                        idx <= gp < gs.len() && varset((#[trigger] gs[gp])@).contains(x);
                    if gp == idx {
                        let i = choose|i: int| 0 <= i < g.len() && g[i]@ == x;
                        assert(v.contains(g[i]@));
                    }
                }
                assert forall|x: Var| inter(v, gs, idx + 1).contains(x) implies inter(
                    v,
                    gs,
                    idx,
                ).contains(x) by {
                    let gp = choose|gp: int|
                        idx + 1 <= gp < gs.len() && varset((#[trigger] gs[gp])@).contains(x);
                }
            }
            lemma_restrict(v, gs, idx + 1, base);
        }
    }
}

/// Decide whether any valid assignment witnesses the question, by
/// enumerating the grouped free variables of both predicates.
fn exists_witness(a: &Config, b: &Config, q: Question) -> (r: bool)
    ensures
        r == exists|v: Set<Var>| valid(v) && witness_holds(q, *a, *b, v),
{
    let mut vars: Vec<FreeVar> = Vec::new();
    collect_vars(a, &mut vars);
    collect_vars(b, &mut vars);
    let groups = group_vars(&vars);
    let mut current: Vec<FreeVar> = Vec::new();
    let ghost e: Set<Var> = Set::empty();
    proof {
        assert(varset(current@) =~= e);
        assert(fv(*a).subset_of(groups_vars(groups@)) && fv(*b).subset_of(
            groups_vars(groups@),
        )) by {
            assert(groups_vars(groups@) == varset(vars@));
        }
    }
    let r = search(&groups, 0, &mut current, a, b, q);
    proof {
        if r {
            let v = choose|v: Set<Var>|
                is_completion(v, e, groups@, 0) && witness_holds(q, *a, *b, v);
            lemma_completion_valid(v, e, groups@, 0);
            assert(valid(v) && witness_holds(q, *a, *b, v));
        } else {
            assert forall|v: Set<Var>| valid(v) implies !witness_holds(q, *a, *b, v) by {
                if witness_holds(q, *a, *b, v) {
                    let v2 = inter(v, groups@, 0);
                    lemma_restrict(v, groups@, 0, e);
                    assert(e.union(v2) =~= v2);
                    assert forall|x: Var| fv(*a).contains(x) implies v2.contains(x) == v.contains(
                        x,
                    ) by {
                        if v.contains(x) {
                            assert(groups_vars(groups@).contains(x));
                            let gp = choose|gp: int|
                                0 <= gp < groups@.len() && varset(
                                    (#[trigger] groups@[gp])@,
                                ).contains(x);
                            assert(v2.contains(x));
                        }
                    }
                    assert forall|x: Var| fv(*b).contains(x) implies v2.contains(x) == v.contains(
                        x,
                    ) by {
                        if v.contains(x) {
                            assert(groups_vars(groups@).contains(x));
                            let gp = choose|gp: int|
                                0 <= gp < groups@.len() && varset(
                                    (#[trigger] groups@[gp])@,
                                ).contains(x);
                            assert(v2.contains(x));
                        }
                    }
                    lemma_sat_agree(*a, v, v2);
                    lemma_sat_agree(*b, v, v2);
                    assert(witness_holds(q, *a, *b, v2));
                    assert(is_completion(v2, e, groups@, 0));
                    assert(found_in(e, groups@, 0, q, *a, *b));
                }
            }
        }
    }
    r
}

/// A entails B: under every valid assignment where A holds, B holds too.
pub open spec fn spec_subset(a: Config, b: Config) -> bool {
    forall|v: Set<Var>| valid(v) && #[trigger] sat(a, v) ==> sat(b, v)
}

/// A and B overlap: some valid assignment makes both hold; a literal
/// always-true sentinel on either side counts as an overlap outright.
pub open spec fn spec_intersects(a: Config, b: Config) -> bool {
    ||| a is True
    ||| b is True
    ||| exists|v: Set<Var>| valid(v) && #[trigger] sat(a, v) && sat(b, v)
}

/// A and B agree under every valid assignment.
pub open spec fn spec_equivalent(a: Config, b: Config) -> bool {
    forall|v: Set<Var>| valid(v) ==> #[trigger] sat(a, v) == sat(b, v)
}

impl Config {
    /// Whether this predicate is the literal always-true sentinel.
    fn is_universal(&self) -> (r: bool)
        ensures
            r == (*self is True),
    {
        matches!(self, Config::True)
    }

    /// Determine if this Config is a subset of another.
    ///
    /// Returns `true` if in all cases where this Config applies, so too
    /// does `other`.
    pub fn subset(&self, other: &Config) -> (r: bool)
        ensures
            r == spec_subset(*self, *other),
    {
        if other.is_universal() {
            proof {
                assert forall|v: Set<Var>| valid(v) && #[trigger] sat(*self, v) implies sat(
                    *other,
                    v,
                ) by {}
            }
            true
            // no short-circuit if self.is_universal(): other may be like Any([True, False])

        } else {
            let w = exists_witness(self, other, Question::NonSubset);
            proof {
                if w {
                    let v = choose|v: Set<Var>|
                        valid(v) && witness_holds(Question::NonSubset, *self, *other, v);
                    assert(sat(*self, v) && !sat(*other, v));
                } else {
                    assert forall|v: Set<Var>| valid(v) && #[trigger] sat(*self, v) implies sat(
                        *other,
                        v,
                    ) by {
                        if !sat(*other, v) {
                            assert(witness_holds(Question::NonSubset, *self, *other, v));
                        }
                    }
                }
            }
            !w
        }
    }

    /// Determine if this Config overlaps with another.
    ///
    /// Returns `true` if in any case where this Config applies, so too
    /// does `other`.
    pub fn intersects(&self, other: &Config) -> (r: bool)
        ensures
            r == spec_intersects(*self, *other),
    {
        if other.is_universal() || self.is_universal() {
            true
        } else {
            let w = exists_witness(self, other, Question::Both);
            proof {
                if w {
                    let v = choose|v: Set<Var>|
                        valid(v) && witness_holds(Question::Both, *self, *other, v);
                    assert(valid(v) && sat(*self, v) && sat(*other, v));
                } else {
                    if spec_intersects(*self, *other) {
                        let v = choose|v: Set<Var>|
                            valid(v) && #[trigger] sat(*self, v) && sat(*other, v);
                        assert(witness_holds(Question::Both, *self, *other, v));
                    }
                }
            }
            w
        }
    }

    /// Determine if this Config is exactly equivalent to another.
    pub fn equivalent(&self, other: &Config) -> (r: bool)
        ensures
            r == spec_equivalent(*self, *other),
    {
        if self.is_universal() && other.is_universal() {
            proof {
                assert forall|v: Set<Var>| valid(v) implies #[trigger] sat(*self, v) == sat(
                    *other,
                    v,
                ) by {}
            }
            true
        } else {
            let w = exists_witness(self, other, Question::Differ);
            proof {
                if w {
                    let v = choose|v: Set<Var>|
                        valid(v) && witness_holds(Question::Differ, *self, *other, v);
                    assert(sat(*self, v) != sat(*other, v));
                } else {
                    assert forall|v: Set<Var>| valid(v) implies #[trigger] sat(*self, v) == sat(
                        *other,
                        v,
                    ) by {
                        if sat(*self, v) != sat(*other, v) {
                            assert(witness_holds(Question::Differ, *self, *other, v));
                        }
                    }
                }
            }
            !w
        }
    }
}

/// Entailment is reflexive: every predicate entails itself.
pub proof fn lemma_subset_reflexive(a: Config)
    ensures
        spec_subset(a, a),
{
}

/// Entailment is transitive.
pub proof fn lemma_subset_transitive(a: Config, b: Config, c: Config)
    requires
        spec_subset(a, b),
        spec_subset(b, c),
    ensures
        spec_subset(a, c),
{
    assert forall|v: Set<Var>| valid(v) && #[trigger] sat(a, v) implies sat(c, v) by {
        assert(sat(b, v));
    }
}

/// Two predicates are equivalent exactly when each entails the other.
pub proof fn lemma_equivalent_iff_mutual_subset(a: Config, b: Config)
    ensures
        spec_equivalent(a, b) == (spec_subset(a, b) && spec_subset(b, a)),
{
    if spec_equivalent(a, b) {
        assert forall|v: Set<Var>| valid(v) && #[trigger] sat(a, v) implies sat(b, v) by {
            assert(sat(a, v) == sat(b, v));
        }
        assert forall|v: Set<Var>| valid(v) && #[trigger] sat(b, v) implies sat(a, v) by {
            assert(sat(a, v) == sat(b, v));
        }
    }
    if spec_subset(a, b) && spec_subset(b, a) {
        assert forall|v: Set<Var>| valid(v) implies #[trigger] sat(a, v) == sat(b, v) by {
            if sat(a, v) {
                assert(sat(b, v));
            }
            if sat(b, v) {
                assert(sat(a, v));
            }
        }
    }
}

/// The always-true sentinel entails a predicate exactly when that
/// predicate is equivalent to it.
pub proof fn lemma_universal_subset(x: Config)
    ensures
        spec_subset(Config::True, x) == spec_equivalent(x, Config::True),
{
    if spec_subset(Config::True, x) {
        assert forall|v: Set<Var>| valid(v) implies #[trigger] sat(x, v) == sat(
            Config::True,
            v,
        ) by {
            assert(sat(Config::True, v));
        }
    }
    if spec_equivalent(x, Config::True) {
        assert forall|v: Set<Var>| valid(v) && #[trigger] sat(Config::True, v) implies sat(
            x,
            v,
        ) by {
            assert(sat(x, v) == sat(Config::True, v));
        }
    }
}

/// A predicate entails the never-true sentinel exactly when it is
/// equivalent to it.
pub proof fn lemma_subset_never(x: Config)
    ensures
        spec_subset(x, Config::False) == spec_equivalent(x, Config::False),
{
    if spec_subset(x, Config::False) {
        assert forall|v: Set<Var>| valid(v) implies #[trigger] sat(x, v) == sat(
            Config::False,
            v,
        ) by {
            if sat(x, v) {
                assert(sat(Config::False, v));
            }
        }
    }
    if spec_equivalent(x, Config::False) {
        assert forall|v: Set<Var>| valid(v) && #[trigger] sat(x, v) implies sat(
            Config::False,
            v,
        ) by {
            assert(sat(x, v) == sat(Config::False, v));
        }
    }
}

/// Disjunction over a list of predicates.
pub open spec fn any_sat(s: Seq<Config>, v: Set<Var>) -> bool {
    exists|i: int| 0 <= i < s.len() && sat(#[trigger] s[i], v)
}

/// Conjunction over a list of predicates.
pub open spec fn all_sat(s: Seq<Config>, v: Set<Var>) -> bool {
    forall|i: int| 0 <= i < s.len() ==> sat(#[trigger] s[i], v)
}

proof fn lemma_any_concat(s1: Seq<Config>, s2: Seq<Config>, v: Set<Var>)
    ensures
        any_sat(s1 + s2, v) == (any_sat(s1, v) || any_sat(s2, v)),
{
    if any_sat(s1 + s2, v) {
        let i = choose|i: int| 0 <= i < (s1 + s2).len() && sat(#[trigger] (s1 + s2)[i], v);
        if i < s1.len() {
            assert(sat(s1[i], v));
        } else {
            assert(sat(s2[i - s1.len()], v));
        }
    }
    if any_sat(s1, v) {
        let i = choose|i: int| 0 <= i < s1.len() && sat(#[trigger] s1[i], v);
        assert(sat((s1 + s2)[i], v));
    }
    if any_sat(s2, v) {
        let i = choose|i: int| 0 <= i < s2.len() && sat(#[trigger] s2[i], v);
        assert(sat((s1 + s2)[s1.len() + i], v));
    }
}

proof fn lemma_any_push(s: Seq<Config>, x: Config, v: Set<Var>)
    ensures
        any_sat(s.push(x), v) == (any_sat(s, v) || sat(x, v)),
{
    if any_sat(s.push(x), v) {
        let i = choose|i: int| 0 <= i < s.push(x).len() && sat(#[trigger] s.push(x)[i], v);
        if i < s.len() {
            assert(sat(s[i], v));
        } else {
            assert(sat(x, v));
        }
    }
    if any_sat(s, v) {
        let i = choose|i: int| 0 <= i < s.len() && sat(#[trigger] s[i], v);
        assert(sat(s.push(x)[i], v));
    }
    if sat(x, v) {
        assert(sat(s.push(x)[s.len() as int], v));
    }
}

proof fn lemma_sat_any_view(c: Config, s: Seq<Config>, v: Set<Var>)
    requires
        c is Any,
        c->Any_0@ == s,
    ensures
        sat(c, v) == any_sat(s, v),
{
    if sat(c, v) {
        let i = choose|i: int| 0 <= i < c->Any_0@.len() && sat(#[trigger] c->Any_0@[i], v);
        assert(sat(s[i], v));
    }
    if any_sat(s, v) {
        let i = choose|i: int| 0 <= i < s.len() && sat(#[trigger] s[i], v);
        assert(sat(c->Any_0@[i], v));
    }
}

proof fn lemma_sat_all_view(c: Config, s: Seq<Config>, v: Set<Var>)
    requires
        c is All,
        c->All_0@ == s,
    ensures
        sat(c, v) == all_sat(s, v),
{
    if sat(c, v) {
        assert forall|i: int| 0 <= i < s.len() implies sat(#[trigger] s[i], v) by {
            assert(sat(c->All_0@[i], v));
        }
    }
    if all_sat(s, v) {
        assert forall|i: int| 0 <= i < c->All_0@.len() implies sat(
            #[trigger] c->All_0@[i],
            v,
        ) by {
            assert(sat(s[i], v));
        }
    }
}

impl Config {
    /// Compute the union of this config and another.
    ///
    /// The result accepts an assignment exactly when either operand did.
    /// When either operand is already an `Any`, the other is flattened
    /// into its list rather than nested below it.
    pub fn union(&mut self, other: Config)
        ensures
            forall|v: Set<Var>|
                #[trigger] sat(*final(self), v) == (sat(*old(self), v) || sat(other, v)),
            *final(self) is Any,
            *old(self) is Any && other is Any ==> final(self)->Any_0@ == old(self)->Any_0@
                + other->Any_0@,
            *old(self) is Any && !(other is Any) ==> final(self)->Any_0@
                == old(self)->Any_0@.push(other),
            !(*old(self) is Any) && other is Any ==> final(self)->Any_0@ == other->Any_0@.push(
                *old(self),
            ),
            !(*old(self) is Any) && !(other is Any) ==> final(self)->Any_0@.len() == 2
                && final(self)->Any_0@[0] == other && final(self)->Any_0@[1] == *old(self),
    {
        let ghost a0 = *self;
        let ghost b0 = other;
        let mut tmp = Config::True;
        core::mem::swap(self, &mut tmp);
        match tmp {
            Config::Any(mut list) => {
                let ghost l1 = list@;
                match other {
                    Config::Any(mut list2) => {
                        let ghost l2 = list2@;
                        list.append(&mut list2);
                        *self = Config::Any(list);
                        proof {
                            assert forall|v: Set<Var>| #[trigger] sat(*self, v) == (sat(a0, v)
                                || sat(b0, v)) by {
                                lemma_any_concat(l1, l2, v);
                                lemma_sat_any_view(*self, l1 + l2, v);
                                lemma_sat_any_view(a0, l1, v);
                                lemma_sat_any_view(b0, l2, v);
                            }
                        }
                    }
                    o => {
                        let ghost o0 = o;
                        list.push(o);
                        *self = Config::Any(list);
                        proof {
                            assert forall|v: Set<Var>| #[trigger] sat(*self, v) == (sat(a0, v)
                                || sat(b0, v)) by {
                                lemma_any_push(l1, o0, v);
                                lemma_sat_any_view(*self, l1.push(o0), v);
                                lemma_sat_any_view(a0, l1, v);
                            }
                        }
                    }
                }
            }
            t => {
                let ghost t0 = t;
                match other {
                    Config::Any(mut list2) => {
                        let ghost l2 = list2@;
                        list2.push(t);
                        *self = Config::Any(list2);
                        proof {
                            assert forall|v: Set<Var>| #[trigger] sat(*self, v) == (sat(a0, v)
                                || sat(b0, v)) by {
                                lemma_any_push(l2, t0, v);
                                lemma_sat_any_view(*self, l2.push(t0), v);
                                lemma_sat_any_view(b0, l2, v);
                            }
                        }
                    }
                    o => {
                        let ghost o0 = o;
                        let mut l: Vec<Config> = Vec::new();
                        l.push(o);
                        l.push(t);
                        *self = Config::Any(l);
                        proof {
                            assert forall|v: Set<Var>| #[trigger] sat(*self, v) == (sat(a0, v)
                                || sat(b0, v)) by {
                                let u = self->Any_0@;
                                assert(u.len() == 2 && u[0] == o0 && u[1] == t0);
                                if sat(a0, v) {
                                    assert(sat(u[1], v));
                                }
                                if sat(b0, v) {
                                    assert(sat(u[0], v));
                                }
                                if sat(*self, v) {
                                    let i = choose|i: int| 0 <= i < u.len() && sat(
                                        #[trigger] u[i],
                                        v,
                                    );
                                }
                            }
                        }
                    }
                }
            }
        }
    }
}

/// A predicate that simplification leaves unchanged: no always-true entry
/// under an `All`, no never-true entry under an `Any`, no list of fewer
/// than two entries, and no sentinel under a `Not`.
pub open spec fn norm(c: Config) -> bool
    decreases c,
{
    match c {
        Config::Not(inner) => norm(*inner) && !(*inner is True) && !(*inner is False),
        Config::All(list) => list@.len() >= 2 && forall|i: int|
            0 <= i < list@.len() ==> norm(#[trigger] list@[i]) && !(list@[i] is True),
        Config::Any(list) => list@.len() >= 2 && forall|i: int|
            0 <= i < list@.len() ==> norm(#[trigger] list@[i]) && !(list@[i] is False),
        _ => true,
    }
}

/// The rewrite of a negation: a negated sentinel flips, anything else
/// stays wrapped.
pub open spec fn not_collapse(s: Config, r: Config) -> bool {
    if s is True {
        r == Config::False
    } else if s is False {
        r == Config::True
    } else {
        r is Not && *r->Not_0 == s
    }
}

/// The collapse of a conjunction list: empty to the always-true sentinel,
/// a single survivor to itself, anything longer stays an `All`.
pub open spec fn all_collapse(out: Seq<Config>, r: Config) -> bool {
    if out.len() == 0 {
        r == Config::True
    } else if out.len() == 1 {
        r == out[0]
    } else {
        r is All && r->All_0@ == out
    }
}

/// The collapse of a disjunction list: empty to the never-true sentinel,
/// a single survivor to itself, anything longer stays an `Any`.
pub open spec fn any_collapse(out: Seq<Config>, r: Config) -> bool {
    if out.len() == 0 {
        r == Config::False
    } else if out.len() == 1 {
        r == out[0]
    } else {
        r is Any && r->Any_0@ == out
    }
}

/// Whether a simplified list entry is dropped: always-true entries leave
/// a conjunction, never-true entries leave a disjunction.
pub open spec fn entry_dropped(conj: bool, s: Config) -> bool {
    if conj {
        s is True
    } else {
        s is False
    }
}

/// `r` is the simplification of `c`: sentinels and atoms are untouched, a
/// negation simplifies its body and flips sentinels, and a list
/// simplifies its entries in order, drops the redundant ones, and
/// collapses when none or one remains.
pub open spec fn simplifies_to(c: Config, r: Config) -> bool
    decreases c, 1int,
    via simplifies_to_decreases
{
    match c {
        Config::Not(inner) => exists|s: Config|
            #![trigger not_collapse(s, r)]
            simplifies_to(*inner, s) && not_collapse(s, r),
        Config::All(list) => exists|out: Seq<Config>|
            #![trigger all_collapse(out, r)]
            simplifies_seq(list@, out, true, 0, 0) && all_collapse(out, r),
        Config::Any(list) => exists|out: Seq<Config>|
            #![trigger any_collapse(out, r)]
            simplifies_seq(list@, out, false, 0, 0) && any_collapse(out, r),
        _ => r == c,
    }
}

/// The entries of `out` from `oi` onward are the kept simplifications of
/// the entries of `src` from `si` onward, in order.
pub open spec fn simplifies_seq(
    src: Seq<Config>,
    out: Seq<Config>,
    conj: bool,
    si: int,
    oi: int,
) -> bool
    decreases src, src.len() - si,
{
    if si < 0 || si >= src.len() {
        oi == out.len()
    } else {
        exists|s: Config|
            #![trigger entry_dropped(conj, s)]
            simplifies_to(src[si], s) && if entry_dropped(conj, s) {
                simplifies_seq(src, out, conj, si + 1, oi)
            } else {
                0 <= oi < out.len() && out[oi] == s && simplifies_seq(src, out, conj, si + 1, oi + 1)
            }
    }
}

#[via_fn]
proof fn simplifies_to_decreases(c: Config, r: Config) {
    match c {
        Config::All(list) => {
            assert(decreases_to!(c => c->All_0));
            assert(decreases_to!(c->All_0 => c->All_0@));
            assert(decreases_to!(c, 1int => c->All_0@, c->All_0@.len()));
        }
        Config::Any(list) => {
            assert(decreases_to!(c => c->Any_0));
            assert(decreases_to!(c->Any_0 => c->Any_0@));
            assert(decreases_to!(c, 1int => c->Any_0@, c->Any_0@.len()));
        }
        _ => {}
    }
}

/// A predicate in simplified form is its own simplification.
proof fn lemma_norm_simplifies_self(c: Config)
    requires
        norm(c),
    ensures
        simplifies_to(c, c),
    decreases c, 1int,
{
    match c {
        Config::Not(inner) => {
            lemma_norm_simplifies_self(*inner);
            assert(simplifies_to(*c->Not_0, *inner));
            assert(not_collapse(*inner, c));
            assert(simplifies_to(c, c));
        }
        Config::All(list) => {
            lemma_norm_seq_self(list@, true, 0);
            assert(simplifies_seq(c->All_0@, list@, true, 0, 0));
            assert(all_collapse(list@, c));
            assert(simplifies_to(c, c));
        }
        Config::Any(list) => {
            lemma_norm_seq_self(list@, false, 0);
            assert(simplifies_seq(c->Any_0@, list@, false, 0, 0));
            assert(any_collapse(list@, c));
            assert(simplifies_to(c, c));
        }
        _ => {}
    }
}

/// A list of entries in simplified form, none droppable, simplifies to
/// itself entry by entry.
proof fn lemma_norm_seq_self(src: Seq<Config>, conj: bool, si: int)
    requires
        0 <= si <= src.len(),
        forall|j: int|
            si <= j < src.len() ==> norm(#[trigger] src[j]) && !entry_dropped(conj, src[j]),
    ensures
        simplifies_seq(src, src, conj, si, si),
    decreases src, src.len() - si,
{
    if si < src.len() {
        assert(decreases_to!(src => src[si]));
        lemma_norm_simplifies_self(src[si]);
        lemma_norm_seq_self(src, conj, si + 1);
        assert(simplifies_to(src[si], src[si]) && !entry_dropped(conj, src[si]) && src[si]
            == src[si] && simplifies_seq(src, src, conj, si + 1, si + 1));
    }
}

/// Extending the source list by an entry whose simplification is kept
/// appends that simplification to the output.
proof fn lemma_simplifies_seq_push_kept(
    src: Seq<Config>,
    out: Seq<Config>,
    conj: bool,
    si: int,
    oi: int,
    x: Config,
    s: Config,
)
    requires
        0 <= si <= src.len(),
        0 <= oi <= out.len(),
        simplifies_seq(src, out, conj, si, oi),
        simplifies_to(x, s),
        !entry_dropped(conj, s),
    ensures
        simplifies_seq(src.push(x), out.push(s), conj, si, oi),
    decreases src.len() - si,
{
    if si >= src.len() {
        assert(src.push(x)[si] == x);
        assert(out.push(s)[oi] == s);
        assert(simplifies_seq(src.push(x), out.push(s), conj, si + 1, oi + 1));
    } else {
        assert(src.push(x)[si] == src[si]);
        let s0 = choose|s0: Config|
            #![trigger entry_dropped(conj, s0)]
            simplifies_to(src[si], s0) && if entry_dropped(conj, s0) {
                simplifies_seq(src, out, conj, si + 1, oi)
            } else {
                0 <= oi < out.len() && out[oi] == s0 && simplifies_seq(
                    src,
                    out,
                    conj,
                    si + 1,
                    oi + 1,
                )
            };
        if entry_dropped(conj, s0) {
            lemma_simplifies_seq_push_kept(src, out, conj, si + 1, oi, x, s);
        } else {
            assert(out.push(s)[oi] == out[oi]);
            lemma_simplifies_seq_push_kept(src, out, conj, si + 1, oi + 1, x, s);
        }
        assert(simplifies_to(src.push(x)[si], s0));
    }
}

/// Extending the source list by an entry whose simplification is dropped
/// leaves the output as it was.
proof fn lemma_simplifies_seq_push_dropped(
    src: Seq<Config>,
    out: Seq<Config>,
    conj: bool,
    si: int,
    oi: int,
    x: Config,
    s: Config,
)
    requires
        0 <= si <= src.len(),
        0 <= oi <= out.len(),
        simplifies_seq(src, out, conj, si, oi),
        simplifies_to(x, s),
        entry_dropped(conj, s),
    ensures
        simplifies_seq(src.push(x), out, conj, si, oi),
    decreases src.len() - si,
{
    if si >= src.len() {
        assert(src.push(x)[si] == x);
        assert(simplifies_seq(src.push(x), out, conj, si + 1, oi));
    } else {
        assert(src.push(x)[si] == src[si]);
        let s0 = choose|s0: Config|
            #![trigger entry_dropped(conj, s0)]
            simplifies_to(src[si], s0) && if entry_dropped(conj, s0) {
                simplifies_seq(src, out, conj, si + 1, oi)
            } else {
                0 <= oi < out.len() && out[oi] == s0 && simplifies_seq(
                    src,
                    out,
                    conj,
                    si + 1,
                    oi + 1,
                )
            };
        if entry_dropped(conj, s0) {
            lemma_simplifies_seq_push_dropped(src, out, conj, si + 1, oi, x, s);
        } else {
            lemma_simplifies_seq_push_dropped(src, out, conj, si + 1, oi + 1, x, s);
        }
        assert(simplifies_to(src.push(x)[si], s0));
    }
}

/// Whether simplification would leave this predicate unchanged.
fn is_norm(c: &Config) -> (r: bool)
    ensures
        r == norm(*c),
    decreases *c,
{
    match c {
        Config::Not(inner) => {
            match &**inner {
                Config::True => false,
                Config::False => false,
                _ => is_norm(&**inner),
            }
        }
        Config::All(list) => {
            if list.len() < 2 {
                return false;
            }
            let n = list.len();
            let mut i: usize = 0;
            while i < n
                invariant
                    i <= n,
                    n == list@.len(),
                    *c is All,
                    c->All_0 == *list,
                    forall|j: int|
                        0 <= j < i ==> norm(#[trigger] list@[j]) && !(list@[j] is True),
                decreases n - i,
            {
                proof {
                    assert(decreases_to!(*c => c->All_0));
                    assert(decreases_to!(c->All_0 => c->All_0@));
                    assert(decreases_to!(c->All_0@ => c->All_0@[i as int]));
                }
                if matches!(&list[i], Config::True) {
                    return false;
                }
                if !is_norm(&list[i]) {
                    return false;
                }
                i += 1;
            }
            true
        }
        Config::Any(list) => {
            if list.len() < 2 {
                return false;
            }
            let n = list.len();
            let mut i: usize = 0;
            while i < n
                invariant
                    i <= n,
                    n == list@.len(),
                    *c is Any,
                    c->Any_0 == *list,
                    forall|j: int|
                        0 <= j < i ==> norm(#[trigger] list@[j]) && !(list@[j] is False),
                decreases n - i,
            {
                proof {
                    assert(decreases_to!(*c => c->Any_0));
                    assert(decreases_to!(c->Any_0 => c->Any_0@));
                    assert(decreases_to!(c->Any_0@ => c->Any_0@[i as int]));
                }
                if matches!(&list[i], Config::False) {
                    return false;
                }
                if !is_norm(&list[i]) {
                    return false;
                }
                i += 1;
            }
            true
        }
        _ => true,
    }
}

proof fn lemma_all_push(s: Seq<Config>, x: Config, v: Set<Var>)
    ensures
        all_sat(s.push(x), v) == (all_sat(s, v) && sat(x, v)),
{
    if all_sat(s.push(x), v) {
        assert forall|i: int| 0 <= i < s.len() implies sat(#[trigger] s[i], v) by {
            assert(sat(s.push(x)[i], v));
        }
        assert(sat(s.push(x)[s.len() as int], v));
    }
    if all_sat(s, v) && sat(x, v) {
        assert forall|i: int| 0 <= i < s.push(x).len() implies sat(#[trigger] s.push(x)[i], v) by {
            if i < s.len() {
                assert(sat(s[i], v));
            }
        }
    }
}

/// Simplify a predicate, removing certain kinds of redundancies: the
/// result accepts the same assignments, is in simplified form, and a
/// predicate already in simplified form comes back unchanged.
fn simplify_val(c: Config) -> (r: Config)
    ensures
        forall|v: Set<Var>| #[trigger] sat(r, v) == sat(c, v),
        norm(r),
        simplifies_to(c, r),
        norm(c) ==> r == c,
    decreases c,
{
    let ghost c0 = c;
    if is_norm(&c) {
        proof {
            lemma_norm_simplifies_self(c);
        }
        return c;
    }
    match c {
        Config::Not(inner) => {
            proof {
                assert(decreases_to!(c0 => c0->Not_0));
            }
            let si = simplify_val(*inner);
            match si {
                Config::True => {
                    proof {
                        assert forall|v: Set<Var>| #[trigger] sat(Config::False, v) == sat(
                            c0,
                            v,
                        ) by {
                            assert(sat(si, v) == sat(*c0->Not_0, v));
                        }
                        assert(not_collapse(si, Config::False));
                        assert(simplifies_to(c0, Config::False));
                    }
                    Config::False
                }
                Config::False => {
                    proof {
                        assert forall|v: Set<Var>| #[trigger] sat(Config::True, v) == sat(
                            c0,
                            v,
                        ) by {
                            assert(sat(si, v) == sat(*c0->Not_0, v));
                        }
                        assert(not_collapse(si, Config::True));
                        assert(simplifies_to(c0, Config::True));
                    }
                    Config::True
                }
                s => {
                    let ghost s0 = s;
                    let r = Config::Not(Box::new(s));
                    proof {
                        assert(norm(r)) by {
                            assert(*r->Not_0 == s0);
                        }
                        assert forall|v: Set<Var>| #[trigger] sat(r, v) == sat(c0, v) by {
                            assert(sat(s0, v) == sat(*c0->Not_0, v));
                            assert(sat(r, v) == !sat(s0, v));
                        }
                        assert(not_collapse(s0, r));
                        assert(simplifies_to(c0, r));
                    }
                    r
                }
            }
        }
        Config::All(mut list) => {
            let ghost l0 = list@;
            let n0 = list.len();
            let mut out: Vec<Config> = Vec::new();
            let mut k: usize = 0;
            while list.len() > 0
                invariant
                    c == c0,
                    k <= l0.len(),
                    l0.len() == n0,
                    list@ == l0.subrange(k as int, l0.len() as int),
                    c0 is All,
                    c0->All_0@ == l0,
                    forall|i: int|
                        0 <= i < out@.len() ==> norm(#[trigger] out@[i]) && !(out@[i] is True),
                    forall|v: Set<Var>|
                        #[trigger] all_sat(out@, v) == all_sat(l0.take(k as int), v),
                    simplifies_seq(l0.take(k as int), out@, true, 0, 0),
                decreases list@.len(),
            {
                let item = list.remove(0);
                proof {
                    assert(item == l0[k as int]);
                    assert(list@ =~= l0.subrange(k + 1, l0.len() as int));
                    assert(decreases_to!(c0 => c0->All_0));
                    assert(decreases_to!(c0->All_0 => c0->All_0@));
                    assert(decreases_to!(c0->All_0@ => c0->All_0@[k as int]));
                }
                let s = simplify_val(item);
                let ghost out_pre = out@;
                let drop_it = s.is_universal();
                if !drop_it {
                    out.push(s);
                }
                proof {
                    assert(l0.take(k + 1) =~= l0.take(k as int).push(l0[k as int]));
                    assert forall|v: Set<Var>| #[trigger] all_sat(out@, v) == all_sat(
                        l0.take(k + 1),
                        v,
                    ) by {
                        lemma_all_push(l0.take(k as int), l0[k as int], v);
                        assert(sat(s, v) == sat(l0[k as int], v));
                        if !drop_it {
                            lemma_all_push(out_pre, s, v);
                        }
                        assert(all_sat(out_pre, v) == all_sat(l0.take(k as int), v));
                    }
                    if drop_it {
                        lemma_simplifies_seq_push_dropped(
                            l0.take(k as int),
                            out_pre,
                            true,
                            0,
                            0,
                            l0[k as int],
                            s,
                        );
                    } else {
                        lemma_simplifies_seq_push_kept(
                            l0.take(k as int),
                            out_pre,
                            true,
                            0,
                            0,
                            l0[k as int],
                            s,
                        );
                        assert(out@ =~= out_pre.push(s));
                    }
                }
                k += 1;
            }
            proof {
                assert(k == l0.len());
                assert(l0.take(k as int) =~= l0);
            }
            if out.len() == 0 {
                proof {
                    assert forall|v: Set<Var>| #[trigger] sat(Config::True, v) == sat(c0, v) by {
                        lemma_sat_all_view(c0, l0, v);
                        assert(all_sat(out@, v));
                    }
                    assert(all_collapse(out@, Config::True));
                    assert(simplifies_seq(c0->All_0@, out@, true, 0, 0));
                    assert(simplifies_to(c0, Config::True));
                }
                Config::True
            } else if out.len() == 1 {
                let ghost out0 = out@;
                let x = out.pop().unwrap();
                proof {
                    assert(x == out0[0]);
                    assert forall|v: Set<Var>| #[trigger] sat(x, v) == sat(c0, v) by {
                        lemma_sat_all_view(c0, l0, v);
                        assert(all_sat(out0, v) == sat(x, v)) by {
                            if sat(x, v) {
                                assert forall|i: int| 0 <= i < out0.len() implies sat(
                                    #[trigger] out0[i],
                                    v,
                                ) by {
                                    assert(out0[i] == x);
                                }
                            } else {
                                assert(!sat(out0[0], v));
                            }
                        }
                    }
                    assert(all_collapse(out0, x));
                    assert(simplifies_seq(c0->All_0@, out0, true, 0, 0));
                    assert(simplifies_to(c0, x));
                }
                x
            } else {
                let ghost outv = out@;
                let r = Config::All(out);
                proof {
                    assert(norm(r)) by {
                        assert(r->All_0@ == outv);
                    }
                    assert forall|v: Set<Var>| #[trigger] sat(r, v) == sat(c0, v) by {
                        lemma_sat_all_view(c0, l0, v);
                        lemma_sat_all_view(r, outv, v);
                    }
                    assert(all_collapse(outv, r));
                    assert(simplifies_seq(c0->All_0@, outv, true, 0, 0));
                    assert(simplifies_to(c0, r));
                }
                r
            }
        }
        Config::Any(mut list) => {
            let ghost l0 = list@;
            let n0 = list.len();
            let mut out: Vec<Config> = Vec::new();
            let mut k: usize = 0;
            while list.len() > 0
                invariant
                    c == c0,
                    k <= l0.len(),
                    l0.len() == n0,
                    list@ == l0.subrange(k as int, l0.len() as int),
                    c0 is Any,
                    c0->Any_0@ == l0,
                    forall|i: int|
                        0 <= i < out@.len() ==> norm(#[trigger] out@[i]) && !(out@[i] is False),
                    forall|v: Set<Var>|
                        #[trigger] any_sat(out@, v) == any_sat(l0.take(k as int), v),
                    simplifies_seq(l0.take(k as int), out@, false, 0, 0),
                decreases list@.len(),
            {
                let item = list.remove(0);
                proof {
                    assert(item == l0[k as int]);
                    assert(list@ =~= l0.subrange(k + 1, l0.len() as int));
                    assert(decreases_to!(c0 => c0->Any_0));
                    assert(decreases_to!(c0->Any_0 => c0->Any_0@));
                    assert(decreases_to!(c0->Any_0@ => c0->Any_0@[k as int]));
                }
                let s = simplify_val(item);
                let ghost out_pre = out@;
                let drop_it = matches!(&s, Config::False);
                if !drop_it {
                    out.push(s);
                }
                proof {
                    assert(l0.take(k + 1) =~= l0.take(k as int).push(l0[k as int]));
                    assert forall|v: Set<Var>| #[trigger] any_sat(out@, v) == any_sat(
                        l0.take(k + 1),
                        v,
                    ) by {
                        lemma_any_push(l0.take(k as int), l0[k as int], v);
                        assert(sat(s, v) == sat(l0[k as int], v));
                        if !drop_it {
                            lemma_any_push(out_pre, s, v);
                        }
                        assert(any_sat(out_pre, v) == any_sat(l0.take(k as int), v));
                    }
                    if drop_it {
                        lemma_simplifies_seq_push_dropped(
                            l0.take(k as int),
                            out_pre,
                            false,
                            0,
                            0,
                            l0[k as int],
                            s,
                        );
                    } else {
                        lemma_simplifies_seq_push_kept(
                            l0.take(k as int),
                            out_pre,
                            false,
                            0,
                            0,
                            l0[k as int],
                            s,
                        );
                        assert(out@ =~= out_pre.push(s));
                    }
                }
                k += 1;
            }
            proof {
                assert(k == l0.len());
                assert(l0.take(k as int) =~= l0);
            }
            if out.len() == 0 {
                proof {
                    assert forall|v: Set<Var>| #[trigger] sat(Config::False, v) == sat(c0, v) by {
                        lemma_sat_any_view(c0, l0, v);
                        assert(!any_sat(out@, v));
                    }
                    assert(any_collapse(out@, Config::False));
                    assert(simplifies_seq(c0->Any_0@, out@, false, 0, 0));
                    assert(simplifies_to(c0, Config::False));
                }
                Config::False
            } else if out.len() == 1 {
                let ghost out0 = out@;
                let x = out.pop().unwrap();
                proof {
                    assert(x == out0[0]);
                    assert forall|v: Set<Var>| #[trigger] sat(x, v) == sat(c0, v) by {
                        lemma_sat_any_view(c0, l0, v);
                        assert(any_sat(out0, v) == sat(x, v)) by {
                            if sat(x, v) {
                                assert(sat(out0[0], v));
                            } else {
                                if any_sat(out0, v) {
                                    let i = choose|i: int|
                                        0 <= i < out0.len() && sat(#[trigger] out0[i], v);
                                    assert(out0[i] == x);
                                }
                            }
                        }
                    }
                    assert(any_collapse(out0, x));
                    assert(simplifies_seq(c0->Any_0@, out0, false, 0, 0));
                    assert(simplifies_to(c0, x));
                }
                x
            } else {
                let ghost outv = out@;
                let r = Config::Any(out);
                proof {
                    assert(norm(r)) by {
                        assert(r->Any_0@ == outv);
                    }
                    assert forall|v: Set<Var>| #[trigger] sat(r, v) == sat(c0, v) by {
                        lemma_sat_any_view(c0, l0, v);
                        lemma_sat_any_view(r, outv, v);
                    }
                    assert(any_collapse(outv, r));
                    assert(simplifies_seq(c0->Any_0@, outv, false, 0, 0));
                    assert(simplifies_to(c0, r));
                }
                r
            }
        }
        c2 => {
            proof {
                assert(simplifies_to(c0, c2));
            }
            c2
        }
    }
}

impl Config {
    /// Simplify this config, removing certain kinds of redundancies.
    ///
    /// The rewritten predicate accepts exactly the assignments the old one
    /// accepted, and is in simplified form; a predicate already in
    /// simplified form is left exactly as it was, so simplifying twice
    /// gives the same tree as simplifying once.
    pub fn simplify(&mut self)
        ensures
            forall|v: Set<Var>| #[trigger] sat(*final(self), v) == sat(*old(self), v),
            norm(*final(self)),
            simplifies_to(*old(self), *final(self)),
            norm(*old(self)) ==> *final(self) == *old(self),
    {
        let mut tmp = Config::True;
        core::mem::swap(self, &mut tmp);
        let s = simplify_val(tmp);
        *self = s;
    }
}

/// The shape of one attribute meta item, as the loader hands it over: a
/// bare word, a named list, or a key/value pair.  A value that is not a
/// string literal is carried as its textual rendering.
pub enum Meta {
    Word(String),
    List(String, Vec<Meta>),
    NameValue(String, String),
    NameValueOther(String, String),
}

/// The target-property keys of the predicate mini-language.
pub open spec fn is_target_key(k: Seq<char>) -> bool {
    ||| k == "target_arch"@
    ||| k == "target_os"@
    ||| k == "target_family"@
    ||| k == "target_env"@
    ||| k == "target_endian"@
    ||| k == "target_pointer_width"@
    ||| k == "target_vendor"@
}

/// The flag name under which a `target_has_atomic` value is filed: the
/// key may legitimately hold several values at once, so each value
/// becomes an opaque flag of its own rather than a target property.
pub open spec fn atomic_flag(val: Seq<char>) -> Seq<char> {
    "target_has_atomic=\""@ + val + "\""@
}

/// Truth value, under an assignment, of the predicate that the mini
/// language assigns to a meta item; malformed items degrade to a flag
/// named after their head, so this is total.
pub open spec fn meta_sat(m: Meta, v: Set<Var>) -> bool
    decreases m,
{
    match m {
        Meta::Word(w) => if w@ == "unix"@ || w@ == "windows"@ {
            v.contains(Var::Prop("target_family"@, w@))
        } else {
            v.contains(Var::Switch(w@))
        },
        Meta::List(name, items) => if name@ == "all"@ {
            forall|i: int| 0 <= i < items@.len() ==> meta_sat(#[trigger] items@[i], v)
        } else if name@ == "any"@ {
            exists|i: int| 0 <= i < items@.len() && meta_sat(#[trigger] items@[i], v)
        } else if name@ == "not"@ {
            if items@.len() == 1 {
                !meta_sat(items@[0], v)
            } else {
                v.contains(Var::Switch("not"@))
            }
        } else {
            v.contains(Var::Switch(name@))
        },
        Meta::NameValue(key, val) => if key@ == "feature"@ {
            v.contains(Var::Feat(val@))
        } else if is_target_key(key@) {
            v.contains(Var::Prop(key@, val@))
        } else if key@ == "target_has_atomic"@ {
            v.contains(Var::Switch(atomic_flag(val@)))
        } else {
            v.contains(Var::Switch(key@))
        },
        Meta::NameValueOther(key, _) => v.contains(Var::Switch(key@)),
    }
}

/// A meta item that parses without any diagnostic.
pub open spec fn meta_wf(m: Meta) -> bool
    decreases m,
{
    match m {
        Meta::Word(_) => true,
        Meta::List(name, items) => if name@ == "all"@ || name@ == "any"@ {
            forall|i: int| 0 <= i < items@.len() ==> meta_wf(#[trigger] items@[i])
        } else if name@ == "not"@ {
            items@.len() == 1 && meta_wf(items@[0])
        } else {
            false
        },
        Meta::NameValue(key, _) => key@ == "feature"@ || is_target_key(key@) || key@
            == "target_has_atomic"@,
        Meta::NameValueOther(_, _) => false,
    }
}

/// The predicate tree that the mini language assigns to a meta item: the
/// wire format of spec concern, pinned structurally.  A bare word becomes
/// a flag, or a `target_family` property for the two standard family
/// words; `all`/`any`/`not` become the combinators over the recursively
/// parsed items in order; key/value pairs become features, target
/// properties or flags; every malformed form degrades to a flag named
/// after its head.
pub open spec fn parses_to(m: Meta, c: Config) -> bool
    decreases m,
{
    match m {
        Meta::Word(w) => if w@ == "unix"@ || w@ == "windows"@ {
            c is TargetProperty && c->TargetProperty_0@ == "target_family"@
                && c->TargetProperty_1@ == w@
        } else {
            c is Flag && c->Flag_0@ == w@
        },
        Meta::List(name, items) => if name@ == "all"@ {
            c is All && c->All_0@.len() == items@.len() && forall|i: int|
                0 <= i < items@.len() ==> parses_to(#[trigger] items@[i], c->All_0@[i])
        } else if name@ == "any"@ {
            c is Any && c->Any_0@.len() == items@.len() && forall|i: int|
                0 <= i < items@.len() ==> parses_to(#[trigger] items@[i], c->Any_0@[i])
        } else if name@ == "not"@ {
            if items@.len() == 1 {
                c is Not && parses_to(items@[0], *c->Not_0)
            } else {
                c is Flag && c->Flag_0@ == "not"@
            }
        } else {
            c is Flag && c->Flag_0@ == name@
        },
        Meta::NameValue(key, val) => if key@ == "feature"@ {
            c is Feature && c->Feature_0@ == val@
        } else if is_target_key(key@) {
            c is TargetProperty && c->TargetProperty_0@ == key@ && c->TargetProperty_1@ == val@
        } else if key@ == "target_has_atomic"@ {
            c is Flag && c->Flag_0@ == atomic_flag(val@)
        } else {
            c is Flag && c->Flag_0@ == key@
        },
        Meta::NameValueOther(key, _) => c is Flag && c->Flag_0@ == key@,
    }
}

/// An attribute of the shape `cfg(<one item>)`.
pub open spec fn is_cfg_attr(m: Meta) -> bool {
    m is List && m->List_0@ == "cfg"@ && m->List_1@.len() == 1
}

/// The predicate item inside a `cfg(...)` attribute.
pub open spec fn cfg_attr_inner(m: Meta) -> Meta {
    m->List_1@[0]
}

/// Truth value of the conjunction of every `cfg(...)` attribute in the
/// list; a declaration without one is available everywhere.
pub open spec fn attrs_sat(attrs: Seq<Meta>, v: Set<Var>) -> bool {
    forall|i: int|
        0 <= i < attrs.len() && is_cfg_attr(#[trigger] attrs[i]) ==> meta_sat(
            cfg_attr_inner(attrs[i]),
            v,
        )
}

/// An attribute list without any `cfg(...)` attribute.
pub open spec fn attrs_trivial(attrs: Seq<Meta>) -> bool {
    forall|i: int| 0 <= i < attrs.len() ==> !is_cfg_attr(#[trigger] attrs[i])
}

/// An attribute list whose every `cfg(...)` attribute is well formed.
pub open spec fn attrs_wf(attrs: Seq<Meta>) -> bool {
    forall|i: int|
        0 <= i < attrs.len() && is_cfg_attr(#[trigger] attrs[i]) ==> meta_wf(cfg_attr_inner(
            attrs[i],
        ))
}

/// The predicates of the `cfg(...)` attributes from `ai` onward, parsed
/// in attribute order into `out` from `oi` onward.
pub open spec fn attrs_parse_seq(attrs: Seq<Meta>, out: Seq<Config>, ai: int, oi: int) -> bool
    decreases attrs.len() - ai,
{
    if ai < 0 || ai >= attrs.len() {
        oi == out.len()
    } else if is_cfg_attr(attrs[ai]) {
        0 <= oi < out.len() && parses_to(cfg_attr_inner(attrs[ai]), out[oi]) && attrs_parse_seq(
            attrs,
            out,
            ai + 1,
            oi + 1,
        )
    } else {
        attrs_parse_seq(attrs, out, ai + 1, oi)
    }
}

/// The predicate tree an attribute list yields when it is not trivial:
/// the sole parsed predicate, or the conjunction of all of them in
/// attribute order.
pub open spec fn attrs_parse_to(attrs: Seq<Meta>, c: Config) -> bool {
    exists|out: Seq<Config>|
        #![trigger attrs_parse_seq(attrs, out, 0, 0)]
        attrs_parse_seq(attrs, out, 0, 0) && out.len() >= 1 && if out.len() == 1 {
            c == out[0]
        } else {
            c is All && c->All_0@ == out
        }
}

/// Extending the attribute list by one more `cfg(...)` attribute appends
/// its parsed predicate.
proof fn lemma_attrs_parse_push_cfg(
    attrs: Seq<Meta>,
    out: Seq<Config>,
    ai: int,
    oi: int,
    m: Meta,
    c: Config,
)
    requires
        0 <= ai <= attrs.len(),
        0 <= oi <= out.len(),
        attrs_parse_seq(attrs, out, ai, oi),
        is_cfg_attr(m),
        parses_to(cfg_attr_inner(m), c),
    ensures
        attrs_parse_seq(attrs.push(m), out.push(c), ai, oi),
    decreases attrs.len() - ai,
{
    if ai >= attrs.len() {
        assert(attrs.push(m)[ai] == m);
        assert(out.push(c)[oi] == c);
        assert(attrs_parse_seq(attrs.push(m), out.push(c), ai + 1, oi + 1));
    } else {
        assert(attrs.push(m)[ai] == attrs[ai]);
        if is_cfg_attr(attrs[ai]) {
            assert(out.push(c)[oi] == out[oi]);
            lemma_attrs_parse_push_cfg(attrs, out, ai + 1, oi + 1, m, c);
        } else {
            lemma_attrs_parse_push_cfg(attrs, out, ai + 1, oi, m, c);
        }
    }
}

/// Extending the attribute list by anything else leaves the parsed
/// predicates as they were.
proof fn lemma_attrs_parse_push_other(
    attrs: Seq<Meta>,
    out: Seq<Config>,
    ai: int,
    oi: int,
    m: Meta,
)
    requires
        0 <= ai <= attrs.len(),
        0 <= oi <= out.len(),
        attrs_parse_seq(attrs, out, ai, oi),
        !is_cfg_attr(m),
    ensures
        attrs_parse_seq(attrs.push(m), out, ai, oi),
    decreases attrs.len() - ai,
{
    if ai >= attrs.len() {
        assert(attrs.push(m)[ai] == m);
        assert(attrs_parse_seq(attrs.push(m), out, ai + 1, oi));
    } else {
        assert(attrs.push(m)[ai] == attrs[ai]);
        if is_cfg_attr(attrs[ai]) {
            assert(out[oi] == out[oi]);
            lemma_attrs_parse_push_other(attrs, out, ai + 1, oi + 1, m);
        } else {
            lemma_attrs_parse_push_other(attrs, out, ai + 1, oi, m);
        }
    }
}

/// Whether a string equals a literal keyword.
fn eq_lit(s: &String, lit: &str) -> (r: bool)
    ensures
        r == (s@ == lit@),
{
    let l: String = lit.to_owned();
    *s == l
}

/// Whether a key names a target property.
fn is_target_key_ex(k: &String) -> (r: bool)
    ensures
        r == is_target_key(k@),
{
    eq_lit(k, "target_arch") || eq_lit(k, "target_os") || eq_lit(k, "target_family") || eq_lit(
        k,
        "target_env",
    ) || eq_lit(k, "target_endian") || eq_lit(k, "target_pointer_width") || eq_lit(
        k,
        "target_vendor",
    )
}

/// Push an error entry onto the report.
fn push_error(r: &mut Report, text: String)
    ensures
        final(r).item == old(r).item,
        final(r).children@.len() == old(r).children@.len() + 1,
        forall|i: int|
            0 <= i < old(r).children@.len() ==> final(r).children@[i] == old(r).children@[i],
        final(r).children@.last().item.severity == Severity::Error,
        appended_not_lazy(*old(r), *final(r)),
{
    r.push(ReportItem { strict: Strictness::Strict, severity: Severity::Error, text });
}

/// Extract the predicate of one meta item, degrading malformed items to
/// an opaque flag beside an error entry so that the surrounding
/// comparison can continue.
fn cfg_from_meta(r: &mut Report, m: &Meta) -> (c: Config)
    ensures
        forall|v: Set<Var>| #[trigger] sat(c, v) == meta_sat(*m, v),
        !(c is True) && !(c is False),
        final(r).item == old(r).item,
        final(r).children@.len() >= old(r).children@.len(),
        forall|i: int|
            0 <= i < old(r).children@.len() ==> final(r).children@[i] == old(r).children@[i],
        forall|i: int|
            old(r).children@.len() <= i < final(r).children@.len()
                ==> final(r).children@[i].item.severity == Severity::Error,
        appended_not_lazy(*old(r), *final(r)),
        parses_to(*m, c),
        meta_wf(*m) ==> *final(r) == *old(r),
        !meta_wf(*m) ==> final(r).children@.len() > old(r).children@.len(),
    decreases *m,
{
    match m {
        Meta::Word(w) => {
            if eq_lit(w, "unix") || eq_lit(w, "windows") {
                let c = Config::TargetProperty("target_family".to_owned(), w.clone());
                proof {
                    assert forall|v: Set<Var>| #[trigger] sat(c, v) == meta_sat(*m, v) by {
                        assert(sat(c, v) == v.contains(Var::Prop("target_family"@, w@)));
                    }
                    assert(parses_to(*m, c));
                }
                c
            } else {
                let c = Config::Flag(w.clone());
                proof {
                    assert forall|v: Set<Var>| #[trigger] sat(c, v) == meta_sat(*m, v) by {
                        assert(sat(c, v) == v.contains(Var::Switch(w@)));
                    }
                    assert(parses_to(*m, c));
                }
                c
            }
        }
        Meta::List(name, items) => {
            if eq_lit(name, "all") || eq_lit(name, "any") {
                let conj = eq_lit(name, "all");
                let n = items.len();
                let mut parsed: Vec<Config> = Vec::new();
                let mut i: usize = 0;
                while i < n
                    invariant
                        i <= n,
                        n == items@.len(),
                        *m is List,
                        m->List_1 == *items,
                        parsed@.len() == i,
                        forall|j: int|
                            0 <= j < i ==> !((#[trigger] parsed@[j]) is True) && !(
                            parsed@[j] is False),
                        forall|j: int, v: Set<Var>|
                            0 <= j < i ==> #[trigger] sat(parsed@[j], v) == meta_sat(
                                items@[j],
                                v,
                            ),
                        r.item == old(r).item,
                        r.children@.len() >= old(r).children@.len(),
                        forall|j: int|
                            0 <= j < old(r).children@.len() ==> r.children@[j] == old(
                                r,
                            ).children@[j],
                        forall|j: int|
                            old(r).children@.len() <= j < r.children@.len()
                                ==> r.children@[j].item.severity == Severity::Error,
                        appended_not_lazy(*old(r), *r),
                        forall|j: int| 0 <= j < i ==> parses_to(#[trigger] items@[j], parsed@[j]),
                        (forall|j: int| 0 <= j < i ==> meta_wf(#[trigger] items@[j])) ==> *r
                            == *old(r),
                        (exists|j: int| 0 <= j < i && !meta_wf(#[trigger] items@[j]))
                            ==> r.children@.len() > old(r).children@.len(),
                    decreases n - i,
                {
                    proof {
                        assert(decreases_to!(*m => m->List_1));
                        assert(decreases_to!(m->List_1 => m->List_1@));
                        assert(decreases_to!(m->List_1@ => m->List_1@[i as int]));
                    }
                    let c = cfg_from_meta(r, &items[i]);
                    parsed.push(c);
                    i += 1;
                }
                if conj {
                    let ghost pv = parsed@;
                    let c = Config::All(parsed);
                    proof {
                        assert forall|v: Set<Var>| #[trigger] sat(c, v) == meta_sat(*m, v) by {
                            lemma_sat_all_view(c, pv, v);
                            if all_sat(pv, v) {
                                assert forall|j: int| 0 <= j < items@.len() implies meta_sat(
                                    #[trigger] items@[j],
                                    v,
                                ) by {
                                    assert(sat(pv[j], v));
                                }
                            }
                            if meta_sat(*m, v) {
                                assert forall|j: int| 0 <= j < pv.len() implies sat(
                                    #[trigger] pv[j],
                                    v,
                                ) by {
                                    assert(meta_sat(items@[j], v));
                                }
                            }
                        }
                        assert(parses_to(*m, c)) by {
                            assert(c->All_0@ == pv);
                        }
                        if !meta_wf(*m) {
                            assert(exists|j: int| 0 <= j < n && !meta_wf(#[trigger] items@[j]));
                        }
                    }
                    c
                } else {
                    let ghost pv = parsed@;
                    let c = Config::Any(parsed);
                    proof {
                        assert forall|v: Set<Var>| #[trigger] sat(c, v) == meta_sat(*m, v) by {
                            lemma_sat_any_view(c, pv, v);
                            if any_sat(pv, v) {
                                let j = choose|j: int| 0 <= j < pv.len() && sat(
                                    #[trigger] pv[j],
                                    v,
                                );
                                assert(meta_sat(items@[j], v));
                            }
                            if meta_sat(*m, v) {
                                let j = choose|j: int|
                                    0 <= j < items@.len() && meta_sat(#[trigger] items@[j], v);
                                assert(sat(pv[j], v));
                            }
                        }
                        assert(parses_to(*m, c)) by {
                            assert(c->Any_0@ == pv);
                        }
                        if !meta_wf(*m) {
                            assert(exists|j: int| 0 <= j < n && !meta_wf(#[trigger] items@[j]));
                        }
                    }
                    c
                }
            } else if eq_lit(name, "not") {
                if items.len() == 1 {
                    proof {
                        assert(decreases_to!(*m => m->List_1));
                        assert(decreases_to!(m->List_1 => m->List_1@));
                        assert(decreases_to!(m->List_1@ => m->List_1@[0]));
                    }
                    let inner = cfg_from_meta(r, &items[0]);
                    let ghost i0 = inner;
                    let c = Config::Not(Box::new(inner));
                    proof {
                        assert forall|v: Set<Var>| #[trigger] sat(c, v) == meta_sat(*m, v) by {
                            assert(sat(c, v) == !sat(i0, v));
                            assert(sat(i0, v) == meta_sat(m->List_1@[0], v));
                        }
                        assert(parses_to(*m, c)) by {
                            assert(*c->Not_0 == i0);
                        }
                    }
                    c
                } else {
                    push_error(r, "Non-unary #[cfg(not())]".to_owned());
                    let c = Config::Flag("not".to_owned());
                    proof {
                        assert forall|v: Set<Var>| #[trigger] sat(c, v) == meta_sat(*m, v) by {
                            assert(sat(c, v) == v.contains(Var::Switch("not"@)));
                        }
                        assert(parses_to(*m, c));
                    }
                    c
                }
            } else {
                let mut text: String = "Unknown #[cfg] list: ".to_owned();
                text.append(name.as_str());
                text.append("(...)");
                push_error(r, text);
                let c = Config::Flag(name.clone());
                proof {
                    assert forall|v: Set<Var>| #[trigger] sat(c, v) == meta_sat(*m, v) by {
                        assert(sat(c, v) == v.contains(Var::Switch(name@)));
                    }
                    assert(parses_to(*m, c));
                }
                c
            }
        }
        Meta::NameValue(key, val) => {
            if eq_lit(key, "feature") {
                let c = Config::Feature(val.clone());
                proof {
                    assert forall|v: Set<Var>| #[trigger] sat(c, v) == meta_sat(*m, v) by {
                        assert(sat(c, v) == v.contains(Var::Feat(val@)));
                    }
                    assert(parses_to(*m, c));
                }
                c
            } else if is_target_key_ex(key) {
                let c = Config::TargetProperty(key.clone(), val.clone());
                proof {
                    assert forall|v: Set<Var>| #[trigger] sat(c, v) == meta_sat(*m, v) by {
                        assert(sat(c, v) == v.contains(Var::Prop(key@, val@)));
                    }
                    assert(parses_to(*m, c));
                }
                c
            } else if eq_lit(key, "target_has_atomic") {
                // may be true for multiple values; treat like a flag
                let mut flag: String = "target_has_atomic=\"".to_owned();
                flag.append(val.as_str());
                flag.append("\"");
                let c = Config::Flag(flag);
                proof {
                    assert forall|v: Set<Var>| #[trigger] sat(c, v) == meta_sat(*m, v) by {
                        assert(sat(c, v) == v.contains(Var::Switch(atomic_flag(val@))));
                    }
                    assert(parses_to(*m, c));
                }
                c
            } else {
                let mut text: String = "Unknown #[cfg] key-value pair: ".to_owned();
                text.append(key.as_str());
                text.append(" = \"");
                text.append(val.as_str());
                text.append("\"");
                push_error(r, text);
                let c = Config::Flag(key.clone());
                proof {
                    assert forall|v: Set<Var>| #[trigger] sat(c, v) == meta_sat(*m, v) by {
                        assert(sat(c, v) == v.contains(Var::Switch(key@)));
                    }
                    assert(parses_to(*m, c));
                }
                c
            }
        }
        Meta::NameValueOther(key, rendering) => {
            let mut text: String = "Non-string #[cfg]: ".to_owned();
            text.append(key.as_str());
            text.append(" = ");
            text.append(rendering.as_str());
            push_error(r, text);
            let c = Config::Flag(key.clone());
            proof {
                assert forall|v: Set<Var>| #[trigger] sat(c, v) == meta_sat(*m, v) by {
                    assert(sat(c, v) == v.contains(Var::Switch(key@)));
                }
                assert(parses_to(*m, c));
            }
            c
        }
    }
}

/// Conjunction of the first `n` attributes' predicates.
spec fn attrs_sat_upto(attrs: Seq<Meta>, n: int, v: Set<Var>) -> bool {
    forall|i: int|
        0 <= i < n && is_cfg_attr(#[trigger] attrs[i]) ==> meta_sat(cfg_attr_inner(attrs[i]), v)
}

/// Extract a predicate from the given list of attributes, or nothing when
/// no `cfg(...)` attribute is present.
fn cfg_from_attr_list(r: &mut Report, attrs: &Vec<Meta>) -> (res: Option<Config>)
    ensures
        final(r).item == old(r).item,
        final(r).children@.len() >= old(r).children@.len(),
        forall|i: int|
            0 <= i < old(r).children@.len() ==> final(r).children@[i] == old(r).children@[i],
        forall|i: int|
            old(r).children@.len() <= i < final(r).children@.len()
                ==> final(r).children@[i].item.severity == Severity::Error,
        appended_not_lazy(*old(r), *final(r)),
        attrs_wf(attrs@) ==> *final(r) == *old(r),
        !attrs_wf(attrs@) ==> final(r).children@.len() > old(r).children@.len(),
        res is None <==> attrs_trivial(attrs@),
        res is Some ==> forall|v: Set<Var>|
            #[trigger] sat(res->Some_0, v) == attrs_sat(attrs@, v),
        res is Some ==> !(res->Some_0 is True) && !(res->Some_0 is False),
        res is Some ==> attrs_parse_to(attrs@, res->Some_0),
{
    let n = attrs.len();
    let mut parsed: Vec<Config> = Vec::new();
    let mut i: usize = 0;
    while i < n
        invariant
            i <= n,
            n == attrs@.len(),
            parsed@.len() == 0 <==> attrs_trivial(attrs@.take(i as int)),
            forall|j: int|
                0 <= j < parsed@.len() ==> !((#[trigger] parsed@[j]) is True) && !(
                parsed@[j] is False),
            forall|v: Set<Var>|
                #[trigger] all_sat(parsed@, v) == attrs_sat_upto(attrs@, i as int, v),
            r.item == old(r).item,
            r.children@.len() >= old(r).children@.len(),
            forall|j: int|
                0 <= j < old(r).children@.len() ==> r.children@[j] == old(r).children@[j],
            appended_not_lazy(*old(r), *r),
            forall|j: int|
                old(r).children@.len() <= j < r.children@.len()
                    ==> r.children@[j].item.severity == Severity::Error,
            attrs_parse_seq(attrs@.take(i as int), parsed@, 0, 0),
            attrs_wf(attrs@.take(i as int)) ==> *r == *old(r),
            !attrs_wf(attrs@.take(i as int)) ==> r.children@.len() > old(r).children@.len(),
        decreases n - i,
    {
        let ghost pre = parsed@;
        let mut matched = false;
        match &attrs[i] {
            Meta::List(name, items) => {
                if eq_lit(name, "cfg") && items.len() == 1 {
                    matched = true;
                    proof {
                        assert(is_cfg_attr(attrs@[i as int]));
                    }
                    let c = cfg_from_meta(r, &items[0]);
                    parsed.push(c);
                    proof {
                        assert(cfg_attr_inner(attrs@[i as int]) == items@[0]);
                        assert forall|v: Set<Var>| #[trigger] all_sat(parsed@, v)
                            == attrs_sat_upto(attrs@, i + 1, v) by {
                            lemma_all_push(pre, parsed@.last(), v);
                            assert(attrs_sat_upto(attrs@, i as int, v) == all_sat(pre, v));
                        }
                        lemma_attrs_parse_push_cfg(
                            attrs@.take(i as int),
                            pre,
                            0,
                            0,
                            attrs@[i as int],
                            parsed@.last(),
                        );
                        assert(attrs@.take(i + 1) =~= attrs@.take(i as int).push(
                            attrs@[i as int],
                        ));
                        assert(parsed@ =~= pre.push(parsed@.last()));
                    }
                }
            }
            _ => {}
        }
        proof {
            if !matched {
                assert(!is_cfg_attr(attrs@[i as int]));
                lemma_attrs_parse_push_other(attrs@.take(i as int), parsed@, 0, 0, attrs@[i as int]);
                assert(attrs@.take(i + 1) =~= attrs@.take(i as int).push(attrs@[i as int]));
                assert forall|v: Set<Var>| #[trigger] all_sat(parsed@, v) == attrs_sat_upto(
                    attrs@,
                    i + 1,
                    v,
                ) by {
                    assert(attrs_sat_upto(attrs@, i as int, v) == all_sat(parsed@, v));
                }
            }
            assert(attrs_trivial(attrs@.take(i + 1)) <==> (attrs_trivial(attrs@.take(i as int))
                && !is_cfg_attr(attrs@[i as int]))) by {
                assert(attrs@.take(i + 1)[i as int] == attrs@[i as int]);
                assert(forall|j: int| 0 <= j < i ==> attrs@.take(i + 1)[j] == attrs@.take(
                    i as int,
                )[j]);
                if attrs_trivial(attrs@.take(i as int)) && !is_cfg_attr(attrs@[i as int]) {
                    assert forall|j: int| 0 <= j < i + 1 implies !is_cfg_attr(
                        #[trigger] attrs@.take(i + 1)[j],
                    ) by {
                        if j < i {
                            assert(!is_cfg_attr(attrs@.take(i as int)[j]));
                        }
                    }
                }
            }
            assert(attrs_wf(attrs@.take(i + 1)) ==> attrs_wf(attrs@.take(i as int)) && (
            is_cfg_attr(attrs@[i as int]) ==> meta_wf(cfg_attr_inner(attrs@[i as int])))) by {
                if attrs_wf(attrs@.take(i + 1)) {
                    assert forall|j: int|
                        0 <= j < i && is_cfg_attr(#[trigger] attrs@.take(i as int)[j]) implies
                    meta_wf(cfg_attr_inner(attrs@.take(i as int)[j])) by {
                        assert(attrs@.take(i + 1)[j] == attrs@.take(i as int)[j]);
                        assert(is_cfg_attr(attrs@.take(i + 1)[j]));
                    }
                    assert(attrs@.take(i + 1)[i as int] == attrs@[i as int]);
                }
            }
        }
        i += 1;
    }
    proof {
        assert(attrs@.take(n as int) =~= attrs@);
    }
    if parsed.len() == 0 {
        None
    } else if parsed.len() == 1 {
        let ghost pv = parsed@;
        let c = parsed.pop().unwrap();
        proof {
            assert(c == pv[0]);
            assert forall|v: Set<Var>| #[trigger] sat(c, v) == attrs_sat(attrs@, v) by {
                assert(all_sat(pv, v) == sat(c, v)) by {
                    if sat(c, v) {
                        assert forall|j: int| 0 <= j < pv.len() implies sat(
                            #[trigger] pv[j],
                            v,
                        ) by {
                            assert(pv[j] == c);
                        }
                    } else {
                        assert(!sat(pv[0], v));
                    }
                }
            }
        }
        Some(c)
    } else {
        let ghost pv = parsed@;
        let c = Config::All(parsed);
        proof {
            assert forall|v: Set<Var>| #[trigger] sat(c, v) == attrs_sat(attrs@, v) by {
                lemma_sat_all_view(c, pv, v);
            }
        }
        Some(c)
    }
}

impl Config {
    /// Extract a Config from the given list of attributes: the conjunction
    /// of every `cfg(...)` attribute, or the always-true sentinel when
    /// there is none.
    pub fn new(r: &mut Report, attrs: &Vec<Meta>) -> (c: Config)
        ensures
            forall|v: Set<Var>| #[trigger] sat(c, v) == attrs_sat(attrs@, v),
            (c is True) <==> attrs_trivial(attrs@),
            attrs_trivial(attrs@) ==> c == Config::True,
            !attrs_trivial(attrs@) ==> attrs_parse_to(attrs@, c),
            final(r).item == old(r).item,
            final(r).children@.len() >= old(r).children@.len(),
            forall|i: int|
                0 <= i < old(r).children@.len() ==> final(r).children@[i] == old(r).children@[i],
            forall|i: int|
                old(r).children@.len() <= i < final(r).children@.len()
                    ==> final(r).children@[i].item.severity == Severity::Error,
            appended_not_lazy(*old(r), *final(r)),
            attrs_wf(attrs@) ==> *final(r) == *old(r),
            !attrs_wf(attrs@) ==> final(r).children@.len() > old(r).children@.len(),
    {
        match cfg_from_attr_list(r, attrs) {
            Some(c) => c,
            None => {
                proof {
                    assert forall|v: Set<Var>| #[trigger] sat(Config::True, v) == attrs_sat(
                        attrs@,
                        v,
                    ) by {
                        assert forall|i: int|
                            0 <= i < attrs@.len() && is_cfg_attr(
                                #[trigger] attrs@[i],
                            ) implies meta_sat(cfg_attr_inner(attrs@[i]), v) by {
                            assert(!is_cfg_attr(attrs@[i]));
                        }
                    }
                }
                Config::True
            }
        }
    }
}

/// The textual form of a predicate, as it appears inside `#[cfg(...)]`.
pub open spec fn cfg_dbg(c: Config) -> Seq<char>
    decreases c, 1int,
{
    match c {
        Config::Not(inner) => "not("@ + cfg_dbg(*inner) + ")"@,
        Config::All(list) => "all("@ + cfg_dbg_list(list@, 0) + ")"@,
        Config::Any(list) => "any("@ + cfg_dbg_list(list@, 0) + ")"@,
        Config::TargetProperty(k, v) => k@ + "=\""@ + v@ + "\""@,
        Config::Feature(n) => "feature=\""@ + n@ + "\""@,
        Config::Flag(n) => n@,
        Config::True => "__true"@,
        Config::False => "__false"@,
    }
}

/// The comma-separated textual forms of the list entries from `i` on.
pub open spec fn cfg_dbg_list(l: Seq<Config>, i: int) -> Seq<char>
    decreases l, l.len() - i,
{
    if i < 0 || i >= l.len() {
        Seq::empty()
    } else if i == l.len() - 1 {
        cfg_dbg(l[i])
    } else {
        cfg_dbg(l[i]) + ", "@ + cfg_dbg_list(l, i + 1)
    }
}

/// The human-readable form of a predicate, wrapped in `#[cfg]` unless it
/// is a sentinel.
pub open spec fn cfg_text(c: Config) -> Seq<char> {
    match c {
        Config::True => "always available"@,
        Config::False => "never available"@,
        _ => "#[cfg("@ + cfg_dbg(c) + ")]"@,
    }
}

/// Append the `#[cfg(...)]` body of a predicate to a string.
fn render_dbg(c: &Config, out: &mut String)
    ensures
        final(out)@ == old(out)@ + cfg_dbg(*c),
    decreases *c, 1int,
{
    match c {
        Config::Not(inner) => {
            out.append("not(");
            render_dbg(&**inner, out);
            out.append(")");
            proof {
                assert(out@ =~= old(out)@ + cfg_dbg(*c));
            }
        }
        Config::All(list) => {
            proof {
                assert(decreases_to!(*c => c->All_0));
                assert(decreases_to!(c->All_0 => c->All_0@));
            }
            out.append("all(");
            render_dbg_list(list, 0, out);
            out.append(")");
            proof {
                assert(out@ =~= old(out)@ + cfg_dbg(*c));
            }
        }
        Config::Any(list) => {
            proof {
                assert(decreases_to!(*c => c->Any_0));
                assert(decreases_to!(c->Any_0 => c->Any_0@));
            }
            out.append("any(");
            render_dbg_list(list, 0, out);
            out.append(")");
            proof {
                assert(out@ =~= old(out)@ + cfg_dbg(*c));
            }
        }
        Config::TargetProperty(k, v) => {
            out.append(k.as_str());
            out.append("=\"");
            out.append(v.as_str());
            out.append("\"");
            proof {
                assert(out@ =~= old(out)@ + cfg_dbg(*c));
            }
        }
        Config::Feature(n) => {
            out.append("feature=\"");
            out.append(n.as_str());
            out.append("\"");
            proof {
                assert(out@ =~= old(out)@ + cfg_dbg(*c));
            }
        }
        Config::Flag(n) => {
            out.append(n.as_str());
        }
        Config::True => {
            out.append("__true");
        }
        Config::False => {
            out.append("__false");
        }
    }
}

/// Append the comma-separated renderings of the list entries from `i` on.
fn render_dbg_list(list: &Vec<Config>, i: usize, out: &mut String)
    requires
        i <= list@.len(),
    ensures
        final(out)@ == old(out)@ + cfg_dbg_list(list@, i as int),
    decreases list@, list@.len() - i,
{
    if i >= list.len() {
        proof {
            assert(out@ =~= old(out)@ + cfg_dbg_list(list@, i as int));
        }
        return ;
    }
    proof {
        assert(decreases_to!(list@ => list@[i as int]));
    }
    render_dbg(&list[i], out);
    if i + 1 < list.len() {
        out.append(", ");
        render_dbg_list(list, i + 1, out);
        proof {
            assert(out@ =~= old(out)@ + cfg_dbg_list(list@, i as int));
        }
    } else {
        proof {
            assert(out@ =~= old(out)@ + cfg_dbg_list(list@, i as int));
        }
    }
}

/// One inherit-strictness note about the predicate `c`, prefixed with
/// `prefix`, was appended to the report's children.
pub open spec fn cfg_note_added(before: Report, after: Report, c: Config, prefix: Seq<char>) -> bool {
    &&& after.children@.len() == before.children@.len() + 1
    &&& forall|i: int|
        0 <= i < before.children@.len() ==> after.children@[i] == before.children@[i]
    &&& after.children@.last().item.severity == Severity::Note
    &&& after.children@.last().item.strict == Strictness::Inherit
    &&& after.children@.last().item.text@ == prefix + "#[cfg("@ + cfg_dbg(c) + ")]"@
    &&& after.children@.last().children@.len() == 0
}

impl Config {
    /// Show this predicate in a human-readable format, wrapping it in
    /// `#[cfg]` unless it is a sentinel.
    pub fn render(&self) -> (s: String)
        ensures
            s@ == cfg_text(*self),
    {
        match self {
            Config::True => "always available".to_owned(),
            Config::False => "never available".to_owned(),
            _ => {
                let mut s: String = "#[cfg(".to_owned();
                render_dbg(self, &mut s);
                s.append(")]");
                proof {
                    assert(s@ =~= cfg_text(*self));
                }
                s
            }
        }
    }

    /// Make an entry in the report for this Config if needed.
    ///
    /// An entry is only made if this config is conditional with respect to
    /// the provided parent: when the parent already entails it, an entry
    /// would be redundant noise and is suppressed.  `Config::True` can be
    /// used as the parent if needed.  Returns whether an entry was made.
    pub fn report(&self, r: &mut Report, parent: &Config, prefix: &str) -> (pushed: bool)
        ensures
            pushed == !spec_subset(*parent, *self),
            final(r).item == old(r).item,
            appended_not_lazy(*old(r), *final(r)),
            !pushed ==> *final(r) == *old(r),
            pushed ==> cfg_note_added(*old(r), *final(r), *self, prefix@),
    {
        if parent.subset(self) {
            false  // also applies when self is the always-true sentinel
        } else {
            let mut text: String = prefix.to_owned();
            text.append("#[cfg(");
            render_dbg(self, &mut text);
            text.append(")]");
            proof {
                assert(text@ =~= prefix@ + "#[cfg("@ + cfg_dbg(*self) + ")]"@);
            }
            r.push(
                ReportItem { strict: Strictness::Inherit, severity: Severity::Note, text },
            );
            true
        }
    }
}

} // verus!
