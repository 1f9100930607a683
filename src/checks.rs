use vstd::prelude::*;
use vstd::string::StringExecFns;

use crate::graph::{
    has_module, has_owner,
    find_class, find_module, find_module_index, find_owner, lemma_find_module_unique,
    lemma_find_owner_unique, module_named, unique_module_names, ClassGraph, ClassOwner,
};
use crate::model::{UNKNOWN_TEAM, team_of, JavaClass, JavaClassTraits, JavaModule, Kind, Report, ReportView, report_views};
use crate::text::{contains_name, holds_name, no_names, one_name, two_names};

verus! {

/// The findings of `f` on each item of `s`, one after the other.
pub open spec fn concat_map<A>(s: Seq<A>, f: spec_fn(A) -> Seq<ReportView>) -> Seq<ReportView>
    decreases s.len(),
{
    if s.len() == 0 {
        Seq::empty()
    } else {
        concat_map(s.drop_last(), f) + f(s.last())
    }
}

pub proof fn lemma_concat_map_take<A>(s: Seq<A>, f: spec_fn(A) -> Seq<ReportView>, i: int)
    requires
        0 <= i < s.len(),
    ensures
        concat_map(s.take(i + 1), f) == concat_map(s.take(i), f) + f(s[i]),
{
    assert(s.take(i + 1).drop_last() =~= s.take(i));
}

pub proof fn lemma_concat_map_all<A>(s: Seq<A>, f: spec_fn(A) -> Seq<ReportView>)
    ensures
        concat_map(s.take(s.len() as int), f) == concat_map(s, f),
{
    assert(s.take(s.len() as int) =~= s);
}

/// Each finding that `f` gives for an item of `s` is among the findings of `s`.
pub proof fn lemma_concat_map_member<A>(s: Seq<A>, f: spec_fn(A) -> Seq<ReportView>, i: int, j: int)
    requires
        0 <= i < s.len(),
        0 <= j < f(s[i]).len(),
    ensures
        concat_map(s, f).contains(f(s[i])[j]),
    decreases s.len(),
{
    let pre = concat_map(s.drop_last(), f);
    if i == s.len() - 1 {
        assert(concat_map(s, f)[pre.len() + j] == f(s[i])[j]);
    } else {
        assert(s.drop_last()[i] == s[i]);
        lemma_concat_map_member(s.drop_last(), f, i, j);
        let q = choose|q: int| 0 <= q < pre.len() && pre[q] == f(s[i])[j];
        assert(concat_map(s, f)[q] == pre[q]);
    }
}

/// Each finding of `s` comes from some item of `s`.
pub proof fn lemma_concat_map_origin<A>(s: Seq<A>, f: spec_fn(A) -> Seq<ReportView>, x: ReportView)
    requires
        concat_map(s, f).contains(x),
    ensures
        exists|i: int| 0 <= i < s.len() && #[trigger] f(s[i]).contains(x),
    decreases s.len(),
{
    let pre = concat_map(s.drop_last(), f);
    let q = choose|q: int| 0 <= q < concat_map(s, f).len() && concat_map(s, f)[q] == x;
    if q < pre.len() {
        assert(pre[q] == x);
        lemma_concat_map_origin(s.drop_last(), f, x);
        let i = choose|i: int| 0 <= i < s.drop_last().len() && #[trigger] f(s.drop_last()[i]).contains(x);
        assert(s.drop_last()[i] == s[i]);
    } else {
        assert(f(s.last())[q - pre.len()] == x);
        assert(f(s[s.len() - 1]).contains(x));
    }
}

/// Appends one finding.
pub fn push_report(v: &mut Vec<Report>, r: Report)
    ensures
        report_views(final(v)@) == report_views(old(v)@).push(r@),
{
    let ghost rv = r@;
    v.push(r);
    assert(report_views(final(v)@) =~= report_views(old(v)@).push(rv));
}

/// Appends a list of findings.
pub fn extend_reports(v: &mut Vec<Report>, w: Vec<Report>)
    ensures
        report_views(final(v)@) == report_views(old(v)@) + report_views(w@),
{
    let mut w = w;
    let ghost w0 = w@;
    v.append(&mut w);
    assert(report_views(final(v)@) =~= report_views(old(v)@) + report_views(w0));
}

/// The modules a finding about a class of module `m` involves: `m`, and the class's target.
pub open spec fn class_modules_of(c: JavaClass, m: JavaModule) -> Set<Seq<char>> {
    match c.target_module {
        Some(t) => set![m.name@, t@],
        None => set![m.name@],
    }
}

/// A finding with no action and no indirect classes.
pub open spec fn plain_finding(
    kind: Kind,
    message: Seq<char>,
    for_class: Seq<char>,
    for_team: Seq<char>,
    for_modules: Set<Seq<char>>,
) -> ReportView {
    ReportView {
        kind,
        message,
        action: Seq::empty(),
        for_class,
        for_team,
        indirect_classes: Set::empty(),
        for_modules,
    }
}

/// A class with no team gets a to-do finding.
pub open spec fn team_findings(c: JavaClass, m: JavaModule) -> Seq<ReportView> {
    if c.team is None {
        seq![plain_finding(Kind::ToDo, c.name@ + " is missing team"@, c.name@, team_of(c), set![m.name@])]
    } else {
        Seq::empty()
    }
}

/// A class with no target in a deprecated module gets a to-do finding.
pub open spec fn deprecated_findings(c: JavaClass, m: JavaModule) -> Seq<ReportView> {
    if c.target_module is None && m.deprecated {
        seq![plain_finding(
            Kind::ToDo,
            c.name@ + " is in deprecated module "@ + m.name@ + " and has no target module"@,
            c.name@,
            team_of(c),
            set![m.name@],
        )]
    } else {
        Seq::empty()
    }
}

/// A class whose target is the module it is in gets a finding to drop the annotation.
pub open spec fn already_in_target_findings(c: JavaClass, m: JavaModule) -> Seq<ReportView> {
    match c.target_module {
        Some(t) => if m.name@ == t@ {
            seq![plain_finding(
                Kind::AutoAction,
                c.name@ + " target module is where it already is - remove the annotation"@,
                c.name@,
                team_of(c),
                set![m.name@],
            )]
        } else {
            Seq::empty()
        },
        None => Seq::empty(),
    }
}

/// The critical finding that class `c` of module `m` declares a break from `b` but has no
/// dependency on it.
pub open spec fn break_report(c: JavaClass, m: JavaModule, b: Seq<char>) -> ReportView {
    plain_finding(
        Kind::Critical,
        c.name@ + " has no dependency on "@ + b,
        c.name@,
        team_of(c),
        class_modules_of(c, m),
    )
}

/// The finding for one declared break `b` of class `c`: critical when `c` has no such dependency.
pub open spec fn extra_break_finding(c: JavaClass, m: JavaModule, b: String) -> Seq<ReportView> {
    if !holds_name(c.dependencies@, b@) {
        seq![break_report(c, m, b@)]
    } else {
        Seq::empty()
    }
}

/// One critical finding for each declared break that names no dependency of the class.
pub open spec fn extra_break_findings(c: JavaClass, m: JavaModule) -> Seq<ReportView> {
    concat_map(c.break_dependencies_on@, |b: String| extra_break_finding(c, m, b))
}

/// The finding that asks for the class's target module to be created.
pub open spec fn target_needed_finding(c: JavaClass) -> ReportView {
    plain_finding(
        Kind::DevAction,
        "Target module "@ + c.target_module->0@ + " needs to be created."@,
        c.name@,
        team_of(c),
        Set::empty(),
    )
}

/// Reports that a class is missing its team.
pub fn check_for_team(class: &JavaClass, module: &JavaModule) -> (r: Vec<Report>)
    ensures
        report_views(r@) == team_findings(*class, *module),
{
    let mut results: Vec<Report> = Vec::new();
    if class.team.is_none() {
        let mut message = class.name.clone();
        message.append(" is missing team");
        push_report(
            &mut results,
            Report {
                kind: Kind::ToDo,
                message,
                action: String::new(),
                for_class: class.name.clone(),
                for_team: class.team(),
                indirect_classes: no_names(),
                for_modules: one_name(&module.name),
            },
        );
    }
    assert(report_views(results@) =~= team_findings(*class, *module));
    results
}

/// Reports a class that sits in a deprecated module and has no target module.
pub fn check_for_deprecated_module(class: &JavaClass, module: &JavaModule) -> (r: Vec<Report>)
    ensures
        report_views(r@) == deprecated_findings(*class, *module),
{
    let mut results: Vec<Report> = Vec::new();
    if class.target_module.is_none() && module.deprecated {
        let mut message = class.name.clone();
        message.append(" is in deprecated module ");
        message.append(module.name.as_str());
        message.append(" and has no target module");
        push_report(
            &mut results,
            Report {
                kind: Kind::ToDo,
                message,
                action: String::new(),
                for_class: class.name.clone(),
                for_team: class.team(),
                indirect_classes: no_names(),
                for_modules: one_name(&module.name),
            },
        );
    }
    assert(report_views(results@) =~= deprecated_findings(*class, *module));
    results
}

/// Reports a class whose target module is the module it already is in.
pub fn check_already_in_target(class: &JavaClass, module: &JavaModule) -> (r: Vec<Report>)
    ensures
        report_views(r@) == already_in_target_findings(*class, *module),
{
    let mut results: Vec<Report> = Vec::new();
    match &class.target_module {
        None => {},
        Some(target) => {
            if module.name == *target {
                let mut message = class.name.clone();
                message.append(" target module is where it already is - remove the annotation");
                push_report(
                    &mut results,
                    Report {
                        kind: Kind::AutoAction,
                        message,
                        action: String::new(),
                        for_class: class.name.clone(),
                        for_team: class.team(),
                        indirect_classes: no_names(),
                        for_modules: one_name(&module.name),
                    },
                );
            }
        },
    }
    assert(report_views(results@) =~= already_in_target_findings(*class, *module));
    results
}

/// The module name and, when there is one, the target module name of a class.
fn class_module_names(class: &JavaClass, module: &JavaModule) -> (r: Vec<String>)
    ensures
        crate::text::name_set(r@) == class_modules_of(*class, *module),
{
    match &class.target_module {
        Some(t) => two_names(&module.name, t),
        None => one_name(&module.name),
    }
}

/// Reports each declared break that names a class this class does not depend on.
pub fn check_for_extra_break(class: &JavaClass, module: &JavaModule) -> (r: Vec<Report>)
    ensures
        report_views(r@) == extra_break_findings(*class, *module),
{
    let mut results: Vec<Report> = Vec::new();
    let ghost f = |b: String| extra_break_finding(*class, *module, b);
    let ghost breaks = class.break_dependencies_on@;
    let mut i: usize = 0;
    while i < class.break_dependencies_on.len()
        invariant
            i <= breaks.len(),
            breaks == class.break_dependencies_on@,
            f == (|b: String| extra_break_finding(*class, *module, b)),
            report_views(results@) == concat_map(breaks.take(i as int), f),
        decreases breaks.len() - i,
    {
        let b = &class.break_dependencies_on[i];
        proof {
            lemma_concat_map_take(breaks, f, i as int);
        }
        if !contains_name(&class.dependencies, b) {
            let mut message = class.name.clone();
            message.append(" has no dependency on ");
            message.append(b.as_str());
            push_report(
                &mut results,
                Report {
                    kind: Kind::Critical,
                    message,
                    action: String::new(),
                    for_class: class.name.clone(),
                    for_team: class.team(),
                    indirect_classes: no_names(),
                    for_modules: class_module_names(class, module),
                },
            );
        }
        assert(f(breaks[i as int]) == extra_break_finding(*class, *module, *b));
        assert(report_views(results@) =~= concat_map(breaks.take(i as int), f) + f(breaks[i as int]));
        i = i + 1;
    }
    proof {
        lemma_concat_map_all(breaks, f);
    }
    results
}

/// The finding that asks for the class's target module to be created.
pub fn target_module_needed(class: &JavaClass) -> (r: Report)
    requires
        class.target_module is Some,
    ensures
        r@ == target_needed_finding(*class),
{
    let mut message = String::from_str("Target module ");
    match &class.target_module {
        Some(t) => message.append(t.as_str()),
        None => {},
    }
    message.append(" needs to be created.");
    Report {
        kind: Kind::DevAction,
        message,
        action: String::new(),
        for_class: class.name.clone(),
        for_team: class.team(),
        indirect_classes: no_names(),
        for_modules: no_names(),
    }
}

/// The finding for a dependency of module `m` on the module named `d`: critical when that
/// module is not below `m`.
pub open spec fn reversed_finding(ms: Seq<JavaModule>, m: JavaModule, d: String) -> Seq<ReportView> {
    let dm = ms[find_module(ms, d@)->0];
    if m.index >= dm.index {
        seq![reversed_report(m, dm)]
    } else {
        Seq::empty()
    }
}

/// The critical finding that module `m` depends on module `d`, which is not below it. It is
/// about no class, and so of no known team.
pub open spec fn reversed_report(m: JavaModule, d: JavaModule) -> ReportView {
    plain_finding(
        Kind::Critical,
        "Module "@ + m.name@ + " depends on module "@ + d.name@ + " that is not lower"@,
        Seq::empty(),
        UNKNOWN_TEAM@,
        set![m.name@, d.name@],
    )
}

/// One critical finding for each module that `m` depends on and that is not below it.
pub open spec fn reversed_findings(ms: Seq<JavaModule>, m: JavaModule) -> Seq<ReportView> {
    concat_map(m.dependencies@, |d: String| reversed_finding(ms, m, d))
}

/// The finding for a class `c` listed by module `m`: critical when the class is owned by
/// another module. Classes without a source file are left out.
pub open spec fn duplicate_finding(
    ms: Seq<JavaModule>,
    os: Seq<ClassOwner>,
    m: JavaModule,
    c: JavaClass,
) -> Seq<ReportView> {
    let t = ms[os[find_owner(ms, os, c.name@)->0].module as int];
    if c.location@ != "n/a"@ && t.name@ != m.name@ {
        seq![duplicate_report(c, m, t)]
    } else {
        Seq::empty()
    }
}

/// The critical finding that class `c`, listed by module `m`, is owned by module `t`.
pub open spec fn duplicate_report(c: JavaClass, m: JavaModule, t: JavaModule) -> ReportView {
    plain_finding(
        Kind::Critical,
        c.name@ + " appears in "@ + m.name@ + " and "@ + t.name@,
        c.name@,
        team_of(c),
        set![m.name@, t.name@],
    )
}

/// One critical finding for each class of `m` that another module owns.
pub open spec fn duplicate_findings(ms: Seq<JavaModule>, os: Seq<ClassOwner>, m: JavaModule) -> Seq<
    ReportView,
> {
    concat_map(m.srcs@, |c: JavaClass| duplicate_finding(ms, os, m, c))
}

/// Each module that `m` depends on is a module of `ms`.
pub open spec fn module_deps_resolve(ms: Seq<JavaModule>, m: JavaModule) -> bool {
    forall|t: int|
        0 <= t < m.dependencies@.len() ==> has_module(ms, #[trigger] m.dependencies@[t]@)
}

/// Reports each dependency of a module on a module that is not below it.
pub fn check_for_reversed_dependency(module: &JavaModule, modules: &Vec<JavaModule>) -> (r: Vec<Report>)
    requires
        unique_module_names(modules@),
        module_deps_resolve(modules@, *module),
    ensures
        report_views(r@) == reversed_findings(modules@, *module),
{
    let mut results: Vec<Report> = Vec::new();
    let ghost ms = modules@;
    let ghost f = |d: String| reversed_finding(ms, *module, d);
    let ghost deps = module.dependencies@;
    let mut i: usize = 0;
    while i < module.dependencies.len()
        invariant
            i <= deps.len(),
            ms == modules@,
            deps == module.dependencies@,
            unique_module_names(ms),
            module_deps_resolve(ms, *module),
            f == (|d: String| reversed_finding(ms, *module, d)),
            report_views(results@) == concat_map(deps.take(i as int), f),
        decreases deps.len() - i,
    {
        let name = &module.dependencies[i];
        proof {
            lemma_concat_map_take(deps, f, i as int);
        }
        assert(has_module(ms, module.dependencies@[i as int]@));
        match find_module_index(modules, name) {
            None => {
                assert(false);
            },
            Some(di) => {
                proof {
                    lemma_find_module_unique(ms, name@, di as int);
                }
                let dependent = &modules[di];
                if module.index >= dependent.index {
                    let mut message = String::from_str("Module ");
                    message.append(module.name.as_str());
                    message.append(" depends on module ");
                    message.append(dependent.name.as_str());
                    message.append(" that is not lower");
                    push_report(
                        &mut results,
                        Report {
                            kind: Kind::Critical,
                            message,
                            action: String::new(),
                            for_class: String::new(),
                            for_team: String::from_str(UNKNOWN_TEAM),
                            indirect_classes: no_names(),
                            for_modules: two_names(&module.name, &dependent.name),
                        },
                    );
                }
            },
        }
        assert(f(deps[i as int]) == reversed_finding(ms, *module, *name));
        assert(report_views(results@) =~= concat_map(deps.take(i as int), f) + f(deps[i as int]));
        i = i + 1;
    }
    proof {
        lemma_concat_map_all(deps, f);
    }
    results
}

/// Reports each class of module `mi` that is owned by another module.
pub fn check_for_classes_in_more_than_one_module(mi: usize, graph: &ClassGraph) -> (r: Vec<Report>)
    requires
        graph.built(),
        mi < graph.modules@.len(),
    ensures
        report_views(r@) == duplicate_findings(graph.ms(), graph.os(), graph.ms()[mi as int]),
{
    let mut results: Vec<Report> = Vec::new();
    let ghost ms = graph.ms();
    let ghost os = graph.os();
    let module = &graph.modules[mi];
    let ghost f = |c: JavaClass| duplicate_finding(ms, os, *module, c);
    let ghost srcs = module.srcs@;
    let not_applicable = String::from_str("n/a");
    let mut s: usize = 0;
    while s < module.srcs.len()
        invariant
            s <= srcs.len(),
            ms == graph.ms(),
            os == graph.os(),
            graph.built(),
            mi < ms.len(),
            *module == ms[mi as int],
            srcs == module.srcs@,
            not_applicable@ == "n/a"@,
            f == (|c: JavaClass| duplicate_finding(ms, os, *module, c)),
            report_views(results@) == concat_map(srcs.take(s as int), f),
        decreases srcs.len() - s,
    {
        let class = &module.srcs[s];
        proof {
            lemma_concat_map_take(srcs, f, s as int);
        }
        if class.location != not_applicable {
            assert(crate::graph::occurs(ms, mi as int, s as int));
            match find_class(&graph.modules, &graph.class_modules, &class.name) {
                None => {
                    assert(false);
                },
                Some(k) => {
                    proof {
                        lemma_find_owner_unique(ms, os, class.name@, k as int);
                    }
                    let tracked_module = &graph.modules[graph.class_modules[k].module];
                    if tracked_module.name != module.name {
                        let mut message = class.name.clone();
                        message.append(" appears in ");
                        message.append(module.name.as_str());
                        message.append(" and ");
                        message.append(tracked_module.name.as_str());
                        push_report(
                            &mut results,
                            Report {
                                kind: Kind::Critical,
                                message,
                                action: String::new(),
                                for_class: class.name.clone(),
                                for_team: class.team(),
                                indirect_classes: no_names(),
                                for_modules: two_names(&module.name, &tracked_module.name),
                            },
                        );
                    }
                },
            }
        }
        assert(f(srcs[s as int]) == duplicate_finding(ms, os, *module, *class));
        assert(report_views(results@) =~= concat_map(srcs.take(s as int), f) + f(srcs[s as int]));
        s = s + 1;
    }
    proof {
        lemma_concat_map_all(srcs, f);
    }
    results
}

} // verus!
