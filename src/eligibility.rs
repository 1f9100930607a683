use vstd::prelude::*;
use vstd::string::StringExecFns;

use crate::checks::{
    concat_map, lemma_concat_map_all, lemma_concat_map_take, plain_finding, push_report,
    target_module_needed, target_needed_finding,
};
use crate::graph::{
    has_module, has_owner,
    class_at, find_class, find_module, find_module_index, find_owner, lemma_find_module_unique,
    lemma_find_owner_unique, occurs, owned_class, owner_named, ClassGraph, ClassOwner,
};
use crate::model::{
    team_of, JavaClass, JavaClassTraits, JavaModule, Kind, Report, ReportView, report_views,
};
use crate::text::{contains_name, holds_name, name_set, no_names, one_name, three_names, two_names, views};

verus! {

/// The names that `f` gives for each item of `s`, one after the other.
pub open spec fn concat_names<A>(s: Seq<A>, f: spec_fn(A) -> Seq<Seq<char>>) -> Seq<Seq<char>>
    decreases s.len(),
{
    if s.len() == 0 {
        Seq::empty()
    } else {
        concat_names(s.drop_last(), f) + f(s.last())
    }
}

proof fn lemma_concat_names_take<A>(s: Seq<A>, f: spec_fn(A) -> Seq<Seq<char>>, i: int)
    requires
        0 <= i < s.len(),
    ensures
        concat_names(s.take(i + 1), f) == concat_names(s.take(i), f) + f(s[i]),
{
    assert(s.take(i + 1).drop_last() =~= s.take(i));
}

/// Some item of `s` satisfies `p`.
pub open spec fn any_of<A>(s: Seq<A>, p: spec_fn(A) -> bool) -> bool {
    exists|i: int| 0 <= i < s.len() && #[trigger] p(s[i])
}

/// The parts of `s` with `sep` between each two.
pub open spec fn join(s: Seq<Seq<char>>, sep: Seq<char>) -> Seq<char>
    decreases s.len(),
{
    if s.len() == 0 {
        Seq::empty()
    } else if s.len() == 1 {
        s[0]
    } else {
        join(s.drop_last(), sep) + sep + s.last()
    }
}

/// The strings of `v` with `sep` between each two.
pub fn join_names(v: &Vec<String>, sep: &str) -> (r: String)
    ensures
        r@ == join(views(v@), sep@),
{
    let mut r = String::new();
    let mut i: usize = 0;
    while i < v.len()
        invariant
            i <= v@.len(),
            r@ == join(views(v@.take(i as int)), sep@),
        decreases v@.len() - i,
    {
        assert(views(v@.take(i + 1)).drop_last() =~= views(v@.take(i as int)));
        assert(views(v@.take(i + 1)).last() == v@[i as int]@);
        if i > 0 {
            r.append(sep);
        } else {
            assert(views(v@.take(0)) =~= Seq::<Seq<char>>::empty());
        }
        r.append(v[i].as_str());
        i = i + 1;
    }
    assert(v@.take(v@.len() as int) =~= v@);
    r
}

/// Every name of `names` is owned by a class of the graph.
pub open spec fn names_owned(ms: Seq<JavaModule>, os: Seq<ClassOwner>, names: Seq<String>) -> bool {
    forall|t: int| 0 <= t < names.len() ==> has_owner(ms, os, #[trigger] names[t]@)
}

/// The class that owns the name `n`.
pub open spec fn named_class(ms: Seq<JavaModule>, os: Seq<ClassOwner>, n: Seq<char>) -> JavaClass {
    owned_class(ms, os[find_owner(ms, os, n)->0])
}

/// The module that owns the class named `n`.
pub open spec fn named_module(ms: Seq<JavaModule>, os: Seq<ClassOwner>, n: Seq<char>) -> JavaModule {
    ms[os[find_owner(ms, os, n)->0].module as int]
}

/// The class declares a target module that is not in the graph.
pub open spec fn target_missing(ms: Seq<JavaModule>, c: JavaClass) -> bool {
    match c.target_module {
        Some(t) => find_module(ms, t@) is None,
        None => false,
    }
}

/// Where the class named `n` is taken to live: its target module when it has one,
/// else the module that owns it.
pub open spec fn effective_module(ms: Seq<JavaModule>, os: Seq<ClassOwner>, n: Seq<char>) -> JavaModule {
    match named_class(ms, os, n).target_module {
        Some(t) => ms[find_module(ms, t@)->0],
        None => named_module(ms, os, n),
    }
}

/// The command that moves class `c` from module `m` to module `t`, given its relative location.
pub open spec fn move_action(m: JavaModule, rel: Seq<char>, t: JavaModule) -> Seq<char> {
    "execute move-class --from-module=\""@ + m.directory@ + "\" --from-location=\""@ + rel
        + "\" --to-module=\""@ + t.directory@ + "\""@
}

/// The finding that class `c` of module `m` can move to `t`. When the class has an owning
/// module in the graph and a location below that module's directory, the finding carries the
/// command that moves it from the owning module; otherwise the class does not stand where a
/// move expects it, and the finding asks for a developer.
pub open spec fn ready_finding(
    ms: Seq<JavaModule>,
    os: Seq<ClassOwner>,
    c: JavaClass,
    m: JavaModule,
    t: JavaModule,
) -> ReportView {
    let msg = c.name@ + " is ready to go to "@ + t.name@;
    match (find_owner(ms, os, c.name@), crate::model::relative_location_of(c.location@)) {
        (Some(k), Some(rel)) => ReportView {
            kind: Kind::AutoAction,
            message: msg,
            action: move_action(ms[os[k].module as int], rel, t),
            for_class: c.name@,
            for_team: team_of(c),
            indirect_classes: Set::empty(),
            for_modules: set![m.name@, t.name@],
        },
        _ => plain_finding(Kind::DevAction, msg, c.name@, team_of(c), set![m.name@, t.name@]),
    }
}

/// What closes a readiness check: ready when nothing conflicts and nothing waits; blocked,
/// with the waiting classes, when nothing conflicts but something waits; nothing when
/// something conflicts, since conflicts take precedence.
pub open spec fn readiness_tail(
    ms: Seq<JavaModule>,
    os: Seq<ClassOwner>,
    c: JavaClass,
    m: JavaModule,
    t: JavaModule,
    issue: bool,
    pending: Seq<Seq<char>>,
    moves: Seq<Seq<char>>,
    phrase: Seq<char>,
) -> Seq<ReportView> {
    if !issue && pending.len() == 0 {
        seq![ready_finding(ms, os, c, m, t)]
    } else if !issue {
        seq![ReportView {
            kind: Kind::Blocked,
            message: c.name@ + phrase + t.name@ + ". First move "@ + join(moves, ", "@),
            action: Seq::empty(),
            for_class: c.name@,
            for_team: team_of(c),
            indirect_classes: pending.to_set().insert(c.name@),
            for_modules: set![m.name@, t.name@],
        }]
    } else {
        Seq::empty()
    }
}

/// Closes a readiness check; see `readiness_tail`.
fn readiness_reports(
    results: &mut Vec<Report>,
    graph: &ClassGraph,
    class: &JavaClass,
    module: &JavaModule,
    target: &JavaModule,
    issue: bool,
    pending: Vec<String>,
    moves: &Vec<String>,
    phrase: &str,
)
    requires
        graph.built(),
    ensures
        report_views(final(results)@) == report_views(old(results)@) + readiness_tail(
            graph.ms(),
            graph.os(),
            *class,
            *module,
            *target,
            issue,
            views(pending@),
            views(moves@),
            phrase@,
        ),
{
    let ghost tail = readiness_tail(graph.ms(), graph.os(), *class, *module, *target, issue, views(pending@), views(moves@), phrase@);
    if !issue && pending.len() == 0 {
        let mut message = class.name.clone();
        message.append(" is ready to go to ");
        message.append(target.name.as_str());
        let owner = find_class(&graph.modules, &graph.class_modules, &class.name);
        let located = match owner {
            Some(k) => {
                proof {
                    lemma_find_owner_unique(graph.ms(), graph.os(), class.name@, k as int);
                }
                let owning = &graph.modules[graph.class_modules[k].module];
                match class.relative_location() {
                    Some(rel) => Some((owning, rel)),
                    None => None,
                }
            },
            None => None,
        };
        let report = match located {
            None => Report {
                kind: Kind::DevAction,
                message,
                action: String::new(),
                for_class: class.name.clone(),
                for_team: class.team(),
                indirect_classes: no_names(),
                for_modules: two_names(&module.name, &target.name),
            },
            Some((owning, rel)) => {
                let mut action = String::from_str("execute move-class --from-module=\"");
                action.append(owning.directory.as_str());
                action.append("\" --from-location=\"");
                action.append(rel.as_str());
                action.append("\" --to-module=\"");
                action.append(target.directory.as_str());
                action.append("\"");
                Report {
                    kind: Kind::AutoAction,
                    message,
                    action,
                    for_class: class.name.clone(),
                    for_team: class.team(),
                    indirect_classes: no_names(),
                    for_modules: two_names(&module.name, &target.name),
                }
            },
        };
        push_report(results, report);
        assert(report_views(final(results)@) =~= report_views(old(results)@) + tail);
    } else if !issue {
        let mut message = class.name.clone();
        message.append(phrase);
        message.append(target.name.as_str());
        message.append(". First move ");
        let list = join_names(moves, ", ");
        message.append(list.as_str());
        let mut all_classes = pending;
        let ghost before = all_classes@;
        all_classes.push(class.name.clone());
        proof {
            assert(views(all_classes@) =~= views(before).push(class.name@));
            assert(name_set(all_classes@) =~= views(before).to_set().insert(class.name@)) by {
                assert forall|x: Seq<char>| name_set(all_classes@).contains(x) <==> views(before).to_set().insert(class.name@).contains(x) by {
                    if name_set(all_classes@).contains(x) {
                        let q = choose|q: int| 0 <= q < views(all_classes@).len() && views(all_classes@)[q] == x;
                        if q < before.len() {
                            assert(views(before)[q] == x);
                        }
                    }
                    if views(before).contains(x) {
                        let q = choose|q: int| 0 <= q < views(before).len() && views(before)[q] == x;
                        assert(views(all_classes@)[q] == x);
                    }
                    if x == class.name@ {
                        assert(views(all_classes@)[before.len() as int] == x);
                    }
                }
            }
        }
        push_report(
            results,
            Report {
                kind: Kind::Blocked,
                message,
                action: String::new(),
                for_class: class.name.clone(),
                for_team: class.team(),
                indirect_classes: all_classes,
                for_modules: two_names(&module.name, &target.name),
            },
        );
        assert(report_views(final(results)@) =~= report_views(old(results)@) + tail);
    } else {
        assert(report_views(final(results)@) =~= report_views(old(results)@) + tail);
    }
}

proof fn lemma_any_of_take<A>(s: Seq<A>, p: spec_fn(A) -> bool, i: int)
    requires
        0 <= i < s.len(),
    ensures
        any_of(s.take(i + 1), p) == (any_of(s.take(i), p) || p(s[i])),
{
    if any_of(s.take(i + 1), p) {
        let q = choose|q: int| 0 <= q < s.take(i + 1).len() && #[trigger] p(s.take(i + 1)[q]);
        if q < i {
            assert(s.take(i)[q] == s.take(i + 1)[q]);
        }
    }
    if any_of(s.take(i), p) {
        let q = choose|q: int| 0 <= q < s.take(i).len() && #[trigger] p(s.take(i)[q]);
        assert(s.take(i + 1)[q] == s.take(i)[q]);
    }
    if p(s[i]) {
        assert(s.take(i + 1)[i] == s[i]);
    }
}

/// The owner entry of the class named `n`.
fn owner_entry(graph: &ClassGraph, n: &String) -> (k: usize)
    requires
        graph.built(),
        has_owner(graph.ms(), graph.os(), n@),
    ensures
        find_owner(graph.ms(), graph.os(), n@) == Some(k as int),
        owner_named(graph.ms(), graph.os(), n@, k as int),
        occurs(graph.ms(), graph.os()[k as int].module as int, graph.os()[k as int].src as int),
{
    match find_class(&graph.modules, &graph.class_modules, n) {
        Some(k) => {
            proof {
                lemma_find_owner_unique(graph.ms(), graph.os(), n@, k as int);
            }
            k
        },
        None => {
            proof {
                let k = choose|k: int| owner_named(graph.ms(), graph.os(), n@, k);
                assert(false);
            }
            0
        },
    }
}

/// Where a class owned by module `home` is taken to live: its target module when it has one,
/// else `home`; none when its target module is not in the graph.
fn effective_index(graph: &ClassGraph, class: &JavaClass, home: usize) -> (r: Option<usize>)
    requires
        crate::graph::unique_module_names(graph.ms()),
        home < graph.ms().len(),
    ensures
        match class.target_module {
            None => r == Some(home),
            Some(t) => match r {
                Some(i) => find_module(graph.ms(), t@) == Some(i as int) && i < graph.ms().len(),
                None => find_module(graph.ms(), t@) is None,
            },
        },
{
    match &class.target_module {
        None => Some(home),
        Some(t) => match find_module_index(&graph.modules, t) {
            Some(i) => {
                proof {
                    lemma_find_module_unique(graph.ms(), t@, i as int);
                }
                Some(i)
            },
            None => None,
        },
    }
}

/// The dependency's place is incompatible with target `t`: it is neither `t` nor a module
/// that `t` depends on.
pub open spec fn promotion_conflict(t: JavaModule, e: JavaModule) -> bool {
    t.name@ != e.name@ && !holds_name(t.dependencies@, e.name@)
}

/// The finding on dependency `d` when class `c` of module `m` would move up to `t`.
pub open spec fn promotion_finding(
    ms: Seq<JavaModule>,
    os: Seq<ClassOwner>,
    c: JavaClass,
    m: JavaModule,
    t: JavaModule,
    d: String,
) -> Seq<ReportView> {
    let dc = named_class(ms, os, d@);
    let e = effective_module(ms, os, d@);
    let mods = set![m.name@, e.name@, t.name@];
    if target_missing(ms, dc) {
        seq![target_needed_finding(dc)]
    } else if !promotion_conflict(t, e) {
        Seq::empty()
    } else if holds_name(c.break_dependencies_on@, d@) {
        seq![plain_finding(
            Kind::DevAction,
            c.name@ + " depends on "@ + dc.name@ + " and this dependency has to be broken"@,
            c.name@,
            team_of(c),
            mods,
        )]
    } else {
        seq![ReportView {
            kind: Kind::Error,
            message: c.name@ + " depends on "@ + dc.name@ + " that is in module "@ + e.name@
                + " but "@ + t.name@ + " does not depend on it"@,
            action: Seq::empty(),
            for_class: c.name@,
            for_team: team_of(c),
            indirect_classes: set![dc.name@],
            for_modules: mods,
        }]
    }
}

/// Dependency `d` conflicts with target `t`.
pub open spec fn promotion_blocks(ms: Seq<JavaModule>, os: Seq<ClassOwner>, t: JavaModule, d: String) -> bool {
    !target_missing(ms, named_class(ms, os, d@)) && promotion_conflict(t, effective_module(ms, os, d@))
}

/// Dependency `d` still sits below target `t` and has to move first.
pub open spec fn promotion_waits(ms: Seq<JavaModule>, os: Seq<ClassOwner>, t: JavaModule, d: String) -> bool {
    !target_missing(ms, named_class(ms, os, d@)) && named_module(ms, os, d@).index < t.index
}

/// The name of dependency `d` when it has to move first.
pub open spec fn promotion_pending(ms: Seq<JavaModule>, os: Seq<ClassOwner>, t: JavaModule, d: String) -> Seq<Seq<char>> {
    if promotion_waits(ms, os, t, d) { seq![d@] } else { Seq::empty() }
}

/// The move that dependency `d` has to make first.
pub open spec fn promotion_move(ms: Seq<JavaModule>, os: Seq<ClassOwner>, t: JavaModule, d: String) -> Seq<Seq<char>> {
    if promotion_waits(ms, os, t, d) { seq![d@ + " to "@ + t.name@] } else { Seq::empty() }
}

/// The findings on moving class `c` of module `m` up to its target module.
pub open spec fn promotion_findings(ms: Seq<JavaModule>, os: Seq<ClassOwner>, c: JavaClass, m: JavaModule) -> Seq<ReportView> {
    match c.target_module {
        None => Seq::empty(),
        Some(tn) => match find_module(ms, tn@) {
            None => seq![target_needed_finding(c)],
            Some(ti) => {
                let t = ms[ti];
                let deps = c.dependencies@;
                if m.index > t.index {
                    Seq::empty()
                } else {
                    concat_map(deps, |d: String| promotion_finding(ms, os, c, m, t, d)) + readiness_tail(
                        ms,
                        os,
                        c,
                        m,
                        t,
                        any_of(deps, |d: String| promotion_blocks(ms, os, t, d)),
                        concat_names(deps, |d: String| promotion_pending(ms, os, t, d)),
                        concat_names(deps, |d: String| promotion_move(ms, os, t, d)),
                        " does not have untargeted dependencies to go to "@,
                    )
                }
            },
        },
    }
}

/// Decides whether class `class` of module `module` can move up to its target module: reports
/// each dependency that conflicts with the target, then that the class is ready, or blocked
/// by the dependencies that still sit below the target.
pub fn check_for_promotion(class: &JavaClass, module: &JavaModule, graph: &ClassGraph) -> (r: Vec<Report>)
    requires
        graph.built(),
        crate::graph::unique_module_names(graph.ms()),
        names_owned(graph.ms(), graph.os(), class.dependencies@),
    ensures
        report_views(r@) == promotion_findings(graph.ms(), graph.os(), *class, *module),
{
    let ghost ms = graph.ms();
    let ghost os = graph.os();
    let mut results: Vec<Report> = Vec::new();
    let target_name = match &class.target_module {
        None => {
            return results;
        },
        Some(t) => t,
    };
    let ti = match find_module_index(&graph.modules, target_name) {
        None => {
            push_report(&mut results, target_module_needed(class));
            assert(report_views(results@) =~= promotion_findings(ms, os, *class, *module));
            return results;
        },
        Some(ti) => ti,
    };
    proof {
        lemma_find_module_unique(ms, target_name@, ti as int);
    }
    let target = &graph.modules[ti];
    if module.index > target.index {
        assert(report_views(results@) =~= promotion_findings(ms, os, *class, *module));
        return results;
    }
    let ghost deps = class.dependencies@;
    let ghost f = |d: String| promotion_finding(ms, os, *class, *module, *target, d);
    let ghost pb = |d: String| promotion_blocks(ms, os, *target, d);
    let ghost pp = |d: String| promotion_pending(ms, os, *target, d);
    let ghost pm = |d: String| promotion_move(ms, os, *target, d);
    let mut issue = false;
    let mut all_classes: Vec<String> = Vec::new();
    let mut not_ready_yet: Vec<String> = Vec::new();
    let mut i: usize = 0;
    assert(deps.take(0) =~= Seq::<String>::empty());
    while i < class.dependencies.len()
        invariant
            i <= deps.len(),
            deps == class.dependencies@,
            ms == graph.ms(),
            os == graph.os(),
            graph.built(),
            crate::graph::unique_module_names(ms),
            names_owned(ms, os, class.dependencies@),
            *target == ms[ti as int],
            f == (|d: String| promotion_finding(ms, os, *class, *module, *target, d)),
            pb == (|d: String| promotion_blocks(ms, os, *target, d)),
            pp == (|d: String| promotion_pending(ms, os, *target, d)),
            pm == (|d: String| promotion_move(ms, os, *target, d)),
            report_views(results@) == concat_map(deps.take(i as int), f),
            issue == any_of(deps.take(i as int), pb),
            views(all_classes@) == concat_names(deps.take(i as int), pp),
            views(not_ready_yet@) == concat_names(deps.take(i as int), pm),
        decreases deps.len() - i,
    {
        let src = &class.dependencies[i];
        proof {
            lemma_concat_map_take(deps, f, i as int);
            lemma_any_of_take(deps, pb, i as int);
            lemma_concat_names_take(deps, pp, i as int);
            lemma_concat_names_take(deps, pm, i as int);
        }
        assert(has_owner(ms, os, class.dependencies@[i as int]@));
        let k = owner_entry(graph, src);
        let o = graph.class_modules[k];
        let dependent_class = &graph.modules[o.module].srcs[o.src];
        let home = o.module;
        let ghost rv = report_views(results@);
        let ghost av = views(all_classes@);
        let ghost nv = views(not_ready_yet@);
        match effective_index(graph, dependent_class, home) {
            None => {
                push_report(&mut results, target_module_needed(dependent_class));
                assert(report_views(results@) =~= rv + f(deps[i as int]));
                assert(views(all_classes@) =~= av + pp(deps[i as int]));
                assert(views(not_ready_yet@) =~= nv + pm(deps[i as int]));
            },
            Some(ei) => {
                let effective = &graph.modules[ei];
                assert(*effective == effective_module(ms, os, src@));
                if target.name != effective.name && !contains_name(&target.dependencies, &effective.name) {
                    issue = true;
                    let modules = three_names(&module.name, &effective.name, &target.name);
                    let report = if contains_name(&class.break_dependencies_on, src) {
                        let mut message = class.name.clone();
                        message.append(" depends on ");
                        message.append(dependent_class.name.as_str());
                        message.append(" and this dependency has to be broken");
                        Report {
                            kind: Kind::DevAction,
                            message,
                            action: String::new(),
                            for_class: class.name.clone(),
                            for_team: class.team(),
                            indirect_classes: no_names(),
                            for_modules: modules,
                        }
                    } else {
                        let mut message = class.name.clone();
                        message.append(" depends on ");
                        message.append(dependent_class.name.as_str());
                        message.append(" that is in module ");
                        message.append(effective.name.as_str());
                        message.append(" but ");
                        message.append(target.name.as_str());
                        message.append(" does not depend on it");
                        Report {
                            kind: Kind::Error,
                            message,
                            action: String::new(),
                            for_class: class.name.clone(),
                            for_team: class.team(),
                            indirect_classes: one_name(&dependent_class.name),
                            for_modules: modules,
                        }
                    };
                    push_report(&mut results, report);
                }
                assert(report_views(results@) =~= rv + f(deps[i as int]));
                if graph.modules[home].index < target.index {
                    all_classes.push(src.clone());
                    let mut step = src.clone();
                    step.append(" to ");
                    step.append(target.name.as_str());
                    not_ready_yet.push(step);
                }
                assert(views(all_classes@) =~= av + pp(deps[i as int]));
                assert(views(not_ready_yet@) =~= nv + pm(deps[i as int]));
            },
        }
        i = i + 1;
    }
    proof {
        lemma_concat_map_all(deps, f);
        assert(deps.take(deps.len() as int) =~= deps);
    }
    readiness_reports(
        &mut results,
        graph,
        class,
        module,
        target,
        issue,
        all_classes,
        &not_ready_yet,
        " does not have untargeted dependencies to go to ",
    );
    results
}

/// The dependee's place is incompatible with target `t`: it is neither `t` nor a module
/// that depends on `t`.
pub open spec fn demotion_conflict(t: JavaModule, e: JavaModule) -> bool {
    e.name@ != t.name@ && !holds_name(e.dependencies@, t.name@)
}

/// The finding on dependee `d` when class `c` of module `m` would move down to `t`.
pub open spec fn demotion_finding(
    ms: Seq<JavaModule>,
    os: Seq<ClassOwner>,
    c: JavaClass,
    m: JavaModule,
    t: JavaModule,
    d: Seq<char>,
) -> Seq<ReportView> {
    let dc = named_class(ms, os, d);
    let e = effective_module(ms, os, d);
    let mods = set![m.name@, e.name@, t.name@];
    if target_missing(ms, dc) {
        seq![target_needed_finding(dc)]
    } else if !demotion_conflict(t, e) {
        Seq::empty()
    } else if holds_name(dc.break_dependencies_on@, c.name@) {
        seq![ReportView {
            kind: Kind::DevAction,
            message: c.name@ + " has dependee "@ + dc.name@ + " and this dependency has to be broken"@,
            action: Seq::empty(),
            for_class: dc.name@,
            for_team: team_of(c),
            indirect_classes: set![dc.name@],
            for_modules: mods,
        }]
    } else {
        seq![ReportView {
            kind: Kind::Error,
            message: c.name@ + " has dependee "@ + dc.name@ + " that is in module "@ + e.name@
                + " but "@ + t.name@ + " is not a dependee of it"@,
            action: Seq::empty(),
            for_class: c.name@,
            for_team: team_of(c),
            indirect_classes: set![dc.name@],
            for_modules: mods,
        }]
    }
}

/// Dependee `d` conflicts with target `t`.
pub open spec fn demotion_blocks(ms: Seq<JavaModule>, os: Seq<ClassOwner>, t: JavaModule, d: Seq<char>) -> bool {
    !target_missing(ms, named_class(ms, os, d)) && demotion_conflict(t, effective_module(ms, os, d))
}

/// Dependee `d` still sits above target `t` and has to move first.
pub open spec fn demotion_waits(ms: Seq<JavaModule>, os: Seq<ClassOwner>, t: JavaModule, d: Seq<char>) -> bool {
    !target_missing(ms, named_class(ms, os, d)) && named_module(ms, os, d).index > t.index
}

/// The name of dependee `d` when it has to move first.
pub open spec fn demotion_pending(ms: Seq<JavaModule>, os: Seq<ClassOwner>, t: JavaModule, d: Seq<char>) -> Seq<Seq<char>> {
    if demotion_waits(ms, os, t, d) { seq![d] } else { Seq::empty() }
}

/// The move that dependee `d` has to make first: to where it is taken to live.
pub open spec fn demotion_move(ms: Seq<JavaModule>, os: Seq<ClassOwner>, t: JavaModule, d: Seq<char>) -> Seq<Seq<char>> {
    if demotion_waits(ms, os, t, d) { seq![d + " to "@ + effective_module(ms, os, d).name@] } else { Seq::empty() }
}

/// The findings on moving class `c` of module `m`, with dependees `deps`, down to its target module.
pub open spec fn demotion_findings(
    ms: Seq<JavaModule>,
    os: Seq<ClassOwner>,
    c: JavaClass,
    deps: Seq<Seq<char>>,
    m: JavaModule,
) -> Seq<ReportView> {
    match c.target_module {
        None => Seq::empty(),
        Some(tn) => match find_module(ms, tn@) {
            None => seq![target_needed_finding(c)],
            Some(ti) => {
                let t = ms[ti];
                if m.index < t.index {
                    Seq::empty()
                } else {
                    concat_map(deps, |d: Seq<char>| demotion_finding(ms, os, c, m, t, d)) + readiness_tail(
                        ms,
                        os,
                        c,
                        m,
                        t,
                        any_of(deps, |d: Seq<char>| demotion_blocks(ms, os, t, d)),
                        concat_names(deps, |d: Seq<char>| demotion_pending(ms, os, t, d)),
                        concat_names(deps, |d: Seq<char>| demotion_move(ms, os, t, d)),
                        " does not have dependees to go to "@,
                    )
                }
            },
        },
    }
}

/// The dependees handed over, as a sequence.
pub open spec fn dependee_list(dependees: Option<&Vec<String>>) -> Seq<Seq<char>> {
    match dependees {
        Some(v) => views(v@),
        None => Seq::empty(),
    }
}

/// Decides whether class `class` of module `module` can move down to its target module:
/// reports each dependee that conflicts with the target, then that the class is ready, or
/// blocked by the dependees that still sit above the target.
pub fn check_for_demotion(
    class: &JavaClass,
    dependees: Option<&Vec<String>>,
    module: &JavaModule,
    graph: &ClassGraph,
) -> (r: Vec<Report>)
    requires
        graph.built(),
        crate::graph::unique_module_names(graph.ms()),
        match dependees {
            Some(v) => names_owned(graph.ms(), graph.os(), v@),
            None => true,
        },
    ensures
        report_views(r@) == demotion_findings(
            graph.ms(),
            graph.os(),
            *class,
            dependee_list(dependees),
            *module,
        ),
{
    let ghost ms = graph.ms();
    let ghost os = graph.os();
    let ghost deps = dependee_list(dependees);
    let mut results: Vec<Report> = Vec::new();
    let target_name = match &class.target_module {
        None => {
            return results;
        },
        Some(t) => t,
    };
    let ti = match find_module_index(&graph.modules, target_name) {
        None => {
            push_report(&mut results, target_module_needed(class));
            assert(report_views(results@) =~= demotion_findings(ms, os, *class, deps, *module));
            return results;
        },
        Some(ti) => ti,
    };
    proof {
        lemma_find_module_unique(ms, target_name@, ti as int);
    }
    let target = &graph.modules[ti];
    if module.index < target.index {
        assert(report_views(results@) =~= demotion_findings(ms, os, *class, deps, *module));
        return results;
    }
    let empty: Vec<String> = Vec::new();
    let list: &Vec<String> = match dependees {
        Some(v) => v,
        None => &empty,
    };
    assert(views(list@) == deps);
    assert(names_owned(ms, os, list@));
    let ghost f = |d: Seq<char>| demotion_finding(ms, os, *class, *module, *target, d);
    let ghost pb = |d: Seq<char>| demotion_blocks(ms, os, *target, d);
    let ghost pp = |d: Seq<char>| demotion_pending(ms, os, *target, d);
    let ghost pm = |d: Seq<char>| demotion_move(ms, os, *target, d);
    let mut issue = false;
    let mut all_classes: Vec<String> = Vec::new();
    let mut not_ready_yet: Vec<String> = Vec::new();
    let mut i: usize = 0;
    assert(deps.take(0) =~= Seq::<Seq<char>>::empty());
    while i < list.len()
        invariant
            i <= deps.len(),
            deps == views(list@),
            ms == graph.ms(),
            os == graph.os(),
            graph.built(),
            crate::graph::unique_module_names(ms),
            names_owned(ms, os, list@),
            *target == ms[ti as int],
            f == (|d: Seq<char>| demotion_finding(ms, os, *class, *module, *target, d)),
            pb == (|d: Seq<char>| demotion_blocks(ms, os, *target, d)),
            pp == (|d: Seq<char>| demotion_pending(ms, os, *target, d)),
            pm == (|d: Seq<char>| demotion_move(ms, os, *target, d)),
            report_views(results@) == concat_map(deps.take(i as int), f),
            issue == any_of(deps.take(i as int), pb),
            views(all_classes@) == concat_names(deps.take(i as int), pp),
            views(not_ready_yet@) == concat_names(deps.take(i as int), pm),
        decreases deps.len() - i,
    {
        let dependee = &list[i];
        assert(deps[i as int] == dependee@);
        proof {
            lemma_concat_map_take(deps, f, i as int);
            lemma_any_of_take(deps, pb, i as int);
            lemma_concat_names_take(deps, pp, i as int);
            lemma_concat_names_take(deps, pm, i as int);
        }
        assert(has_owner(ms, os, list@[i as int]@));
        let k = owner_entry(graph, dependee);
        let o = graph.class_modules[k];
        let dependee_class = &graph.modules[o.module].srcs[o.src];
        let home = o.module;
        let ghost rv = report_views(results@);
        let ghost av = views(all_classes@);
        let ghost nv = views(not_ready_yet@);
        match effective_index(graph, dependee_class, home) {
            None => {
                push_report(&mut results, target_module_needed(dependee_class));
                assert(report_views(results@) =~= rv + f(deps[i as int]));
                assert(views(all_classes@) =~= av + pp(deps[i as int]));
                assert(views(not_ready_yet@) =~= nv + pm(deps[i as int]));
            },
            Some(ei) => {
                let effective = &graph.modules[ei];
                assert(*effective == effective_module(ms, os, dependee@));
                if effective.name != target.name && !contains_name(&effective.dependencies, &target.name) {
                    issue = true;
                    let modules = three_names(&module.name, &effective.name, &target.name);
                    let report = if contains_name(&dependee_class.break_dependencies_on, &class.name) {
                        let mut message = class.name.clone();
                        message.append(" has dependee ");
                        message.append(dependee_class.name.as_str());
                        message.append(" and this dependency has to be broken");
                        Report {
                            kind: Kind::DevAction,
                            message,
                            action: String::new(),
                            for_class: dependee_class.name.clone(),
                            for_team: class.team(),
                            indirect_classes: one_name(&dependee_class.name),
                            for_modules: modules,
                        }
                    } else {
                        let mut message = class.name.clone();
                        message.append(" has dependee ");
                        message.append(dependee_class.name.as_str());
                        message.append(" that is in module ");
                        message.append(effective.name.as_str());
                        message.append(" but ");
                        message.append(target.name.as_str());
                        message.append(" is not a dependee of it");
                        Report {
                            kind: Kind::Error,
                            message,
                            action: String::new(),
                            for_class: class.name.clone(),
                            for_team: class.team(),
                            indirect_classes: one_name(&dependee_class.name),
                            for_modules: modules,
                        }
                    };
                    push_report(&mut results, report);
                }
                assert(report_views(results@) =~= rv + f(deps[i as int]));
                if graph.modules[home].index > target.index {
                    all_classes.push(dependee.clone());
                    let mut step = dependee.clone();
                    step.append(" to ");
                    step.append(effective.name.as_str());
                    not_ready_yet.push(step);
                }
                assert(views(all_classes@) =~= av + pp(deps[i as int]));
                assert(views(not_ready_yet@) =~= nv + pm(deps[i as int]));
            },
        }
        i = i + 1;
    }
    proof {
        lemma_concat_map_all(deps, f);
        assert(deps.take(deps.len() as int) =~= deps);
    }
    readiness_reports(
        &mut results,
        graph,
        class,
        module,
        target,
        issue,
        all_classes,
        &not_ready_yet,
        " does not have dependees to go to ",
    );
    results
}

} // verus!
