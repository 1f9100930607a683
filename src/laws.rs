use vstd::prelude::*;

use crate::analyze::{
    analysis_of, Analysis,
    all_findings, module_findings,
    auto_filter_matches, closed_under, direct_match, least_closure, shown, team_filter_matches,
    Analyze,
};
use crate::checks::{
    duplicate_finding, duplicate_findings, duplicate_report,
    module_deps_resolve, reversed_finding, reversed_findings, reversed_report, break_report, concat_map, extra_break_finding, extra_break_findings, lemma_concat_map_member,
    lemma_concat_map_origin,
};
use crate::graph::{
    no_repeats, same_class_name,
    class_at, find_module, find_owner, has_owner, lemma_find_owner_unique, occurs, owner_named, owner_wins, ClassGraph,
    has_module, lemma_find_module_unique, module_named, unique_module_names};
use crate::eligibility::{
    any_of, concat_names, named_class, promotion_blocks, promotion_finding, promotion_findings,
    promotion_move, promotion_pending, promotion_waits, ready_finding, target_missing,
};
use crate::model::{report_views, relative_location_of, Kind, JavaClass, JavaModule, ReportView};
use crate::text::holds_name;

verus! {

proof fn lemma_cancel_prefix(p: Seq<char>, x: Seq<char>, y: Seq<char>)
    requires
        p + x == p + y,
    ensures
        x == y,
{
    assert(x =~= (p + x).subrange(p.len() as int, (p + x).len() as int));
    assert(y =~= (p + y).subrange(p.len() as int, (p + y).len() as int));
}

/// A class that declares a break from `b` while not depending on `b` gets the critical
/// finding that it has no dependency on `b`; a class that does depend on `b` does not get it,
/// so adding the dependency back removes that finding.
pub proof fn law_break_dependency_consistency(c: JavaClass, m: JavaModule, b: Seq<char>)
    requires
        exists|i: int| 0 <= i < c.break_dependencies_on@.len() && #[trigger] c.break_dependencies_on@[i]@ == b,
    ensures
        !holds_name(c.dependencies@, b) ==> extra_break_findings(c, m).contains(break_report(c, m, b)),
        holds_name(c.dependencies@, b) ==> !extra_break_findings(c, m).contains(break_report(c, m, b)),
{
    let f = |x: String| extra_break_finding(c, m, x);
    let i = choose|i: int| 0 <= i < c.break_dependencies_on@.len() && #[trigger] c.break_dependencies_on@[i]@ == b;
    if !holds_name(c.dependencies@, b) {
        lemma_concat_map_member(c.break_dependencies_on@, f, i, 0);
    } else if extra_break_findings(c, m).contains(break_report(c, m, b)) {
        lemma_concat_map_origin(c.break_dependencies_on@, f, break_report(c, m, b));
        let k = choose|k: int| 0 <= k < c.break_dependencies_on@.len() && #[trigger] f(c.break_dependencies_on@[k]).contains(break_report(c, m, b));
        let bk = c.break_dependencies_on@[k]@;
        assert(f(c.break_dependencies_on@[k])[0] == break_report(c, m, bk));
        lemma_cancel_prefix(c.name@ + " has no dependency on "@, bk, b);
    }
}

proof fn lemma_concat_map_congruent<A>(s: Seq<A>, f: spec_fn(A) -> Seq<ReportView>, g: spec_fn(A) -> Seq<ReportView>)
    requires
        forall|i: int| 0 <= i < s.len() ==> #[trigger] f(s[i]) == g(s[i]),
    ensures
        concat_map(s, f) == concat_map(s, g),
    decreases s.len(),
{
    if s.len() > 0 {
        assert forall|i: int| 0 <= i < s.drop_last().len() implies #[trigger] f(s.drop_last()[i]) == g(s.drop_last()[i]) by {
            assert(s.drop_last()[i] == s[i]);
        }
        lemma_concat_map_congruent(s.drop_last(), f, g);
        assert(f(s[s.len() - 1]) == g(s[s.len() - 1]));
    }
}

/// Adding the dependency `f` back to a class changes its break findings only by dropping
/// those about `f`: the findings of `c2`, which is `c` with `f` added to its dependencies,
/// are those of `c` for every declared break other than `f`, in the same order.
pub proof fn law_break_dependency_restored(c: JavaClass, c2: JavaClass, m: JavaModule, f: String)
    requires
        c2.name == c.name,
        c2.team == c.team,
        c2.target_module == c.target_module,
        c2.break_dependencies_on@ == c.break_dependencies_on@,
        c2.dependencies@ == c.dependencies@.push(f),
    ensures
        extra_break_findings(c2, m) == concat_map(
            c.break_dependencies_on@,
            |b: String| if b@ == f@ { Seq::empty() } else { extra_break_finding(c, m, b) },
        ),
        !extra_break_findings(c2, m).contains(break_report(c2, m, f@)),
{
    let g2 = |b: String| extra_break_finding(c2, m, b);
    let g1 = |b: String| if b@ == f@ { Seq::<ReportView>::empty() } else { extra_break_finding(c, m, b) };
    let breaks = c.break_dependencies_on@;
    assert forall|i: int| 0 <= i < breaks.len() implies #[trigger] g2(breaks[i]) == g1(breaks[i]) by {
        let b = breaks[i];
        if holds_name(c.dependencies@, b@) {
            let k = choose|k: int| 0 <= k < c.dependencies@.len() && #[trigger] c.dependencies@[k]@ == b@;
            assert(c2.dependencies@[k] == c.dependencies@[k]);
        }
        if holds_name(c2.dependencies@, b@) && b@ != f@ {
            let k = choose|k: int| 0 <= k < c2.dependencies@.len() && #[trigger] c2.dependencies@[k]@ == b@;
            assert(k < c.dependencies@.len());
            assert(c2.dependencies@[k] == c.dependencies@[k]);
        }
        if b@ == f@ {
            assert(c2.dependencies@[c.dependencies@.len() as int]@ == b@);
        }
        assert(break_report(c2, m, b@) == break_report(c, m, b@));
    }
    lemma_concat_map_congruent(breaks, g2, g1);
    if c2.dependencies@.len() > 0 {
        assert(c2.dependencies@[c.dependencies@.len() as int]@ == f@);
    }
    assert(holds_name(c2.dependencies@, f@));
    if exists|i: int| 0 <= i < c2.break_dependencies_on@.len() && #[trigger] c2.break_dependencies_on@[i]@ == f@ {
        law_break_dependency_consistency(c2, m, f@);
    } else if extra_break_findings(c2, m).contains(break_report(c2, m, f@)) {
        lemma_concat_map_origin(c2.break_dependencies_on@, g2, break_report(c2, m, f@));
        let k = choose|k: int| 0 <= k < c2.break_dependencies_on@.len() && #[trigger] g2(c2.break_dependencies_on@[k]).contains(break_report(c2, m, f@));
        let bk = c2.break_dependencies_on@[k]@;
        assert(g2(c2.break_dependencies_on@[k])[0] == break_report(c2, m, bk));
        lemma_cancel_prefix(c2.name@ + " has no dependency on "@, bk, f@);
    }
}

proof fn lemma_concat_map_count<A>(s: Seq<A>, f: spec_fn(A) -> Seq<ReportView>, p: spec_fn(A) -> bool)
    requires
        forall|i: int| 0 <= i < s.len() ==> #[trigger] f(s[i]).len() == if p(s[i]) { 1int } else { 0int },
    ensures
        concat_map(s, f).len() == s.filter(p).len(),
    decreases s.len(),
{
    reveal(Seq::filter);
    if s.len() > 0 {
        assert forall|i: int| 0 <= i < s.drop_last().len() implies #[trigger] f(s.drop_last()[i]).len() == if p(s.drop_last()[i]) { 1int } else { 0int } by {
            assert(s.drop_last()[i] == s[i]);
        }
        lemma_concat_map_count(s.drop_last(), f, p);
        assert(f(s[s.len() - 1]).len() == if p(s.last()) { 1int } else { 0int });
    }
}

/// For a module `a` that declares a dependency on module `b`, the critical finding that `a`
/// depends on a module that is not lower is produced exactly when the index of `a` is not
/// below that of `b`; and `a` gets one such finding for each dependency whose module is not
/// below it, and no other.
pub proof fn law_directional_integrity(ms: Seq<JavaModule>, a: int, t: int, b: int)
    requires
        unique_module_names(ms),
        0 <= a < ms.len(),
        module_deps_resolve(ms, ms[a]),
        0 <= t < ms[a].dependencies@.len(),
        module_named(ms, ms[a].dependencies@[t]@, b),
    ensures
        reversed_findings(ms, ms[a]).contains(reversed_report(ms[a], ms[b])) <==> ms[a].index >= ms[b].index,
        reversed_findings(ms, ms[a]).len() == ms[a].dependencies@.filter(
            |d: String| ms[a].index >= ms[find_module(ms, d@)->0].index,
        ).len(),
{
    let deps = ms[a].dependencies@;
    let f = |d: String| reversed_finding(ms, ms[a], d);
    lemma_concat_map_count(deps, f, |d: String| ms[a].index >= ms[find_module(ms, d@)->0].index);
    lemma_find_module_unique(ms, deps[t]@, b);
    if ms[a].index >= ms[b].index {
        lemma_concat_map_member(deps, f, t, 0);
    }
    if reversed_findings(ms, ms[a]).contains(reversed_report(ms[a], ms[b])) {
        let r = reversed_report(ms[a], ms[b]);
        lemma_concat_map_origin(deps, f, r);
        let k = choose|k: int| 0 <= k < deps.len() && #[trigger] f(deps[k]).contains(r);
        assert(has_module(ms, ms[a].dependencies@[k]@));
        let d = choose|d: int| module_named(ms, deps[k]@, d);
        lemma_find_module_unique(ms, deps[k]@, d);
        assert(f(deps[k])[0] == reversed_report(ms[a], ms[d]));
        assert(ms[a].index >= ms[d].index);
        assert(set![ms[a].name@, ms[d].name@].contains(ms[b].name@));
        if ms[b].name@ == ms[d].name@ {
            assert(module_named(ms, ms[d].name@, b));
        } else {
            assert(module_named(ms, ms[a].name@, b));
        }
    }
}

proof fn lemma_concat_map_filter<A>(s: Seq<A>, f: spec_fn(A) -> Seq<ReportView>, q: spec_fn(ReportView) -> bool)
    ensures
        concat_map(s, f).filter(q) == concat_map(s, |x: A| f(x).filter(q)),
    decreases s.len(),
{
    reveal(Seq::filter);
    if s.len() > 0 {
        lemma_concat_map_filter(s.drop_last(), f, q);
        Seq::filter_distributes_over_add(concat_map(s.drop_last(), f), f(s.last()), q);
    }
}

proof fn lemma_concat_map_single<A>(s: Seq<A>, g: spec_fn(A) -> Seq<ReportView>, k: int)
    requires
        0 <= k < s.len(),
        forall|i: int| 0 <= i < s.len() && i != k ==> #[trigger] g(s[i]).len() == 0,
    ensures
        concat_map(s, g) == g(s[k]),
    decreases s.len(),
{
    let d = s.drop_last();
    assert forall|i: int| 0 <= i < d.len() && i != k implies #[trigger] g(d[i]).len() == 0 by {
        assert(d[i] == s[i]);
    }
    if k == s.len() - 1 {
        assert forall|i: int| 0 <= i < d.len() implies #[trigger] g(d[i]).len() == 0 by {
            assert(d[i] == s[i]);
        }
        lemma_concat_map_none(d, g);
        assert(concat_map(s, g) =~= g(s[k]));
    } else {
        lemma_concat_map_single(d, g, k);
        assert(d[k] == s[k]);
        assert(g(s[s.len() - 1]).len() == 0);
        assert(concat_map(s, g) =~= g(s[k]));
    }
}

/// When no module lists a class twice, module `m1` gets exactly one finding about a class
/// it lists with a source file but that another module owns: the critical finding that names
/// `m1` and the owner.
pub proof fn law_single_duplicate_finding(g: ClassGraph, m1: int, s1: int)
    requires
        g.built(),
        unique_module_names(g.ms()),
        no_repeats(g.ms()),
        occurs(g.ms(), m1, s1),
        class_at(g.ms(), m1, s1).location@ != "n/a"@,
        g.ms()[g.os()[find_owner(g.ms(), g.os(), class_at(g.ms(), m1, s1).name@)->0].module as int].name@
            != g.ms()[m1].name@,
    ensures
        ({
            let ms = g.ms();
            let c = class_at(ms, m1, s1);
            let owner = ms[g.os()[find_owner(ms, g.os(), c.name@)->0].module as int];
            duplicate_findings(ms, g.os(), ms[m1]).filter(|r: ReportView| r.for_class == c.name@) == seq![
                duplicate_report(c, ms[m1], owner),
            ]
        }),
{
    reveal(Seq::filter);
    let ms = g.ms();
    let os = g.os();
    let c = class_at(ms, m1, s1);
    let owner = ms[os[find_owner(ms, os, c.name@)->0].module as int];
    let srcs = ms[m1].srcs@;
    let q = |r: ReportView| r.for_class == c.name@;
    let f = |x: JavaClass| duplicate_finding(ms, os, ms[m1], x);
    let h = |x: JavaClass| f(x).filter(q);
    lemma_concat_map_filter(srcs, f, q);
    assert forall|i: int| 0 <= i < srcs.len() && i != s1 implies #[trigger] h(srcs[i]).len() == 0 by {
        assert(occurs(ms, m1, i));
        if srcs[i].name@ == c.name@ {
            assert(same_class_name(ms, m1, i, s1));
        }
        if f(srcs[i]).len() > 0 {
            assert(f(srcs[i]) == seq![duplicate_report(srcs[i], ms[m1], ms[os[find_owner(ms, os, srcs[i].name@)->0].module as int])]);
            assert(f(srcs[i]).drop_last() =~= Seq::<ReportView>::empty());
            assert(f(srcs[i]).drop_last().filter(q) =~= Seq::<ReportView>::empty());
            assert(f(srcs[i]).last().for_class == srcs[i].name@);
            assert(!q(f(srcs[i]).last()));
            assert(h(srcs[i]) == f(srcs[i]).drop_last().filter(q));
        } else {
            assert(f(srcs[i]) =~= Seq::<ReportView>::empty());
            assert(h(srcs[i]) == f(srcs[i]).filter(q));
        }
    }
    lemma_concat_map_single(srcs, h, s1);
    assert(srcs[s1] == c);
    assert(f(c) == seq![duplicate_report(c, ms[m1], owner)]);
    assert(f(c).drop_last() =~= Seq::<ReportView>::empty());
    assert(f(c).drop_last().filter(q) =~= Seq::<ReportView>::empty());
    assert(q(f(c).last()));
    assert(h(c) =~= seq![duplicate_report(c, ms[m1], owner)]);
}

/// A class listed by modules `m1` and `m2`, where `m1` has the lower index, is owned by a
/// module of index at least that of `m2`, so never by `m1`; it is owned by `m2` when no other
/// module lists it. Module `m1` gets the critical finding that names it and the owner, and
/// the finding is among all findings of the graph, unless the class has no source file there.
pub proof fn law_ownership_determinism(g: ClassGraph, m1: int, s1: int, m2: int, s2: int)
    requires
        g.built(),
        unique_module_names(g.ms()),
        occurs(g.ms(), m1, s1),
        occurs(g.ms(), m2, s2),
        class_at(g.ms(), m1, s1).name@ == class_at(g.ms(), m2, s2).name@,
        g.ms()[m1].index < g.ms()[m2].index,
    ensures
        ({
            let ms = g.ms();
            let c = class_at(ms, m1, s1);
            let owner = g.os()[find_owner(ms, g.os(), c.name@)->0].module as int;
            &&& find_owner(ms, g.os(), c.name@) is Some
            &&& ms[owner].index >= ms[m2].index
            &&& owner != m1
            &&& (forall|m: int, s: int|
                occurs(ms, m, s) && class_at(ms, m, s).name@ == c.name@ ==> m == m1 || m == m2)
                ==> owner == m2
            &&& c.location@ != "n/a"@ ==> duplicate_findings(ms, g.os(), ms[m1]).contains(
                duplicate_report(c, ms[m1], ms[owner]),
            )
            &&& c.location@ != "n/a"@ ==> all_findings(g).contains(duplicate_report(c, ms[m1], ms[owner]))
        }),
{
    let ms = g.ms();
    let os = g.os();
    let c = class_at(ms, m1, s1);
    assert(occurs(ms, m2, s2));
    let k = choose|k: int| owner_named(ms, os, class_at(ms, m2, s2).name@, k) && owner_wins(ms, os[k], m2, s2);
    lemma_find_owner_unique(ms, os, c.name@, k);
    let owner = os[k].module as int;
    assert(occurs(ms, owner, os[k].src as int));
    if ms[owner].name@ == ms[m1].name@ {
        assert(module_named(ms, ms[m1].name@, owner));
    }
    let f = |x: JavaClass| duplicate_finding(ms, os, ms[m1], x);
    if c.location@ != "n/a"@ {
        assert(ms[m1].srcs@[s1] == c);
        assert(f(ms[m1].srcs@[s1]) == seq![duplicate_report(c, ms[m1], ms[owner])]);
        lemma_concat_map_member(ms[m1].srcs@, f, s1, 0);
        let r = duplicate_report(c, ms[m1], ms[owner]);
        let dups = duplicate_findings(ms, os, ms[m1]);
        let q = choose|q: int| 0 <= q < dups.len() && dups[q] == r;
        let mf = |mm: JavaModule| module_findings(ms, os, mm);
        assert(mf(ms[m1])[q] == r);
        lemma_concat_map_member(ms, mf, m1, q);
        let pre = concat_map(ms, mf);
        let i = choose|i: int| 0 <= i < pre.len() && pre[i] == r;
        assert(all_findings(g)[i] == r);
    }
}

proof fn lemma_concat_map_none<A>(s: Seq<A>, f: spec_fn(A) -> Seq<ReportView>)
    requires
        forall|i: int| 0 <= i < s.len() ==> #[trigger] f(s[i]).len() == 0,
    ensures
        concat_map(s, f) == Seq::<ReportView>::empty(),
    decreases s.len(),
{
    if s.len() > 0 {
        assert forall|i: int| 0 <= i < s.drop_last().len() implies #[trigger] f(s.drop_last()[i]).len() == 0 by {
            assert(s.drop_last()[i] == s[i]);
        }
        lemma_concat_map_none(s.drop_last(), f);
        assert(f(s[s.len() - 1]).len() == 0);
        assert(concat_map(s, f) =~= Seq::<ReportView>::empty());
    }
}

proof fn lemma_concat_names_none<A>(s: Seq<A>, f: spec_fn(A) -> Seq<Seq<char>>)
    requires
        forall|i: int| 0 <= i < s.len() ==> #[trigger] f(s[i]).len() == 0,
    ensures
        concat_names(s, f) == Seq::<Seq<char>>::empty(),
    decreases s.len(),
{
    if s.len() > 0 {
        assert forall|i: int| 0 <= i < s.drop_last().len() implies #[trigger] f(s.drop_last()[i]).len() == 0 by {
            assert(s.drop_last()[i] == s[i]);
        }
        lemma_concat_names_none(s.drop_last(), f);
        assert(f(s[s.len() - 1]).len() == 0);
        assert(concat_names(s, f) =~= Seq::<Seq<char>>::empty());
    }
}

/// A class whose target module `ti` is in the graph and not below the class's module, and
/// none of whose dependencies lacks its target module, conflicts with the target or still
/// sits below it, gets exactly one promotion finding: that it is ready to go. It carries the
/// move command (an AutoAction) when the class has an owning module and a location below
/// that module's directory, and asks for a developer (a DevAction) otherwise. The findings
/// are a function of the graph, so running the check again gives the same finding.
pub proof fn law_promotion_readiness(g: ClassGraph, c: JavaClass, m: JavaModule, ti: int)
    requires
        c.target_module is Some,
        find_module(g.ms(), c.target_module->0@) == Some(ti),
        m.index <= g.ms()[ti].index,
        forall|d: int|
            0 <= d < c.dependencies@.len() ==> !target_missing(
                g.ms(),
                #[trigger] named_class(g.ms(), g.os(), c.dependencies@[d]@),
            ),
        forall|d: int|
            0 <= d < c.dependencies@.len() ==> !#[trigger] promotion_blocks(
                g.ms(),
                g.os(),
                g.ms()[ti],
                c.dependencies@[d],
            ),
        forall|d: int|
            0 <= d < c.dependencies@.len() ==> !#[trigger] promotion_waits(
                g.ms(),
                g.os(),
                g.ms()[ti],
                c.dependencies@[d],
            ),
    ensures
        promotion_findings(g.ms(), g.os(), c, m) == seq![ready_finding(g.ms(), g.os(), c, m, g.ms()[ti])],
        ready_finding(g.ms(), g.os(), c, m, g.ms()[ti]).kind == if has_owner(g.ms(), g.os(), c.name@)
            && relative_location_of(c.location@) is Some {
            Kind::AutoAction
        } else {
            Kind::DevAction
        },
{
    let ms = g.ms();
    let os = g.os();
    let t = ms[ti];
    let deps = c.dependencies@;
    let f = |d: String| promotion_finding(ms, os, c, m, t, d);
    let pb = |d: String| promotion_blocks(ms, os, t, d);
    let pp = |d: String| promotion_pending(ms, os, t, d);
    let pm = |d: String| promotion_move(ms, os, t, d);
    assert forall|i: int| 0 <= i < deps.len() implies #[trigger] f(deps[i]).len() == 0 by {
        assert(!target_missing(ms, named_class(ms, os, deps[i]@)));
        assert(!promotion_blocks(ms, os, t, deps[i]));
    }
    assert forall|i: int| 0 <= i < deps.len() implies #[trigger] pp(deps[i]).len() == 0 by {
        assert(!promotion_waits(ms, os, t, deps[i]));
    }
    assert forall|i: int| 0 <= i < deps.len() implies #[trigger] pm(deps[i]).len() == 0 by {
        assert(!promotion_waits(ms, os, t, deps[i]));
    }
    lemma_concat_map_none(deps, f);
    lemma_concat_names_none(deps, pp);
    lemma_concat_names_none(deps, pm);
    assert(!any_of(deps, pb));
    assert(promotion_findings(ms, os, c, m) =~= seq![ready_finding(ms, os, c, m, t)]);
}

/// Class `x` is an indirect class of a finding that matches the filters directly, or of a
/// finding about a class reached in fewer than `n` steps.
pub open spec fn reached(o: Analyze, rs: Seq<ReportView>, x: Seq<char>, n: nat) -> bool
    decreases n,
{
    exists|i: int|
        0 <= i < rs.len() && #[trigger] rs[i].indirect_classes.contains(x) && (direct_match(o, rs[i]) || (
        n > 0 && reached(o, rs, rs[i].for_class, (n - 1) as nat)))
}

proof fn lemma_reached_in_closed(o: Analyze, rs: Seq<ReportView>, x: Seq<char>, n: nat, t: Set<Seq<char>>)
    requires
        reached(o, rs, x, n),
        closed_under(o, rs, t),
    ensures
        t.contains(x),
    decreases n,
{
    let i = choose|i: int|
        0 <= i < rs.len() && #[trigger] rs[i].indirect_classes.contains(x) && (direct_match(o, rs[i]) || (
        n > 0 && reached(o, rs, rs[i].for_class, (n - 1) as nat)));
    if !direct_match(o, rs[i]) {
        lemma_reached_in_closed(o, rs, rs[i].for_class, (n - 1) as nat, t);
    }
    assert(rs[i].indirect_classes.subset_of(t));
}

/// Whatever the filters, a class reached along indirect classes from a finding that matches
/// them lies in the closure, and every finding about that class that passes the command and
/// team filters is shown.
pub proof fn law_closure_soundness(o: Analyze, rs: Seq<ReportView>, x: Seq<char>, n: nat, r: ReportView)
    requires
        reached(o, rs, x, n),
        rs.contains(r),
        r.for_class == x,
        auto_filter_matches(o, r),
        team_filter_matches(o, r),
    ensures
        least_closure(o, rs).contains(x),
        shown(o, least_closure(o, rs), r),
{
    assert forall|t: Set<Seq<char>>| closed_under(o, rs, t) implies #[trigger] t.contains(x) by {
        lemma_reached_in_closed(o, rs, x, n, t);
    }
}

/// In the output of an analysis, every finding of the graph about a class reached along
/// indirect classes from a finding that matches the filters is shown, when it passes the
/// command and team filters.
pub proof fn law_closure_in_output(
    o: Analyze,
    ms: Seq<JavaModule>,
    a: Analysis,
    x: Seq<char>,
    n: nat,
    r: ReportView,
)
    requires
        analysis_of(o, ms, a),
        reached(o, all_findings(a.graph), x, n),
        all_findings(a.graph).contains(r),
        r.for_class == x,
        auto_filter_matches(o, r),
        team_filter_matches(o, r),
    ensures
        report_views(a.findings@).contains(r),
{
    broadcast use vstd::seq_lib::group_to_multiset_ensures;
    let all = all_findings(a.graph);
    law_closure_soundness(o, all, x, n, r);
    all.to_multiset_ensures();
    report_views(a.findings@).to_multiset_ensures();
    assert(report_views(a.findings@).to_multiset().count(r) == all.to_multiset().count(r));
}

/// With no filter set, an analysis shows every finding of the graph; so, with
/// `law_ownership_determinism`, the duplicate-ownership finding of a class listed by two
/// modules is shown, naming its owner of highest index.
pub proof fn law_unfiltered_shows_all(o: Analyze, ms: Seq<JavaModule>, a: Analysis, r: ReportView)
    requires
        analysis_of(o, ms, a),
        o.class_filter is None,
        o.module_filter is None,
        o.root_filter is None,
        o.team_filter is None,
        !o.auto_actionable_filter,
        all_findings(a.graph).contains(r),
    ensures
        report_views(a.findings@).contains(r),
{
    broadcast use vstd::seq_lib::group_to_multiset_ensures;
    let all = all_findings(a.graph);
    assert(shown(o, least_closure(o, all), r));
    all.to_multiset_ensures();
    report_views(a.findings@).to_multiset_ensures();
    assert(report_views(a.findings@).to_multiset().count(r) == all.to_multiset().count(r));
}

} // verus!
