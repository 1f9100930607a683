use vstd::prelude::*;
use vstd::multiset::Multiset;
use vstd::string::StringExecFns;

use crate::checks::{
    already_in_target_findings, check_already_in_target, check_for_classes_in_more_than_one_module,
    check_for_deprecated_module, check_for_extra_break, check_for_reversed_dependency,
    check_for_team, concat_map, deprecated_findings, duplicate_findings, extend_reports,
    extra_break_findings, lemma_concat_map_all, lemma_concat_map_take, reversed_findings,
    team_findings,
};
use crate::eligibility::{
    check_for_demotion, check_for_promotion, demotion_findings, dependee_list, names_owned,
    promotion_findings,
};
use crate::graph::{
    build_graph, class_at, class_listed, declared_dependee, find_class, find_module_index,
    has_module, has_owner, lemma_owner_iff_listed, lemma_resolves, lists, multimap_get, occurs,
    owned_class, resolves, validate, ClassGraph, ClassOwner, GraphError,
};
use crate::eligibility::concat_names;
use crate::model::{kind_name, kind_rank, JavaModule, Kind, Report, ReportView, report_views, UNKNOWN_TEAM};
use crate::text::{
    begins_with, chars_of, contains_name, contains_text, holds_name, lex_le, name_set, occurs_in,
    starts_with, text_le, views,
};

verus! {

/// What to report on: each filter that is set narrows the findings.
pub struct Analyze {
    /// Keep findings about classes whose name contains this text.
    pub class_filter: Option<String>,
    /// Keep findings that involve this module.
    pub module_filter: Option<String>,
    /// Keep findings that involve a module under this root.
    pub root_filter: Option<String>,
    /// Keep findings of this team, and of no known team unless `only_team_filter` is set.
    pub team_filter: Option<String>,
    pub only_team_filter: bool,
    /// Keep only findings that carry a command.
    pub auto_actionable_filter: bool,
    /// Show the command of each finding that carries one.
    pub auto_actionable_command: bool,
}

/// Module `n` lies under `root`: its name is the root followed by `:`.
pub open spec fn under_root(root: Seq<char>, n: Seq<char>) -> bool {
    starts_with(n, root) && n.len() > root.len() && n[root.len() as int] == ':'
}

pub open spec fn class_filter_matches(o: Analyze, r: ReportView) -> bool {
    match o.class_filter {
        None => true,
        Some(f) => occurs_in(r.for_class, f@),
    }
}

pub open spec fn module_filter_matches(o: Analyze, r: ReportView) -> bool {
    match o.module_filter {
        None => true,
        Some(f) => r.for_modules.contains(f@),
    }
}

pub open spec fn root_filter_matches(o: Analyze, r: ReportView) -> bool {
    match o.root_filter {
        None => true,
        Some(f) => exists|n: Seq<char>| r.for_modules.contains(n) && #[trigger] under_root(f@, n),
    }
}

pub open spec fn team_filter_matches(o: Analyze, r: ReportView) -> bool {
    match o.team_filter {
        None => true,
        Some(f) => r.for_team == f@ || (!o.only_team_filter && r.for_team == UNKNOWN_TEAM@),
    }
}

pub open spec fn auto_filter_matches(o: Analyze, r: ReportView) -> bool {
    !o.auto_actionable_filter || r.action.len() > 0
}

/// The finding matches the class, module and root filters.
pub open spec fn direct_match(o: Analyze, r: ReportView) -> bool {
    class_filter_matches(o, r) && module_filter_matches(o, r) && root_filter_matches(o, r)
}

/// Whether the finding matches the class, module and root filters.
pub fn filter_report(opts: &Analyze, report: &Report) -> (r: bool)
    ensures
        r == direct_match(*opts, report@),
{
    filter_by_class(opts, report) && filter_by_module(opts, report) && filter_by_root(opts, report)
}

/// Whether the finding's class contains the class filter.
pub fn filter_by_class(opts: &Analyze, report: &Report) -> (r: bool)
    ensures
        r == class_filter_matches(*opts, report@),
{
    match &opts.class_filter {
        None => true,
        Some(f) => contains_text(report.for_class.as_str(), f.as_str()),
    }
}

/// Whether the finding involves the filtered module.
pub fn filter_by_module(opts: &Analyze, report: &Report) -> (r: bool)
    ensures
        r == module_filter_matches(*opts, report@),
{
    match &opts.module_filter {
        None => true,
        Some(f) => contains_name(&report.for_modules, f),
    }
}

/// Whether the finding belongs to the filtered team.
pub fn filter_by_team(opts: &Analyze, report: &Report) -> (r: bool)
    ensures
        r == team_filter_matches(*opts, report@),
{
    match &opts.team_filter {
        None => true,
        Some(f) => report.for_team == *f || (!opts.only_team_filter && report.for_team
            == String::from_str(UNKNOWN_TEAM)),
    }
}

/// Whether the finding passes the filter on findings that carry a command.
pub fn filter_by_auto_actionable(opts: &Analyze, report: &Report) -> (r: bool)
    ensures
        r == auto_filter_matches(*opts, report@),
{
    !opts.auto_actionable_filter || !report.action.as_str().is_empty()
}

/// Whether the finding involves a module under the filtered root.
pub fn filter_by_root(opts: &Analyze, report: &Report) -> (r: bool)
    ensures
        r == root_filter_matches(*opts, report@),
{
    match &opts.root_filter {
        None => true,
        Some(f) => {
            let mut i: usize = 0;
            while i < report.for_modules.len()
                invariant
                    i <= report.for_modules@.len(),
                    opts.root_filter == Some(*f),
                    forall|j: int| 0 <= j < i ==> !under_root(f@, #[trigger] report.for_modules@[j]@),
                decreases report.for_modules@.len() - i,
            {
                if is_with_root(opts, &report.for_modules[i]) {
                    proof {
                        assert(views(report.for_modules@)[i as int] == report.for_modules@[i as int]@);
                        assert(name_set(report.for_modules@).contains(report.for_modules@[i as int]@));
                    }
                    return true;
                }
                i = i + 1;
            }
            proof {
                assert forall|n: Seq<char>| name_set(report.for_modules@).contains(n) implies !#[trigger] under_root(f@, n) by {
                    let j = choose|j: int| 0 <= j < views(report.for_modules@).len() && views(report.for_modules@)[j] == n;
                    assert(views(report.for_modules@)[j] == report.for_modules@[j]@);
                }
            }
            false
        },
    }
}

/// Whether the module lies under the root filter; false when no root filter is set.
pub fn is_with_root(opts: &Analyze, module_name: &String) -> (r: bool)
    ensures
        r == match opts.root_filter {
            Some(f) => under_root(f@, module_name@),
            None => false,
        },
{
    match &opts.root_filter {
        None => false,
        Some(root) => {
            if !begins_with(module_name.as_str(), root.as_str()) {
                return false;
            }
            let cs = chars_of(module_name.as_str());
            let rs = chars_of(root.as_str());
            rs.len() < cs.len() && cs[rs.len()] == ':'
        },
    }
}

/// Set `s` is closed over the findings: each finding that matches the filters directly, or is
/// about a class of `s`, has all its indirect classes in `s`.
pub open spec fn closed_under(o: Analyze, rs: Seq<ReportView>, s: Set<Seq<char>>) -> bool {
    forall|i: int|
        0 <= i < rs.len() && (direct_match(o, rs[i]) || s.contains(rs[i].for_class))
            ==> #[trigger] rs[i].indirect_classes.subset_of(s)
}

/// The smallest closed set: the classes that lie in every closed set.
pub open spec fn least_closure(o: Analyze, rs: Seq<ReportView>) -> Set<Seq<char>> {
    Set::new(|x: Seq<char>| forall|t: Set<Seq<char>>| closed_under(o, rs, t) ==> #[trigger] t.contains(x))
}

/// Every class that some finding names as indirect.
pub open spec fn all_indirect(rs: Seq<ReportView>) -> Set<Seq<char>>
    decreases rs.len(),
{
    if rs.len() == 0 {
        Set::empty()
    } else {
        all_indirect(rs.drop_last()).union(rs.last().indirect_classes)
    }
}

proof fn lemma_all_indirect(v: Seq<Report>)
    ensures
        all_indirect(report_views(v)).finite(),
        forall|i: int| 0 <= i < v.len() ==> #[trigger] report_views(v)[i].indirect_classes.subset_of(all_indirect(report_views(v))),
    decreases v.len(),
{
    broadcast use vstd::seq_lib::seq_to_set_is_finite;
    let rs = report_views(v);
    if v.len() > 0 {
        lemma_all_indirect(v.drop_last());
        assert(report_views(v.drop_last()) =~= rs.drop_last());
        assert(rs.last() == v.last()@);
        assert forall|i: int| 0 <= i < v.len() implies #[trigger] rs[i].indirect_classes.subset_of(all_indirect(rs)) by {
            assert(all_indirect(rs) == all_indirect(rs.drop_last()).union(rs.last().indirect_classes));
            if i < v.len() - 1 {
                assert(rs[i] == report_views(v.drop_last())[i]);
                assert(rs[i].indirect_classes.subset_of(all_indirect(rs.drop_last())));
            } else {
                assert(rs[i] == rs.last());
            }
        }
    }
}

proof fn lemma_name_set_push(v: Seq<String>, x: String)
    ensures
        name_set(v.push(x)) == name_set(v).insert(x@),
        views(v.push(x)) == views(v).push(x@),
{
    broadcast use vstd::seq_lib::group_seq_properties;
    assert(views(v.push(x)) =~= views(v).push(x@));
    views(v).lemma_push_to_set_commute(x@);
}

/// Adds to `closure` each name of `names` that it lacks.
fn add_names(closure: &mut Vec<String>, names: &Vec<String>)
    requires
        views(old(closure)@).no_duplicates(),
    ensures
        views(final(closure)@).no_duplicates(),
        name_set(final(closure)@) == name_set(old(closure)@).union(name_set(names@)),
        final(closure)@.len() >= old(closure)@.len(),
{
    let ghost start = name_set(closure@);
    let mut j: usize = 0;
    assert(name_set(names@.take(0)) =~= Set::<Seq<char>>::empty());
    while j < names.len()
        invariant
            j <= names@.len(),
            closure@.len() >= old(closure)@.len(),
            views(closure@).no_duplicates(),
            name_set(closure@) == start.union(name_set(names@.take(j as int))),
        decreases names@.len() - j,
    {
        proof {
            assert(names@.take(j + 1) =~= names@.take(j as int).push(names@[j as int]));
            lemma_name_set_push(names@.take(j as int), names@[j as int]);
        }
        if !contains_name(closure, &names[j]) {
            let ghost before = closure@;
            closure.push(names[j].clone());
            proof {
                lemma_name_set_push(before, names@[j as int]);
                assert forall|a: int, b: int| 0 <= a < b < views(closure@).len() implies views(closure@)[a] != views(closure@)[b] by {
                    if b == before.len() {
                        assert(views(before)[a] == views(closure@)[a]);
                        assert(name_set(before).contains(views(before)[a]));
                    } else {
                        assert(views(before)[a] == views(closure@)[a]);
                        assert(views(before)[b] == views(closure@)[b]);
                    }
                }
            }
        }
        assert(name_set(closure@) =~= start.union(name_set(names@.take(j + 1))));
        j = j + 1;
    }
    assert(names@.take(names@.len() as int) =~= names@);
}

/// The classes whose findings must be shown besides those that match the filters: the
/// smallest set that holds the indirect classes of every finding that matches the filters
/// or is about a class of the set. It holds only classes that some finding names as
/// indirect. Also gives the number of scans that grew the set, at most its size; the scans
/// stop after one more.
pub fn indirect_closure(opts: &Analyze, reports: &Vec<Report>) -> (r: (Vec<String>, usize))
    ensures
        closed_under(*opts, report_views(reports@), name_set(r.0@)),
        name_set(r.0@) == least_closure(*opts, report_views(reports@)),
        name_set(r.0@).subset_of(all_indirect(report_views(reports@))),
        r.1 <= name_set(r.0@).len(),
{
    let ghost rs = report_views(reports@);
    let ghost u = all_indirect(rs);
    proof {
        lemma_all_indirect(reports@);
    }
    let mut closure: Vec<String> = Vec::new();
    let mut rounds: usize = 0;
    proof {
        assert(name_set(closure@) =~= Set::<Seq<char>>::empty());
    }
    loop
        invariant
            rs == report_views(reports@),
            u == all_indirect(rs),
            u.finite(),
            forall|i: int| 0 <= i < reports@.len() ==> #[trigger] rs[i].indirect_classes.subset_of(u),
            views(closure@).no_duplicates(),
            name_set(closure@).subset_of(u),
            forall|t: Set<Seq<char>>| closed_under(*opts, rs, t) ==> #[trigger] name_set(closure@).subset_of(t),
            rounds <= closure@.len(),
        decreases u.len() - name_set(closure@).len(),
    {
        let ghost start = name_set(closure@);
        let snapshot = crate::text::clone_names(&closure);
        assert(name_set(snapshot@) == start);
        let mut i: usize = 0;
        while i < reports.len()
            invariant
                rs == report_views(reports@),
                i <= reports@.len(),
                forall|q: int| 0 <= q < reports@.len() ==> #[trigger] rs[q].indirect_classes.subset_of(u),
                name_set(snapshot@) == start,
                snapshot@.len() <= closure@.len(),
                views(closure@).no_duplicates(),
                start.subset_of(name_set(closure@)),
                name_set(closure@).subset_of(u),
                forall|t: Set<Seq<char>>| closed_under(*opts, rs, t) ==> #[trigger] name_set(closure@).subset_of(t),
                forall|j: int|
                    0 <= j < i && (direct_match(*opts, rs[j]) || start.contains(rs[j].for_class))
                        ==> #[trigger] rs[j].indirect_classes.subset_of(name_set(closure@)),
            decreases reports@.len() - i,
        {
            let report = &reports[i];
            assert(rs[i as int] == report@);
            let ghost before = closure@;
            if filter_report(opts, report) || contains_name(&snapshot, &report.for_class) {
                add_names(&mut closure, &report.indirect_classes);
                proof {
                    assert forall|t: Set<Seq<char>>| closed_under(*opts, rs, t) implies #[trigger] name_set(closure@).subset_of(t) by {
                        assert(name_set(before).subset_of(t));
                        assert(rs[i as int].indirect_classes.subset_of(t));
                    }
                }
            }
            proof {
                assert(name_set(before).subset_of(name_set(closure@)));
                assert forall|j: int|
                    0 <= j < i + 1 && (direct_match(*opts, rs[j]) || start.contains(rs[j].for_class))
                        implies #[trigger] rs[j].indirect_classes.subset_of(name_set(closure@)) by {
                    if j < i {
                        assert(rs[j].indirect_classes.subset_of(name_set(before)));
                    } else {
                        assert(rs[j].indirect_classes == name_set(report.indirect_classes@));
                    }
                }
            }
            i = i + 1;
        }
        if snapshot.len() == closure.len() {
            proof {
                views(closure@).unique_seq_to_set();
                views(snapshot@).unique_seq_to_set();
                crate::text::lemma_views_len(closure@);
                crate::text::lemma_views_len(snapshot@);
                if !(start =~= name_set(closure@)) {
                    let x = choose|x: Seq<char>| name_set(closure@).contains(x) && !start.contains(x);
                    vstd::set_lib::lemma_len_subset(start.insert(x), name_set(closure@));
                }
                assert(start =~= name_set(closure@));
                assert forall|q: int| 0 <= q < rs.len() && (direct_match(*opts, rs[q]) || name_set(closure@).contains(rs[q].for_class))
                    implies #[trigger] rs[q].indirect_classes.subset_of(name_set(closure@)) by {
                }
                assert forall|x: Seq<char>| name_set(closure@).contains(x) <==> least_closure(*opts, rs).contains(x) by {
                    if name_set(closure@).contains(x) {
                        assert forall|t: Set<Seq<char>>| closed_under(*opts, rs, t) implies #[trigger] t.contains(x) by {
                            assert(name_set(closure@).subset_of(t));
                        }
                    }
                    if least_closure(*opts, rs).contains(x) {
                        assert(closed_under(*opts, rs, name_set(closure@)));
                    }
                }
                assert(name_set(closure@) =~= least_closure(*opts, rs));
                views(closure@).unique_seq_to_set();
                crate::text::lemma_views_len(closure@);
            }
            return (closure, rounds);
        }
        proof {
            if start =~= name_set(closure@) {
                views(closure@).unique_seq_to_set();
                views(snapshot@).unique_seq_to_set();
                crate::text::lemma_views_len(closure@);
                crate::text::lemma_views_len(snapshot@);
                assert(false);
            }
            let x = choose|x: Seq<char>| name_set(closure@).contains(x) && !start.contains(x);
            vstd::set_lib::lemma_len_subset(start.insert(x), name_set(closure@));
            vstd::set_lib::lemma_len_subset(name_set(closure@), u);
        }
        rounds = rounds + 1;
    }
}

/// Finding `a` comes no later than `b`: by severity, then by message.
pub open spec fn report_le(a: ReportView, b: ReportView) -> bool {
    kind_rank(a.kind) < kind_rank(b.kind) || (kind_rank(a.kind) == kind_rank(b.kind) && lex_le(
        a.message,
        b.message,
    ))
}

/// The findings are in order of severity, then of message.
pub open spec fn sorted_reports(rs: Seq<ReportView>) -> bool {
    forall|i: int, j: int| 0 <= i < j < rs.len() ==> #[trigger] report_le(rs[i], rs[j])
}

proof fn lemma_report_le_total(a: ReportView, b: ReportView)
    ensures
        report_le(a, b) || report_le(b, a),
{
    crate::text::lemma_lex_total(a.message, b.message);
}

proof fn lemma_report_le_transitive(a: ReportView, b: ReportView, c: ReportView)
    requires
        report_le(a, b),
        report_le(b, c),
    ensures
        report_le(a, c),
{
    if kind_rank(a.kind) == kind_rank(b.kind) && kind_rank(b.kind) == kind_rank(c.kind) {
        crate::text::lemma_lex_transitive(a.message, b.message, c.message);
    }
}

/// Whether finding `a` comes no later than `b`.
pub fn report_precedes(a: &Report, b: &Report) -> (r: bool)
    ensures
        r == report_le(a@, b@),
{
    let ka = a.kind.rank();
    let kb = b.kind.rank();
    ka < kb || (ka == kb && text_le(a.message.as_str(), b.message.as_str()))
}

/// `output` is `input` rearranged by `p` (output position `i` holds input position `p[i]`),
/// and findings that compare equal keep their order.
pub open spec fn stable_rearrangement(input: Seq<ReportView>, output: Seq<ReportView>, p: Seq<int>) -> bool {
    &&& p.len() == output.len()
    &&& output.len() == input.len()
    &&& forall|i: int| 0 <= i < p.len() ==> 0 <= #[trigger] p[i] < input.len() && output[i] == input[p[i]]
    &&& forall|i: int, j: int| 0 <= i < j < p.len() ==> #[trigger] p[i] != #[trigger] p[j]
    &&& forall|i: int, j: int|
        0 <= i < j < p.len() && #[trigger] report_le(output[j], output[i]) ==> p[i] < p[j]
}

/// Sorts the findings by severity, then by message; findings that compare equal keep their order.
pub fn sort_reports(v: Vec<Report>) -> (r: Vec<Report>)
    ensures
        report_views(r@).to_multiset() == report_views(v@).to_multiset(),
        sorted_reports(report_views(r@)),
        exists|p: Seq<int>| stable_rearrangement(report_views(v@), report_views(r@), p),
{
    broadcast use vstd::seq_lib::group_to_multiset_ensures;
    broadcast use vstd::multiset::group_multiset_axioms;
    let ghost iv = report_views(v@);
    let ghost m0 = iv.to_multiset();
    let ghost n = v@.len() as int;
    let mut rest = v;
    let mut out: Vec<Report> = Vec::new();
    let ghost mut out_idx: Seq<int> = Seq::empty();
    let ghost mut rest_idx: Seq<int> = Seq::new(n as nat, |i: int| i);
    assert(report_views(out@) =~= Seq::<ReportView>::empty());
    assert(report_views(out@).to_multiset().add(report_views(rest@).to_multiset()) =~= m0);
    while rest.len() > 0
        invariant
            iv.len() == n,
            report_views(out@).to_multiset().add(report_views(rest@).to_multiset()) == m0,
            sorted_reports(report_views(out@)),
            forall|i: int, j: int|
                0 <= i < out@.len() && 0 <= j < rest@.len() ==> #[trigger] report_le(
                    report_views(out@)[i],
                    report_views(rest@)[j],
                ),
            out_idx.len() == out@.len(),
            rest_idx.len() == rest@.len(),
            out@.len() + rest@.len() == n,
            forall|i: int| 0 <= i < out_idx.len() ==> 0 <= #[trigger] out_idx[i] < n && report_views(out@)[i] == iv[out_idx[i]],
            forall|j: int| 0 <= j < rest_idx.len() ==> 0 <= #[trigger] rest_idx[j] < n && report_views(rest@)[j] == iv[rest_idx[j]],
            forall|a: int, b: int| 0 <= a < b < rest_idx.len() ==> #[trigger] rest_idx[a] < #[trigger] rest_idx[b],
            forall|a: int, b: int| 0 <= a < b < out_idx.len() ==> #[trigger] out_idx[a] != #[trigger] out_idx[b],
            forall|a: int, b: int| 0 <= a < out_idx.len() && 0 <= b < rest_idx.len() ==> #[trigger] out_idx[a] != #[trigger] rest_idx[b],
            forall|a: int, b: int|
                0 <= a < b < out_idx.len() && #[trigger] report_le(report_views(out@)[b], report_views(out@)[a])
                    ==> out_idx[a] < out_idx[b],
            forall|a: int, b: int|
                0 <= a < out_idx.len() && 0 <= b < rest_idx.len() && #[trigger] report_le(
                    report_views(rest@)[b],
                    report_views(out@)[a],
                ) ==> out_idx[a] < rest_idx[b],
        decreases rest@.len(),
    {
        let ghost rv = report_views(rest@);
        let mut best: usize = 0;
        let mut j: usize = 1;
        proof {
            crate::text::lemma_lex_refl(rv[0].message);
        }
        while j < rest.len()
            invariant
                rv == report_views(rest@),
                best < j <= rest@.len(),
                forall|q: int| 0 <= q < j ==> #[trigger] report_le(rv[best as int], rv[q]),
                forall|q: int| 0 <= q < best ==> !#[trigger] report_le(rv[q], rv[best as int]),
            decreases rest@.len() - j,
        {
            if !report_precedes(&rest[best], &rest[j]) {
                proof {
                    lemma_report_le_total(rv[best as int], rv[j as int]);
                    assert forall|q: int| 0 <= q < j + 1 implies #[trigger] report_le(rv[j as int], rv[q]) by {
                        if q < j {
                            lemma_report_le_transitive(rv[j as int], rv[best as int], rv[q]);
                        } else {
                            crate::text::lemma_lex_refl(rv[q].message);
                        }
                    }
                    assert forall|q: int| 0 <= q < j implies !#[trigger] report_le(rv[q], rv[j as int]) by {
                        if report_le(rv[q], rv[j as int]) {
                            lemma_report_le_transitive(rv[best as int], rv[q], rv[j as int]);
                        }
                    }
                }
                best = j;
            }
            j = j + 1;
        }
        let ghost ov = report_views(out@);
        let ghost oi = out_idx;
        let ghost ri = rest_idx;
        let x = rest.remove(best);
        let ghost xv = x@;
        assert(xv == rv[best as int]);
        assert(report_views(rest@) =~= rv.remove(best as int));
        out.push(x);
        assert(report_views(out@) =~= ov.push(xv));
        proof {
            out_idx = oi.push(ri[best as int]);
            rest_idx = ri.remove(best as int);
            rv.to_multiset_ensures();
            ov.to_multiset_ensures();
            assert(rv.remove(best as int).to_multiset() =~= rv.to_multiset().remove(xv));
            assert(ov.push(xv).to_multiset() =~= ov.to_multiset().insert(xv));
            assert(rv.to_multiset().count(xv) > 0) by {
                assert(rv.contains(xv));
            }
            assert(report_views(out@).to_multiset().add(report_views(rest@).to_multiset()) =~= m0);
            assert forall|a: int, b: int| 0 <= a < b < report_views(out@).len() implies #[trigger] report_le(
                report_views(out@)[a],
                report_views(out@)[b],
            ) by {
                if b == ov.len() {
                    assert(report_le(ov[a], rv[best as int]));
                } else {
                    assert(report_le(ov[a], ov[b]));
                }
            }
            assert forall|a: int, b: int|
                0 <= a < out@.len() && 0 <= b < rest@.len() implies #[trigger] report_le(
                    report_views(out@)[a],
                    report_views(rest@)[b],
                ) by {
                let bb = if b < best { b } else { b + 1 };
                assert(report_views(rest@)[b] == rv[bb]);
                if a == ov.len() {
                    assert(report_le(rv[best as int], rv[bb]));
                } else {
                    assert(report_le(ov[a], rv[bb]));
                }
            }
            assert forall|i: int| 0 <= i < out_idx.len() implies 0 <= #[trigger] out_idx[i] < n && report_views(out@)[i] == iv[out_idx[i]] by {
                if i < oi.len() {
                    assert(out_idx[i] == oi[i]);
                    assert(report_views(out@)[i] == ov[i]);
                }
            }
            assert forall|j: int| 0 <= j < rest_idx.len() implies 0 <= #[trigger] rest_idx[j] < n && report_views(rest@)[j] == iv[rest_idx[j]] by {
                let jj = if j < best { j } else { j + 1 };
                assert(rest_idx[j] == ri[jj]);
                assert(report_views(rest@)[j] == rv[jj]);
            }
            assert forall|a: int, b: int| 0 <= a < b < rest_idx.len() implies #[trigger] rest_idx[a] < #[trigger] rest_idx[b] by {
                let aa = if a < best { a } else { a + 1 };
                let bb = if b < best { b } else { b + 1 };
                assert(rest_idx[a] == ri[aa] && rest_idx[b] == ri[bb]);
            }
            assert forall|a: int, b: int| 0 <= a < b < out_idx.len() implies #[trigger] out_idx[a] != #[trigger] out_idx[b] by {
                if b == oi.len() {
                    assert(out_idx[a] == oi[a]);
                    assert(oi[a] != ri[best as int]);
                } else {
                    assert(out_idx[a] == oi[a] && out_idx[b] == oi[b]);
                }
            }
            assert forall|a: int, b: int| 0 <= a < out_idx.len() && 0 <= b < rest_idx.len() implies #[trigger] out_idx[a] != #[trigger] rest_idx[b] by {
                let bb = if b < best { b } else { b + 1 };
                assert(rest_idx[b] == ri[bb]);
                if a == oi.len() {
                    assert(ri[best as int] != ri[bb]);
                } else {
                    assert(out_idx[a] == oi[a]);
                }
            }
            assert forall|a: int, b: int|
                0 <= a < b < out_idx.len() && #[trigger] report_le(report_views(out@)[b], report_views(out@)[a])
                    implies out_idx[a] < out_idx[b] by {
                assert(out_idx[a] == oi[a]);
                assert(report_views(out@)[a] == ov[a]);
                if b == oi.len() {
                    assert(report_views(out@)[b] == rv[best as int]);
                    assert(out_idx[b] == ri[best as int]);
                } else {
                    assert(out_idx[b] == oi[b]);
                    assert(report_views(out@)[b] == ov[b]);
                }
            }
            assert forall|a: int, b: int|
                0 <= a < out_idx.len() && 0 <= b < rest_idx.len() && #[trigger] report_le(
                    report_views(rest@)[b],
                    report_views(out@)[a],
                ) implies out_idx[a] < rest_idx[b] by {
                let bb = if b < best { b } else { b + 1 };
                assert(rest_idx[b] == ri[bb]);
                assert(report_views(rest@)[b] == rv[bb]);
                if a == oi.len() {
                    assert(out_idx[a] == ri[best as int]);
                    assert(report_views(out@)[a] == rv[best as int]);
                    if bb < best {
                        assert(!report_le(rv[bb], rv[best as int]));
                    }
                } else {
                    assert(out_idx[a] == oi[a]);
                    assert(report_views(out@)[a] == ov[a]);
                }
            }
        }
    }
    assert(report_views(rest@) =~= Seq::<ReportView>::empty());
    assert(report_views(rest@).to_multiset() =~= Multiset::empty());
    assert(report_views(out@).to_multiset() =~= m0);
    assert(stable_rearrangement(iv, report_views(out@), out_idx));
    out
}

/// The findings on one module: classes it shares with another module, then dependencies
/// on modules that are not below it.
pub open spec fn module_findings(ms: Seq<JavaModule>, os: Seq<ClassOwner>, m: JavaModule) -> Seq<ReportView> {
    duplicate_findings(ms, os, m) + reversed_findings(ms, m)
}

/// The classes listed as depending on the class named `n`.
pub open spec fn dependees_named(e: Map<Seq<char>, Seq<Seq<char>>>, n: Seq<char>) -> Seq<Seq<char>> {
    if e.contains_key(n) {
        e[n]
    } else {
        Seq::empty()
    }
}

/// The findings on one owned class, check after check.
pub open spec fn class_findings(
    ms: Seq<JavaModule>,
    os: Seq<ClassOwner>,
    e: Map<Seq<char>, Seq<Seq<char>>>,
    o: ClassOwner,
) -> Seq<ReportView> {
    let c = owned_class(ms, o);
    let m = ms[o.module as int];
    team_findings(c, m) + already_in_target_findings(c, m) + extra_break_findings(c, m)
        + promotion_findings(ms, os, c, m) + demotion_findings(ms, os, c, dependees_named(e, c.name@), m)
        + deprecated_findings(c, m)
}

/// Every finding on the graph: the module checks for each module, then the class checks for
/// each owned class.
pub open spec fn all_findings(g: ClassGraph) -> Seq<ReportView> {
    concat_map(g.ms(), |m: JavaModule| module_findings(g.ms(), g.os(), m)) + concat_map(
        g.os(),
        |o: ClassOwner| class_findings(g.ms(), g.os(), g.dependees(), o),
    )
}

proof fn lemma_owned_names(g: ClassGraph, k: int)
    requires
        g.wf(),
        0 <= k < g.os().len(),
    ensures
        names_owned(g.ms(), g.os(), g.class_of(k).dependencies@),
        occurs(g.ms(), g.os()[k].module as int, g.os()[k].src as int),
{
    let o = g.os()[k];
    assert(occurs(g.ms(), o.module as int, o.src as int));
    assert forall|t: int| 0 <= t < g.class_of(k).dependencies@.len() implies has_owner(g.ms(), g.os(), #[trigger] g.class_of(k).dependencies@[t]@) by {
        assert(class_at(g.ms(), o.module as int, o.src as int).dependencies@[t]@ == g.class_of(k).dependencies@[t]@);
    }
}

proof fn lemma_dependees_owned(g: ClassGraph, v: Seq<String>, n: Seq<char>)
    requires
        g.wf(),
        g.dependees().contains_key(n),
        views(v) == g.dependees()[n],
    ensures
        names_owned(g.ms(), g.os(), v),
{
    assert forall|t: int| 0 <= t < v.len() implies has_owner(g.ms(), g.os(), #[trigger] v[t]@) by {
        assert(views(v)[t] == v[t]@);
        assert(g.dependees()[n].contains(v[t]@));
        assert(lists(g.dependees(), n, v[t]@));
        assert(declared_dependee(g.ms(), n, v[t]@));
        let (m, s) = choose|m: int, s: int|
            #[trigger] occurs(g.ms(), m, s) && class_at(g.ms(), m, s).name@ == v[t]@ && holds_name(
                class_at(g.ms(), m, s).dependencies@,
                n,
            );
        assert(occurs(g.ms(), m, s));
    }
}

/// Runs the class checks on owned class `k`.
fn class_reports(k: usize, graph: &ClassGraph) -> (r: Vec<Report>)
    requires
        graph.wf(),
        k < graph.os().len(),
    ensures
        report_views(r@) == class_findings(graph.ms(), graph.os(), graph.dependees(), graph.os()[k as int]),
{
    proof {
        lemma_owned_names(*graph, k as int);
    }
    let o = graph.class_modules[k];
    let class = &graph.modules[o.module].srcs[o.src];
    let module = &graph.modules[o.module];
    let mut results = check_for_team(class, module);
    extend_reports(&mut results, check_already_in_target(class, module));
    extend_reports(&mut results, check_for_extra_break(class, module));
    extend_reports(&mut results, check_for_promotion(class, module, graph));
    let dependees = multimap_get(&graph.class_dependees, class.name.as_str());
    proof {
        match dependees {
            Some(v) => {
                lemma_dependees_owned(*graph, v@, class.name@);
            },
            None => {},
        }
        assert(dependee_list(dependees) == dependees_named(graph.dependees(), class.name@));
    }
    extend_reports(&mut results, check_for_demotion(class, dependees, module, graph));
    extend_reports(&mut results, check_for_deprecated_module(class, module));
    results
}

/// Runs every check on the graph.
pub fn collect_findings(graph: &ClassGraph) -> (r: Vec<Report>)
    requires
        graph.wf(),
    ensures
        report_views(r@) == all_findings(*graph),
{
    let ghost ms = graph.ms();
    let ghost os = graph.os();
    let ghost fm = |m: JavaModule| module_findings(ms, os, m);
    let ghost fc = |o: ClassOwner| class_findings(ms, os, graph.dependees(), o);
    let mut results: Vec<Report> = Vec::new();
    let mut i: usize = 0;
    while i < graph.modules.len()
        invariant
            ms == graph.ms(),
            os == graph.os(),
            graph.wf(),
            i <= ms.len(),
            fm == (|m: JavaModule| module_findings(ms, os, m)),
            report_views(results@) == concat_map(ms.take(i as int), fm),
        decreases ms.len() - i,
    {
        proof {
            lemma_concat_map_take(ms, fm, i as int);
            assert forall|t: int| 0 <= t < ms[i as int].dependencies@.len() implies has_module(ms, #[trigger] ms[i as int].dependencies@[t]@) by {
            }
        }
        let ghost before = report_views(results@);
        let dup = check_for_classes_in_more_than_one_module(i, graph);
        extend_reports(&mut results, dup);
        let rev = check_for_reversed_dependency(&graph.modules[i], &graph.modules);
        extend_reports(&mut results, rev);
        assert(report_views(results@) =~= before + fm(ms[i as int]));
        i = i + 1;
    }
    proof {
        lemma_concat_map_all(ms, fm);
    }
    let ghost first = report_views(results@);
    let mut k: usize = 0;
    while k < graph.class_modules.len()
        invariant
            ms == graph.ms(),
            os == graph.os(),
            graph.wf(),
            k <= os.len(),
            fc == (|o: ClassOwner| class_findings(ms, os, graph.dependees(), o)),
            first == concat_map(ms, fm),
            fm == (|m: JavaModule| module_findings(ms, os, m)),
            report_views(results@) == first + concat_map(os.take(k as int), fc),
        decreases os.len() - k,
    {
        proof {
            lemma_concat_map_take(os, fc, k as int);
        }
        let ghost before = report_views(results@);
        extend_reports(&mut results, class_reports(k, graph));
        assert(report_views(results@) =~= before + fc(os[k as int]));
        k = k + 1;
    }
    proof {
        lemma_concat_map_all(os, fc);
    }
    results
}

/// The finding is shown: it matches the filters directly or is about a class of `closure`,
/// and it passes the command and team filters.
pub open spec fn shown(o: Analyze, closure: Set<Seq<char>>, r: ReportView) -> bool {
    (direct_match(o, r) || closure.contains(r.for_class)) && auto_filter_matches(o, r)
        && team_filter_matches(o, r)
}

/// The lines printed for a finding: severity, team and message, then the command when
/// commands are shown and the finding has one.
pub open spec fn render_lines(o: Analyze, r: ReportView) -> Seq<Seq<char>> {
    let head = kind_name(r.kind) + ": ["@ + r.for_team + "] "@ + r.message;
    if o.auto_actionable_command && r.action.len() > 0 {
        seq![head, "   "@ + r.action]
    } else {
        seq![head]
    }
}

/// The lines printed for a list of findings.
pub open spec fn rendered(o: Analyze, fs: Seq<ReportView>) -> Seq<Seq<char>> {
    concat_names(fs, |r: ReportView| render_lines(o, r))
}

/// How many findings have severity `k`.
pub open spec fn kind_count(fs: Seq<ReportView>, k: Kind) -> nat
    decreases fs.len(),
{
    if fs.len() == 0 {
        0
    } else {
        kind_count(fs.drop_last(), k) + if fs.last().kind == k {
            1nat
        } else {
            0nat
        }
    }
}

/// The count of each severity that has findings, the most urgent first.
pub open spec fn totals_of(fs: Seq<ReportView>, kinds: Seq<Kind>) -> Seq<(Kind, nat)>
    decreases kinds.len(),
{
    if kinds.len() == 0 {
        Seq::empty()
    } else {
        let k = kinds.last();
        totals_of(fs, kinds.drop_last()) + if kind_count(fs, k) > 0 {
            seq![(k, kind_count(fs, k))]
        } else {
            Seq::empty()
        }
    }
}

/// Every severity, the most urgent first.
pub open spec fn all_kinds() -> Seq<Kind> {
    seq![Kind::Critical, Kind::Error, Kind::AutoAction, Kind::DevAction, Kind::Blocked, Kind::ToDo]
}

/// The counts as plain numbers.
pub open spec fn totals_view(v: Seq<(Kind, usize)>) -> Seq<(Kind, nat)> {
    v.map_values(|p: (Kind, usize)| (p.0, p.1 as nat))
}

/// The printed lines of one finding.
pub fn render_report(opts: &Analyze, report: &Report) -> (r: Vec<String>)
    ensures
        views(r@) == render_lines(*opts, report@),
{
    let mut head = report.kind.name();
    head.append(": [");
    head.append(report.for_team.as_str());
    head.append("] ");
    head.append(report.message.as_str());
    let mut r: Vec<String> = Vec::new();
    r.push(head);
    if opts.auto_actionable_command && !report.action.as_str().is_empty() {
        let mut line = String::from_str("   ");
        line.append(report.action.as_str());
        r.push(line);
    }
    assert(views(r@) =~= render_lines(*opts, report@));
    r
}

/// How many findings have severity `k`.
pub fn count_kind(fs: &Vec<Report>, k: Kind) -> (r: usize)
    ensures
        r == kind_count(report_views(fs@), k),
{
    let mut n: usize = 0;
    let mut i: usize = 0;
    while i < fs.len()
        invariant
            i <= fs@.len(),
            n <= i,
            n == kind_count(report_views(fs@).take(i as int), k),
        decreases fs@.len() - i,
    {
        assert(report_views(fs@).take(i + 1).drop_last() =~= report_views(fs@).take(i as int));
        if fs[i].kind == k {
            n = n + 1;
        }
        i = i + 1;
    }
    assert(report_views(fs@).take(fs@.len() as int) =~= report_views(fs@));
    n
}

/// The count of each severity that has findings, the most urgent first.
pub fn totals(fs: &Vec<Report>) -> (r: Vec<(Kind, usize)>)
    ensures
        totals_view(r@) == totals_of(report_views(fs@), all_kinds()),
{
    let kinds = Kind::all();
    assert(kinds@ =~= all_kinds()) by {
        assert(kind_rank(kinds@[0]) == 0 && kind_rank(kinds@[1]) == 1 && kind_rank(kinds@[2]) == 2);
        assert(kind_rank(kinds@[3]) == 3 && kind_rank(kinds@[4]) == 4 && kind_rank(kinds@[5]) == 5);
    }
    let mut r: Vec<(Kind, usize)> = Vec::new();
    let mut i: usize = 0;
    while i < kinds.len()
        invariant
            i <= kinds@.len(),
            kinds@ == all_kinds(),
            totals_view(r@) == totals_of(report_views(fs@), all_kinds().take(i as int)),
        decreases kinds@.len() - i,
    {
        assert(all_kinds().take(i + 1).drop_last() =~= all_kinds().take(i as int));
        let k = kinds[i];
        let n = count_kind(fs, k);
        let ghost before = r@;
        if n > 0 {
            r.push((k, n));
        }
        assert(totals_view(r@) =~= totals_of(report_views(fs@), all_kinds().take(i + 1)));
        i = i + 1;
    }
    assert(all_kinds().take(6) =~= all_kinds());
    r
}

/// Why the analysis did not run.
pub enum AnalyzeError {
    /// The module filter names no module.
    NoSuchModule(String),
    /// The class filter names no class.
    NoSuchClass(String),
    /// The graph names something it does not hold, or repeats a module name.
    Graph(GraphError),
}

/// The outcome of an analysis.
pub struct Analysis {
    /// The graph the findings are about.
    pub graph: ClassGraph,
    /// The findings shown, by severity, then message.
    pub findings: Vec<Report>,
    /// The lines printed for the findings shown.
    pub lines: Vec<String>,
    /// The count of each severity among the findings shown, for severities that have some.
    pub totals: Vec<(Kind, usize)>,
}

/// The module filter, if set, names a module.
pub open spec fn module_filter_known(o: Analyze, ms: Seq<JavaModule>) -> bool {
    match o.module_filter {
        Some(f) => has_module(ms, f@),
        None => true,
    }
}

/// The class filter, if set, names a class that some module lists.
pub open spec fn class_filter_known(o: Analyze, ms: Seq<JavaModule>) -> bool {
    match o.class_filter {
        Some(f) => class_listed(ms, f@),
        None => true,
    }
}

/// Each finding of `fs` is the finding of `all` at position `p[k]`, no position is used
/// twice, and findings that compare equal keep the order they have in `all`.
pub open spec fn drawn_in_order(all: Seq<ReportView>, fs: Seq<ReportView>, p: Seq<int>) -> bool {
    &&& p.len() == fs.len()
    &&& forall|k: int| 0 <= k < p.len() ==> 0 <= #[trigger] p[k] < all.len() && fs[k] == all[p[k]]
    &&& forall|a: int, b: int| 0 <= a < b < p.len() ==> #[trigger] p[a] != #[trigger] p[b]
    &&& forall|a: int, b: int| 0 <= a < b < p.len() && #[trigger] report_le(fs[b], fs[a]) ==> p[a] < p[b]
}

/// What a successful analysis holds: the graph of the modules, and, of all its findings,
/// exactly those shown, sorted, with their printed lines and counts.
pub open spec fn analysis_of(o: Analyze, ms: Seq<JavaModule>, a: Analysis) -> bool {
    let all = all_findings(a.graph);
    let closure = least_closure(o, all);
    let fs = report_views(a.findings@);
    &&& a.graph.modules@ == ms
    &&& a.graph.wf()
    &&& sorted_reports(fs)
    &&& exists|p: Seq<int>| drawn_in_order(all, fs, p)
    &&& forall|x: ReportView|
        #[trigger] fs.to_multiset().count(x) == if shown(o, closure, x) {
            all.to_multiset().count(x)
        } else {
            0
        }
    &&& views(a.lines@) == rendered(o, fs)
    &&& totals_view(a.totals@) == totals_of(fs, all_kinds())
}

/// Analyses the modules: builds the graph, runs every check, keeps the findings that the
/// filters select together with those about classes that block them, and sorts and renders
/// them. Fails when a filter names nothing, or when the graph does not resolve.
#[verifier::rlimit(40)]
pub fn analyze(opts: &Analyze, modules: Vec<JavaModule>) -> (r: Result<Analysis, AnalyzeError>)
    ensures
        !module_filter_known(*opts, modules@) ==> (r matches Err(AnalyzeError::NoSuchModule(n)) && opts.module_filter == Some(n)),
        module_filter_known(*opts, modules@) && !class_filter_known(*opts, modules@) ==> (r matches Err(AnalyzeError::NoSuchClass(n)) && opts.class_filter == Some(n)),
        module_filter_known(*opts, modules@) && class_filter_known(*opts, modules@) && !resolves(modules@) ==> (r matches Err(AnalyzeError::Graph(_))),
        r is Ok <==> module_filter_known(*opts, modules@) && class_filter_known(*opts, modules@) && resolves(modules@),
        r matches Ok(a) ==> analysis_of(*opts, modules@, a),
{
    let ghost ms = modules@;
    match &opts.module_filter {
        Some(f) => match find_module_index(&modules, f) {
            None => {
                return Err(AnalyzeError::NoSuchModule(f.clone()));
            },
            Some(i) => {},
        },
        None => {},
    }
    let graph = build_graph(modules);
    proof {
        lemma_resolves(ms, graph.os());
    }
    match &opts.class_filter {
        Some(f) => match find_class(&graph.modules, &graph.class_modules, f) {
            None => {
                proof {
                    lemma_owner_iff_listed(ms, graph.os(), f@);
                }
                return Err(AnalyzeError::NoSuchClass(f.clone()));
            },
            Some(k) => {
                proof {
                    lemma_owner_iff_listed(ms, graph.os(), f@);
                }
            },
        },
        None => {},
    }
    match validate(&graph) {
        Err(e) => {
            return Err(AnalyzeError::Graph(e));
        },
        Ok(()) => {},
    }
    let all = collect_findings(&graph);
    let ghost av = report_views(all@);
    let (closure, _rounds) = indirect_closure(opts, &all);
    let ghost cl = name_set(closure@);
    let mut sorted = sort_reports(all);
    let ghost sv = report_views(sorted@);
    let ghost sort_order = choose|p: Seq<int>| stable_rearrangement(av, sv, p);
    let ghost mut q: Seq<int> = Seq::empty();
    let mut findings: Vec<Report> = Vec::new();
    let mut lines: Vec<String> = Vec::new();
    let ghost fr = |r: ReportView| render_lines(*opts, r);
    let mut i: usize = 0;
    broadcast use vstd::seq_lib::group_to_multiset_ensures;
    broadcast use vstd::multiset::group_multiset_axioms;
    assert(report_views(findings@) =~= Seq::<ReportView>::empty());
    assert(sv.take(0) =~= Seq::<ReportView>::empty());
    assert(sv.skip(0) =~= sv);
    let total = sorted.len();
    assert(sv.len() <= usize::MAX);
    while sorted.len() > 0
        invariant
            cl == name_set(closure@),
            sv.len() <= usize::MAX,
            sv.len() == i + sorted@.len(),
            report_views(sorted@) == sv.skip(i as int),
            sorted_reports(report_views(findings@)),
            sorted_reports(sv),
            forall|a: int, b: int|
                0 <= a < findings@.len() && i <= b < sv.len() ==> #[trigger] report_le(report_views(findings@)[a], sv[b]),
            forall|x: ReportView|
                #[trigger] report_views(findings@).to_multiset().count(x) == if shown(*opts, cl, x) {
                    sv.take(i as int).to_multiset().count(x)
                } else {
                    0
                },
            fr == (|r: ReportView| render_lines(*opts, r)),
            views(lines@) == concat_names(report_views(findings@), fr),
            q.len() == findings@.len(),
            forall|k: int| 0 <= k < q.len() ==> 0 <= #[trigger] q[k] < i && report_views(findings@)[k] == sv[q[k]],
            forall|a: int, b: int| 0 <= a < b < q.len() ==> #[trigger] q[a] < #[trigger] q[b],
        decreases sorted@.len(),
    {
        let ghost fv = report_views(findings@);
        let ghost before = sorted@;
        let report = sorted.remove(0);
        let ghost x = report@;
        assert(report_views(before)[0] == before[0]@);
        assert(sv.skip(i as int)[0] == sv[i as int]);
        assert(x == sv[i as int]);
        assert(report_views(sorted@) =~= report_views(before).skip(1));
        assert(report_views(sorted@) =~= sv.skip(i + 1));
        assert(sv.take(i + 1) =~= sv.take(i as int).push(x));
        let keep = (filter_report(opts, &report) || contains_name(&closure, &report.for_class))
            && filter_by_auto_actionable(opts, &report) && filter_by_team(opts, &report);
        if keep {
            let rl = render_report(opts, &report);
            let ghost lv = views(lines@);
            let mut rl = rl;
            let ghost rlv = views(rl@);
            lines.append(&mut rl);
            assert(views(lines@) =~= lv + rlv);
            findings.push(report);
            proof {
                q = q.push(i as int);
            }
            assert(report_views(findings@) =~= fv.push(x));
            assert(report_views(findings@).drop_last() =~= fv);
            assert(views(lines@) == concat_names(report_views(findings@), fr));
        }
        proof {
            sv.take(i as int).to_multiset_ensures();
            fv.to_multiset_ensures();
            assert(keep == shown(*opts, cl, x));
            assert forall|y: ReportView|
                #[trigger] report_views(findings@).to_multiset().count(y) == if shown(*opts, cl, y) {
                    sv.take(i + 1).to_multiset().count(y)
                } else {
                    0
                } by {
                assert(sv.take(i + 1).to_multiset() == sv.take(i as int).to_multiset().insert(x));
                if keep {
                    assert(report_views(findings@).to_multiset() == fv.to_multiset().insert(x));
                } else {
                    assert(report_views(findings@) == fv);
                }
                assert(fv.to_multiset().count(y) == if shown(*opts, cl, y) {
                    sv.take(i as int).to_multiset().count(y)
                } else {
                    0
                });
            }
            assert forall|k: int| 0 <= k < q.len() implies 0 <= #[trigger] q[k] < i + 1 && report_views(findings@)[k] == sv[q[k]] by {
                if k < fv.len() {
                    assert(report_views(findings@)[k] == fv[k]);
                }
            }
            assert forall|a: int, b: int|
                0 <= a < findings@.len() && i + 1 <= b < sv.len() implies #[trigger] report_le(report_views(findings@)[a], sv[b]) by {
                if a < fv.len() {
                    assert(report_views(findings@)[a] == fv[a]);
                } else {
                    assert(report_le(sv[i as int], sv[b]));
                }
            }
            assert forall|a: int, b: int| 0 <= a < b < report_views(findings@).len() implies #[trigger] report_le(
                report_views(findings@)[a],
                report_views(findings@)[b],
            ) by {
                if b >= fv.len() {
                    assert(report_views(findings@)[a] == fv[a]);
                    assert(report_le(fv[a], sv[i as int]));
                } else {
                    assert(report_views(findings@)[a] == fv[a]);
                    assert(report_views(findings@)[b] == fv[b]);
                }
            }
        }
        i = i + 1;
    }
    proof {
        assert(sv.take(i as int) =~= sv);
        let fs = report_views(findings@);
        let p = Seq::new(q.len(), |k: int| sort_order[q[k]]);
        assert forall|k: int| 0 <= k < p.len() implies 0 <= #[trigger] p[k] < av.len() && fs[k] == av[p[k]] by {
            assert(0 <= q[k] < sv.len());
        }
        assert forall|a: int, b: int| 0 <= a < b < p.len() implies #[trigger] p[a] != #[trigger] p[b] by {
            assert(q[a] < q[b]);
            assert(0 <= q[b] < sv.len());
            assert(sort_order[q[a]] != sort_order[q[b]]);
        }
        assert forall|a: int, b: int| 0 <= a < b < p.len() && #[trigger] report_le(fs[b], fs[a]) implies p[a] < p[b] by {
            assert(q[a] < q[b]);
            assert(0 <= q[b] < sv.len());
            assert(report_le(sv[q[b]], sv[q[a]]));
        }
        assert(drawn_in_order(av, fs, p));
        assert(exists|p: Seq<int>| drawn_in_order(av, fs, p));
    }
    let totals = totals(&findings);
    let result = Analysis { graph, findings, lines, totals };
    proof {
        let all = all_findings(result.graph);
        let fs = report_views(result.findings@);
        assert(result.graph.modules@ == ms);
        assert(result.graph.wf());
        assert(sorted_reports(fs));
        assert(all == av);
        assert(exists|p: Seq<int>| drawn_in_order(all, fs, p));
        assert(views(result.lines@) == rendered(*opts, fs));
        assert(totals_view(result.totals@) == totals_of(fs, all_kinds()));
        assert(least_closure(*opts, all) == cl);
    }
    assert(analysis_of(*opts, ms, result));
    Ok(result)
}

} // verus!
