use aeriform::analyze::{analyze, indirect_closure, sort_reports, Analyze, AnalyzeError};
use aeriform::checks::check_for_reversed_dependency;
use aeriform::eligibility::{check_for_demotion, check_for_promotion};
use aeriform::graph::{build_graph, validate, GraphError};
use aeriform::model::{JavaClass, JavaModule, Kind, Report};

fn class(name: &str, location: &str, deps: &[&str], target: Option<&str>, team: Option<&str>) -> JavaClass {
    JavaClass {
        name: name.to_string(),
        location: location.to_string(),
        package: None,
        dependencies: deps.iter().map(|d| d.to_string()).collect(),
        team: team.map(|t| t.to_string()),
        target_module: target.map(|t| t.to_string()),
        break_dependencies_on: Vec::new(),
    }
}

fn module(name: &str, index: u64, deps: &[&str], srcs: Vec<JavaClass>) -> JavaModule {
    JavaModule {
        name: name.to_string(),
        deprecated: false,
        index,
        directory: name.to_string(),
        jar: String::new(),
        srcs,
        dependencies: deps.iter().map(|d| d.to_string()).collect(),
    }
}

fn no_filters() -> Analyze {
    Analyze {
        class_filter: None,
        module_filter: None,
        root_filter: None,
        team_filter: None,
        only_team_filter: false,
        auto_actionable_filter: false,
        auto_actionable_command: false,
    }
}

fn with_message<'a>(reports: &'a [Report], message: &str) -> Vec<&'a Report> {
    reports.iter().filter(|r| r.message == message).collect()
}

fn sorted_strings(v: &[String]) -> Vec<String> {
    let mut v = v.to_vec();
    v.sort();
    v
}

#[test]
fn end_to_end_ready_to_move() {
    let a = class("A", "M1/src/main/java/A.java", &[], Some("M0"), Some("TEAM"));
    let modules = vec![module("M0", 0, &[], vec![]), module("M1", 1, &["M0"], vec![a])];
    let result = analyze(&no_filters(), modules).ok().expect("analysis runs");
    let ready = with_message(&result.findings, "A is ready to go to M0");
    assert_eq!(ready.len(), 1);
    assert_eq!(ready[0].kind, Kind::AutoAction);
    assert_eq!(
        ready[0].action,
        "execute move-class --from-module=\"M1\" --from-location=\"src/main/java/A.java\" --to-module=\"M0\""
    );
    // M1 depends on M0, whose index is lower: that dependency is reported as well.
    assert_eq!(result.findings.len(), 2);
    assert_eq!(
        result.lines,
        vec![
            "Critical: [UNK] Module M1 depends on module M0 that is not lower".to_string(),
            "AutoAction: [TEAM] A is ready to go to M0".to_string(),
        ]
    );
    assert_eq!(result.totals, vec![(Kind::Critical, 1), (Kind::AutoAction, 1)]);
}

#[test]
fn end_to_end_action_lines_shown_on_request() {
    let a = class("A", "M1/src/main/java/A.java", &[], Some("M0"), Some("TEAM"));
    let modules = vec![module("M0", 0, &[], vec![]), module("M1", 1, &["M0"], vec![a])];
    let mut opts = no_filters();
    opts.auto_actionable_command = true;
    let result = analyze(&opts, modules).ok().expect("analysis runs");
    assert_eq!(result.lines.len(), 3);
    assert_eq!(
        result.lines[2],
        "   execute move-class --from-module=\"M1\" --from-location=\"src/main/java/A.java\" --to-module=\"M0\""
    );
}

#[test]
fn blocked_until_dependency_moves_first() {
    // A sits in the lower layer M1 and targets M0 above it, which depends on M1; its
    // dependency B still sits in M1.
    let a = class("A", "M1/src/main/java/A.java", &["B"], Some("M0"), Some("TEAM"));
    let b = class("B", "M1/src/main/java/B.java", &[], None, Some("TEAM"));
    let modules = vec![module("M1", 0, &[], vec![a, b]), module("M0", 1, &["M1"], vec![])];
    let graph = build_graph(modules);
    assert!(validate(&graph).is_ok());
    let a = &graph.modules[0].srcs[0];
    let reports = check_for_promotion(a, &graph.modules[0], &graph);
    assert_eq!(reports.len(), 1);
    assert_eq!(reports[0].kind, Kind::Blocked);
    assert_eq!(reports[0].message, "A does not have untargeted dependencies to go to M0. First move B to M0");
    assert_eq!(sorted_strings(&reports[0].indirect_classes), vec!["A".to_string(), "B".to_string()]);
}

#[test]
fn conflicting_dependency_is_an_error() {
    // A targets M0, but M0 does not depend on M2, where A's dependency B lives.
    let a = class("A", "M1/src/main/java/A.java", &["B"], Some("M0"), Some("TEAM"));
    let b = class("B", "M2/src/main/java/B.java", &[], None, Some("TEAM"));
    let modules = vec![module("M1", 0, &[], vec![a]), module("M0", 10, &[], vec![]), module("M2", 20, &[], vec![b])];
    let graph = build_graph(modules);
    let a = &graph.modules[0].srcs[0];
    let reports = check_for_promotion(a, &graph.modules[0], &graph);
    assert_eq!(reports.len(), 1);
    assert_eq!(reports[0].kind, Kind::Error);
    assert_eq!(reports[0].message, "A depends on B that is in module M2 but M0 does not depend on it");
    assert_eq!(reports[0].indirect_classes, vec!["B".to_string()]);
}

#[test]
fn declared_break_turns_conflict_into_dev_action() {
    let mut a = class("A", "M1/src/main/java/A.java", &["B"], Some("M0"), Some("TEAM"));
    a.break_dependencies_on.push("B".to_string());
    let b = class("B", "M2/src/main/java/B.java", &[], None, Some("TEAM"));
    let modules = vec![module("M1", 0, &[], vec![a]), module("M0", 10, &[], vec![]), module("M2", 20, &[], vec![b])];
    let graph = build_graph(modules);
    let a = &graph.modules[0].srcs[0];
    let reports = check_for_promotion(a, &graph.modules[0], &graph);
    assert_eq!(reports.len(), 1);
    assert_eq!(reports[0].kind, Kind::DevAction);
    assert_eq!(reports[0].message, "A depends on B and this dependency has to be broken");
}

#[test]
fn promotion_readiness_is_repeatable() {
    let a = class("A", "M1/src/main/java/A.java", &["B"], Some("M0"), Some("TEAM"));
    let b = class("B", "M0/src/main/java/B.java", &[], None, Some("TEAM"));
    let modules = vec![module("M1", 0, &[], vec![a]), module("M0", 10, &[], vec![b])];
    let graph = build_graph(modules);
    let a = &graph.modules[0].srcs[0];
    let first = check_for_promotion(a, &graph.modules[0], &graph);
    let second = check_for_promotion(a, &graph.modules[0], &graph);
    assert_eq!(first.len(), 1);
    assert_eq!(second.len(), 1);
    assert_eq!(first[0].kind, Kind::AutoAction);
    assert_eq!(first[0].message, second[0].message);
    assert_eq!(first[0].action, second[0].action);
    assert_eq!(
        first[0].action,
        "execute move-class --from-module=\"M1\" --from-location=\"src/main/java/A.java\" --to-module=\"M0\""
    );
}

#[test]
fn location_outside_module_gives_dev_action() {
    let a = class("A", "A.java", &[], Some("M0"), Some("TEAM"));
    let modules = vec![module("M1", 0, &[], vec![a]), module("M0", 10, &[], vec![])];
    let graph = build_graph(modules);
    let a = &graph.modules[0].srcs[0];
    let reports = check_for_promotion(a, &graph.modules[0], &graph);
    assert_eq!(reports.len(), 1);
    assert_eq!(reports[0].kind, Kind::DevAction);
    assert_eq!(reports[0].message, "A is ready to go to M0");
    assert_eq!(reports[0].action, "");
}

#[test]
fn missing_target_module_needs_creation() {
    let a = class("A", "M1/src/main/java/A.java", &[], Some("M9"), Some("TEAM"));
    let modules = vec![module("M1", 0, &[], vec![a])];
    let graph = build_graph(modules);
    let a = &graph.modules[0].srcs[0];
    let reports = check_for_promotion(a, &graph.modules[0], &graph);
    assert_eq!(reports.len(), 1);
    assert_eq!(reports[0].kind, Kind::DevAction);
    assert_eq!(reports[0].message, "Target module M9 needs to be created.");
}

#[test]
fn demotion_blocked_by_dependee_above_target() {
    // A in M2 moves down to M0; C in M2 depends on A and has not moved.
    let a = class("A", "M2/src/main/java/A.java", &[], Some("M0"), Some("TEAM"));
    let c = class("C", "M2/src/main/java/C.java", &["A"], None, Some("TEAM"));
    let modules = vec![module("M0", 0, &[], vec![]), module("M2", 20, &["M0"], vec![a, c])];
    let graph = build_graph(modules);
    let a = &graph.modules[1].srcs[0];
    let dependees = vec!["C".to_string()];
    let reports = check_for_demotion(a, Some(&dependees), &graph.modules[1], &graph);
    assert_eq!(reports.len(), 1);
    assert_eq!(reports[0].kind, Kind::Blocked);
    assert_eq!(reports[0].message, "A does not have dependees to go to M0. First move C to M2");
    assert_eq!(sorted_strings(&reports[0].indirect_classes), vec!["A".to_string(), "C".to_string()]);
}

#[test]
fn demotion_conflict_with_dependee_module() {
    // C lives in M3, which does not depend on M0.
    let a = class("A", "M2/src/main/java/A.java", &[], Some("M0"), Some("TEAM"));
    let c = class("C", "M3/src/main/java/C.java", &["A"], None, Some("TEAM"));
    let modules = vec![module("M0", 0, &[], vec![]), module("M2", 20, &[], vec![a]), module("M3", 30, &[], vec![c])];
    let graph = build_graph(modules);
    let a = &graph.modules[1].srcs[0];
    let dependees = vec!["C".to_string()];
    let reports = check_for_demotion(a, Some(&dependees), &graph.modules[1], &graph);
    let errors = with_message(&reports, "A has dependee C that is in module M3 but M0 is not a dependee of it");
    assert_eq!(errors.len(), 1);
    assert_eq!(errors[0].kind, Kind::Error);
    // The conflict takes precedence: no blocked finding, although C also sits above M0.
    assert_eq!(reports.len(), 1);
}

#[test]
fn owner_is_module_of_highest_index() {
    let c1 = class("C", "M1/src/main/java/C.java", &[], None, Some("TEAM"));
    let c2 = class("C", "M2/src/main/java/C.java", &[], None, Some("TEAM"));
    let modules = vec![module("M1", 10, &[], vec![c1]), module("M2", 20, &[], vec![c2])];
    let graph = build_graph(modules);
    assert_eq!(graph.class_modules.len(), 1);
    assert_eq!(graph.class_modules[0].module, 1);
    let result = analyze(&no_filters(), vec![
        module("M2", 20, &[], vec![class("C", "M2/src/main/java/C.java", &[], None, Some("TEAM"))]),
        module("M1", 10, &[], vec![class("C", "M1/src/main/java/C.java", &[], None, Some("TEAM"))]),
    ])
    .ok()
    .expect("analysis runs");
    let dup = with_message(&result.findings, "C appears in M1 and M2");
    assert_eq!(dup.len(), 1);
    assert_eq!(dup[0].kind, Kind::Critical);
    assert_eq!(sorted_strings(&dup[0].for_modules), vec!["M1".to_string(), "M2".to_string()]);
}

#[test]
fn class_without_source_file_is_not_a_duplicate() {
    let modules = vec![
        module("M1", 10, &[], vec![class("C", "n/a", &[], None, Some("TEAM"))]),
        module("M2", 20, &[], vec![class("C", "M2/src/main/java/C.java", &[], None, Some("TEAM"))]),
    ];
    let result = analyze(&no_filters(), modules).ok().expect("analysis runs");
    assert_eq!(result.findings.len(), 0);
}

#[test]
fn reversed_dependency_only_when_not_lower() {
    let modules = vec![module("A", 10, &["B"], vec![]), module("B", 10, &[], vec![]), module("C", 5, &["A"], vec![])];
    let reports = check_for_reversed_dependency(&modules[0], &modules);
    assert_eq!(reports.len(), 1);
    assert_eq!(reports[0].kind, Kind::Critical);
    assert_eq!(reports[0].message, "Module A depends on module B that is not lower");
    assert_eq!(reports[0].for_class, "");
    assert_eq!(reports[0].for_team, "UNK");
    let reports = check_for_reversed_dependency(&modules[2], &modules);
    assert_eq!(reports.len(), 0);
}

#[test]
fn unknown_module_filter_is_refused() {
    let mut opts = no_filters();
    opts.module_filter = Some("M9".to_string());
    match analyze(&opts, vec![module("M0", 0, &[], vec![])]) {
        Err(AnalyzeError::NoSuchModule(n)) => assert_eq!(n, "M9"),
        _ => panic!("expected an unknown module"),
    }
}

#[test]
fn unknown_class_filter_is_refused() {
    let mut opts = no_filters();
    opts.class_filter = Some("Z".to_string());
    match analyze(&opts, vec![module("M0", 0, &[], vec![class("A", "M0/A.java", &[], None, Some("T"))])]) {
        Err(AnalyzeError::NoSuchClass(n)) => assert_eq!(n, "Z"),
        _ => panic!("expected an unknown class"),
    }
}

#[test]
fn unresolved_dependency_is_fatal() {
    let modules = vec![module("M0", 0, &[], vec![class("A", "M0/A.java", &["Ghost"], None, Some("T"))])];
    match analyze(&no_filters(), modules) {
        Err(AnalyzeError::Graph(GraphError::UnknownClass(n))) => assert_eq!(n, "Ghost"),
        _ => panic!("expected an unknown class"),
    }
}

#[test]
fn unresolved_module_dependency_is_fatal() {
    let modules = vec![module("M0", 0, &["M7"], vec![])];
    match analyze(&no_filters(), modules) {
        Err(AnalyzeError::Graph(GraphError::UnknownModule(n))) => assert_eq!(n, "M7"),
        _ => panic!("expected an unknown module"),
    }
}

#[test]
fn repeated_module_name_is_fatal() {
    let modules = vec![module("M0", 0, &[], vec![]), module("M0", 1, &[], vec![])];
    match analyze(&no_filters(), modules) {
        Err(AnalyzeError::Graph(GraphError::DuplicateModule(n))) => assert_eq!(n, "M0"),
        _ => panic!("expected a repeated module"),
    }
}

#[test]
fn closure_brings_in_blocking_classes() {
    // Filtering on class A also shows the finding about its blocker B.
    let a = class("A", "M1/src/main/java/A.java", &["B"], Some("M0"), Some("TEAM"));
    let b = class("B", "M1/src/main/java/B.java", &[], None, None);
    let modules = vec![module("M1", 0, &[], vec![a, b]), module("M0", 1, &["M1"], vec![])];
    let mut opts = no_filters();
    opts.class_filter = Some("A".to_string());
    let result = analyze(&opts, modules).ok().expect("analysis runs");
    let messages: Vec<&str> = result.findings.iter().map(|r| r.message.as_str()).collect();
    assert_eq!(
        messages,
        vec!["A does not have untargeted dependencies to go to M0. First move B to M0", "B is missing team"]
    );
    assert_eq!(result.totals, vec![(Kind::Blocked, 1), (Kind::ToDo, 1)]);
}

#[test]
fn closure_of_no_matching_finding_is_empty() {
    let reports = vec![Report {
        kind: Kind::Blocked,
        message: "m".to_string(),
        action: String::new(),
        for_class: "A".to_string(),
        for_team: "T".to_string(),
        indirect_classes: vec!["B".to_string()],
        for_modules: vec!["M".to_string()],
    }];
    let mut opts = no_filters();
    opts.module_filter = Some("Other".to_string());
    let (closure, rounds) = indirect_closure(&opts, &reports);
    assert!(closure.is_empty());
    assert_eq!(rounds, 0);
    opts.module_filter = Some("M".to_string());
    let (closure, rounds) = indirect_closure(&opts, &reports);
    assert_eq!(closure, vec!["B".to_string()]);
    assert_eq!(rounds, 1);
}

#[test]
fn findings_sort_by_severity_then_message() {
    let make = |kind: Kind, message: &str| Report {
        kind,
        message: message.to_string(),
        action: String::new(),
        for_class: String::new(),
        for_team: String::new(),
        indirect_classes: Vec::new(),
        for_modules: Vec::new(),
    };
    let sorted = sort_reports(vec![make(Kind::ToDo, "a"), make(Kind::Critical, "z"), make(Kind::Critical, "b"), make(Kind::Error, "c")]);
    let order: Vec<(Kind, &str)> = sorted.iter().map(|r| (r.kind, r.message.as_str())).collect();
    assert_eq!(order, vec![(Kind::Critical, "b"), (Kind::Critical, "z"), (Kind::Error, "c"), (Kind::ToDo, "a")]);
}

#[test]
fn team_and_actionable_filters_apply_after_closure() {
    let a = class("A", "M1/src/main/java/A.java", &[], Some("M0"), Some("RED"));
    let b = class("B", "M1/src/main/java/B.java", &[], None, None);
    let modules = vec![module("M0", 0, &[], vec![]), module("M1", 1, &["M0"], vec![a, b])];
    let mut opts = no_filters();
    opts.team_filter = Some("BLUE".to_string());
    let result = analyze(&opts, modules).ok().expect("analysis runs");
    let messages: Vec<&str> = result.findings.iter().map(|r| r.message.as_str()).collect();
    assert_eq!(messages, vec!["Module M1 depends on module M0 that is not lower", "B is missing team"]);
    assert_eq!(result.lines[1], "ToDo: [UNK] B is missing team".to_string());

    let a = class("A", "M1/src/main/java/A.java", &[], Some("M0"), Some("RED"));
    let b = class("B", "M1/src/main/java/B.java", &[], None, None);
    let modules = vec![module("M0", 0, &[], vec![]), module("M1", 1, &["M0"], vec![a, b])];
    let mut opts = no_filters();
    opts.team_filter = Some("RED".to_string());
    opts.only_team_filter = true;
    opts.auto_actionable_filter = true;
    let result = analyze(&opts, modules).ok().expect("analysis runs");
    let messages: Vec<&str> = result.findings.iter().map(|r| r.message.as_str()).collect();
    assert_eq!(messages, vec!["A is ready to go to M0"]);
}

#[test]
fn empty_graph_has_no_findings() {
    let result = analyze(&no_filters(), Vec::new()).ok().expect("analysis runs");
    assert!(result.findings.is_empty());
    assert!(result.lines.is_empty());
    assert!(result.totals.is_empty());
}

#[test]
fn conflict_suppresses_blocked_promotion() {
    // B both conflicts with M0 and still sits below it: only the conflict is reported.
    let a = class("A", "M1/src/main/java/A.java", &["B"], Some("M0"), Some("TEAM"));
    let b = class("B", "M1/src/main/java/B.java", &[], None, Some("TEAM"));
    let modules = vec![module("M1", 0, &[], vec![a, b]), module("M0", 10, &[], vec![])];
    let graph = build_graph(modules);
    let a = &graph.modules[0].srcs[0];
    let reports = check_for_promotion(a, &graph.modules[0], &graph);
    assert_eq!(reports.len(), 1);
    assert_eq!(reports[0].kind, Kind::Error);
}

#[test]
fn unowned_class_ready_is_dev_action() {
    // The class is not in the graph, so no module owns it.
    let modules = vec![module("M1", 0, &[], vec![]), module("M0", 10, &[], vec![])];
    let graph = build_graph(modules);
    let a = class("A", "M1/src/main/java/A.java", &[], Some("M0"), Some("TEAM"));
    let reports = check_for_promotion(&a, &graph.modules[0], &graph);
    assert_eq!(reports.len(), 1);
    assert_eq!(reports[0].kind, Kind::DevAction);
    assert_eq!(reports[0].message, "A is ready to go to M0");
    assert_eq!(reports[0].action, "");
}

#[test]
fn move_between_equal_indices_checked_both_ways() {
    let a = class("A", "M1/src/main/java/A.java", &[], Some("M2"), Some("TEAM"));
    let modules = vec![module("M1", 5, &[], vec![a]), module("M2", 5, &[], vec![])];
    let result = analyze(&no_filters(), modules).ok().expect("analysis runs");
    // At equal index both the promotion and the demotion check apply, and each finds the move ready.
    let ready = with_message(&result.findings, "A is ready to go to M2");
    assert_eq!(ready.len(), 2);
    assert!(ready.iter().all(|r| r.kind == Kind::AutoAction));
}

#[test]
fn repeated_name_is_fatal() {
    let modules = vec![module("M0", 0, &[], vec![class("A", "M0/A.java", &["B", "B"], None, Some("T")), class("B", "M0/B.java", &[], None, Some("T"))])];
    match analyze(&no_filters(), modules) {
        Err(AnalyzeError::Graph(GraphError::RepeatedName(n))) => assert_eq!(n, "B"),
        _ => panic!("expected a repeated name"),
    }
    let modules = vec![module("M0", 0, &[], vec![class("A", "M0/A.java", &[], None, Some("T")), class("A", "M0/A2.java", &[], None, Some("T"))])];
    match analyze(&no_filters(), modules) {
        Err(AnalyzeError::Graph(GraphError::RepeatedName(n))) => assert_eq!(n, "A"),
        _ => panic!("expected a repeated class"),
    }
}

#[test]
fn equal_findings_keep_their_order() {
    let make = |team: &str| Report {
        kind: Kind::DevAction,
        message: "Target module t needs to be created.".to_string(),
        action: String::new(),
        for_class: String::new(),
        for_team: team.to_string(),
        indirect_classes: Vec::new(),
        for_modules: Vec::new(),
    };
    let sorted = sort_reports(vec![make("B"), make("A"), make("C")]);
    let teams: Vec<&str> = sorted.iter().map(|r| r.for_team.as_str()).collect();
    assert_eq!(teams, vec!["B", "A", "C"]);
}

#[test]
fn demotion_at_equal_index_reports_conflict() {
    // A moves from M2 to M0 of the same index; its dependee C lives in M3, which does not depend on M0.
    let a = class("A", "M2/src/main/java/A.java", &[], Some("M0"), Some("TEAM"));
    let c = class("C", "M3/src/main/java/C.java", &["A"], None, Some("TEAM"));
    let modules = vec![module("M0", 20, &[], vec![]), module("M2", 20, &[], vec![a]), module("M3", 10, &[], vec![c])];
    let graph = build_graph(modules);
    let a = &graph.modules[1].srcs[0];
    let dependees = vec!["C".to_string()];
    let reports = check_for_demotion(a, Some(&dependees), &graph.modules[1], &graph);
    assert_eq!(reports.len(), 1);
    assert_eq!(reports[0].kind, Kind::Error);
    assert_eq!(reports[0].message, "A has dependee C that is in module M3 but M0 is not a dependee of it");
}
