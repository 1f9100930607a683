use aeriform::analyze::{
    filter_by_auto_actionable, filter_by_class, filter_by_module, filter_by_root, filter_by_team,
    filter_report, is_with_root, Analyze,
};
use aeriform::checks::{
    check_already_in_target, check_for_deprecated_module, check_for_extra_break, check_for_team,
    target_module_needed,
};
use aeriform::model::{JavaClass, JavaClassTraits, JavaModule, Kind, Report};

fn class(name: &str, location: &str) -> JavaClass {
    JavaClass {
        name: name.to_string(),
        location: location.to_string(),
        package: None,
        dependencies: Vec::new(),
        team: None,
        target_module: None,
        break_dependencies_on: Vec::new(),
    }
}

fn module(name: &str, deprecated: bool) -> JavaModule {
    JavaModule {
        name: name.to_string(),
        deprecated,
        index: 10,
        directory: name.to_string(),
        jar: String::new(),
        srcs: Vec::new(),
        dependencies: Vec::new(),
    }
}

fn opts() -> Analyze {
    Analyze {
        class_filter: None,
        module_filter: None,
        root_filter: None,
        team_filter: None,
        only_team_filter: false,
        auto_actionable_filter: false,
        auto_actionable_command: false,
    }
}

fn report(for_class: &str, team: &str, action: &str, modules: &[&str]) -> Report {
    Report {
        kind: Kind::ToDo,
        message: "m".to_string(),
        action: action.to_string(),
        for_class: for_class.to_string(),
        for_team: team.to_string(),
        indirect_classes: Vec::new(),
        for_modules: modules.iter().map(|m| m.to_string()).collect(),
    }
}

#[test]
fn relative_and_directory_location() {
    let c = class("a.B", "100-core/src/main/java/a/B.java");
    assert_eq!(c.relative_location(), Some("src/main/java/a/B.java".to_string()));
    assert_eq!(c.directory_location(), Some("100-core/src/main/java/a".to_string()));
    let external = class("a.C", "n/a");
    assert_eq!(external.relative_location(), Some("a".to_string()));
    assert_eq!(external.directory_location(), Some("n".to_string()));
    let bare = class("a.D", "D.java");
    assert_eq!(bare.relative_location(), None);
    assert_eq!(bare.directory_location(), None);
}

#[test]
fn team_or_unknown_marker() {
    let mut c = class("a.B", "x/B.java");
    assert_eq!(c.team(), "UNK");
    c.team = Some("PL".to_string());
    assert_eq!(c.team(), "PL");
}

#[test]
fn missing_team_is_a_todo() {
    let c = class("a.B", "x/B.java");
    let reports = check_for_team(&c, &module("M", false));
    assert_eq!(reports.len(), 1);
    assert_eq!(reports[0].kind, Kind::ToDo);
    assert_eq!(reports[0].message, "a.B is missing team");
    assert_eq!(reports[0].for_team, "UNK");
    assert_eq!(reports[0].for_modules, vec!["M".to_string()]);
    let mut c = c;
    c.team = Some("PL".to_string());
    assert!(check_for_team(&c, &module("M", false)).is_empty());
}

#[test]
fn deprecated_module_without_target() {
    let mut c = class("a.B", "x/B.java");
    let reports = check_for_deprecated_module(&c, &module("M", true));
    assert_eq!(reports.len(), 1);
    assert_eq!(reports[0].message, "a.B is in deprecated module M and has no target module");
    assert!(check_for_deprecated_module(&c, &module("M", false)).is_empty());
    c.target_module = Some("N".to_string());
    assert!(check_for_deprecated_module(&c, &module("M", true)).is_empty());
}

#[test]
fn target_is_current_module() {
    let mut c = class("a.B", "x/B.java");
    c.target_module = Some("M".to_string());
    let reports = check_already_in_target(&c, &module("M", false));
    assert_eq!(reports.len(), 1);
    assert_eq!(reports[0].kind, Kind::AutoAction);
    assert_eq!(reports[0].message, "a.B target module is where it already is - remove the annotation");
    assert_eq!(reports[0].action, "");
    assert!(check_already_in_target(&c, &module("N", false)).is_empty());
}

#[test]
fn declared_break_without_dependency() {
    let mut c = class("a.B", "x/B.java");
    c.break_dependencies_on = vec!["pkg.Foo".to_string()];
    c.target_module = Some("T".to_string());
    let reports = check_for_extra_break(&c, &module("M", false));
    assert_eq!(reports.len(), 1);
    assert_eq!(reports[0].kind, Kind::Critical);
    assert_eq!(reports[0].message, "a.B has no dependency on pkg.Foo");
    let mut modules = reports[0].for_modules.clone();
    modules.sort();
    assert_eq!(modules, vec!["M".to_string(), "T".to_string()]);
    c.dependencies.push("pkg.Foo".to_string());
    assert!(check_for_extra_break(&c, &module("M", false)).is_empty());
}

#[test]
fn target_module_needed_names_the_target() {
    let mut c = class("a.B", "x/B.java");
    c.target_module = Some("//999-new:module".to_string());
    let r = target_module_needed(&c);
    assert_eq!(r.kind, Kind::DevAction);
    assert_eq!(r.message, "Target module //999-new:module needs to be created.");
    assert!(r.for_modules.is_empty());
}

#[test]
fn class_filter_is_a_substring_match() {
    let mut o = opts();
    o.class_filter = Some("Serv".to_string());
    assert!(filter_by_class(&o, &report("io.harness.Service", "T", "", &[])));
    assert!(!filter_by_class(&o, &report("io.harness.Other", "T", "", &[])));
}

#[test]
fn module_filter_is_exact() {
    let mut o = opts();
    o.module_filter = Some("//100-core:module".to_string());
    assert!(filter_by_module(&o, &report("", "", "", &["//100-core:module"])));
    assert!(!filter_by_module(&o, &report("", "", "", &["//100-core:tests"])));
}

#[test]
fn root_filter_needs_separator() {
    let mut o = opts();
    o.root_filter = Some("//100-core".to_string());
    assert!(is_with_root(&o, &"//100-core:module".to_string()));
    assert!(!is_with_root(&o, &"//100-core-extra:module".to_string()));
    assert!(!is_with_root(&o, &"//100-core".to_string()));
    assert!(filter_by_root(&o, &report("", "", "", &["//200-x:module", "//100-core:tests"])));
    assert!(!filter_by_root(&o, &report("", "", "", &["//200-x:module"])));
    assert!(filter_report(&o, &report("", "", "", &["//100-core:tests"])));
}

#[test]
fn team_filter_keeps_unknown_unless_only() {
    let mut o = opts();
    o.team_filter = Some("PL".to_string());
    assert!(filter_by_team(&o, &report("", "PL", "", &[])));
    assert!(filter_by_team(&o, &report("", "UNK", "", &[])));
    assert!(!filter_by_team(&o, &report("", "CDP", "", &[])));
    o.only_team_filter = true;
    assert!(!filter_by_team(&o, &report("", "UNK", "", &[])));
}

#[test]
fn actionable_filter_needs_a_command() {
    let mut o = opts();
    assert!(filter_by_auto_actionable(&o, &report("", "", "", &[])));
    o.auto_actionable_filter = true;
    assert!(!filter_by_auto_actionable(&o, &report("", "", "", &[])));
    assert!(filter_by_auto_actionable(&o, &report("", "", "execute x", &[])));
}
