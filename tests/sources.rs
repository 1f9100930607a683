use aeriform::annotations::{
    break_names_from, dependency_class, dependency_from_groups, group, internal_info, outer_class_of, source_patterns,
    target_module_from,
};
use aeriform::execute::{
    annotate_lines, apply_target_to_class, copy_class, execute, rewrite_patterns, strip_target_lines, Action, ApplyTarget,
    Execute, ExecutePlan, MoveClass,
};
use aeriform::ingest::{
    class, class_dependencies, class_for_prefix, dependency_tables, external_class, external_module, generate, index_fraction,
    is_deprecated, is_harness_class, module_index, module_rule,
};
use multimap::MultiMap;

fn lines(v: &[&str]) -> Vec<String> {
    v.iter().map(|l| l.to_string()).collect()
}

#[test]
fn class_name_from_source_path() {
    let path = "100-core/src/main/java/io/harness/Foo.java".to_string();
    assert_eq!(class_for_prefix(&path, "/src/main/java/"), Some("io.harness.Foo".to_string()));
    assert_eq!(class_for_prefix(&path, "/src/test/java/"), None);
    assert_eq!(class(&path), Some("io.harness.Foo".to_string()));
    let test_path = "100-core/src/test/java/io/harness/FooTest.java".to_string();
    assert_eq!(class(&test_path), Some("io.harness.FooTest".to_string()));
    assert_eq!(class(&"100-core/other/Foo.java".to_string()), None);
}

#[test]
fn module_variants_order_within_layer() {
    assert_eq!(index_fraction(&"//100-core:tests".to_string()), Some(0));
    assert_eq!(index_fraction(&"//100-core:supporter-test".to_string()), Some(1));
    assert_eq!(index_fraction(&"//100-core:module".to_string()), Some(2));
    assert_eq!(index_fraction(&"//100-core:abstract-module".to_string()), Some(3));
    assert_eq!(index_fraction(&"//100-core:other".to_string()), None);
}

#[test]
fn module_index_in_tenths() {
    assert_eq!(module_index(&"400-rest".to_string(), &"//400-rest:module".to_string()), Some(4002));
    assert_eq!(module_index(&"120-ng".to_string(), &"//120-ng:tests".to_string()), Some(1200));
    assert_eq!(module_index(&"ab0-x".to_string(), &"//ab0-x:module".to_string()), None);
    assert_eq!(module_index(&"12".to_string(), &"//12:module".to_string()), None);
}

#[test]
fn deprecated_and_own_classes() {
    assert!(is_deprecated(&"//400-rest:module".to_string()));
    assert!(!is_deprecated(&"//410-rest:module".to_string()));
    assert!(is_harness_class(&"io.harness.Foo".to_string()));
    assert!(is_harness_class(&"software.wings.Bar".to_string()));
    assert!(!is_harness_class(&"com.google.Baz".to_string()));
}

#[test]
fn dependencies_from_table_once_each() {
    let mut table: MultiMap<String, String> = MultiMap::new();
    table.insert("a.A".to_string(), "a.B".to_string());
    table.insert("a.A".to_string(), "a.C".to_string());
    table.insert("a.A".to_string(), "a.B".to_string());
    let mut deps = class_dependencies("a.A", &table);
    deps.sort();
    assert_eq!(deps, vec!["a.B".to_string(), "a.C".to_string()]);
    assert!(class_dependencies("a.Z", &table).is_empty());
    let ext = external_class("a.A", &table, Some("PL".to_string()));
    assert_eq!(ext.location, "n/a");
    assert_eq!(ext.dependencies.len(), 2);
    assert_eq!(ext.team, Some("PL".to_string()));
    assert!(ext.target_module.is_none());
}

#[test]
fn moving_drops_target_annotation_and_imports() {
    let p = rewrite_patterns().expect("patterns compile");
    let source = lines(&[
        "package io.harness;",
        "import io.harness.annotations.dev.Module;",
        "import io.harness.annotations.dev.TargetModule;",
        "import java.util.List;",
        "@TargetModule(HarnessModule._400_REST)",
        "public class Foo {}",
    ]);
    let out = copy_class(&p, &source);
    assert_eq!(out, lines(&["package io.harness;", "import java.util.List;", "public class Foo {}"]));
}

#[test]
fn applying_target_adds_imports_and_annotation() {
    let p = rewrite_patterns().expect("patterns compile");
    let source = lines(&["package io.harness;", "import java.util.List;", "public class Foo {}"]);
    let (out, found) = apply_target_to_class(&p, &source, "_400_REST");
    assert!(found);
    assert_eq!(
        out,
        lines(&[
            "package io.harness;",
            "import io.harness.annotations.dev.Module;",
            "import io.harness.annotations.dev.TargetModule;",
            "import java.util.List;",
            "@TargetModule(Module.__400_REST)",
            "public class Foo {}",
        ])
    );
    let no_imports = lines(&["package io.harness;", "public abstract class Bar {}"]);
    let (out, found) = apply_target_to_class(&p, &no_imports, "X");
    assert!(found);
    assert_eq!(
        out,
        lines(&[
            "package io.harness;",
            "import io.harness.annotations.dev.Module;",
            "import io.harness.annotations.dev.TargetModule;",
            "@TargetModule(Module._X)",
            "public abstract class Bar {}",
        ])
    );
    let (_, found) = apply_target_to_class(&p, &lines(&["// nothing"]), "X");
    assert!(!found);
}

#[test]
fn annotations_of_a_source() {
    let p = source_patterns().expect("patterns compile");
    let code = "package io.harness.foo;\n@OwnedBy(HarnessTeam.PL)\n@TargetModule(HarnessModule._400_REST)\n@BreakDependencyOn(\"a.B\")\n@BreakDependencyOn(\"a.C\")\n@BreakDependencyOn(\"a.B\")\npublic class Foo {}";
    let info = internal_info(&p, code, "module");
    assert_eq!(info.package, Some("io.harness.foo".to_string()));
    assert_eq!(info.team, Some("PL".to_string()));
    assert_eq!(info.target_module, Some("//400-rest:module".to_string()));
    let mut breaks = info.break_dependencies_on.clone();
    breaks.sort();
    assert_eq!(breaks, vec!["a.B".to_string(), "a.C".to_string()]);
    let bare = internal_info(&p, "class X {}", "tests");
    assert_eq!(bare.package, None);
    assert_eq!(bare.team, None);
    assert_eq!(bare.target_module, None);
    assert!(bare.break_dependencies_on.is_empty());
}

#[test]
fn dependency_listing_line() {
    let p = source_patterns().expect("patterns compile");
    let line = "   io.harness.A$Inner -> io.harness.B    classes".to_string();
    assert_eq!(dependency_class(&p, &line), Some(("io.harness.A".to_string(), "io.harness.B".to_string())));
    assert_eq!(dependency_class(&p, &"no arrow here".to_string()), None);
    assert_eq!(outer_class_of(&"a.B$C$D".to_string()), "a.B");
}

#[test]
fn execute_plans_file_work() {
    let plan = execute(
        Execute {
            action: Action::MoveClass(MoveClass {
                from_module: "400-rest".to_string(),
                from_location: "src/main/java/a/B.java".to_string(),
                to_module: "200-core".to_string(),
            }),
        },
        "/repo",
    );
    match plan {
        ExecutePlan::MoveClass { source_file, target_file } => {
            assert_eq!(source_file, "/repo/400-rest/src/main/java/a/B.java");
            assert_eq!(target_file, "/repo/200-core/src/main/java/a/B.java");
        }
        _ => panic!("expected a move"),
    }
    let plan = execute(Execute { action: Action::ApplyTarget(ApplyTarget { path: "x".to_string(), target: "Y".to_string() }) }, "/repo");
    match plan {
        ExecutePlan::ApplyTarget { path, target } => {
            assert_eq!(path, "x");
            assert_eq!(target, "Y");
        }
        _ => panic!("expected a target"),
    }
}

#[test]
fn module_rules_from_query_output() {
    assert_eq!(
        module_rule(&"java_library rule //100-core:module".to_string()),
        Some(("//100-core:module".to_string(), "java_library".to_string()))
    );
    assert_eq!(
        module_rule(&"java_binary rule //200-app:tests".to_string()),
        Some(("//200-app:tests".to_string(), "java_binary".to_string()))
    );
    assert_eq!(module_rule(&"java_library rule //100-core:other".to_string()), None);
    assert_eq!(module_rule(&"genrule rule //100-core:module".to_string()), None);
}

#[test]
fn build_file_lists_modules_in_order() {
    let (file, order) = generate(vec!["//b:module".to_string(), "//a:tests".to_string()]);
    assert_eq!(order, vec!["//a:tests".to_string(), "//b:module".to_string()]);
    assert_eq!(
        file,
        vec![
            "load(\"//:tools/bazel/aeriform.bzl\", \"aeriform\")".to_string(),
            String::new(),
            "aeriform(\"//a:tests\")".to_string(),
            String::new(),
            "aeriform(\"//b:module\")".to_string(),
        ]
    );
}

#[test]
fn stripping_marked_lines() {
    let source = lines(&["a", "import io.harness.annotations.dev.TargetModule;", "b", "c"]);
    let out = strip_target_lines(&source, &vec![false, false, true, false]);
    assert_eq!(out, lines(&["a", "c"]));
}

#[test]
fn annotating_marked_lines() {
    let source = lines(&["p", "i", "c"]);
    let (out, found) = annotate_lines(&source, &vec![false, true, false], &vec![false, false, true], "T");
    assert!(found);
    assert_eq!(
        out,
        lines(&[
            "p",
            "import io.harness.annotations.dev.Module;",
            "import io.harness.annotations.dev.TargetModule;",
            "i",
            "@TargetModule(Module._T)",
            "c",
        ])
    );
}

#[test]
fn target_module_name_from_constant() {
    assert_eq!(target_module_from(&"400_rest".to_string(), "tests"), "//400-rest:tests");
}

#[test]
fn break_names_from_matches() {
    let all = vec![
        vec![Some("x".to_string()), Some("a.B".to_string())],
        vec![Some("y".to_string()), Some("a.B".to_string())],
        vec![Some("z".to_string()), None],
    ];
    assert_eq!(break_names_from(&all), vec!["a.B".to_string()]);
}

#[test]
fn groups_of_a_listing_line() {
    let caps = Some(vec![Some("whole".to_string()), Some("a.X$1".to_string()), Some("b.Y".to_string())]);
    assert_eq!(dependency_from_groups(&caps), Some(("a.X".to_string(), "b.Y".to_string())));
    assert_eq!(group(&caps, 2), Some("b.Y".to_string()));
    assert_eq!(group(&caps, 3), None);
    assert_eq!(dependency_from_groups(&None), None);
}

fn edge(a: &str, b: &str) -> (String, String) {
    (a.to_string(), b.to_string())
}

#[test]
fn dependency_tables_keep_own_classes() {
    let edges = vec![
        edge("io.harness.A", "io.harness.B"),
        edge("io.harness.A", "com.other.X"),
        edge("io.harness.A", "software.wings.C"),
        edge("io.harness.P", "com.google.protobuf.ProtocolMessageEnum"),
        edge("io.harness.P", "io.grpc.stub.AbstractStub"),
        edge("com.other.Q", "io.grpc.stub.AbstractStub"),
    ];
    let (table, protos) = dependency_tables(&edges);
    assert_eq!(
        table.get_vec("io.harness.A"),
        Some(&vec!["io.harness.B".to_string(), "software.wings.C".to_string()])
    );
    assert_eq!(table.get_vec("io.harness.P"), None);
    assert_eq!(protos, vec!["io.harness.P".to_string()]);
}

#[test]
fn external_module_from_jar_edges() {
    let edges = vec![
        edge("io.harness.A", "io.harness.B"),
        edge("io.harness.A", "io.harness.C"),
        edge("com.other.X", "io.harness.A"),
        edge("io.harness.B", "com.other.Y"),
    ];
    let (table, _) = dependency_tables(&edges);
    let module = external_module("dsl", "dsl.jar".to_string(), &edges, &table);
    assert_eq!(module.name, "dsl");
    assert_eq!(module.index, 10000);
    assert_eq!(module.directory, "n/a");
    let names: Vec<&str> = module.srcs.iter().map(|c| c.name.as_str()).collect();
    assert_eq!(names, vec!["io.harness.A", "io.harness.B"]);
    assert_eq!(module.srcs[0].dependencies.len(), 2);
    assert!(module.srcs[1].dependencies.is_empty());
}
