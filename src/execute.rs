use vstd::prelude::*;
use vstd::string::StringExecFns;

use crate::patterns::{compile, is_match, regex_matches, Pattern};
use crate::text::views;

verus! {

/// The import of the module enumeration that target annotations use.
pub const MODULE_IMPORT: &'static str = "import io.harness.annotations.dev.Module;";

/// The import of the target module annotation.
pub const TARGET_MODULE_IMPORT: &'static str = "import io.harness.annotations.dev.TargetModule;";

/// A target module annotation.
pub const TARGET_MODULE_PATTERN: &'static str = "@TargetModule\\((HarnessModule.)?_([0-9A-Z_]+)\\)";

/// An import statement.
pub const IMPORT_STATEMENT_PATTERN: &'static str = "^import .*;$";

/// The declaration of a public class or interface.
pub const CLASS_STATEMENT_PATTERN: &'static str = "^public (abstract )?(class|interface) ";

/// The patterns that rewriting a source file needs.
pub struct RewritePatterns {
    pub target_module: Pattern,
    pub import_statement: Pattern,
    pub class_statement: Pattern,
}

/// Compiles the patterns that rewriting a source file needs.
pub fn rewrite_patterns() -> (r: Option<RewritePatterns>)
    ensures
        r matches Some(p) ==> p.target_module@ == TARGET_MODULE_PATTERN@ && p.import_statement@
            == IMPORT_STATEMENT_PATTERN@ && p.class_statement@ == CLASS_STATEMENT_PATTERN@,
{
    let target_module = match compile(TARGET_MODULE_PATTERN) {
        Some(p) => p,
        None => {
            return None;
        },
    };
    let import_statement = match compile(IMPORT_STATEMENT_PATTERN) {
        Some(p) => p,
        None => {
            return None;
        },
    };
    let class_statement = match compile(CLASS_STATEMENT_PATTERN) {
        Some(p) => p,
        None => {
            return None;
        },
    };
    Some(RewritePatterns { target_module, import_statement, class_statement })
}

/// Whether `pattern` matches each line.
fn mark_lines(pattern: &Pattern, lines: &Vec<String>) -> (r: Vec<bool>)
    ensures
        r@ == views(lines@).map_values(|l: Seq<char>| regex_matches(pattern@, l)),
{
    let mut r: Vec<bool> = Vec::new();
    let mut i: usize = 0;
    while i < lines.len()
        invariant
            i <= lines@.len(),
            r@ == views(lines@).take(i as int).map_values(|l: Seq<char>| regex_matches(pattern@, l)),
        decreases lines@.len() - i,
    {
        let m = is_match(pattern, lines[i].as_str());
        r.push(m);
        assert(views(lines@).take(i + 1).map_values(|l: Seq<char>| regex_matches(pattern@, l)) =~= views(lines@).take(
            i as int,
        ).map_values(|l: Seq<char>| regex_matches(pattern@, l)).push(m));
        i = i + 1;
    }
    assert(views(lines@).take(lines@.len() as int) =~= views(lines@));
    r
}

/// Moving keeps a line unless it is marked as the target annotation or is one of its imports.
pub open spec fn keeps_line(l: Seq<char>, annotation: bool) -> bool {
    !annotation && l != MODULE_IMPORT@ && l != TARGET_MODULE_IMPORT@
}

/// The first `n` lines that moving keeps, with `annotated` marking the target annotations.
pub open spec fn kept_lines(ls: Seq<Seq<char>>, annotated: Seq<bool>, n: nat) -> Seq<Seq<char>>
    decreases n,
{
    if n == 0 {
        Seq::empty()
    } else {
        kept_lines(ls, annotated, (n - 1) as nat) + if keeps_line(ls[n - 1], annotated[n - 1]) {
            seq![ls[n - 1]]
        } else {
            Seq::empty()
        }
    }
}

/// The lines that moving a class keeps, given which lines are target annotations: all
/// others, in order, except the imports of the annotation.
pub fn strip_target_lines(lines: &Vec<String>, annotated: &Vec<bool>) -> (r: Vec<String>)
    requires
        lines@.len() == annotated@.len(),
    ensures
        views(r@) == kept_lines(views(lines@), annotated@, lines@.len()),
{
    let ghost ls = views(lines@);
    let module_import = String::from_str(MODULE_IMPORT);
    let target_import = String::from_str(TARGET_MODULE_IMPORT);
    let mut out: Vec<String> = Vec::new();
    let mut i: usize = 0;
    while i < lines.len()
        invariant
            i <= lines@.len(),
            lines@.len() == annotated@.len(),
            ls == views(lines@),
            module_import@ == MODULE_IMPORT@,
            target_import@ == TARGET_MODULE_IMPORT@,
            views(out@) == kept_lines(ls, annotated@, i as nat),
        decreases lines@.len() - i,
    {
        let line = &lines[i];
        assert(ls[i as int] == line@);
        let ghost before = out@;
        if !annotated[i] && *line != module_import && *line != target_import {
            out.push(line.clone());
        }
        assert(views(out@) =~= kept_lines(ls, annotated@, (i + 1) as nat));
        i = i + 1;
    }
    out
}

/// The lines of a class moved to its target module: the target annotation and its imports
/// are dropped, every other line is kept in order.
pub fn copy_class(patterns: &RewritePatterns, lines: &Vec<String>) -> (r: Vec<String>)
    ensures
        views(r@) == kept_lines(
            views(lines@),
            views(lines@).map_values(|l: Seq<char>| regex_matches(patterns.target_module@, l)),
            lines@.len(),
        ),
{
    let annotated = mark_lines(&patterns.target_module, lines);
    strip_target_lines(lines, &annotated)
}

/// The annotation that declares the target module `target`.
pub open spec fn target_annotation(target: Seq<char>) -> Seq<char> {
    "@TargetModule(Module._"@ + target + ")"@
}

/// Rewriting the first `n` lines to declare a target module, with `imports` marking import
/// statements and `classes` marking class declarations: the lines written so far, whether
/// the imports were written, and whether the class declaration was seen. The imports go
/// before the first import statement, or before the class declaration when there is none
/// before it; the annotation goes right before the class declaration.
pub open spec fn annotate_state(
    ls: Seq<Seq<char>>,
    imports: Seq<bool>,
    classes: Seq<bool>,
    target: Seq<char>,
    n: nat,
) -> (Seq<Seq<char>>, bool, bool)
    decreases n,
{
    if n == 0 {
        (Seq::empty(), false, false)
    } else {
        let prev = annotate_state(ls, imports, classes, target, (n - 1) as nat);
        let l = ls[n - 1];
        let lines = seq![MODULE_IMPORT@, TARGET_MODULE_IMPORT@];
        let first_import = !prev.1 && imports[n - 1];
        let at_class = !prev.2 && classes[n - 1];
        let late_import = at_class && !(prev.1 || first_import);
        (
            prev.0 + (if first_import { lines } else { Seq::empty() }) + (if late_import {
                lines
            } else {
                Seq::empty()
            }) + (if at_class { seq![target_annotation(target)] } else { Seq::empty() }) + seq![l],
            prev.1 || first_import || late_import,
            prev.2 || at_class,
        )
    }
}

/// Declares target module `target` in the lines of a class source, given which lines are
/// import statements and which declare the class: adds the imports and the annotation before
/// the class declaration. Also tells whether a class declaration was found.
pub fn annotate_lines(lines: &Vec<String>, imports: &Vec<bool>, classes: &Vec<bool>, target: &str) -> (r: (
    Vec<String>,
    bool,
))
    requires
        lines@.len() == imports@.len(),
        lines@.len() == classes@.len(),
    ensures
        ({
            let s = annotate_state(views(lines@), imports@, classes@, target@, lines@.len());
            views(r.0@) == s.0 && r.1 == s.2
        }),
{
    let ghost ls = views(lines@);
    let mut out: Vec<String> = Vec::new();
    let mut imported = false;
    let mut class = false;
    let mut annotation = String::from_str("@TargetModule(Module._");
    annotation.append(target);
    annotation.append(")");
    let mut i: usize = 0;
    while i < lines.len()
        invariant
            i <= lines@.len(),
            lines@.len() == imports@.len(),
            lines@.len() == classes@.len(),
            ls == views(lines@),
            annotation@ == target_annotation(target@),
            annotate_state(ls, imports@, classes@, target@, i as nat) == (views(out@), imported, class),
        decreases lines@.len() - i,
    {
        let line = &lines[i];
        assert(ls[i as int] == line@);
        let ghost prev = views(out@);
        let first_import = !imported && imports[i];
        if first_import {
            out.push(String::from_str(MODULE_IMPORT));
            out.push(String::from_str(TARGET_MODULE_IMPORT));
            imported = true;
        }
        let ghost after_first = views(out@);
        let at_class = !class && classes[i];
        let ghost late = at_class && !imported;
        if at_class {
            if !imported {
                out.push(String::from_str(MODULE_IMPORT));
                out.push(String::from_str(TARGET_MODULE_IMPORT));
                imported = true;
            }
            out.push(annotation.clone());
            class = true;
        }
        out.push(line.clone());
        proof {
            let both = seq![MODULE_IMPORT@, TARGET_MODULE_IMPORT@];
            assert(after_first =~= prev + (if first_import { both } else { Seq::empty() }));
            assert(views(out@) =~= prev + (if first_import { both } else { Seq::empty() }) + (if late {
                both
            } else {
                Seq::empty()
            }) + (if at_class { seq![target_annotation(target@)] } else { Seq::empty() }) + seq![line@]);
        }
        i = i + 1;
    }
    (out, class)
}

/// Declares target module `target` in the lines of a class source: adds the imports and the
/// annotation before the class declaration. Also tells whether a class declaration was found;
/// without one the file is left as it is.
pub fn apply_target_to_class(patterns: &RewritePatterns, lines: &Vec<String>, target: &str) -> (r: (
    Vec<String>,
    bool,
))
    ensures
        ({
            let ls = views(lines@);
            let s = annotate_state(
                ls,
                ls.map_values(|l: Seq<char>| regex_matches(patterns.import_statement@, l)),
                ls.map_values(|l: Seq<char>| regex_matches(patterns.class_statement@, l)),
                target@,
                lines@.len(),
            );
            views(r.0@) == s.0 && r.1 == s.2
        }),
{
    let imports = mark_lines(&patterns.import_statement, lines);
    let classes = mark_lines(&patterns.class_statement, lines);
    annotate_lines(lines, &imports, &classes, target)
}

/// Moves a class from one module directory to another, at the same location below both.
pub struct MoveClass {
    pub from_module: String,
    pub from_location: String,
    pub to_module: String,
}

/// Declares a target module in one class source, or in every class source under a directory.
pub struct ApplyTarget {
    pub path: String,
    pub target: String,
}

/// A change to the source tree.
pub enum Action {
    MoveClass(MoveClass),
    ApplyTarget(ApplyTarget),
}

/// A request to change the source tree.
pub struct Execute {
    pub action: Action,
}

/// The file work that carries out a request.
pub enum ExecutePlan {
    /// Copy the class source from `source_file` to `target_file` without its target
    /// annotation, then remove the source.
    MoveClass { source_file: String, target_file: String },
    /// Declare `target` in the class source at `path`, or in each one under it.
    ApplyTarget { path: String, target: String },
}

/// `root/module/location`.
pub open spec fn repo_path(root: Seq<char>, module: Seq<char>, location: Seq<char>) -> Seq<char> {
    root + "/"@ + module + "/"@ + location
}

/// `root/module/location`.
fn join_path(root: &str, module: &String, location: &String) -> (r: String)
    ensures
        r@ == repo_path(root@, module@, location@),
{
    let mut r = String::from_str(root);
    r.append("/");
    r.append(module.as_str());
    r.append("/");
    r.append(location.as_str());
    r
}

/// Decides the file work of a request in the repository at `repo_root`: a move goes from the
/// class's location under its module to the same location under the target module.
pub fn execute(opts: Execute, repo_root: &str) -> (r: ExecutePlan)
    ensures
        match opts.action {
            Action::MoveClass(m) => r matches ExecutePlan::MoveClass { source_file, target_file }
                && source_file@ == repo_path(repo_root@, m.from_module@, m.from_location@)
                && target_file@ == repo_path(repo_root@, m.to_module@, m.from_location@),
            Action::ApplyTarget(a) => r matches ExecutePlan::ApplyTarget { path, target } && path@
                == a.path@ && target@ == a.target@,
        },
{
    match opts.action {
        Action::MoveClass(m) => ExecutePlan::MoveClass {
            source_file: join_path(repo_root, &m.from_module, &m.from_location),
            target_file: join_path(repo_root, &m.to_module, &m.from_location),
        },
        Action::ApplyTarget(a) => ExecutePlan::ApplyTarget { path: a.path, target: a.target },
    }
}

} // verus!
