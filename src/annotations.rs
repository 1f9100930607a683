use vstd::prelude::*;
use vstd::string::StrSliceExecFns;
use vstd::string::StringExecFns;

use crate::execute::TARGET_MODULE_PATTERN;
use crate::patterns::{captures, captures_all, compile, groups_view, regex_all_captures, regex_captures, Pattern};
use crate::model::is_first_at;
use crate::text::{chars_of, contains_name, name_set, opt_view, views};

verus! {

/// The package declaration of a source file.
pub const PACKAGE_PATTERN: &'static str = "package ([a-zA-z.]+);";

/// The owning team annotation of a class.
pub const TEAM_OWNER_PATTERN: &'static str = "@OwnedBy\\((HarnessTeam.)?([A-Z]+)\\)";

/// A declared break from a dependency.
pub const BREAK_DEPENDENCY_ON_PATTERN: &'static str = "@BreakDependencyOn\\(\"([^\"]+)\"\\)";

/// One class-to-class line of the bytecode dependency listing.
pub const DEPENDENCY_LINE_PATTERN: &'static str = "^\\s+([^ ]+)\\s+->\\s+([^ ]+).*";

/// What a text reads in lower case.
pub uninterp spec fn lower_of(s: Seq<char>) -> Seq<char>;

/// Relies on str::to_lowercase: the lower-case form depends on the characters alone.
#[verifier::external_body]
fn lowercase(s: &str) -> (r: String)
    ensures
        r@ == lower_of(s@),
{
    s.to_lowercase()
}

/// The patterns that reading a class source and the dependency listing need.
pub struct SourcePatterns {
    pub package: Pattern,
    pub team_owner: Pattern,
    pub target_module: Pattern,
    pub break_dependency_on: Pattern,
    pub dependency_line: Pattern,
}

/// Compiles the patterns that reading sources needs.
pub fn source_patterns() -> (r: Option<SourcePatterns>)
    ensures
        r matches Some(p) ==> p.package@ == PACKAGE_PATTERN@ && p.team_owner@ == TEAM_OWNER_PATTERN@
            && p.target_module@ == TARGET_MODULE_PATTERN@ && p.break_dependency_on@
            == BREAK_DEPENDENCY_ON_PATTERN@ && p.dependency_line@ == DEPENDENCY_LINE_PATTERN@,
{
    let package = match compile(PACKAGE_PATTERN) {
        Some(p) => p,
        None => {
            return None;
        },
    };
    let team_owner = match compile(TEAM_OWNER_PATTERN) {
        Some(p) => p,
        None => {
            return None;
        },
    };
    let target_module = match compile(TARGET_MODULE_PATTERN) {
        Some(p) => p,
        None => {
            return None;
        },
    };
    let break_dependency_on = match compile(BREAK_DEPENDENCY_ON_PATTERN) {
        Some(p) => p,
        None => {
            return None;
        },
    };
    let dependency_line = match compile(DEPENDENCY_LINE_PATTERN) {
        Some(p) => p,
        None => {
            return None;
        },
    };
    Some(SourcePatterns { package, team_owner, target_module, break_dependency_on, dependency_line })
}

/// Group `i` of a match, when there is a match and the group took part in it.
pub open spec fn group_of(caps: Option<Seq<Option<Seq<char>>>>, i: int) -> Option<Seq<char>> {
    match caps {
        Some(g) => if 0 <= i < g.len() {
            g[i]
        } else {
            None
        },
        None => None,
    }
}

/// Group `i` of a match, when there is a match and the group took part in it.
pub fn group(caps: &Option<Vec<Option<String>>>, i: usize) -> (r: Option<String>)
    ensures
        opt_view(r) == group_of(
            match caps {
                Some(g) => Some(groups_view(g@)),
                None => None,
            },
            i as int,
        ),
{
    match caps {
        Some(g) => if i < g.len() {
            match &g[i] {
                Some(s) => Some(s.clone()),
                None => None,
            }
        } else {
            None
        },
        None => None,
    }
}

/// `_` turned into `-`.
pub open spec fn underscore_to_dash(c: char) -> char {
    if c == '_' {
        '-'
    } else {
        c
    }
}

/// The module name that a target annotation's constant stands for, for modules of kind
/// `module_type`: `//` then the constant in lower case with `-` for `_`, then `:` and the kind.
pub open spec fn target_module_name(constant: Seq<char>, module_type: Seq<char>) -> Seq<char> {
    "//"@ + lower_of(constant).map_values(|c: char| underscore_to_dash(c)) + ":"@ + module_type
}

/// The annotations that a class source declares.
pub struct InternalInfo {
    pub package: Option<String>,
    pub target_module: Option<String>,
    pub break_dependencies_on: Vec<String>,
    pub team: Option<String>,
}

/// The class names of the declared breaks, each once.
pub open spec fn break_names(all: Seq<Seq<Option<Seq<char>>>>) -> Set<Seq<char>> {
    Set::new(|n: Seq<char>| exists|i: int| 0 <= i < all.len() && 1 < all[i].len() && #[trigger] all[i][1] == Some(n))
}

/// The groups of each match, as plain values.
pub open spec fn break_views(all: Seq<Vec<Option<String>>>) -> Seq<Seq<Option<Seq<char>>>> {
    all.map_values(|g: Vec<Option<String>>| groups_view(g@))
}

/// The class names that the first group of each match gives, each once.
pub fn break_names_from(all: &Vec<Vec<Option<String>>>) -> (r: Vec<String>)
    ensures
        views(r@).no_duplicates(),
        name_set(r@) == break_names(break_views(all@)),
{
    let ghost av = break_views(all@);
    let mut breaks: Vec<String> = Vec::new();
    let mut i: usize = 0;
    while i < all.len()
        invariant
            i <= all@.len(),
            av == break_views(all@),
            all@.len() == av.len(),
            forall|q: int| 0 <= q < all@.len() ==> groups_view(#[trigger] all@[q]@) == av[q],
            views(breaks@).no_duplicates(),
            name_set(breaks@) == break_names(av.take(i as int)),
        decreases all@.len() - i,
    {
        assert(groups_view(all@[i as int]@) == av[i as int]);
        let ghost before = breaks@;
        if 1 < all[i].len() {
            match &all[i][1] {
                Some(name) => {
                    assert(av[i as int][1] == Some(name@));
                    if !contains_name(&breaks, name) {
                        breaks.push(name.clone());
                        proof {
                            assert(views(breaks@) =~= views(before).push(name@));
                            assert forall|a: int, b: int| 0 <= a < b < views(breaks@).len() implies views(breaks@)[a] != views(breaks@)[b] by {
                                assert(views(before)[a] == views(breaks@)[a]);
                                if b < before.len() {
                                    assert(views(before)[b] == views(breaks@)[b]);
                                } else {
                                    assert(name_set(before).contains(views(before)[a]));
                                }
                            }
                        }
                    }
                },
                None => {},
            }
        }
        proof {
            assert forall|n: Seq<char>| name_set(breaks@).contains(n) <==> break_names(av.take(i + 1)).contains(n) by {
                if name_set(breaks@).contains(n) {
                    let a = choose|a: int| 0 <= a < views(breaks@).len() && views(breaks@)[a] == n;
                    if a < before.len() {
                        assert(views(before)[a] == n);
                        assert(name_set(before).contains(n));
                        let q = choose|q: int| 0 <= q < av.take(i as int).len() && 1 < av.take(i as int)[q].len() && #[trigger] av.take(i as int)[q][1] == Some(n);
                        assert(av.take(i + 1)[q] == av.take(i as int)[q]);
                    } else {
                        assert(av.take(i + 1)[i as int] == av[i as int]);
                    }
                }
                if break_names(av.take(i + 1)).contains(n) {
                    let q = choose|q: int| 0 <= q < av.take(i + 1).len() && 1 < av.take(i + 1)[q].len() && #[trigger] av.take(i + 1)[q][1] == Some(n);
                    if q < i {
                        assert(av.take(i as int)[q] == av.take(i + 1)[q]);
                        assert(break_names(av.take(i as int)).contains(n));
                        assert(name_set(before).contains(n));
                        let a = choose|a: int| 0 <= a < views(before).len() && views(before)[a] == n;
                        assert(views(breaks@)[a] == n);
                    } else {
                        assert(av[i as int][1] == Some(n));
                        if !name_set(before).contains(n) {
                            assert(views(breaks@)[before.len() as int] == n);
                        } else {
                            let a = choose|a: int| 0 <= a < views(before).len() && views(before)[a] == n;
                            assert(views(breaks@)[a] == n);
                        }
                    }
                }
            }
            assert(name_set(breaks@) =~= break_names(av.take(i + 1)));
        }
        i = i + 1;
    }
    assert(av.take(all@.len() as int) =~= av);
    breaks
}

/// The module name for the lower-case form of a target annotation's constant, for modules of
/// kind `module_type`: `//`, the constant with `-` for `_`, `:` and the kind.
pub fn target_module_from(lowered: &String, module_type: &str) -> (r: String)
    ensures
        r@ == "//"@ + lowered@.map_values(|c: char| underscore_to_dash(c)) + ":"@ + module_type@,
{
    let lower = lowered;
    let cs = chars_of(lower.as_str());
    let mut name = String::from_str("//");
    let mut k: usize = 0;
    while k < cs.len()
        invariant
            cs@ == lowered@,
            lower@ == cs@,
            k <= cs@.len(),
            name@ == "//"@ + cs@.take(k as int).map_values(|c: char| underscore_to_dash(c)),
        decreases cs@.len() - k,
    {
        let piece = if cs[k] == '_' { "-" } else { lower.as_str().substring_char(k, k + 1) };
        proof {
            if cs@[k as int] == '_' {
                reveal_strlit("-");
            }
        }
        assert(piece@ =~= seq![underscore_to_dash(cs@[k as int])]);
        name.append(piece);
        assert(cs@.take(k + 1).map_values(|c: char| underscore_to_dash(c)) =~= cs@.take(k as int).map_values(
            |c: char| underscore_to_dash(c),
        ).push(underscore_to_dash(cs@[k as int])));
        k = k + 1;
    }
    assert(cs@.take(cs@.len() as int) =~= cs@);
    name.append(":");
    name.append(module_type);
    name
}

/// Reads the annotations of a class source: its package, its target module (named for
/// modules of kind `module_type`), the classes it declares breaks from, and its team.
pub fn internal_info(patterns: &SourcePatterns, code: &str, module_type: &str) -> (r: InternalInfo)
    ensures
        opt_view(r.package) == group_of(regex_captures(patterns.package@, code@), 1),
        opt_view(r.team) == group_of(regex_captures(patterns.team_owner@, code@), 2),
        opt_view(r.target_module) == match group_of(regex_captures(patterns.target_module@, code@), 2) {
            Some(t) => Some(target_module_name(t, module_type@)),
            None => None,
        },
        views(r.break_dependencies_on@).no_duplicates(),
        name_set(r.break_dependencies_on@) == break_names(regex_all_captures(patterns.break_dependency_on@, code@)),
{
    let package = group(&captures(&patterns.package, code), 1);
    let team = group(&captures(&patterns.team_owner, code), 2);
    let target_module = match group(&captures(&patterns.target_module, code), 2) {
        None => None,
        Some(constant) => Some(target_module_from(&lowercase(constant.as_str()), module_type)),
    };
    let all = captures_all(&patterns.break_dependency_on, code);
    let breaks = break_names_from(&all);
    assert(break_views(all@) =~= regex_all_captures(patterns.break_dependency_on@, code@));
    InternalInfo { package, target_module, break_dependencies_on: breaks, team }
}

/// The outer class of a class name: what precedes its first `$`.
pub open spec fn outer_class(s: Seq<char>) -> Seq<char> {
    if exists|i: int| is_first_at(s, '$', i) {
        s.subrange(0, choose|i: int| is_first_at(s, '$', i))
    } else {
        s
    }
}

/// The outer class of a class name.
pub fn outer_class_of(s: &String) -> (r: String)
    ensures
        r@ == outer_class(s@),
{
    let cs = chars_of(s.as_str());
    let ghost v = s@;
    let mut i: usize = 0;
    while i < cs.len()
        invariant
            cs@ == v,
            v == s@,
            i <= cs@.len(),
            forall|j: int| 0 <= j < i ==> v[j] != '$',
        decreases cs@.len() - i,
    {
        if cs[i] == '$' {
            proof {
                assert(is_first_at(v, '$', i as int));
                let c = choose|c: int| is_first_at(v, '$', c);
                assert(c == i);
            }
            return String::from_str(s.as_str().substring_char(0, i));
        }
        i = i + 1;
    }
    s.clone()
}

/// The two classes of a line of the bytecode dependency listing: the class that depends and
/// the class it depends on, each as its outer class. None when the line is of another form.
pub fn dependency_class(patterns: &SourcePatterns, line: &String) -> (r: Option<(String, String)>)
    ensures
        ({
            let caps = regex_captures(patterns.dependency_line@, line@);
            match (group_of(caps, 1), group_of(caps, 2)) {
                (Some(a), Some(b)) => r matches Some(p) && p.0@ == outer_class(a) && p.1@ == outer_class(b),
                _ => r is None,
            }
        }),
{
    dependency_from_groups(&captures(&patterns.dependency_line, line.as_str()))
}

/// The two classes that groups 1 and 2 of a listing line's match give, each as its outer
/// class; none when either group is missing.
pub fn dependency_from_groups(caps: &Option<Vec<Option<String>>>) -> (r: Option<(String, String)>)
    ensures
        ({
            let c = match caps {
                Some(g) => Some(groups_view(g@)),
                None => None,
            };
            match (group_of(c, 1), group_of(c, 2)) {
                (Some(a), Some(b)) => r matches Some(p) && p.0@ == outer_class(a) && p.1@ == outer_class(b),
                _ => r is None,
            }
        }),
{
    match (group(caps, 1), group(caps, 2)) {
        (Some(a), Some(b)) => Some((outer_class_of(&a), outer_class_of(&b))),
        _ => None,
    }
}

} // verus!
