use vstd::prelude::*;
use vstd::string::StrSliceExecFns;
use vstd::string::StringExecFns;

use multimap::MultiMap;

use crate::graph::{multimap_entries, multimap_get, multimap_insert, new_multimap};
use crate::model::{is_last_at, JavaClass, JavaModule};
use crate::text::{
    holds_name, lemma_lex_refl, lemma_lex_total, lemma_lex_transitive, lex_le, text_le, begins_with, chars_of, contains_name, contains_text, name_set, occurs_at, occurs_in, opt_view,
    starts_with, views,
};

verus! {

/// The class names a dependency table lists under `name`, each once.
pub fn class_dependencies(name: &str, dependencies: &MultiMap<String, String>) -> (r: Vec<String>)
    ensures
        views(r@).no_duplicates(),
        name_set(r@) == if multimap_entries(*dependencies).contains_key(name@) {
            multimap_entries(*dependencies)[name@].to_set()
        } else {
            Set::empty()
        },
{
    let mut r: Vec<String> = Vec::new();
    match multimap_get(dependencies, name) {
        None => {
            assert(name_set(r@) =~= Set::<Seq<char>>::empty());
            r
        },
        Some(list) => {
            let mut i: usize = 0;
            assert(name_set(r@) =~= views(list@).take(0).to_set());
            while i < list.len()
                invariant
                    i <= list@.len(),
                    views(r@).no_duplicates(),
                    name_set(r@) == views(list@).take(i as int).to_set(),
                decreases list@.len() - i,
            {
                let ghost before = r@;
                assert(views(list@).take(i + 1) =~= views(list@).take(i as int).push(list@[i as int]@));
                proof {
                    views(list@).take(i as int).lemma_push_to_set_commute(list@[i as int]@);
                }
                if !contains_name(&r, &list[i]) {
                    r.push(list[i].clone());
                    proof {
                        assert(views(r@) =~= views(before).push(list@[i as int]@));
                        views(before).lemma_push_to_set_commute(list@[i as int]@);
                        assert forall|a: int, b: int| 0 <= a < b < views(r@).len() implies views(r@)[a] != views(r@)[b] by {
                            assert(views(before)[a] == views(r@)[a]);
                            if b < before.len() {
                                assert(views(before)[b] == views(r@)[b]);
                            } else {
                                assert(name_set(before).contains(views(before)[a]));
                            }
                        }
                    }
                } else {
                    assert(name_set(r@).insert(list@[i as int]@) =~= name_set(r@));
                }
                i = i + 1;
            }
            assert(views(list@).take(list@.len() as int) =~= views(list@));
            r
        },
    }
}

/// A class with no source file, as an outside dependency: it keeps its name, its
/// dependencies from the table and its team, and declares nothing else.
pub fn external_class(key: &str, dependencies: &MultiMap<String, String>, team: Option<String>) -> (r: JavaClass)
    ensures
        r.name@ == key@,
        r.location@ == "n/a"@,
        r.package is None,
        r.target_module is None,
        r.team == team,
        r.break_dependencies_on@.len() == 0,
        views(r.dependencies@).no_duplicates(),
        name_set(r.dependencies@) == if multimap_entries(*dependencies).contains_key(key@) {
            multimap_entries(*dependencies)[key@].to_set()
        } else {
            Set::empty()
        },
{
    JavaClass {
        name: String::from_str(key),
        location: String::from_str("n/a"),
        package: None,
        dependencies: class_dependencies(key, dependencies),
        target_module: None,
        team,
        break_dependencies_on: Vec::new(),
    }
}

/// A class of the codebase's own packages.
pub fn is_harness_class(class: &String) -> (r: bool)
    ensures
        r == (starts_with(class@, "io.harness."@) || starts_with(class@, "software.wings."@)),
{
    begins_with(class.as_str(), "io.harness.") || begins_with(class.as_str(), "software.wings.")
}

/// A module that is being retired.
pub fn is_deprecated(name: &String) -> (r: bool)
    ensures
        r == occurs_in(name@, "/400-rest:"@),
{
    contains_text(name.as_str(), "/400-rest:")
}

/// `p` is a suffix of `s`.
pub open spec fn ends_with(s: Seq<char>, p: Seq<char>) -> bool {
    p.len() <= s.len() && s.subrange(s.len() - p.len(), s.len() as int) == p
}

/// Whether `s` ends with `p`.
pub fn finishes_with(s: &str, p: &str) -> (r: bool)
    ensures
        r == ends_with(s@, p@),
{
    let sc = chars_of(s);
    let pc = chars_of(p);
    if pc.len() > sc.len() {
        return false;
    }
    let off = sc.len() - pc.len();
    let mut j: usize = 0;
    while j < pc.len()
        invariant
            sc@ == s@,
            pc@ == p@,
            off == sc.len() - pc.len(),
            j <= pc.len(),
            forall|k: int| 0 <= k < j ==> sc@[off + k] == pc@[k],
        decreases pc.len() - j,
    {
        if sc[off + j] != pc[j] {
            assert(s@.subrange(off as int, s@.len() as int)[j as int] == s@[off + j]);
            return false;
        }
        j = j + 1;
    }
    assert(s@.subrange(off as int, s@.len() as int) =~= p@);
    true
}

/// The position of a module variant within its layer, in tenths: test sources first, then
/// test support, main sources, and abstract sources.
pub open spec fn index_fraction_of(name: Seq<char>) -> Option<u64> {
    if ends_with(name, ":tests"@) {
        Some(0)
    } else if ends_with(name, ":supporter-test"@) {
        Some(1)
    } else if ends_with(name, ":module"@) {
        Some(2)
    } else if ends_with(name, ":abstract-module"@) {
        Some(3)
    } else {
        None
    }
}

/// The position of a module variant within its layer, in tenths; none for an unknown kind
/// of module.
pub fn index_fraction(name: &String) -> (r: Option<u64>)
    ensures
        r == index_fraction_of(name@),
{
    if finishes_with(name.as_str(), ":tests") {
        Some(0)
    } else if finishes_with(name.as_str(), ":supporter-test") {
        Some(1)
    } else if finishes_with(name.as_str(), ":module") {
        Some(2)
    } else if finishes_with(name.as_str(), ":abstract-module") {
        Some(3)
    } else {
        None
    }
}

/// The value of a decimal digit.
pub open spec fn digit_value(c: char) -> int {
    c as int - '0' as int
}

/// `c` is a decimal digit.
pub open spec fn is_digit(c: char) -> bool {
    '0' <= c && c <= '9'
}

/// The index of a module in tenths: the layer that the first three digits of its directory
/// give, then its variant within the layer. None when the directory does not start with
/// three digits or the module is of an unknown kind.
pub open spec fn module_index_of(directory: Seq<char>, name: Seq<char>) -> Option<u64> {
    if directory.len() >= 3 && is_digit(directory[0]) && is_digit(directory[1]) && is_digit(
        directory[2],
    ) && index_fraction_of(name) is Some {
        Some(
            ((digit_value(directory[0]) * 100 + digit_value(directory[1]) * 10 + digit_value(
                directory[2],
            )) * 10 + index_fraction_of(name)->0) as u64,
        )
    } else {
        None
    }
}

/// The index of a module in tenths, from its directory and its name.
pub fn module_index(directory: &String, name: &String) -> (r: Option<u64>)
    ensures
        r == module_index_of(directory@, name@),
{
    let cs = chars_of(directory.as_str());
    let fraction = index_fraction(name);
    if cs.len() < 3 {
        return None;
    }
    let (a, b, c) = (cs[0], cs[1], cs[2]);
    if !('0' <= a && a <= '9' && '0' <= b && b <= '9' && '0' <= c && c <= '9') {
        return None;
    }
    match fraction {
        None => None,
        Some(f) => {
            let layer: u64 = ((a as u32 - '0' as u32) * 100 + (b as u32 - '0' as u32) * 10 + (c as u32
                - '0' as u32)) as u64;
            Some(layer * 10 + f)
        },
    }
}

/// `i` is the first position where `p` occurs in `s`.
pub open spec fn first_occurrence(s: Seq<char>, p: Seq<char>, i: int) -> bool {
    occurs_at(s, p, i) && forall|j: int| 0 <= j < i ==> !occurs_at(s, p, j)
}

/// `/` turned into `.`.
pub open spec fn slash_to_dot(c: char) -> char {
    if c == '/' {
        '.'
    } else {
        c
    }
}

/// The class name in a source path: what follows the first occurrence of `prefix`, without
/// the `.java` ending, with `/` turned into `.`. None when the prefix does not occur, or
/// leaves no room for the ending.
pub open spec fn class_for_prefix_of(path: Seq<char>, prefix: Seq<char>) -> Option<Seq<char>> {
    if exists|i: int| first_occurrence(path, prefix, i) {
        let i = choose|i: int| first_occurrence(path, prefix, i);
        if i + prefix.len() + 5 <= path.len() {
            Some(path.subrange(i + prefix.len(), path.len() - 5).map_values(|c: char| slash_to_dot(c)))
        } else {
            None
        }
    } else {
        None
    }
}

/// The class name in a source path under `prefix`; see `class_for_prefix_of`.
pub fn class_for_prefix(path: &String, prefix: &str) -> (r: Option<String>)
    ensures
        opt_view(r) == class_for_prefix_of(path@, prefix@),
{
    let sc = chars_of(path.as_str());
    let pc = chars_of(prefix);
    if pc.len() > sc.len() {
        return None;
    }
    let last = sc.len() - pc.len();
    let mut i: usize = 0;
    loop
        invariant
            sc@ == path@,
            pc@ == prefix@,
            pc.len() <= sc.len(),
            last == sc.len() - pc.len(),
            i <= last,
            forall|k: int| 0 <= k < i ==> !occurs_at(path@, prefix@, k),
        decreases last - i,
    {
        if begins_with(path.as_str().substring_char(i, sc.len()), prefix) {
            let ghost rest = path@.subrange(i as int, path@.len() as int);
            assert(rest.subrange(0, prefix@.len() as int) =~= path@.subrange(i as int, i + prefix@.len()));
            assert(first_occurrence(path@, prefix@, i as int));
            proof {
                let c = choose|c: int| first_occurrence(path@, prefix@, c);
                if c < i {
                    assert(!occurs_at(path@, prefix@, c));
                } else if c > i {
                    assert(!occurs_at(path@, prefix@, i as int));
                }
            }
            let start = i + pc.len();
            if sc.len() - start < 5 {
                return None;
            }
            let mut out = String::new();
            let mut k: usize = start;
            while k < sc.len() - 5
                invariant
                    sc@ == path@,
                    start <= k <= sc.len() - 5,
                    out@ == path@.subrange(start as int, k as int).map_values(|c: char| slash_to_dot(c)),
                decreases sc.len() - 5 - k,
            {
                let piece = if sc[k] == '/' { "." } else { path.as_str().substring_char(k, k + 1) };
                proof {
                    if sc@[k as int] == '/' {
                        reveal_strlit(".");
                    }
                }
                assert(piece@ =~= seq![slash_to_dot(path@[k as int])]);
                out.append(piece);
                assert(path@.subrange(start as int, k + 1).map_values(|c: char| slash_to_dot(c)) =~= path@.subrange(
                    start as int,
                    k as int,
                ).map_values(|c: char| slash_to_dot(c)).push(slash_to_dot(path@[k as int])));
                k = k + 1;
            }
            return Some(out);
        }
        proof {
            let rest = path@.subrange(i as int, path@.len() as int);
            if occurs_at(path@, prefix@, i as int) {
                assert(rest.subrange(0, prefix@.len() as int) =~= path@.subrange(i as int, i + prefix@.len()));
            }
        }
        if i == last {
            return None;
        }
        i = i + 1;
    }
}

/// The source roots under which classes are found, in the order they are tried.
pub open spec fn source_prefixes() -> Seq<Seq<char>> {
    seq![
        "/src/main/java/"@,
        "/src/test/java/"@,
        "/src/generated/java/"@,
        "/src/supporter-test/java/"@,
        "/src/abstract/java"@,
    ]
}

/// The class name of a source path, under the first source root that gives one.
pub open spec fn class_of_path(path: Seq<char>, prefixes: Seq<Seq<char>>) -> Option<Seq<char>>
    decreases prefixes.len(),
{
    if prefixes.len() == 0 {
        None
    } else {
        match class_for_prefix_of(path, prefixes[0]) {
            Some(c) => Some(c),
            None => class_of_path(path, prefixes.drop_first()),
        }
    }
}

/// The class name of a source path; none when it lies under no source root.
pub fn class(path: &String) -> (r: Option<String>)
    ensures
        opt_view(r) == class_of_path(path@, source_prefixes()),
{
    let prefixes: [&str; 5] = [
        "/src/main/java/",
        "/src/test/java/",
        "/src/generated/java/",
        "/src/supporter-test/java/",
        "/src/abstract/java",
    ];
    let ghost ps = source_prefixes();
    assert(ps.drop_first().drop_first().drop_first().drop_first().drop_first() =~= Seq::<Seq<char>>::empty());
    let mut i: usize = 0;
    assert(ps.skip(0) =~= ps);
    while i < 5
        invariant
            i <= 5,
            ps == source_prefixes(),
            forall|k: int| 0 <= k < 5 ==> #[trigger] prefixes@[k]@ == ps[k],
            class_of_path(path@, ps) == class_of_path(path@, ps.skip(i as int)),
        decreases 5 - i,
    {
        assert(ps.skip(i as int).drop_first() =~= ps.skip(i + 1));
        assert(ps.skip(i as int)[0] == ps[i as int]);
        match class_for_prefix(path, prefixes[i]) {
            Some(c) => {
                return Some(c);
            },
            None => {},
        }
        i = i + 1;
    }
    assert(ps.skip(5) =~= Seq::<Seq<char>>::empty());
    None
}

/// The kinds of module targets that the analysis covers, by the ending of their names.
pub open spec fn module_suffixes() -> Seq<Seq<char>> {
    seq![":module"@, ":tests"@, ":supporter-test"@, ":abstract-module"@]
}

/// What follows the last space of `s`.
pub open spec fn last_word(s: Seq<char>) -> Seq<char> {
    if exists|i: int| is_last_at(s, ' ', i) {
        s.subrange((choose|i: int| is_last_at(s, ' ', i)) + 1, s.len() as int)
    } else {
        s
    }
}

/// A line of the build query output that names a module target: its name and its rule kind.
/// The line must describe a Java library or binary whose name has one of the module endings.
pub open spec fn module_rule_of(line: Seq<char>) -> Option<(Seq<char>, Seq<char>)> {
    let kind = if starts_with(line, "java_library rule "@) {
        Some("java_library"@)
    } else if starts_with(line, "java_binary rule "@) {
        Some("java_binary"@)
    } else {
        None
    };
    if kind is Some && exists|k: int| 0 <= k < 4 && #[trigger] ends_with(line, module_suffixes()[k]) {
        Some((last_word(line), kind->0))
    } else {
        None
    }
}

/// The module target that a line of the build query output names, with its rule kind.
pub fn module_rule(line: &String) -> (r: Option<(String, String)>)
    ensures
        match r {
            Some(p) => module_rule_of(line@) == Some((p.0@, p.1@)),
            None => module_rule_of(line@) is None,
        },
{
    let kind = if begins_with(line.as_str(), "java_library rule ") {
        String::from_str("java_library")
    } else if begins_with(line.as_str(), "java_binary rule ") {
        String::from_str("java_binary")
    } else {
        return None;
    };
    let suffixes: [&str; 4] = [":module", ":tests", ":supporter-test", ":abstract-module"];
    let ghost sx = module_suffixes();
    let mut found = false;
    let mut k: usize = 0;
    while k < 4
        invariant
            k <= 4,
            sx == module_suffixes(),
            forall|q: int| 0 <= q < 4 ==> #[trigger] suffixes@[q]@ == sx[q],
            found == exists|q: int| 0 <= q < k && #[trigger] ends_with(line@, sx[q]),
        decreases 4 - k,
    {
        if finishes_with(line.as_str(), suffixes[k]) {
            found = true;
        }
        k = k + 1;
    }
    if !found {
        return None;
    }
    let cs = chars_of(line.as_str());
    let ghost v = line@;
    assert(module_rule_of(v) == Some((last_word(v), kind@)));
    let mut i: usize = cs.len();
    while i > 0
        invariant
            cs@ == v,
            v == line@,
            module_rule_of(v) == Some((last_word(v), kind@)),
            i <= cs@.len(),
            forall|j: int| i <= j < cs@.len() ==> v[j] != ' ',
        decreases i,
    {
        if cs[i - 1] == ' ' {
            proof {
                assert(is_last_at(v, ' ', i - 1));
                let c = choose|c: int| is_last_at(v, ' ', c);
                assert(c == i - 1);
            }
            let name = String::from_str(line.as_str().substring_char(i, cs.len()));
            return Some((name, kind));
        }
        i = i - 1;
    }
    Some((line.clone(), kind))
}

/// The line that loads the build rule for the analysis.
pub const BUILD_FILE_HEADER: &'static str = "load(\"//:tools/bazel/aeriform.bzl\", \"aeriform\")";

/// The build file that declares an analysis target for each module: the loading line, then,
/// for each module in order, an empty line and its target.
pub open spec fn build_file_of(names: Seq<Seq<char>>) -> Seq<Seq<char>>
    decreases names.len(),
{
    if names.len() == 0 {
        seq![BUILD_FILE_HEADER@]
    } else {
        build_file_of(names.drop_last()) + seq![Seq::empty(), "aeriform(\""@ + names.last() + "\")"@]
    }
}

/// The strings are in lexicographic order.
pub open spec fn sorted_names(v: Seq<Seq<char>>) -> bool {
    forall|i: int, j: int| 0 <= i < j < v.len() ==> lex_le(#[trigger] v[i], #[trigger] v[j])
}

/// Sorts names in lexicographic order.
pub fn sort_names(v: Vec<String>) -> (r: Vec<String>)
    ensures
        views(r@).to_multiset() == views(v@).to_multiset(),
        sorted_names(views(r@)),
{
    broadcast use vstd::seq_lib::group_to_multiset_ensures;
    broadcast use vstd::multiset::group_multiset_axioms;
    let ghost m0 = views(v@).to_multiset();
    let mut rest = v;
    let mut out: Vec<String> = Vec::new();
    assert(views(out@) =~= Seq::<Seq<char>>::empty());
    assert(views(out@).to_multiset().add(views(rest@).to_multiset()) =~= m0);
    while rest.len() > 0
        invariant
            views(out@).to_multiset().add(views(rest@).to_multiset()) == m0,
            sorted_names(views(out@)),
            forall|i: int, j: int|
                0 <= i < out@.len() && 0 <= j < rest@.len() ==> lex_le(#[trigger] views(out@)[i], #[trigger] views(rest@)[j]),
        decreases rest@.len(),
    {
        let ghost rv = views(rest@);
        let mut best: usize = 0;
        let mut j: usize = 1;
        proof {
            lemma_lex_refl(rv[0]);
        }
        while j < rest.len()
            invariant
                rv == views(rest@),
                best < j <= rest@.len(),
                forall|q: int| 0 <= q < j ==> lex_le(rv[best as int], #[trigger] rv[q]),
            decreases rest@.len() - j,
        {
            assert(rv[j as int] == rest@[j as int]@ && rv[best as int] == rest@[best as int]@);
            if !text_le(rest[best].as_str(), rest[j].as_str()) {
                proof {
                    lemma_lex_total(rv[best as int], rv[j as int]);
                    assert forall|q: int| 0 <= q < j + 1 implies lex_le(rv[j as int], #[trigger] rv[q]) by {
                        if q < j {
                            lemma_lex_transitive(rv[j as int], rv[best as int], rv[q]);
                        } else {
                            lemma_lex_refl(rv[q]);
                        }
                    }
                }
                best = j;
            }
            j = j + 1;
        }
        let ghost ov = views(out@);
        let x = rest.remove(best);
        let ghost xv = x@;
        assert(xv == rv[best as int]);
        assert(views(rest@) =~= rv.remove(best as int));
        out.push(x);
        assert(views(out@) =~= ov.push(xv));
        proof {
            rv.to_multiset_ensures();
            ov.to_multiset_ensures();
            assert(rv.remove(best as int).to_multiset() =~= rv.to_multiset().remove(xv));
            assert(ov.push(xv).to_multiset() =~= ov.to_multiset().insert(xv));
            assert(rv.to_multiset().count(xv) > 0) by {
                assert(rv.contains(xv));
            }
            assert(views(out@).to_multiset().add(views(rest@).to_multiset()) =~= m0);
            assert forall|a: int, b: int| 0 <= a < b < views(out@).len() implies lex_le(
                #[trigger] views(out@)[a],
                #[trigger] views(out@)[b],
            ) by {
                if b == ov.len() {
                    assert(lex_le(ov[a], rv[best as int]));
                } else {
                    assert(lex_le(ov[a], ov[b]));
                }
            }
            assert forall|a: int, b: int|
                0 <= a < out@.len() && 0 <= b < rest@.len() implies lex_le(
                    #[trigger] views(out@)[a],
                    #[trigger] views(rest@)[b],
                ) by {
                let bb = if b < best { b } else { b + 1 };
                assert(views(rest@)[b] == rv[bb]);
                if a == ov.len() {
                    assert(lex_le(rv[best as int], rv[bb]));
                } else {
                    assert(lex_le(ov[a], rv[bb]));
                }
            }
        }
    }
    assert(views(rest@) =~= Seq::<Seq<char>>::empty());
    assert(views(rest@).to_multiset() =~= vstd::multiset::Multiset::empty());
    assert(views(out@).to_multiset() =~= m0);
    out
}

/// The lines of the build file that declares an analysis target for each module, the
/// modules in lexicographic order. Also gives that order.
pub fn generate(modules: Vec<String>) -> (r: (Vec<String>, Vec<String>))
    ensures
        views(r.1@).to_multiset() == views(modules@).to_multiset(),
        sorted_names(views(r.1@)),
        views(r.0@) == build_file_of(views(r.1@)),
{
    let sorted = sort_names(modules);
    let mut lines: Vec<String> = Vec::new();
    lines.push(String::from_str(BUILD_FILE_HEADER));
    let ghost sv = views(sorted@);
    assert(views(lines@) =~= build_file_of(sv.take(0)));
    let mut i: usize = 0;
    while i < sorted.len()
        invariant
            i <= sorted@.len(),
            sv == views(sorted@),
            views(lines@) == build_file_of(sv.take(i as int)),
        decreases sorted@.len() - i,
    {
        assert(sv.take(i + 1).drop_last() =~= sv.take(i as int));
        assert(sv[i as int] == sorted@[i as int]@);
        let ghost before = views(lines@);
        lines.push(String::new());
        let mut line = String::from_str("aeriform(\"");
        line.append(sorted[i].as_str());
        line.append("\")");
        lines.push(line);
        assert(views(lines@) =~= before + seq![Seq::<char>::empty(), "aeriform(\""@ + sv[i as int] + "\")"@]);
        i = i + 1;
    }
    assert(sv.take(sorted@.len() as int) =~= sv);
    (lines, sorted)
}

/// A class name of the codebase's own packages.
pub open spec fn harness_name(n: Seq<char>) -> bool {
    starts_with(n, "io.harness."@) || starts_with(n, "software.wings."@)
}

/// The dependency table that a list of class-to-class edges gives: for each class of the
/// codebase, the classes of the codebase it depends on, in the order of the edges.
pub open spec fn dependency_table_of(edges: Seq<(String, String)>) -> Map<Seq<char>, Seq<Seq<char>>>
    decreases edges.len(),
{
    if edges.len() == 0 {
        Map::empty()
    } else {
        let m = dependency_table_of(edges.drop_last());
        let a = edges.last().0@;
        let b = edges.last().1@;
        if harness_name(a) && harness_name(b) {
            m.insert(a, if m.contains_key(a) { m[a].push(b) } else { seq![b] })
        } else {
            m
        }
    }
}

/// The base classes of generated protocol types.
pub open spec fn proto_bases() -> Seq<Seq<char>> {
    seq!["com.google.protobuf.UnknownFieldSet"@, "com.google.protobuf.ProtocolMessageEnum"@, "io.grpc.stub.AbstractStub"@]
}

/// The classes of the codebase that an edge shows to build on a protocol base class.
pub open spec fn proto_classes_of(edges: Seq<(String, String)>) -> Set<Seq<char>> {
    Set::new(|n: Seq<char>| harness_name(n) && exists|i: int| 0 <= i < edges.len() && #[trigger] edges[i].0@ == n && proto_bases().contains(edges[i].1@))
}

/// Whether a class is one of the protocol base classes.
fn is_proto_base(n: &String) -> (r: bool)
    ensures
        r == proto_bases().contains(n@),
{
    let a = String::from_str("com.google.protobuf.UnknownFieldSet");
    let b = String::from_str("com.google.protobuf.ProtocolMessageEnum");
    let c = String::from_str("io.grpc.stub.AbstractStub");
    let r = *n == a || *n == b || *n == c;
    proof {
        let s = proto_bases();
        if r {
            if n@ == a@ { assert(s[0] == n@); } else if n@ == b@ { assert(s[1] == n@); } else { assert(s[2] == n@); }
        } else if s.contains(n@) {
            let i = choose|i: int| 0 <= i < s.len() && s[i] == n@;
            assert(i == 0 || i == 1 || i == 2);
        }
    }
    r
}

/// The tables that the class-to-class edges of a module give: the dependencies among the
/// codebase's own classes, and the codebase's classes that build on a protocol base class,
/// each once.
pub fn dependency_tables(edges: &Vec<(String, String)>) -> (r: (MultiMap<String, String>, Vec<String>))
    ensures
        multimap_entries(r.0) == dependency_table_of(edges@),
        views(r.1@).no_duplicates(),
        name_set(r.1@) == proto_classes_of(edges@),
{
    let mut table = new_multimap();
    let mut protos: Vec<String> = Vec::new();
    let mut i: usize = 0;
    assert(edges@.take(0) =~= Seq::<(String, String)>::empty());
    assert(multimap_entries(table) =~= dependency_table_of(edges@.take(0)));
    assert(name_set(protos@) =~= proto_classes_of(edges@.take(0)));
    while i < edges.len()
        invariant
            i <= edges@.len(),
            multimap_entries(table) == dependency_table_of(edges@.take(i as int)),
            views(protos@).no_duplicates(),
            name_set(protos@) == proto_classes_of(edges@.take(i as int)),
        decreases edges@.len() - i,
    {
        let (from, to) = &edges[i];
        assert(edges@.take(i + 1).drop_last() =~= edges@.take(i as int));
        assert(edges@.take(i + 1).last() == edges@[i as int]);
        let harness_from = is_harness_class(from);
        if harness_from && is_harness_class(to) {
            multimap_insert(&mut table, from.clone(), to.clone());
        }
        let ghost before = protos@;
        if harness_from && is_proto_base(to) && !contains_name(&protos, from) {
            protos.push(from.clone());
            proof {
                assert(views(protos@) =~= views(before).push(from@));
                assert forall|a: int, b: int| 0 <= a < b < views(protos@).len() implies views(protos@)[a] != views(protos@)[b] by {
                    assert(views(before)[a] == views(protos@)[a]);
                    if b < before.len() {
                        assert(views(before)[b] == views(protos@)[b]);
                    } else {
                        assert(name_set(before).contains(views(before)[a]));
                    }
                }
            }
        }
        proof {
            let e0 = edges@.take(i as int);
            let e1 = edges@.take(i + 1);
            assert forall|n: Seq<char>| name_set(protos@).contains(n) <==> proto_classes_of(e1).contains(n) by {
                if proto_classes_of(e1).contains(n) {
                    let q = choose|q: int| 0 <= q < e1.len() && #[trigger] e1[q].0@ == n && proto_bases().contains(e1[q].1@);
                    if q < i {
                        assert(e0[q] == e1[q]);
                        assert(proto_classes_of(e0).contains(n));
                        assert(name_set(before).contains(n));
                        let a = choose|a: int| 0 <= a < views(before).len() && views(before)[a] == n;
                        assert(views(protos@)[a] == n);
                    } else if !name_set(before).contains(n) {
                        assert(views(protos@)[before.len() as int] == n);
                    } else {
                        let a = choose|a: int| 0 <= a < views(before).len() && views(before)[a] == n;
                        assert(views(protos@)[a] == n);
                    }
                }
                if name_set(protos@).contains(n) {
                    let a = choose|a: int| 0 <= a < views(protos@).len() && views(protos@)[a] == n;
                    if a < before.len() {
                        assert(views(before)[a] == n);
                        assert(name_set(before).contains(n));
                        let q = choose|q: int| 0 <= q < e0.len() && #[trigger] e0[q].0@ == n && proto_bases().contains(e0[q].1@);
                        assert(e1[q] == e0[q]);
                    } else {
                        assert(e1[i as int] == edges@[i as int]);
                    }
                }
            }
            assert(name_set(protos@) =~= proto_classes_of(e1));
        }
        i = i + 1;
    }
    assert(edges@.take(edges@.len() as int) =~= edges@);
    (table, protos)
}

/// A class with no source file, as `external_class` builds it from a dependency table: no
/// location, package, target module or declared break, no team, and its dependencies from
/// the table, each once.
pub open spec fn external_class_of(c: JavaClass, dependencies: MultiMap<String, String>) -> bool {
    &&& c.location@ == "n/a"@
    &&& c.package is None
    &&& c.target_module is None
    &&& c.team is None
    &&& c.break_dependencies_on@.len() == 0
    &&& views(c.dependencies@).no_duplicates()
    &&& name_set(c.dependencies@) == if multimap_entries(dependencies).contains_key(c.name@) {
        multimap_entries(dependencies)[c.name@].to_set()
    } else {
        Set::empty()
    }
}

/// Some class of `srcs` is named `n`.
pub open spec fn has_class_named(srcs: Seq<JavaClass>, n: Seq<char>) -> bool {
    exists|k: int| 0 <= k < srcs.len() && #[trigger] srcs[k].name@ == n
}

/// One of the first `upto` edges starts from the class named `n`.
pub open spec fn edge_source(edges: Seq<(String, String)>, n: Seq<char>, upto: int) -> bool {
    exists|q: int| 0 <= q < upto && #[trigger] edges[q].0@ == n
}

/// The index of a module known only from its jar: above every layer of the codebase.
pub const EXTERNAL_MODULE_INDEX: u64 = 10000;

/// A module known only from its jar: one external class for each class of the codebase that
/// an edge starts from, in order of first appearance, with its dependencies from the table.
pub fn external_module(name: &str, jar: String, edges: &Vec<(String, String)>, dependencies: &MultiMap<String, String>) -> (r: JavaModule)
    ensures
        r.name@ == name@,
        !r.deprecated,
        r.index == EXTERNAL_MODULE_INDEX,
        r.directory@ == "n/a"@,
        r.jar == jar,
        r.dependencies@.len() == 0,
        forall|k: int| 0 <= k < r.srcs@.len() ==> external_class_of(#[trigger] r.srcs@[k], *dependencies),
        forall|a: int, b: int| 0 <= a < b < r.srcs@.len() ==> r.srcs@[a].name@ != r.srcs@[b].name@,
        forall|n: Seq<char>|
            #![trigger has_class_named(r.srcs@, n)]
            #![trigger edge_source(edges@, n, edges@.len() as int)]
            has_class_named(r.srcs@, n) <==> (harness_name(n) && edge_source(edges@, n, edges@.len() as int)),
{
    let mut srcs: Vec<JavaClass> = Vec::new();
    let mut seen: Vec<String> = Vec::new();
    let mut i: usize = 0;
    while i < edges.len()
        invariant
            i <= edges@.len(),
            srcs@.len() == seen@.len(),
            forall|k: int| 0 <= k < srcs@.len() ==> (#[trigger] srcs@[k]).name@ == seen@[k]@ && external_class_of(srcs@[k], *dependencies),
            forall|a: int, b: int| 0 <= a < b < seen@.len() ==> seen@[a]@ != seen@[b]@,
            forall|n: Seq<char>|
                #![trigger holds_name(seen@, n)]
                #![trigger edge_source(edges@, n, i as int)]
                holds_name(seen@, n) <==> (harness_name(n) && edge_source(edges@, n, i as int)),
        decreases edges@.len() - i,
    {
        let from = &edges[i].0;
        let ghost before = seen@;
        if is_harness_class(from) && !contains_name(&seen, from) {
            seen.push(from.clone());
            srcs.push(external_class(from.as_str(), dependencies, None));
        }
        proof {
            assert forall|n: Seq<char>| holds_name(seen@, n) <==> (harness_name(n) && edge_source(edges@, n, i + 1)) by {
                if holds_name(seen@, n) {
                    let k = choose|k: int| 0 <= k < seen@.len() && #[trigger] seen@[k]@ == n;
                    if k < before.len() {
                        assert(before[k]@ == n);
                        assert(holds_name(before, n));
                        let q = choose|q: int| 0 <= q < i && #[trigger] edges@[q].0@ == n;
                    } else {
                        assert(edges@[i as int].0@ == n);
                    }
                }
                if harness_name(n) && edge_source(edges@, n, i + 1) {
                    let q = choose|q: int| 0 <= q < i + 1 && #[trigger] edges@[q].0@ == n;
                    if q < i {
                        assert(edge_source(edges@, n, i as int));
                        let k = choose|k: int| 0 <= k < before.len() && #[trigger] before[k]@ == n;
                        assert(seen@[k]@ == n);
                    } else if holds_name(before, n) {
                        let k = choose|k: int| 0 <= k < before.len() && #[trigger] before[k]@ == n;
                        assert(seen@[k]@ == n);
                    } else {
                        assert(seen@[before.len() as int]@ == n);
                    }
                }
            }
        }
        i = i + 1;
    }
    assert forall|n: Seq<char>| has_class_named(srcs@, n) <==> holds_name(seen@, n) by {
        if has_class_named(srcs@, n) {
            let k = choose|k: int| 0 <= k < srcs@.len() && #[trigger] srcs@[k].name@ == n;
            assert(seen@[k]@ == n);
        }
        if holds_name(seen@, n) {
            let k = choose|k: int| 0 <= k < seen@.len() && #[trigger] seen@[k]@ == n;
            assert(srcs@[k].name@ == n);
        }
    }
    JavaModule {
        name: String::from_str(name),
        deprecated: false,
        index: EXTERNAL_MODULE_INDEX,
        directory: String::from_str("n/a"),
        jar,
        srcs,
        dependencies: Vec::new(),
    }
}

} // verus!
