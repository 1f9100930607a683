use vstd::prelude::*;

use multimap::MultiMap;

use crate::model::{JavaClass, JavaModule};
use crate::text::{contains_name, holds_name, views};

verus! {

#[verifier::external_type_specification]
#[verifier::external_body]
#[verifier::reject_recursive_types(K)]
#[verifier::reject_recursive_types(V)]
#[verifier::reject_recursive_types(S)]
pub struct ExMultiMap<K, V, S>(MultiMap<K, V, S>);

/// What a multimap of names holds: each key with the values inserted under it, in order.
pub uninterp spec fn multimap_entries(m: MultiMap<String, String>) -> Map<Seq<char>, Seq<Seq<char>>>;

/// Relies on multimap::MultiMap::new: the map starts with no keys.
#[verifier::external_body]
pub(crate) fn new_multimap() -> (m: MultiMap<String, String>)
    ensures
        multimap_entries(m).dom().is_empty(),
{
    MultiMap::new()
}

/// Relies on multimap::MultiMap::insert: the value is appended to the key's list,
/// which is created when the key is new.
#[verifier::external_body]
pub(crate) fn multimap_insert(m: &mut MultiMap<String, String>, k: String, v: String)
    ensures
        multimap_entries(*final(m)) == multimap_entries(*old(m)).insert(
            k@,
            if multimap_entries(*old(m)).contains_key(k@) {
                multimap_entries(*old(m))[k@].push(v@)
            } else {
                seq![v@]
            },
        ),
{
    m.insert(k, v)
}

/// Relies on multimap::MultiMap::get_vec: the list of the key, when the key is present.
#[verifier::external_body]
pub(crate) fn multimap_get<'a>(m: &'a MultiMap<String, String>, k: &str) -> (r: Option<
    &'a Vec<String>,
>)
    ensures
        match r {
            Some(v) => multimap_entries(*m).contains_key(k@) && views(v@) == multimap_entries(
                *m,
            )[k@],
            None => !multimap_entries(*m).contains_key(k@),
        },
{
    m.get_vec(k)
}

/// Where the class that owns a name sits: a module and a position among its sources.
#[derive(Clone, Copy)]
pub struct ClassOwner {
    pub module: usize,
    pub src: usize,
}

/// The module graph with the owner of each class and the dependees of each class.
pub struct ClassGraph {
    pub modules: Vec<JavaModule>,
    /// One entry per distinct class name.
    pub class_modules: Vec<ClassOwner>,
    /// For each class name, the classes that depend on it.
    pub class_dependees: MultiMap<String, String>,
}

/// `(m, s)` is a source position of the modules.
pub open spec fn occurs(ms: Seq<JavaModule>, m: int, s: int) -> bool {
    0 <= m < ms.len() && 0 <= s < ms[m].srcs@.len()
}

/// The class at a source position.
pub open spec fn class_at(ms: Seq<JavaModule>, m: int, s: int) -> JavaClass {
    ms[m].srcs@[s]
}

/// Some module is named `n`.
pub open spec fn has_module(ms: Seq<JavaModule>, n: Seq<char>) -> bool {
    exists|i: int| module_named(ms, n, i)
}

/// Module `i` is named `n`.
pub open spec fn module_named(ms: Seq<JavaModule>, n: Seq<char>, i: int) -> bool {
    0 <= i < ms.len() && ms[i].name@ == n
}

/// The position of the module named `n`.
pub open spec fn find_module(ms: Seq<JavaModule>, n: Seq<char>) -> Option<int> {
    if has_module(ms, n) {
        Some(choose|i: int| module_named(ms, n, i))
    } else {
        None
    }
}

/// No two modules share a name.
pub open spec fn unique_module_names(ms: Seq<JavaModule>) -> bool {
    forall|i: int, j: int|
        0 <= i < ms.len() && #[trigger] module_named(ms, ms[i].name@, j) ==> i == j
}

/// The class an owner entry points at.
pub open spec fn owned_class(ms: Seq<JavaModule>, o: ClassOwner) -> JavaClass {
    class_at(ms, o.module as int, o.src as int)
}

/// Owner entry `k` is for the class named `n`.
pub open spec fn owner_named(ms: Seq<JavaModule>, os: Seq<ClassOwner>, n: Seq<char>, k: int) -> bool {
    0 <= k < os.len() && owned_class(ms, os[k]).name@ == n
}

/// Some owner entry is for the class named `n`.
pub open spec fn has_owner(ms: Seq<JavaModule>, os: Seq<ClassOwner>, n: Seq<char>) -> bool {
    exists|k: int| owner_named(ms, os, n, k)
}

/// The owner entry of the class named `n`.
pub open spec fn find_owner(ms: Seq<JavaModule>, os: Seq<ClassOwner>, n: Seq<char>) -> Option<int> {
    if has_owner(ms, os, n) {
        Some(choose|k: int| owner_named(ms, os, n, k))
    } else {
        None
    }
}

/// Owner `o` takes precedence over the source position `(m, s)`: its module has a higher
/// index, or the same index and comes first.
pub open spec fn owner_wins(ms: Seq<JavaModule>, o: ClassOwner, m: int, s: int) -> bool {
    ms[m].index < ms[o.module as int].index || (ms[m].index == ms[o.module as int].index && (
    o.module < m || (o.module == m && o.src <= s)))
}

/// The owner table is exact: valid entries, one per name, and each name owned by the
/// occurrence that takes precedence over all others.
pub open spec fn ownership(ms: Seq<JavaModule>, os: Seq<ClassOwner>) -> bool {
    &&& forall|k: int| 0 <= k < os.len() ==> occurs(ms, #[trigger] os[k].module as int, os[k].src as int)
    &&& forall|k1: int, k2: int|
        0 <= k1 < os.len() && #[trigger] owner_named(ms, os, owned_class(ms, os[k1]).name@, k2)
            ==> k1 == k2
    &&& forall|m: int, s: int|
        #[trigger] occurs(ms, m, s) ==> exists|k: int| owner_named(ms, os, class_at(ms, m, s).name@, k) && owner_wins(ms, os[k], m, s)
}

/// Class `v` declares a dependency on the class named `d` somewhere in the modules.
pub open spec fn declared_dependee(ms: Seq<JavaModule>, d: Seq<char>, v: Seq<char>) -> bool {
    exists|m: int, s: int|
        #[trigger] occurs(ms, m, s) && class_at(ms, m, s).name@ == v && holds_name(
            class_at(ms, m, s).dependencies@,
            d,
        )
}

/// The table lists `v` under the key `d`.
pub open spec fn lists(e: Map<Seq<char>, Seq<Seq<char>>>, d: Seq<char>, v: Seq<char>) -> bool {
    e.contains_key(d) && e[d].contains(v)
}

/// The dependee table lists, under each class name, exactly the classes that depend on it.
pub open spec fn dependees_exact(ms: Seq<JavaModule>, e: Map<Seq<char>, Seq<Seq<char>>>) -> bool {
    forall|d: Seq<char>, v: Seq<char>|
        #![trigger lists(e, d, v)]
        #![trigger declared_dependee(ms, d, v)]
        lists(e, d, v) <==> declared_dependee(ms, d, v)
}

/// Classes `s1` and `s2` of module `m` share a name.
pub open spec fn same_class_name(ms: Seq<JavaModule>, m: int, s1: int, s2: int) -> bool {
    class_at(ms, m, s1).name@ == class_at(ms, m, s2).name@
}

/// No list of the graph repeats a name: a module lists each class once, and no module or
/// class names the same dependency or break twice.
pub open spec fn no_repeats(ms: Seq<JavaModule>) -> bool {
    &&& forall|m: int| 0 <= m < ms.len() ==> views(#[trigger] ms[m].dependencies@).no_duplicates()
    &&& forall|m: int, s: int|
        #[trigger] occurs(ms, m, s) ==> views(class_at(ms, m, s).dependencies@).no_duplicates() && views(
            class_at(ms, m, s).break_dependencies_on@,
        ).no_duplicates()
    &&& forall|m: int, s1: int, s2: int|
        occurs(ms, m, s1) && occurs(ms, m, s2) && #[trigger] same_class_name(ms, m, s1, s2) ==> s1 == s2
}

/// Every name that a class refers to is a class, and every module dependency is a module.
pub open spec fn names_resolve(ms: Seq<JavaModule>, os: Seq<ClassOwner>) -> bool {
    &&& unique_module_names(ms)
    &&& no_repeats(ms)
    &&& forall|m: int, s: int, t: int|
        occurs(ms, m, s) && 0 <= t < class_at(ms, m, s).dependencies@.len() ==> has_owner(ms, os, #[trigger] class_at(ms, m, s).dependencies@[t]@)
    &&& forall|m: int, s: int, t: int|
        occurs(ms, m, s) && 0 <= t < class_at(ms, m, s).break_dependencies_on@.len()
            ==> has_owner(ms, os, #[trigger] class_at(ms, m, s).break_dependencies_on@[t]@)
    &&& forall|m: int, t: int|
        0 <= m < ms.len() && 0 <= t < ms[m].dependencies@.len() ==> has_module(ms, #[trigger] ms[m].dependencies@[t]@)
}

impl ClassGraph {
    pub open spec fn ms(&self) -> Seq<JavaModule> {
        self.modules@
    }

    pub open spec fn os(&self) -> Seq<ClassOwner> {
        self.class_modules@
    }

    pub open spec fn dependees(&self) -> Map<Seq<char>, Seq<Seq<char>>> {
        multimap_entries(self.class_dependees)
    }

    /// The class of owner entry `k`.
    pub open spec fn class_of(&self, k: int) -> JavaClass {
        owned_class(self.ms(), self.os()[k])
    }

    /// The graph as the builder leaves it.
    pub open spec fn built(&self) -> bool {
        ownership(self.ms(), self.os()) && dependees_exact(self.ms(), self.dependees())
    }

    /// A graph that the checks can run on.
    pub open spec fn wf(&self) -> bool {
        self.built() && names_resolve(self.ms(), self.os())
    }
}

/// Source position `(m, s)` comes before position `(i, j)`.
pub open spec fn before(m: int, s: int, i: int, j: int) -> bool {
    m < i || (m == i && s < j)
}

/// The owner table is exact for the source positions before `(i, j)`.
pub open spec fn ownership_upto(ms: Seq<JavaModule>, os: Seq<ClassOwner>, i: int, j: int) -> bool {
    &&& forall|k: int|
        0 <= k < os.len() ==> occurs(ms, #[trigger] os[k].module as int, os[k].src as int)
            && before(os[k].module as int, os[k].src as int, i, j)
    &&& forall|k1: int, k2: int|
        0 <= k1 < os.len() && #[trigger] owner_named(ms, os, owned_class(ms, os[k1]).name@, k2)
            ==> k1 == k2
    &&& forall|m: int, s: int|
        #[trigger] occurs(ms, m, s) && before(m, s, i, j) ==> exists|k: int| owner_named(ms, os, class_at(ms, m, s).name@, k) && owner_wins(ms, os[k], m, s)
}

/// Class `v` declares a dependency on `d` at a source position before `(i, j)`, or at
/// `(i, j)` among its first `t` dependencies.
pub open spec fn declared_upto(
    ms: Seq<JavaModule>,
    d: Seq<char>,
    v: Seq<char>,
    i: int,
    j: int,
    t: int,
) -> bool {
    (exists|m: int, s: int|
        #[trigger] occurs(ms, m, s) && before(m, s, i, j) && class_at(ms, m, s).name@ == v
            && holds_name(class_at(ms, m, s).dependencies@, d)) || (occurs(ms, i, j) && class_at(
        ms,
        i,
        j,
    ).name@ == v && exists|u: int|
        0 <= u < t && #[trigger] class_at(ms, i, j).dependencies@[u]@ == d)
}

/// The dependee table is exact for what was declared before `(i, j, t)`.
pub open spec fn dependees_upto(
    ms: Seq<JavaModule>,
    e: Map<Seq<char>, Seq<Seq<char>>>,
    i: int,
    j: int,
    t: int,
) -> bool {
    forall|d: Seq<char>, v: Seq<char>|
        #![trigger lists(e, d, v)]
        #![trigger declared_upto(ms, d, v, i, j, t)]
        lists(e, d, v) <==> declared_upto(ms, d, v, i, j, t)
}

/// The owner entry of the class named `n`, if there is one.
pub fn find_class(ms: &Vec<JavaModule>, os: &Vec<ClassOwner>, n: &String) -> (r: Option<usize>)
    requires
        forall|k: int| 0 <= k < os@.len() ==> occurs(ms@, #[trigger] os@[k].module as int, os@[k].src as int),
    ensures
        match r {
            Some(k) => owner_named(ms@, os@, n@, k as int),
            None => forall|k: int| !owner_named(ms@, os@, n@, k),
        },
{
    let mut k: usize = 0;
    while k < os.len()
        invariant
            k <= os@.len(),
            forall|q: int| 0 <= q < os@.len() ==> occurs(ms@, #[trigger] os@[q].module as int, os@[q].src as int),
            forall|q: int| 0 <= q < k ==> !owner_named(ms@, os@, n@, q),
        decreases os.len() - k,
    {
        let o = os[k];
        assert(occurs(ms@, os@[k as int].module as int, os@[k as int].src as int));
        if ms[o.module].srcs[o.src].name == *n {
            return Some(k);
        }
        k = k + 1;
    }
    None
}

/// The module named `n`, if there is one.
pub fn find_module_index(ms: &Vec<JavaModule>, n: &String) -> (r: Option<usize>)
    ensures
        match r {
            Some(i) => module_named(ms@, n@, i as int),
            None => forall|i: int| !module_named(ms@, n@, i),
        },
{
    let mut i: usize = 0;
    while i < ms.len()
        invariant
            i <= ms@.len(),
            forall|q: int| 0 <= q < i ==> !module_named(ms@, n@, q),
        decreases ms.len() - i,
    {
        if ms[i].name == *n {
            return Some(i);
        }
        i = i + 1;
    }
    None
}

proof fn lemma_owner_push(ms: Seq<JavaModule>, os: Seq<ClassOwner>, i: usize, j: usize)
    requires
        ownership_upto(ms, os, i as int, j as int),
        occurs(ms, i as int, j as int),
        forall|k: int| !owner_named(ms, os, class_at(ms, i as int, j as int).name@, k),
    ensures
        ownership_upto(ms, os.push(ClassOwner { module: i, src: j }), i as int, j + 1),
{
    let o = ClassOwner { module: i, src: j };
    let os2 = os.push(o);
    assert(os2[os.len() as int] == o);
    assert forall|k: int| 0 <= k < os2.len() implies occurs(ms, #[trigger] os2[k].module as int, os2[k].src as int)
        && before(os2[k].module as int, os2[k].src as int, i as int, j + 1) by {
        if k < os.len() {
            assert(os2[k] == os[k]);
        }
    }
    assert forall|k1: int, k2: int|
        0 <= k1 < os2.len() && #[trigger] owner_named(ms, os2, owned_class(ms, os2[k1]).name@, k2)
        implies k1 == k2 by {
        if k1 < os.len() {
            assert(os2[k1] == os[k1]);
        }
        if k2 < os.len() {
            assert(os2[k2] == os[k2]);
        }
        if k1 < os.len() && k2 < os.len() {
            assert(owner_named(ms, os, owned_class(ms, os[k1]).name@, k2));
        } else if k1 < os.len() {
            assert(owner_named(ms, os, class_at(ms, i as int, j as int).name@, k1));
        } else if k2 < os.len() {
            assert(owner_named(ms, os, class_at(ms, i as int, j as int).name@, k2));
        }
    }
    assert forall|m: int, s: int| #[trigger] occurs(ms, m, s) && before(m, s, i as int, j + 1) implies exists|k: int| owner_named(ms, os2, class_at(ms, m, s).name@, k) && owner_wins(ms, os2[k], m, s) by {
        if before(m, s, i as int, j as int) {
            let k = choose|k: int| owner_named(ms, os, class_at(ms, m, s).name@, k) && owner_wins(ms, os[k], m, s);
            assert(os2[k] == os[k]);
            assert(owner_named(ms, os2, class_at(ms, m, s).name@, k));
        } else {
            assert(m == i && s == j);
            assert(owner_named(ms, os2, class_at(ms, m, s).name@, os.len() as int));
        }
    }
}

proof fn lemma_owner_keep(ms: Seq<JavaModule>, os: Seq<ClassOwner>, i: int, j: int, k: int)
    requires
        ownership_upto(ms, os, i, j),
        occurs(ms, i, j),
        owner_named(ms, os, class_at(ms, i, j).name@, k),
        ms[os[k].module as int].index >= ms[i].index,
    ensures
        ownership_upto(ms, os, i, j + 1),
{
    assert forall|q: int| 0 <= q < os.len() implies occurs(ms, #[trigger] os[q].module as int, os[q].src as int)
        && before(os[q].module as int, os[q].src as int, i, j + 1) by {
    }
    assert forall|m: int, s: int| #[trigger] occurs(ms, m, s) && before(m, s, i, j + 1) implies exists|q: int|
        owner_named(ms, os, class_at(ms, m, s).name@, q) && owner_wins(ms, os[q], m, s) by {
        if !before(m, s, i, j) {
            assert(m == i && s == j);
            assert(occurs(ms, os[k].module as int, os[k].src as int));
            assert(owner_wins(ms, os[k], m, s));
        }
    }
}

proof fn lemma_owner_replace(ms: Seq<JavaModule>, os: Seq<ClassOwner>, i: usize, j: usize, k: int)
    requires
        ownership_upto(ms, os, i as int, j as int),
        occurs(ms, i as int, j as int),
        owner_named(ms, os, class_at(ms, i as int, j as int).name@, k),
        ms[os[k].module as int].index < ms[i as int].index,
    ensures
        ownership_upto(ms, os.update(k, ClassOwner { module: i, src: j }), i as int, j + 1),
{
    let o = ClassOwner { module: i, src: j };
    let os2 = os.update(k, o);
    let n = class_at(ms, i as int, j as int).name@;
    assert(os2[k] == o);
    assert forall|q: int| 0 <= q < os2.len() implies occurs(ms, #[trigger] os2[q].module as int, os2[q].src as int)
        && before(os2[q].module as int, os2[q].src as int, i as int, j + 1) by {
        if q != k {
            assert(os2[q] == os[q]);
        }
    }
    assert forall|q: int| 0 <= q < os2.len() implies #[trigger] owned_class(ms, os2[q]).name@ == owned_class(ms, os[q]).name@ by {
        if q != k {
            assert(os2[q] == os[q]);
        }
    }
    assert forall|k1: int, k2: int|
        0 <= k1 < os2.len() && #[trigger] owner_named(ms, os2, owned_class(ms, os2[k1]).name@, k2)
        implies k1 == k2 by {
        assert(owned_class(ms, os2[k1]).name@ == owned_class(ms, os[k1]).name@);
        assert(owned_class(ms, os2[k2]).name@ == owned_class(ms, os[k2]).name@);
        assert(owner_named(ms, os, owned_class(ms, os[k1]).name@, k2));
    }
    assert forall|m: int, s: int| #[trigger] occurs(ms, m, s) && before(m, s, i as int, j + 1) implies exists|q: int|
        owner_named(ms, os2, class_at(ms, m, s).name@, q) && owner_wins(ms, os2[q], m, s) by {
        if before(m, s, i as int, j as int) {
            let q = choose|q: int| owner_named(ms, os, class_at(ms, m, s).name@, q) && owner_wins(ms, os[q], m, s);
            assert(owned_class(ms, os2[q]).name@ == owned_class(ms, os[q]).name@);
            if q == k {
                assert(owner_named(ms, os2, class_at(ms, m, s).name@, k));
                assert(owner_wins(ms, os2[k], m, s));
            } else {
                assert(os2[q] == os[q]);
                assert(owner_named(ms, os2, class_at(ms, m, s).name@, q));
            }
        } else {
            assert(m == i && s == j);
            assert(owner_named(ms, os2, class_at(ms, m, s).name@, k));
        }
    }
}

proof fn lemma_declared_step(ms: Seq<JavaModule>, d: Seq<char>, w: Seq<char>, i: int, j: int, t: int)
    requires
        occurs(ms, i, j),
        0 <= t < class_at(ms, i, j).dependencies@.len(),
    ensures
        declared_upto(ms, d, w, i, j, t + 1) <==> (declared_upto(ms, d, w, i, j, t) || (
        class_at(ms, i, j).name@ == w && class_at(ms, i, j).dependencies@[t]@ == d)),
{
    let deps = class_at(ms, i, j).dependencies@;
    if (exists|u: int| 0 <= u < t + 1 && #[trigger] deps[u]@ == d) {
        let u = choose|u: int| 0 <= u < t + 1 && #[trigger] deps[u]@ == d;
        if u < t {
            assert(exists|u: int| 0 <= u < t && #[trigger] deps[u]@ == d);
        }
    }
    if deps[t]@ == d {
        assert(exists|u: int| 0 <= u < t + 1 && #[trigger] deps[u]@ == d);
    }
    if (exists|u: int| 0 <= u < t && #[trigger] deps[u]@ == d) {
        let u = choose|u: int| 0 <= u < t && #[trigger] deps[u]@ == d;
        assert(exists|u: int| 0 <= u < t + 1 && #[trigger] deps[u]@ == d);
    }
}

proof fn lemma_push_contains(s: Seq<Seq<char>>, v: Seq<char>, w: Seq<char>)
    ensures
        s.push(v).contains(w) <==> (s.contains(w) || w == v),
        seq![v].contains(w) <==> w == v,
{
    if s.push(v).contains(w) {
        let x = choose|x: int| 0 <= x < s.push(v).len() && s.push(v)[x] == w;
        if x < s.len() {
            assert(s[x] == w);
        }
    }
    if s.contains(w) {
        let x = choose|x: int| 0 <= x < s.len() && s[x] == w;
        assert(s.push(v)[x] == w);
    }
    if w == v {
        assert(s.push(v)[s.len() as int] == w);
        assert(seq![v][0] == w);
    }
}

proof fn lemma_dependee_insert(
    ms: Seq<JavaModule>,
    e: Map<Seq<char>, Seq<Seq<char>>>,
    i: int,
    j: int,
    t: int,
)
    requires
        dependees_upto(ms, e, i, j, t),
        occurs(ms, i, j),
        0 <= t < class_at(ms, i, j).dependencies@.len(),
    ensures
        ({
            let dk = class_at(ms, i, j).dependencies@[t]@;
            let v = class_at(ms, i, j).name@;
            dependees_upto(
                ms,
                e.insert(dk, if e.contains_key(dk) { e[dk].push(v) } else { seq![v] }),
                i,
                j,
                t + 1,
            )
        }),
{
    let dk = class_at(ms, i, j).dependencies@[t]@;
    let v = class_at(ms, i, j).name@;
    let e2 = e.insert(dk, if e.contains_key(dk) { e[dk].push(v) } else { seq![v] });
    assert forall|d: Seq<char>, w: Seq<char>|
        #[trigger] lists(e2, d, w) <==> declared_upto(ms, d, w, i, j, t + 1) by {
        lemma_declared_step(ms, d, w, i, j, t);
        if e.contains_key(d) {
            assert(lists(e, d, w) <==> declared_upto(ms, d, w, i, j, t));
        } else {
            assert(!declared_upto(ms, d, w, i, j, t)) by {
                if declared_upto(ms, d, w, i, j, t) {
                    assert(lists(e, d, w));
                }
            }
        }
        if d == dk {
            if e.contains_key(dk) {
                lemma_push_contains(e[dk], v, w);
            } else {
                lemma_push_contains(Seq::empty(), v, w);
            }
        }
    }
}

proof fn lemma_dependee_next_src(ms: Seq<JavaModule>, e: Map<Seq<char>, Seq<Seq<char>>>, i: int, j: int)
    requires
        dependees_upto(ms, e, i, j, class_at(ms, i, j).dependencies@.len() as int),
        occurs(ms, i, j),
    ensures
        dependees_upto(ms, e, i, j + 1, 0),
{
    let n = class_at(ms, i, j).dependencies@.len() as int;
    assert forall|d: Seq<char>, w: Seq<char>|
        #[trigger] lists(e, d, w) <==> declared_upto(ms, d, w, i, j + 1, 0) by {
        assert(lists(e, d, w) <==> declared_upto(ms, d, w, i, j, n));
        if declared_upto(ms, d, w, i, j, n) {
            if !(exists|m: int, s: int|
                #[trigger] occurs(ms, m, s) && before(m, s, i, j) && class_at(ms, m, s).name@ == w
                    && holds_name(class_at(ms, m, s).dependencies@, d)) {
                let u = choose|u: int| 0 <= u < n && #[trigger] class_at(ms, i, j).dependencies@[u]@ == d;
                assert(holds_name(class_at(ms, i, j).dependencies@, d));
                assert(occurs(ms, i, j) && before(i, j, i, j + 1));
            } else {
                let (m, s) = choose|m: int, s: int|
                    #[trigger] occurs(ms, m, s) && before(m, s, i, j) && class_at(ms, m, s).name@ == w
                        && holds_name(class_at(ms, m, s).dependencies@, d);
                assert(before(m, s, i, j + 1));
            }
        }
        if declared_upto(ms, d, w, i, j + 1, 0) {
            let (m, s) = choose|m: int, s: int|
                #[trigger] occurs(ms, m, s) && before(m, s, i, j + 1) && class_at(ms, m, s).name@ == w
                    && holds_name(class_at(ms, m, s).dependencies@, d);
            if !before(m, s, i, j) {
                assert(m == i && s == j);
                let u = choose|u: int| 0 <= u < class_at(ms, i, j).dependencies@.len() && #[trigger] class_at(ms, i, j).dependencies@[u]@ == d;
                assert(0 <= u < n && class_at(ms, i, j).dependencies@[u]@ == d);
            }
        }
    }
}

proof fn lemma_dependee_next_module(ms: Seq<JavaModule>, e: Map<Seq<char>, Seq<Seq<char>>>, i: int)
    requires
        0 <= i < ms.len(),
        dependees_upto(ms, e, i, ms[i].srcs@.len() as int, 0),
    ensures
        dependees_upto(ms, e, i + 1, 0, 0),
{
    assert forall|d: Seq<char>, w: Seq<char>|
        #[trigger] lists(e, d, w) <==> declared_upto(ms, d, w, i + 1, 0, 0) by {
        assert(lists(e, d, w) <==> declared_upto(ms, d, w, i, ms[i].srcs@.len() as int, 0));
        if declared_upto(ms, d, w, i + 1, 0, 0) {
            let (m, s) = choose|m: int, s: int|
                #[trigger] occurs(ms, m, s) && before(m, s, i + 1, 0) && class_at(ms, m, s).name@ == w
                    && holds_name(class_at(ms, m, s).dependencies@, d);
            assert(before(m, s, i, ms[i].srcs@.len() as int));
        }
        if declared_upto(ms, d, w, i, ms[i].srcs@.len() as int, 0) {
            let (m, s) = choose|m: int, s: int|
                #[trigger] occurs(ms, m, s) && before(m, s, i, ms[i].srcs@.len() as int) && class_at(ms, m, s).name@ == w
                    && holds_name(class_at(ms, m, s).dependencies@, d);
            assert(before(m, s, i + 1, 0));
        }
    }
}

proof fn lemma_ownership_next_module(ms: Seq<JavaModule>, os: Seq<ClassOwner>, i: int)
    requires
        0 <= i < ms.len(),
        ownership_upto(ms, os, i, ms[i].srcs@.len() as int),
    ensures
        ownership_upto(ms, os, i + 1, 0),
{
    assert forall|q: int| 0 <= q < os.len() implies occurs(ms, #[trigger] os[q].module as int, os[q].src as int)
        && before(os[q].module as int, os[q].src as int, i + 1, 0) by {
    }
    assert forall|m: int, s: int| #[trigger] occurs(ms, m, s) && before(m, s, i + 1, 0) implies exists|k: int| owner_named(ms, os, class_at(ms, m, s).name@, k) && owner_wins(ms, os[k], m, s) by {
        assert(before(m, s, i, ms[i].srcs@.len() as int));
    }
}

/// Builds the graph: each class name is owned by the module of highest index that lists it
/// (the first such module on a tie), and each class name is mapped to the classes that
/// depend on it.
pub fn build_graph(modules: Vec<JavaModule>) -> (g: ClassGraph)
    ensures
        g.modules@ == modules@,
        g.built(),
{
    let mut owners: Vec<ClassOwner> = Vec::new();
    let mut dependees = new_multimap();
    let ghost ms = modules@;
    let mut i: usize = 0;
    assert(dependees_upto(ms, multimap_entries(dependees), 0, 0, 0));
    while i < modules.len()
        invariant
            ms == modules@,
            i <= ms.len(),
            ownership_upto(ms, owners@, i as int, 0),
            dependees_upto(ms, multimap_entries(dependees), i as int, 0, 0),
        decreases ms.len() - i,
    {
        let mut j: usize = 0;
        assert forall|d: Seq<char>, w: Seq<char>|
            declared_upto(ms, d, w, i as int, 0, 0) == declared_upto(ms, d, w, i as int, 0, 0) by {
        }
        while j < modules[i].srcs.len()
            invariant
                ms == modules@,
                i < ms.len(),
                j <= ms[i as int].srcs@.len(),
                ownership_upto(ms, owners@, i as int, j as int),
                dependees_upto(ms, multimap_entries(dependees), i as int, j as int, 0),
            decreases ms[i as int].srcs@.len() - j,
        {
            let class = &modules[i].srcs[j];
            assert(occurs(ms, i as int, j as int));
            match find_class(&modules, &owners, &class.name) {
                None => {
                    proof {
                        lemma_owner_push(ms, owners@, i, j);
                    }
                    owners.push(ClassOwner { module: i, src: j });
                },
                Some(k) => {
                    let o = owners[k];
                    if modules[o.module].index < modules[i].index {
                        proof {
                            lemma_owner_replace(ms, owners@, i, j, k as int);
                        }
                        owners.set(k, ClassOwner { module: i, src: j });
                    } else {
                        proof {
                            lemma_owner_keep(ms, owners@, i as int, j as int, k as int);
                        }
                    }
                },
            }
            let mut t: usize = 0;
            while t < class.dependencies.len()
                invariant
                    ms == modules@,
                    occurs(ms, i as int, j as int),
                    *class == class_at(ms, i as int, j as int),
                    t <= class.dependencies@.len(),
                    dependees_upto(ms, multimap_entries(dependees), i as int, j as int, t as int),
                decreases class.dependencies@.len() - t,
            {
                proof {
                    lemma_dependee_insert(ms, multimap_entries(dependees), i as int, j as int, t as int);
                }
                multimap_insert(&mut dependees, class.dependencies[t].clone(), class.name.clone());
                t = t + 1;
            }
            proof {
                lemma_dependee_next_src(ms, multimap_entries(dependees), i as int, j as int);
            }
            j = j + 1;
        }
        proof {
            lemma_dependee_next_module(ms, multimap_entries(dependees), i as int);
            lemma_ownership_next_module(ms, owners@, i as int);
        }
        i = i + 1;
    }
    let g = ClassGraph { modules, class_modules: owners, class_dependees: dependees };
    proof {
        assert forall|d: Seq<char>, w: Seq<char>|
            declared_upto(ms, d, w, ms.len() as int, 0, 0) <==> #[trigger] declared_dependee(ms, d, w) by {
            if declared_dependee(ms, d, w) {
                let (m, s) = choose|m: int, s: int|
                    #[trigger] occurs(ms, m, s) && class_at(ms, m, s).name@ == w && holds_name(class_at(ms, m, s).dependencies@, d);
                assert(before(m, s, ms.len() as int, 0));
            }
        }
        assert forall|m: int, s: int| #[trigger] occurs(ms, m, s) implies exists|k: int| owner_named(ms, owners@, class_at(ms, m, s).name@, k) && owner_wins(ms, owners@[k], m, s) by {
            assert(before(m, s, ms.len() as int, 0));
        }
    }
    g
}

/// With unique module names, the module found by name is the one named.
pub proof fn lemma_find_module_unique(ms: Seq<JavaModule>, n: Seq<char>, i: int)
    requires
        unique_module_names(ms),
        module_named(ms, n, i),
    ensures
        find_module(ms, n) == Some(i),
{
    let c = choose|c: int| module_named(ms, n, c);
    assert(module_named(ms, ms[c].name@, i));
}

/// With an exact owner table, the owner found by name is the one named.
pub proof fn lemma_find_owner_unique(ms: Seq<JavaModule>, os: Seq<ClassOwner>, n: Seq<char>, k: int)
    requires
        ownership(ms, os),
        owner_named(ms, os, n, k),
    ensures
        find_owner(ms, os, n) == Some(k),
{
    let c = choose|c: int| owner_named(ms, os, n, c);
    assert(owner_named(ms, os, owned_class(ms, os[c]).name@, k));
}

/// Why a graph cannot be analysed.
pub enum GraphError {
    /// Two modules share this name.
    DuplicateModule(String),
    /// A module depends on a module of this name, which the graph lacks.
    UnknownModule(String),
    /// A class names a class of this name, which the graph lacks.
    UnknownClass(String),
    /// A list of the graph holds this name twice.
    RepeatedName(String),
}

/// Modules `i` and `j` are distinct and both named `n`.
pub open spec fn named_twice(ms: Seq<JavaModule>, n: Seq<char>, i: int, j: int) -> bool {
    module_named(ms, n, i) && module_named(ms, n, j) && i != j
}

/// The error names a module that two modules share, or a name the graph cannot resolve.
pub open spec fn error_is_real(g: ClassGraph, e: GraphError) -> bool {
    match e {
        GraphError::DuplicateModule(n) => exists|i: int, j: int| named_twice(g.ms(), n@, i, j),
        GraphError::UnknownModule(n) => forall|i: int| !module_named(g.ms(), n@, i),
        GraphError::UnknownClass(n) => forall|k: int| !owner_named(g.ms(), g.os(), n@, k),
        GraphError::RepeatedName(n) => !no_repeats(g.ms()),
    }
}

/// Each name of `names` is owned by a class of the graph, or the first that is not.
fn check_names(graph: &ClassGraph, names: &Vec<String>) -> (r: Result<(), GraphError>)
    requires
        graph.built(),
    ensures
        r is Ok <==> forall|t: int| 0 <= t < names@.len() ==> has_owner(graph.ms(), graph.os(), #[trigger] names@[t]@),
        r matches Err(e) ==> error_is_real(*graph, e),
{
    let mut t: usize = 0;
    while t < names.len()
        invariant
            graph.built(),
            t <= names@.len(),
            forall|q: int| 0 <= q < t ==> has_owner(graph.ms(), graph.os(), #[trigger] names@[q]@),
        decreases names@.len() - t,
    {
        match find_class(&graph.modules, &graph.class_modules, &names[t]) {
            None => {
                assert(!(has_owner(graph.ms(), graph.os(), names@[t as int]@)));
                return Err(GraphError::UnknownClass(names[t].clone()));
            },
            Some(k) => {
                assert(owner_named(graph.ms(), graph.os(), names@[t as int]@, k as int));
            },
        }
        t = t + 1;
    }
    Ok(())
}

/// Checks that the graph can be analysed: module names are unique, and every name that a
/// class or module refers to resolves; otherwise gives the first offending name.
pub fn validate(graph: &ClassGraph) -> (r: Result<(), GraphError>)
    requires
        graph.built(),
    ensures
        r is Ok <==> names_resolve(graph.ms(), graph.os()),
        r matches Err(e) ==> error_is_real(*graph, e),
{
    let ghost ms = graph.ms();
    match check_repeats(&graph.modules) {
        Err(e) => {
            return Err(e);
        },
        Ok(()) => {},
    }
    let mut i: usize = 0;
    while i < graph.modules.len()
        invariant
            ms == graph.ms(),
            i <= ms.len(),
            forall|a: int, b: int| 0 <= a < i && #[trigger] module_named(ms, ms[a].name@, b) ==> a == b,
        decreases ms.len() - i,
    {
        let mut j: usize = 0;
        while j < graph.modules.len()
            invariant
                ms == graph.ms(),
                i < ms.len(),
                j <= ms.len(),
                forall|a: int, b: int| 0 <= a < i && #[trigger] module_named(ms, ms[a].name@, b) ==> a == b,
                forall|b: int| 0 <= b < j && #[trigger] module_named(ms, ms[i as int].name@, b) ==> i == b,
            decreases ms.len() - j,
        {
            if j != i && graph.modules[i].name == graph.modules[j].name {
                let n = graph.modules[i].name.clone();
                assert(module_named(ms, n@, i as int));
                assert(module_named(ms, n@, j as int));
                let e = GraphError::DuplicateModule(n);
                assert(error_is_real(*graph, e)) by {
                    assert(named_twice(graph.ms(), n@, i as int, j as int));
                    assert(e is DuplicateModule);
                    assert(e->DuplicateModule_0 == n);
                    assert(exists|a: int, b: int| named_twice(graph.ms(), n@, a, b));
                }
                return Err(e);
            }
            j = j + 1;
        }
        i = i + 1;
    }
    assert(unique_module_names(ms));
    let mut m: usize = 0;
    while m < graph.modules.len()
        invariant
            ms == graph.ms(),
            graph.built(),
            m <= ms.len(),
            unique_module_names(ms),
            forall|a: int, s: int, t: int|
                0 <= a < m && occurs(ms, a, s) && 0 <= t < class_at(ms, a, s).dependencies@.len() ==> has_owner(ms, graph.os(), #[trigger] class_at(ms, a, s).dependencies@[t]@),
            forall|a: int, s: int, t: int|
                0 <= a < m && occurs(ms, a, s) && 0 <= t < class_at(ms, a, s).break_dependencies_on@.len()
                    ==> has_owner(ms, graph.os(), #[trigger] class_at(ms, a, s).break_dependencies_on@[t]@),
            forall|a: int, t: int|
                0 <= a < m && 0 <= t < ms[a].dependencies@.len() ==> has_module(ms, #[trigger] ms[a].dependencies@[t]@),
        decreases ms.len() - m,
    {
        let module = &graph.modules[m];
        let mut t: usize = 0;
        while t < module.dependencies.len()
            invariant
                ms == graph.ms(),
                m < ms.len(),
                *module == ms[m as int],
                t <= module.dependencies@.len(),
                forall|q: int| 0 <= q < t ==> has_module(ms, #[trigger] ms[m as int].dependencies@[q]@),
            decreases module.dependencies@.len() - t,
        {
            match find_module_index(&graph.modules, &module.dependencies[t]) {
                None => {
                    proof {
                        if names_resolve(ms, graph.os()) {
                            assert(has_module(ms, ms[m as int].dependencies@[t as int]@));
                        }
                    }
                    return Err(GraphError::UnknownModule(module.dependencies[t].clone()));
                },
                Some(z) => {
                    assert(module_named(ms, ms[m as int].dependencies@[t as int]@, z as int));
                },
            }
            t = t + 1;
        }
        let mut s: usize = 0;
        while s < module.srcs.len()
            invariant
                ms == graph.ms(),
                graph.built(),
                m < ms.len(),
                *module == ms[m as int],
                s <= module.srcs@.len(),
                forall|b: int, t: int|
                    0 <= b < s && 0 <= t < class_at(ms, m as int, b).dependencies@.len() ==> has_owner(ms, graph.os(), #[trigger] class_at(ms, m as int, b).dependencies@[t]@),
                forall|b: int, t: int|
                    0 <= b < s && 0 <= t < class_at(ms, m as int, b).break_dependencies_on@.len() ==> has_owner(ms, graph.os(), #[trigger] class_at(ms, m as int, b).break_dependencies_on@[t]@),
            decreases module.srcs@.len() - s,
        {
            let class = &module.srcs[s];
            assert(*class == class_at(ms, m as int, s as int));
            assert(occurs(ms, m as int, s as int));
            match check_names(graph, &class.dependencies) {
                Err(e) => {
                    proof {
                        let t = choose|t: int| 0 <= t < class.dependencies@.len() && !(has_owner(graph.ms(), graph.os(), #[trigger] class.dependencies@[t]@));
                        if names_resolve(ms, graph.os()) {
                            assert(has_owner(ms, graph.os(), class_at(ms, m as int, s as int).dependencies@[t]@));
                        }
                    }
                    return Err(e);
                },
                Ok(()) => {},
            }
            match check_names(graph, &class.break_dependencies_on) {
                Err(e) => {
                    proof {
                        let t = choose|t: int| 0 <= t < class.break_dependencies_on@.len() && !(has_owner(graph.ms(), graph.os(), #[trigger] class.break_dependencies_on@[t]@));
                        if names_resolve(ms, graph.os()) {
                            assert(has_owner(ms, graph.os(), class_at(ms, m as int, s as int).break_dependencies_on@[t]@));
                        }
                    }
                    return Err(e);
                },
                Ok(()) => {},
            }
            assert forall|b: int, t: int|
                0 <= b < s + 1 && 0 <= t < class_at(ms, m as int, b).dependencies@.len() implies has_owner(ms, graph.os(), #[trigger] class_at(ms, m as int, b).dependencies@[t]@) by {
                if b == s {
                    assert(class.dependencies@[t]@ == class_at(ms, m as int, b).dependencies@[t]@);
                }
            }
            assert forall|b: int, t: int|
                0 <= b < s + 1 && 0 <= t < class_at(ms, m as int, b).break_dependencies_on@.len() implies has_owner(ms, graph.os(), #[trigger] class_at(ms, m as int, b).break_dependencies_on@[t]@) by {
                if b == s {
                    assert(class.break_dependencies_on@[t]@ == class_at(ms, m as int, b).break_dependencies_on@[t]@);
                }
            }
            s = s + 1;
        }
        m = m + 1;
    }
    assert(names_resolve(ms, graph.os()));
    Ok(())
}

/// Some module lists a class named `n`.
pub open spec fn class_listed(ms: Seq<JavaModule>, n: Seq<char>) -> bool {
    exists|m: int, s: int| #[trigger] occurs(ms, m, s) && class_at(ms, m, s).name@ == n
}

/// The modules can be analysed: their names are unique, and every class and module that
/// they name is listed.
pub open spec fn resolves(ms: Seq<JavaModule>) -> bool {
    &&& unique_module_names(ms)
    &&& no_repeats(ms)
    &&& forall|m: int, s: int, t: int|
        occurs(ms, m, s) && 0 <= t < class_at(ms, m, s).dependencies@.len() ==> class_listed(
            ms,
            #[trigger] class_at(ms, m, s).dependencies@[t]@,
        )
    &&& forall|m: int, s: int, t: int|
        occurs(ms, m, s) && 0 <= t < class_at(ms, m, s).break_dependencies_on@.len()
            ==> class_listed(ms, #[trigger] class_at(ms, m, s).break_dependencies_on@[t]@)
    &&& forall|m: int, t: int|
        0 <= m < ms.len() && 0 <= t < ms[m].dependencies@.len() ==> has_module(
            ms,
            #[trigger] ms[m].dependencies@[t]@,
        )
}

/// With an exact owner table, a name has an owner exactly when some module lists it.
pub proof fn lemma_owner_iff_listed(ms: Seq<JavaModule>, os: Seq<ClassOwner>, n: Seq<char>)
    requires
        ownership(ms, os),
    ensures
        has_owner(ms, os, n) <==> class_listed(ms, n),
{
    if has_owner(ms, os, n) {
        let k = choose|k: int| owner_named(ms, os, n, k);
        assert(occurs(ms, os[k].module as int, os[k].src as int));
    }
    if class_listed(ms, n) {
        let (m, s) = choose|m: int, s: int| #[trigger] occurs(ms, m, s) && class_at(ms, m, s).name@ == n;
        assert(occurs(ms, m, s));
    }
}

/// With an exact owner table, resolving by owners and by listings agree.
pub proof fn lemma_resolves(ms: Seq<JavaModule>, os: Seq<ClassOwner>)
    requires
        ownership(ms, os),
    ensures
        names_resolve(ms, os) <==> resolves(ms),
{
    assert forall|n: Seq<char>| #[trigger] has_owner(ms, os, n) <==> class_listed(ms, n) by {
        lemma_owner_iff_listed(ms, os, n);
    }
}

/// A name that `v` holds twice, if there is one.
fn repeated_name(v: &Vec<String>) -> (r: Option<String>)
    ensures
        r is None <==> views(v@).no_duplicates(),
{
    let mut i: usize = 0;
    while i < v.len()
        invariant
            i <= v@.len(),
            forall|a: int, b: int| 0 <= a < b < i ==> v@[a]@ != v@[b]@,
        decreases v@.len() - i,
    {
        let mut j: usize = 0;
        while j < i
            invariant
                i < v@.len(),
                j <= i,
                forall|a: int, b: int| 0 <= a < b < i ==> v@[a]@ != v@[b]@,
                forall|a: int| 0 <= a < j ==> v@[a]@ != v@[i as int]@,
            decreases i - j,
        {
            if v[j] == v[i] {
                proof {
                    assert(views(v@)[j as int] == views(v@)[i as int]);
                }
                return Some(v[i].clone());
            }
            j = j + 1;
        }
        i = i + 1;
    }
    proof {
        assert forall|a: int, b: int| 0 <= a < views(v@).len() && 0 <= b < views(v@).len() && a != b implies views(v@)[a] != views(v@)[b] by {
            if a < b {
                assert(v@[a]@ != v@[b]@);
            } else {
                assert(v@[b]@ != v@[a]@);
            }
        }
    }
    None
}

/// A class name that `srcs` lists twice, if there is one.
fn repeated_class(srcs: &Vec<JavaClass>) -> (r: Option<String>)
    ensures
        r is None <==> forall|a: int, b: int|
            0 <= a < srcs@.len() && 0 <= b < srcs@.len() && srcs@[a].name@ == srcs@[b].name@ ==> a == b,
{
    let mut i: usize = 0;
    while i < srcs.len()
        invariant
            i <= srcs@.len(),
            forall|a: int, b: int| 0 <= a < i && 0 <= b < i && srcs@[a].name@ == srcs@[b].name@ ==> a == b,
        decreases srcs@.len() - i,
    {
        let mut j: usize = 0;
        while j < i
            invariant
                i < srcs@.len(),
                j <= i,
                forall|a: int, b: int| 0 <= a < i && 0 <= b < i && srcs@[a].name@ == srcs@[b].name@ ==> a == b,
                forall|a: int| 0 <= a < j ==> srcs@[a].name@ != srcs@[i as int].name@,
            decreases i - j,
        {
            if srcs[j].name == srcs[i].name {
                return Some(srcs[i].name.clone());
            }
            j = j + 1;
        }
        i = i + 1;
    }
    None
}

/// Checks that no list of the graph repeats a name; otherwise gives a repeated name.
pub fn check_repeats(ms: &Vec<JavaModule>) -> (r: Result<(), GraphError>)
    ensures
        r is Ok <==> no_repeats(ms@),
        r matches Err(e) ==> e is RepeatedName,
{
    let mut m: usize = 0;
    while m < ms.len()
        invariant
            m <= ms@.len(),
            forall|a: int| 0 <= a < m ==> views(#[trigger] ms@[a].dependencies@).no_duplicates(),
            forall|a: int, s: int|
                0 <= a < m && #[trigger] occurs(ms@, a, s) ==> views(class_at(ms@, a, s).dependencies@).no_duplicates()
                    && views(class_at(ms@, a, s).break_dependencies_on@).no_duplicates(),
            forall|a: int, s1: int, s2: int|
                0 <= a < m && occurs(ms@, a, s1) && occurs(ms@, a, s2) && #[trigger] same_class_name(ms@, a, s1, s2)
                    ==> s1 == s2,
        decreases ms@.len() - m,
    {
        let module = &ms[m];
        match repeated_name(&module.dependencies) {
            Some(n) => {
                return Err(GraphError::RepeatedName(n));
            },
            None => {},
        }
        match repeated_class(&module.srcs) {
            Some(n) => {
                proof {
                    let (a, b) = choose|a: int, b: int|
                        0 <= a < module.srcs@.len() && 0 <= b < module.srcs@.len() && module.srcs@[a].name@ == module.srcs@[b].name@ && a != b;
                    assert(same_class_name(ms@, m as int, a, b));
                }
                return Err(GraphError::RepeatedName(n));
            },
            None => {},
        }
        let mut s: usize = 0;
        while s < module.srcs.len()
            invariant
                m < ms@.len(),
                *module == ms@[m as int],
                s <= module.srcs@.len(),
                forall|b: int| 0 <= b < s ==> views(class_at(ms@, m as int, b).dependencies@).no_duplicates()
                    && views(class_at(ms@, m as int, b).break_dependencies_on@).no_duplicates(),
            decreases module.srcs@.len() - s,
        {
            let class = &module.srcs[s];
            assert(occurs(ms@, m as int, s as int));
            match repeated_name(&class.dependencies) {
                Some(n) => {
                    return Err(GraphError::RepeatedName(n));
                },
                None => {},
            }
            match repeated_name(&class.break_dependencies_on) {
                Some(n) => {
                    return Err(GraphError::RepeatedName(n));
                },
                None => {},
            }
            s = s + 1;
        }
        assert forall|a: int, s1: int, s2: int|
            0 <= a < m + 1 && occurs(ms@, a, s1) && occurs(ms@, a, s2) && #[trigger] same_class_name(ms@, a, s1, s2)
                implies s1 == s2 by {
            if a == m {
                assert(module.srcs@[s1].name@ == module.srcs@[s2].name@);
            }
        }
        m = m + 1;
    }
    Ok(())
}

} // verus!
