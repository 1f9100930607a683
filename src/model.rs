use vstd::prelude::*;
use vstd::string::StrSliceExecFns;
use vstd::string::StringExecFns;

use crate::text::{chars_of, name_set, opt_view};

verus! {

/// The team shown for a class whose owner is not known.
pub const UNKNOWN_TEAM: &'static str = "UNK";

/// One compiled class: its identity is its name.
pub struct JavaClass {
    pub name: String,
    /// Path of the source file, or `n/a` for a class with no source.
    pub location: String,
    pub package: Option<String>,
    /// Names of the classes this class references, without repeats.
    pub dependencies: Vec<String>,
    pub team: Option<String>,
    /// Name of the module the class is meant to end up in.
    pub target_module: Option<String>,
    /// Names of the classes this class declares it no longer depends on.
    pub break_dependencies_on: Vec<String>,
}

impl PartialEq for JavaClass {
    /// Two classes are the same class when their names are equal.
    fn eq(&self, other: &JavaClass) -> (r: bool) {
        self.name == other.name
    }
}

impl vstd::std_specs::cmp::PartialEqSpecImpl for JavaClass {
    open spec fn obeys_eq_spec() -> bool {
        true
    }

    open spec fn eq_spec(&self, other: &JavaClass) -> bool {
        self.name@ == other.name@
    }
}

impl Eq for JavaClass {

}

/// One build module and the classes it owns.
pub struct JavaModule {
    pub name: String,
    pub deprecated: bool,
    /// Position in the layering, in tenths: a module may only depend on modules below it.
    pub index: u64,
    pub directory: String,
    pub jar: String,
    pub srcs: Vec<JavaClass>,
    /// Names of the modules this module depends on.
    pub dependencies: Vec<String>,
}

/// Severity of a finding, the most urgent first.
#[derive(Debug, Clone, Copy, PartialEq, Eq, Structural)]
pub enum Kind {
    Critical,
    Error,
    AutoAction,
    DevAction,
    Blocked,
    ToDo,
}

/// Position of a severity in the order of urgency.
pub open spec fn kind_rank(k: Kind) -> nat {
    match k {
        Kind::Critical => 0,
        Kind::Error => 1,
        Kind::AutoAction => 2,
        Kind::DevAction => 3,
        Kind::Blocked => 4,
        Kind::ToDo => 5,
    }
}

impl Kind {
    /// Position of this severity in the order of urgency.
    pub fn rank(&self) -> (r: usize)
        ensures
            r == kind_rank(*self),
    {
        match self {
            Kind::Critical => 0,
            Kind::Error => 1,
            Kind::AutoAction => 2,
            Kind::DevAction => 3,
            Kind::Blocked => 4,
            Kind::ToDo => 5,
        }
    }

    /// Every severity, the most urgent first.
    pub fn all() -> (r: Vec<Kind>)
        ensures
            r@.len() == 6,
            forall|i: int| 0 <= i < 6 ==> kind_rank(#[trigger] r@[i]) == i,
    {
        vec![Kind::Critical, Kind::Error, Kind::AutoAction, Kind::DevAction, Kind::Blocked, Kind::ToDo]
    }

    /// The name of this severity as it is printed.
    pub fn name(&self) -> (r: String)
        ensures
            r@ == kind_name(*self),
    {
        match self {
            Kind::Critical => String::from_str("Critical"),
            Kind::Error => String::from_str("Error"),
            Kind::AutoAction => String::from_str("AutoAction"),
            Kind::DevAction => String::from_str("DevAction"),
            Kind::Blocked => String::from_str("Blocked"),
            Kind::ToDo => String::from_str("ToDo"),
        }
    }
}

/// The printed name of a severity.
pub open spec fn kind_name(k: Kind) -> Seq<char> {
    match k {
        Kind::Critical => "Critical"@,
        Kind::Error => "Error"@,
        Kind::AutoAction => "AutoAction"@,
        Kind::DevAction => "DevAction"@,
        Kind::Blocked => "Blocked"@,
        Kind::ToDo => "ToDo"@,
    }
}

/// One finding of the analysis.
pub struct Report {
    pub kind: Kind,
    pub message: String,
    /// A command that resolves the finding, or empty.
    pub action: String,
    /// The class the finding is about, or empty for a module-level finding.
    pub for_class: String,
    pub for_team: String,
    /// Classes whose own findings should surface this one as well.
    pub indirect_classes: Vec<String>,
    /// Modules the finding involves.
    pub for_modules: Vec<String>,
}

/// A finding as plain values.
pub struct ReportView {
    pub kind: Kind,
    pub message: Seq<char>,
    pub action: Seq<char>,
    pub for_class: Seq<char>,
    pub for_team: Seq<char>,
    pub indirect_classes: Set<Seq<char>>,
    pub for_modules: Set<Seq<char>>,
}

impl View for Report {
    type V = ReportView;

    open spec fn view(&self) -> ReportView {
        ReportView {
            kind: self.kind,
            message: self.message@,
            action: self.action@,
            for_class: self.for_class@,
            for_team: self.for_team@,
            indirect_classes: name_set(self.indirect_classes@),
            for_modules: name_set(self.for_modules@),
        }
    }
}

/// The views of a sequence of findings.
pub open spec fn report_views(v: Seq<Report>) -> Seq<ReportView> {
    v.map_values(|r: Report| r@)
}

/// The team of a class as it is printed: the unknown marker when absent.
pub open spec fn team_of(c: JavaClass) -> Seq<char> {
    match c.team {
        Some(t) => t@,
        None => UNKNOWN_TEAM@,
    }
}

/// `i` is the first position of `ch` in `s`.
pub open spec fn is_first_at(s: Seq<char>, ch: char, i: int) -> bool {
    0 <= i < s.len() && s[i] == ch && forall|j: int| 0 <= j < i ==> s[j] != ch
}

/// `i` is the last position of `ch` in `s`.
pub open spec fn is_last_at(s: Seq<char>, ch: char, i: int) -> bool {
    0 <= i < s.len() && s[i] == ch && forall|j: int| i < j < s.len() ==> s[j] != ch
}

/// The path of a source file below its module's directory: what follows the first `/`.
pub open spec fn relative_location_of(loc: Seq<char>) -> Option<Seq<char>> {
    if exists|i: int| is_first_at(loc, '/', i) {
        let i = choose|i: int| is_first_at(loc, '/', i);
        Some(loc.subrange(i + 1, loc.len() as int))
    } else {
        None
    }
}

/// The directory of a source file: what precedes the last `/`.
pub open spec fn directory_location_of(loc: Seq<char>) -> Option<Seq<char>> {
    if exists|i: int| is_last_at(loc, '/', i) {
        let i = choose|i: int| is_last_at(loc, '/', i);
        Some(loc.subrange(0, i))
    } else {
        None
    }
}

/// Derived facts of a class that are read from its location and team.
pub trait JavaClassTraits {
    spec fn spec_relative_location(&self) -> Option<Seq<char>>;

    spec fn spec_directory_location(&self) -> Option<Seq<char>>;

    spec fn spec_team(&self) -> Seq<char>;

    /// The location below the module directory; none where the location has no `/`.
    fn relative_location(&self) -> (r: Option<String>)
        ensures
            opt_view(r) == self.spec_relative_location(),
    ;

    /// The directory of the source file; none where the location has no `/`.
    fn directory_location(&self) -> (r: Option<String>)
        ensures
            opt_view(r) == self.spec_directory_location(),
    ;

    /// The owning team, or the unknown marker.
    fn team(&self) -> (r: String)
        ensures
            r@ == self.spec_team(),
    ;
}

impl JavaClassTraits for JavaClass {
    open spec fn spec_relative_location(&self) -> Option<Seq<char>> {
        relative_location_of(self.location@)
    }

    open spec fn spec_directory_location(&self) -> Option<Seq<char>> {
        directory_location_of(self.location@)
    }

    open spec fn spec_team(&self) -> Seq<char> {
        team_of(*self)
    }

    fn relative_location(&self) -> (r: Option<String>) {
        let ls: &str = self.location.as_str();
        let cs = chars_of(ls);
        let ghost loc = self.location@;
        assert(ls@ == loc);
        assert(cs@.len() == ls@.len());
        let mut i: usize = 0;
        while i < cs.len()
            invariant
                cs@ == loc,
                ls@ == loc,
                loc == self.location@,
                i <= cs.len(),
                forall|j: int| 0 <= j < i ==> loc[j] != '/',
            decreases cs.len() - i,
        {
            if cs[i] == '/' {
                let r = String::from_str(ls.substring_char(i + 1, cs.len()));
                proof {
                    assert(is_first_at(loc, '/', i as int));
                    let c = choose|c: int| is_first_at(loc, '/', c);
                    assert(c == i);
                }
                return Some(r);
            }
            i = i + 1;
        }
        None
    }

    fn directory_location(&self) -> (r: Option<String>) {
        let ls: &str = self.location.as_str();
        let cs = chars_of(ls);
        let ghost loc = self.location@;
        assert(ls@ == loc);
        assert(cs@.len() == ls@.len());
        let mut i: usize = cs.len();
        while i > 0
            invariant
                cs@ == loc,
                ls@ == loc,
                loc == self.location@,
                i <= cs.len(),
                forall|j: int| i <= j < cs.len() ==> loc[j] != '/',
            decreases i,
        {
            if cs[i - 1] == '/' {
                let r = String::from_str(ls.substring_char(0, i - 1));
                proof {
                    assert(is_last_at(loc, '/', i - 1));
                    let c = choose|c: int| is_last_at(loc, '/', c);
                    assert(c == i - 1);
                }
                return Some(r);
            }
            i = i - 1;
        }
        None
    }

    fn team(&self) -> (r: String) {
        match &self.team {
            None => String::from_str(UNKNOWN_TEAM),
            Some(t) => t.clone(),
        }
    }
}

} // verus!
