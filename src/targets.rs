//! Classification of a package's raw compilation targets into a map from
//! target identity to target metadata.

use vstd::prelude::*;
use crate::metadata::Target;
use crate::text::{replace_char, replace_char_exec, views_of, dedup, dedup_strings, contains_str, contains_exec, str_eq, clone_strings, opt_view};

verus! {

/// The identity of a build target within its package.
#[derive(Debug)]
pub enum BuildTargetId {
    Library,
    BuildScript,
    Binary(String),
    Example(String),
    Test(String),
    Benchmark(String),
}

pub enum TargetIdView {
    Library,
    BuildScript,
    Binary(Seq<char>),
    Example(Seq<char>),
    Test(Seq<char>),
    Benchmark(Seq<char>),
}

impl View for BuildTargetId {
    type V = TargetIdView;

    open spec fn view(&self) -> TargetIdView {
        match self {
            BuildTargetId::Library => TargetIdView::Library,
            BuildTargetId::BuildScript => TargetIdView::BuildScript,
            BuildTargetId::Binary(n) => TargetIdView::Binary(n@),
            BuildTargetId::Example(n) => TargetIdView::Example(n@),
            BuildTargetId::Test(n) => TargetIdView::Test(n@),
            BuildTargetId::Benchmark(n) => TargetIdView::Benchmark(n@),
        }
    }
}

impl BuildTargetId {
    /// A copy of this id.
    pub fn duplicate(&self) -> (r: BuildTargetId)
        ensures
            r@ == self@,
    {
        match self {
            BuildTargetId::Library => BuildTargetId::Library,
            BuildTargetId::BuildScript => BuildTargetId::BuildScript,
            BuildTargetId::Binary(n) => BuildTargetId::Binary(n.clone()),
            BuildTargetId::Example(n) => BuildTargetId::Example(n.clone()),
            BuildTargetId::Test(n) => BuildTargetId::Test(n.clone()),
            BuildTargetId::Benchmark(n) => BuildTargetId::Benchmark(n.clone()),
        }
    }

    /// Whether two ids denote the same target slot.
    pub fn same(&self, other: &BuildTargetId) -> (r: bool)
        ensures
            r == (self@ == other@),
    {
        match (self, other) {
            (BuildTargetId::Library, BuildTargetId::Library) => true,
            (BuildTargetId::BuildScript, BuildTargetId::BuildScript) => true,
            (BuildTargetId::Binary(a), BuildTargetId::Binary(b)) => str_eq(a.as_str(), b.as_str()),
            (BuildTargetId::Example(a), BuildTargetId::Example(b)) => str_eq(a.as_str(), b.as_str()),
            (BuildTargetId::Test(a), BuildTargetId::Test(b)) => str_eq(a.as_str(), b.as_str()),
            (BuildTargetId::Benchmark(a), BuildTargetId::Benchmark(b)) => str_eq(
                a.as_str(),
                b.as_str(),
            ),
            _ => false,
        }
    }
}

/// What a build target compiles to.
#[derive(Debug)]
pub enum BuildTargetKind {
    /// A library or example, with its distinct crate types.
    LibraryOrExample(Vec<String>),
    ProcMacro,
    Binary,
}

pub enum TargetKindView {
    LibraryOrExample(Seq<Seq<char>>),
    ProcMacro,
    Binary,
}

impl View for BuildTargetKind {
    type V = TargetKindView;

    open spec fn view(&self) -> TargetKindView {
        match self {
            BuildTargetKind::LibraryOrExample(v) => TargetKindView::LibraryOrExample(views_of(v@)),
            BuildTargetKind::ProcMacro => TargetKindView::ProcMacro,
            BuildTargetKind::Binary => TargetKindView::Binary,
        }
    }
}

/// A classified build target.
#[derive(Debug)]
pub struct BuildTarget {
    pub id: BuildTargetId,
    pub kind: BuildTargetKind,
    /// The library's name, for library targets and build scripts.
    pub lib_name: Option<String>,
    pub required_features: Vec<String>,
    pub path: String,
    pub edition: String,
    pub doc_tests: bool,
}

/// Why a raw target could not be classified.
#[derive(Debug)]
pub enum TargetError {
    /// `proc-macro` among several kinds.
    ProcMacroMixedKinds(Vec<String>),
    /// `proc-macro` among several crate types.
    ProcMacroMixedCrateTypes(Vec<String>),
    /// A binary, test, benchmark or build script whose crate types are not exactly `bin`.
    InvalidCrateTypes(BuildTargetId, Vec<String>),
    /// A target with no kind at all.
    NoKinds(String),
    /// A second target for a slot already taken.
    Duplicate(BuildTargetId),
}

pub enum TargetErrorView {
    ProcMacroMixedKinds,
    ProcMacroMixedCrateTypes,
    InvalidCrateTypes(TargetIdView),
    NoKinds,
    Duplicate(TargetIdView),
}

impl View for TargetError {
    type V = TargetErrorView;

    open spec fn view(&self) -> TargetErrorView {
        match self {
            TargetError::ProcMacroMixedKinds(_) => TargetErrorView::ProcMacroMixedKinds,
            TargetError::ProcMacroMixedCrateTypes(_) => TargetErrorView::ProcMacroMixedCrateTypes,
            TargetError::InvalidCrateTypes(id, _) => TargetErrorView::InvalidCrateTypes(id@),
            TargetError::NoKinds(_) => TargetErrorView::NoKinds,
            TargetError::Duplicate(id) => TargetErrorView::Duplicate(id@),
        }
    }
}

pub open spec fn proc_macro() -> Seq<char> {
    "proc-macro"@
}

/// The identity a single kind string gives a target named `name`.
pub open spec fn id_for_kind(kind: Seq<char>, name: Seq<char>) -> TargetIdView {
    if kind == "custom-build"@ {
        TargetIdView::BuildScript
    } else if kind == "bin"@ {
        TargetIdView::Binary(name)
    } else if kind == "example"@ {
        TargetIdView::Example(name)
    } else if kind == "test"@ {
        TargetIdView::Test(name)
    } else if kind == "bench"@ {
        TargetIdView::Benchmark(name)
    } else {
        TargetIdView::Library
    }
}

/// The identity, kind and library name of a raw target, or why it has none.
pub open spec fn classify(t: &Target) -> Result<(TargetIdView, TargetKindView, Option<Seq<char>>), TargetErrorView> {
    let kinds = t.kind@;
    let types = dedup(views_of(t.crate_types@));
    if kinds.len() > 1 && contains_str(kinds, proc_macro()) {
        Err(TargetErrorView::ProcMacroMixedKinds)
    } else if types.len() > 1 && types.contains(proc_macro()) {
        Err(TargetErrorView::ProcMacroMixedCrateTypes)
    } else if kinds.len() > 1 {
        Ok((TargetIdView::Library, TargetKindView::LibraryOrExample(types), Some(t.name@)))
    } else if kinds.len() == 1 {
        let id = id_for_kind(kinds[0]@, t.name@);
        let lib_name = match id {
            TargetIdView::Library => Some(t.name@),
            TargetIdView::BuildScript => Some(t.name@),
            _ => None,
        };
        match id {
            TargetIdView::Library => if types == seq![proc_macro()] {
                Ok((id, TargetKindView::ProcMacro, lib_name))
            } else {
                Ok((id, TargetKindView::LibraryOrExample(types), lib_name))
            },
            TargetIdView::Example(_) => Ok((id, TargetKindView::LibraryOrExample(types), lib_name)),
            _ => if types == seq!["bin"@] {
                Ok((id, TargetKindView::Binary, lib_name))
            } else {
                Err(TargetErrorView::InvalidCrateTypes(id))
            },
        }
    } else {
        Err(TargetErrorView::NoKinds)
    }
}

fn id_for_kind_exec(kind: &String, name: &String) -> (r: BuildTargetId)
    ensures
        r@ == id_for_kind(kind@, name@),
{
    if str_eq(kind.as_str(), "custom-build") {
        BuildTargetId::BuildScript
    } else if str_eq(kind.as_str(), "bin") {
        BuildTargetId::Binary(name.clone())
    } else if str_eq(kind.as_str(), "example") {
        BuildTargetId::Example(name.clone())
    } else if str_eq(kind.as_str(), "test") {
        BuildTargetId::Test(name.clone())
    } else if str_eq(kind.as_str(), "bench") {
        BuildTargetId::Benchmark(name.clone())
    } else {
        BuildTargetId::Library
    }
}

/// Whether the list is exactly the one string `s`.
fn is_exactly(v: &Vec<String>, s: &str) -> (r: bool)
    ensures
        r == (views_of(v@) == seq![s@]),
{
    if v.len() != 1 {
        proof {
            assert(views_of(v@).len() != seq![s@].len());
        }
        return false;
    }
    let r = str_eq(v[0].as_str(), s);
    proof {
        if r {
            assert(views_of(v@) =~= seq![s@]);
        } else {
            assert(views_of(v@)[0] != seq![s@][0]);
        }
    }
    r
}

/// Classifies one raw target.
pub fn classify_target(t: &Target) -> (r: Result<(BuildTargetId, BuildTargetKind, Option<String>), TargetError>)
    ensures
        match r {
            Ok((id, kind, lib_name)) => classify(t) == Ok::<_, TargetErrorView>((id@, kind@, opt_view(lib_name))),
            Err(e) => classify(t) == Err::<(TargetIdView, TargetKindView, Option<Seq<char>>), _>(e@),
        },
{
    let types = dedup_strings(&t.crate_types);
    let ghost tv = views_of(types@);
    let pm_kind = contains_exec(&t.kind, "proc-macro");
    if t.kind.len() > 1 && pm_kind {
        return Err(TargetError::ProcMacroMixedKinds(clone_strings(&t.kind)));
    }
    let pm_type = contains_exec(&types, "proc-macro");
    proof {
        if pm_type {
            let j = choose|j: int| 0 <= j < types@.len() && types@[j]@ == proc_macro();
            assert(tv[j] == proc_macro());
        } else if tv.contains(proc_macro()) {
            let j = choose|j: int| 0 <= j < tv.len() && tv[j] == proc_macro();
            assert(types@[j]@ == proc_macro());
        }
    }
    if types.len() > 1 && pm_type {
        return Err(TargetError::ProcMacroMixedCrateTypes(types));
    }
    if t.kind.len() > 1 {
        return Ok((BuildTargetId::Library, BuildTargetKind::LibraryOrExample(types), Some(t.name.clone())));
    }
    if t.kind.len() == 0 {
        return Err(TargetError::NoKinds(t.name.clone()));
    }
    let id = id_for_kind_exec(&t.kind[0], &t.name);
    let lib_name = match id {
        BuildTargetId::Library => Some(t.name.clone()),
        BuildTargetId::BuildScript => Some(t.name.clone()),
        _ => None,
    };
    match id {
        BuildTargetId::Library => {
            if is_exactly(&types, "proc-macro") {
                Ok((id, BuildTargetKind::ProcMacro, lib_name))
            } else {
                Ok((id, BuildTargetKind::LibraryOrExample(types), lib_name))
            }
        },
        BuildTargetId::Example(_) => Ok((id, BuildTargetKind::LibraryOrExample(types), lib_name)),
        _ => {
            if is_exactly(&types, "bin") {
                Ok((id, BuildTargetKind::Binary, lib_name))
            } else {
                Err(TargetError::InvalidCrateTypes(id, types))
            }
        },
    }
}


/// What a classified target holds of its raw target: identity, kind and library name.
pub open spec fn entry_of(b: BuildTarget) -> (TargetIdView, TargetKindView, Option<Seq<char>>) {
    (b.id@, b.kind@, opt_view(b.lib_name))
}

/// Whether some entry has the identity `id`.
pub open spec fn has_id(entries: Seq<(TargetIdView, TargetKindView, Option<Seq<char>>)>, id: TargetIdView) -> bool {
    exists|i: int| 0 <= i < entries.len() && entries[i].0 == id
}

/// The classified targets of a package, in input order, or the first fault:
/// a target that cannot be classified, or a second target for a taken slot.
pub open spec fn classify_all(ts: Seq<Target>) -> Result<Seq<(TargetIdView, TargetKindView, Option<Seq<char>>)>, TargetErrorView>
    decreases ts.len(),
{
    if ts.len() == 0 {
        Ok(Seq::empty())
    } else {
        match classify_all(ts.drop_last()) {
            Err(e) => Err(e),
            Ok(entries) => match classify(&ts.last()) {
                Err(e) => Err(e),
                Ok(entry) => if has_id(entries, entry.0) {
                    Err(TargetErrorView::Duplicate(entry.0))
                } else {
                    Ok(entries.push(entry))
                },
            },
        }
    }
}

/// A fault among the first `n` targets is the fault of them all.
pub proof fn lemma_classify_err_extends(ts: Seq<Target>, n: int)
    requires
        0 <= n <= ts.len(),
        classify_all(ts.subrange(0, n)) is Err,
    ensures
        classify_all(ts) == classify_all(ts.subrange(0, n)),
    decreases ts.len() - n,
{
    if n < ts.len() {
        let next = ts.subrange(0, n + 1);
        assert(next.drop_last() =~= ts.subrange(0, n));
        lemma_classify_err_extends(ts, n + 1);
    } else {
        assert(ts.subrange(0, n) =~= ts);
    }
}

/// Classifies all targets of a package; no two results share an identity.
#[verifier::loop_isolation(false)]
pub fn classify_targets(ts: &Vec<Target>) -> (r: Result<Vec<BuildTarget>, TargetError>)
    ensures
        match r {
            Ok(v) => classify_all(ts@) == Ok::<_, TargetErrorView>(v@.map_values(|b: BuildTarget| entry_of(b)))
                && v@.len() == ts@.len()
                && forall|i: int| 0 <= i < v@.len() ==> {
                    &&& #[trigger] v@[i].path@ == ts@[i].src_path@
                    &&& v@[i].edition@ == ts@[i].edition@
                    &&& v@[i].doc_tests == ts@[i].doctest
                    &&& v@[i].required_features@ == ts@[i].required_features@
                },
            Err(e) => classify_all(ts@) == Err::<Seq<(TargetIdView, TargetKindView, Option<Seq<char>>)>, _>(e@),
        },
{
    let mut out: Vec<BuildTarget> = Vec::new();
    let mut i: usize = 0;
    assert(ts@.subrange(0, 0) =~= Seq::<Target>::empty());
    assert(out@.map_values(|b: BuildTarget| entry_of(b)) =~= Seq::empty());
    while i < ts.len()
        invariant
            i <= ts@.len(),
            classify_all(ts@.subrange(0, i as int)) == Ok::<_, TargetErrorView>(out@.map_values(|b: BuildTarget| entry_of(b))),
            out@.len() == i,
            forall|k: int| 0 <= k < out@.len() ==> {
                &&& #[trigger] out@[k].path@ == ts@[k].src_path@
                &&& out@[k].edition@ == ts@[k].edition@
                &&& out@[k].doc_tests == ts@[k].doctest
                &&& out@[k].required_features@ == ts@[k].required_features@
            },
        decreases ts.len() - i,
    {
        let t = &ts[i];
        let ghost pre = ts@.subrange(0, i + 1);
        assert(pre.drop_last() =~= ts@.subrange(0, i as int));
        assert(pre.last() == ts@[i as int]);
        let ghost entries = out@.map_values(|b: BuildTarget| entry_of(b));
        match classify_target(t) {
            Err(e) => {
                proof {
                    lemma_classify_err_extends(ts@, i + 1);
                }
                return Err(e);
            },
            Ok((id, kind, lib_name)) => {
                let mut j: usize = 0;
                while j < out.len()
                    invariant
                        j <= out@.len(),
                        entries == out@.map_values(|b: BuildTarget| entry_of(b)),
                        forall|m: int| 0 <= m < j ==> entries[m].0 != id@,
                    decreases out.len() - j,
                {
                    if out[j].id.same(&id) {
                        assert(entries[j as int].0 == id@);
                        proof {
                            lemma_classify_err_extends(ts@, i + 1);
                        }
                        return Err(TargetError::Duplicate(id));
                    }
                    j = j + 1;
                }
                let b = BuildTarget {
                    id,
                    kind,
                    lib_name,
                    required_features: clone_strings(&t.required_features),
                    path: t.src_path.clone(),
                    edition: t.edition.clone(),
                    doc_tests: t.doctest,
                };
                let ghost before = out@;
                out.push(b);
                assert(forall|k: int| 0 <= k < i ==> out@[k] == before[k]);
                assert(out@.map_values(|b: BuildTarget| entry_of(b)) =~= entries.push(entry_of(b)));
            },
        }
        i = i + 1;
    }
    assert(ts@.subrange(0, ts@.len() as int) =~= ts@);
    assert(classify_all(ts@) == Ok::<_, TargetErrorView>(out@.map_values(|b: BuildTarget| entry_of(b))));
    assert(out@.len() == ts@.len());
    Ok(out)
}

/// The symbol name by which a package's library is referred to from code.
#[derive(Debug)]
pub enum ResolvedName {
    /// A library name that differs from the package name.
    LibNameSpecified(String),
    /// The package name, with `-` turned into `_`.
    LibNameNotSpecified(String),
    /// The package has no library target.
    NoLibTarget,
}

pub enum ResolvedNameView {
    LibNameSpecified(Seq<char>),
    LibNameNotSpecified(Seq<char>),
    NoLibTarget,
}

impl View for ResolvedName {
    type V = ResolvedNameView;

    open spec fn view(&self) -> ResolvedNameView {
        match self {
            ResolvedName::LibNameSpecified(s) => ResolvedNameView::LibNameSpecified(s@),
            ResolvedName::LibNameNotSpecified(s) => ResolvedNameView::LibNameNotSpecified(s@),
            ResolvedName::NoLibTarget => ResolvedNameView::NoLibTarget,
        }
    }
}

/// The index of the library target among `ts`, if there is one.
pub open spec fn library_index(ts: Seq<BuildTarget>) -> Option<int> {
    if exists|i: int| 0 <= i < ts.len() && ts[i].id@ == TargetIdView::Library {
        Some(choose|i: int| 0 <= i < ts.len() && ts[i].id@ == TargetIdView::Library)
    } else {
        None
    }
}

/// Whether no two of `ts` share an identity.
pub open spec fn ids_distinct(ts: Seq<BuildTarget>) -> bool {
    forall|i: int, j: int| 0 <= i < j < ts.len() ==> ts[i].id@ != ts[j].id@
}

/// The resolved name of a package named `package_name` with targets `ts`.
pub open spec fn resolved_name_of(package_name: Seq<char>, ts: Seq<BuildTarget>) -> ResolvedNameView {
    match library_index(ts) {
        Some(i) => {
            let lib = ts[i].lib_name.unwrap()@;
            if lib != package_name {
                ResolvedNameView::LibNameSpecified(lib)
            } else {
                ResolvedNameView::LibNameNotSpecified(replace_char(lib, '-', '_'))
            }
        },
        None => ResolvedNameView::NoLibTarget,
    }
}

/// The name a resolved name is matched against; `None` for no library target.
pub open spec fn symbol_name(r: ResolvedNameView) -> Option<Seq<char>> {
    match r {
        ResolvedNameView::LibNameSpecified(s) => Some(s),
        ResolvedNameView::LibNameNotSpecified(s) => Some(s),
        ResolvedNameView::NoLibTarget => None,
    }
}

/// Library targets always carry a library name.
pub open spec fn library_named(ts: Seq<BuildTarget>) -> bool {
    forall|i: int| 0 <= i < ts.len() && ts[i].id@ == TargetIdView::Library ==> ts[i].lib_name is Some
}

/// Classified targets satisfy both target-map invariants.
pub proof fn lemma_classified_wf(ts: Seq<Target>, v: Seq<BuildTarget>)
    requires
        classify_all(ts) == Ok::<_, TargetErrorView>(v.map_values(|b: BuildTarget| entry_of(b))),
    ensures
        ids_distinct(v),
        library_named(v),
    decreases ts.len(),
{
    if ts.len() > 0 {
        let prev = classify_all(ts.drop_last());
        let entries = v.map_values(|b: BuildTarget| entry_of(b));
        assert(prev is Ok);
        let pe = prev->Ok_0;
        let entry = classify(&ts.last())->Ok_0;
        assert(entries == pe.push(entry));
        assert(v.len() == entries.len());
        let pv = v.drop_last();
        assert forall|i: int| 0 <= i < pe.len() implies pe[i] == entry_of(pv[i]) by {
            assert(entries[i] == pe[i]);
        }
        assert(pe =~= pv.map_values(|b: BuildTarget| entry_of(b)));
        lemma_classified_wf(ts.drop_last(), pv);
        let last = v.last();
        assert(entries[v.len() - 1] == entry_of(last));
        assert(!has_id(pe, last.id@));
        assert forall|i: int, j: int| 0 <= i < j < v.len() implies v[i].id@ != v[j].id@ by {
            if j < v.len() - 1 {
                assert(pv[i] == v[i] && pv[j] == v[j]);
            } else {
                assert(prev->Ok_0[i].0 == v[i].id@);
            }
        }
        assert forall|i: int| 0 <= i < v.len() && v[i].id@ == TargetIdView::Library implies v[i].lib_name is Some by {
            if i < v.len() - 1 {
                assert(pv[i] == v[i]);
            } else {
                assert(entries[i] == entry_of(v[i]));
            }
        }
    } else {
        let entries = v.map_values(|b: BuildTarget| entry_of(b));
        assert(entries.len() == 0);
        assert(v.len() == 0);
    }
}

/// A package whose library target declares a name other than the package's
/// goes by that name; one whose library target has the package's name goes
/// by the package name with `-` turned into `_`.
pub proof fn lemma_symbol_name(package_name: Seq<char>, ts: Seq<BuildTarget>)
    requires
        library_index(ts) is Some,
        library_named(ts),
    ensures
        ({
            let lib = ts[library_index(ts)->Some_0].lib_name->Some_0@;
            &&& lib != package_name ==> symbol_name(resolved_name_of(package_name, ts)) == Some(lib)
            &&& lib == package_name ==> symbol_name(resolved_name_of(package_name, ts)) == Some(
                replace_char(package_name, '-', '_'),
            )
        }),
{
}

/// The resolved name of a package named `package_name` with the classified targets `ts`.
pub fn resolved_name(package_name: &String, ts: &Vec<BuildTarget>) -> (r: ResolvedName)
    requires
        library_named(ts@),
        ids_distinct(ts@),
    ensures
        r@ == resolved_name_of(package_name@, ts@),
{
    let mut i: usize = 0;
    while i < ts.len()
        invariant
            i <= ts@.len(),
            forall|j: int| 0 <= j < i ==> ts@[j].id@ != TargetIdView::Library,
        ensures
            i <= ts@.len(),
            i < ts@.len() ==> ts@[i as int].id@ == TargetIdView::Library,
            forall|j: int| 0 <= j < i ==> ts@[j].id@ != TargetIdView::Library,
        decreases ts.len() - i,
    {
        match ts[i].id {
            BuildTargetId::Library => {
                break;
            },
            _ => {},
        }
        i = i + 1;
    }
    if i == ts.len() {
        return ResolvedName::NoLibTarget;
    }
    proof {
        assert(ts@[i as int].id@ == TargetIdView::Library);
        let k = library_index(ts@)->Some_0;
        assert(ts@[k].id@ == TargetIdView::Library);
        assert(k == i);
    }
    match &ts[i].lib_name {
        Some(lib) => {
            if !str_eq(lib.as_str(), package_name.as_str()) {
                ResolvedName::LibNameSpecified(lib.clone())
            } else {
                ResolvedName::LibNameNotSpecified(replace_char_exec(lib.as_str(), '-', '_'))
            }
        },
        None => ResolvedName::NoLibTarget,
    }
}

} // verus!
