//! Matching manifest declarations to resolved edges, and merging the matches
//! into one link per resolved edge.

use vstd::prelude::*;
use crate::conditions::{DepRequiredOrOptional, half_of, half_step, keys_distinct, lemma_half_push, lemma_half_of_empty, empty_half, selects};
use crate::errors::Error;
use crate::metadata::{Dependency, DependencyKind, DepKindInfo};
use crate::platform::{spec_valid, parse_target_spec};
use crate::targets::{ResolvedName, ResolvedNameView, symbol_name};
use crate::text::{replace_char, replace_char_exec, str_eq, opt_view, lex_le, lex_le_exec, lemma_lex_refl, lemma_lex_antisym, lemma_lex_total, lemma_lex_trans};

verus! {

/// Whether the version requirement `req` accepts `version`.
pub uninterp spec fn semver_matches(req: Seq<char>, version: Seq<char>) -> bool;

/// Relies on `semver::VersionReq::parse`, `semver::Version::parse` and
/// `semver::VersionReq::matches`: whether a requirement accepts a version
/// depends on the two strings alone. Text that does not parse matches nothing.
#[verifier::external_body]
pub(crate) fn version_matches(req: &str, version: &str) -> (r: bool)
    ensures
        r == semver_matches(req@, version@),
{
    match (semver::VersionReq::parse(req), semver::Version::parse(version)) {
        (Ok(req), Ok(version)) => req.matches(&version),
        _ => false,
    }
}

/// What matching needs to know of a package.
#[derive(Debug)]
pub struct PackageData {
    pub name: String,
    pub version: String,
    pub resolved_name: ResolvedName,
}

/// Whether a resolved name is matched by the symbol name `name`. A package
/// without a library target is matched by the empty name only.
pub open spec fn resolved_matches(r: ResolvedNameView, name: Seq<char>) -> bool {
    match symbol_name(r) {
        Some(s) => s == name,
        None => name.len() == 0,
    }
}

/// Whether the declaration's rename, with `-` turned into `_`, is `name`.
pub open spec fn rename_matches(d: Dependency, name: Seq<char>) -> bool {
    match d.rename {
        Some(r) => replace_char(r@, '-', '_') == name,
        None => false,
    }
}

/// Whether `q` may be what `d` asks for: the same package name, and a version `d` accepts.
pub open spec fn candidate(d: Dependency, q: PackageData) -> bool {
    q.name@ == d.name@ && semver_matches(d.req@, q.version@)
}

/// Whether `d`, resolved to candidate `q`, goes by the symbol name `name`.
pub open spec fn name_matches(d: Dependency, q: PackageData, name: Seq<char>) -> bool {
    rename_matches(d, name) || (d.rename is None && resolved_matches(q.resolved_name@, name))
}

/// Whether `d` is active in one of the contexts `kinds`; every declaration is
/// where no context is reported.
pub open spec fn kinds_match(d: Dependency, kinds: Seq<DepKindInfo>) -> bool {
    kinds.len() == 0 || exists|i: int|
        0 <= i < kinds.len() && kinds[i].kind == d.kind && opt_view(kinds[i].target) == opt_view(d.target)
}

/// Whether the declaration `d` explains the resolved edge with symbol name
/// `name` to the package `target` in the contexts `kinds`.
pub open spec fn decl_matches(
    d: Dependency,
    pkgs: Seq<PackageData>,
    name: Seq<char>,
    target: PackageData,
    kinds: Seq<DepKindInfo>,
) -> bool {
    &&& exists|q: int| 0 <= q < pkgs.len() && candidate(d, pkgs[q]) && name_matches(d, pkgs[q], name)
    &&& semver_matches(d.req@, target.version@)
    &&& kinds_match(d, kinds)
}

/// Whether `c` holds the index `q`.
pub open spec fn has_index(c: Seq<usize>, q: int) -> bool {
    exists|k: int| 0 <= k < c.len() && c[k] as int == q
}

/// The candidates of each declaration.
pub open spec fn candidates_ok(
    decls: Seq<Dependency>,
    pkgs: Seq<PackageData>,
    cands: Seq<Vec<usize>>,
) -> bool {
    &&& cands.len() == decls.len()
    &&& forall|i: int| #![trigger cands[i]] 0 <= i < decls.len() ==> {
        &&& forall|k: int| 0 <= k < cands[i]@.len() ==> #[trigger] cands[i]@[k] < pkgs.len()
        &&& forall|q: int| 0 <= q < pkgs.len() ==> (candidate(decls[i], pkgs[q]) <==> has_index(cands[i]@, q))
    }
}

fn opt_str_eq(a: &Option<String>, b: &Option<String>) -> (r: bool)
    ensures
        r == (opt_view(*a) == opt_view(*b)),
{
    match (a, b) {
        (Some(x), Some(y)) => str_eq(x.as_str(), y.as_str()),
        (None, None) => true,
        _ => false,
    }
}

/// The packages by name: each package's name with its index, sorted by name.
#[derive(Debug)]
pub struct NameIndex {
    pub entries: Vec<(String, usize)>,
}

/// Whether some entry is for the package `q`.
pub open spec fn listed(entries: Seq<(String, usize)>, q: int) -> bool {
    exists|k: int| 0 <= k < entries.len() && entries[k].1 as int == q
}

/// `entries` lists every package of `pkgs` under its name, sorted by name.
pub open spec fn index_ok(pkgs: Seq<PackageData>, entries: Seq<(String, usize)>) -> bool {
    &&& forall|k: int| 0 <= k < entries.len() ==> (#[trigger] entries[k]).1 < pkgs.len() && entries[k].0@ == pkgs[entries[k].1 as int].name@
    &&& forall|q: int| 0 <= q < pkgs.len() ==> #[trigger] listed(entries, q)
    &&& forall|a: int, b: int| 0 <= a < b < entries.len() ==> lex_le(entries[a].0@, entries[b].0@)
}

/// Relies on `slice::sort_unstable_by_key`: the slice ends up a permutation of
/// itself, ordered by the key; the key is the name, and `String`'s order is
/// the lexicographic order of its characters.
#[verifier::external_body]
pub(crate) fn sort_by_name(v: &mut Vec<(String, usize)>)
    ensures
        final(v)@.to_multiset() == old(v)@.to_multiset(),
        forall|a: int, b: int| 0 <= a < b < final(v)@.len() ==> lex_le(final(v)@[a].0@, final(v)@[b].0@),
{
    v.sort_unstable_by_key(|e| e.0.clone())
}

impl NameIndex {
    /// Indexes the packages by name.
    pub fn new(pkgs: &Vec<PackageData>) -> (r: Self)
        ensures
            index_ok(pkgs@, r.entries@),
    {
        let mut v: Vec<(String, usize)> = Vec::new();
        let mut q: usize = 0;
        while q < pkgs.len()
            invariant
                q <= pkgs@.len(),
                v@.len() == q,
                forall|k: int| 0 <= k < q ==> (#[trigger] v@[k]).1 == k as usize && v@[k].0@ == pkgs@[k].name@,
            decreases pkgs.len() - q,
        {
            v.push((pkgs[q].name.clone(), q));
            q = q + 1;
        }
        let ghost before = v@;
        sort_by_name(&mut v);
        proof {
            broadcast use vstd::seq_lib::group_to_multiset_ensures;
            assert forall|k: int| 0 <= k < v@.len() implies (#[trigger] v@[k]).1 < pkgs@.len() && v@[k].0@ == pkgs@[v@[k].1 as int].name@ by {
                assert(v@.contains(v@[k]));
                assert(v@.to_multiset().count(v@[k]) > 0);
                assert(before.contains(v@[k]));
                let k2 = choose|k2: int| 0 <= k2 < before.len() && before[k2] == v@[k];
            }
            assert forall|q2: int| 0 <= q2 < pkgs@.len() implies #[trigger] listed(v@, q2) by {
                assert(before[q2].1 == q2 as usize);
                assert(before.contains(before[q2]));
                assert(before.to_multiset().count(before[q2]) > 0);
                assert(v@.contains(before[q2]));
                let k = choose|k: int| 0 <= k < v@.len() && v@[k] == before[q2];
                assert(v@[k].1 as int == q2);
            }
        }
        NameIndex { entries: v }
    }
}

/// For each declaration, the packages it may resolve to: those of its name
/// whose version it accepts, found through the index by name.
pub fn find_candidates(decls: &Vec<Dependency>, pkgs: &Vec<PackageData>, index: &NameIndex) -> (r: Vec<Vec<usize>>)
    requires
        index_ok(pkgs@, index.entries@),
    ensures
        candidates_ok(decls@, pkgs@, r@),
{
    let entries = &index.entries;
    let mut out: Vec<Vec<usize>> = Vec::new();
    let mut i: usize = 0;
    while i < decls.len()
        invariant
            i <= decls@.len(),
            out@.len() == i,
            index_ok(pkgs@, entries@),
            forall|m: int| #![trigger out@[m]] 0 <= m < i ==> {
                &&& forall|k: int| 0 <= k < out@[m]@.len() ==> #[trigger] out@[m]@[k] < pkgs@.len()
                &&& forall|q: int| 0 <= q < pkgs@.len() ==> (candidate(decls@[m], pkgs@[q]) <==> has_index(out@[m]@, q))
            },
        decreases decls.len() - i,
    {
        let d = &decls[i];
        let c = candidates_of(d, pkgs, entries);
        out.push(c);
        i = i + 1;
    }
    out
}

/// The packages the declaration `d` may resolve to.
fn candidates_of(d: &Dependency, pkgs: &Vec<PackageData>, entries: &Vec<(String, usize)>) -> (c: Vec<usize>)
    requires
        index_ok(pkgs@, entries@),
    ensures
        forall|k: int| 0 <= k < c@.len() ==> #[trigger] c@[k] < pkgs@.len(),
        forall|q: int| 0 <= q < pkgs@.len() ==> (candidate(*d, pkgs@[q]) <==> has_index(c@, q)),
{
    let name = &d.name;
    let mut lo: usize = 0;
    let mut hi: usize = entries.len();
    while lo < hi
        invariant
            lo <= hi <= entries@.len(),
            index_ok(pkgs@, entries@),
            name@ == d.name@,
            forall|k: int| 0 <= k < lo ==> !lex_le(name@, (#[trigger] entries@[k]).0@),
            forall|k: int| hi <= k < entries@.len() ==> lex_le(name@, (#[trigger] entries@[k]).0@),
        decreases hi - lo,
    {
        let mid = lo + (hi - lo) / 2;
        if !lex_le_exec(name.as_str(), entries[mid].0.as_str()) {
            proof {
                assert forall|k: int| 0 <= k <= mid implies !lex_le(name@, (#[trigger] entries@[k]).0@) by {
                    if k < mid && lex_le(name@, entries@[k].0@) {
                        lemma_lex_trans(name@, entries@[k].0@, entries@[mid as int].0@);
                    }
                }
            }
            lo = mid + 1;
        } else {
            proof {
                assert forall|k: int| mid <= k < entries@.len() implies lex_le(name@, (#[trigger] entries@[k]).0@) by {
                    if k > mid {
                        lemma_lex_trans(name@, entries@[mid as int].0@, entries@[k].0@);
                    }
                }
            }
            hi = mid;
        }
    }
    let start = lo;
    let mut c: Vec<usize> = Vec::new();
    let mut k = start;
    while k < entries.len()
        invariant
            start <= k <= entries@.len(),
            index_ok(pkgs@, entries@),
            name@ == d.name@,
            forall|x: int| 0 <= x < start ==> !lex_le(name@, (#[trigger] entries@[x]).0@),
            forall|x: int| start <= x < entries@.len() ==> lex_le(name@, (#[trigger] entries@[x]).0@),
            forall|x: int| start <= x < k ==> (#[trigger] entries@[x]).0@ == name@,
            forall|m: int| 0 <= m < c@.len() ==> #[trigger] c@[m] < pkgs@.len() && candidate(*d, pkgs@[c@[m] as int]),
            forall|x: int| start <= x < k && candidate(*d, pkgs@[(#[trigger] entries@[x]).1 as int]) ==> has_index(c@, entries@[x].1 as int),
        ensures
            start <= k <= entries@.len(),
            forall|x: int| start <= x < k ==> (#[trigger] entries@[x]).0@ == name@,
            k < entries@.len() ==> entries@[k as int].0@ != name@,
            forall|m: int| 0 <= m < c@.len() ==> #[trigger] c@[m] < pkgs@.len() && candidate(*d, pkgs@[c@[m] as int]),
            forall|x: int| start <= x < k && candidate(*d, pkgs@[(#[trigger] entries@[x]).1 as int]) ==> has_index(c@, entries@[x].1 as int),
        decreases entries.len() - k,
    {
        if !str_eq(entries[k].0.as_str(), name.as_str()) {
            break;
        }
        let q = entries[k].1;
        assert(entries@[k as int].1 < pkgs@.len() && entries@[k as int].0@ == pkgs@[q as int].name@);
        let ghost before = c@;
        if version_matches(d.req.as_str(), pkgs[q].version.as_str()) {
            c.push(q);
            proof {
                assert(c@[before.len() as int] == q);
                assert(candidate(*d, pkgs@[q as int]));
                assert forall|m: int| 0 <= m < c@.len() implies #[trigger] c@[m] < pkgs@.len() && candidate(*d, pkgs@[c@[m] as int]) by {
                    if m < before.len() {
                        assert(c@[m] == before[m]);
                    }
                }
            }
        }
        proof {
            assert forall|x: int| start <= x < k + 1 && candidate(*d, pkgs@[(#[trigger] entries@[x]).1 as int]) implies has_index(c@, entries@[x].1 as int) by {
                if x < k {
                    let m = choose|m: int| 0 <= m < before.len() && before[m] as int == entries@[x].1 as int;
                    assert(c@[m] == before[m]);
                } else {
                    assert(c@[before.len() as int] == q);
                }
            }
        }
        k = k + 1;
    }
    proof {
        assert forall|q: int| 0 <= q < pkgs@.len() implies (candidate(*d, pkgs@[q]) <==> has_index(c@, q)) by {
            if has_index(c@, q) {
                let m = choose|m: int| 0 <= m < c@.len() && c@[m] as int == q;
            }
            if candidate(*d, pkgs@[q]) {
                assert(listed(entries@, q));
                let x = choose|x: int| 0 <= x < entries@.len() && entries@[x].1 as int == q;
                assert(entries@[x].0@ == name@);
                if x < start {
                    lemma_lex_refl(name@);
                } else if x >= k {
                    if x > k {
                        assert(lex_le(entries@[k as int].0@, entries@[x].0@));
                        lemma_lex_antisym(entries@[k as int].0@, name@);
                    }
                }
            }
        }
    }
    c
}

/// Whether the resolved name is matched by `name`.
pub fn resolved_matches_exec(r: &ResolvedName, name: &str) -> (b: bool)
    ensures
        b == resolved_matches(r@, name@),
{
    match r {
        ResolvedName::LibNameSpecified(s) => str_eq(s.as_str(), name),
        ResolvedName::LibNameNotSpecified(s) => str_eq(s.as_str(), name),
        ResolvedName::NoLibTarget => name.unicode_len() == 0,
    }
}

/// Whether the declaration explains the resolved edge.
pub fn decl_matches_exec(
    d: &Dependency,
    cands: &Vec<usize>,
    pkgs: &Vec<PackageData>,
    name: &str,
    target: &PackageData,
    kinds: &Vec<DepKindInfo>,
) -> (r: bool)
    requires
        forall|k: int| 0 <= k < cands@.len() ==> #[trigger] cands@[k] < pkgs@.len(),
        forall|q: int| 0 <= q < pkgs@.len() ==> (candidate(*d, pkgs@[q]) <==> has_index(cands@, q)),
    ensures
        r == decl_matches(*d, pkgs@, name@, *target, kinds@),
{
    let renamed = match &d.rename {
        Some(r) => {
            let fixed = replace_char_exec(r.as_str(), '-', '_');
            str_eq(fixed.as_str(), name)
        },
        None => false,
    };
    let mut found = false;
    let mut k: usize = 0;
    while k < cands.len()
        invariant
            k <= cands@.len(),
            renamed == rename_matches(*d, name@),
            forall|m: int| 0 <= m < cands@.len() ==> #[trigger] cands@[m] < pkgs@.len(),
            forall|q: int| 0 <= q < pkgs@.len() ==> (candidate(*d, pkgs@[q]) <==> has_index(cands@, q)),
            found ==> exists|q: int| 0 <= q < pkgs@.len() && candidate(*d, pkgs@[q]) && name_matches(*d, pkgs@[q], name@),
            !found ==> forall|m: int| 0 <= m < k ==> !name_matches(*d, #[trigger] pkgs@[cands@[m] as int], name@),
        ensures
            found ==> exists|q: int| 0 <= q < pkgs@.len() && candidate(*d, pkgs@[q]) && name_matches(*d, pkgs@[q], name@),
            !found ==> forall|m: int| 0 <= m < cands@.len() ==> !name_matches(*d, #[trigger] pkgs@[cands@[m] as int], name@),
        decreases cands.len() - k,
    {
        let q = cands[k];
        let hit = renamed || (d.rename.is_none() && resolved_matches_exec(&pkgs[q].resolved_name, name));
        if hit {
            assert(cands@[k as int] as int == q as int);
            assert(has_index(cands@, q as int));
            assert(candidate(*d, pkgs@[q as int]));
            found = true;
            break;
        }
        k = k + 1;
    }
    proof {
        if !found {
            assert forall|q: int| 0 <= q < pkgs@.len() && candidate(*d, pkgs@[q]) implies !name_matches(*d, pkgs@[q], name@) by {
                assert(has_index(cands@, q));
                let m = choose|m: int| 0 <= m < cands@.len() && cands@[m] as int == q;
                assert(!name_matches(*d, pkgs@[cands@[m] as int], name@));
            }
        }
    }
    if !found || !version_matches(d.req.as_str(), target.version.as_str()) {
        return false;
    }
    if kinds.len() == 0 {
        return true;
    }
    let mut j: usize = 0;
    while j < kinds.len()
        invariant
            j <= kinds@.len(),
            kinds@.len() > 0,
            exists|q: int| 0 <= q < pkgs@.len() && candidate(*d, pkgs@[q]) && name_matches(*d, pkgs@[q], name@),
            semver_matches(d.req@, target.version@),
            forall|m: int| 0 <= m < j ==> !(kinds@[m].kind == d.kind && opt_view(kinds@[m].target) == opt_view(d.target)),
        decreases kinds.len() - j,
    {
        if kinds[j].kind == d.kind && opt_str_eq(&kinds[j].target, &d.target) {
            assert(kinds@[j as int].kind == d.kind && opt_view(kinds@[j as int].target) == opt_view(d.target));
            return true;
        }
        j = j + 1;
    }
    false
}

/// The indices, in order, of the declarations that explain the resolved edge.
pub fn matching_declarations(
    decls: &Vec<Dependency>,
    cands: &Vec<Vec<usize>>,
    pkgs: &Vec<PackageData>,
    name: &str,
    target: &PackageData,
    kinds: &Vec<DepKindInfo>,
) -> (r: Vec<usize>)
    requires
        candidates_ok(decls@, pkgs@, cands@),
    ensures
        r@ == matching_indices(decls@, pkgs@, name@, *target, kinds@, decls@.len() as int),
{
    let mut out: Vec<usize> = Vec::new();
    let mut i: usize = 0;
    while i < decls.len()
        invariant
            i <= decls@.len(),
            candidates_ok(decls@, pkgs@, cands@),
            out@ == matching_indices(decls@, pkgs@, name@, *target, kinds@, i as int),
        decreases decls.len() - i,
    {
        if decl_matches_exec(&decls[i], &cands[i], pkgs, name, target, kinds) {
            out.push(i);
        }
        i = i + 1;
    }
    out
}

/// The indices below `n`, in order, of the declarations that explain the resolved edge.
pub open spec fn matching_indices(
    decls: Seq<Dependency>,
    pkgs: Seq<PackageData>,
    name: Seq<char>,
    target: PackageData,
    kinds: Seq<DepKindInfo>,
    n: int,
) -> Seq<usize>
    decreases n,
{
    if n <= 0 {
        Seq::empty()
    } else {
        let prev = matching_indices(decls, pkgs, name, target, kinds, n - 1);
        if decl_matches(decls[n - 1], pkgs, name, target, kinds) {
            prev.push((n - 1) as usize)
        } else {
            prev
        }
    }
}


/// The required and optional halves of one kind of dependency relationship.
#[derive(Debug)]
pub struct DependencyReq {
    pub required: DepRequiredOrOptional,
    pub optional: DepRequiredOrOptional,
}

impl DependencyReq {
    pub open spec fn wf(&self) -> bool {
        keys_distinct(self.required.feature_targets@) && keys_distinct(self.optional.feature_targets@)
    }

    /// The relationship with nothing folded in.
    pub fn new() -> (r: Self)
        ensures
            r.wf(),
            r.required@ == empty_half(),
            r.optional@ == empty_half(),
    {
        DependencyReq { required: DepRequiredOrOptional::new(), optional: DepRequiredOrOptional::new() }
    }

    /// Folds a declaration into the half its optional flag selects.
    pub fn add_instance(&mut self, dep: &Dependency)
        requires
            old(self).wf(),
        ensures
            final(self).wf(),
            dep.optional ==> final(self).optional@ == half_step(old(self).optional@, *dep)
                && final(self).required@ == old(self).required@,
            !dep.optional ==> final(self).required@ == half_step(old(self).required@, *dep)
                && final(self).optional@ == old(self).optional@,
    {
        if dep.optional {
            self.optional.add_instance(dep);
        } else {
            self.required.add_instance(dep);
        }
    }
}

/// A dependency edge: one per ordered package pair, merging every manifest
/// declaration that explains it.
#[derive(Debug)]
pub struct PackageLink {
    /// The index of the package that depends.
    pub from: usize,
    /// The index of the package depended on.
    pub to: usize,
    /// The name of the first matching declaration (its rename, if any).
    pub dep_name: String,
    /// The symbol name of the resolved edge.
    pub resolved_name: String,
    /// The version requirement of the first matching declaration, for display.
    pub version_req: String,
    pub normal: DependencyReq,
    pub build: DependencyReq,
    pub dev: DependencyReq,
}

/// The declarations that `idx` picks out of `decls`, in order.
pub open spec fn picked(decls: Seq<Dependency>, idx: Seq<usize>) -> Seq<Dependency> {
    idx.map_values(|i: usize| decls[i as int])
}

/// A dev-dependency marked optional.
pub open spec fn optional_dev(d: Dependency) -> bool {
    d.kind == DependencyKind::Development && d.optional
}

/// A declaration of a known kind whose platform condition does not parse.
pub open spec fn bad_platform(d: Dependency) -> bool {
    d.kind != DependencyKind::Unknown && d.target is Some && !spec_valid(d.target->0@)
}

/// A declaration that makes construction fail.
pub open spec fn fault(d: Dependency) -> bool {
    optional_dev(d) || bad_platform(d)
}

/// The name a declaration goes by: its rename, else its package name.
pub open spec fn rename_or_name(d: Dependency) -> Seq<char> {
    match d.rename {
        Some(r) => r@,
        None => d.name@,
    }
}

/// The halves of a link are the folds of the declarations `ds`.
pub open spec fn halves_of(l: PackageLink, ds: Seq<Dependency>) -> bool {
    &&& l.normal.required@ == half_of(ds, DependencyKind::Normal, false)
    &&& l.normal.optional@ == half_of(ds, DependencyKind::Normal, true)
    &&& l.build.required@ == half_of(ds, DependencyKind::Build, false)
    &&& l.build.optional@ == half_of(ds, DependencyKind::Build, true)
    &&& l.dev.required@ == half_of(ds, DependencyKind::Development, false)
    &&& l.dev.optional@ == half_of(ds, DependencyKind::Development, true)
}

/// What merging the declarations `ds` gives for the resolved edge `from -> to`
/// with symbol name `name`.
pub open spec fn link_result(r: Result<PackageLink, Error>, ds: Seq<Dependency>, from: usize, to: usize, name: Seq<char>) -> bool {
    if ds.len() == 0 {
        r is Err && r->Err_0 is NoMatchingDependency
    } else if exists|i: int| 0 <= i < ds.len() && fault(ds[i]) {
        r is Err && exists|i: int|
            0 <= i < ds.len() && fault(ds[i]) && (forall|j: int| 0 <= j < i ==> !fault(ds[j])) && (if optional_dev(ds[i]) {
                r->Err_0 is OptionalDevDependency
            } else {
                r->Err_0 is InvalidPlatform
            })
    } else {
        &&& r is Ok
        &&& r->Ok_0.from == from
        &&& r->Ok_0.to == to
        &&& r->Ok_0.dep_name@ == rename_or_name(ds[0])
        &&& r->Ok_0.version_req@ == ds[0].req@
        &&& r->Ok_0.resolved_name@ == name
        &&& halves_of(r->Ok_0, ds)
    }
}

fn rename_or_name_exec(d: &Dependency) -> (r: String)
    ensures
        r@ == rename_or_name(*d),
{
    match &d.rename {
        Some(r) => r.clone(),
        None => d.name.clone(),
    }
}

fn add_to(req: &mut DependencyReq, d: &Dependency, Ghost(ds): Ghost<Seq<Dependency>>, Ghost(kind): Ghost<DependencyKind>)
    requires
        old(req).wf(),
        old(req).required@ == half_of(ds, kind, false),
        old(req).optional@ == half_of(ds, kind, true),
        d.kind == kind,
    ensures
        final(req).wf(),
        final(req).required@ == half_of(ds.push(*d), kind, false),
        final(req).optional@ == half_of(ds.push(*d), kind, true),
{
    proof {
        lemma_half_push(ds, *d, kind, false);
        lemma_half_push(ds, *d, kind, true);
    }
    req.add_instance(d);
}

/// Merges the declarations that `idx` picks out of `decls` into the link for
/// the resolved edge `from -> to` with symbol name `resolved_name`.
pub fn merge_link(
    from_id: &String,
    from: usize,
    to: usize,
    resolved_name: &str,
    decls: &Vec<Dependency>,
    idx: &Vec<usize>,
) -> (r: Result<PackageLink, Error>)
    requires
        forall|k: int| 0 <= k < idx@.len() ==> #[trigger] idx@[k] < decls@.len(),
    ensures
        link_result(r, picked(decls@, idx@), from, to, resolved_name@),
        r is Ok ==> r->Ok_0.normal.wf() && r->Ok_0.build.wf() && r->Ok_0.dev.wf(),
{
    let ghost all = picked(decls@, idx@);
    let mut normal = DependencyReq::new();
    let mut build = DependencyReq::new();
    let mut dev = DependencyReq::new();
    let mut dep_name: Option<String> = None;
    let mut version_req: Option<String> = None;
    proof {
        lemma_half_of_empty(DependencyKind::Normal, false);
        lemma_half_of_empty(DependencyKind::Normal, true);
        lemma_half_of_empty(DependencyKind::Build, false);
        lemma_half_of_empty(DependencyKind::Build, true);
        lemma_half_of_empty(DependencyKind::Development, false);
        lemma_half_of_empty(DependencyKind::Development, true);
        assert(all.subrange(0, 0) =~= Seq::<Dependency>::empty());
    }
    let mut k: usize = 0;
    while k < idx.len()
        invariant
            k <= idx@.len(),
            all == picked(decls@, idx@),
            forall|m: int| 0 <= m < idx@.len() ==> #[trigger] idx@[m] < decls@.len(),
            forall|j: int| 0 <= j < k ==> !fault(all[j]),
            normal.wf() && build.wf() && dev.wf(),
            normal.required@ == half_of(all.subrange(0, k as int), DependencyKind::Normal, false),
            normal.optional@ == half_of(all.subrange(0, k as int), DependencyKind::Normal, true),
            build.required@ == half_of(all.subrange(0, k as int), DependencyKind::Build, false),
            build.optional@ == half_of(all.subrange(0, k as int), DependencyKind::Build, true),
            dev.required@ == half_of(all.subrange(0, k as int), DependencyKind::Development, false),
            dev.optional@ == half_of(all.subrange(0, k as int), DependencyKind::Development, true),
            k == 0 <==> dep_name is None,
            k == 0 <==> version_req is None,
            k > 0 ==> dep_name->Some_0@ == rename_or_name(all[0]),
            k > 0 ==> version_req->Some_0@ == all[0].req@,
        decreases idx.len() - k,
    {
        let d = &decls[idx[k]];
        let ghost pre = all.subrange(0, k as int);
        assert(*d == all[k as int]);
        assert(all.subrange(0, k + 1) =~= pre.push(*d));
        if dep_name.is_none() {
            dep_name = Some(rename_or_name_exec(d));
            version_req = Some(d.req.clone());
        }
        if d.kind == DependencyKind::Development && d.optional {
            let name = match dep_name {
                Some(n) => n,
                None => String::new(),
            };
            assert(fault(all[k as int]));
            return Err(Error::OptionalDevDependency { package: from_id.clone(), dependency: name });
        }
        if d.kind != DependencyKind::Unknown {
            match &d.target {
                Some(t) => {
                    match parse_target_spec(t.as_str()) {
                        Ok(_) => {},
                        Err(e) => {
                            assert(fault(all[k as int]));
                            return Err(Error::InvalidPlatform { package: from_id.clone(), dependency: d.name.clone(), error: e });
                        },
                    }
                },
                None => {},
            }
        }
        match d.kind {
            DependencyKind::Normal => {
                add_to(&mut normal, d, Ghost(pre), Ghost(DependencyKind::Normal));
                proof {
                    lemma_half_push(pre, *d, DependencyKind::Build, false);
                    lemma_half_push(pre, *d, DependencyKind::Build, true);
                    lemma_half_push(pre, *d, DependencyKind::Development, false);
                    lemma_half_push(pre, *d, DependencyKind::Development, true);
                }
            },
            DependencyKind::Build => {
                add_to(&mut build, d, Ghost(pre), Ghost(DependencyKind::Build));
                proof {
                    lemma_half_push(pre, *d, DependencyKind::Normal, false);
                    lemma_half_push(pre, *d, DependencyKind::Normal, true);
                    lemma_half_push(pre, *d, DependencyKind::Development, false);
                    lemma_half_push(pre, *d, DependencyKind::Development, true);
                }
            },
            DependencyKind::Development => {
                add_to(&mut dev, d, Ghost(pre), Ghost(DependencyKind::Development));
                proof {
                    lemma_half_push(pre, *d, DependencyKind::Normal, false);
                    lemma_half_push(pre, *d, DependencyKind::Normal, true);
                    lemma_half_push(pre, *d, DependencyKind::Build, false);
                    lemma_half_push(pre, *d, DependencyKind::Build, true);
                }
            },
            DependencyKind::Unknown => {
                proof {
                    lemma_half_push(pre, *d, DependencyKind::Normal, false);
                    lemma_half_push(pre, *d, DependencyKind::Normal, true);
                    lemma_half_push(pre, *d, DependencyKind::Build, false);
                    lemma_half_push(pre, *d, DependencyKind::Build, true);
                    lemma_half_push(pre, *d, DependencyKind::Development, false);
                    lemma_half_push(pre, *d, DependencyKind::Development, true);
                }
            },
        }
        k = k + 1;
    }
    proof {
        assert(all.subrange(0, k as int) =~= all);
    }
    match (dep_name, version_req) {
        (Some(dep_name), Some(version_req)) => Ok(PackageLink {
            from,
            to,
            dep_name,
            resolved_name: resolved_name.to_owned(),
            version_req,
            normal,
            build,
            dev,
        }),
        _ => Err(Error::NoMatchingDependency { package: from_id.clone(), resolved_name: resolved_name.to_owned() }),
    }
}


/// The indices of matching declarations are indices of declarations.
pub proof fn lemma_matching_in_range(
    decls: Seq<Dependency>,
    pkgs: Seq<PackageData>,
    name: Seq<char>,
    target: PackageData,
    kinds: Seq<DepKindInfo>,
    n: int,
)
    requires
        n <= decls.len(),
    ensures
        forall|q: int| 0 <= q < matching_indices(decls, pkgs, name, target, kinds, n).len()
            ==> #[trigger] matching_indices(decls, pkgs, name, target, kinds, n)[q] < n,
    decreases n,
{
    if n > 0 {
        lemma_matching_in_range(decls, pkgs, name, target, kinds, n - 1);
        let prev = matching_indices(decls, pkgs, name, target, kinds, n - 1);
        let cur = matching_indices(decls, pkgs, name, target, kinds, n);
        assert forall|q: int| 0 <= q < cur.len() implies #[trigger] cur[q] < n by {
            if q < prev.len() {
                assert(cur[q] == prev[q]);
            }
        }
    }
}

} // verus!
