//! Named features: parsing feature-dependency strings, and the feature table
//! of a package with an implicit feature for each optional dependency that
//! no feature names explicitly.

use vstd::prelude::*;
use crate::errors::Error;
use crate::metadata::Dependency;
use crate::matcher::rename_or_name;
use crate::text::{chars_of, substring, str_eq, views_of, dedup, dedup_strings};

verus! {

/// One entry of a named feature's list.
#[derive(Debug, PartialEq, Eq)]
pub enum NamedFeatureDep {
    /// Turn on another named feature of this package.
    NamedFeature(String),
    /// Turn on an optional dependency (`dep:name`).
    OptionalDependency(String),
    /// Turn on a feature of a dependency (`dep/feature`); `weak` for
    /// `dep?/feature`, which does not turn the dependency on.
    DependencyNamedFeature { dep_name: String, feature: String, weak: bool },
}

pub enum FeatureDepView {
    NamedFeature(Seq<char>),
    OptionalDependency(Seq<char>),
    DependencyNamedFeature(Seq<char>, Seq<char>, bool),
}

impl View for NamedFeatureDep {
    type V = FeatureDepView;

    open spec fn view(&self) -> FeatureDepView {
        match self {
            NamedFeatureDep::NamedFeature(s) => FeatureDepView::NamedFeature(s@),
            NamedFeatureDep::OptionalDependency(s) => FeatureDepView::OptionalDependency(s@),
            NamedFeatureDep::DependencyNamedFeature { dep_name, feature, weak } => FeatureDepView::DependencyNamedFeature(
                dep_name@,
                feature@,
                *weak,
            ),
        }
    }
}

/// The index of the first `/` of `s` at or after `i`, or the length of `s`.
pub open spec fn first_slash(s: Seq<char>, i: int) -> int
    decreases s.len() - i,
{
    if i >= s.len() {
        s.len() as int
    } else if s[i] == '/' {
        i
    } else {
        first_slash(s, i + 1)
    }
}

/// What a feature-dependency string means: `a/b` and `a?/b` name a feature of
/// a dependency, `dep:a` an optional dependency, anything else a named feature.
pub open spec fn parse_feature_dep(s: Seq<char>) -> FeatureDepView {
    let k = first_slash(s, 0);
    if k < s.len() {
        let dep = s.subrange(0, k);
        let feature = s.subrange(k + 1, s.len() as int);
        if dep.len() > 0 && dep.last() == '?' {
            FeatureDepView::DependencyNamedFeature(dep.drop_last(), feature, true)
        } else {
            FeatureDepView::DependencyNamedFeature(dep, feature, false)
        }
    } else if s.len() >= 4 && s[0] == 'd' && s[1] == 'e' && s[2] == 'p' && s[3] == ':' {
        FeatureDepView::OptionalDependency(s.subrange(4, s.len() as int))
    } else {
        FeatureDepView::NamedFeature(s)
    }
}

impl NamedFeatureDep {
    /// Parses a feature-dependency string as the manifest writes it.
    pub fn from_cargo_string(input: &str) -> (r: NamedFeatureDep)
        ensures
            r@ == parse_feature_dep(input@),
    {
        let cs = chars_of(input);
        let mut k: usize = 0;
        while k < cs.len()
            invariant
                k <= cs@.len(),
                cs@ == input@,
                first_slash(input@, 0) == first_slash(input@, k as int),
            ensures
                k <= cs@.len(),
                first_slash(input@, 0) == k,
            decreases cs.len() - k,
        {
            if cs[k] == '/' {
                break;
            }
            k = k + 1;
        }
        if k < cs.len() {
            let feature = substring(&cs, k + 1, cs.len());
            if k > 0 && cs[k - 1] == '?' {
                let dep_name = substring(&cs, 0, k - 1);
                assert(cs@.subrange(0, k as int).drop_last() =~= cs@.subrange(0, k - 1));
                NamedFeatureDep::DependencyNamedFeature { dep_name, feature, weak: true }
            } else {
                let dep_name = substring(&cs, 0, k);
                NamedFeatureDep::DependencyNamedFeature { dep_name, feature, weak: false }
            }
        } else if cs.len() >= 4 && cs[0] == 'd' && cs[1] == 'e' && cs[2] == 'p' && cs[3] == ':' {
            NamedFeatureDep::OptionalDependency(substring(&cs, 4, cs.len()))
        } else {
            NamedFeatureDep::NamedFeature(input.to_owned())
        }
    }

    /// A named feature.
    pub fn named_feature(name: &str) -> (r: NamedFeatureDep)
        ensures
            r@ == FeatureDepView::NamedFeature(name@),
    {
        NamedFeatureDep::NamedFeature(name.to_owned())
    }

    /// An optional dependency.
    pub fn optional_dependency(name: &str) -> (r: NamedFeatureDep)
        ensures
            r@ == FeatureDepView::OptionalDependency(name@),
    {
        NamedFeatureDep::OptionalDependency(name.to_owned())
    }

    /// A feature of a dependency.
    pub fn dep_named_feature(dep_name: &str, feature: &str, weak: bool) -> (r: NamedFeatureDep)
        ensures
            r@ == FeatureDepView::DependencyNamedFeature(dep_name@, feature@, weak),
    {
        NamedFeatureDep::DependencyNamedFeature { dep_name: dep_name.to_owned(), feature: feature.to_owned(), weak }
    }

    /// Whether two entries are the same.
    pub fn same(&self, other: &NamedFeatureDep) -> (r: bool)
        ensures
            r == (self@ == other@),
    {
        match (self, other) {
            (NamedFeatureDep::NamedFeature(a), NamedFeatureDep::NamedFeature(b)) => str_eq(a.as_str(), b.as_str()),
            (NamedFeatureDep::OptionalDependency(a), NamedFeatureDep::OptionalDependency(b)) => str_eq(
                a.as_str(),
                b.as_str(),
            ),
            (
                NamedFeatureDep::DependencyNamedFeature { dep_name: a, feature: f, weak: w },
                NamedFeatureDep::DependencyNamedFeature { dep_name: b, feature: g, weak: x },
            ) => str_eq(a.as_str(), b.as_str()) && str_eq(f.as_str(), g.as_str()) && *w == *x,
            _ => false,
        }
    }
}


/// What a list of feature-dependency strings means.
pub open spec fn parse_all(v: Seq<String>) -> Seq<FeatureDepView> {
    Seq::new(v.len(), |i: int| parse_feature_dep(v[i]@))
}

/// The explicit features: each name with its parsed list, a later entry of a
/// name replacing an earlier one.
pub open spec fn explicit_map(fs: Seq<(String, Vec<String>)>) -> Map<Seq<char>, Seq<FeatureDepView>>
    decreases fs.len(),
{
    if fs.len() == 0 {
        Map::empty()
    } else {
        explicit_map(fs.drop_last()).insert(fs.last().0@, parse_all(fs.last().1@))
    }
}

/// The names of the optional declarations, in order, with repeats.
pub open spec fn optional_raw(decls: Seq<Dependency>) -> Seq<Seq<char>>
    decreases decls.len(),
{
    if decls.len() == 0 {
        Seq::empty()
    } else if decls.last().optional {
        optional_raw(decls.drop_last()).push(rename_or_name(decls.last()))
    } else {
        optional_raw(decls.drop_last())
    }
}

/// The optional dependencies of a package: the names (renames where given) of
/// its optional declarations, each once, in order of first appearance.
pub open spec fn optional_names(decls: Seq<Dependency>) -> Seq<Seq<char>> {
    dedup(optional_raw(decls))
}

/// Whether the entry `b` of feature `a` lies before position (`i`, `j`).
pub open spec fn before(fs: Seq<(String, Vec<String>)>, a: int, b: int, i: int, j: int) -> bool {
    (0 <= a < i && a < fs.len() && 0 <= b < fs[a].1@.len()) || (a == i && a < fs.len() && 0 <= b < j && b < fs[a].1@.len())
}

/// Whether some feature entry before (`i`, `j`) turns on `dep:o`.
pub open spec fn seen_upto(fs: Seq<(String, Vec<String>)>, i: int, j: int, o: Seq<char>) -> bool {
    exists|a: int, b: int| before(fs, a, b, i, j)
        && parse_feature_dep(fs[a].1@[b]@) == FeatureDepView::OptionalDependency(o)
}

/// Whether some feature turns on `dep:o`.
pub open spec fn seen_explicitly(fs: Seq<(String, Vec<String>)>, o: Seq<char>) -> bool {
    seen_upto(fs, fs.len() as int, 0, o)
}

/// Whether some feature entry before (`i`, `j`) turns on `dep:o` for an `o` that is no optional dependency.
pub open spec fn bad_upto(fs: Seq<(String, Vec<String>)>, i: int, j: int, optional: Seq<Seq<char>>) -> bool {
    exists|a: int, b: int| before(fs, a, b, i, j)
        && (parse_feature_dep(fs[a].1@[b]@) is OptionalDependency)
        && !optional.contains(parse_feature_dep(fs[a].1@[b]@)->OptionalDependency_0)
}

/// The feature table of a package: its explicit features, and for each
/// optional dependency that no feature turns on with `dep:`, an implicit
/// feature of the same name that turns on just that dependency.
pub open spec fn feature_table(fs: Seq<(String, Vec<String>)>, optional: Seq<Seq<char>>) -> Map<Seq<char>, Seq<FeatureDepView>> {
    explicit_map(fs).union_prefer_right(
        Map::new(
            |o: Seq<char>| optional.contains(o) && !seen_explicitly(fs, o),
            |o: Seq<char>| seq![FeatureDepView::OptionalDependency(o)],
        ),
    )
}

pub open spec fn dep_views(v: Vec<NamedFeatureDep>) -> Seq<FeatureDepView> {
    v@.map_values(|d: NamedFeatureDep| d@)
}

/// The view of a feature list with distinct names.
pub open spec fn table_map(v: Seq<(String, Vec<NamedFeatureDep>)>) -> Map<Seq<char>, Seq<FeatureDepView>> {
    Map::new(
        |f: Seq<char>| exists|i: int| 0 <= i < v.len() && v[i].0@ == f,
        |f: Seq<char>| dep_views(v[choose|i: int| 0 <= i < v.len() && v[i].0@ == f].1),
    )
}

pub open spec fn names_distinct(v: Seq<(String, Vec<NamedFeatureDep>)>) -> bool {
    forall|i: int, j: int| 0 <= i < j < v.len() ==> v[i].0@ != v[j].0@
}

proof fn lemma_table_at(v: Seq<(String, Vec<NamedFeatureDep>)>, i: int)
    requires
        names_distinct(v),
        0 <= i < v.len(),
    ensures
        table_map(v).contains_key(v[i].0@),
        table_map(v)[v[i].0@] == dep_views(v[i].1),
{
    let j = choose|j: int| 0 <= j < v.len() && v[j].0@ == v[i].0@;
    if j != i {
        if j < i {
            assert(v[j].0@ != v[i].0@);
        } else {
            assert(v[i].0@ != v[j].0@);
        }
    }
}

/// Sets `key` to `value`, in place where the key is present, else at the end.
fn table_insert(t: &mut Vec<(String, Vec<NamedFeatureDep>)>, key: String, value: Vec<NamedFeatureDep>)
    requires
        names_distinct(old(t)@),
    ensures
        names_distinct(final(t)@),
        table_map(final(t)@) == table_map(old(t)@).insert(key@, dep_views(value)),
{
    let ghost v = t@;
    let ghost val = dep_views(value);
    let mut i: usize = 0;
    while i < t.len()
        invariant
            i <= t@.len(),
            t@ == v,
            forall|m: int| 0 <= m < i ==> v[m].0@ != key@,
        ensures
            i <= t@.len(),
            t@ == v,
            i < t@.len() ==> v[i as int].0@ == key@,
            forall|m: int| 0 <= m < i ==> v[m].0@ != key@,
        decreases t.len() - i,
    {
        if str_eq(t[i].0.as_str(), key.as_str()) {
            break;
        }
        i = i + 1;
    }
    if i < t.len() {
        t.set(i, (key, value));
    } else {
        t.push((key, value));
    }
    proof {
        let nv = t@;
        assert(names_distinct(nv));
        assert forall|f: Seq<char>| #[trigger] table_map(nv).contains_key(f) == table_map(v).insert(key@, val).contains_key(f) by {
            if table_map(v).contains_key(f) {
                let m = choose|m: int| 0 <= m < v.len() && v[m].0@ == f;
                assert(nv[m].0@ == f);
            }
            if table_map(nv).contains_key(f) {
                let m = choose|m: int| 0 <= m < nv.len() && nv[m].0@ == f;
                if m < v.len() && m != i {
                    assert(v[m].0@ == f);
                }
            }
            if f == key@ {
                assert(nv[i as int].0@ == key@);
            }
        }
        assert forall|f: Seq<char>| table_map(nv).contains_key(f) implies table_map(nv)[f] == table_map(v).insert(key@, val)[f] by {
            let m = choose|m: int| 0 <= m < nv.len() && nv[m].0@ == f;
            lemma_table_at(nv, m);
            if m != i {
                lemma_table_at(v, m);
            }
        }
        assert(table_map(nv) =~= table_map(v).insert(key@, val));
    }
}


proof fn lemma_upto_step(fs: Seq<(String, Vec<String>)>, i: int, j: int, optional: Seq<Seq<char>>)
    requires
        0 <= i < fs.len(),
        0 <= j < fs[i].1@.len(),
    ensures
        forall|o: Seq<char>| #[trigger] seen_upto(fs, i, j + 1, o) == (seen_upto(fs, i, j, o)
            || parse_feature_dep(fs[i].1@[j]@) == FeatureDepView::OptionalDependency(o)),
        bad_upto(fs, i, j + 1, optional) == (bad_upto(fs, i, j, optional) || (
            (parse_feature_dep(fs[i].1@[j]@) is OptionalDependency)
            && !optional.contains(parse_feature_dep(fs[i].1@[j]@)->OptionalDependency_0))),
{
    assert forall|o: Seq<char>| #[trigger] seen_upto(fs, i, j + 1, o) == (seen_upto(fs, i, j, o)
        || parse_feature_dep(fs[i].1@[j]@) == FeatureDepView::OptionalDependency(o)) by {
        if seen_upto(fs, i, j + 1, o) {
            let (a, b) = choose|a: int, b: int| before(fs, a, b, i, j + 1)
                && parse_feature_dep(fs[a].1@[b]@) == FeatureDepView::OptionalDependency(o);
            if !(a == i && b == j) {
                assert(before(fs, a, b, i, j));
            }
        }
        if seen_upto(fs, i, j, o) {
            let (a, b) = choose|a: int, b: int| before(fs, a, b, i, j)
                && parse_feature_dep(fs[a].1@[b]@) == FeatureDepView::OptionalDependency(o);
            assert(before(fs, a, b, i, j + 1));
        }
        if parse_feature_dep(fs[i].1@[j]@) == FeatureDepView::OptionalDependency(o) {
            assert(before(fs, i, j, i, j + 1));
        }
    }
    if bad_upto(fs, i, j + 1, optional) {
        let (a, b) = choose|a: int, b: int| before(fs, a, b, i, j + 1)
            && (parse_feature_dep(fs[a].1@[b]@) is OptionalDependency)
            && !optional.contains(parse_feature_dep(fs[a].1@[b]@)->OptionalDependency_0);
        if !(a == i && b == j) {
            assert(before(fs, a, b, i, j));
        }
    }
    if bad_upto(fs, i, j, optional) {
        let (a, b) = choose|a: int, b: int| before(fs, a, b, i, j)
            && (parse_feature_dep(fs[a].1@[b]@) is OptionalDependency)
            && !optional.contains(parse_feature_dep(fs[a].1@[b]@)->OptionalDependency_0);
        assert(before(fs, a, b, i, j + 1));
    }
    assert(before(fs, i, j, i, j + 1));
}

proof fn lemma_upto_next(fs: Seq<(String, Vec<String>)>, i: int, optional: Seq<Seq<char>>)
    requires
        0 <= i < fs.len(),
    ensures
        forall|o: Seq<char>| #[trigger] seen_upto(fs, i + 1, 0, o) == seen_upto(fs, i, fs[i].1@.len() as int, o),
        bad_upto(fs, i + 1, 0, optional) == bad_upto(fs, i, fs[i].1@.len() as int, optional),
{
    let n = fs[i].1@.len() as int;
    assert forall|a: int, b: int| before(fs, a, b, i + 1, 0) == before(fs, a, b, i, n) by {}
    assert forall|o: Seq<char>| #[trigger] seen_upto(fs, i + 1, 0, o) == seen_upto(fs, i, n, o) by {
        if seen_upto(fs, i + 1, 0, o) {
            let (a, b) = choose|a: int, b: int| before(fs, a, b, i + 1, 0)
                && parse_feature_dep(fs[a].1@[b]@) == FeatureDepView::OptionalDependency(o);
            assert(before(fs, a, b, i, n));
        }
        if seen_upto(fs, i, n, o) {
            let (a, b) = choose|a: int, b: int| before(fs, a, b, i, n)
                && parse_feature_dep(fs[a].1@[b]@) == FeatureDepView::OptionalDependency(o);
            assert(before(fs, a, b, i + 1, 0));
        }
    }
    if bad_upto(fs, i + 1, 0, optional) {
        let (a, b) = choose|a: int, b: int| before(fs, a, b, i + 1, 0)
            && (parse_feature_dep(fs[a].1@[b]@) is OptionalDependency)
            && !optional.contains(parse_feature_dep(fs[a].1@[b]@)->OptionalDependency_0);
        assert(before(fs, a, b, i, n));
    }
    if bad_upto(fs, i, n, optional) {
        let (a, b) = choose|a: int, b: int| before(fs, a, b, i, n)
            && (parse_feature_dep(fs[a].1@[b]@) is OptionalDependency)
            && !optional.contains(parse_feature_dep(fs[a].1@[b]@)->OptionalDependency_0);
        assert(before(fs, a, b, i + 1, 0));
    }
}

/// The implicit features for the first `m` optional dependencies.
pub open spec fn implicit_upto(fs: Seq<(String, Vec<String>)>, optional: Seq<Seq<char>>, m: int) -> Map<Seq<char>, Seq<FeatureDepView>> {
    Map::new(
        |o: Seq<char>| optional.subrange(0, m).contains(o) && !seen_explicitly(fs, o),
        |o: Seq<char>| seq![FeatureDepView::OptionalDependency(o)],
    )
}

/// The optional dependencies of a package and its feature table, or an error
/// where a feature turns on `dep:x` for an `x` that is no optional dependency.
pub fn named_features(package_id: &String, decls: &Vec<Dependency>, fs: &Vec<(String, Vec<String>)>) -> (r: Result<
    (Vec<String>, Vec<(String, Vec<NamedFeatureDep>)>),
    Error,
>)
    ensures
        match r {
            Ok((opt, table)) => {
                &&& views_of(opt@) == optional_names(decls@)
                &&& names_distinct(table@)
                &&& table_map(table@) == feature_table(fs@, optional_names(decls@))
                &&& !bad_upto(fs@, fs@.len() as int, 0, optional_names(decls@))
            },
            Err(e) => e is UnknownOptionalDependency && bad_upto(fs@, fs@.len() as int, 0, optional_names(decls@)),
        },
{
    let mut raw: Vec<String> = Vec::new();
    let mut i: usize = 0;
    while i < decls.len()
        invariant
            i <= decls@.len(),
            views_of(raw@) == optional_raw(decls@.subrange(0, i as int)),
        decreases decls.len() - i,
    {
        let ghost pre = decls@.subrange(0, i + 1);
        assert(pre.drop_last() =~= decls@.subrange(0, i as int));
        if decls[i].optional {
            let name = match &decls[i].rename {
                Some(r) => r.clone(),
                None => decls[i].name.clone(),
            };
            let ghost b = raw@;
            raw.push(name);
            assert(views_of(raw@) =~= views_of(b).push(rename_or_name(decls@[i as int])));
        }
        i = i + 1;
    }
    assert(decls@.subrange(0, decls@.len() as int) =~= decls@);
    let opt = dedup_strings(&raw);
    let ghost optv = views_of(opt@);
    let mut seen: Vec<bool> = Vec::new();
    let mut m: usize = 0;
    while m < opt.len()
        invariant
            m <= opt@.len(),
            seen@.len() == m,
            forall|k: int| 0 <= k < m ==> !seen@[k],
        decreases opt.len() - m,
    {
        seen.push(false);
        m = m + 1;
    }
    let mut table: Vec<(String, Vec<NamedFeatureDep>)> = Vec::new();
    proof {
        assert(table_map(table@) =~= Map::empty());
        assert(fs@.subrange(0, 0) =~= Seq::<(String, Vec<String>)>::empty());
        assert forall|k: int| 0 <= k < seen@.len() implies seen@[k] == seen_upto(fs@, 0, 0, #[trigger] optv[k]) by {}
    }
    let mut i: usize = 0;
    while i < fs.len()
        invariant
            i <= fs@.len(),
            optv == views_of(opt@),
            optv == optional_names(decls@),
            seen@.len() == opt@.len(),
            forall|k: int| 0 <= k < seen@.len() ==> seen@[k] == seen_upto(fs@, i as int, 0, #[trigger] optv[k]),
            !bad_upto(fs@, i as int, 0, optv),
            names_distinct(table@),
            table_map(table@) == explicit_map(fs@.subrange(0, i as int)),
        decreases fs.len() - i,
    {
        let entry = &fs[i];
        let mut parsed: Vec<NamedFeatureDep> = Vec::new();
        let mut j: usize = 0;
        while j < entry.1.len()
            invariant
                i < fs@.len(),
                *entry == fs@[i as int],
                j <= entry.1@.len(),
                optv == views_of(opt@),
                optv == optional_names(decls@),
                seen@.len() == opt@.len(),
                forall|k: int| 0 <= k < seen@.len() ==> seen@[k] == seen_upto(fs@, i as int, j as int, #[trigger] optv[k]),
                !bad_upto(fs@, i as int, j as int, optv),
                dep_views(parsed) == parse_all(entry.1@.subrange(0, j as int)),
            decreases entry.1.len() - j,
        {
            let d = NamedFeatureDep::from_cargo_string(entry.1[j].as_str());
            proof {
                lemma_upto_step(fs@, i as int, j as int, optv);
            }
            match &d {
                NamedFeatureDep::OptionalDependency(name) => {
                    let ghost old_seen = seen@;
                    let mut found = false;
                    let mut k: usize = 0;
                    while k < opt.len()
                        invariant
                            k <= opt@.len(),
                            optv == views_of(opt@),
                            seen@.len() == opt@.len(),
                            old_seen.len() == opt@.len(),
                            found == exists|q: int| 0 <= q < k && optv[q] == name@,
                            forall|q: int| 0 <= q < k ==> seen@[q] == (old_seen[q] || optv[q] == name@),
                            forall|q: int| k <= q < seen@.len() ==> seen@[q] == old_seen[q],
                        decreases opt.len() - k,
                    {
                        if str_eq(opt[k].as_str(), name.as_str()) {
                            seen.set(k, true);
                            found = true;
                            assert(optv[k as int] == name@);
                        } else {
                            assert(optv[k as int] != name@);
                        }
                        k = k + 1;
                    }
                    if !found {
                        proof {
                            if optv.contains(name@) {
                                let q = choose|q: int| 0 <= q < optv.len() && optv[q] == name@;
                            }
                            lemma_bad_extends(fs@, i as int, j as int + 1, optv);
                        }
                        return Err(Error::UnknownOptionalDependency {
                            package: package_id.clone(),
                            feature: entry.0.clone(),
                            dependency: name.clone(),
                        });
                    }
                    proof {
                        let q = choose|q: int| 0 <= q < k && optv[q] == name@;
                        assert(optv.contains(name@));
                    }
                },
                _ => {},
            }
            let ghost pb = parsed;
            parsed.push(d);
            proof {
                assert(dep_views(parsed) =~= dep_views(pb).push(parse_feature_dep(entry.1@[j as int]@)));
                assert(entry.1@.subrange(0, j + 1) =~= entry.1@.subrange(0, j as int).push(entry.1@[j as int]));
                assert(parse_all(entry.1@.subrange(0, j + 1)) =~= parse_all(entry.1@.subrange(0, j as int)).push(
                    parse_feature_dep(entry.1@[j as int]@)));
            }
            j = j + 1;
        }
        proof {
            lemma_upto_next(fs@, i as int, optv);
            assert(entry.1@.subrange(0, j as int) =~= entry.1@);
            let pre = fs@.subrange(0, i + 1);
            assert(pre.drop_last() =~= fs@.subrange(0, i as int));
        }
        table_insert(&mut table, entry.0.clone(), parsed);
        i = i + 1;
    }
    proof {
        assert(fs@.subrange(0, fs@.len() as int) =~= fs@);
        assert(optv.subrange(0, 0) =~= Seq::<Seq<char>>::empty());
        assert(explicit_map(fs@).union_prefer_right(implicit_upto(fs@, optv, 0)) =~= explicit_map(fs@));
    }
    let mut m: usize = 0;
    while m < opt.len()
        invariant
            m <= opt@.len(),
            optv == views_of(opt@),
            seen@.len() == opt@.len(),
            forall|k: int| 0 <= k < seen@.len() ==> seen@[k] == seen_explicitly(fs@, #[trigger] optv[k]),
            names_distinct(table@),
            table_map(table@) == explicit_map(fs@).union_prefer_right(implicit_upto(fs@, optv, m as int)),
        decreases opt.len() - m,
    {
        let ghost before_map = table_map(table@);
        if !seen[m] {
            let name = opt[m].clone();
            let mut v: Vec<NamedFeatureDep> = Vec::new();
            v.push(NamedFeatureDep::OptionalDependency(opt[m].clone()));
            assert(dep_views(v) =~= seq![FeatureDepView::OptionalDependency(optv[m as int])]);
            table_insert(&mut table, name, v);
        }
        proof {
            assert forall|o: Seq<char>| #[trigger] optv.subrange(0, m + 1).contains(o) == (optv.subrange(0, m as int).contains(o) || o == optv[m as int]) by {
                let s1 = optv.subrange(0, m + 1);
                let s0 = optv.subrange(0, m as int);
                if s1.contains(o) {
                    let q = choose|q: int| 0 <= q < s1.len() && s1[q] == o;
                    if q < m {
                        assert(s0[q] == o);
                    }
                }
                if s0.contains(o) {
                    let q = choose|q: int| 0 <= q < s0.len() && s0[q] == o;
                    assert(s1[q] == o);
                }
                if o == optv[m as int] {
                    assert(optv.subrange(0, m + 1)[m as int] == o);
                }
            }
            assert(table_map(table@) =~= explicit_map(fs@).union_prefer_right(implicit_upto(fs@, optv, m + 1)));
        }
        m = m + 1;
    }
    proof {
        assert(optv.subrange(0, optv.len() as int) =~= optv);
        assert(implicit_upto(fs@, optv, optv.len() as int) =~= Map::new(
            |o: Seq<char>| optv.contains(o) && !seen_explicitly(fs@, o),
            |o: Seq<char>| seq![FeatureDepView::OptionalDependency(o)],
        ));
    }
    Ok((opt, table))
}

/// An optional dependency that some feature turns on with `dep:` gets no
/// implicit feature: its entry, if any, is the explicit one. One that no
/// feature turns on gets an implicit feature of its own name that turns on
/// just that dependency.
pub proof fn lemma_implicit_features(fs: Seq<(String, Vec<String>)>, optional: Seq<Seq<char>>, o: Seq<char>)
    requires
        optional.contains(o),
    ensures
        seen_explicitly(fs, o) ==> feature_table(fs, optional).contains_key(o) == explicit_map(fs).contains_key(o),
        seen_explicitly(fs, o) && explicit_map(fs).contains_key(o) ==> feature_table(fs, optional)[o] == explicit_map(fs)[o],
        !seen_explicitly(fs, o) ==> feature_table(fs, optional).contains_key(o)
            && feature_table(fs, optional)[o] == seq![FeatureDepView::OptionalDependency(o)],
{
}

proof fn lemma_bad_extends(fs: Seq<(String, Vec<String>)>, i: int, j: int, optional: Seq<Seq<char>>)
    requires
        0 <= i < fs.len(),
        0 <= j <= fs[i].1@.len(),
        bad_upto(fs, i, j, optional),
    ensures
        bad_upto(fs, fs.len() as int, 0, optional),
{
    let (a, b) = choose|a: int, b: int| before(fs, a, b, i, j)
        && (parse_feature_dep(fs[a].1@[b]@) is OptionalDependency)
        && !optional.contains(parse_feature_dep(fs[a].1@[b]@)->OptionalDependency_0);
    assert(before(fs, a, b, fs.len() as int, 0));
}

} // verus!
