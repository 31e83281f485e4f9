//! The required and optional halves of a dependency relationship, and how
//! manifest declarations fold into them.

use vstd::prelude::*;
use crate::metadata::{Dependency, DependencyKind};
use crate::platform::{CondView, PlatformStatus, cond_union, contribution, opt_ref_view};
use crate::text::{contains_str, opt_view, str_eq};

verus! {

/// What one half (required or optional) of a dependency relationship holds.
pub struct HalfView {
    pub build_if: CondView,
    pub default_features_if: CondView,
    pub no_default_features_if: CondView,
    pub features: Map<Seq<char>, CondView>,
}

/// The union of the contributions of the declarations of `ds` that satisfy `p`.
pub open spec fn cond_where(ds: Seq<Dependency>, p: spec_fn(Dependency) -> bool) -> CondView {
    if exists|i: int| 0 <= i < ds.len() && p(ds[i]) && ds[i].target is None {
        CondView::Always
    } else {
        CondView::Specs(
            Set::new(
                |t: Seq<char>|
                    exists|i: int| 0 <= i < ds.len() && p(ds[i]) && opt_view(ds[i].target) == Some(t),
            ),
        )
    }
}

/// Whether a declaration belongs to the half for `kind` and `optional`.
pub open spec fn selects(d: Dependency, kind: DependencyKind, optional: bool) -> bool {
    d.kind == kind && d.optional == optional
}

/// The half for `kind` and `optional` that the declarations `ds` fold into.
pub open spec fn half_of(ds: Seq<Dependency>, kind: DependencyKind, optional: bool) -> HalfView {
    HalfView {
        build_if: cond_where(ds, |d: Dependency| selects(d, kind, optional)),
        default_features_if: cond_where(
            ds,
            |d: Dependency| selects(d, kind, optional) && d.uses_default_features,
        ),
        no_default_features_if: cond_where(
            ds,
            |d: Dependency| selects(d, kind, optional) && !d.uses_default_features,
        ),
        features: Map::new(
            |f: Seq<char>|
                exists|i: int|
                    0 <= i < ds.len() && selects(ds[i], kind, optional) && contains_str(
                        ds[i].features@,
                        f,
                    ),
            |f: Seq<char>|
                cond_where(
                    ds,
                    |d: Dependency| selects(d, kind, optional) && contains_str(d.features@, f),
                ),
        ),
    }
}

/// The view of a feature table with distinct keys.
pub open spec fn feature_map(v: Seq<(String, PlatformStatus)>) -> Map<Seq<char>, CondView> {
    Map::new(
        |f: Seq<char>| exists|i: int| 0 <= i < v.len() && v[i].0@ == f,
        |f: Seq<char>| v[choose|i: int| 0 <= i < v.len() && v[i].0@ == f].1@,
    )
}

pub open spec fn keys_distinct(v: Seq<(String, PlatformStatus)>) -> bool {
    forall|i: int, j: int| 0 <= i < j < v.len() ==> v[i].0@ != v[j].0@
}

/// One half of a dependency relationship: the conditions under which the
/// dependency is built, under which its default features are or are not
/// requested, and under which each named feature is requested.
#[derive(Debug)]
pub struct DepRequiredOrOptional {
    pub build_if: PlatformStatus,
    pub default_features_if: PlatformStatus,
    pub no_default_features_if: PlatformStatus,
    pub feature_targets: Vec<(String, PlatformStatus)>,
}

impl View for DepRequiredOrOptional {
    type V = HalfView;

    open spec fn view(&self) -> HalfView {
        HalfView {
            build_if: self.build_if@,
            default_features_if: self.default_features_if@,
            no_default_features_if: self.no_default_features_if@,
            features: feature_map(self.feature_targets@),
        }
    }
}

/// `c` where `b` holds, else the empty set.
pub open spec fn when(b: bool, c: CondView) -> CondView {
    if b {
        c
    } else {
        CondView::Specs(Set::empty())
    }
}

/// A half after folding in the declaration `d`.
pub open spec fn half_step(h: HalfView, d: Dependency) -> HalfView {
    let c = contribution(opt_view(d.target));
    HalfView {
        build_if: cond_union(h.build_if, c),
        default_features_if: cond_union(h.default_features_if, when(d.uses_default_features, c)),
        no_default_features_if: cond_union(h.no_default_features_if, when(!d.uses_default_features, c)),
        features: Map::new(
            |f: Seq<char>| h.features.contains_key(f) || contains_str(d.features@, f),
            |f: Seq<char>|
                cond_union(
                    if h.features.contains_key(f) {
                        h.features[f]
                    } else {
                        CondView::Specs(Set::empty())
                    },
                    when(contains_str(d.features@, f), c),
                ),
        ),
    }
}

/// Folding in one more declaration.
pub proof fn lemma_cond_where_push(ds: Seq<Dependency>, d: Dependency, p: spec_fn(Dependency) -> bool)
    ensures
        cond_where(ds.push(d), p) == cond_union(
            cond_where(ds, p),
            when(p(d), contribution(opt_view(d.target))),
        ),
{
    let e = ds.push(d);
    assert forall|i: int| 0 <= i < ds.len() implies e[i] == ds[i] by {}
    assert(e[ds.len() as int] == d);
    if exists|i: int| 0 <= i < ds.len() && p(ds[i]) && ds[i].target is None {
        let i = choose|i: int| 0 <= i < ds.len() && p(ds[i]) && ds[i].target is None;
        assert(e[i] == ds[i]);
    } else if p(d) && d.target is None {
    } else {
        assert(!(exists|i: int| 0 <= i < e.len() && p(e[i]) && e[i].target is None)) by {
            if exists|i: int| 0 <= i < e.len() && p(e[i]) && e[i].target is None {
                let i = choose|i: int| 0 <= i < e.len() && p(e[i]) && e[i].target is None;
                if i < ds.len() {
                    assert(e[i] == ds[i]);
                }
            }
        }
        let s_old = Set::new(
            |t: Seq<char>|
                exists|i: int| 0 <= i < ds.len() && p(ds[i]) && opt_view(ds[i].target) == Some(t),
        );
        let s_new = Set::new(
            |t: Seq<char>|
                exists|i: int| 0 <= i < e.len() && p(e[i]) && opt_view(e[i].target) == Some(t),
        );
        let add = if p(d) {
            set![opt_view(d.target)->Some_0]
        } else {
            Set::<Seq<char>>::empty()
        };
        assert(s_new =~= s_old.union(add)) by {
            assert forall|t: Seq<char>| s_new.contains(t) implies s_old.union(add).contains(t) by {
                let i = choose|i: int| 0 <= i < e.len() && p(e[i]) && opt_view(e[i].target) == Some(t);
                if i < ds.len() {
                    assert(e[i] == ds[i]);
                }
            }
            assert forall|t: Seq<char>| s_old.union(add).contains(t) implies s_new.contains(t) by {
                if s_old.contains(t) {
                    let i = choose|i: int| 0 <= i < ds.len() && p(ds[i]) && opt_view(ds[i].target) == Some(t);
                    assert(e[i] == ds[i]);
                } else {
                    assert(e[ds.len() as int] == d);
                }
            }
        }
    }
}


/// Union with the empty set changes nothing.
pub proof fn lemma_union_empty(c: CondView)
    ensures
        cond_union(c, CondView::Specs(Set::empty())) == c,
{
    match c {
        CondView::Specs(x) => {
            assert(x.union(Set::empty()) =~= x);
        },
        CondView::Always => {},
    }
}

/// Where nothing of `ds` satisfies `p`, the condition is the empty set.
pub proof fn lemma_cond_where_none(ds: Seq<Dependency>, p: spec_fn(Dependency) -> bool)
    requires
        forall|i: int| 0 <= i < ds.len() ==> !p(ds[i]),
    ensures
        cond_where(ds, p) == CondView::Specs(Set::empty()),
{
    let s = Set::new(
        |t: Seq<char>| exists|i: int| 0 <= i < ds.len() && p(ds[i]) && opt_view(ds[i].target) == Some(t),
    );
    assert(s =~= Set::empty());
}

/// Folding one more declaration into a half.
pub proof fn lemma_half_push(ds: Seq<Dependency>, d: Dependency, kind: DependencyKind, optional: bool)
    ensures
        half_of(ds.push(d), kind, optional) == if selects(d, kind, optional) {
            half_step(half_of(ds, kind, optional), d)
        } else {
            half_of(ds, kind, optional)
        },
{
    let e = ds.push(d);
    let h = half_of(ds, kind, optional);
    let n = half_of(e, kind, optional);
    let c = contribution(opt_view(d.target));
    let sel = selects(d, kind, optional);
    assert forall|i: int| 0 <= i < ds.len() implies e[i] == ds[i] by {}
    assert(e[ds.len() as int] == d);
    lemma_cond_where_push(ds, d, |x: Dependency| selects(x, kind, optional));
    lemma_cond_where_push(ds, d, |x: Dependency| selects(x, kind, optional) && x.uses_default_features);
    lemma_cond_where_push(ds, d, |x: Dependency| selects(x, kind, optional) && !x.uses_default_features);
    lemma_union_empty(h.build_if);
    lemma_union_empty(h.default_features_if);
    lemma_union_empty(h.no_default_features_if);
    assert forall|f: Seq<char>| #![trigger n.features.contains_key(f)]
        n.features.contains_key(f) <==> (h.features.contains_key(f) || (sel && contains_str(d.features@, f))) by {
        if n.features.contains_key(f) {
            let i = choose|i: int| 0 <= i < e.len() && selects(e[i], kind, optional) && contains_str(e[i].features@, f);
            if i < ds.len() {
                assert(e[i] == ds[i]);
            }
        }
        if h.features.contains_key(f) {
            let i = choose|i: int| 0 <= i < ds.len() && selects(ds[i], kind, optional) && contains_str(ds[i].features@, f);
            assert(e[i] == ds[i]);
        }
    }
    assert forall|f: Seq<char>| n.features.contains_key(f) implies n.features[f] == cond_union(
        if h.features.contains_key(f) { h.features[f] } else { CondView::Specs(Set::empty()) },
        when(sel && contains_str(d.features@, f), c),
    ) by {
        let p = |x: Dependency| selects(x, kind, optional) && contains_str(x.features@, f);
        lemma_cond_where_push(ds, d, p);
        if !h.features.contains_key(f) {
            assert forall|i: int| 0 <= i < ds.len() implies !p(ds[i]) by {}
            lemma_cond_where_none(ds, p);
        }
    }
    if sel {
        let st = half_step(h, d);
        assert(n.features =~= st.features);
    } else {
        assert forall|f: Seq<char>| n.features.contains_key(f) implies n.features[f] == h.features[f] by {
            lemma_union_empty(h.features[f]);
        }
        assert(n.features =~= h.features);
    }
}


/// With distinct keys, the table maps each key to its own entry.
pub proof fn lemma_feature_map_at(v: Seq<(String, PlatformStatus)>, i: int)
    requires
        keys_distinct(v),
        0 <= i < v.len(),
    ensures
        feature_map(v).contains_key(v[i].0@),
        feature_map(v)[v[i].0@] == v[i].1@,
{
    let f = v[i].0@;
    let j = choose|j: int| 0 <= j < v.len() && v[j].0@ == f;
    if j != i {
        if j < i {
            assert(v[j].0@ != v[i].0@);
        } else {
            assert(v[i].0@ != v[j].0@);
        }
    }
}

/// The half with no declaration folded in.
pub open spec fn empty_half() -> HalfView {
    HalfView {
        build_if: CondView::Specs(Set::empty()),
        default_features_if: CondView::Specs(Set::empty()),
        no_default_features_if: CondView::Specs(Set::empty()),
        features: Map::empty(),
    }
}

/// No declarations make the empty half, whatever the kind.
pub proof fn lemma_half_of_empty(kind: DependencyKind, optional: bool)
    ensures
        half_of(Seq::empty(), kind, optional) == empty_half(),
{
    let ds = Seq::<Dependency>::empty();
    lemma_cond_where_none(ds, |x: Dependency| selects(x, kind, optional));
    lemma_cond_where_none(ds, |x: Dependency| selects(x, kind, optional) && x.uses_default_features);
    lemma_cond_where_none(ds, |x: Dependency| selects(x, kind, optional) && !x.uses_default_features);
    assert(half_of(ds, kind, optional).features =~= Map::empty());
}

impl DepRequiredOrOptional {
    /// The half with nothing folded in.
    pub fn new() -> (r: Self)
        ensures
            r@ == empty_half(),
            keys_distinct(r.feature_targets@),
    {
        let r = DepRequiredOrOptional {
            build_if: PlatformStatus::never(),
            default_features_if: PlatformStatus::never(),
            no_default_features_if: PlatformStatus::never(),
            feature_targets: Vec::new(),
        };
        assert(feature_map(r.feature_targets@) =~= Map::empty());
        r
    }

    /// Folds in one declaration, under its platform condition.
    pub fn add_instance(&mut self, dep: &Dependency)
        requires
            keys_distinct(old(self).feature_targets@),
        ensures
            keys_distinct(final(self).feature_targets@),
            final(self)@ == half_step(old(self)@, *dep),
    {
        let spec = dep.target.as_ref();
        assert(opt_ref_view(spec) == opt_view(dep.target));
        let ghost c = contribution(opt_view(dep.target));
        let ghost h = self@;
        self.build_if.add_spec(spec);
        if dep.uses_default_features {
            self.default_features_if.add_spec(spec);
            proof {
                lemma_union_empty(h.no_default_features_if);
            }
        } else {
            self.no_default_features_if.add_spec(spec);
            proof {
                lemma_union_empty(h.default_features_if);
            }
        }
        let mut j: usize = 0;
        proof {
            assert(feature_map(self.feature_targets@) == h.features);
            assert forall|g: Seq<char>| h.features.contains_key(g) implies cond_union(
                h.features[g],
                when(contains_str(dep.features@.subrange(0, 0), g), c),
            ) == h.features[g] by {
                lemma_union_empty(h.features[g]);
            }
        }
        while j < dep.features.len()
            invariant
                j <= dep.features@.len(),
                opt_ref_view(spec) == opt_view(dep.target),
                c == contribution(opt_view(dep.target)),
                self.build_if@ == cond_union(h.build_if, c),
                self.default_features_if@ == cond_union(h.default_features_if, when(dep.uses_default_features, c)),
                self.no_default_features_if@ == cond_union(h.no_default_features_if, when(!dep.uses_default_features, c)),
                keys_distinct(self.feature_targets@),
                feature_map(self.feature_targets@) =~= Map::new(
                    |f: Seq<char>| h.features.contains_key(f) || contains_str(dep.features@.subrange(0, j as int), f),
                    |f: Seq<char>|
                        cond_union(
                            if h.features.contains_key(f) {
                                h.features[f]
                            } else {
                                CondView::Specs(Set::empty())
                            },
                            when(contains_str(dep.features@.subrange(0, j as int), f), c),
                        ),
                ),
            decreases dep.features.len() - j,
        {
            let f = &dep.features[j];
            let ghost v = self.feature_targets@;
            let ghost old_map = feature_map(v);
            let ghost pre = dep.features@.subrange(0, j as int);
            let ghost post = dep.features@.subrange(0, j + 1);
            assert forall|g: Seq<char>| contains_str(post, g) <==> (contains_str(pre, g) || g == f@) by {
                if contains_str(post, g) {
                    let i = choose|i: int| 0 <= i < post.len() && post[i]@ == g;
                    if i < j {
                        assert(pre[i] == post[i]);
                    }
                }
                if contains_str(pre, g) {
                    let i = choose|i: int| 0 <= i < pre.len() && pre[i]@ == g;
                    assert(pre[i] == post[i]);
                }
                if g == f@ {
                    assert(post[j as int] == dep.features@[j as int]);
                }
            }
            let mut k: usize = 0;
            while k < self.feature_targets.len()
                invariant
                    k <= self.feature_targets@.len(),
                    self.feature_targets@ == v,
                    forall|m: int| 0 <= m < k ==> v[m].0@ != f@,
                ensures
                    k <= v.len(),
                    k < v.len() ==> v[k as int].0@ == f@,
                    forall|m: int| 0 <= m < k ==> v[m].0@ != f@,
                decreases self.feature_targets.len() - k,
            {
                if str_eq(self.feature_targets[k].0.as_str(), f.as_str()) {
                    break;
                }
                k = k + 1;
            }
            if k < self.feature_targets.len() {
                proof {
                    lemma_feature_map_at(v, k as int);
                }
                self.feature_targets[k].1.add_spec(spec);
                proof {
                    let nv = self.feature_targets@;
                    assert(nv[k as int].0 == v[k as int].0);
                    assert(nv[k as int].1@ == cond_union(v[k as int].1@, c));
                    assert forall|m: int| 0 <= m < nv.len() && m != k implies nv[m] == v[m] by {}
                    assert(keys_distinct(nv));
                    assert forall|g: Seq<char>| #[trigger] feature_map(nv).contains_key(g) == old_map.contains_key(g) by {
                        if old_map.contains_key(g) {
                            let m = choose|m: int| 0 <= m < v.len() && v[m].0@ == g;
                            assert(nv[m].0@ == g);
                        }
                        if feature_map(nv).contains_key(g) {
                            let m = choose|m: int| 0 <= m < nv.len() && nv[m].0@ == g;
                            assert(v[m].0@ == g);
                        }
                    }
                    assert forall|g: Seq<char>| feature_map(nv).contains_key(g) implies feature_map(nv)[g] == (
                        if g == f@ { cond_union(old_map[g], c) } else { old_map[g] }) by {
                        let m = choose|m: int| 0 <= m < nv.len() && nv[m].0@ == g;
                        lemma_feature_map_at(nv, m);
                        lemma_feature_map_at(v, m);
                    }
                    assert forall|g: Seq<char>| old_map.contains_key(g) && g != f@ implies
                        cond_union(old_map[g], when(false, c)) == old_map[g] by {
                        lemma_union_empty(old_map[g]);
                    }
                    assert forall|g: Seq<char>| old_map.contains_key(g) && g == f@ && contains_str(pre, g) implies
                        cond_union(old_map[g], c) == old_map[g] by {
                        assert(old_map[g] == cond_union(
                            if h.features.contains_key(g) { h.features[g] } else { CondView::Specs(Set::empty()) },
                            when(true, c)));
                        match c {
                            CondView::Always => {},
                            CondView::Specs(x) => {
                                match old_map[g] {
                                    CondView::Always => {},
                                    CondView::Specs(y) => {
                                        let base = if h.features.contains_key(g) { h.features[g] } else { CondView::Specs(Set::empty()) };
                                        match base {
                                            CondView::Always => {},
                                            CondView::Specs(z) => {
                                                assert(y =~= z.union(x));
                                                assert(y.union(x) =~= y);
                                            },
                                        }
                                    },
                                }
                            },
                        }
                    }
                    assert forall|g: Seq<char>| old_map.contains_key(g) && g == f@ && !contains_str(pre, g) implies
                        cond_union(old_map[g], c) == cond_union(
                            if h.features.contains_key(g) { h.features[g] } else { CondView::Specs(Set::empty()) },
                            when(true, c)) by {
                        let base = if h.features.contains_key(g) { h.features[g] } else { CondView::Specs(Set::empty()) };
                        lemma_union_empty(base);
                    }
                }
            } else {
                let mut st = PlatformStatus::never();
                st.add_spec(spec);
                let key = f.clone();
                self.feature_targets.push((key, st));
                proof {
                    let nv = self.feature_targets@;
                    assert forall|m: int| 0 <= m < v.len() implies nv[m] == v[m] by {}
                    assert(nv[v.len() as int].0@ == f@);
                    assert(keys_distinct(nv));
                    assert(!old_map.contains_key(f@));
                    assert forall|g: Seq<char>| #[trigger] feature_map(nv).contains_key(g) == (old_map.contains_key(g) || g == f@) by {
                        if old_map.contains_key(g) {
                            let m = choose|m: int| 0 <= m < v.len() && v[m].0@ == g;
                            assert(nv[m].0@ == g);
                        }
                        if feature_map(nv).contains_key(g) {
                            let m = choose|m: int| 0 <= m < nv.len() && nv[m].0@ == g;
                            if m < v.len() {
                                assert(v[m].0@ == g);
                            }
                        }
                    }
                    assert forall|g: Seq<char>| feature_map(nv).contains_key(g) implies feature_map(nv)[g] == (
                        if g == f@ { cond_union(CondView::Specs(Set::empty()), c) } else { old_map[g] }) by {
                        let m = choose|m: int| 0 <= m < nv.len() && nv[m].0@ == g;
                        lemma_feature_map_at(nv, m);
                        if m < v.len() {
                            lemma_feature_map_at(v, m);
                        }
                    }
                    assert forall|g: Seq<char>| old_map.contains_key(g) && g != f@ implies
                        cond_union(old_map[g], when(false, c)) == old_map[g] by {
                        lemma_union_empty(old_map[g]);
                    }
                    assert(!h.features.contains_key(f@));
                    assert(!contains_str(pre, f@));
                    lemma_union_empty(CondView::Specs(Set::empty()));
                }
            }
            j = j + 1;
        }
        proof {
            assert(dep.features@.subrange(0, j as int) =~= dep.features@);
            assert(feature_map(self.feature_targets@) =~= half_step(h, *dep).features);
        }
    }
}


/// Conditions over two lists with the same members are the same.
pub proof fn lemma_cond_where_members(ds1: Seq<Dependency>, ds2: Seq<Dependency>, p: spec_fn(Dependency) -> bool)
    requires
        forall|d: Dependency| ds1.contains(d) <==> ds2.contains(d),
    ensures
        cond_where(ds1, p) == cond_where(ds2, p),
{
    let a1 = exists|i: int| 0 <= i < ds1.len() && p(ds1[i]) && ds1[i].target is None;
    let a2 = exists|i: int| 0 <= i < ds2.len() && p(ds2[i]) && ds2[i].target is None;
    assert(a1 == a2) by {
        if a1 {
            let i = choose|i: int| 0 <= i < ds1.len() && p(ds1[i]) && ds1[i].target is None;
            assert(ds1.contains(ds1[i]));
            let j = choose|j: int| 0 <= j < ds2.len() && ds2[j] == ds1[i];
        }
        if a2 {
            let j = choose|j: int| 0 <= j < ds2.len() && p(ds2[j]) && ds2[j].target is None;
            assert(ds2.contains(ds2[j]));
            let i = choose|i: int| 0 <= i < ds1.len() && ds1[i] == ds2[j];
        }
    }
    let s1 = Set::new(|t: Seq<char>| exists|i: int| 0 <= i < ds1.len() && p(ds1[i]) && opt_view(ds1[i].target) == Some(t));
    let s2 = Set::new(|t: Seq<char>| exists|i: int| 0 <= i < ds2.len() && p(ds2[i]) && opt_view(ds2[i].target) == Some(t));
    assert(s1 =~= s2) by {
        assert forall|t: Seq<char>| s1.contains(t) implies s2.contains(t) by {
            let i = choose|i: int| 0 <= i < ds1.len() && p(ds1[i]) && opt_view(ds1[i].target) == Some(t);
            assert(ds1.contains(ds1[i]));
            let j = choose|j: int| 0 <= j < ds2.len() && ds2[j] == ds1[i];
        }
        assert forall|t: Seq<char>| s2.contains(t) implies s1.contains(t) by {
            let j = choose|j: int| 0 <= j < ds2.len() && p(ds2[j]) && opt_view(ds2[j].target) == Some(t);
            assert(ds2.contains(ds2[j]));
            let i = choose|i: int| 0 <= i < ds1.len() && ds1[i] == ds2[j];
        }
    }
}

/// Merging is a union, so neither the order of the matching declarations nor
/// their repetition changes any half of the merged link: only which
/// declarations matched counts.
pub proof fn lemma_merge_order_independent(
    ds1: Seq<Dependency>,
    ds2: Seq<Dependency>,
    kind: DependencyKind,
    optional: bool,
)
    requires
        forall|d: Dependency| ds1.contains(d) <==> ds2.contains(d),
    ensures
        half_of(ds1, kind, optional) == half_of(ds2, kind, optional),
{
    lemma_cond_where_members(ds1, ds2, |x: Dependency| selects(x, kind, optional));
    lemma_cond_where_members(ds1, ds2, |x: Dependency| selects(x, kind, optional) && x.uses_default_features);
    lemma_cond_where_members(ds1, ds2, |x: Dependency| selects(x, kind, optional) && !x.uses_default_features);
    let h1 = half_of(ds1, kind, optional);
    let h2 = half_of(ds2, kind, optional);
    assert forall|f: Seq<char>| #[trigger] h1.features.contains_key(f) == h2.features.contains_key(f) by {
        if h1.features.contains_key(f) {
            let i = choose|i: int| 0 <= i < ds1.len() && selects(ds1[i], kind, optional) && contains_str(ds1[i].features@, f);
            assert(ds1.contains(ds1[i]));
            let j = choose|j: int| 0 <= j < ds2.len() && ds2[j] == ds1[i];
        }
        if h2.features.contains_key(f) {
            let j = choose|j: int| 0 <= j < ds2.len() && selects(ds2[j], kind, optional) && contains_str(ds2[j].features@, f);
            assert(ds2.contains(ds2[j]));
            let i = choose|i: int| 0 <= i < ds1.len() && ds1[i] == ds2[j];
        }
    }
    assert forall|f: Seq<char>| h1.features.contains_key(f) implies h1.features[f] == h2.features[f] by {
        lemma_cond_where_members(ds1, ds2, |x: Dependency| selects(x, kind, optional) && contains_str(x.features@, f));
    }
    assert(h1.features =~= h2.features);
}

/// Whether every condition of `a` is a condition of `b`.
pub open spec fn cond_within(a: CondView, b: CondView) -> bool {
    match (a, b) {
        (_, CondView::Always) => true,
        (CondView::Specs(x), CondView::Specs(y)) => x.subset_of(y),
        (CondView::Always, CondView::Specs(_)) => false,
    }
}

/// No declaration's contribution is lost: each selected declaration's
/// platform condition is within the merged build condition, and within the
/// condition of each feature it requests.
pub proof fn lemma_merge_keeps_contributions(ds: Seq<Dependency>, i: int, kind: DependencyKind, optional: bool)
    requires
        0 <= i < ds.len(),
        selects(ds[i], kind, optional),
    ensures
        cond_within(contribution(opt_view(ds[i].target)), half_of(ds, kind, optional).build_if),
        forall|f: Seq<char>| contains_str(ds[i].features@, f) ==> {
            &&& half_of(ds, kind, optional).features.contains_key(f)
            &&& cond_within(contribution(opt_view(ds[i].target)), #[trigger] half_of(ds, kind, optional).features[f])
        },
{
}

} // verus!
