//! Options shared by the graph commands: which links to follow, which
//! packages to start from, and which to leave out.

use vstd::prelude::*;
use crate::graph::{PackageGraph, PackageSource};
use crate::matcher::PackageLink;
use crate::text::{contains_str, contains_exec};
use crate::matcher::has_index;

verus! {

/// Which links a traversal follows.
#[derive(Clone, Copy, Debug, PartialEq, Eq, Structural)]
pub enum Kind {
    All,
    Workspace,
    DirectThirdParty,
    ThirdParty,
}

/// Whether package `i` of the graph is a workspace member.
pub open spec fn in_workspace(g: PackageGraph, i: int) -> bool {
    g.packages@[i].source is Workspace
}

/// Whether a link's endpoints are packages of the graph.
pub open spec fn link_in(g: PackageGraph, link: PackageLink) -> bool {
    link.from < g.packages@.len() && link.to < g.packages@.len()
}

impl Kind {
    /// Returns true if this link should be traversed. Workspace links are
    /// always kept, so that the graph stays connected.
    pub fn should_traverse(self, graph: &PackageGraph, link: &PackageLink) -> (r: bool)
        requires
            link_in(*graph, *link),
        ensures
            r == match self {
                Kind::All | Kind::ThirdParty => true,
                Kind::DirectThirdParty => in_workspace(*graph, link.from as int),
                Kind::Workspace => in_workspace(*graph, link.from as int) && in_workspace(*graph, link.to as int),
            },
    {
        match self {
            Kind::All | Kind::ThirdParty => true,
            Kind::DirectThirdParty => is_workspace(&graph.packages[link.from].source),
            Kind::Workspace => is_workspace(&graph.packages[link.from].source) && is_workspace(
                &graph.packages[link.to].source,
            ),
        }
    }
}

fn is_workspace(s: &PackageSource) -> (r: bool)
    ensures
        r == s is Workspace,
{
    match s {
        PackageSource::Workspace(_) => true,
        _ => false,
    }
}

/// The direction of a query.
#[derive(Clone, Copy, Debug, PartialEq, Eq, Structural)]
pub enum DependencyDirection {
    /// From packages to what they depend on.
    Forward,
    /// From packages to what depends on them.
    Reverse,
}

/// The direction that the reverse flag asks for.
pub fn parse_direction(reverse: bool) -> (r: DependencyDirection)
    ensures
        r == if reverse {
            DependencyDirection::Reverse
        } else {
            DependencyDirection::Forward
        },
{
    if reverse {
        DependencyDirection::Reverse
    } else {
        DependencyDirection::Forward
    }
}

/// Whether package `i` is named in `names`.
pub open spec fn named_in(g: PackageGraph, names: Seq<String>, i: int) -> bool {
    contains_str(names, g.packages@[i].name@)
}

/// The indices, in order, of the packages whose names are among `names`.
pub fn names_to_ids(graph: &PackageGraph, names: &Vec<String>) -> (r: Vec<usize>)
    ensures
        forall|k: int| 0 <= k < r@.len() ==> r@[k] < graph.packages@.len() && named_in(*graph, names@, r@[k] as int),
        forall|k1: int, k2: int| 0 <= k1 < k2 < r@.len() ==> r@[k1] < r@[k2],
        forall|i: int| 0 <= i < graph.packages@.len() && named_in(*graph, names@, i) ==> has_index(r@, i),
{
    let mut out: Vec<usize> = Vec::new();
    let mut i: usize = 0;
    while i < graph.packages.len()
        invariant
            i <= graph.packages@.len(),
            forall|k: int| 0 <= k < out@.len() ==> out@[k] < i && named_in(*graph, names@, out@[k] as int),
            forall|k1: int, k2: int| 0 <= k1 < k2 < out@.len() ==> out@[k1] < out@[k2],
            forall|q: int| 0 <= q < i && #[trigger] named_in(*graph, names@, q) ==> has_index(out@, q),
        decreases graph.packages.len() - i,
    {
        if contains_exec(names, graph.packages[i].name.as_str()) {
            let ghost before = out@;
            out.push(i);
            proof {
                assert forall|q: int| 0 <= q < i + 1 && named_in(*graph, names@, q) implies has_index(out@, q) by {
                    if q < i {
                        let k = choose|k: int| 0 <= k < before.len() && before[k] as int == q;
                        assert(out@[k] as int == q);
                    } else {
                        assert(out@[before.len() as int] == i);
                    }
                }
            }
        }
        i = i + 1;
    }
    out
}

/// Where a query starts and which way it goes.
#[derive(Debug)]
pub struct QueryOptions {
    /// Query reverse transitive dependencies (default: forward).
    pub direction: DependencyDirection,
    /// The names of the root packages to start the query from.
    pub roots: Vec<String>,
}

/// A query over the graph: its root packages and its direction.
#[derive(Debug)]
pub struct PackageQuery {
    pub roots: Vec<usize>,
    pub direction: DependencyDirection,
}

/// Why query options could not be applied.
#[derive(Debug, Clone, Copy, PartialEq, Eq, Structural)]
pub enum QueryError {
    /// A reverse query needs root packages.
    ReverseWithoutRoots,
}

impl QueryOptions {
    /// The query these options describe: from the named packages where
    /// roots are given, else forward from the workspace members.
    pub fn apply(&self, graph: &PackageGraph) -> (r: Result<PackageQuery, QueryError>)
        ensures
            self.roots@.len() > 0 ==> r is Ok && r->Ok_0.direction == self.direction
                && (forall|i: int| 0 <= i < graph.packages@.len() ==> (has_index(r->Ok_0.roots@, i)
                    <==> named_in(*graph, self.roots@, i))),
            self.roots@.len() == 0 && self.direction == DependencyDirection::Reverse ==> r is Err,
            self.roots@.len() == 0 && self.direction == DependencyDirection::Forward ==> r is Ok
                && r->Ok_0.direction == DependencyDirection::Forward
                && (forall|i: int| 0 <= i < graph.packages@.len() ==> (has_index(r->Ok_0.roots@, i)
                    <==> in_workspace(*graph, i))),
    {
        if self.roots.len() > 0 {
            let roots = names_to_ids(graph, &self.roots);
            proof {
                assert forall|i: int| 0 <= i < graph.packages@.len() && has_index(roots@, i) implies named_in(*graph, self.roots@, i) by {
                    let k = choose|k: int| 0 <= k < roots@.len() && roots@[k] as int == i;
                }
            }
            Ok(PackageQuery { roots, direction: self.direction })
        } else if self.direction == DependencyDirection::Reverse {
            Err(QueryError::ReverseWithoutRoots)
        } else {
            let mut roots: Vec<usize> = Vec::new();
            let mut i: usize = 0;
            while i < graph.packages.len()
                invariant
                    i <= graph.packages@.len(),
                    forall|k: int| 0 <= k < roots@.len() ==> roots@[k] < i && in_workspace(*graph, roots@[k] as int),
                    forall|q: int| 0 <= q < i && #[trigger] in_workspace(*graph, q) ==> has_index(roots@, q),
                decreases graph.packages.len() - i,
            {
                if is_workspace(&graph.packages[i].source) {
                    let ghost before = roots@;
                    roots.push(i);
                    proof {
                        assert forall|q: int| 0 <= q < i + 1 && in_workspace(*graph, q) implies has_index(roots@, q) by {
                            if q < i {
                                let k = choose|k: int| 0 <= k < before.len() && before[k] as int == q;
                                assert(roots@[k] as int == q);
                            } else {
                                assert(roots@[before.len() as int] == i);
                            }
                        }
                    }
                }
                i = i + 1;
            }
            proof {
                assert forall|q: int| 0 <= q < graph.packages@.len() && has_index(roots@, q) implies in_workspace(*graph, q) by {
                    let k = choose|k: int| 0 <= k < roots@.len() && roots@[k] as int == q;
                }
            }
            Ok(PackageQuery { roots, direction: DependencyDirection::Forward })
        }
    }
}

/// Which packages and links a filter keeps out.
#[derive(Debug)]
pub struct BaseFilterOptions {
    /// Omit edges that point into these packages (by name).
    pub omit_edges_into: Vec<String>,
    /// Kind of crates to select.
    pub kind: Kind,
}

impl BaseFilterOptions {
    /// The indices of the packages that edges may not point into.
    pub fn omitted_package_ids(&self, graph: &PackageGraph) -> (r: Vec<usize>)
        ensures
            forall|i: int| 0 <= i < graph.packages@.len() ==> (has_index(r@, i) <==> named_in(*graph, self.omit_edges_into@, i)),
            forall|k: int| 0 <= k < r@.len() ==> r@[k] < graph.packages@.len(),
    {
        let r = names_to_ids(graph, &self.omit_edges_into);
        proof {
            assert forall|i: int| 0 <= i < graph.packages@.len() && has_index(r@, i) implies named_in(*graph, self.omit_edges_into@, i) by {
                let k = choose|k: int| 0 <= k < r@.len() && r@[k] as int == i;
            }
        }
        r
    }
}

/// A filter over links: by kind, by dependency section, and by omitted packages.
#[derive(Debug)]
pub struct FilterOptions {
    pub base_opts: BaseFilterOptions,
    /// Include dev dependencies.
    pub include_dev: bool,
    /// Include build dependencies.
    pub include_build: bool,
    /// The platform to filter on: "current", "any" or "always" (default: any).
    pub target: Option<String>,
}

impl FilterOptions {
    /// Selects normal, dev and build dependencies as requested, given whether
    /// each of them is enabled.
    pub fn eval(&self, normal: bool, dev: bool, build: bool) -> (r: bool)
        ensures
            r == (normal || (self.include_dev && dev) || (self.include_build && build)),
    {
        normal || (self.include_dev && dev) || (self.include_build && build)
    }

    /// Whether a traversal keeps `link`: its kind is followed, one of its
    /// selected sections is enabled on the filter's platform (`normal`,
    /// `dev` and `build` say which are), and it does not point into an
    /// omitted package.
    pub fn keeps(&self, graph: &PackageGraph, link: &PackageLink, normal: bool, dev: bool, build: bool) -> (r: bool)
        requires
            link_in(*graph, *link),
        ensures
            r == (self.base_opts.kind.should_traverse_spec(*graph, *link)
                && (normal || (self.include_dev && dev) || (self.include_build && build))
                && !named_in(*graph, self.base_opts.omit_edges_into@, link.to as int)),
    {
        let include_kind = self.base_opts.kind.should_traverse(graph, link);
        let include_type = self.eval(normal, dev, build);
        let omitted = contains_exec(&self.base_opts.omit_edges_into, graph.packages[link.to].name.as_str());
        include_kind && include_type && !omitted
    }
}

impl Kind {
    /// What `should_traverse` returns.
    pub open spec fn should_traverse_spec(self, g: PackageGraph, link: PackageLink) -> bool {
        match self {
            Kind::All | Kind::ThirdParty => true,
            Kind::DirectThirdParty => in_workspace(g, link.from as int),
            Kind::Workspace => in_workspace(g, link.from as int) && in_workspace(g, link.to as int),
        }
    }
}

} // verus!
