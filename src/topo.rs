//! A cycle-tolerant topological order of the package graph: a depth-first
//! traversal's reverse postorder, over every node.

use vstd::prelude::*;
use vstd::set_lib::{set_int_range, lemma_int_range, lemma_len_subset};
use crate::matcher::{has_index, PackageLink};
use crate::graph::PackageGraph;

verus! {

/// Whether `succ` lists an edge from `u` to `v`.
pub open spec fn edge(succ: Seq<Vec<usize>>, u: int, v: int) -> bool {
    0 <= u < succ.len() && has_index(succ[u]@, v)
}

/// Whether consecutive nodes of `p` are joined by edges.
pub open spec fn is_path(succ: Seq<Vec<usize>>, p: Seq<int>) -> bool {
    p.len() >= 1 && forall|i: int| 0 <= i < p.len() - 1 ==> #[trigger] edge(succ, p[i], p[i + 1])
}

/// Whether a path leads from `a` to `b` (every node reaches itself).
pub open spec fn reach(succ: Seq<Vec<usize>>, a: int, b: int) -> bool {
    exists|p: Seq<int>| is_path(succ, p) && p[0] == a && p.last() == b
}

/// Every listed successor is a node.
pub open spec fn graph_wf(succ: Seq<Vec<usize>>) -> bool {
    forall|u: int, k: int| 0 <= u < succ.len() && 0 <= k < succ[u]@.len() ==> #[trigger] succ[u]@[k] < succ.len()
}

/// The nodes not yet visited.
pub open spec fn whites(color: Seq<u8>) -> Set<int> {
    Set::new(|v: int| 0 <= v < color.len() && color[v] == 0)
}

/// The traversal state: finished nodes are numbered in finishing order, and
/// each successor of a finished node finished before it, unless it reaches
/// back to that node.
pub open spec fn state_ok(succ: Seq<Vec<usize>>, color: Seq<u8>, post: Seq<usize>, rank: Seq<usize>) -> bool {
    let n = succ.len();
    &&& color.len() == n
    &&& rank.len() == n
    &&& forall|v: int| #![trigger color[v]] 0 <= v < n ==> color[v] <= 2
    &&& forall|k: int| #![trigger post[k]] 0 <= k < post.len() ==> post[k] < n && color[post[k] as int] == 2 && rank[post[k] as int] == k
    &&& forall|v: int| #![trigger rank[v]] 0 <= v < n && color[v] == 2 ==> rank[v] < post.len() && post[rank[v] as int] == v
    &&& forall|u: int, k: int| #![trigger succ[u]@[k]] 0 <= u < n && color[u] == 2 && 0 <= k < succ[u]@.len() ==> {
        ||| (color[succ[u]@[k] as int] == 2 && rank[succ[u]@[k] as int] < rank[u])
        ||| reach(succ, succ[u]@[k] as int, u)
    }
}

/// The nodes in progress are exactly those of `gs`.
pub open spec fn gray_exactly(color: Seq<u8>, gs: Seq<int>) -> bool {
    forall|v: int| 0 <= v < color.len() ==> (color[v] == 1 <==> #[trigger] gs.contains(v))
}

proof fn lemma_whites_finite(color: Seq<u8>)
    ensures
        whites(color).finite(),
        whites(color).len() <= color.len(),
{
    lemma_int_range(0, color.len() as int);
    lemma_len_subset(whites(color), set_int_range(0, color.len() as int));
}

proof fn lemma_path_suffix(succ: Seq<Vec<usize>>, p: Seq<int>, j: int)
    requires
        is_path(succ, p),
        0 <= j < p.len(),
    ensures
        is_path(succ, p.subrange(j, p.len() as int)),
        reach(succ, p[j], p.last()),
{
    let q = p.subrange(j, p.len() as int);
    assert forall|i: int| 0 <= i < q.len() - 1 implies #[trigger] edge(succ, q[i], q[i + 1]) by {
        assert(q[i] == p[j + i] && q[i + 1] == p[j + i + 1]);
        assert(edge(succ, p[j + i], p[j + i + 1]));
    }
    assert(is_path(succ, q) && q[0] == p[j] && q.last() == p.last());
}

/// The depth-first visit of `u`, which is in progress with the path `gs` to it.
fn dfs(succ: &Vec<Vec<usize>>, u: usize, color: &mut Vec<u8>, post: &mut Vec<usize>, rank: &mut Vec<usize>, Ghost(gs): Ghost<Seq<int>>)
    requires
        graph_wf(succ@),
        state_ok(succ@, old(color)@, old(post)@, old(rank)@),
        gray_exactly(old(color)@, gs),
        is_path(succ@, gs),
        gs.last() == u as int,
        !gs.drop_last().contains(u as int),
        u < succ@.len(),
        old(color)@[u as int] == 1,
        old(post)@.len() < succ@.len(),
    ensures
        state_ok(succ@, final(color)@, final(post)@, final(rank)@),
        gray_exactly(final(color)@, gs.drop_last()),
        final(color)@[u as int] == 2,
        forall|v: int| 0 <= v < succ@.len() && old(color)@[v] == 2 ==> #[trigger] final(color)@[v] == 2
            && final(rank)@[v] == old(rank)@[v],
        whites(final(color)@).subset_of(whites(old(color)@)),
        final(post)@.len() >= old(post)@.len(),
        final(post)@.len() <= succ@.len(),
    decreases whites(old(color)@).len(),
{
    let ghost entry_whites = whites(color@);
    let n = succ.len();
    let mut k: usize = 0;
    while k < succ[u].len()
        invariant
            n == succ@.len(),
            u < n,
            graph_wf(succ@),
            state_ok(succ@, color@, post@, rank@),
            gray_exactly(color@, gs),
            is_path(succ@, gs),
            gs.last() == u as int,
            color@[u as int] == 1,
            k <= succ@[u as int]@.len(),
            whites(color@).subset_of(entry_whites),
            entry_whites == whites(old(color)@),
            forall|v: int| 0 <= v < n && old(color)@[v] == 2 ==> #[trigger] color@[v] == 2 && rank@[v] == old(rank)@[v],
            forall|k2: int| 0 <= k2 < k ==> color@[#[trigger] succ@[u as int]@[k2] as int] == 2
                || reach(succ@, succ@[u as int]@[k2] as int, u as int),
            post@.len() >= old(post)@.len(),
            post@.len() <= n,
        decreases succ@[u as int]@.len() - k,
    {
        let v = succ[u][k];
        assert(v < n);
        if color[v] == 0 {
            let ghost before = color@;
            color.set(v, 1);
            proof {
                lemma_whites_finite(before);
                lemma_whites_finite(old(color)@);
                assert(whites(color@) =~= whites(before).remove(v as int));
                assert(whites(before).contains(v as int));
                lemma_len_subset(whites(before), entry_whites);
                assert(edge(succ@, u as int, v as int)) by {
                    assert(succ@[u as int]@[k as int] as int == v as int);
                }
                let ngs = gs.push(v as int);
                assert forall|i: int| 0 <= i < ngs.len() - 1 implies #[trigger] edge(succ@, ngs[i], ngs[i + 1]) by {
                    if i < gs.len() - 1 {
                        assert(ngs[i] == gs[i] && ngs[i + 1] == gs[i + 1]);
                    }
                }
                assert(ngs.drop_last() =~= gs);
                assert(!gs.contains(v as int));
                assert forall|x: int| 0 <= x < color@.len() implies (color@[x] == 1 <==> #[trigger] ngs.contains(x)) by {
                    if x != v {
                        if gs.contains(x) {
                            let j = choose|j: int| 0 <= j < gs.len() && gs[j] == x;
                            assert(ngs[j] == x);
                        }
                        if ngs.contains(x) {
                            let j = choose|j: int| 0 <= j < ngs.len() && ngs[j] == x;
                            assert(gs[j] == x);
                        }
                    } else {
                        assert(ngs[gs.len() as int] == x);
                    }
                }
                assert(post@.len() < n) by {
                    assert(color@[u as int] == 1);
                    if post@.len() >= n {
                        // every finished node is distinct, so all would be finished
                        lemma_post_full(succ@, color@, post@, rank@, u as int);
                    }
                }
                assert(state_ok(succ@, color@, post@, rank@)) by {
                    assert forall|x: int| #![trigger color@[x]] 0 <= x < n implies color@[x] <= 2 by {
                        if x != v {
                            assert(color@[x] == before[x]);
                        }
                    }
                }
            }
            dfs(succ, v, color, post, rank, Ghost(gs.push(v as int)));
            proof {
                assert(gs.push(v as int).drop_last() =~= gs);
                assert(gs[gs.len() - 1] == u as int);
                assert(gs.contains(u as int));
            }
        } else if color[v] == 1 {
            proof {
                assert(gs.contains(v as int));
                let j = choose|j: int| 0 <= j < gs.len() && gs[j] == v as int;
                lemma_path_suffix(succ@, gs, j);
            }
        }
        proof {
            assert(succ@[u as int]@[k as int] == v);
        }
        k = k + 1;
    }
    let ghost before_color = color@;
    let ghost before_post = post@;
    let ghost before_rank = rank@;
    assert(post@.len() < n) by {
        if post@.len() >= n {
            lemma_post_full(succ@, color@, post@, rank@, u as int);
        }
    }
    let r = post.len();
    color.set(u, 2);
    rank.set(u, r);
    post.push(u);
    proof {
        assert forall|x: int| 0 <= x < n implies (color@[x] == 1 <==> #[trigger] gs.drop_last().contains(x)) by {
            if x != u {
                assert(color@[x] == before_color[x]);
                if gs.contains(x) {
                    let j = choose|j: int| 0 <= j < gs.len() && gs[j] == x;
                    assert(j != gs.len() - 1);
                    assert(gs.drop_last()[j] == x);
                }
                if gs.drop_last().contains(x) {
                    let j = choose|j: int| 0 <= j < gs.len() - 1 && gs.drop_last()[j] == x;
                    assert(gs[j] == x);
                }
            }
        }
        assert forall|kk: int| #![trigger post@[kk]] 0 <= kk < post@.len() implies post@[kk] < n && color@[post@[kk] as int] == 2
            && rank@[post@[kk] as int] == kk by {
            if kk < before_post.len() {
                assert(post@[kk] == before_post[kk]);
                assert(before_color[before_post[kk] as int] == 2);
                assert(before_post[kk] != u);
            }
        }
        assert forall|x: int| #![trigger rank@[x]] 0 <= x < n && color@[x] == 2 implies rank@[x] < post@.len() && post@[rank@[x] as int] == x by {
            if x != u {
                assert(before_color[x] == 2);
            }
        }
        assert forall|a: int, kk: int| #![trigger succ@[a]@[kk]] 0 <= a < n && color@[a] == 2 && 0 <= kk < succ@[a]@.len() implies {
            ||| (color@[succ@[a]@[kk] as int] == 2 && rank@[succ@[a]@[kk] as int] < rank@[a])
            ||| reach(succ@, succ@[a]@[kk] as int, a)
        } by {
            let w = succ@[a]@[kk] as int;
            if a == u {
                if before_color[w] == 2 {
                    assert(w != u);
                    assert(before_rank[w] < before_post.len());
                }
            } else {
                assert(before_color[a] == 2);
                if before_color[w] == 2 && before_rank[w] < before_rank[a] {
                    assert(w != u);
                }
            }
        }
        assert forall|x: int| #![trigger color@[x]] 0 <= x < n implies color@[x] <= 2 by {
            if x != u {
                assert(color@[x] == before_color[x]);
            }
        }
        assert(whites(color@) =~= whites(before_color));
    }
}

/// If at least `n` nodes have finished, none is in progress.
proof fn lemma_post_full(succ: Seq<Vec<usize>>, color: Seq<u8>, post: Seq<usize>, rank: Seq<usize>, u: int)
    requires
        state_ok(succ, color, post, rank),
        post.len() >= succ.len(),
        0 <= u < succ.len(),
    ensures
        color[u] != 1,
{
    let n = succ.len() as int;
    // the first n finished nodes are distinct nodes, so they are all the nodes
    assert forall|k: int| #![trigger post[k]] 0 <= k < n implies post[k] < n && rank[post[k] as int] == k by {
        assert(post[k] < n && color[post[k] as int] == 2 && rank[post[k] as int] == k);
    }
    lemma_pigeon(post, rank, n, u);
    let k = choose|k: int| 0 <= k < n && post[k] as int == u;
    assert(post[k] < n && color[post[k] as int] == 2 && rank[post[k] as int] == k);
}

/// The first `n` entries of `post`, distinct nodes below `n`, cover every node below `n`.
proof fn lemma_pigeon(post: Seq<usize>, rank: Seq<usize>, n: int, v: int)
    requires
        post.len() >= n,
        rank.len() == n,
        forall|k: int| #![trigger post[k]] 0 <= k < n ==> post[k] < n && rank[post[k] as int] == k,
        0 <= v < n,
    ensures
        exists|k: int| 0 <= k < n && post[k] as int == v,
{
    let img = Set::new(|x: int| exists|k: int| 0 <= k < n && post[k] as int == x);
    let f = |k: int| post[k] as int;
    assert forall|x: int| img.contains(x) implies set_int_range(0, n).map(f).contains(x) by {
        let k = choose|k: int| 0 <= k < n && post[k] as int == x;
        assert(set_int_range(0, n).contains(k) && f(k) == x);
    }
    assert forall|x: int| set_int_range(0, n).map(f).contains(x) implies img.contains(x) by {
        let k = choose|k: int| set_int_range(0, n).contains(k) && f(k) == x;
        assert(0 <= k < n && post[k] as int == x);
    }
    assert(img =~= set_int_range(0, n).map(f));
    lemma_int_range(0, n);
    assert forall|a: int, b: int| set_int_range(0, n).contains(a) && set_int_range(0, n).contains(b) && f(a) == f(b) implies a == b by {
        assert(rank[post[a] as int] == a);
        assert(rank[post[b] as int] == b);
    }
    vstd::set_lib::lemma_map_size(set_int_range(0, n), img, f);
    assert forall|x: int| img.contains(x) implies set_int_range(0, n).contains(x) by {
        let k = choose|k: int| 0 <= k < n && post[k] as int == x;
        assert(post[k] < n && rank[post[k] as int] == k);
    }
    assert(img.subset_of(set_int_range(0, n)));
    if !img.contains(v) {
        let smaller = set_int_range(0, n).remove(v);
        assert(img.subset_of(smaller));
        lemma_len_subset(img, smaller);
        assert(set_int_range(0, n).contains(v));
    }
}


/// Node ranks that put every edge on no cycle forward: distinct ranks below
/// the node count, and `u` before `v` for each edge `u -> v` where `v` does
/// not reach back to `u`.
pub open spec fn rank_ok(succ: Seq<Vec<usize>>, ri: Seq<usize>) -> bool {
    let n = succ.len();
    &&& ri.len() == n
    &&& forall|v: int| 0 <= v < n ==> #[trigger] ri[v] < n
    &&& forall|u: int, v: int| 0 <= u < n && 0 <= v < n && u != v ==> #[trigger] ri[u] != #[trigger] ri[v]
    &&& forall|u: int, v: int| #[trigger] edge(succ, u, v) && !reach(succ, v, u) ==> ri[u] < ri[v]
}

/// Starts a visit at `v` where it has not been visited.
fn visit(succ: &Vec<Vec<usize>>, v: usize, color: &mut Vec<u8>, post: &mut Vec<usize>, rank: &mut Vec<usize>)
    requires
        graph_wf(succ@),
        v < succ@.len(),
        state_ok(succ@, old(color)@, old(post)@, old(rank)@),
        gray_exactly(old(color)@, Seq::empty()),
        old(post)@.len() <= succ@.len(),
    ensures
        state_ok(succ@, final(color)@, final(post)@, final(rank)@),
        gray_exactly(final(color)@, Seq::empty()),
        final(color)@[v as int] == 2,
        forall|w: int| 0 <= w < succ@.len() && old(color)@[w] == 2 ==> #[trigger] final(color)@[w] == 2,
        final(post)@.len() <= succ@.len(),
{
    if color[v] == 0 {
        let ghost before = color@;
        color.set(v, 1);
        proof {
            let gs = seq![v as int];
            assert forall|x: int| 0 <= x < color@.len() implies (color@[x] == 1 <==> #[trigger] gs.contains(x)) by {
                if x != v {
                    assert(!Seq::<int>::empty().contains(x));
                    assert(color@[x] == before[x]);
                    if gs.contains(x) {
                        let j = choose|j: int| 0 <= j < gs.len() && gs[j] == x;
                    }
                } else {
                    assert(gs[0] == x);
                }
            }
            assert(gs.drop_last() =~= Seq::<int>::empty());
            assert(post@.len() < succ@.len()) by {
                if post@.len() >= succ@.len() {
                    lemma_post_full(succ@, color@, post@, rank@, v as int);
                }
            }
            assert forall|x: int| #![trigger color@[x]] 0 <= x < succ@.len() implies color@[x] <= 2 by {
                if x != v {
                    assert(color@[x] == before[x]);
                }
            }
            assert(state_ok(succ@, color@, post@, rank@));
        }
        let ghost gs = seq![v as int];
        dfs(succ, v, color, post, rank, Ghost(gs));
    } else {
        proof {
            assert(!Seq::<int>::empty().contains(v as int));
            assert(color@[v as int] <= 2);
        }
    }
}

/// A cycle-aware topological order over the nodes `0..n` of a graph given by
/// its successor lists.
#[derive(Debug)]
pub struct TopoWithCycles {
    /// The successor lists the order was computed from.
    pub successors: Vec<Vec<usize>>,
    /// For each node, its position in the order.
    pub reverse_index: Vec<usize>,
}

impl TopoWithCycles {
    /// Orders the nodes by the reverse of a depth-first postorder that starts
    /// from the nodes with no incoming edge and then from every node not yet
    /// reached, so that every node gets exactly one position.
    pub fn from_successors(succ: Vec<Vec<usize>>) -> (r: Self)
        requires
            graph_wf(succ@),
        ensures
            r.successors@ == succ@,
            rank_ok(succ@, r.reverse_index@),
    {
        let n = succ.len();
        let mut incoming: Vec<bool> = Vec::new();
        let mut color: Vec<u8> = Vec::new();
        let mut rank: Vec<usize> = Vec::new();
        let mut i: usize = 0;
        while i < n
            invariant
                i <= n,
                incoming@.len() == i,
                color@.len() == i,
                rank@.len() == i,
                forall|x: int| 0 <= x < i ==> #[trigger] color@[x] == 0,
            decreases n - i,
        {
            incoming.push(false);
            color.push(0);
            rank.push(0);
            i = i + 1;
        }
        let mut u: usize = 0;
        while u < n
            invariant
                n == succ@.len(),
                graph_wf(succ@),
                incoming@.len() == n,
            decreases n - u,
        {
            let mut k: usize = 0;
            while k < succ[u].len()
                invariant
                    n == succ@.len(),
                    u < n,
                    graph_wf(succ@),
                    incoming@.len() == n,
                decreases succ@[u as int]@.len() - k,
            {
                let w = succ[u][k];
                incoming.set(w, true);
                k = k + 1;
            }
            u = u + 1;
        }
        let mut post: Vec<usize> = Vec::new();
        proof {
            assert forall|x: int| 0 <= x < color@.len() implies (color@[x] == 1 <==> #[trigger] Seq::<int>::empty().contains(x)) by {
                assert(color@[x] == 0);
            }
            assert forall|x: int| #![trigger color@[x]] 0 <= x < n implies color@[x] <= 2 by {
                assert(color@[x] == 0);
            }
        }
        let mut v: usize = 0;
        while v < n
            invariant
                n == succ@.len(),
                graph_wf(succ@),
                incoming@.len() == n,
                state_ok(succ@, color@, post@, rank@),
                gray_exactly(color@, Seq::empty()),
                post@.len() <= n,
            decreases n - v,
        {
            if !incoming[v] {
                visit(&succ, v, &mut color, &mut post, &mut rank);
            }
            v = v + 1;
        }
        let mut v: usize = 0;
        while v < n
            invariant
                n == succ@.len(),
                graph_wf(succ@),
                state_ok(succ@, color@, post@, rank@),
                gray_exactly(color@, Seq::empty()),
                post@.len() <= n,
                v <= n,
                forall|w: int| 0 <= w < v ==> #[trigger] color@[w] == 2,
            decreases n - v,
        {
            visit(&succ, v, &mut color, &mut post, &mut rank);
            v = v + 1;
        }
        let mut ri: Vec<usize> = Vec::new();
        let mut v: usize = 0;
        while v < n
            invariant
                n == succ@.len(),
                state_ok(succ@, color@, post@, rank@),
                post@.len() <= n,
                forall|w: int| 0 <= w < n ==> #[trigger] color@[w] == 2,
                v <= n,
                ri@.len() == v,
                forall|w: int| 0 <= w < v ==> #[trigger] ri@[w] == n - 1 - rank@[w],
            decreases n - v,
        {
            assert(color@[v as int] == 2);
            assert(rank@[v as int] < post@.len());
            ri.push(n - 1 - rank[v]);
            v = v + 1;
        }
        proof {
            assert forall|w: int| 0 <= w < n implies #[trigger] ri@[w] < n by {
                assert(color@[w] == 2);
                assert(rank@[w] < post@.len());
            }
            assert forall|a: int, b: int| 0 <= a < n && 0 <= b < n && a != b implies #[trigger] ri@[a] != #[trigger] ri@[b] by {
                assert(color@[a] == 2 && color@[b] == 2);
                assert(rank@[a] < post@.len() && post@[rank@[a] as int] == a);
                assert(rank@[b] < post@.len() && post@[rank@[b] as int] == b);
            }
            assert forall|a: int, b: int| #[trigger] edge(succ@, a, b) && !reach(succ@, b, a) implies ri@[a] < ri@[b] by {
                let k = choose|k: int| 0 <= k < succ@[a]@.len() && succ@[a]@[k] as int == b;
                assert(color@[a] == 2);
                assert(succ@[a]@[k] < n);
                assert(color@[b] == 2);
                assert(rank@[a] < post@.len());
                assert(rank@[b] < post@.len());
            }
        }
        assert(ri@.len() == succ@.len());
        assert(rank_ok(succ@, ri@));
        TopoWithCycles { successors: succ, reverse_index: ri }
    }

    /// The position of `node` in the order.
    pub fn topo_ix(&self, node: usize) -> (r: usize)
        requires
            node < self.reverse_index@.len(),
        ensures
            r == self.reverse_index@[node as int],
    {
        self.reverse_index[node]
    }
}

/// Some link of `links` below `upto` goes from `u` to `v`.
pub open spec fn linked(links: Seq<PackageLink>, upto: int, u: int, v: int) -> bool {
    exists|m: int| 0 <= m < upto && links[m].from as int == u && links[m].to as int == v
}

impl TopoWithCycles {
    /// The order of the packages of `graph`, along its links.
    pub fn new(graph: &PackageGraph) -> (r: Self)
        ensures
            r.successors@.len() == graph.packages@.len(),
            rank_ok(r.successors@, r.reverse_index@),
            forall|m: int| 0 <= m < graph.links@.len() && graph.links@[m].from < graph.packages@.len()
                && graph.links@[m].to < graph.packages@.len() ==> #[trigger] edge(r.successors@, graph.links@[m].from as int, graph.links@[m].to as int),
            forall|u: int, v: int| edge(r.successors@, u, v) ==> linked(graph.links@, graph.links@.len() as int, u, v),
    {
        let n = graph.packages.len();
        let mut succ: Vec<Vec<usize>> = Vec::new();
        let mut i: usize = 0;
        while i < n
            invariant
                i <= n,
                succ@.len() == i,
                forall|x: int| 0 <= x < i ==> (#[trigger] succ@[x])@.len() == 0,
            decreases n - i,
        {
            succ.push(Vec::new());
            i = i + 1;
        }
        let links = &graph.links;
        let mut m: usize = 0;
        while m < links.len()
            invariant
                n == graph.packages@.len(),
                succ@.len() == n,
                graph_wf(succ@),
                m <= links@.len(),
                forall|q: int| 0 <= q < m && links@[q].from < n && links@[q].to < n ==> #[trigger] edge(succ@, links@[q].from as int, links@[q].to as int),
                forall|u: int, v: int| edge(succ@, u, v) ==> linked(links@, m as int, u, v),
            decreases links.len() - m,
        {
            let from = links[m].from;
            let to = links[m].to;
            if from < n && to < n {
                let ghost before = succ@;
                let mut row: Vec<usize> = Vec::new();
                core::mem::swap(&mut succ[from], &mut row);
                let ghost old_row = row@;
                assert(old_row == before[from as int]@);
                row.push(to);
                succ.set(from, row);
                proof {
                    assert forall|u: int, k: int| 0 <= u < succ@.len() && 0 <= k < succ@[u]@.len() implies #[trigger] succ@[u]@[k] < succ@.len() by {
                        if u != from as int {
                            assert(succ@[u] == before[u]);
                        } else if k < old_row.len() {
                            assert(succ@[u]@[k] == old_row[k]);
                        }
                    }
                    assert forall|q: int| 0 <= q < m + 1 && links@[q].from < n && links@[q].to < n implies #[trigger] edge(succ@, links@[q].from as int, links@[q].to as int) by {
                        let a = links@[q].from as int;
                        let b = links@[q].to as int;
                        if q == m {
                            assert(succ@[a]@[old_row.len() as int] == to);
                        } else {
                            assert(edge(before, a, b));
                            let k = choose|k: int| 0 <= k < before[a]@.len() && before[a]@[k] as int == b;
                            if a == from as int {
                                assert(succ@[a]@[k] == old_row[k]);
                            } else {
                                assert(succ@[a] == before[a]);
                            }
                        }
                    }
                    assert forall|u: int, v: int| edge(succ@, u, v) implies linked(links@, m + 1, u, v) by {
                        let k = choose|k: int| 0 <= k < succ@[u]@.len() && succ@[u]@[k] as int == v;
                        if u == from as int && k == old_row.len() {
                            assert(links@[m as int].from as int == u && links@[m as int].to as int == v);
                        } else {
                            if u == from as int {
                                assert(before[u]@[k] == succ@[u]@[k]);
                            } else {
                                assert(before[u] == succ@[u]);
                            }
                            assert(edge(before, u, v));
                            let q = choose|q: int| 0 <= q < m && links@[q].from as int == u && links@[q].to as int == v;
                        }
                    }
                }
            } else {
                proof {
                    assert forall|u: int, v: int| edge(succ@, u, v) implies linked(links@, m + 1, u, v) by {
                        let q = choose|q: int| 0 <= q < m && links@[q].from as int == u && links@[q].to as int == v;
                    }
                }
            }
            m = m + 1;
        }
        TopoWithCycles::from_successors(succ)
    }

    /// Sorts `nodes` by their positions in the order.
    pub fn sort_nodes(&self, nodes: &mut Vec<usize>)
        requires
            forall|k: int| 0 <= k < old(nodes)@.len() ==> #[trigger] old(nodes)@[k] < self.reverse_index@.len(),
        ensures
            final(nodes)@.to_multiset() == old(nodes)@.to_multiset(),
            forall|a: int, b: int| 0 <= a < b < final(nodes)@.len() ==> self.reverse_index@[final(nodes)@[a] as int]
                <= self.reverse_index@[final(nodes)@[b] as int],
    {
        sort_by_position(self, nodes);
    }
}

/// Relies on `slice::sort_unstable_by_key`: the slice ends up a permutation
/// of itself, ordered by the key; the key is each node's position.
#[verifier::external_body]
fn sort_by_position(topo: &TopoWithCycles, nodes: &mut Vec<usize>)
    requires
        forall|k: int| 0 <= k < old(nodes)@.len() ==> #[trigger] old(nodes)@[k] < topo.reverse_index@.len(),
    ensures
        final(nodes)@.to_multiset() == old(nodes)@.to_multiset(),
        forall|a: int, b: int| 0 <= a < b < final(nodes)@.len() ==> topo.reverse_index@[final(nodes)@[a] as int]
            <= topo.reverse_index@[final(nodes)@[b] as int],
{
    nodes.sort_unstable_by_key(|n| topo.topo_ix(*n))
}

/// Every edge on no cycle goes forward in the order; on a graph without
/// cycles that is every edge. Each node has one position below the node
/// count, and no two share one.
pub proof fn lemma_topo_order(succ: Seq<Vec<usize>>, ri: Seq<usize>)
    requires
        rank_ok(succ, ri),
    ensures
        forall|u: int, v: int| edge(succ, u, v) && !reach(succ, v, u) ==> ri[u] < ri[v],
        (forall|u: int, v: int| edge(succ, u, v) ==> !reach(succ, v, u)) ==> forall|u: int, v: int| edge(succ, u, v) ==> ri[u] < ri[v],
        forall|v: int| 0 <= v < succ.len() ==> ri[v] < succ.len(),
        forall|u: int, v: int| 0 <= u < succ.len() && 0 <= v < succ.len() && u != v ==> ri[u] != ri[v],
{
}

} // verus!
