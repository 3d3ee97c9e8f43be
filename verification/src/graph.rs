//! Weighted undirected graphs and the single-source shortest-path solver.
//!
//! A graph is an adjacency list over 1-based vertex ids; an edge between
//! two vertices is stored in both endpoints' lists. The solver runs
//! Dijkstra's algorithm over the indexed min-heap, ranking vertices by
//! their best known score, with an unknown score ranking above every
//! known one.

use crate::heap::{Heap, HeapOrd, Identity};
use core::cmp::Ordering;
use vstd::prelude::*;
use vstd::string::StrSliceExecFns;

verus! {

/// The rank of a tentative score: a known distance ranks by its value,
/// and an unknown score ranks just above every representable distance.
pub open spec fn score_val(s: Option<usize>) -> int {
    match s {
        Option::Some(v) => v as int,
        Option::None => usize::MAX as int + 1,
    }
}

/// A vertex together with its current best known distance from the
/// source; `score` is `None` while no path to it is known.
#[derive(Eq, Debug, Copy, Clone)]
pub struct DijkstraScore {
    pub node_num: usize,
    pub score: Option<usize>,
}

impl DijkstraScore {
    /// A scored entry for the given vertex.
    pub fn from(node_num: usize, score: usize) -> (r: Self)
        ensures
            r == (DijkstraScore { node_num, score: Some(score) }),
    {
        Self { node_num, score: Some(score) }
    }
}

impl Identity for DijkstraScore {
    open spec fn id(&self) -> usize {
        self.node_num
    }

    fn get_id(&self) -> (r: usize) {
        self.node_num
    }
}

impl HeapOrd for DijkstraScore {
    open spec fn le_spec(self, other: Self) -> bool {
        score_val(self.score) <= score_val(other.score)
    }

    proof fn lemma_le_total(a: Self, b: Self) {
    }

    proof fn lemma_le_trans(a: Self, b: Self, c: Self) {
    }

    fn ranks_le(&self, other: &Self) -> (r: bool) {
        match (self.score, other.score) {
            (Option::None, Option::None) => true,
            (Option::None, Option::Some(_)) => false,
            (Option::Some(_), Option::None) => true,
            (Option::Some(x), Option::Some(y)) => x <= y,
        }
    }
}

impl PartialEq for DijkstraScore {
    /// Entries are compared by the vertex they stand for, as the heap
    /// finds them by identity; the tentative score is not part of it.
    fn eq(&self, other: &Self) -> (r: bool) {
        self.node_num == other.node_num
    }
}

impl vstd::std_specs::cmp::PartialEqSpecImpl for DijkstraScore {
    open spec fn obeys_eq_spec() -> bool {
        true
    }

    open spec fn eq_spec(&self, other: &Self) -> bool {
        self.node_num == other.node_num
    }
}

impl PartialOrd for DijkstraScore {
    /// Entries are ordered by score, an unknown score greatest.
    fn partial_cmp(&self, other: &Self) -> (r: Option<Ordering>) {
        let o = match (self.score, other.score) {
            (Option::None, Option::None) => Ordering::Equal,
            (Option::None, Option::Some(_)) => Ordering::Greater,
            (Option::Some(_), Option::None) => Ordering::Less,
            (Option::Some(x), Option::Some(y)) => if x < y {
                Ordering::Less
            } else if x == y {
                Ordering::Equal
            } else {
                Ordering::Greater
            },
        };
        Some(o)
    }
}

impl vstd::std_specs::cmp::PartialOrdSpecImpl for DijkstraScore {
    open spec fn obeys_partial_cmp_spec() -> bool {
        true
    }

    open spec fn partial_cmp_spec(&self, other: &Self) -> Option<Ordering> {
        Some(
            if score_val(self.score) < score_val(other.score) {
                Ordering::Less
            } else if score_val(self.score) == score_val(other.score) {
                Ordering::Equal
            } else {
                Ordering::Greater
            },
        )
    }
}

/// An adjacency entry: the neighbour's 1-based id and the weight of the
/// edge leading to it.
#[derive(Debug, Clone)]
pub struct Edge {
    node_num: usize,
    weight: usize,
}

/// A vertex of the weighted graph: its adjacency list.
#[derive(Debug, Clone)]
pub struct Node {
    edges: Vec<Edge>,
}

/// A weighted undirected graph: an arena of vertices indexed by 1-based
/// id, each holding its adjacency list. An undirected edge appears in
/// both endpoints' lists; the loader is responsible for that symmetry.
#[derive(Debug, Clone)]
pub struct UWGraph {
    nodes: Vec<Node>,
}

/// The adjacency view of an arena of vertices.
spec fn adj_of(nodes: Seq<Node>) -> Seq<Seq<(usize, usize)>> {
    nodes.map_values(|n: Node| n.edges@.map_values(|e: Edge| (e.node_num, e.weight)))
}

/// Every adjacency entry names a vertex of the structure.
pub open spec fn targets_in_range(a: Seq<Seq<(usize, usize)>>) -> bool {
    forall|i: int, k: int|
        #![trigger a[i][k]]
        0 <= i < a.len() && 0 <= k < a[i].len() ==> 1 <= a[i][k].0 <= a.len()
}

impl UWGraph {
    /// The adjacency structure: for each vertex (0-based position,
    /// 1-based id), the sequence of its `(neighbour id, weight)` entries.
    pub closed spec fn adj(self) -> Seq<Seq<(usize, usize)>> {
        adj_of(self.nodes@)
    }

    /// Well-formedness: every adjacency entry names a vertex of the graph.
    pub closed spec fn wf(self) -> bool {
        targets_in_range(self.adj())
    }

    /// The number of vertices.
    pub fn node_count(&self) -> (r: usize)
        ensures
            r == self.adj().len(),
    {
        self.nodes.len()
    }
}

/// `vs` (1-based vertex ids) and `es` (positions into adjacency lists)
/// describe a walk through the graph: step `k` leaves `vs[k]` along its
/// adjacency entry `es[k]` and arrives at `vs[k + 1]`.
pub open spec fn path_ok(g: Seq<Seq<(usize, usize)>>, vs: Seq<int>, es: Seq<int>) -> bool {
    &&& vs.len() == es.len() + 1
    &&& forall|k: int| 0 <= k < vs.len() ==> 1 <= #[trigger] vs[k] <= g.len()
    &&& forall|k: int|
        0 <= k < es.len() ==> {
            &&& 0 <= #[trigger] es[k] < g[vs[k] - 1].len()
            &&& g[vs[k] - 1][es[k]].0 == vs[k + 1]
        }
}

/// The cost of a walk: the sum of the weights of its steps.
pub open spec fn path_cost(g: Seq<Seq<(usize, usize)>>, vs: Seq<int>, es: Seq<int>) -> int
    decreases es.len(),
{
    if es.len() <= 0 {
        0
    } else {
        g[vs[0] - 1][es[0]].1 + path_cost(g, vs.drop_first(), es.drop_first())
    }
}

/// Whether `vs`/`es` is a walk from `s` to `t`.
pub open spec fn connects(
    g: Seq<Seq<(usize, usize)>>,
    vs: Seq<int>,
    es: Seq<int>,
    s: int,
    t: int,
) -> bool {
    &&& path_ok(g, vs, es)
    &&& vs.first() == s
    &&& vs.last() == t
}

/// Dropping the first step of a walk leaves a walk.
proof fn lemma_path_drop_first(g: Seq<Seq<(usize, usize)>>, vs: Seq<int>, es: Seq<int>)
    requires
        path_ok(g, vs, es),
        es.len() >= 1,
    ensures
        path_ok(g, vs.drop_first(), es.drop_first()),
{
    let vs2 = vs.drop_first();
    let es2 = es.drop_first();
    assert forall|k: int| 0 <= k < es2.len() implies {
        &&& 0 <= #[trigger] es2[k] < g[vs2[k] - 1].len()
        &&& g[vs2[k] - 1][es2[k]].0 == vs2[k + 1]
    } by {
        assert(es2[k] == es[k + 1] && vs2[k] == vs[k + 1] && vs2[k + 1] == vs[k + 2]);
    }
}

/// Walk costs are non-negative.
proof fn lemma_path_cost_nonneg(g: Seq<Seq<(usize, usize)>>, vs: Seq<int>, es: Seq<int>)
    requires
        path_ok(g, vs, es),
    ensures
        path_cost(g, vs, es) >= 0,
    decreases es.len(),
{
    if es.len() >= 1 {
        lemma_path_drop_first(g, vs, es);
        lemma_path_cost_nonneg(g, vs.drop_first(), es.drop_first());
    }
}

/// Extending a walk by one adjacency step adds that step's weight.
proof fn lemma_path_push(g: Seq<Seq<(usize, usize)>>, vs: Seq<int>, es: Seq<int>, k: int)
    requires
        path_ok(g, vs, es),
        0 <= k < g[vs.last() - 1].len(),
        1 <= g[vs.last() - 1][k].0 <= g.len(),
    ensures
        path_ok(g, vs.push(g[vs.last() - 1][k].0 as int), es.push(k)),
        path_cost(g, vs.push(g[vs.last() - 1][k].0 as int), es.push(k)) == path_cost(g, vs, es)
            + g[vs.last() - 1][k].1,
        vs.push(g[vs.last() - 1][k].0 as int).first() == vs.first(),
        vs.push(g[vs.last() - 1][k].0 as int).last() == g[vs.last() - 1][k].0,
    decreases es.len(),
{
    let u = g[vs.last() - 1][k].0 as int;
    let vs2 = vs.push(u);
    let es2 = es.push(k);
    assert forall|j: int| 0 <= j < es2.len() implies {
        &&& 0 <= #[trigger] es2[j] < g[vs2[j] - 1].len()
        &&& g[vs2[j] - 1][es2[j]].0 == vs2[j + 1]
    } by {
        if j < es.len() {
            assert(es2[j] == es[j] && vs2[j] == vs[j] && vs2[j + 1] == vs[j + 1]);
        } else {
            assert(es2[j] == k && vs2[j] == vs.last() && vs2[j + 1] == u);
        }
    }
    assert(path_ok(g, vs2, es2));
    if es.len() == 0 {
        assert(vs2.drop_first() =~= seq![u]);
        assert(es2.drop_first() =~= Seq::<int>::empty());
        assert(path_cost(g, vs2.drop_first(), es2.drop_first()) == 0);
        assert(path_cost(g, vs2, es2) == g[vs2[0] - 1][es2[0]].1 + path_cost(
            g,
            vs2.drop_first(),
            es2.drop_first(),
        ));
        assert(vs2[0] == vs[0] && vs[0] == vs.last() && es2[0] == k);
    } else {
        lemma_path_drop_first(g, vs, es);
        lemma_path_push(g, vs.drop_first(), es.drop_first(), k);
        assert(vs2.drop_first() =~= vs.drop_first().push(u));
        assert(es2.drop_first() =~= es.drop_first().push(k));
        assert(vs.drop_first().last() == vs.last());
        assert(vs2[0] == vs[0] && es2[0] == es[0]);
    }
}

/// A walk that starts inside a set of vertices and ends outside it has a
/// first step out of the set, and the walk costs at least the prefix up
/// to that step plus the weight of the step itself.
proof fn lemma_exit_edge(g: Seq<Seq<(usize, usize)>>, vs: Seq<int>, es: Seq<int>, ss: Set<int>)
    requires
        path_ok(g, vs, es),
        ss.contains(vs.first()),
        !ss.contains(vs.last()),
    ensures
        exists|j: int|
            {
                &&& 0 <= j < es.len()
                &&& ss.contains(vs[j])
                &&& !ss.contains(#[trigger] vs[j + 1])
                &&& path_ok(g, vs.take(j + 1), es.take(j))
                &&& vs.take(j + 1).first() == vs.first()
                &&& vs.take(j + 1).last() == vs[j]
                &&& g[vs[j] - 1][es[j]].0 == vs[j + 1]
                &&& path_cost(g, vs, es) >= path_cost(g, vs.take(j + 1), es.take(j)) + g[vs[j]
                    - 1][es[j]].1
            },
    decreases es.len(),
{
    assert(vs.len() >= 2);
    let vs2 = vs.drop_first();
    let es2 = es.drop_first();
    lemma_path_drop_first(g, vs, es);
    if !ss.contains(vs[1]) {
        let j: int = 0;
        assert(vs.take(1) =~= seq![vs[0]]);
        assert(es.take(0) =~= Seq::<int>::empty());
        assert(path_ok(g, vs.take(1), es.take(0)));
        lemma_path_cost_nonneg(g, vs2, es2);
        assert(path_cost(g, vs, es) == g[vs[0] - 1][es[0]].1 + path_cost(g, vs2, es2));
        assert({
            &&& 0 <= j < es.len()
            &&& ss.contains(vs[j])
            &&& !ss.contains(vs[j + 1])
            &&& path_ok(g, vs.take(j + 1), es.take(j))
            &&& vs.take(j + 1).first() == vs.first()
            &&& vs.take(j + 1).last() == vs[j]
            &&& g[vs[j] - 1][es[j]].0 == vs[j + 1]
            &&& path_cost(g, vs, es) >= path_cost(g, vs.take(j + 1), es.take(j)) + g[vs[j]
                - 1][es[j]].1
        });
    } else {
        assert(vs2.first() == vs[1] && vs2.last() == vs.last());
        lemma_exit_edge(g, vs2, es2, ss);
        let j2 = choose|j2: int|
            {
                &&& 0 <= j2 < es2.len()
                &&& ss.contains(vs2[j2])
                &&& !ss.contains(#[trigger] vs2[j2 + 1])
                &&& path_ok(g, vs2.take(j2 + 1), es2.take(j2))
                &&& vs2.take(j2 + 1).first() == vs2.first()
                &&& vs2.take(j2 + 1).last() == vs2[j2]
                &&& g[vs2[j2] - 1][es2[j2]].0 == vs2[j2 + 1]
                &&& path_cost(g, vs2, es2) >= path_cost(g, vs2.take(j2 + 1), es2.take(j2))
                    + g[vs2[j2] - 1][es2[j2]].1
            };
        let j = j2 + 1;
        assert(vs[j] == vs2[j2] && vs[j + 1] == vs2[j2 + 1] && es[j] == es2[j2]);
        // the prefix of the whole walk is the first step plus the prefix
        // of the rest
        assert(vs.take(j + 1).drop_first() =~= vs2.take(j2 + 1));
        assert(es.take(j).drop_first() =~= es2.take(j2));
        assert forall|k: int| 0 <= k < es.take(j).len() implies {
            &&& 0 <= #[trigger] es.take(j)[k] < g[vs.take(j + 1)[k] - 1].len()
            &&& g[vs.take(j + 1)[k] - 1][es.take(j)[k]].0 == vs.take(j + 1)[k + 1]
        } by {
            assert(es.take(j)[k] == es[k] && vs.take(j + 1)[k] == vs[k] && vs.take(j + 1)[k + 1]
                == vs[k + 1]);
        }
        assert(path_ok(g, vs.take(j + 1), es.take(j)));
        assert(path_cost(g, vs.take(j + 1), es.take(j)) == g[vs[0] - 1][es[0]].1 + path_cost(
            g,
            vs2.take(j2 + 1),
            es2.take(j2),
        )) by {
            assert(vs.take(j + 1)[0] == vs[0] && es.take(j)[0] == es[0]);
        }
        assert(path_cost(g, vs, es) == g[vs[0] - 1][es[0]].1 + path_cost(g, vs2, es2));
        assert({
            &&& 0 <= j < es.len()
            &&& ss.contains(vs[j])
            &&& !ss.contains(vs[j + 1])
            &&& path_ok(g, vs.take(j + 1), es.take(j))
            &&& vs.take(j + 1).first() == vs.first()
            &&& vs.take(j + 1).last() == vs[j]
            &&& g[vs[j] - 1][es[j]].0 == vs[j + 1]
            &&& path_cost(g, vs, es) >= path_cost(g, vs.take(j + 1), es.take(j)) + g[vs[j]
                - 1][es[j]].1
        });
    }
}

/// Some walk from the source (vertex 1) to `t` costs exactly `c`.
pub open spec fn reaches_with_cost(g: Seq<Seq<(usize, usize)>>, t: int, c: int) -> bool {
    exists|vs: Seq<int>, es: Seq<int>|
        #[trigger] connects(g, vs, es, 1, t) && path_cost(g, vs, es) == c
}

/// Every walk from the source (vertex 1) to `t` costs at least `c`.
pub open spec fn min_cost_at_least(g: Seq<Seq<(usize, usize)>>, t: int, c: int) -> bool {
    forall|vs: Seq<int>, es: Seq<int>|
        #[trigger] connects(g, vs, es, 1, t) ==> path_cost(g, vs, es) >= c
}


/// Every edge of the graph carries weight 1.
pub open spec fn unit_weights(g: Seq<Seq<(usize, usize)>>) -> bool {
    forall|i: int, k: int|
        #![trigger g[i][k]]
        0 <= i < g.len() && 0 <= k < g[i].len() ==> g[i][k].1 == 1
}

/// On unit weights, a walk costs exactly its number of edges.
proof fn lemma_unit_cost_is_length(g: Seq<Seq<(usize, usize)>>, vs: Seq<int>, es: Seq<int>)
    requires
        unit_weights(g),
        path_ok(g, vs, es),
    ensures
        path_cost(g, vs, es) == es.len(),
    decreases es.len(),
{
    if es.len() > 0 {
        lemma_path_drop_first(g, vs, es);
        lemma_unit_cost_is_length(g, vs.drop_first(), es.drop_first());
        assert(g[vs[0] - 1][es[0]].1 == 1);
    }
}

/// Breadth-first law: on a unit-weight graph, a distance satisfying the
/// solver's two clauses is the breadth-first level of the target — the
/// least number of edges on any walk from the source.
pub proof fn lemma_unit_weight_level(g: Seq<Seq<(usize, usize)>>, t: int, d: usize)
    requires
        unit_weights(g),
        reaches_with_cost(g, t, d as int),
        min_cost_at_least(g, t, d as int),
    ensures
        exists|vs: Seq<int>, es: Seq<int>| #[trigger] connects(g, vs, es, 1, t) && es.len() == d,
        forall|vs: Seq<int>, es: Seq<int>|
            #[trigger] connects(g, vs, es, 1, t) ==> es.len() >= d,
{
    let (vs0, es0) = choose|vs: Seq<int>, es: Seq<int>|
        #[trigger] connects(g, vs, es, 1, t) && path_cost(g, vs, es) == d as int;
    lemma_unit_cost_is_length(g, vs0, es0);
    assert(connects(g, vs0, es0, 1, t) && es0.len() == d);
    assert forall|vs: Seq<int>, es: Seq<int>| #[trigger]
        connects(g, vs, es, 1, t) implies es.len() >= d by {
        lemma_unit_cost_is_length(g, vs, es);
    }
}

/// A walk from the source to `u` of cost `c` whose vertices before `u`
/// all lie in the settled set `ss`.
spec fn frontier_witness(g: Seq<Seq<(usize, usize)>>, ss: Set<int>, u: int, c: int) -> bool {
    exists|vs: Seq<int>, es: Seq<int>|
        {
            &&& #[trigger] connects(g, vs, es, 1, u)
            &&& path_cost(g, vs, es) == c
            &&& forall|k: int| 0 <= k < vs.len() - 1 ==> ss.contains(#[trigger] vs[k])
        }
}

/// A walk from the source to `x` of cost `c` running entirely inside the
/// settled set `ss` (its endpoint included).
spec fn settled_witness(g: Seq<Seq<(usize, usize)>>, ss: Set<int>, x: int, c: int) -> bool {
    exists|vs: Seq<int>, es: Seq<int>|
        {
            &&& #[trigger] connects(g, vs, es, 1, x)
            &&& path_cost(g, vs, es) == c
            &&& forall|k: int| 0 <= k < vs.len() ==> ss.contains(#[trigger] vs[k])
        }
}

/// Frontier witnesses survive growing the settled set.
proof fn lemma_frontier_witness_grow(
    g: Seq<Seq<(usize, usize)>>,
    ss: Set<int>,
    ss2: Set<int>,
    u: int,
    c: int,
)
    requires
        frontier_witness(g, ss, u, c),
        ss.subset_of(ss2),
    ensures
        frontier_witness(g, ss2, u, c),
{
    let (vs, es) = choose|vs: Seq<int>, es: Seq<int>|
        {
            &&& #[trigger] connects(g, vs, es, 1, u)
            &&& path_cost(g, vs, es) == c
            &&& forall|k: int| 0 <= k < vs.len() - 1 ==> ss.contains(#[trigger] vs[k])
        };
    assert(connects(g, vs, es, 1, u) && path_cost(g, vs, es) == c && forall|k: int|
        0 <= k < vs.len() - 1 ==> ss2.contains(#[trigger] vs[k]));
}

/// Settled witnesses survive growing the settled set.
proof fn lemma_settled_witness_grow(
    g: Seq<Seq<(usize, usize)>>,
    ss: Set<int>,
    ss2: Set<int>,
    x: int,
    c: int,
)
    requires
        settled_witness(g, ss, x, c),
        ss.subset_of(ss2),
    ensures
        settled_witness(g, ss2, x, c),
{
    let (vs, es) = choose|vs: Seq<int>, es: Seq<int>|
        {
            &&& #[trigger] connects(g, vs, es, 1, x)
            &&& path_cost(g, vs, es) == c
            &&& forall|k: int| 0 <= k < vs.len() ==> ss.contains(#[trigger] vs[k])
        };
    assert(connects(g, vs, es, 1, x) && path_cost(g, vs, es) == c && forall|k: int|
        0 <= k < vs.len() ==> ss2.contains(#[trigger] vs[k]));
}

/// A frontier witness whose endpoint joins the settled set becomes a
/// settled witness.
proof fn lemma_frontier_to_settled(
    g: Seq<Seq<(usize, usize)>>,
    ss: Set<int>,
    ss2: Set<int>,
    u: int,
    c: int,
)
    requires
        frontier_witness(g, ss, u, c),
        ss.subset_of(ss2),
        ss2.contains(u),
    ensures
        settled_witness(g, ss2, u, c),
{
    let (vs, es) = choose|vs: Seq<int>, es: Seq<int>|
        {
            &&& #[trigger] connects(g, vs, es, 1, u)
            &&& path_cost(g, vs, es) == c
            &&& forall|k: int| 0 <= k < vs.len() - 1 ==> ss.contains(#[trigger] vs[k])
        };
    assert(vs.last() == u);
    assert(connects(g, vs, es, 1, u) && path_cost(g, vs, es) == c && forall|k: int|
        0 <= k < vs.len() ==> ss2.contains(#[trigger] vs[k]));
}

/// Extending a settled witness by one edge out of the settled set yields
/// a frontier witness for the edge's head.
proof fn lemma_settled_extend(
    g: Seq<Seq<(usize, usize)>>,
    ss: Set<int>,
    x: int,
    c: int,
    k: int,
)
    requires
        settled_witness(g, ss, x, c),
        1 <= x <= g.len(),
        0 <= k < g[x - 1].len(),
        1 <= g[x - 1][k].0 <= g.len(),
    ensures
        frontier_witness(g, ss, g[x - 1][k].0 as int, c + g[x - 1][k].1),
{
    let (vs, es) = choose|vs: Seq<int>, es: Seq<int>|
        {
            &&& #[trigger] connects(g, vs, es, 1, x)
            &&& path_cost(g, vs, es) == c
            &&& forall|k2: int| 0 <= k2 < vs.len() ==> ss.contains(#[trigger] vs[k2])
        };
    assert(vs.last() == x);
    lemma_path_push(g, vs, es, k);
    let vs2 = vs.push(g[x - 1][k].0 as int);
    let es2 = es.push(k);
    assert(connects(g, vs2, es2, 1, g[x - 1][k].0 as int));
    assert(path_cost(g, vs2, es2) == c + g[x - 1][k].1);
    assert(forall|k2: int| 0 <= k2 < vs2.len() - 1 ==> ss.contains(#[trigger] vs2[k2]));
}

impl UWGraph {
    /// Computes the shortest-path distance from the source vertex (1) to
    /// the given vertex by Dijkstra's algorithm over the indexed min-heap.
    ///
    /// Returns the least cost of any walk from the source, or `None` when
    /// no walk of representable cost exists (in particular, when the
    /// vertex is unreachable). A candidate distance beyond the
    /// representable range is treated as unknown, exactly as an
    /// unreachable vertex is.
    pub fn shortest_path_to(&self, node_id: usize) -> (r: Option<usize>)
        requires
            self.wf(),
            1 <= node_id <= self.adj().len(),
        ensures
            match r {
                Some(d) => reaches_with_cost(self.adj(), node_id as int, d as int)
                    && min_cost_at_least(self.adj(), node_id as int, d as int),
                None => min_cost_at_least(self.adj(), node_id as int, usize::MAX as int + 1),
            },
    {
        let ghost g = self.adj();
        let n = self.nodes.len();
        proof {
            assert(g.len() == n);
        }
        let mut heap: Heap<DijkstraScore> = Heap::default();
        // the best known score of each vertex not yet settled
        let ghost mut hs: Map<int, Option<usize>> = Map::new(
            |u: int| 1 <= u <= n,
            |u: int|
                if u == 1 {
                    Some(0usize)
                } else {
                    None
                },
        );
        // the settled vertices: ids already extracted from the heap
        let ghost mut ss: Set<int> = Set::empty();
        // the final distance of each vertex settled with a known score
        let ghost mut fin: Map<int, int> = Map::empty();

        let mut idx: usize = 0;
        while idx < n
            invariant
                idx <= n,
                n == g.len(),
                heap.wf(),
                heap.contents().len() == idx,
                hs == Map::new(
                    |u: int| 1 <= u <= n,
                    |u: int|
                        if u == 1 {
                            Some(0usize)
                        } else {
                            None
                        },
                ),
                forall|u: usize| heap.id_set().contains(u) <==> 1 <= u <= idx,
                forall|e: DijkstraScore| #[trigger]
                    heap.contents().contains(e) <==> (1 <= e.node_num <= idx && e.score == hs[e.node_num as int]),
            decreases n - idx,
        {
            let score = if idx == 0 {
                DijkstraScore { node_num: 1, score: Some(0) }
            } else {
                DijkstraScore { node_num: idx + 1, score: None }
            };
            let ghost pre = heap;
            heap.insert(score);
            proof {
                assert forall|e: DijkstraScore| #[trigger] heap.contents().contains(e) <==> (1
                    <= e.node_num <= idx + 1 && e.score == hs[e.node_num as int]) by {
                    if heap.contents().contains(e) {
                        if e != score {
                            assert(pre.contents().contains(e));
                        }
                    } else {
                        if 1 <= e.node_num <= idx + 1 && e.score == hs[e.node_num as int] {
                            if e.node_num <= idx {
                                assert(pre.contents().contains(e));
                                assert(heap.contents().contains(e));
                            } else {
                                assert(e.node_num == idx + 1 && e == score);
                                assert(heap.contents().contains(e));
                            }
                        }
                    }
                }
            }
            idx += 1;
        }

        proof {
            // the lone known score, the source's 0, is witnessed by the
            // trivial walk
            assert(connects(g, seq![1int], Seq::<int>::empty(), 1, 1) && path_cost(
                g,
                seq![1int],
                Seq::<int>::empty(),
            ) == 0) by {
                assert(seq![1int].len() == 1 && seq![1int][0] == 1);
            }
            assert forall|u: int|
                1 <= u <= n && !ss.contains(u) && score_val(hs[u])
                    <= usize::MAX implies frontier_witness(g, ss, u, score_val(hs[u])) by {
                assert(u == 1);
                assert(connects(g, seq![1int], Seq::<int>::empty(), 1, u) && path_cost(
                    g,
                    seq![1int],
                    Seq::<int>::empty(),
                ) == 0 && forall|k: int|
                    0 <= k < seq![1int].len() - 1 ==> ss.contains(#[trigger] seq![1int][k]));
            }
        }

        while !heap.is_empty()
            invariant
                self.wf(),
                g == self.adj(),
                n == g.len(),
                n == self.nodes@.len(),
                1 <= node_id <= n,
                heap.wf(),
                heap.contents().len() <= n,
                // the heap holds exactly the unsettled vertices, each under
                // its best known score
                forall|u: usize| #[trigger]
                    heap.id_set().contains(u) <==> (1 <= u <= n && !ss.contains(u as int)),
                forall|e: DijkstraScore| #[trigger]
                    heap.contents().contains(e) <==> (1 <= e.node_num <= n && !ss.contains(
                        e.node_num as int,
                    ) && e.score == hs[e.node_num as int]),
                !ss.contains(node_id as int),
                forall|x: int| #[trigger] ss.contains(x) ==> 1 <= x <= n,
                forall|x: int| #[trigger] fin.dom().contains(x) ==> ss.contains(x),
                // the source keeps score 0 until settled, and settles with
                // a known score
                !ss.contains(1) ==> hs[1] == Some(0usize),
                ss.contains(1) ==> fin.dom().contains(1),
                forall|x: int| #[trigger] fin.dom().contains(x) ==> 0 <= fin[x] <= usize::MAX,
                // every known score is achieved by a walk through settled
                // vertices
                forall|u: int|
                    1 <= u <= n && !ss.contains(u) && score_val(#[trigger] hs[u]) <= usize::MAX
                        ==> frontier_witness(g, ss, u, score_val(hs[u])),
                // every settled distance is achieved inside the settled set
                forall|x: int| #[trigger]
                    fin.dom().contains(x) ==> settled_witness(g, ss, x, fin[x]),
                // every settled distance is minimal
                forall|x: int| #[trigger]
                    fin.dom().contains(x) ==> min_cost_at_least(g, x, fin[x]),
                // a vertex settled without a known score has no walk of
                // representable cost
                forall|x: int|
                    ss.contains(x) && !(#[trigger] fin.dom().contains(x)) ==> min_cost_at_least(
                        g,
                        x,
                        usize::MAX as int + 1,
                    ),
                // every edge out of a settled vertex has been relaxed
                forall|x: int, k: int|
                    #![trigger fin.dom().contains(x), g[x - 1][k]]
                    fin.dom().contains(x) && 0 <= k < g[x - 1].len() && !ss.contains(
                        g[x - 1][k].0 as int,
                    ) && fin[x] + g[x - 1][k].1 <= usize::MAX ==> score_val(
                        hs[g[x - 1][k].0 as int],
                    ) <= fin[x] + g[x - 1][k].1,
                // settled distances never exceed unsettled scores: the
                // distances are finalized in non-decreasing order
                forall|x: int, u: int|
                    #![trigger fin.dom().contains(x), ss.contains(u)]
                    fin.dom().contains(x) && 1 <= u <= n && !ss.contains(u) ==> fin[x]
                        <= score_val(hs[u]),
            decreases heap.contents().len(),
        {
            let ghost h0 = heap;
            let m_opt = heap.extract_min();
            let m = m_opt.unwrap();
            let ghost mid = m.node_num as int;
            proof {
                assert(h0.contents().contains(m));
                assert(1 <= mid <= n && !ss.contains(mid) && m.score == hs[mid]);
                // the extracted score is a lower bound on the cost of every
                // walk from the source to the extracted vertex
                assert forall|vs: Seq<int>, es: Seq<int>|
                    #[trigger] connects(g, vs, es, 1, mid) implies path_cost(g, vs, es)
                    >= score_val(m.score) by {
                    lemma_path_cost_nonneg(g, vs, es);
                    if path_cost(g, vs, es) <= usize::MAX {
                        if !ss.contains(1) {
                            let e1 = DijkstraScore { node_num: 1, score: Some(0usize) };
                            assert(h0.contents().contains(e1));
                            assert(m.le_spec(e1));
                            assert(score_val(m.score) <= 0);
                        } else {
                            assert(ss.contains(vs.first()) && !ss.contains(vs.last()));
                            lemma_exit_edge(g, vs, es, ss);
                            let j = choose|j: int|
                                {
                                    &&& 0 <= j < es.len()
                                    &&& ss.contains(vs[j])
                                    &&& !ss.contains(#[trigger] vs[j + 1])
                                    &&& path_ok(g, vs.take(j + 1), es.take(j))
                                    &&& vs.take(j + 1).first() == vs.first()
                                    &&& vs.take(j + 1).last() == vs[j]
                                    &&& g[vs[j] - 1][es[j]].0 == vs[j + 1]
                                    &&& path_cost(g, vs, es) >= path_cost(
                                        g,
                                        vs.take(j + 1),
                                        es.take(j),
                                    ) + g[vs[j] - 1][es[j]].1
                                };
                            let x = vs[j];
                            let u = vs[j + 1];
                            let w = g[x - 1][es[j]].1 as int;
                            assert(connects(g, vs.take(j + 1), es.take(j), 1, x));
                            lemma_path_cost_nonneg(g, vs.take(j + 1), es.take(j));
                            let pc = path_cost(g, vs.take(j + 1), es.take(j));
                            assert(pc + w <= path_cost(g, vs, es));
                            if !fin.dom().contains(x) {
                                assert(min_cost_at_least(g, x, usize::MAX as int + 1));
                                assert(pc > usize::MAX);
                                assert(false);
                            }
                            assert(pc >= fin[x]);
                            assert(fin[x] + w <= usize::MAX);
                            assert(score_val(hs[u]) <= fin[x] + w);
                            let eu = DijkstraScore { node_num: u as usize, score: hs[u] };
                            assert(eu.node_num as int == u);
                            assert(h0.contents().contains(eu));
                            assert(m.le_spec(eu));
                        }
                    }
                }
                assert(min_cost_at_least(g, mid, score_val(m.score)));
            }
            if m.node_num == node_id {
                proof {
                    if m.score is Some {
                        assert(score_val(m.score) <= usize::MAX);
                        assert(frontier_witness(g, ss, mid, score_val(m.score)));
                        let (vs, es) = choose|vs: Seq<int>, es: Seq<int>|
                            {
                                &&& #[trigger] connects(g, vs, es, 1, mid)
                                &&& path_cost(g, vs, es) == score_val(m.score)
                                &&& forall|k: int|
                                    0 <= k < vs.len() - 1 ==> ss.contains(#[trigger] vs[k])
                            };
                        assert(reaches_with_cost(g, mid, score_val(m.score)));
                    }
                }
                return m.score;
            }
            match m.score {
                None => {
                    proof {
                        let ss2 = ss.insert(mid);
                        // nothing was known of the vertex: every walk to it
                        // exceeds the representable range
                        assert(score_val(m.score) == usize::MAX as int + 1);
                        assert forall|e: DijkstraScore| #[trigger]
                            heap.contents().contains(e) <==> (1 <= e.node_num <= n
                                && !ss2.contains(e.node_num as int) && e.score == hs[e.node_num as int]) by {
                            h0.lemma_ids_unique();
                            if heap.contents().contains(e) {
                                assert(h0.contents().contains(e));
                                assert(e.node_num as int != mid);
                            } else {
                                if 1 <= e.node_num <= n && !ss2.contains(e.node_num as int)
                                    && e.score == hs[e.node_num as int] {
                                    assert(h0.contents().contains(e));
                                    assert(e != m);
                                    assert(heap.contents().contains(e));
                                }
                            }
                        }
                        assert forall|u: int|
                            1 <= u <= n && !ss2.contains(u) && score_val(#[trigger] hs[u])
                                <= usize::MAX implies frontier_witness(
                            g,
                            ss2,
                            u,
                            score_val(hs[u]),
                        ) by {
                            lemma_frontier_witness_grow(g, ss, ss2, u, score_val(hs[u]));
                        }
                        assert forall|x: int| #[trigger]
                            fin.dom().contains(x) implies settled_witness(g, ss2, x, fin[x]) by {
                            lemma_settled_witness_grow(g, ss, ss2, x, fin[x]);
                        }
                        if mid == 1 {
                            assert(hs[1] == Some(0usize) && m.score == hs[1]);
                            assert(false);
                        }
                        ss = ss2;
                    }
                },
                Some(d) => {
                    proof {
                        let ss2 = ss.insert(mid);
                        let fin2 = fin.insert(mid, d as int);
                        assert(score_val(m.score) == d);
                        assert(frontier_witness(g, ss, mid, d as int));
                        lemma_frontier_to_settled(g, ss, ss2, mid, d as int);
                        assert forall|e: DijkstraScore| #[trigger]
                            heap.contents().contains(e) <==> (1 <= e.node_num <= n
                                && !ss2.contains(e.node_num as int) && e.score == hs[e.node_num as int]) by {
                            h0.lemma_ids_unique();
                            if heap.contents().contains(e) {
                                assert(h0.contents().contains(e));
                                assert(e.node_num as int != mid);
                            } else {
                                if 1 <= e.node_num <= n && !ss2.contains(e.node_num as int)
                                    && e.score == hs[e.node_num as int] {
                                    assert(h0.contents().contains(e));
                                    assert(e != m);
                                    assert(heap.contents().contains(e));
                                }
                            }
                        }
                        assert forall|u: int|
                            1 <= u <= n && !ss2.contains(u) && score_val(#[trigger] hs[u])
                                <= usize::MAX implies frontier_witness(
                            g,
                            ss2,
                            u,
                            score_val(hs[u]),
                        ) by {
                            lemma_frontier_witness_grow(g, ss, ss2, u, score_val(hs[u]));
                        }
                        assert forall|x: int| #[trigger]
                            fin2.dom().contains(x) implies settled_witness(g, ss2, x, fin2[x]) by {
                            if x == mid {
                                assert(settled_witness(g, ss2, mid, d as int));
                            } else {
                                lemma_settled_witness_grow(g, ss, ss2, x, fin[x]);
                            }
                        }
                        // distances already settled do not exceed the newly
                        // settled one
                        assert forall|x: int| #[trigger] fin2.dom().contains(x) implies fin2[x]
                            <= d as int by {
                            if x != mid {
                                assert(fin[x] <= score_val(hs[mid]));
                            }
                        }
                        assert forall|x: int, u: int|
                            #![trigger fin2.dom().contains(x), ss2.contains(u)]
                            fin2.dom().contains(x) && 1 <= u <= n && !ss2.contains(
                                u,
                            ) implies fin2[x] <= score_val(hs[u]) by {
                            let eu = DijkstraScore { node_num: u as usize, score: hs[u] };
                            assert(h0.contents().contains(eu));
                            assert(m.le_spec(eu));
                            assert(d as int <= score_val(hs[u]));
                            if x != mid {
                                assert(fin[x] <= score_val(hs[u]));
                            }
                        }
                        ss = ss2;
                        fin = fin2;
                    }
                    let deg = self.nodes[m.node_num - 1].edges.len();
                    proof {
                        assert(g[mid - 1] == self.nodes@[mid - 1].edges@.map_values(
                            |e: Edge| (e.node_num, e.weight),
                        ));
                        assert(g[mid - 1].len() == deg);
                    }
                    let mut k: usize = 0;
                    while k < deg
                        invariant
                            self.wf(),
                            g == self.adj(),
                            n == g.len(),
                            n == self.nodes@.len(),
                            1 <= node_id <= n,
                            heap.wf(),
                            heap.contents().len() < n,
                            heap.contents().len() == h0.contents().len() - 1,
                            1 <= mid <= n,
                            m.node_num as int == mid,
                            ss.contains(mid),
                            fin.dom().contains(mid),
                            fin[mid] == d as int,
                            k <= deg,
                            deg == g[mid - 1].len(),
                            g[mid - 1] == self.nodes@[mid - 1].edges@.map_values(
                                |e: Edge| (e.node_num, e.weight),
                            ),
                            forall|u: usize| #[trigger]
                                heap.id_set().contains(u) <==> (1 <= u <= n && !ss.contains(
                                    u as int,
                                )),
                            forall|e: DijkstraScore| #[trigger]
                                heap.contents().contains(e) <==> (1 <= e.node_num <= n
                                    && !ss.contains(e.node_num as int) && e.score == hs[e.node_num as int]),
                            !ss.contains(node_id as int),
                            forall|x: int| #[trigger] ss.contains(x) ==> 1 <= x <= n,
                            forall|x: int| #[trigger] fin.dom().contains(x) ==> ss.contains(x),
                            !ss.contains(1) ==> hs[1] == Some(0usize),
                            ss.contains(1) ==> fin.dom().contains(1),
                            forall|x: int| #[trigger]
                                fin.dom().contains(x) ==> 0 <= fin[x] <= usize::MAX,
                            forall|x: int| #[trigger] fin.dom().contains(x) ==> fin[x] <= d as int,
                            forall|u: int|
                                1 <= u <= n && !ss.contains(u) && score_val(#[trigger] hs[u])
                                    <= usize::MAX ==> frontier_witness(g, ss, u, score_val(hs[u])),
                            forall|x: int| #[trigger]
                                fin.dom().contains(x) ==> settled_witness(g, ss, x, fin[x]),
                            forall|x: int| #[trigger]
                                fin.dom().contains(x) ==> min_cost_at_least(g, x, fin[x]),
                            forall|x: int|
                                ss.contains(x) && !(#[trigger] fin.dom().contains(x))
                                    ==> min_cost_at_least(g, x, usize::MAX as int + 1),
                            // edges of previously settled vertices stay
                            // relaxed, and the new vertex's first k edges are
                            forall|x: int, kk: int|
                                #![trigger fin.dom().contains(x), g[x - 1][kk]]
                                fin.dom().contains(x) && x != mid && 0 <= kk < g[x - 1].len()
                                    && !ss.contains(g[x - 1][kk].0 as int) && fin[x] + g[x
                                    - 1][kk].1 <= usize::MAX ==> score_val(hs[g[x - 1][kk].0 as int])
                                    <= fin[x] + g[x - 1][kk].1,
                            forall|kk: int|
                                0 <= kk < k && !ss.contains((#[trigger] g[mid - 1][kk]).0 as int)
                                    && d + g[mid - 1][kk].1 <= usize::MAX ==> score_val(
                                    hs[g[mid - 1][kk].0 as int],
                                ) <= d + g[mid - 1][kk].1,
                            forall|x: int, u: int|
                                #![trigger fin.dom().contains(x), ss.contains(u)]
                                fin.dom().contains(x) && 1 <= u <= n && !ss.contains(u) ==> fin[x]
                                    <= score_val(hs[u]),
                        decreases deg - k,
                    {
                        let edge_node = self.nodes[m.node_num - 1].edges[k].node_num;
                        let edge_weight = self.nodes[m.node_num - 1].edges[k].weight;
                        proof {
                            assert(g[mid - 1][k as int] == (edge_node, edge_weight));
                            assert(1 <= edge_node <= n);
                        }
                        let ghost u = edge_node as int;
                        if heap.contains_id(&edge_node) {
                            if edge_weight <= usize::MAX - d {
                                let cand = d + edge_weight;
                                let ghost hp = heap;
                                let del = heap.delete_by_id(edge_node);
                                let x_old = del.unwrap();
                                proof {
                                    assert(hp.contents().contains(x_old));
                                    assert(x_old.node_num == edge_node && x_old.score == hs[u]);
                                }
                                let new_score = match x_old.score {
                                    Some(s) => if s <= cand {
                                        s
                                    } else {
                                        cand
                                    },
                                    None => cand,
                                };
                                let entry = DijkstraScore {
                                    node_num: edge_node,
                                    score: Some(new_score),
                                };
                                heap.insert(entry);
                                proof {
                                    let hs2 = hs.insert(u, Some(new_score));
                                    assert(score_val(Some(new_score)) <= score_val(hs[u]));
                                    assert(score_val(Some(new_score)) <= d + edge_weight);
                                    assert forall|e: DijkstraScore| #[trigger]
                                        heap.contents().contains(e) <==> (1 <= e.node_num <= n
                                            && !ss.contains(e.node_num as int) && e.score == hs2[e.node_num as int]) by {
                                        hp.lemma_ids_unique();
                                        if heap.contents().contains(e) {
                                            if e != entry {
                                                assert(hp.contents().contains(e));
                                                assert(e.node_num != edge_node);
                                            }
                                        } else {
                                            if 1 <= e.node_num <= n && !ss.contains(
                                                e.node_num as int,
                                            ) && e.score == hs2[e.node_num as int] {
                                                if e.node_num == edge_node {
                                                    assert(e == entry);
                                                    assert(heap.contents().contains(e));
                                                } else {
                                                    assert(hp.contents().contains(e));
                                                    assert(e != x_old);
                                                    assert(heap.contents().contains(e));
                                                }
                                            }
                                        }
                                    }
                                    // the new score is still achieved: by its
                                    // old walk, or by the newly relaxed edge
                                    assert forall|u2: int|
                                        1 <= u2 <= n && !ss.contains(u2) && score_val(
                                            #[trigger] hs2[u2],
                                        ) <= usize::MAX implies frontier_witness(
                                        g,
                                        ss,
                                        u2,
                                        score_val(hs2[u2]),
                                    ) by {
                                        if u2 == u {
                                            if new_score == d + edge_weight {
                                                assert(settled_witness(g, ss, mid, d as int));
                                                lemma_settled_extend(
                                                    g,
                                                    ss,
                                                    mid,
                                                    d as int,
                                                    k as int,
                                                );
                                                assert(frontier_witness(
                                                    g,
                                                    ss,
                                                    u,
                                                    d + edge_weight,
                                                ));
                                            } else {
                                                assert(x_old.score == Some(new_score));
                                                assert(score_val(hs[u]) == new_score);
                                                assert(frontier_witness(
                                                    g,
                                                    ss,
                                                    u,
                                                    score_val(hs[u]),
                                                ));
                                            }
                                        } else {
                                            assert(hs2[u2] == hs[u2]);
                                        }
                                    }
                                    hs = hs2;
                                }
                            }
                        }
                        k += 1;
                    }
                    proof {
                        // all of the settled vertex's edges are now relaxed
                        assert forall|x: int, kk: int|
                            #![trigger fin.dom().contains(x), g[x - 1][kk]]
                            fin.dom().contains(x) && 0 <= kk < g[x - 1].len() && !ss.contains(
                                g[x - 1][kk].0 as int,
                            ) && fin[x] + g[x - 1][kk].1 <= usize::MAX implies score_val(
                            hs[g[x - 1][kk].0 as int],
                        ) <= fin[x] + g[x - 1][kk].1 by {
                            if x == mid {
                                assert(0 <= kk < k);
                            }
                        }
                    }
                },
            }
        }
        proof {
            // the loop cannot run dry: the requested vertex is never
            // settled without the function returning, so it still has a
            // heap entry
            assert(heap.id_set().contains(node_id));
            heap.lemma_ids_unique();
            let a = choose|a: DijkstraScore|
                heap.contents().contains(a) && a.id() == node_id;
            assert(heap.contents().count(a) >= 1);
            assert(false);
        }
        None
    }
}


impl UWGraph {
    /// Builds a graph from the textual input format: one line per
    /// vertex, tab-separated fields, the first field the vertex's own
    /// 1-based id in order, the rest `neighbour,weight` pairs. Returns
    /// `None` when any line breaks the format or names a vertex outside
    /// the graph.
    pub fn from_text(text: String) -> (r: Option<UWGraph>)
        ensures
            match r {
                Some(g) => {
                    &&& g.wf()
                    &&& crate::parse::parse_graph(vstd::utf8::encode_utf8(text@)) == Some(g.adj())
                    &&& targets_in_range(g.adj())
                },
                None => forall|adj: Seq<Seq<(usize, usize)>>|
                    crate::parse::parse_graph(vstd::utf8::encode_utf8(text@)) == Some(adj)
                        ==> !targets_in_range(adj),
            },
    {
        let bytes = text.as_str().as_bytes_vec();
        proof {
            assert(bytes@ == vstd::utf8::encode_utf8(text@));
        }
        let lines = crate::parse::lines_exec(&bytes);
        let ghost ls = crate::parse::lines_of(bytes@);
        let mut nodes: Vec<Node> = Vec::new();
        let mut i: usize = 0;
        proof {
            assert(ls.take(0) =~= Seq::<Seq<u8>>::empty());
            assert(adj_of(nodes@) =~= Seq::<Seq<(usize, usize)>>::empty());
        }
        while i < lines.len()
            invariant
                i <= lines@.len(),
                bytes@ == vstd::utf8::encode_utf8(text@),
                ls == crate::parse::lines_of(bytes@),
                lines@.map_values(|v: Vec<u8>| v@) == ls,
                nodes@.len() == i,
                crate::parse::parse_lines(ls.take(i as int)) == Some(adj_of(nodes@)),
            decreases lines@.len() - i,
        {
            proof {
                assert(lines@.map_values(|v: Vec<u8>| v@)[i as int] == lines@[i as int]@);
            }
            let pr = crate::parse::parse_line_exec(&lines[i], i + 1);
            match pr {
                None => {
                    proof {
                        assert(ls[i as int] == lines@[i as int]@);
                        crate::parse::lemma_parse_lines_none(ls, i as int);
                        assert(crate::parse::parse_graph(vstd::utf8::encode_utf8(text@)) is None);
                    }
                    return None;
                },
                Some(pairs) => {
                    let mut edges: Vec<Edge> = Vec::new();
                    let mut k: usize = 0;
                    proof {
                        assert(edges@.map_values(|e: Edge| (e.node_num, e.weight)) =~= pairs@.take(
                            0,
                        ));
                    }
                    while k < pairs.len()
                        invariant
                            k <= pairs@.len(),
                            edges@.map_values(|e: Edge| (e.node_num, e.weight)) == pairs@.take(
                                k as int,
                            ),
                        decreases pairs@.len() - k,
                    {
                        let pv = pairs[k];
                        let ghost pre_edges = edges@;
                        edges.push(Edge { node_num: pv.0, weight: pv.1 });
                        proof {
                            assert(edges@.map_values(|e: Edge| (e.node_num, e.weight))
                                =~= pre_edges.map_values(|e: Edge| (e.node_num, e.weight)).push(
                                ((pv.0, pv.1)),
                            ));
                            assert(pairs@.take(k + 1) =~= pairs@.take(k as int).push(
                                pairs@[k as int],
                            ));
                        }
                        k += 1;
                    }
                    proof {
                        assert(pairs@.take(pairs@.len() as int) =~= pairs@);
                    }
                    let ghost pre_nodes = nodes@;
                    nodes.push(Node { edges });
                    proof {
                        assert(adj_of(nodes@) =~= adj_of(pre_nodes).push(pairs@));
                        assert(ls.take(i + 1).drop_last() =~= ls.take(i as int));
                        assert(ls.take(i + 1).last() == ls[i as int]);
                        assert(crate::parse::parse_lines(ls.take(i + 1)) == Some(adj_of(nodes@)));
                    }
                },
            }
            i += 1;
        }
        proof {
            assert(ls.take(ls.len() as int) =~= ls);
        }
        let ghost built = adj_of(nodes@);
        proof {
            assert(crate::parse::parse_graph(vstd::utf8::encode_utf8(text@)) == Some(built));
        }
        let n = nodes.len();
        let mut v: usize = 0;
        while v < n
            invariant
                v <= n,
                n == nodes@.len(),
                built == adj_of(nodes@),
                crate::parse::parse_graph(vstd::utf8::encode_utf8(text@)) == Some(built),
                forall|i2: int, k2: int|
                    #![trigger built[i2][k2]]
                    0 <= i2 < v && 0 <= k2 < built[i2].len() ==> 1 <= built[i2][k2].0 <= n,
            decreases n - v,
        {
            let deg = nodes[v].edges.len();
            let mut k: usize = 0;
            while k < deg
                invariant
                    k <= deg,
                    v < n,
                    n == nodes@.len(),
                    built == adj_of(nodes@),
                    crate::parse::parse_graph(vstd::utf8::encode_utf8(text@)) == Some(built),
                    deg == built[v as int].len(),
                    forall|k2: int|
                        0 <= k2 < k ==> 1 <= (#[trigger] built[v as int][k2]).0 <= n,
                decreases deg - k,
            {
                let t = nodes[v].edges[k].node_num;
                proof {
                    assert(built[v as int][k as int] == (nodes@[v as int].edges@[k as int].node_num,
                        nodes@[v as int].edges@[k as int].weight));
                }
                if t < 1 || t > n {
                    proof {
                        assert(built[v as int][k as int].0 == t);
                        assert(built.len() == n);
                        assert(!targets_in_range(built));
                    }
                    return None;
                }
                k += 1;
            }
            v += 1;
        }
        let g = UWGraph { nodes };
        proof {
            assert(g.adj() == built);
            assert(targets_in_range(built));
        }
        Some(g)
    }
}


/// Greedy-finalization law: distances are monotonically non-decreasing
/// in the order vertices are extracted from the heap. An entry written
/// back by relaxing an edge of weight `w` straight after extracting a
/// minimum scored `Some(d)` — the lower of the old score and `d + w` —
/// never ranks below that minimum; combined with
/// `crate::heap::lemma_min_monotone`, every minimum extracted later
/// ranks at least the one extracted before.
pub proof fn lemma_relaxation_not_below(
    m: DijkstraScore,
    old_entry: DijkstraScore,
    entry: DijkstraScore,
    d: usize,
    w: usize,
)
    requires
        m.score == Some(d),
        m.le_spec(old_entry),
        d + w <= usize::MAX,
        score_val(entry.score) == if score_val(old_entry.score) <= d + w {
            score_val(old_entry.score)
        } else {
            d + w
        },
    ensures
        m.le_spec(entry),
{
}

} // verus!
