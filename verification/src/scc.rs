//! Directed graphs and the strongly-connected-components solver:
//! Kosaraju's two-pass depth-first search. The first pass orders the
//! vertices of the reversed graph by finishing time; the second pass
//! explores the original graph in decreasing finishing time, each launch
//! discovering exactly one component.

use vstd::multiset::Multiset;
use vstd::prelude::*;

verus! {

/// Per-vertex traversal metadata: the vertex's own 1-based id, its
/// finishing label from the ordering pass, and its visited flag.
#[derive(Debug, Clone)]
struct TraverseMeta {
    node_id: usize,
    topo_order: usize,
    is_explored: bool,
}

impl TraverseMeta {
    /// Marks the vertex as visited by the current traversal pass.
    fn mark_as_visited(&mut self)
        ensures
            *final(self) == (TraverseMeta { is_explored: true, ..*old(self) }),
    {
        self.is_explored = true
    }
}

/// A vertex of the directed graph: its outgoing neighbours (1-based ids)
/// and its traversal metadata.
#[derive(Debug, Clone)]
struct Node {
    adjacent_node_ids: Vec<usize>,
    meta: TraverseMeta,
}

impl Node {
    /// A fresh, unconnected, unvisited vertex.
    fn new() -> (r: Node)
        ensures
            r.adjacent_node_ids@ == Seq::<usize>::empty(),
            r.meta == (TraverseMeta { node_id: 0, topo_order: 0, is_explored: false }),
    {
        Node {
            adjacent_node_ids: Vec::new(),
            meta: TraverseMeta { node_id: 0, topo_order: 0, is_explored: false },
        }
    }

    /// Adds an outgoing edge to the vertex with the given id.
    fn connect_to(&mut self, to: usize)
        ensures
            final(self).adjacent_node_ids@ == old(self).adjacent_node_ids@.push(to),
            final(self).meta == old(self).meta,
    {
        self.adjacent_node_ids.push(to);
    }

    /// Whether the current traversal pass has visited this vertex.
    fn is_explored(&self) -> (r: bool)
        ensures
            r == self.meta.is_explored,
    {
        self.meta.is_explored
    }

    /// Marks this vertex as visited.
    fn mark_as_explored(&mut self)
        ensures
            *final(self) == (Node {
                meta: TraverseMeta { is_explored: true, ..old(self).meta },
                ..*old(self)
            }),
    {
        self.meta.mark_as_visited()
    }

}

/// The edges leaving one vertex, as a multiset of `(from, to)` pairs.
spec fn adj_ms(id: usize, adj: Seq<usize>) -> Multiset<(usize, usize)>
    decreases adj.len(),
{
    if adj.len() == 0 {
        Multiset::empty()
    } else {
        adj_ms(id, adj.drop_last()).insert((id, adj.last()))
    }
}

/// All edges of an adjacency structure, as a multiset of `(from, to)`
/// pairs (vertex `i` of the structure has id `i + 1`).
spec fn edges_ms(a: Seq<Seq<usize>>) -> Multiset<(usize, usize)>
    decreases a.len(),
{
    if a.len() == 0 {
        Multiset::empty()
    } else {
        edges_ms(a.drop_last()).add(adj_ms(a.len() as usize, a.last()))
    }
}

/// An edge occurs in one vertex's multiset exactly when its adjacency
/// list holds the target.
proof fn lemma_adj_ms_elem(id: usize, adj: Seq<usize>, e: (usize, usize))
    ensures
        adj_ms(id, adj).count(e) > 0 <==> (e.0 == id && exists|k: int|
            0 <= k < adj.len() && adj[k] == e.1),
    decreases adj.len(),
{
    broadcast use vstd::multiset::group_multiset_axioms;

    if adj.len() > 0 {
        lemma_adj_ms_elem(id, adj.drop_last(), e);
        if e.0 == id && exists|k: int| 0 <= k < adj.len() && adj[k] == e.1 {
            let k = choose|k: int| 0 <= k < adj.len() && adj[k] == e.1;
            if k < adj.len() - 1 {
                assert(adj.drop_last()[k] == e.1);
            }
            assert(adj_ms(id, adj).count(e) > 0);
        }
        if adj_ms(id, adj).count(e) > 0 && e != (id, adj.last()) {
            let k = choose|k: int| 0 <= k < adj.drop_last().len() && adj.drop_last()[k] == e.1;
            assert(adj[k] == e.1);
        }
    }
}

/// An edge occurs in the structure's multiset exactly when some vertex's
/// adjacency list yields it.
proof fn lemma_edges_ms_elem(a: Seq<Seq<usize>>, e: (usize, usize))
    requires
        a.len() <= usize::MAX,
    ensures
        edges_ms(a).count(e) > 0 <==> exists|i: int, k: int|
            #![trigger a[i][k]]
            0 <= i < a.len() && 0 <= k < a[i].len() && e.0 == i + 1 && a[i][k] == e.1,
    decreases a.len(),
{
    broadcast use vstd::multiset::group_multiset_axioms;

    if a.len() > 0 {
        lemma_edges_ms_elem(a.drop_last(), e);
        lemma_adj_ms_elem(a.len() as usize, a.last(), e);
        if exists|i: int, k: int|
            #![trigger a[i][k]]
            0 <= i < a.len() && 0 <= k < a[i].len() && e.0 == i + 1 && a[i][k] == e.1 {
            let (i, k) = choose|i: int, k: int|
                #![trigger a[i][k]]
                0 <= i < a.len() && 0 <= k < a[i].len() && e.0 == i + 1 && a[i][k] == e.1;
            if i < a.len() - 1 {
                assert(a.drop_last()[i] == a[i]);
                assert(edges_ms(a.drop_last()).count(e) > 0);
            } else {
                assert(a.last() == a[i]);
                assert(adj_ms(a.len() as usize, a.last()).count(e) > 0);
            }
            assert(edges_ms(a).count(e) > 0);
        }
        if edges_ms(a).count(e) > 0 {
            if edges_ms(a.drop_last()).count(e) > 0 {
                let (i, k) = choose|i: int, k: int|
                    #![trigger a.drop_last()[i][k]]
                    0 <= i < a.drop_last().len() && 0 <= k < a.drop_last()[i].len() && e.0 == i + 1
                        && a.drop_last()[i][k] == e.1;
                assert(a[i] == a.drop_last()[i]);
                assert(0 <= i < a.len() && 0 <= k < a[i].len() && e.0 == i + 1 && a[i][k] == e.1);
            } else {
                assert(adj_ms(a.len() as usize, a.last()).count(e) > 0);
                let k = choose|k: int| 0 <= k < a.last().len() && a.last()[k] == e.1;
                let i = a.len() - 1;
                assert(a[i] == a.last());
                assert(e.0 == a.len());
                assert(0 <= i < a.len() && 0 <= k < a[i].len() && e.0 == i + 1 && a[i][k] == e.1);
            }
        }
    }
}

/// Appending an empty adjacency list adds no edges.
proof fn lemma_edges_ms_push_empty(a: Seq<Seq<usize>>)
    ensures
        edges_ms(a.push(Seq::empty())) == edges_ms(a),
{
    broadcast use vstd::multiset::group_multiset_axioms;

    let a2 = a.push(Seq::empty());
    assert(a2.drop_last() =~= a);
    assert(a2.last() =~= Seq::<usize>::empty());
    assert(adj_ms(a2.len() as usize, a2.last()) =~= Multiset::<(usize, usize)>::empty());
    assert(edges_ms(a2) =~= edges_ms(a));
}

/// Pushing a target onto vertex `i`'s adjacency list inserts the edge
/// `(i + 1, t)` into the structure's multiset.
proof fn lemma_edges_ms_connect(a: Seq<Seq<usize>>, i: int, t: usize)
    requires
        0 <= i < a.len(),
    ensures
        edges_ms(a.update(i, a[i].push(t))) == edges_ms(a).insert(((i + 1) as usize, t)),
    decreases a.len(),
{
    broadcast use vstd::multiset::group_multiset_axioms;

    let a2 = a.update(i, a[i].push(t));
    if i == a.len() - 1 {
        assert(a2.drop_last() =~= a.drop_last());
        assert(a2.last() =~= a.last().push(t));
        assert(a2.last().drop_last() =~= a.last());
        assert(adj_ms(a2.len() as usize, a2.last()) == adj_ms(a.len() as usize, a.last()).insert(
            ((i + 1) as usize, t),
        ));
        assert(edges_ms(a2) =~= edges_ms(a).insert(((i + 1) as usize, t)));
    } else {
        assert(a2.drop_last() =~= a.drop_last().update(i, a.drop_last()[i].push(t)));
        lemma_edges_ms_connect(a.drop_last(), i, t);
        assert(a2.last() == a.last());
        assert(edges_ms(a2) =~= edges_ms(a).insert(((i + 1) as usize, t)));
    }
}

/// A directed graph: an arena of vertices indexed by 1-based id, grown
/// on demand as edges name new vertices.
#[derive(Debug, Clone)]
pub struct DirectedGraph {
    nodes: Vec<Node>,
}

impl DirectedGraph {
    /// The adjacency structure: for each vertex (0-based position,
    /// 1-based id), the ids of its outgoing neighbours.
    pub closed spec fn adjacency(self) -> Seq<Seq<usize>> {
        self.nodes@.map_values(|n: Node| n.adjacent_node_ids@)
    }

    /// All edges, as a multiset of `(from, to)` pairs.
    pub closed spec fn edges(self) -> Multiset<(usize, usize)> {
        edges_ms(self.adjacency())
    }

    /// The visited flags, by vertex position.
    pub closed spec fn explored_seq(self) -> Seq<bool> {
        self.nodes@.map_values(|n: Node| n.meta.is_explored)
    }

    /// The finishing labels, by vertex position.
    spec fn topo_seq(self) -> Seq<usize> {
        self.nodes@.map_values(|n: Node| n.meta.topo_order)
    }

    /// No traversal has run: no vertex is visited or labelled.
    pub closed spec fn fresh_marks(self) -> bool {
        &&& forall|i: int| 0 <= i < self.explored_seq().len() ==> !(#[trigger] self.explored_seq()[i])
        &&& forall|i: int| 0 <= i < self.topo_seq().len() ==> (#[trigger] self.topo_seq()[i]) == 0
    }

    /// Well-formedness: each vertex records its own id, every edge points
    /// at a vertex of the graph, and the highest vertex exists because an
    /// edge names it (vertices are allocated only on behalf of edges).
    pub closed spec fn wf(self) -> bool {
        &&& forall|i: int|
            0 <= i < self.nodes@.len() ==> (#[trigger] self.nodes@[i]).meta.node_id == i + 1
        &&& forall|i: int, k: int|
            #![trigger self.adjacency()[i][k]]
            0 <= i < self.adjacency().len() && 0 <= k < self.adjacency()[i].len() ==> 1
                <= self.adjacency()[i][k] <= self.adjacency().len()
        &&& (self.adjacency().len() > 0 ==> touches_last(self.adjacency()))
    }

    /// Grows the arena with fresh vertices up to the given id.
    fn ensure_allocation_for(&mut self, cnt: usize)
        requires
            forall|i: int|
                0 <= i < old(self).nodes@.len() ==> (#[trigger] old(self).nodes@[i]).meta.node_id
                    == i + 1,
        ensures
            final(self).nodes@.len() == if old(self).nodes@.len() >= cnt {
                old(self).nodes@.len() as int
            } else {
                cnt as int
            },
            forall|i: int|
                0 <= i < old(self).nodes@.len() ==> final(self).nodes@[i] == old(self).nodes@[i],
            forall|i: int|
                old(self).nodes@.len() <= i < final(self).nodes@.len() ==> (
                #[trigger] final(self).nodes@[i]) == (Node {
                    adjacent_node_ids: final(self).nodes@[i].adjacent_node_ids,
                    meta: TraverseMeta {
                        node_id: (i + 1) as usize,
                        topo_order: 0,
                        is_explored: false,
                    },
                }) && final(self).nodes@[i].adjacent_node_ids@ == Seq::<usize>::empty(),
            final(self).edges() == old(self).edges(),
            forall|i: int|
                0 <= i < final(self).nodes@.len() ==> (#[trigger] final(self).nodes@[i]).meta.node_id
                    == i + 1,
    {
        while self.nodes.len() < cnt
            invariant
                old(self).nodes@.len() <= self.nodes@.len(),
                self.nodes@.len() <= cnt || self.nodes@.len() == old(self).nodes@.len(),
                forall|i: int|
                    0 <= i < old(self).nodes@.len() ==> self.nodes@[i] == old(self).nodes@[i],
                forall|i: int|
                    old(self).nodes@.len() <= i < self.nodes@.len() ==> (
                    #[trigger] self.nodes@[i]) == (Node {
                        adjacent_node_ids: self.nodes@[i].adjacent_node_ids,
                        meta: TraverseMeta {
                            node_id: (i + 1) as usize,
                            topo_order: 0,
                            is_explored: false,
                        },
                    }) && self.nodes@[i].adjacent_node_ids@ == Seq::<usize>::empty(),
                self.edges() == old(self).edges(),
            decreases cnt - self.nodes@.len(),
        {
            let ghost pre = self.adjacency();
            let mut node = Node::new();
            node.meta.node_id = self.nodes.len() + 1;
            self.nodes.push(node);
            proof {
                assert(self.adjacency() =~= pre.push(Seq::empty()));
                lemma_edges_ms_push_empty(pre);
            }
        }
    }

    /// Adds the edge `from -> to`, allocating both endpoints as needed.
    pub fn add_edge(&mut self, from: usize, to: usize)
        requires
            old(self).wf(),
            from >= 1,
            to >= 1,
        ensures
            final(self).wf(),
            final(self).adjacency().len() == vstd::math::max(
                old(self).adjacency().len() as int,
                vstd::math::max(from as int, to as int),
            ),
            final(self).edges() == old(self).edges().insert((from, to)),
            forall|i: int|
                0 <= i < final(self).adjacency().len() && i != from - 1
                    ==> final(self).adjacency()[i] == (if i < old(self).adjacency().len() {
                    old(self).adjacency()[i]
                } else {
                    Seq::<usize>::empty()
                }),
            final(self).adjacency()[from - 1] == (if from - 1 < old(self).adjacency().len() {
                old(self).adjacency()[from - 1]
            } else {
                Seq::<usize>::empty()
            }).push(to),
            old(self).fresh_marks() ==> final(self).fresh_marks(),
    {
        let ghost olda = self.adjacency();
        let ghost oldexp = self.explored_seq();
        let ghost oldtopo = self.topo_seq();
        self.ensure_allocation_for(from);
        self.ensure_allocation_for(to);
        let ghost grown = self.adjacency();
        self.nodes[from - 1].meta.node_id = from;
        self.nodes[from - 1].connect_to(to);
        proof {
            assert(self.adjacency() =~= grown.update(from - 1, grown[from - 1].push(to)));
            lemma_edges_ms_connect(grown, from - 1, to);
            assert(self.edges() == old(self).edges().insert((from, to)));
            let a = self.adjacency();
            // the new edge itself keeps the highest vertex justified
            assert(touches_last(a)) by {
                if to == a.len() {
                    assert(a[from - 1].last() == to);
                    assert(0 <= from - 1 < a.len() && 0 <= a[from - 1].len() - 1 < a[from
                        - 1].len() && a[from - 1][a[from - 1].len() - 1] == a.len());
                } else if from == a.len() {
                    assert(a[a.len() - 1].len() > 0);
                } else {
                    assert(a.len() == olda.len());
                    assert(touches_last(olda));
                    if olda[olda.len() - 1].len() > 0 {
                        assert(a[a.len() - 1].len() > 0);
                    } else {
                        let (i, k) = choose|i: int, k: int|
                            #![trigger olda[i][k]]
                            0 <= i < olda.len() && 0 <= k < olda[i].len() && olda[i][k]
                                == olda.len();
                        assert(0 <= i < a.len() && 0 <= k < a[i].len() && a[i][k] == a.len());
                    }
                }
            }
            // every adjacency entry is still in range: old entries were,
            // new vertices have none, and the new edge's target exists
            assert(grown.len() == a.len());
            assert(grown.len() >= from && grown.len() >= to && grown.len() >= olda.len());
            assert forall|i: int, k: int|
                #![trigger a[i][k]]
                0 <= i < a.len() && 0 <= k < a[i].len() implies 1 <= a[i][k] <= a.len() by {
                if i < olda.len() {
                    assert(grown[i] == olda[i]);
                } else {
                    assert(grown[i] =~= Seq::<usize>::empty());
                }
                if i == from - 1 {
                    assert(a[i] == grown[i].push(to));
                    if k < a[i].len() - 1 {
                        assert(a[i][k] == grown[i][k]);
                        assert(i < olda.len());
                        assert(1 <= olda[i][k] <= olda.len());
                    } else {
                        assert(a[i][k] == to);
                    }
                } else {
                    assert(a[i] == grown[i]);
                    assert(i < olda.len());
                    assert(1 <= olda[i][k] <= olda.len());
                }
            }
            // traversal metadata is untouched on existing vertices and
            // fresh on new ones
            assert(self.explored_seq() =~= oldexp + Seq::new(
                (self.nodes@.len() - oldexp.len()) as nat,
                |i: int| false,
            ));
            assert(self.topo_seq() =~= oldtopo + Seq::new(
                (self.nodes@.len() - oldtopo.len()) as nat,
                |i: int| 0usize,
            ));
        }
    }
}


/// The sources within one vertex's outgoing list that point at `t`, in
/// list order: the reversed graph's adjacency contribution of that row.
pub open spec fn row_sources(id: usize, adj: Seq<usize>, t: usize) -> Seq<usize>
    decreases adj.len(),
{
    if adj.len() == 0 {
        Seq::empty()
    } else {
        row_sources(id, adj.drop_last(), t) + if adj.last() == t {
            seq![id]
        } else {
            Seq::empty()
        }
    }
}

/// The sources of all edges into `t`, scanning vertices and their lists
/// in order: exactly the reversed graph's adjacency list for `t`.
pub open spec fn rev_sources(a: Seq<Seq<usize>>, t: usize) -> Seq<usize>
    decreases a.len(),
{
    if a.len() == 0 {
        Seq::empty()
    } else {
        rev_sources(a.drop_last(), t) + row_sources(a.len() as usize, a.last(), t)
    }
}

impl Default for DirectedGraph {
    /// An empty graph.
    fn default() -> (r: Self)
        ensures
            r.wf(),
            r.fresh_marks(),
            r.adjacency().len() == 0,
            r.edges() == Multiset::<(usize, usize)>::empty(),
    {
        let r = DirectedGraph { nodes: Vec::new() };
        proof {
            assert(r.adjacency() =~= Seq::<Seq<usize>>::empty());
            assert(r.edges() =~= Multiset::<(usize, usize)>::empty());
        }
        r
    }
}

impl DirectedGraph {
    /// The number of vertices.
    pub fn node_count(&self) -> (r: usize)
        ensures
            r == self.adjacency().len(),
    {
        self.nodes.len()
    }

    /// The 1-based id recorded at a vertex position.
    pub fn node_id_at(&self, index: usize) -> (r: usize)
        requires
            self.wf(),
            index < self.adjacency().len(),
        ensures
            r == index + 1,
    {
        self.nodes[index].meta.node_id
    }

    /// The outgoing neighbours of the vertex at a position, as a copy.
    pub fn adjacent_ids(&self, index: usize) -> (r: Vec<usize>)
        requires
            index < self.adjacency().len(),
        ensures
            r@ == self.adjacency()[index as int],
    {
        let src_len = self.nodes[index].adjacent_node_ids.len();
        let mut out: Vec<usize> = Vec::new();
        let mut k: usize = 0;
        while k < src_len
            invariant
                k <= src_len,
                index < self.adjacency().len(),
                src_len == self.adjacency()[index as int].len(),
                out@ == self.adjacency()[index as int].take(k as int),
            decreases src_len - k,
        {
            out.push(self.nodes[index].adjacent_node_ids[k]);
            proof {
                assert(self.adjacency()[index as int].take(k + 1) =~= self.adjacency()[
                    index as int].take(k as int).push(self.adjacency()[index as int][k as int]));
            }
            k += 1;
        }
        proof {
            assert(self.adjacency()[index as int].take(src_len as int) =~= self.adjacency()[
                index as int]);
        }
        out
    }

    /// A structural copy with fresh traversal metadata: same vertices and
    /// edges, nothing visited or labelled.
    fn duplicate_structure(&self) -> (r: DirectedGraph)
        requires
            self.wf(),
        ensures
            r.wf(),
            r.fresh_marks(),
            r.adjacency() == self.adjacency(),
    {
        let n = self.nodes.len();
        let mut nodes: Vec<Node> = Vec::new();
        let mut i: usize = 0;
        while i < n
            invariant
                i <= n,
                n == self.nodes@.len(),
                self.wf(),
                nodes@.len() == i,
                forall|j: int|
                    0 <= j < i ==> (#[trigger] nodes@[j]).adjacent_node_ids@ == self.adjacency()[j]
                        && nodes@[j].meta == (TraverseMeta {
                        node_id: (j + 1) as usize,
                        topo_order: 0,
                        is_explored: false,
                    }),
            decreases n - i,
        {
            let out = self.adjacent_ids(i);
            let mut node = Node::new();
            node.meta.node_id = i + 1;
            node.adjacent_node_ids = out;
            nodes.push(node);
            i += 1;
        }
        let r = DirectedGraph { nodes };
        proof {
            assert(r.adjacency() =~= self.adjacency());
        }
        r
    }

    /// The graph with every edge flipped: `from -> to` becomes
    /// `to -> from`. The result has the same vertices, fresh traversal
    /// metadata, and the mirrored edge multiset.
    pub fn reversed(&self) -> (r: DirectedGraph)
        requires
            self.wf(),
        ensures
            r.wf(),
            r.fresh_marks(),
            r.adjacency().len() == self.adjacency().len(),
            forall|t: usize|
                1 <= t <= r.adjacency().len() ==> r.adjacency()[t - 1] == rev_sources(
                    self.adjacency(),
                    t,
                ),
            forall|e: (usize, usize)| #[trigger]
                r.edges().count(e) == self.edges().count(((e.1, e.0))),
    {
        broadcast use vstd::multiset::group_multiset_axioms;

        let ghost a = self.adjacency();
        let mut reversed_graph = DirectedGraph::default();
        let n = self.nodes.len();
        let mut i: usize = 0;
        while i < n
            invariant
                i <= n,
                self.wf(),
                a == self.adjacency(),
                n == a.len(),
                reversed_graph.wf(),
                reversed_graph.fresh_marks(),
                reversed_graph.adjacency().len() <= n,
                forall|t: usize|
                    1 <= t <= reversed_graph.adjacency().len() ==> reversed_graph.adjacency()[t
                        - 1] == rev_sources(a.take(i as int), t),
                forall|t: usize|
                    reversed_graph.adjacency().len() < t ==> rev_sources(a.take(i as int), t)
                        == Seq::<usize>::empty(),
                forall|e: (usize, usize)| #[trigger]
                    reversed_graph.edges().count(e) == edges_ms(a.take(i as int)).count(
                        ((e.1, e.0)),
                    ),
            decreases n - i,
        {
            let deg = self.nodes[i].adjacent_node_ids.len();
            let mut k: usize = 0;
            while k < deg
                invariant
                    k <= deg,
                    i < n,
                    self.wf(),
                    a == self.adjacency(),
                    n == a.len(),
                    deg == a[i as int].len(),
                    reversed_graph.wf(),
                    reversed_graph.fresh_marks(),
                    reversed_graph.adjacency().len() <= n,
                    forall|t: usize|
                        1 <= t <= reversed_graph.adjacency().len() ==> reversed_graph.adjacency()[t
                            - 1] == rev_sources(a.take(i as int), t) + row_sources(
                            (i + 1) as usize,
                            a[i as int].take(k as int),
                            t,
                        ),
                    forall|t: usize|
                        reversed_graph.adjacency().len() < t ==> rev_sources(a.take(i as int), t)
                            + row_sources((i + 1) as usize, a[i as int].take(k as int), t)
                            == Seq::<usize>::empty(),
                    forall|e: (usize, usize)| #[trigger]
                        reversed_graph.edges().count(e) == edges_ms(a.take(i as int)).add(
                            adj_ms((i + 1) as usize, a[i as int].take(k as int)),
                        ).count(((e.1, e.0))),
                decreases deg - k,
            {
                let adj_node_id = self.nodes[i].adjacent_node_ids[k];
                proof {
                    assert(a[i as int][k as int] == adj_node_id);
                    assert(1 <= adj_node_id <= n);
                }
                let ghost pre_rev = reversed_graph;
                reversed_graph.add_edge(adj_node_id, i + 1);
                proof {
                    assert(a[i as int].take(k + 1).drop_last() =~= a[i as int].take(k as int));
                    assert(a[i as int].take(k + 1).last() == adj_node_id);
                    assert(adj_ms((i + 1) as usize, a[i as int].take(k + 1)) == adj_ms(
                        (i + 1) as usize,
                        a[i as int].take(k as int),
                    ).insert(((i + 1) as usize, adj_node_id)));
                    // each vertex's reversed list grows exactly as the
                    // source scan dictates
                    assert forall|t: usize|
                        1 <= t <= reversed_graph.adjacency().len() implies reversed_graph.adjacency()[
                        t - 1] == rev_sources(a.take(i as int), t) + row_sources(
                        (i + 1) as usize,
                        a[i as int].take(k + 1),
                        t,
                    ) by {
                        let ps = rev_sources(a.take(i as int), t) + row_sources(
                            (i + 1) as usize,
                            a[i as int].take(k as int),
                            t,
                        );
                        if t == adj_node_id {
                            assert(reversed_graph.adjacency()[t - 1] == (if t
                                <= pre_rev.adjacency().len() {
                                pre_rev.adjacency()[t - 1]
                            } else {
                                Seq::<usize>::empty()
                            }).push((i + 1) as usize));
                            if t <= pre_rev.adjacency().len() {
                                assert(pre_rev.adjacency()[t - 1] == ps);
                            } else {
                                assert(ps == Seq::<usize>::empty());
                            }
                            assert(row_sources((i + 1) as usize, a[i as int].take(k + 1), t)
                                =~= row_sources((i + 1) as usize, a[i as int].take(k as int), t)
                                + seq![(i + 1) as usize]);
                            assert(reversed_graph.adjacency()[t - 1] =~= rev_sources(
                                a.take(i as int),
                                t,
                            ) + row_sources((i + 1) as usize, a[i as int].take(k + 1), t));
                        } else {
                            assert(row_sources((i + 1) as usize, a[i as int].take(k + 1), t)
                                =~= row_sources((i + 1) as usize, a[i as int].take(k as int), t));
                            if t <= pre_rev.adjacency().len() {
                                assert(reversed_graph.adjacency()[t - 1] == pre_rev.adjacency()[t
                                    - 1]);
                                assert(pre_rev.adjacency()[t - 1] == ps);
                            } else {
                                assert(reversed_graph.adjacency()[t - 1]
                                    == Seq::<usize>::empty());
                                assert(ps == Seq::<usize>::empty());
                            }
                        }
                    }
                    assert forall|t: usize|
                        reversed_graph.adjacency().len() < t implies rev_sources(
                        a.take(i as int),
                        t,
                    ) + row_sources((i + 1) as usize, a[i as int].take(k + 1), t)
                        == Seq::<usize>::empty() by {
                        assert(t > pre_rev.adjacency().len());
                        assert(t != adj_node_id);
                        assert(row_sources((i + 1) as usize, a[i as int].take(k + 1), t)
                            =~= row_sources((i + 1) as usize, a[i as int].take(k as int), t));
                    }
                }
                k += 1;
            }
            proof {
                assert(a[i as int].take(deg as int) =~= a[i as int]);
                assert(a.take(i + 1).drop_last() =~= a.take(i as int));
                assert(a.take(i + 1).last() == a[i as int]);
                assert(edges_ms(a.take(i + 1)) == edges_ms(a.take(i as int)).add(
                    adj_ms((i + 1) as usize, a[i as int]),
                ));
                assert forall|t: usize|
                    #![trigger rev_sources(a.take(i + 1), t)]
                    1 <= t <= reversed_graph.adjacency().len() implies reversed_graph.adjacency()[t
                    - 1] == rev_sources(a.take(i + 1), t) by {
                    assert(reversed_graph.adjacency()[t - 1] == rev_sources(a.take(i as int), t)
                        + row_sources((i + 1) as usize, a[i as int].take(deg as int), t));
                    assert(rev_sources(a.take(i + 1), t) == rev_sources(a.take(i as int), t)
                        + row_sources((i + 1) as usize, a[i as int], t));
                }
                assert forall|t: usize|
                    #![trigger rev_sources(a.take(i + 1), t)]
                    reversed_graph.adjacency().len() < t implies rev_sources(a.take(i + 1), t)
                    == Seq::<usize>::empty() by {
                    assert(rev_sources(a.take(i as int), t) + row_sources(
                        (i + 1) as usize,
                        a[i as int].take(deg as int),
                        t,
                    ) == Seq::<usize>::empty());
                    assert(rev_sources(a.take(i as int), t) =~= Seq::<usize>::empty());
                    assert(row_sources((i + 1) as usize, a[i as int], t)
                        =~= Seq::<usize>::empty());
                    assert(rev_sources(a.take(i + 1), t) == rev_sources(a.take(i as int), t)
                        + row_sources((i + 1) as usize, a[i as int], t));
                    assert(rev_sources(a.take(i + 1), t) =~= Seq::<usize>::empty());
                }
            }
            i += 1;
        }
        proof {
            assert(a.take(n as int) =~= a);
            assert forall|t: usize|
                1 <= t <= reversed_graph.adjacency().len() implies reversed_graph.adjacency()[t
                - 1] == rev_sources(a, t) by {
                assert(reversed_graph.adjacency()[t - 1] == rev_sources(a.take(n as int), t));
            }
            let b = reversed_graph.adjacency();
            if n > 0 {
                // some edge names the highest vertex, so its mirror image
                // forces the reversed graph to reach the same size
                assert(touches_last(a));
                if a[a.len() - 1].len() > 0 {
                    let e0 = ((n as usize), a[n - 1][0]);
                    lemma_edges_ms_elem(a, e0);
                    assert(edges_ms(a).count(e0) > 0);
                    assert(reversed_graph.edges().count(((e0.1, e0.0))) > 0);
                    lemma_edges_ms_elem(b, (e0.1, e0.0));
                    let (i2, k2) = choose|i2: int, k2: int|
                        #![trigger b[i2][k2]]
                        0 <= i2 < b.len() && 0 <= k2 < b[i2].len() && (e0.1, e0.0).0 == i2 + 1
                            && b[i2][k2] == (e0.1, e0.0).1;
                    assert(b[i2][k2] == n);
                    assert(n <= b.len());
                } else {
                    let (iw, kw) = choose|iw: int, kw: int|
                        #![trigger a[iw][kw]]
                        0 <= iw < a.len() && 0 <= kw < a[iw].len() && a[iw][kw] == a.len();
                    let e0 = (((iw + 1) as usize), (n as usize));
                    lemma_edges_ms_elem(a, e0);
                    assert(edges_ms(a).count(e0) > 0);
                    assert(reversed_graph.edges().count(((e0.1, e0.0))) > 0);
                    lemma_edges_ms_elem(b, (e0.1, e0.0));
                    let (i2, k2) = choose|i2: int, k2: int|
                        #![trigger b[i2][k2]]
                        0 <= i2 < b.len() && 0 <= k2 < b[i2].len() && (e0.1, e0.0).0 == i2 + 1
                            && b[i2][k2] == (e0.1, e0.0).1;
                    assert(i2 + 1 == n);
                    assert(n <= b.len());
                }
            }
        }
        reversed_graph
    }
}

/// Round-trip law: reversing a directed graph twice yields a graph whose
/// edge multiset is identical to the original's. `r1` and `r2` are
/// related to `g` and `r1` as `reversed` relates its result to its
/// receiver: each edge count mirrored.
pub proof fn lemma_reverse_twice(g: DirectedGraph, r1: DirectedGraph, r2: DirectedGraph)
    requires
        forall|e: (usize, usize)| #[trigger] r1.edges().count(e) == g.edges().count(((e.1, e.0))),
        forall|e: (usize, usize)| #[trigger] r2.edges().count(e) == r1.edges().count(((e.1, e.0))),
    ensures
        r2.edges() == g.edges(),
{
    broadcast use vstd::multiset::group_multiset_axioms;

    assert forall|e: (usize, usize)| #[trigger] r2.edges().count(e) == g.edges().count(e) by {
        assert(r2.edges().count(e) == r1.edges().count(((e.1, e.0))));
        assert(r1.edges().count(((e.1, e.0))) == g.edges().count(((e.0, e.1))));
        assert(((e.0, e.1)) == e);
    }
    assert(r2.edges() =~= g.edges());
}

/// The number of vertices a traversal pass has not yet visited.
pub open spec fn count_unexplored(s: Seq<bool>) -> nat
    decreases s.len(),
{
    if s.len() == 0 {
        0
    } else {
        count_unexplored(s.drop_last()) + if s.last() {
            0nat
        } else {
            1nat
        }
    }
}

proof fn lemma_count_le_len(s: Seq<bool>)
    ensures
        count_unexplored(s) <= s.len(),
    decreases s.len(),
{
    if s.len() > 0 {
        lemma_count_le_len(s.drop_last());
    }
}

/// Visiting one unvisited vertex lowers the unvisited count by one.
proof fn lemma_count_update_true(s: Seq<bool>, j: int)
    requires
        0 <= j < s.len(),
        !s[j],
    ensures
        count_unexplored(s.update(j, true)) + 1 == count_unexplored(s),
    decreases s.len(),
{
    let s2 = s.update(j, true);
    if j == s.len() - 1 {
        assert(s2.drop_last() =~= s.drop_last());
    } else {
        assert(s2.drop_last() =~= s.drop_last().update(j, true));
        lemma_count_update_true(s.drop_last(), j);
        assert(s2.last() == s.last());
    }
}

/// The unvisited count never grows as flags only turn on.
proof fn lemma_count_pointwise(s1: Seq<bool>, s2: Seq<bool>)
    requires
        s1.len() == s2.len(),
        forall|i: int| 0 <= i < s1.len() && s1[i] ==> s2[i],
    ensures
        count_unexplored(s2) <= count_unexplored(s1),
    decreases s1.len(),
{
    if s1.len() > 0 {
        lemma_count_pointwise(s1.drop_last(), s2.drop_last());
        assert(s1[s1.len() - 1] ==> s2[s1.len() - 1]);
    }
}

proof fn lemma_count_all_true(s: Seq<bool>)
    requires
        forall|i: int| 0 <= i < s.len() ==> s[i],
    ensures
        count_unexplored(s) == 0,
    decreases s.len(),
{
    if s.len() > 0 {
        lemma_count_all_true(s.drop_last());
        assert(s[s.len() - 1]);
    }
}

proof fn lemma_count_all_false(s: Seq<bool>)
    requires
        forall|i: int| 0 <= i < s.len() ==> !s[i],
    ensures
        count_unexplored(s) == s.len(),
    decreases s.len(),
{
    if s.len() > 0 {
        lemma_count_all_false(s.drop_last());
        assert(!s[s.len() - 1]);
    }
}

impl DirectedGraph {
    /// Whether the vertex at a position has been visited.
    fn explored_at(&self, index: usize) -> (r: bool)
        requires
            index < self.adjacency().len(),
        ensures
            r == self.explored_seq()[index as int],
    {
        self.nodes[index].is_explored()
    }

    /// Marks the vertex at a position as visited, leaving everything else
    /// unchanged.
    fn mark_at(&mut self, index: usize)
        requires
            index < old(self).adjacency().len(),
        ensures
            final(self).adjacency() == old(self).adjacency(),
            final(self).topo_seq() == old(self).topo_seq(),
            final(self).explored_seq() == old(self).explored_seq().update(index as int, true),
            old(self).wf() ==> final(self).wf(),
            final(self).nodes@.len() == old(self).nodes@.len(),
    {
        self.nodes[index].mark_as_explored();
        proof {
            assert(self.adjacency() =~= old(self).adjacency());
            assert(self.topo_seq() =~= old(self).topo_seq());
            assert(self.explored_seq() =~= old(self).explored_seq().update(index as int, true));
            assert forall|i: int|
                0 <= i < self.nodes@.len() implies (#[trigger] self.nodes@[i]).meta.node_id
                == old(self).nodes@[i].meta.node_id by {}
        }
    }

    /// Records the finishing label of the vertex at a position, leaving
    /// everything else unchanged.
    fn set_topo_at(&mut self, index: usize, label: usize)
        requires
            index < old(self).adjacency().len(),
        ensures
            final(self).adjacency() == old(self).adjacency(),
            final(self).explored_seq() == old(self).explored_seq(),
            final(self).topo_seq() == old(self).topo_seq().update(index as int, label),
            old(self).wf() ==> final(self).wf(),
            final(self).nodes@.len() == old(self).nodes@.len(),
    {
        self.nodes[index].meta.topo_order = label;
        proof {
            assert(self.adjacency() =~= old(self).adjacency());
            assert(self.explored_seq() =~= old(self).explored_seq());
            assert(self.topo_seq() =~= old(self).topo_seq().update(index as int, label));
            assert forall|i: int|
                0 <= i < self.nodes@.len() implies (#[trigger] self.nodes@[i]).meta.node_id
                == old(self).nodes@[i].meta.node_id by {}
        }
    }

    /// The number of outgoing neighbours of the vertex at a position.
    fn degree_at(&self, index: usize) -> (r: usize)
        requires
            index < self.adjacency().len(),
        ensures
            r == self.adjacency()[index as int].len(),
    {
        self.nodes[index].adjacent_node_ids.len()
    }

    /// The neighbour at a position of a vertex's adjacency list.
    fn neighbour_at(&self, index: usize, k: usize) -> (r: usize)
        requires
            index < self.adjacency().len(),
            k < self.adjacency()[index as int].len(),
        ensures
            r == self.adjacency()[index as int][k as int],
    {
        self.nodes[index].adjacent_node_ids[k]
    }
}

/// The running state of the ordering pass: the finish list holds the
/// vertices already finished (1-based ids, in finishing order), the
/// ghost stack the vertices discovered but not yet finished. A vertex is
/// visited exactly when it is on one of the two; the two never share a
/// vertex; and visited vertices are bounded so a finishing label is
/// always available.
spec fn topo_inv(g: DirectedGraph, list: Seq<usize>, stack: Seq<usize>) -> bool {
    let n = g.adjacency().len();
    &&& n <= usize::MAX
    &&& g.topo_seq().len() == n
    &&& list.no_duplicates()
    &&& forall|j: int| 0 <= j < list.len() ==> 1 <= (#[trigger] list[j]) <= n
    &&& forall|i: int|
        0 <= i < n ==> ((#[trigger] g.explored_seq()[i]) <==> (list.contains((i + 1) as usize)
            || stack.contains((i + 1) as usize)))
    &&& forall|x: usize| #[trigger] stack.contains(x) ==> !list.contains(x)
    &&& list.len() + count_unexplored(g.explored_seq()) + stack.len() <= n
    // reverse post-order labelling: the vertex finished `j`th carries
    // the label `n - j`, counting down from the vertex count
    &&& forall|j: int| 0 <= j < list.len() ==> g.topo_seq()[(#[trigger] list[j]) - 1] == n - j
    // every successor of a finished vertex either finished earlier or
    // reaches it back through the graph (it was an ancestor in the
    // search when the vertex finished)
    &&& forall|j: int, k: int|
        #![trigger g.adjacency()[list[j] - 1][k]]
        0 <= j < list.len() && 0 <= k < g.adjacency()[list[j] - 1].len() ==> (list.take(j).contains(
            g.adjacency()[list[j] - 1][k],
        ) || reaches(g.adjacency(), g.adjacency()[list[j] - 1][k] as int, list[j] as int))
}

/// The recursive step of the ordering pass: explores everything
/// reachable from the given vertex (0-based position), then assigns the
/// vertex the current finishing label, counting down, and appends it to
/// the finish list.
fn dfs_topo(
    graph: &mut DirectedGraph,
    node_id: usize,
    topo_label: &mut usize,
    finish: &mut Vec<usize>,
    stack: Ghost<Seq<usize>>,
)
    requires
        old(graph).wf(),
        node_id < old(graph).adjacency().len(),
        !old(graph).explored_seq()[node_id as int],
        topo_inv(*old(graph), old(finish)@, stack@),
        stack_chain(old(graph).adjacency(), stack@, node_id + 1),
        *old(topo_label) == old(graph).adjacency().len() - old(finish)@.len(),
    ensures
        final(graph).wf(),
        final(graph).adjacency() == old(graph).adjacency(),
        final(graph).explored_seq().len() == old(graph).explored_seq().len(),
        topo_inv(*final(graph), final(finish)@, stack@),
        *final(topo_label) == final(graph).adjacency().len() - final(finish)@.len(),
        old(finish)@.is_prefix_of(final(finish)@),
        forall|i: int|
            0 <= i < old(graph).explored_seq().len() && old(graph).explored_seq()[i]
                ==> final(graph).explored_seq()[i],
        final(graph).explored_seq()[node_id as int],
        forall|x: usize|
            final(finish)@.contains(x) && !old(finish)@.contains(x) ==> 1 <= x
                <= old(graph).adjacency().len() && !old(graph).explored_seq()[x - 1],
        // every vertex this call visited has all its successors visited
        forall|v: int, kk: int|
            #![trigger final(graph).explored_seq()[v - 1], old(graph).adjacency()[v - 1][kk]]
            1 <= v <= old(graph).adjacency().len() && !old(graph).explored_seq()[v - 1]
                && final(graph).explored_seq()[v - 1] && 0 <= kk < old(graph).adjacency()[v
                - 1].len() ==> final(graph).explored_seq()[old(graph).adjacency()[v - 1][kk] - 1],
        // the newly visited vertices are exactly those reachable from the
        // start through vertices unvisited at entry, and each of them is
        // finished: appended to the finish list
        forall|v: int|
            #![trigger unexplored_reach(old(graph).adjacency(), old(graph).explored_seq(), node_id + 1, v)]
            1 <= v <= old(graph).adjacency().len() ==> ((final(graph).explored_seq()[v - 1]
                && !old(graph).explored_seq()[v - 1]) <==> unexplored_reach(
                old(graph).adjacency(),
                old(graph).explored_seq(),
                node_id + 1,
                v,
            )),
        forall|v: int|
            #![trigger final(finish)@.contains((v) as usize)]
            1 <= v <= old(graph).adjacency().len() && final(graph).explored_seq()[v - 1]
                && !old(graph).explored_seq()[v - 1] ==> final(finish)@.contains((v) as usize),
    decreases count_unexplored(old(graph).explored_seq()),
{
    let ghost n = graph.adjacency().len();
    let ghost adj = graph.adjacency();
    let ghost entry_marks = graph.explored_seq();
    let ghost stack2 = stack@.push((node_id + 1) as usize);
    graph.mark_at(node_id);
    proof {
        lemma_count_update_true(entry_marks, node_id as int);
        lemma_reach_self(adj, entry_marks, node_id + 1);
        assert forall|v: int|
            #![trigger unexplored_reach(adj, entry_marks, node_id + 1, v)]
            1 <= v <= n && !entry_marks[v - 1] && graph.explored_seq()[v
            - 1] implies unexplored_reach(adj, entry_marks, node_id + 1, v) by {
            assert(v == node_id + 1);
        }
        assert(topo_inv(*graph, finish@, stack2)) by {
            assert forall|i: int|
                0 <= i < n implies ((#[trigger] graph.explored_seq()[i]) <==> (finish@.contains(
                (i + 1) as usize,
            ) || stack2.contains((i + 1) as usize))) by {
                if i == node_id as int {
                    assert(stack2.last() == (node_id + 1) as usize);
                    assert(stack2.contains((node_id + 1) as usize));
                } else {
                    assert(stack2.contains((i + 1) as usize) <==> stack@.contains(
                        (i + 1) as usize,
                    )) by {
                        if stack2.contains((i + 1) as usize) {
                            let j = choose|j: int|
                                0 <= j < stack2.len() && stack2[j] == (i + 1) as usize;
                            assert(stack2[stack@.len() as int] == (node_id + 1) as usize);
                            assert((i + 1) as usize != (node_id + 1) as usize);
                            assert(j < stack@.len());
                            assert(stack@[j] == (i + 1) as usize);
                        }
                        if stack@.contains((i + 1) as usize) {
                            let j = choose|j: int|
                                0 <= j < stack@.len() && stack@[j] == (i + 1) as usize;
                            assert(stack2[j] == (i + 1) as usize);
                        }
                    }
                }
            }
            assert forall|x: usize| #[trigger]
                stack2.contains(x) implies !finish@.contains(x) by {
                if x == (node_id + 1) as usize {
                    assert(!entry_marks[node_id as int]);
                } else {
                    let j = choose|j: int| 0 <= j < stack2.len() && stack2[j] == x;
                    assert(j < stack@.len());
                    assert(stack@.contains(x));
                }
            }
        }
    }
    let deg = graph.degree_at(node_id);
    let mut k: usize = 0;
    while k < deg
        invariant
            k <= deg,
            graph.wf(),
            graph.adjacency() == old(graph).adjacency(),
            n == graph.adjacency().len(),
            node_id < n,
            deg == graph.adjacency()[node_id as int].len(),
            entry_marks == old(graph).explored_seq(),
            adj == old(graph).adjacency(),
            graph.explored_seq().len() == n,
            stack2 == stack@.push((node_id + 1) as usize),
            stack_chain(adj, stack@, node_id + 1),
            topo_inv(*graph, finish@, stack2),
            *topo_label == n - finish@.len(),
            old(finish)@.is_prefix_of(finish@),
            forall|i: int| 0 <= i < n && entry_marks[i] ==> graph.explored_seq()[i],
            graph.explored_seq()[node_id as int],
            !entry_marks[node_id as int],
            // successors of vertices finished by subcalls are visited
            forall|v: int, kk: int|
                #![trigger graph.explored_seq()[v - 1], adj[v - 1][kk]]
                1 <= v <= n && v != node_id + 1 && !entry_marks[v - 1] && graph.explored_seq()[v
                    - 1] && 0 <= kk < adj[v - 1].len() ==> graph.explored_seq()[adj[v - 1][kk] - 1],
            // the start vertex's first k successors are visited
            forall|kk: int|
                0 <= kk < k ==> graph.explored_seq()[(#[trigger] adj[node_id as int][kk]) - 1],
            // every newly visited vertex is reachable through
            // entry-unvisited vertices
            forall|v: int|
                #![trigger unexplored_reach(adj, entry_marks, node_id + 1, v)]
                1 <= v <= n && !entry_marks[v - 1] && graph.explored_seq()[v - 1]
                    ==> unexplored_reach(adj, entry_marks, node_id + 1, v),
            count_unexplored(graph.explored_seq()) + 1 <= count_unexplored(entry_marks),
            forall|x: usize|
                finish@.contains(x) && !old(finish)@.contains(x) ==> 1 <= x <= n
                    && !entry_marks[x - 1],
        decreases deg - k,
    {
        let w = graph.neighbour_at(node_id, k);
        proof {
            assert(1 <= w <= n);
        }
        if !graph.explored_at(w - 1) {
            let ghost pre = *graph;
            let ghost pre_finish = finish@;
            proof {
                // the deeper call's stack chains through this vertex
                assert(stack_chain(adj, stack2, w as int)) by {
                    assert forall|i2: int|
                        0 <= i2 < stack2.len() - 1 implies has_edge(
                        adj,
                        (#[trigger] stack2[i2]) as int,
                        stack2[i2 + 1] as int,
                    ) by {
                        if i2 < stack@.len() - 1 {
                            assert(stack2[i2] == stack@[i2] && stack2[i2 + 1] == stack@[i2 + 1]);
                        } else {
                            assert(stack2[i2] == stack@.last() && stack2[i2 + 1] == (node_id
                                + 1) as usize);
                        }
                    }
                    assert(stack2.last() == (node_id + 1) as usize);
                    assert(has_edge(adj, node_id + 1, w as int)) by {
                        assert(adj[node_id as int][k as int] == w);
                    }
                    assert(forall|i2: int|
                        0 <= i2 < stack2.len() ==> 1 <= (#[trigger] stack2[i2]) <= n) by {
                        assert(forall|i2: int|
                            0 <= i2 < stack@.len() ==> stack2[i2] == stack@[i2]);
                    }
                }
            }
            dfs_topo(graph, w - 1, topo_label, finish, Ghost(stack2));
            proof {
                lemma_count_pointwise(entry_marks, pre.explored_seq());
                lemma_count_pointwise(pre.explored_seq(), graph.explored_seq());
                assert forall|x: usize|
                    finish@.contains(x) && !old(finish)@.contains(x) implies 1 <= x <= n
                    && !entry_marks[x - 1] by {
                    if !pre_finish.contains(x) {
                        assert(!pre.explored_seq()[x - 1]);
                        assert(entry_marks[x - 1] ==> pre.explored_seq()[x - 1]);
                    }
                }
                // closure facts survive the subcall
                assert forall|v: int, kk: int|
                    #![trigger graph.explored_seq()[v - 1], adj[v - 1][kk]]
                    1 <= v <= n && v != node_id + 1 && !entry_marks[v - 1]
                        && graph.explored_seq()[v - 1] && 0 <= kk < adj[v
                    - 1].len() implies graph.explored_seq()[adj[v - 1][kk] - 1] by {
                    if pre.explored_seq()[v - 1] {
                        assert(pre.explored_seq()[adj[v - 1][kk] - 1]);
                    }
                }
                // a vertex newly visited by the subcall is reachable from
                // the start: step to the neighbour, then the subcall's walk
                assert forall|v: int|
                    #![trigger unexplored_reach(adj, entry_marks, node_id + 1, v)]
                    1 <= v <= n && !entry_marks[v - 1] && graph.explored_seq()[v
                    - 1] implies unexplored_reach(adj, entry_marks, node_id + 1, v) by {
                    if !pre.explored_seq()[v - 1] {
                        assert(unexplored_reach(adj, pre.explored_seq(), w as int, v));
                        lemma_reach_fewer_marks(adj, entry_marks, pre.explored_seq(), w as int, v);
                        assert(has_edge(adj, node_id + 1, w as int)) by {
                            assert(adj[node_id as int][k as int] == w);
                        }
                        lemma_reach_step(adj, entry_marks, node_id + 1, w as int, v);
                    }
                }
            }
        }
        proof {
            assert(graph.explored_seq()[adj[node_id as int][k as int] - 1]);
        }
        k += 1;
    }
    let lbl = *topo_label;
    proof {
        assert(finish@.len() + count_unexplored(graph.explored_seq()) + stack2.len() <= n);
        assert(lbl >= 1);
    }
    graph.set_topo_at(node_id, lbl);
    *topo_label = lbl - 1;
    let ghost pre_finish = finish@;
    finish.push(node_id + 1);
    proof {
        assert(finish@ == pre_finish.push((node_id + 1) as usize));
        assert(pre_finish.is_prefix_of(finish@));
        assert(old(finish)@.is_prefix_of(finish@));
        assert(!pre_finish.contains((node_id + 1) as usize)) by {
            assert(stack2[stack@.len() as int] == (node_id + 1) as usize);
            assert(stack2.contains((node_id + 1) as usize));
        }
        assert(topo_inv(*graph, finish@, stack@)) by {
            assert(finish@.no_duplicates());
            // successors of the newly finished vertex either finished
            // earlier or sit on the chain above it and reach it back
            assert forall|j: int, k2: int|
                #![trigger graph.adjacency()[finish@[j] - 1][k2]]
                0 <= j < finish@.len() && 0 <= k2 < graph.adjacency()[finish@[j]
                - 1].len() implies (finish@.take(j).contains(
                graph.adjacency()[finish@[j] - 1][k2],
            ) || reaches(
                graph.adjacency(),
                graph.adjacency()[finish@[j] - 1][k2] as int,
                finish@[j] as int,
            )) by {
                assert(graph.adjacency() == adj);
                if j < pre_finish.len() {
                    assert(finish@[j] == pre_finish[j]);
                    assert(finish@.take(j) =~= pre_finish.take(j));
                } else {
                    assert(finish@[j] == (node_id + 1) as usize);
                    let wv = adj[node_id as int][k2];
                    assert(graph.explored_seq()[wv - 1]);
                    assert(pre_finish.contains(wv) || stack2.contains(wv));
                    if pre_finish.contains(wv) {
                        assert(finish@.take(j) =~= pre_finish);
                    } else {
                        let p = choose|p: int| 0 <= p < stack2.len() && stack2[p] == wv;
                        if p == stack@.len() {
                            assert(wv == (node_id + 1) as usize);
                            lemma_preach_self(adj, node_id + 1);
                        } else {
                            assert(stack@[p] == wv);
                            lemma_chain_reaches(adj, stack@, node_id + 1, p);
                        }
                        assert(reaches(adj, wv as int, node_id + 1));
                    }
                }
            }
            let v = (node_id + 1) as usize;
            assert(finish@[pre_finish.len() as int] == v);
            assert(finish@.contains(v));
            assert forall|i: int|
                0 <= i < n implies ((#[trigger] graph.explored_seq()[i]) <==> (finish@.contains(
                (i + 1) as usize,
            ) || stack@.contains((i + 1) as usize))) by {
                let y = (i + 1) as usize;
                assert(graph.explored_seq()[i] <==> (pre_finish.contains(y) || stack2.contains(
                    y,
                )));
                if graph.explored_seq()[i] {
                    if pre_finish.contains(y) {
                        let j = choose|j: int| 0 <= j < pre_finish.len() && pre_finish[j] == y;
                        assert(finish@[j] == y);
                        assert(finish@.contains(y));
                    } else {
                        let j = choose|j: int| 0 <= j < stack2.len() && stack2[j] == y;
                        if j < stack@.len() {
                            assert(stack@[j] == y);
                            assert(stack@.contains(y));
                        } else {
                            assert(y == v);
                            assert(finish@.contains(y));
                        }
                    }
                }
                if finish@.contains(y) {
                    let j = choose|j: int| 0 <= j < finish@.len() && finish@[j] == y;
                    if j < pre_finish.len() {
                        assert(pre_finish.contains(y));
                    } else {
                        assert(y == v);
                        assert(stack2[stack@.len() as int] == v);
                        assert(stack2.contains(y));
                    }
                    assert(graph.explored_seq()[i]);
                }
                if stack@.contains(y) {
                    let j = choose|j: int| 0 <= j < stack@.len() && stack@[j] == y;
                    assert(stack2[j] == y);
                    assert(stack2.contains(y));
                    assert(graph.explored_seq()[i]);
                }
            }
            assert forall|x: usize| #[trigger]
                stack@.contains(x) implies !finish@.contains(x) by {
                let j = choose|j: int| 0 <= j < stack@.len() && stack@[j] == x;
                assert(stack2[j] == x);
                assert(stack2.contains(x));
                assert(!pre_finish.contains(x));
                assert(x != v) by {
                    if x == v {
                        // the vertex would have been visited at entry,
                        // contradicting its unvisited precondition
                        assert(old(graph).explored_seq()[node_id as int]);
                    }
                }
                if finish@.contains(x) {
                    let j2 = choose|j2: int| 0 <= j2 < finish@.len() && finish@[j2] == x;
                    if j2 < pre_finish.len() {
                        assert(pre_finish.contains(x));
                    }
                    assert(false);
                }
            }
        }
        assert forall|x: usize|
            finish@.contains(x) && !old(finish)@.contains(x) implies 1 <= x <= n && !entry_marks[x
            - 1] by {
            if x != (node_id + 1) as usize {
                let j = choose|j: int| 0 <= j < finish@.len() && finish@[j] == x;
                assert(j < pre_finish.len());
                assert(pre_finish.contains(x));
            }
        }
        // completeness: everything reachable through entry-unvisited
        // vertices has been visited
        assert forall|v: int|
            #![trigger unexplored_reach(adj, entry_marks, node_id + 1, v)]
            1 <= v <= n && unexplored_reach(adj, entry_marks, node_id + 1, v) implies (
        graph.explored_seq()[v - 1] && !entry_marks[v - 1]) by {
            lemma_reach_ends(adj, entry_marks, node_id + 1, v);
            assert forall|v2: int, kk: int|
                #![trigger adj[v2 - 1][kk]]
                1 <= v2 <= n && 0 <= kk < adj[v2 - 1].len() implies 1 <= adj[v2 - 1][kk] <= n by {
                assert(1 <= adj[v2 - 1][kk] <= adj.len());
            }
            assert forall|v2: int, kk: int|
                #![trigger graph.explored_seq()[v2 - 1], adj[v2 - 1][kk]]
                1 <= v2 <= n && !entry_marks[v2 - 1] && graph.explored_seq()[v2 - 1] && 0 <= kk
                < adj[v2 - 1].len() && 1 <= adj[v2 - 1][kk] <= n implies graph.explored_seq()[adj[v2
                - 1][kk] - 1] by {
                if v2 == node_id + 1 {
                    assert(graph.explored_seq()[(adj[node_id as int][kk]) - 1]);
                }
            }
            lemma_closure_reach(adj, entry_marks, graph.explored_seq(), node_id + 1, v);
        }
        // every newly visited vertex has been finished: it is on the
        // list, not on the ghost stack
        assert forall|v: int|
            #![trigger finish@.contains((v) as usize)]
            1 <= v <= n && graph.explored_seq()[v - 1] && !entry_marks[v
            - 1] implies finish@.contains((v) as usize) by {
            if stack@.contains((v) as usize) {
                assert(old(graph).explored_seq()[v - 1]);
            }
        }
    }
}

/// The ordering pass: a full depth-first search assigning finishing
/// labels counting down from the vertex count, and returning the
/// vertices in finishing order. Every vertex appears on the returned
/// list exactly once.
fn topo_sort(graph: &mut DirectedGraph) -> (r: Vec<usize>)
    requires
        old(graph).wf(),
        old(graph).fresh_marks(),
    ensures
        final(graph).wf(),
        final(graph).adjacency() == old(graph).adjacency(),
        r@.no_duplicates(),
        forall|j: int| 0 <= j < r@.len() ==> 1 <= (#[trigger] r@[j]) <= old(graph).adjacency().len(),
        forall|i: int|
            0 <= i < old(graph).adjacency().len() ==> r@.contains(#[trigger] ((i + 1) as usize)),
        forall|j: int|
            0 <= j < r@.len() ==> final(graph).topo_seq()[(#[trigger] r@[j]) - 1] == old(
                graph,
            ).adjacency().len() - j,
        // every successor of a finished vertex either finished earlier or
        // reaches it back: on an acyclic graph the labels are therefore a
        // topological order (see `lemma_finish_order_topological`)
        forall|j: int, k: int|
            #![trigger old(graph).adjacency()[r@[j] - 1][k]]
            0 <= j < r@.len() && 0 <= k < old(graph).adjacency()[r@[j] - 1].len() ==> (r@.take(
                j,
            ).contains(old(graph).adjacency()[r@[j] - 1][k]) || reaches(
                old(graph).adjacency(),
                old(graph).adjacency()[r@[j] - 1][k] as int,
                r@[j] as int,
            )),
    {
    let ghost n = graph.adjacency().len();
    let n_exec = graph.node_count();
    let mut cur_label: usize = n_exec;
    let mut finish: Vec<usize> = Vec::new();
    proof {
        assert(graph.explored_seq().len() == n) by {
            assert(graph.explored_seq() =~= graph.nodes@.map_values(
                |node: Node| node.meta.is_explored,
            ));
        }
        lemma_count_le_len(graph.explored_seq());
        assert(topo_inv(*graph, finish@, Seq::<usize>::empty())) by {
            assert forall|i: int|
                0 <= i < n implies ((#[trigger] graph.explored_seq()[i]) <==> (finish@.contains(
                (i + 1) as usize,
            ) || Seq::<usize>::empty().contains((i + 1) as usize))) by {
                assert(!graph.explored_seq()[i]);
            }
        }
    }
    let mut index: usize = 0;
    while index < n_exec
        invariant
            index <= n_exec,
            n_exec == n,
            graph.wf(),
            graph.adjacency() == old(graph).adjacency(),
            n == graph.adjacency().len(),
            graph.explored_seq().len() == n,
            topo_inv(*graph, finish@, Seq::<usize>::empty()),
            cur_label == n - finish@.len(),
            forall|i: int| 0 <= i < index ==> graph.explored_seq()[i],
        decreases n_exec - index,
    {
        if !graph.explored_at(index) {
            dfs_topo(graph, index, &mut cur_label, &mut finish, Ghost(Seq::empty()));
        }
        index += 1;
    }
    proof {
        assert forall|i: int| 0 <= i < n implies finish@.contains(
            #[trigger] ((i + 1) as usize),
        ) by {
            assert(graph.explored_seq()[i]);
        }
    }
    finish
}


/// There is an edge from `u` to `v` in the adjacency structure.
pub open spec fn has_edge(a: Seq<Seq<usize>>, u: int, v: int) -> bool {
    exists|k: int| 0 <= k < a[u - 1].len() && (#[trigger] a[u - 1][k]) == v
}

/// A directed walk: at least one vertex, all in range, consecutive
/// vertices joined by an edge.
pub open spec fn dwalk_ok(a: Seq<Seq<usize>>, vs: Seq<int>) -> bool {
    &&& vs.len() >= 1
    &&& forall|i: int| 0 <= i < vs.len() ==> 1 <= #[trigger] vs[i] <= a.len()
    &&& forall|i: int| 0 <= i < vs.len() - 1 ==> has_edge(a, #[trigger] vs[i], vs[i + 1])
}

/// `t` is reachable from `s` by a directed walk all of whose vertices
/// are unvisited in `marks` (`s` and `t` included).
pub open spec fn unexplored_reach(a: Seq<Seq<usize>>, marks: Seq<bool>, s: int, t: int) -> bool {
    exists|vs: Seq<int>|
        {
            &&& #[trigger] dwalk_ok(a, vs)
            &&& vs.first() == s
            &&& vs.last() == t
            &&& forall|i: int| 0 <= i < vs.len() ==> !marks[#[trigger] vs[i] - 1]
        }
}

/// An unvisited vertex reaches itself.
proof fn lemma_reach_self(a: Seq<Seq<usize>>, marks: Seq<bool>, s: int)
    requires
        1 <= s <= a.len(),
        !marks[s - 1],
    ensures
        unexplored_reach(a, marks, s, s),
{
    let vs = seq![s];
    assert(vs.len() == 1 && vs[0] == s);
    assert(dwalk_ok(a, vs) && vs.first() == s && vs.last() == s && forall|i: int|
        0 <= i < vs.len() ==> !marks[#[trigger] vs[i] - 1]);
}

/// Prepending an edge from an unvisited vertex extends a reachability
/// witness.
proof fn lemma_reach_step(a: Seq<Seq<usize>>, marks: Seq<bool>, s: int, u: int, t: int)
    requires
        1 <= s <= a.len(),
        !marks[s - 1],
        has_edge(a, s, u),
        unexplored_reach(a, marks, u, t),
    ensures
        unexplored_reach(a, marks, s, t),
{
    let vs = choose|vs: Seq<int>|
        {
            &&& #[trigger] dwalk_ok(a, vs)
            &&& vs.first() == u
            &&& vs.last() == t
            &&& forall|i: int| 0 <= i < vs.len() ==> !marks[#[trigger] vs[i] - 1]
        };
    let vs2 = seq![s] + vs;
    assert forall|i: int| 0 <= i < vs2.len() - 1 implies has_edge(a, #[trigger] vs2[i], vs2[i + 1]) by {
        if i == 0 {
            assert(vs2[0] == s && vs2[1] == vs[0]);
        } else {
            assert(vs2[i] == vs[i - 1] && vs2[i + 1] == vs[i]);
        }
    }
    assert(dwalk_ok(a, vs2)) by {
        assert(forall|i: int| 0 <= i < vs2.len() ==> 1 <= #[trigger] vs2[i] <= a.len()) by {
            assert(forall|i: int| 1 <= i < vs2.len() ==> vs2[i] == vs[i - 1]);
        }
    }
    assert(vs2.first() == s && vs2.last() == t);
    assert(forall|i: int| 0 <= i < vs2.len() ==> !marks[#[trigger] vs2[i] - 1]) by {
        assert(forall|i: int| 1 <= i < vs2.len() ==> vs2[i] == vs[i - 1]);
    }
}

/// A witness that avoids many visited vertices also avoids fewer: a
/// reachability fact survives backing off to an earlier mark state.
proof fn lemma_reach_fewer_marks(
    a: Seq<Seq<usize>>,
    small: Seq<bool>,
    big: Seq<bool>,
    s: int,
    t: int,
)
    requires
        small.len() == a.len(),
        big.len() == a.len(),
        forall|i: int| 0 <= i < small.len() && small[i] ==> big[i],
        unexplored_reach(a, big, s, t),
    ensures
        unexplored_reach(a, small, s, t),
{
    let vs = choose|vs: Seq<int>|
        {
            &&& #[trigger] dwalk_ok(a, vs)
            &&& vs.first() == s
            &&& vs.last() == t
            &&& forall|i: int| 0 <= i < vs.len() ==> !big[#[trigger] vs[i] - 1]
        };
    assert forall|i: int| 0 <= i < vs.len() implies !small[#[trigger] vs[i] - 1] by {
        assert(1 <= vs[i] <= a.len());
        assert(!big[vs[i] - 1]);
    }
    assert(dwalk_ok(a, vs) && vs.first() == s && vs.last() == t && forall|i: int|
        0 <= i < vs.len() ==> !small[#[trigger] vs[i] - 1]);
}

/// The endpoints of a reachability witness are unvisited.
proof fn lemma_reach_ends(a: Seq<Seq<usize>>, marks: Seq<bool>, s: int, t: int)
    requires
        unexplored_reach(a, marks, s, t),
    ensures
        !marks[s - 1],
        !marks[t - 1],
        1 <= s <= a.len(),
        1 <= t <= a.len(),
{
    let vs = choose|vs: Seq<int>|
        {
            &&& #[trigger] dwalk_ok(a, vs)
            &&& vs.first() == s
            &&& vs.last() == t
            &&& forall|i: int| 0 <= i < vs.len() ==> !marks[#[trigger] vs[i] - 1]
        };
    assert(vs[0] == s && vs[vs.len() - 1] == t);
}

/// Along a walk of entry-unvisited vertices, once the start is visited
/// and every newly visited vertex has all its successors visited, the
/// end is visited too.
proof fn lemma_closure_walk(
    a: Seq<Seq<usize>>,
    entry: Seq<bool>,
    after: Seq<bool>,
    vs: Seq<int>,
    i: int,
)
    requires
        entry.len() == a.len(),
        after.len() == a.len(),
        dwalk_ok(a, vs),
        forall|j: int| 0 <= j < vs.len() ==> !entry[#[trigger] vs[j] - 1],
        forall|v: int, k: int|
            #![trigger after[v - 1], a[v - 1][k]]
            1 <= v <= a.len() && !entry[v - 1] && after[v - 1] && 0 <= k < a[v - 1].len() && 1 <= a[v
                - 1][k] <= a.len() ==> after[a[v - 1][k] - 1],
        forall|v: int, k: int|
            #![trigger a[v - 1][k]]
            1 <= v <= a.len() && 0 <= k < a[v - 1].len() ==> 1 <= a[v - 1][k] <= a.len(),
        0 <= i < vs.len(),
        after[vs[i] - 1],
    ensures
        after[vs.last() - 1],
    decreases vs.len() - i,
{
    if i < vs.len() - 1 {
        assert(has_edge(a, vs[i], vs[i + 1]));
        let k = choose|k: int|
            0 <= k < a[vs[i] - 1].len() && (#[trigger] a[vs[i] - 1][k]) == vs[i + 1];
        assert(after[a[vs[i] - 1][k] - 1]);
        lemma_closure_walk(a, entry, after, vs, i + 1);
    }
}

/// Completeness of a closed traversal: every vertex reachable from the
/// start through entry-unvisited vertices is visited afterwards.
proof fn lemma_closure_reach(
    a: Seq<Seq<usize>>,
    entry: Seq<bool>,
    after: Seq<bool>,
    s: int,
    t: int,
)
    requires
        entry.len() == a.len(),
        after.len() == a.len(),
        unexplored_reach(a, entry, s, t),
        after[s - 1],
        forall|v: int, k: int|
            #![trigger after[v - 1], a[v - 1][k]]
            1 <= v <= a.len() && !entry[v - 1] && after[v - 1] && 0 <= k < a[v - 1].len() && 1 <= a[v
                - 1][k] <= a.len() ==> after[a[v - 1][k] - 1],
        forall|v: int, k: int|
            #![trigger a[v - 1][k]]
            1 <= v <= a.len() && 0 <= k < a[v - 1].len() ==> 1 <= a[v - 1][k] <= a.len(),
    ensures
        after[t - 1],
{
    let vs = choose|vs: Seq<int>|
        {
            &&& #[trigger] dwalk_ok(a, vs)
            &&& vs.first() == s
            &&& vs.last() == t
            &&& forall|i: int| 0 <= i < vs.len() ==> !entry[#[trigger] vs[i] - 1]
        };
    assert(vs[0] == s);
    lemma_closure_walk(a, entry, after, vs, 0);
}

/// The discovery pass: visits exactly the vertices reachable from the
/// given vertex (1-based id) through vertices unvisited at entry, and
/// returns the component counter plus the number of vertices visited
/// beyond the first — so a call with counter 1 returns exactly the
/// number of newly visited vertices.
fn dfs_scc(graph: &mut DirectedGraph, node_id: usize, component_counter: usize) -> (r: usize)
    requires
        old(graph).wf(),
        old(graph).adjacency().len() <= usize::MAX,
        old(graph).explored_seq().len() == old(graph).adjacency().len(),
        1 <= node_id <= old(graph).adjacency().len(),
        !old(graph).explored_seq()[node_id - 1],
        component_counter + count_unexplored(old(graph).explored_seq()) <= usize::MAX,
    ensures
        final(graph).wf(),
        final(graph).adjacency() == old(graph).adjacency(),
        final(graph).explored_seq().len() == old(graph).explored_seq().len(),
        forall|i: int|
            0 <= i < old(graph).explored_seq().len() && old(graph).explored_seq()[i]
                ==> final(graph).explored_seq()[i],
        final(graph).explored_seq()[node_id - 1],
        final(graph).topo_seq() == old(graph).topo_seq(),
        // every vertex this call visited has all its successors visited
        forall|v: int, kk: int|
            #![trigger final(graph).explored_seq()[v - 1], old(graph).adjacency()[v - 1][kk]]
            1 <= v <= old(graph).adjacency().len() && !old(graph).explored_seq()[v - 1]
                && final(graph).explored_seq()[v - 1] && 0 <= kk < old(graph).adjacency()[v
                - 1].len() ==> final(graph).explored_seq()[old(graph).adjacency()[v - 1][kk] - 1],
        // the newly visited vertices are exactly those reachable from the
        // start through vertices unvisited at entry
        forall|v: int|
            #![trigger unexplored_reach(old(graph).adjacency(), old(graph).explored_seq(), node_id as int, v)]
            1 <= v <= old(graph).adjacency().len() ==> ((final(graph).explored_seq()[v - 1]
                && !old(graph).explored_seq()[v - 1]) <==> unexplored_reach(
                old(graph).adjacency(),
                old(graph).explored_seq(),
                node_id as int,
                v,
            )),
        r + 1 == component_counter + count_unexplored(old(graph).explored_seq())
            - count_unexplored(final(graph).explored_seq()),
    decreases count_unexplored(old(graph).explored_seq()),
{
    let ghost n = graph.adjacency().len();
    let ghost adj = graph.adjacency();
    let ghost entry_marks = graph.explored_seq();
    graph.mark_at(node_id - 1);
    proof {
        lemma_count_update_true(entry_marks, node_id - 1);
        lemma_reach_self(adj, entry_marks, node_id as int);
        assert forall|v: int|
            #![trigger unexplored_reach(adj, entry_marks, node_id as int, v)]
            1 <= v <= n && !entry_marks[v - 1] && graph.explored_seq()[v
            - 1] implies unexplored_reach(adj, entry_marks, node_id as int, v) by {
            assert(v == node_id);
        }
    }
    let mut inner_counter: usize = 0;
    let deg = graph.degree_at(node_id - 1);
    let mut k: usize = 0;
    while k < deg
        invariant
            k <= deg,
            graph.wf(),
            graph.adjacency() == old(graph).adjacency(),
            n == graph.adjacency().len(),
            n <= usize::MAX,
            1 <= node_id <= n,
            deg == graph.adjacency()[node_id - 1].len(),
            entry_marks == old(graph).explored_seq(),
            adj == old(graph).adjacency(),
            graph.explored_seq().len() == n,
            graph.topo_seq() == old(graph).topo_seq(),
            forall|i: int| 0 <= i < n && entry_marks[i] ==> graph.explored_seq()[i],
            graph.explored_seq()[node_id - 1],
            !entry_marks[node_id - 1],
            // successors of vertices finished by subcalls are visited
            forall|v: int, kk: int|
                #![trigger graph.explored_seq()[v - 1], adj[v - 1][kk]]
                1 <= v <= n && v != node_id && !entry_marks[v - 1] && graph.explored_seq()[v - 1]
                    && 0 <= kk < adj[v - 1].len() ==> graph.explored_seq()[adj[v - 1][kk] - 1],
            // the start vertex's first k successors are visited
            forall|kk: int|
                0 <= kk < k ==> graph.explored_seq()[(#[trigger] adj[node_id - 1][kk]) - 1],
            // every newly visited vertex is reachable through
            // entry-unvisited vertices
            forall|v: int|
                #![trigger unexplored_reach(adj, entry_marks, node_id as int, v)]
                1 <= v <= n && !entry_marks[v - 1] && graph.explored_seq()[v - 1]
                    ==> unexplored_reach(adj, entry_marks, node_id as int, v),
            count_unexplored(graph.explored_seq()) + 1 <= count_unexplored(entry_marks),
            inner_counter + count_unexplored(graph.explored_seq()) + 1 == count_unexplored(
                entry_marks,
            ),
            component_counter + count_unexplored(entry_marks) <= usize::MAX,
        decreases deg - k,
    {
        let adjacent_node_id = graph.neighbour_at(node_id - 1, k);
        proof {
            assert(1 <= adjacent_node_id <= n);
        }
        if !graph.explored_at(adjacent_node_id - 1) {
            let ghost pre = *graph;
            proof {
                lemma_count_pointwise(entry_marks, pre.explored_seq());
                assert(count_unexplored(pre.explored_seq()) + 1 <= count_unexplored(entry_marks));
                assert(count_unexplored(entry_marks) <= usize::MAX);
            }
            let sub = dfs_scc(graph, adjacent_node_id, 1);
            proof {
                lemma_count_pointwise(pre.explored_seq(), graph.explored_seq());
                assert(sub == count_unexplored(pre.explored_seq()) - count_unexplored(
                    graph.explored_seq(),
                ));
                assert(inner_counter + sub + count_unexplored(graph.explored_seq()) + 1
                    == count_unexplored(entry_marks));
                // closure facts survive the subcall: older vertices keep
                // their visited successors, subcall vertices bring theirs
                assert forall|v: int, kk: int|
                    #![trigger graph.explored_seq()[v - 1], adj[v - 1][kk]]
                    1 <= v <= n && v != node_id && !entry_marks[v - 1] && graph.explored_seq()[v
                    - 1] && 0 <= kk < adj[v - 1].len() implies graph.explored_seq()[adj[v - 1][kk]
                    - 1] by {
                    if pre.explored_seq()[v - 1] {
                        assert(pre.explored_seq()[adj[v - 1][kk] - 1]);
                    }
                }
                // a vertex newly visited by the subcall is reachable from
                // the start: step to the neighbour, then the subcall's walk
                assert forall|v: int|
                    #![trigger unexplored_reach(adj, entry_marks, node_id as int, v)]
                    1 <= v <= n && !entry_marks[v - 1] && graph.explored_seq()[v
                    - 1] implies unexplored_reach(adj, entry_marks, node_id as int, v) by {
                    if !pre.explored_seq()[v - 1] {
                        assert(unexplored_reach(adj, pre.explored_seq(), adjacent_node_id as int, v));
                        lemma_reach_fewer_marks(
                            adj,
                            entry_marks,
                            pre.explored_seq(),
                            adjacent_node_id as int,
                            v,
                        );
                        assert(has_edge(adj, node_id as int, adjacent_node_id as int)) by {
                            assert(adj[node_id - 1][k as int] == adjacent_node_id);
                        }
                        lemma_reach_step(
                            adj,
                            entry_marks,
                            node_id as int,
                            adjacent_node_id as int,
                            v,
                        );
                    }
                }
            }
            inner_counter = inner_counter + sub;
        }
        proof {
            assert(graph.explored_seq()[adj[node_id - 1][k as int] - 1]);
        }
        k += 1;
    }
    proof {
        lemma_count_le_len(entry_marks);
        // completeness: everything reachable through entry-unvisited
        // vertices has been visited
        assert forall|v: int|
            #![trigger unexplored_reach(adj, entry_marks, node_id as int, v)]
            1 <= v <= n && unexplored_reach(adj, entry_marks, node_id as int, v) implies (
        graph.explored_seq()[v - 1] && !entry_marks[v - 1]) by {
            lemma_reach_ends(adj, entry_marks, node_id as int, v);
            assert forall|v2: int, kk: int|
                #![trigger adj[v2 - 1][kk]]
                1 <= v2 <= n && 0 <= kk < adj[v2 - 1].len() implies 1 <= adj[v2 - 1][kk] <= n by {
                assert(1 <= adj[v2 - 1][kk] <= adj.len());
            }
            assert forall|v2: int, kk: int|
                #![trigger graph.explored_seq()[v2 - 1], adj[v2 - 1][kk]]
                1 <= v2 <= n && !entry_marks[v2 - 1] && graph.explored_seq()[v2 - 1] && 0 <= kk
                < adj[v2 - 1].len() && 1 <= adj[v2 - 1][kk] <= n implies graph.explored_seq()[adj[v2
                - 1][kk] - 1] by {
                if v2 == node_id {
                    assert(graph.explored_seq()[(adj[node_id - 1][kk]) - 1]);
                }
            }
            lemma_closure_reach(adj, entry_marks, graph.explored_seq(), node_id as int, v);
        }
    }
    component_counter + inner_counter
}



/// `t` is reachable from `s` by a directed walk.
pub open spec fn reaches(a: Seq<Seq<usize>>, s: int, t: int) -> bool {
    exists|vs: Seq<int>| #[trigger] dwalk_ok(a, vs) && vs.first() == s && vs.last() == t
}

/// A vertex reaches itself.
proof fn lemma_preach_self(a: Seq<Seq<usize>>, s: int)
    requires
        1 <= s <= a.len(),
    ensures
        reaches(a, s, s),
{
    let vs = seq![s];
    assert(vs.len() == 1 && vs[0] == s);
    assert(dwalk_ok(a, vs) && vs.first() == s && vs.last() == s);
}

/// Prepending an edge extends a walk.
proof fn lemma_preach_step(a: Seq<Seq<usize>>, s: int, u: int, t: int)
    requires
        1 <= s <= a.len(),
        has_edge(a, s, u),
        reaches(a, u, t),
    ensures
        reaches(a, s, t),
{
    let vs = choose|vs: Seq<int>| #[trigger] dwalk_ok(a, vs) && vs.first() == u && vs.last() == t;
    let vs2 = seq![s] + vs;
    assert forall|i: int| 0 <= i < vs2.len() - 1 implies has_edge(a, #[trigger] vs2[i], vs2[i + 1]) by {
        if i == 0 {
            assert(vs2[0] == s && vs2[1] == vs[0]);
        } else {
            assert(vs2[i] == vs[i - 1] && vs2[i + 1] == vs[i]);
        }
    }
    assert(dwalk_ok(a, vs2)) by {
        assert(forall|i: int| 0 <= i < vs2.len() ==> 1 <= #[trigger] vs2[i] <= a.len()) by {
            assert(forall|i: int| 1 <= i < vs2.len() ==> vs2[i] == vs[i - 1]);
        }
    }
    assert(dwalk_ok(a, vs2) && vs2.first() == s && vs2.last() == t);
}

/// The ghost call stack of the ordering pass is an edge chain down to
/// the vertex currently being explored.
pub open spec fn stack_chain(a: Seq<Seq<usize>>, st: Seq<usize>, target: int) -> bool {
    &&& forall|i: int| 0 <= i < st.len() ==> 1 <= (#[trigger] st[i]) <= a.len()
    &&& forall|i: int|
        0 <= i < st.len() - 1 ==> has_edge(a, (#[trigger] st[i]) as int, st[i + 1] as int)
    &&& st.len() > 0 ==> has_edge(a, st.last() as int, target)
}

/// Every vertex on the chain reaches its end.
proof fn lemma_chain_reaches(a: Seq<Seq<usize>>, st: Seq<usize>, target: int, i: int)
    requires
        stack_chain(a, st, target),
        1 <= target <= a.len(),
        0 <= i < st.len(),
    ensures
        reaches(a, st[i] as int, target),
    decreases st.len() - i,
{
    if i == st.len() - 1 {
        lemma_preach_self(a, target);
        lemma_preach_step(a, st[i] as int, target, target);
    } else {
        lemma_chain_reaches(a, st, target, i + 1);
        lemma_preach_step(a, st[i] as int, st[i + 1] as int, target);
    }
}

/// No edge closes a directed cycle: an edge's head never reaches back
/// to its tail.
pub open spec fn acyclic(a: Seq<Seq<usize>>) -> bool {
    forall|u: int, v: int|
        1 <= u <= a.len() && 1 <= v <= a.len() && #[trigger] has_edge(a, u, v) ==> !reaches(a, v, u)
}

/// Topological-order law: in a finish list where every successor of a
/// finished vertex either finished earlier or reaches it back, edges of
/// an acyclic graph always point at earlier-finished vertices — so with
/// labels counting down from the vertex count, an edge `u -> v` forces
/// `label(u) < label(v)`.
pub proof fn lemma_finish_order_topological(a: Seq<Seq<usize>>, list: Seq<usize>, j: int, k: int)
    requires
        acyclic(a),
        0 <= j < list.len(),
        1 <= list[j] <= a.len(),
        0 <= k < a[list[j] - 1].len(),
        1 <= a[list[j] - 1][k] <= a.len(),
        list.take(j).contains(a[list[j] - 1][k]) || reaches(
            a,
            a[list[j] - 1][k] as int,
            list[j] as int,
        ),
    ensures
        exists|j2: int| 0 <= j2 < j && list[j2] == a[list[j] - 1][k],
{
    let w = a[list[j] - 1][k];
    assert(has_edge(a, list[j] as int, w as int)) by {
        assert(a[list[j] - 1][k as int] == w);
    }
    if reaches(a, w as int, list[j] as int) {
        assert(false);
    }
    let j2 = choose|j2: int| 0 <= j2 < list.take(j).len() && list.take(j)[j2] == w;
    assert(list[j2] == w);
}


/// The reversed adjacency structure of a graph, as `reversed` builds
/// it: vertex `t`'s list holds the sources of the edges into `t`.
pub open spec fn rev_adjacency(a: Seq<Seq<usize>>) -> Seq<Seq<usize>> {
    Seq::new(a.len(), |t: int| rev_sources(a, (t + 1) as usize))
}

/// A vertex's sources within one row are exactly the row's hits.
proof fn lemma_row_sources_elem(id: usize, adj: Seq<usize>, t: usize, x: usize)
    ensures
        row_sources(id, adj, t).contains(x) <==> (x == id && exists|k: int|
            0 <= k < adj.len() && adj[k] == t),
    decreases adj.len(),
{
    if adj.len() > 0 {
        lemma_row_sources_elem(id, adj.drop_last(), t, x);
        let r = row_sources(id, adj, t);
        let d = row_sources(id, adj.drop_last(), t);
        if r.contains(x) {
            let j = choose|j: int| 0 <= j < r.len() && r[j] == x;
            if j < d.len() {
                assert(d.contains(x));
                let k = choose|k: int| 0 <= k < adj.drop_last().len() && adj.drop_last()[k] == t;
                assert(adj[k] == t);
            } else {
                assert(adj.last() == t && x == id);
                assert(adj[adj.len() - 1] == t);
            }
        }
        if x == id && exists|k: int| 0 <= k < adj.len() && adj[k] == t {
            let k = choose|k: int| 0 <= k < adj.len() && adj[k] == t;
            if k < adj.len() - 1 {
                assert(adj.drop_last()[k] == t);
                assert(d.contains(x));
                let j = choose|j: int| 0 <= j < d.len() && d[j] == x;
                assert(r[j] == x);
            } else {
                assert(r[r.len() - 1] == id);
            }
            assert(r.contains(x));
        }
    }
}

/// A vertex appears among `t`'s sources exactly when it has an edge to
/// `t`: the reversed structure mirrors the edges.
proof fn lemma_rev_sources_elem(a: Seq<Seq<usize>>, t: usize, x: usize)
    requires
        a.len() <= usize::MAX,
    ensures
        rev_sources(a, t).contains(x) <==> (1 <= x <= a.len() && has_edge(a, x as int, t as int)),
    decreases a.len(),
{
    if a.len() == 0 {
        if rev_sources(a, t).contains(x) {
            let j = choose|j: int| 0 <= j < rev_sources(a, t).len() && rev_sources(a, t)[j] == x;
        }
        if 1 <= x <= a.len() {
            assert(false);
        }
    } else {
        lemma_rev_sources_elem(a.drop_last(), t, x);
        lemma_row_sources_elem(a.len() as usize, a.last(), t, x);
        let r = rev_sources(a, t);
        let d = rev_sources(a.drop_last(), t);
        let w = row_sources(a.len() as usize, a.last(), t);
        assert(r == d + w);
        if r.contains(x) {
            let j = choose|j: int| 0 <= j < r.len() && r[j] == x;
            if j < d.len() {
                assert(d.contains(x));
                assert(has_edge(a.drop_last(), x as int, t as int));
                let k = choose|k: int|
                    0 <= k < a.drop_last()[x - 1].len() && (#[trigger] a.drop_last()[x - 1][k])
                        == t;
                assert(a[x - 1] == a.drop_last()[x - 1]);
                assert(a[x - 1][k] == t);
                assert(has_edge(a, x as int, t as int));
            } else {
                assert(w.contains(x)) by {
                    assert(w[j - d.len()] == x);
                }
                assert(x == a.len());
                let k = choose|k: int| 0 <= k < a.last().len() && a.last()[k] == t;
                assert(a[x - 1] == a.last());
                assert(a[x - 1][k] == t);
                assert(has_edge(a, x as int, t as int));
            }
        }
        if 1 <= x <= a.len() && has_edge(a, x as int, t as int) {
            let k = choose|k: int|
                0 <= k < a[x - 1].len() && (#[trigger] a[x - 1][k]) == t;
            if x < a.len() {
                assert(a.drop_last()[x - 1] == a[x - 1]);
                assert(has_edge(a.drop_last(), x as int, t as int));
                assert(d.contains(x));
                let j = choose|j: int| 0 <= j < d.len() && d[j] == x;
                assert(r[j] == x);
            } else {
                assert(a.last() == a[x - 1]);
                assert(w.contains(x));
                let j = choose|j: int| 0 <= j < w.len() && w[j] == x;
                assert(r[d.len() + j] == x);
            }
            assert(r.contains(x));
        }
    }
}

/// One launch of the discovery pass: from a start unvisited beforehand,
/// exactly the vertices reachable from it through then-unvisited
/// vertices become visited, and the reported size counts them.
pub open spec fn scc_launch(
    a: Seq<Seq<usize>>,
    before: Seq<bool>,
    after: Seq<bool>,
    start: int,
    size: usize,
) -> bool {
    &&& before.len() == a.len()
    &&& after.len() == a.len()
    &&& 1 <= start <= a.len()
    &&& !before[start - 1]
    &&& forall|i: int| 0 <= i < a.len() && before[i] ==> after[i]
    &&& forall|v: int|
        #![trigger unexplored_reach(a, before, start, v)]
        1 <= v <= a.len() ==> ((after[v - 1] && !before[v - 1]) <==> unexplored_reach(
            a,
            before,
            start,
            v,
        ))
    &&& size == count_unexplored(before) - count_unexplored(after)
}

/// A complete second pass: starting with nothing visited, a sequence of
/// launches whose reported sizes are the given ones, ending with every
/// vertex visited.
pub open spec fn kosaraju_run(
    a: Seq<Seq<usize>>,
    history: Seq<Seq<bool>>,
    starts: Seq<int>,
    sizes: Seq<usize>,
) -> bool {
    &&& history.len() == sizes.len() + 1
    &&& starts.len() == sizes.len()
    &&& history.first() == Seq::new(a.len(), |i: int| false)
    &&& forall|j: int|
        0 <= j < sizes.len() ==> scc_launch(a, #[trigger] history[j], history[j + 1], starts[j], sizes[j])
    &&& forall|i: int| 0 <= i < a.len() ==> (#[trigger] history.last()[i])
}



/// The sizes reported so far account exactly for the visited vertices.
proof fn lemma_run_telescope(
    a: Seq<Seq<usize>>,
    history: Seq<Seq<bool>>,
    starts: Seq<int>,
    sizes: Seq<usize>,
    j: int,
)
    requires
        kosaraju_run(a, history, starts, sizes),
        0 <= j <= sizes.len(),
    ensures
        sum_seq(sizes.take(j)) == count_unexplored(history[0]) - count_unexplored(history[j]),
    decreases j,
{
    if j == 0 {
        assert(sizes.take(0) =~= Seq::<usize>::empty());
    } else {
        lemma_run_telescope(a, history, starts, sizes, j - 1);
        assert(scc_launch(a, history[j - 1], history[j], starts[j - 1], sizes[j - 1]));
        assert(sizes.take(j).drop_last() =~= sizes.take(j - 1));
        assert(sizes.take(j).last() == sizes[j - 1]);
    }
}

/// A sequence of ones sums to its length.
proof fn lemma_sum_all_ones(s: Seq<usize>)
    requires
        forall|i: int| 0 <= i < s.len() ==> (#[trigger] s[i]) == 1,
    ensures
        sum_seq(s) == s.len(),
    decreases s.len(),
{
    if s.len() > 0 {
        lemma_sum_all_ones(s.drop_last());
        assert(s[s.len() - 1] == 1);
    }
}

/// Scenario law: on a graph whose reversal is acyclic — equivalently,
/// a graph with no directed cycle — every launch of a complete ordered
/// pass visits exactly its start vertex: every reported component has
/// size 1, and there are as many components as vertices. The ordering
/// makes it so: every successor of a launch's start finished later in
/// the reversed graph's order, hence was already visited.
pub proof fn lemma_acyclic_all_singletons(
    a: Seq<Seq<usize>>,
    history: Seq<Seq<bool>>,
    starts: Seq<int>,
    sizes: Seq<usize>,
    f: Seq<usize>,
    pos: Seq<int>,
)
    requires
        kosaraju_pass(a, history, starts, sizes, f, pos),
        acyclic(rev_adjacency(a)),
        a.len() <= usize::MAX,
        forall|i: int, k: int|
            #![trigger a[i][k]]
            0 <= i < a.len() && 0 <= k < a[i].len() ==> 1 <= a[i][k] <= a.len(),
    ensures
        forall|m: int| 0 <= m < sizes.len() ==> (#[trigger] sizes[m]) == 1,
        sizes.len() == a.len(),
{
    let n = a.len() as int;
    assert forall|m: int| 0 <= m < sizes.len() implies (#[trigger] sizes[m]) == 1 by {
        assert(scc_launch(a, history[m], history[m + 1], starts[m], sizes[m]));
        let before = history[m];
        let after = history[m + 1];
        let w = starts[m];
        // every successor of the start is already visited: it finished
        // later in the reversed order, so it was launched or swept first
        assert forall|y: int| 1 <= y <= n && has_edge(a, w, y) implies before[y - 1] by {
            assert(f.contains(((y - 1) + 1) as usize));
            assert(f.contains((y) as usize));
            let jy = choose|j: int| 0 <= j < f.len() && f[j] == (y) as usize;
            lemma_rev_sources_elem(a, (y) as usize, (w) as usize);
            assert(rev_sources(a, (y) as usize).contains((w) as usize));
            assert(rev_adjacency(a)[y - 1] == rev_sources(a, (y) as usize));
            let kw = choose|k: int|
                0 <= k < rev_adjacency(a)[y - 1].len() && (#[trigger] rev_adjacency(a)[y - 1][k])
                    == (w) as usize;
            assert(rev_adjacency(a)[f[jy] - 1][kw] == (w) as usize);
            if reaches(rev_adjacency(a), (w) as int, (y) as int) {
                assert(has_edge(rev_adjacency(a), y, w)) by {
                    assert(rev_adjacency(a)[y - 1][kw] == (w) as usize);
                }
                assert(false);
            }
            assert(f.take(jy).contains((w) as usize));
            let j2 = choose|j2: int| 0 <= j2 < f.take(jy).len() && f.take(jy)[j2] == (w) as usize;
            assert(f[j2] == (w) as usize);
            assert(f[pos[m]] == (w) as usize);
            assert(j2 == pos[m]);
            assert(history[m][f[jy] - 1]);
        }
        // so nothing beyond the start itself is reachable through
        // unvisited vertices
        assert forall|v: int|
            1 <= v <= n && #[trigger] unexplored_reach(a, before, w, v) implies v == w by {
            let vs = choose|vs: Seq<int>|
                {
                    &&& #[trigger] dwalk_ok(a, vs)
                    &&& vs.first() == w
                    &&& vs.last() == v
                    &&& forall|i: int| 0 <= i < vs.len() ==> !before[#[trigger] vs[i] - 1]
                };
            if vs.len() >= 2 {
                assert(has_edge(a, vs[0], vs[1]));
                assert(before[vs[1] - 1]);
                assert(!before[vs[1] - 1]);
            }
        }
        assert(1 <= w <= n && !before[w - 1]);
        lemma_reach_self(a, before, w);
        assert(after =~= before.update(w - 1, true)) by {
            assert forall|i: int| 0 <= i < n implies after[i] == before.update(w - 1, true)[i] by {
                if i == w - 1 {
                    assert(unexplored_reach(a, before, w, w));
                    assert(after[w - 1]);
                } else {
                    if after[i] && !before[i] {
                        assert(unexplored_reach(a, before, w, i + 1));
                        assert(i + 1 == w);
                        assert(false);
                    }
                }
            }
        }
        lemma_count_update_true(before, w - 1);
    }
    // as many components as vertices
    lemma_run_telescope(a, history, starts, sizes, sizes.len() as int);
    assert(sizes.take(sizes.len() as int) =~= sizes);
    assert(history[0] == Seq::new(a.len(), |i: int| false));
    lemma_count_all_false(history[0]);
    let last = history[sizes.len() as int];
    assert(last == history.last());
    if sizes.len() == 0 {
        assert(count_unexplored(last) == a.len());
        if a.len() > 0 {
            assert(history.last()[0]);
            assert(false);
        }
    } else {
        let m2 = sizes.len() - 1;
        assert(scc_launch(a, history[m2], last, starts[m2], sizes[m2]));
        assert(last.len() == a.len());
        assert forall|i: int| 0 <= i < last.len() implies #[trigger] last[i] by {
            assert(history.last()[i]);
        }
        lemma_count_all_true(last);
    }
    lemma_sum_all_ones(sizes);
}


/// An edge of the reversed structure is an edge of the original,
/// flipped.
proof fn lemma_rev_edge(a: Seq<Seq<usize>>, u: int, v: int)
    requires
        a.len() <= usize::MAX,
        1 <= u <= a.len(),
        1 <= v <= a.len(),
    ensures
        has_edge(rev_adjacency(a), u, v) <==> has_edge(a, v, u),
{
    lemma_rev_sources_elem(a, (u) as usize, (v) as usize);
    assert(rev_adjacency(a)[u - 1] == rev_sources(a, (u) as usize));
    if has_edge(rev_adjacency(a), u, v) {
        let k = choose|k: int|
            0 <= k < rev_adjacency(a)[u - 1].len() && (#[trigger] rev_adjacency(a)[u - 1][k]) == (
            v) as usize;
        assert(rev_sources(a, (u) as usize).contains((v) as usize));
    }
    if has_edge(a, v, u) {
        assert(rev_sources(a, (u) as usize).contains((v) as usize));
        let k = choose|k: int|
            0 <= k < rev_sources(a, (u) as usize).len() && (#[trigger] rev_sources(
                a,
                (u) as usize,
            )[k]) == (v) as usize;
        assert(rev_adjacency(a)[u - 1][k] == (v) as usize);
        assert(has_edge(rev_adjacency(a), u, v));
    }
}

/// Reversing a walk of the reversed structure gives a walk of the
/// original, with the endpoints exchanged.
proof fn lemma_rev_walk(a: Seq<Seq<usize>>, vs: Seq<int>)
    requires
        a.len() <= usize::MAX,
        dwalk_ok(rev_adjacency(a), vs),
    ensures
        dwalk_ok(a, vs.reverse()),
        vs.reverse().first() == vs.last(),
        vs.reverse().last() == vs.first(),
{
    let r = vs.reverse();
    assert(rev_adjacency(a).len() == a.len());
    assert forall|i: int| 0 <= i < r.len() implies 1 <= #[trigger] r[i] <= a.len() by {
        assert(r[i] == vs[vs.len() - 1 - i]);
    }
    assert forall|i: int| 0 <= i < r.len() - 1 implies has_edge(a, #[trigger] r[i], r[i + 1]) by {
        let p = vs.len() - 2 - i;
        assert(r[i] == vs[p + 1] && r[i + 1] == vs[p]);
        assert(has_edge(rev_adjacency(a), vs[p], vs[p + 1]));
        lemma_rev_edge(a, vs[p], vs[p + 1]);
    }
}

/// A graph with no directed cycle has an acyclic reversal.
pub proof fn lemma_acyclic_mirror(a: Seq<Seq<usize>>)
    requires
        a.len() <= usize::MAX,
        acyclic(a),
    ensures
        acyclic(rev_adjacency(a)),
{
    assert forall|u: int, v: int|
        1 <= u <= rev_adjacency(a).len() && 1 <= v <= rev_adjacency(a).len() && #[trigger] has_edge(
            rev_adjacency(a),
            u,
            v,
        ) implies !reaches(rev_adjacency(a), v, u) by {
        lemma_rev_edge(a, u, v);
        assert(has_edge(a, v, u));
        if reaches(rev_adjacency(a), v, u) {
            let vs = choose|vs: Seq<int>|
                #[trigger] dwalk_ok(rev_adjacency(a), vs) && vs.first() == v && vs.last() == u;
            lemma_rev_walk(a, vs);
            assert(reaches(a, u, v));
            assert(!reaches(a, u, v));
        }
    }
}

/// The successor of a vertex around an `n`-cycle.
pub open spec fn cycle_next(n: int, v: int) -> int {
    if v == n {
        1
    } else {
        v + 1
    }
}

/// The graph is one directed cycle: every vertex has exactly one edge,
/// to its successor around the cycle.
pub open spec fn single_cycle(a: Seq<Seq<usize>>) -> bool {
    forall|i: int|
        0 <= i < a.len() ==> ((#[trigger] a[i]).len() == 1 && a[i][0] == cycle_next(
            a.len() as int,
            i + 1,
        ))
}

/// The vertex `i` steps beyond `s` around an `n`-cycle.
spec fn cycle_at(n: int, s: int, i: int) -> int {
    if s + i <= n {
        s + i
    } else {
        s + i - n
    }
}

/// On a cycle with nothing visited, every vertex reaches every vertex:
/// walk forward around the cycle.
proof fn lemma_cycle_reaches_all(a: Seq<Seq<usize>>, marks: Seq<bool>, s: int, v: int)
    requires
        single_cycle(a),
        marks.len() == a.len(),
        forall|i: int| 0 <= i < marks.len() ==> !(#[trigger] marks[i]),
        1 <= s <= a.len(),
        1 <= v <= a.len(),
    ensures
        unexplored_reach(a, marks, s, v),
{
    let n = a.len() as int;
    let d: int = if v >= s {
        v - s
    } else {
        n - s + v
    };
    let vs = Seq::new((d + 1) as nat, |i: int| cycle_at(n, s, i));
    assert(vs[0] == s);
    assert(vs[d] == v);
    assert forall|i: int| 0 <= i < vs.len() implies 1 <= #[trigger] vs[i] <= n by {
        assert(vs[i] == cycle_at(n, s, i));
    }
    assert forall|i: int| 0 <= i < vs.len() - 1 implies has_edge(a, #[trigger] vs[i], vs[i + 1]) by {
        let u = vs[i];
        assert(a[u - 1].len() == 1 && a[u - 1][0] == cycle_next(n, u));
        assert(cycle_next(n, cycle_at(n, s, i)) == cycle_at(n, s, i + 1));
        assert(a[u - 1][0] == vs[i + 1]);
    }
    assert(dwalk_ok(a, vs) && vs.first() == s && vs.last() == v && forall|i: int|
        0 <= i < vs.len() ==> !marks[#[trigger] vs[i] - 1]);
}

/// Scenario law: on a graph that is one directed cycle of `k` vertices,
/// any complete second pass reports exactly one component, of size `k`
/// — the first launch sweeps the whole cycle and leaves nothing for a
/// second.
pub proof fn lemma_single_cycle_one_component(
    a: Seq<Seq<usize>>,
    history: Seq<Seq<bool>>,
    starts: Seq<int>,
    sizes: Seq<usize>,
)
    requires
        single_cycle(a),
        a.len() >= 1,
        kosaraju_run(a, history, starts, sizes),
    ensures
        sizes.len() == 1,
        sizes[0] == a.len(),
{
    let n = a.len() as int;
    assert(history.first() == Seq::new(a.len(), |i: int| false));
    if sizes.len() == 0 {
        assert(history.last() == history[0]);
        assert(history.last()[0]);
        assert(false);
    }
    assert(scc_launch(a, history[0], history[1], starts[0], sizes[0]));
    assert forall|v: int|
        #![trigger history[1][v - 1]]
        1 <= v <= n implies history[1][v - 1] && !history[0][v - 1] by {
        lemma_cycle_reaches_all(a, history[0], starts[0], v);
        assert(unexplored_reach(a, history[0], starts[0], v));
    }
    lemma_count_all_false(history[0]);
    assert forall|i: int| 0 <= i < history[1].len() implies #[trigger] history[1][i] by {
        assert(history[1][(i + 1) - 1]);
    }
    lemma_count_all_true(history[1]);
    assert(sizes[0] == a.len());
    if sizes.len() >= 2 {
        assert(scc_launch(a, history[1], history[2], starts[1], sizes[1]));
        assert(!history[1][starts[1] - 1]);
        assert(false);
    }
}


/// A complete second pass together with the ordering that drives it:
/// there is a finishing order `f` of the reversed graph (with the
/// ordering pass's finish-order property), the launches walk it
/// backwards (`starts[m]` sits at position `pos[m]`), and at each
/// launch every vertex at a later position is already visited.
pub open spec fn kosaraju_pass(
    a: Seq<Seq<usize>>,
    history: Seq<Seq<bool>>,
    starts: Seq<int>,
    sizes: Seq<usize>,
    f: Seq<usize>,
    pos: Seq<int>,
) -> bool {
    &&& kosaraju_run(a, history, starts, sizes)
    &&& f.no_duplicates()
    &&& forall|j: int| 0 <= j < f.len() ==> 1 <= (#[trigger] f[j]) <= a.len()
    &&& forall|i: int| 0 <= i < a.len() ==> f.contains(#[trigger] ((i + 1) as usize))
    &&& forall|j: int, k: int|
        #![trigger rev_adjacency(a)[f[j] - 1][k]]
        0 <= j < f.len() && 0 <= k < rev_adjacency(a)[f[j] - 1].len() ==> (f.take(j).contains(
            rev_adjacency(a)[f[j] - 1][k],
        ) || reaches(rev_adjacency(a), rev_adjacency(a)[f[j] - 1][k] as int, f[j] as int))
    &&& pos.len() == starts.len()
    &&& forall|m: int| 0 <= m < pos.len() ==> 0 <= #[trigger] pos[m] < f.len()
    &&& forall|m: int| 0 <= m < pos.len() ==> starts[m] == (f[#[trigger] pos[m]]) as int
    &&& forall|m: int, j: int|
        #![trigger pos[m], f[j]]
        0 <= m < pos.len() && pos[m] < j < f.len() ==> history[m][f[j] - 1]
}

/// The sum of a sequence of sizes.
pub open spec fn sum_seq(s: Seq<usize>) -> int
    decreases s.len(),
{
    if s.len() == 0 {
        0
    } else {
        sum_seq(s.drop_last()) + s.last()
    }
}

/// Kosaraju's algorithm: the sizes of the graph's strongly connected
/// components, in discovery order. The first pass labels the reversed
/// graph's vertices by finishing time; the second explores the original
/// graph in decreasing finishing time, one component per launch. The
/// contract records the whole second pass: each reported size counts
/// exactly the vertices one launch reaches through then-unvisited
/// vertices, every vertex lands in exactly one launch, so the sizes add
/// up to the number of vertices and no launch is empty.
pub fn kosaraju(source_graph: &DirectedGraph) -> (r: Vec<usize>)
    requires
        source_graph.wf(),
        source_graph.adjacency().len() < usize::MAX,
    ensures
        sum_seq(r@) == source_graph.adjacency().len(),
        forall|i: int| 0 <= i < r@.len() ==> 1 <= (#[trigger] r@[i]),
        exists|history: Seq<Seq<bool>>, starts: Seq<int>|
            kosaraju_run(source_graph.adjacency(), history, starts, r@),
        exists|history: Seq<Seq<bool>>, starts: Seq<int>, f: Seq<usize>, pos: Seq<int>|
            kosaraju_pass(source_graph.adjacency(), history, starts, r@, f, pos),
{
    let ghost n = source_graph.adjacency().len();
    let ghost a = source_graph.adjacency();
    // order the vertices of the reversed graph by finishing time
    let mut rev = source_graph.reversed();
    proof {
        assert(rev.adjacency() =~= rev_adjacency(a));
    }
    let finish = topo_sort(&mut rev);
    proof {
        assert(rev.adjacency() == rev_adjacency(a));
    }
    // rediscover the original graph, unvisited, for the second pass
    let mut work = source_graph.duplicate_structure();
    proof {
        assert(work.explored_seq().len() == n) by {
            assert(work.explored_seq() =~= work.nodes@.map_values(
                |node: Node| node.meta.is_explored,
            ));
            assert(work.adjacency() =~= work.nodes@.map_values(
                |node: Node| node.adjacent_node_ids@,
            ));
        }
        lemma_count_all_false(work.explored_seq());
        assert(work.explored_seq() =~= Seq::new(n as nat, |i: int| false));
    }
    let mut sizes: Vec<usize> = Vec::new();
    let ghost mut history: Seq<Seq<bool>> = seq![work.explored_seq()];
    let ghost mut starts: Seq<int> = Seq::empty();
    let ghost mut pos: Seq<int> = Seq::empty();
    let mut idx = finish.len();
    while idx > 0
        invariant
            idx <= finish@.len(),
            work.wf(),
            work.adjacency() == source_graph.adjacency(),
            a == source_graph.adjacency(),
            n == work.adjacency().len(),
            n < usize::MAX,
            work.explored_seq().len() == n,
            forall|j: int| 0 <= j < finish@.len() ==> 1 <= (#[trigger] finish@[j]) <= n,
            sum_seq(sizes@) + count_unexplored(work.explored_seq()) == n,
            forall|j: int|
                idx <= j < finish@.len() ==> work.explored_seq()[(#[trigger] finish@[j]) - 1],
            forall|i: int| 0 <= i < sizes@.len() ==> 1 <= (#[trigger] sizes@[i]),
            // the ghost log records every launch of the pass so far
            history.len() == sizes@.len() + 1,
            starts.len() == sizes@.len(),
            history.first() == Seq::new(n as nat, |i: int| false),
            history.last() == work.explored_seq(),
            forall|j: int|
                0 <= j < sizes@.len() ==> scc_launch(
                    source_graph.adjacency(),
                    #[trigger] history[j],
                    history[j + 1],
                    starts[j],
                    sizes@[j],
                ),
            // the launches walk the finishing order backwards
            finish@.no_duplicates(),
            forall|i: int| 0 <= i < n ==> finish@.contains(#[trigger] ((i + 1) as usize)),
            forall|j: int, k: int|
                #![trigger rev_adjacency(a)[finish@[j] - 1][k]]
                0 <= j < finish@.len() && 0 <= k < rev_adjacency(a)[finish@[j] - 1].len() ==> (
                finish@.take(j).contains(rev_adjacency(a)[finish@[j] - 1][k]) || reaches(
                    rev_adjacency(a),
                    rev_adjacency(a)[finish@[j] - 1][k] as int,
                    finish@[j] as int,
                )),
            pos.len() == sizes@.len(),
            forall|m: int| 0 <= m < pos.len() ==> 0 <= #[trigger] pos[m] < finish@.len(),
            forall|m: int| 0 <= m < pos.len() ==> starts[m] == (finish@[#[trigger] pos[m]]) as int,
            forall|m: int, j: int|
                #![trigger pos[m], finish@[j]]
                0 <= m < pos.len() && pos[m] < j < finish@.len() ==> history[m][finish@[j] - 1],
        decreases idx,
    {
        idx = idx - 1;
        let node_id = finish[idx];
        if !work.explored_at(node_id - 1) {
            let ghost pre_marks = work.explored_seq();
            proof {
                lemma_count_le_len(pre_marks);
            }
            let number_of_components = dfs_scc(&mut work, node_id, 1);
            let ghost pre_sizes = sizes@;
            proof {
                lemma_count_update_true(pre_marks, node_id - 1);
                lemma_count_pointwise(
                    pre_marks.update(node_id - 1, true),
                    work.explored_seq(),
                );
                assert(number_of_components >= 1);
            }
            sizes.push(number_of_components);
            proof {
                assert(sizes@.drop_last() =~= pre_sizes);
                assert(sum_seq(sizes@) == sum_seq(pre_sizes) + number_of_components);
                assert forall|i: int| 0 <= i < sizes@.len() implies 1 <= (
                #[trigger] sizes@[i]) by {
                    if i < pre_sizes.len() {
                        assert(sizes@[i] == pre_sizes[i]);
                    }
                }
                let ghost pre_history = history;
                let ghost pre_starts = starts;
                let ghost pre_pos = pos;
                history = history.push(work.explored_seq());
                starts = starts.push(node_id as int);
                pos = pos.push(idx as int);
                assert forall|m: int, j: int|
                    #![trigger pos[m], finish@[j]]
                    0 <= m < pos.len() && pos[m] < j < finish@.len() implies history[m][finish@[j]
                    - 1] by {
                    if m < pre_pos.len() {
                        assert(pos[m] == pre_pos[m] && history[m] == pre_history[m]);
                    } else {
                        assert(pos[m] == idx as int && history[m] == pre_marks);
                        assert(pre_marks[(finish@[j]) - 1]);
                    }
                }
                assert(forall|m: int|
                    0 <= m < pos.len() ==> starts[m] == (finish@[#[trigger] pos[m]]) as int) by {
                    assert(forall|m: int| 0 <= m < pre_pos.len() ==> pos[m] == pre_pos[m]
                        && starts[m] == pre_starts[m]);
                    assert(pos[pos.len() - 1] == idx as int && starts[starts.len() - 1]
                        == node_id as int && finish@[idx as int] == node_id);
                }
                assert(scc_launch(
                    source_graph.adjacency(),
                    pre_marks,
                    work.explored_seq(),
                    node_id as int,
                    number_of_components,
                ));
                assert forall|j: int|
                    0 <= j < sizes@.len() implies scc_launch(
                    source_graph.adjacency(),
                    #[trigger] history[j],
                    history[j + 1],
                    starts[j],
                    sizes@[j],
                ) by {
                    if j < pre_sizes.len() {
                        assert(history[j] == pre_history[j] && history[j + 1] == pre_history[j + 1]
                            && starts[j] == pre_starts[j]);
                    } else {
                        assert(history[j] == pre_marks && history[j + 1] == work.explored_seq()
                            && starts[j] == node_id as int && sizes@[j] == number_of_components);
                    }
                }
            }
        }
    }
    proof {
        assert forall|i: int| 0 <= i < n implies work.explored_seq()[i] by {
            assert(finish@.contains((i + 1) as usize));
            let j = choose|j: int| 0 <= j < finish@.len() && finish@[j] == (i + 1) as usize;
            assert(work.explored_seq()[finish@[j] - 1]);
        }
        lemma_count_all_true(work.explored_seq());
        assert(kosaraju_run(source_graph.adjacency(), history, starts, sizes@));
        assert(kosaraju_pass(source_graph.adjacency(), history, starts, sizes@, finish@, pos));
    }
    sizes
}

/// Inserting a value into a descending sequence, before the first
/// element it is not below.
pub open spec fn insert_desc(s: Seq<usize>, x: usize) -> Seq<usize>
    decreases s.len(),
{
    if s.len() == 0 {
        seq![x]
    } else if x >= s[0] {
        seq![x] + s
    } else {
        seq![s[0]] + insert_desc(s.drop_first(), x)
    }
}

/// Sorting into descending order, by insertion.
pub open spec fn sort_desc_spec(s: Seq<usize>) -> Seq<usize>
    decreases s.len(),
{
    if s.len() == 0 {
        Seq::empty()
    } else {
        insert_desc(sort_desc_spec(s.drop_last()), s.last())
    }
}


/// A sequence in descending order.
pub open spec fn sorted_desc(s: Seq<usize>) -> bool {
    forall|i: int, j: int| #![trigger s[i], s[j]] 0 <= i <= j < s.len() ==> s[i] >= s[j]
}

/// The insertion keeps descending order and adds exactly the element.
proof fn lemma_insert_desc_props(s: Seq<usize>, x: usize)
    requires
        sorted_desc(s),
    ensures
        sorted_desc(insert_desc(s, x)),
        insert_desc(s, x).to_multiset() == s.to_multiset().insert(x),
        insert_desc(s, x).len() == s.len() + 1,
    decreases s.len(),
{
    broadcast use vstd::seq_lib::group_to_multiset_ensures, vstd::multiset::group_multiset_axioms;

    vstd::seq_lib::lemma_multiset_commutative(seq![x], s);
    assert(seq![x] =~= Seq::<usize>::empty().push(x));
    assert(seq![x].to_multiset() =~= Multiset::<usize>::empty().insert(x));
    if s.len() == 0 || x >= s[0] {
        let r = seq![x] + s;
        assert(r.to_multiset() =~= s.to_multiset().insert(x));
        assert forall|i: int, j: int|
            #![trigger r[i], r[j]]
            0 <= i <= j < r.len() implies r[i] >= r[j] by {
            if i == 0 && j > 0 {
                assert(r[j] == s[j - 1]);
                assert(s[0] >= s[j - 1]);
            }
        }
    } else {
        let d = s.drop_first();
        assert(sorted_desc(d)) by {
            assert(forall|i: int, j: int|
                #![trigger d[i], d[j]]
                0 <= i <= j < d.len() ==> s[i + 1] >= s[j + 1]);
        }
        lemma_insert_desc_props(d, x);
        let t = insert_desc(d, x);
        let r = seq![s[0]] + t;
        assert(insert_desc(s, x) == r);
        vstd::seq_lib::lemma_multiset_commutative(seq![s[0]], t);
        assert(seq![s[0]] =~= Seq::<usize>::empty().push(s[0]));
        assert(seq![s[0]].to_multiset() =~= Multiset::<usize>::empty().insert(s[0]));
        assert(s =~= seq![s[0]] + d);
        vstd::seq_lib::lemma_multiset_commutative(seq![s[0]], d);
        assert(r.to_multiset() =~= s.to_multiset().insert(x));
        // the head dominates everything inserted behind it
        assert forall|j: int| 0 <= j < t.len() implies s[0] >= #[trigger] t[j] by {
            assert(t.contains(t[j]));
            assert(t.to_multiset().count(t[j]) > 0);
            if t[j] != x {
                assert(d.to_multiset().count(t[j]) > 0);
                assert(d.contains(t[j]));
                let k = choose|k: int| 0 <= k < d.len() && d[k] == t[j];
                assert(s[k + 1] == t[j]);
                assert(s[0] >= s[k + 1]);
            }
        }
        assert forall|i: int, j: int|
            #![trigger r[i], r[j]]
            0 <= i <= j < r.len() implies r[i] >= r[j] by {
            if i == 0 && j > 0 {
                assert(r[j] == t[j - 1]);
            } else if i > 0 {
                assert(r[i] == t[i - 1] && r[j] == t[j - 1]);
            }
        }
    }
}

/// Sorting law: the descending insertion sort yields a descending
/// rearrangement — same multiset of values, in descending order.
pub proof fn lemma_sort_desc_spec_props(s: Seq<usize>)
    ensures
        sorted_desc(sort_desc_spec(s)),
        sort_desc_spec(s).to_multiset() == s.to_multiset(),
        sort_desc_spec(s).len() == s.len(),
    decreases s.len(),
{
    broadcast use vstd::seq_lib::group_to_multiset_ensures;

    if s.len() == 0 {
        assert(sort_desc_spec(s).to_multiset() =~= s.to_multiset());
    } else {
        lemma_sort_desc_spec_props(s.drop_last());
        lemma_insert_desc_props(sort_desc_spec(s.drop_last()), s.last());
        assert(s =~= s.drop_last().push(s.last()));
        assert(s.to_multiset() =~= s.drop_last().to_multiset().insert(s.last()));
    }
}

/// Where the insertion lands: after the elements above `x`, before the
/// rest.
proof fn lemma_insert_desc_at(s: Seq<usize>, x: usize, j: int)
    requires
        0 <= j <= s.len(),
        forall|jj: int| 0 <= jj < j ==> (#[trigger] s[jj]) > x,
        j == s.len() || x >= s[j],
    ensures
        insert_desc(s, x) == s.take(j) + seq![x] + s.skip(j),
    decreases j,
{
    if j == 0 {
        assert(s.take(0) =~= Seq::<usize>::empty());
        assert(s.skip(0) =~= s);
        if s.len() == 0 {
            assert(insert_desc(s, x) =~= s.take(0) + seq![x] + s.skip(0));
        } else {
            assert(x >= s[0]);
            assert(insert_desc(s, x) =~= s.take(0) + seq![x] + s.skip(0));
        }
    } else {
        assert(s[0] > x);
        let d = s.drop_first();
        lemma_insert_desc_at(d, x, j - 1);
        assert(insert_desc(s, x) == seq![s[0]] + (d.take(j - 1) + seq![x] + d.skip(j - 1)));
        assert(seq![s[0]] + (d.take(j - 1) + seq![x] + d.skip(j - 1)) =~= s.take(j) + seq![x]
            + s.skip(j));
    }
}

/// Sorts a copy of the sizes into descending order: a descending
/// rearrangement of the input.
fn sort_desc(v: &Vec<usize>) -> (r: Vec<usize>)
    ensures
        r@ == sort_desc_spec(v@),
        sorted_desc(r@),
        r@.to_multiset() == v@.to_multiset(),
        r@.len() == v@.len(),
{
    proof {
        lemma_sort_desc_spec_props(v@);
    }
    let mut out: Vec<usize> = Vec::new();
    proof {
        assert(v@.take(0) =~= Seq::<usize>::empty());
    }
    let mut i: usize = 0;
    while i < v.len()
        invariant
            i <= v@.len(),
            out@ == sort_desc_spec(v@.take(i as int)),
        decreases v@.len() - i,
    {
        let x = v[i];
        let ghost pre_out = out@;
        let mut j: usize = 0;
        while j < out.len() && out[j] > x
            invariant
                j <= out@.len(),
                out@ == pre_out,
                forall|jj: int| 0 <= jj < j ==> (#[trigger] out@[jj]) > x,
            decreases out@.len() - j,
        {
            j += 1;
        }
        proof {
            lemma_insert_desc_at(pre_out, x, j as int);
        }
        out.insert(j, x);
        proof {
            assert(out@ =~= pre_out.take(j as int) + seq![x] + pre_out.skip(j as int));
            assert(v@.take(i + 1).drop_last() =~= v@.take(i as int));
            assert(v@.take(i + 1).last() == v@[i as int]);
            assert(out@ == sort_desc_spec(v@.take(i + 1)));
        }
        i += 1;
    }
    proof {
        assert(v@.take(v@.len() as int) =~= v@);
    }
    out
}

/// The component-size view handed to callers: the sizes sorted largest
/// first, truncated or zero-padded to the requested count.
pub open spec fn top_k_of(sizes: Seq<usize>, k: int) -> Seq<usize> {
    let sorted = sort_desc_spec(sizes);
    if sorted.len() >= k {
        sorted.take(k)
    } else {
        sorted + Seq::new((k - sorted.len()) as nat, |i: int| 0usize)
    }
}

/// The largest strongly-connected-component sizes of the graph, largest
/// first, truncated or zero-padded to the requested count: the sorted,
/// resized view of the sizes some complete second pass reports.
pub fn top_scc_sizes(graph: &DirectedGraph, count: usize) -> (r: Vec<usize>)
    requires
        graph.wf(),
        graph.adjacency().len() < usize::MAX,
    ensures
        exists|sizes: Seq<usize>, history: Seq<Seq<bool>>, starts: Seq<int>|
            {
                &&& #[trigger] kosaraju_run(graph.adjacency(), history, starts, sizes)
                &&& sum_seq(sizes) == graph.adjacency().len()
                &&& (forall|i: int| 0 <= i < sizes.len() ==> 1 <= (#[trigger] sizes[i]))
                &&& r@ == top_k_of(sizes, count as int)
            },
{
    let vals = kosaraju(graph);
    let sorted = sort_desc(&vals);
    let mut out: Vec<usize> = Vec::new();
    let mut i: usize = 0;
    while i < count
        invariant
            i <= count,
            sorted@ == sort_desc_spec(vals@),
            out@.len() == i,
            forall|j: int|
                0 <= j < i ==> (#[trigger] out@[j]) == if j < sorted@.len() {
                    sorted@[j]
                } else {
                    0usize
                },
        decreases count - i,
    {
        if i < sorted.len() {
            let s = sorted[i];
            out.push(s);
        } else {
            out.push(0);
        }
        i += 1;
    }
    proof {
        assert(out@ =~= top_k_of(vals@, count as int));
        let (history, starts) = choose|history: Seq<Seq<bool>>, starts: Seq<int>|
            kosaraju_run(graph.adjacency(), history, starts, vals@);
        assert({
            &&& kosaraju_run(graph.adjacency(), history, starts, vals@)
            &&& sum_seq(vals@) == graph.adjacency().len()
            &&& (forall|i2: int| 0 <= i2 < vals@.len() ==> 1 <= (#[trigger] vals@[i2]))
            &&& out@ == top_k_of(vals@, count as int)
        });
    }
    out
}

/// The five largest strongly-connected-component sizes, largest first,
/// zero-padded when fewer components exist.
pub fn top_5_scc_sizes(graph: &DirectedGraph) -> (r: Vec<usize>)
    requires
        graph.wf(),
        graph.adjacency().len() < usize::MAX,
    ensures
        exists|sizes: Seq<usize>, history: Seq<Seq<bool>>, starts: Seq<int>|
            {
                &&& #[trigger] kosaraju_run(graph.adjacency(), history, starts, sizes)
                &&& sum_seq(sizes) == graph.adjacency().len()
                &&& (forall|i: int| 0 <= i < sizes.len() ==> 1 <= (#[trigger] sizes[i]))
                &&& r@ == top_k_of(sizes, 5)
            },
{
    top_scc_sizes(graph, 5)
}

/// The edges named by a matrix of `from to` rows.
pub open spec fn matrix_ms(rows: Seq<Vec<usize>>) -> Multiset<(usize, usize)>
    decreases rows.len(),
{
    if rows.len() == 0 {
        Multiset::empty()
    } else {
        matrix_ms(rows.drop_last()).insert((rows.last()@[0], rows.last()@[1]))
    }
}

/// Whether a matrix row can stand for an edge: at least two entries,
/// both valid 1-based vertex ids.
pub open spec fn good_row(row: Vec<usize>) -> bool {
    row@.len() >= 2 && row@[0] >= 1 && row@[1] >= 1
}

impl DirectedGraph {
    /// Builds a graph from a matrix of edges, one `from to` pair per
    /// row, as the edge-list loader hands them over; entries past the
    /// first two are ignored. Rejects a matrix holding a row without
    /// two entries, or naming the invalid vertex id 0.
    pub fn from_matrix(src: &Vec<Vec<usize>>) -> (r: Option<DirectedGraph>)
        ensures
            match r {
                Some(g) => {
                    &&& g.wf()
                    &&& g.fresh_marks()
                    &&& (forall|i: int| 0 <= i < src@.len() ==> good_row(#[trigger] src@[i]))
                    &&& g.edges() == matrix_ms(src@)
                },
                None => exists|i: int| 0 <= i < src@.len() && !good_row(#[trigger] src@[i]),
            },
    {
        let mut graph = DirectedGraph::default();
        let mut i: usize = 0;
        proof {
            assert(matrix_ms(src@.take(0)) =~= Multiset::<(usize, usize)>::empty());
        }
        while i < src.len()
            invariant
                i <= src@.len(),
                graph.wf(),
                graph.fresh_marks(),
                forall|j: int| 0 <= j < i ==> good_row(#[trigger] src@[j]),
                graph.edges() == matrix_ms(src@.take(i as int)),
            decreases src@.len() - i,
        {
            let row = &src[i];
            if row.len() < 2 || row[0] == 0 || row[1] == 0 {
                return None;
            }
            graph.add_edge(row[0], row[1]);
            proof {
                assert(src@.take(i + 1).drop_last() =~= src@.take(i as int));
                assert(src@.take(i + 1).last() == src@[i as int]);
                assert(graph.edges() == matrix_ms(src@.take(i + 1)));
            }
            i += 1;
        }
        proof {
            assert(src@.take(src@.len() as int) =~= src@);
        }
        Some(graph)
    }
}

/// The highest vertex is an endpoint of some edge: its own list is
/// non-empty, or some list holds its id.
spec fn touches_last(a: Seq<Seq<usize>>) -> bool {
    ||| a[a.len() - 1].len() > 0
    ||| exists|i: int, k: int|
        #![trigger a[i][k]]
        0 <= i < a.len() && 0 <= k < a[i].len() && a[i][k] == a.len()
}

} // verus!
