//! A directed graph over string-identified vertices, with cycle detection
//! and topological ordering.
use crate::text::{sort_strings, sorted_le, string_views};
use vstd::prelude::*;

verus! {

/// A node in the graph: a unique string id, a payload value, and the ids of
/// the vertices this vertex points at.
#[derive(Clone)]
pub struct Vertex<T> {
    pub id: String,
    pub value: T,
    pub edges: Vec<String>,
}

/// A directed graph. Vertex ids are unique; edges lead only to existing
/// vertices and are never duplicated.
#[derive(Clone)]
pub struct Graph<T> {
    pub vertices: Vec<Vertex<T>>,
}

/// The outcome of a topological sort: the order (empty when a cycle was
/// found), the cycle flag, and a reconstructed cycle path when one is known.
#[derive(Clone, Debug)]
pub struct SortResult {
    pub sorted_order: Vec<String>,
    pub has_cycle: bool,
    pub cycle_path: Vec<String>,
}

impl<T> Vertex<T> {
    /// Creates a vertex with the given id and payload and no outgoing edges.
    pub fn new(id: String, value: T) -> (v: Vertex<T>)
        ensures
            v.id == id,
            v.value == value,
            v.edges@.len() == 0,
    {
        Vertex { id, value, edges: Vec::new() }
    }
}

impl<T> Graph<T> {
    /// The vertex ids, in insertion order.
    pub open spec fn ids(self) -> Seq<Seq<char>> {
        self.vertices@.map_values(|v: Vertex<T>| v.id@)
    }

    /// Whether a vertex with this id exists.
    pub open spec fn has_vertex(self, id: Seq<char>) -> bool {
        self.ids().contains(id)
    }

    /// The outgoing edge targets of the vertex at index `i`.
    pub open spec fn edge_list(self, i: int) -> Seq<Seq<char>> {
        string_views(self.vertices@[i].edges@)
    }

    /// Whether the graph has an edge from vertex index `i` to vertex index `j`.
    pub open spec fn edge_idx(self, i: int, j: int) -> bool {
        &&& 0 <= i < self.vertices@.len()
        &&& 0 <= j < self.vertices@.len()
        &&& self.edge_list(i).contains(self.ids()[j])
    }

    /// Whether the graph has an edge from the vertex with id `from` to the
    /// vertex with id `to`.
    pub open spec fn has_edge(self, from: Seq<char>, to: Seq<char>) -> bool {
        exists|i: int, j: int|
            #[trigger] self.edge_idx(i, j) && self.ids()[i] == from && self.ids()[j] == to
    }

    /// The graph invariant: ids are unique, no vertex repeats an edge, and
    /// every edge target is an existing vertex.
    pub open spec fn wf(self) -> bool {
        &&& self.ids().no_duplicates()
        &&& forall|i: int|
            0 <= i < self.vertices@.len() ==> (#[trigger] self.edge_list(i)).no_duplicates()
        &&& forall|i: int, k: int|
            0 <= i < self.vertices@.len() && 0 <= k < self.edge_list(i).len() ==> self.ids().contains(
                #[trigger] self.edge_list(i)[k],
            )
    }

    /// Creates an empty graph.
    pub fn new() -> (g: Graph<T>)
        ensures
            g.vertices@.len() == 0,
            g.wf(),
    {
        Graph { vertices: Vec::new() }
    }

    /// Finds the index of the vertex with the given id.
    fn find_index(&self, id: &str) -> (r: Option<usize>)
        ensures
            match r {
                Some(i) => i < self.vertices@.len() && self.ids()[i as int] == id@,
                None => !self.has_vertex(id@),
            },
    {
        let n = self.vertices.len();
        for i in 0..n
            invariant
                n == self.vertices@.len(),
                forall|j: int| 0 <= j < i ==> self.ids()[j] != id@,
        {
            if self.vertices[i].id.as_str().eq(id) {
                return Some(i);
            }
        }
        None
    }

    /// Inserts a vertex if the id is new; a no-op that keeps the existing
    /// payload if a vertex with this id is already present.
    pub fn add_vertex(&mut self, id: String, value: T)
        requires
            old(self).wf(),
        ensures
            final(self).wf(),
            old(self).has_vertex(id@) ==> *final(self) == *old(self),
            !old(self).has_vertex(id@) ==> {
                &&& final(self).vertices@.len() == old(self).vertices@.len() + 1
                &&& final(self).vertices@.subrange(0, old(self).vertices@.len() as int) == old(
                    self,
                ).vertices@
                &&& final(self).ids() == old(self).ids().push(id@)
                &&& final(self).vertices@.last().id@ == id@
                &&& final(self).vertices@.last().value == value
                &&& final(self).vertices@.last().edges@.len() == 0
            },
    {
        if self.find_index(id.as_str()).is_none() {
            let ghost pre = *self;
            self.vertices.push(Vertex::new(id, value));
            proof {
                assert(self.ids() =~= pre.ids().push(self.vertices@.last().id@));
                assert(self.vertices@.subrange(0, pre.vertices@.len() as int) =~= pre.vertices@);
                assert forall|i: int| 0 <= i < self.vertices@.len() implies (
                #[trigger] self.edge_list(i)).no_duplicates() by {
                    if i < pre.vertices@.len() {
                        assert(self.edge_list(i) == pre.edge_list(i));
                    } else {
                        assert(self.edge_list(i) =~= Seq::<Seq<char>>::empty());
                    }
                }
                assert forall|i: int, k: int|
                    0 <= i < self.vertices@.len() && 0 <= k < self.edge_list(i).len() implies self
                    .ids().contains(#[trigger] self.edge_list(i)[k]) by {
                    if i < pre.vertices@.len() {
                        assert(self.edge_list(i) == pre.edge_list(i));
                        assert(pre.ids().contains(pre.edge_list(i)[k]));
                        let w = choose|m: int|
                            0 <= m < pre.ids().len() && pre.ids()[m] == pre.edge_list(i)[k];
                        assert(self.ids()[w] == pre.edge_list(i)[k]);
                    }
                }
            }
        }
    }
}

impl<T> Graph<T> {
    /// How `add_edge` relates the graph after the call (`post`) to the graph
    /// before it (`pre`): when both endpoints exist and the edge is new, it is
    /// appended to the source vertex's edge list and nothing else changes;
    /// otherwise the call is a silent no-op.
    pub open spec fn add_edge_effect(
        pre: Graph<T>,
        post: Graph<T>,
        from: Seq<char>,
        to: Seq<char>,
    ) -> bool {
        if pre.has_vertex(from) && pre.has_vertex(to) && !pre.has_edge(from, to) {
            &&& post.vertices@.len() == pre.vertices@.len()
            &&& post.ids() == pre.ids()
            &&& forall|i: int|
                0 <= i < pre.vertices@.len() ==> post.vertices@[i].value == pre.vertices@[i].value
            &&& forall|i: int|
                0 <= i < pre.vertices@.len() ==> #[trigger] post.edge_list(i) == if pre.ids()[i]
                    == from {
                    pre.edge_list(i).push(to)
                } else {
                    pre.edge_list(i)
                }
        } else {
            post == pre
        }
    }

    /// Adds a directed edge from the vertex with id `from_id` to the vertex
    /// with id `to_id`. A silent no-op when either vertex is missing or the
    /// edge is already present.
    pub fn add_edge(&mut self, from_id: &str, to_id: &str)
        requires
            old(self).wf(),
        ensures
            final(self).wf(),
            Graph::add_edge_effect(*old(self), *final(self), from_id@, to_id@),
    {
        let ghost pre = *self;
        let fi_opt = self.find_index(from_id);
        let ti_opt = self.find_index(to_id);
        if fi_opt.is_none() || ti_opt.is_none() {
            return ;
        }
        let fi = fi_opt.unwrap();
        let ti = ti_opt.unwrap();
        let n_edges = self.vertices[fi].edges.len();
        for k in 0..n_edges
            invariant
                pre.wf(),
                *self == pre,
                fi < self.vertices@.len(),
                ti < self.vertices@.len(),
                self.ids()[fi as int] == from_id@,
                self.ids()[ti as int] == to_id@,
                n_edges == self.edge_list(fi as int).len(),
                forall|m: int| 0 <= m < k ==> self.edge_list(fi as int)[m] != to_id@,
        {
            if self.vertices[fi].edges[k].as_str().eq(to_id) {
                proof {
                    assert(self.edge_list(fi as int)[k as int] == to_id@);
                    assert(self.edge_list(fi as int).contains(self.ids()[ti as int]));
                    assert(self.edge_idx(fi as int, ti as int));
                    assert(self.has_edge(from_id@, to_id@));
                }
                return ;
            }
        }
        proof {
            assert(!pre.edge_list(fi as int).contains(to_id@));
            if pre.has_edge(from_id@, to_id@) {
                let (i, j) = choose|i: int, j: int|
                    #[trigger] pre.edge_idx(i, j) && pre.ids()[i] == from_id@ && pre.ids()[j]
                        == to_id@;
                assert(pre.ids()[i] == pre.ids()[fi as int]);
                // unique ids force the witness onto the vertex we found
                assert(i == fi);
                assert(false);
            }
        }
        self.vertices[fi].edges.push(to_id.to_owned());
        proof {
            assert forall|i: int| 0 <= i < pre.vertices@.len() implies #[trigger] self.edge_list(i)
                == if pre.ids()[i] == from_id@ {
                pre.edge_list(i).push(to_id@)
            } else {
                pre.edge_list(i)
            } by {
                if i == fi {
                    assert(self.edge_list(i) =~= pre.edge_list(i).push(to_id@));
                } else {
                    assert(self.edge_list(i) == pre.edge_list(i));
                    assert(pre.ids()[i] != pre.ids()[fi as int]);
                }
            }
            assert(self.ids() =~= pre.ids());
            assert forall|i: int| 0 <= i < self.vertices@.len() implies (
            #[trigger] self.edge_list(i)).no_duplicates() by {
                if i == fi {
                    assert(self.edge_list(i) == pre.edge_list(i).push(to_id@));
                } else {
                    assert(self.edge_list(i) == pre.edge_list(i));
                }
            }
            assert forall|i: int, k: int|
                0 <= i < self.vertices@.len() && 0 <= k < self.edge_list(i).len() implies self.ids()
                .contains(#[trigger] self.edge_list(i)[k]) by {
                if i == fi && k == self.edge_list(i).len() - 1 {
                    assert(self.ids()[ti as int] == to_id@);
                } else {
                    assert(self.edge_list(i)[k] == pre.edge_list(i)[k]);
                    assert(pre.ids().contains(pre.edge_list(i)[k]));
                }
            }
        }
    }

    /// Returns the vertex with the given id, if it exists.
    pub fn get_vertex(&self, id: &str) -> (r: Option<&Vertex<T>>)
        ensures
            match r {
                Some(v) => exists|i: int|
                    0 <= i < self.vertices@.len() && self.vertices@[i] == *v && (
                    #[trigger] self.ids()[i]) == id@,
                None => !self.has_vertex(id@),
            },
    {
        match self.find_index(id) {
            Some(i) => Some(&self.vertices[i]),
            None => None,
        }
    }

    /// Returns the payload of the vertex with the given id, if it exists.
    pub fn get_value(&self, id: &str) -> (r: Option<&T>)
        ensures
            match r {
                Some(t) => exists|i: int|
                    0 <= i < self.vertices@.len() && self.vertices@[i].value == *t && (
                    #[trigger] self.ids()[i]) == id@,
                None => !self.has_vertex(id@),
            },
    {
        match self.find_index(id) {
            Some(i) => Some(&self.vertices[i].value),
            None => None,
        }
    }
}

impl<T> Graph<T> {
    /// The number of vertices.
    pub open spec fn vcount(self) -> int {
        self.vertices@.len() as int
    }

    /// The index of the vertex that edge `m` of vertex `u` points at.
    pub open spec fn edge_target(self, u: int, m: int) -> int {
        self.ids().index_of(self.edge_list(u)[m])
    }

    /// The vertices among `0 <= i < upto` with an edge into `j`.
    pub open spec fn preds_upto(self, upto: int, j: int) -> Set<int> {
        Set::new(|i: int| 0 <= i < upto && self.edge_idx(i, j))
    }

    /// The vertices outside `excl` with an edge into `j`.
    pub open spec fn preds_outside(self, excl: Set<int>, j: int) -> Set<int> {
        Set::new(|i: int| 0 <= i < self.vcount() && !excl.contains(i) && self.edge_idx(i, j))
    }

    /// A valid topological order over vertex indices: every index once, and
    /// every edge goes from an earlier to a later position.
    pub open spec fn valid_topo_order_idx(self, ord: Seq<int>) -> bool {
        &&& ord.no_duplicates()
        &&& ord.len() == self.vcount()
        &&& forall|m: int| 0 <= m < ord.len() ==> 0 <= #[trigger] ord[m] < self.vcount()
        &&& forall|p: int, q: int|
            0 <= p < ord.len() && 0 <= q < ord.len() && #[trigger] self.edge_idx(ord[p], ord[q])
                ==> p < q
    }

    /// A valid topological order over vertex ids: every id exactly once, and
    /// every edge goes from an earlier to a later position.
    pub open spec fn valid_topo_order(self, order: Seq<Seq<char>>) -> bool {
        &&& order.no_duplicates()
        &&& order.to_set() == self.ids().to_set()
        &&& forall|p: int, q: int|
            0 <= p < order.len() && 0 <= q < order.len() && #[trigger] self.has_edge(
                order[p],
                order[q],
            ) ==> p < q
    }

    /// A walk along edges: every consecutive pair is an edge of the graph.
    pub open spec fn is_chain(self, path: Seq<Seq<char>>) -> bool {
        forall|m: int| 0 <= m < path.len() - 1 ==> #[trigger] self.has_edge(path[m], path[m + 1])
    }

    /// A cycle written as a path: at least one edge, closed, every step an edge.
    pub open spec fn is_cycle(self, path: Seq<Seq<char>>) -> bool {
        &&& path.len() >= 2
        &&& path.first() == path.last()
        &&& self.is_chain(path)
    }

    /// Whether the graph contains any cycle.
    pub open spec fn is_cyclic(self) -> bool {
        exists|path: Seq<Seq<char>>| self.is_cycle(path)
    }

    /// Basic facts about an edge's target index in a well-formed graph.
    proof fn lemma_edge_target(self, u: int, m: int)
        requires
            self.wf(),
            0 <= u < self.vcount(),
            0 <= m < self.edge_list(u).len(),
        ensures
            0 <= self.edge_target(u, m) < self.vcount(),
            self.ids()[self.edge_target(u, m)] == self.edge_list(u)[m],
            self.edge_idx(u, self.edge_target(u, m)),
    {
        assert(self.ids().contains(self.edge_list(u)[m]));
        let t = self.edge_target(u, m);
        assert(0 <= t < self.ids().len() && self.ids()[t] == self.edge_list(u)[m]);
    }

    /// In a well-formed graph, distinct edges of one vertex point at distinct
    /// vertices, and `edge_idx(u, j)` holds exactly when some edge of `u`
    /// points at `j`.
    proof fn lemma_edge_targets_distinct(self, u: int)
        requires
            self.wf(),
            0 <= u < self.vcount(),
        ensures
            forall|m1: int, m2: int|
                0 <= m1 < self.edge_list(u).len() && 0 <= m2 < self.edge_list(u).len() && m1 != m2
                    ==> #[trigger] self.edge_target(u, m1) != #[trigger] self.edge_target(u, m2),
            forall|j: int|
                #[trigger] self.edge_idx(u, j) <==> exists|m: int|
                    0 <= m < self.edge_list(u).len() && #[trigger] self.edge_target(u, m) == j,
    {
        assert forall|m1: int, m2: int|
            0 <= m1 < self.edge_list(u).len() && 0 <= m2 < self.edge_list(u).len() && m1
                != m2 implies #[trigger] self.edge_target(u, m1) != #[trigger] self.edge_target(
            u,
            m2,
        ) by {
            self.lemma_edge_target(u, m1);
            self.lemma_edge_target(u, m2);
        }
        assert forall|j: int| #[trigger] self.edge_idx(u, j) implies exists|m: int|
            0 <= m < self.edge_list(u).len() && #[trigger] self.edge_target(u, m) == j by {
            let m = choose|m: int|
                0 <= m < self.edge_list(u).len() && self.edge_list(u)[m] == self.ids()[j];
            self.lemma_edge_target(u, m);
            assert(self.ids()[self.edge_target(u, m)] == self.ids()[j]);
            // unique ids force the target onto j
            assert(self.edge_target(u, m) == j);
        }
        assert forall|j: int|
            exists|m: int|
                0 <= m < self.edge_list(u).len() && #[trigger] self.edge_target(u, m)
                    == j implies #[trigger] self.edge_idx(u, j) by {
            let m = choose|m: int|
                0 <= m < self.edge_list(u).len() && #[trigger] self.edge_target(u, m) == j;
            self.lemma_edge_target(u, m);
        }
    }

    /// The predecessor sets are finite and no larger than the vertex count.
    proof fn lemma_preds_card(self, excl: Set<int>, j: int)
        ensures
            self.preds_outside(excl, j).finite(),
            self.preds_outside(excl, j).len() <= self.vcount(),
    {
        let s = self.preds_outside(excl, j);
        vstd::set_lib::lemma_int_range(0, self.vcount());
        assert(s.subset_of(vstd::set_lib::set_int_range(0, self.vcount())));
        vstd::set_lib::lemma_len_subset(s, vstd::set_lib::set_int_range(0, self.vcount()));
    }
}

impl<T> Graph<T> {
    /// Whether one of the first `k` edges of vertex `u` points at `j`.
    pub open spec fn scanned_hit(self, u: int, k: int, j: int) -> bool {
        exists|m: int|
            0 <= m < k && m < self.edge_list(u).len() && #[trigger] self.edge_target(u, m) == j
    }

    /// `preds_upto` is finite and bounded by its range.
    proof fn lemma_preds_upto_card(self, upto: int, j: int)
        requires
            0 <= upto,
        ensures
            self.preds_upto(upto, j).finite(),
            self.preds_upto(upto, j).len() <= upto,
    {
        let s = self.preds_upto(upto, j);
        vstd::set_lib::lemma_int_range(0, upto);
        assert(s.subset_of(vstd::set_lib::set_int_range(0, upto)));
        vstd::set_lib::lemma_len_subset(s, vstd::set_lib::set_int_range(0, upto));
    }

    /// Computes the in-degree of every vertex: the number of vertices with an
    /// edge pointing at it.
    fn in_degrees(&self) -> (indeg: Vec<usize>)
        requires
            self.wf(),
        ensures
            indeg@.len() == self.vcount(),
            forall|j: int|
                0 <= j < self.vcount() ==> #[trigger] indeg@[j] == self.preds_upto(
                    self.vcount(),
                    j,
                ).len(),
    {
        let n = self.vertices.len();
        let mut indeg: Vec<usize> = vec![0; n];
        proof {
            assert forall|j: int| 0 <= j < n implies #[trigger] indeg@[j] == self.preds_upto(
                0,
                j,
            ).len() by {
                assert(self.preds_upto(0, j) =~= Set::<int>::empty());
            }
        }
        for i in 0..n
            invariant
                self.wf(),
                n == self.vcount(),
                indeg@.len() == n,
                forall|j: int|
                    0 <= j < n ==> #[trigger] indeg@[j] == self.preds_upto(i as int, j).len(),
        {
            let deg = self.vertices[i].edges.len();
            for k in 0..deg
                invariant
                    self.wf(),
                    n == self.vcount(),
                    i < n,
                    deg == self.edge_list(i as int).len(),
                    indeg@.len() == n,
                    forall|j: int|
                        0 <= j < n ==> #[trigger] indeg@[j] == self.preds_upto(i as int, j).len()
                            + (if self.scanned_hit(i as int, k as int, j) {
                            1int
                        } else {
                            0int
                        }),
            {
                let edge = &self.vertices[i].edges[k];
                proof {
                    assert(self.edge_list(i as int)[k as int] == edge@);
                    assert(self.ids().contains(edge@));
                }
                let t = self.find_index(edge.as_str()).unwrap();
                proof {
                    self.lemma_edge_target(i as int, k as int);
                    self.lemma_edge_targets_distinct(i as int);
                    // unique ids force the found index onto the edge's target
                    assert(self.ids()[t as int] == self.ids()[self.edge_target(
                        i as int,
                        k as int,
                    )]);
                    assert(t as int == self.edge_target(i as int, k as int));
                    assert(!self.scanned_hit(i as int, k as int, t as int));
                    self.lemma_preds_upto_card(i as int, t as int);
                }
                let cur = indeg[t];
                indeg[t] = cur + 1;
                proof {
                    let ghost gi = i as int;
                    let ghost gk = k as int;
                    let ghost gt = t as int;
                    assert(self.scanned_hit(gi, gk + 1, gt));
                    assert forall|j: int| 0 <= j < n implies #[trigger] indeg@[j]
                        == self.preds_upto(gi, j).len() + (if self.scanned_hit(gi, gk + 1, j) {
                        1int
                    } else {
                        0int
                    }) by {
                        if j != gt {
                            assert(self.scanned_hit(gi, gk + 1, j) == self.scanned_hit(gi, gk, j));
                        }
                    }
                }
            }
            proof {
                let ghost gi = i as int;
                assert forall|j: int| 0 <= j < n implies self.preds_upto(gi + 1, j).len() == (
                #[trigger] self.preds_upto(gi, j).len() + (if self.scanned_hit(gi, deg as int, j) {
                    1int
                } else {
                    0int
                })) by {
                    self.lemma_edge_targets_distinct(gi);
                    self.lemma_preds_upto_card(gi, j);
                    if self.edge_idx(gi, j) {
                        assert(self.scanned_hit(gi, deg as int, j));
                        assert(self.preds_upto(gi + 1, j) =~= self.preds_upto(gi, j).insert(gi));
                        assert(!self.preds_upto(gi, j).contains(gi));
                    } else {
                        if self.scanned_hit(gi, deg as int, j) {
                            let m = choose|m: int|
                                0 <= m < deg && m < self.edge_list(gi).len()
                                    && #[trigger] self.edge_target(gi, m) == j;
                            assert(self.edge_idx(gi, j));
                        }
                        assert(self.preds_upto(gi + 1, j) =~= self.preds_upto(gi, j));
                    }
                }
            }
        }
        indeg
    }
}

/// The indices held by a list of `usize` values, as a set of `int`.
pub open spec fn idx_set(s: Seq<usize>) -> Set<int> {
    s.map_values(|x: usize| x as int).to_set()
}

/// A duplicate-free list of indices below `n` has at most `n` entries, and
/// its index set has exactly as many elements as the list.
proof fn lemma_usize_seq_card(s: Seq<usize>, n: int)
    requires
        s.no_duplicates(),
        forall|m: int| 0 <= m < s.len() ==> (#[trigger] s[m]) < n,
        0 <= n,
    ensures
        s.len() <= n,
        idx_set(s).finite(),
        idx_set(s).len() == s.len(),
{
    broadcast use vstd::seq_lib::seq_to_set_is_finite;

    let mapped = s.map_values(|x: usize| x as int);
    assert(mapped.no_duplicates());
    mapped.unique_seq_to_set();
    vstd::set_lib::lemma_int_range(0, n);
    assert(idx_set(s).subset_of(vstd::set_lib::set_int_range(0, n)));
    vstd::set_lib::lemma_len_subset(idx_set(s), vstd::set_lib::set_int_range(0, n));
}

impl<T> Graph<T> {
    /// Whether one of the edges of vertex `u` from position `k` on points at `j`.
    pub open spec fn remaining_hit(self, u: int, k: int, j: int) -> bool {
        exists|m: int|
            k <= m < self.edge_list(u).len() && #[trigger] self.edge_target(u, m) == j
    }

    /// Every vertex outside `excl` has a predecessor outside `excl`.
    pub open spec fn all_have_outside_pred(self, excl: Set<int>) -> bool {
        forall|j: int|
            0 <= j < self.vcount() && !excl.contains(j) ==> exists|i: int|
                0 <= i < self.vcount() && !excl.contains(i) && #[trigger] self.edge_idx(i, j)
    }

    /// Builds a walk of `steps` edges taken backwards: each entry has an edge
    /// into the one before it, and every entry stays outside `excl`.
    #[verifier::spinoff_prover]
    proof fn build_walk(self, excl: Set<int>, j0: int, steps: nat) -> (w: Seq<int>)
        requires
            0 <= j0 < self.vcount(),
            !excl.contains(j0),
            self.all_have_outside_pred(excl),
        ensures
            w.len() == steps + 1,
            w[0] == j0,
            forall|m: int| #![trigger w[m]] 0 <= m < w.len() ==> 0 <= w[m] < self.vcount(),
            forall|m: int| #![trigger w[m]] 0 <= m < w.len() ==> !excl.contains(w[m]),
            forall|m: int| #![trigger w[m]] 0 <= m < w.len() - 1 ==> self.edge_idx(w[m + 1], w[m]),
        decreases steps,
    {
        if steps == 0 {
            seq![j0]
        } else {
            let prev = self.build_walk(excl, j0, (steps - 1) as nat);
            let lastv = prev.last();
            let i = choose|i: int|
                0 <= i < self.vcount() && !excl.contains(i) && #[trigger] self.edge_idx(i, lastv);
            prev.push(i)
        }
    }

    /// A list of more than `n` indices below `n` repeats one of them.
    proof fn lemma_walk_has_dup(self, w: Seq<int>)
        requires
            forall|m: int| 0 <= m < w.len() ==> 0 <= #[trigger] w[m] < self.vcount(),
            w.len() > self.vcount(),
        ensures
            exists|a: int, b: int| 0 <= a < b < w.len() && w[a] == w[b],
    {
        broadcast use vstd::seq_lib::seq_to_set_is_finite;

        if w.no_duplicates() {
            w.unique_seq_to_set();
            vstd::set_lib::lemma_int_range(0, self.vcount());
            assert(w.to_set().subset_of(vstd::set_lib::set_int_range(0, self.vcount())));
            vstd::set_lib::lemma_len_subset(
                w.to_set(),
                vstd::set_lib::set_int_range(0, self.vcount()),
            );
            assert(false);
        } else {
            let (i, j) = choose|i: int, j: int|
                0 <= i < w.len() && 0 <= j < w.len() && i != j && #[trigger] w[i]
                    == #[trigger] w[j];
            if i < j {
                assert(0 <= i < j < w.len() && w[i] == w[j]);
            } else {
                assert(0 <= j < i < w.len() && w[j] == w[i]);
            }
        }
    }

    /// If every vertex outside `excl` has a predecessor outside `excl` and at
    /// least one vertex lies outside `excl`, the graph has a cycle.
    /// A closed walk taken backwards along edges yields a cycle.
    proof fn lemma_cycle_from_walk(self, w: Seq<int>, a: int, b: int)
        requires
            self.wf(),
            forall|m: int| #![trigger w[m]] 0 <= m < w.len() ==> 0 <= w[m] < self.vcount(),
            forall|m: int| #![trigger w[m]] 0 <= m < w.len() - 1 ==> self.edge_idx(w[m + 1], w[m]),
            0 <= a < b < w.len(),
            w[a] == w[b],
        ensures
            self.is_cyclic(),
    {
        let path = Seq::new((b - a + 1) as nat, |x: int| self.ids()[w[b - x]]);
        assert(path.len() >= 2);
        assert(path.first() == self.ids()[w[b]]);
        assert(path.last() == self.ids()[w[a]]);
        assert(path.first() == path.last());
        assert forall|x: int| 0 <= x < path.len() - 1 implies #[trigger] self.has_edge(
            path[x],
            path[x + 1],
        ) by {
            let m = b - x - 1;
            assert(0 <= m < w.len() - 1);
            assert(self.edge_idx(w[m + 1], w[m]));
            assert(w[m + 1] == w[b - x]);
            assert(path[x] == self.ids()[w[b - x]]);
            assert(path[x + 1] == self.ids()[w[m]]);
            assert(self.edge_idx(w[b - x], w[m]) && self.ids()[w[b - x]] == path[x]
                && self.ids()[w[m]] == path[x + 1]);
        }
        assert(self.is_cycle(path));
    }

    /// If every vertex outside `excl` has a predecessor outside `excl` and at
    /// least one vertex lies outside `excl`, the graph has a cycle.
    #[verifier::spinoff_prover]
    #[verifier::rlimit(100)]
    proof fn lemma_stuck_implies_cycle(self, excl: Set<int>, j0: int)
        requires
            self.wf(),
            0 <= j0 < self.vcount(),
            !excl.contains(j0),
            self.all_have_outside_pred(excl),
        ensures
            self.is_cyclic(),
    {
        let n = self.vcount();
        let w = self.build_walk(excl, j0, n as nat);
        self.lemma_walk_has_dup(w);
        let (a, b) = choose|a: int, b: int| 0 <= a < b < w.len() && w[a] == w[b];
        self.lemma_cycle_from_walk(w, a, b);
    }
}

impl<T> Graph<T> {
    /// In a valid topological order, the start of any walk along edges comes
    /// strictly before its end. In particular, reversing such an order puts
    /// every vertex after everything reachable from it, so every assembly
    /// comes after every assembly it transitively requires.
    pub proof fn lemma_order_respects_chain(
        self,
        order: Seq<Seq<char>>,
        path: Seq<Seq<char>>,
    )
        requires
            self.wf(),
            self.valid_topo_order(order),
            self.is_chain(path),
            path.len() >= 2,
        ensures
            order.index_of(path.first()) < order.index_of(path.last()),
        decreases path.len(),
    {
        let last_edge_from = path[path.len() - 2];
        let last_edge_to = path[path.len() - 1];
        assert(self.has_edge(path[path.len() - 2], path[path.len() - 2 + 1]));
        assert(self.has_edge(last_edge_from, last_edge_to));
        let (i, j) = choose|i: int, j: int|
            #[trigger] self.edge_idx(i, j) && self.ids()[i] == last_edge_from && self.ids()[j]
                == last_edge_to;
        assert(order.to_set().contains(last_edge_from)) by {
            assert(self.ids().contains(last_edge_from));
        }
        assert(order.to_set().contains(last_edge_to)) by {
            assert(self.ids().contains(last_edge_to));
        }
        let p = order.index_of(last_edge_from);
        let q = order.index_of(last_edge_to);
        assert(order.contains(last_edge_from) && order.contains(last_edge_to));
        assert(0 <= p < order.len() && order[p] == last_edge_from);
        assert(0 <= q < order.len() && order[q] == last_edge_to);
        assert(self.has_edge(order[p], order[q]));
        assert(p < q);
        if path.len() == 2 {
        } else {
            let shorter = path.drop_last();
            assert(shorter.len() >= 2);
            assert(self.is_chain(shorter)) by {
                assert forall|m: int| 0 <= m < shorter.len() - 1 implies #[trigger] self.has_edge(
                    shorter[m],
                    shorter[m + 1],
                ) by {
                    assert(shorter[m] == path[m] && shorter[m + 1] == path[m + 1]);
                }
            }
            self.lemma_order_respects_chain(order, shorter);
            assert(shorter.first() == path.first());
            assert(shorter.last() == last_edge_from);
        }
    }

    /// A graph with a valid topological order has no cycle.
    proof fn lemma_order_excludes_cycles(self, order: Seq<Seq<char>>)
        requires
            self.wf(),
            self.valid_topo_order(order),
        ensures
            !self.is_cyclic(),
    {
        if self.is_cyclic() {
            let path = choose|path: Seq<Seq<char>>| self.is_cycle(path);
            self.lemma_order_respects_chain(order, path);
            assert(path.first() == path.last());
            assert(false);
        }
    }
}

/// Extracts a position witnessing membership in a list's index set.
proof fn lemma_idx_set_member(s: Seq<usize>, i: int) -> (m: int)
    requires
        idx_set(s).contains(i),
    ensures
        0 <= m < s.len() && s[m] as int == i,
{
    let mv = s.map_values(|v: usize| v as int);
    let m = choose|m: int| 0 <= m < mv.len() && mv[m] == i;
    m
}

/// Every entry of a list belongs to its index set.
proof fn lemma_idx_set_has(s: Seq<usize>, m: int)
    requires
        0 <= m < s.len(),
    ensures
        idx_set(s).contains(s[m] as int),
{
    let mv = s.map_values(|v: usize| v as int);
    assert(mv[m] == s[m] as int);
    assert(mv.contains(s[m] as int));
}

/// Appending an index to a list inserts it into the list's index set.
proof fn lemma_idx_set_push(s: Seq<usize>, x: usize)
    ensures
        idx_set(s.push(x)) =~= idx_set(s).insert(x as int),
{
    let f = |v: usize| v as int;
    assert(s.push(x).map_values(f) =~= s.map_values(f).push(x as int));
    assert forall|e: int| idx_set(s.push(x)).contains(e) implies idx_set(s).insert(
        x as int,
    ).contains(e) by {
        let m = choose|m: int|
            0 <= m < s.push(x).map_values(f).len() && s.push(x).map_values(f)[m] == e;
        if m < s.len() {
            assert(s.map_values(f)[m] == e);
        }
    }
    assert forall|e: int| idx_set(s).insert(x as int).contains(e) implies idx_set(
        s.push(x),
    ).contains(e) by {
        if e == x as int {
            assert(s.push(x).map_values(f)[s.len() as int] == e);
        } else {
            let m = choose|m: int| 0 <= m < s.map_values(f).len() && s.map_values(f)[m] == e;
            assert(s.push(x).map_values(f)[m] == e);
        }
    }
}

impl<T> Graph<T> {
    /// Kahn's worklist pass: repeatedly emits a vertex whose remaining
    /// in-degree is zero, lowering the in-degrees of its targets. Returns the
    /// ids in the order they were emitted, and whether every vertex was
    /// emitted; when some vertex was not, the graph has a cycle.
    #[verifier::spinoff_prover]
    #[verifier::rlimit(60)]
    fn kahn_order(&self) -> (r: (Vec<String>, bool))
        requires
            self.wf(),
        ensures
            r.1 ==> self.valid_topo_order(string_views(r.0@)),
            !r.1 ==> self.is_cyclic(),
    {
        broadcast use vstd::seq_lib::seq_to_set_is_finite;

        let n = self.vertices.len();
        let mut indeg = self.in_degrees();
        proof {
            assert forall|t: int| 0 <= t < n implies #[trigger] indeg@[t] == self.preds_outside(
                Set::<int>::empty(),
                t,
            ).len() by {
                assert(self.preds_upto(n as int, t) =~= self.preds_outside(Set::<int>::empty(), t));
            }
        }
        let mut queue: Vec<usize> = Vec::new();
        for j in 0..n
            invariant
                self.wf(),
                n == self.vcount(),
                indeg@.len() == n,
                forall|t: int|
                    0 <= t < n ==> #[trigger] indeg@[t] == self.preds_outside(
                        Set::<int>::empty(),
                        t,
                    ).len(),
                forall|p: int| 0 <= p < queue@.len() ==> (#[trigger] queue@[p]) < j,
                queue@.no_duplicates(),
                forall|p: int| 0 <= p < queue@.len() ==> indeg@[#[trigger] queue@[p] as int] == 0,
                forall|t: int|
                    0 <= t < j && #[trigger] indeg@[t] == 0 ==> idx_set(queue@).contains(t),
        {
            if indeg[j] == 0 {
                let ghost q0 = queue@;
                queue.push(j);
                proof {
                    lemma_idx_set_push(q0, j);
                    assert forall|t: int|
                        0 <= t < j + 1 && #[trigger] indeg@[t] == 0 implies idx_set(
                        queue@,
                    ).contains(t) by {
                        if t < j {
                            assert(idx_set(q0).contains(t));
                        }
                    }
                }
            } else {
                proof {
                    lemma_idx_set_push(queue@, j as usize);
                }
            }
        }
        let mut order_idx: Vec<usize> = Vec::new();
        proof {
            assert(idx_set(order_idx@) =~= Set::<int>::empty());
            assert forall|t: int| 0 <= t < n implies #[trigger] indeg@[t] == self.preds_outside(
                idx_set(order_idx@),
                t,
            ).len() by {
                assert(self.preds_outside(idx_set(order_idx@), t) =~= self.preds_outside(
                    Set::<int>::empty(),
                    t,
                ));
            }
        }
        while queue.len() > 0
            invariant
                self.wf(),
                n == self.vcount(),
                indeg@.len() == n,
                forall|m: int| 0 <= m < order_idx@.len() ==> (#[trigger] order_idx@[m]) < n,
                forall|p: int| 0 <= p < queue@.len() ==> (#[trigger] queue@[p]) < n,
                order_idx@.no_duplicates(),
                queue@.no_duplicates(),
                forall|m: int, p: int|
                    0 <= m < order_idx@.len() && 0 <= p < queue@.len() ==> (
                    #[trigger] order_idx@[m]) != (#[trigger] queue@[p]),
                forall|t: int|
                    0 <= t < n ==> #[trigger] indeg@[t] == self.preds_outside(
                        idx_set(order_idx@),
                        t,
                    ).len(),
                forall|p: int| 0 <= p < queue@.len() ==> indeg@[#[trigger] queue@[p] as int] == 0,
                forall|t: int|
                    0 <= t < n && #[trigger] indeg@[t] == 0 ==> idx_set(order_idx@).contains(t)
                        || idx_set(queue@).contains(t),
                forall|m: int, i: int|
                    0 <= m < order_idx@.len() && #[trigger] self.edge_idx(i, order_idx@[m] as int)
                        ==> exists|q: int| 0 <= q < m && order_idx@[q] as int == i,
            decreases n - order_idx@.len(),
        {
            proof {
                lemma_usize_seq_card(order_idx@.push(queue@[0]), n as int);
            }
            let ghost done0 = order_idx@;
            let ghost queue0 = queue@;
            let u = queue.remove(0);
            order_idx.push(u);
            proof {
                self.lemma_edge_targets_distinct(u as int);
                lemma_idx_set_push(done0, u);
                assert(!idx_set(done0).contains(u as int));
                // a self-edge would have kept u's in-degree positive
                assert(!self.edge_idx(u as int, u as int)) by {
                    if self.edge_idx(u as int, u as int) {
                        let s = self.preds_outside(idx_set(done0), u as int);
                        assert(s.contains(u as int));
                        self.lemma_preds_card(idx_set(done0), u as int);
                        assert(indeg@[u as int] == 0);
                        s.lemma_len0_is_empty();
                        assert(!s.contains(u as int));
                    }
                }
                assert forall|t: int| 0 <= t < n implies #[trigger] indeg@[t]
                    == self.preds_outside(idx_set(order_idx@), t).len() + (
                if self.remaining_hit(u as int, 0, t) {
                    1int
                } else {
                    0int
                }) by {
                    let s0 = self.preds_outside(idx_set(done0), t);
                    let s1 = self.preds_outside(idx_set(order_idx@), t);
                    self.lemma_preds_card(idx_set(done0), t);
                    assert(s1 =~= s0.remove(u as int));
                    if self.edge_idx(u as int, t) {
                        assert(s0.contains(u as int));
                        assert(s1.len() == s0.len() - 1);
                        assert(self.remaining_hit(u as int, 0, t));
                    } else {
                        assert(s1 =~= s0);
                        assert(!self.remaining_hit(u as int, 0, t)) by {
                            if self.remaining_hit(u as int, 0, t) {
                                let m = choose|m: int|
                                    0 <= m < self.edge_list(u as int).len()
                                        && #[trigger] self.edge_target(u as int, m) == t;
                                assert(self.edge_idx(u as int, t));
                            }
                        }
                    }
                }
                // every in-edge of u comes from an already emitted vertex
                assert forall|i: int| #[trigger] self.edge_idx(i, u as int) implies exists|q: int|
                    0 <= q < done0.len() && done0[q] as int == i by {
                    let s = self.preds_outside(idx_set(done0), u as int);
                    self.lemma_preds_card(idx_set(done0), u as int);
                    assert(s.len() == 0);
                    s.lemma_len0_is_empty();
                    assert(!s.contains(i));
                    assert(idx_set(done0).contains(i));
                    let q = lemma_idx_set_member(done0, i);
                    assert(done0[q] as int == i);
                }
                assert forall|m: int, i: int|
                    0 <= m < order_idx@.len() && #[trigger] self.edge_idx(
                        i,
                        order_idx@[m] as int,
                    ) implies exists|q: int| 0 <= q < m && order_idx@[q] as int == i by {
                    if m < done0.len() {
                        assert(self.edge_idx(i, done0[m] as int));
                        let q = choose|q: int| 0 <= q < m && done0[q] as int == i;
                        assert(order_idx@[q] as int == i);
                    } else {
                        let q = choose|q: int| 0 <= q < done0.len() && done0[q] as int == i;
                        assert(order_idx@[q] as int == i);
                    }
                }
            }
            proof {
                assert forall|t: int| 0 <= t < n && #[trigger] indeg@[t] == 0 implies idx_set(
                    order_idx@,
                ).contains(t) || idx_set(queue@).contains(t) by {
                    if idx_set(done0).contains(t) {
                        lemma_idx_set_push(done0, u);
                    } else if idx_set(queue0).contains(t) {
                        let p = lemma_idx_set_member(queue0, t);
                        if p == 0 {
                            lemma_idx_set_has(order_idx@, done0.len() as int);
                        } else {
                            assert(queue@[p - 1] == queue0[p]);
                            lemma_idx_set_has(queue@, p - 1);
                        }
                    }
                }
            }
            let deg = self.vertices[u as usize].edges.len();
            for k in 0..deg
                invariant
                    self.wf(),
                    n == self.vcount(),
                    indeg@.len() == n,
                    u < n,
                    deg == self.edge_list(u as int).len(),
                    order_idx@ == done0.push(u),
                    !idx_set(done0).contains(u as int),
                    !self.edge_idx(u as int, u as int),
                    forall|m: int| 0 <= m < order_idx@.len() ==> (#[trigger] order_idx@[m]) < n,
                    forall|p: int| 0 <= p < queue@.len() ==> (#[trigger] queue@[p]) < n,
                    order_idx@.no_duplicates(),
                    queue@.no_duplicates(),
                    forall|m: int, p: int|
                        0 <= m < order_idx@.len() && 0 <= p < queue@.len() ==> (
                        #[trigger] order_idx@[m]) != (#[trigger] queue@[p]),
                    forall|t: int|
                        0 <= t < n ==> #[trigger] indeg@[t] == self.preds_outside(
                            idx_set(order_idx@),
                            t,
                        ).len() + (if self.remaining_hit(u as int, k as int, t) {
                            1int
                        } else {
                            0int
                        }),
                    forall|p: int|
                        0 <= p < queue@.len() ==> indeg@[#[trigger] queue@[p] as int] == 0,
                    forall|t: int|
                        0 <= t < n && #[trigger] indeg@[t] == 0 ==> idx_set(order_idx@).contains(t)
                            || idx_set(queue@).contains(t),
                    forall|m: int, i: int|
                        0 <= m < order_idx@.len() && #[trigger] self.edge_idx(
                            i,
                            order_idx@[m] as int,
                        ) ==> exists|q: int| 0 <= q < m && order_idx@[q] as int == i,
            {
                let edge = &self.vertices[u].edges[k];
                proof {
                    assert(self.edge_list(u as int)[k as int] == edge@);
                    assert(self.ids().contains(edge@));
                }
                let t = self.find_index(edge.as_str()).unwrap();
                proof {
                    self.lemma_edge_target(u as int, k as int);
                    self.lemma_edge_targets_distinct(u as int);
                    assert(self.ids()[t as int] == self.ids()[self.edge_target(
                        u as int,
                        k as int,
                    )]);
                    assert(t as int == self.edge_target(u as int, k as int));
                    assert(self.remaining_hit(u as int, k as int, t as int));
                    assert(indeg@[t as int] >= 1);
                    // the target is not u itself (no self-edge), not an
                    // already emitted vertex (their in-edges come from emitted
                    // vertices, and u is not emitted twice), and not queued
                    // (queued vertices have in-degree zero)
                    assert(self.edge_idx(u as int, t as int));
                    assert(t != u);
                    assert(!idx_set(done0).contains(t as int)) by {
                        if idx_set(done0).contains(t as int) {
                            let m = lemma_idx_set_member(done0, t as int);
                            assert(order_idx@[m] as int == t as int);
                            assert(self.edge_idx(u as int, order_idx@[m] as int));
                            let q = choose|q: int| 0 <= q < m && order_idx@[q] as int == u as int;
                            assert(done0[q] == u);
                            assert(idx_set(done0).contains(u as int)) by {
                                lemma_idx_set_has(done0, q);
                            }
                        }
                    }
                    assert(!idx_set(order_idx@).contains(t as int)) by {
                        lemma_idx_set_push(done0, u);
                    }
                }
                let cur = indeg[t];
                indeg[t] = cur - 1;
                if cur - 1 == 0 {
                    let ghost q0 = queue@;
                    proof {
                        assert(forall|p: int| 0 <= p < q0.len() ==> (#[trigger] q0[p]) != t);
                    }
                    queue.push(t);
                    proof {
                        lemma_idx_set_push(q0, t);
                        assert forall|m: int| 0 <= m < order_idx@.len() implies (
                        #[trigger] order_idx@[m]) != t by {
                            lemma_idx_set_has(order_idx@, m);
                        }
                    }
                }
                proof {
                    let ghost gk = k as int;
                    let ghost gt = t as int;
                    assert(!self.remaining_hit(u as int, gk + 1, gt)) by {
                        if self.remaining_hit(u as int, gk + 1, gt) {
                            let m = choose|m: int|
                                gk + 1 <= m < self.edge_list(u as int).len()
                                    && #[trigger] self.edge_target(u as int, m) == gt;
                            assert(self.edge_target(u as int, gk) == self.edge_target(u as int, m));
                        }
                    }
                    assert forall|t2: int| 0 <= t2 < n implies #[trigger] indeg@[t2]
                        == self.preds_outside(idx_set(order_idx@), t2).len() + (
                    if self.remaining_hit(u as int, gk + 1, t2) {
                        1int
                    } else {
                        0int
                    }) by {
                        if t2 != gt {
                            assert(self.remaining_hit(u as int, gk + 1, t2) == self.remaining_hit(
                                u as int,
                                gk,
                                t2,
                            )) by {
                                if self.remaining_hit(u as int, gk, t2) {
                                    let m = choose|m: int|
                                        gk <= m < self.edge_list(u as int).len()
                                            && #[trigger] self.edge_target(u as int, m) == t2;
                                    assert(m != gk);
                                    assert(self.remaining_hit(u as int, gk + 1, t2));
                                }
                            }
                        }
                    }
                }
            }
            proof {
                assert forall|t: int| 0 <= t < n implies #[trigger] indeg@[t]
                    == self.preds_outside(idx_set(order_idx@), t).len() by {
                    assert(!self.remaining_hit(u as int, deg as int, t));
                }
            }
        }
        if order_idx.len() == n {
            let mut out: Vec<String> = Vec::new();
            let ghost ord = order_idx@;
            for m in 0..n
                invariant
                    self.wf(),
                    n == self.vcount(),
                    ord == order_idx@,
                    ord.len() == n,
                    forall|q: int| 0 <= q < ord.len() ==> (#[trigger] ord[q]) < n,
                    out@.len() == m,
                    forall|q: int|
                        0 <= q < m ==> (#[trigger] out@[q])@ == self.ids()[ord[q] as int],
            {
                out.push(self.vertices[order_idx[m]].id.clone());
            }
            proof {
                self.lemma_idx_order_to_string_order(ord, string_views(out@));
            }
            (out, true)
        } else {
            proof {
                lemma_usize_seq_card(order_idx@, n as int);
                vstd::set_lib::lemma_int_range(0, n as int);
                let excl = idx_set(order_idx@);
                assert(exists|j: int| 0 <= j < n && !excl.contains(j)) by {
                    if forall|j: int| 0 <= j < n ==> excl.contains(#[trigger] (j + 0)) {
                        assert(vstd::set_lib::set_int_range(0, n as int).subset_of(excl)) by {
                            assert forall|j: int|
                                vstd::set_lib::set_int_range(0, n as int).contains(
                                    j,
                                ) implies excl.contains(j) by {
                                assert(excl.contains(j + 0));
                            }
                        }
                        vstd::set_lib::lemma_len_subset(
                            vstd::set_lib::set_int_range(0, n as int),
                            excl,
                        );
                        assert(false);
                    }
                }
                let j0 = choose|j: int| 0 <= j < n && !excl.contains(j);
                assert(self.all_have_outside_pred(excl)) by {
                    assert forall|j: int| 0 <= j < n && !excl.contains(j) implies exists|i: int|
                        0 <= i < self.vcount() && !excl.contains(i) && #[trigger] self.edge_idx(
                            i,
                            j,
                        ) by {
                        assert(idx_set(queue@) =~= Set::<int>::empty());
                        assert(indeg@[j] != 0);
                        let s = self.preds_outside(excl, j);
                        assert(s.len() > 0);
                        self.lemma_preds_card(excl, j);
                        if !(exists|i: int| s.contains(i)) {
                            assert(s =~= Set::<int>::empty());
                            assert(false);
                        }
                        let i = choose|i: int| s.contains(i);
                        assert(0 <= i < self.vcount() && !excl.contains(i) && self.edge_idx(i, j));
                    }
                }
                self.lemma_stuck_implies_cycle(excl, j0);
            }
            (Vec::new(), false)
        }
    }

    /// Lifts a valid topological order over vertex indices to the same order
    /// written with vertex ids.
    proof fn lemma_idx_order_to_string_order(self, ord: Seq<usize>, sord: Seq<Seq<char>>)
        requires
            self.wf(),
            ord.len() == self.vcount(),
            ord.no_duplicates(),
            forall|q: int| 0 <= q < ord.len() ==> (#[trigger] ord[q]) < self.vcount(),
            sord.len() == ord.len(),
            forall|q: int| 0 <= q < ord.len() ==> #[trigger] sord[q] == self.ids()[ord[q] as int],
            forall|m: int, i: int|
                0 <= m < ord.len() && #[trigger] self.edge_idx(i, ord[m] as int) ==> exists|q: int|
                    0 <= q < m && ord[q] as int == i,
        ensures
            self.valid_topo_order(sord),
    {
        broadcast use vstd::seq_lib::seq_to_set_is_finite;

        let n = self.vcount();
        assert(sord.no_duplicates()) by {
            assert forall|p: int, q: int|
                0 <= p < sord.len() && 0 <= q < sord.len() && p != q implies sord[p] != sord[q] by {
                assert(ord[p] != ord[q]);
                assert(self.ids()[ord[p] as int] != self.ids()[ord[q] as int]);
            }
        }
        lemma_usize_seq_card(ord, n);
        vstd::set_lib::lemma_int_range(0, n);
        vstd::set_lib::lemma_subset_equality(
            idx_set(ord),
            vstd::set_lib::set_int_range(0, n),
        );
        assert(sord.to_set() =~= self.ids().to_set()) by {
            assert forall|e: Seq<char>| sord.to_set().contains(e) implies self.ids()
                .to_set()
                .contains(e) by {
                let q = choose|q: int| 0 <= q < sord.len() && sord[q] == e;
                assert(self.ids()[ord[q] as int] == e);
            }
            assert forall|e: Seq<char>| self.ids().to_set().contains(e) implies sord
                .to_set()
                .contains(e) by {
                let j = choose|j: int| 0 <= j < self.ids().len() && self.ids()[j] == e;
                assert(idx_set(ord).contains(j));
                let q = lemma_idx_set_member(ord, j);
                assert(ord[q] as int == j);
                assert(sord[q] == e);
            }
        }
        assert forall|p: int, q: int|
            0 <= p < sord.len() && 0 <= q < sord.len() && #[trigger] self.has_edge(
                sord[p],
                sord[q],
            ) implies p < q by {
            let (i, j) = choose|i: int, j: int|
                #[trigger] self.edge_idx(i, j) && self.ids()[i] == sord[p] && self.ids()[j]
                    == sord[q];
            assert(self.ids()[i] == self.ids()[ord[p] as int]);
            assert(self.ids()[j] == self.ids()[ord[q] as int]);
            assert(i == ord[p] as int && j == ord[q] as int);
            assert(self.edge_idx(ord[p] as int, ord[q] as int));
            let q2 = choose|q2: int| 0 <= q2 < q && ord[q2] as int == ord[p] as int;
            assert(ord[q2] == ord[p]);
            assert(q2 == p);
        }
    }
}

/// The number of untouched entries in a colouring.
spec fn count_zeros(c: Seq<u8>) -> int
    decreases c.len(),
{
    if c.len() == 0 {
        0
    } else {
        count_zeros(c.drop_last()) + if c.last() == 0 {
            1int
        } else {
            0int
        }
    }
}

/// The untouched count is never negative.
proof fn lemma_count_zeros_nonneg(c: Seq<u8>)
    ensures
        count_zeros(c) >= 0,
    decreases c.len(),
{
    if c.len() > 0 {
        lemma_count_zeros_nonneg(c.drop_last());
    }
}

/// Recolouring an untouched entry lowers the untouched count by one.
proof fn lemma_count_zeros_update(c: Seq<u8>, i: int, v: u8)
    requires
        0 <= i < c.len(),
        c[i] == 0,
        v != 0,
    ensures
        count_zeros(c.update(i, v)) == count_zeros(c) - 1,
    decreases c.len(),
{
    if i == c.len() - 1 {
        assert(c.update(i, v).drop_last() =~= c.drop_last());
    } else {
        assert(c.update(i, v).drop_last() =~= c.drop_last().update(i, v));
        lemma_count_zeros_update(c.drop_last(), i, v);
    }
}

impl<T> Graph<T> {
    /// How many edges the traversal stack has yet to look at.
    spec fn stack_budget(self, st: Seq<(usize, usize)>) -> int
        decreases st.len(),
    {
        if st.len() == 0 {
            0
        } else {
            self.stack_budget(st.drop_last()) + self.edge_list(st.last().0 as int).len()
                - st.last().1
        }
    }

    /// With every cursor within bounds, the budget is never negative.
    proof fn lemma_stack_budget_nonneg(self, st: Seq<(usize, usize)>)
        requires
            forall|m: int|
                0 <= m < st.len() ==> (#[trigger] st[m]).1 <= self.edge_list(st[m].0 as int).len(),
        ensures
            self.stack_budget(st) >= 0,
        decreases st.len(),
    {
        if st.len() > 0 {
            self.lemma_stack_budget_nonneg(st.drop_last());
        }
    }

    /// Advancing the cursor of the top stack entry lowers the budget by one.
    proof fn lemma_stack_budget_update_last(self, st: Seq<(usize, usize)>, x: (usize, usize))
        requires
            st.len() >= 1,
            x.0 == st.last().0,
        ensures
            self.stack_budget(st.update(st.len() - 1, x)) == self.stack_budget(st) + st.last().1
                - x.1,
    {
        assert(st.update(st.len() - 1, x).drop_last() =~= st.drop_last());
        assert(st.update(st.len() - 1, x).last() == x);
    }

    /// Searches for a cycle reachable from `root` by depth-first traversal.
    /// The marking uses three states: 0 untouched, 1 on the current path,
    /// 2 finished. Returns a closed cycle path when a back edge is found.
    fn dfs_from(&self, root: usize, color: &mut Vec<u8>) -> (r: Option<Vec<String>>)
        requires
            self.wf(),
            old(color)@.len() == self.vcount(),
            root < self.vcount(),
            old(color)@[root as int] == 0,
            forall|i: int|
                0 <= i < self.vcount() ==> old(color)@[i] == 0 || old(color)@[i] == 2,
            self.finished_closed(old(color)@),
            self.no_finished_cycle(old(color)@),
        ensures
            final(color)@.len() == self.vcount(),
            match r {
                Some(path) => self.is_cycle(string_views(path@)),
                None => {
                    &&& forall|i: int|
                        0 <= i < self.vcount() ==> final(color)@[i] == 0 || final(color)@[i] == 2
                    &&& self.finished_closed(final(color)@)
                    &&& self.no_finished_cycle(final(color)@)
                    &&& final(color)@[root as int] == 2
                    &&& forall|i: int|
                        0 <= i < self.vcount() && old(color)@[i] == 2 ==> final(color)@[i] == 2
                },
            },
    {
        let n = self.vertices.len();
        let mut stack: Vec<(usize, usize)> = Vec::new();
        color[root] = 1;
        stack.push((root, 0));
        proof {
            assert(color@ == old(color)@.update(root as int, 1u8));
            assert forall|i: int| 0 <= i < n && color@[i] == 1 implies exists|m: int|
                0 <= m < stack@.len() && (#[trigger] stack@[m]).0 as int == i by {
                assert(i == root as int);
                assert(stack@[0].0 as int == i);
            }
            assert(stack@[0].0 == root);
            self.lemma_finished_invariants_same_twos(old(color)@, color@);
        }
        while stack.len() > 0
            invariant
                self.wf(),
                n == self.vcount(),
                color@.len() == n,
                forall|i: int| 0 <= i < n ==> (#[trigger] color@[i]) <= 2,
                forall|m: int|
                    0 <= m < stack@.len() ==> (#[trigger] stack@[m]).0 < n && stack@[m].1
                        <= self.edge_list(stack@[m].0 as int).len(),
                forall|m: int|
                    0 <= m < stack@.len() - 1 ==> self.edge_idx(
                        (#[trigger] stack@[m]).0 as int,
                        stack@[m + 1].0 as int,
                    ),
                forall|m: int|
                    0 <= m < stack@.len() ==> color@[(#[trigger] stack@[m]).0 as int] == 1,
                forall|i: int|
                    0 <= i < n && color@[i] == 1 ==> exists|m: int|
                        0 <= m < stack@.len() && (#[trigger] stack@[m]).0 as int == i,
                forall|m1: int, m2: int|
                    0 <= m1 < stack@.len() && 0 <= m2 < stack@.len() && m1 != m2 ==> (
                    #[trigger] stack@[m1]).0 != (#[trigger] stack@[m2]).0,
                self.finished_closed(color@),
                self.no_finished_cycle(color@),
                forall|i: int| 0 <= i < n && old(color)@[i] == 2 ==> (#[trigger] color@[i]) == 2,
                root < n,
                color@[root as int] == 1 || color@[root as int] == 2,
                forall|s: int, m: int|
                    #![trigger self.edge_target(stack@[s].0 as int, m)]
                    0 <= s < stack@.len() && 0 <= m < stack@[s].1 ==> (color@[self.edge_target(
                        stack@[s].0 as int,
                        m,
                    )] == 2 || exists|s2: int|
                        s < s2 < stack@.len() && (#[trigger] stack@[s2]).0 as int
                            == self.edge_target(stack@[s].0 as int, m)),
            ensures
                stack@.len() == 0,
            decreases count_zeros(color@), self.stack_budget(stack@), stack@.len(),
        {
            proof {
                lemma_count_zeros_nonneg(color@);
                self.lemma_stack_budget_nonneg(stack@);
            }
            let top = stack.len() - 1;
            let (v, e) = stack[top];
            let deg = self.vertices[v].edges.len();
            if e < deg {
                let ghost st0 = stack@;
                stack[top] = (v, e + 1);
                proof {
                    self.lemma_stack_budget_update_last(st0, stack@[st0.len() - 1]);
                    assert forall|m: int|
                        0 <= m < stack@.len() - 1 implies self.edge_idx(
                        (#[trigger] stack@[m]).0 as int,
                        stack@[m + 1].0 as int,
                    ) by {
                        assert(stack@[m].0 == st0[m].0 && stack@[m + 1].0 == st0[m + 1].0);
                    }
                    assert forall|i: int| 0 <= i < n && color@[i] == 1 implies exists|m: int|
                        0 <= m < stack@.len() && (#[trigger] stack@[m]).0 as int == i by {
                        let m = choose|m: int|
                            0 <= m < st0.len() && (#[trigger] st0[m]).0 as int == i;
                        assert(stack@[m].0 as int == i);
                    }
                }
                let edge = &self.vertices[v].edges[e];
                proof {
                    assert(self.edge_list(v as int)[e as int] == edge@);
                    assert(self.ids().contains(edge@));
                }
                let w = self.find_index(edge.as_str()).unwrap();
                proof {
                    assert(self.edge_list(v as int).contains(self.ids()[w as int]));
                    assert(self.edge_idx(v as int, w as int));
                    self.lemma_edge_target(v as int, e as int);
                    self.lemma_edge_targets_distinct(v as int);
                    assert(self.ids()[w as int] == self.ids()[self.edge_target(
                        v as int,
                        e as int,
                    )]);
                    assert(w as int == self.edge_target(v as int, e as int));
                }
                let cw = color[w];
                if cw == 1 {
                    // back edge: w lies on the current path; close the cycle
                    let mut j: usize = 0;
                    while j < stack.len() && stack[j].0 != w
                        invariant
                            j <= stack@.len(),
                            forall|m: int| 0 <= m < j ==> (#[trigger] stack@[m]).0 != w,
                            exists|m: int|
                                0 <= m < stack@.len() && (#[trigger] stack@[m]).0 as int
                                    == w as int,
                        decreases stack@.len() - j,
                    {
                        j += 1;
                    }
                    proof {
                        if j >= stack@.len() {
                            let m = choose|m: int|
                                0 <= m < stack@.len() && (#[trigger] stack@[m]).0 as int
                                    == w as int;
                            assert(false);
                        }
                    }
                    let mut path: Vec<String> = Vec::new();
                    let stack_len = stack.len();
                    for m in j..stack_len
                        invariant
                            self.wf(),
                            n == self.vcount(),
                            stack_len == stack@.len(),
                            j < stack@.len(),
                            forall|m2: int|
                                0 <= m2 < stack@.len() ==> (#[trigger] stack@[m2]).0 < n,
                            path@.len() == m - j,
                            forall|x: int|
                                0 <= x < m - j ==> (#[trigger] path@[x])@ == self.ids()[stack@[j
                                    + x].0 as int],
                    {
                        path.push(self.vertices[stack[m].0].id.clone());
                    }
                    path.push(self.vertices[w].id.clone());
                    proof {
                        let p = string_views(path@);
                        let st = stack@;
                        assert(p.len() == st.len() - j + 1);
                        assert(p.len() >= 2);
                        assert(p.first() == self.ids()[st[j as int].0 as int]);
                        assert(st[j as int].0 == w);
                        assert(p.last() == self.ids()[w as int]);
                        assert forall|x: int| 0 <= x < p.len() - 1 implies #[trigger] self.has_edge(
                            p[x],
                            p[x + 1],
                        ) by {
                            if x < p.len() - 2 {
                                assert(self.edge_idx(st[j + x].0 as int, st[j + x + 1].0 as int));
                                assert(p[x] == self.ids()[st[j + x].0 as int]);
                                assert(p[x + 1] == self.ids()[st[j + x + 1].0 as int]);
                            } else {
                                assert(st[j + x].0 as int == st[st.len() - 1].0 as int);
                                assert(self.edge_idx(st[j + x].0 as int, w as int));
                                assert(p[x] == self.ids()[st[j + x].0 as int]);
                                assert(p[x + 1] == self.ids()[w as int]);
                            }
                        }
                        assert(self.is_cycle(p));
                    }
                    return Some(path);
                } else if cw == 0 {
                    let ghost c0 = color@;
                    let ghost st1 = stack@;
                    color[w] = 1;
                    stack.push((w, 0));
                    proof {
                        assert(color@ == c0.update(w as int, 1u8));
                        lemma_count_zeros_update(c0, w as int, 1);
                        self.lemma_finished_invariants_same_twos(c0, color@);
                        assert(c0[w as int] == 0);
                        assert(root as int != w as int);
                        assert(color@[root as int] == c0[root as int]);
                        assert forall|s: int, m: int|
                            #![trigger self.edge_target(stack@[s].0 as int, m)]
                            0 <= s < stack@.len() && 0 <= m < stack@[s].1 implies (color@[
                        self.edge_target(stack@[s].0 as int, m)] == 2 || exists|s2: int|
                            s < s2 < stack@.len() && (#[trigger] stack@[s2]).0 as int
                                == self.edge_target(stack@[s].0 as int, m)) by {
                            let t = self.edge_target(stack@[s].0 as int, m);
                            if s == stack@.len() - 2 {
                                assert(stack@[s].0 == v && stack@[s].1 == e + 1);
                                assert(st0[s].0 == v && st0[s].1 == e);
                                if m < e {
                                    assert(t == self.edge_target(st0[s].0 as int, m));
                                    if c0[t] != 2 {
                                        let s2 = choose|s2: int|
                                            s < s2 < st0.len() && (#[trigger] st0[s2]).0 as int
                                                == t;
                                        assert(stack@[s2].0 as int == t);
                                    }
                                } else {
                                    assert(m == e);
                                    assert(t == w as int);
                                    assert(stack@[stack@.len() - 1].0 as int == t);
                                }
                            } else if s < stack@.len() - 2 {
                                assert(stack@[s] == st0[s]);
                                assert(t == self.edge_target(st0[s].0 as int, m));
                                if c0[t] != 2 {
                                    let s2 = choose|s2: int|
                                        s < s2 < st0.len() && (#[trigger] st0[s2]).0 as int == t;
                                    assert(stack@[s2].0 as int == t);
                                }
                            }
                        }
                        assert forall|i: int| 0 <= i < n && color@[i] == 1 implies exists|m: int|
                            0 <= m < stack@.len() && (#[trigger] stack@[m]).0 as int == i by {
                            if i == w as int {
                                assert(stack@[stack@.len() - 1].0 as int == i);
                            } else {
                                assert(c0[i] == 1);
                                let m = choose|m: int|
                                    0 <= m < st1.len() && (#[trigger] st1[m]).0 as int == i;
                                assert(stack@[m].0 as int == i);
                            }
                        }
                        assert forall|m1: int, m2: int|
                            0 <= m1 < stack@.len() && 0 <= m2 < stack@.len() && m1 != m2 implies (
                        #[trigger] stack@[m1]).0 != (#[trigger] stack@[m2]).0 by {
                            if m2 == stack@.len() - 1 {
                                assert(c0[stack@[m1].0 as int] == 1);
                            } else if m1 == stack@.len() - 1 {
                                assert(c0[stack@[m2].0 as int] == 1);
                            }
                        }
                    }
                } else {
                    proof {
                        assert(cw == 2);
                        assert forall|s: int, m: int|
                            #![trigger self.edge_target(stack@[s].0 as int, m)]
                            0 <= s < stack@.len() && 0 <= m < stack@[s].1 implies (color@[
                        self.edge_target(stack@[s].0 as int, m)] == 2 || exists|s2: int|
                            s < s2 < stack@.len() && (#[trigger] stack@[s2]).0 as int
                                == self.edge_target(stack@[s].0 as int, m)) by {
                            let t = self.edge_target(stack@[s].0 as int, m);
                            if s == stack@.len() - 1 {
                                assert(stack@[s].0 == v && stack@[s].1 == e + 1);
                                assert(st0[s].0 == v && st0[s].1 == e);
                                if m < e {
                                    assert(t == self.edge_target(st0[s].0 as int, m));
                                    if color@[t] != 2 {
                                        let s2 = choose|s2: int|
                                            s < s2 < st0.len() && (#[trigger] st0[s2]).0 as int
                                                == t;
                                        assert(stack@[s2].0 as int == t);
                                    }
                                } else {
                                    assert(m == e);
                                    assert(t == w as int);
                                    assert(color@[t] == 2);
                                }
                            } else {
                                assert(stack@[s] == st0[s]);
                                assert(t == self.edge_target(st0[s].0 as int, m));
                                if color@[t] != 2 {
                                    let s2 = choose|s2: int|
                                        s < s2 < st0.len() && (#[trigger] st0[s2]).0 as int == t;
                                    assert(stack@[s2].0 as int == t);
                                }
                            }
                        }
                    }
                }
            } else {
                let ghost c0 = color@;
                let ghost st1 = stack@;
                color[v] = 2;
                stack.pop();
                proof {
                    assert(color@ == c0.update(v as int, 2u8));
                    assert(if root == v {
                        color@[root as int] == 2
                    } else {
                        color@[root as int] == c0[root as int]
                    });
                    assert(stack@ =~= st1.drop_last());
                    assert(self.stack_budget(st1) == self.stack_budget(stack@));
                    assert(count_zeros(color@) == count_zeros(c0)) by {
                        lemma_count_zeros_same(c0, color@);
                    }
                    assert forall|i: int| 0 <= i < n && color@[i] == 1 implies exists|m: int|
                        0 <= m < stack@.len() && (#[trigger] stack@[m]).0 as int == i by {
                        assert(c0[i] == 1);
                        let m = choose|m: int|
                            0 <= m < st1.len() && (#[trigger] st1[m]).0 as int == i;
                        assert(m != st1.len() - 1);
                        assert(stack@[m].0 as int == i);
                    }
                    // all edges of the popped vertex were scanned, and each
                    // target is already finished
                    assert(e == self.edge_list(v as int).len());
                    assert(st1[st1.len() - 1].0 == v && st1[st1.len() - 1].1 == e);
                    assert forall|m: int|
                        0 <= m < self.edge_list(v as int).len() implies c0[
                    #[trigger] self.edge_target(v as int, m)] == 2 by {
                        let t = self.edge_target(st1[st1.len() - 1].0 as int, m);
                        if c0[t] != 2 {
                            let s2 = choose|s2: int|
                                st1.len() - 1 < s2 < st1.len() && (#[trigger] st1[s2]).0 as int
                                    == t;
                            assert(false);
                        }
                    }
                    self.lemma_edge_targets_distinct(v as int);
                    // the finished region stays closed
                    assert forall|i: int, j: int|
                        0 <= i < self.vcount() && 0 <= j < self.vcount() && color@[i] == 2
                            && #[trigger] self.edge_idx(i, j) implies color@[j] == 2 by {
                        if j != v as int {
                            if i == v as int {
                                let m = choose|m: int|
                                    0 <= m < self.edge_list(v as int).len()
                                        && #[trigger] self.edge_target(v as int, m) == j;
                                assert(c0[j] == 2);
                            } else {
                                assert(c0[i] == 2);
                                assert(c0[j] == 2);
                            }
                        }
                    }
                    // no cycle runs through finished vertices: one through the
                    // popped vertex would enter it from a finished vertex,
                    // which the closed old region forbids
                    assert forall|p: Seq<int>| #[trigger] self.is_cycle_idx(p) implies exists|
                        m: int,
                    |
                        0 <= m < p.len() && color@[#[trigger] p[m]] != 2 by {
                        if !(exists|m: int| 0 <= m < p.len() && color@[#[trigger] p[m]] != 2) {
                            assert(forall|m: int|
                                0 <= m < p.len() ==> color@[#[trigger] p[m]] == 2);
                            if exists|m0: int| 0 <= m0 < p.len() && #[trigger] p[m0] == v as int {
                                self.lemma_cycle_idx_range(p, 0);
                                let pred_pos: int = if p[0int] == v as int {
                                    p.len() - 2
                                } else {
                                    let m0 = choose|m0: int|
                                        0 <= m0 < p.len() && #[trigger] p[m0] == v as int;
                                    assert(m0 >= 1);
                                    assert(m0 < p.len() - 1) by {
                                        if m0 == p.len() - 1 {
                                            assert(p[0int] == p[p.len() - 1]);
                                        }
                                    }
                                    m0 - 1
                                };
                                assert(0 <= pred_pos < p.len() - 1);
                                assert(self.edge_idx(p[pred_pos], p[pred_pos + 1]));
                                assert(p[pred_pos + 1] == v as int);
                                let pred = p[pred_pos];
                                assert(color@[pred] == 2);
                                if pred == v as int {
                                    let m = choose|m: int|
                                        0 <= m < self.edge_list(v as int).len()
                                            && #[trigger] self.edge_target(v as int, m)
                                            == v as int;
                                    assert(c0[v as int] == 2);
                                    assert(false);
                                } else {
                                    assert(c0[pred] == 2);
                                    assert(c0[v as int] == 2);
                                    assert(false);
                                }
                            } else {
                                let m1 = choose|m1: int|
                                    0 <= m1 < p.len() && c0[#[trigger] p[m1]] != 2;
                                self.lemma_cycle_idx_range(p, m1);
                                assert(p[m1] != v as int);
                                assert(color@[p[m1]] == c0[p[m1]]);
                                assert(false);
                            }
                        }
                    }
                    // the scanned-target facts survive the pop
                    assert forall|s: int, m: int|
                        #![trigger self.edge_target(stack@[s].0 as int, m)]
                        0 <= s < stack@.len() && 0 <= m < stack@[s].1 implies (color@[
                    self.edge_target(stack@[s].0 as int, m)] == 2 || exists|s2: int|
                        s < s2 < stack@.len() && (#[trigger] stack@[s2]).0 as int
                            == self.edge_target(stack@[s].0 as int, m)) by {
                        let t = self.edge_target(stack@[s].0 as int, m);
                        assert(stack@[s] == st1[s]);
                        assert(t == self.edge_target(st1[s].0 as int, m));
                        if c0[t] != 2 {
                            let s2 = choose|s2: int|
                                s < s2 < st1.len() && (#[trigger] st1[s2]).0 as int == t;
                            if s2 == st1.len() - 1 {
                                assert(t == v as int);
                                assert(color@[t] == 2);
                            } else {
                                assert(stack@[s2].0 as int == t);
                            }
                        }
                    }
                }
            }
            proof {
                lemma_count_zeros_nonneg(color@);
                self.lemma_stack_budget_nonneg(stack@);
            }
        }
        proof {
            assert forall|i: int| 0 <= i < n implies color@[i] == 0 || color@[i] == 2 by {
                if color@[i] == 1 {
                    let m = choose|m: int|
                        0 <= m < stack@.len() && (#[trigger] stack@[m]).0 as int == i;
                }
            }
            assert(color@[root as int] == 2);
        }
        None
    }
}

impl<T> Graph<T> {
    /// A cycle written over vertex indices.
    pub open spec fn is_cycle_idx(self, p: Seq<int>) -> bool {
        &&& p.len() >= 2
        &&& p.first() == p.last()
        &&& forall|m: int| 0 <= m < p.len() - 1 ==> #[trigger] self.edge_idx(p[m], p[m + 1])
    }

    /// Every edge out of a finished vertex leads to a finished vertex.
    pub open spec fn finished_closed(self, color: Seq<u8>) -> bool {
        forall|i: int, j: int|
            0 <= i < self.vcount() && 0 <= j < self.vcount() && color[i] == 2
                && #[trigger] self.edge_idx(i, j) ==> color[j] == 2
    }

    /// No cycle runs entirely through finished vertices.
    pub open spec fn no_finished_cycle(self, color: Seq<u8>) -> bool {
        forall|p: Seq<int>|
            #[trigger] self.is_cycle_idx(p) ==> exists|m: int|
                0 <= m < p.len() && color[#[trigger] p[m]] != 2
    }

    /// A cycle over ids yields a cycle over indices.
    proof fn lemma_cycle_to_idx_cycle(self, path: Seq<Seq<char>>) -> (p: Seq<int>)
        requires
            self.wf(),
            self.is_cycle(path),
        ensures
            self.is_cycle_idx(p),
            p.len() == path.len(),
    {
        let p = Seq::new(path.len(), |m: int| self.ids().index_of(path[m]));
        assert forall|m: int| 0 <= m < p.len() - 1 implies #[trigger] self.edge_idx(
            p[m],
            p[m + 1],
        ) by {
            assert(self.has_edge(path[m], path[m + 1]));
            let (i, j) = choose|i: int, j: int|
                #[trigger] self.edge_idx(i, j) && self.ids()[i] == path[m] && self.ids()[j]
                    == path[m + 1];
            assert(self.ids().contains(path[m]));
            assert(self.ids().contains(path[m + 1]));
            let im = self.ids().index_of(path[m]);
            let jm = self.ids().index_of(path[m + 1]);
            assert(0 <= im < self.ids().len() && self.ids()[im] == path[m]);
            assert(0 <= jm < self.ids().len() && self.ids()[jm] == path[m + 1]);
            // unique ids force the witnesses onto the chosen indices
            assert(i == im && j == jm);
        }
        assert(p.first() == self.ids().index_of(path.first()));
        assert(p.last() == self.ids().index_of(path.last()));
        p
    }

    /// Every entry of an index cycle is a vertex index.
    proof fn lemma_cycle_idx_range(self, p: Seq<int>, m: int)
        requires
            self.is_cycle_idx(p),
            0 <= m < p.len(),
        ensures
            0 <= p[m] < self.vcount(),
    {
        if m < p.len() - 1 {
            assert(self.edge_idx(p[m], p[m + 1]));
        } else {
            assert(p[m] == p[0int]);
            assert(self.edge_idx(p[0int], p[0int + 1]));
        }
    }

    /// Two colourings with the same finished vertices agree on closedness and
    /// on the absence of finished cycles.
    proof fn lemma_finished_invariants_same_twos(self, c1: Seq<u8>, c2: Seq<u8>)
        requires
            c1.len() == c2.len(),
            forall|i: int| 0 <= i < c1.len() ==> ((#[trigger] c2[i]) == 2 <==> c1[i] == 2),
            self.finished_closed(c1),
            self.no_finished_cycle(c1),
            c1.len() == self.vcount(),
        ensures
            self.finished_closed(c2),
            self.no_finished_cycle(c2),
    {
        assert forall|p: Seq<int>| #[trigger] self.is_cycle_idx(p) implies exists|m: int|
            0 <= m < p.len() && c2[#[trigger] p[m]] != 2 by {
            let m = choose|m: int| 0 <= m < p.len() && c1[#[trigger] p[m]] != 2;
            assert(0 <= p[m] < self.vcount()) by {
                if m < p.len() - 1 {
                    assert(self.edge_idx(p[m], p[m + 1]));
                } else {
                    assert(p[m] == p[0int]);
                    assert(self.edge_idx(p[0int], p[0int + 1]));
                }
            }
            assert(c2[p[m]] != 2);
        }
    }
}

/// A colouring that never sets an entry to zero keeps the untouched count
/// from growing; with no entry cleared at all, the count is unchanged.
proof fn lemma_count_zeros_same(c1: Seq<u8>, c2: Seq<u8>)
    requires
        c1.len() == c2.len(),
        forall|i: int| 0 <= i < c1.len() ==> ((#[trigger] c2[i]) == 0 <==> c1[i] == 0),
    ensures
        count_zeros(c2) == count_zeros(c1),
    decreases c1.len(),
{
    if c1.len() > 0 {
        assert(c1.last() == c1[c1.len() - 1] && c2.last() == c2[c1.len() - 1]);
        lemma_count_zeros_same(c1.drop_last(), c2.drop_last());
    }
}

impl<T> Graph<T> {
    /// Looks for a cycle by running a depth-first search from every vertex
    /// not yet finished, and decides: a cycle path is returned exactly when
    /// the graph has a cycle.
    pub fn detect_cycle_with_path(&self) -> (r: (bool, Vec<String>))
        requires
            self.wf(),
        ensures
            r.0 == self.is_cyclic(),
            r.0 ==> self.is_cycle(string_views(r.1@)),
            !r.0 ==> r.1@.len() == 0,
    {
        let n = self.vertices.len();
        let mut color: Vec<u8> = vec![0; n];
        proof {
            assert forall|p: Seq<int>| #[trigger] self.is_cycle_idx(p) implies exists|m: int|
                0 <= m < p.len() && color@[#[trigger] p[m]] != 2 by {
                self.lemma_cycle_idx_range(p, 0);
                assert(color@[p[0int]] == 0);
            }
        }
        for root in 0..n
            invariant
                self.wf(),
                n == self.vcount(),
                color@.len() == n,
                forall|i: int| 0 <= i < n ==> (#[trigger] color@[i]) == 0 || color@[i] == 2,
                self.finished_closed(color@),
                self.no_finished_cycle(color@),
                forall|i: int| 0 <= i < root ==> (#[trigger] color@[i]) == 2,
        {
            if color[root] == 0 {
                if let Some(path) = self.dfs_from(root, &mut color) {
                    proof {
                        assert(self.is_cyclic());
                    }
                    return (true, path);
                }
            }
        }
        proof {
            if self.is_cyclic() {
                let path = choose|path: Seq<Seq<char>>| self.is_cycle(path);
                let p = self.lemma_cycle_to_idx_cycle(path);
                let m = choose|m: int| 0 <= m < p.len() && color@[#[trigger] p[m]] != 2;
                self.lemma_cycle_idx_range(p, m);
                assert(false);
            }
        }
        (false, Vec::new())
    }

    /// How the result of `topological_sort` relates to the graph it was
    /// computed from. The cycle flag is set exactly when the graph has a
    /// cycle; on success the order lists every vertex id once, with every
    /// edge pointing from an earlier to a later position; on a cycle the
    /// order is empty and the cycle path is an actual closed walk of the
    /// graph.
    pub open spec fn sort_result_ok(g: Graph<T>, r: SortResult) -> bool {
        &&& (r.has_cycle <==> g.is_cyclic())
        &&& (r.has_cycle ==> r.sorted_order@.len() == 0)
        &&& (r.has_cycle ==> g.is_cycle(string_views(r.cycle_path@)))
        &&& (!r.has_cycle ==> g.valid_topo_order(string_views(r.sorted_order@)))
        &&& (!r.has_cycle ==> r.cycle_path@.len() == 0)
    }

    /// Topologically sorts the graph in two passes: a depth-first search
    /// decides cyclicity and reconstructs a cycle path if there is one, then
    /// a worklist pass emits the order, guarded by a final count check.
    pub fn topological_sort(&self) -> (r: SortResult)
        requires
            self.wf(),
        ensures
            Graph::sort_result_ok(*self, r),
    {
        let (found, path) = self.detect_cycle_with_path();
        if found {
            return SortResult { sorted_order: Vec::new(), has_cycle: true, cycle_path: path };
        }
        let (order, complete) = self.kahn_order();
        if !complete {
            // a consistency guard: the search above decided the graph is
            // acyclic, so the worklist pass cannot have missed a vertex
            proof {
                assert(false);
            }
            return SortResult {
                sorted_order: Vec::new(),
                has_cycle: true,
                cycle_path: Vec::new(),
            };
        }
        proof {
            self.lemma_order_excludes_cycles(string_views(order@));
        }
        SortResult { sorted_order: order, has_cycle: false, cycle_path: Vec::new() }
    }
}

impl<T> Graph<T> {
    /// Adding an edge makes it present: after `add_edge` relates `pre` to
    /// `post`, the edge is in `post` whenever both endpoints exist.
    pub proof fn lemma_add_edge_present(pre: Graph<T>, post: Graph<T>, from: Seq<char>, to: Seq<char>)
        requires
            pre.wf(),
            pre.has_vertex(from),
            pre.has_vertex(to),
            Graph::add_edge_effect(pre, post, from, to),
        ensures
            post.has_edge(from, to),
    {
        if pre.has_edge(from, to) {
            assert(post == pre);
        } else {
            let fi = choose|fi: int| 0 <= fi < pre.ids().len() && pre.ids()[fi] == from;
            let ti = choose|ti: int| 0 <= ti < pre.ids().len() && pre.ids()[ti] == to;
            assert(post.edge_list(fi) == pre.edge_list(fi).push(to));
            assert(post.edge_list(fi)[post.edge_list(fi).len() - 1] == to);
            assert(post.edge_list(fi).contains(post.ids()[ti]));
            assert(post.edge_idx(fi, ti));
            assert(post.ids()[fi] == from && post.ids()[ti] == to);
        }
    }

    /// Adding the same edge twice is the same as adding it once: the second
    /// call changes nothing, so every edge list keeps its length.
    pub proof fn lemma_add_edge_idempotent(
        g0: Graph<T>,
        g1: Graph<T>,
        g2: Graph<T>,
        from: Seq<char>,
        to: Seq<char>,
    )
        requires
            g0.wf(),
            Graph::add_edge_effect(g0, g1, from, to),
            Graph::add_edge_effect(g1, g2, from, to),
        ensures
            g2 == g1,
    {
        if pre_applies(g0, from, to) {
            Graph::lemma_add_edge_present(g0, g1, from, to);
            assert(g1.has_vertex(from)) by {
                let fi = choose|fi: int| 0 <= fi < g0.ids().len() && g0.ids()[fi] == from;
                assert(g1.ids()[fi] == from);
            }
            assert(!pre_applies(g1, from, to));
        } else {
            assert(g1 == g0);
        }
    }

    /// A vertex with an edge to itself makes the graph cyclic: the sort
    /// reports the cycle and returns an empty order.
    pub proof fn lemma_self_loop_cyclic(g: Graph<T>, r: SortResult, id: Seq<char>)
        requires
            g.wf(),
            g.has_edge(id, id),
            Graph::sort_result_ok(g, r),
        ensures
            r.has_cycle,
            r.sorted_order@.len() == 0,
    {
        let path = seq![id, id];
        assert(g.is_cycle(path)) by {
            assert(path[0] == id && path[1] == id);
            assert(g.has_edge(path[0int], path[0int + 1]));
        }
        assert(g.is_cyclic());
    }
}

/// Whether `add_edge` with these endpoints actually inserts an edge.
pub open spec fn pre_applies<T>(g: Graph<T>, from: Seq<char>, to: Seq<char>) -> bool {
    g.has_vertex(from) && g.has_vertex(to) && !g.has_edge(from, to)
}

impl<T> Graph<T> {
    /// After `add_edge`, the edges are exactly the edges before it plus the
    /// new one, when both its endpoints exist.
    pub proof fn lemma_add_edge_has_edge(
        pre: Graph<T>,
        post: Graph<T>,
        from: Seq<char>,
        to: Seq<char>,
        u: Seq<char>,
        v: Seq<char>,
    )
        requires
            pre.wf(),
            Graph::add_edge_effect(pre, post, from, to),
        ensures
            post.has_edge(u, v) <==> (pre.has_edge(u, v) || (u == from && v == to
                && pre.has_vertex(from) && pre.has_vertex(to))),
    {
        if !pre_applies(pre, from, to) {
            assert(post == pre);
            if u == from && v == to && pre.has_vertex(from) && pre.has_vertex(to) {
                assert(pre.has_edge(from, to));
            }
        } else {
            if post.has_edge(u, v) {
                let (i, j) = choose|i: int, j: int|
                    #[trigger] post.edge_idx(i, j) && post.ids()[i] == u && post.ids()[j] == v;
                assert(post.edge_list(i) == if pre.ids()[i] == from {
                    pre.edge_list(i).push(to)
                } else {
                    pre.edge_list(i)
                });
                if pre.ids()[i] == from {
                    let k = choose|k: int|
                        0 <= k < post.edge_list(i).len() && post.edge_list(i)[k] == post.ids()[j];
                    if k < pre.edge_list(i).len() {
                        assert(pre.edge_list(i).contains(pre.ids()[j]));
                        assert(pre.edge_idx(i, j));
                        assert(pre.has_edge(u, v));
                    } else {
                        assert(post.edge_list(i)[k] == to);
                        assert(u == from && v == to);
                    }
                } else {
                    assert(pre.edge_idx(i, j));
                    assert(pre.has_edge(u, v));
                }
            }
            if pre.has_edge(u, v) {
                let (i, j) = choose|i: int, j: int|
                    #[trigger] pre.edge_idx(i, j) && pre.ids()[i] == u && pre.ids()[j] == v;
                let k = choose|k: int|
                    0 <= k < pre.edge_list(i).len() && pre.edge_list(i)[k] == pre.ids()[j];
                if pre.ids()[i] == from {
                    assert(post.edge_list(i) == pre.edge_list(i).push(to));
                    assert(post.edge_list(i)[k] == pre.ids()[j]);
                } else {
                    assert(post.edge_list(i) == pre.edge_list(i));
                }
                assert(post.edge_idx(i, j));
                assert(post.has_edge(u, v));
            }
            if u == from && v == to && pre.has_vertex(from) && pre.has_vertex(to) {
                Graph::lemma_add_edge_present(pre, post, from, to);
            }
        }
    }
}

impl<T> Graph<T> {
    /// Whether the vertex at index `i` has an edge pointing at `id`.
    fn points_at(&self, i: usize, id: &str) -> (r: bool)
        requires
            i < self.vcount(),
        ensures
            r == self.edge_list(i as int).contains(id@),
    {
        let deg = self.vertices[i].edges.len();
        for k in 0..deg
            invariant
                i < self.vcount(),
                deg == self.edge_list(i as int).len(),
                forall|m: int| 0 <= m < k ==> self.edge_list(i as int)[m] != id@,
        {
            if self.vertices[i].edges[k].as_str().eq(id) {
                proof {
                    assert(self.edge_list(i as int)[k as int] == id@);
                }
                return true;
            }
        }
        false
    }

    /// Returns the targets of a vertex's outgoing edges, in ascending order:
    /// the vertices that depend on being reached from it.
    pub fn get_dependents(&self, vertex: &Vertex<T>) -> (r: Vec<String>)
        ensures
            sorted_le(string_views(r@)),
            string_views(r@).to_multiset() == string_views(vertex.edges@).to_multiset(),
    {
        sort_strings(&vertex.edges)
    }

    /// Returns the ids of the vertices with an edge pointing at `vertex_id`,
    /// in ascending order.
    pub fn get_dependencies(&self, vertex_id: &str) -> (r: Vec<String>)
        requires
            self.wf(),
        ensures
            sorted_le(string_views(r@)),
            string_views(r@).to_multiset() == self.ids().filter(
                |u: Seq<char>| self.has_edge(u, vertex_id@),
            ).to_multiset(),
    {
        let n = self.vertices.len();
        let mut found: Vec<String> = Vec::new();
        let ghost pred = |u: Seq<char>| self.has_edge(u, vertex_id@);
        proof {
            reveal(Seq::filter);
            assert(string_views(found@) =~= Seq::<Seq<char>>::empty());
            assert(self.ids().take(0) =~= Seq::<Seq<char>>::empty());
            assert(self.ids().take(0).filter(pred) =~= Seq::<Seq<char>>::empty());
        }
        for i in 0..n
            invariant
                self.wf(),
                n == self.vcount(),
                pred == (|u: Seq<char>| self.has_edge(u, vertex_id@)),
                string_views(found@) == self.ids().take(i as int).filter(pred),
        {
            let ghost views0 = string_views(found@);
            let hit = self.points_at(i, vertex_id);
            if hit {
                found.push(self.vertices[i].id.clone());
            }
            proof {
                let gi = i as int;
                assert(self.ids().take(gi + 1).drop_last() =~= self.ids().take(gi));
                assert(self.ids().take(gi + 1).last() == self.ids()[gi]);
                assert(pred(self.ids()[gi]) == hit) by {
                    if self.edge_list(gi).contains(vertex_id@) {
                        let k = choose|k: int|
                            0 <= k < self.edge_list(gi).len() && self.edge_list(gi)[k]
                                == vertex_id@;
                        assert(self.ids().contains(self.edge_list(gi)[k]));
                        let ti = choose|ti: int|
                            0 <= ti < self.ids().len() && self.ids()[ti] == vertex_id@;
                        assert(self.edge_idx(gi, ti));
                        assert(self.has_edge(self.ids()[gi], vertex_id@));
                    }
                    if self.has_edge(self.ids()[gi], vertex_id@) {
                        let (i2, j2) = choose|i2: int, j2: int|
                            #[trigger] self.edge_idx(i2, j2) && self.ids()[i2] == self.ids()[gi]
                                && self.ids()[j2] == vertex_id@;
                        assert(i2 == gi);
                        assert(self.edge_list(gi).contains(vertex_id@));
                    }
                }
                if hit {
                    assert(string_views(found@) =~= views0.push(self.ids()[gi]));
                }
                reveal(Seq::filter);
                assert(string_views(found@) =~= self.ids().take(gi + 1).filter(pred));
            }
        }
        proof {
            assert(self.ids().take(n as int) =~= self.ids());
        }
        sort_strings(&found)
    }
}

impl<T> Vertex<T> {
    /// Renders the vertex as its id and its number of outgoing edges.
    pub fn label(&self) -> (r: String)
        ensures
            r@ == "Vertex{ID: "@ + self.id@ + ", Edges: "@ + crate::text::dec_rep(
                self.edges@.len() as int,
            ) + "}"@,
    {
        String::from_str("Vertex{ID: ").concat(self.id.as_str()).concat(", Edges: ").concat(
            crate::text::usize_to_string(self.edges.len()).as_str(),
        ).concat("}")
    }
}

impl<T> Default for Graph<T> {
    /// The default graph is empty.
    fn default() -> (g: Graph<T>)
        ensures
            g.vertices@.len() == 0,
            g.wf(),
    {
        Graph::new()
    }
}

} // verus!
