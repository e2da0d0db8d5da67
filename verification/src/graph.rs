//! A directed graph of labelled vertices with cycle detection.
//!
//! Vertices carry a caller-chosen value and are addressed by `usize` labels;
//! labels of deleted vertices are recycled. Edges are directed and stored as
//! adjacency lists. `has_cycle` decides, exactly, whether the graph contains
//! a directed cycle.
use vstd::prelude::*;

verus! {

#[derive(Debug, PartialEq, Eq, Structural)]
pub enum GraphError {
    VertexNotFound(usize),
    InvalidEdge(usize, usize),
}

/// The mathematical image of one vertex: its label, value, and the labels of
/// the vertices its outgoing edges point to, in insertion order.
pub struct VertexModel<T> {
    pub label: usize,
    pub value: T,
    pub neighbors: Seq<usize>,
}

pub struct Vertex<T> {
    pub label: usize,
    pub value: T,
    pub neighbors: Vec<usize>,
}

impl<T> View for Vertex<T> {
    type V = VertexModel<T>;

    open spec fn view(&self) -> VertexModel<T> {
        VertexModel { label: self.label, value: self.value, neighbors: self.neighbors@ }
    }
}

pub struct Graph<T> {
    vertices: Vec<Vertex<T>>,
    available_labels: Vec<usize>,
}

/// Whether some vertex of `s` carries the label `l`.
pub open spec fn contains_label<T>(s: Seq<VertexModel<T>>, l: usize) -> bool {
    exists|i: int| 0 <= i < s.len() && s[i].label == l
}

/// The position of the vertex labelled `l`; meaningful when `contains_label`
/// holds.
pub open spec fn index_of_label<T>(s: Seq<VertexModel<T>>, l: usize) -> int {
    choose|i: int| 0 <= i < s.len() && s[i].label == l
}

/// The vertex of `s` labelled `l`.
pub open spec fn vertex_of<T>(s: Seq<VertexModel<T>>, l: usize) -> VertexModel<T> {
    s[index_of_label(s, l)]
}

/// Whether `s` has a directed edge from the vertex labelled `a` to the one
/// labelled `b`.
pub open spec fn has_edge_in<T>(s: Seq<VertexModel<T>>, a: usize, b: usize) -> bool {
    contains_label(s, a) && vertex_of(s, a).neighbors.contains(b)
}

/// The total number of edges: the summed lengths of all adjacency lists.
pub open spec fn edge_count<T>(s: Seq<VertexModel<T>>) -> int
    decreases s.len(),
{
    if s.len() == 0 {
        0
    } else {
        edge_count(s.drop_last()) + s.last().neighbors.len()
    }
}

impl<T> View for Graph<T> {
    type V = Seq<VertexModel<T>>;

    closed spec fn view(&self) -> Seq<VertexModel<T>> {
        self.vertices@.map(|i: int, v: Vertex<T>| v@)
    }
}

impl<T> Graph<T> {
    /// Vertex labels are pairwise distinct, every adjacency list mentions
    /// only labels of present vertices and mentions none twice, no edge is a
    /// self-loop, and the pool of recycled labels is consistent, so that a
    /// fresh label can always be handed out.
    pub closed spec fn wf(&self) -> bool {
        let s = self@;
        &&& forall|i: int, j: int|
            0 <= i < s.len() && 0 <= j < s.len() && i != j ==> (#[trigger] s[i]).label != (
            #[trigger] s[j]).label
        &&& forall|i: int, k: int|
            0 <= i < s.len() && 0 <= k < s[i].neighbors.len() ==> contains_label(
                s,
                #[trigger] s[i].neighbors[k],
            )
        &&& forall|i: int, k: int, k2: int|
            0 <= i < s.len() && 0 <= k < k2 < s[i].neighbors.len() ==> (
            #[trigger] s[i].neighbors[k]) != (#[trigger] s[i].neighbors[k2])
        &&& forall|i: int, k: int|
            0 <= i < s.len() && 0 <= k < s[i].neighbors.len() ==> #[trigger] s[i].neighbors[k]
                != s[i].label
        &&& forall|a: int, b: int|
            0 <= a < self.available_labels@.len() && 0 <= b < self.available_labels@.len() && a != b
                ==> (#[trigger] self.available_labels@[a]) != (
            #[trigger] self.available_labels@[b])
        &&& forall|a: int|
            0 <= a < self.available_labels@.len() ==> !contains_label(
                s,
                #[trigger] self.available_labels@[a],
            )
        &&& forall|i: int|
            0 <= i < s.len() ==> (#[trigger] s[i].label) < s.len()
                + self.available_labels@.len()
        &&& forall|a: int|
            0 <= a < self.available_labels@.len() ==> (#[trigger] self.available_labels@[a])
                < s.len() + self.available_labels@.len()
    }

    /// Returns a new empty graph.
    pub fn new() -> (g: Graph<T>)
        ensures
            g.wf(),
            g@ == Seq::<VertexModel<T>>::empty(),
    {
        let g = Graph { vertices: Vec::new(), available_labels: Vec::new() };
        proof {
            assert(g@ =~= Seq::<VertexModel<T>>::empty());
        }
        g
    }

    /// Returns the next available label: a recycled one if any, else one
    /// past the largest in use.
    fn get_label(&mut self) -> (l: usize)
        requires
            old(self).wf(),
        ensures
            final(self)@ == old(self)@,
            !contains_label(old(self)@, l),
            forall|a: int, b: int|
                0 <= a < final(self).available_labels@.len() && 0 <= b < final(self).available_labels@.len() && a != b
                    ==> (#[trigger] final(self).available_labels@[a]) != (
                #[trigger] final(self).available_labels@[b]),
            forall|a: int|
                0 <= a < final(self).available_labels@.len() ==> !contains_label(
                    old(self)@,
                    #[trigger] final(self).available_labels@[a],
                ) && final(self).available_labels@[a] != l,
            forall|a: int|
                0 <= a < final(self).available_labels@.len() ==> (
                #[trigger] final(self).available_labels@[a]) < old(self)@.len() + final(self).available_labels@.len()
                    + 1,
            l < old(self)@.len() + final(self).available_labels@.len() + 1,
            forall|i: int|
                0 <= i < old(self)@.len() ==> (#[trigger] old(self)@[i].label) < old(self)@.len()
                    + final(self).available_labels@.len() + 1,
    {
        match self.available_labels.pop() {
            Some(l) => l,
            None => {
                let n = self.vertices.len();
                proof {
                    lemma_distinct_labels_bound(self@, self.available_labels@);
                }
                n
            },
        }
    }

    /// Returns the number of vertices in the graph.
    pub fn num_vertices(&self) -> (n: usize)
        ensures
            n == self@.len(),
    {
        self.vertices.len()
    }

    /// Returns the number of edges in the graph.
    pub fn num_edges(&self) -> (n: usize)
        requires
            edge_count(self@) <= usize::MAX,
        ensures
            n == edge_count(self@),
    {
        let mut sum: usize = 0;
        let mut i: usize = 0;
        while i < self.vertices.len()
            invariant
                0 <= i <= self.vertices.len(),
                self@.len() == self.vertices.len(),
                sum == edge_count(self@.take(i as int)),
                edge_count(self@) <= usize::MAX,
            decreases self.vertices.len() - i,
        {
            proof {
                lemma_edge_count_take_step(self@, i as int);
                lemma_edge_count_take_monotonic(self@, i as int + 1);
                assert(self@.take(i as int + 1).drop_last() =~= self@.take(i as int));
            }
            sum = sum + self.vertices[i].neighbors.len();
            i = i + 1;
        }
        proof {
            assert(self@.take(self@.len() as int) =~= self@);
        }
        sum
    }

    /// Adds a new vertex with the given value and returns its label.
    pub fn add_vertex(&mut self, value: T) -> (l: usize)
        requires
            old(self).wf(),
        ensures
            final(self).wf(),
            !contains_label(old(self)@, l),
            final(self)@ == old(self)@.push(
                VertexModel { label: l, value, neighbors: Seq::empty() },
            ),
    {
        let label = self.get_label();
        self.vertices.push(Vertex { label, value, neighbors: Vec::new() });
        proof {
            let s = old(self)@;
            let m = VertexModel { label, value, neighbors: Seq::<usize>::empty() };
            assert(self@ =~= s.push(m));
            assert forall|l2: usize| contains_label(s, l2) implies contains_label(
                self@,
                l2,
            ) by {
                let i = index_of_label(s, l2);
                assert(self@[i].label == l2);
            }
            assert forall|i: int, k: int|
                0 <= i < self@.len() && 0 <= k < self@[i].neighbors.len() implies contains_label(
                self@,
                #[trigger] self@[i].neighbors[k],
            ) by {
                assert(contains_label(s, self@[i].neighbors[k]));
            }
        }
        label
    }

    /// Gets the vertex with the given label.
    pub fn get_vertex(&self, label: &usize) -> (r: Option<&Vertex<T>>)
        requires
            self.wf(),
        ensures
            match r {
                Some(v) => contains_label(self@, *label) && v@ == vertex_of(self@, *label),
                None => !contains_label(self@, *label),
            },
    {
        let mut i: usize = 0;
        while i < self.vertices.len()
            invariant
                0 <= i <= self.vertices.len(),
                self@.len() == self.vertices.len(),
                self.wf(),
                forall|j: int| 0 <= j < i ==> (#[trigger] self@[j]).label != *label,
            decreases self.vertices.len() - i,
        {
            if self.vertices[i].label == *label {
                proof {
                    assert(self@[i as int].label == *label);
                    assert(contains_label(self@, *label));
                    let w = index_of_label(self@, *label);
                    assert(0 <= w < self@.len() && self@[w].label == *label);
                    assert(w == i as int);
                }
                return Some(&self.vertices[i]);
            }
            i = i + 1;
        }
        None
    }

    /// Returns true if the graph has a vertex with the given label.
    pub fn has_vertex(&self, label: &usize) -> (r: bool)
        requires
            self.wf(),
        ensures
            r == contains_label(self@, *label),
    {
        self.get_vertex(label).is_some()
    }

    /// The position of the vertex labelled `l`, or the vertex count if there
    /// is none.
    fn find_index(&self, label: &usize) -> (idx: usize)
        requires
            self.wf(),
        ensures
            idx <= self@.len(),
            idx < self@.len() ==> self@[idx as int].label == *label && idx == index_of_label(
                self@,
                *label,
            ),
            idx == self@.len() ==> !contains_label(self@, *label),
    {
        let mut i: usize = 0;
        while i < self.vertices.len()
            invariant
                0 <= i <= self.vertices.len(),
                self@.len() == self.vertices.len(),
                self.wf(),
                forall|j: int| 0 <= j < i ==> (#[trigger] self@[j]).label != *label,
            decreases self.vertices.len() - i,
        {
            if self.vertices[i].label == *label {
                proof {
                    assert(self@[i as int].label == *label);
                    assert(contains_label(self@, *label));
                    let w = index_of_label(self@, *label);
                    assert(0 <= w < self@.len() && self@[w].label == *label);
                    assert(w == i as int);
                }
                return i;
            }
            i = i + 1;
        }
        self.vertices.len()
    }

    /// Adds a directed edge from the first given label to the second.
    /// Returns true if the edge was added, false if it already exists.
    pub fn add_edge(&mut self, label_source: &usize, label_sink: usize) -> (r: Result<
        bool,
        GraphError,
    >)
        requires
            old(self).wf(),
        ensures
            final(self).wf(),
            ({
                let s = old(self)@;
                if label_sink == *label_source {
                    r == Result::<bool, GraphError>::Err(
                        GraphError::InvalidEdge(*label_source, label_sink),
                    ) && final(self)@ == s
                } else if !contains_label(s, label_sink) {
                    r == Result::<bool, GraphError>::Err(GraphError::VertexNotFound(label_sink))
                        && final(self)@ == s
                } else if !contains_label(s, *label_source) {
                    r == Result::<bool, GraphError>::Err(GraphError::VertexNotFound(*label_source))
                        && final(self)@ == s
                } else if has_edge_in(s, *label_source, label_sink) {
                    r == Result::<bool, GraphError>::Ok(false) && final(self)@ == s
                } else {
                    r == Result::<bool, GraphError>::Ok(true) && final(self)@ == s.update(
                        index_of_label(s, *label_source),
                        VertexModel {
                            label: vertex_of(s, *label_source).label,
                            value: vertex_of(s, *label_source).value,
                            neighbors: vertex_of(s, *label_source).neighbors.push(label_sink),
                        },
                    )
                }
            }),
    {
        if label_sink == *label_source {
            return Err(GraphError::InvalidEdge(*label_source, label_sink));
        }
        if !self.has_vertex(&label_sink) {
            return Err(GraphError::VertexNotFound(label_sink));
        }
        let idx = self.find_index(label_source);
        if idx == self.vertices.len() {
            return Err(GraphError::VertexNotFound(*label_source));
        }
        let v = &mut self.vertices[idx];
        let added = v.add_neighbor(label_sink);
        proof {
            let s = old(self)@;
            let i = idx as int;
            assert(self@ =~= s.update(i, self@[i]));
            assert(vertex_of(s, *label_source) == s[i]);
            if !added {
                assert(self@ =~= s);
                assert(has_edge_in(s, *label_source, label_sink));
            } else {
                assert(!has_edge_in(s, *label_source, label_sink));
                assert(self@[i] == VertexModel {
                    label: s[i].label,
                    value: s[i].value,
                    neighbors: s[i].neighbors.push(label_sink),
                });
                lemma_wf_update_push(*old(self), *self, i, label_sink, self@[i]);
            }
        }
        Ok(added)
    }

    /// Returns true if a directed edge from the first given vertex label to
    /// the second exists.
    pub fn has_edge(&self, label_source: &usize, label_sink: &usize) -> (r: bool)
        requires
            self.wf(),
        ensures
            r == has_edge_in(self@, *label_source, *label_sink),
    {
        match self.get_vertex(label_source) {
            Some(v) => v.has_neighbor(label_sink),
            None => false,
        }
    }

    /// Removes a directed edge from the first given label to the second.
    /// Returns true if the edge was removed, false if it wasn't in the
    /// graph.
    pub fn delete_edge(&mut self, label_source: &usize, label_sink: &usize) -> (r: Result<
        bool,
        GraphError,
    >)
        requires
            old(self).wf(),
        ensures
            final(self).wf(),
            ({
                let s = old(self)@;
                if *label_sink == *label_source {
                    r == Result::<bool, GraphError>::Err(
                        GraphError::InvalidEdge(*label_source, *label_sink),
                    ) && final(self)@ == s
                } else if !contains_label(s, *label_sink) {
                    r == Result::<bool, GraphError>::Err(GraphError::VertexNotFound(*label_sink))
                        && final(self)@ == s
                } else if !contains_label(s, *label_source) {
                    r == Result::<bool, GraphError>::Err(GraphError::VertexNotFound(*label_source))
                        && final(self)@ == s
                } else {
                    r == Result::<bool, GraphError>::Ok(
                        has_edge_in(s, *label_source, *label_sink),
                    ) && final(self)@ == s.update(
                        index_of_label(s, *label_source),
                        VertexModel {
                            label: vertex_of(s, *label_source).label,
                            value: vertex_of(s, *label_source).value,
                            neighbors: vertex_of(s, *label_source).neighbors.remove_value(
                                *label_sink,
                            ),
                        },
                    )
                }
            }),
    {
        if *label_sink == *label_source {
            return Err(GraphError::InvalidEdge(*label_source, *label_sink));
        }
        if !self.has_vertex(label_sink) {
            return Err(GraphError::VertexNotFound(*label_sink));
        }
        let idx = self.find_index(label_source);
        if idx == self.vertices.len() {
            return Err(GraphError::VertexNotFound(*label_source));
        }
        let v = &mut self.vertices[idx];
        let removed = v.delete_neighbor(label_sink);
        proof {
            let s = old(self)@;
            let i = idx as int;
            assert(self@ =~= s.update(i, self@[i]));
            assert(vertex_of(s, *label_source) == s[i]);
            assert(self@[i] == VertexModel {
                label: s[i].label,
                value: s[i].value,
                neighbors: s[i].neighbors.remove_value(*label_sink),
            });
            lemma_wf_update_remove(*old(self), *self, i, *label_sink);
        }
        Ok(removed)
    }

    /// Returns true if the graph has at least one directed cycle.
    pub fn has_cycle(&self) -> (r: bool)
        requires
            self.wf(),
        ensures
            r == has_cycle_in(self@),
    {
        let mut visited: Vec<usize> = Vec::new();
        let mut rec_stack: Vec<usize> = Vec::new();
        let mut rank: Ghost<Map<usize, nat>> = Ghost(Map::empty());
        let mut cnt: Ghost<nat> = Ghost(0nat);
        let mut i: usize = 0;
        while i < self.vertices.len()
            invariant
                self.wf(),
                self@.len() == self.vertices.len(),
                rec_stack@ == Seq::<usize>::empty(),
                visited@.no_duplicates(),
                forall|j: int|
                    0 <= j < visited@.len() ==> contains_label(self@, #[trigger] visited@[j]),
                forall|j: int| 0 <= j < i ==> visited@.contains((#[trigger] self@[j]).label),
                blacks_ok(self@, visited@, rec_stack@, rank@, cnt@),
            decreases self.vertices.len() - i,
        {
            let current_label = self.vertices[i].label;
            proof {
                assert(self@[i as int].label == current_label);
                assert(contains_label(self@, current_label));
            }
            if !vec_contains(&visited, current_label) {
                let (found, r2, c2) = self.has_cycle_util(
                    current_label,
                    &mut visited,
                    &mut rec_stack,
                    rank,
                    cnt,
                );
                rank = r2;
                cnt = c2;
                if found {
                    return true;
                }
            }
            i = i + 1;
        }
        proof {
            lemma_no_cycle(self@, visited@, rank@, cnt@);
        }
        false
    }

    /// One depth-first visit starting at an unvisited vertex; true means a
    /// cycle was found.
    fn has_cycle_util(
        &self,
        current_label: usize,
        visited: &mut Vec<usize>,
        rec_stack: &mut Vec<usize>,
        rank: Ghost<Map<usize, nat>>,
        cnt: Ghost<nat>,
    ) -> (res: (bool, Ghost<Map<usize, nat>>, Ghost<nat>))
        requires
            self.wf(),
            contains_label(self@, current_label),
            !old(visited)@.contains(current_label),
            old(visited)@.no_duplicates(),
            forall|j: int|
                0 <= j < old(visited)@.len() ==> contains_label(
                    self@,
                    #[trigger] old(visited)@[j],
                ),
            forall|j: int|
                0 <= j < old(rec_stack)@.len() ==> old(visited)@.contains(
                    #[trigger] old(rec_stack)@[j],
                ),
            is_path(self@, old(rec_stack)@),
            old(rec_stack)@.len() > 0 ==> has_edge_in(
                self@,
                old(rec_stack)@.last(),
                current_label,
            ),
            blacks_ok(self@, old(visited)@, old(rec_stack)@, rank@, cnt@),
        ensures
            res.0 ==> has_cycle_in(self@),
            !res.0 ==> ({
                &&& final(rec_stack)@ == old(rec_stack)@
                &&& final(visited)@.no_duplicates()
                &&& forall|j: int|
                    0 <= j < final(visited)@.len() ==> contains_label(
                        self@,
                        #[trigger] final(visited)@[j],
                    )
                &&& forall|x: usize| old(visited)@.contains(x) ==> final(visited)@.contains(x)
                &&& final(visited)@.contains(current_label)
                &&& final(visited)@.len() > old(visited)@.len()
                &&& blacks_ok(self@, final(visited)@, old(rec_stack)@, res.1@, res.2@)
            }),
        decreases self@.len() - visited@.len(),
    {
        let ghost s = self@;
        visited.push(current_label);
        rec_stack.push(current_label);
        proof {
            let rs_old = old(rec_stack)@;
            let rs_in = rec_stack@;
            let vis_old = old(visited)@;
            assert forall|j: int, j2: int|
                0 <= j < j2 < visited@.len() implies visited@[j] != visited@[j2] by {
                if j2 == visited@.len() - 1 {
                    assert(vis_old[j] == visited@[j]);
                    assert(vis_old.contains(visited@[j]));
                }
            }
            assert forall|x: usize| vis_old.contains(x) implies visited@.contains(x) by {
                let j = choose|j: int| 0 <= j < vis_old.len() && vis_old[j] == x;
                assert(visited@[j] == x);
            }
            assert(visited@[visited@.len() - 1] == current_label);
            assert(visited@.contains(current_label));
            assert forall|j: int| 0 <= j < rs_in.len() implies visited@.contains(
                #[trigger] rs_in[j],
            ) by {
                if j < rs_old.len() {
                    assert(rs_in[j] == rs_old[j]);
                    assert(vis_old.contains(rs_old[j]));
                } else {
                    assert(rs_in[j] == current_label);
                }
            }
            assert forall|i2: int| 0 <= i2 < rs_in.len() - 1 implies has_edge_in(
                s,
                #[trigger] rs_in[i2],
                rs_in[i2 + 1],
            ) by {
                if i2 < rs_old.len() - 1 {
                    assert(rs_in[i2] == rs_old[i2] && rs_in[i2 + 1] == rs_old[i2 + 1]);
                    assert(has_edge_in(s, rs_old[i2], rs_old[i2 + 1]));
                } else {
                    assert(rs_in[i2] == rs_old.last() && rs_in[i2 + 1] == current_label);
                }
            }
            assert forall|u: usize|
                #[trigger] visited@.contains(u) && !rs_in.contains(u) implies black_ok_at(
                s,
                visited@,
                rs_in,
                rank@,
                cnt@,
                u,
            ) by {
                assert(rs_in[rs_in.len() - 1] == current_label);
                assert(rs_in.contains(current_label));
                assert(u != current_label);
                let j = choose|j: int| 0 <= j < visited@.len() && visited@[j] == u;
                assert(j < vis_old.len());
                assert(vis_old[j] == u);
                assert(vis_old.contains(u));
                assert(!rs_old.contains(u)) by {
                    if rs_old.contains(u) {
                        let j2 = choose|j2: int| 0 <= j2 < rs_old.len() && rs_old[j2] == u;
                        assert(rs_in[j2] == u);
                    }
                }
                assert(black_ok_at(s, vis_old, rs_old, rank@, cnt@, u));
                assert forall|kk: int|
                    0 <= kk < vertex_of(s, u).neighbors.len() implies neighbor_black(
                    s,
                    visited@,
                    rs_in,
                    rank@,
                    u,
                    #[trigger] vertex_of(s, u).neighbors[kk],
                ) by {
                    let w = vertex_of(s, u).neighbors[kk];
                    assert(neighbor_black(s, vis_old, rs_old, rank@, u, w));
                    assert(visited@.contains(w));
                    assert(w != current_label);
                    assert(!rs_in.contains(w)) by {
                        if rs_in.contains(w) {
                            let j3 = choose|j3: int| 0 <= j3 < rs_in.len() && rs_in[j3] == w;
                            assert(j3 < rs_old.len());
                            assert(rs_old[j3] == w);
                        }
                    }
                }
            }
        }
        let mut rank_m: Ghost<Map<usize, nat>> = rank;
        let mut cnt_m: Ghost<nat> = cnt;
        let idx = self.find_index(&current_label);
        let mut k: usize = 0;
        while k < self.vertices[idx].neighbors.len()
            invariant
                self.wf(),
                s == self@,
                contains_label(s, current_label),
                0 <= idx < s.len(),
                s[idx as int].label == current_label,
                vertex_of(s, current_label) == s[idx as int],
                self@.len() == self.vertices.len(),
                0 <= k <= s[idx as int].neighbors.len(),
                rec_stack@ == old(rec_stack)@.push(current_label),
                visited@.no_duplicates(),
                forall|j: int|
                    0 <= j < visited@.len() ==> contains_label(s, #[trigger] visited@[j]),
                forall|x: usize| old(visited)@.contains(x) ==> visited@.contains(x),
                visited@.contains(current_label),
                visited@.len() > old(visited)@.len(),
                forall|j: int|
                    0 <= j < rec_stack@.len() ==> visited@.contains(#[trigger] rec_stack@[j]),
                is_path(s, rec_stack@),
                blacks_ok(s, visited@, rec_stack@, rank_m@, cnt_m@),
                forall|kk: int|
                    0 <= kk < k ==> visited@.contains(#[trigger] s[idx as int].neighbors[kk])
                        && !rec_stack@.contains(s[idx as int].neighbors[kk]),
            decreases s[idx as int].neighbors.len() - k,
        {
            let neighbor = self.vertices[idx].neighbors[k];
            proof {
                assert(contains_label(s, s[idx as int].neighbors[k as int]));
            }
            if !vec_contains(visited, neighbor) {
                proof {
                    lemma_visited_bound(s, visited@);
                    assert(rec_stack@.last() == current_label);
                    assert(has_edge_in(s, current_label, neighbor)) by {
                        assert(vertex_of(s, current_label).neighbors[k as int] == neighbor);
                        assert(vertex_of(s, current_label).neighbors.contains(neighbor));
                    }
                }
                let (found, r2, c2) = self.has_cycle_util(neighbor, visited, rec_stack, rank_m,
                    cnt_m);
                rank_m = r2;
                cnt_m = c2;
                if found {
                    return (true, rank_m, cnt_m);
                }
            } else if vec_contains(rec_stack, neighbor) {
                proof {
                    let rs = rec_stack@;
                    let j = choose|j: int| 0 <= j < rs.len() && rs[j] == neighbor;
                    let cyc = rs.subrange(j, rs.len() as int).push(neighbor);
                    assert(has_edge_in(s, current_label, neighbor)) by {
                        assert(vertex_of(s, current_label).neighbors[k as int] == neighbor);
                        assert(vertex_of(s, current_label).neighbors.contains(neighbor));
                    }
                    assert(is_path(s, cyc)) by {
                        assert forall|i2: int| 0 <= i2 < cyc.len() - 1 implies has_edge_in(
                            s,
                            #[trigger] cyc[i2],
                            cyc[i2 + 1],
                        ) by {
                            if i2 < cyc.len() - 2 {
                                assert(cyc[i2] == rs[j + i2] && cyc[i2 + 1] == rs[j + i2 + 1]);
                                assert(has_edge_in(s, rs[j + i2], rs[j + i2 + 1]));
                            } else {
                                assert(cyc[i2] == rs[rs.len() - 1]);
                                assert(rs[rs.len() - 1] == current_label);
                                assert(cyc[i2 + 1] == neighbor);
                            }
                        }
                    }
                    assert(cyc.first() == neighbor && cyc.last() == neighbor && cyc.len() >= 2);
                    assert(is_cycle(s, cyc));
                    assert(has_cycle_in(s));
                }
                return (true, rank_m, cnt_m);
            }
            k = k + 1;
        }
        let popped = rec_stack.pop();
        let ghost rank_before = rank_m@;
        let ghost cnt_before = cnt_m@;
        rank_m = Ghost(rank_m@.insert(current_label, cnt_m@));
        cnt_m = Ghost((cnt_m@ + 1) as nat);
        proof {
            assert(rec_stack@ == old(rec_stack)@);
            let rs_old = old(rec_stack)@;
            let rs_in = rs_old.push(current_label);
            assert forall|x: usize| rs_old.contains(x) implies rs_in.contains(x) by {
                let j = choose|j: int| 0 <= j < rs_old.len() && rs_old[j] == x;
                assert(rs_in[j] == x);
            }
            assert forall|u: usize|
                #[trigger] visited@.contains(u) && !rs_old.contains(u) implies black_ok_at(
                s,
                visited@,
                rs_old,
                rank_m@,
                cnt_m@,
                u,
            ) by {
                if u == current_label {
                    assert(rank_m@[u] == cnt_before);
                    assert forall|kk: int|
                        0 <= kk < vertex_of(s, u).neighbors.len() implies neighbor_black(
                        s,
                        visited@,
                        rs_old,
                        rank_m@,
                        u,
                        #[trigger] vertex_of(s, u).neighbors[kk],
                    ) by {
                        let w = vertex_of(s, u).neighbors[kk];
                        assert(vertex_of(s, current_label) == s[idx as int]);
                        assert(visited@.contains(w) && !rs_in.contains(w));
                        assert(black_ok_at(s, visited@, rs_in, rank_before, cnt_before, w));
                        assert(w != current_label) by {
                            assert(rs_in.last() == current_label);
                            assert(rs_in.contains(current_label));
                        }
                        assert(rank_m@[w] == rank_before[w]);
                        assert(rank_before[w] < cnt_before);
                    }
                } else {
                    assert(!rs_in.contains(u));
                    assert(black_ok_at(s, visited@, rs_in, rank_before, cnt_before, u));
                    assert(rank_m@[u] == rank_before[u]);
                    assert forall|kk: int|
                        0 <= kk < vertex_of(s, u).neighbors.len() implies neighbor_black(
                        s,
                        visited@,
                        rs_old,
                        rank_m@,
                        u,
                        #[trigger] vertex_of(s, u).neighbors[kk],
                    ) by {
                        let w = vertex_of(s, u).neighbors[kk];
                        assert(neighbor_black(s, visited@, rs_in, rank_before, u, w));
                        assert(w != current_label) by {
                            assert(rs_in.last() == current_label);
                            assert(rs_in.contains(current_label));
                        }
                        assert(rank_m@[w] == rank_before[w]);
                    }
                }
            }
        }
        (false, rank_m, cnt_m)
    }

    /// Removes the vertex with the given label from the graph and returns
    /// its value. Every edge into the vertex is removed as well; edges into
    /// other vertices are kept even when the vertex is absent and an error
    /// is returned.
    pub fn delete_vertex(&mut self, label: &usize) -> (r: Result<T, GraphError>)
        requires
            old(self).wf(),
        ensures
            final(self).wf(),
            ({
                let s = old(self)@;
                if contains_label(s, *label) {
                    match r {
                        Ok(value) => value == vertex_of(s, *label).value && final(self)@
                            == strip_label(s, *label).remove(index_of_label(s, *label)),
                        Err(_) => false,
                    }
                } else {
                    r == Result::<T, GraphError>::Err(GraphError::VertexNotFound(*label))
                        && final(self)@ == strip_label(s, *label)
                }
            }),
    {
        let ghost s = self@;
        let mut i: usize = 0;
        while i < self.vertices.len()
            invariant
                0 <= i <= self.vertices.len(),
                self.vertices@.len() == s.len(),
                self.available_labels == old(self).available_labels,
                s == old(self)@,
                forall|j: int| 0 <= j < i ==> self@[j] == strip_label(s, *label)[j],
                forall|j: int| i <= j < s.len() ==> self@[j] == s[j],
            decreases self.vertices.len() - i,
        {
            let v = &mut self.vertices[i];
            v.delete_neighbor(label);
            i = i + 1;
        }
        proof {
            assert(self@ =~= strip_label(s, *label));
            lemma_wf_strip(*old(self), *self, *label);
            lemma_same_labels_contains(s, self@);
        }
        let idx = self.find_index(label);
        if idx == self.vertices.len() {
            return Err(GraphError::VertexNotFound(*label));
        }
        let ghost t = self@;
        let removed = self.vertices.remove(idx);
        self.available_labels.push(*label);
        proof {
            assert(self@ =~= t.remove(idx as int));
            assert(index_of_label(s, *label) == idx as int);
            assert(vertex_of(s, *label) == s[idx as int]);
            assert(removed@ == t[idx as int]);
            assert(removed@.value == s[idx as int].value);
            lemma_wf_remove_vertex(*old(self), *self, *label, idx as int, t);
        }
        Ok(removed.value)
    }
}

/// `p` is a directed walk: an edge joins each element to the next.
pub open spec fn is_path<T>(s: Seq<VertexModel<T>>, p: Seq<usize>) -> bool {
    forall|i: int| 0 <= i < p.len() - 1 ==> has_edge_in(s, #[trigger] p[i], p[i + 1])
}

/// `p` is a directed cycle: a walk of at least one edge that returns to its
/// first vertex.
pub open spec fn is_cycle<T>(s: Seq<VertexModel<T>>, p: Seq<usize>) -> bool {
    p.len() >= 2 && is_path(s, p) && p.first() == p.last()
}

pub open spec fn has_cycle_in<T>(s: Seq<VertexModel<T>>) -> bool {
    exists|p: Seq<usize>| is_cycle(s, p)
}

/// A finished (black) vertex of the search: ranked below the counter, with
/// every neighbor finished and ranked strictly below it.
spec fn black_ok_at<T>(
    s: Seq<VertexModel<T>>,
    visited: Seq<usize>,
    rs: Seq<usize>,
    rank: Map<usize, nat>,
    cnt: nat,
    u: usize,
) -> bool {
    &&& rank.contains_key(u)
    &&& rank[u] < cnt
    &&& forall|k: int|
        0 <= k < vertex_of(s, u).neighbors.len() ==> neighbor_black(
            s,
            visited,
            rs,
            rank,
            u,
            #[trigger] vertex_of(s, u).neighbors[k],
        )
}

spec fn neighbor_black<T>(
    s: Seq<VertexModel<T>>,
    visited: Seq<usize>,
    rs: Seq<usize>,
    rank: Map<usize, nat>,
    u: usize,
    w: usize,
) -> bool {
    &&& visited.contains(w)
    &&& !rs.contains(w)
    &&& rank.contains_key(w)
    &&& rank[w] < rank[u]
}

/// The depth-first search's central invariant: every visited vertex off the
/// recursion stack is finished, and its edges lead only to finished vertices
/// of strictly smaller rank.
spec fn blacks_ok<T>(
    s: Seq<VertexModel<T>>,
    visited: Seq<usize>,
    rs: Seq<usize>,
    rank: Map<usize, nat>,
    cnt: nat,
) -> bool {
    forall|u: usize|
        #[trigger] visited.contains(u) && !rs.contains(u) ==> black_ok_at(
            s,
            visited,
            rs,
            rank,
            cnt,
            u,
        )
}

/// A duplicate-free sequence of labels of `s` is no longer than `s`.
proof fn lemma_visited_bound<T>(s: Seq<VertexModel<T>>, visited: Seq<usize>)
    requires
        visited.no_duplicates(),
        forall|j: int| 0 <= j < visited.len() ==> contains_label(s, #[trigger] visited[j]),
    ensures
        visited.len() <= s.len(),
{
    broadcast use vstd::seq_lib::group_seq_properties;

    let labels = s.map(|i: int, v: VertexModel<T>| v.label);
    visited.unique_seq_to_set();
    labels.lemma_cardinality_of_set();
    assert forall|x: usize| visited.to_set().contains(x) implies labels.to_set().contains(x) by {
        assert(visited.contains(x));
        assert(contains_label(s, x));
        let i = index_of_label(s, x);
        assert(labels[i] == x);
        assert(labels.contains(x));
    }
    assert(visited.to_set().subset_of(labels.to_set()));
    vstd::set_lib::lemma_len_subset(visited.to_set(), labels.to_set());
}

/// Along any walk of finished vertices the rank falls strictly, so a ranked
/// graph has no cycle through ranked vertices.
proof fn lemma_path_rank<T>(s: Seq<VertexModel<T>>, rank: Map<usize, nat>, p: Seq<usize>)
    requires
        forall|u: usize, w: usize|
            #[trigger] has_edge_in(s, u, w) ==> rank.contains_key(u) && rank.contains_key(w)
                && rank[w] < rank[u],
        is_path(s, p),
        p.len() >= 2,
    ensures
        rank.contains_key(p.first()) && rank.contains_key(p.last()) && rank[p.last()]
            < rank[p.first()],
    decreases p.len(),
{
    assert(has_edge_in(s, p[p.len() - 2], p[p.len() - 1]));
    if p.len() > 2 {
        let q = p.drop_last();
        assert(is_path(s, q)) by {
            assert forall|i: int| 0 <= i < q.len() - 1 implies has_edge_in(
                s,
                #[trigger] q[i],
                q[i + 1],
            ) by {
                assert(q[i] == p[i] && q[i + 1] == p[i + 1]);
                assert(has_edge_in(s, p[i], p[i + 1]));
            }
        }
        lemma_path_rank(s, rank, q);
        assert(q.first() == p.first() && q.last() == p[p.len() - 2]);
    }
}

/// When every vertex is finished and the stack is empty, the rank falls
/// along every edge, and the graph is acyclic.
proof fn lemma_no_cycle<T>(
    s: Seq<VertexModel<T>>,
    visited: Seq<usize>,
    rank: Map<usize, nat>,
    cnt: nat,
)
    requires
        blacks_ok(s, visited, Seq::<usize>::empty(), rank, cnt),
        forall|j: int| 0 <= j < s.len() ==> visited.contains((#[trigger] s[j]).label),
    ensures
        !has_cycle_in(s),
{
    assert forall|u: usize, w: usize| #[trigger] has_edge_in(s, u, w) implies rank.contains_key(u)
        && rank.contains_key(w) && rank[w] < rank[u] by {
        let i = index_of_label(s, u);
        assert(s[i].label == u);
        assert(visited.contains(u));
        assert(!Seq::<usize>::empty().contains(u));
        assert(black_ok_at(s, visited, Seq::<usize>::empty(), rank, cnt, u));
        assert(vertex_of(s, u).neighbors.contains(w));
        let k = choose|k: int| 0 <= k < vertex_of(s, u).neighbors.len() && vertex_of(
            s,
            u,
        ).neighbors[k] == w;
        assert(neighbor_black(s, visited, Seq::<usize>::empty(), rank, u, vertex_of(
            s,
            u,
        ).neighbors[k]));
    }
    if has_cycle_in(s) {
        let p = choose|p: Seq<usize>| is_cycle(s, p);
        lemma_path_rank(s, rank, p);
    }
}

/// Every adjacency list of `s` with its first mention of `l` removed, as a
/// vertex deletion leaves the remaining vertices.
pub open spec fn strip_label<T>(s: Seq<VertexModel<T>>, l: usize) -> Seq<VertexModel<T>> {
    s.map(
        |i: int, v: VertexModel<T>|
            VertexModel {
                label: v.label,
                value: v.value,
                neighbors: v.neighbors.remove_value(l),
            },
    )
}

impl<T> Vertex<T> {
    /// Adds a neighbor to the vertex.
    /// Returns true if added, false if the neighbor was already a neighbor.
    pub fn add_neighbor(&mut self, label: usize) -> (r: bool)
        ensures
            final(self).label == old(self).label,
            final(self).value == old(self).value,
            r == !old(self).neighbors@.contains(label),
            final(self).neighbors@ == if old(self).neighbors@.contains(label) {
                old(self).neighbors@
            } else {
                old(self).neighbors@.push(label)
            },
    {
        if !self.has_neighbor(&label) {
            self.neighbors.push(label);
            return true;
        }
        false
    }

    /// Returns true if the vertex has the given neighbor.
    pub fn has_neighbor(&self, neighbor: &usize) -> (r: bool)
        ensures
            r == self.neighbors@.contains(*neighbor),
    {
        let mut i: usize = 0;
        while i < self.neighbors.len()
            invariant
                0 <= i <= self.neighbors@.len(),
                forall|j: int| 0 <= j < i ==> self.neighbors@[j] != *neighbor,
            decreases self.neighbors@.len() - i,
        {
            if self.neighbors[i] == *neighbor {
                return true;
            }
            i = i + 1;
        }
        false
    }

    /// Deletes the given neighbor of the vertex.
    /// Returns true if the neighbor was removed, false if it was not a
    /// neighbor originally.
    pub fn delete_neighbor(&mut self, neighbor: &usize) -> (r: bool)
        ensures
            final(self).label == old(self).label,
            final(self).value == old(self).value,
            r == old(self).neighbors@.contains(*neighbor),
            final(self).neighbors@ == old(self).neighbors@.remove_value(*neighbor),
    {
        let mut i: usize = 0;
        while i < self.neighbors.len()
            invariant
                0 <= i <= self.neighbors@.len(),
                *self == *old(self),
                forall|j: int| 0 <= j < i ==> self.neighbors@[j] != *neighbor,
            decreases self.neighbors@.len() - i,
        {
            if self.neighbors[i] == *neighbor {
                proof {
                    assert(old(self).neighbors@[i as int] == *neighbor);
                    assert(old(self).neighbors@.contains(*neighbor));
                    old(self).neighbors@.index_of_first_ensures(*neighbor);
                }
                self.neighbors.remove(i);
                return true;
            }
            i = i + 1;
        }
        proof {
            old(self).neighbors@.index_of_first_ensures(*neighbor);
        }
        false
    }

    /// Returns the number of neighbors of the vertex.
    pub fn num_neighbors(&self) -> (n: usize)
        ensures
            n == self.neighbors@.len(),
    {
        self.neighbors.len()
    }
}

/// What removing the first occurrence of a value leaves: a subsequence of
/// the original; on a duplicate-free list, still duplicate-free and without
/// the removed value.
proof fn lemma_remove_value_facts(q: Seq<usize>, x: usize)
    ensures
        q.len() - 1 <= q.remove_value(x).len() <= q.len(),
        forall|k: int|
            0 <= k < q.remove_value(x).len() ==> q.contains(#[trigger] q.remove_value(x)[k]),
        (forall|a: int, b: int| 0 <= a < b < q.len() ==> q[a] != q[b]) ==> ((forall|a: int, b: int|
            0 <= a < b < q.remove_value(x).len() ==> (#[trigger] q.remove_value(x)[a]) != (
            #[trigger] q.remove_value(x)[b])) && !q.remove_value(x).contains(x)),
{
    q.index_of_first_ensures(x);
    match q.index_of_first(x) {
        Some(ri) => {
            q.remove_ensures(ri);
            let rv = q.remove_value(x);
            assert forall|k: int| 0 <= k < rv.len() implies q.contains(#[trigger] rv[k]) by {
                if k < ri {
                    assert(rv[k] == q[k]);
                } else {
                    assert(rv[k] == q[k + 1]);
                }
            }
            if forall|a: int, b: int| 0 <= a < b < q.len() ==> q[a] != q[b] {
                assert forall|a: int, b: int| 0 <= a < b < rv.len() implies (#[trigger] rv[a]) != (
                #[trigger] rv[b]) by {
                    let a2 = if a < ri {
                        a
                    } else {
                        a + 1
                    };
                    let b2 = if b < ri {
                        b
                    } else {
                        b + 1
                    };
                    assert(rv[a] == q[a2] && rv[b] == q[b2]);
                }
                if rv.contains(x) {
                    let k = choose|k: int| 0 <= k < rv.len() && rv[k] == x;
                    let k2 = if k < ri {
                        k
                    } else {
                        k + 1
                    };
                    assert(q[k2] == x && q[ri] == x && k2 != ri);
                }
            }
        },
        None => {},
    }
}

/// Whether the vector holds the value.
fn vec_contains(v: &Vec<usize>, x: usize) -> (r: bool)
    ensures
        r == v@.contains(x),
{
    let mut i: usize = 0;
    while i < v.len()
        invariant
            0 <= i <= v@.len(),
            forall|j: int| 0 <= j < i ==> v@[j] != x,
        decreases v@.len() - i,
    {
        if v[i] == x {
            return true;
        }
        i = i + 1;
    }
    false
}

/// Vertex sequences with the same labels in the same positions contain the
/// same labels.
proof fn lemma_same_labels_contains<T>(s1: Seq<VertexModel<T>>, s2: Seq<VertexModel<T>>)
    requires
        s1.len() == s2.len(),
        forall|i: int| 0 <= i < s1.len() ==> (#[trigger] s1[i]).label == s2[i].label,
    ensures
        forall|l: usize| contains_label(s1, l) == contains_label(s2, l),
{
    assert forall|l: usize| contains_label(s1, l) == contains_label(s2, l) by {
        if contains_label(s1, l) {
            let i = index_of_label(s1, l);
            assert(s2[i].label == l);
            assert(contains_label(s2, l));
        }
        if contains_label(s2, l) {
            let i = index_of_label(s2, l);
            assert(s1[i].label == l);
            assert(contains_label(s1, l));
        }
    }
}

/// Appending a fresh, non-self, existing-vertex neighbor to one adjacency
/// list preserves well-formedness.
proof fn lemma_wf_update_push<T>(g1: Graph<T>, g2: Graph<T>, i: int, sink: usize, m: VertexModel<
    T,
>)
    requires
        g1.wf(),
        0 <= i < g1@.len(),
        g2.available_labels@ == g1.available_labels@,
        contains_label(g1@, sink),
        !g1@[i].neighbors.contains(sink),
        sink != g1@[i].label,
        m.label == g1@[i].label,
        m.neighbors == g1@[i].neighbors.push(sink),
        g2@ == g1@.update(i, m),
    ensures
        g2.wf(),
{
    let s1 = g1@;
    let s2 = g2@;
    assert forall|j: int| 0 <= j < s1.len() implies (#[trigger] s1[j]).label == s2[j].label by {}
    lemma_same_labels_contains(s1, s2);
    assert forall|j: int, k: int|
        0 <= j < s2.len() && 0 <= k < s2[j].neighbors.len() implies contains_label(
        s2,
        #[trigger] s2[j].neighbors[k],
    ) by {
        if j == i {
            if k < s1[i].neighbors.len() {
                assert(s2[j].neighbors[k] == s1[i].neighbors[k]);
                assert(contains_label(s1, s1[i].neighbors[k]));
            } else {
                assert(s2[j].neighbors[k] == sink);
            }
        } else {
            assert(s2[j] == s1[j]);
            assert(contains_label(s1, s1[j].neighbors[k]));
        }
    }
    assert forall|j: int, k: int, k2: int|
        0 <= j < s2.len() && 0 <= k < k2 < s2[j].neighbors.len() implies (
    #[trigger] s2[j].neighbors[k]) != (#[trigger] s2[j].neighbors[k2]) by {
        if j == i {
            if k2 == s1[i].neighbors.len() {
                assert(s2[j].neighbors[k] == s1[i].neighbors[k]);
                assert(s1[i].neighbors.contains(s1[i].neighbors[k]));
            }
        }
    }
    assert forall|j: int, k: int|
        0 <= j < s2.len() && 0 <= k < s2[j].neighbors.len() implies #[trigger] s2[j].neighbors[k]
        != s2[j].label by {
        if j == i && k == s1[i].neighbors.len() {
            assert(s2[j].neighbors[k] == sink);
        }
    }
}

/// Removing one neighbor entry from one adjacency list preserves
/// well-formedness.
proof fn lemma_wf_update_remove<T>(g1: Graph<T>, g2: Graph<T>, i: int, x: usize)
    requires
        g1.wf(),
        0 <= i < g1@.len(),
        g2.available_labels@ == g1.available_labels@,
        g2@ == g1@.update(
            i,
            VertexModel {
                label: g1@[i].label,
                value: g2@[i].value,
                neighbors: g1@[i].neighbors.remove_value(x),
            },
        ),
    ensures
        g2.wf(),
{
    let s1 = g1@;
    let s2 = g2@;
    lemma_remove_value_facts(s1[i].neighbors, x);
    assert forall|j: int| 0 <= j < s1.len() implies (#[trigger] s1[j]).label == s2[j].label by {}
    lemma_same_labels_contains(s1, s2);
    assert forall|j: int, k: int|
        0 <= j < s2.len() && 0 <= k < s2[j].neighbors.len() implies contains_label(
        s2,
        #[trigger] s2[j].neighbors[k],
    ) && s2[j].neighbors[k] != s2[j].label by {
        let e = s2[j].neighbors[k];
        if j == i {
            assert(s1[i].neighbors.contains(e));
            let k2 = choose|k2: int| 0 <= k2 < s1[i].neighbors.len() && s1[i].neighbors[k2] == e;
            assert(contains_label(s1, s1[i].neighbors[k2]));
            assert(s1[i].neighbors[k2] != s1[i].label);
        } else {
            assert(s2[j] == s1[j]);
            assert(contains_label(s1, s1[j].neighbors[k]));
        }
    }
    assert forall|j: int, k: int, k2: int|
        0 <= j < s2.len() && 0 <= k < k2 < s2[j].neighbors.len() implies (
    #[trigger] s2[j].neighbors[k]) != (#[trigger] s2[j].neighbors[k2]) by {
        if j != i {
            assert(s2[j] == s1[j]);
        }
    }
}

/// Stripping one label from every adjacency list preserves well-formedness.
proof fn lemma_wf_strip<T>(g1: Graph<T>, g2: Graph<T>, l: usize)
    requires
        g1.wf(),
        g2.available_labels@ == g1.available_labels@,
        g2@ == strip_label(g1@, l),
    ensures
        g2.wf(),
        forall|j: int|
            0 <= j < g2@.len() ==> !(#[trigger] g2@[j]).neighbors.contains(l),
{
    let s1 = g1@;
    let s2 = g2@;
    assert forall|j: int| 0 <= j < s1.len() implies (#[trigger] s1[j]).label == s2[j].label by {}
    lemma_same_labels_contains(s1, s2);
    assert forall|j: int|
        0 <= j < s2.len() implies !(#[trigger] s2[j]).neighbors.contains(l) by {
        lemma_remove_value_facts(s1[j].neighbors, l);
    }
    assert forall|j: int, k: int|
        0 <= j < s2.len() && 0 <= k < s2[j].neighbors.len() implies contains_label(
        s2,
        #[trigger] s2[j].neighbors[k],
    ) && s2[j].neighbors[k] != s2[j].label by {
        lemma_remove_value_facts(s1[j].neighbors, l);
        let e = s2[j].neighbors[k];
        assert(s1[j].neighbors.contains(e));
        let k2 = choose|k2: int| 0 <= k2 < s1[j].neighbors.len() && s1[j].neighbors[k2] == e;
        assert(contains_label(s1, s1[j].neighbors[k2]));
        assert(s1[j].neighbors[k2] != s1[j].label);
    }
    assert forall|j: int, k: int, k2: int|
        0 <= j < s2.len() && 0 <= k < k2 < s2[j].neighbors.len() implies (
    #[trigger] s2[j].neighbors[k]) != (#[trigger] s2[j].neighbors[k2]) by {
        lemma_remove_value_facts(s1[j].neighbors, l);
    }
}

/// Removing a vertex whose label no adjacency list mentions preserves
/// well-formedness, with the label handed back to the recycling pool.
proof fn lemma_wf_remove_vertex<T>(g1: Graph<T>, g2: Graph<T>, l: usize, idx: int, t: Seq<
    VertexModel<T>,
>)
    requires
        g1.wf(),
        t == strip_label(g1@, l),
        0 <= idx < t.len(),
        t[idx].label == l,
        g2@ == t.remove(idx),
        g2.available_labels@ == g1.available_labels@.push(l),
    ensures
        g2.wf(),
{
    let s1 = g1@;
    let s2 = g2@;
    let av1 = g1.available_labels@;
    let av2 = g2.available_labels@;
    t.remove_ensures(idx);
    assert forall|j: int| 0 <= j < s1.len() implies (#[trigger] s1[j]).label == t[j].label by {}
    lemma_same_labels_contains(s1, t);
    // position of an element of the shortened sequence in the stripped one
    let pos = |j: int|
        if j < idx {
            j
        } else {
            j + 1
        };
    assert forall|j: int| 0 <= j < s2.len() implies s2[j] == t[pos(j)] by {}
    assert forall|i: int, j: int|
        0 <= i < s2.len() && 0 <= j < s2.len() && i != j implies (#[trigger] s2[i]).label != (
        #[trigger] s2[j]).label by {
        assert(s2[i] == t[pos(i)] && s2[j] == t[pos(j)]);
        assert(t[pos(i)].label == s1[pos(i)].label && t[pos(j)].label == s1[pos(j)].label);
    }
    assert forall|j: int, k: int|
        0 <= j < s2.len() && 0 <= k < s2[j].neighbors.len() implies contains_label(
        s2,
        #[trigger] s2[j].neighbors[k],
    ) && s2[j].neighbors[k] != s2[j].label by {
        let p = pos(j);
        assert(s2[j] == t[p]);
        lemma_remove_value_facts(s1[p].neighbors, l);
        let e = s2[j].neighbors[k];
        assert(s1[p].neighbors.contains(e));
        let k2 = choose|k2: int| 0 <= k2 < s1[p].neighbors.len() && s1[p].neighbors[k2] == e;
        assert(contains_label(s1, e));
        assert(e != l) by {
            assert(!t[p].neighbors.contains(l));
            assert(t[p].neighbors[k] == e);
        }
        let w = index_of_label(s1, e);
        assert(s1[w].label == e);
        assert(w != idx) by {
            assert(s1[idx].label == t[idx].label);
        }
        let w2 = if w < idx {
            w
        } else {
            w - 1
        };
        assert(s2[w2] == t[pos(w2)]);
        assert(s2[w2].label == e);
        assert(contains_label(s2, e));
    }
    assert forall|j: int, k: int, k2: int|
        0 <= j < s2.len() && 0 <= k < k2 < s2[j].neighbors.len() implies (
    #[trigger] s2[j].neighbors[k]) != (#[trigger] s2[j].neighbors[k2]) by {
        let p = pos(j);
        assert(s2[j] == t[p]);
        lemma_remove_value_facts(s1[p].neighbors, l);
    }
    // the recycled-label pool
    assert forall|a: int, b: int|
        0 <= a < av2.len() && 0 <= b < av2.len() && a != b implies (#[trigger] av2[a]) != (
        #[trigger] av2[b]) by {
        if b == av1.len() as int {
            assert(av2[b] == l);
            assert(!contains_label(s1, av1[a]));
            assert(contains_label(s1, l)) by {
                assert(s1[idx].label == t[idx].label);
            }
        } else if a == av1.len() as int {
            assert(av2[a] == l);
            assert(!contains_label(s1, av1[b]));
            assert(contains_label(s1, l)) by {
                assert(s1[idx].label == t[idx].label);
            }
        }
    }
    assert forall|a: int| 0 <= a < av2.len() implies !contains_label(
        s2,
        #[trigger] av2[a],
    ) by {
        if contains_label(s2, av2[a]) {
            let w = index_of_label(s2, av2[a]);
            assert(s2[w] == t[pos(w)]);
            assert(s1[pos(w)].label == av2[a]);
            assert(contains_label(s1, av2[a]));
            if a == av1.len() as int {
                assert(av2[a] == l);
                assert(s1[pos(w)].label == l);
                assert(s1[idx].label == t[idx].label);
                assert(pos(w) != idx);
            } else {
                assert(!contains_label(s1, av1[a]));
            }
        }
    }
    assert(s2.len() + av2.len() == s1.len() + av1.len());
    assert forall|j: int| 0 <= j < s2.len() implies (#[trigger] s2[j].label) < s2.len()
        + av2.len() by {
        assert(s2[j] == t[pos(j)]);
        assert(s1[pos(j)].label < s1.len() + av1.len());
    }
    assert forall|a: int| 0 <= a < av2.len() implies (#[trigger] av2[a]) < s2.len()
        + av2.len() by {
        if a == av1.len() as int {
            assert(av2[a] == l);
            assert(s1[idx].label == t[idx].label);
            assert(contains_label(s1, l));
            let w = index_of_label(s1, l);
            assert(s1[w].label < s1.len() + av1.len());
        }
    }
}

/// With no recycled labels left, the distinct labels are bounded by the
/// vertex count, so the count itself is a fresh label.
proof fn lemma_distinct_labels_bound<T>(s: Seq<VertexModel<T>>, extra: Seq<usize>)
    requires
        forall|i: int, j: int|
            0 <= i < s.len() && 0 <= j < s.len() && i != j ==> (#[trigger] s[i]).label != (
            #[trigger] s[j]).label,
        forall|i: int| 0 <= i < s.len() ==> (#[trigger] s[i].label) < s.len() + extra.len(),
        forall|a: int, b: int|
            0 <= a < extra.len() && 0 <= b < extra.len() && a != b ==> (#[trigger] extra[a]) != (
            #[trigger] extra[b]),
        forall|a: int| 0 <= a < extra.len() ==> (#[trigger] extra[a]) < s.len() + extra.len(),
        forall|a: int| 0 <= a < extra.len() ==> !contains_label(s, #[trigger] extra[a]),
        extra.len() == 0,
        s.len() <= usize::MAX,
    ensures
        !contains_label(s, s.len() as usize),
{
    if contains_label(s, s.len() as usize) {
        let i = index_of_label(s, s.len() as usize);
        assert(s[i].label < s.len());
    }
}

proof fn lemma_edge_count_take_step<T>(s: Seq<VertexModel<T>>, i: int)
    requires
        0 <= i < s.len(),
    ensures
        edge_count(s.take(i + 1)) == edge_count(s.take(i)) + s[i].neighbors.len(),
{
    assert(s.take(i + 1).drop_last() =~= s.take(i));
    assert(s.take(i + 1).last() == s[i]);
}

/// Prefixes never hold more edges than the whole.
proof fn lemma_edge_count_take_monotonic<T>(s: Seq<VertexModel<T>>, i: int)
    requires
        0 <= i <= s.len(),
    ensures
        edge_count(s.take(i)) <= edge_count(s),
        edge_count(s.take(i)) >= 0,
    decreases s.len() - i,
{
    lemma_edge_count_nonneg(s.take(i));
    if i < s.len() {
        lemma_edge_count_take_step(s, i);
        lemma_edge_count_take_monotonic(s, i + 1);
        assert(s[i].neighbors.len() >= 0);
    } else {
        assert(s.take(i) =~= s);
    }
}

proof fn lemma_edge_count_nonneg<T>(s: Seq<VertexModel<T>>)
    ensures
        edge_count(s) >= 0,
    decreases s.len(),
{
    if s.len() > 0 {
        lemma_edge_count_nonneg(s.drop_last());
    }
}

} // verus!
