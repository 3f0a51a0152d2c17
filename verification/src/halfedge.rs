//! Half-edge graphs of buffer curves and the tracing of their faces.
//!
//! Each undirected segment becomes two half-edges running in opposite
//! directions, each the twin (`reverse`) of the other. Vertices are found
//! by a 128-bit key of their coordinates. The outgoing half-edges of each
//! vertex are kept in direction order; a face is traced from a half-edge by
//! moving, at the vertex it reaches, to the outgoing half-edge just before
//! its twin in that order, cyclically.

use vstd::prelude::*;
use std::collections::HashMap;
use std::collections::HashSet;
use crate::arrangement::{position_of, lemma_position_of};
use crate::order::{sort_by_keys, stable_sort, keyed, items_of, lemma_stable_sort};
use crate::simplify::{count_live, lemma_count_live_delete};

verus! {

broadcast use vstd::std_specs::hash::group_hash_axioms;

/// One directed half of a segment.
#[derive(Clone, Copy, Debug)]
pub struct HalfEdge {
    pub from: usize,
    pub to: usize,
    pub reverse: usize,
}

/// The key under which the undirected segment between `a` and `b` is
/// recorded: the smaller index in the high 64 bits, the larger in the low.
pub open spec fn segment_key(a: usize, b: usize) -> int {
    if a < b {
        a * 0x1_0000_0000_0000_0000 + b
    } else {
        b * 0x1_0000_0000_0000_0000 + a
    }
}

/// The half-edge after `e` on its face: at the vertex `e` reaches, the
/// outgoing half-edge just before the twin of `e`, wrapping to the last one
/// when the twin comes first.
pub open spec fn next_half_edge(edges: Seq<HalfEdge>, outgoing: Seq<Seq<usize>>, e: usize) -> Option<
    usize,
> {
    if e < edges.len() && edges[e as int].to < outgoing.len() {
        let nb = outgoing[edges[e as int].to as int];
        let r = position_of(nb, edges[e as int].reverse);
        if r >= 0 {
            if r == 0 {
                Some(nb[nb.len() - 1])
            } else {
                Some(nb[r - 1])
            }
        } else {
            None
        }
    } else {
        None
    }
}

/// A traced ring when it has at least three vertices.
pub open spec fn finished(ring: Seq<usize>) -> Option<Seq<usize>> {
    if ring.len() < 3 {
        None
    } else {
        Some(ring)
    }
}

/// Tracing a face from half-edge `start`, now at half-edge `cur` with the
/// start vertices `ring` collected: the visited marks it ends with and the
/// ring it yields. Reaching an already visited half-edge other than `start`,
/// or a vertex where the twin is missing, yields no ring.
pub open spec fn trace_from(
    edges: Seq<HalfEdge>,
    outgoing: Seq<Seq<usize>>,
    start: usize,
    cur: usize,
    visited: Seq<bool>,
    ring: Seq<usize>,
) -> (Seq<bool>, Option<Seq<usize>>)
    decreases count_live(visited),
{
    if cur >= visited.len() || cur >= edges.len() {
        (visited, None)
    } else if visited[cur as int] {
        if cur == start {
            (visited, finished(ring))
        } else {
            (visited, None)
        }
    } else {
        let marked = visited.update(cur as int, true);
        let ring2 = ring.push(edges[cur as int].from);
        proof {
            lemma_count_live_delete(visited, cur as int);
        }
        match next_half_edge(edges, outgoing, cur) {
            None => (marked, None),
            Some(n) => if n == start {
                (marked, finished(ring2))
            } else {
                trace_from(edges, outgoing, start, n, marked, ring2)
            },
        }
    }
}

/// Tracing every face: half-edges are taken in index order, and each one
/// not yet visited starts a trace. The rings found, in order, and the final
/// visited marks.
pub open spec fn cycles_from(
    edges: Seq<HalfEdge>,
    outgoing: Seq<Seq<usize>>,
    e: int,
    visited: Seq<bool>,
    rings: Seq<Seq<usize>>,
) -> (Seq<bool>, Seq<Seq<usize>>)
    decreases edges.len() - e,
{
    if e < 0 || e >= edges.len() {
        (visited, rings)
    } else if e < visited.len() && visited[e] {
        cycles_from(edges, outgoing, e + 1, visited, rings)
    } else {
        let r = trace_from(edges, outgoing, e as usize, e as usize, visited, Seq::empty());
        cycles_from(
            edges,
            outgoing,
            e + 1,
            r.0,
            match r.1 {
                Some(ring) => rings.push(ring),
                None => rings,
            },
        )
    }
}

/// A graph of half-edges between interned vertices.
pub struct HalfEdgeGraph {
    vertex_ids: HashMap<u128, usize>,
    segments: HashSet<u128>,
    edges: Vec<HalfEdge>,
    visited: Vec<bool>,
    outgoing: Vec<Vec<usize>>,
}

impl HalfEdgeGraph {
    /// The half-edges, by index.
    pub closed spec fn edges_view(&self) -> Seq<HalfEdge> {
        self.edges@
    }

    /// Which half-edges have been traced.
    pub closed spec fn visited_view(&self) -> Seq<bool> {
        self.visited@
    }

    /// The outgoing half-edges of each vertex, in direction order.
    pub closed spec fn outgoing_view(&self) -> Seq<Seq<usize>> {
        self.outgoing@.map_values(|nb: Vec<usize>| nb@)
    }

    /// The interned vertex keys and their indices.
    pub closed spec fn vertex_map(&self) -> Map<u128, usize> {
        self.vertex_ids@
    }

    /// The keys of the recorded undirected segments.
    pub closed spec fn segment_set(&self) -> Set<u128> {
        self.segments@
    }

    /// Well-formedness: indices are in range, every half-edge has a twin
    /// running the other way whose twin is the half-edge itself, each
    /// vertex's outgoing list holds exactly the half-edges leaving it, and
    /// every half-edge's segment is recorded.
    pub closed spec fn wf(&self) -> bool {
        let edges = self.edges@;
        let out = self.outgoing_view();
        &&& self.visited@.len() == edges.len()
        &&& forall|k: u128| #[trigger] self.vertex_ids@.contains_key(k) ==> self.vertex_ids@[k] < out.len()
        &&& forall|i: int|
            0 <= i < edges.len() ==> {
                &&& (#[trigger] edges[i]).from < out.len()
                &&& edges[i].to < out.len()
                &&& edges[i].reverse < edges.len()
                &&& edges[edges[i].reverse as int].reverse == i
                &&& edges[edges[i].reverse as int].from == edges[i].to
                &&& edges[edges[i].reverse as int].to == edges[i].from
                &&& out[edges[i].from as int].contains(i as usize)
                &&& self.segments@.contains(segment_key(edges[i].from, edges[i].to) as u128)
            }
        &&& forall|v: int, j: int|
            0 <= v < out.len() && 0 <= j < out[v].len() ==> #[trigger] out[v][j] < edges.len()
                && edges[out[v][j] as int].from == v
    }

    /// An empty graph.
    pub fn new() -> (g: HalfEdgeGraph)
        ensures
            g.wf(),
            g.edges_view() == Seq::<HalfEdge>::empty(),
            g.outgoing_view() == Seq::<Seq<usize>>::empty(),
            g.vertex_map() == Map::<u128, usize>::empty(),
            g.segment_set() == Set::<u128>::empty(),
    {
        let g = HalfEdgeGraph {
            vertex_ids: HashMap::new(),
            segments: HashSet::new(),
            edges: Vec::new(),
            visited: Vec::new(),
            outgoing: Vec::new(),
        };
        assert(g.outgoing_view() =~= Seq::<Seq<usize>>::empty());
        g
    }

    /// The number of vertices.
    pub fn vertex_count(&self) -> (n: usize)
        ensures
            n == self.outgoing_view().len(),
    {
        self.outgoing.len()
    }

    /// The number of half-edges.
    pub fn edge_count(&self) -> (n: usize)
        ensures
            n == self.edges_view().len(),
    {
        self.edges.len()
    }

    /// The half-edge with index `e`.
    pub fn half_edge(&self, e: usize) -> (h: HalfEdge)
        requires
            e < self.edges_view().len(),
        ensures
            h == self.edges_view()[e as int],
    {
        self.edges[e]
    }

    /// The outgoing half-edges of vertex `v`, in their current order.
    pub fn outgoing(&self, v: usize) -> (nb: &Vec<usize>)
        requires
            v < self.outgoing_view().len(),
        ensures
            nb@ == self.outgoing_view()[v as int],
    {
        &self.outgoing[v]
    }

    /// Whether half-edge `e` has been traced.
    pub fn is_visited(&self, e: usize) -> (b: bool)
        requires
            e < self.visited_view().len(),
        ensures
            b == self.visited_view()[e as int],
    {
        self.visited[e]
    }

    /// The index of the vertex with coordinate key `key`: the index it was
    /// given when first seen, or the next free index for a new key, which
    /// then gets an empty outgoing list.
    pub fn vertex_id(&mut self, key: u128) -> (id: usize)
        requires
            old(self).wf(),
            old(self).outgoing_view().len() < usize::MAX,
        ensures
            final(self).wf(),
            old(self).vertex_map().contains_key(key) ==> {
                &&& id == old(self).vertex_map()[key]
                &&& final(self).outgoing_view() == old(self).outgoing_view()
                &&& final(self).vertex_map() == old(self).vertex_map()
            },
            !old(self).vertex_map().contains_key(key) ==> {
                &&& id == old(self).outgoing_view().len()
                &&& final(self).outgoing_view() == old(self).outgoing_view().push(Seq::empty())
                &&& final(self).vertex_map() == old(self).vertex_map().insert(key, id)
            },
            final(self).edges_view() == old(self).edges_view(),
            final(self).visited_view() == old(self).visited_view(),
            final(self).segment_set() == old(self).segment_set(),
    {
        match self.vertex_ids.get(&key) {
            Some(id) => {
                return *id;
            },
            None => {},
        }
        let id = self.outgoing.len();
        self.vertex_ids.insert(key, id);
        self.outgoing.push(Vec::new());
        proof {
            assert(self.outgoing_view() =~= old(self).outgoing_view().push(Seq::empty()));
            let out = self.outgoing_view();
            assert forall|i: int| 0 <= i < self.edges@.len() implies out[(#[trigger] self.edges@[i]).from as int].contains(i as usize) by {
                assert(old(self).outgoing_view()[self.edges@[i].from as int].contains(i as usize));
            }
        }
        id
    }

    /// Records the segment between vertices `from` and `to` as two twin
    /// half-edges, unless that segment was recorded before; returns whether
    /// it was added. The forward half-edge gets the next index and its twin
    /// the one after; each is appended to the outgoing list of its start.
    pub fn add_segment(&mut self, from: usize, to: usize) -> (added: bool)
        requires
            old(self).wf(),
            from < old(self).outgoing_view().len(),
            to < old(self).outgoing_view().len(),
            old(self).edges_view().len() + 2 < usize::MAX,
        ensures
            final(self).wf(),
            added == !old(self).segment_set().contains(segment_key(from, to) as u128),
            !added ==> final(self).edges_view() == old(self).edges_view() && final(self).outgoing_view()
                == old(self).outgoing_view() && final(self).visited_view() == old(
                self,
            ).visited_view(),
            added ==> {
                let n = old(self).edges_view().len();
                let out = old(self).outgoing_view();
                &&& final(self).edges_view() == old(self).edges_view().push(
                    HalfEdge { from, to, reverse: (n + 1) as usize },
                ).push(HalfEdge { from: to, to: from, reverse: n as usize })
                &&& final(self).visited_view() == old(self).visited_view().push(false).push(false)
                &&& final(self).outgoing_view() == out.update(
                    from as int,
                    out[from as int].push(n as usize),
                ).update(
                    to as int,
                    out.update(from as int, out[from as int].push(n as usize))[to as int].push(
                        (n + 1) as usize,
                    ),
                )
            },
            final(self).segment_set() == old(self).segment_set().insert(segment_key(from, to) as u128),
            final(self).vertex_map() == old(self).vertex_map(),
    {
        let (lo, hi) = if from < to {
            (from, to)
        } else {
            (to, from)
        };
        let key: u128 = (lo as u128) * 0x1_0000_0000_0000_0000u128 + (hi as u128);
        assert(key == segment_key(from, to));
        if !self.segments.insert(key) {
            proof {
                assert(self.segments@ =~= old(self).segments@.insert(key));
            }
            return false;
        }
        let forward = self.edges.len();
        let reverse = forward + 1;
        let ghost out0 = self.outgoing_view();
        self.edges.push(HalfEdge { from, to, reverse });
        self.edges.push(HalfEdge { from: to, to: from, reverse: forward });
        self.visited.push(false);
        self.visited.push(false);
        self.outgoing[from].push(forward);
        let ghost out1 = self.outgoing_view();
        proof {
            assert(out1 =~= out0.update(from as int, out0[from as int].push(forward)));
        }
        self.outgoing[to].push(reverse);
        proof {
            assert(self.outgoing_view() =~= out1.update(to as int, out1[to as int].push(reverse)));
            let edges = self.edges@;
            let out = self.outgoing_view();
            assert forall|i: int| 0 <= i < edges.len() implies out[(#[trigger] edges[i]).from as int].contains(i as usize) && self.segments@.contains(segment_key(edges[i].from, edges[i].to) as u128) by {
                if i < forward {
                    let v = edges[i].from as int;
                    assert(out0[v].contains(i as usize));
                    let w = choose|w: int| 0 <= w < out0[v].len() && out0[v][w] == i as usize;
                    assert(out1[v][w] == i as usize);
                    assert(out[v][w] == i as usize);
                } else if i == forward {
                    assert(out1[from as int][out0[from as int].len() as int] == forward);
                    assert(out[from as int][out0[from as int].len() as int] == forward);
                } else {
                    assert(out[to as int][out1[to as int].len() as int] == reverse);
                }
            }
            assert forall|v: int, j: int| 0 <= v < out.len() && 0 <= j < out[v].len() implies #[trigger] out[v][j] < edges.len() && edges[out[v][j] as int].from == v by {
                if v == to && j == out1[to as int].len() {
                } else if v == from && j == out0[from as int].len() && (v != to || j < out1[to as int].len()) {
                    assert(out1[v][j] == forward);
                } else {
                    assert(out0[v][j] == out[v][j]);
                }
            }
        }
        true
    }

    /// Reorders the outgoing half-edges of vertex `v` by `keys`, stably:
    /// `keys[i]` is the key of the half-edge now at position `i`.
    pub fn order_outgoing(&mut self, v: usize, keys: &[u64])
        requires
            old(self).wf(),
            v < old(self).outgoing_view().len(),
            keys@.len() == old(self).outgoing_view()[v as int].len(),
        ensures
            final(self).wf(),
            final(self).outgoing_view() == old(self).outgoing_view().update(
                v as int,
                items_of(stable_sort(keyed(keys@, old(self).outgoing_view()[v as int]))),
            ),
            final(self).edges_view() == old(self).edges_view(),
            final(self).visited_view() == old(self).visited_view(),
            final(self).vertex_map() == old(self).vertex_map(),
            final(self).segment_set() == old(self).segment_set(),
    {
        let ghost old_list = self.outgoing_view()[v as int];
        let sorted = sort_by_keys(&self.outgoing[v], keys);
        self.outgoing.set(v, sorted);
        proof {
            let out0 = old(self).outgoing_view();
            let s = keyed(keys@, old_list);
            let t = stable_sort(s);
            lemma_stable_sort(s);
            assert(self.outgoing_view() =~= out0.update(v as int, items_of(t)));
            let out = self.outgoing_view();
            let edges = self.edges@;
            assert forall|j: int| 0 <= j < out[v as int].len() implies #[trigger] out[v as int][j] < edges.len() && edges[out[v as int][j] as int].from == v by {
                assert(s.contains(t[j]));
                let w = choose|w: int| 0 <= w < s.len() && s[w] == t[j];
                assert(out0[v as int][w] == t[j].1);
            }
            assert forall|i: int| 0 <= i < edges.len() && edges[i].from == v implies out[v as int].contains(i as usize) by {
                let w = choose|w: int| 0 <= w < old_list.len() && old_list[w] == i as usize;
                assert(s[w] == (keys@[w], i as usize));
                s.to_multiset_ensures();
                t.to_multiset_ensures();
                assert(s.contains(s[w]));
                assert(s.to_multiset().count(s[w]) > 0);
                assert(t.to_multiset().count(s[w]) > 0);
                assert(t.contains(s[w]));
                let z = choose|z: int| 0 <= z < t.len() && t[z] == s[w];
                assert(out[v as int][z] == i as usize);
            }
        }
    }

    /// Traces the face that starts with half-edge `start_edge`, marking each
    /// half-edge it passes as visited, and returns the start vertices of the
    /// traced half-edges when the trace closed up at `start_edge` with at
    /// least three of them.
    pub fn trace_face(&mut self, start_edge: usize) -> (ring: Option<Vec<usize>>)
        requires
            old(self).wf(),
            start_edge < old(self).edges_view().len(),
        ensures
            final(self).wf(),
            final(self).edges_view() == old(self).edges_view(),
            final(self).outgoing_view() == old(self).outgoing_view(),
            final(self).vertex_map() == old(self).vertex_map(),
            final(self).segment_set() == old(self).segment_set(),
            (final(self).visited_view(), match ring {
                Some(r) => Some(r@),
                None => None,
            }) == trace_from(
                old(self).edges_view(),
                old(self).outgoing_view(),
                start_edge,
                start_edge,
                old(self).visited_view(),
                Seq::empty(),
            ),
    {
        let ghost edges = self.edges@;
        let ghost out = self.outgoing_view();
        let ghost target = trace_from(edges, out, start_edge, start_edge, self.visited@, Seq::empty());
        let mut edge_id = start_edge;
        let mut coords: Vec<usize> = Vec::new();
        loop
            invariant_except_break
                edge_id < edges.len(),
                trace_from(edges, out, start_edge, edge_id, self.visited@, coords@) == target,
            invariant
                self.wf(),
                edges == self.edges@,
                out == self.outgoing_view(),
                edges == old(self).edges_view(),
                out == old(self).outgoing_view(),
                target == trace_from(
                    old(self).edges_view(),
                    old(self).outgoing_view(),
                    start_edge,
                    start_edge,
                    old(self).visited_view(),
                    Seq::empty(),
                ),
                self.vertex_ids@ == old(self).vertex_ids@,
                self.segments@ == old(self).segments@,
                start_edge < edges.len(),
            ensures
                (self.visited@, finished(coords@)) == target,
            decreases count_live(self.visited@),
        {
            if self.visited[edge_id] {
                if edge_id == start_edge {
                    break;
                }
                proof {
                    assert(target.1 is None);
                    assert(target.0 == self.visited@);
                }
                return None;
            }
            let ghost vis0 = self.visited@;
            self.visited.set(edge_id, true);
            proof {
                lemma_count_live_delete(vis0, edge_id as int);
            }
            let edge = self.edges[edge_id];
            coords.push(edge.from);
            let destination = edge.to;
            let edge_ids = &self.outgoing[destination];
            proof {
                assert(edge_ids@ == out[destination as int]);
                lemma_position_of(edge_ids@, edge.reverse);
            }
            let mut i: usize = 0;
            let mut found = false;
            while i < edge_ids.len()
                invariant_except_break
                    !found,
                invariant
                    i <= edge_ids@.len(),
                    forall|j: int| 0 <= j < i ==> edge_ids@[j] != edge.reverse,
                ensures
                    found ==> i < edge_ids@.len() && edge_ids@[i as int] == edge.reverse,
                    !found ==> i == edge_ids@.len(),
                    forall|j: int| 0 <= j < i ==> edge_ids@[j] != edge.reverse,
                decreases edge_ids@.len() - i,
            {
                if edge_ids[i] == edge.reverse {
                    found = true;
                    break;
                }
                i = i + 1;
            }
            if !found {
                proof {
                    lemma_position_of(edge_ids@, edge.reverse);
                    assert(position_of(edge_ids@, edge.reverse) < 0) by {
                        let r = position_of(edge_ids@, edge.reverse);
                        if r >= 0 {
                            assert(edge_ids@[r] == edge.reverse);
                        }
                    }
                    assert(next_half_edge(edges, out, edge_id) is None);
                    assert(target.1 is None);
                }
                return None;
            }
            proof {
                lemma_position_of(edge_ids@, edge.reverse);
                let r = position_of(edge_ids@, edge.reverse);
                assert(edge_ids@[i as int] == edge.reverse);
                if r < 0 {
                } else if r < i {
                    assert(edge_ids@[r] != edge.reverse);
                } else if r > i {
                }
                assert(r == i);
            }
            let next_index = if i == 0 {
                edge_ids.len() - 1
            } else {
                i - 1
            };
            let prev_id = edge_id;
            edge_id = edge_ids[next_index];
            proof {
                assert(next_half_edge(edges, out, prev_id) == Some(edge_id));
                assert(edge_ids@.contains(edge_id));
                assert(edge_id < edges.len()) by {
                    assert(out[destination as int][next_index as int] == edge_id);
                }
            }
            if edge_id == start_edge {
                break;
            }
        }
        if coords.len() < 3 {
            return None;
        }
        Some(coords)
    }

    /// Traces every face: half-edges are taken in index order and each one
    /// not yet visited starts a trace; the rings of the traces that closed
    /// up are returned in that order. Afterwards every half-edge is visited.
    pub fn face_cycles(&mut self) -> (rings: Vec<Vec<usize>>)
        requires
            old(self).wf(),
        ensures
            final(self).wf(),
            final(self).edges_view() == old(self).edges_view(),
            final(self).outgoing_view() == old(self).outgoing_view(),
            final(self).vertex_map() == old(self).vertex_map(),
            final(self).segment_set() == old(self).segment_set(),
            (final(self).visited_view(), rings@.map_values(|r: Vec<usize>| r@)) == cycles_from(
                old(self).edges_view(),
                old(self).outgoing_view(),
                0,
                old(self).visited_view(),
                Seq::empty(),
            ),
            forall|e: int| 0 <= e < final(self).visited_view().len() ==> final(self).visited_view()[e],
    {
        let ghost edges = self.edges@;
        let ghost out = self.outgoing_view();
        let ghost target = cycles_from(edges, out, 0, self.visited@, Seq::empty());
        let mut rings: Vec<Vec<usize>> = Vec::new();
        let n = self.edges.len();
        let mut e: usize = 0;
        proof {
            assert(rings@.map_values(|r: Vec<usize>| r@) =~= Seq::<Seq<usize>>::empty());
        }
        while e < n
            invariant
                self.wf(),
                n == edges.len(),
                e <= n,
                edges == self.edges@,
                out == self.outgoing_view(),
                edges == old(self).edges_view(),
                out == old(self).outgoing_view(),
                self.vertex_ids@ == old(self).vertex_ids@,
                self.segments@ == old(self).segments@,
                target == cycles_from(edges, out, 0, old(self).visited_view(), Seq::empty()),
                cycles_from(edges, out, e as int, self.visited@, rings@.map_values(|r: Vec<usize>| r@))
                    == target,
                forall|j: int| 0 <= j < e ==> self.visited@[j],
            decreases n - e,
        {
            if !self.visited[e] {
                let ghost vis0 = self.visited@;
                let ghost before = rings@;
                proof {
                    lemma_trace_from_marks(edges, out, e, e, vis0, Seq::empty());
                }
                let traced = self.trace_face(e);
                match traced {
                    Some(ring) => {
                        rings.push(ring);
                        proof {
                            assert(rings@.map_values(|r: Vec<usize>| r@) =~= before.map_values(
                                |r: Vec<usize>| r@,
                            ).push(ring@));
                        }
                    },
                    None => {},
                }
                proof {
                    assert(self.visited@ == trace_from(edges, out, e, e, vis0, Seq::empty()).0);
                    assert(self.visited@[e as int]);
                    assert forall|j: int| 0 <= j < e implies self.visited@[j] by {
                        assert(vis0[j]);
                    }
                }
            }
            e = e + 1;
        }
        rings
    }
}


/// A trace only sets visited marks, and a trace that starts at an unvisited
/// half-edge marks it.
pub proof fn lemma_trace_from_marks(
    edges: Seq<HalfEdge>,
    outgoing: Seq<Seq<usize>>,
    start: usize,
    cur: usize,
    visited: Seq<bool>,
    ring: Seq<usize>,
)
    ensures
        trace_from(edges, outgoing, start, cur, visited, ring).0.len() == visited.len(),
        forall|j: int|
            0 <= j < visited.len() && visited[j] ==> trace_from(
                edges,
                outgoing,
                start,
                cur,
                visited,
                ring,
            ).0[j],
        cur < visited.len() && cur < edges.len() ==> trace_from(edges, outgoing, start, cur, visited, ring).0[cur as int],
    decreases count_live(visited),
{
    if cur >= visited.len() || cur >= edges.len() {
    } else if visited[cur as int] {
    } else {
        let marked = visited.update(cur as int, true);
        let ring2 = ring.push(edges[cur as int].from);
        lemma_count_live_delete(visited, cur as int);
        match next_half_edge(edges, outgoing, cur) {
            None => {},
            Some(n) => {
                if n != start {
                    lemma_trace_from_marks(edges, outgoing, start, n, marked, ring2);
                    assert(marked[cur as int]);
                    assert forall|j: int| 0 <= j < visited.len() && visited[j] implies trace_from(
                        edges,
                        outgoing,
                        start,
                        cur,
                        visited,
                        ring,
                    ).0[j] by {
                        assert(marked[j]);
                    }
                }
            },
        }
    }
}


/// The half-edge reached from `start` after `k` steps of `next_half_edge`,
/// or `None` once a step finds no next half-edge.
pub open spec fn hop(edges: Seq<HalfEdge>, outgoing: Seq<Seq<usize>>, start: usize, k: nat) -> Option<usize>
    decreases k,
{
    if k == 0 {
        Some(start)
    } else {
        match hop(edges, outgoing, start, (k - 1) as nat) {
            Some(e) => next_half_edge(edges, outgoing, e),
            None => None,
        }
    }
}

/// `ring` is the face traced from half-edge `s`: it has at least three
/// vertices, its `k`-th vertex is where the `k`-th half-edge of the walk
/// from `s` starts, those half-edges are pairwise distinct, and the walk is
/// back at `s` after `ring.len()` steps.
pub open spec fn traces_ring(edges: Seq<HalfEdge>, outgoing: Seq<Seq<usize>>, s: usize, ring: Seq<usize>) -> bool {
    &&& ring.len() >= 3
    &&& hop(edges, outgoing, s, ring.len()) == Some(s)
    &&& forall|k: nat|
        k < ring.len() ==> (#[trigger] hop(edges, outgoing, s, k)) is Some && hop(edges, outgoing, s, k)->0
            < edges.len() && ring[k as int] == edges[hop(edges, outgoing, s, k)->0 as int].from
    &&& forall|k1: nat, k2: nat|
        k1 < k2 < ring.len() ==> #[trigger] hop(edges, outgoing, s, k1) != #[trigger] hop(edges, outgoing, s, k2)
}

/// The half-edges at which `cycles_from` starts the traces that yield its
/// rings, in the same order as the rings.
pub open spec fn ring_starts(
    edges: Seq<HalfEdge>,
    outgoing: Seq<Seq<usize>>,
    e: int,
    visited: Seq<bool>,
    starts: Seq<usize>,
) -> Seq<usize>
    decreases edges.len() - e,
{
    if e < 0 || e >= edges.len() {
        starts
    } else if e < visited.len() && visited[e] {
        ring_starts(edges, outgoing, e + 1, visited, starts)
    } else {
        let r = trace_from(edges, outgoing, e as usize, e as usize, visited, Seq::empty());
        ring_starts(
            edges,
            outgoing,
            e + 1,
            r.0,
            if r.1 is Some {
                starts.push(e as usize)
            } else {
                starts
            },
        )
    }
}

/// A trace continued from `cur`, with the vertices of the walk so far in
/// `ring`, that yields a ring yields the face walked from `start`; the
/// half-edges it adds were not visited before, and all of its half-edges
/// are visited after it.
proof fn lemma_trace_path(
    edges: Seq<HalfEdge>,
    outgoing: Seq<Seq<usize>>,
    start: usize,
    cur: usize,
    visited: Seq<bool>,
    ring: Seq<usize>,
)
    requires
        hop(edges, outgoing, start, ring.len()) == Some(cur),
        ring.len() > 0 ==> cur != start,
        forall|k: nat|
            k < ring.len() ==> (#[trigger] hop(edges, outgoing, start, k)) is Some && hop(edges, outgoing, start, k)->0
                < edges.len() && hop(edges, outgoing, start, k)->0 < visited.len() && ring[k as int]
                == edges[hop(edges, outgoing, start, k)->0 as int].from && visited[hop(
                edges,
                outgoing,
                start,
                k,
            )->0 as int],
        forall|k1: nat, k2: nat|
            k1 < k2 < ring.len() ==> #[trigger] hop(edges, outgoing, start, k1) != #[trigger] hop(
                edges,
                outgoing,
                start,
                k2,
            ),
    ensures
        trace_from(edges, outgoing, start, cur, visited, ring).1 matches Some(rr) ==> {
            &&& traces_ring(edges, outgoing, start, rr)
            &&& rr.len() >= ring.len()
            &&& forall|k: nat|
                ring.len() <= k < rr.len() ==> !visited[#[trigger] hop(edges, outgoing, start, k)->0 as int]
            &&& forall|k: nat|
                k < rr.len() ==> hop(edges, outgoing, start, k)->0 < visited.len() && trace_from(
                    edges,
                    outgoing,
                    start,
                    cur,
                    visited,
                    ring,
                ).0[#[trigger] hop(edges, outgoing, start, k)->0 as int]
        },
    decreases count_live(visited),
{
    if cur >= visited.len() || cur >= edges.len() {
    } else if visited[cur as int] {
    } else {
        let marked = visited.update(cur as int, true);
        let ring2 = ring.push(edges[cur as int].from);
        lemma_count_live_delete(visited, cur as int);
        let m = ring.len();
        assert(hop(edges, outgoing, start, m + 1) == next_half_edge(edges, outgoing, cur));
        assert forall|k: nat| k < ring2.len() implies (#[trigger] hop(edges, outgoing, start, k)) is Some && hop(
            edges,
            outgoing,
            start,
            k,
        )->0 < edges.len() && hop(edges, outgoing, start, k)->0 < marked.len() && ring2[k as int]
            == edges[hop(edges, outgoing, start, k)->0 as int].from && marked[hop(edges, outgoing, start, k)->0 as int] by {
            if k < m {
                assert(visited[hop(edges, outgoing, start, k)->0 as int]);
            }
        }
        assert forall|k1: nat, k2: nat| k1 < k2 < ring2.len() implies #[trigger] hop(edges, outgoing, start, k1)
            != #[trigger] hop(edges, outgoing, start, k2) by {
            if k2 == m {
                assert(visited[hop(edges, outgoing, start, k1)->0 as int]);
            }
        }
        match next_half_edge(edges, outgoing, cur) {
            None => {},
            Some(n) => {
                if n == start {
                } else {
                    lemma_trace_path(edges, outgoing, start, n, marked, ring2);
                    let r = trace_from(edges, outgoing, start, n, marked, ring2);
                    if let Some(rr) = r.1 {
                        assert forall|k: nat| ring.len() <= k < rr.len() implies !visited[#[trigger] hop(
                            edges,
                            outgoing,
                            start,
                            k,
                        )->0 as int] by {
                            if k > m {
                                assert(!marked[hop(edges, outgoing, start, k)->0 as int]);
                            }
                        }
                    }
                }
            },
        }
    }
}

/// Every ring that face tracing returns is the face walked by
/// `next_half_edge` from its start half-edge, round to that start again;
/// no half-edge lies on two rings, nor twice on one; and no half-edge of a
/// ring had been visited before tracing began.
pub proof fn lemma_face_cycles_partition(edges: Seq<HalfEdge>, outgoing: Seq<Seq<usize>>, visited: Seq<bool>)
    requires
        visited.len() == edges.len(),
    ensures
        ({
            let rings = cycles_from(edges, outgoing, 0, visited, Seq::empty()).1;
            let starts = ring_starts(edges, outgoing, 0, visited, Seq::empty());
            &&& starts.len() == rings.len()
            &&& forall|i: int| 0 <= i < rings.len() ==> traces_ring(edges, outgoing, #[trigger] starts[i], rings[i])
            &&& forall|i: int, k: nat|
                0 <= i < rings.len() && k < rings[i].len() ==> !visited[#[trigger] hop(
                    edges,
                    outgoing,
                    starts[i],
                    k,
                )->0 as int]
            &&& forall|i: int, j: int, a: nat, b: nat|
                0 <= i < j < rings.len() && a < rings[i].len() && b < rings[j].len() ==> #[trigger] hop(
                    edges,
                    outgoing,
                    starts[i],
                    a,
                ) != #[trigger] hop(edges, outgoing, starts[j], b)
        }),
{
    lemma_cycles_partition(edges, outgoing, 0, visited, Seq::empty(), Seq::empty(), visited);
}

proof fn lemma_cycles_partition(
    edges: Seq<HalfEdge>,
    outgoing: Seq<Seq<usize>>,
    e: int,
    visited: Seq<bool>,
    rings: Seq<Seq<usize>>,
    starts: Seq<usize>,
    visited0: Seq<bool>,
)
    requires
        0 <= e,
        visited.len() == edges.len(),
        visited0.len() == edges.len(),
        forall|j: int| 0 <= j < edges.len() && visited0[j] ==> visited[j],
        starts.len() == rings.len(),
        forall|i: int| 0 <= i < rings.len() ==> traces_ring(edges, outgoing, #[trigger] starts[i], rings[i]),
        forall|i: int, k: nat|
            0 <= i < rings.len() && k < rings[i].len() ==> !visited0[#[trigger] hop(edges, outgoing, starts[i], k)->0 as int]
                && visited[hop(edges, outgoing, starts[i], k)->0 as int],
        forall|i: int, j: int, a: nat, b: nat|
            0 <= i < j < rings.len() && a < rings[i].len() && b < rings[j].len() ==> #[trigger] hop(
                edges,
                outgoing,
                starts[i],
                a,
            ) != #[trigger] hop(edges, outgoing, starts[j], b),
    ensures
        ({
            let rr = cycles_from(edges, outgoing, e, visited, rings).1;
            let ss = ring_starts(edges, outgoing, e, visited, starts);
            &&& ss.len() == rr.len()
            &&& forall|i: int| 0 <= i < rr.len() ==> traces_ring(edges, outgoing, #[trigger] ss[i], rr[i])
            &&& forall|i: int, k: nat|
                0 <= i < rr.len() && k < rr[i].len() ==> !visited0[#[trigger] hop(edges, outgoing, ss[i], k)->0 as int]
            &&& forall|i: int, j: int, a: nat, b: nat|
                0 <= i < j < rr.len() && a < rr[i].len() && b < rr[j].len() ==> #[trigger] hop(
                    edges,
                    outgoing,
                    ss[i],
                    a,
                ) != #[trigger] hop(edges, outgoing, ss[j], b)
        }),
    decreases edges.len() - e,
{
    if e >= edges.len() {
    } else if visited[e] {
        lemma_cycles_partition(edges, outgoing, e + 1, visited, rings, starts, visited0);
    } else {
        let eu = e as usize;
        let r = trace_from(edges, outgoing, eu, eu, visited, Seq::empty());
        lemma_trace_from_marks(edges, outgoing, eu, eu, visited, Seq::empty());
        lemma_trace_path(edges, outgoing, eu, eu, visited, Seq::empty());
        assert forall|i: int, k: nat| 0 <= i < rings.len() && k < rings[i].len() implies r.0[#[trigger] hop(
            edges,
            outgoing,
            starts[i],
            k,
        )->0 as int] by {
            assert(visited[hop(edges, outgoing, starts[i], k)->0 as int]);
        }
        assert forall|j: int| 0 <= j < edges.len() && visited0[j] implies r.0[j] by {
            assert(visited[j]);
        }
        match r.1 {
            Some(ring) => {
                let rings2 = rings.push(ring);
                let starts2 = starts.push(eu);
                assert forall|i: int, k: nat| 0 <= i < rings2.len() && k < rings2[i].len() implies !visited0[#[trigger] hop(
                    edges,
                    outgoing,
                    starts2[i],
                    k,
                )->0 as int] && r.0[hop(edges, outgoing, starts2[i], k)->0 as int] by {
                    if i == rings.len() {
                        assert(!visited[hop(edges, outgoing, eu, k)->0 as int]);
                    } else {
                        assert(starts2[i] == starts[i]);
                    }
                }
                assert forall|i: int, j: int, a: nat, b: nat|
                    0 <= i < j < rings2.len() && a < rings2[i].len() && b < rings2[j].len() implies #[trigger] hop(
                    edges,
                    outgoing,
                    starts2[i],
                    a,
                ) != #[trigger] hop(edges, outgoing, starts2[j], b) by {
                    if j == rings.len() {
                        assert(visited[hop(edges, outgoing, starts[i], a)->0 as int]);
                        assert(!visited[hop(edges, outgoing, eu, b)->0 as int]);
                    } else {
                        assert(starts2[i] == starts[i]);
                        assert(starts2[j] == starts[j]);
                    }
                }
                assert forall|i: int| 0 <= i < rings2.len() implies traces_ring(edges, outgoing, #[trigger] starts2[i], rings2[i]) by {
                    if i < rings.len() {
                        assert(starts2[i] == starts[i]);
                    }
                }
                lemma_cycles_partition(edges, outgoing, e + 1, r.0, rings2, starts2, visited0);
            },
            None => {
                lemma_cycles_partition(edges, outgoing, e + 1, r.0, rings, starts, visited0);
            },
        }
    }
}

/// A traced face keeps to the left: after a half-edge that reaches vertex
/// `t`, the trace leaves `t` along the outgoing half-edge just before the
/// twin in `t`'s cyclic order, and it stops when the twin is not listed at
/// `t`.
pub proof fn lemma_next_half_edge_turns_left(edges: Seq<HalfEdge>, outgoing: Seq<Seq<usize>>, e: usize, r: int)
    requires
        e < edges.len(),
        edges[e as int].to < outgoing.len(),
    ensures
        ({
            let nb = outgoing[edges[e as int].to as int];
            let twin = edges[e as int].reverse;
            &&& (0 <= r < nb.len() && nb[r] == twin && forall|j: int| 0 <= j < r ==> nb[j] != twin)
                ==> next_half_edge(edges, outgoing, e) == Some(nb[(r + nb.len() - 1) % (nb.len() as int)])
            &&& !nb.contains(twin) ==> next_half_edge(edges, outgoing, e) is None
        }),
{
    let nb = outgoing[edges[e as int].to as int];
    let twin = edges[e as int].reverse;
    lemma_position_of(nb, twin);
    let p = position_of(nb, twin);
    if 0 <= r < nb.len() && nb[r] == twin && (forall|j: int| 0 <= j < r ==> nb[j] != twin) {
        if p < r {
            assert(nb[p] != twin);
        }
        assert(p == r);
        let l = nb.len() as int;
        if r == 0 {
            vstd::arithmetic::div_mod::lemma_small_mod((l - 1) as nat, l as nat);
        } else {
            vstd::arithmetic::div_mod::lemma_mod_add_multiples_vanish(r - 1, l);
            vstd::arithmetic::div_mod::lemma_small_mod((r - 1) as nat, l as nat);
        }
    }
    if !nb.contains(twin) && p >= 0 {
        assert(nb[p] == twin);
    }
}

/// The vertices at which the first `m` half-edges of the walk from `start`
/// begin.
pub open spec fn walk_vertices(edges: Seq<HalfEdge>, outgoing: Seq<Seq<usize>>, start: usize, m: nat) -> Seq<usize> {
    Seq::new(m, |k: int| edges[hop(edges, outgoing, start, k as nat)->0 as int].from)
}

proof fn lemma_trace_closes_from(
    edges: Seq<HalfEdge>,
    outgoing: Seq<Seq<usize>>,
    start: usize,
    visited: Seq<bool>,
    m: nat,
    i: nat,
)
    requires
        visited.len() == edges.len(),
        m >= 3,
        i < m,
        hop(edges, outgoing, start, m) == Some(start),
        forall|k: nat|
            k < m ==> (#[trigger] hop(edges, outgoing, start, k)) is Some && hop(edges, outgoing, start, k)->0
                < edges.len(),
        forall|k: nat| i <= k < m ==> !visited[#[trigger] hop(edges, outgoing, start, k)->0 as int],
        forall|k1: nat, k2: nat|
            k1 < k2 < m ==> #[trigger] hop(edges, outgoing, start, k1) != #[trigger] hop(edges, outgoing, start, k2),
    ensures
        trace_from(
            edges,
            outgoing,
            start,
            hop(edges, outgoing, start, i)->0,
            visited,
            walk_vertices(edges, outgoing, start, i),
        ).1 == Some(walk_vertices(edges, outgoing, start, m)),
    decreases count_live(visited),
{
    let cur = hop(edges, outgoing, start, i)->0;
    let ring = walk_vertices(edges, outgoing, start, i);
    let marked = visited.update(cur as int, true);
    let ring2 = ring.push(edges[cur as int].from);
    lemma_count_live_delete(visited, cur as int);
    assert(ring2 =~= walk_vertices(edges, outgoing, start, i + 1));
    assert(hop(edges, outgoing, start, i + 1) == next_half_edge(edges, outgoing, cur));
    if i + 1 == m {
    } else {
        let n = hop(edges, outgoing, start, i + 1)->0;
        assert(hop(edges, outgoing, start, 0) == Some(start));
        assert(n != start);
        assert forall|k: nat| i + 1 <= k < m implies !marked[#[trigger] hop(edges, outgoing, start, k)->0 as int] by {
            assert(hop(edges, outgoing, start, i) != hop(edges, outgoing, start, k));
        }
        lemma_trace_closes_from(edges, outgoing, start, marked, m, i + 1);
    }
}

/// Tracing from a half-edge finds its face whenever the face is there to be
/// found: if the walk from an unvisited `start` comes back to it after
/// `m >= 3` distinct half-edges, none of them visited, the trace yields the
/// ring of their start vertices.
pub proof fn lemma_trace_finds_closed_walk(
    edges: Seq<HalfEdge>,
    outgoing: Seq<Seq<usize>>,
    start: usize,
    visited: Seq<bool>,
    m: nat,
)
    requires
        visited.len() == edges.len(),
        m >= 3,
        hop(edges, outgoing, start, m) == Some(start),
        forall|k: nat|
            k < m ==> (#[trigger] hop(edges, outgoing, start, k)) is Some && hop(edges, outgoing, start, k)->0
                < edges.len() && !visited[hop(edges, outgoing, start, k)->0 as int],
        forall|k1: nat, k2: nat|
            k1 < k2 < m ==> #[trigger] hop(edges, outgoing, start, k1) != #[trigger] hop(edges, outgoing, start, k2),
    ensures
        trace_from(edges, outgoing, start, start, visited, Seq::empty()).1 == Some(
            walk_vertices(edges, outgoing, start, m),
        ),
{
    assert(walk_vertices(edges, outgoing, start, 0) =~= Seq::<usize>::empty());
    lemma_trace_closes_from(edges, outgoing, start, visited, m, 0);
}

/// In a well-formed graph every half-edge has a twin that runs the other
/// way and whose own twin is the half-edge again, and each half-edge is
/// listed among the outgoing half-edges of the vertex it leaves.
pub proof fn lemma_twins(g: &HalfEdgeGraph)
    requires
        g.wf(),
    ensures
        forall|i: int|
            0 <= i < g.edges_view().len() ==> {
                let r = (#[trigger] g.edges_view()[i]).reverse as int;
                &&& 0 <= r < g.edges_view().len()
                &&& g.edges_view()[r].reverse == i
                &&& g.edges_view()[r].from == g.edges_view()[i].to
                &&& g.edges_view()[r].to == g.edges_view()[i].from
                &&& g.outgoing_view()[g.edges_view()[i].from as int].contains(i as usize)
            },
{
}

/// Two segments get the same key exactly when they join the same two
/// vertices, in either direction.
pub proof fn lemma_segment_key_injective(a: usize, b: usize, c: usize, d: usize)
    ensures
        segment_key(a, b) == segment_key(c, d) <==> ((a == c && b == d) || (a == d && b == c)),
{
    let (lo1, hi1) = if a < b { (a as int, b as int) } else { (b as int, a as int) };
    let (lo2, hi2) = if c < d { (c as int, d as int) } else { (d as int, c as int) };
    if segment_key(a, b) == segment_key(c, d) {
        assert(lo1 * 0x1_0000_0000_0000_0000 + hi1 == lo2 * 0x1_0000_0000_0000_0000 + hi2);
        if lo1 < lo2 {
            assert(lo1 * 0x1_0000_0000_0000_0000 + hi1 < lo2 * 0x1_0000_0000_0000_0000);
        } else if lo2 < lo1 {
            assert(lo2 * 0x1_0000_0000_0000_0000 + hi2 < lo1 * 0x1_0000_0000_0000_0000);
        }
    }
}

} // verus!
