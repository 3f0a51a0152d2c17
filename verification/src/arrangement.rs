//! Planar arrangements of noded linework and the walk around their faces.
//!
//! An arrangement is an undirected graph on vertex indices whose neighbour
//! lists are ordered by edge direction around each vertex. A face is traced
//! by following directed edges: from the directed edge (u, v) the walk
//! continues with (v, w), where w is the neighbour of v just before u in v's
//! ordered list, cyclically. Each directed edge is walked at most once.

use vstd::prelude::*;
use crate::order::{sort_by_keys, stable_sort, keyed, items_of, lemma_stable_sort};

verus! {

/// The first index of `x` in `s`, or -1 when `s` does not hold `x`.
pub open spec fn position_of(s: Seq<usize>, x: usize) -> int
    decreases s.len(),
{
    if s.len() == 0 {
        -1
    } else if s[0] == x {
        0
    } else {
        let r = position_of(s.drop_first(), x);
        if r < 0 {
            -1
        } else {
            r + 1
        }
    }
}

/// `position_of` is the first occurrence, or -1 exactly when there is none.
pub proof fn lemma_position_of(s: Seq<usize>, x: usize)
    ensures
        -1 <= position_of(s, x) < s.len(),
        position_of(s, x) >= 0 ==> s[position_of(s, x)] == x,
        forall|j: int| 0 <= j < position_of(s, x) ==> s[j] != x,
        position_of(s, x) < 0 ==> forall|j: int| 0 <= j < s.len() ==> s[j] != x,
    decreases s.len(),
{
    if s.len() > 0 && s[0] != x {
        lemma_position_of(s.drop_first(), x);
        assert forall|j: int| 0 <= j < s.len() && position_of(s, x) < 0 implies s[j] != x by {
            if j > 0 {
                assert(s[j] == s.drop_first()[j - 1]);
            }
        }
        assert forall|j: int| 0 <= j < position_of(s, x) implies s[j] != x by {
            if j > 0 {
                assert(s[j] == s.drop_first()[j - 1]);
            }
        }
    }
}

/// The vertex that follows the directed edge (prev, cur) around its face:
/// the neighbour of `cur` just before `prev` in `cur`'s ordered list,
/// wrapping to the last neighbour when `prev` comes first.
pub open spec fn next_face(adj: Seq<Seq<usize>>, prev: usize, cur: usize) -> Option<usize> {
    if cur < adj.len() {
        let nb = adj[cur as int];
        let r = position_of(nb, prev);
        if r >= 0 {
            if r == 0 {
                Some(nb[nb.len() - 1])
            } else {
                Some(nb[r - 1])
            }
        } else {
            None
        }
    } else {
        None
    }
}

/// The `k`-th directed edge of the face walk that starts with (s, e), if
/// the walk can be continued that far.
pub open spec fn walk_edge(adj: Seq<Seq<usize>>, s: usize, e: usize, k: nat) -> Option<(usize, usize)>
    decreases k,
{
    if k == 0 {
        Some((s, e))
    } else {
        match walk_edge(adj, s, e, (k - 1) as nat) {
            Some(edge) => match next_face(adj, edge.0, edge.1) {
                Some(n) => Some((edge.1, n)),
                None => None,
            },
            None => None,
        }
    }
}

/// The first `k` directed edges of the walk.
pub open spec fn walk_prefix(adj: Seq<Seq<usize>>, s: usize, e: usize, k: nat) -> Seq<(usize, usize)> {
    Seq::new(k, |i: int| walk_edge(adj, s, e, i as nat).unwrap())
}

/// The walk stops at step `k`: the step budget is spent, the walk cannot
/// be continued, or its next edge was already visited (before the walk or
/// earlier in it).
pub open spec fn walk_stops(
    adj: Seq<Seq<usize>>,
    s: usize,
    e: usize,
    seen: Seq<(usize, usize)>,
    max: nat,
    k: nat,
) -> bool {
    ||| k >= max
    ||| walk_edge(adj, s, e, k) is None
    ||| (seen + walk_prefix(adj, s, e, k)).contains(walk_edge(adj, s, e, k).unwrap())
}

/// The number of edges walked, counting from step `k`.
pub open spec fn walk_len_from(
    adj: Seq<Seq<usize>>,
    s: usize,
    e: usize,
    seen: Seq<(usize, usize)>,
    max: nat,
    k: nat,
) -> nat
    decreases max - k,
{
    if walk_stops(adj, s, e, seen, max, k) {
        k
    } else {
        walk_len_from(adj, s, e, seen, max, k + 1)
    }
}

/// The number of edges a face walk from (s, e) takes.
pub open spec fn walk_len(
    adj: Seq<Seq<usize>>,
    s: usize,
    e: usize,
    seen: Seq<(usize, usize)>,
    max: nat,
) -> nat {
    walk_len_from(adj, s, e, seen, max, 0)
}

/// The sum of the lengths of all neighbour lists.
pub open spec fn total_degree(adj: Seq<Seq<usize>>) -> nat
    decreases adj.len(),
{
    if adj.len() == 0 {
        0
    } else {
        total_degree(adj.drop_last()) + adj.last().len()
    }
}

/// The step budget of one face walk: one more than the number of directed
/// edges, saturated at the largest `usize`.
pub open spec fn walk_budget(adj: Seq<Seq<usize>>) -> nat {
    if total_degree(adj) + 1 >= usize::MAX {
        usize::MAX as nat
    } else {
        total_degree(adj) + 1
    }
}

/// The vertices at which the walked edges start.
pub open spec fn sources(edges: Seq<(usize, usize)>) -> Seq<usize> {
    edges.map_values(|edge: (usize, usize)| edge.0)
}

/// What face enumeration has produced so far: the rings found and the
/// directed edges visited.
pub struct FaceState {
    pub rings: Seq<Seq<usize>>,
    pub visited: Seq<(usize, usize)>,
}

/// Handles one directed edge (s, e) during face enumeration: an edge not yet
/// visited starts a walk, whose edges become visited and whose start
/// vertices form a ring when there are at least three of them.
pub open spec fn face_step(adj: Seq<Seq<usize>>, s: usize, e: usize, st: FaceState) -> FaceState {
    if st.visited.contains((s, e)) {
        st
    } else {
        let n = walk_len(adj, s, e, st.visited, walk_budget(adj));
        let walked = walk_prefix(adj, s, e, n);
        FaceState {
            rings: if n >= 3 {
                st.rings.push(sources(walked))
            } else {
                st.rings
            },
            visited: st.visited + walked,
        }
    }
}

/// Face enumeration from the `j`-th neighbour of vertex `start` onwards:
/// vertices in index order, and each vertex's neighbours in list order.
pub open spec fn faces_from(adj: Seq<Seq<usize>>, start: int, j: int, st: FaceState) -> FaceState
    decreases adj.len() - start, adj[start].len() - j,
{
    if start < 0 || start >= adj.len() || j < 0 {
        st
    } else if j >= adj[start].len() {
        faces_from(adj, start + 1, 0, st)
    } else {
        faces_from(adj, start, j + 1, face_step(adj, start as usize, adj[start][j], st))
    }
}

/// The rings of all faces, in the order enumeration finds them.
pub open spec fn face_rings_of(adj: Seq<Seq<usize>>) -> Seq<Seq<usize>> {
    faces_from(adj, 0, 0, FaceState { rings: Seq::empty(), visited: Seq::empty() }).rings
}

/// Face enumeration over the given directed edges, from the `i`-th on.
pub open spec fn faces_over(adj: Seq<Seq<usize>>, starts: Seq<(usize, usize)>, i: int, st: FaceState) -> FaceState
    decreases starts.len() - i,
{
    if i < 0 || i >= starts.len() {
        st
    } else {
        faces_over(adj, starts, i + 1, face_step(adj, starts[i].0, starts[i].1, st))
    }
}

/// `neighbors` with `neighbor` appended, unless it is there already.
pub open spec fn with_neighbor(neighbors: Seq<usize>, neighbor: usize) -> Seq<usize> {
    if neighbors.contains(neighbor) {
        neighbors
    } else {
        neighbors.push(neighbor)
    }
}

/// The adjacency after recording the segment between `a` and `b`.
pub open spec fn connected(adj: Seq<Seq<usize>>, a: usize, b: usize) -> Seq<Seq<usize>> {
    if a == b {
        adj
    } else {
        adj.update(a as int, with_neighbor(adj[a as int], b)).update(
            b as int,
            with_neighbor(adj[b as int], a),
        )
    }
}

/// The adjacency after ordering the neighbours of `v` by `keys`.
pub open spec fn reordered(adj: Seq<Seq<usize>>, v: usize, keys: Seq<u64>) -> Seq<Seq<usize>> {
    adj.update(v as int, items_of(stable_sort(keyed(keys, adj[v as int]))))
}

/// A face walk keeps its face on the left: arriving at `cur` from `prev`,
/// it leaves along the neighbour that comes just before `prev` in `cur`'s
/// cyclic order, and it stops when `prev` is not a neighbour of `cur`.
pub proof fn lemma_next_face_turns_left(adj: Seq<Seq<usize>>, prev: usize, cur: usize, r: int)
    ensures
        cur < adj.len() && 0 <= r < adj[cur as int].len() && adj[cur as int][r] == prev && (forall|j: int|
            0 <= j < r ==> adj[cur as int][j] != prev) ==> next_face(adj, prev, cur) == Some(
            adj[cur as int][(r + adj[cur as int].len() - 1) % (adj[cur as int].len() as int)],
        ),
        (cur >= adj.len() || !adj[cur as int].contains(prev)) ==> next_face(adj, prev, cur) is None,
{
    if cur < adj.len() {
        let nb = adj[cur as int];
        lemma_position_of(nb, prev);
        let p = position_of(nb, prev);
        if 0 <= r < nb.len() && nb[r] == prev && (forall|j: int| 0 <= j < r ==> nb[j] != prev) {
            if p < r {
                assert(nb[p] != prev);
            }
            assert(p == r);
            let l = nb.len() as int;
            if r == 0 {
                vstd::arithmetic::div_mod::lemma_small_mod((l - 1) as nat, l as nat);
            } else {
                vstd::arithmetic::div_mod::lemma_mod_add_multiples_vanish(r - 1, l);
                vstd::arithmetic::div_mod::lemma_small_mod((r - 1) as nat, l as nat);
            }
        }
        if !nb.contains(prev) && p >= 0 {
            assert(nb[p] == prev);
        }
    }
}

/// The length of a face walk: every edge it walks exists and was visited
/// neither before the walk nor earlier in it, and the walk ends exactly
/// when the step budget is spent, the walk cannot be continued, or its next
/// edge was visited already.
pub proof fn lemma_walk_len_stops(adj: Seq<Seq<usize>>, s: usize, e: usize, seen: Seq<(usize, usize)>, max: nat)
    ensures
        ({
            let n = walk_len(adj, s, e, seen, max);
            &&& n <= max
            &&& forall|k: nat|
                k < n ==> (#[trigger] walk_edge(adj, s, e, k)) is Some && !seen.contains(walk_edge(adj, s, e, k)->0)
                    && forall|j: nat| j < k ==> walk_edge(adj, s, e, j) != walk_edge(adj, s, e, k)
            &&& n == max || walk_edge(adj, s, e, n) is None || seen.contains(walk_edge(adj, s, e, n)->0)
                || exists|j: nat| j < n && walk_edge(adj, s, e, j) == walk_edge(adj, s, e, n)
        }),
{
    lemma_walk_len_from(adj, s, e, seen, max, 0);
    let n = walk_len(adj, s, e, seen, max);
    assert forall|k: nat| k < n implies (#[trigger] walk_edge(adj, s, e, k)) is Some && !seen.contains(
        walk_edge(adj, s, e, k)->0,
    ) && forall|j: nat| j < k ==> walk_edge(adj, s, e, j) != walk_edge(adj, s, e, k) by {
        assert(!walk_stops(adj, s, e, seen, max, k));
        let x = walk_edge(adj, s, e, k)->0;
        let p = walk_prefix(adj, s, e, k);
        assert((seen + p).subrange(0, seen.len() as int) =~= seen);
        if seen.contains(x) {
            let w = choose|w: int| 0 <= w < seen.len() && seen[w] == x;
            assert((seen + p)[w] == x);
        }
        assert forall|j: nat| j < k implies walk_edge(adj, s, e, j) != walk_edge(adj, s, e, k) by {
            if walk_edge(adj, s, e, j) == walk_edge(adj, s, e, k) {
                assert(p[j as int] == x);
                assert((seen + p)[(seen.len() + j) as int] == x);
            }
        }
    }
    assert(walk_stops(adj, s, e, seen, max, n));
    if n < max && walk_edge(adj, s, e, n) is Some && !seen.contains(walk_edge(adj, s, e, n)->0) {
        let x = walk_edge(adj, s, e, n)->0;
        let p = walk_prefix(adj, s, e, n);
        assert((seen + p).contains(x));
        let w = choose|w: int| 0 <= w < (seen + p).len() && (seen + p)[w] == x;
        if w < seen.len() {
            assert(seen[w] == x);
        } else {
            let j = (w - seen.len()) as nat;
            assert(p[j as int] == x);
            assert(walk_edge(adj, s, e, j) is Some) by {
                assert(!walk_stops(adj, s, e, seen, max, j));
            }
            assert(walk_edge(adj, s, e, j) == walk_edge(adj, s, e, n));
        }
    }
}

/// Enumeration keeps every face walk of at least three edges as a ring of
/// the walk's start vertices, and drops only walks of fewer than three;
/// an already visited edge starts no walk.
pub proof fn lemma_face_step_keeps_walks(adj: Seq<Seq<usize>>, s: usize, e: usize, st: FaceState)
    ensures
        st.visited.contains((s, e)) ==> face_step(adj, s, e, st) == st,
        ({
            let n = walk_len(adj, s, e, st.visited, walk_budget(adj));
            let ring = face_step(adj, s, e, st).rings.last();
            !st.visited.contains((s, e)) ==> {
                &&& face_step(adj, s, e, st).visited == st.visited + walk_prefix(adj, s, e, n)
                &&& n >= 3 ==> face_step(adj, s, e, st).rings.len() == st.rings.len() + 1
                    && face_step(adj, s, e, st).rings.take(st.rings.len() as int) == st.rings
                    && ring.len() == n
                    && forall|k: nat| k < n ==> ring[k as int] == (#[trigger] walk_edge(adj, s, e, k)).unwrap().0
                &&& n < 3 ==> face_step(adj, s, e, st).rings == st.rings
            }
        }),
{
    if !st.visited.contains((s, e)) {
        let n = walk_len(adj, s, e, st.visited, walk_budget(adj));
        if n >= 3 {
            let r = face_step(adj, s, e, st).rings;
            assert(r.take(st.rings.len() as int) =~= st.rings);
        }
    }
}

/// Appends `neighbor` to `neighbors` unless it is already present.
pub fn push_unique_neighbor(neighbors: &mut Vec<usize>, neighbor: usize)
    ensures
        final(neighbors)@ == with_neighbor(old(neighbors)@, neighbor),
{
    let mut i: usize = 0;
    while i < neighbors.len()
        invariant
            i <= neighbors@.len(),
            neighbors@ == old(neighbors)@,
            forall|j: int| 0 <= j < i ==> neighbors@[j] != neighbor,
        decreases neighbors@.len() - i,
    {
        if neighbors[i] == neighbor {
            return;
        }
        i = i + 1;
    }
    neighbors.push(neighbor);
}

/// Whether the directed edge (start, end) is among `visited`.
pub fn directed_edge_seen(visited: &[(usize, usize)], start: usize, end: usize) -> (seen: bool)
    ensures
        seen == visited@.contains((start, end)),
{
    let mut i: usize = 0;
    while i < visited.len()
        invariant
            i <= visited@.len(),
            forall|j: int| 0 <= j < i ==> visited@[j] != (start, end),
        decreases visited@.len() - i,
    {
        let edge = visited[i];
        if edge.0 == start && edge.1 == end {
            assert(visited@[i as int] == (start, end));
            return true;
        }
        i = i + 1;
    }
    false
}

/// An arrangement: for each vertex, its neighbours in direction order.
pub struct Arrangement {
    adjacency: Vec<Vec<usize>>,
}

impl View for Arrangement {
    type V = Seq<Seq<usize>>;

    closed spec fn view(&self) -> Seq<Seq<usize>> {
        self.adjacency@.map_values(|nb: Vec<usize>| nb@)
    }
}

impl Arrangement {
    /// An arrangement with no vertices.
    pub fn new() -> (arrangement: Arrangement)
        ensures
            arrangement@ == Seq::<Seq<usize>>::empty(),
    {
        let arrangement = Arrangement { adjacency: Vec::new() };
        assert(arrangement@ =~= Seq::<Seq<usize>>::empty());
        arrangement
    }

    /// The number of vertices.
    pub fn vertex_count(&self) -> (n: usize)
        ensures
            n == self@.len(),
    {
        self.adjacency.len()
    }

    /// Adds a vertex without neighbours and returns its index.
    pub fn add_vertex(&mut self) -> (index: usize)
        requires
            old(self)@.len() < usize::MAX,
        ensures
            index == old(self)@.len(),
            final(self)@ == old(self)@.push(Seq::empty()),
    {
        let index = self.adjacency.len();
        self.adjacency.push(Vec::new());
        assert(self@ =~= old(self)@.push(Seq::empty()));
        index
    }

    /// The neighbours of vertex `v`, in their current order.
    pub fn neighbors(&self, v: usize) -> (nb: &Vec<usize>)
        requires
            v < self@.len(),
        ensures
            nb@ == self@[v as int],
    {
        &self.adjacency[v]
    }

    /// Records the segment between vertices `a` and `b`: each becomes a
    /// neighbour of the other, once; a segment from a vertex to itself is
    /// ignored.
    pub fn connect(&mut self, a: usize, b: usize)
        requires
            a < old(self)@.len(),
            b < old(self)@.len(),
        ensures
            final(self)@ == connected(old(self)@, a, b),
    {
        if a == b {
            return;
        }
        let ghost s0 = self@;
        push_unique_neighbor(&mut self.adjacency[a], b);
        let ghost s1 = self@;
        assert(s1 =~= s0.update(a as int, with_neighbor(s0[a as int], b)));
        push_unique_neighbor(&mut self.adjacency[b], a);
        assert(self@ =~= s1.update(b as int, with_neighbor(s1[b as int], a)));
    }

    /// Reorders the neighbours of `v` by `keys`, stably: `keys[i]` is the
    /// key of the neighbour now at position `i`.
    pub fn order_neighbors(&mut self, v: usize, keys: &[u64])
        requires
            v < old(self)@.len(),
            keys@.len() == old(self)@[v as int].len(),
        ensures
            final(self)@ == reordered(old(self)@, v, keys@),
    {
        let sorted = sort_by_keys(&self.adjacency[v], keys);
        self.adjacency.set(v, sorted);
        assert(self@ =~= old(self)@.update(
            v as int,
            items_of(stable_sort(keyed(keys@, old(self)@[v as int]))),
        ));
    }

    /// The vertex after the directed edge (previous, current) on its face.
    pub fn next_face_vertex(&self, previous: usize, current: usize) -> (next: Option<usize>)
        ensures
            next == next_face(self@, previous, current),
    {
        if current >= self.adjacency.len() {
            return None;
        }
        let neighbors = &self.adjacency[current];
        proof {
            lemma_position_of(neighbors@, previous);
        }
        let mut i: usize = 0;
        while i < neighbors.len()
            invariant
                i <= neighbors@.len(),
                current < self@.len(),
                neighbors@ == self@[current as int],
                forall|j: int| 0 <= j < i ==> neighbors@[j] != previous,
            decreases neighbors@.len() - i,
        {
            if neighbors[i] == previous {
                proof {
                    lemma_position_of(neighbors@, previous);
                    let r = position_of(neighbors@, previous);
                    if r < 0 {
                        assert(neighbors@[i as int] != previous);
                    } else if r < i {
                        assert(neighbors@[r] != previous);
                    } else if r > i {
                        assert(neighbors@[i as int] != previous);
                    }
                    assert(r == i);
                }
                if i == 0 {
                    return Some(neighbors[neighbors.len() - 1]);
                } else {
                    return Some(neighbors[i - 1]);
                }
            }
            i = i + 1;
        }
        None
    }

    /// The step budget of a face walk: one more than the total number of
    /// directed edges, saturated at the largest `usize`.
    fn max_walk_steps(&self) -> (max: usize)
        ensures
            max as nat == walk_budget(self@),
    {
        let mut total: usize = 0;
        let mut i: usize = 0;
        let ghost adj = self@;
        while i < self.adjacency.len()
            invariant
                i <= self.adjacency@.len(),
                adj == self@,
                adj.len() == self.adjacency@.len(),
                total as nat == if total_degree(adj.take(i as int)) >= usize::MAX {
                    usize::MAX as nat
                } else {
                    total_degree(adj.take(i as int))
                },
            decreases self.adjacency@.len() - i,
        {
            proof {
                assert(adj.take(i + 1).drop_last() =~= adj.take(i as int));
                assert(adj[i as int] == self.adjacency@[i as int]@);
            }
            total = total.saturating_add(self.adjacency[i].len());
            i = i + 1;
        }
        proof {
            assert(adj.take(i as int) =~= adj);
        }
        total.saturating_add(1)
    }

    /// Walks the face that starts with the directed edge (start, end),
    /// recording each walked edge in `visited`, and returns the vertices at
    /// which the walked edges start. The walk stops before an edge that was
    /// already visited, when it cannot be continued, or when the step budget
    /// is spent.
    pub fn walk_face(&self, start: usize, end: usize, visited: &mut Vec<(usize, usize)>) -> (ring: Vec<usize>)
        ensures
            final(visited)@ == old(visited)@ + walk_prefix(
                self@,
                start,
                end,
                walk_len(self@, start, end, old(visited)@, walk_budget(self@)),
            ),
            ring@ == sources(
                walk_prefix(
                    self@,
                    start,
                    end,
                    walk_len(self@, start, end, old(visited)@, walk_budget(self@)),
                ),
            ),
    {
        let ghost adj = self@;
        let ghost seen = visited@;
        let max_steps = self.max_walk_steps();
        let ghost max = max_steps as nat;
        let ghost n = walk_len(adj, start, end, seen, max);
        let mut ring: Vec<usize> = Vec::new();
        let mut current_start = start;
        let mut current_end = end;
        let mut step: usize = 0;
        proof {
            assert(walk_prefix(adj, start, end, 0) =~= Seq::<(usize, usize)>::empty());
            assert(visited@ =~= seen + walk_prefix(adj, start, end, 0));
            assert(ring@ =~= sources(walk_prefix(adj, start, end, 0)));
        }
        loop
            invariant_except_break
                step <= max_steps,
                walk_edge(adj, start, end, step as nat) == Some((current_start, current_end)),
                walk_len_from(adj, start, end, seen, max, step as nat) == n,
                visited@ == seen + walk_prefix(adj, start, end, step as nat),
                ring@ == sources(walk_prefix(adj, start, end, step as nat)),
            invariant
                adj == self@,
                max == max_steps,
                max == walk_budget(adj),
                n == walk_len(adj, start, end, seen, max),
            ensures
                visited@ == seen + walk_prefix(adj, start, end, n),
                ring@ == sources(walk_prefix(adj, start, end, n)),
            decreases max_steps - step,
        {
            if step >= max_steps {
                proof {
                    assert(walk_stops(adj, start, end, seen, max, step as nat));
                }
                break;
            }
            if directed_edge_seen(visited.as_slice(), current_start, current_end) {
                proof {
                    assert(walk_stops(adj, start, end, seen, max, step as nat));
                }
                break;
            }
            proof {
                assert(!walk_stops(adj, start, end, seen, max, step as nat));
                assert(walk_len_from(adj, start, end, seen, max, (step + 1) as nat) == n);
                assert(walk_prefix(adj, start, end, (step + 1) as nat) =~= walk_prefix(
                    adj,
                    start,
                    end,
                    step as nat,
                ).push((current_start, current_end)));
            }
            visited.push((current_start, current_end));
            ring.push(current_start);
            proof {
                assert(visited@ =~= seen + walk_prefix(adj, start, end, (step + 1) as nat));
                assert(ring@ =~= sources(walk_prefix(adj, start, end, (step + 1) as nat)));
            }
            let next = self.next_face_vertex(current_start, current_end);
            match next {
                None => {
                    proof {
                        assert(walk_edge(adj, start, end, (step + 1) as nat) is None);
                        assert(walk_stops(adj, start, end, seen, max, (step + 1) as nat));
                        assert(walk_len_from(adj, start, end, seen, max, (step + 1) as nat) == (step
                            + 1) as nat);
                    }
                    assert(n == step + 1);
                    break;
                },
                Some(v) => {
                    current_start = current_end;
                    current_end = v;
                },
            }
            step = step + 1;
            if current_start == start && current_end == end {
                proof {
                    let p = walk_prefix(adj, start, end, step as nat);
                    assert(p[0] == (start, end));
                    assert((seen + p)[seen.len() as int] == (start, end));
                    assert(walk_stops(adj, start, end, seen, max, step as nat));
                }
                break;
            }
        }
        ring
    }

    /// Walks the faces that lie to the left of the given directed edges:
    /// each edge in `starts` not visited by an earlier walk starts a walk,
    /// and every walk of at least three edges yields the ring of vertices it
    /// passed.
    pub fn face_rings_from(&self, starts: &[(usize, usize)]) -> (rings: Vec<Vec<usize>>)
        ensures
            rings@.map_values(|r: Vec<usize>| r@) == faces_over(
                self@,
                starts@,
                0,
                FaceState { rings: Seq::empty(), visited: Seq::empty() },
            ).rings,
    {
        let ghost adj = self@;
        let ghost target = faces_over(
            adj,
            starts@,
            0,
            FaceState { rings: Seq::empty(), visited: Seq::empty() },
        );
        let mut faces: Vec<Vec<usize>> = Vec::new();
        let mut visited: Vec<(usize, usize)> = Vec::new();
        let mut i: usize = 0;
        proof {
            assert(faces@.map_values(|r: Vec<usize>| r@) =~= Seq::<Seq<usize>>::empty());
        }
        while i < starts.len()
            invariant
                adj == self@,
                i <= starts@.len(),
                faces_over(
                    adj,
                    starts@,
                    i as int,
                    FaceState { rings: faces@.map_values(|r: Vec<usize>| r@), visited: visited@ },
                ) == target,
            decreases starts@.len() - i,
        {
            let (start, end) = starts[i];
            let ghost st = FaceState {
                rings: faces@.map_values(|r: Vec<usize>| r@),
                visited: visited@,
            };
            if !directed_edge_seen(visited.as_slice(), start, end) {
                let ring = self.walk_face(start, end, &mut visited);
                if ring.len() >= 3 {
                    let ghost before = faces@;
                    faces.push(ring);
                    proof {
                        assert(faces@.map_values(|r: Vec<usize>| r@) =~= before.map_values(
                            |r: Vec<usize>| r@,
                        ).push(ring@));
                    }
                }
                proof {
                    assert(FaceState {
                        rings: faces@.map_values(|r: Vec<usize>| r@),
                        visited: visited@,
                    } == face_step(adj, start, end, st));
                }
            }
            i = i + 1;
        }
        faces
    }

    /// Walks every face: directed edges are taken in vertex order and, for
    /// each vertex, in neighbour order; each edge not yet visited starts a
    /// walk, and every walk of at least three edges yields the ring of
    /// vertices it passed.
    pub fn face_rings(&self) -> (rings: Vec<Vec<usize>>)
        ensures
            rings@.map_values(|r: Vec<usize>| r@) == face_rings_of(self@),
    {
        let ghost adj = self@;
        let ghost target = faces_from(
            adj,
            0,
            0,
            FaceState { rings: Seq::empty(), visited: Seq::empty() },
        );
        let mut faces: Vec<Vec<usize>> = Vec::new();
        let mut visited: Vec<(usize, usize)> = Vec::new();
        let n = self.adjacency.len();
        let mut start: usize = 0;
        proof {
            assert(faces@.map_values(|r: Vec<usize>| r@) =~= Seq::<Seq<usize>>::empty());
        }
        while start < n
            invariant
                adj == self@,
                n == adj.len(),
                start <= n,
                faces_from(
                    adj,
                    start as int,
                    0,
                    FaceState { rings: faces@.map_values(|r: Vec<usize>| r@), visited: visited@ },
                ) == target,
            decreases n - start,
        {
            let neighbors = &self.adjacency[start];
            let count = neighbors.len();
            proof {
                assert(neighbors@ == adj[start as int]);
            }
            let mut j: usize = 0;
            while j < count
                invariant
                    adj == self@,
                    n == adj.len(),
                    start < n,
                    count == adj[start as int].len(),
                    neighbors@ == adj[start as int],
                    j <= count,
                    faces_from(
                        adj,
                        start as int,
                        j as int,
                        FaceState { rings: faces@.map_values(|r: Vec<usize>| r@), visited: visited@ },
                    ) == target,
                decreases count - j,
            {
                let end = neighbors[j];
                let ghost st = FaceState {
                    rings: faces@.map_values(|r: Vec<usize>| r@),
                    visited: visited@,
                };
                if !directed_edge_seen(visited.as_slice(), start, end) {
                    let ring = self.walk_face(start, end, &mut visited);
                    let ghost walked_len = walk_len(adj, start, end, st.visited, walk_budget(adj));
                    proof {
                        assert(ring@.len() == walked_len);
                    }
                    if ring.len() >= 3 {
                        let ghost before = faces@;
                        faces.push(ring);
                        proof {
                            assert(faces@.map_values(|r: Vec<usize>| r@) =~= before.map_values(
                                |r: Vec<usize>| r@,
                            ).push(ring@));
                        }
                    }
                    proof {
                        assert(FaceState {
                            rings: faces@.map_values(|r: Vec<usize>| r@),
                            visited: visited@,
                        } == face_step(adj, start, end, st));
                    }
                }
                j = j + 1;
            }
            start = start + 1;
        }
        faces
    }
}


/// The directed edge `x` is an edge of the arrangement: its end is a
/// neighbour of its start.
pub open spec fn is_directed_edge(adj: Seq<Seq<usize>>, x: (usize, usize)) -> bool {
    x.0 < adj.len() && adj[x.0 as int].contains(x.1)
}

/// Counting from step `k`, the walk continues through every step before
/// the one it stops at.
proof fn lemma_walk_len_from(
    adj: Seq<Seq<usize>>,
    s: usize,
    e: usize,
    seen: Seq<(usize, usize)>,
    max: nat,
    k: nat,
)
    requires
        k <= max,
    ensures
        k <= walk_len_from(adj, s, e, seen, max, k) <= max,
        walk_stops(adj, s, e, seen, max, walk_len_from(adj, s, e, seen, max, k)),
        forall|i: nat|
            k <= i < walk_len_from(adj, s, e, seen, max, k) ==> !#[trigger] walk_stops(
                adj,
                s,
                e,
                seen,
                max,
                i,
            ),
    decreases max - k,
{
    if !walk_stops(adj, s, e, seen, max, k) {
        lemma_walk_len_from(adj, s, e, seen, max, k + 1);
    }
}

/// A continued walk step yields an edge of the arrangement leaving the
/// vertex where the previous edge ended.
proof fn lemma_walk_edge_step(adj: Seq<Seq<usize>>, s: usize, e: usize, k: nat)
    requires
        k >= 1,
        walk_edge(adj, s, e, k) is Some,
    ensures
        walk_edge(adj, s, e, (k - 1) as nat) is Some,
        walk_edge(adj, s, e, k).unwrap().0 == walk_edge(adj, s, e, (k - 1) as nat).unwrap().1,
        is_directed_edge(adj, walk_edge(adj, s, e, k).unwrap()),
{
    let prev = walk_edge(adj, s, e, (k - 1) as nat).unwrap();
    let nb = adj[prev.1 as int];
    lemma_position_of(nb, prev.0);
    let r = position_of(nb, prev.0);
    if r == 0 {
        assert(nb.contains(nb[nb.len() - 1]));
    } else {
        assert(nb.contains(nb[r - 1]));
    }
}

/// A face walk visits only edges that were not visited before it, each at
/// most once, and every edge after the first is an edge of the arrangement
/// that continues from where the previous one ended.
pub proof fn lemma_walk_visits_fresh_edges(
    adj: Seq<Seq<usize>>,
    s: usize,
    e: usize,
    seen: Seq<(usize, usize)>,
    max: nat,
)
    ensures
        seen.no_duplicates() ==> (seen + walk_prefix(adj, s, e, walk_len(adj, s, e, seen, max))).no_duplicates(),
        forall|i: int| 0 <= i < walk_len(adj, s, e, seen, max) ==> !seen.contains(
            #[trigger] walk_prefix(adj, s, e, walk_len(adj, s, e, seen, max))[i],
        ),
        forall|i: int|
            1 <= i < walk_len(adj, s, e, seen, max) ==> is_directed_edge(
                adj,
                #[trigger] walk_prefix(adj, s, e, walk_len(adj, s, e, seen, max))[i],
            ) && walk_prefix(adj, s, e, walk_len(adj, s, e, seen, max))[i].0 == walk_prefix(
                adj,
                s,
                e,
                walk_len(adj, s, e, seen, max),
            )[i - 1].1,
        max >= 1 && !seen.contains((s, e)) ==> walk_len(adj, s, e, seen, max) >= 1,
{
    lemma_walk_len_from(adj, s, e, seen, max, 0);
    let n = walk_len(adj, s, e, seen, max);
    let p = walk_prefix(adj, s, e, n);
    assert forall|i: int| 0 <= i < n implies !seen.contains(#[trigger] p[i]) by {
        assert(!walk_stops(adj, s, e, seen, max, i as nat));
        assert((seen + walk_prefix(adj, s, e, i as nat)).subrange(0, seen.len() as int) =~= seen);
        if seen.contains(p[i]) {
            let w = choose|w: int| 0 <= w < seen.len() && seen[w] == p[i];
            assert((seen + walk_prefix(adj, s, e, i as nat))[w] == p[i]);
        }
    }
    assert forall|i: int| 1 <= i < n implies is_directed_edge(adj, #[trigger] p[i]) && p[i].0 == p[i
        - 1].1 by {
        assert(!walk_stops(adj, s, e, seen, max, i as nat));
        lemma_walk_edge_step(adj, s, e, i as nat);
    }
    if seen.no_duplicates() {
        lemma_walk_prefix_fresh(adj, s, e, seen, max, n);
    }
}

/// Each prefix of a walk, appended to the edges seen before it, repeats no
/// edge.
proof fn lemma_walk_prefix_fresh(
    adj: Seq<Seq<usize>>,
    s: usize,
    e: usize,
    seen: Seq<(usize, usize)>,
    max: nat,
    m: nat,
)
    requires
        seen.no_duplicates(),
        m <= walk_len(adj, s, e, seen, max),
    ensures
        (seen + walk_prefix(adj, s, e, m)).no_duplicates(),
    decreases m,
{
    lemma_walk_len_from(adj, s, e, seen, max, 0);
    if m == 0 {
        assert(seen + walk_prefix(adj, s, e, 0) =~= seen);
    } else {
        let k = (m - 1) as nat;
        lemma_walk_prefix_fresh(adj, s, e, seen, max, k);
        assert(!walk_stops(adj, s, e, seen, max, k));
        let before = seen + walk_prefix(adj, s, e, k);
        let x = walk_edge(adj, s, e, k).unwrap();
        assert(seen + walk_prefix(adj, s, e, m) =~= before.push(x));
        assert forall|a: int, b: int|
            0 <= a < before.push(x).len() && 0 <= b < before.push(x).len() && a != b implies before.push(
            x,
        )[a] != before.push(x)[b] by {
            if a == before.len() {
                assert(before[b] != x);
            } else if b == before.len() {
                assert(before[a] != x);
            }
        }
    }
}

/// What face enumeration keeps true: visited edges are distinct edges of
/// the arrangement.
pub open spec fn enumeration_ok(adj: Seq<Seq<usize>>, st: FaceState) -> bool {
    &&& st.visited.no_duplicates()
    &&& forall|i: int| 0 <= i < st.visited.len() ==> is_directed_edge(adj, #[trigger] st.visited[i])
}

/// Handling one edge of the arrangement keeps the enumeration invariant,
/// keeps every edge visited before, and leaves that edge visited.
proof fn lemma_face_step(adj: Seq<Seq<usize>>, u: usize, v: usize, st: FaceState)
    requires
        enumeration_ok(adj, st),
        is_directed_edge(adj, (u, v)),
    ensures
        enumeration_ok(adj, face_step(adj, u, v, st)),
        face_step(adj, u, v, st).visited.contains((u, v)),
        forall|x: (usize, usize)| st.visited.contains(x) ==> face_step(adj, u, v, st).visited.contains(x),
{
    if !st.visited.contains((u, v)) {
        let max = walk_budget(adj);
        lemma_walk_visits_fresh_edges(adj, u, v, st.visited, max);
        let n = walk_len(adj, u, v, st.visited, max);
        let p = walk_prefix(adj, u, v, n);
        let t = st.visited + p;
        assert(t[st.visited.len() as int] == (u, v));
        assert forall|i: int| 0 <= i < t.len() implies is_directed_edge(adj, #[trigger] t[i]) by {
            if i >= st.visited.len() {
                let k = i - st.visited.len();
                if k >= 1 {
                    assert(is_directed_edge(adj, p[k]));
                }
            }
        }
        assert forall|x: (usize, usize)| st.visited.contains(x) implies t.contains(x) by {
            let w = choose|w: int| 0 <= w < st.visited.len() && st.visited[w] == x;
            assert(t[w] == x);
        }
    }
}

/// Enumeration from position (start, j) visits every edge of the
/// arrangement from that position on, keeps what was visited, and keeps the
/// enumeration invariant.
proof fn lemma_faces_from(adj: Seq<Seq<usize>>, start: int, j: int, st: FaceState)
    requires
        enumeration_ok(adj, st),
        0 <= start,
        0 <= j,
        adj.len() <= usize::MAX,
    ensures
        enumeration_ok(adj, faces_from(adj, start, j, st)),
        forall|x: (usize, usize)| st.visited.contains(x) ==> faces_from(adj, start, j, st).visited.contains(x),
        forall|u: int, i: int|
            start <= u < adj.len() && 0 <= i < adj[u].len() && (u > start || i >= j)
                ==> faces_from(adj, start, j, st).visited.contains((u as usize, #[trigger] adj[u][i])),
    decreases adj.len() - start, adj[start].len() - j,
{
    if start >= adj.len() {
    } else if j >= adj[start].len() {
        lemma_faces_from(adj, start + 1, 0, st);
    } else {
        let v = adj[start][j];
        assert(adj[start].contains(v));
        lemma_face_step(adj, start as usize, v, st);
        let st2 = face_step(adj, start as usize, v, st);
        lemma_faces_from(adj, start, j + 1, st2);
    }
}

/// Face enumeration walks every directed edge of the arrangement exactly
/// once: the visited edges are distinct, are all edges of the arrangement,
/// and include each of them.
pub proof fn lemma_faces_visit_every_edge_once(adj: Seq<Seq<usize>>)
    requires
        adj.len() <= usize::MAX,
    ensures
        enumeration_ok(
            adj,
            faces_from(adj, 0, 0, FaceState { rings: Seq::empty(), visited: Seq::empty() }),
        ),
        forall|u: int, i: int|
            0 <= u < adj.len() && 0 <= i < adj[u].len() ==> faces_from(
                adj,
                0,
                0,
                FaceState { rings: Seq::empty(), visited: Seq::empty() },
            ).visited.contains((u as usize, #[trigger] adj[u][i])),
{
    lemma_faces_from(adj, 0, 0, FaceState { rings: Seq::empty(), visited: Seq::empty() });
}


/// The adjacency is that of an undirected simple graph: neighbours are
/// vertices, no vertex neighbours itself, each neighbour relation goes both
/// ways, and no list repeats a vertex.
pub open spec fn well_connected(adj: Seq<Seq<usize>>) -> bool {
    &&& forall|v: int, i: int|
        0 <= v < adj.len() && 0 <= i < adj[v].len() ==> {
            &&& (#[trigger] adj[v][i]) < adj.len()
            &&& adj[v][i] != v
            &&& adj[adj[v][i] as int].contains(v as usize)
        }
    &&& forall|v: int| 0 <= v < adj.len() ==> (#[trigger] adj[v]).no_duplicates()
}

/// A new arrangement, a new vertex, a recorded segment and a reordering of
/// neighbours all leave the adjacency that of an undirected simple graph.
pub proof fn lemma_construction_keeps_graph_simple(adj: Seq<Seq<usize>>, a: usize, b: usize, keys: Seq<u64>)
    requires
        well_connected(adj),
        adj.len() <= usize::MAX,
    ensures
        well_connected(Seq::<Seq<usize>>::empty()),
        well_connected(adj.push(Seq::empty())),
        a < adj.len() && b < adj.len() ==> well_connected(connected(adj, a, b)),
        a < adj.len() && keys.len() == adj[a as int].len() ==> well_connected(reordered(adj, a, keys)),
{
    let pushed = adj.push(Seq::<usize>::empty());
    assert forall|v: int, i: int| 0 <= v < pushed.len() && 0 <= i < pushed[v].len() implies {
        &&& (#[trigger] pushed[v][i]) < pushed.len()
        &&& pushed[v][i] != v
        &&& pushed[pushed[v][i] as int].contains(v as usize)
    } by {
        assert(v < adj.len());
        assert(pushed[v] == adj[v]);
        let w = adj[v][i] as int;
        assert(adj[w].contains(v as usize));
        assert(pushed[w] == adj[w]);
    }
    assert forall|v: int| 0 <= v < pushed.len() implies (#[trigger] pushed[v]).no_duplicates() by {
        if v < adj.len() {
            assert(pushed[v] == adj[v]);
        }
    }
    if a < adj.len() && b < adj.len() {
        lemma_connect_simple(adj, a, b);
    }
    if a < adj.len() && keys.len() == adj[a as int].len() {
        lemma_reorder_simple(adj, a, keys);
    }
}

proof fn lemma_with_neighbor(nb: Seq<usize>, x: usize)
    ensures
        forall|y: usize| nb.contains(y) ==> with_neighbor(nb, x).contains(y),
        with_neighbor(nb, x).contains(x),
        forall|i: int|
            0 <= i < with_neighbor(nb, x).len() ==> nb.contains(#[trigger] with_neighbor(nb, x)[i])
                || with_neighbor(nb, x)[i] == x,
        nb.no_duplicates() ==> with_neighbor(nb, x).no_duplicates(),
{
    if !nb.contains(x) {
        let t = nb.push(x);
        assert(t[nb.len() as int] == x);
        assert forall|y: usize| nb.contains(y) implies t.contains(y) by {
            let w = choose|w: int| 0 <= w < nb.len() && nb[w] == y;
            assert(t[w] == y);
        }
        assert forall|i: int| 0 <= i < t.len() implies nb.contains(#[trigger] t[i]) || t[i] == x by {
            if i < nb.len() {
                assert(nb[i] == t[i]);
            }
        }
        if nb.no_duplicates() {
            assert forall|i: int, j: int| 0 <= i < t.len() && 0 <= j < t.len() && i != j implies t[i] != t[j] by {
                if i == nb.len() {
                    assert(nb[j] == t[j]);
                } else if j == nb.len() {
                    assert(nb[i] == t[i]);
                }
            }
        }
    }
}

proof fn lemma_connect_simple(adj: Seq<Seq<usize>>, a: usize, b: usize)
    requires
        well_connected(adj),
        a < adj.len(),
        b < adj.len(),
    ensures
        well_connected(connected(adj, a, b)),
{
    if a != b {
        let t = connected(adj, a, b);
        lemma_with_neighbor(adj[a as int], b);
        lemma_with_neighbor(adj[b as int], a);
        assert(t[a as int] == with_neighbor(adj[a as int], b));
        assert(t[b as int] == with_neighbor(adj[b as int], a));
        assert forall|v: int, i: int| 0 <= v < t.len() && 0 <= i < t[v].len() implies {
            &&& (#[trigger] t[v][i]) < t.len()
            &&& t[v][i] != v
            &&& t[t[v][i] as int].contains(v as usize)
        } by {
            let x = t[v][i];
            if v == a as int {
                if x == b {
                } else {
                    assert(adj[v].contains(x));
                    let w = choose|w: int| 0 <= w < adj[v].len() && adj[v][w] == x;
                    assert(adj[v][w] == x);
                    assert(adj[x as int].contains(v as usize));
                }
            } else if v == b as int {
                if x == a {
                } else {
                    assert(adj[v].contains(x));
                    let w = choose|w: int| 0 <= w < adj[v].len() && adj[v][w] == x;
                    assert(adj[v][w] == x);
                    assert(adj[x as int].contains(v as usize));
                }
            } else {
                assert(t[v] == adj[v]);
                assert(adj[x as int].contains(v as usize));
            }
        }
    }
}

proof fn lemma_reorder_simple(adj: Seq<Seq<usize>>, v: usize, keys: Seq<u64>)
    requires
        well_connected(adj),
        v < adj.len(),
        keys.len() == adj[v as int].len(),
    ensures
        well_connected(reordered(adj, v, keys)),
{
    broadcast use vstd::seq_lib::group_to_multiset_ensures;

    let old_list = adj[v as int];
    let s = keyed(keys, old_list);
    let srt = stable_sort(s);
    let new_list = items_of(srt);
    let t = reordered(adj, v, keys);
    lemma_stable_sort(s);
    assert(s.no_duplicates()) by {
        assert forall|i: int, j: int| 0 <= i < s.len() && 0 <= j < s.len() && i != j implies s[i] != s[j] by {
            assert(old_list[i] != old_list[j]);
        }
    }
    s.lemma_multiset_has_no_duplicates();
    assert forall|x: (u64, usize)| srt.to_multiset().contains(x) implies srt.to_multiset().count(x) == 1 by {
        assert(s.to_multiset().contains(x));
    }
    srt.lemma_multiset_has_no_duplicates_conv();
    // Every new neighbour is an old one, and every old one is still there.
    assert forall|i: int| 0 <= i < new_list.len() implies old_list.contains(#[trigger] new_list[i]) by {
        assert(s.contains(srt[i]));
        let w = choose|w: int| 0 <= w < s.len() && s[w] == srt[i];
        assert(old_list[w] == new_list[i]);
    }
    assert forall|y: usize| old_list.contains(y) implies new_list.contains(y) by {
        let w = choose|w: int| 0 <= w < old_list.len() && old_list[w] == y;
        assert(s.contains(s[w]));
        assert(s.to_multiset().count(s[w]) > 0);
        assert(srt.contains(s[w]));
        let z = choose|z: int| 0 <= z < srt.len() && srt[z] == s[w];
        assert(new_list[z] == y);
    }
    assert(new_list.no_duplicates()) by {
        assert forall|i: int, j: int| 0 <= i < new_list.len() && 0 <= j < new_list.len() && i != j implies new_list[i] != new_list[j] by {
            if new_list[i] == new_list[j] {
                assert(s.contains(srt[i]));
                assert(s.contains(srt[j]));
                let a = choose|a: int| 0 <= a < s.len() && s[a] == srt[i];
                let b = choose|b: int| 0 <= b < s.len() && s[b] == srt[j];
                assert(old_list[a] == old_list[b]);
                assert(a == b);
                assert(srt[i] == srt[j]);
            }
        }
    }
    assert forall|u: int, i: int| 0 <= u < t.len() && 0 <= i < t[u].len() implies {
        &&& (#[trigger] t[u][i]) < t.len()
        &&& t[u][i] != u
        &&& t[t[u][i] as int].contains(u as usize)
    } by {
        let x = t[u][i];
        if u == v as int {
            assert(old_list.contains(x));
            let w = choose|w: int| 0 <= w < old_list.len() && old_list[w] == x;
            assert(adj[u][w] == x);
            assert(adj[x as int].contains(u as usize));
            if x == v {
            } else {
                assert(t[x as int] == adj[x as int]);
            }
        } else {
            assert(t[u] == adj[u]);
            assert(adj[x as int].contains(u as usize));
            if x == v {
                assert(old_list.contains(u as usize));
                assert(new_list.contains(u as usize));
            }
        }
    }
}

} // verus!
