//! Tour representation: one adjacency pair per vertex.
//!
//! `Path` keeps, for every vertex, its two cycle neighbours. A 2-opt move
//! (`twist`) is four slot rewrites; traversal follows the neighbour that is
//! not the vertex the walk came from. The mathematical model lives in
//! `cycle`: the view of a `Path` is the sequence of its adjacency pairs.

use crate::cycle::adj_in_bounds;
use crate::cycle::all_link_back;
use crate::cycle::edge_at;
use crate::cycle::is_hamiltonian_seq;
use crate::cycle::lemma_hamiltonian_implies_order;
use crate::cycle::lemma_order_implies_hamiltonian;
use crate::cycle::lemma_twist_order;
use crate::cycle::lemma_walk_in_bounds;
use crate::cycle::order_matches;
use crate::cycle::links_back_at;
use crate::cycle::pair_has;
use crate::cycle::step_from;
use crate::cycle::twist_pair_at;
use crate::cycle::twist_seq;
use crate::cycle::twisted_order;
use crate::cycle::walk_order;
use crate::cycle::walk_vertex;
use crate::cycle::walk_visits;
use vstd::prelude::*;

verus! {

/// A tour over the vertices `0 .. N`: entry `v` holds the two neighbours of
/// `v`, in interchangeable slots.
#[derive(PartialEq, Eq, Debug)]
pub struct Path(Vec<(usize, usize)>);

impl View for Path {
    type V = Seq<(usize, usize)>;

    closed spec fn view(&self) -> Seq<(usize, usize)> {
        self.0@
    }
}

impl Path {
    /// Structural soundness: at least two vertices, every slot in range.
    pub open spec fn wf(&self) -> bool {
        &&& self@.len() >= 2
        &&& adj_in_bounds(self@)
    }

    /// A tour skeleton with every slot zeroed, to be filled by `init_edge`.
    pub fn uninitialized(size: usize) -> (r: Path)
        requires
            size >= 2,
        ensures
            r.wf(),
            r@.len() == size,
            forall|v: int| 0 <= v < size ==> r@[v] == (0usize, 0usize),
    {
        let mut adj: Vec<(usize, usize)> = Vec::new();
        let mut k: usize = 0;
        while k < size
            invariant
                adj@.len() == k,
                k <= size,
                forall|v: int| 0 <= v < k ==> adj@[v] == (0usize, 0usize),
            decreases size - k,
        {
            adj.push((0usize, 0usize));
            k = k + 1;
        }
        Path(adj)
    }

    /// Number of vertices of the tour.
    pub fn size(&self) -> (r: usize)
        ensures
            r == self@.len(),
    {
        self.0.len()
    }

    /// Wrap an explicit adjacency table.
    pub fn new(data: Vec<(usize, usize)>) -> (r: Path)
        requires
            data@.len() >= 2,
            adj_in_bounds(data@),
        ensures
            r@ == data@,
            r.wf(),
    {
        Path(data)
    }

    /// Write `v1` into the first zero slot of the entry of `v0`, keeping the
    /// slots sorted; see `fill_slot`.
    fn internal_init_edge(&mut self, v0: usize, v1: usize)
        requires
            old(self).wf(),
            v0 < old(self)@.len(),
            v1 < old(self)@.len(),
        ensures
            final(self)@ == old(self)@.update(v0 as int, fill_slot(old(self)@[v0 as int], v1)),
            final(self).wf(),
    {
        let pair = self.0[v0];
        let filled = if pair.0 == 0 {
            (v1, pair.1)
        } else {
            (pair.0, v1)
        };
        let ordered = if filled.0 > filled.1 {
            (filled.1, filled.0)
        } else {
            filled
        };
        self.0.set(v0, ordered);
    }

    /// Record the edge `v0 - v1` during construction: each endpoint gains
    /// the other in its first free slot.
    pub fn init_edge(&mut self, v0: usize, v1: usize)
        requires
            old(self).wf(),
            v0 < old(self)@.len(),
            v1 < old(self)@.len(),
            v0 != v1,
        ensures
            final(self)@ == old(self)@.update(
                v0 as int,
                fill_slot(old(self)@[v0 as int], v1),
            ).update(v1 as int, fill_slot(old(self)@[v1 as int], v0)),
            final(self).wf(),
    {
        self.internal_init_edge(v0, v1);
        self.internal_init_edge(v1, v0);
    }

    /// Move one step along the tour: from `cur`, arrived from `prev`, to
    /// the other neighbour of `cur`.
    fn next_vertex(&self, prev: usize, cur: usize) -> (r: usize)
        requires
            self.wf(),
            cur < self@.len(),
        ensures
            r == step_from(self@[cur as int], prev),
            r < self@.len(),
    {
        let pair = self.0[cur];
        if pair.0 != prev {
            pair.0
        } else {
            pair.1
        }
    }
}

/// The slot update `internal_init_edge` performs: `w` replaces the first
/// zero slot (or the second slot when none is zero), and the pair is then
/// sorted. During construction a partially filled entry always keeps its
/// free slot first, so the update fills entries in order.
pub open spec fn fill_slot(p: (usize, usize), w: usize) -> (usize, usize) {
    let filled = if p.0 == 0 {
        (w, p.1)
    } else {
        (p.0, w)
    };
    if filled.0 > filled.1 {
        (filled.1, filled.0)
    } else {
        filled
    }
}

/// Restartable cursor over the vertices the tour walk yields, ending at the
/// start vertex `0`.
pub struct VerticesVisited {
    items: Vec<usize>,
    pos: usize,
}

impl VerticesVisited {
    /// All vertices the cursor will yield, in order.
    pub closed spec fn seq(&self) -> Seq<usize> {
        self.items@
    }

    /// How many vertices have been yielded so far.
    pub closed spec fn index(&self) -> int {
        self.pos as int
    }

    /// The cursor never moves past the end.
    pub closed spec fn inv(&self) -> bool {
        self.pos <= self.items@.len()
    }

    /// Yield the next vertex, or `None` once the walk has closed.
    pub fn next(&mut self) -> (r: Option<usize>)
        requires
            old(self).inv(),
        ensures
            final(self).inv(),
            final(self).seq() == old(self).seq(),
            old(self).index() < old(self).seq().len() ==> r == Some(
                old(self).seq()[old(self).index()],
            ) && final(self).index() == old(self).index() + 1,
            old(self).index() >= old(self).seq().len() ==> r is None && final(self).index()
                == old(self).index(),
    {
        if self.pos < self.items.len() {
            let v = self.items[self.pos];
            self.pos = self.pos + 1;
            Some(v)
        } else {
            None
        }
    }
}

/// Restartable cursor over the directed edges of the tour walk, from the
/// edge leaving vertex `0` to the edge closing the cycle.
pub struct EdgesVisited {
    items: Vec<(usize, usize)>,
    pos: usize,
}

impl EdgesVisited {
    /// All edges the cursor will yield, in order.
    pub closed spec fn seq(&self) -> Seq<(usize, usize)> {
        self.items@
    }

    /// How many edges have been yielded so far.
    pub closed spec fn index(&self) -> int {
        self.pos as int
    }

    /// The cursor never moves past the end.
    pub closed spec fn inv(&self) -> bool {
        self.pos <= self.items@.len()
    }

    /// Yield the next edge, or `None` once the walk has closed.
    pub fn next(&mut self) -> (r: Option<(usize, usize)>)
        requires
            old(self).inv(),
        ensures
            final(self).inv(),
            final(self).seq() == old(self).seq(),
            old(self).index() < old(self).seq().len() ==> r == Some(
                old(self).seq()[old(self).index()],
            ) && final(self).index() == old(self).index() + 1,
            old(self).index() >= old(self).seq().len() ==> r is None && final(self).index()
                == old(self).index(),
    {
        if self.pos < self.items.len() {
            let e = self.items[self.pos];
            self.pos = self.pos + 1;
            Some(e)
        } else {
            None
        }
    }
}

impl Path {
    /// The vertices visited by the walk from `0`, in order; the last one is
    /// `0` again when the tour is Hamiltonian.
    pub fn vertices_visited(&self) -> (r: VerticesVisited)
        requires
            self.wf(),
        ensures
            r.inv(),
            r.index() == 0,
            r.seq().len() == self@.len(),
            forall|t: int| 0 <= t < self@.len() ==> r.seq()[t] == walk_vertex(self@, t + 1),
    {
        let n = self.0.len();
        let mut items: Vec<usize> = Vec::new();
        let mut prev: usize = 0;
        let mut cur: usize = self.0[0].0;
        items.push(cur);
        let mut t: usize = 1;
        while t < n
            invariant
                self.wf(),
                n == self@.len(),
                1 <= t <= n,
                items@.len() == t,
                forall|u: int| 0 <= u < t ==> items@[u] == walk_vertex(self@, u + 1),
                prev == walk_vertex(self@, t - 1),
                cur == walk_vertex(self@, t as int),
                cur < n,
            decreases n - t,
        {
            let nx = self.next_vertex(prev, cur);
            prev = cur;
            cur = nx;
            items.push(cur);
            t = t + 1;
        }
        VerticesVisited { items, pos: 0 }
    }

    /// The directed edges crossed by the walk from `0`, in order: edge `k`
    /// joins the `k`-th and `k+1`-th walk vertices.
    pub fn edges_visited(&self) -> (r: EdgesVisited)
        requires
            self.wf(),
        ensures
            r.inv(),
            r.index() == 0,
            r.seq().len() == self@.len(),
            forall|t: int| 0 <= t < self@.len() ==> r.seq()[t] == edge_at(self@, t),
    {
        let n = self.0.len();
        let mut items: Vec<(usize, usize)> = Vec::new();
        let mut from: usize = 0;
        let mut cur: usize = self.0[0].0;
        items.push((0usize, cur));
        let mut t: usize = 1;
        while t < n
            invariant
                self.wf(),
                n == self@.len(),
                1 <= t <= n,
                items@.len() == t,
                forall|u: int| 0 <= u < t ==> items@[u] == edge_at(self@, u),
                from == walk_vertex(self@, t - 1),
                cur == walk_vertex(self@, t as int),
                cur < n,
            decreases n - t,
        {
            let nx = self.next_vertex(from, cur);
            items.push((cur, nx));
            from = cur;
            cur = nx;
            t = t + 1;
        }
        EdgesVisited { items, pos: 0 }
    }

    /// Overwrite `buffer` with the edge list of the walk, reusing its
    /// allocation across scans.
    pub fn edges_visited_buffered(&self, buffer: &mut Vec<(usize, usize)>)
        requires
            self.wf(),
        ensures
            final(buffer)@.len() == self@.len(),
            forall|t: int| 0 <= t < self@.len() ==> final(buffer)@[t] == edge_at(self@, t),
    {
        let n = self.0.len();
        buffer.clear();
        let mut from: usize = 0;
        let mut cur: usize = self.0[0].0;
        buffer.push((0usize, cur));
        let mut t: usize = 1;
        while t < n
            invariant
                self.wf(),
                n == self@.len(),
                1 <= t <= n,
                buffer@.len() == t,
                forall|u: int| 0 <= u < t ==> buffer@[u] == edge_at(self@, u),
                from == walk_vertex(self@, t - 1),
                cur == walk_vertex(self@, t as int),
                cur < n,
            decreases n - t,
        {
            let nx = self.next_vertex(from, cur);
            buffer.push((cur, nx));
            from = cur;
            cur = nx;
            t = t + 1;
        }
    }
}

/// Outcome of the Hamiltonicity diagnostic.
#[derive(PartialEq, Eq, Debug, Copy, Clone)]
pub enum HamiltonianResult {
    /// The table satisfies every tour invariant.
    Valid,
    /// `NoEdgeBack(v, n, p)`: vertex `v` records neighbour `n`, but the
    /// entry `p` of `n` does not record `v` back.
    NoEdgeBack(usize, usize, (usize, usize)),
    /// The walk from `0` closes without having visited this vertex.
    NotVisited(usize),
}

/// The walk reaches `v` strictly before step `t`.
spec fn seen_upto(adj: Seq<(usize, usize)>, t: int, v: usize) -> bool {
    exists|u: int| 1 <= u < t && walk_vertex(adj, u) == v
}

/// Two of the first `t - 1` walk steps land on the same vertex.
spec fn has_repeat(adj: Seq<(usize, usize)>, t: int) -> bool {
    exists|u1: int, u2: int|
        1 <= u1 < u2 < t && walk_vertex(adj, u1) == walk_vertex(adj, u2)
}

impl Path {
    /// Cursor over the tour edges that strictly follow, by at least two
    /// positions, the in-tour edge `(coming_from, vertex)`: the candidates a
    /// reconnection of that edge may pair with.
    pub fn edges_visited_after(&self, coming_from: usize, vertex: usize) -> (r: EdgesVisited)
        requires
            is_hamiltonian_seq(self@),
            exists|k: int|
                0 <= k < self@.len() && #[trigger] edge_at(self@, k) == (coming_from, vertex),
        ensures
            r.inv(),
            r.index() == 0,
            forall|k: int|
                0 <= k < self@.len() && #[trigger] edge_at(self@, k) == (coming_from, vertex)
                    ==> r.seq().len() == (if k + 2 <= self@.len() {
                    self@.len() - k - 2
                } else {
                    0int
                }) && forall|u: int| 0 <= u < r.seq().len() ==> r.seq()[u] == edge_at(self@, k + 2 + u),
    {
        let n = self.0.len();
        let ghost k = choose|k: int|
            0 <= k < self@.len() && edge_at(self@, k) == (coming_from, vertex);
        proof {
            // The walk visits each vertex once, so only position `k` starts
            // this edge.
            assert forall|k2: int|
                0 <= k2 < self@.len() && #[trigger] edge_at(self@, k2) == (coming_from, vertex)
                implies k2 == k by {
                if k2 != k {
                    assert(walk_vertex(self@, if k2 < k {
                        k2
                    } else {
                        k
                    }) != walk_vertex(self@, if k2 < k {
                        k
                    } else {
                        k2
                    })) by {
                        if k2 == 0 || k == 0 {
                            assert(walk_vertex(self@, n as int) == 0);
                        }
                    }
                }
            }
        }
        let mut items: Vec<(usize, usize)> = Vec::new();
        if vertex == 0 {
            // The edge closes the cycle; nothing follows it.
            proof {
                assert(walk_vertex(self@, k + 1) == 0);
                if k + 1 < n {
                    assert(walk_vertex(self@, n as int) == 0);
                }
            }
            return EdgesVisited { items, pos: 0 };
        }
        proof {
            if k + 2 > n {
                assert(walk_vertex(self@, n as int) == 0);
            }
            lemma_walk_in_bounds(self@, k + 1);
        }
        let mut from: usize = vertex;
        let mut cur: usize = self.next_vertex(coming_from, vertex);
        let ghost mut t: int = k + 2;
        proof {
            assert(walk_vertex(self@, k + 2) == cur);
            if cur == 0 && t < n {
                assert(walk_vertex(self@, n as int) == 0);
            }
        }
        while cur != 0
            invariant
                self.wf(),
                is_hamiltonian_seq(self@),
                n == self@.len(),
                0 <= k,
                k + 2 <= t <= n,
                from == walk_vertex(self@, t - 1),
                cur == walk_vertex(self@, t),
                cur < n,
                (cur == 0) <==> (t == n),
                items@.len() == t - (k + 2),
                forall|u: int| 0 <= u < items@.len() ==> items@[u] == edge_at(self@, k + 2 + u),
            decreases n - t,
        {
            let nx = self.next_vertex(from, cur);
            items.push((cur, nx));
            from = cur;
            cur = nx;
            proof {
                t = t + 1;
                assert(walk_vertex(self@, t) == cur);
                if cur == 0 && t < n {
                    assert(walk_vertex(self@, n as int) == 0);
                }
            }
        }
        EdgesVisited { items, pos: 0 }
    }

    /// Diagnostic check of the tour invariants: mutual neighbourhood of
    /// every entry, and a walk that closes at `0` after visiting every
    /// vertex exactly once. Linear in the number of vertices.
    pub fn check_hamiltonian(&self) -> (r: HamiltonianResult)
        requires
            self.wf(),
        ensures
            (r == HamiltonianResult::Valid) <==> is_hamiltonian_seq(self@),
            r matches HamiltonianResult::NoEdgeBack(v, nb, p) ==> v < self@.len() && !links_back_at(
                self@,
                v,
            ) && pair_has(self@[v as int], nb) && p == self@[nb as int] && !pair_has(p, v) && (
            forall|u: usize| u < v ==> #[trigger] links_back_at(self@, u)),
            r matches HamiltonianResult::NotVisited(v) ==> v < self@.len() && all_link_back(self@),
    {
        let n = self.0.len();
        // Mutual neighbourhood, in vertex order, first slot first.
        let mut v: usize = 0;
        while v < n
            invariant
                self.wf(),
                n == self@.len(),
                v <= n,
                forall|u: usize| u < v ==> #[trigger] links_back_at(self@, u),
            decreases n - v,
        {
            let pair = self.0[v];
            let p0 = self.0[pair.0];
            if !(p0.0 == v || p0.1 == v) {
                proof {
                    assert(!links_back_at(self@, v));
                }
                return HamiltonianResult::NoEdgeBack(v, pair.0, p0);
            }
            let p1 = self.0[pair.1];
            if !(p1.0 == v || p1.1 == v) {
                proof {
                    assert(!links_back_at(self@, v));
                }
                return HamiltonianResult::NoEdgeBack(v, pair.1, p1);
            }
            v = v + 1;
        }
        // Walk from 0, marking each vertex reached, for at most n steps or
        // until the walk closes.
        let mut seen: Vec<bool> = Vec::new();
        let mut k: usize = 0;
        while k < n
            invariant
                seen@.len() == k,
                k <= n,
                forall|u: int| 0 <= u < k ==> seen@[u] == false,
            decreases n - k,
        {
            seen.push(false);
            k = k + 1;
        }
        let mut prev: usize = 0;
        let mut cur: usize = self.0[0].0;
        let mut t: usize = 1;
        let mut repeated: bool = false;
        while cur != 0 && t < n
            invariant
                self.wf(),
                n == self@.len(),
                1 <= t <= n,
                prev == walk_vertex(self@, t - 1),
                cur == walk_vertex(self@, t as int),
                cur < n,
                seen@.len() == n,
                forall|vv: usize|
                    vv < n ==> ((#[trigger] seen@[vv as int]) <==> seen_upto(self@, t as int, vv)),
                repeated <==> has_repeat(self@, t as int),
                forall|u: int| 1 <= u < t ==> walk_vertex(self@, u) != 0,
            decreases n - t,
        {
            if seen[cur] {
                repeated = true;
            }
            proof {
                if seen@[cur as int] {
                    let u = choose|u: int| 1 <= u < t && walk_vertex(self@, u) == cur;
                    assert(1 <= u < t + 1 && walk_vertex(self@, u) == walk_vertex(self@, t as int));
                }
            }
            seen.set(cur, true);
            let nx = self.next_vertex(prev, cur);
            prev = cur;
            cur = nx;
            t = t + 1;
            proof {
                assert forall|vv: usize| vv < n implies ((#[trigger] seen@[vv as int])
                    <==> seen_upto(self@, t as int, vv)) by {
                    if seen@[vv as int] && !seen_upto(self@, t - 1, vv) {
                        assert(walk_vertex(self@, t - 1) == vv);
                    }
                    if seen_upto(self@, t as int, vv) && vv != walk_vertex(self@, t - 1) {
                        let u = choose|u: int| 1 <= u < t && walk_vertex(self@, u) == vv;
                        assert(1 <= u < t - 1 && walk_vertex(self@, u) == vv);
                    }
                }
                if !repeated {
                    assert forall|u1: int, u2: int|
                        1 <= u1 < u2 < t implies walk_vertex(self@, u1) != walk_vertex(
                        self@,
                        u2,
                    ) by {
                        if u2 == t - 1 && walk_vertex(self@, u1) == walk_vertex(self@, u2) {
                            assert(seen_upto(self@, t - 1, walk_vertex(self@, u2)));
                        }
                    }
                }
            }
        }
        // Mark the vertex the walk stopped on (the closing 0, or the last
        // vertex within the step budget).
        if seen[cur] {
            repeated = true;
        }
        proof {
            if seen@[cur as int] {
                let u = choose|u: int| 1 <= u < t && walk_vertex(self@, u) == cur;
                assert(1 <= u < t + 1 && walk_vertex(self@, u) == walk_vertex(self@, t as int));
            }
            if !repeated {
                assert forall|u1: int, u2: int|
                    1 <= u1 < u2 < t + 1 implies walk_vertex(self@, u1) != walk_vertex(
                    self@,
                    u2,
                ) by {
                    if u2 == t && walk_vertex(self@, u1) == walk_vertex(self@, u2) {
                        assert(seen_upto(self@, t as int, walk_vertex(self@, u2)));
                    }
                }
            }
        }
        seen.set(cur, true);
        let closed = cur == 0 && t == n && !repeated;
        // Every vertex must have been reached.
        let ghost tf: int = t + 1;
        let mut v2: usize = 0;
        while v2 < n
            invariant
                self.wf(),
                n == self@.len(),
                v2 <= n,
                seen@.len() == n,
                forall|vv: usize|
                    vv < n ==> ((#[trigger] seen@[vv as int]) <==> seen_upto(self@, tf, vv)),
                forall|u: usize| u < n ==> #[trigger] links_back_at(self@, u),
                forall|uu: usize| uu < v2 ==> #[trigger] seen@[uu as int],
                1 <= t <= n,
                tf == t + 1,
                cur == walk_vertex(self@, t as int),
                closed <==> (cur == 0 && t == n && !repeated),
                repeated <==> has_repeat(self@, tf),
                forall|u: int| 1 <= u < t ==> walk_vertex(self@, u) != 0,
                cur == 0 || t == n,
            decreases n - v2,
        {
            if !seen[v2] {
                proof {
                    if is_hamiltonian_seq(self@) {
                        assert(walk_visits(self@, v2));
                        let kx = choose|kx: int|
                            1 <= kx <= self@.len() && walk_vertex(self@, kx) == v2;
                        if t < n {
                            assert(walk_vertex(self@, t as int) == 0);
                            assert(walk_vertex(self@, n as int) == 0);
                        }
                        assert(seen_upto(self@, tf, v2));
                    }
                }
                return HamiltonianResult::NotVisited(v2);
            }
            v2 = v2 + 1;
        }
        if closed {
            proof {
                assert forall|vv: usize| vv < self@.len() implies #[trigger] walk_visits(
                    self@,
                    vv,
                ) by {
                    assert(seen@[vv as int]);
                    let u = choose|u: int| 1 <= u < tf && walk_vertex(self@, u) == vv;
                }
                assert(is_hamiltonian_seq(self@));
            }
            HamiltonianResult::Valid
        } else {
            proof {
                if is_hamiltonian_seq(self@) {
                    if t < n {
                        assert(walk_vertex(self@, t as int) == 0);
                        assert(walk_vertex(self@, n as int) == 0);
                    }
                    assert(cur == 0 && t == n);
                    assert(!has_repeat(self@, tf));
                    assert(false);
                }
            }
            HamiltonianResult::NotVisited(0)
        }
    }

    /// True exactly of a table satisfying all tour invariants.
    pub fn is_hamiltonian(&self) -> (r: bool)
        requires
            self.wf(),
        ensures
            r == is_hamiltonian_seq(self@),
    {
        let res = self.check_hamiltonian();
        match res {
            HamiltonianResult::Valid => true,
            _ => false,
        }
    }

    /// Overwrite the slot of `v0` that holds `v1` with `value`.
    fn twist_helper(&mut self, v0: usize, v1: usize, value: usize)
        requires
            old(self).wf(),
            v0 < old(self)@.len(),
            value < old(self)@.len(),
        ensures
            final(self)@ == crate::cycle::rewire(old(self)@, v0, v1, value),
            final(self).wf(),
    {
        let pair = self.0[v0];
        let np = if pair.0 == v1 {
            (value, pair.1)
        } else {
            (pair.0, value)
        };
        self.0.set(v0, np);
    }

    /// Remove the tour edges `a` and `b` and insert the crossed pair
    /// `(a.0, b.0)` and `(a.1, b.1)`: four slot rewrites. The edges must lie
    /// on the tour, ordered as the walk crosses them, and share no vertex;
    /// the result is again a Hamiltonian tour with the middle segment
    /// reversed.
    pub fn twist(&mut self, a: (usize, usize), b: (usize, usize))
        requires
            is_hamiltonian_seq(old(self)@),
            exists|i: int, j: int| twist_pair_at(old(self)@, i, j, a, b),
        ensures
            final(self).wf(),
            final(self)@.len() == old(self)@.len(),
            final(self)@ == twist_seq(old(self)@, a, b),
            is_hamiltonian_seq(final(self)@),
            forall|i: int, j: int|
                twist_pair_at(old(self)@, i, j, a, b) ==> order_matches(
                    final(self)@,
                    twisted_order(walk_order(old(self)@), i, j),
                ),
    {
        proof {
            let (i, j) = choose|i: int, j: int| twist_pair_at(old(self)@, i, j, a, b);
            let n = self@.len() as int;
            lemma_walk_in_bounds(self@, i);
            lemma_walk_in_bounds(self@, i + 1);
            lemma_walk_in_bounds(self@, j);
            lemma_walk_in_bounds(self@, j + 1);
            lemma_hamiltonian_implies_order(self@);
            let o = walk_order(self@);
            assert(a == (o[i], o[i + 1]));
            assert(b == (o[j], o[crate::cycle::wrap(n, j + 1)])) by {
                if j == n - 1 {
                    assert(walk_vertex(self@, n) == 0 && o[0] == walk_vertex(self@, 0));
                }
            }
            lemma_twist_order(self@, o, i, j);
            lemma_order_implies_hamiltonian(
                twist_seq(self@, a, b),
                twisted_order(o, i, j),
            );
            assert forall|i2: int, j2: int|
                twist_pair_at(old(self)@, i2, j2, a, b) implies order_matches(
                twist_seq(old(self)@, a, b),
                twisted_order(walk_order(old(self)@), i2, j2),
            ) by {
                assert(walk_vertex(self@, i2) == a.0 && walk_vertex(self@, i) == a.0);
                assert(walk_vertex(self@, j2) == b.0 && walk_vertex(self@, j) == b.0);
                assert(i2 == i && j2 == j) by {
                    if i2 != i {
                        assert(walk_vertex(self@, if i2 < i {
                            i2
                        } else {
                            i
                        }) != walk_vertex(self@, if i2 < i {
                            i
                        } else {
                            i2
                        })) by {
                            if i2 == 0 || i == 0 {
                                assert(walk_vertex(self@, n) == 0);
                            }
                        }
                    }
                    if j2 != j {
                        assert(walk_vertex(self@, if j2 < j {
                            j2
                        } else {
                            j
                        }) != walk_vertex(self@, if j2 < j {
                            j
                        } else {
                            j2
                        }));
                    }
                }
            }
        }
        self.twist_helper(a.0, a.1, b.0);
        self.twist_helper(a.1, a.0, b.1);
        self.twist_helper(b.0, b.1, a.0);
        self.twist_helper(b.1, b.0, a.1);
    }
}

} // verus!
