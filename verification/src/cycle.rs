//! Specification model of a tour held as per-vertex neighbour pairs.
//!
//! A tour over vertices `0 .. n` is a table `adj` where `adj[v]` holds the
//! two cycle neighbours of `v` in interchangeable slots. The model defines
//! the deterministic walk that starts at vertex `0`, always moving to the
//! neighbour that is not the vertex it came from, and characterises
//! Hamiltonian tables in two equivalent ways: by the walk itself, and by a
//! visiting order (a permutation) whose cyclic neighbours match the table.

use crate::matrix::SymmetricMatrix;
use vstd::prelude::*;

verus! {

/// One of the two slots of `p` holds `v`.
pub open spec fn pair_has(p: (usize, usize), v: usize) -> bool {
    p.0 == v || p.1 == v
}

/// The slots of `p` hold exactly `x` and `y`, in either arrangement.
pub open spec fn pair_is(p: (usize, usize), x: usize, y: usize) -> bool {
    (p.0 == x && p.1 == y) || (p.0 == y && p.1 == x)
}

/// Every slot of every entry names a vertex of the table.
pub open spec fn adj_in_bounds(adj: Seq<(usize, usize)>) -> bool {
    forall|v: int|
        0 <= v < adj.len() ==> (#[trigger] adj[v]).0 < adj.len() && adj[v].1 < adj.len()
}

/// The neighbour of the vertex with slots `p` that is not `prev`; when both
/// slots equal `prev` the walk goes back where it came from.
pub open spec fn step_from(p: (usize, usize), prev: usize) -> usize {
    if p.0 != prev {
        p.0
    } else {
        p.1
    }
}

/// Vertex reached after `k` steps of the walk that starts at vertex `0` and
/// never immediately returns to the vertex it came from. The first step
/// takes the first slot of `adj[0]`.
pub open spec fn walk_vertex(adj: Seq<(usize, usize)>, k: int) -> usize
    decreases k,
{
    if k <= 0 {
        0
    } else if k == 1 {
        adj[0].0
    } else {
        step_from(adj[walk_vertex(adj, k - 1) as int], walk_vertex(adj, k - 2))
    }
}

/// Both neighbours recorded for `v` record `v` back.
pub open spec fn links_back_at(adj: Seq<(usize, usize)>, v: usize) -> bool {
    &&& pair_has(adj[adj[v as int].0 as int], v)
    &&& pair_has(adj[adj[v as int].1 as int], v)
}

/// The whole table is symmetric: neighbourhood is mutual everywhere.
pub open spec fn all_link_back(adj: Seq<(usize, usize)>) -> bool {
    forall|v: usize| v < adj.len() ==> #[trigger] links_back_at(adj, v)
}

/// The walk reaches `v` within its first `adj.len()` steps.
pub open spec fn walk_visits(adj: Seq<(usize, usize)>, v: usize) -> bool {
    exists|k: int| 1 <= k <= adj.len() && walk_vertex(adj, k) == v
}

/// `v` occurs somewhere in `o`.
pub open spec fn order_has(o: Seq<usize>, v: usize) -> bool {
    exists|k: int| 0 <= k < o.len() && o[k] == v
}

/// The table describes a single cycle through all vertices: it is symmetric,
/// and the walk from `0` returns to `0` after exactly `n` steps, having
/// visited every vertex once.
pub open spec fn is_hamiltonian_seq(adj: Seq<(usize, usize)>) -> bool {
    let n = adj.len() as int;
    &&& 2 <= n
    &&& adj_in_bounds(adj)
    &&& all_link_back(adj)
    &&& walk_vertex(adj, n) == 0
    &&& forall|k1: int, k2: int|
        1 <= k1 < k2 <= n ==> walk_vertex(adj, k1) != walk_vertex(adj, k2)
    &&& forall|v: usize| v < adj.len() ==> #[trigger] walk_visits(adj, v)
}

/// Cyclic index reduction for `k` in `[-n, 2n)`.
pub open spec fn wrap(n: int, k: int) -> int {
    if k < 0 {
        k + n
    } else if k >= n {
        k - n
    } else {
        k
    }
}

/// `o` lists every vertex below `o.len()` exactly once, starting at `0`.
pub open spec fn valid_order(o: Seq<usize>) -> bool {
    &&& o.len() >= 2
    &&& o[0] == 0
    &&& forall|k: int| 0 <= k < o.len() ==> (#[trigger] o[k]) < o.len()
    &&& forall|k1: int, k2: int| 0 <= k1 < k2 < o.len() ==> o[k1] != o[k2]
    &&& forall|v: usize| v < o.len() ==> #[trigger] order_has(o, v)
}

/// The slots recorded for the vertex at position `k` of `o` are exactly its
/// cyclic neighbours in `o`.
pub open spec fn order_adj_ok(adj: Seq<(usize, usize)>, o: Seq<usize>, k: int) -> bool {
    let n = o.len() as int;
    pair_is(adj[o[k] as int], o[wrap(n, k - 1)], o[wrap(n, k + 1)])
}

/// `o` is a visiting order of the table `adj`: a permutation starting at `0`
/// whose cyclic neighbours match every entry of the table.
pub open spec fn order_matches(adj: Seq<(usize, usize)>, o: Seq<usize>) -> bool {
    &&& o.len() == adj.len()
    &&& valid_order(o)
    &&& forall|k: int| 0 <= k < o.len() ==> #[trigger] order_adj_ok(adj, o, k)
}

/// The same cyclic order, traversed in the opposite direction.
pub open spec fn rev_order(o: Seq<usize>) -> Seq<usize> {
    Seq::new(o.len(), |k: int| o[wrap(o.len() as int, o.len() - k)])
}

/// The order in which the walk from `0` first visits the vertices.
pub open spec fn walk_order(adj: Seq<(usize, usize)>) -> Seq<usize> {
    Seq::new(adj.len(), |k: int| walk_vertex(adj, k))
}

/// The walk never leaves the vertex range of the table.
pub proof fn lemma_walk_in_bounds(adj: Seq<(usize, usize)>, k: int)
    requires
        adj_in_bounds(adj),
        adj.len() >= 1,
    ensures
        walk_vertex(adj, k) < adj.len(),
    decreases k,
{
    if k <= 0 {
    } else if k == 1 {
        assert(adj[0].0 < adj.len());
    } else {
        lemma_walk_in_bounds(adj, k - 1);
        lemma_walk_in_bounds(adj, k - 2);
    }
}

/// A table that matches an order keeps every slot in range.
pub proof fn lemma_order_bounds(adj: Seq<(usize, usize)>, o: Seq<usize>)
    requires
        order_matches(adj, o),
    ensures
        adj_in_bounds(adj),
{
    let n = o.len() as int;
    assert forall|v: int| 0 <= v < adj.len() implies (#[trigger] adj[v]).0 < adj.len()
        && adj[v].1 < adj.len() by {
        let vv: usize = v as usize;
        assert(order_has(o, vv));
        let k = choose|k: int| 0 <= k < o.len() && o[k] == vv;
        assert(order_adj_ok(adj, o, k));
    }
}

/// When the first slot of `adj[0]` is the successor of `0` in `o`, the walk
/// follows `o` position by position.
proof fn lemma_order_walk_to(adj: Seq<(usize, usize)>, o: Seq<usize>, k: int)
    requires
        order_matches(adj, o),
        adj[0].0 == o[1],
        0 <= k <= o.len(),
    ensures
        walk_vertex(adj, k) == o[wrap(o.len() as int, k)],
    decreases k,
{
    let n = o.len() as int;
    if k <= 0 {
    } else if k == 1 {
    } else {
        lemma_order_walk_to(adj, o, k - 1);
        lemma_order_walk_to(adj, o, k - 2);
        let j = k - 1;
        assert(walk_vertex(adj, j) == o[j]);
        assert(walk_vertex(adj, k - 2) == o[j - 1]);
        assert(order_adj_ok(adj, o, j));
        assert(wrap(n, j - 1) == j - 1);
        assert(pair_is(adj[o[j] as int], o[j - 1], o[wrap(n, j + 1)]));
    }
}

/// Traversing an order in the opposite direction matches the same table.
pub proof fn lemma_rev_order_matches(adj: Seq<(usize, usize)>, o: Seq<usize>)
    requires
        order_matches(adj, o),
    ensures
        order_matches(adj, rev_order(o)),
        rev_order(o)[1] == o[o.len() - 1],
    decreases 0int,
{
    let n = o.len() as int;
    let r = rev_order(o);
    assert(r[0] == o[wrap(n, n)]);
    assert(r[1] == o[n - 1]);
    assert forall|k1: int, k2: int| 0 <= k1 < k2 < n implies r[k1] != r[k2] by {
        assert(wrap(n, n - k1) != wrap(n, n - k2));
    }
    assert forall|v: usize| v < r.len() implies #[trigger] order_has(r, v) by {
        assert(order_has(o, v));
        let k = choose|k: int| 0 <= k < o.len() && o[k] == v;
        let kr = wrap(n, n - k);
        assert(r[kr] == o[wrap(n, n - kr)]);
        assert(wrap(n, n - kr) == k);
        assert(r[kr] == v);
    }
    assert forall|k: int| 0 <= k < n implies #[trigger] order_adj_ok(adj, r, k) by {
        let m = wrap(n, n - k);
        assert(r[k] == o[m]);
        assert(order_adj_ok(adj, o, m));
        assert(r[wrap(n, k - 1)] == o[wrap(n, n - wrap(n, k - 1))]);
        assert(wrap(n, n - wrap(n, k - 1)) == wrap(n, m + 1));
        assert(r[wrap(n, k + 1)] == o[wrap(n, n - wrap(n, k + 1))]);
        assert(wrap(n, n - wrap(n, k + 1)) == wrap(n, m - 1));
        assert(pair_is(adj[o[m] as int], o[wrap(n, m - 1)], o[wrap(n, m + 1)]));
    }
}

/// A table that matches some visiting order is Hamiltonian.
pub proof fn lemma_order_implies_hamiltonian(adj: Seq<(usize, usize)>, o: Seq<usize>)
    requires
        order_matches(adj, o),
    ensures
        is_hamiltonian_seq(adj),
{
    let n = o.len() as int;
    lemma_order_bounds(adj, o);
    assert(order_adj_ok(adj, o, 0));
    let oo: Seq<usize> = if adj[0].0 == o[1] {
        o
    } else {
        lemma_rev_order_matches(adj, o);
        rev_order(o)
    };
    if adj[0].0 != o[1] {
        assert(adj[0].0 == o[wrap(n, -1)]);
        assert(oo[1] == o[n - 1]);
    }
    assert(order_matches(adj, oo) && adj[0].0 == oo[1]);
    assert forall|k: int| 0 <= k <= n implies walk_vertex(adj, k) == oo[wrap(n, k)] by {
        lemma_order_walk_to(adj, oo, k);
    }
    assert(walk_vertex(adj, n) == oo[0]);
    assert forall|k1: int, k2: int| 1 <= k1 < k2 <= n implies walk_vertex(adj, k1)
        != walk_vertex(adj, k2) by {
        assert(walk_vertex(adj, k1) == oo[wrap(n, k1)]);
        assert(walk_vertex(adj, k2) == oo[wrap(n, k2)]);
        assert(wrap(n, k1) != wrap(n, k2));
    }
    assert forall|v: usize| v < adj.len() implies #[trigger] walk_visits(adj, v) by {
        assert(order_has(oo, v));
        let k = choose|k: int| 0 <= k < oo.len() && oo[k] == v;
        if k == 0 {
            assert(walk_vertex(adj, n) == oo[0]);
            assert(1 <= n <= n && walk_vertex(adj, n) == v);
        } else {
            assert(walk_vertex(adj, k) == oo[wrap(n, k)]);
            assert(1 <= k <= n && walk_vertex(adj, k) == v);
        }
    }
    assert forall|v: usize| v < adj.len() implies #[trigger] links_back_at(adj, v) by {
        assert(order_has(oo, v));
        let k = choose|k: int| 0 <= k < oo.len() && oo[k] == v;
        assert(order_adj_ok(adj, oo, k));
        let prev = oo[wrap(n, k - 1)];
        let next = oo[wrap(n, k + 1)];
        assert(order_adj_ok(adj, oo, wrap(n, k - 1)));
        assert(wrap(n, wrap(n, k - 1) + 1) == k);
        assert(pair_has(adj[prev as int], v));
        assert(order_adj_ok(adj, oo, wrap(n, k + 1)));
        assert(wrap(n, wrap(n, k + 1) - 1) == k);
        assert(pair_has(adj[next as int], v));
    }
}

/// Every Hamiltonian table on three or more vertices matches the order in
/// which its own walk visits the vertices.
pub proof fn lemma_hamiltonian_implies_order(adj: Seq<(usize, usize)>)
    requires
        is_hamiltonian_seq(adj),
        adj.len() >= 3,
    ensures
        order_matches(adj, walk_order(adj)),
{
    let n = adj.len() as int;
    let o = walk_order(adj);
    assert forall|k: int| 0 <= k < n implies (#[trigger] o[k]) < adj.len() by {
        lemma_walk_in_bounds(adj, k);
    }
    assert forall|k1: int, k2: int| 0 <= k1 < k2 < n implies o[k1] != o[k2] by {
        if k1 == 0 {
            assert(walk_vertex(adj, k2) != walk_vertex(adj, n));
        }
    }
    assert forall|v: usize| v < o.len() implies #[trigger] order_has(o, v) by {
        assert(walk_visits(adj, v));
        let k = choose|k: int| 1 <= k <= adj.len() && walk_vertex(adj, k) == v;
        if k == n {
            assert(o[0] == v);
        } else {
            assert(o[k] == v);
        }
    }
    assert(valid_order(o));
    // The successor of each walk position sits in that vertex's slots.
    assert forall|k: int| 0 <= k < n implies pair_has(
        #[trigger] adj[o[k] as int],
        walk_vertex(adj, k + 1),
    ) by {
        if k == 0 {
        } else {
            assert(walk_vertex(adj, k + 1) == step_from(
                adj[walk_vertex(adj, k) as int],
                walk_vertex(adj, k - 1),
            ));
        }
    }
    assert forall|k: int| 0 <= k < n implies #[trigger] order_adj_ok(adj, o, k) by {
        let prev = o[wrap(n, k - 1)];
        let next = o[wrap(n, k + 1)];
        let v = o[k];
        // Successor direction: walk_vertex(adj, k + 1) is `next`.
        if k < n - 1 {
            assert(pair_has(adj[v as int], next));
        } else {
            assert(pair_has(adj[v as int], walk_vertex(adj, n)));
            assert(walk_vertex(adj, n) == 0 && next == o[0]);
        }
        // Predecessor direction: v sits in the slots of `prev`, and the
        // table links back, so `prev` sits in the slots of `v`.
        if k == 0 {
            assert(pair_has(adj[o[n - 1] as int], walk_vertex(adj, n)));
            assert(links_back_at(adj, o[n - 1]));
            assert(pair_has(adj[v as int], prev));
        } else {
            assert(pair_has(adj[o[k - 1] as int], walk_vertex(adj, k)));
            assert(links_back_at(adj, o[k - 1]));
            assert(pair_has(adj[v as int], prev));
        }
        assert(prev != next) by {
            assert(wrap(n, k - 1) != wrap(n, k + 1));
        }
    }
}

/// The `k`-th edge crossed by the walk, as the ordered pair
/// (vertex left, vertex entered).
pub open spec fn edge_at(adj: Seq<(usize, usize)>, k: int) -> (usize, usize) {
    (walk_vertex(adj, k), walk_vertex(adj, k + 1))
}

/// All `n` edges of the walk, in traversal order.
pub open spec fn edge_seq(adj: Seq<(usize, usize)>) -> Seq<(usize, usize)> {
    Seq::new(adj.len(), |k: int| edge_at(adj, k))
}

/// Sum of a sequence of integers.
pub open spec fn sum_seq(s: Seq<int>) -> int
    decreases s.len(),
{
    if s.len() == 0 {
        0
    } else {
        s[0] + sum_seq(s.subrange(1, s.len() as int))
    }
}

/// The sum of a one-element sequence is its element.
pub proof fn lemma_sum_seq_singleton(x: int)
    ensures
        sum_seq(seq![x]) == x,
{
    let s = seq![x];
    assert(s.subrange(1, 1) =~= Seq::<int>::empty());
    assert(sum_seq(s) == x + sum_seq(s.subrange(1, 1)));
}

/// Sums distribute over concatenation.
pub proof fn lemma_sum_seq_append(s1: Seq<int>, s2: Seq<int>)
    ensures
        sum_seq(s1 + s2) == sum_seq(s1) + sum_seq(s2),
    decreases s1.len(),
{
    if s1.len() == 0 {
        assert(s1 + s2 =~= s2);
    } else {
        assert((s1 + s2).subrange(1, (s1 + s2).len() as int) =~= s1.subrange(
            1,
            s1.len() as int,
        ) + s2);
        lemma_sum_seq_append(s1.subrange(1, s1.len() as int), s2);
    }
}

/// A sequence and its element-wise mirror have the same sum.
pub proof fn lemma_sum_seq_reversed(s1: Seq<int>, s2: Seq<int>)
    requires
        s1.len() == s2.len(),
        forall|t: int| 0 <= t < s1.len() ==> s2[t] == s1[s1.len() - 1 - t],
    ensures
        sum_seq(s2) == sum_seq(s1),
    decreases s1.len(),
{
    if s1.len() > 0 {
        let len = s1.len() as int;
        let s1h = s1.subrange(0, len - 1);
        let s2t = s2.subrange(1, len);
        assert(forall|t: int| 0 <= t < s1h.len() ==> s2t[t] == s1h[s1h.len() - 1 - t]);
        lemma_sum_seq_reversed(s1h, s2t);
        assert(s1 =~= s1h + seq![s1[len - 1]]);
        lemma_sum_seq_append(s1h, seq![s1[len - 1]]);
        lemma_sum_seq_singleton(s1[len - 1]);
        assert(sum_seq(s2) == s2[0] + sum_seq(s2t));
    }
}

/// The weights that `m` assigns to a list of ordered edges.
pub open spec fn cost_terms(m: SymmetricMatrix, es: Seq<(usize, usize)>) -> Seq<int> {
    Seq::new(es.len(), |k: int| m.at(es[k].0 as int, es[k].1 as int))
}

/// Total weight of the walk of `adj` under `m`.
pub open spec fn tour_cost(m: SymmetricMatrix, adj: Seq<(usize, usize)>) -> int {
    sum_seq(cost_terms(m, edge_seq(adj)))
}

/// The weights of the cyclic edges of an order, position by position.
pub open spec fn order_terms(m: SymmetricMatrix, o: Seq<usize>) -> Seq<int> {
    Seq::new(o.len(), |k: int| m.at(o[k] as int, o[wrap(o.len() as int, k + 1)] as int))
}

/// Total weight of the cyclic edges of an order under `m`.
pub open spec fn order_cost(m: SymmetricMatrix, o: Seq<usize>) -> int {
    sum_seq(order_terms(m, o))
}

/// Reversing an order keeps its total weight, by symmetry of the matrix.
proof fn lemma_order_cost_rev(m: SymmetricMatrix, o: Seq<usize>)
    requires
        m.wf(),
        m.n() == o.len(),
        valid_order(o),
    ensures
        order_cost(m, rev_order(o)) == order_cost(m, o),
{
    let n = o.len() as int;
    m.lemma_wf_facts();
    let r = rev_order(o);
    let to = order_terms(m, o);
    let tr = order_terms(m, r);
    assert forall|k: int| 0 <= k < n implies tr[k] == to[n - 1 - k] by {
        assert(r[k] == o[wrap(n, n - k)]);
        assert(r[wrap(n, k + 1)] == o[wrap(n, n - wrap(n, k + 1))]);
        assert(wrap(n, n - wrap(n, k + 1)) == n - 1 - k);
        let x = o[wrap(n, n - k)];
        let y = o[n - 1 - k];
        assert(x < o.len() && y < o.len());
        assert(m.at(x as int, y as int) == m.at(y as int, x as int));
        assert(to[n - 1 - k] == m.at(y as int, o[wrap(n, n - 1 - k + 1)] as int));
        assert(wrap(n, n - 1 - k + 1) == wrap(n, n - k));
    }
    lemma_sum_seq_reversed(to, tr);
}

/// The walk cost of a table equals the cyclic cost of any order it matches.
pub proof fn lemma_walk_cost(m: SymmetricMatrix, adj: Seq<(usize, usize)>, o: Seq<usize>)
    requires
        m.wf(),
        m.n() == adj.len(),
        order_matches(adj, o),
    ensures
        tour_cost(m, adj) == order_cost(m, o),
{
    let n = o.len() as int;
    let oo: Seq<usize> = if adj[0].0 == o[1] {
        o
    } else {
        lemma_rev_order_matches(adj, o);
        rev_order(o)
    };
    if adj[0].0 != o[1] {
        assert(order_adj_ok(adj, o, 0));
        assert(adj[0].0 == o[wrap(n, -1)]);
        assert(oo[1] == o[n - 1]);
    }
    assert(order_matches(adj, oo) && adj[0].0 == oo[1]);
    assert forall|k: int| 0 <= k <= n implies walk_vertex(adj, k) == oo[wrap(n, k)] by {
        lemma_order_walk_to(adj, oo, k);
    }
    assert(cost_terms(m, edge_seq(adj)) =~= order_terms(m, oo));
    if adj[0].0 != o[1] {
        lemma_order_cost_rev(m, o);
    }
}

/// Overwrite the slot of `p` that holds `target` with `value`; when neither
/// slot holds it, the second slot is overwritten.
pub open spec fn replace_in_pair(p: (usize, usize), target: usize, value: usize) -> (usize, usize) {
    if p.0 == target {
        (value, p.1)
    } else {
        (p.0, value)
    }
}

/// In the entry of `v0`, overwrite the slot holding `v1` with `value`.
pub open spec fn rewire(adj: Seq<(usize, usize)>, v0: usize, v1: usize, value: usize) -> Seq<
    (usize, usize),
> {
    adj.update(v0 as int, replace_in_pair(adj[v0 as int], v1, value))
}

/// The table after removing edges `a` and `b` and inserting the crossed
/// pair: four slot rewrites, in the order the tour performs them.
pub open spec fn twist_seq(
    adj: Seq<(usize, usize)>,
    a: (usize, usize),
    b: (usize, usize),
) -> Seq<(usize, usize)> {
    rewire(rewire(rewire(rewire(adj, a.0, a.1, b.0), a.1, a.0, b.1), b.0, b.1, a.0), b.1, b.0, a.1)
}

/// Positions `i` and `j` of a walk denote two removable edges: `j` follows
/// `i` by at least two positions and the pair is not the cyclically
/// adjacent one, so the four endpoints are pairwise distinct.
pub open spec fn twistable(n: int, i: int, j: int) -> bool {
    &&& 0 <= i
    &&& i + 2 <= j
    &&& j < n
    &&& !(i == 0 && j == n - 1)
}

/// Where position `k` of the twisted order reads from in the order before
/// the twist: the segment `(i, j]` is reversed in place.
pub open spec fn twisted_pos(i: int, j: int, k: int) -> int {
    if k <= i {
        k
    } else if k <= j {
        i + j + 1 - k
    } else {
        k
    }
}

/// The visiting order after the twist at positions `(i, j)`.
pub open spec fn twisted_order(o: Seq<usize>, i: int, j: int) -> Seq<usize> {
    Seq::new(o.len(), |k: int| o[twisted_pos(i, j, k)])
}

/// Replacing the `t` slot of a `{t, z}` pair yields a `{value, z}` pair.
proof fn lemma_replace(p: (usize, usize), t: usize, z: usize, value: usize)
    requires
        pair_is(p, t, z),
        t != z,
    ensures
        pair_is(replace_in_pair(p, t, value), value, z),
{
}

/// A twist of a table that matches `o` matches the order with the segment
/// `(i, j]` reversed.
pub proof fn lemma_twist_order(adj: Seq<(usize, usize)>, o: Seq<usize>, i: int, j: int)
    requires
        order_matches(adj, o),
        twistable(o.len() as int, i, j),
    ensures
        order_matches(
            twist_seq(adj, (o[i], o[i + 1]), (o[j], o[wrap(o.len() as int, j + 1)])),
            twisted_order(o, i, j),
        ),
{
    let n = o.len() as int;
    assert(n >= 4);
    let jn = wrap(n, j + 1);
    let a0 = o[i];
    let a1 = o[i + 1];
    let b0 = o[j];
    let b1 = o[jn];
    let w = twisted_order(o, i, j);
    lemma_order_bounds(adj, o);

    // The four endpoint positions, and hence the endpoints, are distinct.
    assert(i != i + 1 && i != j && i != jn && i + 1 != j && i + 1 != jn && j != jn);
    assert(a0 != a1 && a0 != b0 && a0 != b1 && a1 != b0 && a1 != b1 && b0 != b1);

    // Value of the rewired table at each vertex.
    let s1 = rewire(adj, a0, a1, b0);
    let s2 = rewire(s1, a1, a0, b1);
    let s3 = rewire(s2, b0, b1, a0);
    let a2 = rewire(s3, b1, b0, a1);
    assert(a2.len() == n);
    assert(a2[a0 as int] == replace_in_pair(adj[a0 as int], a1, b0));
    assert(a2[a1 as int] == replace_in_pair(adj[a1 as int], a0, b1));
    assert(a2[b0 as int] == replace_in_pair(adj[b0 as int], b1, a0));
    assert(a2[b1 as int] == replace_in_pair(adj[b1 as int], b0, a1));
    assert(forall|x: int|
        0 <= x < n && x != a0 && x != a1 && x != b0 && x != b1 ==> a2[x] == adj[x]);

    // The neighbourhoods of the four endpoints before the twist.
    assert(order_adj_ok(adj, o, i));
    assert(order_adj_ok(adj, o, i + 1));
    assert(order_adj_ok(adj, o, j));
    assert(order_adj_ok(adj, o, jn));
    assert(wrap(n, i + 1) == i + 1 && wrap(n, (i + 1) - 1) == i && wrap(n, (i + 1) + 1) == i + 2);
    assert(wrap(n, j - 1) == j - 1);
    assert(wrap(n, jn - 1) == j && wrap(n, jn + 1) == wrap(n, j + 2));
    assert(pair_is(adj[a0 as int], o[wrap(n, i - 1)], a1));
    assert(pair_is(adj[a1 as int], a0, o[i + 2]));
    assert(pair_is(adj[b0 as int], o[j - 1], b1));
    assert(pair_is(adj[b1 as int], b0, o[wrap(n, j + 2)]));

    // Rewired neighbourhoods of the four endpoints.
    assert(o[wrap(n, i - 1)] != a1 && o[i + 2] != a0 && o[j - 1] != b1 && o[wrap(n, j + 2)] != b0);
    lemma_replace(adj[a0 as int], a1, o[wrap(n, i - 1)], b0);
    lemma_replace(adj[a1 as int], a0, o[i + 2], b1);
    lemma_replace(adj[b0 as int], b1, o[j - 1], a0);
    lemma_replace(adj[b1 as int], b0, o[wrap(n, j + 2)], a1);
    assert(pair_is(a2[a0 as int], b0, o[wrap(n, i - 1)]));
    assert(pair_is(a2[a1 as int], b1, o[i + 2]));
    assert(pair_is(a2[b0 as int], a0, o[j - 1]));
    assert(pair_is(a2[b1 as int], a1, o[wrap(n, j + 2)]));

    // The twisted order is a permutation.
    assert(forall|k: int| 0 <= k < n ==> 0 <= #[trigger] twisted_pos(i, j, k) < n);
    assert(forall|k: int| 0 <= k < n ==> twisted_pos(i, j, #[trigger] twisted_pos(i, j, k)) == k);
    assert(w[0] == 0);
    assert forall|k1: int, k2: int| 0 <= k1 < k2 < n implies w[k1] != w[k2] by {
        assert(twisted_pos(i, j, twisted_pos(i, j, k1)) == k1);
        assert(twisted_pos(i, j, twisted_pos(i, j, k2)) == k2);
    }
    assert forall|v: usize| v < w.len() implies #[trigger] order_has(w, v) by {
        assert(order_has(o, v));
        let k = choose|k: int| 0 <= k < o.len() && o[k] == v;
        let kw = twisted_pos(i, j, k);
        assert(w[kw] == o[twisted_pos(i, j, kw)]);
        assert(twisted_pos(i, j, kw) == k);
    }
    assert(valid_order(w));

    // Each position of the twisted order sees its cyclic neighbours.
    assert forall|k: int| 0 <= k < n implies #[trigger] order_adj_ok(a2, w, k) by {
        let km = wrap(n, k - 1);
        let kp = wrap(n, k + 1);
        if k == i {
            assert(w[k] == a0);
            assert(w[kp] == o[twisted_pos(i, j, i + 1)]);
            assert(twisted_pos(i, j, i + 1) == j);
            if i >= 1 {
                assert(w[km] == o[km]);
            } else {
                assert(km == n - 1 && j != n - 1);
                assert(w[km] == o[km]);
            }
            assert(pair_is(a2[w[k] as int], w[km], w[kp]));
        } else if k == i + 1 {
            assert(w[k] == b0);
            assert(w[km] == a0);
            assert(twisted_pos(i, j, i + 2) == j - 1);
            assert(kp == i + 2 && w[kp] == o[j - 1]);
            assert(pair_is(a2[w[k] as int], w[km], w[kp]));
        } else if k == j {
            assert(twisted_pos(i, j, j) == i + 1);
            assert(w[k] == a1);
            assert(twisted_pos(i, j, j - 1) == i + 2);
            assert(km == j - 1 && w[km] == o[i + 2]);
            assert(kp == jn && w[kp] == b1);
            assert(pair_is(a2[w[k] as int], w[km], w[kp]));
        } else if k == jn {
            assert(w[k] == b1);
            assert(km == j && w[km] == a1);
            assert(w[kp] == o[wrap(n, j + 2)]) by {
                if jn == j + 1 {
                    if j + 2 <= n - 1 {
                        assert(kp == j + 2 && twisted_pos(i, j, j + 2) == j + 2);
                    } else {
                        assert(kp == 0 && wrap(n, j + 2) == 0);
                    }
                } else {
                    assert(jn == 0 && j == n - 1 && i >= 1);
                    assert(kp == 1 && twisted_pos(i, j, 1) == 1 && wrap(n, j + 2) == 1);
                }
            }
            assert(pair_is(a2[w[k] as int], w[km], w[kp]));
        } else {
            let mk = twisted_pos(i, j, k);
            assert(w[k] == o[mk]);
            assert(o[mk] != a0 && o[mk] != a1 && o[mk] != b0 && o[mk] != b1) by {
                assert(twisted_pos(i, j, twisted_pos(i, j, k)) == k);
                assert(twisted_pos(i, j, i) == i && twisted_pos(i, j, i + 1) == j
                    && twisted_pos(i, j, j) == i + 1 && twisted_pos(i, j, jn) == jn);
            }
            assert(a2[o[mk] as int] == adj[o[mk] as int]);
            assert(order_adj_ok(adj, o, mk));
            if k < i {
                assert(mk == k);
                assert(w[kp] == o[kp]) by {
                    assert(kp == k + 1 && k + 1 <= i);
                }
                assert(w[km] == o[km]) by {
                    if k >= 1 {
                        assert(km == k - 1 && k - 1 < i);
                    } else {
                        assert(km == n - 1);
                        assert(jn != 0 ==> j < n - 1);
                        assert(j != n - 1);
                    }
                }
                assert(pair_is(a2[w[k] as int], w[km], w[kp]));
            } else if k < j {
                assert(i + 1 < k);
                assert(mk == i + j + 1 - k && i + 1 < mk < j);
                assert(km == k - 1 && kp == k + 1);
                assert(w[km] == o[mk + 1] && w[kp] == o[mk - 1]);
                assert(wrap(n, mk - 1) == mk - 1 && wrap(n, mk + 1) == mk + 1);
                assert(pair_is(a2[w[k] as int], w[km], w[kp]));
            } else {
                assert(k > j && k != jn && jn == j + 1 && k >= j + 2);
                assert(mk == k);
                assert(km == k - 1 && w[km] == o[km]);
                assert(w[kp] == o[kp]) by {
                    if k + 1 <= n - 1 {
                        assert(kp == k + 1 && twisted_pos(i, j, k + 1) == k + 1);
                    } else {
                        assert(kp == 0);
                    }
                }
                assert(pair_is(a2[w[k] as int], w[km], w[kp]));
            }
        }
    }
    assert(order_matches(a2, w));
    assert(a2 == twist_seq(adj, (o[i], o[i + 1]), (o[j], o[wrap(n, j + 1)])));
}

/// Sum of a sequence split around two marked positions.
proof fn lemma_sum_split5(s: Seq<int>, i: int, j: int)
    requires
        0 <= i < j < s.len(),
    ensures
        sum_seq(s) == sum_seq(s.subrange(0, i)) + s[i] + sum_seq(s.subrange(i + 1, j)) + s[j]
            + sum_seq(s.subrange(j + 1, s.len() as int)),
{
    let len = s.len() as int;
    let p1 = s.subrange(0, i);
    let e1 = seq![s[i]];
    let mid = s.subrange(i + 1, j);
    let e2 = seq![s[j]];
    let p2 = s.subrange(j + 1, len);
    assert(s =~= p1 + e1 + mid + e2 + p2);
    lemma_sum_seq_append(p1 + e1 + mid + e2, p2);
    lemma_sum_seq_append(p1 + e1 + mid, e2);
    lemma_sum_seq_append(p1 + e1, mid);
    lemma_sum_seq_append(p1, e1);
    lemma_sum_seq_singleton(s[i]);
    lemma_sum_seq_singleton(s[j]);
}

/// Reversing the segment `(i, j]` of an order removes the weights of the
/// edges at positions `i` and `j` and adds the weights of the two crossed
/// replacement edges; every other edge keeps its weight.
pub proof fn lemma_twist_cost(m: SymmetricMatrix, o: Seq<usize>, i: int, j: int)
    requires
        m.wf(),
        m.n() == o.len(),
        valid_order(o),
        twistable(o.len() as int, i, j),
    ensures
        order_cost(m, twisted_order(o, i, j)) == order_cost(m, o) - m.at(
            o[i] as int,
            o[i + 1] as int,
        ) - m.at(o[j] as int, o[wrap(o.len() as int, j + 1)] as int) + m.at(
            o[i] as int,
            o[j] as int,
        ) + m.at(o[i + 1] as int, o[wrap(o.len() as int, j + 1)] as int),
{
    let n = o.len() as int;
    assert(n >= 4);
    m.lemma_wf_facts();
    let w = twisted_order(o, i, j);
    let to = order_terms(m, o);
    let tw = order_terms(m, w);
    assert(forall|k: int| 0 <= k < n ==> 0 <= #[trigger] twisted_pos(i, j, k) < n);

    // Shared prefix.
    assert forall|k: int| 0 <= k < i implies tw[k] == to[k] by {
        assert(w[k] == o[k] && twisted_pos(i, j, k + 1) == k + 1);
        assert(wrap(n, k + 1) == k + 1);
    }
    // The first replacement edge.
    assert(tw[i] == m.at(o[i] as int, o[j] as int)) by {
        assert(w[i] == o[i]);
        assert(wrap(n, i + 1) == i + 1 && twisted_pos(i, j, i + 1) == j);
    }
    // The reversed segment: the same edges, traversed the other way.
    assert forall|k: int| i + 1 <= k < j implies tw[k] == to[i + j - k] by {
        let mk = i + j + 1 - k;
        assert(w[k] == o[mk]);
        assert(wrap(n, k + 1) == k + 1);
        assert(w[k + 1] == o[twisted_pos(i, j, k + 1)]);
        assert(twisted_pos(i, j, k + 1) == mk - 1);
        assert(o[mk] < o.len() && o[mk - 1] < o.len());
        assert(m.at(o[mk] as int, o[mk - 1] as int) == m.at(o[mk - 1] as int, o[mk] as int));
        assert(wrap(n, (i + j - k) + 1) == mk);
        assert(to[i + j - k] == m.at(o[mk - 1] as int, o[mk] as int));
    }
    // The second replacement edge.
    assert(tw[j] == m.at(o[i + 1] as int, o[wrap(n, j + 1)] as int)) by {
        assert(w[j] == o[twisted_pos(i, j, j)] && twisted_pos(i, j, j) == i + 1);
        let kp = wrap(n, j + 1);
        assert(w[kp] == o[twisted_pos(i, j, kp)]);
        assert(twisted_pos(i, j, kp) == kp) by {
            if kp == 0 {
                assert(i >= 1);
            } else {
                assert(kp == j + 1);
            }
        }
    }
    // Shared suffix.
    assert forall|k: int| j < k < n implies tw[k] == to[k] by {
        assert(twisted_pos(i, j, k) == k && w[k] == o[k]);
        let kp = wrap(n, k + 1);
        assert(w[kp] == o[twisted_pos(i, j, kp)]);
        assert(twisted_pos(i, j, kp) == kp) by {
            if kp == 0 {
                if i == 0 {
                    assert(j != n - 1 && k > j);
                    assert(k < n);
                }
            }
        }
    }

    lemma_sum_split5(to, i, j);
    lemma_sum_split5(tw, i, j);
    assert(tw.subrange(0, i) =~= to.subrange(0, i));
    assert(tw.subrange(j + 1, n) =~= to.subrange(j + 1, n));
    let mo = to.subrange(i + 1, j);
    let mw = tw.subrange(i + 1, j);
    assert forall|t: int| 0 <= t < mo.len() implies mw[t] == mo[mo.len() - 1 - t] by {
        assert(mw[t] == tw[i + 1 + t]);
        assert(tw[i + 1 + t] == to[i + j - (i + 1 + t)]);
        assert(mo[mo.len() - 1 - t] == to[i + 1 + (j - i - 2 - t)]);
    }
    lemma_sum_seq_reversed(mo, mw);
}

/// Extending a prefix by one element adds that element to the prefix sum.
pub proof fn lemma_sum_prefix_step(s: Seq<int>, t: int)
    requires
        0 <= t < s.len(),
    ensures
        sum_seq(s.subrange(0, t + 1)) == sum_seq(s.subrange(0, t)) + s[t],
{
    assert(s.subrange(0, t + 1) =~= s.subrange(0, t) + seq![s[t]]);
    lemma_sum_seq_append(s.subrange(0, t), seq![s[t]]);
    lemma_sum_seq_singleton(s[t]);
}

/// A sum of elements drawn from `[0, b]` lies in `[0, b * len]`.
pub proof fn lemma_sum_seq_bounds(s: Seq<int>, b: int)
    requires
        forall|t: int| 0 <= t < s.len() ==> 0 <= #[trigger] s[t] <= b,
    ensures
        0 <= sum_seq(s) <= b * s.len(),
    decreases s.len(),
{
    if s.len() == 0 {
    } else {
        lemma_sum_seq_bounds(s.subrange(1, s.len() as int), b);
        assert(b * (s.len() - 1) + b == b * s.len()) by (nonlinear_arith);
    }
}

/// A walk cost over cells bounded by `b` is non-negative and at most
/// `b` per edge.
pub proof fn lemma_tour_cost_bounds(m: SymmetricMatrix, adj: Seq<(usize, usize)>, b: int)
    requires
        m.wf(),
        m.n() == adj.len(),
        adj.len() >= 1,
        adj_in_bounds(adj),
        forall|i: int, j: int|
            0 <= i < m.n() && 0 <= j < m.n() ==> #[trigger] m.at(i, j) <= b,
    ensures
        0 <= tour_cost(m, adj) <= b * adj.len(),
{
    m.lemma_wf_facts();
    let ts = cost_terms(m, edge_seq(adj));
    assert forall|t: int| 0 <= t < ts.len() implies 0 <= #[trigger] ts[t] <= b by {
        lemma_walk_in_bounds(adj, t);
        lemma_walk_in_bounds(adj, t + 1);
    }
    lemma_sum_seq_bounds(ts, b);
}

/// Positions `i` and `j` of the walk carry the ordered edges `a` and `b`,
/// and the pair is twistable.
pub open spec fn twist_pair_at(
    adj: Seq<(usize, usize)>,
    i: int,
    j: int,
    a: (usize, usize),
    b: (usize, usize),
) -> bool {
    &&& twistable(adj.len() as int, i, j)
    &&& a == edge_at(adj, i)
    &&& b == edge_at(adj, j)
}

/// Removing the walk edges at positions `i` and `j` of a Hamiltonian tour
/// and inserting the crossed pair yields a Hamiltonian tour again, and
/// changes the tour cost by exactly the weights of the four edges involved.
pub proof fn lemma_twist_hamiltonian_cost(
    m: SymmetricMatrix,
    adj: Seq<(usize, usize)>,
    i: int,
    j: int,
)
    requires
        m.wf(),
        m.n() == adj.len(),
        is_hamiltonian_seq(adj),
        twistable(adj.len() as int, i, j),
    ensures
        is_hamiltonian_seq(twist_seq(adj, edge_at(adj, i), edge_at(adj, j))),
        twist_seq(adj, edge_at(adj, i), edge_at(adj, j)).len() == adj.len(),
        tour_cost(m, twist_seq(adj, edge_at(adj, i), edge_at(adj, j))) == tour_cost(m, adj)
            - m.at(walk_vertex(adj, i) as int, walk_vertex(adj, i + 1) as int) - m.at(
            walk_vertex(adj, j) as int,
            walk_vertex(adj, j + 1) as int,
        ) + m.at(walk_vertex(adj, i) as int, walk_vertex(adj, j) as int) + m.at(
            walk_vertex(adj, i + 1) as int,
            walk_vertex(adj, j + 1) as int,
        ),
{
    let n = adj.len() as int;
    lemma_hamiltonian_implies_order(adj);
    let o = walk_order(adj);
    assert(edge_at(adj, i) == (o[i], o[i + 1]));
    assert(edge_at(adj, j) == (o[j], o[wrap(n, j + 1)])) by {
        if j == n - 1 {
            assert(walk_vertex(adj, n) == 0 && o[0] == walk_vertex(adj, 0));
        }
    }
    let a2 = twist_seq(adj, edge_at(adj, i), edge_at(adj, j));
    let w = twisted_order(o, i, j);
    lemma_twist_order(adj, o, i, j);
    lemma_order_implies_hamiltonian(a2, w);
    lemma_walk_cost(m, adj, o);
    lemma_walk_cost(m, a2, w);
    lemma_twist_cost(m, o, i, j);
}

/// Round trip between the two traversals: each edge of the walk is the pair
/// of consecutive walk vertices, and the edge list closes the cycle back at
/// the start.
pub proof fn lemma_edges_close_walk(adj: Seq<(usize, usize)>)
    requires
        is_hamiltonian_seq(adj),
    ensures
        forall|k: int|
            0 <= k < adj.len() ==> #[trigger] edge_seq(adj)[k] == (
                walk_vertex(adj, k),
                walk_vertex(adj, k + 1),
            ),
        edge_seq(adj)[0].0 == walk_vertex(adj, adj.len() as int),
{
}

/// A sum of non-negative elements is non-negative.
pub proof fn lemma_sum_seq_nonneg(s: Seq<int>)
    requires
        forall|t: int| 0 <= t < s.len() ==> 0 <= #[trigger] s[t],
    ensures
        0 <= sum_seq(s),
    decreases s.len(),
{
    if s.len() > 0 {
        lemma_sum_seq_nonneg(s.subrange(1, s.len() as int));
    }
}

/// Sum of a sequence split at one position.
pub proof fn lemma_sum_split(s: Seq<int>, t: int)
    requires
        0 <= t <= s.len(),
    ensures
        sum_seq(s) == sum_seq(s.subrange(0, t)) + sum_seq(s.subrange(t, s.len() as int)),
{
    assert(s =~= s.subrange(0, t) + s.subrange(t, s.len() as int));
    lemma_sum_seq_append(s.subrange(0, t), s.subrange(t, s.len() as int));
}

/// The order that visits the vertices by increasing index.
pub open spec fn identity_order(n: int) -> Seq<usize> {
    Seq::new(n as nat, |k: int| k as usize)
}

/// The pair `{x, y}` with its smaller element first.
pub open spec fn spair(x: usize, y: usize) -> (usize, usize) {
    if x <= y {
        (x, y)
    } else {
        (y, x)
    }
}

} // verus!
