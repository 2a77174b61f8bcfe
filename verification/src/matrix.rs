//! Dense symmetric matrix of non-negative 32-bit edge weights.
//!
//! The matrix is stored as one flat allocation of `size * size` cells.
//! Two invariants hold at all times: the table is symmetric
//! (`M[i][j] == M[j][i]`) and the diagonal is zero (`M[i][i] == 0`).

use crate::cycle::edge_at;
use crate::cycle::edge_seq;
use crate::cycle::cost_terms;
use crate::cycle::identity_order;
use crate::cycle::lemma_order_implies_hamiltonian;
use crate::cycle::lemma_sum_prefix_step;
use crate::cycle::lemma_sum_seq_nonneg;
use crate::cycle::lemma_sum_split;
use crate::cycle::lemma_tour_cost_bounds;
use crate::cycle::lemma_walk_in_bounds;
use crate::cycle::is_hamiltonian_seq;
use crate::cycle::order_adj_ok;
use crate::cycle::order_has;
use crate::cycle::pair_is;
use crate::cycle::spair;
use crate::cycle::valid_order;
use crate::cycle::order_matches;
use crate::cycle::tour_cost;
use crate::cycle::wrap;
use crate::path::Path;
use crate::route::Route;
use vstd::prelude::*;

verus! {

/// Dense `N x N` table of non-negative integer weights, symmetric with a
/// zero diagonal. Weights between distinct vertices are written through
/// `set` and `inc`, which update both mirrored cells.
pub struct SymmetricMatrix {
    size: usize,
    data: Vec<u32>,
}

impl SymmetricMatrix {
    /// Number of vertices the matrix spans.
    pub closed spec fn n(&self) -> int {
        self.size as int
    }

    /// The weight stored for the ordered index pair `(i, j)`.
    pub closed spec fn at(&self, i: int, j: int) -> int {
        self.data@[i * self.size + j] as int
    }

    /// Well-formedness: a full backing allocation, symmetry, zero diagonal.
    pub closed spec fn wf(&self) -> bool {
        &&& self.size * self.size <= usize::MAX
        &&& self.data@.len() == self.size * self.size
        &&& forall|i: int, j: int|
            0 <= i < self.n() && 0 <= j < self.n() ==> #[trigger] self.at(i, j) == self.at(j, i)
        &&& forall|i: int| 0 <= i < self.n() ==> #[trigger] self.at(i, i) == 0
    }

    /// What well-formedness gives about the cells: symmetry, a zero
    /// diagonal, and the `u32` value range.
    pub proof fn lemma_wf_facts(&self)
        requires
            self.wf(),
        ensures
            forall|i: int, j: int|
                0 <= i < self.n() && 0 <= j < self.n() ==> #[trigger] self.at(i, j) == self.at(
                    j,
                    i,
                ),
            forall|i: int| 0 <= i < self.n() ==> #[trigger] self.at(i, i) == 0,
            forall|i: int, j: int|
                0 <= i < self.n() && 0 <= j < self.n() ==> 0 <= #[trigger] self.at(i, j)
                    <= u32::MAX,
            self.n() * self.n() <= usize::MAX,
    {
        assert forall|i: int, j: int| 0 <= i < self.n() && 0 <= j < self.n() implies 0
            <= #[trigger] self.at(i, j) <= u32::MAX by {
            self.lemma_cell_range(i, j);
        }
    }

    /// Every in-range cell holds a `u32`, hence lies in `[0, u32::MAX]`.
    pub proof fn lemma_cell_range(&self, i: int, j: int)
        requires
            self.wf(),
            0 <= i < self.n(),
            0 <= j < self.n(),
        ensures
            0 <= self.at(i, j) <= u32::MAX,
    {
        lemma_flat_index(self.size as int, i, j);
    }

    /// All-zero matrix over `size` vertices.
    pub fn from_size(size: usize) -> (r: SymmetricMatrix)
        requires
            size * size <= usize::MAX,
        ensures
            r.wf(),
            r.n() == size,
            forall|i: int, j: int| 0 <= i < size && 0 <= j < size ==> #[trigger] r.at(i, j) == 0,
    {
        proof {
            assert(size * size >= 0) by (nonlinear_arith);
        }
        let mut data: Vec<u32> = Vec::new();
        let total: usize = size * size;
        let mut k: usize = 0;
        while k < total
            invariant
                data@.len() == k,
                k <= total,
                forall|t: int| 0 <= t < k ==> data@[t] == 0u32,
            decreases total - k,
        {
            data.push(0u32);
            k = k + 1;
        }
        let r = SymmetricMatrix { size, data };
        proof {
            assert forall|i: int, j: int| 0 <= i < size && 0 <= j < size implies #[trigger] r.at(
                i,
                j,
            ) == 0 by {
                lemma_flat_index(size as int, i, j);
            }
        }
        r
    }

    /// Number of vertices.
    pub fn size(&self) -> (r: usize)
        ensures
            r == self.n(),
    {
        self.size
    }

    /// Read the weight of the index pair `(i, j)`.
    pub fn get(&self, i: usize, j: usize) -> (r: u32)
        requires
            self.wf(),
            i < self.n(),
            j < self.n(),
        ensures
            r == self.at(i as int, j as int),
    {
        proof {
            lemma_flat_index(self.size as int, i as int, j as int);
        }
        let idx: usize = i * self.size + j;
        self.data[idx]
    }

    /// Write `value` into both mirrored cells of the distinct pair `(i, j)`.
    pub fn set(&mut self, i: usize, j: usize, value: u32)
        requires
            old(self).wf(),
            i < old(self).n(),
            j < old(self).n(),
            i != j,
        ensures
            final(self).wf(),
            final(self).n() == old(self).n(),
            final(self).at(i as int, j as int) == value,
            final(self).at(j as int, i as int) == value,
            forall|x: int, y: int|
                0 <= x < old(self).n() && 0 <= y < old(self).n() && !((x == i && y == j) || (x == j
                    && y == i)) ==> #[trigger] final(self).at(x, y) == old(self).at(x, y),
    {
        proof {
            lemma_flat_index(self.size as int, i as int, j as int);
            lemma_flat_index(self.size as int, j as int, i as int);
        }
        let ia: usize = i * self.size + j;
        self.data.set(ia, value);
        let ib: usize = j * self.size + i;
        self.data.set(ib, value);
        proof {
            assert forall|x: int, y: int| 0 <= x < self.n() && 0 <= y < self.n() implies {
                &&& !((x == i && y == j) || (x == j && y == i)) ==> #[trigger] final(self).at(x, y)
                    == old(self).at(x, y)
                &&& ((x == i && y == j) || (x == j && y == i)) ==> final(self).at(x, y) == value
            } by {
                lemma_flat_index(self.size as int, x, y);
                lemma_flat_index_distinct(self.size as int, x, y, i as int, j as int);
                lemma_flat_index_distinct(self.size as int, x, y, j as int, i as int);
            }
        }
    }

    /// Add `delta` to both mirrored cells of the distinct pair `(i, j)` and
    /// return the new value.
    pub fn inc(&mut self, i: usize, j: usize, delta: u32) -> (r: u32)
        requires
            old(self).wf(),
            i < old(self).n(),
            j < old(self).n(),
            i != j,
            old(self).at(i as int, j as int) + delta <= u32::MAX,
        ensures
            final(self).wf(),
            final(self).n() == old(self).n(),
            r == old(self).at(i as int, j as int) + delta,
            final(self).at(i as int, j as int) == r,
            final(self).at(j as int, i as int) == r,
            forall|x: int, y: int|
                0 <= x < old(self).n() && 0 <= y < old(self).n() && !((x == i && y == j) || (x == j
                    && y == i)) ==> #[trigger] final(self).at(x, y) == old(self).at(x, y),
    {
        let value: u32 = self.get(i, j) + delta;
        self.set(i, j, value);
        value
    }
}

/// Square of an integer.
pub open spec fn sq(x: int) -> int {
    x * x
}

/// The integer square root, rounded toward zero: the greatest `r >= 0` with
/// `r * r <= n`.
pub open spec fn floor_sqrt(n: int) -> int
    decreases n,
{
    if n <= 0 {
        0
    } else {
        let p = floor_sqrt(n - 1);
        if (p + 1) * (p + 1) <= n {
            p + 1
        } else {
            p
        }
    }
}

/// `floor_sqrt` is the unique non-negative root bracket.
pub proof fn lemma_floor_sqrt(n: int)
    requires
        0 <= n,
    ensures
        0 <= floor_sqrt(n),
        floor_sqrt(n) * floor_sqrt(n) <= n,
        n < (floor_sqrt(n) + 1) * (floor_sqrt(n) + 1),
    decreases n,
{
    if n > 0 {
        lemma_floor_sqrt(n - 1);
        let p = floor_sqrt(n - 1);
        if (p + 1) * (p + 1) <= n {
            assert(floor_sqrt(n) == p + 1);
            assert(n < (p + 2) * (p + 2)) by (nonlinear_arith)
                requires
                    0 <= p,
                    n - 1 < (p + 1) * (p + 1),
            ;
        } else {
            assert(floor_sqrt(n) == p);
            assert(n < (p + 1) * (p + 1));
        }
    }
}

/// Any `r` with `r * r <= n < (r + 1) * (r + 1)` is `floor_sqrt(n)`.
pub proof fn lemma_floor_sqrt_unique(n: int, r: int)
    requires
        0 <= r,
        r * r <= n,
        n < (r + 1) * (r + 1),
    ensures
        r == floor_sqrt(n),
{
    lemma_floor_sqrt(n);
    let f = floor_sqrt(n);
    assert(!(r < f) && !(f < r)) by (nonlinear_arith)
        requires
            0 <= r,
            0 <= f,
            r * r <= n,
            n < (r + 1) * (r + 1),
            f * f <= n,
            n < (f + 1) * (f + 1),
    ;
}

/// Rounded-down Euclidean distance between two integer points.
pub open spec fn euc_dist(p: (i32, i32), q: (i32, i32)) -> int {
    floor_sqrt(sq(p.0 - q.0) + sq(p.1 - q.1))
}

/// The distance does not depend on the order of its endpoints.
pub proof fn lemma_euc_dist_sym(p: (i32, i32), q: (i32, i32))
    ensures
        euc_dist(p, q) == euc_dist(q, p),
{
    assert(sq(p.0 - q.0) == sq(q.0 - p.0) && sq(p.1 - q.1) == sq(q.1 - p.1)) by (nonlinear_arith);
}

/// Within the supported coordinate window no distance exceeds 46340, the
/// integer square root of the largest signed 32-bit value.
pub proof fn lemma_euc_dist_bound(p: (i32, i32), q: (i32, i32))
    requires
        sq(p.0 - q.0) + sq(p.1 - q.1) <= i32::MAX,
    ensures
        0 <= euc_dist(p, q) <= 46340,
{
    let s = sq(p.0 - q.0) + sq(p.1 - q.1);
    assert(sq(p.0 - q.0) >= 0 && sq(p.1 - q.1) >= 0) by (nonlinear_arith);
    lemma_floor_sqrt(s);
    assert(46341 * 46341 > i32::MAX);
    assert(!(floor_sqrt(s) > 46340)) by (nonlinear_arith)
        requires
            floor_sqrt(s) * floor_sqrt(s) <= s,
            s <= i32::MAX,
            floor_sqrt(s) >= 0,
            46341 * 46341 > i32::MAX,
    ;
}

/// Every pair of points in the list is close enough for the squared
/// distance to stay within signed 32-bit arithmetic.
pub open spec fn coords_in_range(cs: Seq<(i32, i32)>) -> bool {
    forall|k: int, l: int|
        0 <= k < cs.len() && 0 <= l < cs.len() ==> #[trigger] sq(cs[k].0 - cs[l].0) + sq(
            cs[k].1 - cs[l].1,
        ) <= i32::MAX
}

/// Integer square root by bisection, rounding toward zero.
fn isqrt(n: u32) -> (r: u32)
    requires
        n <= i32::MAX,
    ensures
        r == floor_sqrt(n as int),
{
    let mut lo: u64 = 0;
    let mut hi: u64 = 46340;
    proof {
        assert(46341 * 46341 > i32::MAX);
    }
    while lo < hi
        invariant
            0 <= lo <= hi <= 46340,
            lo * lo <= n,
            n < (hi + 1) * (hi + 1),
        decreases hi - lo,
    {
        let mid: u64 = (lo + hi + 1) / 2;
        proof {
            assert(mid * mid <= 46340 * 46340) by (nonlinear_arith)
                requires
                    0 <= mid <= 46340,
            ;
        }
        if mid * mid <= n as u64 {
            lo = mid;
        } else {
            hi = mid - 1;
        }
    }
    proof {
        lemma_floor_sqrt_unique(n as int, lo as int);
    }
    lo as u32
}

impl SymmetricMatrix {
    /// Rounded-down Euclidean distance between two points, computed in
    /// signed 32-bit arithmetic.
    fn dist(one: (i32, i32), other: (i32, i32)) -> (r: u32)
        requires
            sq(one.0 - other.0) + sq(one.1 - other.1) <= i32::MAX,
        ensures
            r == euc_dist(one, other),
            r <= 46340,
    {
        proof {
            assert(sq(one.0 - other.0) >= 0 && sq(one.1 - other.1) >= 0) by (nonlinear_arith);
            assert(-46341 < one.0 - other.0 < 46341 && -46341 < one.1 - other.1 < 46341)
                by (nonlinear_arith)
                requires
                    sq(one.0 - other.0) <= i32::MAX,
                    sq(one.1 - other.1) <= i32::MAX,
            ;
        }
        let dx: i32 = one.0 - other.0;
        let dy: i32 = one.1 - other.1;
        let s: i32 = dx * dx + dy * dy;
        let r = isqrt(s as u32);
        proof {
            lemma_floor_sqrt(s as int);
            assert(46341 * 46341 > i32::MAX);
            assert(!(floor_sqrt(s as int) > 46340)) by (nonlinear_arith)
                requires
                    floor_sqrt(s as int) * floor_sqrt(s as int) <= s,
                    s <= i32::MAX,
                    floor_sqrt(s as int) >= 0,
                    46341 * 46341 > i32::MAX,
            ;
        }
        r
    }

    /// Cost matrix of a list of 2D points: each off-diagonal cell holds the
    /// rounded-down Euclidean distance between its two points.
    pub fn from_euc_2d(coords: &[(i32, i32)]) -> (r: SymmetricMatrix)
        requires
            coords@.len() >= 1,
            coords@.len() * coords@.len() <= usize::MAX,
            coords_in_range(coords@),
        ensures
            r.wf(),
            r.n() == coords@.len(),
            forall|i: int, j: int|
                0 <= i < coords@.len() && 0 <= j < coords@.len() && i != j ==> #[trigger] r.at(
                    i,
                    j,
                ) == euc_dist(coords@[i], coords@[j]),
            r.cells_bounded(46340),
    {
        let size: usize = coords.len();
        let mut res = SymmetricMatrix::from_size(size);
        let mut i: usize = 0;
        while i < size
            invariant
                res.wf(),
                res.n() == size,
                size == coords@.len(),
                coords_in_range(coords@),
                i <= size,
                forall|x: int, y: int|
                    0 <= x < y < size && x < i ==> #[trigger] res.at(x, y) == euc_dist(
                        coords@[x],
                        coords@[y],
                    ),
            decreases size - i,
        {
            let mut j: usize = i + 1;
            while j < size
                invariant
                    res.wf(),
                    res.n() == size,
                    size == coords@.len(),
                    coords_in_range(coords@),
                    i < size,
                    i < j <= size,
                    forall|x: int, y: int|
                        0 <= x < y < size && x < i ==> #[trigger] res.at(x, y) == euc_dist(
                            coords@[x],
                            coords@[y],
                        ),
                    forall|y: int|
                        i < y < j ==> #[trigger] res.at(i as int, y) == euc_dist(
                            coords@[i as int],
                            coords@[y],
                        ),
                decreases size - j,
            {
                let d = Self::dist(coords[i], coords[j]);
                res.set(i, j, d);
                j = j + 1;
            }
            i = i + 1;
        }
        proof {
            assert forall|x: int, y: int|
                0 <= x < size && 0 <= y < size && x != y implies #[trigger] res.at(x, y)
                == euc_dist(coords@[x], coords@[y]) by {
                if x < y {
                } else {
                    assert(res.at(y, x) == euc_dist(coords@[y], coords@[x]));
                    lemma_euc_dist_sym(coords@[y], coords@[x]);
                }
            }
            assert forall|x: int, y: int|
                0 <= x < size && 0 <= y < size implies #[trigger] res.at(x, y) <= 46340 by {
                if x != y {
                    lemma_euc_dist_bound(coords@[x], coords@[y]);
                }
            }
        }
        res
    }
}

/// A flat row-major index stays inside an `n * n` allocation.
proof fn lemma_flat_index(n: int, i: int, j: int)
    requires
        0 <= i < n,
        0 <= j < n,
    ensures
        0 <= i * n + j < n * n,
{
    assert(0 <= i * n + j < n * n) by (nonlinear_arith)
        requires
            0 <= i < n,
            0 <= j < n,
    ;
}

/// Distinct in-range index pairs map to distinct flat indices.
proof fn lemma_flat_index_distinct(n: int, x: int, y: int, i: int, j: int)
    requires
        0 <= x < n,
        0 <= y < n,
        0 <= i < n,
        0 <= j < n,
    ensures
        (x * n + y == i * n + j) <==> (x == i && y == j),
{
    assert((x * n + y == i * n + j) <==> (x == i && y == j)) by (nonlinear_arith)
        requires
            0 <= x < n,
            0 <= y < n,
            0 <= i < n,
            0 <= j < n,
    ;
}

impl SymmetricMatrix {
    /// Every cell is at most `b`.
    pub open spec fn cells_bounded(&self, b: int) -> bool {
        forall|i: int, j: int|
            0 <= i < self.n() && 0 <= j < self.n() ==> #[trigger] self.at(i, j) <= b
    }

    /// When every cell is at most a `n`-th of the `u32` range, the cost of
    /// any walk over the matrix fits in a `u32`.
    pub proof fn lemma_cost_fits(&self, adj: Seq<(usize, usize)>)
        requires
            self.wf(),
            self.n() == adj.len(),
            adj.len() >= 1,
            crate::cycle::adj_in_bounds(adj),
            self.cells_bounded(u32::MAX as int / self.n()),
        ensures
            0 <= tour_cost(*self, adj) <= u32::MAX,
    {
        let n = self.n();
        let b = u32::MAX as int / n;
        lemma_tour_cost_bounds(*self, adj, b);
        vstd::arithmetic::div_mod::lemma_fundamental_div_mod(u32::MAX as int, n);
        vstd::arithmetic::div_mod::lemma_mod_division_less_than_divisor(u32::MAX as int, n);
        assert(b * n == n * b) by (nonlinear_arith);
    }

    /// Total weight of the `N` edges of the tour `path`.
    pub fn cost(&self, path: &Path) -> (r: u32)
        requires
            self.wf(),
            path.wf(),
            self.n() == path@.len(),
            tour_cost(*self, path@) <= u32::MAX,
        ensures
            r == tour_cost(*self, path@),
    {
        let n = path.size();
        proof {
            self.lemma_wf_facts();
        }
        let ghost ts = cost_terms(*self, edge_seq(path@));
        proof {
            assert forall|u: int| 0 <= u < ts.len() implies 0 <= #[trigger] ts[u] by {
                lemma_walk_in_bounds(path@, u);
                lemma_walk_in_bounds(path@, u + 1);
            }
            assert(ts.subrange(0, 0) =~= Seq::<int>::empty());
        }
        let mut it = path.edges_visited();
        let mut total: u32 = 0;
        let mut t: usize = 0;
        while t < n
            invariant
                self.wf(),
                path.wf(),
                self.n() == path@.len(),
                n == path@.len(),
                tour_cost(*self, path@) <= u32::MAX,
                ts == cost_terms(*self, edge_seq(path@)),
                forall|u: int| 0 <= u < ts.len() ==> 0 <= #[trigger] ts[u],
                it.inv(),
                it.index() == t,
                it.seq().len() == n,
                forall|u: int| 0 <= u < n ==> it.seq()[u] == edge_at(path@, u),
                t <= n,
                total == crate::cycle::sum_seq(ts.subrange(0, t as int)),
            decreases n - t,
        {
            let e = match it.next() {
                Some(e) => e,
                None => (0usize, 0usize),
            };
            proof {
                lemma_walk_in_bounds(path@, t as int);
                lemma_walk_in_bounds(path@, t + 1);
                lemma_sum_prefix_step(ts, t as int);
                lemma_sum_split(ts, t + 1);
                lemma_sum_seq_nonneg(ts.subrange(t + 1, ts.len() as int));
                assert forall|u: int|
                    0 <= u < ts.len() - t - 1 implies 0 <= #[trigger] ts.subrange(
                    t + 1,
                    ts.len() as int,
                )[u] by {}
            }
            let w = self.get(e.0, e.1);
            total = total + w;
            t = t + 1;
        }
        proof {
            assert(ts.subrange(0, n as int) =~= ts);
        }
        total
    }

    /// The tour that visits the vertices by increasing index.
    pub fn sequential(&self) -> (r: Route)
        requires
            self.wf(),
            self.n() >= 2,
            self.cells_bounded(u32::MAX as int / self.n()),
        ensures
            r.path.wf(),
            r.path@.len() == self.n(),
            is_hamiltonian_seq(r.path@),
            order_matches(r.path@, identity_order(self.n())),
            r.cost == tour_cost(*self, r.path@),
    {
        let size = self.size;
        let mut data: Vec<(usize, usize)> = Vec::new();
        data.push((1usize, size - 1));
        let mut k: usize = 1;
        while k < size
            invariant
                2 <= size,
                data@.len() == k,
                1 <= k <= size,
                data@[0] == (1usize, (size - 1) as usize),
                forall|v: int|
                    1 <= v < k ==> #[trigger] data@[v] == (((v - 1) as usize), ((v + 1) as usize
                        % (size as usize))),
            decreases size - k,
        {
            data.push((k - 1, (k + 1) % size));
            k = k + 1;
        }
        proof {
            assert forall|v: int| 0 <= v < size implies (#[trigger] data@[v]).0 < size
                && data@[v].1 < size by {}
        }
        let path = Path::new(data);
        let ghost o = identity_order(size as int);
        proof {
            let n = size as int;
            assert forall|v: usize| v < o.len() implies #[trigger] order_has(o, v) by {
                assert(o[v as int] == v);
            }
            assert forall|kk: int| 0 <= kk < n implies #[trigger] order_adj_ok(path@, o, kk) by {
                let km = wrap(n, kk - 1);
                let kp = wrap(n, kk + 1);
                assert(o[kk] == kk as usize && o[km] == km as usize && o[kp] == kp as usize);
                if kk == 0 {
                    assert(path@[0] == (1usize, (size - 1) as usize));
                    assert(km == n - 1 && kp == 1);
                    assert(pair_is(path@[0], o[km], o[kp]));
                } else {
                    assert(path@[kk] == (((kk - 1) as usize), ((kk + 1) as usize % (
                    size as usize))));
                    assert(km == kk - 1);
                    if kk == n - 1 {
                        vstd::arithmetic::div_mod::lemma_mod_self_0(size as int);
                        assert(kp == 0 && ((kk + 1) as usize % (size as usize)) == 0);
                    } else {
                        vstd::arithmetic::div_mod::lemma_small_mod((kk + 1) as nat, size as nat);
                        assert(kp == kk + 1 && ((kk + 1) as usize % (size as usize)) == (kk
                            + 1) as usize);
                    }
                    assert(pair_is(path@[kk], o[km], o[kp]));
                }
            }
            assert(order_matches(path@, o));
            lemma_order_implies_hamiltonian(path@, o);
            self.lemma_cost_fits(path@);
        }
        let cost = self.cost(&path);
        Route { cost, path }
    }
}

/// `v` occurs within the first `k + 1` positions of `o`.
pub open spec fn visited_by(o: Seq<usize>, k: int, v: usize) -> bool {
    exists|t: int| 0 <= t <= k && o[t] == v
}

/// The vertex visited after position `k` is a nearest not-yet-visited one;
/// ties fall to the lowest vertex index.
pub open spec fn nn_choice_ok(m: SymmetricMatrix, o: Seq<usize>, k: int) -> bool {
    forall|v: usize|
        #![trigger visited_by(o, k, v)]
        v < m.n() && !visited_by(o, k, v) ==> m.at(o[k] as int, o[k + 1] as int) < m.at(
            o[k] as int,
            v as int,
        ) || (m.at(o[k] as int, o[k + 1] as int) == m.at(o[k] as int, v as int) && o[k + 1] <= v)
}

/// `o` is the greedy nearest-neighbour visiting order for `m`: it starts at
/// vertex `0` and every step moves to a nearest unvisited vertex, lowest
/// index first on ties.
pub open spec fn is_nn_order(m: SymmetricMatrix, o: Seq<usize>) -> bool {
    &&& o.len() == m.n()
    &&& forall|k: int| 0 <= k < o.len() - 1 ==> #[trigger] nn_choice_ok(m, o, k)
}

impl SymmetricMatrix {
    /// Index of the remaining vertex nearest to `vertex`; the first (and,
    /// for a sorted list, lowest-numbered) one wins ties.
    fn nearest_remaining(&self, vertex: usize, remainders: &Vec<usize>) -> (bi: usize)
        requires
            self.wf(),
            vertex < self.n(),
            remainders@.len() >= 1,
            forall|t: int| 0 <= t < remainders@.len() ==> (#[trigger] remainders@[t]) < self.n(),
        ensures
            bi < remainders@.len(),
            forall|t: int|
                0 <= t < remainders@.len() ==> self.at(
                    vertex as int,
                    remainders@[bi as int] as int,
                ) < #[trigger] self.at(vertex as int, remainders@[t] as int) || (self.at(
                    vertex as int,
                    remainders@[bi as int] as int,
                ) == self.at(vertex as int, remainders@[t] as int) && bi <= t),
    {
        let mut bi: usize = 0;
        let mut t: usize = 1;
        while t < remainders.len()
            invariant
                self.wf(),
                vertex < self.n(),
                forall|u: int|
                    0 <= u < remainders@.len() ==> (#[trigger] remainders@[u]) < self.n(),
                bi < t <= remainders@.len(),
                forall|u: int|
                    0 <= u < t ==> self.at(vertex as int, remainders@[bi as int] as int)
                        < #[trigger] self.at(vertex as int, remainders@[u] as int) || (self.at(
                        vertex as int,
                        remainders@[bi as int] as int,
                    ) == self.at(vertex as int, remainders@[u] as int) && bi <= u),
            decreases remainders@.len() - t,
        {
            if self.get(vertex, remainders[t]) < self.get(vertex, remainders[bi]) {
                bi = t;
            }
            t = t + 1;
        }
        bi
    }

    /// Greedy initial tour: start at vertex `0`, repeatedly hop to the
    /// nearest unvisited vertex (lowest index on ties), close the cycle back
    /// at `0`, and evaluate the result.
    pub fn nearest_neighbor(&self) -> (r: Route)
        requires
            self.wf(),
            self.n() >= 2,
            self.cells_bounded(u32::MAX as int / self.n()),
        ensures
            r.path.wf(),
            r.path@.len() == self.n(),
            is_hamiltonian_seq(r.path@),
            r.cost == tour_cost(*self, r.path@),
            exists|o: Seq<usize>|
                #[trigger] is_nn_order(*self, o) && order_matches(r.path@, o),
    {
        let size = self.size;
        let mut path = Path::uninitialized(size);
        let mut remainders: Vec<usize> = Vec::new();
        let mut i: usize = 1;
        while i < size
            invariant
                2 <= size,
                1 <= i <= size,
                remainders@.len() == i - 1,
                forall|t: int| 0 <= t < i - 1 ==> #[trigger] remainders@[t] == (t + 1) as usize,
            decreases size - i,
        {
            remainders.push(i);
            i = i + 1;
        }
        let mut vertex: usize = 0;
        let ghost mut ord: Seq<usize> = seq![0usize];
        proof {
            assert forall|v: usize| v < size implies (order_has(ord, v) <==> !order_has(
                remainders@,
                v,
            )) by {
                if v == 0 {
                    assert(ord[0] == v);
                    if order_has(remainders@, v) {
                        let t = choose|t: int| 0 <= t < remainders@.len() && remainders@[t] == v;
                    }
                } else {
                    assert(remainders@[v - 1] == v);
                    if order_has(ord, v) {
                        let t = choose|t: int| 0 <= t < ord.len() && ord[t] == v;
                    }
                }
            }
        }
        while remainders.len() > 0
            invariant
                self.wf(),
                size == self.n(),
                2 <= size,
                path.wf(),
                path@.len() == size,
                1 <= ord.len(),
                ord.len() + remainders@.len() == size,
                ord[0] == 0,
                vertex == ord[ord.len() - 1],
                vertex < size,
                forall|t: int| 0 <= t < ord.len() ==> (#[trigger] ord[t]) < size,
                forall|t1: int, t2: int| 0 <= t1 < t2 < ord.len() ==> ord[t1] != ord[t2],
                forall|v: usize|
                    v < size ==> (order_has(ord, v) <==> !order_has(remainders@, v)),
                forall|t: int|
                    0 <= t < remainders@.len() ==> (#[trigger] remainders@[t]) < size,
                forall|t1: int, t2: int|
                    0 <= t1 < t2 < remainders@.len() ==> remainders@[t1] < remainders@[t2],
                forall|v: usize|
                    v < size && !order_has(ord, v) ==> path@[v as int] == (0usize, 0usize),
                ord.len() == 1 ==> path@[0] == (0usize, 0usize),
                ord.len() >= 2 ==> path@[0] == (0usize, ord[1]),
                forall|t: int|
                    1 <= t <= ord.len() - 2 ==> #[trigger] path@[ord[t] as int] == spair(
                        ord[t - 1],
                        ord[t + 1],
                    ),
                ord.len() >= 2 ==> path@[ord[ord.len() - 1] as int] == (
                    0usize,
                    ord[ord.len() - 2],
                ),
                forall|k: int| 0 <= k < ord.len() - 1 ==> #[trigger] nn_choice_ok(*self, ord, k),
            decreases remainders@.len(),
        {
            let bi = self.nearest_remaining(vertex, &remainders);
            let neighbor = remainders[bi];
            let ghost prev_rem = remainders@;
            let ghost prev_ord = ord;
            let ghost prev_path = path@;
            let ghost len = ord.len() as int;
            proof {
                assert(order_has(prev_rem, neighbor));
                assert(!order_has(ord, neighbor));
                assert(order_has(ord, vertex)) by {
                    assert(ord[len - 1] == vertex);
                }
                assert(vertex != neighbor && neighbor != 0) by {
                    assert(ord[0] == 0usize);
                    assert(order_has(ord, 0usize));
                }
            }
            remainders.remove(bi);
            path.init_edge(vertex, neighbor);
            proof {
                ord = ord.push(neighbor);
            }
            let ghost prev_vertex = vertex;
            vertex = neighbor;
            proof {
                // Membership after removing the chosen vertex.
                assert forall|v: usize| v < size implies (order_has(ord, v) <==> !order_has(
                    remainders@,
                    v,
                )) by {
                    if order_has(remainders@, v) {
                        let t = choose|t: int|
                            0 <= t < remainders@.len() && remainders@[t] == v;
                        if t < bi {
                            assert(prev_rem[t] == v);
                        } else {
                            assert(prev_rem[t + 1] == v);
                        }
                        assert(order_has(prev_rem, v));
                        assert(v != neighbor) by {
                            if t < bi {
                                assert(prev_rem[t] < prev_rem[bi as int]);
                            } else {
                                assert(prev_rem[bi as int] < prev_rem[t + 1]);
                            }
                        }
                        if order_has(ord, v) {
                            let u = choose|u: int| 0 <= u < ord.len() && ord[u] == v;
                            assert(prev_ord[u] == v);
                            assert(order_has(prev_ord, v));
                        }
                    } else {
                        if !order_has(ord, v) {
                            assert(!order_has(prev_ord, v)) by {
                                if order_has(prev_ord, v) {
                                    let u = choose|u: int|
                                        0 <= u < prev_ord.len() && prev_ord[u] == v;
                                    assert(ord[u] == v);
                                }
                            }
                            assert(order_has(prev_rem, v));
                            let t = choose|t: int|
                                0 <= t < prev_rem.len() && prev_rem[t] == v;
                            assert(v != neighbor) by {
                                assert(ord[ord.len() - 1] == neighbor);
                            }
                            assert(t != bi);
                            if t < bi {
                                assert(remainders@[t] == v);
                            } else {
                                assert(remainders@[t - 1] == v);
                            }
                            assert(order_has(remainders@, v));
                        }
                    }
                }
                // The two rewritten adjacency entries.
                assert(path@ == prev_path.update(
                    prev_vertex as int,
                    crate::path::fill_slot(prev_path[prev_vertex as int], neighbor),
                ).update(
                    neighbor as int,
                    crate::path::fill_slot(prev_path[neighbor as int], prev_vertex),
                ));
                assert(prev_path[neighbor as int] == (0usize, 0usize));
                assert(path@[neighbor as int] == (0usize, prev_vertex));
                if len == 1 {
                    assert(prev_vertex == 0);
                    assert(path@[0] == (0usize, neighbor));
                } else {
                    let w = prev_ord[len - 2];
                    assert(prev_path[prev_vertex as int] == (0usize, w));
                    assert(path@[prev_vertex as int] == spair(w, neighbor)) by {
                        assert(crate::path::fill_slot((0usize, w), neighbor) == spair(
                            w,
                            neighbor,
                        ));
                    }
                    assert(prev_vertex != 0 && neighbor != 0);
                    assert(path@[0] == prev_path[0]);
                }
                // Middle entries and untouched vertices keep their pairs.
                assert forall|t: int| 1 <= t <= ord.len() - 2 implies #[trigger] path@[
                    ord[t] as int] == spair(ord[t - 1], ord[t + 1]) by {
                    if t <= len - 2 {
                        assert(ord[t] == prev_ord[t]);
                        assert(ord[t] != prev_vertex && ord[t] != neighbor);
                        assert(path@[ord[t] as int] == prev_path[prev_ord[t] as int]);
                        assert(ord[t - 1] == prev_ord[t - 1] && ord[t + 1] == prev_ord[t + 1]);
                    } else {
                        assert(t == len - 1 && ord[t] == prev_vertex);
                        if len >= 2 {
                            assert(path@[prev_vertex as int] == spair(
                                prev_ord[len - 2],
                                neighbor,
                            ));
                            assert(spair(prev_ord[len - 2], neighbor) == spair(
                                ord[t - 1],
                                ord[t + 1],
                            ));
                        }
                    }
                }
                assert forall|v: usize| v < size && !order_has(ord, v) implies path@[v as int]
                    == (0usize, 0usize) by {
                    assert(!order_has(prev_ord, v)) by {
                        if order_has(prev_ord, v) {
                            let u = choose|u: int|
                                0 <= u < prev_ord.len() && prev_ord[u] == v;
                            assert(ord[u] == v);
                        }
                    }
                    assert(v != neighbor) by {
                        assert(ord[ord.len() - 1] == neighbor);
                    }
                    assert(v != prev_vertex) by {
                        assert(ord[len - 1] == prev_vertex);
                    }
                }
                // The greedy property, for the old steps and the new one.
                assert forall|k: int| 0 <= k < ord.len() - 1 implies #[trigger] nn_choice_ok(
                    *self,
                    ord,
                    k,
                ) by {
                    if k < len - 1 {
                        assert(nn_choice_ok(*self, prev_ord, k));
                        assert forall|v: usize|
                            #![trigger visited_by(ord, k, v)]
                            v < self.n() && !visited_by(ord, k, v) implies self.at(
                            ord[k] as int,
                            ord[k + 1] as int,
                        ) < self.at(ord[k] as int, v as int) || (self.at(
                            ord[k] as int,
                            ord[k + 1] as int,
                        ) == self.at(ord[k] as int, v as int) && ord[k + 1] <= v) by {
                            assert(!visited_by(prev_ord, k, v)) by {
                                if visited_by(prev_ord, k, v) {
                                    let t = choose|t: int|
                                        0 <= t <= k && prev_ord[t] == v;
                                    assert(ord[t] == v);
                                }
                            }
                            assert(ord[k] == prev_ord[k] && ord[k + 1] == prev_ord[k + 1]);
                        }
                    } else {
                        assert(k == len - 1);
                        assert(ord[k] == prev_vertex && ord[k + 1] == neighbor);
                        assert forall|v: usize|
                            #![trigger visited_by(ord, k, v)]
                            v < self.n() && !visited_by(ord, k, v) implies self.at(
                            ord[k] as int,
                            ord[k + 1] as int,
                        ) < self.at(ord[k] as int, v as int) || (self.at(
                            ord[k] as int,
                            ord[k + 1] as int,
                        ) == self.at(ord[k] as int, v as int) && ord[k + 1] <= v) by {
                            assert(!order_has(prev_ord, v)) by {
                                if order_has(prev_ord, v) {
                                    let t = choose|t: int|
                                        0 <= t < prev_ord.len() && prev_ord[t] == v;
                                    assert(0 <= t <= k && ord[t] == v);
                                    assert(visited_by(ord, k, v));
                                }
                            }
                            assert(order_has(prev_rem, v));
                            let t = choose|t: int|
                                0 <= t < prev_rem.len() && prev_rem[t] == v;
                            assert(self.at(prev_vertex as int, prev_rem[bi as int] as int)
                                < self.at(prev_vertex as int, prev_rem[t] as int) || (self.at(
                                prev_vertex as int,
                                prev_rem[bi as int] as int,
                            ) == self.at(prev_vertex as int, prev_rem[t] as int) && bi <= t));
                            if !(self.at(prev_vertex as int, neighbor as int) < self.at(
                                prev_vertex as int,
                                v as int,
                            )) {
                                assert(bi <= t);
                                assert(neighbor <= v) by {
                                    if (bi as int) < t {
                                        assert(prev_rem[bi as int] < prev_rem[t]);
                                    }
                                }
                            }
                        }
                    }
                }
            }
        }
        proof {
            assert(ord.len() == size);
        }
        path.init_edge(vertex, 0);
        let ghost o = ord;
        proof {
            let n = size as int;
            assert forall|v: usize| v < o.len() implies #[trigger] order_has(o, v) by {
                if order_has(remainders@, v) {
                    let t = choose|t: int| 0 <= t < remainders@.len() && remainders@[t] == v;
                }
            }
            assert(valid_order(o));
            assert(o[n - 1] == vertex && vertex != 0);
            assert forall|kk: int| 0 <= kk < n implies #[trigger] order_adj_ok(path@, o, kk) by {
                let km = wrap(n, kk - 1);
                let kp = wrap(n, kk + 1);
                if kk == 0 {
                    assert(path@[0] == spair(o[1], vertex));
                    assert(km == n - 1 && kp == 1);
                } else if kk == n - 1 {
                    assert(path@[o[n - 1] as int] == spair(0usize, o[n - 2]));
                    assert(km == n - 2 && kp == 0);
                } else {
                    assert(path@[o[kk] as int] == spair(o[kk - 1], o[kk + 1]));
                }
                assert(pair_is(path@[o[kk] as int], o[km], o[kp]));
            }
            assert(order_matches(path@, o));
            lemma_order_implies_hamiltonian(path@, o);
            self.lemma_cost_fits(path@);
            assert(is_nn_order(*self, o));
        }
        let cost = self.cost(&path);
        Route::new(cost, path)
    }
}

impl Clone for SymmetricMatrix {
    /// An independent copy with the same dimensions and cells.
    fn clone(&self) -> (r: Self)
        ensures
            r.n() == self.n(),
            forall|i: int, j: int|
                0 <= i < self.n() && 0 <= j < self.n() ==> #[trigger] r.at(i, j) == self.at(i, j),
            self.wf() ==> r.wf(),
    {
        let mut data: Vec<u32> = Vec::new();
        let len = self.data.len();
        let mut k: usize = 0;
        while k < len
            invariant
                data@.len() == k,
                k <= len,
                len == self.data@.len(),
                forall|t: int| 0 <= t < k ==> data@[t] == self.data@[t],
            decreases len - k,
        {
            data.push(self.data[k]);
            k = k + 1;
        }
        let r = SymmetricMatrix { size: self.size, data };
        proof {
            assert(r.data@ =~= self.data@);
            assert forall|i: int, j: int|
                0 <= i < r.n() && 0 <= j < r.n() implies #[trigger] r.at(i, j) == self.at(
                i,
                j,
            ) by {}
            if self.wf() {
                self.lemma_wf_facts();
                assert(r.wf());
            }
        }
        r
    }
}

} // verus!
