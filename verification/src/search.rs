//! 2-opt local search with a parallel candidate scan, and the
//! guided-local-search driver built on top of it.

use crate::cycle::edge_at;
use crate::cycle::edge_seq;
use crate::cycle::is_hamiltonian_seq;
use crate::cycle::lemma_tour_cost_bounds;
use crate::cycle::lemma_twist_hamiltonian_cost;
use crate::cycle::lemma_walk_in_bounds;
use crate::cycle::tour_cost;
use crate::cycle::twist_pair_at;
use crate::cycle::twist_seq;
use crate::cycle::twistable;
use crate::cycle::walk_vertex;
use crate::matrix::SymmetricMatrix;
use crate::path::Path;
use crate::route::Route;
use rayon::iter::IndexedParallelIterator;
use rayon::iter::IntoParallelRefIterator;
use rayon::iter::ParallelIterator;
use vstd::prelude::*;

verus! {

/// Positions `i` and `j` of the edge list `es` hold a strictly improving
/// 2-opt move under `m`: reconnecting the two edges crosswise costs less
/// than keeping them.
pub open spec fn improving_pair(
    m: SymmetricMatrix,
    es: Seq<(usize, usize)>,
    i: int,
    j: int,
) -> bool {
    &&& 0 <= i
    &&& i + 2 <= j < es.len()
    &&& m.at(es[i].0 as int, es[i].1 as int) + m.at(es[j].0 as int, es[j].1 as int) > m.at(
        es[i].0 as int,
        es[j].0 as int,
    ) + m.at(es[i].1 as int, es[j].1 as int)
}

/// No strictly improving 2-opt move exists on the tour: a 2-opt local
/// minimum under `m`.
pub open spec fn is_local_minimum(m: SymmetricMatrix, adj: Seq<(usize, usize)>) -> bool {
    forall|i: int, j: int| !improving_pair(m, edge_seq(adj), i, j)
}

/// Scan for an improving partner of the edge at position `i`, among the
/// edges at least two positions further on.
fn find_improvement_from(tsp: &SymmetricMatrix, edges: &Vec<(usize, usize)>, i: usize) -> (r:
    Option<((usize, usize), (usize, usize))>)
    requires
        tsp.wf(),
        i < edges@.len(),
        edges@.len() + 2 <= usize::MAX,
        forall|t: int|
            0 <= t < edges@.len() ==> (#[trigger] edges@[t]).0 < tsp.n() && edges@[t].1 < tsp.n(),
    ensures
        match r {
            Some(pair) => pair.0 == edges@[i as int] && exists|j: int|
                #[trigger] improving_pair(*tsp, edges@, i as int, j) && pair.1 == edges@[j],
            None => forall|j: int| !improving_pair(*tsp, edges@, i as int, j),
        },
{
    let e = edges[i];
    let initial_cost = tsp.get(e.0, e.1);
    let mut j: usize = i + 2;
    while j < edges.len()
        invariant
            tsp.wf(),
            i < edges@.len(),
            i + 2 <= j <= edges@.len() + 2,
            e == edges@[i as int],
            initial_cost == tsp.at(e.0 as int, e.1 as int),
            forall|t: int|
                0 <= t < edges@.len() ==> (#[trigger] edges@[t]).0 < tsp.n() && edges@[t].1
                    < tsp.n(),
            forall|u: int| i + 2 <= u < j ==> !improving_pair(*tsp, edges@, i as int, u),
        decreases edges@.len() - j,
    {
        let c = edges[j];
        let cost_decrease: u64 = initial_cost as u64 + tsp.get(c.0, c.1) as u64;
        let cost_increase: u64 = tsp.get(e.0, c.0) as u64 + tsp.get(e.1, c.1) as u64;
        if cost_decrease > cost_increase {
            proof {
                assert(improving_pair(*tsp, edges@, i as int, j as int));
            }
            return Some((e, c));
        }
        j = j + 1;
    }
    proof {
        assert forall|u: int| !improving_pair(*tsp, edges@, i as int, u) by {
            if i + 2 <= u < edges@.len() {
            }
        }
    }
    None
}

/// Relies on rayon's `par_iter().enumerate().find_map_any`: it returns a
/// value produced by the verified per-index scan applied to some index, and
/// `None` exactly when the scan of every index produced `None`. Which
/// improving pair is returned may vary from run to run; the contract states
/// only what holds of every outcome.
#[verifier::external_body]
fn par_find_improvement(tsp: &SymmetricMatrix, edges: &Vec<(usize, usize)>) -> (r: Option<
    ((usize, usize), (usize, usize)),
>)
    requires
        tsp.wf(),
        edges@.len() + 2 <= usize::MAX,
        forall|t: int|
            0 <= t < edges@.len() ==> (#[trigger] edges@[t]).0 < tsp.n() && edges@[t].1 < tsp.n(),
    ensures
        match r {
            Some(pair) => exists|i: int, j: int|
                #[trigger] improving_pair(*tsp, edges@, i, j) && pair.0 == edges@[i] && pair.1
                    == edges@[j],
            None => forall|i: int, j: int| !improving_pair(*tsp, edges@, i, j),
        },
{
    edges.par_iter().enumerate().find_map_any(|(i, _)| find_improvement_from(tsp, edges, i))
}

/// The pair of first and last tour edge shares the start vertex, and under a
/// symmetric matrix swapping it is never an improvement.
proof fn lemma_closing_pair_not_improving(m: SymmetricMatrix, adj: Seq<(usize, usize)>)
    requires
        m.wf(),
        m.n() == adj.len(),
        is_hamiltonian_seq(adj),
    ensures
        !improving_pair(m, edge_seq(adj), 0, adj.len() - 1),
{
    let n = adj.len() as int;
    let es = edge_seq(adj);
    m.lemma_wf_facts();
    lemma_walk_in_bounds(adj, 1);
    lemma_walk_in_bounds(adj, n - 1);
    assert(es[0] == (walk_vertex(adj, 0), walk_vertex(adj, 1)));
    assert(es[n - 1] == (walk_vertex(adj, n - 1), walk_vertex(adj, n)));
    assert(walk_vertex(adj, 0) == 0 && walk_vertex(adj, n) == 0);
}

/// One pass of the scan: fill the edge buffer from the tour and look for
/// any improving pair, in parallel over the starting edge.
fn local_search_step(
    tsp: &SymmetricMatrix,
    candidate: &Path,
    edge_buffer: &mut Vec<(usize, usize)>,
) -> (r: Option<((usize, usize), (usize, usize))>)
    requires
        tsp.wf(),
        is_hamiltonian_seq(candidate@),
        tsp.n() == candidate@.len(),
    ensures
        match r {
            Some(pair) => exists|i: int, j: int|
                #[trigger] twist_pair_at(candidate@, i, j, pair.0, pair.1) && improving_pair(
                    *tsp,
                    edge_seq(candidate@),
                    i,
                    j,
                ),
            None => is_local_minimum(*tsp, candidate@),
        },
{
    let n = candidate.size();
    candidate.edges_visited_buffered(edge_buffer);
    proof {
        assert(edge_buffer@ =~= edge_seq(candidate@));
        assert forall|t: int|
            0 <= t < edge_buffer@.len() implies (#[trigger] edge_buffer@[t]).0 < tsp.n()
            && edge_buffer@[t].1 < tsp.n() by {
            lemma_walk_in_bounds(candidate@, t);
            lemma_walk_in_bounds(candidate@, t + 1);
        }
        assert(n + 2 <= usize::MAX) by {
            assert(tsp.n() * tsp.n() <= usize::MAX && tsp.n() >= 2) by {
                tsp.lemma_wf_facts();
            }
            assert(2 * candidate@.len() <= candidate@.len() * candidate@.len())
                by (nonlinear_arith)
                requires
                    candidate@.len() >= 2,
            ;
        }
    }
    let r = par_find_improvement(tsp, edge_buffer);
    proof {
        if let Some(pair) = r {
            let (i, j) = choose|i: int, j: int|
                improving_pair(*tsp, edge_buffer@, i, j) && pair.0 == edge_buffer@[i] && pair.1
                    == edge_buffer@[j];
            lemma_closing_pair_not_improving(*tsp, candidate@);
            assert(!(i == 0 && j == candidate@.len() - 1));
            assert(twistable(candidate@.len() as int, i, j));
            assert(edge_buffer@[i] == edge_at(candidate@, i));
            assert(edge_buffer@[j] == edge_at(candidate@, j));
            assert(twist_pair_at(candidate@, i, j, pair.0, pair.1));
        }
    }
    r
}

/// Apply improving 2-opt moves until none remains. The tour stays
/// Hamiltonian throughout, its cost never increases, and on return no
/// improving move exists; a tour that is already a local minimum comes
/// back unchanged.
pub fn local_search(tsp: &SymmetricMatrix, candidate: &mut Path)
    requires
        tsp.wf(),
        is_hamiltonian_seq(old(candidate)@),
        tsp.n() == old(candidate)@.len(),
    ensures
        is_hamiltonian_seq(final(candidate)@),
        final(candidate)@.len() == old(candidate)@.len(),
        is_local_minimum(*tsp, final(candidate)@),
        tour_cost(*tsp, final(candidate)@) <= tour_cost(*tsp, old(candidate)@),
        is_local_minimum(*tsp, old(candidate)@) ==> final(candidate)@ == old(candidate)@,
{
    let mut edge_buffer: Vec<(usize, usize)> = Vec::new();
    proof {
        tsp.lemma_wf_facts();
        lemma_tour_cost_bounds(*tsp, candidate@, u32::MAX as int);
    }
    loop
        invariant
            tsp.wf(),
            is_hamiltonian_seq(candidate@),
            tsp.n() == candidate@.len(),
            candidate@.len() == old(candidate)@.len(),
            tour_cost(*tsp, candidate@) <= tour_cost(*tsp, old(candidate)@),
            is_local_minimum(*tsp, old(candidate)@) ==> candidate@ == old(candidate)@,
        ensures
            is_local_minimum(*tsp, candidate@),
        decreases tour_cost(*tsp, candidate@),
    {
        let r = local_search_step(tsp, candidate, &mut edge_buffer);
        match r {
            None => {
                break ;
            },
            Some(pair) => {
                proof {
                    tsp.lemma_wf_facts();
                    lemma_tour_cost_bounds(*tsp, candidate@, u32::MAX as int);
                    let (i, j) = choose|i: int, j: int|
                        twist_pair_at(candidate@, i, j, pair.0, pair.1) && improving_pair(
                            *tsp,
                            edge_seq(candidate@),
                            i,
                            j,
                        );
                    assert(pair.0 == edge_at(candidate@, i) && pair.1 == edge_at(candidate@, j));
                    lemma_improving_twist_decreases(*tsp, candidate@, i, j);
                    assert(twist_seq(candidate@, pair.0, pair.1) == twist_seq(
                        candidate@,
                        edge_at(candidate@, i),
                        edge_at(candidate@, j),
                    ));
                    lemma_tour_cost_bounds(
                        *tsp,
                        twist_seq(candidate@, pair.0, pair.1),
                        u32::MAX as int,
                    );
                }
                candidate.twist(pair.0, pair.1);
            },
        }
    }
}

/// Removing an improving pair of edges and reconnecting crosswise keeps the
/// tour Hamiltonian and strictly lowers its cost; local search therefore
/// performs at most as many moves as the starting cost.
pub proof fn lemma_improving_twist_decreases(
    m: SymmetricMatrix,
    adj: Seq<(usize, usize)>,
    i: int,
    j: int,
)
    requires
        m.wf(),
        m.n() == adj.len(),
        is_hamiltonian_seq(adj),
        twistable(adj.len() as int, i, j),
        improving_pair(m, edge_seq(adj), i, j),
    ensures
        is_hamiltonian_seq(twist_seq(adj, edge_at(adj, i), edge_at(adj, j))),
        twist_seq(adj, edge_at(adj, i), edge_at(adj, j)).len() == adj.len(),
        tour_cost(m, twist_seq(adj, edge_at(adj, i), edge_at(adj, j))) < tour_cost(m, adj),
{
    lemma_twist_hamiltonian_cost(m, adj, i, j);
}

/// The working matrix equals the base matrix plus `alpha` times the
/// penalty count, cell by cell.
pub open spec fn augmented(
    work: SymmetricMatrix,
    base: SymmetricMatrix,
    pen: SymmetricMatrix,
    alpha: u32,
) -> bool {
    &&& work.n() == base.n()
    &&& pen.n() == base.n()
    &&& forall|i: int, j: int|
        0 <= i < base.n() && 0 <= j < base.n() ==> #[trigger] work.at(i, j) == base.at(i, j)
            + alpha * pen.at(i, j)
}

/// Utility of an edge: its true cost divided by one more than its penalty
/// count, rounded down. High for long edges that were penalised rarely.
pub open spec fn utility_of(tsp: SymmetricMatrix, pen: SymmetricMatrix, x: int, y: int) -> int {
    tsp.at(x, y) / (1 + pen.at(x, y))
}

/// The ordered pair `(x, y)` occurs among the first `t` edges.
spec fn occ_before(es: Seq<(usize, usize)>, t: int, x: usize, y: usize) -> bool {
    exists|u: int| 0 <= u < t && es[u] == (x, y)
}

/// The cell `{x, y}` occurs, in either orientation, among the first `t`
/// edges.
pub open spec fn cell_occurs(es: Seq<(usize, usize)>, t: int, x: usize, y: usize) -> bool {
    (exists|u: int| 0 <= u < t && es[u] == (x, y)) || (exists|u: int|
        0 <= u < t && es[u] == (y, x))
}

/// No two edges of the list touch the same matrix cell, in either
/// orientation; every tour on three or more vertices satisfies this.
pub open spec fn distinct_cells(es: Seq<(usize, usize)>) -> bool {
    forall|t1: int, t2: int|
        0 <= t1 < t2 < es.len() ==> (#[trigger] es[t1]) != (#[trigger] es[t2]) && es[t1] != (
        es[t2].1,
        es[t2].0,
        )
}

/// The highest utility among the first `t` edges of the list.
pub open spec fn max_utility_to(
    tsp: SymmetricMatrix,
    pen: SymmetricMatrix,
    es: Seq<(usize, usize)>,
    t: int,
) -> int
    decreases t,
{
    if t <= 1 {
        utility_of(tsp, pen, es[0].0 as int, es[0].1 as int)
    } else {
        let prev = max_utility_to(tsp, pen, es, t - 1);
        let cur = utility_of(tsp, pen, es[t - 1].0 as int, es[t - 1].1 as int);
        if cur > prev {
            cur
        } else {
            prev
        }
    }
}

/// When the edges touch pairwise distinct cells, the cell of edge `t` has
/// not occurred among the first `t` edges.
proof fn lemma_fresh_cell(es: Seq<(usize, usize)>, t: int, e: (usize, usize))
    requires
        distinct_cells(es),
        0 <= t < es.len(),
        es[t] == e,
    ensures
        !cell_occurs(es, t, e.0, e.1),
{
    if cell_occurs(es, t, e.0, e.1) {
        if exists|u: int| 0 <= u < t && es[u] == (e.0, e.1) {
            let u = choose|u: int| 0 <= u < t && es[u] == (e.0, e.1);
            assert(es[u] == es[t]);
        } else {
            let u = choose|u: int| 0 <= u < t && es[u] == (e.1, e.0);
            assert(es[u] == (es[t].1, es[t].0));
        }
    }
}

/// A cell seen among the first `t` edges is still seen among the first
/// `t + 1`.
proof fn lemma_cell_occurs_grows(es: Seq<(usize, usize)>, t: int, x: usize, y: usize)
    requires
        cell_occurs(es, t, x, y),
        t >= 0,
    ensures
        cell_occurs(es, t + 1, x, y),
{
    if exists|u: int| 0 <= u < t && es[u] == (x, y) {
        let u = choose|u: int| 0 <= u < t && es[u] == (x, y);
        assert(0 <= u < t + 1 && es[u] == (x, y));
    } else {
        let u = choose|u: int| 0 <= u < t && es[u] == (y, x);
        assert(0 <= u < t + 1 && es[u] == (y, x));
    }
}

/// Compute the utility of one edge.
fn utility(tsp: &SymmetricMatrix, penalties: &SymmetricMatrix, x: usize, y: usize) -> (r: u32)
    requires
        tsp.wf(),
        penalties.wf(),
        penalties.n() == tsp.n(),
        x < tsp.n(),
        y < tsp.n(),
        penalties.at(x as int, y as int) + 1 <= u32::MAX,
    ensures
        r == utility_of(*tsp, *penalties, x as int, y as int),
{
    proof {
        tsp.lemma_wf_facts();
        penalties.lemma_wf_facts();
    }
    tsp.get(x, y) / (1 + penalties.get(x, y))
}

/// One penalisation pass of guided local search: every tour edge whose
/// utility ties the maximum gains one penalty unit, and the working matrix
/// is updated cell by cell so that it always equals the true matrix plus
/// `alpha` times the penalty count.
pub fn gls_penalize(
    tsp: &SymmetricMatrix,
    penalties: &mut SymmetricMatrix,
    work: &mut SymmetricMatrix,
    alpha: u32,
    edge_buffer: &Vec<(usize, usize)>,
)
    requires
        tsp.wf(),
        old(penalties).wf(),
        old(work).wf(),
        old(penalties).n() == tsp.n(),
        old(work).n() == tsp.n(),
        augmented(*old(work), *tsp, *old(penalties), alpha),
        edge_buffer@.len() >= 1,
        forall|t: int|
            0 <= t < edge_buffer@.len() ==> (#[trigger] edge_buffer@[t]).0 < tsp.n()
                && edge_buffer@[t].1 < tsp.n() && edge_buffer@[t].0 != edge_buffer@[t].1,
        forall|t1: int, t2: int|
            0 <= t1 < t2 < edge_buffer@.len() ==> edge_buffer@[t1].0 != edge_buffer@[t2].0,
        forall|i: int, j: int|
            0 <= i < tsp.n() && 0 <= j < tsp.n() ==> tsp.at(i, j) + alpha * (old(penalties).at(
                i,
                j,
            ) + 2) <= u32::MAX,
        forall|i: int, j: int|
            0 <= i < tsp.n() && 0 <= j < tsp.n() ==> old(penalties).at(i, j) + 3 <= u32::MAX,
    ensures
        final(penalties).wf(),
        final(work).wf(),
        final(penalties).n() == tsp.n(),
        final(work).n() == tsp.n(),
        augmented(*final(work), *tsp, *final(penalties), alpha),
        forall|i: int, j: int|
            0 <= i < tsp.n() && 0 <= j < tsp.n() ==> old(penalties).at(i, j)
                <= #[trigger] final(penalties).at(i, j) <= old(penalties).at(i, j) + 2,
        distinct_cells(edge_buffer@) ==> forall|x: usize, y: usize|
            x < tsp.n() && y < tsp.n() ==> #[trigger] final(penalties).at(x as int, y as int)
                == old(penalties).at(x as int, y as int) + (if cell_occurs(
                edge_buffer@,
                edge_buffer@.len() as int,
                x,
                y,
            ) && utility_of(*tsp, *old(penalties), x as int, y as int) == max_utility_to(
                *tsp,
                *old(penalties),
                edge_buffer@,
                edge_buffer@.len() as int,
            ) {
                1int
            } else {
                0int
            }),
{
    let n = edge_buffer.len();
    proof {
        tsp.lemma_wf_facts();
    }
    // Highest utility among the tour edges under the current penalties.
    let e0 = edge_buffer[0];
    let mut max_utility: u32 = utility(tsp, penalties, e0.0, e0.1);
    let mut t: usize = 1;
    while t < n
        invariant
            tsp.wf(),
            *penalties == *old(penalties),
            penalties.wf(),
            penalties.n() == tsp.n(),
            1 <= t <= n,
            n == edge_buffer@.len(),
            max_utility == max_utility_to(*tsp, *old(penalties), edge_buffer@, t as int),
            forall|tt: int|
                0 <= tt < edge_buffer@.len() ==> (#[trigger] edge_buffer@[tt]).0 < tsp.n()
                    && edge_buffer@[tt].1 < tsp.n(),
            forall|i: int, j: int|
                0 <= i < tsp.n() && 0 <= j < tsp.n() ==> old(penalties).at(i, j) + 3 <= u32::MAX,
        decreases n - t,
    {
        let e = edge_buffer[t];
        let u = utility(tsp, penalties, e.0, e.1);
        if u > max_utility {
            max_utility = u;
        }
        t = t + 1;
    }
    // Penalise every edge whose utility, under the penalties as they stand
    // when it is examined, ties the maximum.
    let mut t2: usize = 0;
    while t2 < n
        invariant
            tsp.wf(),
            old(penalties).wf(),
            old(penalties).n() == tsp.n(),
            penalties.wf(),
            work.wf(),
            penalties.n() == tsp.n(),
            work.n() == tsp.n(),
            augmented(*work, *tsp, *penalties, alpha),
            t2 <= n,
            n == edge_buffer@.len(),
            forall|tt: int|
                0 <= tt < edge_buffer@.len() ==> (#[trigger] edge_buffer@[tt]).0 < tsp.n()
                    && edge_buffer@[tt].1 < tsp.n() && edge_buffer@[tt].0 != edge_buffer@[tt].1,
            forall|t1: int, tb: int|
                0 <= t1 < tb < edge_buffer@.len() ==> edge_buffer@[t1].0 != edge_buffer@[tb].0,
            forall|i: int, j: int|
                0 <= i < tsp.n() && 0 <= j < tsp.n() ==> tsp.at(i, j) + alpha * (old(
                    penalties,
                ).at(i, j) + 2) <= u32::MAX,
            forall|i: int, j: int|
                0 <= i < tsp.n() && 0 <= j < tsp.n() ==> old(penalties).at(i, j) + 3 <= u32::MAX,
            forall|i: int, j: int|
                0 <= i < tsp.n() && 0 <= j < tsp.n() ==> old(penalties).at(i, j)
                    <= #[trigger] penalties.at(i, j) <= old(penalties).at(i, j) + 2,
            forall|x: usize, y: usize|
                #![trigger penalties.at(x as int, y as int)]
                x < tsp.n() && y < tsp.n() && penalties.at(x as int, y as int) >= old(
                    penalties,
                ).at(x as int, y as int) + 1 ==> (occ_before(edge_buffer@, t2 as int, x, y)
                    || occ_before(edge_buffer@, t2 as int, y, x)),
            forall|x: usize, y: usize|
                #![trigger penalties.at(x as int, y as int)]
                x < tsp.n() && y < tsp.n() && penalties.at(x as int, y as int) == old(
                    penalties,
                ).at(x as int, y as int) + 2 ==> (occ_before(edge_buffer@, t2 as int, x, y)
                    && occ_before(edge_buffer@, t2 as int, y, x)),
            max_utility == max_utility_to(*tsp, *old(penalties), edge_buffer@, n as int),
            distinct_cells(edge_buffer@) ==> forall|x: usize, y: usize|
                x < tsp.n() && y < tsp.n() ==> #[trigger] penalties.at(x as int, y as int) == old(
                    penalties,
                ).at(x as int, y as int) + (if cell_occurs(edge_buffer@, t2 as int, x, y)
                    && utility_of(*tsp, *old(penalties), x as int, y as int) == max_utility_to(
                    *tsp,
                    *old(penalties),
                    edge_buffer@,
                    n as int,
                ) {
                    1int
                } else {
                    0int
                }),
        decreases n - t2,
    {
        let e = edge_buffer[t2];
        let u = utility(tsp, penalties, e.0, e.1);
        let ghost pre_pen = *penalties;
        proof {
            tsp.lemma_wf_facts();
            old(penalties).lemma_wf_facts();
            pre_pen.lemma_wf_facts();
        }
        if u == max_utility {
            proof {
                // A third occurrence of this cell is impossible: its first
                // components would clash with an earlier buffer entry.
                if penalties.at(e.0 as int, e.1 as int) == old(penalties).at(
                    e.0 as int,
                    e.1 as int,
                ) + 2 {
                    assert(occ_before(edge_buffer@, t2 as int, e.0, e.1));
                    let uu = choose|uu: int|
                        0 <= uu < t2 && edge_buffer@[uu] == (e.0, e.1);
                    assert(edge_buffer@[uu].0 == edge_buffer@[t2 as int].0);
                    assert(false);
                }
            }
            let p2 = penalties.inc(e.0, e.1, 1);
            proof {
                let base = old(penalties).at(e.0 as int, e.1 as int);
                assert(alpha * p2 <= alpha * (base + 2)) by (nonlinear_arith)
                    requires
                        p2 <= base + 2,
                        alpha >= 0,
                ;
            }
            let wv = tsp.get(e.0, e.1) + alpha * p2;
            work.set(e.0, e.1, wv);
            proof {
                assert forall|i: int, j: int|
                    0 <= i < tsp.n() && 0 <= j < tsp.n() implies #[trigger] work.at(i, j)
                    == tsp.at(i, j) + alpha * penalties.at(i, j) by {
                    if (i == e.0 && j == e.1) || (i == e.1 && j == e.0) {
                        assert(tsp.at(i, j) == tsp.at(e.0 as int, e.1 as int));
                        assert(penalties.at(i, j) == p2);
                    }
                }
                // An incremented cell was seen: in this order now, and if it
                // reached two units, in the other order earlier.
                assert forall|x: usize, y: usize|
                    #![trigger penalties.at(x as int, y as int)]
                    x < tsp.n() && y < tsp.n() && penalties.at(x as int, y as int) >= old(
                        penalties,
                    ).at(x as int, y as int) + 1 implies (occ_before(
                    edge_buffer@,
                    t2 + 1,
                    x,
                    y,
                ) || occ_before(edge_buffer@, t2 + 1, y, x)) by {
                    if (x == e.0 && y == e.1) || (x == e.1 && y == e.0) {
                        assert(edge_buffer@[t2 as int] == (e.0, e.1));
                        assert(occ_before(edge_buffer@, t2 + 1, e.0, e.1));
                    } else {
                        assert(penalties.at(x as int, y as int) == pre_pen.at(x as int, y as int));
                        if pre_pen.at(x as int, y as int) >= old(penalties).at(
                            x as int,
                            y as int,
                        ) + 1 {
                            assert(occ_before(edge_buffer@, t2 as int, x, y) || occ_before(
                                edge_buffer@,
                                t2 as int,
                                y,
                                x,
                            ));
                            if occ_before(edge_buffer@, t2 as int, x, y) {
                                let uu = choose|uu: int|
                                    0 <= uu < t2 && edge_buffer@[uu] == (x, y);
                                assert(edge_buffer@[uu] == (x, y));
                                assert(occ_before(edge_buffer@, t2 + 1, x, y));
                            } else {
                                let uu = choose|uu: int|
                                    0 <= uu < t2 && edge_buffer@[uu] == (y, x);
                                assert(occ_before(edge_buffer@, t2 + 1, y, x));
                            }
                        }
                    }
                }
                assert forall|x: usize, y: usize|
                    #![trigger penalties.at(x as int, y as int)]
                    x < tsp.n() && y < tsp.n() && penalties.at(x as int, y as int) == old(
                        penalties,
                    ).at(x as int, y as int) + 2 implies (occ_before(edge_buffer@, t2 + 1, x, y)
                    && occ_before(edge_buffer@, t2 + 1, y, x)) by {
                    if (x == e.0 && y == e.1) || (x == e.1 && y == e.0) {
                        assert(pre_pen.at(e.0 as int, e.1 as int) == old(penalties).at(
                            e.0 as int,
                            e.1 as int,
                        ) + 1);
                        assert(occ_before(edge_buffer@, t2 as int, e.0, e.1) || occ_before(
                            edge_buffer@,
                            t2 as int,
                            e.1,
                            e.0,
                        ));
                        if occ_before(edge_buffer@, t2 as int, e.0, e.1) {
                            let uu = choose|uu: int|
                                0 <= uu < t2 && edge_buffer@[uu] == (e.0, e.1);
                            assert(edge_buffer@[uu].0 == edge_buffer@[t2 as int].0);
                            assert(false);
                        }
                        assert(occ_before(edge_buffer@, t2 as int, e.1, e.0));
                        let uu = choose|uu: int|
                            0 <= uu < t2 && edge_buffer@[uu] == (e.1, e.0);
                        assert(occ_before(edge_buffer@, t2 + 1, e.1, e.0));
                        assert(edge_buffer@[t2 as int] == (e.0, e.1));
                        assert(occ_before(edge_buffer@, t2 + 1, e.0, e.1));
                    } else {
                        assert(penalties.at(x as int, y as int) == pre_pen.at(x as int, y as int));
                        if pre_pen.at(x as int, y as int) == old(penalties).at(
                            x as int,
                            y as int,
                        ) + 2 {
                            let u1 = choose|uu: int|
                                0 <= uu < t2 && edge_buffer@[uu] == (x, y);
                            let u2 = choose|uu: int|
                                0 <= uu < t2 && edge_buffer@[uu] == (y, x);
                            assert(occ_before(edge_buffer@, t2 + 1, x, y) && occ_before(
                                edge_buffer@,
                                t2 + 1,
                                y,
                                x,
                            ));
                        }
                    }
                }
                if distinct_cells(edge_buffer@) {
                    lemma_fresh_cell(edge_buffer@, t2 as int, e);
                    assert(pre_pen.at(e.0 as int, e.1 as int) == old(penalties).at(
                        e.0 as int,
                        e.1 as int,
                    ));
                    assert forall|x: usize, y: usize|
                        x < tsp.n() && y < tsp.n() implies #[trigger] penalties.at(
                        x as int,
                        y as int,
                    ) == old(penalties).at(x as int, y as int) + (if cell_occurs(
                        edge_buffer@,
                        t2 + 1,
                        x,
                        y,
                    ) && utility_of(*tsp, *old(penalties), x as int, y as int) == max_utility_to(
                        *tsp,
                        *old(penalties),
                        edge_buffer@,
                        n as int,
                    ) {
                        1int
                    } else {
                        0int
                    }) by {
                        if (x == e.0 && y == e.1) || (x == e.1 && y == e.0) {
                            assert(edge_buffer@[t2 as int] == (e.0, e.1));
                            assert(cell_occurs(edge_buffer@, t2 + 1, x, y));
                            assert(utility_of(*tsp, *old(penalties), x as int, y as int)
                                == utility_of(*tsp, *old(penalties), e.0 as int, e.1 as int));
                            assert(utility_of(*tsp, pre_pen, e.0 as int, e.1 as int)
                                == utility_of(*tsp, *old(penalties), e.0 as int, e.1 as int));
                        } else {
                            assert(penalties.at(x as int, y as int) == pre_pen.at(
                                x as int,
                                y as int,
                            ));
                            assert(cell_occurs(edge_buffer@, t2 + 1, x, y) <==> cell_occurs(
                                edge_buffer@,
                                t2 as int,
                                x,
                                y,
                            )) by {
                                if cell_occurs(edge_buffer@, t2 + 1, x, y) && !cell_occurs(
                                    edge_buffer@,
                                    t2 as int,
                                    x,
                                    y,
                                ) {
                                    assert(edge_buffer@[t2 as int] == (x, y) || edge_buffer@[
                                        t2 as int] == (y, x));
                                }
                                if cell_occurs(edge_buffer@, t2 as int, x, y) {
                                    lemma_cell_occurs_grows(edge_buffer@, t2 as int, x, y);
                                }
                            }
                        }
                    }
                }
            }
        } else {
            proof {
                assert forall|x: usize, y: usize|
                    #![trigger penalties.at(x as int, y as int)]
                    x < tsp.n() && y < tsp.n() && penalties.at(x as int, y as int) >= old(
                        penalties,
                    ).at(x as int, y as int) + 1 implies (occ_before(
                    edge_buffer@,
                    t2 + 1,
                    x,
                    y,
                ) || occ_before(edge_buffer@, t2 + 1, y, x)) by {
                    if occ_before(edge_buffer@, t2 as int, x, y) {
                        let uu = choose|uu: int| 0 <= uu < t2 && edge_buffer@[uu] == (x, y);
                        assert(occ_before(edge_buffer@, t2 + 1, x, y));
                    } else if occ_before(edge_buffer@, t2 as int, y, x) {
                        let uu = choose|uu: int| 0 <= uu < t2 && edge_buffer@[uu] == (y, x);
                        assert(occ_before(edge_buffer@, t2 + 1, y, x));
                    }
                }
                assert forall|x: usize, y: usize|
                    #![trigger penalties.at(x as int, y as int)]
                    x < tsp.n() && y < tsp.n() && penalties.at(x as int, y as int) == old(
                        penalties,
                    ).at(x as int, y as int) + 2 implies (occ_before(edge_buffer@, t2 + 1, x, y)
                    && occ_before(edge_buffer@, t2 + 1, y, x)) by {
                    if occ_before(edge_buffer@, t2 as int, x, y) && occ_before(
                        edge_buffer@,
                        t2 as int,
                        y,
                        x,
                    ) {
                        let u1 = choose|uu: int| 0 <= uu < t2 && edge_buffer@[uu] == (x, y);
                        let u2 = choose|uu: int| 0 <= uu < t2 && edge_buffer@[uu] == (y, x);
                        assert(occ_before(edge_buffer@, t2 + 1, x, y) && occ_before(
                            edge_buffer@,
                            t2 + 1,
                            y,
                            x,
                        ));
                    }
                }
                if distinct_cells(edge_buffer@) {
                    lemma_fresh_cell(edge_buffer@, t2 as int, e);
                    assert(penalties.at(e.0 as int, e.1 as int) == old(penalties).at(
                        e.0 as int,
                        e.1 as int,
                    ));
                    assert(utility_of(*tsp, *penalties, e.0 as int, e.1 as int) == utility_of(
                        *tsp,
                        *old(penalties),
                        e.0 as int,
                        e.1 as int,
                    ));
                    assert forall|x: usize, y: usize|
                        x < tsp.n() && y < tsp.n() implies #[trigger] penalties.at(
                        x as int,
                        y as int,
                    ) == old(penalties).at(x as int, y as int) + (if cell_occurs(
                        edge_buffer@,
                        t2 + 1,
                        x,
                        y,
                    ) && utility_of(*tsp, *old(penalties), x as int, y as int) == max_utility_to(
                        *tsp,
                        *old(penalties),
                        edge_buffer@,
                        n as int,
                    ) {
                        1int
                    } else {
                        0int
                    }) by {
                        if (x == e.0 && y == e.1) || (x == e.1 && y == e.0) {
                            assert(edge_buffer@[t2 as int] == (e.0, e.1));
                            assert(utility_of(*tsp, *old(penalties), x as int, y as int)
                                == utility_of(*tsp, *old(penalties), e.0 as int, e.1 as int));
                            assert(!cell_occurs(edge_buffer@, t2 as int, x, y));
                        } else {
                            assert(cell_occurs(edge_buffer@, t2 + 1, x, y) <==> cell_occurs(
                                edge_buffer@,
                                t2 as int,
                                x,
                                y,
                            )) by {
                                if cell_occurs(edge_buffer@, t2 + 1, x, y) && !cell_occurs(
                                    edge_buffer@,
                                    t2 as int,
                                    x,
                                    y,
                                ) {
                                    assert(edge_buffer@[t2 as int] == (x, y) || edge_buffer@[
                                        t2 as int] == (y, x));
                                }
                                if cell_occurs(edge_buffer@, t2 as int, x, y) {
                                    lemma_cell_occurs_grows(edge_buffer@, t2 as int, x, y);
                                }
                            }
                        }
                    }
                }
            }
        }
        t2 = t2 + 1;
    }
}

/// Facts the driver needs about a materialised tour edge list: every edge
/// joins two distinct in-range vertices, and the edges leave pairwise
/// distinct vertices.
proof fn lemma_tour_edge_buffer_facts(adj: Seq<(usize, usize)>, es: Seq<(usize, usize)>)
    requires
        is_hamiltonian_seq(adj),
        es.len() == adj.len(),
        forall|t: int| 0 <= t < es.len() ==> #[trigger] es[t] == edge_at(adj, t),
    ensures
        forall|t: int|
            0 <= t < es.len() ==> (#[trigger] es[t]).0 < adj.len() && es[t].1 < adj.len()
                && es[t].0 != es[t].1,
        forall|t1: int, t2: int| 0 <= t1 < t2 < es.len() ==> es[t1].0 != es[t2].0,
        adj.len() >= 3 ==> distinct_cells(es),
{
    let n = adj.len() as int;
    assert forall|t: int|
        0 <= t < es.len() implies (#[trigger] es[t]).0 < adj.len() && es[t].1 < adj.len()
        && es[t].0 != es[t].1 by {
        lemma_walk_in_bounds(adj, t);
        lemma_walk_in_bounds(adj, t + 1);
        if t == 0 {
            assert(walk_vertex(adj, 1) != walk_vertex(adj, n));
        } else {
            assert(walk_vertex(adj, t) != walk_vertex(adj, t + 1));
        }
    }
    assert forall|t1: int, t2: int| 0 <= t1 < t2 < es.len() implies es[t1].0 != es[t2].0 by {
        if t1 == 0 {
            assert(walk_vertex(adj, t2) != walk_vertex(adj, n));
        } else {
            assert(walk_vertex(adj, t1) != walk_vertex(adj, t2));
        }
    }
    if adj.len() >= 3 {
        assert forall|t1: int, t2: int|
            0 <= t1 < t2 < es.len() implies (#[trigger] es[t1]) != (#[trigger] es[t2]) && es[t1]
            != (es[t2].1, es[t2].0) by {
            // Each edge leaves a distinct vertex, so the lists differ; a
            // reversed match would make the walk revisit a vertex.
            if es[t1] == (es[t2].1, es[t2].0) {
                assert(walk_vertex(adj, t1) == walk_vertex(adj, t2 + 1));
                assert(walk_vertex(adj, t1 + 1) == walk_vertex(adj, t2));
                if t1 == 0 {
                    if t2 + 1 < n {
                        assert(walk_vertex(adj, t2 + 1) != walk_vertex(adj, n));
                    } else {
                        assert(walk_vertex(adj, 1) != walk_vertex(adj, n - 1));
                    }
                } else {
                    assert(walk_vertex(adj, t1) != walk_vertex(adj, t2 + 1));
                }
            }
        }
    }
}

/// Guided local search: descend to a 2-opt local minimum, then repeat
/// `steps` rounds of penalising the highest-utility tour edges and
/// re-optimising against the penalty-augmented matrix, and finish with a
/// final descent under the true matrix. The tour returned is Hamiltonian
/// and a 2-opt local minimum of the true matrix, priced at its true cost.
pub fn gls(tsp: &SymmetricMatrix, steps: usize) -> (r: Route)
    requires
        tsp.wf(),
        tsp.n() >= 2,
        tsp.cells_bounded(u32::MAX as int / tsp.n()),
        tsp.cells_bounded(u32::MAX as int / (2 * steps + 3)),
        2 * steps + 3 <= u32::MAX,
    ensures
        r.path.wf(),
        r.path@.len() == tsp.n(),
        is_hamiltonian_seq(r.path@),
        is_local_minimum(*tsp, r.path@),
        r.cost == tour_cost(*tsp, r.path@),
{
    let size = tsp.size();
    let mut route = tsp.nearest_neighbor();
    local_search(tsp, &mut route.path);
    proof {
        tsp.lemma_cost_fits(route.path@);
    }
    route.cost = tsp.cost(&route.path);
    proof {
        tsp.lemma_wf_facts();
    }
    let mut penalties = SymmetricMatrix::from_size(size);
    let ghost b: int = u32::MAX as int / (2 * (steps as int) + 3);
    proof {
        lemma_tour_cost_bounds(*tsp, route.path@, b);
        assert(size as int <= 0x1_0000_0000int) by (nonlinear_arith)
            requires
                (size as int) * (size as int) <= usize::MAX,
                usize::MAX <= u64::MAX,
                size >= 0,
        ;
    }
    let alpha64: u64 = 3u64 * (route.cost as u64) / (10u64 * (size as u64));
    proof {
        let c = route.cost as int;
        let n = size as int;
        vstd::arithmetic::div_mod::lemma_div_pos_is_pos(u32::MAX as int, 2 * (steps as int) + 3);
        assert(3 * c <= 10 * n * b) by (nonlinear_arith)
            requires
                0 <= c <= n * b,
                0 <= b,
                2 <= n,
        ;
        vstd::arithmetic::div_mod::lemma_div_is_ordered(3 * c, 10 * n * b, 10 * n);
        vstd::arithmetic::div_mod::lemma_div_multiples_vanish(b, 10 * n);
        assert(alpha64 as int == (3 * c) / (10 * n));
        assert(alpha64 as int <= b);
        vstd::arithmetic::div_mod::lemma_fundamental_div_mod(
            u32::MAX as int,
            2 * (steps as int) + 3,
        );
        vstd::arithmetic::div_mod::lemma_mod_division_less_than_divisor(
            u32::MAX as int,
            2 * (steps as int) + 3,
        );
        assert(b * (2 * (steps as int) + 3) <= u32::MAX) by (nonlinear_arith)
            requires
                (2 * (steps as int) + 3) * b + (u32::MAX as int) % (2 * (steps as int) + 3)
                    == u32::MAX as int,
                0 <= (u32::MAX as int) % (2 * (steps as int) + 3),
        ;
        assert(b <= u32::MAX) by (nonlinear_arith)
            requires
                0 <= b,
                b * (2 * (steps as int) + 3) <= u32::MAX,
        ;
    }
    let penalty_factor: u32 = alpha64 as u32;
    let mut work = tsp.clone();
    let mut edge_buffer: Vec<(usize, usize)> = Vec::new();
    let mut k: usize = 0;
    while k < steps
        invariant
            tsp.wf(),
            tsp.n() == size,
            2 <= size,
            tsp.cells_bounded(u32::MAX as int / tsp.n()),
            tsp.cells_bounded(b),
            b == u32::MAX as int / (2 * (steps as int) + 3),
            2 * steps + 3 <= u32::MAX,
            b * (2 * (steps as int) + 3) <= u32::MAX,
            0 <= b,
            penalty_factor as int <= b,
            penalties.wf(),
            penalties.n() == size,
            work.wf(),
            work.n() == size,
            augmented(work, *tsp, penalties, penalty_factor),
            forall|i: int, j: int|
                0 <= i < size && 0 <= j < size ==> #[trigger] penalties.at(i, j) <= 2 * (k as int),
            route.path.wf(),
            is_hamiltonian_seq(route.path@),
            route.path@.len() == size,
            k <= steps,
        decreases steps - k,
    {
        route.path.edges_visited_buffered(&mut edge_buffer);
        proof {
            lemma_tour_edge_buffer_facts(route.path@, edge_buffer@);
            assert forall|i: int, j: int|
                0 <= i < tsp.n() && 0 <= j < tsp.n() implies tsp.at(i, j) + penalty_factor * (
            penalties.at(i, j) + 2) <= u32::MAX by {
                let a = tsp.at(i, j);
                let p = penalties.at(i, j);
                tsp.lemma_wf_facts();
                penalties.lemma_wf_facts();
                assert(a + penalty_factor * (p + 2) <= u32::MAX) by (nonlinear_arith)
                    requires
                        0 <= a <= b,
                        0 <= penalty_factor as int <= b,
                        0 <= p <= 2 * (k as int),
                        k < steps,
                        0 <= b,
                        b * (2 * (steps as int) + 3) <= u32::MAX,
                ;
            }
            assert forall|i: int, j: int|
                0 <= i < tsp.n() && 0 <= j < tsp.n() implies penalties.at(i, j) + 3
                <= u32::MAX by {
                penalties.lemma_wf_facts();
            }
        }
        gls_penalize(tsp, &mut penalties, &mut work, penalty_factor, &edge_buffer);
        local_search(&work, &mut route.path);
        k = k + 1;
    }
    local_search(tsp, &mut route.path);
    proof {
        tsp.lemma_cost_fits(route.path@);
    }
    route.cost = tsp.cost(&route.path);
    route
}

/// The lowest cost among the first `k + 1` entries of a cost history.
pub open spec fn best_so_far(costs: Seq<int>, k: int) -> int
    decreases k,
{
    if k <= 0 {
        costs[0]
    } else if costs[k] < best_so_far(costs, k - 1) {
        costs[k]
    } else {
        best_so_far(costs, k - 1)
    }
}

/// Tracking the minimum of the tour cost across the driver's rounds gives a
/// non-increasing sequence, whatever costs the individual rounds produce.
pub proof fn lemma_best_so_far_monotone(costs: Seq<int>, k1: int, k2: int)
    requires
        0 <= k1 <= k2,
    ensures
        best_so_far(costs, k2) <= best_so_far(costs, k1),
    decreases k2,
{
    if k1 < k2 {
        lemma_best_so_far_monotone(costs, k1, k2 - 1);
    }
}

} // verus!
