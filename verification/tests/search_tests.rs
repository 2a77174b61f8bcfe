use lin_kernighan::gls;
use lin_kernighan::local_search;
use lin_kernighan::matrix::SymmetricMatrix;

fn collinear_matrix() -> SymmetricMatrix {
    let coords = vec![
        (2830, 40),
        (2830, 77),
        (2830, 114),
        (2831, 155),
        (2830, 194),
        (2831, 231),
        (2831, 269),
        (2831, 309),
        (2830, 347),
        (2830, 384),
    ];
    SymmetricMatrix::from_euc_2d(&coords)
}

fn five_matrix() -> SymmetricMatrix {
    let data = vec![
        0, 1, 2, 5, 3,
        1, 0, 7, 4, 8,
        2, 7, 0, 1, 3,
        5, 4, 1, 0, 5,
        3, 8, 3, 5, 0,
    ];
    let mut m = SymmetricMatrix::from_size(5);
    for i in 0..5usize {
        for j in (i + 1)..5usize {
            m.set(i, j, data[i * 5 + j]);
        }
    }
    m
}

fn vertices_of(path: &lin_kernighan::path::Path) -> Vec<usize> {
    let mut it = path.vertices_visited();
    let mut vs: Vec<usize> = Vec::new();
    while let Some(v) = it.next() {
        vs.push(v);
    }
    vs
}

// Ten nearly collinear points: the greedy sweep is already optimal, so the
// search and the driver both keep it.
#[test]
fn collinear_sweep_is_stable() {
    let m = collinear_matrix();
    let route = m.nearest_neighbor();
    assert_eq!(
        vertices_of(&route.path),
        vec![1usize, 2, 3, 4, 5, 6, 7, 8, 9, 0]
    );
    assert_eq!(route.cost, 688);

    let mut path = route.path;
    let before = vertices_of(&path);
    local_search(&m, &mut path);
    assert_eq!(vertices_of(&path), before);
    assert_eq!(m.cost(&path), 688);

    let driven = gls(&m, 100);
    assert_eq!(driven.cost, 688);
}

// Five vertices with an explicit weight table: greedy finds cost 12 and the
// search never worsens it.
#[test]
fn five_vertex_search() {
    let m = five_matrix();
    let route = m.nearest_neighbor();
    assert_eq!(route.cost, 12);
    let mut path = route.path;
    local_search(&m, &mut path);
    assert!(m.cost(&path) <= 12);
    assert!(path.is_hamiltonian());
}

// Any triangle: the single tour is optimal and both search layers keep it.
#[test]
fn triangle_is_trivial() {
    let coords = vec![(0, 0), (10, 0), (0, 10)];
    let m = SymmetricMatrix::from_euc_2d(&coords);
    let route = m.nearest_neighbor();
    assert_eq!(route.cost, 10 + 14 + 10);
    let mut path = route.path;
    let before = vertices_of(&path);
    local_search(&m, &mut path);
    assert_eq!(vertices_of(&path), before);
    let driven = gls(&m, 10);
    assert_eq!(driven.cost, 34);
}

// A unit square: greedy walks the perimeter at cost 4 and the search keeps
// the perimeter.
#[test]
fn unit_square_perimeter() {
    let coords = vec![(0, 0), (0, 1), (1, 1), (1, 0)];
    let m = SymmetricMatrix::from_euc_2d(&coords);
    let route = m.nearest_neighbor();
    assert_eq!(route.cost, 4);
    assert_eq!(vertices_of(&route.path), vec![1usize, 2, 3, 0]);
    let mut path = route.path;
    local_search(&m, &mut path);
    assert_eq!(m.cost(&path), 4);
}

// A 3 x 1 rectangle visited in index order crosses itself; the search must
// uncross it down to the optimal perimeter. This fails if the parallel scan
// misreports an improving pair.
#[test]
fn rectangle_uncrossed() {
    let coords = vec![(0, 0), (3, 0), (0, 1), (3, 1)];
    let m = SymmetricMatrix::from_euc_2d(&coords);
    let route = m.sequential();
    assert_eq!(route.cost, 12);
    let mut path = route.path;
    local_search(&m, &mut path);
    assert_eq!(m.cost(&path), 8);
    assert!(path.is_hamiltonian());
}

// Running the search twice in a row performs no further change: the first
// run already reached a local minimum.
#[test]
fn local_search_idempotent() {
    let m = five_matrix();
    let mut path = m.sequential().path;
    local_search(&m, &mut path);
    let after_first = vertices_of(&path);
    let snapshot = m.cost(&path);
    local_search(&m, &mut path);
    assert_eq!(vertices_of(&path), after_first);
    assert_eq!(m.cost(&path), snapshot);
}

// At return from the driver the tour is a local minimum of the true matrix:
// one more search pass changes nothing.
#[test]
fn gls_final_optimality() {
    let m = five_matrix();
    let driven = gls(&m, 25);
    let mut path = driven.path;
    let before = vertices_of(&path);
    let cost_before = m.cost(&path);
    assert_eq!(cost_before, driven.cost);
    local_search(&m, &mut path);
    assert_eq!(vertices_of(&path), before);
    assert_eq!(m.cost(&path), cost_before);
}

// The driver reports the true cost of the tour it returns, and the tour is
// Hamiltonian.
#[test]
fn gls_reports_true_cost() {
    let m = collinear_matrix();
    let driven = gls(&m, 5);
    assert!(driven.path.is_hamiltonian());
    let mut it = driven.path.edges_visited();
    let mut total: u32 = 0;
    while let Some((a, b)) = it.next() {
        total += m.get(a, b);
    }
    assert_eq!(driven.cost, total);
}
