use lin_kernighan::path::HamiltonianResult;
use lin_kernighan::path::Path;

fn get_path() -> Path {
    Path::new(vec![(1, 4), (0, 3), (3, 4), (1, 2), (0, 2)])
}

#[test]
fn vertices() {
    let path = get_path();
    let mut it = path.vertices_visited();
    let mut actual: Vec<usize> = Vec::new();
    while let Some(v) = it.next() {
        actual.push(v);
    }
    let expected = vec![1usize, 3, 2, 4, 0];
    assert_eq!(actual, expected);
}

#[test]
fn edges() {
    let path = get_path();
    let mut it = path.edges_visited();
    let mut actual: Vec<(usize, usize)> = Vec::new();
    while let Some(e) = it.next() {
        actual.push(e);
    }
    let expected = vec![(0usize, 1usize), (1, 3), (3, 2), (2, 4), (4, 0)];
    assert_eq!(actual, expected);
}

#[test]
fn all() {
    let path = Path::new(vec![
        (1usize, 7usize),
        (0, 2),
        (1, 3),
        (2, 4),
        (3, 5),
        (4, 6),
        (5, 7),
        (6, 0),
    ]);
    assert_eq!(path.check_hamiltonian(), HamiltonianResult::Valid);
    assert!(path.is_hamiltonian());
}

#[test]
fn last_has_no_edge_back() {
    let path = Path::new(vec![
        (1usize, 1usize),
        (0, 2),
        (1, 3),
        (2, 4),
        (3, 5),
        (4, 6),
        (5, 7),
        (6, 0),
    ]);
    assert_eq!(
        path.check_hamiltonian(),
        HamiltonianResult::NoEdgeBack(7, 0, (1, 1))
    );
}

#[test]
fn disconnected_012_34567() {
    let path = Path::new(vec![
        (1usize, 2usize),
        (0, 2),
        (1, 0),
        (4, 7),
        (3, 5),
        (4, 6),
        (5, 7),
        (6, 3),
    ]);
    assert_eq!(path.check_hamiltonian(), HamiltonianResult::NotVisited(3));
}

// A tour on eight vertices with a known crossing: removing the edges (0, 1)
// and (4, 5) and reconnecting crosswise reverses the segment in between and
// rewrites exactly four adjacency slots.
#[test]
fn twist_regression() {
    let mut path = Path::new(vec![
        (1usize, 7usize),
        (0, 2),
        (1, 3),
        (2, 4),
        (3, 5),
        (4, 6),
        (5, 7),
        (6, 0),
    ]);
    path.twist((0, 1), (4, 5));
    let expected = Path::new(vec![
        (4usize, 7usize),
        (5, 2),
        (1, 3),
        (2, 4),
        (3, 0),
        (1, 6),
        (5, 7),
        (6, 0),
    ]);
    assert_eq!(path, expected);
    assert!(path.is_hamiltonian());
    let mut it = path.vertices_visited();
    let mut actual: Vec<usize> = Vec::new();
    while let Some(v) = it.next() {
        actual.push(v);
    }
    assert_eq!(actual, vec![4usize, 3, 2, 1, 5, 6, 7, 0]);
}

// The vertex and edge traversals describe the same cycle: each edge joins
// the previous yielded vertex to the next, starting from vertex 0.
#[test]
fn traversals_round_trip() {
    let path = get_path();
    let mut vit = path.vertices_visited();
    let mut vs: Vec<usize> = Vec::new();
    while let Some(v) = vit.next() {
        vs.push(v);
    }
    let mut eit = path.edges_visited();
    let mut es: Vec<(usize, usize)> = Vec::new();
    while let Some(e) = eit.next() {
        es.push(e);
    }
    assert_eq!(vs.len(), es.len());
    assert_eq!(es[0].0, 0);
    assert_eq!(es[0].0, vs[vs.len() - 1]);
    for k in 0..es.len() {
        assert_eq!(es[k].1, vs[k]);
        if k > 0 {
            assert_eq!(es[k].0, vs[k - 1]);
        }
    }
}

// Filling the adjacency slots edge by edge builds the expected tour.
#[test]
fn init_edges_builds_cycle() {
    let mut path = Path::uninitialized(4);
    path.init_edge(0, 2);
    path.init_edge(2, 1);
    path.init_edge(1, 3);
    path.init_edge(3, 0);
    assert!(path.is_hamiltonian());
    let mut it = path.vertices_visited();
    let mut actual: Vec<usize> = Vec::new();
    while let Some(v) = it.next() {
        actual.push(v);
    }
    assert_eq!(actual, vec![2usize, 1, 3, 0]);
}

// The candidate cursor starts two edges past the given one and stops before
// the walk closes.
#[test]
fn edges_after() {
    let path = get_path();
    let mut it = path.edges_visited_after(0, 1);
    let mut actual: Vec<(usize, usize)> = Vec::new();
    while let Some(e) = it.next() {
        actual.push(e);
    }
    assert_eq!(actual, vec![(3usize, 2usize), (2, 4), (4, 0)]);
}
