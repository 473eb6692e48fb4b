use navgraph::astar::{
    Graph, GraphVertex, PartialPath, PathError, PathKind, Vec3, squared_distance,
};

fn sq_dist(a: Vec3, b: Vec3) -> i64 {
    let dx = a.x as i64 - b.x as i64;
    let dy = a.y as i64 - b.y as i64;
    let dz = a.z as i64 - b.z as i64;
    dx * dx + dy * dy + dz * dz
}

fn grid_graph(size: usize) -> Graph {
    let mut pathfinder = Graph::new();
    let mut vertices = Vec::new();
    for y in 0..size {
        for x in 0..size {
            vertices.push(GraphVertex::new(Vec3::new(x as i32, y as i32, 0)));
        }
    }
    pathfinder.set_vertices(vertices);
    for y in 0..(size - 1) {
        for x in 0..(size - 1) {
            pathfinder.link_bidirect(y * size + x, y * size + x + 1);
            pathfinder.link_bidirect(y * size + x, (y + 1) * size + x);
        }
    }
    pathfinder
}

#[test]
fn search_connected_grid_full() {
    let size = 10;
    let mut pathfinder = grid_graph(size);
    let mut path = Vec::new();

    for (from, to) in [(0, size * size - 2), (3, 77), (55, 55), (90, 9)] {
        let result = pathfinder.search(from, to, &mut path);
        assert_eq!(result, Ok(PathKind::Full));
        assert!(!path.is_empty());
        assert_eq!(*path.first().unwrap(), pathfinder.vertex(to).unwrap().data.position);
        assert_eq!(*path.last().unwrap(), pathfinder.vertex(from).unwrap().data.position);
        for pair in path.windows(2) {
            assert!(sq_dist(pair[0], pair[1]) <= 2);
        }
    }
}

#[test]
fn search_grid_random_pairs_all_full() {
    let size = 40;
    let mut pathfinder = grid_graph(size);
    let mut path = Vec::new();
    let mut state: u64 = 123;
    for _ in 0..200 {
        state = state.wrapping_mul(6364136223846793005).wrapping_add(1442695040888963407);
        let a = ((state >> 33) as usize) % (size * size);
        state = state.wrapping_mul(6364136223846793005).wrapping_add(1442695040888963407);
        let b = ((state >> 33) as usize) % (size * size);
        // The classical scan is complete: on a connected grid every valid
        // query yields a full path with the queried endpoints.
        let result = pathfinder.search(a, b, &mut path);
        assert_eq!(result, Ok(PathKind::Full));
        assert!(!path.is_empty());
        assert_eq!(*path.first().unwrap(), pathfinder.vertex(b).unwrap().data.position);
        assert_eq!(*path.last().unwrap(), pathfinder.vertex(a).unwrap().data.position);
        for pair in path.windows(2) {
            assert!(sq_dist(pair[0], pair[1]) <= 2);
        }
    }
}

#[test]
fn search_empty_graph() {
    let mut pathfinder = Graph::new();
    let mut path = vec![Vec3::new(9, 9, 9)];

    let result = pathfinder.search(0, 0, &mut path);
    assert_eq!(result, Ok(PathKind::Partial));
    assert!(path.is_empty());

    let mut path = vec![Vec3::new(9, 9, 9)];
    let result = pathfinder.build(0, 0, &mut path);
    assert_eq!(result, Ok(PathKind::Partial));
    assert!(path.is_empty());
}

#[test]
fn search_invalid_indices() {
    let mut pathfinder = grid_graph(4);
    let mut path = Vec::new();

    assert_eq!(pathfinder.search(0, 99, &mut path), Err(PathError::InvalidIndex(99)));
    assert!(path.is_empty());
    assert_eq!(pathfinder.search(77, 3, &mut path), Err(PathError::InvalidIndex(77)));

    assert_eq!(pathfinder.build(0, 99, &mut path), Err(PathError::InvalidIndex(99)));
    assert_eq!(pathfinder.build(77, 3, &mut path), Err(PathError::InvalidIndex(77)));

    // A dangling neighbour reference is reported when the search reaches it.
    let mut broken = Graph::new();
    broken.add_vertex(GraphVertex::new(Vec3::new(0, 0, 0)));
    broken.add_vertex(GraphVertex::new(Vec3::new(1, 0, 0)));
    broken.link_unidirect(0, 1);
    broken.link_unidirect(1, 5);
    assert_eq!(broken.search(0, 1, &mut path), Ok(PathKind::Full));
    assert_eq!(broken.search(1, 0, &mut path), Err(PathError::InvalidIndex(5)));
}

#[test]
fn search_disconnected_partial() {
    // Two separate squares: 0..=3 and 4..=7.
    let mut pathfinder = Graph::new();
    for (x, y) in [(0, 0), (1, 0), (1, 1), (0, 1)] {
        pathfinder.add_vertex(GraphVertex::new(Vec3::new(x, y, 0)));
    }
    for (x, y) in [(10, 0), (11, 0), (11, 1), (10, 1)] {
        pathfinder.add_vertex(GraphVertex::new(Vec3::new(x, y, 0)));
    }
    for (a, b) in [(0, 1), (1, 2), (2, 3), (3, 0), (4, 5), (5, 6), (6, 7), (7, 4)] {
        pathfinder.link_bidirect(a, b);
    }

    let mut path = Vec::new();
    let result = pathfinder.search(0, 6, &mut path);
    assert_eq!(result, Ok(PathKind::Partial));
    assert!(!path.is_empty());
    // The far end of the path stays inside the island of the start vertex.
    assert!(path.first().unwrap().x <= 1);
    assert_eq!(*path.last().unwrap(), pathfinder.vertex(0).unwrap().data.position);

    let result = pathfinder.build(0, 6, &mut path);
    assert_eq!(result, Ok(PathKind::Partial));
    assert!(path.first().unwrap().x <= 1);
}

#[test]
fn search_self_loop_reports_cycle() {
    let mut pathfinder = Graph::new();
    pathfinder.add_vertex(GraphVertex::new(Vec3::new(0, 0, 0)));
    pathfinder.add_vertex(GraphVertex::new(Vec3::new(1, 0, 0)));
    pathfinder.add_vertex(GraphVertex::new(Vec3::new(5, 5, 0)));
    pathfinder.link_bidirect(0, 1);
    // Vertex 1 lists itself: a corrupted adjacency entry.
    pathfinder.vertex_mut(1).unwrap().data.neighbours.push(1);

    let mut path = Vec::new();
    // The goal is unreachable, so the scan must run into the self-loop.
    let result = pathfinder.search(0, 2, &mut path);
    assert_eq!(result, Err(PathError::CyclicReferenceFound(1)));

    // A self-loop the scan cannot reach is never reported.
    let mut quiet = Graph::new();
    quiet.add_vertex(GraphVertex::new(Vec3::new(0, 0, 0)));
    quiet.add_vertex(GraphVertex::new(Vec3::new(1, 0, 0)));
    quiet.add_vertex(GraphVertex::new(Vec3::new(5, 5, 0)));
    quiet.link_bidirect(0, 1);
    quiet.vertex_mut(2).unwrap().data.neighbours.push(2);
    assert_eq!(quiet.search(0, 1, &mut path), Ok(PathKind::Full));
    assert_eq!(quiet.search(0, 2, &mut path), Ok(PathKind::Partial));
}

#[test]
fn insert_then_remove_restores_adjacency() {
    let mut pathfinder = Graph::new();
    pathfinder.add_vertex(GraphVertex::new(Vec3::new(0, 0, 0)));
    pathfinder.add_vertex(GraphVertex::new(Vec3::new(1, 0, 0)));
    pathfinder.add_vertex(GraphVertex::new(Vec3::new(1, 1, 0)));
    pathfinder.link_bidirect(0, 1);
    pathfinder.link_bidirect(1, 2);
    pathfinder.link_bidirect(2, 0);

    let before: Vec<Vec<u32>> = (0..3)
        .map(|i| pathfinder.vertex(i).unwrap().data.neighbours.clone())
        .collect();

    pathfinder.insert_vertex(1, GraphVertex::new(Vec3::new(7, 7, 7)));
    pathfinder.remove_vertex(1);

    let after: Vec<Vec<u32>> = (0..3)
        .map(|i| pathfinder.vertex(i).unwrap().data.neighbours.clone())
        .collect();
    assert_eq!(before, after);
}

#[test]
fn mutations_keep_neighbours_in_range() {
    let mut pathfinder = Graph::new();
    for i in 0..6 {
        pathfinder.add_vertex(GraphVertex::new(Vec3::new(i, 0, 0)));
    }
    for (a, b) in [(0, 1), (1, 2), (2, 3), (3, 4), (4, 5), (5, 0)] {
        pathfinder.link_bidirect(a, b);
    }
    pathfinder.remove_vertex(2);
    pathfinder.insert_vertex(1, GraphVertex::new(Vec3::new(9, 0, 0)));
    pathfinder.pop_vertex();
    pathfinder.remove_vertex(0);

    let count = pathfinder.vertices().len() as u32;
    for v in pathfinder.vertices() {
        for n in &v.data.neighbours {
            assert!(*n < count);
        }
    }
}

#[test]
fn remove_vertex_deletes_every_matching_entry() {
    let mut g = Graph::new();
    g.add_vertex(GraphVertex::new(Vec3::new(0, 0, 0)));
    g.add_vertex(GraphVertex::new(Vec3::new(1, 0, 0)));
    g.add_vertex(GraphVertex::new(Vec3::new(2, 0, 0)));
    // Vertex 0 lists vertex 2 twice around a reference to vertex 1.
    let v0 = g.vertex_mut(0).unwrap();
    v0.data.neighbours.push(2);
    v0.data.neighbours.push(1);
    v0.data.neighbours.push(2);

    let removed = g.remove_vertex(2);

    // The removed vertex comes back exactly as it stood.
    assert_eq!(removed.data.position, Vec3::new(2, 0, 0));
    // Both entries naming the removed vertex are gone; no reference can
    // dangle, duplicates or not.
    assert_eq!(g.vertex(0).unwrap().data.neighbours, vec![1]);
    let count = g.vertices().len() as u32;
    for v in g.vertices() {
        for n in &v.data.neighbours {
            assert!(*n < count);
        }
    }
}

#[test]
fn pop_vertex_returns_the_last_vertex_as_stored() {
    let mut g = Graph::new();
    g.add_vertex(GraphVertex::new(Vec3::new(0, 0, 0)));
    g.add_vertex(GraphVertex::new(Vec3::new(1, 0, 0)));
    g.add_vertex(GraphVertex::new(Vec3::new(1, 1, 0)));
    g.link_bidirect(0, 1);
    g.link_bidirect(1, 2);
    g.link_bidirect(2, 0);

    let popped = g.pop_vertex().unwrap();
    assert_eq!(popped.data.neighbours, vec![1, 0]);
    assert_eq!(g.vertex(0).unwrap().data.neighbours, vec![1]);
    assert_eq!(g.vertex(1).unwrap().data.neighbours, vec![0]);
}

#[test]
fn insert_vertex_keeps_the_inserted_list() {
    let mut g = Graph::new();
    g.add_vertex(GraphVertex::new(Vec3::new(0, 0, 0)));
    g.add_vertex(GraphVertex::new(Vec3::new(1, 0, 0)));
    g.link_bidirect(0, 1);
    let mut v = GraphVertex::new(Vec3::new(5, 5, 5));
    v.data.neighbours.push(0);

    g.insert_vertex(0, v);

    // The inserted vertex's own list already speaks of the new numbering
    // and is left alone; every other reference moved up with its target.
    assert_eq!(g.vertex(0).unwrap().data.neighbours, vec![0]);
    assert_eq!(g.vertex(1).unwrap().data.neighbours, vec![2]);
    assert_eq!(g.vertex(2).unwrap().data.neighbours, vec![1]);
}

#[test]
fn get_closest_vertex_to_picks_minimum() {
    let mut pathfinder = Graph::new();
    assert_eq!(pathfinder.get_closest_vertex_to(Vec3::new(0, 0, 0)), None);

    pathfinder.add_vertex(GraphVertex::new(Vec3::new(0, 0, 0)));
    pathfinder.add_vertex(GraphVertex::new(Vec3::new(5, 0, 0)));
    pathfinder.add_vertex(GraphVertex::new(Vec3::new(2, 2, 0)));
    pathfinder.add_vertex(GraphVertex::new(Vec3::new(2, 2, 0)));

    assert_eq!(pathfinder.get_closest_vertex_to(Vec3::new(4, 0, 0)), Some(1));
    // Ties go to the first vertex.
    assert_eq!(pathfinder.get_closest_vertex_to(Vec3::new(2, 2, 5)), Some(2));
}

#[test]
fn squared_distance_formula() {
    let a = Vec3::new(1, 2, 3);
    let b = Vec3::new(4, -2, 3);
    assert_eq!(squared_distance(a, b), 25);
    assert_eq!(squared_distance(a, a), 0);
    // A distance too large for the cost range saturates instead of wrapping.
    let far1 = Vec3::new(i32::MAX, i32::MAX, i32::MAX);
    let far2 = Vec3::new(i32::MIN, i32::MIN, i32::MIN);
    assert_eq!(squared_distance(far1, far2), u64::MAX);
}

#[test]
fn build_single_vertex_reports_empty() {
    let mut pathfinder = Graph::new();
    pathfinder.add_vertex(GraphVertex::new(Vec3::new(0, 0, 0)));
    let mut path = Vec::new();
    // The frontier search never records a candidate that only holds the
    // start vertex, so a goal equal to an isolated start yields `Empty`.
    assert_eq!(pathfinder.build(0, 0, &mut path), Err(PathError::Empty));

    // The classical scan handles the same query as a trivial full path.
    assert_eq!(pathfinder.search(0, 0, &mut path), Ok(PathKind::Full));
    assert_eq!(path, vec![Vec3::new(0, 0, 0)]);
}

#[test]
fn partial_path_ordering() {
    let base = PartialPath::new(3);
    let a = base.clone_and_add(4, 10, 30);
    let b = base.clone_and_add(5, 25, 30);
    let c = base.clone_and_add(6, 5, 40);
    // Equal estimates: the path with less left to cover wins.
    assert!(b.beats(&a));
    assert!(!a.beats(&b));
    // A lower estimate wins outright.
    assert!(a.beats(&c));
    // A fresh start path never beats a recorded candidate.
    assert!(!base.beats(&a));
}
