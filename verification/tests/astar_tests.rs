use navgraph::astar::{Graph, GraphVertex, PathError, PathKind, Vec3};
use std::time::Instant;

/// Small deterministic generator for pseudo-random grid indices.
struct Lcg(u64);

impl Lcg {
    fn new(seed: u64) -> Lcg {
        Lcg(seed)
    }

    fn gen_range(&mut self, bound: usize) -> usize {
        self.0 = self.0.wrapping_mul(6364136223846793005).wrapping_add(1442695040888963407);
        ((self.0 >> 33) % bound as u64) as usize
    }
}

fn sq_dist(a: Vec3, b: Vec3) -> i64 {
    let dx = a.x as i64 - b.x as i64;
    let dy = a.y as i64 - b.y as i64;
    let dz = a.z as i64 - b.z as i64;
    dx * dx + dy * dy + dz * dz
}

fn grid_graph(size: usize) -> Graph {
    let mut pathfinder = Graph::new();
    let mut vertices = Vec::new();
    for y in 0..size {
        for x in 0..size {
            vertices.push(GraphVertex::new(Vec3::new(x as i32, y as i32, 0)));
        }
    }
    pathfinder.set_vertices(vertices);
    for y in 0..(size - 1) {
        for x in 0..(size - 1) {
            pathfinder.link_bidirect(y * size + x, y * size + x + 1);
            pathfinder.link_bidirect(y * size + x, (y + 1) * size + x);
        }
    }
    pathfinder
}

fn assert_waypoints_adjacent(path: &[Vec3]) {
    for pair in path.chunks(2) {
        if pair.len() == 2 {
            assert!(sq_dist(pair[0], pair[1]) <= 2);
        }
    }
}

#[test]
fn astar_random_points() {
    let mut pathfinder = Graph::new();

    let mut path = Vec::new();
    assert!(pathfinder.build(0, 0, &mut path).is_ok());
    assert!(path.is_empty());

    let size = 40;

    let mut vertices = Vec::new();
    for y in 0..size {
        for x in 0..size {
            vertices.push(GraphVertex::new(Vec3::new(x as i32, y as i32, 0)));
        }
    }
    pathfinder.set_vertices(vertices);

    assert!(pathfinder.build(100000, 99999, &mut path).is_err());

    for y in 0..(size - 1) {
        for x in 0..(size - 1) {
            pathfinder.link_bidirect(y * size + x, y * size + x + 1);
            pathfinder.link_bidirect(y * size + x, (y + 1) * size + x);
        }
    }

    let mut paths_count = 0;
    let mut rng = Lcg::new(42);

    for _ in 0..1000 {
        let sx = rng.gen_range(size - 1);
        let sy = rng.gen_range(size - 1);

        let tx = rng.gen_range(size - 1);
        let ty = rng.gen_range(size - 1);

        let from = sy * size + sx;
        let to = ty * size + tx;

        let kind = pathfinder.build(from, to, &mut path).unwrap();
        assert!(!path.is_empty());

        // The frontier search visits each vertex once under a fixed budget:
        // it reports `Full` exactly when its best candidate ends on the
        // goal, and a best effort towards it otherwise.
        if kind == PathKind::Full {
            paths_count += 1;
            assert_eq!(*path.first().unwrap(), pathfinder.vertex(to).unwrap().data.position);
        }
        assert_eq!(*path.last().unwrap(), pathfinder.vertex(from).unwrap().data.position);

        assert_waypoints_adjacent(&path);
    }

    assert!(paths_count > 0);
}

#[test]
fn test_remove_vertex() {
    let mut pathfinder = Graph::new();

    pathfinder.add_vertex(GraphVertex::new(Vec3::new(0, 0, 0)));
    pathfinder.add_vertex(GraphVertex::new(Vec3::new(1, 0, 0)));
    pathfinder.add_vertex(GraphVertex::new(Vec3::new(1, 1, 0)));

    pathfinder.link_bidirect(0, 1);
    pathfinder.link_bidirect(1, 2);
    pathfinder.link_bidirect(2, 0);

    pathfinder.remove_vertex(0);

    assert_eq!(pathfinder.vertex(0).unwrap().data.neighbours, vec![1]);
    assert_eq!(pathfinder.vertex(1).unwrap().data.neighbours, vec![0]);
    assert_eq!(pathfinder.vertex(2), None);

    pathfinder.remove_vertex(0);

    assert_eq!(pathfinder.vertex(0).unwrap().data.neighbours, vec![]);
    assert_eq!(pathfinder.vertex(1), None);
    assert_eq!(pathfinder.vertex(2), None);
}

#[test]
fn test_insert_vertex() {
    let mut pathfinder = Graph::new();

    pathfinder.add_vertex(GraphVertex::new(Vec3::new(0, 0, 0)));
    pathfinder.add_vertex(GraphVertex::new(Vec3::new(1, 0, 0)));
    pathfinder.add_vertex(GraphVertex::new(Vec3::new(1, 1, 0)));

    pathfinder.link_bidirect(0, 1);
    pathfinder.link_bidirect(1, 2);
    pathfinder.link_bidirect(2, 0);

    assert_eq!(pathfinder.vertex(0).unwrap().data.neighbours, vec![1, 2]);
    assert_eq!(pathfinder.vertex(1).unwrap().data.neighbours, vec![0, 2]);
    assert_eq!(pathfinder.vertex(2).unwrap().data.neighbours, vec![1, 0]);

    pathfinder.insert_vertex(0, GraphVertex::new(Vec3::new(1, 1, 1)));

    assert_eq!(pathfinder.vertex(0).unwrap().data.neighbours, vec![]);
    assert_eq!(pathfinder.vertex(1).unwrap().data.neighbours, vec![2, 3]);
    assert_eq!(pathfinder.vertex(2).unwrap().data.neighbours, vec![1, 3]);
    assert_eq!(pathfinder.vertex(3).unwrap().data.neighbours, vec![2, 1]);
}

#[test]
fn astar_complete_grid_benchmark() {
    let start_time = Instant::now();
    let mut path = Vec::new();

    println!();
    for size in [10, 40, 100, 500] {
        println!("benchmarking grid size of: {}^2", size);
        let setup_start_time = Instant::now();

        let pathfinder = grid_graph(size);

        let setup_complete_time = Instant::now();
        println!("setup in: {:?}", setup_complete_time.duration_since(setup_start_time));

        let mut rng = Lcg::new(7);
        for _ in 0..1000 {
            let sx = rng.gen_range(size - 1);
            let sy = rng.gen_range(size - 1);

            let tx = rng.gen_range(size - 1);
            let ty = rng.gen_range(size - 1);

            let from = sy * size + sx;
            let to = ty * size + tx;

            let kind = pathfinder.build(from, to, &mut path).unwrap();
            assert!(!path.is_empty());

            if kind == PathKind::Full {
                assert_eq!(*path.first().unwrap(), pathfinder.vertex(to).unwrap().data.position);
            }
            assert_eq!(*path.last().unwrap(), pathfinder.vertex(from).unwrap().data.position);

            assert_waypoints_adjacent(&path);
        }
        println!("paths found in: {:?}", setup_complete_time.elapsed());
        println!("Current size complete in: {:?}\n", setup_start_time.elapsed());
    }
    println!("Total time: {:?}\n", start_time.elapsed());
}

#[test]
fn astar_island_benchmark() {
    let start_time = Instant::now();

    let size = 100;
    let mut path = Vec::new();
    let mut pathfinder = Graph::new();

    let mut vertices = Vec::new();
    for y in 0..size {
        for x in 0..size {
            vertices.push(GraphVertex::new(Vec3::new(x as i32, y as i32, 0)));
        }
    }
    pathfinder.set_vertices(vertices);

    // Separates the grid half way down the y-axis.
    for y in 0..(size - 1) {
        for x in 0..(size - 1) {
            if x != (size / 2) - 1 {
                pathfinder.link_bidirect(y * size + x, y * size + x + 1);
            }
            pathfinder.link_bidirect(y * size + x, (y + 1) * size + x);
        }
    }

    let setup_complete_time = Instant::now();
    println!("\nsetup in: {:?}", setup_complete_time.duration_since(start_time));

    let mut rng = Lcg::new(11);
    for _ in 0..100 {
        // A random start point on the left half of the grid.
        let sx = rng.gen_range(size / 2 - 1);
        let sy = rng.gen_range(size - 1);

        // A random end point on the right half of the grid.
        let tx = size / 2 + rng.gen_range(size / 2 - 1);
        let ty = rng.gen_range(size - 1);

        let from = sy * size + sx;
        let to = ty * size + tx;

        let path_result = pathfinder.build(from, to, &mut path);

        assert!(path_result.is_ok());
        assert_eq!(path_result.unwrap(), PathKind::Partial);
        assert!(!path.is_empty());

        if path.len() > 1 {
            // The partial path should end along the divide.
            assert_eq!(path.first().unwrap().x, (size / 2 - 1) as i32);
            assert_eq!(*path.last().unwrap(), pathfinder.vertex(from).unwrap().data.position);
        } else {
            let point = *path.first().unwrap();
            assert_eq!(point, pathfinder.vertex(to).unwrap().data.position);
            assert_eq!(point, pathfinder.vertex(from).unwrap().data.position);
        }

        assert_waypoints_adjacent(&path);
    }

    println!("paths found in: {:?}", setup_complete_time.elapsed());
    println!("Total time: {:?}\n", start_time.elapsed());
}

#[test]
fn astar_backwards_travel_benchmark() {
    let start_time = Instant::now();

    let size = 100;
    let mut path = Vec::new();
    let mut pathfinder = Graph::new();

    let mut vertices = Vec::new();
    for y in 0..size {
        for x in 0..size {
            vertices.push(GraphVertex::new(Vec3::new(x as i32, y as i32, 0)));
        }
    }
    pathfinder.set_vertices(vertices);

    // Separates the grid diagonally, leaving one connection in the corner.
    for y in 0..(size - 1) {
        for x in (0..(size - 1)).rev() {
            if y == 0 || x != y {
                pathfinder.link_bidirect(y * size + x, y * size + x + 1);
                pathfinder.link_bidirect(y * size + x, (y + 1) * size + x);
            }
        }
    }

    let setup_complete_time = Instant::now();
    println!("\nsetup in: {:?}", setup_complete_time.duration_since(start_time));

    for _ in 0..100 {
        // A point on the center right edge.
        let from = (size / 2) * size + (size - 1);
        // A point on the center top edge.
        let to = (size - 1) * size + (size / 2);

        let kind = pathfinder.build(from, to, &mut path).unwrap();
        assert!(!path.is_empty());

        if kind == PathKind::Full {
            assert_eq!(*path.first().unwrap(), pathfinder.vertex(to).unwrap().data.position);
        }
        assert_eq!(*path.last().unwrap(), pathfinder.vertex(from).unwrap().data.position);

        assert_waypoints_adjacent(&path);
    }

    println!("paths found in: {:?}", setup_complete_time.elapsed());
    println!("Total time: {:?}\n", start_time.elapsed());
}
