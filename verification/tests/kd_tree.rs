use kd_particles::gen_grid2d::{Grid2D, Points2D};
use kd_particles::kd_tree::KDTree;
use rand::{Rng, SeedableRng};

/// Scale for embedding unit-disk coordinates as fixed-point integers.
const SCALE: f64 = 1099511627776.0; // 2^40

fn scaled(v: f64) -> i64 {
    (v * SCALE) as i64
}

fn push_scaled(points: &mut Points2D, x: f64, y: f64) {
    points.push(scaled(x), scaled(y));
}

fn sample_square(rng: &mut rand::rngs::StdRng, n: usize) -> Points2D {
    let mut vec = Points2D::new();
    for _ in 0..n {
        let x_r = 2.0 * (rng.gen::<f64>() - 0.5);
        let y_r = 2.0 * (rng.gen::<f64>() - 0.5);
        push_scaled(&mut vec, x_r, y_r);
    }
    vec
}

fn search(tree: &KDTree, x: i64, y: i64, radius: i64) -> Vec<usize> {
    let mut near: Vec<usize> = Vec::new();
    tree.search_points_id(&Grid2D::new(x, y), radius, &mut near, 0);
    near
}

fn brute_force(points: &Points2D, x: i64, y: i64, radius: i64) -> Vec<usize> {
    let q = Grid2D::new(x, y);
    let r2 = (radius as i128) * (radius as i128);
    let mut near: Vec<usize> = Vec::new();
    for (i, p) in points.points.iter().enumerate() {
        if p.distance_square(&q) < r2 {
            near.push(i);
        }
    }
    near
}

fn assert_same_set(mut a: Vec<usize>, mut b: Vec<usize>) {
    a.sort();
    b.sort();
    assert_eq!(a, b);
}

#[test]
fn tree_1() {
    let seed: [u8; 32] = [1; 32];
    let mut rng: rand::rngs::StdRng = rand::SeedableRng::from_seed(seed);
    let num_point: usize = 600;

    let vec = sample_square(&mut rng, num_point);
    let tree = KDTree::construct_kd_tree(&vec);

    assert_eq!(tree.depth(), 20);
    assert_eq!(tree.size(), 600);
}

#[test]
fn tree_2() {
    let seed: [u8; 32] = [1; 32];
    let mut rng: rand::rngs::StdRng = rand::SeedableRng::from_seed(seed);
    let num_point: usize = 10;

    let vec = sample_square(&mut rng, num_point);
    let tree = KDTree::construct_kd_tree(&vec);

    let near = search(&tree, 0, 0, scaled(0.4));

    assert_eq!(near, [1 as usize, 9 as usize].to_vec());
}

#[test]
fn tree_3() {
    let seed: [u8; 32] = [1; 32];
    let mut rng: rand::rngs::StdRng = rand::SeedableRng::from_seed(seed);
    let num_point: usize = 10;

    let vec = sample_square(&mut rng, num_point);
    let tree = KDTree::construct_kd_tree(&vec);

    let near = search(&tree, scaled(0.4), scaled(0.3), scaled(0.5));

    assert_eq!(near, [1 as usize, 2 as usize, 6 as usize, 9 as usize, 5 as usize].to_vec());
}

#[test]
fn search_matches_exhaustive_scan_random_sets() {
    let seed: [u8; 32] = [7; 32];
    let mut rng: rand::rngs::StdRng = rand::SeedableRng::from_seed(seed);
    for &n in [1usize, 2, 3, 17, 100].iter() {
        let vec = sample_square(&mut rng, n);
        let tree = KDTree::construct_kd_tree(&vec);
        for _ in 0..10 {
            let qx = 2.0 * (rng.gen::<f64>() - 0.5);
            let qy = 2.0 * (rng.gen::<f64>() - 0.5);
            let r = rng.gen::<f64>();
            let got = search(&tree, scaled(qx), scaled(qy), scaled(r));
            let want = brute_force(&vec, scaled(qx), scaled(qy), scaled(r));
            assert_same_set(got, want);
        }
    }
}

#[test]
fn search_matches_exhaustive_scan_collinear() {
    // All points on one vertical line: the tree degenerates toward a list,
    // and the alternating-axis pruning must still lose nothing.
    let mut vec = Points2D::new();
    for i in 0..20i64 {
        vec.push(0, i * 1000);
    }
    let tree = KDTree::construct_kd_tree(&vec);
    for q in [0i64, 5000, 19000, -3000].iter() {
        let got = search(&tree, 0, *q, 3500);
        let want = brute_force(&vec, 0, *q, 3500);
        assert_same_set(got, want);
    }
}

#[test]
fn search_single_point_set() {
    let mut vec = Points2D::new();
    vec.push(100, -200);
    let tree = KDTree::construct_kd_tree(&vec);
    assert_eq!(search(&tree, 100, -200, 1), vec![0]);
    assert_eq!(search(&tree, 100, -200, 0), Vec::<usize>::new());
    assert_eq!(search(&tree, 400, 200, 500), Vec::<usize>::new());
    assert_eq!(search(&tree, 400, 200, 501), vec![0]);
}

#[test]
fn search_with_duplicate_points() {
    let mut vec = Points2D::new();
    vec.push(5, 5);
    vec.push(5, 5);
    vec.push(5, 5);
    vec.push(50, 50);
    let tree = KDTree::construct_kd_tree(&vec);
    assert_same_set(search(&tree, 5, 5, 1), vec![0, 1, 2]);
    let all = search(&tree, 0, 0, 1000);
    assert_same_set(all, vec![0, 1, 2, 3]);
}

#[test]
fn full_cover_radius_reports_every_index() {
    // A radius of three times the coordinate bound provably covers any two
    // in-bound points, so the query must report the whole index set.
    let seed: [u8; 32] = [9; 32];
    let mut rng: rand::rngs::StdRng = rand::SeedableRng::from_seed(seed);
    let n: usize = 40;
    let vec = sample_square(&mut rng, n);
    let tree = KDTree::construct_kd_tree(&vec);
    let cover: i64 = 3 * (1i64 << 40);
    let got = search(&tree, scaled(0.1), scaled(-0.2), cover);
    assert_same_set(got, (0..n).collect());
}

#[test]
fn construction_is_deterministic() {
    let seed: [u8; 32] = [3; 32];
    let mut rng: rand::rngs::StdRng = rand::SeedableRng::from_seed(seed);
    let vec = sample_square(&mut rng, 50);
    let t1 = KDTree::construct_kd_tree(&vec);
    let t2 = KDTree::construct_kd_tree(&vec);
    assert_eq!(t1, t2);
}

#[test]
fn size_counts_input_points_exactly() {
    let seed: [u8; 32] = [5; 32];
    let mut rng: rand::rngs::StdRng = rand::SeedableRng::from_seed(seed);
    for &n in [1usize, 2, 7, 33].iter() {
        let vec = sample_square(&mut rng, n);
        let tree = KDTree::construct_kd_tree(&vec);
        assert_eq!(tree.size(), n as i32);
        assert!(tree.depth() >= 0);
    }
}

#[test]
fn single_point_tree_is_a_leaf_of_depth_zero() {
    let mut vec = Points2D::new();
    vec.push(42, -17);
    let tree = KDTree::construct_kd_tree(&vec);
    assert_eq!(tree.depth(), 0);
    assert_eq!(tree.size(), 1);
    assert!(tree.is_leaf());
    assert_eq!(tree.id, 0);
    assert_eq!(tree.position, Grid2D::new(42, -17));
}

#[test]
fn two_point_tree_shape_follows_the_tie_rule() {
    // Equal x-coordinates: the tie goes right at the root (axis x).
    let mut vec = Points2D::new();
    vec.push(10, 0);
    vec.push(10, 99);
    let tree = KDTree::construct_kd_tree(&vec);
    assert!(!tree.is_leaf());
    assert!(tree.left.is_none());
    let right = tree.right.as_ref().unwrap();
    assert_eq!(right.id, 1);
    assert_eq!(tree.depth(), 1);
}

#[test]
fn distance_square_is_exact() {
    let a = Grid2D::new(3, 4);
    let b = Grid2D::new(0, 0);
    assert_eq!(a.distance_square(&b), 25);
    let c = Grid2D::new(-1000000000, 1000000000);
    let d = Grid2D::new(1000000000, -1000000000);
    assert_eq!(c.distance_square(&d), 8000000000000000000i128);
}

#[test]
fn points_push_keeps_order() {
    let mut vec = Points2D::new();
    vec.push(1, 2);
    vec.push(3, 4);
    assert_eq!(vec.points.len(), 2);
    assert_eq!(vec.points[0], Grid2D::new(1, 2));
    assert_eq!(vec.points[1], Grid2D::new(3, 4));
}
