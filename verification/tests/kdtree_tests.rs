use kdtree::cpus::cross_for_cpus;
use kdtree::{FixedSizePriorityQueue, KDTree, TraitPoint};

#[derive(Debug)]
struct Point {
    id: String,
    vec: Vec<i32>,
}

impl Point {
    fn new(id: String, x: i32, y: i32, z: i32) -> Self {
        Self { id: id, vec: vec![x, y, z] }
    }
}

impl TraitPoint for Point {
    const DIM: usize = 3;

    fn dim(&self, depth: usize) -> i32 {
        let axis = depth % Point::DIM;
        self.vec[axis]
    }
}

#[derive(Debug)]
struct Point2 {
    vec: [i32; 2],
}

impl TraitPoint for Point2 {
    const DIM: usize = 2;

    fn dim(&self, depth: usize) -> i32 {
        self.vec[depth % 2]
    }
}

fn diagonal() -> Vec<Point> {
    let mut ps: Vec<Point> = Vec::new();
    ps.push(Point::new("hoge0".to_string(), 0, 7, 0));
    ps.push(Point::new("hoge1".to_string(), 1, 6, 0));
    ps.push(Point::new("hoge2".to_string(), 2, 5, 0));
    ps.push(Point::new("hoge3".to_string(), 3, 4, 0));
    ps.push(Point::new("hoge4".to_string(), 4, 3, 0));
    ps.push(Point::new("hoge5".to_string(), 5, 2, 0));
    ps.push(Point::new("hoge6".to_string(), 6, 1, 0));
    ps.push(Point::new("hoge7".to_string(), 7, 0, 0));
    ps
}

#[test]
fn build() {
    let ps = diagonal();
    let mut kdt = KDTree::new(&ps);
    kdt.build();
    println!("{:#?}", kdt);
    let p = Point::new("query".to_string(), 6, 1, 0);
    let r = kdt.knn_search(&p, 2);
    assert_eq!(r, [6, 5]);
    println!("{:?}", &r);
}

#[test]
fn readme_example_tree_shape() {
    let ps = vec![Point2 { vec: [10, 20] }, Point2 { vec: [30, 40] }, Point2 { vec: [50, 60] }];
    let mut kdt = KDTree::new(&ps);
    kdt.build();
    let shown = format!("{:?}", kdt);
    assert!(shown.contains(
        "root: Some(Node { idx: 1, axis: 0, left: Some(Node { idx: 0, axis: 1, left: None, right: None }), right: Some(Node { idx: 2, axis: 1, left: None, right: None }) })"
    ));
}

#[test]
fn readme_example_searches() {
    let ps = vec![Point2 { vec: [10, 20] }, Point2 { vec: [30, 40] }, Point2 { vec: [50, 60] }];
    let mut kdt = KDTree::new(&ps);
    kdt.build();
    let q = Point2 { vec: [31, 41] };
    assert_eq!(kdt.knn_search(&q, 1), vec![1]);
    assert_eq!(kdt.radius_search(&q, 10), vec![1]);
}

#[test]
fn knn_before_build_is_empty() {
    let ps = diagonal();
    let mut kdt = KDTree::new(&ps);
    let p = Point::new("query".to_string(), 6, 1, 0);
    assert_eq!(kdt.knn_search(&p, 3), Vec::<usize>::new());
    assert_eq!(kdt.radius_search(&p, 100), Vec::<usize>::new());
}

#[test]
fn knn_zero_is_empty() {
    let ps = diagonal();
    let mut kdt = KDTree::new(&ps);
    kdt.build();
    let p = Point::new("query".to_string(), 6, 1, 0);
    assert_eq!(kdt.knn_search(&p, 0), Vec::<usize>::new());
}

#[test]
fn knn_more_than_points_returns_all_by_distance() {
    let ps = diagonal();
    let mut kdt = KDTree::new(&ps);
    kdt.build();
    let p = Point::new("query".to_string(), 0, 7, 0);
    assert_eq!(kdt.knn_search(&p, 20), vec![0, 1, 2, 3, 4, 5, 6, 7]);
}

#[test]
fn knn_ties_by_index() {
    let ps = diagonal();
    let mut kdt = KDTree::new(&ps);
    kdt.build();
    // points 2 and 4 lie at squared distance 2 from (3, 4, 0), as do none nearer but 3
    let p = Point::new("query".to_string(), 3, 4, 0);
    assert_eq!(kdt.knn_search(&p, 3), vec![3, 2, 4]);
    assert_eq!(kdt.knn_search(&p, 5), vec![3, 2, 4, 1, 5]);
}

#[test]
fn knn_nearest_of_far_query() {
    let ps = diagonal();
    let mut kdt = KDTree::new(&ps);
    kdt.build();
    let p = Point::new("query".to_string(), 100, -100, 0);
    assert_eq!(kdt.knn_search(&p, 1), vec![7]);
}

#[test]
fn radius_search_is_strict_and_complete() {
    let ps = diagonal();
    let mut kdt = KDTree::new(&ps);
    kdt.build();
    let p = Point::new("query".to_string(), 3, 4, 0);
    // squared distances from the query: point i lies at 2 * (i - 3)^2
    let mut r = kdt.radius_search(&p, 2);
    r.sort();
    assert_eq!(r, vec![2, 3, 4]);
    let mut r = kdt.radius_search(&p, 3);
    r.sort();
    assert_eq!(r, vec![1, 2, 3, 4, 5]);
    let mut r = kdt.radius_search(&p, 5);
    r.sort();
    assert_eq!(r, vec![0, 1, 2, 3, 4, 5, 6]);
    assert_eq!(kdt.radius_search(&p, 1), vec![3]);
}

#[test]
fn radius_not_positive_is_empty() {
    let ps = diagonal();
    let mut kdt = KDTree::new(&ps);
    kdt.build();
    let p = Point::new("query".to_string(), 3, 4, 0);
    assert_eq!(kdt.radius_search(&p, 0), Vec::<usize>::new());
    assert_eq!(kdt.radius_search(&p, -5), Vec::<usize>::new());
}

#[test]
fn single_point_tree() {
    let ps = vec![Point2 { vec: [-3, 9] }];
    let mut kdt = KDTree::new(&ps);
    kdt.build();
    let q = Point2 { vec: [0, 0] };
    assert_eq!(kdt.knn_search(&q, 4), vec![0]);
    assert_eq!(kdt.radius_search(&q, 10), vec![0]);
    assert_eq!(kdt.radius_search(&q, 9), Vec::<usize>::new());
}

#[test]
fn duplicate_points() {
    let ps = vec![
        Point2 { vec: [1, 1] },
        Point2 { vec: [1, 1] },
        Point2 { vec: [1, 1] },
        Point2 { vec: [5, 5] },
        Point2 { vec: [1, 1] },
    ];
    let mut kdt = KDTree::new(&ps);
    kdt.build();
    let q = Point2 { vec: [1, 1] };
    assert_eq!(kdt.knn_search(&q, 4), vec![0, 1, 2, 4]);
    assert_eq!(kdt.knn_search(&q, 5), vec![0, 1, 2, 4, 3]);
    let mut r = kdt.radius_search(&q, 1);
    r.sort();
    assert_eq!(r, vec![0, 1, 2, 4]);
}

#[test]
fn extreme_coordinates() {
    let ps = vec![Point2 { vec: [i32::MIN, i32::MIN] }, Point2 { vec: [i32::MAX, i32::MAX] }];
    let mut kdt = KDTree::new(&ps);
    kdt.build();
    let q = Point2 { vec: [i32::MAX, i32::MAX] };
    assert_eq!(kdt.knn_search(&q, 2), vec![1, 0]);
    assert_eq!(kdt.radius_search(&q, i64::MAX), vec![1, 0]);
}

#[test]
fn rebuild_keeps_answers() {
    let ps = diagonal();
    let mut kdt = KDTree::new(&ps);
    kdt.build();
    kdt.build();
    let p = Point::new("query".to_string(), 6, 1, 0);
    assert_eq!(kdt.knn_search(&p, 2), vec![6, 5]);
}

#[test]
fn cross_read_after_write() {
    let ps = diagonal();
    let mut kdt = KDTree::new(&ps);
    kdt.set_cross(4);
    assert_eq!(kdt.get_cross(), 4);
    kdt.build();
    assert_eq!(kdt.get_cross(), 4);
}

#[test]
fn cross_is_floor_log2_of_cpus() {
    assert_eq!(cross_for_cpus(0), 0);
    assert_eq!(cross_for_cpus(1), 0);
    assert_eq!(cross_for_cpus(2), 1);
    assert_eq!(cross_for_cpus(3), 1);
    assert_eq!(cross_for_cpus(8), 3);
    assert_eq!(cross_for_cpus(9), 3);
    assert_eq!(cross_for_cpus(usize::MAX), 63);
}

#[test]
fn new_cross_matches_machine() {
    let ps = diagonal();
    let mut kdt = KDTree::new(&ps);
    assert!(kdt.get_cross() < 64);
}

#[test]
fn fspq() {
    let mut q: FixedSizePriorityQueue<(f64, usize)> = FixedSizePriorityQueue::new(5);
    q.push((5.0, 1));
    q.push((4.0, 2));
    q.push((3.0, 3));
    q.push((2.0, 4));
    q.push((1.0, 5));
    q.push((6.0, 6));
    assert_eq!(q.vec, [(1.0, 5), (2.0, 4), (3.0, 3), (4.0, 2), (5.0, 1)]);
    assert_eq!(q.get(1), Some(&(2.0, 4)));
    q.clear();
    assert_eq!(q.vec, []);

    let mut q: FixedSizePriorityQueue<f64> = FixedSizePriorityQueue::new(5);
    q.push(5.0);
    q.push(4.0);
    q.push(3.0);
    q.push(2.0);
    q.push(1.0);
    q.push(6.0);
    assert_eq!(q.vec, [1.0, 2.0, 3.0, 4.0, 5.0]);
    q.clear();
    assert_eq!(q.vec, Vec::<f64>::new());
}

#[test]
fn queue_keeps_equal_items_in_push_order() {
    let mut q: FixedSizePriorityQueue<(u32, char)> = FixedSizePriorityQueue::new(3);
    q.push((2, 'a'));
    q.push((1, 'b'));
    q.push((2, 'c'));
    q.push((2, 'd'));
    assert_eq!(q.vec, vec![(1, 'b'), (2, 'a'), (2, 'c')]);
    assert_eq!(q.len(), 3);
    assert_eq!(q.last(), Some(&(2, 'c')));
}

#[test]
fn queue_inserts_before_first_greater() {
    let mut q: FixedSizePriorityQueue<u64> = FixedSizePriorityQueue::new(10);
    q.push(5);
    q.push(5);
    q.push(1);
    q.push(9);
    q.push(5);
    assert_eq!(q.vec, vec![1, 5, 5, 5, 9]);
    q.push(0);
    assert_eq!(q.vec, vec![0, 1, 5, 5, 5, 9]);
    assert_eq!(q.get(0), Some(&0));
    assert_eq!(q.last(), Some(&9));
}

#[test]
fn queue_of_zero_capacity_stays_empty() {
    let mut q: FixedSizePriorityQueue<u64> = FixedSizePriorityQueue::new(0);
    q.push(3);
    assert_eq!(q.len(), 0);
    assert_eq!(q.last(), None);
    assert_eq!(q.get(7), None);
}

#[test]
fn queue_drops_only_one_when_over_full() {
    let mut q: FixedSizePriorityQueue<u64> = FixedSizePriorityQueue { vec: vec![1, 2, 3, 4], max: 2 };
    q.push(0);
    assert_eq!(q.vec, vec![0, 1, 2, 3]);
}

#[test]
fn searches_by_coordinates() {
    let ps = vec![Point2 { vec: [10, 20] }, Point2 { vec: [30, 40] }, Point2 { vec: [50, 60] }];
    let mut kdt = KDTree::new(&ps);
    kdt.build();
    assert_eq!(kdt.knn_search_coords(&vec![49, 61], 2), vec![2, 1]);
    assert_eq!(kdt.knn_search_coords(&vec![0, 0], 3), vec![0, 1, 2]);
    let mut r = kdt.radius_search_coords(&vec![30, 40], 29);
    r.sort();
    assert_eq!(r, vec![0, 1, 2]);
    let mut r = kdt.radius_search_coords(&vec![30, 40], 28);
    r.sort();
    assert_eq!(r, vec![1]);
}

#[test]
fn radius_points_are_the_nearest_ranked() {
    let ps = diagonal();
    let mut kdt = KDTree::new(&ps);
    kdt.build();
    let p = Point::new("query".to_string(), 1, 6, 0);
    let all = kdt.knn_search(&p, 100);
    assert_eq!(all, vec![1, 0, 2, 3, 4, 5, 6, 7]);
    for radius in 0..12 {
        let mut within = kdt.radius_search(&p, radius);
        within.sort();
        let mut prefix: Vec<usize> = all[..within.len()].to_vec();
        prefix.sort();
        assert_eq!(within, prefix);
    }
}

#[test]
fn queue_stays_ascending_and_bounded() {
    let mut q: FixedSizePriorityQueue<(u64, usize)> = FixedSizePriorityQueue::new(4);
    let items = [(9, 0), (3, 1), (7, 2), (3, 3), (1, 4), (8, 5), (2, 6), (3, 7)];
    for (n, item) in items.iter().enumerate() {
        q.push(*item);
        assert!(q.len() <= 4);
        assert_eq!(q.len(), (n + 1).min(4));
        for i in 1..q.len() {
            assert!(q.vec[i - 1] <= q.vec[i]);
        }
    }
    assert_eq!(q.vec, vec![(1, 4), (2, 6), (3, 1), (3, 3)]);
}

#[test]
fn radius_search_reports_in_visit_order() {
    let ps = diagonal();
    let mut kdt = KDTree::new(&ps);
    kdt.build();
    let p = Point::new("query".to_string(), 6, 1, 0);
    assert_eq!(kdt.radius_search(&p, 2), vec![6, 5, 7]);
}

#[test]
fn rebuild_with_other_cross_gives_same_tree() {
    let ps = diagonal();
    let mut a = KDTree::new(&ps);
    a.set_cross(0);
    a.build();
    let mut b = KDTree::new(&ps);
    b.set_cross(7);
    b.build();
    b.build();
    let sa = format!("{:?}", a);
    let sb = format!("{:?}", b);
    assert_eq!(sa.replace("cross: 0", ""), sb.replace("cross: 7", ""));
}

#[test]
fn knn_prefix_of_larger_k_without_ties() {
    let ps = vec![
        Point2 { vec: [0, 0] },
        Point2 { vec: [3, 1] },
        Point2 { vec: [-5, 2] },
        Point2 { vec: [7, -7] },
        Point2 { vec: [1, 9] },
        Point2 { vec: [-2, -3] },
    ];
    let mut kdt = KDTree::new(&ps);
    kdt.build();
    let q = Point2 { vec: [1, 1] };
    let all = kdt.knn_search(&q, 6);
    for k in 0..7 {
        assert_eq!(kdt.knn_search(&q, k), all[..k.min(6)].to_vec());
    }
}

#[test]
fn queue_push_order_does_not_matter() {
    let items: [u64; 7] = [5, 1, 9, 1, 7, 3, 8];
    let orders: [[usize; 7]; 3] = [[0, 1, 2, 3, 4, 5, 6], [6, 5, 4, 3, 2, 1, 0], [3, 0, 6, 1, 5, 2, 4]];
    let mut results: Vec<Vec<u64>> = Vec::new();
    for order in orders.iter() {
        let mut q: FixedSizePriorityQueue<u64> = FixedSizePriorityQueue::new(4);
        for i in order.iter() {
            q.push(items[*i]);
        }
        results.push(q.vec.clone());
    }
    assert_eq!(results[0], vec![1, 1, 3, 5]);
    assert_eq!(results[1], results[0]);
    assert_eq!(results[2], results[0]);
}

#[test]
fn queue_length_after_pushes() {
    for max in 0..6 {
        let mut q: FixedSizePriorityQueue<u64> = FixedSizePriorityQueue::new(max);
        for m in 0..9u64 {
            assert_eq!(q.len(), (m as usize).min(max));
            q.push(m * 7 % 5);
        }
    }
}

#[test]
fn cleared_queue_behaves_like_new() {
    let mut a: FixedSizePriorityQueue<u64> = FixedSizePriorityQueue::new(3);
    a.push(4);
    a.push(2);
    a.clear();
    let mut b: FixedSizePriorityQueue<u64> = FixedSizePriorityQueue::new(3);
    for v in [6u64, 0, 9, 3] {
        a.push(v);
        b.push(v);
    }
    assert_eq!(a.vec, b.vec);
    assert_eq!(a.vec, vec![0, 3, 6]);
}

#[test]
fn knn_prefix_distances_with_ties() {
    let ps = diagonal();
    let mut kdt = KDTree::new(&ps);
    kdt.build();
    let p = Point::new("query".to_string(), 3, 4, 0);
    let all = kdt.knn_search(&p, 8);
    let d = |i: usize| {
        let dx = ps[i].vec[0] - 3;
        let dy = ps[i].vec[1] - 4;
        dx * dx + dy * dy
    };
    for k in 0..9 {
        let r = kdt.knn_search(&p, k);
        assert_eq!(r.len(), k.min(8));
        for j in 0..r.len() {
            assert_eq!(d(r[j]), d(all[j]));
        }
    }
}
