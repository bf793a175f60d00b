use kiddo::distance::squared_euclidean;
use kiddo::float::kdtree::KdTree;
use thor_cluster::dbscan::fixed16_kdtree::{
    find_clusters_fixed16, is_compact_list, is_spread_out, FixedPointTree,
};
use thor_cluster::dbscan::{dbscan, find_clusters, SearchTree};
use thor_cluster::gridsearch::{cluster_grid_search_serial, search_chunk, worker_chunks};
use thor_cluster::gridsearch::GridSearchResult;
use thor_cluster::points::{XYPoint, XYTPoint};
use thor_cluster::tables::{assemble_tables, Cluster, ClusterTables};
use thor_cluster::{ClusterAlgorithm, SearchError};

/// A k-d tree of 32-bit floats, with the radius taken as a squared distance.
struct FloatTree(KdTree<f32, u16, 2, 32, u16>);

impl SearchTree for FloatTree {
    type Coord = f64;

    fn from_points(points: &Vec<XYPoint<f64>>) -> Self {
        let mut tree = KdTree::with_capacity(points.len());
        for (idx, point) in points.iter().enumerate() {
            tree.add(&[point.x as f32, point.y as f32], idx as u16);
        }
        FloatTree(tree)
    }

    fn neighbors(&self, point: &XYPoint<f64>, radius: f64) -> Vec<usize> {
        let neighbors = self.0.within_unsorted(
            &[point.x as f32, point.y as f32],
            radius as f32,
            &squared_euclidean,
        );
        neighbors.iter().map(|n| n.item as usize).collect()
    }
}

/// An index that answers from a table of neighbour lists.
struct TableTree(Vec<Vec<usize>>);

impl SearchTree for TableTree {
    type Coord = usize;

    fn from_points(points: &Vec<XYPoint<usize>>) -> Self {
        TableTree(points.iter().map(|_| Vec::new()).collect())
    }

    fn neighbors(&self, point: &XYPoint<usize>, _radius: usize) -> Vec<usize> {
        self.0[point.x].clone()
    }
}

fn cluster_table(hoods: Vec<Vec<usize>>, min_cluster_size: usize) -> Vec<i32> {
    let points: Vec<XYPoint<usize>> = (0..hoods.len()).map(|i| XYPoint::new(i, 0)).collect();
    dbscan(&points, &TableTree(hoods), 0, min_cluster_size)
}

/// An index that finds nothing.
struct EmptyTree;

impl SearchTree for EmptyTree {
    type Coord = f64;

    fn from_points(_points: &Vec<XYPoint<f64>>) -> Self {
        EmptyTree
    }

    fn neighbors(&self, _point: &XYPoint<f64>, _radius: f64) -> Vec<usize> {
        Vec::new()
    }
}

/// The fixed-point index of the library behind coordinates in units of
/// `1 / 16384`.
struct ScaledTree(FixedPointTree);

fn scaled(p: &XYPoint<f64>) -> XYPoint<u16> {
    fixed((p.x * 16384.0) as u16, (p.y * 16384.0) as u16)
}

impl SearchTree for ScaledTree {
    type Coord = f64;

    fn from_points(points: &Vec<XYPoint<f64>>) -> Self {
        ScaledTree(FixedPointTree::from_points(&points.iter().map(scaled).collect()))
    }

    fn neighbors(&self, point: &XYPoint<f64>, radius: f64) -> Vec<usize> {
        self.0.neighbors(&scaled(point), (radius * 16384.0) as u16)
    }
}

fn by_algorithm(
    points: &Vec<XYPoint<f64>>,
    eps: f64,
    min_cluster_size: usize,
    alg: &ClusterAlgorithm,
) -> Vec<i32> {
    thor_cluster::find_clusters::<FloatTree, EmptyTree, ScaledTree, _>(
        points,
        eps,
        min_cluster_size,
        alg,
        |p: XYPoint<f64>, eps: f64, _: bool, _: bool| XYPoint {
            x: (p.x / eps).round() as i64,
            y: (p.y / eps).round() as i64,
        },
    )
}

fn apply_velocity(vx: f64, vy: f64, points: &Vec<XYTPoint<f64>>) -> Vec<XYPoint<f64>> {
    points
        .iter()
        .map(|p| XYPoint {
            x: p.x - vx * p.t,
            y: p.y - vy * p.t,
        })
        .collect()
}

fn grid_search(
    points: &Vec<XYTPoint<f64>>,
    vxs: Vec<f64>,
    vys: Vec<f64>,
    eps: f64,
    min_cluster_size: usize,
    n_threads: usize,
) -> Vec<GridSearchResult<f64>> {
    if n_threads == 1 {
        return cluster_grid_search_serial(&vxs, &vys, |vx: f64, vy: f64| {
            find_clusters::<FloatTree>(&apply_velocity(vx, vy, points), eps, min_cluster_size)
        });
    }
    let mut results = Vec::new();
    for (start, end) in worker_chunks(n_threads, vxs.len()) {
        results.extend(search_chunk(&vxs, start, end, &vys, |vx: f64, vy: f64| {
            find_clusters::<FloatTree>(&apply_velocity(vx, vy, points), eps, min_cluster_size)
        }));
    }
    results
}

fn xyt(x: f64, y: f64, t: f64) -> XYTPoint<f64> {
    XYTPoint { x, y, t }
}

#[test]
fn test_grid_search() {
    let points = vec![
        xyt(0.0, 0.0, 0.0),
        xyt(0.0, 0.0, 0.0),
        xyt(0.0, 0.0, 1.0),
        xyt(0.4, 0.4, 1.0),
        xyt(10.0, 10.0, 10.0),
        xyt(10.0, 10.1, 10.0),
    ];
    let vxs = vec![0.0, 0.5, 1.0];
    let vys = vec![0.0, 0.5, 1.0];
    let results = grid_search(&points, vxs, vys, 0.5, 4, 1);
    assert_eq!(results.len(), 9);
    assert_eq!(results[0].vx, 0.0);
    assert_eq!(results[0].vy, 0.0);
    assert_eq!(results[0].cluster_labels.len(), 6);
    assert_eq!(results[0].cluster_labels, vec![1, 1, 1, 1, -1, -1]);

    assert_eq!(results[8].vx, 1.0);
    assert_eq!(results[8].vy, 1.0);
    assert_eq!(results[8].cluster_labels.len(), 6);
    assert_eq!(results[8].cluster_labels, vec![1, 1, -1, -1, 1, 1]);
}

fn three_tracks_and_noise() -> Vec<XYTPoint<f64>> {
    vec![
        // A cluster at x=0, y=0 that only appears at velocity vx=0, vy=0.
        xyt(0.0, 0.0, 0.0),
        xyt(0.2, 0.0, 4.0),
        xyt(0.0, 0.3, 8.0),
        xyt(0.1, 0.2, 3.0),
        // A cluster at x=10, y=10 that only appears at velocity vx=1, vy=0.
        xyt(10.0, 10.0, 0.0),
        xyt(11.2, 10.0, 1.0),
        xyt(12.0, 10.3, 2.0),
        xyt(15.1, 10.2, 5.0),
        // A cluster at x=5, y=2 that only appears at velocity vx=-1, vy=1.
        xyt(5.0, 2.0, 0.0),
        xyt(4.2, 3.0, 1.0),
        xyt(3.0, 4.3, 2.0),
        xyt(2.1, 5.2, 3.0),
        // Some noise.
        xyt(0.0, 3.0, 7.0),
        xyt(2.0, 4.1, 2.0),
        xyt(3.0, 5.3, 3.0),
        xyt(4.1, 6.2, 4.0),
    ]
}

#[test]
fn test_grid_search_multithreaded() {
    let points = three_tracks_and_noise();
    let vxs = vec![-1.0, 0.0, 1.0];
    let vys = vec![-1.0, 0.0, 1.0];

    let n_points = points.len();
    let n_vxvy_pairs = vxs.len() * vys.len();
    // Find clusters with the chunks of 4 threads (1 main, 3 workers).
    let results = grid_search(&points, vxs, vys, 0.5, 4, 4);

    assert_eq!(
        results.len(),
        n_vxvy_pairs,
        "there should be one result for every vx, vy pair"
    );

    // We expect clusters for vx=0, vy=0, vx=1, vy=0, and vx=-1, vy=1.
    for result in results {
        assert_eq!(
            result.cluster_labels.len(),
            n_points,
            "there should be one cluster label for every point; missing for vx={}, vy={}",
            result.vx,
            result.vy
        );
        let expect: Vec<i32> = if result.vx == 0.0 && result.vy == 0.0 {
            vec![1, 1, 1, 1, -1, -1, -1, -1, -1, -1, -1, -1, -1, -1, -1, -1]
        } else if result.vx == 1.0 && result.vy == 0.0 {
            vec![-1, -1, -1, -1, 1, 1, 1, 1, -1, -1, -1, -1, -1, -1, -1, -1]
        } else if result.vx == -1.0 && result.vy == 1.0 {
            vec![-1, -1, -1, -1, -1, -1, -1, -1, 1, 1, 1, 1, -1, -1, -1, -1]
        } else {
            vec![-1; 16]
        };
        assert_eq!(
            result.cluster_labels, expect,
            "cluster labels for vx={}, vy={} are incorrect",
            result.vx, result.vy
        );
    }
}

#[test]
fn chunked_search_finds_what_serial_search_finds() {
    let points = three_tracks_and_noise();
    let grid = vec![-1.0, 0.0, 1.0];
    let serial = grid_search(&points, grid.clone(), grid.clone(), 0.5, 4, 1);
    for n_threads in 2..8 {
        let chunked = grid_search(&points, grid.clone(), grid.clone(), 0.5, 4, n_threads);
        assert_eq!(serial.len(), chunked.len());
        for (a, b) in serial.iter().zip(chunked.iter()) {
            assert_eq!(a.vx, b.vx);
            assert_eq!(a.vy, b.vy);
            assert_eq!(a.cluster_labels, b.cluster_labels);
        }
    }
}

#[test]
fn test_find_clusters_two_hits() {
    let points = vec![
        XYPoint::new(1.0, 0.0),
        XYPoint::new(1.0, 0.0),
        XYPoint::new(1.0, 0.0),
        XYPoint::new(1.0, 0.0),
        XYPoint::new(2.0, 0.0),
        XYPoint::new(2.0, 0.0),
        XYPoint::new(2.0, 0.0),
        XYPoint::new(2.0, 0.0),
    ];
    let clusters = by_algorithm(&points, 1.0, 4, &ClusterAlgorithm::DBSCAN);
    let allowed = vec![vec![1, 1, 1, 1, 2, 2, 2, 2], vec![2, 2, 2, 2, 1, 1, 1, 1]];
    assert!(allowed.contains(&clusters));
}

#[test]
fn test_find_clusters_bigger_than_min() {
    let points = vec![
        XYPoint::new(1.0, 0.0),
        XYPoint::new(1.0, 0.0),
        XYPoint::new(1.0, 0.0),
        XYPoint::new(1.0, 0.0),
        XYPoint::new(2.0, 0.0),
        XYPoint::new(2.0, 0.0),
        XYPoint::new(2.0, 0.0),
        XYPoint::new(2.0, 0.0),
    ];
    let clusters = by_algorithm(&points, 1.0, 2, &ClusterAlgorithm::DBSCAN);
    let allowed = vec![vec![1, 1, 1, 1, 2, 2, 2, 2], vec![2, 2, 2, 2, 1, 1, 1, 1]];
    assert!(allowed.contains(&clusters));
}

#[test]
fn six_points_four_together() {
    let points = vec![
        XYPoint::new(0.0, 0.0),
        XYPoint::new(0.0, 0.0),
        XYPoint::new(0.0, 0.0),
        XYPoint::new(0.0, 0.0),
        XYPoint::new(10.0, 10.0),
        XYPoint::new(10.0, 10.0),
    ];
    assert_eq!(
        find_clusters::<FloatTree>(&points, 0.5, 4),
        vec![1, 1, 1, 1, -1, -1]
    );
}

#[test]
fn empty_input_gives_no_labels() {
    let points: Vec<XYPoint<f64>> = vec![];
    assert_eq!(find_clusters::<FloatTree>(&points, 0.5, 4), Vec::<i32>::new());
    let fixed: Vec<XYPoint<u16>> = vec![];
    assert_eq!(find_clusters::<FixedPointTree>(&fixed, 100, 4), Vec::<i32>::new());
}

#[test]
fn isolated_points_are_noise() {
    let hoods = vec![vec![0], vec![1], vec![2]];
    assert_eq!(cluster_table(hoods, 2), vec![-1, -1, -1]);
}

#[test]
fn min_size_of_one_makes_every_point_a_cluster() {
    let hoods = vec![vec![0], vec![1], vec![2]];
    assert_eq!(cluster_table(hoods.clone(), 1), vec![1, 2, 3]);
    assert_eq!(cluster_table(hoods, 0), vec![1, 2, 3]);
}

#[test]
fn noise_becomes_border_when_a_cluster_reaches_it() {
    // 0 is looked at first and has too few neighbours; 1 is dense and
    // next to it.
    let hoods = vec![vec![0, 1], vec![0, 1, 2], vec![1, 2]];
    assert_eq!(cluster_table(hoods, 3), vec![1, 1, 1]);
}

#[test]
fn a_point_that_is_not_dense_joins_as_border() {
    // 0 - 1 - 2 - 3 in a row, each next to its neighbours in the row: 1 and
    // 2 are dense, 0 and 3 are not.
    let hoods = vec![vec![0, 1], vec![0, 1, 2], vec![1, 2, 3], vec![2, 3]];
    assert_eq!(cluster_table(hoods, 3), vec![1, 1, 1, 1]);
}

#[test]
fn a_border_point_joins_the_cluster_found_first() {
    // 2 lies between the dense points 1 and 3, which are not next to each
    // other, and is not dense itself.
    let hoods = vec![
        vec![0, 1, 5],
        vec![0, 1, 2, 5],
        vec![1, 2, 3],
        vec![2, 3, 4, 6],
        vec![3, 4, 6],
        vec![0, 1, 5],
        vec![3, 4, 6],
    ];
    assert_eq!(cluster_table(hoods, 4), vec![1, 1, 1, 2, 2, 1, 2]);
}

#[test]
fn labels_do_not_depend_on_the_order_of_neighbours() {
    let hoods = vec![
        vec![0, 1, 2],
        vec![0, 1, 2, 3],
        vec![0, 1, 2],
        vec![1, 3],
        vec![4, 5],
        vec![4, 5, 6],
        vec![5, 6],
    ];
    let reversed: Vec<Vec<usize>> = hoods
        .iter()
        .map(|h| h.iter().rev().cloned().collect())
        .collect();
    let expect = vec![1, 1, 1, 1, 2, 2, 2];
    assert_eq!(cluster_table(hoods, 3), expect);
    assert_eq!(cluster_table(reversed, 3), expect);
}

fn fixed(x: u16, y: u16) -> XYPoint<u16> {
    XYPoint { x, y }
}

#[test]
fn fixed_tree_lists_the_points_strictly_within_the_radius() {
    let points = vec![fixed(0, 0), fixed(128, 0), fixed(0, 256), fixed(256, 256), fixed(128, 0)];
    let tree = FixedPointTree::from_points(&points);
    // Squared distances from the origin, in bits: 0, 1, 4, 8, 1.
    let mut found = tree.neighbors(&fixed(0, 0), 4);
    found.sort();
    assert_eq!(found, vec![0, 1, 4]);
    let mut found = tree.neighbors(&fixed(0, 0), 5);
    found.sort();
    assert_eq!(found, vec![0, 1, 2, 4]);
    let mut found = tree.neighbors(&fixed(0, 0), 9);
    found.sort();
    assert_eq!(found, vec![0, 1, 2, 3, 4]);
    assert_eq!(tree.neighbors(&fixed(0, 0), 0), Vec::<usize>::new());
    let mut found = tree.neighbors(&fixed(256, 256), 5);
    found.sort();
    assert_eq!(found, vec![2, 3]);
}

#[test]
fn fixed_tree_rounds_each_square_down() {
    // 127 * 127 / 16384 is below one, 181 * 181 / 16384 is one.
    let points = vec![fixed(1000, 1000), fixed(1127, 1127), fixed(1181, 1000)];
    let tree = FixedPointTree::from_points(&points);
    let mut found = tree.neighbors(&fixed(1000, 1000), 1);
    found.sort();
    assert_eq!(found, vec![0, 1]);
    let mut found = tree.neighbors(&fixed(1000, 1000), 2);
    found.sort();
    assert_eq!(found, vec![0, 1, 2]);
}

#[test]
fn fixed_clusters_four_together() {
    let points = vec![
        fixed(1638, 1638),
        fixed(1638, 1638),
        fixed(1638, 1638),
        fixed(1638, 1638),
        fixed(16384, 16384),
        fixed(19660, 3276),
    ];
    assert_eq!(
        find_clusters::<FixedPointTree>(&points, 164, 4),
        vec![1, 1, 1, 1, -1, -1]
    );
    assert_eq!(
        find_clusters::<FixedPointTree>(&points, 164, 1),
        vec![1, 1, 1, 1, 2, 3]
    );
}

#[test]
fn fixed_clusters_along_a_line_over_many_buckets() {
    // A hundred points in a row, each within the radius of the next only.
    let mut points: Vec<XYPoint<u16>> = (0..100).map(|i| fixed(100 * i, 100 * i)).collect();
    assert_eq!(find_clusters::<FixedPointTree>(&points, 3, 3), vec![1; 100]);
    // The same row with a gap after the first fifty.
    for point in points.iter_mut().skip(50) {
        point.x += 1000;
        point.y += 1000;
    }
    let mut expect = vec![1; 50];
    expect.extend(vec![2; 50]);
    assert_eq!(find_clusters::<FixedPointTree>(&points, 3, 3), expect);
    // With a fourth neighbour asked for, no point is dense.
    assert_eq!(find_clusters::<FixedPointTree>(&points, 3, 4), vec![-1; 100]);
}

#[test]
fn checked_fixed_clustering_agrees_with_the_index() {
    let points = vec![
        fixed(1638, 1638),
        fixed(1638, 1638),
        fixed(1638, 1638),
        fixed(1638, 1638),
        fixed(16384, 16384),
        fixed(19660, 3276),
    ];
    assert_eq!(
        find_clusters_fixed16(&points, 164, 4),
        Ok(vec![1, 1, 1, 1, -1, -1])
    );
    assert_eq!(find_clusters_fixed16(&vec![], 164, 4), Ok(vec![]));
}

#[test]
fn points_too_far_apart_are_invalid() {
    // Two units apart along x: the square of the distance does not fit.
    let points = vec![fixed(0, 0), fixed(0x8000, 0)];
    assert!(!is_compact_list(&points));
    assert_eq!(
        find_clusters_fixed16(&points, 164, 1),
        Err(SearchError::InvalidInput)
    );
    // Just below two units along x, and nothing along y: it fits.
    let points = vec![fixed(0, 7), fixed(0x7fff, 7)];
    assert!(is_compact_list(&points));
    assert_eq!(find_clusters_fixed16(&points, 164, 1), Ok(vec![1, 2]));
    // The squares fit one by one, their sum does not.
    let points = vec![fixed(0, 0), fixed(0x7fff, 0x7fff)];
    assert!(!is_compact_list(&points));
    // The corners of the box count, not the points themselves.
    let points = vec![fixed(0, 0x7fff), fixed(0x7fff, 0)];
    assert!(!is_compact_list(&points));
    let points = vec![fixed(100, 23270), fixed(23270, 100)];
    assert!(is_compact_list(&points));
    let points = vec![fixed(100, 23271), fixed(23271, 100), fixed(200, 200)];
    assert!(!is_compact_list(&points));
}

#[test]
fn crowded_coordinates_fail_the_index_beyond_one_bucket() {
    // Thirty-two points on one vertical line fit in one bucket.
    let in_one_bucket: Vec<XYPoint<u16>> = (0..32).map(|i| fixed(500, 10 * i)).collect();
    assert!(!is_spread_out(&in_one_bucket));
    assert_eq!(
        find_clusters_fixed16(&in_one_bucket, 1, 2),
        Ok(vec![1; 32])
    );
    // Thirty-three do not, and seventeen of them share their x.
    let mut crowded: Vec<XYPoint<u16>> = (0..17).map(|i| fixed(500, 10 * i)).collect();
    crowded.extend((0..16).map(|i| fixed(600 + i, 10 * i)));
    assert!(!is_spread_out(&crowded));
    assert_eq!(
        find_clusters_fixed16(&crowded, 1, 2),
        Err(SearchError::IndexBuildFailure)
    );
    // With sixteen sharing it the index is built.
    crowded[16] = fixed(777, 160);
    assert!(is_spread_out(&crowded));
    assert!(find_clusters_fixed16(&crowded, 1, 2).is_ok());
}

#[test]
fn spread_out_counts_each_axis() {
    assert!(is_spread_out(&vec![]));
    let same_y: Vec<XYPoint<u16>> = (0..17).map(|i| fixed(i, 9)).collect();
    assert!(!is_spread_out(&same_y));
    let sixteen: Vec<XYPoint<u16>> = (0..16).map(|i| fixed(i, 9)).collect();
    assert!(is_spread_out(&sixteen));
    let at_the_ends = vec![fixed(0, 65535); 17];
    assert!(!is_spread_out(&at_the_ends));
}

#[test]
fn a_cluster_can_be_smaller_than_the_minimum() {
    // 12 is dense, but its neighbours 9, 10 and 11 were taken as border
    // points by the clusters of 0, 3 and 6 before it was looked at.
    let hoods = vec![
        vec![0, 1, 2, 9],
        vec![0, 1],
        vec![0, 2],
        vec![3, 4, 5, 10],
        vec![3, 4],
        vec![3, 5],
        vec![6, 7, 8, 11],
        vec![6, 7],
        vec![6, 8],
        vec![0, 9, 12],
        vec![3, 10, 12],
        vec![6, 11, 12],
        vec![9, 10, 11, 12],
    ];
    assert_eq!(
        cluster_table(hoods, 4),
        vec![1, 1, 1, 2, 2, 2, 3, 3, 3, 1, 2, 3, 4]
    );
}

#[test]
fn labels_fill_the_numbers_from_one() {
    let hoods = vec![
        vec![0, 1],
        vec![0, 1],
        vec![2],
        vec![3, 4],
        vec![3, 4],
        vec![5, 6],
        vec![5, 6],
    ];
    let labels = cluster_table(hoods, 2);
    assert_eq!(labels, vec![1, 1, -1, 2, 2, 3, 3]);
    let top = *labels.iter().max().unwrap();
    for k in 1..=top {
        assert!(labels.contains(&k));
    }
}

fn search_and_assemble(
    points: &Vec<XYTPoint<f64>>,
    grid: Vec<f64>,
    eps: f64,
    min_cluster_size: usize,
    n_threads: usize,
) -> ClusterTables<f64> {
    let results = grid_search(points, grid.clone(), grid, eps, min_cluster_size, n_threads);
    let times: Vec<i64> = points.iter().map(|p| p.t as i64).collect();
    assemble_tables(&results, &times).unwrap()
}

#[test]
fn four_points_on_a_line_are_one_cluster_at_their_velocity() {
    let points = vec![
        xyt(0.0, 0.0, 0.0),
        xyt(1.0, 0.0, 1.0),
        xyt(2.0, 0.0, 2.0),
        xyt(3.0, 0.0, 3.0),
    ];
    let tables = search_and_assemble(&points, vec![-1.0, 0.0, 1.0], 0.5, 4, 1);
    assert_eq!(
        tables.clusters,
        vec![Cluster { cluster_id: 1, vx: 1.0, vy: 0.0, earliest: 0, latest: 3, arc_length: 3 }]
    );
    let rows: Vec<(u32, usize)> = tables.members.iter().map(|m| (m.cluster_id, m.obs)).collect();
    assert_eq!(rows, vec![(1, 0), (1, 1), (1, 2), (1, 3)]);
}

#[test]
fn three_tracks_give_three_clusters() {
    let points = three_tracks_and_noise();
    for n_threads in [1, 2, 3, 4, 7] {
        let tables = search_and_assemble(&points, vec![-1.0, 0.0, 1.0], 0.5, 4, n_threads);
        let mut found: Vec<(f64, f64, u64, Vec<usize>)> = tables
            .clusters
            .iter()
            .map(|c| {
                let members = tables
                    .members
                    .iter()
                    .filter(|m| m.cluster_id == c.cluster_id)
                    .map(|m| m.obs)
                    .collect();
                (c.vx, c.vy, c.arc_length, members)
            })
            .collect();
        found.sort_by(|a, b| a.partial_cmp(b).unwrap());
        assert_eq!(
            found,
            vec![
                (-1.0, 1.0, 3, vec![8, 9, 10, 11]),
                (0.0, 0.0, 8, vec![0, 1, 2, 3]),
                (1.0, 0.0, 5, vec![4, 5, 6, 7]),
            ]
        );
        let ids: Vec<u32> = tables.clusters.iter().map(|c| c.cluster_id).collect();
        assert_eq!(ids, vec![1, 2, 3]);
    }
}

#[test]
fn each_algorithm_uses_its_own_index() {
    let points = vec![
        XYPoint::new(0.5, 0.5),
        XYPoint::new(0.5, 0.5),
        XYPoint::new(0.5, 0.5),
        XYPoint::new(1.5, 1.5),
    ];
    assert_eq!(
        by_algorithm(&points, 0.25, 3, &ClusterAlgorithm::DBSCAN),
        vec![1, 1, 1, -1]
    );
    assert_eq!(
        by_algorithm(&points, 0.25, 3, &ClusterAlgorithm::DbscanFixed16),
        vec![1, 1, 1, -1]
    );
    assert_eq!(
        by_algorithm(&points, 0.25, 3, &ClusterAlgorithm::DbscanRStar),
        vec![-1, -1, -1, -1]
    );
    assert_eq!(
        by_algorithm(&points, 0.25, 3, &ClusterAlgorithm::Hotspot2D),
        vec![0, 0, 0, -1]
    );
}

#[test]
fn a_track_at_its_own_velocity_is_one_cluster() {
    // An object at (0.5, 0.25) moving by (0.125, -0.0625) a step.
    let track: Vec<XYTPoint<f64>> = (0..6)
        .map(|t| {
            let t = t as f64;
            xyt(0.5 + 0.125 * t, 1.0 - 0.0625 * t, t)
        })
        .collect();
    let at_rest = apply_velocity(0.125, -0.0625, &track);
    for point in at_rest.iter() {
        assert_eq!(*point, XYPoint::new(0.5, 1.0));
    }
    for min_cluster_size in [1, 3, 6] {
        assert_eq!(
            by_algorithm(&at_rest, 0.25, min_cluster_size, &ClusterAlgorithm::DBSCAN),
            vec![1; 6]
        );
        assert_eq!(
            by_algorithm(&at_rest, 0.25, min_cluster_size, &ClusterAlgorithm::DbscanFixed16),
            vec![1; 6]
        );
        assert_eq!(
            by_algorithm(&at_rest, 0.25, min_cluster_size, &ClusterAlgorithm::Hotspot2D),
            vec![0; 6]
        );
    }
    assert_eq!(
        by_algorithm(&at_rest, 0.25, 7, &ClusterAlgorithm::DBSCAN),
        vec![-1; 6]
    );
    assert_eq!(
        by_algorithm(&at_rest, 0.25, 7, &ClusterAlgorithm::Hotspot2D),
        vec![-1; 6]
    );
}
