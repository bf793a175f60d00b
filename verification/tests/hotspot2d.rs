use thor_cluster::dbscan::SearchTree;
use thor_cluster::hotspot2d::{
    cell_key, find_clusters_hotspot2d, hist2d, label_cluster_map, label_grids,
    merge_cluster_labels,
};
use thor_cluster::points::XYPoint;
use thor_cluster::{find_clusters, ClusterAlgorithm};

#[test]
fn test_hist2d() {
    let points = vec![
        XYPoint { x: 0, y: 0 },
        XYPoint { x: 0, y: 0 },
        XYPoint { x: 1, y: 1 },
        XYPoint { x: 2, y: 2 },
        XYPoint { x: 2, y: 2 },
    ];
    let map = hist2d(&points);
    assert_eq!(map.len(), 3);
    assert_eq!(map[&cell_key(&XYPoint { x: 0, y: 0 })], vec![0, 1]);
    assert_eq!(map[&cell_key(&XYPoint { x: 1, y: 1 })], vec![2]);
    assert_eq!(map[&cell_key(&XYPoint { x: 2, y: 2 })], vec![3, 4]);
}

#[test]
fn test_hist2d_empty() {
    let points = vec![];
    let map = hist2d(&points);
    assert_eq!(map.len(), 0);
}

#[test]
fn cell_keys_tell_cells_apart() {
    assert_eq!(cell_key(&XYPoint { x: i64::MIN, y: i64::MIN }), 0);
    assert_eq!(cell_key(&XYPoint { x: i64::MAX, y: i64::MAX }), u128::MAX);
    assert_eq!(
        cell_key(&XYPoint { x: 0, y: 0 }),
        (1u128 << 127) + (1u128 << 63)
    );
    assert_ne!(
        cell_key(&XYPoint { x: 0, y: 1 }),
        cell_key(&XYPoint { x: 1, y: 0 })
    );
    assert_ne!(
        cell_key(&XYPoint { x: -1, y: 0 }),
        cell_key(&XYPoint { x: 0, y: -1 })
    );
}

#[test]
fn label_cluster_map_marks_hotspots_only() {
    let points = vec![
        XYPoint { x: 0, y: 0 },
        XYPoint { x: 5, y: 5 },
        XYPoint { x: 0, y: 0 },
        XYPoint { x: 9, y: 9 },
        XYPoint { x: 5, y: 5 },
        XYPoint { x: 0, y: 0 },
    ];
    let labels = label_cluster_map(&points, hist2d(&points), 2);
    assert_eq!(labels.len(), 6);
    assert_eq!(labels[3], -1);
    assert_eq!(labels[0], labels[2]);
    assert_eq!(labels[0], labels[5]);
    assert_eq!(labels[1], labels[4]);
    assert_ne!(labels[0], labels[1]);
    let mut used = vec![labels[0], labels[1]];
    used.sort();
    assert_eq!(used, vec![0, 1]);

    let none = label_cluster_map(&points, hist2d(&points), 4);
    assert_eq!(none, vec![-1; 6]);
}

#[test]
fn merge_cluster_labels_takes_the_first_label() {
    let l1 = vec![3, -1, -1, -1, -1];
    let l2 = vec![4, 5, -1, -1, -1];
    let l3 = vec![6, 7, 8, -1, -1];
    let l4 = vec![9, 9, 9, 0, -1];
    assert_eq!(
        merge_cluster_labels(&l1, &l2, &l3, &l4),
        vec![3, 5, 8, 0, -1]
    );
    let empty: Vec<i32> = vec![];
    assert_eq!(
        merge_cluster_labels(&empty, &empty, &empty, &empty),
        Vec::<i32>::new()
    );
}

fn shifted_cell(p: XYPoint<f64>, quantum: f64, shift_x: bool, shift_y: bool) -> XYPoint<i64> {
    let x = if shift_x { p.x + quantum / 2.0 } else { p.x };
    let y = if shift_y { p.y + quantum / 2.0 } else { p.y };
    XYPoint {
        x: (x / quantum).round() as i64,
        y: (y / quantum).round() as i64,
    }
}

/// Stands where an index is asked for and none is used.
struct NoTree;

impl SearchTree for NoTree {
    type Coord = f64;

    fn from_points(_points: &Vec<XYPoint<f64>>) -> Self {
        NoTree
    }

    fn neighbors(&self, _point: &XYPoint<f64>, _radius: f64) -> Vec<usize> {
        Vec::new()
    }
}

fn hotspot2d(points: &Vec<XYPoint<f64>>, eps: f64, min_cluster_size: usize) -> Vec<i32> {
    find_clusters_hotspot2d(points, eps, min_cluster_size, shifted_cell)
}

#[test]
fn test_find_clusters_near_miss() {
    let points = vec![
        XYPoint::new(1.0, 0.0),
        XYPoint::new(1.0, 0.0),
        XYPoint::new(1.0, 0.0),
        XYPoint::new(1.0, 1.0),
        XYPoint::new(2.0, 0.0),
        XYPoint::new(2.0, 0.0),
        XYPoint::new(2.0, 0.0),
        XYPoint::new(2.0, 0.0),
    ];
    let clusters = find_clusters::<NoTree, NoTree, NoTree, _>(
        &points,
        1.0,
        4,
        &ClusterAlgorithm::Hotspot2D,
        shifted_cell,
    );
    let expect = vec![-1, -1, -1, -1, 0, 0, 0, 0];
    assert_eq!(clusters, expect);
}

#[test]
fn hotspot_found_only_on_a_shifted_grid() {
    // Two pairs on either side of a cell boundary of the first grid.
    let points = vec![
        XYPoint::new(0.4, 0.0),
        XYPoint::new(0.45, 0.0),
        XYPoint::new(0.55, 0.0),
        XYPoint::new(0.6, 0.0),
        XYPoint::new(7.0, 7.0),
    ];
    let labels = hotspot2d(&points, 1.0, 4);
    assert_eq!(labels, vec![0, 0, 0, 0, -1]);
}

#[test]
fn hotspot_labels_do_not_depend_on_input_order() {
    let a = XYPoint { x: 0, y: 0 };
    let b = XYPoint { x: 3, y: 3 };
    let c = XYPoint { x: 8, y: 1 };
    let points = vec![a, b, a, c, b, a];
    let permuted = vec![a, a, a, b, b, c];
    let labels = label_grids(&points, &points, &points, &points, 2);
    let other = label_grids(&permuted, &permuted, &permuted, &permuted, 2);
    assert_eq!(labels[3], -1);
    assert_eq!(other[5], -1);
    assert_eq!(labels[0], labels[2]);
    assert_eq!(labels[0], labels[5]);
    assert_eq!(labels[1], labels[4]);
    assert_ne!(labels[0], labels[1]);
    assert_eq!(other[0], other[1]);
    assert_eq!(other[0], other[2]);
    assert_eq!(other[3], other[4]);
    assert_ne!(other[0], other[3]);
}

#[test]
fn hist2d_groups_many_points() {
    let points: Vec<XYPoint<i64>> = (0..1000)
        .map(|i: i64| XYPoint { x: i % 10 - 5, y: -(i % 10) })
        .collect();
    let map = hist2d(&points);
    assert_eq!(map.len(), 10);
    for c in 0..10usize {
        let cell = XYPoint { x: c as i64 - 5, y: -(c as i64) };
        let expect: Vec<usize> = (0..100).map(|k| 10 * k + c).collect();
        assert_eq!(map[&cell_key(&cell)], expect);
    }
    let labels = label_cluster_map(&points, map, 100);
    let mut used: Vec<i32> = labels[..10].to_vec();
    used.sort();
    assert_eq!(used, (0..10).collect::<Vec<i32>>());
    for (i, label) in labels.iter().enumerate() {
        assert_eq!(*label, labels[i % 10]);
    }
}

#[test]
fn label_cluster_map_goes_by_the_map_it_is_given() {
    // The map is the histogram of other points: it knows a hotspot at
    // (1, 1) and a cell with one point at (2, 2).
    let counted = vec![
        XYPoint { x: 1, y: 1 },
        XYPoint { x: 1, y: 1 },
        XYPoint { x: 2, y: 2 },
    ];
    let points = vec![
        XYPoint { x: 2, y: 2 },
        XYPoint { x: 1, y: 1 },
        XYPoint { x: 3, y: 3 },
    ];
    assert_eq!(label_cluster_map(&points, hist2d(&counted), 2), vec![-1, 0, -1]);
    assert_eq!(
        label_cluster_map(&vec![], hist2d(&counted), 1),
        Vec::<i32>::new()
    );
}
