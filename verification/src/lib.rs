//! Velocity-grid cluster search: density clustering of planar observations
//! after subtracting a candidate linear motion, and the assembly of the
//! clusters found into result tables.

use vstd::prelude::*;

pub mod dbscan;
pub mod gridsearch;
pub mod hotspot2d;
pub mod points;
pub mod tables;

pub use points::{XYPoint, XYTPoint};

use dbscan::laws::lemma_track_at_rest;
use dbscan::{
    can_cluster, is_dbscan_labeling, is_reflexive, is_symmetric, neighbor_graph, SearchTree,
};
use hotspot2d::{
    find_clusters_hotspot2d, is_function, is_hotspot2d_labeling, lemma_hotspot_track_at_rest,
};

verus! {

/// The clustering primitive to run on each reprojection.
#[derive(Clone, Copy, Debug, PartialEq, Eq)]
pub enum ClusterAlgorithm {
    /// Density clustering over a k-d tree of 32-bit coordinates.
    DBSCAN,
    /// Four shifted grid histograms.
    Hotspot2D,
    /// Density clustering over an R*-tree.
    DbscanRStar,
    /// Density clustering over a k-d tree of 16-bit fixed-point coordinates.
    DbscanFixed16,
}

/// What `find_clusters` needs of the points for the algorithm `alg`: the
/// index of the algorithm can be built over them and asked at each of them,
/// or, for the grids, every point can be quantised.
pub open spec fn can_find_clusters<K, R, X, Q>(
    points: Seq<XYPoint<K::Coord>>,
    eps: K::Coord,
    alg: ClusterAlgorithm,
    cell: Q,
) -> bool where
    K: SearchTree,
    R: SearchTree<Coord = K::Coord>,
    X: SearchTree<Coord = K::Coord>,
    Q: Fn(XYPoint<K::Coord>, K::Coord, bool, bool) -> XYPoint<i64>,
 {
    match alg {
        ClusterAlgorithm::DBSCAN => can_cluster::<K>(points, eps),
        ClusterAlgorithm::DbscanRStar => can_cluster::<R>(points, eps),
        ClusterAlgorithm::DbscanFixed16 => can_cluster::<X>(points, eps),
        ClusterAlgorithm::Hotspot2D => {
            &&& points.len() <= i32::MAX
            &&& forall|i: int, shift_x: bool, shift_y: bool|
                0 <= i < points.len() ==> #[trigger] call_requires(
                    cell,
                    (points[i], eps, shift_x, shift_y),
                )
        },
    }
}

/// What `find_clusters` returns for the algorithm `alg`: the density
/// clustering of the points under the metric of the index of the algorithm,
/// or, for the grids, a merged labeling of their hotspots.
pub open spec fn is_clustering<K, R, X, Q>(
    points: Seq<XYPoint<K::Coord>>,
    eps: K::Coord,
    min_cluster_size: usize,
    alg: ClusterAlgorithm,
    cell: Q,
    labels: Seq<i32>,
) -> bool where
    K: SearchTree,
    R: SearchTree<Coord = K::Coord>,
    X: SearchTree<Coord = K::Coord>,
    Q: Fn(XYPoint<K::Coord>, K::Coord, bool, bool) -> XYPoint<i64>,
 {
    match alg {
        ClusterAlgorithm::DBSCAN => is_dbscan_labeling(
            neighbor_graph::<K>(points, eps, min_cluster_size as int),
            labels,
        ),
        ClusterAlgorithm::DbscanRStar => is_dbscan_labeling(
            neighbor_graph::<R>(points, eps, min_cluster_size as int),
            labels,
        ),
        ClusterAlgorithm::DbscanFixed16 => is_dbscan_labeling(
            neighbor_graph::<X>(points, eps, min_cluster_size as int),
            labels,
        ),
        ClusterAlgorithm::Hotspot2D => is_hotspot2d_labeling(
            points,
            eps,
            cell,
            min_cluster_size,
            labels,
        ),
    }
}

/// Labels each point with its cluster, or with `-1`, by the algorithm that
/// `alg` names.
///
/// `K` is the k-d tree of `DBSCAN`, `R` the R*-tree of `DbscanRStar`, `X`
/// the fixed-point k-d tree of `DbscanFixed16`, and `cell` quantises a
/// point for `Hotspot2D`, which uses no index.
pub fn find_clusters<K, R, X, Q>(
    points: &Vec<XYPoint<K::Coord>>,
    eps: K::Coord,
    min_cluster_size: usize,
    alg: &ClusterAlgorithm,
    cell: Q,
) -> (labels: Vec<i32>) where
    K: SearchTree,
    R: SearchTree<Coord = K::Coord>,
    X: SearchTree<Coord = K::Coord>,
    Q: Fn(XYPoint<K::Coord>, K::Coord, bool, bool) -> XYPoint<i64>,

    requires
        can_find_clusters::<K, R, X, Q>(points@, eps, *alg, cell),
    ensures
        labels.len() == points.len(),
        is_clustering::<K, R, X, Q>(points@, eps, min_cluster_size, *alg, cell, labels@),
{
    match alg {
        ClusterAlgorithm::Hotspot2D => find_clusters_hotspot2d(points, eps, min_cluster_size, cell),
        ClusterAlgorithm::DBSCAN => dbscan::find_clusters::<K>(points, eps, min_cluster_size),
        ClusterAlgorithm::DbscanRStar => dbscan::find_clusters::<R>(points, eps, min_cluster_size),
        ClusterAlgorithm::DbscanFixed16 => dbscan::find_clusters::<X>(points, eps, min_cluster_size),
    }
}

/// The metric of the index of `alg` counts every point as within `eps` of
/// itself and does not tell its two points apart, or, for the grids, `cell`
/// gives one cell only for a point.
pub open spec fn is_regular<K, R, X, Q>(eps: K::Coord, alg: ClusterAlgorithm, cell: Q) -> bool where
    K: SearchTree,
    R: SearchTree<Coord = K::Coord>,
    X: SearchTree<Coord = K::Coord>,
    Q: Fn(XYPoint<K::Coord>, K::Coord, bool, bool) -> XYPoint<i64>,
 {
    match alg {
        ClusterAlgorithm::DBSCAN => is_symmetric::<K>(eps) && is_reflexive::<K>(eps),
        ClusterAlgorithm::DbscanRStar => is_symmetric::<R>(eps) && is_reflexive::<R>(eps),
        ClusterAlgorithm::DbscanFixed16 => is_symmetric::<X>(eps) && is_reflexive::<X>(eps),
        ClusterAlgorithm::Hotspot2D => is_function(cell),
    }
}

/// The observations of an object moving at a constant velocity, taken at
/// that velocity, all stand at one place. Where there are
/// `min_cluster_size` of them or more, every algorithm puts them into one
/// cluster, and the density algorithms call it cluster 1.
pub proof fn lemma_track_is_one_cluster<K, R, X, Q>(
    points: Seq<XYPoint<K::Coord>>,
    eps: K::Coord,
    min_cluster_size: usize,
    alg: ClusterAlgorithm,
    cell: Q,
    labels: Seq<i32>,
) where
    K: SearchTree,
    R: SearchTree<Coord = K::Coord>,
    X: SearchTree<Coord = K::Coord>,
    Q: Fn(XYPoint<K::Coord>, K::Coord, bool, bool) -> XYPoint<i64>,

    requires
        points.len() <= usize::MAX,
        points.len() >= min_cluster_size,
        forall|i: int| 0 <= i < points.len() ==> #[trigger] points[i] == points[0],
        is_regular::<K, R, X, Q>(eps, alg, cell),
        is_clustering::<K, R, X, Q>(points, eps, min_cluster_size, alg, cell, labels),
    ensures
        forall|i: int| 0 <= i < points.len() ==> #[trigger] labels[i] != -1,
        forall|i: int, j: int|
            0 <= i < points.len() && 0 <= j < points.len() ==> #[trigger] labels[i]
                == #[trigger] labels[j],
        alg != ClusterAlgorithm::Hotspot2D ==> forall|i: int|
            0 <= i < points.len() ==> #[trigger] labels[i] == 1,
{
    match alg {
        ClusterAlgorithm::DBSCAN => lemma_track_at_rest::<K>(
            points,
            eps,
            min_cluster_size as int,
            labels,
        ),
        ClusterAlgorithm::DbscanRStar => lemma_track_at_rest::<R>(
            points,
            eps,
            min_cluster_size as int,
            labels,
        ),
        ClusterAlgorithm::DbscanFixed16 => lemma_track_at_rest::<X>(
            points,
            eps,
            min_cluster_size as int,
            labels,
        ),
        ClusterAlgorithm::Hotspot2D => lemma_hotspot_track_at_rest(
            points,
            eps,
            cell,
            min_cluster_size,
            labels,
        ),
    }
}

/// Whether the columns of the input all have one length. `lengths` holds
/// the length of each column.
pub fn check_lengths(lengths: &Vec<usize>) -> (out: Result<(), SearchError>)
    ensures
        out is Ok <==> forall|i: int, j: int|
            0 <= i < lengths.len() && 0 <= j < lengths.len() ==> #[trigger] lengths@[i]
                == #[trigger] lengths@[j],
        out is Err ==> out == Err::<(), SearchError>(SearchError::InvalidInput),
{
    let mut i: usize = 1;
    while i < lengths.len()
        invariant
            1 <= i,
            forall|j: int| 0 <= j < i && j < lengths.len() ==> #[trigger] lengths@[j] == lengths@[0],
        decreases lengths.len() - i,
    {
        if lengths[i] != lengths[0] {
            return Err(SearchError::InvalidInput);
        }
        i += 1;
    }
    Ok(())
}

/// Why a search gives no result.
#[derive(Clone, Copy, Debug, PartialEq, Eq)]
pub enum SearchError {
    /// The input does not fit together or lies outside the range that the
    /// chosen index works on.
    InvalidInput,
    /// A worker did not finish.
    WorkerFailure,
    /// The spatial index could not be built.
    IndexBuildFailure,
    /// There are more clusters than cluster numbers.
    TooManyClusters,
}

} // verus!
