//! What holds of every density clustering: the shape of the labels, the
//! size of clusters, what is noise, and that a graph has one clustering
//! only.

use crate::dbscan::{
    attached, is_dbscan_labeling, is_reflexive, is_symmetric, lemma_graph_wf, neighbor_graph,
    seen_before, Graph, SearchTree,
};
use crate::points::XYPoint;
use vstd::prelude::*;

verus! {

/// The cluster numbers that occur in `labels`.
pub open spec fn cluster_numbers(labels: Seq<i32>) -> Set<int> {
    Set::new(|k: int| k >= 1 && exists|i: int| 0 <= i < labels.len() && #[trigger] labels[i] == k)
}

/// The points with label `k`.
pub open spec fn cluster_of(labels: Seq<i32>, k: int) -> Set<int> {
    Set::new(|i: int| 0 <= i < labels.len() && labels[i] == k)
}

/// Dense points joined by a walk over dense points have the same label.
pub proof fn lemma_walk_keeps_label(g: Graph, labels: Seq<i32>, path: Seq<int>)
    requires
        is_dbscan_labeling(g, labels),
        g.core_path(path),
    ensures
        labels[path.first()] == labels[path.last()],
    decreases path.len(),
{
    if path.len() > 1 {
        let head = path.drop_last();
        assert(g.core_path(head)) by {
            assert forall|t: int| 0 <= t < head.len() implies g.is_dense(#[trigger] head[t]) by {
                assert(head[t] == path[t]);
            }
            assert forall|t: int| 0 <= t < head.len() - 1 implies g.adjacent(
                #[trigger] head[t],
                head[t + 1],
            ) by {
                assert(head[t] == path[t]);
                assert(g.adjacent(path[t], path[t + 1]));
            }
        }
        lemma_walk_keeps_label(g, labels, head);
        let t = path.len() - 2;
        assert(g.is_dense(path[t]));
        assert(g.is_dense(path[t + 1]));
        assert(g.adjacent(path[t], path[t + 1]));
    }
}

/// Every number from 1 up to a label that occurs is the label of some
/// point: the clusters are numbered without gaps.
pub proof fn lemma_labels_without_gaps(g: Graph, labels: Seq<i32>, i: int, k: int)
    requires
        is_dbscan_labeling(g, labels),
        0 <= i < labels.len(),
        1 <= k <= labels[i],
    ensures
        cluster_numbers(labels).contains(k),
{
    let c = if g.is_dense(i) {
        i
    } else {
        assert(attached(g, labels, i));
        choose|c: int| g.is_dense(c) && #[trigger] g.adjacent(c, i) && labels[c] == labels[i]
    };
    if k < labels[c] {
        assert(seen_before(g, labels, c, k));
        let j = choose|j: int| 0 <= j < c && #[trigger] g.is_dense(j) && labels[j] == k;
        assert(labels[j] == k);
    } else {
        assert(labels[c] == k);
    }
}

/// Every label is `-1` or lies between 1 and the number of different
/// cluster numbers in use.
pub proof fn lemma_label_shape(g: Graph, labels: Seq<i32>)
    requires
        is_dbscan_labeling(g, labels),
    ensures
        cluster_numbers(labels).finite(),
        forall|i: int|
            0 <= i < labels.len() ==> #[trigger] labels[i] == -1 || 1 <= labels[i]
                <= cluster_numbers(labels).len(),
{
    let numbers = cluster_numbers(labels);
    let top = highest_label(g, labels, labels.len() as int);
    assert forall|k: int| numbers.contains(k) <==> 1 <= k <= top by {
        if numbers.contains(k) {
            let i = choose|i: int| 0 <= i < labels.len() && #[trigger] labels[i] == k;
            assert(labels[i] <= top);
        }
        if 1 <= k <= top {
            let i = choose|i: int| 0 <= i < labels.len() && #[trigger] labels[i] == top;
            lemma_labels_without_gaps(g, labels, i, k);
        }
    }
    vstd::set_lib::lemma_int_range(1, top + 1);
    assert(numbers =~= vstd::set_lib::set_int_range(1, top + 1));
}

/// The greatest label among the first `upto` points, or 0 where none of
/// them is in a cluster.
proof fn highest_label(g: Graph, labels: Seq<i32>, upto: int) -> (top: int)
    requires
        is_dbscan_labeling(g, labels),
        0 <= upto <= labels.len(),
    ensures
        top >= 0,
        forall|i: int| 0 <= i < upto ==> #[trigger] labels[i] <= top,
        top > 0 ==> exists|i: int| 0 <= i < upto && #[trigger] labels[i] == top,
    decreases upto,
{
    if upto == 0 {
        0
    } else {
        let before = highest_label(g, labels, upto - 1);
        if labels[upto - 1] > before {
            labels[upto - 1] as int
        } else {
            if before > 0 {
                let i = choose|i: int| 0 <= i < upto - 1 && #[trigger] labels[i] == before;
                assert(0 <= i < upto && labels[i] == before);
            }
            before
        }
    }
}

/// A point with no neighbour but itself is noise, where a cluster takes
/// more than one point.
pub proof fn lemma_isolated_is_noise(g: Graph, labels: Seq<i32>, i: int)
    requires
        g.wf(),
        is_dbscan_labeling(g, labels),
        g.min_size >= 2,
        0 <= i < g.len(),
        forall|j: int| #[trigger] g.adjacent(i, j) ==> j == i,
    ensures
        labels[i] == -1,
{
    assert(g.hoods[i].len() <= 1) by {
        assert forall|m: int| g.hoods[i].contains(m) implies set![i].contains(m) by {
            assert(g.adjacent(i, m));
        }
        vstd::set_lib::lemma_len_subset(g.hoods[i], set![i]);
    }
    assert forall|j: int| g.is_dense(j) implies !#[trigger] g.adjacent(j, i) by {
        if g.adjacent(j, i) {
            assert(g.hoods[j].contains(i));
            assert(g.adjacent(i, j));
        }
    }
    assert(g.is_noise(i));
}

/// A cluster holds a dense point and every neighbour of its dense points
/// that no cluster with a lower number holds; so where the neighbours of
/// one of its dense points are in no lower cluster, it has at least
/// `min_size` points, and that dense point has another point of the
/// cluster next to it where `min_size` is 2 or more.
pub proof fn lemma_cluster_size(g: Graph, labels: Seq<i32>, s: int)
    requires
        g.wf(),
        is_dbscan_labeling(g, labels),
        g.is_dense(s),
        forall|m: int| #[trigger] g.adjacent(s, m) ==> labels[m] >= labels[s],
    ensures
        labels[s] >= 1,
        g.hoods[s].subset_of(cluster_of(labels, labels[s] as int)),
        cluster_of(labels, labels[s] as int).finite(),
        cluster_of(labels, labels[s] as int).len() >= g.min_size,
        g.min_size >= 2 ==> exists|m: int| m != s && #[trigger] g.adjacent(s, m) && labels[m] == labels[s],
{
    let k = labels[s] as int;
    let cluster = cluster_of(labels, k);
    assert(labels[s] >= 1) by {
        assert(!g.is_noise(s));
    }
    assert forall|m: int| g.hoods[s].contains(m) implies cluster.contains(m) by {
        assert(g.adjacent(s, m));
        if g.is_dense(m) {
            assert(labels[s] == labels[m]);
        } else {
            assert(labels[m] <= labels[s]);
        }
    }
    let all = vstd::set_lib::set_int_range(0, labels.len() as int);
    vstd::set_lib::lemma_int_range(0, labels.len() as int);
    assert(cluster.subset_of(all));
    vstd::set_lib::lemma_len_subset(cluster, all);
    vstd::set_lib::lemma_len_subset(g.hoods[s], cluster);
    if g.min_size >= 2 {
        if forall|m: int| g.hoods[s].contains(m) ==> m == s {
            assert(g.hoods[s].subset_of(set![s]));
            vstd::set_lib::lemma_len_subset(g.hoods[s], set![s]);
        }
        let m = choose|m: int| g.hoods[s].contains(m) && m != s;
        assert(g.adjacent(s, m));
        assert(cluster.contains(m));
    }
}

/// In the cluster with number 1 no point was taken by a cluster before it:
/// it always has at least `min_size` points.
pub proof fn lemma_first_cluster_size(g: Graph, labels: Seq<i32>, i: int)
    requires
        g.wf(),
        is_dbscan_labeling(g, labels),
        0 <= i < g.len(),
        labels[i] == 1,
    ensures
        cluster_of(labels, 1).finite(),
        cluster_of(labels, 1).len() >= g.min_size,
{
    let s = if g.is_dense(i) {
        i
    } else {
        assert(attached(g, labels, i));
        choose|c: int| g.is_dense(c) && #[trigger] g.adjacent(c, i) && labels[c] == labels[i]
    };
    assert forall|m: int| #[trigger] g.adjacent(s, m) implies labels[m] >= labels[s] by {
        if g.is_dense(m) {
            assert(labels[s] == labels[m]);
        } else {
            assert(g.adjacent(m, s));
            assert(!g.is_noise(m));
        }
    }
    lemma_cluster_size(g, labels, s);
}

/// A graph has one clustering only: whatever the order in which
/// neighbours are listed or clusters are grown, the labels are the same.
pub proof fn lemma_labeling_unique(g: Graph, a: Seq<i32>, b: Seq<i32>)
    requires
        g.wf(),
        is_dbscan_labeling(g, a),
        is_dbscan_labeling(g, b),
    ensures
        a == b,
{
    lemma_dense_labels_agree(g, a, b, g.len());
    assert forall|i: int| 0 <= i < g.len() implies a[i] == b[i] by {
        if !g.is_dense(i) {
            if a[i] != -1 {
                assert(b[i] != -1);
                assert(attached(g, a, i));
                assert(attached(g, b, i));
                let ca = choose|c: int|
                    g.is_dense(c) && #[trigger] g.adjacent(c, i) && a[c] == a[i];
                let cb = choose|c: int|
                    g.is_dense(c) && #[trigger] g.adjacent(c, i) && b[c] == b[i];
                assert(b[i] <= b[ca]);
                assert(a[i] <= a[cb]);
            }
        }
    }
    assert(a =~= b);
}

/// Two clusterings of a graph agree on its first `upto` points where these
/// are dense.
proof fn lemma_dense_labels_agree(g: Graph, a: Seq<i32>, b: Seq<i32>, upto: int)
    requires
        g.wf(),
        is_dbscan_labeling(g, a),
        is_dbscan_labeling(g, b),
        0 <= upto <= g.len(),
    ensures
        forall|j: int| 0 <= j < upto && g.is_dense(j) ==> #[trigger] a[j] == b[j],
    decreases upto,
{
    if upto > 0 {
        lemma_dense_labels_agree(g, a, b, upto - 1);
        let j = upto - 1;
        if g.is_dense(j) {
            assert(!g.is_noise(j));
            if a[j] < b[j] {
                lemma_earlier_label_joins(g, b, a, j);
            } else if b[j] < a[j] {
                lemma_earlier_label_joins(g, a, b, j);
            }
        }
    }
}

/// Where two clusterings agree on the dense points before dense point
/// `j`, the label of `j` in one is not below its label in the other.
proof fn lemma_earlier_label_joins(g: Graph, high: Seq<i32>, low: Seq<i32>, j: int)
    requires
        g.wf(),
        is_dbscan_labeling(g, high),
        is_dbscan_labeling(g, low),
        g.is_dense(j),
        1 <= low[j] <= high[j],
        forall|i: int| 0 <= i < j && g.is_dense(i) ==> #[trigger] high[i] == low[i],
    ensures
        low[j] == high[j],
{
    if low[j] < high[j] {
        assert(seen_before(g, high, j, low[j] as int));
        let i = choose|i: int| 0 <= i < j && #[trigger] g.is_dense(i) && high[i] == low[j];
        assert(low[i] == low[j]);
        assert(g.connected(i, j));
        let path = choose|path: Seq<int>|
            #[trigger] g.core_path(path) && path.first() == i && path.last() == j;
        lemma_walk_keeps_label(g, high, path);
    }
}

/// Points that are all within the radius of each other, `min_size` of them
/// or more, are in one cluster: so are the observations of an object after
/// its motion has been taken out.
pub proof fn lemma_track_is_one_cluster(g: Graph, labels: Seq<i32>, track: Set<int>)
    requires
        g.wf(),
        is_dbscan_labeling(g, labels),
        track.finite(),
        track.len() >= g.min_size,
        forall|i: int, j: int| track.contains(i) && track.contains(j) ==> #[trigger] g.adjacent(i, j),
    ensures
        forall|i: int| track.contains(i) ==> #[trigger] g.is_dense(i),
        forall|i: int| track.contains(i) ==> #[trigger] labels[i] >= 1,
        forall|i: int, j: int|
            track.contains(i) && track.contains(j) ==> #[trigger] labels[i] == #[trigger] labels[j],
{
    assert forall|i: int| track.contains(i) implies g.is_dense(i) && #[trigger] labels[i] >= 1 by {
        assert(g.adjacent(i, i));
        assert forall|j: int| track.contains(j) implies g.hoods[i].contains(j) by {
            assert(g.adjacent(i, j));
        }
        vstd::set_lib::lemma_len_subset(track, g.hoods[i]);
        assert(!g.is_noise(i));
    }
    assert forall|i: int, j: int| track.contains(i) && track.contains(j) implies #[trigger] labels[i]
        == #[trigger] labels[j] by {
        assert(labels[i] >= 1 && labels[j] >= 1);
        assert(g.adjacent(i, j));
    }
    assert forall|i: int| track.contains(i) implies #[trigger] g.is_dense(i) by {
        assert(labels[i] >= 1);
    }
}

/// Points that all stand at one place are one cluster, the first, where
/// there are `min_size` of them or more and the metric counts a point as
/// within the radius of itself: so is a track taken at its own velocity,
/// under any index with such a metric.
pub proof fn lemma_track_at_rest<T: SearchTree>(
    points: Seq<XYPoint<T::Coord>>,
    eps: T::Coord,
    min_size: int,
    labels: Seq<i32>,
)
    requires
        is_symmetric::<T>(eps),
        is_reflexive::<T>(eps),
        points.len() >= min_size,
        forall|i: int| 0 <= i < points.len() ==> #[trigger] points[i] == points[0],
        is_dbscan_labeling(neighbor_graph::<T>(points, eps, min_size), labels),
    ensures
        forall|i: int| 0 <= i < points.len() ==> #[trigger] labels[i] == 1,
{
    let g = neighbor_graph::<T>(points, eps, min_size);
    let n = points.len() as int;
    lemma_graph_wf::<T>(points, eps, min_size);
    if n > 0 {
        let track = vstd::set_lib::set_int_range(0, n);
        vstd::set_lib::lemma_int_range(0, n);
        assert forall|i: int, j: int| track.contains(i) && track.contains(j) implies #[trigger] g.adjacent(
            i,
            j,
        ) by {
            assert(points[i] == points[0] && points[j] == points[0]);
            assert(T::within(points[0], points[0], eps));
        }
        lemma_track_is_one_cluster(g, labels, track);
        assert(track.contains(0));
        assert(g.is_dense(0));
        if labels[0] > 1 {
            assert(seen_before(g, labels, 0, 1));
        }
        assert forall|i: int| 0 <= i < points.len() implies #[trigger] labels[i] == 1 by {
            assert(track.contains(i));
            assert(labels[i] == labels[0]);
        }
    }
}

} // verus!
