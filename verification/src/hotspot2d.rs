//! Clustering by binning: points that share a grid cell with enough others
//! form a cluster.
//!
//! Points arrive here already quantised to integer cell coordinates. A cell
//! is named in maps by a single integer, its key.

use crate::points::XYPoint;
use std::collections::HashMap;
use vstd::prelude::*;

verus! {

broadcast use vstd::std_specs::hash::group_hash_axioms;

/// The key of a cell: its two coordinates, each moved into `0..2^64`, side
/// by side.
pub open spec fn cell_key_of(cell: XYPoint<i64>) -> u128 {
    ((cell.x + 0x8000_0000_0000_0000) * 0x1_0000_0000_0000_0000 + (cell.y
        + 0x8000_0000_0000_0000)) as u128
}

/// The cell that a key names.
pub open spec fn key_cell(key: u128) -> XYPoint<i64> {
    XYPoint {
        x: (key / 0x1_0000_0000_0000_0000 - 0x8000_0000_0000_0000) as i64,
        y: (key % 0x1_0000_0000_0000_0000 - 0x8000_0000_0000_0000) as i64,
    }
}

/// Every cell is the cell of its key.
pub proof fn lemma_key_cell_of_cell(cell: XYPoint<i64>)
    ensures
        key_cell(cell_key_of(cell)) == cell,
{
}

/// Every key is the key of its cell.
pub proof fn lemma_cell_key_of_key(key: u128)
    ensures
        cell_key_of(key_cell(key)) == key,
{
}

/// Computes the key of a cell.
pub fn cell_key(cell: &XYPoint<i64>) -> (key: u128)
    ensures
        key == cell_key_of(*cell),
{
    let x: u128 = (cell.x as i128 + 0x8000_0000_0000_0000) as u128;
    let y: u128 = (cell.y as i128 + 0x8000_0000_0000_0000) as u128;
    x * 0x1_0000_0000_0000_0000 + y
}

/// The positions in `points` at which `cell` stands, in increasing order.
pub open spec fn cell_members(points: Seq<XYPoint<i64>>, cell: XYPoint<i64>) -> Seq<usize>
    decreases points.len(),
{
    if points.len() == 0 {
        Seq::empty()
    } else {
        let before = cell_members(points.drop_last(), cell);
        if points.last() == cell {
            before.push((points.len() - 1) as usize)
        } else {
            before
        }
    }
}

/// Number of points in `cell`.
pub open spec fn occupancy(points: Seq<XYPoint<i64>>, cell: XYPoint<i64>) -> nat {
    cell_members(points, cell).len()
}

/// `map` holds, under the key of each cell that holds a point, the
/// positions of the points in that cell, and holds nothing else.
pub open spec fn is_histogram(points: Seq<XYPoint<i64>>, map: Map<u128, Vec<usize>>) -> bool {
    &&& forall|key: u128| #[trigger] map.contains_key(key) <==> occupancy(points, key_cell(key)) > 0
    &&& forall|key: u128|
        map.contains_key(key) ==> (#[trigger] map[key])@ == cell_members(points, key_cell(key))
}

/// Groups the positions of `points` by cell.
pub fn hist2d(points: &Vec<XYPoint<i64>>) -> (map: HashMap<u128, Vec<usize>>)
    ensures
        is_histogram(points@, map@),
        map@.len() <= points.len(),
{
    let mut map: HashMap<u128, Vec<usize>> = HashMap::new();
    let mut i: usize = 0;
    while i < points.len()
        invariant
            i <= points.len(),
            is_histogram(points@.take(i as int), map@),
            map@.len() <= i,
        decreases points.len() - i,
    {
        let key = cell_key(&points[i]);
        let ghost before = map@;
        let mut members = match map.remove(&key) {
            Some(found) => found,
            None => Vec::new(),
        };
        members.push(i);
        map.insert(key, members);
        proof {
            let head = points@.take(i as int);
            let next = points@.take(i + 1);
            assert(next.drop_last() =~= head);
            lemma_key_cell_of_cell(points@[i as int]);
            assert forall|other: u128| #[trigger]
                map@.contains_key(other) <==> occupancy(next, key_cell(other)) > 0 by {
                lemma_cell_key_of_key(other);
                assert(before.contains_key(other) <==> occupancy(head, key_cell(other)) > 0);
            }
            assert forall|other: u128| map@.contains_key(other) implies (#[trigger] map@[other])@
                == cell_members(next, key_cell(other)) by {
                lemma_cell_key_of_key(other);
                if before.contains_key(other) {
                    assert(before[other]@ == cell_members(head, key_cell(other)));
                }
            }
        }
        i += 1;
    }
    proof {
        assert(points@.take(points.len() as int) =~= points@);
    }
    map
}

/// The cell under `key` holds at least `min_size` points.
pub open spec fn is_hotspot(map: Map<u128, Vec<usize>>, min_size: usize, key: u128) -> bool {
    map.contains_key(key) && map[key].len() >= min_size
}

/// The keys of the cells that hold at least `min_size` points.
pub open spec fn hotspots(map: Map<u128, Vec<usize>>, min_size: usize) -> Set<u128> {
    Set::new(|key: u128| is_hotspot(map, min_size, key))
}

/// `labels` marks the points in hotspots of `map`: a point outside every
/// hotspot has `-1`, the points of one hotspot share a number below the
/// number of hotspots, and different hotspots have different numbers.
pub open spec fn is_cell_labeling(
    points: Seq<XYPoint<i64>>,
    map: Map<u128, Vec<usize>>,
    min_size: usize,
    labels: Seq<i32>,
) -> bool {
    &&& labels.len() == points.len()
    &&& forall|i: int|
        0 <= i < points.len() ==> (#[trigger] labels[i] == -1 <==> !is_hotspot(
            map,
            min_size,
            cell_key_of(points[i]),
        ))
    &&& forall|i: int|
        0 <= i < points.len() && #[trigger] labels[i] != -1 ==> 0 <= labels[i] < hotspots(
            map,
            min_size,
        ).len()
    &&& forall|i: int, j: int|
        0 <= i < points.len() && 0 <= j < points.len() && #[trigger] labels[i] != -1
            && #[trigger] labels[j] != -1 ==> (labels[i] == labels[j] <==> points[i] == points[j])
}

/// Numbers the hotspots of `cluster_map` from 0, in the order in which the
/// map hands them out, and labels each point with the number of its cell,
/// or with `-1` where its cell is no hotspot.
pub fn label_cluster_map(
    points: &Vec<XYPoint<i64>>,
    cluster_map: HashMap<u128, Vec<usize>>,
    min_size: usize,
) -> (labels: Vec<i32>)
    requires
        cluster_map@.len() <= i32::MAX,
    ensures
        is_cell_labeling(points@, cluster_map@, min_size, labels@),
{
    let mut label_map: HashMap<u128, i32> = HashMap::new();
    let mut label: i32 = 0;
    for entry in it: cluster_map.iter()
        invariant
            it.seq().len() == cluster_map@.dom().len(),
            it.seq().no_duplicates(),
            cluster_map@.len() <= i32::MAX,
            forall|t: int|
                0 <= t < it.seq().len() ==> cluster_map@.contains_key(*(#[trigger] it.seq()[t]).0)
                    && cluster_map@[*it.seq()[t].0] == *it.seq()[t].1,
            forall|key: u128| #[trigger]
                cluster_map@.contains_key(key) ==> exists|t: int|
                    0 <= t < it.seq().len() && *(#[trigger] it.seq()[t]).0 == key,
            0 <= label <= it.index(),
            label == label_map@.len(),
            forall|key: u128| #[trigger]
                label_map@.contains_key(key) <==> is_hotspot(cluster_map@, min_size, key)
                    && exists|t: int| 0 <= t < it.index() && *(#[trigger] it.seq()[t]).0 == key,
            forall|key: u128| #[trigger] label_map@.contains_key(key) ==> 0 <= label_map@[key] < label,
            forall|a: u128, b: u128|
                label_map@.contains_key(a) && label_map@.contains_key(b) && a != b
                    ==> #[trigger] label_map@[a] != #[trigger] label_map@[b],
    {
        let (key, members) = entry;
        let ghost at = it.index() as int;
        assert(entry == it.seq()[at]);
        let ghost before = label_map@;
        if members.len() >= min_size {
            assert(!before.contains_key(*key)) by {
                if before.contains_key(*key) {
                    let t = choose|t: int| 0 <= t < at && *(#[trigger] it.seq()[t]).0 == *key;
                    assert(it.seq()[t] == it.seq()[at]);
                }
            }
            label_map.insert(*key, label);
            label += 1;
        }
        proof {
            assert forall|other: u128| #[trigger]
                label_map@.contains_key(other) <==> is_hotspot(cluster_map@, min_size, other)
                    && exists|t: int| 0 <= t < at + 1 && *(#[trigger] it.seq()[t]).0 == other by {
                if before.contains_key(other) {
                    let t = choose|t: int| 0 <= t < at && *(#[trigger] it.seq()[t]).0 == other;
                    assert(0 <= t < at + 1 && *it.seq()[t].0 == other);
                }
                if is_hotspot(cluster_map@, min_size, other) && exists|t: int|
                    0 <= t < at + 1 && *(#[trigger] it.seq()[t]).0 == other {
                    let t = choose|t: int| 0 <= t < at + 1 && *(#[trigger] it.seq()[t]).0 == other;
                    if t < at {
                        assert(before.contains_key(other));
                    }
                }
            }
        }
    }
    proof {
        assert(label_map@.dom() =~= hotspots(cluster_map@, min_size));
    }
    let mut labels: Vec<i32> = Vec::new();
    let mut i: usize = 0;
    while i < points.len()
        invariant
            i <= points.len(),
            labels.len() == i,
            label == hotspots(cluster_map@, min_size).len(),
            forall|key: u128| #[trigger]
                label_map@.contains_key(key) <==> is_hotspot(cluster_map@, min_size, key),
            forall|key: u128| #[trigger] label_map@.contains_key(key) ==> 0 <= label_map@[key] < label,
            forall|a: u128, b: u128|
                label_map@.contains_key(a) && label_map@.contains_key(b) && a != b
                    ==> #[trigger] label_map@[a] != #[trigger] label_map@[b],
            forall|j: int|
                0 <= j < i ==> #[trigger] labels@[j] == (if label_map@.contains_key(
                    cell_key_of(points@[j]),
                ) {
                    label_map@[cell_key_of(points@[j])]
                } else {
                    -1i32
                }),
        decreases points.len() - i,
    {
        let key = cell_key(&points[i]);
        match label_map.get(&key) {
            Some(group) => labels.push(*group),
            None => labels.push(-1),
        }
        i += 1;
    }
    proof {
        assert forall|i: int, j: int|
            0 <= i < points.len() && 0 <= j < points.len() && #[trigger] labels@[i] != -1
                && #[trigger] labels@[j] != -1 implies (labels@[i] == labels@[j] <==> points@[i]
            == points@[j]) by {
            lemma_key_cell_of_cell(points@[i]);
            lemma_key_cell_of_cell(points@[j]);
        }
    }
    labels
}

/// The first of four labels that is not `-1`, or `-1`.
pub open spec fn first_label(a: i32, b: i32, c: i32, d: i32) -> i32 {
    if a != -1 {
        a
    } else if b != -1 {
        b
    } else if c != -1 {
        c
    } else {
        d
    }
}

/// Merges four label vectors point by point: each point takes the first of
/// its four labels that is not `-1`.
pub fn merge_cluster_labels(l1: &Vec<i32>, l2: &Vec<i32>, l3: &Vec<i32>, l4: &Vec<i32>) -> (labels:
    Vec<i32>)
    requires
        l2.len() >= l1.len(),
        l3.len() >= l1.len(),
        l4.len() >= l1.len(),
    ensures
        labels.len() == l1.len(),
        forall|i: int|
            0 <= i < l1.len() ==> #[trigger] labels@[i] == first_label(l1@[i], l2@[i], l3@[i], l4@[i]),
{
    let mut labels: Vec<i32> = Vec::new();
    let mut i: usize = 0;
    while i < l1.len()
        invariant
            i <= l1.len(),
            l2.len() >= l1.len(),
            l3.len() >= l1.len(),
            l4.len() >= l1.len(),
            labels.len() == i,
            forall|j: int|
                0 <= j < i ==> #[trigger] labels@[j] == first_label(l1@[j], l2@[j], l3@[j], l4@[j]),
        decreases l1.len() - i,
    {
        let label = if l1[i] != -1 {
            l1[i]
        } else if l2[i] != -1 {
            l2[i]
        } else if l3[i] != -1 {
            l3[i]
        } else if l4[i] != -1 {
            l4[i]
        } else {
            -1
        };
        labels.push(label);
        i += 1;
    }
    labels
}

/// A point is among the members of its own cell, and the members of a cell
/// are positions of points in that cell.
pub proof fn lemma_cell_members(points: Seq<XYPoint<i64>>, cell: XYPoint<i64>)
    requires
        points.len() <= usize::MAX,
    ensures
        forall|i: int|
            0 <= i < points.len() && points[i] == cell ==> #[trigger] cell_members(
                points,
                cell,
            ).contains(i as usize),
        forall|t: int|
            0 <= t < cell_members(points, cell).len() ==> (#[trigger] cell_members(points, cell)[t])
                < points.len() && points[cell_members(points, cell)[t] as int] == cell,
        forall|s: int, t: int|
            0 <= s < t < cell_members(points, cell).len() ==> cell_members(points, cell)[s]
                < cell_members(points, cell)[t],
    decreases points.len(),
{
    if points.len() > 0 {
        let head = points.drop_last();
        let before = cell_members(head, cell);
        let all = cell_members(points, cell);
        lemma_cell_members(head, cell);
        assert forall|i: int| 0 <= i < points.len() && points[i] == cell implies all.contains(
            i as usize,
        ) by {
            if i < points.len() - 1 {
                assert(head[i] == cell);
                assert(before.contains(i as usize));
                let t = choose|t: int| 0 <= t < before.len() && before[t] == i as usize;
                assert(all[t] == i as usize);
            } else {
                assert(all[all.len() - 1] == i as usize);
            }
        }
        assert forall|t: int| 0 <= t < all.len() implies (#[trigger] all[t]) < points.len()
            && points[all[t] as int] == cell by {
            if t < before.len() {
                assert(all[t] == before[t]);
                assert(head[before[t] as int] == cell);
            }
        }
        assert forall|s: int, t: int| 0 <= s < t < all.len() implies all[s] < all[t] by {
            assert(all[s] == before[s]);
            if t < before.len() {
                assert(all[t] == before[t]);
            }
        }
    }
}

/// The point at `i` stands in a cell with at least `min_size` points.
pub open spec fn in_hotspot(points: Seq<XYPoint<i64>>, min_size: usize, i: int) -> bool {
    occupancy(points, points[i]) >= min_size
}

/// The keys of the cells of `points` that hold at least `min_size` points.
pub open spec fn hot_cells(points: Seq<XYPoint<i64>>, min_size: usize) -> Set<u128> {
    Set::new(
        |key: u128|
            occupancy(points, key_cell(key)) > 0 && occupancy(points, key_cell(key)) >= min_size,
    )
}

/// Which of the four grids decides the label of point `i`: the first in
/// which the point stands in a hotspot, counted from 0, or 4 where it does
/// so in none.
pub open spec fn deciding_grid(
    q1: Seq<XYPoint<i64>>,
    q2: Seq<XYPoint<i64>>,
    q3: Seq<XYPoint<i64>>,
    q4: Seq<XYPoint<i64>>,
    min_size: usize,
    i: int,
) -> int {
    if in_hotspot(q1, min_size, i) {
        0
    } else if in_hotspot(q2, min_size, i) {
        1
    } else if in_hotspot(q3, min_size, i) {
        2
    } else if in_hotspot(q4, min_size, i) {
        3
    } else {
        4
    }
}

/// The grid with the given number.
pub open spec fn grid(
    q1: Seq<XYPoint<i64>>,
    q2: Seq<XYPoint<i64>>,
    q3: Seq<XYPoint<i64>>,
    q4: Seq<XYPoint<i64>>,
    which: int,
) -> Seq<XYPoint<i64>> {
    if which == 0 {
        q1
    } else if which == 1 {
        q2
    } else if which == 2 {
        q3
    } else {
        q4
    }
}

/// `labels` is a merged labeling of one list of points quantised on four
/// grids: a point that stands in no hotspot on any grid has `-1`; any other
/// point is labeled on the first grid on which it stands in a hotspot, with
/// a number below the number of hotspots of that grid, and two points
/// labeled on the same grid share their label exactly when they share their
/// cell there.
pub open spec fn is_hotspot_labeling(
    q1: Seq<XYPoint<i64>>,
    q2: Seq<XYPoint<i64>>,
    q3: Seq<XYPoint<i64>>,
    q4: Seq<XYPoint<i64>>,
    min_size: usize,
    labels: Seq<i32>,
) -> bool {
    &&& labels.len() == q1.len()
    &&& forall|i: int|
        0 <= i < q1.len() ==> (#[trigger] labels[i] == -1 <==> deciding_grid(
            q1,
            q2,
            q3,
            q4,
            min_size,
            i,
        ) == 4)
    &&& forall|i: int|
        0 <= i < q1.len() && #[trigger] labels[i] != -1 ==> 0 <= labels[i] < hot_cells(
            grid(q1, q2, q3, q4, deciding_grid(q1, q2, q3, q4, min_size, i)),
            min_size,
        ).len()
    &&& forall|i: int, j: int|
        0 <= i < q1.len() && 0 <= j < q1.len() && #[trigger] labels[i] != -1
            && #[trigger] labels[j] != -1 && deciding_grid(q1, q2, q3, q4, min_size, i)
            == deciding_grid(q1, q2, q3, q4, min_size, j) ==> (labels[i] == labels[j] <==> grid(
            q1,
            q2,
            q3,
            q4,
            deciding_grid(q1, q2, q3, q4, min_size, i),
        )[i] == grid(q1, q2, q3, q4, deciding_grid(q1, q2, q3, q4, min_size, i))[j])
}

/// What `label_cluster_map` says of the histogram of `points`, over the
/// points alone.
proof fn lemma_grid_labels(
    points: Seq<XYPoint<i64>>,
    map: Map<u128, Vec<usize>>,
    min_size: usize,
    labels: Seq<i32>,
)
    requires
        points.len() <= usize::MAX,
        is_histogram(points, map),
        is_cell_labeling(points, map, min_size, labels),
    ensures
        hotspots(map, min_size) == hot_cells(points, min_size),
        forall|i: int|
            0 <= i < points.len() ==> (#[trigger] labels[i] == -1 <==> !in_hotspot(
                points,
                min_size,
                i,
            )),
{
    assert(hotspots(map, min_size) =~= hot_cells(points, min_size));
    assert forall|i: int| 0 <= i < points.len() implies (#[trigger] labels[i] == -1 <==> !in_hotspot(
        points,
        min_size,
        i,
    )) by {
        lemma_cell_members(points, points[i]);
        lemma_key_cell_of_cell(points[i]);
        assert(cell_members(points, points[i]).contains(i as usize));
        assert(map.contains_key(cell_key_of(points[i])));
    }
}

/// Labels points by the hotspots of four grids.
///
/// `q1` to `q4` hold the cells of the same points on four grids. Each grid
/// is labeled on its own, and each point keeps the first of its four labels
/// that is not `-1`.
pub fn label_grids(
    q1: &Vec<XYPoint<i64>>,
    q2: &Vec<XYPoint<i64>>,
    q3: &Vec<XYPoint<i64>>,
    q4: &Vec<XYPoint<i64>>,
    min_cluster_size: usize,
) -> (labels: Vec<i32>)
    requires
        q1.len() <= i32::MAX,
        q2.len() == q1.len(),
        q3.len() == q1.len(),
        q4.len() == q1.len(),
    ensures
        is_hotspot_labeling(q1@, q2@, q3@, q4@, min_cluster_size, labels@),
{
    let map1 = hist2d(q1);
    let ghost view1 = map1@;
    let labels1 = label_cluster_map(q1, map1, min_cluster_size);
    let map2 = hist2d(q2);
    let ghost view2 = map2@;
    let labels2 = label_cluster_map(q2, map2, min_cluster_size);
    let map3 = hist2d(q3);
    let ghost view3 = map3@;
    let labels3 = label_cluster_map(q3, map3, min_cluster_size);
    let map4 = hist2d(q4);
    let ghost view4 = map4@;
    let labels4 = label_cluster_map(q4, map4, min_cluster_size);
    let labels = merge_cluster_labels(&labels1, &labels2, &labels3, &labels4);
    proof {
        lemma_grid_labels(q1@, view1, min_cluster_size, labels1@);
        lemma_grid_labels(q2@, view2, min_cluster_size, labels2@);
        lemma_grid_labels(q3@, view3, min_cluster_size, labels3@);
        lemma_grid_labels(q4@, view4, min_cluster_size, labels4@);
    }
    labels
}

/// `cells` holds, for each point, a cell that `cell` gives for it on the
/// grid of cell size `eps` that is shifted along `x`, along `y`, or both.
pub open spec fn is_quantization<C, Q: Fn(XYPoint<C>, C, bool, bool) -> XYPoint<i64>>(
    points: Seq<XYPoint<C>>,
    eps: C,
    cell: Q,
    shift_x: bool,
    shift_y: bool,
    cells: Seq<XYPoint<i64>>,
) -> bool {
    &&& cells.len() == points.len()
    &&& forall|i: int|
        0 <= i < points.len() ==> call_ensures(
            cell,
            (points[i], eps, shift_x, shift_y),
            #[trigger] cells[i],
        )
}

/// `labels` is a merged labeling of `points` on four grids that `cell`
/// gives for them: the grid that is not shifted, the grid shifted along
/// `x`, the grid shifted along `y`, and the grid shifted along both, in
/// this order.
pub open spec fn is_hotspot2d_labeling<C, Q: Fn(XYPoint<C>, C, bool, bool) -> XYPoint<i64>>(
    points: Seq<XYPoint<C>>,
    eps: C,
    cell: Q,
    min_size: usize,
    labels: Seq<i32>,
) -> bool {
    exists|q1: Seq<XYPoint<i64>>, q2: Seq<XYPoint<i64>>, q3: Seq<XYPoint<i64>>, q4: Seq<XYPoint<i64>>|
        {
            &&& is_quantization(points, eps, cell, false, false, q1)
            &&& is_quantization(points, eps, cell, true, false, q2)
            &&& is_quantization(points, eps, cell, false, true, q3)
            &&& is_quantization(points, eps, cell, true, true, q4)
            &&& #[trigger] is_hotspot_labeling(q1, q2, q3, q4, min_size, labels)
        }
}

/// Clusters `points` by binning.
///
/// `cell` quantises a point to its cell on a grid of cell size `eps`,
/// shifted by half a cell along the axes for which it is told so. The
/// points are binned on four grids, to catch clusters that straddle a cell
/// boundary of one of them: not shifted, shifted along `x`, along `y`, and
/// along both. Each point keeps the first of its four labels that is not
/// `-1`.
pub fn find_clusters_hotspot2d<C: Copy, Q: Fn(XYPoint<C>, C, bool, bool) -> XYPoint<i64>>(
    points: &Vec<XYPoint<C>>,
    eps: C,
    min_cluster_size: usize,
    cell: Q,
) -> (labels: Vec<i32>)
    requires
        points.len() <= i32::MAX,
        forall|i: int, shift_x: bool, shift_y: bool|
            0 <= i < points.len() ==> #[trigger] call_requires(
                cell,
                (points@[i], eps, shift_x, shift_y),
            ),
    ensures
        is_hotspot2d_labeling(points@, eps, cell, min_cluster_size, labels@),
{
    let mut q1: Vec<XYPoint<i64>> = Vec::new();
    let mut q2: Vec<XYPoint<i64>> = Vec::new();
    let mut q3: Vec<XYPoint<i64>> = Vec::new();
    let mut q4: Vec<XYPoint<i64>> = Vec::new();
    let mut i: usize = 0;
    while i < points.len()
        invariant
            i <= points.len(),
            forall|i: int, shift_x: bool, shift_y: bool|
                0 <= i < points.len() ==> #[trigger] call_requires(
                    cell,
                    (points@[i], eps, shift_x, shift_y),
                ),
            is_quantization(points@.take(i as int), eps, cell, false, false, q1@),
            is_quantization(points@.take(i as int), eps, cell, true, false, q2@),
            is_quantization(points@.take(i as int), eps, cell, false, true, q3@),
            is_quantization(points@.take(i as int), eps, cell, true, true, q4@),
        decreases points.len() - i,
    {
        let p = points[i];
        q1.push(cell(p, eps, false, false));
        q2.push(cell(p, eps, true, false));
        q3.push(cell(p, eps, false, true));
        q4.push(cell(p, eps, true, true));
        i += 1;
    }
    proof {
        assert(points@.take(points.len() as int) =~= points@);
    }
    let labels = label_grids(&q1, &q2, &q3, &q4, min_cluster_size);
    proof {
        assert(is_hotspot_labeling(q1@, q2@, q3@, q4@, min_cluster_size, labels@));
    }
    labels
}

/// `perm` lists the positions below `n`, each once.
pub open spec fn is_rearrangement(perm: Seq<int>, n: nat) -> bool {
    &&& perm.len() == n
    &&& perm.no_duplicates()
    &&& forall|i: int| 0 <= i < n ==> 0 <= #[trigger] perm[i] < n
}

/// The points in the order that `perm` gives: the point at `i` is the
/// point that stood at `perm[i]`.
pub open spec fn rearranged(points: Seq<XYPoint<i64>>, perm: Seq<int>) -> Seq<XYPoint<i64>> {
    Seq::new(perm.len(), |i: int| points[perm[i]])
}

/// The positions in `points` at which `cell` stands.
pub open spec fn cell_positions(points: Seq<XYPoint<i64>>, cell: XYPoint<i64>) -> Set<int> {
    Set::new(|i: int| 0 <= i < points.len() && points[i] == cell)
}

/// The occupancy of a cell is the number of positions at which it stands.
pub proof fn lemma_occupancy_counts(points: Seq<XYPoint<i64>>, cell: XYPoint<i64>)
    requires
        points.len() <= usize::MAX,
    ensures
        cell_positions(points, cell).finite(),
        occupancy(points, cell) == cell_positions(points, cell).len(),
{
    let members = cell_members(points, cell);
    let widen = |x: usize| x as int;
    let listed = members.map_values(widen);
    lemma_cell_members(points, cell);
    assert(vstd::relations::injective(widen));
    members.lemma_no_duplicates_injective(widen);
    listed.unique_seq_to_set();
    assert forall|i: int| cell_positions(points, cell).contains(i) implies listed.to_set().contains(
        i,
    ) by {
        assert(members.contains(i as usize));
        let t = choose|t: int| 0 <= t < members.len() && members[t] == i as usize;
        assert(listed[t] == i);
    }
    assert forall|i: int| listed.to_set().contains(i) implies cell_positions(points, cell).contains(
        i,
    ) by {
        let t = choose|t: int| 0 <= t < listed.len() && listed[t] == i;
        assert(members[t] as int == i);
    }
    assert(listed.to_set() =~= cell_positions(points, cell));
}

/// A rearrangement reaches every position.
pub proof fn lemma_rearrangement_onto(perm: Seq<int>, n: nat)
    requires
        is_rearrangement(perm, n),
    ensures
        forall|m: int| 0 <= m < n ==> #[trigger] perm.contains(m),
{
    let range = vstd::set_lib::set_int_range(0, n as int);
    vstd::set_lib::lemma_int_range(0, n as int);
    perm.unique_seq_to_set();
    assert(perm.to_set().subset_of(range)) by {
        assert forall|m: int| perm.to_set().contains(m) implies range.contains(m) by {
            let t = choose|t: int| 0 <= t < perm.len() && perm[t] == m;
            assert(0 <= perm[t] < n);
        }
    }
    vstd::set_lib::lemma_subset_equality(perm.to_set(), range);
    assert forall|m: int| 0 <= m < n implies #[trigger] perm.contains(m) by {
        assert(range.contains(m));
        assert(perm.to_set().contains(m));
    }
}

/// Rearranging the points leaves the occupancy of every cell as it is.
pub proof fn lemma_occupancy_rearranged(
    points: Seq<XYPoint<i64>>,
    perm: Seq<int>,
    cell: XYPoint<i64>,
)
    requires
        points.len() <= usize::MAX,
        is_rearrangement(perm, points.len()),
    ensures
        occupancy(rearranged(points, perm), cell) == occupancy(points, cell),
{
    let moved = rearranged(points, perm);
    let from = cell_positions(moved, cell);
    let to = cell_positions(points, cell);
    let back = |i: int| perm[i];
    lemma_occupancy_counts(points, cell);
    lemma_occupancy_counts(moved, cell);
    lemma_rearrangement_onto(perm, points.len());
    assert(vstd::relations::injective_on(back, from));
    assert forall|m: int| to.contains(m) implies from.map(back).contains(m) by {
        assert(perm.contains(m));
        let t = choose|t: int| 0 <= t < perm.len() && perm[t] == m;
        assert(from.contains(t) && back(t) == m);
    }
    assert forall|m: int| from.map(back).contains(m) implies to.contains(m) by {
        let t = choose|t: int| from.contains(t) && back(t) == m;
        assert(moved[t] == points[perm[t]]);
    }
    assert(from.map(back) =~= to);
    vstd::set_lib::lemma_map_size(from, to, back);
}

/// Rearranging the points rearranges the labels and changes nothing else:
/// the same points are noise, each point is decided on the same grid, and
/// two points decided on the same grid share their label after the
/// rearrangement exactly when they shared it before.
pub proof fn lemma_hotspots_ignore_order(
    q1: Seq<XYPoint<i64>>,
    q2: Seq<XYPoint<i64>>,
    q3: Seq<XYPoint<i64>>,
    q4: Seq<XYPoint<i64>>,
    perm: Seq<int>,
    min_size: usize,
    labels: Seq<i32>,
    relabels: Seq<i32>,
)
    requires
        q1.len() <= usize::MAX,
        q2.len() == q1.len(),
        q3.len() == q1.len(),
        q4.len() == q1.len(),
        is_rearrangement(perm, q1.len()),
        is_hotspot_labeling(q1, q2, q3, q4, min_size, labels),
        is_hotspot_labeling(
            rearranged(q1, perm),
            rearranged(q2, perm),
            rearranged(q3, perm),
            rearranged(q4, perm),
            min_size,
            relabels,
        ),
    ensures
        forall|i: int|
            0 <= i < q1.len() ==> #[trigger] deciding_grid(
                rearranged(q1, perm),
                rearranged(q2, perm),
                rearranged(q3, perm),
                rearranged(q4, perm),
                min_size,
                i,
            ) == deciding_grid(q1, q2, q3, q4, min_size, perm[i]),
        forall|i: int|
            0 <= i < q1.len() ==> (#[trigger] relabels[i] == -1 <==> labels[perm[i]] == -1),
        forall|i: int, j: int|
            0 <= i < q1.len() && 0 <= j < q1.len() && #[trigger] relabels[i] != -1
                && #[trigger] relabels[j] != -1 && deciding_grid(
                q1,
                q2,
                q3,
                q4,
                min_size,
                perm[i],
            ) == deciding_grid(q1, q2, q3, q4, min_size, perm[j]) ==> (relabels[i] == relabels[j]
                <==> labels[perm[i]] == labels[perm[j]]),
{
    let r1 = rearranged(q1, perm);
    let r2 = rearranged(q2, perm);
    let r3 = rearranged(q3, perm);
    let r4 = rearranged(q4, perm);
    assert forall|i: int| 0 <= i < q1.len() implies #[trigger] deciding_grid(
        r1,
        r2,
        r3,
        r4,
        min_size,
        i,
    ) == deciding_grid(q1, q2, q3, q4, min_size, perm[i]) by {
        lemma_occupancy_rearranged(q1, perm, q1[perm[i]]);
        lemma_occupancy_rearranged(q2, perm, q2[perm[i]]);
        lemma_occupancy_rearranged(q3, perm, q3[perm[i]]);
        lemma_occupancy_rearranged(q4, perm, q4[perm[i]]);
    }
    assert forall|i: int| 0 <= i < q1.len() implies (#[trigger] relabels[i] == -1 <==> labels[perm[i]]
        == -1) by {
        assert(deciding_grid(r1, r2, r3, r4, min_size, i) == deciding_grid(
            q1,
            q2,
            q3,
            q4,
            min_size,
            perm[i],
        ));
    }
    assert forall|i: int, j: int|
        0 <= i < q1.len() && 0 <= j < q1.len() && #[trigger] relabels[i] != -1
            && #[trigger] relabels[j] != -1 && deciding_grid(q1, q2, q3, q4, min_size, perm[i])
            == deciding_grid(q1, q2, q3, q4, min_size, perm[j]) implies (relabels[i] == relabels[j]
        <==> labels[perm[i]] == labels[perm[j]]) by {
        assert(deciding_grid(r1, r2, r3, r4, min_size, i) == deciding_grid(
            q1,
            q2,
            q3,
            q4,
            min_size,
            perm[i],
        ));
        assert(deciding_grid(r1, r2, r3, r4, min_size, j) == deciding_grid(
            q1,
            q2,
            q3,
            q4,
            min_size,
            perm[j],
        ));
        assert(labels[perm[i]] != -1);
        assert(labels[perm[j]] != -1);
    }
}

/// Points that all stand in one cell of the first grid, `min_size` of them
/// or more, share one label that is not `-1`.
pub proof fn lemma_one_cell_is_one_cluster(
    q1: Seq<XYPoint<i64>>,
    q2: Seq<XYPoint<i64>>,
    q3: Seq<XYPoint<i64>>,
    q4: Seq<XYPoint<i64>>,
    min_size: usize,
    labels: Seq<i32>,
)
    requires
        q1.len() <= usize::MAX,
        q1.len() >= min_size,
        forall|i: int| 0 <= i < q1.len() ==> #[trigger] q1[i] == q1[0],
        is_hotspot_labeling(q1, q2, q3, q4, min_size, labels),
    ensures
        forall|i: int| 0 <= i < q1.len() ==> #[trigger] labels[i] != -1,
        forall|i: int, j: int|
            0 <= i < q1.len() && 0 <= j < q1.len() ==> #[trigger] labels[i] == #[trigger] labels[j],
{
    let n = q1.len() as int;
    if n > 0 {
        let cell = q1[0];
        lemma_occupancy_counts(q1, cell);
        vstd::set_lib::lemma_int_range(0, n);
        assert(cell_positions(q1, cell) =~= vstd::set_lib::set_int_range(0, n));
        assert forall|i: int| 0 <= i < n implies deciding_grid(q1, q2, q3, q4, min_size, i) == 0 by {
            assert(q1[i] == cell);
        }
        assert forall|i: int| 0 <= i < n implies #[trigger] labels[i] != -1 by {
            assert(deciding_grid(q1, q2, q3, q4, min_size, i) == 0);
        }
        assert forall|i: int, j: int| 0 <= i < n && 0 <= j < n implies #[trigger] labels[i]
            == #[trigger] labels[j] by {
            assert(deciding_grid(q1, q2, q3, q4, min_size, i) == 0);
            assert(deciding_grid(q1, q2, q3, q4, min_size, j) == 0);
            assert(labels[i] != -1 && labels[j] != -1);
            assert(q1[i] == q1[j]);
        }
    }
}

/// `cell` gives one cell only for a point on a grid.
pub open spec fn is_function<C, Q: Fn(XYPoint<C>, C, bool, bool) -> XYPoint<i64>>(cell: Q) -> bool {
    forall|p: XYPoint<C>, eps: C, shift_x: bool, shift_y: bool, a: XYPoint<i64>, b: XYPoint<i64>|
        #[trigger] call_ensures(cell, (p, eps, shift_x, shift_y), a) && #[trigger] call_ensures(
            cell,
            (p, eps, shift_x, shift_y),
            b,
        ) ==> a == b
}

/// Points that all stand at one place, `min_size` of them or more, share
/// one label that is not `-1`: so does a track taken at its own velocity.
pub proof fn lemma_hotspot_track_at_rest<C, Q: Fn(XYPoint<C>, C, bool, bool) -> XYPoint<i64>>(
    points: Seq<XYPoint<C>>,
    eps: C,
    cell: Q,
    min_size: usize,
    labels: Seq<i32>,
)
    requires
        is_function(cell),
        points.len() <= usize::MAX,
        points.len() >= min_size,
        forall|i: int| 0 <= i < points.len() ==> #[trigger] points[i] == points[0],
        is_hotspot2d_labeling(points, eps, cell, min_size, labels),
    ensures
        forall|i: int| 0 <= i < points.len() ==> #[trigger] labels[i] != -1,
        forall|i: int, j: int|
            0 <= i < points.len() && 0 <= j < points.len() ==> #[trigger] labels[i]
                == #[trigger] labels[j],
{
    let (q1, q2, q3, q4) = choose|
        q1: Seq<XYPoint<i64>>,
        q2: Seq<XYPoint<i64>>,
        q3: Seq<XYPoint<i64>>,
        q4: Seq<XYPoint<i64>>,
    |
        {
            &&& is_quantization(points, eps, cell, false, false, q1)
            &&& is_quantization(points, eps, cell, true, false, q2)
            &&& is_quantization(points, eps, cell, false, true, q3)
            &&& is_quantization(points, eps, cell, true, true, q4)
            &&& #[trigger] is_hotspot_labeling(q1, q2, q3, q4, min_size, labels)
        };
    assert forall|i: int| 0 <= i < q1.len() implies #[trigger] q1[i] == q1[0] by {
        assert(points[i] == points[0]);
        assert(call_ensures(cell, (points[i], eps, false, false), q1[i]));
        assert(call_ensures(cell, (points[0], eps, false, false), q1[0]));
    }
    lemma_one_cell_is_one_cluster(q1, q2, q3, q4, min_size, labels);
}

} // verus!
