//! Spatial index over 16-bit fixed-point coordinates.
//!
//! A coordinate is an unsigned fixed-point number with 14 fractional bits,
//! held as its 16 bits: the bits `b` stand for `b / 16384`, so a coordinate
//! lies in `[0, 4)`. Distances are squared Euclidean distances in the same
//! arithmetic, and a point is within a radius when its distance is strictly
//! below it.

use crate::dbscan::{
    dbscan, is_dbscan_labeling, is_reflexive, is_symmetric, neighbor_graph, SearchTree,
};
use crate::points::XYPoint;
use crate::SearchError;
use fixed::types::extra::U14;
use fixed::FixedU16;
use kiddo::fixed::distance::squared_euclidean;
use kiddo::fixed::kdtree::KdTree;
use vstd::prelude::*;

verus! {

/// Entries a bucket of the tree holds before it is split.
pub const BUCKET_SIZE: usize = 32;

/// Entries that may agree in one coordinate once buckets are split.
pub const MAX_SHARED: usize = 16;

/// The k-d tree of the `kiddo` crate over two fixed-point coordinates, with
/// `u32` items and buckets of 32 entries.
#[verifier::external_body]
pub struct KdIndex {
    tree: KdTree<FixedU16<U14>, u32, 2, 32, u32>,
}

/// What the tree holds: for each item stored in it, the bits of the two
/// coordinates stored with that item. No item is stored twice.
pub uninterp spec fn kd_held(index: KdIndex) -> Map<u32, (u16, u16)>;

/// The point held with `item`.
pub open spec fn held_point(held: Map<u32, (u16, u16)>, item: u32) -> XYPoint<u16> {
    XYPoint { x: held[item].0, y: held[item].1 }
}

/// Distance between two coordinates.
pub open spec fn axis_dist(a: u16, b: u16) -> int {
    if a >= b {
        a - b
    } else {
        b - a
    }
}

/// Square of a fixed-point number with 14 fractional bits, rounded down.
pub open spec fn fixed_square(d: int) -> int {
    (d * d) / 16384
}

/// Squared Euclidean distance of `a` and `b` in fixed-point arithmetic.
pub open spec fn sq_dist(a: XYPoint<u16>, b: XYPoint<u16>) -> int {
    fixed_square(axis_dist(a.x, b.x)) + fixed_square(axis_dist(a.y, b.y))
}

/// The squared distance of `a` and `b` can be computed in 16 bits: neither
/// square overflows, nor does their sum.
pub open spec fn dist_fits(a: XYPoint<u16>, b: XYPoint<u16>) -> bool {
    &&& axis_dist(a.x, b.x) < 0x8000
    &&& axis_dist(a.y, b.y) < 0x8000
    &&& sq_dist(a, b) <= u16::MAX
}

/// The items held with a point whose `x` is `v`.
pub open spec fn held_with_x(held: Map<u32, (u16, u16)>, v: u16) -> Set<u32> {
    Set::new(|item: u32| held.contains_key(item) && held[item].0 == v)
}

/// The items held with a point whose `y` is `v`.
pub open spec fn held_with_y(held: Map<u32, (u16, u16)>, v: u16) -> Set<u32> {
    Set::new(|item: u32| held.contains_key(item) && held[item].1 == v)
}

/// No coordinate value is held with more than `MAX_SHARED` items.
pub open spec fn held_spread_out(held: Map<u32, (u16, u16)>) -> bool {
    &&& forall|v: u16| (#[trigger] held_with_x(held, v)).len() <= MAX_SHARED
    &&& forall|v: u16| (#[trigger] held_with_y(held, v)).len() <= MAX_SHARED
}

/// A tree that holds `held` can take one more entry: its buckets can still
/// be numbered, and either no bucket is full yet, or a full bucket can be
/// split in two.
pub open spec fn can_add(held: Map<u32, (u16, u16)>) -> bool {
    &&& held.dom().finite()
    &&& held.dom().len() < i32::MAX
    &&& held.dom().len() < BUCKET_SIZE || held_spread_out(held)
}

/// No item is held.
pub open spec fn holds_nothing(held: Map<u32, (u16, u16)>) -> bool {
    held == Map::<u32, (u16, u16)>::empty()
}

/// `KdTree::with_capacity` of `kiddo`: a tree that holds nothing.
///
/// The outside function refuses a capacity above a limit that it computes
/// in `usize` and that only fits where `usize` has 64 bits.
#[verifier::external_body]
fn kd_with_capacity(capacity: usize) -> (index: KdIndex)
    requires
        usize::BITS == 64,
        capacity <= i32::MAX,
    ensures
        holds_nothing(kd_held(index)),
{
    KdIndex { tree: KdTree::with_capacity(capacity) }
}

/// `KdTree::add` of `kiddo`: the tree holds one more item, with its point.
///
/// The outside function splits a full bucket at a value of one coordinate.
/// It does not return where all entries of the bucket agree in that
/// coordinate, and where more than half of them do, entries can end on the
/// wrong side of the split; `can_add` leaves both out. It numbers buckets
/// in 31 bits and makes at most one new bucket for an entry. An item that
/// the tree holds already is left out, so that no item is held twice.
#[verifier::external_body]
fn kd_add(index: &mut KdIndex, x: u16, y: u16, item: u32)
    requires
        can_add(kd_held(*old(index))),
        !kd_held(*old(index)).contains_key(item),
    ensures
        kd_held(*final(index)) == kd_held(*old(index)).insert(item, (x, y)),
{
    index.tree.add(&[FixedU16::from_bits(x), FixedU16::from_bits(y)], item);
}

/// The distance from `query` to every point held can be computed in 16
/// bits.
pub open spec fn all_fit(held: Map<u32, (u16, u16)>, query: XYPoint<u16>) -> bool {
    forall|item: u32| #[trigger] held.contains_key(item) ==> dist_fits(held_point(held, item), query)
}

/// `item` is held with a point at a squared distance below `radius` from
/// `query`.
pub open spec fn stored_within(
    held: Map<u32, (u16, u16)>,
    query: XYPoint<u16>,
    radius: u16,
    item: u32,
) -> bool {
    held.contains_key(item) && sq_dist(held_point(held, item), query) < radius
}

/// `KdTree::within_unsorted` of `kiddo` with its `squared_euclidean`: the
/// items held with a point whose squared distance from `query` is below
/// `radius`, each once, in no particular order.
///
/// The outside distance is computed with the plain operators of `fixed`,
/// which do not return on overflow in a build that checks for it: the
/// distance from the query to every point held has to fit.
#[verifier::external_body]
fn kd_within(index: &KdIndex, query: XYPoint<u16>, radius: u16) -> (items: Vec<u32>)
    requires
        all_fit(kd_held(*index), query),
    ensures
        items@.no_duplicates(),
        forall|item: u32| #[trigger]
            items@.contains(item) <==> stored_within(kd_held(*index), query, radius, item),
{
    let at = [FixedU16::from_bits(query.x), FixedU16::from_bits(query.y)];
    let found = index.tree.within_unsorted(&at, FixedU16::from_bits(radius), &squared_euclidean);
    found.iter().map(|n| n.item).collect()
}

/// Number of points whose `x` is `v`.
pub open spec fn shared_x(points: Seq<XYPoint<u16>>, v: u16) -> nat {
    points.filter(|p: XYPoint<u16>| p.x == v).len()
}

/// Number of points whose `y` is `v`.
pub open spec fn shared_y(points: Seq<XYPoint<u16>>, v: u16) -> nat {
    points.filter(|p: XYPoint<u16>| p.y == v).len()
}

/// No coordinate value is shared by more than `MAX_SHARED` points.
pub open spec fn spread_out(points: Seq<XYPoint<u16>>) -> bool {
    &&& forall|v: u16| #[trigger] shared_x(points, v) <= MAX_SHARED
    &&& forall|v: u16| #[trigger] shared_y(points, v) <= MAX_SHARED
}

/// What a tree holds that stores each point of a list with its number in
/// the list.
pub open spec fn held_of(points: Seq<XYPoint<u16>>) -> Map<u32, (u16, u16)> {
    Map::new(
        |item: u32| item < points.len(),
        |item: u32| (points[item as int].x, points[item as int].y),
    )
}

/// A k-d tree over points with fixed-point coordinates, which stores with
/// each point its number in the input.
pub struct FixedPointTree {
    index: KdIndex,
    listed: Ghost<Seq<XYPoint<u16>>>,
}

impl FixedPointTree {
    /// The tree holds each listed point with its number.
    #[verifier::type_invariant]
    spec fn numbered(self) -> bool {
        &&& self.listed@.len() <= i32::MAX
        &&& kd_held(self.index) == held_of(self.listed@)
    }
}

/// A prefix of a list of points shares each coordinate value among no more
/// points than the list does.
proof fn lemma_prefix_spread_out(points: Seq<XYPoint<u16>>, k: int)
    requires
        0 <= k <= points.len(),
        spread_out(points),
    ensures
        spread_out(points.take(k)),
{
    let head = points.take(k);
    let tail = points.skip(k);
    assert(points =~= head + tail);
    assert forall|v: u16| #[trigger] shared_x(head, v) <= MAX_SHARED by {
        Seq::filter_distributes_over_add(head, tail, |p: XYPoint<u16>| p.x == v);
        assert(shared_x(points, v) <= MAX_SHARED);
    }
    assert forall|v: u16| #[trigger] shared_y(head, v) <= MAX_SHARED by {
        Seq::filter_distributes_over_add(head, tail, |p: XYPoint<u16>| p.y == v);
        assert(shared_y(points, v) <= MAX_SHARED);
    }
}

/// A tree that stores each point with its number holds as many items as
/// there are points, and with each coordinate value as many items as
/// points share it.
proof fn lemma_held_counts(points: Seq<XYPoint<u16>>, v: u16)
    requires
        points.len() <= u32::MAX,
    ensures
        held_of(points).dom().finite(),
        held_of(points).dom().len() == points.len(),
        held_with_x(held_of(points), v).finite(),
        held_with_x(held_of(points), v).len() == shared_x(points, v),
        held_with_y(held_of(points), v).finite(),
        held_with_y(held_of(points), v).len() == shared_y(points, v),
    decreases points.len(),
{
    if points.len() == 0 {
        assert(held_of(points).dom() =~= Set::<u32>::empty());
        assert(held_with_x(held_of(points), v) =~= Set::<u32>::empty());
        assert(held_with_y(held_of(points), v) =~= Set::<u32>::empty());
        assert forall|w: u16| shared_x(points, w) == 0 && shared_y(points, w) == 0 by {
            points.lemma_filter_len(|p: XYPoint<u16>| p.x == w);
            points.lemma_filter_len(|p: XYPoint<u16>| p.y == w);
        }
    } else {
        let head = points.drop_last();
        let last = points.last();
        let at = (points.len() - 1) as u32;
        lemma_held_counts(head, v);
        assert(points =~= head.push(last));
        assert forall|w: u16| #[trigger]
            shared_x(points, w) == shared_x(head, w) + (if last.x == w {
                1int
            } else {
                0int
            }) by {
            head.lemma_filter_len_push(|p: XYPoint<u16>| p.x == w, last);
        }
        assert forall|w: u16| #[trigger]
            shared_y(points, w) == shared_y(head, w) + (if last.y == w {
                1int
            } else {
                0int
            }) by {
            head.lemma_filter_len_push(|p: XYPoint<u16>| p.y == w, last);
        }
        assert(held_of(points).dom() =~= held_of(head).dom().insert(at));
        assert(!held_with_x(held_of(head), v).contains(at));
        assert(!held_with_y(held_of(head), v).contains(at));
        if last.x == v {
            assert(held_with_x(held_of(points), v) =~= held_with_x(held_of(head), v).insert(at));
        } else {
            assert(held_with_x(held_of(points), v) =~= held_with_x(held_of(head), v));
        }
        if last.y == v {
            assert(held_with_y(held_of(points), v) =~= held_with_y(held_of(head), v).insert(at));
        } else {
            assert(held_with_y(held_of(points), v) =~= held_with_y(held_of(head), v));
        }
    }
}

impl SearchTree for FixedPointTree {
    type Coord = u16;

    open spec fn can_index(points: Seq<XYPoint<u16>>) -> bool {
        &&& usize::BITS == 64
        &&& points.len() <= i32::MAX
        &&& points.len() <= BUCKET_SIZE || spread_out(points)
    }

    open spec fn can_query(points: Seq<XYPoint<u16>>, query: XYPoint<u16>, radius: u16) -> bool {
        forall|j: int| 0 <= j < points.len() ==> dist_fits(#[trigger] points[j], query)
    }

    open spec fn within(point: XYPoint<u16>, query: XYPoint<u16>, radius: u16) -> bool {
        sq_dist(point, query) < radius
    }

    closed spec fn points(&self) -> Seq<XYPoint<u16>> {
        self.listed@
    }

    fn from_points(points: &Vec<XYPoint<u16>>) -> (tree: Self) {
        let n = points.len();
        let mut index = kd_with_capacity(n);
        let mut i: usize = 0;
        proof {
            assert(kd_held(index) =~= held_of(points@.take(0)));
        }
        while i < n
            invariant
                n == points.len(),
                n <= i32::MAX,
                n <= BUCKET_SIZE || spread_out(points@),
                i <= n,
                kd_held(index) == held_of(points@.take(i as int)),
            decreases n - i,
        {
            proof {
                let head = points@.take(i as int);
                lemma_held_counts(head, 0);
                if n > BUCKET_SIZE {
                    lemma_prefix_spread_out(points@, i as int);
                    assert forall|v: u16| (#[trigger] held_with_x(held_of(head), v)).len()
                        <= MAX_SHARED by {
                        lemma_held_counts(head, v);
                        assert(shared_x(head, v) <= MAX_SHARED);
                    }
                    assert forall|v: u16| (#[trigger] held_with_y(held_of(head), v)).len()
                        <= MAX_SHARED by {
                        lemma_held_counts(head, v);
                        assert(shared_y(head, v) <= MAX_SHARED);
                    }
                }
            }
            kd_add(&mut index, points[i].x, points[i].y, i as u32);
            proof {
                assert(kd_held(index) =~= held_of(points@.take(i + 1)));
            }
            i += 1;
        }
        proof {
            assert(points@.take(n as int) =~= points@);
        }
        FixedPointTree { index, listed: Ghost(points@) }
    }

    fn neighbors(&self, point: &XYPoint<u16>, radius: u16) -> (found: Vec<usize>) {
        proof {
            use_type_invariant(self);
        }
        let items = kd_within(&self.index, *point, radius);
        let mut found: Vec<usize> = Vec::new();
        let mut k: usize = 0;
        while k < items.len()
            invariant
                k <= items.len(),
                found.len() == k,
                forall|t: int| 0 <= t < k ==> #[trigger] found@[t] == items@[t] as usize,
            decreases items.len() - k,
        {
            found.push(items[k] as usize);
            k += 1;
        }
        proof {
            assert forall|s: int, t: int| 0 <= s < t < found.len() implies found@[s] != found@[t] by {
                assert(items@[s] != items@[t]);
            }
            assert forall|j: usize| #[trigger] found@.contains(j) <==> (j < self.points().len()
                && Self::within(self.points()[j as int], *point, radius)) by {
                if found@.contains(j) {
                    let t = choose|t: int| 0 <= t < found.len() && found@[t] == j;
                    assert(items@.contains(items@[t]));
                }
                if j < self.points().len() && Self::within(self.points()[j as int], *point, radius) {
                    assert(items@.contains(j as u32));
                    let t = choose|t: int| 0 <= t < items.len() && items@[t] == j as u32;
                    assert(found@[t] == j);
                }
            }
        }
        found
    }
}

/// The least `x` among the points.
pub open spec fn lowest_x(points: Seq<XYPoint<u16>>) -> u16
    decreases points.len(),
{
    if points.len() == 0 {
        u16::MAX
    } else if points.last().x < lowest_x(points.drop_last()) {
        points.last().x
    } else {
        lowest_x(points.drop_last())
    }
}

/// The greatest `x` among the points.
pub open spec fn highest_x(points: Seq<XYPoint<u16>>) -> u16
    decreases points.len(),
{
    if points.len() == 0 {
        0
    } else if points.last().x > highest_x(points.drop_last()) {
        points.last().x
    } else {
        highest_x(points.drop_last())
    }
}

/// The least `y` among the points.
pub open spec fn lowest_y(points: Seq<XYPoint<u16>>) -> u16
    decreases points.len(),
{
    if points.len() == 0 {
        u16::MAX
    } else if points.last().y < lowest_y(points.drop_last()) {
        points.last().y
    } else {
        lowest_y(points.drop_last())
    }
}

/// The greatest `y` among the points.
pub open spec fn highest_y(points: Seq<XYPoint<u16>>) -> u16
    decreases points.len(),
{
    if points.len() == 0 {
        0
    } else if points.last().y > highest_y(points.drop_last()) {
        points.last().y
    } else {
        highest_y(points.drop_last())
    }
}

/// The points lie so close together that the distance between opposite
/// corners of the box around them can be computed in 16 bits.
pub open spec fn is_compact(points: Seq<XYPoint<u16>>) -> bool {
    points.len() == 0 || dist_fits(
        XYPoint { x: lowest_x(points), y: lowest_y(points) },
        XYPoint { x: highest_x(points), y: highest_y(points) },
    )
}

/// Every point lies in the box around the points.
pub proof fn lemma_in_box(points: Seq<XYPoint<u16>>, i: int)
    requires
        0 <= i < points.len(),
    ensures
        lowest_x(points) <= points[i].x <= highest_x(points),
        lowest_y(points) <= points[i].y <= highest_y(points),
    decreases points.len(),
{
    if i < points.len() - 1 {
        lemma_in_box(points.drop_last(), i);
    }
}

/// A longer distance has the greater square.
pub proof fn lemma_fixed_square_grows(a: int, b: int)
    requires
        0 <= a <= b,
    ensures
        0 <= fixed_square(a) <= fixed_square(b),
{
    assert(0 <= a * a <= b * b) by (nonlinear_arith)
        requires
            0 <= a <= b,
    ;
}

/// Between any two of compact points the distance can be computed.
pub proof fn lemma_compact_fits(points: Seq<XYPoint<u16>>, i: int, j: int)
    requires
        is_compact(points),
        0 <= i < points.len(),
        0 <= j < points.len(),
    ensures
        dist_fits(points[i], points[j]),
{
    lemma_in_box(points, i);
    lemma_in_box(points, j);
    let width = highest_x(points) - lowest_x(points);
    let height = highest_y(points) - lowest_y(points);
    lemma_fixed_square_grows(axis_dist(points[i].x, points[j].x), width);
    lemma_fixed_square_grows(axis_dist(points[i].y, points[j].y), height);
}

/// Whether no coordinate value is shared by more than `MAX_SHARED` points.
pub fn is_spread_out(points: &Vec<XYPoint<u16>>) -> (ok: bool)
    ensures
        ok == spread_out(points@),
{
    let mut xs: Vec<usize> = Vec::new();
    let mut ys: Vec<usize> = Vec::new();
    let mut v: usize = 0;
    while v < 0x1_0000
        invariant
            v <= 0x1_0000,
            xs.len() == v,
            ys.len() == v,
            forall|w: int| 0 <= w < v ==> #[trigger] xs@[w] == 0,
            forall|w: int| 0 <= w < v ==> #[trigger] ys@[w] == 0,
        decreases 0x1_0000 - v,
    {
        xs.push(0);
        ys.push(0);
        v += 1;
    }
    let mut i: usize = 0;
    proof {
        assert(points@.take(0) =~= Seq::<XYPoint<u16>>::empty());
        assert forall|w: u16| shared_x(points@.take(0), w) == 0 && shared_y(points@.take(0), w)
            == 0 by {
            points@.take(0).lemma_filter_len(|p: XYPoint<u16>| p.x == w);
            points@.take(0).lemma_filter_len(|p: XYPoint<u16>| p.y == w);
        }
    }
    while i < points.len()
        invariant
            i <= points.len(),
            xs.len() == 0x1_0000,
            ys.len() == 0x1_0000,
            forall|w: u16| #[trigger] xs@[w as int] == shared_x(points@.take(i as int), w),
            forall|w: u16| #[trigger] ys@[w as int] == shared_y(points@.take(i as int), w),
        decreases points.len() - i,
    {
        let x = points[i].x as usize;
        let y = points[i].y as usize;
        proof {
            let head = points@.take(i as int);
            assert(points@.take(i + 1) =~= head.push(points@[i as int]));
            assert forall|w: u16| #[trigger]
                shared_x(points@.take(i + 1), w) == shared_x(head, w) + (if points@[i as int].x == w {
                    1int
                } else {
                    0int
                }) by {
                head.lemma_filter_len_push(|p: XYPoint<u16>| p.x == w, points@[i as int]);
            }
            assert forall|w: u16| #[trigger]
                shared_y(points@.take(i + 1), w) == shared_y(head, w) + (if points@[i as int].y == w {
                    1int
                } else {
                    0int
                }) by {
                head.lemma_filter_len_push(|p: XYPoint<u16>| p.y == w, points@[i as int]);
            }
            head.lemma_filter_len(|p: XYPoint<u16>| p.x == points@[i as int].x);
            head.lemma_filter_len(|p: XYPoint<u16>| p.y == points@[i as int].y);
            assert(xs@[points@[i as int].x as int] == shared_x(head, points@[i as int].x));
            assert(ys@[points@[i as int].y as int] == shared_y(head, points@[i as int].y));
        }
        let seen_x = xs[x];
        xs.set(x, seen_x + 1);
        let seen_y = ys[y];
        ys.set(y, seen_y + 1);
        i += 1;
    }
    proof {
        assert(points@.take(points.len() as int) =~= points@);
    }
    let mut v: usize = 0;
    while v < 0x1_0000
        invariant
            v <= 0x1_0000,
            xs.len() == 0x1_0000,
            ys.len() == 0x1_0000,
            forall|w: u16| #[trigger] xs@[w as int] == shared_x(points@, w),
            forall|w: u16| #[trigger] ys@[w as int] == shared_y(points@, w),
            forall|w: u16| w < v ==> #[trigger] shared_x(points@, w) <= MAX_SHARED,
            forall|w: u16| w < v ==> #[trigger] shared_y(points@, w) <= MAX_SHARED,
        decreases 0x1_0000 - v,
    {
        if xs[v] > MAX_SHARED || ys[v] > MAX_SHARED {
            proof {
                assert(xs@[(v as u16) as int] == shared_x(points@, v as u16));
                assert(ys@[(v as u16) as int] == shared_y(points@, v as u16));
            }
            return false;
        }
        proof {
            assert(xs@[(v as u16) as int] == shared_x(points@, v as u16));
            assert(ys@[(v as u16) as int] == shared_y(points@, v as u16));
        }
        v += 1;
    }
    true
}

/// Whether the points lie close enough together for their distances.
pub fn is_compact_list(points: &Vec<XYPoint<u16>>) -> (ok: bool)
    ensures
        ok == is_compact(points@),
{
    if points.len() == 0 {
        return true;
    }
    let mut low_x: u16 = u16::MAX;
    let mut high_x: u16 = 0;
    let mut low_y: u16 = u16::MAX;
    let mut high_y: u16 = 0;
    let mut i: usize = 0;
    while i < points.len()
        invariant
            i <= points.len(),
            low_x == lowest_x(points@.take(i as int)),
            high_x == highest_x(points@.take(i as int)),
            low_y == lowest_y(points@.take(i as int)),
            high_y == highest_y(points@.take(i as int)),
        decreases points.len() - i,
    {
        proof {
            assert(points@.take(i + 1).drop_last() =~= points@.take(i as int));
        }
        let p = points[i];
        if p.x < low_x {
            low_x = p.x;
        }
        if p.x > high_x {
            high_x = p.x;
        }
        if p.y < low_y {
            low_y = p.y;
        }
        if p.y > high_y {
            high_y = p.y;
        }
        i += 1;
    }
    proof {
        assert(points@.take(points.len() as int) =~= points@);
        lemma_in_box(points@, 0);
    }
    let width: u32 = (high_x - low_x) as u32;
    let height: u32 = (high_y - low_y) as u32;
    if width >= 0x8000 || height >= 0x8000 {
        return false;
    }
    assert(width * width < 0x4000_0000 && height * height < 0x4000_0000) by (nonlinear_arith)
        requires
            width < 0x8000,
            height < 0x8000,
    ;
    (width * width) / 16384 + (height * height) / 16384 <= 0xffff
}

/// Clusters points with fixed-point coordinates by density, or says why
/// the index cannot be used on them.
///
/// The index is not built where `usize` is narrower than 64 bits, for more
/// than `i32::MAX` points, or for more than `BUCKET_SIZE` points of which
/// more than `MAX_SHARED` share a coordinate value. The points are invalid
/// where they lie too far apart for their distances to be computed.
pub fn find_clusters_fixed16(points: &Vec<XYPoint<u16>>, eps: u16, min_cluster_size: usize) -> (out:
    Result<Vec<i32>, SearchError>)
    ensures
        match out {
            Ok(labels) => {
                &&& FixedPointTree::can_index(points@)
                &&& is_compact(points@)
                &&& is_dbscan_labeling(
                    neighbor_graph::<FixedPointTree>(points@, eps, min_cluster_size as int),
                    labels@,
                )
            },
            Err(SearchError::IndexBuildFailure) => !FixedPointTree::can_index(points@),
            Err(SearchError::InvalidInput) => FixedPointTree::can_index(points@) && !is_compact(
                points@,
            ),
            Err(_) => false,
        },
{
    if usize::BITS != 64 || points.len() > i32::MAX as usize {
        return Err(SearchError::IndexBuildFailure);
    }
    if points.len() > BUCKET_SIZE && !is_spread_out(points) {
        return Err(SearchError::IndexBuildFailure);
    }
    if !is_compact_list(points) {
        return Err(SearchError::InvalidInput);
    }
    proof {
        assert forall|i: int, j: int| 0 <= i < points.len() && 0 <= j < points.len() implies dist_fits(
            #[trigger] points@[j],
            #[trigger] points@[i],
        ) by {
            lemma_compact_fits(points@, j, i);
        }
    }
    let tree = FixedPointTree::from_points(points);
    Ok(dbscan(points, &tree, eps, min_cluster_size))
}

/// The fixed-point metric does not tell its two points apart, and with a
/// radius above zero it counts every point as within the radius of itself.
pub proof fn lemma_fixed_metric(eps: u16)
    ensures
        is_symmetric::<FixedPointTree>(eps),
        eps > 0 ==> is_reflexive::<FixedPointTree>(eps),
{
    assert forall|a: XYPoint<u16>| eps > 0 implies #[trigger] FixedPointTree::within(a, a, eps) by {
        assert(sq_dist(a, a) == 0);
    }
}

} // verus!
