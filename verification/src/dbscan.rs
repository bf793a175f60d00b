//! Density-based clustering over a spatial index.
//!
//! The clustering itself never looks at a coordinate: all it asks of an
//! index is which of the indexed points lie within a radius of a query. The
//! result is stated over the neighbourhood graph that the index answers
//! from, and does not depend on the order in which an index lists the
//! neighbours it finds.

use crate::points::XYPoint;
use vstd::prelude::*;

pub mod fixed16_kdtree;
pub mod laws;

verus! {

/// A spatial index over a fixed list of planar points, numbered from 0 in
/// their input order.
pub trait SearchTree: Sized {
    /// The number type of the coordinates and of the radius.
    type Coord: Copy;

    /// Whether an index can be built over `points`. An index that does not
    /// say when cannot be built by verified code.
    open spec fn can_index(points: Seq<XYPoint<Self::Coord>>) -> bool {
        false
    }

    /// Whether an index over `points` can be asked for the neighbours of
    /// `query` within `radius`. An index that does not say when cannot be
    /// asked by verified code.
    open spec fn can_query(
        points: Seq<XYPoint<Self::Coord>>,
        query: XYPoint<Self::Coord>,
        radius: Self::Coord,
    ) -> bool {
        false
    }

    /// The metric of this index: whether `point` lies within `radius` of
    /// `query`.
    open spec fn within(
        point: XYPoint<Self::Coord>,
        query: XYPoint<Self::Coord>,
        radius: Self::Coord,
    ) -> bool {
        false
    }

    /// The points the index was built over.
    open spec fn points(&self) -> Seq<XYPoint<Self::Coord>> {
        Seq::empty()
    }

    /// Builds the index over `points`.
    fn from_points(points: &Vec<XYPoint<Self::Coord>>) -> (tree: Self)
        requires
            Self::can_index(points@),
        ensures
            tree.points() == points@,
    ;

    /// The numbers of the indexed points within `radius` of `point`, each
    /// once, in no particular order.
    fn neighbors(&self, point: &XYPoint<Self::Coord>, radius: Self::Coord) -> (found: Vec<usize>)
        requires
            Self::can_query(self.points(), *point, radius),
        ensures
            found@.no_duplicates(),
            forall|j: usize|
                #[trigger] found@.contains(j) <==> (j < self.points().len() && Self::within(
                    self.points()[j as int],
                    *point,
                    radius,
                )),
    ;
}

/// The metric of `T` with radius `eps` does not tell its two points apart.
pub open spec fn is_symmetric<T: SearchTree>(eps: T::Coord) -> bool {
    forall|a: XYPoint<T::Coord>, b: XYPoint<T::Coord>| #[trigger]
        T::within(a, b, eps) ==> T::within(b, a, eps)
}

/// Under the metric of `T`, every point lies within `eps` of itself.
pub open spec fn is_reflexive<T: SearchTree>(eps: T::Coord) -> bool {
    forall|a: XYPoint<T::Coord>| #[trigger] T::within(a, a, eps)
}

/// An index `T` can be built over `points` and asked for the neighbours of
/// each of them within `eps`.
pub open spec fn can_cluster<T: SearchTree>(points: Seq<XYPoint<T::Coord>>, eps: T::Coord) -> bool {
    &&& points.len() <= i32::MAX
    &&& T::can_index(points)
    &&& is_symmetric::<T>(eps)
    &&& forall|i: int| 0 <= i < points.len() ==> T::can_query(points, #[trigger] points[i], eps)
}

/// State of a point while clusters are being grown.
#[derive(Clone, Copy, Debug)]
pub enum Classification {
    /// Not looked at yet.
    Undefined,
    /// Looked at, too few neighbours, and not yet reached from a cluster.
    Noise,
    /// Reached from a dense point of the cluster, but not dense itself.
    Border(i32),
    /// A dense point of the cluster.
    Core(i32),
}

impl Classification {
    /// The label that a point in this state is reported with: its cluster,
    /// or `-1`.
    pub open spec fn label(self) -> int {
        match self {
            Classification::Undefined => -1,
            Classification::Noise => -1,
            Classification::Border(k) => k as int,
            Classification::Core(k) => k as int,
        }
    }
}

/// The neighbourhood graph that clustering works on: for each point the set
/// of points within the radius of it, and the number of neighbours from
/// which a point counts as dense.
pub struct Graph {
    pub hoods: Seq<Set<int>>,
    pub min_size: int,
}

impl Graph {
    pub open spec fn len(self) -> int {
        self.hoods.len() as int
    }

    /// `j` is among the neighbours of `i`.
    pub open spec fn adjacent(self, i: int, j: int) -> bool {
        0 <= i < self.len() && 0 <= j < self.len() && self.hoods[i].contains(j)
    }

    /// Neighbour sets hold point numbers only, and `adjacent` is symmetric.
    pub open spec fn wf(self) -> bool {
        &&& forall|i: int| 0 <= i < self.len() ==> (#[trigger] self.hoods[i]).finite()
        &&& forall|i: int, j: int|
            0 <= i < self.len() && #[trigger] self.hoods[i].contains(j) ==> 0 <= j < self.len()
                && self.hoods[j].contains(i)
    }

    /// `i` is dense: it has at least `min_size` neighbours, itself included
    /// where the metric counts it.
    pub open spec fn is_dense(self, i: int) -> bool {
        0 <= i < self.len() && self.hoods[i].len() >= self.min_size
    }

    /// `i` is neither dense nor a neighbour of a dense point.
    pub open spec fn is_noise(self, i: int) -> bool {
        !self.is_dense(i) && forall|j: int| self.is_dense(j) ==> !#[trigger] self.adjacent(j, i)
    }

    /// `path` walks over dense points from neighbour to neighbour.
    pub open spec fn core_path(self, path: Seq<int>) -> bool {
        &&& path.len() >= 1
        &&& forall|t: int| 0 <= t < path.len() ==> self.is_dense(#[trigger] path[t])
        &&& forall|t: int| 0 <= t < path.len() - 1 ==> self.adjacent(#[trigger] path[t], path[t + 1])
    }

    /// Some walk over dense points leads from `i` to `j`.
    pub open spec fn connected(self, i: int, j: int) -> bool {
        exists|path: Seq<int>|
            #[trigger] self.core_path(path) && path.first() == i && path.last() == j
    }
}

/// The neighbourhood graph of `points` under the metric of `T` with radius
/// `eps`.
pub open spec fn neighbor_graph<T: SearchTree>(
    points: Seq<XYPoint<T::Coord>>,
    eps: T::Coord,
    min_size: int,
) -> Graph {
    Graph {
        hoods: Seq::new(
            points.len(),
            |i: int| Set::new(|j: int| 0 <= j < points.len() && T::within(points[j], points[i], eps)),
        ),
        min_size,
    }
}

/// Some dense point next to `b` carries the label of `b`.
pub open spec fn attached(g: Graph, labels: Seq<i32>, b: int) -> bool {
    exists|c: int| g.is_dense(c) && #[trigger] g.adjacent(c, b) && labels[c] == labels[b]
}

/// Some dense point before `j` carries the label `k`.
pub open spec fn seen_before(g: Graph, labels: Seq<i32>, j: int, k: int) -> bool {
    exists|i: int| 0 <= i < j && #[trigger] g.is_dense(i) && labels[i] == k
}

/// What density clustering reports for `g`.
///
/// Dense points fall into the connected components of the graph on dense
/// points; the components are numbered from 1 in the order of their first
/// dense point; a point that is not dense joins the lowest-numbered cluster
/// with a dense point next to it, and is noise (`-1`) where there is none.
pub open spec fn is_dbscan_labeling(g: Graph, labels: Seq<i32>) -> bool {
    &&& labels.len() == g.len()
    &&& forall|i: int| 0 <= i < g.len() ==> (#[trigger] labels[i] == -1 <==> g.is_noise(i))
    &&& forall|i: int| 0 <= i < g.len() ==> #[trigger] labels[i] == -1 || labels[i] >= 1
    &&& forall|i: int, j: int|
        g.is_dense(i) && g.is_dense(j) && #[trigger] g.adjacent(i, j) ==> labels[i] == labels[j]
    &&& forall|i: int, j: int|
        g.is_dense(i) && g.is_dense(j) && labels[i] == labels[j] ==> #[trigger] g.connected(i, j)
    &&& forall|b: int|
        0 <= b < g.len() && !g.is_dense(b) && labels[b] != -1 ==> #[trigger] attached(g, labels, b)
    &&& forall|b: int, c: int|
        !g.is_dense(b) && g.is_dense(c) && #[trigger] g.adjacent(c, b) ==> labels[b] <= labels[c]
    &&& forall|j: int, k: int|
        g.is_dense(j) && 1 <= k < labels[j] ==> #[trigger] seen_before(g, labels, j, k)
}

/// How the clusters found so far were grown: the first dense point of each,
/// for each dense point a walk to it from the first point of its cluster,
/// and for each border point the dense point it was reached from.
struct Trace {
    seeds: Seq<int>,
    paths: Seq<Seq<int>>,
    attach: Seq<int>,
}

impl Trace {
    spec fn with_seed(self, i: int) -> Trace {
        Trace { seeds: self.seeds.push(i), paths: self.paths.update(i, seq![i]), attach: self.attach }
    }

    spec fn with_path(self, m: int, path: Seq<int>) -> Trace {
        Trace { seeds: self.seeds, paths: self.paths.update(m, path), attach: self.attach }
    }

    spec fn with_attach(self, m: int, c: int) -> Trace {
        Trace { seeds: self.seeds, paths: self.paths, attach: self.attach.update(m, c) }
    }
}

/// What is known of point `j` in state `st`.
spec fn point_ok(g: Graph, st: Seq<Classification>, tr: Trace, j: int) -> bool {
    match st[j] {
        Classification::Undefined => true,
        Classification::Noise => !g.is_dense(j),
        Classification::Border(k) => {
            &&& 1 <= k <= tr.seeds.len()
            &&& !g.is_dense(j)
            &&& g.adjacent(tr.attach[j], j)
            &&& st[tr.attach[j]] == Classification::Core(k)
        },
        Classification::Core(k) => {
            &&& 1 <= k <= tr.seeds.len()
            &&& g.is_dense(j)
            &&& g.core_path(tr.paths[j])
            &&& tr.paths[j].first() == tr.seeds[k - 1]
            &&& tr.paths[j].last() == j
            &&& tr.seeds[k - 1] <= j
        },
    }
}

/// Neighbour `m` of a dense point of cluster `k` has its final state.
spec fn resolved(g: Graph, st: Seq<Classification>, m: int, k: i32) -> bool {
    if g.is_dense(m) {
        st[m] == Classification::Core(k)
    } else {
        st[m] matches Classification::Border(x) && x <= k
    }
}

/// The state of every point is justified by the trace.
spec fn grown(g: Graph, st: Seq<Classification>, tr: Trace) -> bool {
    &&& g.wf()
    &&& g.len() <= usize::MAX
    &&& st.len() == g.len()
    &&& tr.paths.len() == g.len()
    &&& tr.attach.len() == g.len()
    &&& tr.seeds.len() <= i32::MAX
    &&& forall|j: int| 0 <= j < g.len() ==> #[trigger] point_ok(g, st, tr, j)
    &&& forall|k: int|
        0 <= k < tr.seeds.len() ==> 0 <= #[trigger] tr.seeds[k] < g.len() && st[tr.seeds[k]]
            == Classification::Core((k + 1) as i32)
    &&& forall|k1: int, k2: int|
        0 <= k1 < k2 < tr.seeds.len() ==> #[trigger] tr.seeds[k1] < #[trigger] tr.seeds[k2]
}

/// The clusters up to `k_lim` are complete: every neighbour of one of their
/// dense points has its final state.
spec fn closed(g: Graph, st: Seq<Classification>, k_lim: int) -> bool {
    forall|j: int, m: int|
        #[trigger] g.adjacent(j, m) && st[j] is Core && st[j].label() <= k_lim ==> resolved(
            g,
            st,
            m,
            st[j].label() as i32,
        )
}

/// Cluster `k` is being grown: every neighbour of one of its dense points
/// has its final state or waits in the queue.
spec fn pending(g: Graph, st: Seq<Classification>, k: i32, queue: Seq<usize>) -> bool {
    forall|j: int, m: int|
        #[trigger] g.adjacent(j, m) && st[j] == Classification::Core(k) ==> resolved(g, st, m, k)
            || queue.contains(m as usize)
}

/// Each point in the queue is a neighbour of the dense point of cluster `k`
/// that `src` names for it.
spec fn queue_ok(g: Graph, st: Seq<Classification>, k: i32, queue: Seq<usize>, src: Seq<int>) -> bool {
    &&& src.len() == queue.len()
    &&& forall|t: int|
        0 <= t < queue.len() ==> g.adjacent(#[trigger] src[t], queue[t] as int) && st[src[t]]
            == Classification::Core(k)
}

/// Number of points not looked at yet.
spec fn undefined_count(st: Seq<Classification>) -> nat
    decreases st.len(),
{
    if st.len() == 0 {
        0
    } else {
        undefined_count(st.drop_last()) + if st.last() is Undefined {
            1nat
        } else {
            0nat
        }
    }
}

proof fn lemma_undefined_update(st: Seq<Classification>, m: int, c: Classification)
    requires
        0 <= m < st.len(),
        !(c is Undefined),
    ensures
        undefined_count(st.update(m, c)) + (if st[m] is Undefined {
            1nat
        } else {
            0nat
        }) == undefined_count(st),
    decreases st.len(),
{
    let st2 = st.update(m, c);
    if m == st.len() - 1 {
        assert(st2.drop_last() =~= st.drop_last());
    } else {
        lemma_undefined_update(st.drop_last(), m, c);
        assert(st2.drop_last() =~= st.drop_last().update(m, c));
    }
}

/// The neighbourhood graph of a symmetric metric is well formed.
pub proof fn lemma_graph_wf<T: SearchTree>(
    points: Seq<XYPoint<T::Coord>>,
    eps: T::Coord,
    min_size: int,
)
    requires
        is_symmetric::<T>(eps),
    ensures
        neighbor_graph::<T>(points, eps, min_size).wf(),
        neighbor_graph::<T>(points, eps, min_size).len() == points.len(),
{
    let g = neighbor_graph::<T>(points, eps, min_size);
    let n = points.len() as int;
    vstd::set_lib::lemma_int_range(0, n);
    assert forall|i: int| 0 <= i < g.len() implies (#[trigger] g.hoods[i]).finite() by {
        assert(g.hoods[i].subset_of(vstd::set_lib::set_int_range(0, n)));
        vstd::set_lib::lemma_len_subset(g.hoods[i], vstd::set_lib::set_int_range(0, n));
    }
    assert forall|i: int, j: int| 0 <= i < g.len() && #[trigger] g.hoods[i].contains(j) implies 0
        <= j < g.len() && g.hoods[j].contains(i) by {
        assert(T::within(points[j], points[i], eps));
    }
}

/// The answer of the index for point `i` lists the neighbour set of `i`.
proof fn lemma_found_is_hood<T: SearchTree>(
    points: Seq<XYPoint<T::Coord>>,
    eps: T::Coord,
    min_size: int,
    i: int,
    found: Seq<usize>,
)
    requires
        0 <= i < points.len() <= usize::MAX,
        found.no_duplicates(),
        forall|j: usize|
            #[trigger] found.contains(j) <==> (j < points.len() && T::within(
                points[j as int],
                points[i],
                eps,
            )),
    ensures
        neighbor_graph::<T>(points, eps, min_size).hoods[i].len() == found.len(),
        forall|m: int| #[trigger]
            neighbor_graph::<T>(points, eps, min_size).adjacent(i, m) ==> found.contains(m as usize),
        forall|t: int|
            0 <= t < found.len() ==> neighbor_graph::<T>(points, eps, min_size).adjacent(
                i,
                #[trigger] found[t] as int,
            ),
{
    let g = neighbor_graph::<T>(points, eps, min_size);
    let f = |x: usize| x as int;
    let s = found.map_values(f);
    assert(vstd::relations::injective(f));
    found.lemma_no_duplicates_injective(f);
    s.unique_seq_to_set();
    assert forall|m: int| g.hoods[i].contains(m) implies s.to_set().contains(m) by {
        assert(found.contains(m as usize));
        let t = choose|t: int| 0 <= t < found.len() && found[t] == m as usize;
        assert(s[t] == m);
    }
    assert forall|m: int| s.to_set().contains(m) implies g.hoods[i].contains(m) by {
        let t = choose|t: int| 0 <= t < s.len() && s[t] == m;
        assert(found.contains(found[t]));
    }
    assert(s.to_set() =~= g.hoods[i]);
    assert forall|t: int| 0 <= t < found.len() implies g.adjacent(i, #[trigger] found[t] as int) by {
        assert(found.contains(found[t]));
    }
}

/// A point with too few neighbours is set aside as noise.
proof fn lemma_mark_noise(g: Graph, st: Seq<Classification>, tr: Trace, k_lim: int, i: int)
    requires
        grown(g, st, tr),
        closed(g, st, k_lim),
        0 <= i < g.len(),
        st[i] is Undefined,
        !g.is_dense(i),
    ensures
        grown(g, st.update(i, Classification::Noise), tr),
        closed(g, st.update(i, Classification::Noise), k_lim),
{
    let st2 = st.update(i, Classification::Noise);
    assert forall|j: int| 0 <= j < g.len() implies #[trigger] point_ok(g, st2, tr, j) by {
        assert(point_ok(g, st, tr, j));
    }
    assert forall|j: int, m: int|
        #[trigger] g.adjacent(j, m) && st2[j] is Core && st2[j].label() <= k_lim implies resolved(
        g,
        st2,
        m,
        st2[j].label() as i32,
    ) by {
        assert(resolved(g, st, m, st[j].label() as i32));
    }
}

/// A dense point that no cluster has reached opens the next cluster.
proof fn lemma_open_cluster(g: Graph, st: Seq<Classification>, tr: Trace, i: int, found: Seq<usize>)
    requires
        grown(g, st, tr),
        closed(g, st, tr.seeds.len() as int),
        tr.seeds.len() < i32::MAX,
        0 <= i < g.len(),
        st[i] is Undefined,
        g.is_dense(i),
        forall|k: int| 0 <= k < tr.seeds.len() ==> #[trigger] tr.seeds[k] < i,
        forall|m: int| #[trigger] g.adjacent(i, m) ==> found.contains(m as usize),
        forall|t: int| 0 <= t < found.len() ==> g.adjacent(i, #[trigger] found[t] as int),
    ensures
        ({
            let k = (tr.seeds.len() + 1) as i32;
            let st2 = st.update(i, Classification::Core(k));
            let tr2 = tr.with_seed(i);
            &&& grown(g, st2, tr2)
            &&& closed(g, st2, k - 1)
            &&& pending(g, st2, k, found)
            &&& queue_ok(g, st2, k, found, Seq::new(found.len(), |t: int| i))
        }),
{
    let k = (tr.seeds.len() + 1) as i32;
    let st2 = st.update(i, Classification::Core(k));
    let tr2 = tr.with_seed(i);
    assert forall|j: int| 0 <= j < g.len() implies #[trigger] point_ok(g, st2, tr2, j) by {
        assert(point_ok(g, st, tr, j));
        if j == i {
            assert(tr2.paths[i] =~= seq![i]);
            assert(g.core_path(seq![i]));
        }
    }
    assert forall|j: int, m: int|
        #[trigger] g.adjacent(j, m) && st2[j] is Core && st2[j].label() <= k - 1 implies resolved(
        g,
        st2,
        m,
        st2[j].label() as i32,
    ) by {
        assert(resolved(g, st, m, st[j].label() as i32));
    }
    assert forall|j: int, m: int|
        #[trigger] g.adjacent(j, m) && st2[j] == Classification::Core(k) implies resolved(
        g,
        st2,
        m,
        k,
    ) || found.contains(m as usize) by {
        assert(point_ok(g, st, tr, j));
    }
}

/// A queued point that already belongs to a cluster is dropped.
proof fn lemma_pop_labeled(
    g: Graph,
    st: Seq<Classification>,
    tr: Trace,
    k: i32,
    queue: Seq<usize>,
    src: Seq<int>,
)
    requires
        grown(g, st, tr),
        closed(g, st, k - 1),
        pending(g, st, k, queue),
        queue_ok(g, st, k, queue, src),
        k == tr.seeds.len(),
        queue.len() > 0,
        st[queue.last() as int] is Core || st[queue.last() as int] is Border,
    ensures
        pending(g, st, k, queue.drop_last()),
        queue_ok(g, st, k, queue.drop_last(), src.drop_last()),
{
    let m = queue.last() as int;
    let c = src.last();
    assert(g.adjacent(c, m) && st[c] == Classification::Core(k));
    assert(point_ok(g, st, tr, m));
    assert(point_ok(g, st, tr, c));
    assert(g.adjacent(m, c));
    assert(resolved(g, st, m, k)) by {
        if st[m] is Core && st[m].label() < k {
            assert(resolved(g, st, c, st[m].label() as i32));
        }
    }
    assert forall|j: int, m2: int|
        #[trigger] g.adjacent(j, m2) && st[j] == Classification::Core(k) implies resolved(
        g,
        st,
        m2,
        k,
    ) || queue.drop_last().contains(m2 as usize) by {
        if !resolved(g, st, m2, k) {
            lemma_contains_drop_last(queue, m2 as usize);
        }
    }
}

/// An element of a sequence other than its last is in the rest.
proof fn lemma_contains_drop_last(queue: Seq<usize>, x: usize)
    requires
        queue.len() > 0,
        queue.contains(x),
        x != queue.last(),
    ensures
        queue.drop_last().contains(x),
{
    let t = choose|t: int| 0 <= t < queue.len() && queue[t] == x;
    assert(queue.drop_last()[t] == x);
}

/// A queued point that is not dense joins the cluster as a border point.
proof fn lemma_pop_to_border(
    g: Graph,
    st: Seq<Classification>,
    tr: Trace,
    k: i32,
    queue: Seq<usize>,
    src: Seq<int>,
)
    requires
        grown(g, st, tr),
        closed(g, st, k - 1),
        pending(g, st, k, queue),
        queue_ok(g, st, k, queue, src),
        k == tr.seeds.len(),
        queue.len() > 0,
        st[queue.last() as int] is Noise || st[queue.last() as int] is Undefined,
        !g.is_dense(queue.last() as int),
    ensures
        ({
            let m = queue.last() as int;
            let st2 = st.update(m, Classification::Border(k));
            let tr2 = tr.with_attach(m, src.last());
            &&& grown(g, st2, tr2)
            &&& closed(g, st2, k - 1)
            &&& pending(g, st2, k, queue.drop_last())
            &&& queue_ok(g, st2, k, queue.drop_last(), src.drop_last())
        }),
{
    let m = queue.last() as int;
    let c = src.last();
    let st2 = st.update(m, Classification::Border(k));
    let tr2 = tr.with_attach(m, c);
    assert(g.adjacent(c, m) && st[c] == Classification::Core(k));
    assert(point_ok(g, st, tr, c));
    assert forall|j: int| 0 <= j < g.len() implies #[trigger] point_ok(g, st2, tr2, j) by {
        assert(point_ok(g, st, tr, j));
    }
    assert forall|j: int, m2: int|
        #[trigger] g.adjacent(j, m2) && st2[j] is Core && st2[j].label() <= k - 1 implies resolved(
        g,
        st2,
        m2,
        st2[j].label() as i32,
    ) by {
        assert(resolved(g, st, m2, st[j].label() as i32));
    }
    assert forall|j: int, m2: int|
        #[trigger] g.adjacent(j, m2) && st2[j] == Classification::Core(k) implies resolved(
        g,
        st2,
        m2,
        k,
    ) || queue.drop_last().contains(m2 as usize) by {
        if m2 != m {
            if !resolved(g, st, m2, k) {
                lemma_contains_drop_last(queue, m2 as usize);
            }
        }
    }
    assert forall|t: int| 0 <= t < queue.drop_last().len() implies g.adjacent(
        #[trigger] src.drop_last()[t],
        queue.drop_last()[t] as int,
    ) && st2[src.drop_last()[t]] == Classification::Core(k) by {
        assert(g.adjacent(src[t], queue[t] as int) && st[src[t]] == Classification::Core(k));
    }
}

/// A queued dense point joins the cluster, and its neighbours join the
/// queue.
proof fn lemma_pop_to_core(
    g: Graph,
    st: Seq<Classification>,
    tr: Trace,
    k: i32,
    queue: Seq<usize>,
    src: Seq<int>,
    more: Seq<usize>,
)
    requires
        grown(g, st, tr),
        closed(g, st, k - 1),
        pending(g, st, k, queue),
        queue_ok(g, st, k, queue, src),
        k == tr.seeds.len(),
        queue.len() > 0,
        st[queue.last() as int] is Undefined,
        g.is_dense(queue.last() as int),
        tr.seeds[k - 1] <= queue.last(),
        forall|m2: int| #[trigger] g.adjacent(queue.last() as int, m2) ==> more.contains(m2 as usize),
        forall|t: int|
            0 <= t < more.len() ==> g.adjacent(queue.last() as int, #[trigger] more[t] as int),
    ensures
        ({
            let m = queue.last() as int;
            let st2 = st.update(m, Classification::Core(k));
            let tr2 = tr.with_path(m, tr.paths[src.last()].push(m));
            let queue2 = queue.drop_last() + more;
            let src2 = src.drop_last() + Seq::new(more.len(), |t: int| m);
            &&& grown(g, st2, tr2)
            &&& closed(g, st2, k - 1)
            &&& pending(g, st2, k, queue2)
            &&& queue_ok(g, st2, k, queue2, src2)
        }),
{
    let m = queue.last() as int;
    let c = src.last();
    let st2 = st.update(m, Classification::Core(k));
    let path = tr.paths[c].push(m);
    let tr2 = tr.with_path(m, path);
    let queue2 = queue.drop_last() + more;
    let src2 = src.drop_last() + Seq::new(more.len(), |t: int| m);
    assert(g.adjacent(c, m) && st[c] == Classification::Core(k));
    assert(point_ok(g, st, tr, c));
    assert(g.core_path(path)) by {
        let old_path = tr.paths[c];
        assert forall|t: int| 0 <= t < path.len() implies g.is_dense(#[trigger] path[t]) by {
            if t < old_path.len() {
                assert(path[t] == old_path[t]);
            }
        }
        assert forall|t: int| 0 <= t < path.len() - 1 implies g.adjacent(
            #[trigger] path[t],
            path[t + 1],
        ) by {
            if t < old_path.len() - 1 {
                assert(path[t] == old_path[t]);
                assert(path[t + 1] == old_path[t + 1]);
            }
        }
    }
    assert forall|j: int| 0 <= j < g.len() implies #[trigger] point_ok(g, st2, tr2, j) by {
        assert(point_ok(g, st, tr, j));
    }
    assert forall|j: int, m2: int|
        #[trigger] g.adjacent(j, m2) && st2[j] is Core && st2[j].label() <= k - 1 implies resolved(
        g,
        st2,
        m2,
        st2[j].label() as i32,
    ) by {
        assert(resolved(g, st, m2, st[j].label() as i32));
    }
    assert forall|j: int, m2: int|
        #[trigger] g.adjacent(j, m2) && st2[j] == Classification::Core(k) implies resolved(
        g,
        st2,
        m2,
        k,
    ) || queue2.contains(m2 as usize) by {
        if j == m {
            assert(more.contains(m2 as usize));
            let t = choose|t: int| 0 <= t < more.len() && more[t] == m2 as usize;
            assert(queue2[queue.len() - 1 + t] == m2 as usize);
        } else if m2 != m {
            if !resolved(g, st, m2, k) {
                lemma_contains_drop_last(queue, m2 as usize);
                let t = choose|t: int|
                    0 <= t < queue.drop_last().len() && queue.drop_last()[t] == m2 as usize;
                assert(queue2[t] == m2 as usize);
            }
        }
    }
    assert forall|t: int| 0 <= t < queue2.len() implies g.adjacent(
        #[trigger] src2[t],
        queue2[t] as int,
    ) && st2[src2[t]] == Classification::Core(k) by {
        if t < queue.len() - 1 {
            assert(g.adjacent(src[t], queue[t] as int) && st[src[t]] == Classification::Core(k));
        } else {
            assert(queue2[t] == more[t - (queue.len() - 1)]);
        }
    }
}

/// With the queue empty the cluster is complete.
proof fn lemma_cluster_done(g: Graph, st: Seq<Classification>, tr: Trace, k: i32, queue: Seq<usize>)
    requires
        grown(g, st, tr),
        closed(g, st, k - 1),
        pending(g, st, k, queue),
        queue.len() == 0,
    ensures
        closed(g, st, k as int),
{
    assert forall|j: int, m: int|
        #[trigger] g.adjacent(j, m) && st[j] is Core && st[j].label() <= k implies resolved(
        g,
        st,
        m,
        st[j].label() as i32,
    ) by {
        if st[j].label() == k {
            assert(st[j] == Classification::Core(k));
            assert(!queue.contains(m as usize));
        }
    }
}

/// A walk over dense points can be walked backwards.
proof fn lemma_reverse_path(g: Graph, path: Seq<int>)
    requires
        g.wf(),
        g.core_path(path),
    ensures
        g.core_path(path.reverse()),
        path.reverse().first() == path.last(),
        path.reverse().last() == path.first(),
{
    let rev = path.reverse();
    assert forall|t: int| 0 <= t < rev.len() implies g.is_dense(#[trigger] rev[t]) by {
        assert(rev[t] == path[path.len() - 1 - t]);
    }
    assert forall|t: int| 0 <= t < rev.len() - 1 implies g.adjacent(#[trigger] rev[t], rev[t + 1]) by {
        let u = path.len() - 2 - t;
        assert(rev[t] == path[u + 1]);
        assert(rev[t + 1] == path[u]);
        assert(g.adjacent(path[u], path[u + 1]));
    }
}

/// Two walks over dense points, the second starting where the first ends,
/// make one walk.
proof fn lemma_join_paths(g: Graph, p: Seq<int>, q: Seq<int>)
    requires
        g.core_path(p),
        g.core_path(q),
        p.last() == q.first(),
    ensures
        g.core_path(p + q.drop_first()),
        (p + q.drop_first()).first() == p.first(),
        (p + q.drop_first()).last() == q.last(),
{
    let r = p + q.drop_first();
    assert forall|t: int| 0 <= t < r.len() implies g.is_dense(#[trigger] r[t]) by {
        if t < p.len() {
            assert(r[t] == p[t]);
        } else {
            assert(r[t] == q[t - p.len() + 1]);
        }
    }
    assert forall|t: int| 0 <= t < r.len() - 1 implies g.adjacent(#[trigger] r[t], r[t + 1]) by {
        if t < p.len() - 1 {
            assert(r[t] == p[t]);
            assert(r[t + 1] == p[t + 1]);
        } else if t == p.len() - 1 {
            assert(r[t] == q[0]);
            assert(r[t + 1] == q[1]);
            assert(g.adjacent(q[0int], q[0int + 1]));
        } else {
            let u = t - p.len() + 1;
            assert(r[t] == q[u]);
            assert(r[t + 1] == q[u + 1]);
        }
    }
}

/// Once every point has been looked at and every cluster is complete, the
/// labels of the states are the clustering of the graph.
proof fn lemma_labels(g: Graph, st: Seq<Classification>, tr: Trace, labels: Seq<i32>)
    requires
        grown(g, st, tr),
        closed(g, st, tr.seeds.len() as int),
        forall|j: int| 0 <= j < g.len() ==> !(#[trigger] st[j] is Undefined),
        labels.len() == g.len(),
        forall|j: int| 0 <= j < g.len() ==> #[trigger] labels[j] == st[j].label(),
    ensures
        is_dbscan_labeling(g, labels),
{
    assert forall|j: int| 0 <= j < g.len() implies (g.is_dense(j) <==> #[trigger] st[j] is Core) by {
        assert(point_ok(g, st, tr, j));
    }
    assert forall|i: int| 0 <= i < g.len() implies (#[trigger] labels[i] == -1 <==> g.is_noise(i)) by {
        assert(point_ok(g, st, tr, i));
        if labels[i] == -1 {
            assert(st[i] is Noise);
            assert forall|j: int| g.is_dense(j) implies !#[trigger] g.adjacent(j, i) by {
                if g.adjacent(j, i) {
                    assert(st[j] is Core);
                    assert(point_ok(g, st, tr, j));
                    assert(resolved(g, st, i, st[j].label() as i32));
                }
            }
        } else if st[i] is Border {
            assert(g.adjacent(tr.attach[i], i));
            assert(point_ok(g, st, tr, tr.attach[i]));
        }
    }
    assert forall|i: int| 0 <= i < g.len() implies #[trigger] labels[i] == -1 || labels[i] >= 1 by {
        assert(point_ok(g, st, tr, i));
    }
    assert forall|i: int, j: int|
        g.is_dense(i) && g.is_dense(j) && #[trigger] g.adjacent(i, j) implies labels[i]
        == labels[j] by {
        assert(st[i] is Core);
        assert(point_ok(g, st, tr, i));
        assert(resolved(g, st, j, st[i].label() as i32));
    }
    assert forall|i: int, j: int|
        g.is_dense(i) && g.is_dense(j) && labels[i] == labels[j] implies #[trigger] g.connected(
        i,
        j,
    ) by {
        assert(st[i] is Core && st[j] is Core);
        assert(point_ok(g, st, tr, i));
        assert(point_ok(g, st, tr, j));
        lemma_reverse_path(g, tr.paths[i]);
        lemma_join_paths(g, tr.paths[i].reverse(), tr.paths[j]);
        let path = tr.paths[i].reverse() + tr.paths[j].drop_first();
        assert(g.core_path(path) && path.first() == i && path.last() == j);
    }
    assert forall|b: int|
        0 <= b < g.len() && !g.is_dense(b) && labels[b] != -1 implies #[trigger] attached(
        g,
        labels,
        b,
    ) by {
        assert(point_ok(g, st, tr, b));
        let c = tr.attach[b];
        assert(g.adjacent(c, b));
        assert(point_ok(g, st, tr, c));
    }
    assert forall|b: int, c: int|
        !g.is_dense(b) && g.is_dense(c) && #[trigger] g.adjacent(c, b) implies labels[b]
        <= labels[c] by {
        assert(st[c] is Core);
        assert(point_ok(g, st, tr, c));
        assert(resolved(g, st, b, st[c].label() as i32));
    }
    assert forall|j: int, k: int| g.is_dense(j) && 1 <= k < labels[j] implies #[trigger] seen_before(
        g,
        labels,
        j,
        k,
    ) by {
        assert(st[j] is Core);
        assert(point_ok(g, st, tr, j));
        let i = tr.seeds[k - 1];
        assert(tr.seeds[k - 1] < tr.seeds[labels[j] - 1]);
        assert(point_ok(g, st, tr, i));
        assert(g.is_dense(i) && labels[i] == k);
    }
}

/// Clusters `points` by density, asking `tree` for neighbourhoods.
///
/// Points are looked at in input order. A point with fewer than
/// `min_cluster_size` neighbours within `eps` is set aside; any other point
/// that no cluster has reached opens the next cluster, which then takes in
/// every point reachable from it through dense points. Points left aside
/// are reported as `-1`.
pub fn dbscan<T: SearchTree>(
    points: &Vec<XYPoint<T::Coord>>,
    tree: &T,
    eps: T::Coord,
    min_cluster_size: usize,
) -> (labels: Vec<i32>)
    requires
        tree.points() == points@,
        points.len() <= i32::MAX,
        is_symmetric::<T>(eps),
        forall|i: int| 0 <= i < points.len() ==> T::can_query(points@, #[trigger] points@[i], eps),
    ensures
        is_dbscan_labeling(neighbor_graph::<T>(points@, eps, min_cluster_size as int), labels@),
{
    let n = points.len();
    let ghost g = neighbor_graph::<T>(points@, eps, min_cluster_size as int);
    let mut state: Vec<Classification> = Vec::new();
    let mut i: usize = 0;
    while i < n
        invariant
            i <= n,
            state.len() == i,
            forall|j: int| 0 <= j < i ==> #[trigger] state@[j] is Undefined,
        decreases n - i,
    {
        state.push(Classification::Undefined);
        i += 1;
    }
    let ghost mut tr = Trace {
        seeds: Seq::empty(),
        paths: Seq::new(n as nat, |j: int| Seq::empty()),
        attach: Seq::new(n as nat, |j: int| 0int),
    };
    proof {
        lemma_graph_wf::<T>(points@, eps, min_cluster_size as int);
        assert forall|j: int| 0 <= j < g.len() implies #[trigger] point_ok(g, state@, tr, j) by {
            assert(state@[j] is Undefined);
        }
    }
    let mut cluster: i32 = 0;
    i = 0;
    while i < n
        invariant
            n == points.len(),
            n <= i32::MAX,
            tree.points() == points@,
            forall|i: int| 0 <= i < points.len() ==> T::can_query(points@, #[trigger] points@[i], eps),
            g == neighbor_graph::<T>(points@, eps, min_cluster_size as int),
            g.len() == n,
            i <= n,
            grown(g, state@, tr),
            closed(g, state@, cluster as int),
            cluster == tr.seeds.len(),
            cluster <= i,
            forall|j: int| 0 <= j < i ==> !(#[trigger] state@[j] is Undefined),
            forall|k: int| 0 <= k < tr.seeds.len() ==> #[trigger] tr.seeds[k] < i,
        decreases n - i,
    {
        if let Classification::Undefined = state[i] {
            let found = tree.neighbors(&points[i], eps);
            proof {
                lemma_found_is_hood::<T>(points@, eps, min_cluster_size as int, i as int, found@);
            }
            if found.len() < min_cluster_size {
                proof {
                    lemma_mark_noise(g, state@, tr, cluster as int, i as int);
                }
                state.set(i, Classification::Noise);
            } else {
                proof {
                    lemma_open_cluster(g, state@, tr, i as int, found@);
                    tr = tr.with_seed(i as int);
                }
                cluster = cluster + 1;
                state.set(i, Classification::Core(cluster));
                let mut queue = found;
                let ghost mut src = Seq::new(queue.len() as nat, |t: int| i as int);
                while queue.len() > 0
                    invariant
                        n == points.len(),
                        tree.points() == points@,
                        forall|i: int|
                            0 <= i < points.len() ==> T::can_query(
                                points@,
                                #[trigger] points@[i],
                                eps,
                            ),
                        g == neighbor_graph::<T>(points@, eps, min_cluster_size as int),
                        g.len() == n,
                        i < n,
                        cluster >= 1,
                        grown(g, state@, tr),
                        closed(g, state@, cluster - 1),
                        pending(g, state@, cluster, queue@),
                        queue_ok(g, state@, cluster, queue@, src),
                        cluster == tr.seeds.len(),
                        tr.seeds[cluster - 1] == i,
                        forall|j: int| 0 <= j <= i ==> !(#[trigger] state@[j] is Undefined),
                    decreases undefined_count(state@), queue.len(),
                {
                    let ghost c = src.last();
                    let m = queue[queue.len() - 1];
                    assert(g.adjacent(c, m as int));
                    match state[m] {
                        Classification::Noise => {
                            proof {
                                assert(point_ok(g, state@, tr, m as int));
                                lemma_pop_to_border(g, state@, tr, cluster, queue@, src);
                                lemma_undefined_update(
                                    state@,
                                    m as int,
                                    Classification::Border(cluster),
                                );
                                tr = tr.with_attach(m as int, c);
                                src = src.drop_last();
                            }
                            queue.pop();
                            state.set(m, Classification::Border(cluster));
                        },
                        Classification::Undefined => {
                            let mut more = tree.neighbors(&points[m], eps);
                            proof {
                                lemma_found_is_hood::<T>(
                                    points@,
                                    eps,
                                    min_cluster_size as int,
                                    m as int,
                                    more@,
                                );
                            }
                            if more.len() >= min_cluster_size {
                                proof {
                                    lemma_pop_to_core(g, state@, tr, cluster, queue@, src, more@);
                                    lemma_undefined_update(
                                        state@,
                                        m as int,
                                        Classification::Core(cluster),
                                    );
                                    tr = tr.with_path(m as int, tr.paths[c].push(m as int));
                                    src = src.drop_last() + Seq::new(more.len() as nat, |t: int| m as int);
                                }
                                queue.pop();
                                state.set(m, Classification::Core(cluster));
                                queue.append(&mut more);
                            } else {
                                proof {
                                    lemma_pop_to_border(g, state@, tr, cluster, queue@, src);
                                    lemma_undefined_update(
                                        state@,
                                        m as int,
                                        Classification::Border(cluster),
                                    );
                                    tr = tr.with_attach(m as int, c);
                                    src = src.drop_last();
                                }
                                queue.pop();
                                state.set(m, Classification::Border(cluster));
                            }
                        },
                        _ => {
                            proof {
                                lemma_pop_labeled(g, state@, tr, cluster, queue@, src);
                                src = src.drop_last();
                            }
                            queue.pop();
                        },
                    }
                }
                proof {
                    lemma_cluster_done(g, state@, tr, cluster, queue@);
                }
            }
        }
        i += 1;
    }
    let mut labels: Vec<i32> = Vec::new();
    i = 0;
    while i < n
        invariant
            i <= n,
            state.len() == n,
            labels.len() == i,
            forall|j: int| 0 <= j < i ==> #[trigger] labels@[j] == state@[j].label(),
        decreases n - i,
    {
        let label = match state[i] {
            Classification::Undefined => -1,
            Classification::Noise => -1,
            Classification::Border(k) => k,
            Classification::Core(k) => k,
        };
        labels.push(label);
        i += 1;
    }
    proof {
        lemma_labels(g, state@, tr, labels@);
    }
    labels
}

/// Builds the index `T` over `points` and clusters them by density.
pub fn find_clusters<T: SearchTree>(
    points: &Vec<XYPoint<T::Coord>>,
    eps: T::Coord,
    min_cluster_size: usize,
) -> (labels: Vec<i32>)
    requires
        can_cluster::<T>(points@, eps),
    ensures
        is_dbscan_labeling(neighbor_graph::<T>(points@, eps, min_cluster_size as int), labels@),
{
    let tree = T::from_points(points);
    dbscan(points, &tree, eps, min_cluster_size)
}

} // verus!
