//! The two result tables of a grid search: one row per cluster, and one row
//! per cluster and member observation.
//!
//! Observation times are integers here. Clusters are numbered from 1 over
//! the whole search, result by result, and within a result in the order in
//! which their labels first occur.

use crate::gridsearch::GridSearchResult;
use crate::SearchError;
use std::collections::HashMap;
use vstd::prelude::*;

verus! {

broadcast use vstd::std_specs::hash::group_hash_axioms;

/// A row of the cluster table.
#[derive(Debug, Clone, Copy, PartialEq, Eq)]
pub struct Cluster<V> {
    /// Number of the cluster over the whole search, from 1.
    pub cluster_id: u32,
    pub vx: V,
    pub vy: V,
    /// The first of the member observations with the least time.
    pub earliest: usize,
    /// The first of the member observations with the greatest time.
    pub latest: usize,
    /// Greatest time less least time over the member observations.
    pub arc_length: u64,
}

/// A row of the member table: observation `obs` belongs to the cluster.
#[derive(Debug, Clone, Copy, PartialEq, Eq)]
pub struct ClusterMember {
    pub cluster_id: u32,
    pub obs: usize,
}

/// The cluster table and the member table.
pub struct ClusterTables<V> {
    pub clusters: Vec<Cluster<V>>,
    pub members: Vec<ClusterMember>,
}

/// The labels of clusters in `labels`, each once, in the order in which
/// they first occur. A negative label marks noise and names no cluster.
pub open spec fn first_seen(labels: Seq<i32>) -> Seq<i32>
    decreases labels.len(),
{
    if labels.len() == 0 {
        Seq::empty()
    } else {
        let before = first_seen(labels.drop_last());
        if labels.last() < 0 || before.contains(labels.last()) {
            before
        } else {
            before.push(labels.last())
        }
    }
}

/// The first position with the least time among the positions labeled
/// `label`, or `-1` where there is none.
pub open spec fn earliest(labels: Seq<i32>, times: Seq<i64>, label: i32) -> int
    decreases labels.len(),
{
    if labels.len() == 0 {
        -1
    } else {
        let before = earliest(labels.drop_last(), times, label);
        let at = labels.len() - 1;
        if labels[at] != label {
            before
        } else if before < 0 || times[at] < times[before] {
            at
        } else {
            before
        }
    }
}

/// The first position with the greatest time among the positions labeled
/// `label`, or `-1` where there is none.
pub open spec fn latest(labels: Seq<i32>, times: Seq<i64>, label: i32) -> int
    decreases labels.len(),
{
    if labels.len() == 0 {
        -1
    } else {
        let before = latest(labels.drop_last(), times, label);
        let at = labels.len() - 1;
        if labels[at] != label {
            before
        } else if before < 0 || times[at] > times[before] {
            at
        } else {
            before
        }
    }
}

/// Number of clusters in `results`.
pub open spec fn cluster_total<V>(results: Seq<GridSearchResult<V>>) -> int
    decreases results.len(),
{
    if results.len() == 0 {
        0
    } else {
        cluster_total(results.drop_last()) + first_seen(results.last().cluster_labels@).len()
    }
}

/// The row of the cluster of `result` whose label is the `p`-th to occur,
/// where `offset` clusters were numbered before.
pub open spec fn cluster_row<V>(
    result: GridSearchResult<V>,
    times: Seq<i64>,
    offset: int,
    p: int,
) -> Cluster<V> {
    let labels = result.cluster_labels@;
    let label = first_seen(labels)[p];
    let first = earliest(labels, times, label);
    let last = latest(labels, times, label);
    Cluster {
        cluster_id: (offset + p + 1) as u32,
        vx: result.vx,
        vy: result.vy,
        earliest: first as usize,
        latest: last as usize,
        arc_length: (times[last] - times[first]) as u64,
    }
}

/// The cluster rows of one result.
pub open spec fn result_clusters<V>(
    result: GridSearchResult<V>,
    times: Seq<i64>,
    offset: int,
) -> Seq<Cluster<V>> {
    Seq::new(
        first_seen(result.cluster_labels@).len(),
        |p: int| cluster_row(result, times, offset, p),
    )
}

/// The cluster table of `results`.
pub open spec fn all_clusters<V>(results: Seq<GridSearchResult<V>>, times: Seq<i64>) -> Seq<
    Cluster<V>,
>
    decreases results.len(),
{
    if results.len() == 0 {
        Seq::empty()
    } else {
        all_clusters(results.drop_last(), times) + result_clusters(
            results.last(),
            times,
            cluster_total(results.drop_last()),
        )
    }
}

/// The member rows of one result: one for each observation that is not
/// noise, in the order of the observations.
pub open spec fn result_members(labels: Seq<i32>, offset: int) -> Seq<ClusterMember>
    decreases labels.len(),
{
    if labels.len() == 0 {
        Seq::empty()
    } else {
        let before = result_members(labels.drop_last(), offset);
        if labels.last() < 0 {
            before
        } else {
            before.push(
                ClusterMember {
                    cluster_id: (offset + first_seen(labels).index_of(labels.last()) + 1) as u32,
                    obs: (labels.len() - 1) as usize,
                },
            )
        }
    }
}

/// The member table of `results`.
pub open spec fn all_members<V>(results: Seq<GridSearchResult<V>>) -> Seq<ClusterMember>
    decreases results.len(),
{
    if results.len() == 0 {
        Seq::empty()
    } else {
        all_members(results.drop_last()) + result_members(
            results.last().cluster_labels@,
            cluster_total(results.drop_last()),
        )
    }
}

/// Every result has one label for each of `n` observations.
pub open spec fn lengths_match<V>(results: Seq<GridSearchResult<V>>, n: int) -> bool {
    forall|r: int| 0 <= r < results.len() ==> (#[trigger] results[r]).cluster_labels@.len() == n
}

/// `first_seen` lists exactly the labels that are not negative, each once.
pub proof fn lemma_first_seen(labels: Seq<i32>)
    ensures
        first_seen(labels).no_duplicates(),
        first_seen(labels).len() <= labels.len(),
        forall|label: i32| #[trigger]
            first_seen(labels).contains(label) <==> label >= 0 && labels.contains(label),
    decreases labels.len(),
{
    if labels.len() > 0 {
        let head = labels.drop_last();
        let before = first_seen(head);
        let all = first_seen(labels);
        lemma_first_seen(head);
        assert forall|label: i32| #[trigger] all.contains(label) <==> label >= 0 && labels.contains(
            label,
        ) by {
            if all.contains(label) {
                let t = choose|t: int| 0 <= t < all.len() && all[t] == label;
                if t < before.len() {
                    assert(before.contains(before[t]));
                    let u = choose|u: int| 0 <= u < head.len() && head[u] == label;
                    assert(labels[u] == label);
                } else {
                    assert(labels[labels.len() - 1] == label);
                }
            }
            if label >= 0 && labels.contains(label) {
                let u = choose|u: int| 0 <= u < labels.len() && labels[u] == label;
                if u < head.len() {
                    assert(head[u] == label);
                    assert(before.contains(label));
                    let t = choose|t: int| 0 <= t < before.len() && before[t] == label;
                    assert(all[t] == label);
                } else if before.contains(label) {
                    let t = choose|t: int| 0 <= t < before.len() && before[t] == label;
                    assert(all[t] == label);
                } else {
                    assert(all[all.len() - 1] == label);
                }
            }
        }
    }
}

/// The clusters of a prefix are a prefix of the clusters.
pub proof fn lemma_first_seen_prefix(labels: Seq<i32>, k: int)
    requires
        0 <= k <= labels.len(),
    ensures
        first_seen(labels.take(k)).len() <= first_seen(labels).len(),
        forall|p: int|
            0 <= p < first_seen(labels.take(k)).len() ==> #[trigger] first_seen(labels)[p]
                == first_seen(labels.take(k))[p],
    decreases labels.len() - k,
{
    if k < labels.len() {
        lemma_first_seen_prefix(labels.drop_last(), k);
        assert(labels.drop_last().take(k) =~= labels.take(k));
    } else {
        assert(labels.take(k) =~= labels);
    }
}

/// The least and the greatest time of a cluster are taken at members of it,
/// and bound the time of every member.
pub proof fn lemma_extremes(labels: Seq<i32>, times: Seq<i64>, label: i32)
    requires
        labels.len() <= times.len(),
    ensures
        labels.contains(label) <==> earliest(labels, times, label) >= 0,
        labels.contains(label) <==> latest(labels, times, label) >= 0,
        -1 <= earliest(labels, times, label) < labels.len(),
        -1 <= latest(labels, times, label) < labels.len(),
        labels.contains(label) ==> labels[earliest(labels, times, label)] == label
            && labels[latest(labels, times, label)] == label,
        forall|m: int|
            0 <= m < labels.len() && #[trigger] labels[m] == label ==> times[earliest(
                labels,
                times,
                label,
            )] <= times[m] <= times[latest(labels, times, label)],
    decreases labels.len(),
{
    if labels.len() > 0 {
        let head = labels.drop_last();
        lemma_extremes(head, times, label);
        let at = labels.len() - 1;
        if labels.contains(label) {
            let u = choose|u: int| 0 <= u < labels.len() && labels[u] == label;
            if u < at {
                assert(head[u] == label);
            }
        }
        if head.contains(label) {
            let u = choose|u: int| 0 <= u < head.len() && head[u] == label;
            assert(labels[u] == label);
        }
        if labels[at] == label {
            assert(labels.contains(label));
        }
        assert forall|m: int| 0 <= m < labels.len() && #[trigger] labels[m] == label implies times[earliest(
            labels,
            times,
            label,
        )] <= times[m] <= times[latest(labels, times, label)] by {
            if m < at {
                assert(head[m] == label);
            }
        }
    }
}

/// The clusters of a prefix of the results are among the clusters of all.
proof fn lemma_cluster_total_prefix<V>(results: Seq<GridSearchResult<V>>, k: int)
    requires
        0 <= k <= results.len(),
    ensures
        0 <= cluster_total(results.take(k)) <= cluster_total(results),
    decreases results.len() - k,
{
    if k < results.len() {
        lemma_cluster_total_prefix(results.drop_last(), k);
        assert(results.drop_last().take(k) =~= results.take(k));
    } else {
        assert(results.take(k) =~= results);
        lemma_cluster_total_nonneg(results);
    }
}

proof fn lemma_cluster_total_nonneg<V>(results: Seq<GridSearchResult<V>>)
    ensures
        0 <= cluster_total(results),
    decreases results.len(),
{
    if results.len() > 0 {
        lemma_cluster_total_nonneg(results.drop_last());
    }
}

/// What the tables, or the refusal to make them, say of `results`.
pub open spec fn is_assembly<V>(
    results: Seq<GridSearchResult<V>>,
    times: Seq<i64>,
    out: Result<ClusterTables<V>, SearchError>,
) -> bool {
    match out {
        Ok(tables) => {
            &&& lengths_match(results, times.len() as int)
            &&& cluster_total(results) <= u32::MAX
            &&& tables.clusters@ == all_clusters(results, times)
            &&& tables.members@ == all_members(results)
        },
        Err(SearchError::InvalidInput) => !lengths_match(results, times.len() as int),
        Err(SearchError::TooManyClusters) => {
            &&& lengths_match(results, times.len() as int)
            &&& cluster_total(results) > u32::MAX
        },
        Err(_) => false,
    }
}

/// Makes the cluster table and the member table of a grid search.
///
/// `times` holds the time of each observation. The results are taken in
/// their order. Within a result each label that is not negative is a
/// cluster of its own; it gets the next free cluster number when it first
/// occurs, and every observation with that label gets a member row.
pub fn assemble_tables<V: Copy>(results: &Vec<GridSearchResult<V>>, times: &Vec<i64>) -> (out:
    Result<ClusterTables<V>, SearchError>)
    ensures
        is_assembly(results@, times@, out),
{
    let n = times.len();
    let mut r: usize = 0;
    while r < results.len()
        invariant
            r <= results.len(),
            n == times.len(),
            forall|q: int| 0 <= q < r ==> (#[trigger] results@[q]).cluster_labels@.len() == n,
        decreases results.len() - r,
    {
        if results[r].cluster_labels.len() != n {
            return Err(SearchError::InvalidInput);
        }
        r += 1;
    }
    let mut clusters: Vec<Cluster<V>> = Vec::new();
    let mut members: Vec<ClusterMember> = Vec::new();
    let mut next_id: u32 = 0;
    r = 0;
    while r < results.len()
        invariant
            r <= results.len(),
            n == times.len(),
            lengths_match(results@, n as int),
            next_id == cluster_total(results@.take(r as int)),
            clusters@ == all_clusters(results@.take(r as int), times@),
            members@ == all_members(results@.take(r as int)),
        decreases results.len() - r,
    {
        let result = &results[r];
        let labels = &result.cluster_labels;
        let ghost done = results@.take(r as int);
        let ghost members_before = members@;
        let mut positions: HashMap<i32, usize> = HashMap::new();
        let mut spans: Vec<(usize, usize)> = Vec::new();
        let mut i: usize = 0;
        assert(labels@.len() == n);
        while i < n
            invariant
                i <= n,
                n == times.len(),
                n == labels@.len(),
                r < results.len(),
                lengths_match(results@, n as int),
                done == results@.take(r as int),
                results@[r as int].cluster_labels@ == labels@,
                next_id == cluster_total(done),
                spans.len() == first_seen(labels@.take(i as int)).len(),
                next_id + spans.len() <= u32::MAX,
                forall|label: i32| #[trigger]
                    positions@.contains_key(label) <==> first_seen(labels@.take(i as int)).contains(
                        label,
                    ),
                forall|p: int|
                    0 <= p < spans.len() ==> positions@.contains_key(
                        #[trigger] first_seen(labels@.take(i as int))[p],
                    ) && positions@[first_seen(labels@.take(i as int))[p]] == p,
                forall|p: int|
                    0 <= p < spans.len() ==> (#[trigger] spans@[p]).0 == earliest(
                        labels@.take(i as int),
                        times@,
                        first_seen(labels@.take(i as int))[p],
                    ) && spans@[p].1 == latest(
                        labels@.take(i as int),
                        times@,
                        first_seen(labels@.take(i as int))[p],
                    ),
                members@ == members_before + result_members(labels@.take(i as int), next_id as int),
            decreases n - i,
        {
            let label = labels[i];
            let ghost head = labels@.take(i as int);
            let ghost next = labels@.take(i + 1);
            let ghost seen = first_seen(head);
            proof {
                assert(next.drop_last() =~= head);
                assert(next.last() == label);
                lemma_first_seen(head);
                lemma_first_seen(next);
            }
            if label >= 0 {
                let found = positions.get(&label);
                let p: usize = match found {
                    Some(p) => {
                        let p = *p;
                        proof {
                            let at = seen.index_of(label);
                            assert(seen[at] == label);
                            assert(positions@[seen[at]] == at);
                            lemma_extremes(head, times@, label);
                        }
                        let (first, last) = spans[p];
                        let first = if times[i] < times[first] {
                            i
                        } else {
                            first
                        };
                        let last = if times[i] > times[last] {
                            i
                        } else {
                            last
                        };
                        spans.set(p, (first, last));
                        p
                    },
                    None => {
                        if next_id as usize + spans.len() >= u32::MAX as usize {
                            proof {
                                lemma_first_seen_prefix(labels@, i + 1);
                                lemma_cluster_total_prefix(results@, r + 1);
                                let upto = results@.take(r + 1);
                                assert(upto.drop_last() =~= done);
                                assert(upto.last().cluster_labels@ == labels@);
                                assert(first_seen(next).len() == seen.len() + 1);
                                assert(cluster_total(upto) == cluster_total(done) + first_seen(
                                    labels@,
                                ).len());
                            }
                            return Err(SearchError::TooManyClusters);
                        }
                        proof {
                            lemma_extremes(head, times@, label);
                        }
                        positions.insert(label, spans.len());
                        spans.push((i, i));
                        spans.len() - 1
                    },
                };
                proof {
                    assert(first_seen(next)[p as int] == label);
                    assert(first_seen(next).index_of(label) == p);
                }
                members.push(ClusterMember { cluster_id: next_id + p as u32 + 1, obs: i });
            }
            proof {
                assert forall|q: int| 0 <= q < spans.len() implies (#[trigger] spans@[q]).0
                    == earliest(next, times@, first_seen(next)[q]) && spans@[q].1 == latest(
                    next,
                    times@,
                    first_seen(next)[q],
                ) by {
                    if q < seen.len() {
                        assert(first_seen(next)[q] == seen[q]);
                        assert(positions@.contains_key(seen[q]));
                    }
                }
                assert forall|q: int| 0 <= q < spans.len() implies positions@.contains_key(
                    #[trigger] first_seen(next)[q],
                ) && positions@[first_seen(next)[q]] == q by {
                    if q < seen.len() {
                        assert(first_seen(next)[q] == seen[q]);
                    }
                }
            }
            i += 1;
        }
        proof {
            assert(labels@.take(n as int) =~= labels@);
            assert(results@.take(r + 1).drop_last() =~= done);
            assert(results@.take(r + 1).last() == results@[r as int]);
        }
        let ghost clusters_before = clusters@;
        let mut p: usize = 0;
        while p < spans.len()
            invariant
                p <= spans.len(),
                n == times.len(),
                n == labels@.len(),
                r < results.len(),
                *result == results@[r as int],
                result.cluster_labels@ == labels@,
                spans.len() == first_seen(labels@).len(),
                next_id + spans.len() <= u32::MAX,
                forall|q: int|
                    0 <= q < spans.len() ==> (#[trigger] spans@[q]).0 == earliest(
                        labels@,
                        times@,
                        first_seen(labels@)[q],
                    ) && spans@[q].1 == latest(labels@, times@, first_seen(labels@)[q]),
                clusters@.len() == clusters_before.len() + p,
                forall|q: int| 0 <= q < clusters_before.len() ==> clusters@[q] == clusters_before[q],
                forall|q: int|
                    0 <= q < p ==> #[trigger] clusters@[clusters_before.len() + q] == cluster_row(
                        *result,
                        times@,
                        next_id as int,
                        q,
                    ),
            decreases spans.len() - p,
        {
            let (first, last) = spans[p];
            proof {
                let label = first_seen(labels@)[p as int];
                lemma_first_seen(labels@);
                assert(first_seen(labels@).contains(label));
                lemma_extremes(labels@, times@, label);
            }
            let arc_length = (times[last] as i128 - times[first] as i128) as u64;
            clusters.push(
                Cluster {
                    cluster_id: next_id + p as u32 + 1,
                    vx: result.vx,
                    vy: result.vy,
                    earliest: first,
                    latest: last,
                    arc_length,
                },
            );
            p += 1;
        }
        proof {
            let rows = result_clusters(*result, times@, next_id as int);
            assert forall|q: int| 0 <= q < clusters@.len() implies clusters@[q] == (clusters_before
                + rows)[q] by {
                if q >= clusters_before.len() {
                    let at = q - clusters_before.len();
                    assert(clusters@[clusters_before.len() + at] == cluster_row(
                        *result,
                        times@,
                        next_id as int,
                        at,
                    ));
                }
            }
            assert(clusters@ =~= clusters_before + rows);
        }
        next_id = next_id + spans.len() as u32;
        r += 1;
    }
    proof {
        assert(results@.take(results.len() as int) =~= results@);
    }
    Ok(ClusterTables { clusters, members })
}

/// The member rows of one result: each names an observation in a cluster
/// and the number of that cluster, the rows stand in the order of the
/// observations, and every observation in a cluster has its row.
pub proof fn lemma_result_members(labels: Seq<i32>, offset: int)
    requires
        0 <= offset,
        offset + first_seen(labels).len() <= u32::MAX,
        labels.len() <= usize::MAX,
    ensures
        forall|m: int|
            0 <= m < result_members(labels, offset).len() ==> {
                let row = #[trigger] result_members(labels, offset)[m];
                &&& row.obs < labels.len()
                &&& labels[row.obs as int] >= 0
                &&& offset < row.cluster_id <= offset + first_seen(labels).len()
                &&& first_seen(labels)[row.cluster_id - offset - 1] == labels[row.obs as int]
            },
        forall|i: int|
            0 <= i < labels.len() && labels[i] >= 0 ==> exists|m: int|
                0 <= m < result_members(labels, offset).len() && (#[trigger] result_members(
                    labels,
                    offset,
                )[m]).obs == i,
    decreases labels.len(),
{
    if labels.len() > 0 {
        let head = labels.drop_last();
        let before = result_members(head, offset);
        let all = result_members(labels, offset);
        lemma_first_seen(labels);
        lemma_first_seen_prefix(labels, labels.len() - 1);
        assert(labels.take(labels.len() - 1) =~= head);
        lemma_result_members(head, offset);
        assert forall|m: int| 0 <= m < all.len() implies {
            let row = #[trigger] all[m];
            &&& row.obs < labels.len()
            &&& labels[row.obs as int] >= 0
            &&& offset < row.cluster_id <= offset + first_seen(labels).len()
            &&& first_seen(labels)[row.cluster_id - offset - 1] == labels[row.obs as int]
        } by {
            if m < before.len() {
                let row = before[m];
                assert(all[m] == row);
                assert(head[row.obs as int] == labels[row.obs as int]);
            } else {
                let label = labels.last();
                assert(labels[labels.len() - 1] == label);
                assert(first_seen(labels).contains(label));
                let at = first_seen(labels).index_of(label);
                assert(first_seen(labels)[at] == label);
            }
        }
        assert forall|i: int| 0 <= i < labels.len() && labels[i] >= 0 implies exists|m: int|
            0 <= m < all.len() && (#[trigger] all[m]).obs == i by {
            if i < head.len() {
                assert(head[i] == labels[i]);
                let m = choose|m: int| 0 <= m < before.len() && (#[trigger] before[m]).obs == i;
                assert(all[m] == before[m]);
            } else {
                assert(all[all.len() - 1].obs == i);
            }
        }
    }
}

/// The cluster table has one row for each cluster, and the row at position
/// `c` has the number `c + 1`: the numbers run from 1 without gaps, and
/// none is used twice.
pub proof fn lemma_cluster_ids<V>(results: Seq<GridSearchResult<V>>, times: Seq<i64>)
    requires
        cluster_total(results) <= u32::MAX,
    ensures
        all_clusters(results, times).len() == cluster_total(results),
        forall|c: int|
            0 <= c < cluster_total(results) ==> (#[trigger] all_clusters(results, times)[c]).cluster_id
                == c + 1,
    decreases results.len(),
{
    if results.len() > 0 {
        let head = results.drop_last();
        lemma_cluster_total_nonneg(head);
        lemma_cluster_ids(head, times);
        let offset = cluster_total(head);
        let rows = result_clusters(results.last(), times, offset);
        assert forall|c: int| 0 <= c < cluster_total(results) implies (#[trigger] all_clusters(
            results,
            times,
        )[c]).cluster_id == c + 1 by {
            if c >= offset {
                assert(all_clusters(results, times)[c] == rows[c - offset]);
            } else {
                assert(all_clusters(results, times)[c] == all_clusters(head, times)[c]);
            }
        }
    }
}

/// Every member row names a cluster of the cluster table and an
/// observation.
pub proof fn lemma_member_ids<V>(results: Seq<GridSearchResult<V>>, n: int)
    requires
        cluster_total(results) <= u32::MAX,
        lengths_match(results, n),
        n <= usize::MAX,
    ensures
        forall|m: int|
            0 <= m < all_members(results).len() ==> 1 <= (#[trigger] all_members(
                results,
            )[m]).cluster_id <= cluster_total(results) && all_members(results)[m].obs < n,
    decreases results.len(),
{
    if results.len() > 0 {
        let head = results.drop_last();
        let labels = results.last().cluster_labels@;
        let offset = cluster_total(head);
        lemma_cluster_total_nonneg(head);
        assert(lengths_match(head, n)) by {
            assert forall|r: int| 0 <= r < head.len() implies (#[trigger] head[r]).cluster_labels@.len()
                == n by {
                assert(head[r] == results[r]);
            }
        }
        assert(results[results.len() - 1].cluster_labels@.len() == n);
        lemma_member_ids(head, n);
        lemma_result_members(labels, offset);
        let rows = result_members(labels, offset);
        assert forall|m: int| 0 <= m < all_members(results).len() implies 1 <= (#[trigger] all_members(
            results,
        )[m]).cluster_id <= cluster_total(results) && all_members(results)[m].obs < n by {
            if m >= all_members(head).len() {
                assert(all_members(results)[m] == rows[m - all_members(head).len()]);
            } else {
                assert(all_members(results)[m] == all_members(head)[m]);
            }
        }
    }
}

/// The arc of a cluster spans its members: the times of the member rows of
/// a cluster lie between the times of its `earliest` and its `latest`
/// observation, and `arc_length` is the difference of these two.
pub proof fn lemma_arc_length<V>(
    results: Seq<GridSearchResult<V>>,
    times: Seq<i64>,
    c: int,
    m: int,
)
    requires
        cluster_total(results) <= u32::MAX,
        lengths_match(results, times.len() as int),
        times.len() <= usize::MAX,
        0 <= c < all_clusters(results, times).len(),
        0 <= m < all_members(results).len(),
        all_members(results)[m].cluster_id == all_clusters(results, times)[c].cluster_id,
    ensures
        all_clusters(results, times)[c].earliest < times.len(),
        all_clusters(results, times)[c].latest < times.len(),
        times[all_clusters(results, times)[c].earliest as int] <= times[all_members(
            results,
        )[m].obs as int] <= times[all_clusters(results, times)[c].latest as int],
        all_clusters(results, times)[c].arc_length == times[all_clusters(
            results,
            times,
        )[c].latest as int] - times[all_clusters(results, times)[c].earliest as int],
    decreases results.len(),
{
    let n = times.len() as int;
    lemma_cluster_ids(results, times);
    lemma_member_ids(results, n);
    if results.len() > 0 {
        let head = results.drop_last();
        let last = results.last();
        let labels = last.cluster_labels@;
        let offset = cluster_total(head);
        lemma_cluster_total_nonneg(head);
        assert(lengths_match(head, n)) by {
            assert forall|r: int| 0 <= r < head.len() implies (#[trigger] head[r]).cluster_labels@.len()
                == n by {
                assert(head[r] == results[r]);
            }
        }
        assert(results[results.len() - 1].cluster_labels@.len() == n);
        lemma_cluster_ids(head, times);
        lemma_member_ids(head, n);
        lemma_result_members(labels, offset);
        let rows = result_members(labels, offset);
        let before = all_members(head).len();
        if c < offset {
            assert(all_clusters(results, times)[c] == all_clusters(head, times)[c]);
            if m >= before {
                assert(all_members(results)[m] == rows[m - before]);
            } else {
                assert(all_members(results)[m] == all_members(head)[m]);
                lemma_arc_length(head, times, c, m);
            }
        } else {
            let p = c - offset;
            let row = cluster_row(last, times, offset, p);
            assert(all_clusters(results, times)[c] == result_clusters(last, times, offset)[p]);
            if m >= before {
                let member = rows[m - before];
                assert(all_members(results)[m] == member);
                let label = first_seen(labels)[p];
                assert(labels[member.obs as int] == label);
                lemma_extremes(labels, times, label);
            } else {
                assert(all_members(results)[m] == all_members(head)[m]);
            }
        }
    }
}

/// The `earliest` and the `latest` observation of a cluster are members
/// of it: each has a member row with the number of the cluster.
pub proof fn lemma_extremes_are_members<V>(
    results: Seq<GridSearchResult<V>>,
    times: Seq<i64>,
    c: int,
)
    requires
        cluster_total(results) <= u32::MAX,
        lengths_match(results, times.len() as int),
        times.len() <= usize::MAX,
        0 <= c < all_clusters(results, times).len(),
    ensures
        exists|m: int|
            0 <= m < all_members(results).len() && (#[trigger] all_members(results)[m])
                == (ClusterMember {
                cluster_id: all_clusters(results, times)[c].cluster_id,
                obs: all_clusters(results, times)[c].earliest,
            }),
        exists|m: int|
            0 <= m < all_members(results).len() && (#[trigger] all_members(results)[m])
                == (ClusterMember {
                cluster_id: all_clusters(results, times)[c].cluster_id,
                obs: all_clusters(results, times)[c].latest,
            }),
    decreases results.len(),
{
    let n = times.len() as int;
    lemma_cluster_ids(results, times);
    if results.len() > 0 {
        let head = results.drop_last();
        let last = results.last();
        let labels = last.cluster_labels@;
        let offset = cluster_total(head);
        lemma_cluster_total_nonneg(head);
        assert(lengths_match(head, n)) by {
            assert forall|r: int| 0 <= r < head.len() implies (#[trigger] head[r]).cluster_labels@.len()
                == n by {
                assert(head[r] == results[r]);
            }
        }
        assert(results[results.len() - 1].cluster_labels@.len() == n);
        lemma_cluster_ids(head, times);
        let before = all_members(head).len();
        let rows = result_members(labels, offset);
        if c < offset {
            assert(all_clusters(results, times)[c] == all_clusters(head, times)[c]);
            lemma_extremes_are_members(head, times, c);
            let row = all_clusters(head, times)[c];
            let m1 = choose|m: int|
                0 <= m < all_members(head).len() && (#[trigger] all_members(head)[m])
                    == (ClusterMember { cluster_id: row.cluster_id, obs: row.earliest });
            assert(all_members(results)[m1] == all_members(head)[m1]);
            let m2 = choose|m: int|
                0 <= m < all_members(head).len() && (#[trigger] all_members(head)[m])
                    == (ClusterMember { cluster_id: row.cluster_id, obs: row.latest });
            assert(all_members(results)[m2] == all_members(head)[m2]);
        } else {
            let p = c - offset;
            let label = first_seen(labels)[p];
            assert(all_clusters(results, times)[c] == result_clusters(last, times, offset)[p]);
            lemma_first_seen(labels);
            assert(first_seen(labels).contains(label));
            lemma_extremes(labels, times, label);
            lemma_result_members(labels, offset);
            let first = earliest(labels, times, label);
            let last_at = latest(labels, times, label);
            let m1 = choose|m: int| 0 <= m < rows.len() && (#[trigger] rows[m]).obs == first;
            assert(first_seen(labels)[rows[m1].cluster_id - offset - 1] == first_seen(labels)[p]);
            assert(all_members(results)[before + m1] == rows[m1]);
            let m2 = choose|m: int| 0 <= m < rows.len() && (#[trigger] rows[m]).obs == last_at;
            assert(first_seen(labels)[rows[m2].cluster_id - offset - 1] == first_seen(labels)[p]);
            assert(all_members(results)[before + m2] == rows[m2]);
        }
    }
}

/// What a cluster holds does not depend on where its result stands among
/// the results: the cluster of result `r` whose label is the `p`-th to
/// occur there has the row of that label, and its member rows name exactly
/// the observations with that label in result `r`. Only its number counts
/// the clusters before it.
pub proof fn lemma_cluster_content<V>(
    results: Seq<GridSearchResult<V>>,
    times: Seq<i64>,
    r: int,
    p: int,
)
    requires
        cluster_total(results) <= u32::MAX,
        lengths_match(results, times.len() as int),
        times.len() <= usize::MAX,
        0 <= r < results.len(),
        0 <= p < first_seen(results[r].cluster_labels@).len(),
    ensures
        0 <= cluster_total(results.take(r)) + p < all_clusters(results, times).len(),
        all_clusters(results, times)[cluster_total(results.take(r)) + p] == cluster_row(
            results[r],
            times,
            cluster_total(results.take(r)),
            p,
        ),
        forall|m: int|
            0 <= m < all_members(results).len() && (#[trigger] all_members(results)[m]).cluster_id
                == cluster_total(results.take(r)) + p + 1 ==> results[r].cluster_labels@[all_members(
                results,
            )[m].obs as int] == first_seen(results[r].cluster_labels@)[p],
        forall|i: int|
            0 <= i < times.len() && #[trigger] results[r].cluster_labels@[i] == first_seen(
                results[r].cluster_labels@,
            )[p] ==> all_members(results).contains(
                ClusterMember {
                    cluster_id: (cluster_total(results.take(r)) + p + 1) as u32,
                    obs: i as usize,
                },
            ),
    decreases results.len(),
{
    let n = times.len() as int;
    let head = results.drop_last();
    let last = results.last();
    let labels = last.cluster_labels@;
    let offset = cluster_total(head);
    let before = all_members(head).len();
    let rows = result_members(labels, offset);
    lemma_cluster_total_nonneg(head);
    lemma_cluster_ids(results, times);
    lemma_cluster_ids(head, times);
    assert(lengths_match(head, n)) by {
        assert forall|q: int| 0 <= q < head.len() implies (#[trigger] head[q]).cluster_labels@.len()
            == n by {
            assert(head[q] == results[q]);
        }
    }
    assert(results[results.len() - 1].cluster_labels@.len() == n);
    lemma_member_ids(head, n);
    lemma_result_members(labels, offset);
    lemma_first_seen(labels);
    if r == results.len() - 1 {
        assert(results.take(r) =~= head);
        let label = first_seen(labels)[p];
        assert(all_clusters(results, times)[offset + p] == result_clusters(last, times, offset)[p]);
        assert forall|m: int|
            0 <= m < all_members(results).len() && (#[trigger] all_members(results)[m]).cluster_id
                == offset + p + 1 implies labels[all_members(results)[m].obs as int] == label by {
            if m >= before {
                assert(all_members(results)[m] == rows[m - before]);
            } else {
                assert(all_members(results)[m] == all_members(head)[m]);
            }
        }
        assert forall|i: int| 0 <= i < n && #[trigger] labels[i] == label implies all_members(
            results,
        ).contains(ClusterMember { cluster_id: (offset + p + 1) as u32, obs: i as usize }) by {
            assert(first_seen(labels).contains(label));
            let m = choose|m: int| 0 <= m < rows.len() && (#[trigger] rows[m]).obs == i;
            let at = rows[m].cluster_id - offset - 1;
            assert(first_seen(labels)[at] == first_seen(labels)[p]);
            assert(all_members(results)[before + m] == rows[m]);
        }
    } else {
        assert(results.take(r) =~= head.take(r));
        assert(head[r] == results[r]);
        lemma_cluster_total_prefix(head, r + 1);
        assert(head.take(r + 1).drop_last() =~= head.take(r));
        assert(head.take(r + 1).last() == head[r]);
        lemma_cluster_content(head, times, r, p);
        let c = cluster_total(head.take(r)) + p;
        assert(all_clusters(results, times)[c] == all_clusters(head, times)[c]);
        assert forall|m: int|
            0 <= m < all_members(results).len() && (#[trigger] all_members(results)[m]).cluster_id
                == c + 1 implies results[r].cluster_labels@[all_members(results)[m].obs as int]
            == first_seen(results[r].cluster_labels@)[p] by {
            if m >= before {
                assert(all_members(results)[m] == rows[m - before]);
            } else {
                assert(all_members(results)[m] == all_members(head)[m]);
            }
        }
        assert forall|i: int|
            0 <= i < n && #[trigger] results[r].cluster_labels@[i] == first_seen(
                results[r].cluster_labels@,
            )[p] implies all_members(results).contains(
            ClusterMember { cluster_id: (c + 1) as u32, obs: i as usize },
        ) by {
            let row = ClusterMember { cluster_id: (c + 1) as u32, obs: i as usize };
            assert(all_members(head).contains(row));
            let m = choose|m: int| 0 <= m < all_members(head).len() && all_members(head)[m] == row;
            assert(all_members(results)[m] == row);
        }
    }
}

} // verus!
