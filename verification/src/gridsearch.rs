//! Walking the velocity grid: the serial order, and the split of the grid
//! among workers.

use vstd::prelude::*;

verus! {

/// The labels found for one candidate velocity.
pub struct GridSearchResult<V> {
    pub vx: V,
    pub vy: V,
    pub cluster_labels: Vec<i32>,
}

/// `results` holds, for the `vx` values at `start..end` in turn, one result
/// for each `vy` value in turn, each with labels that `label` can give for
/// that velocity.
pub open spec fn is_chunk_search<V, F: Fn(V, V) -> Vec<i32>>(
    vxs: Seq<V>,
    start: int,
    end: int,
    vys: Seq<V>,
    label: F,
    results: Seq<GridSearchResult<V>>,
) -> bool {
    &&& results.len() == (end - start) * vys.len()
    &&& forall|i: int, j: int|
        start <= i < end && 0 <= j < vys.len() ==> {
            let result = #[trigger] results[(i - start) * vys.len() + j];
            &&& result.vx == vxs[i]
            &&& result.vy == vys[j]
            &&& call_ensures(label, (vxs[i], vys[j]), result.cluster_labels)
        }
}

/// What one worker does: labels the points at every velocity of its chunk
/// `start..end` of `vxs`, for each `vx` at every `vy`, in that order.
pub fn search_chunk<V: Copy, F: Fn(V, V) -> Vec<i32>>(
    vxs: &Vec<V>,
    start: usize,
    end: usize,
    vys: &Vec<V>,
    label: F,
) -> (results: Vec<GridSearchResult<V>>)
    requires
        start <= end <= vxs.len(),
        forall|i: int, j: int|
            start <= i < end && 0 <= j < vys.len() ==> call_requires(label, (vxs@[i], vys@[j])),
    ensures
        is_chunk_search(vxs@, start as int, end as int, vys@, label, results@),
{
    let mut results: Vec<GridSearchResult<V>> = Vec::new();
    let mut i: usize = start;
    while i < end
        invariant
            start <= i <= end <= vxs.len(),
            forall|i: int, j: int|
                start <= i < end && 0 <= j < vys.len() ==> call_requires(label, (vxs@[i], vys@[j])),
            is_chunk_search(vxs@, start as int, i as int, vys@, label, results@),
        decreases end - i,
    {
        let ghost before = results@;
        let mut j: usize = 0;
        while j < vys.len()
            invariant
                start <= i < end <= vxs.len(),
                j <= vys.len(),
                forall|i: int, j: int|
                    start <= i < end && 0 <= j < vys.len() ==> call_requires(
                        label,
                        (vxs@[i], vys@[j]),
                    ),
                before.len() == (i - start) * vys.len(),
                results@.len() == before.len() + j,
                forall|t: int| 0 <= t < before.len() ==> results@[t] == before[t],
                forall|t: int|
                    0 <= t < j ==> {
                        let result = #[trigger] results@[before.len() + t];
                        &&& result.vx == vxs@[i as int]
                        &&& result.vy == vys@[t]
                        &&& call_ensures(label, (vxs@[i as int], vys@[t]), result.cluster_labels)
                    },
            decreases vys.len() - j,
        {
            let vx = vxs[i];
            let vy = vys[j];
            let cluster_labels = label(vx, vy);
            results.push(GridSearchResult { vx, vy, cluster_labels });
            j += 1;
        }
        proof {
            let width = vys.len() as int;
            assert((i + 1 - start) * width == (i - start) * width + width) by (nonlinear_arith);
            assert forall|a: int, b: int| start <= a < i + 1 && 0 <= b < width implies {
                let result = #[trigger] results@[(a - start) * width + b];
                &&& result.vx == vxs@[a]
                &&& result.vy == vys@[b]
                &&& call_ensures(label, (vxs@[a], vys@[b]), result.cluster_labels)
            } by {
                if a < i {
                    assert((a - start) * width + b < (i - start) * width) by (nonlinear_arith)
                        requires
                            start <= a < i,
                            0 <= b < width,
                    ;
                    assert(results@[(a - start) * width + b] == before[(a - start) * width + b]);
                }
            }
        }
        i += 1;
    }
    results
}

/// Labels the points at every velocity of the grid, for each `vx` in turn
/// at every `vy` in turn.
pub fn cluster_grid_search_serial<V: Copy, F: Fn(V, V) -> Vec<i32>>(
    vxs: &Vec<V>,
    vys: &Vec<V>,
    label: F,
) -> (results: Vec<GridSearchResult<V>>)
    requires
        forall|i: int, j: int|
            0 <= i < vxs.len() && 0 <= j < vys.len() ==> call_requires(label, (vxs@[i], vys@[j])),
    ensures
        is_chunk_search(vxs@, 0, vxs.len() as int, vys@, label, results@),
{
    search_chunk(vxs, 0, vxs.len(), vys, label)
}

/// `ceil(n / d)` for a positive `d`.
pub open spec fn ceil_div(n: int, d: int) -> int
    recommends
        d > 0,
{
    if n % d == 0 {
        n / d
    } else {
        n / d + 1
    }
}

/// Number of `vx` values handed to each worker: the least chunk size with
/// which `n_threads` chunks cover all `n_vxs` values.
pub fn work_chunk_size(n_threads: usize, n_vxs: usize) -> (size: usize)
    requires
        n_threads >= 1,
    ensures
        size == ceil_div(n_vxs as int, n_threads as int),
        size * n_threads >= n_vxs,
        n_vxs > 0 ==> (size - 1) * n_threads < n_vxs,
        n_vxs > 0 ==> size >= 1,
{
    let chunk_size: usize = n_vxs / n_threads;
    proof {
        vstd::arithmetic::div_mod::lemma_fundamental_div_mod(n_vxs as int, n_threads as int);
        vstd::arithmetic::div_mod::lemma_mod_bound(n_vxs as int, n_threads as int);
        vstd::arithmetic::mul::lemma_mul_is_commutative(n_threads as int, chunk_size as int);
        vstd::arithmetic::mul::lemma_mul_is_distributive_add_other_way(
            n_threads as int,
            chunk_size as int,
            1,
        );
        vstd::arithmetic::mul::lemma_mul_is_distributive_sub_other_way(
            n_threads as int,
            chunk_size as int,
            1,
        );
    }
    if n_vxs % n_threads == 0 {
        chunk_size
    } else {
        assert(chunk_size < n_vxs) by (nonlinear_arith)
            requires
                n_vxs == n_threads * chunk_size + n_vxs % n_threads,
                n_threads >= 1,
                n_vxs % n_threads > 0,
        ;
        chunk_size + 1
    }
}

/// Number of chunks of `work_chunk_size` values that cover `n_vxs` values.
pub open spec fn chunk_count(n_threads: int, n_vxs: int) -> int
    recommends
        n_threads >= 1,
{
    if n_vxs <= 0 {
        0
    } else {
        ceil_div(n_vxs, ceil_div(n_vxs, n_threads))
    }
}

/// Number of workers that get a chunk: one thread is kept for collecting
/// the results, and a worker without a chunk is not started.
pub open spec fn worker_count(n_threads: int, n_vxs: int) -> int {
    if chunk_count(n_threads, n_vxs) < n_threads - 1 {
        chunk_count(n_threads, n_vxs)
    } else {
        n_threads - 1
    }
}

/// The chunk of worker `w`: where it starts in `vxs`, and where it ends.
/// Every worker but the last gets `work_chunk_size` values; the last gets
/// all that are left.
pub open spec fn worker_chunk(n_threads: int, n_vxs: int, w: int) -> (int, int) {
    let size = ceil_div(n_vxs, n_threads);
    (
        w * size,
        if w + 1 == worker_count(n_threads, n_vxs) {
            n_vxs
        } else {
            (w + 1) * size
        },
    )
}

/// The chunks cover `0..n` without gap or overlap: the first starts at 0,
/// each starts where the one before ends, none is empty, and the last
/// ends at `n`.
pub open spec fn tiles(chunks: Seq<(usize, usize)>, n: int) -> bool {
    if n == 0 {
        chunks.len() == 0
    } else {
        &&& chunks.len() >= 1
        &&& chunks[0].0 == 0
        &&& chunks[chunks.len() - 1].1 == n
        &&& forall|w: int| 0 <= w < chunks.len() ==> (#[trigger] chunks[w]).0 < chunks[w].1
        &&& forall|w: int| 0 <= w < chunks.len() - 1 ==> (#[trigger] chunks[w]).1 == chunks[w + 1].0
    }
}

/// Splits `n_vxs` values among the workers of `n_threads` threads, of which
/// one is kept for collecting: chunks of `work_chunk_size` values in order,
/// one for each of at most `n_threads - 1` workers, the last of which takes
/// all values that are left. With one thread there are no workers.
pub fn worker_chunks(n_threads: usize, n_vxs: usize) -> (chunks: Vec<(usize, usize)>)
    requires
        n_threads >= 1,
    ensures
        chunks.len() == worker_count(n_threads as int, n_vxs as int),
        chunks.len() <= n_threads - 1,
        forall|w: int|
            0 <= w < chunks.len() ==> (#[trigger] chunks@[w]).0 == worker_chunk(
                n_threads as int,
                n_vxs as int,
                w,
            ).0 && chunks@[w].1 == worker_chunk(n_threads as int, n_vxs as int, w).1,
        n_threads >= 2 ==> tiles(chunks@, n_vxs as int),
{
    let mut chunks: Vec<(usize, usize)> = Vec::new();
    if n_vxs == 0 {
        return chunks;
    }
    let size = work_chunk_size(n_threads, n_vxs);
    let mut start: usize = 0;
    let mut w: usize = 0;
    let ghost count = worker_count(n_threads as int, n_vxs as int);
    proof {
        lemma_chunks_before(n_vxs as int, size as int, 0);
        assert(0 * size == 0) by (nonlinear_arith);
    }
    while w + 1 < n_threads && start < n_vxs
        invariant
            n_threads >= 1,
            n_vxs > 0,
            size >= 1,
            size == ceil_div(n_vxs as int, n_threads as int),
            count == worker_count(n_threads as int, n_vxs as int),
            chunks.len() == w,
            start <= n_vxs,
            start < n_vxs ==> start == w * size && w < chunk_count(n_threads as int, n_vxs as int),
            start < n_vxs && w > 0 ==> w + 1 < n_threads,
            start == n_vxs ==> w == count && w >= 1,
            w > 0 ==> chunks@[0].0 == 0,
            w > 0 ==> chunks@[w - 1].1 == start,
            forall|v: int|
                0 <= v < w ==> (#[trigger] chunks@[v]).0 == worker_chunk(
                    n_threads as int,
                    n_vxs as int,
                    v,
                ).0 && chunks@[v].1 == worker_chunk(n_threads as int, n_vxs as int, v).1,
            forall|v: int| 0 <= v < w ==> (#[trigger] chunks@[v]).0 < chunks@[v].1,
            forall|v: int| 0 <= v < w - 1 ==> (#[trigger] chunks@[v]).1 == chunks@[v + 1].0,
        decreases n_threads - w,
    {
        let last_worker = w + 2 >= n_threads;
        let end = if last_worker || n_vxs - start <= size {
            n_vxs
        } else {
            start + size
        };
        proof {
            assert((w + 1) * size == w * size + size) by (nonlinear_arith);
            lemma_chunks_before(n_vxs as int, size as int, w + 1);
        }
        chunks.push((start, end));
        start = end;
        w += 1;
    }
    chunks
}

/// `w` chunks of `size` values end before the last of `n` values exactly
/// when fewer than `w` chunks do not cover them.
proof fn lemma_chunks_before(n: int, size: int, w: int)
    requires
        n > 0,
        size >= 1,
        w >= 0,
    ensures
        w * size < n <==> w < ceil_div(n, size),
{
    vstd::arithmetic::div_mod::lemma_fundamental_div_mod(n, size);
    vstd::arithmetic::div_mod::lemma_mod_bound(n, size);
    let q = n / size;
    let r = n % size;
    assert(n == size * q + r);
    assert(q * size == size * q) by (nonlinear_arith);
    if w < q {
        assert(w * size + size <= q * size) by (nonlinear_arith)
            requires
                w + 1 <= q,
                size >= 1,
        ;
    } else if w == q {
    } else {
        assert(w * size >= q * size + size) by (nonlinear_arith)
            requires
                w >= q + 1,
                size >= 1,
        ;
    }
}

/// A search of `a..b` followed by a search of `b..c` is a search of `a..c`.
pub proof fn lemma_chunks_join<V, F: Fn(V, V) -> Vec<i32>>(
    vxs: Seq<V>,
    a: int,
    b: int,
    c: int,
    vys: Seq<V>,
    label: F,
    first: Seq<GridSearchResult<V>>,
    second: Seq<GridSearchResult<V>>,
)
    requires
        a <= b <= c,
        is_chunk_search(vxs, a, b, vys, label, first),
        is_chunk_search(vxs, b, c, vys, label, second),
    ensures
        is_chunk_search(vxs, a, c, vys, label, first + second),
{
    let width = vys.len() as int;
    let both = first + second;
    assert((c - a) * width == (b - a) * width + (c - b) * width) by (nonlinear_arith);
    assert forall|i: int, j: int| a <= i < c && 0 <= j < width implies {
        let result = #[trigger] both[(i - a) * width + j];
        &&& result.vx == vxs[i]
        &&& result.vy == vys[j]
        &&& call_ensures(label, (vxs[i], vys[j]), result.cluster_labels)
    } by {
        if i < b {
            assert(0 <= (i - a) * width + j < (b - a) * width) by (nonlinear_arith)
                requires
                    a <= i < b,
                    0 <= j < width,
            ;
            assert(both[(i - a) * width + j] == first[(i - a) * width + j]);
        } else {
            assert((i - a) * width + j == (b - a) * width + ((i - b) * width + j))
                by (nonlinear_arith);
            assert(0 <= (i - b) * width + j < (c - b) * width) by (nonlinear_arith)
                requires
                    b <= i < c,
                    0 <= j < width,
            ;
            assert(both[(i - a) * width + j] == second[(i - b) * width + j]);
        }
    }
}

/// The results of the workers, worker after worker, are results of the
/// serial search: every velocity of the grid is searched once, by one
/// worker, with labels that the serial search may give.
pub proof fn lemma_workers_cover_grid<V, F: Fn(V, V) -> Vec<i32>>(
    vxs: Seq<V>,
    vys: Seq<V>,
    label: F,
    n_threads: int,
    outputs: Seq<Seq<GridSearchResult<V>>>,
)
    requires
        n_threads >= 2,
        outputs.len() == worker_count(n_threads, vxs.len() as int),
        forall|w: int|
            0 <= w < outputs.len() ==> is_chunk_search(
                vxs,
                worker_chunk(n_threads, vxs.len() as int, w).0,
                worker_chunk(n_threads, vxs.len() as int, w).1,
                vys,
                label,
                #[trigger] outputs[w],
            ),
    ensures
        is_chunk_search(vxs, 0, vxs.len() as int, vys, label, outputs.flatten()),
{
    let n = vxs.len() as int;
    outputs.lemma_flatten_and_flatten_alt_are_equivalent();
    if n == 0 {
        assert(outputs.flatten_alt() =~= Seq::empty());
        assert((n - 0) * vys.len() == 0) by (nonlinear_arith)
            requires
                n == 0,
        ;
    } else {
        let size = ceil_div(n, n_threads);
        lemma_chunk_size_positive(n, n_threads);
        lemma_chunks_before(n, size, 0);
        assert(0 * size == 0) by (nonlinear_arith);
        lemma_workers_join(vxs, vys, label, n_threads, outputs, outputs.len() as int);
        assert(outputs.take(outputs.len() as int) =~= outputs);
    }
}

/// A chunk of a list that is not empty is not empty.
proof fn lemma_chunk_size_positive(n: int, n_threads: int)
    requires
        n > 0,
        n_threads >= 1,
    ensures
        ceil_div(n, n_threads) >= 1,
{
    vstd::arithmetic::div_mod::lemma_fundamental_div_mod(n, n_threads);
    vstd::arithmetic::div_mod::lemma_mod_bound(n, n_threads);
    if n / n_threads <= 0 {
        assert(n_threads * (n / n_threads) <= 0) by (nonlinear_arith)
            requires
                n / n_threads <= 0,
                n_threads >= 1,
        ;
    }
}

/// The results of the first `k` workers are a search of the values before
/// the chunk of worker `k`, and of all values where `k` is the number of
/// workers.
proof fn lemma_workers_join<V, F: Fn(V, V) -> Vec<i32>>(
    vxs: Seq<V>,
    vys: Seq<V>,
    label: F,
    n_threads: int,
    outputs: Seq<Seq<GridSearchResult<V>>>,
    k: int,
)
    requires
        n_threads >= 2,
        vxs.len() > 0,
        0 <= k <= outputs.len(),
        outputs.len() == worker_count(n_threads, vxs.len() as int),
        forall|w: int|
            0 <= w < outputs.len() ==> is_chunk_search(
                vxs,
                worker_chunk(n_threads, vxs.len() as int, w).0,
                worker_chunk(n_threads, vxs.len() as int, w).1,
                vys,
                label,
                #[trigger] outputs[w],
            ),
    ensures
        outputs.len() >= 1,
        is_chunk_search(
            vxs,
            0,
            if k == outputs.len() {
                vxs.len() as int
            } else {
                k * ceil_div(vxs.len() as int, n_threads)
            },
            vys,
            label,
            outputs.take(k).flatten_alt(),
        ),
    decreases k,
{
    let n = vxs.len() as int;
    let size = ceil_div(n, n_threads);
    lemma_chunk_size_positive(n, n_threads);
    lemma_chunks_before(n, size, 0);
    assert(0 * size == 0) by (nonlinear_arith);
    if k == 0 {
        assert(outputs.take(0).flatten_alt() =~= Seq::empty());
        assert((0 - 0) * vys.len() == 0) by (nonlinear_arith);
    } else {
        lemma_workers_join(vxs, vys, label, n_threads, outputs, k - 1);
        lemma_chunks_before(n, size, k - 1);
        lemma_chunks_before(n, size, k);
        assert((k - 1) * size + size == k * size) by (nonlinear_arith);
        assert(outputs.take(k).drop_last() =~= outputs.take(k - 1));
        assert(outputs.take(k).last() == outputs[k - 1]);
        let chunk = worker_chunk(n_threads, n, k - 1);
        assert(chunk.0 == (k - 1) * size);
        lemma_chunks_join(
            vxs,
            0,
            chunk.0,
            chunk.1,
            vys,
            label,
            outputs.take(k - 1).flatten_alt(),
            outputs[k - 1],
        );
    }
}

} // verus!
