use thor_cluster::gridsearch::{
    cluster_grid_search_serial, search_chunk, work_chunk_size, worker_chunks,
};

#[test]
fn test_work_chunk_size() {
    // Partition the work to be done
    // for 2 threads
    // 10 -> 5, 5
    // 11 -> 6, 5
    // 12 -> 6, 6
    // 13 -> 7, 6
    assert_eq!(work_chunk_size(2, 10), 5);
    assert_eq!(work_chunk_size(2, 11), 6);
    assert_eq!(work_chunk_size(2, 12), 6);
    assert_eq!(work_chunk_size(2, 13), 7);
    // for 3 threads
    // 10 -> 4, 4, 2
    // 11 -> 4, 4, 3
    // 12 -> 4, 4, 4
    // 13 -> 5, 5, 3
    // 14 -> 5, 5, 4
    // 15 -> 5, 5, 5
    // 16 -> 6, 5, 5
    assert_eq!(work_chunk_size(3, 10), 4);
    assert_eq!(work_chunk_size(3, 11), 4);
    assert_eq!(work_chunk_size(3, 12), 4);
    assert_eq!(work_chunk_size(3, 13), 5);
    assert_eq!(work_chunk_size(3, 14), 5);
    assert_eq!(work_chunk_size(3, 15), 5);
    assert_eq!(work_chunk_size(3, 16), 6);
}

#[test]
fn work_chunk_size_of_nothing_is_zero() {
    assert_eq!(work_chunk_size(4, 0), 0);
    assert_eq!(work_chunk_size(1, 7), 7);
    assert_eq!(work_chunk_size(9, 7), 1);
}

#[test]
fn worker_chunks_leave_one_thread_for_collecting() {
    assert_eq!(worker_chunks(4, 3), vec![(0, 1), (1, 2), (2, 3)]);
    assert_eq!(worker_chunks(8, 3), vec![(0, 1), (1, 2), (2, 3)]);
    assert_eq!(worker_chunks(4, 9), vec![(0, 3), (3, 6), (6, 9)]);
    assert_eq!(worker_chunks(5, 9), vec![(0, 2), (2, 4), (4, 6), (6, 9)]);
    assert_eq!(worker_chunks(16, 1), vec![(0, 1)]);
}

#[test]
fn the_last_worker_takes_what_is_left() {
    assert_eq!(worker_chunks(2, 10), vec![(0, 10)]);
    assert_eq!(worker_chunks(2, 1), vec![(0, 1)]);
    assert_eq!(worker_chunks(3, 13), vec![(0, 5), (5, 13)]);
    assert_eq!(worker_chunks(4, 11), vec![(0, 3), (3, 6), (6, 11)]);
    assert_eq!(worker_chunks(3, 16), vec![(0, 6), (6, 16)]);
}

#[test]
fn worker_chunks_cover_every_value_once() {
    for n_threads in 2..12 {
        for n in 0..60 {
            let chunks = worker_chunks(n_threads, n);
            assert!(chunks.len() <= n_threads - 1);
            let mut next = 0;
            for (start, end) in chunks {
                assert_eq!(start, next);
                assert!(start < end);
                next = end;
            }
            assert_eq!(next, n);
        }
    }
}

#[test]
fn worker_chunks_of_one_thread_or_no_values_are_none() {
    assert_eq!(worker_chunks(1, 10), Vec::<(usize, usize)>::new());
    assert_eq!(worker_chunks(4, 0), Vec::<(usize, usize)>::new());
}

#[test]
fn chunked_search_reports_every_velocity_once() {
    let vxs: Vec<i64> = (0..10).collect();
    let vys = vec![100i64, 200, 300];
    let serial = cluster_grid_search_serial(&vxs, &vys, |vx: i64, vy: i64| vec![(vx + vy) as i32]);
    for n_threads in 2..13 {
        let mut chunked = Vec::new();
        for (start, end) in worker_chunks(n_threads, vxs.len()) {
            chunked.extend(search_chunk(&vxs, start, end, &vys, |vx: i64, vy: i64| {
                vec![(vx + vy) as i32]
            }));
        }
        assert_eq!(chunked.len(), 30);
        for (a, b) in serial.iter().zip(chunked.iter()) {
            assert_eq!((a.vx, a.vy), (b.vx, b.vy));
            assert_eq!(a.cluster_labels, b.cluster_labels);
        }
    }
}

#[test]
fn serial_search_walks_vx_then_vy() {
    let vxs = vec![-1i64, 0, 1];
    let vys = vec![10i64, 20];
    let results = cluster_grid_search_serial(&vxs, &vys, |vx: i64, vy: i64| {
        vec![(vx + vy) as i32]
    });
    let seen: Vec<(i64, i64, Vec<i32>)> = results
        .into_iter()
        .map(|r| (r.vx, r.vy, r.cluster_labels))
        .collect();
    assert_eq!(
        seen,
        vec![
            (-1, 10, vec![9]),
            (-1, 20, vec![19]),
            (0, 10, vec![10]),
            (0, 20, vec![20]),
            (1, 10, vec![11]),
            (1, 20, vec![21]),
        ]
    );
}

#[test]
fn search_chunk_covers_only_its_chunk() {
    let vxs = vec![1i64, 2, 3, 4];
    let vys = vec![7i64];
    let results = search_chunk(&vxs, 1, 3, &vys, |vx: i64, vy: i64| vec![(vx * vy) as i32]);
    assert_eq!(results.len(), 2);
    assert_eq!(results[0].vx, 2);
    assert_eq!(results[0].vy, 7);
    assert_eq!(results[0].cluster_labels, vec![14]);
    assert_eq!(results[1].vx, 3);
    assert_eq!(results[1].cluster_labels, vec![21]);
}

#[test]
fn empty_grid_gives_no_results() {
    let none: Vec<i64> = vec![];
    let some = vec![1i64, 2];
    assert_eq!(
        cluster_grid_search_serial(&none, &some, |_: i64, _: i64| vec![1]).len(),
        0
    );
    assert_eq!(
        cluster_grid_search_serial(&some, &none, |_: i64, _: i64| vec![1]).len(),
        0
    );
}
