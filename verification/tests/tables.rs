use thor_cluster::gridsearch::GridSearchResult;
use thor_cluster::tables::{assemble_tables, Cluster, ClusterMember};
use thor_cluster::SearchError;

fn result(vx: i32, vy: i32, labels: Vec<i32>) -> GridSearchResult<i32> {
    GridSearchResult { vx, vy, cluster_labels: labels }
}

#[test]
fn one_track_gives_one_cluster() {
    // Four observations at times 0, 1, 2, 3, clustered at one velocity only.
    let times = vec![0, 1, 2, 3];
    let results = vec![
        result(-1, 0, vec![-1, -1, -1, -1]),
        result(0, 0, vec![-1, -1, -1, -1]),
        result(1, 0, vec![1, 1, 1, 1]),
    ];
    let tables = assemble_tables(&results, &times).unwrap();
    assert_eq!(
        tables.clusters,
        vec![Cluster { cluster_id: 1, vx: 1, vy: 0, earliest: 0, latest: 3, arc_length: 3 }]
    );
    assert_eq!(
        tables.members,
        vec![
            ClusterMember { cluster_id: 1, obs: 0 },
            ClusterMember { cluster_id: 1, obs: 1 },
            ClusterMember { cluster_id: 1, obs: 2 },
            ClusterMember { cluster_id: 1, obs: 3 },
        ]
    );
}

#[test]
fn cluster_ids_run_on_over_the_results() {
    let times = vec![5, -3, 9, 0, 7, 7];
    let results = vec![
        result(0, 0, vec![2, 1, 2, -1, 1, 2]),
        result(0, 1, vec![-1, -1, -1, -1, -1, -1]),
        result(1, 1, vec![1, 1, -1, 0, 0, -1]),
    ];
    let tables = assemble_tables(&results, &times).unwrap();
    assert_eq!(
        tables.clusters,
        vec![
            Cluster { cluster_id: 1, vx: 0, vy: 0, earliest: 0, latest: 2, arc_length: 4 },
            Cluster { cluster_id: 2, vx: 0, vy: 0, earliest: 1, latest: 4, arc_length: 10 },
            Cluster { cluster_id: 3, vx: 1, vy: 1, earliest: 1, latest: 0, arc_length: 8 },
            Cluster { cluster_id: 4, vx: 1, vy: 1, earliest: 3, latest: 4, arc_length: 7 },
        ]
    );
    let rows: Vec<(u32, usize)> = tables.members.iter().map(|m| (m.cluster_id, m.obs)).collect();
    assert_eq!(
        rows,
        vec![(1, 0), (2, 1), (1, 2), (2, 4), (1, 5), (3, 0), (3, 1), (4, 3), (4, 4)]
    );
}

#[test]
fn equal_times_keep_the_first_observation() {
    let times = vec![4, 4, 4];
    let tables = assemble_tables(&vec![result(0, 0, vec![7, 7, 7])], &times).unwrap();
    assert_eq!(
        tables.clusters,
        vec![Cluster { cluster_id: 1, vx: 0, vy: 0, earliest: 0, latest: 0, arc_length: 0 }]
    );
}

#[test]
fn arc_length_spans_the_whole_range_of_times() {
    let times = vec![i64::MAX, i64::MIN];
    let tables = assemble_tables(&vec![result(0, 0, vec![0, 0])], &times).unwrap();
    assert_eq!(tables.clusters[0].earliest, 1);
    assert_eq!(tables.clusters[0].latest, 0);
    assert_eq!(tables.clusters[0].arc_length, u64::MAX);
}

#[test]
fn empty_grid_or_empty_input_gives_empty_tables() {
    let no_results: Vec<GridSearchResult<i32>> = vec![];
    let tables = assemble_tables(&no_results, &vec![1, 2, 3]).unwrap();
    assert!(tables.clusters.is_empty());
    assert!(tables.members.is_empty());

    let tables = assemble_tables(&vec![result(0, 0, vec![]), result(0, 1, vec![])], &vec![]).unwrap();
    assert!(tables.clusters.is_empty());
    assert!(tables.members.is_empty());
}

#[test]
fn a_result_of_another_length_is_refused() {
    let times = vec![0, 1, 2];
    let short = vec![result(0, 0, vec![1, 1, 1]), result(0, 1, vec![1, 1])];
    assert_eq!(assemble_tables(&short, &times).err(), Some(SearchError::InvalidInput));
    let long = vec![result(0, 0, vec![1, 1, 1, 1])];
    assert_eq!(assemble_tables(&long, &times).err(), Some(SearchError::InvalidInput));
}
