use thor_cluster::points::{XYPoint, XYTPoint};
use thor_cluster::{check_lengths, ClusterAlgorithm, SearchError};

#[test]
fn points_keep_their_coordinates() {
    let p = XYPoint::new(3, -4);
    assert_eq!(p.x, 3);
    assert_eq!(p.y, -4);
    assert_eq!(p, XYPoint { x: 3, y: -4 });
    let q = XYTPoint::new(1.5, 2.5, 3.5);
    assert_eq!(q.x, 1.5);
    assert_eq!(q.y, 2.5);
    assert_eq!(q.t, 3.5);
}

#[test]
fn algorithms_are_four_different_tags() {
    let all = [
        ClusterAlgorithm::DBSCAN,
        ClusterAlgorithm::Hotspot2D,
        ClusterAlgorithm::DbscanRStar,
        ClusterAlgorithm::DbscanFixed16,
    ];
    for (i, a) in all.iter().enumerate() {
        for (j, b) in all.iter().enumerate() {
            assert_eq!(a == b, i == j);
        }
    }
}

#[test]
fn columns_of_one_length_pass() {
    assert_eq!(check_lengths(&vec![]), Ok(()));
    assert_eq!(check_lengths(&vec![7]), Ok(()));
    assert_eq!(check_lengths(&vec![0, 0, 0, 0]), Ok(()));
    assert_eq!(check_lengths(&vec![5, 5, 5, 5]), Ok(()));
}

#[test]
fn columns_of_different_lengths_are_invalid() {
    assert_eq!(check_lengths(&vec![5, 4]), Err(SearchError::InvalidInput));
    assert_eq!(check_lengths(&vec![5, 5, 5, 6]), Err(SearchError::InvalidInput));
    assert_eq!(check_lengths(&vec![0, 5, 5, 5]), Err(SearchError::InvalidInput));
    assert_eq!(check_lengths(&vec![5, 5, 0, 5]), Err(SearchError::InvalidInput));
}
