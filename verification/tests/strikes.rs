use collector::strikes::group_strikes;

#[test]
fn buckets_ascend_and_share_equal_strikes() {
    let g = group_strikes(&vec![110, 90, 100, 90, 110, 105]);
    assert_eq!(g.keys, vec![90, 100, 105, 110]);
    assert_eq!(g.group_of, vec![3, 0, 1, 0, 3, 2]);
}

#[test]
fn no_contracts_no_buckets() {
    let g = group_strikes(&Vec::new());
    assert!(g.keys.is_empty() && g.group_of.is_empty());
}

#[test]
fn negative_and_single_strikes() {
    let g = group_strikes(&vec![-5, 7]);
    assert_eq!(g.keys, vec![-5, 7]);
    assert_eq!(g.group_of, vec![0, 1]);
    let g = group_strikes(&vec![42, 42, 42]);
    assert_eq!(g.keys, vec![42]);
    assert_eq!(g.group_of, vec![0, 0, 0]);
}
