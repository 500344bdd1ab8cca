use slayerfs_meta::intervals::Intervals;

#[test]
fn cut_takes_out_what_is_there() {
    let mut left = Intervals::new(0, 20);
    assert_eq!(left.cut(5, 10), vec![(5, 10)]);
    assert_eq!(left.cut(3, 12), vec![(3, 5), (10, 12)]);
    assert_eq!(left.cut(3, 12), vec![]);
    assert_eq!(left.collect(), vec![(0, 3), (12, 20)]);
}

#[test]
fn cut_of_nothing_changes_nothing() {
    let mut left = Intervals::new(0, 20);
    assert_eq!(left.cut(7, 7), vec![]);
    assert_eq!(left.cut(9, 4), vec![]);
    assert_eq!(left.cut(20, 30), vec![]);
    assert_eq!(left.collect(), vec![(0, 20)]);
}

#[test]
fn cut_of_more_than_all() {
    let mut left = Intervals::new(4, 8);
    assert_eq!(left.cut(0, u64::MAX), vec![(4, 8)]);
    assert_eq!(left.collect(), vec![]);
    assert_eq!(Intervals::new(8, 8).collect(), vec![]);
    assert_eq!(Intervals::new(9, 8).collect(), vec![]);
}
