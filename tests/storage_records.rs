use oh_crab_planner::storage::{assign_markets, storage_weights, Position, StorageInfo};

#[test]
fn position_getters_and_row_major_order() {
    let p = Position::new(2, 5);
    assert_eq!(p.get_row(), 2);
    assert_eq!(p.get_col(), 5);
    assert!(Position::new(1, 9) < Position::new(2, 0));
    assert!(Position::new(2, 0) < Position::new(2, 1));
    assert_eq!(Position::new(3, 3), Position::new(3, 3));
}

#[test]
fn coefficient_follows_content() {
    assert_eq!(StorageInfo::new(Position::new(0, 0), 0, 4).get_coefficient(), 1);
    assert_eq!(StorageInfo::new(Position::new(0, 0), 1, 4).get_coefficient(), 2);
    assert_eq!(StorageInfo::new(Position::new(0, 0), 10, 4).get_coefficient(), 5);
    assert_eq!(StorageInfo::new(Position::new(0, 0), 7, 4).get_coefficient(), 0);
}

#[test]
fn storage_getters_and_market_index() {
    let mut s = StorageInfo::new(Position::new(1, 2), 1, 6);
    assert_eq!(s.get_position(), Position::new(1, 2));
    assert_eq!(s.get_content(), 1);
    assert_eq!(s.get_quantity(), 6);
    assert_eq!(s.get_market_index(), 0);
    s.set_market_index(3);
    assert_eq!(s.get_market_index(), 3);
    *s.get_market_index_mut() = 8;
    assert_eq!(s.get_market_index(), 8);
    assert_eq!(s.weight(), Some(12));
}

#[test]
fn records_are_equal_by_position() {
    let a = StorageInfo::new(Position::new(1, 1), 0, 3);
    let b = StorageInfo::new(Position::new(1, 1), 10, 9);
    let c = StorageInfo::new(Position::new(1, 2), 0, 3);
    assert!(a == b);
    assert!(a != c);
}

#[test]
fn weights_and_assignment() {
    let mut targets = vec![
        StorageInfo::new(Position::new(0, 0), 0, 4),
        StorageInfo::new(Position::new(0, 1), 1, 4),
        StorageInfo::new(Position::new(0, 2), 10, 3),
    ];
    assert_eq!(storage_weights(&targets), Some(vec![4, 8, 15]));
    assign_markets(&mut targets, &vec![1, 0, 1]);
    let markets: Vec<usize> = targets.iter().map(|t| t.get_market_index()).collect();
    assert_eq!(markets, vec![1, 0, 1]);
    assert_eq!(targets[2].get_quantity(), 3);
}

#[test]
fn weight_overflow_is_reported() {
    let big = StorageInfo::new(Position::new(0, 0), 10, u32::MAX as usize);
    assert_eq!(big.weight(), None);
    assert_eq!(storage_weights(&vec![big]), None);
    let huge_but_worthless = StorageInfo::new(Position::new(0, 0), 7, usize::MAX);
    assert_eq!(huge_but_worthless.weight(), Some(0));
}
