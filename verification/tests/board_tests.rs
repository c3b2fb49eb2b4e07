use oxydation::Board;

#[test]
fn board_get_set() {
    let mut b = Board::new(2, 2);
    assert_eq!(b.get(0, 1), 0);
    b.set(0, 1, 42);
    assert_eq!(b.get(0, 1), 42);
}

#[test]
fn board_from_str() {
    let b: Board = Board::from_str("678
                                345
                                012").unwrap();
    for i in 0..3usize {
        for j in 0..3usize {
            assert_eq!(b.get(i, j), (i + j * 3) as u32);
        }
    }
}

#[test]
fn board_gravity() {
    let mut b: Board = Board::from_str("001
                                    230
                                    400").unwrap();
    b.apply_gravity();
    let expected: Board = Board::from_str("000
                                       200
                                       431").unwrap();
    assert_eq!(b, expected);
}

#[test]
fn find_groups() {
    let b: Board = Board::from_str("11
                                01").unwrap();
    let groups = b.find_groups();
    assert_eq!(groups.len(), 1);
    let g = &groups[0];
    assert_eq!(g.len(), 3);
    assert!(g.contains(&(1, 0)));
    assert!(g.contains(&(0, 1)));
    assert!(g.contains(&(1, 1)));
}

#[test]
fn transform_matches() {
    let mut b: Board = Board::from_str("104440
                                    123340
                                    122344").unwrap();
    b.transform_matches();
    let expected: Board = Board::from_str("000000
                                       000000
                                       230450").unwrap();
    assert_eq!(b, expected);
}

#[test]
fn test_board_get_set() {
    let mut b = Board::new(2, 2);
    assert_eq!(b.get(0, 1), 0);
    b.set(0, 1, 42);
    assert_eq!(b.get(0, 1), 42);
}

#[test]
fn test_board_gravity() {
    let mut b = Board::new(3, 3);
    b.set(0, 0, 3);
    b.set(1, 1, 6);
    b.set(2, 2, 9);
    b.apply_gravity();
    assert_eq!(b.get(0, 0), 3);
    assert_eq!(b.get(1, 0), 6);
    assert_eq!(b.get(1, 1), 0);
    assert_eq!(b.get(2, 2), 0);
    assert_eq!(b.get(2, 0), 9);
}

#[test]
fn gravity_is_idempotent() {
    let mut b: Board = Board::from_str("104
                                       023
                                       310").unwrap();
    b.apply_gravity();
    let once = b.clone();
    b.apply_gravity();
    assert_eq!(b, once);
}

#[test]
fn gravity_keeps_column_tiles_in_order() {
    let mut b = Board::new(1, 4);
    b.set(0, 1, 7);
    b.set(0, 3, 5);
    b.apply_gravity();
    assert_eq!(b.get(0, 0), 7);
    assert_eq!(b.get(0, 1), 5);
    assert_eq!(b.get(0, 2), 0);
    assert_eq!(b.get(0, 3), 0);
}

#[test]
fn gravity_on_mixed_columns() {
    let mut b = Board::new(3, 3);
    b.set(0, 0, 3);
    b.set(1, 0, 4);
    b.set(1, 1, 6);
    b.set(2, 2, 9);
    b.apply_gravity();
    assert_eq!(b.get(0, 0), 3);
    assert_eq!(b.get(1, 0), 4);
    assert_eq!(b.get(1, 1), 6);
    assert_eq!(b.get(2, 0), 9);
    assert_eq!(b.get(0, 1), 0);
    assert_eq!(b.get(2, 1), 0);
    assert_eq!(b.get(0, 2), 0);
    assert_eq!(b.get(1, 2), 0);
    assert_eq!(b.get(2, 2), 0);
}

#[test]
fn groups_are_disjoint() {
    let b: Board = Board::from_str("2020
                                    2020").unwrap();
    let groups = b.find_groups();
    assert_eq!(groups.len(), 2);
    for p in &groups[0] {
        assert!(!groups[1].contains(p));
    }
}

#[test]
fn isolated_tile_is_no_group() {
    let b: Board = Board::from_str("102
                                    201").unwrap();
    assert_eq!(b.find_groups().len(), 0);
}

#[test]
fn small_groups_do_not_merge() {
    let mut b: Board = Board::from_str("22").unwrap();
    let before = b.clone();
    let changed = b.transform_matches();
    assert!(!changed);
    assert_eq!(b, before);
}

#[test]
fn merge_lowers_tile_count() {
    let mut b: Board = Board::from_str("220
                                        202").unwrap();
    let tiles_before = 4;
    let changed = b.transform_matches();
    assert!(changed);
    let mut tiles_after = 0;
    for c in 0..3usize {
        for r in 0..2usize {
            if b.get(c, r) != 0 {
                tiles_after += 1;
            }
        }
    }
    assert!(tiles_after < tiles_before);
    assert_eq!(tiles_after, 2);
}

#[test]
fn evolve_merges_a_column() {
    let mut b: Board = Board::from_str("1
                                        1
                                        1").unwrap();
    b.evolve();
    assert_eq!(b.get(0, 0), 2);
    assert_eq!(b.get(0, 1), 0);
    assert_eq!(b.get(0, 2), 0);
}

#[test]
fn evolve_cascades() {
    let mut b: Board = Board::from_str("2
                                        2
                                        1
                                        1
                                        1").unwrap();
    b.evolve();
    assert_eq!(b.get(0, 0), 3);
    for r in 1..5usize {
        assert_eq!(b.get(0, r), 0);
    }
}

#[test]
fn evolve_reaches_a_fixpoint() {
    let mut b: Board = Board::from_str("104440
                                        123340
                                        122344").unwrap();
    b.evolve();
    for g in b.find_groups() {
        assert!(g.len() < 3);
    }
    let settled = b.clone();
    b.evolve();
    assert_eq!(b, settled);
}

#[test]
fn from_str_sets_highest() {
    let b: Board = Board::from_str("078
                                    345").unwrap();
    let v = b.get_random_value();
    assert!((1..=8).contains(&v));
}

#[test]
fn from_str_rejects_ragged_lines() {
    assert!(Board::from_str("12
                             345").is_none());
}

#[test]
fn from_str_rejects_non_digits() {
    assert!(Board::from_str("1a").is_none());
}

#[test]
fn from_str_rejects_empty_text() {
    assert!(Board::from_str("").is_none());
    assert!(Board::from_str("   ").is_none());
}

#[test]
fn new_board_random_value_is_one_or_two() {
    let b = Board::new(4, 4);
    for _ in 0..50 {
        let v = b.get_random_value();
        assert!(v == 1 || v == 2);
    }
}
