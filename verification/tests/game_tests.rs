use oxydation::{available_moves, best_move, score, Board, Game, GameErrorKind, Orientation};

#[test]
fn new_game_draws_a_small_pair() {
    let g = Game::new(4, 4);
    let (a, b) = g.get_current();
    assert!(a == 1 || a == 2);
    assert!(b == 1 || b == 2);
}

#[test]
fn play_places_and_evolves() {
    let mut g = Game::new(4, 4);
    let r = g.play(0, Orientation::Horizontal);
    assert!(r.is_ok());
    // the pair fell to the bottom row (a pair of equal tiles cannot merge)
    let placed = g.b.get(0, 0) != 0 || g.b.get(1, 0) != 0;
    assert!(placed);
}

#[test]
fn play_rejected_leaves_game_unchanged() {
    let mut g = Game::new(10, 10);
    // fill the lower part of column 3 with alternating high tiles
    for r in 0..8usize {
        let v = if r % 2 == 0 { 9 } else { 8 };
        g.b.set(3, r, v);
    }
    // first placement fills the last two cells of the column
    let first = g.play(3, Orientation::Vertical);
    assert!(first.is_ok());
    let board_before = g.b.clone();
    let pair_before = g.get_current();
    // the second placement lands on the cells the first one occupied
    let second = g.play(3, Orientation::Vertical);
    match second {
        Err(e) => assert!(matches!(e.kind, GameErrorKind::GameOver)),
        Ok(()) => panic!("placement on an occupied cell must fail"),
    }
    assert_eq!(g.b, board_before);
    assert_eq!(g.get_current(), pair_before);
}

#[test]
fn reversed_orientation_swaps_the_pair() {
    let mut g = Game::new(5, 5);
    let (a, b) = g.get_current();
    let r = g.play(0, Orientation::RevHorizontal);
    assert!(r.is_ok());
    if a != b {
        // the pair cannot merge, so it sits swapped on the bottom row
        assert_eq!(g.b.get(0, 0), b);
        assert_eq!(g.b.get(1, 0), a);
    } else {
        assert_eq!(g.b.get(0, 0), a);
        assert_eq!(g.b.get(1, 0), a);
    }
}

#[test]
fn available_moves_enumerates_all_shapes() {
    let moves = available_moves(3);
    assert_eq!(moves.len(), 10);
    let expected = vec![
        (0, Orientation::Horizontal),
        (1, Orientation::Horizontal),
        (0, Orientation::RevHorizontal),
        (1, Orientation::RevHorizontal),
        (0, Orientation::Vertical),
        (1, Orientation::Vertical),
        (2, Orientation::Vertical),
        (0, Orientation::RevVertical),
        (1, Orientation::RevVertical),
        (2, Orientation::RevVertical),
    ];
    assert_eq!(moves, expected);
}

#[test]
fn score_counts_ten_to_the_level() {
    let b = Board::new(2, 2);
    assert_eq!(score(&b), 4);
    let mut b2 = Board::new(2, 2);
    b2.set(0, 0, 2);
    assert_eq!(score(&b2), 100 + 3);
    let mut b3 = Board::new(1, 1);
    b3.set(0, 0, 5);
    assert_eq!(score(&b3), 100_000);
}

#[test]
fn best_move_returns_a_legal_candidate() {
    let g = Game::new(3, 3);
    let m = best_move(&g);
    let legal = available_moves(3);
    assert!(legal.contains(&m));
}

#[test]
fn best_move_prefers_a_playable_column() {
    let mut g = Game::new(2, 2);
    // column 1 is full, so every move that touches it is rejected in
    // simulation and scores 0; only (0, Vertical) and (0, RevVertical) place
    g.b.set(1, 0, 9);
    g.b.set(1, 1, 8);
    let m = best_move(&g);
    assert_eq!(m.0, 0);
    assert!(matches!(m.1, Orientation::Vertical | Orientation::RevVertical));
}
