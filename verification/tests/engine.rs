use reversi::boardstate::{dx, dy, BoardState};

#[test]
fn construction_counts_small() {
    let b = BoardState::new(2, false);
    assert_eq!(b.get_size(), 4);
    let ((wc, w), (bc, bl)) = b.count_pieces();
    assert_eq!(wc, 'o');
    assert_eq!(bc, '#');
    assert_eq!(w, 2);
    assert_eq!(bl, 2);
}

#[test]
fn construction_counts_standard() {
    let b = BoardState::new(4, true);
    assert_eq!(b.get_size(), 8);
    let ((_, w), (_, bl)) = b.count_pieces();
    assert_eq!(w, 2);
    assert_eq!(bl, 2);
}

#[test]
fn construction_layout() {
    let b = BoardState::new(2, false);
    let v = b.show_board();
    for i in 0..4 {
        for j in 0..4 {
            let expected = match (i, j) {
                (1, 1) | (2, 2) => 'o',
                (1, 2) | (2, 1) => '#',
                _ => '.',
            };
            assert_eq!(v[i][j], expected);
        }
    }
}

#[test]
fn starting_side() {
    let b = BoardState::new(2, true);
    assert!(b.is_it_white_turn());
    assert_eq!(b.which_turn(), 'o');
    let b = BoardState::new(2, false);
    assert!(!b.is_it_white_turn());
    assert_eq!(b.which_turn(), '#');
}

#[test]
fn piece_symbols() {
    assert_eq!(BoardState::white_piece(), 'o');
    assert_eq!(BoardState::black_piece(), '#');
}

#[test]
fn direction_offsets() {
    let expected_dx = [1, 1, 1, 0, -1, -1, -1, 0];
    let expected_dy = [-1, 0, 1, 1, 1, 0, -1, -1];
    for k in 0..8 {
        assert_eq!(dx(k), expected_dx[k]);
        assert_eq!(dy(k), expected_dy[k]);
    }
    assert_eq!(dx(99), 0);
    assert_eq!(dy(99), 0);
}

#[test]
fn in_range_bounds() {
    assert!(BoardState::in_range(0, 4));
    assert!(BoardState::in_range(3, 4));
    assert!(!BoardState::in_range(4, 4));
    assert!(!BoardState::in_range(-1, 4));
}

#[test]
fn initial_capture_counts_black() {
    let b = BoardState::new(4, false);
    let v = b.cnt_reversable();
    for i in 0..8 {
        for j in 0..8 {
            let expected = match (i, j) {
                (2, 3) | (3, 2) | (4, 5) | (5, 4) => 1,
                _ => 0,
            };
            assert_eq!(v[i][j], expected, "cell ({}, {})", i, j);
        }
    }
}

#[test]
fn initial_capture_counts_white() {
    let b = BoardState::new(4, true);
    let v = b.cnt_reversable();
    for i in 0..8 {
        for j in 0..8 {
            let expected = match (i, j) {
                (2, 4) | (3, 5) | (4, 2) | (5, 3) => 1,
                _ => 0,
            };
            assert_eq!(v[i][j], expected, "cell ({}, {})", i, j);
        }
    }
}

#[test]
fn first_move_flips_one_disc() {
    // On a fresh board the side to move captures exactly one disc with any of
    // its four opening moves; placing at (3, 2) flips only the disc at (3, 3).
    let mut b = BoardState::new(4, false);
    let cont = b.put(3, 2);
    assert!(cont);
    let v = b.show_board();
    assert_eq!(v[3][2], '#');
    assert_eq!(v[3][3], '#');
    assert_eq!(v[3][4], '#');
    assert_eq!(v[4][3], '#');
    assert_eq!(v[4][4], 'o');
    let ((_, w), (_, bl)) = b.count_pieces();
    assert_eq!(bl, 4);
    assert_eq!(w, 1);
}

#[test]
fn turn_alternates_after_move() {
    let mut b = BoardState::new(4, false);
    assert!(!b.is_it_white_turn());
    let cont = b.put(2, 3);
    assert!(cont);
    assert!(b.is_it_white_turn());
}

#[test]
fn conservation_over_moves() {
    let mut b = BoardState::new(4, false);
    let mut occupied = 4;
    for _ in 0..6 {
        let v = b.cnt_reversable();
        let n = b.get_size();
        let mut mv = None;
        for i in 0..n {
            for j in 0..n {
                if v[i][j] > 0 && mv.is_none() {
                    mv = Some((i, j));
                }
            }
        }
        let (i, j) = mv.expect("a legal move exists");
        b.put(i, j);
        occupied += 1;
        let ((_, w), (_, bl)) = b.count_pieces();
        assert_eq!(w + bl, occupied);
    }
}

#[test]
fn queries_are_idempotent() {
    let mut b = BoardState::new(3, false);
    b.put(1, 2);
    let c1 = b.cnt_reversable();
    let c2 = b.cnt_reversable();
    assert_eq!(c1, c2);
    let s1 = b.show_board();
    let s2 = b.show_board();
    assert_eq!(s1, s2);
}

#[test]
fn snapshot_does_not_alias_board() {
    let b = BoardState::new(2, false);
    let mut v = b.show_board();
    v[0][0] = '#';
    let v2 = b.show_board();
    assert_eq!(v2[0][0], '.');
}
