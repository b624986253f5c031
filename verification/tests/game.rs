use reversi::boardstate::BoardState;

/// Recompute the capture counts from a rendered snapshot and the side to
/// move alone, independently of the engine.
fn counts_from_render(v: &[Vec<char>], white_to_move: bool) -> Vec<Vec<usize>> {
    let n = v.len();
    let me = if white_to_move { 'o' } else { '#' };
    let opp = if white_to_move { '#' } else { 'o' };
    let dxs = [1i64, 1, 1, 0, -1, -1, -1, 0];
    let dys = [-1i64, 0, 1, 1, 1, 0, -1, -1];
    let mut out = vec![vec![0usize; n]; n];
    for i in 0..n {
        for j in 0..n {
            if v[i][j] != '.' {
                continue;
            }
            for k in 0..8 {
                let mut m = 1i64;
                loop {
                    let x = i as i64 + m * dxs[k];
                    let y = j as i64 + m * dys[k];
                    if x < 0 || x >= n as i64 || y < 0 || y >= n as i64 {
                        break;
                    }
                    let ch = v[x as usize][y as usize];
                    if ch == opp {
                        m += 1;
                    } else {
                        if ch == me && m > 1 {
                            out[i][j] += (m - 1) as usize;
                        }
                        break;
                    }
                }
            }
        }
    }
    out
}

#[test]
fn render_round_trip_initial() {
    let b = BoardState::new(4, false);
    let recomputed = counts_from_render(&b.show_board(), b.is_it_white_turn());
    assert_eq!(b.cnt_reversable(), recomputed);
}

#[test]
fn render_round_trip_midgame() {
    let mut b = BoardState::new(2, false);
    for &(i, j) in &[(3, 2), (3, 1), (0, 0)] {
        assert!(b.cnt_reversable()[i][j] > 0);
        b.put(i, j);
        let recomputed = counts_from_render(&b.show_board(), b.is_it_white_turn());
        assert_eq!(b.cnt_reversable(), recomputed);
    }
}

#[test]
fn forced_pass_keeps_mover() {
    // A game on the 4-by-4 board in which the eleventh placement leaves the
    // opponent without a legal move while the mover still has one: the turn
    // is silently passed back and the game goes on.
    let mut b = BoardState::new(2, false);
    let moves = [
        (3, 2),
        (3, 1),
        (0, 0),
        (1, 3),
        (3, 3),
        (2, 3),
        (1, 0),
        (0, 2),
        (3, 0),
        (2, 0),
    ];
    for &(i, j) in &moves {
        assert!(b.cnt_reversable()[i][j] > 0);
        assert!(b.put(i, j));
    }
    let mover_is_white = b.is_it_white_turn();
    assert!(b.cnt_reversable()[0][1] > 0);
    assert!(b.put(0, 1));
    assert_eq!(b.is_it_white_turn(), mover_is_white);
}

#[test]
fn terminal_returns_stop() {
    // The same game played to the end: the final placement leaves neither
    // side a legal move, and that placement alone reports "stop".
    let mut b = BoardState::new(2, false);
    let moves = [
        (3, 2),
        (3, 1),
        (0, 0),
        (1, 3),
        (3, 3),
        (2, 3),
        (1, 0),
        (0, 2),
        (3, 0),
        (2, 0),
        (0, 1),
    ];
    for &(i, j) in &moves {
        assert!(b.cnt_reversable()[i][j] > 0);
        assert!(b.put(i, j));
    }
    assert!(b.cnt_reversable()[0][3] > 0);
    let cont = b.put(0, 3);
    assert!(!cont);
    assert!(!b.puttable());
    let ((_, w), (_, bl)) = b.count_pieces();
    assert_eq!(w, 2);
    assert_eq!(bl, 14);
}

#[test]
fn full_board_has_no_moves() {
    // The smallest board is entirely occupied at construction: neither side
    // can place anywhere.
    let b = BoardState::new(1, false);
    assert_eq!(b.get_size(), 2);
    let ((_, w), (_, bl)) = b.count_pieces();
    assert_eq!(w, 2);
    assert_eq!(bl, 2);
    assert!(!b.puttable());
    let v = b.cnt_reversable();
    for i in 0..2 {
        for j in 0..2 {
            assert_eq!(v[i][j], 0);
        }
    }
}

#[test]
fn legality_matches_positive_count() {
    // Every cell with a positive capture count accepts a placement; on a copy
    // of the position each such move flips at least that many discs to the
    // mover's side.
    let b = BoardState::new(2, false);
    let v = b.cnt_reversable();
    let mover = b.which_turn();
    let before = b.count_pieces();
    let mover_before = if mover == 'o' { before.0 .1 } else { before.1 .1 };
    for i in 0..4 {
        for j in 0..4 {
            if v[i][j] > 0 {
                let mut c = BoardState::new(2, false);
                c.put(i, j);
                let after = c.count_pieces();
                let mover_after = if mover == 'o' { after.0 .1 } else { after.1 .1 };
                assert_eq!(mover_after, mover_before + v[i][j] + 1);
            }
        }
    }
}
