use sweeper::Glyph;
use sweeper::MineMap;
use sweeper::MouseButton;
use sweeper::MouseMessage;
use sweeper::RevealOutcome;
use sweeper::State;
use sweeper::ToggleOutcome;

/// A 3x3 board with one mine in the center, surrounded by `Blank(1)`
/// cells.
fn center_mine_board() -> MineMap {
    let mut mask = vec![false; 9];
    mask[4] = true;
    MineMap::from_mines(3, 3, mask).unwrap()
}

#[test]
fn revealing_a_mine_loses_and_shows_the_whole_layout() {
    let mut m = center_mine_board();
    assert_eq!(m.reveal_at(1, 1), RevealOutcome::Loss);
    for r in 0..3 {
        for c in 0..3 {
            assert_eq!(m.visibility_of(r, c), Some(State::Revealed));
        }
    }
    assert_eq!(m.display_glyph_of(1, 1), Some(Glyph::Mine));
    // The board is locked until a restart.
    assert_eq!(m.reveal_at(0, 0), RevealOutcome::Rejected);
    assert_eq!(m.toggle_mark(0, 0), ToggleOutcome::Rejected);
}

#[test]
fn revealing_a_numbered_blank_reveals_only_that_cell() {
    let mut m = center_mine_board();
    assert_eq!(m.reveal_at(0, 0), RevealOutcome::Continue);
    assert_eq!(m.visibility_of(0, 0), Some(State::Revealed));
    assert_eq!(m.display_glyph_of(0, 0), Some(Glyph::Count(1)));
    for r in 0..3 {
        for c in 0..3 {
            if (r, c) != (0, 0) {
                assert_eq!(m.visibility_of(r, c), Some(State::Hidden));
            }
        }
    }
    // A second click on the same cell is meaningless.
    assert_eq!(m.reveal_at(0, 0), RevealOutcome::Rejected);
}

#[test]
fn zero_mine_board_cascades_to_a_win_in_one_click() {
    let mut m = MineMap::new(4, 4, 0).unwrap();
    assert_eq!(m.reveal_at(2, 1), RevealOutcome::Continue);
    for r in 0..4 {
        for c in 0..4 {
            assert_eq!(m.visibility_of(r, c), Some(State::Revealed));
        }
    }
    assert!(m.check_win());
    // Winning locks the board; a same-layout restart unlocks it and
    // hides everything, so the game is no longer won.
    assert_eq!(m.reveal_at(0, 0), RevealOutcome::Rejected);
    m.restart_same();
    assert!(!m.check_win());
    assert_eq!(m.visibility_of(0, 0), Some(State::Hidden));
}

#[test]
fn cascade_reveals_the_connected_blank_region_and_no_mine() {
    // 3x4 board, mines in the rightmost column: the left two columns are
    // zero-count blanks, the third column carries counts. One click on
    // the left reveals the whole safe region and nothing else.
    let mask = vec![
        false, false, false, true,
        false, false, false, true,
        false, false, false, true,
    ];
    let mut m = MineMap::from_mines(3, 4, mask).unwrap();
    assert_eq!(m.reveal_at(0, 0), RevealOutcome::Continue);
    for r in 0..3 {
        for c in 0..3 {
            assert_eq!(m.visibility_of(r, c), Some(State::Revealed), "cell ({}, {})", r, c);
        }
        assert_eq!(m.visibility_of(r, 3), Some(State::Hidden));
    }
    assert!(m.check_win());
}

#[test]
fn cascade_does_not_pass_through_marked_cells() {
    // A marked cell is not revealed by the cascade and blocks it where
    // it is the only connection.
    let mask = vec![false, false, false, false, false, false];
    let mut m = MineMap::from_mines(1, 6, mask).unwrap();
    assert_eq!(m.toggle_mark(0, 2), ToggleOutcome::Accepted);
    assert_eq!(m.reveal_at(0, 0), RevealOutcome::Continue);
    assert_eq!(m.visibility_of(0, 0), Some(State::Revealed));
    assert_eq!(m.visibility_of(0, 1), Some(State::Revealed));
    assert_eq!(m.visibility_of(0, 2), Some(State::Marked));
    assert_eq!(m.visibility_of(0, 3), Some(State::Hidden));
    assert_eq!(m.visibility_of(0, 4), Some(State::Hidden));
    assert_eq!(m.visibility_of(0, 5), Some(State::Hidden));
}

#[test]
fn toggle_cycles_hidden_marked_uncertain_hidden() {
    let mut m = center_mine_board();
    assert_eq!(m.visibility_of(0, 1), Some(State::Hidden));
    assert_eq!(m.toggle_mark(0, 1), ToggleOutcome::Accepted);
    assert_eq!(m.visibility_of(0, 1), Some(State::Marked));
    assert_eq!(m.display_glyph_of(0, 1), Some(Glyph::Flag));
    assert_eq!(m.toggle_mark(0, 1), ToggleOutcome::Accepted);
    assert_eq!(m.visibility_of(0, 1), Some(State::Uncertain));
    assert_eq!(m.display_glyph_of(0, 1), Some(Glyph::Question));
    assert_eq!(m.toggle_mark(0, 1), ToggleOutcome::Accepted);
    assert_eq!(m.visibility_of(0, 1), Some(State::Hidden));
    // A marked cell cannot be revealed, and a revealed cell cannot be
    // marked.
    assert_eq!(m.toggle_mark(0, 1), ToggleOutcome::Accepted);
    assert_eq!(m.reveal_at(0, 1), RevealOutcome::Rejected);
    assert_eq!(m.reveal_at(0, 0), RevealOutcome::Continue);
    assert_eq!(m.toggle_mark(0, 0), ToggleOutcome::Rejected);
    assert_eq!(m.visibility_of(0, 0), Some(State::Revealed));
    // Out-of-bounds actions are rejected.
    assert_eq!(m.reveal_at(5, 0), RevealOutcome::Rejected);
    assert_eq!(m.toggle_mark(0, 5), ToggleOutcome::Rejected);
}

#[test]
fn restart_same_keeps_the_layout_and_hides_it() {
    let mut m = center_mine_board();
    assert_eq!(m.reveal_at(0, 0), RevealOutcome::Continue);
    m.restart_same();
    for r in 0..3 {
        for c in 0..3 {
            assert_eq!(m.visibility_of(r, c), Some(State::Hidden));
        }
    }
    // The mine is still in the center, twice in a row.
    m.restart_same();
    assert_eq!(m.reveal_at(1, 1), RevealOutcome::Loss);
    assert_eq!(m.display_glyph_of(1, 1), Some(Glyph::Mine));
    for r in 0..3 {
        for c in 0..3 {
            if (r, c) != (1, 1) {
                assert_eq!(m.display_glyph_of(r, c), Some(Glyph::Count(1)));
            }
        }
    }
}

#[test]
fn restart_draws_a_fresh_layout_of_the_same_shape() {
    let mut m = center_mine_board();
    assert_eq!(m.reveal_at(1, 1), RevealOutcome::Loss);
    m.restart();
    assert_eq!(m.row_count(), 3);
    assert_eq!(m.col_count(), 3);
    assert_eq!(m.mine_count(), 1);
    for r in 0..3 {
        for c in 0..3 {
            assert_eq!(m.visibility_of(r, c), Some(State::Hidden));
        }
    }
    // The board is unlocked and playable again.
    let mut lost = false;
    for r in 0..3 {
        for c in 0..3 {
            if m.reveal_at(r, c) == RevealOutcome::Loss {
                lost = true;
            }
        }
    }
    assert!(lost);
}

#[test]
fn input_dispatches_clicks_and_reports_loss() {
    let mut m = center_mine_board();
    assert!(m.input(MouseMessage { button: MouseButton::Right, location: (0, 0) }));
    assert_eq!(m.visibility_of(0, 0), Some(State::Marked));
    assert!(m.input(MouseMessage { button: MouseButton::Left, location: (0, 1) }));
    assert_eq!(m.visibility_of(0, 1), Some(State::Revealed));
    assert!(!m.input(MouseMessage { button: MouseButton::Left, location: (1, 1) }));
}
