use sweeper::Glyph;
use sweeper::MineMap;
use sweeper::RevealOutcome;
use sweeper::State;

/// Reveal every cell by clicking each one; returns true when a loss was
/// signalled along the way.
fn reveal_everything(m: &mut MineMap) -> bool {
    let mut lost = false;
    for r in 0..m.row_count() {
        for c in 0..m.col_count() {
            if m.reveal_at(r, c) == RevealOutcome::Loss {
                lost = true;
            }
        }
    }
    lost
}

fn count_mine_glyphs(m: &MineMap) -> usize {
    let mut n = 0;
    for r in 0..m.row_count() {
        for c in 0..m.col_count() {
            if m.display_glyph_of(r, c) == Some(Glyph::Mine) {
                n += 1;
            }
        }
    }
    n
}

#[test]
fn generated_board_has_exact_mine_count() {
    for mines in [0usize, 1, 3, 9] {
        let mut m = MineMap::new(3, 3, mines).unwrap();
        assert_eq!(m.mine_count(), mines);
        let lost = reveal_everything(&mut m);
        assert_eq!(lost, mines > 0);
        // After a loss the whole layout is revealed; with zero mines the
        // cascade reveals everything. Either way every cell is visible.
        for r in 0..3 {
            for c in 0..3 {
                assert_eq!(m.visibility_of(r, c), Some(State::Revealed));
            }
        }
        assert_eq!(count_mine_glyphs(&m), mines);
    }
}

#[test]
fn too_many_mines_is_a_configuration_error() {
    assert!(MineMap::new(3, 3, 10).is_err());
    assert!(MineMap::new(3, 3, 9).is_ok());
    assert!(MineMap::new(0, 0, 0).is_ok());
    assert!(MineMap::new(0, 5, 1).is_err());
}

#[test]
fn mask_must_fill_the_grid() {
    assert!(MineMap::from_mines(2, 2, vec![true, false, false]).is_err());
    assert!(MineMap::from_mines(2, 2, vec![true, false, false, false]).is_ok());
}

#[test]
fn adjacency_counts_around_center_mine() {
    // A 3x3 board with a single mine in the center: all 8 surrounding
    // cells carry the count 1.
    let mut mask = vec![false; 9];
    mask[4] = true;
    let mut m = MineMap::from_mines(3, 3, mask).unwrap();
    assert_eq!(m.mine_count(), 1);
    let lost = reveal_everything(&mut m);
    assert!(lost);
    for r in 0..3 {
        for c in 0..3 {
            let expected = if (r, c) == (1, 1) {
                Glyph::Mine
            } else {
                Glyph::Count(1)
            };
            assert_eq!(m.display_glyph_of(r, c), Some(expected));
        }
    }
}

#[test]
fn adjacency_counts_are_clipped_at_edges() {
    // Mines down the right column of a 3x3 board: middle-column cells
    // see two or three mines, left-column cells none.
    let mask = vec![false, false, true, false, false, true, false, false, true];
    let mut m = MineMap::from_mines(3, 3, mask).unwrap();
    let lost = reveal_everything(&mut m);
    assert!(lost);
    assert_eq!(m.display_glyph_of(0, 1), Some(Glyph::Count(2)));
    assert_eq!(m.display_glyph_of(1, 1), Some(Glyph::Count(3)));
    assert_eq!(m.display_glyph_of(2, 1), Some(Glyph::Count(2)));
    // Zero-count blanks draw nothing.
    assert_eq!(m.display_glyph_of(0, 0), Some(Glyph::Empty));
    assert_eq!(m.display_glyph_of(1, 0), Some(Glyph::Empty));
    assert_eq!(m.display_glyph_of(2, 0), Some(Glyph::Empty));
}

#[test]
fn queries_outside_the_grid_give_nothing() {
    let m = MineMap::new(2, 3, 0).unwrap();
    assert_eq!(m.visibility_of(2, 0), None);
    assert_eq!(m.visibility_of(0, 3), None);
    assert_eq!(m.display_glyph_of(9, 9), None);
    assert_eq!(m.row_count(), 2);
    assert_eq!(m.col_count(), 3);
}
