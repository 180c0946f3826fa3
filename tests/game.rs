use minesweeper::{CellView, FlagOutcome, GameError, GameSession, Phase};
use rand::rngs::StdRng;
use rand::SeedableRng;

fn sorted(mut v: Vec<(usize, usize)>) -> Vec<(usize, usize)> {
    v.sort();
    v
}

fn revealed_cells(g: &GameSession) -> Vec<(usize, usize)> {
    let (w, h) = g.dimensions();
    let mut out = Vec::new();
    for r in 0..h {
        for c in 0..w {
            if g.get_cell(r, c).unwrap().is_revealed {
                out.push((r, c));
            }
        }
    }
    out
}

/// 4x4 board, mines at (2,2) and (3,3), first click at (0,0).
fn started_four_by_four() -> GameSession {
    let mut g = GameSession::new(4, 4, 2).unwrap();
    let out = g.reveal_cell_with_mines(0, 0, &vec![(2, 2), (3, 3)]).unwrap();
    assert_eq!(out.phase, Phase::InProgress);
    g
}

#[test]
fn construction_checks() {
    assert_eq!(GameSession::new(0, 5, 1).err(), Some(GameError::InvalidDimensions));
    assert_eq!(GameSession::new(5, 0, 1).err(), Some(GameError::InvalidDimensions));
    assert_eq!(GameSession::new(3, 3, 9).err(), Some(GameError::InsufficientSpace));
    assert_eq!(GameSession::new(3, 3, 0).err(), Some(GameError::NoMines));
    let g = GameSession::new(3, 3, 4).unwrap();
    assert_eq!(g.phase(), Phase::NotStarted);
    assert_eq!(g.flags_remaining(), 4);
    assert_eq!(g.mine_count(), 4);
    assert_eq!(g.dimensions(), (3, 3));
}

#[test]
fn three_by_three_single_mine_is_won_at_once() {
    let mut g = GameSession::new(3, 3, 1).unwrap();
    let out = g.reveal_cell_with_mines(0, 0, &vec![(2, 2)]).unwrap();
    assert_eq!(
        sorted(out.revealed),
        vec![(0, 0), (0, 1), (0, 2), (1, 0), (1, 1), (1, 2), (2, 0), (2, 1)]
    );
    assert_eq!(out.phase, Phase::Won);
    assert_eq!(g.phase(), Phase::Won);
    let mine = g.get_cell(2, 2).unwrap();
    assert!(!mine.is_revealed);
    assert_eq!(mine.is_mine, Some(true));
    assert_eq!(g.get_cell(1, 1).unwrap().adjacent_mines, Some(1));
    assert_eq!(g.get_cell(0, 0).unwrap().adjacent_mines, Some(0));
    for (r, c) in [(0, 1), (1, 0), (1, 1)] {
        assert!(g.get_cell(r, c).unwrap().is_revealed);
    }
    assert_eq!(g.reveal_cell_with_mines(0, 1, &vec![]).err(), Some(GameError::GameOver));
}

#[test]
fn flood_reveals_zero_region_and_border_only() {
    let g = started_four_by_four();
    let expected = vec![
        (0, 0), (0, 1), (0, 2), (0, 3),
        (1, 0), (1, 1), (1, 2), (1, 3),
        (2, 0), (2, 1),
        (3, 0), (3, 1),
    ];
    assert_eq!(revealed_cells(&g), expected);
    assert!(!g.get_cell(2, 3).unwrap().is_revealed);
    assert!(!g.get_cell(3, 2).unwrap().is_revealed);
    assert_eq!(g.get_cell(2, 3).unwrap().adjacent_mines, None);
    assert_eq!(g.get_cell(2, 2).unwrap().is_mine, None);
}

#[test]
fn revealing_a_mine_loses_with_no_cascade() {
    let mut g = started_four_by_four();
    let before = revealed_cells(&g);
    let out = g.reveal_cell_with_mines(3, 3, &vec![]).unwrap();
    assert_eq!(out.phase, Phase::Lost);
    assert_eq!(out.revealed, vec![(3, 3)]);
    assert_eq!(g.phase(), Phase::Lost);
    let mut expected = before;
    expected.push((3, 3));
    assert_eq!(revealed_cells(&g), expected);
    assert_eq!(g.get_cell(2, 2).unwrap().is_mine, Some(true));
    assert_eq!(g.toggle_flag(2, 3).err(), Some(GameError::GameOver));
}

#[test]
fn winning_needs_every_safe_cell() {
    let mut g = started_four_by_four();
    let out = g.reveal_cell_with_mines(2, 3, &vec![]).unwrap();
    assert_eq!(out.revealed, vec![(2, 3)]);
    assert_eq!(out.phase, Phase::InProgress);
    let out = g.reveal_cell_with_mines(3, 2, &vec![]).unwrap();
    assert_eq!(out.revealed, vec![(3, 2)]);
    assert_eq!(out.phase, Phase::Won);
    assert!(!g.get_cell(3, 3).unwrap().is_revealed);
}

#[test]
fn revealing_a_revealed_cell_is_a_no_op() {
    let mut g = started_four_by_four();
    let before = revealed_cells(&g);
    let out = g.reveal_cell_with_mines(1, 1, &vec![]).unwrap();
    assert!(out.revealed.is_empty());
    assert_eq!(out.phase, Phase::InProgress);
    assert_eq!(revealed_cells(&g), before);
}

#[test]
fn flag_then_reveal_is_a_no_op() {
    let mut g = started_four_by_four();
    assert_eq!(g.toggle_flag(2, 3), Ok(FlagOutcome { is_flagged: true, flags_remaining: 1 }));
    let out = g.reveal_cell_with_mines(2, 3, &vec![]).unwrap();
    assert!(out.revealed.is_empty());
    assert_eq!(out.phase, Phase::InProgress);
    let cell = g.get_cell(2, 3).unwrap();
    assert!(!cell.is_revealed);
    assert!(cell.is_flagged);
}

#[test]
fn toggling_twice_restores_flag_and_counter() {
    let mut g = started_four_by_four();
    let before = g.flags_remaining();
    assert_eq!(g.toggle_flag(3, 2), Ok(FlagOutcome { is_flagged: true, flags_remaining: before - 1 }));
    assert_eq!(g.toggle_flag(3, 2), Ok(FlagOutcome { is_flagged: false, flags_remaining: before }));
    assert!(!g.get_cell(3, 2).unwrap().is_flagged);
    assert_eq!(g.flags_remaining(), before);
}

#[test]
fn flagging_a_revealed_cell_does_nothing() {
    let mut g = started_four_by_four();
    assert_eq!(g.toggle_flag(0, 0), Ok(FlagOutcome { is_flagged: false, flags_remaining: 2 }));
    assert_eq!(g.flags_remaining(), 2);
}

#[test]
fn flag_counter_may_go_negative() {
    let mut g = started_four_by_four();
    g.toggle_flag(2, 2).unwrap();
    g.toggle_flag(2, 3).unwrap();
    let out = g.toggle_flag(3, 2).unwrap();
    assert_eq!(out.flags_remaining, -1);
    assert_eq!(g.flags_remaining(), -1);
}

#[test]
fn cascade_skips_flagged_cells() {
    // 5x5 with a single mine at (4,4). Flags need a started game, so the first
    // click goes to a numbered cell, which reveals nothing else.
    let mut g = GameSession::new(5, 5, 1).unwrap();
    let out = g.reveal_cell_with_mines(3, 3, &vec![(4, 4)]).unwrap();
    assert_eq!(out.revealed, vec![(3, 3)]);
    assert_eq!(g.toggle_flag(0, 2).unwrap().is_flagged, true);
    let out = g.reveal_cell_with_mines(0, 0, &vec![]).unwrap();
    assert!(!out.revealed.contains(&(0, 2)));
    assert!(!out.revealed.contains(&(4, 4)));
    let cell = g.get_cell(0, 2).unwrap();
    assert!(cell.is_flagged);
    assert!(!cell.is_revealed);
    // every other safe cell was reached around the flag
    assert_eq!(out.revealed.len(), 22);
    assert_eq!(out.phase, Phase::InProgress);
    g.toggle_flag(0, 2).unwrap();
    let out = g.reveal_cell_with_mines(0, 2, &vec![]).unwrap();
    assert_eq!(out.revealed, vec![(0, 2)]);
    assert_eq!(out.phase, Phase::Won);
}

#[test]
fn flag_before_first_reveal_is_refused() {
    let mut g = GameSession::new(4, 4, 2).unwrap();
    assert_eq!(g.toggle_flag(1, 1), Err(GameError::NotYetStarted));
    assert_eq!(g.flags_remaining(), 2);
    assert!(!g.get_cell(1, 1).unwrap().is_flagged);
}

#[test]
fn out_of_bounds_coordinates() {
    let mut g = GameSession::new(4, 4, 2).unwrap();
    let mut rng = StdRng::seed_from_u64(3);
    assert_eq!(g.reveal_cell(4, 0, &mut rng).err(), Some(GameError::OutOfBounds));
    assert_eq!(g.toggle_flag(0, 4), Err(GameError::OutOfBounds));
    assert_eq!(g.get_cell(9, 9), Err(GameError::OutOfBounds));
    assert_eq!(g.phase(), Phase::NotStarted);
}

#[test]
fn bad_first_layouts_leave_the_game_unstarted() {
    let mut g = GameSession::new(4, 4, 2).unwrap();
    assert_eq!(g.reveal_cell_with_mines(0, 0, &vec![(2, 2)]).err(), Some(GameError::InvalidLayout));
    assert_eq!(g.reveal_cell_with_mines(0, 0, &vec![(2, 2), (0, 3)]).err(), Some(GameError::InvalidLayout));
    assert_eq!(g.reveal_cell_with_mines(0, 0, &vec![(2, 2), (2, 2)]).err(), Some(GameError::InvalidLayout));
    assert_eq!(g.reveal_cell_with_mines(0, 0, &vec![(2, 2), (5, 5)]).err(), Some(GameError::OutOfBounds));
    assert_eq!(g.phase(), Phase::NotStarted);
    assert!(revealed_cells(&g).is_empty());
}

#[test]
fn too_many_mines_for_the_click_lines() {
    // A 3x3 board keeps only 4 cells outside the row and the column of any click.
    assert_eq!(GameSession::new(3, 3, 5).err(), Some(GameError::InsufficientSpace));
    let mut g = GameSession::new(3, 3, 4).unwrap();
    let mut rng = StdRng::seed_from_u64(9);
    let out = g.reveal_cell(1, 1, &mut rng).unwrap();
    assert_eq!(out.revealed, vec![(1, 1)]);
    assert_eq!(out.phase, Phase::InProgress);
    assert_eq!(g.get_cell(1, 1).unwrap().adjacent_mines, Some(4));
}

#[test]
fn seeded_first_reveal_keeps_click_lines_clear() {
    for seed in 0..25u64 {
        let mut rng = StdRng::seed_from_u64(seed);
        let mut g = GameSession::new(6, 5, 6).unwrap();
        let out = g.reveal_cell(2, 3, &mut rng).unwrap();
        assert_ne!(out.phase, Phase::Lost);
        assert!(out.revealed.contains(&(2, 3)));
        for r in 0..5 {
            for c in 0..6 {
                let cell = g.get_cell(r, c).unwrap();
                if cell.is_revealed {
                    assert_eq!(cell.is_mine, Some(false));
                }
            }
        }
        let mut rng2 = StdRng::seed_from_u64(seed);
        let mut twin = GameSession::new(6, 5, 6).unwrap();
        let twin_out = twin.reveal_cell(2, 3, &mut rng2).unwrap();
        assert_eq!(twin_out.revealed, out.revealed);
        for r in 0..5 {
            for c in 0..6 {
                assert_eq!(twin.get_cell(r, c), g.get_cell(r, c));
            }
        }
        // Replay the same game and step on each hidden cell in turn: exactly the
        // mines lose, and none lies in the row or the column of the first click.
        let mut mines = 0;
        for r in 0..5 {
            for c in 0..6 {
                if g.get_cell(r, c).unwrap().is_revealed {
                    continue;
                }
                let mut probe = GameSession::new(6, 5, 6).unwrap();
                let mut rng3 = StdRng::seed_from_u64(seed);
                probe.reveal_cell(2, 3, &mut rng3).unwrap();
                let o = probe.reveal_cell(r, c, &mut rng3).unwrap();
                if o.phase == Phase::Lost {
                    assert!(r != 2 && c != 3);
                    mines += 1;
                }
            }
        }
        assert_eq!(mines, 6);
    }
}

#[test]
fn hidden_cells_hide_their_contents() {
    let g = GameSession::new(3, 3, 1).unwrap();
    assert_eq!(
        g.get_cell(1, 1),
        Ok(CellView { is_revealed: false, is_flagged: false, is_mine: None, adjacent_mines: None })
    );
}
