use minesweeper::{Board, Cell, GameError};
use rand::rngs::StdRng;
use rand::SeedableRng;

fn mines_of(b: &Board) -> Vec<(usize, usize)> {
    let mut out = Vec::new();
    for r in 0..b.height() {
        for c in 0..b.width() {
            if b.cell_at(r, c).unwrap().is_mine {
                out.push((r, c));
            }
        }
    }
    out
}

#[test]
fn new_board_is_blank() {
    let b = Board::new(4, 3).unwrap();
    assert_eq!(b.width(), 4);
    assert_eq!(b.height(), 3);
    assert!(!b.mines_placed());
    for r in 0..3 {
        for c in 0..4 {
            assert_eq!(
                b.cell_at(r, c).unwrap(),
                Cell { is_revealed: false, is_flagged: false, is_mine: false, adjacent_mines: 0 }
            );
        }
    }
}

#[test]
fn zero_dimension_is_refused() {
    assert_eq!(Board::new(0, 3).err(), Some(GameError::InvalidDimensions));
    assert_eq!(Board::new(3, 0).err(), Some(GameError::InvalidDimensions));
}

#[test]
fn bounds_check() {
    let b = Board::new(4, 3).unwrap();
    assert!(b.is_in_bounds(2, 3));
    assert!(!b.is_in_bounds(3, 0));
    assert!(!b.is_in_bounds(0, 4));
}

#[test]
fn neighbors_in_row_major_order() {
    let b = Board::new(3, 3).unwrap();
    assert_eq!(b.neighbors(0, 0).unwrap(), vec![(0, 1), (1, 0), (1, 1)]);
    assert_eq!(
        b.neighbors(1, 1).unwrap(),
        vec![(0, 0), (0, 1), (0, 2), (1, 0), (1, 2), (2, 0), (2, 1), (2, 2)]
    );
    assert_eq!(b.neighbors(2, 1).unwrap(), vec![(1, 0), (1, 1), (1, 2), (2, 0), (2, 2)]);
}

#[test]
fn neighbors_on_single_row() {
    let b = Board::new(3, 1).unwrap();
    assert_eq!(b.neighbors(0, 1).unwrap(), vec![(0, 0), (0, 2)]);
    let one = Board::new(1, 1).unwrap();
    assert_eq!(one.neighbors(0, 0).unwrap(), Vec::<(usize, usize)>::new());
}

#[test]
fn explicit_layout_counts_neighbours() {
    let mut b = Board::new(4, 4).unwrap();
    assert_eq!(b.place_mines_at(&vec![(2, 2), (3, 3)], 0, 0), Ok(()));
    assert!(b.mines_placed());
    assert_eq!(mines_of(&b), vec![(2, 2), (3, 3)]);
    let expected: [[u8; 4]; 4] = [[0, 0, 0, 0], [0, 1, 1, 1], [0, 1, 1, 2], [0, 1, 2, 1]];
    for r in 0..4 {
        for c in 0..4 {
            assert_eq!(b.cell_at(r, c).unwrap().adjacent_mines, expected[r][c], "cell {:?}", (r, c));
        }
    }
}

#[test]
fn adjacency_matches_neighbour_scan() {
    let mut b = Board::new(5, 4).unwrap();
    b.place_mines_at(&vec![(1, 1), (1, 3), (3, 4), (2, 2)], 0, 0).unwrap();
    for r in 0..4 {
        for c in 0..5 {
            let n = b.neighbors(r, c).unwrap().iter().filter(|p| b.cell_at(p.0, p.1).unwrap().is_mine).count();
            assert_eq!(b.cell_at(r, c).unwrap().adjacent_mines as usize, n);
        }
    }
}

#[test]
fn placing_twice_is_refused() {
    let mut b = Board::new(4, 4).unwrap();
    b.place_mines_at(&vec![(2, 2)], 0, 0).unwrap();
    assert_eq!(b.place_mines_at(&vec![(3, 3)], 0, 0), Err(GameError::AlreadyPlaced));
    let mut rng = StdRng::seed_from_u64(1);
    assert_eq!(b.place_mines(1, 0, 0, &mut rng), Err(GameError::AlreadyPlaced));
    assert_eq!(mines_of(&b), vec![(2, 2)]);
}

#[test]
fn layout_in_protected_lines_is_refused() {
    let mut b = Board::new(4, 4).unwrap();
    assert_eq!(b.place_mines_at(&vec![(0, 3)], 0, 0), Err(GameError::InvalidLayout));
    assert_eq!(b.place_mines_at(&vec![(3, 0)], 0, 0), Err(GameError::InvalidLayout));
    assert_eq!(b.place_mines_at(&vec![(2, 2), (2, 2)], 0, 0), Err(GameError::InvalidLayout));
    assert!(!b.mines_placed());
    assert!(mines_of(&b).is_empty());
}

#[test]
fn layout_out_of_grid_is_refused() {
    let mut b = Board::new(4, 4).unwrap();
    assert_eq!(b.place_mines_at(&vec![(2, 4)], 0, 0), Err(GameError::OutOfBounds));
    assert_eq!(b.place_mines_at(&vec![(2, 2)], 4, 0), Err(GameError::OutOfBounds));
    assert!(!b.mines_placed());
}

#[test]
fn random_placement_counts_and_spares_click_lines() {
    for seed in 0..20u64 {
        let mut rng = StdRng::seed_from_u64(seed);
        let mut b = Board::new(8, 6).unwrap();
        assert_eq!(b.place_mines(10, 2, 3, &mut rng), Ok(()));
        let mines = mines_of(&b);
        assert_eq!(mines.len(), 10);
        for (r, c) in mines {
            assert!(r != 2 && c != 3);
        }
        for r in 0..6 {
            for c in 0..8 {
                let n = b.neighbors(r, c).unwrap().iter().filter(|p| b.cell_at(p.0, p.1).unwrap().is_mine).count();
                assert_eq!(b.cell_at(r, c).unwrap().adjacent_mines as usize, n);
            }
        }
    }
}

#[test]
fn random_placement_fills_every_eligible_cell() {
    let mut rng = StdRng::seed_from_u64(7);
    let mut b = Board::new(3, 3).unwrap();
    assert_eq!(b.place_mines(4, 0, 0, &mut rng), Ok(()));
    assert_eq!(mines_of(&b), vec![(1, 1), (1, 2), (2, 1), (2, 2)]);
    assert_eq!(b.cell_at(0, 0).unwrap().adjacent_mines, 1);
    assert_eq!(b.cell_at(1, 1).unwrap().adjacent_mines, 3);
}

#[test]
fn random_placement_without_room_is_refused() {
    let mut rng = StdRng::seed_from_u64(7);
    let mut b = Board::new(3, 3).unwrap();
    assert_eq!(b.place_mines(5, 0, 0, &mut rng), Err(GameError::InsufficientSpace));
    assert_eq!(b.place_mines(1, 3, 0, &mut rng), Err(GameError::OutOfBounds));
    assert!(!b.mines_placed());
}

#[test]
fn random_layout_is_seeded() {
    let b = Board::new(9, 9).unwrap();
    let mut r1 = StdRng::seed_from_u64(42);
    let mut r2 = StdRng::seed_from_u64(42);
    let a = b.random_layout(10, 4, 4, &mut r1).unwrap();
    let c = b.random_layout(10, 4, 4, &mut r2).unwrap();
    assert_eq!(a, c);
    assert_eq!(a.len(), 10);
    let mut sorted = a.clone();
    sorted.sort();
    sorted.dedup();
    assert_eq!(sorted.len(), 10);
}

#[test]
fn random_layout_varies_with_seed() {
    let b = Board::new(9, 9).unwrap();
    let mut seen = std::collections::HashSet::new();
    for seed in 0..10u64 {
        let mut rng = StdRng::seed_from_u64(seed);
        seen.insert(b.random_layout(3, 0, 0, &mut rng).unwrap());
    }
    assert!(seen.len() > 1);
}

#[test]
fn coordinates_outside_the_grid_are_refused() {
    let b = Board::new(4, 3).unwrap();
    assert_eq!(b.neighbors(3, 0), Err(GameError::OutOfBounds));
    assert_eq!(b.neighbors(0, 4), Err(GameError::OutOfBounds));
    assert_eq!(b.cell_at(3, 3), Err(GameError::OutOfBounds));
    assert_eq!(b.cell_at(usize::MAX, 0), Err(GameError::OutOfBounds));
}

#[test]
fn layout_from_draws_follows_the_shuffle() {
    let b = Board::new(3, 3).unwrap();
    assert_eq!(b.layout_from_draws(1, 0, 0, &vec![3]), Ok(vec![(2, 2)]));
    assert_eq!(b.layout_from_draws(1, 0, 0, &vec![0]), Ok(vec![(1, 1)]));
    assert_eq!(b.layout_from_draws(2, 0, 0, &vec![1, 5]), Ok(vec![(1, 2), (2, 2)]));
    assert_eq!(b.layout_from_draws(4, 0, 0, &vec![0, 0, 0, 0]), Ok(vec![(1, 1), (1, 2), (2, 1), (2, 2)]));
}

#[test]
fn layout_from_draws_errors() {
    let b = Board::new(3, 3).unwrap();
    assert_eq!(b.layout_from_draws(2, 0, 0, &vec![1]), Err(GameError::InvalidLayout));
    assert_eq!(b.layout_from_draws(5, 0, 0, &vec![0; 5]), Err(GameError::InsufficientSpace));
    assert_eq!(b.layout_from_draws(1, 3, 0, &vec![0]), Err(GameError::OutOfBounds));
}

#[test]
fn layout_from_draws_places_forced_mine() {
    let mut b = Board::new(3, 3).unwrap();
    let layout = b.layout_from_draws(1, 0, 0, &vec![3]).unwrap();
    b.place_mines_at(&layout, 0, 0).unwrap();
    assert_eq!(mines_of(&b), vec![(2, 2)]);
}
