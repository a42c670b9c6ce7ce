use ghostsweeper::ghostsweeper::{Cell, GameError, Ghostsweeper, OpenResult};
use ghostsweeper::random::range;

#[test]
fn new_game() {
    let game = Ghostsweeper::new(10, 10, 8).unwrap();
    assert_eq!(game.mine_count(), 8);
}

#[test]
fn open() {
    let mut game = Ghostsweeper::new(10, 10, 8).unwrap();
    let r = game.open((5, 5)).unwrap();
    match r {
        // A cell with no mine around it opens its neighbors as well.
        Some(OpenResult::NoMine(0)) => assert!(game.open_count() >= 9),
        _ => assert_eq!(game.open_count(), 1),
    }
}

#[test]
fn toggle_flag() {
    let mut game = Ghostsweeper::new(10, 10, 8).unwrap();
    game.open((5, 5)).unwrap();
    game.toggle_flag((5, 5)).unwrap();
    // A lost game takes no more flags; otherwise each closed target is flagged.
    let targets = [(1, 1), (5, 3), (6, 3)];
    let flaggable: Vec<(usize, usize)> = targets
        .iter()
        .copied()
        .filter(|p| {
            !game.is_over() && !matches!(game.cell(*p), Ok(Cell::Count(_)) | Ok(Cell::Mine))
        })
        .collect();
    game.toggle_flag((1, 1)).unwrap();
    game.toggle_flag((5, 3)).unwrap();
    game.toggle_flag((6, 3)).unwrap();

    assert_eq!(game.flag_count(), flaggable.len());
    if game.open_count() == 1 && !game.is_over() {
        assert_eq!(game.flag_count(), 3);
    }

    let before = game.flag_count();
    game.toggle_flag((6, 3)).unwrap();
    if flaggable.contains(&(6, 3)) {
        assert_eq!(game.flag_count(), before - 1);
        if before == 3 {
            assert_eq!(game.flag_count(), 2);
        }
    } else {
        assert_eq!(game.flag_count(), before);
    }
}

#[test]
fn new_places_exact_mine_count() {
    for mines in 0..50 {
        let game = Ghostsweeper::new(10, 5, mines).unwrap();
        assert_eq!(game.mine_count(), mines);
        assert_eq!(game.open_count(), 0);
        assert_eq!(game.flag_count(), 0);
        assert!(!game.is_over());
        assert!(!game.is_winner());
    }
    let full = Ghostsweeper::new(1, 2, 1).unwrap();
    assert_eq!(full.mine_count(), 1);
}

#[test]
fn new_rejects_bad_configuration() {
    assert_eq!(Ghostsweeper::new(2, 2, 4).err(), Some(GameError::InvalidConfiguration));
    assert_eq!(Ghostsweeper::new(2, 2, 9).err(), Some(GameError::InvalidConfiguration));
    assert_eq!(Ghostsweeper::new(0, 5, 0).err(), Some(GameError::InvalidConfiguration));
    assert_eq!(Ghostsweeper::new(usize::MAX, 2, 0).err(), Some(GameError::InvalidConfiguration));
}

#[test]
fn from_mines_rejects_bad_layouts() {
    assert_eq!(
        Ghostsweeper::from_mines(3, 3, &vec![(1, 1), (1, 1)]).err(),
        Some(GameError::InvalidConfiguration)
    );
    assert_eq!(
        Ghostsweeper::from_mines(3, 3, &vec![(1, 1), (3, 0)]).err(),
        Some(GameError::OutOfBounds)
    );
    assert_eq!(
        Ghostsweeper::from_mines(1, 1, &vec![(0, 0)]).err(),
        Some(GameError::InvalidConfiguration)
    );
    assert_eq!(
        Ghostsweeper::from_mines(0, 3, &vec![]).err(),
        Some(GameError::InvalidConfiguration)
    );
    let game = Ghostsweeper::from_mines(4, 2, &vec![(3, 1), (0, 0)]).unwrap();
    assert_eq!(game.mine_count(), 2);
    assert_eq!(game.width(), 4);
    assert_eq!(game.height(), 2);
}

#[test]
fn opening_mine_loses_before_check() {
    let mut game = Ghostsweeper::from_mines(10, 5, &vec![(3, 2), (7, 4)]).unwrap();
    assert_eq!(game.open((3, 2)), Ok(Some(OpenResult::Mine)));
    assert!(game.is_over());
    assert!(!game.is_winner());
    assert_eq!(game.open_count(), 1);
    assert_eq!(game.cell((3, 2)), Ok(Cell::Mine));
    game.check_state();
    assert!(!game.is_winner());
}

#[test]
fn opening_random_mine_loses() {
    let mut game = Ghostsweeper::new(10, 5, 2).unwrap();
    let mut hit = None;
    'search: for y in 0..5 {
        for x in 0..10 {
            if let Ok(Some(OpenResult::Mine)) = game.open((x, y)) {
                hit = Some((x, y));
                break 'search;
            }
        }
    }
    assert!(hit.is_some());
    assert!(game.is_over());
    assert!(!game.is_winner());
}

#[test]
fn cascade_opens_whole_region() {
    let mut game = Ghostsweeper::from_mines(5, 5, &vec![(4, 4)]).unwrap();
    assert_eq!(game.open((0, 0)), Ok(Some(OpenResult::NoMine(0))));
    assert_eq!(game.open_count(), 24);
    assert_eq!(game.cell((4, 4)), Ok(Cell::Covered));
    assert_eq!(game.cell((3, 3)), Ok(Cell::Count(1)));
    assert!(!game.is_over());
    game.check_state();
    assert!(game.is_over());
    assert!(game.is_winner());
}

#[test]
fn cascade_stops_at_numbered_border() {
    let mut game = Ghostsweeper::from_mines(5, 3, &vec![(2, 0), (2, 1), (2, 2)]).unwrap();
    assert_eq!(game.open((0, 1)), Ok(Some(OpenResult::NoMine(0))));
    assert_eq!(game.open_count(), 6);
    assert_eq!(game.cell((1, 1)), Ok(Cell::Count(3)));
    assert_eq!(game.cell((1, 0)), Ok(Cell::Count(2)));
    assert_eq!(game.cell((2, 1)), Ok(Cell::Covered));
    assert_eq!(game.cell((3, 1)), Ok(Cell::Covered));
}

#[test]
fn cascade_skips_flagged_cells() {
    let mut game = Ghostsweeper::from_mines(3, 3, &vec![(2, 2)]).unwrap();
    game.toggle_flag((0, 2)).unwrap();
    assert_eq!(game.open((0, 0)), Ok(Some(OpenResult::NoMine(0))));
    assert_eq!(game.open_count(), 7);
    assert_eq!(game.cell((0, 2)), Ok(Cell::Flagged));
    assert_eq!(game.flag_count(), 1);
}

#[test]
fn neighbor_count_is_exact() {
    let mut game =
        Ghostsweeper::from_mines(3, 3, &vec![(0, 0), (2, 0), (0, 2), (2, 2)]).unwrap();
    assert_eq!(game.open((1, 1)), Ok(Some(OpenResult::NoMine(4))));
    assert_eq!(game.open((1, 0)), Ok(Some(OpenResult::NoMine(2))));
    assert_eq!(game.open_count(), 2);
    let mut full = Ghostsweeper::from_mines(
        3,
        3,
        &vec![(0, 0), (1, 0), (2, 0), (0, 1), (2, 1), (0, 2), (1, 2), (2, 2)],
    )
    .unwrap();
    assert_eq!(full.open((1, 1)), Ok(Some(OpenResult::NoMine(8))));
}

#[test]
fn toggle_twice_restores_flags() {
    let mut game = Ghostsweeper::from_mines(4, 4, &vec![(0, 0)]).unwrap();
    game.toggle_flag((2, 2)).unwrap();
    assert_eq!(game.flag_count(), 1);
    assert_eq!(game.cell((2, 2)), Ok(Cell::Flagged));
    game.toggle_flag((2, 2)).unwrap();
    assert_eq!(game.flag_count(), 0);
    assert_eq!(game.cell((2, 2)), Ok(Cell::Covered));
}

#[test]
fn open_flagged_is_no_op() {
    let mut game = Ghostsweeper::from_mines(4, 4, &vec![(0, 0)]).unwrap();
    game.toggle_flag((3, 3)).unwrap();
    assert_eq!(game.open((3, 3)), Ok(None));
    assert_eq!(game.open_count(), 0);
    assert_eq!(game.cell((3, 3)), Ok(Cell::Flagged));
    assert_eq!(game.open((0, 0)), Ok(Some(OpenResult::Mine)));
}

#[test]
fn opening_twice_is_no_op() {
    let mut game = Ghostsweeper::from_mines(4, 4, &vec![(0, 0)]).unwrap();
    assert_eq!(game.open((1, 1)), Ok(Some(OpenResult::NoMine(1))));
    assert_eq!(game.open((1, 1)), Ok(None));
    assert_eq!(game.open_count(), 1);
    game.toggle_flag((1, 1)).unwrap();
    assert_eq!(game.flag_count(), 0);
}

#[test]
fn game_over_freezes_board() {
    let mut game = Ghostsweeper::from_mines(4, 4, &vec![(0, 0), (3, 3)]).unwrap();
    game.toggle_flag((2, 0)).unwrap();
    assert_eq!(game.open((3, 3)), Ok(Some(OpenResult::Mine)));
    assert_eq!(game.open((1, 1)), Ok(None));
    game.toggle_flag((1, 2)).unwrap();
    game.toggle_flag((2, 0)).unwrap();
    assert_eq!(game.open_count(), 1);
    assert_eq!(game.flag_count(), 1);
    assert_eq!(game.cell((1, 1)), Ok(Cell::Covered));
    assert_eq!(game.cell((2, 0)), Ok(Cell::Flagged));
}

#[test]
fn win_on_two_by_two() {
    let mut game = Ghostsweeper::from_mines(2, 2, &vec![(1, 1)]).unwrap();
    assert_eq!(game.open((0, 0)), Ok(Some(OpenResult::NoMine(1))));
    assert_eq!(game.open((1, 0)), Ok(Some(OpenResult::NoMine(1))));
    game.check_state();
    assert!(!game.is_over());
    assert_eq!(game.open((0, 1)), Ok(Some(OpenResult::NoMine(1))));
    assert!(!game.is_over());
    game.check_state();
    assert!(game.is_over());
    assert!(game.is_winner());
}

#[test]
fn win_on_single_cell() {
    let mut game = Ghostsweeper::new(1, 1, 0).unwrap();
    assert_eq!(game.open((0, 0)), Ok(Some(OpenResult::NoMine(0))));
    game.check_state();
    assert!(game.is_over());
    assert!(game.is_winner());
}

#[test]
fn out_of_bounds_is_refused() {
    let mut game = Ghostsweeper::from_mines(3, 2, &vec![(0, 0)]).unwrap();
    assert_eq!(game.open((3, 0)), Err(GameError::OutOfBounds));
    assert_eq!(game.open((0, 2)), Err(GameError::OutOfBounds));
    assert_eq!(game.toggle_flag((5, 5)), Err(GameError::OutOfBounds));
    assert_eq!(game.cell((0, 9)), Err(GameError::OutOfBounds));
    assert_eq!(game.open_count(), 0);
    assert_eq!(game.flag_count(), 0);
}

#[test]
fn range_stays_in_bounds() {
    assert_eq!(range(3, 4), 3);
    for _ in 0..100 {
        let r = range(5, 8);
        assert!((5..8).contains(&r));
    }
}

#[test]
fn render_shows_numbers_and_covers() {
    let mut game = Ghostsweeper::from_mines(2, 1, &vec![(1, 0)]).unwrap();
    assert_eq!(game.open((0, 0)), Ok(Some(OpenResult::NoMine(1))));
    assert_eq!(game.render(), "   \t1  2  \n\n\n1 \t1  🟦 \n");
}

#[test]
fn render_shows_flags_and_ghosts() {
    let mut game = Ghostsweeper::from_mines(3, 2, &vec![(0, 0)]).unwrap();
    game.toggle_flag((2, 1)).unwrap();
    assert_eq!(game.open((0, 0)), Ok(Some(OpenResult::Mine)));
    assert_eq!(
        game.render(),
        "   \t1  2  3  \n\n\n1 \t👻 🟦 🟦 \n2 \t🟦 🟦 🚩 \n"
    );
}

#[test]
fn render_numbers_past_nine() {
    let game = Ghostsweeper::new(11, 1, 0).unwrap();
    let text = game.render();
    assert!(text.starts_with("   \t1  2  3  4  5  6  7  8  9  10  11  \n\n\n1 \t"));
}

#[test]
fn check_state_keeps_a_lost_game_lost() {
    let mut game = Ghostsweeper::from_mines(2, 1, &vec![(0, 0)]).unwrap();
    assert_eq!(game.open((0, 0)), Ok(Some(OpenResult::Mine)));
    assert_eq!(game.open_count(), 1);
    game.check_state();
    assert!(game.is_over());
    assert!(!game.is_winner());
}
