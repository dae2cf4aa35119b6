use rustymines::cell::CellTag;
use rustymines::game::{AppGui, CellInfo, Content, Counts};
use rustymines::state::{GameError, GameStatus};

fn board(rows: usize, columns: usize, mines: &[usize]) -> AppGui {
    let mut layout = vec![false; rows * columns];
    for &m in mines {
        layout[m] = true;
    }
    AppGui::with_mines(rows, columns, &layout, 0).unwrap()
}

fn tags(game: &AppGui) -> Vec<CellTag> {
    let mut out = Vec::new();
    for r in 0..game.rows() {
        for c in 0..game.columns() {
            out.push(game.cell_at(r, c).unwrap().tag);
        }
    }
    out
}

fn refused(game: Result<AppGui, GameError>) -> GameError {
    match game {
        Ok(_) => panic!("the game should have been refused"),
        Err(e) => e,
    }
}

#[test]
fn new_game_clamps_the_mines_to_leave_one_cell_free() {
    let game = AppGui::new(5, 5, 30, 0).unwrap();
    assert_eq!(game.counts().total_mines, 24);
    assert_eq!(game.counts().total_cells, 25);
    let game = AppGui::new(5, 5, 25, 0).unwrap();
    assert_eq!(game.counts().total_mines, 24);
    let game = AppGui::new(5, 5, 24, 0).unwrap();
    assert_eq!(game.counts().total_mines, 24);
    let game = AppGui::new(5, 5, 7, 0).unwrap();
    assert_eq!(game.counts().total_mines, 7);
}

#[test]
fn new_game_starts_playing_with_nothing_revealed() {
    let game = AppGui::new(20, 20, 75, 1234).unwrap();
    assert_eq!(game.status(), GameStatus::Playing);
    assert_eq!(game.rows(), 20);
    assert_eq!(game.columns(), 20);
    assert_eq!(
        game.counts(),
        Counts { selected: 0, flagged: 0, total_mines: 75, total_cells: 400 }
    );
    assert_eq!(game.elapsed(), 0);
    assert!(tags(&game).iter().all(|t| *t == CellTag::UNSELECTED));
    for r in 0..20 {
        for c in 0..20 {
            assert_eq!(game.cell_at(r, c).unwrap().content, Content::Hidden);
        }
    }
}

#[test]
fn new_game_hides_as_many_mines_as_it_counts() {
    let mut game = AppGui::new(6, 7, 11, 0).unwrap();
    // losing discloses the board
    let mut lost = false;
    'outer: for r in 0..6 {
        for c in 0..7 {
            game.click(r, c).unwrap();
            if game.status() == GameStatus::Lost {
                lost = true;
                break 'outer;
            }
        }
    }
    assert!(lost);
    let mut mines = 0;
    for r in 0..6 {
        for c in 0..7 {
            if game.cell_at(r, c).unwrap().content == Content::Mine {
                mines += 1;
            }
        }
    }
    assert_eq!(mines, 11);
}

#[test]
fn new_game_refuses_a_board_without_cells() {
    assert_eq!(refused(AppGui::new(0, 5, 3, 0)), GameError::InvalidConfiguration);
    assert_eq!(refused(AppGui::new(5, 0, 3, 0)), GameError::InvalidConfiguration);
    assert_eq!(refused(AppGui::new(0, 0, 0, 0)), GameError::InvalidConfiguration);
}

#[test]
fn new_game_refuses_a_board_too_large_to_hold() {
    assert_eq!(refused(AppGui::new(usize::MAX, 2, 3, 0)), GameError::InvalidConfiguration);
    assert_eq!(
        refused(AppGui::with_mines(usize::MAX, 2, &vec![false; 4], 0)),
        GameError::InvalidConfiguration
    );
}

#[test]
fn new_game_on_one_cell_has_no_mine() {
    let mut game = AppGui::new(1, 1, 5, 0).unwrap();
    assert_eq!(game.counts().total_mines, 0);
    game.click(0, 0).unwrap();
    assert_eq!(game.status(), GameStatus::Won);
}

#[test]
fn layout_must_fit_the_board_and_leave_a_cell_free() {
    assert_eq!(
        refused(AppGui::with_mines(2, 2, &vec![false; 3], 0)),
        GameError::InvalidConfiguration
    );
    assert_eq!(
        refused(AppGui::with_mines(2, 2, &vec![false; 5], 0)),
        GameError::InvalidConfiguration
    );
    assert_eq!(
        refused(AppGui::with_mines(2, 2, &vec![true; 4], 0)),
        GameError::InvalidConfiguration
    );
    assert_eq!(
        refused(AppGui::with_mines(0, 2, &Vec::new(), 0)),
        GameError::InvalidConfiguration
    );
    assert_eq!(
        refused(AppGui::with_mines(2, 0, &Vec::new(), 0)),
        GameError::InvalidConfiguration
    );
    assert!(AppGui::with_mines(2, 2, &vec![true, true, true, false], 0).is_ok());
}

#[test]
fn layout_decides_the_board() {
    let game = board(3, 3, &[4]);
    assert_eq!(
        game.counts(),
        Counts { selected: 0, flagged: 0, total_mines: 1, total_cells: 9 }
    );
    assert_eq!(game.status(), GameStatus::Playing);
}

#[test]
fn centre_mine_shows_one_on_every_other_cell() {
    let mut game = board(3, 3, &[4]);
    for index in [0usize, 2, 6, 8, 1, 3, 5, 7] {
        game.click(index / 3, index % 3).unwrap();
        assert_eq!(
            game.cell_at(index / 3, index % 3).unwrap(),
            CellInfo { tag: CellTag::SELECTED, content: Content::Safe(1) }
        );
    }
    assert_eq!(game.counts().selected, 8);
    // the mine is still to be flagged
    assert_eq!(game.status(), GameStatus::Playing);
    game.right_click(1, 1).unwrap();
    assert_eq!(game.status(), GameStatus::Won);
}

#[test]
fn click_on_a_counted_cell_reveals_only_that_cell() {
    let mut game = board(3, 3, &[4]);
    game.click(0, 0).unwrap();
    let mut expected = vec![CellTag::UNSELECTED; 9];
    expected[0] = CellTag::SELECTED;
    assert_eq!(tags(&game), expected);
    assert_eq!(game.counts().selected, 1);
    assert_eq!(game.status(), GameStatus::Playing);
}

#[test]
fn click_on_a_mine_loses_the_game() {
    let mut game = board(3, 3, &[4, 8]);
    game.right_click(0, 0).unwrap();
    game.click(0, 1).unwrap();
    assert_eq!(game.counts().selected, 1);
    game.click(1, 1).unwrap();
    assert_eq!(game.status(), GameStatus::Lost);
    assert_eq!(game.cell_at(1, 1).unwrap().tag, CellTag::DEAD);
    let after = tags(&game);
    assert!(after.iter().all(|t| *t != CellTag::UNSELECTED));
    // the flag stays, everything else is revealed, one cell is dead
    assert_eq!(after[0], CellTag::FLAGGED);
    assert_eq!(after.iter().filter(|t| **t == CellTag::DEAD).count(), 1);
    assert_eq!(after.iter().filter(|t| **t == CellTag::SELECTED).count(), 7);
    // the sweep counts nothing: one cell before, and the mine
    assert_eq!(
        game.counts(),
        Counts { selected: 2, flagged: 1, total_mines: 2, total_cells: 9 }
    );
}

#[test]
fn losing_discloses_the_board() {
    let mut game = board(2, 2, &[3]);
    game.right_click(0, 0).unwrap();
    game.click(1, 1).unwrap();
    assert_eq!(game.status(), GameStatus::Lost);
    assert_eq!(
        game.cell_at(1, 1).unwrap(),
        CellInfo { tag: CellTag::DEAD, content: Content::Mine }
    );
    assert_eq!(
        game.cell_at(0, 0).unwrap(),
        CellInfo { tag: CellTag::FLAGGED, content: Content::Safe(1) }
    );
    assert_eq!(
        game.cell_at(0, 1).unwrap(),
        CellInfo { tag: CellTag::SELECTED, content: Content::Safe(1) }
    );
}

#[test]
fn click_after_the_end_changes_nothing() {
    let mut game = board(2, 2, &[3]);
    game.right_click(0, 0).unwrap();
    game.click(1, 1).unwrap();
    assert_eq!(game.status(), GameStatus::Lost);
    let before = (tags(&game), game.counts());
    assert_eq!(game.click(0, 0), Ok(()));
    assert_eq!(game.right_click(0, 0), Ok(()));
    assert_eq!(game.click(0, 1), Ok(()));
    assert_eq!((tags(&game), game.counts()), before);
    assert_eq!(game.status(), GameStatus::Lost);
}

#[test]
fn click_on_a_revealed_cell_changes_nothing() {
    let mut game = board(3, 3, &[4]);
    game.click(0, 0).unwrap();
    let before = (tags(&game), game.counts());
    game.click(0, 0).unwrap();
    assert_eq!((tags(&game), game.counts()), before);
    // nor does a right click on it
    game.right_click(0, 0).unwrap();
    assert_eq!((tags(&game), game.counts()), before);
}

#[test]
fn click_on_a_flagged_cell_takes_the_flag_and_reveals() {
    let mut game = board(3, 3, &[4]);
    game.right_click(0, 2).unwrap();
    assert_eq!(game.counts().flagged, 1);
    game.click(0, 2).unwrap();
    assert_eq!(game.cell_at(0, 2).unwrap().tag, CellTag::SELECTED);
    assert_eq!(
        game.counts(),
        Counts { selected: 1, flagged: 0, total_mines: 1, total_cells: 9 }
    );
}

#[test]
fn click_on_a_flagged_mine_loses_too() {
    let mut game = board(3, 3, &[4]);
    game.right_click(1, 1).unwrap();
    game.click(1, 1).unwrap();
    assert_eq!(game.status(), GameStatus::Lost);
    assert_eq!(game.cell_at(1, 1).unwrap().tag, CellTag::DEAD);
    assert_eq!(game.counts().flagged, 0);
    assert!(tags(&game).iter().all(|t| *t != CellTag::UNSELECTED));
}

#[test]
fn right_click_toggles_the_flag() {
    let mut game = board(3, 3, &[4, 5]);
    game.right_click(2, 2).unwrap();
    assert_eq!(game.cell_at(2, 2).unwrap().tag, CellTag::FLAGGED);
    assert_eq!(game.counts().flagged, 1);
    game.right_click(2, 2).unwrap();
    assert_eq!(game.cell_at(2, 2).unwrap().tag, CellTag::UNSELECTED);
    assert_eq!(game.counts().flagged, 0);
    assert_eq!(game.counts().selected, 0);
}

#[test]
fn toggle_flag_twice_gives_the_cell_back() {
    let mut game = board(3, 3, &[4, 5]);
    game.right_click(0, 0).unwrap();
    let before = (tags(&game), game.counts());
    game.toggle_flag(7);
    game.toggle_flag(7);
    assert_eq!((tags(&game), game.counts()), before);
    assert_eq!(game.cell_at(2, 1).unwrap().tag, CellTag::UNSELECTED);
}

#[test]
fn toggle_flag_twice_at_the_cap_changes_nothing() {
    let mut game = board(3, 3, &[4]);
    game.toggle_flag(0);
    assert_eq!(game.counts().flagged, 1);
    let before = (tags(&game), game.counts());
    game.toggle_flag(1);
    assert_eq!((tags(&game), game.counts()), before);
    game.toggle_flag(1);
    assert_eq!((tags(&game), game.counts()), before);
}

#[test]
fn no_more_flags_than_mines() {
    let mut game = board(3, 3, &[4, 5]);
    game.right_click(0, 0).unwrap();
    game.right_click(0, 1).unwrap();
    game.right_click(0, 2).unwrap();
    assert_eq!(game.counts().flagged, 2);
    assert_eq!(game.cell_at(0, 2).unwrap().tag, CellTag::UNSELECTED);
    // taking one back frees a flag
    game.right_click(0, 0).unwrap();
    game.right_click(0, 2).unwrap();
    assert_eq!(game.counts().flagged, 2);
    assert_eq!(game.cell_at(0, 2).unwrap().tag, CellTag::FLAGGED);
}

#[test]
fn toggle_flag_leaves_a_revealed_cell_alone() {
    let mut game = board(3, 3, &[4]);
    game.set_selected(0);
    let before = (tags(&game), game.counts());
    game.toggle_flag(0);
    assert_eq!((tags(&game), game.counts()), before);
}

#[test]
fn set_selected_reveals_and_counts_once() {
    let mut game = board(3, 3, &[4]);
    game.set_selected(2);
    assert_eq!(game.cell_at(0, 2).unwrap().tag, CellTag::SELECTED);
    assert_eq!(game.counts().selected, 1);
    game.set_selected(2);
    assert_eq!(game.counts().selected, 1);
    // a flag is not revealed
    game.toggle_flag(3);
    game.set_selected(3);
    assert_eq!(game.cell_at(1, 0).unwrap().tag, CellTag::FLAGGED);
    assert_eq!(game.counts().selected, 1);
}

#[test]
fn game_is_won_when_the_last_cell_is_revealed() {
    let mut game = board(2, 2, &[3]);
    game.right_click(1, 1).unwrap();
    game.click(0, 0).unwrap();
    game.click(0, 1).unwrap();
    assert_eq!(game.status(), GameStatus::Playing);
    game.click(1, 0).unwrap();
    assert_eq!(game.status(), GameStatus::Won);
    assert_eq!(
        game.counts(),
        Counts { selected: 3, flagged: 1, total_mines: 1, total_cells: 4 }
    );
    assert!(tags(&game).iter().all(|t| *t != CellTag::UNSELECTED));
}

#[test]
fn game_is_won_when_the_last_cell_is_flagged() {
    let mut game = board(2, 2, &[3]);
    game.click(0, 0).unwrap();
    game.click(0, 1).unwrap();
    game.click(1, 0).unwrap();
    assert_eq!(game.status(), GameStatus::Playing);
    game.right_click(1, 1).unwrap();
    assert_eq!(game.status(), GameStatus::Won);
}

#[test]
fn game_is_won_by_a_reveal_that_spreads() {
    // one mine in the far corner, flagged; one click uncovers the rest
    let mut game = board(4, 4, &[15]);
    game.right_click(3, 3).unwrap();
    game.click(0, 0).unwrap();
    assert_eq!(game.status(), GameStatus::Won);
    assert_eq!(game.counts().selected, 15);
}

#[test]
fn a_wrong_flag_can_fill_the_board_without_a_win_being_missed() {
    // the flag sits on a safe cell: the board fills up only by stepping on
    // the mine, and that is a loss
    let mut game = board(1, 3, &[2]);
    game.right_click(0, 0).unwrap();
    game.click(0, 1).unwrap();
    assert_eq!(game.status(), GameStatus::Playing);
    game.click(0, 2).unwrap();
    assert_eq!(game.counts().selected + game.counts().flagged, 3);
    assert_eq!(game.status(), GameStatus::Lost);
}

#[test]
fn selected_count_never_goes_down_while_playing() {
    let mut game = board(4, 4, &[5, 10]);
    let mut last = 0;
    for (r, c, right) in [(0usize, 0usize, false), (3, 3, true), (3, 3, false), (0, 3, false), (0, 0, true), (3, 0, false), (2, 1, true), (2, 1, true)] {
        if right {
            game.right_click(r, c).unwrap();
        } else {
            game.click(r, c).unwrap();
        }
        assert!(game.counts().selected >= last);
        assert!(game.counts().flagged <= game.counts().total_mines);
        last = game.counts().selected;
    }
}

#[test]
fn a_place_off_the_board_is_out_of_range() {
    let mut game = board(3, 4, &[4]);
    let before = (tags(&game), game.counts());
    assert_eq!(game.click(3, 0), Err(GameError::OutOfRange));
    assert_eq!(game.click(0, 4), Err(GameError::OutOfRange));
    assert_eq!(game.click(usize::MAX, usize::MAX), Err(GameError::OutOfRange));
    assert_eq!(game.right_click(3, 0), Err(GameError::OutOfRange));
    assert_eq!(game.right_click(0, 4), Err(GameError::OutOfRange));
    assert_eq!(game.cell_at(3, 0), Err(GameError::OutOfRange));
    assert_eq!(game.cell_at(0, 4), Err(GameError::OutOfRange));
    assert_eq!((tags(&game), game.counts()), before);
    assert_eq!(game.click(2, 3), Ok(()));
}

#[test]
fn out_of_range_is_reported_after_the_end_too() {
    let mut game = board(2, 2, &[3]);
    game.click(1, 1).unwrap();
    assert_eq!(game.status(), GameStatus::Lost);
    assert_eq!(game.click(2, 0), Err(GameError::OutOfRange));
    assert_eq!(game.right_click(0, 2), Err(GameError::OutOfRange));
}

#[test]
fn covered_cells_tell_nothing_while_playing() {
    let mut game = board(3, 3, &[4]);
    game.right_click(1, 1).unwrap();
    game.click(0, 0).unwrap();
    assert_eq!(
        game.cell_at(0, 0).unwrap(),
        CellInfo { tag: CellTag::SELECTED, content: Content::Safe(1) }
    );
    assert_eq!(
        game.cell_at(1, 1).unwrap(),
        CellInfo { tag: CellTag::FLAGGED, content: Content::Hidden }
    );
    assert_eq!(
        game.cell_at(2, 2).unwrap(),
        CellInfo { tag: CellTag::UNSELECTED, content: Content::Hidden }
    );
}

#[test]
fn winning_discloses_the_board() {
    let mut game = board(2, 2, &[3]);
    game.right_click(1, 1).unwrap();
    game.click(0, 0).unwrap();
    game.click(0, 1).unwrap();
    game.click(1, 0).unwrap();
    assert_eq!(game.status(), GameStatus::Won);
    assert_eq!(
        game.cell_at(1, 1).unwrap(),
        CellInfo { tag: CellTag::FLAGGED, content: Content::Mine }
    );
}

#[test]
fn clock_runs_while_playing() {
    let mut game = board(2, 2, &[3]);
    assert_eq!(game.elapsed(), 0);
    game.tick(1500);
    assert_eq!(game.elapsed(), 1500);
    game.tick(4000);
    assert_eq!(game.elapsed(), 4000);
    let mut late = AppGui::with_mines(2, 2, &vec![false, false, false, true], 10_000).unwrap();
    late.tick(12_500);
    assert_eq!(late.elapsed(), 2500);
}

#[test]
fn clock_before_the_start_shows_nothing_played() {
    let mut game = AppGui::new(4, 4, 3, 10_000).unwrap();
    game.tick(9_000);
    assert_eq!(game.elapsed(), 0);
    game.tick(10_000);
    assert_eq!(game.elapsed(), 0);
    game.tick(u64::MAX);
    assert_eq!(game.elapsed(), u64::MAX - 10_000);
}

#[test]
fn clock_stands_still_once_the_game_is_over() {
    let mut game = board(2, 2, &[3]);
    game.tick(700);
    game.click(1, 1).unwrap();
    assert_eq!(game.status(), GameStatus::Lost);
    game.tick(5000);
    assert_eq!(game.elapsed(), 700);

    let mut game = board(2, 2, &[3]);
    game.right_click(1, 1).unwrap();
    game.click(0, 0).unwrap();
    game.click(0, 1).unwrap();
    game.tick(900);
    game.click(1, 0).unwrap();
    assert_eq!(game.status(), GameStatus::Won);
    game.tick(5000);
    assert_eq!(game.elapsed(), 900);
}
