use rustymines::cell::CellTag;
use rustymines::game::{AppGui, Content};
use rustymines::state::GameStatus;

const U: CellTag = CellTag::UNSELECTED;
const S: CellTag = CellTag::SELECTED;
const F: CellTag = CellTag::FLAGGED;

fn board(rows: usize, columns: usize, mines: &[usize]) -> AppGui {
    let mut layout = vec![false; rows * columns];
    for &m in mines {
        layout[m] = true;
    }
    AppGui::with_mines(rows, columns, &layout, 0).unwrap()
}

fn tags(game: &AppGui) -> Vec<CellTag> {
    let mut out = Vec::new();
    for r in 0..game.rows() {
        for c in 0..game.columns() {
            out.push(game.cell_at(r, c).unwrap().tag);
        }
    }
    out
}

#[test]
fn click_on_the_only_blank_corner_reveals_its_region() {
    // . 1 * .      the corner (0,0) is the one blank cell; its region is the
    // 1 3 . .      corner and the three counted cells around it
    // * . * .
    // . . . .
    let mut game = board(4, 4, &[2, 8, 10]);
    game.click(0, 0).unwrap();
    let expected = vec![
        S, S, U, U,
        S, S, U, U,
        U, U, U, U,
        U, U, U, U,
    ];
    assert_eq!(tags(&game), expected);
    assert_eq!(game.counts().selected, 4);
    assert_eq!(game.status(), GameStatus::Playing);
    assert_eq!(game.cell_at(0, 0).unwrap().content, Content::Safe(0));
    assert_eq!(game.cell_at(0, 1).unwrap().content, Content::Safe(1));
    assert_eq!(game.cell_at(1, 0).unwrap().content, Content::Safe(1));
    assert_eq!(game.cell_at(1, 1).unwrap().content, Content::Safe(3));
}

#[test]
fn click_on_a_blank_cell_reveals_the_whole_blank_region_and_its_border() {
    // . . . .
    // . . . .
    // . . 1 1
    // . . 1 *
    let mut game = board(4, 4, &[15]);
    game.click(0, 0).unwrap();
    let expected = vec![
        S, S, S, S,
        S, S, S, S,
        S, S, S, S,
        S, S, S, U,
    ];
    assert_eq!(tags(&game), expected);
    assert_eq!(game.counts().selected, 15);
    // the mine is neither revealed nor flagged: the game goes on
    assert_eq!(game.status(), GameStatus::Playing);
}

#[test]
fn reveal_stops_at_counted_cells() {
    // . 1 * 1 .
    // . 1 1 1 .
    // . . . . .     a wall of mines cuts the board: the counted cells above
    // 2 3 3 3 2     it are the border, the row below it stays covered
    // * * * * *
    // 2 3 3 3 2
    let mut game = board(6, 5, &[2, 20, 21, 22, 23, 24]);
    game.click(2, 2).unwrap();
    let expected = vec![
        S, S, U, S, S,
        S, S, S, S, S,
        S, S, S, S, S,
        S, S, S, S, S,
        U, U, U, U, U,
        U, U, U, U, U,
    ];
    assert_eq!(tags(&game), expected);
    assert_eq!(game.counts().selected, 19);
}

#[test]
fn reveal_does_not_pass_between_regions_through_a_counted_cell() {
    // . 1 * 1 .     two blank columns, parted by counted cells: a click in
    // . 1 1 1 .     the left one leaves the right one covered
    // . 1 1 1 .
    // . 1 * 1 .
    let mut game = board(4, 5, &[2, 17]);
    game.click(0, 0).unwrap();
    let expected = vec![
        S, S, U, U, U,
        S, S, U, U, U,
        S, S, U, U, U,
        S, S, U, U, U,
    ];
    assert_eq!(tags(&game), expected);
    assert_eq!(game.counts().selected, 8);
}

#[test]
fn reveal_spreads_diagonally() {
    // . . 1 *      two blank squares that touch only at a corner, (1,1) and
    // . . 1 1      (2,2): the reveal passes from one into the other
    // 1 1 . .
    // * 1 . .
    let mut game = board(4, 4, &[3, 12]);
    game.click(0, 0).unwrap();
    let expected = vec![
        S, S, S, U, //
        S, S, S, S, //
        S, S, S, S, //
        U, S, S, S, //
    ];
    assert_eq!(tags(&game), expected);
    assert_eq!(game.counts().selected, 14);
}

#[test]
fn reveal_leaves_cells_beyond_its_border_covered() {
    // . 1 * 1      the blank cells lie in the lower right; (0,0) and (3,0)
    // 1 2 1 1      touch none of them and stay covered
    // * 1 . .
    // 1 1 . .
    let mut game = board(4, 4, &[2, 8]);
    game.click(3, 3).unwrap();
    let expected = vec![
        U, U, U, U, //
        U, S, S, S, //
        U, S, S, S, //
        U, S, S, S, //
    ];
    assert_eq!(tags(&game), expected);
    assert_eq!(game.counts().selected, 9);
}

#[test]
fn reveal_leaves_flags_alone_and_does_not_spread_from_them() {
    // . . . . *
    // row of blanks; a flag on the blank cell (0,1) blocks the way
    let mut game = board(1, 5, &[4]);
    game.right_click(0, 1).unwrap();
    game.click(0, 0).unwrap();
    assert_eq!(tags(&game), vec![S, F, U, U, U]);
    assert_eq!(game.counts().selected, 1);
    assert_eq!(game.counts().flagged, 1);
    // from the other side the reveal reaches up to the flag
    game.click(0, 2).unwrap();
    assert_eq!(tags(&game), vec![S, F, S, S, U]);
    assert_eq!(game.counts().selected, 3);
}

#[test]
fn reveal_goes_round_a_flag() {
    // . . .
    // . F .     a flag on a blank cell in the middle is passed on both sides
    // . . .
    // 1 1 1
    // . * .
    let mut game = board(5, 3, &[13]);
    game.right_click(1, 1).unwrap();
    game.click(0, 0).unwrap();
    let expected = vec![
        S, S, S,
        S, F, S,
        S, S, S,
        S, S, S,
        U, U, U,
    ];
    assert_eq!(tags(&game), expected);
    assert_eq!(game.counts().selected, 11);
}

#[test]
fn reveal_never_uncovers_a_mine() {
    let mut game = board(5, 5, &[6, 8, 16, 18, 12]);
    game.click(0, 0).unwrap();
    game.click(4, 4).unwrap();
    game.click(0, 4).unwrap();
    game.click(4, 0).unwrap();
    assert_eq!(game.status(), GameStatus::Playing);
    let after = tags(&game);
    for mine in [6usize, 8, 16, 18, 12] {
        assert_eq!(after[mine], U);
    }
}

#[test]
fn clean_neighbour_cells_reveals_the_start_and_its_region() {
    let mut game = board(4, 4, &[15]);
    game.clean_neighbour_cells(0, 0);
    assert_eq!(game.counts().selected, 15);
    assert_eq!(game.cell_at(0, 0).unwrap().tag, S);
    assert_eq!(game.cell_at(3, 3).unwrap().tag, U);
    // the state machine did not look: the game goes on
    assert_eq!(game.status(), GameStatus::Playing);
}

#[test]
fn clean_neighbour_cells_on_a_lone_blank_cell_reveals_its_ring() {
    // 1 1 1 . .
    // 1 * 1 . .    a flagged blank start is left flagged, and spreads
    let mut game = board(2, 5, &[6]);
    game.toggle_flag(4);
    game.clean_neighbour_cells(0, 4);
    assert_eq!(tags(&game), vec![U, U, S, S, F, U, U, S, S, S]);
    assert_eq!(game.counts().selected, 5);
}

#[test]
fn clean_neighbour_cells_on_a_counted_cell_reveals_only_it() {
    let mut game = board(3, 3, &[4]);
    game.clean_neighbour_cells(0, 0);
    assert_eq!(tags(&game), vec![S, U, U, U, U, U, U, U, U]);
    assert_eq!(game.counts().selected, 1);
    // again: nothing more
    game.clean_neighbour_cells(0, 0);
    assert_eq!(game.counts().selected, 1);
}

#[test]
fn clean_neighbour_cells_on_a_mine_does_nothing() {
    let mut game = board(3, 3, &[4]);
    game.clean_neighbour_cells(1, 1);
    assert_eq!(tags(&game), vec![U; 9]);
    assert_eq!(game.counts().selected, 0);
    assert_eq!(game.status(), GameStatus::Playing);
}

#[test]
fn clean_neighbour_cells_on_an_isolated_blank_cell() {
    // a blank cell all of whose neighbours are counted
    // * . . . *
    // . . . . .     (1,2) has no mine around it; every neighbour has
    // * . . . *
    let mut game = board(3, 5, &[0, 4, 10, 14]);
    assert_eq!(game.cell_at(1, 2).unwrap().tag, U);
    game.clean_neighbour_cells(1, 2);
    let expected = vec![
        U, S, S, S, U,
        U, S, S, S, U,
        U, S, S, S, U,
    ];
    assert_eq!(tags(&game), expected);
    assert_eq!(game.counts().selected, 9);
}

#[test]
fn reveal_covers_a_large_board_without_mines_nearby() {
    let rows = 40;
    let columns = 40;
    let mut game = board(rows, columns, &[rows * columns - 1]);
    game.right_click(rows - 1, columns - 1).unwrap();
    game.click(0, 0).unwrap();
    assert_eq!(game.counts().selected, rows * columns - 1);
    assert_eq!(game.status(), GameStatus::Won);
}
