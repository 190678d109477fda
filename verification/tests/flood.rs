use minesweeper::algo::flood_fill;
use minesweeper::data::Board;

fn board_with_mines(width: usize, height: usize, mines: &[(usize, usize)]) -> Board {
    let mut board = Board::new(width, height);
    for &(x, y) in mines {
        board.itself[y][x].is_mine = true;
    }
    board.recalculate_adjacent_mines();
    board
}

fn opened(board: &Board) -> Vec<String> {
    board
        .itself
        .iter()
        .map(|row| row.iter().map(|t| if t.is_opened { '#' } else { '.' }).collect())
        .collect()
}

#[test]
fn flood_opens_a_whole_board_without_mines() {
    for (sx, sy) in [(0usize, 0usize), (3, 2), (4, 0), (2, 1)] {
        let mut board = Board::new(5, 3);
        flood_fill(&mut board, sx, sy);
        assert_eq!(opened(&board), vec!["#####", "#####", "#####"]);
    }
}

#[test]
fn flood_opens_a_large_board_without_mines() {
    let mut board = Board::new(40, 40);
    flood_fill(&mut board, 17, 23);
    assert!(board.itself.iter().flatten().all(|t| t.is_opened));
}

#[test]
fn flood_stops_at_flags() {
    let mut board = Board::new(5, 3);
    for y in 0..3 {
        board.itself[y][2].is_flagged = true;
    }
    flood_fill(&mut board, 0, 1);
    assert_eq!(opened(&board), vec!["##...", "##...", "##..."]);
}

#[test]
fn flood_does_not_spread_over_corners() {
    let mut board = Board::new(3, 3);
    board.itself[0][1].is_flagged = true;
    board.itself[1][0].is_flagged = true;
    flood_fill(&mut board, 0, 0);
    assert_eq!(opened(&board), vec!["#..", "...", "..."]);
}

#[test]
fn flood_from_an_open_tile_changes_nothing() {
    let mut board = Board::new(3, 3);
    board.itself[1][1].is_opened = true;
    flood_fill(&mut board, 1, 1);
    assert_eq!(opened(&board), vec!["...", ".#.", "..."]);
}

#[test]
fn flood_from_a_flagged_tile_changes_nothing() {
    let mut board = Board::new(3, 3);
    board.itself[1][1].is_flagged = true;
    flood_fill(&mut board, 1, 1);
    assert_eq!(opened(&board), vec!["...", "...", "..."]);
    assert!(board.tile(1, 1).is_flagged);
}

#[test]
fn flood_from_a_mine_changes_nothing() {
    let mut board = board_with_mines(3, 3, &[(1, 1)]);
    flood_fill(&mut board, 1, 1);
    assert_eq!(opened(&board), vec!["...", "...", "..."]);
}

#[test]
fn flood_from_a_numbered_tile_opens_its_numbered_side_neighbours() {
    let mut board = board_with_mines(3, 3, &[(1, 1)]);
    flood_fill(&mut board, 0, 0);
    assert_eq!(opened(&board), vec!["##.", "#..", "..."]);
    let mut board = board_with_mines(3, 3, &[(1, 1)]);
    flood_fill(&mut board, 1, 0);
    assert_eq!(opened(&board), vec!["###", "...", "..."]);
}

#[test]
fn flood_from_a_numbered_tile_opens_flagged_numbered_neighbours_too() {
    let mut board = board_with_mines(3, 3, &[(1, 1)]);
    board.itself[0][1].is_flagged = true;
    flood_fill(&mut board, 0, 0);
    assert_eq!(opened(&board), vec!["##.", "#..", "..."]);
}

#[test]
fn flood_from_a_numbered_tile_leaves_unnumbered_neighbours_closed() {
    let mut board = board_with_mines(4, 1, &[(0, 0)]);
    flood_fill(&mut board, 1, 0);
    assert_eq!(opened(&board), vec![".#.."]);
}

#[test]
fn flood_opens_the_region_and_its_numbered_border() {
    let mut board = board_with_mines(5, 5, &[(4, 4)]);
    flood_fill(&mut board, 0, 0);
    assert_eq!(opened(&board), vec!["#####", "#####", "#####", "#####", "####."]);
    assert!(!board.tile(4, 4).is_opened);
}

#[test]
fn flood_never_opens_a_mine() {
    let mut board = board_with_mines(6, 6, &[(2, 2), (3, 2), (5, 0), (0, 5)]);
    flood_fill(&mut board, 0, 0);
    assert!(board.itself.iter().flatten().all(|t| !(t.is_mine && t.is_opened)));
    assert!(board.tile(0, 0).is_opened);
}

#[test]
fn flood_keeps_mines_flags_and_numbers() {
    let mut board = board_with_mines(4, 4, &[(3, 3)]);
    board.itself[0][3].is_flagged = true;
    let before: Vec<(bool, bool, i32)> =
        board.itself.iter().flatten().map(|t| (t.is_mine, t.is_flagged, t.number)).collect();
    flood_fill(&mut board, 0, 0);
    let after: Vec<(bool, bool, i32)> =
        board.itself.iter().flatten().map(|t| (t.is_mine, t.is_flagged, t.number)).collect();
    assert_eq!(before, after);
    assert_eq!(opened(&board), vec!["###.", "####", "####", "###."]);
}

#[test]
fn flood_is_walled_in_by_a_row_of_mines() {
    let mut board = board_with_mines(3, 5, &[(0, 2), (1, 2), (2, 2)]);
    flood_fill(&mut board, 1, 0);
    assert_eq!(opened(&board), vec!["###", "###", "...", "...", "..."]);
}

#[test]
fn flood_opens_a_flagged_numbered_tile_beside_a_numbered_tile_it_comes_to() {
    let mut board = board_with_mines(3, 3, &[(2, 2)]);
    board.itself[1][1].is_flagged = true;
    flood_fill(&mut board, 0, 0);
    assert_eq!(opened(&board), vec!["###", "###", "##."]);
    assert!(board.tile(1, 1).is_flagged);
}

fn board_with_two_numbered_tiles_between_flags() -> Board {
    let mut board = Board::new(4, 2);
    board.itself[0][0].is_flagged = true;
    board.itself[0][3].is_flagged = true;
    for x in 0..4 {
        board.itself[1][x].number = 1;
    }
    board.itself[1][0].is_flagged = true;
    board.itself[1][3].is_flagged = true;
    board
}

#[test]
fn flood_lets_the_numbered_tile_it_comes_to_first_open_its_neighbours() {
    let mut board = board_with_two_numbered_tiles_between_flags();
    flood_fill(&mut board, 1, 0);
    assert_eq!(opened(&board), vec![".##.", "###."]);
    let mut board = board_with_two_numbered_tiles_between_flags();
    flood_fill(&mut board, 2, 0);
    assert_eq!(opened(&board), vec![".##.", ".###"]);
}

#[test]
fn flood_goes_up_before_it_goes_right() {
    let mut board = Board::new(4, 2);
    board.itself[0][0].is_flagged = true;
    board.itself[1][0].is_flagged = true;
    board.itself[1][3].is_flagged = true;
    board.itself[0][1].number = 1;
    board.itself[0][2].number = 1;
    board.itself[0][3].number = 1;
    board.itself[0][3].is_flagged = true;
    flood_fill(&mut board, 1, 1);
    assert_eq!(opened(&board), vec![".##.", ".##."]);
}
