use minesweeper::data::{Board, GameState, Tile};
use minesweeper::display::{banner, over_flagged, sprite_index, Banner};
use minesweeper::engine::{ConfigError, GameEngine};

fn game_with_mines(width: usize, height: usize, mines: &[(usize, usize)]) -> GameEngine {
    let mut board = Board::new(width, height);
    for &(x, y) in mines {
        board.itself[y][x].is_mine = true;
    }
    board.recalculate_adjacent_mines();
    GameEngine { board, state: GameState::new(mines.len()), mine_count: mines.len() }
}

fn opened(game: &GameEngine) -> Vec<String> {
    game.board
        .itself
        .iter()
        .map(|row| row.iter().map(|t| if t.is_opened { '#' } else { '.' }).collect())
        .collect()
}

fn mines_on(game: &GameEngine) -> usize {
    game.board.itself.iter().flatten().filter(|t| t.is_mine).count()
}

#[test]
fn new_game_is_fresh() {
    let game = GameEngine::new(10, 10, 15).unwrap();
    assert_eq!(game.board.width, 10);
    assert_eq!(game.board.height, 10);
    assert_eq!(game.mine_count, 15);
    assert_eq!(mines_on(&game), 15);
    assert_eq!(game.state.flags_left, 15);
    assert_eq!(game.state.score, 0);
    assert!(!game.state.won && !game.state.lost);
    assert_eq!(game.state.message, "");
    assert!(game.board.itself.iter().flatten().all(|t| !t.is_opened && !t.is_flagged));
}

#[test]
fn new_game_has_its_tiles_numbered() {
    let game = GameEngine::new(6, 4, 5).unwrap();
    for y in 0..4i32 {
        for x in 0..6i32 {
            let mut n = 0;
            for dy in -1..=1 {
                for dx in -1..=1 {
                    let (nx, ny) = (x + dx, y + dy);
                    if (dx, dy) != (0, 0) && nx >= 0 && nx < 6 && ny >= 0 && ny < 4
                        && game.board.tile(nx as usize, ny as usize).is_mine
                    {
                        n += 1;
                    }
                }
            }
            assert_eq!(game.board.tile(x as usize, y as usize).number, n);
        }
    }
}

#[test]
fn new_game_refuses_a_board_without_tiles() {
    assert_eq!(GameEngine::new(0, 5, 1).err(), Some(ConfigError::EmptyBoard));
    assert_eq!(GameEngine::new(5, 0, 1).err(), Some(ConfigError::EmptyBoard));
    assert_eq!(GameEngine::new(0, 0, 0).err(), Some(ConfigError::EmptyBoard));
}

#[test]
fn new_game_refuses_a_board_too_large_to_count() {
    assert_eq!(GameEngine::new(65536, 32768, 1).err(), Some(ConfigError::TooLarge));
    assert_eq!(GameEngine::new(usize::MAX, 1, 1).err(), Some(ConfigError::TooLarge));
    assert_eq!(GameEngine::new(2, usize::MAX, 1).err(), Some(ConfigError::TooLarge));
}

#[test]
fn new_game_refuses_a_bad_mine_count() {
    assert_eq!(GameEngine::new(3, 3, 0).err(), Some(ConfigError::MineCount));
    assert_eq!(GameEngine::new(3, 3, 9).err(), Some(ConfigError::MineCount));
    assert_eq!(GameEngine::new(3, 3, 10).err(), Some(ConfigError::MineCount));
    assert_eq!(GameEngine::new(1, 1, 1).err(), Some(ConfigError::MineCount));
    assert!(GameEngine::new(3, 3, 8).is_ok());
    assert!(GameEngine::new(3, 3, 1).is_ok());
}

#[test]
fn revealing_a_mine_loses_and_opens_only_that_tile() {
    let mut game = game_with_mines(4, 4, &[(3, 3)]);
    game.reveal_tile(3, 3);
    assert!(game.state.lost);
    assert!(!game.state.won);
    assert_eq!(opened(&game), vec!["....", "....", "....", "...#"]);
}

#[test]
fn revealing_a_numbered_tile_opens_it_alone() {
    let mut game = game_with_mines(3, 3, &[(1, 1)]);
    game.reveal_tile(0, 0);
    assert_eq!(opened(&game), vec!["#..", "...", "..."]);
    assert!(!game.state.lost && !game.state.won);
    assert_eq!(game.state.flags_left, 1);
}

#[test]
fn every_safe_tile_round_a_middle_mine_has_number_one() {
    let game = game_with_mines(3, 3, &[(1, 1)]);
    for y in 0..3 {
        for x in 0..3 {
            if (x, y) != (1, 1) {
                assert_eq!(game.board.tile(x, y).number, 1);
                assert!(!game.board.tile(x, y).is_mine);
            }
        }
    }
}

#[test]
fn revealing_a_tile_without_neighbouring_mines_floods() {
    let mut game = game_with_mines(5, 5, &[(4, 4)]);
    game.reveal_tile(0, 0);
    assert_eq!(opened(&game), vec!["#####", "#####", "#####", "#####", "####."]);
    assert!(!game.state.lost);
}

#[test]
fn revealing_a_flagged_tile_without_neighbouring_mines_does_nothing() {
    let mut game = game_with_mines(5, 5, &[(4, 4)]);
    game.toggle_flag(0, 0);
    game.reveal_tile(0, 0);
    assert_eq!(opened(&game), vec![".....", ".....", ".....", ".....", "....."]);
}

#[test]
fn revealing_off_the_board_does_nothing() {
    let mut game = game_with_mines(3, 2, &[(1, 1)]);
    game.reveal_tile(3, 0);
    game.reveal_tile(0, 2);
    game.reveal_tile(usize::MAX, usize::MAX);
    assert_eq!(opened(&game), vec!["...", "..."]);
    assert!(!game.state.lost);
}

#[test]
fn nothing_is_revealed_or_flagged_once_the_game_is_lost() {
    let mut game = game_with_mines(3, 3, &[(1, 1)]);
    game.reveal_tile(1, 1);
    assert!(game.state.lost);
    game.reveal_tile(0, 0);
    game.toggle_flag(2, 2);
    assert_eq!(opened(&game), vec!["...", ".#.", "..."]);
    assert!(!game.board.tile(2, 2).is_flagged);
    assert_eq!(game.state.flags_left, 1);
    assert!(!game.state.won);
}

#[test]
fn nothing_is_revealed_or_flagged_once_the_game_is_won() {
    let mut game = game_with_mines(3, 3, &[(1, 1)]);
    game.toggle_flag(1, 1);
    assert!(game.state.won);
    game.reveal_tile(1, 1);
    game.toggle_flag(1, 1);
    game.toggle_flag(0, 0);
    assert!(game.board.tile(1, 1).is_flagged);
    assert!(!game.board.tile(1, 1).is_opened);
    assert!(!game.board.tile(0, 0).is_flagged);
    assert_eq!(game.state.flags_left, 0);
    assert!(!game.state.lost);
}

#[test]
fn toggling_a_flag_twice_gives_back_what_was() {
    let mut game = game_with_mines(4, 4, &[(0, 0), (3, 3)]);
    let before = game.board.tile(2, 1);
    let flags = game.state.flags_left;
    game.toggle_flag(2, 1);
    assert!(game.board.tile(2, 1).is_flagged);
    assert_eq!(game.state.flags_left, flags - 1);
    game.toggle_flag(2, 1);
    assert_eq!(game.board.tile(2, 1), before);
    assert_eq!(game.state.flags_left, flags);
    assert!(!game.state.won);
}

#[test]
fn toggling_off_the_board_does_nothing() {
    let mut game = game_with_mines(3, 2, &[(1, 1)]);
    game.toggle_flag(3, 1);
    game.toggle_flag(1, 2);
    assert_eq!(game.state.flags_left, 1);
    assert!(game.board.itself.iter().flatten().all(|t| !t.is_flagged));
}

#[test]
fn flagging_every_mine_wins_in_any_order() {
    let mines = [(0usize, 0usize), (2, 1), (1, 3)];
    for order in [[0usize, 1, 2], [2, 0, 1], [1, 2, 0], [2, 1, 0]] {
        let mut game = game_with_mines(4, 4, &mines);
        for (k, &m) in order.iter().enumerate() {
            assert!(!game.state.won);
            let (x, y) = mines[m];
            game.toggle_flag(x, y);
            assert_eq!(game.state.won, k == 2);
        }
        assert_eq!(game.state.flags_left, 0);
        assert!(!game.state.lost);
    }
}

#[test]
fn a_flag_on_a_safe_tile_does_not_stand_in_the_way_of_winning() {
    let mut game = game_with_mines(4, 4, &[(0, 0), (2, 1)]);
    game.toggle_flag(3, 3);
    game.toggle_flag(0, 0);
    assert!(!game.state.won);
    game.toggle_flag(2, 1);
    assert!(game.state.won);
    assert_eq!(game.state.flags_left, -1);
}

#[test]
fn flagging_safe_tiles_alone_does_not_win() {
    let mut game = game_with_mines(3, 3, &[(1, 1)]);
    game.toggle_flag(0, 0);
    game.toggle_flag(2, 2);
    assert!(!game.state.won);
    assert_eq!(game.state.flags_left, -1);
}

#[test]
fn taking_a_flag_back_does_not_win() {
    let mut game = game_with_mines(3, 3, &[(1, 1)]);
    game.board.itself[1][1].is_flagged = true;
    game.board.itself[0][0].is_flagged = true;
    game.state.flags_left = -1;
    game.toggle_flag(0, 0);
    assert!(!game.state.won);
    assert_eq!(game.state.flags_left, 0);
}

#[test]
fn reset_starts_a_fresh_game_on_the_same_board() {
    let mut game = GameEngine::new(8, 6, 10).unwrap();
    game.toggle_flag(0, 0);
    game.toggle_flag(1, 0);
    game.reveal_tile(4, 4);
    game.reveal_tile(7, 5);
    game.reset();
    assert_eq!(game.state.flags_left, 10);
    assert!(!game.state.won && !game.state.lost);
    assert_eq!(game.state.score, 0);
    assert_eq!(game.mine_count, 10);
    assert_eq!(game.board.width, 8);
    assert_eq!(game.board.height, 6);
    assert_eq!(mines_on(&game), 10);
    assert!(game.board.itself.iter().flatten().all(|t| !t.is_opened && !t.is_flagged));
}

#[test]
fn reset_after_a_lost_game_lets_the_player_go_on() {
    let mut game = game_with_mines(3, 3, &[(1, 1)]);
    game.reveal_tile(1, 1);
    assert!(game.state.lost);
    game.reset();
    assert!(!game.state.lost);
    assert_eq!(mines_on(&game), 1);
    game.toggle_flag(0, 0);
    assert!(game.board.tile(0, 0).is_flagged);
}

#[test]
fn reset_lays_the_mines_anew() {
    let mut game = GameEngine::new(10, 10, 15).unwrap();
    let layout = |g: &GameEngine| -> Vec<bool> {
        g.board.itself.iter().flatten().map(|t| t.is_mine).collect()
    };
    let first = layout(&game);
    let mut changed = false;
    for _ in 0..20 {
        game.reset();
        assert_eq!(mines_on(&game), 15);
        if layout(&game) != first {
            changed = true;
        }
    }
    assert!(changed);
}

#[test]
fn each_tile_has_its_picture() {
    let tile = |m, o, f, n| Tile { is_mine: m, is_opened: o, is_flagged: f, number: n };
    assert_eq!(sprite_index(tile(false, false, false, 0)), 3);
    assert_eq!(sprite_index(tile(true, false, false, 2)), 3);
    assert_eq!(sprite_index(tile(false, false, true, 0)), 1);
    assert_eq!(sprite_index(tile(true, true, true, 0)), 1);
    assert_eq!(sprite_index(tile(true, true, false, 0)), 2);
    assert_eq!(sprite_index(tile(false, true, false, 0)), 0);
    assert_eq!(sprite_index(tile(false, true, false, 1)), 4);
    assert_eq!(sprite_index(tile(false, true, false, 8)), 11);
    assert_eq!(sprite_index(tile(false, true, false, i32::MAX)), 3 + i32::MAX as i64);
}

#[test]
fn the_banner_follows_the_state() {
    let mut state = GameState::new(1);
    assert_eq!(banner(&state), None);
    assert!(!over_flagged(&state));
    state.message = String::from("hello");
    assert_eq!(banner(&state), Some(Banner::Note));
    state.won = true;
    assert_eq!(banner(&state), Some(Banner::Won));
    state.lost = true;
    assert_eq!(banner(&state), Some(Banner::Lost));
    state.put_flag();
    assert!(!over_flagged(&state));
    state.put_flag();
    assert!(over_flagged(&state));
}
