//! The game as the player drives it: one board, one state, and the three
//! actions that change them.

use crate::algo::{flood_fill, flood_filled, flooded, only_opens, opened_at, same_tiles};
use crate::count::{
    all_mines_flagged, at, flagged, grid_count, in_grid, lemma_all_mines_flagged,
    lemma_grid_count_bound, lemma_grid_count_diff, lemma_grid_count_same, lemma_grid_count_zero,
    mined, same_shape, Grid,
};
use crate::data::{
    adjacent_mines, lemma_same_mines_same_numbers, Board, GameState, Tile,
};
use vstd::prelude::*;

verus! {

/// Why a game cannot be set up.
#[derive(Clone, Copy, Debug, PartialEq, Eq, Structural)]
pub enum ConfigError {
    /// The board has no column or no row.
    EmptyBoard,
    /// The board has more tiles than the flag counter can count.
    TooLarge,
    /// There is no mine, or there are as many mines as tiles or more.
    MineCount,
}

/// One game: the board, the state, and the number of mines it is played with.
pub struct GameEngine {
    pub board: Board,
    pub state: GameState,
    pub mine_count: usize,
}

/// Every tile's number is the count of mines among its neighbours.
pub open spec fn numbered(g: Grid) -> bool {
    forall|x: int, y: int|
        in_grid(g, x, y) ==> (#[trigger] at(g, x, y)).number == adjacent_mines(g, x, y)
}

/// The tile `t` with the flag planted or taken off.
pub open spec fn with_flag(t: Tile, f: bool) -> Tile {
    Tile { is_mine: t.is_mine, is_opened: t.is_opened, is_flagged: f, number: t.number }
}

/// The grid `b` is `a` with the flag of the tile at `(x, y)` set to `f`.
pub open spec fn flag_set_at(a: Grid, b: Grid, x: int, y: int, f: bool) -> bool {
    &&& same_shape(a, b)
    &&& in_grid(a, x, y)
    &&& at(b, x, y) == with_flag(at(a, x, y), f)
    &&& forall|i: int, j: int|
        in_grid(a, i, j) && !(i == x && j == y) ==> #[trigger] at(b, i, j) == at(a, i, j)
}

/// Mines, flags and numbers are the same in both grids.
pub open spec fn same_but_opened(a: Grid, b: Grid) -> bool {
    &&& same_shape(a, b)
    &&& forall|x: int, y: int|
        in_grid(a, x, y) ==> {
            let p = at(a, x, y);
            let q = #[trigger] at(b, x, y);
            q.is_mine == p.is_mine && q.is_flagged == p.is_flagged && q.number == p.number
        }
}

/// No tile of the grid is open and none carries a flag.
pub open spec fn untouched(g: Grid) -> bool {
    forall|x: int, y: int|
        in_grid(g, x, y) ==> !(#[trigger] at(g, x, y)).is_opened && !at(g, x, y).is_flagged
}

/// How `reveal_tile` at `(x, y)` takes the game from `pre` to `post`.
///
/// Nothing happens once the game is over, or off the board. A mine is opened
/// and the game is lost. A numbered tile is opened alone. From a tile without
/// neighbouring mines the board is flood filled.
pub open spec fn revealed(pre: GameEngine, post: GameEngine, x: usize, y: usize) -> bool {
    if pre.over() || !pre.on_board(x, y) {
        post == pre
    } else {
        let t = at(pre.board@, x as int, y as int);
        &&& post.mine_count == pre.mine_count
        &&& post.board.width == pre.board.width
        &&& post.board.height == pre.board.height
        &&& post.state.score == pre.state.score
        &&& post.state.flags_left == pre.state.flags_left
        &&& post.state.won == pre.state.won
        &&& post.state.message == pre.state.message
        &&& post.state.lost == t.is_mine
        &&& if t.is_mine || t.number > 0 {
            opened_at(pre.board@, post.board@, x as int, y as int)
        } else {
            &&& post.board@ == flood_filled(pre.board@, x as int, y as int)
            &&& flooded(pre.board@, post.board@, x as int, y as int)
        }
    }
}

/// How `toggle_flag` at `(x, y)` takes the game from `pre` to `post`.
///
/// Nothing happens once the game is over, or off the board. A flag that is
/// there is taken back, and one more flag is left. Else a flag is planted, one
/// flag less is left, and the game is won if now every mine carries a flag.
pub open spec fn toggled(pre: GameEngine, post: GameEngine, x: usize, y: usize) -> bool {
    if pre.over() || !pre.on_board(x, y) {
        post == pre
    } else {
        let t = at(pre.board@, x as int, y as int);
        &&& post.mine_count == pre.mine_count
        &&& post.board.width == pre.board.width
        &&& post.board.height == pre.board.height
        &&& post.state.score == pre.state.score
        &&& post.state.lost == pre.state.lost
        &&& post.state.message == pre.state.message
        &&& flag_set_at(pre.board@, post.board@, x as int, y as int, !t.is_flagged)
        &&& post.state.flags_left == pre.state.flags_left + if t.is_flagged { 1int } else { -1int }
        &&& post.state.won == (!t.is_flagged && all_mines_flagged(post.board@))
    }
}

/// Grids with the same mines, flags and numbers count the same mines and
/// flags, and the numbers are right in both or in neither.
pub proof fn lemma_same_but_opened(a: Grid, b: Grid)
    requires
        same_but_opened(a, b),
    ensures
        grid_count(b, mined()) == grid_count(a, mined()),
        grid_count(b, flagged()) == grid_count(a, flagged()),
        numbered(a) ==> numbered(b),
{
    lemma_grid_count_same(a, b, mined());
    lemma_grid_count_same(a, b, flagged());
    if numbered(a) {
        assert forall|x: int, y: int| in_grid(b, x, y) implies (#[trigger] at(b, x, y)).number
            == adjacent_mines(b, x, y) by {
            assert(in_grid(a, x, y));
            lemma_same_mines_same_numbers(a, b, x, y);
        }
    }
}

/// Toggling the flag of one tile twice gives back the tiles and the count of
/// flags left, unless the first of the two won the game: then the second does
/// nothing.
pub proof fn lemma_toggle_twice(a: GameEngine, b: GameEngine, c: GameEngine, x: usize, y: usize)
    requires
        toggled(a, b, x, y),
        toggled(b, c, x, y),
        b.state.won ==> a.state.won,
    ensures
        same_tiles(a.board@, c.board@),
        c.state.flags_left == a.state.flags_left,
{
    reveal(same_tiles);
    if !(a.over() || !a.on_board(x, y)) {
        assert forall|i: int, j: int| in_grid(a.board@, i, j) implies #[trigger] at(
            c.board@,
            i,
            j,
        ) == at(a.board@, i, j) by {
            let m = at(b.board@, i, j);
            assert(in_grid(b.board@, i, j));
        }
    }
}

impl GameEngine {
    /// The game is won or lost.
    pub open spec fn over(&self) -> bool {
        self.state.won || self.state.lost
    }

    /// `(x, y)` names a tile of the board.
    pub open spec fn on_board(&self, x: usize, y: usize) -> bool {
        x < self.board.width && y < self.board.height
    }

    /// What holds of a game between the player's actions: the board is a
    /// rectangle no larger than the flag counter can count, it holds
    /// `mine_count` mines, of which there is one at least and fewer than
    /// tiles, every number is right, the flags left are the mines minus the
    /// flags on the board, and the game is not both won and lost.
    pub open spec fn wf(&self) -> bool {
        &&& self.board.wf()
        &&& 0 < self.mine_count < self.board.width * self.board.height <= i32::MAX
        &&& grid_count(self.board@, mined()) == self.mine_count
        &&& numbered(self.board@)
        &&& self.state.flags_left == self.mine_count - grid_count(self.board@, flagged())
        &&& !(self.state.won && self.state.lost)
    }

    /// The game has just begun: nothing scored, as many flags left as there
    /// are mines, neither won nor lost, no message, no tile open or flagged.
    pub open spec fn fresh(&self) -> bool {
        &&& self.state.score == 0
        &&& self.state.flags_left == self.mine_count
        &&& !self.state.won
        &&& !self.state.lost
        &&& self.state.message@.len() == 0
        &&& untouched(self.board@)
    }

    /// Lays the mines on a board without open tiles or flags and numbers the
    /// tiles.
    fn lay_out(board: &mut Board, mine_count: usize)
        requires
            old(board).wf(),
            mine_count <= old(board).width * old(board).height,
            untouched(old(board)@),
        ensures
            final(board).wf(),
            final(board).width == old(board).width,
            final(board).height == old(board).height,
            untouched(final(board)@),
            numbered(final(board)@),
            grid_count(final(board)@, mined()) == mine_count,
            grid_count(final(board)@, flagged()) == 0,
    {
        board.place_random_mines(mine_count);
        let ghost g1 = board@;
        board.recalculate_adjacent_mines();
        proof {
            let g2 = board@;
            assert forall|x: int, y: int| in_grid(g2, x, y) implies !(#[trigger] at(
                g2,
                x,
                y,
            )).is_opened && !at(g2, x, y).is_flagged by {
                assert(in_grid(g1, x, y) && in_grid(old(board)@, x, y));
                let t1 = at(g1, x, y);
            }
            assert forall|x: int, y: int| in_grid(g1, x, y) implies mined()(
                #[trigger] at(g1, x, y),
            ) == mined()(at(g2, x, y)) by {
                let t2 = at(g2, x, y);
            }
            lemma_grid_count_same(g1, g2, mined());
            lemma_grid_count_zero(g2, flagged());
        }
    }

    /// Sets up a game on a board of `height` rows of `width` tiles with
    /// `mine_count` mines laid at random.
    ///
    /// A board without tiles is refused, then one of more tiles than the flag
    /// counter can count, then a mine count that is zero or leaves no tile
    /// free.
    pub fn new(width: usize, height: usize, mine_count: usize) -> (r: Result<
        GameEngine,
        ConfigError,
    >)
        ensures
            match r {
                Ok(e) => {
                    &&& 0 < mine_count < width * height <= i32::MAX
                    &&& e.wf()
                    &&& e.fresh()
                    &&& e.board.width == width
                    &&& e.board.height == height
                    &&& e.mine_count == mine_count
                },
                Err(ConfigError::EmptyBoard) => width == 0 || height == 0,
                Err(ConfigError::TooLarge) => width > 0 && height > 0 && width * height > i32::MAX,
                Err(ConfigError::MineCount) => {
                    &&& 0 < width * height <= i32::MAX
                    &&& (mine_count == 0 || mine_count >= width * height)
                },
            },
    {
        if width == 0 || height == 0 {
            return Err(ConfigError::EmptyBoard);
        }
        if width > 0x7fff_ffff || height > 0x7fff_ffff {
            assert(width * height > 0x7fff_ffff) by (nonlinear_arith)
                requires
                    width > 0,
                    height > 0,
                    width > 0x7fff_ffff || height > 0x7fff_ffff,
            ;
            return Err(ConfigError::TooLarge);
        }
        assert(0 < width * height <= 0x7fff_ffff * 0x7fff_ffff) by (nonlinear_arith)
            requires
                0 < width <= 0x7fff_ffff,
                0 < height <= 0x7fff_ffff,
        ;
        let cells: u64 = (width as u64) * (height as u64);
        if cells > 0x7fff_ffff {
            return Err(ConfigError::TooLarge);
        }
        if mine_count == 0 || mine_count as u64 >= cells {
            return Err(ConfigError::MineCount);
        }
        let mut board = Board::new(width, height);
        Self::lay_out(&mut board, mine_count);
        let state = GameState::new(mine_count);
        Ok(GameEngine { board, state, mine_count })
    }

    /// Opens the tile at `(x, y)`.
    pub fn reveal_tile(&mut self, x: usize, y: usize)
        requires
            old(self).wf(),
        ensures
            final(self).wf(),
            revealed(*old(self), *final(self), x, y),
    {
        if self.state.won || self.state.lost {
            return ;
        }
        if x >= self.board.width || y >= self.board.height {
            return ;
        }
        let t = self.board.tile(x, y);
        let ghost g0 = self.board@;
        if t.is_mine {
            self.board.set_tile(
                x,
                y,
                Tile {
                    is_mine: t.is_mine,
                    is_opened: true,
                    is_flagged: t.is_flagged,
                    number: t.number,
                },
            );
            self.state.lost = true;
        } else if t.number > 0 {
            self.board.set_tile(
                x,
                y,
                Tile {
                    is_mine: t.is_mine,
                    is_opened: true,
                    is_flagged: t.is_flagged,
                    number: t.number,
                },
            );
        } else {
            flood_fill(&mut self.board, x, y);
            proof {
                reveal(only_opens);
            }
        }
        proof {
            assert(same_but_opened(g0, self.board@));
            lemma_same_but_opened(g0, self.board@);
        }
    }

    /// Plants a flag on the tile at `(x, y)`, or takes back the flag that is
    /// there.
    pub fn toggle_flag(&mut self, x: usize, y: usize)
        requires
            old(self).wf(),
        ensures
            final(self).wf(),
            toggled(*old(self), *final(self), x, y),
    {
        if self.state.won || self.state.lost {
            return ;
        }
        if x >= self.board.width || y >= self.board.height {
            return ;
        }
        let t = self.board.tile(x, y);
        let ghost g0 = self.board@;
        proof {
            lemma_grid_count_bound(
                g0,
                flagged(),
                self.board.width as int,
                self.board.height as int,
            );
        }
        self.board.set_tile(
            x,
            y,
            Tile {
                is_mine: t.is_mine,
                is_opened: t.is_opened,
                is_flagged: !t.is_flagged,
                number: t.number,
            },
        );
        proof {
            let g1 = self.board@;
            lemma_grid_count_diff(g0, g1, flagged(), x as int, y as int);
            lemma_grid_count_same(g0, g1, mined());
            assert forall|i: int, j: int| in_grid(g1, i, j) implies (#[trigger] at(g1, i, j)).number
                == adjacent_mines(g1, i, j) by {
                assert(in_grid(g0, i, j));
                lemma_same_mines_same_numbers(g0, g1, i, j);
            }
            lemma_all_mines_flagged(g1);
        }
        if t.is_flagged {
            self.state.take_flag();
        } else {
            self.state.put_flag();
            let flagged_mines = self.board.count_flagged_mines();
            if flagged_mines == self.mine_count {
                self.state.won = true;
            }
        }
    }

    /// Starts the game anew on the same board: every tile is closed and loses
    /// its flag, the state is that of a fresh game with the same number of
    /// mines, and the mines are laid again at random and the tiles numbered.
    pub fn reset(&mut self)
        requires
            old(self).wf(),
        ensures
            final(self).wf(),
            final(self).fresh(),
            final(self).mine_count == old(self).mine_count,
            final(self).board.width == old(self).board.width,
            final(self).board.height == old(self).board.height,
    {
        self.board.close_all();
        self.state = GameState::new(self.mine_count);
        Self::lay_out(&mut self.board, self.mine_count);
    }
}

} // verus!
