//! Tiles, the board that holds them, and the state of one game.

use crate::count::{
    at, flagged_mine, grid_count, in_grid, lemma_grid_count_bound, lemma_grid_count_diff,
    lemma_row_count_bound, mined, rect, row_count, same_shape, Grid,
};
use crate::rng::random_below;
use vstd::prelude::*;

verus! {

/// One cell of the grid.
#[derive(Clone, Copy, Debug, PartialEq, Eq, Structural)]
pub struct Tile {
    pub is_mine: bool,
    pub is_opened: bool,
    pub is_flagged: bool,
    /// How many of the neighbouring tiles hold a mine.
    pub number: i32,
}

impl Tile {
    /// The tile a fresh board is made of.
    pub open spec fn blank() -> Tile {
        Tile { is_mine: false, is_opened: false, is_flagged: false, number: 0 }
    }

    /// A closed tile without mine, flag or neighbouring mines.
    pub fn new() -> (t: Tile)
        ensures
            t == Tile::blank(),
    {
        Tile { is_mine: false, is_opened: false, is_flagged: false, number: 0 }
    }
}

/// One if `(x, y)` names a tile of the grid that holds a mine, else zero.
pub open spec fn mine_at(g: Grid, x: int, y: int) -> int {
    if in_grid(g, x, y) && at(g, x, y).is_mine { 1 } else { 0 }
}

/// The number of mines among the up to eight tiles that touch `(x, y)` by a
/// side or a corner. Nothing wraps round at the border.
#[verifier::opaque]
pub open spec fn adjacent_mines(g: Grid, x: int, y: int) -> int {
    mine_at(g, x - 1, y - 1) + mine_at(g, x, y - 1) + mine_at(g, x + 1, y - 1)
        + mine_at(g, x - 1, y) + mine_at(g, x + 1, y)
        + mine_at(g, x - 1, y + 1) + mine_at(g, x, y + 1) + mine_at(g, x + 1, y + 1)
}

/// The tile `t` with `n` as its number.
pub open spec fn with_number(t: Tile, n: int) -> Tile {
    Tile { is_mine: t.is_mine, is_opened: t.is_opened, is_flagged: t.is_flagged, number: n as i32 }
}

/// From `pre` to `post` every tile got the count of the mines round it as
/// its number, and nothing else happened.
pub open spec fn renumbered(pre: Grid, post: Grid) -> bool {
    &&& same_shape(pre, post)
    &&& forall|x: int, y: int|
        in_grid(pre, x, y) ==> #[trigger] at(post, x, y) == with_number(
            at(pre, x, y),
            adjacent_mines(pre, x, y),
        )
}

/// The tile `t` with its mine set or taken away.
pub open spec fn with_mine(t: Tile, m: bool) -> Tile {
    Tile { is_mine: m, is_opened: t.is_opened, is_flagged: t.is_flagged, number: t.number }
}

/// The tile `t`, closed and without a flag.
pub open spec fn closed(t: Tile) -> Tile {
    Tile { is_mine: t.is_mine, is_opened: false, is_flagged: false, number: t.number }
}

/// From `pre` to `post` mines were laid or lifted and nothing else happened:
/// opened tiles, flags and numbers are the same.
pub open spec fn only_mines_differ(pre: Grid, post: Grid) -> bool {
    &&& same_shape(pre, post)
    &&& forall|x: int, y: int|
        in_grid(pre, x, y) ==> {
            let a = at(pre, x, y);
            let b = #[trigger] at(post, x, y);
            &&& b.is_opened == a.is_opened
            &&& b.is_flagged == a.is_flagged
            &&& b.number == a.number
        }
}

/// How often a draw that lands on a mine is repeated before the mine goes to
/// the first free tile instead.
pub const REDRAWS: usize = 64;

/// The grid: `height` rows of `width` tiles, indexed `[row][column]`.
pub struct Board {
    pub itself: Vec<Vec<Tile>>,
    pub width: usize,
    pub height: usize,
}

impl View for Board {
    type V = Grid;

    open spec fn view(&self) -> Grid {
        Seq::new(self.itself@.len(), |y: int| self.itself@[y]@)
    }
}

impl Board {
    /// The rows and their lengths are as `width` and `height` say.
    pub open spec fn wf(&self) -> bool {
        rect(self@, self.width as int, self.height as int)
    }

    /// A board of `height` rows of `width` blank tiles.
    pub fn new(width: usize, height: usize) -> (b: Board)
        ensures
            b.wf(),
            b.width == width,
            b.height == height,
            forall|x: int, y: int| in_grid(b@, x, y) ==> #[trigger] at(b@, x, y) == Tile::blank(),
    {
        let mut field: Vec<Vec<Tile>> = Vec::new();
        for i in 0..height
            invariant
                field@.len() == i,
                forall|y: int| 0 <= y < i ==> (#[trigger] field@[y])@.len() == width,
                forall|x: int, y: int|
                    0 <= y < i && 0 <= x < width ==> #[trigger] field@[y]@[x] == Tile::blank(),
        {
            let mut row: Vec<Tile> = Vec::new();
            for j in 0..width
                invariant
                    row@.len() == j,
                    forall|x: int| 0 <= x < j ==> #[trigger] row@[x] == Tile::blank(),
            {
                row.push(Tile::new());
            }
            field.push(row);
        }
        Board { itself: field, width, height }
    }

    /// Reads the tile in column `x` of row `y`.
    pub fn tile(&self, x: usize, y: usize) -> (t: Tile)
        requires
            self.wf(),
            x < self.width,
            y < self.height,
        ensures
            t == at(self@, x as int, y as int),
    {
        assert(self@[y as int] == self.itself@[y as int]@);
        self.itself[y][x]
    }

    /// Writes the tile in column `x` of row `y`; every other tile stays.
    pub fn set_tile(&mut self, x: usize, y: usize, t: Tile)
        requires
            old(self).wf(),
            x < old(self).width,
            y < old(self).height,
        ensures
            final(self).wf(),
            final(self).width == old(self).width,
            final(self).height == old(self).height,
            same_shape(old(self)@, final(self)@),
            at(final(self)@, x as int, y as int) == t,
            forall|i: int, j: int|
                in_grid(old(self)@, i, j) && !(i == x && j == y) ==> #[trigger] at(
                    final(self)@,
                    i,
                    j,
                ) == at(old(self)@, i, j),
    {
        assert(self@[y as int] == self.itself@[y as int]@);
        self.itself[y][x] = t;
        proof {
            assert forall|j: int| 0 <= j < self.height implies (#[trigger] self@[j]).len()
                == self.width by {
                assert(old(self)@[j].len() == self.width);
            }
        }
    }

    /// Finds the first tile without a mine, row by row from the top and in
    /// each row from the left.
    fn first_free(&self) -> (p: (usize, usize))
        requires
            self.wf(),
            grid_count(self@, mined()) < self.width * self.height,
        ensures
            p.0 < self.width,
            p.1 < self.height,
            !at(self@, p.0 as int, p.1 as int).is_mine,
    {
        let w = self.width;
        let h = self.height;
        let mut y: usize = 0;
        while y < h
            invariant
                self.wf(),
                w == self.width,
                h == self.height,
                y <= h,
                forall|i: int, j: int|
                    0 <= j < y && 0 <= i < w ==> (#[trigger] at(self@, i, j)).is_mine,
            decreases h - y,
        {
            let mut x: usize = 0;
            while x < w
                invariant
                    self.wf(),
                    w == self.width,
                    h == self.height,
                    y < h,
                    x <= w,
                    forall|i: int, j: int|
                        0 <= j && 0 <= i < w && (j < y || (j == y && i < x)) ==> (#[trigger] at(
                            self@,
                            i,
                            j,
                        )).is_mine,
                decreases w - x,
            {
                if !self.tile(x, y).is_mine {
                    return (x, y);
                }
                x += 1;
            }
            y += 1;
        }
        proof {
            assert forall|i: int, j: int| in_grid(self@, i, j) implies mined()(
                #[trigger] at(self@, i, j),
            ) by {
                assert(at(self@, i, j).is_mine);
            }
            lemma_grid_count_bound(self@, mined(), w as int, h as int);
        }
        (0, 0)
    }

    /// Lays `count` mines on tiles drawn at random, after lifting the mines
    /// that were there. Opened tiles, flags and numbers stay as they are.
    ///
    /// Each mine goes to a tile drawn uniformly from the whole board. A draw
    /// that lands on a mine is repeated, up to `REDRAWS` times; should every
    /// one of them land on a mine, the first free tile takes the mine, so the
    /// call always ends with exactly `count` mines laid.
    pub fn place_random_mines(&mut self, count: usize)
        requires
            old(self).wf(),
            count <= old(self).width * old(self).height,
        ensures
            final(self).wf(),
            final(self).width == old(self).width,
            final(self).height == old(self).height,
            grid_count(final(self)@, mined()) == count,
            only_mines_differ(old(self)@, final(self)@),
    {
        let w = self.width;
        let h = self.height;
        for y in 0..h
            invariant
                self.wf(),
                old(self).wf(),
                self.width == w == old(self).width,
                self.height == h == old(self).height,
                forall|i: int, j: int|
                    in_grid(self@, i, j) ==> #[trigger] at(self@, i, j) == if j < y {
                        with_mine(at(old(self)@, i, j), false)
                    } else {
                        at(old(self)@, i, j)
                    },
        {
            for x in 0..w
                invariant
                    y < h,
                    self.wf(),
                    old(self).wf(),
                    self.width == w == old(self).width,
                    self.height == h == old(self).height,
                    forall|i: int, j: int|
                        in_grid(self@, i, j) ==> #[trigger] at(self@, i, j) == if j < y || (j == y
                            && i < x) {
                            with_mine(at(old(self)@, i, j), false)
                        } else {
                            at(old(self)@, i, j)
                        },
            {
                let t = self.tile(x, y);
                self.set_tile(
                    x,
                    y,
                    Tile {
                        is_mine: false,
                        is_opened: t.is_opened,
                        is_flagged: t.is_flagged,
                        number: t.number,
                    },
                );
            }
        }
        proof {
            assert forall|i: int, j: int| in_grid(self@, i, j) implies !mined()(
                #[trigger] at(self@, i, j),
            ) by {
                assert(!at(self@, i, j).is_mine);
            }
            lemma_grid_count_bound(self@, mined(), w as int, h as int);
        }
        let mut placed: usize = 0;
        while placed < count
            invariant
                self.wf(),
                old(self).wf(),
                self.width == w == old(self).width,
                self.height == h == old(self).height,
                placed <= count <= w * h,
                grid_count(self@, mined()) == placed,
                only_mines_differ(old(self)@, self@),
            decreases count - placed,
        {
            assert(w > 0 && h > 0) by (nonlinear_arith)
                requires
                    w * h > 0,
            ;
            let mut x = random_below(w);
            let mut y = random_below(h);
            let mut tries: usize = 0;
            while tries < REDRAWS && self.tile(x, y).is_mine
                invariant
                    self.wf(),
                    self.width == w,
                    self.height == h,
                    w > 0,
                    h > 0,
                    x < w,
                    y < h,
                    tries <= REDRAWS,
                decreases REDRAWS - tries,
            {
                x = random_below(w);
                y = random_below(h);
                tries += 1;
            }
            if self.tile(x, y).is_mine {
                let p = self.first_free();
                x = p.0;
                y = p.1;
            }
            let ghost before = self@;
            let t = self.tile(x, y);
            self.set_tile(
                x,
                y,
                Tile {
                    is_mine: true,
                    is_opened: t.is_opened,
                    is_flagged: t.is_flagged,
                    number: t.number,
                },
            );
            proof {
                lemma_grid_count_diff(before, self@, mined(), x as int, y as int);
                assert forall|i: int, j: int| in_grid(old(self)@, i, j) implies {
                    let a = at(old(self)@, i, j);
                    let b = #[trigger] at(self@, i, j);
                    &&& b.is_opened == a.is_opened
                    &&& b.is_flagged == a.is_flagged
                    &&& b.number == a.number
                } by {
                    let m = at(before, i, j);
                }
            }
            placed += 1;
        }
    }

    /// Closes every tile and takes every flag off the board. Mines and
    /// numbers stay.
    pub fn close_all(&mut self)
        requires
            old(self).wf(),
        ensures
            final(self).wf(),
            final(self).width == old(self).width,
            final(self).height == old(self).height,
            forall|x: int, y: int|
                in_grid(old(self)@, x, y) ==> #[trigger] at(final(self)@, x, y) == closed(
                    at(old(self)@, x, y),
                ),
    {
        let w = self.width;
        let h = self.height;
        for y in 0..h
            invariant
                self.wf(),
                old(self).wf(),
                self.width == w == old(self).width,
                self.height == h == old(self).height,
                forall|i: int, j: int|
                    in_grid(self@, i, j) ==> #[trigger] at(self@, i, j) == if j < y {
                        closed(at(old(self)@, i, j))
                    } else {
                        at(old(self)@, i, j)
                    },
        {
            for x in 0..w
                invariant
                    y < h,
                    self.wf(),
                    old(self).wf(),
                    self.width == w == old(self).width,
                    self.height == h == old(self).height,
                    forall|i: int, j: int|
                        in_grid(self@, i, j) ==> #[trigger] at(self@, i, j) == if j < y || (j == y
                            && i < x) {
                            closed(at(old(self)@, i, j))
                        } else {
                            at(old(self)@, i, j)
                        },
            {
                let t = self.tile(x, y);
                self.set_tile(
                    x,
                    y,
                    Tile {
                        is_mine: t.is_mine,
                        is_opened: false,
                        is_flagged: false,
                        number: t.number,
                    },
                );
            }
        }
    }

    /// Counts the mines that carry a flag.
    pub fn count_flagged_mines(&self) -> (n: usize)
        requires
            self.wf(),
            self.width * self.height <= usize::MAX,
        ensures
            n == grid_count(self@, flagged_mine()),
    {
        let w = self.width;
        let h = self.height;
        let mut n: usize = 0;
        for y in 0..h
            invariant
                self.wf(),
                w == self.width,
                h == self.height,
                w * h <= usize::MAX,
                n == grid_count(self@.take(y as int), flagged_mine()),
        {
            let ghost above = self@.take(y as int);
            let ghost row = self@[y as int];
            for x in 0..w
                invariant
                    y < h,
                    self.wf(),
                    w == self.width,
                    h == self.height,
                    w * h <= usize::MAX,
                    above == self@.take(y as int),
                    row == self@[y as int],
                    row.len() == w,
                    n == grid_count(above, flagged_mine()) + row_count(
                        row.take(x as int),
                        flagged_mine(),
                    ),
            {
                let t = self.tile(x, y);
                proof {
                    assert(row.take(x + 1).drop_last() =~= row.take(x as int));
                    lemma_row_count_bound(row.take(x + 1), flagged_mine());
                    lemma_grid_count_bound(above, flagged_mine(), w as int, y as int);
                    assert(w * y + w <= w * h) by (nonlinear_arith)
                        requires
                            y + 1 <= h,
                            w >= 0,
                    ;
                }
                if t.is_mine && t.is_flagged {
                    n += 1;
                }
            }
            proof {
                assert(row.take(w as int) =~= row);
                assert(self@.take(y + 1).drop_last() =~= above);
                assert(self@.take(y + 1).last() == row);
            }
        }
        proof {
            assert(self@.take(h as int) =~= self@);
        }
        n
    }

    /// Counts the mines round one tile.
    fn count_adjacent(&self, x: usize, y: usize) -> (c: i32)
        requires
            self.wf(),
            x < self.width,
            y < self.height,
        ensures
            c == adjacent_mines(self@, x as int, y as int),
    {
        reveal(adjacent_mines);
        let w = self.width;
        let h = self.height;
        let mut c: i32 = 0;
        if y > 0 {
            if x > 0 && self.tile(x - 1, y - 1).is_mine {
                c += 1;
            }
            if self.tile(x, y - 1).is_mine {
                c += 1;
            }
            if x + 1 < w && self.tile(x + 1, y - 1).is_mine {
                c += 1;
            }
        }
        if x > 0 && self.tile(x - 1, y).is_mine {
            c += 1;
        }
        if x + 1 < w && self.tile(x + 1, y).is_mine {
            c += 1;
        }
        if y + 1 < h {
            if x > 0 && self.tile(x - 1, y + 1).is_mine {
                c += 1;
            }
            if self.tile(x, y + 1).is_mine {
                c += 1;
            }
            if x + 1 < w && self.tile(x + 1, y + 1).is_mine {
                c += 1;
            }
        }
        c
    }

    /// Gives every tile its number: the count of mines among its neighbours.
    /// Mines, flags and opened tiles stay as they are.
    pub fn recalculate_adjacent_mines(&mut self)
        requires
            old(self).wf(),
        ensures
            final(self).wf(),
            final(self).width == old(self).width,
            final(self).height == old(self).height,
            renumbered(old(self)@, final(self)@),
            forall|x: int, y: int|
                in_grid(final(self)@, x, y) ==> (#[trigger] at(final(self)@, x, y)).number
                    == adjacent_mines(final(self)@, x, y),
    {
        let w = self.width;
        let h = self.height;
        for y in 0..h
            invariant
                self.wf(),
                old(self).wf(),
                self.width == w == old(self).width,
                self.height == h == old(self).height,
                forall|i: int, j: int|
                    in_grid(self@, i, j) ==> #[trigger] at(self@, i, j) == if j < y {
                        with_number(at(old(self)@, i, j), adjacent_mines(old(self)@, i, j))
                    } else {
                        at(old(self)@, i, j)
                    },
        {
            for x in 0..w
                invariant
                    y < h,
                    self.wf(),
                    old(self).wf(),
                    self.width == w == old(self).width,
                    self.height == h == old(self).height,
                    forall|i: int, j: int|
                        in_grid(self@, i, j) ==> #[trigger] at(self@, i, j) == if j < y || (j == y
                            && i < x) {
                            with_number(at(old(self)@, i, j), adjacent_mines(old(self)@, i, j))
                        } else {
                            at(old(self)@, i, j)
                        },
            {
                let c = self.count_adjacent(x, y);
                proof {
                    lemma_same_mines_same_numbers(old(self)@, self@, x as int, y as int);
                }
                let t = self.tile(x, y);
                self.set_tile(
                    x,
                    y,
                    Tile {
                        is_mine: t.is_mine,
                        is_opened: t.is_opened,
                        is_flagged: t.is_flagged,
                        number: c,
                    },
                );
            }
        }
        proof {
            assert forall|x: int, y: int| in_grid(self@, x, y) implies (#[trigger] at(
                self@,
                x,
                y,
            )).number == adjacent_mines(self@, x, y) by {
                lemma_adjacent_mines_bound(old(self)@, x, y);
                lemma_same_mines_same_numbers(old(self)@, self@, x, y);
            }
        }
    }
}

/// Score, flag budget and outcome of one game.
#[derive(Debug)]
pub struct GameState {
    pub score: i32,
    /// Mines minus flags on the board; negative once more flags are planted
    /// than there are mines.
    pub flags_left: i32,
    pub won: bool,
    pub lost: bool,
    pub message: String,
}

impl GameState {
    /// The state at the start of a game with `mines` mines: as many flags
    /// left as there are mines, nothing scored, neither won nor lost, no
    /// message.
    pub fn new(mines: usize) -> (s: GameState)
        ensures
            s.score == 0,
            s.flags_left == mines as i32,
            mines <= i32::MAX ==> s.flags_left == mines,
            !s.won,
            !s.lost,
            s.message@.len() == 0,
    {
        GameState {
            score: 0,
            flags_left: #[verifier::truncate]
            (mines as i32),
            won: false,
            lost: false,
            message: String::new(),
        }
    }

    /// A flag was planted: one flag less is left. The count may fall below
    /// zero.
    pub fn put_flag(&mut self)
        requires
            old(self).flags_left > i32::MIN,
        ensures
            final(self).flags_left == old(self).flags_left - 1,
            final(self).score == old(self).score,
            final(self).won == old(self).won,
            final(self).lost == old(self).lost,
            final(self).message == old(self).message,
    {
        self.flags_left -= 1;
    }

    /// A flag was taken back: one flag more is left.
    pub fn take_flag(&mut self)
        requires
            old(self).flags_left < i32::MAX,
        ensures
            final(self).flags_left == old(self).flags_left + 1,
            final(self).score == old(self).score,
            final(self).won == old(self).won,
            final(self).lost == old(self).lost,
            final(self).message == old(self).message,
    {
        self.flags_left += 1;
    }
}

/// Numbering a board a second time, with the mines where they were, changes
/// nothing.
pub proof fn lemma_renumbered_twice(a: Grid, b: Grid, c: Grid)
    requires
        renumbered(a, b),
        renumbered(b, c),
    ensures
        same_shape(b, c),
        forall|x: int, y: int| in_grid(b, x, y) ==> #[trigger] at(c, x, y) == at(b, x, y),
{
    assert forall|x: int, y: int| in_grid(b, x, y) implies #[trigger] at(c, x, y) == at(b, x, y) by {
        assert(in_grid(a, x, y));
        lemma_same_mines_same_numbers(a, b, x, y);
    }
}

/// A tile has at most eight neighbours, and so at most eight mines round it.
pub proof fn lemma_adjacent_mines_bound(g: Grid, x: int, y: int)
    ensures
        0 <= adjacent_mines(g, x, y) <= 8,
{
    reveal(adjacent_mines);
}

/// Grids with the same mines give a tile the same number.
pub proof fn lemma_same_mines_same_numbers(a: Grid, b: Grid, x: int, y: int)
    requires
        same_shape(a, b),
        forall|i: int, j: int|
            in_grid(a, i, j) ==> (#[trigger] at(a, i, j)).is_mine == at(b, i, j).is_mine,
    ensures
        adjacent_mines(a, x, y) == adjacent_mines(b, x, y),
{
    reveal(adjacent_mines);
}

} // verus!
