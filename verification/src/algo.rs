//! Opening a region of the board: from a tile without neighbouring mines the
//! opening spreads over its four side neighbours and stops at numbered tiles.

use crate::count::{
    at, grid_count, in_grid, lemma_grid_count_diff, lemma_grid_count_le, same_shape, unopened,
    Grid,
};
use crate::data::{Board, Tile};
use vstd::prelude::*;

verus! {

/// Flood fill passes such a tile by: it is open already, flagged, or a mine.
pub open spec fn blocked(t: Tile) -> bool {
    t.is_opened || t.is_flagged || t.is_mine
}

/// Nothing is left to do at `(x, y)`: it lies off the grid or is blocked.
pub open spec fn settled(g: Grid, x: int, y: int) -> bool {
    !in_grid(g, x, y) || blocked(at(g, x, y))
}

/// The two places share a side.
pub open spec fn touches(x1: int, y1: int, x2: int, y2: int) -> bool {
    (x1 == x2 && (y1 == y2 + 1 || y1 + 1 == y2)) || (y1 == y2 && (x1 == x2 + 1 || x1 + 1 == x2))
}

/// The tile `t`, opened.
pub open spec fn opened(t: Tile) -> Tile {
    Tile { is_mine: t.is_mine, is_opened: true, is_flagged: t.is_flagged, number: t.number }
}

/// From `pre` to `post` tiles were opened and nothing else happened: mines,
/// flags and numbers are the same, no open tile was closed, and no mine was
/// opened.
#[verifier::opaque]
pub open spec fn only_opens(pre: Grid, post: Grid) -> bool {
    &&& same_shape(pre, post)
    &&& forall|x: int, y: int|
        in_grid(pre, x, y) ==> {
            let a = at(pre, x, y);
            let b = #[trigger] at(post, x, y);
            &&& b.is_mine == a.is_mine
            &&& b.is_flagged == a.is_flagged
            &&& b.number == a.number
            &&& a.is_opened ==> b.is_opened
            &&& b.is_opened && !a.is_opened ==> !a.is_mine
        }
}

/// Every tile without neighbouring mines that was opened from `pre` to `post`
/// carries no flag, and the opening went on to each of its four side
/// neighbours: each is settled in `post`.
#[verifier::opaque]
pub open spec fn spread_out(pre: Grid, post: Grid) -> bool {
    forall|x: int, y: int|
        in_grid(pre, x, y) && (#[trigger] at(post, x, y)).is_opened && !at(pre, x, y).is_opened
            && !(at(pre, x, y).number > 0) ==> {
            &&& !at(pre, x, y).is_flagged
            &&& settled(post, x, y - 1)
            &&& settled(post, x, y + 1)
            &&& settled(post, x - 1, y)
            &&& settled(post, x + 1, y)
        }
}

/// What a numbered tile at `(x, y)` opens: itself, and of its four side
/// neighbours those that are numbered and hold no mine.
#[verifier::opaque]
pub open spec fn opens_border(pre: Grid, post: Grid, x: int, y: int) -> bool {
    forall|i: int, j: int|
        in_grid(pre, i, j) ==> (#[trigger] at(post, i, j)).is_opened == (at(pre, i, j).is_opened
            || (i == x && j == y) || (touches(i, j, x, y) && at(pre, i, j).number > 0 && !at(
            pre,
            i,
            j,
        ).is_mine))
}

/// The two grids hold the same tiles.
#[verifier::opaque]
pub open spec fn same_tiles(pre: Grid, post: Grid) -> bool {
    &&& same_shape(pre, post)
    &&& forall|x: int, y: int| in_grid(pre, x, y) ==> #[trigger] at(post, x, y) == at(pre, x, y)
}

/// The flood passes through such a tile: it is closed, carries no flag,
/// holds no mine and has no mine next to it.
pub open spec fn passable(t: Tile) -> bool {
    !blocked(t) && !(t.number > 0)
}

/// A walk over the grid from side neighbour to side neighbour on which every
/// tile but perhaps the last is passable.
pub open spec fn flood_walk(g: Grid, walk: Seq<(int, int)>) -> bool {
    &&& walk.len() > 0
    &&& forall|k: int| 0 <= k < walk.len() ==> in_grid(g, (#[trigger] walk[k]).0, walk[k].1)
    &&& forall|k: int|
        0 <= k < walk.len() - 1 ==> {
            let p = #[trigger] walk[k];
            let q = walk[k + 1];
            passable(at(g, p.0, p.1)) && touches(q.0, q.1, p.0, p.1)
        }
}

/// The walk leads from `(x, y)` to `(cx, cy)`.
pub open spec fn walk_joins(g: Grid, walk: Seq<(int, int)>, x: int, y: int, cx: int, cy: int) -> bool {
    flood_walk(g, walk) && walk[0] == (x, y) && walk.last() == (cx, cy)
}

/// The flood from `(x, y)` comes to `(cx, cy)` and finds a tile there that
/// is not blocked.
pub open spec fn reached(g: Grid, x: int, y: int, cx: int, cy: int) -> bool {
    !blocked(at(g, cx, cy)) && exists|walk: Seq<(int, int)>| walk_joins(g, walk, x, y, cx, cy)
}

/// The flood from `(x, y)` comes to a numbered tile at `(dx, dy)`.
pub open spec fn reached_numbered(g: Grid, x: int, y: int, dx: int, dy: int) -> bool {
    in_grid(g, dx, dy) && at(g, dx, dy).number > 0 && reached(g, x, y, dx, dy)
}

/// The flood from `(x, y)` has cause to open the tile at `(cx, cy)`: it comes
/// there, or the tile is numbered and safe and the flood comes to a numbered
/// tile at one of its sides.
pub open spec fn caused(g: Grid, x: int, y: int, cx: int, cy: int) -> bool {
    ||| reached(g, x, y, cx, cy)
    ||| {
        &&& at(g, cx, cy).number > 0
        &&& !at(g, cx, cy).is_mine
        &&& {
            ||| reached_numbered(g, x, y, cx, cy - 1)
            ||| reached_numbered(g, x, y, cx, cy + 1)
            ||| reached_numbered(g, x, y, cx - 1, cy)
            ||| reached_numbered(g, x, y, cx + 1, cy)
        }
    }
}

/// Whatever was opened from `a` to `b`, the flood over `base` from `(x, y)`
/// had cause to open.
#[verifier::opaque]
pub open spec fn within(base: Grid, x: int, y: int, a: Grid, b: Grid) -> bool {
    forall|cx: int, cy: int|
        in_grid(a, cx, cy) && (#[trigger] at(b, cx, cy)).is_opened && !at(a, cx, cy).is_opened
            ==> caused(base, x, y, cx, cy)
}

/// How a flood fill from `(x, y)` takes the grid from `pre` to `post`.
///
/// From a blocked tile nothing changes. Otherwise the tile is opened. If it
/// is numbered, it opens its numbered safe side neighbours and that is all.
/// If not, the opening spreads: whatever tile without neighbouring mines was
/// opened has all four side neighbours settled. Either way no tile is opened
/// without cause.
pub open spec fn flooded(pre: Grid, post: Grid, x: int, y: int) -> bool {
    &&& only_opens(pre, post)
    &&& spread_out(pre, post)
    &&& within(pre, x, y, pre, post)
    &&& blocked(at(pre, x, y)) ==> same_tiles(pre, post)
    &&& !blocked(at(pre, x, y)) ==> at(post, x, y).is_opened
    &&& !blocked(at(pre, x, y)) && at(pre, x, y).number > 0 ==> opens_border(pre, post, x, y)
}

/// A grid is a flood of itself from a blocked tile, and of any tile as far
/// as opening and spreading go.
pub proof fn lemma_spread_none(g: Grid)
    ensures
        only_opens(g, g),
        spread_out(g, g),
        same_tiles(g, g),
{
    reveal(only_opens);
    reveal(spread_out);
    reveal(same_tiles);
}

/// Opening in two steps is opening, and what spread in each step has spread
/// in both together.
pub proof fn lemma_spread_twice(a: Grid, b: Grid, c: Grid)
    requires
        only_opens(a, b),
        spread_out(a, b),
        only_opens(b, c),
        spread_out(b, c),
    ensures
        only_opens(a, c),
        spread_out(a, c),
{
    reveal(only_opens);
    reveal(spread_out);
    assert forall|x: int, y: int| in_grid(a, x, y) implies {
        let p = at(a, x, y);
        let q = #[trigger] at(c, x, y);
        &&& q.is_mine == p.is_mine
        &&& q.is_flagged == p.is_flagged
        &&& q.number == p.number
        &&& p.is_opened ==> q.is_opened
        &&& q.is_opened && !p.is_opened ==> !p.is_mine
    } by {
        assert(in_grid(b, x, y));
        let m = at(b, x, y);
    }
    assert forall|x: int, y: int|
        in_grid(a, x, y) && (#[trigger] at(c, x, y)).is_opened && !at(a, x, y).is_opened && !(at(
            a,
            x,
            y,
        ).number > 0) implies {
        &&& !at(a, x, y).is_flagged
        &&& settled(c, x, y - 1)
        &&& settled(c, x, y + 1)
        &&& settled(c, x - 1, y)
        &&& settled(c, x + 1, y)
    } by {
        assert(in_grid(b, x, y));
        let m = at(b, x, y);
        lemma_settled_stays(b, c, x, y - 1);
        lemma_settled_stays(b, c, x, y + 1);
        lemma_settled_stays(b, c, x - 1, y);
        lemma_settled_stays(b, c, x + 1, y);
    }
}

/// A settled place stays settled while tiles are only opened.
pub proof fn lemma_settled_stays(pre: Grid, post: Grid, x: int, y: int)
    requires
        only_opens(pre, post),
    ensures
        settled(pre, x, y) ==> settled(post, x, y),
        in_grid(pre, x, y) == in_grid(post, x, y),
{
    reveal(only_opens);
    if in_grid(pre, x, y) {
        let b = at(post, x, y);
    }
}

/// After a flood fill from a tile, that tile is settled.
pub proof fn lemma_flooded_settles(pre: Grid, post: Grid, x: int, y: int)
    requires
        flooded(pre, post, x, y),
    ensures
        settled(post, x, y),
{
    lemma_settled_stays(pre, post, x, y);
}

/// Opening tiles leaves no more tiles closed than there were.
pub proof fn lemma_opens_count(pre: Grid, post: Grid)
    requires
        only_opens(pre, post),
    ensures
        same_shape(pre, post),
        grid_count(post, unopened()) <= grid_count(pre, unopened()),
{
    reveal(only_opens);
    assert forall|x: int, y: int|
        in_grid(post, x, y) && unopened()(#[trigger] at(post, x, y)) implies unopened()(
        at(pre, x, y),
    ) by {
        assert(in_grid(pre, x, y));
    }
    lemma_grid_count_le(post, pre, unopened());
}

/// A flood fill opens every tile that a walk through passable tiles reaches
/// from the tile it starts at, provided the tile carries no flag and holds no
/// mine. On a board without mines, flags or open tiles that is every tile
/// joined to the start.
pub proof fn lemma_flood_opens_region(
    pre: Grid,
    post: Grid,
    x: int,
    y: int,
    walk: Seq<(int, int)>,
)
    requires
        flooded(pre, post, x, y),
        flood_walk(pre, walk),
        walk[0] == (x, y),
        !at(pre, walk.last().0, walk.last().1).is_flagged,
        !at(pre, walk.last().0, walk.last().1).is_mine,
    ensures
        at(post, walk.last().0, walk.last().1).is_opened,
    decreases walk.len(),
{
    reveal(only_opens);
    reveal(spread_out);
    let q = walk.last();
    let tq = at(post, q.0, q.1);
    if walk.len() > 1 {
        let front = walk.drop_last();
        let p = front.last();
        assert(p == walk[walk.len() - 2]);
        assert(flood_walk(pre, front)) by {
            assert forall|k: int| 0 <= k < front.len() implies in_grid(
                pre,
                (#[trigger] front[k]).0,
                front[k].1,
            ) by {
                assert(front[k] == walk[k]);
            }
            assert forall|k: int| 0 <= k < front.len() - 1 implies {
                let a = #[trigger] front[k];
                let b = front[k + 1];
                passable(at(pre, a.0, a.1)) && touches(b.0, b.1, a.0, a.1)
            } by {
                assert(front[k] == walk[k]);
                assert(front[k + 1] == walk[k + 1]);
            }
        }
        assert(passable(at(pre, p.0, p.1)) && touches(q.0, q.1, p.0, p.1));
        lemma_flood_opens_region(pre, post, x, y, front);
        let tp = at(post, p.0, p.1);
        assert(settled(post, q.0, q.1));
    }
}

/// On a board without a numbered tile a flood fill opens the tiles that the
/// flood comes to, and no others: a tile is opened by it exactly if a walk
/// through closed tiles without flag or mine leads to it from the start and
/// the tile is such a tile itself.
pub proof fn lemma_flood_without_numbers(pre: Grid, post: Grid, x: int, y: int, cx: int, cy: int)
    requires
        flooded(pre, post, x, y),
        in_grid(pre, cx, cy),
        forall|i: int, j: int| in_grid(pre, i, j) ==> !((#[trigger] at(pre, i, j)).number > 0),
    ensures
        (at(post, cx, cy).is_opened && !at(pre, cx, cy).is_opened) <==> reached(pre, x, y, cx, cy),
{
    if reached(pre, x, y, cx, cy) {
        let walk = choose|walk: Seq<(int, int)>| walk_joins(pre, walk, x, y, cx, cy);
        lemma_flood_opens_region(pre, post, x, y, walk);
    }
    if at(post, cx, cy).is_opened && !at(pre, cx, cy).is_opened {
        reveal(within);
        assert(caused(pre, x, y, cx, cy));
    }
}

/// Opening in two steps is opening.
pub proof fn lemma_opens_twice(a: Grid, b: Grid, c: Grid)
    requires
        only_opens(a, b),
        only_opens(b, c),
    ensures
        only_opens(a, c),
{
    reveal(only_opens);
    assert forall|x: int, y: int| in_grid(a, x, y) implies {
        let p = at(a, x, y);
        let q = #[trigger] at(c, x, y);
        &&& q.is_mine == p.is_mine
        &&& q.is_flagged == p.is_flagged
        &&& q.number == p.number
        &&& p.is_opened ==> q.is_opened
        &&& q.is_opened && !p.is_opened ==> !p.is_mine
    } by {
        assert(in_grid(b, x, y));
        let m = at(b, x, y);
    }
}

/// Where nothing was opened, nothing was opened without cause.
pub proof fn lemma_within_none(g: Grid, x: int, y: int)
    ensures
        within(g, x, y, g, g),
{
    reveal(within);
}

/// The flood comes to the tile it starts at.
pub proof fn lemma_reached_start(g: Grid, x: int, y: int)
    requires
        in_grid(g, x, y),
        !blocked(at(g, x, y)),
    ensures
        reached(g, x, y, x, y),
{
    let walk = seq![(x, y)];
    assert(walk_joins(g, walk, x, y, x, y));
}

/// Opening the tile the flood starts at is opening with cause.
proof fn lemma_within_start(g0: Grid, s0: Grid, x: int, y: int)
    requires
        opened_at(g0, s0, x, y),
        !blocked(at(g0, x, y)),
    ensures
        within(g0, x, y, g0, s0),
        only_opens(g0, s0),
{
    reveal(within);
    reveal(only_opens);
    lemma_reached_start(g0, x, y);
}

/// A flood that starts beside a passable tile, on a grid where more may be
/// open already, comes nowhere that the flood from that tile would not come.
pub proof fn lemma_reached_rebase(
    g0: Grid,
    s: Grid,
    x: int,
    y: int,
    nx: int,
    ny: int,
    cx: int,
    cy: int,
)
    requires
        only_opens(g0, s),
        in_grid(g0, x, y),
        passable(at(g0, x, y)),
        touches(nx, ny, x, y),
        in_grid(s, cx, cy),
        reached(s, nx, ny, cx, cy),
    ensures
        reached(g0, x, y, cx, cy),
{
    reveal(only_opens);
    let w = choose|w: Seq<(int, int)>| walk_joins(s, w, nx, ny, cx, cy);
    let w2 = seq![(x, y)] + w;
    assert forall|k: int| 0 <= k < w2.len() implies in_grid(g0, (#[trigger] w2[k]).0, w2[k].1) by {
        if k > 0 {
            assert(w2[k] == w[k - 1]);
        }
    }
    assert forall|k: int| 0 <= k < w2.len() - 1 implies {
        let p = #[trigger] w2[k];
        let q = w2[k + 1];
        passable(at(g0, p.0, p.1)) && touches(q.0, q.1, p.0, p.1)
    } by {
        assert(w2[k + 1] == w[k]);
        if k > 0 {
            assert(w2[k] == w[k - 1]);
            let p = w[k - 1];
            assert(in_grid(s, p.0, p.1));
            let t = at(s, p.0, p.1);
            assert(passable(t));
        }
    }
    assert(w2.last() == w.last());
    assert(walk_joins(g0, w2, x, y, cx, cy));
    let t = at(s, cx, cy);
}

/// What a flood that starts beside a passable tile opens with cause, the
/// flood from that tile has cause to open too.
proof fn lemma_within_rebase(g0: Grid, s: Grid, s2: Grid, x: int, y: int, nx: int, ny: int)
    requires
        only_opens(g0, s),
        in_grid(g0, x, y),
        passable(at(g0, x, y)),
        touches(nx, ny, x, y),
        within(s, nx, ny, s, s2),
    ensures
        within(g0, x, y, s, s2),
{
    reveal(within);
    assert forall|cx: int, cy: int|
        in_grid(s, cx, cy) && (#[trigger] at(s2, cx, cy)).is_opened && !at(s, cx, cy).is_opened
        implies caused(g0, x, y, cx, cy) by {
        assert(caused(s, nx, ny, cx, cy));
        assert(at(g0, cx, cy).number == at(s, cx, cy).number && at(g0, cx, cy).is_mine == at(
            s,
            cx,
            cy,
        ).is_mine) by {
            reveal(only_opens);
        }
        if reached(s, nx, ny, cx, cy) {
            lemma_reached_rebase(g0, s, x, y, nx, ny, cx, cy);
        } else {
            lemma_numbered_rebase(g0, s, x, y, nx, ny, cx, cy - 1);
            lemma_numbered_rebase(g0, s, x, y, nx, ny, cx, cy + 1);
            lemma_numbered_rebase(g0, s, x, y, nx, ny, cx - 1, cy);
            lemma_numbered_rebase(g0, s, x, y, nx, ny, cx + 1, cy);
        }
    }
}

/// The same of a numbered tile that the flood comes to.
proof fn lemma_numbered_rebase(
    g0: Grid,
    s: Grid,
    x: int,
    y: int,
    nx: int,
    ny: int,
    dx: int,
    dy: int,
)
    requires
        only_opens(g0, s),
        in_grid(g0, x, y),
        passable(at(g0, x, y)),
        touches(nx, ny, x, y),
    ensures
        reached_numbered(s, nx, ny, dx, dy) ==> reached_numbered(g0, x, y, dx, dy),
{
    if reached_numbered(s, nx, ny, dx, dy) {
        lemma_reached_rebase(g0, s, x, y, nx, ny, dx, dy);
        assert(in_grid(g0, dx, dy) && at(g0, dx, dy).number == at(s, dx, dy).number) by {
            reveal(only_opens);
        }
    }
}

/// What was opened with cause in each of two steps was opened with cause in
/// both together.
proof fn lemma_within_chain(base: Grid, x: int, y: int, a: Grid, b: Grid, c: Grid)
    requires
        same_shape(a, b),
        within(base, x, y, a, b),
        within(base, x, y, b, c),
    ensures
        within(base, x, y, a, c),
{
    reveal(within);
    assert forall|cx: int, cy: int|
        in_grid(a, cx, cy) && (#[trigger] at(c, cx, cy)).is_opened && !at(a, cx, cy).is_opened
        implies caused(base, x, y, cx, cy) by {
        assert(in_grid(b, cx, cy));
        let m = at(b, cx, cy);
    }
}

/// The grid with the tile at `(x, y)` opened.
pub open spec fn open_at(g: Grid, x: int, y: int) -> Grid {
    g.update(y, g[y].update(x, opened(g[y][x])))
}

/// The grid with the tile at `(x, y)` opened, if there is such a tile and it
/// is numbered and holds no mine.
pub open spec fn open_numbered_at(g: Grid, x: int, y: int) -> Grid {
    if in_grid(g, x, y) && at(g, x, y).number > 0 && !at(g, x, y).is_mine {
        open_at(g, x, y)
    } else {
        g
    }
}

/// The grid after the four side neighbours of `(x, y)` had their turn to be
/// opened as numbered tiles: above, below, left, right.
pub open spec fn open_border_at(g: Grid, x: int, y: int) -> Grid {
    open_numbered_at(
        open_numbered_at(open_numbered_at(open_numbered_at(g, x, y - 1), x, y + 1), x - 1, y),
        x + 1,
        y,
    )
}

/// The grid after a flood fill from `(x, y)` that may go `fuel` tiles deep.
///
/// Off the grid and on a blocked tile nothing happens. Else the tile is
/// opened; if it is numbered, its side neighbours have their turn as numbered
/// tiles; if not, the flood goes on from the tile above, then from the one
/// below, from the left one and from the right one, each on the grid as the
/// one before left it.
pub open spec fn flood(g: Grid, x: int, y: int, fuel: nat) -> Grid
    decreases fuel,
{
    if fuel == 0 || !in_grid(g, x, y) || blocked(at(g, x, y)) {
        g
    } else if at(g, x, y).number > 0 {
        open_border_at(open_at(g, x, y), x, y)
    } else {
        let s0 = open_at(g, x, y);
        let s1 = flood(s0, x, y - 1, (fuel - 1) as nat);
        let s2 = flood(s1, x, y + 1, (fuel - 1) as nat);
        let s3 = flood(s2, x - 1, y, (fuel - 1) as nat);
        flood(s3, x + 1, y, (fuel - 1) as nat)
    }
}

/// The grid after a flood fill from `(x, y)`. No flood goes deeper than there
/// are closed tiles.
pub open spec fn flood_filled(g: Grid, x: int, y: int) -> Grid {
    flood(g, x, y, grid_count(g, unopened()))
}

/// Grids of the same shape that hold the same tiles are the same grid.
pub proof fn lemma_grid_ext(a: Grid, b: Grid)
    requires
        same_shape(a, b),
        forall|x: int, y: int| in_grid(a, x, y) ==> #[trigger] at(a, x, y) == at(b, x, y),
    ensures
        a == b,
{
    assert forall|y: int| 0 <= y < a.len() implies a[y] == b[y] by {
        assert forall|x: int| 0 <= x < a[y].len() implies a[y][x] == b[y][x] by {
            assert(in_grid(a, x, y) && at(a, x, y) == at(b, x, y));
        }
        assert(a[y] =~= b[y]);
    }
    assert(a =~= b);
}

/// The grid `b` is `a` with the tile at `(x, y)` opened.
pub open spec fn opened_at(a: Grid, b: Grid, x: int, y: int) -> bool {
    &&& same_shape(a, b)
    &&& in_grid(a, x, y)
    &&& at(b, x, y) == opened(at(a, x, y))
    &&& forall|i: int, j: int|
        in_grid(a, i, j) && !(i == x && j == y) ==> #[trigger] at(b, i, j) == at(a, i, j)
}

/// The flood from a tile without neighbouring mines: the tile is opened, the
/// opening spreads from there, and in the end its four neighbours are settled.
proof fn lemma_flood_from_zero(g0: Grid, s0: Grid, s4: Grid, x: int, y: int)
    requires
        !blocked(at(g0, x, y)),
        !(at(g0, x, y).number > 0),
        opened_at(g0, s0, x, y),
        only_opens(s0, s4),
        spread_out(s0, s4),
        within(g0, x, y, g0, s4),
        settled(s4, x, y - 1),
        settled(s4, x, y + 1),
        settled(s4, x - 1, y),
        settled(s4, x + 1, y),
    ensures
        flooded(g0, s4, x, y),
{
    reveal(only_opens);
    reveal(spread_out);
    assert(only_opens(g0, s4)) by {
        assert forall|i: int, j: int| in_grid(g0, i, j) implies {
            let a = at(g0, i, j);
            let b = #[trigger] at(s4, i, j);
            &&& b.is_mine == a.is_mine
            &&& b.is_flagged == a.is_flagged
            &&& b.number == a.number
            &&& a.is_opened ==> b.is_opened
            &&& b.is_opened && !a.is_opened ==> !a.is_mine
        } by {
            let m = at(s0, i, j);
        }
    }
    assert(spread_out(g0, s4)) by {
        assert forall|i: int, j: int|
            in_grid(g0, i, j) && (#[trigger] at(s4, i, j)).is_opened && !at(g0, i, j).is_opened
                && !(at(g0, i, j).number > 0) implies {
            &&& !at(g0, i, j).is_flagged
            &&& settled(s4, i, j - 1)
            &&& settled(s4, i, j + 1)
            &&& settled(s4, i - 1, j)
            &&& settled(s4, i + 1, j)
        } by {
            let m = at(s0, i, j);
        }
    }
    let m = at(s4, x, y);
}

/// The flood from a numbered tile: the tile and its numbered safe side
/// neighbours are opened, one after the other.
proof fn lemma_flood_from_numbered(g: Seq<Grid>, x: int, y: int)
    requires
        g.len() == 6,
        !blocked(at(g[0], x, y)),
        at(g[0], x, y).number > 0,
        opened_at(g[0], g[1], x, y),
        numbered_opened_at(g[1], g[2], x, y - 1),
        numbered_opened_at(g[2], g[3], x, y + 1),
        numbered_opened_at(g[3], g[4], x - 1, y),
        numbered_opened_at(g[4], g[5], x + 1, y),
    ensures
        flooded(g[0], g[5], x, y),
{
    reveal(only_opens);
    reveal(spread_out);
    reveal(opens_border);
    reveal(within);
    lemma_reached_start(g[0], x, y);
    assert forall|i: int, j: int| in_grid(g[0], i, j) implies {
        let a = at(g[0], i, j);
        let b = #[trigger] at(g[5], i, j);
        &&& b.is_mine == a.is_mine
        &&& b.is_flagged == a.is_flagged
        &&& b.number == a.number
        &&& b.is_opened == (a.is_opened || (i == x && j == y) || (touches(i, j, x, y) && a.number
            > 0 && !a.is_mine))
    } by {
        let t1 = at(g[1], i, j);
        let t2 = at(g[2], i, j);
        let t3 = at(g[3], i, j);
        let t4 = at(g[4], i, j);
        assert(in_grid(g[1], i, j) && in_grid(g[2], i, j) && in_grid(g[3], i, j) && in_grid(
            g[4],
            i,
            j,
        ));
    }
}

/// The grid `b` is `a`, but that the tile at `(x, y)`, if there is one and it
/// is numbered and safe, is open.
pub open spec fn numbered_opened_at(a: Grid, b: Grid, x: int, y: int) -> bool {
    &&& same_shape(a, b)
    &&& forall|i: int, j: int|
        in_grid(a, i, j) ==> #[trigger] at(b, i, j) == if i == x && j == y && at(a, i, j).number > 0
            && !at(a, i, j).is_mine {
            opened(at(a, i, j))
        } else {
            at(a, i, j)
        }
}

/// Opens the tile at `(x, y)` if it is numbered and holds no mine.
fn open_numbered(board: &mut Board, x: usize, y: usize)
    requires
        old(board).wf(),
        x < old(board).width,
        y < old(board).height,
    ensures
        final(board).wf(),
        final(board).width == old(board).width,
        final(board).height == old(board).height,
        numbered_opened_at(old(board)@, final(board)@, x as int, y as int),
        final(board)@ == open_numbered_at(old(board)@, x as int, y as int),
{
    let t = board.tile(x, y);
    if t.number > 0 && !t.is_mine {
        board.set_tile(
            x,
            y,
            Tile { is_mine: t.is_mine, is_opened: true, is_flagged: t.is_flagged, number: t.number },
        );
        proof {
            lemma_grid_ext(board@, open_at(old(board)@, x as int, y as int));
        }
    }
}

/// Opens the numbered safe tiles among the four side neighbours of `(x, y)`.
fn open_border(board: &mut Board, x: usize, y: usize, Ghost(g0): Ghost<Grid>)
    requires
        old(board).wf(),
        x < old(board).width,
        y < old(board).height,
        !blocked(at(g0, x as int, y as int)),
        at(g0, x as int, y as int).number > 0,
        opened_at(g0, old(board)@, x as int, y as int),
    ensures
        final(board).wf(),
        final(board).width == old(board).width,
        final(board).height == old(board).height,
        flooded(g0, final(board)@, x as int, y as int),
        final(board)@ == open_border_at(old(board)@, x as int, y as int),
{
    let w = board.width;
    let h = board.height;
    let ghost s1 = board@;
    if y > 0 {
        open_numbered(board, x, y - 1);
    }
    let ghost s2 = board@;
    if y + 1 < h {
        open_numbered(board, x, y + 1);
    }
    let ghost s3 = board@;
    if x > 0 {
        open_numbered(board, x - 1, y);
    }
    let ghost s4 = board@;
    if x + 1 < w {
        open_numbered(board, x + 1, y);
    }
    proof {
        lemma_flood_from_numbered(seq![g0, s1, s2, s3, s4, board@], x as int, y as int);
    }
}

/// Opens the tile at `(x, y)` and what follows from it.
///
/// A tile that is open, flagged or a mine is left alone, and the board with
/// it. A numbered tile is opened together with those of its four side
/// neighbours that are numbered and safe. From a tile without neighbouring
/// mines the opening goes on through the side neighbours, upwards first, then
/// downwards, to the left and to the right.
///
/// The board that results is `flood_filled` of the board before, and `flood`
/// of it with any fuel that is no less than the number of closed tiles.
/// `flooded` says of it what does not hang on the order of the four directions: only
/// tiles were opened, none without cause, and the opening stopped nowhere
/// short of a settled tile.
pub fn flood_fill(board: &mut Board, x: usize, y: usize)
    requires
        old(board).wf(),
        x < old(board).width,
        y < old(board).height,
    ensures
        final(board).wf(),
        final(board).width == old(board).width,
        final(board).height == old(board).height,
        final(board)@ == flood_filled(old(board)@, x as int, y as int),
        forall|fuel: nat|
            fuel >= grid_count(old(board)@, unopened()) ==> final(board)@ == #[trigger] flood(
                old(board)@,
                x as int,
                y as int,
                fuel,
            ),
        flooded(old(board)@, final(board)@, x as int, y as int),
        blocked(at(old(board)@, x as int, y as int)) ==> *final(board) == *old(board),
    decreases grid_count(old(board)@, unopened()),
{
    let t = board.tile(x, y);
    if t.is_opened || t.is_flagged || t.is_mine {
        proof {
            lemma_spread_none(board@);
            lemma_within_none(board@, x as int, y as int);
        }
        return ;
    }
    let w = board.width;
    let h = board.height;
    let ghost g0 = board@;
    board.set_tile(
        x,
        y,
        Tile { is_mine: t.is_mine, is_opened: true, is_flagged: t.is_flagged, number: t.number },
    );
    let ghost s0 = board@;
    proof {
        lemma_grid_count_diff(g0, s0, unopened(), x as int, y as int);
        lemma_spread_none(s0);
        lemma_within_start(g0, s0, x as int, y as int);
        lemma_grid_ext(s0, open_at(g0, x as int, y as int));
    }
    if t.number > 0 {
        open_border(board, x, y, Ghost(g0));
        return ;
    }
    if y > 0 {
        flood_fill(board, x, y - 1);
        proof {
            lemma_flooded_settles(s0, board@, x as int, y - 1);
            lemma_within_rebase(g0, s0, board@, x as int, y as int, x as int, y - 1);
            lemma_within_chain(g0, x as int, y as int, g0, s0, board@);
        }
    }
    let ghost s1 = board@;
    proof {
        lemma_opens_count(s0, s1);
    }
    if y + 1 < h {
        flood_fill(board, x, y + 1);
        proof {
            lemma_flooded_settles(s1, board@, x as int, y + 1);
            lemma_settled_stays(s1, board@, x as int, y - 1);
            lemma_spread_twice(s0, s1, board@);
            lemma_opens_twice(g0, s0, s1);
            lemma_within_rebase(g0, s1, board@, x as int, y as int, x as int, y + 1);
            lemma_opens_count(g0, s1);
            lemma_within_chain(g0, x as int, y as int, g0, s1, board@);
        }
    }
    let ghost s2 = board@;
    proof {
        lemma_opens_count(s0, s2);
    }
    if x > 0 {
        flood_fill(board, x - 1, y);
        proof {
            lemma_flooded_settles(s2, board@, x - 1, y as int);
            lemma_settled_stays(s2, board@, x as int, y - 1);
            lemma_settled_stays(s2, board@, x as int, y + 1);
            lemma_spread_twice(s0, s2, board@);
            lemma_opens_twice(g0, s0, s2);
            lemma_within_rebase(g0, s2, board@, x as int, y as int, x - 1, y as int);
            lemma_opens_count(g0, s2);
            lemma_within_chain(g0, x as int, y as int, g0, s2, board@);
        }
    }
    let ghost s3 = board@;
    proof {
        lemma_opens_count(s0, s3);
    }
    if x + 1 < w {
        flood_fill(board, x + 1, y);
        proof {
            lemma_flooded_settles(s3, board@, x + 1, y as int);
            lemma_settled_stays(s3, board@, x as int, y - 1);
            lemma_settled_stays(s3, board@, x as int, y + 1);
            lemma_settled_stays(s3, board@, x - 1, y as int);
            lemma_spread_twice(s0, s3, board@);
            lemma_opens_twice(g0, s0, s3);
            lemma_within_rebase(g0, s3, board@, x as int, y as int, x + 1, y as int);
            lemma_opens_count(g0, s3);
            lemma_within_chain(g0, x as int, y as int, g0, s3, board@);
        }
    }
    let ghost s4 = board@;
    proof {
        lemma_flood_from_zero(g0, s0, s4, x as int, y as int);
        lemma_opens_count(s0, s4);
        assert forall|fuel: nat| fuel >= grid_count(g0, unopened()) implies s4 == #[trigger] flood(
            g0,
            x as int,
            y as int,
            fuel,
        ) by {
            let f = (fuel - 1) as nat;
            assert(s1 == flood(s0, x as int, y - 1, f));
            assert(s2 == flood(s1, x as int, y + 1, f));
            assert(s3 == flood(s2, x - 1, y as int, f));
            assert(s4 == flood(s3, x + 1, y as int, f));
        }
    }
}

} // verus!
