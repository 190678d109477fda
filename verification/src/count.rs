//! Counting the tiles of a grid that have some property, and the facts about
//! such counts that the rest of the library relies on.

use crate::data::Tile;
use vstd::prelude::*;

verus! {

/// A grid as the contracts see it: a sequence of rows, top to bottom.
pub type Grid = Seq<Seq<Tile>>;

/// The grid has `h` rows of `w` tiles each.
pub open spec fn rect(g: Grid, w: int, h: int) -> bool {
    &&& g.len() == h
    &&& forall|y: int| 0 <= y < h ==> (#[trigger] g[y]).len() == w
}

/// Two grids have the same number of rows, and row by row the same length.
pub open spec fn same_shape(a: Grid, b: Grid) -> bool {
    &&& a.len() == b.len()
    &&& forall|y: int| 0 <= y < a.len() ==> (#[trigger] a[y]).len() == b[y].len()
}

/// `(x, y)` names a tile of the grid: column `x` of row `y`.
pub open spec fn in_grid(g: Grid, x: int, y: int) -> bool {
    0 <= y < g.len() && 0 <= x < g[y].len()
}

/// The tile in column `x` of row `y`.
pub open spec fn at(g: Grid, x: int, y: int) -> Tile {
    g[y][x]
}

/// The property of holding a mine.
pub open spec fn mined() -> spec_fn(Tile) -> bool {
    |t: Tile| t.is_mine
}

/// The property of carrying a flag.
pub open spec fn flagged() -> spec_fn(Tile) -> bool {
    |t: Tile| t.is_flagged
}

/// The property of holding a mine that carries a flag.
pub open spec fn flagged_mine() -> spec_fn(Tile) -> bool {
    |t: Tile| t.is_mine && t.is_flagged
}

/// The property of not being opened yet.
pub open spec fn unopened() -> spec_fn(Tile) -> bool {
    |t: Tile| !t.is_opened
}

/// How many tiles of a row have the property `p`.
pub open spec fn row_count(row: Seq<Tile>, p: spec_fn(Tile) -> bool) -> nat
    decreases row.len(),
{
    if row.len() == 0 {
        0
    } else {
        row_count(row.drop_last(), p) + if p(row.last()) { 1nat } else { 0nat }
    }
}

/// How many tiles of a grid have the property `p`.
pub open spec fn grid_count(g: Grid, p: spec_fn(Tile) -> bool) -> nat
    decreases g.len(),
{
    if g.len() == 0 {
        0
    } else {
        grid_count(g.drop_last(), p) + row_count(g.last(), p)
    }
}

/// One or zero, as the property holds of the tile or not.
pub open spec fn one_if(p: spec_fn(Tile) -> bool, t: Tile) -> int {
    if p(t) { 1 } else { 0 }
}

/// Two rows that agree on `p` everywhere but perhaps at `x` differ in their
/// counts by what the tile at `x` contributes.
pub proof fn lemma_row_count_diff(a: Seq<Tile>, b: Seq<Tile>, p: spec_fn(Tile) -> bool, x: int)
    requires
        a.len() == b.len(),
        0 <= x < a.len(),
        forall|i: int| 0 <= i < a.len() && i != x ==> p(#[trigger] a[i]) == p(b[i]),
    ensures
        row_count(a, p) - one_if(p, a[x]) == row_count(b, p) - one_if(p, b[x]),
    decreases a.len(),
{
    if a.len() - 1 == x {
        lemma_row_count_le(a.drop_last(), b.drop_last(), p);
        lemma_row_count_le(b.drop_last(), a.drop_last(), p);
    } else {
        lemma_row_count_diff(a.drop_last(), b.drop_last(), p, x);
    }
}

/// Where `p` holds in `a` it holds in `b`: then `b` counts no fewer.
pub proof fn lemma_row_count_le(a: Seq<Tile>, b: Seq<Tile>, p: spec_fn(Tile) -> bool)
    requires
        a.len() == b.len(),
        forall|i: int| 0 <= i < a.len() && p(#[trigger] a[i]) ==> p(b[i]),
    ensures
        row_count(a, p) <= row_count(b, p),
    decreases a.len(),
{
    if a.len() > 0 {
        lemma_row_count_le(a.drop_last(), b.drop_last(), p);
    }
}

/// A row counts at most its length, and exactly its length only if every
/// tile has the property.
pub proof fn lemma_row_count_bound(a: Seq<Tile>, p: spec_fn(Tile) -> bool)
    ensures
        row_count(a, p) <= a.len(),
        (forall|i: int| 0 <= i < a.len() ==> p(#[trigger] a[i])) ==> row_count(a, p) == a.len(),
        (forall|i: int| 0 <= i < a.len() ==> !p(#[trigger] a[i])) ==> row_count(a, p) == 0,
    decreases a.len(),
{
    if a.len() > 0 {
        lemma_row_count_bound(a.drop_last(), p);
    }
}

/// Where `p` holds in `a` it holds in `b`, tile by tile: then `b` counts no
/// fewer.
pub proof fn lemma_grid_count_le(a: Grid, b: Grid, p: spec_fn(Tile) -> bool)
    requires
        same_shape(a, b),
        forall|x: int, y: int| in_grid(a, x, y) && p(#[trigger] at(a, x, y)) ==> p(at(b, x, y)),
    ensures
        grid_count(a, p) <= grid_count(b, p),
    decreases a.len(),
{
    if a.len() > 0 {
        let y = a.len() - 1;
        assert forall|i: int| 0 <= i < a[y].len() && p(#[trigger] a[y][i]) implies p(b[y][i]) by {
            assert(in_grid(a, i, y) && p(at(a, i, y)));
        }
        lemma_row_count_le(a[y], b[y], p);
        assert forall|x: int, y: int|
            in_grid(a.drop_last(), x, y) && p(#[trigger] at(a.drop_last(), x, y)) implies p(
            at(b.drop_last(), x, y),
        ) by {
            assert(in_grid(a, x, y) && p(at(a, x, y)));
        }
        lemma_grid_count_le(a.drop_last(), b.drop_last(), p);
    }
}

/// Two grids that agree on `p` tile by tile count the same.
pub proof fn lemma_grid_count_same(a: Grid, b: Grid, p: spec_fn(Tile) -> bool)
    requires
        same_shape(a, b),
        forall|x: int, y: int| in_grid(a, x, y) ==> p(#[trigger] at(a, x, y)) == p(at(b, x, y)),
    ensures
        grid_count(a, p) == grid_count(b, p),
{
    assert forall|x: int, y: int| in_grid(b, x, y) && p(#[trigger] at(b, x, y)) implies p(
        at(a, x, y),
    ) by {
        assert(in_grid(a, x, y) && p(at(a, x, y)) == p(at(b, x, y)));
    }
    lemma_grid_count_le(a, b, p);
    lemma_grid_count_le(b, a, p);
}

/// Two grids that agree on `p` everywhere but perhaps at `(x, y)` differ in
/// their counts by what that tile contributes.
pub proof fn lemma_grid_count_diff(a: Grid, b: Grid, p: spec_fn(Tile) -> bool, x: int, y: int)
    requires
        same_shape(a, b),
        in_grid(a, x, y),
        forall|i: int, j: int|
            in_grid(a, i, j) && !(i == x && j == y) ==> p(#[trigger] at(a, i, j)) == p(at(b, i, j)),
    ensures
        grid_count(a, p) - one_if(p, at(a, x, y)) == grid_count(b, p) - one_if(p, at(b, x, y)),
    decreases a.len(),
{
    let last = a.len() - 1;
    let a0 = a.drop_last();
    let b0 = b.drop_last();
    if last == y {
        assert forall|i: int| 0 <= i < a[y].len() && i != x implies p(#[trigger] a[y][i]) == p(
            b[y][i],
        ) by {
            assert(in_grid(a, i, y) && p(at(a, i, y)) == p(at(b, i, y)));
        }
        lemma_row_count_diff(a[y], b[y], p, x);
        assert forall|i: int, j: int| in_grid(a0, i, j) implies p(#[trigger] at(a0, i, j)) == p(
            at(b0, i, j),
        ) by {
            assert(in_grid(a, i, j) && p(at(a, i, j)) == p(at(b, i, j)));
        }
        lemma_grid_count_same(a0, b0, p);
    } else {
        assert forall|i: int| 0 <= i < a[last].len() && p(#[trigger] a[last][i]) implies p(
            b[last][i],
        ) by {
            assert(in_grid(a, i, last) && p(at(a, i, last)) == p(at(b, i, last)));
        }
        assert forall|i: int| 0 <= i < a[last].len() && p(#[trigger] b[last][i]) implies p(
            a[last][i],
        ) by {
            assert(in_grid(a, i, last) && p(at(a, i, last)) == p(at(b, i, last)));
        }
        lemma_row_count_le(a[last], b[last], p);
        lemma_row_count_le(b[last], a[last], p);
        assert forall|i: int, j: int|
            in_grid(a0, i, j) && !(i == x && j == y) implies p(#[trigger] at(a0, i, j)) == p(
            at(b0, i, j),
        ) by {
            assert(in_grid(a, i, j) && p(at(a, i, j)) == p(at(b, i, j)));
        }
        lemma_grid_count_diff(a0, b0, p, x, y);
    }
}

/// A grid of `h` rows of `w` tiles counts at most `w * h`; exactly that many
/// if every tile has the property, and none if no tile has it.
pub proof fn lemma_grid_count_bound(g: Grid, p: spec_fn(Tile) -> bool, w: int, h: int)
    requires
        rect(g, w, h),
    ensures
        grid_count(g, p) <= w * h,
        (forall|x: int, y: int| in_grid(g, x, y) ==> p(#[trigger] at(g, x, y))) ==> grid_count(g, p)
            == w * h,
        (forall|x: int, y: int| in_grid(g, x, y) ==> !p(#[trigger] at(g, x, y))) ==> grid_count(
            g,
            p,
        ) == 0,
    decreases g.len(),
{
    if g.len() > 0 {
        let g0 = g.drop_last();
        let last = g.len() - 1;
        lemma_grid_count_bound(g0, p, w, h - 1);
        lemma_row_count_bound(g[last], p);
        assert(w * (h - 1) + w == w * h) by (nonlinear_arith);
        if forall|x: int, y: int| in_grid(g, x, y) ==> p(#[trigger] at(g, x, y)) {
            assert forall|x: int, y: int| in_grid(g0, x, y) implies p(#[trigger] at(g0, x, y)) by {
                assert(in_grid(g, x, y) && p(at(g, x, y)));
            }
            assert forall|i: int| 0 <= i < g[last].len() implies p(#[trigger] g[last][i]) by {
                assert(in_grid(g, i, last) && p(at(g, i, last)));
            }
        }
        if forall|x: int, y: int| in_grid(g, x, y) ==> !p(#[trigger] at(g, x, y)) {
            assert forall|x: int, y: int| in_grid(g0, x, y) implies !p(#[trigger] at(g0, x, y)) by {
                assert(in_grid(g, x, y) && !p(at(g, x, y)));
            }
            assert forall|i: int| 0 <= i < g[last].len() implies !p(#[trigger] g[last][i]) by {
                assert(in_grid(g, i, last) && !p(at(g, i, last)));
            }
        }
    } else {
        assert(w * 0 == 0) by (nonlinear_arith);
    }
}

/// A row counts zero exactly if no tile has the property.
pub proof fn lemma_row_count_zero(a: Seq<Tile>, p: spec_fn(Tile) -> bool)
    ensures
        row_count(a, p) == 0 <==> forall|i: int| 0 <= i < a.len() ==> !p(#[trigger] a[i]),
    decreases a.len(),
{
    if a.len() > 0 {
        let a0 = a.drop_last();
        lemma_row_count_zero(a0, p);
        if row_count(a, p) == 0 {
            assert forall|i: int| 0 <= i < a.len() implies !p(#[trigger] a[i]) by {
                if i < a.len() - 1 {
                    assert(!p(a0[i]));
                }
            }
        } else {
            if forall|i: int| 0 <= i < a.len() ==> !p(#[trigger] a[i]) {
                assert forall|i: int| 0 <= i < a0.len() implies !p(#[trigger] a0[i]) by {
                    assert(!p(a[i]));
                }
                assert(!p(a[a.len() - 1]));
            }
        }
    }
}

/// A grid counts zero exactly if no tile has the property.
pub proof fn lemma_grid_count_zero(g: Grid, p: spec_fn(Tile) -> bool)
    ensures
        grid_count(g, p) == 0 <==> forall|x: int, y: int|
            in_grid(g, x, y) ==> !p(#[trigger] at(g, x, y)),
    decreases g.len(),
{
    if g.len() > 0 {
        let g0 = g.drop_last();
        let last = g.len() - 1;
        lemma_grid_count_zero(g0, p);
        lemma_row_count_zero(g[last], p);
        if grid_count(g, p) == 0 {
            assert forall|x: int, y: int| in_grid(g, x, y) implies !p(#[trigger] at(g, x, y)) by {
                if y < last {
                    assert(in_grid(g0, x, y) && !p(at(g0, x, y)));
                } else {
                    assert(!p(g[last][x]));
                }
            }
        } else {
            if forall|x: int, y: int| in_grid(g, x, y) ==> !p(#[trigger] at(g, x, y)) {
                assert forall|x: int, y: int| in_grid(g0, x, y) implies !p(
                    #[trigger] at(g0, x, y),
                ) by {
                    assert(in_grid(g, x, y) && !p(at(g, x, y)));
                }
                assert forall|i: int| 0 <= i < g[last].len() implies !p(#[trigger] g[last][i]) by {
                    assert(in_grid(g, i, last) && !p(at(g, i, last)));
                }
            }
        }
    }
}

/// Where `p` holds exactly of the tiles of which one of `q` and `r` holds,
/// and never both, a row's count for `p` is the sum of those for `q` and `r`.
pub proof fn lemma_row_count_split(
    a: Seq<Tile>,
    p: spec_fn(Tile) -> bool,
    q: spec_fn(Tile) -> bool,
    r: spec_fn(Tile) -> bool,
)
    requires
        forall|t: Tile| #[trigger] p(t) == (q(t) || r(t)),
        forall|t: Tile| !(#[trigger] q(t) && r(t)),
    ensures
        row_count(a, p) == row_count(a, q) + row_count(a, r),
    decreases a.len(),
{
    if a.len() > 0 {
        lemma_row_count_split(a.drop_last(), p, q, r);
        assert(p(a.last()) == (q(a.last()) || r(a.last())));
    }
}

/// The same of a grid.
pub proof fn lemma_grid_count_split(
    g: Grid,
    p: spec_fn(Tile) -> bool,
    q: spec_fn(Tile) -> bool,
    r: spec_fn(Tile) -> bool,
)
    requires
        forall|t: Tile| #[trigger] p(t) == (q(t) || r(t)),
        forall|t: Tile| !(#[trigger] q(t) && r(t)),
    ensures
        grid_count(g, p) == grid_count(g, q) + grid_count(g, r),
    decreases g.len(),
{
    if g.len() > 0 {
        lemma_grid_count_split(g.drop_last(), p, q, r);
        lemma_row_count_split(g.last(), p, q, r);
    }
}

/// The property of holding a mine that carries no flag.
pub open spec fn unflagged_mine() -> spec_fn(Tile) -> bool {
    |t: Tile| t.is_mine && !t.is_flagged
}

/// Every mine of the grid carries a flag.
pub open spec fn all_mines_flagged(g: Grid) -> bool {
    forall|x: int, y: int| in_grid(g, x, y) && (#[trigger] at(g, x, y)).is_mine ==> at(g, x, y).is_flagged
}

/// As many flagged mines as mines: that is to say that every mine is flagged.
pub proof fn lemma_all_mines_flagged(g: Grid)
    ensures
        grid_count(g, flagged_mine()) == grid_count(g, mined()) <==> all_mines_flagged(g),
{
    lemma_grid_count_split(g, mined(), flagged_mine(), unflagged_mine());
    lemma_grid_count_zero(g, unflagged_mine());
    if all_mines_flagged(g) {
        assert forall|x: int, y: int| in_grid(g, x, y) implies !unflagged_mine()(
            #[trigger] at(g, x, y),
        ) by {}
    }
    if grid_count(g, unflagged_mine()) == 0 {
        assert forall|x: int, y: int| in_grid(g, x, y) && (#[trigger] at(g, x, y)).is_mine implies at(
            g,
            x,
            y,
        ).is_flagged by {
            assert(!unflagged_mine()(at(g, x, y)));
        }
    }
}

} // verus!
