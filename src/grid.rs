//! The mathematical model of a row-major grid of cells.

use vstd::prelude::*;
use crate::cell::Cell;

verus! {

/// (x, y) lies on a grid of `w` columns and `h` rows.
pub open spec fn in_grid(w: int, h: int, x: int, y: int) -> bool {
    0 <= x < w && 0 <= y < h
}

/// Row-major position of column `x`, row `y`.
pub open spec fn index_of(w: int, x: int, y: int) -> int {
    y * w + x
}

/// The cell at column `x`, row `y`.
pub open spec fn at(g: Seq<Cell>, w: int, x: int, y: int) -> Cell {
    g[index_of(w, x, y)]
}

/// Two distinct cells whose columns and rows each differ by at most one.
pub open spec fn neighbours(x1: int, y1: int, x2: int, y2: int) -> bool {
    (x1 != x2 || y1 != y2) && -1 <= x1 - x2 <= 1 && -1 <= y1 - y2 <= 1
}

/// 1 when (x, y) is on the grid and holds a mine, else 0.
pub open spec fn mine_weight(g: Seq<Cell>, w: int, h: int, x: int, y: int) -> nat {
    if in_grid(w, h, x, y) && at(g, w, x, y).mine {
        1
    } else {
        0
    }
}

/// The number of mines among the in-grid 8-connected neighbours of (x, y).
pub open spec fn adjacent_mines(g: Seq<Cell>, w: int, h: int, x: int, y: int) -> nat {
    mine_weight(g, w, h, x - 1, y - 1) + mine_weight(g, w, h, x, y - 1) + mine_weight(
        g,
        w,
        h,
        x + 1,
        y - 1,
    ) + mine_weight(g, w, h, x - 1, y) + mine_weight(g, w, h, x + 1, y) + mine_weight(
        g,
        w,
        h,
        x - 1,
        y + 1,
    ) + mine_weight(g, w, h, x, y + 1) + mine_weight(g, w, h, x + 1, y + 1)
}

/// Every cell without a mine holds the number of its neighbours with one.
pub open spec fn counts_correct(g: Seq<Cell>, w: int, h: int) -> bool {
    forall|i: int|
        0 <= i < g.len() && !(#[trigger] g[i]).mine ==> g[i].adjacent == adjacent_mines(
            g,
            w,
            h,
            i % w,
            i / w,
        )
}

/// The number of cells holding a mine.
pub open spec fn count_mines(g: Seq<Cell>) -> nat
    decreases g.len(),
{
    if g.len() == 0 {
        0
    } else {
        count_mines(g.drop_last()) + if g.last().mine {
            1nat
        } else {
            0nat
        }
    }
}

/// The number of revealed cells.
pub open spec fn count_revealed(g: Seq<Cell>) -> nat
    decreases g.len(),
{
    if g.len() == 0 {
        0
    } else {
        count_revealed(g.drop_last()) + if g.last().revealed {
            1nat
        } else {
            0nat
        }
    }
}

pub proof fn lemma_index_in_range(w: int, h: int, x: int, y: int)
    requires
        in_grid(w, h, x, y),
    ensures
        0 <= index_of(w, x, y) < w * h,
{
    assert(0 <= y * w + x < w * h) by (nonlinear_arith)
        requires
            0 <= x < w,
            0 <= y < h,
    ;
}

/// Distinct coordinates have distinct positions.
pub proof fn lemma_index_injective(w: int, h: int, x1: int, y1: int, x2: int, y2: int)
    requires
        in_grid(w, h, x1, y1),
        in_grid(w, h, x2, y2),
        index_of(w, x1, y1) == index_of(w, x2, y2),
    ensures
        x1 == x2 && y1 == y2,
{
    if y1 < y2 {
        assert(y1 * w + w <= y2 * w) by (nonlinear_arith)
            requires
                y1 < y2,
                w > 0,
        ;
    } else if y2 < y1 {
        assert(y2 * w + w <= y1 * w) by (nonlinear_arith)
            requires
                y2 < y1,
                w > 0,
        ;
    }
}

/// Position `i` is the cell at column `i % w`, row `i / w`.
pub proof fn lemma_coords_of_index(w: int, h: int, i: int)
    requires
        w > 0,
        0 <= i < w * h,
    ensures
        in_grid(w, h, i % w, i / w),
        index_of(w, i % w, i / w) == i,
{
    vstd::arithmetic::div_mod::lemma_fundamental_div_mod(i, w);
    vstd::arithmetic::div_mod::lemma_mod_pos_bound(i, w);
    vstd::arithmetic::div_mod::lemma_div_pos_is_pos(i, w);
    let q = i / w;
    let r = i % w;
    assert(q < h) by (nonlinear_arith)
        requires
            i == w * q + r,
            0 <= r,
            i < w * h,
            w > 0,
    ;
    assert(q * w == w * q) by (nonlinear_arith);
}

/// The coordinates of the cell at column `x`, row `y` are read back from its position.
pub proof fn lemma_index_coords(w: int, h: int, x: int, y: int)
    requires
        in_grid(w, h, x, y),
    ensures
        index_of(w, x, y) % w == x,
        index_of(w, x, y) / w == y,
{
    lemma_index_in_range(w, h, x, y);
    lemma_coords_of_index(w, h, index_of(w, x, y));
    lemma_index_injective(
        w,
        h,
        x,
        y,
        index_of(w, x, y) % w,
        index_of(w, x, y) / w,
    );
}

/// Grids that agree on where the mines are agree on every adjacency count.
pub proof fn lemma_same_mines(g1: Seq<Cell>, g2: Seq<Cell>, w: int, h: int)
    requires
        g1.len() == g2.len() == w * h,
        forall|i: int| 0 <= i < g1.len() ==> #[trigger] g1[i].mine == g2[i].mine,
    ensures
        forall|x: int, y: int| #[trigger]
            adjacent_mines(g1, w, h, x, y) == adjacent_mines(g2, w, h, x, y),
        count_mines(g1) == count_mines(g2),
{
    assert forall|x: int, y: int| mine_weight(g1, w, h, x, y) == mine_weight(g2, w, h, x, y) by {
        if in_grid(w, h, x, y) {
            lemma_index_in_range(w, h, x, y);
        }
    }
    lemma_count_mines_same(g1, g2);
}

proof fn lemma_count_mines_same(g1: Seq<Cell>, g2: Seq<Cell>)
    requires
        g1.len() == g2.len(),
        forall|i: int| 0 <= i < g1.len() ==> #[trigger] g1[i].mine == g2[i].mine,
    ensures
        count_mines(g1) == count_mines(g2),
    decreases g1.len(),
{
    if g1.len() > 0 {
        lemma_count_mines_same(g1.drop_last(), g2.drop_last());
    }
}

/// Replacing one cell changes the mine count by the difference of the two cells.
pub proof fn lemma_count_mines_update(g: Seq<Cell>, i: int, c: Cell)
    requires
        0 <= i < g.len(),
    ensures
        count_mines(g.update(i, c)) + (if g[i].mine { 1int } else { 0int }) == count_mines(g) + (
        if c.mine {
            1int
        } else {
            0int
        }),
    decreases g.len(),
{
    let u = g.update(i, c);
    if i == g.len() - 1 {
        assert(u.drop_last() =~= g.drop_last());
    } else {
        assert(u.drop_last() =~= g.drop_last().update(i, c));
        lemma_count_mines_update(g.drop_last(), i, c);
    }
}

/// Replacing one cell changes the revealed count by the difference of the two cells.
pub proof fn lemma_count_revealed_update(g: Seq<Cell>, i: int, c: Cell)
    requires
        0 <= i < g.len(),
    ensures
        count_revealed(g.update(i, c)) + (if g[i].revealed { 1int } else { 0int })
            == count_revealed(g) + (if c.revealed {
            1int
        } else {
            0int
        }),
    decreases g.len(),
{
    let u = g.update(i, c);
    if i == g.len() - 1 {
        assert(u.drop_last() =~= g.drop_last());
    } else {
        assert(u.drop_last() =~= g.drop_last().update(i, c));
        lemma_count_revealed_update(g.drop_last(), i, c);
    }
}

pub proof fn lemma_count_revealed_bound(g: Seq<Cell>)
    ensures
        count_revealed(g) <= g.len(),
    decreases g.len(),
{
    if g.len() > 0 {
        lemma_count_revealed_bound(g.drop_last());
    }
}

/// Counting mines over a growing prefix.
pub proof fn lemma_count_mines_prefix(g: Seq<Cell>, i: int)
    requires
        0 <= i < g.len(),
    ensures
        count_mines(g.take(i + 1)) == count_mines(g.take(i)) + if g[i].mine {
            1nat
        } else {
            0nat
        },
        count_mines(g.take(i)) <= i,
    decreases i,
{
    assert(g.take(i + 1).drop_last() =~= g.take(i));
    if i > 0 {
        lemma_count_mines_prefix(g, i - 1);
    }
}

} // verus!
