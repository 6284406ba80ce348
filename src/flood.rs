//! Revealing a blank cell opens the region around it, with an explicit work
//! stack in place of recursion.

use vstd::prelude::*;
use crate::cell::Cell;
use crate::grid::{
    adjacent_mines, at, count_revealed, counts_correct, in_grid, index_of, lemma_count_revealed_bound,
    lemma_count_revealed_update, lemma_index_coords, lemma_index_in_range, lemma_index_injective,
    mine_weight, neighbours,
};

verus! {

/// A path that a reveal can open: every cell on it lies on the grid and was
/// hidden and unflagged before the move, consecutive cells are neighbours, and
/// every cell but the last is blank.
pub open spec fn flood_path(g: Seq<Cell>, w: int, h: int, p: Seq<(int, int)>) -> bool {
    &&& p.len() > 0
    &&& forall|k: int|
        0 <= k < p.len() ==> in_grid(w, h, (#[trigger] p[k]).0, p[k].1) && !at(
            g,
            w,
            p[k].0,
            p[k].1,
        ).revealed && !at(g, w, p[k].0, p[k].1).flagged
    &&& forall|k: int|
        0 <= k < p.len() - 1 ==> at(g, w, (#[trigger] p[k]).0, p[k].1).is_blank() && neighbours(
            p[k].0,
            p[k].1,
            p[k + 1].0,
            p[k + 1].1,
        )
}

/// Revealing (sx, sy) on grid `g` reveals (x, y): some flood path leads there.
pub open spec fn floods_to(g: Seq<Cell>, w: int, h: int, sx: int, sy: int, x: int, y: int) -> bool {
    exists|p: Seq<(int, int)>|
        #[trigger] flood_path(g, w, h, p) && p[0] == (sx, sy) && p.last() == (x, y)
}

/// Revealed now, hidden before the move.
spec fn newly(g: Seq<Cell>, g0: Seq<Cell>, w: int, x: int, y: int) -> bool {
    at(g, w, x, y).revealed && !at(g0, w, x, y).revealed
}

spec fn on_stack(st: Seq<(usize, usize)>, x: int, y: int) -> bool {
    exists|k: int| 0 <= k < st.len() && (#[trigger] st[k]).0 == x && st[k].1 == y
}

/// Every neighbour of (x, y) on the grid is revealed or flagged.
spec fn settled(g: Seq<Cell>, w: int, h: int, x: int, y: int) -> bool {
    forall|a: int, b: int|
        #![trigger at(g, w, a, b)]
        in_grid(w, h, a, b) && neighbours(x, y, a, b) ==> at(g, w, a, b).revealed || at(
            g,
            w,
            a,
            b,
        ).flagged
}

/// Every blank cell opened so far is settled, but those still on the stack
/// and (ex, ey).
spec fn closed_except(
    g: Seq<Cell>,
    g0: Seq<Cell>,
    w: int,
    h: int,
    st: Seq<(usize, usize)>,
    ex: int,
    ey: int,
) -> bool {
    forall|x: int, y: int|
        in_grid(w, h, x, y) && newly(g, g0, w, x, y) && at(g, w, x, y).is_blank() && !on_stack(
            st,
            x,
            y,
        ) && (x != ex || y != ey) ==> #[trigger] settled(g, w, h, x, y)
}

/// The second grid keeps the first's revealed cells and all its flags.
spec fn grows(g1: Seq<Cell>, g2: Seq<Cell>, w: int, h: int) -> bool {
    forall|a: int, b: int|
        #![trigger at(g2, w, a, b)]
        in_grid(w, h, a, b) ==> (at(g1, w, a, b).revealed ==> at(g2, w, a, b).revealed) && at(
            g2,
            w,
            a,
            b,
        ).flagged == at(g1, w, a, b).flagged
}

/// What holds of the grid `g` during a flood from (sx, sy) on the grid `g0`.
spec fn progress(
    g: Seq<Cell>,
    g0: Seq<Cell>,
    w: int,
    h: int,
    sx: int,
    sy: int,
    st: Seq<(usize, usize)>,
) -> bool {
    &&& w > 0 && h > 0 && w * h <= usize::MAX
    &&& g.len() == g0.len() == w * h
    &&& counts_correct(g0, w, h)
    &&& in_grid(w, h, sx, sy)
    &&& at(g, w, sx, sy).revealed
    &&& forall|i: int|
        0 <= i < g.len() ==> (#[trigger] g[i]).mine == g0[i].mine && g[i].flagged == g0[i].flagged
            && g[i].adjacent == g0[i].adjacent && (g0[i].revealed ==> g[i].revealed) && (
        g[i].revealed && !g0[i].revealed ==> !g[i].mine && !g[i].flagged)
    &&& grows(g0, g, w, h)
    &&& forall|x: int, y: int|
        #![trigger at(g, w, x, y)]
        in_grid(w, h, x, y) && newly(g, g0, w, x, y) ==> floods_to(g0, w, h, sx, sy, x, y)
    &&& forall|k: int|
        0 <= k < st.len() ==> in_grid(w, h, (#[trigger] st[k]).0 as int, st[k].1 as int) && newly(
            g,
            g0,
            w,
            st[k].0 as int,
            st[k].1 as int,
        ) && at(g, w, st[k].0 as int, st[k].1 as int).is_blank()
}

/// Opens the neighbour at offset (`dx` - 1, `dy` - 1) of the blank cell
/// (cx, cy): reveals it if it is on the grid, hidden and unflagged, and pushes
/// it when it is blank too.
fn visit(
    cells: &mut Vec<Cell>,
    st: &mut Vec<(usize, usize)>,
    w: usize,
    h: usize,
    cx: usize,
    cy: usize,
    dx: usize,
    dy: usize,
    Ghost(g0): Ghost<Seq<Cell>>,
    Ghost(sx): Ghost<int>,
    Ghost(sy): Ghost<int>,
)
    requires
        progress(old(cells)@, g0, w as int, h as int, sx, sy, old(st)@),
        closed_except(old(cells)@, g0, w as int, h as int, old(st)@, cx as int, cy as int),
        in_grid(w as int, h as int, cx as int, cy as int),
        newly(old(cells)@, g0, w as int, cx as int, cy as int),
        at(old(cells)@, w as int, cx as int, cy as int).is_blank(),
        dx <= 2,
        dy <= 2,
        dx != 1 || dy != 1,
    ensures
        progress(final(cells)@, g0, w as int, h as int, sx, sy, final(st)@),
        closed_except(final(cells)@, g0, w as int, h as int, final(st)@, cx as int, cy as int),
        grows(old(cells)@, final(cells)@, w as int, h as int),
        newly(final(cells)@, g0, w as int, cx as int, cy as int),
        at(final(cells)@, w as int, cx as int, cy as int).is_blank(),
        in_grid(w as int, h as int, cx + dx - 1, cy + dy - 1) ==> at(
            final(cells)@,
            w as int,
            cx + dx - 1,
            cy + dy - 1,
        ).revealed || at(final(cells)@, w as int, cx + dx - 1, cy + dy - 1).flagged,
        final(st)@.len() + count_revealed(old(cells)@) <= old(st)@.len() + count_revealed(
            final(cells)@,
        ),
{
    let ghost g = cells@;
    let ghost wi = w as int;
    let ghost hi = h as int;
    if (dx == 0 && cx == 0) || (dy == 0 && cy == 0) {
        return;
    }
    let nx = if dx == 0 {
        cx - 1
    } else {
        cx + (dx - 1)
    };
    let ny = if dy == 0 {
        cy - 1
    } else {
        cy + (dy - 1)
    };
    if nx >= w || ny >= h {
        return;
    }
    proof {
        lemma_index_in_range(wi, hi, nx as int, ny as int);
        lemma_index_in_range(wi, hi, cx as int, cy as int);
    }
    let i = ny * w + nx;
    let c = cells[i];
    if c.revealed || c.flagged {
        return;
    }
    proof {
        lemma_no_mine_beside_blank(g0, wi, hi, cx as int, cy as int, nx as int, ny as int);
    }
    let ghost before_st = st@;
    let opened = Cell { revealed: true, ..c };
    cells.set(i, opened);
    if !c.mine && c.adjacent == 0 {
        st.push((nx, ny));
    }
    proof {
        lemma_count_revealed_update(g, i as int, opened);
        lemma_open_one(g, cells@, g0, before_st, st@, wi, hi, sx, sy, cx as int, cy as int, nx as int, ny as int);
    }
}

/// A blank cell has no mine among its neighbours.
proof fn lemma_no_mine_beside_blank(g0: Seq<Cell>, w: int, h: int, cx: int, cy: int, nx: int, ny: int)
    requires
        w > 0,
        g0.len() == w * h,
        counts_correct(g0, w, h),
        in_grid(w, h, cx, cy),
        in_grid(w, h, nx, ny),
        neighbours(cx, cy, nx, ny),
        at(g0, w, cx, cy).is_blank(),
    ensures
        !at(g0, w, nx, ny).mine,
{
    lemma_index_in_range(w, h, cx, cy);
    lemma_index_coords(w, h, cx, cy);
    let ci = index_of(w, cx, cy);
    assert(!g0[ci].mine);
    assert(adjacent_mines(g0, w, h, cx, cy) == 0);
    assert(mine_weight(g0, w, h, nx, ny) == 0);
}

/// A hidden, unflagged neighbour of a cell that a flood reaches, when that
/// cell is blank, is reached too.
proof fn lemma_extend_path(g0: Seq<Cell>, w: int, h: int, sx: int, sy: int, cx: int, cy: int, nx: int, ny: int)
    requires
        floods_to(g0, w, h, sx, sy, cx, cy),
        at(g0, w, cx, cy).is_blank(),
        neighbours(cx, cy, nx, ny),
        in_grid(w, h, nx, ny),
        !at(g0, w, nx, ny).revealed,
        !at(g0, w, nx, ny).flagged,
    ensures
        floods_to(g0, w, h, sx, sy, nx, ny),
{
    let p = choose|p: Seq<(int, int)>|
        #[trigger] flood_path(g0, w, h, p) && p[0] == (sx, sy) && p.last() == (cx, cy);
    let q = p.push((nx, ny));
    assert forall|k: int| 0 <= k < q.len() - 1 implies at(
        g0,
        w,
        (#[trigger] q[k]).0,
        q[k].1,
    ).is_blank() && neighbours(q[k].0, q[k].1, q[k + 1].0, q[k + 1].1) by {
        if k < p.len() - 1 {
            assert(q[k] == p[k] && q[k + 1] == p[k + 1]);
        }
    }
    assert forall|k: int| 0 <= k < q.len() implies in_grid(
        w,
        h,
        (#[trigger] q[k]).0,
        q[k].1,
    ) && !at(g0, w, q[k].0, q[k].1).revealed && !at(g0, w, q[k].0, q[k].1).flagged by {
        if k < p.len() {
            assert(q[k] == p[k]);
        }
    }
    assert(flood_path(g0, w, h, q));
    assert(q[0] == (sx, sy) && q.last() == (nx, ny));
}

/// Opening one hidden, unflagged neighbour (nx, ny) of the blank cell
/// (cx, cy), and pushing it when it is blank, keeps the flood's invariant.
proof fn lemma_open_one(
    g: Seq<Cell>,
    g1: Seq<Cell>,
    g0: Seq<Cell>,
    st: Seq<(usize, usize)>,
    st1: Seq<(usize, usize)>,
    w: int,
    h: int,
    sx: int,
    sy: int,
    cx: int,
    cy: int,
    nx: int,
    ny: int,
)
    requires
        progress(g, g0, w, h, sx, sy, st),
        closed_except(g, g0, w, h, st, cx, cy),
        in_grid(w, h, cx, cy),
        newly(g, g0, w, cx, cy),
        at(g, w, cx, cy).is_blank(),
        in_grid(w, h, nx, ny),
        neighbours(cx, cy, nx, ny),
        !at(g, w, nx, ny).revealed,
        !at(g, w, nx, ny).flagged,
        !at(g, w, nx, ny).mine,
        0 <= nx <= usize::MAX,
        0 <= ny <= usize::MAX,
        g1 == g.update(index_of(w, nx, ny), Cell { revealed: true, ..at(g, w, nx, ny) }),
        st1 == if at(g, w, nx, ny).is_blank() {
            st.push((nx as usize, ny as usize))
        } else {
            st
        },
    ensures
        progress(g1, g0, w, h, sx, sy, st1),
        closed_except(g1, g0, w, h, st1, cx, cy),
        grows(g, g1, w, h),
        at(g1, w, nx, ny).revealed,
        at(g1, w, cx, cy) == at(g, w, cx, cy),
{
    let i = index_of(w, nx, ny);
    lemma_index_in_range(w, h, nx, ny);
    assert forall|a: int, b: int| in_grid(w, h, a, b) && (a != nx || b != ny) implies at(
        g1,
        w,
        a,
        b,
    ) == at(g, w, a, b) by {
        lemma_index_in_range(w, h, a, b);
        if index_of(w, a, b) == i {
            lemma_index_injective(w, h, a, b, nx, ny);
        }
    }
    assert(grows(g, g1, w, h));
    assert(grows(g0, g1, w, h));
    lemma_index_in_range(w, h, cx, cy);
    assert(at(g0, w, cx, cy).is_blank());
    lemma_extend_path(g0, w, h, sx, sy, cx, cy, nx, ny);
    assert forall|x: int, y: int|
        #![trigger at(g1, w, x, y)]
        in_grid(w, h, x, y) && newly(g1, g0, w, x, y) implies floods_to(g0, w, h, sx, sy, x, y) by {
        if x != nx || y != ny {
            assert(at(g1, w, x, y) == at(g, w, x, y));
        }
    }
    assert forall|k: int| 0 <= k < st1.len() implies in_grid(
        w,
        h,
        (#[trigger] st1[k]).0 as int,
        st1[k].1 as int,
    ) && newly(g1, g0, w, st1[k].0 as int, st1[k].1 as int) && at(
        g1,
        w,
        st1[k].0 as int,
        st1[k].1 as int,
    ).is_blank() by {
        if k < st.len() {
            assert(st1[k] == st[k]);
            if st1[k].0 != nx || st1[k].1 != ny {
                assert(at(g1, w, st1[k].0 as int, st1[k].1 as int) == at(
                    g,
                    w,
                    st1[k].0 as int,
                    st1[k].1 as int,
                ));
            }
        }
    }
    assert forall|x: int, y: int|
        in_grid(w, h, x, y) && newly(g1, g0, w, x, y) && at(g1, w, x, y).is_blank() && !on_stack(
            st1,
            x,
            y,
        ) && (x != cx || y != cy) implies #[trigger] settled(g1, w, h, x, y) by {
        if x == nx && y == ny {
            assert(st1[st1.len() - 1] == (nx as usize, ny as usize));
        } else {
            assert(at(g1, w, x, y) == at(g, w, x, y));
            if on_stack(st, x, y) {
                let k = choose|k: int| 0 <= k < st.len() && (#[trigger] st[k]).0 == x && st[k].1 == y;
                assert(st1[k] == st[k]);
            }
            assert(settled(g, w, h, x, y));
        }
    }
}

/// Reveals the region that opening the blank cell (sx, sy) of `g0` opens:
/// `cells` is `g0` with that cell already revealed. Each cell is opened at
/// most once; the work stack takes the place of recursion.
pub(crate) fn flood(
    cells: &mut Vec<Cell>,
    w: usize,
    h: usize,
    sx: usize,
    sy: usize,
    Ghost(g0): Ghost<Seq<Cell>>,
)
    requires
        w > 0,
        h > 0,
        w * h <= usize::MAX,
        g0.len() == w * h,
        counts_correct(g0, w as int, h as int),
        in_grid(w as int, h as int, sx as int, sy as int),
        !at(g0, w as int, sx as int, sy as int).revealed,
        !at(g0, w as int, sx as int, sy as int).flagged,
        at(g0, w as int, sx as int, sy as int).is_blank(),
        old(cells)@ == g0.update(
            index_of(w as int, sx as int, sy as int),
            Cell { revealed: true, ..at(g0, w as int, sx as int, sy as int) },
        ),
    ensures
        final(cells)@.len() == g0.len(),
        forall|i: int|
            0 <= i < g0.len() ==> (#[trigger] final(cells)@[i]).mine == g0[i].mine
                && final(cells)@[i].flagged == g0[i].flagged && final(cells)@[i].adjacent
                == g0[i].adjacent && (g0[i].revealed ==> final(cells)@[i].revealed) && (
            final(cells)@[i].revealed && !g0[i].revealed ==> !final(cells)@[i].mine
                && !final(cells)@[i].flagged),
        forall|x: int, y: int|
            #![trigger at(final(cells)@, w as int, x, y)]
            in_grid(w as int, h as int, x, y) ==> (at(final(cells)@, w as int, x, y).revealed == (
            at(g0, w as int, x, y).revealed || floods_to(
                g0,
                w as int,
                h as int,
                sx as int,
                sy as int,
                x,
                y,
            ))),
{
    let ghost wi = w as int;
    let ghost hi = h as int;
    let mut st: Vec<(usize, usize)> = Vec::new();
    st.push((sx, sy));
    proof {
        lemma_start(cells@, g0, wi, hi, sx, sy);
        assert(st@ == seq![(sx, sy)]);
    }
    while st.len() > 0
        invariant
            progress(cells@, g0, wi, hi, sx as int, sy as int, st@),
            closed_except(cells@, g0, wi, hi, st@, -1, -1),
            wi == w,
            hi == h,
        decreases g0.len() - count_revealed(cells@) + st@.len(),
    {
        let ghost g_top = cells@;
        let ghost st_top = st@;
        if let Some((cx, cy)) = st.pop() {
            proof {
                lemma_pop(cells@, g0, wi, hi, sx as int, sy as int, st_top);
            }
            visit(cells, &mut st, w, h, cx, cy, 0, 0, Ghost(g0), Ghost(sx as int), Ghost(sy as int));
            visit(cells, &mut st, w, h, cx, cy, 1, 0, Ghost(g0), Ghost(sx as int), Ghost(sy as int));
            visit(cells, &mut st, w, h, cx, cy, 2, 0, Ghost(g0), Ghost(sx as int), Ghost(sy as int));
            visit(cells, &mut st, w, h, cx, cy, 0, 1, Ghost(g0), Ghost(sx as int), Ghost(sy as int));
            visit(cells, &mut st, w, h, cx, cy, 2, 1, Ghost(g0), Ghost(sx as int), Ghost(sy as int));
            visit(cells, &mut st, w, h, cx, cy, 0, 2, Ghost(g0), Ghost(sx as int), Ghost(sy as int));
            visit(cells, &mut st, w, h, cx, cy, 1, 2, Ghost(g0), Ghost(sx as int), Ghost(sy as int));
            visit(cells, &mut st, w, h, cx, cy, 2, 2, Ghost(g0), Ghost(sx as int), Ghost(sy as int));
            proof {
                assert(settled(cells@, wi, hi, cx as int, cy as int));
                lemma_count_revealed_bound(cells@);
            }
        }
    }
    proof {
        assert forall|x: int, y: int|
            #![trigger at(cells@, wi, x, y)]
            in_grid(wi, hi, x, y) implies (at(cells@, wi, x, y).revealed == (at(
                g0,
                wi,
                x,
                y,
            ).revealed || floods_to(g0, wi, hi, sx as int, sy as int, x, y))) by {
            if floods_to(g0, wi, hi, sx as int, sy as int, x, y) {
                let p = choose|p: Seq<(int, int)>|
                    #[trigger] flood_path(g0, wi, hi, p) && p[0] == (sx as int, sy as int)
                        && p.last() == (x, y);
                lemma_path_opened(cells@, g0, wi, hi, sx as int, sy as int, p, p.len() - 1);
            }
        }
    }
}

/// The state right after the start cell is opened.
proof fn lemma_start(g: Seq<Cell>, g0: Seq<Cell>, w: int, h: int, sx: usize, sy: usize)
    requires
        w > 0 && h > 0 && w * h <= usize::MAX,
        g0.len() == w * h,
        counts_correct(g0, w, h),
        in_grid(w, h, sx as int, sy as int),
        !at(g0, w, sx as int, sy as int).revealed,
        !at(g0, w, sx as int, sy as int).flagged,
        at(g0, w, sx as int, sy as int).is_blank(),
        g == g0.update(index_of(w, sx as int, sy as int), Cell { revealed: true, ..at(g0, w, sx as int, sy as int) }),
    ensures
        progress(g, g0, w, h, sx as int, sy as int, seq![(sx, sy)]),
        closed_except(g, g0, w, h, seq![(sx, sy)], -1, -1),
{
    let st = seq![(sx, sy)];
    let sx = sx as int;
    let sy = sy as int;
    let i = index_of(w, sx, sy);
    lemma_index_in_range(w, h, sx, sy);
    assert forall|a: int, b: int| in_grid(w, h, a, b) && (a != sx || b != sy) implies at(
        g,
        w,
        a,
        b,
    ) == at(g0, w, a, b) by {
        lemma_index_in_range(w, h, a, b);
        if index_of(w, a, b) == i {
            lemma_index_injective(w, h, a, b, sx, sy);
        }
    }
    let p = seq![(sx, sy)];
    assert(flood_path(g0, w, h, p));
    assert(floods_to(g0, w, h, sx, sy, sx, sy));
    assert(grows(g0, g, w, h));
    assert forall|x: int, y: int|
        #![trigger at(g, w, x, y)]
        in_grid(w, h, x, y) && newly(g, g0, w, x, y) implies floods_to(g0, w, h, sx, sy, x, y) by {
        if x != sx || y != sy {
            assert(at(g, w, x, y) == at(g0, w, x, y));
        }
    }
    assert forall|x: int, y: int|
        in_grid(w, h, x, y) && newly(g, g0, w, x, y) && at(g, w, x, y).is_blank() && !on_stack(
            st,
            x,
            y,
        ) && (x != -1 || y != -1) implies #[trigger] settled(g, w, h, x, y) by {
        if x != sx || y != sy {
            assert(at(g, w, x, y) == at(g0, w, x, y));
        } else {
            assert(st[0].0 == x && st[0].1 == y);
        }
    }
    assert forall|k: int| 0 <= k < st.len() implies in_grid(
        w,
        h,
        (#[trigger] st[k]).0 as int,
        st[k].1 as int,
    ) && newly(g, g0, w, st[k].0 as int, st[k].1 as int) && at(
        g,
        w,
        st[k].0 as int,
        st[k].1 as int,
    ).is_blank() by {
        assert(st[k] == st[0]);
    }
    assert forall|j: int| 0 <= j < g.len() implies (#[trigger] g[j]).mine == g0[j].mine
        && g[j].flagged == g0[j].flagged && g[j].adjacent == g0[j].adjacent && (g0[j].revealed
        ==> g[j].revealed) && (g[j].revealed && !g0[j].revealed ==> !g[j].mine
        && !g[j].flagged) by {
        if j == i {
            assert(g[j] == Cell { revealed: true, ..g0[j] });
        }
    }
    assert(at(g, w, sx, sy).revealed);
}

/// Taking the top cell off the stack exempts it alone from being settled.
proof fn lemma_pop(g: Seq<Cell>, g0: Seq<Cell>, w: int, h: int, sx: int, sy: int, st: Seq<(usize, usize)>)
    requires
        progress(g, g0, w, h, sx, sy, st),
        closed_except(g, g0, w, h, st, -1, -1),
        st.len() > 0,
    ensures
        progress(g, g0, w, h, sx, sy, st.drop_last()),
        closed_except(g, g0, w, h, st.drop_last(), st.last().0 as int, st.last().1 as int),
        in_grid(w, h, st.last().0 as int, st.last().1 as int),
        newly(g, g0, w, st.last().0 as int, st.last().1 as int),
        at(g, w, st.last().0 as int, st.last().1 as int).is_blank(),
{
    let st1 = st.drop_last();
    assert(st.last() == st[st.len() - 1]);
    assert forall|k: int| 0 <= k < st1.len() implies in_grid(
        w,
        h,
        (#[trigger] st1[k]).0 as int,
        st1[k].1 as int,
    ) && newly(g, g0, w, st1[k].0 as int, st1[k].1 as int) && at(
        g,
        w,
        st1[k].0 as int,
        st1[k].1 as int,
    ).is_blank() by {
        assert(st1[k] == st[k]);
    }
    assert forall|x: int, y: int|
        in_grid(w, h, x, y) && newly(g, g0, w, x, y) && at(g, w, x, y).is_blank() && !on_stack(
            st1,
            x,
            y,
        ) && (x != st.last().0 || y != st.last().1) implies #[trigger] settled(g, w, h, x, y) by {
        if on_stack(st, x, y) {
            let k = choose|k: int| 0 <= k < st.len() && (#[trigger] st[k]).0 == x && st[k].1 == y;
            if k < st1.len() {
                assert(st1[k] == st[k]);
            }
        }
    }
}

/// Once the stack is empty, every cell of a flood path from the start is revealed.
proof fn lemma_path_opened(
    g: Seq<Cell>,
    g0: Seq<Cell>,
    w: int,
    h: int,
    sx: int,
    sy: int,
    p: Seq<(int, int)>,
    k: int,
)
    requires
        progress(g, g0, w, h, sx, sy, Seq::empty()),
        closed_except(g, g0, w, h, Seq::empty(), -1, -1),
        flood_path(g0, w, h, p),
        p[0] == (sx, sy),
        0 <= k < p.len(),
    ensures
        at(g, w, p[k].0, p[k].1).revealed,
    decreases k,
{
    if k > 0 {
        lemma_path_opened(g, g0, w, h, sx, sy, p, k - 1);
        let (x, y) = p[k - 1];
        let (a, b) = p[k];
        assert(in_grid(w, h, x, y) && !at(g0, w, x, y).revealed);
        lemma_index_in_range(w, h, x, y);
        assert(at(g0, w, x, y).is_blank());
        assert(at(g, w, x, y).is_blank());
        assert(!on_stack(Seq::<(usize, usize)>::empty(), x, y));
        assert(settled(g, w, h, x, y));
        assert(in_grid(w, h, a, b) && neighbours(x, y, a, b));
        assert(!at(g0, w, a, b).flagged);
        assert(at(g, w, a, b).revealed || at(g, w, a, b).flagged);
    }
}

/// No flood starts from a cell off the grid, revealed or flagged.
pub proof fn lemma_no_flood_from_closed(g: Seq<Cell>, w: int, h: int, sx: int, sy: int, x: int, y: int)
    requires
        !in_grid(w, h, sx, sy) || at(g, w, sx, sy).revealed || at(g, w, sx, sy).flagged,
    ensures
        !floods_to(g, w, h, sx, sy, x, y),
{
    if floods_to(g, w, h, sx, sy, x, y) {
        let p = choose|p: Seq<(int, int)>|
            #[trigger] flood_path(g, w, h, p) && p[0] == (sx, sy) && p.last() == (x, y);
        assert(in_grid(w, h, p[0].0, p[0].1));
    }
}

/// From a hidden, unflagged cell that is not blank, a flood reaches that cell alone.
pub proof fn lemma_flood_single(g: Seq<Cell>, w: int, h: int, sx: int, sy: int, x: int, y: int)
    requires
        in_grid(w, h, sx, sy),
        !at(g, w, sx, sy).revealed,
        !at(g, w, sx, sy).flagged,
        !at(g, w, sx, sy).is_blank(),
    ensures
        floods_to(g, w, h, sx, sy, x, y) <==> (x == sx && y == sy),
{
    if floods_to(g, w, h, sx, sy, x, y) {
        let p = choose|p: Seq<(int, int)>|
            #[trigger] flood_path(g, w, h, p) && p[0] == (sx, sy) && p.last() == (x, y);
        if p.len() > 1 {
            assert(at(g, w, p[0].0, p[0].1).is_blank());
        }
    }
    if x == sx && y == sy {
        assert(flood_path(g, w, h, seq![(sx, sy)]));
    }
}

} // verus!
