//! Properties that relate several moves on a board.

use vstd::prelude::*;
use crate::board::{all_safe_revealed, Board};
use crate::flood::{floods_to, lemma_flood_single, lemma_no_flood_from_closed};
use crate::grid::{adjacent_mines, in_grid, index_of, lemma_coords_of_index, lemma_index_coords, lemma_index_in_range};

verus! {

/// Two boards of one frame whose cells agree at every coordinate have equal grids.
proof fn lemma_same_grid(b0: Board, b1: Board)
    requires
        b0.shaped(),
        b1.same_frame(b0),
        b1.grid().len() == b0.grid().len(),
        forall|i: int|
            0 <= i < b0.grid().len() ==> (#[trigger] b1.grid()[i]).mine == b0.grid()[i].mine
                && b1.grid()[i].flagged == b0.grid()[i].flagged && b1.grid()[i].adjacent
                == b0.grid()[i].adjacent,
        forall|a: int, b: int|
            #![trigger b1.cell_at(a, b)]
            b0.in_bounds(a, b) ==> b1.cell_at(a, b).revealed == b0.cell_at(a, b).revealed,
    ensures
        b1.grid() == b0.grid(),
{
    assert forall|i: int| 0 <= i < b0.grid().len() implies b1.grid()[i] == b0.grid()[i] by {
        lemma_coords_of_index(b0.w(), b0.h(), i);
        assert(b1.cell_at(i % b0.w(), i / b0.w()).revealed == b0.cell_at(
            i % b0.w(),
            i / b0.w(),
        ).revealed);
    }
    assert(b1.grid() =~= b0.grid());
}

/// On a well-formed board, every cell without a mine holds the number of
/// mines among its in-grid 8-connected neighbours.
pub proof fn lemma_adjacency_counts(b: Board, x: int, y: int)
    requires
        b.wf(),
        b.in_bounds(x, y),
        !b.cell_at(x, y).mine,
    ensures
        b.cell_at(x, y).adjacent == adjacent_mines(b.grid(), b.w(), b.h(), x, y),
{
    lemma_index_in_range(b.w(), b.h(), x, y);
    lemma_index_coords(b.w(), b.h(), x, y);
    let i = index_of(b.w(), x, y);
    assert(!b.grid()[i].mine);
}

/// Revealing a flagged cell changes nothing.
pub proof fn lemma_reveal_flagged_is_noop(b0: Board, b1: Board, x: int, y: int)
    requires
        b0.wf(),
        b0.in_bounds(x, y),
        b0.cell_at(x, y).flagged,
        b0.revealed_from(b1, x, y),
    ensures
        b1.grid() == b0.grid(),
        b1.over() == b0.over(),
{
    assert forall|a: int, b: int| b0.in_bounds(a, b) implies !floods_to(
        b0.grid(),
        b0.w(),
        b0.h(),
        x,
        y,
        a,
        b,
    ) by {
        lemma_no_flood_from_closed(b0.grid(), b0.w(), b0.h(), x, y, a, b);
    }
    lemma_same_grid(b0, b1);
}

/// Flagging a hidden cell and then revealing it leaves it hidden and flagged,
/// and the reveal changes nothing.
pub proof fn lemma_flag_then_reveal(b0: Board, b1: Board, b2: Board, x: int, y: int)
    requires
        b0.wf(),
        b0.in_bounds(x, y),
        !b0.cell_at(x, y).revealed,
        !b0.cell_at(x, y).flagged,
        b0.flag_toggled(b1, x, y),
        b1.wf(),
        b1.revealed_from(b2, x, y),
    ensures
        b2.cell_at(x, y).flagged,
        !b2.cell_at(x, y).revealed,
        b2.grid() == b1.grid(),
        b2.over() == b1.over(),
{
    lemma_index_in_range(b0.w(), b0.h(), x, y);
    assert(b1.cell_at(x, y).flagged);
    lemma_reveal_flagged_is_noop(b1, b2, x, y);
}

/// Revealing the same cell a second time changes nothing.
pub proof fn lemma_reveal_twice(b0: Board, b1: Board, b2: Board, x: int, y: int)
    requires
        b0.wf(),
        b0.revealed_from(b1, x, y),
        b1.revealed_from(b2, x, y),
    ensures
        b2.grid() == b1.grid(),
        b2.over() == b1.over(),
{
    let (w, h) = (b0.w(), b0.h());
    if b0.in_bounds(x, y) {
        lemma_index_in_range(w, h, x, y);
        if !b0.cell_at(x, y).revealed && !b0.cell_at(x, y).flagged {
            assert(floods_to(b0.grid(), w, h, x, y, x, y)) by {
                if !b0.cell_at(x, y).is_blank() {
                    lemma_flood_single(b0.grid(), w, h, x, y, x, y);
                } else {
                    let p = seq![(x, y)];
                    assert(crate::flood::flood_path(b0.grid(), w, h, p));
                }
            }
            assert(b1.cell_at(x, y).revealed);
        } else {
            assert(b1.cell_at(x, y).revealed || b1.cell_at(x, y).flagged);
        }
    }
    assert forall|a: int, b: int| b1.in_bounds(a, b) implies !floods_to(
        b1.grid(),
        w,
        h,
        x,
        y,
        a,
        b,
    ) by {
        lemma_no_flood_from_closed(b1.grid(), w, h, x, y, a, b);
    }
    lemma_same_grid(b1, b2);
}

/// Revealing a hidden, unflagged mine ends the game and reveals no other cell.
pub proof fn lemma_mine_ends_game(b0: Board, b1: Board, x: int, y: int)
    requires
        b0.wf(),
        b0.in_bounds(x, y),
        !b0.cell_at(x, y).revealed,
        !b0.cell_at(x, y).flagged,
        b0.cell_at(x, y).mine,
        b0.revealed_from(b1, x, y),
    ensures
        b1.over(),
        b1.cell_at(x, y).revealed,
        forall|a: int, b: int|
            #![trigger b1.cell_at(a, b)]
            b0.in_bounds(a, b) && (a != x || b != y) ==> b1.cell_at(a, b).revealed == b0.cell_at(
                a,
                b,
            ).revealed,
{
    assert forall|a: int, b: int| b0.in_bounds(a, b) implies (floods_to(
        b0.grid(),
        b0.w(),
        b0.h(),
        x,
        y,
        a,
        b,
    ) <==> (a == x && b == y)) by {
        lemma_flood_single(b0.grid(), b0.w(), b0.h(), x, y, a, b);
    }
}

/// Toggling a flag never changes whether every safe cell is revealed.
pub proof fn lemma_flags_do_not_decide_win(b0: Board, b1: Board, x: int, y: int)
    requires
        b0.wf(),
        b0.flag_toggled(b1, x, y),
    ensures
        all_safe_revealed(b1.grid()) == all_safe_revealed(b0.grid()),
{
    if b0.in_bounds(x, y) {
        lemma_index_in_range(b0.w(), b0.h(), x, y);
    }
    assert(b1.grid().len() == b0.grid().len());
    assert forall|i: int| 0 <= i < b0.grid().len() implies (#[trigger] b1.grid()[i]).mine
        == b0.grid()[i].mine && b1.grid()[i].revealed == b0.grid()[i].revealed by {}
    if all_safe_revealed(b0.grid()) {
        assert forall|i: int| 0 <= i < b1.grid().len() && !(#[trigger] b1.grid()[i]).mine implies b1.grid()[i].revealed by {
            assert(!b0.grid()[i].mine);
        }
    }
    if all_safe_revealed(b1.grid()) {
        assert forall|i: int| 0 <= i < b0.grid().len() && !(#[trigger] b0.grid()[i]).mine implies b0.grid()[i].revealed by {
            assert(!b1.grid()[i].mine);
        }
    }
}

/// A move off the grid leaves the board as it was.
pub proof fn lemma_off_grid_changes_nothing(b0: Board, b1: Board, b2: Board, x: int, y: int)
    requires
        b0.wf(),
        !b0.in_bounds(x, y),
        b0.revealed_from(b1, x, y),
        b0.flag_toggled(b2, x, y),
    ensures
        b1.grid() == b0.grid(),
        b1.over() == b0.over(),
        b2.grid() == b0.grid(),
        b2.over() == b0.over(),
{
    assert(!in_grid(b0.w(), b0.h(), x, y));
    assert forall|a: int, b: int| b0.in_bounds(a, b) implies !floods_to(
        b0.grid(),
        b0.w(),
        b0.h(),
        x,
        y,
        a,
        b,
    ) by {
        lemma_no_flood_from_closed(b0.grid(), b0.w(), b0.h(), x, y, a, b);
    }
    lemma_same_grid(b0, b1);
}

} // verus!
