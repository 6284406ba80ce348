//! The board: its state, construction, and the queries and moves on it.

use vstd::prelude::*;
use rand::rngs::StdRng;
use crate::cell::Cell;
use crate::flood::{flood, floods_to, lemma_flood_single, lemma_no_flood_from_closed};
use crate::grid::{
    adjacent_mines, at, count_mines, counts_correct, in_grid, lemma_coords_of_index, lemma_count_mines_prefix,
    lemma_count_mines_update, lemma_index_in_range, lemma_same_mines, mine_weight, index_of,
    lemma_index_injective, lemma_index_coords,
};

verus! {

/// rand's seedable generator, carried through as an opaque value.
#[verifier::external_type_specification]
#[verifier::external_body]
pub struct ExStdRng(StdRng);

/// Relies on rand::Rng::gen_range: the value drawn from `0..n` lies below `n`.
/// It panics on an empty range, which `requires` rules out.
#[verifier::external_body]
fn draw_below(rng: &mut StdRng, n: usize) -> (r: usize)
    requires
        n > 0,
    ensures
        r < n,
{
    rand::Rng::gen_range(rng, 0..n)
}

/// What a move or a command can be refused for.
#[derive(Clone, Copy, Debug, PartialEq, Eq, Structural)]
pub enum GameError {
    /// The coordinates lie outside the grid.
    OutOfBounds,
    /// Wrong number of words, or a coordinate that is not a number.
    InvalidCommandFormat,
    /// A command word other than `r` or `f`.
    UnknownCommand,
}

/// A rectangular minefield, stored row by row.
pub struct Board {
    width: usize,
    height: usize,
    mine_count: usize,
    cells: Vec<Cell>,
    game_over: bool,
}

/// The cell with its flag inverted.
pub open spec fn flip_flag(c: Cell) -> Cell {
    Cell { flagged: !c.flagged, ..c }
}

/// The number of free cells before position `i`.
pub open spec fn free_before(g: Seq<Cell>, i: int) -> int {
    i - count_mines(g.take(i))
}

/// The free cell that has `r` free cells before it.
pub open spec fn nth_free(g: Seq<Cell>, r: int) -> int {
    choose|i: int| 0 <= i < g.len() && !(#[trigger] g[i]).mine && free_before(g, i) == r
}

/// A grid of `n` cells, none a mine, all hidden, unflagged and zero.
pub open spec fn blank_grid(n: nat) -> Seq<Cell> {
    Seq::new(n, |i: int| Cell { mine: false, revealed: false, flagged: false, adjacent: 0 })
}

/// The grid `g` with a mine placed for each draw in turn, on the free cell
/// with as many free cells before it as the draw says.
pub open spec fn place_ranks(g: Seq<Cell>, draws: Seq<usize>) -> Seq<Cell>
    decreases draws.len(),
{
    if draws.len() == 0 {
        g
    } else {
        let g1 = place_ranks(g, draws.drop_last());
        let i = nth_free(g1, draws.last() as int);
        g1.update(i, Cell { mine: true, ..g1[i] })
    }
}

/// Free positions come in order: a later one has more free cells before it.
proof fn lemma_free_before_grows(g: Seq<Cell>, i: int, j: int)
    requires
        0 <= i < j <= g.len(),
    ensures
        free_before(g, j) >= free_before(g, i) + if g[i].mine {
            0int
        } else {
            1int
        },
    decreases j - i,
{
    lemma_count_mines_prefix(g, j - 1);
    if j > i + 1 {
        lemma_free_before_grows(g, i, j - 1);
    }
}

/// Every cell that holds no mine is revealed.
pub open spec fn all_safe_revealed(g: Seq<Cell>) -> bool {
    forall|i: int| 0 <= i < g.len() && !(#[trigger] g[i]).mine ==> g[i].revealed
}

/// A board whose grid differs from a well-formed one only in flags, kept off
/// revealed cells, is well formed.
proof fn lemma_wf_frame(b0: Board, b1: Board)
    requires
        b0.wf(),
        b1.same_frame(b0),
        b1.over() == b0.over(),
        b1.grid().len() == b0.grid().len(),
        forall|i: int|
            0 <= i < b0.grid().len() ==> (#[trigger] b1.grid()[i]).mine == b0.grid()[i].mine
                && b1.grid()[i].revealed == b0.grid()[i].revealed && b1.grid()[i].adjacent
                == b0.grid()[i].adjacent && !(b1.grid()[i].revealed && b1.grid()[i].flagged),
    ensures
        b1.wf(),
{
    lemma_same_mines(b0.grid(), b1.grid(), b0.w(), b0.h());
    if b0.over() {
        let j = choose|j: int|
            0 <= j < b0.grid().len() && (#[trigger] b0.grid()[j]).revealed && b0.grid()[j].mine;
        assert(b1.grid()[j].revealed && b1.grid()[j].mine);
    }
    if exists|j: int|
        0 <= j < b1.grid().len() && (#[trigger] b1.grid()[j]).revealed && b1.grid()[j].mine {
        let j = choose|j: int|
            0 <= j < b1.grid().len() && (#[trigger] b1.grid()[j]).revealed && b1.grid()[j].mine;
        assert(b0.grid()[j].revealed && b0.grid()[j].mine);
    }
}

/// Revealing cells that were hidden and unflagged keeps a board well formed,
/// when the game is lost exactly if the one mine that may be revealed is.
proof fn lemma_reveal_wf(b0: Board, b1: Board, s: int)
    requires
        b0.wf(),
        b1.same_frame(b0),
        b1.grid().len() == b0.grid().len(),
        0 <= s < b0.grid().len(),
        forall|i: int|
            0 <= i < b0.grid().len() ==> (#[trigger] b1.grid()[i]).mine == b0.grid()[i].mine
                && b1.grid()[i].flagged == b0.grid()[i].flagged && b1.grid()[i].adjacent
                == b0.grid()[i].adjacent && (b0.grid()[i].revealed ==> b1.grid()[i].revealed) && (
            b1.grid()[i].revealed && !b0.grid()[i].revealed ==> !b1.grid()[i].flagged && (
            b1.grid()[i].mine ==> i == s)),
        b1.over() == (b0.over() || (b1.grid()[s].revealed && !b0.grid()[s].revealed
            && b0.grid()[s].mine)),
    ensures
        b1.wf(),
{
    lemma_same_mines(b0.grid(), b1.grid(), b0.w(), b0.h());
    if b0.over() {
        let j = choose|j: int|
            0 <= j < b0.grid().len() && (#[trigger] b0.grid()[j]).revealed && b0.grid()[j].mine;
        assert(b1.grid()[j].revealed && b1.grid()[j].mine);
    }
    if b1.over() && !b0.over() {
        assert(b1.grid()[s].revealed && b1.grid()[s].mine);
    }
    if exists|j: int|
        0 <= j < b1.grid().len() && (#[trigger] b1.grid()[j]).revealed && b1.grid()[j].mine {
        let j = choose|j: int|
            0 <= j < b1.grid().len() && (#[trigger] b1.grid()[j]).revealed && b1.grid()[j].mine;
        if !b0.grid()[j].revealed {
            assert(j == s);
        }
    }
}

impl Board {
    pub closed spec fn w(&self) -> int {
        self.width as int
    }

    pub closed spec fn h(&self) -> int {
        self.height as int
    }

    pub closed spec fn mines(&self) -> int {
        self.mine_count as int
    }

    pub closed spec fn over(&self) -> bool {
        self.game_over
    }

    /// The cells, row by row.
    pub closed spec fn grid(&self) -> Seq<Cell> {
        self.cells@
    }

    pub open spec fn in_bounds(&self, x: int, y: int) -> bool {
        in_grid(self.w(), self.h(), x, y)
    }

    pub open spec fn cell_at(&self, x: int, y: int) -> Cell {
        at(self.grid(), self.w(), x, y)
    }

    /// The grid has the board's dimensions, and its positions fit a `usize`.
    pub open spec fn shaped(&self) -> bool {
        &&& self.w() > 0
        &&& self.h() > 0
        &&& self.w() * self.h() <= usize::MAX
        &&& self.grid().len() == self.w() * self.h()
    }

    /// Every cell without a mine holds the number of its neighbours with one.
    pub open spec fn counts_hold(&self) -> bool {
        counts_correct(self.grid(), self.w(), self.h())
    }

    /// The board's invariant.
    pub open spec fn wf(&self) -> bool {
        &&& self.shaped()
        &&& self.counts_hold()
        &&& count_mines(self.grid()) == self.mines()
        &&& self.mines() < self.w() * self.h()
        &&& forall|i: int|
            0 <= i < self.grid().len() ==> !((#[trigger] self.grid()[i]).revealed
                && self.grid()[i].flagged)
        &&& self.over() <==> exists|i: int|
            0 <= i < self.grid().len() && (#[trigger] self.grid()[i]).revealed
                && self.grid()[i].mine
    }

    /// A board as construction leaves it: nothing revealed or flagged, game not over.
    pub open spec fn fresh(&self) -> bool {
        &&& !self.over()
        &&& forall|i: int|
            0 <= i < self.grid().len() ==> !(#[trigger] self.grid()[i]).revealed
                && !self.grid()[i].flagged
    }

    /// The board's dimensions and mine count are those of `other`.
    pub open spec fn same_frame(&self, other: Board) -> bool {
        &&& self.w() == other.w()
        &&& self.h() == other.h()
        &&& self.mines() == other.mines()
    }

    /// What `reveal_cell(x, y)` leaves: the cells that a flood from (x, y)
    /// reaches are revealed, nothing else changes, and the game is lost
    /// exactly when a hidden, unflagged mine was revealed.
    pub open spec fn revealed_from(self, after: Board, x: int, y: int) -> bool {
        &&& after.same_frame(self)
        &&& after.grid().len() == self.grid().len()
        &&& forall|i: int|
            0 <= i < self.grid().len() ==> (#[trigger] after.grid()[i]).mine == self.grid()[i].mine
                && after.grid()[i].flagged == self.grid()[i].flagged && after.grid()[i].adjacent
                == self.grid()[i].adjacent
        &&& forall|a: int, b: int|
            #![trigger after.cell_at(a, b)]
            self.in_bounds(a, b) ==> (after.cell_at(a, b).revealed == (self.cell_at(a, b).revealed
                || floods_to(self.grid(), self.w(), self.h(), x, y, a, b)))
        &&& after.over() == (self.over() || (self.in_bounds(x, y) && !self.cell_at(x, y).revealed
            && !self.cell_at(x, y).flagged && self.cell_at(x, y).mine))
    }

    /// What `toggle_flag(x, y)` leaves: off the grid or on a revealed cell
    /// nothing changes; otherwise the cell's flag is inverted.
    pub open spec fn flag_toggled(self, after: Board, x: int, y: int) -> bool {
        &&& after.same_frame(self)
        &&& after.over() == self.over()
        &&& after.grid() == if self.in_bounds(x, y) && !self.cell_at(x, y).revealed {
            self.grid().update(index_of(self.w(), x, y), flip_flag(self.cell_at(x, y)))
        } else {
            self.grid()
        }
    }

    /// A board of `width` × `height` hidden cells whose mines lie exactly on
    /// the listed positions (a position listed twice holds one mine).
    pub fn with_mines(width: usize, height: usize, mines: &Vec<(usize, usize)>) -> (b: Board)
        requires
            width > 0,
            height > 0,
            width * height <= usize::MAX,
            mines@.len() < width * height,
            forall|k: int|
                0 <= k < mines@.len() ==> (#[trigger] mines@[k]).0 < width && mines@[k].1 < height,
        ensures
            b.wf(),
            b.fresh(),
            b.w() == width,
            b.h() == height,
            b.mines() <= mines@.len(),
            forall|x: int, y: int|
                #![trigger b.cell_at(x, y)]
                b.in_bounds(x, y) ==> (b.cell_at(x, y).mine <==> exists|k: int|
                    0 <= k < mines@.len() && mines@[k].0 == x && mines@[k].1 == y),
    {
        let mut board = Board::blank(width, height);
        let ghost w = width as int;
        let ghost h = height as int;
        let mut placed: usize = 0;
        let mut k: usize = 0;
        while k < mines.len()
            invariant
                board.shaped(),
                board.fresh(),
                board.w() == w,
                board.h() == h,
                board.mines() == 0,
                w * h <= usize::MAX,
                mines@.len() < w * h,
                forall|j: int|
                    0 <= j < mines@.len() ==> (#[trigger] mines@[j]).0 < w && mines@[j].1 < h,
                0 <= k <= mines@.len(),
                placed == count_mines(board.grid()),
                placed <= k,
                forall|x: int, y: int|
                    #![trigger at(board.grid(), w, x, y)]
                    in_grid(w, h, x, y) ==> (at(board.grid(), w, x, y).mine <==> exists|j: int|
                        0 <= j < k && mines@[j].0 == x && mines@[j].1 == y),
            decreases mines@.len() - k,
        {
            let (mx, my) = mines[k];
            proof {
                lemma_index_in_range(w, h, mx as int, my as int);
            }
            let i = my * board.width + mx;
            let c = board.cells[i];
            let ghost g = board.cells@;
            if !c.mine {
                board.cells.set(i, Cell { mine: true, ..c });
                proof {
                    lemma_count_mines_update(g, i as int, Cell { mine: true, ..c });
                }
                placed = placed + 1;
            }
            proof {
                assert forall|x: int, y: int|
                    #![trigger at(board.grid(), w, x, y)]
                    in_grid(w, h, x, y) implies (at(board.grid(), w, x, y).mine <==> exists|j: int|
                        0 <= j < k + 1 && mines@[j].0 == x && mines@[j].1 == y) by {
                    lemma_index_in_range(w, h, x, y);
                    if x != mx || y != my {
                        if index_of(w, x, y) == i {
                            lemma_index_injective(w, h, x, y, mx as int, my as int);
                        }
                        assert(at(board.grid(), w, x, y) == at(g, w, x, y));
                        if at(g, w, x, y).mine {
                            let j = choose|j: int|
                                0 <= j < k && mines@[j].0 == x && mines@[j].1 == y;
                            assert(0 <= j < k + 1 && mines@[j].0 == x && mines@[j].1 == y);
                        }
                    } else {
                        assert(mines@[k as int].0 == x && mines@[k as int].1 == y);
                    }
                }
            }
            k = k + 1;
        }
        board.mine_count = placed;
        let ghost before = board.grid();
        board.calculate_adjacency();
        proof {
            lemma_same_mines(before, board.grid(), w, h);
            assert forall|x: int, y: int|
                #![trigger board.cell_at(x, y)]
                board.in_bounds(x, y) implies (board.cell_at(x, y).mine <==> exists|k: int|
                    0 <= k < mines@.len() && mines@[k].0 == x && mines@[k].1 == y) by {
                lemma_index_in_range(w, h, x, y);
                assert(at(before, w, x, y).mine == board.cell_at(x, y).mine);
            }
        }
        board
    }

    /// A board with no mines whose cells are all hidden, unflagged and zero.
    fn blank(width: usize, height: usize) -> (b: Board)
        requires
            width > 0,
            height > 0,
            width * height <= usize::MAX,
        ensures
            b.shaped(),
            b.fresh(),
            b.w() == width,
            b.h() == height,
            b.mines() == 0,
            count_mines(b.grid()) == 0,
            forall|i: int|
                0 <= i < b.grid().len() ==> #[trigger] b.grid()[i] == (Cell {
                    mine: false,
                    revealed: false,
                    flagged: false,
                    adjacent: 0,
                }),
            forall|x: int, y: int|
                #![trigger at(b.grid(), b.w(), x, y)]
                b.in_bounds(x, y) ==> !at(b.grid(), b.w(), x, y).mine,
    {
        let n = width * height;
        let mut cells: Vec<Cell> = Vec::new();
        let mut k: usize = 0;
        while k < n
            invariant
                0 <= k <= n,
                cells@.len() == k,
                count_mines(cells@) == 0,
                forall|j: int|
                    0 <= j < k ==> !(#[trigger] cells@[j]).mine && !cells@[j].revealed
                        && !cells@[j].flagged && cells@[j].adjacent == 0,
            decreases n - k,
        {
            let ghost before = cells@;
            cells.push(Cell::new());
            proof {
                assert(cells@.drop_last() =~= before);
            }
            k = k + 1;
        }
        let b = Board { width, height, mine_count: 0, cells, game_over: false };
        proof {
            assert forall|x: int, y: int|
                #![trigger at(b.grid(), b.w(), x, y)]
                b.in_bounds(x, y) implies !at(b.grid(), b.w(), x, y).mine by {
                if b.in_bounds(x, y) {
                    lemma_index_in_range(width as int, height as int, x, y);
                }
            }
        }
        b
    }

    /// A board of `width` × `height` hidden cells with `mine_count` mines.
    /// Each mine goes to a cell drawn uniformly from those still free, so the
    /// layout is uniform over all sets of `mine_count` cells, as with drawing
    /// any cell and drawing again on a repeat, but with one draw per mine.
    pub fn new(width: usize, height: usize, mine_count: usize, rng: &mut StdRng) -> (b: Board)
        requires
            width > 0,
            height > 0,
            width * height <= usize::MAX,
            mine_count < width * height,
        ensures
            b.wf(),
            b.fresh(),
            b.w() == width,
            b.h() == height,
            b.mines() == mine_count,
            count_mines(b.grid()) == mine_count,
    {
        let n = width * height;
        let mut draws: Vec<usize> = Vec::new();
        let mut k: usize = 0;
        while k < mine_count
            invariant
                n == width * height,
                mine_count < n,
                k <= mine_count,
                draws@.len() == k,
                forall|j: int| 0 <= j < k ==> (#[trigger] draws@[j]) < n - j,
            decreases mine_count - k,
        {
            draws.push(draw_below(rng, n - k));
            k = k + 1;
        }
        Board::with_draws(width, height, &draws)
    }

    /// A board of `width` × `height` hidden cells with one mine for each
    /// draw: the `k`-th draw places a mine on the free cell that has that
    /// many free cells before it, row by row.
    pub fn with_draws(width: usize, height: usize, draws: &Vec<usize>) -> (b: Board)
        requires
            width > 0,
            height > 0,
            width * height <= usize::MAX,
            draws@.len() < width * height,
            forall|k: int| 0 <= k < draws@.len() ==> (#[trigger] draws@[k]) < width * height - k,
        ensures
            b.wf(),
            b.fresh(),
            b.w() == width,
            b.h() == height,
            b.mines() == draws@.len(),
            count_mines(b.grid()) == draws@.len(),
            b.grid().len() == width * height,
            forall|i: int|
                0 <= i < b.grid().len() ==> (#[trigger] b.grid()[i]).mine == place_ranks(
                    blank_grid((width * height) as nat),
                    draws@,
                )[i].mine,
    {
        let mut board = Board::blank(width, height);
        let n = width * height;
        let ghost g0 = blank_grid(n as nat);
        proof {
            assert(board.grid() =~= g0);
        }
        let mut k: usize = 0;
        while k < draws.len()
            invariant
                board.shaped(),
                board.fresh(),
                board.w() == width,
                board.h() == height,
                board.mines() == 0,
                n == width * height,
                draws@.len() < n,
                forall|j: int| 0 <= j < draws@.len() ==> (#[trigger] draws@[j]) < n - j,
                0 <= k <= draws@.len(),
                count_mines(board.grid()) == k,
                board.grid() == place_ranks(g0, draws@.take(k as int)),
            decreases draws@.len() - k,
        {
            let ghost g = board.grid();
            board.place_mine_by_rank(draws[k]);
            proof {
                assert(draws@.take(k as int + 1).drop_last() =~= draws@.take(k as int));
                assert(draws@.take(k as int + 1).last() == draws@[k as int]);
            }
            k = k + 1;
        }
        proof {
            assert(draws@.take(draws@.len() as int) =~= draws@);
        }
        board.mine_count = k;
        let ghost before = board.grid();
        board.calculate_adjacency();
        proof {
            lemma_same_mines(before, board.grid(), width as int, height as int);
        }
        board
    }

    pub fn width(&self) -> (r: usize)
        ensures
            r == self.w(),
    {
        self.width
    }

    pub fn height(&self) -> (r: usize)
        ensures
            r == self.h(),
    {
        self.height
    }

    pub fn mine_count(&self) -> (r: usize)
        ensures
            r == self.mines(),
    {
        self.mine_count
    }

    /// Whether a mine has been revealed.
    pub fn is_over(&self) -> (r: bool)
        ensures
            r == self.over(),
    {
        self.game_over
    }

    /// The cell at column `x`, row `y`.
    pub fn cell(&self, x: usize, y: usize) -> (c: Cell)
        requires
            self.wf(),
            self.in_bounds(x as int, y as int),
        ensures
            c == self.cell_at(x as int, y as int),
            c.mine || c.adjacent <= 8,
    {
        proof {
            lemma_index_in_range(self.w(), self.h(), x as int, y as int);
            lemma_index_coords(self.w(), self.h(), x as int, y as int);
        }
        self.cells[y * self.width + x]
    }

    /// Whether every cell without a mine is revealed; flags play no part.
    pub fn all_safe_cells_revealed(&self) -> (r: bool)
        ensures
            r == all_safe_revealed(self.grid()),
    {
        let n = self.cells.len();
        let mut i: usize = 0;
        while i < n
            invariant
                n == self.grid().len(),
                0 <= i <= n,
                forall|j: int| 0 <= j < i && !(#[trigger] self.grid()[j]).mine ==> self.grid()[j].revealed,
            decreases n - i,
        {
            if !self.cells[i].mine && !self.cells[i].revealed {
                return false;
            }
            i = i + 1;
        }
        true
    }

    /// Inverts the flag of the cell at column `x`, row `y`, unless it is revealed.
    pub fn toggle_flag(&mut self, x: usize, y: usize) -> (r: Result<(), GameError>)
        requires
            old(self).wf(),
        ensures
            final(self).wf(),
            old(self).flag_toggled(*final(self), x as int, y as int),
            r == if old(self).in_bounds(x as int, y as int) {
                Ok::<(), GameError>(())
            } else {
                Err(GameError::OutOfBounds)
            },
    {
        if x >= self.width || y >= self.height {
            return Err(GameError::OutOfBounds);
        }
        proof {
            lemma_index_in_range(self.w(), self.h(), x as int, y as int);
        }
        let i = y * self.width + x;
        let c = self.cells[i];
        if c.revealed {
            return Ok(());
        }
        let ghost g = self.cells@;
        self.cells.set(i, Cell { flagged: !c.flagged, ..c });
        proof {
            lemma_wf_frame(*old(self), *self);
        }
        Ok(())
    }

    /// Reveals the cell at column `x`, row `y`: off the grid this is refused,
    /// on a revealed or flagged cell nothing happens, a mine ends the game,
    /// and a blank cell opens the whole region that a flood reaches.
    pub fn reveal_cell(&mut self, x: usize, y: usize) -> (r: Result<(), GameError>)
        requires
            old(self).wf(),
        ensures
            final(self).wf(),
            old(self).revealed_from(*final(self), x as int, y as int),
            r == if old(self).in_bounds(x as int, y as int) {
                Ok::<(), GameError>(())
            } else {
                Err(GameError::OutOfBounds)
            },
    {
        let ghost b0 = *self;
        let ghost g0 = self.cells@;
        let ghost w = self.w();
        let ghost h = self.h();
        if x >= self.width || y >= self.height {
            proof {
                assert forall|a: int, b: int| #![trigger self.cell_at(a, b)]
                    self.in_bounds(a, b) implies !floods_to(g0, w, h, x as int, y as int, a, b) by {
                    lemma_no_flood_from_closed(g0, w, h, x as int, y as int, a, b);
                }
            }
            return Err(GameError::OutOfBounds);
        }
        proof {
            lemma_index_in_range(w, h, x as int, y as int);
        }
        let i = y * self.width + x;
        let c = self.cells[i];
        if c.revealed || c.flagged {
            proof {
                assert forall|a: int, b: int| #![trigger self.cell_at(a, b)]
                    self.in_bounds(a, b) implies !floods_to(g0, w, h, x as int, y as int, a, b) by {
                    lemma_no_flood_from_closed(g0, w, h, x as int, y as int, a, b);
                }
            }
            return Ok(());
        }
        let opened = Cell { revealed: true, ..c };
        self.cells.set(i, opened);
        if c.mine {
            self.game_over = true;
        } else if c.adjacent == 0 {
            flood(&mut self.cells, self.width, self.height, x, y, Ghost(g0));
        }
        proof {
            if c.mine || c.adjacent != 0 {
                let g1 = self.cells@;
                assert forall|a: int, b: int| #![trigger self.cell_at(a, b)]
                    self.in_bounds(a, b) implies (self.cell_at(a, b).revealed == (at(g0, w, a, b).revealed
                        || floods_to(g0, w, h, x as int, y as int, a, b))) by {
                    lemma_flood_single(g0, w, h, x as int, y as int, a, b);
                    lemma_index_in_range(w, h, a, b);
                    if a != x || b != y {
                        if index_of(w, a, b) == i {
                            lemma_index_injective(w, h, a, b, x as int, y as int);
                        }
                    }
                }
                assert forall|j: int| 0 <= j < g1.len() implies (#[trigger] g1[j]).mine == g0[j].mine
                    && g1[j].flagged == g0[j].flagged && g1[j].adjacent == g0[j].adjacent
                    && (g0[j].revealed ==> g1[j].revealed) && (g1[j].revealed && !g0[j].revealed
                    ==> !g1[j].flagged && (g1[j].mine ==> j == i)) by {}
            }
            lemma_reveal_wf(b0, *self, i as int);
        }
        Ok(())
    }

    /// Marks as a mine the free cell that has `r` free cells before it, and
    /// returns its position.
    fn place_mine_by_rank(&mut self, r: usize) -> (i: usize)
        requires
            old(self).grid().len() <= usize::MAX,
            r + count_mines(old(self).grid()) < old(self).grid().len(),
        ensures
            i < old(self).grid().len(),
            !old(self).grid()[i as int].mine,
            i - count_mines(old(self).grid().take(i as int)) == r,
            i == nth_free(old(self).grid(), r as int),
            final(self).grid() == old(self).grid().update(
                i as int,
                Cell { mine: true, ..old(self).grid()[i as int] },
            ),
            count_mines(final(self).grid()) == count_mines(old(self).grid()) + 1,
            final(self).w() == old(self).w(),
            final(self).h() == old(self).h(),
            final(self).mines() == old(self).mines(),
            final(self).over() == old(self).over(),
    {
        let ghost g = self.cells@;
        let n = self.cells.len();
        let mut i: usize = 0;
        let mut free: usize = 0;
        while i < n
            invariant
                g == old(self).grid(),
                n == g.len(),
                self.cells@ == g,
                self.width == old(self).width,
                self.height == old(self).height,
                self.mine_count == old(self).mine_count,
                self.game_over == old(self).game_over,
                0 <= i <= n,
                free == i - count_mines(g.take(i as int)),
                free <= r,
                r + count_mines(g) < n,
            decreases n - i,
        {
            proof {
                lemma_count_mines_prefix(g, i as int);
            }
            if !self.cells[i].mine {
                if free == r {
                    let c = self.cells[i];
                    self.cells.set(i, Cell { mine: true, ..c });
                    proof {
                        lemma_count_mines_update(g, i as int, Cell { mine: true, ..c });
                        let j = nth_free(g, r as int);
                        assert(free_before(g, i as int) == r);
                        if j < i {
                            lemma_free_before_grows(g, j, i as int);
                        } else if i < j {
                            lemma_free_before_grows(g, i as int, j);
                        }
                    }
                    return i;
                }
                free = free + 1;
            }
            i = i + 1;
        }
        proof {
            assert(g.take(n as int) =~= g);
        }
        // The free cells were counted through the whole grid: `r` lies below their number.
        assert(false);
        0
    }

    /// 1 when the neighbour at offset (`dx` - 1, `dy` - 1) from (x, y) is on
    /// the grid and holds a mine, else 0.
    fn mine_at_offset(&self, x: usize, y: usize, dx: usize, dy: usize) -> (r: u8)
        requires
            self.shaped(),
            self.in_bounds(x as int, y as int),
            dx <= 2,
            dy <= 2,
        ensures
            r == mine_weight(self.grid(), self.w(), self.h(), x + dx - 1, y + dy - 1),
    {
        if (dx == 0 && x == 0) || (dy == 0 && y == 0) {
            return 0;
        }
        let nx = if dx == 0 {
            x - 1
        } else {
            x + (dx - 1)
        };
        let ny = if dy == 0 {
            y - 1
        } else {
            y + (dy - 1)
        };
        if nx >= self.width || ny >= self.height {
            return 0;
        }
        proof {
            lemma_index_in_range(self.w(), self.h(), nx as int, ny as int);
        }
        if self.cells[ny * self.width + nx].mine {
            1
        } else {
            0
        }
    }

    /// The number of mines among the in-grid neighbours of (x, y).
    fn count_adjacent_mines(&self, x: usize, y: usize) -> (r: u8)
        requires
            self.shaped(),
            self.in_bounds(x as int, y as int),
        ensures
            r == adjacent_mines(self.grid(), self.w(), self.h(), x as int, y as int),
    {
        self.mine_at_offset(x, y, 0, 0) + self.mine_at_offset(x, y, 1, 0) + self.mine_at_offset(
            x,
            y,
            2,
            0,
        ) + self.mine_at_offset(x, y, 0, 1) + self.mine_at_offset(x, y, 2, 1)
            + self.mine_at_offset(x, y, 0, 2) + self.mine_at_offset(x, y, 1, 2)
            + self.mine_at_offset(x, y, 2, 2)
    }

    /// Stores in every cell without a mine the number of its neighbours that
    /// hold one. Nothing else changes.
    pub fn calculate_adjacency(&mut self)
        requires
            old(self).shaped(),
        ensures
            final(self).shaped(),
            final(self).counts_hold(),
            final(self).w() == old(self).w(),
            final(self).h() == old(self).h(),
            final(self).mines() == old(self).mines(),
            final(self).over() == old(self).over(),
            forall|i: int|
                0 <= i < old(self).grid().len() ==> (#[trigger] final(self).grid()[i]).mine
                    == old(self).grid()[i].mine && final(self).grid()[i].revealed == old(
                    self,
                ).grid()[i].revealed && final(self).grid()[i].flagged == old(
                    self,
                ).grid()[i].flagged && (old(self).grid()[i].mine ==> final(self).grid()[i]
                    == old(self).grid()[i]),
    {
        let ghost g0 = self.cells@;
        let n = self.cells.len();
        let mut i: usize = 0;
        while i < n
            invariant
                self.shaped(),
                n == g0.len(),
                n == self.grid().len(),
                n == self.w() * self.h(),
                self.w() == old(self).w(),
                self.h() == old(self).h(),
                self.mines() == old(self).mines(),
                self.over() == old(self).over(),
                g0 == old(self).grid(),
                0 <= i <= n,
                forall|j: int|
                    0 <= j < n ==> (#[trigger] self.grid()[j]).mine == g0[j].mine
                        && self.grid()[j].revealed == g0[j].revealed && self.grid()[j].flagged
                        == g0[j].flagged && (g0[j].mine ==> self.grid()[j] == g0[j]),
                forall|j: int|
                    0 <= j < i && !(#[trigger] self.grid()[j]).mine ==> self.grid()[j].adjacent
                        == adjacent_mines(g0, self.w(), self.h(), j % self.w(), j / self.w()),
            decreases n - i,
        {
            proof {
                lemma_coords_of_index(self.w(), self.h(), i as int);
                lemma_same_mines(self.cells@, g0, self.w(), self.h());
            }
            let c = self.cells[i];
            if !c.mine {
                let count = self.count_adjacent_mines(i % self.width, i / self.width);
                self.cells.set(i, Cell { adjacent: count, ..c });
            }
            i = i + 1;
        }
        proof {
            lemma_same_mines(self.cells@, g0, self.w(), self.h());
        }
    }
}

} // verus!
