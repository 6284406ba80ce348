use vstd::prelude::*;

verus! {

/// One grid position.
#[derive(Clone, Copy, Debug, PartialEq, Eq, Structural)]
pub struct Cell {
    pub mine: bool,
    pub revealed: bool,
    pub flagged: bool,
    /// Number of mines among the 8-connected neighbours; meaningful only when
    /// the cell is not a mine.
    pub adjacent: u8,
}

/// The decimal digit of `n`, for `1 <= n <= 8`.
pub open spec fn digit_char(n: nat) -> char {
    if n == 1 {
        '1'
    } else if n == 2 {
        '2'
    } else if n == 3 {
        '3'
    } else if n == 4 {
        '4'
    } else if n == 5 {
        '5'
    } else if n == 6 {
        '6'
    } else if n == 7 {
        '7'
    } else {
        '8'
    }
}

impl Cell {
    /// A cell with no mine, hidden, unflagged, and a zero count.
    pub fn new() -> (c: Cell)
        ensures
            !c.mine,
            !c.revealed,
            !c.flagged,
            c.adjacent == 0,
    {
        Cell { mine: false, revealed: false, flagged: false, adjacent: 0 }
    }

    /// How the cell is drawn: `*` a revealed mine, the count of a revealed
    /// cell that touches mines, a blank for a revealed cell that touches none,
    /// `F` a flagged hidden cell, `#` any other hidden cell.
    pub open spec fn symbol_of(self) -> char {
        if self.revealed {
            if self.mine {
                '*'
            } else if self.adjacent == 0 {
                ' '
            } else {
                digit_char(self.adjacent as nat)
            }
        } else if self.flagged {
            'F'
        } else {
            '#'
        }
    }

    pub fn symbol(&self) -> (r: char)
        requires
            self.mine || self.adjacent <= 8,
        ensures
            r == self.symbol_of(),
    {
        if self.revealed {
            if self.mine {
                '*'
            } else {
                match self.adjacent {
                    0 => ' ',
                    1 => '1',
                    2 => '2',
                    3 => '3',
                    4 => '4',
                    5 => '5',
                    6 => '6',
                    7 => '7',
                    _ => '8',
                }
            }
        } else if self.flagged {
            'F'
        } else {
            '#'
        }
    }

    /// A cell that holds no mine and touches none: revealing it opens its neighbours.
    pub open spec fn is_blank(self) -> bool {
        !self.mine && self.adjacent == 0
    }
}

} // verus!
