//! The fishing jigsaw in row-major layout, drawing a random piece after
//! every move.
//!
//! The cell in row `r` and column `c` has the index `6 * r + c` and is the
//! bit `(1 << 23) >> index`. A figure is drawn with its top left cell at bit
//! 23; placing it at action `a` shifts it right by `a`.
use crate::mcts::Environment;
use crate::moves::{lemma_upto, upto};
use crate::random::random_below;
use vstd::prelude::*;

verus! {

pub const ROWS: u8 = 4;

pub const COLS: u8 = 6;

/// The move that places nothing.
pub const SKIP_ACTION: u8 = 24;

pub const TOTAL_FIGURES: u8 = 6;

pub const TOTAL_ACTIONS: u8 = 25;

/// The cells of one row.
pub const COLUMN_MASK: u32 = 0x3f;

/// The covered board.
pub const FULL_BOARD: u32 = 0x00ff_ffff;

/// The six pieces of the game.
pub open spec fn figure_spec(index: int) -> u32 {
    if index == 0 {
        0b100000000000000000000000
    } else if index == 1 {
        0b100000100000100000000000
    } else if index == 2 {
        0b100000110000000000000000
    } else if index == 3 {
        0b110000010000000000000000
    } else if index == 4 {
        0b110000110000000000000000
    } else {
        0b110000011000000000000000
    }
}

/// The piece with the given index.
pub fn figure_at(index: u8) -> (r: u32)
    requires
        index < TOTAL_FIGURES,
    ensures
        r == figure_spec(index as int),
{
    if index == 0 {
        0b100000000000000000000000
    } else if index == 1 {
        0b100000100000100000000000
    } else if index == 2 {
        0b100000110000000000000000
    } else if index == 3 {
        0b110000010000000000000000
    } else if index == 4 {
        0b110000110000000000000000
    } else {
        0b110000011000000000000000
    }
}

/// The bit of the cell with the given index.
pub open spec fn cell_bit(index: u8) -> u32 {
    0x0080_0000u32 >> (index as u32)
}

/// Row `row` of `figure`, counted from the bottom, has no cell in its
/// `x` leftmost-shifted positions: moving it right by `x` stays in the row.
pub open spec fn row_fits(figure: u32, row: u8, x: u8) -> bool {
    let figure_row = (figure >> ((COLS * row) as u32)) & COLUMN_MASK;
    ((figure_row >> (x as u32)) << (x as u32)) == figure_row
}

/// Whether `figure` can be put at `action` on `board`: it covers no
/// covered cell, loses no cell off the board, and wraps no row.
pub open spec fn fits(board: u32, figure: u32, action: u8) -> bool {
    &&& board & (figure >> (action as u32)) == 0
    &&& ((figure >> (action as u32)) << (action as u32)) == figure
    &&& forall|row: u8| row < ROWS ==> #[trigger] row_fits(figure, row, action % COLS)
}

/// A position: the covered cells, the index of the piece in hand, and the
/// number of moves made.
#[derive(Clone, Copy, Debug)]
pub struct Jigsaw {
    pub board: u32,
    pub figure_index: u8,
    pub quantity: u8,
}

/// A piece index drawn at random.
fn random_figure() -> (r: u8)
    ensures
        r < TOTAL_FIGURES,
{
    random_below(TOTAL_FIGURES as usize) as u8
}

impl Jigsaw {
    /// Whether `action` is legal: skipping always is; a cell action is
    /// when the piece in hand fits there. An index that names no piece fits
    /// nowhere.
    pub open spec fn legal_spec(&self, action: u8) -> bool {
        action == SKIP_ACTION || (self.figure_index < TOTAL_FIGURES && action < SKIP_ACTION && fits(
            self.board,
            figure_spec(self.figure_index as int),
            action,
        ))
    }

    /// The actions that are legal.
    pub open spec fn legal_pred(&self) -> spec_fn(u8) -> bool {
        |a: u8| self.legal_spec(a)
    }

    /// The index of the cell in `row` and `col`.
    pub fn index(row: u8, col: u8) -> (r: u8)
        requires
            row < ROWS,
            col < COLS,
        ensures
            r == 6 * row + col,
    {
        6 * row + col
    }

    /// Covers or uncovers the cell in `row` and `col`.
    pub fn toggle_coord(&mut self, row: u8, col: u8)
        requires
            row < ROWS,
            col < COLS,
        ensures
            final(self).board == old(self).board ^ cell_bit((row * COLS + col) as u8),
            final(self).figure_index == old(self).figure_index,
            final(self).quantity == old(self).quantity,
    {
        let x: u32 = 0x0080_0000;
        self.board = self.board ^ (x >> (row * COLS + col));
    }

    /// Whether the cell in `row` and `col` is covered.
    pub fn coord(&self, row: u8, col: u8) -> (r: bool)
        requires
            row < ROWS,
            col < COLS,
        ensures
            r == (self.board & cell_bit((row * COLS + col) as u8) != 0),
    {
        let x: u32 = 0x0080_0000;
        (self.board & (x >> (row * COLS + col))) != 0
    }

    /// Whether the piece in hand, put at `action`, covers the cell with the
    /// given index.
    pub fn in_figure(&self, action: u8, index: u8) -> (r: bool)
        requires
            self.figure_index < TOTAL_FIGURES,
            action < TOTAL_ACTIONS,
            index < SKIP_ACTION,
        ensures
            r == ((figure_spec(self.figure_index as int) >> (action as u32)) & cell_bit(index) != 0),
    {
        (self.figure() >> action) & (0x0080_0000u32 >> index) != 0
    }

    /// The piece in hand.
    pub fn figure(&self) -> (r: u32)
        requires
            self.figure_index < TOTAL_FIGURES,
        ensures
            r == figure_spec(self.figure_index as int),
    {
        figure_at(self.figure_index)
    }

    /// Whether `action` is legal in this position.
    pub fn is_legal(&self, action: u8) -> (r: bool)
        requires
            action < TOTAL_ACTIONS,
        ensures
            r == self.legal_spec(action),
    {
        if action == SKIP_ACTION {
            return true;
        }
        if self.figure_index >= TOTAL_FIGURES {
            return false;
        }
        let x_offset = action % COLS;
        let figure = self.figure();
        if (self.board & (figure >> action)) != 0 {
            return false;
        }
        if ((figure >> action) << action) != figure {
            return false;
        }
        let mut row: u8 = 0;
        while row < ROWS
            invariant
                row <= ROWS,
                x_offset == action % COLS,
                action < SKIP_ACTION,
                self.figure_index < TOTAL_FIGURES,
                figure == figure_spec(self.figure_index as int),
                self.board & (figure >> (action as u32)) == 0,
                ((figure >> (action as u32)) << (action as u32)) == figure,
                forall|r: u8| r < row ==> #[trigger] row_fits(figure, r, x_offset),
            decreases ROWS - row,
        {
            let figure_row = (figure >> (COLS * row)) & COLUMN_MASK;
            if ((figure_row >> x_offset) << x_offset) != figure_row {
                proof {
                    assert(!row_fits(figure, row, x_offset));
                }
                return false;
            }
            row = row + 1;
        }
        true
    }

    pub fn has_finished(&self) -> (r: bool)
        ensures
            r == (self.board == FULL_BOARD),
    {
        self.board == FULL_BOARD
    }

    /// Places the piece in hand at `action`, or nothing when skipping,
    /// counts the move, and draws a random piece.
    pub fn perform_action(&mut self, action: u8)
        requires
            old(self).legal_spec(action),
        ensures
            final(self).board == if action == SKIP_ACTION {
                old(self).board
            } else {
                old(self).board | (figure_spec(old(self).figure_index as int) >> (action as u32))
            },
            final(self).quantity == old(self).quantity.wrapping_add(1),
            final(self).figure_index < TOTAL_FIGURES,
    {
        if action != SKIP_ACTION {
            self.board = self.board | (self.figure() >> action);
        }
        self.quantity = self.quantity.wrapping_add(1);
        self.figure_index = random_figure();
    }

    /// The legal actions in increasing order; skipping is always among them.
    pub fn legal_actions(&self) -> (r: Vec<u8>)
        ensures
            r@ == upto(self.legal_pred(), TOTAL_ACTIONS as nat),
    {
        let mut actions: Vec<u8> = Vec::new();
        let mut action: u8 = 0;
        while action < TOTAL_ACTIONS
            invariant
                action <= TOTAL_ACTIONS,
                actions@ == upto(self.legal_pred(), action as nat),
            decreases TOTAL_ACTIONS - action,
        {
            if self.is_legal(action) {
                actions.push(action);
            }
            action = action + 1;
        }
        actions
    }

}

impl Default for Jigsaw {
    /// A fresh game: an empty board, a random piece, no moves.
    fn default() -> (r: Self)
        ensures
            r.board == 0,
            r.figure_index < TOTAL_FIGURES,
            r.quantity == 0,
    {
        Self { board: 0, figure_index: random_figure(), quantity: 0 }
    }
}

impl Environment for Jigsaw {
    type Action = u8;

    open spec fn finished(&self) -> bool {
        self.board == FULL_BOARD
    }

    open spec fn legal(&self) -> Seq<u8> {
        upto(self.legal_pred(), TOTAL_ACTIONS as nat)
    }

    open spec fn reward(&self) -> i32 {
        if self.board == FULL_BOARD {
            1
        } else {
            0
        }
    }

    /// The piece is placed and the move counted; the next piece in hand is
    /// any of the six.
    open spec fn moves_to(&self, action: u8, next: Jigsaw) -> bool {
        &&& next.board == if action == SKIP_ACTION {
            self.board
        } else {
            self.board | (figure_spec(self.figure_index as int) >> (action as u32))
        }
        &&& next.quantity == self.quantity.wrapping_add(1)
        &&& next.figure_index < TOTAL_FIGURES
    }

    proof fn lemma_legal_distinct(&self) {
        lemma_upto(self.legal_pred(), TOTAL_ACTIONS as nat);
    }

    fn has_finished(&self) -> (r: bool) {
        Jigsaw::has_finished(self)
    }

    fn perform_action(&mut self, action: u8) {
        proof {
            lemma_upto(self.legal_pred(), TOTAL_ACTIONS as nat);
        }
        Jigsaw::perform_action(self, action);
    }

    fn legal_actions(&self) -> (r: Vec<u8>) {
        proof {
            lemma_upto(self.legal_pred(), TOTAL_ACTIONS as nat);
            assert((self.legal_pred())(SKIP_ACTION));
        }
        Jigsaw::legal_actions(self)
    }

    /// 1 for a covered board, 0 otherwise.
    fn eval(&self) -> (r: i32) {
        if Jigsaw::has_finished(self) {
            1
        } else {
            0
        }
    }
}

} // verus!
