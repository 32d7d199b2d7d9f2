//! The fishing jigsaw: pieces are placed on a board of `N` rows and `M`
//! columns until every cell is covered.
//!
//! A board is a 24-bit mask. The cell in column `x` and row `y` has the
//! offset pair `(x, y)` and the action `x * N + y`, and it is the bit
//! `(1 << 23) >> action`. A figure is drawn with its top left cell at bit
//! 23; placing it at action `a` shifts it right by `a`.
use crate::mcts::Environment;
use crate::moves::{lemma_upto, upto};
use rand::rngs::StdRng;
use vstd::prelude::*;

verus! {

pub const N: u8 = 4;

pub const M: u8 = 6;

pub const TOTAL_CELLS: u8 = 24;

/// The move that places nothing.
pub const SKIP_ACTION: u8 = 24;

pub const TOTAL_ACTIONS: u8 = 25;

pub const TOTAL_FIGURES: usize = 6;

/// The board with every cell covered.
pub const TERMINAL_STATE: u32 = 0x00ff_ffff;

pub const INIT_STATE: u32 = 0;

/// A piece: its cells in the board's layout, its number of cells, and the
/// largest column and row offsets at which it stays on the board.
#[derive(Clone, Copy, Debug)]
pub struct Figure {
    pub value: u32,
    pub size: u8,
    pub max_offset: (u8, u8),
}

/// The six pieces of the game.
pub open spec fn figure_spec(index: int) -> Figure {
    if index == 0 {
        Figure { value: 0b1000_0000_0000_0000_0000_0000, size: 1, max_offset: (5, 3) }
    } else if index == 1 {
        Figure { value: 0b1110_0000_0000_0000_0000_0000, size: 3, max_offset: (5, 1) }
    } else if index == 2 {
        Figure { value: 0b1100_0100_0000_0000_0000_0000, size: 3, max_offset: (4, 2) }
    } else if index == 3 {
        Figure { value: 0b1000_1100_0000_0000_0000_0000, size: 3, max_offset: (4, 2) }
    } else if index == 4 {
        Figure { value: 0b1100_1100_0000_0000_0000_0000, size: 4, max_offset: (4, 2) }
    } else {
        Figure { value: 0b1000_1100_0100_0000_0000_0000, size: 4, max_offset: (3, 2) }
    }
}

/// The piece with the given index.
pub fn figure_at(index: usize) -> (r: Figure)
    requires
        index < TOTAL_FIGURES,
    ensures
        r == figure_spec(index as int),
{
    if index == 0 {
        Figure { value: 0b1000_0000_0000_0000_0000_0000, size: 1, max_offset: (5, 3) }
    } else if index == 1 {
        Figure { value: 0b1110_0000_0000_0000_0000_0000, size: 3, max_offset: (5, 1) }
    } else if index == 2 {
        Figure { value: 0b1100_0100_0000_0000_0000_0000, size: 3, max_offset: (4, 2) }
    } else if index == 3 {
        Figure { value: 0b1000_1100_0000_0000_0000_0000, size: 3, max_offset: (4, 2) }
    } else if index == 4 {
        Figure { value: 0b1100_1100_0000_0000_0000_0000, size: 4, max_offset: (4, 2) }
    } else {
        Figure { value: 0b1000_1100_0100_0000_0000_0000, size: 4, max_offset: (3, 2) }
    }
}

/// The bit of the cell at `offsets`.
pub open spec fn cell_mask(offsets: (u8, u8)) -> u32 {
    0x0080_0000u32 >> ((offsets.0 * N + offsets.1) as u32)
}

/// `offsets` name a cell of the board.
pub open spec fn on_board(offsets: (u8, u8)) -> bool {
    offsets.0 < M && offsets.1 < N
}

/// Whether `figure` can be put at `action` on `board`: its offsets stay
/// within the figure's range and it covers no covered cell.
pub open spec fn fits(board: u32, figure: Figure, action: u8) -> bool {
    &&& (action >> 2u8) <= figure.max_offset.0
    &&& (action & 3u8) <= figure.max_offset.1
    &&& board & (figure.value >> (action as u32)) == 0
}

/// A position: the covered cells, the index of the piece in hand, and the
/// number of moves made.
#[derive(Clone, Copy, Debug)]
pub struct Jigsaw {
    pub board: u32,
    pub figure: u8,
    pub round: u8,
}

/// The seedable generator of `rand`, carried through unopened.
#[verifier::external_type_specification]
#[verifier::external_body]
pub struct ExStdRng(StdRng);

/// Relies on `rand::Rng::gen_range` on a `StdRng`: a value drawn from
/// `0..bound`; `gen_range` panics only on an empty range.
#[verifier::external_body]
fn draw_below(rng: &mut StdRng, bound: usize) -> (r: usize)
    requires
        0 < bound,
    ensures
        r < bound,
{
    rand::Rng::gen_range(rng, 0..bound)
}

impl Jigsaw {
    /// Whether `action` is legal: skipping always is; a cell action is
    /// when the piece in hand fits there. An index that names no piece fits
    /// nowhere.
    pub open spec fn legal_spec(&self, action: u8) -> bool {
        action == SKIP_ACTION || (self.figure < TOTAL_FIGURES && action < TOTAL_CELLS && fits(
            self.board,
            figure_spec(self.figure as int),
            action,
        ))
    }

    /// The actions that are legal.
    pub open spec fn legal_pred(&self) -> spec_fn(u8) -> bool {
        |a: u8| self.legal_spec(a)
    }

    /// Puts a random piece in hand.
    pub fn set_random_figure(&mut self, rng: &mut StdRng)
        ensures
            final(self).figure < TOTAL_FIGURES,
            final(self).board == old(self).board,
            final(self).round == old(self).round,
    {
        self.figure = draw_below(rng, TOTAL_FIGURES) as u8;
    }

    pub fn has_finished(&self) -> (r: bool)
        ensures
            r == (self.board == TERMINAL_STATE),
    {
        self.board == TERMINAL_STATE
    }

    /// Places the piece in hand at `action`, or nothing when skipping, and
    /// counts the move.
    pub fn perform_action(&mut self, action: u8)
        requires
            old(self).legal_spec(action),
        ensures
            final(self).board == if action == SKIP_ACTION {
                old(self).board
            } else {
                old(self).board | (figure_spec(old(self).figure as int).value >> (action as u32))
            },
            final(self).figure == old(self).figure,
            final(self).round == old(self).round.wrapping_add(1),
    {
        if action != SKIP_ACTION {
            let figure = self.figure();
            self.board = self.board | (figure.value >> action);
        }
        self.round = self.round.wrapping_add(1);
    }

    /// The piece in hand.
    pub fn figure(&self) -> (r: Figure)
        requires
            self.figure < TOTAL_FIGURES,
        ensures
            r == figure_spec(self.figure as int),
    {
        figure_at(self.figure as usize)
    }

    fn mask(offsets: (u8, u8)) -> (r: u32)
        requires
            on_board(offsets),
        ensures
            r == cell_mask(offsets),
    {
        0x0080_0000u32 >> Self::offset_to_action(offsets)
    }

    /// Whether the cell at `offsets` is covered.
    pub fn get_value(&self, offsets: (u8, u8)) -> (r: bool)
        requires
            on_board(offsets),
        ensures
            r == (self.board & cell_mask(offsets) != 0),
    {
        let mask = Self::mask(offsets);
        (self.board & mask) != 0
    }

    /// Covers or uncovers the cell at `offsets`.
    pub fn toggle(&mut self, offsets: (u8, u8))
        requires
            on_board(offsets),
        ensures
            final(self).board == old(self).board ^ cell_mask(offsets),
            final(self).figure == old(self).figure,
            final(self).round == old(self).round,
    {
        let mask = Self::mask(offsets);
        self.board = self.board ^ mask;
    }

    /// Whether `action` is legal in this position.
    pub fn is_legal(&self, action: u8) -> (r: bool)
        requires
            action < TOTAL_ACTIONS,
        ensures
            r == self.legal_spec(action),
    {
        if action == SKIP_ACTION {
            return true;
        }
        if self.figure as usize >= TOTAL_FIGURES {
            return false;
        }
        let (x_offset, y_offset) = Jigsaw::action_to_offsets(action);
        let figure = self.figure();
        let mut ilegal = false;
        ilegal = ilegal || x_offset > figure.max_offset.0;
        ilegal = ilegal || y_offset > figure.max_offset.1;
        ilegal = ilegal || (self.board & (figure.value >> action)) != 0;
        !ilegal
    }

    /// The legal actions in increasing order; skipping is always among them.
    pub fn legal_actions(&self) -> (r: Vec<u8>)
        ensures
            r@ == upto(self.legal_pred(), TOTAL_ACTIONS as nat),
    {
        let mut actions: Vec<u8> = Vec::new();
        let mut action: u8 = 0;
        while action < TOTAL_ACTIONS
            invariant
                action <= TOTAL_ACTIONS,
                actions@ == upto(self.legal_pred(), action as nat),
            decreases TOTAL_ACTIONS - action,
        {
            if self.is_legal(action) {
                actions.push(action);
            }
            action = action + 1;
        }
        actions
    }

    /// The column and row offsets of a cell action.
    pub fn action_to_offsets(action: u8) -> (r: (u8, u8))
        ensures
            r == (action >> 2u8, action & 3u8),
    {
        (action >> 2, action & 0b11)
    }

    /// The cell action of a pair of offsets.
    pub fn offset_to_action(offsets: (u8, u8)) -> (r: u8)
        requires
            offsets.0 * N + offsets.1 <= u8::MAX,
        ensures
            r == offsets.0 * N + offsets.1,
    {
        offsets.0 * N + offsets.1
    }

    /// Splitting a byte into offsets and joining them gives the byte back.
    pub proof fn lemma_offsets_round_trip(action: u8)
        ensures
            (action >> 2u8) * N + (action & 3u8) == action,
    {
        assert((action >> 2u8) <= 63u8 && (action & 3u8) <= 3u8) by (bit_vector);
        assert(((action >> 2u8) * 4u8 + (action & 3u8)) as u8 == action) by (bit_vector);
    }

    /// Whether the piece in hand, put at `action`, covers the cell at
    /// `offsets`.
    pub fn fig_intesect(&self, action: u8, offsets: (u8, u8)) -> (r: bool)
        requires
            self.figure < TOTAL_FIGURES,
            action < TOTAL_ACTIONS,
            on_board(offsets),
        ensures
            r == ((figure_spec(self.figure as int).value >> (action as u32)) & cell_mask(offsets) != 0),
    {
        let f = self.figure().value >> action;
        let m = Self::mask(offsets);
        (f & m) != 0
    }
}

impl Environment for Jigsaw {
    type Action = u8;

    open spec fn finished(&self) -> bool {
        self.board == TERMINAL_STATE
    }

    open spec fn legal(&self) -> Seq<u8> {
        upto(self.legal_pred(), TOTAL_ACTIONS as nat)
    }

    open spec fn reward(&self) -> i32 {
        if self.board == TERMINAL_STATE {
            1
        } else {
            0
        }
    }

    open spec fn moves_to(&self, action: u8, next: Jigsaw) -> bool {
        next == Jigsaw {
            board: if action == SKIP_ACTION {
                self.board
            } else {
                self.board | (figure_spec(self.figure as int).value >> (action as u32))
            },
            figure: self.figure,
            round: self.round.wrapping_add(1),
        }
    }

    proof fn lemma_legal_distinct(&self) {
        lemma_upto(self.legal_pred(), TOTAL_ACTIONS as nat);
    }

    fn has_finished(&self) -> (r: bool) {
        Jigsaw::has_finished(self)
    }

    fn perform_action(&mut self, action: u8) {
        proof {
            lemma_upto(self.legal_pred(), TOTAL_ACTIONS as nat);
        }
        Jigsaw::perform_action(self, action);
    }

    fn legal_actions(&self) -> (r: Vec<u8>) {
        proof {
            lemma_upto(self.legal_pred(), TOTAL_ACTIONS as nat);
            assert(self.legal_spec(SKIP_ACTION));
        }
        Jigsaw::legal_actions(self)
    }

    /// 1 for a covered board, 0 otherwise.
    fn eval(&self) -> (r: i32) {
        if Jigsaw::has_finished(self) {
            1
        } else {
            0
        }
    }
}

impl Default for Jigsaw {
    fn default() -> (r: Self)
        ensures
            r.board == INIT_STATE,
            r.figure == 0,
            r.round == 0,
    {
        Self { board: INIT_STATE, figure: 0, round: 0 }
    }
}

/// Whether `figure`, put at the offsets `(x_offset, y_offset)`, lies within
/// its range and only on covered cells of `board`.
pub fn is_possible(board: u32, figure: &Figure, x_offset: u8, y_offset: u8) -> (r: bool)
    requires
        x_offset < M,
        y_offset < N,
    ensures
        r == (x_offset <= figure.max_offset.0 && y_offset <= figure.max_offset.1 && (board | (
        figure.value >> ((x_offset * N + y_offset) as u32))) == board),
{
    let mut ilegal = false;
    ilegal = ilegal || x_offset > figure.max_offset.0;
    ilegal = ilegal || y_offset > figure.max_offset.1;
    ilegal = ilegal || (board | figure.value >> (x_offset * N + y_offset)) != board;
    !ilegal
}

} // verus!
