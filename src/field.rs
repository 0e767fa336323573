//! A single cell of the board: whether it holds a mine, and what the player
//! sees of it.
use crate::grid::{adjacent, col_of, index_of, neighbor_count, neighbors, row_of, to_pos};
use vstd::prelude::*;

verus! {

/// What the player sees of a cell.
#[derive(Clone, Copy, Debug, PartialEq, Eq, Structural)]
pub enum FieldState {
    Closed,
    Opened,
    Flagged,
}

impl Default for FieldState {
    fn default() -> (r: Self)
        ensures
            r == FieldState::Closed,
    {
        FieldState::Closed
    }
}

/// One cell: its mine flag, its visibility, its flat index on the board and
/// the number of mines among its neighbours (kept at 0 for a mine).
#[derive(Clone, Copy, Debug, PartialEq, Eq, Structural)]
pub struct Field {
    pub state: FieldState,
    pub is_mine: bool,
    pub index: usize,
    pub adjacent_mines: u8,
}

/// The visibility that toggling a flag on a cell in state `s` leads to.
pub open spec fn toggled(s: FieldState) -> FieldState {
    match s {
        FieldState::Closed => FieldState::Flagged,
        FieldState::Flagged => FieldState::Closed,
        FieldState::Opened => FieldState::Opened,
    }
}

impl Field {
    /// The cell that `new` builds.
    pub open spec fn new_spec(is_mine: bool, index: usize) -> Field {
        Field { state: FieldState::Closed, is_mine, index, adjacent_mines: 0 }
    }

    /// A closed cell at `index`, with no adjacent mines counted yet.
    pub fn new(is_mine: bool, index: usize) -> (r: Self)
        ensures
            r == Field::new_spec(is_mine, index),
    {
        Field { state: FieldState::default(), is_mine, index, adjacent_mines: 0 }
    }

    /// Index of `pos` on a square board `board_size` cells wide.
    pub fn pos_to_index(pos: (u8, u8), board_size: u8) -> (r: isize)
        ensures
            r == index_of(pos.0 as int, pos.1 as int, board_size as int),
    {
        assert(pos.1 * board_size <= 255 * 255) by (nonlinear_arith);
        pos.0 as isize + pos.1 as isize * board_size as isize
    }

    /// Position of this cell on a square board `board_size` cells wide.
    pub fn get_pos(&self, board_size: u8) -> (r: (u8, u8))
        requires
            board_size > 0,
            self.index < 256 * board_size,
        ensures
            r.0 == col_of(self.index as int, board_size as int),
            r.1 == row_of(self.index as int, board_size as int),
    {
        let (x, y) = to_pos(self.index, board_size as usize);
        assert(y < 256) by (nonlinear_arith)
            requires
                y == self.index as int / board_size as int,
                self.index < 256 * board_size,
                board_size > 0,
        ;
        (x as u8, y as u8)
    }

    /// Opens a closed cell. Returns whether it was closed; an opened or a
    /// flagged cell is left as it is.
    pub fn open(&mut self) -> (r: bool)
        ensures
            r == (old(self).state == FieldState::Closed),
            *final(self) == (if r { Field { state: FieldState::Opened, ..*old(self) } } else { *old(self) }),
    {
        if self.state == FieldState::Closed {
            self.state = FieldState::Opened;
            true
        } else {
            false
        }
    }

    /// Toggles the flag of a closed or flagged cell; an opened cell keeps its
    /// state. Returns the new state.
    pub fn toggle_flag(&mut self) -> (r: FieldState)
        ensures
            *final(self) == (Field { state: toggled(old(self).state), ..*old(self) }),
            r == toggled(old(self).state),
    {
        self.state = match self.state {
            FieldState::Closed => FieldState::Flagged,
            FieldState::Flagged => FieldState::Closed,
            FieldState::Opened => FieldState::Opened,
        };
        self.state
    }

    /// Indices of the cells around this one on a `width` by `height` board,
    /// in increasing order.
    pub fn get_neighbour_indixes(&self, width: usize, height: usize) -> (r: Vec<usize>)
        requires
            self.index < width * height,
            width * height <= usize::MAX,
        ensures
            forall|j: usize| #[trigger]
                r@.contains(j) <==> adjacent(self.index as int, j as int, width as int, height as int),
            forall|a: int, b: int| 0 <= a < b < r.len() ==> r@[a] < r@[b],
            r.len() == neighbor_count(
                col_of(self.index as int, width as int),
                row_of(self.index as int, width as int),
                width as int,
                height as int,
            ),
    {
        assert(width > 0) by (nonlinear_arith)
            requires
                self.index < width * height,
        ;
        let (x, y) = to_pos(self.index, width);
        proof {
            vstd::arithmetic::div_mod::lemma_fundamental_div_mod(self.index as int, width as int);
            assert(y < height) by (nonlinear_arith)
                requires
                    self.index == width * y + x,
                    0 <= x,
                    self.index < width * height,
            ;
            assert(index_of(x as int, y as int, width as int) == self.index) by (nonlinear_arith)
                requires
                    self.index == width * y + x,
            ;
        }
        neighbors(x, y, width, height)
    }
}

} // verus!
