//! The boundary a driving loop consumes: anything that can list its alive
//! cells, advance a generation, and tell its extent can be simulated and
//! shown.

use vstd::prelude::*;

use crate::board::Board;

verus! {

/// What a driving loop needs from a Game of Life board.
pub trait GameOfLifeBoard: Sized + Clone {
    /// The invariant a value of the type keeps between generations.
    spec fn inv(&self) -> bool;

    /// The coordinates the current generation holds alive.
    spec fn spec_alive_cells(&self) -> Seq<(usize, usize)>;

    /// The extent, if the board has one.
    spec fn spec_size(&self) -> Option<(usize, usize)>;

    /// The coordinates of the currently alive cells.
    fn alive_cells(&self) -> (alive: &[(usize, usize)])
        requires
            self.inv(),
        ensures
            alive@ == self.spec_alive_cells(),
    ;

    /// The next generation.
    fn tick(&self) -> (next: Self)
        requires
            self.inv(),
        ensures
            next.inv(),
            next.spec_size() == self.spec_size(),
    ;

    /// The extent, if the board has one.
    fn size(&self) -> (size: Option<(usize, usize)>)
        requires
            self.inv(),
        ensures
            size == self.spec_size(),
    ;
}

/// A board with no cells at all, for a driver that has nothing to show yet.
#[derive(Clone, Copy)]
pub struct EmptyBoard;

impl GameOfLifeBoard for EmptyBoard {
    open spec fn inv(&self) -> bool {
        true
    }

    open spec fn spec_alive_cells(&self) -> Seq<(usize, usize)> {
        Seq::empty()
    }

    open spec fn spec_size(&self) -> Option<(usize, usize)> {
        None
    }

    fn alive_cells(&self) -> (alive: &[(usize, usize)]) {
        &[]
    }

    fn tick(&self) -> (next: EmptyBoard) {
        EmptyBoard
    }

    fn size(&self) -> (size: Option<(usize, usize)>) {
        None
    }
}

impl GameOfLifeBoard for Board {
    open spec fn inv(&self) -> bool {
        self.wf()
    }

    open spec fn spec_alive_cells(&self) -> Seq<(usize, usize)> {
        self.alive_list()
    }

    open spec fn spec_size(&self) -> Option<(usize, usize)> {
        Some(((self.spec_width() as usize), (self.spec_height() as usize)))
    }

    fn alive_cells(&self) -> (alive: &[(usize, usize)]) {
        Board::alive_cells(self).as_slice()
    }

    fn tick(&self) -> (next: Board) {
        Board::tick(self)
    }

    fn size(&self) -> (size: Option<(usize, usize)>) {
        Some((self.width(), self.height()))
    }
}

} // verus!
