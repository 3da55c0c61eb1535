//! A single Game of Life cell, packed into one byte: the alive flag lives in
//! the top bit, the cached neighbour count in the low seven bits (of which
//! only values 0 through 8 ever occur).

use vstd::prelude::*;

verus! {

/// Bit of the packed byte that records that the cell is alive.
const LIVE: u8 = 0x80;

/// Bits of the packed byte that record the cached neighbour count.
const NEIGHBOUR: u8 = 0x7f;

/// A single Game of Life cell.
#[derive(Clone, Copy, PartialEq, Eq, Structural, Hash, Debug)]
pub struct Cell(u8);

/// The mathematical content of a packed cell: its alive flag and its cached
/// neighbour count.
#[verifier::ext_equal]
pub struct CellView {
    pub alive: bool,
    pub count: int,
}

impl View for Cell {
    type V = CellView;

    closed spec fn view(&self) -> CellView {
        CellView { alive: self.0 & LIVE != 0, count: (self.0 & NEIGHBOUR) as int }
    }
}

/// The transition rule: an alive cell survives exactly when it has two or
/// three alive neighbours; a dead cell is born exactly when it has three.
pub open spec fn spec_next(alive: bool, count: int) -> bool {
    if alive {
        2 <= count <= 3
    } else {
        count == 3
    }
}

impl Cell {
    /// A cell is well formed when its cached neighbour count is one a cell of
    /// an eight-neighbour grid can actually have.
    pub open spec fn wf(self) -> bool {
        0 <= self@.count <= 8
    }

    /// Packs an alive flag and a neighbour count into a cell. A count outside
    /// `[0, 8]` is a caller bug and is ruled out by the contract.
    pub fn new(is_alive: bool, neighbour_count: i8) -> (cell: Cell)
        requires
            0 <= neighbour_count <= 8,
        ensures
            cell@.alive == is_alive,
            cell@.count == neighbour_count,
            cell.wf(),
    {
        let n = neighbour_count as u8;
        proof {
            assert((n | 0x80u8) & 0x80u8 != 0 && (n | 0x80u8) & 0x7fu8 == n && n & 0x80u8 == 0
                && n & 0x7fu8 == n) by (bit_vector)
                requires
                    n <= 8,
            ;
        }
        if is_alive {
            Cell(n | LIVE)
        } else {
            Cell(n)
        }
    }

    /// A dead cell with no alive neighbours yet: the state every cell of a
    /// freshly built board starts in.
    pub fn empty() -> (cell: Cell)
        ensures
            !cell@.alive,
            cell@.count == 0,
            cell.wf(),
    {
        Cell::new(false, 0)
    }

    pub fn is_alive(self) -> (alive: bool)
        ensures
            alive == self@.alive,
    {
        self.0 & LIVE != 0
    }

    pub fn is_dead(self) -> (dead: bool)
        ensures
            dead == !self@.alive,
    {
        !self.is_alive()
    }

    /// Sets the alive flag and nothing else; the caller is responsible for
    /// the neighbour-count bookkeeping of the surrounding cells.
    pub fn make_alive(&mut self)
        ensures
            final(self)@.alive,
            final(self)@.count == old(self)@.count,
    {
        let ghost pre = self.0;
        proof {
            assert((pre | 0x80u8) & 0x80u8 != 0 && (pre | 0x80u8) & 0x7fu8 == pre & 0x7fu8)
                by (bit_vector);
        }
        self.0 = self.0 | LIVE;
    }

    /// Clears the alive flag and nothing else.
    pub fn make_dead(&mut self)
        ensures
            !final(self)@.alive,
            final(self)@.count == old(self)@.count,
    {
        let ghost pre = self.0;
        proof {
            assert((pre & 0x7fu8) & 0x80u8 == 0 && (pre & 0x7fu8) & 0x7fu8 == pre & 0x7fu8)
                by (bit_vector);
        }
        self.0 = self.0 & NEIGHBOUR;
    }

    /// Adds one to the cached neighbour count, leaving the alive flag alone.
    /// The board calls this once for each neighbour that comes alive, and a
    /// cell has at most eight of those.
    pub(crate) fn increment_neighbour_count(&mut self)
        requires
            old(self)@.count < 8,
        ensures
            final(self)@.count == old(self)@.count + 1,
            final(self)@.alive == old(self)@.alive,
    {
        let ghost pre = self.0;
        proof {
            assert(pre & 0x7fu8 < 8 ==> pre < 255 && ((pre + 1) as u8) & 0x7fu8 == (pre & 0x7fu8)
                + 1 && ((pre + 1) as u8) & 0x80u8 == pre & 0x80u8) by (bit_vector);
        }
        self.0 = self.0 + 1;
    }

    pub fn neighbour_count(self) -> (count: i8)
        ensures
            count == self@.count,
    {
        let ghost v = self.0;
        proof {
            assert(v & 0x7fu8 <= 127) by (bit_vector);
        }
        (self.0 & NEIGHBOUR) as i8
    }

    /// The transition rule applied to this cell's packed state. These are
    /// pure reads of the cached count: they do not recompute neighbours, so
    /// they are only meaningful while the owning board's bookkeeping holds.
    pub fn next_state(self) -> (next: bool)
        ensures
            next == spec_next(self@.alive, self@.count),
    {
        if self.is_alive() {
            self.next_alive_state()
        } else {
            self.next_dead_state()
        }
    }

    /// Whether an alive cell with this cached count survives.
    pub fn next_alive_state(self) -> (next: bool)
        ensures
            next == (2 <= self@.count <= 3),
    {
        let neighbour_count = self.neighbour_count();
        neighbour_count >= 2 && neighbour_count <= 3
    }

    /// Whether a dead cell with this cached count is born.
    pub fn next_dead_state(self) -> (next: bool)
        ensures
            next == (self@.count == 3),
    {
        let neighbour_count = self.neighbour_count();
        neighbour_count == 3
    }
}

/// Two cells with the same alive flag and the same cached count are the same
/// packed byte: the view loses nothing.
pub proof fn lemma_view_determines_cell(c1: Cell, c2: Cell)
    requires
        c1@ == c2@,
    ensures
        c1 == c2,
{
    let a = c1.0;
    let b = c2.0;
    assert(((a & 0x80u8 != 0) == (b & 0x80u8 != 0) && a & 0x7fu8 == b & 0x7fu8) ==> a == b)
        by (bit_vector);
}

} // verus!
