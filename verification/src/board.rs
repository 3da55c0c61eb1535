//! The simulation board: a fixed-extent grid of packed cells, stored row by
//! row in one contiguous vector, plus the ordered list of the coordinates of
//! the currently alive cells (the active set).
//!
//! Every cell's cached neighbour count is kept exact at all times: marking a
//! cell alive increments the counts of its in-bounds neighbours. Advancing a
//! generation therefore only has to look at the active set and the one-cell
//! ring around it.

use vstd::prelude::*;
use vstd::std_specs::cmp::PartialEqSpec;

use crate::cell::{spec_next, Cell};

verus! {


/// Whether `(nx, ny)` is one of the up-to-eight grid neighbours of `(x, y)`:
/// at most one step away in each direction and not `(x, y)` itself.
pub open spec fn is_adjacent(x: int, y: int, nx: int, ny: int) -> bool {
    &&& -1 <= nx - x <= 1
    &&& -1 <= ny - y <= 1
    &&& !(nx == x && ny == y)
}

/// The singleton holding `(nx, ny)` when both components exist as `usize`
/// values, and the empty sequence otherwise.
pub open spec fn adjacent_candidate(nx: int, ny: int) -> Seq<(usize, usize)> {
    if 0 <= nx <= usize::MAX && 0 <= ny <= usize::MAX {
        seq![(nx as usize, ny as usize)]
    } else {
        Seq::empty()
    }
}

/// The neighbours of `(x, y)` that exist as `usize` coordinates, row by row,
/// leftmost first. Coordinates that would be negative (or would not fit in a
/// `usize`) are clipped away; nothing wraps around.
pub open spec fn spec_adjacents(x: usize, y: usize) -> Seq<(usize, usize)> {
    adjacent_candidate(x - 1, y - 1) + adjacent_candidate(x as int, y - 1)
        + adjacent_candidate(x + 1, y - 1) + adjacent_candidate(x - 1, y as int)
        + adjacent_candidate(x + 1, y as int) + adjacent_candidate(x - 1, y + 1)
        + adjacent_candidate(x as int, y + 1) + adjacent_candidate(x + 1, y + 1)
}

/// The enumeration produces exactly the adjacent coordinates: a pair is in
/// it if and only if it is a grid neighbour of `(x, y)`. In particular the
/// origin itself is never produced.
pub proof fn lemma_adjacents_membership(x: usize, y: usize)
    ensures
        forall|p: (usize, usize)|
            #[trigger] spec_adjacents(x, y).contains(p) <==> is_adjacent(
                x as int,
                y as int,
                p.0 as int,
                p.1 as int,
            ),
{
    broadcast use vstd::seq_lib::lemma_seq_concat_contains_all_elements;
    broadcast use vstd::seq_lib::lemma_seq_contains_after_push;
    broadcast use vstd::seq_lib::lemma_seq_empty_contains_nothing;

    assert forall|p: (usize, usize)|
        #[trigger] spec_adjacents(x, y).contains(p) <==> is_adjacent(
            x as int,
            y as int,
            p.0 as int,
            p.1 as int,
        ) by {
        assert(forall|nx: int, ny: int|
            #[trigger] adjacent_candidate(nx, ny).contains(p) <==> (0 <= nx <= usize::MAX && 0
                <= ny <= usize::MAX && p.0 == nx && p.1 == ny)) by {
            assert forall|nx: int, ny: int|
                #[trigger] adjacent_candidate(nx, ny).contains(p) <==> (0 <= nx <= usize::MAX && 0
                    <= ny <= usize::MAX && p.0 == nx && p.1 == ny) by {
                if 0 <= nx <= usize::MAX && 0 <= ny <= usize::MAX {
                    assert(adjacent_candidate(nx, ny) == Seq::<(usize, usize)>::empty().push(
                        ((nx as usize), (ny as usize)),
                    ));
                }
            }
        }
    }
}

/// An interior coordinate (away from zero and from the top end of `usize`)
/// has exactly eight adjacent coordinates.
pub proof fn lemma_adjacents_interior(x: usize, y: usize)
    requires
        1 <= x < usize::MAX,
        1 <= y < usize::MAX,
    ensures
        spec_adjacents(x, y).len() == 8,
{
}

/// The corner coordinate `(0, 0)` has exactly three adjacent coordinates.
pub proof fn lemma_adjacents_origin()
    ensures
        spec_adjacents(0, 0) == seq![(1usize, 0usize), (0usize, 1usize), (1usize, 1usize)],
        spec_adjacents(0, 0).len() == 3,
{
    assert(spec_adjacents(0, 0) =~= seq![(1usize, 0usize), (0usize, 1usize), (1usize, 1usize)]);
}

/// The up-to-eight grid coordinates adjacent to `(to_x, to_y)`, row by row,
/// leftmost first. Neighbours that would lie at a negative coordinate (or
/// beyond `usize::MAX`) do not exist and are skipped; the origin itself is
/// never produced. Clipping against a board's own extent is the caller's
/// business.
pub fn get_adjacents(to_x: usize, to_y: usize) -> (adjacents: Vec<(usize, usize)>)
    ensures
        adjacents@ == spec_adjacents(to_x, to_y),
{
    let x = to_x;
    let y = to_y;
    let mut adjacents: Vec<(usize, usize)> = Vec::new();
    if x >= 1 && y >= 1 {
        adjacents.push((x - 1, y - 1));
    }
    assert(adjacents@ =~= adjacent_candidate(x - 1, y - 1));
    if y >= 1 {
        adjacents.push((x, y - 1));
    }
    assert(adjacents@ =~= adjacent_candidate(x - 1, y - 1) + adjacent_candidate(x as int, y - 1));
    if x < usize::MAX && y >= 1 {
        adjacents.push((x + 1, y - 1));
    }
    assert(adjacents@ =~= adjacent_candidate(x - 1, y - 1) + adjacent_candidate(x as int, y - 1)
        + adjacent_candidate(x + 1, y - 1));
    if x >= 1 {
        adjacents.push((x - 1, y));
    }
    assert(adjacents@ =~= adjacent_candidate(x - 1, y - 1) + adjacent_candidate(x as int, y - 1)
        + adjacent_candidate(x + 1, y - 1) + adjacent_candidate(x - 1, y as int));
    if x < usize::MAX {
        adjacents.push((x + 1, y));
    }
    assert(adjacents@ =~= adjacent_candidate(x - 1, y - 1) + adjacent_candidate(x as int, y - 1)
        + adjacent_candidate(x + 1, y - 1) + adjacent_candidate(x - 1, y as int)
        + adjacent_candidate(x + 1, y as int));
    if x >= 1 && y < usize::MAX {
        adjacents.push((x - 1, y + 1));
    }
    assert(adjacents@ =~= adjacent_candidate(x - 1, y - 1) + adjacent_candidate(x as int, y - 1)
        + adjacent_candidate(x + 1, y - 1) + adjacent_candidate(x - 1, y as int)
        + adjacent_candidate(x + 1, y as int) + adjacent_candidate(x - 1, y + 1));
    if y < usize::MAX {
        adjacents.push((x, y + 1));
    }
    assert(adjacents@ =~= adjacent_candidate(x - 1, y - 1) + adjacent_candidate(x as int, y - 1)
        + adjacent_candidate(x + 1, y - 1) + adjacent_candidate(x - 1, y as int)
        + adjacent_candidate(x + 1, y as int) + adjacent_candidate(x - 1, y + 1)
        + adjacent_candidate(x as int, y + 1));
    if x < usize::MAX && y < usize::MAX {
        adjacents.push((x + 1, y + 1));
    }
    assert(adjacents@ =~= spec_adjacents(to_x, to_y));
    adjacents
}

/// A fixed-extent Game of Life board. The grid is stored row-major: the cell
/// at `(x, y)` lives at index `y * width + x`. The active set lists each
/// alive coordinate exactly once.
#[derive(Clone, Debug)]
pub struct Board {
    width: usize,
    height: usize,
    cells: Vec<Cell>,
    alive_cells: Vec<(usize, usize)>,
}

impl Board {
    pub closed spec fn spec_width(self) -> int {
        self.width as int
    }

    pub closed spec fn spec_height(self) -> int {
        self.height as int
    }

    /// The packed cells, row-major.
    pub closed spec fn grid(self) -> Seq<Cell> {
        self.cells@
    }

    /// The active set: the coordinates marked alive, in insertion order.
    pub closed spec fn alive_list(self) -> Seq<(usize, usize)> {
        self.alive_cells@
    }

    pub open spec fn in_bounds(self, x: int, y: int) -> bool {
        0 <= x < self.spec_width() && 0 <= y < self.spec_height()
    }

    /// The row-major position of `(x, y)` in the grid.
    pub open spec fn spec_idx(self, x: int, y: int) -> int {
        y * self.spec_width() + x
    }

    /// Whether the cell at `(x, y)` is alive. Coordinates outside the board
    /// hold no cell and count as dead.
    pub open spec fn alive_at(self, x: int, y: int) -> bool {
        self.in_bounds(x, y) && self.grid()[self.spec_idx(x, y)]@.alive
    }

    /// The cached neighbour count of the in-bounds cell at `(x, y)`.
    pub open spec fn count_at(self, x: int, y: int) -> int {
        self.grid()[self.spec_idx(x, y)]@.count
    }

    /// One when the cell at `(x, y)` exists and is alive, zero otherwise.
    pub open spec fn nb(self, x: int, y: int) -> int {
        if self.alive_at(x, y) {
            1
        } else {
            0
        }
    }

    /// The exact number of alive cells among the up-to-eight neighbours of
    /// `(x, y)`; cells beyond the boundary are never counted.
    pub open spec fn live_neighbours(self, x: int, y: int) -> int {
        self.nb(x - 1, y - 1) + self.nb(x, y - 1) + self.nb(x + 1, y - 1) + self.nb(x - 1, y)
            + self.nb(x + 1, y) + self.nb(x - 1, y + 1) + self.nb(x, y + 1) + self.nb(x + 1, y + 1)
    }

    /// Whether `(x, y)` is alive in the next generation, by the transition
    /// rule applied to its true neighbour count.
    pub open spec fn spec_next_at(self, x: int, y: int) -> bool {
        spec_next(self.alive_at(x, y), self.live_neighbours(x, y))
    }

    /// The board's invariant: the grid covers exactly `width * height`
    /// cells; every cached neighbour count equals the true count of alive
    /// neighbours; and the active set lists exactly the alive coordinates,
    /// each once.
    pub open spec fn wf(self) -> bool {
        &&& self.grid().len() == self.spec_width() * self.spec_height()
        &&& forall|x: int, y: int|
            self.in_bounds(x, y) ==> #[trigger] self.count_at(x, y) == self.live_neighbours(x, y)
        &&& forall|t: int|
            0 <= t < self.alive_list().len() ==> {
                let p = #[trigger] self.alive_list()[t];
                self.alive_at(p.0 as int, p.1 as int)
            }
        &&& forall|x: int, y: int|
            #[trigger] self.alive_at(x, y) ==> self.alive_list().contains((x as usize, y as usize))
        &&& self.alive_list().no_duplicates()
    }

    /// An all-dead board.
    pub fn new(width: usize, height: usize) -> (board: Board)
        requires
            width * height <= usize::MAX,
        ensures
            board.wf(),
            board.spec_width() == width,
            board.spec_height() == height,
            board.alive_list() == Seq::<(usize, usize)>::empty(),
            forall|x: int, y: int| !(#[trigger] board.alive_at(x, y)),
    {
        Board::with_alive_capacity(width, height, 0)
    }

    /// An all-dead board whose active set has room for `capacity` entries
    /// before it reallocates.
    pub fn with_alive_capacity(width: usize, height: usize, capacity: usize) -> (board: Board)
        requires
            width * height <= usize::MAX,
        ensures
            board.wf(),
            board.spec_width() == width,
            board.spec_height() == height,
            board.alive_list() == Seq::<(usize, usize)>::empty(),
            forall|x: int, y: int| !(#[trigger] board.alive_at(x, y)),
    {
        let total = width * height;
        let mut cells: Vec<Cell> = Vec::with_capacity(total);
        for n in 0..total
            invariant
                cells@.len() == n,
                forall|t: int|
                    0 <= t < n ==> {
                        let c = #[trigger] cells@[t];
                        !c@.alive && c@.count == 0
                    },
        {
            cells.push(Cell::empty());
        }
        let ghost cseq = cells@;
        let board = Board { width, height, cells, alive_cells: Vec::with_capacity(capacity) };
        proof {
            assert(board.grid() == cseq);
            assert(forall|t: int|
                0 <= t < board.grid().len() ==> {
                    let c = #[trigger] board.grid()[t];
                    !c@.alive && c@.count == 0
                });
            assert forall|x: int, y: int| !(#[trigger] board.alive_at(x, y)) by {
                if board.in_bounds(x, y) {
                    lemma_idx_bounds(width as int, height as int, x, y);
                }
            }
            assert forall|x: int, y: int| board.in_bounds(x, y) implies #[trigger] board.count_at(
                x,
                y,
            ) == board.live_neighbours(x, y) by {
                lemma_idx_bounds(width as int, height as int, x, y);
                assert(board.live_neighbours(x, y) == 0);
            }
        }
        board
    }

    /// Builds a board from a pattern: the cell at `(x, y)` comes alive
    /// exactly when row `y` of the pattern has a non-zero entry at column
    /// `x`. The pattern may be ragged and smaller than the board, but may
    /// not reach beyond it.
    pub fn from_cells(width: usize, height: usize, pattern: &Vec<Vec<usize>>) -> (board: Board)
        requires
            width * height <= usize::MAX,
            pattern@.len() <= height,
            forall|r: int| 0 <= r < pattern@.len() ==> (#[trigger] pattern@[r])@.len() <= width,
        ensures
            board.wf(),
            board.spec_width() == width,
            board.spec_height() == height,
            forall|i: int, j: int|
                #[trigger] board.alive_at(i, j) <==> (0 <= j < pattern@.len() && 0 <= i
                    < pattern@[j]@.len() && pattern@[j]@[i] != 0),
            forall|p: (usize, usize)|
                #[trigger] board.alive_list().contains(p) <==> (p.1 < pattern@.len() && p.0
                    < pattern@[p.1 as int]@.len() && pattern@[p.1 as int]@[p.0 as int] != 0),
            board.alive_list().no_duplicates(),
    {
        let mut board = Board::new(width, height);
        let rows = pattern.len();
        for y in 0..rows
            invariant
                board.wf(),
                board.spec_width() == width,
                board.spec_height() == height,
                rows == pattern@.len(),
                pattern@.len() <= height,
                forall|r: int| 0 <= r < pattern@.len() ==> (#[trigger] pattern@[r])@.len() <= width,
                forall|i: int, j: int|
                    #[trigger] board.alive_at(i, j) <==> (0 <= j < y && 0 <= i
                        < pattern@[j]@.len() && pattern@[j]@[i] != 0),
        {
            let row = &pattern[y];
            let cols = row.len();
            for x in 0..cols
                invariant
                    board.wf(),
                    board.spec_width() == width,
                    board.spec_height() == height,
                    rows == pattern@.len(),
                    pattern@.len() <= height,
                    y < rows,
                    row@ == pattern@[y as int]@,
                    cols == row@.len(),
                    forall|r: int|
                        0 <= r < pattern@.len() ==> (#[trigger] pattern@[r])@.len() <= width,
                    forall|i: int, j: int|
                        #[trigger] board.alive_at(i, j) <==> ((0 <= j < y && 0 <= i
                            < pattern@[j]@.len() && pattern@[j]@[i] != 0) || (j == y && 0 <= i < x
                            && row@[i] != 0)),
            {
                if row[x] != 0 {
                    board.make_alive(x, y);
                }
            }
        }
        proof {
            assert forall|p: (usize, usize)| #[trigger]
                board.alive_list().contains(p) <==> (p.1 < pattern@.len() && p.0 < pattern@[p.1
                as int]@.len() && pattern@[p.1 as int]@[p.0 as int] != 0) by {
                if board.alive_list().contains(p) {
                    let t = choose|t: int|
                        0 <= t < board.alive_list().len() && board.alive_list()[t] == p;
                    assert(board.alive_at(p.0 as int, p.1 as int));
                }
                if p.1 < pattern@.len() && p.0 < pattern@[p.1 as int]@.len() && pattern@[p.1
                    as int]@[p.0 as int] != 0 {
                    assert(board.alive_at(p.0 as int, p.1 as int));
                }
            }
        }
        board
    }

    /// A board with every cell alive, built by marking each coordinate in
    /// turn so that every cached neighbour count stays exact: corner and
    /// edge cells end up with fewer than eight counted neighbours.
    pub fn full(width: usize, height: usize) -> (board: Board)
        requires
            width * height <= usize::MAX,
        ensures
            board.wf(),
            board.spec_width() == width,
            board.spec_height() == height,
            forall|i: int, j: int| #[trigger] board.alive_at(i, j) <==> board.in_bounds(i, j),
    {
        let mut board = Board::new(width, height);
        for y in 0..height
            invariant
                board.wf(),
                board.spec_width() == width,
                board.spec_height() == height,
                forall|i: int, j: int|
                    #[trigger] board.alive_at(i, j) <==> (0 <= i < width && 0 <= j < y),
        {
            for x in 0..width
                invariant
                    board.wf(),
                    board.spec_width() == width,
                    board.spec_height() == height,
                    y < height,
                    forall|i: int, j: int|
                        #[trigger] board.alive_at(i, j) <==> ((0 <= i < width && 0 <= j < y) || (j
                            == y && 0 <= i < x)),
            {
                board.make_alive(x, y);
            }
        }
        board
    }

    /// A board where each coordinate is independently marked alive with
    /// probability `numerator / denominator`, drawn from the given
    /// generator. With a probability of one the board comes out full; with
    /// zero it comes out empty; in between, which cells come alive is up to
    /// the generator.
    pub fn rand(
        rng: &mut rand::rngs::ThreadRng,
        width: usize,
        height: usize,
        numerator: u64,
        denominator: u64,
    ) -> (board: Board)
        requires
            width * height <= usize::MAX,
            1 <= denominator,
            numerator <= denominator,
        ensures
            board.wf(),
            board.spec_width() == width,
            board.spec_height() == height,
            numerator == denominator ==> forall|i: int, j: int|
                #[trigger] board.alive_at(i, j) <==> board.in_bounds(i, j),
            numerator == 0 ==> forall|i: int, j: int| !(#[trigger] board.alive_at(i, j)),
    {
        let mut board = Board::with_alive_capacity(width, height, (width * height) / 2);
        for y in 0..height
            invariant
                board.wf(),
                board.spec_width() == width,
                board.spec_height() == height,
                1 <= denominator,
                numerator <= denominator,
                forall|i: int, j: int| #[trigger] board.alive_at(i, j) ==> 0 <= j < y,
                numerator == denominator ==> forall|i: int, j: int|
                    #[trigger] board.alive_at(i, j) <==> (0 <= i < width && 0 <= j < y),
                numerator == 0 ==> forall|i: int, j: int| !(#[trigger] board.alive_at(i, j)),
        {
            for x in 0..width
                invariant
                    board.wf(),
                    board.spec_width() == width,
                    board.spec_height() == height,
                    y < height,
                    1 <= denominator,
                    numerator <= denominator,
                    forall|i: int, j: int|
                        #[trigger] board.alive_at(i, j) ==> (0 <= j < y || (j == y && 0 <= i < x)),
                    numerator == denominator ==> forall|i: int, j: int|
                        #[trigger] board.alive_at(i, j) <==> ((0 <= i < width && 0 <= j < y) || (j
                            == y && 0 <= i < x)),
                    numerator == 0 ==> forall|i: int, j: int| !(#[trigger] board.alive_at(i, j)),
            {
                let draw = crate::rng::random_below(rng, denominator);
                if draw < numerator {
                    board.make_alive(x, y);
                }
            }
        }
        board
    }

    /// One candidate step of the generation walk: if `(nx, ny)` lies on the
    /// board, is dead in the source, still dead in the destination, and its
    /// cached count predicts a birth, marks it alive in the destination.
    fn tick_birth(&self, dst: &mut Board, nx: usize, ny: usize)
        requires
            self.wf(),
            old(dst).wf(),
            old(dst).spec_width() == self.spec_width(),
            old(dst).spec_height() == self.spec_height(),
        ensures
            final(dst).wf(),
            final(dst).spec_width() == self.spec_width(),
            final(dst).spec_height() == self.spec_height(),
            forall|i: int, j: int|
                (#[trigger] final(dst).alive_at(i, j)) == (old(dst).alive_at(i, j) || (i == nx && j
                    == ny && self.in_bounds(i, j) && !self.alive_at(i, j) && self.spec_next_at(
                    i,
                    j,
                ))),
    {
        if nx < self.width && ny < self.height {
            proof {
                vstd::std_specs::vec::axiom_spec_len(&self.cells);
                lemma_idx_bounds(self.spec_width(), self.spec_height(), nx as int, ny as int);
            }
            let idx = ny * self.width + nx;
            let src_cell = self.cells[idx];
            let dst_cell = dst.cells[idx];
            proof {
                assert(src_cell == self.grid()[self.spec_idx(nx as int, ny as int)]);
                assert(dst_cell == old(dst).grid()[old(dst).spec_idx(nx as int, ny as int)]);
                assert(self.count_at(nx as int, ny as int) == self.live_neighbours(
                    nx as int,
                    ny as int,
                ));
            }
            if src_cell.is_dead() && dst_cell.is_dead() && src_cell.next_dead_state() {
                dst.make_alive(nx, ny);
            }
        }
    }

    /// Advances one generation, producing a brand-new board of the same
    /// extent: a cell is alive in the result exactly when the transition
    /// rule, applied to its current state and its true neighbour count,
    /// says so. Only the active set and the one-cell ring around it are
    /// visited, so the cost is proportional to the number of live cells.
    pub fn tick(&self) -> (next: Board)
        requires
            self.wf(),
        ensures
            next.wf(),
            next.spec_width() == self.spec_width(),
            next.spec_height() == self.spec_height(),
            forall|i: int, j: int|
                self.in_bounds(i, j) ==> ((#[trigger] next.alive_at(i, j)) <==> self.spec_next_at(
                    i,
                    j,
                )),
    {
        proof {
            vstd::std_specs::vec::axiom_spec_len(&self.cells);
        }
        let mut board = Board::with_alive_capacity(self.width, self.height, self.alive_cells.len());
        let n = self.alive_cells.len();
        for k in 0..n
            invariant
                self.wf(),
                n == self.alive_list().len(),
                board.wf(),
                board.spec_width() == self.spec_width(),
                board.spec_height() == self.spec_height(),
                forall|i: int, j: int|
                    self.in_bounds(i, j) ==> ((#[trigger] board.alive_at(i, j)) <==> (
                    self.spec_next_at(i, j) && tick_covered(*self, i, j, k as int))),
        {
            let p = self.alive_cells[k];
            let x = p.0;
            let y = p.1;
            proof {
                assert(self.alive_list()[k as int] == p);
                assert(self.alive_at(x as int, y as int));
                vstd::std_specs::vec::axiom_spec_len(&self.cells);
                lemma_idx_bounds(self.spec_width(), self.spec_height(), x as int, y as int);
                assert(self.count_at(x as int, y as int) == self.live_neighbours(
                    x as int,
                    y as int,
                ));
            }
            let idx = y * self.width + x;
            if self.cells[idx].next_alive_state() {
                proof {
                    if board.alive_at(x as int, y as int) {
                        let t = choose|t: int|
                            0 <= t < k && #[trigger] self.alive_list()[t] == ((x), (y));
                        assert(self.alive_list()[t] == self.alive_list()[k as int]);
                        assert(false);
                    }
                }
                board.make_alive(x, y);
            }
            proof {
                assert forall|i: int, j: int| self.in_bounds(i, j) implies ((
                #[trigger] board.alive_at(i, j)) <==> (self.spec_next_at(i, j) && (tick_covered(
                    *self,
                    i,
                    j,
                    k as int,
                ) || (i == x && j == y)))) by {
                    if i == x && j == y {
                        assert(self.alive_at(i, j));
                    }
                }
            }
            let ghost mid = board;
            if x >= 1 && y >= 1 {
                self.tick_birth(&mut board, x - 1, y - 1);
            }
            if y >= 1 {
                self.tick_birth(&mut board, x, y - 1);
            }
            if y >= 1 {
                self.tick_birth(&mut board, x + 1, y - 1);
            }
            if x >= 1 {
                self.tick_birth(&mut board, x - 1, y);
            }
            self.tick_birth(&mut board, x + 1, y);
            if x >= 1 {
                self.tick_birth(&mut board, x - 1, y + 1);
            }
            self.tick_birth(&mut board, x, y + 1);
            self.tick_birth(&mut board, x + 1, y + 1);
            proof {
                assert forall|i: int, j: int| self.in_bounds(i, j) implies ((
                #[trigger] board.alive_at(i, j)) <==> (self.spec_next_at(i, j) && tick_covered(
                    *self,
                    i,
                    j,
                    k + 1,
                ))) by {
                    assert(mid.alive_at(i, j) <==> (self.spec_next_at(i, j) && (tick_covered(
                        *self,
                        i,
                        j,
                        k as int,
                    ) || (i == x && j == y))));
                    if board.alive_at(i, j) {
                        if mid.alive_at(i, j) {
                            if tick_covered(*self, i, j, k as int) {
                                lemma_covered_widen(*self, i, j, k as int, k + 1);
                            } else {
                                assert(i == x && j == y);
                                assert(self.alive_list()[k as int] == ((i as usize), (j as usize)));
                                assert(survivor_covered(*self, i, j, k + 1));
                            }
                        } else {
                            assert(!self.alive_at(i, j));
                            assert(is_adjacent(x as int, y as int, i, j));
                            assert({
                                let q = self.alive_list()[k as int];
                                is_adjacent(q.0 as int, q.1 as int, i, j)
                            });
                            assert(birth_covered(*self, i, j, k + 1));
                        }
                    }
                    if self.spec_next_at(i, j) && tick_covered(*self, i, j, k + 1) {
                        if self.alive_at(i, j) {
                            let t = choose|t: int|
                                0 <= t < k + 1 && #[trigger] self.alive_list()[t] == (
                                (i as usize),
                                (j as usize),
                                );
                            if t < k {
                                assert(tick_covered(*self, i, j, k as int));
                            } else {
                                assert(self.alive_list()[k as int] == ((i as usize), (j as usize)));
                                assert(i == x && j == y);
                            }
                            assert(mid.alive_at(i, j));
                        } else {
                            let t = choose|t: int|
                                0 <= t < k + 1 && {
                                    let q = #[trigger] self.alive_list()[t];
                                    is_adjacent(q.0 as int, q.1 as int, i, j)
                                };
                            if t < k {
                                assert(tick_covered(*self, i, j, k as int));
                                assert(mid.alive_at(i, j));
                            } else {
                                assert(is_adjacent(x as int, y as int, i, j));
                            }
                        }
                        assert(board.alive_at(i, j));
                    }
                }
            }
        }
        proof {
            assert forall|i: int, j: int| self.in_bounds(i, j) implies ((
            #[trigger] board.alive_at(i, j)) <==> self.spec_next_at(i, j)) by {
                if self.spec_next_at(i, j) {
                    if self.alive_at(i, j) {
                        assert(self.alive_list().contains(((i as usize), (j as usize))));
                        assert(survivor_covered(*self, i, j, n as int));
                    } else {
                        assert(self.live_neighbours(i, j) == 3);
                        if self.alive_at(i - 1, j - 1) {
                            lemma_alive_neighbour_covers(*self, i, j, i - 1, j - 1);
                        } else if self.alive_at(i, j - 1) {
                            lemma_alive_neighbour_covers(*self, i, j, i, j - 1);
                        } else if self.alive_at(i + 1, j - 1) {
                            lemma_alive_neighbour_covers(*self, i, j, i + 1, j - 1);
                        } else if self.alive_at(i - 1, j) {
                            lemma_alive_neighbour_covers(*self, i, j, i - 1, j);
                        } else if self.alive_at(i + 1, j) {
                            lemma_alive_neighbour_covers(*self, i, j, i + 1, j);
                        } else if self.alive_at(i - 1, j + 1) {
                            lemma_alive_neighbour_covers(*self, i, j, i - 1, j + 1);
                        } else if self.alive_at(i, j + 1) {
                            lemma_alive_neighbour_covers(*self, i, j, i, j + 1);
                        } else {
                            assert(self.alive_at(i + 1, j + 1));
                            lemma_alive_neighbour_covers(*self, i, j, i + 1, j + 1);
                        }
                    }
                }
            }
        }
        board
    }

    /// The packed cells, row-major: the cell at `(x, y)` is entry
    /// `y * width + x`.
    pub fn cells(&self) -> (cells: &Vec<Cell>)
        ensures
            cells@ == self.grid(),
    {
        &self.cells
    }

    /// The active set: each currently alive coordinate, exactly once, in the
    /// order the cells were marked alive.
    pub fn alive_cells(&self) -> (alive: &Vec<(usize, usize)>)
        ensures
            alive@ == self.alive_list(),
    {
        &self.alive_cells
    }

    /// Adds one to the cached neighbour count of `(nx, ny)` when that
    /// coordinate lies on the board; off-board coordinates hold no cell and
    /// are skipped.
    fn bump_neighbour(&mut self, nx: usize, ny: usize)
        requires
            old(self).grid().len() == old(self).spec_width() * old(self).spec_height(),
            old(self).in_bounds(nx as int, ny as int) ==> old(self).count_at(
                nx as int,
                ny as int,
            ) < 8,
        ensures
            final(self).spec_width() == old(self).spec_width(),
            final(self).spec_height() == old(self).spec_height(),
            final(self).alive_list() == old(self).alive_list(),
            final(self).grid().len() == old(self).grid().len(),
            forall|i: int, j: int|
                (#[trigger] final(self).alive_at(i, j)) == old(self).alive_at(i, j),
            forall|i: int, j: int|
                final(self).in_bounds(i, j) ==> #[trigger] final(self).count_at(i, j) == old(
                    self,
                ).count_at(i, j) + (if i == nx && j == ny {
                    1int
                } else {
                    0
                }),
    {
        if nx < self.width && ny < self.height {
            proof {
                vstd::std_specs::vec::axiom_spec_len(&self.cells);
                lemma_idx_bounds(self.spec_width(), self.spec_height(), nx as int, ny as int);
            }
            let idx = ny * self.width + nx;
            let cell = &mut self.cells[idx];
            cell.increment_neighbour_count();
            proof {
                let w = self.spec_width();
                let h = self.spec_height();
                assert forall|i: int, j: int|
                    (#[trigger] self.alive_at(i, j)) == old(self).alive_at(i, j) by {
                    if self.in_bounds(i, j) {
                        lemma_idx_bounds(w, h, i, j);
                        if !(i == nx && j == ny) {
                            lemma_idx_distinct(w, i, j, nx as int, ny as int);
                        }
                    }
                }
                assert forall|i: int, j: int| self.in_bounds(i, j) implies #[trigger] self.count_at(
                    i,
                    j,
                ) == old(self).count_at(i, j) + (if i == nx && j == ny {
                    1int
                } else {
                    0
                }) by {
                    lemma_idx_bounds(w, h, i, j);
                    if !(i == nx && j == ny) {
                        lemma_idx_distinct(w, i, j, nx as int, ny as int);
                    }
                }
            }
        }
    }

    /// Adds one to the cached neighbour count of every in-bounds cell
    /// adjacent to `(x, y)`, recording that `(x, y)` is about to come alive.
    /// The eight-neighbour walk never touches `(x, y)` itself.
    fn propagate_neighbours(&mut self, x: usize, y: usize)
        requires
            old(self).grid().len() == old(self).spec_width() * old(self).spec_height(),
            old(self).in_bounds(x as int, y as int),
            forall|i: int, j: int|
                old(self).in_bounds(i, j) && is_adjacent(x as int, y as int, i, j)
                    ==> #[trigger] old(self).count_at(i, j) < 8,
        ensures
            final(self).spec_width() == old(self).spec_width(),
            final(self).spec_height() == old(self).spec_height(),
            final(self).alive_list() == old(self).alive_list(),
            final(self).grid().len() == old(self).grid().len(),
            forall|i: int, j: int|
                (#[trigger] final(self).alive_at(i, j)) == old(self).alive_at(i, j),
            forall|i: int, j: int|
                final(self).in_bounds(i, j) ==> #[trigger] final(self).count_at(i, j) == old(
                    self,
                ).count_at(i, j) + (if is_adjacent(x as int, y as int, i, j) {
                    1int
                } else {
                    0
                }),
    {
        if x >= 1 && y >= 1 {
            self.bump_neighbour(x - 1, y - 1);
        }
        if y >= 1 {
            self.bump_neighbour(x, y - 1);
        }
        if y >= 1 {
            self.bump_neighbour(x + 1, y - 1);
        }
        if x >= 1 {
            self.bump_neighbour(x - 1, y);
        }
        self.bump_neighbour(x + 1, y);
        if x >= 1 {
            self.bump_neighbour(x - 1, y + 1);
        }
        self.bump_neighbour(x, y + 1);
        self.bump_neighbour(x + 1, y + 1);
    }

    /// Marks `(x, y)` alive: appends it to the active set, increments the
    /// cached counts of its in-bounds neighbours, then sets its own alive
    /// bit. Each coordinate may be marked at most once per board instance.
    pub fn make_alive(&mut self, x: usize, y: usize)
        requires
            old(self).wf(),
            old(self).in_bounds(x as int, y as int),
            !old(self).alive_at(x as int, y as int),
        ensures
            final(self).wf(),
            final(self).spec_width() == old(self).spec_width(),
            final(self).spec_height() == old(self).spec_height(),
            final(self).alive_list() == old(self).alive_list().push((x, y)),
            forall|i: int, j: int|
                (#[trigger] final(self).alive_at(i, j)) == (old(self).alive_at(i, j) || (i == x
                    && j == y)),
    {
        let ghost b0 = *old(self);
        self.alive_cells.push((x, y));
        proof {
            assert(self.grid() == b0.grid());
            assert forall|i: int, j: int|
                self.in_bounds(i, j) && is_adjacent(x as int, y as int, i, j)
                    implies #[trigger] self.count_at(i, j) < 8 by {
                assert(self.count_at(i, j) == b0.count_at(i, j));
                assert(b0.nb(x as int, y as int) == 0);
                assert(b0.live_neighbours(i, j) <= 7);
            }
        }
        self.propagate_neighbours(x, y);
        let ghost mid = *self;
        proof {
            vstd::std_specs::vec::axiom_spec_len(&self.cells);
            lemma_idx_bounds(self.spec_width(), self.spec_height(), x as int, y as int);
        }
        let idx = y * self.width + x;
        let cell = &mut self.cells[idx];
        cell.make_alive();
        proof {
            let w = self.spec_width();
            let h = self.spec_height();
            assert forall|i: int, j: int|
                (#[trigger] self.alive_at(i, j)) == (b0.alive_at(i, j) || (i == x && j == y)) by {
                assert(mid.alive_at(i, j) == b0.alive_at(i, j));
                if self.in_bounds(i, j) {
                    lemma_idx_bounds(w, h, i, j);
                    if !(i == x && j == y) {
                        lemma_idx_distinct(w, i, j, x as int, y as int);
                        assert(self.grid()[self.spec_idx(i, j)] == mid.grid()[mid.spec_idx(i, j)]);
                    }
                }
            }
            assert forall|i: int, j: int|
                self.in_bounds(i, j) implies #[trigger] self.count_at(i, j) == mid.count_at(
                i,
                j,
            ) by {
                lemma_idx_bounds(w, h, i, j);
                if !(i == x && j == y) {
                    lemma_idx_distinct(w, i, j, x as int, y as int);
                    assert(self.grid()[self.spec_idx(i, j)] == mid.grid()[mid.spec_idx(i, j)]);
                }
            }
            assert forall|i: int, j: int|
                self.in_bounds(i, j) implies #[trigger] self.count_at(i, j)
                    == self.live_neighbours(i, j) by {
                assert(self.count_at(i, j) == b0.count_at(i, j) + (if is_adjacent(
                    x as int,
                    y as int,
                    i,
                    j,
                ) {
                    1int
                } else {
                    0
                }));
                assert(b0.count_at(i, j) == b0.live_neighbours(i, j));
                assert(self.nb(i - 1, j - 1) == b0.nb(i - 1, j - 1) + (if i - 1 == x && j - 1 == y {
                    1int
                } else {
                    0
                }));
                assert(self.nb(i, j - 1) == b0.nb(i, j - 1) + (if i == x && j - 1 == y {
                    1int
                } else {
                    0
                }));
                assert(self.nb(i + 1, j - 1) == b0.nb(i + 1, j - 1) + (if i + 1 == x && j - 1 == y {
                    1int
                } else {
                    0
                }));
                assert(self.nb(i - 1, j) == b0.nb(i - 1, j) + (if i - 1 == x && j == y {
                    1int
                } else {
                    0
                }));
                assert(self.nb(i + 1, j) == b0.nb(i + 1, j) + (if i + 1 == x && j == y {
                    1int
                } else {
                    0
                }));
                assert(self.nb(i - 1, j + 1) == b0.nb(i - 1, j + 1) + (if i - 1 == x && j + 1 == y {
                    1int
                } else {
                    0
                }));
                assert(self.nb(i, j + 1) == b0.nb(i, j + 1) + (if i == x && j + 1 == y {
                    1int
                } else {
                    0
                }));
                assert(self.nb(i + 1, j + 1) == b0.nb(i + 1, j + 1) + (if i + 1 == x && j + 1 == y {
                    1int
                } else {
                    0
                }));
            }
            assert(!b0.alive_list().contains((x, y)));
            assert forall|t: int| 0 <= t < self.alive_list().len() implies {
                let p = #[trigger] self.alive_list()[t];
                self.alive_at(p.0 as int, p.1 as int)
            } by {
                if t < b0.alive_list().len() {
                    assert(self.alive_list()[t] == b0.alive_list()[t]);
                } else {
                    assert(self.alive_list()[t] == (x, y));
                }
            }
            assert forall|i: int, j: int| #[trigger]
                self.alive_at(i, j) implies self.alive_list().contains(
                (i as usize, j as usize),
            ) by {
                if b0.alive_at(i, j) {
                    let t = choose|t: int|
                        0 <= t < b0.alive_list().len() && b0.alive_list()[t] == (
                        (i as usize),
                        (j as usize),
                        );
                    assert(self.alive_list()[t] == ((i as usize), (j as usize)));
                } else {
                    assert(self.alive_list()[b0.alive_list().len() as int] == (x, y));
                }
            }
            assert(self.alive_list().no_duplicates()) by {
                assert forall|t1: int, t2: int|
                    0 <= t1 < t2 < self.alive_list().len() implies self.alive_list()[t1]
                    != self.alive_list()[t2] by {
                    if t2 < b0.alive_list().len() {
                    } else {
                        assert(self.alive_list()[t1] == b0.alive_list()[t1]);
                        assert(self.alive_list()[t2] == (x, y));
                    }
                }
            }
        }
    }

    pub fn width(&self) -> (w: usize)
        ensures
            w == self.spec_width(),
    {
        self.width
    }

    pub fn height(&self) -> (h: usize)
        ensures
            h == self.spec_height(),
    {
        self.height
    }
}

/// Whether one of the first `k` entries of the source's active set is the
/// coordinate `(i, j)` itself.
spec fn survivor_covered(src: Board, i: int, j: int, k: int) -> bool {
    exists|t: int| 0 <= t < k && #[trigger] src.alive_list()[t] == ((i as usize), (j as usize))
}

/// Whether one of the first `k` entries of the source's active set is
/// adjacent to `(i, j)`.
spec fn birth_covered(src: Board, i: int, j: int, k: int) -> bool {
    exists|t: int|
        0 <= t < k && {
            let p = #[trigger] src.alive_list()[t];
            is_adjacent(p.0 as int, p.1 as int, i, j)
        }
}

/// Whether the first `k` iterations of the generation walk have already
/// decided the fate of `(i, j)`: a survivor is decided when its own entry
/// has been visited, a birth when some alive neighbour's entry has been.
spec fn tick_covered(src: Board, i: int, j: int, k: int) -> bool {
    if src.alive_at(i, j) {
        survivor_covered(src, i, j, k)
    } else {
        birth_covered(src, i, j, k)
    }
}

/// A coordinate already covered after `k1` iterations stays covered after
/// any later iteration.
proof fn lemma_covered_widen(src: Board, i: int, j: int, k1: int, k2: int)
    requires
        k1 <= k2,
        tick_covered(src, i, j, k1),
    ensures
        tick_covered(src, i, j, k2),
{
    if src.alive_at(i, j) {
        let t = choose|t: int|
            0 <= t < k1 && #[trigger] src.alive_list()[t] == ((i as usize), (j as usize));
        assert(0 <= t < k2 && src.alive_list()[t] == ((i as usize), (j as usize)));
    } else {
        let t = choose|t: int|
            0 <= t < k1 && {
                let p = #[trigger] src.alive_list()[t];
                is_adjacent(p.0 as int, p.1 as int, i, j)
            };
        assert(0 <= t < k2 && {
            let p = src.alive_list()[t];
            is_adjacent(p.0 as int, p.1 as int, i, j)
        });
    }
}

/// An alive cell adjacent to `(i, j)` stands somewhere in the active set,
/// so `(i, j)`'s birth is covered by a full walk of the set.
proof fn lemma_alive_neighbour_covers(src: Board, i: int, j: int, a: int, b: int)
    requires
        src.wf(),
        src.alive_at(a, b),
        is_adjacent(a, b, i, j),
    ensures
        birth_covered(src, i, j, src.alive_list().len() as int),
{
    assert(src.alive_list().contains(((a as usize), (b as usize))));
    let t = choose|t: int|
        0 <= t < src.alive_list().len() && src.alive_list()[t] == ((a as usize), (b as usize));
    assert(0 <= t < src.alive_list().len() && {
        let p = src.alive_list()[t];
        is_adjacent(p.0 as int, p.1 as int, i, j)
    });
}

impl vstd::std_specs::cmp::PartialEqSpecImpl for Board {
    open spec fn obeys_eq_spec() -> bool {
        true
    }

    /// What `==` on boards means: the same extent, the same packed cells,
    /// and active sets of the same length where every entry of one appears
    /// in the other — the order of the active sets does not matter.
    open spec fn eq_spec(&self, other: &Board) -> bool {
        &&& self.alive_list().len() == other.alive_list().len()
        &&& forall|p: (usize, usize)|
            #[trigger] other.alive_list().contains(p) ==> self.alive_list().contains(p)
        &&& self.spec_width() == other.spec_width()
        &&& self.spec_height() == other.spec_height()
        &&& self.grid() == other.grid()
    }
}

impl PartialEq for Board {
    /// Two boards are equal when they have the same extent, the same packed
    /// cells, and active sets holding the same coordinates in any order.
    fn eq(&self, other: &Board) -> (r: bool) {
        if self.alive_cells.len() != other.alive_cells.len() {
            return false;
        }
        let others = other.alive_cells.len();
        for t in 0..others
            invariant
                others == other.alive_list().len(),
                forall|u: int|
                    0 <= u < t ==> self.alive_list().contains(#[trigger] other.alive_list()[u]),
        {
            let q = other.alive_cells[t];
            let mut found = false;
            let mine = self.alive_cells.len();
            for s in 0..mine
                invariant
                    mine == self.alive_list().len(),
                    found <==> exists|v: int|
                        0 <= v < s && #[trigger] self.alive_list()[v] == q,
            {
                let c = self.alive_cells[s];
                if c.0 == q.0 && c.1 == q.1 {
                    proof {
                        assert(self.alive_list()[s as int] == q);
                    }
                    found = true;
                }
            }
            if !found {
                proof {
                    assert(other.alive_list()[t as int] == q);
                    assert(other.alive_list().contains(q));
                    assert(!self.alive_list().contains(q));
                }
                return false;
            }
        }
        proof {
            assert forall|p: (usize, usize)| #[trigger]
                other.alive_list().contains(p) implies self.alive_list().contains(p) by {
                let u = choose|u: int|
                    0 <= u < other.alive_list().len() && other.alive_list()[u] == p;
                assert(self.alive_list().contains(other.alive_list()[u]));
            }
        }
        if self.width != other.width || self.height != other.height {
            return false;
        }
        if self.cells.len() != other.cells.len() {
            return false;
        }
        let total = self.cells.len();
        for t in 0..total
            invariant
                total == self.grid().len(),
                self.grid().len() == other.grid().len(),
                forall|u: int| 0 <= u < t ==> #[trigger] self.grid()[u] == other.grid()[u],
        {
            let a = self.cells[t];
            let b = other.cells[t];
            if !(a == b) {
                return false;
            }
        }
        proof {
            assert(self.grid() =~= other.grid());
        }
        true
    }
}

/// Boards of the same extent whose active sets hold the same coordinates
/// compare equal under `==`, however they were built and in whatever order
/// their active sets list the cells: the alive set alone determines every
/// cached count and so the whole grid.
pub proof fn lemma_eq_from_alive_set(a: Board, b: Board)
    requires
        a.wf(),
        b.wf(),
        a.spec_width() == b.spec_width(),
        a.spec_height() == b.spec_height(),
        a.alive_list().to_set() == b.alive_list().to_set(),
    ensures
        a.eq_spec(&b),
        b.eq_spec(&a),
{
    broadcast use vstd::set::group_set_axioms;

    a.alive_list().unique_seq_to_set();
    b.alive_list().unique_seq_to_set();
    assert forall|p: (usize, usize)| #[trigger]
        b.alive_list().contains(p) implies a.alive_list().contains(p) by {
        assert(b.alive_list().to_set().contains(p));
    }
    assert forall|p: (usize, usize)| #[trigger]
        a.alive_list().contains(p) implies b.alive_list().contains(p) by {
        assert(a.alive_list().to_set().contains(p));
    }
    assert forall|x: int, y: int|
        #![trigger a.alive_at(x, y)]
        #![trigger b.alive_at(x, y)]
        a.alive_at(x, y) == b.alive_at(x, y) by {
        if a.alive_at(x, y) {
            let p = ((x as usize), (y as usize));
            assert(b.alive_list().contains(p));
            let t = choose|t: int|
                0 <= t < b.alive_list().len() && #[trigger] b.alive_list()[t] == p;
            assert(b.alive_at(p.0 as int, p.1 as int));
        }
        if b.alive_at(x, y) {
            let p = ((x as usize), (y as usize));
            assert(a.alive_list().contains(p));
            let t = choose|t: int|
                0 <= t < a.alive_list().len() && #[trigger] a.alive_list()[t] == p;
            assert(a.alive_at(p.0 as int, p.1 as int));
        }
    }
    assert forall|t: int| 0 <= t < a.grid().len() implies #[trigger] a.grid()[t] == b.grid()[
    t] by {
        assert(a.grid().len() == a.spec_width() * a.spec_height());
        if a.spec_width() == 0 {
            vstd::arithmetic::mul::lemma_mul_basics(a.spec_height());
            assert(false);
        }
        lemma_idx_decompose(a.spec_width(), a.spec_height(), t);
        let x = t % a.spec_width();
        let y = t / a.spec_width();
        assert(a.in_bounds(x, y));
        assert(a.spec_idx(x, y) == t && b.spec_idx(x, y) == t);
        assert(a.grid()[t]@.alive == a.alive_at(x, y));
        assert(b.grid()[t]@.alive == b.alive_at(x, y));
        assert(a.alive_at(x, y) == b.alive_at(x, y));
        assert(a.count_at(x, y) == a.live_neighbours(x, y));
        assert(b.count_at(x, y) == b.live_neighbours(x, y));
        assert(a.live_neighbours(x, y) == b.live_neighbours(x, y));
        assert(a.grid()[t]@ =~= b.grid()[t]@);
        crate::cell::lemma_view_determines_cell(a.grid()[t], b.grid()[t]);
    }
    assert(a.grid() =~= b.grid());
}

/// Every grid position is the row-major index of exactly one in-bounds
/// coordinate.
proof fn lemma_idx_decompose(w: int, h: int, idx: int)
    by (nonlinear_arith)
    requires
        1 <= w,
        0 <= idx < w * h,
    ensures
        0 <= idx % w < w,
        0 <= idx / w < h,
        (idx / w) * w + (idx % w) == idx,
{
}

/// A row-major index derived from an in-bounds coordinate lands within the
/// grid.
proof fn lemma_idx_bounds(w: int, h: int, x: int, y: int)
    by (nonlinear_arith)
    requires
        0 <= x < w,
        0 <= y < h,
    ensures
        0 <= y * w + x < w * h,
{
}

/// Distinct in-bounds coordinates have distinct row-major indices.
proof fn lemma_idx_distinct(w: int, x1: int, y1: int, x2: int, y2: int)
    by (nonlinear_arith)
    requires
        0 <= x1 < w,
        0 <= x2 < w,
        !(x1 == x2 && y1 == y2),
    ensures
        y1 * w + x1 != y2 * w + x2,
{
}

} // verus!
