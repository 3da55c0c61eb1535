//! A generic two-dimensional grid addressed by row then column, with
//! bounds-checked access and an eight-neighbour lookup.

use vstd::prelude::*;

verus! {

/// The eight offsets around a coordinate, as `(row, column)` deltas, row by
/// row, leftmost first.
pub open spec fn neighbour_offsets() -> Seq<(isize, isize)> {
    seq![
        (-1isize, -1isize),
        (-1isize, 0isize),
        (-1isize, 1isize),
        (0isize, -1isize),
        (0isize, 1isize),
        (1isize, -1isize),
        (1isize, 0isize),
        (1isize, 1isize),
    ]
}

/// A grid of values stored as rows; the rows may be ragged.
#[derive(Debug)]
pub struct Grid<T>(Vec<Vec<T>>);

impl<T> View for Grid<T> {
    type V = Seq<Seq<T>>;

    closed spec fn view(&self) -> Seq<Seq<T>> {
        self.0@.map_values(|row: Vec<T>| row@)
    }
}

impl<T> Grid<T> {
    pub fn new(value: Vec<Vec<T>>) -> (grid: Grid<T>)
        ensures
            grid@.len() == value@.len(),
            forall|r: int| 0 <= r < value@.len() ==> #[trigger] grid@[r] == value@[r]@,
    {
        Grid(value)
    }

    /// The value at row `y`, column `x`, or nothing when either index is
    /// outside the grid.
    pub fn get(&self, y: usize, x: usize) -> (tile: Option<&T>)
        ensures
            y < self@.len() && x < self@[y as int].len() ==> (tile matches Some(v) && *v
                == self@[y as int][x as int]),
            !(y < self@.len() && x < self@[y as int].len()) ==> tile is None,
    {
        if y < self.0.len() {
            let row = &self.0[y];
            if x < row.len() {
                Some(&row[x])
            } else {
                None
            }
        } else {
            None
        }
    }

    /// Whether row `y`, column `x` lies inside the grid.
    pub fn contains(&self, y: usize, x: usize) -> (present: bool)
        ensures
            present == (y < self@.len() && x < self@[y as int].len()),
    {
        match self.get(y, x) {
            Some(_) => true,
            None => false,
        }
    }

    /// The eight neighbours of row `y`, column `x`: each entry pairs an
    /// offset with the value there, or with nothing where the offset leaves
    /// the grid.
    pub fn get_8_neighbours(&self, y: usize, x: usize) -> (neighbours: [(
        (isize, isize),
        Option<&T>,
    ); 8])
        ensures
            neighbours@.len() == 8,
            forall|k: int| 0 <= k < 8 ==> (#[trigger] neighbours@[k]).0 == neighbour_offsets()[k],
            forall|k: int|
                0 <= k < 8 ==> {
                    let dy = neighbour_offsets()[k].0 as int;
                    let dx = neighbour_offsets()[k].1 as int;
                    let entry = (#[trigger] neighbours@[k]).1;
                    if 0 <= y + dy <= usize::MAX && 0 <= x + dx <= usize::MAX && y + dy
                        < self@.len() && x + dx < self@[y + dy].len() {
                        entry matches Some(v) && *v == self@[y + dy][x + dx]
                    } else {
                        entry is None
                    }
                },
    {
        let n0: Option<&T> = if y >= 1 && x >= 1 {
            self.get(y - 1, x - 1)
        } else {
            None
        };
        let n1: Option<&T> = if y >= 1 {
            self.get(y - 1, x)
        } else {
            None
        };
        let n2: Option<&T> = if y >= 1 && x < usize::MAX {
            self.get(y - 1, x + 1)
        } else {
            None
        };
        let n3: Option<&T> = if x >= 1 {
            self.get(y, x - 1)
        } else {
            None
        };
        let n4: Option<&T> = if x < usize::MAX {
            self.get(y, x + 1)
        } else {
            None
        };
        let n5: Option<&T> = if y < usize::MAX && x >= 1 {
            self.get(y + 1, x - 1)
        } else {
            None
        };
        let n6: Option<&T> = if y < usize::MAX {
            self.get(y + 1, x)
        } else {
            None
        };
        let n7: Option<&T> = if y < usize::MAX && x < usize::MAX {
            self.get(y + 1, x + 1)
        } else {
            None
        };
        let neighbours = [
            ((-1isize, -1isize), n0),
            ((-1isize, 0isize), n1),
            ((-1isize, 1isize), n2),
            ((0isize, -1isize), n3),
            ((0isize, 1isize), n4),
            ((1isize, -1isize), n5),
            ((1isize, 0isize), n6),
            ((1isize, 1isize), n7),
        ];
        proof {
            assert forall|k: int|
                0 <= k < 8 implies {
                let dy = neighbour_offsets()[k].0 as int;
                let dx = neighbour_offsets()[k].1 as int;
                let entry = (#[trigger] neighbours@[k]).1;
                if 0 <= y + dy <= usize::MAX && 0 <= x + dx <= usize::MAX && y + dy < self@.len()
                    && x + dx < self@[y + dy].len() {
                    entry matches Some(v) && *v == self@[y + dy][x + dx]
                } else {
                    entry is None
                }
            } by {
                if k == 0 {
                    assert(neighbour_offsets()[0] == (-1isize, -1isize));
                    assert(neighbours@[0].1 == n0);
                } else if k == 1 {
                    assert(neighbour_offsets()[1] == (-1isize, 0isize));
                    assert(neighbours@[1].1 == n1);
                } else if k == 2 {
                    assert(neighbour_offsets()[2] == (-1isize, 1isize));
                    assert(neighbours@[2].1 == n2);
                } else if k == 3 {
                    assert(neighbour_offsets()[3] == (0isize, -1isize));
                    assert(neighbours@[3].1 == n3);
                } else if k == 4 {
                    assert(neighbour_offsets()[4] == (0isize, 1isize));
                    assert(neighbours@[4].1 == n4);
                } else if k == 5 {
                    assert(neighbour_offsets()[5] == (1isize, -1isize));
                    assert(neighbours@[5].1 == n5);
                } else if k == 6 {
                    assert(neighbour_offsets()[6] == (1isize, 0isize));
                    assert(neighbours@[6].1 == n6);
                } else {
                    assert(neighbour_offsets()[7] == (1isize, 1isize));
                    assert(neighbours@[7].1 == n7);
                }
            }
        }
        neighbours
    }

    /// The backing rows, read-only.
    pub fn grid(&self) -> (rows: &Vec<Vec<T>>)
        ensures
            rows@.len() == self@.len(),
            forall|r: int| 0 <= r < rows@.len() ==> (#[trigger] rows@[r])@ == self@[r],
    {
        &self.0
    }

    /// The backing rows, for mutation in place.
    pub fn grid_mut(&mut self) -> (rows: &mut Vec<Vec<T>>)
        ensures
            (*rows)@.len() == old(self)@.len(),
            forall|r: int| 0 <= r < (*rows)@.len() ==> ((*rows)@[r])@ == #[trigger] old(self)@[r],
            final(self)@.len() == final(rows)@.len(),
            forall|r: int|
                0 <= r < final(rows)@.len() ==> (#[trigger] final(rows)@[r])@ == final(self)@[r],
    {
        &mut self.0
    }
}

} // verus!
