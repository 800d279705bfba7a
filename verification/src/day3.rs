//! Tree counting on a repeating grid: starting at the top-left
//! corner, a sled moves by a fixed (right, down) step; rows repeat
//! cyclically to the right.  The first task counts trees on one
//! slope, the second multiplies the counts of five slopes.

use vstd::prelude::*;
use vstd::string::StrSliceExecFns;
use crate::text;

verus! {

/// A slope position, in grid coordinates.
pub struct Position {
    pub x: usize,
    pub y: usize,
}

/// A slope step: so many cells right, so many rows down.
pub struct Movement {
    pub right: usize,
    pub down: usize,
}

impl Movement {
    /// Builds a movement from a (right, down) pair.
    pub fn from_tuple(input: &(usize, usize)) -> (r: Movement)
        ensures
            r.right == input.0,
            r.down == input.1,
    {
        Movement { right: input.0, down: input.1 }
    }
}

/// The tree map: one row of cells per input line, true for a tree.
pub struct Grid {
    pub grid: Vec<Vec<bool>>,
}

/// Every row has at least one cell.
pub open spec fn wf_rows(rows: Seq<Seq<bool>>) -> bool {
    forall|i: int| 0 <= i < rows.len() ==> (#[trigger] rows[i]).len() > 0
}

/// Number of trees met from `(x, y)` on, moving by `(right, down)`
/// and wrapping each new row cyclically.
pub open spec fn trees_from(rows: Seq<Seq<bool>>, right: int, down: int, x: int, y: int) -> int
    decreases rows.len() - y
        when down >= 1 && 0 <= y
{
    if y >= rows.len() {
        0
    } else {
        (if rows[y][x] {
            1int
        } else {
            0int
        }) + (if y + down >= rows.len() {
            0int
        } else {
            trees_from(rows, right, down, (x + right) % (rows[y + down].len() as int), y + down)
        })
    }
}

impl Grid {
    /// The rows of the grid as sequences of cells.
    pub open spec fn rows(self) -> Seq<Seq<bool>> {
        self.grid.deep_view()
    }

    /// True when the cell at `pos` holds a tree.
    pub fn is_tree(&self, pos: &Position) -> (r: bool)
        requires
            pos.y < self.rows().len(),
            pos.x < self.rows()[pos.y as int].len(),
        ensures
            r == self.rows()[pos.y as int][pos.x as int],
    {
        proof {
            assert(self.rows()[pos.y as int] == self.grid@[pos.y as int]@);
        }
        self.grid[pos.y][pos.x]
    }

    /// Parses '#' cells as trees, one row per line.
    pub fn parse(lines: &Vec<&str>) -> (r: Grid)
        ensures
            r.rows() == lines.deep_view().map_values(
                |l: Seq<char>| l.map_values(|c: char| c == '#'),
            ),
    {
        let mut grid: Vec<Vec<bool>> = Vec::new();
        let mut i: usize = 0;
        while i < lines.len()
            invariant
                i <= lines@.len(),
                grid@.len() == i,
                forall|j: int|
                    0 <= j < i ==> (#[trigger] grid@[j])@ == lines@[j]@.map_values(
                        |c: char| c == '#',
                    ),
            decreases lines@.len() - i,
        {
            let line = lines[i];
            let n = line.unicode_len();
            let mut row: Vec<bool> = Vec::new();
            let mut k: usize = 0;
            while k < n
                invariant
                    k <= n,
                    n == line@.len(),
                    row@.len() == k,
                    forall|t: int| 0 <= t < k ==> row@[t] == (line@[t] == '#'),
                decreases n - k,
            {
                let c = line.get_char(k);
                row.push(c == '#');
                k = k + 1;
            }
            proof {
                assert(row@ =~= line@.map_values(|c: char| c == '#'));
            }
            grid.push(row);
            i = i + 1;
        }
        let r = Grid { grid };
        proof {
            assert(r.rows() =~~= lines.deep_view().map_values(
                |l: Seq<char>| l.map_values(|c: char| c == '#'),
            ));
        }
        r
    }

    /// Walks the slope from the top-left corner and counts the trees
    /// met, stopping below the last row.
    pub fn run_grid_and_count_trees(&self, movement: &Movement) -> (r: usize)
        requires
            movement.down >= 1,
            self.rows().len() > 0,
            wf_rows(self.rows()),
            self.rows().len() + movement.down <= usize::MAX,
            forall|i: int|
                0 <= i < self.rows().len() ==> (#[trigger] self.rows()[i]).len() + movement.right
                    <= usize::MAX,
        ensures
            r == trees_from(self.rows(), movement.right as int, movement.down as int, 0, 0),
    {
        let ghost rows = self.rows();
        let ghost total = trees_from(rows, movement.right as int, movement.down as int, 0, 0);
        let mut pos = Position::initial_position();
        let mut count: usize = 0;
        loop
            invariant
                rows == self.rows(),
                total == trees_from(rows, movement.right as int, movement.down as int, 0, 0),
                movement.down >= 1,
                wf_rows(rows),
                rows.len() + movement.down <= usize::MAX,
                forall|i: int|
                    0 <= i < rows.len() ==> (#[trigger] rows[i]).len() + movement.right
                        <= usize::MAX,
                pos.y < rows.len(),
                pos.x < rows[pos.y as int].len(),
                count <= pos.y + 1,
                total == count + trees_from(
                    rows,
                    movement.right as int,
                    movement.down as int,
                    pos.x as int,
                    pos.y as int,
                ),
            decreases rows.len() - pos.y,
        {
            let here = if self.is_tree(&pos) {
                1
            } else {
                0
            };
            let next_pos = pos.next_position(movement, self);
            match next_pos {
                Some(n) => {
                    count = count + here;
                    pos = n;
                },
                None => {
                    return count + here;
                },
            }
        }
    }
}

impl Position {
    /// The position one step down the slope, or nothing when it falls
    /// below the grid.
    pub fn next_position(&self, movement: &Movement, grid: &Grid) -> (r: Option<Position>)
        requires
            self.y + movement.down <= usize::MAX,
            self.x + movement.right <= usize::MAX,
            self.y + movement.down < grid.rows().len() ==> grid.rows()[self.y
                + movement.down].len() > 0,
        ensures
            ({
                let ny = self.y + movement.down;
                match r {
                    Some(p) => ny < grid.rows().len() && p.y == ny && p.x == (self.x
                        + movement.right) % (grid.rows()[ny as int].len() as int),
                    None => ny >= grid.rows().len(),
                }
            }),
    {
        let maybe_y = self.y + movement.down;
        if maybe_y < grid.grid.len() {
            let width = grid.grid[maybe_y].len();
            proof {
                assert(grid.rows()[maybe_y as int] == grid.grid@[maybe_y as int]@);
            }
            Some(Position { x: (self.x + movement.right) % width, y: maybe_y })
        } else {
            None
        }
    }

    /// The top-left corner.
    pub fn initial_position() -> (r: Position)
        ensures
            r.x == 0,
            r.y == 0,
    {
        Position { x: 0, y: 0 }
    }
}

/// The tree map a listing denotes.
pub open spec fn grid_of(s: Seq<char>) -> Seq<Seq<bool>> {
    text::spec_lines(s).map_values(|l: Seq<char>| l.map_values(|c: char| c == '#'))
}

/// Trees met when walking the listing's grid by `(right, down)`.
pub open spec fn slope_count(s: Seq<char>, right: int, down: int) -> int {
    trees_from(grid_of(s), right, down, 0, 0)
}

/// A listing whose grid the slope walks can use: at least one row,
/// no empty row, and room in `usize` for the position arithmetic.
pub open spec fn wf_grid_input(s: Seq<char>) -> bool {
    &&& grid_of(s).len() > 0
    &&& wf_rows(grid_of(s))
    &&& grid_of(s).len() + 2 <= usize::MAX
    &&& forall|i: int| 0 <= i < grid_of(s).len() ==> (#[trigger] grid_of(s)[i]).len() + 7
        <= usize::MAX
}

/// Parses the listing into its tree map.
pub fn get_grid(input: &str) -> (r: Grid)
    ensures
        r.rows() == grid_of(input@),
{
    let lines = text::split_lines(input);
    let mut refs: Vec<&str> = Vec::new();
    let mut i: usize = 0;
    while i < lines.len()
        invariant
            i <= lines@.len(),
            refs@.len() == i,
            forall|j: int| 0 <= j < i ==> refs@[j]@ == lines@[j]@,
        decreases lines@.len() - i,
    {
        refs.push(lines[i].as_str());
        i = i + 1;
    }
    let r = Grid::parse(&refs);
    proof {
        assert(refs.deep_view() =~~= lines.deep_view());
        assert(r.rows() =~~= grid_of(input@));
    }
    r
}

/// Answer of the first task: trees met on the slope right 3, down 1.
pub fn task1(input: &str) -> (r: usize)
    requires
        wf_grid_input(input@),
    ensures
        r == slope_count(input@, 3, 1),
{
    let grid = get_grid(input);
    let movement = Movement { right: 3, down: 1 };
    grid.run_grid_and_count_trees(&movement)
}

/// Answer of the second task: the product of the tree counts of the
/// five fixed slopes.
pub fn task2(input: &str) -> (r: usize)
    requires
        wf_grid_input(input@),
        slope_count(input@, 1, 1) * slope_count(input@, 3, 1) <= usize::MAX,
        slope_count(input@, 1, 1) * slope_count(input@, 3, 1) * slope_count(input@, 5, 1)
            <= usize::MAX,
        slope_count(input@, 1, 1) * slope_count(input@, 3, 1) * slope_count(input@, 5, 1)
            * slope_count(input@, 7, 1) <= usize::MAX,
        slope_count(input@, 1, 1) * slope_count(input@, 3, 1) * slope_count(input@, 5, 1)
            * slope_count(input@, 7, 1) * slope_count(input@, 1, 2) <= usize::MAX,
    ensures
        r == slope_count(input@, 1, 1) * slope_count(input@, 3, 1) * slope_count(input@, 5, 1)
            * slope_count(input@, 7, 1) * slope_count(input@, 1, 2),
{
    let part2_movements: [(usize, usize); 5] = [(1, 1), (3, 1), (5, 1), (7, 1), (1, 2)];
    let grid = get_grid(input);
    let m0 = Movement::from_tuple(&part2_movements[0]);
    let c0 = grid.run_grid_and_count_trees(&m0);
    let m1 = Movement::from_tuple(&part2_movements[1]);
    let c1 = grid.run_grid_and_count_trees(&m1);
    let m2 = Movement::from_tuple(&part2_movements[2]);
    let c2 = grid.run_grid_and_count_trees(&m2);
    let m3 = Movement::from_tuple(&part2_movements[3]);
    let c3 = grid.run_grid_and_count_trees(&m3);
    let m4 = Movement::from_tuple(&part2_movements[4]);
    let c4 = grid.run_grid_and_count_trees(&m4);
    (((c0 * c1) * c2) * c3) * c4
}

/// The calendar day this module solves.
pub struct Day3 {}

impl Day3 {
    /// The day's number.
    pub fn get_day_number(&self) -> (r: usize)
        ensures
            r == 3,
    {
        3
    }
}

} // verus!
