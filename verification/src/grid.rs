use vstd::prelude::*;

use crate::errors::MazeError;
use crate::motion::{inside_grid, Position};

verus! {

broadcast use crate::views::lemma_row_deep_view;

/// Cell code for an open cell.
pub const CELL_FREE: i32 = 0;

/// Cell code for the cell the agent starts on.
pub const CELL_START: i32 = 1;

/// Cell code for the goal cell.
pub const CELL_GOAL: i32 = 2;

/// Largest grid width or height the library accepts. Keeps every distance
/// and table-index computation comfortably inside 64-bit arithmetic.
pub const MAX_DIM: usize = 16384;

/// The maze: a rectangular grid of cell codes together with the start and
/// end positions. Built once by `Environment::new`, which validates it;
/// read-only afterwards.
#[derive(Clone, Debug)]
pub struct Environment {
    maze: Vec<Vec<i32>>,
    endpoint: Position,
    startpoint: Position,
}

/// A structurally sound grid: at least one row and one column, every row
/// the same length, and neither dimension above `MAX_DIM`.
pub open spec fn grid_rect(g: Seq<Seq<i32>>) -> bool {
    &&& 1 <= g.len() <= MAX_DIM as int
    &&& 1 <= g[0].len() <= MAX_DIM as int
    &&& forall|i: int| 0 <= i < g.len() ==> (#[trigger] g[i]).len() == g[0].len()
}

/// Every cell holds one of the three defined codes.
pub open spec fn grid_codes_ok(g: Seq<Seq<i32>>) -> bool {
    forall|i: int, j: int|
        0 <= i < g.len() && 0 <= j < g[i].len() ==> CELL_FREE <= #[trigger] g[i][j] <= CELL_GOAL
}

impl Environment {
    /// The grid as a sequence of rows of cell codes.
    pub closed spec fn grid(self) -> Seq<Seq<i32>> {
        self.maze.deep_view()
    }

    pub closed spec fn start_spec(self) -> Position {
        self.startpoint
    }

    pub closed spec fn end_spec(self) -> Position {
        self.endpoint
    }

    pub open spec fn height(self) -> int {
        self.grid().len() as int
    }

    pub open spec fn width(self) -> int {
        self.grid()[0].len() as int
    }

    /// The cell code at column `x`, row `y`.
    pub open spec fn cell(self, x: int, y: int) -> i32 {
        self.grid()[y][x]
    }

    /// Structural soundness: a rectangular bounded grid whose start and end
    /// positions lie on it.
    pub open spec fn rect(self) -> bool {
        &&& grid_rect(self.grid())
        &&& inside_grid(
            self.start_spec().x as int,
            self.start_spec().y as int,
            self.width(),
            self.height(),
        )
        &&& inside_grid(
            self.end_spec().x as int,
            self.end_spec().y as int,
            self.width(),
            self.height(),
        )
    }

    /// Full well-formedness: structure plus defined cell codes everywhere.
    /// `Environment::new` establishes it; nothing ever mutates a built
    /// environment.
    pub open spec fn wf(self) -> bool {
        &&& self.rect()
        &&& grid_codes_ok(self.grid())
    }

    /// Validates a maze definition and builds the environment.
    pub fn new(maze: Vec<Vec<i32>>, startpoint: Position, endpoint: Position) -> (r: Result<
        Environment,
        MazeError,
    >)
        ensures
            r is Ok <==> {
                &&& grid_rect(maze.deep_view())
                &&& grid_codes_ok(maze.deep_view())
                &&& inside_grid(
                    startpoint.x as int,
                    startpoint.y as int,
                    maze.deep_view()[0].len() as int,
                    maze.deep_view().len() as int,
                )
                &&& inside_grid(
                    endpoint.x as int,
                    endpoint.y as int,
                    maze.deep_view()[0].len() as int,
                    maze.deep_view().len() as int,
                )
            },
            r is Ok ==> {
                &&& r->Ok_0.grid() == maze.deep_view()
                &&& r->Ok_0.start_spec() == startpoint
                &&& r->Ok_0.end_spec() == endpoint
                &&& r->Ok_0.wf()
            },
            !grid_rect(maze.deep_view()) ==> r == Err::<Environment, MazeError>(
                MazeError::MalformedInput,
            ),
            grid_rect(maze.deep_view()) && !grid_codes_ok(maze.deep_view()) ==> r == Err::<
                Environment,
                MazeError,
            >(MazeError::InvalidCellCode),
            grid_rect(maze.deep_view()) && grid_codes_ok(maze.deep_view()) && r is Err ==> r
                == Err::<Environment, MazeError>(MazeError::OutOfBounds),
    {
        let height = maze.len();
        if height < 1 || height > MAX_DIM {
            return Err(MazeError::MalformedInput);
        }
        let width = maze[0].len();
        if width < 1 || width > MAX_DIM {
            return Err(MazeError::MalformedInput);
        }
        let mut y: usize = 0;
        while y < height
            invariant
                height == maze@.len(),
                width == maze.deep_view()[0].len(),
                y <= height,
                forall|i: int| 0 <= i < y ==> (#[trigger] maze.deep_view()[i]).len() == width,
            decreases height - y,
        {
            if maze[y].len() != width {
                proof {
                    assert(maze.deep_view()[y as int].len() != width);
                }
                return Err(MazeError::MalformedInput);
            }
            y = y + 1;
        }
        assert(grid_rect(maze.deep_view()));
        let mut y: usize = 0;
        while y < height
            invariant
                height == maze@.len(),
                grid_rect(maze.deep_view()),
                width == maze.deep_view()[0].len(),
                y <= height,
                forall|i: int, j: int|
                    0 <= i < y && 0 <= j < maze.deep_view()[i].len() ==> CELL_FREE <= #[trigger] maze.deep_view()[i][j]
                        <= CELL_GOAL,
            decreases height - y,
        {
            let row = &maze[y];
            let mut x: usize = 0;
            while x < row.len()
                invariant
                    grid_rect(maze.deep_view()),
                    0 <= y < maze@.len(),
                    row@ == maze.deep_view()[y as int],
                    x <= row@.len(),
                    forall|j: int| 0 <= j < x ==> CELL_FREE <= #[trigger] row@[j] <= CELL_GOAL,
                decreases row@.len() - x,
            {
                let c = row[x];
                if c < CELL_FREE || c > CELL_GOAL {
                    proof {
                        assert(!(CELL_FREE <= maze.deep_view()[y as int][x as int] <= CELL_GOAL));
                        assert(!grid_codes_ok(maze.deep_view()));
                    }
                    return Err(MazeError::InvalidCellCode);
                }
                x = x + 1;
            }
            y = y + 1;
        }
        assert(grid_codes_ok(maze.deep_view()));
        let inside_start = startpoint.x >= 0 && startpoint.y >= 0 && (startpoint.x as usize) < width
            && (startpoint.y as usize) < height;
        let inside_end = endpoint.x >= 0 && endpoint.y >= 0 && (endpoint.x as usize) < width && (
        endpoint.y as usize) < height;
        if !inside_start || !inside_end {
            return Err(MazeError::OutOfBounds);
        }
        Ok(Environment { maze, endpoint, startpoint })
    }

    /// A copy of the grid's rows.
    pub fn get_maze(&self) -> (r: Vec<Vec<i32>>)
        ensures
            r.deep_view() == self.grid(),
    {
        let mut out: Vec<Vec<i32>> = Vec::new();
        let mut y: usize = 0;
        while y < self.maze.len()
            invariant
                y <= self.maze@.len(),
                out@.len() == y,
                forall|i: int| 0 <= i < y ==> (#[trigger] out@[i])@ == self.maze@[i]@,
            decreases self.maze@.len() - y,
        {
            let row = &self.maze[y];
            let mut copy: Vec<i32> = Vec::new();
            let mut x: usize = 0;
            while x < row.len()
                invariant
                    x <= row@.len(),
                    copy@ == row@.take(x as int),
                decreases row@.len() - x,
            {
                copy.push(row[x]);
                x = x + 1;
            }
            proof {
                assert(copy@ =~= row@);
            }
            out.push(copy);
            y = y + 1;
        }
        proof {
            assert forall|i: int| 0 <= i < out@.len() implies #[trigger] out.deep_view()[i]
                == self.grid()[i] by {
                assert(out.deep_view()[i] == out@[i]@);
                assert(self.grid()[i] == self.maze@[i]@);
            }
            assert(out.deep_view() =~= self.grid());
        }
        out
    }

    /// The cell code at `position`, or `OutOfBounds` when the position does
    /// not lie on the grid (judged against the actual row it names).
    pub fn get_type(&self, position: Position) -> (r: Result<i32, MazeError>)
        ensures
            ({
                let g = self.grid();
                if 0 <= position.y < g.len() && 0 <= position.x < g[position.y as int].len() {
                    r == Ok::<i32, MazeError>(g[position.y as int][position.x as int])
                } else {
                    r == Err::<i32, MazeError>(MazeError::OutOfBounds)
                }
            }),
    {
        if position.y < 0 || position.x < 0 {
            return Err(MazeError::OutOfBounds);
        }
        let y = position.y as usize;
        let x = position.x as usize;
        if y >= self.maze.len() {
            return Err(MazeError::OutOfBounds);
        }
        if x >= self.maze[y].len() {
            return Err(MazeError::OutOfBounds);
        }
        Ok(self.maze[y][x])
    }

    /// The number of columns in the grid (judged by the first row).
    pub fn get_width(&self) -> (w: usize)
        requires
            self.grid().len() >= 1,
        ensures
            w as int == self.width(),
    {
        self.maze[0].len()
    }

    /// The number of rows in the grid.
    pub fn get_height(&self) -> (h: usize)
        ensures
            h as int == self.height(),
    {
        self.maze.len()
    }

    /// The configured start position.
    pub fn startpoint(&self) -> (p: Position)
        ensures
            p == self.start_spec(),
    {
        self.startpoint
    }

    /// The configured end (goal) position.
    pub fn endpoint(&self) -> (p: Position)
        ensures
            p == self.end_spec(),
    {
        self.endpoint
    }
}

} // verus!
