use vstd::prelude::*;

verus! {

/// The four moves an agent can make. The enumeration order used everywhere
/// in the library (and so the greedy tie-break order) is the canonical one:
/// UP, DOWN, LEFT, RIGHT.
#[derive(Clone, Copy, Debug, Hash, PartialEq, Eq, Structural)]
#[allow(non_camel_case_types)]
pub enum Actions {
    UP,
    DOWN,
    LEFT,
    RIGHT,
}

/// A zero-based grid coordinate pair. Plain value type: equality and
/// hashing go by the two fields.
#[derive(Clone, Copy, Debug, Hash, PartialEq, Eq, Structural)]
pub struct Position {
    pub x: i32,
    pub y: i32,
}

impl Position {
    pub fn new(x: i32, y: i32) -> (p: Position)
        ensures
            p.x == x,
            p.y == y,
    {
        Position { x, y }
    }
}

/// The agent's current cell.
#[derive(Clone, Copy, Debug, Hash, PartialEq, Eq, Structural)]
pub struct State {
    pub player_pos: Position,
}

/// The x coordinate after taking `action` from a cell at column `x`.
pub open spec fn step_x(action: Actions, x: int) -> int {
    match action {
        Actions::LEFT => x - 1,
        Actions::RIGHT => x + 1,
        _ => x,
    }
}

/// The y coordinate after taking `action` from a cell at row `y`.
pub open spec fn step_y(action: Actions, y: int) -> int {
    match action {
        Actions::UP => y - 1,
        Actions::DOWN => y + 1,
        _ => y,
    }
}

/// True iff the cell (x, y) lies on a grid of the given width and height.
pub open spec fn inside_grid(x: int, y: int, width: int, height: int) -> bool {
    &&& 0 <= x < width
    &&& 0 <= y < height
}

impl State {
    pub fn new(position: Position) -> (s: State)
        ensures
            s.player_pos == position,
    {
        State { player_pos: position }
    }

    /// True iff this state's position lies on the grid described by `maze`:
    /// the height is the number of rows, the width the length of the first
    /// row. The maze must have at least one row and one column.
    pub fn check_if_inside(&self, maze: Vec<Vec<i32>>) -> (r: bool)
        requires
            maze@.len() >= 1,
            maze@[0]@.len() >= 1,
        ensures
            r == inside_grid(
                self.player_pos.x as int,
                self.player_pos.y as int,
                maze@[0]@.len() as int,
                maze@.len() as int,
            ),
    {
        let height = maze.len();
        let width = maze[0].len();
        if self.player_pos.x < 0 || self.player_pos.y < 0 {
            return false;
        }
        let x = self.player_pos.x as usize;
        let y = self.player_pos.y as usize;
        x < width && y < height
    }
}

/// Shifts the state one cell in the action's direction. No bounds check:
/// the result may lie outside any particular grid; validity is judged
/// separately by `inside_grid`.
pub fn action_and_state_to_new_state(action: Actions, old_state: State) -> (new_state: State)
    requires
        i32::MIN <= step_x(action, old_state.player_pos.x as int) <= i32::MAX,
        i32::MIN <= step_y(action, old_state.player_pos.y as int) <= i32::MAX,
    ensures
        new_state.player_pos.x as int == step_x(action, old_state.player_pos.x as int),
        new_state.player_pos.y as int == step_y(action, old_state.player_pos.y as int),
{
    let mut state = old_state;
    match action {
        Actions::DOWN => {
            state.player_pos.y = state.player_pos.y + 1;
        },
        Actions::UP => {
            state.player_pos.y = state.player_pos.y - 1;
        },
        Actions::LEFT => {
            state.player_pos.x = state.player_pos.x - 1;
        },
        Actions::RIGHT => {
            state.player_pos.x = state.player_pos.x + 1;
        },
    }
    state
}

/// The action that undoes `action`: taking one and then the other returns
/// to the starting cell.
pub open spec fn opposite(action: Actions) -> Actions {
    match action {
        Actions::UP => Actions::DOWN,
        Actions::DOWN => Actions::UP,
        Actions::LEFT => Actions::RIGHT,
        Actions::RIGHT => Actions::LEFT,
    }
}

/// Inverse actions cancel: stepping by an action and then by its opposite
/// lands back on the starting coordinates, for every coordinate pair.
/// In particular UP undoes DOWN and LEFT undoes RIGHT.
pub proof fn lemma_opposite_actions_cancel(action: Actions, x: int, y: int)
    ensures
        step_x(opposite(action), step_x(action, x)) == x,
        step_y(opposite(action), step_y(action, y)) == y,
{
}

} // verus!
