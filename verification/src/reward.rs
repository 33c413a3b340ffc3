use vstd::prelude::*;

use crate::errors::MazeError;
use crate::grid::{Environment, CELL_FREE, CELL_GOAL, CELL_START, MAX_DIM};
use crate::math::{isqrt, isqrt_spec, lemma_isqrt_monotone};
use crate::motion::{inside_grid, State};

verus! {

/// Reward for arriving on the goal cell.
pub const GOAL_REWARD: i64 = 10_000_000_000;

/// Reward for arriving back on the start marker cell: a large penalty that
/// deters the agent from wandering toward its origin.
pub const START_PENALTY: i64 = -100_000_000;

/// Base reward for arriving on a free cell, before distance shaping.
pub const FREE_BASE: i64 = 1_000_000;

/// Squared euclidean distance between two grid positions.
pub open spec fn dist2(x1: int, y1: int, x2: int, y2: int) -> int {
    (x1 - x2) * (x1 - x2) + (y1 - y2) * (y1 - y2)
}

/// Distance shaping: ten times the euclidean distance from (x, y) to the
/// environment's end point, rounded down to an integer.
pub open spec fn shaping(env: Environment, x: int, y: int) -> int {
    isqrt_spec((100 * dist2(x, y, env.end_spec().x as int, env.end_spec().y as int)) as nat) as int
}

/// The reward earned by arriving on cell (x, y): the fixed bonus on the
/// goal cell, the fixed penalty on the start marker cell, and on a free
/// cell the base amount lowered the farther the cell lies from the goal.
pub open spec fn reward_spec(env: Environment, x: int, y: int) -> int {
    if env.cell(x, y) == CELL_GOAL {
        GOAL_REWARD as int
    } else if env.cell(x, y) == CELL_START {
        START_PENALTY as int
    } else {
        FREE_BASE - shaping(env, x, y)
    }
}

/// A squared distance is never negative.
pub proof fn lemma_dist2_nonneg(x1: int, y1: int, x2: int, y2: int)
    ensures
        dist2(x1, y1, x2, y2) >= 0,
{
    assert((x1 - x2) * (x1 - x2) >= 0 && (y1 - y2) * (y1 - y2) >= 0) by (nonlinear_arith);
}

/// The reward for arriving on a state's cell, or an error: `OutOfBounds`
/// when the state lies off the grid, `InvalidCellCode` when the cell holds
/// an undefined code.
pub fn cal_reward(environment: &Environment, state: State) -> (r: Result<i64, MazeError>)
    requires
        environment.rect(),
    ensures
        !inside_grid(
            state.player_pos.x as int,
            state.player_pos.y as int,
            environment.width(),
            environment.height(),
        ) ==> r == Err::<i64, MazeError>(MazeError::OutOfBounds),
        inside_grid(
            state.player_pos.x as int,
            state.player_pos.y as int,
            environment.width(),
            environment.height(),
        ) ==> {
            let c = environment.cell(state.player_pos.x as int, state.player_pos.y as int);
            if CELL_FREE <= c <= CELL_GOAL {
                r == Ok::<i64, MazeError>(
                    reward_spec(
                        *environment,
                        state.player_pos.x as int,
                        state.player_pos.y as int,
                    ) as i64,
                )
            } else {
                r == Err::<i64, MazeError>(MazeError::InvalidCellCode)
            }
        },
        r is Ok ==> START_PENALTY <= r->Ok_0 <= GOAL_REWARD,
{
    let px = state.player_pos.x;
    let py = state.player_pos.y;
    let cell = match environment.get_type(state.player_pos) {
        Ok(c) => c,
        Err(_) => {
            return Err(MazeError::OutOfBounds);
        },
    };
    if cell == CELL_GOAL {
        Ok(GOAL_REWARD)
    } else if cell == CELL_START {
        Ok(START_PENALTY)
    } else if cell == CELL_FREE {
        let ep = environment.endpoint();
        let dx = px as i64 - ep.x as i64;
        let dy = py as i64 - ep.y as i64;
        assert(dx * dx + dy * dy == dist2(px as int, py as int, ep.x as int, ep.y as int)
            && 0 <= dx * dx <= (MAX_DIM as i64) * (MAX_DIM as i64) && 0 <= dy * dy <= (
        MAX_DIM as i64) * (MAX_DIM as i64)) by (nonlinear_arith)
            requires
                -(MAX_DIM as i64) <= dx <= MAX_DIM as i64,
                -(MAX_DIM as i64) <= dy <= MAX_DIM as i64,
                dx == px - ep.x,
                dy == py - ep.y,
        ;
        let d2 = dx * dx + dy * dy;
        let s = isqrt((100 * d2) as u64);
        Ok(FREE_BASE - s as i64)
    } else {
        Err(MazeError::InvalidCellCode)
    }
}

/// On a structurally sound grid every reward lies between the start
/// penalty and the goal bonus.
pub proof fn lemma_reward_bounds(env: Environment, x: int, y: int)
    requires
        env.rect(),
        inside_grid(x, y, env.width(), env.height()),
    ensures
        START_PENALTY <= reward_spec(env, x, y) <= GOAL_REWARD,
{
    if env.cell(x, y) != CELL_GOAL && env.cell(x, y) != CELL_START {
        let ex = env.end_spec().x as int;
        let ey = env.end_spec().y as int;
        let d2 = dist2(x, y, ex, ey);
        lemma_dist2_nonneg(x, y, ex, ey);
        assert(d2 <= 2 * (MAX_DIM as int) * (MAX_DIM as int)) by (nonlinear_arith)
            requires
                -(MAX_DIM as int) <= x - ex <= MAX_DIM as int,
                -(MAX_DIM as int) <= y - ey <= MAX_DIM as int,
                d2 == (x - ex) * (x - ex) + (y - ey) * (y - ey),
        ;
        assert(100 * d2 < 250000 * 250000) by (nonlinear_arith)
            requires
                0 <= d2 <= 2 * (MAX_DIM as int) * (MAX_DIM as int),
                MAX_DIM == 16384usize,
        ;
        crate::math::lemma_isqrt_lt((100 * d2) as nat, 250000nat);
        assert(0 <= shaping(env, x, y) < 250000);
    }
}

/// Arriving on a goal cell always earns the fixed goal bonus: any two goal
/// cells earn the same reward, whatever their distances to the end point.
pub proof fn lemma_reward_goal(env: Environment, x1: int, y1: int, x2: int, y2: int)
    requires
        env.cell(x1, y1) == CELL_GOAL,
        env.cell(x2, y2) == CELL_GOAL,
    ensures
        reward_spec(env, x1, y1) == GOAL_REWARD,
        reward_spec(env, x1, y1) == reward_spec(env, x2, y2),
{
}

/// Arriving on a start marker cell always earns the fixed penalty: any two
/// such cells earn the same reward, whatever their distances to the end
/// point.
pub proof fn lemma_reward_start(env: Environment, x1: int, y1: int, x2: int, y2: int)
    requires
        env.cell(x1, y1) == CELL_START,
        env.cell(x2, y2) == CELL_START,
    ensures
        reward_spec(env, x1, y1) == START_PENALTY,
        reward_spec(env, x1, y1) == reward_spec(env, x2, y2),
{
}

/// Of two free cells, the one farther from the end point (by squared
/// euclidean distance) never earns more reward, all else equal.
pub proof fn lemma_reward_free_monotone(env: Environment, x1: int, y1: int, x2: int, y2: int)
    requires
        env.cell(x1, y1) == CELL_FREE,
        env.cell(x2, y2) == CELL_FREE,
        dist2(x1, y1, env.end_spec().x as int, env.end_spec().y as int) <= dist2(
            x2,
            y2,
            env.end_spec().x as int,
            env.end_spec().y as int,
        ),
    ensures
        reward_spec(env, x1, y1) >= reward_spec(env, x2, y2),
{
    let ex = env.end_spec().x as int;
    let ey = env.end_spec().y as int;
    lemma_dist2_nonneg(x1, y1, ex, ey);
    lemma_dist2_nonneg(x2, y2, ex, ey);
    lemma_isqrt_monotone(
        (100 * dist2(x1, y1, ex, ey)) as nat,
        (100 * dist2(x2, y2, ex, ey)) as nat,
    );
}

/// Of two free cells, the strictly farther one earns strictly less —
/// except where the two euclidean distances round down to the same
/// shaping step (squared distances 100 and 101, say, both shape to 100),
/// which the last premise leaves out.
pub proof fn lemma_reward_free_strict(env: Environment, x1: int, y1: int, x2: int, y2: int)
    requires
        env.cell(x1, y1) == CELL_FREE,
        env.cell(x2, y2) == CELL_FREE,
        dist2(x1, y1, env.end_spec().x as int, env.end_spec().y as int) < dist2(
            x2,
            y2,
            env.end_spec().x as int,
            env.end_spec().y as int,
        ),
        shaping(env, x1, y1) != shaping(env, x2, y2),
    ensures
        reward_spec(env, x1, y1) > reward_spec(env, x2, y2),
{
    lemma_reward_free_monotone(env, x1, y1, x2, y2);
}

} // verus!
