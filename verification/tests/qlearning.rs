use qmaze::errors::MazeError;
use qmaze::grid::Environment;
use qmaze::math::isqrt;
use qmaze::motion::{action_and_state_to_new_state, Actions, Position, State};
use qmaze::qtable::Qtable;
use qmaze::reward::cal_reward;

fn open_grid(width: usize, height: usize) -> Vec<Vec<i32>> {
    let mut maze: Vec<Vec<i32>> = Vec::new();
    for _ in 0..height {
        let mut row: Vec<i32> = Vec::new();
        for _ in 0..width {
            row.push(0);
        }
        maze.push(row);
    }
    maze
}

fn build_env(maze: Vec<Vec<i32>>, start: (i32, i32), end: (i32, i32)) -> Environment {
    Environment::new(maze, Position::new(start.0, start.1), Position::new(end.0, end.1))
        .expect("environment should validate")
}

#[test]
fn opposite_actions_cancel() {
    let s = State::new(Position::new(3, 4));
    let down = action_and_state_to_new_state(Actions::DOWN, s);
    assert_eq!(down.player_pos, Position::new(3, 5));
    assert_eq!(action_and_state_to_new_state(Actions::UP, down), s);
    let right = action_and_state_to_new_state(Actions::RIGHT, s);
    assert_eq!(right.player_pos, Position::new(4, 4));
    assert_eq!(action_and_state_to_new_state(Actions::LEFT, right), s);
}

#[test]
fn check_if_inside_judges_bounds() {
    let maze = open_grid(3, 2);
    assert!(State::new(Position::new(0, 0)).check_if_inside(maze.clone()));
    assert!(State::new(Position::new(2, 1)).check_if_inside(maze.clone()));
    assert!(!State::new(Position::new(3, 1)).check_if_inside(maze.clone()));
    assert!(!State::new(Position::new(2, 2)).check_if_inside(maze.clone()));
    assert!(!State::new(Position::new(-1, 0)).check_if_inside(maze.clone()));
    assert!(!State::new(Position::new(0, -1)).check_if_inside(maze));
}

#[test]
fn validation_rejects_ragged_rows() {
    let maze = vec![vec![0, 0], vec![0]];
    let r = Environment::new(maze, Position::new(0, 0), Position::new(0, 0));
    assert_eq!(r.err(), Some(MazeError::MalformedInput));
}

#[test]
fn validation_rejects_empty_grid() {
    let maze: Vec<Vec<i32>> = Vec::new();
    let r = Environment::new(maze, Position::new(0, 0), Position::new(0, 0));
    assert_eq!(r.err(), Some(MazeError::MalformedInput));
}

#[test]
fn validation_accepts_the_largest_height() {
    let mut maze: Vec<Vec<i32>> = Vec::new();
    for _ in 0..16384 {
        maze.push(vec![0]);
    }
    let r = Environment::new(maze, Position::new(0, 0), Position::new(0, 16383));
    assert!(r.is_ok());
}

#[test]
fn validation_rejects_an_oversized_grid() {
    let mut maze: Vec<Vec<i32>> = Vec::new();
    for _ in 0..16385 {
        maze.push(vec![0]);
    }
    let r = Environment::new(maze, Position::new(0, 0), Position::new(0, 0));
    assert_eq!(r.err(), Some(MazeError::MalformedInput));
}

#[test]
fn validation_rejects_undefined_cell_code() {
    let maze = vec![vec![0, 3], vec![0, 0]];
    let r = Environment::new(maze, Position::new(0, 0), Position::new(1, 1));
    assert_eq!(r.err(), Some(MazeError::InvalidCellCode));
}

#[test]
fn validation_rejects_out_of_bounds_endpoints() {
    let maze = open_grid(2, 2);
    let r = Environment::new(maze, Position::new(0, 0), Position::new(2, 0));
    assert_eq!(r.err(), Some(MazeError::OutOfBounds));
}

#[test]
fn get_type_reads_cells_and_rejects_outside() {
    let mut maze = open_grid(2, 2);
    maze[0][0] = 2;
    maze[1][1] = 1;
    let env = build_env(maze, (1, 1), (0, 0));
    assert_eq!(env.get_type(Position::new(0, 0)), Ok(2));
    assert_eq!(env.get_type(Position::new(1, 0)), Ok(0));
    assert_eq!(env.get_type(Position::new(1, 1)), Ok(1));
    assert_eq!(env.get_type(Position::new(2, 0)), Err(MazeError::OutOfBounds));
    assert_eq!(env.get_type(Position::new(0, -1)), Err(MazeError::OutOfBounds));
}

#[test]
fn get_maze_returns_the_grid() {
    let mut maze = open_grid(3, 2);
    maze[0][0] = 2;
    let env = build_env(maze.clone(), (1, 1), (0, 0));
    assert_eq!(env.get_maze(), maze);
    assert_eq!(env.startpoint(), Position::new(1, 1));
    assert_eq!(env.endpoint(), Position::new(0, 0));
}

#[test]
fn isqrt_exact_values() {
    assert_eq!(isqrt(0), 0);
    assert_eq!(isqrt(1), 1);
    assert_eq!(isqrt(2), 1);
    assert_eq!(isqrt(99), 9);
    assert_eq!(isqrt(100), 10);
    assert_eq!(isqrt(101), 10);
    assert_eq!(isqrt(2500), 50);
    assert_eq!(isqrt(999_999_999_999), 999_999);
}

#[test]
fn reward_goal_is_fixed_regardless_of_distance() {
    let mut maze = open_grid(5, 5);
    maze[0][0] = 2;
    maze[4][4] = 2;
    let env = build_env(maze, (3, 4), (0, 0));
    // One goal cell sits on the end point, the other as far as possible
    // from it: both earn the same fixed bonus.
    assert_eq!(cal_reward(&env, State::new(Position::new(0, 0))), Ok(10_000_000_000));
    assert_eq!(cal_reward(&env, State::new(Position::new(4, 4))), Ok(10_000_000_000));
}

#[test]
fn reward_start_marker_is_fixed_penalty() {
    let mut maze = open_grid(5, 5);
    maze[2][2] = 1;
    maze[4][0] = 1;
    let env = build_env(maze, (3, 4), (0, 0));
    assert_eq!(cal_reward(&env, State::new(Position::new(2, 2))), Ok(-100_000_000));
    assert_eq!(cal_reward(&env, State::new(Position::new(0, 4))), Ok(-100_000_000));
}

#[test]
fn reward_free_cell_shapes_by_distance() {
    let env = build_env(open_grid(5, 5), (3, 4), (0, 0));
    // (3, 4): squared distance 25, shaping floor(10 * 5) = 50.
    assert_eq!(cal_reward(&env, State::new(Position::new(3, 4))), Ok(999_950));
    // (0, 2): squared distance 4, shaping 20.
    assert_eq!(cal_reward(&env, State::new(Position::new(0, 2))), Ok(999_980));
    // (3, 0): squared distance 9, shaping 30.
    assert_eq!(cal_reward(&env, State::new(Position::new(3, 0))), Ok(999_970));
    // Farther from the goal never earns more.
    assert!(cal_reward(&env, State::new(Position::new(0, 2))).unwrap()
        > cal_reward(&env, State::new(Position::new(3, 4))).unwrap());
    // Out of bounds is refused.
    assert_eq!(
        cal_reward(&env, State::new(Position::new(5, 0))),
        Err(MazeError::OutOfBounds)
    );
}

#[test]
fn table_holds_exactly_the_legal_pairs() {
    let env = build_env(open_grid(3, 3), (1, 1), (0, 0));
    let mut q = Qtable::new_empty();
    q.init_table(env.get_maze(), &env);
    let actions = [Actions::UP, Actions::DOWN, Actions::LEFT, Actions::RIGHT];
    let mut present = 0;
    for y in 0..3i32 {
        for x in 0..3i32 {
            for a in actions.iter() {
                let s = State::new(Position::new(x, y));
                let moved = action_and_state_to_new_state(*a, s);
                let legal = moved.player_pos.x >= 0 && moved.player_pos.x < 3
                    && moved.player_pos.y >= 0 && moved.player_pos.y < 3;
                let stored = q.get_q_value(s, *a);
                assert_eq!(stored.is_some(), legal, "pair ({},{}) {:?}", x, y, a);
                if let Some(v) = stored {
                    assert_eq!(v, 0);
                    present += 1;
                }
            }
        }
    }
    // 36 pairs in a 3x3 grid, of which 12 step off the edge.
    assert_eq!(present, 24);
}

#[test]
fn greedy_lookup_is_deterministic_with_first_tie_break() {
    let env = build_env(open_grid(2, 2), (0, 0), (1, 1));
    let mut q = Qtable::new_empty();
    q.init_table(env.get_maze(), &env);
    let s = State::new(Position::new(0, 0));
    // From (0, 0) only DOWN and RIGHT stay inside; both hold value 0, so
    // the earlier action of the canonical order UP, DOWN, LEFT, RIGHT wins.
    let first = q.get_max_q_value_and_action(s, &env).unwrap();
    let second = q.get_max_q_value_and_action(s, &env).unwrap();
    assert_eq!(first, (0, Actions::DOWN));
    assert_eq!(first, second);
}

#[test]
fn greedy_lookup_fails_off_the_table() {
    let env = build_env(open_grid(2, 2), (0, 0), (1, 1));
    let mut q = Qtable::new_empty();
    q.init_table(env.get_maze(), &env);
    // From (-1, 0) the move RIGHT would stay inside, but the table holds
    // no entry for a state off the grid.
    let r = q.get_max_q_value_and_action(State::new(Position::new(-1, 0)), &env);
    assert_eq!(r, Err(MazeError::MissingEntry));
}

#[test]
fn training_reads_only_the_pretraining_snapshot() {
    // Grid [[2, 0]]: the entry ((0,0), RIGHT) is rewritten before
    // ((1,0), LEFT) in sweep order. Under live in-place semantics the
    // second rewrite would read the first one's fresh value through its
    // next-state lookup; under the specified snapshot semantics it reads
    // the pre-training zero.
    let maze = vec![vec![2, 0]];
    let env = build_env(maze, (1, 0), (0, 0));
    let mut q = Qtable::new_empty();
    q.init_table(env.get_maze(), &env);
    q.train(&env, 1);
    // ((0,0), RIGHT): reward of (1,0) is 1_000_000 - 10, best next 0:
    // floor(999_990 / 10).
    assert_eq!(
        q.get_q_value(State::new(Position::new(0, 0)), Actions::RIGHT),
        Some(99_999)
    );
    // ((1,0), LEFT): reward of the goal cell (0,0) is 10^10, best next 0
    // from the snapshot (not 99_999 from the live table):
    // floor(10^10 / 10).
    assert_eq!(
        q.get_q_value(State::new(Position::new(1, 0)), Actions::LEFT),
        Some(1_000_000_000)
    );
}

#[test]
fn training_two_cycles_keeps_the_same_snapshot() {
    let maze = vec![vec![2, 0]];
    let env = build_env(maze, (1, 0), (0, 0));
    let mut q = Qtable::new_empty();
    q.init_table(env.get_maze(), &env);
    q.train(&env, 2);
    // Both cycles use the all-zero snapshot for next-state lookups:
    // v1 = floor(999_990 / 10) = 99_999,
    // v2 = floor((9 * 99_999 + 999_990) / 10) = 189_998.
    assert_eq!(
        q.get_q_value(State::new(Position::new(0, 0)), Actions::RIGHT),
        Some(189_998)
    );
    assert_eq!(
        q.get_q_value(State::new(Position::new(1, 0)), Actions::LEFT),
        Some(1_900_000_000)
    );
}

#[test]
fn trained_table_walks_to_the_goal() {
    let maze = vec![vec![2, 0]];
    let env = build_env(maze, (1, 0), (0, 0));
    let mut q = Qtable::new_empty();
    q.init_table(env.get_maze(), &env);
    q.train(&env, 1);
    let path = q.extract_path(&env, 100).expect("path should be found");
    assert_eq!(path, vec![Actions::LEFT]);
}

#[test]
fn five_by_five_scenario_reaches_the_goal() {
    let mut maze = open_grid(5, 5);
    maze[0][0] = 2;
    let env = build_env(maze, (3, 4), (0, 0));
    let mut q = Qtable::new_empty();
    q.init_table(env.get_maze(), &env);
    q.train(&env, 50);
    let path = q.extract_path(&env, 1000).expect("rollout should terminate");
    assert!(!path.is_empty());
    // Replay the recorded moves from the start point: the cumulative
    // displacement must land on the goal cell (0, 0).
    let mut pos = Position::new(3, 4);
    for a in path.iter() {
        let next = action_and_state_to_new_state(*a, State::new(pos));
        pos = next.player_pos;
        assert!(pos.x >= 0 && pos.x < 5 && pos.y >= 0 && pos.y < 5);
    }
    assert_eq!(pos, Position::new(0, 0));
}

#[test]
fn degenerate_single_cell_grid_reports_missing_entry() {
    let maze = vec![vec![2]];
    let env = build_env(maze, (0, 0), (0, 0));
    let mut q = Qtable::new_empty();
    q.init_table(env.get_maze(), &env);
    // No action keeps the agent inside a 1x1 grid, so the table is empty
    // and both the greedy lookup and the rollout fail loudly.
    assert_eq!(
        q.get_max_q_value_and_action(State::new(Position::new(0, 0)), &env),
        Err(MazeError::MissingEntry)
    );
    assert_eq!(q.extract_path(&env, 10), Err(MazeError::MissingEntry));
}

#[test]
fn rollout_step_cap_reports_no_convergence() {
    // An untrained all-zero table walks DOWN/UP forever between (0,0) and
    // (0,1) and never reaches the end point (1,1).
    let env = build_env(open_grid(2, 2), (0, 0), (1, 1));
    let mut q = Qtable::new_empty();
    q.init_table(env.get_maze(), &env);
    assert_eq!(q.extract_path(&env, 10), Err(MazeError::NoConvergence));
}
