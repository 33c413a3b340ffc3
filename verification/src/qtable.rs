use vstd::prelude::*;

use crate::errors::MazeError;
use crate::grid::{Environment, CELL_GOAL, MAX_DIM};
use crate::math::lemma_div10_bounds;
use crate::motion::{
    inside_grid, lemma_opposite_actions_cancel, opposite, step_x, step_y, Actions, Position, State,
};
use crate::reward::{cal_reward, reward_spec};

verus! {

broadcast use crate::views::lemma_row_deep_view;

/// Bound kept on every stored action value. Rewards never exceed the goal
/// bonus in magnitude by more than a factor of ten under the update rule,
/// so this bound is preserved by every training sweep and keeps all update
/// arithmetic inside 64 bits.
pub const Q_BOUND: i64 = 200_000_000_000;

/// The position of an action within the canonical enumeration order.
pub open spec fn action_index(a: Actions) -> int {
    match a {
        Actions::UP => 0,
        Actions::DOWN => 1,
        Actions::LEFT => 2,
        Actions::RIGHT => 3,
    }
}

/// Where the slot of cell (x, y) and action `a` lives in the flat value
/// array of a table `width` cells wide.
pub open spec fn flat_index(width: int, x: int, y: int, a: Actions) -> int {
    (y * width + x) * 4 + action_index(a)
}

/// An action is legal from a cell iff the cell it leads to stays on the
/// grid.
pub open spec fn legal_from(env: Environment, x: int, y: int, a: Actions) -> bool {
    inside_grid(step_x(a, x), step_y(a, y), env.width(), env.height())
}

/// The learned table of action values: one slot per (cell, action) pair,
/// holding a value only for the legal pairs.
pub struct Qtable {
    width: usize,
    height: usize,
    values: Vec<Option<i64>>,
}

impl Qtable {
    pub closed spec fn width_spec(self) -> int {
        self.width as int
    }

    pub closed spec fn height_spec(self) -> int {
        self.height as int
    }

    /// The stored value for cell (x, y) and action `a`, or `None` when the
    /// pair lies outside the table or was never given a value.
    pub closed spec fn entry(self, x: int, y: int, a: Actions) -> Option<i64> {
        if 0 <= x < self.width && 0 <= y < self.height {
            self.values@[flat_index(self.width as int, x, y, a)]
        } else {
            None
        }
    }

    /// The table's representation is sound: bounded dimensions and one
    /// slot for each (cell, action) pair.
    pub closed spec fn wf(self) -> bool {
        &&& self.width <= MAX_DIM
        &&& self.height <= MAX_DIM
        &&& self.values@.len() == self.height * self.width * 4
    }

    /// The table is shaped for this environment's grid.
    pub open spec fn matches_env(self, env: Environment) -> bool {
        &&& self.width_spec() == env.width()
        &&& self.height_spec() == env.height()
    }

    /// Exactly the legal (cell, action) pairs of the environment hold a
    /// value.
    pub open spec fn complete_for(self, env: Environment) -> bool {
        &&& self.matches_env(env)
        &&& forall|x: int, y: int, a: Actions|
            inside_grid(x, y, env.width(), env.height()) ==> ((#[trigger] self.entry(x, y, a))
                is Some <==> legal_from(env, x, y, a))
    }

    /// Every stored value lies within the fixed bound.
    pub open spec fn bounded(self) -> bool {
        forall|x: int, y: int, a: Actions|
            (#[trigger] self.entry(x, y, a)) is Some ==> -Q_BOUND <= self.entry(x, y, a)->Some_0
                <= Q_BOUND
    }

    /// A table with no cells and no entries.
    pub fn new_empty() -> (q: Qtable)
        ensures
            q.wf(),
            q.width_spec() == 0,
            q.height_spec() == 0,
            forall|x: int, y: int, a: Actions| (#[trigger] q.entry(x, y, a)) is None,
    {
        Qtable { width: 0, height: 0, values: Vec::new() }
    }
}

/// The value a slot receives at initialization: zero for a legal pair, no
/// entry otherwise.
pub open spec fn init_slot(env: Environment, x: int, y: int, a: Actions) -> Option<i64> {
    if legal_from(env, x, y, a) {
        Some(0i64)
    } else {
        None
    }
}

impl Qtable {
    /// Builds one slot per (cell, action) pair of the grid, giving an
    /// initial value of zero to exactly the pairs whose move stays on the
    /// grid. Cells on the boundary therefore hold fewer values than
    /// interior cells.
    pub fn init_table(&mut self, maze: Vec<Vec<i32>>, environment: &Environment)
        requires
            environment.rect(),
            maze.deep_view() == environment.grid(),
        ensures
            final(self).wf(),
            final(self).matches_env(*environment),
            forall|x: int, y: int, a: Actions|
                inside_grid(x, y, environment.width(), environment.height())
                    ==> #[trigger] final(self).entry(x, y, a) == init_slot(*environment, x, y, a),
            final(self).complete_for(*environment),
            final(self).bounded(),
    {
        let height = maze.len();
        let width = maze[0].len();
        let mut vals: Vec<Option<i64>> = Vec::new();
        let mut y: usize = 0;
        while y < height
            invariant
                width as int == environment.width(),
                height as int == environment.height(),
                width <= MAX_DIM,
                height <= MAX_DIM,
                y <= height,
                vals@.len() == 4 * (y * width),
                forall|xx: int, yy: int, aa: Actions|
                    0 <= xx < width && 0 <= yy < y ==> #[trigger] vals@[flat_index(
                        width as int,
                        xx,
                        yy,
                        aa,
                    )] == init_slot(*environment, xx, yy, aa),
            decreases height - y,
        {
            let mut x: usize = 0;
            while x < width
                invariant
                    width as int == environment.width(),
                    height as int == environment.height(),
                    width <= MAX_DIM,
                    height <= MAX_DIM,
                    y < height,
                    x <= width,
                    vals@.len() == 4 * (y * width) + 4 * x,
                    forall|xx: int, yy: int, aa: Actions|
                        0 <= xx < width && 0 <= yy < y ==> #[trigger] vals@[flat_index(
                            width as int,
                            xx,
                            yy,
                            aa,
                        )] == init_slot(*environment, xx, yy, aa),
                    forall|xx: int, aa: Actions|
                        0 <= xx < x ==> #[trigger] vals@[flat_index(width as int, xx, y as int, aa)]
                            == init_slot(*environment, xx, y as int, aa),
                decreases width - x,
            {
                vals.push(if y >= 1 { Some(0i64) } else { None });
                vals.push(if y + 1 < height { Some(0i64) } else { None });
                vals.push(if x >= 1 { Some(0i64) } else { None });
                vals.push(if x + 1 < width { Some(0i64) } else { None });
                proof {
                    let w = width as int;
                    let xi = x as int;
                    let yi = y as int;
                    assert forall|aa: Actions| #[trigger] vals@[flat_index(w, xi, yi, aa)]
                        == init_slot(*environment, xi, yi, aa) by {
                        assert(flat_index(w, xi, yi, aa) == 4 * (yi * w) + 4 * xi + action_index(
                            aa,
                        ));
                    }
                    assert forall|xx: int, aa: Actions| 0 <= xx < xi implies #[trigger] vals@[
                    flat_index(w, xx, yi, aa)] == init_slot(*environment, xx, yi, aa) by {
                        lemma_flat_mono(w, xx, yi, xi, yi);
                        assert(flat_index(w, xx, yi, aa) < 4 * (yi * w + xi));
                    }
                    assert forall|xx: int, yy: int, aa: Actions| 0 <= xx < w && 0 <= yy < yi
                        implies #[trigger] vals@[flat_index(w, xx, yy, aa)] == init_slot(
                        *environment,
                        xx,
                        yy,
                        aa,
                    ) by {
                        lemma_flat_mono(w, xx, yy, xi, yi);
                        assert(flat_index(w, xx, yy, aa) < 4 * (yi * w + xi));
                    }
                }
                x = x + 1;
            }
            proof {
                assert(4 * (y as int * width as int) + 4 * width as int == 4 * ((y as int + 1)
                    * width as int)) by (nonlinear_arith);
            }
            y = y + 1;
        }
        self.width = width;
        self.height = height;
        self.values = vals;
        proof {
            let w = width as int;
            let h = height as int;
            assert(self.values@.len() == h * w * 4) by (nonlinear_arith)
                requires
                    self.values@.len() == 4 * (h * w),
            ;
            assert forall|x: int, y: int, a: Actions|
                inside_grid(x, y, environment.width(), environment.height())
                    implies #[trigger] self.entry(x, y, a) == init_slot(*environment, x, y, a) by {
                lemma_flat_range(w, h, x, y, a);
            }
        }
    }
}

/// Folds one candidate into the best pair carried so far; the executable
/// twin of `step_acc`.
fn pick(acc: Option<(i64, Actions)>, v: i64, a: Actions) -> (r: Option<(i64, Actions)>)
    ensures
        r == step_acc(acc, v, a),
{
    match acc {
        None => Some((v, a)),
        Some(p) => if v > p.0 {
            Some((v, a))
        } else {
            Some(p)
        },
    }
}

impl Qtable {
    /// The stored slot for the pair ((x, y), a), read from the flat array.
    fn slot(&self, x: i32, y: i32, a: Actions) -> (o: Option<i64>)
        requires
            self.wf(),
        ensures
            o == self.entry(x as int, y as int, a),
    {
        if x < 0 || y < 0 {
            return None;
        }
        let ux = x as usize;
        let uy = y as usize;
        if ux >= self.width || uy >= self.height {
            return None;
        }
        let k: usize = match a {
            Actions::UP => 0,
            Actions::DOWN => 1,
            Actions::LEFT => 2,
            Actions::RIGHT => 3,
        };
        proof {
            lemma_flat_range(self.width as int, self.height as int, ux as int, uy as int, a);
            assert((self.height as int) * (self.width as int) * 4 <= (MAX_DIM as int) * (
            MAX_DIM as int) * 4) by (nonlinear_arith)
                requires
                    self.height <= MAX_DIM as int,
                    self.width <= MAX_DIM as int,
            ;
        }
        let idx = (uy * self.width + ux) * 4 + k;
        self.values[idx]
    }

    /// The greedy lookup: among the actions legal from `state`, the stored
    /// value and action of the one with the greatest value, the earliest
    /// action in the canonical order winning ties. `MissingEntry` when a
    /// legal action has no stored value or no action is legal at all (a
    /// degenerate grid, or a state off the table).
    pub fn get_max_q_value_and_action(&self, state: State, environment: &Environment) -> (r:
        Result<(i64, Actions), MazeError>)
        requires
            self.wf(),
            environment.rect(),
        ensures
            r == best_spec(
                *self,
                *environment,
                state.player_pos.x as int,
                state.player_pos.y as int,
            ),
    {
        let px = state.player_pos.x;
        let py = state.player_pos.y;
        let pxl = px as i64;
        let pyl = py as i64;
        let wl = environment.get_width() as i64;
        let hl = environment.get_height() as i64;
        let ghost gx = px as int;
        let ghost gy = py as int;
        let ghost o0 = action_order();
        let ghost o1 = o0.drop_first();
        let ghost o2 = o1.drop_first();
        let ghost o3 = o2.drop_first();
        let ghost o4 = o3.drop_first();
        proof {
            assert(o0[0] == Actions::UP && o1[0] == Actions::DOWN && o2[0] == Actions::LEFT && o3[0]
                == Actions::RIGHT);
            assert(o0.len() == 4 && o1.len() == 3 && o2.len() == 2 && o3.len() == 1 && o4.len()
                == 0);
        }
        let mut acc: Option<(i64, Actions)> = None;
        let ghost a0 = acc;

        if pxl >= 0 && pxl < wl && pyl - 1 >= 0 && pyl - 1 < hl {
            proof {
                assert(legal_from(*environment, gx, gy, Actions::UP));
            }
            match self.slot(px, py, Actions::UP) {
                Some(v) => {
                    acc = pick(acc, v, Actions::UP);
                },
                None => {
                    return Err(MazeError::MissingEntry);
                },
            }
        } else {
            proof {
                assert(!legal_from(*environment, gx, gy, Actions::UP));
            }
        }
        let ghost a1 = acc;
        proof {
            assert(scan_best(*self, *environment, gx, gy, o0, a0) == scan_best(
                *self,
                *environment,
                gx,
                gy,
                o1,
                a1,
            ));
        }

        if pxl >= 0 && pxl < wl && pyl + 1 >= 0 && pyl + 1 < hl {
            proof {
                assert(legal_from(*environment, gx, gy, Actions::DOWN));
            }
            match self.slot(px, py, Actions::DOWN) {
                Some(v) => {
                    acc = pick(acc, v, Actions::DOWN);
                },
                None => {
                    return Err(MazeError::MissingEntry);
                },
            }
        } else {
            proof {
                assert(!legal_from(*environment, gx, gy, Actions::DOWN));
            }
        }
        let ghost a2 = acc;
        proof {
            assert(scan_best(*self, *environment, gx, gy, o1, a1) == scan_best(
                *self,
                *environment,
                gx,
                gy,
                o2,
                a2,
            ));
        }

        if pxl - 1 >= 0 && pxl - 1 < wl && pyl >= 0 && pyl < hl {
            proof {
                assert(legal_from(*environment, gx, gy, Actions::LEFT));
            }
            match self.slot(px, py, Actions::LEFT) {
                Some(v) => {
                    acc = pick(acc, v, Actions::LEFT);
                },
                None => {
                    return Err(MazeError::MissingEntry);
                },
            }
        } else {
            proof {
                assert(!legal_from(*environment, gx, gy, Actions::LEFT));
            }
        }
        let ghost a3 = acc;
        proof {
            assert(scan_best(*self, *environment, gx, gy, o2, a2) == scan_best(
                *self,
                *environment,
                gx,
                gy,
                o3,
                a3,
            ));
        }

        if pxl + 1 >= 0 && pxl + 1 < wl && pyl >= 0 && pyl < hl {
            proof {
                assert(legal_from(*environment, gx, gy, Actions::RIGHT));
            }
            match self.slot(px, py, Actions::RIGHT) {
                Some(v) => {
                    acc = pick(acc, v, Actions::RIGHT);
                },
                None => {
                    return Err(MazeError::MissingEntry);
                },
            }
        } else {
            proof {
                assert(!legal_from(*environment, gx, gy, Actions::RIGHT));
            }
        }
        let ghost a4 = acc;
        proof {
            assert(scan_best(*self, *environment, gx, gy, o3, a3) == scan_best(
                *self,
                *environment,
                gx,
                gy,
                o4,
                a4,
            ));
        }

        match acc {
            Some(p) => Ok(p),
            None => Err(MazeError::MissingEntry),
        }
    }
}

/// Largest magnitude a drive term (reward plus discounted best next
/// value) can take when table values respect `Q_BOUND`.
const T_BOUND: i64 = 190_000_000_000;

/// One Bellman update in integer reward units: the new value keeps nine
/// tenths of the old value and adds one tenth of the drive term, rounding
/// down (Euclidean division).
pub open spec fn next_value(v: int, t: int) -> int {
    (9 * v + t) / 10
}

/// The value an entry reaches after `n` update cycles with a fixed drive
/// term.
pub open spec fn value_after(v0: int, t: int, n: nat) -> int
    decreases n,
{
    if n == 0 {
        v0
    } else {
        next_value(value_after(v0, t, (n - 1) as nat), t)
    }
}

/// The value of the best action from (x, y) in `q`; meaningful where the
/// greedy lookup succeeds.
pub open spec fn max_next(q: Qtable, env: Environment, x: int, y: int) -> int {
    best_spec(q, env, x, y)->Ok_0.0 as int
}

/// The drive term of an entry during training: the reward of the cell the
/// action reaches, plus nine tenths of the best value stored there in the
/// snapshot taken when training began.
pub open spec fn drive(snap: Qtable, env: Environment, x: int, y: int, a: Actions) -> int {
    reward_spec(env, step_x(a, x), step_y(a, y)) + 9 * max_next(
        snap,
        env,
        step_x(a, x),
        step_y(a, y),
    ) / 10
}

/// One Bellman rewrite of a single slot against the snapshot: an absent
/// entry stays absent.
pub open spec fn updated_entry(
    prev: Option<i64>,
    snap: Qtable,
    env: Environment,
    x: int,
    y: int,
    a: Actions,
) -> Option<i64> {
    match prev {
        None => None,
        Some(v) => Some(next_value(v as int, drive(snap, env, x, y, a)) as i64),
    }
}

/// What an entry holds after `n` full training cycles that all read their
/// next-state values from the pre-training table `q0`.
pub open spec fn train_entry(
    q0: Qtable,
    env: Environment,
    x: int,
    y: int,
    a: Actions,
    n: nat,
) -> Option<i64> {
    match q0.entry(x, y, a) {
        None => None,
        Some(v0) => Some(value_after(v0 as int, drive(q0, env, x, y, a), n) as i64),
    }
}

/// Repeated bounded updates stay within the value bound.
proof fn lemma_value_after_bounded(v0: int, t: int, n: nat)
    requires
        -Q_BOUND <= v0 <= Q_BOUND,
        -T_BOUND <= t <= T_BOUND,
    ensures
        -Q_BOUND <= value_after(v0, t, n) <= Q_BOUND,
    decreases n,
{
    if n > 0 {
        lemma_value_after_bounded(v0, t, (n - 1) as nat);
        lemma_div10_bounds(9 * value_after(v0, t, (n - 1) as nat) + t, 199_000_000_000);
    }
}

/// Floor division by ten of a bounded value, exact per the Euclidean
/// definition used in specifications.
fn div10(x: i64) -> (r: i64)
    requires
        -2_000_000_000_000 <= x <= 2_000_000_000_000,
    ensures
        r as int == (x as int) / 10,
        -200_000_000_000 <= r <= 200_000_000_000,
{
    proof {
        lemma_div10_bounds(x as int, 200_000_000_000);
    }
    match x.checked_div_euclid(10) {
        Some(v) => v,
        None => {
            proof {
                assert(false);
            }
            0
        },
    }
}

/// One executable Bellman update, bounded in and out.
fn bellman_step(q: i64, t: i64) -> (r: i64)
    requires
        -Q_BOUND <= q <= Q_BOUND,
        -T_BOUND <= t <= T_BOUND,
    ensures
        r as int == next_value(q as int, t as int),
        -Q_BOUND <= r <= Q_BOUND,
{
    let s = 9 * q + t;
    proof {
        lemma_div10_bounds(s as int, 199_000_000_000);
    }
    div10(s)
}

/// The canonical enumeration order of the four actions, as a sequence.
pub open spec fn action_order() -> Seq<Actions> {
    seq![Actions::UP, Actions::DOWN, Actions::LEFT, Actions::RIGHT]
}

/// Folds one candidate into the best (value, action) pair carried so far.
/// A candidate replaces the carried pair only with a strictly greater
/// value, so among equals the earliest candidate wins.
pub open spec fn step_acc(acc: Option<(i64, Actions)>, v: i64, a: Actions) -> Option<
    (i64, Actions),
> {
    match acc {
        None => Some((v, a)),
        Some(p) => if v > p.0 {
            Some((v, a))
        } else {
            Some(p)
        },
    }
}

/// Greedy scan over the remaining actions in order: illegal moves are
/// skipped, a legal move without a stored value stops the scan with
/// `MissingEntry`, and when no legal candidate was found at all the result
/// is `MissingEntry` as well.
pub open spec fn scan_best(
    q: Qtable,
    env: Environment,
    x: int,
    y: int,
    order: Seq<Actions>,
    acc: Option<(i64, Actions)>,
) -> Result<(i64, Actions), MazeError>
    decreases order.len(),
{
    if order.len() == 0 {
        match acc {
            Some(p) => Ok(p),
            None => Err(MazeError::MissingEntry),
        }
    } else {
        let a = order[0];
        if legal_from(env, x, y, a) {
            match q.entry(x, y, a) {
                None => Err(MazeError::MissingEntry),
                Some(v) => scan_best(q, env, x, y, order.drop_first(), step_acc(acc, v, a)),
            }
        } else {
            scan_best(q, env, x, y, order.drop_first(), acc)
        }
    }
}

/// The greedy lookup for a state: the stored value and action of the
/// legal action with the greatest value, ties going to the earliest
/// action in the canonical order UP, DOWN, LEFT, RIGHT.
pub open spec fn best_spec(q: Qtable, env: Environment, x: int, y: int) -> Result<
    (i64, Actions),
    MazeError,
> {
    scan_best(q, env, x, y, action_order(), None)
}

/// The scan succeeds when every legal action it will visit has a stored
/// value and at least one candidate exists.
proof fn lemma_scan_ok(
    q: Qtable,
    env: Environment,
    x: int,
    y: int,
    order: Seq<Actions>,
    acc: Option<(i64, Actions)>,
)
    requires
        forall|i: int|
            0 <= i < order.len() && legal_from(env, x, y, order[i]) ==> (#[trigger] q.entry(
                x,
                y,
                order[i],
            )) is Some,
        acc is Some || exists|i: int|
            0 <= i < order.len() && legal_from(env, x, y, #[trigger] order[i]),
    ensures
        scan_best(q, env, x, y, order, acc) is Ok,
    decreases order.len(),
{
    if order.len() != 0 {
        let a = order[0];
        if legal_from(env, x, y, a) {
            lemma_scan_ok(q, env, x, y, order.drop_first(), step_acc(acc, q.entry(x, y, a)->Some_0, a));
        } else {
            assert(acc is None ==> exists|i: int|
                0 <= i < order.drop_first().len() && legal_from(
                    env,
                    x,
                    y,
                    #[trigger] order.drop_first()[i],
                )) by {
                if acc is None {
                    let i = choose|i: int|
                        0 <= i < order.len() && legal_from(env, x, y, #[trigger] order[i]);
                    assert(order.drop_first()[i - 1] == order[i]);
                }
            }
            lemma_scan_ok(q, env, x, y, order.drop_first(), acc);
        }
    }
}

/// A successful scan of a bounded table yields a bounded value.
proof fn lemma_scan_bounded(
    q: Qtable,
    env: Environment,
    x: int,
    y: int,
    order: Seq<Actions>,
    acc: Option<(i64, Actions)>,
)
    requires
        q.bounded(),
        acc is Some ==> -Q_BOUND <= acc->Some_0.0 <= Q_BOUND,
    ensures
        scan_best(q, env, x, y, order, acc) is Ok ==> -Q_BOUND <= scan_best(
            q,
            env,
            x,
            y,
            order,
            acc,
        )->Ok_0.0 <= Q_BOUND,
    decreases order.len(),
{
    if order.len() != 0 {
        let a = order[0];
        if legal_from(env, x, y, a) {
            match q.entry(x, y, a) {
                None => {},
                Some(v) => {
                    assert(q.entry(x, y, a) is Some);
                    lemma_scan_bounded(q, env, x, y, order.drop_first(), step_acc(acc, v, a));
                },
            }
        } else {
            lemma_scan_bounded(q, env, x, y, order.drop_first(), acc);
        }
    }
}

/// The scan reads the table only through the entries of the scanned cell:
/// two tables that agree there scan alike.
proof fn lemma_scan_congruent(
    q1: Qtable,
    q2: Qtable,
    env: Environment,
    x: int,
    y: int,
    order: Seq<Actions>,
    acc: Option<(i64, Actions)>,
)
    requires
        forall|a: Actions| #[trigger] q1.entry(x, y, a) == q2.entry(x, y, a),
    ensures
        scan_best(q1, env, x, y, order, acc) == scan_best(q2, env, x, y, order, acc),
    decreases order.len(),
{
    if order.len() != 0 {
        let a = order[0];
        if legal_from(env, x, y, a) {
            match q1.entry(x, y, a) {
                None => {},
                Some(v) => {
                    lemma_scan_congruent(q1, q2, env, x, y, order.drop_first(), step_acc(acc, v, a));
                },
            }
        } else {
            lemma_scan_congruent(q1, q2, env, x, y, order.drop_first(), acc);
        }
    }
}

/// A successful scan that started with no carried pair (or a legally
/// carried one) returns a legal action.
proof fn lemma_scan_legal(
    q: Qtable,
    env: Environment,
    x: int,
    y: int,
    order: Seq<Actions>,
    acc: Option<(i64, Actions)>,
)
    requires
        acc is Some ==> legal_from(env, x, y, acc->Some_0.1),
    ensures
        scan_best(q, env, x, y, order, acc) is Ok ==> legal_from(
            env,
            x,
            y,
            scan_best(q, env, x, y, order, acc)->Ok_0.1,
        ),
    decreases order.len(),
{
    if order.len() != 0 {
        let a = order[0];
        if legal_from(env, x, y, a) {
            match q.entry(x, y, a) {
                None => {},
                Some(v) => {
                    lemma_scan_legal(q, env, x, y, order.drop_first(), step_acc(acc, v, a));
                },
            }
        } else {
            lemma_scan_legal(q, env, x, y, order.drop_first(), acc);
        }
    }
}

/// Greedy lookup is deterministic: it depends only on the scanned cell's
/// stored entries and the grid, never on hidden state, so repeated calls
/// on an unchanged table return the identical (value, action) pair, with
/// the documented first-candidate tie-break.
pub proof fn lemma_best_action_deterministic(q1: Qtable, q2: Qtable, env: Environment, x: int, y: int)
    requires
        forall|a: Actions| #[trigger] q1.entry(x, y, a) == q2.entry(x, y, a),
    ensures
        best_spec(q1, env, x, y) == best_spec(q2, env, x, y),
{
    lemma_scan_congruent(q1, q2, env, x, y, action_order(), None);
}

/// Rewriting a slot that holds the `n`-cycle value yields the
/// `n + 1`-cycle value, when the snapshot's entries are those of the
/// pre-training table.
proof fn lemma_cycle_step(
    q0: Qtable,
    snap: Qtable,
    env: Environment,
    x: int,
    y: int,
    a: Actions,
    n: nat,
)
    requires
        env.wf(),
        q0.complete_for(env),
        q0.bounded(),
        forall|xx: int, yy: int, aa: Actions| #[trigger] snap.entry(xx, yy, aa) == q0.entry(
            xx,
            yy,
            aa,
        ),
        inside_grid(x, y, env.width(), env.height()),
    ensures
        updated_entry(train_entry(q0, env, x, y, a, n), snap, env, x, y, a) == train_entry(
            q0,
            env,
            x,
            y,
            a,
            n + 1,
        ),
{
    match q0.entry(x, y, a) {
        None => {},
        Some(v0) => {
            assert(legal_from(env, x, y, a));
            let nx = step_x(a, x);
            let ny = step_y(a, y);
            assert(forall|aa: Actions| #[trigger] snap.entry(nx, ny, aa) == q0.entry(nx, ny, aa));
            lemma_best_action_deterministic(snap, q0, env, nx, ny);
            lemma_opposite_actions_cancel(a, x, y);
            assert(legal_from(env, nx, ny, opposite(a)));
            assert(action_order()[action_index(opposite(a))] == opposite(a));
            lemma_scan_ok(q0, env, nx, ny, action_order(), None);
            lemma_scan_bounded(q0, env, nx, ny, action_order(), None);
            crate::reward::lemma_reward_bounds(env, nx, ny);
            lemma_div10_bounds(9 * max_next(q0, env, nx, ny), 180_000_000_000);
            let t = drive(q0, env, x, y, a);
            assert(-T_BOUND <= t <= T_BOUND);
            lemma_value_after_bounded(v0 as int, t, n);
            lemma_div10_bounds(9 * value_after(v0 as int, t, n) + t, 199_000_000_000);
        },
    }
}

impl Qtable {
    /// An owned copy of the table with identical dimensions and entries.
    fn clone_table(&self) -> (r: Qtable)
        ensures
            r.width_spec() == self.width_spec(),
            r.height_spec() == self.height_spec(),
            self.wf() ==> r.wf(),
            forall|x: int, y: int, a: Actions| #[trigger] r.entry(x, y, a) == self.entry(x, y, a),
    {
        let mut vals: Vec<Option<i64>> = Vec::new();
        let mut i: usize = 0;
        while i < self.values.len()
            invariant
                i <= self.values@.len(),
                vals@ == self.values@.take(i as int),
            decreases self.values@.len() - i,
        {
            vals.push(self.values[i]);
            proof {
                assert(vals@ =~= self.values@.take(i as int + 1));
            }
            i = i + 1;
        }
        proof {
            assert(vals@ =~= self.values@);
        }
        Qtable { width: self.width, height: self.height, values: vals }
    }

    /// Rewrites the slot of one (cell, action) pair from its own old value
    /// and the snapshot, leaving every other slot untouched.
    fn update_entry(
        &mut self,
        environment: &Environment,
        snap: &Qtable,
        x: usize,
        y: usize,
        a: Actions,
    )
        requires
            environment.wf(),
            old(self).wf(),
            x < old(self).width_spec(),
            y < old(self).height_spec(),
            old(self).width_spec() == environment.width(),
            old(self).height_spec() == environment.height(),
            snap.wf(),
            snap.complete_for(*environment),
            snap.bounded(),
            old(self).entry(x as int, y as int, a) is Some ==> legal_from(
                *environment,
                x as int,
                y as int,
                a,
            ),
            old(self).entry(x as int, y as int, a) is Some ==> -Q_BOUND <= old(self).entry(
                x as int,
                y as int,
                a,
            )->Some_0 <= Q_BOUND,
        ensures
            final(self).wf(),
            final(self).width_spec() == old(self).width_spec(),
            final(self).height_spec() == old(self).height_spec(),
            final(self).entry(x as int, y as int, a) == updated_entry(
                old(self).entry(x as int, y as int, a),
                *snap,
                *environment,
                x as int,
                y as int,
                a,
            ),
            final(self).entry(x as int, y as int, a) is Some ==> -Q_BOUND <= final(self).entry(
                x as int,
                y as int,
                a,
            )->Some_0 <= Q_BOUND,
            forall|xx: int, yy: int, aa: Actions|
                !(xx == x as int && yy == y as int && aa == a) ==> #[trigger] final(self).entry(
                    xx,
                    yy,
                    aa,
                ) == old(self).entry(xx, yy, aa),
    {
        let ghost gx = x as int;
        let ghost gy = y as int;
        let k: usize = match a {
            Actions::UP => 0,
            Actions::DOWN => 1,
            Actions::LEFT => 2,
            Actions::RIGHT => 3,
        };
        proof {
            lemma_flat_range(self.width as int, self.height as int, gx, gy, a);
            assert((self.height as int) * (self.width as int) * 4 <= (MAX_DIM as int) * (
            MAX_DIM as int) * 4) by (nonlinear_arith)
                requires
                    self.height <= MAX_DIM as int,
                    self.width <= MAX_DIM as int,
            ;
        }
        let idx = (y * self.width + x) * 4 + k;
        proof {
            assert(idx as int == flat_index(self.width as int, gx, gy, a));
        }
        let cur = self.values[idx];
        proof {
            assert(cur == self.entry(gx, gy, a));
        }
        match cur {
            None => {
                proof {
                    assert forall|xx: int, yy: int, aa: Actions|
                        !(xx == gx && yy == gy && aa == a) implies #[trigger] self.entry(xx, yy, aa)
                        == old(self).entry(xx, yy, aa) by {}
                }
            },
            Some(v) => {
                let (nx, ny): (i32, i32) = match a {
                    Actions::UP => (x as i32, y as i32 - 1),
                    Actions::DOWN => (x as i32, y as i32 + 1),
                    Actions::LEFT => (x as i32 - 1, y as i32),
                    Actions::RIGHT => (x as i32 + 1, y as i32),
                };
                proof {
                    assert(nx as int == step_x(a, gx) && ny as int == step_y(a, gy));
                    assert(inside_grid(nx as int, ny as int, environment.width(), environment.height()));
                    crate::reward::lemma_reward_bounds(*environment, nx as int, ny as int);
                    lemma_opposite_actions_cancel(a, gx, gy);
                    assert(legal_from(*environment, nx as int, ny as int, opposite(a)));
                    assert(action_order()[action_index(opposite(a))] == opposite(a));
                    lemma_scan_ok(*snap, *environment, nx as int, ny as int, action_order(), None);
                    lemma_scan_bounded(
                        *snap,
                        *environment,
                        nx as int,
                        ny as int,
                        action_order(),
                        None,
                    );
                }
                let st = State { player_pos: Position { x: nx, y: ny } };
                let rwd = match cal_reward(environment, st) {
                    Ok(rv) => rv,
                    Err(_) => {
                        proof {
                            assert(false);
                        }
                        0
                    },
                };
                let m = match snap.get_max_q_value_and_action(st, environment) {
                    Ok(p) => p.0,
                    Err(_) => {
                        proof {
                            assert(false);
                        }
                        0
                    },
                };
                proof {
                    lemma_div10_bounds(9 * m as int, 180_000_000_000);
                }
                let m9 = div10(9 * m);
                let t = rwd + m9;
                let nv = bellman_step(v, t);
                self.values[idx] = Some(nv);
                proof {
                    assert(t as int == drive(*snap, *environment, gx, gy, a));
                    assert(self.entry(gx, gy, a) == Some(nv));
                    assert forall|xx: int, yy: int, aa: Actions|
                        !(xx == gx && yy == gy && aa == a) implies #[trigger] self.entry(xx, yy, aa)
                        == old(self).entry(xx, yy, aa) by {
                        if 0 <= xx < self.width as int && 0 <= yy < self.height as int {
                            lemma_flat_range(self.width as int, self.height as int, xx, yy, aa);
                            if flat_index(self.width as int, xx, yy, aa) == idx as int {
                                lemma_flat_injective(self.width as int, xx, yy, aa, gx, gy, a);
                            }
                        }
                    }
                }
            },
        }
    }

    /// Runs `learning_cycles` synchronous Bellman sweeps over every stored
    /// entry. Each rewrite reads its next-state values from a snapshot of
    /// the table taken once, when this call began — never from values
    /// updated earlier in the same or an earlier sweep of this call — so
    /// an entry's final value depends only on its own initial value and
    /// the pre-training table.
    #[verifier::loop_isolation(false)]
    pub fn train(&mut self, environment: &Environment, learning_cycles: u32)
        requires
            environment.wf(),
            old(self).wf(),
            old(self).complete_for(*environment),
            old(self).bounded(),
        ensures
            final(self).wf(),
            final(self).complete_for(*environment),
            final(self).bounded(),
            forall|x: int, y: int, a: Actions|
                inside_grid(x, y, environment.width(), environment.height())
                    ==> #[trigger] final(self).entry(x, y, a) == train_entry(
                    *old(self),
                    *environment,
                    x,
                    y,
                    a,
                    learning_cycles as nat,
                ),
    {
        let ghost q0 = *old(self);
        let snap = self.clone_table();
        let w = self.width;
        let h = self.height;
        let mut c: u32 = 0;
        while c < learning_cycles
            invariant
                self.wf(),
                self.width == w,
                self.height == h,
                c <= learning_cycles,
                forall|x: int, y: int, a: Actions|
                    inside_grid(x, y, environment.width(), environment.height())
                        ==> #[trigger] self.entry(x, y, a) == train_entry(
                        q0,
                        *environment,
                        x,
                        y,
                        a,
                        c as nat,
                    ),
                self.bounded(),
            decreases learning_cycles - c,
        {
            let mut y: usize = 0;
            while y < h
                invariant
                    self.wf(),
                    self.width == w,
                    self.height == h,
                    y <= h,
                    forall|xx: int, yy: int, aa: Actions|
                        inside_grid(xx, yy, environment.width(), environment.height())
                            ==> #[trigger] self.entry(xx, yy, aa) == (if yy < y {
                            train_entry(q0, *environment, xx, yy, aa, (c + 1) as nat)
                        } else {
                            train_entry(q0, *environment, xx, yy, aa, c as nat)
                        }),
                    self.bounded(),
                decreases h - y,
            {
                let mut x: usize = 0;
                while x < w
                    invariant
                        self.wf(),
                        self.width == w,
                        self.height == h,
                        y < h,
                        x <= w,
                        forall|xx: int, yy: int, aa: Actions|
                            inside_grid(xx, yy, environment.width(), environment.height())
                                ==> #[trigger] self.entry(xx, yy, aa) == (if yy < y as int || (yy
                                == y as int && xx < x as int) {
                                train_entry(q0, *environment, xx, yy, aa, (c + 1) as nat)
                            } else {
                                train_entry(q0, *environment, xx, yy, aa, c as nat)
                            }),
                        self.bounded(),
                    decreases w - x,
                {
                    self.update_entry(environment, &snap, x, y, Actions::UP);
                    self.update_entry(environment, &snap, x, y, Actions::DOWN);
                    self.update_entry(environment, &snap, x, y, Actions::LEFT);
                    self.update_entry(environment, &snap, x, y, Actions::RIGHT);
                    proof {
                        assert forall|aa: Actions| #[trigger] self.entry(x as int, y as int, aa)
                            == train_entry(
                            q0,
                            *environment,
                            x as int,
                            y as int,
                            aa,
                            (c + 1) as nat,
                        ) by {
                            lemma_cycle_step(
                                q0,
                                snap,
                                *environment,
                                x as int,
                                y as int,
                                aa,
                                c as nat,
                            );
                        }
                    }
                    x = x + 1;
                }
                y = y + 1;
            }
            c = c + 1;
        }
    }
}

/// The greedy rollout: from (x, y), take the best stored action and
/// record it, then stop when the cell just left was the goal cell or the
/// cell arrived at is the end point; otherwise walk on. A used-up step
/// budget reports `NoConvergence`, and a failed greedy lookup passes its
/// error through.
pub open spec fn rollout(q: Qtable, env: Environment, x: int, y: int, fuel: nat) -> Result<
    Seq<Actions>,
    MazeError,
>
    decreases fuel,
{
    if fuel == 0 {
        Err(MazeError::NoConvergence)
    } else {
        match best_spec(q, env, x, y) {
            Err(e) => Err(e),
            Ok(p) => {
                let a = p.1;
                let nx = step_x(a, x);
                let ny = step_y(a, y);
                if env.cell(x, y) == CELL_GOAL || (nx == env.end_spec().x as int && ny
                    == env.end_spec().y as int) {
                    Ok(seq![a])
                } else {
                    match rollout(q, env, nx, ny, (fuel - 1) as nat) {
                        Ok(rest) => Ok(seq![a] + rest),
                        Err(e) => Err(e),
                    }
                }
            },
        }
    }
}

/// Prepends an already-walked prefix onto the outcome of the rest of a
/// rollout.
pub open spec fn compose_rollout(
    prefix: Seq<Actions>,
    rest: Result<Seq<Actions>, MazeError>,
) -> Result<Seq<Actions>, MazeError> {
    match rest {
        Ok(s) => Ok(prefix + s),
        Err(e) => Err(e),
    }
}

impl Qtable {
    /// The stored value for a (state, action) pair, if any.
    pub fn get_q_value(&self, state: State, action: Actions) -> (o: Option<i64>)
        requires
            self.wf(),
        ensures
            o == self.entry(state.player_pos.x as int, state.player_pos.y as int, action),
    {
        self.slot(state.player_pos.x, state.player_pos.y, action)
    }

    /// Walks the greedy path from the environment's start point against
    /// this table, recording every action taken, and stops after leaving
    /// the goal cell or arriving on the end point. `max_steps` caps the
    /// walk, so a table whose greedy walk never reaches the goal reports
    /// `NoConvergence` instead of looping forever.
    #[verifier::loop_isolation(false)]
    pub fn extract_path(&self, environment: &Environment, max_steps: u32) -> (r: Result<
        Vec<Actions>,
        MazeError,
    >)
        requires
            self.wf(),
            environment.rect(),
        ensures
            ({
                let rr = rollout(
                    *self,
                    *environment,
                    environment.start_spec().x as int,
                    environment.start_spec().y as int,
                    max_steps as nat,
                );
                match r {
                    Ok(path) => rr == Ok::<Seq<Actions>, MazeError>(path@),
                    Err(e) => rr == Err::<Seq<Actions>, MazeError>(e),
                }
            }),
    {
        let ghost sx = environment.start_spec().x as int;
        let ghost sy = environment.start_spec().y as int;
        let sp = environment.startpoint();
        let ep = environment.endpoint();
        let mut path: Vec<Actions> = Vec::new();
        let mut cx = sp.x;
        let mut cy = sp.y;
        let mut fuel = max_steps;
        proof {
            let rr = rollout(*self, *environment, sx, sy, max_steps as nat);
            if rr is Ok {
                assert(Seq::<Actions>::empty() + rr->Ok_0 =~= rr->Ok_0);
            }
        }
        while fuel > 0
            invariant
                fuel <= max_steps,
                0 <= cx < environment.width(),
                0 <= cy < environment.height(),
                rollout(*self, *environment, sx, sy, max_steps as nat) == compose_rollout(
                    path@,
                    rollout(*self, *environment, cx as int, cy as int, fuel as nat),
                ),
            decreases fuel,
        {
            let best = self.get_max_q_value_and_action(
                State { player_pos: Position { x: cx, y: cy } },
                environment,
            );
            let act = match best {
                Ok(p) => p.1,
                Err(e) => {
                    return Err(e);
                },
            };
            proof {
                lemma_scan_legal(
                    *self,
                    *environment,
                    cx as int,
                    cy as int,
                    action_order(),
                    None,
                );
            }
            let cell = match environment.get_type(Position { x: cx, y: cy }) {
                Ok(c) => c,
                Err(_) => {
                    proof {
                        assert(false);
                    }
                    return Err(MazeError::OutOfBounds);
                },
            };
            let ghost old_path = path@;
            let ghost old_cx = cx as int;
            let ghost old_cy = cy as int;
            path.push(act);
            let nx = match act {
                Actions::UP => cx,
                Actions::DOWN => cx,
                Actions::LEFT => cx - 1,
                Actions::RIGHT => cx + 1,
            };
            let ny = match act {
                Actions::UP => cy - 1,
                Actions::DOWN => cy + 1,
                Actions::LEFT => cy,
                Actions::RIGHT => cy,
            };
            proof {
                assert(nx as int == step_x(act, old_cx) && ny as int == step_y(act, old_cy));
            }
            cx = nx;
            cy = ny;
            if cell == CELL_GOAL || (nx == ep.x && ny == ep.y) {
                proof {
                    assert(old_path.push(act) =~= old_path + seq![act]);
                    assert(rollout(*self, *environment, old_cx, old_cy, fuel as nat) == Ok::<
                        Seq<Actions>,
                        MazeError,
                    >(seq![act]));
                }
                return Ok(path);
            }
            proof {
                let inner = rollout(
                    *self,
                    *environment,
                    cx as int,
                    cy as int,
                    (fuel - 1) as nat,
                );
                if inner is Ok {
                    assert(old_path + (seq![act] + inner->Ok_0) =~= old_path.push(act)
                        + inner->Ok_0);
                }
                assert(compose_rollout(
                    old_path,
                    rollout(*self, *environment, old_cx, old_cy, fuel as nat),
                ) == compose_rollout(path@, inner));
            }
            fuel = fuel - 1;
        }
        Err(MazeError::NoConvergence)
    }
}

/// The initialized table holds entries for exactly the legal (cell,
/// action) pairs, so the set of held pairs is the set of legal pairs and
/// their numbers agree.
pub proof fn lemma_table_completeness(q: Qtable, env: Environment)
    requires
        q.complete_for(env),
    ensures
        Set::new(
            |t: (int, int, Actions)|
                inside_grid(t.0, t.1, env.width(), env.height()) && q.entry(t.0, t.1, t.2) is Some,
        ) =~= Set::new(
            |t: (int, int, Actions)|
                inside_grid(t.0, t.1, env.width(), env.height()) && legal_from(
                    env,
                    t.0,
                    t.1,
                    t.2,
                ),
        ),
{
}

/// Training is snapshot-isolated: what an entry holds after any number
/// of cycles is a function of the pre-training entries alone — the
/// entry's own initial value and greedy lookups against the pre-training
/// table — never of entries rewritten earlier in a sweep. Any two tables
/// with the same entries therefore train identically.
pub proof fn lemma_snapshot_isolation(
    q1: Qtable,
    q2: Qtable,
    env: Environment,
    x: int,
    y: int,
    a: Actions,
    n: nat,
)
    requires
        forall|xx: int, yy: int, aa: Actions| #[trigger] q1.entry(xx, yy, aa) == q2.entry(
            xx,
            yy,
            aa,
        ),
    ensures
        train_entry(q1, env, x, y, a, n) == train_entry(q2, env, x, y, a, n),
{
    lemma_best_action_deterministic(q1, q2, env, step_x(a, x), step_y(a, y));
}

/// A slot index of an earlier cell (row-major order) lies strictly below
/// the slot base of a later cell.
proof fn lemma_flat_mono(w: int, x1: int, y1: int, x2: int, y2: int)
    requires
        0 <= x1 < w,
        0 <= x2,
        0 <= y1,
        y1 < y2 || (y1 == y2 && x1 < x2),
    ensures
        y1 * w + x1 < y2 * w + x2,
{
    assert(y1 * w + x1 < y2 * w + x2) by (nonlinear_arith)
        requires
            0 <= x1 < w,
            0 <= x2,
            0 <= y1,
            y1 < y2 || (y1 == y2 && x1 < x2),
    ;
}

/// A slot index never collides with the slot of a different pair.
proof fn lemma_flat_injective(
    width: int,
    x1: int,
    y1: int,
    a1: Actions,
    x2: int,
    y2: int,
    a2: Actions,
)
    requires
        0 <= x1 < width,
        0 <= x2 < width,
        0 <= y1,
        0 <= y2,
        flat_index(width, x1, y1, a1) == flat_index(width, x2, y2, a2),
    ensures
        x1 == x2 && y1 == y2 && a1 == a2,
{
    assert(y1 * width + x1 == y2 * width + x2 && action_index(a1) == action_index(a2)) by {
        assert((y1 * width + x1) * 4 + action_index(a1) == (y2 * width + x2) * 4 + action_index(
            a2,
        ));
        assert(0 <= action_index(a1) < 4 && 0 <= action_index(a2) < 4);
        assert((y1 * width + x1) == (y2 * width + x2)) by (nonlinear_arith)
            requires
                (y1 * width + x1) * 4 + action_index(a1) == (y2 * width + x2) * 4 + action_index(
                    a2,
                ),
                0 <= action_index(a1) < 4,
                0 <= action_index(a2) < 4,
        ;
    }
    assert(y1 == y2 && x1 == x2) by (nonlinear_arith)
        requires
            y1 * width + x1 == y2 * width + x2,
            0 <= x1 < width,
            0 <= x2 < width,
            0 <= y1,
            0 <= y2,
    ;
}

/// The slot of an in-range pair lies within the value array.
proof fn lemma_flat_range(width: int, height: int, x: int, y: int, a: Actions)
    requires
        0 <= x < width,
        0 <= y < height,
    ensures
        0 <= flat_index(width, x, y, a) < height * width * 4,
{
    assert(0 <= (y * width + x) * 4 + action_index(a) < height * width * 4) by (nonlinear_arith)
        requires
            0 <= x < width,
            0 <= y < height,
            0 <= action_index(a) < 4,
    ;
}

} // verus!
