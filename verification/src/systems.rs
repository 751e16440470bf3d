//! The per-tick systems and the scheduler.
//!
//! Two systems ship with the core, with deliberately different edge
//! policies: the left-drift system wraps at the grid's left edge (cyclic,
//! decorative), player movement clamps to the grid (bounded, gameplay).
//! `tick` drives one frame in the fixed order input, drift, maintenance,
//! render; systems run single-threaded, and every destruction request is
//! applied only at the `maintain` sync point between the systems and the
//! render pass.

use vstd::prelude::*;
use crate::components::{Entity, Position, DrawCmd, InputKey, in_grid, MAX_X, MAX_Y};
use crate::storage::{has_key, value_of, key_index, lemma_key_index_unique};
use crate::world::{World, WorldModel, maintained};
use crate::render::render_model;

verus! {

/// One leftward drift step: `x` falls by one and wraps from the left edge
/// to the right edge; `y` never moves.
pub open spec fn drift(p: Position) -> Position {
    Position { x: if p.x == 0 { MAX_X } else { (p.x - 1) as i32 }, y: p.y }
}

/// Clamping to a closed interval.
pub open spec fn clamped(v: int, lo: int, hi: int) -> int {
    if v < lo {
        lo
    } else if v > hi {
        hi
    } else {
        v
    }
}

/// One player movement step: the delta is applied and the result clamped
/// (not wrapped) to the grid.
pub open spec fn stepped(p: Position, dx: int, dy: int) -> Position {
    Position {
        x: clamped(p.x + dx, 0, MAX_X as int) as i32,
        y: clamped(p.y + dy, 0, MAX_Y as int) as i32,
    }
}

/// The model after one left-walker pass: every entity holding both
/// `LeftMover` and `Position` drifts one step; every other position entry
/// stands unchanged.
pub open spec fn left_walked(m: WorldModel) -> WorldModel {
    WorldModel {
        positions: Seq::new(
            m.positions.len(),
            |i: int|
                if has_key(m.left_movers, m.positions[i].0) {
                    (m.positions[i].0, drift(m.positions[i].1))
                } else {
                    m.positions[i]
                },
        ),
        ..m
    }
}

/// The model after one player movement step with delta `(dx, dy)`: every
/// entity holding both `Player` and `Position` moves, clamped to the grid;
/// every other position entry stands unchanged.
pub open spec fn player_moved(m: WorldModel, dx: int, dy: int) -> WorldModel {
    WorldModel {
        positions: Seq::new(
            m.positions.len(),
            |i: int|
                if has_key(m.players, m.positions[i].0) {
                    (m.positions[i].0, stepped(m.positions[i].1, dx, dy))
                } else {
                    m.positions[i]
                },
        ),
        ..m
    }
}

/// The movement delta a key stands for; `None` for keys with no movement
/// meaning — no system is invoked for those.
pub open spec fn move_delta(key: InputKey) -> Option<(i32, i32)> {
    match key {
        InputKey::Left => Some((-1i32, 0i32)),
        InputKey::Right => Some((1i32, 0i32)),
        InputKey::Up => Some((0i32, -1i32)),
        InputKey::Down => Some((0i32, 1i32)),
        InputKey::Other => None,
    }
}

/// The model after the per-tick input snapshot is handled: a recognised
/// directional key moves the player entities, anything else (or no key)
/// moves nothing.
pub open spec fn input_applied(m: WorldModel, key: Option<InputKey>) -> WorldModel {
    match key {
        None => m,
        Some(k) => match move_delta(k) {
            None => m,
            Some(d) => player_moved(m, d.0 as int, d.1 as int),
        },
    }
}

/// A transformed position table (same entities index by index, values
/// rewritten by a system) keeps the world well formed, provided every
/// rewritten value stays on the grid.
proof fn lemma_rewritten_positions_wf(m: WorldModel, t: WorldModel)
    requires
        m.wf(),
        t.alive == m.alive,
        t.renderables == m.renderables,
        t.left_movers == m.left_movers,
        t.players == m.players,
        t.next_id == m.next_id,
        t.positions.len() == m.positions.len(),
        forall|i: int| 0 <= i < m.positions.len() ==>
            (#[trigger] t.positions[i]).0 == m.positions[i].0,
        forall|i: int| 0 <= i < t.positions.len() ==> in_grid((#[trigger] t.positions[i]).1),
    ensures
        t.wf(),
{
    assert forall|i: int, j: int|
        0 <= i < t.positions.len() && 0 <= j < t.positions.len() && i != j implies
        (#[trigger] t.positions[i]).0 != (#[trigger] t.positions[j]).0 by {
        assert(m.positions[i].0 != m.positions[j].0);
    }
    assert forall|x: Entity| #[trigger] has_key(t.positions, x) implies has_key(t.alive, x) by {
        let i = choose|i: int| 0 <= i < t.positions.len() && (#[trigger] t.positions[i]).0 == x;
        assert(m.positions[i].0 == x);
        assert(has_key(m.positions, x));
    }
}

/// Drift wrap, stated for every entity: a left-walker pass sends the
/// position of each entity holding `LeftMover` to its drifted value — one
/// step left, wrapping from the left edge to `MAX_X` — and leaves the
/// position of every other entity untouched. Membership never changes.
pub proof fn lemma_left_walked_values(m: WorldModel, e: Entity)
    requires
        m.wf(),
    ensures
        has_key(left_walked(m).positions, e) == has_key(m.positions, e),
        has_key(m.positions, e) && has_key(m.left_movers, e) ==>
            value_of(left_walked(m).positions, e) == drift(value_of(m.positions, e)),
        has_key(m.positions, e) && !has_key(m.left_movers, e) ==>
            value_of(left_walked(m).positions, e) == value_of(m.positions, e),
{
    let t = left_walked(m).positions;
    assert(forall|i: int| 0 <= i < m.positions.len() ==>
        (#[trigger] t[i]).0 == m.positions[i].0);
    assert forall|i: int, j: int|
        0 <= i < t.len() && 0 <= j < t.len() && i != j implies
        (#[trigger] t[i]).0 != (#[trigger] t[j]).0 by {
        assert(m.positions[i].0 != m.positions[j].0);
    }
    if has_key(m.positions, e) {
        let k = key_index(m.positions, e);
        lemma_key_index_unique(m.positions, e, k);
        assert(t[k].0 == e);
        lemma_key_index_unique(t, e, k);
    }
    if has_key(t, e) {
        let i = choose|i: int| 0 <= i < t.len() && (#[trigger] t[i]).0 == e;
        assert(m.positions[i].0 == e);
    }
}

/// Player clamp, stated for every entity: a movement step with delta
/// `(dx, dy)` sends the position of each entity holding `Player` to the
/// clamped value — never off the grid, never wrapping — and leaves every
/// other entity's position untouched. Membership never changes.
pub proof fn lemma_player_moved_values(m: WorldModel, dx: int, dy: int, e: Entity)
    requires
        m.wf(),
    ensures
        has_key(player_moved(m, dx, dy).positions, e) == has_key(m.positions, e),
        has_key(m.positions, e) && has_key(m.players, e) ==>
            value_of(player_moved(m, dx, dy).positions, e)
                == stepped(value_of(m.positions, e), dx, dy),
        has_key(m.positions, e) && !has_key(m.players, e) ==>
            value_of(player_moved(m, dx, dy).positions, e) == value_of(m.positions, e),
{
    let t = player_moved(m, dx, dy).positions;
    assert(forall|i: int| 0 <= i < m.positions.len() ==>
        (#[trigger] t[i]).0 == m.positions[i].0);
    assert forall|i: int, j: int|
        0 <= i < t.len() && 0 <= j < t.len() && i != j implies
        (#[trigger] t[i]).0 != (#[trigger] t[j]).0 by {
        assert(m.positions[i].0 != m.positions[j].0);
    }
    if has_key(m.positions, e) {
        let k = key_index(m.positions, e);
        lemma_key_index_unique(m.positions, e, k);
        assert(t[k].0 == e);
        lemma_key_index_unique(t, e, k);
    }
    if has_key(t, e) {
        let i = choose|i: int| 0 <= i < t.len() && (#[trigger] t[i]).0 == e;
        assert(m.positions[i].0 == e);
    }
}

/// Map a key to its movement delta, per the input table: left `(-1, 0)`,
/// right `(1, 0)`, up `(0, -1)`, down `(0, 1)`, anything else `None`.
pub fn map_move(key: InputKey) -> (r: Option<(i32, i32)>)
    ensures
        r == move_delta(key),
{
    match key {
        InputKey::Left => Some((-1, 0)),
        InputKey::Right => Some((1, 0)),
        InputKey::Up => Some((0, -1)),
        InputKey::Down => Some((0, 1)),
        InputKey::Other => None,
    }
}

impl World {
    /// The left-walker system: reads `LeftMover`, writes `Position`. For
    /// every entity with both, `x` falls by one, wrapping from the left
    /// edge to the right edge; `y` is untouched. Runs unconditionally for
    /// all qualifying entities.
    pub fn run_left_walker(&mut self)
        requires
            old(self)@.wf(),
            old(self)@.reg_left_mover,
            old(self)@.reg_position,
        ensures
            final(self)@ == left_walked(old(self)@),
            final(self)@.wf(),
    {
        let ghost m0 = self@;
        let n = self.positions.len();
        let mut i: usize = 0;
        while i < n
            invariant
                m0.wf(),
                n == m0.positions.len(),
                i <= n,
                self@.next_id == m0.next_id,
                self@.alive == m0.alive,
                self@.pending == m0.pending,
                self@.renderables == m0.renderables,
                self@.left_movers == m0.left_movers,
                self@.players == m0.players,
                self@.reg_position == m0.reg_position,
                self@.reg_renderable == m0.reg_renderable,
                self@.reg_left_mover == m0.reg_left_mover,
                self@.reg_player == m0.reg_player,
                self@.positions.len() == n,
                forall|j: int| 0 <= j < i ==>
                    #[trigger] self@.positions[j] == left_walked(m0).positions[j],
                forall|j: int| i <= j < n ==> #[trigger] self@.positions[j] == m0.positions[j],
            decreases n - i,
        {
            let (e, p) = self.positions.entry_at(i);
            if self.left_movers.contains(e) {
                proof {
                    assert(in_grid(m0.positions[i as int].1));
                }
                let mut nx = p.x - 1;
                if nx < 0 {
                    nx = MAX_X;
                }
                self.positions.set_value_at(i, Position { x: nx, y: p.y });
            }
            i = i + 1;
        }
        proof {
            assert(self@.positions =~= left_walked(m0).positions);
            assert(self@ =~= left_walked(m0));
            lemma_rewritten_positions_wf(m0, left_walked(m0));
        }
    }

    /// Player movement: reads `Player`, writes `Position`. Applies the
    /// delta to every entity with both, clamping — not wrapping — the
    /// result to the grid. Deltas come from the input table and are at
    /// most one cell per axis.
    pub fn move_player(&mut self, dx: i32, dy: i32)
        requires
            old(self)@.wf(),
            old(self)@.reg_player,
            old(self)@.reg_position,
            -1 <= dx <= 1,
            -1 <= dy <= 1,
        ensures
            final(self)@ == player_moved(old(self)@, dx as int, dy as int),
            final(self)@.wf(),
    {
        let ghost m0 = self@;
        let n = self.positions.len();
        let mut i: usize = 0;
        while i < n
            invariant
                m0.wf(),
                n == m0.positions.len(),
                i <= n,
                -1 <= dx <= 1,
                -1 <= dy <= 1,
                self@.next_id == m0.next_id,
                self@.alive == m0.alive,
                self@.pending == m0.pending,
                self@.renderables == m0.renderables,
                self@.left_movers == m0.left_movers,
                self@.players == m0.players,
                self@.reg_position == m0.reg_position,
                self@.reg_renderable == m0.reg_renderable,
                self@.reg_left_mover == m0.reg_left_mover,
                self@.reg_player == m0.reg_player,
                self@.positions.len() == n,
                forall|j: int| 0 <= j < i ==>
                    #[trigger] self@.positions[j] == player_moved(m0, dx as int, dy as int).positions[j],
                forall|j: int| i <= j < n ==> #[trigger] self@.positions[j] == m0.positions[j],
            decreases n - i,
        {
            let (e, p) = self.positions.entry_at(i);
            if self.players.contains(e) {
                proof {
                    assert(in_grid(m0.positions[i as int].1));
                }
                let mut nx = p.x + dx;
                if nx < 0 {
                    nx = 0;
                }
                if nx > MAX_X {
                    nx = MAX_X;
                }
                let mut ny = p.y + dy;
                if ny < 0 {
                    ny = 0;
                }
                if ny > MAX_Y {
                    ny = MAX_Y;
                }
                self.positions.set_value_at(i, Position { x: nx, y: ny });
            }
            i = i + 1;
        }
        proof {
            assert(self@.positions =~= player_moved(m0, dx as int, dy as int).positions);
            assert(self@ =~= player_moved(m0, dx as int, dy as int));
            lemma_rewritten_positions_wf(m0, player_moved(m0, dx as int, dy as int));
        }
    }

    /// Handle the tick's input snapshot: a recognised directional key
    /// applies its delta to the player entities; any other key, or none,
    /// invokes no system.
    pub fn player_input(&mut self, key: Option<InputKey>)
        requires
            old(self)@.wf(),
            old(self)@.reg_player,
            old(self)@.reg_position,
        ensures
            final(self)@ == input_applied(old(self)@, key),
            final(self)@.wf(),
    {
        match key {
            None => {}
            Some(k) => {
                match map_move(k) {
                    None => {}
                    Some((dx, dy)) => {
                        self.move_player(dx, dy);
                    }
                }
            }
        }
    }

    /// Run the scheduled systems of one tick in their fixed order — the
    /// left walker, then the `maintain` sync point that applies deferred
    /// destruction requests.
    pub fn run_systems(&mut self)
        requires
            old(self)@.wf(),
            old(self)@.reg_left_mover,
            old(self)@.reg_position,
        ensures
            final(self)@ == maintained(left_walked(old(self)@)),
            final(self)@.wf(),
            final(self)@.reg_position == old(self)@.reg_position,
            final(self)@.reg_renderable == old(self)@.reg_renderable,
            final(self)@.reg_left_mover == old(self)@.reg_left_mover,
            final(self)@.reg_player == old(self)@.reg_player,
    {
        self.run_left_walker();
        self.maintain();
    }

    /// One full tick: input, then the scheduled systems, then maintenance,
    /// then the render pass. Returns the tick's draw requests; the caller
    /// clears the display surface and performs them.
    pub fn tick(&mut self, key: Option<InputKey>) -> (cmds: Vec<DrawCmd>)
        requires
            old(self)@.wf(),
            old(self)@.reg_position,
            old(self)@.reg_renderable,
            old(self)@.reg_left_mover,
            old(self)@.reg_player,
        ensures
            final(self)@ == maintained(left_walked(input_applied(old(self)@, key))),
            final(self)@.wf(),
            cmds@ == render_model(final(self)@),
    {
        self.player_input(key);
        self.run_systems();
        self.render()
    }
}

} // verus!
