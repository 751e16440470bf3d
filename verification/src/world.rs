//! The `World`: sole owner of the entity registry and of one storage per
//! registered component kind, and the sole mutation surface.
//!
//! Component kinds form a closed set and must be registered before use; the
//! storage accessors demand registration in their preconditions, so a caller
//! that skips `register_*` is stopped before any tick runs. Entity
//! destruction is requested during a tick and applied only by `maintain`,
//! the single sync point, so no system observes a half-destroyed entity.

use vstd::prelude::*;
use crate::components::{Entity, Position, Renderable, LeftMover, Player, in_grid};
use crate::storage::{
    Storage, has_key, value_of, distinct_keys, inserted, removed, join_keys, join,
    lemma_inserted, lemma_removed, lemma_removed_subset, lemma_join_membership,
};

verus! {

/// Liveness mark kept by the entity registry for each live entity.
#[derive(Clone, Copy, PartialEq, Eq, Structural, Debug)]
pub struct Live {}

/// The mathematical state of a `World`: the registry (fresh-identity
/// counter, live set, pending destruction requests), one entry sequence per
/// component kind, and the registration flags.
#[verifier::ext_equal]
pub struct WorldModel {
    pub next_id: u64,
    pub alive: Seq<(Entity, Live)>,
    pub pending: Seq<Entity>,
    pub positions: Seq<(Entity, Position)>,
    pub renderables: Seq<(Entity, Renderable)>,
    pub left_movers: Seq<(Entity, LeftMover)>,
    pub players: Seq<(Entity, Player)>,
    pub reg_position: bool,
    pub reg_renderable: bool,
    pub reg_left_mover: bool,
    pub reg_player: bool,
}

impl WorldModel {
    /// Well-formedness: every storage and the live set hold at most one
    /// entry per entity, every component belongs to a live entity, every
    /// issued identity is below the fresh-identity counter, and every
    /// stored position lies on the grid.
    pub open spec fn wf(self) -> bool {
        &&& distinct_keys(self.alive)
        &&& distinct_keys(self.positions)
        &&& distinct_keys(self.renderables)
        &&& distinct_keys(self.left_movers)
        &&& distinct_keys(self.players)
        &&& forall|e: Entity| #[trigger] has_key(self.positions, e) ==> has_key(self.alive, e)
        &&& forall|e: Entity| #[trigger] has_key(self.renderables, e) ==> has_key(self.alive, e)
        &&& forall|e: Entity| #[trigger] has_key(self.left_movers, e) ==> has_key(self.alive, e)
        &&& forall|e: Entity| #[trigger] has_key(self.players, e) ==> has_key(self.alive, e)
        &&& forall|i: int| 0 <= i < self.alive.len() ==> (#[trigger] self.alive[i]).0.id < self.next_id
        &&& forall|i: int| 0 <= i < self.positions.len() ==> in_grid((#[trigger] self.positions[i]).1)
    }
}

/// The state of a freshly built world: nothing issued, nothing registered.
pub open spec fn initial_model() -> WorldModel {
    WorldModel {
        next_id: 0,
        alive: Seq::empty(),
        pending: Seq::empty(),
        positions: Seq::empty(),
        renderables: Seq::empty(),
        left_movers: Seq::empty(),
        players: Seq::empty(),
        reg_position: false,
        reg_renderable: false,
        reg_left_mover: false,
        reg_player: false,
    }
}

/// The recipe handed to `create_entity`: which components the one fresh
/// entity is to be born with.
#[derive(Clone, Copy, PartialEq, Eq, Debug)]
pub struct EntityBuilder {
    pub position: Option<Position>,
    pub renderable: Option<Renderable>,
    pub left_mover: bool,
    pub player: bool,
}

impl EntityBuilder {
    /// A recipe with no components.
    pub fn new() -> (b: Self)
        ensures
            b == (EntityBuilder {
                position: None,
                renderable: None,
                left_mover: false,
                player: false,
            }),
    {
        EntityBuilder { position: None, renderable: None, left_mover: false, player: false }
    }

    /// Add a `Position` to the recipe.
    pub fn with_position(self, p: Position) -> (b: Self)
        ensures
            b == (EntityBuilder { position: Some(p), ..self }),
    {
        EntityBuilder { position: Some(p), ..self }
    }

    /// Add a `Renderable` to the recipe.
    pub fn with_renderable(self, r: Renderable) -> (b: Self)
        ensures
            b == (EntityBuilder { renderable: Some(r), ..self }),
    {
        EntityBuilder { renderable: Some(r), ..self }
    }

    /// Add the `LeftMover` marker to the recipe.
    pub fn with_left_mover(self) -> (b: Self)
        ensures
            b == (EntityBuilder { left_mover: true, ..self }),
    {
        EntityBuilder { left_mover: true, ..self }
    }

    /// Add the `Player` marker to the recipe.
    pub fn with_player(self) -> (b: Self)
        ensures
            b == (EntityBuilder { player: true, ..self }),
    {
        EntityBuilder { player: true, ..self }
    }
}

/// The model after `create_entity(b)`: one fresh identity, marked live,
/// holding exactly the components of the recipe.
pub open spec fn created(m: WorldModel, b: EntityBuilder) -> WorldModel {
    let e = Entity { id: m.next_id };
    WorldModel {
        next_id: (m.next_id + 1) as u64,
        alive: inserted(m.alive, e, Live {}),
        positions: match b.position {
            Some(p) => inserted(m.positions, e, p),
            None => m.positions,
        },
        renderables: match b.renderable {
            Some(r) => inserted(m.renderables, e, r),
            None => m.renderables,
        },
        left_movers: if b.left_mover {
            inserted(m.left_movers, Entity { id: m.next_id }, LeftMover {})
        } else {
            m.left_movers
        },
        players: if b.player {
            inserted(m.players, Entity { id: m.next_id }, Player {})
        } else {
            m.players
        },
        ..m
    }
}

/// The model after `request_destroy(e)`: only the pending list grows; no
/// storage and no join result changes before `maintain`.
pub open spec fn destroy_requested(m: WorldModel, e: Entity) -> WorldModel {
    WorldModel { pending: m.pending.push(e), ..m }
}

/// One destruction applied: `e` leaves the live set and every storage.
pub open spec fn destroyed_one(m: WorldModel, e: Entity) -> WorldModel {
    WorldModel {
        alive: removed(m.alive, e),
        positions: removed(m.positions, e),
        renderables: removed(m.renderables, e),
        left_movers: removed(m.left_movers, e),
        players: removed(m.players, e),
        ..m
    }
}

/// The first `n` pending destruction requests applied, in request order.
pub open spec fn destroyed_prefix(m: WorldModel, n: int) -> WorldModel
    decreases n,
{
    if n <= 0 {
        m
    } else {
        destroyed_one(destroyed_prefix(m, n - 1), m.pending[n - 1])
    }
}

/// The model after `maintain`: every pending request applied, the pending
/// list emptied.
pub open spec fn maintained(m: WorldModel) -> WorldModel {
    WorldModel { pending: Seq::empty(), ..destroyed_prefix(m, m.pending.len() as int) }
}

/// Applying one destruction preserves well-formedness, and touches neither
/// the counter nor the pending list.
pub proof fn lemma_destroyed_one_wf(m: WorldModel, e: Entity)
    requires
        m.wf(),
    ensures
        destroyed_one(m, e).wf(),
        !has_key(destroyed_one(m, e).alive, e),
        !has_key(destroyed_one(m, e).positions, e),
        !has_key(destroyed_one(m, e).renderables, e),
        !has_key(destroyed_one(m, e).left_movers, e),
        !has_key(destroyed_one(m, e).players, e),
{
    lemma_removed(m.alive, e);
    lemma_removed(m.positions, e);
    lemma_removed(m.renderables, e);
    lemma_removed(m.left_movers, e);
    lemma_removed(m.players, e);
    let d = destroyed_one(m, e);
    assert forall|x: Entity| #[trigger] has_key(d.positions, x) implies has_key(d.alive, x) by {
        lemma_removed_subset(m.positions, e, x);
        assert(x != e);
    }
    assert forall|x: Entity| #[trigger] has_key(d.renderables, x) implies has_key(d.alive, x) by {
        lemma_removed_subset(m.renderables, e, x);
        assert(x != e);
    }
    assert forall|x: Entity| #[trigger] has_key(d.left_movers, x) implies has_key(d.alive, x) by {
        lemma_removed_subset(m.left_movers, e, x);
        assert(x != e);
    }
    assert forall|x: Entity| #[trigger] has_key(d.players, x) implies has_key(d.alive, x) by {
        lemma_removed_subset(m.players, e, x);
        assert(x != e);
    }
    assert forall|i: int| 0 <= i < d.alive.len() implies (#[trigger] d.alive[i]).0.id < d.next_id by {
        if has_key(m.alive, e) {
            let k = crate::storage::key_index(m.alive, e);
            let si: int = if i < k { i } else { i + 1 };
            assert(d.alive[i] == m.alive[si]);
        }
    }
    assert forall|i: int| 0 <= i < d.positions.len() implies in_grid((#[trigger] d.positions[i]).1) by {
        if has_key(m.positions, e) {
            let k = crate::storage::key_index(m.positions, e);
            let si: int = if i < k { i } else { i + 1 };
            assert(d.positions[i] == m.positions[si]);
        }
    }
}

/// Applying a prefix of the pending requests preserves well-formedness and
/// leaves counter, pending list, and registration flags as they were.
pub proof fn lemma_destroyed_prefix_wf(m: WorldModel, n: int)
    requires
        m.wf(),
        0 <= n <= m.pending.len(),
    ensures
        destroyed_prefix(m, n).wf(),
        destroyed_prefix(m, n).next_id == m.next_id,
        destroyed_prefix(m, n).pending == m.pending,
        destroyed_prefix(m, n).reg_position == m.reg_position,
        destroyed_prefix(m, n).reg_renderable == m.reg_renderable,
        destroyed_prefix(m, n).reg_left_mover == m.reg_left_mover,
        destroyed_prefix(m, n).reg_player == m.reg_player,
    decreases n,
{
    if n > 0 {
        lemma_destroyed_prefix_wf(m, n - 1);
        lemma_destroyed_one_wf(destroyed_prefix(m, n - 1), m.pending[n - 1]);
    }
}

/// Once an entity stands among the first `n` pending requests, applying
/// that prefix leaves it in no storage and not live: later removals never
/// bring an entry back.
pub proof fn lemma_destroyed_prefix_absent(m: WorldModel, n: int, e: Entity)
    requires
        m.wf(),
        0 <= n <= m.pending.len(),
        exists|k: int| 0 <= k < n && m.pending[k] == e,
    ensures
        !has_key(destroyed_prefix(m, n).alive, e),
        !has_key(destroyed_prefix(m, n).positions, e),
        !has_key(destroyed_prefix(m, n).renderables, e),
        !has_key(destroyed_prefix(m, n).left_movers, e),
        !has_key(destroyed_prefix(m, n).players, e),
    decreases n,
{
    let k = choose|k: int| 0 <= k < n && m.pending[k] == e;
    let prev = destroyed_prefix(m, n - 1);
    let d = destroyed_prefix(m, n);
    lemma_destroyed_prefix_wf(m, n - 1);
    if m.pending[n - 1] == e {
        lemma_destroyed_one_wf(prev, e);
    } else {
        assert(k < n - 1);
        lemma_destroyed_prefix_absent(m, n - 1, e);
        if has_key(d.alive, e) {
            lemma_removed_subset(prev.alive, m.pending[n - 1], e);
        }
        if has_key(d.positions, e) {
            lemma_removed_subset(prev.positions, m.pending[n - 1], e);
        }
        if has_key(d.renderables, e) {
            lemma_removed_subset(prev.renderables, m.pending[n - 1], e);
        }
        if has_key(d.left_movers, e) {
            lemma_removed_subset(prev.left_movers, m.pending[n - 1], e);
        }
        if has_key(d.players, e) {
            lemma_removed_subset(prev.players, m.pending[n - 1], e);
        }
    }
}

/// Destruction deferral: requesting destruction of `e` changes no storage
/// and no join result — a join taken before `maintain` still yields `e` —
/// while after `maintain` the entity is live no more, stands in no storage,
/// and appears in no subsequent join.
pub proof fn lemma_destruction_deferred(m: WorldModel, e: Entity)
    requires
        m.wf(),
    ensures
        destroy_requested(m, e).positions == m.positions,
        destroy_requested(m, e).renderables == m.renderables,
        destroy_requested(m, e).left_movers == m.left_movers,
        destroy_requested(m, e).players == m.players,
        destroy_requested(m, e).alive == m.alive,
        join_keys(destroy_requested(m, e).positions, destroy_requested(m, e).renderables)
            == join_keys(m.positions, m.renderables),
        !has_key(maintained(destroy_requested(m, e)).alive, e),
        !has_key(maintained(destroy_requested(m, e)).positions, e),
        !has_key(maintained(destroy_requested(m, e)).renderables, e),
        !has_key(maintained(destroy_requested(m, e)).left_movers, e),
        !has_key(maintained(destroy_requested(m, e)).players, e),
        !join_keys(
            maintained(destroy_requested(m, e)).positions,
            maintained(destroy_requested(m, e)).renderables,
        ).contains(e),
{
    let m1 = destroy_requested(m, e);
    assert(m1.wf());
    let n = m1.pending.len() as int;
    assert(m1.pending[n - 1] == e);
    lemma_destroyed_prefix_absent(m1, n, e);
    let m2 = maintained(m1);
    lemma_join_membership(m2.positions, m2.renderables, e);
}

/// Inserting a component for a live entity keeps every component owner
/// live.
proof fn lemma_subset_inserted<K>(
    s: Seq<(Entity, K)>,
    alive: Seq<(Entity, Live)>,
    e: Entity,
    v: K,
)
    requires
        distinct_keys(s),
        forall|x: Entity| #[trigger] has_key(s, x) ==> has_key(alive, x),
        has_key(alive, e),
    ensures
        forall|x: Entity| #[trigger] has_key(inserted(s, e, v), x) ==> has_key(alive, x),
{
    lemma_inserted(s, e, v);
}

/// Position entries stay on the grid when one on-grid entry is inserted.
proof fn lemma_in_grid_inserted(s: Seq<(Entity, Position)>, e: Entity, p: Position)
    requires
        distinct_keys(s),
        forall|i: int| 0 <= i < s.len() ==> in_grid((#[trigger] s[i]).1),
        in_grid(p),
    ensures
        forall|i: int| 0 <= i < inserted(s, e, p).len() ==> in_grid((#[trigger] inserted(s, e, p)[i]).1),
{
    let t = inserted(s, e, p);
    assert forall|i: int| 0 <= i < t.len() implies in_grid((#[trigger] t[i]).1) by {
        if has_key(s, e) {
            let k = crate::storage::key_index(s, e);
            if i != k {
                assert(t[i] == s[i]);
            }
        } else {
            if i < s.len() {
                assert(t[i] == s[i]);
            }
        }
    }
}

/// Position entries stay on the grid when one entry is removed.
proof fn lemma_in_grid_removed(s: Seq<(Entity, Position)>, e: Entity)
    requires
        forall|i: int| 0 <= i < s.len() ==> in_grid((#[trigger] s[i]).1),
    ensures
        forall|i: int| 0 <= i < removed(s, e).len() ==> in_grid((#[trigger] removed(s, e)[i]).1),
{
    let t = removed(s, e);
    assert forall|i: int| 0 <= i < t.len() implies in_grid((#[trigger] t[i]).1) by {
        if has_key(s, e) {
            let k = crate::storage::key_index(s, e);
            let si: int = if i < k { i } else { i + 1 };
            assert(t[i] == s[si]);
        }
    }
}

/// The world: entity registry plus one storage per component kind.
pub struct World {
    pub next_id: u64,
    pub alive: Storage<Live>,
    pub pending: Vec<Entity>,
    pub positions: Storage<Position>,
    pub renderables: Storage<Renderable>,
    pub left_movers: Storage<LeftMover>,
    pub players: Storage<Player>,
    pub reg_position: bool,
    pub reg_renderable: bool,
    pub reg_left_mover: bool,
    pub reg_player: bool,
}

impl View for World {
    type V = WorldModel;

    open spec fn view(&self) -> WorldModel {
        WorldModel {
            next_id: self.next_id,
            alive: self.alive@,
            pending: self.pending@,
            positions: self.positions@,
            renderables: self.renderables@,
            left_movers: self.left_movers@,
            players: self.players@,
            reg_position: self.reg_position,
            reg_renderable: self.reg_renderable,
            reg_left_mover: self.reg_left_mover,
            reg_player: self.reg_player,
        }
    }
}

impl World {
    /// An empty world with no component kind registered yet.
    pub fn new() -> (w: World)
        ensures
            w@ == initial_model(),
            w@.wf(),
    {
        let w = World {
            next_id: 0,
            alive: Storage::new(),
            pending: Vec::new(),
            positions: Storage::new(),
            renderables: Storage::new(),
            left_movers: Storage::new(),
            players: Storage::new(),
            reg_position: false,
            reg_renderable: false,
            reg_left_mover: false,
            reg_player: false,
        };
        proof {
            assert(w@.pending =~= Seq::<Entity>::empty());
            assert(w@ =~= initial_model());
        }
        w
    }

    /// Register the `Position` component kind; required before any accessor
    /// for that kind may be called.
    pub fn register_position(&mut self)
        ensures
            final(self)@ == (WorldModel { reg_position: true, ..old(self)@ }),
    {
        self.reg_position = true;
    }

    /// Register the `Renderable` component kind.
    pub fn register_renderable(&mut self)
        ensures
            final(self)@ == (WorldModel { reg_renderable: true, ..old(self)@ }),
    {
        self.reg_renderable = true;
    }

    /// Register the `LeftMover` component kind.
    pub fn register_left_mover(&mut self)
        ensures
            final(self)@ == (WorldModel { reg_left_mover: true, ..old(self)@ }),
    {
        self.reg_left_mover = true;
    }

    /// Register the `Player` component kind.
    pub fn register_player(&mut self)
        ensures
            final(self)@ == (WorldModel { reg_player: true, ..old(self)@ }),
    {
        self.reg_player = true;
    }

    /// Whether the entity is currently live.
    pub fn is_alive(&self, e: Entity) -> (r: bool)
        ensures
            r == has_key(self@.alive, e),
    {
        self.alive.contains(e)
    }

    /// Allocate one fresh, never-before-issued identity and atomically
    /// install every component of the recipe on it. Each kind the recipe
    /// supplies must have been registered.
    pub fn create_entity(&mut self, b: EntityBuilder) -> (e: Entity)
        requires
            old(self)@.wf(),
            old(self)@.next_id < u64::MAX,
            b.position is Some ==> old(self)@.reg_position,
            b.renderable is Some ==> old(self)@.reg_renderable,
            b.left_mover ==> old(self)@.reg_left_mover,
            b.player ==> old(self)@.reg_player,
            match b.position {
                Some(p) => in_grid(p),
                None => true,
            },
        ensures
            e == (Entity { id: old(self)@.next_id }),
            final(self)@ == created(old(self)@, b),
            final(self)@.wf(),
            has_key(final(self)@.alive, e),
            match b.position {
                Some(p) => has_key(final(self)@.positions, e)
                    && value_of(final(self)@.positions, e) == p,
                None => !has_key(final(self)@.positions, e),
            },
            match b.renderable {
                Some(r) => has_key(final(self)@.renderables, e)
                    && value_of(final(self)@.renderables, e) == r,
                None => !has_key(final(self)@.renderables, e),
            },
            has_key(final(self)@.left_movers, e) == b.left_mover,
            has_key(final(self)@.players, e) == b.player,
    {
        let ghost m0 = self@;
        let e = Entity { id: self.next_id };
        proof {
            assert(!has_key(m0.alive, e));
            if has_key(m0.positions, e) {
                assert(has_key(m0.alive, e));
            }
            assert(!has_key(m0.positions, e));
            assert(!has_key(m0.renderables, e));
            assert(!has_key(m0.left_movers, e));
            assert(!has_key(m0.players, e));
            lemma_inserted(m0.alive, e, Live {});
        }
        self.next_id = self.next_id + 1;
        self.alive.insert(e, Live {});
        match b.position {
            Some(p) => { self.positions.insert(e, p); }
            None => {}
        }
        match b.renderable {
            Some(r) => { self.renderables.insert(e, r); }
            None => {}
        }
        if b.left_mover {
            self.left_movers.insert(e, LeftMover {});
        }
        if b.player {
            self.players.insert(e, Player {});
        }
        proof {
            let t = created(m0, b);
            assert(self@ =~= t);
            match b.position {
                Some(p) => lemma_inserted(m0.positions, e, p),
                None => (),
            }
            match b.renderable {
                Some(r) => lemma_inserted(m0.renderables, e, r),
                None => (),
            }
            if b.left_mover {
                lemma_inserted(m0.left_movers, e, LeftMover {});
            }
            if b.player {
                lemma_inserted(m0.players, e, Player {});
            }
            assert(t.wf()) by {
                assert(distinct_keys(t.alive));
                assert forall|x: Entity| #[trigger] has_key(t.positions, x) implies
                    has_key(t.alive, x) by {
                    if x != e && has_key(t.positions, x) {
                        assert(has_key(m0.positions, x));
                    }
                }
                assert forall|x: Entity| #[trigger] has_key(t.renderables, x) implies
                    has_key(t.alive, x) by {
                    if x != e && has_key(t.renderables, x) {
                        assert(has_key(m0.renderables, x));
                    }
                }
                assert forall|x: Entity| #[trigger] has_key(t.left_movers, x) implies
                    has_key(t.alive, x) by {
                    if x != e && has_key(t.left_movers, x) {
                        assert(has_key(m0.left_movers, x));
                    }
                }
                assert forall|x: Entity| #[trigger] has_key(t.players, x) implies
                    has_key(t.alive, x) by {
                    if x != e && has_key(t.players, x) {
                        assert(has_key(m0.players, x));
                    }
                }
                assert forall|i: int| 0 <= i < t.alive.len() implies
                    (#[trigger] t.alive[i]).0.id < t.next_id by {
                    assert(t.alive == m0.alive.push((e, Live {})));
                    if i < m0.alive.len() {
                        assert(t.alive[i] == m0.alive[i]);
                    }
                }
                match b.position {
                    Some(p) => {
                        lemma_in_grid_inserted(m0.positions, e, p);
                    }
                    None => {}
                }
            }
        }
        e
    }

    /// Mark the entity for destruction without invalidating it mid-tick:
    /// no storage changes until `maintain` applies the request.
    pub fn request_destroy(&mut self, e: Entity)
        ensures
            final(self)@ == destroy_requested(old(self)@, e),
            old(self)@.wf() ==> final(self)@.wf(),
    {
        self.pending.push(e);
        proof {
            assert(final(self)@ =~= destroy_requested(old(self)@, e));
        }
    }

    /// The single sync point: apply every pending destruction request, in
    /// request order, removing each marked entity from the live set and
    /// from every storage, then empty the pending list.
    pub fn maintain(&mut self)
        requires
            old(self)@.wf(),
        ensures
            final(self)@ == maintained(old(self)@),
            final(self)@.wf(),
            final(self)@.reg_position == old(self)@.reg_position,
            final(self)@.reg_renderable == old(self)@.reg_renderable,
            final(self)@.reg_left_mover == old(self)@.reg_left_mover,
            final(self)@.reg_player == old(self)@.reg_player,
    {
        let ghost m0 = self@;
        let n = self.pending.len();
        let mut i: usize = 0;
        while i < n
            invariant
                m0.wf(),
                n == m0.pending.len(),
                i <= n,
                self@ == destroyed_prefix(m0, i as int),
            decreases n - i,
        {
            proof {
                lemma_destroyed_prefix_wf(m0, i as int);
            }
            let e = self.pending[i];
            self.alive.remove(e);
            self.positions.remove(e);
            self.renderables.remove(e);
            self.left_movers.remove(e);
            self.players.remove(e);
            proof {
                assert(self@ =~= destroyed_prefix(m0, i + 1));
            }
            i = i + 1;
        }
        self.pending.clear();
        proof {
            lemma_destroyed_prefix_wf(m0, n as int);
            assert(self@ =~= maintained(m0));
        }
    }

    /// Attach (or overwrite) the live entity's `Position`.
    pub fn insert_position(&mut self, e: Entity, p: Position)
        requires
            old(self)@.wf(),
            old(self)@.reg_position,
            has_key(old(self)@.alive, e),
            in_grid(p),
        ensures
            final(self)@ == (WorldModel { positions: inserted(old(self)@.positions, e, p), ..old(self)@ }),
            final(self)@.wf(),
    {
        proof {
            lemma_inserted(old(self)@.positions, e, p);
            lemma_subset_inserted(old(self)@.positions, old(self)@.alive, e, p);
            lemma_in_grid_inserted(old(self)@.positions, e, p);
        }
        self.positions.insert(e, p);
        proof {
            assert(self@ =~= (WorldModel { positions: inserted(old(self)@.positions, e, p), ..old(self)@ }));
        }
    }

    /// Attach (or overwrite) the live entity's `Renderable`.
    pub fn insert_renderable(&mut self, e: Entity, r: Renderable)
        requires
            old(self)@.wf(),
            old(self)@.reg_renderable,
            has_key(old(self)@.alive, e),
        ensures
            final(self)@ == (WorldModel { renderables: inserted(old(self)@.renderables, e, r), ..old(self)@ }),
            final(self)@.wf(),
    {
        proof {
            lemma_inserted(old(self)@.renderables, e, r);
            lemma_subset_inserted(old(self)@.renderables, old(self)@.alive, e, r);
        }
        self.renderables.insert(e, r);
        proof {
            assert(self@ =~= (WorldModel { renderables: inserted(old(self)@.renderables, e, r), ..old(self)@ }));
        }
    }

    /// Attach the `LeftMover` marker to the live entity.
    pub fn insert_left_mover(&mut self, e: Entity)
        requires
            old(self)@.wf(),
            old(self)@.reg_left_mover,
            has_key(old(self)@.alive, e),
        ensures
            final(self)@ == (WorldModel { left_movers: inserted(old(self)@.left_movers, e, LeftMover {}), ..old(self)@ }),
            final(self)@.wf(),
    {
        proof {
            lemma_inserted(old(self)@.left_movers, e, LeftMover {});
            lemma_subset_inserted(old(self)@.left_movers, old(self)@.alive, e, LeftMover {});
        }
        self.left_movers.insert(e, LeftMover {});
        proof {
            assert(self@ =~= (WorldModel { left_movers: inserted(old(self)@.left_movers, e, LeftMover {}), ..old(self)@ }));
        }
    }

    /// Attach the `Player` marker to the live entity.
    pub fn insert_player(&mut self, e: Entity)
        requires
            old(self)@.wf(),
            old(self)@.reg_player,
            has_key(old(self)@.alive, e),
        ensures
            final(self)@ == (WorldModel { players: inserted(old(self)@.players, e, Player {}), ..old(self)@ }),
            final(self)@.wf(),
    {
        proof {
            lemma_inserted(old(self)@.players, e, Player {});
            lemma_subset_inserted(old(self)@.players, old(self)@.alive, e, Player {});
        }
        self.players.insert(e, Player {});
        proof {
            assert(self@ =~= (WorldModel { players: inserted(old(self)@.players, e, Player {}), ..old(self)@ }));
        }
    }

    /// Read the entity's `Position`, if it holds one. A missing component
    /// is not an error: the entity simply lacks the kind.
    pub fn get_position(&self, e: Entity) -> (r: Option<Position>)
        requires
            self@.wf(),
            self@.reg_position,
        ensures
            match r {
                Some(p) => has_key(self@.positions, e) && p == value_of(self@.positions, e),
                None => !has_key(self@.positions, e),
            },
    {
        self.positions.get(e)
    }

    /// Read the entity's `Renderable`, if it holds one.
    pub fn get_renderable(&self, e: Entity) -> (r: Option<Renderable>)
        requires
            self@.wf(),
            self@.reg_renderable,
        ensures
            match r {
                Some(v) => has_key(self@.renderables, e) && v == value_of(self@.renderables, e),
                None => !has_key(self@.renderables, e),
            },
    {
        self.renderables.get(e)
    }

    /// Whether the entity holds the `LeftMover` marker.
    pub fn has_left_mover(&self, e: Entity) -> (r: bool)
        requires
            self@.reg_left_mover,
        ensures
            r == has_key(self@.left_movers, e),
    {
        self.left_movers.contains(e)
    }

    /// Whether the entity holds the `Player` marker.
    pub fn has_player(&self, e: Entity) -> (r: bool)
        requires
            self@.reg_player,
        ensures
            r == has_key(self@.players, e),
    {
        self.players.contains(e)
    }

    /// Detach the entity's `Position`, if any.
    pub fn remove_position(&mut self, e: Entity)
        requires
            old(self)@.wf(),
            old(self)@.reg_position,
        ensures
            final(self)@ == (WorldModel { positions: removed(old(self)@.positions, e), ..old(self)@ }),
            final(self)@.wf(),
    {
        proof {
            lemma_removed(old(self)@.positions, e);
            lemma_in_grid_removed(old(self)@.positions, e);
            assert forall|x: Entity| #[trigger] has_key(removed(old(self)@.positions, e), x) implies
                has_key(old(self)@.alive, x) by {
                lemma_removed_subset(old(self)@.positions, e, x);
            }
        }
        self.positions.remove(e);
        proof {
            assert(self@ =~= (WorldModel { positions: removed(old(self)@.positions, e), ..old(self)@ }));
        }
    }

    /// Detach the entity's `Renderable`, if any.
    pub fn remove_renderable(&mut self, e: Entity)
        requires
            old(self)@.wf(),
            old(self)@.reg_renderable,
        ensures
            final(self)@ == (WorldModel { renderables: removed(old(self)@.renderables, e), ..old(self)@ }),
            final(self)@.wf(),
    {
        proof {
            lemma_removed(old(self)@.renderables, e);
            assert forall|x: Entity| #[trigger] has_key(removed(old(self)@.renderables, e), x) implies
                has_key(old(self)@.alive, x) by {
                lemma_removed_subset(old(self)@.renderables, e, x);
            }
        }
        self.renderables.remove(e);
        proof {
            assert(self@ =~= (WorldModel { renderables: removed(old(self)@.renderables, e), ..old(self)@ }));
        }
    }

    /// The `(Position, Renderable)` join: exactly the entities holding
    /// both kinds, in the position storage's insertion order, materialised
    /// at the call — later storage changes never alter a result already
    /// produced.
    pub fn join_position_renderable(&self) -> (r: Vec<Entity>)
        requires
            self@.reg_position,
            self@.reg_renderable,
        ensures
            r@ == join_keys(self@.positions, self@.renderables),
    {
        join(&self.positions, &self.renderables)
    }
}

} // verus!
