use ecs_core::components::{Color, DrawCmd, Entity, InputKey, Position, Renderable};
use ecs_core::systems::map_move;
use ecs_core::world::{EntityBuilder, World};

fn fresh_world() -> World {
    let mut w = World::new();
    w.register_position();
    w.register_renderable();
    w.register_left_mover();
    w.register_player();
    w
}

const WHITE: Color = Color { r: 255, g: 255, b: 255 };
const BLUE: Color = Color { r: 0, g: 0, b: 255 };
const YELLOW: Color = Color { r: 255, g: 255, b: 0 };
const VIOLET: Color = Color { r: 238, g: 130, b: 238 };

/// The reference scene: one player entity at (40, 25) and nine left-moving
/// entities at (0, 20), (7, 20), ..., (56, 20).
fn demo_world() -> (World, Entity, Vec<Entity>) {
    let mut w = fresh_world();
    let player = w.create_entity(
        EntityBuilder::new()
            .with_position(Position { x: 40, y: 25 })
            .with_renderable(Renderable { glyph: 'M' as u16, fg: BLUE, bg: WHITE })
            .with_player(),
    );
    let mut movers = Vec::new();
    for i in 0..9 {
        movers.push(w.create_entity(
            EntityBuilder::new()
                .with_position(Position { x: i * 7, y: 20 })
                .with_renderable(Renderable { glyph: 'b' as u16, fg: YELLOW, bg: VIOLET })
                .with_left_mover(),
        ));
    }
    (w, player, movers)
}

#[test]
fn fresh_identities_are_distinct() {
    let mut w = fresh_world();
    let a = w.create_entity(EntityBuilder::new());
    let b = w.create_entity(EntityBuilder::new());
    assert_ne!(a, b);
    assert!(w.is_alive(a));
    assert!(w.is_alive(b));
}

#[test]
fn join_contains_exactly_entities_with_both() {
    let mut w = fresh_world();
    let both = w.create_entity(
        EntityBuilder::new()
            .with_position(Position { x: 1, y: 2 })
            .with_renderable(Renderable { glyph: 1, fg: WHITE, bg: BLUE }),
    );
    let pos_only = w.create_entity(EntityBuilder::new().with_position(Position { x: 3, y: 4 }));
    let rend_only = w.create_entity(
        EntityBuilder::new().with_renderable(Renderable { glyph: 2, fg: WHITE, bg: BLUE }),
    );
    let neither = w.create_entity(EntityBuilder::new());
    let j = w.join_position_renderable();
    assert_eq!(j, vec![both]);
    assert!(!j.contains(&pos_only));
    assert!(!j.contains(&rend_only));
    assert!(!j.contains(&neither));
}

#[test]
fn join_membership_follows_insert_and_remove() {
    let mut w = fresh_world();
    let e = w.create_entity(EntityBuilder::new().with_position(Position { x: 5, y: 5 }));
    assert_eq!(w.join_position_renderable(), vec![]);

    w.insert_renderable(e, Renderable { glyph: 7, fg: WHITE, bg: BLUE });
    assert_eq!(w.join_position_renderable(), vec![e]);

    // A join already produced is a plain value: removing a component
    // afterwards changes only the next join call, never this one.
    let snapshot = w.join_position_renderable();
    w.remove_renderable(e);
    assert_eq!(snapshot, vec![e]);
    assert_eq!(w.join_position_renderable(), vec![]);

    w.insert_renderable(e, Renderable { glyph: 7, fg: WHITE, bg: BLUE });
    assert_eq!(w.join_position_renderable(), vec![e]);
    w.remove_position(e);
    assert_eq!(w.join_position_renderable(), vec![]);
}

#[test]
fn drift_wraps_at_left_edge() {
    let mut w = fresh_world();
    let at_edge = w.create_entity(
        EntityBuilder::new().with_position(Position { x: 0, y: 12 }).with_left_mover(),
    );
    let inside = w.create_entity(
        EntityBuilder::new().with_position(Position { x: 5, y: 12 }).with_left_mover(),
    );
    let bystander = w.create_entity(EntityBuilder::new().with_position(Position { x: 30, y: 3 }));
    w.run_left_walker();
    assert_eq!(w.get_position(at_edge), Some(Position { x: 79, y: 12 }));
    assert_eq!(w.get_position(inside), Some(Position { x: 4, y: 12 }));
    assert_eq!(w.get_position(bystander), Some(Position { x: 30, y: 3 }));
}

#[test]
fn player_movement_clamps_at_edges() {
    let mut w = fresh_world();
    let p = w.create_entity(
        EntityBuilder::new().with_position(Position { x: 0, y: 0 }).with_player(),
    );
    w.move_player(-1, 0);
    assert_eq!(w.get_position(p), Some(Position { x: 0, y: 0 }));
    w.move_player(0, -1);
    assert_eq!(w.get_position(p), Some(Position { x: 0, y: 0 }));
    for _ in 0..80 {
        w.move_player(1, 0);
    }
    assert_eq!(w.get_position(p), Some(Position { x: 79, y: 0 }));
    w.move_player(1, 0);
    assert_eq!(w.get_position(p), Some(Position { x: 79, y: 0 }));
    for _ in 0..60 {
        w.move_player(0, 1);
    }
    assert_eq!(w.get_position(p), Some(Position { x: 79, y: 49 }));
}

#[test]
fn non_directional_input_moves_nothing() {
    let mut w = fresh_world();
    let p = w.create_entity(
        EntityBuilder::new().with_position(Position { x: 10, y: 10 }).with_player(),
    );
    w.player_input(None);
    assert_eq!(w.get_position(p), Some(Position { x: 10, y: 10 }));
    w.player_input(Some(InputKey::Other));
    assert_eq!(w.get_position(p), Some(Position { x: 10, y: 10 }));
    w.player_input(Some(InputKey::Up));
    assert_eq!(w.get_position(p), Some(Position { x: 10, y: 9 }));
}

#[test]
fn map_move_matches_input_table() {
    assert_eq!(map_move(InputKey::Left), Some((-1, 0)));
    assert_eq!(map_move(InputKey::Right), Some((1, 0)));
    assert_eq!(map_move(InputKey::Up), Some((0, -1)));
    assert_eq!(map_move(InputKey::Down), Some((0, 1)));
    assert_eq!(map_move(InputKey::Other), None);
}

#[test]
fn destruction_is_deferred_to_maintain() {
    let mut w = fresh_world();
    let e = w.create_entity(
        EntityBuilder::new()
            .with_position(Position { x: 9, y: 9 })
            .with_renderable(Renderable { glyph: 3, fg: WHITE, bg: BLUE })
            .with_left_mover()
            .with_player(),
    );
    w.request_destroy(e);
    // Mid-tick the entity is still whole: joins and reads still yield it.
    assert!(w.is_alive(e));
    assert_eq!(w.join_position_renderable(), vec![e]);
    assert_eq!(w.get_position(e), Some(Position { x: 9, y: 9 }));

    w.maintain();
    // After the sync point it is gone from every storage and every join.
    assert!(!w.is_alive(e));
    assert_eq!(w.join_position_renderable(), vec![]);
    assert_eq!(w.get_position(e), None);
    assert_eq!(w.get_renderable(e), None);
    assert!(!w.has_left_mover(e));
    assert!(!w.has_player(e));
}

#[test]
fn duplicate_destroy_requests_are_harmless() {
    let mut w = fresh_world();
    let e = w.create_entity(EntityBuilder::new().with_position(Position { x: 1, y: 1 }));
    w.request_destroy(e);
    w.request_destroy(e);
    w.maintain();
    assert!(!w.is_alive(e));
    assert_eq!(w.get_position(e), None);
}

#[test]
fn destruction_spares_other_entities() {
    let mut w = fresh_world();
    let doomed = w.create_entity(
        EntityBuilder::new()
            .with_position(Position { x: 1, y: 1 })
            .with_renderable(Renderable { glyph: 1, fg: WHITE, bg: BLUE }),
    );
    let kept = w.create_entity(
        EntityBuilder::new()
            .with_position(Position { x: 2, y: 2 })
            .with_renderable(Renderable { glyph: 2, fg: WHITE, bg: BLUE }),
    );
    w.request_destroy(doomed);
    w.maintain();
    assert!(!w.is_alive(doomed));
    assert!(w.is_alive(kept));
    assert_eq!(w.get_position(kept), Some(Position { x: 2, y: 2 }));
    assert_eq!(w.join_position_renderable(), vec![kept]);
}

#[test]
fn inserting_twice_replaces_the_component() {
    let mut w = fresh_world();
    let e = w.create_entity(EntityBuilder::new().with_position(Position { x: 1, y: 1 }));
    let before = w.positions.len();
    w.insert_position(e, Position { x: 2, y: 3 });
    assert_eq!(w.positions.len(), before);
    assert_eq!(w.get_position(e), Some(Position { x: 2, y: 3 }));
}

#[test]
fn render_projects_the_join() {
    let mut w = fresh_world();
    let e = w.create_entity(
        EntityBuilder::new()
            .with_position(Position { x: 4, y: 6 })
            .with_renderable(Renderable { glyph: 64, fg: YELLOW, bg: VIOLET }),
    );
    let _invisible = w.create_entity(EntityBuilder::new().with_position(Position { x: 8, y: 8 }));
    let cmds = w.render();
    assert_eq!(
        cmds,
        vec![DrawCmd { x: 4, y: 6, glyph: 64, fg: YELLOW, bg: VIOLET }]
    );
    let _ = e;
}

#[test]
fn empty_world_renders_nothing() {
    let mut w = fresh_world();
    let cmds = w.tick(Some(InputKey::Right));
    assert!(cmds.is_empty());
}

#[test]
fn one_tick_end_to_end() {
    let (mut w, player, movers) = demo_world();
    let cmds = w.tick(Some(InputKey::Right));

    // Player moved right once; each drifter moved one left, the one at the
    // left edge wrapping to 79.
    assert_eq!(w.get_position(player), Some(Position { x: 41, y: 25 }));
    let expected_x = [79, 6, 13, 20, 27, 34, 41, 48, 55];
    for (k, e) in movers.iter().enumerate() {
        assert_eq!(w.get_position(*e), Some(Position { x: expected_x[k], y: 20 }));
    }

    // The render pass draws exactly those ten glyphs, in insertion order.
    assert_eq!(cmds.len(), 10);
    assert_eq!(
        cmds[0],
        DrawCmd { x: 41, y: 25, glyph: 'M' as u16, fg: BLUE, bg: WHITE }
    );
    for k in 0..9 {
        assert_eq!(
            cmds[k + 1],
            DrawCmd { x: expected_x[k], y: 20, glyph: 'b' as u16, fg: YELLOW, bg: VIOLET }
        );
    }
}

#[test]
fn new_entity_during_tick_joins_next_pass() {
    let mut w = fresh_world();
    let first = w.create_entity(
        EntityBuilder::new()
            .with_position(Position { x: 2, y: 2 })
            .with_renderable(Renderable { glyph: 5, fg: WHITE, bg: BLUE }),
    );
    let snapshot = w.join_position_renderable();
    let second = w.create_entity(
        EntityBuilder::new()
            .with_position(Position { x: 3, y: 3 })
            .with_renderable(Renderable { glyph: 6, fg: WHITE, bg: BLUE }),
    );
    // The join taken before the creation is a finished value.
    assert_eq!(snapshot, vec![first]);
    // The next join sees the newcomer, after the earlier entity.
    assert_eq!(w.join_position_renderable(), vec![first, second]);
}
