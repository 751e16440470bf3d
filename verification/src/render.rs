//! The render pass: a read-only join over `Position` and `Renderable`,
//! projected to draw requests for the display surface.
//!
//! No ordering between entities is promised beyond the join's insertion
//! order; when two entities occupy one cell, the later join element is
//! drawn last and wins. That is a documented non-invariant of this core,
//! not a z-order.

use vstd::prelude::*;
use crate::components::{Entity, DrawCmd};
use crate::storage::{has_key, value_of, join_keys, join, lemma_join_membership};
use crate::world::{World, WorldModel};

verus! {

/// The draw request for one entity holding both `Position` and
/// `Renderable`: its glyph and colours at its grid cell.
pub open spec fn draw_of(m: WorldModel, e: Entity) -> DrawCmd {
    let p = value_of(m.positions, e);
    let r = value_of(m.renderables, e);
    DrawCmd { x: p.x, y: p.y, glyph: r.glyph, fg: r.fg, bg: r.bg }
}

/// The tick's draw requests: one per entity of the `(Position,
/// Renderable)` join, in join order.
pub open spec fn render_model(m: WorldModel) -> Seq<DrawCmd> {
    Seq::new(
        join_keys(m.positions, m.renderables).len(),
        |i: int| draw_of(m, join_keys(m.positions, m.renderables)[i]),
    )
}

/// Every pair the render pass observes belongs to a currently live entity.
pub proof fn lemma_render_live(m: WorldModel)
    requires
        m.wf(),
    ensures
        forall|i: int| 0 <= i < join_keys(m.positions, m.renderables).len() ==>
            has_key(m.alive, #[trigger] join_keys(m.positions, m.renderables)[i]),
{
    let j = join_keys(m.positions, m.renderables);
    assert forall|i: int| 0 <= i < j.len() implies has_key(m.alive, #[trigger] j[i]) by {
        assert(j.contains(j[i]));
        lemma_join_membership(m.positions, m.renderables, j[i]);
    }
}

impl World {
    /// The render pass: for every entity holding both `Position` and
    /// `Renderable`, one draw request with its glyph, colours and cell, in
    /// join order. Reads only; the world is untouched.
    pub fn render(&self) -> (cmds: Vec<DrawCmd>)
        requires
            self@.wf(),
            self@.reg_position,
            self@.reg_renderable,
        ensures
            cmds@ == render_model(self@),
    {
        let ghost m = self@;
        let ids = join(&self.positions, &self.renderables);
        let n = ids.len();
        let mut cmds: Vec<DrawCmd> = Vec::new();
        let mut i: usize = 0;
        while i < n
            invariant
                m == self@,
                m.wf(),
                self@.reg_position,
                self@.reg_renderable,
                ids@ == join_keys(m.positions, m.renderables),
                n == ids@.len(),
                i <= n,
                cmds@.len() == i,
                forall|j: int| 0 <= j < i ==> #[trigger] cmds@[j] == draw_of(m, ids@[j]),
            decreases n - i,
        {
            let e = ids[i];
            proof {
                assert(ids@.contains(ids@[i as int]));
                lemma_join_membership(m.positions, m.renderables, e);
            }
            let p = self.positions.get(e);
            let r = self.renderables.get(e);
            match (p, r) {
                (Some(p), Some(r)) => {
                    cmds.push(DrawCmd { x: p.x, y: p.y, glyph: r.glyph, fg: r.fg, bg: r.bg });
                }
                _ => {
                    proof {
                        assert(false);
                    }
                }
            }
            i = i + 1;
        }
        proof {
            assert(cmds@ =~= render_model(m));
        }
        cmds
    }
}

} // verus!
