//! The library's laws: properties of whole operations, stated over the
//! mathematical model and proved once and for all.

use vstd::prelude::*;

use crate::geom::{Rgb, TransformOp};
use crate::model::{
    active_src, direct_pos, has_direct, lemma_remove_all_hit, local_ops, registry_get,
    registry_has, spec_draw, spec_draw_all, spec_play, spec_quad, spec_remove, spec_update, wf,
    SpecSprite,
};

verus! {

/// The children index is the exact inverse of the ordered children sequence:
/// in a well-formed node, every id in the index maps to a position holding
/// the child with that id, and every child's id is in the index, mapped to
/// the child's own position — so each id appears exactly once.
pub proof fn law_children_index(s: SpecSprite)
    requires
        wf(s),
    ensures
        forall|id: u128| #[trigger] s.index.contains_key(id) ==> s.index[id] < s.children.len()
            && s.children[s.index[id] as int].id == id,
        forall|i: int| 0 <= i < s.children.len() ==> s.index.contains_key(
            (#[trigger] s.children[i]).id,
        ) && s.index[s.children[i].id] == i,
        forall|i: int, j: int|
            0 <= i < s.children.len() && 0 <= j < s.children.len() && i != j
                ==> (#[trigger] s.children[i]).id != (#[trigger] s.children[j]).id,
{
    assert forall|i: int, j: int|
        0 <= i < s.children.len() && 0 <= j < s.children.len() && i != j implies (
    #[trigger] s.children[i]).id != (#[trigger] s.children[j]).id by {
        if s.children[i].id == s.children[j].id {
            assert(s.index[s.children[i].id] == i);
            assert(s.index[s.children[j].id] == j);
        }
    }
}

/// Removing a grandchild's id — one held by a direct child of the `j`-th
/// child, and by no earlier sibling's subtree — removes exactly that node:
/// the root keeps its index and every child but the `j`-th unchanged, the
/// `j`-th child keeps its other children in their order, and the removed
/// node is the grandchild itself.
pub proof fn law_remove_grandchild(s: SpecSprite, j: int, id: u128)
    requires
        wf(s),
        0 <= j < s.children.len(),
        !has_direct(s, id),
        has_direct(s.children[j], id),
        forall|k: int| 0 <= k < j ==> spec_remove(#[trigger] s.children[k], id).0 is None,
    ensures
        spec_remove(s, id).0 == Some(
            s.children[j].children[direct_pos(s.children[j], id)],
        ),
        spec_remove(s, id).0.unwrap().id == id,
        spec_remove(s, id).1.index == s.index,
        spec_remove(s, id).1.children.len() == s.children.len(),
        forall|k: int| 0 <= k < s.children.len() && k != j ==> spec_remove(s, id).1.children[k]
            == s.children[k],
        spec_remove(s, id).1.children[j].children == s.children[j].children.remove(
            direct_pos(s.children[j], id),
        ),
    decreases s,
{
    let cj = s.children[j];
    let p = direct_pos(cj, id);
    assert(0 <= p < cj.children.len() && cj.children[p].id == id);
    assert(spec_remove(cj, id).0 == Some(cj.children[p]));
    lemma_remove_all_hit(s.children, id, j);
}

/// A node with no active clip and no explicit source rectangle always
/// displays the full texture extent, and no amount of timer advancing
/// changes that: `update` leaves an idle node exactly as it is.
pub proof fn law_idle_draw(s: SpecSprite, dt: u64)
    requires
        s.frames is None,
        s.src_rect is None,
    ensures
        active_src(s) == s.texture.spec_full_extent(),
        spec_update(s, dt) == s,
        active_src(spec_update(s, dt)) == s.texture.spec_full_extent(),
{
}

/// Driving `update` across the last frame boundary of a clip with a
/// registered followup chains into the followup: it becomes the active
/// clip, the frame position resets to 0, and no further followup is kept.
pub proof fn law_followup_chain(s: SpecSprite, dt: u64, name: Seq<char>)
    requires
        wf(s),
        s.frames is Some,
        s.frame_idx == s.frames.unwrap().frames.len() - 1,
        s.frame_delta + dt >= s.frames.unwrap().frame_time,
        s.followup == Some(name),
        registry_has(s.frame_sets, name),
    ensures
        spec_update(s, dt).frames == Some(registry_get(s.frame_sets, name)),
        spec_update(s, dt).frame_idx == 0,
        spec_update(s, dt).followup is None,
        spec_update(s, dt).frame_delta == 0,
{
    let stepped = SpecSprite { frame_delta: 0, frame_idx: 0, ..s };
    let f = registry_get(s.frame_sets, name);
    let k = choose|k: int| 0 <= k < s.frame_sets.len() && (#[trigger] s.frame_sets[k]).0 == name;
    assert(s.frame_sets[k].1.wf());
    assert(f.frames.len() > 0);
    assert(spec_update(s, dt) == spec_play(stepped, name, None));
}

/// An invisible node submits no quads at all: its own and its whole
/// subtree's draw output is empty, under any transform and any tint.
pub proof fn law_invisible_draw(s: SpecSprite, t: Seq<TransformOp>, tint: Option<Rgb>)
    requires
        !s.visible,
    ensures
        spec_draw(s, t, tint) == Seq::<crate::geom::SpecQuad>::empty(),
{
}

/// Toggling `flipX` (or `flipY`) changes only this node's own submitted
/// quad, and only its transform: the quad's source, destination, tint,
/// opacity and texture are untouched, and every descendant's quads —
/// transforms included — are exactly those of the unflipped node.
pub proof fn law_flip_local(s: SpecSprite, t: Seq<TransformOp>, tint: Option<Rgb>, fx: bool, fy: bool)
    requires
        s.visible,
    ensures
        ({
            let s2 = SpecSprite { flip_x: fx, flip_y: fy, ..s };
            let d = spec_draw(s, t, tint);
            let d2 = spec_draw(s2, t, tint);
            &&& d2.len() == d.len() >= 1
            &&& d2.subrange(1, d2.len() as int) == d.subrange(1, d.len() as int)
            &&& d2[0].src == d[0].src
            &&& d2[0].dest == d[0].dest
            &&& d2[0].color == d[0].color
            &&& d2[0].opacity == d[0].opacity
            &&& d2[0].texture == d[0].texture
        }),
{
    let s2 = SpecSprite { flip_x: fx, flip_y: fy, ..s };
    let d = spec_draw(s, t, tint);
    let d2 = spec_draw(s2, t, tint);
    assert(active_src(s2) == active_src(s));
    assert(local_ops(s2) == local_ops(s));
    assert(s2.children == s.children);
    assert(d == seq![spec_quad(s, t, tint)] + spec_draw_all(s.children, t + local_ops(s), tint));
    assert(d2 == seq![spec_quad(s2, t, tint)] + spec_draw_all(s.children, t + local_ops(s), tint));
    assert(d2.subrange(1, d2.len() as int) =~= spec_draw_all(s.children, t + local_ops(s), tint));
    assert(d.subrange(1, d.len() as int) =~= spec_draw_all(s.children, t + local_ops(s), tint));
}

/// At the last frame of a repeating clip with no followup, crossing the
/// frame boundary wraps back to frame 0 of the same clip.
pub proof fn law_repeat_wraps(s: SpecSprite, dt: u64)
    requires
        s.frames is Some,
        s.frames.unwrap().repeat,
        s.frame_idx == s.frames.unwrap().frames.len() - 1,
        s.frame_delta + dt >= s.frames.unwrap().frame_time,
        s.followup is None,
    ensures
        spec_update(s, dt) == (SpecSprite { frame_delta: 0, frame_idx: 0, ..s }),
{
}

/// At the last frame of a non-repeating clip with no followup, crossing the
/// frame boundary freezes the clip there: only the timer resets, and every
/// later step holds the same frame.
pub proof fn law_freeze_on_last_frame(s: SpecSprite, dt: u64)
    requires
        s.frames is Some,
        !s.frames.unwrap().repeat,
        s.frames.unwrap().frames.len() >= 1,
        s.frame_idx == s.frames.unwrap().frames.len() - 1,
        s.frame_delta + dt >= s.frames.unwrap().frame_time,
        s.followup is None,
    ensures
        spec_update(s, dt) == (SpecSprite { frame_delta: 0, ..s }),
        forall|dt2: u64| #[trigger] spec_update(spec_update(s, dt), dt2).frame_idx == s.frame_idx,
{
}

} // verus!
