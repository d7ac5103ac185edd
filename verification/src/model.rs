//! The mathematical model of a scene-graph node.
//!
//! [`SpecSprite`] is the view of an executable [`crate::sprite::Sprite`]:
//! plain values throughout, children as a sequence of models, the id index
//! as a `Map`. The spec functions here define every observable operation —
//! lookup, removal, animation stepping, draw traversal — and the executable
//! code's contracts say it matches them exactly.

use vstd::prelude::*;

use crate::frameset::{SpecFrameSet, TIME_LIMIT};
use crate::geom::{Rect, Rgb, SpecQuad, Texture, TransformOp};
use crate::scalar::{milli_mul, ANCHOR_LIMIT, POS_LIMIT, SCALE_LIMIT};

verus! {

/// The model of one scene-graph node and, recursively, of its subtree.
#[verifier::ext_equal]
pub struct SpecSprite {
    pub id: u128,
    pub visible: bool,
    pub anchor_x: i64,
    pub anchor_y: i64,
    pub pos_x: i64,
    pub pos_y: i64,
    pub rotation: i64,
    pub scale_x: i64,
    pub scale_y: i64,
    pub color: Rgb,
    pub flip_x: bool,
    pub flip_y: bool,
    pub opacity: i64,
    pub children: Seq<SpecSprite>,
    pub index: Map<u128, usize>,
    pub src_rect: Option<Rect>,
    pub texture: Texture,
    pub frames: Option<SpecFrameSet>,
    pub followup: Option<Seq<char>>,
    pub frame_sets: Seq<(Seq<char>, SpecFrameSet)>,
    pub frame_idx: usize,
    pub frame_delta: u64,
}

/// The state of a freshly constructed node: visible, centered anchor, at the
/// origin, unrotated, unit scale, white and opaque, no mirroring, no
/// children, idle animation state.
pub open spec fn fresh_sprite(id: u128, texture: Texture, src_rect: Option<Rect>) -> SpecSprite {
    SpecSprite {
        id,
        visible: true,
        anchor_x: 500,
        anchor_y: 500,
        pos_x: 0,
        pos_y: 0,
        rotation: 0,
        scale_x: 1000,
        scale_y: 1000,
        color: Rgb { r: 1000, g: 1000, b: 1000 },
        flip_x: false,
        flip_y: false,
        opacity: 1000,
        children: Seq::empty(),
        index: Map::empty(),
        src_rect,
        texture,
        frames: None,
        followup: None,
        frame_sets: Seq::empty(),
        frame_idx: 0,
        frame_delta: 0,
    }
}

// ---------------------------------------------------------------------------
// Well-formedness
// ---------------------------------------------------------------------------

/// The children index is the exact inverse of the id-to-position relation of
/// the ordered children sequence.
pub open spec fn index_ok(s: SpecSprite) -> bool {
    &&& forall|id: u128| #[trigger] s.index.contains_key(id) ==> {
        &&& s.index[id] < s.children.len()
        &&& s.children[s.index[id] as int].id == id
    }
    &&& forall|i: int| 0 <= i < s.children.len() ==> {
        &&& s.index.contains_key((#[trigger] s.children[i]).id)
        &&& s.index[s.children[i].id] == i
    }
}

/// The registry holds well-formed clips under pairwise distinct names.
pub open spec fn registry_ok(fs: Seq<(Seq<char>, SpecFrameSet)>) -> bool {
    &&& forall|i: int| 0 <= i < fs.len() ==> (#[trigger] fs[i]).1.wf()
    &&& forall|i: int, j: int| 0 <= i < fs.len() && 0 <= j < fs.len() && i != j ==> fs[i].0
        != fs[j].0
}

/// The animation state points into a well-formed active clip, and the timer
/// is bounded.
pub open spec fn anim_ok(s: SpecSprite) -> bool {
    &&& match s.frames {
        Some(f) => f.wf() && s.frame_idx < f.frames.len(),
        None => true,
    }
    &&& s.frame_delta <= TIME_LIMIT
    &&& registry_ok(s.frame_sets)
}

/// The geometric fields are within the fixed-point bounds under which no
/// anchor or bounding-box computation overflows.
pub open spec fn geom_ok(s: SpecSprite) -> bool {
    &&& -ANCHOR_LIMIT <= s.anchor_x <= ANCHOR_LIMIT
    &&& -ANCHOR_LIMIT <= s.anchor_y <= ANCHOR_LIMIT
    &&& -POS_LIMIT <= s.pos_x <= POS_LIMIT
    &&& -POS_LIMIT <= s.pos_y <= POS_LIMIT
    &&& -SCALE_LIMIT <= s.scale_x <= SCALE_LIMIT
    &&& -SCALE_LIMIT <= s.scale_y <= SCALE_LIMIT
    &&& match s.src_rect {
        Some(r) => r.dims_bounded(),
        None => true,
    }
}

/// Well-formedness of one node, not counting its children.
pub open spec fn node_ok(s: SpecSprite) -> bool {
    &&& index_ok(s)
    &&& anim_ok(s)
    &&& geom_ok(s)
}

/// Well-formedness of a whole subtree.
pub open spec fn wf(s: SpecSprite) -> bool
    decreases s,
{
    &&& node_ok(s)
    &&& wf_all(s.children)
}

/// Well-formedness of every tree in a forest.
pub open spec fn wf_all(cs: Seq<SpecSprite>) -> bool
    decreases cs,
{
    cs.len() == 0 || (wf(cs[0]) && wf_all(cs.subrange(1, cs.len() as int)))
}

pub proof fn lemma_wf_all_index(cs: Seq<SpecSprite>, i: int)
    requires
        wf_all(cs),
        0 <= i < cs.len(),
    ensures
        wf(cs[i]),
    decreases cs.len(),
{
    if i > 0 {
        lemma_wf_all_index(cs.subrange(1, cs.len() as int), i - 1);
    }
}

pub proof fn lemma_wf_all_intro(cs: Seq<SpecSprite>)
    requires
        forall|i: int| 0 <= i < cs.len() ==> wf(#[trigger] cs[i]),
    ensures
        wf_all(cs),
    decreases cs.len(),
{
    if cs.len() > 0 {
        let rest = cs.subrange(1, cs.len() as int);
        assert(forall|i: int| 0 <= i < rest.len() ==> rest[i] == cs[i + 1]);
        lemma_wf_all_intro(rest);
    }
}

// ---------------------------------------------------------------------------
// Children lookup and removal
// ---------------------------------------------------------------------------

/// Whether some direct child of `s` has the given id.
pub open spec fn has_direct(s: SpecSprite, id: u128) -> bool {
    exists|i: int| 0 <= i < s.children.len() && (#[trigger] s.children[i]).id == id
}

/// The position of the direct child with the given id (unique when the index
/// invariant holds).
pub open spec fn direct_pos(s: SpecSprite, id: u128) -> int {
    choose|i: int| 0 <= i < s.children.len() && (#[trigger] s.children[i]).id == id
}

/// Two-tier depth-first lookup: a direct child on an index hit, else the
/// first hit found by recurring into the children in order.
pub open spec fn spec_find(s: SpecSprite, id: u128) -> Option<SpecSprite>
    decreases s,
{
    if has_direct(s, id) {
        Some(s.children[direct_pos(s, id)])
    } else {
        spec_find_all(s.children, id)
    }
}

/// Depth-first lookup across a forest, first hit wins.
pub open spec fn spec_find_all(cs: Seq<SpecSprite>, id: u128) -> Option<SpecSprite>
    decreases cs,
{
    if cs.len() == 0 {
        None
    } else {
        match spec_find(cs[0], id) {
            Some(c) => Some(c),
            None => spec_find_all(cs.subrange(1, cs.len() as int), id),
        }
    }
}

/// The index map after the direct child at position `pos` (registered under
/// `id`) is removed: the entry for `id` disappears and every position after
/// `pos` shifts down by one.
pub open spec fn remove_reindex(m: Map<u128, usize>, id: u128, pos: usize) -> Map<u128, usize> {
    Map::new(
        |k: u128| m.contains_key(k) && k != id,
        |k: u128| if m[k] < pos { m[k] } else { (m[k] - 1) as usize },
    )
}

/// Two-tier depth-first removal: on an index hit the direct child leaves the
/// ordered sequence and later siblings are reindexed; otherwise the children
/// are searched in order and only the one subtree that contains the id is
/// changed.
pub open spec fn spec_remove(s: SpecSprite, id: u128) -> (Option<SpecSprite>, SpecSprite)
    decreases s,
{
    if has_direct(s, id) {
        let i = direct_pos(s, id);
        (
            Some(s.children[i]),
            SpecSprite {
                children: s.children.remove(i),
                index: remove_reindex(s.index, id, i as usize),
                ..s
            },
        )
    } else {
        let r = spec_remove_all(s.children, id);
        (r.0, SpecSprite { children: r.1, ..s })
    }
}

/// Depth-first removal across a forest: the first tree that yields a hit is
/// replaced by its reduced form; all others are untouched.
pub open spec fn spec_remove_all(cs: Seq<SpecSprite>, id: u128) -> (
    Option<SpecSprite>,
    Seq<SpecSprite>,
)
    decreases cs,
{
    if cs.len() == 0 {
        (None, cs)
    } else {
        let r0 = spec_remove(cs[0], id);
        if r0.0 is Some {
            (r0.0, seq![r0.1] + cs.subrange(1, cs.len() as int))
        } else {
            let r = spec_remove_all(cs.subrange(1, cs.len() as int), id);
            (r.0, seq![cs[0]] + r.1)
        }
    }
}

/// A removal that finds nothing changes nothing.
pub proof fn lemma_remove_miss(s: SpecSprite, id: u128)
    requires
        spec_remove(s, id).0 is None,
    ensures
        spec_remove(s, id).1 == s,
    decreases s,
{
    assert(!has_direct(s, id));
    lemma_remove_all_miss(s.children, id);
}

/// A removal that finds nothing in a forest changes nothing.
pub proof fn lemma_remove_all_miss(cs: Seq<SpecSprite>, id: u128)
    requires
        spec_remove_all(cs, id).0 is None,
    ensures
        spec_remove_all(cs, id).1 == cs,
    decreases cs,
{
    if cs.len() > 0 {
        let rest = cs.subrange(1, cs.len() as int);
        assert(spec_remove(cs[0], id).0 is None);
        lemma_remove_miss(cs[0], id);
        lemma_remove_all_miss(rest, id);
        assert(seq![cs[0]] + rest =~= cs);
    }
}

/// What depth-first removal across a forest yields, given the position of
/// the first tree that contains the id.
pub proof fn lemma_remove_all_hit(cs: Seq<SpecSprite>, id: u128, i: int)
    requires
        0 <= i < cs.len(),
        forall|j: int| 0 <= j < i ==> spec_remove(#[trigger] cs[j], id).0 is None,
        spec_remove(cs[i], id).0 is Some,
    ensures
        spec_remove_all(cs, id).0 == spec_remove(cs[i], id).0,
        spec_remove_all(cs, id).1 =~= cs.update(i, spec_remove(cs[i], id).1),
    decreases cs.len(),
{
    let rest = cs.subrange(1, cs.len() as int);
    if i == 0 {
        assert(spec_remove_all(cs, id).1 =~= cs.update(0, spec_remove(cs[0], id).1));
    } else {
        assert(spec_remove(cs[0], id).0 is None);
        lemma_remove_miss(cs[0], id);
        assert(forall|j: int| 0 <= j < i - 1 ==> spec_remove(#[trigger] rest[j], id).0 is None);
        lemma_remove_all_hit(rest, id, i - 1);
        assert(seq![cs[0]] + rest.update(i - 1, spec_remove(rest[i - 1], id).1) =~= cs.update(
            i,
            spec_remove(cs[i], id).1,
        ));
    }
}

/// Removal across a forest where no tree contains the id yields no hit.
pub proof fn lemma_remove_all_none(cs: Seq<SpecSprite>, id: u128)
    requires
        forall|j: int| 0 <= j < cs.len() ==> spec_remove(#[trigger] cs[j], id).0 is None,
    ensures
        spec_remove_all(cs, id).0 is None,
        spec_remove_all(cs, id).1 =~= cs,
    decreases cs.len(),
{
    if cs.len() > 0 {
        let rest = cs.subrange(1, cs.len() as int);
        assert(forall|j: int| 0 <= j < rest.len() ==> spec_remove(#[trigger] rest[j], id).0
            is None);
        lemma_remove_all_none(rest, id);
        assert(seq![cs[0]] + rest =~= cs);
    }
}


/// Depth-first lookup across a forest, given the position of the first tree
/// that contains the id.
pub proof fn lemma_find_all_hit(cs: Seq<SpecSprite>, id: u128, i: int)
    requires
        0 <= i < cs.len(),
        forall|j: int| 0 <= j < i ==> spec_find(#[trigger] cs[j], id) is None,
        spec_find(cs[i], id) is Some,
    ensures
        spec_find_all(cs, id) == spec_find(cs[i], id),
    decreases cs.len(),
{
    if i > 0 {
        let rest = cs.subrange(1, cs.len() as int);
        assert(forall|j: int| 0 <= j < i - 1 ==> spec_find(#[trigger] rest[j], id) is None);
        lemma_find_all_hit(rest, id, i - 1);
    }
}

/// Depth-first lookup across a forest where no tree contains the id.
pub proof fn lemma_find_all_none(cs: Seq<SpecSprite>, id: u128)
    requires
        forall|j: int| 0 <= j < cs.len() ==> spec_find(#[trigger] cs[j], id) is None,
    ensures
        spec_find_all(cs, id) is None,
    decreases cs.len(),
{
    if cs.len() > 0 {
        let rest = cs.subrange(1, cs.len() as int);
        assert(forall|j: int| 0 <= j < rest.len() ==> spec_find(#[trigger] rest[j], id) is None);
        lemma_find_all_none(rest, id);
    }
}

// ---------------------------------------------------------------------------
// Subtree size
// ---------------------------------------------------------------------------

/// The number of nodes in a subtree; the termination measure of the
/// recursive traversals.
pub open spec fn size(s: SpecSprite) -> nat
    decreases s,
{
    1 + size_all(s.children)
}

/// The number of nodes in a forest.
pub open spec fn size_all(cs: Seq<SpecSprite>) -> nat
    decreases cs,
{
    if cs.len() == 0 {
        0
    } else {
        size(cs[0]) + size_all(cs.subrange(1, cs.len() as int))
    }
}

/// Every tree of a forest is at most the forest's size.
pub proof fn lemma_size_all_index(cs: Seq<SpecSprite>, i: int)
    requires
        0 <= i < cs.len(),
    ensures
        size(cs[i]) <= size_all(cs),
    decreases cs.len(),
{
    if i > 0 {
        lemma_size_all_index(cs.subrange(1, cs.len() as int), i - 1);
    }
}


/// The tree with the node that lookup would find under `id` replaced by
/// `x`: the direct child on an index hit, else the first depth-first hit.
pub open spec fn spec_replace(s: SpecSprite, id: u128, x: SpecSprite) -> SpecSprite
    decreases s,
{
    if has_direct(s, id) {
        SpecSprite { children: s.children.update(direct_pos(s, id), x), ..s }
    } else {
        SpecSprite { children: spec_replace_all(s.children, id, x), ..s }
    }
}

/// Replacement across a forest: the first tree that contains the id takes
/// the replacement; all others are untouched.
pub open spec fn spec_replace_all(cs: Seq<SpecSprite>, id: u128, x: SpecSprite) -> Seq<SpecSprite>
    decreases cs,
{
    if cs.len() == 0 {
        cs
    } else if spec_find(cs[0], id) is Some {
        seq![spec_replace(cs[0], id, x)] + cs.subrange(1, cs.len() as int)
    } else {
        seq![cs[0]] + spec_replace_all(cs.subrange(1, cs.len() as int), id, x)
    }
}

/// What replacement across a forest yields, given the position of the first
/// tree that contains the id.
pub proof fn lemma_replace_all_hit(cs: Seq<SpecSprite>, id: u128, i: int)
    requires
        0 <= i < cs.len(),
        forall|j: int| 0 <= j < i ==> spec_find(#[trigger] cs[j], id) is None,
        spec_find(cs[i], id) is Some,
    ensures
        forall|x: SpecSprite| spec_replace_all(cs, id, x) =~= cs.update(
            i,
            #[trigger] spec_replace(cs[i], id, x),
        ),
    decreases cs.len(),
{
    let rest = cs.subrange(1, cs.len() as int);
    if i == 0 {
        assert forall|x: SpecSprite| spec_replace_all(cs, id, x) =~= cs.update(
            0,
            #[trigger] spec_replace(cs[0], id, x),
        ) by {}
    } else {
        assert(spec_find(cs[0], id) is None);
        assert(forall|j: int| 0 <= j < i - 1 ==> spec_find(#[trigger] rest[j], id) is None);
        lemma_replace_all_hit(rest, id, i - 1);
        assert forall|x: SpecSprite| spec_replace_all(cs, id, x) =~= cs.update(
            i,
            #[trigger] spec_replace(cs[i], id, x),
        ) by {
            assert(spec_replace_all(rest, id, x) =~= rest.update(
                i - 1,
                spec_replace(rest[i - 1], id, x),
            ));
            assert(rest[i - 1] == cs[i]);
            assert(seq![cs[0]] + rest.update(i - 1, spec_replace(cs[i], id, x)) =~= cs.update(
                i,
                spec_replace(cs[i], id, x),
            ));
        }
    }
}


/// A found node carries the id it was found under.
pub proof fn lemma_find_id(s: SpecSprite, id: u128)
    requires
        spec_find(s, id) is Some,
    ensures
        spec_find(s, id).unwrap().id == id,
    decreases s,
{
    if !has_direct(s, id) {
        lemma_find_all_id(s.children, id);
    }
}

/// A node found in a forest carries the id it was found under.
pub proof fn lemma_find_all_id(cs: Seq<SpecSprite>, id: u128)
    requires
        spec_find_all(cs, id) is Some,
    ensures
        spec_find_all(cs, id).unwrap().id == id,
    decreases cs,
{
    if cs.len() > 0 {
        if spec_find(cs[0], id) is Some {
            lemma_find_id(cs[0], id);
        } else {
            lemma_find_all_id(cs.subrange(1, cs.len() as int), id);
        }
    }
}

/// Replacing the node found under `id` by a well-formed node with that same
/// id keeps the whole tree well-formed.
pub proof fn lemma_replace_wf(s: SpecSprite, id: u128, x: SpecSprite)
    requires
        wf(s),
        spec_find(s, id) is Some,
        wf(x),
        x.id == id,
    ensures
        wf(spec_replace(s, id, x)),
        spec_replace(s, id, x).id == s.id,
    decreases s,
{
    if has_direct(s, id) {
        let dp = direct_pos(s, id);
        let ns = spec_replace(s, id, x);
        assert(s.children[dp].id == id);
        assert(ns.children == s.children.update(dp, x));
        assert(forall|k: int| 0 <= k < ns.children.len() ==> (#[trigger] ns.children[k]).id
            == s.children[k].id);
        assert(index_ok(ns));
        assert forall|k: int| 0 <= k < ns.children.len() implies wf(#[trigger] ns.children[k]) by {
            if k != dp {
                lemma_wf_all_index(s.children, k);
            }
        }
        lemma_wf_all_intro(ns.children);
    } else {
        let ns = spec_replace(s, id, x);
        lemma_replace_all_wf(s.children, id, x);
        assert(index_ok(ns));
        lemma_wf_all_intro(ns.children);
    }
}

/// Replacement across a well-formed forest keeps it well-formed and keeps
/// every tree's root id.
pub proof fn lemma_replace_all_wf(cs: Seq<SpecSprite>, id: u128, x: SpecSprite)
    requires
        wf_all(cs),
        spec_find_all(cs, id) is Some,
        wf(x),
        x.id == id,
    ensures
        spec_replace_all(cs, id, x).len() == cs.len(),
        forall|k: int| 0 <= k < cs.len() ==> (#[trigger] spec_replace_all(cs, id, x)[k]).id
            == cs[k].id,
        forall|k: int| 0 <= k < cs.len() ==> wf(#[trigger] spec_replace_all(cs, id, x)[k]),
    decreases cs,
{
    let rest = cs.subrange(1, cs.len() as int);
    let ns = spec_replace_all(cs, id, x);
    lemma_wf_all_index(cs, 0);
    if spec_find(cs[0], id) is Some {
        lemma_replace_wf(cs[0], id, x);
        assert forall|k: int| 0 <= k < cs.len() implies (#[trigger] ns[k]).id == cs[k].id && wf(
            ns[k],
        ) by {
            if k > 0 {
                assert(ns[k] == rest[k - 1]);
                lemma_wf_all_index(cs, k);
            }
        }
    } else {
        lemma_replace_all_wf(rest, id, x);
        assert forall|k: int| 0 <= k < cs.len() implies (#[trigger] ns[k]).id == cs[k].id && wf(
            ns[k],
        ) by {
            if k > 0 {
                assert(ns[k] == spec_replace_all(rest, id, x)[k - 1]);
                assert(rest[k - 1] == cs[k]);
            }
        }
    }
}

// ---------------------------------------------------------------------------
// Animation
// ---------------------------------------------------------------------------

/// Whether the registry holds a clip under this name.
pub open spec fn registry_has(fs: Seq<(Seq<char>, SpecFrameSet)>, name: Seq<char>) -> bool {
    exists|i: int| 0 <= i < fs.len() && (#[trigger] fs[i]).0 == name
}

/// The clip registered under this name (unique when the registry is
/// well-formed).
pub open spec fn registry_get(fs: Seq<(Seq<char>, SpecFrameSet)>, name: Seq<char>) -> SpecFrameSet {
    fs[choose|i: int| 0 <= i < fs.len() && (#[trigger] fs[i]).0 == name].1
}

/// Starting a clip: a registered name becomes the active clip, keeping the
/// current frame position unless that position lies outside the new clip, in
/// which case it restarts at frame 0; an unregistered name leaves the
/// animation state alone. Either way the followup is set to the given value,
/// or cleared when none is given.
pub open spec fn spec_play(s: SpecSprite, name: Seq<char>, followup: Option<Seq<char>>) -> SpecSprite {
    let s1 = if registry_has(s.frame_sets, name) {
        let f = registry_get(s.frame_sets, name);
        let idx: usize = if s.frame_idx < f.frames.len() {
            s.frame_idx
        } else {
            0
        };
        SpecSprite { frames: Some(f), frame_idx: idx, ..s }
    } else {
        s
    };
    SpecSprite { followup, ..s1 }
}

/// Advancing the animation timer by `dt`.
///
/// Idle nodes are untouched. A playing node accumulates elapsed time; once
/// it reaches the active clip's frame duration the timer resets and the
/// frame position advances by one, or — at the last frame — restarts at 0
/// when a followup chains in or the clip repeats, and freezes otherwise.
/// A followup takes precedence over the repeat flag: the chained clip is
/// activated at frame 0 and any further followup is cleared.
pub open spec fn spec_update(s: SpecSprite, dt: u64) -> SpecSprite {
    match s.frames {
        None => s,
        Some(f) => {
            if s.frame_delta + dt >= f.frame_time {
                if s.frame_idx == f.frames.len() - 1 {
                    let restart = s.followup is Some || f.repeat;
                    let idx: usize = if restart {
                        0
                    } else {
                        s.frame_idx
                    };
                    let stepped = SpecSprite { frame_delta: 0, frame_idx: idx, ..s };
                    match s.followup {
                        Some(next) => spec_play(stepped, next, None),
                        None => stepped,
                    }
                } else {
                    SpecSprite {
                        frame_delta: 0,
                        frame_idx: (s.frame_idx + 1) as usize,
                        ..s
                    }
                }
            } else {
                SpecSprite { frame_delta: (s.frame_delta + dt) as u64, ..s }
            }
        },
    }
}

/// Registering a clip: the first registration of a name wins; later ones
/// with the same name are ignored.
pub open spec fn spec_add_frameset(
    s: SpecSprite,
    name: Seq<char>,
    f: SpecFrameSet,
) -> SpecSprite {
    if registry_has(s.frame_sets, name) {
        s
    } else {
        SpecSprite { frame_sets: s.frame_sets.push((name, f)), ..s }
    }
}

/// The frames generated by tiling `base` rightward `count` times by its own
/// width, sharing its y and size.
pub open spec fn spec_horizontal_frames(base: Rect, count: u32) -> Seq<Rect> {
    Seq::new(
        count as nat,
        |i: int| Rect { x: (i * base.w) as i64, y: base.y, w: base.w, h: base.h },
    )
}

// ---------------------------------------------------------------------------
// Draw traversal
// ---------------------------------------------------------------------------

/// The source rectangle a node displays: the current animation frame when a
/// clip is playing, else the explicit source rectangle when one is set, else
/// the full texture extent.
pub open spec fn active_src(s: SpecSprite) -> Rect {
    match s.frames {
        Some(f) => f.frames[s.frame_idx as int],
        None => match s.src_rect {
            Some(r) => r,
            None => s.texture.spec_full_extent(),
        },
    }
}

/// The anchor point in fixed-point texture units, horizontally.
pub open spec fn anchor_px_x(s: SpecSprite) -> int {
    milli_mul(s.anchor_x as int, active_src(s).w as int)
}

/// The anchor point in fixed-point texture units, vertically.
pub open spec fn anchor_px_y(s: SpecSprite) -> int {
    milli_mul(s.anchor_y as int, active_src(s).h as int)
}

/// A node's own local transform steps: translate to its position, rotate,
/// scale. This — without the mirroring — is what its children inherit.
pub open spec fn local_ops(s: SpecSprite) -> Seq<TransformOp> {
    seq![
        TransformOp::Translate { x: s.pos_x, y: s.pos_y },
        TransformOp::RotateDeg { deg: s.rotation },
        TransformOp::Scale { x: s.scale_x, y: s.scale_y },
    ]
}

/// The extra steps that mirror only this node's own quad, pivoting about the
/// anchor without altering it.
pub open spec fn flip_ops(s: SpecSprite) -> Seq<TransformOp> {
    let src = active_src(s);
    (if s.flip_x {
        seq![
            TransformOp::Translate { x: (src.w - 2 * anchor_px_x(s)) as i64, y: 0 },
            TransformOp::FlipH,
        ]
    } else {
        Seq::<TransformOp>::empty()
    }) + (if s.flip_y {
        seq![
            TransformOp::Translate { x: 0, y: (src.h - 2 * anchor_px_y(s)) as i64 },
            TransformOp::FlipV,
        ]
    } else {
        Seq::<TransformOp>::empty()
    })
}

/// The one quad a visible node submits for itself under the incoming
/// transform `t`: destination offset by the negated anchor, sized as the
/// source region, tinted by the override color when one is in force (with
/// the node's own opacity either way).
pub open spec fn spec_quad(s: SpecSprite, t: Seq<TransformOp>, tint: Option<Rgb>) -> SpecQuad {
    let src = active_src(s);
    SpecQuad {
        texture: s.texture,
        src,
        dest: Rect {
            x: (-anchor_px_x(s)) as i64,
            y: (-anchor_px_y(s)) as i64,
            w: src.w,
            h: src.h,
        },
        color: match tint {
            Some(c) => c,
            None => s.color,
        },
        opacity: s.opacity,
        transform: t + local_ops(s) + flip_ops(s),
    }
}

/// The ordered quads a draw traversal of `s` submits under the incoming
/// transform `t`: nothing when the node is invisible (its whole subtree is
/// skipped); otherwise the node's own quad followed by its children's
/// traversals in order, each under the accumulated transform without the
/// mirroring, and under the same tint override.
pub open spec fn spec_draw(s: SpecSprite, t: Seq<TransformOp>, tint: Option<Rgb>) -> Seq<SpecQuad>
    decreases s,
{
    if !s.visible {
        Seq::empty()
    } else {
        seq![spec_quad(s, t, tint)] + spec_draw_all(s.children, t + local_ops(s), tint)
    }
}

/// The quads a forest submits, in order.
pub open spec fn spec_draw_all(
    cs: Seq<SpecSprite>,
    t: Seq<TransformOp>,
    tint: Option<Rgb>,
) -> Seq<SpecQuad>
    decreases cs,
{
    if cs.len() == 0 {
        Seq::empty()
    } else {
        spec_draw(cs[0], t, tint) + spec_draw_all(cs.subrange(1, cs.len() as int), t, tint)
    }
}

/// Peeling one tree off the front of a forest's draw.
pub proof fn lemma_draw_all_take(
    cs: Seq<SpecSprite>,
    t: Seq<TransformOp>,
    tint: Option<Rgb>,
    i: int,
)
    requires
        0 <= i < cs.len(),
    ensures
        spec_draw_all(cs.subrange(0, i + 1), t, tint) =~= spec_draw_all(cs.subrange(0, i), t, tint)
            + spec_draw(cs[i], t, tint),
    decreases i,
{
    let pre1 = cs.subrange(0, i + 1);
    let pre0 = cs.subrange(0, i);
    if i == 0 {
        assert(pre1.len() == 1 && pre1[0] == cs[0]);
        assert(pre1.subrange(1, pre1.len() as int) =~= Seq::<SpecSprite>::empty());
        assert(spec_draw_all(pre1, t, tint) == spec_draw(pre1[0], t, tint) + spec_draw_all(
            pre1.subrange(1, pre1.len() as int),
            t,
            tint,
        ));
        assert(spec_draw_all(Seq::<SpecSprite>::empty(), t, tint) == Seq::<SpecQuad>::empty());
        assert(spec_draw_all(pre1, t, tint) =~= spec_draw(cs[0], t, tint));
    } else {
        let cs1 = cs.subrange(1, cs.len() as int);
        lemma_draw_all_take(cs1, t, tint, i - 1);
        assert(pre1.subrange(1, pre1.len() as int) =~= cs1.subrange(0, i));
        assert(pre0.subrange(1, pre0.len() as int) =~= cs1.subrange(0, i - 1));
        assert(cs1.subrange(0, i - 1 + 1) =~= cs1.subrange(0, i));
        assert(cs1[i - 1] == cs[i]);
        assert(spec_draw_all(pre1, t, tint) =~= spec_draw(cs[0], t, tint) + spec_draw_all(
            cs1.subrange(0, i),
            t,
            tint,
        ));
        assert(spec_draw_all(pre0, t, tint) =~= spec_draw(cs[0], t, tint) + spec_draw_all(
            cs1.subrange(0, i - 1),
            t,
            tint,
        ));
    }
}

// ---------------------------------------------------------------------------
// Bounding box
// ---------------------------------------------------------------------------

/// The node's local-space bounding box: the active source size scaled by the
/// node's scale, placed at the node's position offset by the anchor. By
/// design it ignores rotation and every parent transform.
pub open spec fn spec_bounding_box(s: SpecSprite) -> Rect {
    let src = active_src(s);
    let w = milli_mul(src.w as int, s.scale_x as int);
    let h = milli_mul(src.h as int, s.scale_y as int);
    Rect {
        x: (s.pos_x - milli_mul(s.anchor_x as int, w)) as i64,
        y: (s.pos_y - milli_mul(s.anchor_y as int, h)) as i64,
        w: w as i64,
        h: h as i64,
    }
}

} // verus!
