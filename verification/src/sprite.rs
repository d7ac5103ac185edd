//! The scene-graph node itself.

use std::collections::HashMap;

use vstd::prelude::*;

use crate::frameset::{FrameSet, SpecFrameSet, TIME_LIMIT};
use crate::geom::{quad_views, Quad, Rect, Rgb, Texture, Transform, TransformOp};
use crate::ids::fresh_id;
use crate::model::{
    active_src, anchor_px_x, anchor_px_y, direct_pos, fresh_sprite, has_direct, index_ok,
    lemma_draw_all_take, lemma_find_all_hit, lemma_find_all_none, lemma_remove_all_hit,
    lemma_remove_all_none, lemma_remove_miss, lemma_size_all_index, lemma_wf_all_index,
    lemma_wf_all_intro, local_ops, registry_get, registry_has, registry_ok, remove_reindex,
    lemma_find_id, lemma_replace_all_hit, lemma_replace_wf, size, size_all, spec_add_frameset,
    spec_bounding_box, spec_draw, spec_draw_all, spec_find, spec_horizontal_frames, spec_play, spec_quad, spec_remove,
    spec_remove_all, spec_replace, spec_update, wf, SpecSprite,
};
use crate::scalar::{ANCHOR_LIMIT, DIM_LIMIT, POS_LIMIT, SCALE_LIMIT};

verus! {

broadcast use vstd::std_specs::hash::group_hash_axioms;

/// A sprite: a texture region with a local transform, tint and animation
/// state, owning an ordered list of child sprites plus an id index over
/// them.
pub struct Sprite {
    id: u128,
    visible: bool,
    anchor_x: i64,
    anchor_y: i64,
    pos_x: i64,
    pos_y: i64,
    rotation: i64,
    scale_x: i64,
    scale_y: i64,
    color: Rgb,
    flip_x: bool,
    flip_y: bool,
    opacity: i64,
    children: Vec<Sprite>,
    children_index: HashMap<u128, usize>,
    src_rect: Option<Rect>,
    texture: Texture,
    frames: Option<FrameSet>,
    frames_followup: Option<String>,
    frame_sets: Vec<(String, FrameSet)>,
    frame_idx: usize,
    frame_delta: u64,
}

/// The model of an executable sprite.
pub closed spec fn model(s: Sprite) -> SpecSprite
    decreases s,
{
    SpecSprite {
        id: s.id,
        visible: s.visible,
        anchor_x: s.anchor_x,
        anchor_y: s.anchor_y,
        pos_x: s.pos_x,
        pos_y: s.pos_y,
        rotation: s.rotation,
        scale_x: s.scale_x,
        scale_y: s.scale_y,
        color: s.color,
        flip_x: s.flip_x,
        flip_y: s.flip_y,
        opacity: s.opacity,
        children: models_of(s.children@),
        index: s.children_index@,
        src_rect: s.src_rect,
        texture: s.texture,
        frames: match s.frames {
            Some(f) => Some(f@),
            None => None,
        },
        followup: match s.frames_followup {
            Some(n) => Some(n@),
            None => None,
        },
        frame_sets: registry_of(s.frame_sets@),
        frame_idx: s.frame_idx,
        frame_delta: s.frame_delta,
    }
}

/// The models of a sequence of executable sprites, in order.
pub closed spec fn models_of(cs: Seq<Sprite>) -> Seq<SpecSprite>
    decreases cs,
{
    if cs.len() == 0 {
        Seq::empty()
    } else {
        seq![model(cs[0])] + models_of(cs.subrange(1, cs.len() as int))
    }
}

/// The model of the clip registry.
pub closed spec fn registry_of(fs: Seq<(String, FrameSet)>) -> Seq<
    (Seq<char>, crate::frameset::SpecFrameSet),
> {
    Seq::new(fs.len(), |i: int| (fs[i].0@, fs[i].1@))
}

impl View for Sprite {
    type V = SpecSprite;

    closed spec fn view(&self) -> SpecSprite {
        model(*self)
    }
}

/// `models_of` is the elementwise model.
pub proof fn lemma_models_of(cs: Seq<Sprite>)
    ensures
        models_of(cs).len() == cs.len(),
        forall|i: int| 0 <= i < cs.len() ==> models_of(cs)[i] == model(#[trigger] cs[i]),
    decreases cs.len(),
{
    if cs.len() > 0 {
        let rest = cs.subrange(1, cs.len() as int);
        lemma_models_of(rest);
        assert(forall|i: int| 0 <= i < rest.len() ==> rest[i] == cs[i + 1]);
        assert(models_of(cs) == seq![model(cs[0])] + models_of(rest));
        assert forall|i: int| 0 <= i < cs.len() implies models_of(cs)[i] == model(cs[i]) by {
            if i > 0 {
                assert(models_of(cs)[i] == (seq![model(cs[0])] + models_of(rest))[i]);
                assert((seq![model(cs[0])] + models_of(rest))[i] == models_of(rest)[i - 1]);
                assert(models_of(rest)[i - 1] == model(rest[i - 1]));
                assert(rest[i - 1] == cs[i]);
            } else {
                assert(models_of(cs)[0] == (seq![model(cs[0])] + models_of(rest))[0]);
                assert((seq![model(cs[0])] + models_of(rest))[0] == model(cs[0]));
            }
        }
    }
}

/// The models of a sequence with one sprite appended.
pub proof fn lemma_models_of_push(cs: Seq<Sprite>, x: Sprite)
    ensures
        models_of(cs.push(x)) =~= models_of(cs).push(model(x)),
{
    let n = cs.push(x);
    lemma_models_of(cs);
    lemma_models_of(n);
    assert forall|i: int| 0 <= i < n.len() implies models_of(n)[i] == models_of(cs).push(
        model(x),
    )[i] by {
        assert(models_of(n)[i] == model(n[i]));
        if i < cs.len() {
            assert(n[i] == cs[i]);
            assert(models_of(cs)[i] == model(cs[i]));
        } else {
            assert(n[i] == x);
        }
    }
}

} // verus!

verus! {

impl Sprite {
    /// The subtree rooted here is well-formed: every node's children index
    /// is the exact inverse of its children sequence, every animation state
    /// points into its active clip, and every geometric field is within the
    /// fixed-point bounds. Constructors establish it; every method preserves
    /// it.
    pub open spec fn inv(&self) -> bool {
        wf(self@)
    }

    /// Create a sprite displaying the full extent of a texture.
    ///
    /// The new node is visible, anchored at its center, at the origin,
    /// unrotated, at unit scale, white and opaque, with no children and no
    /// animation state. Its id comes from the identifier generator.
    pub fn from_texture(texture: Texture) -> (r: Sprite)
        ensures
            r.inv(),
            r@ == fresh_sprite(r@.id, texture, None),
    {
        Sprite::fresh(texture, None)
    }

    /// Create a sprite displaying a rectangular selection of a texture.
    pub fn from_texture_rect(texture: Texture, src_rect: Rect) -> (r: Sprite)
        requires
            src_rect.dims_bounded(),
        ensures
            r.inv(),
            r@ == fresh_sprite(r@.id, texture, Some(src_rect)),
    {
        Sprite::fresh(texture, Some(src_rect))
    }

    fn fresh(texture: Texture, src_rect: Option<Rect>) -> (r: Sprite)
        requires
            match src_rect {
                Some(rect) => rect.dims_bounded(),
                None => true,
            },
        ensures
            r.inv(),
            r@ == fresh_sprite(r@.id, texture, src_rect),
    {
        let r = Sprite {
            id: fresh_id(),
            visible: true,
            anchor_x: 500,
            anchor_y: 500,
            pos_x: 0,
            pos_y: 0,
            rotation: 0,
            scale_x: 1000,
            scale_y: 1000,
            color: Rgb { r: 1000, g: 1000, b: 1000 },
            flip_x: false,
            flip_y: false,
            opacity: 1000,
            children: Vec::new(),
            children_index: HashMap::new(),
            src_rect,
            texture,
            frames: None,
            frames_followup: None,
            frame_sets: Vec::new(),
            frame_idx: 0,
            frame_delta: 0,
        };
        proof {
            assert(r@ =~= fresh_sprite(r@.id, texture, src_rect));
            assert(registry_ok(r@.frame_sets));
        }
        r
    }

    /// The sprite's id, assigned at construction and immutable.
    pub fn id(&self) -> (r: u128)
        ensures
            r == self@.id,
    {
        self.id
    }

    /// Whether the sprite is visible.
    pub fn get_visible(&self) -> (r: bool)
        ensures
            r == self@.visible,
    {
        self.visible
    }

    /// Set the sprite's visibility. An invisible sprite and its entire
    /// subtree are skipped during draw traversal.
    pub fn set_visible(&mut self, visible: bool)
        requires
            old(self).inv(),
        ensures
            final(self).inv(),
            final(self)@ == (SpecSprite { visible, ..old(self)@ }),
    {
        self.visible = visible;
        proof {
            assert(final(self)@ =~= (SpecSprite { visible, ..old(self)@ }));
        }
    }

    /// The sprite's anchor point, normalized: `(500, 500)` is the center of
    /// the displayed region.
    pub fn get_anchor(&self) -> (r: (i64, i64))
        ensures
            r == (self@.anchor_x, self@.anchor_y),
    {
        (self.anchor_x, self.anchor_y)
    }

    /// Set the sprite's anchor point.
    pub fn set_anchor(&mut self, x: i64, y: i64)
        requires
            old(self).inv(),
            -ANCHOR_LIMIT <= x <= ANCHOR_LIMIT,
            -ANCHOR_LIMIT <= y <= ANCHOR_LIMIT,
        ensures
            final(self).inv(),
            final(self)@ == (SpecSprite { anchor_x: x, anchor_y: y, ..old(self)@ }),
    {
        self.anchor_x = x;
        self.anchor_y = y;
        proof {
            assert(final(self)@ =~= (SpecSprite { anchor_x: x, anchor_y: y, ..old(self)@ }));
        }
    }

    /// The sprite's position.
    pub fn get_position(&self) -> (r: (i64, i64))
        ensures
            r == (self@.pos_x, self@.pos_y),
    {
        (self.pos_x, self.pos_y)
    }

    /// Set the sprite's position.
    pub fn set_position(&mut self, x: i64, y: i64)
        requires
            old(self).inv(),
            -POS_LIMIT <= x <= POS_LIMIT,
            -POS_LIMIT <= y <= POS_LIMIT,
        ensures
            final(self).inv(),
            final(self)@ == (SpecSprite { pos_x: x, pos_y: y, ..old(self)@ }),
    {
        self.pos_x = x;
        self.pos_y = y;
        proof {
            assert(final(self)@ =~= (SpecSprite { pos_x: x, pos_y: y, ..old(self)@ }));
        }
    }

    /// Set the sprite's draw color (tint).
    pub fn set_color(&mut self, r: i64, g: i64, b: i64)
        requires
            old(self).inv(),
        ensures
            final(self).inv(),
            final(self)@ == (SpecSprite { color: Rgb { r, g, b }, ..old(self)@ }),
    {
        self.color = Rgb { r, g, b };
        proof {
            assert(final(self)@ =~= (SpecSprite { color: Rgb { r, g, b }, ..old(self)@ }));
        }
    }

    /// The sprite's draw color.
    pub fn get_color(&self) -> (r: (i64, i64, i64))
        ensures
            r == (self@.color.r, self@.color.g, self@.color.b),
    {
        (self.color.r, self.color.g, self.color.b)
    }

    /// The sprite's rotation, in fixed-point degrees.
    pub fn get_rotation(&self) -> (r: i64)
        ensures
            r == self@.rotation,
    {
        self.rotation
    }

    /// Set the sprite's rotation, in fixed-point degrees.
    pub fn set_rotation(&mut self, deg: i64)
        requires
            old(self).inv(),
        ensures
            final(self).inv(),
            final(self)@ == (SpecSprite { rotation: deg, ..old(self)@ }),
    {
        self.rotation = deg;
        proof {
            assert(final(self)@ =~= (SpecSprite { rotation: deg, ..old(self)@ }));
        }
    }

    /// The sprite's scale.
    pub fn get_scale(&self) -> (r: (i64, i64))
        ensures
            r == (self@.scale_x, self@.scale_y),
    {
        (self.scale_x, self.scale_y)
    }

    /// Set the sprite's scale.
    pub fn set_scale(&mut self, sx: i64, sy: i64)
        requires
            old(self).inv(),
            -SCALE_LIMIT <= sx <= SCALE_LIMIT,
            -SCALE_LIMIT <= sy <= SCALE_LIMIT,
        ensures
            final(self).inv(),
            final(self)@ == (SpecSprite { scale_x: sx, scale_y: sy, ..old(self)@ }),
    {
        self.scale_x = sx;
        self.scale_y = sy;
        proof {
            assert(final(self)@ =~= (SpecSprite { scale_x: sx, scale_y: sy, ..old(self)@ }));
        }
    }

    /// Whether the sprite's own quad is mirrored horizontally. Mirroring
    /// never extends to the children and never alters the anchor.
    pub fn get_flip_x(&self) -> (r: bool)
        ensures
            r == self@.flip_x,
    {
        self.flip_x
    }

    /// Mirror the sprite's own quad horizontally.
    pub fn set_flip_x(&mut self, flip_x: bool)
        requires
            old(self).inv(),
        ensures
            final(self).inv(),
            final(self)@ == (SpecSprite { flip_x, ..old(self)@ }),
    {
        self.flip_x = flip_x;
        proof {
            assert(final(self)@ =~= (SpecSprite { flip_x, ..old(self)@ }));
        }
    }

    /// Whether the sprite's own quad is mirrored vertically.
    pub fn get_flip_y(&self) -> (r: bool)
        ensures
            r == self@.flip_y,
    {
        self.flip_y
    }

    /// Mirror the sprite's own quad vertically.
    pub fn set_flip_y(&mut self, flip_y: bool)
        requires
            old(self).inv(),
        ensures
            final(self).inv(),
            final(self)@ == (SpecSprite { flip_y, ..old(self)@ }),
    {
        self.flip_y = flip_y;
        proof {
            assert(final(self)@ =~= (SpecSprite { flip_y, ..old(self)@ }));
        }
    }

    /// The sprite's opacity.
    pub fn get_opacity(&self) -> (r: i64)
        ensures
            r == self@.opacity,
    {
        self.opacity
    }

    /// Set the sprite's opacity.
    pub fn set_opacity(&mut self, opacity: i64)
        requires
            old(self).inv(),
        ensures
            final(self).inv(),
            final(self)@ == (SpecSprite { opacity, ..old(self)@ }),
    {
        self.opacity = opacity;
        proof {
            assert(final(self)@ =~= (SpecSprite { opacity, ..old(self)@ }));
        }
    }

    /// The sprite's explicit source rectangle, if one is set.
    pub fn get_src_rect(&self) -> (r: Option<Rect>)
        ensures
            r == self@.src_rect,
    {
        self.src_rect
    }

    /// Set the sprite's explicit source rectangle.
    pub fn set_src_rect(&mut self, src_rect: Rect)
        requires
            old(self).inv(),
            src_rect.dims_bounded(),
        ensures
            final(self).inv(),
            final(self)@ == (SpecSprite { src_rect: Some(src_rect), ..old(self)@ }),
    {
        self.src_rect = Some(src_rect);
        proof {
            assert(final(self)@ =~= (SpecSprite { src_rect: Some(src_rect), ..old(self)@ }));
        }
    }

    /// The sprite's texture.
    pub fn get_texture(&self) -> (r: &Texture)
        ensures
            *r == self@.texture,
    {
        &self.texture
    }

    /// Set the sprite's texture.
    pub fn set_texture(&mut self, texture: Texture)
        requires
            old(self).inv(),
        ensures
            final(self).inv(),
            final(self)@ == (SpecSprite { texture, ..old(self)@ }),
    {
        self.texture = texture;
        proof {
            assert(final(self)@ =~= (SpecSprite { texture, ..old(self)@ }));
        }
    }

    /// Add a sprite as a child of this sprite: it is appended to the ordered
    /// children and registered in the index at the last position. Returns
    /// the added sprite's id.
    pub fn add_child(&mut self, sprite: Sprite) -> (r: u128)
        requires
            old(self).inv(),
            sprite.inv(),
            !has_direct(old(self)@, sprite@.id),
        ensures
            final(self).inv(),
            r == sprite@.id,
            final(self)@ == (SpecSprite {
                children: old(self)@.children.push(sprite@),
                index: old(self)@.index.insert(sprite@.id, old(self)@.children.len() as usize),
                ..old(self)@
            }),
    {
        let id = sprite.id();
        let ghost old_children = self.children@;
        proof {
            lemma_models_of(old_children);
        }
        self.children.push(sprite);
        let pos = self.children.len() - 1;
        self.children_index.insert(id, pos);
        proof {
            lemma_models_of(self.children@);
            assert(self.children@ == old_children.push(sprite));
            lemma_models_of_push(old_children, sprite);
            assert(models_of(self.children@) =~= models_of(old_children).push(sprite@));
            assert(final(self)@ =~= (SpecSprite {
                children: old(self)@.children.push(sprite@),
                index: old(self)@.index.insert(sprite@.id, old(self)@.children.len() as usize),
                ..old(self)@
            }));
            let ns = final(self)@;
            assert forall|i: int| 0 <= i < ns.children.len() implies {
                &&& ns.index.contains_key((#[trigger] ns.children[i]).id)
                &&& ns.index[ns.children[i].id] == i
            } by {
                if i < ns.children.len() - 1 {
                    assert(ns.children[i] == old(self)@.children[i]);
                    assert(ns.children[i].id != sprite@.id);
                }
            }
            assert(index_ok(ns));
            assert forall|i: int| 0 <= i < ns.children.len() implies wf(
                #[trigger] ns.children[i],
            ) by {
                if i < ns.children.len() - 1 {
                    lemma_wf_all_index(old(self)@.children, i);
                }
            }
            lemma_wf_all_intro(ns.children);
        }
        id
    }

    /// The sprite's children, in draw order.
    pub fn children(&self) -> (r: &Vec<Sprite>)
        ensures
            r@.len() == self@.children.len(),
            forall|i: int| 0 <= i < r@.len() ==> (#[trigger] r@[i])@ == self@.children[i],
    {
        proof {
            lemma_models_of(self.children@);
        }
        &self.children
    }
}

} // verus!

verus! {

/// The models of a sequence with one sprite taken out.
pub proof fn lemma_models_of_remove(cs: Seq<Sprite>, i: int)
    requires
        0 <= i < cs.len(),
    ensures
        models_of(cs.remove(i)) =~= models_of(cs).remove(i),
{
    let a = cs.remove(i);
    lemma_models_of(cs);
    lemma_models_of(a);
    assert forall|j: int| 0 <= j < a.len() implies models_of(a)[j] == models_of(cs).remove(
        i,
    )[j] by {
        assert(models_of(a)[j] == model(a[j]));
        if j < i {
            assert(a[j] == cs[j]);
        } else {
            assert(a[j] == cs[j + 1]);
        }
    }
}

/// The models of a sequence with one sprite put in.
pub proof fn lemma_models_of_insert(cs: Seq<Sprite>, i: int, x: Sprite)
    requires
        0 <= i <= cs.len(),
    ensures
        models_of(cs.insert(i, x)) =~= models_of(cs).insert(i, model(x)),
{
    let a = cs.insert(i, x);
    lemma_models_of(cs);
    lemma_models_of(a);
    assert forall|j: int| 0 <= j < a.len() implies models_of(a)[j] == models_of(cs).insert(
        i,
        model(x),
    )[j] by {
        assert(models_of(a)[j] == model(a[j]));
        if j < i {
            assert(a[j] == cs[j]);
        } else if j == i {
            assert(a[j] == x);
        } else {
            assert(a[j] == cs[j - 1]);
        }
    }
}

impl Sprite {
    /// Find the node with the given id in this sprite's subtree: a direct
    /// child on an index hit, else the first hit of a depth-first search.
    pub fn child(&self, id: u128) -> (r: Option<&Sprite>)
        requires
            self.inv(),
        ensures
            match r {
                Some(c) => c.inv() && spec_find(self@, id) == Some(c@),
                None => spec_find(self@, id) is None,
            },
        decreases size(self@),
    {
        proof {
            lemma_models_of(self.children@);
        }
        let hit = self.children_index.get(&id);
        match hit {
            Some(index_ref) => {
                let index = *index_ref;
                proof {
                    assert(self@.index.contains_key(id) && self@.index[id] == index);
                    assert(self@.children[index as int].id == id);
                    assert(has_direct(self@, id));
                    let dp = direct_pos(self@, id);
                    assert(0 <= dp < self@.children.len() && self@.children[dp].id == id);
                    assert(self@.index[self@.children[dp].id] == dp);
                    assert(dp == index as int);
                    lemma_wf_all_index(self@.children, index as int);
                }
                Some(&self.children[index])
            },
            None => {
                proof {
                    assert(!self@.index.contains_key(id));
                    assert(!has_direct(self@, id));
                }
                let n = self.children.len();
                let mut i: usize = 0;
                while i < n
                    invariant
                        self.inv(),
                        !has_direct(self@, id),
                        n == self.children@.len(),
                        i <= n,
                        models_of(self.children@) == self@.children,
                        forall|j: int| 0 <= j < i ==> spec_find(
                            #[trigger] self@.children[j],
                            id,
                        ) is None,
                    decreases n - i,
                {
                    let c = &self.children[i];
                    proof {
                        lemma_models_of(self.children@);
                        assert(c@ == self@.children[i as int]);
                        lemma_wf_all_index(self@.children, i as int);
                        lemma_size_all_index(self@.children, i as int);
                    }
                    let found = c.child(id);
                    match found {
                        Some(f) => {
                            proof {
                                lemma_find_all_hit(self@.children, id, i as int);
                            }
                            return Some(f);
                        },
                        None => {},
                    }
                    i += 1;
                }
                proof {
                    lemma_find_all_none(self@.children, id);
                }
                None
            },
        }
    }

    /// Remove the node with the given id from this sprite's subtree and
    /// return it: a direct child on an index hit (its later siblings are
    /// reindexed), else the first hit of a depth-first search; only the one
    /// subtree that contains the id is changed, and an absent id changes
    /// nothing.
    #[verifier::rlimit(50)]
    pub fn remove_child(&mut self, id: u128) -> (r: Option<Sprite>)
        requires
            old(self).inv(),
        ensures
            final(self).inv(),
            final(self)@ == spec_remove(old(self)@, id).1,
            match r {
                Some(c) => c.inv() && spec_remove(old(self)@, id).0 == Some(c@),
                None => spec_remove(old(self)@, id).0 is None,
            },
        decreases size(old(self)@),
    {
        let ghost s0 = old(self)@;
        proof {
            lemma_models_of(old(self).children@);
        }
        let hit = self.children_index.remove(&id);
        match hit {
            Some(index) => {
                proof {
                    assert(s0.index.contains_key(id) && s0.index[id] == index);
                    assert(s0.children[index as int].id == id);
                    assert(has_direct(s0, id));
                    let dp = direct_pos(s0, id);
                    assert(0 <= dp < s0.children.len() && s0.children[dp].id == id);
                    assert(s0.index[s0.children[dp].id] == dp);
                    assert(dp == index as int);
                }
                let removed = self.children.remove(index);
                let ghost mids = s0.children.remove(index as int);
                let ghost target = remove_reindex(s0.index, id, index);
                proof {
                    lemma_models_of_remove(old(self).children@, index as int);
                    assert(models_of(self.children@) =~= mids);
                    lemma_wf_all_index(s0.children, index as int);
                    assert(removed@ == s0.children[index as int]);
                }
                let n = self.children.len();
                let mut i: usize = index;
                while i < n
                    invariant
                        s0 == old(self)@,
                        index <= i <= n,
                        n == self.children@.len(),
                        wf(s0),
                        index < s0.children.len(),
                        s0.children.len() == n + 1,
                        s0.index.contains_key(id) && s0.index[id] == index,
                        s0.children[index as int].id == id,
                        models_of(self.children@) == mids,
                        mids == s0.children.remove(index as int),
                        target == remove_reindex(s0.index, id, index),
                        self@ == (SpecSprite { children: mids, index: self.children_index@, ..s0 }),
                        forall|k: u128| self.children_index@.contains_key(k)
                            <==> #[trigger] target.contains_key(k),
                        forall|k: u128| #[trigger] target.contains_key(k) ==> self.children_index@[k]
                            == if target[k] < i { target[k] } else { s0.index[k] },
                    decreases n - i,
                {
                    proof {
                        lemma_models_of(self.children@);
                        assert(mids[i as int] == s0.children[i + 1]);
                        assert(s0.index[s0.children[i + 1].id] == i + 1);
                    }
                    let uuid = self.children[i].id();
                    proof {
                        assert(uuid == mids[i as int].id);
                        assert(s0.index.contains_key(uuid) && s0.index[uuid] == i + 1);
                        assert(uuid != id);
                        assert(target.contains_key(uuid) && target[uuid] == i as usize);
                    }
                    let ghost m_before = self.children_index@;
                    self.children_index.insert(uuid, i);
                    proof {
                        assert(self.children_index@ == m_before.insert(uuid, i as usize));
                        assert(self@ =~= (SpecSprite {
                            children: mids,
                            index: self.children_index@,
                            ..s0
                        }));
                        assert forall|k: u128| #[trigger] target.contains_key(k)
                            implies self.children_index@[k] == if target[k] < i + 1 {
                            target[k]
                        } else {
                            s0.index[k]
                        } by {
                            if k != uuid && target[k] == i {
                                if s0.index[k] < index {
                                    assert(target[k] == s0.index[k]);
                                    assert(false);
                                } else {
                                    assert(s0.index[k] == i + 1);
                                    assert(s0.children[i + 1].id == k);
                                    assert(false);
                                }
                            }
                        }
                    }
                    i += 1;
                }
                proof {
                    assert forall|k: u128| #[trigger] target.contains_key(k)
                        implies self.children_index@[k] == target[k] by {
                        if !(target[k] < i) {
                            if s0.index[k] < index {
                                assert(target[k] == s0.index[k]);
                            } else {
                                assert(k != id);
                                assert(s0.index[k] != index);
                                assert(s0.index[k] > index);
                                assert(target[k] == s0.index[k] - 1);
                                assert(s0.index[k] < s0.children.len());
                            }
                            assert(target[k] < i);
                        }
                    }
                    assert forall|k: u128| self.children_index@.dom().contains(k)
                        <==> target.dom().contains(k) by {
                        assert(self.children_index@.contains_key(k) <==> target.contains_key(k));
                    }
                    assert(self.children_index@.dom() =~= target.dom());
                    assert(self.children_index@ =~= target);
                    assert(self@ =~= spec_remove(s0, id).1);
                    // the invariant is preserved
                    let ns = self@;
                    assert forall|k: u128| #[trigger] ns.index.contains_key(k) implies {
                        &&& ns.index[k] < ns.children.len()
                        &&& ns.children[ns.index[k] as int].id == k
                    } by {
                        assert(s0.index.contains_key(k) && k != id);
                        if s0.index[k] < index {
                            assert(ns.children[target[k] as int] == s0.children[s0.index[k] as int]);
                        } else {
                            assert(s0.index[k] > index);
                            assert(ns.children[target[k] as int] == s0.children[s0.index[k] as int]);
                        }
                    }
                    assert forall|j: int| 0 <= j < ns.children.len() implies {
                        &&& ns.index.contains_key((#[trigger] ns.children[j]).id)
                        &&& ns.index[ns.children[j].id] == j
                    } by {
                        if j < index {
                            assert(ns.children[j] == s0.children[j]);
                            assert(s0.index[ns.children[j].id] == j);
                            assert(ns.children[j].id != id);
                        } else {
                            assert(ns.children[j] == s0.children[j + 1]);
                            assert(s0.index[ns.children[j].id] == j + 1);
                            assert(ns.children[j].id != id);
                        }
                    }
                    assert(index_ok(ns));
                    assert forall|j: int| 0 <= j < ns.children.len() implies wf(
                        #[trigger] ns.children[j],
                    ) by {
                        if j < index {
                            lemma_wf_all_index(s0.children, j);
                        } else {
                            lemma_wf_all_index(s0.children, j + 1);
                        }
                    }
                    lemma_wf_all_intro(ns.children);
                }
                Some(removed)
            },
            None => {
                proof {
                    assert(!s0.index.contains_key(id));
                    assert(!has_direct(s0, id));
                    assert(self@ =~= s0);
                }
                let n = self.children.len();
                let mut i: usize = 0;
                while i < n
                    invariant
                        s0 == old(self)@,
                        i <= n,
                        wf(s0),
                        !has_direct(s0, id),
                        n == self.children@.len(),
                        n == s0.children.len(),
                        self@ == s0,
                        forall|j: int| 0 <= j < i ==> spec_remove(
                            #[trigger] s0.children[j],
                            id,
                        ).0 is None,
                    decreases n - i,
                {
                    proof {
                        lemma_models_of(self.children@);
                        lemma_wf_all_index(s0.children, i as int);
                        lemma_size_all_index(s0.children, i as int);
                    }
                    let ghost pre = self.children@;
                    let mut c = self.children.remove(i);
                    let ghost c_before = c@;
                    proof {
                        assert(c == pre[i as int]);
                        assert(models_of(pre)[i as int] == model(pre[i as int]));
                        assert(c_before == s0.children[i as int]);
                        assert(size(s0) == 1 + size_all(s0.children));
                        assert(size(c_before) < size(s0));
                    }
                    let found = c.remove_child(id);
                    let ghost c_after = c@;
                    self.children.insert(i, c);
                    proof {
                        lemma_models_of_remove(pre, i as int);
                        lemma_models_of_insert(pre.remove(i as int), i as int, c);
                        assert(models_of(self.children@) =~= models_of(pre).remove(
                            i as int,
                        ).insert(i as int, c_after));
                        assert(models_of(pre) == s0.children);
                        assert(models_of(self.children@) =~= s0.children.update(i as int, c_after));
                    }
                    match found {
                        Some(f) => {
                            proof {
                                lemma_remove_all_hit(s0.children, id, i as int);
                                assert(c_after == spec_remove(c_before, id).1);
                                assert(c_after == spec_remove(s0.children[i as int], id).1);
                                assert(models_of(self.children@) =~= spec_remove_all(
                                    s0.children,
                                    id,
                                ).1);
                                assert(self@ =~= spec_remove(s0, id).1);
                                let ns = self@;
                                assert(c_after.id == s0.children[i as int].id);
                                assert forall|j: int| 0 <= j < ns.children.len() implies wf(
                                    #[trigger] ns.children[j],
                                ) by {
                                    if j != i {
                                        lemma_wf_all_index(s0.children, j);
                                    }
                                }
                                lemma_wf_all_intro(ns.children);
                                assert(index_ok(ns));
                            }
                            return Some(f);
                        },
                        None => {
                            proof {
                                lemma_remove_miss(c_before, id);
                                assert(c_after == spec_remove(c_before, id).1);
                                assert(c_after == s0.children[i as int]);
                                assert(models_of(self.children@) =~= s0.children);
                                assert(self@ =~= s0);
                            }
                        },
                    }
                    i += 1;
                }
                proof {
                    lemma_remove_all_none(s0.children, id);
                    assert(spec_remove(s0, id).1 =~= s0);
                }
                None
            },
        }
    }
}

} // verus!

verus! {

/// A field-for-field copy of a clip.
fn duplicate_frameset(f: &FrameSet) -> (r: FrameSet)
    ensures
        r@ == f@,
{
    let frames = f.frames.clone();
    proof {
        assert forall|i: int| 0 <= i < frames@.len() implies frames@[i] == f.frames@[i] by {
            assert(cloned::<Rect>(f.frames@[i], frames@[i]));
        }
        assert(frames@ =~= f.frames@);
    }
    FrameSet { repeat: f.repeat, frame_time: f.frame_time, frames }
}

impl Sprite {
    /// The position of the clip registered under `name`, if any.
    fn lookup_frameset(&self, name: &str) -> (r: Option<usize>)
        ensures
            match r {
                Some(i) => i < self@.frame_sets.len() && self@.frame_sets[i as int].0 == name@
                    && registry_has(self@.frame_sets, name@),
                None => !registry_has(self@.frame_sets, name@),
            },
    {
        let owned: String = name.to_owned();
        let n = self.frame_sets.len();
        let mut i: usize = 0;
        while i < n
            invariant
                owned@ == name@,
                n == self.frame_sets@.len(),
                n == self@.frame_sets.len(),
                i <= n,
                forall|j: int| 0 <= j < i ==> (#[trigger] self@.frame_sets[j]).0 != name@,
            decreases n - i,
        {
            if self.frame_sets[i].0 == owned {
                proof {
                    assert(self@.frame_sets[i as int].0 == name@);
                }
                return Some(i);
            }
            proof {
                assert(self@.frame_sets[i as int].0 != name@);
            }
            i += 1;
        }
        None
    }

    /// Start an animation clip, with an optional followup to chain into once
    /// it finishes.
    ///
    /// A registered name becomes the active clip; starting a clip does not
    /// reset the current frame position, except that a position lying
    /// outside the new clip restarts at frame 0. An unregistered name leaves
    /// the animation state unchanged. Either way the followup is set to the
    /// given name, or cleared when none is given.
    pub fn play(&mut self, name: &str, followup: Option<&str>)
        requires
            old(self).inv(),
        ensures
            final(self).inv(),
            final(self)@ == spec_play(
                old(self)@,
                name@,
                match followup {
                    Some(f) => Some(f@),
                    None => None,
                },
            ),
    {
        let ghost s0 = old(self)@;
        let hit = self.lookup_frameset(name);
        match hit {
            Some(i) => {
                let clip = duplicate_frameset(&self.frame_sets[i].1);
                proof {
                    assert(clip@ == s0.frame_sets[i as int].1);
                    let j = choose|j: int|
                        0 <= j < s0.frame_sets.len() && (#[trigger] s0.frame_sets[j]).0 == name@;
                    assert(s0.frame_sets[j].0 == name@);
                    assert(j == i as int);
                    assert(registry_get(s0.frame_sets, name@) == clip@);
                }
                let len = clip.frames.len();
                if self.frame_idx >= len {
                    self.frame_idx = 0;
                }
                self.frames = Some(clip);
            },
            None => {},
        }
        match followup {
            Some(next) => {
                self.frames_followup = Some(next.to_owned());
            },
            None => {
                self.frames_followup = None;
            },
        }
        proof {
            assert(final(self)@ =~= spec_play(
                s0,
                name@,
                match followup {
                    Some(f) => Some(f@),
                    None => None,
                },
            ));
        }
    }

    /// Advance the animation timer by `dt` fixed-point seconds.
    ///
    /// Idle sprites are untouched. A playing sprite accumulates elapsed
    /// time; once it reaches the active clip's frame duration the timer
    /// resets and the frame advances by one — at the last frame it restarts
    /// at 0 when a followup chains in or the clip repeats, and freezes
    /// otherwise. A followup takes precedence over the repeat flag: the
    /// chained clip starts at frame 0 with any further followup cleared. At
    /// most one frame advances per call, however large `dt` is.
    pub fn update(&mut self, dt: u64)
        requires
            old(self).inv(),
            dt <= TIME_LIMIT,
        ensures
            final(self).inv(),
            final(self)@ == spec_update(old(self)@, dt),
    {
        let ghost s0 = old(self)@;
        let (ft, flen, rep) = match &self.frames {
            None => {
                return;
            },
            Some(f) => (f.frame_time, f.frames.len(), f.repeat),
        };
        let delta = self.frame_delta + dt;
        if delta >= ft {
            self.frame_delta = 0;
            if self.frame_idx == flen - 1 {
                let mut chained: Option<String> = None;
                match &self.frames_followup {
                    Some(next) => {
                        chained = Some(next.clone());
                    },
                    None => {},
                }
                if chained.is_some() || rep {
                    self.frame_idx = 0;
                }
                match chained {
                    Some(next) => {
                        proof {
                            assert(self@ =~= (SpecSprite {
                                frame_delta: 0,
                                frame_idx: 0,
                                ..s0
                            }));
                        }
                        self.play(next.as_str(), None);
                    },
                    None => {
                        proof {
                            assert(final(self)@ =~= spec_update(s0, dt));
                        }
                    },
                }
            } else {
                self.frame_idx = self.frame_idx + 1;
                proof {
                    assert(final(self)@ =~= spec_update(s0, dt));
                }
            }
        } else {
            self.frame_delta = delta;
            proof {
                assert(final(self)@ =~= spec_update(s0, dt));
            }
        }
    }

    /// Register an animation clip under a name. The first registration of a
    /// name wins: later calls with the same name are ignored.
    pub fn add_frameset(&mut self, name: &str, repeat: bool, frame_time: u64, frames: Vec<Rect>)
        requires
            old(self).inv(),
            frames@.len() > 0,
            frame_time <= TIME_LIMIT,
            forall|i: int| 0 <= i < frames@.len() ==> (#[trigger] frames@[i]).dims_bounded(),
        ensures
            final(self).inv(),
            final(self)@ == spec_add_frameset(
                old(self)@,
                name@,
                SpecFrameSet { repeat, frame_time, frames: frames@ },
            ),
    {
        let ghost s0 = old(self)@;
        let hit = self.lookup_frameset(name);
        match hit {
            Some(_) => {},
            None => {
                let entry = FrameSet { repeat, frame_time, frames };
                self.frame_sets.push((name.to_owned(), entry));
                proof {
                    assert(final(self)@.frame_sets =~= s0.frame_sets.push(
                        (name@, SpecFrameSet { repeat, frame_time, frames: frames@ }),
                    ));
                    assert(final(self)@ =~= spec_add_frameset(
                        s0,
                        name@,
                        SpecFrameSet { repeat, frame_time, frames: frames@ },
                    ));
                    let nfs = final(self)@.frame_sets;
                    assert forall|i: int, j: int|
                        0 <= i < nfs.len() && 0 <= j < nfs.len() && i != j implies nfs[i].0
                        != nfs[j].0 by {
                        if i == nfs.len() - 1 {
                            assert(nfs[j].0 != name@);
                        } else if j == nfs.len() - 1 {
                            assert(nfs[i].0 != name@);
                        }
                    }
                    assert(registry_ok(nfs));
                }
            },
        }
    }

    /// Register a horizontally tiled animation clip: `count` frames, each
    /// `base`'s size, starting at x = 0 and stepping rightward by `base`'s
    /// width, sharing `base`'s y. The first registration of a name wins.
    pub fn add_frameset_horizontal(
        &mut self,
        name: &str,
        repeat: bool,
        frame_time: u64,
        base: Rect,
        count: u32,
    )
        requires
            old(self).inv(),
            count >= 1,
            base.dims_bounded(),
            frame_time <= TIME_LIMIT,
            -0x7fff_ffff_ffff_ffff <= (count - 1) * (base.w as int) <= 0x7fff_ffff_ffff_ffff,
        ensures
            final(self).inv(),
            final(self)@ == spec_add_frameset(
                old(self)@,
                name@,
                SpecFrameSet { repeat, frame_time, frames: spec_horizontal_frames(base, count) },
            ),
    {
        let mut srcs: Vec<Rect> = Vec::new();
        let mut i: u32 = 0;
        while i < count
            invariant
                i <= count,
                base.dims_bounded(),
                -0x7fff_ffff_ffff_ffff <= (count - 1) * (base.w as int) <= 0x7fff_ffff_ffff_ffff,
                srcs@.len() == i,
                forall|j: int| 0 <= j < i ==> srcs@[j] == spec_horizontal_frames(base, count)[j],
            decreases count - i,
        {
            proof {
                assert(-0x7fff_ffff_ffff_ffff <= (i as int) * (base.w as int)
                    <= 0x7fff_ffff_ffff_ffff) by (nonlinear_arith)
                    requires
                        0 <= i as int <= (count as int) - 1,
                        -0x7fff_ffff_ffff_ffff <= ((count as int) - 1) * (base.w as int)
                            <= 0x7fff_ffff_ffff_ffff,
                ;
            }
            let x = (i as i64) * base.w;
            srcs.push(Rect { x, y: base.y, w: base.w, h: base.h });
            i += 1;
        }
        proof {
            assert(srcs@ =~= spec_horizontal_frames(base, count));
            assert(forall|j: int| 0 <= j < srcs@.len() ==> (#[trigger] srcs@[j]).dims_bounded());
        }
        self.add_frameset(name, repeat, frame_time, srcs);
    }
}

} // verus!

verus! {

impl Sprite {
    /// The source rectangle this sprite currently displays: the active
    /// animation frame when a clip is playing, else the explicit source
    /// rectangle when one is set, else the full texture extent.
    fn active_source(&self) -> (r: Rect)
        requires
            self.inv(),
        ensures
            r == active_src(self@),
            r.dims_bounded(),
    {
        match &self.frames {
            Some(f) => f.frames[self.frame_idx],
            None => match &self.src_rect {
                Some(rect) => *rect,
                None => self.texture.full_extent(),
            },
        }
    }

    /// One traversal step shared by `draw` and `draw_tinted`.
    fn draw_with(&self, t: &Transform, tint: Option<Rgb>, out: &mut Vec<Quad>)
        requires
            self.inv(),
        ensures
            quad_views(final(out)@) == quad_views(old(out)@) + spec_draw(self@, t@, tint),
        decreases size(self@),
    {
        let ghost out0 = old(out)@;
        if !self.visible {
            proof {
                assert(spec_draw(self@, t@, tint) =~= Seq::<crate::geom::SpecQuad>::empty());
                assert(quad_views(out@) =~= quad_views(out0) + spec_draw(self@, t@, tint));
            }
            return ;
        }
        let src = self.active_source();
        proof {
            crate::scalar::lemma_milli_mul_range(
                self.anchor_x as int,
                src.w as int,
                ANCHOR_LIMIT as int,
                DIM_LIMIT as int,
            );
            crate::scalar::lemma_milli_mul_range(
                self.anchor_y as int,
                src.h as int,
                ANCHOR_LIMIT as int,
                DIM_LIMIT as int,
            );
        }
        let ax = crate::scalar::fixed_mul(self.anchor_x, src.w);
        let ay = crate::scalar::fixed_mul(self.anchor_y, src.h);
        let transformed = t.appended(TransformOp::Translate { x: self.pos_x, y: self.pos_y }).appended(
            TransformOp::RotateDeg { deg: self.rotation },
        ).appended(TransformOp::Scale { x: self.scale_x, y: self.scale_y });
        proof {
            assert(transformed@ =~= t@ + local_ops(self@));
        }
        let mut mt = transformed.duplicate();
        if self.flip_x {
            mt = mt.appended(TransformOp::Translate { x: src.w - 2 * ax, y: 0 }).appended(
                TransformOp::FlipH,
            );
        }
        if self.flip_y {
            mt = mt.appended(TransformOp::Translate { x: 0, y: src.h - 2 * ay }).appended(
                TransformOp::FlipV,
            );
        }
        proof {
            assert(ax == anchor_px_x(self@) && ay == anchor_px_y(self@));
            assert(mt@ =~= t@ + local_ops(self@) + crate::model::flip_ops(self@));
        }
        let color = match tint {
            Some(c) => c,
            None => self.color,
        };
        out.push(
            Quad {
                texture: self.texture,
                src,
                dest: Rect { x: -ax, y: -ay, w: src.w, h: src.h },
                color,
                opacity: self.opacity,
                transform: mt,
            },
        );
        let ghost ct = t@ + local_ops(self@);
        proof {
            assert(quad_views(out@) =~= quad_views(out0) + seq![spec_quad(self@, t@, tint)]);
            assert(self@.children.subrange(0, 0) =~= Seq::<SpecSprite>::empty());
            assert(spec_draw_all(self@.children.subrange(0, 0), ct, tint) =~= Seq::<
                crate::geom::SpecQuad,
            >::empty());
        }
        let n = self.children.len();
        let mut i: usize = 0;
        while i < n
            invariant
                self.inv(),
                n == self.children@.len(),
                i <= n,
                transformed@ == ct,
                ct == t@ + local_ops(self@),
                quad_views(out@) == quad_views(out0) + seq![spec_quad(self@, t@, tint)]
                    + spec_draw_all(self@.children.subrange(0, i as int), ct, tint),
            decreases n - i,
        {
            proof {
                lemma_models_of(self.children@);
                lemma_wf_all_index(self@.children, i as int);
                lemma_size_all_index(self@.children, i as int);
                assert(size(self@) == 1 + size_all(self@.children));
            }
            let c = &self.children[i];
            proof {
                assert(c@ == self@.children[i as int]);
            }
            c.draw_with(&transformed, tint, out);
            proof {
                lemma_draw_all_take(self@.children, ct, tint, i as int);
            }
            i += 1;
        }
        proof {
            lemma_models_of(self.children@);
            assert(self@.children.len() == n);
            assert(self@.children.subrange(0, n as int) =~= self@.children);
            assert(spec_draw(self@, t@, tint) == seq![spec_quad(self@, t@, tint)] + spec_draw_all(
                self@.children,
                ct,
                tint,
            ));
            assert(quad_views(out@) =~= quad_views(out0) + spec_draw(self@, t@, tint));
        }
    }

    /// Draw this sprite and its children under the incoming transform,
    /// appending one textured, tinted quad per visible node to `out`, in
    /// depth-first order. An invisible node contributes nothing, its whole
    /// subtree included.
    pub fn draw(&self, t: &Transform, out: &mut Vec<Quad>)
        requires
            self.inv(),
        ensures
            quad_views(final(out)@) == quad_views(old(out)@) + spec_draw(self@, t@, None),
    {
        self.draw_with(t, None, out)
    }

    /// Draw this sprite and its children as [`Sprite::draw`] does, but with
    /// every submitted quad tinted by the override color — each node still
    /// uses its own opacity — propagated unchanged to every descendant.
    pub fn draw_tinted(&self, t: &Transform, out: &mut Vec<Quad>, c: Rgb)
        requires
            self.inv(),
        ensures
            quad_views(final(out)@) == quad_views(old(out)@) + spec_draw(self@, t@, Some(c)),
    {
        self.draw_with(t, Some(c), out)
    }

    /// The sprite's local-space bounding box: the active source size scaled
    /// by the sprite's scale, placed at the sprite's position offset by the
    /// anchor. By design it ignores rotation and every parent transform.
    pub fn bounding_box(&self) -> (r: Rect)
        requires
            self.inv(),
        ensures
            r == spec_bounding_box(self@),
    {
        let src = self.active_source();
        proof {
            crate::scalar::lemma_milli_mul_range(
                src.w as int,
                self.scale_x as int,
                DIM_LIMIT as int,
                SCALE_LIMIT as int,
            );
            crate::scalar::lemma_milli_mul_range(
                src.h as int,
                self.scale_y as int,
                DIM_LIMIT as int,
                SCALE_LIMIT as int,
            );
        }
        let w = crate::scalar::fixed_mul(src.w, self.scale_x);
        let h = crate::scalar::fixed_mul(src.h, self.scale_y);
        proof {
            crate::scalar::lemma_milli_mul_range(
                self.anchor_x as int,
                w as int,
                ANCHOR_LIMIT as int,
                5_000_000_000_000_000,
            );
            crate::scalar::lemma_milli_mul_range(
                self.anchor_y as int,
                h as int,
                ANCHOR_LIMIT as int,
                5_000_000_000_000_000,
            );
        }
        let ax = crate::scalar::fixed_mul(self.anchor_x, w);
        let ay = crate::scalar::fixed_mul(self.anchor_y, h);
        Rect { x: self.pos_x - ax, y: self.pos_y - ay, w, h }
    }
}

} // verus!

verus! {

/// The models of a sequence with one sprite replaced, for every replacement.
pub proof fn lemma_models_of_update(cs: Seq<Sprite>, i: int)
    requires
        0 <= i < cs.len(),
    ensures
        forall|x: Sprite| models_of(cs.update(i, x)) =~= models_of(cs).update(i, #[trigger] model(x)),
{
    assert forall|x: Sprite| models_of(cs.update(i, x)) =~= models_of(cs).update(
        i,
        #[trigger] model(x),
    ) by {
        let a = cs.update(i, x);
        lemma_models_of(cs);
        lemma_models_of(a);
        assert forall|j: int| 0 <= j < a.len() implies models_of(a)[j] == models_of(cs).update(
            i,
            model(x),
        )[j] by {
            assert(models_of(a)[j] == model(a[j]));
            if j != i {
                assert(a[j] == cs[j]);
            } else {
                assert(a[j] == x);
            }
        }
    }
}

impl Sprite {
    /// The position of the first direct child whose subtree contains the id.
    fn subtree_hit(&self, id: u128) -> (r: Option<usize>)
        requires
            self.inv(),
        ensures
            match r {
                Some(j) => j < self@.children.len() && spec_find(self@.children[j as int], id)
                    is Some && (forall|k: int| 0 <= k < j ==> spec_find(
                    #[trigger] self@.children[k],
                    id,
                ) is None),
                None => forall|k: int| 0 <= k < self@.children.len() ==> spec_find(
                    #[trigger] self@.children[k],
                    id,
                ) is None,
            },
    {
        proof {
            lemma_models_of(self.children@);
        }
        let n = self.children.len();
        let mut j: usize = 0;
        while j < n
            invariant
                self.inv(),
                n == self.children@.len(),
                n == self@.children.len(),
                j <= n,
                forall|k: int| 0 <= k < j ==> spec_find(#[trigger] self@.children[k], id) is None,
            decreases n - j,
        {
            proof {
                lemma_models_of(self.children@);
                lemma_wf_all_index(self@.children, j as int);
            }
            let hit = self.children[j].child(id);
            if hit.is_some() {
                return Some(j);
            }
            j += 1;
        }
        None
    }

    /// Find the node with the given id in this sprite's subtree, mutably:
    /// a direct child on an index hit, else the first hit of a depth-first
    /// search. The final state of the tree is the old tree with the found
    /// node replaced by whatever the caller leaves behind the reference.
    pub fn child_mut(&mut self, id: u128) -> (r: Option<&mut Sprite>)
        requires
            old(self).inv(),
        ensures
            match r {
                Some(c) => {
                    &&& Some((*c)@) == spec_find(old(self)@, id)
                    &&& (*c)@.id == id
                    &&& wf((*c)@)
                    &&& final(self)@ == spec_replace(old(self)@, id, (*final(c))@)
                    &&& (wf((*final(c))@) && (*final(c))@.id == id) ==> final(self).inv()
                },
                None => {
                    &&& spec_find(old(self)@, id) is None
                    &&& final(self)@ == old(self)@
                },
            },
        decreases size(old(self)@),
    {
        let ghost s0 = old(self)@;
        proof {
            lemma_models_of(old(self).children@);
        }
        let hit = self.children_index.get(&id);
        match hit {
            Some(index_ref) => {
                let index = *index_ref;
                proof {
                    assert(s0.index.contains_key(id) && s0.index[id] == index);
                    assert(s0.children[index as int].id == id);
                    assert(has_direct(s0, id));
                    let dp = direct_pos(s0, id);
                    assert(0 <= dp < s0.children.len() && s0.children[dp].id == id);
                    assert(s0.index[s0.children[dp].id] == dp);
                    assert(dp == index as int);
                    lemma_wf_all_index(s0.children, index as int);
                    lemma_models_of_update(old(self).children@, index as int);
                    lemma_find_id(s0, id);
                    assert forall|x: SpecSprite| wf(x) && x.id == id implies wf(
                        spec_replace(s0, id, x),
                    ) by {
                        lemma_replace_wf(s0, id, x);
                    }
                }
                Some(&mut self.children[index])
            },
            None => {
                proof {
                    assert(!s0.index.contains_key(id));
                    assert(!has_direct(s0, id));
                }
                let sub = self.subtree_hit(id);
                match sub {
                    Some(j) => {
                        proof {
                            lemma_models_of(self.children@);
                            lemma_wf_all_index(s0.children, j as int);
                            lemma_size_all_index(s0.children, j as int);
                            assert(size(s0) == 1 + size_all(s0.children));
                            lemma_find_all_hit(s0.children, id, j as int);
                            lemma_replace_all_hit(s0.children, id, j as int);
                            lemma_models_of_update(old(self).children@, j as int);
                            lemma_find_id(s0, id);
                            assert forall|x: SpecSprite| wf(x) && x.id == id implies wf(
                                spec_replace(s0, id, x),
                            ) by {
                                lemma_replace_wf(s0, id, x);
                            }
                        }
                        let c = &mut self.children[j];
                        proof {
                            assert((*c)@ == s0.children[j as int]);
                            assert(size((*c)@) < size(s0));
                        }
                        let inner = c.child_mut(id);
                        proof {
                            assert(inner is Some);
                        }
                        inner
                    },
                    None => {
                        proof {
                            lemma_find_all_none(s0.children, id);
                        }
                        None
                    },
                }
            },
        }
    }
}

} // verus!
