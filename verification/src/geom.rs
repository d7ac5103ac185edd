//! Plain geometric data: rectangles, tints, affine transforms as operation
//! sequences, texture descriptors, and the quad commands a draw traversal
//! produces.

use vstd::prelude::*;

use crate::scalar::DIM_LIMIT;

verus! {

/// An axis-aligned rectangle in fixed-point units: origin `(x, y)` and size
/// `(w, h)`.
#[derive(Clone, Copy, PartialEq, Eq, Structural, Debug)]
pub struct Rect {
    pub x: i64,
    pub y: i64,
    pub w: i64,
    pub h: i64,
}

impl Rect {
    /// The width and height are small enough for the anchor and
    /// bounding-box arithmetic never to overflow.
    pub open spec fn dims_bounded(self) -> bool {
        &&& -DIM_LIMIT <= self.w <= DIM_LIMIT
        &&& -DIM_LIMIT <= self.h <= DIM_LIMIT
    }
}

/// An RGB tint, each channel in fixed point (1000 is full intensity).
#[derive(Clone, Copy, PartialEq, Eq, Structural, Debug)]
pub struct Rgb {
    pub r: i64,
    pub g: i64,
    pub b: i64,
}

/// One primitive 2-D affine operation. A transform is a sequence of these,
/// applied left to right.
#[derive(Clone, Copy, PartialEq, Eq, Structural, Debug)]
pub enum TransformOp {
    /// Translate by `(x, y)`.
    Translate { x: i64, y: i64 },
    /// Rotate by an angle in fixed-point degrees.
    RotateDeg { deg: i64 },
    /// Scale by `(x, y)`.
    Scale { x: i64, y: i64 },
    /// Mirror horizontally.
    FlipH,
    /// Mirror vertically.
    FlipV,
}

/// An affine transform, kept as the sequence of primitive operations that
/// composes it. The embedding application folds the sequence into whatever
/// concrete matrix type its rasterizer expects.
#[derive(Clone, Debug)]
pub struct Transform {
    pub ops: Vec<TransformOp>,
}

impl View for Transform {
    type V = Seq<TransformOp>;

    open spec fn view(&self) -> Seq<TransformOp> {
        self.ops@
    }
}

impl Transform {
    /// The identity transform: no operations.
    pub fn identity() -> (r: Transform)
        ensures
            r@ == Seq::<TransformOp>::empty(),
    {
        Transform { ops: Vec::new() }
    }

    /// A copy of this transform with `op` appended.
    pub fn appended(&self, op: TransformOp) -> (r: Transform)
        ensures
            r@ == self@.push(op),
    {
        let mut ops = self.ops.clone();
        ops.push(op);
        let r = Transform { ops };
        proof {
            assert(r@ =~= self@.push(op));
        }
        r
    }

    /// A field-for-field copy of this transform.
    pub fn duplicate(&self) -> (r: Transform)
        ensures
            r@ == self@,
    {
        let ops = self.ops.clone();
        proof {
            assert forall|i: int| 0 <= i < ops@.len() implies ops@[i] == self.ops@[i] by {
                assert(cloned::<TransformOp>(self.ops@[i], ops@[i]));
            }
            assert(ops@ =~= self.ops@);
        }
        Transform { ops }
    }
}

/// A texture resource, reduced to what the scene graph reads of it: its
/// pixel dimensions, plus an opaque handle by which the embedding
/// application recognizes the underlying resource. The node never reads the
/// handle.
#[derive(Clone, Copy, PartialEq, Eq, Structural, Debug)]
pub struct Texture {
    pub handle: u64,
    pub width: u32,
    pub height: u32,
}

impl Texture {
    pub fn new(handle: u64, width: u32, height: u32) -> (r: Texture)
        ensures
            r == (Texture { handle, width, height }),
    {
        Texture { handle, width, height }
    }

    /// The texture's pixel dimensions.
    pub fn get_size(&self) -> (r: (u32, u32))
        ensures
            r == (self.width, self.height),
    {
        (self.width, self.height)
    }

    /// The full extent of the texture as a fixed-point rectangle.
    pub open spec fn spec_full_extent(self) -> Rect {
        Rect { x: 0, y: 0, w: (self.width * 1000) as i64, h: (self.height * 1000) as i64 }
    }

    /// The full extent of the texture as a fixed-point rectangle.
    pub fn full_extent(&self) -> (r: Rect)
        ensures
            r == self.spec_full_extent(),
            r.dims_bounded(),
    {
        Rect { x: 0, y: 0, w: (self.width as i64) * 1000, h: (self.height as i64) * 1000 }
    }
}

/// One textured, tinted quad submitted during a draw traversal, in the order
/// the traversal produced it.
#[derive(Clone, Debug)]
pub struct Quad {
    /// The texture to rasterize from.
    pub texture: Texture,
    /// The region of the texture's pixel space to display.
    pub src: Rect,
    /// The destination rectangle, relative to the quad's own transform:
    /// offset by the negated anchor, sized as the source region.
    pub dest: Rect,
    /// The tint.
    pub color: Rgb,
    /// The opacity.
    pub opacity: i64,
    /// The full transform under which the quad is placed, from the root
    /// down, including this node's own mirroring.
    pub transform: Transform,
}

/// The mathematical image of a [`Quad`].
#[verifier::ext_equal]
pub struct SpecQuad {
    pub texture: Texture,
    pub src: Rect,
    pub dest: Rect,
    pub color: Rgb,
    pub opacity: i64,
    pub transform: Seq<TransformOp>,
}

impl View for Quad {
    type V = SpecQuad;

    open spec fn view(&self) -> SpecQuad {
        SpecQuad {
            texture: self.texture,
            src: self.src,
            dest: self.dest,
            color: self.color,
            opacity: self.opacity,
            transform: self.transform@,
        }
    }
}

/// The mathematical images of a sequence of quads, in order.
pub open spec fn quad_views(qs: Seq<Quad>) -> Seq<SpecQuad> {
    Seq::new(qs.len(), |i: int| qs[i]@)
}

} // verus!
